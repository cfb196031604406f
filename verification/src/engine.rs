use vstd::prelude::*;
use crate::countmap::CountMap;
use crate::ext::{ext_of_spec, extension_of, lemma_ext_of_dot_free};
use crate::filter::{FilterSpec, passes_spec, lemma_exclude_wins};
use crate::normalize::{
    dot_free, lemma_normalize_idempotent_dot_free, normalize_ext, normalize_spec,
};

verus! {

// The aggregation stage: a sequence of raw extension tokens is
// filtered, normalized, and folded into a CountMap.  Counting is
// defined token by token, so it can be split across independent
// workers over disjoint slices and the partial maps merged; the laws
// below show the result does not depend on the split.

/// The views of a sequence of strings.
pub open spec fn views_of(ts: Seq<String>) -> Seq<Seq<char>> {
    ts.map_values(|t: String| t@)
}

/// The number of occurrences of `key` in a token sequence.
pub open spec fn count_in(tokens: Seq<Seq<char>>, key: Seq<char>) -> nat
    decreases tokens.len(),
{
    if tokens.len() == 0 {
        0
    } else {
        count_in(tokens.drop_last(), key) + if tokens.last() == key {
            1nat
        } else {
            0nat
        }
    }
}

/// The canonical tokens that survive the filter, in input order: each
/// raw token that passes contributes its normalized form.
pub open spec fn kept_tokens(raws: Seq<Seq<char>>, inc: Set<Seq<char>>, exc: Set<Seq<char>>) -> Seq<
    Seq<char>,
>
    decreases raws.len(),
{
    if raws.len() == 0 {
        Seq::empty()
    } else {
        let rest = kept_tokens(raws.drop_last(), inc, exc);
        if passes_spec(raws.last(), inc, exc) {
            rest.push(normalize_spec(raws.last()))
        } else {
            rest
        }
    }
}

/// The names of the regular files among the walked entries: each
/// entry pairs a file name with whether it is a regular file.
pub open spec fn file_names(entries: Seq<(String, bool)>) -> Seq<Seq<char>>
    decreases entries.len(),
{
    if entries.len() == 0 {
        Seq::empty()
    } else {
        let rest = file_names(entries.drop_last());
        if entries.last().1 {
            rest.push(entries.last().0@)
        } else {
            rest
        }
    }
}

/// The raw extension tokens of a sequence of file names; names
/// without an extension contribute nothing.
pub open spec fn raw_tokens(names: Seq<Seq<char>>) -> Seq<Seq<char>>
    decreases names.len(),
{
    if names.len() == 0 {
        Seq::empty()
    } else {
        let rest = raw_tokens(names.drop_last());
        match ext_of_spec(names.last()) {
            Some(e) => rest.push(e),
            None => rest,
        }
    }
}

/// Collects the raw extension tokens of the regular files among the
/// walked entries, in order.
pub fn extract_raw_tokens(entries: &Vec<(String, bool)>) -> (r: Vec<String>)
    ensures
        views_of(r@) == raw_tokens(file_names(entries@)),
{
    let mut r: Vec<String> = Vec::new();
    let len = entries.len();
    let mut i: usize = 0;
    proof {
        assert(entries@.take(0) =~= Seq::<(String, bool)>::empty());
        assert(views_of(r@) =~= raw_tokens(file_names(entries@.take(0))));
    }
    while i < len
        invariant
            0 <= i <= len,
            len == entries@.len(),
            views_of(r@) == raw_tokens(file_names(entries@.take(i as int))),
        decreases len - i,
    {
        let ghost pre = entries@.take(i as int);
        let ghost cur = entries@.take(i as int + 1);
        proof {
            assert(cur.drop_last() =~= pre);
            assert(cur.last() == entries@[i as int]);
        }
        if entries[i].1 {
            let ghost names = file_names(pre).push(entries@[i as int].0@);
            proof {
                assert(file_names(cur) == names);
                assert(names.drop_last() =~= file_names(pre));
                assert(names.last() == entries@[i as int].0@);
            }
            match extension_of(entries[i].0.as_str()) {
                Some(e) => {
                    let ghost old_r = r@;
                    r.push(e);
                    proof {
                        assert(views_of(r@) =~= views_of(old_r).push(e@));
                    }
                },
                None => {},
            }
        } else {
            proof {
                assert(file_names(cur) == file_names(pre));
            }
        }
        i += 1;
    }
    proof {
        assert(entries@.take(len as int) =~= entries@);
    }
    r
}

/// No key occurs more often than there are tokens.
pub proof fn lemma_count_in_le_len(tokens: Seq<Seq<char>>, key: Seq<char>)
    ensures
        count_in(tokens, key) <= tokens.len(),
    decreases tokens.len(),
{
    if tokens.len() > 0 {
        lemma_count_in_le_len(tokens.drop_last(), key);
    }
}

/// The filter never adds tokens.
pub proof fn lemma_kept_le_len(raws: Seq<Seq<char>>, inc: Set<Seq<char>>, exc: Set<Seq<char>>)
    ensures
        kept_tokens(raws, inc, exc).len() <= raws.len(),
    decreases raws.len(),
{
    if raws.len() > 0 {
        lemma_kept_le_len(raws.drop_last(), inc, exc);
    }
}

/// Counting distributes over concatenation and is insensitive to the
/// order of the two halves: the additive heart of order-independent
/// aggregation.
pub proof fn lemma_count_in_concat(s1: Seq<Seq<char>>, s2: Seq<Seq<char>>, key: Seq<char>)
    ensures
        count_in(s1 + s2, key) == count_in(s1, key) + count_in(s2, key),
    decreases s2.len(),
{
    if s2.len() == 0 {
        assert(s1 + s2 =~= s1);
    } else {
        assert((s1 + s2).drop_last() =~= s1 + s2.drop_last());
        assert((s1 + s2).last() == s2.last());
        lemma_count_in_concat(s1, s2.drop_last(), key);
    }
}

/// Counting is insensitive to the order in which two slices are
/// combined.
pub proof fn lemma_count_in_comm(s1: Seq<Seq<char>>, s2: Seq<Seq<char>>, key: Seq<char>)
    ensures
        count_in(s1 + s2, key) == count_in(s2 + s1, key),
{
    lemma_count_in_concat(s1, s2, key);
    lemma_count_in_concat(s2, s1, key);
}

/// The filter distributes over concatenation: a token's fate depends
/// only on itself.
pub proof fn lemma_kept_concat(
    s1: Seq<Seq<char>>,
    s2: Seq<Seq<char>>,
    inc: Set<Seq<char>>,
    exc: Set<Seq<char>>,
)
    ensures
        kept_tokens(s1 + s2, inc, exc) == kept_tokens(s1, inc, exc) + kept_tokens(s2, inc, exc),
    decreases s2.len(),
{
    if s2.len() == 0 {
        assert(s1 + s2 =~= s1);
        assert(kept_tokens(s1, inc, exc) + kept_tokens(s2, inc, exc) =~= kept_tokens(
            s1,
            inc,
            exc,
        ));
    } else {
        assert((s1 + s2).drop_last() =~= s1 + s2.drop_last());
        assert((s1 + s2).last() == s2.last());
        lemma_kept_concat(s1, s2.drop_last(), inc, exc);
        if passes_spec(s2.last(), inc, exc) {
            assert((kept_tokens(s1, inc, exc) + kept_tokens(s2.drop_last(), inc, exc)).push(
                normalize_spec(s2.last()),
            ) =~= kept_tokens(s1, inc, exc) + kept_tokens(s2.drop_last(), inc, exc).push(
                normalize_spec(s2.last()),
            ));
        }
    }
}

/// A sequence of identical tokens counts entirely toward that token:
/// a directory holding only files of one extension yields exactly
/// that one key, with the number of files as its count.
pub proof fn lemma_uniform_tokens(tokens: Seq<Seq<char>>, e: Seq<char>)
    requires
        forall|i: int| 0 <= i < tokens.len() ==> tokens[i] == e,
    ensures
        count_in(tokens, e) == tokens.len(),
        forall|k: Seq<char>| k != e ==> count_in(tokens, k) == 0,
    decreases tokens.len(),
{
    if tokens.len() > 0 {
        lemma_uniform_tokens(tokens.drop_last(), e);
        assert forall|k: Seq<char>| k != e implies count_in(tokens, k) == 0 by {
            assert(count_in(tokens.drop_last(), k) == 0);
        }
    }
}

/// An excluded canonical token is never among the kept tokens, no
/// matter what the inclusion set says: exclusion wins.
pub proof fn lemma_excluded_never_counted(
    raws: Seq<Seq<char>>,
    inc: Set<Seq<char>>,
    exc: Set<Seq<char>>,
    key: Seq<char>,
)
    requires
        exc.contains(key),
    ensures
        count_in(kept_tokens(raws, inc, exc), key) == 0,
    decreases raws.len(),
{
    if raws.len() > 0 {
        lemma_excluded_never_counted(raws.drop_last(), inc, exc, key);
        if passes_spec(raws.last(), inc, exc) {
            let rest = kept_tokens(raws.drop_last(), inc, exc);
            assert(rest.push(normalize_spec(raws.last())).drop_last() =~= rest);
            if normalize_spec(raws.last()) == key {
                lemma_exclude_wins(raws.last(), inc, exc);
            }
        }
    }
}

/// Every raw token extracted from a file name is dot-free: it is the
/// part of the name after its last dot.
pub proof fn lemma_raw_tokens_dot_free(names: Seq<Seq<char>>)
    ensures
        forall|i: int| 0 <= i < raw_tokens(names).len() ==> dot_free(#[trigger] raw_tokens(names)[i]),
    decreases names.len(),
{
    if names.len() > 0 {
        lemma_raw_tokens_dot_free(names.drop_last());
        let rest = raw_tokens(names.drop_last());
        lemma_ext_of_dot_free(names.last());
        match ext_of_spec(names.last()) {
            Some(e) => {
                assert forall|i: int|
                    0 <= i < raw_tokens(names).len() implies dot_free(
                    #[trigger] raw_tokens(names)[i],
                ) by {
                    assert(raw_tokens(names) == rest.push(e));
                    if i < rest.len() {
                        assert(rest.push(e)[i] == rest[i]);
                    } else {
                        assert(rest.push(e)[i] == e);
                    }
                }
            },
            None => {},
        }
    }
}

/// A key with a positive count over dot-free raw tokens is canonical:
/// it is its own normal form.
pub proof fn lemma_counted_is_canonical(
    raws: Seq<Seq<char>>,
    inc: Set<Seq<char>>,
    exc: Set<Seq<char>>,
    key: Seq<char>,
)
    requires
        count_in(kept_tokens(raws, inc, exc), key) > 0,
        forall|i: int| 0 <= i < raws.len() ==> dot_free(#[trigger] raws[i]),
    ensures
        key == normalize_spec(key),
    decreases raws.len(),
{
    if raws.len() > 0 {
        let rest = kept_tokens(raws.drop_last(), inc, exc);
        if passes_spec(raws.last(), inc, exc) {
            assert(rest.push(normalize_spec(raws.last())).drop_last() =~= rest);
            if normalize_spec(raws.last()) == key {
                lemma_normalize_idempotent_dot_free(raws.last());
            } else {
                lemma_counted_is_canonical(raws.drop_last(), inc, exc, key);
            }
        } else {
            lemma_counted_is_canonical(raws.drop_last(), inc, exc, key);
        }
    }
}

/// A key with a positive count is a kept token, so when the inclusion
/// set is non-empty the key belongs to it.
pub proof fn lemma_counted_is_included(
    raws: Seq<Seq<char>>,
    inc: Set<Seq<char>>,
    exc: Set<Seq<char>>,
    key: Seq<char>,
)
    requires
        count_in(kept_tokens(raws, inc, exc), key) > 0,
        !inc.is_empty(),
    ensures
        inc.contains(key),
    decreases raws.len(),
{
    if raws.len() > 0 {
        let rest = kept_tokens(raws.drop_last(), inc, exc);
        if passes_spec(raws.last(), inc, exc) {
            assert(rest.push(normalize_spec(raws.last())).drop_last() =~= rest);
            if normalize_spec(raws.last()) != key {
                lemma_counted_is_included(raws.drop_last(), inc, exc, key);
            }
        } else {
            lemma_counted_is_included(raws.drop_last(), inc, exc, key);
        }
    }
}

/// Counts the tokens of `tokens[from..to]` that pass the filter,
/// under their canonical form.
fn count_range(tokens: &Vec<String>, from: usize, to: usize, filter: &FilterSpec) -> (m: CountMap)
    requires
        from <= to <= tokens@.len(),
    ensures
        m.wf(),
        forall|k: Seq<char>|
            m.count(k) == count_in(
                kept_tokens(
                    views_of(tokens@).subrange(from as int, to as int),
                    filter.inc_set(),
                    filter.exc_set(),
                ),
                k,
            ),
        m.total() == kept_tokens(
            views_of(tokens@).subrange(from as int, to as int),
            filter.inc_set(),
            filter.exc_set(),
        ).len(),
{
    let ghost vs = views_of(tokens@);
    let ghost inc = filter.inc_set();
    let ghost exc = filter.exc_set();
    let mut m = CountMap::new();
    let mut i: usize = from;
    proof {
        assert(vs.subrange(from as int, from as int) =~= Seq::<Seq<char>>::empty());
    }
    while i < to
        invariant
            from <= i <= to <= tokens@.len(),
            vs == views_of(tokens@),
            vs.len() == tokens@.len(),
            inc == filter.inc_set(),
            exc == filter.exc_set(),
            m.wf(),
            forall|k: Seq<char>|
                m.count(k) == count_in(kept_tokens(vs.subrange(from as int, i as int), inc, exc), k),
            m.total() == kept_tokens(vs.subrange(from as int, i as int), inc, exc).len(),
        decreases to - i,
    {
        let ghost pre = vs.subrange(from as int, i as int);
        let ghost cur = vs.subrange(from as int, i as int + 1);
        proof {
            assert(cur.drop_last() =~= pre);
            assert(cur.last() == tokens@[i as int]@);
        }
        if filter.passes(tokens[i].as_str()) {
            let n = normalize_ext(tokens[i].as_str());
            proof {
                let kept = kept_tokens(pre, inc, exc);
                assert(kept_tokens(cur, inc, exc) == kept.push(n@));
                assert(kept.push(n@).drop_last() =~= kept);
                lemma_count_in_le_len(kept, n@);
                lemma_kept_le_len(pre, inc, exc);
            }
            m.increment(n);
        }
        i += 1;
    }
    m
}

/// Counts every token of `tokens` that passes the filter, under its
/// canonical form; the sum of all counts is the number of kept
/// tokens.
pub fn count_tokens(tokens: &Vec<String>, filter: &FilterSpec) -> (m: CountMap)
    ensures
        m.wf(),
        forall|k: Seq<char>|
            m.count(k) == count_in(
                kept_tokens(views_of(tokens@), filter.inc_set(), filter.exc_set()),
                k,
            ),
        m.total() == kept_tokens(views_of(tokens@), filter.inc_set(), filter.exc_set()).len(),
{
    let len = tokens.len();
    let m = count_range(tokens, 0, len, filter);
    proof {
        assert(views_of(tokens@).subrange(0, len as int) =~= views_of(tokens@));
    }
    m
}

/// Counts the same tokens as [`count_tokens`], but partitions the
/// input into `workers` contiguous slices, counts each slice into its
/// own partial map, and merges the partial maps pairwise.  The
/// contract is identical to that of [`count_tokens`]: the result does
/// not depend on the number of workers or on the split.
pub fn count_tokens_partitioned(tokens: &Vec<String>, filter: &FilterSpec, workers: usize) -> (m:
    CountMap)
    requires
        workers >= 1,
    ensures
        m.wf(),
        forall|k: Seq<char>|
            m.count(k) == count_in(
                kept_tokens(views_of(tokens@), filter.inc_set(), filter.exc_set()),
                k,
            ),
        m.total() == kept_tokens(views_of(tokens@), filter.inc_set(), filter.exc_set()).len(),
{
    let ghost vs = views_of(tokens@);
    let ghost inc = filter.inc_set();
    let ghost exc = filter.exc_set();
    let len = tokens.len();
    let mut chunk = len / workers;
    if chunk == 0 {
        chunk = 1;
    }
    let mut acc = CountMap::new();
    let mut pos: usize = 0;
    proof {
        assert(vs.subrange(0, 0) =~= Seq::<Seq<char>>::empty());
    }
    while pos < len
        invariant
            0 <= pos <= len,
            len == tokens@.len(),
            chunk >= 1,
            vs == views_of(tokens@),
            vs.len() == len,
            inc == filter.inc_set(),
            exc == filter.exc_set(),
            acc.wf(),
            forall|k: Seq<char>|
                acc.count(k) == count_in(kept_tokens(vs.subrange(0, pos as int), inc, exc), k),
            acc.total() == kept_tokens(vs.subrange(0, pos as int), inc, exc).len(),
        decreases len - pos,
    {
        let end = if len - pos < chunk {
            len
        } else {
            pos + chunk
        };
        let part = count_range(tokens, pos, end, filter);
        proof {
            let a = vs.subrange(0, pos as int);
            let b = vs.subrange(pos as int, end as int);
            let whole = vs.subrange(0, end as int);
            assert(whole =~= a + b);
            lemma_kept_concat(a, b, inc, exc);
            assert forall|k: Seq<char>|
                acc.count(k) + part.count(k) == count_in(kept_tokens(whole, inc, exc), k) by {
                lemma_count_in_concat(kept_tokens(a, inc, exc), kept_tokens(b, inc, exc), k);
            }
            assert forall|k: Seq<char>| acc.count(k) + part.count(k) <= u64::MAX by {
                lemma_count_in_le_len(kept_tokens(whole, inc, exc), k);
                lemma_kept_le_len(whole, inc, exc);
            }
        }
        acc.merge(&part);
        pos = end;
    }
    proof {
        assert(vs.subrange(0, len as int) =~= vs);
    }
    acc
}

} // verus!
