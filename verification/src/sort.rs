use vstd::prelude::*;
use vstd::string::StrSliceExecFns;
use crate::countmap::{
    lemma_seq_count_absent, lemma_seq_count_insert, lemma_seq_count_lower_bound, seq_count,
    seq_total, CountMap,
};

verus! {

// How the presentation layer orders the counted entries.  The
// ordering decision is made here, entry against entry, with an exact
// contract; the display code only feeds it to a sort and can never
// change which entry precedes which.

/// The key the output is sorted by: extension name (ascending) or
/// file count (descending).
#[derive(Clone, Copy, Debug)]
pub enum SortKey {
    Name,
    Count,
}

/// Lexicographic order on character sequences, by code point.
pub open spec fn lex_le(a: Seq<char>, b: Seq<char>) -> bool
    decreases a.len(),
{
    if a.len() == 0 {
        true
    } else if b.len() == 0 {
        false
    } else if (a[0] as u32) < (b[0] as u32) {
        true
    } else if (b[0] as u32) < (a[0] as u32) {
        false
    } else {
        lex_le(a.subrange(1, a.len() as int), b.subrange(1, b.len() as int))
    }
}

/// A common prefix does not affect the lexicographic comparison of
/// what follows it.
proof fn lemma_lex_le_skip(a: Seq<char>, b: Seq<char>, i: int)
    requires
        0 <= i <= a.len(),
        i <= b.len(),
        forall|k: int| 0 <= k < i ==> a[k] == b[k],
    ensures
        lex_le(a, b) == lex_le(a.skip(i), b.skip(i)),
    decreases i,
{
    if i == 0 {
        assert(a.skip(0) =~= a);
        assert(b.skip(0) =~= b);
    } else {
        assert(a.len() > 0 && b.len() > 0 && a[0] == b[0]);
        let a1 = a.subrange(1, a.len() as int);
        let b1 = b.subrange(1, b.len() as int);
        assert(forall|k: int| 0 <= k < i - 1 ==> a1[k] == b1[k]);
        lemma_lex_le_skip(a1, b1, i - 1);
        assert(a1.skip(i - 1) =~= a.skip(i));
        assert(b1.skip(i - 1) =~= b.skip(i));
    }
}

/// Lexicographic comparison of two strings: `a` is at or before `b`.
pub fn str_le(a: &str, b: &str) -> (r: bool)
    ensures
        r == lex_le(a@, b@),
{
    let n = a.unicode_len();
    let m = b.unicode_len();
    let mut i: usize = 0;
    while i < n && i < m
        invariant
            0 <= i <= n,
            i <= m,
            n == a@.len(),
            m == b@.len(),
            forall|k: int| 0 <= k < i ==> a@[k] == b@[k],
        decreases n - i,
    {
        let ca = a.get_char(i);
        let cb = b.get_char(i);
        if ca != cb {
            proof {
                lemma_lex_le_skip(a@, b@, i as int);
                assert(a@.skip(i as int)[0] == a@[i as int]);
                assert(b@.skip(i as int)[0] == b@[i as int]);
            }
            return (ca as u32) < (cb as u32);
        }
        i += 1;
    }
    proof {
        lemma_lex_le_skip(a@, b@, i as int);
        if i == n {
            assert(a@.skip(i as int).len() == 0);
        } else {
            assert(b@.skip(i as int).len() == 0);
            assert(a@.skip(i as int).len() > 0);
        }
    }
    n <= m
}

/// Whether entry `a` comes no later than entry `b` under the chosen
/// key: by name, ascending lexicographic order of the extension; by
/// count, descending order of the file count.
pub open spec fn entry_le(a: (String, u64), b: (String, u64), key: SortKey) -> bool {
    match key {
        SortKey::Name => lex_le(a.0@, b.0@),
        SortKey::Count => a.1 >= b.1,
    }
}

/// Exec mirror of [`entry_le`].
pub fn entry_precedes(a: &(String, u64), b: &(String, u64), key: SortKey) -> (r: bool)
    ensures
        r == entry_le(*a, *b, key),
{
    match key {
        SortKey::Name => str_le(a.0.as_str(), b.0.as_str()),
        SortKey::Count => a.1 >= b.1,
    }
}

/// The entries stand in order under the chosen key.
pub open spec fn sorted_by(es: Seq<(String, u64)>, key: SortKey) -> bool {
    forall|i: int, j: int| 0 <= i < j < es.len() ==> entry_le(es[i], es[j], key)
}

/// Lexicographic order is total.
proof fn lemma_lex_le_total(a: Seq<char>, b: Seq<char>)
    ensures
        lex_le(a, b) || lex_le(b, a),
    decreases a.len(),
{
    if a.len() > 0 && b.len() > 0 && !((a[0] as u32) < (b[0] as u32)) && !((b[0] as u32) < (
    a[0] as u32)) {
        lemma_lex_le_total(a.subrange(1, a.len() as int), b.subrange(1, b.len() as int));
    }
}

/// Lexicographic order is transitive.
proof fn lemma_lex_le_trans(a: Seq<char>, b: Seq<char>, c: Seq<char>)
    requires
        lex_le(a, b),
        lex_le(b, c),
    ensures
        lex_le(a, c),
    decreases a.len(),
{
    if a.len() > 0 {
        if !((a[0] as u32) < (b[0] as u32)) && !((b[0] as u32) < (c[0] as u32)) {
            lemma_lex_le_trans(
                a.subrange(1, a.len() as int),
                b.subrange(1, b.len() as int),
                c.subrange(1, c.len() as int),
            );
        }
    }
}

/// The entry order is total.
proof fn lemma_entry_le_total(a: (String, u64), b: (String, u64), key: SortKey)
    ensures
        entry_le(a, b, key) || entry_le(b, a, key),
{
    match key {
        SortKey::Name => lemma_lex_le_total(a.0@, b.0@),
        SortKey::Count => {},
    }
}

/// The entry order is transitive.
proof fn lemma_entry_le_trans(a: (String, u64), b: (String, u64), c: (String, u64), key: SortKey)
    requires
        entry_le(a, b, key),
        entry_le(b, c, key),
    ensures
        entry_le(a, c, key),
{
    match key {
        SortKey::Name => lemma_lex_le_trans(a.0@, b.0@, c.0@),
        SortKey::Count => {},
    }
}

/// The counted entries in order under the chosen key: an insertion
/// sort whose result carries the same counts as the mapping, key for
/// key, with keys still pairwise distinct.
pub fn sorted_entries(m: &CountMap, key: SortKey) -> (r: Vec<(String, u64)>)
    requires
        m.wf(),
    ensures
        sorted_by(r@, key),
        forall|k: Seq<char>| seq_count(r@, k) == m.count(k),
        seq_total(r@) == m.total(),
        forall|p: int, q: int| 0 <= p < q < r@.len() ==> r@[p].0@ != r@[q].0@,
        forall|p: int| 0 <= p < r@.len() ==> r@[p].1 >= 1,
{
    let entries = m.entries();
    let ghost es = entries@;
    let len = entries.len();
    let mut r: Vec<(String, u64)> = Vec::new();
    let mut i: usize = 0;
    proof {
        assert(es.take(0) =~= Seq::<(String, u64)>::empty());
    }
    while i < len
        invariant
            0 <= i <= len,
            len == es.len(),
            es == entries@,
            forall|k: Seq<char>| seq_count(es, k) == m.count(k),
            seq_total(es) == m.total(),
            forall|p: int, q: int| 0 <= p < q < es.len() ==> es[p].0@ != es[q].0@,
            forall|p: int| 0 <= p < es.len() ==> es[p].1 >= 1,
            sorted_by(r@, key),
            forall|k: Seq<char>| seq_count(r@, k) == seq_count(es.take(i as int), k),
            seq_total(r@) == seq_total(es.take(i as int)),
            forall|p: int, q: int| 0 <= p < q < r@.len() ==> r@[p].0@ != r@[q].0@,
            forall|p: int| 0 <= p < r@.len() ==> r@[p].1 >= 1,
        decreases len - i,
    {
        let x = (entries[i].0.clone(), entries[i].1);
        let rlen = r.len();
        let mut p: usize = 0;
        while p < rlen && entry_precedes(&r[p], &x, key)
            invariant
                0 <= p <= rlen,
                rlen == r@.len(),
                0 <= i < len,
                len == es.len(),
                x.0@ == es[i as int].0@ && x.1 == es[i as int].1,
                es == entries@,
                forall|q: int| 0 <= q < p ==> entry_le(r@[q], x, key),
            decreases rlen - p,
        {
            p += 1;
        }
        let ghost old_r = r@;
        proof {
            if p < rlen {
                lemma_entry_le_total(old_r[p as int], x, key);
            }
        }
        r.insert(p, x);
        proof {
            old_r.insert_ensures(p as int, x);
            // The same counts, shifted by the one inserted entry; the
            // prefix of the source grows by exactly that entry.
            assert(es.take(i as int + 1).drop_last() =~= es.take(i as int));
            assert forall|k: Seq<char>|
                seq_count(r@, k) == seq_count(es.take(i as int + 1), k) by {
                lemma_seq_count_insert(old_r, p as int, x, k);
            }
            lemma_seq_count_insert(old_r, p as int, x, x.0@);
            assert(seq_total(r@) == seq_total(es.take(i as int + 1)));
            // The inserted key is new: it does not occur before
            // position i in the source, so its old count is zero, and
            // a positive entry would contradict that.
            assert forall|q: int| 0 <= q < old_r.len() implies old_r[q].0@ != x.0@ by {
                assert forall|t: int| 0 <= t < i implies es.take(i as int)[t].0@ != x.0@ by {
                    assert(es.take(i as int)[t] == es[t]);
                }
                lemma_seq_count_absent(es.take(i as int), x.0@);
                if old_r[q].0@ == x.0@ {
                    lemma_seq_count_lower_bound(old_r, q);
                }
            }
            // Order: everything before the insertion point was at or
            // before the new entry, everything from it on comes after.
            assert forall|q1: int, q2: int|
                0 <= q1 < q2 < r@.len() implies entry_le(r@[q1], r@[q2], key) by {
                if q2 < p {
                    assert(r@[q1] == old_r[q1] && r@[q2] == old_r[q2]);
                } else if q1 < p && q2 == p {
                    assert(r@[q1] == old_r[q1] && r@[q2] == x);
                } else if q1 < p && q2 > p {
                    assert(r@[q1] == old_r[q1] && r@[q2] == old_r[q2 - 1]);
                } else if q1 == p {
                    assert(r@[q1] == x && r@[q2] == old_r[q2 - 1]);
                    assert(entry_le(x, old_r[p as int], key));
                    if q2 - 1 > p {
                        lemma_entry_le_trans(x, old_r[p as int], old_r[q2 - 1], key);
                    }
                } else {
                    assert(r@[q1] == old_r[q1 - 1] && r@[q2] == old_r[q2 - 1]);
                }
            }
        }
        i += 1;
    }
    proof {
        assert(es.take(len as int) =~= es);
    }
    r
}

} // verus!
