use vstd::prelude::*;
use vstd::string::StrSliceExecFns;

verus! {

// The aggregation result: a mapping from canonical extension token to
// file count, held as a list of entries with pairwise-distinct keys
// and strictly positive counts.  All contracts speak through the
// total count function `count`, under which insertion order is
// irrelevant; partial maps built by independent workers combine with
// `merge`, which sums counts pointwise.

/// Sum of the counts recorded for `key` in a sequence of entries.
pub open spec fn seq_count(es: Seq<(String, u64)>, key: Seq<char>) -> nat
    decreases es.len(),
{
    if es.len() == 0 {
        0
    } else {
        seq_count(es.drop_last(), key) + if es.last().0@ == key {
            es.last().1 as nat
        } else {
            0nat
        }
    }
}

/// Sum of all counts in a sequence of entries.
pub open spec fn seq_total(es: Seq<(String, u64)>) -> nat
    decreases es.len(),
{
    if es.len() == 0 {
        0
    } else {
        seq_total(es.drop_last()) + es.last().1 as nat
    }
}

/// With pairwise-distinct keys, the count of an entry's key is that
/// entry's value.
pub proof fn lemma_seq_count_unique(es: Seq<(String, u64)>, i: int)
    requires
        0 <= i < es.len(),
        forall|p: int, q: int| 0 <= p < q < es.len() ==> es[p].0@ != es[q].0@,
    ensures
        seq_count(es, es[i].0@) == es[i].1 as nat,
    decreases es.len(),
{
    if i == es.len() - 1 {
        lemma_seq_count_absent(es.drop_last(), es[i].0@);
    } else {
        lemma_seq_count_unique(es.drop_last(), i);
    }
}

/// A key that appears in no entry has count zero.
pub proof fn lemma_seq_count_absent(es: Seq<(String, u64)>, key: Seq<char>)
    requires
        forall|p: int| 0 <= p < es.len() ==> es[p].0@ != key,
    ensures
        seq_count(es, key) == 0,
    decreases es.len(),
{
    if es.len() > 0 {
        lemma_seq_count_absent(es.drop_last(), key);
    }
}

/// An entry's value bounds the count of its key from below.
pub proof fn lemma_seq_count_lower_bound(es: Seq<(String, u64)>, p: int)
    requires
        0 <= p < es.len(),
    ensures
        seq_count(es, es[p].0@) >= es[p].1 as nat,
    decreases es.len(),
{
    if p == es.len() - 1 {
    } else {
        lemma_seq_count_lower_bound(es.drop_last(), p);
    }
}

/// Counts of keys add up over concatenation.
pub proof fn lemma_seq_count_concat(s1: Seq<(String, u64)>, s2: Seq<(String, u64)>, key: Seq<char>)
    ensures
        seq_count(s1 + s2, key) == seq_count(s1, key) + seq_count(s2, key),
        seq_total(s1 + s2) == seq_total(s1) + seq_total(s2),
    decreases s2.len(),
{
    if s2.len() == 0 {
        assert(s1 + s2 =~= s1);
    } else {
        assert((s1 + s2).drop_last() =~= s1 + s2.drop_last());
        assert((s1 + s2).last() == s2.last());
        lemma_seq_count_concat(s1, s2.drop_last(), key);
    }
}

/// Inserting an entry adds exactly that entry's contribution.
pub proof fn lemma_seq_count_insert(es: Seq<(String, u64)>, i: int, x: (String, u64), key: Seq<char>)
    requires
        0 <= i <= es.len(),
    ensures
        seq_count(es.insert(i, x), key) == seq_count(es, key) + (if x.0@ == key {
            x.1 as nat
        } else {
            0nat
        }),
        seq_total(es.insert(i, x)) == seq_total(es) + x.1 as nat,
{
    let front = es.subrange(0, i);
    let back = es.subrange(i, es.len() as int);
    assert(es.insert(i, x) == front.push(x) + back);
    assert(front.push(x).drop_last() =~= front);
    lemma_seq_count_concat(front.push(x), back, key);
    lemma_seq_count_concat(front, back, key);
    assert(front + back =~= es);
}

/// How one update of an entry shifts the count of a single key,
/// stated additively to stay in the naturals.
proof fn lemma_seq_count_update_at(es: Seq<(String, u64)>, i: int, x: (String, u64), k: Seq<char>)
    requires
        0 <= i < es.len(),
    ensures
        seq_count(es.update(i, x), k) + (if es[i].0@ == k {
            es[i].1 as nat
        } else {
            0nat
        }) == seq_count(es, k) + (if x.0@ == k {
            x.1 as nat
        } else {
            0nat
        }),
    decreases es.len(),
{
    if i == es.len() - 1 {
        assert(es.update(i, x).drop_last() =~= es.drop_last());
        assert(es.update(i, x).last() == x);
    } else {
        assert(es.update(i, x).drop_last() =~= es.drop_last().update(i, x));
        assert(es.drop_last()[i] == es[i]);
        assert(es.update(i, x).last() == es.last());
        lemma_seq_count_update_at(es.drop_last(), i, x, k);
    }
}

/// How one update of an entry shifts the total.
proof fn lemma_seq_total_update(es: Seq<(String, u64)>, i: int, x: (String, u64))
    requires
        0 <= i < es.len(),
    ensures
        seq_total(es.update(i, x)) + es[i].1 as nat == seq_total(es) + x.1 as nat,
    decreases es.len(),
{
    if i == es.len() - 1 {
        assert(es.update(i, x).drop_last() =~= es.drop_last());
    } else {
        assert(es.update(i, x).drop_last() =~= es.drop_last().update(i, x));
        assert(es.drop_last()[i] == es[i]);
        lemma_seq_total_update(es.drop_last(), i, x);
    }
}

/// Mapping from canonical extension token to the number of files that
/// carried it: the engine's sole output.
#[derive(Debug)]
pub struct CountMap {
    entries: Vec<(String, u64)>,
}

impl CountMap {
    /// The count recorded for `key`; zero when the key is absent.
    pub closed spec fn count(self, key: Seq<char>) -> nat {
        seq_count(self.entries@, key)
    }

    /// The sum of all counts: the number of files that were counted.
    pub closed spec fn total(self) -> nat {
        seq_total(self.entries@)
    }

    /// Keys are pairwise distinct and every recorded count is positive.
    pub closed spec fn wf(self) -> bool {
        &&& forall|p: int, q: int|
            0 <= p < q < self.entries@.len() ==> self.entries@[p].0@ != self.entries@[q].0@
        &&& forall|p: int| 0 <= p < self.entries@.len() ==> self.entries@[p].1 >= 1
    }

    /// The empty mapping.
    pub fn new() -> (m: CountMap)
        ensures
            m.wf(),
            forall|k: Seq<char>| m.count(k) == 0,
            m.total() == 0,
    {
        CountMap { entries: Vec::new() }
    }

    /// Adds `n` to the count of `token`, creating the entry if needed.
    pub fn add_count(&mut self, token: String, n: u64)
        requires
            old(self).wf(),
            n >= 1,
            old(self).count(token@) + n <= u64::MAX,
        ensures
            final(self).wf(),
            final(self).count(token@) == old(self).count(token@) + n,
            forall|k: Seq<char>| k != token@ ==> final(self).count(k) == old(self).count(k),
            final(self).total() == old(self).total() + n,
    {
        let ghost es = self.entries@;
        let len = self.entries.len();
        let mut i: usize = 0;
        while i < len
            invariant
                0 <= i <= len,
                len == es.len(),
                es == self.entries@,
                es == old(self).entries@,
                self.wf(),
                n >= 1,
                seq_count(es, token@) + n <= u64::MAX,
                forall|p: int| 0 <= p < i ==> es[p].0@ != token@,
            decreases len - i,
        {
            if self.entries[i].0 == token {
                proof {
                    lemma_seq_count_unique(es, i as int);
                }
                let v = self.entries[i].1;
                let updated = (token, v + n);
                self.entries[i] = updated;
                proof {
                    lemma_seq_total_update(es, i as int, updated);
                    assert forall|k: Seq<char>|
                        seq_count(es.update(i as int, updated), k) + (if es[i as int].0@ == k {
                            es[i as int].1 as nat
                        } else {
                            0nat
                        }) == seq_count(es, k) + (if updated.0@ == k {
                            updated.1 as nat
                        } else {
                            0nat
                        }) by {
                        lemma_seq_count_update_at(es, i as int, updated, k);
                    }
                }
                return ;
            }
            i += 1;
        }
        proof {
            lemma_seq_count_absent(es, token@);
            assert(es.push((token, n)).drop_last() =~= es);
        }
        self.entries.push((token, n));
    }

    /// Adds one file with canonical extension `token` to the mapping.
    pub fn increment(&mut self, token: String)
        requires
            old(self).wf(),
            old(self).count(token@) < u64::MAX,
        ensures
            final(self).wf(),
            final(self).count(token@) == old(self).count(token@) + 1,
            forall|k: Seq<char>| k != token@ ==> final(self).count(k) == old(self).count(k),
            final(self).total() == old(self).total() + 1,
    {
        self.add_count(token, 1);
    }

    /// Merges another partial mapping into this one by summing the
    /// counts of every key: the combining step of parallel
    /// aggregation.
    pub fn merge(&mut self, other: &CountMap)
        requires
            old(self).wf(),
            other.wf(),
            forall|k: Seq<char>| old(self).count(k) + other.count(k) <= u64::MAX,
        ensures
            final(self).wf(),
            forall|k: Seq<char>| final(self).count(k) == old(self).count(k) + other.count(k),
            final(self).total() == old(self).total() + other.total(),
    {
        let ghost os = other.entries@;
        let m = other.entries.len();
        let mut j: usize = 0;
        while j < m
            invariant
                0 <= j <= m,
                m == os.len(),
                os == other.entries@,
                other.wf(),
                self.wf(),
                old(self).wf(),
                forall|k: Seq<char>|
                    self.count(k) == old(self).count(k) + seq_count(os.take(j as int), k),
                self.total() == old(self).total() + seq_total(os.take(j as int)),
                forall|k: Seq<char>| old(self).count(k) + other.count(k) <= u64::MAX,
            decreases m - j,
        {
            let key = other.entries[j].0.clone();
            let v = other.entries[j].1;
            proof {
                lemma_seq_count_unique(os, j as int);
                lemma_seq_count_take_absent(os, j as int);
                assert(key@ == os[j as int].0@);
                assert(other.count(key@) == v);
                assert(seq_count(os.take(j as int), key@) == 0);
                assert(self.count(key@) == old(self).count(key@));
                assert(os.take(j as int + 1).drop_last() =~= os.take(j as int));
                assert(self.count(key@) + v <= u64::MAX);
            }
            self.add_count(key, v);
            j += 1;
        }
        proof {
            assert(os.take(m as int) =~= os);
        }
    }

    /// The recorded count for `key`, zero when absent.
    pub fn get(&self, key: &str) -> (r: u64)
        requires
            self.wf(),
        ensures
            r as nat == self.count(key@),
    {
        let ghost es = self.entries@;
        let len = self.entries.len();
        let mut i: usize = 0;
        while i < len
            invariant
                0 <= i <= len,
                len == es.len(),
                es == self.entries@,
                self.wf(),
                forall|p: int| 0 <= p < i ==> es[p].0@ != key@,
            decreases len - i,
        {
            if str_eq(self.entries[i].0.as_str(), key) {
                proof {
                    lemma_seq_count_unique(es, i as int);
                }
                return self.entries[i].1;
            }
            i += 1;
        }
        proof {
            lemma_seq_count_absent(es, key@);
        }
        0
    }

    /// Whether nothing was counted.
    pub fn is_empty(&self) -> (b: bool)
        requires
            self.wf(),
        ensures
            b == (self.total() == 0),
            b ==> forall|k: Seq<char>| self.count(k) == 0,
    {
        proof {
            if self.entries@.len() > 0 {
                assert(self.total() >= self.entries@.last().1);
            } else {
                assert forall|k: Seq<char>| self.count(k) == 0 by {
                    lemma_seq_count_absent(self.entries@, k);
                }
            }
        }
        self.entries.len() == 0
    }

    /// The entries of the mapping, one per counted extension, in no
    /// particular order.
    pub fn entries(&self) -> (r: &Vec<(String, u64)>)
        requires
            self.wf(),
        ensures
            forall|k: Seq<char>| seq_count(r@, k) == self.count(k),
            seq_total(r@) == self.total(),
            forall|p: int, q: int| 0 <= p < q < r@.len() ==> r@[p].0@ != r@[q].0@,
            forall|p: int| 0 <= p < r@.len() ==> r@[p].1 >= 1,
    {
        &self.entries
    }
}

/// Within a prefix that stops at `i`, the key of entry `i` does not
/// occur, provided keys are pairwise distinct.
proof fn lemma_seq_count_take_absent(es: Seq<(String, u64)>, i: int)
    requires
        0 <= i < es.len(),
        forall|p: int, q: int| 0 <= p < q < es.len() ==> es[p].0@ != es[q].0@,
    ensures
        seq_count(es.take(i), es[i].0@) == 0,
{
    lemma_seq_count_absent(es.take(i), es[i].0@);
}

/// Character-by-character string equality.
pub fn str_eq(a: &str, b: &str) -> (r: bool)
    ensures
        r == (a@ == b@),
{
    let n = a.unicode_len();
    let m = b.unicode_len();
    if n != m {
        return false;
    }
    let mut i: usize = 0;
    while i < n
        invariant
            0 <= i <= n,
            n == a@.len(),
            n == b@.len(),
            forall|k: int| 0 <= k < i ==> a@[k] == b@[k],
        decreases n - i,
    {
        if a.get_char(i) != b.get_char(i) {
            return false;
        }
        i += 1;
    }
    proof {
        assert(a@ =~= b@);
    }
    true
}

} // verus!
