use vstd::prelude::*;
use crate::normalize::{normalize_spec, normalize_ext};

verus! {

// The filter decides, per raw extension token, whether a file is
// counted.  Both filter lists are normalized once when the filter is
// built; the file's token is normalized before the membership checks.
// An empty inclusion list places no restriction, and exclusion always
// wins over inclusion.

/// The set of tokens denoted by a sequence of strings, as they stand.
pub open spec fn token_set(ts: Seq<String>) -> Set<Seq<char>> {
    Set::new(|x: Seq<char>| exists|i: int| 0 <= i < ts.len() && ts[i]@ == x)
}

/// The set of canonical tokens denoted by a sequence of raw
/// user-supplied strings.
pub open spec fn norm_token_set(ts: Seq<String>) -> Set<Seq<char>> {
    Set::new(|x: Seq<char>| exists|i: int| 0 <= i < ts.len() && normalize_spec(ts[i]@) == x)
}

/// Whether a raw token is counted under inclusion set `inc` and
/// exclusion set `exc` (both of canonical tokens): the normalized
/// token must be included (vacuously, when `inc` is empty) and must
/// not be excluded.
pub open spec fn passes_spec(raw: Seq<char>, inc: Set<Seq<char>>, exc: Set<Seq<char>>) -> bool {
    let n = normalize_spec(raw);
    (inc.is_empty() || inc.contains(n)) && !(!exc.is_empty() && exc.contains(n))
}

/// Exclusion wins: a token whose canonical form is excluded never
/// passes, no matter what the inclusion set says.
pub proof fn lemma_exclude_wins(raw: Seq<char>, inc: Set<Seq<char>>, exc: Set<Seq<char>>)
    requires
        exc.contains(normalize_spec(raw)),
    ensures
        !passes_spec(raw, inc, exc),
{
    assert(!exc.is_empty());
}

/// Inclusion and exclusion sets over canonical tokens, built once
/// from the raw user-supplied filter strings.
pub struct FilterSpec {
    includes: Vec<String>,
    excludes: Vec<String>,
}

impl FilterSpec {
    /// The canonical tokens that are included (empty: no restriction).
    pub closed spec fn inc_set(self) -> Set<Seq<char>> {
        token_set(self.includes@)
    }

    /// The canonical tokens that are excluded.
    pub closed spec fn exc_set(self) -> Set<Seq<char>> {
        token_set(self.excludes@)
    }

    /// Builds the filter by normalizing every user-supplied string.
    pub fn new(includes: &Vec<String>, excludes: &Vec<String>) -> (r: FilterSpec)
        ensures
            r.inc_set() == norm_token_set(includes@),
            r.exc_set() == norm_token_set(excludes@),
    {
        let inc = normalize_all(includes);
        let exc = normalize_all(excludes);
        FilterSpec { includes: inc, excludes: exc }
    }

    /// Whether the raw token `raw` is counted under this filter.
    pub fn passes(&self, raw: &str) -> (b: bool)
        ensures
            b == passes_spec(raw@, self.inc_set(), self.exc_set()),
    {
        let n = normalize_ext(raw);
        proof {
            lemma_token_set_empty(self.includes@);
            lemma_token_set_empty(self.excludes@);
        }
        let included = self.includes.len() == 0 || contains_token(&self.includes, &n);
        let excluded = self.excludes.len() > 0 && contains_token(&self.excludes, &n);
        included && !excluded
    }
}

/// The token set of a string sequence is empty exactly when the
/// sequence is.
proof fn lemma_token_set_empty(ts: Seq<String>)
    ensures
        token_set(ts).is_empty() <==> ts.len() == 0,
{
    if ts.len() > 0 {
        assert(token_set(ts).contains(ts[0]@));
    } else {
        assert(token_set(ts) =~= Set::<Seq<char>>::empty());
    }
}

/// Normalizes every string of a list.
fn normalize_all(ts: &Vec<String>) -> (r: Vec<String>)
    ensures
        token_set(r@) == norm_token_set(ts@),
{
    let mut r: Vec<String> = Vec::new();
    let mut i: usize = 0;
    while i < ts.len()
        invariant
            0 <= i <= ts@.len(),
            r@.len() == i,
            forall|k: int| 0 <= k < i ==> r@[k]@ == normalize_spec(ts@[k]@),
        decreases ts@.len() - i,
    {
        let n = normalize_ext(ts[i].as_str());
        r.push(n);
        i += 1;
    }
    proof {
        assert forall|x: Seq<char>| token_set(r@).contains(x) implies norm_token_set(
            ts@,
        ).contains(x) by {
            let i = choose|i: int| 0 <= i < r@.len() && r@[i]@ == x;
            assert(normalize_spec(ts@[i]@) == x);
        }
        assert forall|x: Seq<char>| norm_token_set(ts@).contains(x) implies token_set(
            r@,
        ).contains(x) by {
            let i = choose|i: int| 0 <= i < ts@.len() && normalize_spec(ts@[i]@) == x;
            assert(r@[i]@ == x);
        }
        assert(token_set(r@) =~= norm_token_set(ts@));
    }
    r
}

/// Linear membership test of a token among the strings of a list.
fn contains_token(v: &Vec<String>, t: &String) -> (b: bool)
    ensures
        b == token_set(v@).contains(t@),
{
    let mut i: usize = 0;
    while i < v.len()
        invariant
            0 <= i <= v@.len(),
            forall|k: int| 0 <= k < i ==> v@[k]@ != t@,
        decreases v@.len() - i,
    {
        if v[i] == *t {
            return true;
        }
        i += 1;
    }
    false
}

} // verus!
