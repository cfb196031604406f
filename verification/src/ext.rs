use vstd::prelude::*;
use vstd::string::StrSliceExecFns;
use crate::normalize::dot_free;

verus! {

// A file name carries an extension when it has a dot that is not its
// first character; the raw extension is everything after the last
// such dot.  Dotfiles like `.hidden` therefore have no extension,
// while `.hidden.rs` has extension `rs`.

/// Index of the last `.` in the sequence, or -1 when there is none.
pub open spec fn last_dot_index(s: Seq<char>) -> int
    decreases s.len(),
{
    if s.len() == 0 {
        -1
    } else if s[s.len() - 1] == '.' {
        s.len() - 1
    } else {
        last_dot_index(s.subrange(0, s.len() - 1))
    }
}

/// The raw extension of a file name: the characters after the final
/// dot, provided some earlier character exists (so a lone leading dot
/// marks a dotfile, not an extension).
pub open spec fn ext_of_spec(s: Seq<char>) -> Option<Seq<char>> {
    let i = last_dot_index(s);
    if i >= 1 {
        Some(s.subrange(i + 1, s.len() as int))
    } else {
        None
    }
}

/// A dot with nothing but non-dots after it is the last dot.
proof fn lemma_last_dot_at(s: Seq<char>, i: int)
    requires
        0 <= i < s.len(),
        s[i] == '.',
        forall|k: int| i < k < s.len() ==> s[k] != '.',
    ensures
        last_dot_index(s) == i,
    decreases s.len(),
{
    if i < s.len() - 1 {
        let t = s.subrange(0, s.len() - 1);
        lemma_last_dot_at(t, i);
    }
}

/// A sequence without any dot has no last dot.
proof fn lemma_last_dot_none(s: Seq<char>)
    requires
        forall|k: int| 0 <= k < s.len() ==> s[k] != '.',
    ensures
        last_dot_index(s) == -1,
    decreases s.len(),
{
    if s.len() > 0 {
        lemma_last_dot_none(s.subrange(0, s.len() - 1));
    }
}

/// The last-dot position is a position of the sequence, or -1.
proof fn lemma_last_dot_bounds(s: Seq<char>)
    ensures
        -1 <= last_dot_index(s) < s.len(),
    decreases s.len(),
{
    if s.len() > 0 && s[s.len() - 1] != '.' {
        lemma_last_dot_bounds(s.subrange(0, s.len() - 1));
    }
}

/// Nothing after the last dot is a dot.
proof fn lemma_no_dots_after_last(s: Seq<char>)
    ensures
        forall|j: int| last_dot_index(s) < j < s.len() ==> s[j] != '.',
    decreases s.len(),
{
    lemma_last_dot_bounds(s);
    if s.len() > 0 && s[s.len() - 1] != '.' {
        let t = s.subrange(0, s.len() - 1);
        lemma_no_dots_after_last(t);
        lemma_last_dot_bounds(t);
        assert forall|j: int| last_dot_index(s) < j < s.len() implies s[j] != '.' by {
            if j < s.len() - 1 {
                assert(t[j] == s[j]);
            }
        }
    }
}

/// An extracted extension token never contains a separator dot: it is
/// the part of the name after the last one.
pub proof fn lemma_ext_of_dot_free(s: Seq<char>)
    ensures
        (ext_of_spec(s) matches Some(e) ==> dot_free(e)),
{
    lemma_last_dot_bounds(s);
    lemma_no_dots_after_last(s);
    let i = last_dot_index(s);
    if i >= 1 {
        let e = s.subrange(i + 1, s.len() as int);
        assert forall|j: int| 0 <= j < e.len() implies e[j] != '.' by {
            assert(e[j] == s[i + 1 + j]);
        }
    }
}

/// Extracts the raw extension token from a file name, or returns
/// `None` when the name has no dot-separated suffix.
pub fn extension_of(name: &str) -> (r: Option<String>)
    ensures
        (r matches Some(e) ==> ext_of_spec(name@) == Some(e@)),
        (r is None ==> ext_of_spec(name@) is None),
{
    let n = name.unicode_len();
    let ghost s = name@;
    let mut last: usize = 0;
    let mut found = false;
    let mut k: usize = 0;
    while k < n
        invariant
            0 <= k <= n,
            n == s.len(),
            s == name@,
            found ==> (last < k && s[last as int] == '.' && forall|m: int|
                last < m < k ==> s[m] != '.'),
            !found ==> forall|m: int| 0 <= m < k ==> s[m] != '.',
        decreases n - k,
    {
        if name.get_char(k) == '.' {
            last = k;
            found = true;
        }
        k += 1;
    }
    if found && last >= 1 {
        proof {
            lemma_last_dot_at(s, last as int);
        }
        Some(name.substring_char(last + 1, n).to_owned())
    } else {
        proof {
            if found {
                lemma_last_dot_at(s, last as int);
            } else {
                lemma_last_dot_none(s);
            }
        }
        None
    }
}

} // verus!
