use vstd::prelude::*;
use vstd::string::StrSliceExecFns;

verus! {

// A raw extension token is canonicalized in three steps, in order:
// trim surrounding whitespace, strip a single leading separator dot
// if present, lowercase the remainder.  The same canonicalization is
// applied to extensions extracted from file names and to the
// user-supplied filter strings, so `.RS`, `rs` and ` .Rs ` all
// collapse to the one token `rs`.

/// Whitespace characters trimmed from the ends of a token: the
/// Unicode White_Space set, exactly what char::is_whitespace accepts.
pub open spec fn is_ws(c: char) -> bool {
    let u = c as u32;
    (0x9 <= u && u <= 0xD) || u == 0x20 || u == 0x85 || u == 0xA0 || u == 0x1680 || (0x2000 <= u
        && u <= 0x200A) || u == 0x2028 || u == 0x2029 || u == 0x202F || u == 0x205F || u == 0x3000
}

/// ASCII lowercasing of a single character; everything outside
/// `'A'..='Z'` is left unchanged.
pub open spec fn lower_char(c: char) -> char {
    match c {
        'A' => 'a',
        'B' => 'b',
        'C' => 'c',
        'D' => 'd',
        'E' => 'e',
        'F' => 'f',
        'G' => 'g',
        'H' => 'h',
        'I' => 'i',
        'J' => 'j',
        'K' => 'k',
        'L' => 'l',
        'M' => 'm',
        'N' => 'n',
        'O' => 'o',
        'P' => 'p',
        'Q' => 'q',
        'R' => 'r',
        'S' => 's',
        'T' => 't',
        'U' => 'u',
        'V' => 'v',
        'W' => 'w',
        'X' => 'x',
        'Y' => 'y',
        'Z' => 'z',
        _ => c,
    }
}

/// Pointwise ASCII lowercasing of a character sequence.
pub open spec fn lower_seq(s: Seq<char>) -> Seq<char> {
    s.map_values(|c: char| lower_char(c))
}

/// The sequence with its leading whitespace removed.
pub open spec fn trim_start_spec(s: Seq<char>) -> Seq<char>
    decreases s.len(),
{
    if s.len() > 0 && is_ws(s[0]) {
        trim_start_spec(s.subrange(1, s.len() as int))
    } else {
        s
    }
}

/// The sequence with its trailing whitespace removed.
pub open spec fn trim_end_spec(s: Seq<char>) -> Seq<char>
    decreases s.len(),
{
    if s.len() > 0 && is_ws(s[s.len() - 1]) {
        trim_end_spec(s.subrange(0, s.len() - 1))
    } else {
        s
    }
}

/// The sequence with whitespace removed from both ends.
pub open spec fn trim_spec(s: Seq<char>) -> Seq<char> {
    trim_end_spec(trim_start_spec(s))
}

/// The sequence with a single leading separator dot removed, if present.
pub open spec fn strip_dot_spec(s: Seq<char>) -> Seq<char> {
    if s.len() > 0 && s[0] == '.' {
        s.subrange(1, s.len() as int)
    } else {
        s
    }
}

/// Canonical form of a raw extension token: trim, strip one leading
/// dot, lowercase.
pub open spec fn normalize_spec(s: Seq<char>) -> Seq<char> {
    lower_seq(strip_dot_spec(trim_spec(s)))
}

/// Exec mirror of [`is_ws`].
pub fn is_ws_char(c: char) -> (r: bool)
    ensures
        r == is_ws(c),
{
    let u = c as u32;
    (0x9 <= u && u <= 0xD) || u == 0x20 || u == 0x85 || u == 0xA0 || u == 0x1680 || (0x2000 <= u
        && u <= 0x200A) || u == 0x2028 || u == 0x2029 || u == 0x202F || u == 0x205F || u == 0x3000
}

/// Exec mirror of [`lower_char`].
pub fn to_lower_char(c: char) -> (r: char)
    ensures
        r == lower_char(c),
{
    match c {
        'A' => 'a',
        'B' => 'b',
        'C' => 'c',
        'D' => 'd',
        'E' => 'e',
        'F' => 'f',
        'G' => 'g',
        'H' => 'h',
        'I' => 'i',
        'J' => 'j',
        'K' => 'k',
        'L' => 'l',
        'M' => 'm',
        'N' => 'n',
        'O' => 'o',
        'P' => 'p',
        'Q' => 'q',
        'R' => 'r',
        'S' => 's',
        'T' => 't',
        'U' => 'u',
        'V' => 'v',
        'W' => 'w',
        'X' => 'x',
        'Y' => 'y',
        'Z' => 'z',
        _ => c,
    }
}

/// Relies on String::push: appends exactly one character at the end.
#[verifier::external_body]
fn push_char(s: &mut String, c: char)
    ensures
        final(s)@ == old(s)@.push(c),
{
    s.push(c);
}

/// If everything before `lo` is whitespace and position `lo` (when it
/// exists) is not, trimming the front keeps exactly the tail from `lo`.
proof fn lemma_trim_start_range(s: Seq<char>, lo: int)
    requires
        0 <= lo <= s.len(),
        forall|k: int| 0 <= k < lo ==> is_ws(s[k]),
        lo < s.len() ==> !is_ws(s[lo]),
    ensures
        trim_start_spec(s) == s.subrange(lo, s.len() as int),
    decreases lo,
{
    if lo == 0 {
        assert(s.subrange(0, s.len() as int) =~= s);
    } else {
        let t = s.subrange(1, s.len() as int);
        assert(forall|k: int| 0 <= k < lo - 1 ==> is_ws(t[k]));
        lemma_trim_start_range(t, lo - 1);
        assert(t.subrange(lo - 1, t.len() as int) =~= s.subrange(lo, s.len() as int));
    }
}

/// If everything from `hi` on is whitespace and position `hi - 1`
/// (when it exists) is not, trimming the back keeps exactly the
/// prefix up to `hi`.
proof fn lemma_trim_end_range(s: Seq<char>, hi: int)
    requires
        0 <= hi <= s.len(),
        forall|k: int| hi <= k < s.len() ==> is_ws(s[k]),
        hi > 0 ==> !is_ws(s[hi - 1]),
    ensures
        trim_end_spec(s) == s.subrange(0, hi),
    decreases s.len() - hi,
{
    if hi == s.len() {
        assert(s.subrange(0, s.len() as int) =~= s);
    } else {
        let t = s.subrange(0, s.len() - 1);
        lemma_trim_end_range(t, hi);
        assert(t.subrange(0, hi) =~= s.subrange(0, hi));
    }
}

/// Lowercasing never turns a character into (or out of) whitespace,
/// and never turns one into (or out of) the separator dot.
proof fn lemma_lower_char_shape(c: char)
    ensures
        is_ws(lower_char(c)) == is_ws(c),
        (lower_char(c) == '.') == (c == '.'),
        lower_char(lower_char(c)) == lower_char(c),
{
}

/// Trimming the front commutes with lowercasing.
proof fn lemma_trim_start_lower(s: Seq<char>)
    ensures
        trim_start_spec(lower_seq(s)) == lower_seq(trim_start_spec(s)),
    decreases s.len(),
{
    if s.len() > 0 && is_ws(s[0]) {
        lemma_lower_char_shape(s[0]);
        assert(lower_seq(s).subrange(1, s.len() as int) =~= lower_seq(
            s.subrange(1, s.len() as int),
        ));
        lemma_trim_start_lower(s.subrange(1, s.len() as int));
    } else {
        if s.len() > 0 {
            lemma_lower_char_shape(s[0]);
        }
    }
}

/// Trimming the back commutes with lowercasing.
proof fn lemma_trim_end_lower(s: Seq<char>)
    ensures
        trim_end_spec(lower_seq(s)) == lower_seq(trim_end_spec(s)),
    decreases s.len(),
{
    if s.len() > 0 && is_ws(s[s.len() - 1]) {
        lemma_lower_char_shape(s[s.len() - 1]);
        assert(lower_seq(s).subrange(0, s.len() - 1) =~= lower_seq(s.subrange(0, s.len() - 1)));
        lemma_trim_end_lower(s.subrange(0, s.len() - 1));
    } else {
        if s.len() > 0 {
            lemma_lower_char_shape(s[s.len() - 1]);
        }
    }
}

/// Stripping the leading dot commutes with lowercasing.
proof fn lemma_strip_dot_lower(s: Seq<char>)
    ensures
        strip_dot_spec(lower_seq(s)) == lower_seq(strip_dot_spec(s)),
{
    if s.len() > 0 {
        lemma_lower_char_shape(s[0]);
        if s[0] == '.' {
            assert(lower_seq(s).subrange(1, s.len() as int) =~= lower_seq(
                s.subrange(1, s.len() as int),
            ));
        }
    }
}

/// Lowercasing is idempotent on sequences.
proof fn lemma_lower_seq_idempotent(s: Seq<char>)
    ensures
        lower_seq(lower_seq(s)) == lower_seq(s),
{
    assert forall|k: int| 0 <= k < s.len() implies lower_seq(lower_seq(s))[k] == lower_seq(s)[k] by {
        lemma_lower_char_shape(s[k]);
    }
    assert(lower_seq(lower_seq(s)) =~= lower_seq(s));
}

/// The canonical form of a token depends only on its lowercased
/// characters: normalization is the trim and dot-strip of the
/// lowercased input.
pub proof fn lemma_normalize_via_lower(s: Seq<char>)
    ensures
        normalize_spec(s) == strip_dot_spec(trim_spec(lower_seq(s))),
{
    lemma_trim_start_lower(s);
    lemma_trim_end_lower(trim_start_spec(s));
    lemma_strip_dot_lower(trim_spec(s));
}

/// Case invariance: two raw tokens that agree up to ASCII letter case
/// normalize to the same canonical token.  In particular a file
/// extension and a filter string typed in any mix of case collapse to
/// one key.
pub proof fn lemma_normalize_case_invariant(s1: Seq<char>, s2: Seq<char>)
    requires
        lower_seq(s1) == lower_seq(s2),
    ensures
        normalize_spec(s1) == normalize_spec(s2),
{
    lemma_normalize_via_lower(s1);
    lemma_normalize_via_lower(s2);
}

/// A token without any separator dot.
pub open spec fn dot_free(s: Seq<char>) -> bool {
    forall|j: int| 0 <= j < s.len() ==> s[j] != '.'
}

/// Trimming keeps a token free of dots.
proof fn lemma_trim_dot_free(s: Seq<char>)
    requires
        dot_free(s),
    ensures
        dot_free(trim_start_spec(s)),
        dot_free(trim_end_spec(s)),
    decreases s.len(),
{
    if s.len() > 0 && is_ws(s[0]) {
        let t = s.subrange(1, s.len() as int);
        assert(dot_free(t));
        lemma_trim_dot_free(t);
    }
    if s.len() > 0 && is_ws(s[s.len() - 1]) {
        let t = s.subrange(0, s.len() - 1);
        assert(dot_free(t));
        lemma_trim_dot_free(t);
    }
}

/// On a token without dots, normalization is idempotent outright: the
/// trimmed form cannot start with a dot, so the general precondition
/// holds vacuously.  Extensions extracted from file names are always
/// dot-free, so the keys the engine produces are canonical.
pub proof fn lemma_normalize_idempotent_dot_free(s: Seq<char>)
    requires
        dot_free(s),
    ensures
        normalize_spec(normalize_spec(s)) == normalize_spec(s),
{
    lemma_trim_dot_free(s);
    lemma_trim_dot_free(trim_start_spec(s));
    assert(dot_free(trim_spec(s)));
    lemma_normalize_idempotent(s);
}

/// Format invariance: surrounding whitespace and one leading
/// separator dot never change the canonical token.  Writing the bare
/// token `s`, or decorating it with any whitespace on either side and
/// optionally one leading dot, normalizes to the same result,
/// provided `s` itself starts with neither whitespace nor a dot and
/// does not end with whitespace.
pub proof fn lemma_normalize_decoration_invariant(
    s: Seq<char>,
    ws1: Seq<char>,
    ws2: Seq<char>,
    dotted: bool,
)
    requires
        forall|k: int| 0 <= k < ws1.len() ==> is_ws(ws1[k]),
        forall|k: int| 0 <= k < ws2.len() ==> is_ws(ws2[k]),
        s.len() > 0 ==> !is_ws(s[0]) && !is_ws(s[s.len() - 1]) && s[0] != '.',
    ensures
        normalize_spec(
            ws1 + (if dotted {
                seq!['.'] + s
            } else {
                s
            }) + ws2,
        ) == normalize_spec(s),
{
    let core = if dotted {
        seq!['.'] + s
    } else {
        s
    };
    let full = ws1 + core + ws2;
    let lo = ws1.len() as int;
    let hi = lo + core.len();
    if core.len() == 0 {
        // Bare empty token under pure whitespace: everything trims away.
        lemma_trim_start_range(full, full.len() as int);
        assert(trim_start_spec(full) =~= Seq::<char>::empty());
        assert(trim_spec(full) =~= Seq::<char>::empty());
        assert(trim_spec(s) =~= Seq::<char>::empty());
        assert(lower_seq(strip_dot_spec(Seq::<char>::empty())) =~= Seq::<char>::empty());
    } else {
        assert(!is_ws(core[0]) && !is_ws(core[core.len() - 1])) by {
            if dotted {
                assert(core[0] == '.');
                if s.len() > 0 {
                    assert(core[core.len() - 1] == s[s.len() - 1]);
                } else {
                    assert(core[core.len() - 1] == '.');
                }
            }
        }
        lemma_trim_start_range(full, lo);
        let tail = full.subrange(lo, full.len() as int);
        lemma_trim_end_range(tail, core.len() as int);
        assert(tail.subrange(0, core.len() as int) =~= core);
        assert(trim_spec(full) == core);
        if dotted {
            assert(strip_dot_spec(core) =~= s);
        }
        lemma_trim_fixed(s);
        assert(strip_dot_spec(trim_spec(s)) == s);
    }
}

/// A sequence whose ends are not whitespace is unchanged by trimming.
proof fn lemma_trim_fixed(s: Seq<char>)
    requires
        s.len() > 0 ==> !is_ws(s[0]) && !is_ws(s[s.len() - 1]),
    ensures
        trim_spec(s) == s,
{
}

/// The front-trimmed sequence never starts with whitespace.
proof fn lemma_trim_start_head(s: Seq<char>)
    ensures
        trim_start_spec(s).len() > 0 ==> !is_ws(trim_start_spec(s)[0]),
    decreases s.len(),
{
    if s.len() > 0 && is_ws(s[0]) {
        lemma_trim_start_head(s.subrange(1, s.len() as int));
    }
}

/// The back-trimmed sequence never ends with whitespace, and trimming
/// the back keeps the first character of a nonempty result.
proof fn lemma_trim_end_shape(s: Seq<char>)
    ensures
        trim_end_spec(s).len() > 0 ==> !is_ws(trim_end_spec(s)[trim_end_spec(s).len() - 1]),
        trim_end_spec(s).len() > 0 ==> trim_end_spec(s)[0] == s[0],
        trim_end_spec(s).len() <= s.len(),
    decreases s.len(),
{
    if s.len() > 0 && is_ws(s[s.len() - 1]) {
        lemma_trim_end_shape(s.subrange(0, s.len() - 1));
    }
}

/// Idempotence: normalizing an already-normalized token changes
/// nothing.  The one family of exceptions is a token whose trimmed
/// form starts with a dot followed by another dot or by whitespace
/// (such as `..rs`): there the single dot-strip exposes a new leading
/// dot or new leading whitespace, so a second normalization strips
/// further.  The precondition rules exactly those inputs out.
pub proof fn lemma_normalize_idempotent(s: Seq<char>)
    requires
        ({
            let t = trim_spec(s);
            (t.len() >= 2 && t[0] == '.') ==> (!is_ws(t[1]) && t[1] != '.')
        }),
    ensures
        normalize_spec(normalize_spec(s)) == normalize_spec(s),
{
    let t = trim_spec(s);
    let z = strip_dot_spec(t);
    let y = lower_seq(z);
    lemma_trim_start_head(s);
    lemma_trim_end_shape(trim_start_spec(s));
    // The trimmed token has no whitespace at either end; after the
    // dot-strip the precondition keeps the ends clean as well.
    assert(z.len() > 0 ==> (!is_ws(z[0]) && !is_ws(z[z.len() - 1]) && z[0] != '.')) by {
        if t.len() > 0 && t[0] == '.' {
            if t.len() >= 2 {
                assert(z =~= t.subrange(1, t.len() as int));
            }
        }
    }
    // normalize(y) unfolds to lower(strip(trim(lower(z)))); push the
    // lowercasing outward and collapse trim and strip on z itself.
    lemma_normalize_via_lower(y);
    lemma_lower_seq_idempotent(z);
    lemma_trim_fixed(z);
    lemma_strip_dot_lower(trim_spec(z));
    lemma_trim_start_lower(z);
    lemma_trim_end_lower(trim_start_spec(z));
    assert(trim_spec(lower_seq(z)) == lower_seq(z));
    assert(strip_dot_spec(lower_seq(z)) == lower_seq(z)) by {
        if z.len() > 0 {
            lemma_lower_char_shape(z[0]);
        }
    }
}

/// Canonicalizes a raw extension token: trims surrounding whitespace,
/// strips one leading `.` if present, and lowercases ASCII letters.
pub fn normalize_ext(ext: &str) -> (r: String)
    ensures
        r@ == normalize_spec(ext@),
{
    let n = ext.unicode_len();
    let ghost s = ext@;
    let mut lo: usize = 0;
    while lo < n && is_ws_char(ext.get_char(lo))
        invariant
            0 <= lo <= n,
            n == s.len(),
            s == ext@,
            forall|k: int| 0 <= k < lo ==> is_ws(s[k]),
        decreases n - lo,
    {
        lo += 1;
    }
    let mut hi: usize = n;
    while hi > lo && is_ws_char(ext.get_char(hi - 1))
        invariant
            lo <= hi <= n,
            n == s.len(),
            s == ext@,
            forall|k: int| hi <= k < n ==> is_ws(s[k]),
        decreases hi,
    {
        hi -= 1;
    }
    proof {
        lemma_trim_start_range(s, lo as int);
        let t = s.subrange(lo as int, s.len() as int);
        lemma_trim_end_range(t, hi - lo);
        assert(t.subrange(0, hi - lo) =~= s.subrange(lo as int, hi as int));
        assert(trim_spec(s) == s.subrange(lo as int, hi as int));
    }
    let start: usize = if lo < hi && ext.get_char(lo) == '.' {
        lo + 1
    } else {
        lo
    };
    proof {
        if lo < hi && s[lo as int] == '.' {
            assert(s.subrange(lo as int, hi as int).subrange(1, (hi - lo) as int) =~= s.subrange(
                lo as int + 1,
                hi as int,
            ));
        }
        assert(strip_dot_spec(trim_spec(s)) == s.subrange(start as int, hi as int));
    }
    let ghost z = s.subrange(start as int, hi as int);
    let mut r = String::new();
    let mut i: usize = start;
    while i < hi
        invariant
            start <= i <= hi <= n,
            n == s.len(),
            s == ext@,
            z == s.subrange(start as int, hi as int),
            r@ == lower_seq(z).take(i - start),
        decreases hi - i,
    {
        let c = to_lower_char(ext.get_char(i));
        push_char(&mut r, c);
        proof {
            assert(lower_seq(z).take(i + 1 - start) =~= lower_seq(z).take(i - start).push(
                lower_char(s[i as int]),
            ));
        }
        i += 1;
    }
    proof {
        assert(lower_seq(z).take(hi - start) =~= lower_seq(z));
    }
    r
}

} // verus!
