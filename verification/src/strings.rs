//! String helpers shared across the application: capitalization for UI
//! labels, and decoding/trimming of captured command output.
//!
//! Unicode behaviour (case mapping, the White_Space property, UTF-8
//! decoding) comes from the standard library through small trusted bridges;
//! everything built on top of them is verified.

use vstd::prelude::*;
use vstd::string::StrSliceExecFns;

verus! {

// ---------------------------------------------------------------------------
// Trusted bridges to the standard library's Unicode tables
// ---------------------------------------------------------------------------

/// The Unicode uppercase mapping of one character: one or more characters.
pub uninterp spec fn upper_of(c: char) -> Seq<char>;

/// Relies on char::to_uppercase: the result depends on the character alone
/// (its Unicode uppercase mapping, yielded as one or more characters).
#[verifier::external_body]
fn char_to_uppercase(c: char) -> (r: String)
    ensures
        r@ == upper_of(c),
{
    c.to_uppercase().collect()
}

/// Whether a character has the Unicode White_Space property.
pub uninterp spec fn is_whitespace_char(c: char) -> bool;

/// Relies on char::is_whitespace: the result depends on the character alone
/// (its Unicode White_Space property).
#[verifier::external_body]
fn char_is_whitespace(c: char) -> (r: bool)
    ensures
        r == is_whitespace_char(c),
{
    c.is_whitespace()
}

/// The characters a byte stream decodes to as UTF-8, invalid sequences
/// replaced by U+FFFD.
pub uninterp spec fn utf8_lossy_of(b: Seq<u8>) -> Seq<char>;

/// Relies on String::from_utf8_lossy: the result depends on the bytes alone.
#[verifier::external_body]
fn utf8_lossy(b: &[u8]) -> (r: String)
    ensures
        r@ == utf8_lossy_of(b@),
{
    String::from_utf8_lossy(b).into_owned()
}

// ---------------------------------------------------------------------------
// Specs
// ---------------------------------------------------------------------------

/// What `capitalize` returns: the uppercase mapping of the first character,
/// then the rest unchanged.  An empty input capitalizes the NUL character,
/// which maps to itself.
pub open spec fn spec_capitalize(s: Seq<char>) -> Seq<char> {
    if s.len() == 0 {
        upper_of('\0')
    } else {
        upper_of(s[0]) + s.skip(1)
    }
}

/// Index of the first occurrence of `target` at or after `i`, or `s.len()`
/// if there is none (more precisely: `i` itself once `i` is out of range).
pub open spec fn find_char(s: Seq<char>, target: char, i: int) -> int
    recommends
        0 <= i <= s.len(),
    decreases s.len() - i,
{
    if i >= s.len() {
        i
    } else if s[i] == target {
        i
    } else {
        find_char(s, target, i + 1)
    }
}

proof fn lemma_find_char_ge(s: Seq<char>, target: char, i: int)
    ensures
        find_char(s, target, i) >= i,
    decreases s.len() - i,
{
    if i < s.len() && s[i] != target {
        lemma_find_char_ge(s, target, i + 1);
    }
}

proof fn lemma_find_char(s: Seq<char>, target: char, i: int)
    requires
        0 <= i <= s.len(),
    ensures
        i <= find_char(s, target, i) <= s.len(),
        forall|k: int| i <= k < find_char(s, target, i) ==> s[k] != target,
        find_char(s, target, i) < s.len() ==> s[find_char(s, target, i)] == target,
    decreases s.len() - i,
{
    if i >= s.len() {
    } else if s[i] == target {
    } else {
        lemma_find_char(s, target, i + 1);
    }
}

proof fn lemma_find_char_unique(s: Seq<char>, target: char, i: int, j: int)
    requires
        0 <= i <= j <= s.len(),
        forall|k: int| i <= k < j ==> s[k] != target,
        j < s.len() ==> s[j] == target,
    ensures
        find_char(s, target, i) == j,
    decreases j - i,
{
    if i < j {
        lemma_find_char_unique(s, target, i + 1, j);
    }
}

proof fn lemma_find_char_shift(s: Seq<char>, target: char, i: int)
    requires
        0 <= i <= s.len(),
    ensures
        find_char(s, target, i) == i + find_char(s.skip(i), target, 0),
{
    lemma_find_char(s, target, i);
    let j = find_char(s, target, i);
    lemma_find_char_unique(s.skip(i), target, 0, j - i);
}

/// What `capitalize_all_words` returns: each run between single blanks is
/// capitalized, the blanks are kept.  Consecutive blanks delimit empty runs,
/// each of which capitalizes to the uppercase mapping of NUL.
pub open spec fn spec_capitalize_all(s: Seq<char>) -> Seq<char>
    decreases s.len(),
    via spec_capitalize_all_decreases
{
    let i = find_char(s, ' ', 0);
    if i >= s.len() {
        spec_capitalize(s)
    } else {
        spec_capitalize(s.take(i)) + seq![' '] + spec_capitalize_all(s.skip(i + 1))
    }
}

#[via_fn]
proof fn spec_capitalize_all_decreases(s: Seq<char>) {
    lemma_find_char_ge(s, ' ', 0);
}

pub open spec fn drop_leading_ws(s: Seq<char>) -> Seq<char>
    decreases s.len(),
{
    if s.len() > 0 && is_whitespace_char(s[0]) {
        drop_leading_ws(s.skip(1))
    } else {
        s
    }
}

pub open spec fn drop_trailing_ws(s: Seq<char>) -> Seq<char>
    decreases s.len(),
{
    if s.len() > 0 && is_whitespace_char(s.last()) {
        drop_trailing_ws(s.drop_last())
    } else {
        s
    }
}

/// A string with leading and trailing whitespace removed.
pub open spec fn spec_trim(s: Seq<char>) -> Seq<char> {
    drop_trailing_ws(drop_leading_ws(s))
}

// ---------------------------------------------------------------------------
// Exec
// ---------------------------------------------------------------------------

/// Uppercase the first character of a string (the mapping may be more than
/// one character long) and keep the rest unchanged.
pub fn capitalize(string: &str) -> (r: String)
    ensures
        r@ == spec_capitalize(string@),
{
    let n = string.unicode_len();
    if n == 0 {
        char_to_uppercase('\0')
    } else {
        let mut out = char_to_uppercase(string.get_char(0));
        let rest = string.substring_char(1, n);
        assert(rest@ =~= string@.skip(1));
        out.append(rest);
        out
    }
}

/// Index of the first occurrence of `target` at or after `from`, or the
/// length of the string if there is none.
#[verifier::loop_isolation(false)]
pub fn find_char_in_str(s: &str, target: char, from: usize) -> (r: usize)
    requires
        from as int <= s@.len(),
    ensures
        r as int == find_char(s@, target, from as int),
        from <= r,
        r as int <= s@.len(),
{
    let n = s.unicode_len();
    let mut j = from;
    while j < n
        invariant
            from <= j <= n,
            forall|k: int| from <= k < j ==> s@[k] != target,
        decreases n - j,
    {
        if s.get_char(j) == target {
            proof {
                lemma_find_char_unique(s@, target, from as int, j as int);
            }
            return j;
        }
        j += 1;
    }
    proof {
        lemma_find_char_unique(s@, target, from as int, s@.len() as int);
    }
    j
}

/// Capitalize every blank-separated run of a string, keeping the blanks.
#[verifier::loop_isolation(false)]
pub fn capitalize_all_words(string: &str) -> (r: String)
    ensures
        r@ == spec_capitalize_all(string@),
{
    let n = string.unicode_len();
    let mut out = String::new();
    let mut start: usize = 0;
    proof {
        reveal_strlit(" ");
        assert(string@.skip(0) =~= string@);
        assert(out@ + spec_capitalize_all(string@) =~= spec_capitalize_all(string@));
    }
    loop
        invariant
            start as int <= string@.len(),
            spec_capitalize_all(string@) == out@ + spec_capitalize_all(
                string@.skip(start as int),
            ),
        decreases string@.len() - start,
    {
        let j = find_char_in_str(string, ' ', start);
        proof {
            lemma_find_char_shift(string@, ' ', start as int);
        }
        let ghost suffix = string@.skip(start as int);
        let word = string.substring_char(start, j);
        assert(word@ =~= suffix.take(j - start));
        let cap = capitalize(word);
        out.append(cap.as_str());
        if j == n {
            assert(suffix.take(j - start) =~= suffix);
            return out;
        }
        out.append(" ");
        proof {
            assert(" "@ =~= seq![' ']);
            assert(suffix.skip(j - start + 1) =~= string@.skip(j + 1));
        }
        start = j + 1;
    }
}

/// Copy of `s` with surrounding Unicode whitespace removed.
#[verifier::loop_isolation(false)]
fn trim_chars(s: &str) -> (r: String)
    ensures
        r@ == spec_trim(s@),
{
    let n = s.unicode_len();
    let mut lo: usize = 0;
    proof {
        assert(s@.skip(0) =~= s@);
    }
    while lo < n && char_is_whitespace(s.get_char(lo))
        invariant
            0 <= lo <= n,
            drop_leading_ws(s@) == drop_leading_ws(s@.skip(lo as int)),
        decreases n - lo,
    {
        proof {
            let cur = s@.skip(lo as int);
            assert(cur[0] == s@[lo as int]);
            assert(cur.skip(1) =~= s@.skip(lo as int + 1));
        }
        lo += 1;
    }
    proof {
        let cur = s@.skip(lo as int);
        if cur.len() > 0 {
            assert(cur[0] == s@[lo as int]);
        }
        assert(drop_leading_ws(s@) == cur);
    }
    let mut hi = n;
    while hi > lo && char_is_whitespace(s.get_char(hi - 1))
        invariant
            lo <= hi <= n,
            drop_trailing_ws(s@.subrange(lo as int, n as int)) == drop_trailing_ws(
                s@.subrange(lo as int, hi as int),
            ),
        decreases hi,
    {
        proof {
            let cur = s@.subrange(lo as int, hi as int);
            assert(cur.last() == s@[hi - 1]);
            assert(cur.drop_last() =~= s@.subrange(lo as int, hi as int - 1));
        }
        hi -= 1;
    }
    proof {
        assert(s@.skip(lo as int) =~= s@.subrange(lo as int, n as int));
        let fin = s@.subrange(lo as int, hi as int);
        if fin.len() > 0 {
            assert(fin.last() == s@[hi - 1]);
        }
        assert(drop_trailing_ws(fin) == fin);
    }
    let piece = s.substring_char(lo, hi);
    piece.to_owned()
}

/// Decode a captured output stream (stdout or stderr of a command) and trim
/// surrounding whitespace.
pub fn parse_output(std_descriptor: &[u8]) -> (r: String)
    ensures
        r@ == spec_trim(utf8_lossy_of(std_descriptor@)),
{
    let s = utf8_lossy(std_descriptor);
    trim_chars(s.as_str())
}

} // verus!
