//! Serialization and parsing of the settings document's on-disk text form.
//!
//! The file is a small fixed-shape YAML mapping:
//!
//! ```text
//! window:
//!   height: <integer>
//!   width: <integer>
//!   maximized: <true|false>
//! ```
//!
//! Field order is irrelevant, unknown fields are ignored, and missing fields
//! keep their defaults.  Any malformed content makes the whole document fall
//! back to the all-default one; parsing never fails.  Serializing and parsing
//! are exact inverses (see [`lemma_yaml_round_trip`]).

use vstd::prelude::*;
use vstd::slice::slice_to_vec;
use crate::cache_settings::{CacheSettingsYaml, CacheWindowSettings};

verus! {

// ---------------------------------------------------------------------------
// Spec: the emitted text
// ---------------------------------------------------------------------------

/// Decimal digits of a nonnegative integer, most significant first.
pub open spec fn spec_uint_digits(n: int) -> Seq<u8>
    recommends
        n >= 0,
    decreases n,
{
    if n < 10 {
        seq![(48 + n) as u8]
    } else {
        spec_uint_digits(n / 10) + seq![(48 + n % 10) as u8]
    }
}

/// Decimal form of an integer, with a leading `-` when negative.
pub open spec fn spec_int_bytes(n: int) -> Seq<u8> {
    if n < 0 {
        seq![('-' as u8)] + spec_uint_digits(-n)
    } else {
        spec_uint_digits(n)
    }
}

/// The YAML spelling of a boolean.
pub open spec fn spec_bool_bytes(b: bool) -> Seq<u8> {
    if b {
        seq![('t' as u8), ('r' as u8), ('u' as u8), ('e' as u8)]
    } else {
        seq![('f' as u8), ('a' as u8), ('l' as u8), ('s' as u8), ('e' as u8)]
    }
}

pub open spec fn lit_window_header() -> Seq<u8> {
    seq![('w' as u8), ('i' as u8), ('n' as u8), ('d' as u8), ('o' as u8), ('w' as u8), (':' as u8), ('\n' as u8)]
}

pub open spec fn lit_height_prefix() -> Seq<u8> {
    seq![(' ' as u8), (' ' as u8), ('h' as u8), ('e' as u8), ('i' as u8), ('g' as u8), ('h' as u8), ('t' as u8), (':' as u8), (' ' as u8)]
}

pub open spec fn lit_width_prefix() -> Seq<u8> {
    seq![(' ' as u8), (' ' as u8), ('w' as u8), ('i' as u8), ('d' as u8), ('t' as u8), ('h' as u8), (':' as u8), (' ' as u8)]
}

pub open spec fn lit_maximized_prefix() -> Seq<u8> {
    seq![(' ' as u8), (' ' as u8), ('m' as u8), ('a' as u8), ('x' as u8), ('i' as u8), ('m' as u8), ('i' as u8), ('z' as u8), ('e' as u8), ('d' as u8), (':' as u8), (' ' as u8)]
}

/// The exact text written for a document.
pub open spec fn spec_emit(doc: CacheSettingsYaml) -> Seq<u8> {
    lit_window_header() + lit_height_prefix() + spec_int_bytes(doc.window.height as int)
        + seq![('\n' as u8)] + lit_width_prefix() + spec_int_bytes(doc.window.width as int)
        + seq![('\n' as u8)] + lit_maximized_prefix() + spec_bool_bytes(doc.window.maximized)
        + seq![('\n' as u8)]
}

// ---------------------------------------------------------------------------
// Exec: emitting
// ---------------------------------------------------------------------------

fn push_uint_digits(out: &mut Vec<u8>, n: u32)
    ensures
        final(out)@ == old(out)@ + spec_uint_digits(n as int),
    decreases n,
{
    if n < 10 {
        out.push(48 + n as u8);
        assert(out@ =~= old(out)@ + spec_uint_digits(n as int));
    } else {
        push_uint_digits(out, n / 10);
        out.push(48 + (n % 10) as u8);
        assert(out@ =~= old(out)@ + spec_uint_digits(n as int));
    }
}

fn push_i32(out: &mut Vec<u8>, n: i32)
    ensures
        final(out)@ == old(out)@ + spec_int_bytes(n as int),
{
    if n < 0 {
        out.push(('-' as u8));
        let m: u32 = (-(n as i64)) as u32;
        assert(m as int == -(n as int));
        push_uint_digits(out, m);
        assert(out@ =~= old(out)@ + spec_int_bytes(n as int));
    } else {
        push_uint_digits(out, n as u32);
    }
}

fn push_bool(out: &mut Vec<u8>, b: bool)
    ensures
        final(out)@ == old(out)@ + spec_bool_bytes(b),
{
    if b {
        out.push(('t' as u8));
        out.push(('r' as u8));
        out.push(('u' as u8));
        out.push(('e' as u8));
    } else {
        out.push(('f' as u8));
        out.push(('a' as u8));
        out.push(('l' as u8));
        out.push(('s' as u8));
        out.push(('e' as u8));
    }
    assert(out@ =~= old(out)@ + spec_bool_bytes(b));
}

fn push_header(out: &mut Vec<u8>)
    ensures
        final(out)@ == old(out)@ + lit_window_header(),
{
    out.push(('w' as u8));
    out.push(('i' as u8));
    out.push(('n' as u8));
    out.push(('d' as u8));
    out.push(('o' as u8));
    out.push(('w' as u8));
    out.push((':' as u8));
    out.push(('\n' as u8));
    assert(final(out)@ =~= old(out)@ + lit_window_header());
}

fn push_height_prefix(out: &mut Vec<u8>)
    ensures
        final(out)@ == old(out)@ + lit_height_prefix(),
{
    out.push((' ' as u8));
    out.push((' ' as u8));
    out.push(('h' as u8));
    out.push(('e' as u8));
    out.push(('i' as u8));
    out.push(('g' as u8));
    out.push(('h' as u8));
    out.push(('t' as u8));
    out.push((':' as u8));
    out.push((' ' as u8));
    assert(final(out)@ =~= old(out)@ + lit_height_prefix());
}

fn push_width_prefix(out: &mut Vec<u8>)
    ensures
        final(out)@ == old(out)@ + lit_width_prefix(),
{
    out.push((' ' as u8));
    out.push((' ' as u8));
    out.push(('w' as u8));
    out.push(('i' as u8));
    out.push(('d' as u8));
    out.push(('t' as u8));
    out.push(('h' as u8));
    out.push((':' as u8));
    out.push((' ' as u8));
    assert(final(out)@ =~= old(out)@ + lit_width_prefix());
}

fn push_maximized_prefix(out: &mut Vec<u8>)
    ensures
        final(out)@ == old(out)@ + lit_maximized_prefix(),
{
    out.push((' ' as u8));
    out.push((' ' as u8));
    out.push(('m' as u8));
    out.push(('a' as u8));
    out.push(('x' as u8));
    out.push(('i' as u8));
    out.push(('m' as u8));
    out.push(('i' as u8));
    out.push(('z' as u8));
    out.push(('e' as u8));
    out.push(('d' as u8));
    out.push((':' as u8));
    out.push((' ' as u8));
    assert(final(out)@ =~= old(out)@ + lit_maximized_prefix());
}

/// Serialize a document to its on-disk text.  This cannot fail: the text for
/// every document is defined byte for byte by [`spec_emit`].
pub fn to_yaml_bytes(doc: &CacheSettingsYaml) -> (r: Vec<u8>)
    ensures
        r@ == spec_emit(*doc),
{
    let mut out: Vec<u8> = Vec::new();
    push_header(&mut out);
    push_height_prefix(&mut out);
    push_i32(&mut out, doc.window.height);
    out.push(('\n' as u8));
    push_width_prefix(&mut out);
    push_i32(&mut out, doc.window.width);
    out.push(('\n' as u8));
    push_maximized_prefix(&mut out);
    push_bool(&mut out, doc.window.maximized);
    out.push(('\n' as u8));
    assert(out@ =~= spec_emit(*doc));
    out
}

// ---------------------------------------------------------------------------
// Spec: parsing
// ---------------------------------------------------------------------------

/// Which top-level mapping the parser is inside while walking lines.
#[derive(Debug, Clone, Copy, PartialEq, Eq, Structural)]
pub enum Section {
    /// Before any top-level key.
    Outside,
    /// Inside the `window:` mapping.
    Window,
    /// Inside an unknown top-level entry, whose content is ignored.
    Other,
}

/// Index of the first occurrence of `target` at or after `i`, or `s.len()`
/// if there is none (more precisely: `i` itself once `i` is out of range).
pub open spec fn find_byte(s: Seq<u8>, target: u8, i: int) -> int
    recommends
        0 <= i <= s.len(),
    decreases s.len() - i,
{
    if i >= s.len() {
        i
    } else if s[i] == target {
        i
    } else {
        find_byte(s, target, i + 1)
    }
}

pub open spec fn is_space(b: u8) -> bool {
    b == ' ' as u8
}

pub open spec fn is_all_spaces(s: Seq<u8>) -> bool {
    forall|k: int| 0 <= k < s.len() ==> is_space(s[k])
}

pub open spec fn drop_leading_spaces(s: Seq<u8>) -> Seq<u8>
    decreases s.len(),
{
    if s.len() > 0 && is_space(s[0]) {
        drop_leading_spaces(s.skip(1))
    } else {
        s
    }
}

pub open spec fn drop_trailing_spaces(s: Seq<u8>) -> Seq<u8>
    decreases s.len(),
{
    if s.len() > 0 && is_space(s.last()) {
        drop_trailing_spaces(s.drop_last())
    } else {
        s
    }
}

/// A scalar value with surrounding blanks removed.
pub open spec fn trim_spaces(s: Seq<u8>) -> Seq<u8> {
    drop_trailing_spaces(drop_leading_spaces(s))
}

pub open spec fn is_digit(b: u8) -> bool {
    48 <= b <= 57
}

pub open spec fn all_digits(s: Seq<u8>) -> bool {
    forall|k: int| 0 <= k < s.len() ==> is_digit(s[k])
}

/// Value of a digit string, most significant digit first.
pub open spec fn digits_val(s: Seq<u8>) -> int
    recommends
        all_digits(s),
    decreases s.len(),
{
    if s.len() == 0 {
        0
    } else {
        digits_val(s.drop_last()) * 10 + (s.last() - 48)
    }
}

/// Parse a scalar as an `i32`: an optional minus sign, then decimal digits.
/// Out-of-range values and anything else are rejected.
pub open spec fn spec_parse_i32(v: Seq<u8>) -> Option<i32> {
    if v.len() == 0 {
        None
    } else {
        let neg = v[0] == '-' as u8;
        let digits = if neg { v.skip(1) } else { v };
        if digits.len() == 0 || !all_digits(digits) {
            None
        } else {
            let n = if neg { -digits_val(digits) } else { digits_val(digits) };
            if -2147483648 <= n <= 2147483647 {
                Some(n as i32)
            } else {
                None
            }
        }
    }
}

pub open spec fn key_window() -> Seq<u8> {
    seq![('w' as u8), ('i' as u8), ('n' as u8), ('d' as u8), ('o' as u8), ('w' as u8)]
}

pub open spec fn key_height() -> Seq<u8> {
    seq![('h' as u8), ('e' as u8), ('i' as u8), ('g' as u8), ('h' as u8), ('t' as u8)]
}

pub open spec fn key_width() -> Seq<u8> {
    seq![('w' as u8), ('i' as u8), ('d' as u8), ('t' as u8), ('h' as u8)]
}

pub open spec fn key_maximized() -> Seq<u8> {
    seq![('m' as u8), ('a' as u8), ('x' as u8), ('i' as u8), ('m' as u8), ('i' as u8), ('z' as u8), ('e' as u8), ('d' as u8)]
}

/// Effect of one `  key: value` line inside the `window:` mapping.  `rest` is
/// the line with its two-space indent removed.  `None` means the document is
/// malformed: a field line without a colon, or a known key with a bad value.
/// Unknown keys are ignored.
pub open spec fn apply_field(rest: Seq<u8>, doc: CacheSettingsYaml) -> Option<CacheSettingsYaml> {
    let ci = find_byte(rest, ':' as u8, 0);
    if ci >= rest.len() {
        None
    } else {
        let key = rest.take(ci);
        let value = trim_spaces(rest.skip(ci + 1));
        if key == key_height() {
            match spec_parse_i32(value) {
                Some(n) => Some(
                    CacheSettingsYaml {
                        window: CacheWindowSettings { height: n, ..doc.window },
                    },
                ),
                None => None,
            }
        } else if key == key_width() {
            match spec_parse_i32(value) {
                Some(n) => Some(
                    CacheSettingsYaml {
                        window: CacheWindowSettings { width: n, ..doc.window },
                    },
                ),
                None => None,
            }
        } else if key == key_maximized() {
            if value == spec_bool_bytes(true) {
                Some(CacheSettingsYaml { window: CacheWindowSettings { maximized: true, ..doc.window } })
            } else if value == spec_bool_bytes(false) {
                Some(CacheSettingsYaml { window: CacheWindowSettings { maximized: false, ..doc.window } })
            } else {
                None
            }
        } else {
            Some(doc)
        }
    }
}

/// Effect of one line on the parser state.  `None` means the document is
/// malformed.  Blank lines and content nested deeper than one level are
/// ignored; a field line is interpreted only inside the `window:` mapping.
pub open spec fn step_line(line: Seq<u8>, sect: Section, doc: CacheSettingsYaml) -> Option<
    (Section, CacheSettingsYaml),
> {
    if is_all_spaces(line) {
        Some((sect, doc))
    } else if is_space(line[0]) {
        if line.len() >= 2 && is_space(line[1]) {
            if sect == Section::Outside {
                None
            } else if line.len() >= 3 && is_space(line[2]) {
                Some((sect, doc))
            } else if sect == Section::Other {
                Some((sect, doc))
            } else {
                match apply_field(line.skip(2), doc) {
                    Some(d) => Some((Section::Window, d)),
                    None => None,
                }
            }
        } else {
            None
        }
    } else {
        let ci = find_byte(line, ':' as u8, 0);
        if ci >= line.len() {
            None
        } else {
            let key = line.take(ci);
            let rest = line.skip(ci + 1);
            if key == key_window() {
                if is_all_spaces(rest) {
                    Some((Section::Window, doc))
                } else {
                    None
                }
            } else {
                Some((Section::Other, doc))
            }
        }
    }
}

/// Walk the text line by line from position `i`, threading the parser state.
/// `None` means the document is malformed.
pub open spec fn parse_from(s: Seq<u8>, i: int, sect: Section, doc: CacheSettingsYaml) -> Option<
    CacheSettingsYaml,
>
    recommends
        0 <= i <= s.len(),
    decreases s.len() - i,
    via parse_from_decreases
{
    if i >= s.len() {
        Some(doc)
    } else {
        let j = find_byte(s, '\n' as u8, i);
        match step_line(s.subrange(i, j), sect, doc) {
            None => None,
            Some((sect2, doc2)) => {
                if j >= s.len() {
                    Some(doc2)
                } else {
                    parse_from(s, j + 1, sect2, doc2)
                }
            },
        }
    }
}

/// `find_byte` never returns an index before the one it starts from.
proof fn lemma_find_byte_ge(s: Seq<u8>, target: u8, i: int)
    ensures
        find_byte(s, target, i) >= i,
    decreases s.len() - i,
{
    if i >= s.len() {
    } else if s[i] == target {
    } else {
        lemma_find_byte_ge(s, target, i + 1);
    }
}

#[via_fn]
proof fn parse_from_decreases(s: Seq<u8>, i: int, sect: Section, doc: CacheSettingsYaml) {
    lemma_find_byte_ge(s, '\n' as u8, i);
}

/// The document stored in a text, starting from the all-default document.
/// Malformed content yields the all-default document: parsing never fails.
pub open spec fn spec_parse(s: Seq<u8>) -> CacheSettingsYaml {
    match parse_from(s, 0, Section::Outside, CacheSettingsYaml::spec_default()) {
        Some(d) => d,
        None => CacheSettingsYaml::spec_default(),
    }
}

// ---------------------------------------------------------------------------
// Lemmas about the parsing specs
// ---------------------------------------------------------------------------

/// `find_byte` lands on the first occurrence of `target`, if any.
pub proof fn lemma_find_byte(s: Seq<u8>, target: u8, i: int)
    requires
        0 <= i <= s.len(),
    ensures
        i <= find_byte(s, target, i) <= s.len(),
        forall|k: int| i <= k < find_byte(s, target, i) ==> s[k] != target,
        find_byte(s, target, i) < s.len() ==> s[find_byte(s, target, i)] == target,
    decreases s.len() - i,
{
    if i >= s.len() {
    } else if s[i] == target {
    } else {
        lemma_find_byte(s, target, i + 1);
    }
}

/// `find_byte` is pinned down by the properties in `lemma_find_byte`.
pub proof fn lemma_find_byte_unique(s: Seq<u8>, target: u8, i: int, j: int)
    requires
        0 <= i <= j <= s.len(),
        forall|k: int| i <= k < j ==> s[k] != target,
        j < s.len() ==> s[j] == target,
    ensures
        find_byte(s, target, i) == j,
    decreases j - i,
{
    if i < j {
        lemma_find_byte_unique(s, target, i + 1, j);
    }
}

// ---------------------------------------------------------------------------
// Lemmas about digit strings
// ---------------------------------------------------------------------------

pub open spec fn pow10(n: nat) -> int
    decreases n,
{
    if n == 0 {
        1
    } else {
        10 * pow10((n - 1) as nat)
    }
}

proof fn lemma_pow10_pos(n: nat)
    ensures
        pow10(n) >= 1,
    decreases n,
{
    if n > 0 {
        lemma_pow10_pos((n - 1) as nat);
    }
}

proof fn lemma_pow10_mono(a: nat, b: nat)
    requires
        a <= b,
    ensures
        pow10(a) <= pow10(b),
        pow10(a) >= 1,
    decreases b,
{
    lemma_pow10_pos(a);
    if a < b {
        lemma_pow10_mono(a, (b - 1) as nat);
    }
}

proof fn lemma_pow10_ten()
    ensures
        pow10(10) == 10000000000,
{
    assert(pow10(0) == 1);
    assert(pow10(1) == 10);
    assert(pow10(2) == 100);
    assert(pow10(3) == 1000);
    assert(pow10(4) == 10000);
    assert(pow10(5) == 100000);
    assert(pow10(6) == 1000000);
    assert(pow10(7) == 10000000);
    assert(pow10(8) == 100000000);
    assert(pow10(9) == 1000000000);
    assert(pow10(10) == 10000000000);
}

/// A string of `n` digits is a value below `10^n`.
proof fn lemma_digits_val_bound(s: Seq<u8>)
    requires
        all_digits(s),
    ensures
        0 <= digits_val(s) < pow10(s.len()),
    decreases s.len(),
{
    if s.len() == 0 {
    } else {
        assert(all_digits(s.drop_last()));
        lemma_digits_val_bound(s.drop_last());
    }
}

/// A digit string with a nonzero leading digit is at least `10^(n-1)`.
proof fn lemma_digits_val_lower(s: Seq<u8>)
    requires
        all_digits(s),
        s.len() >= 1,
        s[0] != 48,
    ensures
        digits_val(s) >= pow10((s.len() - 1) as nat),
    decreases s.len(),
{
    if s.len() == 1 {
        assert(digits_val(s) == s[0] - 48);
    } else {
        assert(all_digits(s.drop_last()));
        lemma_digits_val_lower(s.drop_last());
        assert(digits_val(s) == digits_val(s.drop_last()) * 10 + (s.last() - 48));
    }
}

/// A leading zero does not change the value.
proof fn lemma_digits_leading_zero(s: Seq<u8>)
    requires
        s.len() >= 1,
        s[0] == 48,
    ensures
        digits_val(s) == digits_val(s.skip(1)),
    decreases s.len(),
{
    if s.len() == 1 {
        assert(s.skip(1) =~= Seq::<u8>::empty());
        assert(digits_val(s) == digits_val(s.drop_last()) * 10 + (s.last() - 48));
    } else {
        lemma_digits_leading_zero(s.drop_last());
        assert(s.skip(1).drop_last() =~= s.drop_last().skip(1));
        assert(digits_val(s.skip(1)) == digits_val(s.skip(1).drop_last()) * 10 + (s.skip(1).last() - 48));
        assert(digits_val(s) == digits_val(s.drop_last()) * 10 + (s.last() - 48));
        assert(s.skip(1).last() == s.last());
    }
}

// ---------------------------------------------------------------------------
// Exec: parsing helpers
// ---------------------------------------------------------------------------

/// Copy of the byte range `[a, b)` of `v`.
fn subvec(v: &Vec<u8>, a: usize, b: usize) -> (r: Vec<u8>)
    requires
        a <= b <= v@.len(),
    ensures
        r@ == v@.subrange(a as int, b as int),
{
    let mut r: Vec<u8> = Vec::new();
    let mut k = a;
    while k < b
        invariant
            a <= k <= b <= v@.len(),
            r@ == v@.subrange(a as int, k as int),
        decreases b - k,
    {
        r.push(v[k]);
        assert(r@ =~= v@.subrange(a as int, (k + 1) as int));
        k += 1;
    }
    r
}

fn find_byte_exec(v: &Vec<u8>, target: u8, from: usize) -> (r: usize)
    requires
        from <= v@.len(),
    ensures
        r as int == find_byte(v@, target, from as int),
        from <= r <= v@.len(),
{
    let mut j = from;
    while j < v.len()
        invariant
            from <= j <= v@.len(),
            forall|k: int| from <= k < j ==> v@[k] != target,
        decreases v@.len() - j,
    {
        if v[j] == target {
            proof {
                lemma_find_byte_unique(v@, target, from as int, j as int);
            }
            return j;
        }
        j += 1;
    }
    proof {
        lemma_find_byte_unique(v@, target, from as int, v@.len() as int);
    }
    j
}

fn is_all_spaces_exec(v: &Vec<u8>) -> (r: bool)
    ensures
        r == is_all_spaces(v@),
{
    let mut k: usize = 0;
    while k < v.len()
        invariant
            0 <= k <= v@.len(),
            forall|m: int| 0 <= m < k ==> is_space(v@[m]),
        decreases v@.len() - k,
    {
        if v[k] != (' ' as u8) {
            return false;
        }
        k += 1;
    }
    true
}

#[verifier::loop_isolation(false)]
fn parse_i32_exec(v: &Vec<u8>) -> (r: Option<i32>)
    ensures
        r == spec_parse_i32(v@),
{
    let len = v.len();
    if len == 0 {
        return None;
    }
    let neg = v[0] == ('-' as u8);
    let start: usize = if neg { 1 } else { 0 };
    let ghost digits: Seq<u8> = if neg { v@.skip(1) } else { v@ };
    if start >= len {
        assert(digits.len() == 0);
        return None;
    }
    assert(digits =~= v@.subrange(start as int, len as int));
    // Every byte after the sign must be a digit.
    let mut k = start;
    while k < len
        invariant
            start <= k <= len,
            len == v@.len(),
            forall|m: int| start <= m < k ==> is_digit(v@[m]),
        decreases len - k,
    {
        let b = v[k];
        if b < 48 || b > 57 {
            assert(digits[k - start] == v@[k as int]);
            assert(!all_digits(digits));
            return None;
        }
        k += 1;
    }
    assert(all_digits(digits)) by {
        assert(forall|m: int| 0 <= m < digits.len() ==> digits[m] == v@[m + start]);
    }
    // Skip leading zeros so that length bounds the magnitude.
    let mut z = start;
    while z < len && v[z] == 48
        invariant
            start <= z <= len,
            len == v@.len(),
            forall|m: int| start <= m < len ==> is_digit(v@[m]),
            all_digits(v@.subrange(z as int, len as int)),
            digits_val(digits) == digits_val(v@.subrange(z as int, len as int)),
        decreases len - z,
    {
        proof {
            let cur = v@.subrange(z as int, len as int);
            lemma_digits_leading_zero(cur);
            assert(cur.skip(1) =~= v@.subrange(z as int + 1, len as int));
        }
        z += 1;
    }
    let ghost stripped = v@.subrange(z as int, len as int);
    if z == len {
        // Nothing but zeros (and possibly a sign): the value is 0.
        assert(stripped.len() == 0);
        assert(digits_val(digits) == 0);
        assert(spec_parse_i32(v@) == Some(0i32));
        return Some(0);
    }
    if len - z > 10 {
        // At least 11 significant digits: out of `i32` range either way.
        proof {
            lemma_digits_val_lower(stripped);
            lemma_pow10_ten();
            lemma_pow10_mono(10, (stripped.len() - 1) as nat);
        }
        assert(digits_val(digits) >= 10000000000);
        return None;
    }
    // At most 10 significant digits: accumulate without overflow.
    let mut acc: u64 = 0;
    let mut p = z;
    while p < len
        invariant
            z <= p <= len,
            len == v@.len(),
            len - z <= 10,
            forall|m: int| start <= m < len ==> is_digit(v@[m]),
            start <= z,
            acc as int == digits_val(v@.subrange(z as int, p as int)),
            (acc as int) < pow10((p - z) as nat),
        decreases len - p,
    {
        proof {
            lemma_pow10_mono((p - z) as nat, 9);
            lemma_pow10_ten();
            lemma_pow10_mono(9, 10);
            let next = v@.subrange(z as int, p as int + 1);
            assert(next.drop_last() =~= v@.subrange(z as int, p as int));
            assert(digits_val(next) == digits_val(next.drop_last()) * 10 + (next.last() - 48));
        }
        let d = v[p] - 48;
        acc = acc * 10 + (d as u64);
        p += 1;
    }
    assert(acc as int == digits_val(stripped));
    assert(digits_val(digits) == acc as int);
    if neg {
        if acc > 2147483648 {
            return None;
        }
        let r: i32 = (-(acc as i64)) as i32;
        assert(r as int == -(digits_val(digits)));
        Some(r)
    } else {
        if acc > 2147483647 {
            return None;
        }
        Some(acc as i32)
    }
}

fn bytes_eq(a: &Vec<u8>, b: &Vec<u8>) -> (r: bool)
    ensures
        r == (a@ == b@),
{
    if a.len() != b.len() {
        return false;
    }
    let mut k: usize = 0;
    while k < a.len()
        invariant
            0 <= k <= a@.len(),
            a@.len() == b@.len(),
            forall|m: int| 0 <= m < k ==> a@[m] == b@[m],
        decreases a@.len() - k,
    {
        if a[k] != b[k] {
            return false;
        }
        k += 1;
    }
    assert(a@ =~= b@);
    true
}

fn key_window_vec() -> (r: Vec<u8>)
    ensures
        r@ == key_window(),
{
    let mut v: Vec<u8> = Vec::new();
    v.push('w' as u8);
    v.push('i' as u8);
    v.push('n' as u8);
    v.push('d' as u8);
    v.push('o' as u8);
    v.push('w' as u8);
    assert(v@ =~= key_window());
    v
}

fn key_height_vec() -> (r: Vec<u8>)
    ensures
        r@ == key_height(),
{
    let mut v: Vec<u8> = Vec::new();
    v.push('h' as u8);
    v.push('e' as u8);
    v.push('i' as u8);
    v.push('g' as u8);
    v.push('h' as u8);
    v.push('t' as u8);
    assert(v@ =~= key_height());
    v
}

fn key_width_vec() -> (r: Vec<u8>)
    ensures
        r@ == key_width(),
{
    let mut v: Vec<u8> = Vec::new();
    v.push('w' as u8);
    v.push('i' as u8);
    v.push('d' as u8);
    v.push('t' as u8);
    v.push('h' as u8);
    assert(v@ =~= key_width());
    v
}

fn key_maximized_vec() -> (r: Vec<u8>)
    ensures
        r@ == key_maximized(),
{
    let mut v: Vec<u8> = Vec::new();
    v.push('m' as u8);
    v.push('a' as u8);
    v.push('x' as u8);
    v.push('i' as u8);
    v.push('m' as u8);
    v.push('i' as u8);
    v.push('z' as u8);
    v.push('e' as u8);
    v.push('d' as u8);
    assert(v@ =~= key_maximized());
    v
}

/// The scalar after position `from`, with surrounding blanks removed.
#[verifier::loop_isolation(false)]
fn trim_value(rest: &Vec<u8>, from: usize) -> (r: Vec<u8>)
    requires
        from <= rest@.len(),
    ensures
        r@ == trim_spaces(rest@.skip(from as int)),
{
    let len = rest.len();
    let ghost s0 = rest@.skip(from as int);
    let mut lo = from;
    while lo < len && rest[lo] == (' ' as u8)
        invariant
            from <= lo <= len,
            drop_leading_spaces(s0) == drop_leading_spaces(rest@.skip(lo as int)),
        decreases len - lo,
    {
        proof {
            let cur = rest@.skip(lo as int);
            assert(cur[0] == rest@[lo as int]);
            assert(cur.skip(1) =~= rest@.skip(lo as int + 1));
        }
        lo += 1;
    }
    proof {
        let cur = rest@.skip(lo as int);
        if cur.len() > 0 {
            assert(cur[0] == rest@[lo as int]);
        }
        assert(drop_leading_spaces(s0) == cur);
    }
    let mut hi = len;
    while hi > lo && rest[hi - 1] == (' ' as u8)
        invariant
            lo <= hi <= len,
            drop_trailing_spaces(rest@.subrange(lo as int, len as int)) == drop_trailing_spaces(
                rest@.subrange(lo as int, hi as int),
            ),
        decreases hi,
    {
        proof {
            let cur = rest@.subrange(lo as int, hi as int);
            assert(cur.last() == rest@[hi - 1]);
            assert(cur.drop_last() =~= rest@.subrange(lo as int, hi as int - 1));
        }
        hi -= 1;
    }
    proof {
        assert(rest@.skip(lo as int) =~= rest@.subrange(lo as int, len as int));
        let fin = rest@.subrange(lo as int, hi as int);
        if fin.len() > 0 {
            assert(fin.last() == rest@[hi - 1]);
        }
        assert(drop_trailing_spaces(fin) == fin);
    }
    subvec(rest, lo, hi)
}

fn apply_field_exec(rest: &Vec<u8>, doc: CacheSettingsYaml) -> (r: Option<CacheSettingsYaml>)
    ensures
        r == apply_field(rest@, doc),
{
    let len = rest.len();
    let ci = find_byte_exec(rest, ':' as u8, 0);
    if ci >= len {
        return None;
    }
    let key = subvec(rest, 0, ci);
    assert(key@ =~= rest@.take(ci as int));
    let value = trim_value(rest, ci + 1);
    let kh = key_height_vec();
    if bytes_eq(&key, &kh) {
        return match parse_i32_exec(&value) {
            Some(n) => Some(
                CacheSettingsYaml { window: CacheWindowSettings { height: n, ..doc.window } },
            ),
            None => None,
        };
    }
    let kw = key_width_vec();
    if bytes_eq(&key, &kw) {
        return match parse_i32_exec(&value) {
            Some(n) => Some(
                CacheSettingsYaml { window: CacheWindowSettings { width: n, ..doc.window } },
            ),
            None => None,
        };
    }
    let km = key_maximized_vec();
    if bytes_eq(&key, &km) {
        let mut tv: Vec<u8> = Vec::new();
        push_bool(&mut tv, true);
        if bytes_eq(&value, &tv) {
            return Some(
                CacheSettingsYaml { window: CacheWindowSettings { maximized: true, ..doc.window } },
            );
        }
        let mut fv: Vec<u8> = Vec::new();
        push_bool(&mut fv, false);
        if bytes_eq(&value, &fv) {
            return Some(
                CacheSettingsYaml {
                    window: CacheWindowSettings { maximized: false, ..doc.window },
                },
            );
        }
        return None;
    }
    Some(doc)
}

fn step_line_exec(line: &Vec<u8>, sect: Section, doc: CacheSettingsYaml) -> (r: Option<
    (Section, CacheSettingsYaml),
>)
    ensures
        r == step_line(line@, sect, doc),
{
    if is_all_spaces_exec(line) {
        return Some((sect, doc));
    }
    assert(line@.len() > 0) by {
        if line@.len() == 0 {
            assert(is_all_spaces(line@));
        }
    }
    if line[0] == (' ' as u8) {
        if line.len() >= 2 && line[1] == (' ' as u8) {
            if sect == Section::Outside {
                return None;
            }
            if line.len() >= 3 && line[2] == (' ' as u8) {
                return Some((sect, doc));
            }
            if sect == Section::Other {
                return Some((sect, doc));
            }
            let rest = subvec(line, 2, line.len());
            assert(rest@ =~= line@.skip(2));
            match apply_field_exec(&rest, doc) {
                Some(d) => Some((Section::Window, d)),
                None => None,
            }
        } else {
            None
        }
    } else {
        let ci = find_byte_exec(line, ':' as u8, 0);
        if ci >= line.len() {
            return None;
        }
        let key = subvec(line, 0, ci);
        assert(key@ =~= line@.take(ci as int));
        let rest = subvec(line, ci + 1, line.len());
        assert(rest@ =~= line@.skip(ci as int + 1));
        let kw = key_window_vec();
        if bytes_eq(&key, &kw) {
            if is_all_spaces_exec(&rest) {
                Some((Section::Window, doc))
            } else {
                None
            }
        } else {
            Some((Section::Other, doc))
        }
    }
}

/// Parse on-disk text into a document.  This never fails: malformed content
/// falls back to the all-default document, exactly as [`spec_parse`] says.
#[verifier::loop_isolation(false)]
pub fn from_yaml_bytes(s: &[u8]) -> (r: CacheSettingsYaml)
    ensures
        r == spec_parse(s@),
{
    let v: Vec<u8> = slice_to_vec(s);
    let n = v.len();
    let mut i: usize = 0;
    let mut sect = Section::Outside;
    let mut doc = CacheSettingsYaml::default();
    while i < n
        invariant
            0 <= i <= n,
            parse_from(v@, 0, Section::Outside, CacheSettingsYaml::spec_default()) == parse_from(
                v@,
                i as int,
                sect,
                doc,
            ),
        decreases n - i,
    {
        let j = find_byte_exec(&v, '\n' as u8, i);
        let line = subvec(&v, i, j);
        match step_line_exec(&line, sect, doc) {
            None => {
                assert(parse_from(v@, i as int, sect, doc) is None);
                return CacheSettingsYaml::default();
            },
            Some((s2, d2)) => {
                sect = s2;
                doc = d2;
            },
        }
        if j >= n {
            i = n;
        } else {
            i = j + 1;
        }
    }
    assert(parse_from(v@, i as int, sect, doc) == Some(doc));
    doc
}

// ---------------------------------------------------------------------------
// Round trip: parsing what was emitted gives the document back
// ---------------------------------------------------------------------------

/// The digit string of `n` is nonempty and holds nothing but digits.
proof fn lemma_uint_digits_are_digits(n: int)
    requires
        n >= 0,
    ensures
        spec_uint_digits(n).len() >= 1,
        all_digits(spec_uint_digits(n)),
    decreases n,
{
    if n >= 10 {
        lemma_uint_digits_are_digits(n / 10);
        assert forall|k: int| 0 <= k < spec_uint_digits(n).len() implies is_digit(
            spec_uint_digits(n)[k],
        ) by {
            if k < spec_uint_digits(n / 10).len() {
                assert(spec_uint_digits(n)[k] == spec_uint_digits(n / 10)[k]);
            }
        }
    }
}

/// Reading back the digit string of `n` gives `n`.
proof fn lemma_digits_val_of_uint_digits(n: int)
    requires
        n >= 0,
    ensures
        digits_val(spec_uint_digits(n)) == n,
    decreases n,
{
    if n < 10 {
        let s = spec_uint_digits(n);
        assert(s == seq![(48 + n) as u8]);
        assert(s.len() == 1);
        assert(s.last() == (48 + n) as u8);
        assert(s.drop_last() =~= Seq::<u8>::empty());
        assert(digits_val(Seq::<u8>::empty()) == 0);
        assert(digits_val(s) == digits_val(s.drop_last()) * 10 + (s.last() - 48));
        assert(digits_val(s) == n);
    } else {
        lemma_digits_val_of_uint_digits(n / 10);
        let s = spec_uint_digits(n);
        assert(s.drop_last() =~= spec_uint_digits(n / 10));
        assert(s.last() == (48 + n % 10) as u8);
        assert(digits_val(s) == (n / 10) * 10 + n % 10);
        vstd::arithmetic::div_mod::lemma_fundamental_div_mod(n, 10);
    }
}

/// Parsing the decimal form of an in-range integer gives the integer back.
proof fn lemma_parse_i32_int_bytes(n: int)
    requires
        -2147483648 <= n <= 2147483647,
    ensures
        spec_parse_i32(spec_int_bytes(n)) == Some(n as i32),
{
    if n >= 0 {
        let v = spec_int_bytes(n);
        lemma_uint_digits_are_digits(n);
        lemma_digits_val_of_uint_digits(n);
        assert(v == spec_uint_digits(n));
        assert(is_digit(v[0]));
        assert(v[0] != '-' as u8);
    } else {
        let v = spec_int_bytes(n);
        lemma_uint_digits_are_digits(-n);
        lemma_digits_val_of_uint_digits(-n);
        assert(v[0] == '-' as u8);
        assert(v.skip(1) =~= spec_uint_digits(-n));
        assert(all_digits(v.skip(1)));
        assert(digits_val(v.skip(1)) == -n);
    }
}

/// Malformed content never surfaces an error: any text the line grammar
/// rejects parses to the all-default document.
pub proof fn lemma_malformed_parses_to_default(s: Seq<u8>)
    requires
        parse_from(s, 0, Section::Outside, CacheSettingsYaml::spec_default()) is None,
    ensures
        spec_parse(s) == CacheSettingsYaml::spec_default(),
{
}

/// `find_byte` from `i` equals `find_byte` on the suffix starting at `i`.
proof fn lemma_find_byte_shift(s: Seq<u8>, target: u8, i: int)
    requires
        0 <= i <= s.len(),
    ensures
        find_byte(s, target, i) == i + find_byte(s.skip(i), target, 0),
{
    lemma_find_byte(s, target, i);
    let j = find_byte(s, target, i);
    lemma_find_byte_unique(s.skip(i), target, 0, j - i);
}

/// Parsing from `i` equals parsing the suffix starting at `i`.
proof fn lemma_parse_from_shift(s: Seq<u8>, i: int, sect: Section, doc: CacheSettingsYaml)
    requires
        0 <= i <= s.len(),
    ensures
        parse_from(s, i, sect, doc) == parse_from(s.skip(i), 0, sect, doc),
    decreases s.len() - i,
{
    let t = s.skip(i);
    if i >= s.len() {
        assert(t.len() == 0);
    } else {
        let j = find_byte(s, '\n' as u8, i);
        lemma_find_byte(s, '\n' as u8, i);
        lemma_find_byte_shift(s, '\n' as u8, i);
        let j2 = find_byte(t, '\n' as u8, 0);
        assert(j2 == j - i);
        assert(s.subrange(i, j) =~= t.subrange(0, j2));
        match step_line(s.subrange(i, j), sect, doc) {
            None => {},
            Some((s2, d2)) => {
                if j >= s.len() {
                } else {
                    lemma_parse_from_shift(s, j + 1, s2, d2);
                    lemma_parse_from_shift(t, j2 + 1, s2, d2);
                    assert(t.skip(j2 + 1) =~= s.skip(j + 1));
                }
            },
        }
    }
}

/// Text that starts with one full line parses as: one line step, then the rest.
proof fn lemma_parse_step(line: Seq<u8>, rest: Seq<u8>, sect: Section, doc: CacheSettingsYaml)
    requires
        forall|k: int| 0 <= k < line.len() ==> line[k] != ('\n' as u8),
    ensures
        parse_from(line + seq![('\n' as u8)] + rest, 0, sect, doc) == (match step_line(
            line,
            sect,
            doc,
        ) {
            None => None::<CacheSettingsYaml>,
            Some((s2, d2)) => parse_from(rest, 0, s2, d2),
        }),
{
    let s = line + seq![('\n' as u8)] + rest;
    let n = line.len() as int;
    assert(s.len() == line.len() + 1 + rest.len());
    assert forall|k: int| 0 <= k < n implies s[k] != ('\n' as u8) by {
        assert(s[k] == line[k]);
    }
    assert(s[n] == ('\n' as u8));
    lemma_find_byte_unique(s, '\n' as u8, 0, n);
    assert(s.subrange(0, n) =~= line);
    match step_line(line, sect, doc) {
        None => {},
        Some((s2, d2)) => {
            lemma_parse_from_shift(s, n + 1, s2, d2);
            assert(s.skip(n + 1) =~= rest);
        },
    }
}

/// The bytes of an integer's decimal form: no newline, colon or blank, and
/// it ends in a digit.
proof fn lemma_int_bytes_chars(n: int)
    ensures
        spec_int_bytes(n).len() >= 1,
        forall|k: int|
            0 <= k < spec_int_bytes(n).len() ==> spec_int_bytes(n)[k] != ('\n' as u8)
                && spec_int_bytes(n)[k] != (':' as u8) && spec_int_bytes(n)[k] != (' ' as u8),
        is_digit(spec_int_bytes(n).last()),
{
    if n >= 0 {
        lemma_uint_digits_are_digits(n);
    } else {
        lemma_uint_digits_are_digits(-n);
        let ud = spec_uint_digits(-n);
        let ib = spec_int_bytes(n);
        assert(ib.last() == ud.last());
        assert(is_digit(ud[ud.len() - 1]));
        assert forall|k: int| 0 <= k < ib.len() implies ib[k] != ('\n' as u8) && ib[k] != (
        ':' as u8) && ib[k] != (' ' as u8) by {
            if k > 0 {
                assert(ib[k] == ud[k - 1]);
                assert(is_digit(ud[k - 1]));
            }
        }
    }
}

/// The bytes of a boolean's spelling: no newline, colon or blank.
proof fn lemma_bool_bytes_chars(b: bool)
    ensures
        spec_bool_bytes(b).len() >= 1,
        forall|k: int|
            0 <= k < spec_bool_bytes(b).len() ==> spec_bool_bytes(b)[k] != ('\n' as u8)
                && spec_bool_bytes(b)[k] != (':' as u8) && spec_bool_bytes(b)[k] != (' ' as u8),
{
}

/// Splitting a field line `<key>: <val>` back into its parts.
proof fn lemma_field_line_parts(key: Seq<u8>, val: Seq<u8>)
    requires
        forall|k: int| 0 <= k < key.len() ==> key[k] != (':' as u8),
        val.len() >= 1,
        val[0] != (' ' as u8),
        val.last() != (' ' as u8),
    ensures
        ({
            let rest = key + seq![(':' as u8), (' ' as u8)] + val;
            &&& find_byte(rest, ':' as u8, 0) == key.len()
            &&& rest.take(key.len() as int) == key
            &&& trim_spaces(rest.skip(key.len() as int + 1)) == val
        }),
{
    let rest = key + seq![(':' as u8), (' ' as u8)] + val;
    let n = key.len() as int;
    assert forall|k: int| 0 <= k < n implies rest[k] != (':' as u8) by {
        assert(rest[k] == key[k]);
    }
    assert(rest[n] == (':' as u8));
    lemma_find_byte_unique(rest, ':' as u8, 0, n);
    assert(rest.take(n) =~= key);
    let v = rest.skip(n + 1);
    assert(v =~= seq![(' ' as u8)] + val);
    assert(v[0] == (' ' as u8));
    assert(v.skip(1) =~= val);
    assert(drop_leading_spaces(v) == drop_leading_spaces(val));
    assert(drop_leading_spaces(val) == val);
    assert(drop_trailing_spaces(val) == val);
}

/// Effect of the emitted `window:` header line.
proof fn lemma_step_header(sect: Section, doc: CacheSettingsYaml)
    ensures
        step_line(key_window() + seq![(':' as u8)], sect, doc) == Some((Section::Window, doc)),
{
    let line = key_window() + seq![(':' as u8)];
    assert(line.len() == 7);
    assert(line[0] == ('w' as u8));
    assert(!is_all_spaces(line));
    assert forall|k: int| 0 <= k < 6 implies line[k] != (':' as u8) by {
        assert(line[k] == key_window()[k]);
    }
    assert(line[6] == (':' as u8));
    lemma_find_byte_unique(line, ':' as u8, 0, 6);
    assert(line.take(6) =~= key_window());
    assert(line.skip(7) =~= Seq::<u8>::empty());
    assert(is_all_spaces(line.skip(7)));
}

/// Effect of the emitted height line inside the window section.
proof fn lemma_step_height(h: i32, doc: CacheSettingsYaml)
    ensures
        step_line(lit_height_prefix() + spec_int_bytes(h as int), Section::Window, doc) == Some(
            (
                Section::Window,
                CacheSettingsYaml { window: CacheWindowSettings { height: h, ..doc.window } },
            ),
        ),
{
    let ib = spec_int_bytes(h as int);
    lemma_int_bytes_chars(h as int);
    let line = lit_height_prefix() + ib;
    assert(line[2] == ('h' as u8));
    assert(!is_all_spaces(line));
    assert(line[0] == (' ' as u8) && line[1] == (' ' as u8));
    let rest = line.skip(2);
    assert(rest =~= key_height() + seq![(':' as u8), (' ' as u8)] + ib);
    lemma_field_line_parts(key_height(), ib);
    lemma_parse_i32_int_bytes(h as int);
    assert(apply_field(rest, doc) == Some(
        CacheSettingsYaml { window: CacheWindowSettings { height: h, ..doc.window } },
    ));
}

/// Effect of the emitted width line inside the window section.
proof fn lemma_step_width(w: i32, doc: CacheSettingsYaml)
    ensures
        step_line(lit_width_prefix() + spec_int_bytes(w as int), Section::Window, doc) == Some(
            (
                Section::Window,
                CacheSettingsYaml { window: CacheWindowSettings { width: w, ..doc.window } },
            ),
        ),
{
    let ib = spec_int_bytes(w as int);
    lemma_int_bytes_chars(w as int);
    let line = lit_width_prefix() + ib;
    assert(line[2] == ('w' as u8));
    assert(!is_all_spaces(line));
    assert(line[0] == (' ' as u8) && line[1] == (' ' as u8));
    let rest = line.skip(2);
    assert(rest =~= key_width() + seq![(':' as u8), (' ' as u8)] + ib);
    lemma_field_line_parts(key_width(), ib);
    lemma_parse_i32_int_bytes(w as int);
    assert(key_width() != key_height());
    assert(apply_field(rest, doc) == Some(
        CacheSettingsYaml { window: CacheWindowSettings { width: w, ..doc.window } },
    ));
}

/// Effect of the emitted maximized line inside the window section.
proof fn lemma_step_maximized(m: bool, doc: CacheSettingsYaml)
    ensures
        step_line(lit_maximized_prefix() + spec_bool_bytes(m), Section::Window, doc) == Some(
            (
                Section::Window,
                CacheSettingsYaml { window: CacheWindowSettings { maximized: m, ..doc.window } },
            ),
        ),
{
    let bb = spec_bool_bytes(m);
    lemma_bool_bytes_chars(m);
    let line = lit_maximized_prefix() + bb;
    assert(line[2] == ('m' as u8));
    assert(!is_all_spaces(line));
    assert(line[0] == (' ' as u8) && line[1] == (' ' as u8));
    let rest = line.skip(2);
    assert(rest =~= key_maximized() + seq![(':' as u8), (' ' as u8)] + bb);
    lemma_field_line_parts(key_maximized(), bb);
    assert(key_maximized() != key_height());
    assert(key_maximized() != key_width());
    if m {
        assert(bb == spec_bool_bytes(true));
    } else {
        assert(bb != spec_bool_bytes(true));
        assert(bb == spec_bool_bytes(false));
    }
    assert(apply_field(rest, doc) == Some(
        CacheSettingsYaml { window: CacheWindowSettings { maximized: m, ..doc.window } },
    ));
}

/// Round trip: parsing the emitted text of any document yields that document
/// back, field for field.
pub proof fn lemma_yaml_round_trip(doc: CacheSettingsYaml)
    ensures
        spec_parse(spec_emit(doc)) == doc,
{
    let nl = seq![('\n' as u8)];
    let h = doc.window.height;
    let w = doc.window.width;
    let m = doc.window.maximized;
    let line0 = key_window() + seq![(':' as u8)];
    let line1 = lit_height_prefix() + spec_int_bytes(h as int);
    let line2 = lit_width_prefix() + spec_int_bytes(w as int);
    let line3 = lit_maximized_prefix() + spec_bool_bytes(m);
    let rest2 = line3 + nl + Seq::<u8>::empty();
    let rest1 = line2 + nl + rest2;
    let rest0 = line1 + nl + rest1;
    let s = line0 + nl + rest0;
    assert(s =~= spec_emit(doc));

    lemma_int_bytes_chars(h as int);
    lemma_int_bytes_chars(w as int);
    lemma_bool_bytes_chars(m);
    assert forall|k: int| 0 <= k < line0.len() implies line0[k] != ('\n' as u8) by {
        if k < 6 {
            assert(line0[k] == key_window()[k]);
        }
    }
    assert forall|k: int| 0 <= k < line1.len() implies line1[k] != ('\n' as u8) by {
        if k >= 10 {
            assert(line1[k] == spec_int_bytes(h as int)[k - 10]);
        }
    }
    assert forall|k: int| 0 <= k < line2.len() implies line2[k] != ('\n' as u8) by {
        if k >= 9 {
            assert(line2[k] == spec_int_bytes(w as int)[k - 9]);
        }
    }
    assert forall|k: int| 0 <= k < line3.len() implies line3[k] != ('\n' as u8) by {
        if k >= 13 {
            assert(line3[k] == spec_bool_bytes(m)[k - 13]);
        }
    }

    let d0 = CacheSettingsYaml::spec_default();
    lemma_step_header(Section::Outside, d0);
    lemma_parse_step(line0, rest0, Section::Outside, d0);
    let d1 = CacheSettingsYaml { window: CacheWindowSettings { height: h, ..d0.window } };
    lemma_step_height(h, d0);
    lemma_parse_step(line1, rest1, Section::Window, d0);
    let d2 = CacheSettingsYaml { window: CacheWindowSettings { width: w, ..d1.window } };
    lemma_step_width(w, d1);
    lemma_parse_step(line2, rest2, Section::Window, d1);
    let d3 = CacheSettingsYaml { window: CacheWindowSettings { maximized: m, ..d2.window } };
    lemma_step_maximized(m, d2);
    lemma_parse_step(line3, Seq::<u8>::empty(), Section::Window, d2);
    assert(parse_from(Seq::<u8>::empty(), 0, Section::Window, d3) == Some(d3));
    assert(d3 == doc);
}

} // verus!
