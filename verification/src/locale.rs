//! Choosing the UI locale: matching the user's language against the list of
//! translations the application ships.  The host reads the environment and
//! applies the choice; the selection rule lives here.

use vstd::prelude::*;
use vstd::string::StrSliceExecFns;
use crate::strings::find_char;

verus! {

/// The part of a locale tag before the first underscore: `en_GB` stems to
/// `en`, a tag without an underscore stems to itself.
pub open spec fn spec_stem(s: Seq<char>) -> Seq<char> {
    s.take(find_char(s, '_', 0))
}

/// The language part of a `LANG`-style value: everything before the first
/// dot, so `de_DE.UTF-8` becomes `de_DE`.
pub open spec fn spec_strip_encoding(s: Seq<char>) -> Seq<char> {
    s.take(find_char(s, '.', 0))
}

/// The locale the walk settles on after considering entries from `i` on,
/// having remembered `acc` so far: the first exact match of the user's
/// language wins outright; otherwise the last entry whose stem matches the
/// language's stem leaves that stem; otherwise what was remembered stays.
pub open spec fn spec_select_from(
    language: Seq<char>,
    supported: Seq<Seq<char>>,
    i: int,
    acc: Seq<char>,
) -> Seq<char>
    recommends
        0 <= i <= supported.len(),
    decreases supported.len() - i,
{
    if i < 0 || i >= supported.len() {
        acc
    } else if supported[i] == language {
        language
    } else if spec_stem(supported[i]) == spec_stem(language) {
        spec_select_from(language, supported, i + 1, spec_stem(language))
    } else {
        spec_select_from(language, supported, i + 1, acc)
    }
}

/// The locale selected for a user language: an exact match among the
/// supported locales, else the language's stem when some supported locale
/// shares it (`en_GB` falls back to `en`), else empty for "no match".
pub open spec fn spec_select_locale(language: Seq<char>, supported: Seq<Seq<char>>) -> Seq<char> {
    spec_select_from(language, supported, 0, Seq::empty())
}

fn stem_of(s: &str) -> (r: String)
    ensures
        r@ == spec_stem(s@),
{
    let cut = crate::strings::find_char_in_str(s, '_', 0);
    let piece = s.substring_char(0, cut);
    assert(piece@ =~= s@.take(find_char(s@, '_', 0)));
    piece.to_owned()
}

/// The language part of a `LANG`-style environment value: everything before
/// the first dot.
pub fn strip_encoding(value: &str) -> (r: String)
    ensures
        r@ == spec_strip_encoding(value@),
{
    let cut = crate::strings::find_char_in_str(value, '.', 0);
    let piece = value.substring_char(0, cut);
    assert(piece@ =~= value@.take(find_char(value@, '.', 0)));
    piece.to_owned()
}

/// Pick the locale to use for a user language, given the locales the
/// application ships.  Returns the empty string when nothing matches; the
/// host then keeps its fallback locale.
#[verifier::loop_isolation(false)]
pub fn select_locale(language: &str, supported: &Vec<String>) -> (r: String)
    ensures
        r@ == spec_select_locale(language@, supported@.map_values(|s: String| s@)),
{
    let ghost view: Seq<Seq<char>> = supported@.map_values(|s: String| s@);
    let language_owned = language.to_owned();
    let language_stem = stem_of(language);
    let mut locale = String::new();
    let mut i: usize = 0;
    while i < supported.len()
        invariant
            0 <= i <= supported@.len(),
            spec_select_from(language@, view, 0, Seq::empty()) == spec_select_from(
                language@,
                view,
                i as int,
                locale@,
            ),
        decreases supported@.len() - i,
    {
        let lang: &String = &supported[i];
        assert(view[i as int] == lang@);
        if lang.eq(&language_owned) {
            return lang.clone();
        }
        let lang_stem = stem_of(lang.as_str());
        if language_stem.eq(&lang_stem) {
            locale = stem_of(language);
        }
        i += 1;
    }
    locale
}

} // verus!
