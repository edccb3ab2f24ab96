use webapps_common::locale::{select_locale, strip_encoding};

fn supported(list: &[&str]) -> Vec<String> {
    list.iter().map(|s| s.to_string()).collect()
}

#[test]
fn exact_locale_match_wins() {
    let langs = supported(&["de", "en_GB", "en"]);
    assert_eq!(select_locale("en_GB", &langs), "en_GB");
}

#[test]
fn stem_match_falls_back_to_stem() {
    let langs = supported(&["de", "en"]);
    assert_eq!(select_locale("en_GB", &langs), "en");
}

#[test]
fn no_match_yields_empty() {
    let langs = supported(&["de", "en"]);
    assert_eq!(select_locale("fr", &langs), "");
}

#[test]
fn exact_match_stops_the_search() {
    let langs = supported(&["en", "en_US"]);
    assert_eq!(select_locale("en", &langs), "en");
}

#[test]
fn stem_fallback_across_regions() {
    let langs = supported(&["pt_BR"]);
    assert_eq!(select_locale("pt_PT", &langs), "pt");
}

#[test]
fn strip_encoding_drops_the_dot_suffix() {
    assert_eq!(strip_encoding("de_DE.UTF-8"), "de_DE");
    assert_eq!(strip_encoding("C"), "C");
    assert_eq!(strip_encoding(""), "");
}
