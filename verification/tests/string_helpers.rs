use webapps_common::strings::{capitalize, capitalize_all_words, parse_output};

#[test]
fn capitalize_simple_word() {
    assert_eq!(capitalize("hello"), "Hello");
}

#[test]
fn capitalize_keeps_rest_unchanged() {
    assert_eq!(capitalize("hELLo world"), "HELLo world");
    assert_eq!(capitalize("Already"), "Already");
    assert_eq!(capitalize("1two"), "1two");
}

#[test]
fn capitalize_may_grow_the_string() {
    // The uppercase mapping of a character can be more than one character.
    assert_eq!(capitalize("\u{df}eta"), "SSeta");
}

#[test]
fn capitalize_empty_capitalizes_nul() {
    // An empty input falls back to the NUL character, which maps to itself.
    assert_eq!(capitalize(""), "\u{0}");
}

#[test]
fn capitalize_all_words_simple() {
    assert_eq!(capitalize_all_words("hello brave world"), "Hello Brave World");
}

#[test]
fn capitalize_all_words_single_word() {
    assert_eq!(capitalize_all_words("hello"), "Hello");
}

#[test]
fn capitalize_all_words_empty_runs_capitalize_nul() {
    // Consecutive blanks delimit empty runs; each becomes the NUL mapping.
    assert_eq!(capitalize_all_words("a  b"), "A \u{0} B");
    assert_eq!(capitalize_all_words(""), "\u{0}");
}

#[test]
fn parse_output_trims_whitespace() {
    assert_eq!(parse_output(b"  hello world \n"), "hello world");
    assert_eq!(parse_output(b"\t\r\n ok\t\r\n "), "ok");
    assert_eq!(parse_output(b""), "");
    assert_eq!(parse_output(b" \n\t "), "");
}

#[test]
fn parse_output_replaces_invalid_utf8() {
    assert_eq!(parse_output(&[0xff]), "\u{fffd}");
    assert_eq!(parse_output(&[b'o', b'k', 0xc3]), "ok\u{fffd}");
}

#[test]
fn parse_output_decodes_utf8() {
    assert_eq!(parse_output("  gr\u{fc}n \n".as_bytes()), "gr\u{fc}n");
}
