use webapps_common::cache_settings::CacheSettings;

fn store_from(content: Option<&[u8]>) -> CacheSettings {
    CacheSettings::new("/tmp/appcache", content)
}

#[test]
fn load_missing_file_yields_defaults() {
    let cs = store_from(None);
    assert_eq!(cs.settings.window.width, 0);
    assert_eq!(cs.settings.window.height, 0);
    assert!(!cs.settings.window.maximized);
}

#[test]
fn load_empty_file_yields_defaults() {
    let cs = store_from(Some(b""));
    assert_eq!(cs.settings.window.width, 0);
    assert_eq!(cs.settings.window.height, 0);
    assert!(!cs.settings.window.maximized);
}

#[test]
fn load_malformed_garbage_yields_defaults() {
    let cs = store_from(Some(b"{{{{ not yaml at all"));
    assert_eq!(cs.settings.window.width, 0);
    assert_eq!(cs.settings.window.height, 0);
    assert!(!cs.settings.window.maximized);
}

#[test]
fn load_scalar_window_yields_defaults() {
    // `window` must be a mapping, not a scalar.
    let cs = store_from(Some(b"window: 5\n"));
    assert_eq!(cs.settings.window.width, 0);
    assert_eq!(cs.settings.window.height, 0);
}

#[test]
fn load_field_outside_section_yields_defaults() {
    let cs = store_from(Some(b"  width: 800\n"));
    assert_eq!(cs.settings.window.width, 0);
}

#[test]
fn load_non_numeric_dimension_yields_defaults() {
    let cs = store_from(Some(b"window:\n  width: abc\n  height: 500\n"));
    assert_eq!(cs.settings.window.width, 0);
    assert_eq!(cs.settings.window.height, 0);
}

#[test]
fn load_out_of_range_dimension_yields_defaults() {
    let cs = store_from(Some(b"window:\n  width: 99999999999999\n"));
    assert_eq!(cs.settings.window.width, 0);
}

#[test]
fn load_bad_boolean_yields_defaults() {
    let cs = store_from(Some(b"window:\n  maximized: yes\n"));
    assert!(!cs.settings.window.maximized);
}

#[test]
fn load_wellformed_document() {
    let cs = store_from(Some(b"window:\n  height: 2000\n  width: 400\n  maximized: true\n"));
    assert_eq!(cs.settings.window.height, 2000);
    assert_eq!(cs.settings.window.width, 400);
    assert!(cs.settings.window.maximized);
}

#[test]
fn load_fields_in_any_order() {
    let cs = store_from(Some(b"window:\n  maximized: true\n  width: 640\n  height: 480\n"));
    assert_eq!(cs.settings.window.width, 640);
    assert_eq!(cs.settings.window.height, 480);
    assert!(cs.settings.window.maximized);
}

#[test]
fn load_missing_fields_keep_defaults() {
    let cs = store_from(Some(b"window:\n  width: 700\n"));
    assert_eq!(cs.settings.window.width, 700);
    assert_eq!(cs.settings.window.height, 0);
    assert!(!cs.settings.window.maximized);
}

#[test]
fn load_ignores_unknown_fields_and_sections() {
    let content = b"other:\n  stuff: 12\nwindow:\n  width: 700\n  theme: dark\n  height: 500\n";
    let cs = store_from(Some(content));
    assert_eq!(cs.settings.window.width, 700);
    assert_eq!(cs.settings.window.height, 500);
}

#[test]
fn load_ignores_blank_lines_and_deeper_nesting() {
    let content = b"window:\n\n  extra:\n    nested: 1\n  width: 700\n";
    let cs = store_from(Some(content));
    assert_eq!(cs.settings.window.width, 700);
}

#[test]
fn load_accepts_negative_and_padded_numbers() {
    let cs = store_from(Some(b"window:\n  width: -5\n  height: 007\n"));
    assert_eq!(cs.settings.window.width, -5);
    assert_eq!(cs.settings.window.height, 7);
}

#[test]
fn load_accepts_extreme_dimensions() {
    let cs = store_from(Some(b"window:\n  width: 2147483647\n  height: -2147483648\n"));
    assert_eq!(cs.settings.window.width, i32::MAX);
    assert_eq!(cs.settings.window.height, i32::MIN);
}

#[test]
fn save_writes_exact_default_text() {
    let cs = store_from(None);
    let bytes = cs.save();
    assert_eq!(
        String::from_utf8(bytes).unwrap(),
        "window:\n  height: 0\n  width: 0\n  maximized: false\n"
    );
}

#[test]
fn save_then_load_round_trips() {
    let mut cs = store_from(None);
    cs.set_window_size(1234, -9, true);
    let bytes = cs.save();
    let reloaded = store_from(Some(&bytes));
    assert_eq!(reloaded.settings.window.width, 1234);
    assert_eq!(reloaded.settings.window.height, -9);
    assert!(reloaded.settings.window.maximized);
}

#[test]
fn save_then_load_round_trips_extremes() {
    let mut cs = store_from(None);
    cs.set_window_size(i32::MAX, i32::MIN, false);
    let bytes = cs.save();
    let reloaded = store_from(Some(&bytes));
    assert_eq!(reloaded.settings.window.width, i32::MAX);
    assert_eq!(reloaded.settings.window.height, i32::MIN);
    assert!(!reloaded.settings.window.maximized);
}

#[test]
fn set_window_size_stores_raw_values() {
    let mut cs = store_from(None);
    cs.set_window_size(1, 2, true);
    assert_eq!(cs.settings.window.width, 1);
    assert_eq!(cs.settings.window.height, 2);
    assert!(cs.settings.window.maximized);
}

#[test]
fn reset_then_reload_yields_defaults() {
    let mut cs = store_from(Some(b"window:\n  width: 700\n  height: 600\n  maximized: true\n"));
    cs.reset();
    let bytes = cs.save();
    let reloaded = store_from(Some(&bytes));
    assert_eq!(reloaded.settings.window.width, 0);
    assert_eq!(reloaded.settings.window.height, 0);
    assert!(!reloaded.settings.window.maximized);
}

#[test]
fn clamping_law_for_width() {
    let cases: [(i32, i32); 6] =
        [(0, 950), (1, 600), (599, 600), (600, 600), (601, 601), (100000, 100000)];
    for (stored, expected) in cases {
        let mut cs = store_from(None);
        cs.set_window_size(stored, 850, false);
        let (w, _, _) = cs.get_sanitized_window_geometry(950, 850, 600, 500);
        assert_eq!(w, expected, "stored width {stored}");
    }
}

#[test]
fn clamping_law_for_height() {
    let cases: [(i32, i32); 6] =
        [(0, 850), (1, 500), (499, 500), (500, 500), (501, 501), (100000, 100000)];
    for (stored, expected) in cases {
        let mut cs = store_from(None);
        cs.set_window_size(950, stored, false);
        let (_, h, _) = cs.get_sanitized_window_geometry(950, 850, 600, 500);
        assert_eq!(h, expected, "stored height {stored}");
    }
}

#[test]
fn maximized_passes_through_clamping() {
    for maximized in [false, true] {
        for (w, h) in [(0, 0), (1, 1), (5000, 5000)] {
            let mut cs = store_from(None);
            cs.set_window_size(w, h, maximized);
            let (_, _, m) = cs.get_sanitized_window_geometry(950, 850, 600, 500);
            assert_eq!(m, maximized);
        }
    }
}

#[test]
fn fresh_store_geometry_uses_defaults() {
    let cs = store_from(None);
    let geom = cs.get_sanitized_window_geometry(950, 850, 600, 500);
    assert_eq!(geom, (950, 850, false));
}

#[test]
fn stored_geometry_is_sanitized_per_field() {
    let cs = store_from(Some(b"window:\n  height: 2000\n  width: 400\n  maximized: true\n"));
    let geom = cs.get_sanitized_window_geometry(950, 850, 600, 500);
    assert_eq!(geom, (600, 2000, true));
}

#[test]
fn close_handler_sequence_persists_geometry() {
    let mut cs = store_from(None);
    cs.set_window_size(1200, 900, true);
    let bytes = cs.save();
    let reloaded = store_from(Some(&bytes));
    assert_eq!(reloaded.settings.window.width, 1200);
    assert_eq!(reloaded.settings.window.height, 900);
    assert!(reloaded.settings.window.maximized);
}

#[test]
fn settings_path_is_resolved_under_cache_dir() {
    let cs = CacheSettings::new("/home/user/.cache/app", None);
    assert_eq!(cs.settings_path, "/home/user/.cache/app/settings.yml");
    assert_eq!(CacheSettings::settings_file_name(), "settings.yml");
}
