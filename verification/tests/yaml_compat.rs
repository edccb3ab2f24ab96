//! Cross-checks of the settings text against a general YAML implementation:
//! what the library writes must read back identically through serde_yaml,
//! and a document serde_yaml writes must load identically through the
//! library.

use serde_yaml::Value;
use webapps_common::cache_settings::CacheSettings;

#[test]
fn emitted_text_reads_back_through_serde_yaml() {
    let mut cs = CacheSettings::new("/tmp/appcache", None);
    cs.set_window_size(1200, -900, true);
    let bytes = cs.save();
    let text = String::from_utf8(bytes).unwrap();
    let value: Value = serde_yaml::from_str(&text).unwrap();
    let window = value.get("window").unwrap();
    assert_eq!(window.get("width").unwrap().as_i64().unwrap(), 1200);
    assert_eq!(window.get("height").unwrap().as_i64().unwrap(), -900);
    assert_eq!(window.get("maximized").unwrap().as_bool().unwrap(), true);
}

#[test]
fn serde_yaml_text_loads_through_the_library() {
    let mut window = serde_yaml::Mapping::new();
    window.insert(
        Value::String("height".to_string()),
        Value::Number(serde_yaml::Number::from(480)),
    );
    window.insert(
        Value::String("width".to_string()),
        Value::Number(serde_yaml::Number::from(640)),
    );
    window.insert(Value::String("maximized".to_string()), Value::Bool(true));
    let mut top = serde_yaml::Mapping::new();
    top.insert(Value::String("window".to_string()), Value::Mapping(window));
    let text = serde_yaml::to_string(&Value::Mapping(top)).unwrap();

    let cs = CacheSettings::new("/tmp/appcache", Some(text.as_bytes()));
    assert_eq!(cs.settings.window.height, 480);
    assert_eq!(cs.settings.window.width, 640);
    assert!(cs.settings.window.maximized);
}
