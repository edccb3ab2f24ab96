use webapps_common::category::Category;

#[test]
fn ui_labels() {
    assert_eq!(Category::AudioVideo.to_string_ui(), "Multimedia");
    assert_eq!(Category::Network.to_string_ui(), "Network / Internet");
    assert_eq!(Category::Utility.to_string_ui(), "Utility");
}

#[test]
fn desktop_entry_values() {
    assert_eq!(Category::AudioVideo.to_desktop_string(), "AudioVideo");
    assert_eq!(Category::Audio.to_desktop_string(), "AudioVideo;Audio");
    assert_eq!(Category::Video.to_desktop_string(), "AudioVideo;Video");
    assert_eq!(Category::Network.to_desktop_string(), "Network");
}

#[test]
fn icon_names() {
    assert_eq!(Category::Game.icon_name(), "applications-games-symbolic");
    assert_eq!(Category::Network.icon_name(), "web-browser-symbolic");
    assert_eq!(Category::System.icon_name(), "preferences-system-symbolic");
}

#[test]
fn get_all_lists_every_category_once() {
    let all = Category::get_all();
    assert_eq!(all.len(), 13);
    assert_eq!(all[0], Category::AudioVideo);
    assert_eq!(all[12], Category::Utility);
    for (i, a) in all.iter().enumerate() {
        for (j, b) in all.iter().enumerate() {
            if i != j {
                assert_ne!(a, b);
            }
        }
    }
}
