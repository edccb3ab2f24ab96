//! Desktop-entry categories offered by the UI, from the freedesktop menu
//! category registry: <https://specifications.freedesktop.org/menu/latest/category-registry.html>

use vstd::prelude::*;

verus! {

#[derive(Debug, Clone, Copy, PartialEq, Eq, Structural)]
pub enum Category {
    AudioVideo,
    Audio,
    Video,
    Development,
    Education,
    Game,
    Graphics,
    Network,
    Office,
    Science,
    Settings,
    System,
    Utility,
}

impl Category {
    /// The label the UI shows for the category.
    pub open spec fn spec_ui_label(self) -> Seq<char> {
        match self {
            Category::AudioVideo => "Multimedia"@,
            Category::Audio => "Audio"@,
            Category::Video => "Video"@,
            Category::Development => "Development"@,
            Category::Education => "Education"@,
            Category::Game => "Game"@,
            Category::Graphics => "Graphics"@,
            Category::Network => "Network / Internet"@,
            Category::Office => "Office"@,
            Category::Science => "Science"@,
            Category::Settings => "Settings"@,
            Category::System => "System"@,
            Category::Utility => "Utility"@,
        }
    }

    /// The `Categories=` value written into a desktop-entry file.
    pub open spec fn spec_desktop_entry(self) -> Seq<char> {
        match self {
            Category::AudioVideo => "AudioVideo"@,
            Category::Audio => "AudioVideo;Audio"@,
            Category::Video => "AudioVideo;Video"@,
            Category::Development => "Development"@,
            Category::Education => "Education"@,
            Category::Game => "Game"@,
            Category::Graphics => "Graphics"@,
            Category::Network => "Network"@,
            Category::Office => "Office"@,
            Category::Science => "Science"@,
            Category::Settings => "Settings"@,
            Category::System => "System"@,
            Category::Utility => "Utility"@,
        }
    }

    /// The name of the symbolic icon that illustrates the category.
    pub open spec fn spec_icon_name(self) -> Seq<char> {
        match self {
            Category::AudioVideo => "applications-multimedia-symbolic"@,
            Category::Audio => "audio-x-generic-symbolic"@,
            Category::Video => "video-x-generic-symbolic"@,
            Category::Development => "applications-engineering-symbolic"@,
            Category::Education => "emoji-symbols-symbolic"@,
            Category::Game => "applications-games-symbolic"@,
            Category::Graphics => "applications-graphics-symbolic"@,
            Category::Network => "web-browser-symbolic"@,
            Category::Office => "x-office-document-symbolic"@,
            Category::Science => "applications-science-symbolic"@,
            Category::Settings => "preferences-other-symbolic"@,
            Category::System => "preferences-system-symbolic"@,
            Category::Utility => "applications-utilities-symbolic"@,
        }
    }

    /// Human-readable label for the UI.
    pub fn to_string_ui(&self) -> (r: &'static str)
        ensures
            r@ == self.spec_ui_label(),
    {
        match self {
            Category::AudioVideo => "Multimedia",
            Category::Audio => "Audio",
            Category::Video => "Video",
            Category::Development => "Development",
            Category::Education => "Education",
            Category::Game => "Game",
            Category::Graphics => "Graphics",
            Category::Network => "Network / Internet",
            Category::Office => "Office",
            Category::Science => "Science",
            Category::Settings => "Settings",
            Category::System => "System",
            Category::Utility => "Utility",
        }
    }

    /// The semicolon-joined registry value stored in a desktop-entry file.
    pub fn to_desktop_string(&self) -> (r: &'static str)
        ensures
            r@ == self.spec_desktop_entry(),
    {
        match self {
            Category::AudioVideo => "AudioVideo",
            Category::Audio => "AudioVideo;Audio",
            Category::Video => "AudioVideo;Video",
            Category::Development => "Development",
            Category::Education => "Education",
            Category::Game => "Game",
            Category::Graphics => "Graphics",
            Category::Network => "Network",
            Category::Office => "Office",
            Category::Science => "Science",
            Category::Settings => "Settings",
            Category::System => "System",
            Category::Utility => "Utility",
        }
    }

    /// Icon name for the category; the host turns it into a widget.
    pub fn icon_name(&self) -> (r: &'static str)
        ensures
            r@ == self.spec_icon_name(),
    {
        match self {
            Category::AudioVideo => "applications-multimedia-symbolic",
            Category::Audio => "audio-x-generic-symbolic",
            Category::Video => "video-x-generic-symbolic",
            Category::Development => "applications-engineering-symbolic",
            Category::Education => "emoji-symbols-symbolic",
            Category::Game => "applications-games-symbolic",
            Category::Graphics => "applications-graphics-symbolic",
            Category::Network => "web-browser-symbolic",
            Category::Office => "x-office-document-symbolic",
            Category::Science => "applications-science-symbolic",
            Category::Settings => "preferences-other-symbolic",
            Category::System => "preferences-system-symbolic",
            Category::Utility => "applications-utilities-symbolic",
        }
    }

    /// Every category, in the order the UI lists them.
    pub fn get_all() -> (r: [Category; 13])
        ensures
            r@ =~= seq![
                Category::AudioVideo,
                Category::Audio,
                Category::Video,
                Category::Development,
                Category::Education,
                Category::Game,
                Category::Graphics,
                Category::Network,
                Category::Office,
                Category::Science,
                Category::Settings,
                Category::System,
                Category::Utility,
            ],
    {
        let list: [Category; 13] = [
            Category::AudioVideo,
            Category::Audio,
            Category::Video,
            Category::Development,
            Category::Education,
            Category::Game,
            Category::Graphics,
            Category::Network,
            Category::Office,
            Category::Science,
            Category::Settings,
            Category::System,
            Category::Utility,
        ];
        list
    }
}

} // verus!
