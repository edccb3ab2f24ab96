//! The persisted settings document: last window geometry, cached between runs.
//!
//! The document always exists in memory, whatever is on disk: absent or
//! unparseable data falls back to the all-default document.  `0` is a
//! sentinel meaning "no cached value" for a dimension.

use vstd::prelude::*;
use crate::settings_yaml::{spec_parse, spec_emit, from_yaml_bytes, to_yaml_bytes, lemma_yaml_round_trip};

verus! {

/// Window geometry as last persisted.  A dimension of `0` means "unset".
#[derive(Debug, Clone, Copy, PartialEq, Eq, Structural)]
pub struct CacheWindowSettings {
    pub height: i32,
    pub width: i32,
    pub maximized: bool,
}

impl Default for CacheWindowSettings {
    fn default() -> (r: Self)
        ensures
            r == CacheWindowSettings::spec_default(),
    {
        CacheWindowSettings { height: 0, width: 0, maximized: false }
    }
}

impl CacheWindowSettings {
    /// The all-default geometry: both dimensions unset, not maximized.
    pub open spec fn spec_default() -> Self {
        CacheWindowSettings { height: 0, width: 0, maximized: false }
    }
}

/// The whole persisted document.  Today it holds only the window section.
#[derive(Debug, Clone, Copy, PartialEq, Eq, Structural)]
pub struct CacheSettingsYaml {
    pub window: CacheWindowSettings,
}

impl Default for CacheSettingsYaml {
    fn default() -> (r: Self)
        ensures
            r == CacheSettingsYaml::spec_default(),
    {
        CacheSettingsYaml { window: CacheWindowSettings { height: 0, width: 0, maximized: false } }
    }
}

impl CacheSettingsYaml {
    /// The all-default document, the fallback for a missing or corrupt file.
    pub open spec fn spec_default() -> Self {
        CacheSettingsYaml { window: CacheWindowSettings::spec_default() }
    }
}

/// One stored dimension, sanitized for presentation: the sentinel `0` becomes
/// the caller's default, a too-small value is raised to the caller's minimum,
/// and anything else passes through unchanged.
pub open spec fn spec_sanitize_dim(stored: i32, default: i32, min: i32) -> i32 {
    if stored == 0 {
        default
    } else if stored < min {
        min
    } else {
        stored
    }
}

/// The document read from a settings file's content: a missing or unreadable
/// file (`None`) and malformed content both yield the all-default document.
pub open spec fn spec_load(content: Option<Seq<u8>>) -> CacheSettingsYaml {
    match content {
        Some(s) => spec_parse(s),
        None => CacheSettingsYaml::spec_default(),
    }
}

/// The persisted settings store: the in-memory document plus the path it was
/// resolved from, kept for the process lifetime.  The host reads and writes
/// the file at that path; everything between those two edges happens here.
#[derive(Debug)]
pub struct CacheSettings {
    pub settings: CacheSettingsYaml,
    pub settings_path: String,
}

impl CacheSettings {
    /// Name of the settings file inside the application cache directory.
    pub fn settings_file_name() -> (r: &'static str)
        ensures
            r@ == "settings.yml"@,
    {
        "settings.yml"
    }

    /// The resolved settings file path for a cache directory.
    pub fn settings_file_path(cache_dir: &str) -> (r: String)
        ensures
            r@ == cache_dir@ + "/settings.yml"@,
    {
        let mut p = String::new();
        p.append(cache_dir);
        p.append("/settings.yml");
        p
    }

    /// Build the store from the content of the settings file, or from `None`
    /// when the file is missing or unreadable.  Loading always succeeds:
    /// whatever was on disk, the caller gets a usable document back.
    pub fn new(cache_dir: &str, file_content: Option<&[u8]>) -> (r: Self)
        ensures
            r.settings == spec_load(
                match file_content {
                    Some(b) => Some(b@),
                    None => None,
                },
            ),
            r.settings_path@ == cache_dir@ + "/settings.yml"@,
    {
        let settings = match file_content {
            Some(b) => from_yaml_bytes(b),
            None => CacheSettingsYaml::default(),
        };
        CacheSettings { settings, settings_path: Self::settings_file_path(cache_dir) }
    }

    /// Geometry for presenting the window, clamped so that the host never
    /// sees a degenerate size: an unset dimension (the sentinel `0`) becomes
    /// the supplied default, a stored dimension below the supplied minimum is
    /// raised to that minimum, and anything else is returned as stored.  The
    /// maximized flag passes through unchanged.
    pub fn get_sanitized_window_geometry(
        &self,
        default_width: i32,
        default_height: i32,
        min_width: i32,
        min_height: i32,
    ) -> (r: (i32, i32, bool))
        ensures
            r.0 == spec_sanitize_dim(self.settings.window.width, default_width, min_width),
            r.1 == spec_sanitize_dim(self.settings.window.height, default_height, min_height),
            r.2 == self.settings.window.maximized,
    {
        let w = self.settings.window.width;
        let h = self.settings.window.height;
        let width = if w == 0 {
            default_width
        } else if w < min_width {
            min_width
        } else {
            w
        };
        let height = if h == 0 {
            default_height
        } else if h < min_height {
            min_height
        } else {
            h
        };
        (width, height, self.settings.window.maximized)
    }

    /// Overwrite the geometry fields with the caller's raw values.  No
    /// clamping happens here: sanitization is applied on read, not on write.
    pub fn set_window_size(&mut self, width: i32, height: i32, maximized: bool)
        ensures
            final(self).settings.window.width == width,
            final(self).settings.window.height == height,
            final(self).settings.window.maximized == maximized,
            final(self).settings_path == old(self).settings_path,
    {
        self.settings.window.width = width;
        self.settings.window.height = height;
        self.settings.window.maximized = maximized;
    }

    /// Replace the document with the all-default one.  The host persists the
    /// reset state right afterwards by writing [`Self::save`]'s bytes.
    pub fn reset(&mut self)
        ensures
            final(self).settings == CacheSettingsYaml::spec_default(),
            final(self).settings_path == old(self).settings_path,
    {
        self.settings = CacheSettingsYaml::default();
    }

    /// Serialize the current document for writing to `settings_path`.  The
    /// text is defined byte for byte, so encoding cannot fail; only the
    /// host's directory creation or file write can, outside this store.
    pub fn save(&self) -> (r: Vec<u8>)
        ensures
            r@ == spec_emit(self.settings),
    {
        to_yaml_bytes(&self.settings)
    }
}

/// A persisted reset loads back as the all-default document: writing the
/// default document's text and parsing it again changes nothing.
pub proof fn lemma_reset_persists_default()
    ensures
        spec_parse(spec_emit(CacheSettingsYaml::spec_default()))
            == CacheSettingsYaml::spec_default(),
{
    lemma_yaml_round_trip(CacheSettingsYaml::spec_default());
}

} // verus!
