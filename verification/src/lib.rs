//! Shared logic for a desktop web-app manager: the persisted window-settings
//! cache with its on-disk text format, desktop-entry categories, locale
//! selection, and small string helpers.

pub mod cache_settings;
pub mod category;
pub mod locale;
pub mod settings_yaml;
pub mod strings;
