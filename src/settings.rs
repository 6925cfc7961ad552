//! Settings that persist across runs.
use vstd::prelude::*;
use crate::text::str_eq;

verus! {

/// The persisted settings.
pub struct Settings {
    /// Whether applying an environment changes the terminal's title.
    pub update_title: bool,
}

/// A setting that can be changed.
#[derive(Debug, Clone, Copy, PartialEq, Eq, Structural)]
pub enum SettingsKey {
    /// Change the terminal title based on the environment chosen.
    UpdateTitle,
}

/// The text a boolean setting is stored as.
pub open spec fn bool_text(b: bool) -> Seq<char> {
    if b {
        "true"@
    } else {
        "false"@
    }
}

impl Settings {
    /// The settings from the stored value of `update-title`: on unless a
    /// value other than `true` is stored.
    pub fn from_stored(update_title: Option<&str>) -> (r: Settings)
        ensures
            r.update_title == (update_title matches Some(s) ==> s@ == "true"@),
    {
        proof {
            reveal_strlit("true");
        }
        let update_title = match update_title {
            Some(s) => str_eq(s, "true"),
            None => true,
        };
        Settings { update_title }
    }

    /// Change the setting `key` to `value`; a boolean is on only for `true`.
    pub fn set(&mut self, key: SettingsKey, value: &str)
        ensures
            key == SettingsKey::UpdateTitle ==> final(self).update_title == (value@ == "true"@),
    {
        match key {
            SettingsKey::UpdateTitle => {
                self.update_title = str_eq(value, "true");
            },
        }
    }

    /// The text `update_title` is stored as.
    pub fn update_title_text(&self) -> (r: &'static str)
        ensures
            r@ == bool_text(self.update_title),
    {
        if self.update_title {
            "true"
        } else {
            "false"
        }
    }
}

} // verus!
