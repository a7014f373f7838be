//! User settings: colour preset and zoom.

use vstd::prelude::*;
use vstd::string::StringExecFns;

verus! {

/// Smallest zoom, in percent.
pub const ZOOM_MIN: u32 = 50;

/// Largest zoom, in percent.
pub const ZOOM_MAX: u32 = 300;

/// The colour preset and zoom the user chose.
pub struct Settings {
    pub theme: String,
    pub zoom: u32,
}

/// The default colour preset.
pub open spec fn default_theme() -> Seq<char> {
    "light"@
}

impl Default for Settings {
    /// The light preset at 100 %.
    fn default() -> (s: Settings)
        ensures
            s.theme@ == default_theme(),
            s.zoom == 100,
    {
        Settings { theme: String::from_str("light"), zoom: 100 }
    }
}

/// `zoom` held to the range `ZOOM_MIN ..= ZOOM_MAX`.
pub open spec fn clamped(zoom: u32) -> u32 {
    if zoom < ZOOM_MIN {
        ZOOM_MIN
    } else if zoom > ZOOM_MAX {
        ZOOM_MAX
    } else {
        zoom
    }
}

/// Holds a zoom to the range `ZOOM_MIN ..= ZOOM_MAX`.
pub fn clamp_zoom(zoom: u32) -> (z: u32)
    ensures
        z == clamped(zoom),
        ZOOM_MIN <= z <= ZOOM_MAX,
{
    if zoom < ZOOM_MIN {
        ZOOM_MIN
    } else if zoom > ZOOM_MAX {
        ZOOM_MAX
    } else {
        zoom
    }
}

/// The settings in force after reading the settings file: what was read (`None` when
/// the file is missing or unreadable), else the defaults; the zoom held to its range.
pub fn settings_from(read: Option<Settings>) -> (s: Settings)
    ensures
        read matches Some(r) ==> s.theme == r.theme && s.zoom == clamped(r.zoom),
        read is None ==> s.theme@ == default_theme() && s.zoom == 100,
        ZOOM_MIN <= s.zoom <= ZOOM_MAX,
{
    let mut s = match read {
        Some(r) => r,
        None => Settings::default(),
    };
    s.zoom = clamp_zoom(s.zoom);
    s
}

/// Clamping keeps a zoom that is already in range and never leaves the range; doing it
/// twice is the same as once.
pub proof fn lemma_clamp(zoom: u32)
    ensures
        ZOOM_MIN <= clamped(zoom) <= ZOOM_MAX,
        ZOOM_MIN <= zoom <= ZOOM_MAX ==> clamped(zoom) == zoom,
        clamped(clamped(zoom)) == clamped(zoom),
{
}

} // verus!
