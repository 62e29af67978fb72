//! Defaults of the settings file.
use vstd::prelude::*;

verus! {

/// The sidebar icon style used when the settings file names none.
pub fn default_icon_style() -> (s: String)
    ensures
        s@ == "emoji"@,
{
    String::from_str("emoji")
}

/// The view mode used when the settings file names none.
pub fn default_view_mode() -> (s: String)
    ensures
        s@ == "both"@,
{
    String::from_str("both")
}

/// Autosave is on unless the settings file turns it off.
pub fn default_autosave() -> (b: bool)
    ensures
        b,
{
    true
}

} // verus!
