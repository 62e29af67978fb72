//! The open note's editor: when an edited title becomes a rename, and
//! when an edit is saved automatically.
use vstd::prelude::*;

use crate::text::{trim, trimmed};

verus! {

/// Whether the edited title differs from the file stem and is not blank,
/// so that committing it renames the note.
pub open spec fn rename_pending_of(title: Seq<char>, stem: Seq<char>) -> bool {
    trim(title) != stem && trim(title).len() != 0
}

/// Whether the title shows a pending rename.
pub fn rename_pending(title: &str, stem: &str) -> (b: bool)
    ensures
        b == rename_pending_of(title@, stem@),
{
    let t = trimmed(title);
    let s = crate::text::string_from_chars(crate::text::chars_of(stem).as_slice());
    t != s && !t.as_str().is_empty()
}

/// The rename the title bar requests this frame: on Enter, or on losing
/// focus without Escape, the trimmed title when a rename is pending.
/// Escape requests nothing.
pub fn rename_request(
    title: &str,
    stem: &str,
    enter_pressed: bool,
    lost_focus: bool,
    escape_pressed: bool,
) -> (r: Option<String>)
    ensures
        match r {
            Some(n) => !escape_pressed && (enter_pressed || lost_focus) && rename_pending_of(
                title@,
                stem@,
            ) && n@ == trim(title@),
            None => escape_pressed || !(enter_pressed || lost_focus) || !rename_pending_of(
                title@,
                stem@,
            ),
        },
{
    let commit = enter_pressed || (lost_focus && !escape_pressed);
    if escape_pressed {
        None
    } else if commit && rename_pending(title, stem) {
        Some(trimmed(title))
    } else {
        None
    }
}

/// How long the editor waits after the last edit before saving, in
/// milliseconds.
pub const AUTOSAVE_DELAY_MS: u64 = 1000;

/// What autosave does on a frame.
pub enum AutosaveStep {
    /// Nothing: autosave is off, or no edit is waiting.
    Idle,
    /// Wait this many more milliseconds before looking again.
    Wait { remaining_ms: u64 },
    /// The delay is over but nothing is unsaved: forget the pending edit.
    Settle,
    /// The delay is over: forget the pending edit and save the note.
    Save,
}

/// Decide autosave for one frame, from whether autosave is on, whether an
/// edit is waiting, how long ago it was made, and whether the open note has
/// unsaved changes.
pub fn autosave_step(enabled: bool, pending_edit: bool, elapsed_ms: u64, dirty: bool) -> (r:
    AutosaveStep)
    ensures
        r == if !enabled || !pending_edit {
            AutosaveStep::Idle
        } else if elapsed_ms >= AUTOSAVE_DELAY_MS {
            if dirty {
                AutosaveStep::Save
            } else {
                AutosaveStep::Settle
            }
        } else {
            (AutosaveStep::Wait { remaining_ms: (AUTOSAVE_DELAY_MS - elapsed_ms) as u64 })
        },
{
    if !enabled || !pending_edit {
        AutosaveStep::Idle
    } else if elapsed_ms >= AUTOSAVE_DELAY_MS {
        if dirty {
            AutosaveStep::Save
        } else {
            AutosaveStep::Settle
        }
    } else {
        AutosaveStep::Wait { remaining_ms: AUTOSAVE_DELAY_MS - elapsed_ms }
    }
}

} // verus!
