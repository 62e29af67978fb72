//! Names and labels the UI shows for settings values.
use vstd::prelude::*;

use crate::text::chars_of;

verus! {

/// Whether two character slices are equal.
pub fn chars_equal(a: &[char], b: &[char]) -> (r: bool)
    ensures
        r == (a@ == b@),
{
    if a.len() != b.len() {
        return false;
    }
    let mut i: usize = 0;
    while i < a.len()
        invariant
            i <= a@.len(),
            a@.len() == b@.len(),
            forall|k: int| 0 <= k < i ==> a@[k] == b@[k],
        decreases a@.len() - i,
    {
        if a[i] != b[i] {
            return false;
        }
        i = i + 1;
    }
    assert(a@ =~= b@);
    true
}

/// The prefix shown before a note's name for an icon style.
pub open spec fn note_prefix_of(style: Seq<char>) -> Seq<char> {
    if style == seq!['e', 'm', 'o', 'j', 'i'] {
        seq!['📝', ' ']
    } else if style == seq!['a', 's', 'c', 'i', 'i'] {
        seq!['-', ' ']
    } else if style == seq!['b', 'u', 'l', 'l', 'e', 't', 's'] {
        seq!['•', ' ']
    } else if style == seq!['a', 'r', 'r', 'o', 'w', 's'] {
        seq!['→', ' ']
    } else if style == seq!['n', 'o', 'n', 'e'] {
        seq![]
    } else {
        seq!['◦', ' ']
    }
}

/// The icon prefix for notes in the sidebar.
pub fn note_prefix(style: &str) -> (r: &'static str)
    ensures
        r@ == note_prefix_of(style@),
{
    let s = chars_of(style);
    if chars_equal(s.as_slice(), &['e', 'm', 'o', 'j', 'i']) {
        proof {
            reveal_strlit("📝 ");
        }
        "📝 "
    } else if chars_equal(s.as_slice(), &['a', 's', 'c', 'i', 'i']) {
        proof {
            reveal_strlit("- ");
        }
        "- "
    } else if chars_equal(s.as_slice(), &['b', 'u', 'l', 'l', 'e', 't', 's']) {
        proof {
            reveal_strlit("• ");
        }
        "• "
    } else if chars_equal(s.as_slice(), &['a', 'r', 'r', 'o', 'w', 's']) {
        proof {
            reveal_strlit("→ ");
        }
        "→ "
    } else if chars_equal(s.as_slice(), &['n', 'o', 'n', 'e']) {
        proof {
            reveal_strlit("");
        }
        ""
    } else {
        proof {
            reveal_strlit("◦ ");
        }
        "◦ "
    }
}


/// `emoji`
pub open spec fn emoji_style() -> Seq<char> {
    seq!['e', 'm', 'o', 'j', 'i']
}

/// The prefix shown before a section's name for an icon style: a folder
/// icon for `emoji`, nothing otherwise (the collapsing triangle suffices).
pub open spec fn folder_prefix_of(style: Seq<char>) -> Seq<char> {
    if style == emoji_style() {
        seq!['📁', ' ']
    } else {
        seq![]
    }
}

/// The icon prefix for sections in the sidebar.
pub fn folder_prefix(style: &str) -> (r: &'static str)
    ensures
        r@ == folder_prefix_of(style@),
{
    let s = chars_of(style);
    if chars_equal(s.as_slice(), &['e', 'm', 'o', 'j', 'i']) {
        proof {
            reveal_strlit("📁 ");
        }
        "📁 "
    } else {
        proof {
            reveal_strlit("");
        }
        ""
    }
}

/// The label of an icon style in the settings drop-down.
pub open spec fn icon_style_label_of(style: Seq<char>) -> Seq<char> {
    if style == emoji_style() {
        "📝 Emoji"@
    } else if style == seq!['b', 'u', 'l', 'l', 'e', 't', 's'] {
        "• Bullets"@
    } else if style == seq!['a', 'r', 'r', 'o', 'w', 's'] {
        "→ Arrows"@
    } else if style == seq!['a', 's', 'c', 'i', 'i'] {
        "- ASCII"@
    } else if style == seq!['n', 'o', 'n', 'e'] {
        "No icons"@
    } else {
        "◦ Unicode symbols"@
    }
}

/// The label shown for an icon style.
pub fn icon_style_label(style: &str) -> (r: &'static str)
    ensures
        r@ == icon_style_label_of(style@),
{
    let s = chars_of(style);
    if chars_equal(s.as_slice(), &['e', 'm', 'o', 'j', 'i']) {
        "📝 Emoji"
    } else if chars_equal(s.as_slice(), &['b', 'u', 'l', 'l', 'e', 't', 's']) {
        "• Bullets"
    } else if chars_equal(s.as_slice(), &['a', 'r', 'r', 'o', 'w', 's']) {
        "→ Arrows"
    } else if chars_equal(s.as_slice(), &['a', 's', 'c', 'i', 'i']) {
        "- ASCII"
    } else if chars_equal(s.as_slice(), &['n', 'o', 'n', 'e']) {
        "No icons"
    } else {
        "◦ Unicode symbols"
    }
}

/// The label of a view mode in the settings drop-down.
pub open spec fn view_mode_label_of(mode: Seq<char>) -> Seq<char> {
    if mode == seq!['e', 'd', 'i', 't', 'o', 'r'] {
        "Editor only"@
    } else if mode == seq!['p', 'r', 'e', 'v', 'i', 'e', 'w'] {
        "Preview only"@
    } else {
        "Editor + Preview"@
    }
}

/// The label shown for a view mode.
pub fn view_mode_label(mode: &str) -> (r: &'static str)
    ensures
        r@ == view_mode_label_of(mode@),
{
    let s = chars_of(mode);
    if chars_equal(s.as_slice(), &['e', 'd', 'i', 't', 'o', 'r']) {
        "Editor only"
    } else if chars_equal(s.as_slice(), &['p', 'r', 'e', 'v', 'i', 'e', 'w']) {
        "Preview only"
    } else {
        "Editor + Preview"
    }
}

} // verus!
