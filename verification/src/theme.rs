//! Colours and themes: reading `#rrggbb` strings, the accent swatch of each
//! theme, and which bundled theme a theme key selects.
use vstd::prelude::*;

use vstd::string::StringSliceAdditionalSpecFns;

use crate::labels::chars_equal;
use crate::text::chars_of;
use crate::webdav::hex_value;

verus! {

/// An opaque RGB colour.
#[derive(Clone, Copy, PartialEq, Eq, Structural)]
pub struct Rgb {
    pub r: u8,
    pub g: u8,
    pub b: u8,
}

/// White, the colour of an unreadable colour string.
pub open spec fn white() -> Rgb {
    Rgb { r: 255, g: 255, b: 255 }
}

/// `s` without its leading `#` characters.
pub open spec fn strip_hashes(s: Seq<char>) -> Seq<char>
    decreases s.len(),
{
    if s.len() > 0 && s[0] == '#' {
        strip_hashes(s.drop_first())
    } else {
        s
    }
}

/// Whether `s` is six hexadecimal digits after any leading `#`s.
pub open spec fn valid_hex_color(s: Seq<char>) -> bool {
    let h = strip_hashes(s);
    h.len() == 6 && forall|i: int| 0 <= i < 6 ==> (#[trigger] hex_value(h[i])) is Some
}

/// The index after the leading `#`s of `cs`.
fn hashes_end(cs: &[char]) -> (k: usize)
    ensures
        k <= cs@.len(),
        cs@.skip(k as int) == strip_hashes(cs@),
{
    let mut k: usize = 0;
    assert(cs@.skip(0) =~= cs@);
    while k < cs.len() && cs[k] == '#'
        invariant
            k <= cs@.len(),
            strip_hashes(cs@) == strip_hashes(cs@.skip(k as int)),
        decreases cs@.len() - k,
    {
        assert(cs@.skip(k as int).drop_first() =~= cs@.skip(k + 1));
        k = k + 1;
    }
    k
}

fn is_hex_digit(c: char) -> (b: bool)
    ensures
        b == (hex_value(c) is Some),
{
    ('0' <= c && c <= '9') || ('a' <= c && c <= 'f') || ('A' <= c && c <= 'F')
}

/// Whether `s` is a `#rrggbb` colour (any number of leading `#`).
pub fn is_valid_hex(s: &str) -> (b: bool)
    ensures
        b == valid_hex_color(s@),
{
    let cs = chars_of(s);
    let k = hashes_end(cs.as_slice());
    let ghost h = cs@.skip(k as int);
    if cs.len() - k != 6 {
        return false;
    }
    let mut i: usize = 0;
    while i < 6
        invariant
            i <= 6,
            k + 6 == cs.len(),
            h == cs@.skip(k as int),
            h == strip_hashes(s@),
            forall|m: int| 0 <= m < i ==> (#[trigger] hex_value(h[m])) is Some,
        decreases 6 - i,
    {
        if !is_hex_digit(cs[k + i]) {
            assert(h[i as int] == cs@[k + i]);
            assert(h == strip_hashes(s@));
            assert(!(hex_value(strip_hashes(s@)[i as int]) is Some));
            return false;
        }
        i = i + 1;
    }
    true
}

/// The bytes of `b` after its leading `#` bytes.
pub open spec fn strip_hash_bytes(b: Seq<u8>) -> Seq<u8>
    decreases b.len(),
{
    if b.len() > 0 && b[0] == 35 {
        strip_hash_bytes(b.drop_first())
    } else {
        b
    }
}

/// The value of a hexadecimal digit byte.
pub open spec fn hex_byte(b: u8) -> Option<nat> {
    if 48 <= b <= 57 {
        Some((b - 48) as nat)
    } else if 97 <= b <= 102 {
        Some((b - 87) as nat)
    } else if 65 <= b <= 70 {
        Some((b - 55) as nat)
    } else {
        None
    }
}

/// The value `u8::from_str_radix(.., 16)` gives two bytes, or 0 when it
/// fails: two hexadecimal digits, or `+` and one digit.
pub open spec fn pair_value(b1: u8, b2: u8) -> nat {
    if b1 == 43 {
        match hex_byte(b2) {
            Some(v) => v,
            None => 0,
        }
    } else {
        match (hex_byte(b1), hex_byte(b2)) {
            (Some(a), Some(c)) => 16 * a + c,
            _ => 0,
        }
    }
}

/// Whether `b` continues a multi-byte UTF-8 character.
pub open spec fn is_continuation(b: u8) -> bool {
    128 <= b < 192
}

/// The colour a string's UTF-8 bytes denote: white unless there are six
/// bytes after the leading `#`s; otherwise each byte pair read in base 16,
/// 0 where it is not a number.
pub open spec fn color_of_bytes(b: Seq<u8>) -> Rgb {
    let h = strip_hash_bytes(b);
    if h.len() != 6 {
        white()
    } else {
        Rgb {
            r: pair_value(h[0], h[1]) as u8,
            g: pair_value(h[2], h[3]) as u8,
            b: pair_value(h[4], h[5]) as u8,
        }
    }
}

/// Whether reading the colour would cut a character in two: six bytes
/// whose pairs do not fall on character boundaries.
pub open spec fn splits_a_char(b: Seq<u8>) -> bool {
    let h = strip_hash_bytes(b);
    h.len() == 6 && (is_continuation(h[2]) || is_continuation(h[4]))
}

fn hex_byte_of(b: u8) -> (r: Option<u8>)
    ensures
        match r {
            Some(v) => hex_byte(b) == Some(v as nat) && v < 16,
            None => hex_byte(b) is None,
        },
{
    if 48 <= b && b <= 57 {
        Some(b - 48)
    } else if 97 <= b && b <= 102 {
        Some(b - 87)
    } else if 65 <= b && b <= 70 {
        Some(b - 55)
    } else {
        None
    }
}

fn pair_value_of(b1: u8, b2: u8) -> (v: u8)
    ensures
        v as nat == pair_value(b1, b2),
{
    if b1 == 43 {
        match hex_byte_of(b2) {
            Some(v) => v,
            None => 0,
        }
    } else {
        match (hex_byte_of(b1), hex_byte_of(b2)) {
            (Some(a), Some(c)) => 16 * a + c,
            _ => 0,
        }
    }
}

/// Parse a `#rrggbb` hex color string.
pub fn parse_color(hex: &str) -> (c: Rgb)
    requires
        !splits_a_char(hex.spec_bytes()),
    ensures
        c == color_of_bytes(hex.spec_bytes()),
{
    let bytes = hex.as_bytes();
    let mut k: usize = 0;
    assert(bytes@.skip(0) =~= bytes@);
    while k < bytes.len() && bytes[k] == 35
        invariant
            k <= bytes@.len(),
            strip_hash_bytes(bytes@) == strip_hash_bytes(bytes@.skip(k as int)),
        decreases bytes@.len() - k,
    {
        assert(bytes@.skip(k as int).drop_first() =~= bytes@.skip(k + 1));
        k = k + 1;
    }
    let ghost h = bytes@.skip(k as int);
    if bytes.len() - k != 6 {
        return Rgb { r: 255, g: 255, b: 255 };
    }
    assert(h[0] == bytes@[k as int] && h[1] == bytes@[k + 1] && h[2] == bytes@[k + 2]);
    assert(h[3] == bytes@[k + 3] && h[4] == bytes@[k + 4] && h[5] == bytes@[k + 5]);
    Rgb {
        r: pair_value_of(bytes[k], bytes[k + 1]),
        g: pair_value_of(bytes[k + 2], bytes[k + 3]),
        b: pair_value_of(bytes[k + 4], bytes[k + 5]),
    }
}

/// The bundled themes.
pub enum BundledTheme {
    Dark,
    Light,
    Nord,
    Dracula,
    SolarizedDark,
    SolarizedLight,
    GruvboxDark,
    RosePine,
    OneDark,
    /// Follow the operating system's dark or light preference.
    System,
}

/// The bundled theme a theme key selects. `solarized` and `gruvbox` are
/// short for their dark variants; unknown keys select the dark theme.
pub open spec fn bundled_theme_of(name: Seq<char>) -> BundledTheme {
    if name == "light"@ {
        BundledTheme::Light
    } else if name == "nord"@ {
        BundledTheme::Nord
    } else if name == "dracula"@ {
        BundledTheme::Dracula
    } else if name == "solarized-dark"@ || name == "solarized"@ {
        BundledTheme::SolarizedDark
    } else if name == "solarized-light"@ {
        BundledTheme::SolarizedLight
    } else if name == "gruvbox-dark"@ || name == "gruvbox"@ {
        BundledTheme::GruvboxDark
    } else if name == "rose-pine"@ {
        BundledTheme::RosePine
    } else if name == "onedark"@ {
        BundledTheme::OneDark
    } else if name == "system"@ {
        BundledTheme::System
    } else {
        BundledTheme::Dark
    }
}

/// Whether `s` holds the characters of the literal `lit`.
fn is_literal(s: &[char], lit: &str) -> (b: bool)
    ensures
        b == (s@ == lit@),
{
    let l = chars_of(lit);
    chars_equal(s, l.as_slice())
}

/// Which bundled theme a theme key falls back to when no user theme file
/// of that name is loaded.
pub fn bundled_theme_for(name: &str) -> (t: BundledTheme)
    ensures
        t == bundled_theme_of(name@),
{
    let s = chars_of(name);
    if is_literal(s.as_slice(), "light") {
        BundledTheme::Light
    } else if is_literal(s.as_slice(), "nord") {
        BundledTheme::Nord
    } else if is_literal(s.as_slice(), "dracula") {
        BundledTheme::Dracula
    } else if is_literal(s.as_slice(), "solarized-dark") || is_literal(s.as_slice(), "solarized") {
        BundledTheme::SolarizedDark
    } else if is_literal(s.as_slice(), "solarized-light") {
        BundledTheme::SolarizedLight
    } else if is_literal(s.as_slice(), "gruvbox-dark") || is_literal(s.as_slice(), "gruvbox") {
        BundledTheme::GruvboxDark
    } else if is_literal(s.as_slice(), "rose-pine") {
        BundledTheme::RosePine
    } else if is_literal(s.as_slice(), "onedark") {
        BundledTheme::OneDark
    } else if is_literal(s.as_slice(), "system") {
        BundledTheme::System
    } else {
        BundledTheme::Dark
    }
}

/// The representative accent swatch of a theme key, as used in the
/// settings UI.
pub open spec fn theme_accent_of(key: Seq<char>) -> Rgb {
    if key == "light"@ {
        Rgb { r: 0xc0, g: 0x39, b: 0x2b }
    } else if key == "nord"@ {
        Rgb { r: 0x88, g: 0xc0, b: 0xd0 }
    } else if key == "dracula"@ {
        Rgb { r: 0xff, g: 0x79, b: 0xc6 }
    } else if key == "solarized-dark"@ || key == "solarized-light"@ {
        Rgb { r: 0x26, g: 0x8b, b: 0xd2 }
    } else if key == "gruvbox-dark"@ {
        Rgb { r: 0xb8, g: 0xbb, b: 0x26 }
    } else if key == "rose-pine"@ {
        Rgb { r: 0xeb, g: 0x6f, b: 0x92 }
    } else if key == "system"@ {
        Rgb { r: 160, g: 160, b: 160 }
    } else {
        Rgb { r: 0xe9, g: 0x45, b: 0x60 }
    }
}

/// Representative accent swatch color for each theme key: `#c0392b` for
/// light, `#88c0d0` nord, `#ff79c6` dracula, `#268bd2` both solarized,
/// `#b8bb26` gruvbox-dark, `#eb6f92` rose-pine, gray for system and
/// `#e94560` otherwise.
pub fn theme_accent(key: &str) -> (c: Rgb)
    ensures
        c == theme_accent_of(key@),
{
    let s = chars_of(key);
    if is_literal(s.as_slice(), "light") {
        Rgb { r: 0xc0, g: 0x39, b: 0x2b }
    } else if is_literal(s.as_slice(), "nord") {
        Rgb { r: 0x88, g: 0xc0, b: 0xd0 }
    } else if is_literal(s.as_slice(), "dracula") {
        Rgb { r: 0xff, g: 0x79, b: 0xc6 }
    } else if is_literal(s.as_slice(), "solarized-dark") || is_literal(
        s.as_slice(),
        "solarized-light",
    ) {
        Rgb { r: 0x26, g: 0x8b, b: 0xd2 }
    } else if is_literal(s.as_slice(), "gruvbox-dark") {
        Rgb { r: 0xb8, g: 0xbb, b: 0x26 }
    } else if is_literal(s.as_slice(), "rose-pine") {
        Rgb { r: 0xeb, g: 0x6f, b: 0x92 }
    } else if is_literal(s.as_slice(), "system") {
        Rgb { r: 160, g: 160, b: 160 }
    } else {
        Rgb { r: 0xe9, g: 0x45, b: 0x60 }
    }
}

/// Theme files are dark unless they say otherwise.
pub fn default_dark() -> (b: bool)
    ensures
        b,
{
    true
}

/// The `[meta]` table of a theme file.
pub struct ThemeMeta {
    pub name: String,
    pub dark: bool,
}

/// The `[colors]` table of a theme file: `#rrggbb` strings.
pub struct ThemeColors {
    pub bg_primary: String,
    pub bg_surface: String,
    pub bg_code: String,
    pub fg_primary: String,
    pub fg_muted: String,
    pub accent: String,
    pub accent_muted: String,
    pub success: String,
    pub warning: String,
    pub error: String,
}

} // verus!

verus! {

/// The frame counter after one more frame, and whether the operating
/// system's theme is due to be checked (every 300 frames).
pub fn system_theme_tick(counter: u32) -> (r: (u32, bool))
    ensures
        r.0 == (if counter == u32::MAX {
            0
        } else {
            counter + 1
        }),
        r.1 == (r.0 % 300 == 0),
{
    let next = counter.wrapping_add(1);
    (next, next % 300 == 0)
}

} // verus!

verus! {

/// Each theme key selects its own bundled theme, and only unknown keys
/// fall back to the dark theme: the light, nord, dracula, solarized-dark
/// (or solarized), solarized-light, gruvbox-dark (or gruvbox), rose-pine,
/// onedark and system keys select exactly those themes.
pub proof fn law_theme_keys(name: Seq<char>)
    ensures
        (bundled_theme_of(name) == BundledTheme::Light) == (name == "light"@),
        (bundled_theme_of(name) == BundledTheme::Nord) == (name == "nord"@),
        (bundled_theme_of(name) == BundledTheme::Dracula) == (name == "dracula"@),
        (bundled_theme_of(name) == BundledTheme::SolarizedDark) == (name == "solarized-dark"@ || name == "solarized"@),
        (bundled_theme_of(name) == BundledTheme::SolarizedLight) == (name == "solarized-light"@),
        (bundled_theme_of(name) == BundledTheme::GruvboxDark) == (name == "gruvbox-dark"@ || name == "gruvbox"@),
        (bundled_theme_of(name) == BundledTheme::RosePine) == (name == "rose-pine"@),
        (bundled_theme_of(name) == BundledTheme::OneDark) == (name == "onedark"@),
        (bundled_theme_of(name) == BundledTheme::System) == (name == "system"@),
        (bundled_theme_of(name) == BundledTheme::Dark) == !(name == "light"@ || name == "nord"@ || name == "dracula"@ || name == "solarized-dark"@ || name == "solarized"@ || name == "solarized-light"@ || name == "gruvbox-dark"@ || name == "gruvbox"@ || name == "rose-pine"@ || name == "onedark"@ || name == "system"@),
{
    reveal_strlit("light");
    reveal_strlit("nord");
    reveal_strlit("dracula");
    reveal_strlit("solarized-dark");
    reveal_strlit("solarized");
    reveal_strlit("solarized-light");
    reveal_strlit("gruvbox-dark");
    reveal_strlit("gruvbox");
    reveal_strlit("rose-pine");
    reveal_strlit("onedark");
    reveal_strlit("system");
    assert("light"@.len() == 5 && "light"@[0] == 'l');
    assert("nord"@.len() == 4 && "nord"@[0] == 'n');
    assert("dracula"@.len() == 7 && "dracula"@[0] == 'd');
    assert("solarized-dark"@.len() == 14 && "solarized-dark"@[0] == 's');
    assert("solarized"@.len() == 9 && "solarized"@[0] == 's');
    assert("solarized-light"@.len() == 15 && "solarized-light"@[0] == 's');
    assert("gruvbox-dark"@.len() == 12 && "gruvbox-dark"@[0] == 'g');
    assert("gruvbox"@.len() == 7 && "gruvbox"@[0] == 'g');
    assert("rose-pine"@.len() == 9 && "rose-pine"@[0] == 'r');
    assert("onedark"@.len() == 7 && "onedark"@[0] == 'o');
    assert("system"@.len() == 6 && "system"@[0] == 's');
}

} // verus!
