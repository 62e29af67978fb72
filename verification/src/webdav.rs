//! WebDAV sync: connection settings, sync statistics, and the pure parts of
//! talking to the server (file names in URLs, reading a PROPFIND reply,
//! choosing what to download). The HTTP requests are made by the caller.
use vstd::prelude::*;

use vstd::utf8::*;

use crate::text::{
    chars_of, ends_with, ends_with_chars, find_chars, find_from, is_ascii_alnum,
    lemma_find_from, occurs_at, push_char, string_from_chars, string_from_utf8, trim, trim_range,
};

verus! {

// ── Percent-encoding ─────────────────────────────────────────────────────────

/// The upper-case hexadecimal digit for `d < 16`.
pub open spec fn hex_digit(d: nat) -> char {
    if d < 10 {
        (48 + d) as char
    } else {
        (55 + d) as char
    }
}

/// The upper-case hexadecimal digits of `n`, without leading zeros.
pub open spec fn hex_digits(n: nat) -> Seq<char>
    decreases n,
{
    if n < 16 {
        seq![hex_digit(n)]
    } else {
        hex_digits(n / 16).push(hex_digit(n % 16))
    }
}

/// The upper-case hexadecimal digits of `n`, at least two of them
/// (`{:02X}`).
pub open spec fn hex_min2(n: nat) -> Seq<char> {
    if n < 16 {
        seq!['0', hex_digit(n)]
    } else {
        hex_digits(n)
    }
}

/// Characters that stand for themselves in an encoded file name.
pub open spec fn is_unreserved(c: char) -> bool {
    is_ascii_alnum(c) || c == '-' || c == '_' || c == '.' || c == '~'
}

/// The encoding of one character: itself when unreserved, `%20` for a
/// space, otherwise `%` and the hexadecimal code point.
pub open spec fn encode_char(c: char) -> Seq<char> {
    if is_unreserved(c) {
        seq![c]
    } else if c == ' ' {
        seq!['%', '2', '0']
    } else {
        seq!['%'] + hex_min2((c as u32) as nat)
    }
}

/// The percent-encoding of `s`, character by character.
pub open spec fn percent_encoded(s: Seq<char>) -> Seq<char>
    decreases s.len(),
{
    if s.len() == 0 {
        seq![]
    } else {
        percent_encoded(s.drop_last()) + encode_char(s.last())
    }
}

fn hex_digit_char(d: u32) -> (c: char)
    requires
        d < 16,
    ensures
        c == hex_digit(d as nat),
{
    if d < 10 {
        ((48 + d) as u8) as char
    } else {
        ((55 + d) as u8) as char
    }
}

fn push_hex_digits(out: &mut Vec<char>, n: u32)
    ensures
        final(out)@ == old(out)@ + hex_digits(n as nat),
    decreases n,
{
    if n < 16 {
        out.push(hex_digit_char(n));
    } else {
        push_hex_digits(out, n / 16);
        out.push(hex_digit_char(n % 16));
    }
}

fn is_unreserved_char(c: char) -> (b: bool)
    ensures
        b == is_unreserved(c),
{
    ('0' <= c && c <= '9') || ('a' <= c && c <= 'z') || ('A' <= c && c <= 'Z') || c == '-' || c
        == '_' || c == '.' || c == '~'
}

/// Minimal percent-encode for filenames: encodes spaces and non-ASCII.
pub fn percent_encode(s: &str) -> (r: String)
    ensures
        r@ == percent_encoded(s@),
{
    let cs = chars_of(s);
    let mut out: Vec<char> = Vec::new();
    let mut i: usize = 0;
    while i < cs.len()
        invariant
            i <= cs@.len(),
            cs@ == s@,
            out@ == percent_encoded(cs@.take(i as int)),
        decreases cs@.len() - i,
    {
        let c = cs[i];
        let ghost before = out@;
        if is_unreserved_char(c) {
            out.push(c);
        } else if c == ' ' {
            out.push('%');
            out.push('2');
            out.push('0');
        } else {
            out.push('%');
            let n = c as u32;
            if n < 16 {
                out.push('0');
                out.push(hex_digit_char(n));
            } else {
                push_hex_digits(&mut out, n);
            }
        }
        assert(out@ =~= before + encode_char(c));
        assert(cs@.take(i + 1).drop_last() =~= cs@.take(i as int));
        i = i + 1;
    }
    assert(cs@.take(cs@.len() as int) =~= cs@);
    string_from_chars(out.as_slice())
}

/// Why a percent-encoded name could not be decoded.
pub enum DecodeError {
    /// A `%` is followed by fewer than two characters.
    Truncated,
    /// The two characters after a `%` are not both hexadecimal digits.
    InvalidHex,
    /// The decoded bytes are not well-formed UTF-8.
    InvalidUtf8,
}

/// The value of a hexadecimal digit, either case.
pub open spec fn hex_value(c: char) -> Option<nat> {
    if '0' <= c && c <= '9' {
        Some(((c as u32) - 48) as nat)
    } else if 'a' <= c && c <= 'f' {
        Some(((c as u32) - 87) as nat)
    } else if 'A' <= c && c <= 'F' {
        Some(((c as u32) - 55) as nat)
    } else {
        None
    }
}

/// `r` with `p` in front of its success value.
pub open spec fn bytes_prefixed(p: Seq<u8>, r: Result<Seq<u8>, DecodeError>) -> Result<
    Seq<u8>,
    DecodeError,
> {
    match r {
        Ok(x) => Ok(p + x),
        Err(e) => Err(e),
    }
}

/// The bytes that `b` spells: each `%` followed by two hexadecimal digits
/// becomes the byte they denote, every other byte stands for itself; the
/// first malformed escape, left to right, is the error.
pub open spec fn unescaped(b: Seq<u8>) -> Result<Seq<u8>, DecodeError>
    decreases b.len(),
{
    if b.len() == 0 {
        Ok(seq![])
    } else if b[0] == 37 {
        if b.len() < 3 {
            Err(DecodeError::Truncated)
        } else {
            match (hex_value(b[1] as char), hex_value(b[2] as char)) {
                (Some(h), Some(l)) => bytes_prefixed(
                    seq![(16 * h + l) as u8],
                    unescaped(b.skip(3)),
                ),
                _ => Err(DecodeError::InvalidHex),
            }
        }
    } else {
        bytes_prefixed(seq![b[0]], unescaped(b.skip(1)))
    }
}

/// The decoding of `s`: the escapes in its UTF-8 form are replaced by the
/// bytes they spell, and the bytes are read back as UTF-8.
pub open spec fn percent_decoded(s: Seq<char>) -> Result<Seq<char>, DecodeError> {
    match unescaped(encode_utf8(s)) {
        Ok(d) => if valid_utf8(d) {
            Ok(decode_utf8(d))
        } else {
            Err(DecodeError::InvalidUtf8)
        },
        Err(e) => Err(e),
    }
}

fn hex_value_of(c: char) -> (r: Option<u32>)
    ensures
        match r {
            Some(v) => hex_value(c) == Some(v as nat) && v < 16,
            None => hex_value(c) is None,
        },
{
    if '0' <= c && c <= '9' {
        Some((c as u32) - 48)
    } else if 'a' <= c && c <= 'f' {
        Some((c as u32) - 87)
    } else if 'A' <= c && c <= 'F' {
        Some((c as u32) - 55)
    } else {
        None
    }
}

proof fn lemma_bytes_prefixed_assoc(p: Seq<u8>, q: Seq<u8>, r: Result<Seq<u8>, DecodeError>)
    ensures
        bytes_prefixed(p, bytes_prefixed(q, r)) == bytes_prefixed(p + q, r),
{
    match r {
        Ok(x) => {
            assert(p + (q + x) =~= (p + q) + x);
        },
        Err(_) => {},
    }
}

/// Decode `%XX` sequences in a URL-encoded filename, reading the result as
/// UTF-8.
pub fn percent_decode(s: &str) -> (r: Result<String, DecodeError>)
    ensures
        match r {
            Ok(d) => percent_decoded(s@) == Ok::<Seq<char>, DecodeError>(d@),
            Err(e) => percent_decoded(s@) == Err::<Seq<char>, DecodeError>(e),
        },
{
    let bytes = s.as_bytes();
    let mut out: Vec<u8> = Vec::new();
    let mut i: usize = 0;
    assert(bytes@.skip(0) =~= bytes@);
    while i < bytes.len()
        invariant
            i <= bytes@.len(),
            bytes@ == encode_utf8(s@),
            unescaped(bytes@) == bytes_prefixed(out@, unescaped(bytes@.skip(i as int))),
        decreases bytes@.len() - i,
    {
        let ghost rest = bytes@.skip(i as int);
        if bytes[i] == 37 {
            if bytes.len() - i < 3 {
                return Err(DecodeError::Truncated);
            }
            let h1 = bytes[i + 1] as char;
            let h2 = bytes[i + 2] as char;
            match (hex_value_of(h1), hex_value_of(h2)) {
                (Some(h), Some(l)) => {
                    let b = (16 * h + l) as u8;
                    assert(rest.skip(3) =~= bytes@.skip(i + 3));
                    assert(rest[0] == 37 && rest[1] == bytes@[i + 1] && rest[2] == bytes@[i + 2]);
                    assert(unescaped(rest) == bytes_prefixed(seq![b], unescaped(rest.skip(3))));
                    assert(out@.push(b) =~= out@ + seq![b]);
                    proof {
                        lemma_bytes_prefixed_assoc(out@, seq![b], unescaped(rest.skip(3)));
                    }
                    out.push(b);
                    i = i + 3;
                },
                _ => {
                    assert(rest[1] == bytes@[i + 1] && rest[2] == bytes@[i + 2]);
                    return Err(DecodeError::InvalidHex);
                },
            }
        } else {
            let b = bytes[i];
            assert(rest.skip(1) =~= bytes@.skip(i + 1));
            assert(rest[0] == b);
            assert(unescaped(rest) == bytes_prefixed(seq![b], unescaped(rest.skip(1))));
            proof {
                lemma_bytes_prefixed_assoc(out@, seq![b], unescaped(rest.skip(1)));
                assert(out@.push(b) =~= out@ + seq![b]);
            }
            out.push(b);
            i = i + 1;
        }
    }
    assert(bytes@.skip(i as int) =~= Seq::<u8>::empty());
    assert(out@ + Seq::<u8>::empty() =~= out@);
    let ghost d = out@;
    match string_from_utf8(out) {
        Some(t) => Ok(t),
        None => Err(DecodeError::InvalidUtf8),
    }
}

} // verus!

verus! {

// ── PROPFIND replies ─────────────────────────────────────────────────────────

/// `<D:href>`
pub open spec fn ns_open_tag() -> Seq<char> {
    seq!['<', 'D', ':', 'h', 'r', 'e', 'f', '>']
}

/// `<href>`
pub open spec fn open_tag() -> Seq<char> {
    seq!['<', 'h', 'r', 'e', 'f', '>']
}

/// `</D:href>`
pub open spec fn ns_close_tag() -> Seq<char> {
    seq!['<', '/', 'D', ':', 'h', 'r', 'e', 'f', '>']
}

/// `</href>`
pub open spec fn close_tag() -> Seq<char> {
    seq!['<', '/', 'h', 'r', 'e', 'f', '>']
}

/// `.md`
pub open spec fn md_ext() -> Seq<char> {
    seq!['.', 'm', 'd']
}

/// Where the next href value starts, at or after `pos`: after the first
/// `<D:href>`, or failing that after the first `<href>`.
pub open spec fn next_href_start(s: Seq<char>, pos: nat) -> Option<nat> {
    match find_from(s, ns_open_tag(), pos) {
        Some(i) => Some(i + 8),
        None => match find_from(s, open_tag(), pos) {
            Some(i) => Some(i + 6),
            None => None,
        },
    }
}

/// The closing tag looked for after `from`: `</D:href>` when it occurs
/// there, `</href>` otherwise.
pub open spec fn closing_tag_after(s: Seq<char>, from: nat) -> Seq<char> {
    if find_from(s, ns_close_tag(), from) is Some {
        ns_close_tag()
    } else {
        close_tag()
    }
}

/// The characters after the last `/` of `s` (all of `s` when it has none).
pub open spec fn last_segment(s: Seq<char>) -> Seq<char>
    decreases s.len(),
{
    if s.len() == 0 {
        s
    } else if s.last() == '/' {
        seq![]
    } else {
        last_segment(s.drop_last()).push(s.last())
    }
}

/// The note file name an href names: for an href ending in `.md`, its final
/// path segment, percent-decoded; none otherwise, when decoding fails, or
/// when the decoded name holds a `/` (it would not be a bare file name).
pub open spec fn href_file_name(href: Seq<char>) -> Option<Seq<char>> {
    if ends_with(href, md_ext()) {
        match percent_decoded(last_segment(href)) {
            Ok(n) => if n.contains('/') {
                None
            } else {
                Some(n)
            },
            Err(_) => None,
        }
    } else {
        None
    }
}

/// The note file names of the href elements of `s` from `pos` on, in order
/// of appearance, repeats included.
pub open spec fn href_names(s: Seq<char>, pos: nat) -> Seq<Seq<char>>
    decreases s.len() - pos,
{
    if pos >= s.len() {
        seq![]
    } else {
        match next_href_start(s, pos) {
            None => seq![],
            Some(from) => {
                let close = closing_tag_after(s, from);
                match find_from(s, close, from) {
                    None => seq![],
                    Some(end) => {
                        proof {
                            lemma_find_from(s, ns_open_tag(), pos);
                            lemma_find_from(s, open_tag(), pos);
                            lemma_find_from(s, close, from);
                        }
                        let rest = href_names(s, end + close.len());
                        match href_file_name(trim(s.subrange(from as int, end as int))) {
                            Some(n) => seq![n] + rest,
                            None => rest,
                        }
                    },
                }
            },
        }
    }
}

fn tag(cs: &[char]) -> (v: Vec<char>)
    ensures
        v@ == cs@,
{
    let mut v: Vec<char> = Vec::new();
    let mut i: usize = 0;
    while i < cs.len()
        invariant
            i <= cs@.len(),
            v@ == cs@.take(i as int),
        decreases cs@.len() - i,
    {
        v.push(cs[i]);
        assert(cs@.take(i + 1) =~= cs@.take(i as int).push(cs@[i as int]));
        i = i + 1;
    }
    assert(cs@.take(cs@.len() as int) =~= cs@);
    v
}

/// The start of the final segment of `s[lo..hi]`: just after its last `/`.
fn last_segment_start(s: &[char], lo: usize, hi: usize) -> (j: usize)
    requires
        lo <= hi <= s@.len(),
    ensures
        lo <= j <= hi,
        s@.subrange(j as int, hi as int) == last_segment(s@.subrange(lo as int, hi as int)),
{
    let mut j = hi;
    while j > lo && s[j - 1] != '/'
        invariant
            lo <= j <= hi <= s@.len(),
            last_segment(s@.subrange(lo as int, hi as int)) == last_segment(
                s@.subrange(lo as int, j as int),
            ) + s@.subrange(j as int, hi as int),
        decreases j - lo,
    {
        let ghost t = s@.subrange(lo as int, j as int);
        assert(t.drop_last() =~= s@.subrange(lo as int, j - 1));
        assert(s@.subrange(j - 1, hi as int) =~= seq![t.last()] + s@.subrange(j as int, hi as int));
        assert(last_segment(t) == last_segment(t.drop_last()).push(t.last()));
        assert(last_segment(t.drop_last()).push(t.last()) + s@.subrange(j as int, hi as int)
            =~= last_segment(t.drop_last()) + s@.subrange(j - 1, hi as int));
        j = j - 1;
    }
    assert(last_segment(s@.subrange(lo as int, j as int)) =~= Seq::<char>::empty());
    assert(Seq::<char>::empty() + s@.subrange(j as int, hi as int) =~= s@.subrange(
        j as int,
        hi as int,
    ));
    j
}

/// Whether some string of `v` holds the characters of `s`.
pub fn contains_string(v: &Vec<String>, s: &String) -> (b: bool)
    ensures
        b == crate::text::strings_view(v@).contains(s@),
{
    let mut i: usize = 0;
    while i < v.len()
        invariant
            i <= v@.len(),
            forall|k: int| 0 <= k < i ==> v@[k]@ != s@,
        decreases v@.len() - i,
    {
        if v[i] == *s {
            assert(crate::text::strings_view(v@)[i as int] == s@);
            return true;
        }
        i = i + 1;
    }
    assert forall|k: int|
        0 <= k < crate::text::strings_view(v@).len() implies crate::text::strings_view(v@)[k]
        != s@ by {
        assert(crate::text::strings_view(v@)[k] == v@[k]@);
    }
    false
}

/// The file name an href stands for, when it names a note.
fn href_name(s: &[char], lo: usize, hi: usize) -> (r: Option<String>)
    requires
        lo <= hi <= s@.len(),
    ensures
        match r {
            Some(n) => href_file_name(trim(s@.subrange(lo as int, hi as int))) == Some(n@),
            None => href_file_name(trim(s@.subrange(lo as int, hi as int))) is None,
        },
{
    let (a, b) = trim_range(s, lo, hi);
    let href = string_from_chars(&s[a..b]);
    let hcs = chars_of(href.as_str());
    if !ends_with_chars(hcs.as_slice(), &['.', 'm', 'd']) {
        assert(seq!['.', 'm', 'd'] =~= md_ext());
        return None;
    }
    assert(seq!['.', 'm', 'd'] =~= md_ext());
    let j = last_segment_start(hcs.as_slice(), 0, hcs.len());
    assert(hcs@.subrange(0, hcs@.len() as int) =~= hcs@);
    let seg = string_from_chars(&hcs[j..hcs.len()]);
    match percent_decode(seg.as_str()) {
        Ok(n) => if contains_slash(&n) {
            None
        } else {
            Some(n)
        },
        Err(_) => None,
    }
}

/// Whether `s` holds a `/`.
fn contains_slash(s: &String) -> (b: bool)
    ensures
        b == s@.contains('/'),
{
    let cs = chars_of(s.as_str());
    let mut i: usize = 0;
    while i < cs.len()
        invariant
            i <= cs@.len(),
            cs@ == s@,
            forall|k: int| 0 <= k < i ==> cs@[k] != '/',
        decreases cs@.len() - i,
    {
        if cs[i] == '/' {
            assert(s@[i as int] == '/');
            return true;
        }
        i = i + 1;
    }
    false
}

/// Extract `.md` filenames from a PROPFIND XML response.
/// Handles both `<D:href>` and `<href>` namespace variants. Each name is
/// listed once, in order of first appearance.
pub fn parse_md_hrefs(xml: &str) -> (r: Vec<String>)
    ensures
        crate::text::strings_view(r@) == href_names(xml@, 0).remove_duplicates(seq![]),
{
    let s = chars_of(xml);
    let ns_open = tag(&['<', 'D', ':', 'h', 'r', 'e', 'f', '>']);
    let plain_open = tag(&['<', 'h', 'r', 'e', 'f', '>']);
    let ns_close = tag(&['<', '/', 'D', ':', 'h', 'r', 'e', 'f', '>']);
    let plain_close = tag(&['<', '/', 'h', 'r', 'e', 'f', '>']);
    assert(ns_open@ =~= ns_open_tag());
    assert(plain_open@ =~= open_tag());
    assert(ns_close@ =~= ns_close_tag());
    assert(plain_close@ =~= close_tag());
    let mut results: Vec<String> = Vec::new();
    let mut pos: usize = 0;
    let ghost mut raw: Seq<Seq<char>> = seq![];
    while pos < s.len()
        invariant_except_break
            pos <= s@.len(),
        invariant
            s@ == xml@,
            ns_open@ == ns_open_tag(),
            plain_open@ == open_tag(),
            ns_close@ == ns_close_tag(),
            plain_close@ == close_tag(),
            href_names(s@, 0) == raw + href_names(s@, pos as nat),
            crate::text::strings_view(results@) == raw.remove_duplicates(seq![]),
        ensures
            href_names(s@, 0) == raw,
        decreases s@.len() - pos,
    {
        proof {
            lemma_find_from(s@, ns_open_tag(), pos as nat);
            lemma_find_from(s@, open_tag(), pos as nat);
        }
        let from = match find_chars(s.as_slice(), pos, ns_open.as_slice()) {
            Some(i) => i + 8,
            None => match find_chars(s.as_slice(), pos, plain_open.as_slice()) {
                Some(i) => i + 6,
                None => {
                    assert(href_names(s@, pos as nat) =~= Seq::<Seq<char>>::empty());
                    assert(raw + Seq::<Seq<char>>::empty() =~= raw);
                    break;
                },
            },
        };
        let close = if find_chars(s.as_slice(), from, ns_close.as_slice()).is_some() {
            &ns_close
        } else {
            &plain_close
        };
        assert(close@ == closing_tag_after(s@, from as nat));
        proof {
            lemma_find_from(s@, close@, from as nat);
        }
        let end = match find_chars(s.as_slice(), from, close.as_slice()) {
            Some(e) => e,
            None => {
                assert(href_names(s@, pos as nat) =~= Seq::<Seq<char>>::empty());
                assert(raw + Seq::<Seq<char>>::empty() =~= raw);
                break;
            },
        };
        let next = end + close.len();
        let name = href_name(s.as_slice(), from, end);
        match name {
            Some(n) => {
                proof {
                    raw.lemma_remove_duplicates_append(n@, seq![]);
                    raw.lemma_remove_duplicates_properties(seq![]);
                    assert(raw + seq![n@] + href_names(s@, next as nat) =~= raw + (seq![n@]
                        + href_names(s@, next as nat)));
                    assert(raw + Seq::<Seq<char>>::empty() =~= raw);
                }
                if !contains_string(&results, &n) {
                    results.push(n);
                }
                proof {
                    raw = raw + seq![n@];
                }
            },
            None => {},
        }
        pos = next;
    }
    results
}

} // verus!

verus! {

// ── Settings, statistics and sync decisions ──────────────────────────────────

/// WebDAV connection settings, stored in config.toml under `[webdav]`.
pub struct WebDavConfig {
    /// Enable or disable syncing.
    pub enabled: bool,
    /// Full URL to the remote notes directory, e.g. `https://cloud.example.com/dav/notes/`
    pub url: String,
    pub username: String,
    pub password: String,
}

impl Default for WebDavConfig {
    fn default() -> (r: Self)
        ensures
            !r.enabled,
            r.url@ == Seq::<char>::empty(),
            r.username@ == Seq::<char>::empty(),
            r.password@ == Seq::<char>::empty(),
    {
        WebDavConfig {
            enabled: false,
            url: String::new(),
            username: String::new(),
            password: String::new(),
        }
    }
}

/// Results from a sync operation.
pub struct SyncStats {
    pub uploaded: usize,
    pub downloaded: usize,
    pub errors: Vec<String>,
}

impl Default for SyncStats {
    fn default() -> (r: Self)
        ensures
            r.uploaded == 0,
            r.downloaded == 0,
            r.errors@.len() == 0,
    {
        SyncStats { uploaded: 0, downloaded: 0, errors: Vec::new() }
    }
}

impl SyncStats {
    /// Count one note uploaded.
    pub fn record_upload(&mut self)
        requires
            old(self).uploaded < usize::MAX,
        ensures
            final(self).uploaded == old(self).uploaded + 1,
            final(self).downloaded == old(self).downloaded,
            final(self).errors == old(self).errors,
    {
        self.uploaded = self.uploaded + 1;
    }

    /// Count one note downloaded.
    pub fn record_download(&mut self)
        requires
            old(self).downloaded < usize::MAX,
        ensures
            final(self).downloaded == old(self).downloaded + 1,
            final(self).uploaded == old(self).uploaded,
            final(self).errors == old(self).errors,
    {
        self.downloaded = self.downloaded + 1;
    }

    /// Keep the message of a failed step.
    pub fn record_error(&mut self, message: String)
        ensures
            final(self).errors@ == old(self).errors@.push(message),
            final(self).uploaded == old(self).uploaded,
            final(self).downloaded == old(self).downloaded,
    {
        self.errors.push(message);
    }
}

/// The base URL of the remote directory: `url`, with a `/` appended unless
/// it already ends in one.
pub open spec fn base_url_of(url: Seq<char>) -> Seq<char> {
    if ends_with(url, seq!['/']) {
        url
    } else {
        url.push('/')
    }
}

/// The base URL the client talks to, guaranteed to end with `/`.
pub fn base_url(url: &str) -> (r: String)
    ensures
        r@ == base_url_of(url@),
{
    let cs = chars_of(url);
    let mut s = string_from_chars(cs.as_slice());
    let slash = tag(&['/']);
    assert(slash@ =~= seq!['/']);
    if !ends_with_chars(cs.as_slice(), slash.as_slice()) {
        push_char(&mut s, '/');
    }
    s
}

/// The URL of the remote copy of `filename`.
pub fn remote_file_url(base: &str, filename: &str) -> (r: String)
    ensures
        r@ == base@ + percent_encoded(filename@),
{
    let enc = percent_encode(filename);
    let mut s = string_from_chars(chars_of(base).as_slice());
    let ecs = chars_of(enc.as_str());
    let mut i: usize = 0;
    while i < ecs.len()
        invariant
            i <= ecs@.len(),
            ecs@ == percent_encoded(filename@),
            s@ == base@ + ecs@.take(i as int),
        decreases ecs@.len() - i,
    {
        push_char(&mut s, ecs[i]);
        assert(ecs@.take(i + 1) =~= ecs@.take(i as int).push(ecs@[i as int]));
        i = i + 1;
    }
    assert(ecs@.take(ecs@.len() as int) =~= ecs@);
    s
}

/// Whether a MKCOL reply means the remote directory is there: created,
/// redirected, already existing, or in conflict.
pub fn mkcol_status_ok(status: u16) -> (b: bool)
    ensures
        b == (status == 201 || status == 301 || status == 405 || status == 409),
{
    status == 201 || status == 301 || status == 405 || status == 409
}

/// Whether a file name has the extension `md`.
pub fn is_md_file_name(name: &str) -> (b: bool)
    ensures
        b == (crate::path::name_extension(name@) == Some(seq!['m', 'd'])),
{
    match crate::path::file_name_extension(name) {
        Some(e) => {
            let cs = chars_of(e.as_str());
            let r = cs.len() == 2 && cs[0] == 'm' && cs[1] == 'd';
            proof {
                if cs@.len() == 2 && cs@[0] == 'm' && cs@[1] == 'd' {
                    assert(cs@ =~= seq!['m', 'd']);
                }
            }
            r
        },
        None => false,
    }
}

/// Whether `n` is not among `local`.
pub open spec fn not_among(local: Seq<Seq<char>>) -> spec_fn(Seq<char>) -> bool {
    |n: Seq<char>| !local.contains(n)
}

/// The remote notes to download: those with no local file of the same
/// name, in the order listed. Local always wins on conflict.
pub fn names_to_download(local_names: &Vec<String>, remote_names: &Vec<String>) -> (r: Vec<String>)
    ensures
        crate::text::strings_view(r@) == crate::text::strings_view(remote_names@).filter(
            not_among(crate::text::strings_view(local_names@)),
        ),
{
    broadcast use crate::text::lemma_strings_view_push;

    let mut out: Vec<String> = Vec::new();
    let mut i: usize = 0;
    let ghost local = crate::text::strings_view(local_names@);
    while i < remote_names.len()
        invariant
            i <= remote_names@.len(),
            local == crate::text::strings_view(local_names@),
            crate::text::strings_view(out@) == crate::text::strings_view(
                remote_names@.take(i as int),
            ).filter(not_among(local)),
        decreases remote_names@.len() - i,
    {
        let ghost prev = crate::text::strings_view(remote_names@.take(i as int));
        assert(crate::text::strings_view(remote_names@.take(i + 1)) =~= prev.push(
            remote_names@[i as int]@,
        ));
        assert(crate::text::strings_view(remote_names@.take(i + 1)).drop_last() =~= prev);
        proof {
            reveal(Seq::filter);
        }
        if !contains_string(local_names, &remote_names[i]) {
            out.push(remote_names[i].clone());
        }
        i = i + 1;
    }
    assert(remote_names@.take(remote_names@.len() as int) =~= remote_names@);
    out
}

} // verus!

verus! {

// ── Laws ─────────────────────────────────────────────────────────────────────

proof fn lemma_hex_digit_value(d: nat)
    requires
        d < 16,
    ensures
        hex_value(hex_digit(d)) == Some(d),
        (hex_digit(d) as u32) < 128,
        hex_digit(d) != '%',
{
}

proof fn lemma_encoded_cons(c: char, t: Seq<char>)
    ensures
        percent_encoded(seq![c] + t) == encode_char(c) + percent_encoded(t),
    decreases t.len(),
{
    if t.len() == 0 {
        assert((seq![c] + t).drop_last() =~= Seq::<char>::empty());
        assert(percent_encoded(Seq::<char>::empty()) =~= Seq::<char>::empty());
        assert(encode_char(c) + Seq::<char>::empty() =~= encode_char(c));
        assert(Seq::<char>::empty() + encode_char(c) =~= encode_char(c));
    } else {
        lemma_encoded_cons(c, t.drop_last());
        assert((seq![c] + t).drop_last() =~= seq![c] + t.drop_last());
        assert((seq![c] + t).last() == t.last());
        assert(encode_char(c) + percent_encoded(t.drop_last()) + encode_char(t.last()) =~= encode_char(
            c,
        ) + (percent_encoded(t.drop_last()) + encode_char(t.last())));
    }
}

/// The bytes of a sequence of ASCII characters.
spec fn ascii_bytes(cs: Seq<char>) -> Seq<u8> {
    cs.map_values(|c: char| c as u8)
}

proof fn lemma_utf8_of_ascii(cs: Seq<char>)
    requires
        is_ascii_chars(cs),
    ensures
        encode_utf8(cs) == ascii_bytes(cs),
{
    is_ascii_chars_encode_utf8(cs);
    assert(encode_utf8(cs) =~= ascii_bytes(cs));
}

/// The two hex digits of an ASCII code, as `encode_char` writes them.
proof fn lemma_hex_min2_ascii(n: nat)
    requires
        n < 128,
    ensures
        hex_min2(n) == seq![hex_digit(n / 16), hex_digit(n % 16)],
{
    if n >= 16 {
        assert(hex_digits(n / 16) == seq![hex_digit(n / 16)]);
        assert(hex_digits(n) =~= seq![hex_digit(n / 16), hex_digit(n % 16)]);
    }
}

proof fn lemma_encoded_ascii(s: Seq<char>)
    requires
        is_ascii_chars(s),
    ensures
        is_ascii_chars(percent_encoded(s)),
    decreases s.len(),
{
    if s.len() > 0 {
        assert(is_ascii_chars(s.drop_last())) by {
            assert forall|i: int| 0 <= i < s.drop_last().len() implies '\0' <= #[trigger] s.drop_last()[i] <= '\u{7f}' by {
                assert(s.drop_last()[i] == s[i]);
            }
        }
        lemma_encoded_ascii(s.drop_last());
        let c = s.last();
        assert(c == s[s.len() - 1]);
        let n = (c as u32) as nat;
        if !is_unreserved(c) && c != ' ' {
            lemma_hex_min2_ascii(n);
            lemma_hex_digit_value(n / 16);
            lemma_hex_digit_value(n % 16);
        }
        assert(is_ascii_chars(encode_char(c)));
        assert(is_ascii_chars(percent_encoded(s.drop_last()) + encode_char(c)));
    }
}

proof fn lemma_unescape_encoded_char(c: char, rest: Seq<u8>)
    requires
        (c as u32) < 128,
    ensures
        unescaped(ascii_bytes(encode_char(c)) + rest) == bytes_prefixed(
            seq![c as u8],
            unescaped(rest),
        ),
{
    let e = ascii_bytes(encode_char(c)) + rest;
    if is_unreserved(c) {
        assert(e[0] == c as u8);
        assert(e.skip(1) =~= rest);
    } else if c == ' ' {
        assert(e.skip(3) =~= rest);
        assert(e[1] == 50 && e[2] == 48);
        assert(hex_value(50u8 as char) == Some(2nat));
        assert(hex_value(48u8 as char) == Some(0nat));
    } else {
        let n = (c as u32) as nat;
        let h = n / 16;
        let l = n % 16;
        lemma_hex_min2_ascii(n);
        lemma_hex_digit_value(h);
        lemma_hex_digit_value(l);
        assert(encode_char(c) =~= seq!['%', hex_digit(h), hex_digit(l)]);
        assert(e[0] == 37);
        assert(((hex_digit(h) as u8) as char) == hex_digit(h));
        assert(((hex_digit(l) as u8) as char) == hex_digit(l));
        assert(e[1] == hex_digit(h) as u8 && e[2] == hex_digit(l) as u8);
        assert(e.skip(3) =~= rest);
        assert(16 * h + l == n);
        assert(((16 * h + l) as u8) == c as u8);
    }
}

proof fn lemma_unescape_encoded(s: Seq<char>)
    requires
        is_ascii_chars(s),
    ensures
        unescaped(ascii_bytes(percent_encoded(s))) == Ok::<Seq<u8>, DecodeError>(ascii_bytes(s)),
    decreases s.len(),
{
    if s.len() == 0 {
        assert(ascii_bytes(percent_encoded(s)) =~= Seq::<u8>::empty());
        assert(ascii_bytes(s) =~= Seq::<u8>::empty());
    } else {
        let t = s.drop_first();
        assert(seq![s[0]] + t =~= s);
        assert(is_ascii_chars(t)) by {
            assert forall|i: int| 0 <= i < t.len() implies '\0' <= #[trigger] t[i] <= '\u{7f}' by {
                assert(t[i] == s[i + 1]);
            }
        }
        lemma_encoded_cons(s[0], t);
        assert(ascii_bytes(encode_char(s[0]) + percent_encoded(t)) =~= ascii_bytes(
            encode_char(s[0]),
        ) + ascii_bytes(percent_encoded(t)));
        lemma_unescape_encoded(t);
        lemma_unescape_encoded_char(s[0], ascii_bytes(percent_encoded(t)));
        assert(seq![s[0] as u8] + ascii_bytes(t) =~= ascii_bytes(s));
    }
}

/// Decoding undoes encoding for every ASCII name: it survives the trip
/// through a URL unchanged. (A character beyond ASCII is written as its
/// code point, which does not read back as UTF-8.)
pub proof fn law_decode_undoes_encode(s: Seq<char>)
    requires
        is_ascii_chars(s),
    ensures
        percent_decoded(percent_encoded(s)) == Ok::<Seq<char>, DecodeError>(s),
{
    broadcast use group_utf8_lib;

    lemma_encoded_ascii(s);
    lemma_utf8_of_ascii(percent_encoded(s));
    lemma_unescape_encoded(s);
    lemma_utf8_of_ascii(s);
}

/// The bytes of `.md`.
spec fn md_bytes() -> Seq<u8> {
    seq![46u8, 109u8, 100u8]
}

proof fn lemma_md_utf8()
    ensures
        encode_utf8(md_ext()) == md_bytes(),
{
    assert(is_ascii_chars(md_ext()));
    lemma_utf8_of_ascii(md_ext());
    assert(ascii_bytes(md_ext()) =~= md_bytes());
}

proof fn lemma_utf8_concat(x: Seq<char>, y: Seq<char>)
    ensures
        encode_utf8(x + y) == encode_utf8(x) + encode_utf8(y),
    decreases x.len(),
{
    if x.len() == 0 {
        assert(x + y =~= y);
        assert(Seq::<u8>::empty() + encode_utf8(y) =~= encode_utf8(y));
    } else {
        lemma_utf8_concat(x.drop_first(), y);
        assert((x + y).drop_first() =~= x.drop_first() + y);
        assert((x + y)[0] == x[0]);
        assert(encode_scalar(x[0] as u32) + (encode_utf8(x.drop_first()) + encode_utf8(y))
            =~= (encode_scalar(x[0] as u32) + encode_utf8(x.drop_first())) + encode_utf8(y));
    }
}

proof fn lemma_unescaped_plain(b: Seq<u8>)
    requires
        forall|i: int| 0 <= i < b.len() ==> #[trigger] b[i] != 37,
    ensures
        unescaped(b) == Ok::<Seq<u8>, DecodeError>(b),
    decreases b.len(),
{
    if b.len() > 0 {
        let t = b.skip(1);
        assert forall|i: int| 0 <= i < t.len() implies #[trigger] t[i] != 37 by {
            assert(t[i] == b[i + 1]);
        }
        lemma_unescaped_plain(t);
        assert(b[0] != 37);
        assert(seq![b[0]] + t =~= b);
    } else {
        assert(b =~= Seq::<u8>::empty());
    }
}

proof fn lemma_unescaped_keeps_md(b: Seq<u8>)
    requires
        b.len() >= 3,
        b.skip(b.len() - 3) == md_bytes(),
        unescaped(b) is Ok,
    ensures
        unescaped(b)->Ok_0.len() >= 3,
        unescaped(b)->Ok_0.skip(unescaped(b)->Ok_0.len() - 3) == md_bytes(),
    decreases b.len(),
{
    let m = b.len() - 3;
    assert(b[m] == 46 && b[m + 1] == 109 && b[m + 2] == 100) by {
        assert(b.skip(m)[0] == b[m]);
        assert(b.skip(m)[1] == b[m + 1]);
        assert(b.skip(m)[2] == b[m + 2]);
    }
    if b.len() == 3 {
        assert(b =~= md_bytes());
        lemma_unescaped_plain(b);
    } else if b[0] == 37 {
        if b.len() == 4 {
            assert(b[1] == 46);
            assert(hex_value(46u8 as char) is None);
        } else if b.len() == 5 {
            assert(b[2] == 46);
            assert(hex_value(46u8 as char) is None);
        } else {
            let rest = b.skip(3);
            assert(rest.skip(rest.len() - 3) =~= b.skip(m));
            lemma_unescaped_keeps_md(rest);
            let d = unescaped(rest)->Ok_0;
            let h = hex_value(b[1] as char)->Some_0;
            let l = hex_value(b[2] as char)->Some_0;
            let x = (16 * h + l) as u8;
            assert((seq![x] + d).skip((seq![x] + d).len() - 3) =~= d.skip(d.len() - 3));
        }
    } else {
        let rest = b.skip(1);
        assert(rest.skip(rest.len() - 3) =~= b.skip(m));
        lemma_unescaped_keeps_md(rest);
        let d = unescaped(rest)->Ok_0;
        assert((seq![b[0]] + d).skip((seq![b[0]] + d).len() - 3) =~= d.skip(d.len() - 3));
    }
}

proof fn lemma_utf8_keeps_md(d: Seq<u8>)
    requires
        valid_utf8(d),
        d.len() >= 3,
        d.skip(d.len() - 3) == md_bytes(),
    ensures
        ends_with(decode_utf8(d), md_ext()),
{
    broadcast use group_utf8_lib;

    let m = d.len() - 3;
    assert(d[m] == 46) by {
        assert(d.skip(m)[0] == d[m]);
    }
    is_char_boundary_iff_not_is_continuation_byte(d, m);
    decode_utf8_split(d, m);
    assert(d.subrange(m, d.len() as int) =~= md_bytes());
    lemma_md_utf8();
    assert(decode_utf8(md_bytes()) == md_ext());
    let p = decode_utf8(d.subrange(0, m));
    assert((p + md_ext()).skip((p + md_ext()).len() - 3) =~= md_ext());
}

proof fn lemma_decode_keeps_md(s: Seq<char>)
    requires
        ends_with(s, md_ext()),
        percent_decoded(s) is Ok,
    ensures
        ends_with(percent_decoded(s)->Ok_0, md_ext()),
{
    let m = s.len() - 3;
    assert(s =~= s.subrange(0, m) + md_ext());
    lemma_utf8_concat(s.subrange(0, m), md_ext());
    lemma_md_utf8();
    let b = encode_utf8(s);
    let p = encode_utf8(s.subrange(0, m));
    assert(b.skip(b.len() - 3) =~= md_bytes());
    lemma_unescaped_keeps_md(b);
    lemma_utf8_keeps_md(unescaped(b)->Ok_0);
}

proof fn lemma_last_segment_suffix(s: Seq<char>)
    requires
        ends_with(s, md_ext()),
    ensures
        ends_with(last_segment(s), md_ext()),
    decreases s.len(),
{
    let a = s.drop_last();
    assert(s.last() == 'd');
    if s.len() == 3 {
        assert(s =~= md_ext());
        let x = seq!['.'];
        let y = seq!['.', 'm'];
        assert(x.drop_last() =~= Seq::<char>::empty());
        assert(x.last() == '.');
        assert(last_segment(x) == last_segment(Seq::<char>::empty()).push('.'));
        assert(last_segment(x) =~= x);
        assert(y.drop_last() =~= x);
        assert(y.last() == 'm');
        assert(last_segment(y) == last_segment(x).push('m'));
        assert(last_segment(y) =~= y);
        assert(s.drop_last() =~= y);
        assert(last_segment(s) == last_segment(y).push('d'));
        assert(last_segment(s) =~= md_ext());
    } else {
        let b = a.drop_last();
        assert(a.last() == 'm');
        assert(b.last() == '.');
        assert(b.skip(b.len() - 1) =~= seq!['.']);
        lemma_last_segment_dot(b);
        let lb = last_segment(b);
        assert(last_segment(a) == lb.push('m'));
        assert(last_segment(s) == lb.push('m').push('d'));
        assert(lb.push('m').push('d').skip(lb.len() + 2 - 3) =~= md_ext());
    }
}

proof fn lemma_last_segment_dot(b: Seq<char>)
    requires
        b.len() > 0,
        b.last() == '.',
    ensures
        last_segment(b).len() > 0,
        last_segment(b).last() == '.',
{
    assert(last_segment(b) == last_segment(b.drop_last()).push('.'));
}

/// Every name read from a PROPFIND reply is a bare file name ending in
/// `.md` (it holds no `/`), and none is listed twice.
pub proof fn law_href_names_are_md_files(xml: Seq<char>)
    ensures
        href_names(xml, 0).remove_duplicates(seq![]).no_duplicates(),
        forall|n: Seq<char>|
            #[trigger] href_names(xml, 0).remove_duplicates(seq![]).contains(n) ==> ends_with(
                n,
                md_ext(),
            ) && !n.contains('/'),
{
    crate::text::lemma_remove_duplicates_no_dup(href_names(xml, 0));
    href_names(xml, 0).lemma_remove_duplicates_properties(seq![]);
    assert forall|n: Seq<char>| #[trigger]
        href_names(xml, 0).remove_duplicates(seq![]).contains(n) implies ends_with(
        n,
        md_ext(),
    ) && !n.contains('/') by {
        assert((href_names(xml, 0) + Seq::<Seq<char>>::empty()).contains(n));
        assert(href_names(xml, 0) + Seq::<Seq<char>>::empty() =~= href_names(xml, 0));
        lemma_href_names_md(xml, 0, n);
    }
}

proof fn lemma_href_name_md(href: Seq<char>)
    requires
        href_file_name(href) is Some,
    ensures
        ends_with(href_file_name(href)->Some_0, md_ext()),
        !href_file_name(href)->Some_0.contains('/'),
{
    lemma_last_segment_suffix(href);
    lemma_decode_keeps_md(last_segment(href));
}

proof fn lemma_href_names_md(s: Seq<char>, pos: nat, n: Seq<char>)
    requires
        href_names(s, pos).contains(n),
    ensures
        ends_with(n, md_ext()),
        !n.contains('/'),
    decreases s.len() - pos,
{
    if pos >= s.len() {
    } else {
        match next_href_start(s, pos) {
            None => {},
            Some(from) => {
                let close = closing_tag_after(s, from);
                match find_from(s, close, from) {
                    None => {},
                    Some(end) => {
                        lemma_find_from(s, ns_open_tag(), pos);
                        lemma_find_from(s, open_tag(), pos);
                        lemma_find_from(s, close, from);
                        let rest = href_names(s, end + close.len());
                        let href = trim(s.subrange(from as int, end as int));
                        match href_file_name(href) {
                            Some(m) => {
                                let k = choose|k: int|
                                    0 <= k < (seq![m] + rest).len() && (seq![m] + rest)[k] == n;
                                if k == 0 {
                                    lemma_href_name_md(href);
                                } else {
                                    assert(rest[k - 1] == n);
                                    lemma_href_names_md(s, end + close.len(), n);
                                }
                            },
                            None => {
                                lemma_href_names_md(s, end + close.len(), n);
                            },
                        }
                    },
                }
            },
        }
    }
}

/// The base URL always ends with `/`.
pub proof fn law_base_url_ends_with_slash(url: Seq<char>)
    ensures
        ends_with(base_url_of(url), seq!['/']),
{
    if !ends_with(url, seq!['/']) {
        assert(url.push('/').skip(url.len() as int) =~= seq!['/']);
    }
}

/// A server URL with or without its final `/` gives the same base: the URL
/// with exactly one `/` at the end. Taking the base of a base changes
/// nothing, so clients set up with either URL ask for the same file URLs.
pub proof fn law_base_url_trailing_slash(u: Seq<char>, file: Seq<char>)
    ensures
        !ends_with(u, seq!['/']) ==> base_url_of(u) == u.push('/') && base_url_of(u.push('/'))
            == base_url_of(u),
        base_url_of(base_url_of(u)) == base_url_of(u),
        !ends_with(u, seq!['/']) ==> base_url_of(u) + percent_encoded(file) == base_url_of(
            u.push('/'),
        ) + percent_encoded(file),
{
    assert(u.push('/').skip(u.len() as int) =~= seq!['/']);
    law_base_url_ends_with_slash(u);
}

/// A note that exists locally is never downloaded: local always wins.
pub proof fn law_download_skips_local(local: Seq<Seq<char>>, remote: Seq<Seq<char>>)
    ensures
        forall|n: Seq<char>|
            #[trigger] remote.filter(not_among(local)).contains(n) ==> remote.contains(n)
                && !local.contains(n),
{
    broadcast use vstd::seq_lib::group_filter_ensures;

    assert forall|n: Seq<char>| #[trigger]
        remote.filter(not_among(local)).contains(n) implies remote.contains(n) && !local.contains(
        n,
    ) by {
        let k = choose|k: int|
            0 <= k < remote.filter(not_among(local)).len() && remote.filter(not_among(local))[k]
                == n;
        remote.lemma_filter_pred(not_among(local), k);
        remote.lemma_filter_contains_rev(not_among(local), n);
    }
}

} // verus!

verus! {

/// Whether a sync can start, and if not why.
pub enum SyncStart {
    /// A sync is already running.
    AlreadyRunning,
    /// Syncing is switched off in the settings.
    Disabled,
    /// No server URL is set.
    NoUrl,
    /// Start syncing.
    Start,
}

/// Decide whether a sync starts: not while one runs, not when disabled,
/// not without a URL.
pub fn sync_start(is_syncing: bool, config: &WebDavConfig) -> (r: SyncStart)
    ensures
        r == if is_syncing {
            SyncStart::AlreadyRunning
        } else if !config.enabled {
            SyncStart::Disabled
        } else if config.url@.len() == 0 {
            SyncStart::NoUrl
        } else {
            SyncStart::Start
        },
{
    if is_syncing {
        SyncStart::AlreadyRunning
    } else if !config.enabled {
        SyncStart::Disabled
    } else if config.url.as_str().is_empty() {
        SyncStart::NoUrl
    } else {
        SyncStart::Start
    }
}

} // verus!
