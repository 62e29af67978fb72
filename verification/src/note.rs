//! Notes: raw markdown with an optional YAML frontmatter block. The YAML
//! itself is read by the caller; this module finds the block, keeps the
//! note's state and names it.
use vstd::prelude::*;

use crate::path::{name_stem, path_file_name, VaultPath};
use crate::text::{
    chars_of, find_chars, find_from, is_white_space, lemma_find_from_skip, starts_with, string_of_range,
    trim_start, trim_start_from,
};

verus! {

/// Frontmatter parsed from YAML between `---` delimiters.
pub struct Frontmatter {
    pub title: Option<String>,
    pub tags: Option<Vec<String>>,
    /// The other keys of the block, each with its value written as YAML.
    pub extra: Vec<(String, String)>,
}

impl Default for Frontmatter {
    fn default() -> (r: Self)
        ensures
            r.title is None,
            r.tags is None,
            r.extra@.len() == 0,
    {
        Frontmatter { title: None, tags: None, extra: Vec::new() }
    }
}

/// `---`
pub open spec fn fence() -> Seq<char> {
    seq!['-', '-', '-']
}

/// A line break followed by `---`.
pub open spec fn closing_fence() -> Seq<char> {
    seq!['\n', '-', '-', '-']
}

/// The YAML text and the body of `raw`, when it opens (after leading white
/// space) with `---` and a later line starts with `---`; the body is what
/// follows that closing `---`, without leading white space.
pub open spec fn frontmatter_split(raw: Seq<char>) -> Option<(Seq<char>, Seq<char>)> {
    let t = trim_start(raw);
    if !starts_with(t, fence()) {
        None
    } else {
        let after = t.skip(3);
        match find_from(after, closing_fence(), 0) {
            Some(end) => Some((after.take(end as int), trim_start(after.skip((end + 4) as int)))),
            None => None,
        }
    }
}

/// The markdown body of `raw`: what follows the frontmatter, or all of
/// `raw` when it has none.
pub open spec fn body_of(raw: Seq<char>) -> Seq<char> {
    match frontmatter_split(raw) {
        Some((_, body)) => body,
        None => raw,
    }
}

/// Split raw markdown into the frontmatter's YAML text and the body; none
/// when there is no frontmatter block (the body is then `raw` itself).
pub fn split_frontmatter(raw: &str) -> (r: Option<(String, String)>)
    ensures
        match r {
            Some((yaml, body)) => frontmatter_split(raw@) == Some((yaml@, body@)),
            None => frontmatter_split(raw@) is None,
        },
{
    let cs = chars_of(raw);
    assert(cs@.skip(0) =~= cs@);
    let a = trim_start_from(cs.as_slice(), 0);
    let t = Ghost(cs@.skip(a as int));
    if cs.len() - a < 3 || cs[a] != '-' || cs[a + 1] != '-' || cs[a + 2] != '-' {
        proof {
            if t@.len() >= 3 {
                assert(t@.take(3) =~= seq![t@[0], t@[1], t@[2]]);
            }
        }
        return None;
    }
    assert(t@.take(3) =~= fence());
    let body_from = a + 3;
    assert(t@.skip(3) =~= cs@.skip(body_from as int));
    proof {
        lemma_find_from_skip(cs@, closing_fence(), body_from as nat, 0);
    }
    let closing = ['\n', '-', '-', '-'];
    assert(closing@ =~= closing_fence());
    match find_chars(cs.as_slice(), body_from, &closing) {
        None => None,
        Some(e) => {
            let end = e - body_from;
            proof {
                crate::text::lemma_find_from(cs@, closing_fence(), body_from as nat);
            }
            let yaml = string_of_range(cs.as_slice(), body_from, e);
            assert(cs@.subrange(body_from as int, e as int) =~= cs@.skip(body_from as int).take(
                end as int,
            ));
            let b = trim_start_from(cs.as_slice(), e + 4);
            assert(cs@.skip(body_from as int).skip(end + 4) =~= cs@.skip(e + 4));
            let body = string_of_range(cs.as_slice(), b, cs.len());
            assert(cs@.subrange(b as int, cs@.len() as int) =~= cs@.skip(b as int));
            Some((yaml, body))
        },
    }
}

/// An in-memory representation of a single markdown note.
pub struct Note {
    /// Absolute path to the `.md` file on disk.
    pub path: VaultPath,
    /// Raw markdown content (including frontmatter if present).
    pub raw: String,
    /// Parsed frontmatter (empty if none).
    pub frontmatter: Frontmatter,
    /// Markdown body (frontmatter stripped).
    pub body: String,
    /// Whether there are unsaved local edits.
    pub dirty: bool,
}

/// The body text of `raw`.
pub fn note_body(raw: &str) -> (b: String)
    ensures
        b@ == body_of(raw@),
{
    match split_frontmatter(raw) {
        Some((_, body)) => body,
        None => crate::text::string_from_chars(chars_of(raw).as_slice()),
    }
}

/// The name a note is shown under: its title, else the stem of its file
/// name, else `Untitled`.
pub open spec fn display_name_of(title: Option<Seq<char>>, path: Seq<Seq<char>>) -> Seq<char> {
    match title {
        Some(t) => t,
        None => match path_file_name(path) {
            Some(n) => name_stem(n),
            None => seq!['U', 'n', 't', 'i', 't', 'l', 'e', 'd'],
        },
    }
}

impl Note {
    /// A note just read from `path`, with `raw` as its content and
    /// `frontmatter` as read from its YAML block.
    pub fn loaded(path: VaultPath, raw: String, frontmatter: Frontmatter) -> (n: Note)
        ensures
            n.path == path,
            n.raw == raw,
            n.frontmatter == frontmatter,
            n.body@ == body_of(raw@),
            !n.dirty,
    {
        let body = note_body(raw.as_str());
        Note { path, raw, frontmatter, body, dirty: false }
    }

    /// Record that the note's content was written to disk.
    pub fn mark_saved(&mut self)
        ensures
            !final(self).dirty,
            final(self).path == old(self).path,
            final(self).raw == old(self).raw,
            final(self).body == old(self).body,
            final(self).frontmatter == old(self).frontmatter,
    {
        self.dirty = false;
    }

    /// Update the raw content from editor, with `frontmatter` as read from
    /// the new content's YAML block, and re-derive the body.
    pub fn update_raw(&mut self, new_raw: String, frontmatter: Frontmatter)
        ensures
            final(self).raw == new_raw,
            final(self).frontmatter == frontmatter,
            final(self).body@ == body_of(new_raw@),
            final(self).dirty,
            final(self).path == old(self).path,
    {
        self.body = note_body(new_raw.as_str());
        self.raw = new_raw;
        self.frontmatter = frontmatter;
        self.dirty = true;
    }

    /// Display name: frontmatter title, or stem of filename.
    pub fn display_name(&self) -> (r: String)
        ensures
            r@ == display_name_of(
                match self.frontmatter.title {
                    Some(t) => Some(t@),
                    None => None,
                },
                self.path@,
            ),
    {
        match &self.frontmatter.title {
            Some(t) => t.clone(),
            None => match self.path.file_stem() {
                Some(s) => s,
                None => {
                    let u = ['U', 'n', 't', 'i', 't', 'l', 'e', 'd'];
                    let r = crate::text::string_from_chars(&u);
                    assert(u@ =~= seq!['U', 'n', 't', 'i', 't', 'l', 'e', 'd']);
                    r
                },
            },
        }
    }
}

/// Saving a note and loading the saved text back gives the note back: when
/// a note's body agrees with its text (as `Note::loaded` and
/// `Note::update_raw` leave it), the note loaded from the same path and
/// text, with the front matter read from the same YAML block, has the same
/// path, text, YAML block, body and front matter, and nothing unsaved.
pub proof fn law_save_then_load(saved: Note, reloaded: Note)
    requires
        saved.body@ == body_of(saved.raw@),
        reloaded.path == saved.path,
        reloaded.raw == saved.raw,
        reloaded.frontmatter == saved.frontmatter,
        reloaded.body@ == body_of(reloaded.raw@),
        !reloaded.dirty,
    ensures
        reloaded.path@ == saved.path@,
        reloaded.raw@ == saved.raw@,
        frontmatter_split(reloaded.raw@) == frontmatter_split(saved.raw@),
        reloaded.body@ == saved.body@,
        reloaded.frontmatter == saved.frontmatter,
        !reloaded.dirty,
{
}

/// Whether every character of `s` is white space.
pub open spec fn all_white(s: Seq<char>) -> bool {
    forall|i: int| 0 <= i < s.len() ==> is_white_space(#[trigger] s[i])
}

/// `trim_start(s)` drops white space only.
proof fn lemma_trim_start_parts(s: Seq<char>) -> (lead: Seq<char>)
    ensures
        all_white(lead),
        s == lead + trim_start(s),
    decreases s.len(),
{
    if s.len() > 0 && is_white_space(s[0]) {
        let rest = lemma_trim_start_parts(s.drop_first());
        let lead = seq![s[0]] + rest;
        assert forall|i: int| 0 <= i < lead.len() implies is_white_space(#[trigger] lead[i]) by {
            if i > 0 {
                assert(lead[i] == rest[i - 1]);
            }
        }
        assert(trim_start(s) == trim_start(s.drop_first()));
        assert(s =~= seq![s[0]] + s.drop_first());
        assert(s =~= lead + trim_start(s));
        lead
    } else {
        assert(s =~= Seq::<char>::empty() + trim_start(s));
        Seq::<char>::empty()
    }
}

/// Splitting off the front matter loses nothing but white space: the text
/// is white space, `---`, the YAML block, a line break and `---`, more white
/// space, and the body, in that order.
pub proof fn law_frontmatter_split_parts(raw: Seq<char>) -> (ws: (Seq<char>, Seq<char>))
    requires
        frontmatter_split(raw) is Some,
    ensures
        all_white(ws.0),
        all_white(ws.1),
        raw == ws.0 + fence() + frontmatter_split(raw)->Some_0.0 + closing_fence() + ws.1
            + frontmatter_split(raw)->Some_0.1,
{
    let t = trim_start(raw);
    let lead = lemma_trim_start_parts(raw);
    let after = t.skip(3);
    crate::text::lemma_find_from(after, closing_fence(), 0);
    let end = find_from(after, closing_fence(), 0)->Some_0;
    let tail = after.skip((end + 4) as int);
    let mid = lemma_trim_start_parts(tail);
    let yaml = after.take(end as int);
    let body = trim_start(tail);
    assert(t.take(3) =~= fence());
    assert(t =~= fence() + after);
    assert(after.subrange(end as int, (end + 4) as int) == closing_fence());
    assert(after =~= yaml + closing_fence() + tail);
    assert(raw =~= lead + fence() + yaml + closing_fence() + mid + body);
    (lead, mid)
}

/// The front matter ends at the first closing fence: the YAML block never
/// holds a line break followed by `---`, so a `---` rule in the body stays
/// in the body.
pub proof fn law_frontmatter_ends_at_first_fence(raw: Seq<char>)
    requires
        frontmatter_split(raw) is Some,
    ensures
        forall|i: int|
            !crate::text::occurs_at(frontmatter_split(raw)->Some_0.0, closing_fence(), i),
{
    let after = trim_start(raw).skip(3);
    crate::text::lemma_find_from(after, closing_fence(), 0);
    let end = find_from(after, closing_fence(), 0)->Some_0;
    let yaml = after.take(end as int);
    assert(frontmatter_split(raw)->Some_0.0 == yaml);
    assert forall|i: int| !crate::text::occurs_at(yaml, closing_fence(), i) by {
        if crate::text::occurs_at(yaml, closing_fence(), i) {
            assert(yaml.subrange(i, i + 4) =~= after.subrange(i, i + 4));
            assert(crate::text::occurs_at(after, closing_fence(), i));
        }
    }
}

} // verus!
