//! How the sidebar lays out the vault: the search filter, the notes at the
//! vault root, and one section per folder with the notes inside it.
use vstd::prelude::*;

use crate::path::{
    lemma_path_views_push, name_stem, path_file_name, path_parent, path_strip_prefix, path_views, sort_paths,
    sorted_paths, VaultPath,
};
use crate::text::{chars_of, find_chars, find_from, str_to_lowercase, unicode_lowercase};
use crate::vault::{contains_path, Vault};

verus! {

broadcast use lemma_path_views_push;

/// Whether the lower-cased stem of `p`'s file name contains `query`.
pub open spec fn search_matches(p: Seq<Seq<char>>, query: Seq<char>) -> bool {
    match path_file_name(p) {
        Some(n) => find_from(unicode_lowercase(name_stem(n)), query, 0) is Some,
        None => false,
    }
}

/// The folder a note is listed under: the parent of its path relative to
/// the root, unless that is empty (a note at the root).
pub open spec fn note_folder_of(root: Seq<Seq<char>>, p: Seq<Seq<char>>) -> Option<Seq<Seq<char>>> {
    let rel = match path_strip_prefix(p, root) {
        Some(t) => t,
        None => p,
    };
    match path_parent(rel) {
        None => None,
        Some(par) => if par.len() == 0 {
            None
        } else {
            Some(par)
        },
    }
}

/// The notes kept by the search: all of them when `query` is empty.
pub open spec fn kept_by_search(query: Seq<char>) -> spec_fn(Seq<Seq<char>>) -> bool {
    |p: Seq<Seq<char>>| query.len() == 0 || search_matches(p, query)
}

/// Whether a note sits at the vault root.
pub open spec fn at_root(root: Seq<Seq<char>>) -> spec_fn(Seq<Seq<char>>) -> bool {
    |p: Seq<Seq<char>>| note_folder_of(root, p) is None
}

/// Whether a note is listed under `folder`.
pub open spec fn in_folder(root: Seq<Seq<char>>, folder: Seq<Seq<char>>) -> spec_fn(
    Seq<Seq<char>>,
) -> bool {
    |p: Seq<Seq<char>>| note_folder_of(root, p) == Some(folder)
}

/// The folder of each note, for the notes not at the root.
pub open spec fn folder_of_note(root: Seq<Seq<char>>) -> spec_fn(Seq<Seq<char>>) -> Option<
    Seq<Seq<char>>,
> {
    |p: Seq<Seq<char>>| note_folder_of(root, p)
}

/// The notes the sidebar lists, in vault order.
pub open spec fn listed_notes(entries: Seq<Seq<Seq<char>>>, query: Seq<char>) -> Seq<
    Seq<Seq<char>>,
> {
    entries.filter(kept_by_search(query))
}

/// The sections the sidebar shows: none while searching; otherwise every
/// tracked folder and every folder holding a listed note, once each, in path
/// order.
pub open spec fn section_folders(
    root: Seq<Seq<char>>,
    entries: Seq<Seq<Seq<char>>>,
    folders: Seq<Seq<Seq<char>>>,
    query: Seq<char>,
) -> Seq<Seq<Seq<char>>> {
    if query.len() > 0 {
        seq![]
    } else {
        sorted_paths(
            (folders + listed_notes(entries, query).filter_map(folder_of_note(root))).remove_duplicates(
                seq![],
            ),
        )
    }
}

/// The notes shown at the top level: all listed notes while searching,
/// otherwise those at the vault root.
pub open spec fn root_notes_of(
    root: Seq<Seq<char>>,
    entries: Seq<Seq<Seq<char>>>,
    query: Seq<char>,
) -> Seq<Seq<Seq<char>>> {
    if query.len() > 0 {
        listed_notes(entries, query)
    } else {
        listed_notes(entries, query).filter(at_root(root))
    }
}

/// The sidebar's content: notes at the top level and one section per
/// folder with its notes.
pub struct SidebarLayout {
    pub root_notes: Vec<VaultPath>,
    pub sections: Vec<(VaultPath, Vec<VaultPath>)>,
}

/// Whether `p` matches the lower-cased `query` (given as characters).
fn matches_query(p: &VaultPath, query: &Vec<char>) -> (b: bool)
    ensures
        b == search_matches(p@, query@),
{
    match p.file_stem() {
        Some(stem) => {
            let lower = str_to_lowercase(stem.as_str());
            let lc = chars_of(lower.as_str());
            find_chars(lc.as_slice(), 0, query.as_slice()).is_some()
        },
        None => false,
    }
}

/// The folder `p` is listed under in `vault`.
fn folder_of(vault: &Vault, p: &VaultPath) -> (r: Option<VaultPath>)
    ensures
        match r {
            Some(f) => note_folder_of(vault.root@, p@) == Some(f@),
            None => note_folder_of(vault.root@, p@) is None,
        },
{
    let rel = vault.relative(p);
    match rel.parent() {
        None => None,
        Some(par) => if par.components.len() == 0 {
            None
        } else {
            Some(par)
        },
    }
}

} // verus!

verus! {

/// Copies of all paths of `v`.
fn copy_paths(v: &Vec<VaultPath>) -> (r: Vec<VaultPath>)
    ensures
        path_views(r@) == path_views(v@),
{
    let mut out: Vec<VaultPath> = Vec::new();
    let mut i: usize = 0;
    while i < v.len()
        invariant
            i <= v@.len(),
            path_views(out@) == path_views(v@.take(i as int)),
        decreases v@.len() - i,
    {
        out.push(v[i].duplicate());
        assert(path_views(out@) =~= path_views(v@.take(i + 1)));
        i = i + 1;
    }
    assert(v@.take(v@.len() as int) =~= v@);
    out
}

/// The notes of `listed` that are listed under `folder`.
fn notes_in(vault: &Vault, listed: &Vec<VaultPath>, folder: &VaultPath) -> (r: Vec<VaultPath>)
    ensures
        path_views(r@) == path_views(listed@).filter(in_folder(vault.root@, folder@)),
{
    let mut out: Vec<VaultPath> = Vec::new();
    let mut i: usize = 0;
    while i < listed.len()
        invariant
            i <= listed@.len(),
            path_views(out@) == path_views(listed@.take(i as int)).filter(
                in_folder(vault.root@, folder@),
            ),
        decreases listed@.len() - i,
    {
        let ghost prev = path_views(listed@.take(i as int));
        assert(path_views(listed@.take(i + 1)) =~= prev.push(listed@[i as int]@));
        assert(path_views(listed@.take(i + 1)).drop_last() =~= prev);
        proof {
            reveal(Seq::filter);
        }
        let keep = match folder_of(vault, &listed[i]) {
            Some(f) => f.same_as(folder),
            None => false,
        };
        if keep {
            let ghost before = out@;
            out.push(listed[i].duplicate());
            assert(path_views(out@) =~= path_views(before).push(listed@[i as int]@));
        }
        i = i + 1;
    }
    assert(listed@.take(listed@.len() as int) =~= listed@);
    out
}

/// Lay out the vault's notes for the sidebar, given the search box text.
pub fn sidebar_layout(vault: &Vault, search_query: &str) -> (r: SidebarLayout)
    ensures
        ({
            let q = unicode_lowercase(search_query@);
            let root = vault.root@;
            let entries = path_views(vault.entries@);
            let keys = section_folders(root, entries, path_views(vault.folders@), q);
            &&& path_views(r.root_notes@) == root_notes_of(root, entries, q)
            &&& r.sections@.len() == keys.len()
            &&& forall|i: int|
                0 <= i < keys.len() ==> {
                    &&& (#[trigger] r.sections@[i]).0@ == keys[i]
                    &&& path_views(r.sections@[i].1@) == listed_notes(entries, q).filter(
                        in_folder(root, keys[i]),
                    )
                }
        }),
{
    let lower = str_to_lowercase(search_query);
    let q = chars_of(lower.as_str());
    let ghost root = vault.root@;
    let ghost entries = path_views(vault.entries@);
    // ── The notes kept by the search ─────────────────────────────────────
    let mut listed: Vec<VaultPath> = Vec::new();
    let mut i: usize = 0;
    while i < vault.entries.len()
        invariant
            i <= vault.entries@.len(),
            entries == path_views(vault.entries@),
            path_views(listed@) == path_views(vault.entries@.take(i as int)).filter(
                kept_by_search(q@),
            ),
        decreases vault.entries@.len() - i,
    {
        let ghost prev = path_views(vault.entries@.take(i as int));
        assert(path_views(vault.entries@.take(i + 1)) =~= prev.push(vault.entries@[i as int]@));
        assert(path_views(vault.entries@.take(i + 1)).drop_last() =~= prev);
        proof {
            reveal(Seq::filter);
        }
        if q.len() == 0 || matches_query(&vault.entries[i], &q) {
            let ghost before = listed@;
            listed.push(vault.entries[i].duplicate());
            assert(path_views(listed@) =~= path_views(before).push(vault.entries@[i as int]@));
        }
        i = i + 1;
    }
    assert(vault.entries@.take(vault.entries@.len() as int) =~= vault.entries@);
    let ghost lv = path_views(listed@);
    assert(lv == listed_notes(entries, q@));
    if q.len() > 0 {
        return SidebarLayout { root_notes: listed, sections: Vec::new() };
    }
    // ── Root notes and the folders of the other notes ────────────────────
    let mut roots: Vec<VaultPath> = Vec::new();
    let mut note_folders: Vec<VaultPath> = Vec::new();
    let mut j: usize = 0;
    while j < listed.len()
        invariant
            j <= listed@.len(),
            lv == path_views(listed@),
            path_views(roots@) == path_views(listed@.take(j as int)).filter(at_root(root)),
            path_views(note_folders@) == path_views(listed@.take(j as int)).filter_map(
                folder_of_note(root),
            ),
            root == vault.root@,
        decreases listed@.len() - j,
    {
        let ghost prev = path_views(listed@.take(j as int));
        assert(path_views(listed@.take(j + 1)) =~= prev.push(listed@[j as int]@));
        assert(path_views(listed@.take(j + 1)).drop_last() =~= prev);
        proof {
            reveal(Seq::filter);
        }
        match folder_of(vault, &listed[j]) {
            None => {
                let ghost before = roots@;
                roots.push(listed[j].duplicate());
                assert(path_views(roots@) =~= path_views(before).push(listed@[j as int]@));
            },
            Some(f) => {
                let ghost before = note_folders@;
                let ghost fv = f@;
                note_folders.push(f);
                assert(path_views(note_folders@) =~= path_views(before) + seq![fv]);
            },
        }
        j = j + 1;
    }
    assert(listed@.take(listed@.len() as int) =~= listed@);
    // ── Every folder once, in path order ─────────────────────────────────
    let mut cands = copy_paths(&vault.folders);
    let mut k: usize = 0;
    let ghost fv = path_views(vault.folders@);
    while k < note_folders.len()
        invariant
            k <= note_folders@.len(),
            path_views(cands@) == fv + path_views(note_folders@.take(k as int)),
        decreases note_folders@.len() - k,
    {
        cands.push(note_folders[k].duplicate());
        assert(path_views(cands@) =~= fv + path_views(note_folders@.take(k + 1)));
        k = k + 1;
    }
    assert(note_folders@.take(note_folders@.len() as int) =~= note_folders@);
    let ghost cv = path_views(cands@);
    let mut uniq: Vec<VaultPath> = Vec::new();
    let mut m: usize = 0;
    assert(cv.take(0) =~= Seq::<Seq<Seq<char>>>::empty());
    while m < cands.len()
        invariant
            m <= cands@.len(),
            cv == path_views(cands@),
            path_views(uniq@) == cv.take(m as int).remove_duplicates(seq![]),
        decreases cands@.len() - m,
    {
        proof {
            cv.take(m as int).lemma_remove_duplicates_append(cv[m as int], seq![]);
            cv.take(m as int).lemma_remove_duplicates_properties(seq![]);
            assert(cv.take(m + 1) =~= cv.take(m as int) + seq![cv[m as int]]);
            assert(cv.take(m as int) + Seq::<Seq<Seq<char>>>::empty() =~= cv.take(m as int));
        }
        if !contains_path(&uniq, &cands[m]) {
            let ghost before = uniq@;
            uniq.push(cands[m].duplicate());
            assert(path_views(uniq@) =~= path_views(before) + seq![cv[m as int]]);
        }
        m = m + 1;
    }
    assert(cv.take(cv.len() as int) =~= cv);
    let keys = sort_paths(&uniq);
    // ── The notes of each section ────────────────────────────────────────
    let mut sections: Vec<(VaultPath, Vec<VaultPath>)> = Vec::new();
    let mut s: usize = 0;
    let ghost kv = path_views(keys@);
    assert(kv == section_folders(root, entries, fv, q@));
    while s < keys.len()
        invariant
            s <= keys@.len(),
            kv == path_views(keys@),
            lv == path_views(listed@),
            root == vault.root@,
            sections@.len() == s,
            forall|t: int|
                0 <= t < s ==> {
                    &&& (#[trigger] sections@[t]).0@ == kv[t]
                    &&& path_views(sections@[t].1@) == lv.filter(in_folder(root, kv[t]))
                },
        decreases keys@.len() - s,
    {
        let notes = notes_in(vault, &listed, &keys[s]);
        sections.push((keys[s].duplicate(), notes));
        s = s + 1;
    }
    SidebarLayout { root_notes: roots, sections }
}

} // verus!

verus! {

proof fn lemma_filter_map_has<A, B>(s: Seq<A>, f: spec_fn(A) -> Option<B>, k: int, b: B)
    requires
        0 <= k < s.len(),
        f(s[k]) == Some(b),
    ensures
        s.filter_map(f).contains(b),
    decreases s.len(),
{
    if k == s.len() - 1 {
        let r = s.drop_last().filter_map(f);
        assert((r + seq![b])[r.len() as int] == b);
    } else {
        lemma_filter_map_has(s.drop_last(), f, k, b);
        let r = s.drop_last().filter_map(f);
        let i = choose|i: int| 0 <= i < r.len() && r[i] == b;
        match f(s.last()) {
            Some(x) => {
                assert((r + seq![x])[i] == b);
            },
            None => {},
        }
    }
}

/// Without a search, the sidebar shows every listed note: a note at the
/// root among the root notes, any other note's folder among the sections;
/// and no folder has two sections.
pub proof fn law_sidebar_shows_every_note(
    root: Seq<Seq<char>>,
    entries: Seq<Seq<Seq<char>>>,
    folders: Seq<Seq<Seq<char>>>,
)
    ensures
        section_folders(root, entries, folders, seq![]).no_duplicates(),
        forall|p: Seq<Seq<char>>|
            #[trigger] listed_notes(entries, seq![]).contains(p) ==> match note_folder_of(root, p) {
                None => root_notes_of(root, entries, seq![]).contains(p),
                Some(f) => section_folders(root, entries, folders, seq![]).contains(f),
            },
{
    broadcast use vstd::seq_lib::group_filter_ensures, vstd::seq_lib::group_to_multiset_ensures;

    let listed = listed_notes(entries, seq![]);
    let nf = listed.filter_map(folder_of_note(root));
    let cands = folders + nf;
    let u = cands.remove_duplicates(seq![]);
    let keys = section_folders(root, entries, folders, seq![]);
    crate::vault::lemma_sorted_paths_sorted(u);
    crate::text::lemma_remove_duplicates_no_dup(cands);
    u.lemma_multiset_has_no_duplicates();
    keys.lemma_multiset_has_no_duplicates_conv();
    cands.lemma_remove_duplicates_properties(seq![]);
    assert forall|p: Seq<Seq<char>>| #[trigger] listed.contains(p) implies match note_folder_of(
        root,
        p,
    ) {
        None => root_notes_of(root, entries, seq![]).contains(p),
        Some(f) => keys.contains(f),
    } by {
        let k = choose|k: int| 0 <= k < listed.len() && listed[k] == p;
        match note_folder_of(root, p) {
            None => {
                listed.lemma_filter_contains(at_root(root), k);
            },
            Some(f) => {
                lemma_filter_map_has(listed, folder_of_note(root), k, f);
                let j = choose|j: int| 0 <= j < nf.len() && nf[j] == f;
                assert(cands[folders.len() + j] == f);
                assert((cands + Seq::<Seq<Seq<char>>>::empty()).contains(f)) by {
                    assert((cands + Seq::<Seq<Seq<char>>>::empty())[folders.len() + j] == f);
                }
                assert(u.contains(f));
                assert(u.to_multiset().count(f) > 0);
                assert(keys.to_multiset().count(f) > 0);
            },
        }
    }
}

} // verus!

verus! {

/// The sidebar's state: the search box, and the inputs for new notes,
/// new sections and renaming a section.
pub struct Sidebar {
    pub search_query: String,
    /// Shared text buffer for all new-note name inputs.
    pub new_note_name: String,
    /// Whether the new-note input is visible.
    pub show_new_note_input: bool,
    /// `None` = create at vault root, `Some(rel_path)` = create inside that folder.
    pub new_note_folder: Option<VaultPath>,
    /// Whether the new-section (folder) input is visible.
    pub show_new_folder_input: bool,
    pub new_folder_name: String,
    /// Which folder (relative path) is currently being renamed, if any.
    pub renaming_folder: Option<VaultPath>,
    pub rename_folder_buf: String,
}

/// What the user asked the sidebar for.
pub enum SidebarAction {
    OpenNote(VaultPath),
    /// Create a note at the vault root.
    CreateNote(String),
    /// Create a note inside `folder` (relative to vault root).
    CreateNoteIn(VaultPath, String),
    /// Create a new section (sub-directory) at the vault root.
    CreateFolder(String),
    DeleteNote(VaultPath),
    /// Move a note to a folder (relative to vault root), or `None` = vault root.
    MoveNote(VaultPath, Option<VaultPath>),
    /// Rename a section (folder). `old_rel` is relative to vault root.
    RenameFolder(VaultPath, String),
    /// Delete a section and all notes inside it.
    DeleteFolder(VaultPath),
}

impl Default for Sidebar {
    fn default() -> (s: Self)
        ensures
            s.search_query@ == Seq::<char>::empty(),
            s.new_note_name@ == Seq::<char>::empty(),
            !s.show_new_note_input,
            s.new_note_folder is None,
            !s.show_new_folder_input,
            s.new_folder_name@ == Seq::<char>::empty(),
            s.renaming_folder is None,
            s.rename_folder_buf@ == Seq::<char>::empty(),
    {
        Sidebar {
            search_query: String::new(),
            new_note_name: String::new(),
            show_new_note_input: false,
            new_note_folder: None,
            show_new_folder_input: false,
            new_folder_name: String::new(),
            renaming_folder: None,
            rename_folder_buf: String::new(),
        }
    }
}

impl Sidebar {
    /// The "new section" button: show or hide its input, hiding the note input.
    pub fn toggle_new_folder_input(&mut self)
        ensures
            final(self).show_new_folder_input == !old(self).show_new_folder_input,
            !final(self).show_new_note_input,
            final(self).new_note_folder == old(self).new_note_folder,
            final(self).new_folder_name == old(self).new_folder_name,
            final(self).new_note_name == old(self).new_note_name,
    {
        self.show_new_folder_input = !self.show_new_folder_input;
        self.show_new_note_input = false;
    }

    /// The "new note" button: show or hide the root note input, emptied.
    pub fn toggle_new_note_input(&mut self)
        ensures
            final(self).show_new_note_input == !old(self).show_new_note_input,
            final(self).new_note_folder is None,
            !final(self).show_new_folder_input,
            final(self).new_note_name@ == Seq::<char>::empty(),
    {
        self.show_new_note_input = !self.show_new_note_input;
        self.new_note_folder = None;
        self.show_new_folder_input = false;
        self.new_note_name = String::new();
    }

    /// Enter in the section input: create the section named by the trimmed
    /// input, unless it is empty.
    pub fn commit_new_folder(&mut self) -> (a: Option<SidebarAction>)
        ensures
            ({
                let name = crate::text::trim(old(self).new_folder_name@);
                if name.len() == 0 {
                    &&& a is None
                    &&& final(self).new_folder_name == old(self).new_folder_name
                    &&& final(self).show_new_folder_input == old(self).show_new_folder_input
                } else {
                    &&& a matches Some(SidebarAction::CreateFolder(n)) && n@ == name
                    &&& final(self).new_folder_name@ == Seq::<char>::empty()
                    &&& !final(self).show_new_folder_input
                }
            }),
    {
        let name = crate::text::trimmed(self.new_folder_name.as_str());
        if name.as_str().is_empty() {
            return None;
        }
        self.new_folder_name = String::new();
        self.show_new_folder_input = false;
        Some(SidebarAction::CreateFolder(name))
    }

    /// Escape in the section input: hide and empty it.
    pub fn cancel_new_folder(&mut self)
        ensures
            !final(self).show_new_folder_input,
            final(self).new_folder_name@ == Seq::<char>::empty(),
    {
        self.show_new_folder_input = false;
        self.new_folder_name = String::new();
    }

    /// Enter in a new-note input: create the note named by the trimmed input,
    /// at the root or in the targeted folder, unless the name is empty.
    pub fn commit_new_note(&mut self) -> (a: Option<SidebarAction>)
        ensures
            ({
                let name = crate::text::trim(old(self).new_note_name@);
                if name.len() == 0 {
                    &&& a is None
                    &&& final(self).new_note_name == old(self).new_note_name
                    &&& final(self).show_new_note_input == old(self).show_new_note_input
                    &&& final(self).new_note_folder == old(self).new_note_folder
                } else {
                    &&& match old(self).new_note_folder {
                        None => a matches Some(SidebarAction::CreateNote(n)) && n@ == name,
                        Some(f) => a matches Some(SidebarAction::CreateNoteIn(g, n)) && n@
                            == name && g == f,
                    }
                    &&& final(self).new_note_name@ == Seq::<char>::empty()
                    &&& !final(self).show_new_note_input
                    &&& final(self).new_note_folder is None
                }
            }),
    {
        let name = crate::text::trimmed(self.new_note_name.as_str());
        if name.as_str().is_empty() {
            return None;
        }
        self.new_note_name = String::new();
        self.show_new_note_input = false;
        match self.new_note_folder.take() {
            None => Some(SidebarAction::CreateNote(name)),
            Some(f) => Some(SidebarAction::CreateNoteIn(f, name)),
        }
    }

    /// Escape in a new-note input: hide and empty it.
    pub fn cancel_new_note(&mut self)
        ensures
            !final(self).show_new_note_input,
            final(self).new_note_folder is None,
            final(self).new_note_name@ == Seq::<char>::empty(),
    {
        self.show_new_note_input = false;
        self.new_note_folder = None;
        self.new_note_name = String::new();
    }

    /// The "+ New note" button of a section: show the note input for `folder`.
    pub fn start_new_note_in(&mut self, folder: VaultPath)
        ensures
            final(self).show_new_note_input,
            final(self).new_note_folder == Some(folder),
            final(self).new_note_name@ == Seq::<char>::empty(),
            !final(self).show_new_folder_input,
    {
        self.show_new_note_input = true;
        self.new_note_folder = Some(folder);
        self.new_note_name = String::new();
        self.show_new_folder_input = false;
    }

    /// "Rename" in a section's menu: edit `current_name` for `folder`.
    pub fn start_rename_folder(&mut self, folder: VaultPath, current_name: String)
        ensures
            final(self).renaming_folder == Some(folder),
            final(self).rename_folder_buf == current_name,
    {
        self.renaming_folder = Some(folder);
        self.rename_folder_buf = current_name;
    }

    /// Enter in the rename input: rename the section to the trimmed input
    /// unless it is empty; either way the input closes.
    pub fn commit_rename_folder(&mut self) -> (a: Option<SidebarAction>)
        ensures
            ({
                let name = crate::text::trim(old(self).rename_folder_buf@);
                match old(self).renaming_folder {
                    Some(f) => if name.len() == 0 {
                        a is None
                    } else {
                        a matches Some(SidebarAction::RenameFolder(g, n)) && g == f && n@ == name
                    },
                    None => a is None,
                }
            }),
            final(self).renaming_folder is None,
            final(self).rename_folder_buf@ == Seq::<char>::empty(),
    {
        let name = crate::text::trimmed(self.rename_folder_buf.as_str());
        let target = self.renaming_folder.take();
        self.rename_folder_buf = String::new();
        match target {
            Some(f) => if name.as_str().is_empty() {
                None
            } else {
                Some(SidebarAction::RenameFolder(f, name))
            },
            None => None,
        }
    }

    /// Escape in the rename input: close it.
    pub fn cancel_rename_folder(&mut self)
        ensures
            final(self).renaming_folder is None,
            final(self).rename_folder_buf@ == Seq::<char>::empty(),
    {
        self.renaming_folder = None;
        self.rename_folder_buf = String::new();
    }

    /// Whether `folder` is being renamed.
    pub fn is_renaming(&self, folder: &VaultPath) -> (b: bool)
        ensures
            b == (self.renaming_folder matches Some(f) && f@ == folder@),
    {
        match &self.renaming_folder {
            Some(f) => f.same_as(folder),
            None => false,
        }
    }

    /// Whether the new-note input targets `folder` (the root for `None`).
    pub fn new_note_targets(&self, folder: Option<&VaultPath>) -> (b: bool)
        ensures
            b == match (self.new_note_folder, folder) {
                (None, None) => true,
                (Some(f), Some(g)) => f@ == g@,
                _ => false,
            },
    {
        match (&self.new_note_folder, folder) {
            (None, None) => true,
            (Some(f), Some(g)) => f.same_as(g),
            _ => false,
        }
    }
}

/// A search finds a note exactly when the query occurs anywhere in its
/// lower-cased file stem: while searching, the top level lists, in vault
/// order, precisely the notes whose lower-cased stem holds the query.
pub proof fn law_search_finds_substrings(
    root: Seq<Seq<char>>,
    entries: Seq<Seq<Seq<char>>>,
    query: Seq<char>,
)
    requires
        query.len() > 0,
    ensures
        forall|p: Seq<Seq<char>>| #[trigger]
            root_notes_of(root, entries, query).contains(p) <==> entries.contains(p) && match path_file_name(
                p,
            ) {
                Some(n) => exists|i: int|
                    crate::text::occurs_at(unicode_lowercase(name_stem(n)), query, i),
                None => false,
            },
{
    broadcast use vstd::seq_lib::group_filter_ensures;

    assert forall|p: Seq<Seq<char>>| #[trigger]
        root_notes_of(root, entries, query).contains(p) <==> entries.contains(p) && match path_file_name(
            p,
        ) {
            Some(n) => exists|i: int|
                crate::text::occurs_at(unicode_lowercase(name_stem(n)), query, i),
            None => false,
        } by {
        let l = entries.filter(kept_by_search(query));
        assert(root_notes_of(root, entries, query) == l);
        if let Some(n) = path_file_name(p) {
            let s = unicode_lowercase(name_stem(n));
            crate::text::lemma_find_from(s, query, 0);
            if find_from(s, query, 0) is Some {
                let j = find_from(s, query, 0)->Some_0;
                assert(crate::text::occurs_at(s, query, j as int));
            }
            if exists|i: int| crate::text::occurs_at(s, query, i) {
                let i = choose|i: int| crate::text::occurs_at(s, query, i);
                assert(0 <= i);
            }
        }
        if l.contains(p) {
            entries.lemma_filter_contains_rev(kept_by_search(query), p);
        }
        if entries.contains(p) && kept_by_search(query)(p) {
            let k = choose|k: int| 0 <= k < entries.len() && entries[k] == p;
            entries.lemma_filter_contains(kept_by_search(query), k);
        }
    }
}

} // verus!
