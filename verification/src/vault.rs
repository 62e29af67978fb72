//! The vault: a directory of markdown notes, kept as sorted lists of note
//! paths and of section (sub-directory) names. The file-system work is done
//! by the caller; these functions decide names and keep the lists.
use vstd::prelude::*;
use vstd::relations::sorted_by;

use crate::path::{
    lemma_path_order_total, path_file_name, path_is_absolute, path_join, path_leq, path_order, path_parent,
    path_strip_prefix, path_views, sort_paths, sorted_paths, VaultPath,
};
use crate::text::{
    char_is_alphanumeric, chars_of, is_alphanumeric_char, lemma_strings_view_push, push_char,
    string_from_chars, strings_view,
};

verus! {

broadcast use lemma_strings_view_push;

/// The character that stands for `c` in a sanitized file name.
pub open spec fn sanitize_char(c: char) -> char {
    if is_alphanumeric_char(c) || c == '-' || c == '_' {
        c
    } else {
        '-'
    }
}

/// `name` with every character that is not alphanumeric, `-` or `_`
/// replaced by `-`.
pub open spec fn sanitized(name: Seq<char>) -> Seq<char> {
    name.map_values(|c: char| sanitize_char(c))
}

/// Turns a user-given name into a safe file or directory name.
pub fn sanitize_filename(name: &str) -> (r: String)
    ensures
        r@ == sanitized(name@),
{
    let cs = chars_of(name);
    let mut out = String::new();
    let mut i: usize = 0;
    while i < cs.len()
        invariant
            i <= cs@.len(),
            cs@ == name@,
            out@ == sanitized(cs@.take(i as int)),
        decreases cs@.len() - i,
    {
        let c = cs[i];
        let keep = char_is_alphanumeric(c) || c == '-' || c == '_';
        if keep {
            push_char(&mut out, c);
        } else {
            push_char(&mut out, '-');
        }
        assert(sanitized(cs@.take(i + 1)) =~= sanitized(cs@.take(i as int)).push(sanitize_char(c)));
        i = i + 1;
    }
    assert(cs@.take(cs@.len() as int) =~= cs@);
    out
}

/// The suffix `.md`.
pub open spec fn md_suffix() -> Seq<char> {
    seq!['.', 'm', 'd']
}

/// The file name under which a note called `name` is stored.
pub open spec fn note_file_name_of(name: Seq<char>) -> Seq<char> {
    sanitized(name) + md_suffix()
}

/// The content a new note called `name` starts with: a level-one heading.
pub open spec fn initial_content_of(name: Seq<char>) -> Seq<char> {
    seq!['#', ' '] + name + seq!['\n', '\n']
}

/// Appends the characters of `add` to `s`.
fn push_all(s: &mut String, add: &[char])
    ensures
        final(s)@ == old(s)@ + add@,
{
    let mut i: usize = 0;
    while i < add.len()
        invariant
            i <= add@.len(),
            s@ == old(s)@ + add@.take(i as int),
        decreases add@.len() - i,
    {
        push_char(s, add[i]);
        assert(add@.take(i + 1) =~= add@.take(i as int).push(add@[i as int]));
        i = i + 1;
    }
    assert(add@.take(add@.len() as int) =~= add@);
}

/// The file name under which a note called `name` is stored: the sanitized
/// name followed by `.md`.
pub fn note_file_name(name: &str) -> (r: String)
    ensures
        r@ == note_file_name_of(name@),
{
    let mut s = sanitize_filename(name);
    push_all(&mut s, &['.', 'm', 'd']);
    assert(seq!['.', 'm', 'd'] =~= md_suffix());
    s
}

/// The content a new note called `name` starts with: `# name` and a blank
/// line.
pub fn initial_note_content(name: &str) -> (r: String)
    ensures
        r@ == initial_content_of(name@),
{
    let mut s = String::new();
    push_char(&mut s, '#');
    push_char(&mut s, ' ');
    let cs = chars_of(name);
    push_all(&mut s, cs.as_slice());
    push_char(&mut s, '\n');
    push_char(&mut s, '\n');
    assert(s@ =~= initial_content_of(name@));
    s
}

/// A path of one component.
pub fn single_component(name: String) -> (p: VaultPath)
    ensures
        p@ == seq![name@],
{
    let mut cs: Vec<String> = Vec::new();
    cs.push(name);
    assert(strings_view(cs@) =~= seq![cs@[0]@]);
    VaultPath { components: cs }
}

/// Whether some path of `v` has the components of `p`.
pub fn contains_path(v: &Vec<VaultPath>, p: &VaultPath) -> (b: bool)
    ensures
        b == path_views(v@).contains(p@),
{
    let mut i: usize = 0;
    while i < v.len()
        invariant
            i <= v@.len(),
            forall|k: int| 0 <= k < i ==> v@[k]@ != p@,
        decreases v@.len() - i,
    {
        if v[i].same_as(p) {
            assert(path_views(v@)[i as int] == p@);
            return true;
        }
        i = i + 1;
    }
    assert forall|k: int| 0 <= k < path_views(v@).len() implies path_views(v@)[k] != p@ by {
        assert(path_views(v@)[k] == v@[k]@);
    }
    false
}

/// Whether `p` is not `q`.
pub open spec fn differs_from(q: Seq<Seq<char>>) -> spec_fn(Seq<Seq<char>>) -> bool {
    |e: Seq<Seq<char>>| e != q
}

/// The paths of `v` other than `p`, in their order; sorted when `v` is.
pub fn without_path(v: &Vec<VaultPath>, p: &VaultPath) -> (r: Vec<VaultPath>)
    ensures
        path_views(r@) == path_views(v@).filter(differs_from(p@)),
        sorted_by(path_views(v@), path_order()) ==> sorted_by(path_views(r@), path_order()),
{
    let mut out: Vec<VaultPath> = Vec::new();
    let mut i: usize = 0;
    proof {
        lemma_path_order_total();
        reveal(Seq::filter);
    }
    while i < v.len()
        invariant
            i <= v@.len(),
            vstd::relations::total_ordering(path_order()),
            path_views(out@) == path_views(v@.take(i as int)).filter(differs_from(p@)),
            sorted_by(path_views(v@), path_order()) ==> {
                &&& sorted_by(path_views(out@), path_order())
                &&& forall|k: int, j: int|
                    0 <= k < out@.len() && i <= j < v@.len() ==> path_leq(
                        #[trigger] out@[k]@,
                        #[trigger] v@[j]@,
                    )
            },
        decreases v@.len() - i,
    {
        let ghost prev = path_views(v@.take(i as int));
        assert(path_views(v@.take(i + 1)) =~= prev.push(v@[i as int]@));
        assert(path_views(v@.take(i + 1)).drop_last() =~= prev);
        if !v[i].same_as(p) {
            let ghost before = out@;
            out.push(v[i].duplicate());
            proof {
                reveal(Seq::filter);
                assert(path_views(out@) =~= path_views(before).push(v@[i as int]@));
                if sorted_by(path_views(v@), path_order()) {
                    assert forall|a: int, b: int|
                        0 <= a < b < path_views(out@).len() implies #[trigger] path_order()(
                        path_views(out@)[a],
                        path_views(out@)[b],
                    ) by {
                        if b < before.len() {
                            assert(path_order()(path_views(before)[a], path_views(before)[b]));
                        } else {
                            assert(path_leq(before[a]@, v@[i as int]@));
                        }
                    }
                    assert forall|k: int, j: int|
                        0 <= k < out@.len() && i + 1 <= j < v@.len() implies path_leq(
                        #[trigger] out@[k]@,
                        #[trigger] v@[j]@,
                    ) by {
                        if k < before.len() {
                            assert(path_leq(before[k]@, v@[j]@));
                        } else {
                            assert(path_order()(path_views(v@)[i as int], path_views(v@)[j]));
                        }
                    }
                }
            }
        } else {
            proof {
                reveal(Seq::filter);
            }
        }
        i = i + 1;
    }
    assert(v@.take(v@.len() as int) =~= v@);
    out
}

/// Errors in opening a vault.
pub enum VaultError {
    /// The vault path is not a directory.
    NotADirectory,
    /// A note path has no file name.
    NoFileName,
}

/// A vault is a directory containing markdown notes.
pub struct Vault {
    pub root: VaultPath,
    /// All discovered `.md` file paths, under `root` as the scan built them,
    /// sorted and each listed once.
    pub entries: Vec<VaultPath>,
    /// Relative names of direct sub-directories of root, sorted.
    /// Tracked separately so empty sections still appear in the UI.
    pub folders: Vec<VaultPath>,
}

/// `p` with the leading components `old` replaced by `new`; other paths
/// unchanged.
pub open spec fn reroot(p: Seq<Seq<char>>, old: Seq<Seq<char>>, new: Seq<Seq<char>>) -> Seq<
    Seq<char>,
> {
    match path_strip_prefix(p, old) {
        Some(tail) => path_join(new, tail),
        None => p,
    }
}

/// `list` with `p` added in path order, unless it is already listed.
pub open spec fn with_path(list: Seq<Seq<Seq<char>>>, p: Seq<Seq<char>>) -> Seq<Seq<Seq<char>>> {
    if list.contains(p) {
        list
    } else {
        sorted_paths(list.push(p))
    }
}

/// The component `folder` keeps in the section list: its first component,
/// or the whole (empty) path when it has none.
pub open spec fn tracked_folder(folder: Seq<Seq<char>>) -> Seq<Seq<char>> {
    if folder.len() > 0 {
        seq![folder[0]]
    } else {
        folder
    }
}

/// `path` relative to `root`: without the root's leading components, or
/// the whole path when it does not lie under the root.
pub open spec fn relative_to(root: Seq<Seq<char>>, path: Seq<Seq<char>>) -> Seq<Seq<char>> {
    match path_strip_prefix(path, root) {
        Some(t) => t,
        None => path,
    }
}

/// Each path of `v` taken from the directory `dir`: a relative path is
/// joined onto `dir`, an absolute one stays.
pub open spec fn joined_all(dir: Seq<Seq<char>>, v: Seq<Seq<Seq<char>>>) -> Seq<Seq<Seq<char>>> {
    v.map_values(|f: Seq<Seq<char>>| path_join(dir, f))
}

/// Whether every path of `v` is absolute.
pub open spec fn all_absolute(v: Seq<Seq<Seq<char>>>) -> bool {
    forall|i: int| 0 <= i < v.len() ==> path_is_absolute(#[trigger] v[i])
}

/// Each path of `v` taken from the directory `dir`.
fn join_all(dir: &VaultPath, v: &Vec<VaultPath>) -> (r: Vec<VaultPath>)
    ensures
        path_views(r@) == joined_all(dir@, path_views(v@)),
{
    let mut out: Vec<VaultPath> = Vec::new();
    let mut i: usize = 0;
    while i < v.len()
        invariant
            i <= v@.len(),
            path_views(out@) == joined_all(dir@, path_views(v@.take(i as int))),
        decreases v@.len() - i,
    {
        let ghost before = out@;
        out.push(dir.join(&v[i]));
        assert(path_views(out@) =~= path_views(before).push(path_join(dir@, v@[i as int]@)));
        assert(joined_all(dir@, path_views(v@.take(i + 1))) =~= joined_all(
            dir@,
            path_views(v@.take(i as int)),
        ).push(path_join(dir@, v@[i as int]@)));
        i = i + 1;
    }
    assert(v@.take(v@.len() as int) =~= v@);
    out
}

/// Sorting keeps paths absolute.
proof fn lemma_sorted_absolute(v: Seq<Seq<Seq<char>>>)
    requires
        all_absolute(v),
    ensures
        all_absolute(sorted_paths(v)),
{
    broadcast use vstd::seq_lib::to_multiset_contains;

    lemma_sorted_paths_sorted(v);
    let s = sorted_paths(v);
    assert forall|i: int| 0 <= i < s.len() implies path_is_absolute(#[trigger] s[i]) by {
        assert(s.contains(s[i]));
        assert(s.to_multiset().count(s[i]) > 0);
        assert(v.contains(s[i]));
    }
}

/// Paths taken from an absolute directory are absolute.
proof fn lemma_joined_absolute(dir: Seq<Seq<char>>, v: Seq<Seq<Seq<char>>>)
    requires
        path_is_absolute(dir),
    ensures
        all_absolute(joined_all(dir, v)),
{
    assert forall|i: int| 0 <= i < joined_all(dir, v).len() implies path_is_absolute(
        #[trigger] joined_all(dir, v)[i],
    ) by {
        assert(joined_all(dir, v)[i] == path_join(dir, v[i]));
        if !(v[i].len() > 0 && v[i][0] == crate::path::root_component()) {
            assert((dir + v[i])[0] == dir[0]);
        }
    }
}

impl Vault {
    /// The lists are in path order.
    pub open spec fn wf(&self) -> bool {
        &&& sorted_by(path_views(self.entries@), path_order())
        &&& sorted_by(path_views(self.folders@), path_order())
    }

    /// The note paths, as views.
    pub open spec fn entry_views(&self) -> Seq<Seq<Seq<char>>> {
        path_views(self.entries@)
    }

    /// The section paths, as views.
    pub open spec fn folder_views(&self) -> Seq<Seq<Seq<char>>> {
        path_views(self.folders@)
    }

    /// Open a vault at `root`, given the current directory, whether `root`
    /// is a directory, the markdown files found under it and its direct
    /// sub-directories. A relative `root`, and each relative file path (as a
    /// scan from a relative root yields them), is taken from the current
    /// directory, so the root and every note path are absolute.
    pub fn open(
        root: VaultPath,
        current_dir: &VaultPath,
        root_is_dir: bool,
        md_files: Vec<VaultPath>,
        subdirs: Vec<VaultPath>,
    ) -> (r: Result<Vault, VaultError>)
        requires
            path_is_absolute(current_dir@),
        ensures
            root_is_dir <==> r is Ok,
            r matches Ok(v) ==> {
                &&& v.wf()
                &&& v.root@ == path_join(current_dir@, root@)
                &&& v.entry_views() == sorted_paths(
                    joined_all(current_dir@, path_views(md_files@)),
                )
                &&& v.folder_views() == sorted_paths(path_views(subdirs@))
                &&& path_is_absolute(v.root@)
                &&& all_absolute(v.entry_views())
            },
            r matches Err(e) ==> e is NotADirectory,
    {
        if !root_is_dir {
            return Err(VaultError::NotADirectory);
        }
        let abs_root = current_dir.join(&root);
        let files = join_all(current_dir, &md_files);
        proof {
            lemma_joined_absolute(current_dir@, path_views(md_files@));
            lemma_joined_absolute(current_dir@, seq![root@]);
            assert(joined_all(current_dir@, seq![root@])[0] == abs_root@);
        }
        let mut vault = Vault { root: abs_root, entries: Vec::new(), folders: Vec::new() };
        vault.refresh(files, subdirs);
        Ok(vault)
    }

    /// Replace both lists with freshly scanned ones, sorted.
    pub fn refresh(&mut self, md_files: Vec<VaultPath>, subdirs: Vec<VaultPath>)
        ensures
            final(self).wf(),
            final(self).root == old(self).root,
            final(self).entry_views() == sorted_paths(path_views(md_files@)),
            final(self).folder_views() == sorted_paths(path_views(subdirs@)),
            all_absolute(path_views(md_files@)) ==> all_absolute(final(self).entry_views()),
    {
        self.entries = sort_paths(&md_files);
        self.folders = sort_paths(&subdirs);
        proof {
            lemma_sorted_paths_sorted(path_views(md_files@));
            lemma_sorted_paths_sorted(path_views(subdirs@));
            if all_absolute(path_views(md_files@)) {
                lemma_sorted_absolute(path_views(md_files@));
            }
        }
    }

    /// Path relative to vault root, for display.
    pub fn relative(&self, path: &VaultPath) -> (r: VaultPath)
        ensures
            r@ == relative_to(self.root@, path@),
    {
        match path.strip_prefix(&self.root) {
            Some(t) => t,
            None => path.duplicate(),
        }
    }
}

/// `sorted_paths` is sorted and holds the same paths.
pub proof fn lemma_sorted_paths_sorted(v: Seq<Seq<Seq<char>>>)
    ensures
        sorted_by(sorted_paths(v), path_order()),
        sorted_paths(v).to_multiset() == v.to_multiset(),
{
    lemma_path_order_total();
    v.lemma_sort_by_ensures(path_order());
}

} // verus!

verus! {

/// The path `root/folder/file` of a note file.
pub open spec fn note_path_in(root: Seq<Seq<char>>, folder: Seq<Seq<char>>, name: Seq<char>) -> Seq<
    Seq<char>,
> {
    path_join(path_join(root, folder), seq![note_file_name_of(name)])
}

/// Where a note moves: its file name inside `target` (relative to the root),
/// or inside the root itself.
pub open spec fn moved_note_path(
    root: Seq<Seq<char>>,
    path: Seq<Seq<char>>,
    target: Option<Seq<Seq<char>>>,
) -> Option<Seq<Seq<char>>> {
    match path_file_name(path) {
        None => None,
        Some(name) => Some(
            path_join(
                match target {
                    Some(f) => path_join(root, f),
                    None => root,
                },
                seq![name],
            ),
        ),
    }
}

/// The view of an optional path.
pub open spec fn opt_path_view(p: Option<&VaultPath>) -> Option<Seq<Seq<char>>> {
    match p {
        Some(q) => Some(q@),
        None => None,
    }
}

impl Vault {
    /// Where a new note called `name` at the vault root is written.
    pub fn new_note_path(&self, name: &str) -> (p: VaultPath)
        ensures
            p@ == path_join(self.root@, seq![note_file_name_of(name@)]),
    {
        let file = single_component(note_file_name(name));
        self.root.join(&file)
    }

    /// The directory (absolute) and the note path for a new note called
    /// `name` inside `folder` (relative to the vault root).
    pub fn new_note_path_in(&self, folder: &VaultPath, name: &str) -> (r: (VaultPath, VaultPath))
        ensures
            r.0@ == path_join(self.root@, folder@),
            r.1@ == note_path_in(self.root@, folder@, name@),
    {
        let dir = self.root.join(folder);
        let file = single_component(note_file_name(name));
        let p = dir.join(&file);
        (dir, p)
    }

    /// Record a newly written note: add it in path order, unless it is
    /// already listed.
    pub fn add_entry(&mut self, path: VaultPath)
        ensures
            final(self).root == old(self).root,
            final(self).folders == old(self).folders,
            final(self).entry_views() == with_path(old(self).entry_views(), path@),
            old(self).wf() ==> final(self).wf(),
    {
        if contains_path(&self.entries, &path) {
            return;
        }
        let ghost pv = path@;
        let mut es = Vec::new();
        std::mem::swap(&mut es, &mut self.entries);
        es.push(path);
        assert(path_views(es@) =~= path_views(old(self).entries@).push(pv));
        self.entries = sort_paths(&es);
        proof {
            lemma_sorted_paths_sorted(path_views(es@));
        }
    }

    /// Record a section: add `rel` in path order, unless it is already
    /// listed.
    pub fn add_folder(&mut self, rel: VaultPath)
        ensures
            final(self).root == old(self).root,
            final(self).entries == old(self).entries,
            final(self).folder_views() == with_path(old(self).folder_views(), rel@),
            old(self).wf() ==> final(self).wf(),
    {
        if contains_path(&self.folders, &rel) {
            return;
        }
        let ghost pv = rel@;
        let mut fs = Vec::new();
        std::mem::swap(&mut fs, &mut self.folders);
        fs.push(rel);
        assert(path_views(fs@) =~= path_views(old(self).folders@).push(pv));
        self.folders = sort_paths(&fs);
        proof {
            lemma_sorted_paths_sorted(path_views(fs@));
        }
    }

    /// Record a note created inside `folder`: add the note and track the
    /// first component of `folder` as a section.
    pub fn add_entry_in(&mut self, folder: &VaultPath, path: VaultPath)
        ensures
            final(self).root == old(self).root,
            final(self).entry_views() == with_path(old(self).entry_views(), path@),
            final(self).folder_views() == with_path(
                old(self).folder_views(),
                tracked_folder(folder@),
            ),
            old(self).wf() ==> final(self).wf(),
    {
        self.add_entry(path);
        let rel = if folder.components.len() > 0 {
            single_component(folder.components[0].clone())
        } else {
            folder.duplicate()
        };
        self.add_folder(rel);
    }

    /// The absolute and the relative path of a new section called `name`.
    pub fn new_folder_paths(&self, name: &str) -> (r: (VaultPath, VaultPath))
        ensures
            r.0@ == path_join(self.root@, seq![sanitized(name@)]),
            r.1@ == seq![sanitized(name@)],
    {
        let rel = single_component(sanitize_filename(name));
        let abs = self.root.join(&rel);
        (abs, rel)
    }

    /// Where `old_path` goes when the note is renamed to `new_name`: the same
    /// directory (the vault root when it has no parent). None when that is
    /// `old_path` itself, so that nothing is to be done.
    pub fn renamed_note_path(&self, old_path: &VaultPath, new_name: &str) -> (r: Option<VaultPath>)
        ensures
            ({
                let target = path_join(
                    match path_parent(old_path@) {
                        Some(d) => d,
                        None => self.root@,
                    },
                    seq![note_file_name_of(new_name@)],
                );
                match r {
                    Some(p) => p@ == target && target != old_path@,
                    None => target == old_path@,
                }
            }),
    {
        let file = single_component(note_file_name(new_name));
        let p = match old_path.parent() {
            Some(d) => d.join(&file),
            None => self.root.join(&file),
        };
        if p.same_as(old_path) {
            None
        } else {
            Some(p)
        }
    }

    /// Where the note at `path` goes when moved into `target` (relative to
    /// the root), or to the root itself; an error when `path` has no file
    /// name, and none when the note is already there.
    pub fn moved_note_path(&self, path: &VaultPath, target: Option<&VaultPath>) -> (r: Result<
        Option<VaultPath>,
        VaultError,
    >)
        ensures
            match moved_note_path(self.root@, path@, opt_path_view(target)) {
                Some(q) => match r {
                    Ok(Some(p)) => p@ == q && q != path@,
                    Ok(None) => q == path@,
                    Err(_) => false,
                },
                None => r matches Err(e) && e is NoFileName,
            },
    {
        let name = match path.file_name() {
            Some(n) => n,
            None => return Err(VaultError::NoFileName),
        };
        let dest = match target {
            Some(f) => self.root.join(f),
            None => self.root.duplicate(),
        };
        let file = single_component(name);
        let p = dest.join(&file);
        if p.same_as(path) {
            Ok(None)
        } else {
            Ok(Some(p))
        }
    }

    /// Record that the note at `old_path` now lives at `new_path`.
    pub fn replace_entry(&mut self, old_path: &VaultPath, new_path: VaultPath)
        ensures
            final(self).root == old(self).root,
            final(self).folders == old(self).folders,
            final(self).entry_views() == with_path(
                old(self).entry_views().filter(differs_from(old_path@)),
                new_path@,
            ),
            old(self).wf() ==> final(self).wf(),
    {
        self.entries = without_path(&self.entries, old_path);
        self.add_entry(new_path);
    }

    /// Record that the note at `path` was deleted.
    pub fn remove_entry(&mut self, path: &VaultPath)
        ensures
            final(self).root == old(self).root,
            final(self).folders == old(self).folders,
            final(self).entry_views() == old(self).entry_views().filter(differs_from(path@)),
            old(self).wf() ==> final(self).wf(),
    {
        self.entries = without_path(&self.entries, path);
    }

    /// The old and new absolute paths, and the new relative path, of a
    /// section renamed from `old_rel` to `new_name`; none when the new
    /// absolute path is the old one.
    pub fn renamed_folder_paths(&self, old_rel: &VaultPath, new_name: &str) -> (r: Option<
        (VaultPath, VaultPath, VaultPath),
    >)
        ensures
            ({
                let old_abs = path_join(self.root@, old_rel@);
                let new_abs = path_join(self.root@, seq![sanitized(new_name@)]);
                match r {
                    Some(t) => {
                        &&& t.0@ == old_abs
                        &&& t.1@ == new_abs
                        &&& t.2@ == seq![sanitized(new_name@)]
                        &&& old_abs != new_abs
                    },
                    None => old_abs == new_abs,
                }
            }),
    {
        let old_abs = self.root.join(old_rel);
        let new_rel = single_component(sanitize_filename(new_name));
        let new_abs = self.root.join(&new_rel);
        if new_abs.same_as(&old_abs) {
            None
        } else {
            Some((old_abs, new_abs, new_rel))
        }
    }

    /// Record that the section `old_rel` (at `old_abs`) was moved to `new_abs`
    /// and is now listed as `new_rel`: every note inside it is re-rooted, and
    /// the notes are put back in path order.
    pub fn record_folder_renamed(
        &mut self,
        old_rel: &VaultPath,
        old_abs: &VaultPath,
        new_abs: &VaultPath,
        new_rel: VaultPath,
    )
        ensures
            final(self).root == old(self).root,
            final(self).entry_views() == sorted_paths(
                old(self).entry_views().map_values(
                    |e: Seq<Seq<char>>| reroot(e, old_abs@, new_abs@),
                ),
            ),
            final(self).folder_views() == with_path(
                old(self).folder_views().filter(differs_from(old_rel@)),
                new_rel@,
            ),
            sorted_by(final(self).entry_views(), path_order()),
            old(self).wf() ==> final(self).wf(),
    {
        let mut es: Vec<VaultPath> = Vec::new();
        let mut i: usize = 0;
        while i < self.entries.len()
            invariant
                i <= self.entries@.len(),
                self.entries == old(self).entries,
                path_views(es@) == path_views(self.entries@.take(i as int)).map_values(
                    |e: Seq<Seq<char>>| reroot(e, old_abs@, new_abs@),
                ),
            decreases self.entries@.len() - i,
        {
            let e = &self.entries[i];
            let moved = match e.strip_prefix(old_abs) {
                Some(tail) => new_abs.join(&tail),
                None => e.duplicate(),
            };
            let ghost before = es@;
            es.push(moved);
            assert(path_views(self.entries@.take(i + 1)) =~= path_views(
                self.entries@.take(i as int),
            ).push(self.entries@[i as int]@));
            assert(path_views(es@) =~= path_views(before).push(es@[i as int]@));
            i = i + 1;
        }
        assert(self.entries@.take(self.entries@.len() as int) =~= self.entries@);
        self.entries = sort_paths(&es);
        proof {
            lemma_sorted_paths_sorted(path_views(es@));
        }
        let kept = without_path(&self.folders, old_rel);
        self.folders = kept;
        self.add_folder(new_rel);
    }
}

} // verus!

verus! {

/// Sanitizing a sanitized name changes nothing, and every character of a
/// sanitized name is alphanumeric, `-` or `_`, one for each character of
/// the name.
pub proof fn law_sanitize_idempotent(name: Seq<char>)
    ensures
        sanitized(sanitized(name)) == sanitized(name),
        sanitized(name).len() == name.len(),
        forall|i: int|
            0 <= i < name.len() ==> {
                let c = #[trigger] sanitized(name)[i];
                is_alphanumeric_char(c) || c == '-' || c == '_'
            },
{
    assert(sanitized(sanitized(name)) =~= sanitized(name));
}

/// Adding a note or a section: the list afterwards holds exactly the old
/// paths and the new one, stays sorted, and stays free of duplicates; adding
/// the same path a second time changes nothing.
pub proof fn law_add_path(list: Seq<Seq<Seq<char>>>, p: Seq<Seq<char>>)
    ensures
        forall|q: Seq<Seq<char>>| #[trigger]
            with_path(list, p).contains(q) <==> list.contains(q) || q == p,
        !list.contains(p) ==> with_path(list, p).to_multiset() == list.to_multiset().insert(p),
        sorted_by(list, path_order()) ==> sorted_by(with_path(list, p), path_order()),
        list.no_duplicates() ==> with_path(list, p).no_duplicates(),
        with_path(with_path(list, p), p) == with_path(list, p),
{
    broadcast use vstd::seq_lib::to_multiset_contains;
    broadcast use vstd::multiset::group_multiset_axioms;

    if !list.contains(p) {
        let l = list.push(p);
        let r = sorted_paths(l);
        lemma_sorted_paths_sorted(l);
        list.to_multiset_ensures();
        assert forall|q: Seq<Seq<char>>| #[trigger] r.contains(q) <==> list.contains(q) || q == p by {
            assert(r.to_multiset().count(q) == l.to_multiset().count(q));
            assert(l.contains(q) <==> list.contains(q) || q == p) by {
                if q == p {
                    assert(l[list.len() as int] == p);
                }
                if list.contains(q) {
                    let k = choose|k: int| 0 <= k < list.len() && list[k] == q;
                    assert(l[k] == q);
                }
                if l.contains(q) && q != p {
                    let k = choose|k: int| 0 <= k < l.len() && l[k] == q;
                    assert(k < list.len());
                    assert(list[k] == q);
                }
            }
        }
        assert(r.contains(p));
        if list.no_duplicates() {
            list.lemma_multiset_has_no_duplicates();
            assert forall|x: Seq<Seq<char>>| r.to_multiset().contains(x) implies r.to_multiset().count(
                x,
            ) == 1 by {
                if x == p {
                    assert(list.to_multiset().count(p) == 0);
                } else {
                    assert(list.to_multiset().contains(x));
                }
            }
            r.lemma_multiset_has_no_duplicates_conv();
        }
    }
}

} // verus!

verus! {

/// Whether a directory entry is hidden: its name starts with `.`.
pub fn is_hidden_name(name: &str) -> (b: bool)
    ensures
        b == (name@.len() > 0 && name@[0] == '.'),
{
    let cs = chars_of(name);
    cs.len() > 0 && cs[0] == '.'
}

} // verus!

verus! {

/// Taking a well-formed path relative to the vault root and joining the
/// result back onto the root gives the path again; a path that does not lie
/// under the root is left as it is.
pub proof fn law_relative_join(root: Seq<Seq<char>>, path: Seq<Seq<char>>)
    requires
        crate::path::path_wf(path),
    ensures
        crate::path::path_starts_with(path, root) ==> path_join(root, relative_to(root, path))
            == path,
        !crate::path::path_starts_with(path, root) ==> relative_to(root, path) == path,
{
    if crate::path::path_starts_with(path, root) {
        let tail = path.skip(root.len() as int);
        assert(relative_to(root, path) == tail);
        if root.len() == 0 {
            assert(tail =~= path);
            assert(root + tail =~= path);
        } else {
            if tail.len() > 0 && tail[0] == crate::path::root_component() {
                let i = root.len() as int;
                assert(path[i] == tail[0]);
                assert(crate::path::component_ok(path[i], i));
                assert(crate::path::root_component()[0] == '/');
                assert(path[i].contains('/'));
            }
            assert(path.take(root.len() as int) == root);
            assert(root + tail =~= path);
        }
    }
}

/// Joining well-formed paths, and taking one relative to a root, give
/// well-formed paths.
pub proof fn law_path_wf_kept(a: Seq<Seq<char>>, b: Seq<Seq<char>>)
    requires
        crate::path::path_wf(a),
        crate::path::path_wf(b),
    ensures
        crate::path::path_wf(path_join(a, b)),
        crate::path::path_wf(relative_to(a, b)),
{
    if !(b.len() > 0 && b[0] == crate::path::root_component()) {
        let j = a + b;
        assert forall|i: int| 0 <= i < j.len() implies crate::path::component_ok(#[trigger] j[i], i) by {
            if i < a.len() {
                assert(j[i] == a[i]);
                assert(crate::path::component_ok(a[i], i));
            } else {
                let k = i - a.len();
                assert(j[i] == b[k]);
                assert(crate::path::component_ok(b[k], k));
            }
        }
    }
    if crate::path::path_starts_with(b, a) && a.len() > 0 {
        let t = b.skip(a.len() as int);
        assert forall|i: int| 0 <= i < t.len() implies crate::path::component_ok(#[trigger] t[i], i) by {
            let k = i + a.len();
            assert(t[i] == b[k]);
            assert(crate::path::component_ok(b[k], k));
        }
    } else if crate::path::path_starts_with(b, a) {
        assert(b.skip(0) =~= b);
    }
}

/// Renaming a section re-roots every note inside it, at any depth: the note
/// list afterwards is sorted, as long as before, and holds for each note
/// under `old_abs` the path `new_abs` followed by the rest of its path after
/// `old_abs`, and every other note as it was.
pub proof fn law_rename_reroots_every_note(
    entries: Seq<Seq<Seq<char>>>,
    old_abs: Seq<Seq<char>>,
    new_abs: Seq<Seq<char>>,
)
    ensures
        ({
            let r = sorted_paths(
                entries.map_values(|e: Seq<Seq<char>>| reroot(e, old_abs, new_abs)),
            );
            &&& sorted_by(r, path_order())
            &&& r.len() == entries.len()
            &&& forall|e: Seq<Seq<char>>|
                #[trigger] entries.contains(e) && crate::path::path_starts_with(e, old_abs)
                    ==> r.contains(path_join(new_abs, e.skip(old_abs.len() as int)))
            &&& forall|e: Seq<Seq<char>>|
                #[trigger] entries.contains(e) && !crate::path::path_starts_with(e, old_abs)
                    ==> r.contains(e)
        }),
{
    broadcast use vstd::seq_lib::to_multiset_contains;
    broadcast use vstd::seq_lib::to_multiset_len;

    let m = entries.map_values(|e: Seq<Seq<char>>| reroot(e, old_abs, new_abs));
    let r = sorted_paths(m);
    lemma_sorted_paths_sorted(m);
    assert(r.to_multiset().len() == m.to_multiset().len());
    assert forall|e: Seq<Seq<char>>| #[trigger] entries.contains(e) implies r.contains(
        reroot(e, old_abs, new_abs),
    ) by {
        let k = choose|k: int| 0 <= k < entries.len() && entries[k] == e;
        assert(m[k] == reroot(e, old_abs, new_abs));
        assert(m.contains(m[k]));
        assert(m.to_multiset().count(m[k]) > 0);
    }
}

/// Where a dragged note lands: under its own file name directly in the
/// vault root when no folder is given, directly in the folder (taken from
/// the root unless absolute) otherwise; a path without a file name does not
/// move.
pub proof fn law_move_destination(
    root: Seq<Seq<char>>,
    path: Seq<Seq<char>>,
    target: Option<Seq<Seq<char>>>,
)
    ensures
        match path_file_name(path) {
            None => moved_note_path(root, path, target) is None,
            Some(n) => moved_note_path(root, path, target) == Some(
                match target {
                    None => root.push(n),
                    Some(f) => if path_is_absolute(f) {
                        f.push(n)
                    } else {
                        (root + f).push(n)
                    },
                },
            ),
        },
{
    if let Some(n) = path_file_name(path) {
        assert(n != crate::path::root_component());
        assert(root + seq![n] =~= root.push(n));
        if let Some(f) = target {
            assert(f + seq![n] =~= f.push(n));
            assert((root + f) + seq![n] =~= (root + f).push(n));
        }
    }
}

} // verus!
