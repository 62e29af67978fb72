use lockjaw::path::VaultPath;
use lockjaw::vault::{is_hidden_name, Vault, VaultError};

fn p(parts: &[&str]) -> VaultPath {
    VaultPath::new(parts.iter().map(|s| s.to_string()).collect())
}

fn names(v: &[VaultPath]) -> Vec<Vec<String>> {
    v.iter().map(|x| x.components.clone()).collect()
}

fn sample() -> Vault {
    let root = p(&["/", "v"]);
    let files = vec![
        p(&["/", "v", "b.md"]),
        p(&["/", "v", "a", "x.md"]),
        p(&["/", "v", "a-b.md"]),
        p(&["/", "v", "A.md"]),
    ];
    let dirs = vec![p(&["zeta"]), p(&["a"])];
    match Vault::open(root, &p(&["/", "home"]), true, files, dirs) {
        Ok(v) => v,
        Err(_) => panic!("a directory opens"),
    }
}

#[test]
fn open_sorts_component_wise() {
    let v = sample();
    // Components compare one by one: "a" < "a-b" so a/x.md comes first;
    // upper-case letters order before lower-case ones.
    assert_eq!(
        names(&v.entries),
        vec![
            vec!["/", "v", "A.md"],
            vec!["/", "v", "a", "x.md"],
            vec!["/", "v", "a-b.md"],
            vec!["/", "v", "b.md"],
        ]
    );
    assert_eq!(names(&v.folders), vec![vec!["a"], vec!["zeta"]]);
}

#[test]
fn open_takes_a_relative_root_from_the_current_directory() {
    let files = vec![p(&["notes", "a.md"])];
    let v = Vault::open(p(&["notes"]), &p(&["/", "home", "u"]), true, files, vec![])
        .ok()
        .expect("opens");
    assert_eq!(v.root.components, vec!["/", "home", "u", "notes"]);
    assert_eq!(names(&v.entries), vec![vec!["/", "home", "u", "notes", "a.md"]]);
}

#[test]
fn open_refuses_a_non_directory() {
    let r = Vault::open(p(&["/", "f.txt"]), &p(&["/"]), false, vec![], vec![]);
    assert!(matches!(r, Err(VaultError::NotADirectory)));
}

#[test]
fn relative_strips_the_root() {
    let v = sample();
    assert_eq!(v.relative(&p(&["/", "v", "a", "x.md"])).components, vec!["a", "x.md"]);
    assert_eq!(v.relative(&p(&["/", "w", "y.md"])).components, vec!["/", "w", "y.md"]);
}

#[test]
fn create_note_paths_and_bookkeeping() {
    let mut v = sample();
    let path = v.new_note_path("Zed Note");
    assert_eq!(path.components, vec!["/", "v", "Zed-Note.md"]);
    v.add_entry(path);
    assert_eq!(v.entries.len(), 5);
    assert_eq!(v.entries[1].components, vec!["/", "v", "Zed-Note.md"]);
    let (dir, np) = v.new_note_path_in(&p(&["projects", "q1"]), "plan");
    assert_eq!(dir.components, vec!["/", "v", "projects", "q1"]);
    assert_eq!(np.components, vec!["/", "v", "projects", "q1", "plan.md"]);
    v.add_entry_in(&p(&["projects", "q1"]), np);
    assert_eq!(names(&v.folders), vec![vec!["a"], vec!["projects"], vec!["zeta"]]);
}

#[test]
fn add_folder_ignores_known_sections() {
    let mut v = sample();
    let (abs, rel) = v.new_folder_paths("New Stuff");
    assert_eq!(abs.components, vec!["/", "v", "New-Stuff"]);
    v.add_folder(rel);
    v.add_folder(p(&["a"]));
    assert_eq!(names(&v.folders), vec![vec!["New-Stuff"], vec!["a"], vec!["zeta"]]);
}

#[test]
fn rename_and_move_notes() {
    let mut v = sample();
    let old = p(&["/", "v", "a", "x.md"]);
    let new = v.renamed_note_path(&old, "y").expect("a new name");
    assert_eq!(new.components, vec!["/", "v", "a", "y.md"]);
    assert!(v.renamed_note_path(&old, "x").is_none());
    v.replace_entry(&old, new);
    assert_eq!(v.entries[1].components, vec!["/", "v", "a", "y.md"]);

    let moved = v.moved_note_path(&p(&["/", "v", "b.md"]), Some(&p(&["zeta"]))).ok().flatten();
    assert_eq!(moved.map(|m| m.components), Some(vec!["/".to_string(), "v".into(), "zeta".into(), "b.md".into()]));
    assert!(matches!(v.moved_note_path(&p(&["/", "v", "b.md"]), None), Ok(None)));
    assert!(matches!(v.moved_note_path(&p(&["/"]), None), Err(VaultError::NoFileName)));
}

#[test]
fn rename_folder_reroots_notes() {
    let mut v = sample();
    let (old_abs, new_abs, new_rel) = v.renamed_folder_paths(&p(&["a"]), "c").expect("a new name");
    assert_eq!(old_abs.components, vec!["/", "v", "a"]);
    assert_eq!(new_abs.components, vec!["/", "v", "c"]);
    v.record_folder_renamed(&p(&["a"]), &old_abs, &new_abs, new_rel);
    // The notes are back in path order after re-rooting.
    assert_eq!(
        names(&v.entries),
        vec![
            vec!["/", "v", "A.md"],
            vec!["/", "v", "a-b.md"],
            vec!["/", "v", "b.md"],
            vec!["/", "v", "c", "x.md"],
        ]
    );
    assert_eq!(names(&v.folders), vec![vec!["c"], vec!["zeta"]]);
    assert!(v.renamed_folder_paths(&p(&["zeta"]), "zeta").is_none());
}

#[test]
fn rename_folder_keeps_entries_sorted() {
    let files = vec![p(&["/", "r", "a", "x.md"]), p(&["/", "r", "b.md"])];
    let mut v = Vault::open(p(&["/", "r"]), &p(&["/", "home"]), true, files, vec![p(&["a"])]).ok().expect("opens");
    let (old_abs, new_abs, new_rel) = v.renamed_folder_paths(&p(&["a"]), "c").expect("a new name");
    v.record_folder_renamed(&p(&["a"]), &old_abs, &new_abs, new_rel);
    assert_eq!(names(&v.entries), vec![vec!["/", "r", "b.md"], vec!["/", "r", "c", "x.md"]]);
    assert_eq!(names(&v.folders), vec![vec!["c"]]);
}

#[test]
fn adding_a_listed_note_or_section_changes_nothing() {
    let mut v = sample();
    v.add_entry(p(&["/", "v", "b.md"]));
    assert_eq!(v.entries.len(), 4);
    // "a b" names the file a-b.md, which is already listed.
    v.add_entry(v.new_note_path("a b"));
    assert_eq!(v.entries.len(), 4);
    let path = v.new_note_path("c d");
    v.add_entry(path.duplicate());
    v.add_entry(path);
    assert_eq!(v.entries.len(), 5);
    let (_, rel) = v.new_folder_paths("x y");
    v.add_folder(rel.duplicate());
    v.add_folder(rel);
    assert_eq!(names(&v.folders), vec![vec!["a"], vec!["x-y"], vec!["zeta"]]);
}

#[test]
fn delete_note_keeps_the_rest_in_order() {
    let mut v = sample();
    v.remove_entry(&p(&["/", "v", "a-b.md"]));
    assert_eq!(
        names(&v.entries),
        vec![vec!["/", "v", "A.md"], vec!["/", "v", "a", "x.md"], vec!["/", "v", "b.md"]]
    );
}

#[test]
fn hidden_names() {
    assert!(is_hidden_name(".git"));
    assert!(!is_hidden_name("notes"));
    assert!(!is_hidden_name(""));
}

#[test]
fn path_operations() {
    let a = p(&["/", "v", "dir", "note.tar.md"]);
    assert_eq!(a.file_name().as_deref(), Some("note.tar.md"));
    assert_eq!(a.file_stem().as_deref(), Some("note.tar"));
    assert_eq!(a.extension().as_deref(), Some("md"));
    assert_eq!(p(&["/", ".hidden"]).file_stem().as_deref(), Some(".hidden"));
    assert_eq!(p(&["/", ".hidden"]).extension(), None);
    assert_eq!(p(&["/"]).file_name(), None);
    assert_eq!(p(&["a", ".."]).file_name(), None);
    assert!(p(&["/"]).parent().is_none());
    assert_eq!(p(&["a"]).parent().map(|x| x.components), Some(vec![]));
    assert_eq!(p(&["x"]).join(&p(&["/", "y"])).components, vec!["/", "y"]);
    assert!(a.starts_with(&p(&["/", "v"])));
    assert!(!a.starts_with(&p(&["/", "v", "di"])));
    assert!(p(&["a"]).ordered_before_or_same(&p(&["a-b"])));
    assert!(p(&["a", "z"]).ordered_before_or_same(&p(&["a-b"])));
    assert!(!p(&["b"]).ordered_before_or_same(&p(&["a", "z"])));
    assert!(a.same_as(&a.duplicate()));
}
