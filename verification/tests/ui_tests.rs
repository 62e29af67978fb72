use lockjaw::addons::{AddonsAction, AddonsWindow, RowClick};
use lockjaw::config::{default_autosave, default_icon_style, default_view_mode};
use lockjaw::editor::{autosave_step, rename_pending, rename_request, AutosaveStep};
use lockjaw::labels::{folder_prefix, icon_style_label, note_prefix, view_mode_label};
use lockjaw::note::{split_frontmatter, Frontmatter, Note};
use lockjaw::path::VaultPath;
use lockjaw::plugin::{forget_disabled, toggle_plugin, PluginHost, PluginManifest};
use lockjaw::sidebar::{sidebar_layout, Sidebar, SidebarAction};
use lockjaw::theme::{
    bundled_theme_for, default_dark, is_valid_hex, parse_color, system_theme_tick, theme_accent,
    BundledTheme, Rgb,
};
use lockjaw::vault::Vault;
use lockjaw::webdav::{sync_start, SyncStart, SyncStats, WebDavConfig};

fn p(parts: &[&str]) -> VaultPath {
    VaultPath::new(parts.iter().map(|s| s.to_string()).collect())
}

fn manifest(name: &str) -> PluginManifest {
    PluginManifest {
        name: name.to_string(),
        version: "0.1.0".to_string(),
        description: None,
        author: None,
        wasm: "p.wasm".to_string(),
    }
}

#[test]
fn labels_and_prefixes() {
    assert_eq!(note_prefix("emoji"), "📝 ");
    assert_eq!(note_prefix("ascii"), "- ");
    assert_eq!(note_prefix("bullets"), "• ");
    assert_eq!(note_prefix("arrows"), "→ ");
    assert_eq!(note_prefix("none"), "");
    assert_eq!(note_prefix("unicode"), "◦ ");
    assert_eq!(note_prefix("whatever"), "◦ ");
    assert_eq!(folder_prefix("emoji"), "📁 ");
    assert_eq!(folder_prefix("ascii"), "");
    assert_eq!(icon_style_label("emoji"), "📝 Emoji");
    assert_eq!(icon_style_label("none"), "No icons");
    assert_eq!(icon_style_label("x"), "◦ Unicode symbols");
    assert_eq!(view_mode_label("editor"), "Editor only");
    assert_eq!(view_mode_label("preview"), "Preview only");
    assert_eq!(view_mode_label("both"), "Editor + Preview");
}

#[test]
fn settings_defaults() {
    assert_eq!(default_icon_style(), "emoji");
    assert_eq!(default_view_mode(), "both");
    assert!(default_autosave());
    assert!(default_dark());
    let w = WebDavConfig::default();
    assert!(!w.enabled && w.url.is_empty() && w.username.is_empty() && w.password.is_empty());
}

#[test]
fn hex_colors() {
    assert!(is_valid_hex("#a1B2c3"));
    assert!(is_valid_hex("a1b2c3"));
    assert!(is_valid_hex("##a1b2c3"));
    assert!(!is_valid_hex("#a1b2c"));
    assert!(!is_valid_hex("#a1b2cg"));
    assert!(!is_valid_hex(""));
    assert!(parse_color("#e94560") == Rgb { r: 0xe9, g: 0x45, b: 0x60 });
    assert!(parse_color("#zz0010") == Rgb { r: 0, g: 0, b: 0x10 });
    assert!(parse_color("#+a+b+c") == Rgb { r: 10, g: 11, b: 12 });
    assert!(parse_color("#fff") == Rgb { r: 255, g: 255, b: 255 });
    assert!(parse_color("") == Rgb { r: 255, g: 255, b: 255 });
}

#[test]
fn theme_choice_and_accents() {
    assert!(matches!(bundled_theme_for("nord"), BundledTheme::Nord));
    assert!(matches!(bundled_theme_for("system"), BundledTheme::System));
    assert!(matches!(bundled_theme_for("onedark"), BundledTheme::OneDark));
    assert!(matches!(bundled_theme_for("gruvbox"), BundledTheme::GruvboxDark));
    assert!(matches!(bundled_theme_for("solarized"), BundledTheme::SolarizedDark));
    assert!(matches!(bundled_theme_for("solarized-light"), BundledTheme::SolarizedLight));
    assert!(matches!(bundled_theme_for("no-such-theme"), BundledTheme::Dark));
    assert!(theme_accent("light") == Rgb { r: 0xc0, g: 0x39, b: 0x2b });
    assert!(theme_accent("solarized-light") == Rgb { r: 0x26, g: 0x8b, b: 0xd2 });
    assert!(theme_accent("system") == Rgb { r: 160, g: 160, b: 160 });
    assert!(theme_accent("dark") == Rgb { r: 0xe9, g: 0x45, b: 0x60 });
    assert!(theme_accent("onedark") == Rgb { r: 0xe9, g: 0x45, b: 0x60 });
    assert_eq!(system_theme_tick(0), (1, false));
    assert_eq!(system_theme_tick(299), (300, true));
    assert_eq!(system_theme_tick(u32::MAX), (0, true));
}

#[test]
fn frontmatter_split_and_notes() {
    let raw = "  ---\ntitle: Hello\n---\n\n# Body\n";
    let (yaml, body) = split_frontmatter(raw).expect("frontmatter");
    assert_eq!(yaml, "\ntitle: Hello");
    assert_eq!(body, "# Body\n");
    assert!(split_frontmatter("# No frontmatter").is_none());
    assert!(split_frontmatter("---\nunclosed").is_none());
    let mut n = Note::loaded(p(&["/", "v", "hello.world.md"]), "plain".to_string(), Frontmatter::default());
    assert_eq!(n.body, "plain");
    assert!(!n.dirty);
    assert_eq!(n.display_name(), "hello.world");
    n.update_raw(raw.to_string(), Frontmatter { title: Some("Hello".to_string()), tags: None, extra: vec![] });
    assert!(n.dirty);
    assert_eq!(n.body, "# Body\n");
    assert_eq!(n.display_name(), "Hello");
    n.mark_saved();
    assert!(!n.dirty);
    let untitled = Note::loaded(p(&["/"]), String::new(), Frontmatter::default());
    assert_eq!(untitled.display_name(), "Untitled");
}

#[test]
fn plugin_host_loading_and_hooks() {
    let mut host = PluginHost::new();
    let disabled = vec!["b".to_string()];
    host.reload(
        vec![(manifest("a"), p(&["/", "pl", "a"])), (manifest("b"), p(&["/", "pl", "b"]))],
        &disabled,
    );
    assert_eq!(host.plugins.len(), 2);
    assert!(host.plugins[0].enabled);
    assert!(!host.plugins[1].enabled);
    host.on_note_open("/v/x.md");
    assert_eq!(host.on_note_save("/v/x.md", "content".to_string()), "content");
    assert!(host.commands().is_empty());
    let removed = host.remove_plugin("a").expect("plugin a");
    assert_eq!(removed.manifest.name, "a");
    assert!(host.remove_plugin("a").is_none());
    assert_eq!(host.plugins.len(), 1);
    assert!(PluginHost::default().plugins.is_empty());
}

#[test]
fn toggling_a_plugin_twice_restores_the_disabled_list() {
    let mut host = PluginHost::new();
    let mut disabled = vec!["z".to_string()];
    host.load_plugin(manifest("a"), p(&["/", "pl", "a"]), &disabled);
    assert!(host.plugins[0].enabled);
    assert!(!toggle_plugin(&mut disabled, &mut host, "a"));
    assert_eq!(disabled, vec!["z".to_string(), "a".to_string()]);
    assert!(!host.plugins[0].enabled);
    assert!(toggle_plugin(&mut disabled, &mut host, "a"));
    assert_eq!(disabled, vec!["z".to_string()]);
    assert!(host.plugins[0].enabled);
    forget_disabled(&mut disabled, "z");
    assert!(disabled.is_empty());
}

#[test]
fn addons_window_confirmation() {
    let mut w = AddonsWindow::default();
    assert!(!w.open);
    assert!(w.confirm().is_none());
    w.ask_remove("a".to_string());
    assert!(w.is_confirming(&"a".to_string()));
    assert!(!w.is_confirming(&"b".to_string()));
    match w.confirm() {
        Some(AddonsAction::Remove(n)) => assert_eq!(n, "a"),
        _ => panic!("a removal"),
    }
    assert!(w.confirm_remove.is_none());
    w.ask_remove("b".to_string());
    w.cancel_remove();
    assert!(w.confirm_remove.is_none());
}

fn layout_vault() -> Vault {
    let root = p(&["/", "v"]);
    let files = vec![
        p(&["/", "v", "Inbox.md"]),
        p(&["/", "v", "work", "Plan.md"]),
        p(&["/", "v", "work", "deep", "Notes.md"]),
        p(&["/", "v", "todo.md"]),
    ];
    let dirs = vec![p(&["work"]), p(&["empty"])];
    match Vault::open(root, &p(&["/", "home"]), true, files, dirs) {
        Ok(v) => v,
        Err(_) => panic!("a directory opens"),
    }
}

#[test]
fn sidebar_groups_notes_by_folder() {
    let v = layout_vault();
    let l = sidebar_layout(&v, "");
    let roots: Vec<Vec<String>> = l.root_notes.iter().map(|x| x.components.clone()).collect();
    assert_eq!(roots, vec![vec!["/", "v", "Inbox.md"], vec!["/", "v", "todo.md"]]);
    let keys: Vec<Vec<String>> = l.sections.iter().map(|s| s.0.components.clone()).collect();
    assert_eq!(keys, vec![vec!["empty"], vec!["work"], vec!["work", "deep"]]);
    assert!(l.sections[0].1.is_empty());
    assert_eq!(l.sections[1].1.len(), 1);
    assert_eq!(l.sections[1].1[0].components, vec!["/", "v", "work", "Plan.md"]);
    assert_eq!(l.sections[2].1[0].components, vec!["/", "v", "work", "deep", "Notes.md"]);
}

#[test]
fn sidebar_search_is_case_insensitive_and_flat() {
    let v = layout_vault();
    let l = sidebar_layout(&v, "PLA");
    assert!(l.sections.is_empty());
    assert_eq!(l.root_notes.len(), 1);
    assert_eq!(l.root_notes[0].components, vec!["/", "v", "work", "Plan.md"]);
    // The extension is not searched.
    assert!(sidebar_layout(&v, ".md").root_notes.is_empty());
}

#[test]
fn sidebar_inputs() {
    let mut s = Sidebar::default();
    s.toggle_new_note_input();
    assert!(s.show_new_note_input);
    s.new_note_name = "  My note ".to_string();
    match s.commit_new_note() {
        Some(SidebarAction::CreateNote(n)) => assert_eq!(n, "My note"),
        _ => panic!("a root note"),
    }
    assert!(!s.show_new_note_input && s.new_note_name.is_empty());
    s.start_new_note_in(p(&["work"]));
    assert!(s.new_note_targets(Some(&p(&["work"]))));
    assert!(!s.new_note_targets(None));
    s.new_note_name = "   ".to_string();
    assert!(s.commit_new_note().is_none());
    s.new_note_name = "x".to_string();
    match s.commit_new_note() {
        Some(SidebarAction::CreateNoteIn(f, n)) => {
            assert_eq!(f.components, vec!["work"]);
            assert_eq!(n, "x");
        }
        _ => panic!("a note in a folder"),
    }
    s.toggle_new_folder_input();
    s.new_folder_name = " Ideas ".to_string();
    match s.commit_new_folder() {
        Some(SidebarAction::CreateFolder(n)) => assert_eq!(n, "Ideas"),
        _ => panic!("a folder"),
    }
    s.start_rename_folder(p(&["work"]), "work".to_string());
    assert!(s.is_renaming(&p(&["work"])));
    s.rename_folder_buf = "jobs".to_string();
    match s.commit_rename_folder() {
        Some(SidebarAction::RenameFolder(f, n)) => {
            assert_eq!(f.components, vec!["work"]);
            assert_eq!(n, "jobs");
        }
        _ => panic!("a rename"),
    }
    assert!(s.renaming_folder.is_none());
}

#[test]
fn title_rename_requests() {
    assert!(rename_pending(" New ", "Old"));
    assert!(!rename_pending(" Old ", "Old"));
    assert!(!rename_pending("   ", "Old"));
    assert_eq!(rename_request(" New ", "Old", true, false, false).as_deref(), Some("New"));
    assert_eq!(rename_request("New", "Old", false, true, false).as_deref(), Some("New"));
    assert_eq!(rename_request("New", "Old", false, true, true), None);
    assert_eq!(rename_request("New", "Old", false, false, false), None);
    assert_eq!(rename_request("Old", "Old", true, false, false), None);
}

#[test]
fn sync_decisions_and_stats() {
    let mut c = WebDavConfig::default();
    assert!(matches!(sync_start(false, &c), SyncStart::Disabled));
    c.enabled = true;
    assert!(matches!(sync_start(false, &c), SyncStart::NoUrl));
    c.url = "https://x/".to_string();
    assert!(matches!(sync_start(false, &c), SyncStart::Start));
    assert!(matches!(sync_start(true, &c), SyncStart::AlreadyRunning));
    let mut s = SyncStats::default();
    s.record_upload();
    s.record_upload();
    s.record_download();
    s.record_error("Upload a.md: boom".to_string());
    assert_eq!((s.uploaded, s.downloaded, s.errors.len()), (2, 1, 1));
}

#[test]
fn removing_a_disabled_plugin_and_forgetting_it() {
    let mut host = PluginHost::new();
    let mut disabled = vec!["b".to_string(), "z".to_string()];
    host.reload(
        vec![(manifest("a"), p(&["/", "pl", "a"])), (manifest("b"), p(&["/", "pl", "b"]))],
        &disabled,
    );
    let removed = host.remove_plugin("b").expect("plugin b");
    assert!(!removed.enabled);
    forget_disabled(&mut disabled, "b");
    assert_eq!(disabled, vec!["z".to_string()]);
    assert_eq!(host.plugins.len(), 1);
    assert_eq!(host.plugins[0].manifest.name, "a");
    assert!(host.plugins[0].enabled);
}

#[test]
fn autosave_waits_one_second_after_the_last_edit() {
    assert!(matches!(autosave_step(false, true, 5000, true), AutosaveStep::Idle));
    assert!(matches!(autosave_step(true, false, 5000, true), AutosaveStep::Idle));
    assert!(matches!(autosave_step(true, true, 250, true), AutosaveStep::Wait { remaining_ms: 750 }));
    assert!(matches!(autosave_step(true, true, 0, true), AutosaveStep::Wait { remaining_ms: 1000 }));
    assert!(matches!(autosave_step(true, true, 1000, true), AutosaveStep::Save));
    assert!(matches!(autosave_step(true, true, 1500, false), AutosaveStep::Settle));
}

#[test]
fn plugin_row_removes_only_after_confirmation() {
    let mut w = AddonsWindow::default();
    let a = "a".to_string();
    assert!(w.row_click(&a, RowClick::Confirm).is_none());
    assert!(w.row_click(&a, RowClick::Remove).is_none());
    assert!(w.is_confirming(&a));
    assert!(matches!(w.row_click(&a, RowClick::Toggle), Some(AddonsAction::Toggle(n)) if n == "a"));
    assert!(w.is_confirming(&a));
    assert!(w.row_click(&a, RowClick::Cancel).is_none());
    assert!(w.confirm_remove.is_none());
    assert!(w.row_click(&a, RowClick::Remove).is_none());
    assert!(matches!(w.row_click(&a, RowClick::Confirm), Some(AddonsAction::Remove(n)) if n == "a"));
    assert!(w.confirm_remove.is_none());
    // Asking to remove another plugin replaces the pending one.
    let b = "b".to_string();
    w.row_click(&a, RowClick::Remove);
    w.row_click(&b, RowClick::Remove);
    assert!(w.is_confirming(&b) && !w.is_confirming(&a));
    assert!(w.row_click(&a, RowClick::Confirm).is_none());
}

#[test]
fn toggling_a_disabled_plugin_twice_keeps_the_set() {
    let mut host = PluginHost::new();
    let mut disabled = vec!["a".to_string(), "z".to_string(), "a".to_string()];
    host.load_plugin(manifest("a"), p(&["/", "pl", "a"]), &disabled);
    assert!(toggle_plugin(&mut disabled, &mut host, "a"));
    assert_eq!(disabled, vec!["z".to_string()]);
    assert!(!toggle_plugin(&mut disabled, &mut host, "a"));
    assert_eq!(disabled, vec!["z".to_string(), "a".to_string()]);
    assert!(!host.plugins[0].enabled);
}
