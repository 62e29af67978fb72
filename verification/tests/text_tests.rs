use lockjaw::markdown::word_count;
use lockjaw::vault::{initial_note_content, note_file_name, sanitize_filename};
use lockjaw::webdav::{
    base_url, is_md_file_name, mkcol_status_ok, names_to_download, parse_md_hrefs,
    percent_decode, percent_encode, remote_file_url, DecodeError,
};

#[test]
fn word_count_of_joined_texts_adds_up() {
    for (a, b) in [("one two", "three"), ("", "x y"), ("a ", " b"), ("# My Note", "Some **bold** text")] {
        let joined = format!("{a} {b}");
        assert_eq!(word_count(&joined), word_count(a) + word_count(b));
    }
    assert_eq!(word_count("# My Note\n\nSome **bold** text"), 6);
}

#[test]
fn word_count_counts_runs_of_non_white_space() {
    assert_eq!(word_count(""), 0);
    assert_eq!(word_count("   \t\n "), 0);
    assert_eq!(word_count("one"), 1);
    assert_eq!(word_count("  two words  "), 2);
    assert_eq!(word_count("a\tb\nc  d"), 4);
    // U+00A0 and U+2003 are white space in the Unicode sense.
    assert_eq!(word_count("x\u{a0}y\u{2003}z"), 3);
    assert_eq!(word_count("# My Note\n\nSome **bold** text."), 6);
}

#[test]
fn sanitize_filename_replaces_unsafe_characters() {
    assert_eq!(sanitize_filename("My Note"), "My-Note");
    assert_eq!(sanitize_filename("a/b.c"), "a-b-c");
    assert_eq!(sanitize_filename("keep_me-ok"), "keep_me-ok");
    assert_eq!(sanitize_filename("café 42"), "café-42");
    assert_eq!(sanitize_filename(""), "");
}

#[test]
fn sanitize_filename_is_idempotent() {
    for name in ["My Note", "a/b.c", "☃ snow!", "x__y--z"] {
        let once = sanitize_filename(name);
        assert_eq!(sanitize_filename(&once), once);
        assert_eq!(once.chars().count(), name.chars().count());
    }
}

#[test]
fn note_file_name_and_initial_content() {
    assert_eq!(note_file_name("My Note"), "My-Note.md");
    assert_eq!(initial_note_content("My Note"), "# My Note\n\n");
}

#[test]
fn percent_encode_encodes_spaces_and_non_ascii() {
    assert_eq!(percent_encode("plain-name_1.md"), "plain-name_1.md");
    assert_eq!(percent_encode("my note.md"), "my%20note.md");
    assert_eq!(percent_encode("a+b"), "a%2Bb");
    assert_eq!(percent_encode("\u{1}"), "%01");
    assert_eq!(percent_encode("é"), "%E9");
    assert_eq!(percent_encode("€"), "%20AC");
    assert_eq!(percent_encode("a/b"), "a%2Fb");
    assert_eq!(percent_encode("~x"), "~x");
}

#[test]
fn percent_decode_decodes_escapes() {
    assert_eq!(percent_decode("my%20note.md").ok(), Some("my note.md".to_string()));
    assert_eq!(percent_decode("%41%62").ok(), Some("Ab".to_string()));
    // Escapes spell UTF-8 bytes, as WebDAV servers send them.
    assert_eq!(percent_decode("caf%C3%A9.md").ok(), Some("café.md".to_string()));
    assert_eq!(percent_decode("caf%c3%a9.md").ok(), Some("café.md".to_string()));
    assert_eq!(percent_decode("%E2%82%AC").ok(), Some("€".to_string()));
    // Characters that are not escaped stay as they are.
    assert_eq!(percent_decode("café%20x").ok(), Some("café x".to_string()));
}

#[test]
fn percent_decode_errors() {
    assert!(matches!(percent_decode("abc%"), Err(DecodeError::Truncated)));
    assert!(matches!(percent_decode("abc%4"), Err(DecodeError::Truncated)));
    assert!(matches!(percent_decode("%zz"), Err(DecodeError::InvalidHex)));
    assert!(matches!(percent_decode("%-1"), Err(DecodeError::InvalidHex)));
    assert!(matches!(percent_decode("%+1"), Err(DecodeError::InvalidHex)));
    assert!(matches!(percent_decode("%+9"), Err(DecodeError::InvalidHex)));
    assert!(matches!(percent_decode("%é1"), Err(DecodeError::InvalidHex)));
    // A lone byte above 0x7F is not UTF-8.
    assert!(matches!(percent_decode("%e9"), Err(DecodeError::InvalidUtf8)));
    assert!(matches!(percent_decode("caf%C3"), Err(DecodeError::InvalidUtf8)));
    // An encoded surrogate is not UTF-8 either.
    assert!(matches!(percent_decode("%ED%A0%80"), Err(DecodeError::InvalidUtf8)));
    // The first malformed escape decides.
    assert!(matches!(percent_decode("%zz%"), Err(DecodeError::InvalidHex)));
}

#[test]
fn decode_undoes_encode_for_ascii_names() {
    for s in ["my note.md", "tab\there", "100% sure", "a/b+c?.md", "\u{1}\u{7f}"] {
        let enc = percent_encode(s);
        assert_eq!(percent_decode(&enc).ok(), Some(s.to_string()));
    }
    // A character beyond ASCII is written as its code point, which is not
    // UTF-8 once decoded.
    assert!(matches!(percent_decode(&percent_encode("é")), Err(DecodeError::InvalidUtf8)));
}

#[test]
fn white_space_agrees_with_std_on_every_char() {
    for c in (0u32..=0x10FFFF).filter_map(char::from_u32) {
        let expected = if c.is_whitespace() { 2 } else { 1 };
        assert_eq!(word_count(&format!("a{c}b")), expected, "{:#x}", c as u32);
    }
}

#[test]
fn base_url_ends_with_slash() {
    assert_eq!(base_url("https://x/dav"), base_url("https://x/dav/"));
    assert_eq!(
        remote_file_url(&base_url("https://x/dav"), "a b.md"),
        remote_file_url(&base_url("https://x/dav/"), "a b.md")
    );
    assert_eq!(base_url("https://x/dav"), "https://x/dav/");
    assert_eq!(base_url("https://x/dav/"), "https://x/dav/");
    assert_eq!(base_url(""), "/");
}

#[test]
fn remote_file_url_appends_encoded_name() {
    assert_eq!(remote_file_url("https://x/dav/", "my note.md"), "https://x/dav/my%20note.md");
}

#[test]
fn mkcol_statuses() {
    for s in [201u16, 301, 405, 409] {
        assert!(mkcol_status_ok(s));
    }
    for s in [200u16, 204, 401, 403, 500] {
        assert!(!mkcol_status_ok(s));
    }
}

#[test]
fn md_file_names() {
    assert!(is_md_file_name("note.md"));
    assert!(is_md_file_name("a.b.md"));
    assert!(!is_md_file_name(".md"));
    assert!(!is_md_file_name("note.MD"));
    assert!(!is_md_file_name("note.mdx"));
    assert!(!is_md_file_name("md"));
    assert!(!is_md_file_name(".."));
}

#[test]
fn parse_md_hrefs_reads_propfind_replies() {
    let xml = "<?xml version=\"1.0\"?>\n<D:multistatus xmlns:D=\"DAV:\">\
        <D:response><D:href>/dav/notes/</D:href></D:response>\
        <D:response><D:href> /dav/notes/My%20Note.md </D:href></D:response>\
        <D:response><D:href>/dav/notes/other.txt</D:href></D:response>\
        <D:response><D:href>/dav/notes/b.md</D:href></D:response>\
        <D:response><D:href>/dav/notes/b.md</D:href></D:response>\
        <D:response><D:href>/dav/notes/bad%zz.md</D:href></D:response>\
        <D:response><D:href>/dav/notes/..%2Fescape.md</D:href></D:response>\
        <D:response><D:href>/dav/notes/caf%C3%A9.md</D:href></D:response>\
        </D:multistatus>";
    assert_eq!(
        parse_md_hrefs(xml),
        vec!["My Note.md".to_string(), "b.md".to_string(), "café.md".to_string()]
    );
}

#[test]
fn parse_md_hrefs_plain_namespace_and_edge_cases() {
    let xml = "<multistatus><response><href>/x/a.md</href></response>\
               <response><href>/x/sub/c.md/</href></response></multistatus>";
    assert_eq!(parse_md_hrefs(xml), vec!["a.md".to_string()]);
    assert!(parse_md_hrefs("").is_empty());
    assert!(parse_md_hrefs("<D:href>unterminated.md").is_empty());
    // `<D:href>` anywhere is preferred to an earlier `<href>`.
    let mixed = "<href>first.md</href><D:href>second.md</D:href>";
    assert_eq!(parse_md_hrefs(mixed), vec!["second.md".to_string()]);
}

#[test]
fn names_to_download_skips_local_notes() {
    let local = vec!["a.md".to_string(), "b.md".to_string()];
    let remote = vec!["b.md".to_string(), "c.md".to_string(), "a.md".to_string(), "d.md".to_string()];
    assert_eq!(names_to_download(&local, &remote), vec!["c.md".to_string(), "d.md".to_string()]);
}
