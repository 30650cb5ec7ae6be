use glyphwire::path::{command_name, file_name_range, file_name_str, is_markdown, window_title};

#[test]
fn recognizes_markdown_extensions_case_insensitively() {
    assert!(is_markdown("README.md".as_bytes()));
    assert!(is_markdown("notes.MARKDOWN".as_bytes()));
    assert!(!is_markdown("notes.txt".as_bytes()));
    assert!(!is_markdown("md".as_bytes()));
}

#[test]
fn markdown_test_follows_file_name_and_extension_rules() {
    assert!(is_markdown(b"/home/user/docs/guide.Md"));
    assert!(is_markdown(b"docs/guide.md/"));
    assert!(is_markdown(b"docs/guide.md/."));
    assert!(is_markdown(b"..md"));
    assert!(!is_markdown(b".md"));
    assert!(!is_markdown(b"docs/.md"));
    assert!(!is_markdown(b"guide.md.txt"));
    assert!(!is_markdown(b"guide.mdx"));
    assert!(!is_markdown(b"guide."));
    assert!(!is_markdown(b""));
    assert!(!is_markdown(b"/"));
    assert!(!is_markdown(b"docs/.."));
    assert!(is_markdown(b"a.b.MarkDown"));
}

#[test]
fn file_name_matches_std_path() {
    for case in ["a/b.md", "a/b.md/", "a/./", "/", "", ".", "..", "a/..", "a//b", "/a/b/.", "./a", "x"] {
        let expected = std::path::Path::new(case).file_name().and_then(|n| n.to_str());
        assert_eq!(file_name_str(case.as_bytes()), expected, "{case}");
    }
    assert_eq!(file_name_range(b"dir/file.md"), Some((4, 11)));
}

#[test]
fn command_name_is_the_file_name_of_the_program() {
    assert_eq!(command_name(Some(b"/usr/local/bin/gw")), "gw");
    assert_eq!(command_name(Some(b"glyphwire")), "glyphwire");
    assert_eq!(command_name(Some(b"/")), "glyphwire");
    assert_eq!(command_name(Some(b"/bin/\xff")), "glyphwire");
    assert_eq!(command_name(None), "glyphwire");
}

#[test]
fn window_title_names_the_opened_file() {
    assert_eq!(window_title(b"/home/user/notes"), "notes // Glyphwire");
    assert_eq!(window_title(b"/home/user/README.md"), "README.md // Glyphwire");
    assert_eq!(window_title(b"/"), "Glyphwire");
}
