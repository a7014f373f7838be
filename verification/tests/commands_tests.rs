use markdown_viewer::commands::{
    build_document, candidate_files, check_external_url, colorref, document_from, eq_ignore_ascii_case,
    command_line_paths, is_markdown_file, is_markdown_name_text, keep_resolved, link_join, markdown_target, read_error_markdown, resolve_link_candidate,
    should_retry_read, to_abs,
};

#[test]
fn markdown_extension_check() {
    assert!(is_markdown_file("a.md"));
    assert!(is_markdown_file("a.MD"));
    assert!(is_markdown_file("a.txt"));
    assert!(!is_markdown_file("a.png"));
    assert!(!is_markdown_file("noext"));
}

#[test]
fn colorref_swaps_channels() {
    assert_eq!(colorref("#0067C0"), Some(0x00C0_6700));
    assert_eq!(colorref("bad"), None);
}

#[test]
fn colorref_edge_cases() {
    assert_eq!(colorref("  ##ff0000 "), Some(0x0000_00FF));
    assert_eq!(colorref("#12345"), None);
    assert_eq!(colorref("#1234567"), None);
    assert_eq!(colorref("#12345g"), None);
    assert_eq!(colorref("+12345"), None);
    assert_eq!(colorref("#a1B2c3"), Some(0x00C3_B2A1));
}

#[test]
fn markdown_names() {
    assert!(is_markdown_name_text("notes.Markdown"));
    assert!(is_markdown_name_text("x.MdTxt"));
    assert!(!is_markdown_name_text(".md"));
    assert!(!is_markdown_name_text("md"));
    assert!(!is_markdown_name_text("a.md.png"));
    assert!(is_markdown_name_text("a.png.md"));
}

#[test]
fn nested_markdown_path() {
    assert!(is_markdown_file("/docs/guide/readme.mkd"));
    assert!(is_markdown_file("/docs/guide.md/"));
    assert!(!is_markdown_file("/docs/guide.md/.."));
}

#[test]
fn ascii_case_comparison() {
    assert!(eq_ignore_ascii_case("MarkDown", "markdown"));
    assert!(!eq_ignore_ascii_case("mark", "markdown"));
    assert!(!eq_ignore_ascii_case("É", "é"));
}

#[test]
fn external_urls() {
    assert_eq!(check_external_url("  HTTPS://example.com/a "), Ok("HTTPS://example.com/a".to_owned()));
    assert_eq!(check_external_url("mailto:a@b.c"), Ok("mailto:a@b.c".to_owned()));
    assert_eq!(check_external_url("http://x"), Ok("http://x".to_owned()));
    assert_eq!(
        check_external_url("javascript:alert(1)"),
        Err("許可されていない URL スキームです".to_owned())
    );
    assert_eq!(check_external_url("file:///etc/passwd"), Err("許可されていない URL スキームです".to_owned()));
    assert_eq!(check_external_url("http:/x"), Err("許可されていない URL スキームです".to_owned()));
}

#[test]
fn empty_path_is_refused() {
    assert_eq!(to_abs(""), Err("パスが空です".to_owned()));
    assert_eq!(to_abs("  \t"), Err("パスが空です".to_owned()));
    assert_eq!(to_abs("/a/./b/../c.md"), Ok("/a/c.md".to_owned()));
}

#[test]
fn link_candidates() {
    let dir = "/tmp/mdv2-link-test";
    assert_eq!(
        resolve_link_candidate(dir, "other.md#sec"),
        Some("/tmp/mdv2-link-test/other.md".to_owned())
    );
    assert_eq!(
        resolve_link_candidate(dir, "./other.md?x=1"),
        Some("/tmp/mdv2-link-test/other.md".to_owned())
    );
    assert_eq!(resolve_link_candidate(dir, "pic.png"), None);
    assert_eq!(resolve_link_candidate(dir, ""), None);
    assert_eq!(resolve_link_candidate(dir, "#only-anchor"), None);
    assert_eq!(
        resolve_link_candidate(dir, "sub/%E6%97%A5%E6%9C%AC.md"),
        Some("/tmp/mdv2-link-test/sub/日本.md".to_owned())
    );
    assert_eq!(resolve_link_candidate(dir, "../up.md"), Some("/tmp/up.md".to_owned()));
}

#[test]
fn documents() {
    let d = document_from("/a/b/c.md", "<p>x</p>".to_owned(), "UTF-8");
    assert_eq!(d.path, "/a/b/c.md");
    assert_eq!(d.name, "c.md");
    assert_eq!(d.dir, "/a/b");
    assert_eq!(d.html, "<p>x</p>");
    assert_eq!(d.encoding, "UTF-8");
    let b = build_document("/x/y.md", "# Hi".as_bytes());
    assert_eq!(b.name, "y.md");
    assert_eq!(b.dir, "/x");
    assert_eq!(b.encoding, "UTF-8");
    assert!(b.html.contains(r#"<h1 id="hi">Hi</h1>"#), "{}", b.html);
}

#[test]
fn read_retries_stop() {
    assert!(should_retry_read(0, false));
    assert!(should_retry_read(3, false));
    assert!(!should_retry_read(4, false));
    assert!(!should_retry_read(0, true));
}

#[test]
fn read_error_document() {
    assert_eq!(
        read_error_markdown("/a/b.md", "denied"),
        "# 読み込みエラー\n\n`/a/b.md` を読み込めませんでした。\n\n```\ndenied\n```"
    );
}

#[test]
fn command_line_candidates() {
    let args = vec![
        "--flag".to_owned(),
        "docs/a.md".to_owned(),
        "/abs/./b.md".to_owned(),
        "-x".to_owned(),
    ];
    assert_eq!(
        candidate_files(args, Some("/home/u".to_owned())),
        vec!["/home/u/docs/a.md".to_owned(), "/abs/b.md".to_owned()]
    );
    assert_eq!(candidate_files(vec!["-v".to_owned()], None), Vec::<String>::new());
}

#[test]
fn unicode_whitespace_counts_as_empty() {
    assert_eq!(to_abs("\u{3000}\u{00A0}\n"), Err("パスが空です".to_owned()));
    assert_eq!(check_external_url("\u{2003}https://a.b\u{205F}"), Ok("https://a.b".to_owned()));
}

#[test]
fn failed_normalizations_are_dropped() {
    let outcomes = vec![
        Ok("/a.md".to_owned()),
        Err("bad".to_owned()),
        Ok("/b.md".to_owned()),
    ];
    assert_eq!(keep_resolved(outcomes), vec!["/a.md".to_owned(), "/b.md".to_owned()]);
    assert_eq!(keep_resolved(Vec::new()), Vec::<String>::new());
}

#[test]
fn link_paths_before_normalization() {
    assert_eq!(link_join("/d", "other.md#sec"), Some("/d/other.md".to_owned()));
    assert_eq!(link_join("/d/", "./x%20y.md?q=1"), Some("/d/./x y.md".to_owned()));
    assert_eq!(link_join("/d", "/abs.md"), Some("/abs.md".to_owned()));
    assert_eq!(link_join("/d", "#top"), None);
}

#[test]
fn markdown_targets() {
    assert_eq!(markdown_target(Ok("/d/a.MD".to_owned())), Some("/d/a.MD".to_owned()));
    assert_eq!(markdown_target(Ok("/d/pic.png".to_owned())), None);
    assert_eq!(markdown_target(Err("no cwd".to_owned())), None);
}

#[test]
fn command_line_paths_keep_order() {
    let args = vec!["-x".to_owned(), "a.md".to_owned(), "/b.md".to_owned()];
    assert_eq!(
        command_line_paths(&args, &Some("/home".to_owned())),
        vec!["/home/a.md".to_owned(), "/b.md".to_owned()]
    );
    assert_eq!(command_line_paths(&args, &None), vec!["a.md".to_owned(), "/b.md".to_owned()]);
}
