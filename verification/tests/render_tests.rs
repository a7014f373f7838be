use markdown_viewer::render::{render, slugify};

#[test]
fn heading_gets_slug_id() {
    let html = render("# Hello World\n\n## 日本語 見出し!");
    assert!(html.contains(r#"<h1 id="hello-world">"#), "{html}");
    assert!(html.contains(r#"<h2 id="日本語-見出し">"#), "{html}");
}

#[test]
fn duplicate_headings_are_deduplicated() {
    let html = render("# A\n\n# A\n\n# A");
    assert!(html.contains(r#"id="a""#));
    assert!(html.contains(r#"id="a-1""#));
    assert!(html.contains(r#"id="a-2""#));
}

#[test]
fn explicit_heading_id_is_kept() {
    let html = render("# Title {#custom}");
    assert!(html.contains(r#"<h1 id="custom">"#), "{html}");
}

#[test]
fn script_blocks_are_escaped() {
    let html = render("text\n\n<script>alert(1)</script>\n\nmore <script>x()</script> inline");
    assert!(!html.contains("<script"), "{html}");
    assert!(html.contains("&lt;script&gt;"), "{html}");
}

#[test]
fn harmless_html_passes_through() {
    let html = render("a <br> b\n\n<details><summary>s</summary>body</details>");
    assert!(html.contains("<br>"));
    assert!(html.contains("<details>"));
}

#[test]
fn gfm_features_render() {
    let html = render(
        "| a | b |\n|---|---|\n| 1 | 2 |\n\n- [x] done\n- [ ] todo\n\n~~del~~\n\n> [!NOTE]\n> note body",
    );
    assert!(html.contains("<table>"));
    assert!(html.contains(r#"type="checkbox""#));
    assert!(html.contains("<del>"));
    assert!(html.contains(r#"<blockquote class="markdown-alert-note">"#), "{html}");
}

#[test]
fn superscript_and_subscript_between_words() {
    let html = render("a ^x^ b ~y~ c");
    assert!(html.contains("<sup>x</sup>"), "{html}");
    assert!(html.contains("<sub>y</sub>"), "{html}");
}

#[test]
fn slugify_examples() {
    assert_eq!(slugify("  Hello,  World! "), "hello--world");
    assert_eq!(slugify("C# & .NET"), "c--net");
    assert_eq!(slugify("***"), "section");
}

#[test]
fn ascii_slugs_are_stable() {
    for text in ["Hello, World!", "  C# & .NET ", "***", "a_b-c 9"] {
        let once = slugify(text);
        assert!(once.chars().all(|c| c.is_ascii_lowercase() || c.is_ascii_digit() || c == '_' || c == '-'));
        assert_eq!(slugify(&once), once);
    }
}
