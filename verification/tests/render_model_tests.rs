use markdown_viewer::render::{
    assign_heading_ids, contains_script, markdown_options, neutralize_scripts, prepare_events,
    render, unique_slug, MdEvent, SlugRegistry,
};

fn heading(id: Option<&str>) -> MdEvent {
    MdEvent::HeadingStart { id: id.map(|s| s.to_owned()) }
}

fn ids(events: &[MdEvent]) -> Vec<Option<String>> {
    events
        .iter()
        .filter_map(|e| match e {
            MdEvent::HeadingStart { id } => Some(id.clone()),
            _ => None,
        })
        .collect()
}

#[test]
fn unique_slug_counts_up() {
    let mut used = SlugRegistry::new();
    assert_eq!(unique_slug(&mut used, "a".to_owned()), "a");
    assert_eq!(unique_slug(&mut used, "a".to_owned()), "a-1");
    assert_eq!(unique_slug(&mut used, "a".to_owned()), "a-2");
    assert_eq!(unique_slug(&mut used, "a-1".to_owned()), "a-1-1");
    assert_eq!(unique_slug(&mut used, "b".to_owned()), "b");
}

#[test]
fn unique_slug_skips_taken_candidates() {
    let mut used = SlugRegistry::new();
    used.insert_explicit("x-1".to_owned());
    used.insert_explicit("x-2".to_owned());
    assert_eq!(unique_slug(&mut used, "x".to_owned()), "x");
    assert_eq!(unique_slug(&mut used, "x".to_owned()), "x-3");
    assert_eq!(unique_slug(&mut used, "x".to_owned()), "x-4");
}

#[test]
fn heading_ids_follow_text_and_explicit_ids() {
    let mut events = vec![
        heading(None),
        MdEvent::Text("Intro ".to_owned()),
        MdEvent::Code("code".to_owned()),
        MdEvent::Other,
        MdEvent::HeadingEnd,
        MdEvent::Text("Intro code".to_owned()),
        heading(Some("intro-code")),
        MdEvent::Text("x".to_owned()),
        MdEvent::HeadingEnd,
        heading(None),
        MdEvent::Text("Intro code".to_owned()),
        MdEvent::HeadingEnd,
        heading(None),
        MdEvent::HeadingEnd,
    ];
    assign_heading_ids(&mut events);
    assert_eq!(
        ids(&events),
        vec![
            Some("intro-code".to_owned()),
            Some("intro-code".to_owned()),
            Some("intro-code-1".to_owned()),
            Some("section".to_owned()),
        ]
    );
    assert!(matches!(&events[5], MdEvent::Text(t) if t == "Intro code"));
}

#[test]
fn unterminated_heading_takes_the_rest() {
    let mut events = vec![heading(None), MdEvent::Text("A b".to_owned())];
    assign_heading_ids(&mut events);
    assert_eq!(ids(&events), vec![Some("a-b".to_owned())]);
}

#[test]
fn scripts_are_detected_without_case() {
    assert!(contains_script("<SCRIPT>"));
    assert!(contains_script("x<ScRiPt src=a>"));
    assert!(!contains_script("<scrip t>"));
    assert!(!contains_script("<scrip"));
    assert!(!contains_script("<ſcript>"));
}

#[test]
fn only_script_html_is_neutralized() {
    let mut events = vec![
        MdEvent::Html("<script>x</script>".to_owned()),
        MdEvent::InlineHtml("<b>".to_owned()),
        MdEvent::InlineHtml("<Script>".to_owned()),
        MdEvent::Text("<script>".to_owned()),
    ];
    neutralize_scripts(&mut events);
    assert!(matches!(&events[0], MdEvent::Text(t) if t == "<script>x</script>"));
    assert!(matches!(&events[1], MdEvent::InlineHtml(t) if t == "<b>"));
    assert!(matches!(&events[2], MdEvent::Text(t) if t == "<Script>"));
    assert!(matches!(&events[3], MdEvent::Text(t) if t == "<script>"));
}

#[test]
fn prepared_events_combine_both_rules() {
    let mut events = vec![
        heading(None),
        MdEvent::Text("<script>".to_owned()),
        MdEvent::HeadingEnd,
        MdEvent::Html("<script>".to_owned()),
    ];
    prepare_events(&mut events);
    assert_eq!(ids(&events), vec![Some("script".to_owned())]);
    assert!(matches!(&events[3], MdEvent::Text(_)));
}

#[test]
fn option_bits() {
    assert_eq!(markdown_options(), 2 + 4 + 8 + 16 + 64 + 128 + 2048 + 4096 + 8192 + 16384);
}

#[test]
fn rendered_ids_are_fresh() {
    let html = render("# a-1\n\n# a\n\n# a\n\n## Title {#a}\n\n# a");
    assert!(html.contains(r#"<h1 id="a-1">"#), "{html}");
    assert!(html.contains(r#"<h1 id="a">"#), "{html}");
    assert!(html.contains(r#"<h1 id="a-2">"#), "{html}");
    assert!(html.contains(r#"<h2 id="a">"#), "{html}");
    assert!(html.contains(r#"<h1 id="a-3">"#), "{html}");
}

#[test]
fn inline_code_in_headings_counts() {
    let html = render("# Use `cargo test` now");
    assert!(html.contains(r#"id="use-cargo-test-now""#), "{html}");
}
