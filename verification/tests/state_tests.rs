use markdown_viewer::paths::PathPart;
use markdown_viewer::state::{dir_key, lexical_path, normalize_path, path_key, AppState};

const DIR: &str = "/tmp/mdv2-state-test";
const DOC: &str = "/tmp/mdv2-state-test/doc.md";

#[test]
fn allows_only_files_under_open_document_dirs() {
    let doc = normalize_path(DOC).unwrap();
    let dir = DIR;
    let mut state = AppState::new(Vec::new());
    assert!(!state.is_allowed(&format!("{dir}/img.png")));

    state.register(&doc);
    assert!(state.is_allowed(&format!("{dir}/img.png")));
    assert!(state.is_allowed(&format!("{dir}/sub/deep.png")));
    assert!(!state.is_allowed("/tmp/outside.png"));
    assert!(!state.is_allowed(&format!("{dir}-evil/x.png")));

    state.unregister(&doc);
    assert!(!state.is_allowed(&format!("{dir}/img.png")));
}

#[test]
fn register_is_idempotent() {
    let doc = normalize_path(DOC).unwrap();
    let mut state = AppState::new(Vec::new());
    state.register(&doc);
    state.register(&doc);
    assert_eq!(state.allowed_dir_counts().iter().map(|(_, c)| *c).sum::<usize>(), 1);
    state.unregister(&doc);
    assert!(state.allowed_dir_counts().is_empty());
}

#[test]
fn normalize_resolves_parent_components() {
    let sneaky = format!("{DIR}/sub/../../secret.txt");
    let normalized = normalize_path(&sneaky).unwrap();
    assert_eq!(normalized, "/tmp/secret.txt");
}

#[test]
fn register_reports_new_documents() {
    let mut state = AppState::new(Vec::new());
    assert!(state.register("/a/x.md"));
    assert!(!state.register("/a/x.md"));
    assert!(state.register("/a/y.md"));
    assert_eq!(state.allowed_dir_counts(), vec![("/a".to_owned(), 2)]);
    assert!(state.unregister("/a/x.md"));
    assert!(!state.unregister("/a/x.md"));
    assert_eq!(state.allowed_dir_counts(), vec![("/a".to_owned(), 1)]);
    assert!(state.is_allowed("/a/img.png"));
    assert!(!state.is_allowed("/a"));
    assert!(state.unregister("/a/y.md"));
    assert!(!state.is_allowed("/a/img.png"));
}

#[test]
fn root_documents_allow_the_whole_root() {
    let mut state = AppState::new(Vec::new());
    state.register("/top.md");
    assert_eq!(state.allowed_dir_counts(), vec![("".to_owned(), 1)]);
    assert!(state.is_allowed("/etc/x.png"));
}

#[test]
fn keys_and_normalization() {
    assert_eq!(path_key("/A/b.md"), "/A/b.md");
    assert_eq!(dir_key("/A/b///"), "/A/b");
    assert_eq!(dir_key("/"), "");
    assert_eq!(normalize_path("/a/./b/.././c").unwrap(), "/a/c");
    assert_eq!(normalize_path("/../..").unwrap(), "/");
    assert!(normalize_path("").is_err());
}

#[test]
fn startup_files_are_handed_over_once() {
    let mut state = AppState::new(vec!["/a.md".to_owned()]);
    assert_eq!(state.deliver_files(vec!["/b.md".to_owned()]), None);
    assert_eq!(state.deliver_files(Vec::new()), None);
    assert_eq!(state.take_startup_files(), vec!["/a.md".to_owned(), "/b.md".to_owned()]);
    assert_eq!(state.take_startup_files(), Vec::<String>::new());
    assert_eq!(state.deliver_files(vec!["/c.md".to_owned()]), Some(vec!["/c.md".to_owned()]));
    assert_eq!(state.deliver_files(Vec::new()), None);
}

#[test]
fn lexical_resolution_of_parts() {
    let parts = vec![
        PathPart::Root,
        PathPart::Normal("tmp".to_owned()),
        PathPart::Normal("x".to_owned()),
        PathPart::CurDir,
        PathPart::ParentDir,
        PathPart::Normal("secret.txt".to_owned()),
    ];
    assert_eq!(lexical_path(&parts, '/'), "/tmp/secret.txt");
    assert_eq!(lexical_path(&parts, '\\'), "\\tmp\\secret.txt");
}

#[test]
fn normalization_never_climbs_above_the_root() {
    assert_eq!(normalize_path("/a/../..").unwrap(), "/");
    assert_eq!(normalize_path("/a/./b/").unwrap(), "/a/b");
}
