use markdown_viewer::protocol::{
    mime_for, mime_for_extension, requested_file, serve_decision, serve_normalized, ServeDecision,
};
use markdown_viewer::state::AppState;

#[test]
fn mime_detection() {
    assert_eq!(mime_for("a.PNG"), "image/png");
    assert_eq!(mime_for("a.svg"), "image/svg+xml");
    assert_eq!(mime_for("a.bin"), "application/octet-stream");
}

#[test]
fn mime_table() {
    assert_eq!(mime_for_extension("JPEG"), "image/jpeg");
    assert_eq!(mime_for_extension("jpg"), "image/jpeg");
    assert_eq!(mime_for_extension("Tif"), "image/tiff");
    assert_eq!(mime_for_extension("ico"), "image/x-icon");
    assert_eq!(mime_for_extension(""), "application/octet-stream");
    assert_eq!(mime_for("/p/noext"), "application/octet-stream");
    assert_eq!(mime_for("/p/.png"), "application/octet-stream");
}

#[test]
fn serving_requires_an_open_document() {
    let mut state = AppState::new(Vec::new());
    assert!(matches!(serve_decision(&state, "/"), ServeDecision::BadRequest));
    assert!(matches!(serve_decision(&state, "/%2Ftmp%2Fdocs%2Fa.png"), ServeDecision::Forbidden));
    state.register("/tmp/docs/readme.md");
    match serve_decision(&state, "/%2Ftmp%2Fdocs%2Fimg%2Fa%20b.PNG") {
        ServeDecision::Serve { path, mime } => {
            assert_eq!(path, "/tmp/docs/img/a b.PNG");
            assert_eq!(mime, "image/png");
        }
        _ => panic!("expected the file to be served"),
    }
    assert!(matches!(
        serve_decision(&state, "/%2Ftmp%2Fdocs%2F..%2Fsecret.txt"),
        ServeDecision::Forbidden
    ));
    assert!(matches!(serve_decision(&state, "/%2Ftmp%2Fdocs-evil%2Fx.png"), ServeDecision::Forbidden));
    assert!(matches!(serve_decision(&state, "//%2Ftmp%2Fdocs"), ServeDecision::Forbidden));
}

#[test]
fn decision_from_normalized_path() {
    let mut state = AppState::new(Vec::new());
    state.register("/docs/a.md");
    assert!(matches!(serve_normalized(&state, Err("no cwd".to_owned())), ServeDecision::BadRequest));
    assert!(matches!(serve_normalized(&state, Ok("/etc/x.png".to_owned())), ServeDecision::Forbidden));
    match serve_normalized(&state, Ok("/docs/img/x.PNG".to_owned())) {
        ServeDecision::Serve { path, mime } => {
            assert_eq!(path, "/docs/img/x.PNG");
            assert_eq!(mime, "image/png");
        }
        _ => panic!("expected the file to be served"),
    }
}

#[test]
fn request_paths_are_decoded() {
    assert_eq!(requested_file("///tmp/a%20b.png"), "tmp/a b.png");
    assert_eq!(requested_file("/%2Ftmp%2Fx.png"), "/tmp/x.png");
    assert_eq!(requested_file("/"), "");
    assert_eq!(mime_for("/docs/img/pic.JPEG"), "image/jpeg");
}
