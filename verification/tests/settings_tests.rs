use markdown_viewer::settings::{clamp_zoom, settings_from, Settings, ZOOM_MAX, ZOOM_MIN};

#[test]
fn defaults() {
    let s = Settings::default();
    assert_eq!(s.theme, "light");
    assert_eq!(s.zoom, 100);
}

#[test]
fn zoom_is_clamped() {
    assert_eq!(clamp_zoom(10), ZOOM_MIN);
    assert_eq!(clamp_zoom(1000), ZOOM_MAX);
    assert_eq!(clamp_zoom(125), 125);
    let s = settings_from(Some(Settings { theme: "dark".to_owned(), zoom: 999 }));
    assert_eq!(s.theme, "dark");
    assert_eq!(s.zoom, 300);
    let d = settings_from(None);
    assert_eq!(d.theme, "light");
    assert_eq!(d.zoom, 100);
}
