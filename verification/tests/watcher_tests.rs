use markdown_viewer::watcher::{Debouncer, WatchRegistry, BUSY_WAIT_MS, IDLE_WAIT_MS};

#[test]
fn debounce_waits_for_quiet() {
    let mut d = Debouncer::new();
    assert_eq!(d.wait_ms(), IDLE_WAIT_MS);
    d.record("/a.md".to_owned(), 1000);
    d.record("/b.md".to_owned(), 1100);
    assert_eq!(d.wait_ms(), BUSY_WAIT_MS);
    assert!(d.take_ready(1200).is_empty());
    d.record("/a.md".to_owned(), 1250);
    assert_eq!(d.take_ready(1400), vec!["/b.md".to_owned()]);
    assert!(d.take_ready(1549).is_empty());
    assert_eq!(d.take_ready(1550), vec!["/a.md".to_owned()]);
    assert_eq!(d.wait_ms(), IDLE_WAIT_MS);
}

#[test]
fn clock_going_back_is_not_ready() {
    let mut d = Debouncer::new();
    d.record("/a.md".to_owned(), 5000);
    assert!(d.take_ready(100).is_empty());
    assert_eq!(d.take_ready(5300), vec!["/a.md".to_owned()]);
}

#[test]
fn folders_are_watched_while_documents_are() {
    let mut w = WatchRegistry::new();
    let start = w.watch("/docs/a.md").expect("folder starts");
    assert_eq!(start.dir, "/docs");
    assert_eq!(start.dir_key, "/docs");
    w.started(&start.dir_key);
    assert!(w.watch("/docs/b.md").is_none());
    assert_eq!(
        w.changed_documents(false, &vec!["/docs/b.md".to_owned(), "/docs/c.md".to_owned(), "/docs/a.md".to_owned()]),
        vec!["/docs/b.md".to_owned(), "/docs/a.md".to_owned()]
    );
    assert!(w.changed_documents(true, &vec!["/docs/a.md".to_owned()]).is_empty());
    assert_eq!(w.unwatch("/docs/a.md"), None);
    assert_eq!(w.unwatch("/docs/b.md"), Some("/docs".to_owned()));
    assert!(w.changed_documents(false, &vec!["/docs/a.md".to_owned()]).is_empty());
}

#[test]
fn failed_start_is_retried() {
    let mut w = WatchRegistry::new();
    assert!(w.watch("/x/a.md").is_some());
    // the folder never started, so the next document asks again
    assert!(w.watch("/x/b.md").is_some());
}
