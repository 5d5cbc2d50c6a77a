use logview::monitor::{event_handler, event_kind};
use logview::{Change, EventKind, FileTabsState, Scroll};

#[test]
fn watcher_changes_map_to_events() {
    assert_eq!(event_kind(Change::Access), None);
    assert_eq!(event_kind(Change::CreateFile), Some(EventKind::Created));
    assert_eq!(event_kind(Change::CreateOther), None);
    assert_eq!(event_kind(Change::Modify), Some(EventKind::Modified));
    assert_eq!(event_kind(Change::RemoveFile), Some(EventKind::Removed));
    assert_eq!(event_kind(Change::RemoveOther), None);
    assert_eq!(event_kind(Change::Other), None);
    let ev = event_handler("/var/log/a.log".to_string(), Change::Modify).unwrap();
    assert_eq!(ev.path, "/var/log/a.log");
    assert_eq!(ev.kind, EventKind::Modified);
    assert!(event_handler("x".to_string(), Change::Access).is_none());
}

#[test]
fn tabs_select() {
    let mut tabs = FileTabsState::new(vec!["a.log".to_string(), "b.log".to_string()]);
    assert_eq!(tabs.selected(), 0);
    assert_eq!(tabs.len(), 2);
    tabs.select(1);
    assert_eq!(tabs.selected(), 1);
}

#[test]
fn scroll_stays_in_file() {
    let mut s = Scroll::new(100);
    s.up(1);
    assert_eq!(s.offset, 0);
    s.down(1, 20);
    assert_eq!(s.offset, 1);
    s.down(200, 20);
    assert_eq!(s.offset, 80);
    assert_eq!(s.visible(20), (80, 100));
    s.up(30);
    assert_eq!(s.offset, 50);
    assert_eq!(s.visible(1000), (50, 100));
    let mut short = Scroll::new(5);
    short.down(3, 20);
    assert_eq!(short.offset, 0);
    let mut far = Scroll { offset: u32::MAX - 1, total: u32::MAX };
    far.down(10, 0);
    assert_eq!(far.offset, u32::MAX);
    assert_eq!(far.visible(10), (u32::MAX, u32::MAX));
}
