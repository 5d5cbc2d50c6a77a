use logview::{Error, EventKind, Repository};

fn name(s: &str) -> String {
    s.to_string()
}

#[test]
fn events_create_update_and_drop_entries() {
    let mut repo = Repository::new();
    repo.handle_event(EventKind::Created, name("a.log"), Some(b"one\ntwo\n"), 100);
    repo.handle_event(EventKind::Created, name("b.log"), Some(b"x"), 101);
    assert_eq!(repo.len(), 2);
    assert_eq!(repo.total(&name("a.log")), 2);
    assert_eq!(repo.total(&name("b.log")), 1);
    assert_eq!(repo.total(&name("c.log")), 0);

    repo.handle_event(EventKind::Modified, name("a.log"), Some(b"one\ntwo\nthree\n"), 200);
    assert_eq!(repo.total(&name("a.log")), 3);
    let list = repo.list();
    let a = list.iter().find(|f| f.name == "a.log").unwrap();
    assert_eq!((a.last_update, a.number_of_lines), (200, 3));

    // unreadable content changes nothing
    repo.handle_event(EventKind::Modified, name("a.log"), None, 300);
    repo.handle_event(EventKind::Created, name("c.log"), None, 300);
    assert_eq!(repo.len(), 2);
    assert_eq!(repo.list().iter().find(|f| f.name == "a.log").unwrap().last_update, 200);

    repo.handle_event(EventKind::Removed, name("b.log"), None, 400);
    assert_eq!(repo.len(), 1);
    assert_eq!(repo.total(&name("b.log")), 0);
}

#[test]
fn modification_of_rewritten_file_is_refused() {
    let mut repo = Repository::new();
    repo.created(name("a.log"), b"aaa\nbbb\n", 1);
    assert_eq!(repo.modified(&name("a.log"), b"zzzzzzzz", 2), Some(Err(Error::InconsistentIndex(1))));
    assert_eq!(repo.list()[0].last_update, 1);
    assert_eq!(repo.modified(&name("nope"), b"", 2), None);
    assert_eq!(repo.modified(&name("a.log"), b"aaa\nbbb\nccc\n", 3), Some(Ok(1)));
    // a new creation replaces the entry
    repo.created(name("a.log"), b"fresh", 4);
    assert_eq!(repo.len(), 1);
    assert_eq!(repo.total(&name("a.log")), 1);
    assert!(repo.removed(&name("a.log")));
    assert!(!repo.removed(&name("a.log")));
}

#[test]
fn lines_serve_cache_and_report_gaps() {
    let file = b"l0\nl1\nl2\nl3\n".to_vec();
    let mut repo = Repository::new();
    repo.created(name("f"), &file, 0);
    let (lines, missing) = repo.lines(&name("f"), 0, 3);
    assert!(lines.is_empty());
    assert!(missing);
    repo.fetch(&name("f"), &file, 1, 2);
    let (lines, missing) = repo.lines(&name("f"), 0, 4);
    assert!(lines.is_empty());
    assert!(missing);
    let (lines, missing) = repo.lines(&name("f"), 1, 4);
    assert_eq!(lines, vec![b"l1".to_vec(), b"l2".to_vec(), b"l3".to_vec()]);
    assert!(!missing);
    let (lines, missing) = repo.lines(&name("other"), 0, 4);
    assert!(lines.is_empty() && !missing);
}

#[test]
fn grown_open_line_is_fetched_again() {
    let mut repo = Repository::new();
    repo.created(name("g.log"), b"abc", 0);
    repo.fetch(&name("g.log"), b"abc", 0, 1);
    let (lines, missing) = repo.lines(&name("g.log"), 0, 1);
    assert_eq!((lines, missing), (vec![b"abc".to_vec()], false));

    assert_eq!(repo.modified(&name("g.log"), b"abcdef\n", 1), Some(Ok(0)));
    let (lines, missing) = repo.lines(&name("g.log"), 0, 1);
    assert!(lines.is_empty() && missing);
    repo.fetch(&name("g.log"), b"abcdef\n", 0, 1);
    let (lines, _) = repo.lines(&name("g.log"), 0, 1);
    assert_eq!(lines, vec![b"abcdef".to_vec()]);
}
