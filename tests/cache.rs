use logview::{LineCache, LineIndexReader};

fn text(line: &[u8]) -> &str {
    std::str::from_utf8(line).unwrap()
}

#[test]
fn test_empty_file() {
    let file: Vec<u8> = Vec::new();
    let reader = LineIndexReader::index(&file);
    let mut cache = LineCache::new();

    assert!(cache.lines(&reader, &file, 0, u32::MAX).is_empty());
    assert!(cache.line(&reader, &file, 0).is_none());
}

#[test]
fn test_non_empty_file() {
    let mut file = Vec::new();
    for i in 0..10 {
        file.extend_from_slice(format!("Line {i:03}\n").as_bytes());
    }

    let reader = LineIndexReader::index(&file);
    assert_eq!(reader.len(), 10);

    let mut cache = LineCache::new();

    assert_eq!(cache.lines(&reader, &file, 0, u32::MAX).len(), 10);
    assert_eq!(
        text(&cache.line(&reader, &file, 0).expect("should return first line")),
        "Line 000"
    );
    assert_eq!(
        text(&cache.line(&reader, &file, 9).expect("should return last line")),
        "Line 009"
    );
    assert!(cache.line(&reader, &file, 10).is_none());
}

#[test]
fn line_misses_fetch_one_line() {
    let file = b"zero\none\ntwo\n".to_vec();
    let reader = LineIndexReader::index(&file);
    let mut cache = LineCache::new();
    assert_eq!(cache.line(&reader, &file, 1).as_deref().map(text), Some("one"));
    // the read-ahead window cached the following lines too
    assert!(cache.contains(2));
    assert!(!cache.contains(0));
    assert_eq!(cache.line(&reader, &file, 3), None);
}

#[test]
fn cached_line_is_served_without_reading() {
    let file = b"first\nsecond\n".to_vec();
    let reader = LineIndexReader::index(&file);
    let mut cache = LineCache::new();
    let fetched = cache.lines(&reader, &file, 0, 1);
    assert_eq!(fetched.len(), 1);
    assert_eq!(cache.lookup(0, 1).fetch, None);
    // an empty file stands in for the reader: a read would find nothing
    let nothing: Vec<u8> = Vec::new();
    let again = cache.line(&reader, &nothing, 0).expect("cached");
    assert_eq!(again, fetched[0]);
    assert_eq!(text(&again), "first");
}

#[test]
fn eviction_drops_least_recently_used() {
    let file = b"aaaa\nbbbb\ncccc\ndddd\n".to_vec();
    let reader = LineIndexReader::index(&file);
    let mut cache = LineCache::with_capacity(12);
    let got = cache.lines(&reader, &file, 0, 1);
    assert_eq!(got, vec![b"aaaa".to_vec()]);
    assert!(!cache.contains(0));
    assert!(cache.contains(1) && cache.contains(2) && cache.contains(3));
    assert_eq!(cache.weight(), 12);

    // reading line 1 makes line 2 the least recently used
    assert_eq!(cache.line(&reader, &file, 1).as_deref().map(text), Some("bbbb"));
    let stored = cache.fill(0, 1, vec![b"aaaa".to_vec()], 1);
    assert_eq!(stored, vec![b"aaaa".to_vec()]);
    assert!(cache.contains(0) && cache.contains(1) && cache.contains(3));
    assert!(!cache.contains(2));
    assert_eq!(cache.weight(), 12);
}

#[test]
fn weight_never_exceeds_budget() {
    let mut file = Vec::new();
    for i in 0..200 {
        file.extend_from_slice(format!("{}\n", "x".repeat(i % 17)).as_bytes());
    }
    let reader = LineIndexReader::index(&file);
    let mut cache = LineCache::with_capacity(40);
    for start in 0..200u32 {
        let _ = cache.lines(&reader, &file, start, start + 3);
        assert!(cache.weight() <= 40);
    }
    // an empty line weighs 1
    let mut small = LineCache::with_capacity(1);
    let empty_line = b"\n".to_vec();
    let r = LineIndexReader::index(&empty_line);
    assert_eq!(small.lines(&r, &empty_line, 0, 1), vec![Vec::<u8>::new()]);
    assert_eq!(small.weight(), 1);
    // a line heavier than the budget is not kept
    let mut tiny = LineCache::with_capacity(2);
    let heavy = b"abc\n".to_vec();
    let r = LineIndexReader::index(&heavy);
    assert_eq!(tiny.lines(&r, &heavy, 0, 1), vec![b"abc".to_vec()]);
    assert_eq!(tiny.weight(), 0);
    assert_eq!(tiny.cached_len(), 0);
}

#[test]
fn lines_opt_without_population_is_all_none() {
    let mut cache = LineCache::new();
    let got = cache.lines_opt(0, 5);
    assert_eq!(got.len(), 5);
    assert!(got.iter().all(Option::is_none));
    assert_eq!(cache.cached_len(), 0);
}

#[test]
fn lines_opt_reports_cached_entries() {
    let file = b"l0\nl1\nl2\nl3\n".to_vec();
    let reader = LineIndexReader::index(&file);
    let mut cache = LineCache::with_capacity(4);
    let _ = cache.lines(&reader, &file, 2, 3);
    let got = cache.lines_opt(0, 4);
    assert_eq!(got, vec![None, None, Some(b"l2".to_vec()), Some(b"l3".to_vec())]);
}

#[test]
fn prefetch_window_extends_past_request() {
    let mut cache = LineCache::new();
    let found = cache.lookup(5, 8);
    assert!(found.hits.is_empty());
    assert_eq!(found.fetch, Some((5, 38)));
    assert_eq!(cache.lookup(0, 1000).fetch, Some((0, 3048)));
    assert_eq!(cache.lookup(10, u32::MAX).fetch, Some((10, u32::MAX)));
    assert_eq!(cache.lookup(4, 4).fetch, None);
}

#[test]
fn hits_then_fetch_are_concatenated() {
    let mut file = Vec::new();
    for i in 0..30 {
        file.extend_from_slice(format!("r{i}\n").as_bytes());
    }
    let reader = LineIndexReader::index(&file);
    let mut cache = LineCache::new();
    let first = cache.lines(&reader, &file, 0, 2);
    assert_eq!(first.len(), 2);
    // 0..22 are cached now; 20..25 is partly cached
    let found = cache.lookup(20, 25);
    assert_eq!(found.hits.len(), 2);
    assert_eq!(found.fetch, Some((22, 75)));
    let got = cache.lines(&reader, &file, 20, 25);
    let want: Vec<Vec<u8>> = (20..25).map(|i| format!("r{i}").into_bytes()).collect();
    assert_eq!(got, want);
}

#[test]
fn fill_stores_within_window() {
    let mut cache = LineCache::new();
    let fetched = vec![b"a".to_vec(), b"b".to_vec(), b"c".to_vec()];
    let got = cache.fill(7, 9, fetched, 1);
    assert_eq!(got, vec![b"a".to_vec()]);
    assert!(cache.contains(7) && cache.contains(8));
    assert!(!cache.contains(9));
}

#[test]
fn invalidated_line_is_fetched_again() {
    let file = b"old".to_vec();
    let reader = LineIndexReader::index(&file);
    let mut cache = LineCache::new();
    assert_eq!(cache.line(&reader, &file, 0), Some(b"old".to_vec()));
    cache.invalidate(0);
    assert!(!cache.contains(0));
    assert_eq!(cache.weight(), 0);
    let grown = b"older".to_vec();
    assert_eq!(cache.line(&reader, &grown, 0), Some(b"older".to_vec()));
}
