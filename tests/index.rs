use logview::lines::split_lines;
use logview::{Error, IndexConsistency, LineIndexReader};

// 12 bytes per line ("Line 000000\n"), so under 100K lines
const SMALL_FILE_LINES: u32 = 9_565;
// 12 bytes per line, so over 100K lines
const LARGE_FILE_LINES: u32 = 123_456;

fn lines_eol(n: u32) -> Vec<u8> {
    let mut f = Vec::new();
    for i in 0..n {
        f.extend_from_slice(format!("Line {i:06}\n").as_bytes());
    }
    f
}

fn empty() -> Vec<u8> {
    Vec::new()
}

fn one_line_eol() -> Vec<u8> {
    b"Line 000000\n".to_vec()
}

fn one_line() -> Vec<u8> {
    b"Line 000000".to_vec()
}

fn small_file_eol() -> Vec<u8> {
    lines_eol(SMALL_FILE_LINES)
}

fn small_file() -> Vec<u8> {
    let mut f = lines_eol(SMALL_FILE_LINES - 1);
    f.extend_from_slice(format!("Line {:06}", SMALL_FILE_LINES - 1).as_bytes());
    f
}

fn large_with_eof() -> Vec<u8> {
    lines_eol(LARGE_FILE_LINES)
}

fn text(line: &[u8]) -> &str {
    std::str::from_utf8(line).unwrap()
}

#[test]
fn index() {
    let cases: Vec<(Vec<u8>, u32)> = vec![
        (empty(), 0),
        (one_line_eol(), 1),
        (one_line(), 1),
        (small_file(), SMALL_FILE_LINES),
        (small_file_eol(), SMALL_FILE_LINES),
        (large_with_eof(), LARGE_FILE_LINES),
    ];
    for (file, expected_len) in cases {
        let index = LineIndexReader::index(&file);
        assert_eq!(index.len(), expected_len);
    }
}

#[test]
fn read_single_line() {
    let file = small_file();
    let index = LineIndexReader::index(&file);
    let cases: Vec<(u32, Option<&str>)> = vec![
        (0, Some("Line 000000")),
        (SMALL_FILE_LINES / 2, Some("Line 004782")),
        (SMALL_FILE_LINES - 1, Some("Line 009564")),
        (SMALL_FILE_LINES, None),
        (SMALL_FILE_LINES + 1, None),
        (SMALL_FILE_LINES + 10, None),
    ];
    for (line, expected) in cases {
        let got = index.line(&file, line);
        assert_eq!(expected, got.as_deref().map(text));
    }
}

#[test]
fn read_many_lines() {
    let file = small_file_eol();
    let index = LineIndexReader::index(&file);
    let cases: Vec<(u32, u32, usize)> = vec![
        (0, 10, 11 * 10),
        (0, 10, 11 * 10),
        (SMALL_FILE_LINES / 3, SMALL_FILE_LINES / 2, 11 * 1_594),
        (SMALL_FILE_LINES - 10, SMALL_FILE_LINES, 11 * 10),
        (SMALL_FILE_LINES - 10, u32::MAX, 11 * 10),
        (SMALL_FILE_LINES, u32::MAX, 0),
        (0, u32::MAX, 11 * SMALL_FILE_LINES as usize),
    ];
    for (start, end, expected_size) in cases {
        let lines = index.lines(&file, start, end);
        assert_eq!(lines.iter().map(Vec::len).sum::<usize>(), expected_size);
    }
}

#[test]
fn update() {
    for new_lines in [0u32, 1, 9] {
        let mut file = one_line();
        let mut index = LineIndexReader::index(&file);
        assert_eq!(1, index.len());

        for i in 1..=new_lines {
            file.extend_from_slice(format!("\nLine {i:06}").as_bytes());
        }

        assert_eq!(Ok(new_lines), index.update(&file));
        assert_eq!(1 + new_lines, index.len());
    }
}

#[test]
fn consistency() {
    for file in [empty(), one_line(), one_line_eol(), small_file(), small_file_eol()] {
        let index = LineIndexReader::index(&file);
        assert!(index.consistency(&file).is_consistent());
    }
}

#[test]
fn consistency_on_truncated() {
    let mut file = lines_eol(10);
    let index = LineIndexReader::index(&file);

    file.truncate(11 * 5);

    assert_eq!(Some(5), index.consistency(&file).into_inconsistent());
}

#[test]
fn consistency_on_appended() {
    let mut file = lines_eol(10);
    let index = LineIndexReader::index(&file);

    for i in 10..15 {
        file.extend_from_slice(format!("Line {i:06}\n").as_bytes());
    }

    assert!(index.consistency(&file).is_consistent());
}

#[test]
fn terminated_and_open_lines_counted() {
    for n in [0u32, 1, 2, 7] {
        assert_eq!(LineIndexReader::index(&lines_eol(n)).len(), n);
        let mut open = lines_eol(n);
        open.extend_from_slice(b"partial");
        assert_eq!(LineIndexReader::index(&open).len(), n + 1);
    }
    assert_eq!(LineIndexReader::index(b"\n\n\n").len(), 3);
}

#[test]
fn update_without_writes_adds_nothing() {
    let file = b"one\ntwo\nthree".to_vec();
    let mut index = LineIndexReader::index(&file);
    assert_eq!(index.len(), 3);
    assert_eq!(index.update(&file), Ok(0));
    assert_eq!(index.len(), 3);
    assert_eq!(index.byte_range(2, 3), Some((8, None)));
}

#[test]
fn update_confirms_open_line_and_extends() {
    let mut file = b"one\ntw".to_vec();
    let mut index = LineIndexReader::index(&file);
    file.extend_from_slice(b"o\nthree\n");
    assert_eq!(index.update(&file), Ok(1));
    assert_eq!(index.len(), 3);
    assert_eq!(index.line(&file, 1).as_deref().map(text), Some("two"));
    assert_eq!(index.line(&file, 2).as_deref().map(text), Some("three"));
}

#[test]
fn update_on_empty_index_takes_every_line() {
    let mut file = Vec::new();
    let mut index = LineIndexReader::index(&file);
    assert!(index.is_empty());
    file.extend_from_slice(b"a\nb\n");
    assert_eq!(index.update(&file), Ok(2));
    assert_eq!(index.byte_range(0, 2), Some((0, None)));
    assert_eq!(index.byte_range(0, 1), Some((0, Some(2))));
}

#[test]
fn appending_terminated_lines_adds_that_many() {
    let mut file = lines_eol(4);
    let mut index = LineIndexReader::index(&file);
    for m in [0u32, 1, 5] {
        let before = index.len();
        for i in 0..m {
            file.extend_from_slice(format!("new {i}\n").as_bytes());
        }
        assert_eq!(index.update(&file), Ok(m));
        assert_eq!(index.len(), before + m);
        assert!(index.consistency(&file).is_consistent());
    }
    let rebuilt = LineIndexReader::index(&file);
    assert_eq!(rebuilt.len(), index.len());
    assert_eq!(rebuilt.byte_range(3, 9), index.byte_range(3, 9));
}

#[test]
fn update_refuses_rewritten_file() {
    let file = lines_eol(10);
    let mut index = LineIndexReader::index(&file);
    let mut rewritten = file.clone();
    rewritten[11] = b'x';
    assert_eq!(index.update(&rewritten), Err(Error::InconsistentIndex(1)));
    assert_eq!(index.len(), 10);
    let truncated = file[..30].to_vec();
    assert_eq!(index.update(&truncated), Err(Error::InconsistentIndex(3)));
    assert_eq!(
        index.consistency(&truncated),
        IndexConsistency::Inconsistent(3)
    );
}

#[test]
fn truncation_reports_first_cut_line() {
    let file = lines_eol(10);
    let index = LineIndexReader::index(&file);
    assert_eq!(
        index.consistency(&file[..60]),
        IndexConsistency::Inconsistent(6)
    );
    assert_eq!(
        index.consistency(&file[..59]),
        IndexConsistency::Inconsistent(5)
    );
    assert_eq!(
        index.consistency(&file[..0]),
        IndexConsistency::Inconsistent(1)
    );
}

#[test]
fn range_length_is_clamped() {
    let file = lines_eol(10);
    let index = LineIndexReader::index(&file);
    let cases: Vec<(u32, u32, usize)> = vec![
        (0, 10, 10),
        (3, 7, 4),
        (8, 20, 2),
        (10, 20, 0),
        (12, 20, 0),
        (5, 5, 0),
        (7, 3, 0),
        (0, u32::MAX, 10),
    ];
    for (a, b, n) in cases {
        assert_eq!(index.lines(&file, a, b).len(), n);
    }
    let got = index.lines(&file, 3, 5);
    assert_eq!(text(&got[0]), "Line 000003");
    assert_eq!(text(&got[1]), "Line 000004");
}

#[test]
fn empty_file_has_no_lines() {
    let file = empty();
    let index = LineIndexReader::index(&file);
    assert_eq!(index.len(), 0);
    assert!(index.is_empty());
    assert!(index.lines(&file, 0, u32::MAX).is_empty());
    assert_eq!(index.line(&file, 0), None);
    assert_eq!(index.byte_range(0, 1), None);
}

#[test]
fn split_drops_terminators() {
    let got = split_lines(b"a\r\nb\n\nc\r");
    let want: Vec<Vec<u8>> = vec![b"a".to_vec(), b"b".to_vec(), b"".to_vec(), b"c\r".to_vec()];
    assert_eq!(got, want);
    assert!(split_lines(b"").is_empty());
    assert_eq!(split_lines(b"\n"), vec![Vec::<u8>::new()]);
}
