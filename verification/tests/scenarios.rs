use findclone::entry::FileEntry;
use findclone::report::report_line;
use findclone::scan::{find_duplicates, ConfirmedPair, ScanError, StoredFile};

fn stored(path: &str, content: &[u8]) -> StoredFile {
    StoredFile {
        entry: FileEntry::new(path.to_string(), content.len() as u64),
        content: Some(content.to_vec()),
    }
}

fn vanished(path: &str, size: u64) -> StoredFile {
    StoredFile { entry: FileEntry::new(path.to_string(), size), content: None }
}

fn lines(files: &Vec<StoredFile>, pairs: &Vec<ConfirmedPair>) -> Vec<String> {
    let mut out = Vec::new();
    for pair in pairs {
        out.push(report_line(&files[pair.first].entry, &files[pair.second].entry));
    }
    out
}

#[test]
fn two_equal_files_and_one_other_give_one_line() {
    let files = vec![stored("a.txt", b"hello"), stored("b.txt", b"hello"), stored("c.txt", b"world")];
    let pairs = find_duplicates(&files).unwrap();
    assert_eq!(pairs, vec![ConfirmedPair { first: 0, second: 1 }]);
    assert_eq!(lines(&files, &pairs), vec!["a.txt and b.txt are the same".to_string()]);
}

#[test]
fn three_equal_files_give_three_pairs() {
    let files = vec![stored("x", b"same bytes"), stored("y", b"same bytes"), stored("z", b"same bytes")];
    let pairs = find_duplicates(&files).unwrap();
    assert_eq!(
        pairs,
        vec![
            ConfirmedPair { first: 0, second: 1 },
            ConfirmedPair { first: 0, second: 2 },
            ConfirmedPair { first: 1, second: 2 },
        ]
    );
    assert_eq!(
        lines(&files, &pairs),
        vec![
            "x and y are the same".to_string(),
            "x and z are the same".to_string(),
            "y and z are the same".to_string(),
        ]
    );
}

#[test]
fn distinct_sizes_report_nothing() {
    let files = vec![stored("a", b""), stored("b", b"1"), stored("c", b"22"), stored("d", b"333")];
    assert_eq!(find_duplicates(&files), Ok(vec![]));
}

#[test]
fn files_of_a_size_of_their_own_are_never_read() {
    let files = vec![vanished("a", 1), vanished("b", 2), vanished("c", 3)];
    assert_eq!(find_duplicates(&files), Ok(vec![]));
}

#[test]
fn two_empty_files_are_the_same() {
    let files = vec![stored("empty_1", b""), stored("full", b"x"), stored("empty_2", b"")];
    let pairs = find_duplicates(&files).unwrap();
    assert_eq!(pairs, vec![ConfirmedPair { first: 0, second: 2 }]);
    assert_eq!(lines(&files, &pairs), vec!["empty_1 and empty_2 are the same".to_string()]);
}

#[test]
fn same_size_and_other_bytes_are_not_reported() {
    let files = vec![stored("a", b"hello"), stored("b", b"hellp"), stored("c", b"hello")];
    assert_eq!(find_duplicates(&files), Ok(vec![ConfirmedPair { first: 0, second: 2 }]));
}

#[test]
fn one_flipped_byte_ends_the_report() {
    let mut bytes = vec![7u8; 20000];
    let same = vec![stored("a", &bytes), stored("b", &bytes)];
    assert_eq!(find_duplicates(&same), Ok(vec![ConfirmedPair { first: 0, second: 1 }]));
    let original = bytes.clone();
    bytes[19999] ^= 1;
    let flipped = vec![stored("a", &original), stored("b", &bytes)];
    assert_eq!(find_duplicates(&flipped), Ok(vec![]));
}

#[test]
fn running_twice_gives_the_same_report() {
    let files = vec![
        stored("a", b"one"),
        stored("b", b"two"),
        stored("c", b"one"),
        stored("d", b"four"),
        stored("e", b"two"),
        stored("f", b"four"),
        stored("g", b"one"),
    ];
    let first = find_duplicates(&files);
    let second = find_duplicates(&files);
    assert_eq!(first, second);
    assert_eq!(
        first,
        Ok(vec![
            ConfirmedPair { first: 0, second: 2 },
            ConfirmedPair { first: 0, second: 6 },
            ConfirmedPair { first: 2, second: 6 },
            ConfirmedPair { first: 1, second: 4 },
            ConfirmedPair { first: 3, second: 5 },
        ])
    );
}

#[test]
fn groups_are_reported_in_the_order_of_their_size_group() {
    // sizes 2, 3, 2, 3, 2, 2: the group of size 2 is reported whole before the group of size 3
    let files = vec![
        stored("a", b"d1"),
        stored("b", b"dd2"),
        stored("c", b"d3"),
        stored("d", b"dd2"),
        stored("e", b"d3"),
        stored("f", b"d1"),
    ];
    assert_eq!(
        find_duplicates(&files),
        Ok(vec![
            ConfirmedPair { first: 0, second: 5 },
            ConfirmedPair { first: 2, second: 4 },
            ConfirmedPair { first: 1, second: 3 },
        ])
    );
}

#[test]
fn a_vanished_candidate_ends_the_run() {
    let files = vec![stored("a", b"hello"), vanished("b", 5), stored("c", b"hello")];
    assert_eq!(find_duplicates(&files), Err(ScanError { index: 1 }));
}

#[test]
fn the_first_vanished_candidate_in_reading_order_is_named() {
    // reading order follows the size groups: 0, 2, 4 (size 5), then 1, 3 (size 2)
    let files = vec![
        stored("a", b"hello"),
        vanished("b", 2),
        stored("c", b"hello"),
        stored("d", b"hi"),
        vanished("e", 5),
    ];
    assert_eq!(find_duplicates(&files), Err(ScanError { index: 4 }));
}

#[test]
fn a_vanished_file_of_a_size_of_its_own_does_not_matter() {
    let files = vec![stored("a", b"hello"), vanished("b", 99), stored("c", b"hello")];
    assert_eq!(find_duplicates(&files), Ok(vec![ConfirmedPair { first: 0, second: 2 }]));
}

#[test]
fn recorded_size_decides_the_group() {
    // the same bytes under two recorded sizes are never compared
    let files = vec![
        StoredFile { entry: FileEntry::new("a".to_string(), 5), content: Some(b"hello".to_vec()) },
        StoredFile { entry: FileEntry::new("b".to_string(), 6), content: Some(b"hello".to_vec()) },
    ];
    assert_eq!(find_duplicates(&files), Ok(vec![]));
}

#[test]
fn no_files_report_nothing() {
    assert_eq!(find_duplicates(&vec![]), Ok(vec![]));
}
