use findclone::digest_groups::{candidate_pairs, group_by_digest, DigestGroup, HashedEntry};
use findclone::entry::FileEntry;
use findclone::report::{report_line, warning_line};
use findclone::scan::{confirm_pairs, ConfirmedPair, ScanError, StoredFile};
use findclone::size_groups::{group_by_size, hash_candidates, SizeGroup};

fn entries(sizes: &[u64]) -> Vec<FileEntry> {
    let mut out = Vec::new();
    for (i, size) in sizes.iter().enumerate() {
        out.push(FileEntry::new(format!("file{}", i), *size));
    }
    out
}

fn stored(path: &str, content: &[u8]) -> StoredFile {
    StoredFile {
        entry: FileEntry::new(path.to_string(), content.len() as u64),
        content: Some(content.to_vec()),
    }
}

#[test]
fn entry_keeps_path_and_size() {
    let entry = FileEntry::new("dir/a.txt".to_string(), 42);
    assert_eq!(entry.path, "dir/a.txt");
    assert_eq!(entry.size, 42);
}

#[test]
fn size_groups_follow_first_appearance() {
    let groups = group_by_size(&entries(&[5, 3, 5, 7, 3]));
    assert_eq!(
        groups,
        vec![
            SizeGroup { size: 5, members: vec![0, 2] },
            SizeGroup { size: 3, members: vec![1, 4] },
            SizeGroup { size: 7, members: vec![3] },
        ]
    );
}

#[test]
fn size_groups_of_nothing() {
    assert_eq!(group_by_size(&vec![]), vec![]);
    assert_eq!(hash_candidates(&vec![]), Vec::<usize>::new());
}

#[test]
fn size_groups_keep_large_sizes_apart() {
    let groups = group_by_size(&entries(&[u64::MAX, 0, u64::MAX - 1, u64::MAX, 0]));
    assert_eq!(
        groups,
        vec![
            SizeGroup { size: u64::MAX, members: vec![0, 3] },
            SizeGroup { size: 0, members: vec![1, 4] },
            SizeGroup { size: u64::MAX - 1, members: vec![2] },
        ]
    );
}

#[test]
fn only_groups_of_two_or_more_are_digested() {
    let groups = group_by_size(&entries(&[5, 3, 5, 7, 3, 5]));
    assert_eq!(hash_candidates(&groups), vec![0, 2, 5, 1, 4]);
}

#[test]
fn distinct_sizes_leave_nothing_to_digest() {
    let groups = group_by_size(&entries(&[1, 2, 3, 4]));
    assert_eq!(groups.len(), 4);
    assert_eq!(hash_candidates(&groups), Vec::<usize>::new());
}

#[test]
fn an_empty_file_is_not_grouped_with_a_full_one() {
    let groups = group_by_size(&entries(&[0, 9, 0]));
    assert_eq!(
        groups,
        vec![SizeGroup { size: 0, members: vec![0, 2] }, SizeGroup { size: 9, members: vec![1] }]
    );
    assert_eq!(hash_candidates(&groups), vec![0, 2]);
}

#[test]
fn digest_groups_follow_first_appearance() {
    let hashed = vec![
        HashedEntry::new(4, 10, "AA".to_string()),
        HashedEntry::new(7, 10, "BB".to_string()),
        HashedEntry::new(9, 10, "AA".to_string()),
        HashedEntry::new(2, 10, "CC".to_string()),
        HashedEntry::new(3, 10, "BB".to_string()),
    ];
    assert_eq!(
        group_by_digest(&hashed),
        vec![
            DigestGroup { size: 10, digest: "AA".to_string(), members: vec![4, 9] },
            DigestGroup { size: 10, digest: "BB".to_string(), members: vec![7, 3] },
            DigestGroup { size: 10, digest: "CC".to_string(), members: vec![2] },
        ]
    );
}

#[test]
fn digest_groups_are_scoped_by_size() {
    let hashed = vec![
        HashedEntry::new(0, 1, "AA".to_string()),
        HashedEntry::new(1, 2, "AA".to_string()),
        HashedEntry::new(2, 1, "AA".to_string()),
    ];
    assert_eq!(
        group_by_digest(&hashed),
        vec![
            DigestGroup { size: 1, digest: "AA".to_string(), members: vec![0, 2] },
            DigestGroup { size: 2, digest: "AA".to_string(), members: vec![1] },
        ]
    );
}

#[test]
fn digest_groups_of_nothing() {
    assert_eq!(group_by_digest(&vec![]), vec![]);
    assert_eq!(candidate_pairs(&vec![]), vec![]);
}

#[test]
fn pairs_are_listed_earlier_member_first() {
    let groups = vec![DigestGroup { size: 1, digest: "AA".to_string(), members: vec![3, 5, 8, 9] }];
    assert_eq!(candidate_pairs(&groups), vec![(3, 5), (3, 8), (3, 9), (5, 8), (5, 9), (8, 9)]);
}

#[test]
fn pairs_are_listed_group_after_group() {
    let groups = vec![
        DigestGroup { size: 1, digest: "AA".to_string(), members: vec![0, 4] },
        DigestGroup { size: 1, digest: "BB".to_string(), members: vec![1] },
        DigestGroup { size: 2, digest: "AA".to_string(), members: vec![2, 3, 5] },
    ];
    assert_eq!(candidate_pairs(&groups), vec![(0, 4), (2, 3), (2, 5), (3, 5)]);
}

#[test]
fn a_forced_collision_is_caught_by_the_comparison() {
    let files = vec![stored("a", b"hello"), stored("b", b"hellp"), stored("c", b"hello")];
    let mut listed = Vec::new();
    for file in &files {
        listed.push(FileEntry::new(file.entry.path.clone(), file.entry.size));
    }
    let candidates = hash_candidates(&group_by_size(&listed));
    assert_eq!(candidates, vec![0, 1, 2]);
    let mut hashed = Vec::new();
    for index in candidates {
        hashed.push(HashedEntry::new(index, 5, "COLLISION".to_string()));
    }
    let pairs = candidate_pairs(&group_by_digest(&hashed));
    assert_eq!(pairs, vec![(0, 1), (0, 2), (1, 2)]);
    assert_eq!(confirm_pairs(&files, &pairs), Ok(vec![ConfirmedPair { first: 0, second: 2 }]));
}

#[test]
fn confirm_keeps_the_order_of_the_pairs() {
    let files = vec![stored("a", b"x"), stored("b", b"x"), stored("c", b"y"), stored("d", b"x")];
    let pairs = vec![(1, 3), (2, 3), (0, 1), (3, 0), (2, 2)];
    assert_eq!(
        confirm_pairs(&files, &pairs),
        Ok(vec![
            ConfirmedPair { first: 1, second: 3 },
            ConfirmedPair { first: 0, second: 1 },
            ConfirmedPair { first: 3, second: 0 },
            ConfirmedPair { first: 2, second: 2 },
        ])
    );
}

#[test]
fn confirm_fails_on_the_first_file_that_cannot_be_read() {
    let files = vec![
        stored("a", b"x"),
        StoredFile { entry: FileEntry::new("b".to_string(), 1), content: None },
        StoredFile { entry: FileEntry::new("c".to_string(), 1), content: None },
    ];
    assert_eq!(confirm_pairs(&files, &vec![(0, 0), (0, 1), (2, 0)]), Err(ScanError { index: 1 }));
    assert_eq!(confirm_pairs(&files, &vec![(2, 1)]), Err(ScanError { index: 2 }));
    assert_eq!(confirm_pairs(&files, &vec![(1, 2)]), Err(ScanError { index: 1 }));
}

#[test]
fn confirm_fails_on_a_file_that_is_not_listed() {
    let files = vec![stored("a", b"x")];
    assert_eq!(confirm_pairs(&files, &vec![(0, 1)]), Err(ScanError { index: 1 }));
    assert_eq!(confirm_pairs(&files, &vec![(5, 0)]), Err(ScanError { index: 5 }));
    assert_eq!(confirm_pairs(&files, &vec![(7, 9)]), Err(ScanError { index: 7 }));
    assert_eq!(confirm_pairs(&files, &vec![]), Ok(vec![]));
}

#[test]
fn report_line_names_both_paths() {
    let first = FileEntry::new("dir/a.txt".to_string(), 5);
    let second = FileEntry::new("dir/sub/b.txt".to_string(), 5);
    assert_eq!(report_line(&first, &second), "dir/a.txt and dir/sub/b.txt are the same");
    assert_eq!(report_line(&second, &first), "dir/sub/b.txt and dir/a.txt are the same");
}

#[test]
fn warning_line_names_path_and_message() {
    assert_eq!(warning_line("dir/a.txt", "permission denied"), "Error in dir/a.txt: permission denied");
    assert_eq!(warning_line("", ""), "Error in : ");
}
