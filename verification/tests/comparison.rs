use findclone::compare::{compare_chunks, compare_files, ChunkVerdict};

fn pattern(len: usize) -> Vec<u8> {
    let mut out = Vec::with_capacity(len);
    for i in 0..len {
        out.push((i % 253) as u8);
    }
    out
}

#[test]
fn equal_files_are_the_same() {
    assert!(compare_files(b"hello", b"hello"));
    assert!(compare_files(b"", b""));
}

#[test]
fn other_bytes_are_not_the_same() {
    assert!(!compare_files(b"hello", b"world"));
    assert!(!compare_files(b"hello", b"hellp"));
    assert!(!compare_files(b"hello", b"jello"));
}

#[test]
fn other_lengths_are_not_the_same() {
    assert!(!compare_files(b"hello", b"hell"));
    assert!(!compare_files(b"hell", b"hello"));
    assert!(!compare_files(b"", b"x"));
    assert!(!compare_files(b"x", b""));
}

#[test]
fn comparison_at_the_block_boundary() {
    for len in [8191, 8192, 8193, 16383, 16384, 16385, 25000] {
        let first = pattern(len);
        let second = pattern(len);
        assert!(compare_files(&first, &second));
        for place in [0, len / 2, len - 1] {
            let mut other = pattern(len);
            other[place] ^= 0x80;
            assert!(!compare_files(&first, &other));
            assert!(!compare_files(&other, &first));
        }
        assert!(!compare_files(&first, &second[..len - 1]));
        assert!(!compare_files(&first[..len - 1], &second));
    }
}

#[test]
fn a_file_is_not_the_same_as_its_own_first_blocks() {
    let long = pattern(16384);
    assert!(!compare_files(&long, &long[..8192]));
    assert!(!compare_files(&long[..8192], &long));
    assert!(compare_files(&long[..8192], &long[..8192]));
}

#[test]
fn comparison_does_not_depend_on_the_order() {
    let samples: Vec<Vec<u8>> =
        vec![vec![], b"a".to_vec(), b"b".to_vec(), b"ab".to_vec(), pattern(9000), pattern(9001)];
    for first in &samples {
        for second in &samples {
            assert_eq!(compare_files(first, second), compare_files(second, first));
            assert_eq!(compare_files(first, second), first == second);
            assert_eq!(compare_chunks(first, second), compare_chunks(second, first));
        }
    }
}

#[test]
fn chunks_of_other_lengths_differ() {
    assert_eq!(compare_chunks(b"abc", b"ab"), ChunkVerdict::Differ);
    assert_eq!(compare_chunks(b"", b"a"), ChunkVerdict::Differ);
    assert_eq!(compare_chunks(b"a", b""), ChunkVerdict::Differ);
}

#[test]
fn two_empty_chunks_end_the_comparison() {
    assert_eq!(compare_chunks(b"", b""), ChunkVerdict::Ended);
}

#[test]
fn equal_chunks_ask_for_more() {
    assert_eq!(compare_chunks(b"abc", b"abc"), ChunkVerdict::Continue);
    assert_eq!(compare_chunks(&pattern(8192), &pattern(8192)), ChunkVerdict::Continue);
}

#[test]
fn chunks_with_another_byte_differ() {
    assert_eq!(compare_chunks(b"abc", b"abd"), ChunkVerdict::Differ);
    assert_eq!(compare_chunks(b"abc", b"xbc"), ChunkVerdict::Differ);
}
