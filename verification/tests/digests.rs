use findclone::digest::{sha256_digest, DigestStream, BLOCK_SIZE, DIGEST_LEN, MAX_INPUT_LEN};

fn pattern(len: usize) -> Vec<u8> {
    let mut out = Vec::with_capacity(len);
    for i in 0..len {
        out.push((i % 251) as u8);
    }
    out
}

fn reference(data: &[u8]) -> Vec<u8> {
    ring::digest::digest(&ring::digest::SHA256, data).as_ref().to_vec()
}

#[test]
fn constants() {
    assert_eq!(BLOCK_SIZE, 8192);
    assert_eq!(DIGEST_LEN, 32);
    assert_eq!(MAX_INPUT_LEN, (1u64 << 61) - 1);
}

#[test]
fn digest_of_hello() {
    let digest = sha256_digest(b"hello").unwrap();
    assert_eq!(digest.hex(), "2CF24DBA5FB0A30E26E83B2AC5B9E29E1B161E5C1FA7425E73043362938B9824");
    assert_eq!(digest.bytes().len(), 32);
    assert_eq!(digest.bytes()[0], 0x2c);
    assert_eq!(digest.bytes()[31], 0x24);
}

#[test]
fn digest_of_nothing() {
    let digest = sha256_digest(b"").unwrap();
    assert_eq!(digest.hex(), "E3B0C44298FC1C149AFBF4C8996FB92427AE41E4649B934CA495991B7852B855");
}

#[test]
fn digest_of_abc() {
    let digest = sha256_digest(b"abc").unwrap();
    assert_eq!(digest.hex(), "BA7816BF8F01CFEA414140DE5DAE2223B00361A396177A9CB410FF61F20015AD");
}

#[test]
fn hex_is_two_upper_case_digits_per_byte() {
    let digest = sha256_digest(b"hello").unwrap();
    let text = digest.hex();
    assert_eq!(text.len(), 64);
    let digits: Vec<char> = "0123456789ABCDEF".chars().collect();
    let chars: Vec<char> = text.chars().collect();
    for (i, byte) in digest.bytes().iter().enumerate() {
        assert_eq!(chars[2 * i], digits[(*byte / 16) as usize]);
        assert_eq!(chars[2 * i + 1], digits[(*byte % 16) as usize]);
    }
}

#[test]
fn digest_in_blocks_is_the_digest_of_the_whole() {
    for len in [1, 63, 64, 65, 8191, 8192, 8193, 16384, 20000, 30001] {
        let data = pattern(len);
        assert_eq!(sha256_digest(&data).unwrap().bytes(), &reference(&data));
    }
}

#[test]
fn equal_bytes_have_equal_digests() {
    let first = pattern(10000);
    let second = pattern(10000);
    assert_eq!(sha256_digest(&first).unwrap().hex(), sha256_digest(&second).unwrap().hex());
    let mut third = pattern(10000);
    third[9999] ^= 1;
    assert_ne!(sha256_digest(&first).unwrap().hex(), sha256_digest(&third).unwrap().hex());
}

#[test]
fn stream_takes_chunks_of_any_length() {
    let data = pattern(5000);
    let mut stream = DigestStream::new();
    assert!(stream.absorb(&data[..1]));
    assert!(stream.absorb(&data[1..100]));
    assert!(stream.absorb(&data[100..4097]));
    assert!(stream.absorb(&data[4097..]));
    assert!(!stream.absorb(&data[..0]));
    assert_eq!(stream.finish().unwrap().bytes(), &reference(&data));
}

#[test]
fn stream_that_took_nothing() {
    let stream = DigestStream::new();
    assert_eq!(
        stream.finish().unwrap().hex(),
        "E3B0C44298FC1C149AFBF4C8996FB92427AE41E4649B934CA495991B7852B855"
    );
}

#[test]
fn an_empty_chunk_reports_the_end() {
    let mut stream = DigestStream::new();
    assert!(!stream.absorb(b""));
    assert!(stream.absorb(b"abc"));
    assert!(!stream.absorb(b""));
    assert_eq!(
        stream.finish().unwrap().hex(),
        "BA7816BF8F01CFEA414140DE5DAE2223B00361A396177A9CB410FF61F20015AD"
    );
}
