use raven_oss_tools::crypto::setup_key;
use raven_oss_tools::errors::{ConfigError, CryptoError};
use raven_oss_tools::pipeline::{check_declared_length, open_all_chunks, seal_chunks, seal_stream};

#[test]
fn test_chunk_boundary_fidelity() {
    let codec = setup_key("pw");
    let data = [7u8; 10];
    let chunks = seal_chunks(&codec, &data, 4);
    // 10 bytes at chunk size 4: ceil(10/4) = 3 chunks of 4, 4 and 2 bytes
    assert_eq!(chunks.len(), 3);
    assert_eq!(chunks[0].len(), 4 + 16);
    assert_eq!(chunks[1].len(), 4 + 16);
    assert_eq!(chunks[2].len(), 2 + 16);
}

#[test]
fn test_exact_multiple_has_full_last_chunk() {
    let codec = setup_key("pw");
    let data = [1u8; 12];
    let chunks = seal_chunks(&codec, &data, 4);
    assert_eq!(chunks.len(), 3);
    for chunk in &chunks {
        assert_eq!(chunk.len(), 4 + 16);
    }
}

#[test]
fn test_crypt_stream() {
    // the standalone codec path, chunk by chunk over an in-memory stream
    const PASSWORD: &str = "RAVEN_BOOK";
    const CONTENT: &str = "HELLO WORLD!";
    const CHUNK: usize = 16;

    let mut data: Vec<u8> = Vec::new();
    while data.len() <= 2 * CHUNK {
        data.extend_from_slice(CONTENT.as_bytes());
    }
    let expected_chunks = data.len().div_ceil(CHUNK);

    let codec = setup_key(PASSWORD);
    let chunks = seal_chunks(&codec, &data, CHUNK);
    assert_eq!(chunks.len(), expected_chunks);

    let sealed = seal_stream(&codec, &data, CHUNK);
    assert_eq!(sealed.len(), data.len() + 16 * expected_chunks);

    let opened = open_all_chunks(&codec, &sealed, CHUNK).unwrap();
    assert_eq!(opened, data);
}

#[test]
fn test_empty_stream() {
    let codec = setup_key("pw");
    let sealed = seal_stream(&codec, &[], 4);
    assert!(sealed.is_empty());
    let opened = open_all_chunks(&codec, &sealed, 4).unwrap();
    assert!(opened.is_empty());
}

#[test]
fn test_corrupted_stream_fails_closed() {
    let codec = setup_key("pw");
    let data = [9u8; 40];
    let mut sealed = seal_stream(&codec, &data, 16);
    sealed[20] ^= 0x80;
    assert_eq!(
        open_all_chunks(&codec, &sealed, 16),
        Err(CryptoError::AuthenticationFailed)
    );
}

#[test]
fn test_wrong_chunk_size_fails_closed() {
    let codec = setup_key("pw");
    let data = [3u8; 64];
    let sealed = seal_stream(&codec, &data, 16);
    assert_eq!(
        open_all_chunks(&codec, &sealed, 24),
        Err(CryptoError::AuthenticationFailed)
    );
}

#[test]
fn test_check_declared_length() {
    // chunk size 4 seals into pieces of 20 bytes (4 + 16), last may be 17..=20
    assert_eq!(check_declared_length(0, 4), Ok(()));
    assert_eq!(check_declared_length(20, 4), Ok(()));
    assert_eq!(check_declared_length(40, 4), Ok(()));
    assert_eq!(check_declared_length(37, 4), Ok(()));
    assert_eq!(
        check_declared_length(16, 4),
        Err(ConfigError::InvalidChunkBoundary)
    );
    assert_eq!(
        check_declared_length(50, 4),
        Err(ConfigError::InvalidChunkBoundary)
    );
}
