use raven_oss_tools::crypto::setup_key;
use raven_oss_tools::errors::CryptoError;
use raven_oss_tools::transfer::{ChunkTransform, PartList};

#[test]
fn test_part_list_numbers_parts_from_one() {
    let mut parts = PartList::new();
    assert_eq!(parts.next_part_number(), 1);
    parts.record("etag-a".to_string());
    assert_eq!(parts.next_part_number(), 2);
    parts.record("etag-b".to_string());
    parts.record("etag-c".to_string());

    let finalized = parts.finalize();
    assert_eq!(finalized.len(), 3);
    let numbers: Vec<u32> = finalized.iter().map(|p| p.part_number).collect();
    assert_eq!(numbers, vec![1, 2, 3]);
    let tags: Vec<&str> = finalized.iter().map(|p| p.e_tag.as_str()).collect();
    assert_eq!(tags, vec!["etag-a", "etag-b", "etag-c"]);
}

#[test]
fn test_identity_transform_passes_through() {
    let transform = ChunkTransform::Identity;
    let out = transform.apply_outgoing(b"raw bytes").unwrap();
    assert_eq!(out, b"raw bytes".to_vec());
    let back = transform.apply_incoming(&out).unwrap();
    assert_eq!(back, b"raw bytes".to_vec());
}

#[test]
fn test_aead_transform_round_trip() {
    let transform = ChunkTransform::Aead(setup_key("pw"));
    let sealed = transform.apply_outgoing(b"chunk payload").unwrap();
    assert_eq!(sealed.len(), b"chunk payload".len() + 16);
    assert_ne!(&sealed[..13], b"chunk payload");
    let opened = transform.apply_incoming(&sealed).unwrap();
    assert_eq!(opened, b"chunk payload".to_vec());
}

#[test]
fn test_aead_transform_rejects_tampering() {
    let transform = ChunkTransform::Aead(setup_key("pw"));
    let mut sealed = transform.apply_outgoing(b"chunk payload").unwrap();
    sealed[0] ^= 0xFF;
    assert_eq!(
        transform.apply_incoming(&sealed),
        Err(CryptoError::AuthenticationFailed)
    );
}
