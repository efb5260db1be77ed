use raven_oss_tools::chunk::ChunkStream;

#[test]
fn test_chunk_stream_consumes_exactly() {
    let mut stream = ChunkStream::new(10, 4);
    assert_eq!(stream.get_original_file_size(), 10);
    assert_eq!(stream.get_chunk_size(), 4);
    assert!(!stream.exhausted());

    let mut reads: Vec<u64> = Vec::new();
    while !stream.exhausted() {
        reads.push(stream.advance());
    }
    assert_eq!(reads, vec![4, 4, 2]);
    assert_eq!(reads.iter().sum::<u64>(), 10);
    assert_eq!(stream.get_file_size(), 0);
    assert_eq!(stream.get_original_file_size(), 10);
}

#[test]
fn test_chunk_stream_empty_source() {
    let mut stream = ChunkStream::new(0, 8);
    assert!(stream.exhausted());
    assert_eq!(stream.next_chunk_len(), 0);
    assert_eq!(stream.advance(), 0);
    assert_eq!(stream.get_file_size(), 0);
}

#[test]
fn test_chunk_stream_exact_multiple() {
    let mut stream = ChunkStream::new(8, 4);
    assert_eq!(stream.advance(), 4);
    assert_eq!(stream.get_file_size(), 4);
    assert_eq!(stream.advance(), 4);
    assert!(stream.exhausted());
}
