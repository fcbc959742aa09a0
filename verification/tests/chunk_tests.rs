use s3fcp::chunk::create_chunks;

#[test]
fn test_create_chunks_empty_file() {
    let chunks = create_chunks(0, 100);
    assert_eq!(chunks.len(), 0);
}

#[test]
fn test_create_chunks_exact_multiple() {
    let chunks = create_chunks(1000, 100);
    assert_eq!(chunks.len(), 10);
    assert_eq!(chunks[0].start, 0);
    assert_eq!(chunks[0].end, 99);
    assert_eq!(chunks[9].start, 900);
    assert_eq!(chunks[9].end, 999);
}

#[test]
fn test_create_chunks_with_remainder() {
    let chunks = create_chunks(1050, 100);
    assert_eq!(chunks.len(), 11);
    assert_eq!(chunks[10].start, 1000);
    assert_eq!(chunks[10].end, 1049);
}

#[test]
fn test_create_chunks_non_conforming_chunks() {
    let chunks = create_chunks(10, 7);
    assert_eq!(chunks.len(), 2);
    assert_eq!(chunks[0].start, 0);
    assert_eq!(chunks[0].end, 6);
    assert_eq!(chunks[1].start, 7);
    assert_eq!(chunks[1].end, 9);
}

#[test]
fn test_create_chunks_single_chunk() {
    let chunks = create_chunks(50, 100);
    assert_eq!(chunks.len(), 1);
    assert_eq!(chunks[0].start, 0);
    assert_eq!(chunks[0].end, 49);
}

#[test]
fn test_create_chunks_single_byte() {
    let chunks = create_chunks(1, 8);
    assert_eq!(chunks.len(), 1);
    assert_eq!(chunks[0].start, 0);
    assert_eq!(chunks[0].end, 0);
}

#[test]
fn test_create_chunks_indices_and_contiguity() {
    let chunks = create_chunks(1050, 128);
    for (i, c) in chunks.iter().enumerate() {
        assert_eq!(c.index, i);
        assert!(c.start <= c.end);
    }
    assert_eq!(chunks[0].start, 0);
    for w in chunks.windows(2) {
        assert_eq!(w[0].end + 1, w[1].start);
    }
    assert_eq!(chunks.last().unwrap().end, 1049);
}
