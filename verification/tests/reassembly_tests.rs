use s3fcp::chunk::create_chunks;
use s3fcp::chunk::DownloadedChunk;
use s3fcp::reassembly::process_all;
use s3fcp::reassembly::ReassemblyBuffer;

fn chunked_data(data: &[u8], chunk_size: usize) -> Vec<DownloadedChunk> {
    create_chunks(data.len() as u64, chunk_size)
        .into_iter()
        .map(|c| DownloadedChunk {
            index: c.index,
            data: data[c.start as usize..=c.end as usize].to_vec(),
        })
        .collect()
}

#[test]
fn test_reorder_invariance_of_output() {
    let data: Vec<u8> = (0u8..=255).collect();
    let in_order = chunked_data(&data, 30);
    let n = in_order.len();

    let mut shuffled = chunked_data(&data, 30);
    shuffled.reverse();
    let mut interleaved = Vec::new();
    let mut front = 0;
    let mut back = n;
    let again = chunked_data(&data, 30);
    let mut pool: Vec<Option<DownloadedChunk>> = again.into_iter().map(Some).collect();
    while front < back {
        if let Some(c) = pool[front].take() {
            interleaved.push(c);
        }
        front += 1;
        if front < back {
            back -= 1;
            if let Some(c) = pool[back].take() {
                interleaved.push(c);
            }
        }
    }

    let out_in_order = process_all(n, in_order);
    let out_reversed = process_all(n, shuffled);
    let out_interleaved = process_all(n, interleaved);
    assert_eq!(out_in_order, data);
    assert_eq!(out_reversed, data);
    assert_eq!(out_interleaved, data);
}

#[test]
fn test_round_trip_concatenation() {
    let data: Vec<u8> = vec![9, 8, 7, 6, 5, 4, 3, 2, 1, 0];
    let arrivals = chunked_data(&data, 7);
    let out = process_all(arrivals.len(), arrivals);
    assert_eq!(out, data);
}

#[test]
fn test_buffer_releases_contiguous_prefix_only() {
    let mut buf = ReassemblyBuffer::new(3);
    assert_eq!(buf.total_chunks(), 3);
    assert_eq!(buf.next_index(), 0);
    assert!(!buf.is_complete());

    let drained = buf.insert(DownloadedChunk { index: 1, data: vec![11] });
    assert!(drained.is_empty());
    assert_eq!(buf.next_index(), 0);
    assert!(buf.holds(1));

    let drained = buf.insert(DownloadedChunk { index: 0, data: vec![10] });
    assert_eq!(drained, vec![vec![10], vec![11]]);
    assert_eq!(buf.next_index(), 2);

    let drained = buf.insert(DownloadedChunk { index: 2, data: vec![12] });
    assert_eq!(drained, vec![vec![12]]);
    assert!(buf.is_complete());
}

#[test]
fn test_single_byte_object_roundtrip() {
    let data: Vec<u8> = vec![42];
    let arrivals = chunked_data(&data, 1024);
    assert_eq!(arrivals.len(), 1);
    let out = process_all(1, arrivals);
    assert_eq!(out, vec![42]);
}
