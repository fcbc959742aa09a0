use s3fcp::client::ObjectMetadata;
use s3fcp::downloader::output_queue_capacity;
use s3fcp::downloader::plan_download;
use s3fcp::downloader::DownloadPlan;

#[test]
fn test_empty_object_needs_no_fetch() {
    let meta = ObjectMetadata { content_length: 0, supports_range: true };
    assert!(matches!(plan_download(&meta, 8 * 1024 * 1024), DownloadPlan::EmptyObject));
    let meta = ObjectMetadata { content_length: 0, supports_range: false };
    assert!(matches!(plan_download(&meta, 8 * 1024 * 1024), DownloadPlan::EmptyObject));
}

#[test]
fn test_no_range_support_means_single_stream() {
    let meta = ObjectMetadata { content_length: 1024, supports_range: false };
    assert!(matches!(plan_download(&meta, 256), DownloadPlan::SingleStream));
}

#[test]
fn test_range_support_means_chunked() {
    let meta = ObjectMetadata { content_length: 1000, supports_range: true };
    match plan_download(&meta, 100) {
        DownloadPlan::Chunked(chunks) => {
            assert_eq!(chunks.len(), 10);
            assert_eq!(chunks[0].start, 0);
            assert_eq!(chunks[0].end, 99);
            assert_eq!(chunks[9].start, 900);
            assert_eq!(chunks[9].end, 999);
        },
        _ => panic!("expected the chunked strategy"),
    }
}

#[test]
fn test_single_chunk_when_object_fits() {
    let meta = ObjectMetadata { content_length: 50, supports_range: true };
    match plan_download(&meta, 100) {
        DownloadPlan::Chunked(chunks) => {
            assert_eq!(chunks.len(), 1);
            assert_eq!(chunks[0].start, 0);
            assert_eq!(chunks[0].end, 49);
        },
        _ => panic!("expected the chunked strategy"),
    }
}

#[test]
fn test_output_queue_capacity_doubles_workers() {
    assert_eq!(output_queue_capacity(10), 20);
    assert_eq!(output_queue_capacity(1), 2);
    assert_eq!(output_queue_capacity(usize::MAX), usize::MAX);
}
