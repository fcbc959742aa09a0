use s3fcp::cli::parse_chunk_size;
use s3fcp::cli::DownloadArgs;
use s3fcp::cli::HttpArgs;
use s3fcp::cli::S3Args;

#[test]
fn test_parse_chunk_size() {
    assert_eq!(parse_chunk_size("1024").unwrap(), 1024);
    assert_eq!(parse_chunk_size("8MB").unwrap(), 8_000_000);
    assert_eq!(parse_chunk_size("8MiB").unwrap(), 8_388_608);
    assert_eq!(parse_chunk_size("1GB").unwrap(), 1_000_000_000);
    assert_eq!(parse_chunk_size("1GiB").unwrap(), 1_073_741_824);
    assert_eq!(parse_chunk_size("16 MB").unwrap(), 16_000_000);
}

#[test]
fn test_parse_chunk_size_more_units() {
    assert_eq!(parse_chunk_size("2B").unwrap(), 2);
    assert_eq!(parse_chunk_size("3K").unwrap(), 3_000);
    assert_eq!(parse_chunk_size("3KiB").unwrap(), 3_072);
    assert_eq!(parse_chunk_size("1TB").unwrap(), 1_000_000_000_000);
    assert_eq!(parse_chunk_size("1TiB").unwrap(), 1_099_511_627_776);
}

#[test]
fn test_parse_chunk_size_fractional() {
    assert_eq!(parse_chunk_size("1.5MB").unwrap(), 1_500_000);
    assert_eq!(parse_chunk_size("0.5KiB").unwrap(), 512);
    assert_eq!(parse_chunk_size("2.25K").unwrap(), 2_250);
}

#[test]
fn test_parse_chunk_size_negative_clamps_to_zero() {
    assert_eq!(parse_chunk_size("-5MB").unwrap(), 0);
}

#[test]
fn test_parse_chunk_size_plain_number_edges() {
    assert_eq!(parse_chunk_size("+10").unwrap(), 10);
    assert_eq!(parse_chunk_size("  42  ").unwrap(), 42);
    assert_eq!(parse_chunk_size("8mb").unwrap(), 8_000_000);
    // one past u64::MAX: no longer a plain number, and no unit follows
    let err = parse_chunk_size("18446744073709551616").unwrap_err();
    assert_eq!(err, "Invalid size format: 18446744073709551616");
}

#[test]
fn test_parse_chunk_size_huge_saturates() {
    assert_eq!(parse_chunk_size("99999999999999999999B").unwrap(), usize::MAX);
}

#[test]
fn test_parse_chunk_size_unknown_suffix() {
    let err = parse_chunk_size("8XB").unwrap_err();
    assert_eq!(err, "Unknown size suffix: XB");
}

#[test]
fn test_parse_chunk_size_invalid_number() {
    let err = parse_chunk_size("x5MB").unwrap_err();
    assert_eq!(err, "Invalid number: ");
    let err2 = parse_chunk_size("1.2.3MB").unwrap_err();
    assert_eq!(err2, "Invalid number: 1.2.3");
}

#[test]
fn test_parse_chunk_size_invalid_format() {
    let err = parse_chunk_size("##").unwrap_err();
    assert_eq!(err, "Invalid size format: ##");
}

#[test]
fn test_download_args_defaults() {
    let d = DownloadArgs::default();
    assert_eq!(d.concurrency, 10);
    assert_eq!(d.chunk_size, 8 * 1024 * 1024);
    assert!(!d.quiet);
}

#[test]
fn test_download_args_from_s3_args() {
    let args = S3Args {
        uri: String::from("s3://b/k"),
        version_id: None,
        concurrency: 4,
        chunk_size: 1024,
        quiet: true,
    };
    let d = DownloadArgs::from(&args);
    assert_eq!(d.concurrency, 4);
    assert_eq!(d.chunk_size, 1024);
    assert!(d.quiet);
}

#[test]
fn test_download_args_from_http_args() {
    let args = HttpArgs {
        url: String::from("http://example/x"),
        concurrency: 2,
        chunk_size: 4096,
        quiet: false,
    };
    let d = DownloadArgs::from(&args);
    assert_eq!(d.concurrency, 2);
    assert_eq!(d.chunk_size, 4096);
    assert!(!d.quiet);
}
