use squirrel::content::load_runs;
use squirrel::content::DataRun;
use squirrel::error::Error;
use squirrel::metadata::parse_run_list;
use squirrel::metadata::read_int_bytes;

#[test]
fn mft_test_parse_run_list() {
    let data: [u8; 8] = [0x21, 0x10, 0x00, 0x01, 0x11, 0x20, 0xE0, 0x00]; // 16/256 32/-32
    let run_lists = parse_run_list(&data, 0, 1, 48).unwrap();
    let valid = vec![
        DataRun { len: 16, offset: 256, virt_offset: 0 },
        DataRun { len: 32, offset: 256 - 32, virt_offset: 16 },
    ];
    assert_eq!(run_lists, valid);
}

#[test]
fn metadata_test_parse_run_list() {
    let data: [u8; 8] = [0x21, 0x10, 0x00, 0x01, 0x11, 0x20, 0xE0, 0x00]; // 16/256 32/-32
    let run_lists = parse_run_list(&data, 0, 1, 48).unwrap();
    let valid = vec![
        DataRun { len: 16, offset: 256, virt_offset: 0 },
        DataRun { len: 32, offset: 256 - 32, virt_offset: 16 },
    ];
    assert_eq!(run_lists, valid);
}

#[test]
fn load_runs_accumulates_and_trims() {
    let runs = load_runs(vec![(1000, 1000), (3000, 2000), (0, 1000)], 4000);
    assert_eq!(
        runs,
        vec![
            DataRun { offset: 1000, virt_offset: 0, len: 1000 },
            DataRun { offset: 3000, virt_offset: 1000, len: 2000 },
            DataRun { offset: 0, virt_offset: 3000, len: 1000 },
        ]
    );
    // The lengths add up to the size exactly, even when the decoded
    // lengths overshoot it.
    let trimmed = load_runs(vec![(512, 1024), (4096, 1024)], 1536);
    assert_eq!(trimmed[1].len, 512);
    let total: u64 = trimmed.iter().map(|r| r.len).sum();
    assert_eq!(total, 1536);
    // Virtual offsets chain from zero.
    assert_eq!(trimmed[0].virt_offset, 0);
    assert_eq!(trimmed[1].virt_offset, trimmed[0].virt_offset + trimmed[0].len);
}

#[test]
fn run_list_scaled_by_cluster_size() {
    // One run of 4 clusters at cluster 4, with 512-byte clusters.
    let data: [u8; 5] = [0x21, 0x04, 0x04, 0x00, 0x00];
    let runs = parse_run_list(&data, 0, 512, 2048).unwrap();
    assert_eq!(runs, vec![DataRun { offset: 2048, virt_offset: 0, len: 2048 }]);
}

#[test]
fn run_list_unterminated_is_format_error() {
    // A record promising more bytes than there are, and a list that
    // ends without its 0x00 terminator: both are invalid run lists.
    let data: [u8; 2] = [0x21, 0x10];
    assert_eq!(parse_run_list(&data, 0, 1, 16), Err(Error::FormatInvalid));
    let data: [u8; 4] = [0x11, 0x05, 0x01, 0x11];
    assert_eq!(parse_run_list(&data, 0, 1, 5), Err(Error::FormatInvalid));
}

#[test]
fn run_list_empty_is_format_error() {
    let data: [u8; 1] = [0x00];
    assert_eq!(parse_run_list(&data, 0, 1, 0), Err(Error::FormatInvalid));
}

#[test]
fn run_list_negative_offset_is_out_of_range() {
    // One run whose signed delta goes below cluster zero.
    let data: [u8; 4] = [0x11, 0x01, 0xFF, 0x00];
    assert_eq!(parse_run_list(&data, 0, 1, 1), Err(Error::OutOfRange));
}

#[test]
fn run_list_shorter_than_size_is_format_error() {
    // 5 clusters decoded, but the attribute claims 10 bytes.
    let data: [u8; 4] = [0x11, 0x05, 0x01, 0x00];
    assert_eq!(parse_run_list(&data, 0, 1, 10), Err(Error::FormatInvalid));
}

#[test]
fn int_bytes_zero_and_sign_extended() {
    let data: [u8; 4] = [0x12, 0x34, 0x80, 0x7F];
    // Unsigned: zero fill.
    let v = read_int_bytes(2, &data, 0, false).unwrap();
    assert_eq!(v, vec![0x12, 0x34, 0, 0, 0, 0, 0, 0]);
    // Signed, high bit set: 0xFF fill.
    let v = read_int_bytes(3, &data, 0, true).unwrap();
    assert_eq!(v, vec![0x12, 0x34, 0x80, 0xFF, 0xFF, 0xFF, 0xFF, 0xFF]);
    // Signed, high bit clear: zero fill.
    let v = read_int_bytes(4, &data, 0, true).unwrap();
    assert_eq!(v, vec![0x12, 0x34, 0x80, 0x7F, 0, 0, 0, 0]);
    // A zero-length field reads as zero.
    let v = read_int_bytes(0, &data, 0, true).unwrap();
    assert_eq!(v, vec![0; 8]);
    // A field past the end of the data is an I/O error.
    assert_eq!(read_int_bytes(8, &data, 0, false), Err(Error::Io));
}
