use squirrel::content::load_runs;
use squirrel::content::Content;
use squirrel::content::ContentReader;
use squirrel::content::RunReader;
use squirrel::device::MemDevice;
use squirrel::device::SeekFrom;

#[test]
fn mft_test_run_reader_seek() {
    let mut rdr = RunReader::new(
        MemDevice::new(vec![0u8; 10000]),
        load_runs(vec![(1000, 1000), (3000, 2000), (0, 1000)], 4000),
    );
    let pos = rdr.seek(SeekFrom::Start(500)).unwrap();
    assert_eq!(pos, 500);
    assert_eq!(rdr.position(), 1500);
    let pos = rdr.seek(SeekFrom::Current(500)).unwrap();
    assert_eq!(pos, 1000);
    assert_eq!(rdr.position(), 3000);
    let pos = rdr.seek(SeekFrom::Current(-1)).unwrap();
    assert_eq!(pos, 999);
    assert_eq!(rdr.position(), 1999);
    let pos = rdr.seek(SeekFrom::End(-100)).unwrap();
    assert_eq!(pos, 3900);
    assert_eq!(rdr.position(), 900);
}

#[test]
fn content_test_run_reader_seek() {
    let mut rdr = RunReader::new(
        MemDevice::new(vec![0u8; 10000]),
        load_runs(vec![(1000, 1000), (3000, 2000), (0, 1000)], 4000),
    );
    let pos = rdr.seek(SeekFrom::Start(500)).unwrap();
    assert_eq!(pos, 500);
    assert_eq!(rdr.position(), 1500);
    let pos = rdr.seek(SeekFrom::Current(500)).unwrap();
    assert_eq!(pos, 1000);
    assert_eq!(rdr.position(), 3000);
    let pos = rdr.seek(SeekFrom::Current(-1)).unwrap();
    assert_eq!(pos, 999);
    assert_eq!(rdr.position(), 1999);
    let pos = rdr.seek(SeekFrom::End(-100)).unwrap();
    assert_eq!(pos, 3900);
    assert_eq!(rdr.position(), 900);
}

fn read_fully(rdr: &mut RunReader<MemDevice>, n: usize) -> Vec<u8> {
    let mut buf: Vec<u8> = Vec::new();
    while buf.len() < n {
        let got = rdr.read(n - buf.len()).unwrap();
        assert!(got.len() > 0);
        buf.extend_from_slice(&got);
    }
    buf
}

#[test]
fn mft_test_run_reader_read() {
    let mut rdr = RunReader::new(
        MemDevice::new(b"4560123XXX789".to_vec()),
        load_runs(vec![(3, 4), (0, 3), (10, 3)], 10),
    );
    let buf = read_fully(&mut rdr, 10);
    assert_eq!(&buf, b"0123456789");
}

#[test]
fn content_test_run_reader_read() {
    let mut rdr = RunReader::new(
        MemDevice::new(b"4560123XXX789".to_vec()),
        load_runs(vec![(3, 4), (0, 3), (10, 3)], 10),
    );
    let buf = read_fully(&mut rdr, 10);
    assert_eq!(&buf, b"0123456789");
}

#[test]
fn content_reader_round_trip_non_resident() {
    // Reading from 0 to size() yields exactly size() bytes; one more
    // read returns none.
    let rdr = RunReader::new(
        MemDevice::new(b"4560123XXX789".to_vec()),
        load_runs(vec![(3, 4), (0, 3), (10, 3)], 10),
    );
    let mut cr = ContentReader::NonResident { inner: rdr };
    assert_eq!(cr.size(), 10);
    let all = cr.read_all().unwrap();
    assert_eq!(&all, b"0123456789");
    assert_eq!(all.len() as u64, cr.size());
    assert_eq!(cr.stream_position(), 10);
    let last = cr.read(16).unwrap();
    assert_eq!(last.len(), 0);
}

#[test]
fn content_reader_round_trip_resident() {
    let content = Content::Resident { data: b"resident bytes".to_vec() };
    let mut cr: ContentReader<MemDevice> = content.reader(MemDevice::new(Vec::new()));
    assert_eq!(cr.size(), 14);
    let all = cr.read_all().unwrap();
    assert_eq!(&all, b"resident bytes");
    let last = cr.read(4).unwrap();
    assert_eq!(last.len(), 0);
}

#[test]
fn seek_then_read_matches_sequential_read() {
    // The bytes read after seek(Start, p) equal the bytes read after
    // reaching p by sequential reading.
    let make = || {
        ContentReader::NonResident {
            inner: RunReader::new(
                MemDevice::new(b"4560123XXX789".to_vec()),
                load_runs(vec![(3, 4), (0, 3), (10, 3)], 10),
            ),
        }
    };
    let mut seeked = make();
    let p = seeked.seek(SeekFrom::Start(5)).unwrap();
    assert_eq!(p, 5);
    assert_eq!(seeked.stream_position(), 5);
    let via_seek = seeked.read_exact(4).unwrap();

    let mut sequential = make();
    let _ = sequential.read_exact(5).unwrap();
    assert_eq!(sequential.stream_position(), 5);
    let via_sequence = sequential.read_exact(4).unwrap();
    assert_eq!(via_seek, via_sequence);
    assert_eq!(&via_seek, b"5678");
}

#[test]
fn resident_seek_past_size_is_error() {
    let content = Content::Resident { data: b"0123456789".to_vec() };
    let mut cr: ContentReader<MemDevice> = content.reader(MemDevice::new(Vec::new()));
    assert!(cr.seek(SeekFrom::Start(11)).is_err());
    assert!(cr.seek(SeekFrom::End(1)).is_err());
    assert!(cr.seek(SeekFrom::Current(-1)).is_err());
    assert_eq!(cr.seek(SeekFrom::Start(10)).unwrap(), 10);
    assert_eq!(cr.seek(SeekFrom::End(-10)).unwrap(), 0);
}

#[test]
fn run_reader_seek_past_size_is_error() {
    let mut rdr = RunReader::new(
        MemDevice::new(vec![0u8; 100]),
        load_runs(vec![(0, 100)], 100),
    );
    assert!(rdr.seek(SeekFrom::Start(101)).is_err());
    assert!(rdr.seek(SeekFrom::End(1)).is_err());
    assert!(rdr.seek(SeekFrom::Current(-1)).is_err());
    assert!(rdr.seek(SeekFrom::Current(i64::MIN)).is_err());
    assert_eq!(rdr.seek(SeekFrom::End(0)).unwrap(), 100);
}
