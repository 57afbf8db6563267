use squirrel::device::ByteSource;
use squirrel::device::MemRaw;
use squirrel::device::SeekFrom;
use squirrel::device::Volume;

#[test]
fn block_device_random_access_positions() {
    let data: Vec<u8> = (0..30720u32).map(|i| (i % 251) as u8).collect();
    let mut vol = Volume::new(MemRaw::new(data));
    let first = vol.read_some(9000).unwrap();
    assert_eq!(first.len(), 9000);
    vol.seek(SeekFrom::Start(0)).unwrap();
    assert_eq!(vol.stream_position(), 0);
    let b = vol.read_exact(9000).unwrap();
    assert_eq!(b, first);
    assert_eq!(vol.stream_position(), 9000);
    vol.seek(SeekFrom::Current(-50)).unwrap();
    assert_eq!(vol.stream_position(), 8950);
    vol.seek(SeekFrom::Current(10000)).unwrap();
    assert_eq!(vol.stream_position(), 18950);
    vol.read_exact(9000).unwrap();
    assert_eq!(vol.stream_position(), 27950);
    vol.seek(SeekFrom::Start(530)).unwrap();
    assert_eq!(vol.stream_position(), 530);
    vol.seek(SeekFrom::Current(9000)).unwrap();
    assert_eq!(vol.stream_position(), 9530);
}

#[test]
fn block_device_sequential_equals_seek_read() {
    // Device consistency: for a range [a, b), sequential reads return
    // the same bytes as a seek to `a` followed by one read of b - a.
    let data: Vec<u8> = (0..4096u32).map(|i| (i * 7 % 256) as u8).collect();
    let mut vol = Volume::new(MemRaw::new(data.clone()));
    vol.seek(SeekFrom::Start(700)).unwrap();
    let mut sequential = vol.read_exact(300).unwrap();
    let tail = vol.read_exact(500).unwrap();
    sequential.extend_from_slice(&tail);

    let mut vol2 = Volume::new(MemRaw::new(data.clone()));
    vol2.seek(SeekFrom::Start(700)).unwrap();
    let direct = vol2.read_exact(800).unwrap();
    assert_eq!(sequential, direct);
    assert_eq!(&direct[..], &data[700..1500]);
}

#[test]
fn block_device_end_seek_unsupported() {
    let mut vol = Volume::new(MemRaw::new(vec![0u8; 1024]));
    assert!(vol.seek(SeekFrom::End(0)).is_err());
}

#[test]
fn block_device_reads_stop_at_end() {
    let mut vol = Volume::new(MemRaw::new(vec![7u8; 600]));
    let got = vol.read_some(1000).unwrap();
    assert_eq!(got.len(), 600);
    let empty = vol.read_some(16).unwrap();
    assert_eq!(empty.len(), 0);
    assert!(vol.read_exact(1).is_err());
}
