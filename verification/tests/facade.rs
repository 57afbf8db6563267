use squirrel::device::MemDevice;
use squirrel::error::Error;
use squirrel::file_system::MFT;

/// A miniature NTFS-like volume: a boot sector, MFT entry 0 at byte
/// 1024 describing the `$MFT` file itself (a non-resident data
/// attribute over bytes 1024..3072), and one unused record slot.
fn mini_volume() -> Vec<u8> {
    let mut v = vec![0u8; 3072];
    // Boot sector: 512-byte sectors, 1 sector per cluster, MFT at
    // cluster 2.
    v[11..13].copy_from_slice(&512u16.to_le_bytes());
    v[13..15].copy_from_slice(&1u16.to_le_bytes());
    v[48..56].copy_from_slice(&2u64.to_le_bytes());
    // Entry 0.
    let r: usize = 1024;
    v[r..r + 4].copy_from_slice(b"FILE");
    v[r + 4] = 48; // fixup array offset
    v[r + 6] = 3; // fixup entries
    v[r + 20] = 56; // attribute offset
    v[r + 24..r + 28].copy_from_slice(&136u32.to_le_bytes());
    v[r + 28..r + 32].copy_from_slice(&1024u32.to_le_bytes());
    // Update sequence signature; the stored originals are zero, the
    // true content of the sector tails.
    v[r + 48] = 0xAA;
    v[r + 49] = 0xBB;
    // Data attribute (type 0x80), non-resident, 72 bytes long.
    v[r + 56..r + 60].copy_from_slice(&0x80u32.to_le_bytes());
    v[r + 60..r + 64].copy_from_slice(&72u32.to_le_bytes());
    v[r + 64] = 1;
    v[r + 88..r + 90].copy_from_slice(&64u16.to_le_bytes());
    v[r + 96..r + 104].copy_from_slice(&2048u64.to_le_bytes());
    v[r + 104..r + 112].copy_from_slice(&2048u64.to_le_bytes());
    // Run list at attribute offset 64: 4 clusters starting at cluster 2.
    v[r + 120] = 0x11;
    v[r + 121] = 4;
    v[r + 122] = 2;
    v[r + 123] = 0;
    // Attribute sentinel: 0xFFFFFFFF filling the 32-bit type slot.
    v[r + 128] = 0xFF;
    v[r + 129] = 0xFF;
    v[r + 130] = 0xFF;
    v[r + 131] = 0xFF;
    // The fixup signature closes both sectors of the record.
    v[r + 510] = 0xAA;
    v[r + 511] = 0xBB;
    v[r + 1022] = 0xAA;
    v[r + 1023] = 0xBB;
    // Bytes past the record, still inside the $MFT data run; the
    // second record slot stays unused (its first four bytes are zero).
    for i in 2080..3072 {
        v[i] = (i % 199) as u8;
    }
    v
}

#[test]
fn open_reads_boot_and_mft_stream() {
    let vol = mini_volume();
    let mut mft = MFT::open(MemDevice::new(vol.clone())).unwrap();
    assert_eq!(mft.boot.sector_size, 512);
    assert_eq!(mft.boot.cluster_size, 512);
    assert_eq!(mft.boot.mft_start, 1024);
    assert_eq!(mft.data.size(), 2048);
    let all = mft.data.read_all().unwrap();
    assert_eq!(all.len() as u64, mft.data.size());
    assert_eq!(&all[..], &vol[1024..3072]);
    // Every 1024-byte slot of the $MFT begins with "FILE" or with four
    // zero bytes (an unused slot).
    for chunk in all.chunks(1024) {
        assert!(&chunk[0..4] == b"FILE" || chunk[0..4] == [0u8; 4]);
    }
}

#[test]
fn open_entry_streams_the_chosen_record() {
    let vol = mini_volume();
    let mut mft = MFT::open(MemDevice::new(vol.clone())).unwrap();
    // Entry 0 is the $MFT itself: its data attribute covers the whole
    // MFT region, streamed through a second, independent device handle.
    let entry = mft.open_entry(0).unwrap();
    let mut data = entry.data(MemDevice::new(vol.clone())).unwrap();
    assert_eq!(data.size(), 2048);
    let bytes = data.read_all().unwrap();
    assert_eq!(&bytes[..], &vol[1024..3072]);
    // An all-zero slot is not a valid record, but a failed entry does
    // not poison the facade.
    assert!(mft.open_entry(1).is_err());
    let again = mft.open_entry(0).unwrap();
    assert_eq!(again.header.fixup_entries, 3);
    // A record that would start past the end of the $MFT stream is out
    // of range, as is an index whose byte offset overflows.
    assert_eq!(mft.open_entry(3).unwrap_err(), Error::OutOfRange);
    assert_eq!(mft.open_entry(u64::MAX).unwrap_err(), Error::OutOfRange);
}
