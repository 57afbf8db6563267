use squirrel::content::Content;
use squirrel::device::MemDevice;
use squirrel::error::Error;
use squirrel::file_system::parse_boot;
use squirrel::metadata::fixup_buf;
use squirrel::metadata::parse_mft_entry;
use squirrel::metadata::parse_mft_header;

fn record_with_fixup() -> Vec<u8> {
    let mut rec = vec![0u8; 1024];
    rec[0..4].copy_from_slice(b"FILE");
    // Fixup descriptor: array at 48, 3 entries (signature + 2 originals).
    rec[4] = 48;
    rec[6] = 3;
    // Attribute offset 56, flags 1, used and allocated sizes.
    rec[20] = 56;
    rec[22] = 1;
    rec[24..28].copy_from_slice(&136u32.to_le_bytes());
    rec[28..32].copy_from_slice(&1024u32.to_le_bytes());
    // Fixup array: signature AA BB, originals 01 02 and 03 04.
    rec[48] = 0xAA;
    rec[49] = 0xBB;
    rec[50] = 0x01;
    rec[51] = 0x02;
    rec[52] = 0x03;
    rec[53] = 0x04;
    // Each 512-byte sector ends with the signature before fixup.
    rec[510] = 0xAA;
    rec[511] = 0xBB;
    rec[1022] = 0xAA;
    rec[1023] = 0xBB;
    rec
}

#[test]
fn header_fields_parse() {
    let rec = record_with_fixup();
    let h = parse_mft_header(&rec).unwrap();
    assert_eq!(h.fixup_offset, 48);
    assert_eq!(h.fixup_entries, 3);
    assert_eq!(h.attr_offset, 56);
    assert_eq!(h.flags, 1);
    assert_eq!(h.used_size, 136);
    assert_eq!(h.alloc_size, 1024);
}

#[test]
fn header_bad_signature_is_format_error() {
    let mut rec = record_with_fixup();
    rec[0] = b'X';
    assert_eq!(parse_mft_header(&rec).unwrap_err(), Error::FormatInvalid);
    assert_eq!(parse_mft_header(&rec[..2]).unwrap_err(), Error::Io);
}

#[test]
fn fixup_restores_originals() {
    let mut rec = record_with_fixup();
    let h = parse_mft_header(&rec).unwrap();
    // Before fixup every sector ends with the signature.
    assert_eq!(&rec[510..512], &[0xAA, 0xBB]);
    assert_eq!(&rec[1022..1024], &[0xAA, 0xBB]);
    fixup_buf(512, &h, &mut rec).unwrap();
    // After fixup those positions hold the originals from the array.
    assert_eq!(&rec[510..512], &[0x01, 0x02]);
    assert_eq!(&rec[1022..1024], &[0x03, 0x04]);
}

#[test]
fn fixup_twice_fails() {
    let mut rec = record_with_fixup();
    let h = parse_mft_header(&rec).unwrap();
    fixup_buf(512, &h, &mut rec).unwrap();
    let copy = rec.clone();
    // The first application replaced the signatures, so the second no
    // longer finds them — and leaves the record untouched.
    assert_eq!(fixup_buf(512, &h, &mut rec).unwrap_err(), Error::FormatInvalid);
    assert_eq!(rec, copy);
}

#[test]
fn fixup_detects_torn_sector() {
    let mut rec = record_with_fixup();
    let h = parse_mft_header(&rec).unwrap();
    rec[1023] = 0x00;
    let before = rec.clone();
    assert_eq!(fixup_buf(512, &h, &mut rec).unwrap_err(), Error::FormatInvalid);
    assert_eq!(rec, before);
}

fn boot_sector() -> Vec<u8> {
    let mut s = vec![0u8; 512];
    s[11..13].copy_from_slice(&512u16.to_le_bytes());
    s[13..15].copy_from_slice(&8u16.to_le_bytes());
    s[48..56].copy_from_slice(&4u64.to_le_bytes());
    s
}

#[test]
fn boot_parses_geometry() {
    let b = parse_boot(&boot_sector()).unwrap();
    assert_eq!(b.sector_size, 512);
    assert_eq!(b.cluster_size, 4096);
    assert_eq!(b.mft_start, 4 * 4096);
}

#[test]
fn boot_rejects_zero_sizes() {
    let mut s = boot_sector();
    s[11..13].copy_from_slice(&0u16.to_le_bytes());
    assert_eq!(parse_boot(&s).unwrap_err(), Error::FormatInvalid);
    let mut s = boot_sector();
    s[13..15].copy_from_slice(&0u16.to_le_bytes());
    assert_eq!(parse_boot(&s).unwrap_err(), Error::FormatInvalid);
    assert_eq!(parse_boot(&boot_sector()[..40]).unwrap_err(), Error::Io);
}

#[test]
fn boot_rejects_oversized_cluster() {
    let mut s = boot_sector();
    // 4096-byte sectors with 16 sectors per cluster overflow the
    // 16-bit cluster size.
    s[11..13].copy_from_slice(&4096u16.to_le_bytes());
    s[13..15].copy_from_slice(&16u16.to_le_bytes());
    assert_eq!(parse_boot(&s).unwrap_err(), Error::OutOfRange);
}

fn record_with_resident_data() -> Vec<u8> {
    let mut rec = record_with_fixup();
    // One resident data attribute at offset 56: type 0x80, length 40,
    // 7 content bytes at attribute offset 24, then the sentinel.
    rec[56..60].copy_from_slice(&0x80u32.to_le_bytes());
    rec[60..64].copy_from_slice(&40u32.to_le_bytes());
    rec[64] = 0; // resident
    rec[65] = 0; // name length
    rec[70..72].copy_from_slice(&11u16.to_le_bytes()); // attr id
    rec[72..76].copy_from_slice(&7u32.to_le_bytes()); // content size
    rec[76..78].copy_from_slice(&24u16.to_le_bytes()); // content offset
    rec[80..87].copy_from_slice(b"inline!");
    rec[96..100].copy_from_slice(&0xFFFFFFFFu32.to_le_bytes());
    rec
}

#[test]
fn entry_with_resident_data_attribute() {
    let rec = record_with_resident_data();
    let entry = parse_mft_entry(512, 1, &rec).unwrap();
    assert_eq!(entry.attrs.len(), 1);
    let attr = &entry.attrs[0];
    assert_eq!(attr.attr_type, 0x80);
    assert_eq!(attr.length, 40);
    assert_eq!(attr.attr_id, 11);
    match &attr.content {
        Content::Resident { data } => assert_eq!(&data[..], b"inline!"),
        Content::NonResident { .. } => panic!("expected resident content"),
    }
    let mut reader = entry.data(MemDevice::new(Vec::new())).unwrap();
    assert_eq!(reader.size(), 7);
    let bytes = reader.read_all().unwrap();
    assert_eq!(&bytes, b"inline!");
}

#[test]
fn entry_without_data_attribute() {
    let mut rec = record_with_fixup();
    // Only the sentinel: no attributes at all.
    rec[56..60].copy_from_slice(&0xFFFFFFFFu32.to_le_bytes());
    let entry = parse_mft_entry(512, 1, &rec).unwrap();
    assert_eq!(entry.attrs.len(), 0);
    assert!(entry.data(MemDevice::new(Vec::new())).is_none());
}

#[test]
fn entry_attribute_with_zero_length_is_rejected() {
    let mut rec = record_with_fixup();
    // An attribute whose length field is zero would never advance.
    rec[56..60].copy_from_slice(&0x80u32.to_le_bytes());
    rec[60..64].copy_from_slice(&0u32.to_le_bytes());
    assert_eq!(parse_mft_entry(512, 1, &rec).unwrap_err(), Error::FormatInvalid);
}

#[test]
fn sentinel_is_the_full_type_slot() {
    // An attribute whose type's low 16 bits read 0xFFFF is a real
    // attribute: the scan ends only at 0xFFFFFFFF filling the slot.
    let mut rec = record_with_resident_data();
    rec[56..60].copy_from_slice(&0x0100FFFFu32.to_le_bytes());
    let entry = parse_mft_entry(512, 1, &rec).unwrap();
    assert_eq!(entry.attrs.len(), 1);
    assert_eq!(entry.attrs[0].attr_type, 0x0100FFFF);
}
