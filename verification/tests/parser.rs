use rtptool::{parse, EntryDescriptor, RecordType, RtpError};

fn header(version: u16, flags: u16, ext: Option<u32>, option_flags: u16, cmd_flags: u16, combine: Option<u32>) -> Vec<u8> {
    let mut v = b"K*".to_vec();
    v.extend_from_slice(&version.to_le_bytes());
    v.extend_from_slice(&flags.to_le_bytes());
    if let Some(e) = ext {
        v.extend_from_slice(&e.to_le_bytes());
    }
    v.extend_from_slice(&option_flags.to_le_bytes());
    v.extend_from_slice(&1000u32.to_le_bytes()); // patch total size
    v.extend_from_slice(&0u32.to_le_bytes());
    v.extend_from_slice(&0x20u16.to_le_bytes()); // default attrs
    v.extend_from_slice(&0u16.to_le_bytes());
    v.extend_from_slice(&cmd_flags.to_le_bytes());
    if let Some(c) = combine {
        v.extend_from_slice(&c.to_le_bytes());
    }
    v.extend_from_slice(&0u32.to_le_bytes());
    v
}

fn plain_header() -> Vec<u8> {
    header(0x0209, 0, None, 0, 0, None)
}

fn lp(s: &str) -> Vec<u8> {
    let mut v = vec![(s.len() + 1) as u8];
    v.extend_from_slice(s.as_bytes());
    v.push(0);
    v
}

fn entry(size: u32, crc: u32) -> Vec<u8> {
    let mut b24 = vec![0u8; 24];
    b24[16..20].copy_from_slice(&size.to_le_bytes());
    let mut b10 = vec![0u8; 10];
    b10[6..10].copy_from_slice(&crc.to_le_bytes());
    b24.extend_from_slice(&b10);
    b24
}

const EOF_RECORD: [u8; 2] = [0x00, 0x10];

#[test]
fn empty_patch() {
    let mut data = plain_header();
    data.extend_from_slice(&EOF_RECORD);
    let p = parse(data.clone()).unwrap();
    assert_eq!(p.header.version, 0x0209);
    assert_eq!(p.header.patch_total_size, 1000);
    assert_eq!(p.header.default_attrs, 0x20);
    assert!(!p.header.extra_mode);
    assert_eq!(p.header.combine_mode_id, None);
    assert!(p.dirs.is_empty());
    assert!(p.records.is_empty());
    assert_eq!(p.raw, data);
}

#[test]
fn bad_file_magic() {
    let mut data = plain_header();
    data[1] = b'+';
    match parse(data) {
        Err(RtpError::InvalidMagic(m)) => assert_eq!(m, vec![0x4B, 0x2B]),
        other => panic!("unexpected {:?}", other.err()),
    }
}

#[test]
fn too_short_for_magic() {
    assert!(matches!(parse(vec![0x4B]), Err(RtpError::UnexpectedEof { offset: 0, needed: 2, available: 1 })));
}

#[test]
fn newer_version_rejected() {
    let data = header(0x020A, 0, None, 0, 0, None);
    assert!(matches!(parse(data), Err(RtpError::UnsupportedVersion(0x020A))));
}

#[test]
fn low_ext_bits_rejected() {
    let data = header(0x0209, 0x8000, Some(0x0001_0003), 0, 0, None);
    assert!(matches!(parse(data), Err(RtpError::UnsupportedFlags(0x0001_0003))));
}

#[test]
fn extra_mode_and_combine_id() {
    let mut data = header(0x0200, 0x8000, Some(0x0001_0000), 0, 0x0004, Some(0xDEAD_BEEF));
    data.extend_from_slice(&EOF_RECORD);
    let p = parse(data).unwrap();
    assert!(p.header.extra_mode);
    assert_eq!(p.header.ext_type_flags, 0x0001_0000);
    assert_eq!(p.header.combine_mode_id, Some(0xDEAD_BEEF));
}

#[test]
fn directory_table() {
    let mut data = header(0x0209, 0x0200, None, 0, 0, None);
    data.extend_from_slice(&2u16.to_le_bytes());
    data.extend_from_slice(&lp("bin"));
    data.extend_from_slice(&lp("data\\maps"));
    data.extend_from_slice(&EOF_RECORD);
    let p = parse(data).unwrap();
    assert_eq!(p.dirs, vec!["bin".to_string(), "data\\maps".to_string()]);
}

#[test]
fn truncated_directory_table() {
    let mut data = header(0x0209, 0x0200, None, 0, 0, None);
    data.extend_from_slice(&2u16.to_le_bytes());
    data.extend_from_slice(&lp("bin"));
    assert!(matches!(parse(data), Err(RtpError::UnexpectedEof { .. })));
}

/// A MODIFY record with one source and one destination entry and a 3-byte payload.
fn modify_patch() -> (Vec<u8>, usize) {
    let mut data = plain_header();
    data.extend_from_slice(&[0x04, 0x40]); // MODIFY, filename present
    data.extend_from_slice(&lp("a.bin"));
    data.extend_from_slice(&[0u8; 10]);
    data.extend_from_slice(&1u16.to_le_bytes()); // file_mod_flags
    data.push(1); // src_count
    data.push(1); // dst_count
    data.extend_from_slice(&0u32.to_le_bytes());
    data.extend_from_slice(&3u32.to_le_bytes()); // payload length
    data.extend_from_slice(&entry(100, 0xFFFF_FFFF));
    data.extend_from_slice(&entry(200, 0x1234));
    let payload_at = data.len();
    data.extend_from_slice(&[9, 9, 9]);
    data.extend_from_slice(&EOF_RECORD);
    (data, payload_at)
}

#[test]
fn modify_record() {
    let (data, payload_at) = modify_patch();
    let p = parse(data.clone()).unwrap();
    assert_eq!(p.records.len(), 1);
    let r = &p.records[0];
    assert_eq!(r.rec_type, RecordType::Modify);
    assert_eq!(r.rec_flags, 0x4004);
    assert_eq!(r.filename, "a.bin");
    assert_eq!(r.src_path, None);
    assert_eq!(r.file_mod_flags, 1);
    assert_eq!(r.src_count, 1);
    assert_eq!(r.src_entries, vec![EntryDescriptor { file_size: 100, crc32: 0x3FFF_FFFF }]);
    assert_eq!(r.dst_entries, vec![EntryDescriptor { file_size: 200, crc32: 0x1234 }]);
    assert_eq!(r.new_file_size, 200);
    assert_eq!(r.patch_data_offset, payload_at);
    assert_eq!(r.patch_data_size, 3);
    assert!(r.has_diff());
    // the diff range lies within the raw bytes
    assert!(r.patch_data_offset + r.patch_data_size <= p.raw.len());
    assert_eq!(&p.raw[payload_at..payload_at + 3], &[9, 9, 9]);
}

#[test]
fn truncated_payload_is_an_invalid_record() {
    let (mut data, payload_at) = modify_patch();
    data.truncate(payload_at + 1);
    match parse(data) {
        Err(RtpError::InvalidRecord { index, detail }) => {
            assert_eq!(index, 0);
            assert_eq!(
                detail,
                format!("unexpected end of data at offset 0x{:08x}: need 3 bytes, 1 available", payload_at)
            );
        }
        other => panic!("unexpected {:?}", other.err()),
    }
}

#[test]
fn new_record_size_is_first_entry() {
    let mut data = plain_header();
    data.extend_from_slice(&[0x04, 0x30]); // NEW, filename present
    data.extend_from_slice(&lp("readme.txt"));
    data.extend_from_slice(&[0u8; 10]);
    data.push(2); // src_count
    data.extend_from_slice(&entry(131072, 7));
    data.extend_from_slice(&entry(50, 8));
    let end_of_record = data.len();
    data.extend_from_slice(&EOF_RECORD);
    let p = parse(data).unwrap();
    let r = &p.records[0];
    assert_eq!(r.rec_type, RecordType::New);
    assert_eq!(r.src_count, 2);
    assert_eq!(r.src_entries.len(), 2);
    assert_eq!(r.new_file_size, 131072);
    assert_eq!(r.patch_data_offset, end_of_record);
    assert_eq!(r.patch_data_size, 0);
    assert!(!r.has_diff());
}

#[test]
fn new_record_with_zero_first_entry() {
    let mut data = plain_header();
    data.extend_from_slice(&[0x00, 0x30]); // NEW, no filename
    data.extend_from_slice(&[0u8; 10]);
    data.push(2);
    data.extend_from_slice(&entry(0, 0));
    data.extend_from_slice(&entry(50, 0));
    data.extend_from_slice(&EOF_RECORD);
    let p = parse(data).unwrap();
    assert_eq!(p.records[0].filename, "");
    assert_eq!(p.records[0].new_file_size, 0);
}

#[test]
fn mkdir_rename_delete_and_flags() {
    let mut data = header(0x0209, 0, None, 0x00C0, 0, None);
    // MKDIR with the paths bit set: paths are not read for directories
    data.extend_from_slice(&0x5204u16.to_le_bytes());
    data.extend_from_slice(&lp("newdir"));
    data.push(5); // seek VLI (option flags 0xC0 from the header)
    data.extend_from_slice(&7u32.to_le_bytes());
    data.extend_from_slice(&3u16.to_le_bytes());
    data.extend_from_slice(&[0u8; 10]);
    // RENAME with option override (no seek), disk index, attributes and paths
    data.extend_from_slice(&(0x2000u16 | 0x0002 | 0x0080 | 0x0100 | 0x0200).to_le_bytes());
    data.extend_from_slice(&0u16.to_le_bytes()); // option flags override
    data.push(1); // disk index VLI
    data.extend_from_slice(&0x20u16.to_le_bytes()); // attributes
    data.extend_from_slice(&lp("old.txt"));
    data.extend_from_slice(&lp("new.txt"));
    data.extend_from_slice(&[0u8; 10]);
    data.push(1); // dst_count
    data.extend_from_slice(&0u32.to_le_bytes());
    data.extend_from_slice(&0u32.to_le_bytes());
    data.extend_from_slice(&entry(42, 1));
    // DELETE without entries
    data.extend_from_slice(&0x6000u16.to_le_bytes());
    data.push(9); // seek VLI
    data.extend_from_slice(&[0u8; 10]);
    data.push(0);
    data.extend_from_slice(&0u32.to_le_bytes());
    data.extend_from_slice(&0u32.to_le_bytes());
    data.extend_from_slice(&EOF_RECORD);
    let p = parse(data).unwrap();
    assert_eq!(p.records.len(), 3);
    let m = &p.records[0];
    assert_eq!(m.rec_type, RecordType::Mkdir);
    assert_eq!(m.filename, "newdir");
    assert_eq!(m.src_path, None);
    assert_eq!(m.new_file_size, 0);
    let r = &p.records[1];
    assert_eq!(r.rec_type, RecordType::Rename);
    assert_eq!(r.src_path.as_deref(), Some("old.txt"));
    assert_eq!(r.dst_path.as_deref(), Some("new.txt"));
    assert_eq!(r.new_file_size, 42);
    assert_eq!(r.src_count, 0);
    let d = &p.records[2];
    assert_eq!(d.rec_type, RecordType::Delete);
    assert_eq!(d.new_file_size, 0);
    assert!(d.dst_entries.is_empty());
    for rec in &p.records {
        assert_ne!(rec.rec_type, RecordType::Eof);
        assert!(rec.patch_data_offset + rec.patch_data_size <= p.raw.len());
    }
}

#[test]
fn extra_mode_entries_carry_timestamps_and_path() {
    let mut data = header(0x0209, 0x8000, Some(0x0001_0000), 0x0040, 0, None);
    data.extend_from_slice(&0x6000u16.to_le_bytes()); // DELETE
    data.push(1); // seek VLI
    data.push(2); // checksum VLI (extra mode)
    data.extend_from_slice(&[0u8; 10]);
    data.push(1); // dst_count
    data.extend_from_slice(&0u32.to_le_bytes());
    data.extend_from_slice(&0u32.to_le_bytes());
    data.extend_from_slice(&entry(77, 0xC000_0001));
    data.extend_from_slice(&[0u8; 8]);
    data.extend_from_slice(&lp("alt\\path"));
    data.extend_from_slice(&EOF_RECORD);
    let p = parse(data).unwrap();
    assert_eq!(p.records[0].dst_entries, vec![EntryDescriptor { file_size: 77, crc32: 1 }]);
}

#[test]
fn missing_end_marker() {
    let data = plain_header();
    assert!(matches!(parse(data), Err(RtpError::UnexpectedEof { available: 0, needed: 2, .. })));
}

#[test]
fn default_entry_is_zero() {
    assert_eq!(EntryDescriptor::default(), EntryDescriptor { file_size: 0, crc32: 0 });
}

#[test]
fn rename_payload_is_skipped_not_a_diff() {
    let mut data = plain_header();
    data.extend_from_slice(&0x2000u16.to_le_bytes()); // RENAME
    data.extend_from_slice(&[0u8; 10]);
    data.push(0); // dst_count
    data.extend_from_slice(&0u32.to_le_bytes());
    data.extend_from_slice(&1u32.to_le_bytes()); // payload length 1
    let payload_at = data.len();
    data.push(0xEE);
    data.extend_from_slice(&0x6000u16.to_le_bytes()); // DELETE with payload length 2
    data.extend_from_slice(&[0u8; 10]);
    data.push(0);
    data.extend_from_slice(&0u32.to_le_bytes());
    data.extend_from_slice(&2u32.to_le_bytes());
    data.extend_from_slice(&[0xAA, 0xBB]);
    data.extend_from_slice(&EOF_RECORD);
    let p = parse(data).unwrap();
    assert_eq!(p.records.len(), 2);
    let r = &p.records[0];
    assert_eq!(r.rec_type, RecordType::Rename);
    assert_eq!(r.patch_data_size, 0);
    assert_eq!(r.patch_data_offset, payload_at);
    assert_eq!(r.new_file_size, 0);
    assert_eq!(r.src_count, 0);
    assert!(r.src_entries.is_empty() && r.dst_entries.is_empty());
    assert_eq!(p.records[1].rec_type, RecordType::Delete);
    assert_eq!(p.records[1].patch_data_size, 0);
    assert!(!p.records[1].has_diff());
}
