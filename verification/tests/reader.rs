use rtptool::reader::Reader;
use rtptool::{RecordType, RtpError};

#[test]
fn vli_spec_worked_example() {
    let data = [0x60u8, 0xE1, 0x64];
    let mut r = Reader::new(&data);
    assert_eq!(r.vli().unwrap(), 25825);
    assert_eq!(r.pos, 3);
}

#[test]
fn vli_single_byte_values() {
    let data = [0x00u8, 0x05, 0x3F, 0x85, 0xBF];
    let mut r = Reader::new(&data);
    assert_eq!(r.vli().unwrap(), 0);
    assert_eq!(r.vli().unwrap(), 5);
    assert_eq!(r.vli().unwrap(), 63);
    assert_eq!(r.vli().unwrap(), -5);
    assert_eq!(r.vli().unwrap(), -63);
    assert_eq!(r.remaining(), 0);
}

#[test]
fn vli_two_byte_form_puts_lead_bits_high() {
    // lead 0x41: one continuation byte, high bits 0x01; tail 0x02.
    let data = [0x41u8, 0x02];
    let mut r = Reader::new(&data);
    assert_eq!(r.vli().unwrap(), 0x0102);
    // negative two-byte value
    let data = [0xC1u8, 0x02];
    let mut r = Reader::new(&data);
    assert_eq!(r.vli().unwrap(), -0x0102);
}

#[test]
fn vli_four_byte_form_is_little_endian() {
    // lead 0x70: three continuation bytes, no high bits.
    let data = [0x70u8, 0x01, 0x02, 0x03];
    let mut r = Reader::new(&data);
    assert_eq!(r.vli().unwrap(), 0x030201);
}

#[test]
fn vli_truncated_continuation() {
    let data = [0x60u8, 0xE1];
    let mut r = Reader::new(&data);
    match r.vli() {
        Err(RtpError::UnexpectedEof { offset, needed, available }) => {
            assert_eq!(offset, 2);
            assert_eq!(needed, 1);
            assert_eq!(available, 0);
        }
        other => panic!("unexpected {:?}", other),
    }
}

#[test]
fn fixed_width_little_endian() {
    let data = [0x34u8, 0x12, 0x78, 0x56, 0x34, 0x12, 0xAB];
    let mut r = Reader::new(&data);
    assert_eq!(r.u16_le().unwrap(), 0x1234);
    assert_eq!(r.u32_le().unwrap(), 0x1234_5678);
    assert_eq!(r.u8().unwrap(), 0xAB);
    assert_eq!(r.remaining(), 0);
}

#[test]
fn read_exact_past_end_keeps_position() {
    let data = [1u8, 2, 3];
    let mut r = Reader::new(&data);
    assert_eq!(r.read_exact(2).unwrap(), &[1u8, 2][..]);
    match r.read_exact(2) {
        Err(RtpError::UnexpectedEof { offset, needed, available }) => {
            assert_eq!((offset, needed, available), (2, 2, 1));
        }
        other => panic!("unexpected {:?}", other),
    }
    assert_eq!(r.pos, 2);
    assert_eq!(r.remaining(), 1);
    assert!(r.u16_le().is_err());
    assert_eq!(r.pos, 2);
}

#[test]
fn lp_string_forms() {
    let data = [
        4u8, b'a', b'b', b'c', 0, // NUL-terminated
        0, // empty
        0xFF, 3, 0, b'x', b'y', 0, // escaped u16 length
        2, b'h', b'i', // no terminator
    ];
    let mut r = Reader::new(&data);
    assert_eq!(r.lp_string().unwrap(), "abc");
    assert_eq!(r.lp_string().unwrap(), "");
    assert_eq!(r.lp_string().unwrap(), "xy");
    assert_eq!(r.lp_string().unwrap(), "hi");
    assert_eq!(r.remaining(), 0);
}

#[test]
fn lp_string_invalid_utf8_is_replaced() {
    let data = [3u8, 0xFF, b'a', 0];
    let mut r = Reader::new(&data);
    assert_eq!(r.lp_string().unwrap(), "\u{FFFD}a");
}

#[test]
fn lp_string_truncated() {
    let data = [5u8, b'a'];
    let mut r = Reader::new(&data);
    assert!(matches!(r.lp_string(), Err(RtpError::UnexpectedEof { offset: 1, needed: 5, available: 1 })));
}

#[test]
fn record_type_nibbles_and_names() {
    let expected = [
        (1u8, RecordType::Eof, "EOF"),
        (2, RecordType::Rename, "RENAME"),
        (3, RecordType::New, "NEW"),
        (4, RecordType::Modify, "MODIFY"),
        (5, RecordType::Mkdir, "MKDIR"),
        (6, RecordType::Delete, "DELETE"),
    ];
    for (n, t, name) in expected {
        assert_eq!(RecordType::from_nibble(n), t);
        assert_eq!(t.as_str(), name);
    }
    assert_eq!(RecordType::from_nibble(0), RecordType::Unknown(0));
    assert_eq!(RecordType::from_nibble(9), RecordType::Unknown(9));
    assert_eq!(RecordType::Unknown(9).as_str(), "UNKNOWN");
}
