use rtptool::apply::{apply, OpFault, Opcode, OpcodeReader};
use rtptool::reader::Reader;
use rtptool::RtpError;

fn detail(r: Result<Vec<u8>, RtpError>) -> String {
    match r {
        Err(RtpError::ApplyError { filename, detail }) => {
            assert_eq!(filename, "");
            detail
        }
        other => panic!("unexpected {:?}", other),
    }
}

#[test]
fn empty_program_gives_zeroed_destination() {
    assert_eq!(apply(b"src", &[], 4, 1).unwrap(), vec![0, 0, 0, 0]);
    assert_eq!(apply(b"src", &[0x01, 0x03, 0x00, 0x03], 2, 1).unwrap(), vec![0, 0]);
}

#[test]
fn copy_from_absolute_offset() {
    let out = apply(b"ABCDEFGH", &[0x03, 2, 3, 0x01], 5, 1).unwrap();
    assert_eq!(out, b"CDE\0\0".to_vec());
}

#[test]
fn copy_past_source_end_copies_what_exists() {
    let out = apply(b"ABC", &[0x03, 1, 5], 4, 1).unwrap();
    assert_eq!(out, b"BC\0\0".to_vec());
}

#[test]
fn output_is_cut_to_destination_size() {
    let out = apply(b"ABCDEFGH", &[0x03, 0, 8], 3, 1).unwrap();
    assert_eq!(out, b"ABC".to_vec());
}

#[test]
fn gaps_are_filled_at_flush_in_order() {
    // gap of 2, copy "AB"; flush adds a final gap of 2 and fills both from the stream.
    let ops = [0x04, 2, 0, 2, 0x05, b'w', b'x', b'y', b'z', 0x01];
    let out = apply(b"ABCD", &ops, 6, 1).unwrap();
    assert_eq!(out, b"wxAByz".to_vec());
}

#[test]
fn flush_without_literals_is_truncated() {
    assert_eq!(detail(apply(b"", &[0x05, b'a'], 2, 1)), "opcode stream truncated");
}

#[test]
fn fills_repeat_their_pattern() {
    assert_eq!(apply(b"", &[0x11, 0x7A, 3], 3, 1).unwrap(), vec![0x7A; 3]);
    assert_eq!(apply(b"", &[0x12, 0xAB, 0xCD, 5], 5, 1).unwrap(), vec![0xAB, 0xCD, 0xAB, 0xCD, 0xAB]);
    assert_eq!(apply(b"", &[0x13, 1, 2, 3, 4, 6], 6, 1).unwrap(), vec![1, 2, 3, 4, 1, 2]);
    // gap variant: the gap stays zero until a flush
    assert_eq!(apply(b"", &[0x14, 1, 0x55, 2], 3, 1).unwrap(), vec![0, 0x55, 0x55]);
    assert_eq!(apply(b"", &[0x15, 1, 0x01, 0x02, 2, 0x05, 0xEE], 3, 1).unwrap(), vec![0xEE, 0x01, 0x02]);
    assert_eq!(apply(b"", &[0x16, 0, 9, 8, 7, 6, 4], 4, 1).unwrap(), vec![9, 8, 7, 6]);
}

#[test]
fn zero_fill_only_advances() {
    // ZFILL 2 then COPY lands after the zeros
    let out = apply(b"Q", &[0x0B, 2, 0x03, 0, 1], 3, 1).unwrap();
    assert_eq!(out, b"\0\0Q".to_vec());
    let out = apply(b"Q", &[0x0C, 1, 1, 0x03, 0, 1, 0x05, b'g'], 3, 1).unwrap();
    assert_eq!(out, b"g\0Q".to_vec());
}

#[test]
fn poke_adds_signed_delta() {
    // fill 0x10, then poke cursor 1 gets -1
    let out = apply(b"", &[0x11, 0x10, 3, 0x06, 1, 0xFF], 3, 1).unwrap();
    assert_eq!(out, vec![0x10, 0x0F, 0x10]);
    // POKE1 keeps its cursor: second poke lands one further
    let out = apply(b"", &[0x06, 1, 1, 0x06, 1, 2], 3, 1).unwrap();
    assert_eq!(out, vec![0, 1, 2]);
}

#[test]
fn poke_runs_reset_the_cursor() {
    // constant delta 3 at positions 0 and 2
    assert_eq!(apply(b"", &[0x07, 3, 2, 0, 2], 3, 1).unwrap(), vec![3, 0, 3]);
    assert_eq!(apply(b"", &[0x0E, 0xFE, 2, 1, 1], 3, 1).unwrap(), vec![0, 0xFE, 0xFE]);
    // per-entry deltas
    assert_eq!(apply(b"", &[0x0D, 2, 0, 5, 2, 3], 4, 1).unwrap(), vec![5, 0, 3, 0]);
}

#[test]
fn wide_pokes_carry_across_bytes() {
    // 0x00FF + 1 = 0x0100
    let out = apply(b"", &[0x11, 0xFF, 1, 0x0F, 1, 0, 1, 0], 2, 1).unwrap();
    assert_eq!(out, vec![0x00, 0x01]);
    // 32-bit: 0 + (-1) wraps to 0xFFFF_FFFF
    let out = apply(b"", &[0x10, 0xFF, 0xFF, 0xFF, 0xFF, 1, 0], 4, 1).unwrap();
    assert_eq!(out, vec![0xFF; 4]);
}

#[test]
fn templates_store_and_copy() {
    let out = apply(b"abcd", &[0x08, 1, 2, 0x09, 0, 0x0A, 1, 0], 5, 1).unwrap();
    assert_eq!(out, b"bc\0bc".to_vec());
}

#[test]
fn unknown_template_index() {
    assert_eq!(detail(apply(b"abcd", &[0x09, 0], 2, 1)), "TCOPY: template index 0 out of range");
}

#[test]
fn unknown_opcode() {
    assert_eq!(detail(apply(b"", &[0x11, 0, 1, 0x17], 2, 1)), "unknown opcode 0x17 at stream offset 3");
    assert_eq!(detail(apply(b"", &[0x00], 2, 1)), "unknown opcode 0x00 at stream offset 0");
}

#[test]
fn truncated_operand() {
    assert_eq!(detail(apply(b"", &[0x03, 0x01], 2, 1)), "opcode stream truncated");
    assert_eq!(detail(apply(b"", &[0x12, 0x01], 2, 1)), "opcode stream truncated");
}

#[test]
fn multi_source_operands_and_set_source() {
    // with two sources COPY carries a source selector before offset and count
    let out = apply(b"XYZ", &[0x03, 0, 1, 2], 2, 2).unwrap();
    assert_eq!(out, b"YZ".to_vec());
    // SET_SOURCE resets the write cursor
    let out = apply(b"XYZ", &[0x03, 0, 3, 0x02, 0, 0x03, 2, 1], 3, 1).unwrap();
    assert_eq!(out, b"ZYZ".to_vec());
}

#[test]
fn huge_operand_is_out_of_range() {
    // a negative count read as 64-bit unsigned leaves the addressable range
    assert_eq!(detail(apply(b"A", &[0x0C, 0x81, 1], 2, 1)), "opcode operand out of range");
}

#[test]
fn output_length_is_destination_size() {
    for (ops, size) in [(&[0x03u8, 0, 8][..], 3usize), (&[0x11, 1, 10][..], 7), (&[][..], 0), (&[0x05, 1, 2, 3][..], 3)] {
        assert_eq!(apply(b"ABCDEFGH", ops, size, 1).unwrap().len(), size);
    }
}

#[test]
fn opcode_bytes_round_trip() {
    for b in 0u8..=255 {
        match Opcode::try_from(b) {
            Ok(op) => {
                assert!((0x01..=0x16).contains(&b));
                assert_eq!(op.code(), b);
            }
            Err(e) => {
                assert_eq!(e, b);
                assert!(b == 0 || b > 0x16);
            }
        }
    }
    assert_eq!(Opcode::try_from(0x05), Ok(Opcode::Flush));
    assert_eq!(Opcode::Fill4Gap.code(), 0x16);
}

#[test]
fn zero_fill_writes_zeros() {
    // COPY 0 2; SET_SOURCE 0; ZFILL 2; END: the zero fill overwrites the copied bytes
    let ops = [0x03, 0x00, 0x02, 0x02, 0x00, 0x0B, 0x02, 0x01];
    assert_eq!(apply(&[5, 6], &ops, 2, 1).unwrap(), vec![0, 0]);
    // a pattern fill of zero bytes writes zeros too
    let ops = [0x03, 0x00, 0x03, 0x02, 0x00, 0x11, 0x00, 0x02];
    assert_eq!(apply(&[7, 8, 9], &ops, 3, 1).unwrap(), vec![0, 0, 9]);
    let ops = [0x03, 0x00, 0x02, 0x02, 0x00, 0x0C, 0x01, 0x01];
    assert_eq!(apply(&[7, 8], &ops, 2, 1).unwrap(), vec![7, 0]);
}

#[test]
fn negative_copy_count_is_out_of_range() {
    // a count of -1 read as 64-bit unsigned exceeds any buffer
    assert_eq!(detail(apply(b"AB", &[0x03, 0x00, 0x81], 2, 1)), "opcode operand out of range");
    assert_eq!(detail(apply(b"AB", &[0x0B, 0x81], 2, 1)), "opcode operand out of range");
}

#[test]
fn copy_from_far_offset_copies_nothing_and_advances() {
    // COPY off = i64::MAX (lead 0x7F, seven 0xFF bytes), count 1; then COPY 0 1
    let mut ops = vec![0x03, 0x7F];
    ops.extend_from_slice(&[0xFF; 7]);
    ops.extend_from_slice(&[0x01, 0x03, 0x00, 0x01]);
    assert_eq!(apply(b"AB", &ops, 2, 1).unwrap(), vec![0, b'A']);
}

#[test]
fn opcode_vli_reads_as_the_container_vli() {
    // one- and multi-byte VLIs, negative ones, and a truncated tail
    let data = [0x05u8, 0x85, 0x40, 0x02, 0xC1, 0x01, 0x02, 0x3F, 0x60, 0x01];
    let mut o = OpcodeReader::new(&data);
    let mut r = Reader::new(&data);
    loop {
        let a = o.vli();
        let b = r.vli();
        match (a, b) {
            (Ok(x), Ok(y)) => {
                assert_eq!(x, y);
                assert_eq!(o.pos, r.pos);
            }
            (Err(e), Err(_)) => {
                assert!(matches!(e, OpFault::Truncated));
                break;
            }
            (a, b) => panic!("readers disagree: {:?} {:?}", a, b),
        }
    }
    assert_eq!(o.pos, 8);
}
