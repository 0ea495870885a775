use rtptool::{crc32_masked, parse, patch_file, RtpError, RtpPatch};

fn lp(s: &str) -> Vec<u8> {
    let mut v = vec![(s.len() + 1) as u8];
    v.extend_from_slice(s.as_bytes());
    v.push(0);
    v
}

fn entry(size: u32, crc: u32) -> Vec<u8> {
    let mut b24 = vec![0u8; 24];
    b24[16..20].copy_from_slice(&size.to_le_bytes());
    let mut b10 = vec![0u8; 10];
    b10[6..10].copy_from_slice(&crc.to_le_bytes());
    b24.extend_from_slice(&b10);
    b24
}

/// Writes bits most-significant first.
struct Bits {
    bytes: Vec<u8>,
    used: u32,
}

impl Bits {
    fn put(&mut self, value: u32, n: u32) {
        for i in (0..n).rev() {
            if self.used == 8 {
                self.bytes.push(0);
                self.used = 0;
            }
            let bit = ((value >> i) & 1) as u8;
            let last = self.bytes.len() - 1;
            self.bytes[last] |= bit << (7 - self.used);
            self.used += 1;
        }
    }
}

const LIMIT: usize = 0x40_0000;

/// A raw-literal diff whose decompressed form is `program` followed by zero bytes up to the
/// 4 MiB output limit that small records get.
fn diff_stream(program: &[u8]) -> Vec<u8> {
    let mut b = Bits { bytes: Vec::new(), used: 8 };
    b.put(0xB59C, 16);
    b.put(1, 8);
    b.put(0, 8);
    b.put(16, 12);
    b.put(16, 12);
    b.put(0, 4);
    for &c in program {
        b.put(0, 1);
        b.put(c as u32, 8);
    }
    // the remaining literal tokens are zero bytes: nine zero bits each
    let total_bits = 60 + 9 * LIMIT;
    b.bytes.resize((total_bits + 7) / 8, 0);
    b.bytes
}

fn patch_with(payload: &[u8], new_size: u32, src_crc: u32) -> RtpPatch {
    let mut data = b"K*".to_vec();
    data.extend_from_slice(&0x0209u16.to_le_bytes());
    data.extend_from_slice(&0u16.to_le_bytes());
    data.extend_from_slice(&0u16.to_le_bytes());
    data.extend_from_slice(&[0u8; 14]);
    data.extend_from_slice(&0u32.to_le_bytes());
    data.extend_from_slice(&[0x04, 0x40]);
    data.extend_from_slice(&lp("a.bin"));
    data.extend_from_slice(&[0u8; 10]);
    data.extend_from_slice(&0u16.to_le_bytes());
    data.push(1);
    data.push(1);
    data.extend_from_slice(&0u32.to_le_bytes());
    data.extend_from_slice(&(payload.len() as u32).to_le_bytes());
    data.extend_from_slice(&entry(9, src_crc));
    data.extend_from_slice(&entry(new_size, 0));
    data.extend_from_slice(payload);
    data.extend_from_slice(&[0x00, 0x10]);
    parse(data).unwrap()
}

#[test]
fn crc32_of_check_string() {
    // CRC-32/IEEE("123456789") = 0xCBF43926, kept to 30 bits
    assert_eq!(crc32_masked(b"123456789"), 0x0BF4_3926);
    assert_eq!(crc32_masked(b""), 0);
    assert!(crc32_masked(b"The quick brown fox") <= 0x3FFF_FFFF);
}

#[test]
fn patch_file_applies_the_program() {
    let src = b"123456789";
    let p = patch_with(&diff_stream(&[0x11, b'Z', 8, 0x01]), 8, crc32_masked(src));
    let out = patch_file(&p, &p.records[0], src, true).unwrap();
    assert_eq!(out, b"ZZZZZZZZ".to_vec());
    assert_eq!(out.len(), p.records[0].new_file_size as usize);
}

#[test]
fn checksum_mismatch_is_reported_only_when_checked() {
    let src = b"123456789";
    let p = patch_with(&diff_stream(&[0x03, 0, 4, 0x01]), 4, 0x1111);
    match patch_file(&p, &p.records[0], src, true) {
        Err(RtpError::ChecksumMismatch { filename, expected, actual }) => {
            assert_eq!(filename, "a.bin");
            assert_eq!(expected, 0x1111);
            assert_eq!(actual, 0x0BF4_3926);
        }
        other => panic!("unexpected {:?}", other),
    }
    assert_eq!(patch_file(&p, &p.records[0], src, false).unwrap(), b"1234".to_vec());
}

#[test]
fn zero_crc_skips_validation() {
    let p = patch_with(&diff_stream(&[0x03, 2, 2, 0x01]), 2, 0);
    assert_eq!(patch_file(&p, &p.records[0], b"abcd", true).unwrap(), b"cd".to_vec());
}

#[test]
fn decompression_errors_name_the_file() {
    let p = patch_with(&[0x12, 0x34, 0, 0, 0, 0, 0, 0], 4, 0);
    match patch_file(&p, &p.records[0], b"", true) {
        Err(RtpError::DecompressError { filename, detail }) => {
            assert_eq!(filename, "a.bin");
            assert_eq!(detail, "bad diff magic: 0x1234 (want 0xB59C)");
        }
        other => panic!("unexpected {:?}", other),
    }
}

#[test]
fn apply_errors_name_the_file() {
    let p = patch_with(&diff_stream(&[0x17]), 4, 0);
    match patch_file(&p, &p.records[0], b"", false) {
        Err(RtpError::ApplyError { filename, detail }) => {
            assert_eq!(filename, "a.bin");
            assert_eq!(detail, "unknown opcode 0x17 at stream offset 0");
        }
        other => panic!("unexpected {:?}", other),
    }
}
