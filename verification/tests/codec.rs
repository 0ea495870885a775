use rtptool::codec::decompress;

/// Writes bits most-significant first.
struct Bits {
    bytes: Vec<u8>,
    used: u32,
}

impl Bits {
    fn new() -> Self {
        Bits { bytes: Vec::new(), used: 8 }
    }

    fn put(&mut self, value: u32, n: u32) {
        for i in (0..n).rev() {
            if self.used == 8 {
                self.bytes.push(0);
                self.used = 0;
            }
            let bit = ((value >> i) & 1) as u8;
            let last = self.bytes.len() - 1;
            self.bytes[last] |= bit << (7 - self.used);
            self.used += 1;
        }
    }
}

/// A raw-literal stream header: magic, literal mode 1, reserved, periods, window flag.
fn raw_header() -> Bits {
    let mut b = Bits::new();
    b.put(0xB59C, 16);
    b.put(1, 8);
    b.put(0, 8);
    b.put(16, 12);
    b.put(16, 12);
    b.put(0, 4);
    b
}

fn literal(b: &mut Bits, byte: u8) {
    b.put(0, 1);
    b.put(byte as u32, 8);
}

#[test]
fn raw_literals_up_to_the_output_limit() {
    let mut b = raw_header();
    for &c in b"ABC" {
        literal(&mut b, c);
    }
    let data = b.bytes;
    assert_eq!(decompress(&data, 0, 0, 3).unwrap(), b"ABC".to_vec());
    // the limit also cuts the output short
    assert_eq!(decompress(&data, 0, 0, 2).unwrap(), b"AB".to_vec());
    assert_eq!(decompress(&data, 0, 0, 0).unwrap(), Vec::<u8>::new());
}

#[test]
fn payload_at_an_offset_with_a_size() {
    let mut b = raw_header();
    literal(&mut b, b'Z');
    let mut data = vec![0xEE, 0xEE];
    data.extend_from_slice(&b.bytes);
    let n = b.bytes.len();
    data.extend_from_slice(&[0xFF; 4]);
    assert_eq!(decompress(&data, 2, n, 1).unwrap(), b"Z".to_vec());
}

#[test]
fn running_out_of_bits_is_truncation() {
    let mut b = raw_header();
    literal(&mut b, b'A');
    let data = b.bytes;
    assert_eq!(decompress(&data, 0, 0, 100).unwrap_err(), "bitstream truncated");
    assert_eq!(decompress(&data[..3], 0, 0, 100).unwrap_err(), "bitstream truncated");
}

#[test]
fn bad_diff_magic() {
    let data = [0x12u8, 0x34, 0, 0, 0, 0, 0, 0];
    assert_eq!(decompress(&data, 0, 0, 10).unwrap_err(), "bad diff magic: 0x1234 (want 0xB59C)");
}

#[test]
fn offset_beyond_data() {
    let data = [0u8; 4];
    assert_eq!(decompress(&data, 4, 0, 10).unwrap_err(), "offset 0x4 beyond data length 4");
    assert_eq!(decompress(&data, 0x20, 1, 10).unwrap_err(), "offset 0x20 beyond data length 4");
}

#[test]
fn output_never_exceeds_limit() {
    let mut b = raw_header();
    for i in 0..40u8 {
        literal(&mut b, i);
    }
    let data = b.bytes;
    for limit in [0usize, 1, 7, 39, 40] {
        let out = decompress(&data, 0, 0, limit).unwrap();
        assert_eq!(out.len(), limit);
        assert_eq!(out, (0..limit as u8).collect::<Vec<u8>>());
    }
}

#[test]
fn adaptive_literal_mode_reads_a_stream() {
    // literal mode 0 builds the adaptive literal alphabet; the few padding bits after
    // the header cannot hold a full token stream.
    let mut b = Bits::new();
    b.put(0xB59C, 16);
    b.put(0, 8);
    b.put(0, 8);
    b.put(16, 12);
    b.put(16, 12);
    b.put(8, 4);
    let data = b.bytes;
    assert!(decompress(&data, 0, 0, 10).is_err());
    assert_eq!(decompress(&data, 0, 0, 0).unwrap(), Vec::<u8>::new());
}

/// A header with the adaptive literal alphabet (literal mode 0) and the given periods.
fn adaptive_header(period: u32) -> Bits {
    let mut b = Bits::new();
    b.put(0xB59C, 16);
    b.put(0, 8);
    b.put(0, 8);
    b.put(period, 12);
    b.put(period, 12);
    b.put(0, 4);
    b
}

#[test]
fn adaptive_literals_escape_repeat_and_split() {
    // A fresh literal code has two words of length one: `0` is the escape symbol, which is
    // followed by the literal's 8 raw bits and registers it; `1` is the first registered
    // literal. Registering a third symbol splits the escape word: then `1` is the escape,
    // `00` the first literal and `01` the second.
    let mut b = adaptive_header(16);
    b.put(0, 1);
    b.put(0, 1);
    b.put(b'A' as u32, 8);
    b.put(0, 1);
    b.put(1, 1);
    b.put(0, 1);
    b.put(0, 1);
    b.put(b'B' as u32, 8);
    b.put(0, 1);
    b.put(0b00, 2);
    b.put(0, 1);
    b.put(0b01, 2);
    b.put(0, 1);
    b.put(1, 1);
    b.put(b'C' as u32, 8);
    let data = b.bytes;
    assert_eq!(decompress(&data, 0, 0, 6).unwrap(), b"AABABC".to_vec());
    assert_eq!(decompress(&data, 0, 0, 3).unwrap(), b"AAB".to_vec());
}
