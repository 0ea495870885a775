use vstd::prelude::*;

use crate::error::{ErrorView, RtpError};

verus! {

/// The end-of-data error for a read of `n` bytes at `pos`.
pub open spec fn eof_error(data: Seq<u8>, pos: int, n: int) -> ErrorView {
    ErrorView::UnexpectedEof { offset: pos, needed: n, available: data.len() - pos }
}

/// Reading `n` bytes at `pos`: the bytes and the position after them.
pub open spec fn spec_read(data: Seq<u8>, pos: int, n: int) -> Result<(Seq<u8>, int), ErrorView> {
    if pos + n > data.len() {
        Err(eof_error(data, pos, n))
    } else {
        Ok((data.subrange(pos, pos + n), pos + n))
    }
}

pub open spec fn spec_u8(data: Seq<u8>, pos: int) -> Result<(u8, int), ErrorView> {
    if pos + 1 > data.len() {
        Err(eof_error(data, pos, 1))
    } else {
        Ok((data[pos], pos + 1))
    }
}

/// Little-endian value of two bytes.
pub open spec fn le16(b0: u8, b1: u8) -> u16 {
    (b0 + 256 * b1) as u16
}

/// Little-endian value of four bytes.
pub open spec fn le32(b0: u8, b1: u8, b2: u8, b3: u8) -> u32 {
    (b0 + 0x100 * b1 + 0x1_0000 * b2 + 0x100_0000 * b3) as u32
}

pub open spec fn spec_u16(data: Seq<u8>, pos: int) -> Result<(u16, int), ErrorView> {
    if pos + 2 > data.len() {
        Err(eof_error(data, pos, 2))
    } else {
        Ok((le16(data[pos], data[pos + 1]), pos + 2))
    }
}

pub open spec fn spec_u32(data: Seq<u8>, pos: int) -> Result<(u32, int), ErrorView> {
    if pos + 4 > data.len() {
        Err(eof_error(data, pos, 4))
    } else {
        Ok((le32(data[pos], data[pos + 1], data[pos + 2], data[pos + 3]), pos + 4))
    }
}

/// The text that `String::from_utf8_lossy` makes of a byte sequence.
pub uninterp spec fn lossy_text(bytes: Seq<u8>) -> Seq<char>;

/// Whether every byte is an ASCII code (below 0x80).
pub open spec fn all_ascii(bytes: Seq<u8>) -> bool {
    forall|i: int| 0 <= i < bytes.len() ==> #[trigger] bytes[i] < 0x80
}

/// The text of string bytes: for ASCII bytes one character per byte, otherwise the lossy
/// UTF-8 decoding.
pub open spec fn decode_text(bytes: Seq<u8>) -> Seq<char> {
    if all_ascii(bytes) {
        bytes.map_values(|b: u8| b as char)
    } else {
        lossy_text(bytes)
    }
}

/// Converts bytes to text with `String::from_utf8_lossy`, invalid sequences becoming U+FFFD.
/// The contract names the resulting text, and states it for ASCII bytes, which are valid
/// UTF-8 and decode one character per byte; for other bytes its characters are not stated.
#[verifier::external_body]
fn utf8_lossy(bytes: &[u8]) -> (s: String)
    ensures
        s@ == lossy_text(bytes@),
        all_ascii(bytes@) ==> s@ == bytes@.map_values(|b: u8| b as char),
{
    String::from_utf8_lossy(bytes).into_owned()
}

/// The string bytes without a trailing NUL, if the last byte is one.
pub open spec fn strip_nul(raw: Seq<u8>) -> Seq<u8> {
    if raw.len() > 0 && raw.last() == 0 {
        raw.drop_last()
    } else {
        raw
    }
}

/// The length prefix of an lp_string: one byte, or 0xFF followed by a u16.
pub open spec fn spec_lp_len(data: Seq<u8>, pos: int) -> Result<(int, int), ErrorView> {
    match spec_u8(data, pos) {
        Err(e) => Err(e),
        Ok((l, p1)) => if l == 0xFF {
            match spec_u16(data, p1) {
                Err(e) => Err(e),
                Ok((w, p2)) => Ok((w as int, p2)),
            }
        } else {
            Ok((l as int, p1))
        },
    }
}

/// A length-prefixed, NUL-terminated ANSI string.
pub open spec fn spec_lp_string(data: Seq<u8>, pos: int) -> Result<(Seq<char>, int), ErrorView> {
    match spec_lp_len(data, pos) {
        Err(e) => Err(e),
        Ok((len, p2)) => if len == 0 {
            Ok((Seq::empty(), p2))
        } else {
            match spec_read(data, p2, len) {
                Err(e) => Err(e),
                Ok((raw, p3)) => Ok((decode_text(strip_nul(raw)), p3)),
            }
        },
    }
}

pub open spec fn pow256(k: nat) -> nat
    decreases k,
{
    if k == 0 {
        1
    } else {
        256 * pow256((k - 1) as nat)
    }
}

/// Little-endian value of a byte sequence.
pub open spec fn le_bytes(s: Seq<u8>) -> nat
    decreases s.len(),
{
    if s.len() == 0 {
        0
    } else {
        le_bytes(s.drop_last()) + (s.last() as nat) * pow256((s.len() - 1) as nat)
    }
}

/// Number of consecutive 1-bits in a VLI lead byte, starting at bit 6 and going down.
pub open spec fn vli_count(b: u8) -> nat {
    let low7 = b % 128;
    if low7 < 64 {
        0
    } else if low7 < 96 {
        1
    } else if low7 < 112 {
        2
    } else if low7 < 120 {
        3
    } else if low7 < 124 {
        4
    } else if low7 < 126 {
        5
    } else if low7 < 127 {
        6
    } else {
        7
    }
}

/// The bits of the lead byte that belong to the value: `b & ((0x40 >> count) - 1)`,
/// where the mask is all ones once the shift reaches zero.
pub open spec fn vli_high(b: u8) -> nat {
    let count = vli_count(b);
    if count == 0 {
        (b % 64) as nat
    } else if count == 1 {
        (b % 32) as nat
    } else if count == 2 {
        (b % 16) as nat
    } else if count == 3 {
        (b % 8) as nat
    } else if count == 4 {
        (b % 4) as nat
    } else if count == 5 {
        (b % 2) as nat
    } else if count == 6 {
        0
    } else {
        b as nat
    }
}

/// The signed value: the magnitude taken as an `i64`, negated when bit 7 of the lead byte is set.
pub open spec fn vli_signed(b: u8, mag: nat) -> i64 {
    let v: int = if mag < 0x8000_0000_0000_0000 { mag as int } else { mag - 0x1_0000_0000_0000_0000 };
    (if b >= 128 { -v } else { v }) as i64
}

/// A variable-length integer: lead byte, then `vli_count` little-endian continuation bytes.
pub open spec fn spec_vli(data: Seq<u8>, pos: int) -> Result<(i64, int), ErrorView> {
    if pos + 1 > data.len() {
        Err(eof_error(data, pos, 1))
    } else {
        let b = data[pos];
        let count = vli_count(b);
        if pos + 1 + count > data.len() {
            Err(eof_error(data, data.len() as int, 1))
        } else {
            let tail = le_bytes(data.subrange(pos + 1, pos + 1 + count));
            Ok((vli_signed(b, vli_high(b) * pow256(count) + tail), pos + 1 + count))
        }
    }
}

pub proof fn lemma_le_bytes_bound(s: Seq<u8>)
    ensures
        le_bytes(s) < pow256(s.len()),
    decreases s.len(),
{
    if s.len() > 0 {
        let k = (s.len() - 1) as nat;
        lemma_le_bytes_bound(s.drop_last());
        let a = le_bytes(s.drop_last());
        let b = s.last() as nat;
        let p = pow256(k);
        assert(a + b * p < 256 * p) by (nonlinear_arith)
            requires
                a < p,
                b <= 255,
        ;
    }
}

pub proof fn lemma_pow256_pos(k: nat)
    ensures
        pow256(k) >= 1,
    decreases k,
{
    if k > 0 {
        lemma_pow256_pos((k - 1) as nat);
    }
}

pub proof fn lemma_pow256_seven()
    ensures
        pow256(7) == 0x100_0000_0000_0000,
{
    reveal_with_fuel(pow256, 8);
}

/// Bit facts about a lead byte: its low bits as remainders, its tested bits as ranges, and
/// the shifted masks.
proof fn lemma_lead_bits(b: u8)
    by (bit_vector)
    ensures
        b & 0x3F == b % 64,
        b & 0x1F == b % 32,
        b & 0x0F == b % 16,
        b & 0x07 == b % 8,
        b & 0x03 == b % 4,
        b & 0x01 == b % 2,
        b & 0x00 == 0,
        (b & 0x40 != 0) <==> b % 128 >= 64,
        (b & 0x20 != 0) <==> b % 64 >= 32,
        (b & 0x10 != 0) <==> b % 32 >= 16,
        (b & 0x08 != 0) <==> b % 16 >= 8,
        (b & 0x04 != 0) <==> b % 8 >= 4,
        (b & 0x02 != 0) <==> b % 4 >= 2,
        (b & 0x01 != 0) <==> b % 2 >= 1,
        0x40u8 >> 0u8 == 0x40u8,
        0x40u8 >> 1u8 == 0x20u8,
        0x40u8 >> 2u8 == 0x10u8,
        0x40u8 >> 3u8 == 0x08u8,
        0x40u8 >> 4u8 == 0x04u8,
        0x40u8 >> 5u8 == 0x02u8,
        0x40u8 >> 6u8 == 0x01u8,
{
}

/// The lead byte of a VLI: its count is the number of consecutive 1-bits from bit 6 down
/// (bits 0x40, 0x20, 0x10, ... set for each counted bit, and the next one clear), and the
/// part of the value it carries is `b & ((0x40 >> count) - 1)`, the whole byte once the
/// count reaches 7.
pub proof fn lemma_vli_lead_byte(b: u8)
    ensures
        vli_count(b) <= 7,
        vli_count(b) >= 1 <==> b & 0x40 != 0,
        vli_count(b) >= 1 ==> (vli_count(b) >= 2 <==> b & 0x20 != 0),
        vli_count(b) >= 2 ==> (vli_count(b) >= 3 <==> b & 0x10 != 0),
        vli_count(b) >= 3 ==> (vli_count(b) >= 4 <==> b & 0x08 != 0),
        vli_count(b) >= 4 ==> (vli_count(b) >= 5 <==> b & 0x04 != 0),
        vli_count(b) >= 5 ==> (vli_count(b) >= 6 <==> b & 0x02 != 0),
        vli_count(b) >= 6 ==> (vli_count(b) >= 7 <==> b & 0x01 != 0),
        vli_count(b) < 7 ==> vli_high(b) == (b & (((0x40u8 >> (vli_count(b) as u8)) - 1) as u8)) as nat,
        vli_count(b) == 7 ==> vli_high(b) == b as nat,
{
    lemma_lead_bits(b);
    let c = vli_count(b);
    if c == 0 {
        assert((((0x40u8 >> 0u8) - 1) as u8) == 0x3Fu8);
    } else if c == 1 {
        assert((((0x40u8 >> 1u8) - 1) as u8) == 0x1Fu8);
    } else if c == 2 {
        assert((((0x40u8 >> 2u8) - 1) as u8) == 0x0Fu8);
    } else if c == 3 {
        assert((((0x40u8 >> 3u8) - 1) as u8) == 0x07u8);
    } else if c == 4 {
        assert((((0x40u8 >> 4u8) - 1) as u8) == 0x03u8);
    } else if c == 5 {
        assert((((0x40u8 >> 5u8) - 1) as u8) == 0x01u8);
    } else if c == 6 {
        assert((((0x40u8 >> 6u8) - 1) as u8) == 0x00u8);
    }
}

/// A VLI in full: the lead byte `b` at `pos` with its count `c` of continuation bytes, and
/// the value `(b & ((0x40 >> c) - 1)) * 256^c` plus the continuation bytes read little-endian,
/// negated when bit 7 of `b` is set; reading ends after the last continuation byte.
pub proof fn lemma_vli_value(data: Seq<u8>, pos: int)
    requires
        0 <= pos < data.len(),
        pos + 1 + vli_count(data[pos]) <= data.len(),
    ensures
        ({
            let b = data[pos];
            let c = vli_count(b);
            let high: nat = if c < 7 { (b & (((0x40u8 >> (c as u8)) - 1) as u8)) as nat } else { b as nat };
            let tail = le_bytes(data.subrange(pos + 1, pos + 1 + c));
            spec_vli(data, pos) == Ok::<(i64, int), ErrorView>((vli_signed(b, high * pow256(c) + tail), pos + 1 + c))
        }),
{
    lemma_vli_lead_byte(data[pos]);
}

/// A VLI whose lead byte has bit 6 clear is that single byte: its low six bits, negated when
/// bit 7 is set; so values 0..63 need one byte and read the same in any byte order.
pub proof fn lemma_vli_single_byte(data: Seq<u8>, pos: int)
    requires
        0 <= pos < data.len(),
        data[pos] % 128 < 64,
    ensures
        spec_vli(data, pos) == Ok::<(i64, int), ErrorView>(
            (
                (if data[pos] >= 128 { -((data[pos] % 64) as int) } else { (data[pos] % 64) as int }) as i64,
                pos + 1,
            ),
        ),
{
    let b = data[pos];
    assert(data.subrange(pos + 1, pos + 1) =~= Seq::<u8>::empty());
    assert(vli_count(b) == 0);
    assert(pow256(0) == 1);
    assert(le_bytes(Seq::<u8>::empty()) == 0);
    assert(vli_high(b) * pow256(0) + 0 == b % 64);
}

pub struct Reader<'a> {
    pub data: &'a [u8],
    pub pos: usize,
}

impl<'a> Reader<'a> {
    /// The position lies within the data.
    pub open spec fn wf(&self) -> bool {
        self.pos <= self.data@.len()
    }

    pub fn new(data: &'a [u8]) -> (r: Self)
        ensures
            r.data == data,
            r.pos == 0,
            r.wf(),
    {
        Reader { data, pos: 0 }
    }

    pub fn remaining(&self) -> (n: usize)
        requires
            self.wf(),
        ensures
            n == self.data@.len() - self.pos,
    {
        self.data.len() - self.pos
    }

    pub fn read_exact(&mut self, n: usize) -> (r: Result<&'a [u8], RtpError>)
        requires
            old(self).wf(),
        ensures
            final(self).wf(),
            final(self).data == old(self).data,
            old(self).pos <= final(self).pos,
            match spec_read(old(self).data@, old(self).pos as int, n as int) {
                Ok((bytes, p)) => r matches Ok(s) && s@ == bytes && final(self).pos == p,
                Err(e) => r matches Err(err) && err@ == e && final(self).pos == old(self).pos,
            },
    {
        if n > self.data.len() - self.pos {
            return Err(
                RtpError::UnexpectedEof {
                    offset: self.pos,
                    needed: n,
                    available: self.data.len() - self.pos,
                },
            );
        }
        let s = &self.data[self.pos..self.pos + n];
        self.pos = self.pos + n;
        Ok(s)
    }

    pub fn u8(&mut self) -> (r: Result<u8, RtpError>)
        requires
            old(self).wf(),
        ensures
            final(self).wf(),
            final(self).data == old(self).data,
            old(self).pos <= final(self).pos,
            match spec_u8(old(self).data@, old(self).pos as int) {
                Ok((v, p)) => r == Ok::<u8, RtpError>(v) && final(self).pos == p,
                Err(e) => r matches Err(err) && err@ == e && final(self).pos == old(self).pos,
            },
    {
        let b = self.read_exact(1)?;
        Ok(b[0])
    }

    pub fn u16_le(&mut self) -> (r: Result<u16, RtpError>)
        requires
            old(self).wf(),
        ensures
            final(self).wf(),
            final(self).data == old(self).data,
            old(self).pos <= final(self).pos,
            match spec_u16(old(self).data@, old(self).pos as int) {
                Ok((v, p)) => r == Ok::<u16, RtpError>(v) && final(self).pos == p,
                Err(e) => r matches Err(err) && err@ == e && final(self).pos == old(self).pos,
            },
    {
        let b = self.read_exact(2)?;
        Ok(b[0] as u16 + 256 * (b[1] as u16))
    }

    pub fn u32_le(&mut self) -> (r: Result<u32, RtpError>)
        requires
            old(self).wf(),
        ensures
            final(self).wf(),
            final(self).data == old(self).data,
            old(self).pos <= final(self).pos,
            match spec_u32(old(self).data@, old(self).pos as int) {
                Ok((v, p)) => r == Ok::<u32, RtpError>(v) && final(self).pos == p,
                Err(e) => r matches Err(err) && err@ == e && final(self).pos == old(self).pos,
            },
    {
        let b = self.read_exact(4)?;
        Ok(b[0] as u32 + 0x100 * (b[1] as u32) + 0x1_0000 * (b[2] as u32) + 0x100_0000 * (b[3] as u32))
    }

    /// ANSI NUL-terminated length-prefixed string.
    /// Length byte includes the NUL. 0xFF -> u16 length follows.
    pub fn lp_string(&mut self) -> (r: Result<String, RtpError>)
        requires
            old(self).wf(),
        ensures
            final(self).wf(),
            final(self).data == old(self).data,
            old(self).pos <= final(self).pos,
            match spec_lp_string(old(self).data@, old(self).pos as int) {
                Ok((s, p)) => r matches Ok(t) && t@ == s && final(self).pos == p,
                Err(e) => r matches Err(err) && err@ == e,
            },
    {
        let len = self.u8()?;
        let len: usize = if len == 0xFF {
            self.u16_le()? as usize
        } else {
            len as usize
        };
        if len == 0 {
            return Ok(String::new());
        }
        let raw = self.read_exact(len)?;
        let text = if raw[raw.len() - 1] == 0 {
            &raw[0..raw.len() - 1]
        } else {
            raw
        };
        proof {
            assert(text@ == strip_nul(raw@));
        }
        Ok(utf8_lossy(text))
    }

    /// Variable-length integer: lead byte bit 7 is the sign, the run of 1-bits from bit 6
    /// downward counts the little-endian continuation bytes.
    pub fn vli(&mut self) -> (r: Result<i64, RtpError>)
        requires
            old(self).wf(),
        ensures
            final(self).wf(),
            final(self).data == old(self).data,
            old(self).pos <= final(self).pos,
            match spec_vli(old(self).data@, old(self).pos as int) {
                Ok((v, p)) => r == Ok::<i64, RtpError>(v) && final(self).pos == p,
                Err(e) => r matches Err(err) && err@ == e,
            },
    {
        let ghost data = self.data@;
        let ghost d0 = self.data;
        let ghost start = self.pos as int;
        let b = self.u8()?;
        let low7 = b % 128;
        let count: usize = if low7 < 64 {
            0
        } else if low7 < 96 {
            1
        } else if low7 < 112 {
            2
        } else if low7 < 120 {
            3
        } else if low7 < 124 {
            4
        } else if low7 < 126 {
            5
        } else if low7 < 127 {
            6
        } else {
            7
        };
        let high: u64 = if count == 0 {
            (b % 64) as u64
        } else if count == 1 {
            (b % 32) as u64
        } else if count == 2 {
            (b % 16) as u64
        } else if count == 3 {
            (b % 8) as u64
        } else if count == 4 {
            (b % 4) as u64
        } else if count == 5 {
            (b % 2) as u64
        } else if count == 6 {
            0
        } else {
            b as u64
        };
        assert(count == vli_count(b) && high == vli_high(b));
        proof {
            lemma_pow256_seven();
            assert(data.subrange(start + 1, start + 1) =~= Seq::<u8>::empty());
        }
        let mut tail: u64 = 0;
        let mut f: u64 = 1;
        let mut i: usize = 0;
        while i < count
            invariant
                self.wf(),
                self.data@ == data,
                self.data == d0,
                d0 == old(self).data,
                start == old(self).pos as int,
                0 <= start < data.len(),
                b == data[start],
                count == vli_count(b),
                count <= 7,
                i <= count,
                self.pos == start + 1 + i,
                f == pow256(i as nat),
                tail == le_bytes(data.subrange(start + 1, start + 1 + i)),
                tail < f,
                f * pow256((7 - i) as nat) == 0x100_0000_0000_0000,
                f <= 0x100_0000_0000_0000,
            ensures
                i == count,
            decreases count - i,
        {
            if self.pos >= self.data.len() {
                proof {
                    assert(start + 1 + count > data.len());
                }
                return Err(
                    RtpError::UnexpectedEof {
                        offset: self.pos,
                        needed: 1,
                        available: self.data.len() - self.pos,
                    },
                );
            }
            let nb = self.data[self.pos];
            self.pos = self.pos + 1;
            proof {
                let s = data.subrange(start + 1, start + 1 + i + 1);
                assert(s.drop_last() =~= data.subrange(start + 1, start + 1 + i));
                assert(s.last() == nb);
                let rest = (7 - i - 1) as nat;
                assert(pow256((rest + 1) as nat) == 256 * pow256(rest));
                lemma_pow256_pos(rest);
                let ff = f as nat;
                let tt = tail as nat;
                let bb = nb as nat;
                let pr = pow256(rest);
                assert(tt + bb * ff < 256 * ff && 256 * ff * pr == 0x100_0000_0000_0000 && 256 * ff <= 0x100_0000_0000_0000)
                    by (nonlinear_arith)
                    requires
                        tt < ff,
                        bb <= 255,
                        ff * (256 * pr) == 0x100_0000_0000_0000,
                        pr >= 1,
                ;
            }
            tail = tail + (nb as u64) * f;
            f = f * 256;
            i = i + 1;
        }
        proof {
            assert(vli_high(b) <= 255);
            let h = high as nat;
            let ff = f as nat;
            assert(h * ff <= 255 * ff) by (nonlinear_arith)
                requires
                    h <= 255,
            ;
            if count < 7 {
                let rest = (7 - count - 1) as nat;
                assert(pow256((rest + 1) as nat) == 256 * pow256(rest));
                lemma_pow256_pos(rest);
                let pr = pow256(rest);
                assert(h * ff + (tail as nat) < 0x8000_0000_0000_0000) by (nonlinear_arith)
                    requires
                        h < 64,
                        (tail as nat) < ff,
                        ff * (256 * pr) == 0x100_0000_0000_0000,
                        pr >= 1,
                ;
            } else {
                assert(ff == 0x100_0000_0000_0000);
                if h * ff + (tail as nat) >= 0x8000_0000_0000_0000 {
                    assert(h >= 128) by (nonlinear_arith)
                        requires
                            h * ff + (tail as nat) >= 0x8000_0000_0000_0000,
                            (tail as nat) < ff,
                            ff == 0x100_0000_0000_0000,
                    ;
                    assert(h == 255);
                }
            }
        }
        let mag: u64 = high * f + tail;
        let neg = b >= 128;
        let v: i64 = if mag < 0x8000_0000_0000_0000 {
            let m = mag as i64;
            if neg { -m } else { m }
        } else {
            let m = (0xFFFF_FFFF_FFFF_FFFF - mag) as i64;
            if neg { m + 1 } else { -m - 1 }
        };
        Ok(v)
    }
}

} // verus!
