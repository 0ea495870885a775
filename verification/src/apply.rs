use vstd::prelude::*;

use crate::error::{ErrorView, RtpError};
use crate::text::{dec_text, hex_text, zero_pad};
use crate::reader::{
    le_bytes, lemma_le_bytes_bound, lemma_pow256_pos, pow256, spec_read, spec_u8, spec_vli, Reader,
};

verus! {

/// Opcodes of the reconstruction program, with byte values 0x01 to 0x16 in declaration order.
#[derive(Debug, Clone, Copy, PartialEq, Eq, Structural)]
pub enum Opcode {
    End,
    SetSource,
    Copy,
    CopyGap,
    Flush,
    Poke1,
    Poke1xN,
    Store,
    Tcopy,
    TcopyGap,
    Zfill,
    ZfillGap,
    Poke1xNVar,
    Poke1xNB,
    Poke16xN,
    Poke32xN,
    Fill1,
    Fill2,
    Fill4,
    Fill1Gap,
    Fill2Gap,
    Fill4Gap,
}

/// The opcode that a stream byte denotes, if any.
pub open spec fn spec_opcode(b: u8) -> Option<Opcode> {
    if b == 0x01 {
        Some(Opcode::End)
    } else if b == 0x02 {
        Some(Opcode::SetSource)
    } else if b == 0x03 {
        Some(Opcode::Copy)
    } else if b == 0x04 {
        Some(Opcode::CopyGap)
    } else if b == 0x05 {
        Some(Opcode::Flush)
    } else if b == 0x06 {
        Some(Opcode::Poke1)
    } else if b == 0x07 {
        Some(Opcode::Poke1xN)
    } else if b == 0x08 {
        Some(Opcode::Store)
    } else if b == 0x09 {
        Some(Opcode::Tcopy)
    } else if b == 0x0A {
        Some(Opcode::TcopyGap)
    } else if b == 0x0B {
        Some(Opcode::Zfill)
    } else if b == 0x0C {
        Some(Opcode::ZfillGap)
    } else if b == 0x0D {
        Some(Opcode::Poke1xNVar)
    } else if b == 0x0E {
        Some(Opcode::Poke1xNB)
    } else if b == 0x0F {
        Some(Opcode::Poke16xN)
    } else if b == 0x10 {
        Some(Opcode::Poke32xN)
    } else if b == 0x11 {
        Some(Opcode::Fill1)
    } else if b == 0x12 {
        Some(Opcode::Fill2)
    } else if b == 0x13 {
        Some(Opcode::Fill4)
    } else if b == 0x14 {
        Some(Opcode::Fill1Gap)
    } else if b == 0x15 {
        Some(Opcode::Fill2Gap)
    } else if b == 0x16 {
        Some(Opcode::Fill4Gap)
    } else {
        None
    }
}

/// The byte value of an opcode.
pub open spec fn spec_opcode_byte(op: Opcode) -> u8 {
    match op {
        Opcode::End => 0x01,
        Opcode::SetSource => 0x02,
        Opcode::Copy => 0x03,
        Opcode::CopyGap => 0x04,
        Opcode::Flush => 0x05,
        Opcode::Poke1 => 0x06,
        Opcode::Poke1xN => 0x07,
        Opcode::Store => 0x08,
        Opcode::Tcopy => 0x09,
        Opcode::TcopyGap => 0x0A,
        Opcode::Zfill => 0x0B,
        Opcode::ZfillGap => 0x0C,
        Opcode::Poke1xNVar => 0x0D,
        Opcode::Poke1xNB => 0x0E,
        Opcode::Poke16xN => 0x0F,
        Opcode::Poke32xN => 0x10,
        Opcode::Fill1 => 0x11,
        Opcode::Fill2 => 0x12,
        Opcode::Fill4 => 0x13,
        Opcode::Fill1Gap => 0x14,
        Opcode::Fill2Gap => 0x15,
        Opcode::Fill4Gap => 0x16,
    }
}

/// Decoding and encoding of opcode bytes are inverse: every opcode's byte decodes to it, and
/// every byte that decodes to an opcode is that opcode's byte; exactly 0x01..=0x16 decode.
pub proof fn lemma_opcode_round_trip(op: Opcode, b: u8)
    ensures
        spec_opcode(spec_opcode_byte(op)) == Some(op),
        spec_opcode(b) matches Some(o) ==> spec_opcode_byte(o) == b,
        spec_opcode(b) is Some <==> 0x01 <= b <= 0x16,
{
}

/// Why an opcode program could not be run.
pub enum ApplyFault {
    /// An operand or a literal run reaches past the end of the stream.
    Truncated,
    /// A byte at `offset` that is no opcode.
    UnknownOpcode { byte: u8, offset: int },
    /// A template copy names a template that was never stored.
    TemplateIndex { idx: int },
    /// A position or length leaves the range that a buffer can address (`isize::MAX`).
    OutOfRange,
}

pub open spec fn u64_limit() -> int {
    0x1_0000_0000_0000_0000
}

/// One past the largest buffer position or length that the machine can hold.
pub open spec fn size_limit() -> int {
    isize::MAX as int + 1
}

pub open spec fn in_i64(v: int) -> bool {
    -0x8000_0000_0000_0000 <= v < 0x8000_0000_0000_0000
}

/// An `i64` operand taken as a 64-bit unsigned size (two's complement).
pub open spec fn as_u64(v: i64) -> int {
    if v >= 0 {
        v as int
    } else {
        v + u64_limit()
    }
}

/// A byte taken as a signed 8-bit delta.
pub open spec fn s8(b: u8) -> int {
    if b >= 128 {
        b - 256
    } else {
        b as int
    }
}

/// A little-endian byte run taken as a signed value of its width.
pub open spec fn signed_le(bytes: Seq<u8>) -> int {
    let v = le_bytes(bytes) as int;
    let half = pow256(bytes.len()) / 2;
    if v >= half {
        v - pow256(bytes.len())
    } else {
        v
    }
}

/// The buffer extended with zeros to at least `n` bytes.
pub open spec fn grow(out: Seq<u8>, n: int) -> Seq<u8> {
    if n > out.len() {
        out + Seq::new((n - out.len()) as nat, |i: int| 0u8)
    } else {
        out
    }
}

/// The buffer with `bytes` written at `off`.
pub open spec fn write_bytes(out: Seq<u8>, off: int, bytes: Seq<u8>) -> Seq<u8> {
    Seq::new(
        out.len(),
        |j: int|
            if off <= j < off + bytes.len() {
                bytes[j - off]
            } else {
                out[j]
            },
    )
}

/// The buffer with `count` bytes at `off` taken cyclically from `pattern`.
pub open spec fn fill_pattern(out: Seq<u8>, off: int, pattern: Seq<u8>, count: int) -> Seq<u8> {
    Seq::new(
        out.len(),
        |j: int|
            if off <= j < off + count {
                pattern[(j - off) % (pattern.len() as int)]
            } else {
                out[j]
            },
    )
}

/// The little-endian bytes of `value` modulo 256^width.
pub open spec fn le_encode(value: int, width: nat) -> Seq<u8> {
    Seq::new(width, |k: int| ((value % (pow256(width) as int)) / (pow256(k as nat) as int) % 256) as u8)
}

/// The interpreter's state: output, write and poke cursors, gap and template lists,
/// and the stream position.
pub struct Machine {
    pub out: Seq<u8>,
    pub out_pos: int,
    pub poke_pos: int,
    pub gaps: Seq<(int, int)>,
    pub templates: Seq<(int, int)>,
    pub pos: int,
}

pub open spec fn op_vli(ops: Seq<u8>, pos: int) -> Result<(i64, int), ApplyFault> {
    match spec_vli(ops, pos) {
        Ok(r) => Ok(r),
        Err(_) => Err(ApplyFault::Truncated),
    }
}

/// A VLI operand that is present only when `cond` holds (0 otherwise).
pub open spec fn op_vli_if(ops: Seq<u8>, pos: int, cond: bool) -> Result<(i64, int), ApplyFault> {
    if cond {
        op_vli(ops, pos)
    } else {
        Ok((0, pos))
    }
}

pub open spec fn op_byte(ops: Seq<u8>, pos: int) -> Result<(u8, int), ApplyFault> {
    match spec_u8(ops, pos) {
        Ok(r) => Ok(r),
        Err(_) => Err(ApplyFault::Truncated),
    }
}

pub open spec fn op_bytes(ops: Seq<u8>, pos: int, n: int) -> Result<(Seq<u8>, int), ApplyFault> {
    match spec_read(ops, pos, n) {
        Ok(r) => Ok(r),
        Err(_) => Err(ApplyFault::Truncated),
    }
}

/// COPY: record a gap of `adv` at the write cursor and skip it, then copy `cnt` source
/// bytes from absolute offset `off` (as many as the source holds) and advance by `cnt`.
pub open spec fn spec_copy(src: Seq<u8>, m: Machine, adv: int, off: int, cnt: int) -> Result<Machine, ApplyFault> {
    let gaps = if adv > 0 { m.gaps.push((m.out_pos, adv)) } else { m.gaps };
    let op = m.out_pos + adv;
    if op >= size_limit() || op + cnt >= size_limit() {
        Err(ApplyFault::OutOfRange)
    } else {
        let run = if off >= src.len() {
            Seq::empty()
        } else if cnt <= src.len() - off {
            src.subrange(off, off + cnt)
        } else {
            src.subrange(off, src.len() as int)
        };
        Ok(Machine {
            out: write_bytes(grow(m.out, op + cnt), op, run),
            out_pos: op + cnt,
            gaps,
            ..m
        })
    }
}

/// The bytes that a fill repeats: its pattern, or a single zero for the zero fills.
pub open spec fn fill_unit(pattern: Seq<u8>) -> Seq<u8> {
    if pattern.len() == 0 {
        seq![0u8]
    } else {
        pattern
    }
}

/// A fill: gap of `seek`, then `count` bytes written, repeating the pattern (zeros for the
/// zero fills, whose pattern is empty); the cursor advances by `count`.
pub open spec fn spec_fill(m: Machine, seek: int, pattern: Seq<u8>, count: int) -> Result<Machine, ApplyFault> {
    let gaps = if seek > 0 { m.gaps.push((m.out_pos, seek)) } else { m.gaps };
    let op = m.out_pos + seek;
    if op >= size_limit() || op + count >= size_limit() {
        Err(ApplyFault::OutOfRange)
    } else {
        let g = grow(m.out, op + count);
        Ok(Machine {
            out: fill_pattern(g, op, fill_unit(pattern), count),
            out_pos: op + count,
            gaps,
            ..m
        })
    }
}

/// Adds `delta` to the little-endian value of `width` bytes at `pos` (modulo 256^width);
/// a negative position leaves the buffer as it is.
pub open spec fn spec_poke(out: Seq<u8>, pos: int, width: nat, delta: int) -> Result<Seq<u8>, ApplyFault> {
    if pos < 0 {
        Ok(out)
    } else if pos + width >= size_limit() {
        Err(ApplyFault::OutOfRange)
    } else {
        let g = grow(out, pos + width);
        let cur = le_bytes(g.subrange(pos, pos + width)) as int;
        Ok(write_bytes(g, pos, le_encode(cur + delta, width)))
    }
}

/// `k` more poke entries: each reads a seek (and, without a fixed delta, a delta byte),
/// moves the poke cursor by the seek and adds the delta there.
/// Yields the buffer, the poke cursor and the stream position.
pub open spec fn spec_pokes(
    ops: Seq<u8>,
    pos: int,
    out: Seq<u8>,
    poke_pos: int,
    k: nat,
    width: nat,
    fixed: Option<int>,
) -> Result<(Seq<u8>, int, int), ApplyFault>
    decreases k,
{
    if k == 0 {
        Ok((out, poke_pos, pos))
    } else {
        match op_vli(ops, pos) {
            Err(f) => Err(f),
            Ok((seek, p1)) => {
                let np = poke_pos + seek;
                if !in_i64(np) {
                    Err(ApplyFault::OutOfRange)
                } else {
                    let d: Result<(int, int), ApplyFault> = match fixed {
                        Some(d) => Ok((d, p1)),
                        None => match op_byte(ops, p1) {
                            Ok((b, p2)) => Ok((s8(b), p2)),
                            Err(f) => Err(f),
                        },
                    };
                    match d {
                        Err(f) => Err(f),
                        Ok((delta, p2)) => match spec_poke(out, np, width, delta) {
                            Err(f) => Err(f),
                            Ok(out2) => spec_pokes(ops, p2, out2, np, (k - 1) as nat, width, fixed),
                        },
                    }
                }
            },
        }
    }
}

/// FLUSH: fill the gaps from index `i` on, in order, with consecutive stream bytes.
pub open spec fn spec_flush_gaps(ops: Seq<u8>, pos: int, out: Seq<u8>, gaps: Seq<(int, int)>, i: nat) -> Result<
    (Seq<u8>, int),
    ApplyFault,
>
    decreases gaps.len() - i,
{
    if i >= gaps.len() {
        Ok((out, pos))
    } else {
        let off = gaps[i as int].0;
        let ln = gaps[i as int].1;
        if off + ln >= size_limit() {
            Err(ApplyFault::OutOfRange)
        } else {
            match op_bytes(ops, pos, ln) {
                Err(f) => Err(f),
                Ok((bytes, p2)) => spec_flush_gaps(
                    ops,
                    p2,
                    write_bytes(grow(out, off + ln), off, bytes),
                    gaps,
                    (i + 1) as nat,
                ),
            }
        }
    }
}

/// The pattern width of a fill opcode (0 for the zero fills).
pub open spec fn fill_width(op: Opcode) -> nat {
    match op {
        Opcode::Fill1 | Opcode::Fill1Gap => 1,
        Opcode::Fill2 | Opcode::Fill2Gap => 2,
        Opcode::Fill4 | Opcode::Fill4Gap => 4,
        _ => 0,
    }
}

/// Whether an opcode begins with a gap operand.
pub open spec fn has_gap(op: Opcode) -> bool {
    op == Opcode::CopyGap || op == Opcode::TcopyGap || op == Opcode::ZfillGap || op == Opcode::Fill1Gap
        || op == Opcode::Fill2Gap || op == Opcode::Fill4Gap
}

/// SET_SOURCE: the source selector is read and ignored; both cursors return to 0.
pub open spec fn spec_op_set_source(ops: Seq<u8>, m: Machine) -> Result<Machine, ApplyFault> {
    match op_vli(ops, m.pos) {
        Err(f) => Err(f),
        Ok((_, p1)) => Ok(Machine { out_pos: 0, poke_pos: 0, pos: p1, ..m }),
    }
}

/// COPY / COPY+gap: [advance], [source selector], offset, count.
pub open spec fn spec_op_copy(src: Seq<u8>, ops: Seq<u8>, multi: bool, gap: bool, m: Machine) -> Result<Machine, ApplyFault> {
    match op_vli_if(ops, m.pos, gap) {
        Err(f) => Err(f),
        Ok((adv, p1)) => match op_vli_if(ops, p1, multi) {
            Err(f) => Err(f),
            Ok((_, p2)) => match op_vli(ops, p2) {
                Err(f) => Err(f),
                Ok((off, p3)) => match op_vli(ops, p3) {
                    Err(f) => Err(f),
                    Ok((cnt, p4)) => spec_copy(src, Machine { pos: p4, ..m }, as_u64(adv), as_u64(off), as_u64(cnt)),
                },
            },
        },
    }
}

/// FLUSH: a final gap up to the destination size, then all gaps filled; the list is emptied.
pub open spec fn spec_op_flush(ops: Seq<u8>, dest_size: int, m: Machine) -> Result<Machine, ApplyFault> {
    let gaps = if dest_size > m.out_pos { m.gaps.push((m.out_pos, dest_size - m.out_pos)) } else { m.gaps };
    match spec_flush_gaps(ops, m.pos, m.out, gaps, 0) {
        Err(f) => Err(f),
        Ok((out, p1)) => Ok(Machine { out, gaps: Seq::empty(), pos: p1, ..m }),
    }
}

/// POKE1: seek, signed delta byte; the poke cursor is not reset.
pub open spec fn spec_op_poke1(ops: Seq<u8>, m: Machine) -> Result<Machine, ApplyFault> {
    match op_vli(ops, m.pos) {
        Err(f) => Err(f),
        Ok((seek, p1)) => match op_byte(ops, p1) {
            Err(f) => Err(f),
            Ok((b, p2)) => {
                let np = m.poke_pos + seek;
                if !in_i64(np) {
                    Err(ApplyFault::OutOfRange)
                } else {
                    match spec_poke(m.out, np, 1, s8(b)) {
                        Err(f) => Err(f),
                        Ok(out) => Ok(Machine { out, poke_pos: np, pos: p2, ..m }),
                    }
                }
            },
        },
    }
}

/// POKE1xN (0x07, 0x0E): constant signed delta byte, count, count seeks; cursor reset to 0.
pub open spec fn spec_op_poke_const1(ops: Seq<u8>, m: Machine) -> Result<Machine, ApplyFault> {
    match op_byte(ops, m.pos) {
        Err(f) => Err(f),
        Ok((b, p1)) => match op_vli(ops, p1) {
            Err(f) => Err(f),
            Ok((count, p2)) => match spec_pokes(ops, p2, m.out, 0, as_u64(count) as nat, 1, Some(s8(b))) {
                Err(f) => Err(f),
                Ok((out, pp, p3)) => Ok(Machine { out, poke_pos: pp, pos: p3, ..m }),
            },
        },
    }
}

/// POKE1xN var: count, then (seek, delta byte) pairs; cursor reset to 0.
pub open spec fn spec_op_poke_var(ops: Seq<u8>, m: Machine) -> Result<Machine, ApplyFault> {
    match op_vli(ops, m.pos) {
        Err(f) => Err(f),
        Ok((count, p1)) => match spec_pokes(ops, p1, m.out, 0, as_u64(count) as nat, 1, None) {
            Err(f) => Err(f),
            Ok((out, pp, p2)) => Ok(Machine { out, poke_pos: pp, pos: p2, ..m }),
        },
    }
}

/// POKE16xN / POKE32xN: signed little-endian delta of the width, count, count seeks.
pub open spec fn spec_op_poke_wide(ops: Seq<u8>, width: nat, m: Machine) -> Result<Machine, ApplyFault> {
    match op_bytes(ops, m.pos, width as int) {
        Err(f) => Err(f),
        Ok((d, p1)) => match op_vli(ops, p1) {
            Err(f) => Err(f),
            Ok((count, p2)) => match spec_pokes(ops, p2, m.out, 0, as_u64(count) as nat, width, Some(signed_le(d))) {
                Err(f) => Err(f),
                Ok((out, pp, p3)) => Ok(Machine { out, poke_pos: pp, pos: p3, ..m }),
            },
        },
    }
}

/// STORE: [source selector], offset, count appended to the template list.
pub open spec fn spec_op_store(ops: Seq<u8>, multi: bool, m: Machine) -> Result<Machine, ApplyFault> {
    match op_vli_if(ops, m.pos, multi) {
        Err(f) => Err(f),
        Ok((_, p1)) => match op_vli(ops, p1) {
            Err(f) => Err(f),
            Ok((off, p2)) => match op_vli(ops, p2) {
                Err(f) => Err(f),
                Ok((cnt, p3)) => Ok(Machine { templates: m.templates.push((as_u64(off), as_u64(cnt))), pos: p3, ..m }),
            },
        },
    }
}

/// TCOPY / TCOPY+gap: [advance], template index; then COPY with the template's offset and count.
pub open spec fn spec_op_tcopy(src: Seq<u8>, ops: Seq<u8>, gap: bool, m: Machine) -> Result<Machine, ApplyFault> {
    match op_vli_if(ops, m.pos, gap) {
        Err(f) => Err(f),
        Ok((adv, p1)) => match op_vli(ops, p1) {
            Err(f) => Err(f),
            Ok((idx, p2)) => {
                let i = as_u64(idx);
                if i >= m.templates.len() {
                    Err(ApplyFault::TemplateIndex { idx: i })
                } else {
                    spec_copy(src, Machine { pos: p2, ..m }, as_u64(adv), m.templates[i].0, m.templates[i].1)
                }
            },
        },
    }
}

/// ZFILL / FILLn (with or without gap): [seek], pattern of the width, count.
pub open spec fn spec_op_fill(ops: Seq<u8>, gap: bool, width: nat, m: Machine) -> Result<Machine, ApplyFault> {
    match op_vli_if(ops, m.pos, gap) {
        Err(f) => Err(f),
        Ok((seek, p1)) => match op_bytes(ops, p1, width as int) {
            Err(f) => Err(f),
            Ok((pat, p2)) => match op_vli(ops, p2) {
                Err(f) => Err(f),
                Ok((count, p3)) => spec_fill(Machine { pos: p3, ..m }, as_u64(seek), pat, as_u64(count)),
            },
        },
    }
}

pub open spec fn some_machine(r: Result<Machine, ApplyFault>) -> Result<Option<Machine>, ApplyFault> {
    match r {
        Ok(m) => Ok(Some(m)),
        Err(f) => Err(f),
    }
}

/// One opcode, whose byte has been consumed (`m.pos` is past it). `Ok(None)` ends the program.
pub open spec fn spec_exec_op(
    op: Opcode,
    src: Seq<u8>,
    ops: Seq<u8>,
    dest_size: int,
    multi: bool,
    m: Machine,
) -> Result<Option<Machine>, ApplyFault> {
    let gap = has_gap(op);
    match op {
        Opcode::End => Ok(None),
        Opcode::SetSource => some_machine(spec_op_set_source(ops, m)),
        Opcode::Copy | Opcode::CopyGap => some_machine(spec_op_copy(src, ops, multi, gap, m)),
        Opcode::Flush => some_machine(spec_op_flush(ops, dest_size, m)),
        Opcode::Poke1 => some_machine(spec_op_poke1(ops, m)),
        Opcode::Poke1xN | Opcode::Poke1xNB => some_machine(spec_op_poke_const1(ops, m)),
        Opcode::Poke1xNVar => some_machine(spec_op_poke_var(ops, m)),
        Opcode::Poke16xN => some_machine(spec_op_poke_wide(ops, 2, m)),
        Opcode::Poke32xN => some_machine(spec_op_poke_wide(ops, 4, m)),
        Opcode::Store => some_machine(spec_op_store(ops, multi, m)),
        Opcode::Tcopy | Opcode::TcopyGap => some_machine(spec_op_tcopy(src, ops, gap, m)),
        _ => some_machine(spec_op_fill(ops, gap, fill_width(op), m)),
    }
}

/// One step: read the opcode byte at the stream position and execute it.
pub open spec fn spec_step(src: Seq<u8>, ops: Seq<u8>, dest_size: int, multi: bool, m: Machine) -> Result<
    Option<Machine>,
    ApplyFault,
> {
    let b = ops[m.pos];
    match spec_opcode(b) {
        None => Err(ApplyFault::UnknownOpcode { byte: b, offset: m.pos }),
        Some(op) => spec_exec_op(op, src, ops, dest_size, multi, Machine { pos: m.pos + 1, ..m }),
    }
}

/// The output cut to the destination size.
pub open spec fn finish(out: Seq<u8>, dest_size: int) -> Seq<u8> {
    if dest_size <= out.len() {
        out.subrange(0, dest_size)
    } else {
        out
    }
}

/// Runs the program from state `m` until END, the end of the stream, or a fault.
pub open spec fn spec_run(src: Seq<u8>, ops: Seq<u8>, dest_size: int, multi: bool, m: Machine) -> Result<
    Seq<u8>,
    ApplyFault,
>
    decreases ops.len() - m.pos,
{
    if m.pos >= ops.len() || m.pos < 0 {
        Ok(finish(m.out, dest_size))
    } else {
        match spec_step(src, ops, dest_size, multi, m) {
            Err(f) => Err(f),
            Ok(None) => Ok(finish(m.out, dest_size)),
            Ok(Some(m2)) => if m.pos < m2.pos <= ops.len() {
                spec_run(src, ops, dest_size, multi, m2)
            } else {
                Err(ApplyFault::OutOfRange)
            },
        }
    }
}

/// The state at the start: a zeroed output of the destination size, everything else empty.
pub open spec fn initial_machine(dest_size: int) -> Machine {
    Machine {
        out: Seq::new(dest_size as nat, |i: int| 0u8),
        out_pos: 0,
        poke_pos: 0,
        gaps: Seq::empty(),
        templates: Seq::empty(),
        pos: 0,
    }
}

/// What applying the opcode program `ops` to `src` yields.
pub open spec fn spec_apply(src: Seq<u8>, ops: Seq<u8>, dest_size: int, src_count: i64) -> Result<Seq<u8>, ApplyFault> {
    spec_run(src, ops, dest_size, src_count >= 2, initial_machine(dest_size))
}

proof fn lemma_poke_len(out: Seq<u8>, pos: int, width: nat, delta: int)
    ensures
        spec_poke(out, pos, width, delta) matches Ok(o) ==> o.len() >= out.len(),
{
}

proof fn lemma_pokes_len(ops: Seq<u8>, pos: int, out: Seq<u8>, poke_pos: int, k: nat, width: nat, fixed: Option<int>)
    ensures
        spec_pokes(ops, pos, out, poke_pos, k, width, fixed) matches Ok((o, _, _)) ==> o.len() >= out.len(),
    decreases k,
{
    if k > 0 {
        match op_vli(ops, pos) {
            Err(_) => {},
            Ok((seek, p1)) => {
                let np = poke_pos + seek;
                let d: Result<(int, int), ApplyFault> = match fixed {
                    Some(d) => Ok((d, p1)),
                    None => match op_byte(ops, p1) {
                        Ok((b, p2)) => Ok((s8(b), p2)),
                        Err(f) => Err(f),
                    },
                };
                match d {
                    Err(_) => {},
                    Ok((delta, p2)) => {
                        lemma_poke_len(out, np, width, delta);
                        match spec_poke(out, np, width, delta) {
                            Err(_) => {},
                            Ok(out2) => {
                                lemma_pokes_len(ops, p2, out2, np, (k - 1) as nat, width, fixed);
                            },
                        }
                    },
                }
            },
        }
    }
}

proof fn lemma_flush_gaps_len(ops: Seq<u8>, pos: int, out: Seq<u8>, gaps: Seq<(int, int)>, i: nat)
    ensures
        spec_flush_gaps(ops, pos, out, gaps, i) matches Ok((o, _)) ==> o.len() >= out.len(),
    decreases gaps.len() - i,
{
    if i < gaps.len() {
        let off = gaps[i as int].0;
        let ln = gaps[i as int].1;
        match op_bytes(ops, pos, ln) {
            Err(_) => {},
            Ok((bytes, p2)) => {
                lemma_flush_gaps_len(ops, p2, write_bytes(grow(out, off + ln), off, bytes), gaps, (i + 1) as nat);
            },
        }
    }
}

proof fn lemma_poke_wide_len(ops: Seq<u8>, width: nat, m: Machine)
    ensures
        spec_op_poke_wide(ops, width, m) matches Ok(m2) ==> m2.out.len() >= m.out.len(),
{
    match op_bytes(ops, m.pos, width as int) {
        Err(_) => {},
        Ok((d, p1)) => match op_vli(ops, p1) {
            Err(_) => {},
            Ok((count, p2)) => {
                lemma_pokes_len(ops, p2, m.out, 0, as_u64(count) as nat, width, Some(signed_le(d)));
            },
        },
    }
}

proof fn lemma_poke_const1_len(ops: Seq<u8>, m: Machine)
    ensures
        spec_op_poke_const1(ops, m) matches Ok(m2) ==> m2.out.len() >= m.out.len(),
{
    match op_byte(ops, m.pos) {
        Err(_) => {},
        Ok((b, p1)) => match op_vli(ops, p1) {
            Err(_) => {},
            Ok((count, p2)) => {
                lemma_pokes_len(ops, p2, m.out, 0, as_u64(count) as nat, 1, Some(s8(b)));
            },
        },
    }
}

proof fn lemma_poke_var_len(ops: Seq<u8>, m: Machine)
    ensures
        spec_op_poke_var(ops, m) matches Ok(m2) ==> m2.out.len() >= m.out.len(),
{
    match op_vli(ops, m.pos) {
        Err(_) => {},
        Ok((count, p1)) => {
            lemma_pokes_len(ops, p1, m.out, 0, as_u64(count) as nat, 1, None);
        },
    }
}

proof fn lemma_poke1_len(ops: Seq<u8>, m: Machine)
    ensures
        spec_op_poke1(ops, m) matches Ok(m2) ==> m2.out.len() >= m.out.len(),
{
    match op_vli(ops, m.pos) {
        Err(_) => {},
        Ok((seek, p1)) => match op_byte(ops, p1) {
            Err(_) => {},
            Ok((b, p2)) => {
                lemma_poke_len(m.out, m.poke_pos + seek, 1, s8(b));
            },
        },
    }
}

proof fn lemma_flush_len(ops: Seq<u8>, dest_size: int, m: Machine)
    ensures
        spec_op_flush(ops, dest_size, m) matches Ok(m2) ==> m2.out.len() >= m.out.len(),
{
    let gaps = if dest_size > m.out_pos { m.gaps.push((m.out_pos, dest_size - m.out_pos)) } else { m.gaps };
    lemma_flush_gaps_len(ops, m.pos, m.out, gaps, 0);
}

/// One step of the interpreter never shortens the output.
proof fn lemma_step_len(src: Seq<u8>, ops: Seq<u8>, dest_size: int, multi: bool, m: Machine)
    requires
        0 <= m.pos < ops.len(),
    ensures
        spec_step(src, ops, dest_size, multi, m) matches Ok(Some(m2)) ==> m2.out.len() >= m.out.len(),
{
    let m1 = Machine { pos: m.pos + 1, ..m };
    match spec_opcode(ops[m.pos]) {
        None => {},
        Some(op) => match op {
            Opcode::Flush => lemma_flush_len(ops, dest_size, m1),
            Opcode::Poke1 => lemma_poke1_len(ops, m1),
            Opcode::Poke1xN | Opcode::Poke1xNB => lemma_poke_const1_len(ops, m1),
            Opcode::Poke1xNVar => lemma_poke_var_len(ops, m1),
            Opcode::Poke16xN => lemma_poke_wide_len(ops, 2, m1),
            Opcode::Poke32xN => lemma_poke_wide_len(ops, 4, m1),
            _ => {},
        },
    }
}

proof fn lemma_run_len(src: Seq<u8>, ops: Seq<u8>, dest_size: int, multi: bool, m: Machine)
    requires
        0 <= dest_size <= m.out.len(),
    ensures
        spec_run(src, ops, dest_size, multi, m) matches Ok(out) ==> out.len() == dest_size,
    decreases ops.len() - m.pos,
{
    if 0 <= m.pos < ops.len() {
        lemma_step_len(src, ops, dest_size, multi, m);
        match spec_step(src, ops, dest_size, multi, m) {
            Ok(Some(m2)) => {
                if m.pos < m2.pos <= ops.len() {
                    lemma_run_len(src, ops, dest_size, multi, m2);
                }
            },
            _ => {},
        }
    }
}

/// Applying a program always yields exactly `dest_size` bytes: the output starts as that
/// many zeros, no opcode shortens it, and the result is cut to that size.
pub proof fn lemma_apply_output_len(src: Seq<u8>, ops: Seq<u8>, dest_size: int, src_count: i64)
    requires
        0 <= dest_size,
    ensures
        spec_apply(src, ops, dest_size, src_count) matches Ok(out) ==> out.len() == dest_size,
{
    lemma_run_len(src, ops, dest_size, src_count >= 2, initial_machine(dest_size));
}

/// The output starts as `dest_size` zero bytes: a program that is empty or begins with END
/// yields exactly those.
pub proof fn lemma_apply_zero_initialised(src: Seq<u8>, ops: Seq<u8>, dest_size: int, src_count: i64)
    requires
        0 <= dest_size,
        ops.len() == 0 || ops[0] == 0x01,
    ensures
        spec_apply(src, ops, dest_size, src_count) == Ok::<Seq<u8>, ApplyFault>(Seq::new(dest_size as nat, |i: int| 0u8)),
{
    let z = Seq::new(dest_size as nat, |i: int| 0u8);
    assert(z.subrange(0, dest_size) =~= z);
}

/// The opcode stream's VLIs are the container's VLIs: the same value and end position where
/// the container reader succeeds, and a truncated stream exactly where it fails.
pub proof fn lemma_opcode_vli_is_container_vli(ops: Seq<u8>, pos: int)
    ensures
        spec_vli(ops, pos) matches Ok(r) ==> op_vli(ops, pos) == Ok::<(i64, int), ApplyFault>(r),
        spec_vli(ops, pos) is Err <==> op_vli(ops, pos) == Err::<(i64, int), ApplyFault>(ApplyFault::Truncated),
{
}

/// The sum of `k` seek operands read one after another from `pos`, and where they end;
/// `None` when the stream ends first.
pub open spec fn seek_total(ops: Seq<u8>, pos: int, k: nat) -> Option<(int, int)>
    decreases k,
{
    if k == 0 {
        Some((0, pos))
    } else {
        match op_vli(ops, pos) {
            Err(_) => None,
            Ok((seek, p1)) => match seek_total(ops, p1, (k - 1) as nat) {
                None => None,
                Some((t, pe)) => Some((seek + t, pe)),
            },
        }
    }
}

proof fn lemma_pokes_fixed_cursor(
    ops: Seq<u8>,
    pos: int,
    out: Seq<u8>,
    poke_pos: int,
    k: nat,
    width: nat,
    delta: int,
)
    ensures
        spec_pokes(ops, pos, out, poke_pos, k, width, Some(delta)) matches Ok((_, pp, p3)) ==> seek_total(ops, pos, k)
            == Some((pp - poke_pos, p3)),
    decreases k,
{
    if k > 0 {
        if let Ok((seek, p1)) = op_vli(ops, pos) {
            let np = poke_pos + seek;
            if let Ok(out2) = spec_poke(out, np, width, delta) {
                lemma_pokes_fixed_cursor(ops, p1, out2, np, (k - 1) as nat, width, delta);
            }
        }
    }
}

/// POKE16xN and POKE32xN start their seeks from poke cursor 0: what they do does not depend
/// on where an earlier poke left the cursor.
pub proof fn lemma_poke_wide_ignores_cursor(ops: Seq<u8>, width: nat, m: Machine, p: int)
    ensures
        spec_op_poke_wide(ops, width, m) == spec_op_poke_wide(ops, width, Machine { poke_pos: p, ..m }),
{
}

/// POKE1xN (0x07, 0x0E) starts its seeks from poke cursor 0: what it does does not depend on
/// where an earlier poke left the cursor.
pub proof fn lemma_poke_const1_ignores_cursor(ops: Seq<u8>, m: Machine, p: int)
    ensures
        spec_op_poke_const1(ops, m) == spec_op_poke_const1(ops, Machine { poke_pos: p, ..m }),
{
}

/// POKE1xN var (0x0D) starts its seeks from poke cursor 0: what it does does not depend on
/// where an earlier poke left the cursor.
pub proof fn lemma_poke_var_ignores_cursor(ops: Seq<u8>, m: Machine, p: int)
    ensures
        spec_op_poke_var(ops, m) == spec_op_poke_var(ops, Machine { poke_pos: p, ..m }),
{
}

/// After POKE1xN (0x07, 0x0E) the poke cursor is the sum of the op's seeks (counted from 0),
/// and the stream continues after the last seek.
pub proof fn lemma_poke_const1_cursor(ops: Seq<u8>, m: Machine, b: u8, p1: int, count: i64, p2: int)
    requires
        op_byte(ops, m.pos) == Ok::<(u8, int), ApplyFault>((b, p1)),
        op_vli(ops, p1) == Ok::<(i64, int), ApplyFault>((count, p2)),
    ensures
        spec_op_poke_const1(ops, m) matches Ok(m2) ==> seek_total(ops, p2, as_u64(count) as nat) == Some(
            (m2.poke_pos, m2.pos),
        ),
{
    lemma_pokes_fixed_cursor(ops, p2, m.out, 0, as_u64(count) as nat, 1, s8(b));
}

/// POKE1 (0x06) continues from the poke cursor: the cursor moves on by its seek operand.
pub proof fn lemma_poke1_continues(ops: Seq<u8>, m: Machine)
    ensures
        spec_op_poke1(ops, m) matches Ok(m2) ==> (op_vli(ops, m.pos) matches Ok((seek, _)) && m2.poke_pos
            == m.poke_pos + seek),
{
}

/// SET_SOURCE returns both the write cursor and the poke cursor to 0.
pub proof fn lemma_set_source_resets(ops: Seq<u8>, m: Machine)
    ensures
        spec_op_set_source(ops, m) matches Ok(m2) ==> m2.poke_pos == 0 && m2.out_pos == 0 && m2.out == m.out,
{
}

/// After POKE16xN or POKE32xN the poke cursor is the sum of the op's seeks (counted from 0),
/// and the stream continues after the last seek.
pub proof fn lemma_poke_wide_cursor(ops: Seq<u8>, width: nat, m: Machine, d: Seq<u8>, p1: int, count: i64, p2: int)
    requires
        op_bytes(ops, m.pos, width as int) == Ok::<(Seq<u8>, int), ApplyFault>((d, p1)),
        op_vli(ops, p1) == Ok::<(i64, int), ApplyFault>((count, p2)),
    ensures
        spec_op_poke_wide(ops, width, m) matches Ok(m2) ==> seek_total(ops, p2, as_u64(count) as nat) == Some(
            (m2.poke_pos, m2.pos),
        ),
{
    lemma_pokes_fixed_cursor(ops, p2, m.out, 0, as_u64(count) as nat, width, signed_le(d));
}

/// Why the executable interpreter stopped; its model is an `ApplyFault`.
#[derive(Debug)]
pub enum OpFault {
    Truncated,
    UnknownOpcode { byte: u8, offset: usize },
    TemplateIndex { idx: u64 },
    OutOfRange,
}

impl View for OpFault {
    type V = ApplyFault;

    open spec fn view(&self) -> ApplyFault {
        match self {
            OpFault::Truncated => ApplyFault::Truncated,
            OpFault::UnknownOpcode { byte, offset } => ApplyFault::UnknownOpcode { byte: *byte, offset: *offset as int },
            OpFault::TemplateIndex { idx } => ApplyFault::TemplateIndex { idx: *idx as int },
            OpFault::OutOfRange => ApplyFault::OutOfRange,
        }
    }
}

impl Opcode {
    /// The byte value of this opcode.
    pub fn code(self) -> (b: u8)
        ensures
            b == spec_opcode_byte(self),
            spec_opcode(b) == Some(self),
    {
        match self {
            Opcode::End => 0x01,
            Opcode::SetSource => 0x02,
            Opcode::Copy => 0x03,
            Opcode::CopyGap => 0x04,
            Opcode::Flush => 0x05,
            Opcode::Poke1 => 0x06,
            Opcode::Poke1xN => 0x07,
            Opcode::Store => 0x08,
            Opcode::Tcopy => 0x09,
            Opcode::TcopyGap => 0x0A,
            Opcode::Zfill => 0x0B,
            Opcode::ZfillGap => 0x0C,
            Opcode::Poke1xNVar => 0x0D,
            Opcode::Poke1xNB => 0x0E,
            Opcode::Poke16xN => 0x0F,
            Opcode::Poke32xN => 0x10,
            Opcode::Fill1 => 0x11,
            Opcode::Fill2 => 0x12,
            Opcode::Fill4 => 0x13,
            Opcode::Fill1Gap => 0x14,
            Opcode::Fill2Gap => 0x15,
            Opcode::Fill4Gap => 0x16,
        }
    }
}

/// The opcode that a byte denotes, as a conversion: `Err(b)` when `b` is no opcode.
pub open spec fn opcode_of(b: u8) -> Result<Opcode, u8> {
    match spec_opcode(b) {
        Some(op) => Ok(op),
        None => Err(b),
    }
}

impl TryFrom<u8> for Opcode {
    type Error = u8;

    /// The opcode with byte value `b`, or `Err(b)` when `b` is no opcode.
    fn try_from(b: u8) -> (r: Result<Opcode, u8>) {
        match b {
            0x01 => Ok(Opcode::End),
            0x02 => Ok(Opcode::SetSource),
            0x03 => Ok(Opcode::Copy),
            0x04 => Ok(Opcode::CopyGap),
            0x05 => Ok(Opcode::Flush),
            0x06 => Ok(Opcode::Poke1),
            0x07 => Ok(Opcode::Poke1xN),
            0x08 => Ok(Opcode::Store),
            0x09 => Ok(Opcode::Tcopy),
            0x0A => Ok(Opcode::TcopyGap),
            0x0B => Ok(Opcode::Zfill),
            0x0C => Ok(Opcode::ZfillGap),
            0x0D => Ok(Opcode::Poke1xNVar),
            0x0E => Ok(Opcode::Poke1xNB),
            0x0F => Ok(Opcode::Poke16xN),
            0x10 => Ok(Opcode::Poke32xN),
            0x11 => Ok(Opcode::Fill1),
            0x12 => Ok(Opcode::Fill2),
            0x13 => Ok(Opcode::Fill4),
            0x14 => Ok(Opcode::Fill1Gap),
            0x15 => Ok(Opcode::Fill2Gap),
            0x16 => Ok(Opcode::Fill4Gap),
            other => Err(other),
        }
    }
}

impl vstd::std_specs::convert::TryFromSpecImpl<u8> for Opcode {
    open spec fn obeys_try_from_spec() -> bool {
        true
    }

    open spec fn try_from_spec(v: u8) -> Result<Opcode, u8> {
        opcode_of(v)
    }
}

/// Opcode stream reader: the same VLI encoding as the container.
pub struct OpcodeReader<'a> {
    pub data: &'a [u8],
    pub pos: usize,
}

impl<'a> OpcodeReader<'a> {
    /// The position lies within the stream.
    pub open spec fn wf(&self) -> bool {
        self.pos <= self.data@.len()
    }

    pub fn new(data: &'a [u8]) -> (r: Self)
        ensures
            r.data == data,
            r.pos == 0,
            r.wf(),
    {
        OpcodeReader { data, pos: 0 }
    }

    pub fn byte(&mut self) -> (r: Result<u8, OpFault>)
        requires
            old(self).wf(),
        ensures
            final(self).wf(),
            final(self).data == old(self).data,
            final(self).pos >= old(self).pos,
            match op_byte(old(self).data@, old(self).pos as int) {
                Ok((b, p)) => r matches Ok(v) && v == b && final(self).pos == p,
                Err(f) => r matches Err(e) && e@ == f,
            },
    {
        if self.pos >= self.data.len() {
            return Err(OpFault::Truncated);
        }
        let b = self.data[self.pos];
        self.pos = self.pos + 1;
        Ok(b)
    }

    pub fn bytes(&mut self, n: usize) -> (r: Result<&'a [u8], OpFault>)
        requires
            old(self).wf(),
        ensures
            final(self).wf(),
            final(self).data == old(self).data,
            final(self).pos >= old(self).pos,
            match op_bytes(old(self).data@, old(self).pos as int, n as int) {
                Ok((bs, p)) => r matches Ok(v) && v@ == bs && final(self).pos == p,
                Err(f) => r matches Err(e) && e@ == f,
            },
    {
        if n > self.data.len() - self.pos {
            return Err(OpFault::Truncated);
        }
        let s = &self.data[self.pos..self.pos + n];
        self.pos = self.pos + n;
        Ok(s)
    }

    pub fn vli(&mut self) -> (r: Result<i64, OpFault>)
        requires
            old(self).wf(),
        ensures
            final(self).wf(),
            final(self).data == old(self).data,
            final(self).pos >= old(self).pos,
            match op_vli(old(self).data@, old(self).pos as int) {
                Ok((v, p)) => r matches Ok(x) && x == v && final(self).pos == p,
                Err(f) => r matches Err(e) && e@ == f,
            },
            // the same VLI as `Reader::vli` reads at this position
            match spec_vli(old(self).data@, old(self).pos as int) {
                Ok((v, p)) => r == Ok::<i64, OpFault>(v) && final(self).pos == p,
                Err(_) => r matches Err(e) && e@ == ApplyFault::Truncated,
            },
    {
        let mut rd = Reader { data: self.data, pos: self.pos };
        let r = rd.vli();
        match r {
            Ok(v) => {
                self.pos = rd.pos;
                Ok(v)
            },
            Err(_) => Err(OpFault::Truncated),
        }
    }

    pub fn next_opcode(&mut self) -> (r: Option<Result<Opcode, OpFault>>)
        requires
            old(self).wf(),
        ensures
            final(self).wf(),
            final(self).data == old(self).data,
            old(self).pos >= old(self).data@.len() ==> r is None && final(self).pos == old(self).pos,
            old(self).pos < old(self).data@.len() ==> {
                let b = old(self).data@[old(self).pos as int];
                &&& final(self).pos == old(self).pos + 1
                &&& match spec_opcode(b) {
                    Some(op) => r == Some(Ok::<Opcode, OpFault>(op)),
                    None => r matches Some(Err(e)) && e@ == ApplyFault::UnknownOpcode {
                        byte: b,
                        offset: old(self).pos as int,
                    },
                }
            },
    {
        if self.pos >= self.data.len() {
            return None;
        }
        let b = self.data[self.pos];
        self.pos = self.pos + 1;
        match Opcode::try_from(b) {
            Ok(op) => Some(Ok(op)),
            Err(b) => Some(Err(OpFault::UnknownOpcode { byte: b, offset: self.pos - 1 })),
        }
    }
}

/// An operand taken as a 64-bit unsigned size, as `v as usize` does on 64-bit targets.
pub(crate) fn to_u64(v: i64) -> (r: u64)
    ensures
        r == as_u64(v),
{
    if v >= 0 {
        v as u64
    } else {
        ((v + 0x7FFF_FFFF_FFFF_FFFF + 1) as u64) + 0x8000_0000_0000_0000
    }
}

/// Extends `out` with zeros to at least `n` bytes.
fn grow_to(out: &mut Vec<u8>, n: u64)
    requires
        n < size_limit(),
    ensures
        final(out)@ == grow(old(out)@, n as int),
{
    if n > out.len() as u64 {
        out.resize(n as usize, 0);
        assert(final(out)@ =~= grow(old(out)@, n as int));
    }
}

/// Writes `bytes` into `out` at `off`.
fn write_at(out: &mut Vec<u8>, off: usize, bytes: &[u8])
    requires
        off + bytes@.len() <= old(out)@.len(),
    ensures
        final(out)@ == write_bytes(old(out)@, off as int, bytes@),
{
    let n = out.len();
    let mut i: usize = 0;
    while i < bytes.len()
        invariant
            off + bytes@.len() <= out@.len(),
            out@.len() == n,
            out@.len() == old(out)@.len(),
            i <= bytes@.len(),
            forall|j: int|
                0 <= j < out@.len() ==> #[trigger] out@[j] == (if off <= j < off + i { bytes@[j - off] } else {
                    old(out)@[j]
                }),
        decreases bytes@.len() - i,
    {
        out.set(off + i, bytes[i]);
        i = i + 1;
    }
    assert(out@ =~= write_bytes(old(out)@, off as int, bytes@));
}

/// Writes `count` bytes of `pattern`, repeated, into `out` at `off`.
fn fill_at(out: &mut Vec<u8>, off: usize, pattern: &[u8], count: usize)
    requires
        off + count <= old(out)@.len(),
        pattern@.len() > 0,
    ensures
        final(out)@ == fill_pattern(old(out)@, off as int, pattern@, count as int),
{
    let plen = pattern.len();
    let n = out.len();
    let mut i: usize = 0;
    while i < count
        invariant
            off + count <= out@.len(),
            out@.len() == n,
            out@.len() == old(out)@.len(),
            plen == pattern@.len(),
            plen > 0,
            i <= count,
            forall|j: int|
                0 <= j < out@.len() ==> #[trigger] out@[j] == (if off <= j < off + i {
                    pattern@[(j - off) % (plen as int)]
                } else {
                    old(out)@[j]
                }),
        decreases count - i,
    {
        out.set(off + i, pattern[i % plen]);
        i = i + 1;
    }
    assert(out@ =~= fill_pattern(old(out)@, off as int, pattern@, count as int));
}

proof fn lemma_pow_widths()
    ensures
        pow256(1) == 256,
        pow256(2) == 0x1_0000,
        pow256(4) == 0x1_0000_0000,
{
    reveal_with_fuel(pow256, 5);
}

/// Adds `delta` to the `width`-byte little-endian value at `pos`, growing the buffer first.
fn poke_delta(out: &mut Vec<u8>, pos: i64, width: usize, delta: i64) -> (r: Result<(), OpFault>)
    requires
        width == 1 || width == 2 || width == 4,
        -0x8000_0000 <= delta < 0x8000_0000,
    ensures
        match spec_poke(old(out)@, pos as int, width as nat, delta as int) {
            Ok(o) => r is Ok && final(out)@ == o,
            Err(f) => r matches Err(e) && e@ == f,
        },
{
    if pos < 0 {
        return Ok(());
    }
    let p = pos as u64;
    if p >= isize::MAX as u64 - 4 {
        if p + width as u64 > isize::MAX as u64 {
            return Err(OpFault::OutOfRange);
        }
    }
    let end: u64 = p + width as u64;
    grow_to(out, end);
    let p = p as usize;
    let ghost g = out@;
    let glen = out.len();
    proof {
        lemma_pow_widths();
    }
    let mut cur: u64 = 0;
    let mut f: u64 = 1;
    let mut k: usize = 0;
    while k < width
        invariant
            out@ == g,
            g.len() == glen,
            g.len() >= end,
            end == p + width,
            width == 1 || width == 2 || width == 4,
            k <= width,
            f == pow256(k as nat),
            f <= 0x1_0000_0000,
            cur == le_bytes(g.subrange(p as int, p + k)),
            cur < f,
            pow256(1) == 256,
            pow256(2) == 0x1_0000,
            pow256(4) == 0x1_0000_0000,
        decreases width - k,
    {
        let b = out[p + k];
        proof {
            let s = g.subrange(p as int, p + k + 1);
            assert(s.drop_last() =~= g.subrange(p as int, p + k));
            assert(s.last() == b);
            assert(pow256((k + 1) as nat) == 256 * pow256(k as nat));
            if k < 3 {
                assert(pow256(3) == 0x100_0000) by {
                    reveal_with_fuel(pow256, 4);
                }
            }
            assert(256 * f <= 0x1_0000_0000) by {
                if k == 0 {
                } else if k == 1 {
                } else if k == 2 {
                    reveal_with_fuel(pow256, 4);
                } else {
                    reveal_with_fuel(pow256, 4);
                }
            }
            let ff = f as nat;
            let cc = cur as nat;
            let bb = b as nat;
            assert(cc + bb * ff < 256 * ff) by (nonlinear_arith)
                requires
                    cc < ff,
                    bb <= 255,
            ;
        }
        cur = cur + (b as u64) * f;
        f = f * 256;
        k = k + 1;
    }
    let sum: i64 = cur as i64 + delta;
    let shifted: u64 = (sum + 0x1_0000_0000) as u64;
    let rem: u64 = shifted % f;
    proof {
        let m = f as int;
        let q: int = 0x1_0000_0000int / m;
        assert(q * m == 0x1_0000_0000);
        vstd::arithmetic::div_mod::lemma_mod_multiples_vanish(q, sum as int, m);
        assert((m * q + sum) % m == (sum as int) % m);
        assert(rem as int == (cur + delta) % m);
    }
    let mut pw: u64 = 1;
    let mut k: usize = 0;
    let ghost enc = le_encode(cur + delta, width as nat);
    while k < width
        invariant
            g.len() >= end,
            g.len() == glen,
            end == p + width,
            out@.len() == g.len(),
            width == 1 || width == 2 || width == 4,
            f == pow256(width as nat),
            f <= 0x1_0000_0000,
            rem as int == (cur + delta) % (f as int),
            enc == le_encode(cur + delta, width as nat),
            k <= width,
            k < width ==> pw == pow256(k as nat),
            pw <= 0x1_0000_0000,
            pow256(1) == 256,
            pow256(2) == 0x1_0000,
            pow256(4) == 0x1_0000_0000,
            forall|j: int|
                0 <= j < g.len() ==> #[trigger] out@[j] == (if p <= j < p + k { enc[j - p] } else { g[j] }),
        decreases width - k,
    {
        let byte = ((rem / pw) % 256) as u8;
        proof {
            assert(enc[k as int] == byte);
            assert(pow256((k + 1) as nat) == 256 * pow256(k as nat));
            assert(256 * pw <= 0x1_0000_0000) by {
                if k == 0 {
                } else if k == 1 {
                } else if k == 2 {
                    reveal_with_fuel(pow256, 4);
                } else {
                    reveal_with_fuel(pow256, 4);
                }
            }
        }
        out.set(p + k, byte);
        if k + 1 < width {
            pw = pw * 256;
        }
        k = k + 1;
        proof {
            if k < width {
                assert(pw == pow256(k as nat));
            }
        }
    }
    assert(out@ =~= write_bytes(g, p as int, enc));
    Ok(())
}

/// The byte as a signed 8-bit delta.
fn s8_exec(b: u8) -> (v: i64)
    ensures
        v == s8(b),
        -128 <= v < 128,
{
    if b >= 128 {
        b as i64 - 256
    } else {
        b as i64
    }
}

/// The signed little-endian value of a 2- or 4-byte run.
fn le_signed(b: &[u8]) -> (v: i64)
    requires
        b@.len() == 2 || b@.len() == 4,
    ensures
        v == signed_le(b@),
        -0x8000_0000 <= v < 0x8000_0000,
{
    let ghost s = b@;
    proof {
        lemma_pow_widths();
        reveal_with_fuel(le_bytes, 5);
        assert(s.subrange(0, 0) =~= Seq::<u8>::empty());
    }
    let mut cur: u64 = 0;
    let mut f: u64 = 1;
    let mut k: usize = 0;
    while k < b.len()
        invariant
            s == b@,
            s.len() == 2 || s.len() == 4,
            k <= s.len(),
            f == pow256(k as nat),
            f <= 0x1_0000_0000,
            cur == le_bytes(s.subrange(0, k as int)),
            cur < f,
            pow256(1) == 256,
            pow256(2) == 0x1_0000,
            pow256(4) == 0x1_0000_0000,
        decreases s.len() - k,
    {
        let x = b[k];
        proof {
            let t = s.subrange(0, k + 1);
            assert(t.drop_last() =~= s.subrange(0, k as int));
            assert(t.last() == x);
            assert(pow256((k + 1) as nat) == 256 * pow256(k as nat));
            assert(256 * f <= 0x1_0000_0000) by {
                if k >= 2 {
                    reveal_with_fuel(pow256, 4);
                }
            }
            let ff = f as nat;
            let cc = cur as nat;
            let bb = x as nat;
            assert(cc + bb * ff < 256 * ff) by (nonlinear_arith)
                requires
                    cc < ff,
                    bb <= 255,
            ;
        }
        cur = cur + (x as u64) * f;
        f = f * 256;
        k = k + 1;
    }
    assert(s.subrange(0, s.len() as int) =~= s);
    assert(f == pow256(s.len()));
    if cur >= f / 2 {
        cur as i64 - f as i64
    } else {
        cur as i64
    }
}

/// `a + b`, when it stays below the size limit.
fn add_size(a: u64, b: u64) -> (r: Option<u64>)
    ensures
        r is Some <==> a + b < size_limit(),
        r matches Some(v) ==> v == a + b,
{
    match a.checked_add(b) {
        Some(v) => if v > isize::MAX as u64 {
            None
        } else {
            Some(v)
        },
        None => None,
    }
}

pub open spec fn pairs_view(s: Seq<(u64, u64)>) -> Seq<(int, int)> {
    s.map_values(|p: (u64, u64)| (p.0 as int, p.1 as int))
}

/// The executable interpreter state.
struct Interp<'a> {
    r: OpcodeReader<'a>,
    output: Vec<u8>,
    out_pos: u64,
    poke_pos: i64,
    gaps: Vec<(u64, u64)>,
    templates: Vec<(u64, u64)>,
}

impl<'a> View for Interp<'a> {
    type V = Machine;

    closed spec fn view(&self) -> Machine {
        Machine {
            out: self.output@,
            out_pos: self.out_pos as int,
            poke_pos: self.poke_pos as int,
            gaps: pairs_view(self.gaps@),
            templates: pairs_view(self.templates@),
            pos: self.r.pos as int,
        }
    }
}

impl<'a> Interp<'a> {
    spec fn inv(&self) -> bool {
        &&& self.r.wf()
        &&& self.out_pos < size_limit()
    }

    /// COPY (also through a template): gap, then the source bytes at the write cursor.
    fn copy(&mut self, src: &[u8], adv: u64, off: u64, cnt: u64) -> (r: Result<(), OpFault>)
        requires
            old(self).inv(),
        ensures
            final(self).inv(),
            final(self).r == old(self).r,
            match spec_copy(src@, old(self)@, adv as int, off as int, cnt as int) {
                Ok(m) => r is Ok && final(self)@ == m,
                Err(f) => r matches Err(e) && e@ == f,
            },
    {
        let ghost m0 = self@;
        if adv > 0 {
            self.gaps.push((self.out_pos, adv));
        }
        let op = match add_size(self.out_pos, adv) {
            Some(v) => v,
            None => return Err(OpFault::OutOfRange),
        };
        let end = match add_size(op, cnt) {
            Some(v) => v,
            None => return Err(OpFault::OutOfRange),
        };
        grow_to(&mut self.output, end);
        let slen = src.len() as u64;
        let copy_len: u64 = if off >= slen {
            0
        } else if cnt <= slen - off {
            cnt
        } else {
            slen - off
        };
        if copy_len > 0 {
            let run = &src[off as usize..(off + copy_len) as usize];
            write_at(&mut self.output, op as usize, run);
        } else {
            assert(self.output@ =~= write_bytes(self.output@, op as int, Seq::<u8>::empty()));
            assert(off < slen ==> src@.subrange(off as int, off as int) =~= Seq::<u8>::empty());
        }
        self.out_pos = end;
        proof {
            assert(pairs_view(self.gaps@) =~= (if adv > 0 { m0.gaps.push((m0.out_pos, adv as int)) } else { m0.gaps }));
        }
        Ok(())
    }

    /// A fill: gap, then `count` bytes repeating the pattern (zeros for an empty pattern).
    fn fill(&mut self, seek: u64, pattern: &[u8], count: u64) -> (r: Result<(), OpFault>)
        requires
            old(self).inv(),
        ensures
            final(self).inv(),
            final(self).r == old(self).r,
            match spec_fill(old(self)@, seek as int, pattern@, count as int) {
                Ok(m) => r is Ok && final(self)@ == m,
                Err(f) => r matches Err(e) && e@ == f,
            },
    {
        let ghost m0 = self@;
        if seek > 0 {
            self.gaps.push((self.out_pos, seek));
        }
        let op = match add_size(self.out_pos, seek) {
            Some(v) => v,
            None => return Err(OpFault::OutOfRange),
        };
        let end = match add_size(op, count) {
            Some(v) => v,
            None => return Err(OpFault::OutOfRange),
        };
        grow_to(&mut self.output, end);
        if pattern.len() > 0 {
            fill_at(&mut self.output, op as usize, pattern, count as usize);
        } else {
            let zero: Vec<u8> = vec![0u8];
            assert(zero@ =~= fill_unit(pattern@));
            fill_at(&mut self.output, op as usize, zero.as_slice(), count as usize);
        }
        self.out_pos = end;
        proof {
            assert(pairs_view(self.gaps@) =~= (if seek > 0 { m0.gaps.push((m0.out_pos, seek as int)) } else { m0.gaps }));
        }
        Ok(())
    }

    /// `count` poke entries of the given width, from the current poke cursor.
    fn pokes(&mut self, count: u64, width: usize, fixed: Option<i64>) -> (r: Result<(), OpFault>)
        requires
            old(self).inv(),
            width == 1 || width == 2 || width == 4,
            fixed matches Some(d) ==> -0x8000_0000 <= d < 0x8000_0000,
        ensures
            final(self).inv(),
            final(self).r.data == old(self).r.data,
            final(self).r.pos >= old(self).r.pos,
            match spec_pokes(
                old(self).r.data@,
                old(self)@.pos,
                old(self)@.out,
                old(self)@.poke_pos,
                count as nat,
                width as nat,
                match fixed { Some(d) => Some(d as int), None => None },
            ) {
                Ok((o, pp, p)) => r is Ok && final(self)@ == (Machine { out: o, poke_pos: pp, pos: p, ..old(self)@ }),
                Err(f) => r matches Err(e) && e@ == f,
            },
    {
        let ghost fx: Option<int> = match fixed { Some(d) => Some(d as int), None => None };
        let ghost target = spec_pokes(
            old(self).r.data@,
            old(self)@.pos,
            old(self)@.out,
            old(self)@.poke_pos,
            count as nat,
            width as nat,
            fx,
        );
        let ghost m0 = self@;
        let mut k: u64 = 0;
        while k < count
            invariant
                self.inv(),
                self.r.data == old(self).r.data,
                self.r.pos >= old(self).r.pos,
                width == 1 || width == 2 || width == 4,
                fixed matches Some(d) ==> -0x8000_0000 <= d < 0x8000_0000,
                fx == (match fixed { Some(d) => Some(d as int), None => None::<int> }),
                target == spec_pokes(
                    old(self).r.data@,
                    old(self)@.pos,
                    old(self)@.out,
                    old(self)@.poke_pos,
                    count as nat,
                    width as nat,
                    fx,
                ),
                m0 == old(self)@,
                k <= count,
                self@ == (Machine { out: self@.out, poke_pos: self@.poke_pos, pos: self@.pos, ..m0 }),
                spec_pokes(self.r.data@, self@.pos, self@.out, self@.poke_pos, (count - k) as nat, width as nat, fx)
                    == target,
            decreases count - k,
        {
            let seek = self.r.vli()?;
            let np = match self.poke_pos.checked_add(seek) {
                Some(v) => v,
                None => return Err(OpFault::OutOfRange),
            };
            let delta: i64 = match fixed {
                Some(d) => d,
                None => {
                    let b = self.r.byte()?;
                    s8_exec(b)
                },
            };
            poke_delta(&mut self.output, np, width, delta)?;
            self.poke_pos = np;
            k = k + 1;
        }
        Ok(())
    }

    /// FLUSH: a final gap to the destination size, then every gap filled in order
    /// from the stream; the gap list is emptied.
    fn flush(&mut self, dest_size: usize) -> (r: Result<(), OpFault>)
        requires
            old(self).inv(),
        ensures
            final(self).inv(),
            final(self).r.data == old(self).r.data,
            final(self).r.pos >= old(self).r.pos,
            ({
                let m = old(self)@;
                let gaps = if dest_size > m.out_pos { m.gaps.push((m.out_pos, dest_size - m.out_pos)) } else { m.gaps };
                match spec_flush_gaps(old(self).r.data@, m.pos, m.out, gaps, 0) {
                    Ok((out, p1)) => r is Ok && final(self)@ == (Machine { out, gaps: Seq::empty(), pos: p1, ..m }),
                    Err(f) => r matches Err(e) && e@ == f,
                }
            }),
    {
        let ghost m0 = self@;
        if dest_size as u64 > self.out_pos {
            self.gaps.push((self.out_pos, dest_size as u64 - self.out_pos));
        }
        let ghost gaps = pairs_view(self.gaps@);
        proof {
            assert(gaps =~= (if dest_size > m0.out_pos { m0.gaps.push((m0.out_pos, dest_size - m0.out_pos)) } else { m0.gaps }));
        }
        let ghost target = spec_flush_gaps(self.r.data@, m0.pos, m0.out, gaps, 0);
        let mut i: usize = 0;
        while i < self.gaps.len()
            invariant
                self.inv(),
                self.r.data == old(self).r.data,
                self.r.pos >= old(self).r.pos,
                gaps == pairs_view(self.gaps@),
                m0 == old(self)@,
                gaps == (if dest_size > m0.out_pos { m0.gaps.push((m0.out_pos, dest_size - m0.out_pos)) } else { m0.gaps }),
                target == spec_flush_gaps(old(self).r.data@, m0.pos, m0.out, gaps, 0),
                i <= self.gaps@.len(),
                self.out_pos == m0.out_pos,
                self.poke_pos == m0.poke_pos,
                pairs_view(self.templates@) == m0.templates,
                spec_flush_gaps(self.r.data@, self.r.pos as int, self.output@, gaps, i as nat) == target,
            decreases self.gaps@.len() - i,
        {
            let (off, ln) = self.gaps[i];
            let end = match add_size(off, ln) {
                Some(v) => v,
                None => return Err(OpFault::OutOfRange),
            };
            grow_to(&mut self.output, end);
            let bytes = self.r.bytes(ln as usize)?;
            write_at(&mut self.output, off as usize, bytes);
            i = i + 1;
        }
        self.gaps.clear();
        proof {
            assert(pairs_view(self.gaps@) =~= Seq::<(int, int)>::empty());
        }
        Ok(())
    }
}

/// The executable outcome `r` with the state `after` is the one the model gives.
pub open spec fn outcome(model: Result<Machine, ApplyFault>, r: Result<(), OpFault>, after: Machine) -> bool {
    match model {
        Ok(m) => r is Ok && after == m,
        Err(f) => r matches Err(e) && e@ == f,
    }
}

impl<'a> Interp<'a> {
    fn op_set_source(&mut self) -> (r: Result<(), OpFault>)
        requires
            old(self).inv(),
        ensures
            final(self).inv(),
            final(self).r.data == old(self).r.data,
            final(self).r.pos >= old(self).r.pos,
            outcome(spec_op_set_source(old(self).r.data@, old(self)@), r, final(self)@),
    {
        let _src_idx = self.r.vli()?;
        self.out_pos = 0;
        self.poke_pos = 0;
        Ok(())
    }

    fn op_copy(&mut self, src: &[u8], multi: bool, gap: bool) -> (r: Result<(), OpFault>)
        requires
            old(self).inv(),
        ensures
            final(self).inv(),
            final(self).r.data == old(self).r.data,
            final(self).r.pos >= old(self).r.pos,
            outcome(spec_op_copy(src@, old(self).r.data@, multi, gap, old(self)@), r, final(self)@),
    {
        let adv = if gap { to_u64(self.r.vli()?) } else { 0 };
        let _src_idx = if multi { self.r.vli()? } else { 0 };
        let off = to_u64(self.r.vli()?);
        let cnt = to_u64(self.r.vli()?);
        self.copy(src, adv, off, cnt)
    }

    fn op_poke1(&mut self) -> (r: Result<(), OpFault>)
        requires
            old(self).inv(),
        ensures
            final(self).inv(),
            final(self).r.data == old(self).r.data,
            final(self).r.pos >= old(self).r.pos,
            outcome(spec_op_poke1(old(self).r.data@, old(self)@), r, final(self)@),
    {
        let seek = self.r.vli()?;
        let b = self.r.byte()?;
        let np = match self.poke_pos.checked_add(seek) {
            Some(v) => v,
            None => return Err(OpFault::OutOfRange),
        };
        poke_delta(&mut self.output, np, 1, s8_exec(b))?;
        self.poke_pos = np;
        Ok(())
    }

    fn op_poke_const1(&mut self) -> (r: Result<(), OpFault>)
        requires
            old(self).inv(),
        ensures
            final(self).inv(),
            final(self).r.data == old(self).r.data,
            final(self).r.pos >= old(self).r.pos,
            outcome(spec_op_poke_const1(old(self).r.data@, old(self)@), r, final(self)@),
    {
        let b = self.r.byte()?;
        let count = to_u64(self.r.vli()?);
        self.poke_pos = 0;
        self.pokes(count, 1, Some(s8_exec(b)))
    }

    fn op_poke_var(&mut self) -> (r: Result<(), OpFault>)
        requires
            old(self).inv(),
        ensures
            final(self).inv(),
            final(self).r.data == old(self).r.data,
            final(self).r.pos >= old(self).r.pos,
            outcome(spec_op_poke_var(old(self).r.data@, old(self)@), r, final(self)@),
    {
        let count = to_u64(self.r.vli()?);
        self.poke_pos = 0;
        self.pokes(count, 1, None)
    }

    fn op_poke_wide(&mut self, width: usize) -> (r: Result<(), OpFault>)
        requires
            old(self).inv(),
            width == 2 || width == 4,
        ensures
            final(self).inv(),
            final(self).r.data == old(self).r.data,
            final(self).r.pos >= old(self).r.pos,
            outcome(spec_op_poke_wide(old(self).r.data@, width as nat, old(self)@), r, final(self)@),
    {
        let d = self.r.bytes(width)?;
        let delta = le_signed(d);
        let count = to_u64(self.r.vli()?);
        self.poke_pos = 0;
        self.pokes(count, width, Some(delta))
    }

    fn op_store(&mut self, multi: bool) -> (r: Result<(), OpFault>)
        requires
            old(self).inv(),
        ensures
            final(self).inv(),
            final(self).r.data == old(self).r.data,
            final(self).r.pos >= old(self).r.pos,
            outcome(spec_op_store(old(self).r.data@, multi, old(self)@), r, final(self)@),
    {
        let _src_idx = if multi { self.r.vli()? } else { 0 };
        let off = to_u64(self.r.vli()?);
        let cnt = to_u64(self.r.vli()?);
        let ghost t0 = self.templates@;
        self.templates.push((off, cnt));
        proof {
            assert(pairs_view(self.templates@) =~= pairs_view(t0).push((off as int, cnt as int)));
        }
        Ok(())
    }

    fn op_tcopy(&mut self, src: &[u8], gap: bool) -> (r: Result<(), OpFault>)
        requires
            old(self).inv(),
        ensures
            final(self).inv(),
            final(self).r.data == old(self).r.data,
            final(self).r.pos >= old(self).r.pos,
            outcome(spec_op_tcopy(src@, old(self).r.data@, gap, old(self)@), r, final(self)@),
    {
        let adv = if gap { to_u64(self.r.vli()?) } else { 0 };
        let idx = to_u64(self.r.vli()?);
        if idx >= self.templates.len() as u64 {
            return Err(OpFault::TemplateIndex { idx });
        }
        let (off, cnt) = self.templates[idx as usize];
        self.copy(src, adv, off, cnt)
    }

    fn op_fill(&mut self, gap: bool, width: usize) -> (r: Result<(), OpFault>)
        requires
            old(self).inv(),
        ensures
            final(self).inv(),
            final(self).r.data == old(self).r.data,
            final(self).r.pos >= old(self).r.pos,
            outcome(spec_op_fill(old(self).r.data@, gap, width as nat, old(self)@), r, final(self)@),
    {
        let seek = if gap { to_u64(self.r.vli()?) } else { 0 };
        let pat = self.r.bytes(width)?;
        let count = to_u64(self.r.vli()?);
        self.fill(seek, pat, count)
    }

    fn op_flush(&mut self, dest_size: usize) -> (r: Result<(), OpFault>)
        requires
            old(self).inv(),
        ensures
            final(self).inv(),
            final(self).r.data == old(self).r.data,
            final(self).r.pos >= old(self).r.pos,
            outcome(spec_op_flush(old(self).r.data@, dest_size as int, old(self)@), r, final(self)@),
    {
        self.flush(dest_size)
    }

    /// Executes one opcode whose byte has been read. `Ok(false)` ends the program.
    fn exec_op(&mut self, op: Opcode, src: &[u8], dest_size: usize, multi: bool) -> (r: Result<bool, OpFault>)
        requires
            old(self).inv(),
        ensures
            final(self).inv(),
            final(self).r.data == old(self).r.data,
            final(self).r.pos >= old(self).r.pos,
            match spec_exec_op(op, src@, old(self).r.data@, dest_size as int, multi, old(self)@) {
                Ok(None) => r == Ok::<bool, OpFault>(false) && final(self)@.out == old(self)@.out,
                Ok(Some(m)) => r == Ok::<bool, OpFault>(true) && final(self)@ == m,
                Err(f) => r matches Err(e) && e@ == f,
            },
    {
        let gap = op == Opcode::CopyGap || op == Opcode::TcopyGap || op == Opcode::ZfillGap || op == Opcode::Fill1Gap
            || op == Opcode::Fill2Gap || op == Opcode::Fill4Gap;
        assert(gap == has_gap(op));
        let r = match op {
            Opcode::End => return Ok(false),
            Opcode::SetSource => self.op_set_source(),
            Opcode::Copy | Opcode::CopyGap => self.op_copy(src, multi, gap),
            Opcode::Flush => self.op_flush(dest_size),
            Opcode::Poke1 => self.op_poke1(),
            Opcode::Poke1xN | Opcode::Poke1xNB => self.op_poke_const1(),
            Opcode::Poke1xNVar => self.op_poke_var(),
            Opcode::Poke16xN => self.op_poke_wide(2),
            Opcode::Poke32xN => self.op_poke_wide(4),
            Opcode::Store => self.op_store(multi),
            Opcode::Tcopy | Opcode::TcopyGap => self.op_tcopy(src, gap),
            Opcode::Zfill | Opcode::ZfillGap => self.op_fill(gap, 0),
            Opcode::Fill1 | Opcode::Fill1Gap => self.op_fill(gap, 1),
            Opcode::Fill2 | Opcode::Fill2Gap => self.op_fill(gap, 2),
            Opcode::Fill4 | Opcode::Fill4Gap => self.op_fill(gap, 4),
        };
        match r {
            Ok(()) => Ok(true),
            Err(e) => Err(e),
        }
    }
}

/// Runs an opcode program against `src`; the model of the result is `spec_apply`.
fn execute(src: &[u8], opcodes: &[u8], dest_size: usize, src_count: i64) -> (r: Result<Vec<u8>, OpFault>)
    ensures
        match spec_apply(src@, opcodes@, dest_size as int, src_count) {
            Ok(out) => r matches Ok(v) && v@ == out,
            Err(f) => r matches Err(e) && e@ == f,
        },
{
    let multi = src_count >= 2;
    let mut output: Vec<u8> = Vec::new();
    output.resize(dest_size, 0);
    let mut st = Interp {
        r: OpcodeReader::new(opcodes),
        output,
        out_pos: 0,
        poke_pos: 0,
        gaps: Vec::new(),
        templates: Vec::new(),
    };
    proof {
        assert(st@.out =~= initial_machine(dest_size as int).out);
        assert(pairs_view(st.gaps@) =~= Seq::<(int, int)>::empty());
        assert(pairs_view(st.templates@) =~= Seq::<(int, int)>::empty());
        assert(st@ == initial_machine(dest_size as int));
    }
    let ghost target = spec_apply(src@, opcodes@, dest_size as int, src_count);
    loop
        invariant_except_break
            spec_run(src@, opcodes@, dest_size as int, multi, st@) == target,
        invariant
            st.inv(),
            st.r.data == opcodes,
            multi == (src_count >= 2),
            target == spec_apply(src@, opcodes@, dest_size as int, src_count),
        ensures
            target == Ok::<Seq<u8>, ApplyFault>(finish(st.output@, dest_size as int)),
        decreases opcodes@.len() - st.r.pos,
    {
        let ghost before = st@;
        match st.r.next_opcode() {
            None => {
                break;
            },
            Some(Err(e)) => {
                return Err(e);
            },
            Some(Ok(op)) => {
                let cont = st.exec_op(op, src, dest_size, multi)?;
                if !cont {
                    assert(st@.out == before.out);
                    break;
                }
            },
        }
    }
    st.output.truncate(dest_size);
    Ok(st.output)
}

/// The text that an unknown opcode byte at a stream offset is reported with: the byte in
/// hexadecimal padded to 2 digits, the offset in decimal.
pub open spec fn unknown_opcode_text(byte: u8, offset: usize) -> Seq<char> {
    "unknown opcode 0x"@ + zero_pad(hex_text(byte as nat), 2) + " at stream offset "@ + dec_text(offset as nat)
}

/// The text that an out-of-range template index is reported with.
pub open spec fn template_index_text(idx: u64) -> Seq<char> {
    "TCOPY: template index "@ + dec_text(idx as nat) + " out of range"@
}

/// Formats "unknown opcode 0x{byte:02x} at stream offset {offset}" with `format!`.
/// The contract states the text that these format specifiers produce.
#[verifier::external_body]
fn format_unknown_opcode(byte: u8, offset: usize) -> (s: String)
    ensures
        s@ == unknown_opcode_text(byte, offset),
{
    format!("unknown opcode 0x{byte:02x} at stream offset {offset}")
}

/// Formats "TCOPY: template index {idx} out of range" with `format!`.
/// The contract states the text that this format specifier produces.
#[verifier::external_body]
fn format_template_index(idx: u64) -> (s: String)
    ensures
        s@ == template_index_text(idx),
{
    format!("TCOPY: template index {idx} out of range")
}

/// The message that a fault is reported with.
pub open spec fn fault_text(f: ApplyFault) -> Seq<char> {
    match f {
        ApplyFault::Truncated => "opcode stream truncated"@,
        ApplyFault::UnknownOpcode { byte, offset } => unknown_opcode_text(byte, offset as usize),
        ApplyFault::TemplateIndex { idx } => template_index_text(idx as u64),
        ApplyFault::OutOfRange => "opcode operand out of range"@,
    }
}

fn fault_message(f: &OpFault) -> (s: String)
    ensures
        s@ == fault_text(f@),
{
    match f {
        OpFault::Truncated => "opcode stream truncated".to_owned(),
        OpFault::UnknownOpcode { byte, offset } => format_unknown_opcode(*byte, *offset),
        OpFault::TemplateIndex { idx } => format_template_index(*idx),
        OpFault::OutOfRange => "opcode operand out of range".to_owned(),
    }
}

fn run_opcodes(src: &[u8], opcodes: &[u8], dest_size: usize, src_count: i64) -> (r: Result<Vec<u8>, String>)
    ensures
        match spec_apply(src@, opcodes@, dest_size as int, src_count) {
            Ok(out) => r matches Ok(v) && v@ == out,
            Err(f) => r matches Err(e) && e@ == fault_text(f),
        },
{
    match execute(src, opcodes, dest_size, src_count) {
        Ok(v) => Ok(v),
        Err(f) => Err(fault_message(&f)),
    }
}

/// Apply a MODIFY patch opcode stream to `src_data`, returning the patched bytes.
///
/// The output starts as `dest_size` zero bytes, grows as writes reach past it, and is cut
/// back to `dest_size` at the end; a fault is reported as an `ApplyError` with no filename.
pub fn apply(src_data: &[u8], opcodes: &[u8], dest_size: usize, src_count: i64) -> (r: Result<Vec<u8>, RtpError>)
    ensures
        match spec_apply(src_data@, opcodes@, dest_size as int, src_count) {
            Ok(out) => r matches Ok(v) && v@ == out,
            Err(f) => r matches Err(e) && e@ == ErrorView::ApplyError { filename: Seq::empty(), detail: fault_text(f) },
        },
{
    match run_opcodes(src_data, opcodes, dest_size, src_count) {
        Ok(v) => Ok(v),
        Err(detail) => Err(RtpError::ApplyError { filename: String::new(), detail }),
    }
}

} // verus!
