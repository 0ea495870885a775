pub mod apply;
pub mod codec;
pub mod error;
pub mod kraft;
pub mod parser;
pub mod reader;
pub mod select;
pub mod text;
pub mod types;

pub use error::RtpError;
pub use parser::parse;
pub use types::{EntryDescriptor, FileRecord, RecordType, RtpHeader, RtpPatch};

use vstd::prelude::*;

use crate::apply::{fault_text, lemma_apply_output_len, spec_apply};
use crate::codec::{codec_fault_text, spec_decompress};
use crate::error::ErrorView;
use crate::parser::CRC_MASK;
use crate::types::FileRecordView;

verus! {

/// One bit step of the reflected CRC-32 register: shift right, and when the bit shifted out
/// was set, add the reflected IEEE polynomial 0xEDB88320.
pub open spec fn crc_bit(c: u32) -> u32 {
    if c & 1 == 1 {
        (c >> 1u32) ^ 0xEDB8_8320u32
    } else {
        c >> 1u32
    }
}

/// `k` bit steps of the register.
pub open spec fn crc_bits(c: u32, k: nat) -> u32
    decreases k,
{
    if k == 0 {
        c
    } else {
        crc_bits(crc_bit(c), (k - 1) as nat)
    }
}

/// The CRC-32 register after every byte of `data`: it starts at 0xFFFFFFFF, and each byte is
/// added into its low bits and followed by eight bit steps.
pub open spec fn crc_register(data: Seq<u8>) -> u32
    decreases data.len(),
{
    if data.len() == 0 {
        0xFFFF_FFFFu32
    } else {
        crc_bits(crc_register(data.drop_last()) ^ (data.last() as u32), 8)
    }
}

/// The standard (IEEE, reflected) CRC-32 of a byte sequence: the register after all bytes,
/// inverted.
pub open spec fn crc32_ieee(data: Seq<u8>) -> u32 {
    crc_register(data) ^ 0xFFFF_FFFFu32
}

/// The CRC-32 (IEEE) of all of `data`, bit by bit.
fn crc32_hash(data: &[u8]) -> (c: u32)
    ensures
        c == crc32_ieee(data@),
{
    let mut reg: u32 = 0xFFFF_FFFF;
    let mut i: usize = 0;
    while i < data.len()
        invariant
            i <= data.len(),
            reg == crc_register(data@.subrange(0, i as int)),
        decreases data.len() - i,
    {
        proof {
            assert(data@.subrange(0, i + 1).drop_last() =~= data@.subrange(0, i as int));
        }
        let mut c: u32 = reg ^ (data[i] as u32);
        let ghost c0 = c;
        let mut k: u32 = 0;
        while k < 8
            invariant
                k <= 8,
                crc_bits(c, (8 - k) as nat) == crc_bits(c0, 8),
            decreases 8 - k,
        {
            c = if c & 1 == 1 {
                (c >> 1u32) ^ 0xEDB8_8320u32
            } else {
                c >> 1u32
            };
            k = k + 1;
        }
        reg = c;
        i = i + 1;
    }
    proof {
        assert(data@.subrange(0, data@.len() as int) =~= data@);
    }
    reg ^ 0xFFFF_FFFF
}

/// Compute CRC32 of `data` masked to 30 bits (as stored in entry descriptors).
pub fn crc32_masked(data: &[u8]) -> (c: u32)
    ensures
        c == crc32_ieee(data@) & CRC_MASK,
{
    crc32_hash(data) & CRC_MASK
}

/// The largest output that the decompressor is allowed for a record: four times the
/// destination size, at least 4 MiB.
pub open spec fn spec_max_output(new_file_size: u32) -> int {
    let m: int = if new_file_size * 4 > 0x40_0000 { new_file_size * 4 } else { 0x40_0000 };
    if m > usize::MAX { usize::MAX as int } else { m }
}

/// Whether the source fails the checksum check: the check is asked for, the record has a
/// first source entry, its CRC is not zero, and it differs from that of the source.
pub open spec fn crc_rejects(rec: FileRecordView, src: Seq<u8>, check_crc: bool) -> bool {
    &&& check_crc
    &&& rec.src_entries.len() > 0
    &&& rec.src_entries[0].crc32 != 0
    &&& crc32_ieee(src) & CRC_MASK != rec.src_entries[0].crc32
}

/// What patching `src` with the record `rec` of a patch file whose bytes are `raw` yields.
pub open spec fn spec_patch_file(raw: Seq<u8>, rec: FileRecordView, src: Seq<u8>, check_crc: bool) -> Result<Seq<u8>, ErrorView> {
    if crc_rejects(rec, src, check_crc) {
        Err(
            ErrorView::ChecksumMismatch {
                filename: rec.filename,
                expected: rec.src_entries[0].crc32,
                actual: crc32_ieee(src) & CRC_MASK,
            },
        )
    } else {
        match spec_decompress(raw, rec.patch_data_offset, rec.patch_data_size, spec_max_output(rec.new_file_size)) {
            Err(f) => Err(ErrorView::DecompressError { filename: rec.filename, detail: codec_fault_text(f) }),
            Ok(ops) => match spec_apply(src, ops, rec.new_file_size as int, rec.src_count) {
                Err(f) => Err(ErrorView::ApplyError { filename: rec.filename, detail: fault_text(f) }),
                Ok(out) => Ok(
                    if rec.new_file_size <= out.len() {
                        out.subrange(0, rec.new_file_size as int)
                    } else {
                        out
                    },
                ),
            },
        }
    }
}

/// A patched file always has exactly the destination size of its record.
pub proof fn lemma_patch_output_len(raw: Seq<u8>, rec: FileRecordView, src: Seq<u8>, check_crc: bool)
    ensures
        spec_patch_file(raw, rec, src, check_crc) matches Ok(out) ==> out.len() == rec.new_file_size,
{
    if let Ok(ops) = spec_decompress(raw, rec.patch_data_offset, rec.patch_data_size, spec_max_output(rec.new_file_size)) {
        lemma_apply_output_len(src, ops, rec.new_file_size as int, rec.src_count);
    }
}

/// Checksum validation only ever rejects: without it no checksum error is reported, and when
/// it accepts the source (or the record carries no CRC) the result is the same as without it.
pub proof fn lemma_checksum_only_rejects(raw: Seq<u8>, rec: FileRecordView, src: Seq<u8>)
    ensures
        !(spec_patch_file(raw, rec, src, false) matches Err(ErrorView::ChecksumMismatch { .. })),
        !crc_rejects(rec, src, true) ==> spec_patch_file(raw, rec, src, true) == spec_patch_file(raw, rec, src, false),
        crc_rejects(rec, src, true) ==> spec_patch_file(raw, rec, src, true) == Err::<Seq<u8>, ErrorView>(
            ErrorView::ChecksumMismatch {
                filename: rec.filename,
                expected: rec.src_entries[0].crc32,
                actual: crc32_ieee(src) & CRC_MASK,
            },
        ),
{
}

fn max_output_for(new_file_size: u32) -> (m: usize)
    ensures
        m == spec_max_output(new_file_size),
{
    let scaled: u64 = new_file_size as u64 * 4;
    let m: u64 = if scaled > 0x40_0000 { scaled } else { 0x40_0000 };
    if m > usize::MAX as u64 {
        usize::MAX
    } else {
        m as usize
    }
}

/// High-level: decompress and apply a MODIFY record to a source file.
///
/// Returns the patched bytes. Validates the source CRC if `check_crc` is true.
pub fn patch_file(patch: &RtpPatch, record: &FileRecord, src_data: &[u8], check_crc: bool) -> (res: Result<Vec<u8>, RtpError>)
    ensures
        match spec_patch_file(patch.raw@, record@, src_data@, check_crc) {
            Ok(out) => res matches Ok(v) && v@ == out,
            Err(e) => res matches Err(err) && err@ == e,
        },
{
    if check_crc && record.src_entries.len() > 0 && record.src_entries[0].crc32 != 0 {
        let expected = record.src_entries[0].crc32;
        let actual = crc32_masked(src_data);
        if actual != expected {
            return Err(RtpError::ChecksumMismatch { filename: record.filename.clone(), expected, actual });
        }
    }
    let opcodes = match codec::decompress(
        patch.raw.as_slice(),
        record.patch_data_offset,
        record.patch_data_size,
        max_output_for(record.new_file_size),
    ) {
        Ok(ops) => ops,
        Err(detail) => {
            return Err(RtpError::DecompressError { filename: record.filename.clone(), detail });
        },
    };
    let mut result = match apply::apply(src_data, opcodes.as_slice(), record.new_file_size as usize, record.src_count) {
        Ok(out) => out,
        Err(e) => {
            let err = match e {
                RtpError::ApplyError { detail, .. } => RtpError::ApplyError { filename: record.filename.clone(), detail },
                other => other,
            };
            return Err(err);
        },
    };
    result.truncate(record.new_file_size as usize);
    Ok(result)
}

} // verus!
