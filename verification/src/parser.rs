use vstd::prelude::*;

use crate::error::{eof_message, ErrorView, RtpError};
use crate::error::format_eof_message;
use crate::reader::{le16, le32, spec_lp_string, spec_u16, spec_u32, spec_read, spec_vli, Reader};
use crate::types::{
    opt_string_view, spec_from_nibble, EntryDescriptor, FileRecord, FileRecordView, RecordType,
    RtpHeader, RtpPatch, RtpPatchView,
};

verus! {

/// Header flag: an extended type word follows the flags.
pub const FLAG_EXT_TYPE_PRESENT: u16 = 0x8000;

/// Header flag: a directory table follows the header.
pub const FLAG_DIR_TABLE: u16 = 0x0200;

/// Command flag: a combine-mode identifier follows.
pub const CMD_FLAG_COMBINE_ID: u16 = 0x0004;

/// The newest format version that is understood.
pub const MAX_VERSION: u16 = 0x0209;

/// A u32 that is present only when `cond` holds; 0 otherwise.
pub open spec fn spec_cond_u32(data: Seq<u8>, pos: int, cond: bool) -> Result<(u32, int), ErrorView> {
    if cond {
        spec_u32(data, pos)
    } else {
        Ok((0u32, pos))
    }
}

/// A u32 that is present only when `cond` holds.
pub open spec fn spec_opt_u32(data: Seq<u8>, pos: int, cond: bool) -> Result<(Option<u32>, int), ErrorView> {
    if cond {
        match spec_u32(data, pos) {
            Err(e) => Err(e),
            Ok((v, p)) => Ok((Some(v), p)),
        }
    } else {
        Ok((None, pos))
    }
}

/// The header fields that follow the option flags: total size, a reserved word, the
/// default attributes, a reserved half-word, the command flags, the optional combine
/// identifier and a final reserved word.
pub open spec fn spec_header_rest(
    data: Seq<u8>,
    pos: int,
    version: u16,
    flags: u16,
    ext_type_flags: u32,
    option_flags: u16,
) -> Result<(RtpHeader, int), ErrorView> {
    match spec_u32(data, pos) {
        Err(e) => Err(e),
        Ok((patch_total_size, p1)) => match spec_u32(data, p1) {
            Err(e) => Err(e),
            Ok((_, p2)) => match spec_u16(data, p2) {
                Err(e) => Err(e),
                Ok((default_attrs, p3)) => match spec_u16(data, p3) {
                    Err(e) => Err(e),
                    Ok((_, p4)) => match spec_u16(data, p4) {
                        Err(e) => Err(e),
                        Ok((cmd_flags, p5)) => match spec_opt_u32(
                            data,
                            p5,
                            cmd_flags & CMD_FLAG_COMBINE_ID != 0,
                        ) {
                            Err(e) => Err(e),
                            Ok((combine_mode_id, p6)) => match spec_u32(data, p6) {
                                Err(e) => Err(e),
                                Ok((_, p7)) => Ok(
                                    (
                                        RtpHeader {
                                            version,
                                            flags,
                                            ext_type_flags,
                                            option_flags,
                                            patch_total_size,
                                            default_attrs,
                                            cmd_flags,
                                            combine_mode_id,
                                            extra_mode: (ext_type_flags >> 16u32) & 1 != 0,
                                        },
                                        p7,
                                    ),
                                ),
                            },
                        },
                    },
                },
            },
        },
    }
}

/// The two magic bytes "K*".
pub open spec fn rtp_magic() -> Seq<u8> {
    seq![0x4Bu8, 0x2Au8]
}

/// The file header at `pos`: magic, version, flags, the optional extended type word and
/// the option flags, checked in that order, then the remaining fields.
pub open spec fn spec_header(data: Seq<u8>, pos: int) -> Result<(RtpHeader, int), ErrorView> {
    match spec_read(data, pos, 2) {
        Err(e) => Err(e),
        Ok((magic, p1)) => if magic != rtp_magic() {
            Err(ErrorView::InvalidMagic(magic))
        } else {
            match spec_u16(data, p1) {
                Err(e) => Err(e),
                Ok((version, p2)) => if version > MAX_VERSION {
                    Err(ErrorView::UnsupportedVersion(version))
                } else {
                    match spec_u16(data, p2) {
                        Err(e) => Err(e),
                        Ok((flags, p3)) => match spec_cond_u32(
                            data,
                            p3,
                            flags & FLAG_EXT_TYPE_PRESENT != 0,
                        ) {
                            Err(e) => Err(e),
                            Ok((ext, p4)) => match spec_u16(data, p4) {
                                Err(e) => Err(e),
                                Ok((option_flags, p5)) => if ext & 7 != 0 {
                                    Err(ErrorView::UnsupportedFlags(ext))
                                } else {
                                    spec_header_rest(data, p5, version, flags, ext, option_flags)
                                },
                            },
                        },
                    }
                },
            }
        },
    }
}

/// `n` length-prefixed strings read one after another.
pub open spec fn spec_strings(data: Seq<u8>, pos: int, n: nat) -> Result<(Seq<Seq<char>>, int), ErrorView>
    decreases n,
{
    if n == 0 {
        Ok((Seq::empty(), pos))
    } else {
        match spec_strings(data, pos, (n - 1) as nat) {
            Err(e) => Err(e),
            Ok((s, p)) => match spec_lp_string(data, p) {
                Err(e) => Err(e),
                Ok((t, p2)) => Ok((s.push(t), p2)),
            },
        }
    }
}

/// The directory table: a u16 count and that many strings, present only when the header
/// flags announce it.
pub open spec fn spec_dir_table(data: Seq<u8>, pos: int, hdr: RtpHeader) -> Result<(Seq<Seq<char>>, int), ErrorView> {
    if hdr.flags & FLAG_DIR_TABLE == 0 {
        Ok((Seq::empty(), pos))
    } else {
        match spec_u16(data, pos) {
            Err(e) => Err(e),
            Ok((n, p)) => spec_strings(data, p, n as nat),
        }
    }
}

/// Once a run of strings fails, every longer run fails with the same error.
pub proof fn lemma_strings_err(data: Seq<u8>, pos: int, k: nat, n: nat)
    requires
        k <= n,
        spec_strings(data, pos, k) is Err,
    ensures
        spec_strings(data, pos, n) == spec_strings(data, pos, k),
    decreases n - k,
{
    if k < n {
        lemma_strings_err(data, pos, k, (n - 1) as nat);
    }
}

fn read_cond_u32(r: &mut Reader, cond: bool) -> (res: Result<u32, RtpError>)
    requires
        old(r).wf(),
    ensures
        final(r).wf(),
        final(r).data == old(r).data,
        match spec_cond_u32(old(r).data@, old(r).pos as int, cond) {
            Ok((v, p)) => res == Ok::<u32, RtpError>(v) && final(r).pos == p,
            Err(e) => res matches Err(err) && err@ == e,
        },
{
    if cond {
        r.u32_le()
    } else {
        Ok(0)
    }
}

fn read_opt_u32(r: &mut Reader, cond: bool) -> (res: Result<Option<u32>, RtpError>)
    requires
        old(r).wf(),
    ensures
        final(r).wf(),
        final(r).data == old(r).data,
        match spec_opt_u32(old(r).data@, old(r).pos as int, cond) {
            Ok((v, p)) => res == Ok::<Option<u32>, RtpError>(v) && final(r).pos == p,
            Err(e) => res matches Err(err) && err@ == e,
        },
{
    if cond {
        let v = r.u32_le()?;
        Ok(Some(v))
    } else {
        Ok(None)
    }
}

fn parse_header_rest(
    r: &mut Reader,
    version: u16,
    flags: u16,
    ext_type_flags: u32,
    option_flags: u16,
) -> (res: Result<RtpHeader, RtpError>)
    requires
        old(r).wf(),
    ensures
        final(r).wf(),
        final(r).data == old(r).data,
        match spec_header_rest(old(r).data@, old(r).pos as int, version, flags, ext_type_flags, option_flags) {
            Ok((h, p)) => res == Ok::<RtpHeader, RtpError>(h) && final(r).pos == p,
            Err(e) => res matches Err(err) && err@ == e,
        },
{
    let patch_total_size = r.u32_le()?;
    let _reserved_a = r.u32_le()?;
    let default_attrs = r.u16_le()?;
    let _reserved_b = r.u16_le()?;
    let cmd_flags = r.u16_le()?;
    let combine_mode_id = read_opt_u32(r, cmd_flags & CMD_FLAG_COMBINE_ID != 0)?;
    let _reserved_c = r.u32_le()?;
    Ok(
        RtpHeader {
            version,
            flags,
            ext_type_flags,
            option_flags,
            patch_total_size,
            default_attrs,
            cmd_flags,
            combine_mode_id,
            extra_mode: (ext_type_flags >> 16u32) & 1 != 0,
        },
    )
}

fn parse_header(r: &mut Reader) -> (res: Result<RtpHeader, RtpError>)
    requires
        old(r).wf(),
    ensures
        final(r).wf(),
        final(r).data == old(r).data,
        match spec_header(old(r).data@, old(r).pos as int) {
            Ok((h, p)) => res == Ok::<RtpHeader, RtpError>(h) && final(r).pos == p,
            Err(e) => res matches Err(err) && err@ == e,
        },
{
    let magic = r.read_exact(2)?;
    if magic[0] != 0x4B || magic[1] != 0x2A {
        let mut m: Vec<u8> = Vec::new();
        m.push(magic[0]);
        m.push(magic[1]);
        proof {
            assert(m@ =~= magic@);
            assert(magic@ != rtp_magic()) by {
                if magic@ == rtp_magic() {
                    assert(magic@[0] == rtp_magic()[0]);
                    assert(magic@[1] == rtp_magic()[1]);
                }
            }
        }
        return Err(RtpError::InvalidMagic(m));
    }
    assert(magic@ =~= rtp_magic());
    let version = r.u16_le()?;
    if version > MAX_VERSION {
        return Err(RtpError::UnsupportedVersion(version));
    }
    let flags = r.u16_le()?;
    let ext_type_flags = read_cond_u32(r, flags & FLAG_EXT_TYPE_PRESENT != 0)?;
    let option_flags = r.u16_le()?;
    if ext_type_flags & 7 != 0 {
        return Err(RtpError::UnsupportedFlags(ext_type_flags));
    }
    parse_header_rest(r, version, flags, ext_type_flags, option_flags)
}

fn parse_dir_table(r: &mut Reader, hdr: &RtpHeader) -> (res: Result<Vec<String>, RtpError>)
    requires
        old(r).wf(),
    ensures
        final(r).wf(),
        final(r).data == old(r).data,
        match spec_dir_table(old(r).data@, old(r).pos as int, *hdr) {
            Ok((dirs, p)) => res matches Ok(v) && v@.map_values(|d: String| d@) == dirs
                && final(r).pos == p,
            Err(e) => res matches Err(err) && err@ == e,
        },
{
    if hdr.flags & FLAG_DIR_TABLE == 0 {
        let v: Vec<String> = Vec::new();
        assert(v@.map_values(|d: String| d@) =~= Seq::<Seq<char>>::empty());
        return Ok(v);
    }
    let n = r.u16_le()?;
    let ghost data = r.data@;
    let ghost start = r.pos as int;
    let mut dirs: Vec<String> = Vec::new();
    let mut i: u16 = 0;
    assert(dirs@.map_values(|d: String| d@) =~= Seq::<Seq<char>>::empty());
    assert(spec_dir_table(data, old(r).pos as int, *hdr) == spec_strings(data, start, n as nat));
    while i < n
        invariant
            spec_dir_table(data, old(r).pos as int, *hdr) == spec_strings(data, start, n as nat),
            r.wf(),
            r.data == old(r).data,
            r.data@ == data,
            i <= n,
            spec_strings(data, start, i as nat) == Ok::<(Seq<Seq<char>>, int), ErrorView>(
                (dirs@.map_values(|d: String| d@), r.pos as int),
            ),
        decreases n - i,
    {
        let s = match r.lp_string() {
            Ok(s) => s,
            Err(e) => {
                proof {
                    assert(spec_strings(data, start, (i + 1) as nat) == Err::<(Seq<Seq<char>>, int), ErrorView>(e@));
                    lemma_strings_err(data, start, (i + 1) as nat, n as nat);
                }
                return Err(e);
            },
        };
        let ghost before = dirs@;
        dirs.push(s);
        proof {
            assert(dirs@.map_values(|d: String| d@) =~= before.map_values(|d: String| d@).push(s@));
        }
        i = i + 1;
    }
    Ok(dirs)
}

/// Record header bit: the record overrides the header's option flags.
pub const REC_HAS_OPTION_FLAGS: u16 = 0x0002;

/// Record header bit: the record names a file.
pub const REC_HAS_FILENAME: u16 = 0x0004;

/// Record header bit: a disk-set index follows.
pub const REC_HAS_DISK_IDX: u16 = 0x0080;

/// Record header bit: an attribute override follows.
pub const REC_HAS_ATTRS: u16 = 0x0100;

/// Record header bit: explicit source and destination paths follow.
pub const REC_HAS_PATHS: u16 = 0x0200;

/// Option flag bits announcing a seek value.
pub const OPT_HAS_SEEK: u16 = 0x00C0;

/// The CRC of an entry descriptor is kept to its low 30 bits.
pub const CRC_MASK: u32 = 0x3FFF_FFFF;

/// The record type that a record header carries in its top nibble.
pub open spec fn rec_type_of(rec_hdr: u16) -> RecordType {
    spec_from_nibble(((rec_hdr >> 12u16) & 0xF) as u8)
}

/// A u16 present only when `cond` holds; `default` otherwise.
pub open spec fn spec_cond_u16(data: Seq<u8>, pos: int, cond: bool, default: u16) -> Result<(u16, int), ErrorView> {
    if cond {
        spec_u16(data, pos)
    } else {
        Ok((default, pos))
    }
}

/// A string present only when `cond` holds; empty otherwise.
pub open spec fn spec_cond_string(data: Seq<u8>, pos: int, cond: bool) -> Result<(Seq<char>, int), ErrorView> {
    if cond {
        spec_lp_string(data, pos)
    } else {
        Ok((Seq::empty(), pos))
    }
}

/// The position after a VLI that is present only when `cond` holds.
pub open spec fn spec_skip_vli(data: Seq<u8>, pos: int, cond: bool) -> Result<int, ErrorView> {
    if cond {
        match spec_vli(data, pos) {
            Err(e) => Err(e),
            Ok((_, p)) => Ok(p),
        }
    } else {
        Ok(pos)
    }
}

/// Source and destination paths, present only when `cond` holds.
pub open spec fn spec_paths(data: Seq<u8>, pos: int, cond: bool) -> Result<(Option<Seq<char>>, Option<Seq<char>>, int), ErrorView> {
    if cond {
        match spec_lp_string(data, pos) {
            Err(e) => Err(e),
            Ok((src, p1)) => match spec_lp_string(data, p1) {
                Err(e) => Err(e),
                Ok((dst, p2)) => Ok((Some(src), Some(dst), p2)),
            },
        }
    } else {
        Ok((None, None, pos))
    }
}

/// The position after the u32 and u16 that only directory records carry.
pub open spec fn spec_skip_dir_fields(data: Seq<u8>, pos: int, cond: bool) -> Result<int, ErrorView> {
    if cond {
        match spec_u32(data, pos) {
            Err(e) => Err(e),
            Ok((_, p1)) => match spec_u16(data, p1) {
                Err(e) => Err(e),
                Ok((_, p2)) => Ok(p2),
            },
        }
    } else {
        Ok(pos)
    }
}

/// The seek, checksum, disk-set and attribute fields, each gated by its flag.
pub open spec fn spec_skip_optional(data: Seq<u8>, pos: int, rec_hdr: u16, option_flags: u16, extra_mode: bool) -> Result<int, ErrorView> {
    let seek = option_flags & OPT_HAS_SEEK != 0;
    match spec_skip_vli(data, pos, seek) {
        Err(e) => Err(e),
        Ok(p1) => match spec_skip_vli(data, p1, seek && extra_mode) {
            Err(e) => Err(e),
            Ok(p2) => match spec_skip_vli(data, p2, rec_hdr & REC_HAS_DISK_IDX != 0) {
                Err(e) => Err(e),
                Ok(p3) => match spec_cond_u16(data, p3, rec_hdr & REC_HAS_ATTRS != 0, 0) {
                    Err(e) => Err(e),
                    Ok((_, p4)) => Ok(p4),
                },
            },
        },
    }
}

/// The fields of a record between its header word and its data block: the filename, the
/// paths and the position after the fixed 10-byte metadata block.
pub open spec fn spec_rec_head(data: Seq<u8>, pos: int, rec_hdr: u16, hdr: RtpHeader) -> Result<(Seq<char>, Option<Seq<char>>, Option<Seq<char>>, int), ErrorView> {
    let t = rec_type_of(rec_hdr);
    match spec_cond_u16(data, pos, rec_hdr & REC_HAS_OPTION_FLAGS != 0, hdr.option_flags) {
        Err(e) => Err(e),
        Ok((option_flags, p1)) => match spec_cond_string(data, p1, rec_hdr & REC_HAS_FILENAME != 0) {
            Err(e) => Err(e),
            Ok((filename, p2)) => match spec_skip_optional(data, p2, rec_hdr, option_flags, hdr.extra_mode) {
                Err(e) => Err(e),
                Ok(p3) => match spec_paths(data, p3, rec_hdr & REC_HAS_PATHS != 0 && t != RecordType::Mkdir) {
                    Err(e) => Err(e),
                    Ok((src_path, dst_path, p4)) => match spec_skip_dir_fields(data, p4, t == RecordType::Mkdir) {
                        Err(e) => Err(e),
                        Ok(p5) => match spec_read(data, p5, 10) {
                            Err(e) => Err(e),
                            Ok((_, p6)) => Ok((filename, src_path, dst_path, p6)),
                        },
                    },
                },
            },
        },
    }
}

/// An entry descriptor: a 24-byte block holding the file size at offset 16, a 10-byte block
/// holding the CRC at offset 6, and in extra mode 8 timestamp bytes and an alternate path.
pub open spec fn spec_entry(data: Seq<u8>, pos: int, extra_mode: bool) -> Result<(EntryDescriptor, int), ErrorView> {
    match spec_read(data, pos, 24) {
        Err(e) => Err(e),
        Ok((b24, p1)) => match spec_read(data, p1, 10) {
            Err(e) => Err(e),
            Ok((b10, p2)) => {
                let entry = EntryDescriptor {
                    file_size: le32(b24[16], b24[17], b24[18], b24[19]),
                    crc32: le32(b10[6], b10[7], b10[8], b10[9]) & CRC_MASK,
                };
                if extra_mode {
                    match spec_read(data, p2, 8) {
                        Err(e) => Err(e),
                        Ok((_, p3)) => match spec_lp_string(data, p3) {
                            Err(e) => Err(e),
                            Ok((_, p4)) => Ok((entry, p4)),
                        },
                    }
                } else {
                    Ok((entry, p2))
                }
            },
        },
    }
}

/// `n` entry descriptors read one after another.
pub open spec fn spec_entries(data: Seq<u8>, pos: int, n: nat, extra_mode: bool) -> Result<(Seq<EntryDescriptor>, int), ErrorView>
    decreases n,
{
    if n == 0 {
        Ok((Seq::empty(), pos))
    } else {
        match spec_entries(data, pos, (n - 1) as nat, extra_mode) {
            Err(e) => Err(e),
            Ok((s, p)) => match spec_entry(data, p, extra_mode) {
                Err(e) => Err(e),
                Ok((t, p2)) => Ok((s.push(t), p2)),
            },
        }
    }
}

/// Once a run of entries fails, every longer run fails with the same error.
pub proof fn lemma_entries_err(data: Seq<u8>, pos: int, k: nat, n: nat, extra_mode: bool)
    requires
        k <= n,
        spec_entries(data, pos, k, extra_mode) is Err,
    ensures
        spec_entries(data, pos, n, extra_mode) == spec_entries(data, pos, k, extra_mode),
    decreases n - k,
{
    if k < n {
        lemma_entries_err(data, pos, k, (n - 1) as nat, extra_mode);
    }
}

/// The number of entries that a count VLI announces, read as an unsigned 64-bit value.
pub open spec fn entry_count(c: i64) -> nat {
    (c as u64) as nat
}

/// The file size of the first entry, or 0 when there is none.
pub open spec fn first_size(es: Seq<EntryDescriptor>) -> u32 {
    if es.len() > 0 {
        es[0].file_size
    } else {
        0
    }
}

/// What the data block of a non-directory record yields.
pub struct RecordDataView {
    pub file_mod_flags: u16,
    pub new_file_size: u32,
    pub patch_data_offset: int,
    pub patch_data_size: int,
    pub src_count: i64,
    pub src_entries: Seq<EntryDescriptor>,
    pub dst_entries: Seq<EntryDescriptor>,
}

/// The tail shared by all data blocks but that of NEW records: destination count, a reserved
/// word, the payload length, the source and destination entries, then the payload itself.
pub open spec fn spec_data_tail(
    data: Seq<u8>,
    pos: int,
    file_mod_flags: u16,
    src_count: i64,
    dst_count: i64,
    extra_mode: bool,
) -> Result<(RecordDataView, int), ErrorView> {
    match spec_u32(data, pos) {
        Err(e) => Err(e),
        Ok((_, p1)) => match spec_u32(data, p1) {
            Err(e) => Err(e),
            Ok((skip, p2)) => match spec_entries(data, p2, entry_count(src_count), extra_mode) {
                Err(e) => Err(e),
                Ok((src, p3)) => match spec_entries(data, p3, entry_count(dst_count), extra_mode) {
                    Err(e) => Err(e),
                    Ok((dst, p4)) => match spec_read(data, p4, skip as int) {
                        Err(e) => Err(e),
                        Ok((_, p5)) => Ok(
                            (
                                RecordDataView {
                                    file_mod_flags,
                                    new_file_size: first_size(dst),
                                    patch_data_offset: p4,
                                    patch_data_size: skip as int,
                                    src_count,
                                    src_entries: src,
                                    dst_entries: dst,
                                },
                                p5,
                            ),
                        ),
                    },
                },
            },
        },
    }
}

/// The data block of a non-directory record of type `t`. Only MODIFY records keep their
/// payload length as the diff size; the other types skip their payload and report no diff.
pub open spec fn spec_record_data(data: Seq<u8>, pos: int, t: RecordType, extra_mode: bool) -> Result<(RecordDataView, int), ErrorView> {
    match t {
        RecordType::New => match spec_vli(data, pos) {
            Err(e) => Err(e),
            Ok((c, p1)) => {
                let n: nat = if c > 0 { c as nat } else { 0 };
                match spec_entries(data, p1, n, extra_mode) {
                    Err(e) => Err(e),
                    Ok((src, p2)) => Ok(
                        (
                            RecordDataView {
                                file_mod_flags: 0,
                                new_file_size: first_size(src),
                                patch_data_offset: p2,
                                patch_data_size: 0,
                                src_count: c,
                                src_entries: src,
                                dst_entries: Seq::empty(),
                            },
                            p2,
                        ),
                    ),
                }
            },
        },
        RecordType::Modify => match spec_u16(data, pos) {
            Err(e) => Err(e),
            Ok((fmf, p1)) => match spec_vli(data, p1) {
                Err(e) => Err(e),
                Ok((sc, p2)) => match spec_vli(data, p2) {
                    Err(e) => Err(e),
                    Ok((dc, p3)) => spec_data_tail(data, p3, fmf, sc, dc, extra_mode),
                },
            },
        },
        _ => match spec_vli(data, pos) {
            Err(e) => Err(e),
            Ok((dc, p1)) => match spec_data_tail(data, p1, 0, 0, dc, extra_mode) {
                Err(e) => Err(e),
                Ok((d, p2)) => Ok((RecordDataView { patch_data_size: 0, ..d }, p2)),
            },
        },
    }
}

/// An error inside a record's data block, reported with the record's index.
pub open spec fn record_error(index: int, e: ErrorView) -> ErrorView {
    match e {
        ErrorView::UnexpectedEof { offset, needed, available } => ErrorView::InvalidRecord {
            index,
            detail: eof_message(offset as usize, needed as usize, available as usize),
        },
        _ => e,
    }
}

/// The record at `pos`, the `index`-th of the file: `None` for the end-of-records marker.
pub open spec fn spec_record(data: Seq<u8>, pos: int, hdr: RtpHeader, index: int) -> Result<Option<(FileRecordView, int)>, ErrorView> {
    match spec_u16(data, pos) {
        Err(e) => Err(e),
        Ok((rec_hdr, p1)) => {
            let t = rec_type_of(rec_hdr);
            if t == RecordType::Eof {
                Ok(None)
            } else {
                match spec_rec_head(data, p1, rec_hdr, hdr) {
                    Err(e) => Err(e),
                    Ok((filename, src_path, dst_path, p2)) => if t == RecordType::Mkdir {
                        Ok(
                            Some(
                                (
                                    FileRecordView {
                                        rec_type: t,
                                        rec_flags: rec_hdr,
                                        filename,
                                        src_path,
                                        dst_path,
                                        file_mod_flags: 0,
                                        new_file_size: 0,
                                        patch_data_offset: 0,
                                        patch_data_size: 0,
                                        src_count: 0,
                                        src_entries: Seq::empty(),
                                        dst_entries: Seq::empty(),
                                    },
                                    p2,
                                ),
                            ),
                        )
                    } else {
                        match spec_record_data(data, p2, t, hdr.extra_mode) {
                            Err(e) => Err(record_error(index, e)),
                            Ok((d, p3)) => Ok(
                                Some(
                                    (
                                        FileRecordView {
                                            rec_type: t,
                                            rec_flags: rec_hdr,
                                            filename,
                                            src_path,
                                            dst_path,
                                            file_mod_flags: d.file_mod_flags,
                                            new_file_size: d.new_file_size,
                                            patch_data_offset: d.patch_data_offset,
                                            patch_data_size: d.patch_data_size,
                                            src_count: d.src_count,
                                            src_entries: d.src_entries,
                                            dst_entries: d.dst_entries,
                                        },
                                        p3,
                                    ),
                                ),
                            ),
                        }
                    },
                }
            }
        },
    }
}

/// The records from `pos` up to the end-of-records marker, appended to `acc`.
pub open spec fn spec_records(data: Seq<u8>, pos: int, hdr: RtpHeader, acc: Seq<FileRecordView>) -> Result<Seq<FileRecordView>, ErrorView>
    decreases data.len() - pos,
{
    match spec_record(data, pos, hdr, acc.len() as int) {
        Err(e) => Err(e),
        Ok(None) => Ok(acc),
        Ok(Some((rec, p))) => if pos < p <= data.len() {
            spec_records(data, p, hdr, acc.push(rec))
        } else {
            Ok(acc.push(rec))
        },
    }
}

fn read_cond_u16(r: &mut Reader, cond: bool, default: u16) -> (res: Result<u16, RtpError>)
    requires
        old(r).wf(),
    ensures
        final(r).wf(),
        final(r).data == old(r).data,
        old(r).pos <= final(r).pos,
        match spec_cond_u16(old(r).data@, old(r).pos as int, cond, default) {
            Ok((v, p)) => res == Ok::<u16, RtpError>(v) && final(r).pos == p,
            Err(e) => res matches Err(err) && err@ == e,
        },
{
    if cond {
        r.u16_le()
    } else {
        Ok(default)
    }
}

fn read_cond_string(r: &mut Reader, cond: bool) -> (res: Result<String, RtpError>)
    requires
        old(r).wf(),
    ensures
        final(r).wf(),
        final(r).data == old(r).data,
        old(r).pos <= final(r).pos,
        match spec_cond_string(old(r).data@, old(r).pos as int, cond) {
            Ok((s, p)) => res matches Ok(t) && t@ == s && final(r).pos == p,
            Err(e) => res matches Err(err) && err@ == e,
        },
{
    if cond {
        r.lp_string()
    } else {
        let s = String::new();
        Ok(s)
    }
}

fn skip_vli(r: &mut Reader, cond: bool) -> (res: Result<(), RtpError>)
    requires
        old(r).wf(),
    ensures
        final(r).wf(),
        final(r).data == old(r).data,
        old(r).pos <= final(r).pos,
        match spec_skip_vli(old(r).data@, old(r).pos as int, cond) {
            Ok(p) => res is Ok && final(r).pos == p,
            Err(e) => res matches Err(err) && err@ == e,
        },
{
    if cond {
        let _v = r.vli()?;
    }
    Ok(())
}

fn read_paths(r: &mut Reader, cond: bool) -> (res: Result<(Option<String>, Option<String>), RtpError>)
    requires
        old(r).wf(),
    ensures
        final(r).wf(),
        final(r).data == old(r).data,
        old(r).pos <= final(r).pos,
        match spec_paths(old(r).data@, old(r).pos as int, cond) {
            Ok((s, d, p)) => res matches Ok((rs, rd)) && opt_string_view(rs) == s
                && opt_string_view(rd) == d && final(r).pos == p,
            Err(e) => res matches Err(err) && err@ == e,
        },
{
    if cond {
        let src = r.lp_string()?;
        let dst = r.lp_string()?;
        Ok((Some(src), Some(dst)))
    } else {
        Ok((None, None))
    }
}

fn skip_dir_fields(r: &mut Reader, cond: bool) -> (res: Result<(), RtpError>)
    requires
        old(r).wf(),
    ensures
        final(r).wf(),
        final(r).data == old(r).data,
        old(r).pos <= final(r).pos,
        match spec_skip_dir_fields(old(r).data@, old(r).pos as int, cond) {
            Ok(p) => res is Ok && final(r).pos == p,
            Err(e) => res matches Err(err) && err@ == e,
        },
{
    if cond {
        let _dir_u32 = r.u32_le()?;
        let _dir_u16 = r.u16_le()?;
    }
    Ok(())
}

fn skip_optional(r: &mut Reader, rec_hdr: u16, option_flags: u16, extra_mode: bool) -> (res: Result<(), RtpError>)
    requires
        old(r).wf(),
    ensures
        final(r).wf(),
        final(r).data == old(r).data,
        old(r).pos <= final(r).pos,
        match spec_skip_optional(old(r).data@, old(r).pos as int, rec_hdr, option_flags, extra_mode) {
            Ok(p) => res is Ok && final(r).pos == p,
            Err(e) => res matches Err(err) && err@ == e,
        },
{
    let seek = option_flags & OPT_HAS_SEEK != 0;
    skip_vli(r, seek)?;
    skip_vli(r, seek && extra_mode)?;
    skip_vli(r, rec_hdr & REC_HAS_DISK_IDX != 0)?;
    let _attrs = read_cond_u16(r, rec_hdr & REC_HAS_ATTRS != 0, 0)?;
    Ok(())
}

fn read_rec_head(r: &mut Reader, rec_hdr: u16, hdr: &RtpHeader) -> (res: Result<(String, Option<String>, Option<String>), RtpError>)
    requires
        old(r).wf(),
    ensures
        final(r).wf(),
        final(r).data == old(r).data,
        old(r).pos <= final(r).pos,
        match spec_rec_head(old(r).data@, old(r).pos as int, rec_hdr, *hdr) {
            Ok((f, s, d, p)) => res matches Ok((rf, rs, rd)) && rf@ == f && opt_string_view(rs) == s
                && opt_string_view(rd) == d && final(r).pos == p,
            Err(e) => res matches Err(err) && err@ == e,
        },
{
    let rec_type = RecordType::from_nibble(((rec_hdr >> 12u16) & 0xF) as u8);
    let is_mkdir = rec_type == RecordType::Mkdir;
    let option_flags = read_cond_u16(r, rec_hdr & REC_HAS_OPTION_FLAGS != 0, hdr.option_flags)?;
    let filename = read_cond_string(r, rec_hdr & REC_HAS_FILENAME != 0)?;
    skip_optional(r, rec_hdr, option_flags, hdr.extra_mode)?;
    let (src_path, dst_path) = read_paths(r, rec_hdr & REC_HAS_PATHS != 0 && !is_mkdir)?;
    skip_dir_fields(r, is_mkdir)?;
    let _metadata = r.read_exact(10)?;
    Ok((filename, src_path, dst_path))
}

/// The little-endian u32 at `i` in `b`.
fn le32_at(b: &[u8], i: usize) -> (v: u32)
    requires
        i + 4 <= b@.len(),
    ensures
        v == le32(b@[i as int], b@[i + 1], b@[i + 2], b@[i + 3]),
{
    b[i] as u32 + 0x100 * (b[i + 1] as u32) + 0x1_0000 * (b[i + 2] as u32) + 0x100_0000 * (b[i + 3] as u32)
}

fn read_entry(r: &mut Reader, extra_mode: bool) -> (res: Result<EntryDescriptor, RtpError>)
    requires
        old(r).wf(),
    ensures
        final(r).wf(),
        final(r).data == old(r).data,
        old(r).pos <= final(r).pos,
        match spec_entry(old(r).data@, old(r).pos as int, extra_mode) {
            Ok((e, p)) => res == Ok::<EntryDescriptor, RtpError>(e) && final(r).pos == p,
            Err(e) => res matches Err(err) && err@ == e,
        },
{
    let block24 = r.read_exact(24)?;
    let block10 = r.read_exact(10)?;
    let file_size = le32_at(block24, 16);
    let crc32 = le32_at(block10, 6) & CRC_MASK;
    if extra_mode {
        let _timestamps = r.read_exact(8)?;
        let _alt_path = r.lp_string()?;
    }
    Ok(EntryDescriptor { file_size, crc32 })
}

fn read_entries(r: &mut Reader, count: u64, extra_mode: bool) -> (res: Result<Vec<EntryDescriptor>, RtpError>)
    requires
        old(r).wf(),
    ensures
        final(r).wf(),
        final(r).data == old(r).data,
        old(r).pos <= final(r).pos,
        match spec_entries(old(r).data@, old(r).pos as int, count as nat, extra_mode) {
            Ok((es, p)) => res matches Ok(v) && v@ == es && final(r).pos == p,
            Err(e) => res matches Err(err) && err@ == e,
        },
{
    let ghost data = r.data@;
    let ghost start = r.pos as int;
    let mut entries: Vec<EntryDescriptor> = Vec::new();
    let mut i: u64 = 0;
    while i < count
        invariant
            r.wf(),
            r.data == old(r).data,
            r.data@ == data,
            start == old(r).pos as int,
            start <= r.pos,
            i <= count,
            spec_entries(data, start, i as nat, extra_mode) == Ok::<(Seq<EntryDescriptor>, int), ErrorView>(
                (entries@, r.pos as int),
            ),
        decreases count - i,
    {
        let e = match read_entry(r, extra_mode) {
            Ok(e) => e,
            Err(err) => {
                proof {
                    assert(spec_entries(data, start, (i + 1) as nat, extra_mode) == Err::<(Seq<EntryDescriptor>, int), ErrorView>(err@));
                    lemma_entries_err(data, start, (i + 1) as nat, count as nat, extra_mode);
                }
                return Err(err);
            },
        };
        entries.push(e);
        i = i + 1;
    }
    Ok(entries)
}

/// What the data block of a non-directory record yields.
struct RecordData {
    file_mod_flags: u16,
    new_file_size: u32,
    patch_data_offset: usize,
    patch_data_size: usize,
    src_count: i64,
    src_entries: Vec<EntryDescriptor>,
    dst_entries: Vec<EntryDescriptor>,
}

impl View for RecordData {
    type V = RecordDataView;

    closed spec fn view(&self) -> RecordDataView {
        RecordDataView {
            file_mod_flags: self.file_mod_flags,
            new_file_size: self.new_file_size,
            patch_data_offset: self.patch_data_offset as int,
            patch_data_size: self.patch_data_size as int,
            src_count: self.src_count,
            src_entries: self.src_entries@,
            dst_entries: self.dst_entries@,
        }
    }
}

fn first_entry_size(es: &Vec<EntryDescriptor>) -> (s: u32)
    ensures
        s == first_size(es@),
{
    if es.len() > 0 {
        es[0].file_size
    } else {
        0
    }
}

fn read_data_tail(
    r: &mut Reader,
    file_mod_flags: u16,
    src_count: i64,
    dst_count: i64,
    extra_mode: bool,
) -> (res: Result<RecordData, RtpError>)
    requires
        old(r).wf(),
    ensures
        final(r).wf(),
        final(r).data == old(r).data,
        old(r).pos <= final(r).pos,
        match spec_data_tail(old(r).data@, old(r).pos as int, file_mod_flags, src_count, dst_count, extra_mode) {
            Ok((d, p)) => res matches Ok(v) && v@ == d && final(r).pos == p,
            Err(e) => res matches Err(err) && err@ == e,
        },
{
    let _unk4 = r.u32_le()?;
    let skip_off = r.u32_le()?;
    let src_entries = read_entries(r, src_count as u64, extra_mode)?;
    let dst_entries = read_entries(r, dst_count as u64, extra_mode)?;
    let new_file_size = first_entry_size(&dst_entries);
    let data_start = r.pos;
    let _payload = r.read_exact(skip_off as usize)?;
    Ok(
        RecordData {
            file_mod_flags,
            new_file_size,
            patch_data_offset: data_start,
            patch_data_size: skip_off as usize,
            src_count,
            src_entries,
            dst_entries,
        },
    )
}

fn parse_record_data(r: &mut Reader, rec_type: RecordType, extra_mode: bool) -> (res: Result<RecordData, RtpError>)
    requires
        old(r).wf(),
    ensures
        final(r).wf(),
        final(r).data == old(r).data,
        old(r).pos <= final(r).pos,
        match spec_record_data(old(r).data@, old(r).pos as int, rec_type, extra_mode) {
            Ok((d, p)) => res matches Ok(v) && v@ == d && final(r).pos == p,
            Err(e) => res matches Err(err) && err@ == e,
        },
{
    match rec_type {
        RecordType::New => {
            let src_count = r.vli()?;
            let n: u64 = if src_count > 0 { src_count as u64 } else { 0 };
            let src_entries = read_entries(r, n, extra_mode)?;
            let new_file_size = first_entry_size(&src_entries);
            Ok(
                RecordData {
                    file_mod_flags: 0,
                    new_file_size,
                    patch_data_offset: r.pos,
                    patch_data_size: 0,
                    src_count,
                    src_entries,
                    dst_entries: Vec::new(),
                },
            )
        },
        RecordType::Modify => {
            let file_mod_flags = r.u16_le()?;
            let src_count = r.vli()?;
            let dst_count = r.vli()?;
            read_data_tail(r, file_mod_flags, src_count, dst_count, extra_mode)
        },
        _ => {
            let dst_count = r.vli()?;
            let mut d = read_data_tail(r, 0, 0, dst_count, extra_mode)?;
            d.patch_data_size = 0;
            Ok(d)
        },
    }
}

/// Reports an error inside a record's data block under the record's index.
fn to_record_error(index: usize, e: RtpError) -> (res: RtpError)
    ensures
        res@ == record_error(index as int, e@),
{
    match e {
        RtpError::UnexpectedEof { offset, needed, available } => RtpError::InvalidRecord {
            index,
            detail: format_eof_message(offset, needed, available),
        },
        other => other,
    }
}

fn parse_record(r: &mut Reader, hdr: &RtpHeader, index: usize) -> (res: Result<Option<FileRecord>, RtpError>)
    requires
        old(r).wf(),
    ensures
        final(r).wf(),
        final(r).data == old(r).data,
        old(r).pos <= final(r).pos,
        res matches Ok(Some(_)) ==> old(r).pos + 2 <= final(r).pos,
        match spec_record(old(r).data@, old(r).pos as int, *hdr, index as int) {
            Ok(None) => res matches Ok(None),
            Ok(Some((v, p))) => res matches Ok(Some(f)) && f@ == v && final(r).pos == p,
            Err(e) => res matches Err(err) && err@ == e,
        },
{
    let rec_hdr = r.u16_le()?;
    let rec_type = RecordType::from_nibble(((rec_hdr >> 12u16) & 0xF) as u8);
    if rec_type == RecordType::Eof {
        return Ok(None);
    }
    let (filename, src_path, dst_path) = read_rec_head(r, rec_hdr, hdr)?;
    if rec_type == RecordType::Mkdir {
        let rec = FileRecord {
            rec_type,
            rec_flags: rec_hdr,
            filename,
            src_path,
            dst_path,
            file_mod_flags: 0,
            new_file_size: 0,
            patch_data_offset: 0,
            patch_data_size: 0,
            src_count: 0,
            src_entries: Vec::new(),
            dst_entries: Vec::new(),
        };
        proof {
            assert(rec@.src_entries =~= Seq::<EntryDescriptor>::empty());
            assert(rec@.dst_entries =~= Seq::<EntryDescriptor>::empty());
        }
        return Ok(Some(rec));
    }
    let d = match parse_record_data(r, rec_type, hdr.extra_mode) {
        Ok(d) => d,
        Err(e) => {
            return Err(to_record_error(index, e));
        },
    };
    Ok(
        Some(
            FileRecord {
                rec_type,
                rec_flags: rec_hdr,
                filename,
                src_path,
                dst_path,
                file_mod_flags: d.file_mod_flags,
                new_file_size: d.new_file_size,
                patch_data_offset: d.patch_data_offset,
                patch_data_size: d.patch_data_size,
                src_count: d.src_count,
                src_entries: d.src_entries,
                dst_entries: d.dst_entries,
            },
        ),
    )
}

fn parse_records(r: &mut Reader, hdr: &RtpHeader) -> (res: Result<Vec<FileRecord>, RtpError>)
    requires
        old(r).wf(),
    ensures
        final(r).wf(),
        final(r).data == old(r).data,
        match spec_records(old(r).data@, old(r).pos as int, *hdr, Seq::empty()) {
            Ok(recs) => res matches Ok(v) && v@.map_values(|f: FileRecord| f@) == recs,
            Err(e) => res matches Err(err) && err@ == e,
        },
{
    let ghost data = r.data@;
    let ghost start = r.pos as int;
    let mut records: Vec<FileRecord> = Vec::new();
    let mut index: usize = 0;
    assert(records@.map_values(|f: FileRecord| f@) =~= Seq::<FileRecordView>::empty());
    loop
        invariant
            r.wf(),
            r.data == old(r).data,
            r.data@ == data,
            start == old(r).pos as int,
            index == records.len(),
            index <= r.pos,
            spec_records(data, start, *hdr, Seq::empty()) == spec_records(
                data,
                r.pos as int,
                *hdr,
                records@.map_values(|f: FileRecord| f@),
            ),
        decreases data.len() - r.pos,
    {
        let ghost p0 = r.pos as int;
        let ghost acc = records@.map_values(|f: FileRecord| f@);
        match parse_record(r, hdr, index) {
            Err(e) => {
                return Err(e);
            },
            Ok(None) => {
                return Ok(records);
            },
            Ok(Some(rec)) => {
                records.push(rec);
                proof {
                    assert(records@.map_values(|f: FileRecord| f@) =~= acc.push(rec@));
                }
                index = index + 1;
            },
        }
    }
}

/// The patch file that `data` holds: header, directory table and records, with the raw bytes.
pub open spec fn spec_parse(data: Seq<u8>) -> Result<RtpPatchView, ErrorView> {
    match spec_header(data, 0) {
        Err(e) => Err(e),
        Ok((header, p1)) => match spec_dir_table(data, p1, header) {
            Err(e) => Err(e),
            Ok((dirs, p2)) => match spec_records(data, p2, header, Seq::empty()) {
                Err(e) => Err(e),
                Ok(records) => Ok(RtpPatchView { header, dirs, records, raw: data }),
            },
        },
    }
}

proof fn lemma_flag_bits(f: u16, c: u16, e: u32)
    by (bit_vector)
    ensures
        (f & 0x8000u16 != 0u16) <==> f >= 0x8000u16,
        (c & 0x0004u16 != 0u16) <==> c % 8u16 >= 4u16,
        ((e >> 16u32) & 1u32 != 0u32) <==> (e & 0x1_0000u32 != 0u32),
{
}

/// A header read from the first bytes of `data` as they stand: "K*", the version at 2 and the
/// flags at 4 (little-endian); when the flags' top bit is set the extended type word at 6
/// follows, else it is 0; then, from `q` (10 or 6), the option flags, the total size, a
/// reserved word, the default attributes, a reserved half-word and the command flags; when
/// bit 2 of the command flags is set the combine identifier follows; then a reserved word.
/// The extra mode is bit 16 (0x10000) of the extended type word.
pub open spec fn header_as_read(data: Seq<u8>, h: RtpHeader) -> bool {
    let ext = data[5] >= 128;
    let q: int = if ext { 10 } else { 6 };
    let combine = (data[q + 14] % 8) >= 4;
    &&& data.len() >= q + 20 + (if combine { 4int } else { 0 })
    &&& data[0] == 0x4Bu8 && data[1] == 0x2Au8
    &&& h.version == le16(data[2], data[3])
    &&& h.flags == le16(data[4], data[5])
    &&& h.ext_type_flags == if ext { le32(data[6], data[7], data[8], data[9]) } else { 0u32 }
    &&& h.option_flags == le16(data[q], data[q + 1])
    &&& h.patch_total_size == le32(data[q + 2], data[q + 3], data[q + 4], data[q + 5])
    &&& h.default_attrs == le16(data[q + 10], data[q + 11])
    &&& h.cmd_flags == le16(data[q + 14], data[q + 15])
    &&& h.combine_mode_id == if combine {
        Some(le32(data[q + 16], data[q + 17], data[q + 18], data[q + 19]))
    } else {
        None::<u32>
    }
    &&& h.extra_mode == (h.ext_type_flags & 0x1_0000u32 != 0)
}

#[verifier::spinoff_prover]
proof fn lemma_header_as_read(data: Seq<u8>)
    requires
        spec_header(data, 0) is Ok,
    ensures
        header_as_read(data, spec_header(data, 0)->Ok_0.0),
{
    let h = spec_header(data, 0)->Ok_0.0;
    assert(data.subrange(0, 2) == rtp_magic());
    assert(data.subrange(0, 2)[0] == data[0] && data.subrange(0, 2)[1] == data[1]);
    let f = le16(data[4], data[5]);
    let ext = data[5] >= 128;
    let q: int = if ext { 10 } else { 6 };
    let c = le16(data[q + 14], data[q + 15]);
    lemma_flag_bits(f, c, h.ext_type_flags);
    assert(f >= 0x8000 <==> ext);
    assert(c % 8 == data[q + 14] % 8);
}

/// The header of every accepted file is its first bytes read as they stand (see
/// `header_as_read`): the version, flags and other fields are the little-endian words at
/// their offsets, unchanged.
pub proof fn lemma_parse_header_fields(data: Seq<u8>)
    requires
        spec_parse(data) is Ok,
    ensures
        header_as_read(data, spec_parse(data)->Ok_0.header),
{
    assert(spec_header(data, 0) is Ok);
    assert(spec_parse(data)->Ok_0.header == spec_header(data, 0)->Ok_0.0);
    lemma_header_as_read(data);
}

/// Parses an RTPatch file.
pub fn parse(data: Vec<u8>) -> (res: Result<RtpPatch, RtpError>)
    ensures
        match spec_parse(data@) {
            Ok(v) => res matches Ok(p) && p@ == v,
            Err(e) => res matches Err(err) && err@ == e,
        },
{
    let (header, dirs, records) = {
        let mut r = Reader::new(data.as_slice());
        let header = parse_header(&mut r)?;
        let dirs = parse_dir_table(&mut r, &header)?;
        let records = parse_records(&mut r, &header)?;
        (header, dirs, records)
    };
    Ok(RtpPatch { header, dirs, records, raw: data })
}

/// Every CRC in the entries fits the 30-bit mask.
pub open spec fn entries_masked(es: Seq<EntryDescriptor>) -> bool {
    forall|i: int| 0 <= i < es.len() ==> #[trigger] es[i].crc32 <= CRC_MASK
}

/// What holds of every record that the parser yields from `len` bytes: it is not the end
/// marker, its diff range lies within the bytes, and its entry CRCs fit the 30-bit mask.
pub open spec fn record_sound(r: FileRecordView, len: int) -> bool {
    &&& r.rec_type != RecordType::Eof
    &&& 0 <= r.patch_data_offset
    &&& 0 <= r.patch_data_size
    &&& r.patch_data_offset + r.patch_data_size <= len
    &&& entries_masked(r.src_entries)
    &&& entries_masked(r.dst_entries)
}

proof fn lemma_strings_pos(data: Seq<u8>, pos: int, n: nat)
    requires
        0 <= pos <= data.len(),
    ensures
        spec_strings(data, pos, n) matches Ok((_, p)) ==> pos <= p <= data.len(),
    decreases n,
{
    if n > 0 {
        lemma_strings_pos(data, pos, (n - 1) as nat);
    }
}

proof fn lemma_entry_sound(data: Seq<u8>, pos: int, extra_mode: bool)
    requires
        0 <= pos <= data.len(),
    ensures
        spec_entry(data, pos, extra_mode) matches Ok((e, p)) ==> pos <= p <= data.len() && e.crc32 <= CRC_MASK,
{
    if let Ok((b10, _)) = spec_read(data, pos + 24, 10) {
        let v = le32(b10[6], b10[7], b10[8], b10[9]);
        assert(v & 0x3FFF_FFFFu32 <= 0x3FFF_FFFFu32) by (bit_vector);
    }
}

proof fn lemma_entries_sound(data: Seq<u8>, pos: int, n: nat, extra_mode: bool)
    requires
        0 <= pos <= data.len(),
    ensures
        spec_entries(data, pos, n, extra_mode) matches Ok((es, p)) ==> pos <= p <= data.len() && entries_masked(es),
    decreases n,
{
    if n > 0 {
        lemma_entries_sound(data, pos, (n - 1) as nat, extra_mode);
        if let Ok((s, p)) = spec_entries(data, pos, (n - 1) as nat, extra_mode) {
            lemma_entry_sound(data, p, extra_mode);
            if let Ok((t, p2)) = spec_entry(data, p, extra_mode) {
                assert(s.push(t)[s.len() as int] == t);
                assert forall|i: int| 0 <= i < s.push(t).len() implies #[trigger] s.push(t)[i].crc32 <= CRC_MASK by {
                    if i < s.len() {
                        assert(s.push(t)[i] == s[i]);
                    }
                }
            }
        }
    }
}

proof fn lemma_data_tail_sound(
    data: Seq<u8>,
    pos: int,
    file_mod_flags: u16,
    src_count: i64,
    dst_count: i64,
    extra_mode: bool,
)
    requires
        0 <= pos <= data.len(),
    ensures
        spec_data_tail(data, pos, file_mod_flags, src_count, dst_count, extra_mode) matches Ok((d, p)) ==> {
            &&& pos <= p <= data.len()
            &&& 0 <= d.patch_data_offset
            &&& 0 <= d.patch_data_size
            &&& d.patch_data_offset + d.patch_data_size <= data.len()
            &&& entries_masked(d.src_entries)
            &&& entries_masked(d.dst_entries)
        },
{
    if let Ok((_, p1)) = spec_u32(data, pos) {
        if let Ok((_, p2)) = spec_u32(data, p1) {
            lemma_entries_sound(data, p2, entry_count(src_count), extra_mode);
            if let Ok((_, p3)) = spec_entries(data, p2, entry_count(src_count), extra_mode) {
                lemma_entries_sound(data, p3, entry_count(dst_count), extra_mode);
            }
        }
    }
}

proof fn lemma_record_data_sound(data: Seq<u8>, pos: int, t: RecordType, extra_mode: bool)
    requires
        0 <= pos <= data.len(),
    ensures
        spec_record_data(data, pos, t, extra_mode) matches Ok((d, p)) ==> {
            &&& pos <= p <= data.len()
            &&& 0 <= d.patch_data_offset
            &&& 0 <= d.patch_data_size
            &&& d.patch_data_offset + d.patch_data_size <= data.len()
            &&& entries_masked(d.src_entries)
            &&& entries_masked(d.dst_entries)
        },
{
    match t {
        RecordType::New => {
            if let Ok((c, p1)) = spec_vli(data, pos) {
                let n: nat = if c > 0 { c as nat } else { 0 };
                lemma_entries_sound(data, p1, n, extra_mode);
            }
        },
        RecordType::Modify => {
            if let Ok((fmf, p1)) = spec_u16(data, pos) {
                if let Ok((sc, p2)) = spec_vli(data, p1) {
                    if let Ok((dc, p3)) = spec_vli(data, p2) {
                        lemma_data_tail_sound(data, p3, fmf, sc, dc, extra_mode);
                    }
                }
            }
        },
        _ => {
            if let Ok((dc, p1)) = spec_vli(data, pos) {
                lemma_data_tail_sound(data, p1, 0, 0, dc, extra_mode);
            }
        },
    }
}

proof fn lemma_skip_optional_pos(data: Seq<u8>, pos: int, rec_hdr: u16, option_flags: u16, extra_mode: bool)
    requires
        0 <= pos <= data.len(),
    ensures
        spec_skip_optional(data, pos, rec_hdr, option_flags, extra_mode) matches Ok(p) ==> pos <= p <= data.len(),
{
}

proof fn lemma_rec_head_pos(data: Seq<u8>, pos: int, rec_hdr: u16, hdr: RtpHeader)
    requires
        0 <= pos <= data.len(),
    ensures
        spec_rec_head(data, pos, rec_hdr, hdr) matches Ok((_, _, _, p)) ==> pos <= p <= data.len(),
{
    let t = rec_type_of(rec_hdr);
    if let Ok((option_flags, p1)) = spec_cond_u16(data, pos, rec_hdr & REC_HAS_OPTION_FLAGS != 0, hdr.option_flags) {
        if let Ok((_, p2)) = spec_cond_string(data, p1, rec_hdr & REC_HAS_FILENAME != 0) {
            lemma_skip_optional_pos(data, p2, rec_hdr, option_flags, hdr.extra_mode);
        }
    }
}

proof fn lemma_record_sound(data: Seq<u8>, pos: int, hdr: RtpHeader, index: int)
    requires
        0 <= pos <= data.len(),
    ensures
        spec_record(data, pos, hdr, index) matches Ok(Some((r, p))) ==> pos < p <= data.len() && record_sound(
            r,
            data.len() as int,
        ),
{
    if let Ok((rec_hdr, p1)) = spec_u16(data, pos) {
        lemma_rec_head_pos(data, p1, rec_hdr, hdr);
        if let Ok((_, _, _, p2)) = spec_rec_head(data, p1, rec_hdr, hdr) {
            lemma_record_data_sound(data, p2, rec_type_of(rec_hdr), hdr.extra_mode);
        }
    }
}

proof fn lemma_records_sound(data: Seq<u8>, pos: int, hdr: RtpHeader, acc: Seq<FileRecordView>)
    requires
        0 <= pos <= data.len(),
        forall|i: int| 0 <= i < acc.len() ==> record_sound(#[trigger] acc[i], data.len() as int),
    ensures
        spec_records(data, pos, hdr, acc) matches Ok(rs) ==> forall|i: int|
            0 <= i < rs.len() ==> record_sound(#[trigger] rs[i], data.len() as int),
    decreases data.len() - pos,
{
    lemma_record_sound(data, pos, hdr, acc.len() as int);
    if let Ok(Some((r, p))) = spec_record(data, pos, hdr, acc.len() as int) {
        let acc2 = acc.push(r);
        assert forall|i: int| 0 <= i < acc2.len() implies record_sound(#[trigger] acc2[i], data.len() as int) by {
            if i < acc.len() {
                assert(acc2[i] == acc[i]);
            }
        }
        lemma_records_sound(data, p, hdr, acc2);
    }
}

/// A parsed patch keeps the input as its raw bytes; the input began with the magic "K*",
/// its version is at most 0x0209 and the low three bits of its extended type word are
/// clear; and every record is a real record (not the end marker) whose compressed diff
/// lies within the raw bytes and whose entry CRCs fit 30 bits.
pub proof fn lemma_parse_sound(data: Seq<u8>)
    ensures
        spec_parse(data) matches Ok(p) ==> {
            &&& p.raw == data
            &&& data.len() >= 2 && data[0] == 0x4B && data[1] == 0x2A
            &&& p.header.version <= MAX_VERSION
            &&& p.header.ext_type_flags & 7 == 0
            &&& forall|i: int| 0 <= i < p.records.len() ==> record_sound(#[trigger] p.records[i], data.len() as int)
        },
{
    if let Ok((header, p1)) = spec_header(data, 0) {
        assert(data.subrange(0, 2) == rtp_magic());
        assert(data.subrange(0, 2)[0] == data[0]);
        assert(data.subrange(0, 2)[1] == data[1]);
        if header.flags & FLAG_DIR_TABLE != 0 {
            if let Ok((n, p)) = spec_u16(data, p1) {
                lemma_strings_pos(data, p, n as nat);
            }
        }
        if let Ok((_, p2)) = spec_dir_table(data, p1, header) {
            lemma_records_sound(data, p2, header, Seq::empty());
        }
    }
}

} // verus!
