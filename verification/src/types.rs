use vstd::prelude::*;

verus! {

/// Record type nibble from bits 15-12 of rec_hdr.
#[derive(Debug, Clone, Copy, PartialEq, Eq, Structural)]
pub enum RecordType {
    Eof,
    Rename,
    New,
    Modify,
    Mkdir,
    Delete,
    Unknown(u8),
}

/// The record type that a nibble value denotes.
pub open spec fn spec_from_nibble(n: u8) -> RecordType {
    if n == 1 {
        RecordType::Eof
    } else if n == 2 {
        RecordType::Rename
    } else if n == 3 {
        RecordType::New
    } else if n == 4 {
        RecordType::Modify
    } else if n == 5 {
        RecordType::Mkdir
    } else if n == 6 {
        RecordType::Delete
    } else {
        RecordType::Unknown(n)
    }
}

/// The upper-case name under which a record type is shown.
pub open spec fn spec_type_name(t: RecordType) -> Seq<char> {
    match t {
        RecordType::Eof => "EOF"@,
        RecordType::Rename => "RENAME"@,
        RecordType::New => "NEW"@,
        RecordType::Modify => "MODIFY"@,
        RecordType::Mkdir => "MKDIR"@,
        RecordType::Delete => "DELETE"@,
        RecordType::Unknown(_) => "UNKNOWN"@,
    }
}

impl RecordType {
    pub fn from_nibble(n: u8) -> (t: Self)
        ensures
            t == spec_from_nibble(n),
    {
        match n {
            1 => RecordType::Eof,
            2 => RecordType::Rename,
            3 => RecordType::New,
            4 => RecordType::Modify,
            5 => RecordType::Mkdir,
            6 => RecordType::Delete,
            other => RecordType::Unknown(other),
        }
    }

    pub fn as_str(self) -> (s: &'static str)
        ensures
            s@ == spec_type_name(self),
    {
        match self {
            RecordType::Eof => "EOF",
            RecordType::Rename => "RENAME",
            RecordType::New => "NEW",
            RecordType::Modify => "MODIFY",
            RecordType::Mkdir => "MKDIR",
            RecordType::Delete => "DELETE",
            RecordType::Unknown(_) => "UNKNOWN",
        }
    }
}

/// Source or destination file version descriptor.
#[derive(Debug, Clone, Copy, PartialEq, Eq, Structural)]
pub struct EntryDescriptor {
    pub file_size: u32,
    /// CRC32 stored masked to 30 bits.
    pub crc32: u32,
}

impl Default for EntryDescriptor {
    fn default() -> (e: Self)
        ensures
            e == (EntryDescriptor { file_size: 0, crc32: 0 }),
    {
        EntryDescriptor { file_size: 0, crc32: 0 }
    }
}

#[derive(Debug, Clone, Copy, PartialEq, Eq, Structural)]
pub struct RtpHeader {
    pub version: u16,
    pub flags: u16,
    pub ext_type_flags: u32,
    pub option_flags: u16,
    pub patch_total_size: u32,
    pub default_attrs: u16,
    pub cmd_flags: u16,
    pub combine_mode_id: Option<u32>,
    /// (ext_type_flags >> 16) & 1 -- extra timestamps + alt-path in entries.
    pub extra_mode: bool,
}

#[derive(Debug, Clone)]
pub struct FileRecord {
    pub rec_type: RecordType,
    pub rec_flags: u16,
    pub filename: String,
    pub src_path: Option<String>,
    pub dst_path: Option<String>,
    pub file_mod_flags: u16,
    /// Destination file size (from first dst entry for MODIFY, first src entry for NEW).
    pub new_file_size: u32,
    /// Byte offset within the raw RTP data where the compressed diff starts.
    pub patch_data_offset: usize,
    /// Byte length of the compressed diff (0 for non-MODIFY records).
    pub patch_data_size: usize,
    /// Number of source file versions referenced by this record.
    pub src_count: i64,
    pub src_entries: Vec<EntryDescriptor>,
    pub dst_entries: Vec<EntryDescriptor>,
}

/// The mathematical model of a `FileRecord`.
pub struct FileRecordView {
    pub rec_type: RecordType,
    pub rec_flags: u16,
    pub filename: Seq<char>,
    pub src_path: Option<Seq<char>>,
    pub dst_path: Option<Seq<char>>,
    pub file_mod_flags: u16,
    pub new_file_size: u32,
    pub patch_data_offset: int,
    pub patch_data_size: int,
    pub src_count: i64,
    pub src_entries: Seq<EntryDescriptor>,
    pub dst_entries: Seq<EntryDescriptor>,
}

pub open spec fn opt_string_view(s: Option<String>) -> Option<Seq<char>> {
    match s {
        Some(t) => Some(t@),
        None => None,
    }
}

impl View for FileRecord {
    type V = FileRecordView;

    open spec fn view(&self) -> FileRecordView {
        FileRecordView {
            rec_type: self.rec_type,
            rec_flags: self.rec_flags,
            filename: self.filename@,
            src_path: opt_string_view(self.src_path),
            dst_path: opt_string_view(self.dst_path),
            file_mod_flags: self.file_mod_flags,
            new_file_size: self.new_file_size,
            patch_data_offset: self.patch_data_offset as int,
            patch_data_size: self.patch_data_size as int,
            src_count: self.src_count,
            src_entries: self.src_entries@,
            dst_entries: self.dst_entries@,
        }
    }
}

impl FileRecordView {
    pub open spec fn has_diff(self) -> bool {
        self.rec_type == RecordType::Modify && self.patch_data_size > 0
    }
}

impl FileRecord {
    pub fn has_diff(&self) -> (b: bool)
        ensures
            b == self@.has_diff(),
    {
        matches!(self.rec_type, RecordType::Modify) && self.patch_data_size > 0
    }
}

/// Parsed RTP patch file.
pub struct RtpPatch {
    pub header: RtpHeader,
    pub dirs: Vec<String>,
    pub records: Vec<FileRecord>,
    /// Raw bytes of the .rtp file, kept for extracting compressed diffs.
    pub raw: Vec<u8>,
}

/// The mathematical model of an `RtpPatch`.
pub struct RtpPatchView {
    pub header: RtpHeader,
    pub dirs: Seq<Seq<char>>,
    pub records: Seq<FileRecordView>,
    pub raw: Seq<u8>,
}

impl View for RtpPatch {
    type V = RtpPatchView;

    open spec fn view(&self) -> RtpPatchView {
        RtpPatchView {
            header: self.header,
            dirs: self.dirs@.map_values(|d: String| d@),
            records: self.records@.map_values(|r: FileRecord| r@),
            raw: self.raw@,
        }
    }
}

} // verus!
