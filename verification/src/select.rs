use vstd::prelude::*;

use crate::error::RtpError;
use crate::text::string_from_chars;
use crate::types::{spec_type_name, FileRecord, FileRecordView, RecordType, RtpPatch};

verus! {

/// The lower-case form of a text, as `str::to_lowercase` gives it.
pub uninterp spec fn lowercase(s: Seq<char>) -> Seq<char>;

/// The ASCII lower-case of a character: 'A'..='Z' become 'a'..='z', others stay.
pub open spec fn ascii_lower(c: char) -> char {
    if 'A' <= c <= 'Z' {
        ((c as u32) + 32) as char
    } else {
        c
    }
}

/// Whether every character is ASCII.
pub open spec fn ascii_text(s: Seq<char>) -> bool {
    forall|i: int| 0 <= i < s.len() ==> (#[trigger] s[i] as u32) < 0x80
}

/// The lower-case form of a text: exact for ASCII text, named otherwise.
pub open spec fn lower_text(s: Seq<char>) -> Seq<char> {
    if ascii_text(s) {
        s.map_values(|c: char| ascii_lower(c))
    } else {
        lowercase(s)
    }
}

/// Lower-cases `s` with `str::to_lowercase` (Unicode lower-case mapping).
/// The contract names the result, and states it for ASCII text, where the mapping changes
/// exactly the letters 'A' to 'Z'; for other text its characters are not stated.
#[verifier::external_body]
fn to_lower(s: &str) -> (r: String)
    ensures
        r@ == lowercase(s@),
        ascii_text(s@) ==> r@ == s@.map_values(|c: char| ascii_lower(c)),
{
    s.to_lowercase()
}

/// Whether `needle` occurs in `hay` as a contiguous run of characters.
pub open spec fn is_substring(needle: Seq<char>, hay: Seq<char>) -> bool {
    exists|i: int| 0 <= i <= hay.len() - needle.len() && #[trigger] hay.subrange(i, i + needle.len()) == needle
}

/// The characters of `s`, in order.
fn chars_of(s: &str) -> (v: Vec<char>)
    ensures
        v@ == s@,
{
    let n = s.unicode_len();
    let mut v: Vec<char> = Vec::new();
    let mut i: usize = 0;
    while i < n
        invariant
            n == s@.len(),
            i <= n,
            v@ == s@.subrange(0, i as int),
        decreases n - i,
    {
        v.push(s.get_char(i));
        i = i + 1;
        assert(v@ =~= s@.subrange(0, i as int));
    }
    assert(v@ =~= s@);
    v
}

/// Whether the characters of `needle` appear at `at` in `hay`.
fn matches_at(hay: &Vec<char>, needle: &Vec<char>, at: usize) -> (b: bool)
    requires
        at + needle@.len() <= hay@.len(),
    ensures
        b == (hay@.subrange(at as int, at + needle@.len()) == needle@),
{
    let hl = hay.len();
    let mut j: usize = 0;
    while j < needle.len()
        invariant
            hl == hay@.len(),
            at + needle@.len() <= hay@.len(),
            j <= needle@.len(),
            forall|k: int| 0 <= k < j ==> hay@[at + k] == needle@[k],
        decreases needle@.len() - j,
    {
        assert(at + j < hay@.len());
        if hay[at + j] != needle[j] {
            proof {
                let sub = hay@.subrange(at as int, at + needle@.len());
                assert(sub[j as int] != needle@[j as int]);
            }
            return false;
        }
        j = j + 1;
    }
    assert(hay@.subrange(at as int, at + needle@.len()) =~= needle@);
    true
}

/// Whether `needle` occurs in `hay` (the behaviour of `str::contains` with a string pattern).
pub fn contains_text(hay: &str, needle: &str) -> (b: bool)
    ensures
        b == is_substring(needle@, hay@),
{
    let h = chars_of(hay);
    let n = chars_of(needle);
    if n.len() > h.len() {
        return false;
    }
    if n.len() == 0 {
        assert(hay@.subrange(0int, 0int + needle@.len()) =~= needle@);
        return true;
    }
    let last = h.len() - n.len();
    let mut i: usize = 0;
    while i <= last
        invariant
            h@ == hay@,
            n@ == needle@,
            last == h@.len() - n@.len(),
            n@.len() > 0,
            h@.len() <= usize::MAX,
            i <= last + 1,
            forall|k: int| 0 <= k < i ==> #[trigger] h@.subrange(k, k + n@.len()) != n@,
        decreases last + 1 - i,
    {
        if matches_at(&h, &n, i) {
            return true;
        }
        i = i + 1;
    }
    false
}

/// Whether a record passes the optional filename filter: case-insensitive substring match.
pub open spec fn spec_filter_filename(filename: Seq<char>, filter: Option<Seq<char>>) -> bool {
    match filter {
        None => true,
        Some(f) => is_substring(lower_text(f), lower_text(filename)),
    }
}

/// Whether `rec` passes the filename filter: with no filter every record does; otherwise the
/// filter must occur in the record's filename, both lower-cased.
pub fn filter_filename(rec: &FileRecord, filter: &Option<String>) -> (b: bool)
    ensures
        b == spec_filter_filename(
            rec.filename@,
            match filter {
                Some(f) => Some(f@),
                None => None,
            },
        ),
{
    match filter {
        None => true,
        Some(f) => {
            let name = to_lower(rec.filename.as_str());
            let pat = to_lower(f.as_str());
            contains_text(name.as_str(), pat.as_str())
        },
    }
}

/// Which records a command works on.
#[derive(Debug, Clone, Copy, PartialEq, Eq, Structural)]
pub enum Selection {
    /// Records that carry a compressed diff (MODIFY records with a payload).
    Diffs,
    /// NEW records.
    NewFiles,
}

pub open spec fn spec_selected(sel: Selection, rec: FileRecordView, filter: Option<Seq<char>>) -> bool {
    &&& match sel {
        Selection::Diffs => rec.has_diff(),
        Selection::NewFiles => rec.rec_type == RecordType::New,
    }
    &&& spec_filter_filename(rec.filename, filter)
}

/// The indices, in order, of the first `n` records that `sel` and the filter admit.
pub open spec fn spec_select(records: Seq<FileRecordView>, sel: Selection, filter: Option<Seq<char>>, n: nat) -> Seq<usize>
    decreases n,
{
    if n == 0 {
        Seq::empty()
    } else {
        let rest = spec_select(records, sel, filter, (n - 1) as nat);
        if spec_selected(sel, records[n - 1], filter) {
            rest.push((n - 1) as usize)
        } else {
            rest
        }
    }
}

pub open spec fn opt_view(f: Option<String>) -> Option<Seq<char>> {
    match f {
        Some(s) => Some(s@),
        None => None,
    }
}

/// The indices of the records that `sel` admits and whose filename passes the filter.
pub fn select_records(records: &Vec<FileRecord>, sel: Selection, filter: &Option<String>) -> (v: Vec<usize>)
    ensures
        v@ == spec_select(records@.map_values(|r: FileRecord| r@), sel, opt_view(*filter), records@.len()),
{
    let ghost recs = records@.map_values(|r: FileRecord| r@);
    let mut v: Vec<usize> = Vec::new();
    let mut i: usize = 0;
    while i < records.len()
        invariant
            recs == records@.map_values(|r: FileRecord| r@),
            i <= records@.len(),
            v@ == spec_select(recs, sel, opt_view(*filter), i as nat),
        decreases records@.len() - i,
    {
        let rec = &records[i];
        assert(recs[i as int] == rec@);
        let kind_ok = match sel {
            Selection::Diffs => rec.has_diff(),
            Selection::NewFiles => rec.rec_type == RecordType::New,
        };
        let ok = kind_ok && filter_filename(rec, filter);
        proof {
            assert(opt_view(*filter) == match *filter {
                Some(f) => Some(f@),
                None => None::<Seq<char>>,
            });
        }
        if ok {
            v.push(i);
        }
        i = i + 1;
    }
    v
}

/// Whether a record type passes a `list` type filter, given lower-cased: "all" admits every
/// type, anything else must equal the lower-cased type name.
pub open spec fn spec_type_matches(t: RecordType, type_filter: Seq<char>) -> bool {
    type_filter == "all"@ || lower_text(spec_type_name(t)) == type_filter
}

fn same_text(a: &str, b: &str) -> (r: bool)
    ensures
        r == (a@ == b@),
{
    let x = chars_of(a);
    let y = chars_of(b);
    if x.len() != y.len() {
        return false;
    }
    if x.len() == 0 {
        assert(a@ =~= b@);
        return true;
    }
    let r = matches_at(&x, &y, 0);
    assert(x@.subrange(0, y@.len() as int) =~= x@);
    r
}

pub fn type_matches(t: RecordType, type_filter: &str) -> (b: bool)
    ensures
        b == spec_type_matches(t, type_filter@),
{
    if same_text(type_filter, "all") {
        return true;
    }
    let name = to_lower(t.as_str());
    same_text(name.as_str(), type_filter)
}

/// The filename with every backslash and slash replaced by an underscore.
pub open spec fn spec_safe_name(filename: Seq<char>) -> Seq<char> {
    filename.map_values(|c: char| if c == '\\' || c == '/' { '_' } else { c })
}

/// A filename made safe to use as a single path component.
pub fn safe_name(filename: &str) -> (s: String)
    ensures
        s@ == spec_safe_name(filename@),
{
    let cs = chars_of(filename);
    let mut out: Vec<char> = Vec::new();
    let mut i: usize = 0;
    while i < cs.len()
        invariant
            cs@ == filename@,
            i <= cs@.len(),
            out@ == spec_safe_name(cs@.subrange(0, i as int)),
        decreases cs@.len() - i,
    {
        let c = cs[i];
        let d = if c == '\\' || c == '/' { '_' } else { c };
        proof {
            assert(spec_safe_name(cs@.subrange(0, i + 1)) =~= spec_safe_name(cs@.subrange(0, i as int)).push(d));
        }
        out.push(d);
        i = i + 1;
    }
    assert(cs@.subrange(0, cs@.len() as int) =~= cs@);
    string_from_chars(&out)
}

/// The filename with each backslash replaced by `sep`.
pub open spec fn spec_relative_path(filename: Seq<char>, sep: char) -> Seq<char> {
    filename.map_values(|c: char| if c == '\\' { sep } else { c })
}

/// A record's filename as a relative path, its backslashes turned into `sep`.
pub fn relative_path(filename: &str, sep: char) -> (s: String)
    ensures
        s@ == spec_relative_path(filename@, sep),
{
    let cs = chars_of(filename);
    let mut out: Vec<char> = Vec::new();
    let mut i: usize = 0;
    while i < cs.len()
        invariant
            cs@ == filename@,
            i <= cs@.len(),
            out@ == spec_relative_path(cs@.subrange(0, i as int), sep),
        decreases cs@.len() - i,
    {
        let c = cs[i];
        let d = if c == '\\' { sep } else { c };
        proof {
            assert(spec_relative_path(cs@.subrange(0, i + 1), sep) =~= spec_relative_path(cs@.subrange(0, i as int), sep).push(d));
        }
        out.push(d);
        i = i + 1;
    }
    assert(cs@.subrange(0, cs@.len() as int) =~= cs@);
    string_from_chars(&out)
}

/// How applying one record ended.
#[derive(Debug, Clone, Copy, PartialEq, Eq, Structural)]
pub enum Outcome {
    Patched,
    Skipped,
    Failed,
}

/// A checksum mismatch skips the record; any other error fails it.
pub fn classify_error(e: &RtpError) -> (o: Outcome)
    ensures
        o == (if e is ChecksumMismatch { Outcome::Skipped } else { Outcome::Failed }),
{
    match e {
        RtpError::ChecksumMismatch { .. } => Outcome::Skipped,
        _ => Outcome::Failed,
    }
}

/// Counts of patched, skipped and failed records.
#[derive(Debug, Clone, Copy, PartialEq, Eq, Structural)]
pub struct Tally {
    pub patched: u64,
    pub skipped: u64,
    pub failed: u64,
}

impl Tally {
    pub fn new() -> (t: Self)
        ensures
            t == (Tally { patched: 0, skipped: 0, failed: 0 }),
    {
        Tally { patched: 0, skipped: 0, failed: 0 }
    }

    /// Counts one more outcome; the counts saturate at `u64::MAX`.
    pub fn record(&mut self, o: Outcome)
        ensures
            final(self).patched == (if o == Outcome::Patched { old(self).patched.saturating_add(1) } else { old(self).patched }),
            final(self).skipped == (if o == Outcome::Skipped { old(self).skipped.saturating_add(1) } else { old(self).skipped }),
            final(self).failed == (if o == Outcome::Failed { old(self).failed.saturating_add(1) } else { old(self).failed }),
    {
        match o {
            Outcome::Patched => self.patched = self.patched.saturating_add(1),
            Outcome::Skipped => self.skipped = self.skipped.saturating_add(1),
            Outcome::Failed => self.failed = self.failed.saturating_add(1),
        }
    }

    /// The run fails when any record failed.
    pub fn exit_code(&self) -> (c: i32)
        ensures
            c == (if self.failed > 0 { 1i32 } else { 0i32 }),
    {
        if self.failed > 0 {
            1
        } else {
            0
        }
    }
}

/// The position of a record type's name among the names in sorted order:
/// DELETE, EOF, MKDIR, MODIFY, NEW, RENAME, UNKNOWN.
pub open spec fn type_slot(t: RecordType) -> int {
    match t {
        RecordType::Delete => 0,
        RecordType::Eof => 1,
        RecordType::Mkdir => 2,
        RecordType::Modify => 3,
        RecordType::New => 4,
        RecordType::Rename => 5,
        RecordType::Unknown(_) => 6,
    }
}

/// The type name at a position of the sorted order.
pub open spec fn slot_name(k: int) -> Seq<char> {
    if k == 0 {
        "DELETE"@
    } else if k == 1 {
        "EOF"@
    } else if k == 2 {
        "MKDIR"@
    } else if k == 3 {
        "MODIFY"@
    } else if k == 4 {
        "NEW"@
    } else if k == 5 {
        "RENAME"@
    } else {
        "UNKNOWN"@
    }
}

/// Each type's name sits at its slot.
pub proof fn lemma_slot_names(t: RecordType)
    ensures
        0 <= type_slot(t) < 7,
        slot_name(type_slot(t)) == spec_type_name(t),
{
}

/// How many of the first `n` records have a type in slot `k`.
pub open spec fn slot_count(recs: Seq<FileRecordView>, k: int, n: nat) -> nat
    decreases n,
{
    if n == 0 {
        0
    } else {
        slot_count(recs, k, (n - 1) as nat) + if type_slot(recs[n - 1].rec_type) == k { 1nat } else { 0nat }
    }
}

/// The (name, count) pairs of the first `k` slots, in slot order, leaving out zero counts.
pub open spec fn counts_upto(recs: Seq<FileRecordView>, k: nat) -> Seq<(Seq<char>, nat)>
    decreases k,
{
    if k == 0 {
        Seq::empty()
    } else {
        let rest = counts_upto(recs, (k - 1) as nat);
        let c = slot_count(recs, k - 1, recs.len());
        if c > 0 {
            rest.push((slot_name(k - 1), c))
        } else {
            rest
        }
    }
}

fn slot_of(t: RecordType) -> (k: usize)
    ensures
        k == type_slot(t),
{
    match t {
        RecordType::Delete => 0,
        RecordType::Eof => 1,
        RecordType::Mkdir => 2,
        RecordType::Modify => 3,
        RecordType::New => 4,
        RecordType::Rename => 5,
        RecordType::Unknown(_) => 6,
    }
}

fn name_of_slot(k: usize) -> (s: &'static str)
    ensures
        s@ == slot_name(k as int),
{
    if k == 0 {
        "DELETE"
    } else if k == 1 {
        "EOF"
    } else if k == 2 {
        "MKDIR"
    } else if k == 3 {
        "MODIFY"
    } else if k == 4 {
        "NEW"
    } else if k == 5 {
        "RENAME"
    } else {
        "UNKNOWN"
    }
}

/// The number of records of each type name, for the names that occur, in sorted name order.
pub fn count_by_type(records: &Vec<FileRecord>) -> (r: Vec<(&'static str, usize)>)
    ensures
        ({
            let s = counts_upto(records@.map_values(|f: FileRecord| f@), 7);
            &&& r@.len() == s.len()
            &&& forall|i: int| 0 <= i < s.len() ==> (#[trigger] r@[i]).0@ == s[i].0 && r@[i].1 == s[i].1
        }),
{
    let ghost recs = records@.map_values(|f: FileRecord| f@);
    let mut counts: Vec<usize> = vec![0, 0, 0, 0, 0, 0, 0];
    let mut i: usize = 0;
    while i < records.len()
        invariant
            recs == records@.map_values(|f: FileRecord| f@),
            i <= records@.len(),
            counts@.len() == 7,
            forall|k: int| 0 <= k < 7 ==> #[trigger] counts@[k] == slot_count(recs, k, i as nat),
            forall|k: int| 0 <= k < 7 ==> #[trigger] slot_count(recs, k, i as nat) <= i,
        decreases records@.len() - i,
    {
        let k = slot_of(records[i].rec_type);
        assert(recs[i as int].rec_type == records@[i as int].rec_type);
        let ghost i0 = i as nat;
        let c = counts[k];
        counts.set(k, c + 1);
        i = i + 1;
        assert forall|j: int| 0 <= j < 7 implies #[trigger] slot_count(recs, j, i as nat) == slot_count(recs, j, i0)
            + (if j == k { 1nat } else { 0nat }) && slot_count(recs, j, i as nat) <= i by {
            assert(slot_count(recs, j, i0) <= i0);
        }
    }
    let mut out: Vec<(&'static str, usize)> = Vec::new();
    let mut k: usize = 0;
    while k < 7
        invariant
            recs == records@.map_values(|f: FileRecord| f@),
            records@.len() == recs.len(),
            k <= 7,
            counts@.len() == 7,
            forall|j: int| 0 <= j < 7 ==> #[trigger] counts@[j] == slot_count(recs, j, recs.len()),
            out@.len() == counts_upto(recs, k as nat).len(),
            forall|j: int| 0 <= j < out@.len() ==> (#[trigger] out@[j]).0@ == counts_upto(recs, k as nat)[j].0
                && out@[j].1 == counts_upto(recs, k as nat)[j].1,
        decreases 7 - k,
    {
        let c = counts[k];
        if c > 0 {
            out.push((name_of_slot(k), c));
        }
        k = k + 1;
    }
    out
}

/// The compressed diff of a record: the bytes of its payload range within the patch file.
pub fn diff_bytes<'a>(patch: &'a RtpPatch, rec: &FileRecord) -> (d: &'a [u8])
    requires
        rec.patch_data_offset + rec.patch_data_size <= patch.raw@.len(),
    ensures
        d@ == patch.raw@.subrange(rec.patch_data_offset as int, rec.patch_data_offset + rec.patch_data_size),
{
    let raw = patch.raw.as_slice();
    let _len = raw.len();
    &raw[rec.patch_data_offset..rec.patch_data_offset + rec.patch_data_size]
}

} // verus!
