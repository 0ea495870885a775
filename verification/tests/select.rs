use rtptool::select::{
    classify_error, contains_text, count_by_type, diff_bytes, filter_filename, relative_path, safe_name,
    select_records, type_matches, Outcome, Selection, Tally,
};
use rtptool::{EntryDescriptor, FileRecord, RecordType, RtpError, RtpHeader, RtpPatch};

fn record(t: RecordType, name: &str, diff: usize) -> FileRecord {
    FileRecord {
        rec_type: t,
        rec_flags: 0,
        filename: name.to_string(),
        src_path: None,
        dst_path: None,
        file_mod_flags: 0,
        new_file_size: 10,
        patch_data_offset: 1,
        patch_data_size: diff,
        src_count: 1,
        src_entries: vec![EntryDescriptor { file_size: 10, crc32: 0 }],
        dst_entries: Vec::new(),
    }
}

#[test]
fn substring_search() {
    assert!(contains_text("renderer.dll", "der"));
    assert!(contains_text("abc", ""));
    assert!(contains_text("", ""));
    assert!(contains_text("abc", "abc"));
    assert!(!contains_text("abc", "abcd"));
    assert!(!contains_text("abc", "bd"));
    assert!(contains_text("aaab", "aab"));
}

#[test]
fn filename_filter_ignores_case() {
    let r = record(RecordType::Modify, "Data\\App.EXE", 5);
    assert!(filter_filename(&r, &None));
    assert!(filter_filename(&r, &Some("app.exe".to_string())));
    assert!(filter_filename(&r, &Some("DATA".to_string())));
    assert!(!filter_filename(&r, &Some("game".to_string())));
}

#[test]
fn selecting_diffs_and_new_files() {
    let recs = vec![
        record(RecordType::Modify, "app.exe", 5),
        record(RecordType::New, "readme.txt", 0),
        record(RecordType::Modify, "empty.dat", 0),
        record(RecordType::Modify, "engine.dll", 7),
        record(RecordType::New, "extra.dll", 0),
    ];
    assert_eq!(select_records(&recs, Selection::Diffs, &None), vec![0, 3]);
    assert_eq!(select_records(&recs, Selection::Diffs, &Some("DLL".to_string())), vec![3]);
    assert_eq!(select_records(&recs, Selection::NewFiles, &None), vec![1, 4]);
    assert_eq!(select_records(&recs, Selection::NewFiles, &Some("read".to_string())), vec![1]);
    assert_eq!(select_records(&Vec::new(), Selection::Diffs, &None), Vec::<usize>::new());
}

#[test]
fn list_type_filter() {
    assert!(type_matches(RecordType::Modify, "all"));
    assert!(type_matches(RecordType::Modify, "modify"));
    assert!(!type_matches(RecordType::Modify, "new"));
    assert!(type_matches(RecordType::Mkdir, "mkdir"));
    assert!(type_matches(RecordType::Unknown(9), "unknown"));
    assert!(!type_matches(RecordType::New, "NEW"));
}

#[test]
fn safe_names_and_relative_paths() {
    assert_eq!(safe_name("dir\\sub/a.txt"), "dir_sub_a.txt");
    assert_eq!(safe_name("plain"), "plain");
    assert_eq!(relative_path("dir\\sub\\a.txt", '/'), "dir/sub/a.txt");
    assert_eq!(relative_path("a/b", '\\'), "a/b");
}

#[test]
fn counts_come_in_name_order() {
    let recs = vec![
        record(RecordType::New, "a", 0),
        record(RecordType::Modify, "b", 1),
        record(RecordType::Modify, "c", 1),
        record(RecordType::Delete, "d", 0),
        record(RecordType::Unknown(8), "e", 0),
        record(RecordType::Unknown(9), "f", 0),
    ];
    assert_eq!(count_by_type(&recs), vec![("DELETE", 1), ("MODIFY", 2), ("NEW", 1), ("UNKNOWN", 2)]);
    assert_eq!(count_by_type(&Vec::new()), Vec::<(&str, usize)>::new());
}

#[test]
fn diff_bytes_are_the_payload_range() {
    let p = RtpPatch {
        header: RtpHeader {
            version: 0x0209,
            flags: 0,
            ext_type_flags: 0,
            option_flags: 0,
            patch_total_size: 0,
            default_attrs: 0,
            cmd_flags: 0,
            combine_mode_id: None,
            extra_mode: false,
        },
        dirs: Vec::new(),
        records: Vec::new(),
        raw: vec![10, 11, 12, 13, 14],
    };
    let r = record(RecordType::Modify, "x", 3);
    assert_eq!(diff_bytes(&p, &r), &[11, 12, 13]);
}

#[test]
fn outcomes_and_tally() {
    let mismatch = RtpError::ChecksumMismatch { filename: "a".to_string(), expected: 1, actual: 2 };
    let other = RtpError::ApplyError { filename: "a".to_string(), detail: "x".to_string() };
    assert_eq!(classify_error(&mismatch), Outcome::Skipped);
    assert_eq!(classify_error(&other), Outcome::Failed);
    let mut t = Tally::new();
    assert_eq!(t.exit_code(), 0);
    t.record(Outcome::Patched);
    t.record(Outcome::Patched);
    t.record(Outcome::Skipped);
    assert_eq!((t.patched, t.skipped, t.failed), (2, 1, 0));
    assert_eq!(t.exit_code(), 0);
    t.record(Outcome::Failed);
    assert_eq!(t.exit_code(), 1);
}
