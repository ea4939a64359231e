use tdmcli::archive::{
    line_spans, parse_archive, write_archive, FileRecord, IssueKind, ParsedArchive, Severity,
};

fn record(path: &str, payload: &str) -> FileRecord {
    FileRecord {
        path: path.as_bytes().to_vec(),
        declared_len: Some(payload.len() as u64),
        payload: payload.as_bytes().to_vec(),
    }
}

fn dirs_of(parsed: &ParsedArchive) -> Vec<String> {
    parsed.dirs.iter().map(|d| String::from_utf8(d.clone()).unwrap()).collect()
}

fn files_of(parsed: &ParsedArchive) -> Vec<(String, Option<u64>, String)> {
    parsed
        .files
        .iter()
        .map(|f| {
            (
                String::from_utf8(f.path.clone()).unwrap(),
                f.declared_len,
                String::from_utf8(f.payload.clone()).unwrap(),
            )
        })
        .collect()
}

fn issues_of(parsed: &ParsedArchive) -> Vec<(IssueKind, String)> {
    parsed.issues.iter().map(|i| (i.kind, String::from_utf8(i.path.clone()).unwrap())).collect()
}

fn lines_of(text: &str) -> Vec<String> {
    line_spans(text.as_bytes()).iter().map(|&(a, b)| text[a..b].to_string()).collect()
}

#[test]
fn archive_is_written_with_directories_first() {
    let dirs = vec![b"logs".to_vec(), b"a/b".to_vec()];
    let files = vec![record("a.txt", "HA0="), record("sub/b.bin", "")];
    let text = write_archive(&dirs, &files);
    assert_eq!(
        String::from_utf8(text).unwrap(),
        "DIR: logs\nEND_OF_DIR\nDIR: a/b\nEND_OF_DIR\n\
         FILE: a.txt\nSIZE: 4\nHA0=\nEND_OF_FILE\n\
         FILE: sub/b.bin\nSIZE: 0\n\nEND_OF_FILE\n"
    );
}

#[test]
fn empty_archive_is_empty_text() {
    assert_eq!(write_archive(&Vec::new(), &Vec::new()), Vec::<u8>::new());
    let parsed = parse_archive(b"");
    assert!(parsed.dirs.is_empty());
    assert!(parsed.files.is_empty());
    assert!(parsed.issues.is_empty());
}

#[test]
fn written_size_is_the_length_of_the_payload() {
    let mut file = record("f", "0123456789ab");
    file.declared_len = Some(3);
    let text = write_archive(&Vec::new(), &vec![file]);
    assert_eq!(String::from_utf8(text).unwrap(), "FILE: f\nSIZE: 12\n0123456789ab\nEND_OF_FILE\n");
}

#[test]
fn well_formed_archive_is_read_back() {
    let text = "DIR: logs\nEND_OF_DIR\nFILE: a.txt\nSIZE: 4\nHA0=\nEND_OF_FILE\n";
    let parsed = parse_archive(text.as_bytes());
    assert_eq!(dirs_of(&parsed), vec!["logs"]);
    assert_eq!(files_of(&parsed), vec![("a.txt".to_string(), Some(4), "HA0=".to_string())]);
    assert!(parsed.issues.is_empty());
    assert!(!parsed.files[0].size_mismatch());
}

#[test]
fn written_archive_is_read_back() {
    let dirs = vec![b"empty".to_vec(), b"deep/er".to_vec()];
    let files = vec![record("x", "QUJD"), record("y/z", ""), record("w", "AA==")];
    let parsed = parse_archive(&write_archive(&dirs, &files));
    assert_eq!(parsed.dirs, dirs);
    assert!(parsed.issues.is_empty());
    assert_eq!(parsed.files.len(), 3);
    for (read, written) in parsed.files.iter().zip(files.iter()) {
        assert_eq!(read.path, written.path);
        assert_eq!(read.payload, written.payload);
        assert_eq!(read.declared_len, Some(written.payload.len() as u64));
    }
}

#[test]
fn records_are_read_in_any_order() {
    let text = "FILE: a\nSIZE: 0\n\nEND_OF_FILE\nDIR: d\nEND_OF_DIR\nFILE: b\nSIZE: 1\nx\nEND_OF_FILE\n";
    let parsed = parse_archive(text.as_bytes());
    assert_eq!(dirs_of(&parsed), vec!["d"]);
    assert_eq!(
        files_of(&parsed),
        vec![("a".to_string(), Some(0), String::new()), ("b".to_string(), Some(1), "x".to_string())]
    );
    assert!(parsed.issues.is_empty());
}

#[test]
fn last_record_needs_no_line_feed() {
    let parsed = parse_archive(b"DIR: d\nEND_OF_DIR");
    assert_eq!(dirs_of(&parsed), vec!["d"]);
    assert!(parsed.issues.is_empty());
    let parsed = parse_archive(b"FILE: f\nSIZE: 1\nx\nEND_OF_FILE");
    assert_eq!(files_of(&parsed), vec![("f".to_string(), Some(1), "x".to_string())]);
    assert!(parsed.issues.is_empty());
}

#[test]
fn carriage_returns_before_line_feeds_are_dropped() {
    let text = "DIR: d\r\nEND_OF_DIR\r\nFILE: f\r\nSIZE: 4\r\nQUJD\r\nEND_OF_FILE\r\n";
    let parsed = parse_archive(text.as_bytes());
    assert_eq!(dirs_of(&parsed), vec!["d"]);
    assert_eq!(files_of(&parsed), vec![("f".to_string(), Some(4), "QUJD".to_string())]);
    assert!(parsed.issues.is_empty());
}

#[test]
fn lines_follow_line_feeds() {
    assert_eq!(lines_of(""), Vec::<String>::new());
    assert_eq!(lines_of("a"), vec!["a"]);
    assert_eq!(lines_of("a\n"), vec!["a"]);
    assert_eq!(lines_of("a\nb"), vec!["a", "b"]);
    assert_eq!(lines_of("a\n\nb\n"), vec!["a", "", "b"]);
    assert_eq!(lines_of("\n"), vec![""]);
    assert_eq!(lines_of("a\r\nb\r\n"), vec!["a", "b"]);
    assert_eq!(lines_of("a\r"), vec!["a\r"]);
    assert_eq!(lines_of("a\r\r\n"), vec!["a\r"]);
    assert_eq!(lines_of("\r\n"), vec![""]);
}

#[test]
fn other_lines_are_passed_over() {
    let text = "# made by hand\n\nDIR: d\nEND_OF_DIR\nnoise\nEND_OF_FILE\nFILE: f\nSIZE: 0\n\nEND_OF_FILE\ntrailer\n";
    let parsed = parse_archive(text.as_bytes());
    assert_eq!(dirs_of(&parsed), vec!["d"]);
    assert_eq!(files_of(&parsed), vec![("f".to_string(), Some(0), String::new())]);
    assert!(parsed.issues.is_empty());
}

#[test]
fn tags_need_their_space() {
    let parsed = parse_archive(b"DIR:d\nEND_OF_DIR\nFILE:f\nSIZE: 0\n\nEND_OF_FILE\n");
    assert!(parsed.dirs.is_empty());
    assert!(parsed.files.is_empty());
    assert!(parsed.issues.is_empty());
}

#[test]
fn directory_with_wrong_sentinel_is_kept_and_reported() {
    let text = "DIR: one\nEND_OF_FILE\nDIR: two\nEND_OF_DIR\n";
    let parsed = parse_archive(text.as_bytes());
    assert_eq!(dirs_of(&parsed), vec!["one", "two"]);
    assert_eq!(issues_of(&parsed), vec![(IssueKind::DirectorySentinelMismatch, "one".to_string())]);
}

#[test]
fn line_after_a_directory_header_is_passed_over() {
    // The line that should have been the sentinel is not read as a header.
    let text = "DIR: one\nDIR: two\nEND_OF_DIR\nDIR: three\nEND_OF_DIR\n";
    let parsed = parse_archive(text.as_bytes());
    assert_eq!(dirs_of(&parsed), vec!["one", "three"]);
    assert_eq!(issues_of(&parsed), vec![(IssueKind::DirectorySentinelMismatch, "one".to_string())]);
}

#[test]
fn directory_without_sentinel_at_the_end_is_kept_and_reported() {
    let parsed = parse_archive(b"DIR: one\nEND_OF_DIR\nDIR: last\n");
    assert_eq!(dirs_of(&parsed), vec!["one", "last"]);
    assert_eq!(issues_of(&parsed), vec![(IssueKind::DirectorySentinelMissing, "last".to_string())]);
}

#[test]
fn file_cut_short_is_dropped_and_reported() {
    for text in ["FILE: f\n", "FILE: f\nSIZE: 4\n", "FILE: f\nSIZE: 4\nQUJD\n", "FILE: f"] {
        let parsed = parse_archive(text.as_bytes());
        assert!(parsed.files.is_empty());
        assert_eq!(issues_of(&parsed), vec![(IssueKind::FileRecordTruncated, "f".to_string())]);
    }
}

#[test]
fn file_without_size_line_is_dropped_and_reported() {
    let text = "FILE: f\nQUJD\nEND_OF_FILE\nDIR: d\nEND_OF_DIR\n";
    let parsed = parse_archive(text.as_bytes());
    assert!(parsed.files.is_empty());
    assert!(parsed.dirs.is_empty());
    assert_eq!(issues_of(&parsed), vec![(IssueKind::FileSizeLineMissing, "f".to_string())]);
}

#[test]
fn file_with_wrong_sentinel_is_dropped_and_reported() {
    let text = "FILE: f\nSIZE: 4\nQUJD\nEND_OF_DIR\n";
    let parsed = parse_archive(text.as_bytes());
    assert!(parsed.files.is_empty());
    assert_eq!(issues_of(&parsed), vec![(IssueKind::FileSentinelMismatch, "f".to_string())]);
}

#[test]
fn nothing_is_read_after_a_broken_file_record() {
    let text = "DIR: before\nEND_OF_DIR\nFILE: good\nSIZE: 1\nx\nEND_OF_FILE\n\
                FILE: bad\nSIZE: 1\nx\nOOPS\n\
                DIR: after\nEND_OF_DIR\nFILE: later\nSIZE: 1\ny\nEND_OF_FILE\n";
    let parsed = parse_archive(text.as_bytes());
    assert_eq!(dirs_of(&parsed), vec!["before"]);
    assert_eq!(files_of(&parsed), vec![("good".to_string(), Some(1), "x".to_string())]);
    assert_eq!(issues_of(&parsed), vec![(IssueKind::FileSentinelMismatch, "bad".to_string())]);
}

#[test]
fn reading_goes_on_after_a_broken_directory_record() {
    let text = "DIR: bad\nOOPS\nFILE: f\nSIZE: 1\nx\nEND_OF_FILE\n";
    let parsed = parse_archive(text.as_bytes());
    assert_eq!(dirs_of(&parsed), vec!["bad"]);
    assert_eq!(files_of(&parsed), vec![("f".to_string(), Some(1), "x".to_string())]);
    assert_eq!(issues_of(&parsed), vec![(IssueKind::DirectorySentinelMismatch, "bad".to_string())]);
}

#[test]
fn issues_of_directories_are_recoverable_and_issues_of_files_fatal() {
    assert_eq!(IssueKind::DirectorySentinelMissing.severity(), Severity::Recoverable);
    assert_eq!(IssueKind::DirectorySentinelMismatch.severity(), Severity::Recoverable);
    assert_eq!(IssueKind::FileRecordTruncated.severity(), Severity::Fatal);
    assert_eq!(IssueKind::FileSizeLineMissing.severity(), Severity::Fatal);
    assert_eq!(IssueKind::FileSentinelMismatch.severity(), Severity::Fatal);
}

#[test]
fn wrong_declared_size_does_not_change_what_is_read() {
    let honest = parse_archive(b"FILE: f\nSIZE: 4\nQUJD\nEND_OF_FILE\n");
    for size in ["0", "3", "5", "400", "", "four", "-4", "4 ", " 4", "4.0", "99999999999999999999999"] {
        let text = format!("FILE: f\nSIZE: {}\nQUJD\nEND_OF_FILE\n", size);
        let parsed = parse_archive(text.as_bytes());
        assert!(parsed.issues.is_empty());
        assert_eq!(parsed.files.len(), 1);
        assert_eq!(parsed.files[0].path, honest.files[0].path);
        assert_eq!(parsed.files[0].payload, honest.files[0].payload);
        assert!(parsed.files[0].size_mismatch());
    }
    assert!(!honest.files[0].size_mismatch());
}

#[test]
fn declared_size_is_read_as_a_number() {
    let declared = |size: &str| {
        let text = format!("FILE: f\nSIZE: {}\nQUJD\nEND_OF_FILE\n", size);
        parse_archive(text.as_bytes()).files[0].declared_len
    };
    assert_eq!(declared("4"), Some(4));
    assert_eq!(declared("004"), Some(4));
    assert_eq!(declared("+4"), Some(4));
    assert_eq!(declared("18446744073709551615"), Some(u64::MAX));
    assert_eq!(declared("18446744073709551616"), None);
    assert_eq!(declared(""), None);
    assert_eq!(declared("+"), None);
    assert_eq!(declared("++4"), None);
    assert_eq!(declared("4+"), None);
    assert_eq!(declared("x"), None);
}

#[test]
fn paths_are_taken_as_they_stand() {
    let text = "DIR:  two spaces \nEND_OF_DIR\nDIR: \nEND_OF_DIR\nFILE: FILE: x\nSIZE: 0\n\nEND_OF_FILE\n";
    let parsed = parse_archive(text.as_bytes());
    assert_eq!(dirs_of(&parsed), vec![" two spaces ", ""]);
    assert_eq!(files_of(&parsed), vec![("FILE: x".to_string(), Some(0), String::new())]);
}

#[test]
fn path_with_a_line_feed_is_not_read_back() {
    let files = vec![record("a\nb", "QUJD")];
    let parsed = parse_archive(&write_archive(&Vec::new(), &files));
    assert!(parsed.files.is_empty());
    assert_eq!(issues_of(&parsed), vec![(IssueKind::FileSizeLineMissing, "a".to_string())]);
}
