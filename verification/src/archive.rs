//! The archive: a line-oriented text that holds one record for every empty
//! directory and one for every file.
//!
//! ```text
//! DIR: <relative/path>
//! END_OF_DIR
//! FILE: <relative/path>
//! SIZE: <length of the payload>
//! <payload, on one line>
//! END_OF_FILE
//! ```
//!
//! Paths and payloads are bytes. Directory records come before file records
//! when an archive is written; a reader takes them in any order.

use vstd::prelude::*;
use crate::decimal::{decimal, parse_decimal, push_decimal, read_decimal};
use crate::text::{
    copy_span, find_byte, first_index, has_prefix, span_equals, span_has_prefix, spans_cover,
};

verus! {

/// The line feed, which ends a line.
pub const LINE_FEED: u8 = 10;

/// The carriage return, which is dropped where it stands before a line feed.
pub const CARRIAGE_RETURN: u8 = 13;

/// The bytes of `FILE: `, which begin the header of a file record.
pub open spec fn file_tag() -> Seq<u8> {
    seq![0x46u8, 0x49u8, 0x4cu8, 0x45u8, 0x3au8, 0x20u8]
}

/// The bytes of `DIR: `, which begin the header of a directory record.
pub open spec fn dir_tag() -> Seq<u8> {
    seq![0x44u8, 0x49u8, 0x52u8, 0x3au8, 0x20u8]
}

/// The bytes of `SIZE: `, which begin the line that declares a length.
pub open spec fn size_tag() -> Seq<u8> {
    seq![0x53u8, 0x49u8, 0x5au8, 0x45u8, 0x3au8, 0x20u8]
}

/// The bytes of `END_OF_FILE`, the line that closes a file record.
pub open spec fn end_of_file() -> Seq<u8> {
    seq![0x45u8, 0x4eu8, 0x44u8, 0x5fu8, 0x4fu8, 0x46u8, 0x5fu8, 0x46u8, 0x49u8, 0x4cu8, 0x45u8]
}

/// The bytes of `END_OF_DIR`, the line that closes a directory record.
pub open spec fn end_of_dir() -> Seq<u8> {
    seq![0x45u8, 0x4eu8, 0x44u8, 0x5fu8, 0x4fu8, 0x46u8, 0x5fu8, 0x44u8, 0x49u8, 0x52u8]
}

/// A line without the carriage return at its end, if it has one.
pub open spec fn strip_return(line: Seq<u8>) -> Seq<u8> {
    if line.len() > 0 && line.last() == CARRIAGE_RETURN {
        line.drop_last()
    } else {
        line
    }
}

/// The lines of a text. A line ends at a line feed; a carriage return just
/// before the line feed is not part of the line. What follows the last line
/// feed is a line as it stands, unless it is empty.
pub open spec fn lines(text: Seq<u8>) -> Seq<Seq<u8>>
    decreases text.len(),
{
    if text.len() == 0 {
        seq![]
    } else {
        let k = first_index(text, LINE_FEED);
        if 0 <= k < text.len() {
            seq![strip_return(text.take(k))] + lines(text.skip(k + 1))
        } else {
            seq![text]
        }
    }
}

/// A file record as a value.
pub struct FileModel {
    /// The relative path of the file.
    pub path: Seq<u8>,
    /// The length that the archive declares for the payload, where it
    /// declares a number.
    pub declared_len: Option<u64>,
    /// The payload.
    pub payload: Seq<u8>,
}

/// Whether the declared length of a file record is missing or differs from
/// the length of its payload.
pub open spec fn size_mismatch_of(file: FileModel) -> bool {
    match file.declared_len {
        Some(n) => n != file.payload.len(),
        None => true,
    }
}

/// What is wrong with a record.
#[derive(Clone, Copy, Debug, PartialEq, Eq, Structural)]
pub enum IssueKind {
    /// The archive ends after the header of a directory record.
    DirectorySentinelMissing,
    /// The line after the header of a directory record is not the sentinel.
    DirectorySentinelMismatch,
    /// The archive ends before a file record is complete.
    FileRecordTruncated,
    /// The line after the header of a file record declares no length.
    FileSizeLineMissing,
    /// The line after the payload of a file record is not the sentinel.
    FileSentinelMismatch,
}

/// How a reader goes on after an issue.
#[derive(Clone, Copy, Debug, PartialEq, Eq, Structural)]
pub enum Severity {
    /// The record is kept and reading goes on with the next line.
    Recoverable,
    /// The record is dropped and nothing after it is read.
    Fatal,
}

/// How a reader goes on after an issue of kind `kind`: issues of directory
/// records are recoverable, issues of file records are fatal.
pub open spec fn severity_of(kind: IssueKind) -> Severity {
    match kind {
        IssueKind::DirectorySentinelMissing => Severity::Recoverable,
        IssueKind::DirectorySentinelMismatch => Severity::Recoverable,
        IssueKind::FileRecordTruncated => Severity::Fatal,
        IssueKind::FileSizeLineMissing => Severity::Fatal,
        IssueKind::FileSentinelMismatch => Severity::Fatal,
    }
}

impl IssueKind {
    /// Tells how a reader goes on after an issue of this kind.
    pub fn severity(self) -> (s: Severity)
        ensures
            s == severity_of(self),
    {
        match self {
            IssueKind::DirectorySentinelMissing => Severity::Recoverable,
            IssueKind::DirectorySentinelMismatch => Severity::Recoverable,
            IssueKind::FileRecordTruncated => Severity::Fatal,
            IssueKind::FileSizeLineMissing => Severity::Fatal,
            IssueKind::FileSentinelMismatch => Severity::Fatal,
        }
    }
}

/// An issue as a value: its kind, and the path of the record it is about.
pub struct IssueModel {
    /// What is wrong.
    pub kind: IssueKind,
    /// The path of the record that the issue is about.
    pub path: Seq<u8>,
}

/// What an archive holds, as a value.
#[verifier::ext_equal]
pub struct ArchiveModel {
    /// The paths of the directory records, in order.
    pub dirs: Seq<Seq<u8>>,
    /// The file records, in order.
    pub files: Seq<FileModel>,
    /// The issues found, in order.
    pub issues: Seq<IssueModel>,
}

impl ArchiveModel {
    /// The archive that holds nothing.
    pub open spec fn empty() -> ArchiveModel {
        ArchiveModel { dirs: seq![], files: seq![], issues: seq![] }
    }

    /// The archive that holds one directory record.
    pub open spec fn directory(path: Seq<u8>) -> ArchiveModel {
        ArchiveModel { dirs: seq![path], files: seq![], issues: seq![] }
    }

    /// The archive that holds one file record.
    pub open spec fn file(file: FileModel) -> ArchiveModel {
        ArchiveModel { dirs: seq![], files: seq![file], issues: seq![] }
    }

    /// The archive that holds one issue.
    pub open spec fn issue(kind: IssueKind, path: Seq<u8>) -> ArchiveModel {
        ArchiveModel { dirs: seq![], files: seq![], issues: seq![IssueModel { kind, path }] }
    }

    /// What `self` holds, followed by what `rest` holds.
    pub open spec fn followed_by(self, rest: ArchiveModel) -> ArchiveModel {
        ArchiveModel {
            dirs: self.dirs + rest.dirs,
            files: self.files + rest.files,
            issues: self.issues + rest.issues,
        }
    }
}

/// What the lines of an archive hold.
///
/// A line that begins with `FILE: ` opens a file record of four lines: the
/// header, a line that begins with `SIZE: `, the payload, and the sentinel
/// `END_OF_FILE`. A file record that is cut short, lacks its size line or is
/// not closed by its sentinel is an issue, and nothing after it is read. What
/// follows `SIZE: ` only declares a length: it is kept where it is a number
/// and is never used to find the payload.
///
/// A line that begins with `DIR: ` opens a directory record of two lines: the
/// header and the sentinel `END_OF_DIR`. The directory is kept even where the
/// second line is missing or is something else, which is an issue; the second
/// line is passed over either way.
///
/// Any other line is passed over.
pub open spec fn parse_lines(lines: Seq<Seq<u8>>) -> ArchiveModel
    decreases lines.len(),
{
    if lines.len() == 0 {
        ArchiveModel::empty()
    } else if has_prefix(lines[0], file_tag()) {
        let path = lines[0].skip(file_tag().len() as int);
        if lines.len() < 4 {
            ArchiveModel::issue(IssueKind::FileRecordTruncated, path)
        } else if !has_prefix(lines[1], size_tag()) {
            ArchiveModel::issue(IssueKind::FileSizeLineMissing, path)
        } else if lines[3] != end_of_file() {
            ArchiveModel::issue(IssueKind::FileSentinelMismatch, path)
        } else {
            ArchiveModel::file(
                FileModel {
                    path,
                    declared_len: parse_decimal(lines[1].skip(size_tag().len() as int)),
                    payload: lines[2],
                },
            ).followed_by(parse_lines(lines.skip(4)))
        }
    } else if has_prefix(lines[0], dir_tag()) {
        let path = lines[0].skip(dir_tag().len() as int);
        if lines.len() < 2 {
            ArchiveModel::directory(path).followed_by(
                ArchiveModel::issue(IssueKind::DirectorySentinelMissing, path),
            )
        } else if lines[1] != end_of_dir() {
            ArchiveModel::directory(path).followed_by(
                ArchiveModel::issue(IssueKind::DirectorySentinelMismatch, path),
            ).followed_by(parse_lines(lines.skip(2)))
        } else {
            ArchiveModel::directory(path).followed_by(parse_lines(lines.skip(2)))
        }
    } else {
        parse_lines(lines.skip(1))
    }
}

/// What the text of an archive holds.
pub open spec fn parse_text(text: Seq<u8>) -> ArchiveModel {
    parse_lines(lines(text))
}

/// A file record.
#[derive(Debug)]
pub struct FileRecord {
    /// The relative path of the file.
    pub path: Vec<u8>,
    /// The length that the archive declares for the payload, where it
    /// declares a number.
    pub declared_len: Option<u64>,
    /// The payload.
    pub payload: Vec<u8>,
}

impl View for FileRecord {
    type V = FileModel;

    open spec fn view(&self) -> FileModel {
        FileModel { path: self.path@, declared_len: self.declared_len, payload: self.payload@ }
    }
}

impl FileRecord {
    /// Tells whether the declared length is missing or differs from the
    /// length of the payload.
    pub fn size_mismatch(&self) -> (r: bool)
        ensures
            r == size_mismatch_of(self@),
    {
        match self.declared_len {
            Some(n) => self.payload.len() as u64 != n,
            None => true,
        }
    }
}

/// An issue found while reading an archive.
#[derive(Debug)]
pub struct FormatIssue {
    /// What is wrong.
    pub kind: IssueKind,
    /// The path of the record that the issue is about.
    pub path: Vec<u8>,
}

impl View for FormatIssue {
    type V = IssueModel;

    open spec fn view(&self) -> IssueModel {
        IssueModel { kind: self.kind, path: self.path@ }
    }
}

/// What was read from an archive.
#[derive(Debug)]
pub struct ParsedArchive {
    /// The paths of the directory records, in order.
    pub dirs: Vec<Vec<u8>>,
    /// The file records, in order.
    pub files: Vec<FileRecord>,
    /// The issues found, in order.
    pub issues: Vec<FormatIssue>,
}

/// The paths of a vector of paths, as values.
pub open spec fn path_views(paths: Seq<Vec<u8>>) -> Seq<Seq<u8>> {
    paths.map_values(|p: Vec<u8>| p@)
}

/// The records of a vector of file records, as values.
pub open spec fn file_views(files: Seq<FileRecord>) -> Seq<FileModel> {
    files.map_values(|f: FileRecord| f@)
}

/// The issues of a vector of issues, as values.
pub open spec fn issue_views(issues: Seq<FormatIssue>) -> Seq<IssueModel> {
    issues.map_values(|i: FormatIssue| i@)
}

impl View for ParsedArchive {
    type V = ArchiveModel;

    open spec fn view(&self) -> ArchiveModel {
        ArchiveModel {
            dirs: path_views(self.dirs@),
            files: file_views(self.files@),
            issues: issue_views(self.issues@),
        }
    }
}

/// What three vectors of records and issues hold, as a value.
pub open spec fn model_of(dirs: Seq<Vec<u8>>, files: Seq<FileRecord>, issues: Seq<FormatIssue>) -> ArchiveModel {
    ArchiveModel { dirs: path_views(dirs), files: file_views(files), issues: issue_views(issues) }
}

/// The bytes of `FILE: `.
fn file_tag_bytes() -> (tag: Vec<u8>)
    ensures
        tag@ == file_tag(),
{
    let tag: Vec<u8> = vec![0x46u8, 0x49u8, 0x4cu8, 0x45u8, 0x3au8, 0x20u8];
    assert(tag@ =~= file_tag());
    tag
}

/// The bytes of `DIR: `.
fn dir_tag_bytes() -> (tag: Vec<u8>)
    ensures
        tag@ == dir_tag(),
{
    let tag: Vec<u8> = vec![0x44u8, 0x49u8, 0x52u8, 0x3au8, 0x20u8];
    assert(tag@ =~= dir_tag());
    tag
}

/// The bytes of `SIZE: `.
fn size_tag_bytes() -> (tag: Vec<u8>)
    ensures
        tag@ == size_tag(),
{
    let tag: Vec<u8> = vec![0x53u8, 0x49u8, 0x5au8, 0x45u8, 0x3au8, 0x20u8];
    assert(tag@ =~= size_tag());
    tag
}

/// The bytes of `END_OF_FILE`.
fn end_of_file_bytes() -> (word: Vec<u8>)
    ensures
        word@ == end_of_file(),
{
    let word: Vec<u8> = vec![
        0x45u8, 0x4eu8, 0x44u8, 0x5fu8, 0x4fu8, 0x46u8, 0x5fu8, 0x46u8, 0x49u8, 0x4cu8, 0x45u8,
    ];
    assert(word@ =~= end_of_file());
    word
}

/// The bytes of `END_OF_DIR`.
fn end_of_dir_bytes() -> (word: Vec<u8>)
    ensures
        word@ == end_of_dir(),
{
    let word: Vec<u8> = vec![
        0x45u8, 0x4eu8, 0x44u8, 0x5fu8, 0x4fu8, 0x46u8, 0x5fu8, 0x44u8, 0x49u8, 0x52u8,
    ];
    assert(word@ =~= end_of_dir());
    word
}

/// Finds the bounds of the lines of a text.
pub fn line_spans(bytes: &[u8]) -> (spans: Vec<(usize, usize)>)
    ensures
        spans_cover(bytes@, spans@, lines(bytes@)),
{
    let n: usize = bytes.len();
    let mut spans: Vec<(usize, usize)> = Vec::new();
    let ghost mut done: Seq<Seq<u8>> = Seq::empty();
    let mut pos: usize = 0;
    proof {
        assert(bytes@.skip(0) =~= bytes@);
    }
    while pos < n
        invariant
            n == bytes@.len(),
            pos <= n,
            spans_cover(bytes@, spans@, done),
            done + lines(bytes@.skip(pos as int)) == lines(bytes@),
        decreases n - pos,
    {
        let ghost rest = bytes@.skip(pos as int);
        let end: usize = find_byte(bytes, pos, n, LINE_FEED);
        proof {
            assert(rest =~= bytes@.subrange(pos as int, n as int));
            assert(rest.take(end - pos) =~= bytes@.subrange(pos as int, end as int));
        }
        if end == n {
            spans.push((pos, n));
            proof {
                done = done.push(rest);
                assert(bytes@.skip(n as int) =~= Seq::<u8>::empty());
                assert(done + lines(bytes@.skip(n as int)) =~= lines(bytes@));
            }
            pos = n;
        } else {
            let stop: usize = if end > pos && bytes[end - 1] == CARRIAGE_RETURN {
                end - 1
            } else {
                end
            };
            spans.push((pos, stop));
            proof {
                let line = bytes@.subrange(pos as int, end as int);
                if end > pos {
                    assert(line.last() == bytes@[end - 1]);
                    assert(line.drop_last() =~= bytes@.subrange(pos as int, end - 1));
                }
                assert(strip_return(line) == bytes@.subrange(pos as int, stop as int));
                assert(rest.skip(end - pos + 1) =~= bytes@.skip(end + 1));
                let before = done;
                done = done.push(strip_return(line));
                assert(done + lines(bytes@.skip(end + 1)) =~= before + lines(rest));
            }
            pos = end + 1;
        }
    }
    proof {
        assert(bytes@.skip(n as int) =~= Seq::<u8>::empty());
        assert(done =~= lines(bytes@));
    }
    spans
}

/// Appends a directory record.
fn push_directory(dirs: &mut Vec<Vec<u8>>, path: Vec<u8>)
    ensures
        path_views(final(dirs)@) == path_views(old(dirs)@).push(path@),
{
    dirs.push(path);
    assert(path_views(dirs@) =~= path_views(old(dirs)@).push(path@));
}

/// Appends a file record.
pub(crate) fn push_file(files: &mut Vec<FileRecord>, file: FileRecord)
    ensures
        file_views(final(files)@) == file_views(old(files)@).push(file@),
{
    files.push(file);
    assert(file_views(files@) =~= file_views(old(files)@).push(file@));
}

/// Appends an issue.
fn push_issue(issues: &mut Vec<FormatIssue>, kind: IssueKind, path: Vec<u8>)
    ensures
        issue_views(final(issues)@) == issue_views(old(issues)@).push(IssueModel { kind, path: path@ }),
{
    issues.push(FormatIssue { kind, path });
    assert(issue_views(issues@) =~= issue_views(old(issues)@).push(IssueModel { kind, path: path@ }));
}

/// Reads an archive: its directory records, its file records, and the
/// issues found on the way.
pub fn parse_archive(bytes: &[u8]) -> (parsed: ParsedArchive)
    ensures
        parsed@ == parse_text(bytes@),
{
    let spans = line_spans(bytes);
    let ghost all = lines(bytes@);
    let count: usize = spans.len();
    let file_tag_word = file_tag_bytes();
    let dir_tag_word = dir_tag_bytes();
    let size_tag_word = size_tag_bytes();
    let end_of_file_word = end_of_file_bytes();
    let end_of_dir_word = end_of_dir_bytes();
    let mut dirs: Vec<Vec<u8>> = Vec::new();
    let mut files: Vec<FileRecord> = Vec::new();
    let mut issues: Vec<FormatIssue> = Vec::new();
    let mut pos: usize = 0;
    proof {
        assert(all.skip(0) =~= all);
        assert(model_of(dirs@, files@, issues@).followed_by(parse_lines(all)) =~= parse_lines(all));
    }
    while pos < count
        invariant_except_break
            model_of(dirs@, files@, issues@).followed_by(parse_lines(all.skip(pos as int)))
                == parse_lines(all),
        invariant
            all == lines(bytes@),
            spans_cover(bytes@, spans@, all),
            count == spans@.len(),
            pos <= count,
            file_tag_word@ == file_tag(),
            dir_tag_word@ == dir_tag(),
            size_tag_word@ == size_tag(),
            end_of_file_word@ == end_of_file(),
            end_of_dir_word@ == end_of_dir(),
        ensures
            model_of(dirs@, files@, issues@) == parse_lines(all),
        decreases count - pos,
    {
        let ghost rest = all.skip(pos as int);
        let ghost before = model_of(dirs@, files@, issues@);
        let (a, b) = spans[pos];
        proof {
            assert(rest[0] == all[pos as int]);
        }
        if span_has_prefix(bytes, a, b, file_tag_word.as_slice()) {
            let path = copy_span(bytes, a + file_tag_word.len(), b);
            proof {
                assert(path@ =~= rest[0].skip(6));
            }
            if count - pos < 4 {
                push_issue(&mut issues, IssueKind::FileRecordTruncated, path);
                proof {
                    assert(model_of(dirs@, files@, issues@) =~= before.followed_by(parse_lines(rest)));
                }
                break ;
            }
            let (a1, b1) = spans[pos + 1];
            let (a2, b2) = spans[pos + 2];
            let (a3, b3) = spans[pos + 3];
            proof {
                assert(rest[1] == all[pos + 1]);
                assert(rest[2] == all[pos + 2]);
                assert(rest[3] == all[pos + 3]);
            }
            if !span_has_prefix(bytes, a1, b1, size_tag_word.as_slice()) {
                push_issue(&mut issues, IssueKind::FileSizeLineMissing, path);
                proof {
                    assert(model_of(dirs@, files@, issues@) =~= before.followed_by(parse_lines(rest)));
                }
                break ;
            }
            if !span_equals(bytes, a3, b3, end_of_file_word.as_slice()) {
                push_issue(&mut issues, IssueKind::FileSentinelMismatch, path);
                proof {
                    assert(model_of(dirs@, files@, issues@) =~= before.followed_by(parse_lines(rest)));
                }
                break ;
            }
            let declared_len = read_decimal(bytes, a1 + size_tag_word.len(), b1);
            let payload = copy_span(bytes, a2, b2);
            proof {
                assert(bytes@.subrange(a1 + 6, b1 as int) =~= rest[1].skip(6));
            }
            push_file(&mut files, FileRecord { path, declared_len, payload });
            proof {
                assert(rest.skip(4) =~= all.skip(pos + 4));
                assert(model_of(dirs@, files@, issues@).followed_by(parse_lines(all.skip(pos + 4)))
                    =~= before.followed_by(parse_lines(rest)));
            }
            pos = pos + 4;
        } else if span_has_prefix(bytes, a, b, dir_tag_word.as_slice()) {
            let path = copy_span(bytes, a + dir_tag_word.len(), b);
            proof {
                assert(path@ =~= rest[0].skip(5));
            }
            if count - pos < 2 {
                let again = copy_span(bytes, a + dir_tag_word.len(), b);
                push_directory(&mut dirs, path);
                push_issue(&mut issues, IssueKind::DirectorySentinelMissing, again);
                proof {
                    assert(model_of(dirs@, files@, issues@) =~= before.followed_by(parse_lines(rest)));
                }
                break ;
            }
            let (a1, b1) = spans[pos + 1];
            proof {
                assert(rest[1] == all[pos + 1]);
                assert(rest.skip(2) =~= all.skip(pos + 2));
            }
            if !span_equals(bytes, a1, b1, end_of_dir_word.as_slice()) {
                let again = copy_span(bytes, a + dir_tag_word.len(), b);
                push_issue(&mut issues, IssueKind::DirectorySentinelMismatch, again);
            }
            push_directory(&mut dirs, path);
            proof {
                assert(model_of(dirs@, files@, issues@).followed_by(parse_lines(all.skip(pos + 2)))
                    =~= before.followed_by(parse_lines(rest)));
            }
            pos = pos + 2;
        } else {
            proof {
                assert(rest.skip(1) =~= all.skip(pos + 1));
            }
            pos = pos + 1;
        }
    }
    proof {
        if pos >= count {
            assert(all.skip(pos as int) =~= Seq::<Seq<u8>>::empty());
            assert(model_of(dirs@, files@, issues@) =~= model_of(dirs@, files@, issues@).followed_by(
                parse_lines(all.skip(pos as int)),
            ));
        }
    }
    ParsedArchive { dirs, files, issues }
}

/// The text of a file record: its path, the text that declares the length of
/// its payload, and its payload.
pub struct FileBlock {
    /// The relative path of the file.
    pub path: Seq<u8>,
    /// What follows `SIZE: ` on the second line.
    pub size_text: Seq<u8>,
    /// The payload.
    pub payload: Seq<u8>,
}

/// The two lines of a directory record.
pub open spec fn directory_block(path: Seq<u8>) -> Seq<u8> {
    dir_tag() + path + seq![LINE_FEED] + end_of_dir() + seq![LINE_FEED]
}

/// The four lines of a file record.
pub open spec fn file_block(block: FileBlock) -> Seq<u8> {
    file_tag() + block.path + seq![LINE_FEED] + size_tag() + block.size_text + seq![LINE_FEED]
        + block.payload + seq![LINE_FEED] + end_of_file() + seq![LINE_FEED]
}

/// The records of the directories `dirs`, one after another.
pub open spec fn directories_text(dirs: Seq<Seq<u8>>) -> Seq<u8>
    decreases dirs.len(),
{
    if dirs.len() == 0 {
        seq![]
    } else {
        directory_block(dirs[0]) + directories_text(dirs.skip(1))
    }
}

/// The records of the files `blocks`, one after another.
pub open spec fn files_text(blocks: Seq<FileBlock>) -> Seq<u8>
    decreases blocks.len(),
{
    if blocks.len() == 0 {
        seq![]
    } else {
        file_block(blocks[0]) + files_text(blocks.skip(1))
    }
}

/// The text of an archive: the directory records, then the file records.
pub open spec fn archive_text(dirs: Seq<Seq<u8>>, blocks: Seq<FileBlock>) -> Seq<u8> {
    directories_text(dirs) + files_text(blocks)
}

/// The text that a file record is written as: the declared length is the
/// length of the payload, in decimal.
pub open spec fn written_block(file: FileModel) -> FileBlock {
    FileBlock { path: file.path, size_text: decimal(file.payload.len()), payload: file.payload }
}

/// The texts that file records are written as.
pub open spec fn written_blocks(files: Seq<FileModel>) -> Seq<FileBlock> {
    files.map_values(|f: FileModel| written_block(f))
}

/// The text of the archive that holds the directories `dirs` and the files
/// `files`.
pub open spec fn serialize(dirs: Seq<Seq<u8>>, files: Seq<FileModel>) -> Seq<u8> {
    archive_text(dirs, written_blocks(files))
}

/// Appends `bytes` to `out`.
pub fn push_bytes(out: &mut Vec<u8>, bytes: &[u8])
    ensures
        final(out)@ == old(out)@ + bytes@,
{
    let mut i: usize = 0;
    while i < bytes.len()
        invariant
            i <= bytes@.len(),
            out@ == old(out)@ + bytes@.take(i as int),
        decreases bytes@.len() - i,
    {
        out.push(bytes[i]);
        proof {
            assert(out@ =~= old(out)@ + bytes@.take(i + 1));
        }
        i = i + 1;
    }
    proof {
        assert(bytes@.take(bytes@.len() as int) =~= bytes@);
    }
}

/// Appends the record of the directory `path` to `out`.
fn push_directory_block(out: &mut Vec<u8>, path: &[u8])
    ensures
        final(out)@ == old(out)@ + directory_block(path@),
{
    let tag = dir_tag_bytes();
    let sentinel = end_of_dir_bytes();
    push_bytes(out, tag.as_slice());
    push_bytes(out, path);
    out.push(LINE_FEED);
    push_bytes(out, sentinel.as_slice());
    out.push(LINE_FEED);
    proof {
        assert(out@ =~= old(out)@ + directory_block(path@));
    }
}

/// Appends the record of the file `file` to `out`.
fn push_file_block(out: &mut Vec<u8>, file: &FileRecord)
    ensures
        final(out)@ == old(out)@ + file_block(written_block(file@)),
{
    let tag = file_tag_bytes();
    let size = size_tag_bytes();
    let sentinel = end_of_file_bytes();
    push_bytes(out, tag.as_slice());
    push_bytes(out, file.path.as_slice());
    out.push(LINE_FEED);
    push_bytes(out, size.as_slice());
    push_decimal(out, file.payload.len() as u64);
    out.push(LINE_FEED);
    push_bytes(out, file.payload.as_slice());
    out.push(LINE_FEED);
    push_bytes(out, sentinel.as_slice());
    out.push(LINE_FEED);
    proof {
        assert(out@ =~= old(out)@ + file_block(written_block(file@)));
    }
}

/// Writes an archive: a record for each directory, then a record for each
/// file. Each file record declares the length of its payload.
pub fn write_archive(dirs: &Vec<Vec<u8>>, files: &Vec<FileRecord>) -> (text: Vec<u8>)
    ensures
        text@ == serialize(path_views(dirs@), file_views(files@)),
{
    let ghost paths = path_views(dirs@);
    let ghost blocks = written_blocks(file_views(files@));
    let mut text: Vec<u8> = Vec::new();
    let mut i: usize = 0;
    proof {
        assert(paths.skip(0) =~= paths);
        assert(text@ + directories_text(paths) =~= directories_text(paths));
    }
    while i < dirs.len()
        invariant
            i <= dirs@.len(),
            paths == path_views(dirs@),
            text@ + directories_text(paths.skip(i as int)) == directories_text(paths),
        decreases dirs@.len() - i,
    {
        let ghost before = text@;
        push_directory_block(&mut text, dirs[i].as_slice());
        proof {
            let rest = paths.skip(i as int);
            assert(rest[0] == dirs@[i as int]@);
            assert(rest.skip(1) =~= paths.skip(i + 1));
            assert(text@ + directories_text(paths.skip(i + 1)) =~= before + directories_text(rest));
        }
        i = i + 1;
    }
    proof {
        assert(paths.skip(i as int) =~= Seq::<Seq<u8>>::empty());
        assert(text@ =~= directories_text(paths));
        assert(blocks.skip(0) =~= blocks);
        assert(text@ + files_text(blocks) =~= archive_text(paths, blocks));
    }
    let mut k: usize = 0;
    while k < files.len()
        invariant
            k <= files@.len(),
            paths == path_views(dirs@),
            blocks == written_blocks(file_views(files@)),
            text@ + files_text(blocks.skip(k as int)) == archive_text(paths, blocks),
        decreases files@.len() - k,
    {
        let ghost before = text@;
        push_file_block(&mut text, &files[k]);
        proof {
            let rest = blocks.skip(k as int);
            assert(rest[0] == written_block(files@[k as int]@));
            assert(rest.skip(1) =~= blocks.skip(k + 1));
            assert(text@ + files_text(blocks.skip(k + 1)) =~= before + files_text(rest));
        }
        k = k + 1;
    }
    proof {
        assert(blocks.skip(k as int) =~= Seq::<FileBlock>::empty());
        assert(text@ =~= archive_text(paths, blocks));
    }
    text
}

} // verus!
