//! Taking a snapshot and restoring it: from directories and files to the
//! text of an archive, and from the text of an archive to what is to be
//! created and written.

use vstd::prelude::*;
use vstd::string::*;
use vstd::utf8::{encode_scalar, encode_utf8};
use crate::archive::{
    ArchiveModel, FileModel, FileRecord, FormatIssue, ParsedArchive, file_views,
    issue_views, parse_archive, parse_text, path_views, push_file, serialize, size_mismatch_of,
    write_archive,
};
use crate::codec::{
    content_of, decode_payload, encode_payload, fits_encoded, is_base64_text, payload_of,
};
use crate::roundtrip::{
    all_lines, file_is_writable, is_line, lemma_base64_text_is_line, lemma_parse_serialize,
    with_true_length,
};
use crate::text::copy_span;
use crate::walk::{WalkEntry, is_record_path};

verus! {

/// A file to take into a snapshot.
#[derive(Debug)]
pub struct SourceFile {
    /// The relative path of the file.
    pub path: Vec<u8>,
    /// The bytes of the file.
    pub content: Vec<u8>,
}

/// A file as a value: its path and its bytes.
pub struct SourceModel {
    /// The relative path of the file.
    pub path: Seq<u8>,
    /// The bytes of the file.
    pub content: Seq<u8>,
}

impl View for SourceFile {
    type V = SourceModel;

    open spec fn view(&self) -> SourceModel {
        SourceModel { path: self.path@, content: self.content@ }
    }
}

/// The files of a vector of files, as values.
pub open spec fn source_views(sources: Seq<SourceFile>) -> Seq<SourceModel> {
    sources.map_values(|s: SourceFile| s@)
}

/// The record that stands for a file under `key`: its path, the payload of
/// its bytes, and the length of that payload as the declared length.
pub open spec fn encoded_file(source: SourceModel, key: Seq<u8>) -> FileModel {
    FileModel {
        path: source.path,
        declared_len: Some(payload_of(source.content, key).len() as u64),
        payload: payload_of(source.content, key),
    }
}

/// The records that stand for files under `key`.
pub open spec fn encoded_files(sources: Seq<SourceModel>, key: Seq<u8>) -> Seq<FileModel> {
    sources.map_values(|s: SourceModel| encoded_file(s, key))
}

/// Whether the record `file` gives the file `source` back under `key`: it has
/// the path of the file, its payload stands for the bytes of the file, and
/// its declared length is the length of its payload.
pub open spec fn gives_back(file: FileModel, key: Seq<u8>, source: SourceModel) -> bool {
    &&& file.path == source.path
    &&& content_of(file.payload, key) == Some(source.content)
    &&& !size_mismatch_of(file)
}

/// Whether `archive` holds exactly the directories `dirs` and records that
/// give the files `sources` back under `key`, in order and without issues.
pub open spec fn holds_exactly(
    archive: ArchiveModel,
    key: Seq<u8>,
    dirs: Seq<Seq<u8>>,
    sources: Seq<SourceModel>,
) -> bool {
    &&& archive.dirs == dirs
    &&& archive.issues.len() == 0
    &&& archive.files.len() == sources.len()
    &&& forall|i: int|
        0 <= i < sources.len() ==> gives_back(#[trigger] archive.files[i], key, sources[i])
}

/// Encodes one file as a record. The record declares the length of its
/// payload, and its payload gives the bytes of the file back under the same
/// key.
pub fn encode_file(source: &SourceFile, key: &[u8]) -> (record: FileRecord)
    requires
        key@.len() > 0,
        fits_encoded(source.content@.len()),
    ensures
        record@ == encoded_file(source@, key@),
        is_base64_text(record.payload@),
        gives_back(record@, key@, source@),
{
    let payload = encode_payload(source.content.as_slice(), key);
    let path = copy_span(source.path.as_slice(), 0, source.path.len());
    proof {
        assert(source.path@.subrange(0, source.path@.len() as int) =~= source.path@);
    }
    FileRecord { path, declared_len: Some(payload.len() as u64), payload }
}

/// Decodes the payload of a record into the bytes of the file. Fails exactly
/// when the payload is not base64 text; the declared length plays no part.
pub fn decode_file(record: &FileRecord, key: &[u8]) -> (content: Option<Vec<u8>>)
    requires
        key@.len() > 0,
    ensures
        match content {
            Some(bytes) => content_of(record.payload@, key@) == Some(bytes@),
            None => content_of(record.payload@, key@) is None,
        },
{
    match decode_payload(record.payload.as_slice(), key) {
        Ok(bytes) => Some(bytes),
        Err(_) => None,
    }
}

/// The separator `/` in ASCII.
pub const SEPARATOR: u8 = 0x2f;

/// Whether `path` can be the path of a record, as bytes: it is not empty and
/// does not begin with a separator.
pub open spec fn is_record_path_bytes(path: Seq<u8>) -> bool {
    path.len() > 0 && path[0] != SEPARATOR
}

/// The first byte of the encoding of a scalar value is the separator only
/// for the separator itself.
proof fn lemma_first_byte_of_scalar(v: u32)
    ensures
        encode_scalar(v).len() > 0,
        encode_scalar(v)[0] == SEPARATOR <==> v == 0x2f,
{
    assert(v <= 0x7f ==> ((v & 0x7f) as u8 == 0x2fu8 <==> v == 0x2f)) by (bit_vector);
    assert((0xc0u8 | ((v >> 6) & 0x1f) as u8) != 0x2fu8) by (bit_vector);
    assert((0xe0u8 | ((v >> 12) & 0x0f) as u8) != 0x2fu8) by (bit_vector);
    assert((0xf0u8 | ((v >> 18) & 0x7) as u8) != 0x2fu8) by (bit_vector);
}

/// A path that can be the path of a record is one as bytes too.
pub proof fn lemma_record_path_bytes(path: Seq<char>)
    requires
        is_record_path(path),
    ensures
        is_record_path_bytes(encode_utf8(path)),
{
    let c = path[0];
    let v = c as u32;
    lemma_first_byte_of_scalar(v);
    let first = encode_scalar(v);
    assert(encode_utf8(path) == first + encode_utf8(path.drop_first()));
    assert(encode_utf8(path)[0] == first[0]);
    if v == 0x2f {
        vstd::utf8::char_u32_cast(c, v);
        vstd::utf8::char_u32_cast('/', 0x2f);
    }
}

/// The paths of walk entries as the bytes that an archive holds: their UTF-8
/// encoding. Paths that can be the paths of records stay so.
pub fn entry_paths(entries: &Vec<WalkEntry>) -> (paths: Vec<Vec<u8>>)
    ensures
        paths@.len() == entries@.len(),
        forall|i: int| 0 <= i < entries@.len() ==> (#[trigger] paths@[i])@ == encode_utf8(entries@[i].path@),
        forall|i: int|
            0 <= i < entries@.len() && is_record_path(entries@[i].path@) ==> is_record_path_bytes(
                (#[trigger] paths@[i])@,
            ),
{
    let mut paths: Vec<Vec<u8>> = Vec::new();
    let mut i: usize = 0;
    while i < entries.len()
        invariant
            i <= entries@.len(),
            paths@.len() == i,
            forall|j: int| 0 <= j < i ==> (#[trigger] paths@[j])@ == encode_utf8(entries@[j].path@),
            forall|j: int|
                0 <= j < i && is_record_path(entries@[j].path@) ==> is_record_path_bytes(
                    (#[trigger] paths@[j])@,
                ),
        decreases entries@.len() - i,
    {
        proof {
            if is_record_path(entries@[i as int].path@) {
                lemma_record_path_bytes(entries@[i as int].path@);
            }
        }
        paths.push(entries[i].path.as_str().as_bytes_vec());
        i = i + 1;
    }
    paths
}

/// Makes the file to take into a snapshot of a walk entry and the bytes that
/// were read for it. The path is the UTF-8 encoding of the entry's path.
pub fn source_of(entry: &WalkEntry, content: Vec<u8>) -> (source: SourceFile)
    ensures
        source.path@ == encode_utf8(entry.path@),
        source.content@ == content@,
        is_record_path(entry.path@) ==> is_record_path_bytes(source.path@),
{
    proof {
        if is_record_path(entry.path@) {
            lemma_record_path_bytes(entry.path@);
        }
    }
    SourceFile { path: entry.path.as_str().as_bytes_vec(), content }
}

/// Takes a snapshot: encodes every file under `key` and writes the archive
/// with the directories first.
///
/// Where every path can stand as a line, reading the archive gives back the
/// same directories and, for every file, a record with its path whose payload
/// decodes to its bytes: restoring a snapshot reproduces what went into it.
pub fn snapshot(dirs: &Vec<Vec<u8>>, sources: &Vec<SourceFile>, key: &[u8]) -> (text: Vec<u8>)
    requires
        key@.len() > 0,
        forall|i: int| 0 <= i < sources@.len() ==> fits_encoded((#[trigger] sources@[i]).content@.len()),
    ensures
        text@ == serialize(path_views(dirs@), encoded_files(source_views(sources@), key@)),
        all_lines(path_views(dirs@)) && (forall|i: int|
            0 <= i < sources@.len() ==> is_line((#[trigger] sources@[i]).path@)) ==> holds_exactly(
            parse_text(text@),
            key@,
            path_views(dirs@),
            source_views(sources@),
        ),
{
    let ghost models = source_views(sources@);
    let ghost wanted = encoded_files(models, key@);
    let mut records: Vec<FileRecord> = Vec::new();
    let mut i: usize = 0;
    proof {
        assert(file_views(records@) =~= wanted.take(0));
    }
    while i < sources.len()
        invariant
            key@.len() > 0,
            forall|j: int| 0 <= j < sources@.len() ==> fits_encoded((#[trigger] sources@[j]).content@.len()),
            i <= sources@.len(),
            models == source_views(sources@),
            wanted == encoded_files(models, key@),
            file_views(records@) == wanted.take(i as int),
            forall|j: int|
                0 <= j < i ==> is_base64_text((#[trigger] wanted[j]).payload) && gives_back(
                    wanted[j],
                    key@,
                    models[j],
                ),
        decreases sources@.len() - i,
    {
        let record = encode_file(&sources[i], key);
        proof {
            assert(models[i as int] == sources@[i as int]@);
            assert(wanted[i as int] == encoded_file(models[i as int], key@));
            assert(wanted.take(i as int).push(wanted[i as int]) =~= wanted.take(i + 1));
        }
        push_file(&mut records, record);
        i = i + 1;
    }
    proof {
        assert(wanted.take(i as int) =~= wanted);
    }
    let text = write_archive(dirs, &records);
    proof {
        let paths = path_views(dirs@);
        if all_lines(paths) && (forall|i: int|
            0 <= i < sources@.len() ==> is_line((#[trigger] sources@[i]).path@)) {
            assert forall|j: int| 0 <= j < wanted.len() implies file_is_writable(#[trigger] wanted[j]) by {
                assert(wanted[j] == encoded_file(models[j], key@));
                assert(models[j].path == sources@[j].path@);
                assert(is_base64_text(wanted[j].payload));
                lemma_base64_text_is_line(wanted[j].payload);
                assert(wanted[j].payload == records@[j].payload@) by {
                    assert(file_views(records@)[j] == wanted[j]);
                }
            }
            lemma_parse_serialize(paths, wanted);
            let read = wanted.map_values(|f: FileModel| with_true_length(f));
            assert forall|j: int| 0 <= j < models.len() implies gives_back(
                #[trigger] read[j],
                key@,
                models[j],
            ) by {
                assert(gives_back(wanted[j], key@, models[j]));
                assert(wanted[j].payload == records@[j].payload@) by {
                    assert(file_views(records@)[j] == wanted[j]);
                }
            }
        }
    }
    text
}

/// What is to be done with a file record when an archive is restored.
#[derive(Debug)]
pub struct RestoredFile {
    /// The relative path to write to.
    pub path: Vec<u8>,
    /// The bytes to write, or nothing where the payload could not be decoded.
    pub content: Option<Vec<u8>>,
    /// Whether the declared length is missing or differs from the length of
    /// the payload. This is a warning only.
    pub size_mismatch: bool,
}

/// A restored file as a value.
pub struct RestoredModel {
    /// The relative path to write to.
    pub path: Seq<u8>,
    /// The bytes to write, if the payload could be decoded.
    pub content: Option<Seq<u8>>,
    /// Whether the declared length is missing or wrong.
    pub size_mismatch: bool,
}

impl View for RestoredFile {
    type V = RestoredModel;

    open spec fn view(&self) -> RestoredModel {
        RestoredModel {
            path: self.path@,
            content: match self.content {
                Some(bytes) => Some(bytes@),
                None => None,
            },
            size_mismatch: self.size_mismatch,
        }
    }
}

/// What a record is restored as under `key`.
pub open spec fn restored_file(file: FileModel, key: Seq<u8>) -> RestoredModel {
    RestoredModel {
        path: file.path,
        content: content_of(file.payload, key),
        size_mismatch: size_mismatch_of(file),
    }
}

/// What is to be done to restore an archive.
#[derive(Debug)]
pub struct Restored {
    /// The directories to create, in order, before any file is written.
    pub dirs: Vec<Vec<u8>>,
    /// The files to write, in order.
    pub files: Vec<RestoredFile>,
    /// The issues found while reading the archive.
    pub issues: Vec<FormatIssue>,
}

/// The restored files of a vector, as values.
pub open spec fn restored_views(files: Seq<RestoredFile>) -> Seq<RestoredModel> {
    files.map_values(|f: RestoredFile| f@)
}

/// Reads an archive and decodes every file record under `key`.
pub fn restore(text: &[u8], key: &[u8]) -> (restored: Restored)
    requires
        key@.len() > 0,
    ensures
        path_views(restored.dirs@) == parse_text(text@).dirs,
        issue_views(restored.issues@) == parse_text(text@).issues,
        restored_views(restored.files@) == parse_text(text@).files.map_values(
            |f: FileModel| restored_file(f, key@),
        ),
{
    let parsed = parse_archive(text);
    let ghost read = parse_text(text@).files;
    let ParsedArchive { dirs, files: records, issues } = parsed;
    let mut files: Vec<RestoredFile> = Vec::new();
    let mut i: usize = 0;
    while i < records.len()
        invariant
            key@.len() > 0,
            i <= records@.len(),
            file_views(records@) == read,
            files@.len() == i,
            forall|j: int| 0 <= j < i ==> (#[trigger] files@[j])@ == restored_file(read[j], key@),
        decreases records@.len() - i,
    {
        let record = &records[i];
        proof {
            assert(file_views(records@)[i as int] == record@);
        }
        let content = decode_file(record, key);
        let size_mismatch = record.size_mismatch();
        let path = copy_span(record.path.as_slice(), 0, record.path.len());
        proof {
            assert(record.path@.subrange(0, record.path@.len() as int) =~= record.path@);
        }
        files.push(RestoredFile { path, content, size_mismatch });
        i = i + 1;
    }
    proof {
        assert(restored_views(files@) =~= read.map_values(|f: FileModel| restored_file(f, key@)));
    }
    Restored { dirs, files, issues }
}

/// What a file is restored as when nothing went wrong: its path, its bytes,
/// and no warning.
pub open spec fn restored_intact(source: SourceModel) -> RestoredModel {
    RestoredModel { path: source.path, content: Some(source.content), size_mismatch: false }
}

/// Restoring an archive that holds exactly some directories and files gives
/// those directories and, for every file, its path and its bytes, without a
/// warning. Together with what `snapshot` ensures, restoring a snapshot
/// reproduces the directories and files that went into it, byte for byte.
pub proof fn lemma_restore_reproduces(
    archive: ArchiveModel,
    key: Seq<u8>,
    dirs: Seq<Seq<u8>>,
    sources: Seq<SourceModel>,
)
    requires
        holds_exactly(archive, key, dirs, sources),
    ensures
        archive.dirs == dirs,
        archive.issues.len() == 0,
        archive.files.map_values(|f: FileModel| restored_file(f, key)) == sources.map_values(
            |s: SourceModel| restored_intact(s),
        ),
{
    let restored = archive.files.map_values(|f: FileModel| restored_file(f, key));
    let intact = sources.map_values(|s: SourceModel| restored_intact(s));
    assert forall|i: int| 0 <= i < restored.len() implies restored[i] == intact[i] by {
        assert(gives_back(archive.files[i], key, sources[i]));
    }
    assert(restored =~= intact);
}

} // verus!
