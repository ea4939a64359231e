//! Laws of the archive format: what is written is read back, the length that
//! a file record declares has no part in what is read, and nothing is read
//! after a fatal issue.

use vstd::prelude::*;
use crate::archive::{
    ArchiveModel, CARRIAGE_RETURN, FileBlock, FileModel, IssueModel, LINE_FEED, Severity, archive_text, dir_tag,
    directories_text, directory_block, end_of_dir, end_of_file, file_block, file_tag, files_text,
    lines, parse_lines, parse_text, serialize, severity_of, size_tag, strip_return,
    written_block, written_blocks,
};
use crate::codec::{is_base64_symbol, is_base64_text};
use crate::decimal::{decimal, is_digit, lemma_decimal, lemma_parse_decimal, parse_decimal};
use crate::text::{has_prefix, lemma_first_index_unique};

verus! {

/// Whether `s` can stand as one line of a text and be read back as it is: it
/// holds no line feed and does not end in a carriage return.
pub open spec fn is_line(s: Seq<u8>) -> bool {
    !s.contains(LINE_FEED) && (s.len() == 0 || s.last() != CARRIAGE_RETURN)
}

/// Whether every path of `paths` can stand as one line.
pub open spec fn all_lines(paths: Seq<Seq<u8>>) -> bool {
    forall|i: int| 0 <= i < paths.len() ==> is_line(#[trigger] paths[i])
}

/// Whether the three parts of a file record can each stand as one line.
pub open spec fn block_is_readable(block: FileBlock) -> bool {
    is_line(block.path) && is_line(block.size_text) && is_line(block.payload)
}

/// Whether the parts of every file record of `blocks` can stand as lines.
pub open spec fn all_readable(blocks: Seq<FileBlock>) -> bool {
    forall|i: int| 0 <= i < blocks.len() ==> block_is_readable(#[trigger] blocks[i])
}

/// The file record that is read from the text of `block`.
pub open spec fn read_block(block: FileBlock) -> FileModel {
    FileModel {
        path: block.path,
        declared_len: parse_decimal(block.size_text),
        payload: block.payload,
    }
}

/// The file records that are read from the texts `blocks`.
pub open spec fn read_blocks(blocks: Seq<FileBlock>) -> Seq<FileModel> {
    blocks.map_values(|b: FileBlock| read_block(b))
}

/// A file record with the length of its payload as its declared length.
pub open spec fn with_true_length(file: FileModel) -> FileModel {
    FileModel { path: file.path, declared_len: Some(file.payload.len() as u64), payload: file.payload }
}

/// Whether a file record can be written and read back: its path and its
/// payload can stand as lines, and the length of its payload fits 64 bits.
pub open spec fn file_is_writable(file: FileModel) -> bool {
    is_line(file.path) && is_line(file.payload) && file.payload.len() <= u64::MAX
}

/// A line that is followed by a line feed is read as the first line.
proof fn lemma_first_line(line: Seq<u8>, rest: Seq<u8>)
    requires
        is_line(line),
    ensures
        lines(line + seq![LINE_FEED] + rest) == seq![line] + lines(rest),
{
    let text = line + seq![LINE_FEED] + rest;
    let k = line.len() as int;
    assert forall|j: int| 0 <= j < k implies text[j] != LINE_FEED by {
        assert(text[j] == line[j]);
        if line[j] == LINE_FEED {
            assert(line.contains(LINE_FEED));
        }
    }
    assert(text[k] == LINE_FEED);
    lemma_first_index_unique(text, LINE_FEED, k);
    assert(text.take(k) =~= line);
    assert(text.skip(k + 1) =~= rest);
    assert(strip_return(line) == line);
}

/// A tag followed by a line is a line.
proof fn lemma_tagged_line(tag: Seq<u8>, line: Seq<u8>)
    requires
        is_line(tag),
        is_line(line),
        tag.len() > 0,
    ensures
        is_line(tag + line),
        has_prefix(tag + line, tag),
        (tag + line).skip(tag.len() as int) == line,
{
    let whole = tag + line;
    if whole.contains(LINE_FEED) {
        let i = choose|i: int| 0 <= i < whole.len() && whole[i] == LINE_FEED;
        if i < tag.len() {
            assert(tag[i] == LINE_FEED);
            assert(tag.contains(LINE_FEED));
        } else {
            assert(line[i - tag.len()] == LINE_FEED);
            assert(line.contains(LINE_FEED));
        }
    }
    if line.len() > 0 {
        assert(whole.last() == line.last());
    } else {
        assert(whole.last() == tag.last());
    }
    assert(whole.take(tag.len() as int) =~= tag);
    assert(whole.skip(tag.len() as int) =~= line);
}

/// The tags and the sentinels are lines.
proof fn lemma_words_are_lines()
    ensures
        is_line(file_tag()),
        is_line(dir_tag()),
        is_line(size_tag()),
        is_line(end_of_file()),
        is_line(end_of_dir()),
{
    assert forall|word: Seq<u8>|
        (word == file_tag() || word == dir_tag() || word == size_tag() || word == end_of_file()
            || word == end_of_dir()) implies is_line(word) by {
        if word.contains(LINE_FEED) {
            let i = choose|i: int| 0 <= i < word.len() && word[i] == LINE_FEED;
            assert(word[i] == LINE_FEED);
        }
    }
}

/// The record of a directory is read as its two lines.
proof fn lemma_directory_lines(path: Seq<u8>, rest: Seq<u8>)
    requires
        is_line(path),
    ensures
        lines(directory_block(path) + rest) == seq![dir_tag() + path, end_of_dir()] + lines(rest),
{
    lemma_words_are_lines();
    lemma_tagged_line(dir_tag(), path);
    let tail = end_of_dir() + seq![LINE_FEED] + rest;
    assert(directory_block(path) + rest =~= (dir_tag() + path) + seq![LINE_FEED] + tail);
    lemma_first_line(dir_tag() + path, tail);
    lemma_first_line(end_of_dir(), rest);
    assert(seq![dir_tag() + path] + (seq![end_of_dir()] + lines(rest)) =~= seq![
        dir_tag() + path,
        end_of_dir(),
    ] + lines(rest));
}

/// The record of a file is read as its four lines.
proof fn lemma_file_lines(block: FileBlock, rest: Seq<u8>)
    requires
        block_is_readable(block),
    ensures
        lines(file_block(block) + rest) == seq![
            file_tag() + block.path,
            size_tag() + block.size_text,
            block.payload,
            end_of_file(),
        ] + lines(rest),
{
    lemma_words_are_lines();
    lemma_tagged_line(file_tag(), block.path);
    lemma_tagged_line(size_tag(), block.size_text);
    let tail3 = end_of_file() + seq![LINE_FEED] + rest;
    let tail2 = block.payload + seq![LINE_FEED] + tail3;
    let tail1 = (size_tag() + block.size_text) + seq![LINE_FEED] + tail2;
    assert(file_block(block) + rest =~= (file_tag() + block.path) + seq![LINE_FEED] + tail1);
    lemma_first_line(file_tag() + block.path, tail1);
    lemma_first_line(size_tag() + block.size_text, tail2);
    lemma_first_line(block.payload, tail3);
    lemma_first_line(end_of_file(), rest);
    assert(seq![file_tag() + block.path] + (seq![size_tag() + block.size_text] + (seq![
        block.payload,
    ] + (seq![end_of_file()] + lines(rest)))) =~= seq![
        file_tag() + block.path,
        size_tag() + block.size_text,
        block.payload,
        end_of_file(),
    ] + lines(rest));
}

/// The two lines of a directory record are read as the directory.
proof fn lemma_parse_directory(path: Seq<u8>, rest: Seq<Seq<u8>>)
    requires
        is_line(path),
    ensures
        parse_lines(seq![dir_tag() + path, end_of_dir()] + rest) == ArchiveModel::directory(
            path,
        ).followed_by(parse_lines(rest)),
{
    lemma_words_are_lines();
    lemma_tagged_line(dir_tag(), path);
    let all = seq![dir_tag() + path, end_of_dir()] + rest;
    let header = dir_tag() + path;
    assert(all[0] == header);
    assert(all[1] == end_of_dir());
    assert(all.skip(2) =~= rest);
    assert(!has_prefix(header, file_tag())) by {
        if has_prefix(header, file_tag()) {
            assert(header.take(6)[0] == file_tag()[0]);
            assert(header[0] == dir_tag()[0]);
        }
    }
}

/// The four lines of a file record are read as the file.
proof fn lemma_parse_file(block: FileBlock, rest: Seq<Seq<u8>>)
    requires
        block_is_readable(block),
    ensures
        parse_lines(
            seq![
                file_tag() + block.path,
                size_tag() + block.size_text,
                block.payload,
                end_of_file(),
            ] + rest,
        ) == ArchiveModel::file(read_block(block)).followed_by(parse_lines(rest)),
{
    lemma_words_are_lines();
    lemma_tagged_line(file_tag(), block.path);
    lemma_tagged_line(size_tag(), block.size_text);
    let all = seq![
        file_tag() + block.path,
        size_tag() + block.size_text,
        block.payload,
        end_of_file(),
    ] + rest;
    assert(all[0] == file_tag() + block.path);
    assert(all[1] == size_tag() + block.size_text);
    assert(all[2] == block.payload);
    assert(all[3] == end_of_file());
    assert(all.skip(4) =~= rest);
}

/// The records of files are read as the files, without issues.
proof fn lemma_read_files(blocks: Seq<FileBlock>)
    requires
        all_readable(blocks),
    ensures
        parse_text(files_text(blocks)) == (ArchiveModel {
            dirs: seq![],
            files: read_blocks(blocks),
            issues: seq![],
        }),
    decreases blocks.len(),
{
    if blocks.len() == 0 {
        assert(parse_text(files_text(blocks)) =~= ArchiveModel {
            dirs: seq![],
            files: read_blocks(blocks),
            issues: seq![],
        });
    } else {
        let rest = blocks.skip(1);
        assert forall|i: int| 0 <= i < rest.len() implies block_is_readable(#[trigger] rest[i]) by {
            assert(rest[i] == blocks[i + 1]);
        }
        lemma_read_files(rest);
        lemma_file_lines(blocks[0], files_text(rest));
        lemma_parse_file(blocks[0], lines(files_text(rest)));
        assert(read_blocks(blocks) =~= seq![read_block(blocks[0])] + read_blocks(rest));
        assert(parse_text(files_text(blocks)) =~= ArchiveModel {
            dirs: seq![],
            files: read_blocks(blocks),
            issues: seq![],
        });
    }
}

/// The records of directories are read as the directories, and reading goes
/// on with what follows them.
proof fn lemma_read_directories(dirs: Seq<Seq<u8>>, tail: Seq<u8>)
    requires
        all_lines(dirs),
    ensures
        parse_text(directories_text(dirs) + tail) == (ArchiveModel {
            dirs,
            files: seq![],
            issues: seq![],
        }).followed_by(parse_text(tail)),
    decreases dirs.len(),
{
    let target = (ArchiveModel { dirs, files: seq![], issues: seq![] }).followed_by(parse_text(tail));
    if dirs.len() == 0 {
        assert(directories_text(dirs) + tail =~= tail);
        assert(parse_text(directories_text(dirs) + tail) =~= target);
    } else {
        let rest = dirs.skip(1);
        assert forall|i: int| 0 <= i < rest.len() implies is_line(#[trigger] rest[i]) by {
            assert(rest[i] == dirs[i + 1]);
        }
        lemma_read_directories(rest, tail);
        let after = directories_text(rest) + tail;
        assert(directories_text(dirs) + tail =~= directory_block(dirs[0]) + after);
        lemma_directory_lines(dirs[0], after);
        lemma_parse_directory(dirs[0], lines(after));
        assert(dirs =~= seq![dirs[0]] + rest);
        assert(parse_text(directories_text(dirs) + tail) =~= target);
    }
}

/// What is written into an archive is what is read from it: the directories
/// in their order, the files in their order with their paths and payloads,
/// and no issue. This holds whatever text declares the lengths.
pub proof fn lemma_read_archive_text(dirs: Seq<Seq<u8>>, blocks: Seq<FileBlock>)
    requires
        all_lines(dirs),
        all_readable(blocks),
    ensures
        parse_text(archive_text(dirs, blocks)) == (ArchiveModel {
            dirs,
            files: read_blocks(blocks),
            issues: seq![],
        }),
{
    lemma_read_directories(dirs, files_text(blocks));
    lemma_read_files(blocks);
    assert(parse_text(archive_text(dirs, blocks)) =~= ArchiveModel {
        dirs,
        files: read_blocks(blocks),
        issues: seq![],
    });
}

/// The decimal text of a number can stand as one line.
proof fn lemma_decimal_is_line(n: nat)
    ensures
        is_line(decimal(n)),
{
    lemma_decimal(n);
    let s = decimal(n);
    if s.contains(LINE_FEED) {
        let i = choose|i: int| 0 <= i < s.len() && s[i] == LINE_FEED;
        assert(is_digit(s[i]));
    }
    assert(is_digit(s[s.len() - 1]));
}

/// Base64 text can stand as one line.
pub proof fn lemma_base64_text_is_line(text: Seq<u8>)
    requires
        is_base64_text(text),
    ensures
        is_line(text),
{
    if text.contains(LINE_FEED) {
        let i = choose|i: int| 0 <= i < text.len() && text[i] == LINE_FEED;
        assert(is_base64_symbol(text[i]));
    }
    if text.len() > 0 {
        assert(is_base64_symbol(text[text.len() - 1]));
    }
}

/// Writing an archive and reading it gives back the directories and the
/// files, each file with the length of its payload as its declared length,
/// and no issue. Paths and payloads must be able to stand as lines: a path
/// that holds a line feed, or ends in a carriage return, is not read back.
pub proof fn lemma_parse_serialize(dirs: Seq<Seq<u8>>, files: Seq<FileModel>)
    requires
        all_lines(dirs),
        forall|i: int| 0 <= i < files.len() ==> file_is_writable(#[trigger] files[i]),
    ensures
        parse_text(serialize(dirs, files)) == (ArchiveModel {
            dirs,
            files: files.map_values(|f: FileModel| with_true_length(f)),
            issues: seq![],
        }),
{
    let blocks = written_blocks(files);
    assert forall|i: int| 0 <= i < blocks.len() implies block_is_readable(#[trigger] blocks[i]) by {
        assert(blocks[i] == written_block(files[i]));
        assert(file_is_writable(files[i]));
        lemma_decimal_is_line(files[i].payload.len());
    }
    lemma_read_archive_text(dirs, blocks);
    assert forall|i: int| 0 <= i < blocks.len() implies read_blocks(blocks)[i] == with_true_length(
        files[i],
    ) by {
        assert(blocks[i] == written_block(files[i]));
        assert(file_is_writable(files[i]));
        lemma_parse_decimal(files[i].payload.len() as u64);
    }
    assert(read_blocks(blocks) =~= files.map_values(|f: FileModel| with_true_length(f)));
}

/// The declared length is not authoritative: two archives that differ only
/// in the text that declares the lengths are read as the same directories and
/// as files with the same paths and payloads, and neither has an issue.
pub proof fn lemma_declared_length_is_advisory(
    dirs: Seq<Seq<u8>>,
    blocks: Seq<FileBlock>,
    others: Seq<FileBlock>,
)
    requires
        all_lines(dirs),
        all_readable(blocks),
        all_readable(others),
        blocks.len() == others.len(),
        forall|i: int|
            0 <= i < blocks.len() ==> (#[trigger] blocks[i]).path == others[i].path && blocks[i].payload
                == others[i].payload,
    ensures
        parse_text(archive_text(dirs, blocks)).dirs == parse_text(archive_text(dirs, others)).dirs,
        parse_text(archive_text(dirs, blocks)).issues == Seq::<IssueModel>::empty(),
        parse_text(archive_text(dirs, others)).issues == Seq::<IssueModel>::empty(),
        parse_text(archive_text(dirs, blocks)).files.len() == blocks.len(),
        parse_text(archive_text(dirs, others)).files.len() == blocks.len(),
        forall|i: int|
            0 <= i < blocks.len() ==> {
                &&& (#[trigger] parse_text(archive_text(dirs, blocks)).files[i]).path == parse_text(
                    archive_text(dirs, others),
                ).files[i].path
                &&& parse_text(archive_text(dirs, blocks)).files[i].payload == parse_text(
                    archive_text(dirs, others),
                ).files[i].payload
            },
{
    lemma_read_archive_text(dirs, blocks);
    lemma_read_archive_text(dirs, others);
}

/// Whether every issue but the last is recoverable.
pub open spec fn only_last_may_be_fatal(issues: Seq<IssueModel>) -> bool {
    forall|i: int|
        0 <= i < issues.len() - 1 ==> severity_of((#[trigger] issues[i]).kind) == Severity::Recoverable
}

/// Reading stops at the first fatal issue: whatever the lines are, a fatal
/// issue is the last issue found. Recoverable issues do not stop the reading.
pub proof fn lemma_fatal_issue_is_last(lines: Seq<Seq<u8>>)
    ensures
        only_last_may_be_fatal(parse_lines(lines).issues),
    decreases lines.len(),
{
    let issues = parse_lines(lines).issues;
    if lines.len() == 0 {
    } else if has_prefix(lines[0], file_tag()) {
        if lines.len() >= 4 && has_prefix(lines[1], size_tag()) && lines[3] == end_of_file() {
            lemma_fatal_issue_is_last(lines.skip(4));
            assert(issues =~= parse_lines(lines.skip(4)).issues);
        }
    } else if has_prefix(lines[0], dir_tag()) {
        if lines.len() >= 2 {
            lemma_fatal_issue_is_last(lines.skip(2));
            let rest = parse_lines(lines.skip(2)).issues;
            if lines[1] != end_of_dir() {
                assert(issues.len() == rest.len() + 1);
                assert forall|i: int| 0 <= i < issues.len() - 1 implies severity_of(
                    (#[trigger] issues[i]).kind,
                ) == Severity::Recoverable by {
                    if i > 0 {
                        assert(issues[i] == rest[i - 1]);
                    }
                }
            } else {
                assert(issues =~= rest);
            }
        }
    } else {
        lemma_fatal_issue_is_last(lines.skip(1));
    }
}

} // verus!
