//! What the template store rests on: the file name of a template, the line of
//! the configuration file that names the template directory, and the version
//! that a release is held against.

use vstd::prelude::*;
use vstd::string::*;
use crate::text::{
    chars_equal, chars_have_prefix, chars_of, drop_leading, drop_trailing, find_char, first_index,
    has_prefix, lemma_drop_leading, lemma_drop_trailing, lemma_first_index_unique, space, trim,
    trim_bounds,
};

verus! {

/// The ending of the file name of an archive: `.tdmcli`.
pub open spec fn archive_suffix() -> Seq<char> {
    seq!['.', 't', 'd', 'm', 'c', 'l', 'i']
}

/// The file name of the archive of the template `name`.
pub open spec fn archive_file_name(name: Seq<char>) -> Seq<char> {
    name + archive_suffix()
}

/// Whether `s` ends with `suffix`.
pub open spec fn has_suffix<T>(s: Seq<T>, suffix: Seq<T>) -> bool {
    suffix.len() <= s.len() && s.skip(s.len() - suffix.len()) == suffix
}

/// The template that the file `file_name` is the archive of: what stands
/// before the ending `.tdmcli`, if the name has that ending and something
/// before it.
pub open spec fn template_of(file_name: Seq<char>) -> Option<Seq<char>> {
    if file_name.len() > archive_suffix().len() && has_suffix(file_name, archive_suffix()) {
        Some(file_name.take(file_name.len() - archive_suffix().len()))
    } else {
        None
    }
}

/// Returns the file name of the archive of a template.
pub fn template_file_name(name: &str) -> (file_name: String)
    ensures
        file_name@ == archive_file_name(name@),
{
    proof {
        reveal_strlit(".tdmcli");
        assert(".tdmcli"@ =~= archive_suffix());
    }
    let mut file_name = String::from_str(name);
    file_name.append(".tdmcli");
    file_name
}

/// Returns the template that a file is the archive of, if it is one.
pub fn template_name(file_name: &str) -> (name: Option<String>)
    ensures
        match name {
            Some(name) => template_of(file_name@) == Some(name@),
            None => template_of(file_name@) is None,
        },
{
    let chars = chars_of(file_name);
    let suffix = chars_of(".tdmcli");
    proof {
        reveal_strlit(".tdmcli");
        assert(suffix@ =~= archive_suffix());
    }
    let n: usize = chars.len();
    if n <= suffix.len() {
        return None;
    }
    let cut: usize = n - suffix.len();
    proof {
        assert(chars@.skip(cut as int) =~= chars@.subrange(cut as int, n as int));
        assert(chars@.take(cut as int) =~= chars@.subrange(0, cut as int));
    }
    if chars_equal(&chars, cut, n, &suffix) {
        Some(String::from_str(file_name.substring_char(0, cut)))
    } else {
        None
    }
}

/// The name of a template and the file name of its archive stand for each
/// other: the file name of a template with a non-empty name is the archive of
/// that template and of no other.
pub proof fn lemma_template_of_file_name(name: Seq<char>)
    requires
        name.len() > 0,
    ensures
        template_of(archive_file_name(name)) == Some(name),
{
    let file_name = archive_file_name(name);
    assert(file_name.skip(file_name.len() - archive_suffix().len()) =~= archive_suffix());
    assert(file_name.take(file_name.len() - archive_suffix().len()) =~= name);
}

/// The key of the line that names the template directory: `template_dir`.
pub open spec fn config_key() -> Seq<char> {
    seq!['t', 'e', 'm', 'p', 'l', 'a', 't', 'e', '_', 'd', 'i', 'r']
}

/// The predicate "is a double quote", as a value.
pub open spec fn quote() -> spec_fn(char) -> bool {
    |c: char| c == '"'
}

/// `s` without the double quotes at its two ends.
pub open spec fn unquote(s: Seq<char>) -> Seq<char> {
    drop_trailing(drop_leading(s, quote()), quote())
}

/// The directory that a line of the configuration names, if it names one: the
/// trimmed line begins with the key and holds an equals sign, and what
/// follows the first equals sign is not empty once it is trimmed and its
/// quotes are dropped.
pub open spec fn line_template_dir(line: Seq<char>) -> Option<Seq<char>> {
    let entry = trim(line);
    let sign = first_index(entry, '=');
    if has_prefix(entry, config_key()) && sign < entry.len() {
        let value = unquote(trim(entry.skip(sign + 1)));
        if value.len() > 0 {
            Some(value)
        } else {
            None
        }
    } else {
        None
    }
}

/// The template directory that the text of a configuration names: the one of
/// its first line that names one.
pub open spec fn configured_template_dir(text: Seq<char>) -> Option<Seq<char>>
    decreases text.len(),
{
    let k = first_index(text, '\n');
    if 0 <= k < text.len() {
        match line_template_dir(text.take(k)) {
            Some(dir) => Some(dir),
            None => configured_template_dir(text.skip(k + 1)),
        }
    } else {
        line_template_dir(text)
    }
}

/// Finds the bounds of the directory that the line `chars[start..end]` names,
/// if it names one.
fn line_template_dir_bounds(chars: &Vec<char>, start: usize, end: usize) -> (r: Option<(usize, usize)>)
    requires
        start <= end <= chars@.len(),
    ensures
        match r {
            Some((a, b)) => a < b <= chars@.len() && line_template_dir(
                chars@.subrange(start as int, end as int),
            ) == Some(chars@.subrange(a as int, b as int)),
            None => line_template_dir(chars@.subrange(start as int, end as int)) is None,
        },
{
    let key = chars_of("template_dir");
    proof {
        reveal_strlit("template_dir");
        assert(key@ =~= config_key());
    }
    let (a, b) = trim_bounds(chars, start, end);
    let ghost entry = chars@.subrange(a as int, b as int);
    if !chars_have_prefix(chars, a, b, &key) {
        return None;
    }
    let sign: usize = find_char(chars, a, b, '=');
    if sign == b {
        return None;
    }
    proof {
        assert(entry.skip(sign - a + 1) =~= chars@.subrange(sign + 1, b as int));
    }
    let (c, d) = trim_bounds(chars, sign + 1, b);
    let ghost value = chars@.subrange(c as int, d as int);
    let mut from: usize = c;
    while from < d && chars[from] == '"'
        invariant
            c <= from <= d <= chars@.len(),
            forall|j: int| c <= j < from ==> chars@[j] == '"',
        decreases d - from,
    {
        from = from + 1;
    }
    let mut to: usize = d;
    while to > from && chars[to - 1] == '"'
        invariant
            from <= to <= d <= chars@.len(),
            forall|j: int| to <= j < d ==> chars@[j] == '"',
        decreases to,
    {
        to = to - 1;
    }
    proof {
        let is_quote = quote();
        assert forall|j: int| 0 <= j < from - c implies is_quote(#[trigger] value[j]) by {
            assert(value[j] == chars@[c + j]);
        }
        assert(from < d ==> value[from - c] == chars@[from as int]);
        lemma_drop_leading(value, is_quote, from - c);
        let rest = value.skip(from - c);
        assert(rest =~= chars@.subrange(from as int, d as int));
        assert forall|j: int| to - from <= j < rest.len() implies is_quote(#[trigger] rest[j]) by {
            assert(rest[j] == chars@[from + j]);
        }
        assert(to > from ==> rest[to - from - 1] == chars@[to - 1]);
        lemma_drop_trailing(rest, is_quote, to - from);
        assert(rest.take(to - from) =~= chars@.subrange(from as int, to as int));
    }
    if from == to {
        None
    } else {
        Some((from, to))
    }
}

/// Reads the template directory that the text of a configuration names.
pub fn read_template_dir(contents: &str) -> (dir: Option<String>)
    ensures
        match dir {
            Some(dir) => configured_template_dir(contents@) == Some(dir@),
            None => configured_template_dir(contents@) is None,
        },
{
    let chars = chars_of(contents);
    let n: usize = chars.len();
    let mut start: usize = 0;
    proof {
        assert(chars@.skip(0) =~= chars@);
    }
    loop
        invariant
            chars@ == contents@,
            n == chars@.len(),
            start <= n,
            configured_template_dir(chars@.skip(start as int)) == configured_template_dir(chars@),
        decreases n - start,
    {
        let ghost rest = chars@.skip(start as int);
        let end: usize = find_char(&chars, start, n, '\n');
        proof {
            assert(rest =~= chars@.subrange(start as int, n as int));
            assert(rest.take(end - start) =~= chars@.subrange(start as int, end as int));
        }
        match line_template_dir_bounds(&chars, start, end) {
            Some((a, b)) => {
                return Some(String::from_str(contents.substring_char(a, b)));
            },
            None => {},
        }
        if end == n {
            return None;
        }
        proof {
            assert(rest.skip(end - start + 1) =~= chars@.skip(end + 1));
        }
        start = end + 1;
    }
}

/// The text of the configuration that names the template directory `dir`:
/// the line `template_dir = "<dir>"`.
pub open spec fn config_text(dir: Seq<char>) -> Seq<char> {
    config_key() + seq![' ', '=', ' ', '"'] + dir + seq!['"', '\n']
}

/// Writes the text of the configuration that names a template directory.
pub fn write_template_dir(dir: &str) -> (text: String)
    ensures
        text@ == config_text(dir@),
{
    proof {
        reveal_strlit("template_dir = \"");
        reveal_strlit("\"\n");
        assert("template_dir = \""@ =~= config_key() + seq![' ', '=', ' ', '"']);
        assert("\"\n"@ =~= seq!['"', '\n']);
    }
    let mut text = String::from_str("template_dir = \"");
    text.append(dir);
    text.append("\"\n");
    text
}

/// The configuration that is written for a directory names that directory,
/// provided the directory is not empty, holds no line feed and neither begins
/// nor ends with a double quote.
pub proof fn lemma_read_written_template_dir(dir: Seq<char>)
    requires
        dir.len() > 0,
        !dir.contains('\n'),
        dir[0] != '"',
        dir.last() != '"',
    ensures
        configured_template_dir(config_text(dir)) == Some(dir),
{
    let text = config_text(dir);
    let key = config_key();
    let k = text.len() - 1;
    assert forall|j: int| 0 <= j < k implies text[j] != '\n' by {
        if 16 <= j < 16 + dir.len() {
            assert(text[j] == dir[j - 16]);
            if dir[j - 16] == '\n' {
                assert(dir.contains('\n'));
            }
        }
    }
    lemma_first_index_unique(text, '\n', k);
    let line = text.take(k);
    assert(line =~= key + seq![' ', '=', ' ', '"'] + dir + seq!['"']);

    let blank = space();
    assert(!blank(line[0]));
    lemma_drop_leading(line, blank, 0);
    assert(line.skip(0) =~= line);
    assert(!blank(line[line.len() - 1]));
    lemma_drop_trailing(line, blank, line.len() as int);
    assert(line.take(line.len() as int) =~= line);
    assert(trim(line) == line);

    assert(line.take(12) =~= key);
    lemma_first_index_unique(line, '=', 13);

    let tail = line.skip(14);
    assert(tail =~= seq![' ', '"'] + dir + seq!['"']);
    assert(blank(tail[0]));
    assert(!blank(tail[1]));
    lemma_drop_leading(tail, blank, 1);
    let quoted = tail.skip(1);
    assert(quoted =~= seq!['"'] + dir + seq!['"']);
    assert(!blank(quoted[quoted.len() - 1]));
    lemma_drop_trailing(quoted, blank, quoted.len() as int);
    assert(quoted.take(quoted.len() as int) =~= quoted);
    assert(trim(tail) == quoted);

    let is_quote = quote();
    assert(is_quote(quoted[0]));
    assert(quoted[1] == dir[0]);
    lemma_drop_leading(quoted, is_quote, 1);
    let open_ended = quoted.skip(1);
    assert(open_ended =~= dir + seq!['"']);
    assert(open_ended[open_ended.len() - 1] == '"');
    assert(open_ended[open_ended.len() - 2] == dir.last());
    lemma_drop_trailing(open_ended, is_quote, open_ended.len() - 1);
    assert(open_ended.take(open_ended.len() - 1) =~= dir);
    assert(unquote(quoted) == dir);
}

/// The version of this release: `1.0`.
pub open spec fn version() -> Seq<char> {
    seq!['1', '.', '0']
}

/// Returns the version of this release.
pub fn current_version() -> (v: String)
    ensures
        v@ == version(),
{
    proof {
        reveal_strlit("1.0");
        assert("1.0"@ =~= version());
    }
    String::from_str("1.0")
}

/// Tells whether the version that was published, as the text that was
/// fetched, differs from the version of this release once it is trimmed.
pub fn is_other_version(published: &str) -> (r: bool)
    ensures
        r == (trim(published@) != version()),
{
    let chars = chars_of(published);
    let current = chars_of("1.0");
    proof {
        reveal_strlit("1.0");
        assert(current@ =~= version());
        assert(chars@.subrange(0, chars@.len() as int) =~= chars@);
    }
    let (a, b) = trim_bounds(&chars, 0, chars.len());
    !chars_equal(&chars, a, b, &current)
}

} // verus!
