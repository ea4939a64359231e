//! Selection of what a snapshot holds from the listing of a directory tree:
//! the files to include, and the directories that are empty once everything
//! excluded is left out.
//!
//! The listing gives every entry below the root by its path relative to the
//! root, with `/` between segments; the root itself is the empty path.

use vstd::prelude::*;
use vstd::string::*;
use crate::ignore::{IgnoreRuleSet, rules_match};
use crate::path::{file_name, parent_len, parent_of, segment_spans, segments};
use crate::text::{chars_equal, chars_of, spans_cover};

verus! {

/// What kind of filesystem object an entry is.
#[derive(Clone, Copy, Debug, PartialEq, Eq, Structural)]
pub enum EntryKind {
    /// A regular file.
    File,
    /// A directory.
    Directory,
    /// Anything else, such as a symbolic link.
    Other,
}

/// An entry of a directory tree.
#[derive(Debug)]
pub struct WalkEntry {
    /// The path relative to the root.
    pub path: String,
    /// The kind of the entry.
    pub kind: EntryKind,
}

/// An entry as a value: its path as text, and its kind.
pub struct Entry {
    /// The path relative to the root.
    pub path: Seq<char>,
    /// The kind of the entry.
    pub kind: EntryKind,
}

impl View for WalkEntry {
    type V = Entry;

    open spec fn view(&self) -> Entry {
        Entry { path: self.path@, kind: self.kind }
    }
}

/// The entries of a listing as values.
pub open spec fn listing(entries: Seq<WalkEntry>) -> Seq<Entry> {
    entries.map_values(|e: WalkEntry| e@)
}

/// The two switches of a walk.
#[derive(Clone, Copy, Debug)]
pub struct WalkOptions {
    /// Whether what lies in hidden directories is included.
    pub include_hidden: bool,
    /// Whether ignore files are left out of the snapshot.
    pub exclude_ignore_file: bool,
}

/// The reserved name of ignore files: `.tdmignore`.
pub open spec fn ignore_file_name() -> Seq<char> {
    seq!['.', 't', 'd', 'm', 'i', 'g', 'n', 'o', 'r', 'e']
}

/// Whether a name is hidden: whether it begins with a dot.
pub open spec fn is_hidden_name(name: Seq<char>) -> bool {
    name.len() > 0 && name[0] == '.'
}

/// Whether `path` lies in a hidden directory: whether a segment other than
/// its last is a hidden name.
pub open spec fn has_hidden_ancestor(path: Seq<char>) -> bool {
    exists|k: int| 0 <= k < segments(path).len() - 1 && is_hidden_name(#[trigger] segments(path)[k])
}

/// Whether the last segment of `path` is a hidden name.
pub open spec fn has_hidden_name(path: Seq<char>) -> bool {
    file_name(path) matches Some(name) && is_hidden_name(name)
}

/// Whether the last segment of `path` is the reserved name of ignore files.
pub open spec fn has_ignore_file_name(path: Seq<char>) -> bool {
    file_name(path) == Some(ignore_file_name())
}

/// Whether an entry is an ignore file: a regular file with the reserved name.
/// A directory or a link with that name is an entry like any other.
pub open spec fn is_ignore_file(entry: Entry) -> bool {
    entry.kind == EntryKind::File && has_ignore_file_name(entry.path)
}

/// Whether the rules leave `path` out. The path `.tdmignore`, the ignore file
/// of the root, is left out exactly when ignore files are excluded; every
/// other path is left out exactly when the rules match it.
pub open spec fn ignored(patterns: Seq<Seq<char>>, exclude_ignore_file: bool, path: Seq<char>) -> bool {
    if path == ignore_file_name() {
        exclude_ignore_file
    } else {
        rules_match(patterns, path)
    }
}

/// Whether an entry counts as hidden: it lies in a hidden directory, or it is
/// a directory with a hidden name.
pub open spec fn hidden(entry: Entry) -> bool {
    has_hidden_ancestor(entry.path) || (entry.kind == EntryKind::Directory && has_hidden_name(
        entry.path,
    ))
}

/// Whether an entry is left out of a walk. An ignore file is subject only to
/// the switch for ignore files; every other entry is left out when the rules
/// match it, or when it is hidden and hidden entries are not included.
pub open spec fn excluded(patterns: Seq<Seq<char>>, options: WalkOptions, entry: Entry) -> bool {
    if is_ignore_file(entry) {
        options.exclude_ignore_file
    } else {
        rules_match(patterns, entry.path) || (!options.include_hidden && hidden(entry))
    }
}

/// Whether `path` can stand in a listing: it does not begin with a separator.
pub open spec fn is_relative(path: Seq<char>) -> bool {
    path.len() == 0 || path[0] != '/'
}

/// Whether an entry can stand in a listing: its path is relative, and only a
/// directory, the root, has the empty path.
pub open spec fn is_listed(entry: Entry) -> bool {
    is_relative(entry.path) && (entry.path.len() == 0 ==> entry.kind == EntryKind::Directory)
}

/// Whether `tree` is a listing: every entry can stand in one.
pub open spec fn is_listing(tree: Seq<Entry>) -> bool {
    forall|i: int| 0 <= i < tree.len() ==> is_listed(#[trigger] tree[i])
}

/// Whether `path` can be the path of a record: it is not empty and does not
/// begin with a separator.
pub open spec fn is_record_path(path: Seq<char>) -> bool {
    path.len() > 0 && path[0] != '/'
}

/// Whether an entry belongs to the files of a snapshot: a regular file that
/// is not left out.
pub open spec fn is_selected_file(patterns: Seq<Seq<char>>, options: WalkOptions, entry: Entry) -> bool {
    entry.kind == EntryKind::File && !excluded(patterns, options, entry)
}

/// Whether the directory at `dir` has, among the entries of `tree`, a direct
/// child that is not left out.
pub open spec fn has_surviving_child(
    patterns: Seq<Seq<char>>,
    options: WalkOptions,
    tree: Seq<Entry>,
    dir: Seq<char>,
) -> bool {
    exists|i: int|
        0 <= i < tree.len() && parent_of((#[trigger] tree[i]).path) == Some(dir) && !excluded(
            patterns,
            options,
            tree[i],
        )
}

/// Whether an entry belongs to the empty directories of a snapshot: a
/// directory other than the root that is not left out and has no direct child
/// that is not left out.
pub open spec fn is_empty_directory(
    patterns: Seq<Seq<char>>,
    options: WalkOptions,
    tree: Seq<Entry>,
    entry: Entry,
) -> bool {
    &&& entry.kind == EntryKind::Directory
    &&& entry.path.len() > 0
    &&& !excluded(patterns, options, entry)
    &&& !has_surviving_child(patterns, options, tree, entry.path)
}

/// The predicate of `is_selected_file`, as a value.
pub open spec fn file_filter(patterns: Seq<Seq<char>>, options: WalkOptions) -> spec_fn(Entry) -> bool {
    |e: Entry| is_selected_file(patterns, options, e)
}

/// The predicate of `is_empty_directory`, as a value.
pub open spec fn empty_directory_filter(
    patterns: Seq<Seq<char>>,
    options: WalkOptions,
    tree: Seq<Entry>,
) -> spec_fn(Entry) -> bool {
    |e: Entry| is_empty_directory(patterns, options, tree, e)
}

/// Tells whether the segment `chars[a..b]` is a hidden name.
fn span_is_hidden(chars: &Vec<char>, a: usize, b: usize) -> (r: bool)
    requires
        a <= b <= chars@.len(),
    ensures
        r == is_hidden_name(chars@.subrange(a as int, b as int)),
{
    proof {
        if a < b {
            assert(chars@.subrange(a as int, b as int)[0] == chars@[a as int]);
        }
    }
    a < b && chars[a] == '.'
}

/// Tells whether the segment `chars[a..b]` is the name of ignore files.
fn span_is_ignore_name(chars: &Vec<char>, a: usize, b: usize) -> (r: bool)
    requires
        a <= b <= chars@.len(),
    ensures
        r == (chars@.subrange(a as int, b as int) == ignore_file_name()),
{
    let name = chars_of(".tdmignore");
    proof {
        reveal_strlit(".tdmignore");
        assert(name@ =~= ignore_file_name());
    }
    chars_equal(chars, a, b, &name)
}

/// Tells whether `path` lies in a hidden directory.
pub fn is_in_hidden_directory(path: &str) -> (r: bool)
    ensures
        r == has_hidden_ancestor(path@),
{
    let chars = chars_of(path);
    let spans = segment_spans(&chars);
    let ancestors: usize = if spans.len() == 0 {
        0
    } else {
        spans.len() - 1
    };
    let mut k: usize = 0;
    while k < ancestors
        invariant
            chars@ == path@,
            spans_cover(chars@, spans@, segments(chars@)),
            ancestors == if spans@.len() == 0 { 0 } else { spans@.len() - 1 },
            k <= ancestors,
            forall|j: int| 0 <= j < k ==> !is_hidden_name(#[trigger] segments(path@)[j]),
        decreases ancestors - k,
    {
        let (a, b) = spans[k];
        if span_is_hidden(&chars, a, b) {
            assert(is_hidden_name(segments(path@)[k as int]));
            return true;
        }
        k = k + 1;
    }
    false
}

/// Tells whether the last segment of `path` is the name of ignore files.
pub fn names_ignore_file(path: &str) -> (r: bool)
    ensures
        r == has_ignore_file_name(path@),
{
    let chars = chars_of(path);
    let spans = segment_spans(&chars);
    if spans.len() == 0 {
        return false;
    }
    let (a, b) = spans[spans.len() - 1];
    span_is_ignore_name(&chars, a, b)
}

/// Tells whether the last segment of `path` is a hidden name.
fn names_hidden(path: &str) -> (r: bool)
    ensures
        r == has_hidden_name(path@),
{
    let chars = chars_of(path);
    let spans = segment_spans(&chars);
    if spans.len() == 0 {
        return false;
    }
    let (a, b) = spans[spans.len() - 1];
    span_is_hidden(&chars, a, b)
}

/// Tells whether the rules leave `path` out: for the ignore file of the root
/// the switch decides, for every other path the rules do.
pub fn should_ignore(path: &str, rules: &IgnoreRuleSet, exclude_ignore_file: bool) -> (r: bool)
    ensures
        r == ignored(rules.patterns(), exclude_ignore_file, path@),
{
    let chars = chars_of(path);
    proof {
        assert(chars@.subrange(0, chars@.len() as int) =~= chars@);
    }
    if span_is_ignore_name(&chars, 0, chars.len()) {
        exclude_ignore_file
    } else {
        rules.matches(path)
    }
}

/// Tells whether an entry is left out of a walk.
pub fn is_excluded(entry: &WalkEntry, rules: &IgnoreRuleSet, options: WalkOptions) -> (r: bool)
    ensures
        r == excluded(rules.patterns(), options, entry@),
{
    let path = entry.path.as_str();
    let is_file: bool = match entry.kind {
        EntryKind::File => true,
        _ => false,
    };
    if is_file && names_ignore_file(path) {
        return options.exclude_ignore_file;
    }
    if rules.matches(path) {
        return true;
    }
    if options.include_hidden {
        return false;
    }
    if is_in_hidden_directory(path) {
        return true;
    }
    match entry.kind {
        EntryKind::Directory => names_hidden(path),
        _ => false,
    }
}

/// Tells whether `tree` is a listing: whether no path begins with a separator
/// and only a directory has the empty path.
pub fn is_valid_listing(tree: &Vec<WalkEntry>) -> (r: bool)
    ensures
        r == is_listing(listing(tree@)),
{
    let mut i: usize = 0;
    while i < tree.len()
        invariant
            i <= tree@.len(),
            forall|j: int| 0 <= j < i ==> is_listed(#[trigger] listing(tree@)[j]),
        decreases tree@.len() - i,
    {
        let entry = &tree[i];
        let path = entry.path.as_str();
        proof {
            assert(listing(tree@)[i as int] == entry@);
        }
        let fine: bool = if path.is_empty() {
            match entry.kind {
                EntryKind::Directory => true,
                _ => false,
            }
        } else {
            path.get_char(0) != '/'
        };
        if !fine {
            return false;
        }
        i = i + 1;
    }
    true
}

/// Returns the path of the directory that holds `path`, if there is one.
pub fn parent_path(path: &str) -> (r: Option<String>)
    ensures
        match r {
            Some(parent) => parent_of(path@) == Some(parent@),
            None => parent_of(path@) is None,
        },
{
    let chars = chars_of(path);
    match parent_len(&chars) {
        Some(k) => {
            proof {
                assert(path@.take(k as int) =~= path@.subrange(0, k as int));
            }
            Some(String::from_str(path.substring_char(0, k)))
        },
        None => None,
    }
}

/// What a walk selects from a tree.
#[derive(Debug)]
pub struct Selection {
    /// The files to include, in the order of the listing.
    pub files: Vec<WalkEntry>,
    /// The directories that are empty once what is left out is gone, in the
    /// order of the listing.
    pub empty_dirs: Vec<WalkEntry>,
}

/// How a filter treats the item that a longer prefix adds.
proof fn lemma_filter_next<T>(s: Seq<T>, i: int, p: spec_fn(T) -> bool)
    requires
        0 <= i < s.len(),
    ensures
        s.take(i + 1).filter(p) == if p(s[i]) {
            s.take(i).filter(p).push(s[i])
        } else {
            s.take(i).filter(p)
        },
{
    reveal(Seq::filter);
    assert(s.take(i + 1).drop_last() =~= s.take(i));
}

/// Appends a copy of `entry` to `out`.
fn push_entry(out: &mut Vec<WalkEntry>, entry: &WalkEntry)
    requires
        forall|j: int| 0 <= j < old(out)@.len() ==> is_record_path((#[trigger] old(out)@[j]).path@),
        is_record_path(entry.path@),
    ensures
        listing(final(out)@) == listing(old(out)@).push(entry@),
        forall|j: int| 0 <= j < final(out)@.len() ==> is_record_path((#[trigger] final(out)@[j]).path@),
{
    out.push(WalkEntry { path: entry.path.clone(), kind: entry.kind });
    assert(listing(out@) =~= listing(old(out)@).push(entry@));
}

/// Tells whether some entry of `tree` lies directly in the directory `dir`
/// and is not left out, given for each entry whether it is left out and what
/// its parent is.
fn any_child_survives(tree: &Vec<WalkEntry>, flags: &Vec<bool>, parents: &Vec<Option<String>>, dir: &String) -> (r: bool)
    requires
        flags@.len() == tree@.len(),
        parents@.len() == tree@.len(),
    ensures
        r == exists|j: int|
            0 <= j < tree@.len() && (#[trigger] parents@[j] matches Some(p) && p@ == dir@) && !flags@[j],
{
    let mut j: usize = 0;
    while j < tree.len()
        invariant
            flags@.len() == tree@.len(),
            parents@.len() == tree@.len(),
            j <= tree@.len(),
            forall|m: int|
                0 <= m < j ==> !((#[trigger] parents@[m] matches Some(p) && p@ == dir@) && !flags@[m]),
        decreases tree@.len() - j,
    {
        if !flags[j] {
            let here: bool = match &parents[j] {
                Some(p) => *p == *dir,
                None => false,
            };
            if here {
                return true;
            }
        }
        j = j + 1;
    }
    false
}

/// Selects from the listing of a tree the files to include and the
/// directories that are empty once what is left out is gone.
pub fn walk(tree: &Vec<WalkEntry>, rules: &IgnoreRuleSet, options: WalkOptions) -> (selection: Selection)
    requires
        is_listing(listing(tree@)),
    ensures
        listing(selection.files@) == listing(tree@).filter(file_filter(rules.patterns(), options)),
        listing(selection.empty_dirs@) == listing(tree@).filter(
            empty_directory_filter(rules.patterns(), options, listing(tree@)),
        ),
        forall|i: int|
            0 <= i < selection.files@.len() ==> is_record_path((#[trigger] selection.files@[i]).path@),
        forall|i: int|
            0 <= i < selection.empty_dirs@.len() ==> is_record_path(
                (#[trigger] selection.empty_dirs@[i]).path@,
            ),
{
    let ghost model = listing(tree@);
    let ghost patterns = rules.patterns();
    let n: usize = tree.len();
    let mut flags: Vec<bool> = Vec::new();
    let mut parents: Vec<Option<String>> = Vec::new();
    let mut files: Vec<WalkEntry> = Vec::new();
    let mut i: usize = 0;
    proof {
        reveal(Seq::filter);
        assert(model.take(0) =~= Seq::<Entry>::empty());
        assert(listing(files@) =~= model.take(0).filter(file_filter(patterns, options)));
    }
    while i < n
        invariant
            n == tree@.len(),
            model == listing(tree@),
            patterns == rules.patterns(),
            i <= n,
            flags@.len() == i,
            parents@.len() == i,
            forall|j: int| 0 <= j < i ==> flags@[j] == excluded(patterns, options, #[trigger] model[j]),
            forall|j: int|
                0 <= j < i ==> match #[trigger] parents@[j] {
                    Some(p) => parent_of(model[j].path) == Some(p@),
                    None => parent_of(model[j].path) is None,
                },
            listing(files@) == model.take(i as int).filter(file_filter(patterns, options)),
            is_listing(model),
            forall|j: int| 0 <= j < files@.len() ==> is_record_path((#[trigger] files@[j]).path@),
        decreases n - i,
    {
        let entry = &tree[i];
        proof {
            assert(model[i as int] == entry@);
            assert(is_listed(model[i as int]));
        }
        let out = is_excluded(entry, rules, options);
        flags.push(out);
        parents.push(parent_path(entry.path.as_str()));
        proof {
            lemma_filter_next(model, i as int, file_filter(patterns, options));
        }
        let is_file: bool = match entry.kind {
            EntryKind::File => true,
            _ => false,
        };
        if is_file && !out {
            push_entry(&mut files, entry);
        }
        i = i + 1;
    }
    proof {
        assert(model.take(n as int) =~= model);
    }
    let mut empty_dirs: Vec<WalkEntry> = Vec::new();
    let mut d: usize = 0;
    proof {
        assert(model.take(0) =~= Seq::<Entry>::empty());
        reveal(Seq::filter);
        assert(listing(empty_dirs@) =~= model.take(0).filter(
            empty_directory_filter(patterns, options, model),
        ));
    }
    while d < n
        invariant
            n == tree@.len(),
            model == listing(tree@),
            patterns == rules.patterns(),
            d <= n,
            flags@.len() == n,
            parents@.len() == n,
            forall|j: int| 0 <= j < n ==> flags@[j] == excluded(patterns, options, #[trigger] model[j]),
            forall|j: int|
                0 <= j < n ==> match #[trigger] parents@[j] {
                    Some(p) => parent_of(model[j].path) == Some(p@),
                    None => parent_of(model[j].path) is None,
                },
            listing(empty_dirs@) == model.take(d as int).filter(
                empty_directory_filter(patterns, options, model),
            ),
            is_listing(model),
            forall|j: int|
                0 <= j < empty_dirs@.len() ==> is_record_path((#[trigger] empty_dirs@[j]).path@),
        decreases n - d,
    {
        let entry = &tree[d];
        proof {
            assert(model[d as int] == entry@);
            assert(is_listed(model[d as int]));
            lemma_filter_next(model, d as int, empty_directory_filter(patterns, options, model));
        }
        let is_dir: bool = match entry.kind {
            EntryKind::Directory => true,
            _ => false,
        };
        if is_dir && !flags[d] && !entry.path.as_str().is_empty() {
            let occupied = any_child_survives(tree, &flags, &parents, &entry.path);
            proof {
                let dir = entry.path@;
                if occupied {
                    let j = choose|j: int|
                        0 <= j < tree@.len() && (#[trigger] parents@[j] matches Some(p) && p@ == dir)
                            && !flags@[j];
                    assert(parent_of(model[j].path) == Some(dir));
                    assert(!excluded(patterns, options, model[j]));
                    assert(has_surviving_child(patterns, options, model, dir));
                } else {
                    if has_surviving_child(patterns, options, model, dir) {
                        let j = choose|j: int|
                            0 <= j < model.len() && parent_of((#[trigger] model[j]).path) == Some(dir)
                                && !excluded(patterns, options, model[j]);
                        assert(parents@[j] matches Some(p) && p@ == dir);
                        assert(!flags@[j]);
                        assert(false);
                    }
                }
            }
            if !occupied {
                push_entry(&mut empty_dirs, entry);
            }
        }
        d = d + 1;
    }
    proof {
        assert(model.take(n as int) =~= model);
    }
    Selection { files, empty_dirs }
}

/// With hidden entries not included, whatever lies in a hidden directory is
/// left out, unless it is an ignore file.
pub proof fn lemma_hidden_ancestor_excludes(patterns: Seq<Seq<char>>, options: WalkOptions, entry: Entry)
    requires
        !options.include_hidden,
        has_hidden_ancestor(entry.path),
        !is_ignore_file(entry),
    ensures
        excluded(patterns, options, entry),
        !is_selected_file(patterns, options, entry),
        forall|tree: Seq<Entry>| !is_empty_directory(patterns, options, tree, entry),
{
}

/// A file with a hidden name that does not lie in a hidden directory is
/// selected like any other file: only the rules can leave it out.
pub proof fn lemma_hidden_file_is_selected(patterns: Seq<Seq<char>>, options: WalkOptions, entry: Entry)
    requires
        entry.kind == EntryKind::File,
        !has_hidden_ancestor(entry.path),
        !has_ignore_file_name(entry.path),
    ensures
        is_selected_file(patterns, options, entry) == !rules_match(patterns, entry.path),
{
}

/// An entry that is not an ignore file is left out whenever the rules match
/// its path or one of its segments, whatever its name and its kind.
pub proof fn lemma_rules_exclude(patterns: Seq<Seq<char>>, options: WalkOptions, entry: Entry)
    requires
        !is_ignore_file(entry),
        rules_match(patterns, entry.path),
    ensures
        excluded(patterns, options, entry),
{
}

/// With hidden entries not included, a directory with a hidden name is left
/// out, whatever the name is.
pub proof fn lemma_hidden_directory_is_excluded(patterns: Seq<Seq<char>>, options: WalkOptions, entry: Entry)
    requires
        !options.include_hidden,
        entry.kind == EntryKind::Directory,
        has_hidden_name(entry.path),
    ensures
        excluded(patterns, options, entry),
{
}

/// A directory other than the root that is not left out, and whose direct
/// children are all left out, is among the empty directories of the walk.
pub proof fn lemma_directory_of_excluded_children_is_empty(
    patterns: Seq<Seq<char>>,
    options: WalkOptions,
    tree: Seq<Entry>,
    i: int,
)
    requires
        0 <= i < tree.len(),
        tree[i].kind == EntryKind::Directory,
        tree[i].path.len() > 0,
        !excluded(patterns, options, tree[i]),
        forall|j: int|
            0 <= j < tree.len() && parent_of((#[trigger] tree[j]).path) == Some(tree[i].path)
                ==> excluded(patterns, options, tree[j]),
    ensures
        is_empty_directory(patterns, options, tree, tree[i]),
        tree.filter(empty_directory_filter(patterns, options, tree)).contains(tree[i]),
{
    let keep = empty_directory_filter(patterns, options, tree);
    assert(keep(tree[i]));
    tree.lemma_filter_contains(keep, i);
}

/// An ignore file obeys the switch alone: it is among the files of the
/// snapshot exactly when ignore files are not excluded, whatever the rules
/// and the hiding say.
pub proof fn lemma_ignore_file_follows_the_switch(patterns: Seq<Seq<char>>, options: WalkOptions, entry: Entry)
    requires
        is_ignore_file(entry),
    ensures
        is_selected_file(patterns, options, entry) == !options.exclude_ignore_file,
{
}

/// What a filter keeps is exactly what the sequence holds and the predicate
/// admits.
pub proof fn lemma_filter_keeps<T>(s: Seq<T>, keep: spec_fn(T) -> bool, x: T)
    ensures
        s.filter(keep).contains(x) <==> s.contains(x) && keep(x),
    decreases s.len(),
{
    reveal(Seq::filter);
    if s.len() > 0 {
        let front = s.drop_last();
        lemma_filter_keeps(front, keep, x);
        let kept = s.filter(keep);
        if kept.contains(x) {
            let i = choose|i: int| 0 <= i < kept.len() && kept[i] == x;
            if keep(s.last()) && i == kept.len() - 1 {
                assert(s[s.len() - 1] == x);
            } else {
                assert(front.filter(keep)[i] == x);
                assert(front.filter(keep).contains(x));
                let j = choose|j: int| 0 <= j < front.len() && front[j] == x;
                assert(s[j] == x);
            }
        }
        if s.contains(x) && keep(x) {
            let j = choose|j: int| 0 <= j < s.len() && s[j] == x;
            if j == s.len() - 1 {
                assert(kept[kept.len() - 1] == x);
            } else {
                assert(front[j] == x);
                assert(front.contains(x));
                let i = choose|i: int| 0 <= i < front.filter(keep).len() && front.filter(keep)[i] == x;
                assert(kept[i] == x);
            }
        }
    }
}

/// The files of a snapshot are exactly the listed regular files that are not
/// left out, and its empty directories are exactly the listed directories
/// that are empty once what is left out is gone.
pub proof fn lemma_selection(patterns: Seq<Seq<char>>, options: WalkOptions, tree: Seq<Entry>, entry: Entry)
    ensures
        tree.filter(file_filter(patterns, options)).contains(entry) <==> tree.contains(entry)
            && is_selected_file(patterns, options, entry),
        tree.filter(empty_directory_filter(patterns, options, tree)).contains(entry)
            <==> tree.contains(entry) && is_empty_directory(patterns, options, tree, entry),
{
    lemma_filter_keeps(tree, file_filter(patterns, options), entry);
    lemma_filter_keeps(tree, empty_directory_filter(patterns, options, tree), entry);
}

/// No entry is both a file of the snapshot and one of its empty directories.
pub proof fn lemma_files_and_directories_are_apart(
    patterns: Seq<Seq<char>>,
    options: WalkOptions,
    tree: Seq<Entry>,
    entry: Entry,
)
    ensures
        !(is_selected_file(patterns, options, entry) && is_empty_directory(
            patterns,
            options,
            tree,
            entry,
        )),
{
}

} // verus!
