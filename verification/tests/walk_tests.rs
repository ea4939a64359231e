use tdmcli::ignore::IgnoreRuleSet;
use tdmcli::walk::{
    is_excluded, is_in_hidden_directory, is_valid_listing, names_ignore_file, parent_path,
    should_ignore, walk, EntryKind, WalkEntry, WalkOptions,
};

fn file(path: &str) -> WalkEntry {
    WalkEntry { path: path.to_string(), kind: EntryKind::File }
}

fn dir(path: &str) -> WalkEntry {
    WalkEntry { path: path.to_string(), kind: EntryKind::Directory }
}

fn other(path: &str) -> WalkEntry {
    WalkEntry { path: path.to_string(), kind: EntryKind::Other }
}

fn rules(contents: &str) -> IgnoreRuleSet {
    match IgnoreRuleSet::compile(contents) {
        Ok(rules) => rules,
        Err(error) => panic!("patterns should compile: {:?}", error),
    }
}

fn defaults() -> WalkOptions {
    WalkOptions { include_hidden: false, exclude_ignore_file: false }
}

fn paths(entries: &[WalkEntry]) -> Vec<String> {
    let mut paths: Vec<String> = entries.iter().map(|e| e.path.clone()).collect();
    paths.sort();
    paths
}

fn selected(tree: &[WalkEntry], contents: &str, options: WalkOptions) -> (Vec<String>, Vec<String>) {
    let tree: Vec<WalkEntry> =
        tree.iter().map(|e| WalkEntry { path: e.path.clone(), kind: e.kind }).collect();
    assert!(is_valid_listing(&tree));
    let selection = walk(&tree, &rules(contents), options);
    (paths(&selection.files), paths(&selection.empty_dirs))
}

#[test]
fn file_under_hidden_ancestor_is_excluded() {
    let tree = [dir(""), dir("a"), dir("a/.git"), file("a/.git/config"), file("a/.gitignore")];
    let (files, _) = selected(&tree, "", defaults());
    assert_eq!(files, vec!["a/.gitignore"]);
}

#[test]
fn hidden_entries_are_included_on_request() {
    let tree = [dir(""), dir("a"), dir("a/.git"), file("a/.git/config"), file("a/.gitignore")];
    let options = WalkOptions { include_hidden: true, exclude_ignore_file: false };
    let (files, dirs) = selected(&tree, "", options);
    assert_eq!(files, vec!["a/.git/config", "a/.gitignore"]);
    assert_eq!(dirs, Vec::<String>::new());
}

#[test]
fn hidden_directory_is_not_an_empty_directory() {
    let tree = [dir(""), dir(".cache"), dir("plain")];
    let (_, dirs) = selected(&tree, "", defaults());
    assert_eq!(dirs, vec!["plain"]);
    let options = WalkOptions { include_hidden: true, exclude_ignore_file: false };
    let (_, dirs) = selected(&tree, "", options);
    assert_eq!(dirs, vec![".cache", "plain"]);
}

#[test]
fn directory_under_hidden_ancestor_is_not_an_empty_directory() {
    let tree = [dir(""), dir(".git"), dir(".git/objects")];
    let (_, dirs) = selected(&tree, "", defaults());
    assert_eq!(dirs, Vec::<String>::new());
}

#[test]
fn directory_with_only_ignored_files_is_empty() {
    let tree = [dir(""), dir("logs"), file("logs/a.log"), file("logs/b.log"), file("keep.txt")];
    let (files, dirs) = selected(&tree, "*.log\n", defaults());
    assert_eq!(files, vec!["keep.txt"]);
    assert_eq!(dirs, vec!["logs"]);
}

#[test]
fn directory_with_a_surviving_file_is_not_empty() {
    let tree = [dir(""), dir("logs"), file("logs/a.log"), file("logs/readme.txt")];
    let (files, dirs) = selected(&tree, "*.log\n", defaults());
    assert_eq!(files, vec!["logs/readme.txt"]);
    assert_eq!(dirs, Vec::<String>::new());
}

#[test]
fn directory_with_only_an_empty_directory_is_not_empty() {
    let tree = [dir(""), dir("outer"), dir("outer/inner")];
    let (_, dirs) = selected(&tree, "", defaults());
    assert_eq!(dirs, vec!["outer/inner"]);
}

#[test]
fn directory_with_only_an_ignored_directory_is_empty() {
    let tree = [dir(""), dir("outer"), dir("outer/build"), file("outer/build/out.o")];
    let (files, dirs) = selected(&tree, "build/\n", defaults());
    assert_eq!(files, Vec::<String>::new());
    assert_eq!(dirs, vec!["outer"]);
}

#[test]
fn directory_with_only_a_hidden_directory_is_empty() {
    let tree = [dir(""), dir("outer"), dir("outer/.hidden"), file("outer/.hidden/x")];
    let (files, dirs) = selected(&tree, "", defaults());
    assert_eq!(files, Vec::<String>::new());
    assert_eq!(dirs, vec!["outer"]);
}

#[test]
fn directory_with_only_a_link_is_not_empty() {
    let tree = [dir(""), dir("outer"), other("outer/link")];
    let (files, dirs) = selected(&tree, "", defaults());
    assert_eq!(files, Vec::<String>::new());
    assert_eq!(dirs, Vec::<String>::new());
}

#[test]
fn root_is_never_an_empty_directory() {
    let (files, dirs) = selected(&[dir("")], "", defaults());
    assert_eq!(files, Vec::<String>::new());
    assert_eq!(dirs, Vec::<String>::new());
    let (_, dirs) = selected(&[dir(""), file("x.log")], "*.log\n", defaults());
    assert_eq!(dirs, Vec::<String>::new());
}

#[test]
fn ignored_directory_is_not_an_empty_directory() {
    let tree = [dir(""), dir("build")];
    let (_, dirs) = selected(&tree, "build/\n", defaults());
    assert_eq!(dirs, Vec::<String>::new());
}

#[test]
fn only_regular_files_are_files() {
    let tree = [dir(""), file("a"), dir("b"), file("b/c"), other("d")];
    let (files, dirs) = selected(&tree, "", defaults());
    assert_eq!(files, vec!["a", "b/c"]);
    assert_eq!(dirs, Vec::<String>::new());
}

#[test]
fn ignore_file_is_kept_by_default() {
    let tree = [dir(""), file(".tdmignore"), file("a.txt")];
    let (files, _) = selected(&tree, "*.txt\n", defaults());
    assert_eq!(files, vec![".tdmignore"]);
}

#[test]
fn ignore_file_is_left_out_on_request() {
    let tree = [dir(""), file(".tdmignore"), file("a.txt"), dir("sub"), file("sub/.tdmignore")];
    let options = WalkOptions { include_hidden: false, exclude_ignore_file: true };
    let (files, dirs) = selected(&tree, "", options);
    assert_eq!(files, vec!["a.txt"]);
    assert_eq!(dirs, vec!["sub"]);
}

#[test]
fn ignore_file_is_not_subject_to_rules_or_hiding() {
    let tree = [dir(""), dir(".hidden"), file(".hidden/.tdmignore"), file(".tdmignore")];
    let (files, _) = selected(&tree, ".tdmignore\n.*\n", defaults());
    assert_eq!(files, vec![".hidden/.tdmignore", ".tdmignore"]);
}

#[test]
fn selection_keeps_the_order_of_the_listing() {
    let tree = vec![dir(""), file("z"), dir("m"), file("a"), dir("b")];
    let selection = walk(&tree, &IgnoreRuleSet::empty(), defaults());
    let files: Vec<&str> = selection.files.iter().map(|e| e.path.as_str()).collect();
    let dirs: Vec<&str> = selection.empty_dirs.iter().map(|e| e.path.as_str()).collect();
    assert_eq!(files, vec!["z", "a"]);
    assert_eq!(dirs, vec!["m", "b"]);
    assert!(selection.files.iter().all(|e| e.kind == EntryKind::File));
    assert!(selection.empty_dirs.iter().all(|e| e.kind == EntryKind::Directory));
}

#[test]
fn concrete_tree_with_a_log_directory() {
    let tree = [
        dir(""),
        file(".tdmignore"),
        file("a.txt"),
        dir("logs"),
        file("logs/app.log"),
    ];
    let (files, dirs) = selected(&tree, "*.log\n", defaults());
    assert_eq!(files, vec![".tdmignore", "a.txt"]);
    assert_eq!(dirs, vec!["logs"]);
}

#[test]
fn hidden_directory_check_looks_at_ancestors_only() {
    assert!(is_in_hidden_directory("a/.git/config"));
    assert!(is_in_hidden_directory(".git/config"));
    assert!(is_in_hidden_directory(".a/b/c"));
    assert!(!is_in_hidden_directory("a/.gitignore"));
    assert!(!is_in_hidden_directory(".gitignore"));
    assert!(!is_in_hidden_directory("a/b/c"));
    assert!(!is_in_hidden_directory(""));
    assert!(!is_in_hidden_directory("a.b/c.d"));
}

#[test]
fn ignore_file_is_known_by_its_name() {
    assert!(names_ignore_file(".tdmignore"));
    assert!(names_ignore_file("sub/.tdmignore"));
    assert!(!names_ignore_file(".tdmignore/x"));
    assert!(!names_ignore_file("tdmignore"));
    assert!(!names_ignore_file(".tdmignore2"));
    assert!(!names_ignore_file(".tdmignor"));
    assert!(!names_ignore_file(""));
}

#[test]
fn should_ignore_follows_the_rules_but_for_the_ignore_file() {
    let rules = rules("*.log\n.tdmignore\n");
    assert!(should_ignore("a.log", &rules, false));
    assert!(should_ignore("x/a.log", &rules, true));
    assert!(!should_ignore("a.txt", &rules, false));
    assert!(!should_ignore(".tdmignore", &rules, false));
    assert!(should_ignore(".tdmignore", &rules, true));
}

#[test]
fn exclusion_puts_rules_and_hiding_together() {
    let rules = rules("*.log\n");
    let hidden = WalkOptions { include_hidden: true, exclude_ignore_file: false };
    assert!(is_excluded(&file("a.log"), &rules, defaults()));
    assert!(is_excluded(&file(".x/a"), &rules, defaults()));
    assert!(!is_excluded(&file(".x/a"), &rules, hidden));
    assert!(!is_excluded(&file(".a"), &rules, defaults()));
    assert!(is_excluded(&dir(".a"), &rules, defaults()));
    assert!(!is_excluded(&dir(".a"), &rules, hidden));
    assert!(!is_excluded(&other(".a"), &rules, defaults()));
}

#[test]
fn parent_is_what_stands_before_the_last_separator() {
    assert_eq!(parent_path("a/b/c"), Some("a/b".to_string()));
    assert_eq!(parent_path("a"), Some(String::new()));
    assert_eq!(parent_path(""), None);
    assert_eq!(parent_path("dé/ü"), Some("dé".to_string()));
}

#[test]
fn only_the_ignore_file_of_the_root_is_spared_by_should_ignore() {
    let logs = rules("*.log\n");
    assert!(!should_ignore("sub/.tdmignore", &logs, false));
    assert!(!should_ignore("sub/.tdmignore", &logs, true));
    let named = rules(".tdmignore\n");
    assert!(should_ignore("sub/.tdmignore", &named, false));
    assert!(should_ignore("sub/.tdmignore", &named, true));
    assert!(!should_ignore(".tdmignore", &named, false));
    assert!(should_ignore(".tdmignore", &named, true));
}

#[test]
fn matching_segment_excludes_whatever_the_last_segment_is() {
    let rules = rules("node_modules\n");
    for path in ["node_modules", "node_modules/.tdmignore", "a/node_modules/b", "a/b/node_modules"] {
        assert!(should_ignore(path, &rules, false));
        assert!(should_ignore(path, &rules, true));
    }
    assert!(!should_ignore("a/.tdmignore", &rules, false));
}

#[test]
fn directory_with_the_reserved_name_is_a_directory_like_any_other() {
    let tree = [dir(""), dir("d"), dir("d/.tdmignore")];
    let (files, dirs) = selected(&tree, "", defaults());
    assert_eq!(files, Vec::<String>::new());
    assert_eq!(dirs, vec!["d"]);
    let both = WalkOptions { include_hidden: true, exclude_ignore_file: true };
    let (files, dirs) = selected(&tree, "", both);
    assert_eq!(files, Vec::<String>::new());
    assert_eq!(dirs, vec!["d/.tdmignore"]);
}

#[test]
fn only_regular_files_are_ignore_files() {
    let none = IgnoreRuleSet::empty();
    let named = rules(".tdmignore\n");
    let shown = WalkOptions { include_hidden: true, exclude_ignore_file: false };
    let shown_without = WalkOptions { include_hidden: true, exclude_ignore_file: true };
    // A directory or a link with the name obeys the rules and the hiding.
    assert!(is_excluded(&dir(".tdmignore"), &none, defaults()));
    assert!(!is_excluded(&dir(".tdmignore"), &none, shown_without));
    assert!(is_excluded(&dir(".tdmignore"), &named, shown));
    assert!(!is_excluded(&other("a/.tdmignore"), &none, shown_without));
    assert!(is_excluded(&other("a/.tdmignore"), &named, shown));
    assert!(is_excluded(&other(".x/.tdmignore"), &none, defaults()));
    // A regular file with the name obeys the switch alone.
    assert!(!is_excluded(&file("a/.tdmignore"), &named, shown));
    assert!(!is_excluded(&file(".x/.tdmignore"), &named, defaults()));
    assert!(is_excluded(&file("a/.tdmignore"), &none, shown_without));
}

#[test]
fn listing_holds_relative_paths_and_one_root() {
    assert!(is_valid_listing(&Vec::new()));
    assert!(is_valid_listing(&vec![dir(""), file("a"), dir("b"), file("b/c"), other("b/d")]));
    assert!(!is_valid_listing(&vec![dir(""), file("/a")]));
    assert!(!is_valid_listing(&vec![dir("/")]));
    assert!(!is_valid_listing(&vec![file("")]));
    assert!(!is_valid_listing(&vec![file("a"), other("")]));
}

#[test]
fn selected_paths_can_stand_in_records() {
    let tree = vec![dir(""), file("a"), dir("b"), dir("c"), file("c/d")];
    assert!(is_valid_listing(&tree));
    let selection = walk(&tree, &IgnoreRuleSet::empty(), defaults());
    for entry in selection.files.iter().chain(selection.empty_dirs.iter()) {
        assert!(!entry.path.is_empty());
        assert!(!entry.path.starts_with('/'));
    }
}
