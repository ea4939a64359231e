use tdmcli::ignore::{expand_patterns, IgnoreRuleSet, PatternError};

fn patterns_of(contents: &str) -> Vec<String> {
    expand_patterns(contents)
}

fn compiled(contents: &str) -> IgnoreRuleSet {
    match IgnoreRuleSet::compile(contents) {
        Ok(rules) => rules,
        Err(error) => panic!("patterns should compile: {:?}", error),
    }
}

#[test]
fn bare_name_gives_one_pattern() {
    assert_eq!(patterns_of("node_modules"), vec!["node_modules"]);
    assert_eq!(patterns_of("*.log\n"), vec!["*.log"]);
}

#[test]
fn directory_rule_gives_name_and_everything_beneath() {
    assert_eq!(patterns_of("build/"), vec!["build", "build/**"]);
    assert_eq!(patterns_of("a/b/"), vec!["a/b", "a/b/**"]);
}

#[test]
fn directory_rule_with_several_trailing_separators() {
    assert_eq!(patterns_of("build//"), vec!["build", "build//**"]);
}

#[test]
fn path_rule_gives_path_and_everything_beneath() {
    assert_eq!(patterns_of("src/gen"), vec!["src/gen", "src/gen/**"]);
}

#[test]
fn one_leading_separator_is_dropped() {
    assert_eq!(patterns_of("/target"), vec!["target"]);
    assert_eq!(patterns_of("/src/gen"), vec!["src/gen", "src/gen/**"]);
    assert_eq!(patterns_of("/out/"), vec!["out", "out/**"]);
    assert_eq!(patterns_of("//x"), vec!["/x", "/x/**"]);
}

#[test]
fn lone_separator_gives_the_empty_pattern() {
    assert_eq!(patterns_of("/"), vec![""]);
    assert_eq!(patterns_of("//"), vec!["", "/**"]);
}

#[test]
fn blank_lines_and_comments_are_not_rules() {
    assert_eq!(patterns_of(""), Vec::<String>::new());
    assert_eq!(patterns_of("\n\n   \n\t\n"), Vec::<String>::new());
    assert_eq!(patterns_of("# a comment\n   # another\n#"), Vec::<String>::new());
}

#[test]
fn lines_are_trimmed() {
    assert_eq!(patterns_of("  *.log  \r\n\ttarget/ \r\n"), vec!["*.log", "target", "target/**"]);
    assert_eq!(patterns_of("\u{a0}name\u{3000}"), vec!["name"]);
}

#[test]
fn a_comment_sign_inside_a_rule_is_part_of_it() {
    assert_eq!(patterns_of("a#b"), vec!["a#b"]);
}

#[test]
fn rules_keep_the_order_of_their_lines() {
    let contents = "# build output\ntarget/\n\n*.log\n/docs/api\nnode_modules\n";
    assert_eq!(
        patterns_of(contents),
        vec!["target", "target/**", "*.log", "docs/api", "docs/api/**", "node_modules"]
    );
}

#[test]
fn last_rule_needs_no_line_feed() {
    assert_eq!(patterns_of("a\nb"), vec!["a", "b"]);
    assert_eq!(patterns_of("a\nb\n"), vec!["a", "b"]);
}

#[test]
fn non_ascii_rules_are_kept_whole() {
    assert_eq!(patterns_of("données/\nübung/π"), vec!["données", "données/**", "übung/π", "übung/π/**"]);
}

#[test]
fn compile_keeps_the_expanded_patterns() {
    let rules = compiled("target/\n*.log\n");
    assert_eq!(rules.len(), 3);
    assert_eq!(rules.pattern(0), "target");
    assert_eq!(rules.pattern(1), "target/**");
    assert_eq!(rules.pattern(2), "*.log");
}

#[test]
fn bare_name_excludes_the_segment_at_any_depth() {
    let rules = compiled("node_modules\n");
    assert!(rules.matches("node_modules"));
    assert!(rules.matches("a/node_modules"));
    assert!(rules.matches("node_modules/pkg/index.js"));
    assert!(rules.matches("a/b/node_modules/pkg/index.js"));
    assert!(!rules.matches("node_modules_old"));
    assert!(!rules.matches("a/my_node_modules/x"));
    assert!(!rules.matches("src/main.rs"));
}

#[test]
fn directory_rule_excludes_the_directory_and_everything_beneath() {
    let rules = compiled("build/\n");
    assert!(rules.matches("build"));
    assert!(rules.matches("build/out.o"));
    assert!(rules.matches("build/deep/er/out.o"));
    assert!(rules.matches("sub/build/out.o"));
    assert!(!rules.matches("builder"));
    assert!(!rules.matches("src/build.rs"));
}

#[test]
fn directory_rule_is_literal_and_matches_a_file_of_that_name() {
    // The rule stands for the literal name and for what lies beneath it; the
    // kind of the entry plays no part.
    let rules = compiled("build/\n");
    assert!(rules.matches("tools/build"));
}

#[test]
fn wildcard_rule_excludes_by_extension() {
    let rules = compiled("*.log\n");
    assert!(rules.matches("app.log"));
    assert!(rules.matches("logs/app.log"));
    assert!(!rules.matches("app.txt"));
    assert!(!rules.matches("logs"));
}

#[test]
fn path_rule_excludes_the_path_and_everything_beneath() {
    let rules = compiled("src/gen\n");
    assert!(rules.matches("src/gen"));
    assert!(rules.matches("src/gen/a.rs"));
    assert!(rules.matches("src/gen/deep/a.rs"));
    assert!(!rules.matches("src/other"));
    assert!(!rules.matches("gen"));
}

#[test]
fn several_rules_exclude_what_any_of_them_excludes() {
    let rules = compiled("*.tmp\ncache/\n");
    assert!(rules.matches("x.tmp"));
    assert!(rules.matches("cache/x"));
    assert!(!rules.matches("x.txt"));
}

#[test]
fn no_rules_exclude_nothing() {
    let rules = IgnoreRuleSet::empty();
    assert_eq!(rules.len(), 0);
    assert!(!rules.matches("anything"));
    assert!(!rules.matches("a/b/c"));
    assert!(!rules.matches(""));
    let from_text = compiled("# only a comment\n\n");
    assert_eq!(from_text.len(), 0);
    assert!(!from_text.matches("anything"));
}

#[test]
fn empty_segments_do_not_count() {
    let rules = compiled("x\n");
    assert!(rules.matches("a//x"));
    assert!(rules.matches("/x/"));
    assert!(!rules.matches("a//b"));
}

#[test]
fn malformed_pattern_is_an_error() {
    match IgnoreRuleSet::compile("[abc\n") {
        Err(PatternError::InvalidPattern { pattern }) => assert_eq!(pattern, "[abc"),
        other => panic!("expected an invalid pattern, got {:?}", other),
    }
}

#[test]
fn first_malformed_pattern_is_reported() {
    match IgnoreRuleSet::compile("ok\n*.log\n{a,b\n[z\n") {
        Err(PatternError::InvalidPattern { pattern }) => assert_eq!(pattern, "{a,b"),
        other => panic!("expected an invalid pattern, got {:?}", other),
    }
}

#[test]
fn malformed_directory_rule_reports_the_pattern_that_failed() {
    match IgnoreRuleSet::compile("a[/\n") {
        Err(PatternError::InvalidPattern { pattern }) => assert_eq!(pattern, "a["),
        other => panic!("expected an invalid pattern, got {:?}", other),
    }
}

#[test]
fn from_patterns_compiles_a_given_list() {
    let rules = IgnoreRuleSet::from_patterns(vec!["*.rs".to_string(), "docs/**".to_string()]);
    let rules = match rules {
        Ok(rules) => rules,
        Err(error) => panic!("patterns should compile: {:?}", error),
    };
    assert_eq!(rules.len(), 2);
    assert!(rules.matches("main.rs"));
    assert!(rules.matches("docs/a/b"));
    assert!(!rules.matches("docs"));
    assert!(!rules.matches("main.c"));
}

#[test]
fn from_patterns_reports_the_first_malformed_pattern() {
    let rules = IgnoreRuleSet::from_patterns(vec!["a".to_string(), "[".to_string(), "{".to_string()]);
    match rules {
        Err(PatternError::InvalidPattern { pattern }) => assert_eq!(pattern, "["),
        other => panic!("expected an invalid pattern, got {:?}", other),
    }
}

#[test]
fn set_that_grows_too_large_is_refused() {
    let patterns: Vec<String> = (0..30000)
        .map(|i| format!("*[a-z]x{}[0-9a-f][!q]?[a-zA-Z0-9_]*[a-m][n-z]y{}*[0-9]?z*", i, i))
        .collect();
    match IgnoreRuleSet::from_patterns(patterns) {
        Err(PatternError::SetRefused) => {}
        other => panic!("expected the set to be refused, got {:?}", other.map(|rules| rules.len())),
    }
}

#[test]
fn compilation_succeeds_on_well_formed_patterns() {
    for contents in ["", "a\n", "build/\n*.log\nsrc/gen\n", "{a,b}/**/*.[ch]\n", "**\n"] {
        assert!(IgnoreRuleSet::compile(contents).is_ok());
    }
}
