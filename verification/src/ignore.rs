//! Ignore rules: the patterns that an ignore file stands for, their
//! compilation into a glob set, and matching of relative paths against them.

use vstd::prelude::*;
use vstd::string::*;
use crate::path::{segment_spans, segments};
use crate::text::{
    chars_of, drop_trailing, find_char, first_index, lemma_drop_trailing, lemma_first_index,
    spans_cover, trim, trim_bounds,
};

verus! {

/// `globset::GlobSet`, a set of compiled globs. Nothing is known of what is
/// inside a value but what `set_globs` names.
#[verifier::external_type_specification]
#[verifier::external_body]
pub struct ExGlobSet(globset::GlobSet);

/// `globset::GlobSetBuilder`, the list of globs that a set is built from.
/// Nothing is known of what is inside a value but what `builder_globs` names.
#[verifier::external_type_specification]
#[verifier::external_body]
pub struct ExGlobSetBuilder(globset::GlobSetBuilder);

/// `globset::Error`, the error of a glob that does not parse or a set that
/// cannot be built. It is only told apart from success.
#[verifier::external_type_specification]
#[verifier::external_body]
pub struct ExGlobError(globset::Error);

/// Whether `globset` accepts `pattern` as a glob with default options:
/// whether `globset::Glob::new` succeeds on it. The default options are those
/// of the platform that the crate is built for.
pub uninterp spec fn glob_is_valid(pattern: Seq<char>) -> bool;

/// Whether the glob written as `pattern`, with default options, matches the
/// whole of `candidate`, as `globset` decides it on the platform that the
/// crate is built for.
pub uninterp spec fn glob_matches(pattern: Seq<char>, candidate: Seq<char>) -> bool;

/// Whether `globset` builds a set of the globs written as `patterns`, with
/// default options: whether `globset::GlobSetBuilder::build` succeeds on a
/// builder that holds them, on the platform that the crate is built for.
pub uninterp spec fn set_builds(patterns: Seq<Seq<char>>) -> bool;

/// The patterns of the globs that a builder holds, in the order they were
/// added.
pub uninterp spec fn builder_globs(builder: globset::GlobSetBuilder) -> Seq<Seq<char>>;

/// The patterns of the globs that a set was built from, in order.
pub uninterp spec fn set_globs(set: globset::GlobSet) -> Seq<Seq<char>>;

/// Whether some pattern of `patterns` matches the whole of `candidate`.
pub open spec fn any_glob_matches(patterns: Seq<Seq<char>>, candidate: Seq<char>) -> bool {
    exists|i: int| 0 <= i < patterns.len() && #[trigger] glob_matches(patterns[i], candidate)
}

/// The predicate "is the separator `/`", as a value.
pub open spec fn separator() -> spec_fn(char) -> bool {
    |c: char| c == '/'
}

/// The patterns that one line of an ignore file stands for.
///
/// A line that is blank once trimmed, or whose first character is then `#`,
/// stands for none. Otherwise one leading separator is dropped. A rule that
/// ends in a separator names a directory: it gives the rule without its
/// trailing separators, and the rule followed by `**`. Any other rule that
/// holds a separator gives the rule itself and the rule followed by `/**`. A
/// bare name gives itself.
pub open spec fn rule_patterns(line: Seq<char>) -> Seq<Seq<char>> {
    let rule = trim(line);
    if rule.len() == 0 || rule[0] == '#' {
        seq![]
    } else {
        let pattern = if rule[0] == '/' {
            rule.skip(1)
        } else {
            rule
        };
        if pattern.len() > 0 && pattern.last() == '/' {
            seq![drop_trailing(pattern, separator()), pattern + seq!['*', '*']]
        } else if pattern.contains('/') {
            seq![pattern, pattern + seq!['/', '*', '*']]
        } else {
            seq![pattern]
        }
    }
}

/// The patterns that the text of an ignore file stands for: those of its
/// lines, in order. Lines end at a line feed.
pub open spec fn expand_rules(text: Seq<char>) -> Seq<Seq<char>>
    decreases text.len(),
{
    let k = first_index(text, '\n');
    if 0 <= k < text.len() {
        rule_patterns(text.take(k)) + expand_rules(text.skip(k + 1))
    } else {
        rule_patterns(text)
    }
}

/// Whether the rules with these patterns exclude `path`: some pattern matches
/// the whole path, or some pattern matches one of its segments.
pub open spec fn rules_match(patterns: Seq<Seq<char>>, path: Seq<char>) -> bool {
    ||| any_glob_matches(patterns, path)
    ||| exists|k: int|
        0 <= k < segments(path).len() && any_glob_matches(patterns, #[trigger] segments(path)[k])
}

/// Calls `globset::GlobSetBuilder::new`. A new builder holds no glob.
#[verifier::external_body]
fn new_builder() -> (builder: globset::GlobSetBuilder)
    ensures
        builder_globs(builder) == Seq::<Seq<char>>::empty(),
{
    globset::GlobSetBuilder::new()
}

/// Calls `globset::Glob::new` on `pattern` and, where that succeeds, hands the
/// glob to `globset::GlobSetBuilder::add`. The pattern is appended to the
/// builder exactly when it parses; a pattern that does not parse leaves the
/// builder as it was.
#[verifier::external_body]
fn add_glob(builder: &mut globset::GlobSetBuilder, pattern: &str) -> (r: Result<(), globset::Error>)
    ensures
        r is Ok <==> glob_is_valid(pattern@),
        r is Ok ==> builder_globs(*final(builder)) == builder_globs(*old(builder)).push(pattern@),
        r is Err ==> builder_globs(*final(builder)) == builder_globs(*old(builder)),
{
    builder.add(globset::Glob::new(pattern)?);
    Ok(())
}

/// Calls `globset::GlobSetBuilder::build`. Whether a set is built depends on
/// the builder's globs alone; a set that was built holds the builder's globs,
/// and a builder without globs always builds.
#[verifier::external_body]
fn build_set(builder: &globset::GlobSetBuilder) -> (r: Result<globset::GlobSet, globset::Error>)
    ensures
        r is Ok <==> set_builds(builder_globs(*builder)),
        r matches Ok(set) ==> set_globs(set) == builder_globs(*builder),
        builder_globs(*builder).len() == 0 ==> r is Ok,
{
    builder.build()
}

/// Calls `globset::GlobSet::is_match`: true exactly when some glob of the set
/// matches the candidate.
#[verifier::external_body]
fn set_is_match(set: &globset::GlobSet, candidate: &str) -> (r: bool)
    ensures
        r == (exists|i: int|
            0 <= i < set_globs(*set).len() && #[trigger] glob_matches(set_globs(*set)[i], candidate@)),
{
    set.is_match(candidate)
}

/// Why a list of patterns could not be compiled.
#[derive(Debug)]
pub enum PatternError {
    /// A pattern is not a well-formed glob.
    InvalidPattern {
        /// The first pattern that is not well-formed.
        pattern: String,
    },
    /// Every pattern is well-formed, but no set can be built of them
    /// together.
    SetRefused,
}

/// The views of a vector of strings.
pub open spec fn views(strings: Seq<String>) -> Seq<Seq<char>> {
    strings.map_values(|s: String| s@)
}

/// Whether every pattern is a well-formed glob.
pub open spec fn all_valid(patterns: Seq<Seq<char>>) -> bool {
    forall|i: int| 0 <= i < patterns.len() ==> glob_is_valid(#[trigger] patterns[i])
}

/// Appends `text` to `out`.
fn push_text(out: &mut Vec<String>, text: String)
    ensures
        views(final(out)@) == views(old(out)@).push(text@),
{
    out.push(text);
    assert(views(out@) =~= views(old(out)@).push(text@));
}

/// Appends to `out` the patterns that the line `chars[start..end]` stands for.
fn push_rule_patterns(contents: &str, chars: &Vec<char>, start: usize, end: usize, out: &mut Vec<String>)
    requires
        chars@ == contents@,
        start <= end <= chars@.len(),
    ensures
        views(final(out)@) == views(old(out)@) + rule_patterns(chars@.subrange(start as int, end as int)),
{
    let ghost line = chars@.subrange(start as int, end as int);
    let (a, b) = trim_bounds(chars, start, end);
    let ghost rule = chars@.subrange(a as int, b as int);
    if a == b || chars[a] == '#' {
        proof {
            assert(rule.len() > 0 ==> rule[0] == chars@[a as int]);
            assert(views(out@) + rule_patterns(line) =~= views(out@));
        }
        return ;
    }
    let p: usize = if chars[a] == '/' {
        a + 1
    } else {
        a
    };
    let ghost pattern = chars@.subrange(p as int, b as int);
    proof {
        assert(rule[0] == chars@[a as int]);
        assert(rule.skip(1) =~= chars@.subrange(a + 1, b as int));
        assert(rule.skip(0) =~= rule);
        assert(pattern.len() > 0 ==> pattern.last() == chars@[b - 1]);
    }
    if p < b && chars[b - 1] == '/' {
        let mut e: usize = b;
        while e > p && chars[e - 1] == '/'
            invariant
                p <= e <= b <= chars@.len(),
                forall|j: int| e <= j < b ==> chars@[j] == '/',
            decreases e,
        {
            e = e - 1;
        }
        proof {
            let is_sep = separator();
            assert forall|j: int| e - p <= j < pattern.len() implies is_sep(#[trigger] pattern[j]) by {
                assert(pattern[j] == chars@[p + j]);
            }
            assert(e > p ==> pattern[e - p - 1] == chars@[e - 1]);
            lemma_drop_trailing(pattern, is_sep, e - p);
            assert(pattern.take(e - p) =~= chars@.subrange(p as int, e as int));
            reveal_strlit("**");
            assert("**"@ =~= seq!['*', '*']);
        }
        let name = String::from_str(contents.substring_char(p, e));
        let mut beneath = String::from_str(contents.substring_char(p, b));
        beneath.append("**");
        push_text(out, name);
        push_text(out, beneath);
        proof {
            assert(views(out@) =~= views(old(out)@) + rule_patterns(line));
        }
    } else {
        let at: usize = find_char(chars, p, b, '/');
        proof {
            lemma_first_index(pattern, '/');
            if at < b {
                assert(pattern[at - p] == '/');
            }
        }
        let whole = String::from_str(contents.substring_char(p, b));
        if at < b {
            proof {
                reveal_strlit("/**");
                assert("/**"@ =~= seq!['/', '*', '*']);
            }
            let mut beneath = String::from_str(contents.substring_char(p, b));
            beneath.append("/**");
            push_text(out, whole);
            push_text(out, beneath);
        } else {
            push_text(out, whole);
        }
        proof {
            assert(views(out@) =~= views(old(out)@) + rule_patterns(line));
        }
    }
}

/// Lists the patterns that the text of an ignore file stands for.
pub fn expand_patterns(contents: &str) -> (patterns: Vec<String>)
    ensures
        views(patterns@) == expand_rules(contents@),
{
    let chars = chars_of(contents);
    let n: usize = chars.len();
    let mut patterns: Vec<String> = Vec::new();
    let mut start: usize = 0;
    proof {
        assert(chars@.skip(0) =~= chars@);
        assert(views(patterns@) + expand_rules(chars@) =~= expand_rules(chars@));
    }
    loop
        invariant_except_break
            views(patterns@) + expand_rules(chars@.skip(start as int)) == expand_rules(chars@),
        invariant
            chars@ == contents@,
            n == chars@.len(),
            start <= n,
        ensures
            views(patterns@) == expand_rules(chars@),
        decreases n - start,
    {
        let ghost rest = chars@.skip(start as int);
        let ghost before = views(patterns@);
        let end: usize = find_char(&chars, start, n, '\n');
        proof {
            assert(rest =~= chars@.subrange(start as int, n as int));
            assert(rest.take(end - start) =~= chars@.subrange(start as int, end as int));
        }
        push_rule_patterns(contents, &chars, start, end, &mut patterns);
        if end == n {
            break ;
        }
        proof {
            assert(rest.skip(end - start + 1) =~= chars@.skip(end + 1));
            assert(views(patterns@) + expand_rules(chars@.skip(end + 1)) =~= before + expand_rules(rest));
        }
        start = end + 1;
    }
    patterns
}

/// Whether `pattern` is the first of `patterns` that is not a well-formed
/// glob.
pub open spec fn is_first_invalid(patterns: Seq<Seq<char>>, pattern: Seq<char>) -> bool {
    exists|i: int|
        0 <= i < patterns.len() && #[trigger] patterns[i] == pattern && !glob_is_valid(pattern)
            && all_valid(patterns.take(i))
}

/// A compiled set of ignore patterns.
#[derive(Debug)]
pub struct IgnoreRuleSet {
    patterns: Vec<String>,
    set: globset::GlobSet,
}

impl IgnoreRuleSet {
    #[verifier::type_invariant]
    spec fn well_formed(&self) -> bool {
        set_globs(self.set) == views(self.patterns@)
    }

    /// The patterns of the set, in order.
    pub closed spec fn patterns(&self) -> Seq<Seq<char>> {
        views(self.patterns@)
    }

    /// Compiles `patterns` into a rule set. This succeeds exactly when every
    /// pattern is a well-formed glob and a set can be built of them; a list
    /// without patterns always compiles. Otherwise the first pattern that is
    /// not well-formed is reported, or that the set is refused.
    pub fn from_patterns(patterns: Vec<String>) -> (r: Result<IgnoreRuleSet, PatternError>)
        ensures
            r is Ok <==> all_valid(views(patterns@)) && set_builds(views(patterns@)),
            patterns@.len() == 0 ==> r is Ok,
            match r {
                Ok(rules) => rules.patterns() == views(patterns@),
                Err(PatternError::InvalidPattern { pattern }) => is_first_invalid(
                    views(patterns@),
                    pattern@,
                ),
                Err(PatternError::SetRefused) => all_valid(views(patterns@)) && !set_builds(
                    views(patterns@),
                ),
            },
    {
        let mut builder = new_builder();
        let mut i: usize = 0;
        while i < patterns.len()
            invariant
                i <= patterns@.len(),
                builder_globs(builder) == views(patterns@).take(i as int),
                all_valid(views(patterns@).take(i as int)),
            decreases patterns@.len() - i,
        {
            let added = add_glob(&mut builder, patterns[i].as_str());
            match added {
                Ok(()) => {
                    assert(views(patterns@).take(i as int).push(patterns@[i as int]@) =~= views(
                        patterns@,
                    ).take(i + 1));
                },
                Err(_) => {
                    let pattern = patterns[i].clone();
                    assert(views(patterns@)[i as int] == pattern@);
                    return Err(PatternError::InvalidPattern { pattern });
                },
            }
            i = i + 1;
        }
        assert(views(patterns@).take(i as int) =~= views(patterns@));
        let built = build_set(&builder);
        IgnoreRuleSet::assemble(patterns, built)
    }

    /// Makes a rule set of `patterns` and of what building their set gave: the
    /// rule set where a set was built, and an error where it was refused.
    fn assemble(patterns: Vec<String>, built: Result<globset::GlobSet, globset::Error>) -> (r: Result<
        IgnoreRuleSet,
        PatternError,
    >)
        requires
            built matches Ok(set) ==> set_globs(set) == views(patterns@),
        ensures
            match built {
                Ok(_) => r matches Ok(rules) && rules.patterns() == views(patterns@),
                Err(_) => r matches Err(PatternError::SetRefused),
            },
    {
        match built {
            Ok(set) => Ok(IgnoreRuleSet { patterns, set }),
            Err(_) => Err(PatternError::SetRefused),
        }
    }

    /// Compiles the text of an ignore file: the patterns that its lines stand
    /// for, in order. This succeeds exactly when every pattern is a well-formed
    /// glob and a set can be built of them; a text without rules always
    /// compiles. A pattern that is not a well-formed glob is an error, and the
    /// first such pattern is reported.
    pub fn compile(contents: &str) -> (r: Result<IgnoreRuleSet, PatternError>)
        ensures
            r is Ok <==> all_valid(expand_rules(contents@)) && set_builds(expand_rules(contents@)),
            expand_rules(contents@).len() == 0 ==> r is Ok,
            match r {
                Ok(rules) => rules.patterns() == expand_rules(contents@),
                Err(PatternError::InvalidPattern { pattern }) => is_first_invalid(
                    expand_rules(contents@),
                    pattern@,
                ),
                Err(PatternError::SetRefused) => all_valid(expand_rules(contents@)) && !set_builds(
                    expand_rules(contents@),
                ),
            },
    {
        IgnoreRuleSet::from_patterns(expand_patterns(contents))
    }

    /// The rule set without rules, which excludes nothing.
    pub fn empty() -> (rules: IgnoreRuleSet)
        ensures
            rules.patterns() == Seq::<Seq<char>>::empty(),
    {
        let patterns: Vec<String> = Vec::new();
        assert(views(patterns@) =~= Seq::<Seq<char>>::empty());
        match IgnoreRuleSet::from_patterns(patterns) {
            Ok(rules) => rules,
            Err(_) => {
                assert(false);
                vstd::pervasive::unreached()
            },
        }
    }

    /// The number of patterns.
    pub fn len(&self) -> (n: usize)
        ensures
            n == self.patterns().len(),
    {
        self.patterns.len()
    }

    /// The pattern at `index`.
    pub fn pattern(&self, index: usize) -> (pattern: &String)
        requires
            index < self.patterns().len(),
        ensures
            pattern@ == self.patterns()[index as int],
    {
        &self.patterns[index]
    }

    /// Tells whether the rules exclude the relative path `path`: whether some
    /// pattern matches the whole path or one of its segments.
    pub fn matches(&self, path: &str) -> (r: bool)
        ensures
            r == rules_match(self.patterns(), path@),
    {
        proof {
            use_type_invariant(self);
        }
        if set_is_match(&self.set, path) {
            return true;
        }
        let chars = chars_of(path);
        let spans = segment_spans(&chars);
        let mut k: usize = 0;
        while k < spans.len()
            invariant
                chars@ == path@,
                spans_cover(chars@, spans@, segments(chars@)),
                set_globs(self.set) == self.patterns(),
                k <= spans@.len(),
                forall|j: int|
                    0 <= j < k ==> !any_glob_matches(self.patterns(), #[trigger] segments(path@)[j]),
            decreases spans@.len() - k,
        {
            let (a, b) = spans[k];
            let segment = path.substring_char(a, b);
            if set_is_match(&self.set, segment) {
                assert(any_glob_matches(self.patterns(), segments(path@)[k as int]));
                return true;
            }
            k = k + 1;
        }
        false
    }
}

/// A pattern that matches a segment of a path excludes the path, at whatever
/// depth the segment stands.
pub proof fn lemma_segment_match_excludes(patterns: Seq<Seq<char>>, path: Seq<char>, k: int)
    requires
        0 <= k < segments(path).len(),
        any_glob_matches(patterns, segments(path)[k]),
    ensures
        rules_match(patterns, path),
{
}

/// Without patterns no path is excluded.
pub proof fn lemma_no_patterns_match_nothing(path: Seq<char>)
    ensures
        !rules_match(Seq::<Seq<char>>::empty(), path),
{
}

/// More patterns exclude at least as much: a path that some patterns exclude
/// stays excluded when patterns are added.
pub proof fn lemma_more_patterns_exclude_more(patterns: Seq<Seq<char>>, more: Seq<Seq<char>>, path: Seq<char>)
    requires
        rules_match(patterns, path),
    ensures
        rules_match(patterns + more, path),
{
    let all = patterns + more;
    assert forall|candidate: Seq<char>| any_glob_matches(patterns, candidate) implies any_glob_matches(
        all,
        candidate,
    ) by {
        let i = choose|i: int| 0 <= i < patterns.len() && #[trigger] glob_matches(patterns[i], candidate);
        assert(all[i] == patterns[i]);
        assert(glob_matches(all[i], candidate));
    }
    if !any_glob_matches(patterns, path) {
        let k = choose|k: int|
            0 <= k < segments(path).len() && any_glob_matches(patterns, #[trigger] segments(path)[k]);
        assert(any_glob_matches(all, segments(path)[k]));
    }
}

} // verus!
