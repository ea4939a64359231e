//! Searching in sequences, and reading the characters of a string.

use vstd::prelude::*;
use vstd::std_specs::iter::IteratorSpec;
use vstd::string::*;

verus! {

/// The index of the first occurrence of `x` in `s`, or `s.len()` where `x`
/// does not occur.
pub open spec fn first_index<T>(s: Seq<T>, x: T) -> int
    decreases s.len(),
{
    if s.len() == 0 {
        0
    } else if s[0] == x {
        0
    } else {
        1 + first_index(s.skip(1), x)
    }
}

/// What `first_index` finds: it stays within the sequence, nothing before it
/// equals `x`, and `x` stands at it unless it is the length.
pub proof fn lemma_first_index<T>(s: Seq<T>, x: T)
    ensures
        0 <= first_index(s, x) <= s.len(),
        forall|j: int| 0 <= j < first_index(s, x) ==> s[j] != x,
        first_index(s, x) < s.len() ==> s[first_index(s, x)] == x,
    decreases s.len(),
{
    if s.len() > 0 && s[0] != x {
        let rest = s.skip(1);
        lemma_first_index(rest, x);
        assert forall|j: int| 0 <= j < first_index(s, x) implies s[j] != x by {
            if j > 0 {
                assert(rest[j - 1] == s[j]);
            }
        }
    }
}

/// An index with the properties of `lemma_first_index` is the first index.
pub proof fn lemma_first_index_unique<T>(s: Seq<T>, x: T, k: int)
    requires
        0 <= k <= s.len(),
        forall|j: int| 0 <= j < k ==> s[j] != x,
        k < s.len() ==> s[k] == x,
    ensures
        first_index(s, x) == k,
{
    lemma_first_index(s, x);
    let f = first_index(s, x);
    if f < k {
        assert(s[f] == x);
    } else if k < f {
        assert(s[k] == x);
    }
}

/// Whether `spans` are the bounds, within `s`, of the pieces `pieces`.
pub open spec fn spans_cover<T>(s: Seq<T>, spans: Seq<(usize, usize)>, pieces: Seq<Seq<T>>) -> bool {
    &&& spans.len() == pieces.len()
    &&& forall|i: int|
        0 <= i < spans.len() ==> {
            &&& (#[trigger] spans[i]).0 <= spans[i].1 <= s.len()
            &&& s.subrange(spans[i].0 as int, spans[i].1 as int) == pieces[i]
        }
}

/// Whether `s` begins with `prefix`.
pub open spec fn has_prefix<T>(s: Seq<T>, prefix: Seq<T>) -> bool {
    prefix.len() <= s.len() && s.take(prefix.len() as int) == prefix
}

/// Finds the first occurrence of `x` in `bytes[from..to]`, or `to` where there
/// is none.
pub fn find_byte(bytes: &[u8], from: usize, to: usize, x: u8) -> (at: usize)
    requires
        from <= to <= bytes@.len(),
    ensures
        from <= at <= to,
        at - from == first_index(bytes@.subrange(from as int, to as int), x),
{
    let mut at: usize = from;
    while at < to && bytes[at] != x
        invariant
            from <= at <= to <= bytes@.len(),
            forall|j: int| from <= j < at ==> bytes@[j] != x,
        decreases to - at,
    {
        at = at + 1;
    }
    proof {
        lemma_first_index_unique(bytes@.subrange(from as int, to as int), x, at - from);
    }
    at
}

/// Tells whether `bytes[from..to]` begins with `prefix`.
pub fn span_has_prefix(bytes: &[u8], from: usize, to: usize, prefix: &[u8]) -> (r: bool)
    requires
        from <= to <= bytes@.len(),
    ensures
        r == has_prefix(bytes@.subrange(from as int, to as int), prefix@),
{
    let ghost s = bytes@.subrange(from as int, to as int);
    if to - from < prefix.len() {
        return false;
    }
    let mut i: usize = 0;
    while i < prefix.len()
        invariant
            from <= to <= bytes@.len(),
            prefix@.len() <= to - from,
            i <= prefix@.len(),
            s == bytes@.subrange(from as int, to as int),
            forall|j: int| 0 <= j < i ==> bytes@[from + j] == prefix@[j],
        decreases prefix@.len() - i,
    {
        if bytes[from + i] != prefix[i] {
            proof {
                assert(s.take(prefix@.len() as int)[i as int] == bytes@[from + i]);
            }
            return false;
        }
        i = i + 1;
    }
    proof {
        assert(s.take(prefix@.len() as int) =~= prefix@);
    }
    true
}

/// Tells whether `bytes[from..to]` equals `word`.
pub fn span_equals(bytes: &[u8], from: usize, to: usize, word: &[u8]) -> (r: bool)
    requires
        from <= to <= bytes@.len(),
    ensures
        r == (bytes@.subrange(from as int, to as int) == word@),
{
    let ghost s = bytes@.subrange(from as int, to as int);
    if to - from != word.len() {
        return false;
    }
    proof {
        assert(s.take(word@.len() as int) =~= s);
    }
    span_has_prefix(bytes, from, to, word)
}

/// Copies `bytes[from..to]`.
pub fn copy_span(bytes: &[u8], from: usize, to: usize) -> (copy: Vec<u8>)
    requires
        from <= to <= bytes@.len(),
    ensures
        copy@ == bytes@.subrange(from as int, to as int),
{
    vstd::slice::slice_to_vec(vstd::slice::slice_subrange(bytes, from, to))
}

/// Finds the first occurrence of `x` in `chars[from..to]`, or `to` where there
/// is none.
pub fn find_char(chars: &Vec<char>, from: usize, to: usize, x: char) -> (at: usize)
    requires
        from <= to <= chars@.len(),
    ensures
        from <= at <= to,
        at - from == first_index(chars@.subrange(from as int, to as int), x),
{
    let mut at: usize = from;
    while at < to && chars[at] != x
        invariant
            from <= at <= to <= chars@.len(),
            forall|j: int| from <= j < at ==> chars@[j] != x,
        decreases to - at,
    {
        at = at + 1;
    }
    proof {
        lemma_first_index_unique(chars@.subrange(from as int, to as int), x, at - from);
    }
    at
}

/// Tells whether `chars[from..to]` begins with `prefix`.
pub fn chars_have_prefix(chars: &Vec<char>, from: usize, to: usize, prefix: &Vec<char>) -> (r: bool)
    requires
        from <= to <= chars@.len(),
    ensures
        r == has_prefix(chars@.subrange(from as int, to as int), prefix@),
{
    let ghost s = chars@.subrange(from as int, to as int);
    if to - from < prefix.len() {
        return false;
    }
    let mut i: usize = 0;
    while i < prefix.len()
        invariant
            from <= to <= chars@.len(),
            prefix@.len() <= to - from,
            i <= prefix@.len(),
            s == chars@.subrange(from as int, to as int),
            forall|j: int| 0 <= j < i ==> chars@[from + j] == prefix@[j],
        decreases prefix@.len() - i,
    {
        if chars[from + i] != prefix[i] {
            proof {
                assert(s.take(prefix@.len() as int)[i as int] == chars@[from + i]);
            }
            return false;
        }
        i = i + 1;
    }
    proof {
        assert(s.take(prefix@.len() as int) =~= prefix@);
    }
    true
}

/// Tells whether `chars[from..to]` equals `word`.
pub fn chars_equal(chars: &Vec<char>, from: usize, to: usize, word: &Vec<char>) -> (r: bool)
    requires
        from <= to <= chars@.len(),
    ensures
        r == (chars@.subrange(from as int, to as int) == word@),
{
    let ghost s = chars@.subrange(from as int, to as int);
    if to - from != word.len() {
        return false;
    }
    proof {
        assert(s.take(word@.len() as int) =~= s);
    }
    chars_have_prefix(chars, from, to, word)
}

/// Reads the characters of `s` into a vector.
pub fn chars_of(s: &str) -> (chars: Vec<char>)
    ensures
        chars@ == s@,
{
    broadcast use group_string_axioms;

    let mut it = s.chars();
    let mut chars: Vec<char> = Vec::new();
    loop
        invariant
            it.decrease() is Some,
            chars@ + it.remaining() == s@,
        ensures
            chars@ == s@,
        decreases it.decrease()->0,
    {
        match it.next() {
            Some(c) => {
                chars.push(c);
                assert(chars@ + it.remaining() =~= s@);
            },
            None => {
                assert(chars@ + it.remaining() =~= chars@);
                break;
            },
        }
    }
    chars
}

/// What is left of `s` after the longest prefix of items that satisfy `p`.
pub open spec fn drop_leading<T>(s: Seq<T>, p: spec_fn(T) -> bool) -> Seq<T>
    decreases s.len(),
{
    if s.len() > 0 && p(s[0]) {
        drop_leading(s.skip(1), p)
    } else {
        s
    }
}

/// What is left of `s` after the longest suffix of items that satisfy `p`.
pub open spec fn drop_trailing<T>(s: Seq<T>, p: spec_fn(T) -> bool) -> Seq<T>
    decreases s.len(),
{
    if s.len() > 0 && p(s.last()) {
        drop_trailing(s.drop_last(), p)
    } else {
        s
    }
}

/// `drop_leading` cuts at the first item that does not satisfy `p`.
pub proof fn lemma_drop_leading<T>(s: Seq<T>, p: spec_fn(T) -> bool, a: int)
    requires
        0 <= a <= s.len(),
        forall|j: int| 0 <= j < a ==> p(#[trigger] s[j]),
        a < s.len() ==> !p(s[a]),
    ensures
        drop_leading(s, p) == s.skip(a),
    decreases a,
{
    if a == 0 {
        assert(s.skip(0) =~= s);
    } else {
        let rest = s.skip(1);
        assert(p(s[0]));
        assert forall|j: int| 0 <= j < a - 1 implies p(#[trigger] rest[j]) by {
            assert(rest[j] == s[j + 1]);
        }
        lemma_drop_leading(rest, p, a - 1);
        assert(rest.skip(a - 1) =~= s.skip(a));
    }
}

/// `drop_trailing` cuts after the last item that does not satisfy `p`.
pub proof fn lemma_drop_trailing<T>(s: Seq<T>, p: spec_fn(T) -> bool, b: int)
    requires
        0 <= b <= s.len(),
        forall|j: int| b <= j < s.len() ==> p(#[trigger] s[j]),
        b > 0 ==> !p(s[b - 1]),
    ensures
        drop_trailing(s, p) == s.take(b),
    decreases s.len() - b,
{
    if b == s.len() {
        assert(s.take(b) =~= s);
    } else {
        let rest = s.drop_last();
        assert(p(s[s.len() - 1]));
        assert forall|j: int| b <= j < rest.len() implies p(#[trigger] rest[j]) by {
            assert(rest[j] == s[j]);
        }
        lemma_drop_trailing(rest, p, b);
        assert(rest.take(b) =~= s.take(b));
    }
}

/// Whether `c` is white space: one of the characters with the Unicode
/// property `White_Space`.
pub open spec fn is_space(c: char) -> bool {
    let n = c as u32;
    ||| 0x09 <= n <= 0x0d
    ||| n == 0x20
    ||| n == 0x85
    ||| n == 0xa0
    ||| n == 0x1680
    ||| 0x2000 <= n <= 0x200a
    ||| n == 0x2028
    ||| n == 0x2029
    ||| n == 0x202f
    ||| n == 0x205f
    ||| n == 0x3000
}

/// The predicate of `is_space`, as a value.
pub open spec fn space() -> spec_fn(char) -> bool {
    |c: char| is_space(c)
}

/// `s` without the white space at its two ends.
pub open spec fn trim(s: Seq<char>) -> Seq<char> {
    drop_trailing(drop_leading(s, space()), space())
}

/// Tells whether `c` is white space.
pub fn char_is_space(c: char) -> (r: bool)
    ensures
        r == is_space(c),
{
    let n: u32 = c as u32;
    (0x09 <= n && n <= 0x0d) || n == 0x20 || n == 0x85 || n == 0xa0 || n == 0x1680 || (0x2000 <= n
        && n <= 0x200a) || n == 0x2028 || n == 0x2029 || n == 0x202f || n == 0x205f || n == 0x3000
}

/// Finds the bounds of `chars[start..end]` without the white space at its two
/// ends.
pub fn trim_bounds(chars: &Vec<char>, start: usize, end: usize) -> (r: (usize, usize))
    requires
        start <= end <= chars@.len(),
    ensures
        start <= r.0 <= r.1 <= end,
        chars@.subrange(r.0 as int, r.1 as int) == trim(chars@.subrange(start as int, end as int)),
{
    let ghost line = chars@.subrange(start as int, end as int);
    let mut a: usize = start;
    while a < end && char_is_space(chars[a])
        invariant
            start <= a <= end <= chars@.len(),
            forall|j: int| start <= j < a ==> is_space(chars@[j]),
        decreases end - a,
    {
        a = a + 1;
    }
    let mut b: usize = end;
    while b > a && char_is_space(chars[b - 1])
        invariant
            a <= b <= end <= chars@.len(),
            forall|j: int| b <= j < end ==> is_space(chars@[j]),
        decreases b,
    {
        b = b - 1;
    }
    proof {
        let p = space();
        assert forall|j: int| 0 <= j < a - start implies p(#[trigger] line[j]) by {
            assert(line[j] == chars@[start + j]);
        }
        lemma_drop_leading(line, p, a - start);
        let rest = line.skip(a - start);
        assert(rest =~= chars@.subrange(a as int, end as int));
        assert forall|j: int| b - a <= j < rest.len() implies p(#[trigger] rest[j]) by {
            assert(rest[j] == chars@[a + j]);
        }
        lemma_drop_trailing(rest, p, b - a);
        assert(rest.take(b - a) =~= chars@.subrange(a as int, b as int));
    }
    (a, b)
}

} // verus!
