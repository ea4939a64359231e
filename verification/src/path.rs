//! Relative paths as text: their segments, file name and parent.
//!
//! A path is a sequence of characters in which `/` separates segments. Empty
//! segments, as in `a//b` or `a/`, do not count.

use vstd::prelude::*;
use crate::text::{find_char, first_index, lemma_first_index, spans_cover};

verus! {

/// The segments of `path`: the non-empty pieces between separators, in order.
pub open spec fn segments(path: Seq<char>) -> Seq<Seq<char>>
    decreases path.len(),
{
    let k = first_index(path, '/');
    let head = if k > 0 {
        seq![path.take(k)]
    } else {
        seq![]
    };
    if 0 <= k < path.len() {
        head + segments(path.skip(k + 1))
    } else {
        head
    }
}

/// Every segment is a name: it is not empty and holds no separator.
pub proof fn lemma_segments_are_names(path: Seq<char>)
    ensures
        forall|i: int|
            0 <= i < segments(path).len() ==> (#[trigger] segments(path)[i]).len() > 0
                && !segments(path)[i].contains('/'),
    decreases path.len(),
{
    lemma_first_index(path, '/');
    let k = first_index(path, '/');
    let first = path.take(k);
    if first.contains('/') {
        let j = choose|j: int| 0 <= j < first.len() && first[j] == '/';
        assert(path[j] == '/');
    }
    if 0 <= k < path.len() {
        let rest = segments(path.skip(k + 1));
        lemma_segments_are_names(path.skip(k + 1));
        assert forall|i: int| 0 <= i < segments(path).len() implies (#[trigger] segments(path)[i]).len()
            > 0 && !segments(path)[i].contains('/') by {
            if k > 0 {
                if i > 0 {
                    assert(segments(path)[i] == rest[i - 1]);
                }
            } else {
                assert(segments(path)[i] == rest[i]);
            }
        }
    }
}

/// The last segment of `path`, if it has one.
pub open spec fn file_name(path: Seq<char>) -> Option<Seq<char>> {
    if segments(path).len() > 0 {
        Some(segments(path).last())
    } else {
        None
    }
}

/// The index of the last occurrence of `x` in `s`, or -1 where `x` does not
/// occur.
pub open spec fn last_index<T>(s: Seq<T>, x: T) -> int
    decreases s.len(),
{
    if s.len() == 0 {
        -1
    } else if s.last() == x {
        s.len() - 1
    } else {
        last_index(s.drop_last(), x)
    }
}

/// The path of the directory that holds `path`: what stands before the last
/// separator, or the empty path where there is no separator. The empty path
/// itself has no parent.
pub open spec fn parent_of(path: Seq<char>) -> Option<Seq<char>> {
    if path.len() == 0 {
        None
    } else {
        let k = last_index(path, '/');
        if k < 0 {
            Some(Seq::empty())
        } else {
            Some(path.take(k))
        }
    }
}

/// Finds the bounds of the segments of a path.
pub fn segment_spans(chars: &Vec<char>) -> (spans: Vec<(usize, usize)>)
    ensures
        spans_cover(chars@, spans@, segments(chars@)),
{
    let n: usize = chars.len();
    let mut spans: Vec<(usize, usize)> = Vec::new();
    let ghost mut done: Seq<Seq<char>> = Seq::empty();
    let mut pos: usize = 0;
    proof {
        assert(chars@.skip(0) =~= chars@);
    }
    loop
        invariant_except_break
            done + segments(chars@.skip(pos as int)) == segments(chars@),
        invariant
            n == chars@.len(),
            pos <= n,
            spans_cover(chars@, spans@, done),
        ensures
            spans_cover(chars@, spans@, segments(chars@)),
        decreases n - pos,
    {
        let ghost rest = chars@.skip(pos as int);
        let end: usize = find_char(chars, pos, n, '/');
        proof {
            assert(rest =~= chars@.subrange(pos as int, n as int));
            assert(rest.take(end - pos) =~= chars@.subrange(pos as int, end as int));
        }
        if end > pos {
            spans.push((pos, end));
            proof {
                done = done.push(chars@.subrange(pos as int, end as int));
            }
        }
        if end == n {
            proof {
                assert(done =~= segments(chars@));
            }
            break;
        }
        proof {
            assert(rest.skip(end - pos + 1) =~= chars@.skip(end + 1));
            assert(done + segments(chars@.skip(end + 1)) =~= segments(chars@));
        }
        pos = end + 1;
    }
    spans
}

/// Finds the length of the parent of a path, if it has one.
pub fn parent_len(chars: &Vec<char>) -> (r: Option<usize>)
    ensures
        match r {
            Some(k) => k <= chars@.len() && parent_of(chars@) == Some(chars@.take(k as int)),
            None => parent_of(chars@) is None,
        },
{
    if chars.len() == 0 {
        return None;
    }
    let mut k: usize = chars.len();
    proof {
        assert(chars@.take(k as int) =~= chars@);
    }
    while k > 0 && chars[k - 1] != '/'
        invariant
            k <= chars@.len(),
            last_index(chars@, '/') == last_index(chars@.take(k as int), '/'),
        decreases k,
    {
        proof {
            assert(chars@.take(k as int).drop_last() =~= chars@.take(k - 1));
        }
        k = k - 1;
    }
    if k == 0 {
        proof {
            assert(chars@.take(0) =~= Seq::<char>::empty());
        }
        Some(0)
    } else {
        Some(k - 1)
    }
}

} // verus!
