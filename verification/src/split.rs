//! The splitter: one step of reading, which finds the first delimiter line of
//! a text and hands out what stands before it, the name in it and what
//! follows it.

use crate::bytes::{CARRIAGE_RETURN, DASH, NEWLINE, SPACE};
use vstd::prelude::*;

verus! {

/// A line starts at `i` and begins with `-- `.
pub open spec fn opens_at(s: Seq<u8>, i: int) -> bool {
    &&& 0 <= i
    &&& i + 3 <= s.len()
    &&& (i == 0 || s[i - 1] == NEWLINE)
    &&& s[i] == DASH
    &&& s[i + 1] == DASH
    &&& s[i + 2] == SPACE
}

/// The three bytes before `b` are ` --`.
pub open spec fn closes_at(s: Seq<u8>, b: int) -> bool {
    &&& 3 <= b <= s.len()
    &&& s[b - 3] == SPACE
    &&& s[b - 2] == DASH
    &&& s[b - 1] == DASH
}

/// `i` is the first place at which a line begins with `-- `.
pub open spec fn is_first_opening(s: Seq<u8>, i: int) -> bool {
    &&& opens_at(s, i)
    &&& forall|j: int| 0 <= j < i ==> !opens_at(s, j)
}

/// The first place at which a line begins with `-- `, if there is one.
#[verifier::opaque]
pub open spec fn first_opening(s: Seq<u8>) -> Option<int> {
    if exists|i: int| is_first_opening(s, i) {
        Some(choose|i: int| is_first_opening(s, i))
    } else {
        None
    }
}

/// `e` is where the line that holds position `from` ends: at its line feed,
/// or at the end of the text if the line has none.
pub open spec fn is_line_end(s: Seq<u8>, from: int, e: int) -> bool {
    &&& from <= e <= s.len()
    &&& (e == s.len() || s[e] == NEWLINE)
    &&& forall|j: int| from <= j < e ==> s[j] != NEWLINE
}

/// Where the line that holds position `from` ends.
#[verifier::opaque]
pub open spec fn line_end(s: Seq<u8>, from: int) -> int {
    choose|e: int| is_line_end(s, from, e)
}

/// Where the text of the line at `from` ends. A line feed is no part of it,
/// nor is one carriage return before the line feed; the last line of a text,
/// which has no line feed, is taken whole.
pub open spec fn body_end(s: Seq<u8>, from: int) -> int {
    let e = line_end(s, from);
    if from < e < s.len() && s[e - 1] == CARRIAGE_RETURN {
        e - 1
    } else {
        e
    }
}

/// The line at `i` is a delimiter line: it begins with `-- `, its text ends
/// with ` --`, and the two do not overlap.
pub open spec fn delimits_at(s: Seq<u8>, i: int) -> bool {
    &&& opens_at(s, i)
    &&& i + 6 <= body_end(s, i)
    &&& closes_at(s, body_end(s, i))
}

/// What stands after the line that ends at `e`.
pub open spec fn after_line(s: Seq<u8>, e: int) -> Seq<u8> {
    if e < s.len() {
        s.subrange(e + 1, s.len() as int)
    } else {
        Seq::empty()
    }
}

/// One step of reading: the text before the first delimiter line, the name
/// in that line, and the text after it.
///
/// Only the first line that begins with `-- ` is looked at. Where there is
/// none, or where that line is no delimiter line, the whole text is handed
/// out as the first part, with an empty name and nothing after it.
#[verifier::opaque]
pub open spec fn split(s: Seq<u8>) -> (Seq<u8>, Seq<u8>, Seq<u8>) {
    match first_opening(s) {
        Some(i) if delimits_at(s, i) => (
            s.subrange(0, i),
            s.subrange(i + 3, body_end(s, i) - 3),
            after_line(s, line_end(s, i)),
        ),
        _ => (s, Seq::empty(), Seq::empty()),
    }
}

/// The first opening is the one place that `is_first_opening` holds of.
pub proof fn lemma_first_opening(s: Seq<u8>, i: int)
    requires
        is_first_opening(s, i),
    ensures
        first_opening(s) == Some(i),
{
    reveal(first_opening);
    let k = choose|k: int| is_first_opening(s, k);
    assert(is_first_opening(s, k));
    if k < i {
        assert(!opens_at(s, k));
    }
    if i < k {
        assert(!opens_at(s, i));
    }
}

/// Where no line begins with `-- `, there is no first opening.
pub proof fn lemma_no_opening(s: Seq<u8>)
    requires
        forall|i: int| !opens_at(s, i),
    ensures
        first_opening(s) is None,
{
    reveal(first_opening);
}

/// The first opening, where there is one, is a place of which
/// `is_first_opening` holds.
pub proof fn lemma_first_opening_found(s: Seq<u8>)
    ensures
        first_opening(s) matches Some(i) ==> is_first_opening(s, i),
{
    reveal(first_opening);
}

/// Every line ends somewhere, and `line_end` is where.
pub proof fn lemma_line_end_exists(s: Seq<u8>, from: int)
    requires
        0 <= from <= s.len(),
    ensures
        is_line_end(s, from, line_end(s, from)),
    decreases s.len() - from,
{
    reveal(line_end);
    if from == s.len() || s[from] == NEWLINE {
        assert(is_line_end(s, from, from));
    } else {
        lemma_line_end_exists(s, from + 1);
        assert(is_line_end(s, from, line_end(s, from + 1)));
    }
}

/// A line ends at one place only.
pub proof fn lemma_line_end(s: Seq<u8>, from: int, e: int)
    requires
        is_line_end(s, from, e),
    ensures
        line_end(s, from) == e,
{
    reveal(line_end);
    let k = line_end(s, from);
    assert(is_line_end(s, from, k));
    if k < e {
        assert(s[k] != NEWLINE);
    }
    if e < k {
        assert(s[e] != NEWLINE);
    }
}

/// What `split` hands out where it finds a delimiter line: the place `i` of
/// the line, the end `e` of the line and the end `b` of its text lie in this
/// order within the text, and the three parts are cut at them.
pub proof fn lemma_split_found(s: Seq<u8>) -> (at: (int, int, int))
    requires
        first_opening(s) is Some,
        delimits_at(s, first_opening(s)->0),
    ensures
        ({
            let (i, b, e) = at;
            &&& is_first_opening(s, i)
            &&& first_opening(s) == Some(i)
            &&& b == body_end(s, i)
            &&& is_line_end(s, i, e)
            &&& e == line_end(s, i)
            &&& i + 6 <= b <= e <= s.len()
            &&& closes_at(s, b)
            &&& split(s) == (s.subrange(0, i), s.subrange(i + 3, b - 3), after_line(s, e))
        }),
{
    reveal(split);
    let i = first_opening(s)->0;
    lemma_first_opening_found(s);
    lemma_line_end_exists(s, i);
    (i, body_end(s, i), line_end(s, i))
}

/// A step leaves no more text than it was given, and less where it yields
/// a name.
pub proof fn lemma_split_shrinks(s: Seq<u8>)
    ensures
        split(s).2.len() <= s.len(),
        split(s).1.len() > 0 ==> split(s).2.len() < s.len(),
{
    reveal(split);
    if first_opening(s) is Some && delimits_at(s, first_opening(s)->0) {
        let (i, b, e) = lemma_split_found(s);
    }
}

/// Finds the first delimiter line of `s` and hands out the text before it,
/// the name in it and the text after it, each as a part of `s`. Where `s`
/// has no first delimiter line, the first part is `s` and the other two are
/// empty.
pub fn split_file_markers<'a>(s: &'a [u8]) -> (parts: (&'a [u8], &'a [u8], &'a [u8]))
    ensures
        (parts.0@, parts.1@, parts.2@) == split(s@),
{
    proof {
        reveal(split);
    }
    let n = s.len();
    // Look for the first line that begins with the marker.
    let mut i: usize = 0;
    let mut found = false;
    while !found && n - i >= 3
        invariant
            n == s@.len(),
            i <= n,
            forall|j: int| 0 <= j < i ==> !opens_at(s@, j),
            found ==> opens_at(s@, i as int),
        decreases n - i + (if found { 0int } else { 1int }),
    {
        if (i == 0 || s[i - 1] == NEWLINE) && s[i] == DASH && s[i + 1] == DASH && s[i + 2]
            == SPACE {
            found = true;
        } else {
            i = i + 1;
        }
    }
    if !found {
        proof {
            lemma_no_opening(s@);
        }
        return (s, &s[0..0], &s[0..0]);
    }
    proof {
        lemma_first_opening(s@, i as int);
    }
    // See whether that line is closed as a delimiter line has to be.
    let mut e: usize = i + 3;
    while e < n && s[e] != NEWLINE
        invariant
            n == s@.len(),
            i + 3 <= e <= n,
            opens_at(s@, i as int),
            forall|j: int| i <= j < e ==> s@[j] != NEWLINE,
        decreases n - e,
    {
        e = e + 1;
    }
    proof {
        lemma_line_end(s@, i as int, e as int);
    }
    let b: usize = if e < n && s[e - 1] == CARRIAGE_RETURN {
        e - 1
    } else {
        e
    };
    if b - i < 6 || s[b - 3] != SPACE || s[b - 2] != DASH || s[b - 1] != DASH {
        return (s, &s[0..0], &s[0..0]);
    }
    let rest = if e < n {
        &s[e + 1..n]
    } else {
        &s[0..0]
    };
    (&s[0..i], &s[i + 3..b - 3], rest)
}

} // verus!
