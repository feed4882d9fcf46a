//! Archives whose bytes are UTF-8: reading a text that is UTF-8 yields one.
//!
//! The format is cut at bytes below 128 only, and such a byte is a whole
//! character wherever it stands in UTF-8.

use crate::bytes::{normalized, NEWLINE};
use crate::model::{ArchiveView, FileView};
use crate::parse::{parse, parse_files};
use crate::split::{lemma_split_found, lemma_split_shrinks, split};
use vstd::prelude::*;
use vstd::utf8::{
    is_char_boundary_iff_not_is_continuation_byte, valid_utf8, valid_utf8_concat,
    valid_utf8_split,
};

verus! {

/// The comment of the archive, and the name and the content of each of its
/// files, are UTF-8.
pub open spec fn is_utf8(archive: ArchiveView) -> bool {
    &&& valid_utf8(archive.comment)
    &&& forall|i: int|
        0 <= i < archive.files.len() ==> valid_utf8((#[trigger] archive.files[i]).name)
            && valid_utf8(archive.files[i].data)
}

/// A place at which UTF-8 can be cut: an end of the text, or a place next
/// to a byte below 128.
pub open spec fn is_cut(s: Seq<u8>, k: int) -> bool {
    &&& 0 <= k <= s.len()
    &&& (k == 0 || k == s.len() || s[k] < 128 || s[k - 1] < 128)
}

/// A single byte below 128 is UTF-8.
proof fn lemma_ascii_byte(b: u8)
    requires
        b < 128,
    ensures
        valid_utf8(seq![b]),
{
    let s = seq![b];
    assert(s.subrange(1, s.len() as int) =~= Seq::<u8>::empty());
    reveal_with_fuel(valid_utf8, 2);
}

/// The text from a cut on is UTF-8.
proof fn lemma_after_cut(s: Seq<u8>, k: int)
    requires
        valid_utf8(s),
        is_cut(s, k),
    ensures
        valid_utf8(s.subrange(k, s.len() as int)),
{
    let len = s.len() as int;
    if k == 0 {
        assert(s.subrange(0, len) =~= s);
    } else if k == len {
        assert(s.subrange(k, len) =~= Seq::<u8>::empty());
    } else if s[k] < 128 {
        is_char_boundary_iff_not_is_continuation_byte(s, k);
        valid_utf8_split(s, k);
    } else {
        // The byte before the cut is a character of its own, and the text
        // from that byte on is UTF-8.
        is_char_boundary_iff_not_is_continuation_byte(s, k - 1);
        valid_utf8_split(s, k - 1);
        let tail = s.subrange(k - 1, len);
        assert(tail[0] == s[k - 1]);
        assert(tail.subrange(1, tail.len() as int) =~= s.subrange(k, len));
    }
}

/// The text up to a cut is UTF-8.
proof fn lemma_before_cut(s: Seq<u8>, k: int)
    requires
        valid_utf8(s),
        is_cut(s, k),
    ensures
        valid_utf8(s.subrange(0, k)),
{
    let len = s.len() as int;
    if k == 0 {
        assert(s.subrange(0, 0) =~= Seq::<u8>::empty());
    } else if k == len {
        assert(s.subrange(0, len) =~= s);
    } else if s[k] < 128 {
        is_char_boundary_iff_not_is_continuation_byte(s, k);
        valid_utf8_split(s, k);
    } else {
        is_char_boundary_iff_not_is_continuation_byte(s, k - 1);
        valid_utf8_split(s, k - 1);
        lemma_ascii_byte(s[k - 1]);
        valid_utf8_concat(s.subrange(0, k - 1), seq![s[k - 1]]);
        assert(s.subrange(0, k - 1) + seq![s[k - 1]] =~= s.subrange(0, k));
    }
}

/// The text between two cuts is UTF-8.
pub proof fn lemma_between_cuts(s: Seq<u8>, from: int, to: int)
    requires
        valid_utf8(s),
        is_cut(s, from),
        is_cut(s, to),
        from <= to,
    ensures
        valid_utf8(s.subrange(from, to)),
{
    let tail = s.subrange(from, s.len() as int);
    lemma_after_cut(s, from);
    assert(is_cut(tail, to - from)) by {
        if from < to < s.len() {
            assert(tail[to - from] == s[to]);
            assert(tail[to - from - 1] == s[to - 1]);
        }
    }
    lemma_before_cut(tail, to - from);
    assert(tail.subrange(0, to - from) =~= s.subrange(from, to));
}

/// A segment that is UTF-8 is stored as UTF-8.
pub proof fn lemma_normalized_utf8(s: Seq<u8>)
    requires
        valid_utf8(s),
    ensures
        valid_utf8(normalized(s)),
{
    lemma_ascii_byte(NEWLINE);
    valid_utf8_concat(s, seq![NEWLINE]);
    assert(s + seq![NEWLINE] =~= s.push(NEWLINE));
}

/// What the splitter hands out of UTF-8 is UTF-8.
pub proof fn lemma_split_utf8(s: Seq<u8>)
    requires
        valid_utf8(s),
    ensures
        valid_utf8(split(s).0),
        valid_utf8(split(s).1),
        valid_utf8(split(s).2),
{
    reveal(split);
    if split(s) != (s, Seq::<u8>::empty(), Seq::<u8>::empty()) {
        let (i, b, e) = lemma_split_found(s);
        lemma_between_cuts(s, 0, i);
        lemma_between_cuts(s, i + 3, b - 3);
        if e < s.len() {
            lemma_between_cuts(s, e + 1, s.len() as int);
        }
    }
}

/// The files that are read from UTF-8 under a name that is UTF-8 have names
/// and contents that are UTF-8.
proof fn lemma_parse_files_utf8(name: Seq<u8>, text: Seq<u8>)
    requires
        valid_utf8(name),
        valid_utf8(text),
    ensures
        forall|i: int|
            0 <= i < parse_files(name, text).len() ==> valid_utf8(
                (#[trigger] parse_files(name, text)[i]).name,
            ) && valid_utf8(parse_files(name, text)[i].data),
    decreases text.len(),
{
    if name.len() > 0 {
        let (data, next, rest) = split(text);
        let file = FileView { name, data: normalized(data) };
        lemma_split_utf8(text);
        lemma_normalized_utf8(data);
        if next.len() > 0 {
            lemma_split_shrinks(text);
            lemma_parse_files_utf8(next, rest);
            let others = parse_files(next, rest);
            assert forall|i: int| 0 <= i < (seq![file] + others).len() implies valid_utf8(
                (#[trigger] (seq![file] + others)[i]).name,
            ) && valid_utf8((seq![file] + others)[i].data) by {
                if i > 0 {
                    assert((seq![file] + others)[i] == others[i - 1]);
                }
            }
        }
    }
}

/// The archive that is read from UTF-8 is UTF-8.
pub proof fn lemma_parse_utf8(text: Seq<u8>)
    requires
        valid_utf8(text),
    ensures
        is_utf8(parse(text)),
{
    let (comment, name, rest) = split(text);
    lemma_split_utf8(text);
    lemma_normalized_utf8(comment);
    lemma_parse_files_utf8(name, rest);
}

} // verus!
