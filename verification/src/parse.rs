//! What reading a text yields.

use crate::bytes::{lemma_normalized_is_normalized, normalized};
use crate::model::{ArchiveView, FileView};
use crate::split::{delimits_at, lemma_first_opening_found, lemma_split_shrinks, split};
use vstd::prelude::*;

verus! {

/// The files that follow a delimiter line with the name `name`, where `text`
/// is what stands after that line. An empty name ends the reading: whatever
/// `text` holds is left out then.
pub open spec fn parse_files(name: Seq<u8>, text: Seq<u8>) -> Seq<FileView>
    decreases text.len(),
    via parse_files_decreases
{
    if name.len() == 0 {
        Seq::empty()
    } else {
        let (data, next, rest) = split(text);
        let file = FileView { name, data: normalized(data) };
        if next.len() == 0 {
            seq![file]
        } else {
            seq![file] + parse_files(next, rest)
        }
    }
}

#[via_fn]
proof fn parse_files_decreases(name: Seq<u8>, text: Seq<u8>) {
    lemma_split_shrinks(text);
}

/// The archive that a text holds: what stands before the first delimiter
/// line is the comment, and each delimiter line starts a file that reaches
/// to the next one.
pub open spec fn parse(text: Seq<u8>) -> ArchiveView {
    let (comment, name, rest) = split(text);
    ArchiveView { comment: normalized(comment), files: parse_files(name, rest) }
}

/// Every file that is read is stored in normal form.
pub proof fn lemma_parse_files_wf(name: Seq<u8>, text: Seq<u8>)
    ensures
        forall|i: int|
            0 <= i < parse_files(name, text).len() ==> (#[trigger] parse_files(name, text)[i]).wf(),
    decreases text.len(),
{
    if name.len() > 0 {
        let (data, next, rest) = split(text);
        let file = FileView { name, data: normalized(data) };
        lemma_normalized_is_normalized(data);
        if next.len() > 0 {
            lemma_split_shrinks(text);
            lemma_parse_files_wf(next, rest);
            let tail = parse_files(next, rest);
            assert forall|i: int| 0 <= i < (seq![file] + tail).len() implies (#[trigger] (seq![
                file,
            ] + tail)[i]).wf() by {
                if i > 0 {
                    assert((seq![file] + tail)[i] == tail[i - 1]);
                }
            }
        }
    }
}

/// Whatever the text, the archive read from it is well formed.
pub proof fn lemma_parse_wf(text: Seq<u8>)
    ensures
        parse(text).wf(),
{
    let (comment, name, rest) = split(text);
    lemma_normalized_is_normalized(comment);
    lemma_parse_files_wf(name, rest);
}

/// A text without any delimiter line is read as a comment: the archive
/// holds the whole text, in normal form, and no file.
pub proof fn lemma_parse_without_delimiter(text: Seq<u8>)
    requires
        forall|i: int| !delimits_at(text, i),
    ensures
        split(text) == (text, Seq::<u8>::empty(), Seq::<u8>::empty()),
        parse(text) == (ArchiveView { comment: normalized(text), files: Seq::empty() }),
{
    reveal(split);
    lemma_first_opening_found(text);
}

} // verus!
