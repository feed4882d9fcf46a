//! An archive as text for a reader: its bytes read as UTF-8.

use crate::archive::{views, Archive};
use crate::bytes::{marker, marker_end};
use crate::format::{lemma_sections_push, lf, section, sections, serialize};
use crate::model::{ArchiveView, FileView};
use crate::outside::{lossy_text, utf8_lossy};
use crate::utf8::is_utf8;
use std::borrow::Cow;
use vstd::prelude::*;
use vstd::string::StringExecFns;
use vstd::utf8::{
    decode_utf8, decode_utf8_encode_utf8, encode_utf8, encode_utf8_decode_utf8,
    is_ascii_chars_encode_utf8, valid_utf8,
};

verus! {

/// The text that was read, borrowed or owned.
pub(crate) fn as_text<'b>(text: &'b Cow<'_, str>) -> (s: &'b str)
    ensures
        s@ == text@,
{
    match text {
        Cow::Borrowed(s) => s,
        Cow::Owned(s) => s.as_str(),
    }
}

/// `-- `, as characters.
pub open spec fn marker_text() -> Seq<char> {
    seq!['-', '-', ' ']
}

/// ` --` and a line feed, as characters.
pub open spec fn marker_end_text() -> Seq<char> {
    seq![' ', '-', '-', '\n']
}

/// The section of a file whose name and content read as `name` and `data`:
/// `-- `, the name, ` --` and a line feed, then the content.
pub open spec fn section_text(name: Seq<char>, data: Seq<char>) -> Seq<char> {
    marker_text() + name + marker_end_text() + data
}

/// A file as it is shown: its section, with name and content each read on
/// its own.
pub open spec fn shown_section(file: FileView) -> Seq<char> {
    section_text(utf8_lossy(file.name), utf8_lossy(file.data))
}

/// The files as they are shown, one after the other.
pub open spec fn shown_sections(files: Seq<FileView>) -> Seq<char>
    decreases files.len(),
{
    if files.len() == 0 {
        Seq::empty()
    } else {
        shown_sections(files.drop_last()) + shown_section(files.last())
    }
}

/// An archive as it is shown: the comment, then the files.
pub open spec fn shown(archive: ArchiveView) -> Seq<char> {
    utf8_lossy(archive.comment) + shown_sections(archive.files)
}

/// The encoding of two texts, one after the other, is the encoding of the
/// first followed by that of the second.
pub proof fn lemma_encode_concat(a: Seq<char>, b: Seq<char>)
    ensures
        encode_utf8(a + b) == encode_utf8(a) + encode_utf8(b),
    decreases a.len(),
{
    if a.len() == 0 {
        assert(a + b =~= b);
        assert(encode_utf8(a) + encode_utf8(b) =~= encode_utf8(b));
    } else {
        assert((a + b).drop_first() =~= a.drop_first() + b);
        lemma_encode_concat(a.drop_first(), b);
        assert(encode_utf8(a + b) =~= encode_utf8(a) + encode_utf8(b));
    }
}

/// The two markers are the encodings of their characters.
proof fn lemma_encode_markers()
    ensures
        encode_utf8(marker_text()) == marker(),
        encode_utf8(marker_end_text()) == marker_end() + lf(),
{
    is_ascii_chars_encode_utf8(marker_text());
    is_ascii_chars_encode_utf8(marker_end_text());
    assert(encode_utf8(marker_text()) =~= marker());
    assert(encode_utf8(marker_end_text()) =~= marker_end() + lf());
}

/// The encoding of a text that grows by the section of a file whose name
/// and content are UTF-8.
proof fn lemma_encode_section(
    before: Seq<char>,
    name: Seq<char>,
    data: Seq<char>,
    file: FileView,
)
    requires
        valid_utf8(file.name),
        valid_utf8(file.data),
        name == decode_utf8(file.name),
        data == decode_utf8(file.data),
    ensures
        encode_utf8(before + section_text(name, data)) == encode_utf8(before) + section(file),
{
    lemma_encode_markers();
    decode_utf8_encode_utf8(file.name);
    decode_utf8_encode_utf8(file.data);
    lemma_encode_concat(before, section_text(name, data));
    lemma_encode_concat(marker_text() + name + marker_end_text(), data);
    lemma_encode_concat(marker_text() + name, marker_end_text());
    lemma_encode_concat(marker_text(), name);
    assert(marker() + file.name + (marker_end() + lf()) + file.data =~= section(file));
}

/// Appends to `text` the section of a file whose name and content read as
/// `name` and `data`.
pub fn push_section(text: &mut String, name: &str, data: &str)
    ensures
        final(text)@ == old(text)@ + section_text(name@, data@),
{
    proof {
        reveal_strlit("-- ");
        reveal_strlit(" --\n");
    }
    text.append("-- ");
    text.append(name);
    text.append(" --\n");
    text.append(data);
    proof {
        assert("-- "@ =~= marker_text());
        assert(" --\n"@ =~= marker_end_text());
        assert(text@ =~= old(text)@ + section_text(name@, data@));
    }
}

impl<'a> Archive<'a> {
    /// The archive as text: what `to_writer` writes, with each comment, name
    /// and content read as UTF-8 and U+FFFD in place of what is not. Where
    /// all of them are UTF-8, the text is what `to_writer` writes, character
    /// for character.
    pub fn to_string(&self) -> (text: String)
        ensures
            text@ == shown(self@),
            is_utf8(self@) ==> encode_utf8(text@) == serialize(self@),
            is_utf8(self@) ==> text@ == decode_utf8(serialize(self@)),
    {
        let files = self.files();
        let comment = lossy_text(self.comment());
        let mut text = String::new();
        text.append(as_text(&comment));
        let mut i: usize = 0;
        proof {
            assert(self@.files.take(0) =~= Seq::<FileView>::empty());
            assert(text@ =~= utf8_lossy(self@.comment) + shown_sections(self@.files.take(0)));
            if valid_utf8(self@.comment) {
                decode_utf8_encode_utf8(self@.comment);
                assert(encode_utf8(text@) =~= self@.comment + sections(self@.files.take(0)));
            }
        }
        while i < files.len()
            invariant
                i <= files@.len(),
                views(files@) == self@.files,
                text@ == utf8_lossy(self@.comment) + shown_sections(self@.files.take(i as int)),
                is_utf8(self@) ==> encode_utf8(text@) == self@.comment + sections(
                    self@.files.take(i as int),
                ),
            decreases files.len() - i,
        {
            let ghost before = text@;
            let file = &files[i];
            let name = lossy_text(file.name());
            let data = lossy_text(file.data());
            push_section(&mut text, as_text(&name), as_text(&data));
            proof {
                let done = self@.files.take(i as int);
                let next = self@.files.take(i + 1);
                assert(self@.files[i as int] == file@);
                assert(text@ == before + shown_section(file@));
                assert(next.drop_last() =~= done);
                assert(next.last() == file@);
                assert(next =~= done.push(file@));
                assert(text@ =~= utf8_lossy(self@.comment) + shown_sections(next));
                if is_utf8(self@) {
                    lemma_encode_section(before, name@, data@, file@);
                    lemma_sections_push(done, file@);
                    assert(encode_utf8(text@) =~= self@.comment + sections(next));
                }
            }
            i = i + 1;
        }
        proof {
            assert(self@.files.take(i as int) =~= self@.files);
            encode_utf8_decode_utf8(text@);
        }
        text
    }
}

} // verus!
