//! Archives in memory: how they are built, read from a text and written out.

use crate::bytes::{fix_newline, is_normalized, normalized, DASH, NEWLINE, SPACE};
use crate::format::{lemma_sections_push, section, sections, serialize};
use crate::model::{ArchiveView, FileView};
use crate::parse::{lemma_parse_wf, parse, parse_files};
use crate::split::{lemma_split_shrinks, split_file_markers};
use crate::utf8::{is_utf8, lemma_normalized_utf8, lemma_parse_utf8};
use std::borrow::Cow;
use vstd::prelude::*;
use vstd::std_specs::convert::FromSpecImpl;
use vstd::string::StringSliceAdditionalSpecFns;
use vstd::utf8::{encode_utf8_valid_utf8, valid_utf8};

verus! {

/// One file of an archive. The name is a part of the text that the file was
/// made from; so is the content, unless a line feed had to be appended.
#[derive(Debug, PartialEq, Eq)]
pub struct File<'a> {
    name: &'a [u8],
    data: Cow<'a, [u8]>,
}

/// A comment and the files that follow it, in the order of the text.
#[derive(Debug, PartialEq, Eq)]
pub struct Archive<'a> {
    comment: Cow<'a, [u8]>,
    files: Vec<File<'a>>,
}

impl<'a> View for File<'a> {
    type V = FileView;

    closed spec fn view(&self) -> FileView {
        FileView { name: self.name@, data: self.data@ }
    }
}

impl<'a> View for Archive<'a> {
    type V = ArchiveView;

    closed spec fn view(&self) -> ArchiveView {
        ArchiveView { comment: self.comment@, files: views(self.files@) }
    }
}

/// What the files are, in their order.
pub open spec fn views<'a>(files: Seq<File<'a>>) -> Seq<FileView> {
    files.map_values(|f: File<'a>| f@)
}

/// The bytes of a stored segment.
fn segment<'b>(s: &'b Cow<'_, [u8]>) -> (bytes: &'b [u8])
    ensures
        bytes@ == s@,
{
    match s {
        Cow::Borrowed(b) => b,
        Cow::Owned(v) => v.as_slice(),
    }
}

/// Appends `bytes` to `out`.
fn append(out: &mut Vec<u8>, bytes: &[u8])
    ensures
        final(out)@ == old(out)@ + bytes@,
{
    out.extend_from_slice(bytes);
    assert(out@ =~= old(out)@ + bytes@);
}

impl<'a> File<'a> {
    #[verifier::type_invariant]
    spec fn stored(self) -> bool {
        is_normalized(self.data@)
    }

    /// A file with the given name and content. The content is brought into
    /// normal form; the name is taken as it is.
    pub fn from_bytes(name: &'a [u8], data: &'a [u8]) -> (file: File<'a>)
        ensures
            file@ == (FileView { name: name@, data: normalized(data@) }),
            file@.wf(),
    {
        let mut data = Cow::Borrowed(data);
        fix_newline(&mut data);
        File { name, data }
    }

    /// A file with the given name and content, each taken as its UTF-8
    /// bytes. The content is brought into normal form.
    pub fn new(name: &'a str, data: &'a str) -> (file: File<'a>)
        ensures
            file@ == (FileView {
                name: name.spec_bytes(),
                data: normalized(data.spec_bytes()),
            }),
            file@.wf(),
            valid_utf8(file@.name),
            valid_utf8(file@.data),
    {
        proof {
            encode_utf8_valid_utf8(name@);
            encode_utf8_valid_utf8(data@);
            lemma_normalized_utf8(data.spec_bytes());
        }
        File::from_bytes(name.as_bytes(), data.as_bytes())
    }

    /// The name.
    pub fn name(&self) -> (name: &'a [u8])
        ensures
            name@ == self@.name,
    {
        self.name
    }

    /// The content, which is empty or ends with a line feed.
    pub fn data(&self) -> (data: &[u8])
        ensures
            data@ == self@.data,
            is_normalized(data@),
    {
        proof {
            use_type_invariant(self);
        }
        segment(&self.data)
    }
}

impl<'a> Archive<'a> {
    #[verifier::type_invariant]
    spec fn stored(self) -> bool {
        self@.wf()
    }

    /// An archive with the given comment, taken as its UTF-8 bytes and
    /// brought into normal form, and the given files.
    pub fn new(comment: &'a str, files: Vec<File<'a>>) -> (archive: Archive<'a>)
        ensures
            archive@.comment == normalized(comment.spec_bytes()),
            archive@.files == views(files@),
            archive@.wf(),
            valid_utf8(archive@.comment),
    {
        proof {
            encode_utf8_valid_utf8(comment@);
            lemma_normalized_utf8(comment.spec_bytes());
        }
        // Each file is stored in normal form; this gathers what is known
        // of each for all of them and does nothing else.
        let mut i: usize = 0;
        while i < files.len()
            invariant
                i <= files@.len(),
                forall|j: int| 0 <= j < i ==> (#[trigger] views(files@)[j]).wf(),
            decreases files.len() - i,
        {
            let file = &files[i];
            proof {
                use_type_invariant(file);
            }
            i = i + 1;
        }
        let mut comment = Cow::Borrowed(comment.as_bytes());
        fix_newline(&mut comment);
        Archive { comment, files }
    }

    /// Reads an archive from a text. Every text is an archive: where it
    /// holds no delimiter line, all of it is the comment.
    pub fn from_bytes(text: &'a [u8]) -> (archive: Archive<'a>)
        ensures
            archive@ == parse(text@),
            archive@.wf(),
    {
        proof {
            lemma_parse_wf(text@);
        }
        let (comment, first, after) = split_file_markers(text);
        let mut name = first;
        let mut rest = after;
        let mut files: Vec<File<'a>> = Vec::new();
        while !name.is_empty()
            invariant
                parse_files(first@, after@) == views(files@) + parse_files(name@, rest@),
            decreases rest@.len() + (if name@.len() > 0 { 1int } else { 0int }),
        {
            let (data, next_name, next_rest) = split_file_markers(rest);
            let file = File::from_bytes(name, data);
            proof {
                lemma_split_shrinks(rest@);
                let done = views(files@);
                assert(views(files@.push(file)) =~= done.push(file@));
                assert(parse_files(name@, rest@) =~= seq![file@] + parse_files(
                    next_name@,
                    next_rest@,
                ));
                assert(done + (seq![file@] + parse_files(next_name@, next_rest@)) =~= done.push(
                    file@,
                ) + parse_files(next_name@, next_rest@));
            }
            files.push(file);
            name = next_name;
            rest = next_rest;
        }
        let mut comment = Cow::Borrowed(comment);
        fix_newline(&mut comment);
        assert(views(files@) + Seq::<FileView>::empty() =~= views(files@));
        Archive { comment, files }
    }

    /// The comment, which is empty or ends with a line feed.
    pub fn comment(&self) -> (comment: &[u8])
        ensures
            comment@ == self@.comment,
            self@.wf(),
    {
        proof {
            use_type_invariant(self);
        }
        segment(&self.comment)
    }

    /// The files, in their order. The content of each is empty or ends with
    /// a line feed.
    pub fn files(&self) -> (files: &[File<'a>])
        ensures
            views(files@) == self@.files,
            self@.wf(),
    {
        proof {
            use_type_invariant(self);
        }
        self.files.as_slice()
    }

    /// Appends the text of the archive to `writer`: the comment, then for
    /// each file its delimiter line and its content.
    pub fn to_writer(&self, writer: &mut Vec<u8>)
        ensures
            final(writer)@ == old(writer)@ + serialize(self@),
    {
        append(writer, segment(&self.comment));
        let mut i: usize = 0;
        assert(self@.files.take(0) =~= Seq::<FileView>::empty());
        assert(writer@ =~= old(writer)@ + (self@.comment + sections(self@.files.take(0))));
        while i < self.files.len()
            invariant
                i <= self.files.len(),
                self.files@.len() == self@.files.len(),
                writer@ == old(writer)@ + (self@.comment + sections(self@.files.take(i as int))),
            decreases self.files.len() - i,
        {
            let ghost before = writer@;
            let file = &self.files[i];
            writer.push(DASH);
            writer.push(DASH);
            writer.push(SPACE);
            append(writer, file.name);
            writer.push(SPACE);
            writer.push(DASH);
            writer.push(DASH);
            writer.push(NEWLINE);
            append(writer, segment(&file.data));
            proof {
                let done = self@.files.take(i as int);
                assert(self@.files[i as int] == file@);
                assert(writer@ =~= before + section(file@));
                lemma_sections_push(done, file@);
                assert(self@.files.take(i + 1) =~= done.push(file@));
                assert(writer@ =~= old(writer)@ + (self@.comment + sections(
                    self@.files.take(i + 1),
                )));
            }
            i = i + 1;
        }
        assert(self@.files.take(i as int) =~= self@.files);
    }
}

/// Two archives that hold the same may differ in what they borrow, so no one
/// archive is named as what `from` yields; what it holds is stated on `from`.
impl<'a> FromSpecImpl<&'a str> for Archive<'a> {
    open spec fn obeys_from_spec() -> bool {
        false
    }

    open spec fn from_spec(text: &'a str) -> Archive<'a> {
        arbitrary()
    }
}

impl<'a> From<&'a str> for Archive<'a> {
    /// Reads an archive from a text, taken as its UTF-8 bytes.
    fn from(text: &'a str) -> (archive: Archive<'a>)
        ensures
            archive@ == parse(text.spec_bytes()),
            archive@.wf(),
            is_utf8(archive@),
    {
        proof {
            encode_utf8_valid_utf8(text@);
            lemma_parse_utf8(text.spec_bytes());
        }
        Archive::from_bytes(text.as_bytes())
    }
}

} // verus!
