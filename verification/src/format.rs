//! The text of an archive: its comment, then each file as a delimiter line
//! followed by the file's content.

use crate::bytes::{marker, marker_end, CARRIAGE_RETURN, NEWLINE};
use crate::model::{ArchiveView, FileView};
use vstd::prelude::*;

verus! {

/// A line feed: the line ending that archives are written with.
pub open spec fn lf() -> Seq<u8> {
    seq![NEWLINE]
}

/// A carriage return and a line feed: the line ending that a delimiter line
/// may have as well.
pub open spec fn crlf() -> Seq<u8> {
    seq![CARRIAGE_RETURN, NEWLINE]
}

/// A delimiter line with the given line ending: `-- `, the name, ` --` and
/// the ending.
pub open spec fn delimiter_line(name: Seq<u8>, eol: Seq<u8>) -> Seq<u8> {
    marker() + name + marker_end() + eol
}

/// The files as they stand in a text whose delimiter lines have the given
/// line ending: each as its delimiter line followed by its content.
pub open spec fn sections_with(files: Seq<FileView>, eol: Seq<u8>) -> Seq<u8>
    decreases files.len(),
{
    if files.len() == 0 {
        Seq::empty()
    } else {
        delimiter_line(files.first().name, eol) + files.first().data + sections_with(
            files.drop_first(),
            eol,
        )
    }
}

/// The delimiter line of a file with this name, as it is written: `-- `, the
/// name, ` --` and a line feed.
pub open spec fn delimiter(name: Seq<u8>) -> Seq<u8> {
    delimiter_line(name, lf())
}

/// A file as it is written: its delimiter line, then its content.
pub open spec fn section(file: FileView) -> Seq<u8> {
    delimiter(file.name) + file.data
}

/// The files as they are written, one after the other.
pub open spec fn sections(files: Seq<FileView>) -> Seq<u8> {
    sections_with(files, lf())
}

/// The text of an archive. Nothing is added between the parts: each is
/// stored with the line feed that it needs.
pub open spec fn serialize(archive: ArchiveView) -> Seq<u8> {
    archive.comment + sections(archive.files)
}

/// The text of an archive with delimiter lines that end with a carriage
/// return and a line feed. The comment and the contents are as they are
/// stored.
pub open spec fn serialize_crlf(archive: ArchiveView) -> Seq<u8> {
    archive.comment + sections_with(archive.files, crlf())
}

/// One more file at the end adds its section at the end of the text.
pub proof fn lemma_sections_push(files: Seq<FileView>, file: FileView)
    ensures
        sections(files.push(file)) == sections(files) + section(file),
    decreases files.len(),
{
    let all = files.push(file);
    if files.len() == 0 {
        assert(all.drop_first() =~= Seq::<FileView>::empty());
        assert(sections(all.drop_first()) =~= Seq::<u8>::empty());
        assert(sections(all) =~= section(file));
        assert(sections(files) + section(file) =~= section(file));
    } else {
        lemma_sections_push(files.drop_first(), file);
        assert(all.drop_first() =~= files.drop_first().push(file));
        assert(all.first() == files.first());
        assert(sections(all) =~= sections(files) + section(file));
    }
}

} // verus!
