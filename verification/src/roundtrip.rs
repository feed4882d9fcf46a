//! Reading what was written: when an archive is found again in its text,
//! and when it is not.

use crate::bytes::{is_normalized, normalized, CARRIAGE_RETURN, DASH, NEWLINE, SPACE};
use crate::format::{crlf, delimiter, delimiter_line, lf, sections_with, serialize, serialize_crlf};
use crate::model::{ArchiveView, FileView};
use crate::parse::{lemma_parse_wf, parse, parse_files};
use crate::split::{
    after_line, body_end, closes_at, delimits_at, is_line_end, lemma_first_opening,
    lemma_line_end, lemma_no_opening, lemma_split_found, lemma_split_shrinks, opens_at, split,
};
use vstd::prelude::*;

verus! {

/// No line of the segment begins with `-- `.
pub open spec fn marker_free(s: Seq<u8>) -> bool {
    forall|i: int| !opens_at(s, i)
}

/// The segment is read as one piece: the splitter finds no delimiter line
/// in it.
pub open spec fn is_literal(s: Seq<u8>) -> bool {
    split(s) == (s, Seq::<u8>::empty(), Seq::<u8>::empty())
}

/// The name stands on one line.
pub open spec fn on_one_line(name: Seq<u8>) -> bool {
    forall|i: int| 0 <= i < name.len() ==> name[i] != NEWLINE
}

/// A name that a file can be found under again: it is not empty, since an
/// empty name ends the reading, and it stands on one line.
pub open spec fn is_name(name: Seq<u8>) -> bool {
    name.len() > 0 && on_one_line(name)
}

/// One of the two line endings that a delimiter line may have.
pub open spec fn is_eol(eol: Seq<u8>) -> bool {
    eol == lf() || eol == crlf()
}

/// Reading finds the files again where they stand after the segment `head`:
/// no segment that a delimiter line follows has a line that begins with
/// `-- `, the last segment is read as one piece, and each name can be found
/// again.
pub open spec fn found_again(head: Seq<u8>, files: Seq<FileView>) -> bool
    decreases files.len(),
{
    if files.len() == 0 {
        is_literal(head)
    } else {
        &&& marker_free(head)
        &&& is_name(files.first().name)
        &&& found_again(files.first().data, files.drop_first())
    }
}

/// Reading the text of the archive finds the archive again. This fails
/// where a name is empty or holds a line feed, and where a comment or a
/// content holds a line that the splitter takes for the start of a
/// delimiter line.
pub open spec fn reads_back(archive: ArchiveView) -> bool {
    found_again(archive.comment, archive.files)
}

/// The segment that stands last in the text of an archive.
pub open spec fn last_segment(archive: ArchiveView) -> Seq<u8> {
    if archive.files.len() == 0 {
        archive.comment
    } else {
        archive.files.last().data
    }
}

/// A segment without a line that begins with `-- ` is read as one piece.
pub proof fn lemma_marker_free_is_literal(s: Seq<u8>)
    requires
        marker_free(s),
    ensures
        is_literal(s),
{
    reveal(split);
    lemma_no_opening(s);
}

/// The step that reading takes at a delimiter line. Where the text before
/// the line is in normal form and has no line that begins with `-- `, and
/// the name stands on one line, the splitter hands out that text, the name
/// and the text after the line, whichever of the two endings the line has.
pub proof fn lemma_split_at_delimiter(head: Seq<u8>, name: Seq<u8>, eol: Seq<u8>, rest: Seq<u8>)
    requires
        is_normalized(head),
        marker_free(head),
        on_one_line(name),
        is_eol(eol),
    ensures
        split(head + delimiter_line(name, eol) + rest) == (head, name, rest),
{
    let text = head + delimiter_line(name, eol) + rest;
    let h = head.len() as int;
    let b = h + 6 + name.len();
    let e = b + eol.len() - 1;
    assert(text.len() == b + eol.len() + rest.len());
    assert forall|j: int| 0 <= j < h implies text[j] == head[j] by {}
    assert(text[h] == DASH && text[h + 1] == DASH && text[h + 2] == SPACE);
    assert forall|j: int| 0 <= j < name.len() implies text[h + 3 + j] == name[j] by {}
    assert(text[b - 3] == SPACE && text[b - 2] == DASH && text[b - 1] == DASH);
    assert(text[e] == NEWLINE);
    assert(eol == crlf() ==> text[b] == CARRIAGE_RETURN);
    assert forall|j: int| 0 <= j < rest.len() implies text[e + 1 + j] == rest[j] by {}

    assert(opens_at(text, h)) by {
        if h > 0 {
            assert(text[h - 1] == head[h - 1]);
        }
    }
    assert forall|j: int| 0 <= j < h implies !opens_at(text, j) by {
        if opens_at(text, j) {
            if j + 3 <= h {
                assert(opens_at(head, j));
            } else {
                assert(head[h - 1] == NEWLINE);
            }
        }
    }
    lemma_first_opening(text, h);

    assert forall|j: int| h <= j < e implies text[j] != NEWLINE by {
        if h + 3 <= j < b - 3 {
            assert(text[j] == name[j - h - 3]);
        }
    }
    assert(is_line_end(text, h, e));
    lemma_line_end(text, h, e);
    assert(body_end(text, h) == b);
    assert(closes_at(text, b));
    assert(delimits_at(text, h));

    assert(text.subrange(0, h) =~= head);
    assert(text.subrange(h + 3, b - 3) =~= name);
    assert(after_line(text, e) =~= rest);
    reveal(split);
}

/// What the splitter hands out where it finds a delimiter line: the text
/// before the line is in normal form, has no line that begins with `-- `
/// and is shorter than the whole, and the name stands on one line. Where it
/// finds none, it hands out no name.
pub proof fn lemma_split_parts(s: Seq<u8>)
    ensures
        !is_literal(s) ==> {
            &&& is_normalized(split(s).0)
            &&& marker_free(split(s).0)
            &&& on_one_line(split(s).1)
            &&& split(s).0.len() < s.len()
        },
        is_literal(s) ==> split(s).1.len() == 0,
{
    reveal(split);
    if !is_literal(s) {
        let (i, b, e) = lemma_split_found(s);
        let head = split(s).0;
        let name = split(s).1;
        assert(head == s.subrange(0, i));
        assert forall|j: int| !opens_at(head, j) by {
            if opens_at(head, j) {
                assert(opens_at(s, j));
            }
        }
        if i > 0 {
            assert(head.last() == s[i - 1]);
        }
        assert forall|j: int| 0 <= j < name.len() implies name[j] != NEWLINE by {
            assert(name[j] == s[i + 3 + j]);
        }
    }
}

/// One step of reading files: under an empty name nothing is read; under
/// any other, a file of that name with the text before the next delimiter
/// line as its content, and after it what is read under the next name.
proof fn lemma_parse_files_step(name: Seq<u8>, text: Seq<u8>)
    ensures
        name.len() == 0 ==> parse_files(name, text).len() == 0,
        name.len() > 0 ==> {
            &&& parse_files(name, text).len() == 1 + parse_files(split(text).1, split(text).2).len()
            &&& parse_files(name, text).first() == (FileView {
                name,
                data: normalized(split(text).0),
            })
            &&& parse_files(name, text).drop_first() == parse_files(split(text).1, split(text).2)
        },
        name.len() > 0 && split(text).1.len() > 0 ==> parse_files(name, text).len() > 1,
{
    let (data, next, rest) = split(text);
    let file = FileView { name, data: normalized(data) };
    if name.len() > 0 {
        if next.len() == 0 {
            assert(parse_files(next, rest) =~= Seq::<FileView>::empty());
            assert(seq![file].drop_first() =~= Seq::<FileView>::empty());
        } else {
            assert((seq![file] + parse_files(next, rest)).drop_first() =~= parse_files(next, rest));
            lemma_split_shrinks(text);
            assert(parse_files(next, rest).len() > 0);
        }
    }
}

/// Reading a text is reading the files after a delimiter line, with the
/// comment in the place of the first file's content.
proof fn lemma_parse_as_files(name: Seq<u8>, text: Seq<u8>)
    requires
        name.len() > 0,
    ensures
        parse_files(name, text) == seq![FileView { name, data: parse(text).comment }] + parse(
            text,
        ).files,
{
    let (data, next, rest) = split(text);
    let file = FileView { name, data: normalized(data) };
    if next.len() == 0 {
        assert(parse_files(next, rest) =~= Seq::<FileView>::empty());
        assert(seq![file] + parse_files(next, rest) =~= seq![file]);
    }
}

/// The files after the first are well formed where all are.
proof fn lemma_others_wf(files: Seq<FileView>)
    requires
        files.len() > 0,
        forall|i: int| 0 <= i < files.len() ==> (#[trigger] files[i]).wf(),
    ensures
        files.first().wf(),
        forall|i: int|
            0 <= i < files.drop_first().len() ==> (#[trigger] files.drop_first()[i]).wf(),
        seq![files.first()] + files.drop_first() == files,
{
    let others = files.drop_first();
    assert forall|i: int| 0 <= i < others.len() implies (#[trigger] others[i]).wf() by {
        assert(others[i] == files[i + 1]);
    }
    assert(seq![files.first()] + others =~= files);
}

/// Reading the files back, one step after the other: the file with the
/// name `name` and the content `data`, and after it the files of `tail`.
proof fn lemma_parse_sections(name: Seq<u8>, data: Seq<u8>, tail: Seq<FileView>, eol: Seq<u8>)
    requires
        name.len() > 0,
        is_normalized(data),
        forall|i: int| 0 <= i < tail.len() ==> (#[trigger] tail[i]).wf(),
        found_again(data, tail),
        is_eol(eol),
    ensures
        parse_files(name, data + sections_with(tail, eol)) == seq![FileView { name, data }] + tail,
    decreases tail.len(),
{
    let text = data + sections_with(tail, eol);
    let file = FileView { name, data };
    if tail.len() == 0 {
        assert(text == data) by {
            assert(text =~= data);
        }
        assert(parse_files(name, text) == seq![file]);
        assert(seq![file] + tail == seq![file]) by {
            assert(seq![file] + tail =~= seq![file]);
        }
    } else {
        let next = tail.first();
        let others = tail.drop_first();
        let after = next.data + sections_with(others, eol);
        assert(text == data + delimiter_line(next.name, eol) + after) by {
            assert(text =~= data + delimiter_line(next.name, eol) + after);
        }
        assert(split(text) == (data, next.name, after)) by {
            lemma_split_at_delimiter(data, next.name, eol, after);
        }
        assert(parse_files(next.name, after) == tail) by {
            lemma_others_wf(tail);
            lemma_parse_sections(next.name, next.data, others, eol);
        }
        assert(parse_files(name, text) == seq![file] + parse_files(next.name, after));
    }
}

/// Reading the text of an archive, written with either line ending.
proof fn lemma_parse_text(archive: ArchiveView, eol: Seq<u8>)
    requires
        archive.wf(),
        reads_back(archive),
        is_eol(eol),
    ensures
        parse(archive.comment + sections_with(archive.files, eol)) == archive,
{
    let text = archive.comment + sections_with(archive.files, eol);
    let name = seq![DASH];
    let first = FileView { name, data: archive.comment };
    let read = FileView { name, data: parse(text).comment };
    lemma_parse_sections(name, archive.comment, archive.files, eol);
    lemma_parse_as_files(name, text);
    assert(seq![read] + parse(text).files == seq![first] + archive.files);
    assert(parse(text).comment == archive.comment) by {
        assert((seq![read] + parse(text).files)[0] == read);
        assert((seq![first] + archive.files)[0] == first);
    }
    assert(parse(text).files == archive.files) by {
        assert((seq![read] + parse(text).files).drop_first() =~= parse(text).files);
        assert((seq![first] + archive.files).drop_first() =~= archive.files);
    }
}

/// One step back: files that were found again after a segment show that
/// the segment has no line that begins with `-- `, that the first of them
/// has a name to be found under, and that the others were found again after
/// the content of the first.
proof fn lemma_sections_read_back_step(name: Seq<u8>, data: Seq<u8>, tail: Seq<FileView>)
    requires
        name.len() > 0,
        is_normalized(data),
        tail.len() > 0,
        parse_files(name, data + sections_with(tail, lf())) == seq![FileView { name, data }] + tail,
    ensures
        marker_free(data),
        is_name(tail.first().name),
        parse_files(
            tail.first().name,
            tail.first().data + sections_with(tail.drop_first(), lf()),
        ) == seq![tail.first()] + tail.drop_first(),
{
    let text = data + sections_with(tail, lf());
    let (head, found, rest) = split(text);
    let next = tail.first();
    let others = tail.drop_first();
    let after = next.data + sections_with(others, lf());
    lemma_parse_files_step(name, text);
    assert(found.len() > 0);
    assert(tail == parse_files(found, rest)) by {
        assert((seq![FileView { name, data }] + tail).drop_first() =~= tail);
    }
    assert(head == data && marker_free(head) && on_one_line(found)) by {
        lemma_split_parts(text);
    }
    assert(next.name == found) by {
        lemma_parse_files_step(found, rest);
    }
    assert(text == data + delimiter_line(next.name, lf()) + after) by {
        assert(text =~= data + delimiter_line(next.name, lf()) + after);
    }
    assert(rest == after) by {
        lemma_split_at_delimiter(data, next.name, lf(), after);
    }
    assert(seq![next] + others == tail) by {
        assert(seq![next] + others =~= tail);
    }
}

/// The files were found again, so they stood in a form in which they are.
proof fn lemma_sections_read_back(name: Seq<u8>, data: Seq<u8>, tail: Seq<FileView>)
    requires
        name.len() > 0,
        is_normalized(data),
        forall|i: int| 0 <= i < tail.len() ==> (#[trigger] tail[i]).wf(),
        parse_files(name, data + sections_with(tail, lf())) == seq![FileView { name, data }] + tail,
    ensures
        found_again(data, tail),
    decreases tail.len(),
{
    if tail.len() == 0 {
        let text = data + sections_with(tail, lf());
        assert(text == data) by {
            assert(text =~= data);
        }
        lemma_parse_files_step(name, text);
        lemma_split_parts(text);
        assert(is_literal(data));
    } else {
        lemma_sections_read_back_step(name, data, tail);
        lemma_others_wf(tail);
        lemma_sections_read_back(tail.first().name, tail.first().data, tail.drop_first());
    }
}

/// The files that are read stand in a form in which they are found again,
/// but for the segment that stands last.
proof fn lemma_parsed_files_found_again(name: Seq<u8>, text: Seq<u8>)
    requires
        name.len() > 0,
    ensures
        parse_files(name, text).len() > 0,
        parse_files(name, text).first().name == name,
        is_literal(parse_files(name, text).last().data) ==> found_again(
            parse_files(name, text).first().data,
            parse_files(name, text).drop_first(),
        ),
    decreases text.len(),
{
    let (data, next, rest) = split(text);
    let file = FileView { name, data: normalized(data) };
    let files = parse_files(name, text);
    if next.len() == 0 {
        assert(files =~= seq![file]);
        assert(files.drop_first() =~= Seq::<FileView>::empty());
    } else {
        lemma_split_shrinks(text);
        lemma_split_parts(text);
        lemma_parsed_files_found_again(next, rest);
        let others = parse_files(next, rest);
        assert(files =~= seq![file] + others);
        assert(files.drop_first() =~= others);
        assert(files.last() == others.last());
        assert(files.first() == file);
    }
}

/// Files that are found again end with a segment that is read as one piece.
proof fn lemma_found_again_ends_literal(head: Seq<u8>, files: Seq<FileView>)
    requires
        found_again(head, files),
    ensures
        is_literal(if files.len() == 0 { head } else { files.last().data }),
    decreases files.len(),
{
    if files.len() > 0 {
        let others = files.drop_first();
        lemma_found_again_ends_literal(files.first().data, others);
        if others.len() > 0 {
            assert(others.last() == files.last());
        }
    }
}

/// Files whose names can be found again, and which stand after a segment
/// and have contents without a line that begins with `-- `, are found again.
proof fn lemma_marker_free_found_again(head: Seq<u8>, files: Seq<FileView>)
    requires
        marker_free(head),
        forall|i: int|
            0 <= i < files.len() ==> is_name((#[trigger] files[i]).name) && marker_free(
                files[i].data,
            ),
    ensures
        found_again(head, files),
    decreases files.len(),
{
    if files.len() == 0 {
        lemma_marker_free_is_literal(head);
    } else {
        let others = files.drop_first();
        assert forall|i: int| 0 <= i < others.len() implies is_name((#[trigger] others[i]).name)
            && marker_free(others[i].data) by {
            assert(others[i] == files[i + 1]);
        }
        lemma_marker_free_found_again(files.first().data, others);
    }
}

/// An archive reads back where every name is one that a file can be found
/// under, and neither the comment nor any content has a line that begins
/// with `-- `.
pub proof fn lemma_marker_free_reads_back(archive: ArchiveView)
    requires
        marker_free(archive.comment),
        forall|i: int|
            0 <= i < archive.files.len() ==> is_name((#[trigger] archive.files[i]).name)
                && marker_free(archive.files[i].data),
    ensures
        reads_back(archive),
{
    lemma_marker_free_found_again(archive.comment, archive.files);
}

/// Writing and reading: the text of a well-formed archive that reads back
/// holds that archive, with the same comment and the same files in the same
/// order.
pub proof fn lemma_round_trip(archive: ArchiveView)
    requires
        archive.wf(),
        reads_back(archive),
    ensures
        parse(serialize(archive)) == archive,
{
    lemma_parse_text(archive, lf());
}

/// The archives that read back are all that are found again in their text:
/// where writing and reading yields the archive, the archive reads back.
pub proof fn lemma_round_trip_only_if_reads_back(archive: ArchiveView)
    requires
        archive.wf(),
        parse(serialize(archive)) == archive,
    ensures
        reads_back(archive),
{
    let name = seq![DASH];
    lemma_parse_as_files(name, serialize(archive));
    lemma_sections_read_back(name, archive.comment, archive.files);
}

/// Delimiter lines may end with a carriage return and a line feed: the
/// archive that is read is the one that is read where they end with a line
/// feed alone. The carriage return is dropped from the delimiter lines only;
/// the comment and the contents keep theirs.
pub proof fn lemma_crlf_round_trip(archive: ArchiveView)
    requires
        archive.wf(),
        reads_back(archive),
    ensures
        parse(serialize_crlf(archive)) == archive,
        parse(serialize_crlf(archive)) == parse(serialize(archive)),
{
    lemma_parse_text(archive, lf());
    lemma_parse_text(archive, crlf());
}

/// One delimiter line, with either ending. Where it is the first line of a
/// text that begins with `-- `, and follows text in normal form, a carriage
/// return before its line feed changes nothing in what the splitter hands
/// out, nor in the archive that is read.
pub proof fn lemma_crlf_delimiter(head: Seq<u8>, name: Seq<u8>, rest: Seq<u8>)
    requires
        is_normalized(head),
        marker_free(head),
        on_one_line(name),
    ensures
        split(head + delimiter_line(name, crlf()) + rest) == (head, name, rest),
        split(head + delimiter_line(name, crlf()) + rest) == split(head + delimiter(name) + rest),
        parse(head + delimiter_line(name, crlf()) + rest) == parse(head + delimiter(name) + rest),
{
    lemma_split_at_delimiter(head, name, crlf(), rest);
    lemma_split_at_delimiter(head, name, lf(), rest);
}

/// Reading, writing and reading again yields what the first reading did,
/// for every text but those where the segment that the first reading stores
/// last is not read as one piece. That happens only where the last line of
/// the text has no line feed, begins with `-- ` and ends with ` --` and a
/// carriage return: stored with a line feed, that line is a delimiter line.
pub proof fn lemma_parse_is_idempotent(text: Seq<u8>)
    requires
        is_literal(last_segment(parse(text))),
    ensures
        parse(text).wf(),
        reads_back(parse(text)),
        parse(serialize(parse(text))) == parse(text),
{
    let (comment, name, rest) = split(text);
    lemma_parse_wf(text);
    if name.len() > 0 {
        lemma_split_parts(text);
        lemma_parsed_files_found_again(name, rest);
    }
    lemma_round_trip(parse(text));
}

/// The texts left out above are all for which the second reading differs:
/// where it yields what the first did, the segment stored last is read as
/// one piece.
pub proof fn lemma_parse_idempotent_only_if_literal(text: Seq<u8>)
    requires
        parse(serialize(parse(text))) == parse(text),
    ensures
        is_literal(last_segment(parse(text))),
{
    lemma_parse_wf(text);
    lemma_round_trip_only_if_reads_back(parse(text));
    lemma_found_again_ends_literal(parse(text).comment, parse(text).files);
}

} // verus!
