use std::borrow::Cow;

use txtar::bytes::fix_newline;
use txtar::{Archive, File};

const BASIC: &str = "\
comment1
comment2
-- file1 --
File 1 text.
-- foo --
File 2 text.
-- empty --
-- noNL --
hello world";

fn check_parse_format(name: &str, arch: Archive, expected: &str) {
    let txtar = arch.to_string();
    assert_eq!(txtar, expected, "parse[{name}]");
}

fn files_of<'a>(arch: &'a Archive) -> Vec<(&'a [u8], &'a [u8])> {
    arch.files().iter().map(|f| (f.name(), f.data())).collect()
}

#[test]
fn parse_format() {
    // Test simplest
    {
        let simplest = "-- simplest.txt --";
        let expected = format!("{simplest}\n");
        check_parse_format("simplest", Archive::from(simplest), &expected);
    }

    // Test basic variety of inputs
    {
        let basic = BASIC;
        let expected = format!("{basic}\n");
        check_parse_format("basic", Archive::from(basic), &expected);
    }

    // Test CRLF input
    {
        let crlf = "blah\r\n-- hello --\r\nhello\r\n";
        let expected = Archive::new("blah\r\n", vec![File::new("hello", "hello\r\n")]);

        let arch = Archive::from(crlf);
        assert_eq!(arch, expected, "parse[CRLF input]",);
        assert_eq!(arch.comment(), b"blah\r\n");
        assert_eq!(files_of(&arch), vec![(&b"hello"[..], &b"hello\r\n"[..])]);
    }
}

#[test]
fn basic_example_yields_four_files() {
    let arch = Archive::from(BASIC);
    assert_eq!(arch.comment(), b"comment1\ncomment2\n");
    assert_eq!(
        files_of(&arch),
        vec![
            (&b"file1"[..], &b"File 1 text.\n"[..]),
            (&b"foo"[..], &b"File 2 text.\n"[..]),
            (&b"empty"[..], &b""[..]),
            (&b"noNL"[..], &b"hello world\n"[..]),
        ]
    );
}

#[test]
fn file_content_gets_one_line_feed() {
    assert_eq!(File::new("a", "text").data(), b"text\n");
    assert_eq!(File::new("a", "text\n").data(), b"text\n");
    assert_eq!(File::new("a", "text\n\n").data(), b"text\n\n");
    assert_eq!(File::new("a", "").data(), b"");
    assert_eq!(File::new("a", "\n").data(), b"\n");
    assert_eq!(File::new("a", "text\r").data(), b"text\r\n");
    assert_eq!(File::new("a", "one\ntwo").data(), b"one\ntwo\n");
    assert_eq!(File::from_bytes(b"a", b"\xff").data(), b"\xff\n");
}

#[test]
fn file_name_is_kept_as_it_is() {
    assert_eq!(File::new("a", "x").name(), b"a");
    assert_eq!(File::new("dir/../a b", "x").name(), b"dir/../a b");
    assert_eq!(File::new("", "x").name(), b"");
    assert_eq!(File::new("n\u{e9}", "x").name(), "n\u{e9}".as_bytes());
}

#[test]
fn comment_gets_one_line_feed() {
    assert_eq!(Archive::new("note", Vec::new()).comment(), b"note\n");
    assert_eq!(Archive::new("note\n", Vec::new()).comment(), b"note\n");
    assert_eq!(Archive::new("", Vec::new()).comment(), b"");
    assert_eq!(Archive::from("note").comment(), b"note\n");
    assert_eq!(Archive::from("").comment(), b"");
}

#[test]
fn new_keeps_the_files_in_order() {
    let arch = Archive::new(
        "c",
        vec![File::new("b", "2"), File::new("a", "1"), File::new("b", "")],
    );
    assert_eq!(
        files_of(&arch),
        vec![
            (&b"b"[..], &b"2\n"[..]),
            (&b"a"[..], &b"1\n"[..]),
            (&b"b"[..], &b""[..]),
        ]
    );
}

#[test]
fn crlf_delimiters_parse_as_lf_delimiters() {
    let lf = Archive::from("note\r\n-- a --\none\r\n-- b c --\ntwo\n");
    let crlf = Archive::from("note\r\n-- a --\r\none\r\n-- b c --\r\ntwo\n");
    assert_eq!(crlf, lf);
    assert_eq!(crlf.comment(), b"note\r\n");
    assert_eq!(
        files_of(&crlf),
        vec![(&b"a"[..], &b"one\r\n"[..]), (&b"b c"[..], &b"two\n"[..])]
    );
}

#[test]
fn only_one_carriage_return_is_dropped() {
    let arch = Archive::from("-- a --\r\r\nrest\n");
    assert_eq!(arch.comment(), b"-- a --\r\r\nrest\n");
    assert!(arch.files().is_empty());
}

#[test]
fn text_without_delimiter_is_a_comment() {
    for text in [
        "just text\n",
        "no line feed",
        "--not a marker --\n",
        " -- indented --\n",
        "x -- a --\n",
        "-- unclosed\nmore\n",
        "-- unclosed",
        "-- --",
        "-- --\n",
        "-- a --x\n",
        "-- a -- \n",
        "-- a --\r",
        "--\n-- \n",
    ] {
        let arch = Archive::from(text);
        let mut expected = text.as_bytes().to_vec();
        if !expected.ends_with(b"\n") {
            expected.push(b'\n');
        }
        assert_eq!(arch.comment(), &expected[..], "comment of {text:?}");
        assert!(arch.files().is_empty(), "files of {text:?}");
    }
}

#[test]
fn malformed_first_marker_hides_later_delimiters() {
    let text = "-- broken\n-- good --\ndata\n";
    let arch = Archive::from(text);
    assert_eq!(arch.comment(), text.as_bytes());
    assert!(arch.files().is_empty());

    let arch = Archive::from("-- a --\none\n-- broken\n-- b --\ntwo\n");
    assert_eq!(
        files_of(&arch),
        vec![(&b"a"[..], &b"one\n-- broken\n-- b --\ntwo\n"[..])]
    );
}

#[test]
fn empty_name_ends_the_reading() {
    let arch = Archive::from("note\n--  --\nlost\n-- a --\nalso lost\n");
    assert_eq!(arch.comment(), b"note\n");
    assert!(arch.files().is_empty());

    let arch = Archive::from("-- a --\none\n--  --\nlost\n");
    assert_eq!(files_of(&arch), vec![(&b"a"[..], &b"one\n"[..])]);
}

#[test]
fn names_keep_inner_markers_and_spaces() {
    let arch = Archive::from("--  a  --\n-- -- --\n-- x -- y --\nz");
    assert_eq!(
        files_of(&arch),
        vec![
            (&b" a "[..], &b""[..]),
            (&b"--"[..], &b""[..]),
            (&b"x -- y"[..], &b"z\n"[..]),
        ]
    );
}

#[test]
fn from_bytes_reads_any_bytes() {
    let arch = Archive::from_bytes(b"\xff\n-- \xfe --\n\xfd");
    assert_eq!(arch.comment(), b"\xff\n");
    assert_eq!(files_of(&arch), vec![(&b"\xfe"[..], &b"\xfd\n"[..])]);
}

#[test]
fn fix_newline_copies_only_to_append() {
    let mut kept = Cow::Borrowed(&b"text\n"[..]);
    fix_newline(&mut kept);
    assert!(matches!(kept, Cow::Borrowed(b"text\n")));

    let mut empty = Cow::Borrowed(&b""[..]);
    fix_newline(&mut empty);
    assert!(matches!(empty, Cow::Borrowed(b"")));

    let mut owned: Cow<[u8]> = Cow::Owned(b"text\n".to_vec());
    fix_newline(&mut owned);
    assert!(matches!(owned, Cow::Owned(_)));
    assert_eq!(&owned[..], b"text\n");

    let mut grown = Cow::Borrowed(&b"text"[..]);
    fix_newline(&mut grown);
    assert!(matches!(grown, Cow::Owned(_)));
    assert_eq!(&grown[..], b"text\n");
    fix_newline(&mut grown);
    assert_eq!(&grown[..], b"text\n");
}
