use txtar::split::split_file_markers;

fn split(text: &str) -> (&str, &str, &str) {
    let (prefix, name, rest) = split_file_markers(text.as_bytes());
    (
        std::str::from_utf8(prefix).unwrap(),
        std::str::from_utf8(name).unwrap(),
        std::str::from_utf8(rest).unwrap(),
    )
}

#[test]
fn split_at_first_line() {
    assert_eq!(split("-- a --\nrest"), ("", "a", "rest"));
    assert_eq!(split("-- a --\n"), ("", "a", ""));
    assert_eq!(split("-- a --"), ("", "a", ""));
}

#[test]
fn split_after_a_prefix() {
    assert_eq!(split("one\ntwo\n-- a --\nrest\n"), ("one\ntwo\n", "a", "rest\n"));
    assert_eq!(split("\n-- a --\nrest"), ("\n", "a", "rest"));
    assert_eq!(split("one\n-- a --"), ("one\n", "a", ""));
}

#[test]
fn split_takes_the_first_delimiter_only() {
    assert_eq!(
        split("c\n-- a --\none\n-- b --\ntwo\n"),
        ("c\n", "a", "one\n-- b --\ntwo\n")
    );
}

#[test]
fn split_drops_one_carriage_return() {
    assert_eq!(split("c\r\n-- a --\r\nrest\r\n"), ("c\r\n", "a", "rest\r\n"));
    assert_eq!(split("-- a\r --\r\n"), ("", "a\r", ""));
    let text = "-- a --\r\r\nrest";
    assert_eq!(split(text), (text, "", ""));
}

#[test]
fn split_last_line_needs_the_closing_marker_at_its_end() {
    let text = "c\n-- a --\r";
    assert_eq!(split(text), (text, "", ""));
    let text = "c\n-- a -- ";
    assert_eq!(split(text), (text, "", ""));
}

#[test]
fn split_without_delimiter_hands_out_the_text() {
    for text in [
        "",
        "-",
        "--",
        "-- ",
        "text",
        "text\n",
        "a -- b --\n",
        "\n--x --\n",
        "-- a\n",
        "-- a --b\n",
        "-- --",
        "-- --\n",
        "-- -\n-- a --\n",
    ] {
        assert_eq!(split(text), (text, "", ""), "split of {text:?}");
    }
}

#[test]
fn split_with_empty_name_still_cuts() {
    assert_eq!(split("c\n--  --\nrest"), ("c\n", "", "rest"));
    assert_eq!(split("--  --"), ("", "", ""));
}

#[test]
fn split_hands_out_parts_of_the_input() {
    let text = b"head\n-- name --\ntail";
    let (prefix, name, rest) = split_file_markers(text);
    let range = text.as_ptr_range();
    for part in [prefix, name, rest] {
        let inner = part.as_ptr_range();
        assert!(range.start <= inner.start && inner.end <= range.end);
    }
    assert_eq!(prefix.as_ptr(), text.as_ptr());
}
