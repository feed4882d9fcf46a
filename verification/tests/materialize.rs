use txtar::materialize::{check_escape, escapes_directory};
use txtar::{Archive, File, Materialization, MaterializeError};

const BASIC: &str = "\
comment1
comment2
-- file1 --
File 1 text.
-- foo --
File 2 text.
-- empty --
-- noNL --
hello world";

fn written<'a>(plan: &'a Materialization, child: &str) -> &'a [u8] {
    let mut found = None;
    for new in &plan.files {
        if new.path == child {
            assert!(found.is_none(), "{child} is written twice");
            found = Some(new.data);
        }
    }
    match found {
        Some(data) => data,
        None => panic!("{child} is not written"),
    }
}

fn check_contents(plan: &Materialization, child: &str, contents: &str) {
    let text = String::from_utf8(written(plan, child).to_vec()).unwrap();
    assert!(text.contains(contents));
    assert!(text.ends_with("\n"));
}

fn check_bad_materialize(bad_rel: Archive, expected: &str) {
    let plan = bad_rel.materialize();
    assert!(plan.files.is_empty());
    match plan.failure {
        Some(MaterializeError::DirEscape(p)) => assert_eq!(p, expected.to_string()),
        Some(e) => panic!("expected `MaterializeError::DirEscape`, got {:?}", e),
        None => panic!(
            "materialize({}) outside of parent dir should have failed",
            expected
        ),
    }
}

#[test]
fn materialize_basic() {
    {
        let good = Archive::from("-- good.txt --");
        let plan = good.materialize();
        assert!(plan.failure.is_none(), "good.materialize should not error");
        assert_eq!(plan.files.len(), 1);
        assert!(written(&plan, "good.txt").is_empty());
    }
    {
        let basic = Archive::from(BASIC);
        let plan = basic.materialize();
        assert!(plan.failure.is_none(), "basic.materialize should not error");
        assert_eq!(plan.files.len(), 4);

        check_contents(&plan, "file1", "File 1 text.");
        check_contents(&plan, "foo", "File 2 text.");
        check_contents(&plan, "noNL", "hello world");
        assert!(written(&plan, "empty").is_empty());
    }
    {
        let bad_rel = Archive::from("-- ../bad.txt --");
        check_bad_materialize(bad_rel, "../bad.txt");

        let bad_abs = Archive::from("-- /bad.txt --");
        check_bad_materialize(bad_abs, "/bad.txt");
    }
}

#[test]
fn materialize_nested() {
    {
        let nested = Archive::from(
            "comment\n\
             -- foo/foo.txt --\nThis is foo.\n\
             -- bar/bar.txt --\nThis is bar.\n\
             -- bar/deep/deeper/abyss.txt --\nThis is in the DEEPS.",
        );
        let plan = nested.materialize();
        assert!(plan.failure.is_none(), "nested.materialize should not error");
        assert_eq!(plan.files.len(), 3);

        check_contents(&plan, "foo/foo.txt", "This is foo.");
        check_contents(&plan, "bar/bar.txt", "This is bar.");
        check_contents(&plan, "bar/deep/deeper/abyss.txt", "This is in the DEEPS.");
    }
    {
        let bad_nested_rel = Archive::from("-- bar/deep/deeper/../../../../escaped.txt --");
        check_bad_materialize(bad_nested_rel, "../escaped.txt");
    }
}

#[test]
fn materialize_keeps_order_and_exact_content() {
    let basic = Archive::from(BASIC);
    let plan = basic.materialize();
    let paths: Vec<&str> = plan.files.iter().map(|w| w.path.as_str()).collect();
    assert_eq!(paths, vec!["file1", "foo", "empty", "noNL"]);
    assert_eq!(plan.files[0].data, b"File 1 text.\n");
    assert_eq!(plan.files[1].data, b"File 2 text.\n");
    assert_eq!(plan.files[2].data, b"");
    assert_eq!(plan.files[3].data, b"hello world\n");
}

#[test]
fn materialize_stops_at_first_escape() {
    let arch = Archive::from("-- a --\none\n-- b/../c --\ntwo\n-- ../d --\nthree\n-- e --\nfour\n");
    let plan = arch.materialize();
    assert_eq!(plan.files.len(), 2);
    assert_eq!(plan.files[0].path, "a");
    assert_eq!(plan.files[0].data, b"one\n");
    assert_eq!(plan.files[1].path, "c");
    assert_eq!(plan.files[1].data, b"two\n");
    match plan.failure {
        Some(MaterializeError::DirEscape(p)) => assert_eq!(p, "../d"),
        other => panic!("expected DirEscape, got {:?}", other),
    }
}

#[test]
fn materialize_empty_archive_writes_nothing() {
    let arch = Archive::from("only a comment");
    let plan = arch.materialize();
    assert!(plan.files.is_empty());
    assert!(plan.failure.is_none());
}

#[test]
fn target_is_the_cleaned_name() {
    let cases = [
        ("a/../b", "b"),
        ("./x//y/", "x/y"),
        ("dir/./file.txt", "dir/file.txt"),
        ("a/b/../../c", "c"),
        ("..foo", "..foo"),
        ("...", "..."),
        (".", "."),
    ];
    for (name, cleaned) in cases {
        let file = File::new(name, "");
        match file.target() {
            Ok(path) => assert_eq!(path, cleaned, "target of {name}"),
            Err(e) => panic!("{name} should stay inside, got {:?}", e),
        }
    }
}

#[test]
fn target_refuses_what_escapes() {
    let cases = [
        ("..", ".."),
        ("../", ".."),
        ("a/../..", ".."),
        ("../../x", "../../x"),
        ("/", "/"),
        ("/etc/passwd", "/etc/passwd"),
        ("//x/../y", "/y"),
        ("/..", "/"),
    ];
    for (name, cleaned) in cases {
        let file = File::new(name, "");
        match file.target() {
            Err(MaterializeError::DirEscape(path)) => assert_eq!(path, cleaned, "target of {name}"),
            other => panic!("{name} should escape, got {:?}", other),
        }
    }
}

#[test]
fn target_reads_the_name_as_utf8() {
    let name: &[u8] = b"dir/\xff/../f\xc3\xa9";
    match File::from_bytes(name, b"").target() {
        Ok(path) => assert_eq!(path, "dir/f\u{e9}"),
        Err(e) => panic!("should stay inside, got {:?}", e),
    }
    match File::from_bytes(b"\xff", b"").target() {
        Ok(path) => assert_eq!(path, "\u{fffd}"),
        Err(e) => panic!("should stay inside, got {:?}", e),
    }
}

#[test]
fn check_escape_hands_the_path_back() {
    for path in ["a", "a/b", ".", "..a", ".a/..", "", "\u{e9}/x", "a/../b"] {
        match check_escape(path.to_string()) {
            Ok(p) => assert_eq!(p, path),
            Err(e) => panic!("{path} should pass, got {:?}", e),
        }
    }
    for path in ["..", "../", "../a", "/", "/a", "..//"] {
        match check_escape(path.to_string()) {
            Err(MaterializeError::DirEscape(p)) => assert_eq!(p, path),
            other => panic!("{path} should be refused, got {:?}", other),
        }
    }
}

#[test]
fn escapes_directory_by_first_element() {
    assert!(escapes_directory("/"));
    assert!(escapes_directory("/x"));
    assert!(escapes_directory(".."));
    assert!(escapes_directory("../x"));
    assert!(!escapes_directory(""));
    assert!(!escapes_directory("."));
    assert!(!escapes_directory("./.."));
    assert!(!escapes_directory("..x"));
    assert!(!escapes_directory("x/.."));
    assert!(!escapes_directory("x/../.."));
    assert!(!escapes_directory("\u{2025}/x"));
    assert!(!escapes_directory(".\u{e9}"));
}

#[test]
fn materialize_fails_with_dir_escape_only() {
    for text in ["", "-- a --", "-- .. --", "-- / --\nx", "c\n-- a/b --\n-- ../../c --\n"] {
        let arch = Archive::from(text);
        match arch.materialize().failure {
            None | Some(MaterializeError::DirEscape(_)) => {}
            Some(MaterializeError::Io(e)) => panic!("{text:?} gave an I/O error: {e}"),
        }
    }
}
