//! Paths as byte strings, and texts.

use workmux::fs_path::FsPath;
use workmux::text::{decimal_text, join_texts, signed_decimal_text, sort_texts};

fn path(text: &str) -> FsPath {
    FsPath::from_text(text)
}

fn parent(text: &str) -> Option<String> {
    path(text).parent().map(|up| up.to_text())
}

fn name(text: &str) -> Option<String> {
    path(text).file_name().map(|name| String::from_utf8(name).unwrap())
}

fn std_parent(text: &str) -> Option<String> {
    std::path::Path::new(text).parent().map(|up| up.to_str().unwrap().to_string())
}

fn std_name(text: &str) -> Option<String> {
    std::path::Path::new(text).file_name().map(|name| name.to_str().unwrap().to_string())
}

const SAMPLES: [&str; 24] = [
    "", "/", "//", ".", "..", "/.", "/..", "a", "a/", "a//", "./a", "a/.", "a/..", "a/./b",
    "a/b/", "/a", "//a", "/a/b", "/a//b//", "/a/../b", "/a/b/./", "./.", "a/./.", "/./a",
];

#[test]
fn paths_are_taken_apart_as_the_system_does() {
    for sample in SAMPLES {
        assert_eq!(parent(sample), std_parent(sample), "parent of {sample:?}");
        assert_eq!(name(sample), std_name(sample), "name of {sample:?}");
    }
}

#[test]
fn paths_are_compared_as_the_system_does() {
    for one in SAMPLES {
        for other in SAMPLES {
            let (a, b) = (std::path::Path::new(one), std::path::Path::new(other));
            assert_eq!(path(one).same_path(&path(other)), a == b, "{one:?} == {other:?}");
            assert_eq!(
                path(one).starts_with(&path(other)),
                a.starts_with(b),
                "{one:?} below {other:?}"
            );
        }
    }
}

#[test]
fn paths_are_joined_as_the_system_does() {
    for one in SAMPLES {
        for other in SAMPLES {
            assert_eq!(
                path(one).join(&path(other)).to_text(),
                std::path::Path::new(one).join(other).to_str().unwrap(),
                "{one:?} with {other:?}"
            );
        }
    }
}

#[test]
fn a_joined_name_is_split_off_again() {
    let joined = path("/w/trees").join(&path("feature"));
    assert_eq!(joined.to_text(), "/w/trees/feature");
    assert_eq!(joined.file_name().unwrap(), b"feature");
    assert!(joined.parent().unwrap().same_path(&path("/w/trees")));
}

#[test]
fn undecodable_bytes_are_replaced_when_shown() {
    assert_eq!(FsPath::new(b"caf\xc3\xa9".to_vec()).to_text(), "café");
    assert_eq!(FsPath::new(b"a\xffb".to_vec()).to_text(), "a\u{fffd}b");
    assert_eq!(FsPath::new(vec![]).to_text(), "");
    assert_eq!(FsPath::new(b"/w/\xfe".to_vec()).to_text(), "/w/\u{fffd}");
}

#[test]
fn numbers_are_written_in_decimal() {
    assert_eq!(decimal_text(0), "0");
    assert_eq!(decimal_text(10), "10");
    assert_eq!(decimal_text(u64::MAX), "18446744073709551615");
    assert_eq!(signed_decimal_text(39), "39");
    assert_eq!(signed_decimal_text(0), "0");
    assert_eq!(signed_decimal_text(-1), "-1");
    assert_eq!(signed_decimal_text(i32::MIN), "-2147483648");
}

#[test]
fn texts_are_sorted_by_their_bytes() {
    let list = ["b", "a", "ab", "", "Z", "é", "b"].map(String::from).to_vec();
    assert_eq!(sort_texts(list), ["", "Z", "a", "ab", "b", "b", "é"]);
}

#[test]
fn texts_are_joined_with_a_separator_between() {
    let list = vec!["a".to_string(), "b".to_string(), "c".to_string()];
    assert_eq!(join_texts(&list, "\n  "), "a\n  b\n  c");
    assert_eq!(join_texts(&vec!["a".to_string()], ", "), "a");
    assert_eq!(join_texts(&vec![], ", "), "");
}
