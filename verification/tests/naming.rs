//! The normalization rule on concrete names: exact outputs, the edge cases,
//! and idempotence.

use snakit::naming::{normalize, rename_target};

fn norm(name: &str, hidden: bool) -> String {
    let out = normalize(&name.as_bytes().to_vec(), hidden);
    String::from_utf8(out).unwrap()
}

fn target(name: &str) -> String {
    let out = rename_target(&name.as_bytes().to_vec());
    String::from_utf8(out).unwrap()
}

#[test]
fn spaces_become_underscores() {
    assert_eq!(norm("tmp file.txt", false), "tmp_file.txt");
    assert_eq!(norm("a b c", false), "a_b_c");
}

#[test]
fn whitespace_runs_collapse() {
    assert_eq!(norm("a  \t b.txt", false), "a_b.txt");
    assert_eq!(norm("line\nbreak", false), "line_break");
}

#[test]
fn stem_is_trimmed() {
    assert_eq!(norm("  padded  .txt", false), "padded.txt");
    assert_eq!(norm(" plain ", false), "plain");
}

#[test]
fn ascii_is_lowered_but_extension_kept() {
    assert_eq!(norm("Foo Bar.TXT", false), "foo_bar.TXT");
    assert_eq!(norm("MiXeD", false), "mixed");
}

#[test]
fn punctuation_is_left_alone() {
    assert_eq!(norm("My-File (1).txt", false), "my-file_(1).txt");
}

#[test]
fn last_dot_splits() {
    assert_eq!(norm("My File.tar.gz", false), "my_file.tar.gz");
    assert_eq!(norm("no extension", false), "no_extension");
}

#[test]
fn hidden_keeps_its_dot() {
    assert_eq!(norm(".secret file", true), ".secret_file");
    assert_eq!(norm(".Tmp File.TXT", true), ".tmp_file.TXT");
    assert_eq!(norm(".", true), ".");
}

#[test]
fn empty_name_stays_empty() {
    assert_eq!(norm("", false), "");
    assert_eq!(norm("   ", false), "");
}

#[test]
fn already_normal_is_unchanged() {
    assert_eq!(norm("tmp_file.txt", false), "tmp_file.txt");
    assert_eq!(norm(".hidden", true), ".hidden");
    assert_eq!(norm("a.b.c", false), "a.b.c");
}

#[test]
fn non_ascii_bytes_pass_through() {
    let name = "caf\u{e9} au lait".as_bytes().to_vec();
    let out = normalize(&name, false);
    assert_eq!(String::from_utf8(out).unwrap(), "caf\u{e9}_au_lait");
}

#[test]
fn renaming_twice_changes_nothing() {
    for name in [
        "tmp file.txt",
        "Foo Bar.TXT",
        ".Secret File.md",
        "My File.tar.gz",
        "  padded  name  ",
        "UPPER",
        "..twice.dotted",
        "ends with dot.",
        "a",
        "",
    ] {
        let once = target(name);
        let twice = target(&once);
        assert_eq!(twice, once, "name {:?} not idempotent", name);
    }
}
