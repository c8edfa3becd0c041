//! The tool-level scenarios, run against the library's planner: each test
//! sets up a directory listing as the binary would read it, plans the walk,
//! and checks the steps and the resulting names.

use snakit::walk::{plan_dir, Config, EntryKind, FsEntry, Step};
use snakit::{validate_root, RootError};

fn entry(name: &str, kind: EntryKind) -> FsEntry {
    FsEntry { name: name.as_bytes().to_vec(), kind }
}

fn quiet(dry_run: bool, include_hidden: bool) -> Config {
    Config { dry_run, include_hidden, verbose: false }
}

/// Applies the rename steps to a name list, as the binary applies them to
/// the directory, and returns the final names.
fn apply(names: &[&str], steps: &[Step]) -> Vec<Vec<u8>> {
    let mut present: Vec<Vec<u8>> = names.iter().map(|n| n.as_bytes().to_vec()).collect();
    for step in steps {
        if let Step::Rename { from, to } = step {
            assert!(!present.contains(to), "rename target already present");
            if let Some(i) = present.iter().position(|n| n == from) {
                present.remove(i);
            }
            present.push(to.clone());
        }
    }
    present
}

#[test]
fn invalid_path() {
    let r = validate_root(false, false);
    assert_eq!(r, Err(RootError::Missing));
    let msg = r.unwrap_err().message();
    assert!(msg.contains("does not exist"));
}

#[test]
fn path_is_file() {
    let r = validate_root(true, false);
    assert_eq!(r, Err(RootError::NotDirectory));
    let msg = r.unwrap_err().message();
    assert!(msg.contains("is not a directory"));
}

#[test]
fn one_file() {
    let entries = vec![entry("tmp file.txt", EntryKind::File)];
    let steps = plan_dir(&entries, &quiet(false, false));
    assert_eq!(steps.len(), 1);
    match &steps[0] {
        Step::Rename { from, to } => {
            assert_eq!(from, "tmp file.txt".as_bytes());
            assert_eq!(to, "tmp_file.txt".as_bytes());
        }
        _ => panic!("expected a rename step"),
    }
    let after = apply(&["tmp file.txt"], &steps);
    assert!(after.contains(&"tmp_file.txt".as_bytes().to_vec()));
}

#[test]
fn multiple_files() {
    let entries = vec![
        entry("tmp file.txt", EntryKind::File),
        entry("another file.txt", EntryKind::File),
    ];
    let steps = plan_dir(&entries, &quiet(false, false));
    assert_eq!(steps.len(), 2);
    let after = apply(&["tmp file.txt", "another file.txt"], &steps);
    assert!(after.contains(&"tmp_file.txt".as_bytes().to_vec()));
    assert!(after.contains(&"another_file.txt".as_bytes().to_vec()));
}

#[test]
fn nested_directories() {
    // Top level: the directory `test`, already in normal form.
    let top = vec![entry("test", EntryKind::Dir)];
    let steps = plan_dir(&top, &quiet(false, false));
    assert_eq!(steps.len(), 1);
    assert!(matches!(&steps[0], Step::Recurse { name } if name == "test".as_bytes()));
    // Inside it: the file to rename.
    let inner = vec![entry("tmp file.txt", EntryKind::File)];
    let inner_steps = plan_dir(&inner, &quiet(false, false));
    let after = apply(&["tmp file.txt"], &inner_steps);
    assert!(after.contains(&"tmp_file.txt".as_bytes().to_vec()));
}

#[test]
fn hidden_file() {
    let entries = vec![entry(".tmp file.txt", EntryKind::File)];
    let steps = plan_dir(&entries, &quiet(false, true));
    assert_eq!(steps.len(), 1);
    match &steps[0] {
        Step::Rename { from, to } => {
            assert_eq!(from, ".tmp file.txt".as_bytes());
            assert_eq!(to, ".tmp_file.txt".as_bytes());
        }
        _ => panic!("expected a rename step"),
    }
}

#[test]
fn hidden_file_skipped() {
    let entries = vec![entry(".tmp file.txt", EntryKind::File)];
    let steps = plan_dir(&entries, &quiet(false, false));
    assert!(steps.is_empty());
    let after = apply(&[".tmp file.txt"], &steps);
    assert!(after.contains(&".tmp file.txt".as_bytes().to_vec()));
}

#[test]
fn verbose() {
    // Verbose changes only what the binary prints; the planned rename that
    // the report would name is still there.
    let entries = vec![entry("tmp file.txt", EntryKind::File)];
    let cfg = Config { dry_run: false, include_hidden: false, verbose: true };
    let steps = plan_dir(&entries, &cfg);
    assert_eq!(steps.len(), 1);
    assert!(matches!(&steps[0], Step::Rename { from, to }
        if from == "tmp file.txt".as_bytes() && to == "tmp_file.txt".as_bytes()));
}

#[test]
fn collision() {
    let entries = vec![
        entry("tmp file.txt", EntryKind::File),
        entry("tmp_file.txt", EntryKind::File),
    ];
    let steps = plan_dir(&entries, &quiet(false, false));
    assert_eq!(steps.len(), 1);
    match &steps[0] {
        Step::Rename { from, to } => {
            assert_eq!(from, "tmp file.txt".as_bytes());
            assert_eq!(to, "tmp_file_1.txt".as_bytes());
        }
        _ => panic!("expected a rename step"),
    }
    let after = apply(&["tmp file.txt", "tmp_file.txt"], &steps);
    assert!(after.contains(&"tmp_file.txt".as_bytes().to_vec()));
    assert!(after.contains(&"tmp_file_1.txt".as_bytes().to_vec()));
    assert!(!after.contains(&"tmp file.txt".as_bytes().to_vec()));
}
