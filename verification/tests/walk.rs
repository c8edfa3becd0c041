//! Walk planning on concrete listings: hidden entries, symbolic links,
//! dry runs, and step order.

use snakit::walk::{plan_dir, Config, EntryKind, FsEntry, Step};

fn entry(name: &str, kind: EntryKind) -> FsEntry {
    FsEntry { name: name.as_bytes().to_vec(), kind }
}

#[test]
fn hidden_entry_untouched_by_default() {
    let entries = vec![entry(".secret file", EntryKind::File)];
    let steps = plan_dir(
        &entries,
        &Config { dry_run: false, include_hidden: false, verbose: false },
    );
    assert!(steps.is_empty());
}

#[test]
fn hidden_entry_renamed_when_included() {
    let entries = vec![entry(".secret file", EntryKind::File)];
    let steps = plan_dir(
        &entries,
        &Config { dry_run: false, include_hidden: true, verbose: false },
    );
    assert_eq!(steps.len(), 1);
    assert!(matches!(&steps[0], Step::Rename { from, to }
        if from == ".secret file".as_bytes() && to == ".secret_file".as_bytes()));
}

#[test]
fn hidden_directory_not_entered() {
    let entries = vec![entry(".Cache Dir", EntryKind::Dir)];
    let steps = plan_dir(
        &entries,
        &Config { dry_run: false, include_hidden: false, verbose: false },
    );
    assert!(steps.is_empty());
}

#[test]
fn symlink_never_renamed_nor_followed() {
    let entries = vec![
        entry("Link To Somewhere", EntryKind::Symlink),
        entry("Real File", EntryKind::File),
    ];
    let steps = plan_dir(
        &entries,
        &Config { dry_run: false, include_hidden: false, verbose: false },
    );
    assert_eq!(steps.len(), 2);
    assert!(matches!(&steps[0], Step::SkipLink { name }
        if name == "Link To Somewhere".as_bytes()));
    assert!(matches!(&steps[1], Step::Rename { from, to }
        if from == "Real File".as_bytes() && to == "real_file".as_bytes()));
}

#[test]
fn dry_run_plans_no_rename() {
    let entries = vec![
        entry("One File.txt", EntryKind::File),
        entry("fine.txt", EntryKind::File),
        entry("Other File.txt", EntryKind::File),
    ];
    let steps = plan_dir(
        &entries,
        &Config { dry_run: true, include_hidden: false, verbose: false },
    );
    assert_eq!(steps.len(), 2);
    for step in &steps {
        assert!(matches!(step, Step::Preview { .. }));
    }
    assert!(matches!(&steps[0], Step::Preview { from, to }
        if from == "One File.txt".as_bytes() && to == "one_file.txt".as_bytes()));
    assert!(matches!(&steps[1], Step::Preview { from, to }
        if from == "Other File.txt".as_bytes() && to == "other_file.txt".as_bytes()));
}

#[test]
fn directory_entered_before_it_is_renamed() {
    let entries = vec![entry("My Dir", EntryKind::Dir)];
    let steps = plan_dir(
        &entries,
        &Config { dry_run: false, include_hidden: false, verbose: false },
    );
    assert_eq!(steps.len(), 2);
    assert!(matches!(&steps[0], Step::Recurse { name } if name == "My Dir".as_bytes()));
    assert!(matches!(&steps[1], Step::Rename { from, to }
        if from == "My Dir".as_bytes() && to == "my_dir".as_bytes()));
}

#[test]
fn later_rename_sees_earlier_one() {
    // Two names that collapse to the same target: the second takes a counter.
    let entries = vec![
        entry("a b.txt", EntryKind::File),
        entry("a  b.txt", EntryKind::File),
    ];
    let steps = plan_dir(
        &entries,
        &Config { dry_run: false, include_hidden: false, verbose: false },
    );
    assert_eq!(steps.len(), 2);
    assert!(matches!(&steps[0], Step::Rename { from, to }
        if from == "a b.txt".as_bytes() && to == "a_b.txt".as_bytes()));
    assert!(matches!(&steps[1], Step::Rename { from, to }
        if from == "a  b.txt".as_bytes() && to == "a_b_1.txt".as_bytes()));
}

#[test]
fn collision_with_existing_name() {
    // A target taken by another entry's current name collides.
    let entries = vec![
        entry("A.txt", EntryKind::File),
        entry("a.txt", EntryKind::File),
    ];
    let steps = plan_dir(
        &entries,
        &Config { dry_run: false, include_hidden: false, verbose: false },
    );
    assert_eq!(steps.len(), 1);
    assert!(matches!(&steps[0], Step::Rename { from, to }
        if from == "A.txt".as_bytes() && to == "a_1.txt".as_bytes()));
}
