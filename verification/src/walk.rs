//! Walk planning: which steps one directory level gives rise to.
//!
//! The binary lists a directory, hands the entries over, and receives the
//! steps in order: recurse into a subdirectory (before that subdirectory is
//! itself renamed), rename an entry to a resolved free name, preview a
//! rename in dry-run mode, or note a skipped symbolic link. While planning,
//! the set of names present in the directory is tracked as renames would
//! land, so collision resolution sees the directory as it will stand when
//! the step runs.

use vstd::prelude::*;
use crate::collide::{name_views, spec_resolve, resolve, bytes_eq};
use crate::naming::{spec_normalize, spec_rename_target, normalize, copy_range};
use crate::spec_hidden;

verus! {

/// What kind of entry a directory listing reported.
#[derive(Clone, Copy, PartialEq, Eq, Structural, Debug)]
pub enum EntryKind {
    File,
    Dir,
    Symlink,
}

/// One directory entry: its name as bytes, and its kind.
pub struct FsEntry {
    pub name: Vec<u8>,
    pub kind: EntryKind,
}

/// The ghost image of an entry.
pub ghost struct EntryView {
    pub name: Seq<u8>,
    pub kind: EntryKind,
}

impl View for FsEntry {
    type V = EntryView;

    open spec fn view(&self) -> EntryView {
        EntryView { name: self.name@, kind: self.kind }
    }
}

/// How a run is configured: preview only, touch hidden entries, report.
#[derive(Clone, Copy, PartialEq, Eq, Structural, Debug)]
pub struct Config {
    pub dry_run: bool,
    pub include_hidden: bool,
    pub verbose: bool,
}

/// One step of the plan for a directory level.
pub enum Step {
    /// Descend into this subdirectory, under its current name.
    Recurse { name: Vec<u8> },
    /// Rename `from` to `to` within the directory.
    Rename { from: Vec<u8>, to: Vec<u8> },
    /// Dry run: report that `from` would be renamed to `to`.
    Preview { from: Vec<u8>, to: Vec<u8> },
    /// A symbolic link that is left alone.
    SkipLink { name: Vec<u8> },
}

/// The ghost image of a step.
pub ghost enum StepView {
    Recurse { name: Seq<u8> },
    Rename { from: Seq<u8>, to: Seq<u8> },
    Preview { from: Seq<u8>, to: Seq<u8> },
    SkipLink { name: Seq<u8> },
}

impl View for Step {
    type V = StepView;

    open spec fn view(&self) -> StepView {
        match self {
            Step::Recurse { name } => StepView::Recurse { name: name@ },
            Step::Rename { from, to } => StepView::Rename { from: from@, to: to@ },
            Step::Preview { from, to } => StepView::Preview { from: from@, to: to@ },
            Step::SkipLink { name } => StepView::SkipLink { name: name@ },
        }
    }
}

/// The views of a list of entries.
pub open spec fn entry_views(es: Seq<FsEntry>) -> Seq<EntryView> {
    es.map_values(|e: FsEntry| e@)
}

/// The views of a list of steps.
pub open spec fn step_views(ss: Seq<Step>) -> Seq<StepView> {
    ss.map_values(|s: Step| s@)
}

/// The names of a list of entries.
pub open spec fn names_of(es: Seq<EntryView>) -> Seq<Seq<u8>> {
    es.map_values(|e: EntryView| e.name)
}

/// Removes the first occurrence of `x`, if any.
pub open spec fn remove_first(names: Seq<Seq<u8>>, x: Seq<u8>) -> Seq<Seq<u8>>
    decreases names.len(),
{
    if names.len() == 0 {
        names
    } else if names[0] == x {
        names.drop_first()
    } else {
        seq![names[0]] + remove_first(names.drop_first(), x)
    }
}

/// The steps one entry yields, and the directory's names after they run.
/// Hidden entries are skipped entirely unless configured in; symbolic links
/// are never renamed nor entered; a subdirectory is entered before it is
/// renamed; an entry already in normal form is left alone; otherwise its
/// target name is resolved against the names now present and the rename
/// (or, in a dry run, only a preview) is recorded.
pub open spec fn plan_entry(e: EntryView, names: Seq<Seq<u8>>, cfg: Config) -> (Seq<StepView>, Seq<
    Seq<u8>,
>) {
    let hidden = spec_hidden(e.name);
    if hidden && !cfg.include_hidden {
        (Seq::<StepView>::empty(), names)
    } else if e.kind == EntryKind::Symlink {
        (seq![StepView::SkipLink { name: e.name }], names)
    } else {
        let pre = if e.kind == EntryKind::Dir {
            seq![StepView::Recurse { name: e.name }]
        } else {
            Seq::<StepView>::empty()
        };
        let target = spec_normalize(e.name, hidden);
        if target == e.name {
            (pre, names)
        } else if cfg.dry_run {
            (pre + seq![StepView::Preview { from: e.name, to: target }], names)
        } else {
            let to = spec_resolve(names, target);
            (
                pre + seq![StepView::Rename { from: e.name, to }],
                remove_first(names, e.name).push(to),
            )
        }
    }
}

/// The steps a whole listing yields, processed in order, and the final
/// names.
pub open spec fn spec_plan(entries: Seq<EntryView>, names: Seq<Seq<u8>>, cfg: Config) -> (Seq<
    StepView,
>, Seq<Seq<u8>>)
    decreases entries.len(),
{
    if entries.len() == 0 {
        (Seq::<StepView>::empty(), names)
    } else {
        let first = plan_entry(entries[0], names, cfg);
        let rest = spec_plan(entries.drop_first(), first.1, cfg);
        (first.0 + rest.0, rest.1)
    }
}

/// The full plan for a directory listing: every entry's name is present at
/// the start.
pub open spec fn spec_plan_dir(entries: Seq<EntryView>, cfg: Config) -> Seq<StepView> {
    spec_plan(entries, names_of(entries), cfg).0
}

/// Removes the first occurrence of `x` from the name list.
fn remove_name(names: &mut Vec<Vec<u8>>, x: &Vec<u8>)
    ensures
        name_views(final(names)@) == remove_first(name_views(old(names)@), x@),
{
    let mut i: usize = 0;
    while i < names.len()
        invariant
            i <= names.len(),
            names@ == old(names)@,
            forall|j: int| 0 <= j < i ==> names@[j]@ != x@,
        decreases names.len() - i,
    {
        if bytes_eq(&names[i], x) {
            names.remove(i);
            proof {
                lemma_remove_first_at(name_views(old(names)@), x@, i as int);
                assert(name_views(names@) =~= name_views(old(names)@).remove(i as int));
            }
            return ;
        }
        i = i + 1;
    }
    proof {
        lemma_remove_first_absent(name_views(names@), x@);
    }
}

/// When `x` first occurs at `i`, removing it is removing index `i`.
proof fn lemma_remove_first_at(names: Seq<Seq<u8>>, x: Seq<u8>, i: int)
    requires
        0 <= i < names.len(),
        names[i] == x,
        forall|j: int| 0 <= j < i ==> names[j] != x,
    ensures
        remove_first(names, x) == names.remove(i),
    decreases names.len(),
{
    if i == 0 {
        assert(names.remove(0) =~= names.drop_first());
    } else {
        lemma_remove_first_at(names.drop_first(), x, i - 1);
        assert(seq![names[0]] + names.drop_first().remove(i - 1) =~= names.remove(i));
    }
}

/// Removing a name that is not present changes nothing.
proof fn lemma_remove_first_absent(names: Seq<Seq<u8>>, x: Seq<u8>)
    requires
        forall|j: int| 0 <= j < names.len() ==> names[j] != x,
    ensures
        remove_first(names, x) == names,
    decreases names.len(),
{
    if names.len() > 0 {
        lemma_remove_first_absent(names.drop_first(), x);
        assert(seq![names[0]] + names.drop_first() =~= names);
    }
}

/// Plans one directory level: the steps the binary is to run, in order.
pub fn plan_dir(entries: &Vec<FsEntry>, cfg: &Config) -> (r: Vec<Step>)
    ensures
        step_views(r@) == spec_plan_dir(entry_views(entries@), *cfg),
{
    let ghost evs = entry_views(entries@);
    let mut names: Vec<Vec<u8>> = Vec::new();
    let mut i: usize = 0;
    while i < entries.len()
        invariant
            i <= entries.len(),
            evs == entry_views(entries@),
            names@.len() == i,
            forall|j: int| 0 <= j < i ==> #[trigger] names@[j]@ == entries@[j].name@,
        decreases entries.len() - i,
    {
        let name_copy = copy_range(&entries[i].name, 0, entries[i].name.len());
        proof {
            assert(entries@[i as int].name@.subrange(0, entries@[i as int].name@.len() as int)
                =~= entries@[i as int].name@);
        }
        names.push(name_copy);
        i = i + 1;
    }
    let mut steps: Vec<Step> = Vec::new();
    let ghost whole = spec_plan(evs, names_of(evs), *cfg);
    proof {
        assert(name_views(names@) =~= names_of(evs)) by {
            assert(forall|j: int|
                0 <= j < names@.len() ==> #[trigger] name_views(names@)[j] == names@[j]@);
            assert(forall|j: int|
                0 <= j < evs.len() ==> #[trigger] names_of(evs)[j] == evs[j].name);
            assert(forall|j: int| 0 <= j < evs.len() ==> #[trigger] evs[j] == entries@[j]@);
        }
        assert(evs.subrange(0, evs.len() as int) =~= evs);
        assert(step_views(steps@).len() == 0);
        assert(Seq::<StepView>::empty() + whole.0 =~= whole.0);
    }
    let mut k: usize = 0;
    while k < entries.len()
        invariant
            k <= entries.len(),
            evs == entry_views(entries@),
            whole == spec_plan(evs, names_of(evs), *cfg),
            step_views(steps@) + spec_plan(
                evs.subrange(k as int, evs.len() as int),
                name_views(names@),
                *cfg,
            ).0 =~= whole.0,
            spec_plan(evs.subrange(k as int, evs.len() as int), name_views(names@), *cfg).1
                == whole.1,
        decreases entries.len() - k,
    {
        let ghost rem = evs.subrange(k as int, evs.len() as int);
        let ghost cur_names = name_views(names@);
        let ghost e = evs[k as int];
        let ghost old_steps = step_views(steps@);
        proof {
            assert(rem[0] == e);
            assert(rem.drop_first() =~= evs.subrange(k + 1, evs.len() as int));
        }
        let entry = &entries[k];
        let hidden = crate::is_hidden(&entry.name);
        if hidden && !cfg.include_hidden {
            // skipped entirely
        } else if matches!(entry.kind, EntryKind::Symlink) {
            let name_copy = copy_range(&entry.name, 0, entry.name.len());
            proof {
                assert(entry.name@.subrange(0, entry.name@.len() as int) =~= entry.name@);
            }
            steps.push(Step::SkipLink { name: name_copy });
        } else {
            if matches!(entry.kind, EntryKind::Dir) {
                let name_copy = copy_range(&entry.name, 0, entry.name.len());
                proof {
                    assert(entry.name@.subrange(0, entry.name@.len() as int) =~= entry.name@);
                }
                steps.push(Step::Recurse { name: name_copy });
            }
            let target = normalize(&entry.name, hidden);
            if !bytes_eq(&target, &entry.name) {
                let from_copy = copy_range(&entry.name, 0, entry.name.len());
                proof {
                    assert(entry.name@.subrange(0, entry.name@.len() as int) =~= entry.name@);
                }
                if cfg.dry_run {
                    steps.push(Step::Preview { from: from_copy, to: target });
                } else {
                    let to = resolve(&names, &target);
                    let to_copy = copy_range(&to, 0, to.len());
                    proof {
                        assert(to@.subrange(0, to@.len() as int) =~= to@);
                    }
                    remove_name(&mut names, &entry.name);
                    names.push(to_copy);
                    proof {
                        assert(name_views(names@) =~= remove_first(cur_names, e.name).push(to@));
                    }
                    steps.push(Step::Rename { from: from_copy, to });
                }
            }
        }
        proof {
            let planned = plan_entry(e, cur_names, *cfg);
            let rest = spec_plan(rem.drop_first(), planned.1, *cfg);
            assert(spec_plan(rem, cur_names, *cfg).0 == planned.0 + rest.0);
            assert(name_views(names@) == planned.1);
            assert(step_views(steps@) =~= old_steps + planned.0);
            assert((old_steps + (planned.0 + rest.0)) =~= (old_steps + planned.0) + rest.0);
        }
        k = k + 1;
    }
    proof {
        assert(evs.subrange(evs.len() as int, evs.len() as int) =~= Seq::<EntryView>::empty());
        assert(step_views(steps@) + Seq::<StepView>::empty() =~= step_views(steps@));
    }
    steps
}

/// The subject of a step: the current name of the entry it concerns.
pub open spec fn step_subject(s: StepView) -> Seq<u8> {
    match s {
        StepView::Recurse { name } => name,
        StepView::Rename { from, to } => from,
        StepView::Preview { from, to } => from,
        StepView::SkipLink { name } => name,
    }
}

/// What every step of a plan says of its source entry: its subject is the
/// name of an entry of the listing; a rename or preview only concerns an
/// entry that is not in normal form, is no symbolic link, and was not
/// skipped as hidden; a recurse step only concerns a subdirectory.
pub open spec fn step_sourced(entries: Seq<EntryView>, cfg: Config, s: StepView) -> bool {
    exists|k: int|
        0 <= k < entries.len() && #[trigger] entries[k].name == step_subject(s) && (spec_hidden(
            entries[k].name,
        ) ==> cfg.include_hidden) && match s {
            StepView::Recurse { name } => entries[k].kind == EntryKind::Dir,
            StepView::Rename { from, to } => entries[k].kind != EntryKind::Symlink
                && spec_rename_target(from) != from,
            StepView::Preview { from, to } => entries[k].kind != EntryKind::Symlink
                && spec_rename_target(from) != from,
            StepView::SkipLink { name } => entries[k].kind == EntryKind::Symlink,
        }
}

proof fn lemma_plan_sourced(entries: Seq<EntryView>, names: Seq<Seq<u8>>, cfg: Config)
    ensures
        forall|i: int|
            0 <= i < spec_plan(entries, names, cfg).0.len() ==> step_sourced(
                entries,
                cfg,
                #[trigger] spec_plan(entries, names, cfg).0[i],
            ),
    decreases entries.len(),
{
    if entries.len() > 0 {
        let e = entries[0];
        let first = plan_entry(e, names, cfg);
        let rest = spec_plan(entries.drop_first(), first.1, cfg);
        lemma_plan_sourced(entries.drop_first(), first.1, cfg);
        assert forall|i: int|
            0 <= i < spec_plan(entries, names, cfg).0.len() implies step_sourced(
            entries,
            cfg,
            spec_plan(entries, names, cfg).0[i],
        ) by {
            let s = spec_plan(entries, names, cfg).0[i];
            if i < first.0.len() {
                assert(entries[0].name == step_subject(s));
            } else {
                assert(s == rest.0[i - first.0.len()]);
                assert(step_sourced(entries.drop_first(), cfg, s));
                let k = choose|k: int|
                    0 <= k < entries.drop_first().len() && #[trigger] entries.drop_first()[k].name
                        == step_subject(s) && (spec_hidden(entries.drop_first()[k].name)
                        ==> cfg.include_hidden) && match s {
                        StepView::Recurse { name } => entries.drop_first()[k].kind
                            == EntryKind::Dir,
                        StepView::Rename { from, to } => entries.drop_first()[k].kind
                            != EntryKind::Symlink && spec_rename_target(from) != from,
                        StepView::Preview { from, to } => entries.drop_first()[k].kind
                            != EntryKind::Symlink && spec_rename_target(from) != from,
                        StepView::SkipLink { name } => entries.drop_first()[k].kind
                            == EntryKind::Symlink,
                    };
                assert(entries[k + 1] == entries.drop_first()[k]);
            }
        }
    }
}

/// Every step of a plan is sourced in the listing, in the sense of
/// `step_sourced`. In particular an entry whose name is already in the
/// target form gives rise to no rename and no preview, and a symbolic
/// link to no rename and no recursion into it.
pub proof fn lemma_plan_steps_sourced(entries: Seq<EntryView>, cfg: Config)
    ensures
        forall|i: int|
            0 <= i < spec_plan_dir(entries, cfg).len() ==> step_sourced(
                entries,
                cfg,
                #[trigger] spec_plan_dir(entries, cfg)[i],
            ),
{
    lemma_plan_sourced(entries, names_of(entries), cfg);
}

/// An entry that is already in the target form is never renamed and never
/// previewed: the walk performs no mutation for it.
pub proof fn lemma_noop_preserved(entries: Seq<EntryView>, cfg: Config, i: int)
    requires
        0 <= i < spec_plan_dir(entries, cfg).len(),
    ensures
        spec_plan_dir(entries, cfg)[i] matches StepView::Rename { from, to }
            ==> spec_rename_target(from) != from,
        spec_plan_dir(entries, cfg)[i] matches StepView::Preview { from, to }
            ==> spec_rename_target(from) != from,
{
    lemma_plan_steps_sourced(entries, cfg);
}

/// A symbolic link entry, whatever its name, is never renamed, never
/// previewed, and never entered, provided the listing's names are distinct
/// (as the names in one directory are).
pub proof fn lemma_symlink_immune(entries: Seq<EntryView>, cfg: Config, i: int, k: int)
    requires
        forall|a: int, b: int|
            0 <= a < b < entries.len() ==> entries[a].name != entries[b].name,
        0 <= k < entries.len(),
        entries[k].kind == EntryKind::Symlink,
        0 <= i < spec_plan_dir(entries, cfg).len(),
        step_subject(spec_plan_dir(entries, cfg)[i]) == entries[k].name,
    ensures
        spec_plan_dir(entries, cfg)[i] matches StepView::SkipLink { name },
{
    lemma_plan_steps_sourced(entries, cfg);
    let s = spec_plan_dir(entries, cfg)[i];
    let m = choose|m: int|
        0 <= m < entries.len() && #[trigger] entries[m].name == step_subject(s) && (spec_hidden(
            entries[m].name,
        ) ==> cfg.include_hidden) && match s {
            StepView::Recurse { name } => entries[m].kind == EntryKind::Dir,
            StepView::Rename { from, to } => entries[m].kind != EntryKind::Symlink
                && spec_rename_target(from) != from,
            StepView::Preview { from, to } => entries[m].kind != EntryKind::Symlink
                && spec_rename_target(from) != from,
            StepView::SkipLink { name } => entries[m].kind == EntryKind::Symlink,
        };
    if m != k {
        if m < k {
            assert(entries[m].name != entries[k].name);
        } else {
            assert(entries[k].name != entries[m].name);
        }
        assert(false);
    }
}

/// Hidden entries are untouched by default: without `include_hidden`, no
/// step of the plan concerns a hidden name.
pub proof fn lemma_hidden_excluded(entries: Seq<EntryView>, cfg: Config, i: int)
    requires
        !cfg.include_hidden,
        0 <= i < spec_plan_dir(entries, cfg).len(),
    ensures
        !spec_hidden(step_subject(spec_plan_dir(entries, cfg)[i])),
{
    lemma_plan_steps_sourced(entries, cfg);
}

proof fn lemma_plan_dry_run(entries: Seq<EntryView>, names: Seq<Seq<u8>>, cfg: Config)
    requires
        cfg.dry_run,
    ensures
        spec_plan(entries, names, cfg).1 == names,
        forall|i: int|
            0 <= i < spec_plan(entries, names, cfg).0.len() ==> !(#[trigger] spec_plan(
                entries,
                names,
                cfg,
            ).0[i] matches StepView::Rename { from, to }),
    decreases entries.len(),
{
    if entries.len() > 0 {
        let first = plan_entry(entries[0], names, cfg);
        lemma_plan_dry_run(entries.drop_first(), first.1, cfg);
    }
}

/// A dry run mutates nothing: the planned names are the names the directory
/// already has, and no step is a rename. Yet nothing owed is silent: every
/// entry that a real run would rename gets its preview step.
pub proof fn lemma_dry_run_immutable(entries: Seq<EntryView>, cfg: Config)
    requires
        cfg.dry_run,
    ensures
        spec_plan(entries, names_of(entries), cfg).1 == names_of(entries),
        forall|i: int|
            0 <= i < spec_plan_dir(entries, cfg).len() ==> !(#[trigger] spec_plan_dir(
                entries,
                cfg,
            )[i] matches StepView::Rename { from, to }),
{
    lemma_plan_dry_run(entries, names_of(entries), cfg);
}

proof fn lemma_plan_previews(entries: Seq<EntryView>, names: Seq<Seq<u8>>, cfg: Config, k: int)
    requires
        cfg.dry_run,
        0 <= k < entries.len(),
        spec_hidden(entries[k].name) ==> cfg.include_hidden,
        entries[k].kind != EntryKind::Symlink,
        spec_rename_target(entries[k].name) != entries[k].name,
    ensures
        spec_plan(entries, names, cfg).0.contains(
            StepView::Preview {
                from: entries[k].name,
                to: spec_rename_target(entries[k].name),
            },
        ),
    decreases entries.len(),
{
    let first = plan_entry(entries[0], names, cfg);
    let rest = spec_plan(entries.drop_first(), first.1, cfg);
    let p = StepView::Preview {
        from: entries[k].name,
        to: spec_rename_target(entries[k].name),
    };
    if k == 0 {
        assert(first.0[first.0.len() - 1] == p);
        assert(spec_plan(entries, names, cfg).0[first.0.len() - 1] == p);
    } else {
        assert(entries.drop_first()[k - 1] == entries[k]);
        lemma_plan_previews(entries.drop_first(), first.1, cfg, k - 1);
        let i = choose|i: int| 0 <= i < rest.0.len() && rest.0[i] == p;
        assert(spec_plan(entries, names, cfg).0[first.0.len() + i] == p);
    }
}

/// In a dry run, every entry that a real run would rename is announced: the
/// plan holds a preview step naming it and its target.
pub proof fn lemma_dry_run_previews(entries: Seq<EntryView>, cfg: Config, k: int)
    requires
        cfg.dry_run,
        0 <= k < entries.len(),
        spec_hidden(entries[k].name) ==> cfg.include_hidden,
        entries[k].kind != EntryKind::Symlink,
        spec_rename_target(entries[k].name) != entries[k].name,
    ensures
        spec_plan_dir(entries, cfg).contains(
            StepView::Preview {
                from: entries[k].name,
                to: spec_rename_target(entries[k].name),
            },
        ),
{
    lemma_plan_previews(entries, names_of(entries), cfg, k);
}

} // verus!
