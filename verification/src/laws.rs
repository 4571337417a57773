//! The guarantees of the planner, stated and proved over `spec_plan`: an
//! already-flat tree is left alone; copy mode never moves or removes
//! anything; a file whose name is free is relocated to that name; a collision
//! is skipped or renamed as the options say; a file directly under the root
//! is never touched; and directory removals come last, bottom-up.

use vstd::prelude::*;
use crate::names::candidate;
use crate::names::ext_of;
use crate::names::stem_of;
use crate::plan::ActionV;
use crate::plan::EntryV;
use crate::plan::Options;
use crate::plan::PlanAcc;
use crate::plan::ResolvedV;
use crate::plan::first_free;
use crate::plan::fold_plan;
use crate::plan::is_first_free;
use crate::plan::is_first_free_from;
use crate::plan::lemma_first_free_unique;
use crate::plan::occ_at;
use crate::plan::place_action;
use crate::plan::removal_actions;
use crate::plan::root_names;
use crate::plan::spec_plan;
use crate::plan::spec_resolve;
use crate::plan::step;

verus! {

/// The path an action is about: the source of a relocation or skip, the
/// removed directory of a removal.
pub open spec fn src_of(a: ActionV) -> Seq<Seq<char>> {
    match a {
        ActionV::CopyFile { src, .. } => src,
        ActionV::MoveFile { src, .. } => src,
        ActionV::SkipFile { src, .. } => src,
        ActionV::RemoveDir { path } => path,
    }
}

/// A relocation or skip action that some deep file of the listing accounts
/// for, with the variants the options allow: never a removal, no copy in
/// delete mode, no move in copy mode.
pub open spec fn act_from_listing(a: ActionV, entries: Seq<EntryV>, opts: Options) -> bool {
    &&& !(a is RemoveDir)
    &&& (opts.delete ==> !(a is CopyFile))
    &&& (!opts.delete ==> !(a is MoveFile))
    &&& exists|m: int|
        0 <= m < entries.len() && (#[trigger] entries[m]).is_file && entries[m].path.len() >= 2
            && src_of(a) == entries[m].path
}

/// A directory path that some directory entry of the listing accounts for.
pub open spec fn dir_from_listing(p: Seq<Seq<char>>, entries: Seq<EntryV>) -> bool {
    exists|m: int|
        0 <= m < entries.len() && !(#[trigger] entries[m]).is_file && p == entries[m].path
}

proof fn lemma_push_contains<A>(s: Seq<A>, e: A, x: A)
    requires
        s.contains(x),
    ensures
        s.push(e).contains(x),
{
    let idx = choose|idx: int| 0 <= idx < s.len() && s[idx] == x;
    assert(s.push(e)[idx] == x);
}

/// Unfolds one step of the fold over a prefix of the listing.
proof fn lemma_fold_take_unfold(entries: Seq<EntryV>, opts: Options, init: Seq<Seq<char>>, i: int)
    requires
        0 <= i < entries.len(),
    ensures
        fold_plan(entries.take(i + 1), opts, init) == step(
            fold_plan(entries.take(i), opts, init),
            entries[i],
            opts,
        ),
{
    assert(entries.take(i + 1).drop_last() =~= entries.take(i));
    assert(entries.take(i + 1).last() == entries[i]);
}

/// A name occupied before step `i` is still occupied before any later step.
proof fn lemma_occ_monotone(entries: Seq<EntryV>, opts: Options, i: int, j: int, x: Seq<char>)
    requires
        0 <= i <= j <= entries.len(),
        occ_at(entries, opts, i).contains(x),
    ensures
        occ_at(entries, opts, j).contains(x),
    decreases j - i,
{
    if i < j {
        lemma_occ_monotone(entries, opts, i, j - 1, x);
        lemma_fold_take_unfold(entries, opts, root_names(entries), j - 1);
        let acc = fold_plan(entries.take(j - 1), opts, root_names(entries));
        let e = entries[j - 1];
        if e.is_file && e.path.len() >= 2 {
            match spec_resolve(e.path.last(), acc.occ, opts.rename) {
                ResolvedV::Keep => {
                    lemma_push_contains(acc.occ, e.path.last(), x);
                },
                ResolvedV::Skipped => {},
                ResolvedV::Renamed(d) => {
                    lemma_push_contains(acc.occ, d, x);
                },
            }
        }
    }
}

/// An action recorded by step `i` is still recorded after any later step.
proof fn lemma_acts_monotone(entries: Seq<EntryV>, opts: Options, i: int, j: int, a: ActionV)
    requires
        0 <= i <= j <= entries.len(),
        fold_plan(entries.take(i), opts, root_names(entries)).acts.contains(a),
    ensures
        fold_plan(entries.take(j), opts, root_names(entries)).acts.contains(a),
    decreases j - i,
{
    if i < j {
        lemma_acts_monotone(entries, opts, i, j - 1, a);
        lemma_fold_take_unfold(entries, opts, root_names(entries), j - 1);
        let acc = fold_plan(entries.take(j - 1), opts, root_names(entries));
        let e = entries[j - 1];
        if e.is_file && e.path.len() >= 2 {
            match spec_resolve(e.path.last(), acc.occ, opts.rename) {
                ResolvedV::Keep => {
                    lemma_push_contains(acc.acts, place_action(e.path, e.path.last(), opts.delete), a);
                },
                ResolvedV::Skipped => {
                    lemma_push_contains(
                        acc.acts,
                        ActionV::SkipFile { src: e.path, dest: e.path.last() },
                        a,
                    );
                },
                ResolvedV::Renamed(d) => {
                    lemma_push_contains(acc.acts, place_action(e.path, d, opts.delete), a);
                },
            }
        }
    }
}

/// The relocation, skip or rename that the planner records for the deep file
/// at position `i`, as the names occupied just before it decide it.
pub open spec fn expected_action(e: EntryV, occ: Seq<Seq<char>>, opts: Options) -> ActionV {
    let name = e.path.last();
    match spec_resolve(name, occ, opts.rename) {
        ResolvedV::Keep => place_action(e.path, name, opts.delete),
        ResolvedV::Skipped => ActionV::SkipFile { src: e.path, dest: name },
        ResolvedV::Renamed(d) => place_action(e.path, d, opts.delete),
    }
}

/// The fold records, for every deep file of the listing, exactly the action
/// that the names occupied before it decide.
proof fn lemma_file_action_recorded(entries: Seq<EntryV>, opts: Options, i: int)
    requires
        0 <= i < entries.len(),
        entries[i].is_file,
        entries[i].path.len() >= 2,
    ensures
        fold_plan(entries, opts, root_names(entries)).acts.contains(
            expected_action(entries[i], occ_at(entries, opts, i), opts),
        ),
{
    let init = root_names(entries);
    lemma_fold_take_unfold(entries, opts, init, i);
    let acc = fold_plan(entries.take(i), opts, init);
    let next = fold_plan(entries.take(i + 1), opts, init);
    let a = expected_action(entries[i], acc.occ, opts);
    assert(next.acts == acc.acts.push(a));
    assert(next.acts[acc.acts.len() as int] == a);
    assert(next.acts.contains(a));
    lemma_acts_monotone(entries, opts, i + 1, entries.len() as int, a);
    assert(entries.take(entries.len() as int) =~= entries);
}

/// An action of the fold stands in the whole plan.
proof fn lemma_plan_contains_act(entries: Seq<EntryV>, opts: Options, a: ActionV)
    requires
        fold_plan(entries, opts, root_names(entries)).acts.contains(a),
    ensures
        spec_plan(entries, opts).contains(a),
{
    let acc = fold_plan(entries, opts, root_names(entries));
    let k = choose|k: int| 0 <= k < acc.acts.len() && acc.acts[k] == a;
    assert(spec_plan(entries, opts)[k] == a);
}

/// Every action of the fold is accounted for by a deep file of the listing,
/// with the variants the options allow, and every recorded directory by a
/// directory entry; copy mode records no directory at all.
pub proof fn lemma_fold_shape(entries: Seq<EntryV>, opts: Options, init: Seq<Seq<char>>)
    ensures
        ({
            let acc = fold_plan(entries, opts, init);
            &&& forall|k: int|
                0 <= k < acc.acts.len() ==> act_from_listing(#[trigger] acc.acts[k], entries, opts)
            &&& forall|d: int|
                0 <= d < acc.dirs.len() ==> dir_from_listing(#[trigger] acc.dirs[d], entries)
            &&& (!opts.delete ==> acc.dirs.len() == 0)
        }),
    decreases entries.len(),
{
    if entries.len() > 0 {
        let prefix = entries.drop_last();
        lemma_fold_shape(prefix, opts, init);
        let accp = fold_plan(prefix, opts, init);
        let acc = fold_plan(entries, opts, init);
        let e = entries.last();
        assert forall|k: int|
            0 <= k < accp.acts.len() implies act_from_listing(
            #[trigger] accp.acts[k],
            entries,
            opts,
        ) by {
            assert(act_from_listing(accp.acts[k], prefix, opts));
            let m = choose|m: int|
                0 <= m < prefix.len() && (#[trigger] prefix[m]).is_file && prefix[m].path.len()
                    >= 2 && src_of(accp.acts[k]) == prefix[m].path;
            assert(entries[m] == prefix[m]);
            assert(0 <= m < entries.len() && entries[m].is_file && entries[m].path.len() >= 2
                && src_of(accp.acts[k]) == entries[m].path);
        }
        assert forall|d: int|
            0 <= d < accp.dirs.len() implies dir_from_listing(#[trigger] accp.dirs[d], entries) by {
            assert(dir_from_listing(accp.dirs[d], prefix));
            let m = choose|m: int|
                0 <= m < prefix.len() && !(#[trigger] prefix[m]).is_file && accp.dirs[d]
                    == prefix[m].path;
            assert(entries[m] == prefix[m]);
            assert(0 <= m < entries.len() && !entries[m].is_file && accp.dirs[d]
                == entries[m].path);
        }
        let last_idx = entries.len() - 1;
        assert(entries[last_idx] == e);
        if !e.is_file {
            if opts.delete {
                assert forall|k: int|
                    0 <= k < acc.acts.len() implies act_from_listing(
                    #[trigger] acc.acts[k],
                    entries,
                    opts,
                ) by {}
                assert forall|d: int|
                    0 <= d < acc.dirs.len() implies dir_from_listing(
                    #[trigger] acc.dirs[d],
                    entries,
                ) by {
                    if d < accp.dirs.len() {
                        assert(acc.dirs[d] == accp.dirs[d]);
                    } else {
                        assert(acc.dirs[d] == e.path);
                        assert(!entries[last_idx].is_file && acc.dirs[d] == entries[last_idx].path);
                    }
                }
            }
        } else if e.path.len() >= 2 {
            let name = e.path.last();
            assert forall|k: int|
                0 <= k < acc.acts.len() implies act_from_listing(
                #[trigger] acc.acts[k],
                entries,
                opts,
            ) by {
                if k < accp.acts.len() {
                    assert(acc.acts[k] == accp.acts[k]);
                } else {
                    let a = acc.acts[k];
                    assert(a == expected_action(e, accp.occ, opts));
                    assert(src_of(a) == e.path);
                    assert(entries[last_idx].is_file && entries[last_idx].path.len() >= 2
                        && src_of(a) == entries[last_idx].path);
                }
            }
        }
    }
}

/// What every action of the whole plan must be: a relocation or skip that a
/// deep file accounts for, or, in delete mode, the removal of a directory
/// that a directory entry accounts for.
pub open spec fn plan_action_ok(a: ActionV, entries: Seq<EntryV>, opts: Options) -> bool {
    act_from_listing(a, entries, opts) || (opts.delete && a is RemoveDir && dir_from_listing(
        src_of(a),
        entries,
    ))
}

/// Every action of the whole plan is either a relocation or skip accounted
/// for by a deep file, or the removal of a directory that some directory
/// entry accounts for; copy mode has no removals.
pub proof fn lemma_plan_shape(entries: Seq<EntryV>, opts: Options)
    ensures
        forall|k: int|
            0 <= k < spec_plan(entries, opts).len() ==> plan_action_ok(
                #[trigger] spec_plan(entries, opts)[k],
                entries,
                opts,
            ),
{
    let init = root_names(entries);
    lemma_fold_shape(entries, opts, init);
    let acc = fold_plan(entries, opts, init);
    let plan = spec_plan(entries, opts);
    assert forall|k: int| 0 <= k < plan.len() implies plan_action_ok(
        #[trigger] plan[k],
        entries,
        opts,
    ) by {
        if k < acc.acts.len() {
            assert(plan[k] == acc.acts[k]);
        } else {
            let r = k - acc.acts.len();
            assert(plan[k] == removal_actions(acc.dirs)[r]);
            assert(removal_actions(acc.dirs)[r] == ActionV::RemoveDir {
                path: acc.dirs.reverse()[r],
            });
            assert(acc.dirs.reverse()[r] == acc.dirs[acc.dirs.len() - 1 - r]);
        }
    }
}

/// On a tree that is already flat, with only files directly under the root,
/// the plan is empty: nothing is relocated and nothing is removed, whatever
/// the options.
pub proof fn lemma_already_flat_plan_empty(entries: Seq<EntryV>, opts: Options)
    requires
        forall|i: int|
            0 <= i < entries.len() ==> (#[trigger] entries[i]).is_file && entries[i].path.len()
                == 1,
    ensures
        spec_plan(entries, opts) =~= Seq::<ActionV>::empty(),
{
    lemma_plan_shape(entries, opts);
    let plan = spec_plan(entries, opts);
    if plan.len() > 0 {
        let a = plan[0];
        assert(plan_action_ok(a, entries, opts));
        if act_from_listing(a, entries, opts) {
            let m = choose|m: int|
                0 <= m < entries.len() && (#[trigger] entries[m]).is_file && entries[m].path.len()
                    >= 2 && src_of(a) == entries[m].path;
            assert(false);
        } else {
            let m = choose|m: int|
                0 <= m < entries.len() && !(#[trigger] entries[m]).is_file && src_of(a)
                    == entries[m].path;
            assert(false);
        }
    }
}

/// In copy mode every action of the plan is a copy or a skip: no file is
/// moved, no directory is removed, so every source file is left in place and
/// no data can be lost.
pub proof fn lemma_copy_mode_preserves_sources(entries: Seq<EntryV>, opts: Options)
    requires
        !opts.delete,
    ensures
        forall|k: int|
            0 <= k < spec_plan(entries, opts).len() ==> ((#[trigger] spec_plan(entries, opts)[k])
                is CopyFile || spec_plan(entries, opts)[k] is SkipFile),
{
    lemma_plan_shape(entries, opts);
}

/// A file directly under the root is never the subject of any action of the
/// plan: it is neither copied, moved, skipped nor removed, whatever the
/// options.
pub proof fn lemma_root_file_untouched(entries: Seq<EntryV>, opts: Options, i: int)
    requires
        0 <= i < entries.len(),
        entries[i].is_file,
        entries[i].path.len() == 1,
        forall|j: int|
            0 <= j < entries.len() && j != i ==> (#[trigger] entries[j]).path != entries[i].path,
    ensures
        forall|k: int|
            0 <= k < spec_plan(entries, opts).len() ==> src_of(
                #[trigger] spec_plan(entries, opts)[k],
            ) != entries[i].path,
{
    lemma_plan_shape(entries, opts);
    let plan = spec_plan(entries, opts);
    assert forall|k: int| 0 <= k < plan.len() implies src_of(plan[k]) != entries[i].path by {
        let a = plan[k];
        if act_from_listing(a, entries, opts) {
            let m = choose|m: int|
                0 <= m < entries.len() && (#[trigger] entries[m]).is_file && entries[m].path.len()
                    >= 2 && src_of(a) == entries[m].path;
            assert(entries[m].path.len() != entries[i].path.len());
        } else {
            let m = choose|m: int|
                0 <= m < entries.len() && !(#[trigger] entries[m]).is_file && src_of(a)
                    == entries[m].path;
            assert(m != i);
        }
    }
}

/// In copy mode a deep file whose name is still free when its turn comes is
/// copied to that very name in the root; together with
/// `lemma_copy_mode_preserves_sources`, its source and every other file are
/// left in place.
pub proof fn lemma_copy_mode_copies_file(entries: Seq<EntryV>, opts: Options, i: int)
    requires
        !opts.delete,
        0 <= i < entries.len(),
        entries[i].is_file,
        entries[i].path.len() >= 2,
        !occ_at(entries, opts, i).contains(entries[i].path.last()),
    ensures
        spec_plan(entries, opts).contains(
            ActionV::CopyFile { src: entries[i].path, dest: entries[i].path.last() },
        ),
{
    lemma_file_action_recorded(entries, opts, i);
    lemma_plan_contains_act(
        entries,
        opts,
        expected_action(entries[i], occ_at(entries, opts, i), opts),
    );
}

/// In delete mode a deep file whose name is still free when its turn comes is
/// moved to that very name in the root: it leaves its original place.
pub proof fn lemma_delete_mode_moves_file(entries: Seq<EntryV>, opts: Options, i: int)
    requires
        opts.delete,
        0 <= i < entries.len(),
        entries[i].is_file,
        entries[i].path.len() >= 2,
        !occ_at(entries, opts, i).contains(entries[i].path.last()),
    ensures
        spec_plan(entries, opts).contains(
            ActionV::MoveFile { src: entries[i].path, dest: entries[i].path.last() },
        ),
{
    lemma_file_action_recorded(entries, opts, i);
    lemma_plan_contains_act(
        entries,
        opts,
        expected_action(entries[i], occ_at(entries, opts, i), opts),
    );
}

/// A directory met by the traversal is recorded by the fold in delete mode.
pub proof fn lemma_fold_dir_contains(entries: Seq<EntryV>, opts: Options, init: Seq<Seq<char>>, i: int)
    requires
        opts.delete,
        0 <= i < entries.len(),
        !entries[i].is_file,
    ensures
        fold_plan(entries, opts, init).dirs.contains(entries[i].path),
    decreases entries.len(),
{
    let prefix = entries.drop_last();
    let accp = fold_plan(prefix, opts, init);
    let acc = fold_plan(entries, opts, init);
    let e = entries.last();
    if i == entries.len() - 1 {
        assert(acc.dirs == accp.dirs.push(e.path));
        assert(acc.dirs[accp.dirs.len() as int] == e.path);
        assert(acc.dirs.contains(e.path));
    } else {
        assert(prefix[i] == entries[i]);
        lemma_fold_dir_contains(prefix, opts, init, i);
        if !e.is_file {
            lemma_push_contains(accp.dirs, e.path, entries[i].path);
        }
    }
}

/// With no path listed twice, the fold records no directory twice.
pub proof fn lemma_fold_dirs_distinct(entries: Seq<EntryV>, opts: Options, init: Seq<Seq<char>>)
    requires
        forall|i: int, j: int|
            0 <= i < j < entries.len() ==> (#[trigger] entries[i]).path != (
            #[trigger] entries[j]).path,
    ensures
        forall|d1: int, d2: int|
            0 <= d1 < d2 < fold_plan(entries, opts, init).dirs.len() ==> #[trigger] fold_plan(
                entries,
                opts,
                init,
            ).dirs[d1] != #[trigger] fold_plan(entries, opts, init).dirs[d2],
    decreases entries.len(),
{
    if entries.len() > 0 {
        let prefix = entries.drop_last();
        assert(forall|i: int| 0 <= i < prefix.len() ==> #[trigger] prefix[i] == entries[i]);
        lemma_fold_dirs_distinct(prefix, opts, init);
        lemma_fold_shape(prefix, opts, init);
        let accp = fold_plan(prefix, opts, init);
        let acc = fold_plan(entries, opts, init);
        let e = entries.last();
        let last_idx = entries.len() - 1;
        assert forall|d1: int, d2: int|
            0 <= d1 < d2 < acc.dirs.len() implies #[trigger] acc.dirs[d1] != #[trigger] acc.dirs[d2] by {
            if d2 < accp.dirs.len() {
                assert(acc.dirs[d1] == accp.dirs[d1]);
                assert(acc.dirs[d2] == accp.dirs[d2]);
            } else if d2 == accp.dirs.len() && acc.dirs.len() == accp.dirs.len() + 1 {
                assert(acc.dirs[d1] == accp.dirs[d1]);
                assert(dir_from_listing(accp.dirs[d1], prefix));
                let m = choose|m: int|
                    0 <= m < prefix.len() && !(#[trigger] prefix[m]).is_file && accp.dirs[d1]
                        == prefix[m].path;
                assert(acc.dirs[d2] == e.path);
                assert(entries[m].path != entries[last_idx].path);
            }
        }
    }
}

/// In delete mode every directory the traversal met is removed by the plan.
pub proof fn lemma_delete_mode_removes_directories(entries: Seq<EntryV>, opts: Options, i: int)
    requires
        opts.delete,
        0 <= i < entries.len(),
        !entries[i].is_file,
    ensures
        spec_plan(entries, opts).contains(ActionV::RemoveDir { path: entries[i].path }),
{
    let init = root_names(entries);
    lemma_fold_dir_contains(entries, opts, init, i);
    let acc = fold_plan(entries, opts, init);
    let d = choose|d: int| 0 <= d < acc.dirs.len() && acc.dirs[d] == entries[i].path;
    let r = acc.dirs.len() - 1 - d;
    assert(acc.dirs.reverse()[r] == acc.dirs[d]);
    assert(removal_actions(acc.dirs)[r] == ActionV::RemoveDir { path: entries[i].path });
    assert(spec_plan(entries, opts)[acc.acts.len() + r] == ActionV::RemoveDir {
        path: entries[i].path,
    });
    assert(spec_plan(entries, opts).contains(ActionV::RemoveDir { path: entries[i].path }));
}

/// With renaming off, of two deep files sharing a base name that was free
/// when the first of them came up, the first is placed at that name and the
/// second is skipped and left untouched; the run goes on.
pub proof fn lemma_collision_skipped(entries: Seq<EntryV>, opts: Options, i: int, j: int)
    requires
        !opts.rename,
        0 <= i < j < entries.len(),
        entries[i].is_file,
        entries[i].path.len() >= 2,
        entries[j].is_file,
        entries[j].path.len() >= 2,
        entries[j].path.last() == entries[i].path.last(),
        !occ_at(entries, opts, i).contains(entries[i].path.last()),
    ensures
        spec_plan(entries, opts).contains(
            place_action(entries[i].path, entries[i].path.last(), opts.delete),
        ),
        spec_plan(entries, opts).contains(
            ActionV::SkipFile { src: entries[j].path, dest: entries[j].path.last() },
        ),
{
    let init = root_names(entries);
    let name = entries[i].path.last();
    lemma_file_action_recorded(entries, opts, i);
    lemma_plan_contains_act(entries, opts, expected_action(entries[i], occ_at(entries, opts, i), opts));
    lemma_fold_take_unfold(entries, opts, init, i);
    let occ_i = occ_at(entries, opts, i);
    assert(occ_at(entries, opts, i + 1) == occ_i.push(name));
    assert(occ_i.push(name)[occ_i.len() as int] == name);
    assert(occ_at(entries, opts, i + 1).contains(name));
    lemma_occ_monotone(entries, opts, i + 1, j, name);
    lemma_file_action_recorded(entries, opts, j);
    lemma_plan_contains_act(entries, opts, expected_action(entries[j], occ_at(entries, opts, j), opts));
}

/// With renaming on, of two deep files sharing a base name that was free when
/// the first of them came up, the first is placed at that name and the second
/// at the first free numbered candidate; when `name_1` is itself free, the
/// chosen counter is 1.
pub proof fn lemma_collision_renamed(entries: Seq<EntryV>, opts: Options, i: int, j: int)
    requires
        opts.rename,
        0 <= i < j < entries.len(),
        entries[i].is_file,
        entries[i].path.len() >= 2,
        entries[j].is_file,
        entries[j].path.len() >= 2,
        entries[j].path.last() == entries[i].path.last(),
        !occ_at(entries, opts, i).contains(entries[i].path.last()),
    ensures
        spec_plan(entries, opts).contains(
            place_action(entries[i].path, entries[i].path.last(), opts.delete),
        ),
        spec_plan(entries, opts).contains(
            place_action(
                entries[j].path,
                candidate(
                    entries[j].path.last(),
                    first_free(entries[j].path.last(), occ_at(entries, opts, j)),
                ),
                opts.delete,
            ),
        ),
        !occ_at(entries, opts, j).contains(candidate(entries[j].path.last(), 1)) ==> first_free(
            entries[j].path.last(),
            occ_at(entries, opts, j),
        ) == 1,
{
    let init = root_names(entries);
    let name = entries[i].path.last();
    lemma_file_action_recorded(entries, opts, i);
    lemma_plan_contains_act(entries, opts, expected_action(entries[i], occ_at(entries, opts, i), opts));
    lemma_fold_take_unfold(entries, opts, init, i);
    let occ_i = occ_at(entries, opts, i);
    assert(occ_at(entries, opts, i + 1) == occ_i.push(name));
    assert(occ_i.push(name)[occ_i.len() as int] == name);
    assert(occ_at(entries, opts, i + 1).contains(name));
    lemma_occ_monotone(entries, opts, i + 1, j, name);
    lemma_file_action_recorded(entries, opts, j);
    lemma_plan_contains_act(entries, opts, expected_action(entries[j], occ_at(entries, opts, j), opts));
    let occ_j = occ_at(entries, opts, j);
    if !occ_j.contains(candidate(name, 1)) {
        assert(is_first_free(name, occ_j, 1));
        let k = first_free(name, occ_j);
        assert(is_first_free(name, occ_j, k));
        lemma_first_free_unique(stem_of(name), ext_of(name), occ_j, k, 1);
    }
}

/// In delete mode the directories recorded for two positions of the listing
/// keep their traversal order inside the fold's directory record.
pub proof fn lemma_fold_dirs_order(
    entries: Seq<EntryV>,
    opts: Options,
    init: Seq<Seq<char>>,
    i: int,
    j: int,
)
    requires
        opts.delete,
        0 <= i < j < entries.len(),
        !entries[i].is_file,
        !entries[j].is_file,
    ensures
        exists|di: int, dj: int|
            0 <= di < dj < fold_plan(entries, opts, init).dirs.len() && fold_plan(
                entries,
                opts,
                init,
            ).dirs[di] == entries[i].path && fold_plan(entries, opts, init).dirs[dj]
                == entries[j].path,
    decreases entries.len(),
{
    let prefix = entries.drop_last();
    let accp = fold_plan(prefix, opts, init);
    let acc = fold_plan(entries, opts, init);
    let e = entries.last();
    if j == entries.len() - 1 {
        assert(prefix[i] == entries[i]);
        lemma_fold_dir_contains(prefix, opts, init, i);
        let di = choose|di: int| 0 <= di < accp.dirs.len() && accp.dirs[di] == entries[i].path;
        let dj = accp.dirs.len() as int;
        assert(acc.dirs == accp.dirs.push(e.path));
        assert(acc.dirs[dj] == entries[j].path);
        assert(acc.dirs[di] == accp.dirs[di]);
        assert(0 <= di < dj < acc.dirs.len() && acc.dirs[di] == entries[i].path && acc.dirs[dj]
            == entries[j].path);
    } else {
        assert(prefix[i] == entries[i]);
        assert(prefix[j] == entries[j]);
        lemma_fold_dirs_order(prefix, opts, init, i, j);
        let (di, dj) = choose|di: int, dj: int|
            0 <= di < dj < accp.dirs.len() && accp.dirs[di] == entries[i].path && accp.dirs[dj]
                == entries[j].path;
        if !e.is_file {
            assert(acc.dirs == accp.dirs.push(e.path));
            assert(acc.dirs[di] == accp.dirs[di]);
            assert(acc.dirs[dj] == accp.dirs[dj]);
        } else {
            assert(acc.dirs == accp.dirs);
        }
        assert(0 <= di < dj < acc.dirs.len() && acc.dirs[di] == entries[i].path && acc.dirs[dj]
            == entries[j].path);
    }
}

/// In delete mode, of two directories met by the traversal, the one met later
/// is removed earlier: removals run bottom-up, in the reverse of the
/// traversal order.
pub proof fn lemma_cleanup_bottom_up(entries: Seq<EntryV>, opts: Options, i: int, j: int)
    requires
        opts.delete,
        0 <= i < j < entries.len(),
        !entries[i].is_file,
        !entries[j].is_file,
    ensures
        (exists|ki: int, kj: int|
            0 <= kj < ki < spec_plan(entries, opts).len() && spec_plan(entries, opts)[kj]
                == removal_of(entries[j].path) && spec_plan(entries, opts)[ki] == removal_of(
                entries[i].path,
            )),
{
    let init = root_names(entries);
    lemma_fold_dirs_order(entries, opts, init, i, j);
    let acc = fold_plan(entries, opts, init);
    let (di, dj) = choose|di: int, dj: int|
        0 <= di < dj < acc.dirs.len() && acc.dirs[di] == entries[i].path && acc.dirs[dj]
            == entries[j].path;
    let n = acc.dirs.len() as int;
    let ki = acc.acts.len() + (n - 1 - di);
    let kj = acc.acts.len() + (n - 1 - dj);
    assert(acc.dirs.reverse()[n - 1 - di] == acc.dirs[di]);
    assert(acc.dirs.reverse()[n - 1 - dj] == acc.dirs[dj]);
    assert(removal_actions(acc.dirs)[n - 1 - di] == ActionV::RemoveDir { path: entries[i].path });
    assert(removal_actions(acc.dirs)[n - 1 - dj] == ActionV::RemoveDir { path: entries[j].path });
    assert(spec_plan(entries, opts)[ki] == ActionV::RemoveDir { path: entries[i].path });
    assert(spec_plan(entries, opts)[kj] == ActionV::RemoveDir { path: entries[j].path });
    assert(0 <= kj < ki < spec_plan(entries, opts).len());
}

/// A relocation: the two action kinds that write a destination.
pub open spec fn is_place(a: ActionV) -> bool {
    a is CopyFile || a is MoveFile
}

/// The destination name of a relocation or skip.
pub open spec fn dest_of(a: ActionV) -> Seq<char> {
    match a {
        ActionV::CopyFile { dest, .. } => dest,
        ActionV::MoveFile { dest, .. } => dest,
        ActionV::SkipFile { dest, .. } => dest,
        ActionV::RemoveDir { .. } => Seq::empty(),
    }
}

/// The fold never hands out a destination twice, nor one that was occupied
/// to begin with, and every destination it hands out is recorded as occupied.
proof fn lemma_fold_dests_fresh(entries: Seq<EntryV>, opts: Options, init: Seq<Seq<char>>)
    ensures
        ({
            let acc = fold_plan(entries, opts, init);
            &&& forall|x: Seq<char>| init.contains(x) ==> acc.occ.contains(x)
            &&& forall|k: int|
                0 <= k < acc.acts.len() && is_place(#[trigger] acc.acts[k]) ==> acc.occ.contains(
                    dest_of(acc.acts[k]),
                )
            &&& forall|k: int|
                0 <= k < acc.acts.len() && is_place(#[trigger] acc.acts[k]) ==> !init.contains(
                    dest_of(acc.acts[k]),
                )
            &&& forall|k1: int, k2: int|
                0 <= k1 < k2 < acc.acts.len() && is_place(#[trigger] acc.acts[k1]) && is_place(
                    #[trigger] acc.acts[k2],
                ) ==> dest_of(acc.acts[k1]) != dest_of(acc.acts[k2])
        }),
    decreases entries.len(),
{
    if entries.len() > 0 {
        let prefix = entries.drop_last();
        lemma_fold_dests_fresh(prefix, opts, init);
        let accp = fold_plan(prefix, opts, init);
        let acc = fold_plan(entries, opts, init);
        let e = entries.last();
        if e.is_file && e.path.len() >= 2 {
            let name = e.path.last();
            match spec_resolve(name, accp.occ, opts.rename) {
                ResolvedV::Keep => {
                    lemma_step_place_fresh(accp, e, opts, init, name);
                },
                ResolvedV::Skipped => {},
                ResolvedV::Renamed(d) => {
                    crate::plan::lemma_first_free_exists(stem_of(name), ext_of(name), accp.occ);
                    assert(exists|k: nat| is_first_free(name, accp.occ, k)) by {
                        let k0 = choose|k: nat|
                            is_first_free_from(stem_of(name), ext_of(name), accp.occ, k);
                        assert(is_first_free(name, accp.occ, k0));
                    }
                    assert(is_first_free(name, accp.occ, first_free(name, accp.occ)));
                    assert(!accp.occ.contains(d));
                    lemma_step_place_fresh(accp, e, opts, init, d);
                },
            }
        }
    }
}

/// One placing step keeps the freshness facts: the new destination was not
/// occupied, so it is new to the initial names and to every earlier
/// destination, and pushing it records it as occupied.
proof fn lemma_step_place_fresh(
    accp: PlanAcc,
    e: EntryV,
    opts: Options,
    init: Seq<Seq<char>>,
    d: Seq<char>,
)
    requires
        !accp.occ.contains(d),
        forall|x: Seq<char>| init.contains(x) ==> accp.occ.contains(x),
        forall|k: int|
            0 <= k < accp.acts.len() && is_place(#[trigger] accp.acts[k]) ==> accp.occ.contains(
                dest_of(accp.acts[k]),
            ),
        forall|k: int|
            0 <= k < accp.acts.len() && is_place(#[trigger] accp.acts[k]) ==> !init.contains(
                dest_of(accp.acts[k]),
            ),
        forall|k1: int, k2: int|
            0 <= k1 < k2 < accp.acts.len() && is_place(#[trigger] accp.acts[k1]) && is_place(
                #[trigger] accp.acts[k2],
            ) ==> dest_of(accp.acts[k1]) != dest_of(accp.acts[k2]),
    ensures
        ({
            let occ2 = accp.occ.push(d);
            let acts2 = accp.acts.push(place_action(e.path, d, opts.delete));
            &&& forall|x: Seq<char>| init.contains(x) ==> occ2.contains(x)
            &&& forall|k: int|
                0 <= k < acts2.len() && is_place(#[trigger] acts2[k]) ==> occ2.contains(
                    dest_of(acts2[k]),
                )
            &&& forall|k: int|
                0 <= k < acts2.len() && is_place(#[trigger] acts2[k]) ==> !init.contains(
                    dest_of(acts2[k]),
                )
            &&& forall|k1: int, k2: int|
                0 <= k1 < k2 < acts2.len() && is_place(#[trigger] acts2[k1]) && is_place(
                    #[trigger] acts2[k2],
                ) ==> dest_of(acts2[k1]) != dest_of(acts2[k2])
        }),
{
    let occ2 = accp.occ.push(d);
    let acts2 = accp.acts.push(place_action(e.path, d, opts.delete));
    assert(dest_of(place_action(e.path, d, opts.delete)) == d);
    assert(occ2[accp.occ.len() as int] == d);
    assert(occ2.contains(d));
    assert forall|x: Seq<char>| init.contains(x) implies occ2.contains(x) by {
        lemma_push_contains(accp.occ, d, x);
    }
    assert forall|k: int|
        0 <= k < acts2.len() && is_place(#[trigger] acts2[k]) implies occ2.contains(
        dest_of(acts2[k]),
    ) by {
        if k < accp.acts.len() {
            assert(acts2[k] == accp.acts[k]);
            lemma_push_contains(accp.occ, d, dest_of(accp.acts[k]));
        }
    }
    assert forall|k: int|
        0 <= k < acts2.len() && is_place(#[trigger] acts2[k]) implies !init.contains(
        dest_of(acts2[k]),
    ) by {
        if k < accp.acts.len() {
            assert(acts2[k] == accp.acts[k]);
        } else {
            if init.contains(d) {
                assert(accp.occ.contains(d));
            }
        }
    }
    assert forall|k1: int, k2: int|
        0 <= k1 < k2 < acts2.len() && is_place(#[trigger] acts2[k1]) && is_place(
        #[trigger] acts2[k2],
    ) implies dest_of(acts2[k1]) != dest_of(acts2[k2]) by {
        if k2 < accp.acts.len() {
            assert(acts2[k1] == accp.acts[k1]);
            assert(acts2[k2] == accp.acts[k2]);
        } else {
            assert(acts2[k1] == accp.acts[k1]);
            assert(acts2[k2] == place_action(e.path, d, opts.delete));
            assert(accp.occ.contains(dest_of(accp.acts[k1])));
        }
    }
}

/// No relocation of a plan writes over anything: a destination name is never
/// one that the root held at the start, and no two relocations of one run
/// share a destination. Each resolved file gets exactly one write of its own.
pub proof fn lemma_no_destination_clobbered(entries: Seq<EntryV>, opts: Options)
    ensures
        forall|k: int|
            0 <= k < spec_plan(entries, opts).len() && is_place(
                #[trigger] spec_plan(entries, opts)[k],
            ) ==> !root_names(entries).contains(dest_of(spec_plan(entries, opts)[k])),
        forall|k1: int, k2: int|
            0 <= k1 < k2 < spec_plan(entries, opts).len() && is_place(
                #[trigger] spec_plan(entries, opts)[k1],
            ) && is_place(#[trigger] spec_plan(entries, opts)[k2]) ==> dest_of(
                spec_plan(entries, opts)[k1],
            ) != dest_of(spec_plan(entries, opts)[k2]),
{
    let init = root_names(entries);
    lemma_fold_dests_fresh(entries, opts, init);
    let acc = fold_plan(entries, opts, init);
    let plan = spec_plan(entries, opts);
    assert forall|k: int|
        0 <= k < plan.len() && is_place(#[trigger] plan[k]) implies !init.contains(
        dest_of(plan[k]),
    ) by {
        lemma_plan_index_is_act(entries, opts, k);
        assert(plan[k] == acc.acts[k]);
    }
    assert forall|k1: int, k2: int|
        0 <= k1 < k2 < plan.len() && is_place(#[trigger] plan[k1]) && is_place(
        #[trigger] plan[k2],
    ) implies dest_of(plan[k1]) != dest_of(plan[k2]) by {
        lemma_plan_index_is_act(entries, opts, k1);
        lemma_plan_index_is_act(entries, opts, k2);
        assert(plan[k1] == acc.acts[k1]);
        assert(plan[k2] == acc.acts[k2]);
    }
}

/// A plan position holding a relocation or skip lies in the fold's action
/// prefix of the plan.
pub proof fn lemma_plan_index_is_act(entries: Seq<EntryV>, opts: Options, k: int)
    requires
        0 <= k < spec_plan(entries, opts).len(),
        !(spec_plan(entries, opts)[k] is RemoveDir),
    ensures
        k < fold_plan(entries, opts, root_names(entries)).acts.len(),
        spec_plan(entries, opts)[k] == fold_plan(entries, opts, root_names(entries)).acts[k],
{
    let acc = fold_plan(entries, opts, root_names(entries));
    if k >= acc.acts.len() {
        let r = k - acc.acts.len();
        assert(spec_plan(entries, opts)[k] == removal_actions(acc.dirs)[r]);
        assert(acc.dirs.reverse()[r] == acc.dirs[acc.dirs.len() - 1 - r]);
        assert(removal_actions(acc.dirs)[r] == ActionV::RemoveDir {
            path: acc.dirs[acc.dirs.len() - 1 - r],
        });
        assert(false);
    }
}

/// With no path listed twice, no two actions of the fold share a source:
/// each deep file of the listing is relocated or skipped at most once.
pub proof fn lemma_fold_srcs_distinct(entries: Seq<EntryV>, opts: Options, init: Seq<Seq<char>>)
    requires
        forall|i: int, j: int|
            0 <= i < j < entries.len() ==> (#[trigger] entries[i]).path != (
            #[trigger] entries[j]).path,
    ensures
        forall|k1: int, k2: int|
            0 <= k1 < k2 < fold_plan(entries, opts, init).acts.len() ==> src_of(
                #[trigger] fold_plan(entries, opts, init).acts[k1],
            ) != src_of(#[trigger] fold_plan(entries, opts, init).acts[k2]),
    decreases entries.len(),
{
    if entries.len() > 0 {
        let prefix = entries.drop_last();
        assert(forall|i: int| 0 <= i < prefix.len() ==> #[trigger] prefix[i] == entries[i]);
        lemma_fold_srcs_distinct(prefix, opts, init);
        lemma_fold_shape(prefix, opts, init);
        let accp = fold_plan(prefix, opts, init);
        let acc = fold_plan(entries, opts, init);
        let e = entries.last();
        let last_idx = entries.len() - 1;
        assert forall|k1: int, k2: int|
            0 <= k1 < k2 < acc.acts.len() implies src_of(#[trigger] acc.acts[k1]) != src_of(
            #[trigger] acc.acts[k2],
        ) by {
            if k2 < accp.acts.len() {
                assert(acc.acts[k1] == accp.acts[k1]);
                assert(acc.acts[k2] == accp.acts[k2]);
            } else if k2 == accp.acts.len() && acc.acts.len() == accp.acts.len() + 1 {
                assert(acc.acts[k1] == accp.acts[k1]);
                assert(act_from_listing(accp.acts[k1], prefix, opts));
                let m = choose|m: int|
                    0 <= m < prefix.len() && (#[trigger] prefix[m]).is_file && prefix[m].path.len()
                        >= 2 && src_of(accp.acts[k1]) == prefix[m].path;
                assert(src_of(acc.acts[k2]) == e.path);
                assert(entries[m].path != entries[last_idx].path);
            }
        }
    }
}

/// The removal action for a directory path.
pub open spec fn removal_of(p: Seq<Seq<char>>) -> ActionV {
    ActionV::RemoveDir { path: p }
}

/// One path lies strictly below another: the shorter is a proper prefix.
pub open spec fn strictly_below(anc: Seq<Seq<char>>, desc: Seq<Seq<char>>) -> bool {
    anc.len() < desc.len() && desc.take(anc.len() as int) == anc
}

/// The listing names ancestors before their descendants, as a recursive
/// descent of the tree yields them.
pub open spec fn ancestors_first(entries: Seq<EntryV>) -> bool {
    forall|i: int, j: int|
        0 <= i < entries.len() && 0 <= j < entries.len() && strictly_below(
            (#[trigger] entries[i]).path,
            (#[trigger] entries[j]).path,
        ) ==> i < j
}

/// In delete mode, on a listing that names ancestors first, a subdirectory is
/// removed before the directory it lies in.
pub proof fn lemma_subdirectory_removed_first(entries: Seq<EntryV>, opts: Options, i: int, j: int)
    requires
        opts.delete,
        ancestors_first(entries),
        0 <= i < entries.len(),
        0 <= j < entries.len(),
        !entries[i].is_file,
        !entries[j].is_file,
        strictly_below(entries[i].path, entries[j].path),
    ensures
        (exists|ki: int, kj: int|
            0 <= kj < ki < spec_plan(entries, opts).len() && spec_plan(entries, opts)[kj]
                == removal_of(entries[j].path) && spec_plan(entries, opts)[ki] == removal_of(
                entries[i].path,
            )),
{
    assert(i < j);
    lemma_cleanup_bottom_up(entries, opts, i, j);
}

/// Every removal of the plan comes after every relocation and skip, and no
/// removal names the root itself: the relocations of a subtree are all done
/// before any directory of it is removed, and the root always survives.
pub proof fn lemma_removals_come_last(entries: Seq<EntryV>, opts: Options)
    requires
        forall|m: int| 0 <= m < entries.len() ==> (#[trigger] entries[m]).path.len() >= 1,
    ensures
        spec_plan(entries, opts).len() == fold_plan(entries, opts, root_names(entries)).acts.len()
            + fold_plan(entries, opts, root_names(entries)).dirs.len(),
        forall|k: int|
            0 <= k < fold_plan(entries, opts, root_names(entries)).acts.len() ==> !((
            #[trigger] spec_plan(entries, opts)[k]) is RemoveDir),
        forall|k: int|
            fold_plan(entries, opts, root_names(entries)).acts.len() <= k < spec_plan(
                entries,
                opts,
            ).len() ==> ((#[trigger] spec_plan(entries, opts)[k]) is RemoveDir && src_of(
                spec_plan(entries, opts)[k],
            ).len() >= 1),
{
    let init = root_names(entries);
    lemma_fold_shape(entries, opts, init);
    let acc = fold_plan(entries, opts, init);
    let plan = spec_plan(entries, opts);
    assert forall|k: int| 0 <= k < acc.acts.len() implies !((#[trigger] plan[k]) is RemoveDir) by {
        assert(plan[k] == acc.acts[k]);
    }
    assert forall|k: int|
        acc.acts.len() <= k < plan.len() implies ((#[trigger] plan[k]) is RemoveDir && src_of(
        plan[k],
    ).len() >= 1) by {
        let r = k - acc.acts.len();
        assert(plan[k] == removal_actions(acc.dirs)[r]);
        assert(acc.dirs.reverse()[r] == acc.dirs[acc.dirs.len() - 1 - r]);
        assert(plan[k] == ActionV::RemoveDir { path: acc.dirs[acc.dirs.len() - 1 - r] });
        assert(dir_from_listing(acc.dirs[acc.dirs.len() - 1 - r], entries));
        let m = choose|m: int|
            0 <= m < entries.len() && !(#[trigger] entries[m]).is_file && acc.dirs[acc.dirs.len()
                - 1 - r] == entries[m].path;
        assert(entries[m].path.len() >= 1);
    }
}

} // verus!
