//! A model of the tree below the root, and what running a plan does to it:
//! files by their relative paths with their contents, directories as a set of
//! paths. Running a plan applies its actions in order and stops at the first
//! failure, exactly as the executor does; the theorems here carry the
//! planner's guarantees through to the final state of the model.

use vstd::prelude::*;
use crate::laws::act_from_listing;
use crate::laws::dest_of;
use crate::laws::dir_from_listing;
use crate::laws::is_place;
use crate::laws::lemma_copy_mode_copies_file;
use crate::laws::lemma_copy_mode_preserves_sources;
use crate::laws::lemma_delete_mode_moves_file;
use crate::laws::lemma_fold_shape;
use crate::laws::lemma_fold_dirs_distinct;
use crate::laws::lemma_fold_srcs_distinct;
use crate::laws::lemma_no_destination_clobbered;
use crate::laws::lemma_plan_index_is_act;
use crate::laws::lemma_plan_shape;
use crate::laws::plan_action_ok;
use crate::laws::src_of;
use crate::laws::strictly_below;
use crate::plan::ActionV;
use crate::plan::EntryV;
use crate::plan::Options;
use crate::plan::fold_plan;
use crate::plan::lemma_root_names_has;
use crate::plan::occ_at;
use crate::plan::removal_actions;
use crate::plan::root_names;
use crate::plan::spec_plan;

verus! {

/// The tree below the root: the files by their paths relative to the root,
/// with their contents, and the set of directories. The root itself is the
/// empty path and is a member of neither.
pub struct FsModel {
    pub files: Map<Seq<Seq<char>>, Seq<u8>>,
    pub dirs: Set<Seq<Seq<char>>>,
}

/// Whether a directory is empty: no file and no other directory lies
/// strictly below it.
pub open spec fn dir_empty(fs: FsModel, p: Seq<Seq<char>>) -> bool {
    &&& forall|q: Seq<Seq<char>>|
        #[trigger] fs.files.dom().contains(q) ==> !strictly_below(p, q)
    &&& forall|q: Seq<Seq<char>>| #[trigger] fs.dirs.contains(q) && q != p ==> !strictly_below(p, q)
}

/// The effect of one action on the model, and whether it succeeded: a copy
/// or move fails when its source is gone, a removal fails when the directory
/// is missing or not empty, and a skip changes nothing.
pub open spec fn apply_action(fs: FsModel, a: ActionV) -> (FsModel, bool) {
    match a {
        ActionV::CopyFile { src, dest } => {
            if fs.files.dom().contains(src) {
                (
                    FsModel { files: fs.files.insert(seq![dest], fs.files[src]), dirs: fs.dirs },
                    true,
                )
            } else {
                (fs, false)
            }
        },
        ActionV::MoveFile { src, dest } => {
            if fs.files.dom().contains(src) {
                (
                    FsModel {
                        files: fs.files.remove(src).insert(seq![dest], fs.files[src]),
                        dirs: fs.dirs,
                    },
                    true,
                )
            } else {
                (fs, false)
            }
        },
        ActionV::SkipFile { .. } => (fs, true),
        ActionV::RemoveDir { path } => {
            if fs.dirs.contains(path) && dir_empty(fs, path) {
                (FsModel { files: fs.files, dirs: fs.dirs.remove(path) }, true)
            } else {
                (fs, false)
            }
        },
    }
}

/// The effect of a whole plan: the actions run in order, and the first
/// failure stops the run, leaving the state as it then stands.
pub open spec fn apply_plan(fs: FsModel, plan: Seq<ActionV>) -> (FsModel, bool)
    decreases plan.len(),
{
    if plan.len() == 0 {
        (fs, true)
    } else {
        let first = apply_action(fs, plan[0]);
        if !first.1 {
            (first.0, false)
        } else {
            apply_plan(first.0, plan.drop_first())
        }
    }
}

/// Running a plan of copies and skips succeeds and leaves every directory
/// and every file not named as a destination exactly as it was, while each
/// destination receives the contents of its source — provided the sources
/// are present and deep, and the destinations pairwise distinct, as the
/// planner guarantees.
pub proof fn lemma_apply_copies(fs: FsModel, plan: Seq<ActionV>)
    requires
        forall|k: int|
            0 <= k < plan.len() ==> ((#[trigger] plan[k]) is CopyFile || plan[k] is SkipFile),
        forall|k: int|
            0 <= k < plan.len() && (#[trigger] plan[k]) is CopyFile ==> fs.files.dom().contains(
                src_of(plan[k]),
            ),
        forall|k: int|
            0 <= k < plan.len() && (#[trigger] plan[k]) is CopyFile ==> src_of(plan[k]).len() >= 2,
        forall|k1: int, k2: int|
            0 <= k1 < k2 < plan.len() && (#[trigger] plan[k1]) is CopyFile && (#[trigger] plan[k2]) is CopyFile
                ==> dest_of(plan[k1]) != dest_of(plan[k2]),
    ensures
        ({
            let r = apply_plan(fs, plan);
            &&& r.1
            &&& r.0.dirs == fs.dirs
            &&& forall|p: Seq<Seq<char>>|
                #[trigger] fs.files.dom().contains(p) ==> r.0.files.dom().contains(p)
            &&& forall|p: Seq<Seq<char>>|
                #[trigger] fs.files.dom().contains(p) && (forall|k: int|
                    0 <= k < plan.len() && (#[trigger] plan[k]) is CopyFile ==> seq![
                        dest_of(plan[k]),
                    ] != p) ==> r.0.files[p] == fs.files[p]
            &&& forall|k: int|
                0 <= k < plan.len() && (#[trigger] plan[k]) is CopyFile ==> (r.0.files.dom().contains(
                    seq![dest_of(plan[k])],
                ) && r.0.files[seq![dest_of(plan[k])]] == fs.files[src_of(plan[k])])
            &&& forall|p: Seq<Seq<char>>|
                #[trigger] r.0.files.dom().contains(p) ==> fs.files.dom().contains(p) || (
                exists|k: int|
                    0 <= k < plan.len() && (#[trigger] plan[k]) is CopyFile && p == seq![
                        dest_of(plan[k]),
                    ])
        }),
    decreases plan.len(),
{
    if plan.len() > 0 {
        let a = plan[0];
        let rest = plan.drop_first();
        assert(forall|k: int| 0 <= k < rest.len() ==> #[trigger] rest[k] == plan[k + 1]);
        if a is SkipFile {
            lemma_apply_copies(fs, rest);
            let r = apply_plan(fs, plan);
            assert(r == apply_plan(fs, rest));
            assert forall|p: Seq<Seq<char>>|
                #[trigger] fs.files.dom().contains(p) && (forall|k: int|
                    0 <= k < plan.len() && (#[trigger] plan[k]) is CopyFile ==> seq![
                        dest_of(plan[k]),
                    ] != p) implies r.0.files[p] == fs.files[p] by {
                assert(forall|k: int|
                    0 <= k < rest.len() && (#[trigger] rest[k]) is CopyFile ==> seq![
                        dest_of(rest[k]),
                    ] != p);
            }
            assert forall|k: int|
                0 <= k < plan.len() && (#[trigger] plan[k]) is CopyFile implies (r.0.files.dom().contains(
                seq![dest_of(plan[k])],
            ) && r.0.files[seq![dest_of(plan[k])]] == fs.files[src_of(plan[k])]) by {
                assert(k >= 1);
                assert(rest[k - 1] == plan[k]);
            }
            assert forall|p: Seq<Seq<char>>|
                #[trigger] r.0.files.dom().contains(p) implies fs.files.dom().contains(p) || (
            exists|k: int|
                0 <= k < plan.len() && (#[trigger] plan[k]) is CopyFile && p == seq![
                    dest_of(plan[k]),
                ]) by {
                if !fs.files.dom().contains(p) {
                    let k = choose|k: int|
                        0 <= k < rest.len() && (#[trigger] rest[k]) is CopyFile && p == seq![
                            dest_of(rest[k]),
                        ];
                    assert(plan[k + 1] is CopyFile && p == seq![dest_of(plan[k + 1])]);
                }
            }
        } else {
            let src0 = src_of(a);
            let dest0 = dest_of(a);
            let fs1 = FsModel {
                files: fs.files.insert(seq![dest0], fs.files[src0]),
                dirs: fs.dirs,
            };
            assert(apply_action(fs, a) == (fs1, true));
            lemma_apply_copies(fs1, rest);
            let r = apply_plan(fs, plan);
            assert(r == apply_plan(fs1, rest));
            assert forall|p: Seq<Seq<char>>|
                #[trigger] fs.files.dom().contains(p) implies r.0.files.dom().contains(p) by {
                assert(fs1.files.dom().contains(p));
            }
            assert forall|p: Seq<Seq<char>>|
                #[trigger] fs.files.dom().contains(p) && (forall|k: int|
                    0 <= k < plan.len() && (#[trigger] plan[k]) is CopyFile ==> seq![
                        dest_of(plan[k]),
                    ] != p) implies r.0.files[p] == fs.files[p] by {
                assert(seq![dest_of(plan[0])] != p);
                assert(fs1.files.dom().contains(p));
                assert(fs1.files[p] == fs.files[p]);
                assert(forall|k: int|
                    0 <= k < rest.len() && (#[trigger] rest[k]) is CopyFile ==> seq![
                        dest_of(rest[k]),
                    ] != p);
                assert(r.0.files[p] == fs1.files[p]);
            }
            assert forall|k: int|
                0 <= k < plan.len() && (#[trigger] plan[k]) is CopyFile implies (r.0.files.dom().contains(
                seq![dest_of(plan[k])],
            ) && r.0.files[seq![dest_of(plan[k])]] == fs.files[src_of(plan[k])]) by {
                if k == 0 {
                    assert(fs1.files.dom().contains(seq![dest0]));
                    assert(fs1.files[seq![dest0]] == fs.files[src0]);
                    assert forall|m: int|
                        0 <= m < rest.len() && (#[trigger] rest[m]) is CopyFile implies seq![
                        dest_of(rest[m]),
                    ] != seq![dest0] by {
                        assert(rest[m] == plan[m + 1]);
                        assert(dest_of(plan[m + 1]) != dest_of(plan[0]));
                        if seq![dest_of(rest[m])] == seq![dest0] {
                            assert(seq![dest_of(rest[m])][0] == seq![dest0][0]);
                        }
                    }
                    assert(r.0.files[seq![dest0]] == fs1.files[seq![dest0]]);
                } else {
                    assert(rest[k - 1] == plan[k]);
                    assert(r.0.files[seq![dest_of(plan[k])]] == fs1.files[src_of(plan[k])]);
                    assert(src_of(plan[k]).len() >= 2);
                    assert(src_of(plan[k]) != seq![dest0]);
                    assert(fs1.files[src_of(plan[k])] == fs.files[src_of(plan[k])]);
                }
            }
            assert forall|p: Seq<Seq<char>>|
                #[trigger] r.0.files.dom().contains(p) implies fs.files.dom().contains(p) || (
            exists|k: int|
                0 <= k < plan.len() && (#[trigger] plan[k]) is CopyFile && p == seq![
                    dest_of(plan[k]),
                ]) by {
                if !fs.files.dom().contains(p) {
                    if p == seq![dest0] {
                        assert(plan[0] is CopyFile && p == seq![dest_of(plan[0])]);
                    } else {
                        assert(!fs1.files.dom().contains(p) || fs.files.dom().contains(p) || p
                            == seq![dest0]);
                        let k = choose|k: int|
                            0 <= k < rest.len() && (#[trigger] rest[k]) is CopyFile && p == seq![
                                dest_of(rest[k]),
                            ];
                        assert(plan[k + 1] is CopyFile && p == seq![dest_of(plan[k + 1])]);
                    }
                }
            }
        }
    }
}

/// Running a plan of moves and skips succeeds, touches no directory, leaves
/// every file that is neither a source nor a destination exactly as it was,
/// takes each moved source away, and leaves at each destination the contents
/// of its source — provided the sources are present, deep and pairwise
/// distinct, and the destinations pairwise distinct, as the planner
/// guarantees.
pub proof fn lemma_apply_moves(fs: FsModel, plan: Seq<ActionV>)
    requires
        forall|k: int|
            0 <= k < plan.len() ==> ((#[trigger] plan[k]) is MoveFile || plan[k] is SkipFile),
        forall|k: int|
            0 <= k < plan.len() && (#[trigger] plan[k]) is MoveFile ==> fs.files.dom().contains(
                src_of(plan[k]),
            ),
        forall|k: int|
            0 <= k < plan.len() && (#[trigger] plan[k]) is MoveFile ==> src_of(plan[k]).len() >= 2,
        forall|k1: int, k2: int|
            0 <= k1 < k2 < plan.len() && (#[trigger] plan[k1]) is MoveFile && (#[trigger] plan[k2]) is MoveFile
                ==> src_of(plan[k1]) != src_of(plan[k2]),
        forall|k1: int, k2: int|
            0 <= k1 < k2 < plan.len() && (#[trigger] plan[k1]) is MoveFile && (#[trigger] plan[k2]) is MoveFile
                ==> dest_of(plan[k1]) != dest_of(plan[k2]),
    ensures
        ({
            let r = apply_plan(fs, plan);
            &&& r.1
            &&& r.0.dirs == fs.dirs
            &&& forall|p: Seq<Seq<char>>|
                #[trigger] fs.files.dom().contains(p) && (forall|k: int|
                    0 <= k < plan.len() && (#[trigger] plan[k]) is MoveFile ==> seq![
                        dest_of(plan[k]),
                    ] != p && src_of(plan[k]) != p) ==> (r.0.files.dom().contains(p)
                    && r.0.files[p] == fs.files[p])
            &&& forall|k: int|
                0 <= k < plan.len() && (#[trigger] plan[k]) is MoveFile ==> (r.0.files.dom().contains(
                    seq![dest_of(plan[k])],
                ) && r.0.files[seq![dest_of(plan[k])]] == fs.files[src_of(plan[k])])
            &&& forall|k: int|
                0 <= k < plan.len() && (#[trigger] plan[k]) is MoveFile ==> !r.0.files.dom().contains(
                    src_of(plan[k]),
                )
            &&& forall|p: Seq<Seq<char>>|
                #[trigger] r.0.files.dom().contains(p) ==> fs.files.dom().contains(p) || (
                exists|k: int|
                    0 <= k < plan.len() && (#[trigger] plan[k]) is MoveFile && p == seq![
                        dest_of(plan[k]),
                    ])
        }),
    decreases plan.len(),
{
    if plan.len() > 0 {
        let a = plan[0];
        let rest = plan.drop_first();
        assert(forall|k: int| 0 <= k < rest.len() ==> #[trigger] rest[k] == plan[k + 1]);
        if a is SkipFile {
            lemma_apply_moves(fs, rest);
            let r = apply_plan(fs, plan);
            assert(r == apply_plan(fs, rest));
            assert forall|p: Seq<Seq<char>>|
                #[trigger] fs.files.dom().contains(p) && (forall|k: int|
                    0 <= k < plan.len() && (#[trigger] plan[k]) is MoveFile ==> seq![
                        dest_of(plan[k]),
                    ] != p && src_of(plan[k]) != p) implies (r.0.files.dom().contains(p)
                && r.0.files[p] == fs.files[p]) by {
                assert(forall|k: int|
                    0 <= k < rest.len() && (#[trigger] rest[k]) is MoveFile ==> seq![
                        dest_of(rest[k]),
                    ] != p && src_of(rest[k]) != p);
            }
            assert forall|k: int|
                0 <= k < plan.len() && (#[trigger] plan[k]) is MoveFile implies (r.0.files.dom().contains(
                seq![dest_of(plan[k])],
            ) && r.0.files[seq![dest_of(plan[k])]] == fs.files[src_of(plan[k])]
                && !r.0.files.dom().contains(src_of(plan[k]))) by {
                assert(k >= 1);
                assert(rest[k - 1] == plan[k]);
            }
            assert forall|p: Seq<Seq<char>>|
                #[trigger] r.0.files.dom().contains(p) implies fs.files.dom().contains(p) || (
            exists|k: int|
                0 <= k < plan.len() && (#[trigger] plan[k]) is MoveFile && p == seq![
                    dest_of(plan[k]),
                ]) by {
                if !fs.files.dom().contains(p) {
                    let k = choose|k: int|
                        0 <= k < rest.len() && (#[trigger] rest[k]) is MoveFile && p == seq![
                            dest_of(rest[k]),
                        ];
                    assert(plan[k + 1] is MoveFile && p == seq![dest_of(plan[k + 1])]);
                }
            }
        } else {
            let src0 = src_of(a);
            let dest0 = dest_of(a);
            let fs1 = FsModel {
                files: fs.files.remove(src0).insert(seq![dest0], fs.files[src0]),
                dirs: fs.dirs,
            };
            assert(apply_action(fs, a) == (fs1, true));
            assert forall|k: int|
                0 <= k < rest.len() && (#[trigger] rest[k]) is MoveFile implies fs1.files.dom().contains(
                src_of(rest[k]),
            ) by {
                assert(rest[k] == plan[k + 1]);
                assert(src_of(plan[k + 1]) != src0);
                assert(fs.files.dom().contains(src_of(plan[k + 1])));
            }
            lemma_apply_moves(fs1, rest);
            let r = apply_plan(fs, plan);
            assert(r == apply_plan(fs1, rest));
            assert forall|p: Seq<Seq<char>>|
                #[trigger] fs.files.dom().contains(p) && (forall|k: int|
                    0 <= k < plan.len() && (#[trigger] plan[k]) is MoveFile ==> seq![
                        dest_of(plan[k]),
                    ] != p && src_of(plan[k]) != p) implies (r.0.files.dom().contains(p)
                && r.0.files[p] == fs.files[p]) by {
                assert(seq![dest_of(plan[0])] != p && src_of(plan[0]) != p);
                assert(fs1.files.dom().contains(p));
                assert(fs1.files[p] == fs.files[p]);
                assert(forall|k: int|
                    0 <= k < rest.len() && (#[trigger] rest[k]) is MoveFile ==> seq![
                        dest_of(rest[k]),
                    ] != p && src_of(rest[k]) != p);
                assert(r.0.files.dom().contains(p) && r.0.files[p] == fs1.files[p]);
            }
            assert forall|k: int|
                0 <= k < plan.len() && (#[trigger] plan[k]) is MoveFile implies (r.0.files.dom().contains(
                seq![dest_of(plan[k])],
            ) && r.0.files[seq![dest_of(plan[k])]] == fs.files[src_of(plan[k])]
                && !r.0.files.dom().contains(src_of(plan[k]))) by {
                if k == 0 {
                    assert(fs1.files.dom().contains(seq![dest0]));
                    assert(fs1.files[seq![dest0]] == fs.files[src0]);
                    assert forall|m: int|
                        0 <= m < rest.len() && (#[trigger] rest[m]) is MoveFile implies (seq![
                        dest_of(rest[m]),
                    ] != seq![dest0] && src_of(rest[m]) != seq![dest0]) by {
                        assert(rest[m] == plan[m + 1]);
                        assert(dest_of(plan[m + 1]) != dest_of(plan[0]));
                        if seq![dest_of(rest[m])] == seq![dest0] {
                            assert(seq![dest_of(rest[m])][0] == seq![dest0][0]);
                        }
                        assert(src_of(plan[m + 1]).len() >= 2);
                    }
                    assert(r.0.files.dom().contains(seq![dest0]) && r.0.files[seq![dest0]]
                        == fs1.files[seq![dest0]]);
                    assert(!fs1.files.dom().contains(src0));
                    if r.0.files.dom().contains(src0) {
                        let m = choose|m: int|
                            0 <= m < rest.len() && (#[trigger] rest[m]) is MoveFile && src0 == seq![
                                dest_of(rest[m]),
                            ];
                        assert(src_of(plan[0]).len() >= 2);
                        assert(false);
                    }
                } else {
                    assert(rest[k - 1] == plan[k]);
                    assert(r.0.files.dom().contains(seq![dest_of(plan[k])])
                        && r.0.files[seq![dest_of(plan[k])]] == fs1.files[src_of(plan[k])]);
                    assert(src_of(plan[k]) != src0);
                    assert(src_of(plan[k]).len() >= 2);
                    assert(src_of(plan[k]) != seq![dest0]);
                    assert(fs1.files[src_of(plan[k])] == fs.files[src_of(plan[k])]);
                    assert(!r.0.files.dom().contains(src_of(plan[k])));
                }
            }
            assert forall|p: Seq<Seq<char>>|
                #[trigger] r.0.files.dom().contains(p) implies fs.files.dom().contains(p) || (
            exists|k: int|
                0 <= k < plan.len() && (#[trigger] plan[k]) is MoveFile && p == seq![
                    dest_of(plan[k]),
                ]) by {
                if !fs.files.dom().contains(p) {
                    if p == seq![dest0] {
                        assert(plan[0] is MoveFile && p == seq![dest_of(plan[0])]);
                    } else {
                        assert(!fs1.files.dom().contains(p) || fs.files.dom().contains(p) || p
                            == seq![dest0]);
                        let k = choose|k: int|
                            0 <= k < rest.len() && (#[trigger] rest[k]) is MoveFile && p == seq![
                                dest_of(rest[k]),
                            ];
                        assert(plan[k + 1] is MoveFile && p == seq![dest_of(plan[k + 1])]);
                    }
                }
            }
        }
    }
}

/// A plan that runs through splits: running the concatenation is running the
/// first part, then the second on what it left, as long as the first part
/// succeeded.
proof fn lemma_apply_plan_concat(fs: FsModel, a: Seq<ActionV>, b: Seq<ActionV>)
    requires
        apply_plan(fs, a).1,
    ensures
        apply_plan(fs, a + b) == apply_plan(apply_plan(fs, a).0, b),
    decreases a.len(),
{
    if a.len() == 0 {
        assert(a + b =~= b);
    } else {
        let first = apply_action(fs, a[0]);
        assert((a + b)[0] == a[0]);
        assert((a + b).drop_first() =~= a.drop_first() + b);
        lemma_apply_plan_concat(first.0, a.drop_first(), b);
    }
}

/// Directory removals never change the files of the model, whether or not
/// every removal succeeds.
proof fn lemma_removals_keep_files(fs: FsModel, plan: Seq<ActionV>)
    requires
        forall|k: int| 0 <= k < plan.len() ==> (#[trigger] plan[k]) is RemoveDir,
    ensures
        apply_plan(fs, plan).0.files == fs.files,
    decreases plan.len(),
{
    if plan.len() > 0 {
        let first = apply_action(fs, plan[0]);
        assert(first.0.files == fs.files);
        if first.1 {
            assert(forall|k: int|
                0 <= k < plan.drop_first().len() ==> #[trigger] plan.drop_first()[k] == plan[k
                    + 1]);
            lemma_removals_keep_files(first.0, plan.drop_first());
        }
    }
}

/// The listing describes the model: no path is listed twice, every file
/// entry names a file of the model, and every file of the model is named by
/// a file entry.
pub open spec fn lists(entries: Seq<EntryV>, fs: FsModel) -> bool {
    &&& forall|i: int, j: int|
        0 <= i < j < entries.len() ==> (#[trigger] entries[i]).path != (#[trigger] entries[j]).path
    &&& forall|i: int|
        0 <= i < entries.len() && (#[trigger] entries[i]).is_file ==> fs.files.dom().contains(
            entries[i].path,
        )
    &&& forall|p: Seq<Seq<char>>|
        #[trigger] fs.files.dom().contains(p) ==> exists|i: int|
            0 <= i < entries.len() && (#[trigger] entries[i]).is_file && entries[i].path == p
}

/// No destination of the plan names a path that held a file at the start:
/// the fresh destination names cannot collide with any existing file of the
/// model.
proof fn lemma_dests_miss_existing(entries: Seq<EntryV>, opts: Options, fs: FsModel, p: Seq<Seq<char>>)
    requires
        lists(entries, fs),
        fs.files.dom().contains(p),
    ensures
        forall|k: int|
            0 <= k < spec_plan(entries, opts).len() && is_place(
                #[trigger] spec_plan(entries, opts)[k],
            ) ==> seq![dest_of(spec_plan(entries, opts)[k])] != p,
{
    let plan = spec_plan(entries, opts);
    lemma_no_destination_clobbered(entries, opts);
    assert forall|k: int|
        0 <= k < plan.len() && is_place(#[trigger] plan[k]) implies seq![dest_of(plan[k])]
        != p by {
        if seq![dest_of(plan[k])] == p {
            assert(p.len() == 1);
            assert(p[0] == dest_of(plan[k]));
            let i = choose|i: int|
                0 <= i < entries.len() && (#[trigger] entries[i]).is_file && entries[i].path == p;
            lemma_root_names_has(entries, i);
            assert(root_names(entries).contains(dest_of(plan[k])));
        }
    }
}

/// A copy-mode run on a tree that the listing describes always succeeds,
/// collisions or not: a skip is never fatal, nothing is removed, and every
/// file of the tree keeps its place and its contents.
pub proof fn lemma_copy_run_always_succeeds(entries: Seq<EntryV>, opts: Options, fs: FsModel)
    requires
        !opts.delete,
        lists(entries, fs),
    ensures
        ({
            let r = apply_plan(fs, spec_plan(entries, opts));
            &&& r.1
            &&& r.0.dirs == fs.dirs
            &&& forall|p: Seq<Seq<char>>|
                #[trigger] fs.files.dom().contains(p) ==> (r.0.files.dom().contains(p)
                    && r.0.files[p] == fs.files[p])
        }),
{
    let plan = spec_plan(entries, opts);
    lemma_copy_mode_preserves_sources(entries, opts);
    lemma_plan_shape(entries, opts);
    lemma_no_destination_clobbered(entries, opts);
    assert forall|k: int|
        0 <= k < plan.len() && (#[trigger] plan[k]) is CopyFile implies (fs.files.dom().contains(
        src_of(plan[k]),
    ) && src_of(plan[k]).len() >= 2) by {
        assert(plan_action_ok(plan[k], entries, opts));
        assert(act_from_listing(plan[k], entries, opts));
        let m = choose|m: int|
            0 <= m < entries.len() && (#[trigger] entries[m]).is_file && entries[m].path.len() >= 2
                && src_of(plan[k]) == entries[m].path;
        assert(fs.files.dom().contains(entries[m].path));
    }
    assert forall|k1: int, k2: int|
        0 <= k1 < k2 < plan.len() && (#[trigger] plan[k1]) is CopyFile && (#[trigger] plan[k2]) is CopyFile
        implies dest_of(plan[k1]) != dest_of(plan[k2]) by {
        assert(is_place(plan[k1]) && is_place(plan[k2]));
    }
    lemma_apply_copies(fs, plan);
    let r = apply_plan(fs, plan);
    assert forall|p: Seq<Seq<char>>|
        #[trigger] fs.files.dom().contains(p) implies (r.0.files.dom().contains(p) && r.0.files[p]
        == fs.files[p]) by {
        lemma_dests_miss_existing(entries, opts, fs, p);
        assert(forall|k: int|
            0 <= k < plan.len() && (#[trigger] plan[k]) is CopyFile ==> seq![dest_of(plan[k])]
                != p);
    }
}

/// In copy mode a run on a tree that the listing describes succeeds, leaves
/// every file of the tree in place with its contents unchanged and every
/// directory untouched, and gives a deep file whose name was free when its
/// turn came a copy of its contents at that very name directly under the
/// root.
pub proof fn lemma_copy_run_end_state(entries: Seq<EntryV>, opts: Options, fs: FsModel, i: int)
    requires
        !opts.delete,
        lists(entries, fs),
        0 <= i < entries.len(),
        entries[i].is_file,
        entries[i].path.len() >= 2,
        !occ_at(entries, opts, i).contains(entries[i].path.last()),
    ensures
        ({
            let r = apply_plan(fs, spec_plan(entries, opts));
            &&& r.1
            &&& r.0.dirs == fs.dirs
            &&& forall|p: Seq<Seq<char>>|
                #[trigger] fs.files.dom().contains(p) ==> (r.0.files.dom().contains(p)
                    && r.0.files[p] == fs.files[p])
            &&& r.0.files.dom().contains(seq![entries[i].path.last()])
            &&& r.0.files[seq![entries[i].path.last()]] == fs.files[entries[i].path]
        }),
{
    let plan = spec_plan(entries, opts);
    lemma_copy_mode_preserves_sources(entries, opts);
    lemma_plan_shape(entries, opts);
    lemma_no_destination_clobbered(entries, opts);
    assert forall|k: int|
        0 <= k < plan.len() && (#[trigger] plan[k]) is CopyFile implies (fs.files.dom().contains(
        src_of(plan[k]),
    ) && src_of(plan[k]).len() >= 2) by {
        assert(plan_action_ok(plan[k], entries, opts));
        assert(act_from_listing(plan[k], entries, opts));
        let m = choose|m: int|
            0 <= m < entries.len() && (#[trigger] entries[m]).is_file && entries[m].path.len() >= 2
                && src_of(plan[k]) == entries[m].path;
        assert(fs.files.dom().contains(entries[m].path));
    }
    assert forall|k1: int, k2: int|
        0 <= k1 < k2 < plan.len() && (#[trigger] plan[k1]) is CopyFile && (#[trigger] plan[k2]) is CopyFile
        implies dest_of(plan[k1]) != dest_of(plan[k2]) by {
        assert(is_place(plan[k1]) && is_place(plan[k2]));
    }
    lemma_apply_copies(fs, plan);
    let r = apply_plan(fs, plan);
    assert forall|p: Seq<Seq<char>>|
        #[trigger] fs.files.dom().contains(p) implies (r.0.files.dom().contains(p) && r.0.files[p]
        == fs.files[p]) by {
        lemma_dests_miss_existing(entries, opts, fs, p);
        assert(forall|k: int|
            0 <= k < plan.len() && (#[trigger] plan[k]) is CopyFile ==> seq![dest_of(plan[k])]
                != p);
    }
    lemma_copy_mode_copies_file(entries, opts, i);
    let name = entries[i].path.last();
    let a = ActionV::CopyFile { src: entries[i].path, dest: name };
    let k = choose|k: int| 0 <= k < plan.len() && plan[k] == a;
    assert(plan[k] is CopyFile && dest_of(plan[k]) == name && src_of(plan[k])
        == entries[i].path);
    assert(r.0.files.dom().contains(seq![name]) && r.0.files[seq![name]]
        == fs.files[entries[i].path]);
}

/// In delete mode a run on a tree that the listing describes moves a deep
/// file whose name was free when its turn came: whether or not the cleanup
/// at the end succeeds, the file's contents end up at its own name directly
/// under the root, and its original path holds no file any more.
pub proof fn lemma_delete_run_end_state(entries: Seq<EntryV>, opts: Options, fs: FsModel, i: int)
    requires
        opts.delete,
        lists(entries, fs),
        0 <= i < entries.len(),
        entries[i].is_file,
        entries[i].path.len() >= 2,
        !occ_at(entries, opts, i).contains(entries[i].path.last()),
    ensures
        ({
            let r = apply_plan(fs, spec_plan(entries, opts));
            &&& r.0.files.dom().contains(seq![entries[i].path.last()])
            &&& r.0.files[seq![entries[i].path.last()]] == fs.files[entries[i].path]
            &&& !r.0.files.dom().contains(entries[i].path)
        }),
{
    let init = root_names(entries);
    let acc = fold_plan(entries, opts, init);
    let plan = spec_plan(entries, opts);
    let acts = acc.acts;
    let removals = removal_actions(acc.dirs);
    lemma_fold_shape(entries, opts, init);
    lemma_no_destination_clobbered(entries, opts);
    lemma_fold_srcs_distinct(entries, opts, init);
    assert(plan == acts + removals);
    assert(forall|k: int| 0 <= k < acts.len() ==> #[trigger] plan[k] == acts[k]);
    assert forall|k: int|
        0 <= k < acts.len() implies ((#[trigger] acts[k]) is MoveFile || acts[k] is SkipFile) by {
        assert(act_from_listing(acts[k], entries, opts));
    }
    assert forall|k: int|
        0 <= k < acts.len() && (#[trigger] acts[k]) is MoveFile implies (fs.files.dom().contains(
        src_of(acts[k]),
    ) && src_of(acts[k]).len() >= 2) by {
        assert(act_from_listing(plan[k], entries, opts));
        let m = choose|m: int|
            0 <= m < entries.len() && (#[trigger] entries[m]).is_file && entries[m].path.len() >= 2
                && src_of(plan[k]) == entries[m].path;
        assert(fs.files.dom().contains(entries[m].path));
    }
    assert forall|k1: int, k2: int|
        0 <= k1 < k2 < acts.len() && (#[trigger] acts[k1]) is MoveFile && (#[trigger] acts[k2]) is MoveFile
        implies (src_of(acts[k1]) != src_of(acts[k2]) && dest_of(acts[k1]) != dest_of(
        acts[k2],
    )) by {
        assert(is_place(plan[k1]) && is_place(plan[k2]));
    }
    lemma_apply_moves(fs, acts);
    let ra = apply_plan(fs, acts);
    lemma_delete_mode_moves_file(entries, opts, i);
    let name = entries[i].path.last();
    let a = ActionV::MoveFile { src: entries[i].path, dest: name };
    let kp = choose|kp: int| 0 <= kp < plan.len() && plan[kp] == a;
    lemma_plan_index_is_act(entries, opts, kp);
    assert(acts[kp] == a);
    assert(ra.0.files.dom().contains(seq![name]) && ra.0.files[seq![name]]
        == fs.files[entries[i].path]);
    assert(!ra.0.files.dom().contains(entries[i].path));
    lemma_apply_plan_concat(fs, acts, removals);
    assert(apply_plan(fs, plan) == apply_plan(ra.0, removals));
    assert forall|k: int| 0 <= k < removals.len() implies (#[trigger] removals[k]) is RemoveDir by {
        assert(removals[k] == ActionV::RemoveDir { path: acc.dirs.reverse()[k] });
    }
    lemma_removals_keep_files(ra.0, removals);
}

/// Removing directories bottom-up empties the model of them: when the files
/// left are all directly under the root, the directories are exactly the
/// recorded ones, no path is recorded twice, and ancestors come before their
/// descendants in the record, every removal in the reverse of that order
/// finds its directory present and empty, and at the end none is left.
proof fn lemma_remove_phase(fsx: FsModel, dirs: Seq<Seq<Seq<char>>>, j: int)
    requires
        0 <= j <= dirs.len(),
        forall|p: Seq<Seq<char>>| #[trigger] fsx.files.dom().contains(p) ==> p.len() <= 1,
        forall|d: int| 0 <= d < j ==> fsx.dirs.contains(#[trigger] dirs[d]),
        forall|q: Seq<Seq<char>>|
            #[trigger] fsx.dirs.contains(q) ==> exists|d: int| 0 <= d < j && dirs[d] == q,
        forall|d: int| 0 <= d < j ==> (#[trigger] dirs[d]).len() >= 1,
        forall|d1: int, d2: int| 0 <= d1 < d2 < j ==> #[trigger] dirs[d1] != #[trigger] dirs[d2],
        forall|d1: int, d2: int|
            0 <= d1 < j && 0 <= d2 < j && strictly_below(#[trigger] dirs[d1], #[trigger] dirs[d2])
                ==> d1 < d2,
    ensures
        ({
            let r = apply_plan(
                fsx,
                dirs.take(j).reverse().map_values(|p: Seq<Seq<char>>| ActionV::RemoveDir { path: p }),
            );
            &&& r.1
            &&& r.0.files == fsx.files
            &&& forall|q: Seq<Seq<char>>| !r.0.dirs.contains(q)
        }),
    decreases j,
{
    let f = |p: Seq<Seq<char>>| ActionV::RemoveDir { path: p };
    let plan = dirs.take(j).reverse().map_values(f);
    if j == 0 {
        assert(plan =~= Seq::<ActionV>::empty());
        assert forall|q: Seq<Seq<char>>| !fsx.dirs.contains(q) by {
            if fsx.dirs.contains(q) {
                let d = choose|d: int| 0 <= d < 0 && dirs[d] == q;
            }
        }
    } else {
        let top = dirs[j - 1];
        assert(plan.len() == j);
        assert(plan[0] == f(dirs.take(j).reverse()[0]));
        assert(dirs.take(j).reverse()[0] == dirs.take(j)[j - 1]);
        assert(plan[0] == ActionV::RemoveDir { path: top });
        assert(fsx.dirs.contains(top));
        assert(dir_empty(fsx, top)) by {
            assert forall|q: Seq<Seq<char>>|
                #[trigger] fsx.files.dom().contains(q) implies !strictly_below(top, q) by {
                assert(q.len() <= 1);
                assert(top.len() >= 1);
            }
            assert forall|q: Seq<Seq<char>>|
                #[trigger] fsx.dirs.contains(q) && q != top implies !strictly_below(top, q) by {
                if strictly_below(top, q) {
                    let d = choose|d: int| 0 <= d < j && dirs[d] == q;
                    assert(d != j - 1);
                    assert(strictly_below(dirs[j - 1], dirs[d]));
                    assert(j - 1 < d);
                    assert(false);
                }
            }
        }
        let fsy = FsModel { files: fsx.files, dirs: fsx.dirs.remove(top) };
        assert(apply_action(fsx, plan[0]) == (fsy, true));
        assert forall|q: Seq<Seq<char>>|
            #[trigger] fsy.dirs.contains(q) implies exists|d: int| 0 <= d < j - 1 && dirs[d]
            == q by {
            let d = choose|d: int| 0 <= d < j && dirs[d] == q;
            assert(q != top);
            assert(d != j - 1);
        }
        assert forall|d: int| 0 <= d < j - 1 implies fsy.dirs.contains(#[trigger] dirs[d]) by {
            assert(dirs[d] != top);
        }
        lemma_remove_phase(fsy, dirs, j - 1);
        let rest = dirs.take(j - 1).reverse().map_values(f);
        assert(plan.drop_first() =~= rest) by {
            assert(plan.drop_first().len() == rest.len());
            assert forall|m: int| 0 <= m < rest.len() implies plan.drop_first()[m] == rest[m] by {
                assert(plan.drop_first()[m] == plan[m + 1]);
                assert(plan[m + 1] == f(dirs.take(j).reverse()[m + 1]));
                assert(dirs.take(j).reverse()[m + 1] == dirs.take(j)[j - 2 - m]);
                assert(rest[m] == f(dirs.take(j - 1).reverse()[m]));
                assert(dirs.take(j - 1).reverse()[m] == dirs.take(j - 1)[j - 2 - m]);
            }
        }
        assert(apply_plan(fsx, plan) == apply_plan(fsy, rest));
    }
}

/// In delete mode a run on a tree that the listing fully describes — its
/// directories included, ancestors first — succeeds whole when no deep
/// file's name collides at its turn: every deep file ends up under its own
/// name in the root with its contents, the files directly under the root
/// keep theirs, and every directory is removed.
pub proof fn lemma_delete_run_succeeds(entries: Seq<EntryV>, opts: Options, fs: FsModel)
    requires
        opts.delete,
        lists(entries, fs),
        forall|i: int|
            0 <= i < entries.len() && !(#[trigger] entries[i]).is_file ==> fs.dirs.contains(
                entries[i].path,
            ),
        forall|q: Seq<Seq<char>>|
            #[trigger] fs.dirs.contains(q) ==> exists|i: int|
                0 <= i < entries.len() && !(#[trigger] entries[i]).is_file && entries[i].path == q,
        forall|i: int| 0 <= i < entries.len() ==> (#[trigger] entries[i]).path.len() >= 1,
        crate::laws::ancestors_first(entries),
        forall|i: int|
            0 <= i < entries.len() && (#[trigger] entries[i]).is_file && entries[i].path.len() >= 2
                ==> !occ_at(entries, opts, i).contains(entries[i].path.last()),
    ensures
        ({
            let r = apply_plan(fs, spec_plan(entries, opts));
            &&& r.1
            &&& forall|q: Seq<Seq<char>>| !r.0.dirs.contains(q)
            &&& forall|i: int|
                0 <= i < entries.len() && (#[trigger] entries[i]).is_file && entries[i].path.len()
                    >= 2 ==> (r.0.files.dom().contains(seq![entries[i].path.last()])
                    && r.0.files[seq![entries[i].path.last()]] == fs.files[entries[i].path])
            &&& forall|p: Seq<Seq<char>>|
                #[trigger] fs.files.dom().contains(p) && p.len() == 1 ==> (r.0.files.dom().contains(
                    p,
                ) && r.0.files[p] == fs.files[p])
        }),
{
    let init = root_names(entries);
    let acc = fold_plan(entries, opts, init);
    let plan = spec_plan(entries, opts);
    let acts = acc.acts;
    let removals = removal_actions(acc.dirs);
    lemma_fold_shape(entries, opts, init);
    lemma_no_destination_clobbered(entries, opts);
    lemma_fold_srcs_distinct(entries, opts, init);
    lemma_fold_dirs_distinct(entries, opts, init);
    assert(plan == acts + removals);
    assert(forall|k: int| 0 <= k < acts.len() ==> #[trigger] plan[k] == acts[k]);
    assert forall|k: int|
        0 <= k < acts.len() implies ((#[trigger] acts[k]) is MoveFile || acts[k] is SkipFile) by {
        assert(act_from_listing(acts[k], entries, opts));
    }
    assert forall|k: int|
        0 <= k < acts.len() && (#[trigger] acts[k]) is MoveFile implies (fs.files.dom().contains(
        src_of(acts[k]),
    ) && src_of(acts[k]).len() >= 2) by {
        assert(act_from_listing(acts[k], entries, opts));
        let m = choose|m: int|
            0 <= m < entries.len() && (#[trigger] entries[m]).is_file && entries[m].path.len() >= 2
                && src_of(acts[k]) == entries[m].path;
        assert(fs.files.dom().contains(entries[m].path));
    }
    assert forall|k1: int, k2: int|
        0 <= k1 < k2 < acts.len() && (#[trigger] acts[k1]) is MoveFile && (#[trigger] acts[k2]) is MoveFile
        implies (src_of(acts[k1]) != src_of(acts[k2]) && dest_of(acts[k1]) != dest_of(
        acts[k2],
    )) by {
        assert(is_place(plan[k1]) && is_place(plan[k2]));
    }
    lemma_apply_moves(fs, acts);
    let ra = apply_plan(fs, acts);
    // every deep file was moved: its own name was free, so its action is a move
    assert forall|i: int|
        0 <= i < entries.len() && (#[trigger] entries[i]).is_file && entries[i].path.len() >= 2
        implies (ra.0.files.dom().contains(seq![entries[i].path.last()])
        && ra.0.files[seq![entries[i].path.last()]] == fs.files[entries[i].path]
        && !ra.0.files.dom().contains(entries[i].path)) by {
        lemma_delete_mode_moves_file(entries, opts, i);
        let a = ActionV::MoveFile { src: entries[i].path, dest: entries[i].path.last() };
        let kp = choose|kp: int| 0 <= kp < plan.len() && plan[kp] == a;
        lemma_plan_index_is_act(entries, opts, kp);
        assert(acts[kp] == a);
    }
    // after the moves every remaining file lies directly under the root
    assert forall|p: Seq<Seq<char>>| #[trigger] ra.0.files.dom().contains(p) implies p.len()
        <= 1 by {
        if p.len() >= 2 {
            if fs.files.dom().contains(p) {
                let i = choose|i: int|
                    0 <= i < entries.len() && (#[trigger] entries[i]).is_file && entries[i].path
                        == p;
                assert(!ra.0.files.dom().contains(entries[i].path));
                assert(false);
            } else {
                let k = choose|k: int|
                    0 <= k < acts.len() && (#[trigger] acts[k]) is MoveFile && p == seq![
                        dest_of(acts[k]),
                    ];
                assert(false);
            }
        }
    }
    // root-level files keep their contents: they are never sources, and the
    // destinations are fresh
    assert forall|p: Seq<Seq<char>>|
        #[trigger] fs.files.dom().contains(p) && p.len() == 1 implies (ra.0.files.dom().contains(p)
        && ra.0.files[p] == fs.files[p]) by {
        lemma_dests_miss_existing(entries, opts, fs, p);
        assert forall|k: int|
            0 <= k < acts.len() && (#[trigger] acts[k]) is MoveFile implies (seq![
            dest_of(acts[k]),
        ] != p && src_of(acts[k]) != p) by {
            assert(is_place(plan[k]));
            assert(src_of(acts[k]).len() >= 2);
        }
    }
    // the recorded directories are exactly the model's directories
    assert forall|d: int| 0 <= d < acc.dirs.len() implies ra.0.dirs.contains(
        #[trigger] acc.dirs[d],
    ) by {
        assert(dir_from_listing(acc.dirs[d], entries));
        let m = choose|m: int|
            0 <= m < entries.len() && !(#[trigger] entries[m]).is_file && acc.dirs[d]
                == entries[m].path;
        assert(fs.dirs.contains(entries[m].path));
    }
    assert forall|q: Seq<Seq<char>>| #[trigger] ra.0.dirs.contains(q) implies exists|d: int|
        0 <= d < acc.dirs.len() && acc.dirs[d] == q by {
        let i = choose|i: int|
            0 <= i < entries.len() && !(#[trigger] entries[i]).is_file && entries[i].path == q;
        crate::laws::lemma_fold_dir_contains(entries, opts, init, i);
        let d = choose|d: int| 0 <= d < acc.dirs.len() && acc.dirs[d] == entries[i].path;
        assert(0 <= d < acc.dirs.len() && acc.dirs[d] == q);
    }
    assert forall|d: int| 0 <= d < acc.dirs.len() implies (#[trigger] acc.dirs[d]).len() >= 1 by {
        assert(dir_from_listing(acc.dirs[d], entries));
        let m = choose|m: int|
            0 <= m < entries.len() && !(#[trigger] entries[m]).is_file && acc.dirs[d]
                == entries[m].path;
    }
    // ancestors stand before their descendants in the record
    assert forall|d1: int, d2: int|
        0 <= d1 < acc.dirs.len() && 0 <= d2 < acc.dirs.len() && strictly_below(
        #[trigger] acc.dirs[d1],
        #[trigger] acc.dirs[d2],
    ) implies d1 < d2 by {
        let m1 = choose|m: int|
            0 <= m < entries.len() && !(#[trigger] entries[m]).is_file && acc.dirs[d1]
                == entries[m].path;
        let m2 = choose|m: int|
            0 <= m < entries.len() && !(#[trigger] entries[m]).is_file && acc.dirs[d2]
                == entries[m].path;
        assert(strictly_below(entries[m1].path, entries[m2].path));
        assert(m1 < m2);
        crate::laws::lemma_fold_dirs_order(entries, opts, init, m1, m2);
        let (p1, p2) = choose|p1: int, p2: int|
            0 <= p1 < p2 < acc.dirs.len() && acc.dirs[p1] == entries[m1].path && acc.dirs[p2]
                == entries[m2].path;
        assert(p1 == d1 && p2 == d2) by {
            if p1 != d1 {
                assert(acc.dirs[p1] == acc.dirs[d1]);
                assert(false);
            }
            if p2 != d2 {
                assert(acc.dirs[p2] == acc.dirs[d2]);
                assert(false);
            }
        }
    }
    assert(acc.dirs.take(acc.dirs.len() as int) =~= acc.dirs);
    lemma_remove_phase(ra.0, acc.dirs, acc.dirs.len() as int);
    let x = acc.dirs.take(acc.dirs.len() as int).reverse().map_values(
        |p: Seq<Seq<char>>| ActionV::RemoveDir { path: p },
    );
    assert(removals =~= x) by {
        assert(removals.len() == x.len());
        assert forall|m: int| 0 <= m < removals.len() implies removals[m] == x[m] by {
            assert(removals[m] == ActionV::RemoveDir { path: acc.dirs.reverse()[m] });
            assert(x[m] == ActionV::RemoveDir {
                path: acc.dirs.take(acc.dirs.len() as int).reverse()[m],
            });
        }
    }
    lemma_apply_plan_concat(fs, acts, removals);
    assert(apply_plan(fs, plan) == apply_plan(ra.0, removals));
}

} // verus!
