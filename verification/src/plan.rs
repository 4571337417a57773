//! The flattening planner. Given the listing of the tree below the root and
//! the run's options, it decides, entry by entry, where each file goes: a file
//! directly in the root stays untouched, a deeper file is assigned its own
//! name in the root when that name is free, and a collision is either skipped
//! or renamed to the first free numbered candidate. In delete mode every
//! visited directory is scheduled for removal, bottom-up, after all the file
//! relocations. The planner performs no I/O: it turns a listing into a plan of
//! actions.

use vstd::prelude::*;
use crate::names::candidate;
use crate::names::candidate_name;
use crate::names::candidate_parts;
use crate::names::ext_of;
use crate::names::lemma_candidate_injective;
use crate::names::split_name;
use crate::names::stem_of;

verus! {

/// Configuration of a run: move files and remove the emptied directories, or
/// copy files and leave the tree in place; and, on a name collision, rename
/// to a numbered candidate or skip the file.
#[derive(Clone, Copy, PartialEq, Eq, Structural, Debug)]
pub struct Options {
    pub delete: bool,
    pub rename: bool,
}

/// One node of the listing of the tree below the root: its path as the
/// sequence of name components relative to the root (never empty: the root
/// itself is not listed), and whether it is a file or a directory.
#[derive(Debug, Clone)]
pub struct Entry {
    pub path: Vec<String>,
    pub is_file: bool,
}

/// The mathematical shadow of an `Entry`.
pub struct EntryV {
    pub path: Seq<Seq<char>>,
    pub is_file: bool,
}

impl DeepView for Entry {
    type V = EntryV;

    open spec fn deep_view(&self) -> EntryV {
        EntryV { path: self.path.deep_view(), is_file: self.is_file }
    }
}

/// One step of a flattening plan. Relocations and skips name the source file
/// by its path relative to the root and the destination by its file name
/// directly in the root; a removal names a directory relative to the root.
#[derive(Debug, Clone, PartialEq, Eq)]
pub enum Action {
    /// Copy the file at `src` to `dest` in the root, leaving `src` in place.
    CopyFile { src: Vec<String>, dest: String },
    /// Move the file at `src` to `dest` in the root.
    MoveFile { src: Vec<String>, dest: String },
    /// Leave the file at `src` where it is: its name `dest` is already taken.
    SkipFile { src: Vec<String>, dest: String },
    /// Remove the directory at `path`, which the relocations have emptied.
    RemoveDir { path: Vec<String> },
}

/// The mathematical shadow of an `Action`.
pub enum ActionV {
    CopyFile { src: Seq<Seq<char>>, dest: Seq<char> },
    MoveFile { src: Seq<Seq<char>>, dest: Seq<char> },
    SkipFile { src: Seq<Seq<char>>, dest: Seq<char> },
    RemoveDir { path: Seq<Seq<char>> },
}

impl DeepView for Action {
    type V = ActionV;

    open spec fn deep_view(&self) -> ActionV {
        match self {
            Action::CopyFile { src, dest } => ActionV::CopyFile {
                src: src.deep_view(),
                dest: dest.deep_view(),
            },
            Action::MoveFile { src, dest } => ActionV::MoveFile {
                src: src.deep_view(),
                dest: dest.deep_view(),
            },
            Action::SkipFile { src, dest } => ActionV::SkipFile {
                src: src.deep_view(),
                dest: dest.deep_view(),
            },
            Action::RemoveDir { path } => ActionV::RemoveDir { path: path.deep_view() },
        }
    }
}

/// How a destination name was resolved against the names already present in
/// the root.
#[derive(Debug, Clone, PartialEq, Eq)]
pub enum Resolved {
    /// The name is free: the file keeps its own name.
    Keep,
    /// The name is taken and renaming is off: the file is skipped.
    Skipped,
    /// The name is taken and renaming is on: the file goes to the first free
    /// numbered candidate.
    Renamed(String),
}

/// The mathematical shadow of a `Resolved`.
pub enum ResolvedV {
    Keep,
    Skipped,
    Renamed(Seq<char>),
}

impl DeepView for Resolved {
    type V = ResolvedV;

    open spec fn deep_view(&self) -> ResolvedV {
        match self {
            Resolved::Keep => ResolvedV::Keep,
            Resolved::Skipped => ResolvedV::Skipped,
            Resolved::Renamed(dest) => ResolvedV::Renamed(dest.deep_view()),
        }
    }
}

/// `k` is the first counter, from 1 upward, whose numbered candidate built
/// from this stem and extension is not among the occupied names.
pub open spec fn is_first_free_from(
    stem: Seq<char>,
    ext: Option<Seq<char>>,
    occ: Seq<Seq<char>>,
    k: nat,
) -> bool {
    &&& 1 <= k
    &&& !occ.contains(candidate_parts(stem, ext, k))
    &&& forall|j: nat| 1 <= j < k ==> occ.contains(candidate_parts(stem, ext, j))
}

/// `k` is the first counter whose numbered candidate for `name` is free.
pub open spec fn is_first_free(name: Seq<char>, occ: Seq<Seq<char>>, k: nat) -> bool {
    is_first_free_from(stem_of(name), ext_of(name), occ, k)
}

/// The first counter whose numbered candidate for `name` is free.
pub open spec fn first_free(name: Seq<char>, occ: Seq<Seq<char>>) -> nat {
    choose|k: nat| is_first_free(name, occ, k)
}

/// Only one counter can be the first free one.
pub proof fn lemma_first_free_unique(
    stem: Seq<char>,
    ext: Option<Seq<char>>,
    occ: Seq<Seq<char>>,
    k1: nat,
    k2: nat,
)
    requires
        is_first_free_from(stem, ext, occ, k1),
        is_first_free_from(stem, ext, occ, k2),
    ensures
        k1 == k2,
{
    if k1 < k2 {
        assert(occ.contains(candidate_parts(stem, ext, k1)));
    } else if k2 < k1 {
        assert(occ.contains(candidate_parts(stem, ext, k2)));
    }
}

/// Some counter is always the first free one: the numbered candidates are
/// pairwise distinct, so they cannot all be among the occupied names.
pub proof fn lemma_first_free_exists(stem: Seq<char>, ext: Option<Seq<char>>, occ: Seq<Seq<char>>)
    ensures
        exists|k: nat| is_first_free_from(stem, ext, occ, k),
{
    lemma_first_free_exists_from(stem, ext, occ, 1);
}

proof fn lemma_first_free_exists_from(
    stem: Seq<char>,
    ext: Option<Seq<char>>,
    occ: Seq<Seq<char>>,
    c: nat,
)
    requires
        1 <= c <= occ.len() + 1,
        forall|j: nat| 1 <= j < c ==> occ.contains(candidate_parts(stem, ext, j)),
    ensures
        exists|k: nat| is_first_free_from(stem, ext, occ, k),
    decreases occ.len() + 2 - c,
{
    if !occ.contains(candidate_parts(stem, ext, c)) {
        assert(is_first_free_from(stem, ext, occ, c));
    } else {
        assert(forall|j: nat| 1 <= j <= c ==> occ.contains(candidate_parts(stem, ext, j)));
        lemma_candidates_pigeonhole(stem, ext, occ, c);
        lemma_first_free_exists_from(stem, ext, occ, c + 1);
    }
}

/// The set of the numbered candidates for counters `1..=k`.
spec fn candidate_set(stem: Seq<char>, ext: Option<Seq<char>>, k: nat) -> Set<Seq<char>>
    decreases k,
{
    if k == 0 {
        Set::empty()
    } else {
        candidate_set(stem, ext, (k - 1) as nat).insert(candidate_parts(stem, ext, k))
    }
}

proof fn lemma_candidate_set_card(stem: Seq<char>, ext: Option<Seq<char>>, k: nat)
    ensures
        candidate_set(stem, ext, k).finite(),
        candidate_set(stem, ext, k).len() == k,
        forall|s: Seq<char>|
            candidate_set(stem, ext, k).contains(s) <==> exists|j: nat|
                1 <= j <= k && s == candidate_parts(stem, ext, j),
    decreases k,
{
    if k > 0 {
        let prev = candidate_set(stem, ext, (k - 1) as nat);
        lemma_candidate_set_card(stem, ext, (k - 1) as nat);
        if prev.contains(candidate_parts(stem, ext, k)) {
            let j = choose|j: nat|
                1 <= j <= k - 1 && candidate_parts(stem, ext, k) == candidate_parts(stem, ext, j);
            lemma_candidate_injective(stem, ext, k, j);
            assert(false);
        }
        assert forall|s: Seq<char>|
            candidate_set(stem, ext, k).contains(s) implies exists|j: nat|
            1 <= j <= k && s == candidate_parts(stem, ext, j) by {
            if prev.contains(s) {
                let j = choose|j: nat| 1 <= j <= k - 1 && s == candidate_parts(stem, ext, j);
                assert(1 <= j <= k && s == candidate_parts(stem, ext, j));
            } else {
                assert(s == candidate_parts(stem, ext, k));
            }
        }
    }
}

/// If every numbered candidate for counters `1..=k` is among the occupied
/// names, there are at least `k` occupied names: the search for a free
/// candidate cannot run past the number of occupied names.
proof fn lemma_candidates_pigeonhole(
    stem: Seq<char>,
    ext: Option<Seq<char>>,
    occ: Seq<Seq<char>>,
    k: nat,
)
    requires
        forall|j: nat| 1 <= j <= k ==> occ.contains(candidate_parts(stem, ext, j)),
    ensures
        k <= occ.len(),
{
    broadcast use vstd::seq_lib::seq_to_set_is_finite;

    lemma_candidate_set_card(stem, ext, k);
    assert(candidate_set(stem, ext, k).subset_of(occ.to_set())) by {
        assert forall|s: Seq<char>|
            candidate_set(stem, ext, k).contains(s) implies occ.to_set().contains(s) by {
            let j = choose|j: nat| 1 <= j <= k && s == candidate_parts(stem, ext, j);
            assert(occ.contains(s));
        }
    }
    occ.lemma_cardinality_of_set();
    vstd::set_lib::lemma_len_subset(candidate_set(stem, ext, k), occ.to_set());
}

/// Whether `name` is among the names in `occ`.
pub fn contains_name(occ: &Vec<String>, name: &String) -> (r: bool)
    ensures
        r == occ.deep_view().contains(name@),
{
    let mut i: usize = 0;
    while i < occ.len()
        invariant
            i <= occ.len(),
            forall|j: int| 0 <= j < i ==> occ.deep_view()[j] != name@,
        decreases occ.len() - i,
    {
        if occ[i].eq(name) {
            proof {
                assert(occ.deep_view()[i as int] == name@);
            }
            return true;
        }
        i = i + 1;
    }
    proof {
        assert forall|j: int| 0 <= j < occ.deep_view().len() implies occ.deep_view()[j] != name@ by {}
    }
    false
}

/// Scans counters upward from `counter` for the first whose candidate name is
/// not occupied; the counters below `counter` have already been seen occupied.
fn find_free_counter(stem: &str, ext: &Option<String>, occ: &Vec<String>, counter: u128) -> (r:
    u128)
    requires
        1 <= counter,
        counter <= occ.deep_view().len() + 1,
        forall|j: nat|
            1 <= j < counter ==> occ.deep_view().contains(
                candidate_parts(stem@, ext.deep_view(), j),
            ),
    ensures
        is_first_free_from(stem@, ext.deep_view(), occ.deep_view(), r as nat),
    decreases occ.deep_view().len() + 1 - counter,
{
    let cand = candidate_name(stem, ext, counter);
    if !contains_name(occ, &cand) {
        counter
    } else {
        let l = occ.len();
        proof {
            assert(forall|j: nat|
                1 <= j <= counter ==> occ.deep_view().contains(
                    candidate_parts(stem@, ext.deep_view(), j),
                ));
            lemma_candidates_pigeonhole(
                stem@,
                ext.deep_view(),
                occ.deep_view(),
                counter as nat,
            );
            assert(occ.deep_view().len() == l as nat);
            assert(counter <= l as u128);
        }
        find_free_counter(stem, ext, occ, counter + 1)
    }
}

/// How the names already present in the root resolve a destination name:
/// free names are kept, a collision is skipped when renaming is off, and is
/// sent to the first free numbered candidate when renaming is on.
pub open spec fn spec_resolve(name: Seq<char>, occ: Seq<Seq<char>>, rename: bool) -> ResolvedV {
    if !occ.contains(name) {
        ResolvedV::Keep
    } else if !rename {
        ResolvedV::Skipped
    } else {
        ResolvedV::Renamed(candidate(name, first_free(name, occ)))
    }
}

/// Resolves one destination name against the occupied names, with the
/// existence check injected as the list `occupied`: the pure core of the
/// collision policy.
pub fn resolve_destination(name: &String, occupied: &Vec<String>, rename: bool) -> (r: Resolved)
    ensures
        r.deep_view() == spec_resolve(name@, occupied.deep_view(), rename),
{
    if !contains_name(occupied, name) {
        Resolved::Keep
    } else if !rename {
        Resolved::Skipped
    } else {
        let (stem, ext) = split_name(name.as_str());
        let k = find_free_counter(stem.as_str(), &ext, occupied, 1);
        let dest = candidate_name(stem.as_str(), &ext, k);
        proof {
            assert(is_first_free(name@, occupied.deep_view(), k as nat));
            let kk = first_free(name@, occupied.deep_view());
            assert(is_first_free(name@, occupied.deep_view(), kk));
            lemma_first_free_unique(
                stem_of(name@),
                ext_of(name@),
                occupied.deep_view(),
                k as nat,
                kk,
            );
        }
        Resolved::Renamed(dest)
    }
}

/// The names directly under the root at the start of the run: the first
/// components of the depth-one entries of the listing, in listing order.
pub open spec fn root_names(entries: Seq<EntryV>) -> Seq<Seq<char>>
    decreases entries.len(),
{
    if entries.len() == 0 {
        Seq::empty()
    } else {
        let rest = root_names(entries.drop_last());
        if entries.last().path.len() == 1 {
            rest.push(entries.last().path[0])
        } else {
            rest
        }
    }
}

/// The name of an entry lying directly under the root is among the initially
/// occupied names.
pub proof fn lemma_root_names_has(entries: Seq<EntryV>, i: int)
    requires
        0 <= i < entries.len(),
        entries[i].path.len() == 1,
    ensures
        root_names(entries).contains(entries[i].path[0]),
    decreases entries.len(),
{
    let prefix = entries.drop_last();
    let rest = root_names(prefix);
    if i == entries.len() - 1 {
        assert(root_names(entries)[rest.len() as int] == entries[i].path[0]);
    } else {
        assert(prefix[i] == entries[i]);
        lemma_root_names_has(prefix, i);
        let idx = choose|idx: int| 0 <= idx < rest.len() && rest[idx] == entries[i].path[0];
        if entries.last().path.len() == 1 {
            assert(root_names(entries)[idx] == entries[i].path[0]);
        }
        assert(root_names(entries).contains(entries[i].path[0]));
    }
}

/// The planner's running state: the names occupied directly under the root,
/// the relocation and skip actions so far, and the directories met so far,
/// still in traversal order.
pub struct PlanAcc {
    pub occ: Seq<Seq<char>>,
    pub acts: Seq<ActionV>,
    pub dirs: Seq<Seq<Seq<char>>>,
}

/// The action that places a file at a destination: a move in delete mode, a
/// copy otherwise.
pub open spec fn place_action(src: Seq<Seq<char>>, dest: Seq<char>, delete: bool) -> ActionV {
    if delete {
        ActionV::MoveFile { src, dest }
    } else {
        ActionV::CopyFile { src, dest }
    }
}

/// A file lying directly under the root: it is already in place, and the
/// traversal filter leaves it out of relocation processing.
pub open spec fn is_root_file(e: EntryV) -> bool {
    e.is_file && e.path.len() <= 1
}

/// One entry's effect on the planner's state. A directory is recorded for
/// removal in delete mode; a file directly under the root is left untouched;
/// a deeper file is placed, skipped or renamed as the occupied names decide.
pub open spec fn step(acc: PlanAcc, e: EntryV, opts: Options) -> PlanAcc {
    if !e.is_file {
        if opts.delete {
            PlanAcc { occ: acc.occ, acts: acc.acts, dirs: acc.dirs.push(e.path) }
        } else {
            acc
        }
    } else if is_root_file(e) {
        acc
    } else {
        let name = e.path.last();
        match spec_resolve(name, acc.occ, opts.rename) {
            ResolvedV::Keep => PlanAcc {
                occ: acc.occ.push(name),
                acts: acc.acts.push(place_action(e.path, name, opts.delete)),
                dirs: acc.dirs,
            },
            ResolvedV::Skipped => PlanAcc {
                occ: acc.occ,
                acts: acc.acts.push(ActionV::SkipFile { src: e.path, dest: name }),
                dirs: acc.dirs,
            },
            ResolvedV::Renamed(dest) => PlanAcc {
                occ: acc.occ.push(dest),
                acts: acc.acts.push(place_action(e.path, dest, opts.delete)),
                dirs: acc.dirs,
            },
        }
    }
}

/// Folds the planner over a prefix of the listing, starting from the names
/// initially occupied under the root.
pub open spec fn fold_plan(entries: Seq<EntryV>, opts: Options, init: Seq<Seq<char>>) -> PlanAcc
    decreases entries.len(),
{
    if entries.len() == 0 {
        PlanAcc { occ: init, acts: Seq::empty(), dirs: Seq::empty() }
    } else {
        step(fold_plan(entries.drop_last(), opts, init), entries.last(), opts)
    }
}

/// The removal actions for the recorded directories, bottom-up: the reverse
/// of the order in which the traversal met them, so that a directory comes
/// only after everything below it.
pub open spec fn removal_actions(dirs: Seq<Seq<Seq<char>>>) -> Seq<ActionV> {
    dirs.reverse().map_values(|p: Seq<Seq<char>>| ActionV::RemoveDir { path: p })
}

/// The whole plan for a listing: the per-file decisions in listing order,
/// then the directory removals bottom-up.
pub open spec fn spec_plan(entries: Seq<EntryV>, opts: Options) -> Seq<ActionV> {
    let acc = fold_plan(entries, opts, root_names(entries));
    acc.acts + removal_actions(acc.dirs)
}

/// The names occupied directly under the root just before the entry at
/// position `i` of the listing is processed: the initially occupied names
/// together with every destination placed by the first `i` entries.
pub open spec fn occ_at(entries: Seq<EntryV>, opts: Options, i: int) -> Seq<Seq<char>> {
    fold_plan(entries.take(i), opts, root_names(entries)).occ
}

/// An element-by-element copy of a path.
fn clone_path(p: &Vec<String>) -> (r: Vec<String>)
    ensures
        r.deep_view() == p.deep_view(),
{
    let mut r: Vec<String> = Vec::new();
    let mut i: usize = 0;
    while i < p.len()
        invariant
            i <= p.len(),
            r@.len() == i,
            forall|k: int| 0 <= k < i ==> r@[k]@ == p@[k]@,
        decreases p.len() - i,
    {
        r.push(p[i].clone());
        i = i + 1;
    }
    proof {
        assert forall|k: int|
            0 <= k < r.deep_view().len() implies r.deep_view()[k] == p.deep_view()[k] by {
            assert(r.deep_view()[k] == r@[k]@);
            assert(p.deep_view()[k] == p@[k]@);
        }
        assert(r.deep_view() =~= p.deep_view());
    }
    r
}

/// Computes the whole flattening plan for a listing of the tree below the
/// root, exactly as the `spec_plan` function describes it: per-file
/// relocations, skips and renames in listing order, then, in delete mode, the
/// removal of every visited directory in bottom-up order.
pub fn plan_flatten(entries: &Vec<Entry>, opts: &Options) -> (plan: Vec<Action>)
    ensures
        plan.deep_view() == spec_plan(entries.deep_view(), *opts),
{
    let ghost ev = entries.deep_view();
    let mut occupied: Vec<String> = Vec::new();
    let mut i: usize = 0;
    while i < entries.len()
        invariant
            i <= entries.len(),
            ev == entries.deep_view(),
            occupied.deep_view() == root_names(ev.take(i as int)),
        decreases entries.len() - i,
    {
        proof {
            assert(ev.take(i as int + 1).drop_last() =~= ev.take(i as int));
            assert(ev.take(i as int + 1).last() == ev[i as int]);
        }
        let ghost old_occ = occupied.deep_view();
        if entries[i].path.len() == 1 {
            let name = entries[i].path[0].clone();
            occupied.push(name);
            proof {
                assert(occupied.deep_view() =~= old_occ.push(ev[i as int].path[0]));
            }
        }
        i = i + 1;
    }
    proof {
        assert(ev.take(entries.len() as int) =~= ev);
    }
    let ghost init = root_names(ev);
    let mut actions: Vec<Action> = Vec::new();
    let mut dirs: Vec<Vec<String>> = Vec::new();
    let mut i: usize = 0;
    while i < entries.len()
        invariant
            i <= entries.len(),
            ev == entries.deep_view(),
            init == root_names(ev),
            occupied.deep_view() == fold_plan(ev.take(i as int), *opts, init).occ,
            actions.deep_view() == fold_plan(ev.take(i as int), *opts, init).acts,
            dirs.deep_view() == fold_plan(ev.take(i as int), *opts, init).dirs,
        decreases entries.len() - i,
    {
        proof {
            assert(ev.take(i as int + 1).drop_last() =~= ev.take(i as int));
            assert(ev.take(i as int + 1).last() == ev[i as int]);
        }
        let ghost old_acc = fold_plan(ev.take(i as int), *opts, init);
        let ghost old_occ = occupied.deep_view();
        let ghost old_acts = actions.deep_view();
        let ghost old_dirs = dirs.deep_view();
        let e = &entries[i];
        if !e.is_file {
            if opts.delete {
                dirs.push(clone_path(&e.path));
                proof {
                    assert(dirs.deep_view() =~= old_dirs.push(ev[i as int].path));
                }
            }
        } else if e.path.len() <= 1 {
        } else {
            let name = e.path[e.path.len() - 1].clone();
            proof {
                assert(name@ == ev[i as int].path.last());
            }
            let r = resolve_destination(&name, &occupied, opts.rename);
            match r {
                Resolved::Keep => {
                    let src = clone_path(&e.path);
                    let act = if opts.delete {
                        Action::MoveFile { src, dest: name.clone() }
                    } else {
                        Action::CopyFile { src, dest: name.clone() }
                    };
                    actions.push(act);
                    occupied.push(name);
                    proof {
                        assert(actions.deep_view() =~= old_acts.push(
                            place_action(ev[i as int].path, ev[i as int].path.last(), opts.delete),
                        ));
                        assert(occupied.deep_view() =~= old_occ.push(ev[i as int].path.last()));
                    }
                },
                Resolved::Skipped => {
                    let src = clone_path(&e.path);
                    actions.push(Action::SkipFile { src, dest: name });
                    proof {
                        assert(actions.deep_view() =~= old_acts.push(
                            ActionV::SkipFile {
                                src: ev[i as int].path,
                                dest: ev[i as int].path.last(),
                            },
                        ));
                    }
                },
                Resolved::Renamed(dest) => {
                    let src = clone_path(&e.path);
                    let act = if opts.delete {
                        Action::MoveFile { src, dest: dest.clone() }
                    } else {
                        Action::CopyFile { src, dest: dest.clone() }
                    };
                    actions.push(act);
                    occupied.push(dest);
                    proof {
                        let sdest = spec_resolve(
                            ev[i as int].path.last(),
                            old_acc.occ,
                            opts.rename,
                        )->Renamed_0;
                        assert(actions.deep_view() =~= old_acts.push(
                            place_action(ev[i as int].path, sdest, opts.delete),
                        ));
                        assert(occupied.deep_view() =~= old_occ.push(sdest));
                    }
                },
            }
        }
        i = i + 1;
    }
    proof {
        assert(ev.take(entries.len() as int) =~= ev);
    }
    let ghost acc = fold_plan(ev, *opts, init);
    let mut j: usize = dirs.len();
    proof {
        assert(acc.dirs.skip(j as int).reverse().map_values(
            |p: Seq<Seq<char>>| ActionV::RemoveDir { path: p },
        ) =~= Seq::<ActionV>::empty());
        assert(acc.acts + Seq::<ActionV>::empty() =~= acc.acts);
    }
    while j > 0
        invariant
            j <= dirs.len(),
            dirs.deep_view() == acc.dirs,
            actions.deep_view() == acc.acts + acc.dirs.skip(j as int).reverse().map_values(
                |p: Seq<Seq<char>>| ActionV::RemoveDir { path: p },
            ),
        decreases j,
    {
        j = j - 1;
        let ghost old_acts = actions.deep_view();
        let path = clone_path(&dirs[j]);
        actions.push(Action::RemoveDir { path });
        proof {
            assert(actions.deep_view() =~= old_acts.push(
                ActionV::RemoveDir { path: acc.dirs[j as int] },
            ));
            assert(acc.dirs.skip(j as int).reverse() =~= acc.dirs.skip(j as int + 1).reverse().push(
                acc.dirs[j as int],
            ));
            assert(acc.dirs.skip(j as int).reverse().map_values(
                |p: Seq<Seq<char>>| ActionV::RemoveDir { path: p },
            ) =~= acc.dirs.skip(j as int + 1).reverse().map_values(
                |p: Seq<Seq<char>>| ActionV::RemoveDir { path: p },
            ).push(ActionV::RemoveDir { path: acc.dirs[j as int] }));
            assert(acc.acts + acc.dirs.skip(j as int + 1).reverse().map_values(
                |p: Seq<Seq<char>>| ActionV::RemoveDir { path: p },
            ).push(ActionV::RemoveDir { path: acc.dirs[j as int] }) =~= (acc.acts
                + acc.dirs.skip(j as int + 1).reverse().map_values(
                |p: Seq<Seq<char>>| ActionV::RemoveDir { path: p },
            )).push(ActionV::RemoveDir { path: acc.dirs[j as int] }));
        }
    }
    proof {
        assert(acc.dirs.skip(0) =~= acc.dirs);
        assert(actions.deep_view() == spec_plan(ev, *opts));
    }
    actions
}

} // verus!
