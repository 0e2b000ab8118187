//! Carrying out a rename plan, all at once or not at all.
//!
//! In two phases: every changed file is first renamed to a unique temporary name beside its
//! target, then every temporary name is renamed to its real target. One phase would break on
//! two shapes that a plan can legitimately have: a permutation (`t01` and `t02` swapped,
//! where a direct rename would clobber one file mid-swap) and a case-only rename, which a
//! case-insensitive file system refuses as a no-op on the file already sitting there.

use super::plan::{RenameEntry, RenamePlan, RenameStatus};
use crate::error::Error;
use crate::path;
use crate::path::{name_or_empty, same_path, with_file_name};
use crate::text;
use crate::text::push_decimal;
use vstd::prelude::*;
use vstd::string::*;

verus! {

/// One rename on disk.
#[derive(Debug, Clone, PartialEq, Eq)]
pub struct RenameStep {
    pub from: String,
    pub to: String,
}

/// The entries that a plan changes, in order.
pub open spec fn changed(entries: Seq<RenameEntry>) -> Seq<RenameEntry>
    decreases entries.len(),
{
    if entries.len() == 0 {
        Seq::empty()
    } else if entries.last().status == RenameStatus::Changed {
        changed(entries.drop_last()).push(entries.last())
    } else {
        changed(entries.drop_last())
    }
}

/// A target that is taken by a file which this plan does not itself move away.
pub open spec fn blocked(plan: RenamePlan, taken: Seq<bool>, i: int) -> bool {
    let e = plan.entries@[i];
    &&& e.status == RenameStatus::Changed
    &&& taken[i]
    &&& forall|j: int|
        0 <= j < plan.entries@.len() && (#[trigger] plan.entries@[j]).status
            == RenameStatus::Changed ==> !path::same(e.to@, plan.entries@[j].from@)
}

/// Whether a plan may be carried out: `taken` says of each entry whether its target exists.
/// Refuses a plan with collisions, and one that would overwrite a file outside it; nothing
/// is renamed then, not even the entries that were fine.
pub fn check_rename(plan: &RenamePlan, taken: &[bool]) -> (r: Result<(), Error>)
    requires
        taken.len() == plan.entries.len(),
    ensures
        match r {
            Ok(_) => !plan.collides() && forall|i: int|
                0 <= i < plan.entries.len() ==> !#[trigger] blocked(*plan, taken@, i),
            Err(e) => {
                ||| plan.collides() && e.is_malformed(
                    "<set>"@,
                    "rename plan has collisions; refusing to rename any file"@,
                )
                ||| !plan.collides() && exists|i: int|
                    {
                        &&& 0 <= i < plan.entries.len()
                        &&& forall|k: int| 0 <= k < i ==> !#[trigger] blocked(*plan, taken@, k)
                        &&& #[trigger] blocked(*plan, taken@, i)
                        &&& e.is_output_exists(plan.entries@[i].to@)
                    }
            },
        },
{
    if plan.has_collisions() {
        return Err(
            Error::malformed("<set>", "rename plan has collisions; refusing to rename any file"),
        );
    }
    let mut i: usize = 0;
    while i < plan.entries.len()
        invariant
            i <= plan.entries.len(),
            taken.len() == plan.entries.len(),
            !plan.collides(),
            forall|k: int| 0 <= k < i ==> !#[trigger] blocked(*plan, taken@, k),
        decreases plan.entries.len() - i,
    {
        if plan.entries[i].status == RenameStatus::Changed && taken[i] {
            let mut own = false;
            let mut j: usize = 0;
            while j < plan.entries.len()
                invariant
                    i < plan.entries.len(),
                    j <= plan.entries.len(),
                    own == (exists|k: int|
                        0 <= k < j && (#[trigger] plan.entries@[k]).status
                            == RenameStatus::Changed && path::same(
                            plan.entries@[i as int].to@,
                            plan.entries@[k].from@,
                        )),
                decreases plan.entries.len() - j,
            {
                if plan.entries[j].status == RenameStatus::Changed && same_path(
                    &plan.entries[i].to,
                    &plan.entries[j].from,
                ) {
                    own = true;
                }
                j += 1;
            }
            if !own {
                assert(blocked(*plan, taken@, i as int));
                return Err(Error::OutputExists { path: plan.entries[i].to.clone() });
            }
        }
        i += 1;
    }
    Ok(())
}

/// The temporary name of the changed file `i`: hidden, and no other's.
pub open spec fn temp_name(to: Seq<char>, pid: nat, i: nat) -> Seq<char> {
    "."@ + path::name_of(to) + ".lh-rename-"@ + text::decimal(pid) + "-"@ + text::decimal(i)
        + ".tmp"@
}

#[verifier::opaque]
pub open spec fn temp_of(to: Seq<char>, pid: nat, i: nat) -> Seq<char> {
    path::with_name(to, temp_name(to, pid, i))
}

/// The steps are those of the plan: each changed file to its temporary name, then each
/// temporary name to its target.
pub open spec fn are_steps(steps: Seq<RenameStep>, moves: Seq<RenameEntry>, pid: nat) -> bool {
    let n = moves.len() as int;
    &&& steps.len() == 2 * n
    &&& forall|i: int|
        0 <= i < n ==> {
            let s = #[trigger] steps[i];
            s.from@ == moves[i].from@ && s.to@ == temp_of(moves[i].to@, pid, i as nat)
        }
    &&& forall|i: int|
        n <= i < 2 * n ==> {
            let s = #[trigger] steps[i];
            s.from@ == temp_of(moves[i - n].to@, pid, (i - n) as nat) && s.to@
                == moves[i - n].to@
        }
}

/// The renames that carry out a plan, in order. `pid` is this process's id, which keeps the
/// temporary names of two runs apart.
pub fn rename_steps(plan: &RenamePlan, pid: u32) -> (steps: Vec<RenameStep>)
    ensures
        are_steps(steps@, changed(plan.entries@), pid as nat),
{
    let ghost moves = changed(plan.entries@);
    reveal(temp_of);
    let mut first: Vec<RenameStep> = Vec::new();
    let mut second: Vec<RenameStep> = Vec::new();
    let mut i: usize = 0;
    while i < plan.entries.len()
        invariant
            i <= plan.entries.len(),
            first.len() == changed(plan.entries@.take(i as int)).len(),
            second.len() == first.len(),
            forall|k: int|
                0 <= k < first.len() ==> {
                    let s = #[trigger] first@[k];
                    let m = changed(plan.entries@.take(i as int))[k];
                    s.from@ == m.from@ && s.to@ == temp_of(m.to@, pid as nat, k as nat)
                },
            forall|k: int|
                0 <= k < second.len() ==> {
                    let s = #[trigger] second@[k];
                    let m = changed(plan.entries@.take(i as int))[k];
                    s.from@ == temp_of(m.to@, pid as nat, k as nat) && s.to@ == m.to@
                },
        decreases plan.entries.len() - i,
    {
        assert(plan.entries@.take(i as int + 1).drop_last() =~= plan.entries@.take(i as int));
        let e = &plan.entries[i];
        if e.status == RenameStatus::Changed {
            let mut name = ".".to_owned();
            let old = name_or_empty(&e.to);
            name.append(&old);
            name.append(".lh-rename-");
            push_decimal(&mut name, pid as u64);
            name.append("-");
            push_decimal(&mut name, first.len() as u64);
            name.append(".tmp");
            let temp = with_file_name(&e.to, &name);
            reveal(temp_of);
            first.push(RenameStep { from: e.from.clone(), to: temp.clone() });
            second.push(RenameStep { from: temp, to: e.to.clone() });
        }
        i += 1;
    }
    assert(plan.entries@.take(plan.entries@.len() as int) =~= plan.entries@);
    let ghost n = first@.len() as int;
    let ghost a = first@;
    let ghost b = second@;
    first.append(&mut second);
    proof {
        assert forall|k: int| 0 <= k < n implies #[trigger] first@[k] == a[k] by {}
        assert forall|k: int| n <= k < 2 * n implies #[trigger] first@[k] == b[k - n] by {}
    }
    first
}

/// The step that takes another back.
pub open spec fn is_reverse(undo: RenameStep, step: RenameStep) -> bool {
    undo.from@ == step.to@ && undo.to@ == step.from@
}

/// The renames that put everything back after the first `done` steps were made: what the
/// second phase put into place goes back to its temporary names, the last first, and then
/// the first phase is taken back.
pub open spec fn are_undo_steps(undo: Seq<RenameStep>, steps: Seq<RenameStep>, done: int) -> bool {
    let n = steps.len() as int / 2;
    &&& undo.len() == done
    &&& done <= n ==> forall|i: int|
        0 <= i < done ==> is_reverse(#[trigger] undo[i], steps[done - 1 - i])
    &&& done > n ==> (forall|i: int|
        0 <= i < done - n ==> is_reverse(#[trigger] undo[i], steps[done - 1 - i])) && (forall|i: int|

        done - n <= i < done ==> is_reverse(#[trigger] undo[i], steps[i - (done - n)]))
}

fn reverse_of(step: &RenameStep) -> (undo: RenameStep)
    ensures
        is_reverse(undo, *step),
{
    RenameStep { from: step.to.clone(), to: step.from.clone() }
}

pub fn undo_steps(steps: &[RenameStep], done: usize) -> (undo: Vec<RenameStep>)
    requires
        done <= steps.len(),
        steps.len() % 2 == 0,
    ensures
        are_undo_steps(undo@, steps@, done as int),
{
    let n: usize = steps.len() / 2;
    let mut undo: Vec<RenameStep> = Vec::new();
    let stop: usize = if done > n {
        n
    } else {
        0
    };
    let mut k: usize = done;
    while k > stop
        invariant
            stop <= k <= done <= steps.len(),
            undo.len() == done - k,
            forall|i: int|
                0 <= i < done - k ==> is_reverse(#[trigger] undo@[i], steps@[done - 1 - i]),
        decreases k,
    {
        undo.push(reverse_of(&steps[k - 1]));
        k -= 1;
    }
    let mut k: usize = 0;
    while k < stop
        invariant
            k <= stop <= done <= steps.len(),
            undo.len() == done - stop + k,
            forall|i: int|
                0 <= i < done - stop ==> is_reverse(#[trigger] undo@[i], steps@[done - 1 - i]),
            forall|i: int|
                done - stop <= i < done - stop + k ==> is_reverse(
                    #[trigger] undo@[i],
                    steps@[i - (done - stop)],
                ),
        decreases stop - k,
    {
        undo.push(reverse_of(&steps[k]));
        k += 1;
    }
    undo
}

/// The error for a step that the file system refused: it names the file that could not be
/// moved away, or the target that could not be reached.
pub fn step_error(steps: &[RenameStep], failed: usize, source: &str) -> (e: Error)
    requires
        failed < steps.len(),
    ensures
        e matches Error::Io { path, source: s } && s@ == source@ && path@ == if failed
            < steps@.len() / 2 {
            steps@[failed as int].from@
        } else {
            steps@[failed as int].to@
        },
{
    if failed < steps.len() / 2 {
        Error::io(&steps[failed].from, source)
    } else {
        Error::io(&steps[failed].to, source)
    }
}

/// Where every file of the set is once the plan has been carried out.
pub fn renamed(plan: &RenamePlan) -> (paths: Vec<String>)
    ensures
        paths.len() == plan.entries.len(),
        forall|i: int| 0 <= i < paths.len() ==> (#[trigger] paths@[i])@ == plan.entries@[i].to@,
{
    let mut paths: Vec<String> = Vec::new();
    let mut i: usize = 0;
    while i < plan.entries.len()
        invariant
            i <= plan.entries.len(),
            paths.len() == i,
            forall|k: int| 0 <= k < i ==> (#[trigger] paths@[k])@ == plan.entries@[k].to@,
        decreases plan.entries.len() - i,
    {
        paths.push(plan.entries[i].to.clone());
        i += 1;
    }
    paths
}

/// What a rename does to a folder: what stood at one name stands at another.
pub open spec fn move_one<V>(fs: Map<Seq<char>, V>, from: Seq<char>, to: Seq<char>) -> Map<
    Seq<char>,
    V,
> {
    fs.remove(from).insert(to, fs[from])
}

/// What renames do to a folder, one after the other.
pub open spec fn move_all<V>(fs: Map<Seq<char>, V>, steps: Seq<RenameStep>) -> Map<Seq<char>, V>
    decreases steps.len(),
{
    if steps.len() == 0 {
        fs
    } else {
        move_one(move_all(fs, steps.drop_last()), steps.last().from@, steps.last().to@)
    }
}

/// What stands at the names `a` from `lo` up to `hi` stands at those of `b` instead.
#[verifier::opaque]
spec fn displaced<V>(
    fs: Map<Seq<char>, V>,
    a: Seq<Seq<char>>,
    b: Seq<Seq<char>>,
    lo: int,
    hi: int,
) -> Map<Seq<char>, V> {
    Map::new(
        |p: Seq<char>|
            (exists|i: int| lo <= i < hi && #[trigger] b[i] == p) || (fs.dom().contains(p)
                && !(exists|i: int| lo <= i < hi && #[trigger] a[i] == p)),
        |p: Seq<char>|
            if exists|i: int| lo <= i < hi && #[trigger] b[i] == p {
                fs[a[choose|i: int| lo <= i < hi && #[trigger] b[i] == p]]
            } else {
                fs[p]
            },
    )
}

/// The names `a` are all there and differ; the names `b` are free and differ.
spec fn movable<V>(fs: Map<Seq<char>, V>, a: Seq<Seq<char>>, b: Seq<Seq<char>>) -> bool {
    &&& a.len() == b.len()
    &&& a.no_duplicates()
    &&& b.no_duplicates()
    &&& forall|i: int| 0 <= i < a.len() ==> fs.dom().contains(#[trigger] a[i])
    &&& forall|i: int| 0 <= i < b.len() ==> !fs.dom().contains(#[trigger] b[i])
}

proof fn lemma_displace_next<V>(
    fs: Map<Seq<char>, V>,
    a: Seq<Seq<char>>,
    b: Seq<Seq<char>>,
    k: int,
)
    requires
        movable(fs, a, b),
        0 <= k < a.len(),
    ensures
        move_one(displaced(fs, a, b, 0, k), a[k], b[k]) == displaced(fs, a, b, 0, k + 1),
        move_one(displaced(fs, a, b, 0, k + 1), b[k], a[k]) == displaced(fs, a, b, 0, k),
        move_one(displaced(fs, a, b, k, a.len() as int), b[k], a[k]) == displaced(
            fs,
            a,
            b,
            k + 1,
            a.len() as int,
        ),
{
    let n = a.len() as int;
    reveal(displaced);
    lemma_displaced_value(fs, a, b, 0, k);
    lemma_displaced_value(fs, a, b, 0, k + 1);
    lemma_displaced_value(fs, a, b, k, n);
    lemma_displaced_value(fs, a, b, k + 1, n);
    let x = displaced(fs, a, b, 0, k);
    let y = displaced(fs, a, b, 0, k + 1);
    let z = displaced(fs, a, b, k, n);
    let w = displaced(fs, a, b, k + 1, n);
    assert(fs.dom().contains(a[k]));
    assert(!fs.dom().contains(b[k]));
    assert(x.dom().contains(a[k]) && x[a[k]] == fs[a[k]]);
    assert(y.dom().contains(b[k]) && y[b[k]] == fs[a[k]]);
    assert(z.dom().contains(b[k]) && z[b[k]] == fs[a[k]]);
    assert(w.dom().contains(a[k]) && w[a[k]] == fs[a[k]]);
    assert(!x.dom().contains(b[k]));
    assert(!y.dom().contains(a[k]));
    assert(!w.dom().contains(b[k]));
    assert(!z.dom().contains(a[k]));
    assert(move_one(x, a[k], b[k]) =~= y);
    assert(move_one(y, b[k], a[k]) =~= x);
    assert(move_one(z, b[k], a[k]) =~= w);
}

proof fn lemma_displaced_value<V>(
    fs: Map<Seq<char>, V>,
    a: Seq<Seq<char>>,
    b: Seq<Seq<char>>,
    lo: int,
    hi: int,
)
    requires
        movable(fs, a, b),
        0 <= lo <= hi <= a.len(),
    ensures
        forall|i: int|
            lo <= i < hi ==> displaced(fs, a, b, lo, hi).dom().contains(#[trigger] b[i])
                && displaced(fs, a, b, lo, hi)[b[i]] == fs[a[i]],
        forall|i: int| lo <= i < hi ==> !displaced(fs, a, b, lo, hi).dom().contains(#[trigger] a[i]),
        lo == hi ==> displaced(fs, a, b, lo, hi) == fs,
{
    let d = displaced(fs, a, b, lo, hi);
    reveal(displaced);
    assert forall|i: int| lo <= i < hi implies d.dom().contains(#[trigger] b[i]) && d[b[i]]
        == fs[a[i]] by {
        let c = choose|j: int| lo <= j < hi && #[trigger] b[j] == b[i];
        assert(b[c] == b[i]);
        assert(c == i);
    }
    assert forall|i: int| lo <= i < hi implies !d.dom().contains(#[trigger] a[i]) by {
        assert(fs.dom().contains(a[i]));
        if exists|j: int| lo <= j < hi && #[trigger] b[j] == a[i] {
            let j = choose|j: int| lo <= j < hi && #[trigger] b[j] == a[i];
            assert(!fs.dom().contains(b[j]));
        }
    }
    if lo == hi {
        assert(d =~= fs);
    }
}

/// The names that the steps from `lo` up to `hi` start from, or lead to.
spec fn ends(steps: Seq<RenameStep>, lo: int, hi: int, from: bool) -> Seq<Seq<char>> {
    Seq::new(
        (hi - lo) as nat,
        |i: int|
            if from {
                steps[lo + i].from@
            } else {
                steps[lo + i].to@
            },
    )
}

/// A batch of renames to free names displaces what they start from.
proof fn lemma_move_batch<V>(
    fs: Map<Seq<char>, V>,
    steps: Seq<RenameStep>,
    lo: int,
    hi: int,
    done: int,
)
    requires
        0 <= lo <= hi <= steps.len(),
        0 <= done <= hi - lo,
        movable(
            move_all(fs, steps.take(lo)),
            ends(steps, lo, hi, true),
            ends(steps, lo, hi, false),
        ),
    ensures
        move_all(fs, steps.take(lo + done)) == displaced(
            move_all(fs, steps.take(lo)),
            ends(steps, lo, hi, true),
            ends(steps, lo, hi, false),
            0,
            done,
        ),
    decreases done,
{
    let base = move_all(fs, steps.take(lo));
    let a = ends(steps, lo, hi, true);
    let b = ends(steps, lo, hi, false);
    if done == 0 {
        lemma_displaced_value(base, a, b, 0, 0);
    } else {
        lemma_move_batch(fs, steps, lo, hi, done - 1);
        assert(steps.take(lo + done).drop_last() =~= steps.take(lo + done - 1));
        assert(steps.take(lo + done).last() == steps[lo + done - 1]);
        lemma_displace_next(base, a, b, done - 1);
        assert(a[done - 1] == steps[lo + done - 1].from@);
        assert(b[done - 1] == steps[lo + done - 1].to@);
    }
}

/// The names that a plan moves away from.
pub open spec fn froms(moves: Seq<RenameEntry>) -> Seq<Seq<char>> {
    Seq::new(moves.len(), |i: int| moves[i].from@)
}

/// The names that a plan moves to.
pub open spec fn tos(moves: Seq<RenameEntry>) -> Seq<Seq<char>> {
    Seq::new(moves.len(), |i: int| moves[i].to@)
}

/// The temporary names in between.
pub open spec fn temps(moves: Seq<RenameEntry>, pid: nat) -> Seq<Seq<char>> {
    Seq::new(moves.len(), |i: int| temp_of(moves[i].to@, pid, i as nat))
}

/// A plan that can be carried out in this folder: every changed file is there, the temporary
/// names are free, no two names of a kind are the same, and a target that is taken is taken
/// by a file that the plan moves away.
pub open spec fn workable<V>(fs: Map<Seq<char>, V>, moves: Seq<RenameEntry>, pid: nat) -> bool {
    let a = froms(moves);
    let b = temps(moves, pid);
    let d = tos(moves);
    &&& a.no_duplicates()
    &&& b.no_duplicates()
    &&& d.no_duplicates()
    &&& forall|i: int| 0 <= i < a.len() ==> fs.dom().contains(#[trigger] a[i])
    &&& forall|i: int| 0 <= i < b.len() ==> !fs.dom().contains(#[trigger] b[i])
    &&& forall|i: int| 0 <= i < d.len() ==> !b.contains(#[trigger] d[i])
    &&& forall|i: int| 0 <= i < d.len() && fs.dom().contains(#[trigger] d[i]) ==> a.contains(d[i])
}

/// Moving to free names and on from there: the names that are free by then are those that
/// were free, and those that were moved away from.
proof fn lemma_second_phase_movable<V>(
    fs: Map<Seq<char>, V>,
    a: Seq<Seq<char>>,
    b: Seq<Seq<char>>,
    d: Seq<Seq<char>>,
)
    requires
        movable(fs, a, b),
        d.len() == a.len(),
        d.no_duplicates(),
        forall|i: int| 0 <= i < d.len() ==> !b.contains(#[trigger] d[i]),
        forall|i: int|
            0 <= i < d.len() && fs.dom().contains(#[trigger] d[i]) ==> a.contains(d[i]),
    ensures
        movable(displaced(fs, a, b, 0, a.len() as int), b, d),
{
    let n = a.len() as int;
    let mid = displaced(fs, a, b, 0, n);
    lemma_displaced_value(fs, a, b, 0, n);
    assert forall|i: int| 0 <= i < n implies !mid.dom().contains(#[trigger] d[i]) by {
        reveal(displaced);
        assert(!b.contains(d[i]));
        if fs.dom().contains(d[i]) {
            let k = choose|k: int| 0 <= k < a.len() && a[k] == d[i];
            assert(a[k] == d[i]);
        }
    }
}

/// Both phases together: what stood at each `a` stands at the `d` of the same place, the
/// names `b` in between are free again, and everything else is where it was.
proof fn lemma_both_phases<V>(
    fs: Map<Seq<char>, V>,
    a: Seq<Seq<char>>,
    b: Seq<Seq<char>>,
    d: Seq<Seq<char>>,
)
    requires
        movable(fs, a, b),
        movable(displaced(fs, a, b, 0, a.len() as int), b, d),
    ensures
        ({
            let n = a.len() as int;
            let after = displaced(displaced(fs, a, b, 0, n), b, d, 0, n);
            &&& forall|i: int|
                0 <= i < n ==> after.dom().contains(#[trigger] d[i]) && after[d[i]] == fs[a[i]]
            &&& forall|i: int| 0 <= i < n ==> !after.dom().contains(#[trigger] b[i])
            &&& forall|p: Seq<char>|
                !a.contains(p) && !b.contains(p) && !d.contains(p) ==> (
                #[trigger] after.dom().contains(p) <==> fs.dom().contains(p)) && (
                fs.dom().contains(p) ==> after[p] == fs[p])
        }),
{
    let n = a.len() as int;
    let mid = displaced(fs, a, b, 0, n);
    let after = displaced(mid, b, d, 0, n);
    lemma_displaced_value(fs, a, b, 0, n);
    lemma_displaced_value(mid, b, d, 0, n);
    assert forall|i: int| 0 <= i < n implies after.dom().contains(#[trigger] d[i]) && after[d[i]]
        == fs[a[i]] by {
        assert(after[d[i]] == mid[b[i]]);
        assert(mid[b[i]] == fs[a[i]]);
    }
    assert forall|p: Seq<char>|
        !a.contains(p) && !b.contains(p) && !d.contains(p) implies (#[trigger] after.dom().contains(
        p,
    ) <==> fs.dom().contains(p)) && (fs.dom().contains(p) ==> after[p] == fs[p]) by {
        lemma_elsewhere(fs, a, b, p);
        lemma_elsewhere(mid, b, d, p);
    }
}

proof fn lemma_elsewhere<V>(
    fs: Map<Seq<char>, V>,
    a: Seq<Seq<char>>,
    b: Seq<Seq<char>>,
    p: Seq<char>,
)
    requires
        a.len() == b.len(),
        !a.contains(p),
        !b.contains(p),
    ensures
        ({
            let after = displaced(fs, a, b, 0, a.len() as int);
            (after.dom().contains(p) <==> fs.dom().contains(p)) && (fs.dom().contains(p)
                ==> after[p] == fs[p])
        }),
{
    reveal(displaced);
    assert forall|i: int| 0 <= i < a.len() implies #[trigger] a[i] != p && b[i] != p by {
        assert(a.contains(a[i]));
        assert(b.contains(b[i]));
    }
    assert(!(exists|i: int| 0 <= i < a.len() && #[trigger] b[i] == p)) by {
        if exists|i: int| 0 <= i < a.len() && #[trigger] b[i] == p {
            let i = choose|i: int| 0 <= i < a.len() && #[trigger] b[i] == p;
            assert(b.contains(b[i]));
        }
    }
}

/// What the steps of a plan start from and lead to, in terms of the plan.
proof fn lemma_step_ends(moves: Seq<RenameEntry>, steps: Seq<RenameStep>, pid: nat)
    requires
        are_steps(steps, moves, pid),
    ensures
        ({
            let n = moves.len() as int;
            &&& ends(steps, 0, n, true) == froms(moves)
            &&& ends(steps, 0, n, false) == temps(moves, pid)
            &&& ends(steps, n, 2 * n, true) == temps(moves, pid)
            &&& ends(steps, n, 2 * n, false) == tos(moves)
        }),
{
    let n = moves.len() as int;
    assert forall|i: int| 0 <= i < n implies steps[0 + i].from@ == (#[trigger] moves[i]).from@
        && steps[0 + i].to@ == temp_of(moves[i].to@, pid, i as nat) && steps[n + i].from@
        == temp_of(moves[i].to@, pid, i as nat) && steps[n + i].to@ == moves[i].to@ by {
        assert(steps[n + i].to@ == moves[n + i - n].to@);
    }
    let a = ends(steps, 0, n, true);
    let b = ends(steps, 0, n, false);
    let c = ends(steps, n, 2 * n, true);
    let d = ends(steps, n, 2 * n, false);
    assert forall|i: int| 0 <= i < n implies a[i] == froms(moves)[i] && b[i] == temps(moves, pid)[i]
        && c[i] == temps(moves, pid)[i] && d[i] == tos(moves)[i] by {
        assert(steps[0 + i].from@ == moves[i].from@);
    }
    assert(a =~= froms(moves));
    assert(b =~= temps(moves, pid));
    assert(c =~= temps(moves, pid));
    assert(d =~= tos(moves));
}

proof fn lemma_phases_movable<V>(
    fs: Map<Seq<char>, V>,
    moves: Seq<RenameEntry>,
    steps: Seq<RenameStep>,
    pid: nat,
)
    requires
        are_steps(steps, moves, pid),
        workable(fs, moves, pid),
    ensures
        ({
            let n = moves.len() as int;
            let a = froms(moves);
            let b = temps(moves, pid);
            &&& movable(fs, a, b)
            &&& move_all(fs, steps.take(0)) == fs
            &&& move_all(fs, steps.take(n)) == displaced(fs, a, b, 0, n)
            &&& movable(displaced(fs, a, b, 0, n), b, tos(moves))
        }),
{
    let n = moves.len() as int;
    assert(steps.take(0) =~= Seq::<RenameStep>::empty());
    lemma_step_ends(moves, steps, pid);
    lemma_move_batch(fs, steps, 0, n, n);
    lemma_second_phase_movable(fs, froms(moves), temps(moves, pid), tos(moves));
}

/// Carrying out a plan puts what every changed file held under its new name, leaves no
/// temporary name behind, and leaves every other file as it was.
pub proof fn law_rename_moves_every_file<V>(
    fs: Map<Seq<char>, V>,
    moves: Seq<RenameEntry>,
    steps: Seq<RenameStep>,
    pid: nat,
)
    requires
        are_steps(steps, moves, pid),
        workable(fs, moves, pid),
    ensures
        ({
            let after = move_all(fs, steps);
            &&& forall|i: int|
                0 <= i < moves.len() ==> after.dom().contains(#[trigger] tos(moves)[i])
                    && after[tos(moves)[i]] == fs[froms(moves)[i]]
            &&& forall|i: int|
                0 <= i < moves.len() ==> !after.dom().contains(#[trigger] temps(moves, pid)[i])
            &&& forall|p: Seq<char>|
                !froms(moves).contains(p) && !temps(moves, pid).contains(p) && !tos(moves).contains(
                    p,
                ) ==> (#[trigger] after.dom().contains(p) <==> fs.dom().contains(p)) && (
                fs.dom().contains(p) ==> after[p] == fs[p])
        }),
{
    let n = moves.len() as int;
    lemma_step_ends(moves, steps, pid);
    lemma_phases_movable(fs, moves, steps, pid);
    lemma_move_batch(fs, steps, n, 2 * n, n);
    assert(steps.take(2 * n) =~= steps);
    lemma_both_phases(fs, froms(moves), temps(moves, pid), tos(moves));
}

proof fn lemma_move_all_add<V>(fs: Map<Seq<char>, V>, x: Seq<RenameStep>, y: Seq<RenameStep>)
    ensures
        move_all(fs, x + y) == move_all(move_all(fs, x), y),
    decreases y.len(),
{
    if y.len() == 0 {
        assert(x + y =~= x);
    } else {
        lemma_move_all_add(fs, x, y.drop_last());
        assert((x + y).drop_last() =~= x + y.drop_last());
    }
}

/// Taking back displaced names, the last first.
proof fn lemma_take_back<V>(
    base: Map<Seq<char>, V>,
    a: Seq<Seq<char>>,
    b: Seq<Seq<char>>,
    undo: Seq<RenameStep>,
    k: int,
)
    requires
        movable(base, a, b),
        0 <= k <= a.len(),
        undo.len() == k,
        forall|i: int|
            0 <= i < k ==> (#[trigger] undo[i]).from@ == b[k - 1 - i] && undo[i].to@ == a[k - 1
                - i],
    ensures
        move_all(displaced(base, a, b, 0, k), undo) == base,
    decreases k,
{
    if k == 0 {
        lemma_displaced_value(base, a, b, 0, 0);
    } else {
        let first = seq![undo[0]];
        let rest = undo.skip(1);
        assert(undo =~= first + rest);
        lemma_move_all_add(displaced(base, a, b, 0, k), first, rest);
        assert(first.drop_last() =~= Seq::<RenameStep>::empty());
        let d = displaced(base, a, b, 0, k);
        assert(move_all(d, first.drop_last()) == d);
        assert(move_all(d, first) == move_one(d, undo[0].from@, undo[0].to@));
        lemma_displace_next(base, a, b, k - 1);
        assert forall|i: int| 0 <= i < k - 1 implies (#[trigger] rest[i]).from@ == b[k - 2 - i]
            && rest[i].to@ == a[k - 2 - i] by {
            assert(rest[i] == undo[i + 1]);
        }
        lemma_take_back(base, a, b, rest, k - 1);
    }
}

/// Taking back displaced names, the first first.
proof fn lemma_take_back_in_order<V>(
    base: Map<Seq<char>, V>,
    a: Seq<Seq<char>>,
    b: Seq<Seq<char>>,
    undo: Seq<RenameStep>,
    k: int,
)
    requires
        movable(base, a, b),
        0 <= k <= a.len(),
        undo.len() == a.len() - k,
        forall|i: int|
            0 <= i < undo.len() ==> (#[trigger] undo[i]).from@ == b[k + i] && undo[i].to@ == a[k
                + i],
    ensures
        move_all(displaced(base, a, b, k, a.len() as int), undo) == base,
    decreases a.len() - k,
{
    let n = a.len() as int;
    if k == n {
        lemma_displaced_value(base, a, b, n, n);
    } else {
        let first = seq![undo[0]];
        let rest = undo.skip(1);
        assert(undo =~= first + rest);
        let d = displaced(base, a, b, k, n);
        lemma_move_all_add(d, first, rest);
        assert(first.drop_last() =~= Seq::<RenameStep>::empty());
        assert(move_all(d, first.drop_last()) == d);
        assert(move_all(d, first) == move_one(d, undo[0].from@, undo[0].to@));
        lemma_displace_next(base, a, b, k);
        assert forall|i: int| 0 <= i < rest.len() implies (#[trigger] rest[i]).from@ == b[k + 1 + i]
            && rest[i].to@ == a[k + 1 + i] by {
            assert(rest[i] == undo[i + 1]);
        }
        lemma_take_back_in_order(base, a, b, rest, k + 1);
    }
}

/// Wherever a run of renames stops, the undo steps put every file back where it was: the set
/// is renamed all at once or not at all.
pub proof fn law_undo_restores_every_file<V>(
    fs: Map<Seq<char>, V>,
    moves: Seq<RenameEntry>,
    steps: Seq<RenameStep>,
    pid: nat,
    done: int,
    undo: Seq<RenameStep>,
)
    requires
        are_steps(steps, moves, pid),
        workable(fs, moves, pid),
        0 <= done <= steps.len(),
        are_undo_steps(undo, steps, done),
    ensures
        move_all(move_all(fs, steps.take(done)), undo) == fs,
{
    let n = moves.len() as int;
    let a = froms(moves);
    let b = temps(moves, pid);
    lemma_step_ends(moves, steps, pid);
    lemma_phases_movable(fs, moves, steps, pid);
    assert(steps.len() as int / 2 == n);
    if done <= n {
        lemma_move_batch(fs, steps, 0, n, done);
        assert forall|i: int| 0 <= i < done implies (#[trigger] undo[i]).from@ == b[done - 1 - i]
            && undo[i].to@ == a[done - 1 - i] by {
            assert(is_reverse(undo[i], steps[done - 1 - i]));
        }
        lemma_take_back(fs, a, b, undo, done);
    } else {
        let d = tos(moves);
        let mid = displaced(fs, a, b, 0, n);
        let k = done - n;
        lemma_move_batch(fs, steps, n, 2 * n, k);
        assert(n + k == done);
        let first = undo.take(k);
        let rest = undo.skip(k);
        assert(undo =~= first + rest);
        assert forall|i: int| 0 <= i < k implies (#[trigger] first[i]).from@ == d[k - 1 - i]
            && first[i].to@ == b[k - 1 - i] by {
            assert(first[i] == undo[i]);
            assert(is_reverse(undo[i], steps[done - 1 - i]));
        }
        lemma_take_back(mid, b, d, first, k);
        assert forall|i: int| 0 <= i < rest.len() implies (#[trigger] rest[i]).from@ == b[0 + i]
            && rest[i].to@ == a[0 + i] by {
            assert(rest[i] == undo[k + i]);
            assert(is_reverse(undo[k + i], steps[(k + i) - (done - n)]));
        }
        lemma_take_back_in_order(fs, a, b, rest, 0);
        lemma_move_all_add(move_all(fs, steps.take(done)), first, rest);
    }
}

} // verus!
