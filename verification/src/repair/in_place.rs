//! Repairing a show folder in place: every file that the plan changes is replaced, and the
//! file it replaced moves into a folder beside it. Moved, never deleted.

use super::plan::{BoundaryFix, FixPlan};
use super::members;
use super::members::{set_format, Fixed};
use crate::convert::ORIGINALS_DIR;
use crate::error::Error;
use crate::model::AudioFile;
use crate::path;
use crate::path::{join_path, name_or_empty, parent_of, same_path};
use crate::rename::execute;
use vstd::prelude::*;
use vstd::string::*;

verus! {

/// Where replaced files are set aside, inside the originals folder: a folder of its own, so
/// that a WAV fixed in place can still be converted with its sources moved to the originals
/// folder afterwards, without the two steps wanting the same name.
pub const SBE_FIX_ORIGINALS_DIR: &'static str = "sbe-fix";

/// What was done with one file of the set.
#[derive(Debug, Clone)]
pub enum InPlace {
    /// Rewritten under its own name; the file it replaced now sits at `original`.
    Replaced { fixed: Box<Fixed>, original: String },
    /// The plan moves nothing across either of its edges and pads nothing, so it was left
    /// exactly as it was.
    Unchanged { path: String },
}

/// Two paths lie in the same folder.
pub open spec fn same_folder(a: Seq<char>, b: Seq<char>) -> bool {
    match (path::parent(a), path::parent(b)) {
        (Some(x), Some(y)) => path::same(x, y),
        (None, None) => true,
        _ => false,
    }
}

/// Where the first file stands, from `from` on, that is not in the first one's folder.
pub open spec fn first_elsewhere(files: Seq<AudioFile>, from: int) -> int
    decreases files.len() - from,
{
    if from < 0 || from >= files.len() || !same_folder(files[0].path@, files[from].path@) {
        from
    } else {
        first_elsewhere(files, from + 1)
    }
}

/// Why a set cannot be fixed in place.
pub open spec fn in_place_objection(files: Seq<AudioFile>, plan: FixPlan) -> Option<
    (Seq<char>, Seq<char>),
> {
    let i = first_elsewhere(files, 0);
    if files.len() == 0 {
        Some(("<set>"@, "no files to fix"@))
    } else if plan.boundaries@.len() != files.len() - 1 {
        Some(("<set>"@, "this plan was not computed for this file set"@))
    } else if members::format_objection(files) is Some {
        members::format_objection(files)
    } else if path::parent(files[0].path@) is None {
        Some((files[0].path@, "has no folder"@))
    } else if i < files.len() {
        Some((files[i].path@, "not in the same folder as the rest of the set"@))
    } else {
        None
    }
}

/// Where files are set aside in this folder.
pub open spec fn aside_dir(dir: Seq<char>) -> Seq<char> {
    path::join(path::join(dir, ORIGINALS_DIR@), SBE_FIX_ORIGINALS_DIR@)
}

/// The folder of a set that can be fixed in place.
pub fn check_in_place(files: &[AudioFile], plan: &FixPlan) -> (r: Result<String, Error>)
    ensures
        match r {
            Ok(dir) => in_place_objection(files@, *plan) is None && path::parent(files@[0].path@)
                == Some(dir@),
            Err(e) => in_place_objection(files@, *plan) matches Some((p, d)) && e.is_malformed(
                p,
                d,
            ),
        },
{
    if files.len() == 0 {
        return Err(Error::malformed("<set>", "no files to fix"));
    }
    if plan.boundaries.len() != files.len() - 1 {
        return Err(Error::malformed("<set>", "this plan was not computed for this file set"));
    }
    match set_format(files) {
        Ok(_) => {},
        Err(e) => {
            return Err(e);
        },
    }
    let dir = match parent_of(&files[0].path) {
        Some(d) => d,
        None => {
            return Err(Error::malformed(&files[0].path, "has no folder"));
        },
    };
    let mut i: usize = 0;
    while i < files.len()
        invariant
            i <= files.len(),
            files.len() > 0,
            plan.boundaries.len() == files.len() - 1,
            members::format_objection(files@) is None,
            path::parent(files@[0].path@) == Some(dir@),
            first_elsewhere(files@, 0) == first_elsewhere(files@, i as int),
        decreases files.len() - i,
    {
        let here = match parent_of(&files[i].path) {
            Some(d) => same_path(&dir, &d),
            None => false,
        };
        if !here {
            return Err(
                Error::malformed(
                    &files[i].path,
                    "not in the same folder as the rest of the set",
                ),
            );
        }
        i += 1;
    }
    Ok(dir)
}

/// Where each file of a set would be set aside.
pub fn asides(files: &[AudioFile], dir: &str) -> (r: Vec<String>)
    ensures
        r.len() == files.len(),
        forall|i: int|
            0 <= i < files.len() ==> (#[trigger] r@[i])@ == path::join(
                aside_dir(dir@),
                path::name_of(files@[i].path@),
            ),
{
    let originals = join_path(&join_path(dir, ORIGINALS_DIR), SBE_FIX_ORIGINALS_DIR);
    let mut r: Vec<String> = Vec::new();
    let mut i: usize = 0;
    while i < files.len()
        invariant
            i <= files.len(),
            originals@ == aside_dir(dir@),
            r.len() == i,
            forall|k: int|
                0 <= k < i ==> (#[trigger] r@[k])@ == path::join(
                    aside_dir(dir@),
                    path::name_of(files@[k].path@),
                ),
        decreases files.len() - i,
    {
        let name = name_or_empty(&files[i].path);
        r.push(join_path(&originals, &name));
        i += 1;
    }
    r
}

/// Refuses, before anything is encoded, if a file that the plan changes could not be set
/// aside: `taken` says whether anything is there already.
pub fn check_asides(plan: &FixPlan, asides: &[String], taken: &[bool]) -> (r: Result<(), Error>)
    requires
        asides.len() == plan.boundaries.len() + 1,
        taken.len() == asides.len(),
    ensures
        match r {
            Ok(_) => forall|i: int|
                0 <= i < asides.len() && #[trigger] plan.changes(i) ==> !taken@[i],
            Err(e) => exists|i: int|
                {
                    &&& 0 <= i < asides.len()
                    &&& forall|k: int|
                        0 <= k < i && #[trigger] plan.changes(k) ==> !taken@[k]
                    &&& #[trigger] plan.changes(i)
                    &&& taken@[i]
                    &&& e.is_output_exists(asides@[i]@)
                },
        },
{
    let mut i: usize = 0;
    while i < asides.len()
        invariant
            i <= asides.len(),
            asides.len() == plan.boundaries.len() + 1,
            taken.len() == asides.len(),
            forall|k: int| 0 <= k < i && #[trigger] plan.changes(k) ==> !taken@[k],
        decreases asides.len() - i,
    {
        if plan.touches(i) && taken[i] {
            return Err(Error::OutputExists { path: asides[i].clone() });
        }
        i += 1;
    }
    Ok(())
}

/// A run of files that no frames enter or leave: nothing crosses its edges, something
/// crosses every boundary within.
pub open spec fn is_piece(plan: FixPlan, start: int, end: int) -> bool {
    &&& 0 <= start <= end <= plan.boundaries@.len()
    &&& plan.shift(start - 1) == 0
    &&& plan.shift(end) == 0
    &&& forall|k: int| start <= k < end ==> #[trigger] plan.shift(k) != 0
}

/// The pieces come one after the other and leave no file out.
pub open spec fn are_pieces(plan: FixPlan, pieces: Seq<(usize, usize)>, upto: int) -> bool
    decreases pieces.len(),
{
    if pieces.len() == 0 {
        upto == 0
    } else {
        let (start, end) = pieces.last();
        &&& end + 1 == upto
        &&& is_piece(plan, start as int, end as int)
        &&& are_pieces(plan, pieces.drop_last(), start as int)
    }
}

/// Splits a set at every boundary that moves nothing: no frames cross it, so the files on
/// either side are independent. Each piece is given by its first and its last file.
pub fn pieces(plan: &FixPlan) -> (r: Vec<(usize, usize)>)
    requires
        plan.boundaries.len() < usize::MAX,
    ensures
        are_pieces(*plan, r@, plan.boundaries.len() + 1),
{
    let mut r: Vec<(usize, usize)> = Vec::new();
    let mut start: usize = 0;
    let mut i: usize = 0;
    while i < plan.boundaries.len()
        invariant
            start <= i <= plan.boundaries.len(),
            plan.shift(start - 1) == 0,
            forall|k: int| start <= k < i ==> #[trigger] plan.shift(k) != 0,
            are_pieces(*plan, r@, start as int),
        decreases plan.boundaries.len() - i,
    {
        if plan.boundaries[i].shifted_frames == 0 {
            let ghost before = r@;
            assert(plan.shift(i as int) == 0);
            r.push((start, i));
            assert(r@.drop_last() =~= before);
            start = i + 1;
        } else {
            assert(plan.shift(i as int) != 0);
        }
        i += 1;
    }
    let ghost before = r@;
    r.push((start, plan.boundaries.len()));
    assert(r@.drop_last() =~= before);
    r
}

/// The plan for one piece on its own.
pub fn sub_plan(plan: &FixPlan, start: usize, end: usize) -> (sub: FixPlan)
    requires
        start <= end <= plan.boundaries.len(),
        plan.wf(),
    ensures
        sub.boundaries@.len() == end - start,
        sub.wf(),
        forall|k: int|
            0 <= k < end - start ==> (#[trigger] sub.boundaries@[k]).shifted_frames
                == plan.boundaries@[start + k].shifted_frames,
        sub.tail_padding_frames == if end == plan.boundaries@.len() {
            plan.tail_padding_frames
        } else {
            None
        },
        sub.fully_fixed == plan.fully_fixed,
{
    let mut boundaries: Vec<BoundaryFix> = Vec::new();
    let mut k: usize = start;
    while k < end
        invariant
            start <= k <= end <= plan.boundaries.len(),
            boundaries.len() == k - start,
            forall|j: int| 0 <= j < k - start ==> (#[trigger] boundaries@[j]).index == j,
            forall|j: int|
                0 <= j < k - start ==> (#[trigger] boundaries@[j]).shifted_frames
                    == plan.boundaries@[start + j].shifted_frames,
        decreases end - k,
    {
        boundaries.push(
            BoundaryFix { index: k - start, shifted_frames: plan.boundaries[k].shifted_frames },
        );
        k += 1;
    }
    let tail_padding_frames = if end == plan.boundaries.len() {
        plan.tail_padding_frames
    } else {
        None
    };
    FixPlan { boundaries, tail_padding_frames, fully_fixed: plan.fully_fixed }
}

/// Whether `sub` is the plan for one piece of `plan`.
pub open spec fn is_sub_plan(sub: FixPlan, plan: FixPlan, start: int, end: int) -> bool {
    &&& sub.boundaries@.len() == end - start
    &&& forall|k: int|
        0 <= k < end - start ==> (#[trigger] sub.boundaries@[k]).shifted_frames
            == plan.boundaries@[start + k].shifted_frames
    &&& sub.tail_padding_frames == if end == plan.boundaries@.len() {
        plan.tail_padding_frames
    } else {
        None
    }
}

/// A piece fixed on its own is fixed as in the whole: the same frames cross each of its
/// edges, and the same files change.
pub proof fn law_piece_is_fixed_as_in_the_whole(
    sub: FixPlan,
    plan: FixPlan,
    start: int,
    end: int,
    i: int,
)
    requires
        is_piece(plan, start, end),
        is_sub_plan(sub, plan, start, end),
        start <= i <= end,
    ensures
        sub.shift(i - start) == plan.shift(i),
        sub.shift(i - start - 1) == plan.shift(i - 1),
        sub.changes(i - start) == plan.changes(i),
{
    assert forall|k: int| start - 1 <= k <= end implies sub.shift(k - start) == #[trigger] plan.shift(
        k,
    ) by {
        if start <= k < end {
            assert(sub.boundaries@[k - start].shifted_frames == plan.boundaries@[start + (k
                - start)].shifted_frames);
        }
    }
    assert(sub.shift(i - start) == plan.shift(i));
    assert(sub.shift((i - 1) - start) == plan.shift(i - 1));
}

/// A piece whose first file is left alone is that file alone, so that skipping it skips
/// nothing that changes.
pub proof fn law_untouched_piece_is_one_file(plan: FixPlan, start: int, end: int)
    requires
        is_piece(plan, start, end),
        !plan.changes(start),
    ensures
        start == end,
        forall|i: int| start <= i <= end ==> !#[trigger] plan.changes(i),
{
    if start < end {
        assert(plan.shift(start) != 0);
    }
}

/// One file to be replaced: what is at `path` goes to `aside`, and then what is at `staged`
/// goes to `path`.
#[derive(Debug, Clone)]
pub struct Swap {
    pub path: String,
    pub aside: String,
    pub staged: String,
}

/// The files that the plan changes, among the first `n`, each with where it is set aside
/// and where its checked replacement waits.
pub open spec fn are_swaps(
    swaps: Seq<Swap>,
    files: Seq<AudioFile>,
    plan: FixPlan,
    asides: Seq<String>,
    staged: Seq<String>,
    n: int,
) -> bool
    decreases n,
{
    if n <= 0 {
        swaps.len() == 0
    } else if plan.changes(n - 1) {
        &&& swaps.len() > 0
        &&& swaps.last().path@ == files[n - 1].path@
        &&& swaps.last().aside@ == asides[n - 1]@
        &&& swaps.last().staged@ == staged[n - 1]@
        &&& are_swaps(swaps.drop_last(), files, plan, asides, staged, n - 1)
    } else {
        are_swaps(swaps, files, plan, asides, staged, n - 1)
    }
}

/// What is to be swapped once every changed file has a checked replacement. A file that the
/// plan leaves alone is not touched at all.
pub fn swaps(files: &[AudioFile], plan: &FixPlan, asides: &[String], staged: &[String]) -> (r: Vec<
    Swap,
>)
    requires
        files.len() == plan.boundaries.len() + 1,
        asides.len() == files.len(),
        staged.len() == files.len(),
    ensures
        are_swaps(r@, files@, *plan, asides@, staged@, files.len() as int),
{
    let mut r: Vec<Swap> = Vec::new();
    let mut i: usize = 0;
    while i < files.len()
        invariant
            i <= files.len(),
            files.len() == plan.boundaries.len() + 1,
            asides.len() == files.len(),
            staged.len() == files.len(),
            are_swaps(r@, files@, *plan, asides@, staged@, i as int),
        decreases files.len() - i,
    {
        if plan.touches(i) {
            let ghost before = r@;
            r.push(
                Swap {
                    path: files[i].path.clone(),
                    aside: asides[i].clone(),
                    staged: staged[i].clone(),
                },
            );
            assert(r@.drop_last() =~= before);
        }
        i += 1;
    }
    r
}

/// One file to be put back: what is at `path` is removed first, if `clear` says so, and then
/// what is at `original` goes to `path`.
#[derive(Debug, Clone)]
pub struct PutBack {
    pub path: String,
    pub original: String,
    pub clear: bool,
}

/// It puts back what the swap moved.
pub open spec fn puts_back(p: PutBack, s: Swap, clear: bool) -> bool {
    p.path@ == s.path@ && p.original@ == s.aside@ && p.clear == clear
}

/// What puts everything back after the first `done` swaps: the last first. `set_aside` says
/// whether the original of the next one had been moved aside already.
pub open spec fn are_put_backs(
    undo: Seq<PutBack>,
    swaps: Seq<Swap>,
    done: int,
    set_aside: bool,
) -> bool {
    let first: int = if set_aside {
        1
    } else {
        0
    };
    &&& undo.len() == done + first
    &&& set_aside ==> puts_back(undo[0], swaps[done], false)
    &&& forall|i: int|
        first <= i < done + first ==> puts_back(#[trigger] undo[i], swaps[done - 1 - (i - first)], true)
}

/// What is to be done when a swap fails, so that all are made or none.
pub fn unswap(swaps: &[Swap], done: usize, set_aside: bool) -> (undo: Vec<PutBack>)
    requires
        done <= swaps.len(),
        set_aside ==> done < swaps.len(),
    ensures
        are_put_backs(undo@, swaps@, done as int, set_aside),
{
    let mut undo: Vec<PutBack> = Vec::new();
    let ghost first: int = if set_aside {
        1
    } else {
        0
    };
    if set_aside {
        undo.push(
            PutBack {
                path: swaps[done].path.clone(),
                original: swaps[done].aside.clone(),
                clear: false,
            },
        );
    }
    let mut k: usize = done;
    while k > 0
        invariant
            k <= done <= swaps.len(),
            set_aside ==> done < swaps.len(),
            first == if set_aside {
                1int
            } else {
                0int
            },
            undo.len() == done - k + first,
            set_aside ==> puts_back(undo@[0], swaps@[done as int], false),
            forall|i: int|
                first <= i < done - k + first ==> puts_back(
                    #[trigger] undo@[i],
                    swaps@[done - 1 - (i - first)],
                    true,
                ),
        decreases k,
    {
        undo.push(
            PutBack {
                path: swaps[k - 1].path.clone(),
                original: swaps[k - 1].aside.clone(),
                clear: true,
            },
        );
        k -= 1;
    }
    undo
}

/// What became of each file: `fixed` holds the record of each that was replaced.
pub fn in_place_results(files: &[AudioFile], fixed: Vec<Option<Fixed>>, asides: &[String]) -> (r: Vec<
    InPlace,
>)
    requires
        fixed.len() == files.len(),
        asides.len() == files.len(),
    ensures
        r.len() == files.len(),
        forall|i: int|
            0 <= i < files.len() ==> is_in_place_result(
                #[trigger] r@[i],
                fixed@[i],
                files@[i].path@,
                asides@[i]@,
            ),
{
    let ghost all = fixed@;
    let mut fixed = fixed;
    let mut r: Vec<InPlace> = Vec::new();
    let mut i: usize = 0;
    while i < files.len()
        invariant
            i <= files.len(),
            asides.len() == files.len(),
            all.len() == files.len(),
            fixed.len() == files.len() - i,
            forall|k: int| 0 <= k < fixed.len() ==> #[trigger] fixed@[k] == all[i + k],
            r.len() == i,
            forall|k: int|
                0 <= k < i ==> is_in_place_result(
                    #[trigger] r@[k],
                    all[k],
                    files@[k].path@,
                    asides@[k]@,
                ),
        decreases files.len() - i,
    {
        assert(fixed@[0] == all[i + 0]);
        match fixed.remove(0) {
            None => {
                r.push(InPlace::Unchanged { path: files[i].path.clone() });
            },
            Some(f) => {
                let f = Fixed {
                    path: files[i].path.clone(),
                    shifted_in: f.shifted_in,
                    shifted_out: f.shifted_out,
                    audio_md5: f.audio_md5,
                    provenance: f.provenance,
                };
                r.push(InPlace::Replaced { fixed: Box::new(f), original: asides[i].clone() });
            },
        }
        i += 1;
    }
    r
}

pub open spec fn is_in_place_result(
    r: InPlace,
    fixed: Option<Fixed>,
    p: Seq<char>,
    aside: Seq<char>,
) -> bool {
    match fixed {
        None => r matches InPlace::Unchanged { path } && path@ == p,
        Some(f) => r matches InPlace::Replaced { fixed: g, original } && original@ == aside
            && g.path@ == p && g.shifted_in == f.shifted_in && g.shifted_out == f.shifted_out
            && g.audio_md5 == f.audio_md5 && g.provenance == f.provenance,
    }
}

/// A folder after one file was replaced.
pub open spec fn swap_one<V>(fs: Map<Seq<char>, V>, s: Swap) -> Map<Seq<char>, V> {
    execute::move_one(execute::move_one(fs, s.path@, s.aside@), s.staged@, s.path@)
}

/// A folder after the first `n` swaps.
pub open spec fn swapped<V>(fs: Map<Seq<char>, V>, swaps: Seq<Swap>, n: int) -> Map<Seq<char>, V>
    decreases n,
{
    if n <= 0 {
        fs
    } else {
        swap_one(swapped(fs, swaps, n - 1), swaps[n - 1])
    }
}

/// A folder after one file was put back.
pub open spec fn put_back<V>(fs: Map<Seq<char>, V>, p: PutBack) -> Map<Seq<char>, V> {
    execute::move_one(
        if p.clear {
            fs.remove(p.path@)
        } else {
            fs
        },
        p.original@,
        p.path@,
    )
}

/// A folder after these were put back, one after the other.
pub open spec fn put_back_all<V>(fs: Map<Seq<char>, V>, undo: Seq<PutBack>) -> Map<Seq<char>, V>
    decreases undo.len(),
{
    if undo.len() == 0 {
        fs
    } else {
        put_back_all(put_back(fs, undo[0]), undo.drop_first())
    }
}

/// The files are there, the replacements are there, the places aside are free, and no two of
/// all these names are one.
pub open spec fn swappable<V>(fs: Map<Seq<char>, V>, swaps: Seq<Swap>) -> bool {
    &&& forall|i: int|
        0 <= i < swaps.len() ==> {
            let s = #[trigger] swaps[i];
            &&& fs.dom().contains(s.path@)
            &&& fs.dom().contains(s.staged@)
            &&& !fs.dom().contains(s.aside@)
        }
    &&& forall|i: int, j: int|
        0 <= i < swaps.len() && 0 <= j < swaps.len() ==> {
            let (s, t) = (#[trigger] swaps[i], #[trigger] swaps[j]);
            &&& s.path@ != t.staged@
            &&& i != j ==> s.path@ != t.path@ && s.aside@ != t.aside@ && s.staged@ != t.staged@
        }
}

proof fn lemma_swapped<V>(fs: Map<Seq<char>, V>, swaps: Seq<Swap>, n: int)
    requires
        swappable(fs, swaps),
        0 <= n <= swaps.len(),
    ensures
        forall|i: int|
            0 <= i < n ==> {
                let s = #[trigger] swaps[i];
                let after = swapped(fs, swaps, n);
                &&& after.dom().contains(s.path@) && after[s.path@] == fs[s.staged@]
                &&& after.dom().contains(s.aside@) && after[s.aside@] == fs[s.path@]
                &&& !after.dom().contains(s.staged@)
            },
        forall|p: Seq<char>|
            (forall|i: int|
                0 <= i < n ==> p != (#[trigger] swaps[i]).path@ && p != swaps[i].aside@ && p
                    != swaps[i].staged@) ==> (#[trigger] swapped(fs, swaps, n).dom().contains(p)
                <==> fs.dom().contains(p)) && (fs.dom().contains(p) ==> swapped(fs, swaps, n)[p]
                == fs[p]),
    decreases n,
{
    if n > 0 {
        lemma_swapped(fs, swaps, n - 1);
        let g = swapped(fs, swaps, n - 1);
        let s = swaps[n - 1];
        assert forall|i: int| 0 <= i < n - 1 implies s.path@ != (#[trigger] swaps[i]).path@
            && s.path@ != swaps[i].aside@ && s.path@ != swaps[i].staged@ && s.aside@
            != swaps[i].path@ && s.aside@ != swaps[i].aside@ && s.aside@ != swaps[i].staged@
            && s.staged@ != swaps[i].path@ && s.staged@ != swaps[i].aside@ && s.staged@
            != swaps[i].staged@ by {
            assert(swaps[n - 1] == s);
        }
        assert(g.dom().contains(s.path@));
        assert(g.dom().contains(s.staged@));
        assert(!g.dom().contains(s.aside@));
        assert(s.path@ != s.staged@ && s.path@ != s.aside@ && s.staged@ != s.aside@);
        let after = swapped(fs, swaps, n);
        assert(after == swap_one(g, s));
        assert forall|p: Seq<char>|
            (forall|i: int|
                0 <= i < n ==> p != (#[trigger] swaps[i]).path@ && p != swaps[i].aside@ && p
                    != swaps[i].staged@) implies (#[trigger] after.dom().contains(p)
            <==> fs.dom().contains(p)) && (fs.dom().contains(p) ==> after[p] == fs[p]) by {
            assert(p != swaps[n - 1].path@);
            assert(g.dom().contains(p) <==> fs.dom().contains(p));
        }
    }
}

/// Once every swap is made, each changed file's replacement stands under its own name, what
/// it replaced stands aside, and nothing else has changed but that the replacements are gone
/// from where they waited.
pub proof fn law_swaps_replace_every_changed_file<V>(fs: Map<Seq<char>, V>, swaps: Seq<Swap>)
    requires
        swappable(fs, swaps),
    ensures
        ({
            let after = swapped(fs, swaps, swaps.len() as int);
            &&& forall|i: int|
                0 <= i < swaps.len() ==> {
                    let s = #[trigger] swaps[i];
                    &&& after.dom().contains(s.path@) && after[s.path@] == fs[s.staged@]
                    &&& after.dom().contains(s.aside@) && after[s.aside@] == fs[s.path@]
                    &&& !after.dom().contains(s.staged@)
                }
            &&& forall|p: Seq<char>|
                (forall|i: int|
                    0 <= i < swaps.len() ==> p != (#[trigger] swaps[i]).path@ && p
                        != swaps[i].aside@ && p != swaps[i].staged@) ==> (
                #[trigger] after.dom().contains(p) <==> fs.dom().contains(p)) && (
                fs.dom().contains(p) ==> after[p] == fs[p])
        }),
{
    lemma_swapped(fs, swaps, swaps.len() as int);
}

/// A folder without the first `n` replacements.
pub open spec fn unstaged<V>(fs: Map<Seq<char>, V>, swaps: Seq<Swap>, n: int) -> Map<Seq<char>, V>
    decreases n,
{
    if n <= 0 {
        fs
    } else {
        unstaged(fs, swaps, n - 1).remove(swaps[n - 1].staged@)
    }
}

proof fn lemma_put_back_one<V>(fs: Map<Seq<char>, V>, s: Swap, p: PutBack)
    requires
        puts_back(p, s, true),
        fs.dom().contains(s.path@),
        fs.dom().contains(s.staged@),
        !fs.dom().contains(s.aside@),
        s.path@ != s.staged@,
    ensures
        put_back(swap_one(fs, s), p) == fs.remove(s.staged@),
{
    assert(put_back(swap_one(fs, s), p) =~= fs.remove(s.staged@));
}

/// Taking a replacement away beforehand changes nothing else.
proof fn lemma_swapped_without<V>(fs: Map<Seq<char>, V>, swaps: Seq<Swap>, n: int, q: Seq<char>)
    requires
        0 <= n <= swaps.len(),
        forall|i: int|
            0 <= i < n ==> q != (#[trigger] swaps[i]).path@ && q != swaps[i].aside@ && q
                != swaps[i].staged@,
    ensures
        swapped(fs.remove(q), swaps, n) == swapped(fs, swaps, n).remove(q),
    decreases n,
{
    if n > 0 {
        lemma_swapped_without(fs, swaps, n - 1, q);
        let g = swapped(fs, swaps, n - 1);
        let s = swaps[n - 1];
        let a = execute::move_one(g, s.path@, s.aside@);
        let b = execute::move_one(g.remove(q), s.path@, s.aside@);
        assert(g.remove(q)[s.path@] == g[s.path@]);
        assert(b =~= a.remove(q));
        assert(a.remove(q)[s.staged@] == a[s.staged@]);
        assert(swap_one(g.remove(q), s) =~= swap_one(g, s).remove(q));
    }
}

proof fn lemma_unstaged_without<V>(fs: Map<Seq<char>, V>, swaps: Seq<Swap>, n: int, q: Seq<char>)
    ensures
        unstaged(fs.remove(q), swaps, n) == unstaged(fs, swaps, n).remove(q),
    decreases n,
{
    if n > 0 {
        lemma_unstaged_without(fs, swaps, n - 1, q);
        let s = swaps[n - 1].staged@;
        assert(unstaged(fs, swaps, n - 1).remove(q).remove(s) =~= unstaged(
            fs,
            swaps,
            n - 1,
        ).remove(s).remove(q));
    }
}

proof fn lemma_put_back_all<V>(
    fs: Map<Seq<char>, V>,
    swaps: Seq<Swap>,
    done: int,
    undo: Seq<PutBack>,
)
    requires
        0 <= done <= swaps.len(),
        swappable(fs, swaps.take(done)),
        are_put_backs(undo, swaps, done, false),
    ensures
        put_back_all(swapped(fs, swaps, done), undo) == unstaged(fs, swaps, done),
    decreases done,
{
    if done > 0 {
        let first = swaps.take(done);
        let s = swaps[done - 1];
        let g = swapped(fs, swaps, done - 1);
        assert(first[done - 1] == s);
        assert forall|i: int| 0 <= i < done implies #[trigger] swaps[i] == first[i] by {}
        lemma_same_swaps(fs, swaps, first, done - 1);
        lemma_swapped(fs, first, done - 1);
        assert forall|i: int| 0 <= i < done - 1 implies s.path@ != (#[trigger] swaps[i]).path@
            && s.path@ != swaps[i].aside@ && s.path@ != swaps[i].staged@ && s.aside@
            != swaps[i].path@ && s.aside@ != swaps[i].aside@ && s.aside@ != swaps[i].staged@
            && s.staged@ != swaps[i].path@ && s.staged@ != swaps[i].aside@ && s.staged@
            != swaps[i].staged@ by {
            assert(first[i] == swaps[i] && first[done - 1] == s);
        }
        assert(g.dom().contains(s.path@));
        assert(g.dom().contains(s.staged@));
        assert(!g.dom().contains(s.aside@));
        assert(puts_back(undo[0], s, true));
        lemma_put_back_one(g, s, undo[0]);
        lemma_swapped_without(fs, swaps, done - 1, s.staged@);
        let less = fs.remove(s.staged@);
        assert(swappable(less, swaps.take(done - 1))) by {
            let shorter = swaps.take(done - 1);
            assert forall|i: int| 0 <= i < shorter.len() implies #[trigger] shorter[i]
                == first[i] by {}
        }
        let rest = undo.drop_first();
        assert(are_put_backs(rest, swaps, done - 1, false)) by {
            assert forall|i: int| 0 <= i < done - 1 implies puts_back(
                #[trigger] rest[i],
                swaps[done - 2 - i],
                true,
            ) by {
                assert(rest[i] == undo[i + 1]);
            }
        }
        lemma_put_back_all(less, swaps, done - 1, rest);
        lemma_unstaged_without(fs, swaps, done - 1, s.staged@);
    }
}

proof fn lemma_same_swaps<V>(fs: Map<Seq<char>, V>, a: Seq<Swap>, b: Seq<Swap>, n: int)
    requires
        forall|i: int| 0 <= i < n ==> #[trigger] a[i] == b[i],
    ensures
        swapped(fs, a, n) == swapped(fs, b, n),
    decreases n,
{
    if n > 0 {
        lemma_same_swaps(fs, a, b, n - 1);
        assert(a[n - 1] == b[n - 1]);
    }
}

/// Swaps that fail part way are undone: every original is back under its own name, nothing
/// is left aside, and only replacements are gone.
pub proof fn law_unswap_restores_the_folder<V>(
    fs: Map<Seq<char>, V>,
    swaps: Seq<Swap>,
    done: int,
    set_aside: bool,
    undo: Seq<PutBack>,
)
    requires
        swappable(fs, swaps),
        0 <= done <= swaps.len(),
        set_aside ==> done < swaps.len(),
        are_put_backs(undo, swaps, done, set_aside),
    ensures
        put_back_all(
            if set_aside {
                execute::move_one(swapped(fs, swaps, done), swaps[done].path@, swaps[done].aside@)
            } else {
                swapped(fs, swaps, done)
            },
            undo,
        ) == unstaged(fs, swaps, done),
{
    let first = swaps.take(done);
    assert(swappable(fs, first)) by {
        assert forall|i: int| 0 <= i < first.len() implies #[trigger] first[i] == swaps[i] by {}
    }
    if set_aside {
        let g = swapped(fs, swaps, done);
        let s = swaps[done];
        lemma_swapped(fs, swaps, done);
        assert forall|i: int| 0 <= i < done implies s.path@ != (#[trigger] swaps[i]).path@
            && s.path@ != swaps[i].aside@ && s.path@ != swaps[i].staged@ && s.aside@
            != swaps[i].path@ && s.aside@ != swaps[i].aside@ && s.aside@
            != swaps[i].staged@ by {
            assert(swaps[done] == s);
        }
        assert(g.dom().contains(s.path@));
        assert(!g.dom().contains(s.aside@));
        let moved = execute::move_one(g, s.path@, s.aside@);
        assert(put_back(moved, undo[0]) =~= g);
        let rest = undo.drop_first();
        assert(are_put_backs(rest, swaps, done, false)) by {
            assert forall|i: int| 0 <= i < done implies puts_back(
                #[trigger] rest[i],
                swaps[done - 1 - i],
                true,
            ) by {
                assert(rest[i] == undo[i + 1]);
            }
        }
        lemma_put_back_all(fs, swaps, done, rest);
    } else {
        lemma_put_back_all(fs, swaps, done, undo);
    }
}

proof fn lemma_first_elsewhere(files: Seq<AudioFile>, from: int)
    requires
        0 <= from <= files.len(),
    ensures
        from <= first_elsewhere(files, from) <= files.len(),
        forall|i: int|
            from <= i < first_elsewhere(files, from) ==> same_folder(
                files[0].path@,
                (#[trigger] files[i]).path@,
            ),
    decreases files.len() - from,
{
    if from < files.len() && same_folder(files[0].path@, files[from].path@) {
        lemma_first_elsewhere(files, from + 1);
    }
}

/// A set that is fixed in place lies in one folder.
pub proof fn law_fixed_set_lies_in_one_folder(files: Seq<AudioFile>, plan: FixPlan, i: int)
    requires
        in_place_objection(files, plan) is None,
        0 <= i < files.len(),
    ensures
        plan.boundaries@.len() == files.len() - 1,
        path::parent(files[0].path@) is Some,
        path::parent(files[i].path@) is Some,
        path::same(path::parent(files[0].path@)->0, path::parent(files[i].path@)->0),
{
    lemma_first_elsewhere(files, 0);
    assert(same_folder(files[0].path@, files[i].path@));
}

} // verus!
