//! Planning: pure arithmetic over each file's declared frame count, so that a plan can be
//! shown to a user with no decode.

use crate::error::Error;
use crate::model::{AudioFile, StreamInfo};
use crate::text;
use crate::text::push_decimal;
use vstd::prelude::*;
use vstd::string::*;

verus! {

/// shntool's `-b`/`-f`/`-u`: which way a boundary's remainder frames move.
#[derive(Debug, Clone, Copy, PartialEq, Eq, Structural)]
pub enum BoundaryDirection {
    /// `-b`, the default: round the earlier file down to the previous sector, handing its
    /// excess frames to the file after it.
    Backward,
    /// `-f`: round the earlier file up to the next sector, borrowing frames from the file
    /// after it.
    Forward,
    /// `-u`: whichever of the two moves fewer frames. A tie goes to `Backward`.
    Nearest,
}

/// What happens to the last file in the set, which no boundary can fix by borrowing: there is
/// no file after it to hand a remainder to.
#[derive(Debug, Clone, Copy, PartialEq, Eq, Structural)]
pub enum TailPolicy {
    /// Leave it. If still misaligned, that is reported, not hidden.
    Report,
    /// Add silence to reach the next sector boundary: the one operation here that adds
    /// samples instead of reassigning them.
    Pad,
}

/// One boundary between adjacent files, and what crosses it.
#[derive(Debug, Clone, Copy, PartialEq, Eq, Structural)]
pub struct BoundaryFix {
    /// Index into the ordered set; the boundary sits between `index` and `index + 1`.
    pub index: usize,
    /// Frames moved. Positive: taken from the end of `index`, prepended to `index + 1`.
    /// Negative: taken from the start of `index + 1`, appended to `index`. Zero: already
    /// aligned, listed so that a caller can show "no change" rather than a gap.
    pub shifted_frames: i64,
}

/// The whole set's outcome, computed before anything is written.
#[derive(Debug, Clone)]
pub struct FixPlan {
    pub boundaries: Vec<BoundaryFix>,
    /// `Some` only when the tail needed padding and [`TailPolicy::Pad`] was given.
    pub tail_padding_frames: Option<u64>,
    /// True when every file in the set would be aligned after this plan is applied (a padded
    /// tail counts as aligned).
    pub fully_fixed: bool,
}

impl FixPlan {
    /// Frames that cross boundary `i`; none do where there is no such boundary.
    pub open spec fn shift(&self, i: int) -> int {
        if 0 <= i < self.boundaries@.len() {
            self.boundaries@[i].shifted_frames as int
        } else {
            0
        }
    }

    /// The frames of silence that are added to the last file.
    pub open spec fn pad(&self) -> nat {
        match self.tail_padding_frames {
            Some(n) => n as nat,
            None => 0,
        }
    }

    /// Each boundary stands at the place that it names.
    pub open spec fn wf(&self) -> bool {
        forall|i: int| 0 <= i < self.boundaries@.len() ==> #[trigger] self.boundaries@[i].index == i
    }

    /// Whether the plan changes file `i`.
    pub open spec fn changes(&self, i: int) -> bool {
        ||| self.shift(i - 1) != 0
        ||| self.shift(i) != 0
        ||| i == self.boundaries@.len() && self.tail_padding_frames is Some
    }

    /// Frames file `i` gains from (positive) or lends to (negative) the file before it.
    pub fn shifted_in(&self, i: usize) -> (n: i64)
        requires
            i <= self.boundaries.len(),
        ensures
            n == self.shift(i - 1),
    {
        if i == 0 {
            0
        } else {
            self.boundaries[i - 1].shifted_frames
        }
    }

    /// Frames file `i` hands to (positive) or borrows from (negative) the file after it.
    pub fn shifted_out(&self, i: usize) -> (n: i64)
        ensures
            n == self.shift(i as int),
    {
        if i < self.boundaries.len() {
            self.boundaries[i].shifted_frames
        } else {
            0
        }
    }

    /// Whether applying the plan changes file `i` at all: frames cross one of its edges, or
    /// it is the tail and gets padded.
    pub fn touches(&self, i: usize) -> (b: bool)
        requires
            i <= self.boundaries.len(),
        ensures
            b == self.changes(i as int),
    {
        self.shifted_in(i) != 0 || self.shifted_out(i) != 0 || (i == self.boundaries.len()
            && self.tail_padding_frames.is_some())
    }
}

/// The plan for one boundary between two adjacent files, of a set that was planned already.
pub fn single_boundary(shifted_frames: i64) -> (plan: FixPlan)
    ensures
        plan.wf(),
        plan.boundaries@.len() == 1,
        plan.boundaries@[0].shifted_frames == shifted_frames,
        plan.tail_padding_frames is None,
        !plan.fully_fixed,
{
    let mut boundaries: Vec<BoundaryFix> = Vec::new();
    boundaries.push(BoundaryFix { index: 0, shifted_frames });
    FixPlan { boundaries, tail_padding_frames: None, fully_fixed: false }
}

/// Where one file of a fix has got to.
#[derive(Debug, Clone, Copy, PartialEq, Eq, Structural)]
pub enum FixStep {
    /// Its audio is being read into memory (FLAC), or its chunks read (WAV).
    Decoding,
    /// Its shifted audio is being encoded by the reference `flac` binary (FLAC), or written
    /// (WAV).
    Encoding,
    /// Its output is being decoded (FLAC) or read (WAV) again for the round-trip check.
    Checking,
    /// The round-trip check passed; it waits only on the final commit.
    Checked,
}

impl FixStep {
    /// Lowercase, for a status line or a table cell.
    pub fn label(self) -> (s: &'static str)
        ensures
            s@ == match self {
                FixStep::Decoding => "decoding"@,
                FixStep::Encoding => "encoding"@,
                FixStep::Checking => "checking"@,
                FixStep::Checked => "checked"@,
            },
    {
        match self {
            FixStep::Decoding => "decoding",
            FixStep::Encoding => "encoding",
            FixStep::Checking => "checking",
            FixStep::Checked => "checked",
        }
    }
}

/// Frames that leave a file of this length across its later boundary.
pub open spec fn shift_of(frames: int, direction: BoundaryDirection) -> int {
    let over = frames % 588;
    if over == 0 {
        0
    } else {
        match direction {
            BoundaryDirection::Backward => over,
            BoundaryDirection::Forward => over - 588,
            BoundaryDirection::Nearest => if 588 - over < over {
                over - 588
            } else {
                over
            },
        }
    }
}

/// Frames that cross boundary `i`: what the file before it holds by then decides, and that
/// is its own frames and what crossed the boundary before it.
pub open spec fn shift_at(frames: Seq<int>, direction: BoundaryDirection, i: int) -> int
    decreases i + 1,
{
    if i < 0 {
        0
    } else {
        shift_of(frames[i] + shift_at(frames, direction, i - 1), direction)
    }
}

/// The file after boundary `i` is too short to lend what the boundary needs.
pub open spec fn short_at(frames: Seq<int>, direction: BoundaryDirection, i: int) -> bool {
    frames[i + 1] + shift_at(frames, direction, i) < 0
}

/// The length of the last file, before any padding.
pub open spec fn tail_of(frames: Seq<int>, direction: BoundaryDirection) -> int {
    frames[frames.len() - 1] + shift_at(frames, direction, frames.len() - 2)
}

/// Silence for a tail of this length.
pub open spec fn padding_of(tail: int, policy: TailPolicy) -> Option<u64> {
    if tail % 588 != 0 && policy is Pad {
        Some((588 - tail % 588) as u64)
    } else {
        None
    }
}

/// The declared frame counts.
pub open spec fn frames_of(files: Seq<AudioFile>) -> Seq<int> {
    Seq::new(files.len(), |i: int| files[i].stream_info.total_frames->0 as int)
}

/// CD audio whose length its header states.
pub open spec fn plannable(info: StreamInfo) -> bool {
    info.cdda() && info.total_frames is Some
}

/// Why a file cannot be part of a plan.
pub open spec fn objection(info: StreamInfo) -> Seq<char> {
    if !info.cdda() {
        "not CD audio (44.1 kHz / 16-bit / stereo); sbe fix has nothing to align"@
    } else {
        "frame count unknown; sbe fix has nothing to align"@
    }
}

/// Why a boundary cannot be fixed.
pub open spec fn too_short(n: nat) -> Seq<char> {
    "too short to lend "@ + text::decimal(n) + " frames to the previous file's boundary fix"@
}

/// Whether `plan` is the plan for files of these lengths.
pub open spec fn is_plan(
    plan: FixPlan,
    frames: Seq<int>,
    direction: BoundaryDirection,
    tail: TailPolicy,
) -> bool {
    &&& plan.boundaries@.len() == frames.len() - 1
    &&& plan.wf()
    &&& forall|i: int|
        0 <= i < plan.boundaries@.len() ==> (#[trigger] plan.boundaries@[i]).shifted_frames
            == shift_at(frames, direction, i)
    &&& plan.tail_padding_frames == padding_of(tail_of(frames, direction), tail)
    &&& plan.fully_fixed == (tail_of(frames, direction) % 588 == 0 || tail is Pad)
}

/// Computes a [`FixPlan`] for `files`, taken in the order given.
///
/// Refuses the set if any file is not CD audio, or its length is not stated in its header:
/// repair has nothing to align for a file with no sector concept.
pub fn plan_fix(files: &[AudioFile], direction: BoundaryDirection, tail: TailPolicy) -> (r: Result<
    FixPlan,
    Error,
>)
    ensures
        match r {
            Ok(plan) => {
                &&& files.len() > 0
                &&& forall|i: int| 0 <= i < files.len() ==> plannable(#[trigger] files@[i].stream_info)
                &&& forall|i: int|
                    0 <= i < files.len() - 1 ==> !#[trigger] short_at(
                        frames_of(files@),
                        direction,
                        i,
                    )
                &&& is_plan(plan, frames_of(files@), direction, tail)
            },
            Err(e) => {
                ||| files.len() == 0 && e.is_malformed("<empty set>"@, "no files to plan a fix for"@)
                ||| exists|i: int|
                    {
                        &&& 0 <= i < files.len()
                        &&& forall|k: int| 0 <= k < i ==> plannable(#[trigger] files@[k].stream_info)
                        &&& !plannable(#[trigger] files@[i].stream_info)
                        &&& e.is_malformed(files@[i].path@, objection(files@[i].stream_info))
                    }
                ||| {
                    &&& forall|i: int|
                        0 <= i < files.len() ==> plannable(#[trigger] files@[i].stream_info)
                    &&& exists|i: int|
                        {
                            &&& 0 <= i < files.len() - 1
                            &&& forall|k: int|
                                0 <= k < i ==> !#[trigger] short_at(
                                    frames_of(files@),
                                    direction,
                                    k,
                                )
                            &&& #[trigger] short_at(frames_of(files@), direction, i)
                            &&& e.is_malformed(
                                files@[i + 1].path@,
                                too_short((-shift_at(frames_of(files@), direction, i)) as nat),
                            )
                        }
                }
            },
        },
{
    if files.len() == 0 {
        return Err(Error::malformed("<empty set>", "no files to plan a fix for"));
    }
    let ghost frames = frames_of(files@);
    let mut counts: Vec<u64> = Vec::new();
    let mut i: usize = 0;
    while i < files.len()
        invariant
            i <= files.len(),
            counts.len() == i,
            frames == frames_of(files@),
            forall|k: int| 0 <= k < i ==> plannable(#[trigger] files@[k].stream_info),
            forall|k: int| 0 <= k < i ==> #[trigger] counts@[k] == frames[k],
        decreases files.len() - i,
    {
        let f = &files[i];
        if !f.stream_info.is_cdda() {
            return Err(
                Error::malformed(
                    &f.path,
                    "not CD audio (44.1 kHz / 16-bit / stereo); sbe fix has nothing to align",
                ),
            );
        }
        match f.stream_info.total_frames {
            None => {
                return Err(
                    Error::malformed(
                        &f.path,
                        "frame count unknown; sbe fix has nothing to align",
                    ),
                );
            },
            Some(n) => {
                counts.push(n);
            },
        }
        i += 1;
    }

    let mut boundaries: Vec<BoundaryFix> = Vec::new();
    let mut shifted: i64 = 0;
    let mut i: usize = 0;
    while i + 1 < files.len()
        invariant
            i < files.len(),
            counts.len() == files.len(),
            frames == frames_of(files@),
            forall|k: int| 0 <= k < files.len() ==> plannable(#[trigger] files@[k].stream_info),
            forall|k: int| 0 <= k < files.len() ==> #[trigger] counts@[k] == frames[k],
            boundaries.len() == i,
            -588 < shifted < 588,
            shifted == shift_at(frames, direction, i - 1),
            counts@[i as int] + shifted >= 0,
            forall|k: int| 0 <= k < i ==> #[trigger] boundaries@[k].index == k,
            forall|k: int|
                0 <= k < i ==> (#[trigger] boundaries@[k]).shifted_frames == shift_at(
                    frames,
                    direction,
                    k,
                ),
            forall|k: int| 0 <= k < i ==> !#[trigger] short_at(frames, direction, k),
        decreases files.len() - i,
    {
        let held: i128 = counts[i] as i128 + shifted as i128;
        let over: i64 = (held % 588) as i64;
        let next: i64 = if over == 0 {
            0
        } else {
            match direction {
                BoundaryDirection::Backward => over,
                BoundaryDirection::Forward => over - 588,
                BoundaryDirection::Nearest => if 588 - over < over {
                    over - 588
                } else {
                    over
                },
            }
        };
        assert(next == shift_at(frames, direction, i as int));
        if counts[i + 1] as i128 + (next as i128) < 0 {
            let mut detail = "too short to lend ".to_owned();
            push_decimal(&mut detail, (-next) as u64);
            detail.append(" frames to the previous file's boundary fix");
            assert(short_at(frames, direction, i as int));
            return Err(Error::malformed(&files[i + 1].path, &detail));
        }
        assert(!short_at(frames, direction, i as int));
        boundaries.push(BoundaryFix { index: i, shifted_frames: next });
        shifted = next;
        i += 1;
    }

    let held: i128 = counts[i] as i128 + shifted as i128;
    let over: u64 = (held % 588) as u64;
    assert(held == tail_of(frames, direction));
    let (tail_padding_frames, fully_fixed) = if over == 0 {
        (None, true)
    } else {
        match tail {
            TailPolicy::Pad => (Some(588 - over), true),
            TailPolicy::Report => (None, false),
        }
    };
    Ok(FixPlan { boundaries, tail_padding_frames, fully_fixed })
}

/// How long file `i` is once the boundary shifts are made, without padding.
pub open spec fn new_frames(frames: Seq<int>, direction: BoundaryDirection, i: int) -> int {
    frames[i] + shift_at(frames, direction, i - 1) - if i < frames.len() - 1 {
        shift_at(frames, direction, i)
    } else {
        0
    }
}

/// All the lengths once the shifts are made.
pub open spec fn all_new_frames(frames: Seq<int>, direction: BoundaryDirection) -> Seq<int> {
    Seq::new(frames.len(), |i: int| new_frames(frames, direction, i))
}

pub open spec fn total(frames: Seq<int>) -> int
    decreases frames.len(),
{
    if frames.len() == 0 {
        0
    } else {
        total(frames.drop_last()) + frames.last()
    }
}

proof fn lemma_total_prefix(frames: Seq<int>, direction: BoundaryDirection, n: int)
    requires
        0 <= n < frames.len(),
    ensures
        total(all_new_frames(frames, direction).take(n)) == total(frames.take(n)) - shift_at(
            frames,
            direction,
            n - 1,
        ),
    decreases n,
{
    let new = all_new_frames(frames, direction);
    if n == 0 {
        assert(new.take(0) =~= Seq::<int>::empty());
        assert(frames.take(0) =~= Seq::<int>::empty());
    } else {
        lemma_total_prefix(frames, direction, n - 1);
        assert(new.take(n).drop_last() =~= new.take(n - 1));
        assert(frames.take(n).drop_last() =~= frames.take(n - 1));
    }
}

/// A repair reassigns frames, it adds and drops none: the lengths add up to what they added
/// up to before.
pub proof fn law_frames_are_conserved(frames: Seq<int>, direction: BoundaryDirection)
    requires
        frames.len() > 0,
    ensures
        total(all_new_frames(frames, direction)) == total(frames),
{
    let new = all_new_frames(frames, direction);
    let n = frames.len() - 1;
    lemma_total_prefix(frames, direction, n as int);
    assert(new.drop_last() =~= new.take(n as int));
    assert(frames.drop_last() =~= frames.take(n as int));
}

/// Every file but the last ends on a sector boundary, and `fully_fixed` says whether, with
/// the padding, the last one does too.
pub proof fn law_plan_aligns(
    plan: FixPlan,
    frames: Seq<int>,
    direction: BoundaryDirection,
    tail: TailPolicy,
)
    requires
        frames.len() > 0,
        is_plan(plan, frames, direction, tail),
    ensures
        forall|i: int|
            0 <= i < frames.len() - 1 ==> #[trigger] new_frames(frames, direction, i) % 588 == 0,
        plan.fully_fixed <==> (new_frames(frames, direction, frames.len() - 1) + plan.pad()) % 588
            == 0,
{
    assert forall|i: int| 0 <= i < frames.len() - 1 implies #[trigger] new_frames(
        frames,
        direction,
        i,
    ) % 588 == 0 by {
        let held = frames[i] + shift_at(frames, direction, i - 1);
        assert(shift_at(frames, direction, i) == shift_of(held, direction));
        lemma_shift_aligns(held, direction);
    }
}

/// Taking the shift off leaves a whole number of sectors.
proof fn lemma_shift_aligns(held: int, direction: BoundaryDirection)
    ensures
        (held - shift_of(held, direction)) % 588 == 0,
{
}

/// No file ends up with less than nothing.
pub proof fn law_lengths_stay_nonnegative(frames: Seq<int>, direction: BoundaryDirection)
    requires
        frames.len() > 0,
        forall|i: int| 0 <= i < frames.len() ==> #[trigger] frames[i] >= 0,
        forall|i: int| 0 <= i < frames.len() - 1 ==> !#[trigger] short_at(frames, direction, i),
    ensures
        forall|i: int|
            0 <= i < frames.len() ==> #[trigger] new_frames(frames, direction, i) >= 0,
{
    assert forall|i: int| 0 <= i < frames.len() implies #[trigger] new_frames(
        frames,
        direction,
        i,
    ) >= 0 by {
        let held = frames[i] + shift_at(frames, direction, i - 1);
        if i > 0 {
            assert(!short_at(frames, direction, i - 1));
        }
        assert(held >= 0);
        if i < frames.len() - 1 {
            assert(shift_at(frames, direction, i) == shift_of(held, direction));
            assert(held % 588 <= held) by {
                lemma_remainder_fits(held);
            }
        }
    }
}

proof fn lemma_remainder_fits(n: int)
    requires
        n >= 0,
    ensures
        n % 588 <= n,
{
}

/// A set whose files are all aligned needs nothing: nothing moves, nothing is added.
pub proof fn law_aligned_set_needs_nothing(
    plan: FixPlan,
    frames: Seq<int>,
    direction: BoundaryDirection,
    tail: TailPolicy,
)
    requires
        frames.len() > 0,
        is_plan(plan, frames, direction, tail),
        forall|i: int| 0 <= i < frames.len() ==> #[trigger] frames[i] % 588 == 0,
    ensures
        forall|i: int| 0 <= i < frames.len() ==> !#[trigger] plan.changes(i),
        plan.tail_padding_frames is None,
        plan.fully_fixed,
{
    assert forall|i: int| -1 <= i < frames.len() implies #[trigger] shift_at(frames, direction, i)
        == 0 by {
        lemma_no_shift(frames, direction, i);
    }
    assert(shift_at(frames, direction, frames.len() - 2) == 0);
    assert forall|i: int| 0 <= i < frames.len() implies !#[trigger] plan.changes(i) by {
        assert(plan.shift(i) == 0) by {
            if i < plan.boundaries@.len() {
                assert(plan.boundaries@[i].shifted_frames == shift_at(frames, direction, i));
            }
        }
        assert(plan.shift(i - 1) == 0) by {
            if i > 0 {
                assert(plan.boundaries@[i - 1].shifted_frames == shift_at(
                    frames,
                    direction,
                    i - 1,
                ));
            }
        }
    }
}

proof fn lemma_no_shift(frames: Seq<int>, direction: BoundaryDirection, i: int)
    requires
        -1 <= i < frames.len(),
        forall|k: int| 0 <= k < frames.len() ==> #[trigger] frames[k] % 588 == 0,
    ensures
        shift_at(frames, direction, i) == 0,
    decreases i + 1,
{
    if i >= 0 {
        lemma_no_shift(frames, direction, i - 1);
        assert(frames[i] % 588 == 0);
    }
}

/// Planning again after a repair moves nothing more.
pub proof fn law_replanning_moves_nothing(
    frames: Seq<int>,
    direction: BoundaryDirection,
    again: BoundaryDirection,
)
    requires
        frames.len() > 0,
    ensures
        forall|i: int|
            0 <= i < frames.len() - 1 ==> #[trigger] shift_at(
                all_new_frames(frames, direction),
                again,
                i,
            ) == 0,
{
    assert forall|i: int| 0 <= i < frames.len() - 1 implies #[trigger] shift_at(
        all_new_frames(frames, direction),
        again,
        i,
    ) == 0 by {
        lemma_replan(frames, direction, again, i);
    }
}

proof fn lemma_replan(
    frames: Seq<int>,
    direction: BoundaryDirection,
    again: BoundaryDirection,
    i: int,
)
    requires
        -1 <= i < frames.len() - 1,
    ensures
        shift_at(all_new_frames(frames, direction), again, i) == 0,
    decreases i + 1,
{
    if i >= 0 {
        lemma_replan(frames, direction, again, i - 1);
        lemma_shift_aligns(frames[i] + shift_at(frames, direction, i - 1), direction);
    }
}

/// `Nearest` never moves more than half a sector, nor more than either of the other two.
pub proof fn law_nearest_moves_least(frames: int, other: BoundaryDirection)
    ensures
        -294 < shift_of(frames, BoundaryDirection::Nearest) <= 294,
        ({
            let n = shift_of(frames, BoundaryDirection::Nearest);
            let o = shift_of(frames, other);
            (if n < 0 {
                -n
            } else {
                n
            }) <= (if o < 0 {
                -o
            } else {
                o
            })
        }),
{
}

/// What crosses a boundary: backward, what is over goes on to the next file; forward, what is
/// missing to the next sector comes from it; and either way less than a sector, and nothing
/// where the file ends on one.
pub proof fn law_less_than_a_sector_moves(frames: int, direction: BoundaryDirection)
    ensures
        (frames - shift_of(frames, direction)) % 588 == 0,
        direction is Backward ==> 0 <= shift_of(frames, direction) < 588,
        direction is Forward ==> -588 < shift_of(frames, direction) <= 0,
        frames % 588 == 0 ==> shift_of(frames, direction) == 0,
{
}

/// Silence is added only to the last file and only where that is asked for, less than a sector
/// of it, and then the whole set is aligned.
pub proof fn law_padding_completes_the_last_sector(
    plan: FixPlan,
    frames: Seq<int>,
    direction: BoundaryDirection,
    tail: TailPolicy,
)
    requires
        frames.len() > 0,
        is_plan(plan, frames, direction, tail),
    ensures
        plan.pad() < 588,
        tail is Pad ==> plan.fully_fixed && (new_frames(frames, direction, frames.len() - 1)
            + plan.pad()) % 588 == 0,
        !(tail is Pad) ==> plan.pad() == 0,
        plan.pad() == 0 ==> plan.tail_padding_frames is None,
{
}

} // verus!
