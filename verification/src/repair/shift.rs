//! Moving decoded audio across the boundaries of a set.

use super::plan::FixPlan;
use crate::error::Error;
use crate::model::AudioFile;
use crate::seqs;
use crate::text;
use crate::text::push_decimal;
use vstd::prelude::*;
use vstd::string::*;

verus! {

/// Moves `shifted_frames` between two interleaved sample buffers, `channels` values per
/// frame: positive, from the end of `a` to the start of `b`; negative, from the start of `b`
/// to the end of `a`.
pub fn move_boundary(a: &mut Vec<i32>, b: &mut Vec<i32>, shifted_frames: i64, channels: usize)
    requires
        shifted_frames * channels <= old(a)@.len(),
        -(shifted_frames * channels) <= old(b)@.len(),
    ensures
        final(a)@ + final(b)@ == old(a)@ + old(b)@,
        final(a)@.len() == old(a)@.len() - shifted_frames * channels,
{
    let ghost whole = a@ + b@;
    let held: (usize, usize) = (a.len(), b.len());
    if shifted_frames > 0 {
        proof {
            lemma_product_bounds(shifted_frames as int, channels as int);
        }
        let n: usize = (shifted_frames as u128 * channels as u128) as usize;
        let at: usize = held.0 - n;
        let mut tail = a.split_off(at);
        tail.append(b);
        *b = tail;
        assert(a@ + b@ =~= whole);
    } else if shifted_frames < 0 {
        proof {
            lemma_product_bounds(-shifted_frames as int, channels as int);
            assert((-shifted_frames) * channels == -(shifted_frames * channels))
                by (nonlinear_arith);
        }
        let n: usize = ((-(shifted_frames as i128)) as u128 * channels as u128) as usize;
        let rest = b.split_off(n);
        a.append(b);
        *b = rest;
        assert(a@ + b@ =~= whole);
    } else {
        assert(shifted_frames * channels == 0) by (nonlinear_arith)
            requires
                shifted_frames == 0,
        ;
    }
}

proof fn lemma_product_bounds(x: int, y: int)
    requires
        0 <= x <= 0x8000_0000_0000_0000,
        0 <= y <= 0xFFFF_FFFF_FFFF_FFFF,
    ensures
        0 <= x * y <= 0x7FFF_FFFF_FFFF_FFFF_8000_0000_0000_0000,
{
    assert(0 <= x * y <= 0x8000_0000_0000_0000 * 0xFFFF_FFFF_FFFF_FFFF) by (nonlinear_arith)
        requires
            0 <= x <= 0x8000_0000_0000_0000,
            0 <= y <= 0xFFFF_FFFF_FFFF_FFFF,
    ;
}

/// How many samples cross boundary `i`.
pub open spec fn moved(plan: FixPlan, channels: nat, i: int) -> int {
    plan.shift(i) * channels
}

/// Boundary `i` would move more audio than there is to move.
pub open spec fn overdrawn(plan: FixPlan, lens: Seq<nat>, channels: nat, i: int) -> bool {
    ||| moved(plan, channels, i) > lens[i] + moved(plan, channels, i - 1)
    ||| -moved(plan, channels, i) > lens[i + 1]
}

/// What is said where boundary `i` moves more than there is.
pub open spec fn overdraft(plan: FixPlan, i: int) -> Seq<char> {
    if plan.shift(i) > 0 {
        "cannot shift "@ + text::decimal(plan.shift(i) as nat)
            + " frames off a file whose decoded audio is shorter than its header claims"@
    } else {
        "cannot borrow "@ + text::decimal((-plan.shift(i)) as nat)
            + " frames from a file whose decoded audio is shorter than its header claims"@
    }
}

/// The lengths of the buffers.
pub open spec fn lengths<A>(parts: Seq<Seq<A>>) -> Seq<nat> {
    Seq::new(parts.len(), |i: int| parts[i].len())
}

/// Silence.
pub open spec fn silence(n: nat) -> Seq<i32> {
    Seq::new(n, |i: int| 0i32)
}

/// How long buffer `i` is once all shifts are made, without padding.
pub open spec fn shifted_len(plan: FixPlan, lens: Seq<nat>, channels: nat, i: int) -> int {
    lens[i] + moved(plan, channels, i - 1) - moved(plan, channels, i)
}

/// Makes every boundary shift of a plan, left to right, and pads the last buffer.
///
/// What the buffers hold, laid end to end, stays as it is, with the silence after it; only
/// where it is cut changes.
pub fn shift_buffers(
    files: &[AudioFile],
    buffers: Vec<Vec<i32>>,
    plan: &FixPlan,
    channels: usize,
) -> (r: Result<Vec<Vec<i32>>, Error>)
    requires
        buffers.len() > 0,
        files.len() == buffers.len(),
        plan.boundaries.len() == buffers.len() - 1,
        plan.wf(),
        channels > 0,
        plan.pad() * channels <= usize::MAX,
    ensures
        ({
            let before = seqs::nested(buffers@);
            let lens = lengths(before);
            match r {
                Ok(out) => {
                    let after = seqs::nested(out@);
                    &&& out.len() == buffers.len()
                    &&& seqs::concat(after) == seqs::concat(before) + silence(
                        plan.pad() * channels as nat,
                    )
                    &&& forall|i: int|
                        0 <= i < buffers.len() - 1 ==> (#[trigger] after[i]).len() == shifted_len(
                            *plan,
                            lens,
                            channels as nat,
                            i,
                        )
                    &&& forall|i: int|
                        0 <= i < buffers.len() - 1 ==> !#[trigger] overdrawn(
                            *plan,
                            lens,
                            channels as nat,
                            i,
                        )
                },
                Err(e) => exists|i: int|
                    {
                        &&& 0 <= i < buffers.len() - 1
                        &&& forall|k: int|
                            0 <= k < i ==> !#[trigger] overdrawn(*plan, lens, channels as nat, k)
                        &&& #[trigger] overdrawn(*plan, lens, channels as nat, i)
                        &&& e.is_malformed(
                            files@[if plan.shift(i) > 0 {
                                i
                            } else {
                                i + 1
                            }].path@,
                            overdraft(*plan, i),
                        )
                    },
            }
        }),
{
    let ghost before = seqs::nested(buffers@);
    let ghost lens = lengths(before);
    let ghost ch = channels as nat;
    let mut rest = buffers;
    let mut out: Vec<Vec<i32>> = Vec::new();
    proof {
        seqs::lemma_concat_first(before);
        assert(seqs::nested(rest@).drop_first() =~= seqs::nested(rest@.drop_first()));
    }
    let mut current: Vec<i32> = rest.remove(0);
    let mut i: usize = 0;
    proof {
        assert(seqs::nested(rest@) =~= before.drop_first());
        assert(seqs::nested(out@) =~= Seq::<Seq<i32>>::empty());
        assert(seqs::concat(seqs::nested(out@)) + current@ + seqs::concat(seqs::nested(rest@))
            =~= seqs::concat(before));
        assert(moved(*plan, ch, -1) == 0) by (nonlinear_arith)
            requires
                plan.shift(-1) == 0,
                moved(*plan, ch, -1) == plan.shift(-1) * ch,
        ;
    }
    while i < plan.boundaries.len()
        invariant
            i <= plan.boundaries.len(),
            before == seqs::nested(buffers@),
            plan.boundaries.len() == before.len() - 1,
            files.len() == before.len(),
            plan.wf(),
            ch == channels,
            lens == lengths(before),
            out.len() == i,
            rest.len() == before.len() - 1 - i,
            forall|k: int| 0 <= k < rest.len() ==> #[trigger] rest@[k]@ == before[i + 1 + k],
            seqs::concat(seqs::nested(out@)) + current@ + seqs::concat(seqs::nested(rest@))
                == seqs::concat(before),
            current@.len() == lens[i as int] + moved(*plan, ch, i - 1),
            forall|k: int|
                0 <= k < i ==> (#[trigger] out@[k])@.len() == shifted_len(*plan, lens, ch, k),
            forall|k: int| 0 <= k < i ==> !#[trigger] overdrawn(*plan, lens, ch, k),
        decreases plan.boundaries.len() - i,
    {
        let shifted: i64 = plan.boundaries[i].shifted_frames;
        let ghost m = moved(*plan, ch, i as int);
        proof {
            assert(rest@[0]@ == before[i + 1]);
            if shifted >= 0 {
                lemma_product_bounds(shifted as int, channels as int);
            } else {
                lemma_product_bounds(-shifted as int, channels as int);
                assert((-shifted) * channels == -(shifted * channels)) by (nonlinear_arith);
            }
        }
        let samples: i128 = shifted as i128 * channels as i128;
        assert(samples == m);
        if samples > current.len() as i128 {
            let mut detail = "cannot shift ".to_owned();
            proof {
                assert(shifted > 0) by (nonlinear_arith)
                    requires
                        shifted * channels > 0,
                        channels >= 0,
                ;
            }
            push_decimal(&mut detail, shifted as u64);
            detail.append(
                " frames off a file whose decoded audio is shorter than its header claims",
            );
            assert(overdrawn(*plan, lens, ch, i as int));
            return Err(Error::malformed(&files[i].path, &detail));
        }
        if -samples > rest[0].len() as i128 {
            let mut detail = "cannot borrow ".to_owned();
            proof {
                assert(shifted < 0) by (nonlinear_arith)
                    requires
                        shifted * channels < 0,
                        channels >= 0,
                ;
            }
            push_decimal(&mut detail, (-(shifted as i128)) as u64);
            detail.append(
                " frames from a file whose decoded audio is shorter than its header claims",
            );
            assert(overdrawn(*plan, lens, ch, i as int));
            return Err(Error::malformed(&files[i + 1].path, &detail));
        }
        assert(!overdrawn(*plan, lens, ch, i as int));
        let ghost done = seqs::nested(out@);
        let ghost waiting = seqs::nested(rest@);
        let ghost left = current@;
        proof {
            seqs::lemma_concat_first(waiting);
        }
        let mut next: Vec<i32> = rest.remove(0);
        move_boundary(&mut current, &mut next, shifted, channels);
        let ghost cut = current@;
        proof {
            assert(seqs::nested(rest@) =~= waiting.drop_first());
            seqs::lemma_concat_push(done, cut);
            let tail = seqs::concat(seqs::nested(rest@));
            assert(seqs::concat(done) + left + (waiting[0] + tail) =~= seqs::concat(done) + (left
                + waiting[0]) + tail);
            assert(seqs::concat(done) + (cut + next@) + tail =~= seqs::concat(done) + cut + next@
                + tail);
        }
        out.push(current);
        assert(seqs::nested(out@) =~= done.push(cut));
        current = next;
        i += 1;
    }
    let pad: u64 = match plan.tail_padding_frames {
        Some(n) => n,
        None => 0,
    };
    let ghost done = seqs::nested(out@);
    let ghost last = current@;
    assert(pad <= pad * channels) by (nonlinear_arith)
        requires
            channels > 0,
            pad >= 0,
    ;
    let zeros: usize = pad as usize * channels;
    let mut k: usize = 0;
    assert(last + silence(0) =~= last);
    while k < zeros
        invariant
            k <= zeros,
            current@ == last + silence(k as nat),
        decreases zeros - k,
    {
        current.push(0);
        k += 1;
        assert(current@ =~= last + silence(k as nat));
    }
    let ghost end = current@;
    out.push(current);
    proof {
        assert(seqs::nested(out@) =~= done.push(end));
        seqs::lemma_concat_push(done, end);
        assert(seqs::nested(rest@) =~= Seq::<Seq<i32>>::empty());
        assert(seqs::concat(done) + last + Seq::<i32>::empty() =~= seqs::concat(done) + last);
        assert(seqs::concat(done) + (last + silence(zeros as nat)) =~= seqs::concat(done) + last
            + silence(zeros as nat));
    }
    Ok(out)
}

} // verus!
