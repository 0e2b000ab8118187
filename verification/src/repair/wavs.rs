//! Repairing a set of WAVs. Nothing is decoded: a frame is a few bytes of a `data` chunk, so
//! the fixed set's audio, laid end to end, is the original set's cut at the new lengths, and
//! the tail's silence is zero bytes.

use super::plan::FixPlan;
use super::ranges;
use super::ranges::data_ranges;
use crate::bytes;
use crate::bytes::{push_all, push_range, push_zeros, same_md5};
use crate::digest;
use crate::digest::{hex_encode, md5_of};
use crate::error::Error;
use crate::format::wav;
use crate::format::wav::{read_chunks, write_chunks, WavChunks};
use crate::model::AudioFile;
use crate::seqs;
use crate::text;
use crate::text::push_decimal;
use std::ops::Range;
use vstd::prelude::*;
use vstd::string::*;

verus! {

/// The audio of each file.
pub open spec fn audio(chunks: Seq<WavChunks>) -> Seq<Seq<u8>> {
    chunks.map_values(|c: WavChunks| c.data@)
}

/// What is said of audio that ends in the middle of a frame.
pub open spec fn broken_frames(len: nat, frame: nat) -> Seq<char> {
    "its data chunk ("@ + text::decimal(len) + " bytes) is not a whole number of "@
        + text::decimal(frame) + "-byte frames"@
}

/// Whether a file can be taken apart and holds whole frames.
pub open spec fn usable(file: Seq<u8>, frame: nat) -> bool {
    wav::parse(file) matches Ok((_, offset, len)) && offset + len <= file.len() && len % (
    frame as int) == 0
}

/// What is said of a file that cannot be used.
pub open spec fn is_objection(e: Error, path: Seq<char>, file: Seq<u8>, frame: nat) -> bool {
    match wav::parse(file) {
        Err(f) => wav::is_fault(e, path, f),
        Ok((_, offset, len)) => if offset + len > file.len() {
            wav::is_fault(e, path, wav::Fault::Short)
        } else {
            e.is_malformed(path, broken_frames(len as nat, frame))
        },
    }
}

/// Takes every file of a set apart; the first that cannot be used is what is reported.
pub fn read_wav_set(files: &[AudioFile], raw: &[Vec<u8>], bytes_per_frame: u32) -> (r: Result<
    Vec<WavChunks>,
    Error,
>)
    requires
        files.len() == raw.len(),
        bytes_per_frame > 0,
    ensures
        match r {
            Ok(chunks) => {
                &&& chunks.len() == raw.len()
                &&& forall|i: int|
                    0 <= i < raw.len() ==> (#[trigger] chunks@[i]).parts_of(raw@[i]@) && usable(
                        raw@[i]@,
                        bytes_per_frame as nat,
                    )
            },
            Err(e) => exists|i: int|
                {
                    &&& 0 <= i < raw.len()
                    &&& forall|k: int|
                        0 <= k < i ==> usable(#[trigger] raw@[k]@, bytes_per_frame as nat)
                    &&& !usable(#[trigger] raw@[i]@, bytes_per_frame as nat)
                    &&& is_objection(e, files@[i].path@, raw@[i]@, bytes_per_frame as nat)
                },
        },
{
    let mut chunks: Vec<WavChunks> = Vec::new();
    let mut i: usize = 0;
    while i < raw.len()
        invariant
            i <= raw.len(),
            files.len() == raw.len(),
            bytes_per_frame > 0,
            chunks.len() == i,
            forall|k: int|
                0 <= k < i ==> (#[trigger] chunks@[k]).parts_of(raw@[k]@) && usable(
                    raw@[k]@,
                    bytes_per_frame as nat,
                ),
        decreases raw.len() - i,
    {
        assert forall|k: int| 0 <= k < i implies usable(
            #[trigger] raw@[k]@,
            bytes_per_frame as nat,
        ) by {
            assert(chunks@[k].parts_of(raw@[k]@));
        }
        match read_chunks(&files[i].path, &raw[i]) {
            Err(e) => {
                assert(!usable(raw@[i as int]@, bytes_per_frame as nat));
                return Err(e);
            },
            Ok(c) => {
                if c.layout.data_len % bytes_per_frame as u64 != 0 {
                    let mut detail = "its data chunk (".to_owned();
                    push_decimal(&mut detail, c.layout.data_len);
                    detail.append(" bytes) is not a whole number of ");
                    push_decimal(&mut detail, bytes_per_frame as u64);
                    detail.append("-byte frames");
                    assert(!usable(raw@[i as int]@, bytes_per_frame as nat));
                    return Err(Error::malformed(&files[i].path, &detail));
                }
                chunks.push(c);
            },
        }
        i += 1;
    }
    Ok(chunks)
}

/// How many frames file `i` holds once the plan is carried out, without padding.
pub open spec fn planned_frames(plan: FixPlan, data: Seq<Seq<u8>>, frame: nat, i: int) -> int {
    data[i].len() as int / frame as int + plan.shift(i - 1) - plan.shift(i)
}

/// Where the audio of file `i` ends in the whole set's, once the plan is carried out: where
/// it ended before, less what crosses the boundary.
pub open spec fn cut_after(plan: FixPlan, data: Seq<Seq<u8>>, frame: nat, i: int) -> int {
    seqs::concat(data.take(i + 1)).len() - plan.shift(i) * frame
}

/// The planned audio of file `i`: its share of the whole set's audio, and the silence after
/// the last file's.
pub open spec fn planned_audio(plan: FixPlan, data: Seq<Seq<u8>>, frame: nat, i: int) -> Seq<u8> {
    seqs::concat(data).subrange(
        cut_after(plan, data, frame, i - 1),
        cut_after(plan, data, frame, i),
    ) + bytes::zeros(
        if i == data.len() - 1 {
            plan.pad() * frame
        } else {
            0
        },
    )
}

/// Whether a set's audio and the silence after it can be counted in 64 bits.
pub open spec fn countable(plan: FixPlan, data: Seq<Seq<u8>>, frame: nat) -> bool {
    seqs::concat(data).len() + plan.pad() * frame <= u64::MAX
}

pub open spec fn overdrawn_text() -> Seq<char> {
    "cannot shift more frames across its edges than its data chunk holds; its header claims more audio than it has"@
}

/// The lengths of a set's audio once a plan is carried out.
pub open spec fn is_new_lens(plan: FixPlan, data: Seq<Seq<u8>>, frame: nat, lens: Seq<u64>) -> bool {
    &&& lens.len() == data.len()
    &&& forall|i: int|
        0 <= i < lens.len() ==> #[trigger] lens[i] == planned_frames(plan, data, frame, i) * frame
}

/// The planned lengths add up to where the cuts are.
proof fn lemma_new_lens_sum(
    plan: FixPlan,
    data: Seq<Seq<u8>>,
    frame: nat,
    lens: Seq<u64>,
    n: int,
)
    requires
        frame > 0,
        0 <= n <= data.len(),
        is_new_lens(plan, data, frame, lens),
        forall|i: int| 0 <= i < data.len() ==> (#[trigger] data[i]).len() as int % (frame as int) == 0,
    ensures
        ranges::sum_to(lens, n) == cut_after(plan, data, frame, n - 1),
    decreases n,
{
    if n == 0 {
        assert(data.take(0) =~= Seq::<Seq<u8>>::empty());
        assert(plan.shift(-1) * frame == 0) by (nonlinear_arith)
            requires
                plan.shift(-1) == 0,
        ;
    } else {
        lemma_new_lens_sum(plan, data, frame, lens, n - 1);
        let i = n - 1;
        assert(data.take(n).drop_last() =~= data.take(n - 1));
        assert(data.take(n).last() == data[i]);
        let whole = data[i].len() as int / frame as int;
        assert(data[i].len() as int % (frame as int) == 0);
        assert(whole * frame == data[i].len()) by (nonlinear_arith)
            requires
                frame > 0,
                whole == data[i].len() as int / frame as int,
                data[i].len() as int % (frame as int) == 0,
        ;
        assert(lens[i] == planned_frames(plan, data, frame, i) * frame);
        let into = plan.shift(i - 1);
        let out = plan.shift(i);
        assert((whole + into - out) * frame == whole * frame + into * frame - out * frame)
            by (nonlinear_arith);
    }
}

proof fn lemma_source_sum(data: Seq<Seq<u8>>, src: Seq<u64>, n: int)
    requires
        ranges::have_lens(data, src),
        0 <= n <= data.len(),
    ensures
        ranges::sum_to(src, n) == seqs::concat(data.take(n)).len(),
    decreases n,
{
    if n == 0 {
        assert(data.take(0) =~= Seq::<Seq<u8>>::empty());
    } else {
        lemma_source_sum(data, src, n - 1);
        assert(data.take(n).drop_last() =~= data.take(n - 1));
        assert(data.take(n).last() == data[n - 1]);
    }
}

/// The length of every file's audio once the plan is carried out; refuses a plan that moves
/// more than there is.
pub fn new_lengths(
    files: &[AudioFile],
    plan: &FixPlan,
    chunks: &Vec<WavChunks>,
    bytes_per_frame: u32,
) -> (r: Result<Vec<u64>, Error>)
    requires
        chunks.len() > 0,
        files.len() == chunks.len(),
        plan.boundaries.len() == chunks.len() - 1,
        whole_frames(audio(chunks@), bytes_per_frame as nat),
        countable(*plan, audio(chunks@), bytes_per_frame as nat),
    ensures
        ({
            let data = audio(chunks@);
            let frame = bytes_per_frame as nat;
            match r {
                Ok(lens) => is_new_lens(*plan, data, frame, lens@),
                Err(e) => exists|i: int|
                    {
                        &&& 0 <= i < data.len()
                        &&& forall|k: int|
                            0 <= k < i ==> #[trigger] planned_frames(*plan, data, frame, k) >= 0
                        &&& #[trigger] planned_frames(*plan, data, frame, i) < 0
                        &&& e.is_malformed(files@[i].path@, overdrawn_text())
                    },
            }
        }),
{
    let ghost data = audio(chunks@);
    let ghost frame = bytes_per_frame as nat;
    let mut frames: Vec<i128> = Vec::new();
    let mut i: usize = 0;
    while i < chunks.len()
        invariant
            i <= chunks.len(),
            files.len() == chunks.len(),
            plan.boundaries.len() == chunks.len() - 1,
            0 < bytes_per_frame,
            frame == bytes_per_frame,
            data == audio(chunks@),
            frames.len() == i,
            forall|k: int|
                0 <= k < i ==> #[trigger] planned_frames(*plan, data, frame, k) == frames@[k],
            forall|k: int| 0 <= k < i ==> #[trigger] planned_frames(*plan, data, frame, k) >= 0,
        decreases chunks.len() - i,
    {
        assert(data[i as int] == chunks@[i as int].data@);
        let held: u64 = chunks[i].data.len() as u64 / bytes_per_frame as u64;
        let n: i128 = held as i128 + plan.shifted_in(i) as i128 - plan.shifted_out(i) as i128;
        assert(n == planned_frames(*plan, data, frame, i as int));
        if n < 0 {
            return Err(
                Error::malformed(
                    &files[i].path,
                    "cannot shift more frames across its edges than its data chunk holds; its header claims more audio than it has",
                ),
            );
        }
        frames.push(n);
        i += 1;
    }
    proof {
        lemma_cuts_ordered(*plan, data, frame);
    }
    let mut lens: Vec<u64> = Vec::new();
    let mut i: usize = 0;
    while i < frames.len()
        invariant
            i <= frames.len(),
            frames.len() == data.len(),
            0 < bytes_per_frame,
            frame == bytes_per_frame,
            whole_frames(data, frame),
            countable(*plan, data, frame),
            forall|k: int|
                0 <= k < data.len() ==> #[trigger] planned_frames(*plan, data, frame, k)
                    == frames@[k],
            forall|k: int|
                0 <= k < data.len() ==> #[trigger] planned_frames(*plan, data, frame, k) >= 0,
            forall|k: int|
                0 <= k < data.len() ==> 0 <= #[trigger] cut_after(*plan, data, frame, k - 1)
                    <= cut_after(*plan, data, frame, k) <= seqs::concat(data).len(),
            lens.len() == i,
            forall|k: int|
                0 <= k < i ==> #[trigger] lens@[k] == planned_frames(*plan, data, frame, k)
                    * frame,
        decreases frames.len() - i,
    {
        proof {
            let n = planned_frames(*plan, data, frame, i as int);
            lemma_cut_step(*plan, data, frame, i as int);
            assert(0 <= cut_after(*plan, data, frame, i - 1));
            assert(plan.pad() * frame >= 0) by (nonlinear_arith);
            assert(n <= n * frame) by (nonlinear_arith)
                requires
                    n >= 0,
                    frame > 0,
            ;
        }
        lens.push(frames[i] as u64 * bytes_per_frame as u64);
        i += 1;
    }
    Ok(lens)
}

/// The bytes that the ranges pick out of the files' audio.
fn gather(chunks: &Vec<WavChunks>, picks: &Vec<(usize, Range<u64>)>, Ghost(from): Ghost<int>, Ghost(to): Ghost<int>, Ghost(src): Ghost<Seq<u64>>) -> (out:
    Vec<u8>)
    requires
        ranges::have_lens(audio(chunks@), src),
        ranges::leads(src, picks@, from, to),
    ensures
        out@ == ranges::picked(audio(chunks@), picks@),
{
    let mut out: Vec<u8> = Vec::new();
    let mut k: usize = 0;
    let ghost data = audio(chunks@);
    while k < picks.len()
        invariant
            k <= picks.len(),
            data == audio(chunks@),
            ranges::have_lens(data, src),
            ranges::leads(src, picks@, from, to),
            out@ == ranges::picked(data, picks@.take(k as int)),
        decreases picks.len() - k,
    {
        proof {
            lemma_leads_prefix(src, picks@, from, to, k as int + 1);
            assert(picks@.take(k as int + 1).drop_last() =~= picks@.take(k as int));
            assert(picks@.take(k as int + 1).last() == picks@[k as int]);
        }
        let pick = &picks[k];
        let j: usize = pick.0;
        let start: u64 = pick.1.start;
        let end: u64 = pick.1.end;
        assert(data[j as int] == chunks@[j as int].data@);
        let len: usize = chunks[j].data.len();
        push_range(&mut out, &chunks[j].data, start as usize, end as usize);
        k += 1;
    }
    assert(picks@.take(picks@.len() as int) =~= picks@);
    out
}

proof fn lemma_leads_prefix(
    src: Seq<u64>,
    picks: Seq<(usize, Range<u64>)>,
    from: int,
    to: int,
    n: int,
)
    requires
        ranges::leads(src, picks, from, to),
        1 <= n <= picks.len(),
    ensures
        picks[n - 1].0 < src.len(),
        picks[n - 1].1.start < picks[n - 1].1.end <= src[picks[n - 1].0 as int],
    decreases picks.len(),
{
    if n < picks.len() {
        let (j, range) = picks.last();
        lemma_leads_prefix(
            src,
            picks.drop_last(),
            from,
            ranges::place(src, j as int, range.start as int),
            n,
        );
        assert(picks.drop_last()[n - 1] == picks[n - 1]);
    }
}

/// Whether every planned file can be addressed by WAV's 32-bit lengths.
pub open spec fn fits(plan: FixPlan, chunks: Seq<WavChunks>, frame: nat, i: int) -> bool {
    wav::rebuilt_len(
        chunks[i].head@,
        planned_audio(plan, audio(chunks), frame, i),
        chunks[i].tail@,
    ) <= wav::MAX_WAV_DATA
}

/// The repaired files of a set of WAVs: each is its own source with its share of the whole
/// set's audio in place of its own.
pub fn write_wav_set(
    files: &[AudioFile],
    plan: &FixPlan,
    dsts: &[String],
    chunks: &Vec<WavChunks>,
    bytes_per_frame: u32,
) -> (r: Result<Vec<Vec<u8>>, Error>)
    requires
        chunks.len() > 0,
        files.len() == chunks.len(),
        dsts.len() == chunks.len(),
        plan.boundaries.len() == chunks.len() - 1,
        whole_frames(audio(chunks@), bytes_per_frame as nat),
        countable(*plan, audio(chunks@), bytes_per_frame as nat),
    ensures
        ({
            let data = audio(chunks@);
            let frame = bytes_per_frame as nat;
            match r {
                Ok(out) => {
                    &&& out.len() == chunks.len()
                    &&& forall|i: int|
                        0 <= i < data.len() ==> #[trigger] planned_frames(*plan, data, frame, i)
                            >= 0
                    &&& forall|i: int|
                        0 <= i < out.len() ==> #[trigger] fits(*plan, chunks@, frame, i)
                    &&& forall|i: int|
                        0 <= i < out.len() ==> (#[trigger] out@[i])@ == wav::rebuilt(
                            chunks@[i].head@,
                            planned_audio(*plan, data, frame, i),
                            chunks@[i].tail@,
                        )
                },
                Err(e) => {
                    ||| exists|i: int|
                        {
                            &&& 0 <= i < data.len()
                            &&& forall|k: int|
                                0 <= k < i ==> #[trigger] planned_frames(*plan, data, frame, k)
                                    >= 0
                            &&& #[trigger] planned_frames(*plan, data, frame, i) < 0
                            &&& e.is_malformed(files@[i].path@, overdrawn_text())
                        }
                    ||| {
                        &&& forall|i: int|
                            0 <= i < data.len() ==> #[trigger] planned_frames(
                                *plan,
                                data,
                                frame,
                                i,
                            ) >= 0
                        &&& exists|i: int|
                            {
                                &&& 0 <= i < data.len()
                                &&& forall|k: int|
                                    0 <= k < i ==> #[trigger] fits(*plan, chunks@, frame, k)
                                &&& !#[trigger] fits(*plan, chunks@, frame, i)
                                &&& (e matches Error::Io { path, source } && path@ == dsts@[i]@
                                    && source@
                                    == "audio exceeds the 4 GiB a WAV file can address"@)
                            }
                    }
                },
            }
        }),
{
    let ghost data = audio(chunks@);
    let ghost frame = bytes_per_frame as nat;
    let new_lens = match new_lengths(files, plan, chunks, bytes_per_frame) {
        Ok(l) => l,
        Err(e) => {
            return Err(e);
        },
    };
    let mut src_lens: Vec<u64> = Vec::new();
    let mut i: usize = 0;
    while i < chunks.len()
        invariant
            i <= chunks.len(),
            src_lens.len() == i,
            data == audio(chunks@),
            forall|k: int| 0 <= k < i ==> #[trigger] src_lens@[k] == data[k].len(),
        decreases chunks.len() - i,
    {
        assert(data[i as int] == chunks@[i as int].data@);
        src_lens.push(chunks[i].data.len() as u64);
        i += 1;
    }
    let ghost src = src_lens@;
    let ghost n = data.len() as int;
    assert forall|k: int| 0 <= k < n implies (#[trigger] data[k]).len() == src[k] by {
        assert(src[k] == data[k].len());
    }
    assert(ranges::have_lens(data, src));
    proof {
        lemma_new_lens_sum(*plan, data, frame, new_lens@, n);
        lemma_source_sum(data, src, n);
        assert(data.take(n) =~= data);
        assert(plan.shift(n - 1) * frame == 0) by (nonlinear_arith)
            requires
                plan.shift(n - 1) == 0,
        ;
        assert forall|k: int| 0 <= k < n implies #[trigger] planned_frames(*plan, data, frame, k)
            >= 0 by {
            let p = planned_frames(*plan, data, frame, k);
            assert(new_lens@[k] == p * frame);
            assert(p >= 0) by (nonlinear_arith)
                requires
                    p * frame >= 0,
                    frame > 0,
            ;
        }
    }
    let picks = data_ranges(&src_lens, &new_lens);
    let pad_frames: u64 = match plan.tail_padding_frames {
        Some(p) => p,
        None => 0,
    };
    assert(pad_frames <= pad_frames * bytes_per_frame) by (nonlinear_arith)
        requires
            bytes_per_frame > 0,
            pad_frames >= 0,
    ;
    let pad_len: u64 = pad_frames * bytes_per_frame as u64;
    let mut out: Vec<Vec<u8>> = Vec::new();
    let mut i: usize = 0;
    while i < chunks.len()
        invariant
            i <= chunks.len(),
            dsts.len() == chunks.len(),
            picks.len() == chunks.len(),
            data == audio(chunks@),
            frame == bytes_per_frame,
            n == data.len(),
            n == chunks.len(),
            pad_len == plan.pad() * frame,
            ranges::have_lens(data, src),
            src == src_lens@,
            is_new_lens(*plan, data, frame, new_lens@),
            0 < frame,
            forall|k: int|
                0 <= k < n ==> (#[trigger] data[k]).len() as int % (frame as int) == 0,
            forall|k: int| 0 <= k < n ==> #[trigger] planned_frames(*plan, data, frame, k) >= 0,
            forall|k: int|
                0 <= k < picks.len() ==> ranges::leads(
                    src,
                    (#[trigger] picks@[k])@,
                    ranges::sum_to(new_lens@, k),
                    ranges::sum_to(new_lens@, k + 1),
                ),
            ranges::sum_to(new_lens@, n) == seqs::concat(data).len(),
            out.len() == i,
            forall|k: int| 0 <= k < i ==> #[trigger] fits(*plan, chunks@, frame, k),
            forall|k: int|
                0 <= k < i ==> (#[trigger] out@[k])@ == wav::rebuilt(
                    chunks@[k].head@,
                    planned_audio(*plan, data, frame, k),
                    chunks@[k].tail@,
                ),
        decreases chunks.len() - i,
    {
        let ghost from = ranges::sum_to(new_lens@, i as int);
        let ghost to = ranges::sum_to(new_lens@, i + 1);
        let mut new_data = gather(chunks, &picks[i], Ghost(from), Ghost(to), Ghost(src));
        proof {
            ranges::lemma_sum_monotone(new_lens@, i as int, n);
            ranges::law_ranges_pick_what_they_span(data, src, picks@[i as int]@, from, to);
            lemma_new_lens_sum(*plan, data, frame, new_lens@, i as int);
            lemma_new_lens_sum(*plan, data, frame, new_lens@, i + 1);
        }
        if i + 1 == chunks.len() {
            if pad_len > wav::MAX_WAV_DATA {
                assert(!fits(*plan, chunks@, frame, i as int));
                return Err(
                    Error::io(&dsts[i], "audio exceeds the 4 GiB a WAV file can address"),
                );
            }
            push_zeros(&mut new_data, pad_len as usize);
        } else {
            assert(new_data@ + bytes::zeros(0) =~= new_data@);
        }
        assert(new_data@ =~= planned_audio(*plan, data, frame, i as int));
        match write_chunks(&chunks[i], &new_data) {
            Ok(file) => {
                assert(fits(*plan, chunks@, frame, i as int));
                out.push(file);
            },
            Err(said) => {
                assert(!fits(*plan, chunks@, frame, i as int));
                return Err(Error::io(&dsts[i], &said));
            },
        }
        i += 1;
    }
    Ok(out)
}

/// MD5 of the audio of a set of WAVs laid end to end.
pub fn wav_set_md5(chunks: &Vec<WavChunks>) -> (d: [u8; 16])
    ensures
        d@ == digest::md5_digest(seqs::concat(audio(chunks@))),
{
    let mut all: Vec<u8> = Vec::new();
    let mut i: usize = 0;
    let ghost data = audio(chunks@);
    while i < chunks.len()
        invariant
            i <= chunks.len(),
            data == audio(chunks@),
            all@ == seqs::concat(data.take(i as int)),
        decreases chunks.len() - i,
    {
        assert(data.take(i as int + 1).drop_last() =~= data.take(i as int));
        push_all(&mut all, &chunks[i].data);
        i += 1;
    }
    assert(data.take(data.len() as int) =~= data);
    md5_of(&all)
}

/// What is said where the audio that was written is not the audio that was read.
pub open spec fn mismatch_text(before: Seq<u8>, after: Seq<u8>) -> Seq<char> {
    "round-trip audio MD5 mismatch after repair (before "@ + digest::hex_text(before) + ", after "@
        + digest::hex_text(after) + "); nothing was committed"@
}

pub open spec fn chunks_differ_text() -> Seq<char> {
    "its chunks besides data differ from the original's after repair; nothing was committed"@
}

/// The error for a round trip that did not give the audio back.
pub fn mismatch(dst: &str, before: &[u8; 16], after: &[u8; 16]) -> (e: Error)
    ensures
        e.is_malformed(dst@, mismatch_text(before@, after@)),
{
    let mut detail = "round-trip audio MD5 mismatch after repair (before ".to_owned();
    detail.append(&hex_encode(before));
    detail.append(", after ");
    detail.append(&hex_encode(after));
    detail.append("); nothing was committed");
    Error::malformed(dst, &detail)
}

/// The audio of a staged file without the silence that was added to the last one.
pub open spec fn kept(audio: Seq<u8>, pad: nat, is_last: bool) -> Seq<u8> {
    if is_last && pad <= audio.len() {
        audio.take(audio.len() - pad)
    } else if is_last {
        Seq::empty()
    } else {
        audio
    }
}

/// The audio that a staged file holds.
pub open spec fn staged_audio(file: Seq<u8>) -> Seq<u8> {
    match wav::parse(file) {
        Ok((_, offset, len)) => file.subrange(offset, offset + len),
        Err(_) => Seq::empty(),
    }
}

/// What the staged files hold between them, the silence left out.
pub open spec fn staged_whole(staged: Seq<Vec<u8>>, pad: nat) -> Seq<u8> {
    seqs::concat(
        Seq::new(
            staged.len(),
            |i: int| kept(staged_audio(staged[i]@), pad, i == staged.len() - 1),
        ),
    )
}

/// A staged file can be taken apart, and holds its source's other chunks.
pub open spec fn staged_well(file: Seq<u8>, source: WavChunks) -> bool {
    wav::parse(file) matches Ok((_, offset, len)) && {
        &&& 20 <= offset
        &&& offset + len <= file.len()
        &&& file.subrange(12, offset - 8) == source.head@
        &&& wav::rest_from(file, offset + len + len % 2) == source.tail@
    }
}

/// What is said of a staged file that is not as it should be: one that cannot be taken apart
/// is named as it stands, and one whose chunks differ by where it was to go.
pub open spec fn is_staging_fault(
    e: Error,
    temp: Seq<char>,
    dst: Seq<char>,
    file: Seq<u8>,
) -> bool {
    match wav::parse(file) {
        Err(f) => wav::is_fault(e, temp, f),
        Ok((_, offset, len)) => if offset + len > file.len() {
            wav::is_fault(e, temp, wav::Fault::Short)
        } else {
            e.is_malformed(dst, chunks_differ_text())
        },
    }
}

/// The check on what was staged: every file holds its source's other chunks, and all the
/// audio, laid end to end without the added silence, has the MD5 that the set's audio had
/// before. Gives each file's own audio MD5. `temps` is where the staged files stand, and
/// `dsts` where they are to go.
pub fn check_wav_set(
    plan: &FixPlan,
    temps: &[String],
    dsts: &[String],
    chunks: &Vec<WavChunks>,
    staged: &Vec<Vec<u8>>,
    bytes_per_frame: u32,
    before: &[u8; 16],
) -> (r: Result<Vec<[u8; 16]>, Error>)
    requires
        chunks.len() > 0,
        temps.len() == chunks.len(),
        dsts.len() == chunks.len(),
        staged.len() == chunks.len(),
        plan.pad() * bytes_per_frame <= u64::MAX,
    ensures
        ({
            let pad = plan.pad() * bytes_per_frame as nat;
            let after = digest::md5_digest(staged_whole(staged@, pad));
            match r {
                Ok(md5s) => {
                    &&& forall|i: int|
                        0 <= i < staged.len() ==> staged_well(
                            (#[trigger] staged@[i])@,
                            chunks@[i],
                        )
                    &&& after == before@
                    &&& md5s.len() == staged.len()
                    &&& forall|i: int|
                        0 <= i < md5s.len() ==> (#[trigger] md5s@[i])@ == digest::md5_digest(
                            staged_audio(staged@[i]@),
                        )
                },
                Err(e) => {
                    ||| exists|i: int|
                        {
                            &&& 0 <= i < staged.len()
                            &&& forall|k: int|
                                0 <= k < i ==> staged_well((#[trigger] staged@[k])@, chunks@[k])
                            &&& !staged_well((#[trigger] staged@[i])@, chunks@[i])
                            &&& is_staging_fault(e, temps@[i]@, dsts@[i]@, staged@[i]@)
                        }
                    ||| {
                        &&& forall|i: int|
                            0 <= i < staged.len() ==> staged_well(
                                (#[trigger] staged@[i])@,
                                chunks@[i],
                            )
                        &&& after != before@
                        &&& e.is_malformed(dsts@[0]@, mismatch_text(before@, after))
                    }
                },
            }
        }),
{
    let ghost pad = plan.pad() * bytes_per_frame as nat;
    let pad_frames: u64 = match plan.tail_padding_frames {
        Some(p) => p,
        None => 0,
    };
    let pad_len: u64 = pad_frames * bytes_per_frame as u64;
    let ghost parts = Seq::new(
        staged@.len(),
        |i: int| kept(staged_audio(staged@[i]@), pad, i == staged@.len() - 1),
    );
    let mut whole: Vec<u8> = Vec::new();
    let mut md5s: Vec<[u8; 16]> = Vec::new();
    let mut i: usize = 0;
    while i < staged.len()
        invariant
            i <= staged.len(),
            chunks.len() == staged.len(),
            temps.len() == staged.len(),
            dsts.len() == staged.len(),
            pad_len == pad,
            parts == Seq::new(
                staged@.len(),
                |i: int| kept(staged_audio(staged@[i]@), pad, i == staged@.len() - 1),
            ),
            whole@ == seqs::concat(parts.take(i as int)),
            md5s.len() == i,
            forall|k: int|
                0 <= k < i ==> staged_well((#[trigger] staged@[k])@, chunks@[k]),
            forall|k: int|
                0 <= k < i ==> (#[trigger] md5s@[k])@ == digest::md5_digest(
                    staged_audio(staged@[k]@),
                ),
        decreases staged.len() - i,
    {
        let found = match read_chunks(&temps[i], &staged[i]) {
            Ok(c) => c,
            Err(e) => {
                assert(!staged_well(staged@[i as int]@, chunks@[i as int]));
                return Err(e);
            },
        };
        if !found.same_chunks_besides_data(&chunks[i]) {
            assert(!staged_well(staged@[i as int]@, chunks@[i as int]));
            return Err(
                Error::malformed(
                    &dsts[i],
                    "its chunks besides data differ from the original's after repair; nothing was committed",
                ),
            );
        }
        let n: usize = found.data.len();
        let keep: usize = if i + 1 == staged.len() {
            if pad_len <= n as u64 {
                n - pad_len as usize
            } else {
                0
            }
        } else {
            n
        };
        proof {
            assert(found.data@ == staged_audio(staged@[i as int]@));
            assert(found.data@.subrange(0, keep as int) =~= parts[i as int]);
            assert(parts.take(i as int + 1).drop_last() =~= parts.take(i as int));
        }
        push_range(&mut whole, &found.data, 0, keep);
        md5s.push(md5_of(&found.data));
        i += 1;
    }
    assert(parts.take(parts.len() as int) =~= parts);
    let after = md5_of(&whole);
    if !same_md5(&after, before) {
        return Err(mismatch(&dsts[0], before, &after));
    }
    Ok(md5s)
}

/// Every file's audio is a whole number of frames.
pub open spec fn whole_frames(data: Seq<Seq<u8>>, frame: nat) -> bool {
    &&& frame > 0
    &&& forall|i: int| 0 <= i < data.len() ==> (#[trigger] data[i]).len() as int % (frame as int) == 0
}

proof fn lemma_cut_step(plan: FixPlan, data: Seq<Seq<u8>>, frame: nat, i: int)
    requires
        0 <= i < data.len(),
        whole_frames(data, frame),
    ensures
        cut_after(plan, data, frame, i) == cut_after(plan, data, frame, i - 1) + planned_frames(
            plan,
            data,
            frame,
            i,
        ) * frame,
{
    assert(data.take(i + 1).drop_last() =~= data.take(i));
    assert(data.take(i + 1).last() == data[i]);
    let whole = data[i].len() as int / frame as int;
    assert(whole * frame == data[i].len()) by (nonlinear_arith)
        requires
            frame > 0,
            whole == data[i].len() as int / frame as int,
            data[i].len() as int % (frame as int) == 0,
    ;
    let into = plan.shift(i - 1);
    let out = plan.shift(i);
    assert((whole + into - out) * frame == whole * frame + into * frame - out * frame)
        by (nonlinear_arith);
}

/// The cuts come in order, from the start of the whole to its end.
proof fn lemma_cuts_ordered(plan: FixPlan, data: Seq<Seq<u8>>, frame: nat)
    requires
        data.len() > 0,
        plan.boundaries@.len() == data.len() - 1,
        whole_frames(data, frame),
        forall|i: int| 0 <= i < data.len() ==> #[trigger] planned_frames(plan, data, frame, i) >= 0,
    ensures
        forall|i: int|
            0 <= i < data.len() ==> 0 <= #[trigger] cut_after(plan, data, frame, i - 1)
                <= cut_after(plan, data, frame, i) <= seqs::concat(data).len(),
{
    let n = data.len() as int;
    assert(data.take(n) =~= data);
    assert(data.take(0) =~= Seq::<Seq<u8>>::empty());
    assert(plan.shift(n - 1) * frame == 0) by (nonlinear_arith)
        requires
            plan.shift(n - 1) == 0,
    ;
    assert(plan.shift(-1) * frame == 0) by (nonlinear_arith)
        requires
            plan.shift(-1) == 0,
    ;
    assert(cut_after(plan, data, frame, n - 1) == seqs::concat(data).len());
    assert(cut_after(plan, data, frame, -1) == 0);
    assert forall|i: int| 0 <= i < data.len() implies 0 <= #[trigger] cut_after(
        plan,
        data,
        frame,
        i - 1,
    ) <= cut_after(plan, data, frame, i) <= seqs::concat(data).len() by {
        lemma_cuts_between(plan, data, frame, -1, i - 1);
        lemma_cuts_between(plan, data, frame, i - 1, i);
        lemma_cuts_between(plan, data, frame, i, n - 1);
    }
}

proof fn lemma_cuts_between(plan: FixPlan, data: Seq<Seq<u8>>, frame: nat, a: int, b: int)
    requires
        -1 <= a <= b < data.len(),
        whole_frames(data, frame),
        forall|i: int| 0 <= i < data.len() ==> #[trigger] planned_frames(plan, data, frame, i) >= 0,
    ensures
        cut_after(plan, data, frame, a) <= cut_after(plan, data, frame, b),
    decreases b - a,
{
    if a < b {
        lemma_cuts_between(plan, data, frame, a, b - 1);
        lemma_cut_step(plan, data, frame, b);
        let p = planned_frames(plan, data, frame, b);
        assert(p * frame >= 0) by (nonlinear_arith)
            requires
                p >= 0,
                frame > 0,
        ;
    }
}

/// Laid end to end, the planned audio is the set's audio and the silence: carrying out a
/// plan moves audio between files and changes none of it.
pub proof fn law_planned_audio_is_the_audio(plan: FixPlan, data: Seq<Seq<u8>>, frame: nat)
    requires
        data.len() > 0,
        plan.boundaries@.len() == data.len() - 1,
        whole_frames(data, frame),
        forall|i: int| 0 <= i < data.len() ==> #[trigger] planned_frames(plan, data, frame, i) >= 0,
    ensures
        seqs::concat(Seq::new(data.len(), |i: int| planned_audio(plan, data, frame, i)))
            == seqs::concat(data) + bytes::zeros(plan.pad() * frame),
        seqs::concat(
            Seq::new(
                data.len(),
                |i: int|
                    kept(
                        planned_audio(plan, data, frame, i),
                        plan.pad() * frame,
                        i == data.len() - 1,
                    ),
            ),
        ) == seqs::concat(data),
{
    lemma_cuts_ordered(plan, data, frame);
    lemma_cut_audio_is_the_audio(plan, data, frame);
}

proof fn lemma_cut_audio_is_the_audio(plan: FixPlan, data: Seq<Seq<u8>>, frame: nat)
    requires
        data.len() > 0,
        plan.boundaries@.len() == data.len() - 1,
        forall|i: int|
            0 <= i < data.len() ==> 0 <= #[trigger] cut_after(plan, data, frame, i - 1)
                <= cut_after(plan, data, frame, i) <= seqs::concat(data).len(),
    ensures
        seqs::concat(Seq::new(data.len(), |i: int| planned_audio(plan, data, frame, i)))
            == seqs::concat(data) + bytes::zeros(plan.pad() * frame),
        seqs::concat(
            Seq::new(
                data.len(),
                |i: int|
                    kept(
                        planned_audio(plan, data, frame, i),
                        plan.pad() * frame,
                        i == data.len() - 1,
                    ),
            ),
        ) == seqs::concat(data),
{
    let all = seqs::concat(data);
    let n = data.len() as int;
    let pad = plan.pad() * frame;
    let parts = Seq::new(data.len(), |i: int| planned_audio(plan, data, frame, i));
    let bare = Seq::new(
        data.len(),
        |i: int| kept(planned_audio(plan, data, frame, i), pad, i == data.len() - 1),
    );
    let pure = Seq::new(
        data.len(),
        |i: int|
            all.subrange(cut_after(plan, data, frame, i - 1), cut_after(plan, data, frame, i)),
    );
    lemma_cuts_lead(plan, data, frame, n);
    assert(data.take(n) =~= data);
    assert(plan.shift(n - 1) * frame == 0) by (nonlinear_arith)
        requires
            plan.shift(n - 1) == 0,
    ;
    assert(cut_after(plan, data, frame, n - 1) == all.len());
    assert(pure.take(n) =~= pure);
    assert(all.subrange(0, all.len() as int) =~= all);
    assert(seqs::concat(pure) == all);
    assert forall|i: int| 0 <= i < n implies #[trigger] bare[i] == pure[i] by {
        assert(cut_after(plan, data, frame, i - 1) <= cut_after(plan, data, frame, i));
        if i == n - 1 {
            let p = planned_audio(plan, data, frame, i);
            assert(p.take(p.len() - pad) =~= pure[i]);
        } else {
            assert(pure[i] + bytes::zeros(0) =~= pure[i]);
        }
    }
    assert(bare =~= pure);
    let before = pure.drop_last();
    assert(parts.drop_last() =~= before) by {
        assert forall|i: int| 0 <= i < n - 1 implies #[trigger] parts[i] == pure[i] by {
            assert(pure[i] + bytes::zeros(0) =~= pure[i]);
        }
    }
    assert(parts.last() == pure.last() + bytes::zeros(pad));
    assert(seqs::concat(before) + (pure.last() + bytes::zeros(pad)) =~= seqs::concat(before)
        + pure.last() + bytes::zeros(pad));
}

proof fn lemma_cuts_lead(plan: FixPlan, data: Seq<Seq<u8>>, frame: nat, n: int)
    requires
        0 <= n <= data.len(),
        forall|i: int|
            0 <= i < data.len() ==> 0 <= #[trigger] cut_after(plan, data, frame, i - 1)
                <= cut_after(plan, data, frame, i) <= seqs::concat(data).len(),
    ensures
        ({
            let all = seqs::concat(data);
            let pure = Seq::new(
                data.len(),
                |i: int|
                    all.subrange(
                        cut_after(plan, data, frame, i - 1),
                        cut_after(plan, data, frame, i),
                    ),
            );
            &&& cut_after(plan, data, frame, -1) == 0
            &&& n > 0 ==> 0 <= cut_after(plan, data, frame, n - 1) <= all.len()
            &&& seqs::concat(pure.take(n)) == all.subrange(
                0,
                cut_after(plan, data, frame, n - 1),
            )
        }),
    decreases n,
{
    let all = seqs::concat(data);
    let pure = Seq::new(
        data.len(),
        |i: int|
            all.subrange(cut_after(plan, data, frame, i - 1), cut_after(plan, data, frame, i)),
    );
    assert(data.take(0) =~= Seq::<Seq<u8>>::empty());
    assert(plan.shift(-1) * frame == 0) by (nonlinear_arith)
        requires
            plan.shift(-1) == 0,
    ;
    if n == 0 {
        assert(pure.take(0) =~= Seq::<Seq<u8>>::empty());
        assert(all.subrange(0, 0) =~= Seq::<u8>::empty());
    } else {
        lemma_cuts_lead(plan, data, frame, n - 1);
        let a = cut_after(plan, data, frame, n - 2);
        let b = cut_after(plan, data, frame, n - 1);
        assert(0 <= cut_after(plan, data, frame, (n - 1) - 1));
        assert(pure.take(n).drop_last() =~= pure.take(n - 1));
        assert(pure.take(n).last() == all.subrange(a, b));
        assert(all.subrange(0, a) + all.subrange(a, b) =~= all.subrange(0, b));
    }
}

/// What a repair writes passes the repair's own check: every written file holds its
/// source's other chunks, and the audio of them all, without the silence, is the audio that
/// the sources held.
pub proof fn law_wav_repair_passes_its_check(
    plan: FixPlan,
    raw: Seq<Seq<u8>>,
    chunks: Seq<WavChunks>,
    frame: nat,
    staged: Seq<Vec<u8>>,
)
    requires
        chunks.len() > 0,
        raw.len() == chunks.len(),
        staged.len() == chunks.len(),
        plan.boundaries@.len() == chunks.len() - 1,
        whole_frames(audio(chunks), frame),
        forall|i: int| 0 <= i < chunks.len() ==> (#[trigger] chunks[i]).parts_of(raw[i]),
        forall|i: int|
            0 <= i < chunks.len() ==> #[trigger] planned_frames(plan, audio(chunks), frame, i) >= 0,
        forall|i: int| 0 <= i < chunks.len() ==> #[trigger] fits(plan, chunks, frame, i),
        forall|i: int|
            0 <= i < chunks.len() ==> (#[trigger] staged[i])@ == wav::rebuilt(
                chunks[i].head@,
                planned_audio(plan, audio(chunks), frame, i),
                chunks[i].tail@,
            ),
    ensures
        forall|i: int|
            0 <= i < staged.len() ==> staged_well((#[trigger] staged[i])@, chunks[i]),
        staged_whole(staged, plan.pad() * frame) == seqs::concat(audio(chunks)),
{
    let data = audio(chunks);
    let pad = plan.pad() * frame;
    assert forall|i: int| 0 <= i < staged.len() implies staged_well(
        (#[trigger] staged[i])@,
        chunks[i],
    ) && staged_audio(staged[i]@) == planned_audio(plan, data, frame, i) by {
        assert(chunks[i].parts_of(raw[i]));
        assert(fits(plan, chunks, frame, i));
        wav::law_rebuilt_wav_keeps_its_chunks(raw[i], planned_audio(plan, data, frame, i));
    }
    law_planned_audio_is_the_audio(plan, data, frame);
    let a = Seq::new(
        staged.len(),
        |i: int| kept(staged_audio(staged[i]@), pad, i == staged.len() - 1),
    );
    let b = Seq::new(
        data.len(),
        |i: int| kept(planned_audio(plan, data, frame, i), pad, i == data.len() - 1),
    );
    assert forall|i: int| 0 <= i < a.len() implies #[trigger] a[i] == b[i] by {
        assert(staged_audio(staged[i]@) == planned_audio(plan, data, frame, i));
    }
    assert(a =~= b);
}

} // verus!
