//! What a clip holds of its track, and what of it reaches the encoder.

use super::cut;
use super::encode;
use super::encode::{Request, Sample};
use super::mode;
use super::mode::{Clip, Mode};
use crate::display::FLICKS;
use crate::error::Error;
use crate::format::flac;
use crate::model::{AudioFile, StreamInfo};
use crate::tag::{Field, Tags};
use crate::text;
use crate::tools::{Agent, ToolId};
use vstd::prelude::*;

verus! {

/// The frame at a time is the nearest to it: no more than half a frame off, and at whole
/// seconds as many frames in as the rate says for each.
pub proof fn law_frames_are_the_nearest(flicks: nat, rate: nat, secs: nat)
    ensures
        2 * (encode::frames_at(flicks, rate) * FLICKS) <= 2 * (flicks * rate) + FLICKS,
        2 * (flicks * rate) <= 2 * (encode::frames_at(flicks, rate) * FLICKS) + FLICKS,
        encode::frames_at(secs * FLICKS as nat, rate) == secs * rate,
{
    let x = flicks * rate;
    let n = encode::frames_at(flicks, rate);
    assert(n * 705_600_000 <= x + 352_800_000 < n * 705_600_000 + 705_600_000);
    let y = secs * rate;
    assert((secs * FLICKS as nat) * rate == y * 705_600_000) by (nonlinear_arith)
        requires
            y == secs * rate,
            FLICKS == 705_600_000,
    ;
    assert((y * 705_600_000 + 352_800_000) / 705_600_000 == y);
}

/// A clip of whole seconds starts and ends as many frames into the track as its seconds say,
/// but no later than the track itself does; and one that starts past the end is refused.
pub proof fn law_clip_is_where_it_was_asked_for(
    r: Result<(u64, u64), Error>,
    src: Seq<char>,
    si: StreamInfo,
    clip: Clip,
    start: nat,
    length: nat,
    total: u64,
)
    requires
        encode::is_placed(r, src, si, clip),
        clip.start == start * FLICKS,
        clip.length == length * FLICKS,
        si.total_frames == Some(total),
    ensures
        start * si.sample_rate < total ==> (r matches Ok((a, b)) && a == start * si.sample_rate && b
            == if (start + length) * si.sample_rate < total {
            (start + length) * si.sample_rate
        } else {
            total as int
        }),
        start * si.sample_rate >= total ==> r is Err,
{
    let rate = si.sample_rate as nat;
    law_frames_are_the_nearest(0, rate, start);
    law_frames_are_the_nearest(0, rate, length);
    assert((start + length) * rate == start * rate + length * rate) by (nonlinear_arith);
}

/// A clip of a track that does not say how long it is holds what it was asked for.
pub proof fn law_clip_of_an_unmeasured_track(
    r: Result<(u64, u64), Error>,
    src: Seq<char>,
    si: StreamInfo,
    clip: Clip,
    start: nat,
    length: nat,
)
    requires
        encode::is_placed(r, src, si, clip),
        clip.start == start * FLICKS,
        clip.length == length * FLICKS,
        si.total_frames is None,
        (start + length) * si.sample_rate <= u64::MAX,
    ensures
        r matches Ok((a, b)) && a == start * si.sample_rate && b == (start + length)
            * si.sample_rate,
{
    let rate = si.sample_rate as nat;
    law_frames_are_the_nearest(0, rate, start);
    law_frames_are_the_nearest(0, rate, length);
    assert((start + length) * rate == start * rate + length * rate) by (nonlinear_arith);
    assert(start * rate <= (start + length) * rate) by (nonlinear_arith);
}

// What is cut out.

/// All blocks have this many channels.
pub open spec fn have_channels(blocks: Seq<Seq<Seq<i32>>>, c: int) -> bool {
    forall|i: int| 0 <= i < blocks.len() ==> (#[trigger] blocks[i]).len() == c
}

proof fn lemma_frames(b: Seq<Seq<i32>>, from: int, to: int, c: int)
    requires
        b.len() == c,
        c > 0,
        0 <= from <= to,
    ensures
        flac::frames_in(b, from, to).len() == (to - from) * c,
        flac::frames_in(b, 0, to).len() == to * c,
        flac::frames_in(b, from, to) == flac::frames_in(b, 0, to).subrange(from * c, to * c),
    decreases to,
{
    let all = flac::frames_in(b, 0, to);
    assert(0 <= from * c <= to * c) by (nonlinear_arith)
        requires
            0 <= from <= to,
            c > 0,
    ;
    if to > 0 && from < to {
        lemma_frames(b, from, to - 1, c);
        let had = flac::frames_in(b, 0, to - 1);
        assert((to - 1 - from) * c + c == (to - from) * c) by (nonlinear_arith);
        assert((to - 1) * c + c == to * c) by (nonlinear_arith);
        assert(from * c <= (to - 1) * c) by (nonlinear_arith)
            requires
                from <= to - 1,
                c > 0,
        ;
        assert(all =~= had + flac::frame_at(b, to - 1));
        assert(flac::frames_in(b, from, to) =~= all.subrange(from * c, to * c));
    } else if to > 0 {
        lemma_frames(b, to - 1, to - 1, c);
        assert((to - 1) * c + c == to * c) by (nonlinear_arith);
        assert((to - from) * c == 0) by (nonlinear_arith)
            requires
                from == to,
        ;
        assert(all.subrange(from * c, to * c) =~= Seq::<i32>::empty());
    } else {
        assert((to - from) * c == 0 && to * c == 0) by (nonlinear_arith)
            requires
                from == to,
                to == 0,
        ;
        assert(all.subrange(from * c, to * c) =~= Seq::<i32>::empty());
    }
}

proof fn lemma_span(blocks: Seq<Seq<Seq<i32>>>, c: int)
    requires
        have_channels(blocks, c),
        c > 0,
    ensures
        flac::samples_of(blocks).len() == cut::span(blocks) * c,
    decreases blocks.len(),
{
    if blocks.len() > 0 {
        let front = blocks.drop_last();
        let b = blocks.last();
        let n = b[0].len() as int;
        assert(b == blocks[blocks.len() - 1]);
        assert(have_channels(front, c)) by {
            assert forall|i: int| 0 <= i < front.len() implies (#[trigger] front[i]).len() == c by {
                assert(front[i] == blocks[i]);
            }
        }
        lemma_span(front, c);
        lemma_frames(b, 0, n, c);
        let p = cut::span(front) as int;
        assert((p + n) * c == p * c + n * c) by (nonlinear_arith);
    } else {
        assert(0 * c == 0) by (nonlinear_arith);
    }
}

/// What is cut out of a FLAC is what lies between the two frames: of all its samples, those
/// from the first frame on, up to the last or to the end of the track.
pub proof fn law_excerpt_is_what_lies_between(
    blocks: Seq<Seq<Seq<i32>>>,
    c: int,
    start: int,
    end: int,
)
    requires
        have_channels(blocks, c),
        c > 0,
        0 <= start <= end <= cut::span(blocks),
    ensures
        cut::excerpt(blocks, start, end) == flac::samples_of(blocks).subrange(
            start * c,
            end * c,
        ),
        cut::frames_between(cut::span(blocks) as int, start, end) == end - start,
    decreases blocks.len(),
{
    let all = flac::samples_of(blocks);
    lemma_span(blocks, c);
    assert(0 <= start * c <= end * c <= cut::span(blocks) * c) by (nonlinear_arith)
        requires
            0 <= start <= end <= cut::span(blocks),
            c > 0,
    ;
    if blocks.len() == 0 {
        assert(all.subrange(start * c, end * c) =~= Seq::<i32>::empty());
    } else {
        let front = blocks.drop_last();
        let b = blocks.last();
        let n = b[0].len() as int;
        let p = cut::span(front) as int;
        assert(b == blocks[blocks.len() - 1]);
        assert(have_channels(front, c)) by {
            assert forall|i: int| 0 <= i < front.len() implies (#[trigger] front[i]).len() == c by {
                assert(front[i] == blocks[i]);
            }
        }
        lemma_span(front, c);
        let had = flac::samples_of(front);
        let last = flac::frames_in(b, 0, n);
        lemma_frames(b, 0, n, c);
        let s = cut::least(start, p);
        let e = cut::least(end, p);
        law_excerpt_is_what_lies_between(front, c, s, e);
        lemma_beyond(front, start, end, s, e);
        let i = cut::within(start - p, n);
        let j = cut::within(end - p, n);
        assert(0 <= i <= j <= n);
        lemma_frames(b, i, j, c);
        lemma_frames(b, i, n, c);
        lemma_prefix(b, j, n, c);
        lemma_products(p, start, end, s, e, i, j, c);
        assert(0 <= i * c <= j * c <= n * c) by (nonlinear_arith)
            requires
                0 <= i <= j <= n,
                c > 0,
        ;
        assert(0 <= s * c <= e * c <= p * c) by (nonlinear_arith)
            requires
                0 <= s <= e <= p,
                c > 0,
        ;
        let left = had.subrange(s * c, e * c);
        let right = last.subrange(i * c, j * c);
        assert(flac::frames_in(b, i, j) =~= right);
        assert(left + right =~= all.subrange(start * c, end * c));
    }
}

proof fn lemma_prefix(b: Seq<Seq<i32>>, j: int, n: int, c: int)
    requires
        b.len() == c,
        c > 0,
        0 <= j <= n,
    ensures
        flac::frames_in(b, 0, j) == flac::frames_in(b, 0, n).take(j * c),
        flac::frames_in(b, 0, n).len() == n * c,
        0 <= j * c <= n * c,
    decreases n,
{
    lemma_frames(b, 0, n, c);
    lemma_frames(b, 0, j, c);
    assert(0 <= j * c <= n * c) by (nonlinear_arith)
        requires
            0 <= j <= n,
            c > 0,
    ;
    if j < n {
        lemma_prefix(b, j, n - 1, c);
        let had = flac::frames_in(b, 0, n - 1);
        assert(flac::frames_in(b, 0, n) =~= had + flac::frame_at(b, n - 1));
        assert(flac::frames_in(b, 0, j) =~= flac::frames_in(b, 0, n).take(j * c));
    } else {
        assert(flac::frames_in(b, 0, j) =~= flac::frames_in(b, 0, n).take(j * c));
    }
}

proof fn lemma_products(p: int, start: int, end: int, s: int, e: int, i: int, j: int, c: int)
    requires
        c > 0,
        0 <= start <= end,
        s == cut::least(start, p),
        e == cut::least(end, p),
        start == s + i,
        end == e + j,
        s < p ==> i == 0,
        e < p ==> j == 0,
    ensures
        start * c == s * c + i * c,
        end * c == e * c + j * c,
        s < p ==> i * c == 0,
        e < p ==> j * c == 0,
{
    assert((s + i) * c == s * c + i * c) by (nonlinear_arith);
    assert((e + j) * c == e * c + j * c) by (nonlinear_arith);
    assert(0 * c == 0) by (nonlinear_arith);
}

/// What lies beyond the blocks makes no difference.
proof fn lemma_beyond(blocks: Seq<Seq<Seq<i32>>>, start: int, end: int, s: int, e: int)
    requires
        0 <= start <= end,
        s == start || s >= cut::span(blocks) && start >= s,
        e == end || e >= cut::span(blocks) && end >= e,
    ensures
        cut::excerpt(blocks, start, end) == cut::excerpt(blocks, s, e),
    decreases blocks.len(),
{
    if blocks.len() > 0 {
        lemma_beyond(blocks.drop_last(), start, end, s, e);
        let n = blocks.last()[0].len() as int;
        let p = cut::span(blocks.drop_last()) as int;
        assert(cut::within(start - p, n) == cut::within(s - p, n));
        assert(cut::within(end - p, n) == cut::within(e - p, n));
    }
}

/// What is cut out of a WAV are the bytes of its frames from the first to the last, or to the
/// end of its audio.
pub proof fn law_wav_clip_is_whole_frames(offset: int, len: int, frame: int, start: int, end: int)
    requires
        0 < frame,
        0 <= offset,
        0 <= start,
        0 <= len,
    ensures
        ({
            let (from, to) = cut::clip_range(offset, len, frame, start, end);
            if start < end && (start + 1) * frame <= len {
                &&& from == offset + start * frame
                &&& (end * frame <= len ==> to == offset + end * frame)
                &&& (end * frame > len ==> to <= offset + len < to + frame)
                &&& (to - from) % frame == 0
            } else {
                from == to
            }
        }),
{
    let there = len / frame;
    let e = cut::least(end, there);
    vstd::arithmetic::div_mod::lemma_fundamental_div_mod(len, frame);
    assert(frame * there == there * frame) by (nonlinear_arith);
    let r = len % frame;
    assert(0 <= r < frame) by (nonlinear_arith)
        requires
            r == len % frame,
            frame > 0,
    ;
    assert((start < there) == ((start + 1) * frame <= len)) by (nonlinear_arith)
        requires
            len == there * frame + r,
            0 <= r < frame,
    ;
    assert((end <= there) == (end * frame <= len)) by (nonlinear_arith)
        requires
            len == there * frame + r,
            0 <= r < frame,
    ;
    if start < e {
        assert(e * frame - start * frame == (e - start) * frame) by (nonlinear_arith);
        vstd::arithmetic::div_mod::lemma_mod_multiples_basic(e - start, frame);
    }
}

// What comes of it.

/// The size that is expected of a clip is what its bitrate comes to, in bits of which eight
/// make a byte, with the overhead and no more than a byte over.
pub proof fn law_estimate_is_what_the_bitrate_comes_to(m: Mode, flicks: nat, kbps: u16)
    requires
        m == Mode::Cbr(kbps),
    ensures
        ({
            let audio = mode::estimate(m, flicks) - 6144;
            &&& audio * 8 * FLICKS >= flicks * kbps * 1000
            &&& (audio - 1) * 8 * FLICKS < flicks * kbps * 1000
        }),
{
    let x = flicks * kbps as nat;
    let audio = mode::estimate(m, flicks) - 6144;
    assert(audio == (x * 125 + 705_599_999) / 705_600_000);
    assert(audio * 705_600_000 >= x * 125);
    assert((audio - 1) * 705_600_000 < x * 125);
    assert(audio * 8 * FLICKS == 8 * (audio * 705_600_000)) by (nonlinear_arith)
        requires
            FLICKS == 705_600_000,
    ;
    assert((audio - 1) * 8 * FLICKS == 8 * ((audio - 1) * 705_600_000)) by (nonlinear_arith)
        requires
            FLICKS == 705_600_000,
    ;
}

/// A sample that was made is within the limit, holds audio, is as long as the frames that went
/// in, and is recorded under its names; one over the limit, or without audio, is none.
pub proof fn law_sample_keeps_to_its_request(
    r: Result<Sample, Error>,
    src: Seq<char>,
    dst: Seq<char>,
    probed: AudioFile,
    request: Request,
    frames: nat,
    bytes: nat,
    agent: Agent,
)
    requires
        encode::is_sample(r, src, dst, probed, request, frames, bytes, agent),
        probed.stream_info.sample_rate > 0,
    ensures
        r is Ok == (frames > 0 && (request.max_bytes matches Some(max) ==> bytes <= max)),
        r matches Ok(s) ==> {
            let rate = probed.stream_info.sample_rate as int;
            &&& s.bytes == bytes
            &&& s.clip.start == request.clip.start
            &&& s.clip.length * rate <= frames * FLICKS < (s.clip.length + 1) * rate
            &&& s.output@ == dst
            &&& s.provenance.input@ == src
            &&& s.provenance.output@ == dst
            &&& s.provenance.agent == agent
        },
{
    if let Ok(s) = r {
        let rate = probed.stream_info.sample_rate as int;
        let x = frames * FLICKS as nat;
        let n = s.clip.length as int;
        assert(n * rate <= x < (n + 1) * rate) by (nonlinear_arith)
            requires
                n == x as int / rate,
                rate > 0,
                x >= 0,
        ;
    }
}

/// Two arguments stand one behind the other.
pub open spec fn has_pair(args: Seq<Seq<char>>, a: Seq<char>, b: Seq<char>) -> bool {
    exists|i: int| 0 <= i < args.len() - 1 && #[trigger] args[i] == a && args[i + 1] == b
}

proof fn lemma_pair(
    before: Seq<Seq<char>>,
    a: Seq<char>,
    b: Seq<char>,
    after: Seq<Seq<char>>,
)
    ensures
        has_pair(before + seq![a, b] + after, a, b),
{
    let all = before + seq![a, b] + after;
    assert(all[before.len() as int] == a);
    assert(all[before.len() as int + 1] == b);
}

/// The bitrate or the quality, the title, the artist and the album reach `lame`, and the last
/// two arguments are what it reads and what it writes.
#[verifier::rlimit(40)]
pub proof fn law_lame_is_told(m: Mode, tags: Tags, input: Seq<char>, output: Seq<char>)
    ensures
        ({
            let args = encode::encoder_args(ToolId::Lame, m, tags, input, output);
            &&& args.len() >= 2
            &&& args[args.len() - 2] == input
            &&& args.last() == output
            &&& (m matches Mode::Cbr(kbps) ==> (has_pair(args, "-b"@, text::decimal(kbps as nat))
                && args.contains("--cbr"@)))
            &&& (m matches Mode::Vbr(q) ==> has_pair(args, "-V"@, text::decimal(q as nat)))
            &&& (tags.value(Field::Title) matches Some(v) ==> (v.len() > 0 ==> has_pair(
                args,
                "--tt"@,
                v,
            )))
            &&& (tags.value(Field::Artist) matches Some(v) ==> (v.len() > 0 ==> has_pair(
                args,
                "--ta"@,
                v,
            )))
            &&& (tags.value(Field::Album) matches Some(v) ==> (v.len() > 0 ==> has_pair(
                args,
                "--tl"@,
                v,
            )))
            &&& args.contains("--id3v2-utf16"@)
        }),
{
    let args = encode::encoder_args(ToolId::Lame, m, tags, input, output);
    let p0 = seq!["--silent"@, "--id3v2-utf16"@];
    let p1 = encode::mode_args(true, m);
    let p2 = encode::tag_args(true, tags, Field::Title, "--tt"@);
    let p3 = encode::tag_args(true, tags, Field::Artist, "--ta"@);
    let p4 = encode::tag_args(true, tags, Field::Album, "--tl"@);
    let p5 = seq![input, output];
    assert(args =~= p0 + p1 + p2 + p3 + p4 + p5);
    assert(args[1] == "--id3v2-utf16"@);
    match m {
        Mode::Cbr(kbps) => {
            let n = text::decimal(kbps as nat);
            assert(args =~= p0 + seq!["-b"@, n] + (seq!["--cbr"@] + p2 + p3 + p4 + p5));
            lemma_pair(p0, "-b"@, n, seq!["--cbr"@] + p2 + p3 + p4 + p5);
            assert(args[4] == "--cbr"@);
        },
        Mode::Vbr(q) => {
            let n = text::decimal(q as nat);
            assert(args =~= p0 + seq!["-V"@, n] + (p2 + p3 + p4 + p5));
            lemma_pair(p0, "-V"@, n, p2 + p3 + p4 + p5);
        },
    }
    if let Some(v) = tags.value(Field::Title) {
        if v.len() > 0 {
            assert(args =~= (p0 + p1) + seq!["--tt"@, v] + (p3 + p4 + p5));
            lemma_pair(p0 + p1, "--tt"@, v, p3 + p4 + p5);
        }
    }
    if let Some(v) = tags.value(Field::Artist) {
        if v.len() > 0 {
            assert(args =~= (p0 + p1 + p2) + seq!["--ta"@, v] + (p4 + p5));
            lemma_pair(p0 + p1 + p2, "--ta"@, v, p4 + p5);
        }
    }
    if let Some(v) = tags.value(Field::Album) {
        if v.len() > 0 {
            assert(args =~= (p0 + p1 + p2 + p3) + seq!["--tl"@, v] + p5);
            lemma_pair(p0 + p1 + p2 + p3, "--tl"@, v, p5);
        }
    }
}

/// The bitrate or the quality, the title, the artist and the album reach `ffmpeg`, it is told
/// what to read and that an MP3 is wanted, and the last argument is what it writes.
#[verifier::rlimit(40)]
pub proof fn law_ffmpeg_is_told(m: Mode, tags: Tags, input: Seq<char>, output: Seq<char>)
    ensures
        ({
            let args = encode::encoder_args(ToolId::Ffmpeg, m, tags, input, output);
            &&& args.len() >= 1
            &&& args.last() == output
            &&& has_pair(args, "-i"@, input)
            &&& has_pair(args, "-codec:a"@, "libmp3lame"@)
            &&& has_pair(args, "-f"@, "mp3"@)
            &&& (m matches Mode::Cbr(kbps) ==> has_pair(
                args,
                "-b:a"@,
                text::decimal(kbps as nat) + "k"@,
            ))
            &&& (m matches Mode::Vbr(q) ==> has_pair(args, "-q:a"@, text::decimal(q as nat)))
            &&& (tags.value(Field::Title) matches Some(v) ==> (v.len() > 0 ==> has_pair(
                args,
                "-metadata"@,
                "title"@ + "="@ + v,
            )))
            &&& (tags.value(Field::Artist) matches Some(v) ==> (v.len() > 0 ==> has_pair(
                args,
                "-metadata"@,
                "artist"@ + "="@ + v,
            )))
            &&& (tags.value(Field::Album) matches Some(v) ==> (v.len() > 0 ==> has_pair(
                args,
                "-metadata"@,
                "album"@ + "="@ + v,
            )))
        }),
{
    let args = encode::encoder_args(ToolId::Ffmpeg, m, tags, input, output);
    let p0 = seq![
        "-nostdin"@,
        "-hide_banner"@,
        "-loglevel"@,
        "error"@,
        "-y"@,
        "-i"@,
        input,
        "-vn"@,
        "-codec:a"@,
        "libmp3lame"@,
    ];
    let p1 = encode::mode_args(false, m);
    let p2 = encode::tag_args(false, tags, Field::Title, "title"@);
    let p3 = encode::tag_args(false, tags, Field::Artist, "artist"@);
    let p4 = encode::tag_args(false, tags, Field::Album, "album"@);
    let p5 = seq!["-f"@, "mp3"@, output];
    let head = p0 + p1 + p2 + p3 + p4;
    assert(args =~= head + p5);
    assert(args[5] == "-i"@ && args[6] == input);
    assert(args[8] == "-codec:a"@ && args[9] == "libmp3lame"@);
    assert(args =~= head + seq!["-f"@, "mp3"@] + seq![output]);
    lemma_pair(head, "-f"@, "mp3"@, seq![output]);
    match m {
        Mode::Cbr(kbps) => {
            let n = text::decimal(kbps as nat) + "k"@;
            assert(args =~= p0 + seq!["-b:a"@, n] + (p2 + p3 + p4 + p5));
            lemma_pair(p0, "-b:a"@, n, p2 + p3 + p4 + p5);
        },
        Mode::Vbr(q) => {
            let n = text::decimal(q as nat);
            assert(args =~= p0 + seq!["-q:a"@, n] + (p2 + p3 + p4 + p5));
            lemma_pair(p0, "-q:a"@, n, p2 + p3 + p4 + p5);
        },
    }
    if let Some(v) = tags.value(Field::Title) {
        if v.len() > 0 {
            let w = "title"@ + "="@ + v;
            assert(args =~= (p0 + p1) + seq!["-metadata"@, w] + (p3 + p4 + p5));
            lemma_pair(p0 + p1, "-metadata"@, w, p3 + p4 + p5);
        }
    }
    if let Some(v) = tags.value(Field::Artist) {
        if v.len() > 0 {
            let w = "artist"@ + "="@ + v;
            assert(args =~= (p0 + p1 + p2) + seq!["-metadata"@, w] + (p4 + p5));
            lemma_pair(p0 + p1 + p2, "-metadata"@, w, p4 + p5);
        }
    }
    if let Some(v) = tags.value(Field::Album) {
        if v.len() > 0 {
            let w = "album"@ + "="@ + v;
            assert(args =~= (p0 + p1 + p2 + p3) + seq!["-metadata"@, w] + p5);
            lemma_pair(p0 + p1 + p2 + p3, "-metadata"@, w, p5);
        }
    }
}

/// A clip that was not asked for is as long as fits and at most half a minute, but no longer
/// than the whole seconds of the track and no shorter than one, and stands in the middle, to
/// within a second.
pub proof fn law_default_clip_is_at_most_half_a_minute(t: nat, mode: Mode, max_bytes: nat)
    requires
        mode.kbps() > 0,
        t >= 705_600_000,
    ensures
        ({
            let (start, len) = mode::default_clip(Some(t), mode, max_bytes);
            let second = 705_600_000int;
            let middle = (t - len) as int / 2;
            &&& second <= len <= 30 * second
            &&& len % 705_600_000 == 0
            &&& start + len <= t
            &&& start % 705_600_000 == 0
            &&& middle - second < start <= middle
            &&& len > second ==> (len / 705_600_000) * mode.kbps() * 125 + 6144 <= max_bytes
            &&& len < 30 * second && len + second <= t ==> (len / 705_600_000 + 1) * mode.kbps()
                * 125 + 6144 > max_bytes
        }),
{
    let k = mode.kbps() * 125;
    let room = mode::room(max_bytes);
    let fits = mode::longest(mode, max_bytes);
    let (start, len) = mode::default_clip(Some(t), mode, max_bytes);
    let n = len / 705_600_000;
    vstd::arithmetic::div_mod::lemma_fundamental_div_mod(room as int, k as int);
    vstd::arithmetic::div_mod::lemma_mod_bound(room as int, k as int);
    assert(n <= fits ==> n * k <= k * fits) by (nonlinear_arith);
    assert(fits < n + 1 ==> k * fits + k <= (n + 1) * k) by (nonlinear_arith);
    assert(n * mode.kbps() * 125 == n * k) by (nonlinear_arith)
        requires
            k == mode.kbps() * 125,
    ;
    assert((n + 1) * mode.kbps() * 125 == (n + 1) * k) by (nonlinear_arith)
        requires
            k == mode.kbps() * 125,
    ;
}

} // verus!
