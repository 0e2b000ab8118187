//! Cutting the excerpt that is encoded out of a track.

use crate::bytes;
use crate::bytes::copy_range;
use crate::error::Error;
use crate::format::flac;
use crate::format::flac::{decode_blocks, push_frames, Decoded};
use crate::format::wav;
use crate::format::wav::WavWriter;
use crate::convert;
use crate::model::StreamInfo;
use vstd::prelude::*;
use vstd::string::*;

verus! {

pub open spec fn least(a: int, b: int) -> int {
    if a < b {
        a
    } else {
        b
    }
}

/// How many frames lie between `start` and `end`, of those that there are.
pub open spec fn frames_between(there: int, start: int, end: int) -> nat {
    let e = least(end, there);
    if start < e {
        (e - start) as nat
    } else {
        0
    }
}

/// The outcome of writing an excerpt as a WAV: the file and how many frames it holds, or why
/// there is none.
pub open spec fn is_excerpt(
    r: Result<(Vec<u8>, u64), Error>,
    out: Seq<char>,
    si: StreamInfo,
    data: Seq<u8>,
    frames: nat,
) -> bool {
    if wav::writable(si) && data.len() <= wav::MAX_WAV_DATA && wav::riff_len(si, data.len())
        <= wav::MAX_WAV_DATA {
        r matches Ok((file, n)) && file@ == wav::wav_file(si, data) && n == frames
    } else {
        r matches Err(Error::Io { path, source }) && path@ == out && source@
            == convert::wav_refusal(si)
    }
}

fn write_excerpt(out: &str, si: &StreamInfo, samples: &[i32], frames: u64) -> (r: Result<
    (Vec<u8>, u64),
    Error,
>)
    requires
        si.sample_rate * si.frame_bytes() <= 0xFFFF_FFFF,
    ensures
        is_excerpt(
            r,
            out@,
            *si,
            wav::samples_bytes(samples@, si.bits_per_sample as nat),
            frames as nat,
        ),
{
    let mut writer = match WavWriter::new(si) {
        Ok(w) => w,
        Err(said) => {
            return Err(Error::io(out, &said));
        },
    };
    let ghost data = wav::samples_bytes(samples@, si.bits_per_sample as nat);
    match writer.write_samples(samples) {
        Ok(_) => {},
        Err(said) => {
            return Err(Error::io(out, &said));
        },
    }
    assert(writer.data() =~= data);
    match writer.finish() {
        Ok((file, _len)) => Ok((file, frames)),
        Err(said) => Err(Error::io(out, &said)),
    }
}

// FLAC.

/// How many frames some blocks hold.
pub open spec fn span(blocks: Seq<Seq<Seq<i32>>>) -> nat
    decreases blocks.len(),
{
    if blocks.len() == 0 {
        0
    } else {
        span(blocks.drop_last()) + blocks.last()[0].len()
    }
}

/// The nearest to `i` from 0 to `n`.
pub open spec fn within(i: int, n: int) -> int {
    if i < 0 {
        0
    } else if i > n {
        n
    } else {
        i
    }
}

/// The frames from `start` to `end` of some blocks, as far as there are any, interleaved by
/// the channels of each.
pub open spec fn excerpt(blocks: Seq<Seq<Seq<i32>>>, start: int, end: int) -> Seq<i32>
    decreases blocks.len(),
{
    if blocks.len() == 0 {
        Seq::empty()
    } else {
        let pos = span(blocks.drop_last());
        let b = blocks.last();
        let len = b[0].len() as int;
        excerpt(blocks.drop_last(), start, end) + flac::frames_in(
            b,
            within(start - pos, len),
            within(end - pos, len),
        )
    }
}

/// The outcome of cutting frames out of what a FLAC decodes to. Too long an excerpt shows
/// before what is wrong with what follows, and what is wrong after the last frame that is
/// wanted does not show at all.
pub open spec fn is_flac_cut(
    r: Result<(Vec<u8>, u64), Error>,
    src: Seq<char>,
    out: Seq<char>,
    si: StreamInfo,
    stream: flac::Stream,
    start: int,
    end: int,
) -> bool {
    match stream {
        Err(said) => r matches Err(e) && flac::is_flac_error(e, src, said),
        Ok((_, blocks, fault)) => {
            let data = wav::samples_bytes(
                excerpt(blocks, start, end),
                si.bits_per_sample as nat,
            );
            if data.len() <= wav::MAX_WAV_DATA && span(blocks) < end && fault is Some {
                r matches Err(e) && flac::is_flac_error(e, src, fault->0)
            } else {
                is_excerpt(r, out, si, data, frames_between(span(blocks) as int, start, end))
            }
        },
    }
}

proof fn lemma_nothing_after(b: Seq<Seq<i32>>, i: int, j: int)
    requires
        j <= i,
    ensures
        flac::frames_in(b, i, j) == Seq::<i32>::empty(),
{
}

/// What lies after the clip makes no difference.
proof fn lemma_first_blocks(blocks: Seq<Seq<Seq<i32>>>, n: int, start: int, end: int)
    requires
        0 <= n <= blocks.len(),
        span(blocks.take(n)) >= end,
    ensures
        span(blocks) >= span(blocks.take(n)),
        excerpt(blocks, start, end) == excerpt(blocks.take(n), start, end),
    decreases blocks.len(),
{
    if n == blocks.len() {
        assert(blocks.take(n) =~= blocks);
    } else {
        let front = blocks.drop_last();
        assert(front.take(n) =~= blocks.take(n));
        lemma_first_blocks(front, n, start, end);
        let b = blocks.last();
        let len = b[0].len() as int;
        lemma_nothing_after(b, within(start - span(front), len), within(end - span(front), len));
        assert(excerpt(front, start, end) + Seq::<i32>::empty() =~= excerpt(front, start, end));
    }
}

/// How many frames a clip takes of the next block.
proof fn lemma_next_frames(pos: int, len: int, start: int, end: int)
    requires
        0 <= pos,
        0 <= len,
        0 <= start,
        0 <= end,
    ensures
        ({
            let from = within(start - pos, len);
            let to = within(end - pos, len);
            frames_between(pos + len, start, end) == frames_between(pos, start, end) + if from
                < to {
                to - from
            } else {
                0
            }
        }),
{
}

fn clamped(i: u64, pos: u128, n: usize) -> (r: usize)
    ensures
        r == within(i - pos, n as int),
{
    if (i as u128) < pos {
        0
    } else if i as u128 - pos > n as u128 {
        n
    } else {
        (i as u128 - pos) as usize
    }
}

/// Frames `start` to `end` of decoded blocks as a WAV, and how many there were: fewer than
/// asked for when the track ends first and did not say how long it was.
pub fn cut_blocks(
    src: &str,
    out: &str,
    si: &StreamInfo,
    d: Decoded,
    start: u64,
    end: u64,
) -> (r: Result<(Vec<u8>, u64), Error>)
    requires
        si.sample_rate * si.frame_bytes() <= 0xFFFF_FFFF,
        wav::writable(*si),
        d.wf(),
    ensures
        is_flac_cut(
            r,
            src@,
            out@,
            *si,
            flac::Stream::Ok((d.heading(), flac::blocks_of(d.blocks@), flac::said(d.fault))),
            start as int,
            end as int,
        ),
{
    let ghost all = flac::blocks_of(d.blocks@);
    let mut part: Vec<i32> = Vec::new();
    let mut pos: u128 = 0;
    let mut frames: u64 = 0;
    let mut i: usize = 0;
    assert(all.take(0) =~= Seq::<Seq<Seq<i32>>>::empty());
    while i < d.blocks.len() && pos < end as u128
        invariant
            i <= d.blocks.len(),
            all == flac::blocks_of(d.blocks@),
            flac::are_blocks(all),
            pos == span(all.take(i as int)),
            pos <= end + 65535,
            frames == frames_between(pos as int, start as int, end as int),
            part@ == excerpt(all.take(i as int), start as int, end as int),
        decreases d.blocks.len() - i,
    {
        let b = &d.blocks[i];
        proof {
            assert(all[i as int] == flac::block_of(d.blocks@[i as int]));
            assert(all[i as int][0] == d.blocks@[i as int]@[0]@);
            assert(all.take(i + 1).drop_last() =~= all.take(i as int));
            assert(all.take(i + 1).last() == all[i as int]);
            lemma_next_frames(
                pos as int,
                all[i as int][0].len() as int,
                start as int,
                end as int,
            );
        }
        let len: usize = b[0].len();
        let from: usize = clamped(start, pos, len);
        let to: usize = clamped(end, pos, len);
        push_frames(&mut part, b, from, to);
        if from < to {
            frames += (to - from) as u64;
        }
        pos += len as u128;
        i += 1;
    }
    proof {
        if pos >= end {
            lemma_first_blocks(all, i as int, start as int, end as int);
        } else {
            assert(all.take(i as int) =~= all);
        }
    }
    let mut writer = match WavWriter::new(si) {
        Ok(w) => w,
        Err(said) => {
            return Err(Error::io(out, &said));
        },
    };
    match writer.write_samples(&part) {
        Ok(_) => {},
        Err(said) => {
            return Err(Error::io(out, &said));
        },
    }
    assert(writer.data() =~= wav::samples_bytes(part@, si.bits_per_sample as nat));
    if pos < end as u128 {
        match d.fault {
            Some(said) => {
                return Err(Error::Flac { path: src.to_owned(), source: said });
            },
            None => {},
        }
    }
    match writer.finish() {
        Ok((file, _len)) => Ok((file, frames)),
        Err(said) => Err(Error::io(out, &said)),
    }
}

/// How many frames a block most often holds.
const USUAL_BLOCK: u64 = 4096;

fn span_of(blocks: &Vec<Vec<Vec<i32>>>) -> (n: u128)
    requires
        flac::are_blocks(flac::blocks_of(blocks@)),
    ensures
        n == span(flac::blocks_of(blocks@)),
{
    let ghost all = flac::blocks_of(blocks@);
    let mut n: u128 = 0;
    let mut i: usize = 0;
    assert(all.take(0) =~= Seq::<Seq<Seq<i32>>>::empty());
    while i < blocks.len()
        invariant
            i <= blocks.len(),
            all == flac::blocks_of(blocks@),
            flac::are_blocks(all),
            n == span(all.take(i as int)),
            n <= 65535 * i,
        decreases blocks.len() - i,
    {
        proof {
            assert(all[i as int] == flac::block_of(blocks@[i as int]));
            assert(all[i as int][0] == blocks@[i as int]@[0]@);
            assert(all.take(i + 1).drop_last() =~= all.take(i as int));
            assert(all.take(i + 1).last() == all[i as int]);
        }
        n += blocks[i][0].len() as u128;
        i += 1;
    }
    assert(all.take(all.len() as int) =~= all);
    n
}

/// [`cut_blocks`] on what a FLAC's bytes hold. Where its blocks are as long as most are,
/// nothing after the clip is decoded.
pub fn cut_flac(
    src: &str,
    out: &str,
    si: &StreamInfo,
    file: &[u8],
    start: u64,
    end: u64,
) -> (r: Result<(Vec<u8>, u64), Error>)
    requires
        si.sample_rate * si.frame_bytes() <= 0xFFFF_FFFF,
        flac::decodable(file@),
    ensures
        if !wav::writable(*si) {
            r matches Err(Error::Io { path, source }) && path@ == out@ && source@
                == convert::wav_refusal(*si)
        } else {
            is_flac_cut(
                r,
                src@,
                out@,
                *si,
                flac::flac_blocks(file@),
                start as int,
                end as int,
            )
        },
{
    match WavWriter::new(si) {
        Ok(_) => {},
        Err(said) => {
            return Err(Error::io(out, &said));
        },
    }
    let enough: u64 = end / USUAL_BLOCK + 1;
    let most: usize = if enough < file.len() as u64 {
        enough as usize
    } else {
        file.len()
    };
    let first = decode_blocks(src, file, most)?;
    let ghost all = (flac::flac_blocks(file@)->Ok_0).1;
    if first.blocks.len() == most && span_of(&first.blocks) < end as u128 {
        let rest = decode_blocks(src, file, file.len())?;
        return cut_blocks(src, out, si, rest, start, end);
    }
    proof {
        if most <= all.len() {
            lemma_first_blocks(all, most as int, start as int, end as int);
        }
    }
    cut_blocks(src, out, si, first, start, end)
}

// WAV.

/// A sample as a WAV stores it, in one, two or three bytes.
pub open spec fn sample_at(b: Seq<u8>, bits: nat) -> int {
    if bits == 8 {
        b[0] - 128
    } else if bits == 16 {
        let v = b[0] + b[1] * 256;
        if v >= 0x8000 {
            v - 0x1_0000
        } else {
            v
        }
    } else {
        let v = b[0] + b[1] * 256 + b[2] * 65536;
        if v >= 0x80_0000 {
            v - 0x100_0000
        } else {
            v
        }
    }
}

/// The digits of a number in base 256, the smallest first.
proof fn lemma_digits(a: int, b: int, c: int, d: int)
    requires
        0 <= a < 256,
        0 <= b < 256,
        0 <= c < 256,
        0 <= d < 256,
    ensures
        ({
            let n = a + 256 * b + 65536 * c + 16777216 * d;
            n % 256 == a && n / 256 % 256 == b && n / 65536 % 256 == c
        }),
{
}

#[verifier::spinoff_prover]
proof fn lemma_sample_back(b: Seq<u8>, bits: nat, s: i32)
    requires
        bits == 8 || bits == 16 || bits == 24,
        b.len() == bits / 8,
        s == sample_at(b, bits),
    ensures
        wav::sample_bytes(s, bits) == b,
{
    let n = bytes::twos(s as int) as int;
    let four = bytes::le32(n as nat);
    if bits == 8 {
        assert(four[0] == (bytes::twos(s as int) % 256) as u8);
        assert(wav::sample_bytes(s, bits) =~= b);
    } else if bits == 16 {
        let high: int = if s < 0 {
            255
        } else {
            0
        };
        lemma_digits(b[0] as int, b[1] as int, high, high);
        assert(n == b[0] + 256 * b[1] + 65536 * high + 16777216 * high);
        assert(four.take(2) =~= b);
    } else {
        let high: int = if s < 0 {
            255
        } else {
            0
        };
        lemma_digits(b[0] as int, b[1] as int, b[2] as int, high);
        assert(n == b[0] + 256 * b[1] + 65536 * b[2] + 16777216 * high);
        assert(four.take(3) =~= b);
    }
}

proof fn lemma_next(n: int, i: int, w: int)
    requires
        w == 1 || w == 2 || w == 3,
        0 <= i < n,
        n % w == 0,
        i % w == 0,
    ensures
        i + w <= n,
        (i + w) % w == 0,
{
}

fn read_sample(data: &[u8], i: usize, bits: u8) -> (s: i32)
    requires
        bits == 8 || bits == 16 || bits == 24,
        i + bits / 8 <= data.len(),
    ensures
        s == sample_at(data@.subrange(i as int, i + bits as int / 8), bits as nat),
{
    let ghost b = data@.subrange(i as int, i + bits as int / 8);
    assert(b[0] == data@[i as int]);
    if bits == 8 {
        data[i] as i32 - 128
    } else if bits == 16 {
        assert(b[1] == data@[i + 1]);
        let v: i32 = data[i] as i32 + data[i + 1] as i32 * 256;
        if v >= 0x8000 {
            v - 0x1_0000
        } else {
            v
        }
    } else {
        assert(b[1] == data@[i + 1]);
        assert(b[2] == data@[i + 2]);
        let v: i32 = data[i] as i32 + data[i + 1] as i32 * 256 + data[i + 2] as i32 * 65536;
        if v >= 0x80_0000 {
            v - 0x100_0000
        } else {
            v
        }
    }
}

/// The samples that bytes of a WAV hold: written back they are the same bytes.
fn samples_in(data: &[u8], bits: u8) -> (samples: Vec<i32>)
    requires
        bits == 8 || bits == 16 || bits == 24,
        data@.len() as int % (bits as int / 8) == 0,
    ensures
        wav::samples_bytes(samples@, bits as nat) == data@,
{
    let width: usize = bits as usize / 8;
    let mut samples: Vec<i32> = Vec::new();
    let mut i: usize = 0;
    assert(data@.take(0) =~= Seq::<u8>::empty());
    while i < data.len()
        invariant
            i <= data.len(),
            bits == 8 || bits == 16 || bits == 24,
            width == bits as int / 8,
            width == 1 || width == 2 || width == 3,
            data@.len() as int % width as int == 0,
            i as int % width as int == 0,
            wav::samples_bytes(samples@, bits as nat) == data@.take(i as int),
        decreases data.len() - i,
    {
        proof {
            lemma_next(data@.len() as int, i as int, width as int);
        }
        let s = read_sample(data, i, bits);
        let ghost had = samples@;
        let ghost b = data@.subrange(i as int, i + width);
        samples.push(s);
        proof {
            lemma_sample_back(b, bits as nat, s);
            assert(samples@.drop_last() =~= had);
            assert(data@.take(i as int) + b =~= data@.take(i + width));
        }
        i += width;
    }
    assert(data@.take(data@.len() as int) =~= data@);
    samples
}

/// Where the bytes of a clip of a WAV start and end in its file.
pub open spec fn clip_range(offset: int, len: int, frame: int, start: int, end: int) -> (int, int) {
    let e = least(end, len / frame);
    if start < e {
        (offset + start * frame, offset + e * frame)
    } else {
        (0, 0)
    }
}

/// Frames `start` to `end` of a WAV, as a WAV of their own: the very bytes that they are in
/// the track.
pub fn cut_wav(src: &str, out: &str, si: &StreamInfo, file: &[u8], start: u64, end: u64) -> (r:
    Result<(Vec<u8>, u64), Error>)
    requires
        si.sample_rate * si.frame_bytes() <= 0xFFFF_FFFF,
    ensures
        if !wav::writable(*si) {
            r matches Err(Error::Io { path, source }) && path@ == out@ && source@
                == convert::wav_refusal(*si)
        } else {
            match wav::parse(file@) {
                Err(f) => r matches Err(e) && wav::is_fault(e, src@, f),
                Ok((_, offset, len)) => {
                    let (from, to) = clip_range(
                        offset,
                        len,
                        si.frame_bytes() as int,
                        start as int,
                        end as int,
                    );
                    if to > file@.len() {
                        r matches Err(e) && wav::is_fault(e, src@, wav::Fault::Short)
                    } else {
                        is_excerpt(
                            r,
                            out@,
                            *si,
                            file@.subrange(from, to),
                            frames_between(
                                len / si.frame_bytes() as int,
                                start as int,
                                end as int,
                            ),
                        )
                    }
                },
            }
        },
{
    match WavWriter::new(si) {
        Ok(_) => {},
        Err(said) => {
            return Err(Error::io(out, &said));
        },
    }
    let layout = wav::probe(src, file)?;
    let ghost offset = layout.data_offset as int;
    let ghost len = layout.data_len as int;
    let frame: u64 = si.bytes_per_frame() as u64;
    proof {
        let c = si.channels as int;
        let w = (si.bits_per_sample as int + 7) / 8;
        assert(c * w > 0) by (nonlinear_arith)
            requires
                c > 0,
                w > 0,
        ;
    }
    let there: u64 = layout.data_len / frame;
    let e: u64 = if end < there {
        end
    } else {
        there
    };
    let mut from: usize = 0;
    let mut to: usize = 0;
    let mut frames: u64 = 0;
    if start < e {
        frames = e - start;
        proof {
            let f = frame as int;
            assert(there * f <= len) by (nonlinear_arith)
                requires
                    there == len / f,
                    f > 0,
            ;
            assert(e * f <= there * f) by (nonlinear_arith)
                requires
                    e <= there,
                    f > 0,
            ;
            assert(start * f < e * f) by (nonlinear_arith)
                requires
                    start < e,
                    f > 0,
            ;
        }
        let a: u128 = layout.data_offset as u128 + (start * frame) as u128;
        let b: u128 = layout.data_offset as u128 + (e * frame) as u128;
        if b > file.len() as u128 {
            return Err(short(src));
        }
        from = a as usize;
        to = b as usize;
    }
    let data = copy_range(file, from, to);
    proof {
        let f = frame as int;
        let w = si.bits_per_sample as int / 8;
        let c = si.channels as int;
        assert(w == (si.bits_per_sample as int + 7) / 8);
        if start < e {
            assert(to - from == (e - start) * f) by (nonlinear_arith)
                requires
                    to - from == e * f - start * f,
            ;
            assert((e - start) * f == ((e - start) * c) * w) by (nonlinear_arith)
                requires
                    f == c * w,
            ;
            vstd::arithmetic::div_mod::lemma_mod_multiples_basic((e - start) * c, w);
        }
        assert(data@.len() == to - from);
    }
    let samples = samples_in(&data, si.bits_per_sample);
    write_excerpt(out, si, &samples, frames)
}

fn short(src: &str) -> (e: Error)
    ensures
        wav::is_fault(e, src@, wav::Fault::Short),
{
    Error::io(src, "failed to fill whole buffer")
}

} // verus!
