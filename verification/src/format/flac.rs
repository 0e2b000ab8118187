//! FLAC: what its header says, and its audio.

use crate::bytes;
use crate::bytes::twos_of;
use crate::digest;
use crate::digest::md5_of;
use crate::error::Error;
use crate::format::blocks;
use crate::format::wav;
use crate::format::wav::WavWriter;
use crate::model::StreamInfo;
use crate::seqs;
use crate::tag;
use crate::tag::{first_block, open, stream_header, vendor_of};
use vstd::prelude::*;
use vstd::string::*;

verus! {

/// Samples one after the other, each in `width` little-endian bytes.
pub open spec fn pcm_bytes(samples: Seq<i32>, width: nat) -> Seq<u8>
    decreases samples.len(),
{
    if samples.len() == 0 {
        Seq::empty()
    } else {
        pcm_bytes(samples.drop_last(), width) + bytes::le32(
            bytes::twos(samples.last() as int),
        ).take(width as int)
    }
}

/// How many bytes a sample takes: its bits rounded up.
pub open spec fn sample_width(bits: nat) -> nat {
    (bits + 7) / 8
}

/// What the buffers hold, one after the other.
pub open spec fn joined(buffers: Seq<&[i32]>) -> Seq<i32> {
    seqs::concat(buffers.map_values(|b: &[i32]| b@))
}

pub proof fn lemma_pcm_add(a: Seq<i32>, b: Seq<i32>, width: nat)
    ensures
        pcm_bytes(a + b, width) == pcm_bytes(a, width) + pcm_bytes(b, width),
    decreases b.len(),
{
    if b.len() == 0 {
        assert(a + b =~= a);
        assert(pcm_bytes(a, width) + Seq::<u8>::empty() =~= pcm_bytes(a, width));
    } else {
        lemma_pcm_add(a, b.drop_last(), width);
        assert((a + b).drop_last() =~= a + b.drop_last());
        let last = bytes::le32(bytes::twos(b.last() as int)).take(width as int);
        assert(pcm_bytes(a, width) + pcm_bytes(b.drop_last(), width) + last =~= pcm_bytes(a, width)
            + (pcm_bytes(b.drop_last(), width) + last));
    }
}

/// Appends samples as FLAC hashes them: signed, little-endian, in `width` bytes.
pub fn push_pcm(out: &mut Vec<u8>, samples: &[i32], width: usize)
    requires
        width <= 4,
    ensures
        final(out)@ == old(out)@ + pcm_bytes(samples@, width as nat),
{
    let ghost start = out@;
    let mut i: usize = 0;
    assert(start + pcm_bytes(samples@.take(0), width as nat) =~= start);
    while i < samples.len()
        invariant
            i <= samples.len(),
            width <= 4,
            out@ == start + pcm_bytes(samples@.take(i as int), width as nat),
        decreases samples.len() - i,
    {
        let ghost before = out@;
        let u: u32 = twos_of(samples[i]);
        let four: [u8; 4] = [
            (u % 256) as u8,
            (u / 256 % 256) as u8,
            (u / 65536 % 256) as u8,
            (u / 16777216 % 256) as u8,
        ];
        assert(four@ =~= bytes::le32(u as nat));
        let mut k: usize = 0;
        while k < width
            invariant
                k <= width <= 4,
                out@ == before + four@.take(k as int),
            decreases width - k,
        {
            out.push(four[k]);
            k += 1;
            assert(out@ =~= before + four@.take(k as int));
        }
        proof {
            let taken = samples@.take(i as int + 1);
            assert(taken.drop_last() =~= samples@.take(i as int));
            assert(taken.last() == samples@[i as int]);
            assert(out@ =~= start + pcm_bytes(taken, width as nat));
        }
        i += 1;
    }
    assert(samples@.take(samples@.len() as int) =~= samples@);
}

/// MD5 of several buffers of interleaved samples, as if they were one continuous PCM
/// stream, in FLAC's own convention: signed, little-endian, `bits_per_sample` rounded up to
/// whole bytes.
///
/// This is the whole-set invariant that a repair checks itself against: moving frames across
/// a boundary must never add or drop a sample from the set as a whole, only reassign which
/// file it belongs to.
pub fn concatenated_pcm_md5(buffers: &[&[i32]], bits_per_sample: u8) -> (d: [u8; 16])
    requires
        bits_per_sample <= 32,
    ensures
        d@ == digest::md5_digest(
            pcm_bytes(joined(buffers@), sample_width(bits_per_sample as nat)),
        ),
{
    let width: usize = (bits_per_sample as usize + 7) / 8;
    let mut all: Vec<u8> = Vec::new();
    let mut i: usize = 0;
    let ghost parts = buffers@.map_values(|b: &[i32]| b@);
    while i < buffers.len()
        invariant
            i <= buffers.len(),
            width <= 4,
            parts == buffers@.map_values(|b: &[i32]| b@),
            all@ == pcm_bytes(seqs::concat(parts.take(i as int)), width as nat),
        decreases buffers.len() - i,
    {
        proof {
            assert(parts.take(i as int + 1).drop_last() =~= parts.take(i as int));
            lemma_pcm_add(
                seqs::concat(parts.take(i as int)),
                buffers@[i as int]@,
                width as nat,
            );
        }
        push_pcm(&mut all, buffers[i], width);
        i += 1;
    }
    assert(parts.take(parts.len() as int) =~= parts);
    md5_of(&all)
}

// Decoding.

/// The longest run of zero bytes that a decoder can count its way through, bit by bit, in 32
/// bits.
pub const LONGEST_ZERO_RUN: usize = 536_870_910;

/// Whether nothing but zero bytes follow for longer than can be counted.
pub open spec fn zero_run(data: Seq<u8>, i: int) -> bool {
    &&& 0 <= i
    &&& i + LONGEST_ZERO_RUN < data.len()
    &&& forall|k: int| i <= k <= i + LONGEST_ZERO_RUN ==> #[trigger] data[k] == 0
}

/// Whether a decoder can count every run of zeros in a file.
pub open spec fn decodable(data: Seq<u8>) -> bool {
    forall|i: int| !#[trigger] zero_run(data, i)
}

/// Whether a decoder can count every run of zeros in a file. No encoder writes half a
/// gigabyte of them.
pub fn is_decodable(data: &[u8]) -> (b: bool)
    ensures
        b == decodable(data@),
{
    let mut i: usize = 0;
    let mut run: usize = 0;
    while i < data.len()
        invariant
            run <= i <= data.len(),
            run <= LONGEST_ZERO_RUN,
            forall|k: int| i - run <= k < i ==> #[trigger] data@[k] == 0,
            i - run > 0 ==> data@[i - run - 1] != 0,
            forall|j: int| j + LONGEST_ZERO_RUN < i ==> !#[trigger] zero_run(data@, j),
        decreases data.len() - i,
    {
        let ghost before: int = i as int;
        if data[i] == 0 {
            if run == LONGEST_ZERO_RUN {
                assert(zero_run(data@, i - run));
                return false;
            }
            run += 1;
        } else {
            run = 0;
        }
        i += 1;
        assert forall|j: int| j + LONGEST_ZERO_RUN < i implies !#[trigger] zero_run(data@, j) by {
            if j + LONGEST_ZERO_RUN == before && j >= 0 {
                if run == 0 {
                    assert(data@[before] != 0);
                } else {
                    assert(data@[i - run - 1] != 0);
                    assert(j <= i - run - 1 <= j + LONGEST_ZERO_RUN);
                }
            }
        }
    }
    true
}

/// What the header of a decoded FLAC says: the sample rate, the channels, the bits of a
/// sample, and how many frames.
pub type Heading = (u32, u32, u32, Option<u64>);

/// What a FLAC decodes to: its heading, its blocks, each the samples of every channel, and
/// what is wrong with what follows them; or what is wrong with its header.
pub type Stream = Result<(Heading, Seq<Seq<Seq<i32>>>, Option<Seq<char>>), Seq<char>>;

/// A block has between one and eight channels of the same length, which is not zero.
pub open spec fn is_block(b: Seq<Seq<i32>>) -> bool {
    &&& 1 <= b.len() <= 8
    &&& 1 <= b[0].len() <= 65535
    &&& forall|c: int| 0 <= c < b.len() ==> (#[trigger] b[c]).len() == b[0].len()
}

/// One sample of every channel.
pub open spec fn frame_at(b: Seq<Seq<i32>>, i: int) -> Seq<i32> {
    Seq::new(b.len(), |c: int| b[c][i])
}

/// The frames of a block from `from` to `to`, interleaved.
pub open spec fn frames_in(b: Seq<Seq<i32>>, from: int, to: int) -> Seq<i32>
    decreases to - from,
{
    if to <= from {
        Seq::empty()
    } else {
        frames_in(b, from, to - 1) + frame_at(b, to - 1)
    }
}

/// Every sample of some blocks, interleaved.
pub open spec fn samples_of(blocks: Seq<Seq<Seq<i32>>>) -> Seq<i32>
    decreases blocks.len(),
{
    if blocks.len() == 0 {
        Seq::empty()
    } else {
        let b = blocks.last();
        samples_of(blocks.drop_last()) + frames_in(b, 0, b[0].len() as int)
    }
}

/// What stands in a block's buffers.
pub open spec fn block_of(b: Vec<Vec<i32>>) -> Seq<Seq<i32>> {
    b@.map_values(|c: Vec<i32>| c@)
}

pub open spec fn blocks_of(v: Seq<Vec<Vec<i32>>>) -> Seq<Seq<Seq<i32>>> {
    v.map_values(|b: Vec<Vec<i32>>| block_of(b))
}

pub open spec fn are_blocks(blocks: Seq<Seq<Seq<i32>>>) -> bool {
    forall|i: int| 0 <= i < blocks.len() ==> is_block(#[trigger] blocks[i])
}

/// Blocks as a decoder gave them, with what the header says of the audio, and what is wrong
/// with what follows.
#[derive(Debug, Clone)]
pub struct Decoded {
    pub sample_rate: u32,
    pub channels: u32,
    pub bits_per_sample: u32,
    pub total_frames: Option<u64>,
    pub blocks: Vec<Vec<Vec<i32>>>,
    pub fault: Option<String>,
}

impl Decoded {
    pub open spec fn heading(&self) -> Heading {
        (self.sample_rate, self.channels, self.bits_per_sample, self.total_frames)
    }

    /// Between one and eight channels, between one and 32 bits a sample, at most 655350 Hz,
    /// and blocks that are some.
    pub open spec fn wf(&self) -> bool {
        &&& 1 <= self.channels <= 8
        &&& 1 <= self.bits_per_sample <= 32
        &&& 1 <= self.sample_rate <= 655_350
        &&& are_blocks(blocks_of(self.blocks@))
    }

    /// Whether these are the first blocks, at most `most`, of a stream. What is wrong after
    /// its last block shows only where more were asked for.
    pub open spec fn starts(&self, s: Stream, most: nat) -> bool {
        s matches Ok((h, all, fault)) && {
            &&& h == self.heading()
            &&& if most > all.len() {
                &&& blocks_of(self.blocks@) == all
                &&& said(self.fault) == fault
            } else {
                &&& blocks_of(self.blocks@) == all.take(most as int)
                &&& self.fault is None
            }
        }
    }
}

pub open spec fn said(fault: Option<String>) -> Option<Seq<char>> {
    match fault {
        Some(s) => Some(s@),
        None => None,
    }
}

/// What `claxon` makes of a FLAC.
pub uninterp spec fn flac_blocks(data: Seq<u8>) -> Result<
    ((u32, u32, u32, Option<u64>), Seq<Seq<Seq<i32>>>, Option<Seq<char>>),
    Seq<char>,
>;

/// `claxon::FlacReader::new`, then `read_next_or_eof` on its `blocks`, at most `most` times
/// and no further than the first error.
///
/// Claimed: the outcome is decided by the bytes alone, and asking for fewer blocks gives the
/// first of them; a header that it takes names between one and eight channels, between one
/// and 32 bits a sample, and a sample rate of at most 655350; a block has between one and
/// eight channels of one length, between 1 and 65535; and a file has more bytes than blocks.
/// Left unsaid: what the samples are.
#[verifier::external_body]
fn decode(data: &[u8], most: usize) -> (r: Result<Decoded, String>)
    requires
        decodable(data@),
    ensures
        match r {
            Ok(d) => d.starts(flac_blocks(data@), most as nat) && d.wf() && (flac_blocks(
                data@,
            )->Ok_0).1.len() < data@.len(),
            Err(said) => flac_blocks(data@) == Stream::Err(said@),
        },
{
    let mut reader = claxon::FlacReader::new(data).map_err(|e| e.to_string())?;
    let si = reader.streaminfo();
    let (sample_rate, channels, bits_per_sample) = (si.sample_rate, si.channels, si.bits_per_sample);
    let (mut blocks, mut fault, mut frames) = (Vec::new(), None, reader.blocks());
    for _ in 0..most {
        match frames.read_next_or_eof(Vec::new()) {
            Ok(Some(b)) => blocks.push((0..b.channels()).map(|c| b.channel(c).to_vec()).collect()),
            Ok(None) => break,
            Err(e) => {
                fault = Some(e.to_string());
                break;
            },
        }
    }
    Ok(Decoded { sample_rate, channels, bits_per_sample, total_frames: si.samples, blocks, fault })
}

/// The first blocks of a file, at most `most`.
pub fn decode_blocks(path: &str, file: &[u8], most: usize) -> (r: Result<Decoded, Error>)
    requires
        decodable(file@),
    ensures
        match r {
            Ok(d) => d.starts(flac_blocks(file@), most as nat) && d.wf() && (flac_blocks(
                file@,
            )->Ok_0).1.len() < file@.len(),
            Err(e) => flac_blocks(file@) matches Err(said) && is_flac_error(e, path@, said),
        },
{
    match decode(file, most) {
        Ok(d) => Ok(d),
        Err(said) => Err(Error::Flac { path: path.to_owned(), source: said }),
    }
}

/// Appends the frames of a block from `from` to `to`, interleaved.
pub fn push_frames(out: &mut Vec<i32>, b: &Vec<Vec<i32>>, from: usize, to: usize)
    requires
        is_block(block_of(*b)),
        to <= block_of(*b)[0].len(),
    ensures
        final(out)@ == old(out)@ + frames_in(block_of(*b), from as int, to as int),
{
    let ghost block = block_of(*b);
    let ghost start = out@;
    let mut i: usize = from;
    assert(start + Seq::<i32>::empty() =~= start);
    while i < to
        invariant
            from <= i,
            i <= to || i == from,
            block == block_of(*b),
            is_block(block),
            to <= block[0].len(),
            out@ == start + frames_in(block, from as int, i as int),
        decreases to - i,
    {
        let ghost before = out@;
        let mut c: usize = 0;
        assert(before + frame_at(block, i as int).take(0) =~= before);
        while c < b.len()
            invariant
                c <= b.len(),
                block == block_of(*b),
                is_block(block),
                i < block[0].len(),
                out@ == before + frame_at(block, i as int).take(c as int),
            decreases b.len() - c,
        {
            assert(block[c as int] == b@[c as int]@);
            out.push(b[c][i]);
            c += 1;
            assert(out@ =~= before + frame_at(block, i as int).take(c as int));
        }
        proof {
            assert(frame_at(block, i as int).take(c as int) =~= frame_at(block, i as int));
            assert(out@ =~= start + frames_in(block, from as int, i + 1));
        }
        i += 1;
    }
}

/// Every sample of some blocks, interleaved.
pub fn interleave(blocks: &Vec<Vec<Vec<i32>>>) -> (samples: Vec<i32>)
    requires
        are_blocks(blocks_of(blocks@)),
    ensures
        samples@ == samples_of(blocks_of(blocks@)),
{
    let ghost all = blocks_of(blocks@);
    let mut samples: Vec<i32> = Vec::new();
    let mut i: usize = 0;
    while i < blocks.len()
        invariant
            i <= blocks.len(),
            all == blocks_of(blocks@),
            are_blocks(all),
            samples@ == samples_of(all.take(i as int)),
        decreases blocks.len() - i,
    {
        proof {
            assert(all[i as int] == block_of(blocks@[i as int]));
            assert(all[i as int][0] == blocks@[i as int]@[0]@);
            assert(all.take(i + 1).drop_last() =~= all.take(i as int));
        }
        push_frames(&mut samples, &blocks[i], 0, blocks[i][0].len());
        i += 1;
    }
    assert(all.take(all.len() as int) =~= all);
    samples
}

/// What a FLAC decodes to as a whole: its heading and every sample, interleaved, or what is
/// wrong with it.
pub open spec fn whole(s: Stream) -> Result<(Heading, Seq<i32>), Seq<char>> {
    match s {
        Err(said) => Err(said),
        Ok((_, _, Some(said))) => Err(said),
        Ok((h, blocks, None)) => Ok((h, samples_of(blocks))),
    }
}

pub open spec fn flac_decoded(data: Seq<u8>) -> Result<(Heading, Seq<i32>), Seq<char>> {
    whole(flac_blocks(data))
}

/// Whether it is [`Error::Flac`] for this file, with these words.
pub open spec fn is_flac_error(e: Error, p: Seq<char>, said: Seq<char>) -> bool {
    e matches Error::Flac { path, source } && path@ == p && source@ == said
}

/// What a heading says of the audio.
pub open spec fn info_of_heading(h: Heading) -> StreamInfo {
    StreamInfo {
        sample_rate: h.0,
        channels: h.1 as u8,
        bits_per_sample: h.2 as u8,
        total_frames: h.3,
        audio_md5: None,
    }
}

/// A file's samples, the whole of them.
fn decode_file(path: &str, file: &[u8]) -> (r: Result<(StreamInfo, Vec<i32>), Error>)
    requires
        decodable(file@),
    ensures
        match flac_decoded(file@) {
            Ok((h, samples)) => r matches Ok((info, v)) && v@ == samples && info
                == info_of_heading(h) && info.bits_per_sample == h.2 && info.channels == h.1 && 1
                <= h.2 <= 32 && 1 <= h.1 <= 8,
            Err(said) => r matches Err(e) && is_flac_error(e, path@, said),
        },
{
    let d = decode_blocks(path, file, file.len())?;
    match d.fault {
        Some(said) => {
            return Err(Error::Flac { path: path.to_owned(), source: said });
        },
        None => {},
    }
    let info = StreamInfo {
        sample_rate: d.sample_rate,
        channels: d.channels as u8,
        bits_per_sample: d.bits_per_sample as u8,
        total_frames: d.total_frames,
        audio_md5: None,
    };
    Ok((info, interleave(&d.blocks)))
}

/// The MD5 of interleaved samples as FLAC hashes them.
pub open spec fn pcm_md5(samples: Seq<i32>, bits: nat) -> Seq<u8> {
    digest::md5_digest(pcm_bytes(samples, sample_width(bits)))
}

/// The MD5 of interleaved samples, as FLAC defines the one in its header: signed,
/// little-endian, `bits_per_sample` rounded up to whole bytes.
pub fn samples_md5(samples: &[i32], bits_per_sample: u8) -> (d: [u8; 16])
    requires
        bits_per_sample <= 32,
    ensures
        d@ == pcm_md5(samples@, bits_per_sample as nat),
{
    let width: usize = (bits_per_sample as usize + 7) / 8;
    let mut all: Vec<u8> = Vec::new();
    push_pcm(&mut all, samples, width);
    assert(all@ =~= pcm_bytes(samples@, width as nat));
    md5_of(&all)
}

/// The outcome of decoding and hashing a FLAC's audio.
pub open spec fn is_audio_md5(r: Result<[u8; 16], Error>, path: Seq<char>, file: Seq<u8>) -> bool {
    match flac_decoded(file) {
        Ok((h, samples)) => r matches Ok(d) && d@ == pcm_md5(samples, h.2 as nat),
        Err(said) => r matches Err(e) && is_flac_error(e, path, said),
    }
}

/// Decodes a file and hashes the raw interleaved samples, exactly as FLAC defines the MD5 in
/// its header.
pub fn audio_md5(path: &str, file: &[u8]) -> (r: Result<[u8; 16], Error>)
    requires
        decodable(file@),
    ensures
        is_audio_md5(r, path@, file@),
{
    let (info, samples) = decode_file(path, file)?;
    Ok(samples_md5(&samples, info.bits_per_sample))
}

/// Decodes a file fully into memory: every sample, interleaved, alongside what the stream
/// says of itself.
///
/// A repair needs a whole file as one buffer so that it can move frames across a boundary.
pub fn decode_to_samples(path: &str, file: &[u8]) -> (r: Result<(StreamInfo, Vec<i32>), Error>)
    requires
        decodable(file@),
    ensures
        match flac_decoded(file@) {
            Ok((h, samples)) => r matches Ok((info, v)) && v@ == samples && info
                == info_of_heading(h) && info.bits_per_sample == h.2 && info.channels == h.1 && 1 <= h.2 <= 32 && 1
                <= h.1 <= 8,
            Err(said) => r matches Err(e) && is_flac_error(e, path@, said),
        },
{
    decode_file(path, file)
}

/// The outcome of writing what a FLAC decodes to into a WAV under construction, which holds
/// `had` before and `has` after: the MD5 of the audio, or why there is none. Too much audio
/// shows before what is wrong with what follows it.
pub open spec fn is_written(
    r: Result<[u8; 16], Error>,
    path: Seq<char>,
    dst: Seq<char>,
    s: Stream,
    bits: nat,
    had: Seq<u8>,
    has: Seq<u8>,
) -> bool {
    match s {
        Err(said) => (r matches Err(e) && is_flac_error(e, path, said)) && has == had,
        Ok((h, blocks, fault)) => {
            let added = wav::samples_bytes(samples_of(blocks), bits);
            if had.len() + added.len() > wav::MAX_WAV_DATA {
                r matches Err(Error::Io { path: p, source }) && p@ == dst && source@
                    == "audio exceeds the 4 GiB a WAV file can address"@
            } else {
                &&& has == had + added
                &&& match fault {
                    Some(said) => r matches Err(e) && is_flac_error(e, path, said),
                    None => r matches Ok(d) && d@ == pcm_md5(samples_of(blocks), h.2 as nat),
                }
            }
        },
    }
}

/// Writes decoded audio into a WAV under construction, and gives its MD5.
pub fn write_decoded(path: &str, dst: &str, d: Decoded, out: &mut WavWriter) -> (r: Result<
    [u8; 16],
    Error,
>)
    requires
        d.wf(),
        old(out).wf(),
    ensures
        final(out).wf(),
        final(out).stream() == old(out).stream(),
        is_written(
            r,
            path@,
            dst@,
            Stream::Ok((d.heading(), blocks_of(d.blocks@), said(d.fault))),
            old(out).stream().bits_per_sample as nat,
            old(out).data(),
            final(out).data(),
        ),
{
    let samples = interleave(&d.blocks);
    match out.write_samples(&samples) {
        Ok(_) => {},
        Err(said) => {
            return Err(Error::io(dst, &said));
        },
    }
    match d.fault {
        Some(said) => Err(Error::Flac { path: path.to_owned(), source: said }),
        None => Ok(samples_md5(&samples, d.bits_per_sample as u8)),
    }
}

/// Decodes a file into a WAV under construction, and gives the MD5 of the audio that was
/// actually produced, so that it can be compared against the header without a second pass.
/// `dst` is used only to attribute write errors to the file that they happened on.
pub fn decode_to_wav(path: &str, dst: &str, file: &[u8], out: &mut WavWriter) -> (r: Result<
    [u8; 16],
    Error,
>)
    requires
        decodable(file@),
        old(out).wf(),
    ensures
        final(out).wf(),
        final(out).stream() == old(out).stream(),
        is_written(
            r,
            path@,
            dst@,
            flac_blocks(file@),
            old(out).stream().bits_per_sample as nat,
            old(out).data(),
            final(out).data(),
        ),
{
    let d = decode_blocks(path, file, file.len())?;
    write_decoded(path, dst, d, out)
}

// What the header says.

/// What a probe of a FLAC finds: the sample rate, the channels, the bits of a sample, how
/// many frames, and the MD5, where those two are set.
pub struct Found {
    pub sample_rate: u32,
    pub channels: u8,
    pub bits_per_sample: u8,
    pub total_frames: Option<u64>,
    pub audio_md5: Option<Seq<u8>>,
}

/// Whether every byte is zero.
pub open spec fn all_zero(md5: Seq<u8>) -> bool {
    forall|i: int| 0 <= i < md5.len() ==> #[trigger] md5[i] == 0
}

/// What a STREAMINFO block says. An all-zero MD5 stands for "not computed", and is no digest.
pub open spec fn found_in(h: (u32, u8, u8, u64, Seq<u8>)) -> Found {
    Found {
        sample_rate: h.0,
        channels: h.1,
        bits_per_sample: h.2,
        total_frames: if h.3 > 0 {
            Some(h.3)
        } else {
            None
        },
        audio_md5: if h.4.len() == 16 && !all_zero(h.4) {
            Some(h.4)
        } else {
            None
        },
    }
}

/// What a probe finds in a file's metadata: what the first STREAMINFO says, and the vendor,
/// where it is named.
pub open spec fn probed(m: tag::Metadata) -> Option<(Found, Option<Seq<char>>)> {
    let infos = m.0;
    let blocks = m.1;
    if infos.len() == 0 {
        None
    } else {
        Some(
            (
                found_in(infos[0]),
                if blocks.len() > 0 && blocks[0].0.len() > 0 {
                    Some(blocks[0].0)
                } else {
                    None
                },
            ),
        )
    }
}

pub open spec fn same_info(info: StreamInfo, f: Found) -> bool {
    &&& info.sample_rate == f.sample_rate
    &&& info.channels == f.channels
    &&& info.bits_per_sample == f.bits_per_sample
    &&& info.total_frames == f.total_frames
    &&& match f.audio_md5 {
        Some(d) => info.audio_md5 matches Some(m) && m@ == d,
        None => info.audio_md5 is None,
    }
}

/// The MD5 that a header stores, where it is set.
pub fn stored_md5(md5: &Vec<u8>) -> (r: Option<[u8; 16]>)
    ensures
        match r {
            Some(d) => md5@.len() == 16 && !all_zero(md5@) && d@ == md5@,
            None => md5@.len() != 16 || all_zero(md5@),
        },
{
    if md5.len() != 16 {
        return None;
    }
    let mut d: [u8; 16] = [0u8; 16];
    let mut set = false;
    let mut i: usize = 0;
    while i < 16
        invariant
            i <= 16,
            md5.len() == 16,
            d@.len() == 16,
            forall|k: int| 0 <= k < i ==> #[trigger] d@[k] == md5@[k],
            set == exists|k: int| 0 <= k < i && #[trigger] md5@[k] != 0,
        decreases 16 - i,
    {
        d[i] = md5[i];
        if md5[i] != 0 {
            set = true;
        }
        i += 1;
    }
    assert(d@ =~= md5@);
    if set {
        Some(d)
    } else {
        None
    }
}

/// The outcome of a probe of this metadata.
pub open spec fn is_found(
    r: Result<(StreamInfo, Option<String>), Error>,
    path: Seq<char>,
    m: tag::Metadata,
) -> bool {
    match probed(m) {
        None => r matches Err(e) && e.is_malformed(path, "FLAC file has no STREAMINFO block"@),
        Some((found, vendor)) => r matches Ok((info, encoder)) && same_info(info, found)
            && match vendor {
            Some(v) => encoder matches Some(s) && s@ == v,
            None => encoder is None,
        },
    }
}

/// What the header says and the vendor string. No decode, so that this is fast enough to run
/// across a whole working set.
pub fn probe(path: &str, file: &[u8]) -> (r: Result<(StreamInfo, Option<String>), Error>)
    requires
        blocks::readable_blocks(file@),
    ensures
        match tag::flac_metadata(file@) {
            Ok(m) => is_found(r, path@, m),
            Err(said) => r matches Err(e) && crate::format::is_meta_error(e, path@, said),
        },
{
    let t = open(path, file)?;
    probe_metadata(path, &t)
}

/// What the header says and the vendor string, from a file's metadata.
pub fn probe_metadata(path: &str, meta: &metaflac::Tag) -> (r: Result<
    (StreamInfo, Option<String>),
    Error,
>)
    ensures
        is_found(r, path@, tag::metadata_of(*meta)),
{
    let h = match stream_header(meta) {
        Some(h) => h,
        None => {
            return Err(Error::malformed(path, "FLAC file has no STREAMINFO block"));
        },
    };
    let info = StreamInfo {
        sample_rate: h.sample_rate,
        channels: h.channels,
        bits_per_sample: h.bits_per_sample,
        total_frames: if h.total_samples > 0 {
            Some(h.total_samples)
        } else {
            None
        },
        audio_md5: stored_md5(&h.md5),
    };
    let encoder: Option<String> = match first_block(meta) {
        Some(b) => {
            let v = vendor_of(&b);
            if v.as_str().is_empty() {
                None
            } else {
                Some(v)
            }
        },
        None => None,
    };
    Ok((info, encoder))
}

} // verus!
