//! The order of samples: in blocks, in what is hashed, and in what is written.

use super::flac;
use super::header;
use super::wav;
use crate::bytes;
use crate::convert;
use crate::convert::{Conversion, EncodeOpts};
use crate::digest;
use crate::error::Error;
use crate::model::{AudioFile, AudioFormat, StreamInfo};
use crate::tag;
use crate::text;
use crate::tools::Agent;
use vstd::prelude::*;

verus! {

/// Samples are interleaved: of the frames of a block, the sample of a channel stands behind all
/// those of the frames before it and those of the channels before it in its own.
pub proof fn law_samples_are_interleaved(b: Seq<Seq<i32>>, n: int, i: int, k: int)
    requires
        b.len() > 0,
        0 <= i < n,
        0 <= k < b.len(),
    ensures
        flac::frames_in(b, 0, n).len() == n * b.len(),
        0 <= i * b.len() + k < n * b.len(),
        flac::frames_in(b, 0, n)[i * b.len() + k] == b[k][i],
    decreases n,
{
    let c = b.len() as int;
    let had = flac::frames_in(b, 0, n - 1);
    let all = flac::frames_in(b, 0, n);
    lemma_frames_len(b, n);
    lemma_frames_len(b, n - 1);
    assert(n * c == (n - 1) * c + c) by (nonlinear_arith);
    assert(all == had + flac::frame_at(b, n - 1));
    assert(0 <= i * c) by (nonlinear_arith)
        requires
            0 <= i,
            c > 0,
    ;
    if i < n - 1 {
        law_samples_are_interleaved(b, n - 1, i, k);
    } else {
        assert(all[had.len() as int + k] == flac::frame_at(b, n - 1)[k]);
    }
}

proof fn lemma_frames_len(b: Seq<Seq<i32>>, n: int)
    requires
        0 <= n,
    ensures
        flac::frames_in(b, 0, n).len() == n * b.len(),
    decreases n,
{
    let c = b.len() as int;
    if n > 0 {
        lemma_frames_len(b, n - 1);
        assert(n * c == (n - 1) * c + c) by (nonlinear_arith);
    } else {
        assert(0 * c == 0) by (nonlinear_arith);
    }
}

/// Blocks follow one another: the samples of some blocks and of more are those of the first and
/// then those of the rest, and those of one block are its frames.
pub proof fn law_blocks_follow_one_another(
    a: Seq<Seq<Seq<i32>>>,
    more: Seq<Seq<Seq<i32>>>,
    b: Seq<Seq<i32>>,
)
    ensures
        flac::samples_of(a + more) == flac::samples_of(a) + flac::samples_of(more),
        flac::samples_of(seq![b]) == flac::frames_in(b, 0, b[0].len() as int),
    decreases more.len(),
{
    let one = seq![b];
    let none = one.drop_last();
    assert(none =~= Seq::<Seq<Seq<i32>>>::empty());
    assert(one.last() == b);
    assert(flac::samples_of(none) =~= Seq::<i32>::empty());
    assert(flac::samples_of(one) =~= flac::frames_in(b, 0, b[0].len() as int));
    if more.len() == 0 {
        assert(a + more =~= a);
        assert(flac::samples_of(a) + flac::samples_of(more) =~= flac::samples_of(a));
    } else {
        law_blocks_follow_one_another(a, more.drop_last(), b);
        assert((a + more).drop_last() =~= a + more.drop_last());
        assert((a + more).last() == more.last());
        assert(flac::samples_of(a + more) =~= flac::samples_of(a) + flac::samples_of(more));
    }
}

/// What of a sample stands in its `k`-th byte: two's complement, the least significant first.
pub open spec fn byte_of(s: int, k: int) -> int {
    let u = if s < 0 {
        s + 0x1_0000_0000
    } else {
        s
    };
    if k == 0 {
        u % 256
    } else if k == 1 {
        u / 256 % 256
    } else if k == 2 {
        u / 65536 % 256
    } else {
        u / 16777216 % 256
    }
}

/// What is hashed of audio are its samples one after the other, each in as many bytes as its
/// bits fill, signed, and the least significant byte first.
pub proof fn law_samples_are_hashed_in_order(samples: Seq<i32>, bits: nat, i: int, k: int)
    requires
        1 <= bits <= 32,
        0 <= i < samples.len(),
        0 <= k < (bits + 7) / 8,
    ensures
        ({
            let w = ((bits + 7) / 8) as int;
            &&& flac::pcm_md5(samples, bits) == digest::md5_digest(
                flac::pcm_bytes(samples, w as nat),
            )
            &&& flac::pcm_bytes(samples, w as nat).len() == samples.len() * w
            &&& 0 <= i * w + k < samples.len() * w
            &&& flac::pcm_bytes(samples, w as nat)[i * w + k] == byte_of(samples[i] as int, k)
        }),
    decreases samples.len(),
{
    let w = ((bits + 7) / 8) as int;
    let n = samples.len() as int;
    let front = samples.drop_last();
    let had = flac::pcm_bytes(front, w as nat);
    let all = flac::pcm_bytes(samples, w as nat);
    lemma_pcm_len(samples, w);
    lemma_pcm_len(front, w);
    assert(n * w == (n - 1) * w + w) by (nonlinear_arith);
    assert(0 <= i * w) by (nonlinear_arith)
        requires
            0 <= i,
            w > 0,
    ;
    if i < n - 1 {
        law_samples_are_hashed_in_order(front, bits, i, k);
        assert(front[i] == samples[i]);
    } else {
        let u = bytes::twos(samples[i] as int);
        let last = bytes::le32(u).take(w);
        assert(all == had + last);
        assert(all[had.len() as int + k] == last[k]);
    }
}

proof fn lemma_pcm_len(samples: Seq<i32>, w: int)
    requires
        0 <= w <= 4,
    ensures
        flac::pcm_bytes(samples, w as nat).len() == samples.len() * w,
    decreases samples.len(),
{
    let n = samples.len() as int;
    if n > 0 {
        lemma_pcm_len(samples.drop_last(), w);
        assert(n * w == (n - 1) * w + w) by (nonlinear_arith);
    } else {
        assert(0 * w == 0) by (nonlinear_arith);
    }
}

proof fn lemma_held(si: StreamInfo, samples: Seq<i32>, i: int)
    requires
        wav::writable(si),
        0 <= i < samples.len(),
        header::in_bits(samples[i] as int, si.bits_per_sample as nat),
    ensures
        ({
            let bits = si.bits_per_sample as nat;
            let at: int = if si.bits_per_sample > 16 || si.channels > 2 {
                68
            } else {
                44
            };
            let file = wav::wav_file(si, wav::samples_bytes(samples, bits));
            header::stored(file.skip(at), i, bits) == samples[i]
        }),
{
    let bits = si.bits_per_sample as nat;
    let data = wav::samples_bytes(samples, bits);
    let file = wav::wav_file(si, data);
    let at = wav::header_len(si) as int;
    header::law_samples_are_stored(samples, bits, i);
    let w = (bits / 8) as int;
    assert(i * w + w <= samples.len() * w && 0 <= i * w) by (nonlinear_arith)
        requires
            0 <= i < samples.len(),
            w > 0,
    ;
    wav::lemma_header_len(si, wav::riff_len(si, data.len()), data.len());
    let rest = file.skip(at);
    assert forall|k: int| 0 <= k < data.len() implies #[trigger] rest[k] == data[k] by {}
    assert forall|k: int| 0 <= k < bits / 8 implies rest[i * (bits / 8) as int + k]
        == #[trigger] data[i * (bits / 8) as int + k] by {}
    header::lemma_stored_same(rest, i, data, i, bits);
}

/// A WAV that is made of a FLAC holds every sample that was decoded, at its place and with its
/// value, the audio has the MD5 that is recorded, and where the FLAC's header has one it is the
/// same.
pub proof fn law_wav_holds_what_was_decoded(
    r: Result<(Vec<u8>, Conversion), Error>,
    probed: AudioFile,
    stream: flac::Stream,
    temp: Seq<char>,
    dst: Seq<char>,
    i: int,
)
    requires
        convert::is_wav_of(r, probed, stream, temp, dst),
        r is Ok,
        stream is Ok,
        0 <= i < flac::samples_of((stream->Ok_0).1).len(),
        header::in_bits(
            flac::samples_of((stream->Ok_0).1)[i] as int,
            probed.stream_info.bits_per_sample as nat,
        ),
    ensures
        ({
            let si = probed.stream_info;
            let samples = flac::samples_of((stream->Ok_0).1);
            let file = (r->Ok_0).0@;
            let done = (r->Ok_0).1;
            let at: int = if si.bits_per_sample > 16 || si.channels > 2 {
                68
            } else {
                44
            };
            &&& (stream->Ok_0).2 is None
            &&& header::stored(file.skip(at), i, si.bits_per_sample as nat) == samples[i]
            &&& done.audio_md5@ == flac::pcm_md5(samples, ((stream->Ok_0).0).2 as nat)
            &&& (si.audio_md5 matches Some(m) ==> m@ == done.audio_md5@)
            &&& done.checked_against_source == (si.audio_md5 is Some)
            &&& done.output@ == dst
            &&& done.provenance.input@ == probed.path@
            &&& done.provenance.output@ == dst
        }),
{
    let si = probed.stream_info;
    let samples = flac::samples_of((stream->Ok_0).1);
    lemma_held(si, samples, i);
}

/// A FLAC that was encoded is kept only where its header holds the MD5 of the source's audio,
/// except at 8 bits, where the two cannot be compared and it is said that they were not.
pub proof fn law_encoded_flac_holds_the_audio(
    r: Result<Conversion, Error>,
    src: Seq<char>,
    dst: Seq<char>,
    agent: Agent,
    bits: u8,
    source_md5: Seq<u8>,
    written_md5: Option<[u8; 16]>,
)
    requires
        convert::is_encoded(r, src, dst, agent, bits, source_md5, written_md5),
    ensures
        r is Ok == (written_md5 matches Some(m) && (bits == 8 || m@ == source_md5)),
        r matches Ok(c) ==> {
            &&& written_md5 == Some(c.audio_md5)
            &&& c.checked_against_source == (bits != 8)
            &&& c.checked_against_source ==> c.audio_md5@ == source_md5
            &&& c.output@ == dst
            &&& c.provenance.input@ == src
            &&& c.provenance.output@ == dst
            &&& c.provenance.agent == agent
        },
{
}

/// `flac` is told how hard to compress, to verify where that is asked for, what to write, and,
/// behind the end of its options, what to read.
pub proof fn law_flac_is_told(opts: EncodeOpts, temp: Seq<char>, src: Seq<char>)
    ensures
        ({
            let args = convert::flac_args(opts, temp, src);
            let n = args.len() as int;
            &&& n == if opts.verify {
                7int
            } else {
                6int
            }
            &&& args[n - 1] == src
            &&& args[n - 2] == "--"@
            &&& args[n - 3] == temp
            &&& args[n - 4] == "-o"@
            &&& args[1] == "--compression-level-"@ + text::decimal(opts.compression_level as nat)
            &&& opts.verify ==> args[2] == "--verify"@
        }),
{
}

/// What is found out of a FLAC is what its first header says, the vendor of its first comments,
/// and how large the file is; a length of zero and an MD5 of zeros are none.
pub proof fn law_probe_says_what_the_header_says(a: AudioFile, path: Seq<char>, file: Seq<u8>)
    requires
        super::is_probe(Ok(a), AudioFormat::Flac, path, file),
    ensures
        tag::flac_metadata(file) matches Ok(m) && m.0.len() > 0 && {
            let h = m.0[0];
            let si = a.stream_info;
            &&& a.path@ == path
            &&& a.format is Flac
            &&& a.file_size == file.len()
            &&& si.sample_rate == h.0
            &&& si.channels == h.1
            &&& si.bits_per_sample == h.2
            &&& si.total_frames is None == (h.3 == 0)
            &&& si.total_frames is Some ==> si.total_frames->0 == h.3
            &&& si.audio_md5 is Some ==> si.audio_md5->0@ == h.4
            &&& h.4.len() == 16 ==> (si.audio_md5 is None == (forall|i: int|
                0 <= i < 16 ==> #[trigger] h.4[i] == 0))
            &&& a.encoder is Some ==> m.1.len() > 0 && a.encoder->0@ == m.1[0].0
        },
{
}

} // verus!
