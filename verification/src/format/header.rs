//! What stands where in a WAV that is written, and what a sample is in it.

use super::wav;
use crate::bytes;
use crate::model::StreamInfo;
use vstd::prelude::*;

verus! {

proof fn lemma_frame(si: StreamInfo)
    requires
        wav::writable(si),
        si.sample_rate * (si.channels * ((si.bits_per_sample + 7) / 8)) <= 0xFFFF_FFFF,
    ensures
        si.frame_bytes() == si.channels * ((si.bits_per_sample + 7) / 8),
        si.frame_bytes() <= 765,
{
    let c = si.channels as int;
    let w = (si.bits_per_sample as int + 7) / 8;
    assert(c * w <= 255 * 3) by (nonlinear_arith)
        requires
            0 <= c <= 255,
            0 <= w <= 3,
    ;
}

/// Bytes of one sequence stand in another.
proof fn lemma_held(s: Seq<u8>, i: int, part: Seq<u8>)
    requires
        0 <= i,
        i + part.len() <= s.len(),
        s.subrange(i, i + part.len()) == part,
    ensures
        bytes::holds_at(s, i, part),
{
    assert forall|k: int| 0 <= k < part.len() implies #[trigger] s[i + k] == part[k] by {
        assert(s.subrange(i, i + part.len())[k] == s[i + k]);
    }
}

/// Every field of a written WAV's header: the two lengths are those of what follows them, a
/// frame is a sample of every channel, each in whole bytes, and a second is as many frames as
/// the rate says. Up to 16 bits and two channels the format is plain PCM; above, it names the
/// subtype.
#[verifier::rlimit(80)]
#[verifier::spinoff_prover]
pub proof fn law_header_describes_the_audio(si: StreamInfo, data: Seq<u8>)
    requires
        wav::writable(si),
        si.sample_rate * (si.channels * ((si.bits_per_sample + 7) / 8)) <= 0xFFFF_FFFF,
        wav::wav_file(si, data).len() <= 0xFFFF_FFFF,
    ensures
        ({
            let file = wav::wav_file(si, data);
            let long = si.bits_per_sample > 16 || si.channels > 2;
            let at: int = if long {
                68
            } else {
                44
            };
            let frame = si.channels * ((si.bits_per_sample + 7) / 8);
            &&& file.len() == at + data.len() + data.len() % 2
            &&& file.subrange(0, 4) == seq![0x52u8, 0x49, 0x46, 0x46]
            &&& bytes::u32_at(file, 4) == file.len() - 8
            &&& file.subrange(8, 16) == seq![0x57u8, 0x41, 0x56, 0x45, 0x66, 0x6d, 0x74, 0x20]
            &&& bytes::u32_at(file, 16) == at - 28
            &&& bytes::u16_at(file, 20) == if long {
                0xFFFEnat
            } else {
                1
            }
            &&& bytes::u16_at(file, 22) == si.channels
            &&& bytes::u32_at(file, 24) == si.sample_rate
            &&& bytes::u32_at(file, 28) == si.sample_rate * frame
            &&& bytes::u16_at(file, 32) == frame
            &&& bytes::u16_at(file, 34) == si.bits_per_sample
            &&& long ==> bytes::u16_at(file, 36) == 22 && bytes::u16_at(file, 38)
                == si.bits_per_sample && file.subrange(44, 60) == seq![
                1u8,
                0,
                0,
                0,
                0,
                0,
                0x10,
                0,
                0x80,
                0,
                0,
                0xAA,
                0,
                0x38,
                0x9B,
                0x71,
            ]
            &&& file.subrange(at - 8, at - 4) == seq![0x64u8, 0x61, 0x74, 0x61]
            &&& bytes::u32_at(file, at - 4) == data.len()
            &&& file.subrange(at, at + data.len()) == data
            &&& data.len() % 2 == 1 ==> file.last() == 0
        }),
{
    let file = wav::wav_file(si, data);
    let riff = wav::riff_len(si, data.len());
    let head = wav::header(si, riff, data.len());
    let body = wav::fmt_body(si);
    let at = wav::header_len(si) as int;
    lemma_frame(si);
    let frame = si.frame_bytes();
    let rate = si.sample_rate as nat * frame;
    assert(head.len() == at);
    let tag: nat = if wav::is_extensible(si) {
        0xFFFE
    } else {
        1
    };
    assert(file.subrange(0, 4) =~= seq![0x52u8, 0x49, 0x46, 0x46]);
    assert(file.subrange(8, 16) =~= seq![0x57u8, 0x41, 0x56, 0x45, 0x66, 0x6d, 0x74, 0x20]);
    assert(file.subrange(4, 8) =~= bytes::le32(riff));
    lemma_held(file, 4, bytes::le32(riff));
    bytes::lemma_le32(riff, file, 4);
    assert(file.subrange(16, 20) =~= bytes::le32(body.len()));
    lemma_held(file, 16, bytes::le32(body.len()));
    bytes::lemma_le32(body.len(), file, 16);
    assert(file.subrange(20, 20 + body.len() as int) =~= body);
    assert(file.subrange(20, 22) =~= bytes::le16(tag));
    lemma_held(file, 20, bytes::le16(tag));
    bytes::lemma_le16(tag, file, 20);
    assert(file.subrange(22, 24) =~= bytes::le16(si.channels as nat));
    lemma_held(file, 22, bytes::le16(si.channels as nat));
    bytes::lemma_le16(si.channels as nat, file, 22);
    assert(file.subrange(24, 28) =~= bytes::le32(si.sample_rate as nat));
    lemma_held(file, 24, bytes::le32(si.sample_rate as nat));
    bytes::lemma_le32(si.sample_rate as nat, file, 24);
    assert(file.subrange(28, 32) =~= bytes::le32(rate));
    lemma_held(file, 28, bytes::le32(rate));
    bytes::lemma_le32(rate, file, 28);
    assert(file.subrange(32, 34) =~= bytes::le16(frame));
    lemma_held(file, 32, bytes::le16(frame));
    bytes::lemma_le16(frame, file, 32);
    assert(file.subrange(34, 36) =~= bytes::le16(si.bits_per_sample as nat));
    lemma_held(file, 34, bytes::le16(si.bits_per_sample as nat));
    bytes::lemma_le16(si.bits_per_sample as nat, file, 34);
    if wav::is_extensible(si) {
        assert(file.subrange(36, 38) =~= bytes::le16(22));
        lemma_held(file, 36, bytes::le16(22));
        bytes::lemma_le16(22, file, 36);
        assert(file.subrange(38, 40) =~= bytes::le16(si.bits_per_sample as nat));
        lemma_held(file, 38, bytes::le16(si.bits_per_sample as nat));
        bytes::lemma_le16(si.bits_per_sample as nat, file, 38);
        assert(file.subrange(44, 60) =~= wav::subtype_pcm());
    }
    assert(file.subrange(at - 8, at - 4) =~= seq![0x64u8, 0x61, 0x74, 0x61]);
    assert(file.subrange(at - 4, at) =~= bytes::le32(data.len()));
    lemma_held(file, at - 4, bytes::le32(data.len()));
    bytes::lemma_le32(data.len(), file, at - 4);
    assert(file.subrange(at, at + data.len()) =~= data);
}

/// Up to eight channels, each has a speaker of its own; above, none is named.
pub proof fn law_every_channel_has_a_speaker(si: StreamInfo, data: Seq<u8>)
    requires
        wav::writable(si),
        si.bits_per_sample > 16 || si.channels > 2,
    ensures
        bytes::u32_at(wav::wav_file(si, data), 40) == match si.channels {
            // Front centre.
            1u8 => 4nat,
            // Front left and right.
            2u8 => 1 + 2,
            3u8 => 1 + 2 + 4,
            // With back left and right.
            4u8 => 1 + 2 + 16 + 32,
            5u8 => 1 + 2 + 4 + 16 + 32,
            6u8 => 1 + 2 + 4 + 8 + 16 + 32,
            // With low frequencies, back centre, and side left and right.
            7u8 => 1 + 2 + 4 + 8 + 256 + 512 + 1024,
            8u8 => 1 + 2 + 4 + 8 + 16 + 32 + 512 + 1024,
            _ => 0,
        },
{
    let file = wav::wav_file(si, data);
    let mask = wav::mask_of(si.channels as nat);
    assert(file.subrange(40, 44) =~= bytes::le32(mask));
    lemma_held(file, 40, bytes::le32(mask));
    bytes::lemma_le32(mask, file, 40);
}

/// What a WAV's bytes hold at a sample: unsigned at 8 bits, and otherwise two's complement, the
/// least significant byte first.
pub open spec fn stored(b: Seq<u8>, i: int, bits: nat) -> int {
    if bits == 8 {
        b[i] - 128
    } else if bits == 16 {
        let n = b[2 * i] + 256 * b[2 * i + 1];
        if n < 0x8000 {
            n
        } else {
            n - 0x1_0000
        }
    } else {
        let n = b[3 * i] + 256 * b[3 * i + 1] + 65536 * b[3 * i + 2];
        if n < 0x80_0000 {
            n
        } else {
            n - 0x100_0000
        }
    }
}

/// The least and the greatest sample of so many bits, one past the latter.
pub open spec fn in_bits(s: int, bits: nat) -> bool {
    if bits == 8 {
        -0x80 <= s < 0x80
    } else if bits == 16 {
        -0x8000 <= s < 0x8000
    } else {
        -0x80_0000 <= s < 0x80_0000
    }
}

proof fn lemma_one(s: i32, bits: nat)
    requires
        bits == 8 || bits == 16 || bits == 24,
        in_bits(s as int, bits),
    ensures
        wav::sample_bytes(s, bits).len() == bits / 8,
        stored(wav::sample_bytes(s, bits), 0, bits) == s,
{
    let b = wav::sample_bytes(s, bits);
    let u = bytes::twos(s as int) as int;
    let four = bytes::le32(u as nat);
    assert(four[0] == (u % 256) as u8);
    if bits == 8 {
        assert(b[0] == (four[0] + 128) % 256);
    } else if bits == 16 {
        assert(b[0] == four[0] && b[1] == four[1]);
        assert(four[1] == u / 256 % 256);
        assert(b[0] + 256 * b[1] == u % 65536);
    } else {
        assert(b[0] == four[0] && b[1] == four[1] && b[2] == four[2]);
        assert(four[1] == u / 256 % 256);
        assert(four[2] == u / 65536 % 256);
        assert(b[0] + 256 * b[1] + 65536 * b[2] == u % 16777216);
    }
}

/// What is stored at a place depends on the bytes there alone.
pub proof fn lemma_stored_same(a: Seq<u8>, i: int, b: Seq<u8>, j: int, bits: nat)
    requires
        bits == 8 || bits == 16 || bits == 24,
        forall|k: int| 0 <= k < bits / 8 ==> a[i * (bits / 8) as int + k] == #[trigger] b[j * (bits
            / 8) as int + k],
    ensures
        stored(a, i, bits) == stored(b, j, bits),
{
    let w = (bits / 8) as int;
    assert(bits == 8 ==> i * w == i && j * w == j) by (nonlinear_arith)
        requires
            bits == 8 ==> w == 1,
    ;
    assert(bits == 16 ==> i * w == 2 * i && j * w == 2 * j) by (nonlinear_arith)
        requires
            bits == 16 ==> w == 2,
    ;
    assert(bits == 24 ==> i * w == 3 * i && j * w == 3 * j) by (nonlinear_arith)
        requires
            bits == 24 ==> w == 3,
    ;
    assert(a[i * w + 0] == b[j * w + 0]);
    if bits > 8 {
        assert(a[i * w + 1] == b[j * w + 1]);
    }
    if bits > 16 {
        assert(a[i * w + 2] == b[j * w + 2]);
    }
}

/// Every sample of the audio stands in a WAV, at its place and with its value.
pub proof fn law_samples_are_stored(samples: Seq<i32>, bits: nat, i: int)
    requires
        bits == 8 || bits == 16 || bits == 24,
        0 <= i < samples.len(),
        in_bits(samples[i] as int, bits),
    ensures
        wav::samples_bytes(samples, bits).len() == samples.len() * (bits / 8),
        stored(wav::samples_bytes(samples, bits), i, bits) == samples[i],
    decreases samples.len(),
{
    let b = wav::samples_bytes(samples, bits);
    let front = samples.drop_last();
    let had = wav::samples_bytes(front, bits);
    lemma_stored_len(samples, bits);
    lemma_stored_len(front, bits);
    let w = (bits / 8) as int;
    let n = front.len() as int;
    if i < n {
        law_samples_are_stored(front, bits, i);
        assert(i * w + w <= n * w) by (nonlinear_arith)
            requires
                i + 1 <= n,
                w > 0,
        ;
        assert(0 <= i * w) by (nonlinear_arith)
            requires
                0 <= i,
                w > 0,
        ;
        assert forall|k: int| 0 <= k < w implies b[i * w + k] == #[trigger] had[i * w + k] by {}
        lemma_stored_same(b, i, had, i, bits);
    } else {
        let one = wav::sample_bytes(samples[i], bits);
        lemma_one(samples[i], bits);
        assert(0 * w == 0) by (nonlinear_arith);
        assert forall|k: int| 0 <= k < w implies b[i * w + k] == #[trigger] one[0 * w + k] by {
            assert(b[had.len() as int + k] == one[k]);
        }
        lemma_stored_same(b, i, one, 0, bits);
    }
}

proof fn lemma_stored_len(samples: Seq<i32>, bits: nat)
    requires
        bits == 8 || bits == 16 || bits == 24,
    ensures
        wav::samples_bytes(samples, bits).len() == samples.len() * (bits / 8),
    decreases samples.len(),
{
    let n = samples.len() as int;
    if n > 0 {
        lemma_stored_len(samples.drop_last(), bits);
        let w = bits as int / 8;
        assert(n * w == (n - 1) * w + w) by (nonlinear_arith);
    }
}

// Reading.

/// Where audio stands, so many bytes further on.
pub open spec fn moved(data: Option<(int, int)>, d: int) -> Option<(int, int)> {
    match data {
        Some((at, len)) => Some((at + d, len)),
        None => None,
    }
}

proof fn lemma_walk_moved(
    a: Seq<u8>,
    i: int,
    b: Seq<u8>,
    j: int,
    fmt: Option<wav::Fmt>,
    data: Option<(int, int)>,
)
    requires
        0 <= i,
        0 <= j,
        a.len() - i == b.len() - j,
        i <= a.len() ==> wav::alike(a, i, b, j, a.len() - i),
    ensures
        match wav::walk(a, i, fmt, data) {
            Err(e) => wav::walk(b, j, fmt, moved(data, j - i)) == Result::<
                (Option<wav::Fmt>, Option<(int, int)>),
                wav::Fault,
            >::Err(e),
            Ok((f, d)) => wav::walk(b, j, fmt, moved(data, j - i)) == Result::<
                (Option<wav::Fmt>, Option<(int, int)>),
                wav::Fault,
            >::Ok((f, moved(d, j - i))),
        },
    decreases wav::left(a, i),
{
    if i + 8 <= a.len() {
        assert(wav::alike(a, i, b, j, 8));
        wav::lemma_alike_header(a, i, b, j);
        let id = a.subrange(i, i + 4);
        let size = bytes::u32_at(a, i + 4) as int;
        let n = 8 + size + size % 2;
        if i + n <= a.len() {
            assert forall|k: int| 0 <= k < a.len() - (i + n) implies #[trigger] a[i + n + k] == b[j
                + n + k] by {
                assert(a[i + (n + k)] == b[j + (n + k)]);
            }
        }
        if id == wav::fmt_tag() {
            if i + 8 + size <= a.len() {
                assert forall|k: int| 0 <= k < size implies #[trigger] a[i + 8 + k] == b[j + 8
                    + k] by {
                    assert(a[i + (8 + k)] == b[j + (8 + k)]);
                }
                wav::lemma_alike_fmt(a, i + 8, b, j + 8, size);
            }
            if let Ok(f) = wav::read_fmt(a, i + 8, size) {
                if data is None {
                    lemma_walk_moved(a, i + n, b, j + n, Some(f), data);
                }
            }
        } else if id == wav::data_tag() {
            if fmt is None {
                lemma_walk_moved(a, i + n, b, j + n, fmt, Some((i + 8, size)));
            }
        } else {
            lemma_walk_moved(a, i + n, b, j + n, fmt, data);
        }
    }
}

/// A chunk of any other kind before the rest of a WAV is passed over, with the byte that pads
/// it where it is of odd length: the format and the audio are found as without it, so many
/// bytes further on.
pub proof fn law_other_chunks_are_passed_over(
    start: Seq<u8>,
    id: Seq<u8>,
    body: Seq<u8>,
    pad: Seq<u8>,
    rest: Seq<u8>,
)
    requires
        start.len() == 12,
        id.len() == 4,
        id != seq![0x66u8, 0x6d, 0x74, 0x20],
        id != seq![0x64u8, 0x61, 0x74, 0x61],
        body.len() <= 0xFFFF_FFFF,
        pad.len() == body.len() % 2,
    ensures
        ({
            let file = start + id + bytes::le32(body.len()) + body + pad + rest;
            let n = 8 + body.len() + body.len() % 2;
            match wav::parse(start + rest) {
                Ok((f, at, len)) => wav::parse(file) == Ok::<(wav::Fmt, int, int), wav::Fault>(
                    (f, at + n, len),
                ),
                Err(e) => wav::parse(file) == Err::<(wav::Fmt, int, int), wav::Fault>(e),
            }
        }),
{
    let file = start + id + bytes::le32(body.len()) + body + pad + rest;
    let short = start + rest;
    let size = body.len() as int;
    let n = 8 + size + size % 2;
    assert(file.subrange(12, 16) =~= id);
    assert(file.subrange(16, 20) =~= bytes::le32(body.len()));
    lemma_held(file, 16, bytes::le32(body.len()));
    bytes::lemma_le32(body.len(), file, 16);
    assert(file.subrange(0, 4) =~= short.subrange(0, 4));
    assert(file.subrange(8, 12) =~= short.subrange(8, 12));
    assert(wav::fmt_tag() =~= seq![0x66u8, 0x6d, 0x74, 0x20]);
    assert(wav::data_tag() =~= seq![0x64u8, 0x61, 0x74, 0x61]);
    assert forall|k: int| 0 <= k < rest.len() implies #[trigger] short[12 + k] == file[12 + n
        + k] by {}
    lemma_walk_moved(short, 12, file, 12 + n, None, None);
    assert(wav::walk(file, 12, None, None) == wav::walk(file, 12 + n, None, None));
}

/// What is said of a format is what stands in the `fmt ` chunk, wherever in the file that is:
/// channels, rate and bits, of PCM or of the form that names its subtype.
pub proof fn law_format_is_what_the_chunk_says(file: Seq<u8>, at: int, size: int)
    requires
        0 <= at,
        16 <= size,
        at + size <= file.len(),
    ensures
        ({
            let tag = file[at] + 256 * file[at + 1];
            let channels = file[at + 2] + 256 * file[at + 3];
            let rate = file[at + 4] + 256 * file[at + 5] + 65536 * file[at + 6] + 16777216
                * file[at + 7];
            let bits = file[at + 14] + 256 * file[at + 15];
            wav::read_fmt(file, at, size) is Ok == ((tag == 1 || tag == 0xFFFE) && 1 <= channels
                <= 255 && 1 <= bits <= 255) && (wav::read_fmt(file, at, size) matches Ok(f)
                ==> f.channels == channels && f.rate == rate && f.bits == bits)
        }),
{
}

/// As many frames as the audio holds whole ones.
pub proof fn law_frames_are_counted(f: wav::Fmt, len: int)
    requires
        f.channels > 0,
        f.bits > 0,
        0 <= len <= 0xFFFF_FFFF,
    ensures
        ({
            let info = wav::info_of(f, len);
            let frame = f.channels * ((f.bits + 7) / 8);
            info.total_frames matches Some(n) && n * frame <= len < (n + 1) * frame
                && info.sample_rate == f.rate && info.channels == f.channels && info.bits_per_sample
                == f.bits
        }),
{
    let c = f.channels as int;
    let w = (f.bits as int + 7) / 8;
    let frame = c * w;
    assert(frame >= 1) by (nonlinear_arith)
        requires
            c >= 1,
            w >= 1,
            frame == c * w,
    ;
    let n = len / frame;
    assert(0 <= n <= len && n * frame <= len < (n + 1) * frame) by (nonlinear_arith)
        requires
            n == len / frame,
            frame >= 1,
            len >= 0,
    ;
}

} // verus!
