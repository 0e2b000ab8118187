//! RIFF/WAVE files: where the audio stands in one, and writing one.

use crate::bytes;
use crate::bytes::{copy_range, push_all, push_le16, push_le32, read_le16, read_le32, tag_at, twos_of};
use crate::digest;
use crate::digest::md5_of;
use crate::error::Error;
use crate::model::StreamInfo;
use crate::text;
use crate::text::push_decimal;
use vstd::prelude::*;
use vstd::string::*;

verus! {

pub const WAVE_FORMAT_PCM: u16 = 0x0001;

pub const WAVE_FORMAT_EXTENSIBLE: u16 = 0xFFFE;

/// WAV is a 32-bit format: every length field is a `u32`.
pub const MAX_WAV_DATA: u64 = 0xFFFF_FFFF;

#[derive(Debug, Clone)]
pub struct WavLayout {
    pub stream_info: StreamInfo,
    /// Byte offset of the `data` chunk payload.
    pub data_offset: u64,
    /// Length of the `data` chunk payload, excluding any RIFF pad byte.
    pub data_len: u64,
}

/// What a `fmt ` chunk says.
#[derive(Debug, Clone, Copy)]
pub struct Fmt {
    pub channels: u8,
    pub rate: u32,
    pub bits: u8,
}

/// Why a file is no WAV that can be read.
pub enum Fault {
    /// It ends in the middle of what it announced.
    Short,
    NotRiff,
    FmtShort,
    Tag(u16),
    Channels(u16),
    Bits(u16),
    NoFmt,
    NoData,
}

pub open spec fn riff_tag() -> Seq<u8> {
    seq![0x52u8, 0x49u8, 0x46u8, 0x46u8]
}

pub open spec fn wave_tag() -> Seq<u8> {
    seq![0x57u8, 0x41u8, 0x56u8, 0x45u8]
}

pub open spec fn fmt_tag() -> Seq<u8> {
    seq![0x66u8, 0x6du8, 0x74u8, 0x20u8]
}

pub open spec fn data_tag() -> Seq<u8> {
    seq![0x64u8, 0x61u8, 0x74u8, 0x61u8]
}

/// Reads the body of a `fmt ` chunk of `size` bytes at `at`.
pub open spec fn read_fmt(file: Seq<u8>, at: int, size: int) -> Result<Fmt, Fault> {
    if size < 16 {
        Err(Fault::FmtShort)
    } else if at + size > file.len() {
        Err(Fault::Short)
    } else {
        let tag = bytes::u16_at(file, at);
        let channels = bytes::u16_at(file, at + 2);
        let bits = bytes::u16_at(file, at + 14);
        if tag != WAVE_FORMAT_PCM && tag != WAVE_FORMAT_EXTENSIBLE {
            Err(Fault::Tag(tag as u16))
        } else if channels == 0 || channels > 255 {
            Err(Fault::Channels(channels as u16))
        } else if bits == 0 || bits > 255 {
            Err(Fault::Bits(bits as u16))
        } else {
            Ok(
                Fmt {
                    channels: channels as u8,
                    rate: bytes::u32_at(file, at + 4) as u32,
                    bits: bits as u8,
                },
            )
        }
    }
}

/// How many bytes there are from `pos` on.
pub open spec fn left(file: Seq<u8>, pos: int) -> nat {
    if pos <= file.len() {
        (file.len() - pos) as nat
    } else {
        0
    }
}

/// Walks the chunks from `pos` on until both `fmt ` and `data` are known, or the file ends.
/// A chunk is an id, a length, that many bytes, and a pad byte after an odd length. Chunks
/// with other ids are passed over.
pub open spec fn walk(
    file: Seq<u8>,
    pos: int,
    fmt: Option<Fmt>,
    data: Option<(int, int)>,
) -> Result<(Option<Fmt>, Option<(int, int)>), Fault>
    decreases left(file, pos),
{
    if pos < 0 || pos + 8 > file.len() {
        Ok((fmt, data))
    } else {
        let id = file.subrange(pos, pos + 4);
        let size = bytes::u32_at(file, pos + 4) as int;
        let next = pos + 8 + size + size % 2;
        if id == fmt_tag() {
            match read_fmt(file, pos + 8, size) {
                Err(e) => Err(e),
                Ok(f) => if data is Some {
                    Ok((Some(f), data))
                } else {
                    walk(file, next, Some(f), data)
                },
            }
        } else if id == data_tag() {
            if fmt is Some {
                Ok((fmt, Some((pos + 8, size))))
            } else {
                walk(file, next, fmt, Some((pos + 8, size)))
            }
        } else {
            walk(file, next, fmt, data)
        }
    }
}

/// The format of a WAV file, and where its audio starts and how long it is.
pub open spec fn parse(file: Seq<u8>) -> Result<(Fmt, int, int), Fault> {
    if file.len() < 12 {
        Err(Fault::Short)
    } else if file.subrange(0, 4) != riff_tag() || file.subrange(8, 12) != wave_tag() {
        Err(Fault::NotRiff)
    } else {
        match walk(file, 12, None, None) {
            Err(e) => Err(e),
            Ok((None, _)) => Err(Fault::NoFmt),
            Ok((Some(_), None)) => Err(Fault::NoData),
            Ok((Some(f), Some((offset, len)))) => Ok((f, offset, len)),
        }
    }
}

/// The upper-case hexadecimal digit of a number below sixteen.
pub open spec fn upper_hex_digit(n: nat) -> char {
    if n < 10 {
        (n + '0' as int) as char
    } else {
        (n - 10 + 'A' as int) as char
    }
}

/// A 16-bit number in four upper-case hexadecimal digits.
pub open spec fn hex4(n: nat) -> Seq<char> {
    seq![
        upper_hex_digit(n / 4096 % 16),
        upper_hex_digit(n / 256 % 16),
        upper_hex_digit(n / 16 % 16),
        upper_hex_digit(n % 16),
    ]
}

/// What is said of a fault.
pub open spec fn fault_text(f: Fault) -> Seq<char> {
    match f {
        Fault::Short => "failed to fill whole buffer"@,
        Fault::NotRiff => "not a RIFF/WAVE file"@,
        Fault::FmtShort => "fmt chunk shorter than 16 bytes"@,
        Fault::Tag(tag) => "unsupported WAV format tag 0x"@ + hex4(tag as nat)
            + "; only PCM is supported"@,
        Fault::Channels(n) => "bad channel count "@ + text::decimal(n as nat),
        Fault::Bits(n) => "bad bit depth "@ + text::decimal(n as nat),
        Fault::NoFmt => "no fmt chunk"@,
        Fault::NoData => "no data chunk"@,
    }
}

/// The error that a fault is reported as: a file that ends too early is a read error.
pub open spec fn is_fault(e: Error, path: Seq<char>, f: Fault) -> bool {
    if f is Short {
        e matches Error::Io { path: p, source } && p@ == path && source@ == fault_text(f)
    } else {
        e.is_malformed(path, fault_text(f))
    }
}

/// The stream info of a WAV file with this format and this many bytes of audio.
pub open spec fn info_of(f: Fmt, len: int) -> StreamInfo {
    StreamInfo {
        sample_rate: f.rate,
        channels: f.channels,
        bits_per_sample: f.bits,
        total_frames: Some((len / (f.channels as int * ((f.bits + 7) / 8))) as u64),
        audio_md5: None,
    }
}

fn upper_hex(n: u16) -> (c: char)
    requires
        n < 16,
    ensures
        c == upper_hex_digit(n as nat),
{
    if n < 10 {
        (48u8 + n as u8) as char
    } else {
        (55u8 + n as u8) as char
    }
}

fn fault(path: &str, f: Fault) -> (e: Error)
    ensures
        is_fault(e, path@, f),
{
    match f {
        Fault::Short => Error::io(path, "failed to fill whole buffer"),
        Fault::NotRiff => Error::malformed(path, "not a RIFF/WAVE file"),
        Fault::FmtShort => Error::malformed(path, "fmt chunk shorter than 16 bytes"),
        Fault::Tag(tag) => {
            let mut s = "unsupported WAV format tag 0x".to_owned();
            let ghost head = s@;
            s.push(upper_hex(tag / 4096 % 16));
            s.push(upper_hex(tag / 256 % 16));
            s.push(upper_hex(tag / 16 % 16));
            s.push(upper_hex(tag % 16));
            assert(s@ =~= head + hex4(tag as nat));
            s.append("; only PCM is supported");
            Error::malformed(path, &s)
        },
        Fault::Channels(n) => {
            let mut s = "bad channel count ".to_owned();
            push_decimal(&mut s, n as u64);
            Error::malformed(path, &s)
        },
        Fault::Bits(n) => {
            let mut s = "bad bit depth ".to_owned();
            push_decimal(&mut s, n as u64);
            Error::malformed(path, &s)
        },
        Fault::NoFmt => Error::malformed(path, "no fmt chunk"),
        Fault::NoData => Error::malformed(path, "no data chunk"),
    }
}

fn parse_fmt(file: &[u8], at: usize, size: u32) -> (r: Result<Fmt, Fault>)
    requires
        at <= file.len(),
    ensures
        r == read_fmt(file@, at as int, size as int),
{
    if size < 16 {
        return Err(Fault::FmtShort);
    }
    if size as u64 > (file.len() - at) as u64 {
        return Err(Fault::Short);
    }
    let tag = read_le16(file, at);
    let channels = read_le16(file, at + 2);
    let rate = read_le32(file, at + 4);
    let bits = read_le16(file, at + 14);
    if tag != WAVE_FORMAT_PCM && tag != WAVE_FORMAT_EXTENSIBLE {
        return Err(Fault::Tag(tag));
    }
    if channels == 0 || channels > 255 {
        return Err(Fault::Channels(channels));
    }
    if bits == 0 || bits > 255 {
        return Err(Fault::Bits(bits));
    }
    Ok(Fmt { channels: channels as u8, rate, bits: bits as u8 })
}

fn parse_chunks(file: &[u8]) -> (r: Result<(Fmt, u64, u64), Fault>)
    ensures
        match r {
            Ok((f, offset, len)) => parse(file@) == Ok::<(Fmt, int, int), Fault>(
                (f, offset as int, len as int),
            ) && offset <= file.len() && len <= 0xFFFF_FFFF,
            Err(e) => parse(file@) == Err::<(Fmt, int, int), Fault>(e),
        },
{
    if file.len() < 12 {
        return Err(Fault::Short);
    }
    let riff: [u8; 4] = [0x52u8, 0x49u8, 0x46u8, 0x46u8];
    let wave: [u8; 4] = [0x57u8, 0x41u8, 0x56u8, 0x45u8];
    let fmt_id: [u8; 4] = [0x66u8, 0x6du8, 0x74u8, 0x20u8];
    let data_id: [u8; 4] = [0x64u8, 0x61u8, 0x74u8, 0x61u8];
    assert(riff@ =~= riff_tag());
    assert(wave@ =~= wave_tag());
    assert(fmt_id@ =~= fmt_tag());
    assert(data_id@ =~= data_tag());
    if !tag_at(file, 0, riff) || !tag_at(file, 8, wave) {
        return Err(Fault::NotRiff);
    }
    let total: u64 = file.len() as u64;
    let mut fmt: Option<Fmt> = None;
    let mut data: Option<(u64, u64)> = None;
    let mut pos: u64 = 12;
    while fmt.is_none() || data.is_none()
        invariant
            12 <= pos <= total,
            total == file.len(),
            fmt is None || data is None,
            data matches Some((o, l)) ==> o <= file.len() && l <= 0xFFFF_FFFF,
            fmt_id@ == fmt_tag(),
            data_id@ == data_tag(),
            walk(file@, 12, None, None) == walk(
                file@,
                pos as int,
                fmt,
                match data {
                    Some((o, l)) => Some((o as int, l as int)),
                    None => None,
                },
            ),
            file@.len() >= 12,
            file@.subrange(0, 4) == riff_tag(),
            file@.subrange(8, 12) == wave_tag(),
        decreases total - pos,
    {
        if total - pos < 8 {
            return match (fmt, data) {
                (None, _) => Err(Fault::NoFmt),
                (Some(_), _) => Err(Fault::NoData),
            };
        }
        let at: usize = pos as usize;
        let size = read_le32(file, at + 4);
        let body: u64 = pos + 8;
        if tag_at(file, at, fmt_id) {
            match parse_fmt(file, at + 8, size) {
                Err(e) => {
                    return Err(e);
                },
                Ok(f) => {
                    fmt = Some(f);
                },
            }
        } else if tag_at(file, at, data_id) {
            data = Some((body, size as u64));
        }
        match (fmt, data) {
            (Some(f), Some((o, l))) => {
                return Ok((f, o, l));
            },
            _ => {},
        }
        let step: u64 = 8 + size as u64 + size as u64 % 2;
        proof {
            let found: Option<(int, int)> = match data {
                Some((o, l)) => Some((o as int, l as int)),
                None => None,
            };
            assert(walk(file@, 12, None, None) == walk(file@, pos + step, fmt, found));
            assert(pos + step > total ==> walk(file@, pos + step, fmt, found) == walk(
                file@,
                total as int,
                fmt,
                found,
            ));
        }
        pos = if step > total - pos {
            total
        } else {
            pos + step
        };
    }
    Err(Fault::NoFmt)
}

/// Finds the format and the audio of a WAV file, from its bytes. Chunks of other kinds
/// (`LIST`, `id3 `, taper metadata) are passed over.
pub fn probe(path: &str, file: &[u8]) -> (r: Result<WavLayout, Error>)
    ensures
        match r {
            Ok(layout) => parse(file@) matches Ok((f, offset, len)) && layout.stream_info
                == info_of(f, len) && layout.data_offset == offset && layout.data_len == len
                && offset <= file.len() && len <= 0xFFFF_FFFF && f.channels > 0 && f.bits > 0,
            Err(e) => parse(file@) matches Err(f) && is_fault(e, path@, f),
        },
{
    match parse_chunks(file) {
        Err(f) => Err(fault(path, f)),
        Ok((f, offset, len)) => {
            proof {
                lemma_walk_fmt(file@, 12, None, None);
            }
            let per_sample: u64 = (f.bits as u64 + 7) / 8;
            let channels: u64 = f.channels as u64;
            assert(0 < channels * per_sample <= 255 * 32) by (nonlinear_arith)
                requires
                    0 < channels <= 255,
                    0 < per_sample <= 32,
            ;
            let frames: u64 = len / (channels * per_sample);
            Ok(
                WavLayout {
                    stream_info: StreamInfo {
                        sample_rate: f.rate,
                        channels: f.channels,
                        bits_per_sample: f.bits,
                        total_frames: Some(frames),
                        audio_md5: None,
                    },
                    data_offset: offset,
                    data_len: len,
                },
            )
        },
    }
}

/// A format that a walk finds has at least one channel and one bit.
proof fn lemma_walk_fmt(file: Seq<u8>, pos: int, fmt: Option<Fmt>, data: Option<(int, int)>)
    requires
        fmt matches Some(f) ==> f.channels > 0 && f.bits > 0,
    ensures
        walk(file, pos, fmt, data) matches Ok((Some(f), _)) ==> f.channels > 0 && f.bits > 0,
    decreases left(file, pos),
{
    if 0 <= pos && pos + 8 <= file.len() {
        let id = file.subrange(pos, pos + 4);
        let size = bytes::u32_at(file, pos + 4) as int;
        let next = pos + 8 + size + size % 2;
        if id == fmt_tag() {
            match read_fmt(file, pos + 8, size) {
                Err(e) => {},
                Ok(f) => {
                    if data is None {
                        lemma_walk_fmt(file, next, Some(f), data);
                    }
                },
            }
        } else if id == data_tag() {
            if fmt is None {
                lemma_walk_fmt(file, next, fmt, Some((pos + 8, size)));
            }
        } else {
            lemma_walk_fmt(file, next, fmt, data);
        }
    }
}

/// The outcome of hashing a WAV's audio.
pub open spec fn is_audio_md5(r: Result<[u8; 16], Error>, path: Seq<char>, file: Seq<u8>) -> bool {
    match parse(file) {
        Ok((_, offset, len)) => if offset + len <= file.len() {
            r matches Ok(d) && d@ == digest::md5_digest(file.subrange(offset, offset + len))
        } else {
            r matches Err(e) && is_fault(e, path, Fault::Short)
        },
        Err(f) => r matches Err(e) && is_fault(e, path, f),
    }
}

/// MD5 of the `data` chunk payload only. The WAV header is excluded, which is what makes
/// this value survive a format change.
pub fn audio_md5(path: &str, file: &[u8]) -> (r: Result<[u8; 16], Error>)
    ensures
        is_audio_md5(r, path@, file@),
{
    let layout = probe(path, file)?;
    if layout.data_len > file.len() as u64 - layout.data_offset {
        return Err(fault(path, Fault::Short));
    }
    let from: usize = layout.data_offset as usize;
    let to: usize = from + layout.data_len as usize;
    let audio = copy_range(file, from, to);
    Ok(md5_of(&audio))
}

/// Channel masks for `WAVE_FORMAT_EXTENSIBLE`: what `flac -d` writes for this many channels.
pub open spec fn mask_of(channels: nat) -> nat {
    if channels == 1 {
        0x4
    } else if channels == 2 {
        0x3
    } else if channels == 3 {
        0x7
    } else if channels == 4 {
        0x33
    } else if channels == 5 {
        0x37
    } else if channels == 6 {
        0x3F
    } else if channels == 7 {
        0x70F
    } else if channels == 8 {
        0x63F
    } else {
        0
    }
}

fn channel_mask(channels: u8) -> (m: u32)
    ensures
        m == mask_of(channels as nat),
{
    match channels {
        1 => 0x4,
        2 => 0x3,
        3 => 0x7,
        4 => 0x33,
        5 => 0x37,
        6 => 0x3F,
        7 => 0x70F,
        8 => 0x63F,
        _ => 0,
    }
}

/// `KSDATAFORMAT_SUBTYPE_PCM`, the only subtype that is written.
pub open spec fn subtype_pcm() -> Seq<u8> {
    seq![
        0x01u8,
        0x00u8,
        0x00u8,
        0x00u8,
        0x00u8,
        0x00u8,
        0x10u8,
        0x00u8,
        0x80u8,
        0x00u8,
        0x00u8,
        0xAAu8,
        0x00u8,
        0x38u8,
        0x9Bu8,
        0x71u8,
    ]
}

/// The extensible form of the header is used above 16 bits and above two channels.
pub open spec fn is_extensible(si: StreamInfo) -> bool {
    si.bits_per_sample > 16 || si.channels > 2
}

/// The body of the `fmt ` chunk.
pub open spec fn fmt_body(si: StreamInfo) -> Seq<u8> {
    let tag: nat = if is_extensible(si) {
        WAVE_FORMAT_EXTENSIBLE as nat
    } else {
        WAVE_FORMAT_PCM as nat
    };
    let plain = bytes::le16(tag) + bytes::le16(si.channels as nat) + bytes::le32(
        si.sample_rate as nat,
    ) + bytes::le32(si.sample_rate as nat * si.frame_bytes()) + bytes::le16(si.frame_bytes())
        + bytes::le16(si.bits_per_sample as nat);
    if is_extensible(si) {
        plain + bytes::le16(22) + bytes::le16(si.bits_per_sample as nat) + bytes::le32(
            mask_of(si.channels as nat),
        ) + subtype_pcm()
    } else {
        plain
    }
}

/// Everything before the audio, given what the two length fields hold.
pub open spec fn header(si: StreamInfo, riff_len: nat, data_len: nat) -> Seq<u8> {
    riff_tag() + bytes::le32(riff_len) + wave_tag() + fmt_tag() + bytes::le32(
        fmt_body(si).len(),
    ) + fmt_body(si) + data_tag() + bytes::le32(data_len)
}

/// The length of a header: the fixed parts and the body of the `fmt ` chunk.
pub open spec fn header_len(si: StreamInfo) -> nat {
    if is_extensible(si) {
        68
    } else {
        44
    }
}

/// One sample as WAV stores it: little-endian two's complement, but unsigned at 8 bits.
pub open spec fn sample_bytes(s: i32, bits: nat) -> Seq<u8> {
    let four = bytes::le32(bytes::twos(s as int));
    if bits == 8 {
        seq![((four[0] + 128) % 256) as u8]
    } else if bits == 16 {
        four.take(2)
    } else {
        four.take(3)
    }
}

/// Samples one after the other.
pub open spec fn samples_bytes(samples: Seq<i32>, bits: nat) -> Seq<u8>
    decreases samples.len(),
{
    if samples.len() == 0 {
        Seq::empty()
    } else {
        samples_bytes(samples.drop_last(), bits) + sample_bytes(samples.last(), bits)
    }
}

/// A stream that can be written as a WAV.
pub open spec fn writable(si: StreamInfo) -> bool {
    &&& si.channels > 0
    &&& si.sample_rate > 0
    &&& si.bits_per_sample == 8 || si.bits_per_sample == 16 || si.bits_per_sample == 24
}

/// What the RIFF length field holds: everything after it, pad byte included.
pub open spec fn riff_len(si: StreamInfo, data_len: nat) -> nat {
    (header_len(si) - 8 + data_len + data_len % 2) as nat
}

/// The pad byte that follows an odd number of bytes.
pub open spec fn padding(len: nat) -> Seq<u8> {
    bytes::zeros(len % 2)
}

/// A whole WAV file with this audio.
pub open spec fn wav_file(si: StreamInfo, data: Seq<u8>) -> Seq<u8> {
    header(si, riff_len(si, data.len()), data.len()) + data + padding(data.len())
}

pub proof fn lemma_header_len(si: StreamInfo, riff: nat, data: nat)
    ensures
        header(si, riff, data).len() == header_len(si),
        fmt_body(si).len() == header_len(si) - 28,
{
}

/// Puts PCM into a canonical RIFF/WAVE file, byte for byte what `flac -d` writes: the plain
/// 16-byte `fmt ` up to 16 bits and 2 channels, and `WAVE_FORMAT_EXTENSIBLE` above.
pub struct WavWriter {
    info: StreamInfo,
    bytes: Vec<u8>,
}

impl WavWriter {
    /// What the file is of.
    pub closed spec fn stream(&self) -> StreamInfo {
        self.info
    }

    /// The audio written so far.
    pub closed spec fn data(&self) -> Seq<u8> {
        self.bytes@.skip(header_len(self.info) as int)
    }

    /// The header, its length fields still zero, stands before the audio.
    pub closed spec fn wf(&self) -> bool {
        &&& writable(self.info)
        &&& self.info.sample_rate * self.info.frame_bytes() <= 0xFFFF_FFFF
        &&& self.bytes@ == header(self.info, 0, 0) + self.data()
        &&& self.bytes@.len() <= header_len(self.info) + MAX_WAV_DATA
    }

    /// Starts a file with its header. The length fields are filled in by `finish`: a source
    /// need not say up front how long it is.
    #[verifier::rlimit(60)]
    #[verifier::spinoff_prover]
    pub fn new(si: &StreamInfo) -> (r: Result<WavWriter, String>)
        requires
            si.sample_rate * si.frame_bytes() <= 0xFFFF_FFFF,
        ensures
            match r {
                Ok(w) => writable(*si) && w.wf() && w.stream() == *si && w.data() == Seq::<
                    u8,
                >::empty(),
                Err(e) => if si.channels == 0 || si.sample_rate == 0 {
                    e@ == "cannot write a WAV with no channels or no sample rate"@
                } else {
                    !writable(*si) && e@ == "cannot write a "@ + text::decimal(
                        si.bits_per_sample as nat,
                    ) + "-bit WAV; only 8, 16 and 24 bits are supported"@
                },
            },
    {
        if si.channels == 0 || si.sample_rate == 0 {
            return Err("cannot write a WAV with no channels or no sample rate".to_owned());
        }
        if si.bits_per_sample != 8 && si.bits_per_sample != 16 && si.bits_per_sample != 24 {
            let mut e = "cannot write a ".to_owned();
            push_decimal(&mut e, si.bits_per_sample as u64);
            e.append("-bit WAV; only 8, 16 and 24 bits are supported");
            return Err(e);
        }
        let extensible = si.bits_per_sample > 16 || si.channels > 2;
        let frame: u32 = si.bytes_per_frame();
        let rate: u32 = si.sample_rate;
        let byte_rate: u32 = rate * frame;
        let fmt_len: u32 = if extensible {
            40
        } else {
            16
        };
        let mut b: Vec<u8> = Vec::new();
        push_all(&mut b, &[0x52u8, 0x49u8, 0x46u8, 0x46u8]);
        push_le32(&mut b, 0);
        push_all(&mut b, &[0x57u8, 0x41u8, 0x56u8, 0x45u8]);
        push_all(&mut b, &[0x66u8, 0x6du8, 0x74u8, 0x20u8]);
        push_le32(&mut b, fmt_len);
        let ghost before = b@;
        push_le16(
            &mut b,
            if extensible {
                WAVE_FORMAT_EXTENSIBLE
            } else {
                WAVE_FORMAT_PCM
            },
        );
        push_le16(&mut b, si.channels as u16);
        push_le32(&mut b, si.sample_rate);
        push_le32(&mut b, byte_rate);
        push_le16(&mut b, frame as u16);
        push_le16(&mut b, si.bits_per_sample as u16);
        if extensible {
            push_le16(&mut b, 22);
            push_le16(&mut b, si.bits_per_sample as u16);
            push_le32(&mut b, channel_mask(si.channels));
            push_all(
                &mut b,
                &[
                    0x01u8,
                    0x00u8,
                    0x00u8,
                    0x00u8,
                    0x00u8,
                    0x00u8,
                    0x10u8,
                    0x00u8,
                    0x80u8,
                    0x00u8,
                    0x00u8,
                    0xAAu8,
                    0x00u8,
                    0x38u8,
                    0x9Bu8,
                    0x71u8,
                ],
            );
        }
        assert(b@ =~= before + fmt_body(*si));
        push_all(&mut b, &[0x64u8, 0x61u8, 0x74u8, 0x61u8]);
        push_le32(&mut b, 0);
        proof {
            lemma_header_len(*si, 0, 0);
            assert(b@ =~= header(*si, 0, 0));
        }
        let w = WavWriter { info: *si, bytes: b };
        assert(w.data() =~= Seq::<u8>::empty());
        assert(w.bytes@ =~= header(*si, 0, 0) + w.data());
        Ok(w)
    }

    /// Appends interleaved samples, as a decoder hands them over.
    ///
    /// 8 bits is the one place where WAV and FLAC disagree: WAV stores them unsigned, FLAC
    /// signed, so the bias is applied here and nowhere else.
    pub fn write_samples(&mut self, samples: &[i32]) -> (r: Result<(), String>)
        requires
            old(self).wf(),
        ensures
            final(self).wf(),
            final(self).stream() == old(self).stream(),
            ({
                let more = samples_bytes(samples@, old(self).stream().bits_per_sample as nat);
                match r {
                    Ok(_) => old(self).data().len() + more.len() <= MAX_WAV_DATA
                        && final(self).data() == old(self).data() + more,
                    Err(e) => old(self).data().len() + more.len() > MAX_WAV_DATA
                        && final(self).data() == old(self).data() && e@
                        == "audio exceeds the 4 GiB a WAV file can address"@,
                }
            }),
    {
        let bits: u8 = self.info.bits_per_sample;
        let more = encode_samples(samples, bits);
        let head: u64 = if self.info.bits_per_sample > 16 || self.info.channels > 2 {
            68
        } else {
            44
        };
        proof {
            lemma_header_len(self.info, 0, 0);
        }
        let written: u64 = self.bytes.len() as u64 - head;
        if more.len() as u64 > MAX_WAV_DATA - written {
            return Err("audio exceeds the 4 GiB a WAV file can address".to_owned());
        }
        let ghost before = self.data();
        push_all(&mut self.bytes, &more);
        proof {
            lemma_header_len(self.info, 0, 0);
            assert(self.data() =~= before + more@);
            assert(self.bytes@ =~= header(self.info, 0, 0) + self.data());
        }
        Ok(())
    }

    /// Fills in the two length fields; gives the file and the length of its audio.
    pub fn finish(self) -> (r: Result<(Vec<u8>, u64), String>)
        requires
            self.wf(),
        ensures
            match r {
                Ok((file, len)) => len == self.data().len() && file@ == wav_file(
                    self.stream(),
                    self.data(),
                ) && riff_len(self.stream(), self.data().len()) <= MAX_WAV_DATA,
                Err(e) => riff_len(self.stream(), self.data().len()) > MAX_WAV_DATA && e@
                    == "audio exceeds the 4 GiB a WAV file can address"@,
            },
    {
        let head: usize = if self.info.bits_per_sample > 16 || self.info.channels > 2 {
            68
        } else {
            44
        };
        let ghost si = self.info;
        let ghost data = self.data();
        proof {
            lemma_header_len(self.info, 0, 0);
        }
        let len: u64 = (self.bytes.len() - head) as u64;
        let riff: u64 = head as u64 - 8 + len + len % 2;
        if riff > MAX_WAV_DATA {
            return Err("audio exceeds the 4 GiB a WAV file can address".to_owned());
        }
        let mut file: Vec<u8> = Vec::new();
        push_all(&mut file, &[0x52u8, 0x49u8, 0x46u8, 0x46u8]);
        push_le32(&mut file, riff as u32);
        bytes::push_range(&mut file, &self.bytes, 8, head - 4);
        push_le32(&mut file, len as u32);
        bytes::push_range(&mut file, &self.bytes, head, self.bytes.len());
        if len % 2 == 1 {
            file.push(0);
        }
        proof {
            lemma_header_len(si, riff as nat, len as nat);
            assert(file@ =~= wav_file(si, data));
        }
        Ok((file, len))
    }
}

fn encode_samples(samples: &[i32], bits: u8) -> (out: Vec<u8>)
    requires
        bits == 8 || bits == 16 || bits == 24,
    ensures
        out@ == samples_bytes(samples@, bits as nat),
{
    let mut out: Vec<u8> = Vec::new();
    let mut i: usize = 0;
    while i < samples.len()
        invariant
            i <= samples.len(),
            bits == 8 || bits == 16 || bits == 24,
            out@ == samples_bytes(samples@.take(i as int), bits as nat),
        decreases samples.len() - i,
    {
        let ghost before = out@;
        let u: u32 = twos_of(samples[i]);
        let b0: u8 = (u % 256) as u8;
        let b1: u8 = (u / 256 % 256) as u8;
        let b2: u8 = (u / 65536 % 256) as u8;
        if bits == 8 {
            out.push(((b0 as u16 + 128) % 256) as u8);
        } else if bits == 16 {
            out.push(b0);
            out.push(b1);
        } else {
            out.push(b0);
            out.push(b1);
            out.push(b2);
        }
        proof {
            let taken = samples@.take(i as int + 1);
            assert(taken.drop_last() =~= samples@.take(i as int));
            assert(taken.last() == samples@[i as int]);
            assert(out@ =~= before + sample_bytes(samples@[i as int], bits as nat));
        }
        i += 1;
    }
    assert(samples@.take(samples@.len() as int) =~= samples@);
    out
}

/// What stands where in the body of a `fmt ` chunk.
proof fn lemma_fmt_body_reads(si: StreamInfo)
    requires
        writable(si),
    ensures
        bytes::u16_at(fmt_body(si), 0) == if is_extensible(si) {
            WAVE_FORMAT_EXTENSIBLE
        } else {
            WAVE_FORMAT_PCM
        },
        bytes::u16_at(fmt_body(si), 2) == si.channels,
        bytes::u32_at(fmt_body(si), 4) == si.sample_rate,
        bytes::u16_at(fmt_body(si), 14) == si.bits_per_sample,
{
    let body = fmt_body(si);
    let tag: nat = if is_extensible(si) {
        WAVE_FORMAT_EXTENSIBLE as nat
    } else {
        WAVE_FORMAT_PCM as nat
    };
    assert(bytes::holds_at(body, 0, bytes::le16(tag)));
    assert(bytes::holds_at(body, 2, bytes::le16(si.channels as nat)));
    assert(bytes::holds_at(body, 4, bytes::le32(si.sample_rate as nat)));
    assert(bytes::holds_at(body, 14, bytes::le16(si.bits_per_sample as nat)));
    bytes::lemma_le16(tag, body, 0);
    bytes::lemma_le16(si.channels as nat, body, 2);
    bytes::lemma_le32(si.sample_rate as nat, body, 4);
    bytes::lemma_le16(si.bits_per_sample as nat, body, 14);
}

/// What stands where in a header.
proof fn lemma_header_layout(si: StreamInfo, riff: nat, len: nat)
    requires
        len <= MAX_WAV_DATA,
    ensures
        ({
            let head = header(si, riff, len);
            let at = header_len(si) as int;
            &&& head.subrange(0, 4) == riff_tag()
            &&& head.subrange(8, 12) == wave_tag()
            &&& head.subrange(12, 16) == fmt_tag()
            &&& bytes::u32_at(head, 16) == fmt_body(si).len()
            &&& forall|k: int|
                20 <= k < 20 + fmt_body(si).len() ==> #[trigger] head[k] == fmt_body(si)[k - 20]
            &&& head.subrange(at - 8, at - 4) == data_tag()
            &&& bytes::u32_at(head, at - 4) == len
        }),
{
    let head = header(si, riff, len);
    let body = fmt_body(si);
    let at = header_len(si) as int;
    lemma_header_len(si, riff, len);
    assert(head.subrange(0, 4) =~= riff_tag());
    assert(head.subrange(8, 12) =~= wave_tag());
    assert(head.subrange(12, 16) =~= fmt_tag());
    assert(bytes::holds_at(head, 16, bytes::le32(body.len())));
    bytes::lemma_le32(body.len(), head, 16);
    assert(head.subrange(at - 8, at - 4) =~= data_tag());
    assert(bytes::holds_at(head, at - 4, bytes::le32(len)));
    bytes::lemma_le32(len, head, at - 4);
}

/// A written WAV reads back: the format, where the audio starts, how long it is, and the
/// audio itself.
#[verifier::rlimit(60)]
#[verifier::spinoff_prover]
pub proof fn law_written_wav_reads_back(si: StreamInfo, data: Seq<u8>)
    requires
        writable(si),
        si.sample_rate * si.frame_bytes() <= 0xFFFF_FFFF,
        riff_len(si, data.len()) <= MAX_WAV_DATA,
    ensures
        parse(wav_file(si, data)) == Ok::<(Fmt, int, int), Fault>(
            (
                Fmt { channels: si.channels, rate: si.sample_rate, bits: si.bits_per_sample },
                header_len(si) as int,
                data.len() as int,
            ),
        ),
        header_len(si) + data.len() <= wav_file(si, data).len(),
        wav_file(si, data).subrange(header_len(si) as int, (header_len(si) + data.len()) as int)
            == data,
{
    let riff = riff_len(si, data.len());
    let len = data.len();
    let file = wav_file(si, data);
    let body = fmt_body(si);
    let at = header_len(si) as int;
    lemma_header_len(si, riff, len);
    lemma_fmt_body_reads(si);
    lemma_header_layout(si, riff, len);
    let head = header(si, riff, len);
    assert(file.subrange(at, at + len) =~= data);
    assert(forall|k: int| 0 <= k < at ==> file[k] == head[k]);
    assert(file.subrange(0, 4) =~= head.subrange(0, 4));
    assert(file.subrange(8, 12) =~= head.subrange(8, 12));
    assert(file.subrange(12, 16) =~= head.subrange(12, 16));
    assert(file.subrange(at - 8, at - 4) =~= head.subrange(at - 8, at - 4));
    assert(bytes::u32_at(file, 16) == body.len());
    assert(bytes::u32_at(file, at - 4) == len);
    assert(forall|k: int| 20 <= k < 20 + body.len() ==> #[trigger] file[k] == body[k - 20]);
    let f = Fmt { channels: si.channels, rate: si.sample_rate, bits: si.bits_per_sample };
    assert(read_fmt(file, 20, body.len() as int) == Ok::<Fmt, Fault>(f));
    lemma_plain_file_parses(file, f, body.len() as int, len as int);
}

/// A file that holds a `fmt ` chunk and right after it a `data` chunk.
proof fn lemma_plain_file_parses(file: Seq<u8>, f: Fmt, fmt_len: int, len: int)
    requires
        16 <= fmt_len,
        fmt_len % 2 == 0,
        0 <= len,
        28 + fmt_len + len <= file.len(),
        file.subrange(0, 4) == riff_tag(),
        file.subrange(8, 12) == wave_tag(),
        file.subrange(12, 16) == fmt_tag(),
        bytes::u32_at(file, 16) == fmt_len,
        read_fmt(file, 20, fmt_len) == Ok::<Fmt, Fault>(f),
        file.subrange(20 + fmt_len, 24 + fmt_len) == data_tag(),
        bytes::u32_at(file, 24 + fmt_len) == len,
    ensures
        parse(file) == Ok::<(Fmt, int, int), Fault>((f, 28 + fmt_len, len)),
{
    let at = 20 + fmt_len;
    assert(data_tag()[0] != fmt_tag()[0]);
    assert(walk(file, at, Some(f), None) == Ok::<(Option<Fmt>, Option<(int, int)>), Fault>(
        (Some(f), Some((at + 8, len))),
    ));
    assert(walk(file, 12, None, None) == walk(file, at, Some(f), None));
}

/// A WAV file taken apart: its audio, and the bytes of its other chunks on either side.
#[derive(Debug, Clone)]
pub struct WavChunks {
    pub layout: WavLayout,
    /// The chunks before `data`.
    pub head: Vec<u8>,
    /// The payload of `data`.
    pub data: Vec<u8>,
    /// What follows `data` and its pad byte.
    pub tail: Vec<u8>,
}

/// The bytes of a file from `pos` on; none where it ends before that.
pub open spec fn rest_from(file: Seq<u8>, pos: int) -> Seq<u8> {
    if pos <= file.len() {
        file.skip(pos)
    } else {
        Seq::empty()
    }
}

impl WavChunks {
    /// Whether these are the parts of `file`.
    pub open spec fn parts_of(&self, file: Seq<u8>) -> bool {
        parse(file) matches Ok((f, offset, len)) && {
            &&& 20 <= offset
            &&& offset + len <= file.len()
            &&& self.layout.stream_info == info_of(f, len)
            &&& self.layout.data_offset == offset
            &&& self.layout.data_len == len
            &&& self.head@ == file.subrange(12, offset - 8)
            &&& self.data@ == file.subrange(offset, offset + len)
            &&& self.tail@ == rest_from(file, offset + len + len % 2)
        }
    }

    /// Whether every byte but the audio and the lengths is the same.
    pub fn same_chunks_besides_data(&self, other: &WavChunks) -> (b: bool)
        ensures
            b == (self.head@ == other.head@ && self.tail@ == other.tail@),
    {
        bytes::same_bytes(&self.head, &other.head) && bytes::same_bytes(&self.tail, &other.tail)
    }
}

/// The audio that a walk finds stands behind the file's own header and a chunk header.
proof fn lemma_walk_data(file: Seq<u8>, pos: int, fmt: Option<Fmt>, data: Option<(int, int)>)
    requires
        12 <= pos,
        data matches Some((o, l)) ==> 20 <= o && l >= 0,
    ensures
        walk(file, pos, fmt, data) matches Ok((_, Some((o, l)))) ==> 20 <= o && l >= 0,
    decreases left(file, pos),
{
    if pos + 8 <= file.len() {
        let id = file.subrange(pos, pos + 4);
        let size = bytes::u32_at(file, pos + 4) as int;
        let next = pos + 8 + size + size % 2;
        if id == fmt_tag() {
            match read_fmt(file, pos + 8, size) {
                Err(e) => {},
                Ok(f) => {
                    if data is None {
                        lemma_walk_data(file, next, Some(f), data);
                    }
                },
            }
        } else if id == data_tag() {
            if fmt is None {
                lemma_walk_data(file, next, fmt, Some((pos + 8, size)));
            }
        } else {
            lemma_walk_data(file, next, fmt, data);
        }
    }
}

/// Takes a WAV file apart.
pub fn read_chunks(path: &str, file: &[u8]) -> (r: Result<WavChunks, Error>)
    ensures
        match r {
            Ok(c) => c.parts_of(file@),
            Err(e) => match parse(file@) {
                Ok((_, offset, len)) => offset + len > file.len() && is_fault(
                    e,
                    path@,
                    Fault::Short,
                ),
                Err(f) => is_fault(e, path@, f),
            },
        },
{
    let layout = probe(path, file)?;
    if layout.data_len > file.len() as u64 - layout.data_offset {
        return Err(fault(path, Fault::Short));
    }
    proof {
        lemma_walk_data(file@, 12, None, None);
    }
    let from: usize = layout.data_offset as usize;
    let len: usize = layout.data_len as usize;
    let to: usize = from + len;
    let after: usize = if len % 2 == 1 && to < file.len() {
        to + 1
    } else {
        to
    };
    let head = copy_range(file, 12, from - 8);
    let data = copy_range(file, from, to);
    let tail = copy_range(file, after, file.len());
    assert(tail@ =~= rest_from(file@, from + len + len % 2));
    Ok(WavChunks { layout, head, data, tail })
}

/// What the RIFF length field of [`rebuilt`] holds.
pub open spec fn rebuilt_len(head: Seq<u8>, data: Seq<u8>, tail: Seq<u8>) -> nat {
    4 + head.len() + 8 + data.len() + data.len() % 2 + tail.len()
}

/// A WAV file put together from its parts.
pub open spec fn rebuilt(head: Seq<u8>, data: Seq<u8>, tail: Seq<u8>) -> Seq<u8> {
    riff_tag() + bytes::le32(rebuilt_len(head, data, tail)) + wave_tag() + head + data_tag()
        + bytes::le32(data.len()) + data + padding(data.len()) + tail
}

/// Puts a file together with other audio in place of its own; every other chunk is kept
/// verbatim.
pub fn write_chunks(source: &WavChunks, data: &[u8]) -> (r: Result<Vec<u8>, String>)
    ensures
        match r {
            Ok(file) => file@ == rebuilt(source.head@, data@, source.tail@) && rebuilt_len(
                source.head@,
                data@,
                source.tail@,
            ) <= MAX_WAV_DATA,
            Err(e) => rebuilt_len(source.head@, data@, source.tail@) > MAX_WAV_DATA && e@
                == "audio exceeds the 4 GiB a WAV file can address"@,
        },
{
    let riff: u128 = 12 + source.head.len() as u128 + data.len() as u128 + data.len() as u128 % 2
        + source.tail.len() as u128;
    if riff > MAX_WAV_DATA as u128 {
        return Err("audio exceeds the 4 GiB a WAV file can address".to_owned());
    }
    let mut file: Vec<u8> = Vec::new();
    push_all(&mut file, &[0x52u8, 0x49u8, 0x46u8, 0x46u8]);
    assert(file@ =~= riff_tag());
    push_le32(&mut file, riff as u32);
    let ghost before = file@;
    push_all(&mut file, &[0x57u8, 0x41u8, 0x56u8, 0x45u8]);
    assert(file@ =~= before + wave_tag());
    push_all(&mut file, &source.head);
    let ghost before = file@;
    push_all(&mut file, &[0x64u8, 0x61u8, 0x74u8, 0x61u8]);
    assert(file@ =~= before + data_tag());
    push_le32(&mut file, data.len() as u32);
    push_all(&mut file, data);
    bytes::push_zeros(&mut file, data.len() % 2);
    push_all(&mut file, &source.tail);
    Ok(file)
}

/// The audio that a walk ends with is the one it started with, or stands further on.
proof fn lemma_walk_finds_later(
    file: Seq<u8>,
    pos: int,
    fmt: Option<Fmt>,
    data: Option<(int, int)>,
)
    requires
        0 <= pos,
    ensures
        walk(file, pos, fmt, data) matches Ok((_, Some((o, l)))) ==> data == Some((o, l)) || o
            >= pos + 8,
    decreases left(file, pos),
{
    if pos + 8 <= file.len() {
        let id = file.subrange(pos, pos + 4);
        let size = bytes::u32_at(file, pos + 4) as int;
        let next = pos + 8 + size + size % 2;
        if id == fmt_tag() {
            match read_fmt(file, pos + 8, size) {
                Err(e) => {},
                Ok(f) => {
                    if data is None {
                        lemma_walk_finds_later(file, next, Some(f), data);
                    }
                },
            }
        } else if id == data_tag() {
            if fmt is None {
                lemma_walk_finds_later(file, next, fmt, Some((pos + 8, size)));
            }
        } else {
            lemma_walk_finds_later(file, next, fmt, data);
        }
    }
}

/// The bytes of `a` from `i` on and those of `b` from `j` on start alike, `n` of them.
pub open spec fn alike(a: Seq<u8>, i: int, b: Seq<u8>, j: int, n: int) -> bool {
    &&& 0 <= i
    &&& 0 <= j
    &&& i + n <= a.len()
    &&& j + n <= b.len()
    &&& forall|k: int| 0 <= k < n ==> #[trigger] a[i + k] == b[j + k]
}

pub proof fn lemma_alike_header(a: Seq<u8>, i: int, b: Seq<u8>, j: int)
    requires
        alike(a, i, b, j, 8),
    ensures
        a.subrange(i, i + 4) == b.subrange(j, j + 4),
        bytes::u32_at(a, i + 4) == bytes::u32_at(b, j + 4),
{
    let x = a.subrange(i, i + 4);
    let y = b.subrange(j, j + 4);
    assert forall|k: int| 0 <= k < 4 implies #[trigger] x[k] == y[k] by {
        assert(a[i + k] == b[j + k]);
    }
    assert(a.subrange(i, i + 4) =~= b.subrange(j, j + 4));
    assert(a[i + 4] == b[j + 4]);
    assert(a[i + 5] == b[j + 5]);
    assert(a[i + 6] == b[j + 6]);
    assert(a[i + 7] == b[j + 7]);
}

pub proof fn lemma_alike_fmt(a: Seq<u8>, i: int, b: Seq<u8>, j: int, size: int)
    requires
        alike(a, i, b, j, size),
    ensures
        read_fmt(a, i, size) == read_fmt(b, j, size),
{
    if size >= 16 {
        assert(a[i + 0] == b[j + 0]);
        assert(a[i + 1] == b[j + 1]);
        assert(a[i + 2] == b[j + 2]);
        assert(a[i + 3] == b[j + 3]);
        assert(a[i + 4] == b[j + 4]);
        assert(a[i + 5] == b[j + 5]);
        assert(a[i + 6] == b[j + 6]);
        assert(a[i + 7] == b[j + 7]);
        assert(a[i + 14] == b[j + 14]);
        assert(a[i + 15] == b[j + 15]);
    }
}

/// Walking what follows the audio finds the same format wherever it stands.
proof fn lemma_walk_tail(
    file: Seq<u8>,
    pos: int,
    data: (int, int),
    new: Seq<u8>,
    at: int,
    new_data: (int, int),
)
    requires
        data.0 <= pos <= file.len(),
        0 <= data.0,
        at <= new.len(),
        new.len() - at == file.len() - pos,
        alike(file, pos, new, at, file.len() - pos),
        walk(file, pos, None, Some(data)) matches Ok((Some(_), Some(d))) && d == data,
    ensures
        walk(file, pos, None, Some(data)) matches Ok((Some(f), Some(d))) && walk(
            new,
            at,
            None,
            Some(new_data),
        ) == Ok::<(Option<Fmt>, Option<(int, int)>), Fault>((Some(f), Some(new_data))),
    decreases left(file, pos),
{
    assert(pos + 8 <= file.len());
    lemma_alike_header(file, pos, new, at);
    let id = file.subrange(pos, pos + 4);
    let size = bytes::u32_at(file, pos + 4) as int;
    let next = pos + 8 + size + size % 2;
    let new_next = at + 8 + size + size % 2;
    if id == fmt_tag() {
        if 16 <= size && pos + 8 + size <= file.len() {
            assert forall|k: int| 0 <= k < size implies #[trigger] file[pos + 8 + k] == new[at + 8
                + k] by {
                assert(file[pos + (8 + k)] == new[at + (8 + k)]);
            }
            lemma_alike_fmt(file, pos + 8, new, at + 8, size);
        }
    } else if id == data_tag() {
        lemma_walk_finds_later(file, next, None, Some((pos + 8, size)));
        assert(false);
    } else {
        assert(walk(file, next, None, Some(data)) == walk(file, pos, None, Some(data)));
        assert(next <= file.len());
        assert forall|k: int| 0 <= k < file.len() - next implies #[trigger] file[next + k]
            == new[new_next + k] by {
            assert(file[pos + (next - pos + k)] == new[at + (next - pos + k)]);
        }
        lemma_walk_tail(file, next, data, new, new_next, new_data);
    }
}

/// Walking what precedes the audio comes to it just so where only the audio was replaced.
proof fn lemma_walk_head(
    file: Seq<u8>,
    pos: int,
    fmt: Option<Fmt>,
    data: Option<(int, int)>,
    offset: int,
    len: int,
    new: Seq<u8>,
    new_len: int,
)
    requires
        12 <= pos <= offset - 8,
        0 <= len,
        0 <= new_len,
        offset + len <= file.len(),
        offset + new_len <= new.len(),
        data matches Some((o, _)) ==> o < offset,
        alike(file, 12, new, 12, offset - 20),
        new.subrange(offset - 8, offset - 4) == data_tag(),
        bytes::u32_at(new, offset - 4) == new_len,
        rest_from(file, offset + len + len % 2) == rest_from(new, offset + new_len + new_len % 2),
        offset + new_len + new_len % 2 <= new.len(),
        walk(file, pos, fmt, data) matches Ok((Some(_), Some(d))) && d == (offset, len),
    ensures
        walk(file, pos, fmt, data) matches Ok((Some(f), Some(d))) && walk(new, pos, fmt, data)
            == Ok::<(Option<Fmt>, Option<(int, int)>), Fault>((Some(f), Some((offset, new_len)))),
    decreases left(file, pos),
{
    let id = file.subrange(pos, pos + 4);
    let size = bytes::u32_at(file, pos + 4) as int;
    let next = pos + 8 + size + size % 2;
    assert(pos + 8 <= file.len());
    if pos == offset - 8 {
        lemma_walk_finds_later(file, next, fmt, data);
        if id == fmt_tag() {
            match read_fmt(file, pos + 8, size) {
                Err(e) => {},
                Ok(f) => {
                    lemma_walk_finds_later(file, next, Some(f), data);
                },
            }
            assert(false);
        }
        assert(id == data_tag());
        if fmt is None {
            lemma_walk_finds_later(file, next, None, Some((offset, size)));
            assert(size == len);
            let tail = offset + len + len % 2;
            let new_tail = offset + new_len + new_len % 2;
            assert(walk(file, next, None, Some((offset, len))) == walk(file, pos, fmt, data));
            assert(tail <= file.len());
            let a = rest_from(file, tail);
            let b = rest_from(new, new_tail);
            assert(a == b);
            assert(a.len() == file.len() - tail);
            assert(b.len() == new.len() - new_tail);
            assert forall|k: int| 0 <= k < file.len() - tail implies #[trigger] file[tail + k]
                == new[new_tail + k] by {
                assert(a[k] == file[tail + k]);
                assert(b[k] == new[new_tail + k]);
            }
            lemma_walk_tail(file, tail, (offset, len), new, new_tail, (offset, new_len));
        }
        assert(data_tag()[0] != fmt_tag()[0]);
    } else {
        if id == fmt_tag() {
            match read_fmt(file, pos + 8, size) {
                Err(e) => {},
                Ok(f) => {
                    lemma_walk_finds_later(file, next, Some(f), data);
                },
            }
        } else if id == data_tag() {
            lemma_walk_finds_later(file, next, None, Some((pos + 8, size)));
        } else {
            lemma_walk_finds_later(file, next, fmt, data);
        }
        assert(next + 8 <= offset);
        assert forall|k: int| 0 <= k < 8 implies #[trigger] file[pos + k] == new[pos + k] by {
            assert(file[12 + (pos - 12 + k)] == new[12 + (pos - 12 + k)]);
        }
        lemma_alike_header(file, pos, new, pos);
        if id == fmt_tag() {
            assert forall|k: int| 0 <= k < size implies #[trigger] file[pos + 8 + k] == new[pos + 8
                + k] by {
                assert(file[12 + (pos - 4 + k)] == new[12 + (pos - 4 + k)]);
            }
            lemma_alike_fmt(file, pos + 8, new, pos + 8, size);
            let f = read_fmt(file, pos + 8, size)->Ok_0;
            lemma_walk_head(file, next, Some(f), data, offset, len, new, new_len);
        } else if id == data_tag() {
            lemma_walk_head(
                file,
                next,
                fmt,
                Some((pos + 8, size)),
                offset,
                len,
                new,
                new_len,
            );
        } else {
            lemma_walk_head(file, next, fmt, data, offset, len, new, new_len);
        }
    }
}

/// What stands where in a file put together from its parts.
proof fn lemma_rebuilt_layout(head: Seq<u8>, data: Seq<u8>, tail: Seq<u8>)
    requires
        data.len() <= MAX_WAV_DATA,
    ensures
        ({
            let new = rebuilt(head, data, tail);
            let at = 20 + head.len() as int;
            let len = data.len() as int;
            &&& new.len() == at + len + len % 2 + tail.len()
            &&& new.subrange(0, 4) == riff_tag()
            &&& new.subrange(8, 12) == wave_tag()
            &&& new.subrange(12, at - 8) == head
            &&& new.subrange(at - 8, at - 4) == data_tag()
            &&& bytes::u32_at(new, at - 4) == len
            &&& new.subrange(at, at + len) == data
            &&& rest_from(new, at + len + len % 2) == tail
        }),
{
    let new = rebuilt(head, data, tail);
    let at = 20 + head.len() as int;
    let len = data.len() as int;
    let start = riff_tag() + bytes::le32(rebuilt_len(head, data, tail)) + wave_tag();
    let size = bytes::le32(data.len());
    assert(start.len() == 12);
    assert(size.len() == 4);
    assert(new == start + head + data_tag() + size + data + padding(data.len()) + tail);
    assert(new.subrange(0, 4) =~= riff_tag());
    assert(new.subrange(8, 12) =~= wave_tag());
    assert(new.subrange(12, at - 8) =~= head);
    assert(new.subrange(at - 8, at - 4) =~= data_tag());
    assert(new.subrange(at - 4, at) =~= size);
    assert forall|k: int| 0 <= k < 4 implies #[trigger] new[at - 4 + k] == size[k] by {
        assert(new.subrange(at - 4, at)[k] == new[at - 4 + k]);
    }
    bytes::lemma_le32(data.len(), new, at - 4);
    assert(new.subrange(at, at + len) =~= data);
    assert(rest_from(new, at + len + len % 2) =~= tail);
}

/// Replacing the audio of a WAV file keeps everything else: the new file has the same
/// format, the same chunks besides `data`, and the new audio.
pub proof fn law_rebuilt_wav_keeps_its_chunks(file: Seq<u8>, data: Seq<u8>)
    requires
        parse(file) matches Ok((_, offset, len)) && offset + len <= file.len() && rebuilt_len(
            file.subrange(12, offset - 8),
            data,
            rest_from(file, offset + len + len % 2),
        ) <= MAX_WAV_DATA,
    ensures
        parse(file) matches Ok((f, offset, len)) && ({
            let head = file.subrange(12, offset - 8);
            let tail = rest_from(file, offset + len + len % 2);
            let new = rebuilt(head, data, tail);
            let new_len = data.len() as int;
            &&& parse(new) == Ok::<(Fmt, int, int), Fault>((f, offset, new_len))
            &&& 20 <= offset
            &&& offset + new_len <= new.len()
            &&& new.subrange(12, offset - 8) == head
            &&& new.subrange(offset, offset + new_len) == data
            &&& rest_from(new, offset + new_len + new_len % 2) == tail
        }),
{
    lemma_walk_data(file, 12, None, None);
    let (f, offset, len) = parse(file)->Ok_0;
    let head = file.subrange(12, offset - 8);
    let tail = rest_from(file, offset + len + len % 2);
    let new = rebuilt(head, data, tail);
    let new_len = data.len() as int;
    lemma_rebuilt_layout(head, data, tail);
    assert forall|k: int| 0 <= k < offset - 20 implies #[trigger] file[12 + k] == new[12 + k] by {
        assert(head[k] == file[12 + k]);
        assert(new.subrange(12, offset - 8)[k] == new[12 + k]);
    }
    lemma_walk_head(file, 12, None, None, offset, len, new, new_len);
}

} // verus!
