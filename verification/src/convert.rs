//! Producing new files, and the two very different ways of doing it.
//!
//! FLAC to WAV is a lossless decode: deterministic and bit-identical, so it is done here. WAV
//! to FLAC goes through the reference `flac` binary, because the FLAC vendor string is a
//! provenance record that other traders inspect, and only the real tool can write
//! `reference libFLAC x.y.z` into it.

use crate::bytes::same_md5;
use crate::digest;
use crate::digest::hex_encode;
use crate::error::Error;
use crate::format::flac;
use crate::format::flac::decode_to_wav;
use crate::format::wav;
use crate::format::wav::WavWriter;
use crate::model::{AudioFile, AudioFormat, StreamInfo};
use crate::path;
use crate::path::{file_name_of, join_path, parent_of, stem_of};
use crate::text;
use crate::text::push_decimal;
use crate::tools::{Agent, Provenance, Tool, ToolId};
use vstd::prelude::*;
use vstd::string::*;

verus! {

/// How to drive the reference encoder.
#[derive(Debug, Clone, PartialEq, Eq)]
pub struct EncodeOpts {
    /// `flac`'s `-0` to `-8`. Traders' standards ask for `-8`, and the extra time is nothing
    /// against the decades that the file will sit in someone's archive.
    pub compression_level: u8,
    /// `flac --verify`: decode while encoding and compare.
    pub verify: bool,
}

impl Default for EncodeOpts {
    fn default() -> (o: EncodeOpts)
        ensures
            o == (EncodeOpts { compression_level: 8, verify: true }),
    {
        EncodeOpts { compression_level: 8, verify: true }
    }
}

/// One completed conversion, and the evidence that it was correct.
#[derive(Debug, Clone)]
pub struct Conversion {
    pub output: String,
    pub provenance: Provenance,
    /// MD5 of the audio, in FLAC's convention. Recomputed from what actually crossed the
    /// wire, not copied from a header.
    pub audio_md5: [u8; 16],
    /// Whether that value could be compared against one that the source already carried.
    pub checked_against_source: bool,
}

impl Conversion {
    /// [`move_to_originals`] for this conversion's source, but only when the output was
    /// checked against it: the source of an unchecked conversion stays where it is.
    pub fn move_source_to_originals(&self) -> (r: Result<(String, String), Error>)
        ensures
            match r {
                Ok((dir, dst)) => self.checked_against_source && is_original_of(
                    self.provenance.input@,
                    dir@,
                    dst@,
                ),
                Err(e) => if !self.checked_against_source {
                    e.is_malformed(
                        self.provenance.input@,
                        "not checked against its output, so left in place"@,
                    )
                } else {
                    !has_original(self.provenance.input@) && e.is_malformed(
                        self.provenance.input@,
                        "has no file name to work from"@,
                    )
                },
            },
    {
        if !self.checked_against_source {
            return Err(
                Error::malformed(
                    &self.provenance.input,
                    "not checked against its output, so left in place",
                ),
            );
        }
        move_to_originals(&self.provenance.input)
    }
}

/// The folder, inside a show's own folder, that converted sources are moved into.
pub const ORIGINALS_DIR: &'static str = "_original";

/// There is a folder to move it to, and a name to move it under.
pub open spec fn has_original(src: Seq<char>) -> bool {
    path::parent(src) is Some && path::file_name(src) is Some
}

pub open spec fn is_original_of(src: Seq<char>, dir: Seq<char>, dst: Seq<char>) -> bool {
    &&& has_original(src)
    &&& dir == path::join(path::parent(src)->0, ORIGINALS_DIR@)
    &&& dst == path::join(dir, path::file_name(src)->0)
}

/// Where a source that has just converted cleanly goes: into [`ORIGINALS_DIR`] beside it, so
/// that every later step on the show folder sees only the converted files. Moved, never
/// deleted. Gives the folder, and the path inside it.
pub fn move_to_originals(src: &str) -> (r: Result<(String, String), Error>)
    ensures
        match r {
            Ok((dir, dst)) => is_original_of(src@, dir@, dst@),
            Err(e) => !has_original(src@) && e.is_malformed(
                src@,
                "has no file name to work from"@,
            ),
        },
{
    let dir = match parent_of(src) {
        Some(d) => join_path(&d, ORIGINALS_DIR),
        None => {
            return Err(Error::malformed(src, "has no file name to work from"));
        },
    };
    match aside_in(src, &dir) {
        Ok(dst) => Ok((dir, dst)),
        Err(e) => Err(e),
    }
}

/// Where a file goes that is moved into `dir`: it keeps its name.
pub fn aside_in(src: &str, dir: &str) -> (r: Result<String, Error>)
    ensures
        match r {
            Ok(dst) => path::file_name(src@) matches Some(n) && dst@ == path::join(dir@, n),
            Err(e) => path::file_name(src@) is None && e.is_malformed(
                src@,
                "has no file name to work from"@,
            ),
        },
{
    match file_name_of(src) {
        Some(n) => Ok(join_path(dir, &n)),
        None => Err(Error::malformed(src, "has no file name to work from")),
    }
}

/// Whether a file may be moved aside to `dst`: `taken` says whether anything, a dangling
/// link included, is there already.
pub fn move_aside(src: &str, dir: &str, taken: bool) -> (r: Result<String, Error>)
    ensures
        match r {
            Ok(dst) => !taken && (path::file_name(src@) matches Some(n) && dst@ == path::join(
                dir@,
                n,
            )),
            Err(e) => match path::file_name(src@) {
                None => e.is_malformed(src@, "has no file name to work from"@),
                Some(n) => taken && e.is_output_exists(path::join(dir@, n)),
            },
        },
{
    let dst = match aside_in(src, dir) {
        Ok(d) => d,
        Err(e) => {
            return Err(e);
        },
    };
    if taken {
        return Err(Error::OutputExists { path: dst });
    }
    Ok(dst)
}

/// Where a conversion of a file goes, where it has a name to work from.
pub open spec fn destination_of(
    src: Seq<char>,
    extension: Seq<char>,
    out_dir: Option<Seq<char>>,
) -> Option<Seq<char>> {
    let dir = match out_dir {
        Some(d) => Some(d),
        None => path::parent(src),
    };
    match (dir, path::file_name(src)) {
        (Some(d), Some(n)) => Some(path::join(d, path::stem(n) + "."@ + extension)),
        _ => None,
    }
}

/// Same stem, new extension, beside `src` unless told otherwise.
pub fn destination(src: &str, extension: &str, out_dir: Option<&str>) -> (r: Result<String, Error>)
    ensures
        match destination_of(
            src@,
            extension@,
            match out_dir {
                Some(d) => Some(d@),
                None => None,
            },
        ) {
            Some(p) => r matches Ok(dst) && dst@ == p,
            None => r matches Err(e) && e.is_malformed(src@, "has no file name to work from"@),
        },
{
    let dir = match out_dir {
        Some(d) => d.to_owned(),
        None => match parent_of(src) {
            Some(d) => d,
            None => {
                return Err(Error::malformed(src, "has no file name to work from"));
            },
        },
    };
    match file_name_of(src) {
        None => Err(Error::malformed(src, "has no file name to work from")),
        Some(n) => {
            let mut name = stem_of(&n);
            name.append(".");
            name.append(extension);
            Ok(join_path(&dir, &name))
        },
    }
}

/// Why a source cannot be encoded to FLAC.
pub open spec fn is_encode_refusal(
    e: Error,
    src: Seq<char>,
    format: AudioFormat,
    tool: Tool,
    opts: EncodeOpts,
) -> bool {
    if !(tool.id is Flac) {
        e matches Error::ToolUnusable { tool: t, path, detail } && t@ == tool.id.name_text()
            && path@ == tool.path@ && detail@
            == "encoding FLAC needs the flac binary, not this one"@
    } else if opts.compression_level > 8 {
        e.is_malformed(
            src,
            "compression level "@ + text::decimal(opts.compression_level as nat)
                + " is out of range; flac takes 0 to 8"@,
        )
    } else {
        e matches Error::Unsupported { path, format: f, tool: t } && path@ == src && f@
            == format.name_text() && t@ == "a decoder we do not have"@
    }
}

pub open spec fn can_encode(format: AudioFormat, tool: Tool, opts: EncodeOpts) -> bool {
    tool.id is Flac && opts.compression_level <= 8 && format is Wav
}

/// Whether a source can be encoded to FLAC with this tool and these options.
pub fn check_encode(src: &str, format: AudioFormat, tool: &Tool, opts: &EncodeOpts) -> (r: Result<
    (),
    Error,
>)
    ensures
        match r {
            Ok(_) => can_encode(format, *tool, *opts),
            Err(e) => !can_encode(format, *tool, *opts) && is_encode_refusal(
                e,
                src@,
                format,
                *tool,
                *opts,
            ),
        },
{
    if tool.id != ToolId::Flac {
        return Err(
            Error::ToolUnusable {
                tool: tool.id.name(),
                path: tool.path.clone(),
                detail: "encoding FLAC needs the flac binary, not this one".to_owned(),
            },
        );
    }
    if opts.compression_level > 8 {
        let mut d = "compression level ".to_owned();
        push_decimal(&mut d, opts.compression_level as u64);
        d.append(" is out of range; flac takes 0 to 8");
        return Err(Error::malformed(src, &d));
    }
    if format != AudioFormat::Wav {
        return Err(
            Error::Unsupported {
                path: src.to_owned(),
                format: format.name(),
                tool: "a decoder we do not have",
            },
        );
    }
    Ok(())
}

/// The arguments that `flac` is run with. `--` comes before the source, so that one whose
/// name begins with a dash is audio, not an option.
pub open spec fn flac_args(opts: EncodeOpts, temp: Seq<char>, src: Seq<char>) -> Seq<Seq<char>> {
    let start = seq![
        "--silent"@,
        "--compression-level-"@ + text::decimal(opts.compression_level as nat),
    ];
    let middle = if opts.verify {
        start.push("--verify"@)
    } else {
        start
    };
    middle.push("-o"@).push(temp).push("--"@).push(src)
}

pub fn flac_argv(opts: &EncodeOpts, temp: &str, src: &str) -> (argv: Vec<String>)
    ensures
        text::views(argv@) == flac_args(*opts, temp@, src@),
{
    let mut argv: Vec<String> = Vec::new();
    argv.push("--silent".to_owned());
    let mut level = "--compression-level-".to_owned();
    push_decimal(&mut level, opts.compression_level as u64);
    argv.push(level);
    if opts.verify {
        argv.push("--verify".to_owned());
    }
    argv.push("-o".to_owned());
    argv.push(temp.to_owned());
    argv.push("--".to_owned());
    argv.push(src.to_owned());
    assert(text::views(argv@) =~= flac_args(*opts, temp@, src@));
    argv
}

/// What is said where the FLAC does not hold the audio it was given.
pub open spec fn wrong_audio(source: Seq<u8>, encoded: Seq<u8>) -> Seq<char> {
    "the encoded FLAC does not contain the audio it was given (source "@ + digest::hex_text(source)
        + ", encoded "@ + digest::hex_text(encoded) + "); it was discarded"@
}

/// The outcome of encoding a WAV to FLAC, given the MD5 of its audio and the one in the header
/// of what was written.
pub open spec fn is_encoded(
    r: Result<Conversion, Error>,
    src: Seq<char>,
    dst: Seq<char>,
    agent: Agent,
    bits: u8,
    source_md5: Seq<u8>,
    written_md5: Option<[u8; 16]>,
) -> bool {
    match r {
        Ok(c) => {
            &&& written_md5 matches Some(m) && (bits == 8 || m@ == source_md5) && c.audio_md5 == m
            &&& c.checked_against_source == (bits != 8)
            &&& c.output@ == dst
            &&& c.provenance.operation@ == "WAV → FLAC"@
            &&& c.provenance.agent == agent
            &&& c.provenance.input@ == src
            &&& c.provenance.output@ == dst
        },
        Err(e) => match written_md5 {
            None => e.is_malformed(
                dst,
                "the encoded FLAC carries no audio MD5, so it cannot be checked; it was discarded"@,
            ),
            Some(m) => bits != 8 && m@ != source_md5 && e.is_malformed(
                dst,
                wrong_audio(source_md5, m@),
            ),
        },
    }
}

/// The record of a WAV encoded to FLAC, if the MD5 that `flac` wrote into its header is that
/// of the source's audio: an independent check of the encoder's own `--verify`. At 8 bits the
/// two conventions differ, WAV unsigned and FLAC signed, and there is nothing to compare.
pub fn to_flac(
    src: &str,
    dst: &str,
    agent: Agent,
    bits_per_sample: u8,
    source_md5: &[u8; 16],
    written_md5: Option<[u8; 16]>,
) -> (r: Result<Conversion, Error>)
    ensures
        is_encoded(r, src@, dst@, agent, bits_per_sample, source_md5@, written_md5),
{
    let comparable = bits_per_sample != 8;
    match written_md5 {
        None => Err(
            Error::malformed(
                dst,
                "the encoded FLAC carries no audio MD5, so it cannot be checked; it was discarded",
            ),
        ),
        Some(encoded) => {
            if comparable && !same_md5(&encoded, source_md5) {
                let mut d = "the encoded FLAC does not contain the audio it was given (source "
                    .to_owned();
                d.append(&hex_encode(source_md5));
                d.append(", encoded ");
                d.append(&hex_encode(&encoded));
                d.append("); it was discarded");
                return Err(Error::malformed(dst, &d));
            }
            Ok(
                Conversion {
                    output: dst.to_owned(),
                    provenance: Provenance {
                        operation: "WAV → FLAC".to_owned(),
                        agent,
                        input: src.to_owned(),
                        output: dst.to_owned(),
                    },
                    audio_md5: encoded,
                    checked_against_source: comparable,
                },
            )
        },
    }
}

/// What is said of a FLAC whose audio is not what its header says.
pub open spec fn bad_header(stored: Seq<u8>, decoded: Seq<u8>) -> Seq<char> {
    "decoded audio does not match the MD5 in its header (header "@ + digest::hex_text(stored)
        + ", decoded "@ + digest::hex_text(decoded)
        + "); no WAV was written — run `lh verify` on it"@
}

/// Why decoded audio cannot be written as a WAV.
pub open spec fn wav_refusal(si: StreamInfo) -> Seq<char> {
    if si.channels == 0 || si.sample_rate == 0 {
        "cannot write a WAV with no channels or no sample rate"@
    } else if !wav::writable(si) {
        "cannot write a "@ + text::decimal(si.bits_per_sample as nat)
            + "-bit WAV; only 8, 16 and 24 bits are supported"@
    } else {
        "audio exceeds the 4 GiB a WAV file can address"@
    }
}

/// The outcome of finishing a WAV of a FLAC's audio, of which this is the MD5: the file and the
/// record of it, or why there is none.
pub open spec fn is_finished(
    r: Result<(Vec<u8>, Conversion), Error>,
    probed: AudioFile,
    data: Seq<u8>,
    md5: Seq<u8>,
    dst: Seq<char>,
) -> bool {
    let si = probed.stream_info;
    if wav::riff_len(si, data.len()) > wav::MAX_WAV_DATA {
        r matches Err(Error::Io { path, source }) && path@ == dst && source@ == wav_refusal(si)
    } else if si.audio_md5 is Some && si.audio_md5->0@ != md5 {
        r matches Err(e) && e.is_malformed(probed.path@, bad_header(si.audio_md5->0@, md5))
    } else {
        &&& r is Ok
        &&& r->Ok_0.0@ == wav::wav_file(si, data)
        &&& r->Ok_0.1.output@ == dst
        &&& r->Ok_0.1.audio_md5@ == md5
        &&& r->Ok_0.1.checked_against_source == (si.audio_md5 is Some)
        &&& r->Ok_0.1.provenance.operation@ == "FLAC → WAV"@
        &&& r->Ok_0.1.provenance.agent is InProcess
        &&& r->Ok_0.1.provenance.input@ == probed.path@
        &&& r->Ok_0.1.provenance.output@ == dst
    }
}

/// The outcome of turning what a FLAC decodes to into a WAV, which is written as `temp` until
/// it is whole.
pub open spec fn is_wav_of(
    r: Result<(Vec<u8>, Conversion), Error>,
    probed: AudioFile,
    stream: flac::Stream,
    temp: Seq<char>,
    dst: Seq<char>,
) -> bool {
    let si = probed.stream_info;
    if !(probed.format is Flac) {
        r matches Err(Error::Unsupported { path, format, tool }) && path@ == probed.path@
            && format@ == probed.format.name_text() && tool@ == "a decoder we do not have"@
    } else if !wav::writable(si) {
        r matches Err(Error::Io { path, source }) && path@ == dst && source@ == wav_refusal(si)
    } else {
        match stream {
            Err(said) => r matches Err(e) && flac::is_flac_error(e, probed.path@, said),
            Ok((h, blocks, fault)) => {
                let samples = flac::samples_of(blocks);
                let data = wav::samples_bytes(samples, si.bits_per_sample as nat);
                if data.len() > wav::MAX_WAV_DATA {
                    r matches Err(Error::Io { path, source }) && path@ == temp && source@
                        == wav_refusal(si)
                } else {
                    match fault {
                        Some(said) => r matches Err(e) && flac::is_flac_error(
                            e,
                            probed.path@,
                            said,
                        ),
                        None => is_finished(
                            r,
                            probed,
                            data,
                            flac::pcm_md5(samples, h.2 as nat),
                            dst,
                        ),
                    }
                }
            },
        }
    }
}

fn cannot_decode(probed: &AudioFile) -> (e: Error)
    ensures
        e matches Error::Unsupported { path, format, tool } && path@ == probed.path@ && format@
            == probed.format.name_text() && tool@ == "a decoder we do not have"@,
{
    Error::Unsupported {
        path: probed.path.clone(),
        format: probed.format.name(),
        tool: "a decoder we do not have",
    }
}

/// Finishes a WAV of a FLAC's audio, of which `md5` is the MD5, and makes the record of the
/// conversion.
///
/// The MD5 is compared against the one in the source's header. A file that fails its own
/// checksum does not produce a WAV: handing someone audio that is known to be wrong is worse
/// than handing them nothing.
pub fn finish_wav(probed: &AudioFile, writer: WavWriter, md5: [u8; 16], dst: &str) -> (r: Result<
    (Vec<u8>, Conversion),
    Error,
>)
    requires
        writer.wf(),
        writer.stream() == probed.stream_info,
        wav::writable(probed.stream_info),
    ensures
        is_finished(r, *probed, writer.data(), md5@, dst@),
{
    let si = probed.stream_info;
    let (file, _len) = match writer.finish() {
        Ok(f) => f,
        Err(said) => {
            return Err(Error::io(dst, &said));
        },
    };
    match si.audio_md5 {
        Some(stored) => {
            if !same_md5(&stored, &md5) {
                let mut d = "decoded audio does not match the MD5 in its header (header ".to_owned();
                d.append(&hex_encode(&stored));
                d.append(", decoded ");
                d.append(&hex_encode(&md5));
                d.append("); no WAV was written — run `lh verify` on it");
                return Err(Error::malformed(&probed.path, &d));
            }
        },
        None => {},
    }
    Ok(
        (
            file,
            Conversion {
                output: dst.to_owned(),
                provenance: Provenance {
                    operation: "FLAC → WAV".to_owned(),
                    agent: Agent::in_process(),
                    input: probed.path.clone(),
                    output: dst.to_owned(),
                },
                audio_md5: md5,
                checked_against_source: si.audio_md5.is_some(),
            },
        ),
    )
}

/// Decodes a FLAC into a WAV for `dst`. `temp` is what the file is called while it is written,
/// and only used to attribute write errors.
pub fn to_wav(probed: &AudioFile, file: &[u8], temp: &str, dst: &str) -> (r: Result<
    (Vec<u8>, Conversion),
    Error,
>)
    requires
        probed.stream_info.sample_rate * probed.stream_info.frame_bytes() <= 0xFFFF_FFFF,
        flac::decodable(file@),
    ensures
        is_wav_of(r, *probed, flac::flac_blocks(file@), temp@, dst@),
{
    if probed.format != AudioFormat::Flac {
        return Err(cannot_decode(probed));
    }
    let mut writer = match WavWriter::new(&probed.stream_info) {
        Ok(w) => w,
        Err(said) => {
            return Err(Error::io(dst, &said));
        },
    };
    let md5 = decode_to_wav(&probed.path, temp, file, &mut writer)?;
    assert(match flac::flac_blocks(file@) {
        Ok((_, blocks, _)) => writer.data() =~= wav::samples_bytes(
            flac::samples_of(blocks),
            probed.stream_info.bits_per_sample as nat,
        ),
        Err(_) => true,
    });
    finish_wav(probed, writer, md5, dst)
}

/// Only a WAV is encoded, only by `flac`, and only at a level that it has.
pub proof fn law_only_wav_is_encoded(format: AudioFormat, tool: Tool, opts: EncodeOpts)
    ensures
        can_encode(format, tool, opts) ==> format is Wav && tool.id is Flac
            && opts.compression_level <= 8,
        format is Wav && tool.id is Flac && opts.compression_level <= 8 ==> can_encode(
            format,
            tool,
            opts,
        ),
{
}

} // verus!
