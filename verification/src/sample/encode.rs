//! Making a sample: what is checked before and after the encoder runs, and how it is run.

use super::cut;
use super::cut::{cut_flac, cut_wav};
use super::mode;
use super::mode::{estimate_bytes, format_size, format_time, longest_fitting, Clip, Mode};
use super::seconds;
use super::seconds::format_secs;
use crate::display::FLICKS;
use crate::error::Error;
use crate::format::flac;
use crate::format::wav;
use crate::model::{AudioFile, AudioFormat, StreamInfo};
use crate::path;
use crate::path::{file_name_of, join_path, parent_of, stem_of};
use crate::tag::{Field, Tags};
use crate::text;
use crate::text::{decimal_string, push_decimal, push_text};
use crate::tools::{Agent, Provenance, Tool, ToolId};
use vstd::prelude::*;
use vstd::string::*;

verus! {

/// What is asked for.
#[derive(Debug, Clone)]
pub struct Request {
    pub clip: Clip,
    pub mode: Mode,
    /// Refuse, or discard, a clip over this many bytes. `None` for no limit.
    pub max_bytes: Option<u64>,
    pub overwrite: bool,
}

/// A written sample, and what made it.
#[derive(Debug, Clone)]
pub struct Sample {
    pub output: String,
    pub bytes: u64,
    pub clip: Clip,
    pub provenance: Provenance,
}

pub open spec fn is_too_large(e: Error, p: Seq<char>, d: Seq<char>) -> bool {
    e matches Error::SampleTooLarge { path, detail } && path@ == p && detail@ == d
}

/// How long a clip may be, as it is shown: at a bitrate of 0 no length is to blame.
pub open spec fn longest_text(mode: Mode, max: nat) -> Seq<char> {
    if mode.kbps() == 0 {
        "NaN"@
    } else {
        text::decimal(mode::longest(mode, max))
    }
}

/// What is said of a clip that cannot fit.
pub open spec fn will_not_fit(length: nat, mode: Mode, max: nat) -> Seq<char> {
    seconds::secs_text(length) + " s at "@ + mode.label_text() + " comes to about "@ + mode::size_text(
        mode::estimate(mode, length),
    ) + ", over the "@ + mode::size_text(max) + " limit; "@ + longest_text(
        mode,
        max,
    ) + " s would fit"@
}

/// Checks a request before anything is read. A clip of constant bitrate that cannot fit is
/// refused up front, rather than cut shorter: its length was chosen.
pub fn check_request(src: &str, dst: &str, request: &Request) -> (r: Result<(), Error>)
    ensures
        ({
            let clip = request.clip;
            let mode = request.mode;
            if clip.length == 0 {
                r matches Err(e) && e.is_malformed(
                    src@,
                    "a clip needs a start of 0 or more and a length above 0"@,
                )
            } else if mode is Cbr && request.max_bytes is Some && mode::estimate(
                mode,
                clip.length as nat,
            ) > request.max_bytes->0 {
                r matches Err(e) && is_too_large(
                    e,
                    dst@,
                    will_not_fit(clip.length as nat, mode, request.max_bytes->0 as nat),
                )
            } else {
                r is Ok
            }
        }),
{
    let clip = request.clip;
    let mode = request.mode;
    if clip.length == 0 {
        return Err(
            Error::malformed(src, "a clip needs a start of 0 or more and a length above 0"),
        );
    }
    match request.max_bytes {
        Some(max) => {
            if mode.is_exact() && estimate_bytes(mode, clip.length) > max {
                let mut d = format_secs(clip.length);
                d.append(" s at ");
                d.append(&mode.label());
                d.append(" comes to about ");
                d.append(&format_size(estimate_bytes(mode, clip.length)));
                d.append(", over the ");
                d.append(&format_size(max));
                d.append(" limit; ");
                if mode.nominal_kbps() == 0 {
                    d.append("NaN");
                } else {
                    push_decimal(&mut d, longest_fitting(mode, max));
                }
                d.append(" s would fit");
                return Err(Error::SampleTooLarge { path: dst.to_owned(), detail: d });
            }
        },
        None => {},
    }
    Ok(())
}

/// A time in frames, rounded to the nearest.
pub open spec fn frames_at(flicks: nat, rate: nat) -> nat {
    (flicks * rate + 352_800_000) / 705_600_000
}

fn to_frames(flicks: u64, rate: u32) -> (n: u128)
    ensures
        n == frames_at(flicks as nat, rate as nat),
        n <= 0xFFFF_FFFF_FFFF_FFFF * 0x1_0000_0000,
{
    let f: u128 = flicks as u128;
    let r: u128 = rate as u128;
    assert(f * r <= 0xFFFF_FFFF_FFFF_FFFF * 0xFFFF_FFFF) by (nonlinear_arith)
        requires
            f <= 0xFFFF_FFFF_FFFF_FFFF,
            r <= 0xFFFF_FFFF,
    ;
    (f * r + 352_800_000) / 705_600_000
}

/// What is said of a clip that starts after the track.
pub open spec fn starts_late(start: nat, track: nat) -> Seq<char> {
    "the clip starts at "@ + mode::time_text(start) + " but the track is only "@
        + mode::time_text(track) + " long"@
}

/// The outcome of placing a clip in a track.
pub open spec fn is_placed(
    r: Result<(u64, u64), Error>,
    src: Seq<char>,
    si: StreamInfo,
    clip: Clip,
) -> bool {
    let start = frames_at(clip.start as nat, si.sample_rate as nat);
    let end = start + frames_at(clip.length as nat, si.sample_rate as nat);
    match si.total_frames {
        Some(total) => if start >= total {
            r matches Err(e) && e.is_malformed(src, starts_late(clip.start as nat, si.length()->0))
        } else {
            r matches Ok((a, b)) && a == start && b == cut::least(end as int, total as int)
        },
        None => r matches Ok((a, b)) && a == cut::least(start as int, u64::MAX as int) && b
            == cut::least(end as int, u64::MAX as int),
    }
}

/// The frames that a clip starts and ends at, the end no later than the track's where that
/// says how long it is.
pub fn clip_frames(src: &str, si: &StreamInfo, clip: Clip) -> (r: Result<(u64, u64), Error>)
    requires
        si.sample_rate > 0,
    ensures
        is_placed(r, src@, *si, clip),
{
    let start: u128 = to_frames(clip.start, si.sample_rate);
    let end: u128 = start + to_frames(clip.length, si.sample_rate);
    match si.total_frames {
        Some(total) => {
            if start >= total as u128 {
                let mut d = "the clip starts at ".to_owned();
                d.append(&format_time(clip.start as u128));
                d.append(" but the track is only ");
                let track = match si.duration() {
                    Some(n) => n,
                    None => 0,
                };
                d.append(&format_time(track));
                d.append(" long");
                return Err(Error::malformed(src, &d));
            }
            let to: u64 = if end < total as u128 {
                end as u64
            } else {
                total
            };
            Ok((start as u64, to))
        },
        None => {
            let from: u64 = if start < u64::MAX as u128 {
                start as u64
            } else {
                u64::MAX
            };
            let to: u64 = if end < u64::MAX as u128 {
                end as u64
            } else {
                u64::MAX
            };
            Ok((from, to))
        },
    }
}

/// The outcome of cutting frames out of a track of some format, before it is looked at
/// whether there were any.
pub open spec fn is_cut(
    r: Result<(Vec<u8>, u64), Error>,
    src: Seq<char>,
    out: Seq<char>,
    probed: AudioFile,
    file: Seq<u8>,
    start: int,
    end: int,
) -> bool {
    let si = probed.stream_info;
    match probed.format {
        AudioFormat::Flac => if !wav::writable(si) {
            r matches Err(Error::Io { path, source }) && path@ == out && source@
                == crate::convert::wav_refusal(si)
        } else {
            cut::is_flac_cut(r, src, out, si, flac::flac_blocks(file), start, end)
        },
        AudioFormat::Wav => if !wav::writable(si) {
            r matches Err(Error::Io { path, source }) && path@ == out && source@
                == crate::convert::wav_refusal(si)
        } else {
            match wav::parse(file) {
                Err(f) => r matches Err(e) && wav::is_fault(e, src, f),
                Ok((_, offset, len)) => {
                    let frame = si.frame_bytes() as int;
                    let (from, to) = cut::clip_range(offset, len, frame, start, end);
                    if to > file.len() {
                        r matches Err(e) && wav::is_fault(e, src, wav::Fault::Short)
                    } else {
                        cut::is_excerpt(
                            r,
                            out,
                            si,
                            file.subrange(from, to),
                            cut::frames_between(len / frame, start, end),
                        )
                    }
                },
            }
        },
        f => r matches Err(e) && crate::format::is_unsupported(e, src, f),
    }
}

/// Cuts frames `start` to `end` out of a track, as a WAV named `out`: the file, and how many
/// frames it holds.
pub fn cut_excerpt(
    src: &str,
    out: &str,
    probed: &AudioFile,
    file: &[u8],
    start: u64,
    end: u64,
) -> (r: Result<(Vec<u8>, u64), Error>)
    requires
        probed.stream_info.sample_rate * probed.stream_info.frame_bytes() <= 0xFFFF_FFFF,
        probed.format is Flac ==> flac::decodable(file@),
    ensures
        is_cut(r, src@, out@, *probed, file@, start as int, end as int),
{
    match probed.format {
        AudioFormat::Flac => cut_flac(src, out, &probed.stream_info, file, start, end),
        AudioFormat::Wav => cut_wav(src, out, &probed.stream_info, file, start, end),
        other => Err(
            Error::Unsupported {
                path: src.to_owned(),
                format: other.name(),
                tool: other.required_tool(),
            },
        ),
    }
}

// The encoder.

pub open spec fn mode_args(lame: bool, mode: Mode) -> Seq<Seq<char>> {
    match mode {
        Mode::Cbr(kbps) => if lame {
            seq!["-b"@, text::decimal(kbps as nat), "--cbr"@]
        } else {
            seq!["-b:a"@, text::decimal(kbps as nat) + "k"@]
        },
        Mode::Vbr(q) => if lame {
            seq!["-V"@, text::decimal(q as nat)]
        } else {
            seq!["-q:a"@, text::decimal(q as nat)]
        },
    }
}

/// The arguments that name a tag, where the track has it.
pub open spec fn tag_args(lame: bool, tags: Tags, field: Field, key: Seq<char>) -> Seq<Seq<char>> {
    match tags.value(field) {
        Some(v) => if v.len() == 0 {
            Seq::empty()
        } else if lame {
            seq![key, v]
        } else {
            seq!["-metadata"@, key + "="@ + v]
        },
        None => Seq::empty(),
    }
}

/// The arguments of an encoder. Without `--id3v2-utf16`, lame writes UTF-8 bytes into a
/// UTF-16 frame; a staged name ends in `.part`, so ffmpeg has to be told the container.
pub open spec fn encoder_args(
    id: ToolId,
    mode: Mode,
    tags: Tags,
    input: Seq<char>,
    output: Seq<char>,
) -> Seq<Seq<char>> {
    if id is Lame {
        seq!["--silent"@, "--id3v2-utf16"@] + mode_args(true, mode) + tag_args(
            true,
            tags,
            Field::Title,
            "--tt"@,
        ) + tag_args(true, tags, Field::Artist, "--ta"@) + tag_args(
            true,
            tags,
            Field::Album,
            "--tl"@,
        ) + seq![input, output]
    } else {
        seq![
            "-nostdin"@,
            "-hide_banner"@,
            "-loglevel"@,
            "error"@,
            "-y"@,
            "-i"@,
            input,
            "-vn"@,
            "-codec:a"@,
            "libmp3lame"@,
        ] + mode_args(false, mode) + tag_args(false, tags, Field::Title, "title"@) + tag_args(
            false,
            tags,
            Field::Artist,
            "artist"@,
        ) + tag_args(false, tags, Field::Album, "album"@) + seq!["-f"@, "mp3"@, output]
    }
}

fn add_arg(argv: &mut Vec<String>, arg: &str)
    ensures
        text::views(final(argv)@) == text::views(old(argv)@).push(arg@),
{
    push_text(argv, arg.to_owned());
}

fn add_mode(argv: &mut Vec<String>, lame: bool, mode: Mode)
    ensures
        text::views(final(argv)@) == text::views(old(argv)@) + mode_args(lame, mode),
{
    let ghost had = text::views(argv@);
    match mode {
        Mode::Cbr(kbps) => {
            if lame {
                add_arg(argv, "-b");
                add_arg(argv, &decimal_string(kbps as u64));
                add_arg(argv, "--cbr");
            } else {
                add_arg(argv, "-b:a");
                let mut rate = decimal_string(kbps as u64);
                rate.append("k");
                add_arg(argv, &rate);
            }
        },
        Mode::Vbr(q) => {
            add_arg(
                argv,
                if lame {
                    "-V"
                } else {
                    "-q:a"
                },
            );
            add_arg(argv, &decimal_string(q as u64));
        },
    }
    assert(text::views(argv@) =~= had + mode_args(lame, mode));
}

fn add_tag(argv: &mut Vec<String>, lame: bool, tags: &Tags, field: Field, key: &str)
    ensures
        text::views(final(argv)@) == text::views(old(argv)@) + tag_args(lame, *tags, field, key@),
{
    let ghost had = text::views(argv@);
    match tags.get(field) {
        Some(v) => {
            if !v.is_empty() {
                if lame {
                    add_arg(argv, key);
                    add_arg(argv, v);
                } else {
                    add_arg(argv, "-metadata");
                    let mut pair = key.to_owned();
                    pair.append("=");
                    pair.append(v);
                    add_arg(argv, &pair);
                }
            }
        },
        None => {},
    }
    assert(text::views(argv@) =~= had + tag_args(lame, *tags, field, key@));
}

/// The arguments that make an MP3 of the WAV `input`, with the track's title, artist and
/// album.
pub fn encoder_argv(encoder: &Tool, mode: Mode, tags: &Tags, input: &str, output: &str) -> (r:
    Result<Vec<String>, Error>)
    ensures
        if encoder.id is Lame || encoder.id is Ffmpeg {
            r matches Ok(argv) && text::views(argv@) == encoder_args(
                encoder.id,
                mode,
                *tags,
                input@,
                output@,
            )
        } else {
            r matches Err(Error::ToolUnusable { tool, path, detail }) && tool@
                == encoder.id.name_text() && path@ == encoder.path@ && detail@
                == "encoding MP3 needs lame or ffmpeg, not this one"@
        },
{
    let mut argv: Vec<String> = Vec::new();
    assert(text::views(argv@) =~= Seq::<Seq<char>>::empty());
    match encoder.id {
        ToolId::Lame => {
            add_arg(&mut argv, "--silent");
            add_arg(&mut argv, "--id3v2-utf16");
            assert(text::views(argv@) =~= seq!["--silent"@, "--id3v2-utf16"@]);
            add_mode(&mut argv, true, mode);
            add_tag(&mut argv, true, tags, Field::Title, "--tt");
            add_tag(&mut argv, true, tags, Field::Artist, "--ta");
            add_tag(&mut argv, true, tags, Field::Album, "--tl");
            let ghost had = text::views(argv@);
            add_arg(&mut argv, input);
            add_arg(&mut argv, output);
            assert(text::views(argv@) =~= had + seq![input@, output@]);
        },
        ToolId::Ffmpeg => {
            add_arg(&mut argv, "-nostdin");
            add_arg(&mut argv, "-hide_banner");
            add_arg(&mut argv, "-loglevel");
            add_arg(&mut argv, "error");
            add_arg(&mut argv, "-y");
            add_arg(&mut argv, "-i");
            add_arg(&mut argv, input);
            add_arg(&mut argv, "-vn");
            add_arg(&mut argv, "-codec:a");
            add_arg(&mut argv, "libmp3lame");
            assert(text::views(argv@) =~= seq![
                "-nostdin"@,
                "-hide_banner"@,
                "-loglevel"@,
                "error"@,
                "-y"@,
                "-i"@,
                input@,
                "-vn"@,
                "-codec:a"@,
                "libmp3lame"@,
            ]);
            add_mode(&mut argv, false, mode);
            add_tag(&mut argv, false, tags, Field::Title, "title");
            add_tag(&mut argv, false, tags, Field::Artist, "artist");
            add_tag(&mut argv, false, tags, Field::Album, "album");
            let ghost had = text::views(argv@);
            add_arg(&mut argv, "-f");
            add_arg(&mut argv, "mp3");
            add_arg(&mut argv, output);
            assert(text::views(argv@) =~= had + seq!["-f"@, "mp3"@, output@]);
        },
        other => {
            return Err(
                Error::ToolUnusable {
                    tool: other.name(),
                    path: encoder.path.clone(),
                    detail: "encoding MP3 needs lame or ffmpeg, not this one".to_owned(),
                },
            );
        },
    }
    Ok(argv)
}

/// The encoder: `lame` if it is found, else `ffmpeg`. When neither is, the error names both,
/// so that it is known that either will do. A `lame` that was `named` is the whole search:
/// falling back when a particular one was asked for would make the provenance lie. One that
/// is there but unusable is the more useful thing to report.
pub fn find_encoder(lame: Result<Tool, Error>, named: bool, ffmpeg: Result<Tool, Error>) -> (r:
    Result<Tool, Error>)
    ensures
        match (lame, ffmpeg) {
            (Ok(t), _) => r == Ok::<Tool, Error>(t),
            (Err(e), f) => if named {
                r == Err::<Tool, Error>(e)
            } else {
                match (f, e) {
                    (Ok(t), _) => r == Ok::<Tool, Error>(t),
                    (
                        Err(Error::ToolNotFound { searched: second, .. }),
                        Error::ToolNotFound { searched: first, .. },
                    ) => r matches Err(Error::ToolNotFound { tool, purpose, searched }) && tool@
                        == "lame (or ffmpeg)"@ && purpose@ == ToolId::Lame.purpose_text()
                        && searched@ == first@ + "; "@ + second@,
                    (Err(_), Error::ToolUnusable { .. }) => r == Err::<Tool, Error>(e),
                    (Err(g), _) => r == Err::<Tool, Error>(g),
                }
            },
        },
{
    let e = match lame {
        Ok(t) => {
            return Ok(t);
        },
        Err(e) => e,
    };
    if named {
        return Err(e);
    }
    let g = match ffmpeg {
        Ok(t) => {
            return Ok(t);
        },
        Err(g) => g,
    };
    match (&g, &e) {
        (Error::ToolNotFound { searched: second, .. }, Error::ToolNotFound { searched: first, .. }) => {
            let mut searched = first.clone();
            searched.append("; ");
            searched.append(second);
            Err(
                Error::ToolNotFound {
                    tool: "lame (or ffmpeg)",
                    purpose: ToolId::Lame.purpose(),
                    searched,
                },
            )
        },
        (_, Error::ToolUnusable { .. }) => Err(e),
        (_, _) => Err(g),
    }
}

/// Where a sample of the track at an absolute path goes by default.
pub open spec fn output_of(src: Seq<char>) -> Option<Seq<char>> {
    match (path::parent(src), path::file_name(src)) {
        (Some(folder), Some(name)) => Some(
            path::join(
                match path::parent(folder) {
                    Some(dir) => dir,
                    None => folder,
                },
                path::stem(name) + ".sample.mp3"@,
            ),
        ),
        _ => None,
    }
}

/// `<stem>.sample.mp3` beside the show folder that the track is in, not inside it, where it
/// would end up in the checksums and the torrent. `abs` is the track's absolute path.
pub fn default_output(src: &str, abs: &str) -> (r: Result<String, Error>)
    ensures
        match output_of(abs@) {
            Some(p) => r matches Ok(s) && s@ == p,
            None => r matches Err(e) && e.is_malformed(src@, "has no file name to work from"@),
        },
{
    match (parent_of(abs), file_name_of(abs)) {
        (Some(folder), Some(name)) => {
            let dir = match parent_of(&folder) {
                Some(dir) => dir,
                None => folder,
            };
            let mut out = stem_of(&name);
            out.append(".sample.mp3");
            Ok(join_path(&dir, &out))
        },
        _ => Err(Error::malformed(src, "has no file name to work from")),
    }
}

/// What is said of a sample that came out too large.
pub open spec fn came_out_large(bytes: nat, max: nat) -> Seq<char> {
    "came out at "@ + mode::size_text(bytes) + ", over the "@ + mode::size_text(max)
        + " limit, so it was discarded; shorten it or pick a lower bitrate"@
}

/// What was done, in words.
pub open spec fn operation_text(format: AudioFormat, start: nat, end: nat, mode: Mode) -> Seq<
    char,
> {
    format.name_text() + " → MP3 sample ("@ + mode::time_text(start) + " to "@ + mode::time_text(
        end,
    ) + ", "@ + mode.label_text() + ")"@
}

/// The outcome of encoding a sample: `cut` frames went in and `bytes` came out.
pub open spec fn is_sample(
    r: Result<Sample, Error>,
    src: Seq<char>,
    dst: Seq<char>,
    probed: AudioFile,
    request: Request,
    cut: nat,
    bytes: nat,
    agent: Agent,
) -> bool {
    let length = cut * FLICKS as nat / probed.stream_info.sample_rate as nat;
    if cut == 0 {
        r matches Err(e) && e.is_malformed(src, "the clip holds no audio"@)
    } else if request.max_bytes is Some && bytes > request.max_bytes->0 {
        r matches Err(e) && is_too_large(
            e,
            dst,
            came_out_large(bytes, request.max_bytes->0 as nat),
        )
    } else {
        r matches Ok(s) && s.output@ == dst && s.bytes == bytes && s.clip.start
            == request.clip.start && s.clip.length == length && s.provenance.agent == agent
            && s.provenance.input@ == src && s.provenance.output@ == dst && s.provenance.operation@
            == operation_text(
            probed.format,
            request.clip.start as nat,
            request.clip.start as nat + length,
            request.mode,
        )
    }
}

/// The record of a sample that was encoded: `cut` frames went in and `bytes` came out. An
/// excerpt without audio is an error, and a file over the limit is discarded.
pub fn finish_sample(
    src: &str,
    dst: &str,
    probed: &AudioFile,
    request: &Request,
    cut: u64,
    bytes: u64,
    agent: Agent,
) -> (r: Result<Sample, Error>)
    requires
        probed.stream_info.sample_rate > 0,
        cut as nat * FLICKS as nat / probed.stream_info.sample_rate as nat <= u64::MAX,
    ensures
        is_sample(r, src@, dst@, *probed, *request, cut as nat, bytes as nat, agent),
{
    if cut == 0 {
        return Err(Error::malformed(src, "the clip holds no audio"));
    }
    match request.max_bytes {
        Some(max) => {
            if bytes > max {
                let mut d = "came out at ".to_owned();
                d.append(&format_size(bytes));
                d.append(", over the ");
                d.append(&format_size(max));
                d.append(
                    " limit, so it was discarded; shorten it or pick a lower bitrate",
                );
                return Err(Error::SampleTooLarge { path: dst.to_owned(), detail: d });
            }
        },
        None => {},
    }
    let all: u128 = cut as u128 * FLICKS as u128;
    let length: u64 = (all / probed.stream_info.sample_rate as u128) as u64;
    let clip = Clip { start: request.clip.start, length };
    let mut operation = probed.format.name().to_owned();
    operation.append(" → MP3 sample (");
    operation.append(&format_time(clip.start as u128));
    operation.append(" to ");
    operation.append(&format_time(clip.end()));
    operation.append(", ");
    operation.append(&request.mode.label());
    operation.append(")");
    Ok(
        Sample {
            output: dst.to_owned(),
            bytes,
            clip,
            provenance: Provenance {
                operation,
                agent,
                input: src.to_owned(),
                output: dst.to_owned(),
            },
        },
    )
}

} // verus!
