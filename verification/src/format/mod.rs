//! What a file says of itself, and its audio, whichever format it is in.

pub mod blocks;
pub mod flac;
pub mod header;
pub mod order;
pub mod wav;

use crate::error::Error;
use crate::model;
use crate::model::{AudioFile, AudioFormat, StreamInfo};
use crate::tag;
use vstd::prelude::*;
use vstd::string::*;

verus! {

/// Whether it is [`Error::UnknownFormat`] for this file.
pub open spec fn is_unknown(e: Error, p: Seq<char>) -> bool {
    e matches Error::UnknownFormat { path } && path@ == p
}

/// Whether it is [`Error::Unsupported`] for this file of this format.
pub open spec fn is_unsupported(e: Error, p: Seq<char>, f: AudioFormat) -> bool {
    e matches Error::Unsupported { path, format, tool } && path@ == p && format@ == f.name_text()
        && tool@ == f.tool_text()
}

/// Whether it is [`Error::FlacMeta`] for this file, with these words.
pub open spec fn is_meta_error(e: Error, p: Seq<char>, said: Seq<char>) -> bool {
    e matches Error::FlacMeta { path, source } && path@ == p && source@ == said
}

/// The format of a file that can be read: an unknown one is an error, and one that is known
/// but not implemented is named together with the tool that it would take.
pub fn readable_format(path: &str) -> (r: Result<AudioFormat, Error>)
    ensures
        match model::format_of_path(path@) {
            None => r matches Err(e) && is_unknown(e, path@),
            Some(f) => if f.implemented() {
                r == Ok::<AudioFormat, Error>(f)
            } else {
                r matches Err(e) && is_unsupported(e, path@, f)
            },
        },
{
    match AudioFormat::from_path(path) {
        None => Err(Error::UnknownFormat { path: path.to_owned() }),
        Some(f) => {
            if f.is_implemented() {
                Ok(f)
            } else {
                Err(
                    Error::Unsupported {
                        path: path.to_owned(),
                        format: f.name(),
                        tool: f.required_tool(),
                    },
                )
            }
        },
    }
}

/// The outcome of a probe of a file that can be read.
pub open spec fn is_probe(
    r: Result<AudioFile, Error>,
    f: AudioFormat,
    path: Seq<char>,
    file: Seq<u8>,
) -> bool {
    match f {
        AudioFormat::Flac => match tag::flac_metadata(file) {
            Err(said) => r matches Err(e) && is_meta_error(e, path, said),
            Ok(m) => match flac::probed(m) {
                None => r matches Err(e) && e.is_malformed(
                    path,
                    "FLAC file has no STREAMINFO block"@,
                ),
                Some((info, vendor)) => r matches Ok(a) && a.path@ == path && a.format is Flac
                    && a.file_size == file.len() && flac::same_info(a.stream_info, info)
                    && match vendor {
                    Some(v) => a.encoder matches Some(s) && s@ == v,
                    None => a.encoder is None,
                },
            },
        },
        _ => match wav::parse(file) {
            Err(fault) => r matches Err(e) && wav::is_fault(e, path, fault),
            Ok((fmt, at, len)) => r matches Ok(a) && a.path@ == path && a.format == f
                && a.file_size == file.len() && a.stream_info == wav::info_of(fmt, len)
                && a.encoder is None,
        },
    }
}

/// Everything that there is to learn about a file without decoding it.
pub fn probe(path: &str, file: &[u8]) -> (r: Result<AudioFile, Error>)
    requires
        model::format_of_path(path@) == Some(AudioFormat::Flac) ==> blocks::readable_blocks(
            file@,
        ),
    ensures
        match model::format_of_path(path@) {
            None => r matches Err(e) && is_unknown(e, path@),
            Some(f) => if f.implemented() {
                is_probe(r, f, path@, file@)
            } else {
                r matches Err(e) && is_unsupported(e, path@, f)
            },
        },
{
    let format = readable_format(path)?;
    let (stream_info, encoder): (StreamInfo, Option<String>) = match format {
        AudioFormat::Flac => flac::probe(path, file)?,
        _ => (wav::probe(path, file)?.stream_info, None),
    };
    Ok(
        AudioFile {
            path: path.to_owned(),
            format,
            file_size: file.len() as u64,
            stream_info,
            encoder,
        },
    )
}

/// The MD5 of the unencoded audio, computed by actually decoding the file.
///
/// This is the value that FLAC stores in its header and the value that shntool hashes for
/// `.st5`, so that the two agree by construction.
pub fn audio_md5(path: &str, file: &[u8]) -> (r: Result<[u8; 16], Error>)
    requires
        model::format_of_path(path@) == Some(AudioFormat::Flac) ==> flac::decodable(file@),
    ensures
        match model::format_of_path(path@) {
            None => r matches Err(e) && is_unknown(e, path@),
            Some(AudioFormat::Flac) => flac::is_audio_md5(r, path@, file@),
            Some(AudioFormat::Wav) => wav::is_audio_md5(r, path@, file@),
            Some(f) => r matches Err(e) && is_unsupported(e, path@, f),
        },
{
    let format = readable_format(path)?;
    match format {
        AudioFormat::Flac => flac::audio_md5(path, file),
        _ => wav::audio_md5(path, file),
    }
}

} // verus!
