//! The three checksum formats that traders exchange, and why all three exist:
//!
//! | Kind | Hashes                                     | Survives         | Breaks on              |
//! |------|--------------------------------------------|------------------|------------------------|
//! | FFP  | unencoded audio, read from the FLAC header | re-encode, retag | audio change           |
//! | MD5  | file bytes                                 | copy, move       | any re-encode or retag |
//! | ST5  | audio data only, WAV header excluded       | format change    | audio change           |

pub mod file;
pub mod lines;

use crate::bytes::same_md5;
use crate::digest;
use crate::digest::md5_of;
use crate::error::Error;
use crate::format::blocks;
use crate::format::flac;
use crate::format::wav;
use crate::model;
use crate::model::{AudioFormat, StreamInfo};
use crate::path;
use crate::tag;
use crate::path::{extension_of, name_or_empty};
use crate::text;
use crate::text::{debug_of, lower_string, same};
use vstd::prelude::*;
use vstd::string::*;

pub use file::{ChecksumFile, Entry};

verus! {

#[derive(Debug, Clone, Copy, PartialEq, Eq, Structural)]
pub enum ChecksumKind {
    Ffp,
    Md5,
    St5,
}

impl ChecksumKind {
    pub open spec fn extension_text(self) -> Seq<char> {
        match self {
            ChecksumKind::Ffp => "ffp"@,
            ChecksumKind::Md5 => "md5"@,
            ChecksumKind::St5 => "st5"@,
        }
    }

    pub fn extension(self) -> (s: &'static str)
        ensures
            s@ == self.extension_text(),
    {
        match self {
            ChecksumKind::Ffp => "ffp",
            ChecksumKind::Md5 => "md5",
            ChecksumKind::St5 => "st5",
        }
    }

    pub open spec fn label_text(self) -> Seq<char> {
        match self {
            ChecksumKind::Ffp => "FFP"@,
            ChecksumKind::Md5 => "MD5"@,
            ChecksumKind::St5 => "ST5"@,
        }
    }

    pub fn label(self) -> (s: &'static str)
        ensures
            s@ == self.label_text(),
    {
        match self {
            ChecksumKind::Ffp => "FFP",
            ChecksumKind::Md5 => "MD5",
            ChecksumKind::St5 => "ST5",
        }
    }

    /// What kind of checksum file a path names, told by its extension, in either case.
    pub fn from_path(path: &str) -> (r: Option<ChecksumKind>)
        ensures
            r == kind_of_path(path@),
    {
        let name = name_or_empty(path);
        let ext = match extension_of(&name) {
            Some(e) => lower_string(&e),
            None => {
                return None;
            },
        };
        if same(&ext, "ffp") {
            Some(ChecksumKind::Ffp)
        } else if same(&ext, "md5") {
            Some(ChecksumKind::Md5)
        } else if same(&ext, "st5") {
            Some(ChecksumKind::St5)
        } else {
            None
        }
    }
}

pub open spec fn kind_of_path(path: Seq<char>) -> Option<ChecksumKind> {
    match path::extension(path::name_of(path)) {
        None => None,
        Some(e) => {
            let ext = text::lowercase(e);
            if ext == "ffp"@ {
                Some(ChecksumKind::Ffp)
            } else if ext == "md5"@ {
                Some(ChecksumKind::Md5)
            } else if ext == "st5"@ {
                Some(ChecksumKind::St5)
            } else {
                None
            }
        },
    }
}

/// The outcome of asking for an FFP.
pub open spec fn is_ffp(
    r: Result<[u8; 16], Error>,
    path: Seq<char>,
    file: Seq<u8>,
) -> bool {
    let none = "no audio MD5 in STREAMINFO; cannot produce an FFP"@;
    match model::format_of_path(path) {
        None => r matches Err(e) && crate::format::is_unknown(e, path),
        Some(AudioFormat::Flac) => match tag::flac_metadata(file) {
            Err(said) => r matches Err(e) && crate::format::is_meta_error(e, path, said),
            Ok(m) => match flac::probed(m) {
                None => r matches Err(e) && e.is_malformed(
                    path,
                    "FLAC file has no STREAMINFO block"@,
                ),
                Some((found, _)) => match found.audio_md5 {
                    Some(d) => r matches Ok(m) && m@ == d,
                    None => r matches Err(e) && e.is_malformed(path, none),
                },
            },
        },
        Some(AudioFormat::Wav) => match wav::parse(file) {
            Err(fault) => r matches Err(e) && wav::is_fault(e, path, fault),
            Ok(_) => r matches Err(e) && e.is_malformed(path, none),
        },
        Some(f) => r matches Err(e) && crate::format::is_unsupported(e, path, f),
    }
}

/// FFP: the MD5 already stored in the FLAC header. No decode.
pub fn ffp(path: &str, file: &[u8]) -> (r: Result<[u8; 16], Error>)
    requires
        model::format_of_path(path@) == Some(AudioFormat::Flac) ==> blocks::readable_blocks(
            file@,
        ),
    ensures
        is_ffp(r, path@, file@),
{
    let probed = crate::format::probe(path, file)?;
    match probed.stream_info.audio_md5 {
        Some(d) => Ok(d),
        None => Err(
            Error::malformed(path, "no audio MD5 in STREAMINFO; cannot produce an FFP"),
        ),
    }
}

/// MD5 of the file's bytes.
pub fn md5(file: &[u8]) -> (d: [u8; 16])
    ensures
        d@ == digest::md5_digest(file@),
{
    md5_of(file)
}

/// The outcome of hashing a file's audio.
pub open spec fn is_st5(r: Result<[u8; 16], Error>, path: Seq<char>, file: Seq<u8>) -> bool {
    match model::format_of_path(path) {
        None => r matches Err(e) && crate::format::is_unknown(e, path),
        Some(AudioFormat::Flac) => flac::is_audio_md5(r, path, file),
        Some(AudioFormat::Wav) => wav::is_audio_md5(r, path, file),
        Some(f) => r matches Err(e) && crate::format::is_unsupported(e, path, f),
    }
}

/// ST5: MD5 of the audio data alone. Computed by decoding, so that it is a genuine
/// independent check of the FFP rather than a restatement of it.
pub fn st5(path: &str, file: &[u8]) -> (r: Result<[u8; 16], Error>)
    requires
        model::format_of_path(path@) == Some(AudioFormat::Flac) ==> flac::decodable(file@),
    ensures
        is_st5(r, path@, file@),
{
    crate::format::audio_md5(path, file)
}

/// The outcome of asking for a checksum of some kind.
pub open spec fn is_computed(
    kind: ChecksumKind,
    r: Result<[u8; 16], Error>,
    path: Seq<char>,
    file: Seq<u8>,
) -> bool {
    match kind {
        ChecksumKind::Ffp => is_ffp(r, path, file),
        ChecksumKind::Md5 => r matches Ok(d) && d@ == digest::md5_digest(file),
        ChecksumKind::St5 => is_st5(r, path, file),
    }
}

/// Whether a file can be hashed as this kind of checksum asks.
pub open spec fn hashable(kind: ChecksumKind, path: Seq<char>, file: Seq<u8>) -> bool {
    model::format_of_path(path) == Some(AudioFormat::Flac) ==> match kind {
        ChecksumKind::Ffp => blocks::readable_blocks(file),
        ChecksumKind::Md5 => true,
        ChecksumKind::St5 => flac::decodable(file),
    }
}

pub fn compute(kind: ChecksumKind, path: &str, file: &[u8]) -> (r: Result<[u8; 16], Error>)
    requires
        hashable(kind, path@, file@),
    ensures
        is_computed(kind, r, path@, file@),
{
    match kind {
        ChecksumKind::Ffp => ffp(path, file),
        ChecksumKind::Md5 => Ok(md5(file)),
        ChecksumKind::St5 => st5(path, file),
    }
}

/// What became of one entry of a checksum file.
#[derive(Debug, Clone)]
pub enum EntryOutcome {
    Matched,
    /// There is no such file.
    Missing,
    Mismatch { expected: [u8; 16], actual: [u8; 16] },
    /// The checksum could not be computed.
    Failed(Error),
}

/// What was computed for an entry that was found.
pub open spec fn computed_in(o: EntryOutcome, expected: [u8; 16]) -> Result<[u8; 16], Error> {
    match o {
        EntryOutcome::Mismatch { actual, .. } => Ok(actual),
        EntryOutcome::Failed(e) => Err(e),
        _ => Ok(expected),
    }
}

/// The outcome of checking an entry against what stands at its path, where anything does.
pub open spec fn is_checked(
    o: EntryOutcome,
    kind: ChecksumKind,
    path: Seq<char>,
    expected: [u8; 16],
    file: Option<Seq<u8>>,
) -> bool {
    match file {
        None => o is Missing,
        Some(f) => !(o is Missing) && is_computed(kind, computed_in(o, expected), path, f) && (
        o matches EntryOutcome::Mismatch { expected: e, actual } ==> e == expected && actual@
            != e@),
    }
}

/// Checks one entry against the file that stands at its path: `file` is what it holds, where
/// there is one.
pub fn check_entry(kind: ChecksumKind, path: &str, entry: &Entry, file: Option<&[u8]>) -> (o:
    EntryOutcome)
    requires
        file matches Some(f) ==> hashable(kind, path@, f@),
    ensures
        is_checked(
            o,
            kind,
            path@,
            entry.digest,
            match file {
                Some(f) => Some(f@),
                None => None,
            },
        ),
{
    let f = match file {
        Some(f) => f,
        None => {
            return EntryOutcome::Missing;
        },
    };
    match compute(kind, path, f) {
        Ok(actual) => {
            if same_md5(&actual, &entry.digest) {
                assert(actual == entry.digest);
                EntryOutcome::Matched
            } else {
                EntryOutcome::Mismatch { expected: entry.digest, actual }
            }
        },
        Err(e) => EntryOutcome::Failed(e),
    }
}

/// What is said of a path that names no kind of checksum file.
pub open spec fn no_kind(path: Seq<char>) -> Seq<char> {
    let ext = match path::extension(path::name_of(path)) {
        Some(e) => text::lowercase(e),
        None => Seq::empty(),
    };
    "cannot tell what kind of checksum file this is from "@ + text::debug_text(ext)
        + "; expected .ffp, .md5 or .st5"@
}

/// What kind of checksum file a path names, or what is said of one that names none.
pub fn kind_for(path: &str) -> (r: Result<ChecksumKind, String>)
    ensures
        match kind_of_path(path@) {
            Some(k) => r == Ok::<ChecksumKind, String>(k),
            None => r matches Err(e) && e@ == no_kind(path@),
        },
{
    match ChecksumKind::from_path(path) {
        Some(k) => Ok(k),
        None => {
            let name = name_or_empty(path);
            let ext = match extension_of(&name) {
                Some(e) => lower_string(&e),
                None => String::new(),
            };
            let mut e = "cannot tell what kind of checksum file this is from ".to_owned();
            e.append(&debug_of(&ext));
            e.append("; expected .ffp, .md5 or .st5");
            Err(e)
        },
    }
}

// Laws.

/// An entry matches only where its file is there and its checksum is the entry's; a file that
/// is not there is missing; and any other outcome says what was computed, which is not what
/// was expected, or why nothing could be.
pub proof fn law_only_the_same_checksum_matches(
    o: EntryOutcome,
    kind: ChecksumKind,
    path: Seq<char>,
    expected: [u8; 16],
    file: Option<Seq<u8>>,
)
    requires
        is_checked(o, kind, path, expected, file),
    ensures
        (o is Missing) == (file is None),
        o is Matched ==> is_computed(kind, Ok(expected), path, file->0),
        kind is Md5 && file is Some ==> (o is Matched) == (digest::md5_digest(file->0)
            == expected@),
        kind is Md5 ==> !(o is Failed),
        o matches EntryOutcome::Mismatch { expected: e, actual } ==> e == expected && actual
            != expected && is_computed(kind, Ok(actual), path, file->0),
        o matches EntryOutcome::Failed(e) ==> is_computed(kind, Err(e), path, file->0),
{
}

/// Two files of the same bytes have the same MD5, whatever they are called; an FFP is the MD5
/// in a FLAC's header, where it is set; and an ST5 that of its audio.
pub proof fn law_checksums_are_of_the_right_thing(
    kind: ChecksumKind,
    r: Result<[u8; 16], Error>,
    path: Seq<char>,
    file: Seq<u8>,
)
    requires
        is_computed(kind, r, path, file),
    ensures
        kind is Md5 ==> (r matches Ok(d) && d@ == digest::md5_digest(file)),
        kind is Ffp && model::format_of_path(path) == Some(AudioFormat::Flac) && r is Ok ==> (
        tag::flac_metadata(file) matches Ok(m) && m.0.len() > 0 && m.0[0].4 == r->Ok_0@
            && !flac::all_zero(r->Ok_0@)),
        kind is Ffp && model::format_of_path(path) != Some(AudioFormat::Flac) ==> r is Err,
        kind is St5 && model::format_of_path(path) == Some(AudioFormat::Flac) && r is Ok ==> (
        flac::flac_decoded(file) matches Ok((h, samples)) && r->Ok_0@ == digest::md5_digest(
            flac::pcm_bytes(samples, ((h.2 as nat + 7) / 8) as nat),
        )),
        kind is St5 && model::format_of_path(path) == Some(AudioFormat::Wav) && r is Ok ==> (
        wav::parse(file) matches Ok((_, at, len)) && at + len <= file.len() && r->Ok_0@
            == digest::md5_digest(file.subrange(at, at + len))),
{
}

proof fn lemma_wav_bytes_are_pcm(samples: Seq<i32>, bits: nat)
    requires
        bits == 16 || bits == 24,
    ensures
        wav::samples_bytes(samples, bits) == flac::pcm_bytes(samples, flac::sample_width(bits)),
    decreases samples.len(),
{
    if samples.len() > 0 {
        lemma_wav_bytes_are_pcm(samples.drop_last(), bits);
    }
}

/// An ST5 survives a change of format: a FLAC and the WAV that its audio makes have the same
/// one, and it is the MD5 that the FLAC header should hold. WAV stores 8-bit samples
/// unsigned, so there the two differ.
#[verifier::rlimit(60)]
#[verifier::spinoff_prover]
pub proof fn law_st5_survives_a_format_change(si: StreamInfo, samples: Seq<i32>)
    requires
        wav::writable(si),
        si.bits_per_sample != 8,
        si.sample_rate * si.frame_bytes() <= 0xFFFF_FFFF,
        wav::riff_len(si, wav::samples_bytes(samples, si.bits_per_sample as nat).len())
            <= wav::MAX_WAV_DATA,
    ensures
        ({
            let file = wav::wav_file(
                si,
                wav::samples_bytes(samples, si.bits_per_sample as nat),
            );
            wav::parse(file) matches Ok((_, offset, len)) && offset + len <= file.len()
                && digest::md5_digest(file.subrange(offset, offset + len)) == flac::pcm_md5(
                samples,
                si.bits_per_sample as nat,
            )
        }),
{
    let data = wav::samples_bytes(samples, si.bits_per_sample as nat);
    wav::law_written_wav_reads_back(si, data);
    lemma_wav_bytes_are_pcm(samples, si.bits_per_sample as nat);
}

} // verus!
