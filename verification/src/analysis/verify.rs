//! Whether a file's audio is what its header says it is.

use crate::bytes::same_md5;
use crate::error::Error;
use crate::format::blocks;
use crate::format::flac;
use crate::format::wav;
use crate::model;
use crate::model::AudioFormat;
use crate::tag;
use vstd::prelude::*;

verus! {

#[derive(Debug, Clone, PartialEq, Eq)]
pub enum Verification {
    /// Decoded cleanly and the audio matches the MD5 that the file carries.
    Verified,
    /// Decoded cleanly, but the audio is not what the file claims it is.
    Md5Mismatch { stored: [u8; 16], computed: [u8; 16] },
    /// Decoded cleanly; the file carries no MD5 to check against.
    NoStoredMd5 { computed: [u8; 16] },
}

impl Verification {
    pub fn is_ok(&self) -> (b: bool)
        ensures
            b == (self is Verified),
    {
        matches!(self, Verification::Verified)
    }
}

/// What comes of a stored MD5 and the one that was computed.
pub open spec fn is_verdict(v: Verification, stored: Option<Seq<u8>>, computed: Seq<u8>) -> bool {
    match stored {
        None => v matches Verification::NoStoredMd5 { computed: c } && c@ == computed,
        Some(s) => if s == computed {
            v is Verified
        } else {
            v matches Verification::Md5Mismatch { stored: t, computed: c } && t@ == s && c@
                == computed
        },
    }
}

/// Compares the MD5 that a header stores with the one that was computed.
pub fn compare_md5(stored: Option<[u8; 16]>, computed: [u8; 16]) -> (v: Verification)
    ensures
        is_verdict(
            v,
            match stored {
                Some(s) => Some(s@),
                None => None,
            },
            computed@,
        ),
{
    match stored {
        None => Verification::NoStoredMd5 { computed },
        Some(stored) => {
            if same_md5(&stored, &computed) {
                Verification::Verified
            } else {
                Verification::Md5Mismatch { stored, computed }
            }
        },
    }
}

/// The outcome of verifying a file of some format.
pub open spec fn is_verified(
    r: Result<Verification, Error>,
    path: Seq<char>,
    file: Seq<u8>,
) -> bool {
    match model::format_of_path(path) {
        None => r matches Err(e) && crate::format::is_unknown(e, path),
        Some(AudioFormat::Flac) => match tag::flac_metadata(file) {
            Err(said) => r matches Err(e) && crate::format::is_meta_error(e, path, said),
            Ok(m) => match flac::probed(m) {
                None => r matches Err(e) && e.is_malformed(
                    path,
                    "FLAC file has no STREAMINFO block"@,
                ),
                Some((found, _)) => match flac::flac_decoded(file) {
                    Err(said) => r matches Err(e) && flac::is_flac_error(e, path, said),
                    Ok((h, samples)) => r matches Ok(v) && is_verdict(
                        v,
                        found.audio_md5,
                        flac::pcm_md5(samples, h.2 as nat),
                    ),
                },
            },
        },
        Some(AudioFormat::Wav) => match wav::parse(file) {
            Err(f) => r matches Err(e) && wav::is_fault(e, path, f),
            Ok((_, offset, len)) => if offset + len <= file.len() {
                r matches Ok(v) && is_verdict(
                    v,
                    None,
                    crate::digest::md5_digest(file.subrange(offset, offset + len)),
                )
            } else {
                r matches Err(e) && wav::is_fault(e, path, wav::Fault::Short)
            },
        },
        Some(f) => r matches Err(e) && crate::format::is_unsupported(e, path, f),
    }
}

/// Decodes the whole file and compares against the MD5 stored in its header.
///
/// A decode error is an error: that is a broken file, not a failed comparison, and the two
/// deserve different words.
pub fn verify(path: &str, file: &[u8]) -> (r: Result<Verification, Error>)
    requires
        model::format_of_path(path@) == Some(AudioFormat::Flac) ==> flac::decodable(file@)
            && blocks::readable_blocks(file@),
    ensures
        is_verified(r, path@, file@),
{
    let probed = crate::format::probe(path, file)?;
    let computed = crate::format::audio_md5(path, file)?;
    Ok(compare_md5(probed.stream_info.audio_md5, computed))
}

/// A file is verified only where it stores an MD5 and its audio has it; one that stores none
/// is not verified, and says what its audio's is.
pub proof fn law_only_the_stored_md5_verifies(
    v: Verification,
    stored: Option<Seq<u8>>,
    computed: Seq<u8>,
)
    requires
        is_verdict(v, stored, computed),
    ensures
        v is Verified == (stored == Some(computed)),
        v is NoStoredMd5 == (stored is None),
        v matches Verification::NoStoredMd5 { computed: c } ==> c@ == computed,
        v matches Verification::Md5Mismatch { stored: s, computed: c } ==> stored == Some(s@) && c@
            == computed && s@ != c@,
{
}

/// What a FLAC is verified against is what its header stores, and what is compared with it is
/// the MD5 of what it decodes to; a WAV stores nothing to verify against.
pub proof fn law_audio_is_verified(r: Result<Verification, Error>, path: Seq<char>, file: Seq<u8>)
    requires
        is_verified(r, path, file),
        r is Ok,
    ensures
        r->Ok_0 is Verified ==> model::format_of_path(path) == Some(AudioFormat::Flac) && (
        tag::flac_metadata(file) matches Ok(m) && m.0.len() > 0 && (
        flac::flac_decoded(file) matches Ok((h, samples)) && m.0[0].4 == flac::pcm_md5(
            samples,
            h.2 as nat,
        ))),
        model::format_of_path(path) == Some(AudioFormat::Wav) ==> r->Ok_0 is NoStoredMd5,
{
}

} // verus!
