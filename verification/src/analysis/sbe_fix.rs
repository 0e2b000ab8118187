//! Fixing one boundary between two adjacent FLACs.
//!
//! Both are decoded, frames move across the boundary, and both are encoded again. What the
//! encoder made is then decoded and compared: laid end to end, the audio of the two is what it
//! was, or nothing is committed.

use crate::bytes::same_md5;
use crate::error::Error;
use crate::format::flac;
use crate::format::flac::{concatenated_pcm_md5, samples_md5};
use crate::model::AudioFile;
use crate::repair::members;
use crate::repair::members::Fixed;
use crate::repair::shift::move_boundary;
use crate::repair::wavs;
use crate::repair::wavs::mismatch;
use crate::seqs;
use crate::text;
use crate::text::push_decimal;
use crate::tools::Provenance;
use vstd::prelude::*;
use vstd::string::*;

verus! {

/// Two files' audio on its way to the encoder.
#[derive(Debug, Clone)]
pub struct ShiftedPair {
    /// The MD5 of the audio of both, as it was, laid end to end.
    pub before: [u8; 16],
    pub a: Vec<i32>,
    pub b: Vec<i32>,
}

/// The audio of the two files after the shift: `n` frames, of two samples each, go from the
/// end of the first to the start of the second, or the other way where it is negative.
pub open spec fn shifted_pair(a: Seq<i32>, b: Seq<i32>, n: int) -> (Seq<i32>, Seq<i32>) {
    if n >= 0 {
        (a.take(a.len() - 2 * n), a.skip(a.len() - 2 * n) + b)
    } else {
        (a + b.take(-2 * n), b.skip(-2 * n))
    }
}

/// Why the boundary cannot be fixed, and which file is to blame.
pub open spec fn pair_objection(
    a: AudioFile,
    b: AudioFile,
    a_len: nat,
    b_len: nat,
    n: int,
) -> Option<(Seq<char>, Seq<char>)> {
    let not_cdda = "not CD audio (44.1 kHz / 16-bit / stereo); sbe fix has nothing to align"@;
    if !a.stream_info.cdda() {
        Some((a.path@, not_cdda))
    } else if !b.stream_info.cdda() {
        Some((b.path@, not_cdda))
    } else if n > a_len as int / 2 {
        Some(
            (
                a.path@,
                "cannot shift "@ + text::decimal(n as nat) + " frames off a file that only has "@
                    + text::decimal((a_len as int / 2) as nat),
            ),
        )
    } else if -n > b_len as int / 2 {
        Some(
            (
                b.path@,
                "cannot borrow "@ + text::decimal((-n) as nat)
                    + " frames from a file that only has "@ + text::decimal(
                    (b_len as int / 2) as nat,
                ),
            ),
        )
    } else {
        None
    }
}

fn short(path: &str, what: &str, n: u64, from: &str, has: usize) -> (e: Error)
    ensures
        e.is_malformed(
            path@,
            what@ + text::decimal(n as nat) + from@ + text::decimal(has as nat),
        ),
{
    let mut detail = what.to_owned();
    push_decimal(&mut detail, n);
    detail.append(from);
    push_decimal(&mut detail, has as u64);
    Error::malformed(path, &detail)
}

fn require_cdda(f: &AudioFile) -> (r: Result<(), Error>)
    ensures
        match r {
            Ok(_) => f.stream_info.cdda(),
            Err(e) => !f.stream_info.cdda() && e.is_malformed(
                f.path@,
                "not CD audio (44.1 kHz / 16-bit / stereo); sbe fix has nothing to align"@,
            ),
        },
{
    if f.stream_info.is_cdda() {
        Ok(())
    } else {
        Err(
            Error::malformed(
                &f.path,
                "not CD audio (44.1 kHz / 16-bit / stereo); sbe fix has nothing to align",
            ),
        )
    }
}

/// The decoded audio of two adjacent files with the frames moved across the boundary between
/// them, and the MD5 of what it was before.
pub fn execute_single_boundary(
    a: &AudioFile,
    b: &AudioFile,
    shifted_frames: i64,
    orig_a: Vec<i32>,
    orig_b: Vec<i32>,
) -> (r: Result<ShiftedPair, Error>)
    requires
        shifted_frames > i64::MIN,
    ensures
        ({
            let objection = pair_objection(
                *a,
                *b,
                orig_a@.len(),
                orig_b@.len(),
                shifted_frames as int,
            );
            match r {
                Ok(p) => {
                    &&& objection is None
                    &&& p.before@ == members::pcm_md5(seq![orig_a@, orig_b@], 16)
                    &&& (p.a@, p.b@) == shifted_pair(orig_a@, orig_b@, shifted_frames as int)
                },
                Err(e) => objection matches Some((p, d)) && e.is_malformed(p, d),
            }
        }),
{
    match require_cdda(a) {
        Ok(_) => {},
        Err(e) => {
            return Err(e);
        },
    }
    match require_cdda(b) {
        Ok(_) => {},
        Err(e) => {
            return Err(e);
        },
    }
    let a_frames: usize = orig_a.len() / 2;
    let b_frames: usize = orig_b.len() / 2;
    if shifted_frames > 0 && shifted_frames as u64 > a_frames as u64 {
        return Err(
            short(
                &a.path,
                "cannot shift ",
                shifted_frames as u64,
                " frames off a file that only has ",
                a_frames,
            ),
        );
    }
    if shifted_frames < 0 && (-shifted_frames) as u64 > b_frames as u64 {
        return Err(
            short(
                &b.path,
                "cannot borrow ",
                (-shifted_frames) as u64,
                " frames from a file that only has ",
                b_frames,
            ),
        );
    }
    let before = both_md5(&orig_a, &orig_b);
    let ghost whole = orig_a@ + orig_b@;
    let ghost n = shifted_frames as int;
    let ghost x = orig_a@;
    let ghost y = orig_b@;
    let mut shifted_a = orig_a;
    let mut shifted_b = orig_b;
    move_boundary(&mut shifted_a, &mut shifted_b, shifted_frames, 2);
    proof {
        let cut = x.len() - 2 * n;
        assert(shifted_a@ =~= whole.take(cut)) by {
            assert((shifted_a@ + shifted_b@).take(cut) =~= shifted_a@);
        }
        assert(shifted_b@ =~= whole.skip(cut)) by {
            assert((shifted_a@ + shifted_b@).skip(cut) =~= shifted_b@);
        }
        if n >= 0 {
            assert(whole.take(cut) =~= x.take(cut));
            assert(whole.skip(cut) =~= x.skip(cut) + y);
        } else {
            assert(whole.take(cut) =~= x + y.take(-2 * n));
            assert(whole.skip(cut) =~= y.skip(-2 * n));
        }
    }
    Ok(ShiftedPair { before, a: shifted_a, b: shifted_b })
}

fn both_md5(a: &Vec<i32>, b: &Vec<i32>) -> (d: [u8; 16])
    ensures
        d@ == members::pcm_md5(seq![a@, b@], 16),
{
    let mut refs: Vec<&[i32]> = Vec::new();
    refs.push(a.as_slice());
    refs.push(b.as_slice());
    assert(refs@.map_values(|s: &[i32]| s@) =~= seq![a@, b@]);
    concatenated_pcm_md5(&refs, 16)
}

/// The check on what the encoder made of the two files, decoded again: laid end to end, the
/// audio has the MD5 that it had before. Gives each file's own audio MD5.
pub fn check_single_boundary(
    dst_a: &str,
    before: &[u8; 16],
    check_a: &Vec<i32>,
    check_b: &Vec<i32>,
) -> (r: Result<([u8; 16], [u8; 16]), Error>)
    ensures
        ({
            let after = members::pcm_md5(seq![check_a@, check_b@], 16);
            match r {
                Ok((x, y)) => after == before@ && x@ == flac::pcm_md5(check_a@, 16) && y@
                    == flac::pcm_md5(check_b@, 16),
                Err(e) => after != before@ && e.is_malformed(
                    dst_a@,
                    wavs::mismatch_text(before@, after),
                ),
            }
        }),
{
    let after = both_md5(check_a, check_b);
    if !same_md5(&after, before) {
        return Err(mismatch(dst_a, before, &after));
    }
    Ok((samples_md5(check_a, 16), samples_md5(check_b, 16)))
}

/// The records of the two files, once both are in place.
pub fn fixed_pair(
    shifted_frames: i64,
    paths: (String, String),
    md5s: ([u8; 16], [u8; 16]),
    provenance: (Provenance, Provenance),
) -> (r: (Fixed, Fixed))
    ensures
        r.0 == (Fixed {
            path: paths.0,
            shifted_in: 0,
            shifted_out: shifted_frames,
            audio_md5: md5s.0,
            provenance: provenance.0,
        }),
        r.1 == (Fixed {
            path: paths.1,
            shifted_in: shifted_frames,
            shifted_out: 0,
            audio_md5: md5s.1,
            provenance: provenance.1,
        }),
{
    (
        Fixed {
            path: paths.0,
            shifted_in: 0,
            shifted_out: shifted_frames,
            audio_md5: md5s.0,
            provenance: provenance.0,
        },
        Fixed {
            path: paths.1,
            shifted_in: shifted_frames,
            shifted_out: 0,
            audio_md5: md5s.1,
            provenance: provenance.1,
        },
    )
}

/// Only where the audio is cut changes: laid end to end, the two files hold what they held, so
/// that what comes out of a faithful encoder passes the check.
pub proof fn law_boundary_fix_keeps_the_audio(a: Seq<i32>, b: Seq<i32>, n: int)
    requires
        2 * n <= a.len(),
        -2 * n <= b.len(),
    ensures
        ({
            let (x, y) = shifted_pair(a, b, n);
            &&& x + y == a + b
            &&& members::pcm_md5(seq![x, y], 16) == members::pcm_md5(seq![a, b], 16)
        }),
{
    let (x, y) = shifted_pair(a, b, n);
    assert(x + y =~= a + b);
    lemma_pair(x, y);
    lemma_pair(a, b);
}

proof fn lemma_pair(x: Seq<i32>, y: Seq<i32>)
    ensures
        seqs::concat(seq![x, y]) == x + y,
{
    assert(seq![x, y] =~= seq![x].push(y));
    seqs::lemma_concat_push(seq![x], y);
    seqs::lemma_concat_one(x);
}

} // verus!
