//! Sector boundary errors.

use crate::model::{StreamInfo, FRAMES_PER_SECTOR};
use vstd::prelude::*;

verus! {

#[derive(Debug, Clone, PartialEq, Eq)]
pub enum Sbe {
    /// Length is a whole number of CD sectors.
    Aligned,
    /// Length is past a sector boundary by this many frames.
    Misaligned { remainder_frames: u64 },
    /// Sector boundaries are a CD-audio concept; anything else has no boundary to miss.
    NotApplicable { reason: &'static str },
}

/// What there is to say of the sector boundaries of audio like this.
pub open spec fn is_sbe(s: Sbe, info: StreamInfo) -> bool {
    match s {
        Sbe::Aligned => info.cdda() && (info.total_frames matches Some(n) && n % 588 == 0),
        Sbe::Misaligned { remainder_frames } => info.cdda() && (info.total_frames matches Some(n)
            && n % 588 == remainder_frames && remainder_frames > 0),
        Sbe::NotApplicable { reason } => if info.cdda() {
            info.total_frames is None && reason@ == "frame count unknown"@
        } else {
            reason@ == "not CD audio (44.1 kHz / 16-bit / stereo)"@
        },
    }
}

/// A CD sector holds 588 frames (44100 / 75). A file whose frame count is not a whole
/// multiple of that cannot be burned gapless against its neighbours.
///
/// Only meaningful for 44.1 kHz / 16-bit / stereo. Anything else reports
/// [`Sbe::NotApplicable`], never a pass: "pass" would imply that it was checked.
pub fn sbe(info: &StreamInfo) -> (r: Sbe)
    ensures
        is_sbe(r, *info),
{
    if !info.is_cdda() {
        return Sbe::NotApplicable { reason: "not CD audio (44.1 kHz / 16-bit / stereo)" };
    }
    match info.total_frames {
        None => Sbe::NotApplicable { reason: "frame count unknown" },
        Some(frames) => {
            let remainder_frames: u64 = frames % FRAMES_PER_SECTOR;
            if remainder_frames == 0 {
                Sbe::Aligned
            } else {
                Sbe::Misaligned { remainder_frames }
            }
        },
    }
}

/// CD audio is aligned where its frames fill whole sectors, of which 75 hold a second, and
/// otherwise misaligned by what is over; nothing else is either.
pub proof fn law_misalignment_is_what_is_over(s: Sbe, info: StreamInfo)
    requires
        is_sbe(s, info),
    ensures
        (s is NotApplicable) == !(info.sample_rate == 44_100 && info.channels == 2
            && info.bits_per_sample == 16 && info.total_frames is Some),
        s is Aligned ==> info.total_frames->0 % 588 == 0 && 588 * 75 == info.sample_rate,
        s matches Sbe::Misaligned { remainder_frames } ==> 0 < remainder_frames < 588 && (
        info.total_frames->0 - remainder_frames) % 588 == 0,
{
}

} // verus!
