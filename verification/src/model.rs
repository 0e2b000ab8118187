//! What is known about an audio file without decoding it.

use crate::display::FLICKS;
use crate::path;
use crate::path::{extension_of, name_or_empty};
use crate::text;
use crate::text::{lower_string, same};
use vstd::prelude::*;

verus! {

/// Frames per CD sector: 44100 / 75.
pub const FRAMES_PER_SECTOR: u64 = 588;

#[derive(Debug, Clone, Copy, PartialEq, Eq, Structural)]
pub enum AudioFormat {
    Flac,
    Wav,
    /// Recognized by extension but not implemented, like the ones below.
    Shn,
    Ape,
    Wv,
    Tta,
}

/// The format that an extension, in lower case, stands for.
pub open spec fn format_of_extension(ext: Seq<char>) -> Option<AudioFormat> {
    if ext == "flac"@ || ext == "fla"@ {
        Some(AudioFormat::Flac)
    } else if ext == "wav"@ || ext == "wave"@ {
        Some(AudioFormat::Wav)
    } else if ext == "shn"@ {
        Some(AudioFormat::Shn)
    } else if ext == "ape"@ {
        Some(AudioFormat::Ape)
    } else if ext == "wv"@ {
        Some(AudioFormat::Wv)
    } else if ext == "tta"@ {
        Some(AudioFormat::Tta)
    } else {
        None
    }
}

/// The format of the file that a path names, told by its extension, in either case.
pub open spec fn format_of_path(path: Seq<char>) -> Option<AudioFormat> {
    match path::extension(path::name_of(path)) {
        Some(ext) => format_of_extension(text::lowercase(ext)),
        None => None,
    }
}

impl AudioFormat {
    pub fn from_path(path: &str) -> (r: Option<AudioFormat>)
        ensures
            r == format_of_path(path@),
    {
        let name = name_or_empty(path);
        let ext = match extension_of(&name) {
            Some(e) => lower_string(&e),
            None => {
                return None;
            },
        };
        if same(&ext, "flac") || same(&ext, "fla") {
            Some(AudioFormat::Flac)
        } else if same(&ext, "wav") || same(&ext, "wave") {
            Some(AudioFormat::Wav)
        } else if same(&ext, "shn") {
            Some(AudioFormat::Shn)
        } else if same(&ext, "ape") {
            Some(AudioFormat::Ape)
        } else if same(&ext, "wv") {
            Some(AudioFormat::Wv)
        } else if same(&ext, "tta") {
            Some(AudioFormat::Tta)
        } else {
            None
        }
    }

    pub open spec fn implemented(self) -> bool {
        self is Flac || self is Wav
    }

    pub fn is_implemented(self) -> (b: bool)
        ensures
            b == self.implemented(),
    {
        matches!(self, AudioFormat::Flac | AudioFormat::Wav)
    }

    pub open spec fn tool_text(self) -> Seq<char> {
        match self {
            AudioFormat::Flac | AudioFormat::Wav => "nothing"@,
            AudioFormat::Shn => "shntool"@,
            AudioFormat::Ape => "mac"@,
            AudioFormat::Wv => "wvunpack"@,
            AudioFormat::Tta => "ttaenc"@,
        }
    }

    /// The external tool that would be required to handle this format.
    pub fn required_tool(self) -> (s: &'static str)
        ensures
            s@ == self.tool_text(),
    {
        match self {
            AudioFormat::Flac | AudioFormat::Wav => "nothing",
            AudioFormat::Shn => "shntool",
            AudioFormat::Ape => "mac",
            AudioFormat::Wv => "wvunpack",
            AudioFormat::Tta => "ttaenc",
        }
    }

    pub open spec fn name_text(self) -> Seq<char> {
        match self {
            AudioFormat::Flac => "FLAC"@,
            AudioFormat::Wav => "WAV"@,
            AudioFormat::Shn => "SHN"@,
            AudioFormat::Ape => "APE"@,
            AudioFormat::Wv => "WavPack"@,
            AudioFormat::Tta => "TTA"@,
        }
    }

    pub fn name(self) -> (s: &'static str)
        ensures
            s@ == self.name_text(),
    {
        match self {
            AudioFormat::Flac => "FLAC",
            AudioFormat::Wav => "WAV",
            AudioFormat::Shn => "SHN",
            AudioFormat::Ape => "APE",
            AudioFormat::Wv => "WavPack",
            AudioFormat::Tta => "TTA",
        }
    }
}

#[derive(Debug, Clone, Copy, PartialEq, Eq)]
pub struct StreamInfo {
    pub sample_rate: u32,
    pub channels: u8,
    pub bits_per_sample: u8,
    /// Frames (sample points per channel). `None` when the container does not state it.
    pub total_frames: Option<u64>,
    /// MD5 of the unencoded audio, as a FLAC header stores it. `None` means "not set".
    pub audio_md5: Option<[u8; 16]>,
}

impl StreamInfo {
    pub open spec fn cdda(self) -> bool {
        self.sample_rate == 44_100 && self.channels == 2 && self.bits_per_sample == 16
    }

    /// CD audio: 44.1 kHz, 16-bit, stereo. Sector boundaries are only meaningful here.
    pub fn is_cdda(&self) -> (b: bool)
        ensures
            b == self.cdda(),
    {
        self.sample_rate == 44_100 && self.channels == 2 && self.bits_per_sample == 16
    }

    /// How long the audio is, in [`FLICKS`], rounded down; `None` where the container does
    /// not say, or says that no time passes between two frames.
    pub open spec fn length(self) -> Option<nat> {
        match self.total_frames {
            Some(frames) => if self.sample_rate > 0 {
                Some(frames as nat * FLICKS as nat / self.sample_rate as nat)
            } else {
                None
            },
            None => None,
        }
    }

    pub fn duration(&self) -> (r: Option<u128>)
        ensures
            match r {
                Some(n) => self.length() == Some(n as nat) && n <= 0xFFFF_FFFF_FFFF_FFFF * FLICKS,
                None => self.length() is None,
            },
    {
        match self.total_frames {
            Some(frames) => {
                if self.sample_rate == 0 {
                    return None;
                }
                let all: u128 = frames as u128 * FLICKS as u128;
                let rate: u128 = self.sample_rate as u128;
                assert(all / rate <= all) by (nonlinear_arith)
                    requires
                        rate > 0,
                ;
                Some(all / rate)
            },
            None => None,
        }
    }

    /// One sample of each channel, each in whole bytes.
    pub open spec fn frame_bytes(self) -> nat {
        self.channels as nat * ((self.bits_per_sample as nat + 7) / 8)
    }

    pub fn bytes_per_frame(&self) -> (n: u32)
        ensures
            n == self.frame_bytes(),
            n <= 255 * 32,
    {
        let per_sample: u32 = (self.bits_per_sample as u32 + 7) / 8;
        let channels: u32 = self.channels as u32;
        assert(channels * per_sample <= 255 * 32) by (nonlinear_arith)
            requires
                channels <= 255,
                per_sample <= 32,
        ;
        channels * per_sample
    }
}

#[derive(Debug, Clone)]
pub struct AudioFile {
    pub path: String,
    pub format: AudioFormat,
    pub file_size: u64,
    pub stream_info: StreamInfo,
    /// FLAC vendor string, e.g. "reference libFLAC 1.5.0 20250211": the provenance record
    /// that other traders inspect.
    pub encoder: Option<String>,
}

impl AudioFile {
    /// The file's name as it appears in checksum files.
    pub fn file_name(&self) -> (s: String)
        ensures
            s@ == path::name_of(self.path@),
    {
        name_or_empty(&self.path)
    }
}

/// The length of audio is the time that its frames take at their rate: a second for as many
/// frames as the rate says, and to within one flick for any other number.
pub proof fn law_length_is_the_time_of_the_frames(si: StreamInfo)
    ensures
        si.length() is Some <==> si.total_frames is Some && si.sample_rate > 0,
        si.length() matches Some(t) ==> t * si.sample_rate <= si.total_frames->0
            * 705_600_000 < (t + 1) * si.sample_rate,
{
    if si.total_frames is Some && si.sample_rate > 0 {
        let x = si.total_frames->0 as int * 705_600_000;
        let r = si.sample_rate as int;
        let t = x / r;
        vstd::arithmetic::div_mod::lemma_fundamental_div_mod(x, r);
        vstd::arithmetic::div_mod::lemma_mod_bound(x, r);
        assert(t * r == r * t && (t + 1) * r == r * t + r) by (nonlinear_arith);
    }
}

} // verus!
