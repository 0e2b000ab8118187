//! Short MP3 clips of a track, for a show's listing.
//!
//! The clip is cut here: a FLAC is decoded up to the end of the clip, or a WAV's range is
//! read. The MP3 itself comes from a reference encoder, recorded in the provenance like every
//! other run of a tool.
//!
//! Sites cap a sample's size, so the size is part of the contract. For a constant bitrate it
//! is known before encoding, and a clip that cannot fit is refused up front. For a variable
//! one it is only estimated, so the encoded file is measured and discarded if it is over.

pub mod clips;
pub mod cut;
pub mod doubling;
pub mod encode;
pub mod exponent;
pub mod mode;
pub mod number;
pub mod seconds;
pub mod spelled;

pub use encode::{
    check_request, clip_frames, cut_excerpt, default_output, encoder_argv, find_encoder,
    finish_sample, Request, Sample,
};
pub use mode::{
    clip_for, estimate_bytes, format_size, format_time, longest_fitting, parse_size, parse_time,
    Clip, Mode, DEFAULT_MAX_BYTES, DEFAULT_MAX_SECS,
};
