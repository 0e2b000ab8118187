//! Core engine for Little Helper: checksums, sector-boundary analysis and repair, etree
//! naming and tagging, and torrents for traded live music.
//!
//! Everything here computes on values; reading and writing files, running tools and talking
//! to the user is left to the program around it.

pub mod analysis;
pub mod bytes;
pub mod checksum;
pub mod config;
pub mod convert;
pub mod digest;
pub mod display;
pub mod error;
pub mod etree;
pub mod folders;
pub mod format;
pub mod infofile;
pub mod job;
pub mod model;
pub mod names;
pub mod output;
pub mod path;
pub mod rename;
pub mod repair;
pub mod report;
pub mod sample;
pub mod scan;
pub mod seqs;
pub mod tag;
pub mod text;
pub mod tools;
pub mod torrent;
