//! Torrents: checking a local fileset against one without a BitTorrent client, and making
//! one.
//!
//! One fact dictates the shape of this module: pieces do not align with files. Everything is
//! laid end to end in a single stream before it is cut into pieces, so that the status of a
//! file is derived rather than measured.

pub mod bencode;
pub mod create;
pub mod encode;
pub mod folder;
pub mod judged;
pub mod layout;
pub mod listed;
pub mod metainfo;
pub mod noise;
pub mod report;
pub mod round_trip;
pub mod stream;
pub mod trackers;
pub mod values;
pub mod verify;
pub mod wire;

pub use create::{create, default_output, CreateOpts, Created, Skipped};
pub use encode::{encode, info_bytes, Content, Draft, Encoded};
pub use layout::{check_sizes, join_checked, resolve_root};
pub use metainfo::{Metainfo, TorrentFile};
pub use report::{FileOutcome, FileStatus, PieceCounts, TorrentReport, Verdict};
pub use trackers::{
    resolve, Chosen, Health, Origin, Passkeys, Resolved, Tracker, TrackerList,
};
pub use verify::check;
