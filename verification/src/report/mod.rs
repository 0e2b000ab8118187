//! What the commands say: the lines of each report, and whether every file passed.

pub mod check;
pub mod convert;
pub mod files;
pub mod made;
pub mod repair;
pub mod said;
pub mod sample;
pub mod show;
pub mod tools;
pub mod torrent;
pub mod trackers;
