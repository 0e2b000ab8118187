//! Cutting a sample: reading what was asked for, and what is said of the result.

use crate::report::files::joined;
use crate::sample::encode::Sample;
use crate::sample::mode;
use crate::sample::mode::{format_size, format_time, Mode};
use crate::text;
use crate::text::debug_of;
use vstd::prelude::*;
use vstd::string::*;

verus! {

/// The number that stands for one, as far as it can be held.
pub open spec fn capped(n: nat) -> nat {
    if n < u64::MAX {
        n
    } else {
        u64::MAX as nat
    }
}

fn refused(s: &str, why: &str) -> (e: String)
    ensures
        e@ == text::debug_text(s@) + why@,
{
    joined(&debug_of(s), why)
}

/// A time as it is written on the command line.
pub fn time_arg(s: &str) -> (r: Result<u64, String>)
    ensures
        match r {
            Ok(t) => mode::time_of(s@) matches Some(n) && t as nat == capped(n),
            Err(e) => mode::time_of(s@) is None && e@ == text::debug_text(s@)
                + " is not a time like 90 or 1:30"@,
        },
{
    match mode::parse_time(s) {
        Some(t) => Ok(t),
        None => Err(refused(s, " is not a time like 90 or 1:30")),
    }
}

/// A mode as it is written on the command line.
pub fn mode_arg(s: &str) -> (r: Result<Mode, String>)
    ensures
        match r {
            Ok(m) => mode::mode_of(s@) == Some(m),
            Err(e) => mode::mode_of(s@) is None && e@ == text::debug_text(s@)
                + " is not a mode; try 320, 256, 192, 160, 128, v0 or v2"@,
        },
{
    match Mode::parse(s) {
        Some(m) => Ok(m),
        None => Err(refused(s, " is not a mode; try 320, 256, 192, 160, 128, v0 or v2")),
    }
}

/// A size as it is written on the command line.
pub fn size_arg(s: &str) -> (r: Result<u64, String>)
    ensures
        match r {
            Ok(t) => mode::size_of(s@) matches Some(n) && t as nat == capped(n),
            Err(e) => mode::size_of(s@) is None && e@ == text::debug_text(s@)
                + " is not a size like 1M or 900K"@,
        },
{
    match mode::parse_size(s) {
        Some(t) => Ok(t),
        None => Err(refused(s, " is not a size like 1M or 900K")),
    }
}

/// What is said when a folder is given in place of a track.
pub fn folder_refusal(path: &str) -> (s: String)
    ensures
        s@ == path@
            + " is a folder; give one track (lh-tui sample takes a folder and lets you pick)"@,
{
    joined(path, " is a folder; give one track (lh-tui sample takes a folder and lets you pick)")
}

/// What is said of a sample that was written.
pub fn sample_line(done: &Sample, mode: Mode, max_size: u64) -> (s: String)
    ensures
        s@ == "wrote "@ + done.output@ + " ("@ + mode::size_text(done.bytes as nat) + ", "@
            + mode::time_text(done.clip.start as nat) + " to "@ + mode::time_text(
            (done.clip.start + done.clip.length) as nat,
        ) + ", "@ + mode.label_text() + "; limit "@ + mode::size_text(max_size as nat) + ")"@,
{
    let mut s = joined("wrote ", &done.output);
    s.append(" (");
    s.append(&format_size(done.bytes));
    s.append(", ");
    s.append(&format_time(done.clip.start as u128));
    s.append(" to ");
    s.append(&format_time(done.clip.end()));
    s.append(", ");
    s.append(&mode.label());
    s.append("; limit ");
    s.append(&format_size(max_size));
    s.append(")");
    s
}

} // verus!
