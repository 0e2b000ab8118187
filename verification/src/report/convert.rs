//! Converting files: what a request comes to, and what is said of each file.

use crate::convert::{Conversion, ORIGINALS_DIR};
use crate::error::Error;
use crate::model::{AudioFile, AudioFormat};
use crate::path;
use crate::path::file_name_of;
use crate::report::files::joined;
use crate::text;
use crate::text::{decimal_string, lines_of, push_decimal, push_text, push_texts};
use vstd::prelude::*;
use vstd::string::*;

verus! {

/// What to produce.
#[derive(Debug, Clone, Copy, PartialEq, Eq, Structural)]
pub enum Target {
    Wav,
    Flac,
}

impl Target {
    pub open spec fn format_of(self) -> AudioFormat {
        match self {
            Target::Wav => AudioFormat::Wav,
            Target::Flac => AudioFormat::Flac,
        }
    }

    pub fn audio_format(self) -> (f: AudioFormat)
        ensures
            f == self.format_of(),
    {
        match self {
            Target::Wav => AudioFormat::Wav,
            Target::Flac => AudioFormat::Flac,
        }
    }

    pub fn extension(self) -> (s: &'static str)
        ensures
            s@ == match self {
                Target::Wav => "wav"@,
                Target::Flac => "flac"@,
            },
    {
        match self {
            Target::Wav => "wav",
            Target::Flac => "flac",
        }
    }
}

/// A FLAC source is the archival copy and stays put, so sources are moved only when FLACs are
/// made of them.
pub fn check_convert(move_sources: bool, to: Target) -> (r: Result<(), String>)
    ensures
        match r {
            Ok(_) => move_sources ==> to is Flac,
            Err(e) => move_sources && !(to is Flac) && e@
                == "--move-sources only applies to --to flac"@,
        },
{
    if move_sources && to != Target::Flac {
        Err("--move-sources only applies to --to flac".to_owned())
    } else {
        Ok(())
    }
}

/// What became of one file's conversion, and of its source when it was to be set aside.
#[derive(Debug)]
pub enum ConvertOutcome {
    /// It has the format already.
    Skipped,
    NoFileName,
    Done(Box<Conversion>, Option<Result<String, Error>>),
    Failed(Error),
}

pub open spec fn output_name(p: Seq<char>) -> Seq<char> {
    match path::file_name(p) {
        Some(n) => n,
        None => p,
    }
}

/// Lines under a file's own.
pub open spec fn indented(lines: Seq<Seq<char>>) -> Seq<Seq<char>> {
    lines.map_values(|l: Seq<char>| "          "@ + l)
}

/// What is said of a conversion. One that could not be checked against its source is a weaker
/// result, and says so rather than looking the same.
pub open spec fn conversion_texts(done: Conversion, provenance: bool) -> Seq<Seq<char>> {
    let head = seq![
        "WROTE     "@ + output_name(done.output@) + (if done.checked_against_source {
            ""@
        } else {
            "  (unchecked: nothing in the source to compare against)"@
        }),
    ];
    if provenance {
        head + indented(text::lines(done.provenance.text()))
    } else {
        head
    }
}

fn indent(lines: &Vec<String>) -> (r: Vec<String>)
    ensures
        text::views(r@) == indented(text::views(lines@)),
{
    let ghost all = indented(text::views(lines@));
    let mut r: Vec<String> = Vec::new();
    let mut i: usize = 0;
    assert(text::views(r@) =~= all.take(0));
    while i < lines.len()
        invariant
            i <= lines.len(),
            all == indented(text::views(lines@)),
            text::views(r@) == all.take(i as int),
        decreases lines.len() - i,
    {
        push_text(&mut r, joined("          ", &lines[i]));
        assert(text::views(lines@)[i as int] == lines@[i as int]@);
        assert(text::views(r@) =~= all.take(i + 1));
        i += 1;
    }
    assert(all.take(all.len() as int) =~= all);
    r
}

fn conversion_lines(done: &Conversion, provenance: bool) -> (r: Vec<String>)
    ensures
        text::views(r@) == conversion_texts(*done, provenance),
{
    let name = match file_name_of(&done.output) {
        Some(n) => n,
        None => done.output.clone(),
    };
    let mut l = joined("WROTE     ", &name);
    if done.checked_against_source {
        l.append("");
    } else {
        l.append("  (unchecked: nothing in the source to compare against)");
    }
    let ghost line = l@;
    let mut r: Vec<String> = Vec::new();
    push_text(&mut r, l);
    assert(text::views(r@) =~= seq![line]);
    if provenance {
        push_texts(&mut r, indent(&lines_of(&done.provenance.render())));
    }
    r
}

pub open spec fn convert_texts(
    f: AudioFile,
    to: Target,
    outcome: Option<ConvertOutcome>,
    provenance: bool,
) -> Seq<Seq<char>> {
    let name = path::name_of(f.path@);
    match outcome {
        Some(ConvertOutcome::Skipped) => seq![
            "SKIPPED   "@ + name + " (already "@ + to.format_of().name_text() + ")"@,
        ],
        Some(ConvertOutcome::NoFileName) => seq![
            "FAILED    "@ + f.path@ + " (has no file name to work from)"@,
        ],
        Some(ConvertOutcome::Done(done, moved)) => conversion_texts(*done, provenance) + (
        match moved {
            Some(Ok(_)) => seq!["MOVED     "@ + name + " -> "@ + ORIGINALS_DIR@ + "/"@],
            Some(Err(e)) => seq!["KEPT      "@ + name + ": "@ + e.text()],
            None => Seq::empty(),
        }),
        Some(ConvertOutcome::Failed(e)) => seq!["FAILED    "@ + name + ": "@ + e.text()],
        None => seq!["CANCELLED "@ + name],
    }
}

/// Whether a file came out as it was asked for. One whose source had to stay did not: the
/// FLAC stands, but the folder still holds what was to be moved.
pub open spec fn came_out(outcome: Option<ConvertOutcome>) -> bool {
    match outcome {
        Some(ConvertOutcome::Skipped) => true,
        Some(ConvertOutcome::Done(_, moved)) => !(moved matches Some(Err(_))),
        _ => false,
    }
}

fn failure(label: &str, name: &str, e: &Error) -> (s: String)
    ensures
        s@ == label@ + name@ + ": "@ + e.text(),
{
    let mut l = joined(label, name);
    l.append(": ");
    l.append(&e.to_string());
    l
}

/// What is said of one file, whether it came out, and whether anything was written.
pub fn convert_lines(
    f: &AudioFile,
    to: Target,
    outcome: &Option<ConvertOutcome>,
    provenance: bool,
) -> (r: (Vec<String>, bool, bool))
    ensures
        text::views(r.0@) == convert_texts(*f, to, *outcome, provenance),
        r.1 == came_out(*outcome),
        r.2 == (outcome matches Some(o) && o is Done),
{
    let name = f.file_name();
    let mut l: Vec<String> = Vec::new();
    let mut ok = false;
    let mut written = false;
    assert(text::views(l@) =~= Seq::<Seq<char>>::empty());
    match outcome {
        Some(ConvertOutcome::Skipped) => {
            let mut s = joined("SKIPPED   ", &name);
            s.append(" (already ");
            s.append(to.audio_format().name());
            s.append(")");
            push_text(&mut l, s);
            ok = true;
        },
        Some(ConvertOutcome::NoFileName) => {
            let mut s = joined("FAILED    ", &f.path);
            s.append(" (has no file name to work from)");
            push_text(&mut l, s);
        },
        Some(ConvertOutcome::Done(done, moved)) => {
            l = conversion_lines(done, provenance);
            written = true;
            ok = true;
            match moved {
                Some(Ok(_)) => {
                    let mut s = joined("MOVED     ", &name);
                    s.append(" -> ");
                    s.append(ORIGINALS_DIR);
                    s.append("/");
                    push_text(&mut l, s);
                },
                Some(Err(e)) => {
                    ok = false;
                    push_text(&mut l, failure("KEPT      ", &name, e));
                },
                None => {},
            }
        },
        Some(ConvertOutcome::Failed(e)) => {
            push_text(&mut l, failure("FAILED    ", &name, e));
        },
        None => {
            push_text(&mut l, joined("CANCELLED ", &name));
        },
    }
    assert(text::views(l@) =~= convert_texts(*f, to, *outcome, provenance));
    (l, ok, written)
}

/// `3 of 5 files converted`.
pub fn converted_line(written: usize, files: usize) -> (s: String)
    ensures
        s@ == text::decimal(written as nat) + " of "@ + text::decimal(files as nat)
            + " files converted"@,
{
    let mut s = decimal_string(written as u64);
    s.append(" of ");
    push_decimal(&mut s, files as u64);
    s.append(" files converted");
    s
}

} // verus!
