//! Fixing the sector boundaries of a set: what is said of a plan, and of what was done.

use crate::digest;
use crate::digest::hex_encode;
use crate::model::{AudioFile, AudioFormat};
use crate::path;
use crate::path::file_name_of;
use crate::repair::in_place::InPlace;
use crate::repair::members::Fixed;
use crate::repair::plan::{BoundaryFix, FixPlan, TailPolicy};
use crate::report::files::joined;
use crate::text;
use crate::text::{push_decimal, push_text};
use vstd::prelude::*;
use vstd::string::*;

verus! {

/// The extension a fixed file is written with: that of its set's own format.
pub fn repair_extension(format: AudioFormat) -> (s: &'static str)
    ensures
        s@ == if format is Wav {
            "wav"@
        } else {
            "flac"@
        },
{
    match format {
        AudioFormat::Wav => "wav",
        _ => "flac",
    }
}

/// What becomes of the last file.
pub fn tail_policy(pad_tail: bool) -> (t: TailPolicy)
    ensures
        t == if pad_tail {
            TailPolicy::Pad
        } else {
            TailPolicy::Report
        },
{
    if pad_tail {
        TailPolicy::Pad
    } else {
        TailPolicy::Report
    }
}

/// What is done about a plan.
#[derive(Debug, Clone, Copy, PartialEq, Eq, Structural)]
pub enum FixDecision {
    /// The plan alone was asked for.
    Show,
    InPlace,
    /// The fixed files go to another folder.
    Elsewhere,
}

/// What is done about a plan. There is no writing over the originals, so one of the two ways to
/// keep them has to be named.
pub fn fix_decision(dry_run: bool, in_place: bool, has_output: bool) -> (r: Result<
    FixDecision,
    String,
>)
    ensures
        match r {
            Ok(d) => (dry_run || in_place || has_output) && d == if dry_run {
                FixDecision::Show
            } else if in_place {
                FixDecision::InPlace
            } else {
                FixDecision::Elsewhere
            },
            Err(e) => !dry_run && !in_place && !has_output && e@
                == "sbe fix needs -o/--output or --in-place to execute — it never writes over the originals (Principle 1)"@,
        },
{
    if dry_run {
        Ok(FixDecision::Show)
    } else if in_place {
        Ok(FixDecision::InPlace)
    } else if has_output {
        Ok(FixDecision::Elsewhere)
    } else {
        Err(
            "sbe fix needs -o/--output or --in-place to execute — it never writes over the originals (Principle 1)".to_owned(),
        )
    }
}

pub open spec fn name_at(files: Seq<AudioFile>, i: int) -> Seq<char> {
    path::name_of(files[i].path@)
}

/// The line of one boundary.
pub open spec fn boundary_text(files: Seq<AudioFile>, b: BoundaryFix) -> Seq<char> {
    let x = name_at(files, b.index as int);
    let y = name_at(files, b.index + 1);
    let head = "  "@ + x + " → "@ + y;
    if b.shifted_frames == 0 {
        head + "   already aligned"@
    } else if b.shifted_frames > 0 {
        let n = text::decimal(b.shifted_frames as nat);
        head + "   shift "@ + n + " frames backward   ("@ + x + " was +"@ + n
            + " past a sector)"@
    } else {
        let n = text::decimal((-b.shifted_frames) as nat);
        head + "   shift "@ + n + " frames forward   ("@ + x + " borrows "@ + n
            + " frames from "@ + y + ")"@
    }
}

fn boundary_line(files: &[AudioFile], b: &BoundaryFix) -> (s: String)
    requires
        b.index + 1 < files@.len(),
    ensures
        s@ == boundary_text(files@, *b),
{
    let x = files[b.index].file_name();
    let y = files[b.index + 1].file_name();
    let mut s = joined("  ", &x);
    s.append(" → ");
    s.append(&y);
    if b.shifted_frames == 0 {
        s.append("   already aligned");
    } else if b.shifted_frames > 0 {
        s.append("   shift ");
        push_decimal(&mut s, b.shifted_frames as u64);
        s.append(" frames backward   (");
        s.append(&x);
        s.append(" was +");
        push_decimal(&mut s, b.shifted_frames as u64);
        s.append(" past a sector)");
    } else {
        let n: u64 = (-(b.shifted_frames as i128)) as u64;
        s.append("   shift ");
        push_decimal(&mut s, n);
        s.append(" frames forward   (");
        s.append(&x);
        s.append(" borrows ");
        push_decimal(&mut s, n);
        s.append(" frames from ");
        s.append(&y);
        s.append(")");
    }
    s
}

/// The line of the last file.
pub open spec fn tail_text(name: Seq<char>, plan: FixPlan) -> Seq<char> {
    match plan.tail_padding_frames {
        Some(pad) => "  "@ + name + "        last file, would be padded with "@ + text::decimal(
            pad as nat,
        ) + " frames of silence (not written — planning only)"@,
        None => if plan.fully_fixed {
            "  "@ + name + "        last file, already aligned"@
        } else {
            "  "@ + name
                + "        last file, still misaligned once every other boundary is fixed — rerun with --pad-tail to close it with silence"@
        },
    }
}

fn tail_line(name: &str, plan: &FixPlan) -> (s: String)
    ensures
        s@ == tail_text(name@, *plan),
{
    let mut s = joined("  ", name);
    match plan.tail_padding_frames {
        Some(pad) => {
            s.append("        last file, would be padded with ");
            push_decimal(&mut s, pad);
            s.append(" frames of silence (not written — planning only)");
        },
        None => {
            if plan.fully_fixed {
                s.append("        last file, already aligned");
            } else {
                s.append(
                    "        last file, still misaligned once every other boundary is fixed — rerun with --pad-tail to close it with silence",
                );
            }
        },
    }
    s
}

/// What a plan would come to.
pub open spec fn plan_ending(plan: FixPlan, pad_tail: bool) -> Seq<char> {
    if plan.fully_fixed {
        "plan only, nothing written — every file would end up aligned"@
    } else if pad_tail {
        "plan only, nothing written"@
    } else {
        "plan only, nothing written — pass --pad-tail to fully align the set"@
    }
}

/// The folder as it is called, or the whole path where it has no name.
pub open spec fn folder_name(dir: Seq<char>) -> Seq<char> {
    match path::file_name(dir) {
        Some(n) => n,
        None => dir,
    }
}

pub open spec fn boundary_texts(files: Seq<AudioFile>, boundaries: Seq<BoundaryFix>) -> Seq<
    Seq<char>,
> {
    boundaries.map_values(|b: BoundaryFix| boundary_text(files, b))
}

/// Whether a plan is one for these files.
pub open spec fn is_for(plan: FixPlan, files: Seq<AudioFile>) -> bool {
    &&& files.len() > 0
    &&& forall|i: int|
        0 <= i < plan.boundaries@.len() ==> (#[trigger] plan.boundaries@[i]).index + 1
            < files.len()
}

/// A plan, which is only shown.
pub fn fix_plan_lines(dir: &str, files: &[AudioFile], plan: &FixPlan, pad_tail: bool) -> (r: Vec<
    String,
>)
    requires
        is_for(*plan, files@),
    ensures
        text::views(r@) == seq![folder_name(dir@)] + boundary_texts(files@, plan.boundaries@)
            + seq![
            tail_text(name_at(files@, files@.len() - 1), *plan),
            plan_ending(*plan, pad_tail),
        ],
{
    let mut r: Vec<String> = Vec::new();
    let name = match file_name_of(dir) {
        Some(n) => n,
        None => dir.to_owned(),
    };
    push_text(&mut r, name);
    let ghost head = seq![folder_name(dir@)];
    let ghost all = boundary_texts(files@, plan.boundaries@);
    let mut i: usize = 0;
    assert(text::views(r@) =~= head + all.take(0));
    while i < plan.boundaries.len()
        invariant
            i <= plan.boundaries.len(),
            is_for(*plan, files@),
            all == boundary_texts(files@, plan.boundaries@),
            text::views(r@) == head + all.take(i as int),
        decreases plan.boundaries.len() - i,
    {
        assert(plan.boundaries@[i as int].index + 1 < files@.len());
        push_text(&mut r, boundary_line(files, &plan.boundaries[i]));
        assert(text::views(r@) =~= head + all.take(i + 1));
        i += 1;
    }
    assert(all.take(all.len() as int) =~= all);
    let ghost had = text::views(r@);
    push_text(&mut r, tail_line(&files[files.len() - 1].file_name(), plan));
    if plan.fully_fixed {
        push_text(
            &mut r,
            "plan only, nothing written — every file would end up aligned".to_owned(),
        );
    } else if pad_tail {
        push_text(&mut r, "plan only, nothing written".to_owned());
    } else {
        push_text(
            &mut r,
            "plan only, nothing written — pass --pad-tail to fully align the set".to_owned(),
        );
    }
    assert(text::views(r@) =~= had + seq![
        tail_text(name_at(files@, files@.len() - 1), *plan),
        plan_ending(*plan, pad_tail),
    ]);
    r
}

pub open spec fn fixed_text(f: AudioFile, fixed: Fixed) -> Seq<char> {
    "FIXED     "@ + path::name_of(f.path@) + " -> "@ + fixed.path@ + "   audio md5 "@
        + digest::hex_text(fixed.audio_md5@)
}

pub open spec fn shorter(a: nat, b: nat) -> nat {
    if a < b {
        a
    } else {
        b
    }
}

/// One line for each file that was written elsewhere.
pub fn fixed_lines(files: &[AudioFile], fixed: &[Fixed]) -> (r: Vec<String>)
    ensures
        text::views(r@) == Seq::new(
            shorter(files@.len(), fixed@.len()),
            |i: int| fixed_text(files@[i], fixed@[i]),
        ),
{
    let ghost all = Seq::new(
        shorter(files@.len(), fixed@.len()),
        |i: int| fixed_text(files@[i], fixed@[i]),
    );
    let mut r: Vec<String> = Vec::new();
    let mut i: usize = 0;
    assert(text::views(r@) =~= all.take(0));
    while i < files.len() && i < fixed.len()
        invariant
            i <= files.len(),
            i <= fixed.len(),
            all == Seq::new(
                shorter(files@.len(), fixed@.len()),
                |k: int| fixed_text(files@[k], fixed@[k]),
            ),
            text::views(r@) == all.take(i as int),
        decreases files.len() - i,
    {
        let mut l = joined("FIXED     ", &files[i].file_name());
        l.append(" -> ");
        l.append(&fixed[i].path);
        l.append("   audio md5 ");
        l.append(&hex_encode(&fixed[i].audio_md5));
        push_text(&mut r, l);
        assert(text::views(r@) =~= all.take(i + 1));
        i += 1;
    }
    assert(all.take(all.len() as int) =~= all);
    r
}

pub open spec fn in_place_text(f: AudioFile, done: InPlace) -> Seq<char> {
    match done {
        InPlace::Replaced { fixed, original } => "FIXED     "@ + path::name_of(f.path@)
            + "   original moved to "@ + original@ + "   audio md5 "@ + digest::hex_text(
            fixed.audio_md5@,
        ),
        InPlace::Unchanged { .. } => "UNCHANGED "@ + path::name_of(f.path@),
    }
}

fn in_place_line(f: &AudioFile, done: &InPlace) -> (s: String)
    ensures
        s@ == in_place_text(*f, *done),
{
    match done {
        InPlace::Replaced { fixed, original } => {
            let mut l = joined("FIXED     ", &f.file_name());
            l.append("   original moved to ");
            l.append(original);
            l.append("   audio md5 ");
            l.append(&hex_encode(&fixed.audio_md5));
            l
        },
        InPlace::Unchanged { .. } => joined("UNCHANGED ", &f.file_name()),
    }
}

/// One line for each file of a set that was fixed in place.
pub fn in_place_lines(files: &[AudioFile], done: &[InPlace]) -> (r: Vec<String>)
    ensures
        text::views(r@) == Seq::new(
            shorter(files@.len(), done@.len()),
            |i: int| in_place_text(files@[i], done@[i]),
        ),
{
    let ghost all = Seq::new(
        shorter(files@.len(), done@.len()),
        |i: int| in_place_text(files@[i], done@[i]),
    );
    let mut r: Vec<String> = Vec::new();
    let mut i: usize = 0;
    assert(text::views(r@) =~= all.take(0));
    while i < files.len() && i < done.len()
        invariant
            i <= files.len(),
            i <= done.len(),
            all == Seq::new(
                shorter(files@.len(), done@.len()),
                |k: int| in_place_text(files@[k], done@[k]),
            ),
            text::views(r@) == all.take(i as int),
        decreases files.len() - i,
    {
        push_text(&mut r, in_place_line(&files[i], &done[i]));
        assert(text::views(r@) =~= all.take(i + 1));
        i += 1;
    }
    assert(all.take(all.len() as int) =~= all);
    r
}

/// What is said of a last file that no boundary could fix.
pub fn tail_note(files: &[AudioFile], plan: &FixPlan) -> (r: Option<String>)
    requires
        files@.len() > 0,
    ensures
        match r {
            Some(s) => !plan.fully_fixed && s@ == name_at(files@, files@.len() - 1)
                + "   still misaligned — rerun with --pad-tail to close it with silence"@,
            None => plan.fully_fixed,
        },
{
    if plan.fully_fixed {
        return None;
    }
    Some(
        joined(
            &files[files.len() - 1].file_name(),
            "   still misaligned — rerun with --pad-tail to close it with silence",
        ),
    )
}

} // verus!
