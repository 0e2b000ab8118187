//! What the lines of the reports tell apart.

use super::check;
use super::convert::ConvertOutcome;
use super::files;
use super::made;
use super::repair;
use super::show;
use super::torrent;
use super::trackers;
use crate::analysis::sbe::Sbe;
use crate::analysis::verify::Verification;
use crate::checksum::EntryOutcome;
use crate::digest;
use crate::error::Error;
use crate::model::AudioFile;
use crate::path;
use crate::rename::execute;
use crate::rename::plan::{RenameEntry, RenamePlan, RenameStatus};
use crate::repair::plan::BoundaryFix;
use crate::text;
use crate::torrent::report;
use crate::torrent::report::{FileOutcome, FileStatus, TorrentReport};
use crate::torrent::trackers::Entry;
use vstd::prelude::*;

verus! {

/// Whether a line is about a file: a label in ten columns, and its name.
pub open spec fn is_about(line: Seq<char>, label: Seq<char>, name: Seq<char>) -> bool {
    &&& line.len() >= 10 + name.len()
    &&& line.take(10) == text::left(label, 10)
    &&& line.subrange(10, 10 + name.len() as int) == name
}

/// Whether a text is at the end of a line.
pub open spec fn ends_in(line: Seq<char>, s: Seq<char>) -> bool {
    line.len() >= s.len() && line.skip(line.len() - s.len()) == s
}

proof fn lemma_about(label: Seq<char>, column: Seq<char>, name: Seq<char>, rest: Seq<char>)
    requires
        column == text::left(label, 10),
        column.len() == 10,
    ensures
        is_about(column + name + rest, label, name),
        is_about(column + name, label, name),
{
    let line = column + name + rest;
    assert(line.take(10) =~= column);
    assert(line.subrange(10, 10 + name.len() as int) =~= name);
    let short = column + name;
    assert(short.take(10) =~= column);
    assert(short.subrange(10, 10 + name.len() as int) =~= name);
}

proof fn lemma_ends(a: Seq<char>, s: Seq<char>)
    ensures
        ends_in(a + s, s),
{
    assert((a + s).skip(a.len() as int) =~= s);
}

/// A file is reported as verified only where it is, and otherwise by what stood in the way; of
/// two digests that differ both are shown, the stored one first.
pub proof fn law_verification_is_reported(name: Seq<char>, r: Option<Result<Verification, Error>>)
    ensures
        ({
            let lines = files::verify_text(name, r);
            match r {
                Some(Ok(Verification::Verified)) => lines.len() == 1 && is_about(
                    lines[0],
                    "OK"@,
                    name,
                ),
                Some(Ok(Verification::Md5Mismatch { stored, computed })) => lines.len() == 3
                    && is_about(lines[0], "MISMATCH"@, name) && ends_in(
                    lines[1],
                    digest::hex_text(stored@),
                ) && ends_in(lines[2], digest::hex_text(computed@)),
                Some(Ok(Verification::NoStoredMd5 { .. })) => lines.len() == 1 && is_about(
                    lines[0],
                    "NO MD5"@,
                    name,
                ),
                Some(Err(e)) => lines.len() == 1 && is_about(lines[0], "FAILED"@, name)
                    && ends_in(lines[0], e.text()),
                None => lines.len() == 1 && is_about(lines[0], "CANCELLED"@, name),
            }
        }),
{
    lemma_columns();
    lemma_about("OK"@, "OK        "@, name, ""@);
    lemma_about("MISMATCH"@, "MISMATCH  "@, name, ""@);
    lemma_about("NO MD5"@, "NO MD5    "@, name, " (decoded cleanly, nothing to compare)"@);
    lemma_about("CANCELLED"@, "CANCELLED "@, name, ""@);
    match r {
        Some(Err(e)) => {
            lemma_about("FAILED"@, "FAILED    "@, name, ": "@ + e.text());
            assert("FAILED    "@ + name + ": "@ + e.text() =~= "FAILED    "@ + name + (": "@
                + e.text()));
            lemma_ends("FAILED    "@ + name + ": "@, e.text());
        },
        Some(Ok(Verification::Md5Mismatch { stored, computed })) => {
            lemma_ends("            stored   "@, digest::hex_text(stored@));
            lemma_ends("            computed "@, digest::hex_text(computed@));
        },
        _ => {},
    }
}

proof fn lemma_columns()
    ensures
        text::left("OK"@, 10) == "OK        "@,
        text::left("MISMATCH"@, 10) == "MISMATCH  "@,
        text::left("NO MD5"@, 10) == "NO MD5    "@,
        text::left("FAILED"@, 10) == "FAILED    "@,
        text::left("CANCELLED"@, 10) == "CANCELLED "@,
        text::left("MISSING"@, 10) == "MISSING   "@,
        text::left("ALIGNED"@, 10) == "ALIGNED   "@,
        text::left("SBE"@, 10) == "SBE       "@,
        text::left("N/A"@, 10) == "N/A       "@,
        "OK        "@.len() == 10,
        "MISMATCH  "@.len() == 10,
        "NO MD5    "@.len() == 10,
        "FAILED    "@.len() == 10,
        "CANCELLED "@.len() == 10,
        "MISSING   "@.len() == 10,
        "ALIGNED   "@.len() == 10,
        "SBE       "@.len() == 10,
        "N/A       "@.len() == 10,
{
    reveal_strlit("OK");
    reveal_strlit("OK        ");
    reveal_strlit("MISMATCH");
    reveal_strlit("MISMATCH  ");
    reveal_strlit("NO MD5");
    reveal_strlit("NO MD5    ");
    reveal_strlit("FAILED");
    reveal_strlit("FAILED    ");
    reveal_strlit("CANCELLED");
    reveal_strlit("CANCELLED ");
    reveal_strlit("MISSING");
    reveal_strlit("MISSING   ");
    reveal_strlit("ALIGNED");
    reveal_strlit("ALIGNED   ");
    reveal_strlit("SBE");
    reveal_strlit("SBE       ");
    reveal_strlit("N/A");
    reveal_strlit("N/A       ");
    assert(text::left("OK"@, 10) =~= "OK        "@);
    assert(text::left("MISMATCH"@, 10) =~= "MISMATCH  "@);
    assert(text::left("NO MD5"@, 10) =~= "NO MD5    "@);
    assert(text::left("FAILED"@, 10) =~= "FAILED    "@);
    assert(text::left("CANCELLED"@, 10) =~= "CANCELLED "@);
    assert(text::left("MISSING"@, 10) =~= "MISSING   "@);
    assert(text::left("ALIGNED"@, 10) =~= "ALIGNED   "@);
    assert(text::left("SBE"@, 10) =~= "SBE       "@);
    assert(text::left("N/A"@, 10) =~= "N/A       "@);
}

/// A checksum is reported as matching only where it does; of two that differ the expected one
/// is shown first.
pub proof fn law_checksum_is_reported(name: Seq<char>, o: EntryOutcome)
    ensures
        ({
            let lines = files::entry_text(name, o);
            match o {
                EntryOutcome::Matched => lines.len() == 1 && is_about(lines[0], "OK"@, name),
                EntryOutcome::Missing => lines.len() == 1 && is_about(lines[0], "MISSING"@, name),
                EntryOutcome::Mismatch { expected, actual } => lines.len() == 3 && is_about(
                    lines[0],
                    "MISMATCH"@,
                    name,
                ) && ends_in(lines[1], digest::hex_text(expected@)) && ends_in(
                    lines[2],
                    digest::hex_text(actual@),
                ),
                EntryOutcome::Failed(e) => lines.len() == 1 && is_about(lines[0], "FAILED"@, name)
                    && ends_in(lines[0], e.text()),
            }
        }),
{
    lemma_columns();
    lemma_about("OK"@, "OK        "@, name, ""@);
    lemma_about("MISMATCH"@, "MISMATCH  "@, name, ""@);
    lemma_about("MISSING"@, "MISSING   "@, name, ""@);
    match o {
        EntryOutcome::Failed(e) => {
            lemma_about("FAILED"@, "FAILED    "@, name, ": "@ + e.text());
            assert("FAILED    "@ + name + ": "@ + e.text() =~= "FAILED    "@ + name + (": "@
                + e.text()));
            lemma_ends("FAILED    "@ + name + ": "@, e.text());
        },
        EntryOutcome::Mismatch { expected, actual } => {
            lemma_ends("            expected "@, digest::hex_text(expected@));
            lemma_ends("            actual   "@, digest::hex_text(actual@));
        },
        _ => {},
    }
}

/// A file is reported as aligned only where it is, and one that is not by how far it is off.
pub proof fn law_alignment_is_reported(name: Seq<char>, s: Option<Sbe>)
    ensures
        match s {
            Some(Sbe::Aligned) => is_about(files::sbe_text(name, s), "ALIGNED"@, name),
            Some(Sbe::Misaligned { remainder_frames }) => is_about(
                files::sbe_text(name, s),
                "SBE"@,
                name,
            ) && ends_in(
                files::sbe_text(name, s),
                " (+"@ + text::decimal(remainder_frames as nat) + " frames)"@,
            ),
            Some(Sbe::NotApplicable { reason }) => is_about(
                files::sbe_text(name, s),
                "N/A"@,
                name,
            ) && ends_in(files::sbe_text(name, s), " ("@ + reason@ + ")"@),
            None => is_about(files::sbe_text(name, s), "CANCELLED"@, name),
        },
{
    lemma_columns();
    lemma_about("ALIGNED"@, "ALIGNED   "@, name, ""@);
    lemma_about("CANCELLED"@, "CANCELLED "@, name, ""@);
    match s {
        Some(Sbe::Misaligned { remainder_frames }) => {
            let n = text::decimal(remainder_frames as nat);
            let rest = " (+"@ + n + " frames)"@;
            lemma_about("SBE"@, "SBE       "@, name, rest);
            lemma_ends("SBE       "@ + name, rest);
            assert(files::sbe_text(name, s) =~= "SBE       "@ + name + rest);
        },
        Some(Sbe::NotApplicable { reason }) => {
            let rest = " ("@ + reason@ + ")"@;
            lemma_about("N/A"@, "N/A       "@, name, rest);
            lemma_ends("N/A       "@ + name, rest);
            assert(files::sbe_text(name, s) =~= "N/A       "@ + name + rest);
        },
        _ => {},
    }
}

/// A conversion came out where there was nothing to do, or where it was done and its source,
/// if it was to be moved, was.
pub proof fn law_only_what_was_done_came_out(outcome: Option<ConvertOutcome>)
    ensures
        super::convert::came_out(outcome) ==> outcome is Some && (outcome->0 is Skipped
            || outcome->0 is Done),
        outcome is Some && outcome->0 is Skipped ==> super::convert::came_out(outcome),
        outcome matches Some(ConvertOutcome::Done(_, moved)) ==> (super::convert::came_out(outcome)
            == (moved is None || moved->0 is Ok)),
{
}

/// A torrent is reported as sound only where no file failed, and as verified only where its
/// contents were read; where files failed, it is said how many of how many.
pub proof fn law_verdict_counts_what_failed(r: TorrentReport, total: nat)
    ensures
        ({
            let said = check::verdict_text(r, total);
            let n = report::failed_of(r.files@).len();
            &&& n <= r.files@.len()
            &&& n > 0 ==> exists|rest: Seq<char>|
                said == #[trigger] (text::decimal(n) + " of "@ + text::decimal(total) + rest)
            &&& n == 0 && r.quick ==> said == "all "@ + text::decimal(total)
                + " files match by size (contents not read)"@
            &&& n == 0 && !r.quick ==> said == "all "@ + text::decimal(total)
                + " files verified"@
        }),
{
    lemma_failed(r.files@);
    let n = report::failed_of(r.files@).len();
    if n > 0 {
        let rest = if n == 1 {
            " file needs attention"@
        } else {
            " files need attention"@
        };
        assert(check::verdict_text(r, total) == text::decimal(n) + " of "@ + text::decimal(total)
            + rest);
    }
}

proof fn lemma_failed(outcomes: Seq<FileOutcome>)
    ensures
        report::failed_of(outcomes).len() <= outcomes.len(),
        report::failed_of(outcomes).len() > 0 <==> exists|i: int|
            0 <= i < outcomes.len() && (#[trigger] outcomes[i]).status.failed(),
    decreases outcomes.len(),
{
    if outcomes.len() > 0 {
        let front = outcomes.drop_last();
        lemma_failed(front);
        let n = outcomes.len() - 1;
        if outcomes.last().status.failed() {
            assert(outcomes[n].status.failed());
        }
        if exists|i: int| 0 <= i < front.len() && (#[trigger] front[i]).status.failed() {
            let i = choose|i: int| 0 <= i < front.len() && (#[trigger] front[i]).status.failed();
            assert(outcomes[i].status.failed());
        }
        if exists|i: int| 0 <= i < outcomes.len() && (#[trigger] outcomes[i]).status.failed() {
            let i = choose|i: int|
                0 <= i < outcomes.len() && (#[trigger] outcomes[i]).status.failed();
            assert(i < n ==> front[i].status.failed());
        }
    }
}

/// A file has failed where it is missing, has the wrong size, cannot be read or is bad in any
/// piece, for certain or not; one that is sound, whose size is right or that is padding has
/// not, and neither has one of which only what it shares with a bad one could not be read.
pub proof fn law_failures_are_told(s: FileStatus)
    ensures
        s is Missing || s is WrongSize || s is Unreadable || s is Corrupt || s is Suspect
            ==> s.failed(),
        s is SizeOk || s is Complete || s is Padding || s is Partial ==> !s.failed(),
{
}

/// A boundary is shown with the two files that meet there, how many frames cross it, and which
/// way.
pub proof fn law_boundary_is_shown(files: Seq<AudioFile>, b: BoundaryFix)
    ensures
        ({
            let line = repair::boundary_text(files, b);
            let x = path::name_of(files[b.index as int].path@);
            let y = path::name_of(files[b.index + 1].path@);
            let head = "  "@ + x + " → "@ + y;
            &&& b.shifted_frames == 0 ==> line == head + "   already aligned"@
            &&& b.shifted_frames > 0 ==> exists|rest: Seq<char>|
                line == #[trigger] (head + "   shift "@ + text::decimal(b.shifted_frames as nat)
                    + " frames backward"@ + rest)
            &&& b.shifted_frames < 0 ==> exists|rest: Seq<char>|
                line == #[trigger] (head + "   shift "@ + text::decimal(
                    (-b.shifted_frames) as nat,
                ) + " frames forward"@ + rest)
        }),
{
    let line = repair::boundary_text(files, b);
    let x = path::name_of(files[b.index as int].path@);
    let y = path::name_of(files[b.index + 1].path@);
    let head = "  "@ + x + " → "@ + y;
    reveal_strlit(" frames backward   (");
    reveal_strlit(" frames backward");
    reveal_strlit(" frames forward   (");
    reveal_strlit(" frames forward");
    reveal_strlit("   (");
    assert(" frames backward   ("@ =~= " frames backward"@ + "   ("@);
    assert(" frames forward   ("@ =~= " frames forward"@ + "   ("@);
    if b.shifted_frames > 0 {
        let n = text::decimal(b.shifted_frames as nat);
        let rest = "   ("@ + x + " was +"@ + n + " past a sector)"@;
        assert(line =~= head + "   shift "@ + n + " frames backward"@ + rest);
    }
    if b.shifted_frames < 0 {
        let n = text::decimal((-b.shifted_frames) as nat);
        let rest = "   ("@ + x + " borrows "@ + n + " frames from "@ + y + ")"@;
        assert(line =~= head + "   shift "@ + n + " frames forward"@ + rest);
    }
}

/// A plan to rename is carried out only where that was confirmed, something changes and no two
/// files would get the same name; a collision is refused whatever was confirmed.
pub proof fn law_renaming_needs_a_word(plan: RenamePlan, yes: bool)
    ensures
        show::rename_decision(plan, yes) is Rename <==> yes && !plan.collides() && exists|i: int|
            0 <= i < plan.entries@.len() && (#[trigger] plan.entries@[i]).status is Changed,
        plan.collides() <==> show::rename_decision(plan, yes) is Refuse,
        plan.collides() <==> exists|i: int|
            0 <= i < plan.entries@.len() && (#[trigger] plan.entries@[i]).status is Collision,
{
    lemma_changed(plan.entries@);
    if plan.collides() {
        let i = choose|i: int|
            0 <= i < plan.entries@.len() && (#[trigger] plan.entries@[i]).status
                == RenameStatus::Collision;
        assert(plan.entries@[i].status is Collision);
    }
    if exists|i: int| 0 <= i < plan.entries@.len() && (#[trigger] plan.entries@[i]).status
        is Collision {
        let i = choose|i: int|
            0 <= i < plan.entries@.len() && (#[trigger] plan.entries@[i]).status is Collision;
        assert(plan.entries@[i].status == RenameStatus::Collision);
    }
}

proof fn lemma_changed(entries: Seq<RenameEntry>)
    ensures
        execute::changed(entries).len() > 0 <==> exists|i: int|
            0 <= i < entries.len() && (#[trigger] entries[i]).status is Changed,
    decreases entries.len(),
{
    if entries.len() > 0 {
        let front = entries.drop_last();
        lemma_changed(front);
        let n = entries.len() - 1;
        if entries.last().status is Changed {
            assert(entries[n].status is Changed);
        }
        if exists|i: int| 0 <= i < front.len() && (#[trigger] front[i]).status is Changed {
            let i = choose|i: int| 0 <= i < front.len() && (#[trigger] front[i]).status is Changed;
            assert(entries[i].status is Changed);
        }
        if exists|i: int| 0 <= i < entries.len() && (#[trigger] entries[i]).status is Changed {
            let i = choose|i: int|
                0 <= i < entries.len() && (#[trigger] entries[i]).status is Changed;
            assert(i < n ==> front[i].status is Changed);
        }
    }
}

/// A torrent's files and its padding are counted apart, and no padding is spoken of where there
/// is none.
pub proof fn law_padding_is_counted_apart(kept: nat, padding: nat)
    ensures
        padding == 0 ==> ends_in(
            torrent::files_text(kept as int, kept as int),
            text::decimal(kept),
        ),
        padding > 0 ==> ends_in(
            torrent::files_text(kept as int, (kept + padding) as int),
            text::decimal(kept) + " ("@ + text::decimal(padding) + " padding)"@,
        ),
{
    let head = "  files        "@;
    lemma_ends(head, text::decimal(kept));
    let rest = text::decimal(kept) + " ("@ + text::decimal(padding) + " padding)"@;
    lemma_ends(head, rest);
    if padding > 0 {
        assert(torrent::files_text(kept as int, (kept + padding) as int) =~= head + rest);
    }
}

/// Of the trackers that answered, those that want a personal URL cannot be used; of the others
/// every one can, and no other can be counted.
pub proof fn law_answers_are_counted(list: Seq<Entry>, e: Entry)
    ensures
        trackers::usable_count(list.push(e)) == trackers::usable_count(list) + if e.health
            is Announces {
            1int
        } else {
            0int
        },
        trackers::answered_count(list.push(e)) == trackers::answered_count(list) + if e.health
            is Announces || e.health is PersonalUrl {
            1int
        } else {
            0int
        },
{
    assert(list.push(e).drop_last() =~= list);
}

/// A torrent would land inside what it describes where the folder that it goes to is that folder
/// or lies within it, and never where what it describes is one file.
pub proof fn law_torrent_lands_outside(source: Seq<char>, dst: Seq<char>)
    ensures
        !made::lands_inside(source, false, dst),
        path::parent(dst) is Some ==> made::lands_inside(source, true, dst) == path::within(
            path::parent(dst)->0,
            source,
        ),
{
}

} // verus!
