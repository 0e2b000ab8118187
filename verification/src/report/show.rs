//! Tagging and renaming a show, and writing its info file: what a request comes to, and what
//! is said of it. Nothing is written without being asked for, and the whole plan is shown
//! either way.

use crate::etree;
use crate::etree::{ShowDate, ShowName};
use crate::infofile::render::{decide, Decision};
use crate::model::AudioFile;
use crate::path;
use crate::path::{file_name_of, name_or_empty};
use crate::rename::execute;
use crate::rename::plan::{NameSpec, RenameEntry, RenamePlan, RenameStatus};
use crate::report::files::joined;
use crate::tag;
use crate::tag::{change_line, Field, Tags};
use crate::text;
use crate::text::{debug_of, lines_of, push_decimal, push_text};
use vstd::prelude::*;
use vstd::string::*;

verus! {

/// `/shows/x is not a directory`.
pub fn not_a_directory(dir: &str) -> (s: String)
    ensures
        s@ == dir@ + " is not a directory"@,
{
    joined(dir, " is not a directory")
}

/// `no audio files found in /shows/x`.
pub fn no_audio(dir: &str) -> (s: String)
    ensures
        s@ == "no audio files found in "@ + dir@,
{
    joined("no audio files found in ", dir)
}

// Tags.

/// The line of a file that cannot be tagged.
pub fn untagged_line(f: &AudioFile) -> (s: String)
    ensures
        s@ == "N/A       "@ + path::name_of(f.path@) + " ("@ + f.format.name_text()
            + " carries no Vorbis comments)"@,
{
    let mut s = joined("N/A       ", &f.file_name());
    s.append(" (");
    s.append(f.format.name());
    s.append(" carries no Vorbis comments)");
    s
}

/// Whether there is anything to tag among the audio files of a folder.
pub fn check_tag_set(audio: usize, flac: usize, dir: &str) -> (r: Result<(), String>)
    ensures
        match r {
            Ok(_) => audio > 0 && flac > 0,
            Err(e) => if audio == 0 {
                e@ == "no audio files found in "@ + dir@
            } else {
                flac == 0 && e@ == "no FLAC files to tag in "@ + dir@
            },
        },
{
    if audio == 0 {
        return Err(no_audio(dir));
    }
    if flac == 0 {
        return Err(joined("no FLAC files to tag in ", dir));
    }
    Ok(())
}

/// One title on each line.
pub fn read_titles(titles: &str) -> (r: Vec<String>)
    ensures
        text::views(r@) == text::lines(titles@),
{
    lines_of(titles)
}

pub open spec fn change_text(c: (Field, Option<Seq<char>>, Seq<char>)) -> Seq<char> {
    "  "@ + text::left(c.0.key_text(), 12) + " "@ + text::debug_text(
        match c.1 {
            Some(o) => o,
            None => ""@,
        },
    ) + " -> "@ + text::debug_text(c.2)
}

/// What an edit changes of a file's tags.
pub open spec fn tag_texts(name: Seq<char>, before: Tags, edit: Tags) -> Seq<Seq<char>> {
    let changes = tag::changes_to(before, edit, 9);
    if changes.len() == 0 {
        seq![name + "   unchanged"@]
    } else {
        seq![name] + changes.map_values(
            |c: (Field, Option<Seq<char>>, Seq<char>)| change_text(c),
        )
    }
}

/// The diff of one file's tags, and whether there is one.
pub fn tag_lines(name: &str, before: &Tags, edit: &Tags) -> (r: (Vec<String>, bool))
    ensures
        text::views(r.0@) == tag_texts(name@, *before, *edit),
        r.1 == (tag::changes_to(*before, *edit, 9).len() > 0),
{
    let changes = before.changes(edit);
    let ghost all = tag::changes_to(*before, *edit, 9);
    assert(all.len() == changes@.len());
    let mut r: Vec<String> = Vec::new();
    if changes.len() == 0 {
        push_text(&mut r, joined(name, "   unchanged"));
        assert(text::views(r@) =~= tag_texts(name@, *before, *edit));
        return (r, false);
    }
    push_text(&mut r, name.to_owned());
    let ghost texts = all.map_values(|c: (Field, Option<Seq<char>>, Seq<char>)| change_text(c));
    let mut i: usize = 0;
    assert(text::views(r@) =~= seq![name@] + texts.take(0));
    while i < changes.len()
        invariant
            i <= changes.len(),
            all == tag::change_views(changes@),
            texts == all.map_values(|c: (Field, Option<Seq<char>>, Seq<char>)| change_text(c)),
            text::views(r@) == seq![name@] + texts.take(i as int),
        decreases changes.len() - i,
    {
        push_text(&mut r, change_line(changes[i].0, changes[i].1, changes[i].2));
        assert(text::views(r@) =~= seq![name@] + texts.take(i + 1));
        i += 1;
    }
    assert(texts.take(texts.len() as int) =~= texts);
    (r, true)
}

/// The last line of a tagging run that wrote so many files.
pub fn tag_summary(any_change: bool, yes: bool, wrote: usize) -> (s: String)
    ensures
        s@ == if !any_change {
            "nothing to change"@
        } else if !yes {
            "plan only, nothing written — pass --yes to write"@
        } else {
            "wrote "@ + text::decimal(wrote as nat) + " files"@
        },
{
    if !any_change {
        return "nothing to change".to_owned();
    }
    if !yes {
        return "plan only, nothing written — pass --yes to write".to_owned();
    }
    let mut s = "wrote ".to_owned();
    push_decimal(&mut s, wrote as u64);
    s.append(" files");
    s
}

// Renaming.

/// What a folder's own name says of its show.
pub open spec fn show_of(dir: Seq<char>) -> Option<etree::ShowParts> {
    match path::file_name(dir) {
        Some(n) => etree::parse_show(n),
        None => None,
    }
}

/// What is missing from a request to rename a folder, if anything.
pub open spec fn name_objection(
    dir: Seq<char>,
    band: Option<String>,
    date: Option<String>,
) -> Option<Seq<char>> {
    if band is None && show_of(dir) is None {
        Some(
            "no --band given, and "@ + dir
                + " is not an etree show folder name to read one from"@,
        )
    } else {
        match date {
            Some(s) => if etree::parse_date(s@) is None {
                Some("--date "@ + text::debug_text(s@) + " is not YYYY-MM-DD or YY-MM-DD"@)
            } else {
                None
            },
            None => if show_of(dir) is None {
                Some(
                    "no --date given, and "@ + dir
                        + " is not an etree show folder name to read one from"@,
                )
            } else {
                None
            },
        }
    }
}

fn unread(flag: &str, dir: &str) -> (s: String)
    ensures
        s@ == flag@ + dir@ + " is not an etree show folder name to read one from"@,
{
    let mut s = joined(flag, dir);
    s.append(" is not an etree show folder name to read one from");
    s
}

/// What a folder's files are to be called. The band and the date come from the folder's own
/// name where they are not given. A suffix that a file carries is always kept.
pub fn name_spec(
    dir: &str,
    band: &Option<String>,
    date: &Option<String>,
    short_year: bool,
    disc: Option<u32>,
) -> (r: Result<NameSpec, String>)
    ensures
        match r {
            Ok(spec) => {
                &&& name_objection(dir@, *band, *date) is None
                &&& spec.band@ == match *band {
                    Some(b) => b@,
                    None => show_of(dir@)->0.band,
                }
                &&& match *date {
                    Some(s) => etree::parse_date(s@) matches Some((d, _)) && spec.date == d,
                    None => spec.date == show_of(dir@)->0.date,
                }
                &&& spec.short_year == short_year
                &&& spec.disc == disc
                &&& spec.keep_suffix
            },
            Err(e) => name_objection(dir@, *band, *date) == Some(e@),
        },
{
    let show = match file_name_of(dir) {
        Some(n) => ShowName::parse(&n),
        None => None,
    };
    let band: String = match band {
        Some(b) => b.clone(),
        None => match &show {
            Some(s) => s.band.clone(),
            None => {
                return Err(unread("no --band given, and ", dir));
            },
        },
    };
    let date: ShowDate = match date {
        Some(s) => match ShowDate::parse(s) {
            Some(d) => d.0,
            None => {
                let mut e = joined("--date ", &debug_of(s));
                e.append(" is not YYYY-MM-DD or YY-MM-DD");
                return Err(e);
            },
        },
        None => match &show {
            Some(s) => s.date,
            None => {
                return Err(unread("no --date given, and ", dir));
            },
        },
    };
    Ok(NameSpec { band, date, short_year, disc, keep_suffix: true })
}

/// The line of one file in a plan to rename.
pub open spec fn rename_text(e: RenameEntry) -> Seq<char> {
    let from = path::name_of(e.from@);
    let to = path::name_of(e.to@);
    match e.status {
        RenameStatus::Unchanged => from + "   unchanged"@,
        RenameStatus::Changed => from + " -> "@ + to,
        RenameStatus::Collision => from + " -> "@ + to + "   COLLISION"@,
    }
}

pub open spec fn rename_texts(entries: Seq<RenameEntry>) -> Seq<Seq<char>> {
    entries.map_values(|e: RenameEntry| rename_text(e))
}

fn rename_line(e: &RenameEntry) -> (s: String)
    ensures
        s@ == rename_text(*e),
{
    let mut s = name_or_empty(&e.from);
    match e.status {
        RenameStatus::Unchanged => {
            s.append("   unchanged");
        },
        RenameStatus::Changed => {
            s.append(" -> ");
            s.append(&name_or_empty(&e.to));
        },
        RenameStatus::Collision => {
            s.append(" -> ");
            s.append(&name_or_empty(&e.to));
            s.append("   COLLISION");
        },
    }
    s
}

/// What is done about a plan to rename.
#[derive(Debug, Clone, Copy, PartialEq, Eq, Structural)]
pub enum RenameDecision {
    /// Files would end up with the same name, so none is renamed.
    Refuse,
    Nothing,
    /// The plan alone was asked for.
    Show,
    Rename,
}

/// What is done about a plan.
pub open spec fn rename_decision(plan: RenamePlan, yes: bool) -> RenameDecision {
    if plan.collides() {
        RenameDecision::Refuse
    } else if execute::changed(plan.entries@).len() == 0 {
        RenameDecision::Nothing
    } else if !yes {
        RenameDecision::Show
    } else {
        RenameDecision::Rename
    }
}

/// What is said once the plan has been shown, and carried out if it was to be.
pub open spec fn rename_ending(plan: RenamePlan, yes: bool) -> Seq<char> {
    match rename_decision(plan, yes) {
        RenameDecision::Refuse =>
            "refusing: more than one file would end up with the same name"@,
        RenameDecision::Nothing => "nothing to rename"@,
        RenameDecision::Show => "plan only, nothing written — pass --yes to rename"@,
        RenameDecision::Rename => "renamed "@ + text::decimal(
            execute::changed(plan.entries@).len(),
        ) + " of "@ + text::decimal(plan.entries@.len()) + " files"@,
    }
}

fn count_changed(plan: &RenamePlan) -> (n: usize)
    ensures
        n == execute::changed(plan.entries@).len(),
{
    let mut n: usize = 0;
    let mut i: usize = 0;
    while i < plan.entries.len()
        invariant
            i <= plan.entries.len(),
            n <= i,
            n == execute::changed(plan.entries@.take(i as int)).len(),
        decreases plan.entries.len() - i,
    {
        assert(plan.entries@.take(i + 1).drop_last() =~= plan.entries@.take(i as int));
        assert(plan.entries@.take(i + 1).last() == plan.entries@[i as int]);
        if plan.entries[i].status == RenameStatus::Changed {
            n += 1;
        }
        i += 1;
    }
    assert(plan.entries@.take(plan.entries@.len() as int) =~= plan.entries@);
    n
}

/// The plan, what is done about it, and what is said afterwards. A plan with any collision is
/// refused outright, even for the files that would have been fine.
pub fn rename_report(plan: &RenamePlan, yes: bool) -> (r: (Vec<String>, RenameDecision, String))
    ensures
        text::views(r.0@) == rename_texts(plan.entries@),
        r.1 == rename_decision(*plan, yes),
        r.2@ == rename_ending(*plan, yes),
{
    let ghost all = rename_texts(plan.entries@);
    let mut l: Vec<String> = Vec::new();
    let mut i: usize = 0;
    assert(text::views(l@) =~= all.take(0));
    while i < plan.entries.len()
        invariant
            i <= plan.entries.len(),
            all == rename_texts(plan.entries@),
            text::views(l@) == all.take(i as int),
        decreases plan.entries.len() - i,
    {
        push_text(&mut l, rename_line(&plan.entries[i]));
        assert(text::views(l@) =~= all.take(i + 1));
        i += 1;
    }
    assert(all.take(all.len() as int) =~= all);
    if plan.has_collisions() {
        return (
            l,
            RenameDecision::Refuse,
            "refusing: more than one file would end up with the same name".to_owned(),
        );
    }
    let n = count_changed(plan);
    if n == 0 {
        return (l, RenameDecision::Nothing, "nothing to rename".to_owned());
    }
    if !yes {
        return (
            l,
            RenameDecision::Show,
            "plan only, nothing written — pass --yes to rename".to_owned(),
        );
    }
    let mut s = "renamed ".to_owned();
    push_decimal(&mut s, n as u64);
    s.append(" of ");
    push_decimal(&mut s, plan.entries.len() as u64);
    s.append(" files");
    (l, RenameDecision::Rename, s)
}

// The info file.

/// What is done about an info file, what is said of it, and whether that is a success: to be
/// kept from writing one is a failure only where one was asked for.
pub fn setlist_ending(path: &str, exists: bool, force: bool, yes: bool) -> (r: (
    Decision,
    String,
    bool,
))
    ensures
        r.0 == if exists && !force {
            Decision::Keep
        } else if !yes {
            Decision::Show
        } else {
            Decision::Write
        },
        r.1@ == match r.0 {
            Decision::Keep => path@ + " already exists — pass --force to replace it"@,
            Decision::Show => "plan only, nothing written — pass --yes to write "@ + path@,
            Decision::Write => "wrote "@ + path@,
        },
        r.2 == !(r.0 is Keep && yes),
{
    match decide(exists, force, yes) {
        Decision::Keep => (
            Decision::Keep,
            joined(path, " already exists — pass --force to replace it"),
            !yes,
        ),
        Decision::Show => (
            Decision::Show,
            joined("plan only, nothing written — pass --yes to write ", path),
            true,
        ),
        Decision::Write => (Decision::Write, joined("wrote ", path), true),
    }
}

} // verus!
