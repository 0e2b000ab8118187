//! The text of an info file.

use super::plan;
use super::plan::{discs, run_length, InfoPlan, Track, TrackLine};
use crate::display;
use crate::display::duration_short;
use crate::tag::{Field, Tags};
use crate::text;
use crate::text::{chars_of, push_decimal, push_left, push_right, replace_text};
use vstd::prelude::*;
use vstd::string::*;

verus! {

/// A line of the header, where the show has the field.
pub open spec fn header_line(show: Tags, field: Field) -> Seq<char> {
    match show.value(field) {
        Some(v) => v + "\n"@,
        None => Seq::empty(),
    }
}

/// The header and the source line.
pub open spec fn header(show: Tags) -> Seq<char> {
    header_line(show, Field::Artist) + header_line(show, Field::Date) + header_line(
        show,
        Field::Album,
    ) + header_line(show, Field::Location) + "\n"@ + "Source: "@ + (match show.value(
        Field::Comment,
    ) {
        Some(v) => v,
        None => Seq::empty(),
    }) + "\n\n"@
}

pub open spec fn title_text(t: TrackLine) -> Seq<char> {
    match t.title {
        Some(s) => s,
        None => "(no title)"@,
    }
}

/// How wide the widest title is.
pub open spec fn title_width(tracks: Seq<TrackLine>) -> nat
    decreases tracks.len(),
{
    if tracks.len() == 0 {
        0
    } else {
        let rest = title_width(tracks.drop_last());
        let own = title_text(tracks.last()).len();
        if own > rest {
            own
        } else {
            rest
        }
    }
}

pub open spec fn time_text(t: TrackLine) -> Seq<char> {
    match t.length {
        Some(n) => display::short_text(n),
        None => "?:??"@,
    }
}

/// The line of a track: its label, its title filled up to the widest, and its time, at least
/// five wide.
pub open spec fn row(t: TrackLine, width: nat) -> Seq<char> {
    t.label + "  "@ + text::left(title_text(t), width as int) + "  "@ + text::right(
        time_text(t),
        5,
    ) + "\n"@
}

pub open spec fn rows(tracks: Seq<TrackLine>, width: nat) -> Seq<char>
    decreases tracks.len(),
{
    if tracks.len() == 0 {
        Seq::empty()
    } else {
        rows(tracks.drop_last(), width) + row(tracks.last(), width)
    }
}

pub open spec fn disc_name(disc: Option<u32>) -> Seq<char> {
    match disc {
        Some(d) => "Disc "@ + text::decimal(d as nat),
        None => "Other"@,
    }
}

/// One run of tracks, under its disc where the set has discs.
pub open spec fn block(tracks: Seq<TrackLine>, from: int, to: int) -> Seq<char> {
    let run = tracks.subrange(from, to);
    (if plan::some_disc(tracks) {
        disc_name(tracks[from].disc) + " ["@ + display::short_text(plan::total(run)) + "]\n"@
    } else {
        Seq::empty()
    }) + rows(run, title_width(tracks)) + "\n"@
}

/// The runs up to the `k`-th.
pub open spec fn blocks(tracks: Seq<TrackLine>, rs: Seq<(int, int)>, k: int) -> Seq<char>
    decreases k,
{
    if k <= 0 {
        Seq::empty()
    } else {
        blocks(tracks, rs, k - 1) + block(tracks, rs[k - 1].0, rs[k - 1].1)
    }
}

/// The whole text, with `\n` line ends.
pub open spec fn info_text(show: Tags, tracks: Seq<TrackLine>, version: Seq<char>) -> Seq<char> {
    let rs = plan::runs(tracks, 0);
    header(show) + blocks(tracks, rs, rs.len() as int) + "Total: "@ + display::short_text(
        plan::total(tracks),
    ) + "\n\n"@ + "Generated by little-helper "@ + version + "\n"@
}

fn title_of(t: &Track) -> (s: &str)
    ensures
        s@ == title_text(t@),
{
    match &t.title {
        Some(s) => s.as_str(),
        None => "(no title)",
    }
}

fn push_row(out: &mut String, t: &Track, width: usize)
    requires
        t.length matches Some(n) ==> plan::showable(n as nat),
    ensures
        final(out)@ == old(out)@ + row(t@, width as nat),
{
    let ghost start = out@;
    out.append(&t.label);
    out.append("  ");
    push_left(out, title_of(t), width);
    out.append("  ");
    let time = match t.length {
        Some(n) => duration_short(n),
        None => "?:??".to_owned(),
    };
    push_right(out, &time, 5);
    out.append("\n");
    assert(out@ =~= start + row(t@, width as nat));
}

fn widest(tracks: &Vec<Track>) -> (w: usize)
    ensures
        w == title_width(plan::lines(tracks@)),
{
    let ghost all = plan::lines(tracks@);
    let mut w: usize = 0;
    let mut i: usize = 0;
    assert(all.take(0) =~= Seq::<TrackLine>::empty());
    while i < tracks.len()
        invariant
            i <= tracks.len(),
            all == plan::lines(tracks@),
            w == title_width(all.take(i as int)),
        decreases tracks.len() - i,
    {
        proof {
            assert(all.take(i + 1).drop_last() =~= all.take(i as int));
            assert(all.take(i + 1).last() == tracks@[i as int]@);
        }
        let own: usize = chars_of(title_of(&tracks[i])).len();
        if own > w {
            w = own;
        }
        i += 1;
    }
    assert(all.take(all.len() as int) =~= all);
    w
}

fn push_line(out: &mut String, show: &Tags, field: Field)
    ensures
        final(out)@ == old(out)@ + header_line(*show, field),
{
    let ghost start = out@;
    match show.get(field) {
        Some(v) => {
            out.append(v);
            out.append("\n");
        },
        None => {},
    }
    assert(out@ =~= start + header_line(*show, field));
}

proof fn lemma_one_fits(tracks: Seq<TrackLine>, i: int)
    requires
        0 <= i < tracks.len(),
    ensures
        tracks[i].length matches Some(n) ==> n <= plan::total(tracks),
{
    plan::lemma_run_fits(tracks, i, i + 1);
    let one = tracks.subrange(i, i + 1);
    assert(one.last() == tracks[i]);
    assert(one.drop_last() =~= Seq::<TrackLine>::empty());
    assert(plan::total(one) == plan::total(one.drop_last()) + (match tracks[i].length {
        Some(n) => n,
        None => 0,
    }));
}

fn push_block(
    out: &mut String,
    tracks: &Vec<Track>,
    from: usize,
    to: usize,
    width: usize,
    has_discs: bool,
)
    requires
        from < to <= tracks.len(),
        width == title_width(plan::lines(tracks@)),
        has_discs == plan::some_disc(plan::lines(tracks@)),
        plan::showable(plan::total(plan::lines(tracks@))),
    ensures
        final(out)@ == old(out)@ + block(plan::lines(tracks@), from as int, to as int),
{
    let ghost start = out@;
    let ghost all = plan::lines(tracks@);
    let ghost run = all.subrange(from as int, to as int);
    let ghost mut head = Seq::<char>::empty();
    if has_discs {
        proof {
            plan::lemma_run_fits(all, from as int, to as int);
        }
        assert(all[from as int] == tracks@[from as int]@);
        match tracks[from].disc {
            Some(d) => {
                out.append("Disc ");
                push_decimal(out, d as u64);
            },
            None => {
                out.append("Other");
            },
        }
        out.append(" [");
        out.append(&duration_short(run_length(tracks, from, to)));
        out.append("]\n");
        proof {
            head = disc_name(all[from as int].disc) + " ["@ + display::short_text(
                plan::total(run),
            ) + "]\n"@;
        }
    }
    assert(out@ =~= start + head);
    let mut i: usize = from;
    assert(run.take(0) =~= Seq::<TrackLine>::empty());
    assert(start + head + rows(run.take(0), width as nat) =~= start + head);
    while i < to
        invariant
            from <= i <= to <= tracks.len(),
            all == plan::lines(tracks@),
            run == all.subrange(from as int, to as int),
            plan::showable(plan::total(all)),
            out@ == start + head + rows(run.take(i - from), width as nat),
        decreases to - i,
    {
        proof {
            assert(all[i as int] == tracks@[i as int]@);
            lemma_one_fits(all, i as int);
            assert(run.take(i - from + 1).drop_last() =~= run.take(i - from));
            assert(run.take(i - from + 1).last() == tracks@[i as int]@);
        }
        let ghost before = out@;
        push_row(out, &tracks[i], width);
        assert(out@ =~= start + head + rows(run.take(i - from + 1), width as nat));
        i += 1;
    }
    assert(run.take(run.len() as int) =~= run);
    out.append("\n");
    assert(out@ =~= start + block(all, from as int, to as int));
}

/// The info file's text, with `\n` line ends. `version` is that of the program that made it.
pub fn render(p: &InfoPlan, version: &str) -> (s: String)
    requires
        plan::showable(plan::total(plan::lines(p.tracks@))),
    ensures
        s@ == info_text(p.show, plan::lines(p.tracks@), version@),
{
    let ghost all = plan::lines(p.tracks@);
    let ghost rs = plan::runs(all, 0);
    let mut out = String::new();
    push_line(&mut out, &p.show, Field::Artist);
    push_line(&mut out, &p.show, Field::Date);
    push_line(&mut out, &p.show, Field::Album);
    push_line(&mut out, &p.show, Field::Location);
    out.append("\n");
    out.append("Source: ");
    match p.show.get(Field::Comment) {
        Some(v) => {
            out.append(v);
        },
        None => {},
    }
    out.append("\n\n");
    let ghost head = header(p.show);
    assert(out@ =~= head);
    let width = widest(&p.tracks);
    let has_discs = p.has_discs();
    let ranges = discs(&p.tracks);
    let mut k: usize = 0;
    assert(head + blocks(all, rs, 0) =~= head);
    while k < ranges.len()
        invariant
            k <= ranges.len(),
            all == plan::lines(p.tracks@),
            rs == plan::runs(all, 0),
            width == title_width(all),
            has_discs == plan::some_disc(all),
            plan::showable(plan::total(all)),
            ranges.len() == rs.len(),
            forall|j: int|
                0 <= j < ranges.len() ==> {
                    &&& (#[trigger] ranges@[j]).0 == rs[j].0
                    &&& ranges@[j].1 == rs[j].1
                    &&& ranges@[j].0 < ranges@[j].1 <= p.tracks.len()
                },
            out@ == head + blocks(all, rs, k as int),
        decreases ranges.len() - k,
    {
        let (from, to) = ranges[k];
        assert(ranges@[k as int].0 == rs[k as int].0);
        push_block(&mut out, &p.tracks, from, to, width, has_discs);
        assert(out@ =~= head + blocks(all, rs, k + 1));
        k += 1;
    }
    out.append("Total: ");
    assert(all.subrange(0, all.len() as int) =~= all);
    out.append(&duration_short(run_length(&p.tracks, 0, p.tracks.len())));
    out.append("\n\n");
    out.append("Generated by little-helper ");
    out.append(version);
    out.append("\n");
    out
}

/// A text with CRLF line ends.
pub open spec fn with_crlf(s: Seq<char>) -> Seq<char> {
    text::replaced(s, "\n"@, "\r\n"@, 0)
}

/// What is written to the file: the text with CRLF line ends.
pub fn file_text(p: &InfoPlan, version: &str) -> (s: String)
    requires
        plan::showable(plan::total(plan::lines(p.tracks@))),
    ensures
        s@ == with_crlf(info_text(p.show, plan::lines(p.tracks@), version@)),
{
    proof {
        reveal_strlit("\n");
    }
    replace_text(&render(p, version), "\n", "\r\n")
}

/// What comes of asking for an info file to be written.
#[derive(Debug, Clone, Copy, PartialEq, Eq, Structural)]
pub enum Decision {
    /// There is one already, and it may not be replaced.
    Keep,
    /// The plan alone was asked for.
    Show,
    Write,
}

/// Whether an info file is written: never over an existing one unless forced, and never
/// without being asked.
pub fn decide(exists: bool, force: bool, yes: bool) -> (d: Decision)
    ensures
        d == if exists && !force {
            Decision::Keep
        } else if !yes {
            Decision::Show
        } else {
            Decision::Write
        },
{
    if exists && !force {
        Decision::Keep
    } else if !yes {
        Decision::Show
    } else {
        Decision::Write
    }
}

} // verus!
