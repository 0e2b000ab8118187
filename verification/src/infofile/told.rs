//! What an info file tells of a show.

use super::plan;
use super::plan::{TrackLine, Trouble};
use super::render;
use crate::display;
use crate::display::FLICKS;
use crate::model::AudioFile;
use crate::tag::{Field, Tags};
use crate::text;
use vstd::prelude::*;

verus! {

/// Whether a text has a line, from the line's first character to its line end.
pub open spec fn has_line(s: Seq<char>, line: Seq<char>) -> bool {
    exists|before: Seq<char>, after: Seq<char>|
        s == #[trigger] (before + line.push('\n') + after) && is_ended(before)
}

/// Nothing, or something that ends with a line end.
pub open spec fn is_ended(s: Seq<char>) -> bool {
    s.len() == 0 || s.last() == '\n'
}

proof fn lemma_line_within(a: Seq<char>, s: Seq<char>, b: Seq<char>, line: Seq<char>)
    requires
        has_line(s, line),
        is_ended(a),
    ensures
        has_line(a + s + b, line),
{
    let (before, after) = choose|before: Seq<char>, after: Seq<char>|
        s == #[trigger] (before + line.push('\n') + after) && is_ended(before);
    let all = a + s + b;
    assert(all =~= (a + before) + line.push('\n') + (after + b));
    assert(is_ended(a + before));
}

proof fn lemma_line_is(line: Seq<char>)
    ensures
        has_line(line.push('\n'), line),
{
    let none = Seq::<char>::empty();
    assert(line.push('\n') =~= none + line.push('\n') + none);
}

proof fn lemma_headed(show: Tags, f: Field)
    ensures
        is_ended(render::header_line(show, f)),
        show.value(f) matches Some(v) ==> has_line(render::header_line(show, f), v),
        show.value(f) is None ==> render::header_line(show, f).len() == 0,
{
    reveal_strlit("\n");
    if let Some(v) = show.value(f) {
        assert(v + "\n"@ =~= v.push('\n'));
        lemma_line_is(v);
    }
}

proof fn lemma_ended(a: Seq<char>, b: Seq<char>)
    requires
        is_ended(a),
        is_ended(b),
    ensures
        is_ended(a + b),
{
}

/// The comment, where the show has one.
spec fn source_of(show: Tags) -> Seq<char> {
    match show.value(Field::Comment) {
        Some(v) => v,
        None => Seq::empty(),
    }
}

/// The lines above the source.
spec fn top(show: Tags) -> Seq<char> {
    render::header_line(show, Field::Artist) + render::header_line(show, Field::Date)
        + render::header_line(show, Field::Album) + render::header_line(show, Field::Location)
}

proof fn lemma_top(show: Tags)
    ensures
        is_ended(top(show)),
        show.value(Field::Artist) matches Some(v) ==> has_line(top(show), v),
        show.value(Field::Date) matches Some(v) ==> has_line(top(show), v),
        show.value(Field::Album) matches Some(v) ==> has_line(top(show), v),
        show.value(Field::Location) matches Some(v) ==> has_line(top(show), v),
{
    let a = render::header_line(show, Field::Artist);
    let d = render::header_line(show, Field::Date);
    let al = render::header_line(show, Field::Album);
    let lo = render::header_line(show, Field::Location);
    let none = Seq::<char>::empty();
    let all = top(show);
    lemma_headed(show, Field::Artist);
    lemma_headed(show, Field::Date);
    lemma_headed(show, Field::Album);
    lemma_headed(show, Field::Location);
    lemma_ended(a, d);
    lemma_ended(a + d, al);
    lemma_ended(a + d + al, lo);
    if let Some(v) = show.value(Field::Artist) {
        assert(all =~= none + a + (d + al + lo));
        lemma_line_within(none, a, d + al + lo, v);
    }
    if let Some(v) = show.value(Field::Date) {
        assert(all =~= a + d + (al + lo));
        lemma_line_within(a, d, al + lo, v);
    }
    if let Some(v) = show.value(Field::Album) {
        assert(all =~= (a + d) + al + lo);
        lemma_line_within(a + d, al, lo, v);
    }
    if let Some(v) = show.value(Field::Location) {
        assert(all =~= (a + d + al) + lo + none);
        lemma_line_within(a + d + al, lo, none, v);
    }
}

/// A line end, the source, and another.
spec fn bottom(show: Tags) -> Seq<char> {
    seq!['\n'] + ("Source: "@ + source_of(show)).push('\n') + seq!['\n']
}

proof fn lemma_header(show: Tags)
    ensures
        render::header(show) == top(show) + bottom(show),
        is_ended(render::header(show)),
        has_line(render::header(show), "Source: "@ + source_of(show)),
{
    reveal_strlit("\n");
    reveal_strlit("\n\n");
    let src = "Source: "@ + source_of(show);
    let nl = seq!['\n'];
    let none = Seq::<char>::empty();
    assert(render::header(show) =~= top(show) + bottom(show));
    lemma_top(show);
    lemma_line_is(src);
    lemma_line_within(nl, src.push('\n'), nl, src);
    assert(render::header(show) =~= top(show) + bottom(show) + none);
    lemma_line_within(top(show), bottom(show), none, src);
}

/// What the show's tags say stands in its info file: the artist, the date, the album and the
/// location each on a line of their own, and the lineage in the comment after `Source: `.
pub proof fn law_show_is_told(show: Tags, tracks: Seq<TrackLine>, version: Seq<char>)
    ensures
        ({
            let s = render::info_text(show, tracks, version);
            &&& show.value(Field::Artist) matches Some(v) ==> has_line(s, v)
            &&& show.value(Field::Date) matches Some(v) ==> has_line(s, v)
            &&& show.value(Field::Album) matches Some(v) ==> has_line(s, v)
            &&& show.value(Field::Location) matches Some(v) ==> has_line(s, v)
            &&& show.value(Field::Comment) matches Some(v) ==> has_line(s, "Source: "@ + v)
            &&& show.value(Field::Comment) is None ==> has_line(s, "Source: "@)
        }),
{
    let s = render::info_text(show, tracks, version);
    let head = render::header(show);
    let none = Seq::<char>::empty();
    lemma_header(show);
    lemma_top(show);
    let above = top(show);
    let below = s.skip(above.len() as int);
    assert(s =~= none + above + below);
    if let Some(v) = show.value(Field::Artist) {
        lemma_line_within(none, above, below, v);
    }
    if let Some(v) = show.value(Field::Date) {
        lemma_line_within(none, above, below, v);
    }
    if let Some(v) = show.value(Field::Album) {
        lemma_line_within(none, above, below, v);
    }
    if let Some(v) = show.value(Field::Location) {
        lemma_line_within(none, above, below, v);
    }
    let rest = s.skip(head.len() as int);
    assert(s =~= none + head + rest);
    let src = "Source: "@ + source_of(show);
    lemma_line_within(none, head, rest, src);
    assert("Source: "@ + none =~= "Source: "@);
}

/// The lines of the header come in their order: who played, when, what it is called, and
/// where, then an empty line, the source, and another.
pub proof fn law_header_comes_in_order(show: Tags, tracks: Seq<TrackLine>, version: Seq<char>)
    requires
        show.value(Field::Artist) is Some,
        show.value(Field::Date) is Some,
        show.value(Field::Album) is Some,
        show.value(Field::Location) is Some,
        show.value(Field::Comment) is Some,
    ensures
        ({
            let start = show.value(Field::Artist)->0.push('\n') + show.value(Field::Date)->0.push(
                '\n',
            ) + show.value(Field::Album)->0.push('\n') + show.value(Field::Location)->0.push('\n')
                + seq!['\n'] + ("Source: "@ + show.value(Field::Comment)->0).push('\n') + seq![
                '\n',
            ];
            render::info_text(show, tracks, version).take(start.len() as int) == start
        }),
{
    reveal_strlit("\n");
    reveal_strlit("\n\n");
    let start = show.value(Field::Artist)->0.push('\n') + show.value(Field::Date)->0.push('\n')
        + show.value(Field::Album)->0.push('\n') + show.value(Field::Location)->0.push('\n')
        + seq!['\n'] + ("Source: "@ + show.value(Field::Comment)->0).push('\n') + seq!['\n'];
    assert(render::header(show) =~= start);
    assert(render::info_text(show, tracks, version).take(start.len() as int) =~= start);
}

// Tracks.

proof fn lemma_rows_ended(tracks: Seq<TrackLine>, width: nat)
    ensures
        is_ended(render::rows(tracks, width)),
    decreases tracks.len(),
{
    reveal_strlit("\n");
    if tracks.len() > 0 {
        lemma_rows_ended(tracks.drop_last(), width);
        assert(render::row(tracks.last(), width).last() == '\n');
    }
}

/// The row of a track without its line end.
spec fn told(t: TrackLine, width: nat) -> Seq<char> {
    t.label + "  "@ + text::left(render::title_text(t), width as int) + "  "@ + text::right(
        render::time_text(t),
        5,
    )
}

proof fn lemma_row_in_rows(tracks: Seq<TrackLine>, width: nat, i: int)
    requires
        0 <= i < tracks.len(),
    ensures
        has_line(render::rows(tracks, width), told(tracks[i], width)),
    decreases tracks.len(),
{
    reveal_strlit("\n");
    let front = tracks.drop_last();
    let none = Seq::<char>::empty();
    let had = render::rows(front, width);
    let last = render::row(tracks.last(), width);
    lemma_rows_ended(front, width);
    let all = render::rows(tracks, width);
    if i < front.len() {
        lemma_row_in_rows(front, width, i);
        assert(all =~= none + had + last);
        lemma_line_within(none, had, last, told(tracks[i], width));
    } else {
        let line = told(tracks[i], width);
        assert(last =~= line.push('\n'));
        lemma_line_is(line);
        assert(all =~= had + last + none);
        lemma_line_within(had, last, none, line);
    }
}

/// The line above a disc's tracks, without its line end.
spec fn disc_line(tracks: Seq<TrackLine>, from: int, to: int) -> Seq<char> {
    render::disc_name(tracks[from].disc) + " ["@ + display::short_text(
        plan::total(tracks.subrange(from, to)),
    ) + "]"@
}

proof fn lemma_block(tracks: Seq<TrackLine>, from: int, to: int, i: int)
    requires
        0 <= from <= i < to <= tracks.len(),
    ensures
        is_ended(render::block(tracks, from, to)),
        has_line(render::block(tracks, from, to), told(tracks[i], render::title_width(tracks))),
        plan::some_disc(tracks) ==> has_line(
            render::block(tracks, from, to),
            disc_line(tracks, from, to),
        ),
{
    reveal_strlit("\n");
    reveal_strlit("]\n");
    reveal_strlit("]");
    let run = tracks.subrange(from, to);
    let width = render::title_width(tracks);
    let rows = render::rows(run, width);
    let all = render::block(tracks, from, to);
    let none = Seq::<char>::empty();
    lemma_row_in_rows(run, width, i - from);
    assert(run[i - from] == tracks[i]);
    if plan::some_disc(tracks) {
        let line = disc_line(tracks, from, to);
        let head = line.push('\n');
        assert(all =~= head + rows + seq!['\n']);
        lemma_line_within(head, rows, seq!['\n'], told(tracks[i], width));
        lemma_line_is(line);
        assert(all =~= none + head + (rows + seq!['\n']));
        lemma_line_within(none, head, rows + seq!['\n'], line);
    } else {
        assert(all =~= none + rows + seq!['\n']);
        lemma_line_within(none, rows, seq!['\n'], told(tracks[i], width));
    }
    assert(all.last() == '\n');
}

proof fn lemma_blocks(tracks: Seq<TrackLine>, n: int, k: int, i: int)
    requires
        0 <= k < n <= plan::runs(tracks, 0).len(),
        plan::runs(tracks, 0)[k].0 <= i < plan::runs(tracks, 0)[k].1,
    ensures
        ({
            let rs = plan::runs(tracks, 0);
            let s = render::blocks(tracks, rs, n);
            &&& is_ended(s)
            &&& has_line(s, told(tracks[i], render::title_width(tracks)))
            &&& plan::some_disc(tracks) ==> has_line(s, disc_line(tracks, rs[k].0, rs[k].1))
        }),
    decreases n,
{
    let rs = plan::runs(tracks, 0);
    let none = Seq::<char>::empty();
    let had = render::blocks(tracks, rs, n - 1);
    let (from, to) = rs[n - 1];
    plan::law_runs_cut_the_set_by_disc(tracks, 0, n - 1);
    let last = render::block(tracks, from, to);
    let all = render::blocks(tracks, rs, n);
    let line = told(tracks[i], render::title_width(tracks));
    let head = disc_line(tracks, rs[k].0, rs[k].1);
    lemma_blocks_ended(tracks, n - 1);
    if k < n - 1 {
        lemma_blocks(tracks, n - 1, k, i);
        lemma_block(tracks, from, to, from);
        assert(all =~= none + had + last);
        lemma_line_within(none, had, last, line);
        if plan::some_disc(tracks) {
            lemma_line_within(none, had, last, head);
        }
    } else {
        lemma_block(tracks, from, to, i);
        assert(all =~= had + last + none);
        lemma_line_within(had, last, none, line);
        if plan::some_disc(tracks) {
            lemma_line_within(had, last, none, head);
        }
    }
}

proof fn lemma_blocks_ended(tracks: Seq<TrackLine>, n: int)
    requires
        0 <= n <= plan::runs(tracks, 0).len(),
    ensures
        is_ended(render::blocks(tracks, plan::runs(tracks, 0), n)),
    decreases n,
{
    if n > 0 {
        let rs = plan::runs(tracks, 0);
        lemma_blocks_ended(tracks, n - 1);
        plan::law_runs_cut_the_set_by_disc(tracks, 0, n - 1);
        lemma_block(tracks, rs[n - 1].0, rs[n - 1].1, rs[n - 1].0);
    }
}

/// Every track is in some run.
proof fn lemma_in_a_run(tracks: Seq<TrackLine>, n: int, i: int)
    requires
        0 <= n <= plan::runs(tracks, 0).len(),
        0 <= i < if n == 0 {
            0
        } else {
            plan::runs(tracks, 0)[n - 1].1
        },
    ensures
        exists|k: int|
            0 <= k < n && (#[trigger] plan::runs(tracks, 0)[k]).0 <= i < plan::runs(tracks, 0)[k].1,
    decreases n,
{
    let rs = plan::runs(tracks, 0);
    if n > 0 {
        plan::law_runs_cut_the_set_by_disc(tracks, 0, n - 1);
        if i < rs[n - 1].0 {
            lemma_in_a_run(tracks, n - 1, i);
            let k = choose|k: int| 0 <= k < n - 1 && (#[trigger] rs[k]).0 <= i < rs[k].1;
            assert(rs[k].0 <= i < rs[k].1);
        } else {
            assert(rs[n - 1].0 <= i < rs[n - 1].1);
        }
    }
}

/// Spaces and nothing else.
pub open spec fn is_blank(s: Seq<char>) -> bool {
    forall|i: int| 0 <= i < s.len() ==> #[trigger] s[i] == ' '
}

/// How a track is called: by its title, or said to have none.
pub open spec fn called(t: TrackLine) -> Seq<char> {
    match t.title {
        Some(s) => s,
        None => "(no title)"@,
    }
}

/// How long a track is said to be.
pub open spec fn timed(t: TrackLine) -> Seq<char> {
    match t.length {
        Some(n) => display::short_text(n),
        None => "?:??"@,
    }
}

proof fn lemma_title_width(tracks: Seq<TrackLine>, i: int)
    requires
        0 <= i < tracks.len(),
    ensures
        called(tracks[i]).len() <= render::title_width(tracks),
        exists|j: int|
            0 <= j < tracks.len() && called(#[trigger] tracks[j]).len() == render::title_width(
                tracks,
            ),
    decreases tracks.len(),
{
    let front = tracks.drop_last();
    let n = front.len() as int;
    if n > 0 {
        let at = if i < n {
            i
        } else {
            0
        };
        lemma_title_width(front, at);
        assert(front[at] == tracks[at]);
        let j = choose|j: int|
            0 <= j < front.len() && called(#[trigger] front[j]).len() == render::title_width(front);
        assert(front[j] == tracks[j]);
        if called(tracks[n]).len() > render::title_width(front) {
            assert(called(tracks[n]).len() == render::title_width(tracks));
        } else {
            assert(called(tracks[j]).len() == render::title_width(tracks));
        }
    } else {
        assert(front =~= Seq::<TrackLine>::empty());
        assert(tracks[0] == tracks.last());
        assert(render::title_width(front) == 0);
        assert(called(tracks[0]).len() == render::title_width(tracks));
    }
}

/// Every track stands on a line of its own: its label, what it is called, and how long it is,
/// with spaces between them such that all the titles end in the same column as the longest.
pub proof fn law_tracks_are_told(
    show: Tags,
    tracks: Seq<TrackLine>,
    version: Seq<char>,
    i: int,
)
    requires
        0 <= i < tracks.len(),
    ensures
        exists|fill: Seq<char>, lead: Seq<char>|
            {
                &&& is_blank(fill)
                &&& is_blank(lead)
                &&& forall|j: int|
                    0 <= j < tracks.len() ==> called(#[trigger] tracks[j]).len() <= called(
                        tracks[i],
                    ).len() + fill.len()
                &&& fill.len() > 0 ==> exists|j: int|
                    0 <= j < tracks.len() && called(#[trigger] tracks[j]).len() == called(
                        tracks[i],
                    ).len() + fill.len()
                &&& timed(tracks[i]).len() < 5 ==> timed(tracks[i]).len() + lead.len() == 5
                &&& timed(tracks[i]).len() >= 5 ==> lead.len() == 0
                &&& has_line(
                    render::info_text(show, tracks, version),
                    #[trigger] (tracks[i].label + "  "@ + called(tracks[i]) + fill + "  "@ + lead
                        + timed(tracks[i])),
                )
            },
{
    let s = render::info_text(show, tracks, version);
    let rs = plan::runs(tracks, 0);
    let n = rs.len() as int;
    let t = tracks[i];
    let width = render::title_width(tracks);
    let fill = text::spaces(width - called(t).len());
    let lead = text::spaces(5 - timed(t).len());
    plan::law_runs_cut_the_set_by_disc(tracks, 0, n - 1);
    lemma_in_a_run(tracks, n, i);
    let k = choose|k: int| 0 <= k < n && (#[trigger] rs[k]).0 <= i < rs[k].1;
    lemma_blocks(tracks, n, k, i);
    lemma_header(show);
    let head = render::header(show);
    let body = render::blocks(tracks, rs, n);
    let rest = s.skip((head.len() + body.len()) as int);
    assert(s =~= head + body + rest);
    let line = told(t, width);
    lemma_line_within(head, body, rest, line);
    assert(line =~= t.label + "  "@ + called(t) + fill + "  "@ + lead + timed(t));
    lemma_title_width(tracks, i);
    assert forall|j: int| 0 <= j < tracks.len() implies called(#[trigger] tracks[j]).len()
        <= called(t).len() + fill.len() by {
        lemma_title_width(tracks, j);
    }
}

/// Where any track has a disc, every disc stands on a line of its own with how long it is, all
/// its tracks together.
pub proof fn law_discs_are_told(
    show: Tags,
    tracks: Seq<TrackLine>,
    version: Seq<char>,
    k: int,
)
    requires
        0 <= k < plan::runs(tracks, 0).len(),
        exists|i: int| 0 <= i < tracks.len() && (#[trigger] tracks[i]).disc is Some,
    ensures
        ({
            let (from, to) = plan::runs(tracks, 0)[k];
            let name = match tracks[from].disc {
                Some(d) => "Disc "@ + text::decimal(d as nat),
                None => "Other"@,
            };
            has_line(
                render::info_text(show, tracks, version),
                name + " ["@ + display::short_text(plan::total(tracks.subrange(from, to))) + "]"@,
            )
        }),
{
    let s = render::info_text(show, tracks, version);
    let rs = plan::runs(tracks, 0);
    let n = rs.len() as int;
    let (from, to) = rs[k];
    plan::law_runs_cut_the_set_by_disc(tracks, 0, k);
    lemma_blocks(tracks, n, k, from);
    lemma_header(show);
    let head = render::header(show);
    let body = render::blocks(tracks, rs, n);
    let rest = s.skip((head.len() + body.len()) as int);
    assert(s =~= head + body + rest);
    lemma_line_within(head, body, rest, disc_line(tracks, from, to));
}

/// The whole set's length stands on a line of its own, and what made the file on the last.
pub proof fn law_total_is_told(show: Tags, tracks: Seq<TrackLine>, version: Seq<char>)
    ensures
        has_line(
            render::info_text(show, tracks, version),
            "Total: "@ + display::short_text(plan::total(tracks)),
        ),
        has_line(
            render::info_text(show, tracks, version),
            "Generated by little-helper "@ + version,
        ),
{
    reveal_strlit("\n");
    reveal_strlit("\n\n");
    let s = render::info_text(show, tracks, version);
    let rs = plan::runs(tracks, 0);
    let n = rs.len() as int;
    lemma_header(show);
    lemma_blocks_ended(tracks, n);
    let a = render::header(show) + render::blocks(tracks, rs, n);
    lemma_ended(render::header(show), render::blocks(tracks, rs, n));
    let total = "Total: "@ + display::short_text(plan::total(tracks));
    let by = "Generated by little-helper "@ + version;
    let none = Seq::<char>::empty();
    lemma_line_is(total);
    lemma_line_is(by);
    let rest = seq!['\n'] + by.push('\n');
    assert(s =~= a + total.push('\n') + rest);
    lemma_line_within(a, total.push('\n'), rest, total);
    let b = a + total.push('\n') + seq!['\n'];
    assert(s =~= b + by.push('\n') + none);
    lemma_line_within(b, by.push('\n'), none, by);
}

/// Lengths add up: those of two parts of a set make up that of the whole, and that of one track
/// is its own, or nothing where it does not say.
pub proof fn law_lengths_add_up(a: Seq<TrackLine>, b: Seq<TrackLine>, t: TrackLine)
    ensures
        plan::total(a + b) == plan::total(a) + plan::total(b),
        t.length matches Some(n) ==> plan::total(seq![t]) == n,
        t.length is None ==> plan::total(seq![t]) == 0,
    decreases b.len(),
{
    let one = seq![t];
    assert(one.drop_last() =~= Seq::<TrackLine>::empty());
    assert(one.last() == t);
    assert(plan::total(one) == plan::total(one.drop_last()) + (match t.length {
        Some(n) => n,
        None => 0,
    }));
    if b.len() == 0 {
        assert(a + b =~= a);
    } else {
        law_lengths_add_up(a, b.drop_last(), t);
        assert((a + b).drop_last() =~= a + b.drop_last());
        assert((a + b).last() == b.last());
    }
}

// What the plan takes from the files.

/// The value of a field in a file's tags, where it says something.
pub open spec fn says(t: Tags, f: Field) -> Option<Seq<char>> {
    match t.value(f) {
        Some(v) => if v.len() > 0 {
            Some(v)
        } else {
            None
        },
        None => None,
    }
}

/// Of artist, date, album, location and comment, the show has what the first file that says
/// anything says; and nothing where none does.
pub proof fn law_first_value_is_used(
    show: Tags,
    fs: Seq<(AudioFile, Tags)>,
    f: Field,
    k: int,
)
    requires
        plan::is_show(show, fs),
        f is Artist || f is Date || f is Album || f is Location || f is Comment,
        0 <= k <= fs.len(),
        forall|j: int| 0 <= j < k ==> says((#[trigger] fs[j]).1, f) is None,
        k < fs.len() ==> says(fs[k].1, f) is Some,
    ensures
        k < fs.len() ==> show.value(f) == says(fs[k].1, f),
        k == fs.len() ==> show.value(f) is None,
{
    let fields = plan::show_fields();
    assert(fields[0] is Artist && fields[1] is Date && fields[2] is Album && fields[3] is Location
        && fields[4] is Comment);
    assert(fields.contains(f));
    lemma_first_value(fs, f, k);
    assert(show.value(f) == show.value(f));
}

proof fn lemma_first_value(fs: Seq<(AudioFile, Tags)>, f: Field, k: int)
    requires
        0 <= k <= fs.len(),
        forall|j: int| 0 <= j < k ==> says((#[trigger] fs[j]).1, f) is None,
        k < fs.len() ==> says(fs[k].1, f) is Some,
    ensures
        k < fs.len() ==> plan::values_of(fs, f).len() > 0 && says(fs[k].1, f) == Some(
            plan::values_of(fs, f)[0],
        ),
        k == fs.len() ==> plan::values_of(fs, f).len() == 0,
    decreases fs.len(),
{
    if fs.len() > 0 {
        let front = fs.drop_last();
        let n = front.len() as int;
        let at = if k <= n {
            k
        } else {
            n
        };
        assert forall|j: int| 0 <= j < at implies says((#[trigger] front[j]).1, f) is None by {
            assert(front[j] == fs[j]);
        }
        lemma_first_value(front, f, at);
        assert(fs[n] == fs.last());
    }
}

/// Two files that say different things of a field are reported, with what the first of them
/// says first.
pub proof fn law_disagreement_is_seen(fs: Seq<(AudioFile, Tags)>, f: Field, i: int, j: int)
    requires
        0 <= i < fs.len(),
        0 <= j < fs.len(),
        says(fs[i].1, f) is Some,
        says(fs[j].1, f) is Some,
        says(fs[i].1, f) != says(fs[j].1, f),
        f is Artist || f is Date || f is Album || f is Location || f is Comment,
    ensures
        plan::disagreements(fs, 5).contains(Trouble::Disagrees(f, plan::values_of(fs, f))),
        plan::values_of(fs, f).contains(says(fs[i].1, f)->0),
        plan::values_of(fs, f).contains(says(fs[j].1, f)->0),
{
    lemma_value_kept(fs, f, i);
    lemma_value_kept(fs, f, j);
    let vs = plan::values_of(fs, f);
    assert(vs.len() > 1) by {
        let a = choose|a: int| 0 <= a < vs.len() && vs[a] == says(fs[i].1, f)->0;
        let b = choose|b: int| 0 <= b < vs.len() && vs[b] == says(fs[j].1, f)->0;
        assert(a != b);
    }
    let fields = plan::show_fields();
    let k: int = match f {
        Field::Artist => 1,
        Field::Date => 2,
        Field::Album => 3,
        Field::Location => 4,
        _ => 5,
    };
    assert(fields[k - 1] == f);
    lemma_disagrees(fs, k, 5);
}

proof fn lemma_disagrees(fs: Seq<(AudioFile, Tags)>, k: int, n: int)
    requires
        1 <= k <= n <= 5,
        plan::values_of(fs, plan::show_fields()[k - 1]).len() > 1,
    ensures
        plan::disagreements(fs, n).contains(
            Trouble::Disagrees(
                plan::show_fields()[k - 1],
                plan::values_of(fs, plan::show_fields()[k - 1]),
            ),
        ),
    decreases n,
{
    let all = plan::disagreements(fs, n);
    let rest = plan::disagreements(fs, n - 1);
    let f = plan::show_fields()[k - 1];
    let t = Trouble::Disagrees(f, plan::values_of(fs, f));
    if k < n {
        lemma_disagrees(fs, k, n - 1);
        let i = choose|i: int| 0 <= i < rest.len() && rest[i] == t;
        assert(all[i] == t);
    } else {
        assert(all.last() == t);
    }
}

proof fn lemma_value_kept(fs: Seq<(AudioFile, Tags)>, f: Field, i: int)
    requires
        0 <= i < fs.len(),
        says(fs[i].1, f) is Some,
    ensures
        plan::values_of(fs, f).contains(says(fs[i].1, f)->0),
    decreases fs.len(),
{
    let front = fs.drop_last();
    let rest = plan::values_of(front, f);
    let all = plan::values_of(fs, f);
    let v = says(fs[i].1, f)->0;
    if i < front.len() {
        assert(front[i] == fs[i]);
        lemma_value_kept(front, f, i);
        let k = choose|k: int| 0 <= k < rest.len() && rest[k] == v;
        assert(all[k] == v);
    } else if !rest.contains(v) {
        assert(all.last() == v);
    }
}

/// Every FLAC file of a set is a track of its plan, in turn, with its title and its length; a
/// file of another format is no track, and is reported.
pub proof fn law_flac_files_are_tracks(files: Seq<AudioFile>, tags: Seq<Tags>)
    requires
        tags.len() >= files.len(),
    ensures
        ({
            let fs = plan::flacs(files, tags);
            &&& forall|i: int|
                0 <= i < files.len() && (#[trigger] files[i]).format is Flac ==> fs.contains(
                    (files[i], tags[i]),
                )
            &&& forall|k: int| 0 <= k < fs.len() ==> (#[trigger] fs[k]).0.format is Flac
            &&& forall|i: int|
                0 <= i < files.len() && !((#[trigger] files[i]).format is Flac)
                    ==> plan::left_out(files).contains(
                    Trouble::NotFlac(crate::path::name_of(files[i].path@)),
                )
            &&& fs.len() + plan::left_out(files).len() == files.len()
        }),
    decreases files.len(),
{
    let fs = plan::flacs(files, tags);
    let out = plan::left_out(files);
    if files.len() > 0 {
        let front = files.drop_last();
        let n = front.len() as int;
        law_flac_files_are_tracks(front, tags);
        let had = plan::flacs(front, tags);
        let gone = plan::left_out(front);
        assert(files[n] == files.last());
        assert forall|i: int| 0 <= i < files.len() && (#[trigger] files[i]).format is Flac implies
            fs.contains((files[i], tags[i])) by {
            if i < n {
                assert(front[i] == files[i]);
                let k = choose|k: int| 0 <= k < had.len() && had[k] == (files[i], tags[i]);
                assert(fs[k] == had[k]);
            } else {
                assert(fs.last() == (files[i], tags[i]));
            }
        }
        assert forall|i: int| 0 <= i < files.len() && !((#[trigger] files[i]).format is Flac)
            implies out.contains(Trouble::NotFlac(crate::path::name_of(files[i].path@))) by {
            let t = Trouble::NotFlac(crate::path::name_of(files[i].path@));
            if i < n {
                assert(front[i] == files[i]);
                let k = choose|k: int| 0 <= k < gone.len() && gone[k] == t;
                assert(out[k] == t);
            } else {
                assert(out.last() == t);
            }
        }
    }
}

/// A disc, or a set without discs, of nothing but CD audio is reported as too long for a CD-R
/// when it is longer than eighty minutes, and no other is.
pub proof fn law_eighty_minutes_fit_a_disc(tracks: Seq<TrackLine>, n: int, k: int)
    requires
        0 <= k < n <= plan::runs(tracks, 0).len(),
    ensures
        ({
            let rs = plan::runs(tracks, 0);
            let (from, to) = rs[k];
            let run = tracks.subrange(from, to);
            let long = forall|i: int| from <= i < to ==> (#[trigger] tracks[i]).is_cdda;
            let t = Trouble::TooLongForCd(tracks[from].disc, plan::total(run));
            &&& long && plan::total(run) > 80 * 60 * FLICKS ==> plan::too_long(
                tracks,
                rs,
                n,
            ).contains(t)
            &&& forall|i: int|
                0 <= i < plan::too_long(tracks, rs, n).len() ==> (
                #[trigger] plan::too_long(tracks, rs, n)[i] matches Trouble::TooLongForCd(_, length)
                    && length > 80 * 60 * FLICKS)
        }),
    decreases n,
{
    let rs = plan::runs(tracks, 0);
    let (from, to) = rs[k];
    let run = tracks.subrange(from, to);
    let all = plan::too_long(tracks, rs, n);
    let rest = plan::too_long(tracks, rs, n - 1);
    let t = Trouble::TooLongForCd(tracks[from].disc, plan::total(run));
    plan::law_runs_cut_the_set_by_disc(tracks, 0, k);
    if forall|i: int| from <= i < to ==> (#[trigger] tracks[i]).is_cdda {
        assert forall|i: int| 0 <= i < run.len() implies (#[trigger] run[i]).is_cdda by {
            assert(run[i] == tracks[from + i]);
        }
        assert(plan::all_cdda(run));
    }
    if k < n - 1 {
        law_eighty_minutes_fit_a_disc(tracks, n - 1, k);
        if rest.contains(t) {
            let i = choose|i: int| 0 <= i < rest.len() && rest[i] == t;
            assert(all[i] == t);
        }
    } else {
        lemma_kinds(tracks, n - 1);
        if plan::all_cdda(run) && plan::total(run) > 80 * 60 * FLICKS {
            assert(all.last() == t);
        }
    }
    lemma_kinds(tracks, n);
}

proof fn lemma_kinds(tracks: Seq<TrackLine>, n: int)
    requires
        0 <= n <= plan::runs(tracks, 0).len(),
    ensures
        forall|i: int|
            0 <= i < plan::too_long(tracks, plan::runs(tracks, 0), n).len() ==> (
            #[trigger] plan::too_long(tracks, plan::runs(tracks, 0), n)[i]) is TooLongForCd,
        forall|i: int|
            0 <= i < plan::too_long(tracks, plan::runs(tracks, 0), n).len() ==> (
            #[trigger] plan::too_long(tracks, plan::runs(tracks, 0), n)[i])->TooLongForCd_1 > 80
                * 60 * FLICKS,
    decreases n,
{
    if n > 0 {
        lemma_kinds(tracks, n - 1);
    }
}

/// What is written is the text, character by character, with a carriage return before each line
/// end.
pub proof fn law_lines_end_in_crlf(s: Seq<char>, c: char)
    ensures
        render::with_crlf(Seq::<char>::empty()) == Seq::<char>::empty(),
        c == '\n' ==> render::with_crlf(s.push(c)) == render::with_crlf(s) + seq!['\r', '\n'],
        c != '\n' ==> render::with_crlf(s.push(c)) == render::with_crlf(s).push(c),
{
    lemma_crlf(s, c, 0);
    assert(render::with_crlf(s) + seq![c] =~= render::with_crlf(s).push(c));
}

proof fn lemma_crlf(s: Seq<char>, c: char, i: int)
    requires
        0 <= i <= s.len(),
    ensures
        text::replaced(s.push(c), "\n"@, "\r\n"@, i) == text::replaced(s, "\n"@, "\r\n"@, i) + (
        if c == '\n' {
            seq!['\r', '\n']
        } else {
            seq![c]
        }),
    decreases s.len() - i,
{
    reveal_strlit("\n");
    reveal_strlit("\r\n");
    let (nl, crlf) = ("\n"@, "\r\n"@);
    let t = s.push(c);
    assert(crlf =~= seq!['\r', '\n']);
    assert(t.subrange(i, i + 1) =~= seq![t[i]]);
    assert(nl =~= seq!['\n']);
    assert(seq![t[i]] == nl <==> t[i] == '\n') by {
        assert(seq![t[i]][0] == t[i]);
        assert(nl[0] == '\n');
    }
    assert(text::occurs_at(t, nl, i) == (t[i] == '\n'));
    if i < s.len() {
        lemma_crlf(s, c, i + 1);
        assert(s.subrange(i, i + 1) =~= t.subrange(i, i + 1));
        assert(text::occurs_at(s, nl, i) == text::occurs_at(t, nl, i));
        let end = if c == '\n' {
            seq!['\r', '\n']
        } else {
            seq![c]
        };
        let rest = text::replaced(s, nl, crlf, i + 1);
        assert(crlf + (rest + end) =~= crlf + rest + end);
        assert(seq![s[i]] + (rest + end) =~= seq![s[i]] + rest + end);
    } else {
        let none = text::replaced(t, nl, crlf, i + 1);
        assert(none =~= Seq::<char>::empty());
        assert(crlf + none =~= crlf);
        assert(seq![c] + none =~= seq![c]);
        let had = text::replaced(s, nl, crlf, i);
        assert(had =~= Seq::<char>::empty());
        assert(had + crlf =~= crlf);
        assert(had + seq![c] =~= seq![c]);
    }
}

} // verus!
