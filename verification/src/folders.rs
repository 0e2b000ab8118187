//! How the folders of shows are read, and what the files beside their tracks are called.

use crate::etree;
use crate::etree::{ShowDate, ShowFormat, ShowParts, TrackParts, YearForm};
use crate::infofile::plan;
use crate::output;
use crate::path;
use crate::text;
use crate::torrent::create;
use crate::torrent::metainfo;
use crate::torrent::noise;
use vstd::prelude::*;

verus! {

/// A band that has no dash and no dot in it.
pub open spec fn is_plain_band(band: Seq<char>) -> bool {
    etree::is_band(band) && !band.contains('-') && !band.contains('.')
}

proof fn lemma_one_part(s: Seq<char>)
    requires
        !s.contains('.'),
    ensures
        text::split_on(s, '.') == seq![s],
{
    let none = Seq::<char>::empty();
    text::lemma_split_extend(none, s, '.');
    assert(none + s =~= s);
    assert(text::split_on(none, '.').drop_last() =~= Seq::<Seq<char>>::empty());
    assert(text::split_on(s, '.') =~= seq![s]);
}

proof fn lemma_more_parts(s: Seq<char>, b: Seq<char>)
    requires
        !b.contains('.'),
    ensures
        text::split_on(s + seq!['.'] + b, '.') == text::split_on(s, '.').push(b),
{
    let none = Seq::<char>::empty();
    let t = s + seq!['.'];
    assert(t.drop_last() =~= s);
    text::lemma_split_extend(t, b, '.');
    assert(none + b =~= b);
    assert(text::split_on(t + b, '.') =~= text::split_on(s, '.').push(b));
}

proof fn lemma_date_has_no_dot(d: ShowDate)
    requires
        d.valid(),
        d.fits(YearForm::Long),
    ensures
        !etree::date_text(d, YearForm::Long).contains('.'),
        forall|k: int|
            0 <= k < 4 ==> #[trigger] etree::date_text(d, YearForm::Long)[k] != '-',
{
    let date = etree::date_text(d, YearForm::Long);
    etree::law_date_round_trip(d, YearForm::Long);
    assert(etree::has_date_shape(date, 4) || etree::has_date_shape(date, 2));
    assert(etree::has_date_shape(date, 4));
    assert forall|k: int| 0 <= k < 4 implies #[trigger] date[k] != '-' by {
        assert(text::is_digit(date.take(4)[k]));
    }
    if date.contains('.') {
        let k = choose|k: int| 0 <= k < date.len() && date[k] == '.';
        if k < 4 {
            assert(text::is_digit(date.take(4)[k]));
        }
    }
}

/// A folder whose name is a band and a date is that show, with nothing said of it but that.
pub proof fn law_show_folder_is_read(band: Seq<char>, d: ShowDate)
    requires
        is_plain_band(band),
        d.valid(),
        d.fits(YearForm::Long),
    ensures
        etree::parse_show(band + etree::date_text(d, YearForm::Long)) matches Some(s) && s.band
            == band && s.date == d && s.year_form is Long && s.segments.len() == 0 && s.format
            is None,
{
    let date = etree::date_text(d, YearForm::Long);
    let name = band + date;
    let n = band.len() as int;
    etree::law_date_round_trip(d, YearForm::Long);
    lemma_date_has_no_dot(d);
    if name.contains('.') {
        let k = choose|k: int| 0 <= k < name.len() && name[k] == '.';
        if k < n {
            assert(band[k] == '.');
        } else {
            assert(date[k - n] == '.');
        }
    }
    lemma_one_part(name);
    let parts = text::split_on(name, '.');
    assert(parts[0] == name);
    assert(name.subrange(n, n + 10) =~= date);
    assert(name.take(n) =~= band);
    assert(etree::date_around(name, n + 4, 4));
    assert forall|k: int| 0 <= k < n + 4 implies #[trigger] name[k] != '-' by {
        if k < n {
            assert(band.contains(band[k]));
        } else {
            assert(date[k - n] != '-');
        }
    }
    etree::lemma_find_date_from(name, 0, n + 4);
    assert(parts.skip(1) =~= Seq::<Seq<char>>::empty());
}

/// What follows behind a dot is a segment of its own, unless it is the tag of a format; the
/// band and the date are as they were.
pub proof fn law_folder_segments_follow(name: Seq<char>, s: ShowParts, seg: Seq<char>)
    requires
        etree::parse_show(name) == Some(s),
        s.format is None,
        !seg.contains('.'),
    ensures
        etree::parse_show(name + seq!['.'] + seg) matches Some(t) && t.band == s.band && t.date
            == s.date && t.year_form == s.year_form && (etree::show_format(seg) is None
            ==> t.segments == s.segments.push(seg) && t.format is None) && (etree::show_format(
            seg,
        ) is Some ==> t.segments == s.segments && t.format == etree::show_format(seg)),
{
    lemma_more_parts(name, seg);
    let parts = text::split_on(name, '.');
    text::lemma_split_on_nonempty(name, '.');
    let all = parts.push(seg);
    assert(all[0] == parts[0]);
    let after = all.skip(1);
    assert(after =~= parts.skip(1).push(seg));
    assert(after.last() == seg);
    assert(after.drop_last() =~= parts.skip(1));
}

/// The tags of formats are `shnf`, `flac16` and `flac24`, and no others.
pub proof fn law_format_tags_are_told(seg: Seq<char>)
    ensures
        etree::show_format(seg) == Some(ShowFormat::Shnf) <==> seg == seq!['s', 'h', 'n', 'f'],
        etree::show_format(seg) == Some(ShowFormat::Flac16) <==> seg == seq![
            'f',
            'l',
            'a',
            'c',
            '1',
            '6',
        ],
        etree::show_format(seg) == Some(ShowFormat::Flac24) <==> seg == seq![
            'f',
            'l',
            'a',
            'c',
            '2',
            '4',
        ],
{
    reveal_strlit("shnf");
    reveal_strlit("flac16");
    reveal_strlit("flac24");
    assert("shnf"@ =~= seq!['s', 'h', 'n', 'f']);
    assert("flac16"@ =~= seq!['f', 'l', 'a', 'c', '1', '6']);
    assert("flac24"@ =~= seq!['f', 'l', 'a', 'c', '2', '4']);
    assert("flac16"@[4] != "flac24"@[4]);
    assert("shnf"@.len() == 4 && "flac16"@.len() == 6 && "flac24"@.len() == 6);
}

/// The info file of a show is called by its band and date, whatever else the folder's name
/// says.
pub proof fn law_info_file_is_called_by_the_show(
    folder: Seq<char>,
    s: ShowParts,
    first: Option<Seq<char>>,
)
    requires
        etree::parse_show(folder) == Some(s),
    ensures
        plan::name_for(folder, first) == s.band + etree::date_text(s.date, s.year_form) + seq![
            '.',
            't',
            'x',
            't',
        ],
{
    reveal_strlit(".txt");
    assert(".txt"@ =~= seq!['.', 't', 'x', 't']);
}

/// In a folder that does not name its show it is called by the first track's band and date,
/// and by the folder itself where that says nothing either.
pub proof fn law_info_file_falls_back(folder: Seq<char>, t: TrackParts)
    requires
        etree::parse_show(folder) is None,
        etree::well_formed(t),
        etree::own_date(t),
    ensures
        plan::name_for(folder, Some(etree::track_text(t))) == t.band + etree::date_text(
            t.date,
            t.year_form,
        ) + seq!['.', 't', 'x', 't'],
        plan::name_for(folder, None) == folder + seq!['.', 't', 'x', 't'],
{
    reveal_strlit(".txt");
    assert(".txt"@ =~= seq!['.', 't', 'x', 't']);
    etree::law_rendered_track_parses_back(t);
}

/// A track with an etree name keeps the disc and the number of its name; any other goes by
/// its place, counted from one.
pub proof fn law_tracks_are_placed(t: TrackParts, name: Seq<char>, i: int)
    requires
        etree::well_formed(t),
        etree::own_date(t),
        0 <= i,
    ensures
        plan::place_of(etree::track_text(t), i).0 == t.disc,
        plan::place_of(etree::track_text(t), i).1 == t.track,
        etree::parse_track(name) is None ==> plan::place_of(name, i).0 is None && plan::place_of(
            name,
            i,
        ).1 == i + 1,
{
    etree::law_rendered_track_parses_back(t);
}

/// A track is labelled by a `t` and its number in at least two digits, behind a `d` and its
/// disc where it has one.
pub proof fn law_tracks_are_labelled(disc: u32, n: nat)
    ensures
        n < 10 ==> plan::label_of(None, n) == seq!['t', '0', text::digit_char(n)],
        n >= 10 ==> plan::label_of(None, n) == seq!['t'] + text::decimal(n),
        plan::label_of(Some(disc), n) == seq!['d'] + text::decimal(disc as nat) + plan::label_of(
            None,
            n,
        ),
{
    reveal_strlit("t");
    reveal_strlit("d");
    text::lemma_decimal_len(n);
    assert("t"@ =~= seq!['t']);
    assert("d"@ =~= seq!['d']);
    if n < 10 {
        reveal_with_fuel(text::decimal, 2);
        assert(text::decimal(n) =~= seq![text::digit_char(n)]);
        assert(text::padded(n, 2) =~= seq!['0', text::digit_char(n)]);
        assert(plan::label_of(None, n) =~= seq!['t', '0', text::digit_char(n)]);
    } else {
        reveal_with_fuel(text::decimal, 3);
        assert(text::decimal(n).len() >= 2);
        assert(text::padded(n, 2) =~= text::decimal(n));
    }
    assert(plan::label_of(Some(disc), n) =~= seq!['d'] + text::decimal(disc as nat)
        + plan::label_of(None, n));
}

/// While it is being built an output stands beside where it will be, under a name that no
/// torrent takes in and that is not its own.
pub proof fn law_unfinished_output_is_hidden(dir: Seq<char>, name: Seq<char>, pid: nat)
    requires
        dir.len() > 0,
        dir.last() != '/',
        dir.len() >= 2 ==> !(dir.last() == '.' && dir[dir.len() - 2] == '/'),
        name.len() > 0,
        name != seq!['.'],
        name != seq!['.', '.'],
        !name.contains('/'),
    ensures
        ({
            let staged = output::staged_path(dir.push('/') + name, pid);
            &&& path::parent(staged) == Some(dir)
            &&& path::name_of(staged)[0] == '.'
            &&& path::name_of(staged) != name
            &&& noise::is_debris(path::name_of(staged))
            &&& create::is_noise(path::name_of(staged))
        }),
{
    path::law_path_is_folder_and_name(dir, name);
    let pre = "."@;
    let mid = ".lh-"@;
    let end = ".part"@;
    reveal_strlit(".");
    reveal_strlit(".lh-");
    reveal_strlit(".part");
    let number = text::decimal(pid);
    text::lemma_decimal(pid);
    let hidden = pre + name + mid + number + end;
    assert(!hidden.contains('/')) by {
        if hidden.contains('/') {
            let k = choose|k: int| 0 <= k < hidden.len() && hidden[k] == '/';
            let (a, b, c) = (1int, 1 + name.len(), 5 + name.len());
            if a <= k < b {
                assert(name[k - 1] == '/');
            } else if c <= k < c + number.len() {
                assert(text::is_digit(number[k - c]));
            }
        }
    }
    assert(hidden.len() > name.len() + 9);
    path::law_path_is_folder_and_name(dir, hidden);
    let dot = seq!['.'];
    let part = seq!['.', 'p', 'a', 'r', 't'];
    assert(end =~= part);
    let rest = name + mid + number + end;
    assert(hidden =~= dot + rest);
    let stem = pre + name + mid + number;
    assert(hidden == stem + part);
    assert(noise::starts_in(hidden, dot));
    assert(noise::ends_in(hidden, part));
    assert(metainfo::starts_with(hidden, pre)) by {
        assert(hidden.take(1) =~= pre);
    }
    assert(create::ends_with(hidden, end)) by {
        assert(hidden.skip(hidden.len() - end.len()) =~= end);
    }
}

} // verus!
