//! How the names of shows and tracks are spelled.

use crate::checksum;
use crate::checksum::ChecksumKind;
use crate::convert;
use crate::etree;
use crate::etree::{ShowDate, TrackParts, YearForm};
use crate::model;
use crate::model::AudioFormat;
use crate::path;
use crate::rename::plan;
use crate::rename::plan::NameSpec;
use crate::text;
use crate::torrent::create;
use vstd::prelude::*;

verus! {

/// A date is spelled as its year, in four digits or in its last two, its month and its day, in
/// two digits each, with a dash between them.
pub proof fn law_dates_are_spelled(d: ShowDate, form: YearForm)
    requires
        d.valid(),
        d.year <= 9999,
    ensures
        ({
            let s = etree::date_text(d, form);
            let n: int = if form is Long {
                4
            } else {
                2
            };
            &&& s.len() == n + 6
            &&& text::all_digits(s.take(n))
            &&& text::digits_value(s.take(n)) == if form is Long {
                d.year as int
            } else {
                d.year as int % 100
            }
            &&& s[n] == '-'
            &&& text::digits_value(s.subrange(n + 1, n + 3)) == d.month
            &&& s[n + 3] == '-'
            &&& text::digits_value(s.subrange(n + 4, n + 6)) == d.day
        }),
{
    let n: nat = if form is Long {
        4
    } else {
        2
    };
    let y: nat = match form {
        YearForm::Long => d.year as nat,
        YearForm::Short => d.year as nat % 100,
    };
    let (year, month, day) = (
        text::padded(y, n),
        text::padded(d.month as nat, 2),
        text::padded(d.day as nat, 2),
    );
    text::lemma_padded(y, n);
    text::lemma_padded(d.month as nat, 2);
    text::lemma_padded(d.day as nat, 2);
    text::lemma_decimal_len(y);
    text::lemma_decimal_len(d.month as nat);
    text::lemma_decimal_len(d.day as nat);
    assert(etree::month_days(d.year as int, d.month as int) <= 31);
    let s = etree::date_text(d, form);
    assert(s.take(n as int) =~= year);
    assert(s.subrange(n as int + 1, n as int + 3) =~= month);
    assert(s.subrange(n as int + 4, n as int + 6) =~= day);
}

/// A date that is read is a day of the calendar, and two digits of a year stand for the one
/// from 1931 to 2030 that ends in them.
pub proof fn law_dates_are_read(s: Seq<char>)
    ensures
        etree::parse_date(s) matches Some((d, form)) ==> {
            let (y, m) = (d.year as int, d.month as int);
            &&& 1 <= m <= 12
            &&& 1 <= d.day <= if m == 2 {
                if y % 400 == 0 || (y % 4 == 0 && y % 100 != 0) {
                    29int
                } else {
                    28int
                }
            } else if m == 4 || m == 6 || m == 9 || m == 11 {
                30int
            } else {
                31int
            }
            &&& form is Long ==> text::digits_value(s.take(4)) == y
            &&& form is Short ==> 1931 <= y <= 2030 && y % 100 == text::digits_value(s.take(2))
        },
{
    if let Some((d, form)) = etree::parse_date(s) {
        let n = form.digits();
        let t = s.take(n);
        assert(text::all_digits(t));
        lemma_few_digits(t);
    }
}

proof fn lemma_few_digits(t: Seq<char>)
    requires
        text::all_digits(t),
        t.len() <= 4,
    ensures
        text::digits_value(t) <= 9999,
        t.len() <= 2 ==> text::digits_value(t) <= 99,
{
    reveal_with_fuel(text::digits_value, 5);
    assert forall|i: int| 0 <= i < t.len() implies text::digit_value(#[trigger] t[i]) <= 9 by {
        assert(text::is_digit(t[i]));
    }
    if t.len() > 0 {
        assert(t.last() == t[t.len() - 1]);
        let a = t.drop_last();
        if a.len() > 0 {
            assert(a.last() == t[t.len() - 2]);
            let b = a.drop_last();
            if b.len() > 0 {
                assert(b.last() == t[t.len() - 3]);
                let c = b.drop_last();
                if c.len() > 0 {
                    assert(c.last() == t[t.len() - 4]);
                }
            }
        }
    }
}

/// A track is called by its band, its date, its disc behind a `d` where it has one, its number
/// behind a `t` in at least two digits, its suffix, and its extension behind a dot.
pub open spec fn spelled(
    band: Seq<char>,
    date: Seq<char>,
    disc: Option<u32>,
    number: nat,
    suffix: Seq<char>,
    ext: Seq<char>,
) -> Seq<char> {
    band + date + (match disc {
        Some(d) => seq!['d'] + text::decimal(d as nat),
        None => Seq::empty(),
    }) + seq!['t'] + text::padded(number, 2) + suffix + seq!['.'] + ext
}

pub proof fn law_track_names_are_spelled(t: TrackParts)
    ensures
        etree::track_text(t) == spelled(
            t.band,
            etree::date_text(t.date, t.year_form),
            t.disc,
            t.track as nat,
            match t.suffix {
                Some(s) => s,
                None => Seq::empty(),
            },
            t.ext,
        ),
{
    let want = spelled(
        t.band,
        etree::date_text(t.date, t.year_form),
        t.disc,
        t.track as nat,
        match t.suffix {
            Some(s) => s,
            None => Seq::empty(),
        },
        t.ext,
    );
    assert(etree::track_text(t) =~= want);
}

/// A file that is renamed stays in its folder and keeps what follows its last dot. Its name is
/// that of the band, the date and the disc that were asked for, and of its place in the set,
/// counted from one; its suffix is kept only where that was asked for.
pub proof fn law_renamed_file_is_called_by_its_place(
    files: Seq<String>,
    spec: NameSpec,
    i: int,
    stem: Seq<char>,
    ext: Seq<char>,
)
    requires
        0 <= i < files.len() <= u32::MAX,
        path::file_name(files[i]@) == Some(stem.push('.') + ext),
        !ext.contains('.'),
        !spec.band@.contains('/'),
    ensures
        ({
            let to = plan::target_of(files, spec, i);
            let suffix = match etree::parse_track(stem.push('.') + ext) {
                Some(t) => match t.suffix {
                    Some(s) => if spec.keep_suffix {
                        s
                    } else {
                        Seq::empty()
                    },
                    None => Seq::empty(),
                },
                None => Seq::empty(),
            };
            &&& path::parent(to) == path::parent(files[i]@)
            &&& path::file_name(to) == Some(
                spelled(
                    spec.band@,
                    etree::date_text(
                        spec.date,
                        if spec.short_year {
                            YearForm::Short
                        } else {
                            YearForm::Long
                        },
                    ),
                    spec.disc,
                    (i + 1) as nat,
                    suffix,
                    ext,
                ),
            )
        }),
{
    let from = files[i]@;
    let name = stem.push('.') + ext;
    text::lemma_last_at_is(stem, '.', ext);
    assert(name.skip(stem.len() as int + 1) =~= ext);
    let track = (i + 1) as u32;
    let t = plan::target_name(from, spec, track);
    assert(t.ext == ext);
    law_track_names_are_spelled(t);
    let full = etree::track_text(t);
    plan::lemma_target_name(from, spec, track);
    path::lemma_with_name(from, full);
}

/// A suffix that is kept is the one that the name had.
pub proof fn law_suffix_is_kept(t: TrackParts, spec: NameSpec)
    requires
        etree::well_formed(t),
        etree::own_date(t),
    ensures
        plan::kept_suffix(etree::track_text(t), spec) == if spec.keep_suffix {
            t.suffix
        } else {
            None
        },
{
    etree::law_rendered_track_parses_back(t);
}

// Where things go.

/// A folder that is spelled without anything to spare.
pub open spec fn is_folder(dir: Seq<char>) -> bool {
    &&& dir.len() > 0
    &&& dir.last() != '/'
    &&& dir.len() >= 2 ==> !(dir.last() == '.' && dir[dir.len() - 2] == '/')
}

/// The stem of a name that has an extension.
pub open spec fn is_stem(stem: Seq<char>) -> bool {
    stem.len() > 0 && !stem.contains('/')
}

pub open spec fn is_ending(ext: Seq<char>) -> bool {
    ext.len() > 0 && !ext.contains('/') && !ext.contains('.')
}

proof fn lemma_named(dir: Seq<char>, stem: Seq<char>, ext: Seq<char>)
    requires
        is_folder(dir),
        is_stem(stem),
        is_ending(ext),
    ensures
        ({
            let name = stem.push('.') + ext;
            &&& path::file_name(dir.push('/') + name) == Some(name)
            &&& path::name_of(dir.push('/') + name) == name
            &&& path::parent(dir.push('/') + name) == Some(dir)
            &&& path::join(dir, name) == dir.push('/') + name
            &&& path::stem(name) == stem
            &&& path::extension(name) == Some(ext)
        }),
{
    let name = stem.push('.') + ext;
    lemma_no_slash(stem, ext);
    assert(name.len() >= 3);
    path::law_path_is_folder_and_name(dir, name);
    path::law_name_is_stem_and_extension(stem, ext);
}

proof fn lemma_no_slash(stem: Seq<char>, ext: Seq<char>)
    requires
        !stem.contains('/'),
        !ext.contains('/'),
    ensures
        !(stem.push('.') + ext).contains('/'),
{
    let name = stem.push('.') + ext;
    if name.contains('/') {
        let i = choose|i: int| 0 <= i < name.len() && name[i] == '/';
        if i < stem.len() {
            assert(stem[i] == '/');
        } else if i > stem.len() {
            assert(ext[i - stem.len() - 1] == '/');
        }
    }
}

/// A conversion goes beside its source, or into the folder that was named, under the same stem
/// with the new extension.
pub proof fn law_conversion_keeps_the_stem(
    dir: Seq<char>,
    stem: Seq<char>,
    old_ext: Seq<char>,
    ext: Seq<char>,
    out: Seq<char>,
)
    requires
        is_folder(dir),
        is_folder(out),
        is_stem(stem),
        is_ending(old_ext),
        is_ending(ext),
    ensures
        ({
            let src = dir.push('/') + (stem.push('.') + old_ext);
            &&& convert::destination_of(src, ext, None) == Some(
                dir.push('/') + (stem.push('.') + ext),
            )
            &&& convert::destination_of(src, ext, Some(out)) == Some(
                out.push('/') + (stem.push('.') + ext),
            )
        }),
{
    reveal_strlit(".");
    lemma_named(dir, stem, old_ext);
    lemma_named(dir, stem, ext);
    lemma_named(out, stem, ext);
    assert(stem + "."@ + ext =~= stem.push('.') + ext);
}

/// A source that was converted is moved into `_original` in its own folder, under its name.
pub proof fn law_original_keeps_its_name(dir: Seq<char>, stem: Seq<char>, ext: Seq<char>)
    requires
        is_folder(dir),
        is_stem(stem),
        is_ending(ext),
    ensures
        ({
            let name = stem.push('.') + ext;
            convert::is_original_of(
                dir.push('/') + name,
                dir.push('/') + "_original"@,
                dir.push('/') + "_original"@ + seq!['/'] + name,
            )
        }),
{
    reveal_strlit("_original");
    let name = stem.push('.') + ext;
    let o = "_original"@;
    assert(!o.contains('/'));
    assert(o[0] == '_');
    lemma_named(dir, stem, ext);
    path::law_path_is_folder_and_name(dir, o);
    let aside = dir.push('/') + o;
    assert(aside.last() == 'l');
    lemma_named(aside, stem, ext);
    assert(aside + seq!['/'] + name =~= aside.push('/') + name);
}

/// A sample goes beside the folder of its track, not into it, under the track's stem.
pub proof fn law_sample_goes_beside_the_show(
    above: Seq<char>,
    show: Seq<char>,
    stem: Seq<char>,
    ext: Seq<char>,
)
    requires
        is_folder(above),
        show.len() > 0,
        show != seq!['.'],
        show != seq!['.', '.'],
        !show.contains('/'),
        is_stem(stem),
        is_ending(ext),
    ensures
        crate::sample::encode::output_of(above.push('/') + show + seq!['/'] + (stem.push('.') + ext)) == Some(
            above.push('/') + (stem + ".sample.mp3"@),
        ),
{
    reveal_strlit(".sample.mp3");
    path::law_path_is_folder_and_name(above, show);
    let dir = above.push('/') + show;
    assert forall|k: int| 0 <= k < show.len() implies #[trigger] show[k] != '/' by {
        assert(show.contains(show[k]));
    }
    assert(dir.last() == show.last());
    assert(show.len() == 1 && show[0] == '.' ==> show =~= seq!['.']);
    assert(show.len() >= 2 ==> dir[dir.len() - 2] == show[show.len() - 2]);
    lemma_named(dir, stem, ext);
    let name = stem.push('.') + ext;
    assert(dir + seq!['/'] + name =~= dir.push('/') + name);
    let out = stem + ".sample.mp3"@;
    assert(!out.contains('/')) by {
        if out.contains('/') {
            let i = choose|i: int| 0 <= i < out.len() && out[i] == '/';
            if i < stem.len() {
                assert(stem[i] == '/');
            } else {
                assert(".sample.mp3"@[i - stem.len()] == '/');
            }
        }
    }
    assert(out.len() > 11);
    path::law_path_is_folder_and_name(above, out);
}

/// A torrent goes beside what it is made of, under its whole name.
pub proof fn law_torrent_goes_beside_its_source(dir: Seq<char>, name: Seq<char>)
    requires
        is_folder(dir),
        name.len() > 0,
        name != seq!['.'],
        name != seq!['.', '.'],
        !name.contains('/'),
    ensures
        create::output_of(dir.push('/') + name) == Some(dir.push('/') + (name + ".torrent"@)),
{
    reveal_strlit(".torrent");
    path::law_path_is_folder_and_name(dir, name);
    let out = name + ".torrent"@;
    assert(!out.contains('/')) by {
        if out.contains('/') {
            let i = choose|i: int| 0 <= i < out.len() && out[i] == '/';
            if i < name.len() {
                assert(name[i] == '/');
            } else {
                assert(".torrent"@[i - name.len()] == '/');
            }
        }
    }
    assert(out.len() > 8);
    path::law_path_is_folder_and_name(dir, out);
}

// What extensions stand for.

/// A file's format is told by its extension, in either case, and by nothing else of its path.
pub proof fn law_extension_tells_the_format(dir: Seq<char>, stem: Seq<char>, ext: Seq<char>)
    requires
        is_folder(dir),
        is_stem(stem),
        is_ending(ext),
    ensures
        ({
            let low = text::lowercase(ext);
            model::format_of_path(dir.push('/') + (stem.push('.') + ext)) == if low == "flac"@
                || low == "fla"@ {
                Some(AudioFormat::Flac)
            } else if low == "wav"@ || low == "wave"@ {
                Some(AudioFormat::Wav)
            } else if low == "shn"@ {
                Some(AudioFormat::Shn)
            } else if low == "ape"@ {
                Some(AudioFormat::Ape)
            } else if low == "wv"@ {
                Some(AudioFormat::Wv)
            } else if low == "tta"@ {
                Some(AudioFormat::Tta)
            } else {
                None
            }
        }),
{
    lemma_named(dir, stem, ext);
}

/// The kind of a checksum file is told by its extension, in either case.
pub proof fn law_extension_tells_the_kind(dir: Seq<char>, stem: Seq<char>, ext: Seq<char>)
    requires
        is_folder(dir),
        is_stem(stem),
        is_ending(ext),
    ensures
        ({
            let low = text::lowercase(ext);
            checksum::kind_of_path(dir.push('/') + (stem.push('.') + ext)) == if low == "ffp"@ {
                Some(ChecksumKind::Ffp)
            } else if low == "md5"@ {
                Some(ChecksumKind::Md5)
            } else if low == "st5"@ {
                Some(ChecksumKind::St5)
            } else {
                None
            }
        }),
{
    lemma_named(dir, stem, ext);
}

} // verus!
