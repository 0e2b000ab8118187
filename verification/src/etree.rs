//! The etree naming standards, as types.
//!
//! Two names carry the same facts in two shapes. A track is `bbYYYY-MM-DDdNtNN.flac`: band,
//! date, disc, track, optional title suffix. The show folder that holds it is
//! `bbYYYY-MM-DD.mics.taper.sourceid.sbestatus.flac16`. The first is parsed and rendered;
//! the second is only parsed, since renaming a show folder is deliberately not a thing that
//! can be done.
//!
//! A name is either an etree name or it is not, so every parser returns `Option` and never a
//! half-parse that silently drops a segment.

use crate::text;
use crate::text::{
    chars_of, digit_of, find_last, is_digit_char, parse_number, push_decimal, push_padded, same,
    slice_of, split_at_char,
};
use vstd::prelude::*;
use vstd::string::*;

verus! {

/// Two-digit years up to this are 20xx; the rest are 19xx.
pub const SHORT_YEAR_PIVOT: u16 = 30;

/// Which year form a name was written in. Kept because rendering has to give a name back in
/// the form that it came in.
#[derive(Debug, Clone, Copy, PartialEq, Eq, Structural)]
pub enum YearForm {
    /// `1977-05-08`
    Long,
    /// `77-05-08`
    Short,
}

impl YearForm {
    /// The digits of a year.
    pub open spec fn digits(self) -> int {
        match self {
            YearForm::Long => 4,
            YearForm::Short => 2,
        }
    }
}

/// The date of a show. Not a general calendar type: three fields and a validity check is all
/// that any part of this standard asks for.
#[derive(Debug, Clone, Copy, PartialEq, Eq, Structural)]
pub struct ShowDate {
    pub year: u16,
    pub month: u8,
    pub day: u8,
}

pub open spec fn is_leap(year: int) -> bool {
    year % 4 == 0 && (year % 100 != 0 || year % 400 == 0)
}

pub open spec fn month_days(year: int, month: int) -> int {
    if month == 2 {
        if is_leap(year) {
            29
        } else {
            28
        }
    } else if month == 4 || month == 6 || month == 9 || month == 11 {
        30
    } else if 1 <= month <= 12 {
        31
    } else {
        0
    }
}

fn days_in_month(year: u16, month: u8) -> (n: u8)
    ensures
        n == month_days(year as int, month as int),
{
    match month {
        1 | 3 | 5 | 7 | 8 | 10 | 12 => 31,
        4 | 6 | 9 | 11 => 30,
        2 => if year % 4 == 0 && (year % 100 != 0 || year % 400 == 0) {
            29
        } else {
            28
        },
        _ => 0,
    }
}

/// A day that the calendar has.
pub open spec fn exists_day(year: int, month: int, day: int) -> bool {
    1 <= month <= 12 && 1 <= day <= month_days(year, month)
}

/// The number that two digits at `i` write down.
pub open spec fn two_digits(s: Seq<char>, i: int) -> int {
    (text::digit_value(s[i]) * 10 + text::digit_value(s[i + 1])) as int
}

/// `n` digits for the year, then month and day, two digits each, dashes between.
pub open spec fn has_date_shape(s: Seq<char>, n: int) -> bool {
    &&& s.len() == n + 6
    &&& text::all_digits(s.take(n))
    &&& s[n] == '-'
    &&& text::is_digit(s[n + 1])
    &&& text::is_digit(s[n + 2])
    &&& s[n + 3] == '-'
    &&& text::is_digit(s[n + 4])
    &&& text::is_digit(s[n + 5])
}

/// The year that a number stands for in this form.
pub open spec fn year_of(n: int, form: YearForm) -> int {
    match form {
        YearForm::Long => n,
        YearForm::Short => if n <= SHORT_YEAR_PIVOT {
            2000 + n
        } else {
            1900 + n
        },
    }
}

/// The date that is written in this form, if it is and the calendar has it.
pub open spec fn date_in(s: Seq<char>, form: YearForm) -> Option<ShowDate> {
    let n = form.digits();
    if !has_date_shape(s, n) {
        None
    } else {
        let year = year_of(text::digits_value(s.take(n)) as int, form);
        let month = two_digits(s, n + 1);
        let day = two_digits(s, n + 4);
        if exists_day(year, month, day) {
            Some(ShowDate { year: year as u16, month: month as u8, day: day as u8 })
        } else {
            None
        }
    }
}

/// `YYYY-MM-DD` or `YY-MM-DD`.
pub open spec fn parse_date(s: Seq<char>) -> Option<(ShowDate, YearForm)> {
    match date_in(s, YearForm::Long) {
        Some(d) => Some((d, YearForm::Long)),
        None => match date_in(s, YearForm::Short) {
            Some(d) => Some((d, YearForm::Short)),
            None => None,
        },
    }
}

/// A date written in a form; a short year shows its last two digits.
pub open spec fn date_text(d: ShowDate, form: YearForm) -> Seq<char> {
    let year = match form {
        YearForm::Long => text::padded(d.year as nat, 4),
        YearForm::Short => text::padded(d.year as nat % 100, 2),
    };
    year.push('-') + text::padded(d.month as nat, 2).push('-') + text::padded(d.day as nat, 2)
}

impl ShowDate {
    pub open spec fn valid(self) -> bool {
        exists_day(self.year as int, self.month as int, self.day as int)
    }

    /// The year can be told from its digits in this form.
    pub open spec fn fits(self, form: YearForm) -> bool {
        match form {
            YearForm::Long => self.year <= 9999,
            YearForm::Short => 1931 <= self.year <= 2030,
        }
    }

    /// `None` for a date that does not exist. February 30th is a typo, not a show, and
    /// accepting it here would put it in a file name and in a `DATE` tag.
    pub fn new(year: u16, month: u8, day: u8) -> (r: Option<ShowDate>)
        ensures
            r == if exists_day(year as int, month as int, day as int) {
                Some(ShowDate { year, month, day })
            } else {
                None
            },
    {
        if month < 1 || month > 12 || day < 1 || day > days_in_month(year, month) {
            return None;
        }
        Some(ShowDate { year, month, day })
    }

    /// Parses `YYYY-MM-DD` or `YY-MM-DD`, reporting which form it was.
    ///
    /// Month and day must carry their leading zeros: `1977-5-8` is not a name that this
    /// standard produces, and guessing at it would mean guessing at the file name it belongs
    /// to.
    pub fn parse(s: &str) -> (r: Option<(ShowDate, YearForm)>)
        ensures
            r == parse_date(s@),
    {
        let v = chars_of(s);
        assert(v@.subrange(0, v@.len() as int) =~= v@);
        parse_date_at(&v, 0, v.len())
    }

    pub fn render(&self, form: YearForm) -> (s: String)
        ensures
            s@ == date_text(*self, form),
    {
        let mut s = String::new();
        match form {
            YearForm::Long => push_padded(&mut s, self.year as u64, 4),
            YearForm::Short => push_padded(&mut s, (self.year % 100) as u64, 2),
        }
        let ghost year = s@;
        s.push('-');
        push_padded(&mut s, self.month as u64, 2);
        s.push('-');
        push_padded(&mut s, self.day as u64, 2);
        assert(s@ =~= date_text(*self, form));
        s
    }

    /// ISO `YYYY-MM-DD`, which is what the `DATE` comment wants regardless of which form the
    /// file name uses.
    pub fn render_iso(&self) -> (s: String)
        ensures
            s@ == date_text(*self, YearForm::Long),
    {
        self.render(YearForm::Long)
    }
}

fn two_digits_at(v: &Vec<char>, i: usize) -> (n: u8)
    requires
        i + 2 <= v.len(),
        text::is_digit(v@[i as int]),
        text::is_digit(v@[i + 1]),
    ensures
        n == two_digits(v@, i as int),
        n < 100,
{
    (digit_of(v[i]) * 10 + digit_of(v[i + 1])) as u8
}

fn date_in_at(v: &Vec<char>, from: usize, to: usize, form: YearForm) -> (r: Option<ShowDate>)
    requires
        from <= to <= v.len(),
    ensures
        r == date_in(v@.subrange(from as int, to as int), form),
{
    let ghost s = v@.subrange(from as int, to as int);
    let n: usize = match form {
        YearForm::Long => 4,
        YearForm::Short => 2,
    };
    if to - from != n + 6 {
        return None;
    }
    let dash: usize = from + n;
    proof {
        assert(s[n as int] == v@[dash as int]);
        assert(s[n + 1] == v@[dash + 1]);
        assert(s[n + 2] == v@[dash + 2]);
        assert(s[n + 3] == v@[dash + 3]);
        assert(s[n + 4] == v@[dash + 4]);
        assert(s[n + 5] == v@[dash + 5]);
        assert(s.take(n as int) =~= v@.subrange(from as int, dash as int));
    }
    if v[dash] != '-' || v[dash + 3] != '-' || !is_digit_char(v[dash + 1]) || !is_digit_char(
        v[dash + 2],
    ) || !is_digit_char(v[dash + 4]) || !is_digit_char(v[dash + 5]) {
        return None;
    }
    let year: u16 = match parse_number(v, from, dash, 9999) {
        None => {
            proof {
                lemma_few_digits(s.take(n as int));
            }
            return None;
        },
        Some(y) => y as u16,
    };
    proof {
        lemma_few_digits(s.take(n as int));
    }
    let year: u16 = match form {
        YearForm::Long => year,
        YearForm::Short => if year <= SHORT_YEAR_PIVOT {
            2000 + year
        } else {
            1900 + year
        },
    };
    let month: u8 = two_digits_at(v, dash + 1);
    let day: u8 = two_digits_at(v, dash + 4);
    ShowDate::new(year, month, day)
}

/// Up to four digits write down less than ten thousand, two less than a hundred.
proof fn lemma_few_digits(s: Seq<char>)
    requires
        s.len() <= 4,
    ensures
        text::all_digits(s) ==> text::digits_value(s) <= 9999 && (s.len() <= 2
            ==> text::digits_value(s) <= 99),
{
    reveal_with_fuel(text::digits_value, 5);
    if text::all_digits(s) {
        assert(forall|i: int|
            0 <= i < s.len() ==> text::digit_value(#[trigger] s[i]) <= 9);
        if s.len() >= 1 {
            assert(text::digit_value(s[s.len() - 1]) <= 9);
        }
        if s.len() >= 2 {
            assert(text::digit_value(s[s.len() - 2]) <= 9);
            assert(s.drop_last().last() == s[s.len() - 2]);
        }
        if s.len() >= 3 {
            assert(text::digit_value(s[s.len() - 3]) <= 9);
            assert(s.drop_last().drop_last().last() == s[s.len() - 3]);
        }
        if s.len() >= 4 {
            assert(text::digit_value(s[s.len() - 4]) <= 9);
            assert(s.drop_last().drop_last().drop_last().last() == s[s.len() - 4]);
        }
    }
}

fn parse_date_at(v: &Vec<char>, from: usize, to: usize) -> (r: Option<(ShowDate, YearForm)>)
    requires
        from <= to <= v.len(),
    ensures
        r == parse_date(v@.subrange(from as int, to as int)),
{
    match date_in_at(v, from, to, YearForm::Long) {
        Some(d) => Some((d, YearForm::Long)),
        None => match date_in_at(v, from, to, YearForm::Short) {
            Some(d) => Some((d, YearForm::Short)),
            None => None,
        },
    }
}

/// Whether Unicode counts a character as alphabetic.
pub uninterp spec fn alphabetic(c: char) -> bool;

/// Whether Unicode counts a character as alphabetic or numeric.
pub uninterp spec fn alphanumeric(c: char) -> bool;

/// `char::is_alphabetic`: a property of the character alone; in ASCII, the letters.
pub assume_specification[ char::is_alphabetic ](c: char) -> (b: bool)
    ensures
        b == alphabetic(c),
        (c as u32) < 128 ==> b == is_ascii_letter(c),
;

/// `char::is_alphanumeric`: a property of the character alone; in ASCII, letters and digits.
pub assume_specification[ char::is_alphanumeric ](c: char) -> (b: bool)
    ensures
        b == alphanumeric(c),
        (c as u32) < 128 ==> b == (is_ascii_letter(c) || text::is_digit(c)),
;

pub open spec fn is_ascii_letter(c: char) -> bool {
    ('a' <= c && c <= 'z') || ('A' <= c && c <= 'Z')
}

pub open spec fn is_ascii_alnum(c: char) -> bool {
    is_ascii_letter(c) || text::is_digit(c)
}

fn ascii_alnum(c: char) -> (b: bool)
    ensures
        b == is_ascii_alnum(c),
{
    ('a' <= c && c <= 'z') || ('A' <= c && c <= 'Z') || is_digit_char(c)
}

/// A band abbreviation: at least one letter, and nothing but letters, digits, `_` and `-`.
///
/// Requiring a letter is what stops `1977-05-08d1t01.flac`, a name with no band at all, from
/// being read as band `19` and the short-year date `77-05-08`.
pub open spec fn is_band(s: Seq<char>) -> bool {
    &&& exists|i: int| 0 <= i < s.len() && alphabetic(#[trigger] s[i])
    &&& forall|i: int|
        0 <= i < s.len() ==> alphanumeric(#[trigger] s[i]) || s[i] == '_' || s[i] == '-'
}

fn band_ends_at(v: &Vec<char>, to: usize) -> (b: bool)
    requires
        to <= v.len(),
    ensures
        b == is_band(v@.take(to as int)),
{
    let ghost s = v@.take(to as int);
    let mut letter = false;
    let mut i: usize = 0;
    while i < to
        invariant
            i <= to <= v.len(),
            s == v@.take(to as int),
            letter == (exists|k: int| 0 <= k < i && alphabetic(#[trigger] s[k])),
            forall|k: int|
                0 <= k < i ==> alphanumeric(#[trigger] s[k]) || s[k] == '_' || s[k] == '-',
        decreases to - i,
    {
        let c = v[i];
        assert(s[i as int] == c);
        if !c.is_alphanumeric() && c != '_' && c != '-' {
            return false;
        }
        if c.is_alphabetic() {
            letter = true;
        }
        i += 1;
    }
    letter
}

/// Around the character at `dash` stands a date whose year has `n` digits, and before it a
/// band.
pub open spec fn date_around(stem: Seq<char>, dash: int, n: int) -> bool {
    &&& 0 <= dash - n
    &&& dash + 6 <= stem.len()
    &&& parse_date(stem.subrange(dash - n, dash + 6)) is Some
    &&& is_band(stem.take(dash - n))
}

/// Where the first such date starts, and where its first dash stands; the four-digit year is
/// tried before the two-digit one. `u21983-02-23` is `u2` in 1983.
pub open spec fn find_date(stem: Seq<char>, dash: int) -> Option<(int, int)>
    decreases stem.len() - dash,
{
    if dash < 0 || dash >= stem.len() {
        None
    } else if date_around(stem, dash, 4) {
        Some((dash - 4, dash))
    } else if date_around(stem, dash, 2) {
        Some((dash - 2, dash))
    } else {
        find_date(stem, dash + 1)
    }
}

/// Splits a stem into its band, its date, and whatever follows. The band has no fixed
/// length and can itself end in a digit, so the date is found rather than counted to.
fn split_band_date(v: &Vec<char>, end: usize) -> (r: Option<(usize, ShowDate, YearForm, usize)>)
    requires
        end <= v.len(),
    ensures
        match r {
            Some((start, date, form, rest)) => {
                let stem = v@.take(end as int);
                &&& start <= rest <= end
                &&& 6 <= rest
                &&& find_date(stem, 0) == Some((start as int, rest - 6))
                &&& parse_date(stem.subrange(start as int, rest as int)) == Some((date, form))
            },
            None => find_date(v@.take(end as int), 0) is None,
        },
{
    let ghost stem = v@.take(end as int);
    let mut dash: usize = 0;
    while dash < end
        invariant
            dash <= end <= v.len(),
            stem == v@.take(end as int),
            find_date(stem, 0) == find_date(stem, dash as int),
        decreases end - dash,
    {
        if v[dash] == '-' && end - dash >= 6 {
            if dash >= 4 {
                assert(stem.subrange(dash - 4, dash + 6) =~= v@.subrange(dash - 4, dash + 6));
                assert(stem.take(dash - 4) =~= v@.take(dash - 4));
                match parse_date_at(v, dash - 4, dash + 6) {
                    Some((date, form)) => {
                        if band_ends_at(v, dash - 4) {
                            assert(date_around(stem, dash as int, 4));
                            return Some((dash - 4, date, form, dash + 6));
                        }
                    },
                    None => {},
                }
            }
            if dash >= 2 {
                assert(stem.subrange(dash - 2, dash + 6) =~= v@.subrange(dash - 2, dash + 6));
                assert(stem.take(dash - 2) =~= v@.take(dash - 2));
                match parse_date_at(v, dash - 2, dash + 6) {
                    Some((date, form)) => {
                        if band_ends_at(v, dash - 2) {
                            assert(date_around(stem, dash as int, 2));
                            return Some((dash - 2, date, form, dash + 6));
                        }
                    },
                    None => {},
                }
            }
        } else {
            proof {
                if date_around(stem, dash as int, 4) {
                    lemma_date_needs_dash(stem, dash as int, 4);
                }
                if date_around(stem, dash as int, 2) {
                    lemma_date_needs_dash(stem, dash as int, 2);
                }
            }
        }
        dash += 1;
    }
    None
}

proof fn lemma_date_needs_dash(stem: Seq<char>, dash: int, n: int)
    requires
        n == 2 || n == 4,
        0 <= dash < stem.len(),
        date_around(stem, dash, n),
    ensures
        stem[dash] == '-',
        dash + 6 <= stem.len(),
{
    let s = stem.subrange(dash - n, dash + 6);
    assert(s.len() == n + 6);
    assert(s[n] == stem[dash]);
}

/// What a track's name says.
pub struct TrackParts {
    pub band: Seq<char>,
    pub date: ShowDate,
    pub year_form: YearForm,
    pub disc: Option<u32>,
    pub track: u32,
    pub suffix: Option<Seq<char>>,
    pub ext: Seq<char>,
}

/// How many digits a text starts with.
pub open spec fn digit_run(s: Seq<char>) -> int
    decreases s.len(),
{
    if s.len() == 0 || !text::is_digit(s[0]) {
        0
    } else {
        1 + digit_run(s.drop_first())
    }
}

proof fn lemma_digit_run(s: Seq<char>)
    ensures
        0 <= digit_run(s) <= s.len(),
        text::all_digits(s.take(digit_run(s))),
        digit_run(s) < s.len() ==> !text::is_digit(s[digit_run(s)]),
    decreases s.len(),
{
    if s.len() > 0 && text::is_digit(s[0]) {
        let rest = s.drop_first();
        lemma_digit_run(rest);
        let n = digit_run(s);
        assert forall|i: int| 0 <= i < n implies text::is_digit(#[trigger] s.take(n)[i]) by {
            if i > 0 {
                assert(rest.take(n - 1)[i - 1] == s[i]);
            }
        }
        if n < s.len() {
            assert(rest[n - 1] == s[n]);
        }
    }
}

/// A run of digits that something else follows is the whole run.
proof fn lemma_run_is(s: Seq<char>, n: int)
    requires
        0 <= n <= s.len(),
        text::all_digits(s.take(n)),
        n < s.len() ==> !text::is_digit(s[n]),
    ensures
        digit_run(s) == n,
    decreases s.len(),
{
    if n > 0 {
        assert(s.take(n)[0] == s[0]);
        let rest = s.drop_first();
        assert forall|i: int| 0 <= i < n - 1 implies text::is_digit(#[trigger] rest.take(n - 1)[i]) by {
            assert(s.take(n)[i + 1] == rest[i]);
        }
        lemma_run_is(rest, n - 1);
    }
}

/// `tNN`, and the suffix.
pub open spec fn parse_tail(s: Seq<char>) -> Option<(u32, Seq<char>)> {
    if s.len() == 0 || s[0] != 't' {
        None
    } else {
        let after = s.skip(1);
        let n = digit_run(after);
        match text::number(after.take(n), u32::MAX as nat) {
            Some(track) => Some((track as u32, after.skip(n))),
            None => None,
        }
    }
}

/// `dN` where there is one, `tNN`, and the suffix.
pub open spec fn parse_numbers(s: Seq<char>) -> Option<(Option<u32>, u32, Seq<char>)> {
    if s.len() > 0 && s[0] == 'd' {
        let after = s.skip(1);
        let n = digit_run(after);
        match text::number(after.take(n), u32::MAX as nat) {
            None => None,
            Some(disc) => match parse_tail(after.skip(n)) {
                Some((track, suffix)) => Some((Some(disc as u32), track, suffix)),
                None => None,
            },
        }
    } else {
        match parse_tail(s) {
            Some((track, suffix)) => Some((None, track, suffix)),
            None => None,
        }
    }
}

pub open spec fn is_extension(s: Seq<char>) -> bool {
    s.len() > 0 && forall|i: int| 0 <= i < s.len() ==> is_ascii_alnum(#[trigger] s[i])
}

/// Nothing for an empty suffix.
pub open spec fn some_suffix(s: Seq<char>) -> Option<Seq<char>> {
    if s.len() == 0 {
        None
    } else {
        Some(s)
    }
}

/// What a track's name says, if the whole of it is an etree track name.
pub open spec fn parse_track(name: Seq<char>) -> Option<TrackParts> {
    let dot = text::last_at(name, '.');
    if dot < 0 || !is_extension(name.skip(dot + 1)) {
        None
    } else {
        let stem = name.take(dot);
        match find_date(stem, 0) {
            None => None,
            Some((start, dash)) => {
                let (date, year_form) = parse_date(stem.subrange(start, dash + 6))->0;
                match parse_numbers(stem.skip(dash + 6)) {
                    None => None,
                    Some((disc, track, suffix)) => Some(
                        TrackParts {
                            band: stem.take(start),
                            date,
                            year_form,
                            disc,
                            track,
                            suffix: some_suffix(suffix),
                            ext: name.skip(dot + 1),
                        },
                    ),
                }
            },
        }
    }
}

pub open spec fn disc_text(disc: Option<u32>) -> Seq<char> {
    match disc {
        Some(n) => seq!['d'] + text::decimal(n as nat),
        None => Seq::empty(),
    }
}

pub open spec fn suffix_text(suffix: Option<Seq<char>>) -> Seq<char> {
    match suffix {
        Some(s) => s,
        None => Seq::empty(),
    }
}

/// The name without its extension.
pub open spec fn track_stem(t: TrackParts) -> Seq<char> {
    t.band + date_text(t.date, t.year_form) + disc_text(t.disc) + seq!['t'] + text::padded(
        t.track as nat,
        2,
    ) + suffix_text(t.suffix)
}

/// The name of a track. The track number is always at least two digits: without the zero,
/// 10 would come before 2 when files are sorted, and that order is what ends up on a disc.
pub open spec fn track_text(t: TrackParts) -> Seq<char> {
    track_stem(t).push('.') + t.ext
}

/// One track's file name: `gd1977-05-08d1t01.flac`, or with a title suffix,
/// `gd1973-02-09d1t01bertha.shn`.
#[derive(Debug, Clone, PartialEq, Eq)]
pub struct TrackName {
    pub band: String,
    pub date: ShowDate,
    pub year_form: YearForm,
    /// `None` for a set laid out without disc numbers at all.
    pub disc: Option<u32>,
    pub track: u32,
    /// Whatever followed the track number, if anything: usually the song title, run together
    /// and lowercase.
    pub suffix: Option<String>,
    /// Without the dot.
    pub ext: String,
}

impl View for TrackName {
    type V = TrackParts;

    open spec fn view(&self) -> TrackParts {
        TrackParts {
            band: self.band@,
            date: self.date,
            year_form: self.year_form,
            disc: self.disc,
            track: self.track,
            suffix: match self.suffix {
                Some(s) => Some(s@),
                None => None,
            },
            ext: self.ext@,
        }
    }
}

/// The number that the digits from `from` on write down, and where they end.
fn take_number(v: &Vec<char>, from: usize, end: usize) -> (r: Option<(u32, usize)>)
    requires
        from <= end <= v.len(),
    ensures
        ({
            let s = v@.subrange(from as int, end as int);
            let n = digit_run(s);
            match r {
                Some((x, at)) => from <= at <= end && at == from + n && text::number(
                    s.take(n),
                    u32::MAX as nat,
                ) == Some(x as nat),
                None => text::number(s.take(n), u32::MAX as nat) is None,
            }
        }),
{
    let ghost s = v@.subrange(from as int, end as int);
    let mut at: usize = from;
    while at < end && is_digit_char(v[at])
        invariant
            from <= at <= end <= v.len(),
            s == v@.subrange(from as int, end as int),
            forall|k: int| 0 <= k < at - from ==> text::is_digit(#[trigger] s[k]),
        decreases end - at,
    {
        assert(s[at - from] == v@[at as int]);
        at += 1;
    }
    proof {
        let n = at - from;
        assert forall|i: int| 0 <= i < n implies text::is_digit(#[trigger] s.take(n)[i]) by {
            assert(s[i] == s.take(n)[i]);
        }
        if at < end {
            assert(s[n] == v@[at as int]);
        }
        lemma_run_is(s, n);
        assert(s.take(n) =~= v@.subrange(from as int, at as int));
    }
    match parse_number(v, from, at, u32::MAX as u64) {
        Some(x) => Some((x as u32, at)),
        None => None,
    }
}

fn extension_from(v: &Vec<char>, from: usize) -> (b: bool)
    requires
        from <= v.len(),
    ensures
        b == is_extension(v@.skip(from as int)),
{
    let ghost ext = v@.skip(from as int);
    let mut i: usize = from;
    while i < v.len()
        invariant
            from <= i <= v.len(),
            ext == v@.skip(from as int),
            forall|k: int| 0 <= k < i - from ==> is_ascii_alnum(#[trigger] ext[k]),
        decreases v.len() - i,
    {
        assert(ext[i - from] == v@[i as int]);
        if !ascii_alnum(v[i]) {
            return false;
        }
        i += 1;
    }
    from < v.len()
}

/// The track number that stands from `at` on, and where its suffix starts.
fn tail_at(v: &Vec<char>, at: usize, end: usize) -> (r: Option<(u32, usize)>)
    requires
        at <= end <= v.len(),
    ensures
        ({
            let s = v@.subrange(at as int, end as int);
            match r {
                Some((track, from)) => at <= from <= end && parse_tail(s) == Some(
                    (track, v@.subrange(from as int, end as int)),
                ),
                None => parse_tail(s) is None,
            }
        }),
{
    let ghost s = v@.subrange(at as int, end as int);
    if at >= end || v[at] != 't' {
        return None;
    }
    assert(s[0] == 't');
    assert(s.skip(1) =~= v@.subrange(at + 1, end as int));
    match take_number(v, at + 1, end) {
        Some((track, from)) => {
            assert(s.skip(1).skip(digit_run(s.skip(1))) =~= v@.subrange(from as int, end as int));
            Some((track, from))
        },
        None => None,
    }
}

/// The disc and track numbers that stand from `at` on, and where the suffix starts.
fn numbers_at(v: &Vec<char>, at: usize, end: usize) -> (r: Option<(Option<u32>, u32, usize)>)
    requires
        at <= end <= v.len(),
    ensures
        ({
            let s = v@.subrange(at as int, end as int);
            match r {
                Some((disc, track, from)) => at <= from <= end && parse_numbers(s) == Some(
                    (disc, track, v@.subrange(from as int, end as int)),
                ),
                None => parse_numbers(s) is None,
            }
        }),
{
    let ghost s = v@.subrange(at as int, end as int);
    if at < end && v[at] == 'd' {
        assert(s[0] == 'd');
        assert(s.skip(1) =~= v@.subrange(at + 1, end as int));
        match take_number(v, at + 1, end) {
            Some((disc, next)) => {
                assert(s.skip(1).skip(digit_run(s.skip(1))) =~= v@.subrange(
                    next as int,
                    end as int,
                ));
                match tail_at(v, next, end) {
                    Some((track, from)) => Some((Some(disc), track, from)),
                    None => None,
                }
            },
            None => None,
        }
    } else {
        match tail_at(v, at, end) {
            Some((track, from)) => Some((None, track, from)),
            None => None,
        }
    }
}

impl TrackName {
    /// `None` unless the whole name is an etree track name. A name that merely starts like
    /// one (`gd1977-05-08.txt`, with no track number) is not one.
    ///
    /// The track number is the run of digits after `t`, so a suffix that begins with a digit
    /// is read as part of it. That is inherent in a format with no separator, and the
    /// alternative, stopping after two digits, would misread `t100`.
    pub fn parse(name: &str) -> (r: Option<TrackName>)
        ensures
            match r {
                Some(t) => parse_track(name@) == Some(t@),
                None => parse_track(name@) is None,
            },
    {
        let v = chars_of(name);
        let dot: usize = match find_last(&v, '.') {
            Some(i) => i,
            None => {
                return None;
            },
        };
        if !extension_from(&v, dot + 1) {
            return None;
        }
        let ghost stem = v@.take(dot as int);
        let (start, date, year_form, rest) = match split_band_date(&v, dot) {
            Some(x) => x,
            None => {
                return None;
            },
        };
        assert(stem.skip(rest as int) =~= v@.subrange(rest as int, dot as int));
        let (disc, track, end) = match numbers_at(&v, rest, dot) {
            Some(x) => x,
            None => {
                return None;
            },
        };
        let suffix: Option<String> = if end < dot {
            Some(slice_of(&v, end, dot))
        } else {
            None
        };
        let band = slice_of(&v, 0, start);
        let ext = slice_of(&v, dot + 1, v.len());
        assert(band@ =~= stem.take(start as int));
        assert(ext@ =~= v@.skip(dot + 1));
        Some(TrackName { band, date, year_form, disc, track, suffix, ext })
    }

    pub fn render(&self) -> (s: String)
        ensures
            s@ == track_text(self@),
    {
        let mut out = self.band.clone();
        let date = self.date.render(self.year_form);
        out.append(&date);
        let ghost so_far = out@;
        match self.disc {
            Some(disc) => {
                out.push('d');
                push_decimal(&mut out, disc as u64);
            },
            None => {},
        }
        assert(out@ =~= so_far + disc_text(self.disc));
        let ghost so_far = out@;
        out.push('t');
        push_padded(&mut out, self.track as u64, 2);
        assert(out@ =~= so_far + seq!['t'] + text::padded(self.track as nat, 2));
        let ghost so_far = out@;
        match &self.suffix {
            Some(suffix) => {
                out.append(suffix);
            },
            None => {},
        }
        assert(out@ =~= so_far + suffix_text(self@.suffix));
        out.push('.');
        out.append(&self.ext);
        out
    }
}

/// The format tag that a show folder ends with. The standard is explicit that a FLAC folder
/// says how many bits it holds.
#[derive(Debug, Clone, Copy, PartialEq, Eq, Structural)]
pub enum ShowFormat {
    Shnf,
    Flac16,
    Flac24,
}

pub open spec fn show_format(s: Seq<char>) -> Option<ShowFormat> {
    if s == "shnf"@ {
        Some(ShowFormat::Shnf)
    } else if s == "flac16"@ {
        Some(ShowFormat::Flac16)
    } else if s == "flac24"@ {
        Some(ShowFormat::Flac24)
    } else {
        None
    }
}

impl ShowFormat {
    pub fn parse(s: &str) -> (r: Option<ShowFormat>)
        ensures
            r == show_format(s@),
    {
        if same(s, "shnf") {
            Some(ShowFormat::Shnf)
        } else if same(s, "flac16") {
            Some(ShowFormat::Flac16)
        } else if same(s, "flac24") {
            Some(ShowFormat::Flac24)
        } else {
            None
        }
    }

    pub fn as_str(self) -> (s: &'static str)
        ensures
            s@ == match self {
                ShowFormat::Shnf => "shnf"@,
                ShowFormat::Flac16 => "flac16"@,
                ShowFormat::Flac24 => "flac24"@,
            },
            show_format(s@) == Some(self),
    {
        proof {
            reveal_strlit("shnf");
            reveal_strlit("flac16");
            reveal_strlit("flac24");
            assert("shnf"@.len() == 4);
            assert("flac16"@[4] == '1');
            assert("flac24"@[4] == '2');
        }
        match self {
            ShowFormat::Shnf => "shnf",
            ShowFormat::Flac16 => "flac16",
            ShowFormat::Flac24 => "flac24",
        }
    }
}

/// What a show folder's name says.
pub struct ShowParts {
    pub band: Seq<char>,
    pub date: ShowDate,
    pub year_form: YearForm,
    pub segments: Seq<Seq<char>>,
    pub format: Option<ShowFormat>,
}

/// The format that the last of the segments names.
pub open spec fn format_of(segments: Seq<Seq<char>>) -> Option<ShowFormat> {
    if segments.len() > 0 {
        show_format(segments.last())
    } else {
        None
    }
}

/// Band and date up to the first dot, then the segments; a format tag is not one of them.
pub open spec fn parse_show(name: Seq<char>) -> Option<ShowParts> {
    let parts = text::split_on(name, '.');
    match find_date(parts[0], 0) {
        None => None,
        Some((start, dash)) => if dash + 6 != parts[0].len() {
            None
        } else {
            let (date, year_form) = parse_date(parts[0].subrange(start, dash + 6))->0;
            let after = parts.skip(1);
            Some(
                ShowParts {
                    band: parts[0].take(start),
                    date,
                    year_form,
                    segments: if format_of(after) is Some {
                        after.drop_last()
                    } else {
                        after
                    },
                    format: format_of(after),
                },
            )
        },
    }
}

/// A show folder's name: `gd1969-01-25.sbd.kaplan.7923.sbeok.shnf`.
///
/// Parse only, on purpose: this exists so that a rename or a tag edit can offer the band and
/// date without anyone retyping them.
#[derive(Debug, Clone, PartialEq, Eq)]
pub struct ShowName {
    pub band: String,
    pub date: ShowDate,
    pub year_form: YearForm,
    /// Everything between the date and the format tag, in order: mic description, taper,
    /// source id, `sbeok`/`sbefail`. All optional and all free-form.
    pub segments: Vec<String>,
    /// `None` for a folder that names no format, common for older sets.
    pub format: Option<ShowFormat>,
}

impl View for ShowName {
    type V = ShowParts;

    open spec fn view(&self) -> ShowParts {
        ShowParts {
            band: self.band@,
            date: self.date,
            year_form: self.year_form,
            segments: text::views(self.segments@),
            format: self.format,
        }
    }
}

impl ShowName {
    pub fn parse(name: &str) -> (r: Option<ShowName>)
        ensures
            match r {
                Some(s) => parse_show(name@) == Some(s@),
                None => parse_show(name@) is None,
            },
    {
        let v = chars_of(name);
        let mut parts = split_at_char(&v, '.');
        let ghost all = text::split_on(name@, '.');
        assert(text::views(parts@)[0] == parts@[0]@);
        let first = chars_of(&parts[0]);
        assert(first@.take(first@.len() as int) =~= first@);
        let (start, date, year_form, rest) = match split_band_date(&first, first.len()) {
            Some(x) => x,
            None => {
                return None;
            },
        };
        if rest != first.len() {
            return None;
        }
        let band = slice_of(&first, 0, start);
        assert(band@ =~= first@.take(start as int));
        let head = parts.remove(0);
        assert(text::views(parts@) =~= all.skip(1));
        let format: Option<ShowFormat> = if parts.len() > 0 {
            assert(text::views(parts@).last() == parts@[parts@.len() - 1]@);
            ShowFormat::parse(&parts[parts.len() - 1])
        } else {
            None
        };
        if format.is_some() {
            let ghost before = text::views(parts@);
            let last = parts.pop();
            assert(text::views(parts@) =~= before.drop_last());
        }
        Some(ShowName { band, date, year_form, segments: parts, format })
    }
}

/// What the standard allows in a name: letters, digits, hyphens, periods and underscores.
pub open spec fn is_allowed(c: char) -> bool {
    is_ascii_alnum(c) || c == '.' || c == '_' || c == '-'
}

/// Only what is allowed, in order.
pub open spec fn allowed_only(s: Seq<char>) -> Seq<char>
    decreases s.len(),
{
    if s.len() == 0 {
        s
    } else if is_allowed(s.last()) {
        allowed_only(s.drop_last()).push(s.last())
    } else {
        allowed_only(s.drop_last())
    }
}

/// Drops everything that the standard does not allow in a name: no spaces, ampersands,
/// slashes or other special characters.
///
/// Removes rather than substitutes, which is what the standard's own examples look like: a
/// title suffix reads `bertha`, not `Bertha_`. Case is left alone.
pub fn sanitize(s: &str) -> (r: String)
    ensures
        r@ == allowed_only(s@),
{
    let v = chars_of(s);
    let mut out = String::new();
    let mut i: usize = 0;
    while i < v.len()
        invariant
            i <= v.len(),
            out@ == allowed_only(v@.take(i as int)),
        decreases v.len() - i,
    {
        assert(v@.take(i as int + 1).drop_last() =~= v@.take(i as int));
        let c = v[i];
        if ascii_alnum(c) || c == '.' || c == '_' || c == '-' {
            out.push(c);
        }
        i += 1;
    }
    assert(v@.take(v@.len() as int) =~= v@);
    out
}

/// A sanitized name holds nothing but what is allowed, and sanitizing a name that is already
/// so changes nothing.
pub proof fn law_sanitize(s: Seq<char>)
    ensures
        forall|i: int| 0 <= i < allowed_only(s).len() ==> is_allowed(#[trigger] allowed_only(s)[i]),
        (forall|i: int| 0 <= i < s.len() ==> is_allowed(#[trigger] s[i])) ==> allowed_only(s) == s,
        allowed_only(allowed_only(s)) == allowed_only(s),
    decreases s.len(),
{
    if s.len() > 0 {
        let front = s.drop_last();
        law_sanitize(front);
        if forall|i: int| 0 <= i < s.len() ==> is_allowed(#[trigger] s[i]) {
            assert forall|i: int| 0 <= i < front.len() implies is_allowed(#[trigger] front[i]) by {
                assert(front[i] == s[i]);
            }
            assert(is_allowed(s[s.len() - 1]));
            assert(front.push(s.last()) =~= s);
        }
        let r = allowed_only(s);
        if is_allowed(s.last()) {
            assert(r.drop_last() =~= allowed_only(front));
        }
        assert forall|i: int| 0 <= i < r.len() implies is_allowed(#[trigger] r[i]) by {
            if i < allowed_only(front).len() {
                assert(r[i] == allowed_only(front)[i]);
            }
        }
    }
}

/// A date reads back from its written form, where the form can tell the year.
pub proof fn law_date_round_trip(d: ShowDate, form: YearForm)
    requires
        d.valid(),
        d.fits(form),
    ensures
        parse_date(date_text(d, form)) == Some((d, form)),
        date_text(d, form).len() == form.digits() + 6,
{
    let n = form.digits();
    let y: nat = match form {
        YearForm::Long => d.year as nat,
        YearForm::Short => d.year as nat % 100,
    };
    let year = text::padded(y, n as nat);
    let month = text::padded(d.month as nat, 2);
    let day = text::padded(d.day as nat, 2);
    text::lemma_padded(y, n as nat);
    text::lemma_padded(d.month as nat, 2);
    text::lemma_padded(d.day as nat, 2);
    text::lemma_decimal_len(y);
    text::lemma_decimal_len(d.month as nat);
    text::lemma_decimal_len(d.day as nat);
    assert(month_days(d.year as int, d.month as int) <= 31);
    let s = date_text(d, form);
    assert(s.len() == n + 6);
    assert(s.take(n) =~= year);
    assert(s[n] == '-');
    assert(s[n + 1] == month[0] && s[n + 2] == month[1]);
    assert(s[n + 3] == '-');
    assert(s[n + 4] == day[0] && s[n + 5] == day[1]);
    lemma_two_digits_value(month);
    lemma_two_digits_value(day);
    assert(date_in(s, form) == Some(d));
}

proof fn lemma_two_digits_value(s: Seq<char>)
    requires
        s.len() == 2,
    ensures
        text::digits_value(s) == text::digit_value(s[0]) * 10 + text::digit_value(s[1]),
{
    reveal_with_fuel(text::digits_value, 3);
    assert(s.drop_last().last() == s[0]);
}

/// Writing a date that was read gives the same text back.
pub proof fn law_read_date_is_written_back(s: Seq<char>)
    ensures
        parse_date(s) matches Some((d, form)) ==> date_text(d, form) == s && d.valid() && d.fits(
            form,
        ),
{
    if let Some((d, form)) = parse_date(s) {
        lemma_written_back(s, form, d);
    }
}

proof fn lemma_written_back(s: Seq<char>, form: YearForm, d: ShowDate)
    requires
        date_in(s, form) == Some(d),
    ensures
        date_text(d, form) == s,
        d.valid(),
        d.fits(form),
{
    let n = form.digits();
    let year = s.take(n);
    lemma_few_digits(year);
    text::lemma_padded_digits(year);
    lemma_two_written(s, n + 1);
    lemma_two_written(s, n + 4);
    let month = text::padded(d.month as nat, 2);
    let day = text::padded(d.day as nat, 2);
    assert(month == s.subrange(n + 1, n + 3));
    assert(day == s.subrange(n + 4, n + 6));
    assert(s =~= year.push('-') + s.subrange(n + 1, n + 3).push('-') + s.subrange(n + 4, n + 6));
}

/// Two digits are the padded form of what they write down.
proof fn lemma_two_written(s: Seq<char>, i: int)
    requires
        0 <= i,
        i + 2 <= s.len(),
        text::is_digit(s[i]),
        text::is_digit(s[i + 1]),
    ensures
        0 <= two_digits(s, i) < 100,
        text::padded(two_digits(s, i) as nat, 2) == s.subrange(i, i + 2),
{
    let two = s.subrange(i, i + 2);
    assert(two[0] == s[i] && two[1] == s[i + 1]);
    lemma_two_digits_value(two);
    text::lemma_padded_digits(two);
}

/// A name whose parts can be told from each other again: a date that exists and fits its
/// form, an extension, and a suffix that does not begin with a digit.
pub open spec fn well_formed(t: TrackParts) -> bool {
    &&& t.date.valid()
    &&& t.date.fits(t.year_form)
    &&& is_extension(t.ext)
    &&& t.suffix matches Some(s) ==> s.len() > 0 && !text::is_digit(s[0])
}

/// The first date that stands in the name is its own.
pub open spec fn own_date(t: TrackParts) -> bool {
    find_date(track_stem(t), 0) == Some(
        (t.band.len() as int, t.band.len() + t.year_form.digits()),
    )
}

proof fn lemma_numbers_read_back(t: TrackParts)
    requires
        well_formed(t),
    ensures
        parse_numbers(
            disc_text(t.disc) + seq!['t'] + text::padded(t.track as nat, 2) + suffix_text(t.suffix),
        ) == Some((t.disc, t.track, suffix_text(t.suffix))),
{
    let digits = text::padded(t.track as nat, 2);
    let suffix = suffix_text(t.suffix);
    let tail = seq!['t'] + digits + suffix;
    text::lemma_padded(t.track as nat, 2);
    let after = tail.skip(1);
    assert(after =~= digits + suffix);
    assert(after.take(digits.len() as int) =~= digits);
    if digits.len() < after.len() {
        assert(after[digits.len() as int] == suffix[0]);
    }
    lemma_run_is(after, digits.len() as int);
    assert(after.skip(digits.len() as int) =~= suffix);
    assert(parse_tail(tail) == Some((t.track, suffix)));
    let all = disc_text(t.disc) + seq!['t'] + digits + suffix;
    match t.disc {
        None => {
            assert(all =~= tail);
        },
        Some(disc) => {
            let number = text::decimal(disc as nat);
            text::lemma_decimal(disc as nat);
            let rest = all.skip(1);
            assert(all[0] == 'd');
            assert(rest =~= number + tail);
            assert(rest.take(number.len() as int) =~= number);
            assert(rest[number.len() as int] == 't');
            lemma_run_is(rest, number.len() as int);
            assert(rest.skip(number.len() as int) =~= tail);
        },
    }
}

/// A suffix is what the numbers end with, and does not begin with a digit.
pub proof fn lemma_numbers_suffix(s: Seq<char>)
    ensures
        parse_numbers(s) matches Some((_, _, suffix)) ==> {
            &&& suffix.len() <= s.len()
            &&& suffix == s.skip(s.len() - suffix.len())
            &&& suffix.len() > 0 ==> !text::is_digit(suffix[0])
        },
{
    if let Some((_, _, suffix)) = parse_numbers(s) {
        let rest = if s.len() > 0 && s[0] == 'd' {
            let after = s.skip(1);
            lemma_digit_run(after);
            assert(after.skip(digit_run(after)) =~= s.skip(1 + digit_run(after)));
            s.skip(1 + digit_run(after))
        } else {
            s
        };
        let after = rest.skip(1);
        lemma_digit_run(after);
        assert(suffix == after.skip(digit_run(after)));
        assert(suffix =~= s.skip(s.len() - suffix.len()));
    }
}

/// What follows the date in a rendered name.
spec fn rendered_rest(t: TrackParts) -> Seq<char> {
    disc_text(t.disc) + seq!['t'] + text::padded(t.track as nat, 2) + suffix_text(t.suffix)
}

/// What stands where in a rendered name.
proof fn lemma_stem_parts(t: TrackParts)
    requires
        well_formed(t),
    ensures
        ({
            let stem = track_stem(t);
            let start = t.band.len() as int;
            let end = start + t.year_form.digits() + 6;
            &&& end <= stem.len()
            &&& stem.take(start) == t.band
            &&& stem.subrange(start, end) == date_text(t.date, t.year_form)
            &&& stem.skip(end) == rendered_rest(t)
        }),
{
    let stem = track_stem(t);
    let date = date_text(t.date, t.year_form);
    let start = t.band.len() as int;
    let end = start + t.year_form.digits() + 6;
    law_date_round_trip(t.date, t.year_form);
    assert(date.len() == t.year_form.digits() + 6);
    assert(stem =~= t.band + date + rendered_rest(t));
    assert(stem.take(start) =~= t.band);
    assert(stem.subrange(start, end) =~= date);
    assert(stem.skip(end) =~= rendered_rest(t));
}

/// A rendered name parses back to what it was rendered from.
pub proof fn law_rendered_track_parses_back(t: TrackParts)
    requires
        well_formed(t),
        own_date(t),
    ensures
        parse_track(track_text(t)) == Some(t),
{
    let stem = track_stem(t);
    let name = track_text(t);
    assert forall|i: int| 0 <= i < t.ext.len() implies #[trigger] t.ext[i] != '.' by {
        assert(is_ascii_alnum(t.ext[i]));
    }
    text::lemma_last_at_is(stem, '.', t.ext);
    assert(name.take(stem.len() as int) =~= stem);
    assert(name.skip(stem.len() as int + 1) =~= t.ext);
    law_date_round_trip(t.date, t.year_form);
    lemma_stem_parts(t);
    lemma_numbers_read_back(t);
}

/// With the four-digit year and no hyphen in the band, the first date in a name is its own.
pub proof fn law_plain_band_is_told_apart(t: TrackParts)
    requires
        well_formed(t),
        t.year_form is Long,
        is_band(t.band),
        forall|i: int| 0 <= i < t.band.len() ==> #[trigger] t.band[i] != '-',
    ensures
        own_date(t),
{
    let stem = track_stem(t);
    let date = date_text(t.date, t.year_form);
    let start = t.band.len() as int;
    law_date_round_trip(t.date, t.year_form);
    lemma_stem_parts(t);
    assert(date_around(stem, start + 4, 4));
    assert forall|k: int| 0 <= k < start + 4 implies #[trigger] stem[k] != '-' by {
        if k < start {
            assert(stem.take(start)[k] == t.band[k]);
        } else {
            assert(stem.subrange(start, start + 10)[k - start] == date[k - start]);
            assert(date.take(4)[k - start] == date[k - start]);
        }
    }
    lemma_find_date_from(stem, 0, start + 4);
}

pub proof fn lemma_find_date_from(stem: Seq<char>, from: int, dash: int)
    requires
        0 <= from <= dash < stem.len(),
        date_around(stem, dash, 4),
        forall|k: int| from <= k < dash ==> #[trigger] stem[k] != '-',
    ensures
        find_date(stem, from) == Some((dash - 4, dash)),
    decreases dash - from,
{
    if from < dash {
        assert(stem[from] != '-');
        if date_around(stem, from, 4) {
            lemma_date_needs_dash(stem, from, 4);
        }
        if date_around(stem, from, 2) {
            lemma_date_needs_dash(stem, from, 2);
        }
        lemma_find_date_from(stem, from + 1, dash);
    }
}

/// Where a found date stands, it reads as a date, with the band before it.
pub proof fn lemma_found_date(stem: Seq<char>, from: int)
    requires
        0 <= from,
    ensures
        find_date(stem, from) matches Some((start, dash)) ==> {
            &&& 0 <= start < dash
            &&& dash + 6 <= stem.len()
            &&& parse_date(stem.subrange(start, dash + 6)) is Some
        },
    decreases stem.len() - from,
{
    if from < stem.len() && !date_around(stem, from, 4) && !date_around(stem, from, 2) {
        lemma_found_date(stem, from + 1);
    }
}

/// The numbers of a name, as they are rendered: no zeros before the disc number, and the
/// track number padded to two digits and no more.
pub open spec fn plainly_numbered(rest: Seq<char>) -> bool {
    parse_numbers(rest) matches Some((disc, track, suffix)) && rest == disc_text(disc) + seq!['t']
        + text::padded(track as nat, 2) + suffix
}

/// What follows the date in a name.
pub open spec fn after_date(name: Seq<char>) -> Seq<char> {
    let stem = name.take(text::last_at(name, '.'));
    match find_date(stem, 0) {
        Some((_, dash)) => stem.skip(dash + 6),
        None => Seq::empty(),
    }
}

/// A name that parses renders back to itself, letter for letter, exactly where its numbers
/// are written as they are rendered. A rename changes nothing about such a name.
pub proof fn law_parsed_track_renders_back(name: Seq<char>)
    ensures
        parse_track(name) matches Some(t) ==> (track_text(t) == name <==> plainly_numbered(
            after_date(name),
        )),
{
    if let Some(t) = parse_track(name) {
        let dot = text::last_at(name, '.');
        text::lemma_last_at(name, '.');
        let stem = name.take(dot);
        lemma_found_date(stem, 0);
        let (start, dash) = find_date(stem, 0)->0;
        let text = stem.subrange(start, dash + 6);
        law_read_date_is_written_back(text);
        let rest = stem.skip(dash + 6);
        let rendered = disc_text(t.disc) + seq!['t'] + text::padded(t.track as nat, 2)
            + suffix_text(t.suffix);
        assert(stem =~= t.band + text + rest);
        assert(name =~= stem.push('.') + t.ext);
        let made = t.band + text + rendered;
        assert(track_stem(t) =~= made);
        if rest == rendered {
            assert(track_text(t) =~= name);
        }
        if track_text(t) == name {
            assert(made.push('.') + t.ext == stem.push('.') + t.ext);
            assert(made.len() == stem.len());
            assert forall|i: int| 0 <= i < made.len() implies #[trigger] made[i] == stem[i] by {
                assert((made.push('.') + t.ext)[i] == made[i]);
                assert((stem.push('.') + t.ext)[i] == stem[i]);
            }
            assert(made =~= stem);
            assert(made.skip(dash + 6) =~= rendered);
        }
        let (_, _, suffix) = parse_numbers(rest)->0;
        assert(suffix_text(t.suffix) =~= suffix);
    }
}

} // verus!
