//! Plain-text formatters shared by every front end.

use crate::text;
use crate::text::{decimal_string, join_strings, push_decimal, push_padded};
use vstd::prelude::*;
use vstd::string::*;

verus! {

/// Durations are counted in this many parts of a second, in which one frame at every usual
/// sample rate is a whole number.
pub const FLICKS: u64 = 705_600_000;

pub open spec fn numbers(pieces: Seq<u32>) -> Seq<Seq<char>> {
    pieces.map_values(|p: u32| text::decimal(p as nat))
}

/// "piece 3" for one, "pieces 3, 5, 9" for several.
pub fn pieces_phrase(pieces: &[u32]) -> (s: String)
    ensures
        s@ == if pieces@.len() == 1 {
            "piece "@ + text::decimal(pieces@[0] as nat)
        } else {
            "pieces "@ + text::join(numbers(pieces@), ", "@)
        },
{
    if pieces.len() == 1 {
        let mut s = "piece ".to_owned();
        push_decimal(&mut s, pieces[0] as u64);
        return s;
    }
    let mut list: Vec<String> = Vec::new();
    let mut i: usize = 0;
    while i < pieces.len()
        invariant
            i <= pieces.len(),
            list.len() == i,
            forall|k: int| 0 <= k < i ==> (#[trigger] list@[k])@ == text::decimal(
                pieces@[k] as nat,
            ),
        decreases pieces.len() - i,
    {
        list.push(decimal_string(pieces[i] as u64));
        i += 1;
    }
    assert(text::views(list@) =~= numbers(pieces@));
    let mut s = "pieces ".to_owned();
    s.append(&join_strings(&list, ", "));
    s
}

/// A quotient rounded to the nearest whole number, and to the even one of two that are as
/// near.
pub open spec fn rounded_even(a: nat, b: nat) -> nat
    recommends
        b > 0,
{
    let q = a / b;
    let r = a % b;
    if 2 * r > b || (2 * r == b && q % 2 == 1) {
        q + 1
    } else {
        q
    }
}

/// The size and the name of the unit that a byte count is shown in.
pub open spec fn unit_of(n: nat) -> (nat, Seq<char>) {
    if n < 0x400 {
        (1, "B"@)
    } else if n < 0x10_0000 {
        (0x400, "KiB"@)
    } else if n < 0x4000_0000 {
        (0x10_0000, "MiB"@)
    } else if n < 0x100_0000_0000 {
        (0x4000_0000, "GiB"@)
    } else {
        (0x100_0000_0000, "TiB"@)
    }
}

/// A byte count as it is shown: in its unit, to one decimal.
pub open spec fn bytes_text(n: nat) -> Seq<char> {
    let (size, name) = unit_of(n);
    if size == 1 {
        text::decimal(n) + " B"@
    } else {
        let tenths = rounded_even(n * 10, size);
        text::decimal(tenths / 10) + "."@ + text::decimal(tenths % 10) + " "@ + name
    }
}

/// A byte count as `1.5 MiB`, binary units throughout.
pub fn bytes(n: u64) -> (s: String)
    ensures
        s@ == bytes_text(n as nat),
{
    if n < 0x400 {
        let mut s = decimal_string(n);
        s.append(" B");
        return s;
    }
    let (size, name): (u128, &str) = if n < 0x10_0000 {
        (0x400, "KiB")
    } else if n < 0x4000_0000 {
        (0x10_0000, "MiB")
    } else if n < 0x100_0000_0000 {
        (0x4000_0000, "GiB")
    } else {
        (0x100_0000_0000, "TiB")
    };
    let a: u128 = n as u128 * 10;
    let q: u128 = a / size;
    let r: u128 = a % size;
    assert(r < size) by (nonlinear_arith)
        requires
            r == a % size,
            size > 0,
    ;
    assert(q <= a) by (nonlinear_arith)
        requires
            q == a / size,
            size > 0,
            a >= 0,
    ;
    let tenths: u128 = if 2 * r > size || (2 * r == size && q % 2 == 1) {
        q + 1
    } else {
        q
    };
    assert(tenths == rounded_even(n as nat * 10, size as nat));
    let mut s = decimal_string((tenths / 10) as u64);
    s.append(".");
    push_decimal(&mut s, (tenths % 10) as u64);
    s.append(" ");
    s.append(name);
    s
}

// Dates.

/// A year with a leap day.
pub open spec fn is_leap(y: int) -> bool {
    y % 4 == 0 && (y % 100 != 0 || y % 400 == 0)
}

/// The leap days of all the years before this one, counted from year 1.
pub open spec fn leap_days(y: int) -> int {
    (y - 1) / 4 - (y - 1) / 100 + (y - 1) / 400
}

/// The days of a year before this month, in a year without a leap day.
pub open spec fn days_before(m: int) -> int {
    if m == 1 {
        0
    } else if m == 2 {
        31
    } else if m == 3 {
        59
    } else if m == 4 {
        90
    } else if m == 5 {
        120
    } else if m == 6 {
        151
    } else if m == 7 {
        181
    } else if m == 8 {
        212
    } else if m == 9 {
        243
    } else if m == 10 {
        273
    } else if m == 11 {
        304
    } else {
        334
    }
}

pub open spec fn month_len(y: int, m: int) -> int {
    if m == 2 {
        if is_leap(y) {
            29
        } else {
            28
        }
    } else if m == 4 || m == 6 || m == 9 || m == 11 {
        30
    } else {
        31
    }
}

/// How many days after the first of January 1970 a date is.
pub open spec fn day_number(y: int, m: int, d: int) -> int {
    365 * (y - 1970) + leap_days(y) - leap_days(1970) + days_before(m) + (if m > 2 && is_leap(y) {
        1int
    } else {
        0int
    }) + d - 1
}

/// A date of the Gregorian calendar.
pub open spec fn is_date(y: int, m: int, d: int) -> bool {
    1 <= m <= 12 && 1 <= d <= month_len(y, m)
}

/// The year, the month and the day that are so many days after the first of January 1970.
pub fn civil(days: i64) -> (r: (i64, u8, u8))
    requires
        -200_000_000_000_000 <= days <= 200_000_000_000_000,
    ensures
        is_date(r.0 as int, r.1 as int, r.2 as int),
        day_number(r.0 as int, r.1 as int, r.2 as int) == days,
{
    // Years are counted from March, so that a leap day is the last of its year.
    let z: i64 = days + 719_468;
    let shifted: i64 = z + 146_097 * 2_000_000_000;
    let era: i64 = shifted / 146_097 - 2_000_000_000;
    let doe: i64 = shifted % 146_097;
    assert(z == era * 146_097 + doe);
    let century: i64 = if doe / 36_524 > 3 {
        3
    } else {
        doe / 36_524
    };
    let in_century: i64 = doe - century * 36_524;
    let four: i64 = in_century / 1461;
    let in_four: i64 = in_century - four * 1461;
    let one: i64 = if in_four / 365 > 3 {
        3
    } else {
        in_four / 365
    };
    let doy: i64 = in_four - one * 365;
    assert(0 <= doy <= 365);
    assert(0 <= four <= 24);
    let yoe: i64 = century * 100 + four * 4 + one;
    let mp: i64 = (5 * doy + 2) / 153;
    let d: i64 = doy - (153 * mp + 2) / 5 + 1;
    let m: i64 = if mp < 10 {
        mp + 3
    } else {
        mp - 9
    };
    let march: i64 = yoe + era * 400;
    let y: i64 = if m <= 2 {
        march + 1
    } else {
        march
    };
    proof {
        assert(doe == 365 * yoe + yoe / 4 - yoe / 100 + doy);
        lemma_march(era as int, yoe as int, doy as int, mp as int);
    }
    (y, m as u8, d as u8)
}

/// A day of a year that starts in March is the date that the month's place gives.
proof fn lemma_march(era: int, yoe: int, doy: int, mp: int)
    requires
        0 <= yoe < 400,
        0 <= doy <= 365,
        doy == 365 ==> (yoe + 1) % 4 == 0 && ((yoe + 1) % 100 != 0 || (yoe + 1) % 400 == 0),
        mp == (5 * doy + 2) / 153,
    ensures
        ({
            let d = doy - (153 * mp + 2) / 5 + 1;
            let m = if mp < 10 {
                mp + 3
            } else {
                mp - 9
            };
            let march = yoe + era * 400;
            let y = if m <= 2 {
                march + 1
            } else {
                march
            };
            &&& is_date(y, m, d)
            &&& day_number(y, m, d) == era * 146_097 + 365 * yoe + yoe / 4 - yoe / 100 + doy
                - 719_468
        }),
{
    let march = yoe + era * 400;
    lemma_leap_days(era, yoe);
    lemma_months(doy, mp);
    let d = doy - march_days(mp) + 1;
    if mp < 10 {
        assert(march_days(mp) == days_before(mp + 3) - 59);
        assert(1 <= d <= month_len(march, mp + 3));
        assert(is_date(march, mp + 3, d));
        assert(365 * (march - 1970) == 365 * yoe + 146_000 * era - 719_050);
        assert(day_number(march, mp + 3, d) == era * 146_097 + 365 * yoe + yoe / 4 - yoe / 100
            + doy - 719_468);
    } else {
        assert(march_days(mp) == days_before(mp - 9) + 306);
        assert(1 <= d <= month_len(march + 1, mp - 9));
        assert(is_date(march + 1, mp - 9, d));
        assert(365 * (march + 1 - 1970) == 365 * yoe + 146_000 * era - 718_685);
        assert(day_number(march + 1, mp - 9, d) == era * 146_097 + 365 * yoe + yoe / 4 - yoe
            / 100 + doy - 719_468);
    }
}

/// The days of a year that starts in March before each of its months.
spec fn march_days(mp: int) -> int {
    if mp == 0 {
        0
    } else if mp == 1 {
        31
    } else if mp == 2 {
        61
    } else if mp == 3 {
        92
    } else if mp == 4 {
        122
    } else if mp == 5 {
        153
    } else if mp == 6 {
        184
    } else if mp == 7 {
        214
    } else if mp == 8 {
        245
    } else if mp == 9 {
        275
    } else if mp == 10 {
        306
    } else {
        337
    }
}

proof fn lemma_months(doy: int, mp: int)
    requires
        0 <= doy <= 365,
        mp == (5 * doy + 2) / 153,
    ensures
        0 <= mp <= 11,
        (153 * mp + 2) / 5 == march_days(mp),
        march_days(mp) <= doy,
        mp < 11 ==> doy < march_days(mp + 1),
{
    if mp == 0 {
    } else if mp == 1 {
    } else if mp == 2 {
    } else if mp == 3 {
    } else if mp == 4 {
    } else if mp == 5 {
    } else if mp == 6 {
    } else if mp == 7 {
    } else if mp == 8 {
    } else if mp == 9 {
    } else if mp == 10 {
    } else {
        assert(mp == 11);
    }
}

/// Whole fours, hundreds and four hundreds of years, with the eras before them.
proof fn lemma_parts(era: int, n: int)
    ensures
        (n + era * 400) / 4 == era * 100 + n / 4,
        (n + era * 400) / 100 == era * 4 + n / 100,
        (n + era * 400) / 400 == era + n / 400,
        (n + era * 400) % 4 == n % 4,
        (n + era * 400) % 100 == n % 100,
        (n + era * 400) % 400 == n % 400,
{
}

/// One year earlier there is one multiple less where this year is one.
proof fn lemma_year_earlier(n: int, k: int)
    requires
        k == 4 || k == 100 || k == 400,
    ensures
        (n - 1) / k == n / k - (if n % k == 0 {
            1int
        } else {
            0int
        }),
{
    if k == 4 {
    } else if k == 100 {
    } else {
    }
}

#[verifier::spinoff_prover]
proof fn lemma_leap_days(era: int, yoe: int)
    requires
        0 <= yoe < 400,
    ensures
        ({
            let march = yoe + era * 400;
            &&& leap_days(march + 1) == era * 97 + yoe / 4 - yoe / 100
            &&& leap_days(march) == leap_days(march + 1) - (if is_leap(march) {
                1int
            } else {
                0int
            })
            &&& leap_days(1970) == 477
            &&& is_leap(march + 1) == is_leap(yoe + 1)
        }),
{
    let march = yoe + era * 400;
    lemma_parts(era, yoe);
    lemma_parts(era, yoe + 1);
    lemma_year_earlier(march, 4);
    lemma_year_earlier(march, 100);
    lemma_year_earlier(march, 400);
    assert(march % 400 == 0 ==> march % 100 == 0);
    assert(march % 100 == 0 ==> march % 4 == 0);
}

/// A year in at least four places, its sign among them.
pub open spec fn year_text(y: int) -> Seq<char> {
    if y < 0 {
        "-"@ + text::padded((-y) as nat, 3)
    } else {
        text::padded(y as nat, 4)
    }
}

/// A date and a time of day, as they are shown.
pub open spec fn date_text(y: int, m: int, d: int, secs: int) -> Seq<char> {
    year_text(y) + "-"@ + text::padded(m as nat, 2) + "-"@ + text::padded(d as nat, 2) + " "@
        + text::padded((secs / 3600) as nat, 2) + ":"@ + text::padded(
        (secs % 3600 / 60) as nat,
        2,
    ) + ":"@ + text::padded((secs % 60) as nat, 2) + " UTC"@
}

/// A date rather than an epoch, because the day a torrent was made matters for identifying
/// an old seed.
pub fn date(epoch_secs: i64) -> (s: String)
    ensures
        exists|y: int, m: int, d: int|
            {
                &&& is_date(y, m, d)
                &&& day_number(y, m, d) == epoch_secs as int / 86_400
                &&& s@ == #[trigger] date_text(y, m, d, epoch_secs as int % 86_400)
            },
{
    let e: i128 = epoch_secs as i128 + 86_400 * 200_000_000_000_000;
    let days: i64 = (e / 86_400 - 200_000_000_000_000) as i64;
    let secs: u64 = (e % 86_400) as u64;
    assert(days == epoch_secs as int / 86_400);
    assert(secs == epoch_secs as int % 86_400);
    let (y, m, d) = civil(days);
    let mut s = String::new();
    if y < 0 {
        s.append("-");
        push_padded(&mut s, (-(y as i128)) as u64, 3);
    } else {
        push_padded(&mut s, y as u64, 4);
    }
    assert(s@ =~= year_text(y as int));
    s.append("-");
    push_padded(&mut s, m as u64, 2);
    s.append("-");
    push_padded(&mut s, d as u64, 2);
    s.append(" ");
    push_padded(&mut s, secs / 3600, 2);
    s.append(":");
    push_padded(&mut s, secs % 3600 / 60, 2);
    s.append(":");
    push_padded(&mut s, secs % 60, 2);
    s.append(" UTC");
    assert(s@ == date_text(y as int, m as int, d as int, secs as int));
    s
}

proof fn lemma_day_number_grows(y: int, m: int, d: int)
    requires
        is_date(y, m, d),
    ensures
        day_number(y, 1, 1) <= day_number(y, m, d) < day_number(y + 1, 1, 1),
{
    lemma_year_len(y);
}

proof fn lemma_year_len(y: int)
    ensures
        day_number(y + 1, 1, 1) - day_number(y, 1, 1) == (if is_leap(y) {
            366int
        } else {
            365int
        }),
{
    lemma_step(y, 4);
    lemma_step(y, 100);
    lemma_step(y, 400);
    lemma_mods(y);
    assert(leap_days(y + 1) - leap_days(y) == (if is_leap(y) {
        1int
    } else {
        0int
    }));
    assert(days_before(1) == 0);
}

proof fn lemma_mods(y: int)
    ensures
        y % 400 == 0 ==> y % 100 == 0,
        y % 100 == 0 ==> y % 4 == 0,
{
    if y % 400 == 0 {
        assert(y == 100 * (4 * (y / 400)));
    }
    if y % 100 == 0 {
        assert(y == 4 * (25 * (y / 100)));
    }
}

proof fn lemma_step(y: int, n: int)
    requires
        n == 4 || n == 100 || n == 400,
    ensures
        y / n - (y - 1) / n == (if y % n == 0 {
            1int
        } else {
            0int
        }),
{
}

proof fn lemma_years_grow(a: int, b: int)
    requires
        a <= b,
    ensures
        day_number(a, 1, 1) <= day_number(b, 1, 1),
    decreases b - a,
{
    if a < b {
        lemma_years_grow(a, b - 1);
        lemma_year_len(b - 1);
    }
}

/// No two dates are the same day.
pub proof fn law_dates_differ(y: int, m: int, d: int, y2: int, m2: int, d2: int)
    requires
        is_date(y, m, d),
        is_date(y2, m2, d2),
        day_number(y, m, d) == day_number(y2, m2, d2),
    ensures
        y == y2,
        m == m2,
        d == d2,
{
    lemma_day_number_grows(y, m, d);
    lemma_day_number_grows(y2, m2, d2);
    if y < y2 {
        lemma_years_grow(y + 1, y2);
    } else if y2 < y {
        lemma_years_grow(y2 + 1, y);
    }
}

// Durations.

/// A duration in thousandths of a second, rounded.
pub open spec fn millis(flicks: nat) -> nat {
    (flicks * 10 + 3_528_000) / 7_056_000
}

/// A duration in whole seconds, rounded.
pub open spec fn whole_secs(flicks: nat) -> nat {
    (flicks + 352_800_000) / 705_600_000
}

pub open spec fn precise_text(flicks: nat) -> Seq<char> {
    let ms = millis(flicks);
    text::decimal(ms / 60_000) + ":"@ + text::padded(ms % 60_000 / 1000, 2) + "."@ + text::padded(
        ms % 1000,
        3,
    )
}

pub open spec fn short_text(flicks: nat) -> Seq<char> {
    let secs = whole_secs(flicks);
    text::decimal(secs / 60) + ":"@ + text::padded(secs % 60, 2)
}

/// `m:ss.mmm`.
pub fn duration_precise(flicks: u128) -> (s: String)
    requires
        flicks <= 0xFFFF_FFFF_FFFF_FFFF * FLICKS,
    ensures
        s@ == precise_text(flicks as nat),
{
    let ms: u128 = (flicks * 10 + 3_528_000) / 7_056_000;
    let mut s = decimal_string((ms / 60_000) as u64);
    s.append(":");
    push_padded(&mut s, (ms % 60_000 / 1000) as u64, 2);
    s.append(".");
    assert(ms % 60_000 % 1000 == ms % 1000);
    push_padded(&mut s, (ms % 1000) as u64, 3);
    s
}

/// `m:ss`, for where there is no room for milliseconds.
pub fn duration_short(flicks: u128) -> (s: String)
    requires
        flicks <= 0xFFFF_FFFF_FFFF_FFFF * FLICKS,
    ensures
        s@ == short_text(flicks as nat),
{
    let secs: u128 = (flicks + 352_800_000) / 705_600_000;
    let mut s = decimal_string((secs / 60) as u64);
    s.append(":");
    push_padded(&mut s, (secs % 60) as u64, 2);
    s
}

// What is shown.

/// A duration is shown in minutes and the nearest second, of which sixty make a minute.
pub proof fn law_short_duration_is_the_nearest(flicks: nat)
    ensures
        exists|m: nat, s: nat|
            {
                &&& short_text(flicks) == #[trigger] (text::decimal(m) + ":"@ + text::padded(s, 2))
                &&& s < 60
                &&& 2 * ((60 * m + s) * FLICKS) <= 2 * flicks + FLICKS
                &&& 2 * flicks <= 2 * ((60 * m + s) * FLICKS) + FLICKS
            },
{
    let secs = whole_secs(flicks);
    let (m, s) = (secs / 60, secs % 60);
    assert(short_text(flicks) == text::decimal(m) + ":"@ + text::padded(s, 2));
    assert(60 * m + s == secs);
}

/// A duration is shown in minutes, seconds and the nearest thousandth.
pub proof fn law_precise_duration_is_the_nearest(flicks: nat)
    ensures
        exists|m: nat, s: nat, t: nat|
            {
                &&& precise_text(flicks) == #[trigger] (text::decimal(m) + ":"@ + text::padded(s, 2)
                    + "."@ + text::padded(t, 3))
                &&& s < 60
                &&& t < 1000
                &&& 2 * ((60_000 * m + 1000 * s + t) * FLICKS) <= 2000 * flicks + FLICKS
                &&& 2000 * flicks <= 2 * ((60_000 * m + 1000 * s + t) * FLICKS) + FLICKS
            },
{
    let ms = millis(flicks);
    let (m, s, t) = (ms / 60_000, ms % 60_000 / 1000, ms % 1000);
    assert(precise_text(flicks) == text::decimal(m) + ":"@ + text::padded(s, 2) + "."@
        + text::padded(t, 3));
    assert(60_000 * m + 1000 * s + t == ms);
}

/// A byte count below 1024 is shown as it is, and above in the greatest unit that it reaches,
/// each 1024 of the one before, to the nearest tenth.
pub proof fn law_bytes_are_shown_in_their_unit(n: nat)
    ensures
        n < 1024 ==> bytes_text(n) == text::decimal(n) + " B"@,
        n >= 1024 ==> exists|a: nat, t: nat, size: nat, unit: Seq<char>|
            {
                &&& bytes_text(n) == #[trigger] (text::decimal(a) + "."@ + text::decimal(t) + " "@
                    + unit)
                &&& t < 10
                &&& #[trigger] is_unit(size, unit)
                &&& size <= n
                &&& n < 1024 * size || size == 1024 * 1024 * 1024 * 1024
                &&& 2 * (size * (10 * a + t)) <= 20 * n + size
                &&& 20 * n <= 2 * (size * (10 * a + t)) + size
            },
{
    if n >= 1024 {
        let (size, unit) = unit_of(n);
        let tenths = rounded_even(n * 10, size);
        let (a, t) = (tenths / 10, tenths % 10);
        assert(bytes_text(n) == text::decimal(a) + "."@ + text::decimal(t) + " "@ + unit);
        assert(is_unit(size, unit));
        let x = n * 10;
        let q = x / size;
        let r = x % size;
        assert(x == size * q + r && r < size) by (nonlinear_arith)
            requires
                q == x / size,
                r == x % size,
                size > 0,
        ;
        assert(10 * a + t == tenths);
        assert(size * (q + 1) == size * q + size) by (nonlinear_arith);
    }
}

/// The binary units.
pub open spec fn is_unit(size: nat, unit: Seq<char>) -> bool {
    ||| size == 1024 && unit == "KiB"@
    ||| size == 1024 * 1024 && unit == "MiB"@
    ||| size == 1024 * 1024 * 1024 && unit == "GiB"@
    ||| size == 1024 * 1024 * 1024 * 1024 && unit == "TiB"@
}

/// Days are counted from the first of January 1970, and the day after a date is one more: the
/// next of its month, or the first of the next month, or of the next year.
pub proof fn law_days_follow_one_another(y: int, m: int, d: int)
    requires
        is_date(y, m, d),
    ensures
        day_number(1970, 1, 1) == 0,
        d < month_len(y, m) ==> day_number(y, m, d + 1) == day_number(y, m, d) + 1,
        d == month_len(y, m) && m < 12 ==> day_number(y, m + 1, 1) == day_number(y, m, d) + 1,
        d == month_len(y, m) && m == 12 ==> day_number(y + 1, 1, 1) == day_number(y, m, d) + 1,
        month_len(y, m) == if m == 2 {
            if y % 400 == 0 || (y % 4 == 0 && y % 100 != 0) {
                29int
            } else {
                28int
            }
        } else if m == 4 || m == 6 || m == 9 || m == 11 {
            30int
        } else {
            31int
        },
{
    lemma_year_len(y);
    lemma_mods(y);
}

/// A date is shown as year, month and day, and the time of day as hours, minutes and seconds
/// that make it up.
pub proof fn law_time_of_day_adds_up(y: int, m: int, d: int, secs: int)
    requires
        0 <= secs < 86_400,
    ensures
        exists|h: nat, n: nat, s: nat|
            {
                &&& date_text(y, m, d, secs) == year_text(y) + "-"@ + text::padded(m as nat, 2)
                    + "-"@ + text::padded(d as nat, 2) + " "@ + #[trigger] text::padded(h, 2) + ":"@
                    + #[trigger] text::padded(n, 2) + ":"@ + #[trigger] text::padded(s, 2)
                    + " UTC"@
                &&& h < 24 && n < 60 && s < 60
                &&& 3600 * h + 60 * n + s == secs
            },
{
    let (h, n, s) = ((secs / 3600) as nat, (secs % 3600 / 60) as nat, (secs % 60) as nat);
    assert(3600 * h + 60 * n + s == secs);
    assert(date_text(y, m, d, secs) == year_text(y) + "-"@ + text::padded(m as nat, 2) + "-"@
        + text::padded(d as nat, 2) + " "@ + text::padded(h, 2) + ":"@ + text::padded(n, 2) + ":"@
        + text::padded(s, 2) + " UTC"@);
}

} // verus!
