//! What times, sizes and modes are read as, in every way that they may be spelled.

use super::exponent;
use super::mode;
use super::mode::Mode;
use super::number;
use super::seconds;
use crate::display::FLICKS;
use crate::text;
use vstd::arithmetic::power2::{lemma_pow2_strictly_increases, pow2};
use vstd::prelude::*;

verus! {

/// Digits, at least one.
pub open spec fn is_count(s: Seq<char>) -> bool {
    s.len() > 0 && text::all_digits(s)
}

proof fn lemma_plain_digits(s: Seq<char>)
    requires
        text::all_digits(s),
    ensures
        !s.contains(':'),
        !s.contains('.'),
        !s.contains('e'),
        !s.contains('E'),
        forall|i: int| 0 <= i < s.len() ==> !text::is_space(#[trigger] s[i]),
        text::lowercase(s) == s,
{
    assert forall|i: int| 0 <= i < s.len() implies !text::is_space(#[trigger] s[i]) && s[i] != ':'
        && s[i] != '.' && s[i] != 'e' && s[i] != 'E' by {
        assert(text::is_digit(s[i]));
    }
    assert forall|i: int| 0 <= i < s.len() implies text::lowercase(s)[i] == s[i] by {
        assert(text::is_digit(s[i]));
    }
    assert(text::lowercase(s) =~= s);
}

/// A text without a character in it has its first one past its end.
proof fn lemma_none_at(s: Seq<char>, c: char)
    requires
        !s.contains(c),
    ensures
        text::first_at(s, c) == s.len(),
{
    text::lemma_first_at(s, c);
    if text::first_at(s, c) < s.len() {
        assert(s[text::first_at(s, c)] == c);
    }
}

/// What 64 bits hold is finite.
proof fn lemma_small(n: nat)
    requires
        n <= 0xFFFF_FFFF_FFFF_FFFF,
    ensures
        !number::is_infinite(n),
{
    vstd::arithmetic::power2::lemma2_to64();
    lemma_pow2_strictly_increases(64, 970);
    lemma_pow2_strictly_increases(1, 54);
    let p = pow2(970) as int;
    assert((pow2(54) - 1) * p >= p) by (nonlinear_arith)
        requires
            pow2(54) >= 2,
            p > 0,
    ;
}

/// Digits, at the end of a time, are whole seconds.
proof fn lemma_last_digits(s: Seq<char>)
    requires
        is_count(s),
        text::digits_value(s) <= 0xFFFF_FFFF_FFFF_FFFF,
    ensures
        mode::last_part(s) == Some(
            (text::digits_value(s) * FLICKS as nat, text::digits_value(s) >= 60),
        ),
{
    lemma_plain_digits(s);
    assert(text::is_digit(s[0]));
    lemma_none_at(s, '.');
    lemma_none_at(s, 'e');
    lemma_none_at(s, 'E');
    assert(exponent::unsigned_part(s) == s);
    assert(s.take(s.len() as int) =~= s);
    assert(exponent::plain(s) == s);
    lemma_small(text::digits_value(s));
    seconds::lemma_no_decimals(FLICKS as nat);
    let none = Seq::<char>::empty();
    assert(number::after_point(s) =~= none);
    number::lemma_ten(0);
    assert(text::digits_value(none) == 0);
    assert(0 * pow2(48) == 0) by (nonlinear_arith);
    vstd::arithmetic::power2::lemma2_to64();
    lemma_pow2_strictly_increases(1, 48);
    assert((pow2(48) - 1) * 1 > 0);
}

proof fn lemma_untrimmed(s: Seq<char>)
    requires
        s.len() > 0,
        !text::is_space(s[0]),
        !text::is_space(s.last()),
    ensures
        text::trim(s) == s,
{
}

proof fn lemma_one(a: Seq<char>)
    requires
        !a.contains(':'),
    ensures
        text::split_on(a, ':') == seq![a],
{
    let none = Seq::<char>::empty();
    text::lemma_split_extend(none, a, ':');
    assert(none + a =~= a);
    assert(text::split_on(none, ':') == seq![none]);
    assert(seq![none].drop_last().push(none + a) =~= seq![a]);
}

proof fn lemma_another(s: Seq<char>, parts: Seq<Seq<char>>, b: Seq<char>)
    requires
        text::split_on(s, ':') == parts,
        !b.contains(':'),
    ensures
        text::split_on(s.push(':') + b, ':') == parts.push(b),
{
    let none = Seq::<char>::empty();
    let t = s.push(':');
    assert(t.drop_last() =~= s);
    assert(text::split_on(t, ':') == parts.push(none));
    text::lemma_split_extend(t, b, ':');
    assert(parts.push(none).drop_last() =~= parts);
    assert(none + b =~= b);
}

/// Seconds alone, minutes and seconds, or hours, minutes and seconds, each as digits: sixty of
/// one make one of the other, and below the greatest of them none reaches sixty.
pub proof fn law_times_are_read(h: Seq<char>, m: Seq<char>, s: Seq<char>)
    requires
        is_count(h),
        is_count(m),
        is_count(s),
        text::digits_value(h) <= u32::MAX,
        text::digits_value(m) <= u32::MAX,
        text::digits_value(s) <= u64::MAX,
    ensures
        ({
            let (x, y, z) = (text::digits_value(h), text::digits_value(m), text::digits_value(s));
            &&& mode::time_of(s) == Some(z * FLICKS as nat)
            &&& mode::time_of(m.push(':') + s) == if z < 60 {
                Some((60 * y + z) * FLICKS as nat)
            } else {
                None
            }
            &&& mode::time_of(h.push(':') + m.push(':') + s) == if y < 60 && z < 60 {
                Some((3600 * x + 60 * y + z) * FLICKS as nat)
            } else {
                None
            }
        }),
{
    let (x, y, z) = (text::digits_value(h), text::digits_value(m), text::digits_value(s));
    lemma_plain_digits(h);
    lemma_plain_digits(m);
    lemma_plain_digits(s);
    lemma_last_digits(s);
    lemma_one(h);
    lemma_one(m);
    lemma_one(s);
    assert(text::is_digit(h[0]) && text::is_digit(m[0]) && text::is_digit(s[0]));
    assert(!text::is_space(s[s.len() - 1]));
    lemma_untrimmed(s);
    reveal_with_fuel(mode::time_from, 4);
    assert(0 * 60 + z * FLICKS as nat == z * FLICKS as nat);
    let ms = m.push(':') + s;
    lemma_another(m, seq![m], s);
    assert(ms.last() == s.last() && ms[0] == m[0]);
    lemma_untrimmed(ms);
    let two = text::split_on(ms, ':');
    assert(two =~= seq![m, s]);
    assert(two[0] == m && two[1] == s);
    assert((60 * y + z) * FLICKS as nat == (y * FLICKS as nat) * 60 + z * FLICKS as nat)
        by (nonlinear_arith);
    let hms = h.push(':') + m.push(':') + s;
    lemma_another(h, seq![h], m);
    let hm = h.push(':') + m;
    assert(seq![h].push(m) =~= seq![h, m]);
    lemma_another(hm, seq![h, m], s);
    assert(hm.push(':') + s =~= hms);
    assert(hms.last() == s.last() && hms[0] == h[0]);
    lemma_untrimmed(hms);
    let three = text::split_on(hms, ':');
    assert(three =~= seq![h, m, s]);
    assert(three[0] == h && three[1] == m && three[2] == s);
    assert((3600 * x + 60 * y + z) * FLICKS as nat == ((x * FLICKS as nat) * 60 + y
        * FLICKS as nat) * 60 + z * FLICKS as nat) by (nonlinear_arith);
}

/// A time that is shown is read back as its whole seconds: nothing of it is lost but their
/// fraction.
pub proof fn law_shown_time_reads_back(flicks: nat)
    requires
        flicks / FLICKS as nat / 3600 <= u32::MAX,
    ensures
        mode::time_of(mode::time_text(flicks)) == Some(
            flicks / FLICKS as nat * FLICKS as nat,
        ),
{
    let total = flicks / FLICKS as nat;
    lemma_clock(total);
    if total / 3600 > 0 {
        lemma_hours(total / 3600, total / 60 % 60, total % 60);
    } else {
        lemma_minutes(total / 60 % 60, total % 60);
    }
}

proof fn lemma_clock(total: nat)
    ensures
        total == 3600 * (total / 3600) + 60 * (total / 60 % 60) + total % 60,
        total / 60 % 60 < 60,
        total % 60 < 60,
{
}

proof fn lemma_hours(x: nat, y: nat, z: nat)
    requires
        x <= u32::MAX,
        y < 60,
        z < 60,
    ensures
        mode::time_of(
            text::decimal(x) + ":"@ + text::padded(y, 2) + ":"@ + text::padded(z, 2),
        ) == Some((3600 * x + 60 * y + z) * FLICKS as nat),
{
    reveal_strlit(":");
    let (h, m, s) = (text::decimal(x), text::padded(y, 2), text::padded(z, 2));
    text::lemma_decimal(x);
    text::lemma_padded(y, 2);
    text::lemma_padded(z, 2);
    law_times_are_read(h, m, s);
    assert(h + ":"@ + m + ":"@ + s =~= h.push(':') + m.push(':') + s);
}

proof fn lemma_minutes(y: nat, z: nat)
    requires
        y < 60,
        z < 60,
    ensures
        mode::time_of(text::decimal(y) + ":"@ + text::padded(z, 2)) == Some(
            (60 * y + z) * FLICKS as nat,
        ),
{
    reveal_strlit(":");
    let (m, s) = (text::decimal(y), text::padded(z, 2));
    text::lemma_decimal(y);
    text::lemma_padded(z, 2);
    law_times_are_read(m, m, s);
    assert(m + ":"@ + s =~= m.push(':') + s);
}

/// A time with decimals is the nearest to what they write down, and what is shown of a clip's
/// length is read back as it was.
pub proof fn law_decimal_times_are_read(w: Seq<char>, d: Seq<char>, flicks: nat)
    requires
        is_count(w),
        text::all_digits(d),
        text::digits_value(w) <= u64::MAX,
        flicks <= u64::MAX,
    ensures
        mode::time_of(w.push('.') + d) matches Some(n) && {
            let t = number::ten(d.len());
            let exact = (text::digits_value(w) * t + text::digits_value(d)) * FLICKS;
            2 * exact <= 2 * (n * t) + t && 2 * (n * t) <= 2 * exact + t
        },
        mode::time_of(seconds::secs_text(flicks)) == Some(flicks),
{
    let s = w.push('.') + d;
    lemma_plain_digits(w);
    lemma_plain_digits(d);
    assert(text::is_digit(w[0]));
    let n = w.len() as int;
    text::lemma_first_at(s, '.');
    assert(s[n] == '.');
    let dot = text::first_at(s, '.');
    if dot < n {
        assert(s[dot] == w[dot]);
        assert(w.contains(w[dot]));
    }
    assert(s.take(n) =~= w);
    assert(s.skip(n + 1) =~= d);
    lemma_decimal_part(s);
    let x = text::digits_value(w);
    let v = text::digits_value(d);
    let t = number::ten(d.len());
    number::lemma_ten(d.len());
    let r = number::rounded_part(d, FLICKS as nat);
    let a = 2 * FLICKS as nat * v;
    assert(r * (2 * t) <= a + t && a + t < r * (2 * t) + 2 * t) by (nonlinear_arith)
        requires
            r == (a + t) / (2 * t),
            t > 0,
            a >= 0,
    ;
    let all = x * FLICKS as nat + r;
    assert((x * t + v) * FLICKS == x * t * FLICKS + v * FLICKS) by (nonlinear_arith);
    assert(all * t == x * FLICKS * t + r * t) by (nonlinear_arith)
        requires
            all == x * FLICKS + r,
    ;
    assert(x * FLICKS * t == x * t * FLICKS) by (nonlinear_arith);
    assert(a == 2 * (v * FLICKS)) by (nonlinear_arith)
        requires
            a == 2 * FLICKS as nat * v,
    ;
    assert(r * (2 * t) == 2 * (r * t)) by (nonlinear_arith);
    let shown = seconds::secs_text(flicks);
    seconds::law_seconds_read_back(flicks);
    seconds::lemma_shown(flicks);
    lemma_decimal_part(shown);
}

/// A decimal alone is a time.
proof fn lemma_decimal_part(s: Seq<char>)
    requires
        number::is_decimal(s),
        s.len() > 0,
        text::is_digit(s[0]),
        text::digits_value(number::whole_digits(s)) <= u64::MAX,
    ensures
        mode::time_of(s) == Some(number::scaled(s, FLICKS as nat)),
{
    let dot = text::first_at(s, '.');
    text::lemma_first_at(s, '.');
    assert forall|i: int| 0 <= i < s.len() implies text::is_digit(s[i]) || s[i] == '.' by {
        if i < dot {
            assert(s.take(dot)[i] == s[i]);
        } else if i > dot {
            assert(s.skip(dot + 1)[i - dot - 1] == s[i]);
        }
    }
    assert(!s.contains(':') && !s.contains('e') && !s.contains('E')) by {
        if s.contains(':') {
            let i = choose|i: int| 0 <= i < s.len() && s[i] == ':';
            assert(text::is_digit(s[i]) || s[i] == '.');
        }
        if s.contains('e') {
            let i = choose|i: int| 0 <= i < s.len() && s[i] == 'e';
            assert(text::is_digit(s[i]) || s[i] == '.');
        }
        if s.contains('E') {
            let i = choose|i: int| 0 <= i < s.len() && s[i] == 'E';
            assert(text::is_digit(s[i]) || s[i] == '.');
        }
    }
    assert(text::is_digit(s[s.len() - 1]) || s[s.len() - 1] == '.');
    lemma_untrimmed(s);
    lemma_one(s);
    lemma_none_at(s, 'e');
    lemma_none_at(s, 'E');
    assert(exponent::unsigned_part(s) == s);
    assert(s.take(s.len() as int) =~= s);
    lemma_small(text::digits_value(number::whole_digits(s)));
    reveal_with_fuel(mode::time_from, 2);
    assert(0 * 60 + number::scaled(s, FLICKS as nat) == number::scaled(s, FLICKS as nat));
}

// Sizes.

proof fn lemma_unit_at(s: Seq<char>, i: int, n: int)
    requires
        0 <= i <= n <= s.len(),
        forall|k: int| i <= k < n ==> text::is_digit(#[trigger] s[k]),
        n < s.len() ==> !text::is_digit(s[n]) && s[n] != '.',
    ensures
        mode::unit_at(s, i) == n,
    decreases n - i,
{
    if i < n {
        assert(text::is_digit(s[i]));
        lemma_unit_at(s, i + 1, n);
    }
}

/// A size is its number times its unit: nothing and `B` are bytes, `K` and `M` count in
/// thousands, and `Ki` and `Mi` in 1024s, with a `B` behind them or not and in either case.
/// Nothing else is a unit.
pub proof fn law_sizes_are_read(digits: Seq<char>, unit: Seq<char>)
    requires
        is_count(digits),
        0 < text::digits_value(digits) <= u64::MAX,
        forall|i: int| 0 <= i < unit.len() ==> 'A' <= #[trigger] unit[i] <= 'z',
    ensures
        ({
            let n = text::digits_value(digits);
            let u = text::lowercase(unit);
            mode::size_of(digits + unit) == if u.len() == 0 || u == seq!['b'] {
                Some(n)
            } else if u == seq!['k'] || u == seq!['k', 'b'] {
                Some(n * 1000)
            } else if u == seq!['m'] || u == seq!['m', 'b'] {
                Some(n * 1_000_000)
            } else if u == seq!['k', 'i'] || u == seq!['k', 'i', 'b'] {
                Some(n * 1024)
            } else if u == seq!['m', 'i'] || u == seq!['m', 'i', 'b'] {
                Some(n * 1_048_576)
            } else {
                None
            }
        }),
{
    let n = text::digits_value(digits);
    let u = text::lowercase(unit);
    let s = digits + unit;
    lemma_plain_digits(digits);
    assert(text::is_digit(digits[0]));
    assert(s[0] == digits[0]);
    if unit.len() > 0 {
        assert(s.last() == unit[unit.len() - 1]);
    } else {
        assert(s.last() == digits[digits.len() - 1]);
    }
    lemma_untrimmed(s);
    let low = text::lowercase(s);
    assert(low =~= digits + u);
    assert forall|i: int| 0 <= i < u.len() implies 'A' <= #[trigger] u[i] <= 'z' by {
        assert(u[i] == text::lower(unit[i]));
    }
    let last_b = low.last() == 'b';
    assert(last_b == (u.len() > 0 && u.last() == 'b')) by {
        if u.len() > 0 {
            assert(low.last() == u[u.len() - 1]);
        } else {
            assert(low.last() == digits[digits.len() - 1]);
            assert(text::is_digit(digits[digits.len() - 1]));
        }
    }
    let t = if last_b {
        low.drop_last()
    } else {
        low
    };
    let v = if last_b {
        u.drop_last()
    } else {
        u
    };
    assert(t =~= digits + v);
    let k = digits.len() as int;
    assert forall|i: int| 0 <= i < k implies text::is_digit(#[trigger] t[i]) by {
        assert(t[i] == digits[i]);
    }
    if v.len() > 0 {
        assert(t[k] == u[0]);
    }
    lemma_unit_at(t, 0, k);
    assert(t.take(k) =~= digits);
    assert(t.skip(k) =~= v);
    if v.len() > 0 {
        assert(v[0] == u[0]);
        assert(v.last() == u[v.len() - 1]);
        lemma_untrimmed(v);
    } else {
        assert(text::trim(v) =~= v);
    }
    lemma_none_at(digits, '.');
    assert(digits.take(k) =~= digits);
    lemma_small(n);
    let none = Seq::<char>::empty();
    assert(number::after_point(digits) =~= none);
    seconds::lemma_no_decimals(1);
    seconds::lemma_no_decimals(1000);
    seconds::lemma_no_decimals(1_000_000);
    seconds::lemma_no_decimals(1024);
    seconds::lemma_no_decimals(1_048_576);
    reveal_strlit("k");
    reveal_strlit("m");
    reveal_strlit("ki");
    reveal_strlit("mi");
    assert("k"@ =~= seq!['k']);
    assert("m"@ =~= seq!['m']);
    assert("ki"@ =~= seq!['k', 'i']);
    assert("mi"@ =~= seq!['m', 'i']);
    lemma_units(u, v);
    assert(number::is_decimal(digits));
    assert(number::is_positive(digits));
    assert(number::whole_digits(digits) == digits);
    assert(number::scaled(digits, 1) == n);
    assert(number::scaled(digits, 1000) == n * 1000);
    assert(number::scaled(digits, 1_000_000) == n * 1_000_000);
    assert(number::scaled(digits, 1024) == n * 1024);
    assert(number::scaled(digits, 1_048_576) == n * 1_048_576);
    assert(mode::unit_at(t, 0) == k);
    assert(mode::size_of(s) == match mode::unit_scale(v) {
        Some(scale) => Some(number::scaled(digits, scale)),
        None => None,
    });
}

/// Without the last `b`.
proof fn lemma_units(u: Seq<char>, v: Seq<char>)
    requires
        v == if u.len() > 0 && u.last() == 'b' {
            u.drop_last()
        } else {
            u
        },
    ensures
        (v.len() == 0) == (u.len() == 0 || u == seq!['b']),
        (v == seq!['k']) == (u == seq!['k'] || u == seq!['k', 'b']),
        (v == seq!['m']) == (u == seq!['m'] || u == seq!['m', 'b']),
        (v == seq!['k', 'i']) == (u == seq!['k', 'i'] || u == seq!['k', 'i', 'b']),
        (v == seq!['m', 'i']) == (u == seq!['m', 'i'] || u == seq!['m', 'i', 'b']),
{
    if u.len() > 0 && u.last() == 'b' {
        assert(v.push('b') =~= u);
        assert(seq!['k'].push('b') =~= seq!['k', 'b']);
        assert(seq!['m'].push('b') =~= seq!['m', 'b']);
        assert(seq!['k', 'i'].push('b') =~= seq!['k', 'i', 'b']);
        assert(seq!['m', 'i'].push('b') =~= seq!['m', 'i', 'b']);
        assert(v.len() == 0 ==> u =~= seq!['b']);
        assert(seq!['k'].last() != 'b' && seq!['m'].last() != 'b' && seq!['k', 'i'].last() != 'b'
            && seq!['m', 'i'].last() != 'b');
        assert(seq!['b'].drop_last() =~= Seq::<char>::empty());
        assert(seq!['k', 'b'].drop_last() =~= seq!['k']);
        assert(seq!['m', 'b'].drop_last() =~= seq!['m']);
        assert(seq!['k', 'i', 'b'].drop_last() =~= seq!['k', 'i']);
        assert(seq!['m', 'i', 'b'].drop_last() =~= seq!['m', 'i']);
    } else {
        assert(u != seq!['b'] && u != seq!['k', 'b'] && u != seq!['m', 'b'] && u != seq![
            'k',
            'i',
            'b',
        ] && u != seq!['m', 'i', 'b']) by {
            assert(seq!['b'].last() == 'b' && seq!['k', 'b'].last() == 'b' && seq!['m', 'b'].last()
                == 'b' && seq!['k', 'i', 'b'].last() == 'b' && seq!['m', 'i', 'b'].last() == 'b');
        }
    }
}

/// What a size is shown as: below ten million bytes in thousands, rounded up, and above in
/// millions with the nearest tenth.
pub proof fn law_sizes_are_shown(bytes: nat)
    ensures
        bytes < 10_000_000 ==> exists|k: nat|
            mode::size_text(bytes) == #[trigger] (text::decimal(k) + " KB"@) && bytes <= 1000 * k
                && 1000 * k < bytes + 1000,
        bytes >= 10_000_000 ==> exists|m: nat, t: nat|
            mode::size_text(bytes) == #[trigger] (text::decimal(m) + "."@ + text::decimal(t)
                + " MB"@) && t < 10 && 20 * bytes <= 2_000_000 * (10 * m + t) + 1_000_000
                && 2_000_000 * (10 * m + t) <= 20 * bytes + 1_000_000,
{
    if bytes < 10_000_000 {
        let k = (bytes + 999) / 1000;
        assert(mode::size_text(bytes) == text::decimal(k) + " KB"@);
    } else {
        let tenths = crate::display::rounded_even(bytes * 10, 1_000_000);
        let (m, t) = (tenths / 10, tenths % 10);
        assert(mode::size_text(bytes) == text::decimal(m) + "."@ + text::decimal(t) + " MB"@);
    }
}

// Modes.

/// A number, with `k` or `kbps` behind it or not, is a constant bitrate where MP3 has it, and
/// `V` with a digit is a variable one.
pub proof fn law_modes_are_read(kbps: nat, q: nat)
    requires
        kbps <= u16::MAX,
        q <= u8::MAX,
    ensures
        ({
            let known = kbps == 32 || kbps == 40 || kbps == 48 || kbps == 56 || kbps == 64 || kbps
                == 80 || kbps == 96 || kbps == 112 || kbps == 128 || kbps == 160 || kbps == 192
                || kbps == 224 || kbps == 256 || kbps == 320;
            let want = if known {
                Some(Mode::Cbr(kbps as u16))
            } else {
                None
            };
            &&& mode::mode_of(text::decimal(kbps)) == want
            &&& mode::mode_of(text::decimal(kbps).push('k')) == want
            &&& mode::mode_of(text::decimal(kbps).push('K')) == want
            &&& mode::mode_of(text::decimal(kbps) + "kbps"@) == want
            &&& mode::mode_of(seq!['v'] + text::decimal(q)) == if q <= 9 {
                Some(Mode::Vbr(q as u8))
            } else {
                None
            }
            &&& mode::mode_of(seq!['V'] + text::decimal(q)) == if q <= 9 {
                Some(Mode::Vbr(q as u8))
            } else {
                None
            }
        }),
{
    let d = text::decimal(kbps);
    text::lemma_decimal(kbps);
    let none = Seq::<char>::empty();
    assert(text::lowercase(none) =~= none);
    assert(text::lowercase(seq!['k']) =~= seq!['k']);
    assert(text::lowercase(seq!['K']) =~= seq!['k']);
    lemma_mode(d, none, none);
    lemma_mode(d, seq!['k'], seq!['k']);
    lemma_mode(d, seq!['K'], seq!['k']);
    reveal_strlit("kbps");
    assert(text::lowercase("kbps"@) =~= "kbps"@);
    lemma_mode(d, "kbps"@, "kbps"@);
    assert(d + none =~= d);
    assert(d + seq!['k'] =~= d.push('k'));
    assert(d + seq!['K'] =~= d.push('K'));
    let e = text::decimal(q);
    text::lemma_decimal(q);
    lemma_quality(e, 'v');
    lemma_quality(e, 'V');
}

proof fn lemma_mode(d: Seq<char>, unit: Seq<char>, low: Seq<char>)
    requires
        is_count(d),
        text::digits_value(d) <= u16::MAX,
        text::lowercase(unit) == low,
        low.len() == 0 || low == seq!['k'] || low == "kbps"@,
        unit.len() > 0 ==> !text::is_space(unit.last()),
    ensures
        mode::mode_of(d + unit) == if mode::is_rate(text::digits_value(d) as int) {
            Some(Mode::Cbr(text::digits_value(d) as u16))
        } else {
            None
        },
{
    reveal_strlit("kbps");
    reveal_strlit("k");
    lemma_plain_digits(d);
    assert(text::is_digit(d[0]));
    let s = d + unit;
    assert(s[0] == d[0]);
    if unit.len() > 0 {
        assert(s.last() == unit.last());
    } else {
        assert(s.last() == d[d.len() - 1]);
    }
    lemma_untrimmed(s);
    let t = text::lowercase(s);
    assert(t =~= d + low);
    assert(low.len() == unit.len());
    let n = d.len() as int;
    assert("k"@ =~= seq!['k']);
    if low.len() == 0 {
        assert(t =~= d);
        assert(t.last() == d[n - 1]);
        assert(text::is_digit(d[n - 1]));
        if mode::ends(t, "kbps"@) {
            assert(t.skip(t.len() - 4)[3] == t.last());
        }
        if mode::ends(t, "k"@) {
            assert(t.skip(t.len() - 1)[0] == t.last());
        }
        assert(mode::without_unit(t) == d);
    } else if low.len() == 1 {
        assert(t.last() == 'k');
        if mode::ends(t, "kbps"@) {
            assert(t.skip(t.len() - 4)[3] == t.last());
        }
        assert(t.skip(t.len() - 1) =~= "k"@);
        assert(t.take(t.len() - 1) =~= d);
    } else {
        assert(t.skip(t.len() - 4) =~= "kbps"@);
        assert(t.take(t.len() - 4) =~= d);
    }
    assert(mode::without_unit(t) == d);
}

proof fn lemma_quality(e: Seq<char>, v: char)
    requires
        is_count(e),
        text::digits_value(e) <= u8::MAX,
        v == 'v' || v == 'V',
    ensures
        mode::mode_of(seq![v] + e) == if text::digits_value(e) <= 9 {
            Some(Mode::Vbr(text::digits_value(e) as u8))
        } else {
            None
        },
{
    reveal_strlit("kbps");
    reveal_strlit("k");
    lemma_plain_digits(e);
    let s = seq![v] + e;
    assert(s.last() == e[e.len() - 1]);
    assert(text::is_digit(e[e.len() - 1]));
    lemma_untrimmed(s);
    let t = text::lowercase(s);
    assert(t =~= seq!['v'] + e);
    assert(t.last() == e[e.len() - 1]);
    if mode::ends(t, "kbps"@) {
        assert(t.skip(t.len() - 4)[3] == t.last());
    }
    if mode::ends(t, "k"@) {
        assert(t.skip(t.len() - 1)[0] == t.last());
    }
    assert(mode::without_unit(t) == t);
    assert(t.skip(1) =~= e);
    assert(text::is_digit(e[0]));
}

} // verus!
