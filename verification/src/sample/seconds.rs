//! Seconds as they are shown: as few decimals as tell a time from every other.

use super::number;
use crate::display::FLICKS;
use crate::text;
use crate::text::{decimal_string, push_padded};
use vstd::prelude::*;
use vstd::string::*;

verus! {

/// Part of a second with `k` decimals, rounded to the nearest.
pub open spec fn decimals(part: nat, k: nat) -> nat {
    (2 * part * number::ten(k) + FLICKS as nat) / (2 * FLICKS as nat)
}

/// What `k` decimals are read as.
pub open spec fn read_back(m: nat, k: nat) -> nat {
    (2 * FLICKS as nat * m + number::ten(k)) / (2 * number::ten(k))
}

/// The fewest decimals, from `k` on, that part of a second is read back from.
pub open spec fn places(part: nat, k: nat) -> nat
    decreases 9 - k,
{
    if k >= 9 || read_back(decimals(part, k), k) == part {
        k
    } else {
        places(part, k + 1)
    }
}

/// A time in seconds.
pub open spec fn secs_text(flicks: nat) -> Seq<char> {
    let part = flicks % FLICKS as nat;
    let k = places(part, 0);
    text::decimal(flicks / FLICKS as nat) + (if k > 0 {
        "."@ + text::padded(decimals(part, k), k)
    } else {
        Seq::empty()
    })
}

proof fn lemma_nine(part: nat)
    requires
        part < FLICKS,
    ensures
        number::ten(9) == 1_000_000_000,
        read_back(decimals(part, 9), 9) == part,
{
    number::lemma_ten(0);
    number::lemma_ten(1);
    number::lemma_ten(2);
    number::lemma_ten(3);
    number::lemma_ten(4);
    number::lemma_ten(5);
    number::lemma_ten(6);
    number::lemma_ten(7);
    number::lemma_ten(8);
    let m = decimals(part, 9);
    lemma_rounds_back(part as int, m as int);
    assert(2 * FLICKS as nat * m == 1_411_200_000 * m) by (nonlinear_arith)
        requires
            FLICKS == 705_600_000,
    ;
    assert(2 * part * number::ten(9) == 2_000_000_000 * part) by (nonlinear_arith)
        requires
            number::ten(9) == 1_000_000_000,
    ;
}

proof fn lemma_rounds_back(part: int, m: int)
    requires
        0 <= part,
        m == (2_000_000_000 * part + 705_600_000) / 1_411_200_000,
    ensures
        (1_411_200_000 * m + 1_000_000_000) / 2_000_000_000 == part,
{
    let x = 2_000_000_000 * part + 705_600_000;
    assert(1_411_200_000 * m <= x < 1_411_200_000 * m + 1_411_200_000);
    let y = 1_411_200_000 * m + 1_000_000_000;
    assert(2_000_000_000 * part <= y < 2_000_000_000 * part + 2_000_000_000);
}

proof fn lemma_places(part: nat, k: nat)
    requires
        part < FLICKS,
        k <= 9,
    ensures
        k <= places(part, k) <= 9,
        read_back(decimals(part, places(part, k)), places(part, k)) == part,
    decreases 9 - k,
{
    lemma_nine(part);
    if k < 9 && read_back(decimals(part, k), k) != part {
        lemma_places(part, k + 1);
    }
}

/// Decimals that are read back as less than a second are less than one.
proof fn lemma_below_one(m: nat, k: nat)
    requires
        read_back(m, k) < FLICKS,
    ensures
        m < number::ten(k),
{
    number::lemma_ten(k);
    let t = number::ten(k);
    if m >= t {
        assert(2 * FLICKS as nat * m + t >= FLICKS * (2 * t)) by (nonlinear_arith)
            requires
                m >= t,
                FLICKS == 705_600_000,
        ;
        let x = 2 * FLICKS as nat * m + t;
        assert(x / (2 * t) >= FLICKS) by (nonlinear_arith)
            requires
                x >= FLICKS * (2 * t),
                t > 0,
        ;
    }
}

proof fn lemma_padded_len(m: nat, k: nat)
    requires
        m < number::ten(k),
        k > 0,
    ensures
        text::padded(m, k).len() == k,
{
    lemma_digits_of(m, k);
}

proof fn lemma_digits_of(m: nat, k: nat)
    requires
        m < number::ten(k),
        k > 0,
    ensures
        text::decimal(m).len() <= k,
    decreases k,
{
    if m >= 10 {
        number::lemma_ten((k - 1) as nat);
        if k == 1 {
            number::lemma_ten(0);
        } else {
            lemma_digits_of(m / 10, (k - 1) as nat);
        }
    }
}

pub proof fn lemma_no_decimals(scale: nat)
    ensures
        number::rounded_part(Seq::<char>::empty(), scale) == 0,
{
    let none = Seq::<char>::empty();
    number::lemma_ten(0);
    assert(text::digits_value(none) == 0);
    assert(2 * scale * 0 == 0) by (nonlinear_arith);
    let t = number::ten(0);
    assert(t / (2 * t) == 0) by (nonlinear_arith)
        requires
            t == 1,
    ;
}

/// A time that is shown is read back as the same time.
pub proof fn law_seconds_read_back(flicks: nat)
    ensures
        number::is_decimal(secs_text(flicks)),
        number::scaled(secs_text(flicks), FLICKS as nat) == flicks,
{
    let part = flicks % FLICKS as nat;
    let whole = flicks / FLICKS as nat;
    let k = places(part, 0);
    let m = decimals(part, k);
    let w = text::decimal(whole);
    let s = secs_text(flicks);
    lemma_places(part, 0);
    text::lemma_decimal(whole);
    text::lemma_first_at(s, '.');
    let dot = text::first_at(s, '.');
    assert forall|i: int| 0 <= i < w.len() implies s[i] != '.' by {
        assert(text::is_digit(w[i]));
    }
    if k > 0 {
        reveal_strlit(".");
        lemma_below_one(m, k);
        lemma_padded_len(m, k);
        text::lemma_padded(m, k);
        let p = text::padded(m, k);
        assert(s[w.len() as int] == '.');
        assert(dot == w.len());
        assert(s.take(dot) =~= w);
        assert(s.skip(dot + 1) =~= p);
        assert(number::rounded_part(p, FLICKS as nat) == read_back(m, k));
    } else {
        assert(s =~= w);
        assert(dot == s.len());
        assert(s.take(dot) =~= w);
        number::lemma_ten(0);
        lemma_below_one(m, 0);
        lemma_no_decimals(FLICKS as nat);
    }
}

/// What is shown begins with a digit, and its whole seconds are those of the time.
pub proof fn lemma_shown(flicks: nat)
    ensures
        secs_text(flicks).len() > 0,
        text::is_digit(secs_text(flicks)[0]),
        text::digits_value(number::whole_digits(secs_text(flicks))) == flicks / FLICKS as nat,
{
    let part = flicks % FLICKS as nat;
    let whole = flicks / FLICKS as nat;
    let k = places(part, 0);
    let w = text::decimal(whole);
    let s = secs_text(flicks);
    text::lemma_decimal(whole);
    text::lemma_first_at(s, '.');
    let dot = text::first_at(s, '.');
    assert(s[0] == w[0]);
    assert(text::is_digit(w[0]));
    assert forall|i: int| 0 <= i < w.len() implies s[i] != '.' by {
        assert(text::is_digit(w[i]));
    }
    if k > 0 {
        reveal_strlit(".");
        assert(s[w.len() as int] == '.');
        assert(s.take(dot) =~= w);
    } else {
        assert(s =~= w);
        assert(s.take(dot) =~= w);
    }
}

/// `90`, or `90.5`.
pub fn format_secs(flicks: u64) -> (s: String)
    ensures
        s@ == secs_text(flicks as nat),
{
    let mut s = decimal_string(flicks / FLICKS);
    let part: u128 = (flicks % FLICKS) as u128;
    let mut k: usize = 0;
    let mut t: u128 = 1;
    let mut m: u128 = (2 * part + 705_600_000) / 1_411_200_000;
    proof {
        number::lemma_ten(0);
        lemma_nine(part as nat);
    }
    while k < 9 && (1_411_200_000 * m + t) / (2 * t) != part
        invariant
            k <= 9,
            part < FLICKS,
            t == number::ten(k as nat),
            1 <= t <= 1_000_000_000,
            k < 9 ==> t <= 100_000_000,
            number::ten(9) == 1_000_000_000,
            m == decimals(part as nat, k as nat),
            m <= 1_000_000_000,
            places(part as nat, 0) == places(part as nat, k as nat),
        decreases 9 - k,
    {
        proof {
            lemma_ten_small(k as nat);
            lemma_ten_small((k + 1) as nat);
            number::lemma_ten(k as nat);
        }
        k += 1;
        t = t * 10;
        assert(2 * part * t <= 2 * 705_599_999 * 1_000_000_000) by (nonlinear_arith)
            requires
                part <= 705_599_999,
                t <= 1_000_000_000,
        ;
        m = (2 * part * t + 705_600_000) / 1_411_200_000;
    }
    if k > 0 {
        s.append(".");
        push_padded(&mut s, m as u64, k);
        assert(s@ =~= secs_text(flicks as nat));
    } else {
        assert(s@ =~= secs_text(flicks as nat));
    }
    s
}

proof fn lemma_ten_small(k: nat)
    requires
        k <= 9,
    ensures
        number::ten(k) <= 1_000_000_000,
        k < 9 ==> number::ten(k) <= 100_000_000,
{
    number::lemma_ten(0);
    number::lemma_ten(1);
    number::lemma_ten(2);
    number::lemma_ten(3);
    number::lemma_ten(4);
    number::lemma_ten(5);
    number::lemma_ten(6);
    number::lemma_ten(7);
    number::lemma_ten(8);
}

} // verus!
