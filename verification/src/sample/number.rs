//! Numbers with a decimal point, scaled up to whole ones.

use super::doubling;
use super::doubling::{copied, nearly_one, seen};
use crate::text;
use crate::text::{digit, digit_of, is_digit_char};
use vstd::arithmetic::div_mod::{
    lemma_div_denominator, lemma_fundamental_div_mod, lemma_hoist_over_denominator,
};
use vstd::arithmetic::power::{lemma_pow1, lemma_pow_adds, lemma_pow_positive, pow};
use vstd::arithmetic::power2::{lemma_pow2_adds, lemma_pow2_pos, lemma_pow2_unfold, pow2};
use vstd::prelude::*;

verus! {

/// A power of ten.
pub open spec fn ten(k: nat) -> nat {
    pow(10, k) as nat
}

/// Digits with at most one point among or around them, and at least one digit.
pub open spec fn is_decimal(s: Seq<char>) -> bool {
    let dot = text::first_at(s, '.');
    &&& text::all_digits(s.take(dot))
    &&& if dot < s.len() {
        text::all_digits(s.skip(dot + 1)) && s.len() > 1
    } else {
        s.len() > 0
    }
}

/// The digits before the point.
pub open spec fn whole_digits(s: Seq<char>) -> Seq<char> {
    s.take(text::first_at(s, '.'))
}

/// The digits after the point.
pub open spec fn after_point(s: Seq<char>) -> Seq<char> {
    let dot = text::first_at(s, '.');
    if dot < s.len() {
        s.skip(dot + 1)
    } else {
        Seq::empty()
    }
}

/// Digits after a point, times `scale`, rounded to the nearest whole number.
pub open spec fn rounded_part(digits: Seq<char>, scale: nat) -> nat {
    (2 * scale * text::digits_value(digits) + ten(digits.len())) / (2 * ten(digits.len()))
}

/// A decimal times `scale`, rounded to the nearest whole number.
pub open spec fn scaled(s: Seq<char>, scale: nat) -> nat {
    text::digits_value(whole_digits(s)) * scale + rounded_part(after_point(s), scale)
}

/// Whether a decimal, as a floating-point number of 64 bits, is more than zero.
pub open spec fn is_positive(s: Seq<char>) -> bool {
    text::digits_value(whole_digits(s)) > 0 || doubling::is_seen(after_point(s))
}

/// Whether a decimal, as a floating-point number of 64 bits, is 60 or more.
pub open spec fn is_minute(s: Seq<char>) -> bool {
    let whole = text::digits_value(whole_digits(s));
    whole >= 60 || whole == 59 && doubling::rounds_up(after_point(s))
}

/// What a floating-point number of 64 bits cannot hold: halfway from the greatest that it can
/// to the next that it would, or more.
pub open spec fn is_infinite(whole: nat) -> bool {
    whole >= (pow2(54) - 1) * pow2(970)
}

pub proof fn lemma_ten(k: nat)
    ensures
        ten(k) > 0,
        ten(k + 1) == 10 * ten(k),
        ten(0) == 1,
{
    lemma_pow_positive(10, k);
    lemma_pow_positive(10, k + 1);
    lemma_pow_adds(10, k, 1);
    lemma_pow1(10);
    vstd::arithmetic::power::lemma_pow0(10);
}

/// What the digits after a point come to, times `scale`, rounded down.
spec fn floored(digits: Seq<char>, scale: nat) -> nat {
    scale * text::digits_value(digits) / ten(digits.len())
}

/// The value of digits by their first one.
pub proof fn lemma_value_first(digits: Seq<char>)
    requires
        digits.len() > 0,
    ensures
        text::digits_value(digits) == text::digit_value(digits[0]) * ten(
            (digits.len() - 1) as nat,
        ) + text::digits_value(digits.drop_first()),
    decreases digits.len(),
{
    let n = (digits.len() - 1) as nat;
    lemma_ten(n);
    if digits.len() == 1 {
        assert(digits.drop_last() =~= Seq::<char>::empty());
        assert(digits.drop_first() =~= Seq::<char>::empty());
        lemma_ten(0);
    } else {
        let front = digits.drop_last();
        lemma_value_first(front);
        assert(front.drop_first() =~= digits.drop_first().drop_last());
        assert(digits.drop_first().last() == digits.last());
        let m = (n - 1) as nat;
        lemma_ten(m);
        let d = text::digit_value(digits[0]);
        assert((d * ten(m)) * 10 == d * (10 * ten(m))) by (nonlinear_arith);
    }
}

proof fn lemma_floored_step(digits: Seq<char>, scale: nat)
    requires
        digits.len() > 0,
    ensures
        floored(digits, scale) == (scale * text::digit_value(digits[0]) + floored(
            digits.drop_first(),
            scale,
        )) / 10,
{
    let d = text::digit_value(digits[0]);
    let rest = text::digits_value(digits.drop_first());
    let m = (digits.len() - 1) as nat;
    let t = ten(m);
    lemma_ten(m);
    lemma_value_first(digits);
    let x = scale * (d * t + rest);
    assert(x == (scale * d) * t + scale * rest) by (nonlinear_arith)
        requires
            x == scale * (d * t + rest),
    ;
    lemma_div_denominator(x as int, t as int, 10);
    assert(t * 10 == ten(digits.len()));
    lemma_hoist_over_denominator((scale * rest) as int, (scale * d) as int, t);
    assert(x / t == scale * d + scale * rest / t);
}

/// Rounding is rounding down twice as much and one more, halved.
proof fn lemma_rounded(digits: Seq<char>, scale: nat)
    ensures
        rounded_part(digits, scale) == (floored(digits, 2 * scale) + 1) / 2,
{
    let t = ten(digits.len());
    lemma_ten(digits.len());
    let x = 2 * scale * text::digits_value(digits);
    lemma_div_denominator((x + t) as int, t as int, 2);
    assert(t * 2 == 2 * t);
    lemma_hoist_over_denominator(x as int, 1, t);
    assert((x + t) / t == x / t + 1) by {
        assert(1 * t == t) by (nonlinear_arith);
    }
}

proof fn lemma_floored_small(digits: Seq<char>, scale: nat)
    requires
        text::all_digits(digits),
    ensures
        floored(digits, scale) <= scale,
    decreases digits.len(),
{
    lemma_ten(digits.len());
    if digits.len() == 0 {
        assert(text::digits_value(digits) == 0);
        assert(scale * 0 == 0) by (nonlinear_arith);
        assert(floored(digits, scale) == 0nat / ten(0));
        lemma_ten(0);
    } else {
        let rest = digits.drop_first();
        assert(text::all_digits(rest)) by {
            assert forall|i: int| 0 <= i < rest.len() implies text::is_digit(#[trigger] rest[i]) by {
                assert(rest[i] == digits[i + 1]);
            }
        }
        lemma_floored_small(rest, scale);
        lemma_floored_step(digits, scale);
        let d = text::digit_value(digits[0]);
        assert(text::is_digit(digits[0]));
        assert(d <= 9);
        assert(scale * d <= scale * 9) by (nonlinear_arith)
            requires
                d <= 9,
        ;
    }
}

pub proof fn lemma_below_ten(digits: Seq<char>)
    requires
        text::all_digits(digits),
    ensures
        text::digits_value(digits) < ten(digits.len()),
    decreases digits.len(),
{
    if digits.len() == 0 {
        lemma_ten(0);
    } else {
        let front = digits.drop_last();
        assert forall|i: int| 0 <= i < front.len() implies text::is_digit(#[trigger] front[i]) by {
            assert(front[i] == digits[i]);
        }
        lemma_below_ten(front);
        lemma_ten(front.len());
        assert(text::is_digit(digits.last()));
    }
}

/// Enough zeros behind a point leave nothing.
pub proof fn lemma_leading_zeros(n: nat, digits: Seq<char>, scale: nat)
    requires
        text::all_digits(digits),
        n >= 10,
        scale <= 0x1_0000_0000,
    ensures
        rounded_part(Seq::new(n, |i: int| '0') + digits, scale) == 0,
{
    let all = Seq::new(n, |i: int| '0') + digits;
    lemma_floored_zeros(n, digits, 2 * scale);
    lemma_rounded(all, scale);
    lemma_ten_least(n);
    let f = floored(all, 2 * scale);
    assert(f == 0) by (nonlinear_arith)
        requires
            f * ten(n) <= 2 * scale,
            scale <= 0x1_0000_0000,
            ten(n) >= 10_000_000_000,
    ;
}

proof fn lemma_ten_least(n: nat)
    requires
        n >= 10,
    ensures
        ten(n) >= 10_000_000_000,
    decreases n,
{
    if n > 10 {
        lemma_ten((n - 1) as nat);
        lemma_ten_least((n - 1) as nat);
    } else {
        lemma_ten(0);
        lemma_ten(1);
        lemma_ten(2);
        lemma_ten(3);
        lemma_ten(4);
        lemma_ten(5);
        lemma_ten(6);
        lemma_ten(7);
        lemma_ten(8);
        lemma_ten(9);
    }
}

proof fn lemma_floored_zeros(n: nat, digits: Seq<char>, scale: nat)
    requires
        text::all_digits(digits),
    ensures
        floored(Seq::new(n, |i: int| '0') + digits, scale) * ten(n) <= scale,
    decreases n,
{
    let all = Seq::new(n, |i: int| '0') + digits;
    if n == 0 {
        assert(all =~= digits);
        lemma_floored_small(digits, scale);
        lemma_ten(0);
        assert(floored(digits, scale) * 1 == floored(digits, scale)) by (nonlinear_arith);
    } else {
        let m = (n - 1) as nat;
        lemma_floored_zeros(m, digits, scale);
        assert(all.drop_first() =~= Seq::new(m, |i: int| '0') + digits);
        lemma_floored_step(all, scale);
        lemma_ten(m);
        assert(all[0] == '0');
        let f = floored(all.drop_first(), scale);
        let t = ten(m);
        assert(scale * 0 == 0) by (nonlinear_arith);
        assert((f / 10) * (10 * t) <= f * t) by (nonlinear_arith)
            requires
                t > 0,
        ;
    }
}

/// The value of digits, or `cap` where that is less.
pub fn capped_value(v: &Vec<char>, from: usize, to: usize, cap: u128) -> (n: u128)
    requires
        from <= to <= v.len(),
        text::all_digits(v@.subrange(from as int, to as int)),
        cap <= 0x1_0000_0000_0000_0000_0000,
    ensures
        n == if text::digits_value(v@.subrange(from as int, to as int)) < cap {
            text::digits_value(v@.subrange(from as int, to as int))
        } else {
            cap as nat
        },
{
    let ghost s = v@.subrange(from as int, to as int);
    let mut n: u128 = 0;
    let mut i: usize = from;
    assert(s.take(0) =~= Seq::<char>::empty());
    while i < to
        invariant
            from <= i <= to <= v.len(),
            s == v@.subrange(from as int, to as int),
            text::all_digits(s),
            cap <= 0x1_0000_0000_0000_0000_0000,
            n <= cap,
            n == if text::digits_value(s.take(i - from)) < cap {
                text::digits_value(s.take(i - from))
            } else {
                cap as nat
            },
        decreases to - i,
    {
        proof {
            assert(s.take(i - from + 1).drop_last() =~= s.take(i - from));
            assert(s.take(i - from + 1).last() == s[i - from]);
            assert(text::is_digit(s[i - from]));
        }
        let next: u128 = n * 10 + digit_of(v[i]) as u128;
        n = if next < cap {
            next
        } else {
            cap
        };
        i += 1;
    }
    assert(s.take(s.len() as int) =~= s);
    n
}

/// A number with a decimal point.
pub struct Decimal {
    /// The number times the scale, rounded, or the most that 64 bits hold.
    pub value: u64,
    pub positive: bool,
    /// Whether it is 60 or more.
    pub minute: bool,
    pub finite: bool,
}

/// What a decimal comes to, times `scale`.
pub open spec fn is_reading(d: Decimal, s: Seq<char>, scale: nat) -> bool {
    let whole = text::digits_value(whole_digits(s));
    &&& d.value as nat == if scaled(s, scale) < u64::MAX {
        scaled(s, scale)
    } else {
        u64::MAX as nat
    }
    &&& d.positive == is_positive(s)
    &&& d.minute == is_minute(s)
    &&& d.finite == !is_infinite(whole)
}

/// Reads digits with at most one point, times `scale`.
pub fn read_decimal(v: &Vec<char>, from: usize, to: usize, scale: u64) -> (r: Option<Decimal>)
    requires
        from <= to <= v.len(),
        scale <= 0x1_0000_0000,
    ensures
        ({
            let s = v@.subrange(from as int, to as int);
            match r {
                None => !is_decimal(s),
                Some(d) => is_decimal(s) && is_reading(d, s, scale as nat),
            }
        }),
{
    let ghost s = v@.subrange(from as int, to as int);
    proof {
        text::lemma_first_at(s, '.');
    }
    let mut dot: usize = from;
    assert(s.skip(0) =~= s);
    while dot < to && v[dot] != '.'
        invariant
            from <= dot <= to <= v.len(),
            s == v@.subrange(from as int, to as int),
            text::first_at(s, '.') == (dot - from) + text::first_at(s.skip(dot - from), '.'),
        decreases to - dot,
    {
        proof {
            let rest = s.skip(dot - from);
            assert(rest[0] == v@[dot as int]);
            assert(rest.drop_first() =~= s.skip(dot - from + 1));
        }
        dot += 1;
    }
    proof {
        let rest = s.skip(dot - from);
        if dot < to {
            assert(rest[0] == v@[dot as int]);
        }
        assert(text::first_at(s, '.') == dot - from);
        assert(s.take(dot - from) =~= v@.subrange(from as int, dot as int));
    }
    if !digits_only(v, from, dot) {
        return None;
    }
    let begin: usize = if dot < to {
        dot + 1
    } else {
        to
    };
    proof {
        if dot < to {
            assert(s.skip(dot - from + 1) =~= v@.subrange(begin as int, to as int));
        } else {
            assert(after_point(s) =~= v@.subrange(begin as int, to as int));
        }
    }
    if !digits_only(v, begin, to) {
        return None;
    }
    if (dot < to && to - from <= 1) || from == to {
        return None;
    }
    let ghost after = after_point(s);
    assert(after =~= v@.subrange(begin as int, to as int));
    let whole = capped_value(v, from, dot, 0x1_0000_0000_0000_0000);
    let twice: u64 = 2 * scale;
    let mut y: u64 = 0;
    let mut i: usize = to;
    proof {
        assert(after.skip(after.len() as int) =~= Seq::<char>::empty());
        lemma_floored_small(Seq::empty(), 0);
        lemma_ten(0);
        assert(text::digits_value(Seq::<char>::empty()) == 0);
        assert(twice as nat * 0 == 0) by (nonlinear_arith);
        assert(floored(Seq::<char>::empty(), twice as nat) == 0);
    }
    while i > begin
        invariant
            from <= begin <= i <= to <= v.len(),
            after == v@.subrange(begin as int, to as int),
            text::all_digits(after),
            twice <= 0x2_0000_0000,
            y == floored(after.skip(i - begin), twice as nat),
        decreases i,
    {
        i -= 1;
        proof {
            let rest = after.skip(i - begin);
            assert(rest.drop_first() =~= after.skip(i - begin + 1));
            assert(rest[0] == v@[i as int]);
            assert(text::is_digit(after[i - begin]));
            lemma_floored_step(rest, twice as nat);
            let tail = after.skip(i - begin + 1);
            assert(text::all_digits(tail)) by {
                assert forall|k: int| 0 <= k < tail.len() implies text::is_digit(
                    #[trigger] tail[k],
                ) by {
                    assert(tail[k] == after[i - begin + 1 + k]);
                }
            }
            lemma_floored_small(tail, twice as nat);
            let d = text::digit_value(rest[0]);
            assert(twice * d <= twice * 9) by (nonlinear_arith)
                requires
                    d <= 9,
            ;
        }
        let d: u64 = digit_of(v[i]) as u64;
        y = (twice * d + y) / 10;
    }
    assert(after.skip(0) =~= after);
    proof {
        lemma_rounded(after, scale as nat);
        lemma_floored_small(after, twice as nat);
    }
    let part: u64 = (y + 1) / 2;
    let positive = whole > 0 || seen(v, begin, to);
    let minute = whole >= 60 || (whole == 59 && nearly_one(v, begin, to));
    assert(whole * scale <= 0x1_0000_0000_0000_0000 * 0x1_0000_0000) by (nonlinear_arith)
        requires
            whole <= 0x1_0000_0000_0000_0000,
            scale <= 0x1_0000_0000,
    ;
    let total: u128 = whole * scale as u128 + part as u128;
    let ghost exact = text::digits_value(whole_digits(s));
    let value: u64 = if total < u64::MAX as u128 {
        total as u64
    } else {
        u64::MAX
    };
    proof {
        if exact >= 0x1_0000_0000_0000_0000 && scale > 0 {
            assert(exact * scale >= 0x1_0000_0000_0000_0000) by (nonlinear_arith)
                requires
                    exact >= 0x1_0000_0000_0000_0000,
                    scale >= 1,
            ;
            assert(whole * scale >= 0x1_0000_0000_0000_0000) by (nonlinear_arith)
                requires
                    whole == 0x1_0000_0000_0000_0000,
                    scale >= 1,
            ;
        }
        if scale == 0 {
            assert(exact * scale == 0 && whole * scale == 0) by (nonlinear_arith)
                requires
                    scale == 0,
            ;
        }
    }
    let finite = !too_great(v, from, dot);
    Some(Decimal { value, positive, minute, finite })
}

// Whether a number is infinite.

/// Digits of half the value, rounded down.
fn halved(v: &Vec<char>) -> (r: Vec<char>)
    requires
        text::all_digits(v@),
    ensures
        text::all_digits(r@),
        text::digits_value(r@) == text::digits_value(v@) / 2,
{
    let mut r: Vec<char> = Vec::new();
    let mut carry: u32 = 0;
    let mut i: usize = 0;
    assert(v@.take(0) =~= Seq::<char>::empty());
    while i < v.len()
        invariant
            i <= v.len(),
            text::all_digits(v@),
            text::all_digits(r@),
            carry == text::digits_value(v@.take(i as int)) % 2,
            text::digits_value(r@) == text::digits_value(v@.take(i as int)) / 2,
        decreases v.len() - i,
    {
        proof {
            assert(v@.take(i + 1).drop_last() =~= v@.take(i as int));
            assert(v@.take(i + 1).last() == v@[i as int]);
            assert(text::is_digit(v@[i as int]));
        }
        let d: u32 = carry * 10 + digit_of(v[i]);
        let ghost had = r@;
        r.push(digit((d / 2) as u8));
        proof {
            assert(r@.drop_last() =~= had);
            assert forall|k: int| 0 <= k < r@.len() implies text::is_digit(#[trigger] r@[k]) by {
                if k < had.len() {
                    assert(r@[k] == had[k]);
                }
            }
        }
        carry = d % 2;
        i += 1;
    }
    assert(v@.take(v@.len() as int) =~= v@);
    r
}

/// Whether digits are more than a floating-point number can hold: halved often enough, they
/// are compared with its precision.
fn too_great(v: &Vec<char>, from: usize, to: usize) -> (b: bool)
    requires
        from <= to <= v.len(),
        text::all_digits(v@.subrange(from as int, to as int)),
    ensures
        b == is_infinite(text::digits_value(v@.subrange(from as int, to as int))),
{
    let ghost n = text::digits_value(v@.subrange(from as int, to as int));
    let mut left = copied(v, from, to);
    let mut k: usize = 0;
    proof {
        vstd::arithmetic::power2::lemma2_to64();
    }
    while k < 970
        invariant
            k <= 970,
            text::all_digits(left@),
            text::digits_value(left@) == n / pow2(k as nat),
        decreases 970 - k,
    {
        proof {
            lemma_pow2_unfold((k + 1) as nat);
            lemma_pow2_pos(k as nat);
            lemma_div_denominator(n as int, pow2(k as nat) as int, 2);
            assert(pow2(k as nat) * 2 == pow2((k + 1) as nat));
        }
        left = halved(&left);
        k += 1;
    }
    let len: usize = left.len();
    assert(left@.subrange(0, len as int) =~= left@);
    let top = capped_value(&left, 0, len, 0x40_0000_0000_0000);
    proof {
        vstd::arithmetic::power2::lemma2_to64();
        let half = pow2(970) as int;
        lemma_pow2_pos(970);
        let q = n as int / half;
        lemma_fundamental_div_mod(n as int, half);
        lemma_pow2_adds(32, 22);
        assert(pow2(54) == 0x40_0000_0000_0000);
        assert((n as int >= (0x40_0000_0000_0000 - 1) * half) == (q >= 0x40_0000_0000_0000 - 1))
            by (nonlinear_arith)
            requires
                n as int == half * q + n as int % half,
                0 <= n as int % half < half,
                half > 0,
        ;
    }
    top >= 0x3F_FFFF_FFFF_FFFF
}

pub fn digits_only(v: &Vec<char>, from: usize, to: usize) -> (b: bool)
    requires
        from <= to <= v.len(),
    ensures
        b == text::all_digits(v@.subrange(from as int, to as int)),
{
    let ghost s = v@.subrange(from as int, to as int);
    let mut i: usize = from;
    while i < to
        invariant
            from <= i <= to <= v.len(),
            s == v@.subrange(from as int, to as int),
            forall|k: int| 0 <= k < i - from ==> text::is_digit(#[trigger] s[k]),
        decreases to - i,
    {
        assert(s[i - from] == v@[i as int]);
        if !is_digit_char(v[i]) {
            return false;
        }
        i += 1;
    }
    true
}

} // verus!
