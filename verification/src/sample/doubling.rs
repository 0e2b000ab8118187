//! What the digits after a point come to as a floating-point number, told by doubling them.

use super::number;
use crate::text;
use crate::text::{digit, digit_of};
use vstd::arithmetic::power2::{lemma_pow2_adds, lemma_pow2_pos, lemma_pow2_unfold, pow2};
use vstd::prelude::*;

verus! {

/// More than half of the least number above zero that 64 bits can hold: no less is told from
/// zero.
pub open spec fn is_seen(digits: Seq<char>) -> bool {
    text::digits_value(digits) * pow2(1075) > number::ten(digits.len())
}

/// So close to one that, behind a whole number from 32 to 63, 64 bits can hold nothing
/// nearer than the next.
pub open spec fn rounds_up(digits: Seq<char>) -> bool {
    text::digits_value(digits) * pow2(48) >= (pow2(48) - 1) * number::ten(digits.len())
}

/// The digits of twice the value, as many as there were, and whether one more was needed.
fn doubled(v: &Vec<char>) -> (r: (bool, Vec<char>))
    requires
        text::all_digits(v@),
    ensures
        text::all_digits(r.1@),
        r.1@.len() == v@.len(),
        2 * text::digits_value(v@) == text::digits_value(r.1@) + if r.0 {
            number::ten(v@.len())
        } else {
            0
        },
{
    let mut back: Vec<char> = v.clone();
    let mut carry: u32 = 0;
    let n: usize = v.len();
    assert(back@ =~= v@);
    let mut i: usize = n;
    proof {
        number::lemma_ten(0);
        assert(v@.skip(n as int) =~= Seq::<char>::empty());
    }
    while i > 0
        invariant
            i <= n == v@.len(),
            back@.len() == n,
            carry <= 1,
            text::all_digits(v@),
            text::all_digits(back@),
            forall|k: int| 0 <= k < i ==> back@[k] == v@[k],
            2 * text::digits_value(v@.skip(i as int)) == text::digits_value(
                back@.skip(i as int),
            ) + carry * number::ten((n - i) as nat),
        decreases i,
    {
        let ghost had = back@;
        let ghost was: int = carry as int;
        i -= 1;
        assert(text::is_digit(v@[i as int]));
        let d: u32 = 2 * digit_of(v[i]) + carry;
        carry = d / 10;
        let c = digit((d % 10) as u8);
        back.set(i, c);
        proof {
            let a = v@.skip(i as int);
            let b = back@.skip(i as int);
            assert(a.drop_first() =~= v@.skip(i + 1));
            assert(b.drop_first() =~= had.skip(i + 1));
            number::lemma_value_first(a);
            number::lemma_value_first(b);
            let t = number::ten((n - i - 1) as nat);
            number::lemma_ten((n - i - 1) as nat);
            let x = text::digit_value(v@[i as int]) as int;
            let y = d as int % 10;
            assert(text::digit_value(c) == y);
            let q = d as int / 10;
            assert(2 * (x * t) + was * t == y * t + q * (10 * t)) by (nonlinear_arith)
                requires
                    2 * x + was == 10 * q + y,
            ;
            assert forall|k: int| 0 <= k < back@.len() implies text::is_digit(
                #[trigger] back@[k],
            ) by {
                if k != i {
                    assert(back@[k] == had[k]);
                }
            }
        }
    }
    proof {
        assert(v@.skip(0) =~= v@);
        assert(back@.skip(0) =~= back@);
        let t = number::ten(n as nat);
        assert(0 * t == 0 && 1 * t == t) by (nonlinear_arith);
    }
    (carry == 1, back)
}

proof fn lemma_doubled(x: nat, k: nat)
    ensures
        x * pow2(k + 1) == 2 * (x * pow2(k)),
{
    lemma_pow2_unfold(k + 1);
    let p = pow2(k);
    assert(x * (2 * p) == 2 * (x * p)) by (nonlinear_arith);
}

/// Whether any of the digits is not zero.
pub fn any_digit(v: &Vec<char>) -> (b: bool)
    requires
        text::all_digits(v@),
    ensures
        b == (text::digits_value(v@) > 0),
{
    let mut i: usize = 0;
    let mut any = false;
    assert(v@.take(0) =~= Seq::<char>::empty());
    while i < v.len()
        invariant
            i <= v.len(),
            text::all_digits(v@),
            any == (text::digits_value(v@.take(i as int)) > 0),
        decreases v.len() - i,
    {
        proof {
            assert(v@.take(i + 1).drop_last() =~= v@.take(i as int));
            assert(text::is_digit(v@[i as int]));
        }
        any = any || digit_of(v[i]) > 0;
        i += 1;
    }
    assert(v@.take(v@.len() as int) =~= v@);
    any
}

pub fn copied(v: &Vec<char>, from: usize, to: usize) -> (r: Vec<char>)
    requires
        from <= to <= v.len(),
    ensures
        r@ == v@.subrange(from as int, to as int),
{
    let mut r: Vec<char> = Vec::new();
    let mut i: usize = from;
    while i < to
        invariant
            from <= i <= to <= v.len(),
            r@ == v@.subrange(from as int, i as int),
        decreases to - i,
    {
        r.push(v[i]);
        i += 1;
        assert(r@ =~= v@.subrange(from as int, i as int));
    }
    r
}

pub fn seen(v: &Vec<char>, from: usize, to: usize) -> (b: bool)
    requires
        from <= to <= v.len(),
        text::all_digits(v@.subrange(from as int, to as int)),
    ensures
        b == is_seen(v@.subrange(from as int, to as int)),
{
    let ghost s = v@.subrange(from as int, to as int);
    let ghost x = text::digits_value(s);
    let ghost t = number::ten(s.len());
    let mut left = copied(v, from, to);
    let mut k: usize = 0;
    proof {
        vstd::arithmetic::power2::lemma2_to64();
        number::lemma_ten(s.len());
        number::lemma_below_ten(s);
        assert(x * 1 == x) by (nonlinear_arith);
    }
    while k < 1075
        invariant
            k <= 1075,
            s == v@.subrange(from as int, to as int),
            x == text::digits_value(s),
            t == number::ten(s.len()),
            t > 0,
            left@.len() == s.len(),
            text::all_digits(left@),
            text::digits_value(left@) == x * pow2(k as nat),
            text::digits_value(left@) < t,
        decreases 1075 - k,
    {
        let (carry, next) = doubled(&left);
        proof {
            lemma_doubled(x, k as nat);
        }
        k += 1;
        if carry {
            let more = any_digit(&next);
            proof {
                let m = (1075 - k) as nat;
                lemma_pow2_adds(k as nat, m);
                lemma_pow2_pos(m);
                let a = pow2(k as nat);
                let b = pow2(m);
                assert(x * (a * b) == (x * a) * b) by (nonlinear_arith);
                if k < 1075 {
                    lemma_pow2_unfold(m);
                    lemma_pow2_pos((m - 1) as nat);
                    assert((x * a) * b > t) by (nonlinear_arith)
                        requires
                            x * a >= t,
                            b >= 2,
                            t > 0,
                    ;
                } else {
                    vstd::arithmetic::power2::lemma2_to64();
                    assert((x * a) * b == x * a) by (nonlinear_arith)
                        requires
                            b == 1,
                    ;
                }
            }
            return k < 1075 || more;
        }
        left = next;
        proof {
            number::lemma_below_ten(left@);
        }
    }
    false
}

pub fn nearly_one(v: &Vec<char>, from: usize, to: usize) -> (b: bool)
    requires
        from <= to <= v.len(),
        text::all_digits(v@.subrange(from as int, to as int)),
    ensures
        b == rounds_up(v@.subrange(from as int, to as int)),
{
    let ghost s = v@.subrange(from as int, to as int);
    let ghost x = text::digits_value(s);
    let ghost t = number::ten(s.len());
    let mut left = copied(v, from, to);
    let mut k: usize = 0;
    proof {
        vstd::arithmetic::power2::lemma2_to64();
        number::lemma_ten(s.len());
        number::lemma_below_ten(s);
        assert(x * 1 == x && (1 - 1) * t == 0) by (nonlinear_arith);
    }
    while k < 48
        invariant
            k <= 48,
            s == v@.subrange(from as int, to as int),
            x == text::digits_value(s),
            t == number::ten(s.len()),
            t > 0,
            left@.len() == s.len(),
            text::all_digits(left@),
            x * pow2(k as nat) == (pow2(k as nat) - 1) * t + text::digits_value(left@),
            text::digits_value(left@) < t,
        decreases 48 - k,
    {
        let (carry, next) = doubled(&left);
        proof {
            lemma_doubled(x, k as nat);
            lemma_pow2_unfold((k + 1) as nat);
            let p = pow2(k as nat) as int;
            assert(2 * ((p - 1) * t) + t == (2 * p - 1) * t) by (nonlinear_arith);
        }
        k += 1;
        if !carry {
            proof {
                number::lemma_below_ten(next@);
                lemma_short(x as int, t as int, k as nat);
            }
            return false;
        }
        left = next;
        proof {
            number::lemma_below_ten(left@);
        }
    }
    true
}

proof fn lemma_short(x: int, t: int, k: nat)
    requires
        0 < t,
        0 <= x,
        k <= 48,
        x * pow2(k) < (pow2(k) - 1) * t,
    ensures
        x * pow2(48) < (pow2(48) - 1) * t,
{
    let m = (48 - k) as nat;
    lemma_pow2_adds(k, m);
    lemma_pow2_pos(m);
    let a = pow2(k) as int;
    let b = pow2(m) as int;
    assert(x * (a * b) == (x * a) * b) by (nonlinear_arith);
    assert((x * a) * b < ((a - 1) * t) * b) by (nonlinear_arith)
        requires
            x * a < (a - 1) * t,
            b > 0,
    ;
    assert(((a - 1) * t) * b <= (a * b - 1) * t) by (nonlinear_arith)
        requires
            b >= 1,
            t > 0,
    ;
}

} // verus!
