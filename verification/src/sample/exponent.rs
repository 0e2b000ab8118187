//! Numbers with an exponent.

use super::doubling;
use super::doubling::any_digit;
use super::number;
use super::number::{capped_value, digits_only, read_decimal, Decimal};
use crate::text;
use vstd::arithmetic::power::{lemma_pow_adds, lemma_pow_positive};
use vstd::arithmetic::power2::{lemma_pow2_adds, lemma_pow2_pos, lemma_pow2_strictly_increases, pow2};
use vstd::prelude::*;

verus! {

/// Where the exponent of a number begins, or the length.
pub open spec fn exponent_at(s: Seq<char>) -> int {
    let a = text::first_at(s, 'e');
    let b = text::first_at(s, 'E');
    if a < b {
        a
    } else {
        b
    }
}

/// What follows a sign, where there is one.
pub open spec fn unsigned_part(s: Seq<char>) -> Seq<char> {
    if s.len() > 0 && (s[0] == '+' || s[0] == '-') {
        s.skip(1)
    } else {
        s
    }
}

/// A decimal, and maybe an exponent.
pub open spec fn is_number(s: Seq<char>) -> bool {
    let i = exponent_at(s);
    let e = unsigned_part(s.skip(i + 1));
    &&& number::is_decimal(s.take(i))
    &&& i < s.len() ==> e.len() > 0 && text::all_digits(e)
}

/// By how many places an exponent moves the point to the right.
pub open spec fn moved_by(s: Seq<char>) -> int {
    let i = exponent_at(s);
    let t = s.skip(i + 1);
    let n = text::digits_value(unsigned_part(t)) as int;
    if i >= s.len() {
        0
    } else if t.len() > 0 && t[0] == '-' {
        -n
    } else {
        n
    }
}

pub open spec fn zeros(n: int) -> Seq<char> {
    Seq::new(
        (if n > 0 {
            n
        } else {
            0
        }) as nat,
        |i: int| '0',
    )
}

/// Digits with a point after the first `p` of them. Zeros are put before or behind them where
/// the point lies outside.
pub open spec fn with_point(digits: Seq<char>, p: int) -> Seq<char> {
    if p <= 0 {
        seq!['.'] + (zeros(-p) + digits)
    } else if p >= digits.len() {
        digits + zeros(p - digits.len())
    } else {
        digits.take(p).push('.') + digits.skip(p)
    }
}

/// A number written without its exponent.
pub open spec fn plain(s: Seq<char>) -> Seq<char> {
    let m = s.take(exponent_at(s));
    if exponent_at(s) >= s.len() {
        s
    } else {
        with_point(number::whole_digits(m) + number::after_point(m), number::whole_digits(m).len() + moved_by(s))
    }
}

/// The two sides of the point.
proof fn lemma_sides(digits: Seq<char>, p: int)
    requires
        text::all_digits(digits),
        digits.len() > 0,
    ensures
        number::is_decimal(with_point(digits, p)),
        p <= 0 ==> number::whole_digits(with_point(digits, p)) == Seq::<char>::empty()
            && number::after_point(with_point(digits, p)) == zeros(-p) + digits,
        0 < p < digits.len() ==> number::whole_digits(with_point(digits, p)) == digits.take(p)
            && number::after_point(with_point(digits, p)) == digits.skip(p),
        p > 0 && p >= digits.len() ==> number::whole_digits(with_point(digits, p)) == digits
            + zeros(p - digits.len()) && number::after_point(with_point(digits, p)) == Seq::<
            char,
        >::empty(),
{
    let s = with_point(digits, p);
    let dot = text::first_at(s, '.');
    text::lemma_first_at(s, '.');
    assert forall|i: int| 0 <= i < digits.len() implies digits[i] != '.' by {
        assert(text::is_digit(digits[i]));
    }
    if p <= 0 {
        assert(s[0] == '.');
        assert(dot == 0);
        assert(s.skip(1) =~= zeros(-p) + digits);
        assert(s.take(0) =~= Seq::<char>::empty());
    } else if p >= digits.len() {
        if dot < s.len() {
            if dot < digits.len() {
                assert(s[dot] == digits[dot]);
            } else {
                assert(s[dot] == '0');
            }
        }
        assert(s.take(dot) =~= s);
    } else {
        assert(s[p] == '.');
        if dot < p {
            assert(s[dot] == digits[dot]);
        }
        assert(dot == p);
        assert(s.take(p) =~= digits.take(p));
        assert(s.skip(p + 1) =~= digits.skip(p));
    }
}

proof fn lemma_all_zero(s: Seq<char>)
    requires
        text::all_digits(s),
    ensures
        (text::digits_value(s) == 0) == (forall|i: int| 0 <= i < s.len() ==> s[i] == '0'),
    decreases s.len(),
{
    if s.len() > 0 {
        let f = s.drop_last();
        assert(text::all_digits(f)) by {
            assert forall|i: int| 0 <= i < f.len() implies text::is_digit(#[trigger] f[i]) by {
                assert(f[i] == s[i]);
            }
        }
        lemma_all_zero(f);
        assert(text::is_digit(s.last()));
        if text::digits_value(s) == 0 {
            assert forall|i: int| 0 <= i < s.len() implies s[i] == '0' by {
                if i < s.len() - 1 {
                    assert(f[i] == s[i]);
                } else {
                    assert(s[i] == s.last());
                }
            }
        } else if forall|i: int| 0 <= i < s.len() ==> s[i] == '0' {
            assert forall|i: int| 0 <= i < f.len() implies f[i] == '0' by {
                assert(f[i] == s[i]);
            }
            assert(s.last() == '0');
        }
    }
}

proof fn lemma_both_zero(a: Seq<char>, b: Seq<char>)
    requires
        text::all_digits(a),
        text::all_digits(b),
    ensures
        text::all_digits(a + b),
        (text::digits_value(a + b) == 0) == (text::digits_value(a) == 0 && text::digits_value(b)
            == 0),
{
    let s = a + b;
    assert forall|k: int| 0 <= k < s.len() implies text::is_digit(#[trigger] s[k]) by {
        if k < a.len() {
            assert(s[k] == a[k]);
        } else {
            assert(s[k] == b[k - a.len()]);
        }
    }
    lemma_all_zero(a);
    lemma_all_zero(b);
    lemma_all_zero(s);
    if text::digits_value(s) == 0 {
        assert forall|i: int| 0 <= i < a.len() implies a[i] == '0' by {
            assert(a[i] == s[i]);
        }
        assert forall|i: int| 0 <= i < b.len() implies b[i] == '0' by {
            assert(b[i] == s[a.len() + i]);
        }
    }
}

/// Wherever the point is put, nothing but zeros is zero.
proof fn lemma_zero_number(digits: Seq<char>, p: int, scale: nat)
    requires
        text::all_digits(digits),
        digits.len() > 0,
        text::digits_value(digits) == 0,
    ensures
        number::scaled(with_point(digits, p), scale) == 0,
        text::digits_value(number::whole_digits(with_point(digits, p))) == 0,
        !number::is_positive(with_point(digits, p)),
        !number::is_minute(with_point(digits, p)),
{
    lemma_sides(digits, p);
    lemma_all_zero(digits);
    let w = number::whole_digits(with_point(digits, p));
    let a = number::after_point(with_point(digits, p));
    assert forall|i: int| 0 <= i < w.len() implies w[i] == '0' by {}
    assert forall|i: int| 0 <= i < a.len() implies a[i] == '0' by {}
    lemma_all_zero(w);
    lemma_all_zero(a);
    number::lemma_ten(a.len());
    let t = number::ten(a.len());
    assert(0 * scale == 0 && 2 * scale * 0 == 0 && 0 * pow2(1075) == 0) by (nonlinear_arith);
    assert(t / (2 * t) == 0) by (nonlinear_arith)
        requires
            t > 0,
    ;
}

proof fn lemma_small_is_finite()
    ensures
        !number::is_infinite(0),
{
    lemma_pow2_pos(970);
    vstd::arithmetic::power2::lemma2_to64();
    lemma_pow2_strictly_increases(0, 54);
    assert((pow2(54) - 1) * pow2(970) > 0) by (nonlinear_arith)
        requires
            pow2(54) > 1,
            pow2(970) > 0,
    ;
}

proof fn lemma_trailing_zeros(digits: Seq<char>, n: nat)
    ensures
        text::digits_value(digits + zeros(n as int)) == text::digits_value(digits) * number::ten(n),
    decreases n,
{
    let s = digits + zeros(n as int);
    number::lemma_ten(0);
    let v = text::digits_value(digits);
    if n == 0 {
        assert(s =~= digits);
        assert(v * 1 == v) by (nonlinear_arith);
    } else {
        let m = (n - 1) as nat;
        lemma_trailing_zeros(digits, m);
        number::lemma_ten(m);
        assert(s.drop_last() =~= digits + zeros(m as int));
        assert(s.last() == '0');
        let t = number::ten(m);
        assert((v * t) * 10 == v * (10 * t)) by (nonlinear_arith);
    }
}

proof fn lemma_ten_over_two(k: nat)
    ensures
        number::ten(k) >= pow2(3 * k),
    decreases k,
{
    if k == 0 {
        number::lemma_ten(0);
        vstd::arithmetic::power2::lemma2_to64();
    } else {
        let m = (k - 1) as nat;
        lemma_ten_over_two(m);
        number::lemma_ten(m);
        lemma_pow2_adds(3 * m, 3);
        vstd::arithmetic::power2::lemma2_to64();
        assert(3 * m + 3 == 3 * k);
    }
}

/// A number with hundreds of zeros behind it is infinite.
proof fn lemma_great(whole: nat, v: nat, n: nat)
    requires
        whole == v * number::ten(n),
        v > 0,
        n >= 400,
    ensures
        number::is_infinite(whole),
        whole >= 0x1_0000_0000_0000_0000,
{
    lemma_ten_over_two(n);
    let t = number::ten(n);
    assert(v * t >= t) by (nonlinear_arith)
        requires
            v >= 1,
    ;
    lemma_pow2_strictly_increases(1024, 3 * n);
    lemma_pow2_strictly_increases(64, 1024);
    vstd::arithmetic::power2::lemma2_to64();
    lemma_pow2_adds(54, 970);
    lemma_pow2_pos(970);
    assert((pow2(54) - 1) * pow2(970) <= pow2(54) * pow2(970)) by (nonlinear_arith);
}

/// Hundreds of zeros behind the point leave nothing that is told from zero.
proof fn lemma_unseen(digits: Seq<char>, n: nat)
    requires
        text::all_digits(digits),
        n >= 400,
    ensures
        !doubling::is_seen(zeros(n as int) + digits),
{
    let z = Seq::new(n, |i: int| '0');
    assert(zeros(n as int) =~= z);
    text::lemma_zeros_value(n, digits);
    number::lemma_below_ten(digits);
    lemma_ten_over_two(n);
    lemma_pow2_strictly_increases(1075, 3 * n);
    lemma_pow_adds(10, n, digits.len());
    lemma_pow_positive(10, n);
    lemma_pow_positive(10, digits.len());
    let x = text::digits_value(digits);
    let a = number::ten(digits.len());
    let b = number::ten(n);
    let p = pow2(1075);
    assert(x * p <= b * a) by (nonlinear_arith)
        requires
            x <= a,
            p <= b,
    ;
    assert(number::ten((z + digits).len()) == b * a);
}

/// Puts the point where it belongs.
fn pointed(digits: &Vec<char>, p: i128) -> (r: Vec<char>)
    requires
        p <= digits@.len() + 400,
    ensures
        r@ == with_point(digits@, p as int),
{
    let mut r: Vec<char> = Vec::new();
    let len: usize = digits.len();
    let mut left: i128 = p;
    if p <= 0 {
        r.push('.');
        while left < 0
            invariant
                p <= left <= 0,
                r@ == seq!['.'] + zeros(left - p),
            decreases -left,
        {
            r.push('0');
            left += 1;
            assert(r@ =~= seq!['.'] + zeros(left - p));
        }
    }
    let ghost before = r@;
    let mut i: usize = 0;
    while i < len
        invariant
            i <= len == digits@.len(),
            p <= 0 ==> before == seq!['.'] + zeros(-p),
            p > 0 ==> before.len() == 0,
            r@ == if 0 < p < i {
                digits@.take(p as int).push('.') + digits@.subrange(p as int, i as int)
            } else {
                before + digits@.take(i as int)
            },
        decreases len - i,
    {
        if i > 0 && i as i128 == p {
            r.push('.');
            assert(r@ =~= digits@.take(p as int).push('.'));
        }
        r.push(digits[i]);
        i += 1;
        proof {
            if 0 < p < i {
                assert(r@ =~= digits@.take(p as int).push('.') + digits@.subrange(
                    p as int,
                    i as int,
                ));
            } else {
                assert(r@ =~= before + digits@.take(i as int));
            }
        }
    }
    assert(digits@.take(len as int) =~= digits@);
    let mut n: i128 = len as i128;
    if p > 0 && p >= len as i128 {
        assert(r@ =~= digits@ + zeros(0));
        while n < p
            invariant
                len == digits@.len(),
                len <= n <= p,
                r@ == digits@ + zeros(n - len),
            decreases p - n,
        {
            r.push('0');
            n += 1;
            assert(r@ =~= digits@ + zeros(n - len));
        }
    }
    proof {
        if p <= 0 {
            assert(r@ =~= with_point(digits@, p as int));
        } else if p < len {
            assert(digits@.subrange(p as int, len as int) =~= digits@.skip(p as int));
        }
    }
    r
}

/// Where the exponent begins, or the end.
fn find_exponent(v: &Vec<char>, from: usize) -> (i: usize)
    requires
        from <= v.len(),
    ensures
        from <= i <= v.len(),
        i - from == exponent_at(v@.skip(from as int)),
{
    let ghost s = v@.skip(from as int);
    let mut i: usize = from;
    assert(s.skip(0) =~= s);
    while i < v.len() && v[i] != 'e' && v[i] != 'E'
        invariant
            from <= i <= v.len(),
            s == v@.skip(from as int),
            text::first_at(s, 'e') == (i - from) + text::first_at(s.skip(i - from), 'e'),
            text::first_at(s, 'E') == (i - from) + text::first_at(s.skip(i - from), 'E'),
        decreases v.len() - i,
    {
        proof {
            let rest = s.skip(i - from);
            assert(rest[0] == v@[i as int]);
            assert(rest.drop_first() =~= s.skip(i - from + 1));
        }
        i += 1;
    }
    proof {
        let rest = s.skip(i - from);
        text::lemma_first_at(rest, 'e');
        text::lemma_first_at(rest, 'E');
        if i < v.len() {
            assert(rest[0] == v@[i as int]);
        }
    }
    i
}

/// The digits of a decimal, and how many of them stand before the point.
fn figures(v: &Vec<char>, from: usize, to: usize) -> (r: (Vec<char>, usize))
    requires
        from <= to <= v.len(),
        number::is_decimal(v@.subrange(from as int, to as int)),
    ensures
        ({
            let m = v@.subrange(from as int, to as int);
            &&& r.0@ == number::whole_digits(m) + number::after_point(m)
            &&& r.1 == number::whole_digits(m).len()
        }),
{
    let ghost m = v@.subrange(from as int, to as int);
    let mut digits: Vec<char> = Vec::new();
    let mut before: usize = 0;
    let mut whole = true;
    let mut i: usize = from;
    let ghost dot = text::first_at(m, '.');
    proof {
        text::lemma_first_at(m, '.');
        assert(m.take(0) =~= Seq::<char>::empty());
    }
    while i < to
        invariant
            from <= i <= to <= v@.len(),
            m == v@.subrange(from as int, to as int),
            dot == text::first_at(m, '.'),
            0 <= dot <= m.len(),
            dot < m.len() ==> m[dot] == '.',
            forall|k: int| 0 <= k < dot ==> m[k] != '.',
            whole == (i - from <= dot),
            whole ==> digits@ == m.take(i - from) && before == i - from,
            !whole ==> digits@ == m.take(dot) + m.subrange(dot + 1, i - from) && before == dot,
        decreases to - i,
    {
        let c = v[i];
        assert(c == m[i - from]);
        if whole && c == '.' {
            whole = false;
            assert(i - from == dot);
            assert(digits@ =~= m.take(dot) + m.subrange(dot + 1, dot + 1));
        } else {
            digits.push(c);
            if whole {
                before += 1;
                assert(digits@ =~= m.take(i - from + 1));
            } else {
                assert(digits@ =~= m.take(dot) + m.subrange(dot + 1, i - from + 1));
            }
        }
        i += 1;
    }
    proof {
        if dot < m.len() {
            assert(m.subrange(dot + 1, m.len() as int) =~= m.skip(dot + 1));
        } else {
            assert(digits@ =~= number::whole_digits(m) + number::after_point(m));
        }
    }
    (digits, before)
}

/// Whether a point may be put at `at` for one at `p`: far out, it makes no difference where.
spec fn stands_for(at: int, p: int, len: nat) -> bool {
    ||| at == p
    ||| at <= p && at > len + 400
    ||| at >= p && at < -400
}

/// Digits with a point at `at`, times `scale`.
fn read_pointed(digits: &Vec<char>, at: i128, scale: u64) -> (d: Decimal)
    requires
        text::all_digits(digits@),
        digits@.len() > 0,
        text::digits_value(digits@) > 0,
        1 <= scale <= 0x1_0000_0000,
    ensures
        forall|p: int|
            stands_for(at as int, p, digits@.len()) ==> number::is_reading(
                d,
                #[trigger] with_point(digits@, p),
                scale as nat,
            ),
{
    let ghost all = digits@;
    if at > digits.len() as i128 + 400 {
        let d = Decimal { value: u64::MAX, positive: true, minute: true, finite: false };
        proof {
            assert forall|p: int| stands_for(at as int, p, all.len()) implies number::is_reading(
                d,
                #[trigger] with_point(all, p),
                scale as nat,
            ) by {
                lemma_sides(all, p);
                let extra = (p - all.len()) as nat;
                lemma_trailing_zeros(all, extra);
                let whole = text::digits_value(number::whole_digits(with_point(all, p)));
                lemma_great(whole, text::digits_value(all), extra);
                assert(whole * scale >= 0x1_0000_0000_0000_0000) by (nonlinear_arith)
                    requires
                        whole >= 0x1_0000_0000_0000_0000,
                        scale >= 1,
                ;
            }
        }
        return d;
    }
    if at < -400 {
        let d = Decimal { value: 0, positive: false, minute: false, finite: true };
        proof {
            lemma_small_is_finite();
            assert(0 * scale == 0) by (nonlinear_arith);
            assert forall|p: int| stands_for(at as int, p, all.len()) implies number::is_reading(
                d,
                #[trigger] with_point(all, p),
                scale as nat,
            ) by {
                lemma_sides(all, p);
                number::lemma_leading_zeros((-p) as nat, all, scale as nat);
                assert(zeros(-p) =~= Seq::new((-p) as nat, |i: int| '0'));
                lemma_unseen(all, (-p) as nat);
            }
        }
        return d;
    }
    proof {
        lemma_sides(all, at as int);
    }
    let text = pointed(digits, at);
    assert(text@.subrange(0, text@.len() as int) =~= text@);
    match read_decimal(&text, 0, text.len(), scale) {
        Some(d) => d,
        None => Decimal { value: 0, positive: false, minute: false, finite: true },
    }
}

/// Reads a number from `from` on, times `scale`.
pub fn read_number(v: &Vec<char>, from: usize, scale: u64) -> (r: Option<Decimal>)
    requires
        from <= v.len(),
        1 <= scale <= 0x1_0000_0000,
    ensures
        ({
            let s = v@.skip(from as int);
            match r {
                None => !is_number(s),
                Some(d) => is_number(s) && number::is_reading(d, plain(s), scale as nat),
            }
        }),
{
    let ghost s = v@.skip(from as int);
    let len: usize = v.len();
    let at = find_exponent(v, from);
    let ghost m = s.take(at - from);
    assert(m =~= v@.subrange(from as int, at as int));
    let mantissa = match read_decimal(v, from, at, scale) {
        Some(d) => d,
        None => {
            return None;
        },
    };
    if at == len {
        assert(m =~= s);
        return Some(mantissa);
    }
    let ghost t = s.skip(at - from + 1);
    let minus = at + 1 < len && v[at + 1] == '-';
    let begin: usize = if at + 1 < len && (v[at + 1] == '-' || v[at + 1] == '+') {
        at + 2
    } else {
        at + 1
    };
    proof {
        if at + 1 < len {
            assert(t[0] == v@[at + 1]);
        }
        assert(unsigned_part(t) =~= v@.subrange(begin as int, len as int));
    }
    if begin == len || !digits_only(v, begin, len) {
        return None;
    }
    let places = capped_value(v, begin, len, 0x1_0000_0000_0000_0000_0000);
    let (digits, before) = figures(v, from, at);
    let ghost d = digits@;
    let ghost p = number::whole_digits(m).len() + moved_by(s);
    proof {
        lemma_both_zero(number::whole_digits(m), number::after_point(m));
        text::lemma_first_at(m, '.');
        assert(d.len() > 0);
        assert(plain(s) == with_point(d, p));
    }
    if !any_digit(&digits) {
        proof {
            lemma_zero_number(d, p, scale as nat);
            lemma_small_is_finite();
        }
        return Some(Decimal { value: 0, positive: false, minute: false, finite: true });
    }
    let moved: i128 = if minus {
        -(places as i128)
    } else {
        places as i128
    };
    let point: i128 = before as i128 + moved;
    proof {
        let n = text::digits_value(unsigned_part(t)) as int;
        assert(minus == (t.len() > 0 && t[0] == '-'));
        assert(moved_by(s) == if minus {
            -n
        } else {
            n
        });
        assert(d.len() <= usize::MAX);
        assert(stands_for(point as int, p, d.len()));
    }
    Some(read_pointed(&digits, point, scale))
}

} // verus!
