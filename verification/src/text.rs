//! Text as sequences of characters: decimal numbers, splitting, trimming, joining.

use vstd::prelude::*;
use vstd::string::*;

verus! {

broadcast use vstd::string::group_string_axioms;

/// Appends one character.
pub assume_specification[ String::push ](s: &mut String, c: char)
    ensures
        final(s)@ == old(s)@.push(c),
;

/// An ASCII decimal digit.
pub open spec fn is_digit(c: char) -> bool {
    '0' <= c && c <= '9'
}

pub open spec fn all_digits(s: Seq<char>) -> bool {
    forall|i: int| 0 <= i < s.len() ==> is_digit(#[trigger] s[i])
}

pub open spec fn digit_value(c: char) -> nat {
    (c as int - '0' as int) as nat
}

pub open spec fn digit_char(d: nat) -> char {
    (d + '0' as int) as char
}

/// The number that a run of digits writes down, most significant digit first.
pub open spec fn digits_value(s: Seq<char>) -> nat
    decreases s.len(),
{
    if s.len() == 0 {
        0
    } else {
        digits_value(s.drop_last()) * 10 + digit_value(s.last())
    }
}

/// A number in decimal, without leading zeros.
pub open spec fn decimal(n: nat) -> Seq<char>
    decreases n,
{
    if n < 10 {
        seq![digit_char(n)]
    } else {
        decimal(n / 10).push(digit_char(n % 10))
    }
}

pub fn digit(d: u8) -> (c: char)
    requires
        d < 10,
    ensures
        c == digit_char(d as nat),
{
    (48u8 + d) as char
}

pub fn is_digit_char(c: char) -> (b: bool)
    ensures
        b == is_digit(c),
{
    '0' <= c && c <= '9'
}

pub fn digit_of(c: char) -> (d: u32)
    requires
        is_digit(c),
    ensures
        d == digit_value(c),
        d < 10,
{
    c as u32 - '0' as u32
}

/// Appends a number in decimal.
pub fn push_decimal(out: &mut String, n: u64)
    ensures
        final(out)@ == old(out)@ + decimal(n as nat),
    decreases n,
{
    if n >= 10 {
        push_decimal(out, n / 10);
    }
    out.push(digit((n % 10) as u8));
}

/// The characters of a string.
pub fn chars_of(s: &str) -> (v: Vec<char>)
    ensures
        v@ == s@,
{
    let mut v: Vec<char> = Vec::new();
    for c in it: s.chars()
        invariant
            v@ == it.seq().take(it.index() as int),
            it.seq() == s@,
    {
        v.push(c);
    }
    v
}

/// The string made of these characters.
pub fn string_of(v: &Vec<char>) -> (s: String)
    ensures
        s@ == v@,
{
    let mut s = String::new();
    let mut i: usize = 0;
    while i < v.len()
        invariant
            i <= v.len(),
            s@ == v@.take(i as int),
        decreases v.len() - i,
    {
        s.push(v[i]);
        i += 1;
    }
    s
}


/// The characters from `from` up to, not including, `to`.
pub fn slice_of(v: &Vec<char>, from: usize, to: usize) -> (s: String)
    requires
        from <= to <= v.len(),
    ensures
        s@ == v@.subrange(from as int, to as int),
{
    let mut s = String::new();
    let mut i: usize = from;
    while i < to
        invariant
            from <= i <= to <= v.len(),
            s@ == v@.subrange(from as int, i as int),
        decreases to - i,
    {
        s.push(v[i]);
        i += 1;
    }
    s
}

/// The number in decimal, as a string.
pub fn decimal_string(n: u64) -> (s: String)
    ensures
        s@ == decimal(n as nat),
{
    let mut s = String::new();
    push_decimal(&mut s, n);
    s
}

/// Whether two strings hold the same characters.
pub fn same(a: &str, b: &str) -> (r: bool)
    ensures
        r == (a@ == b@),
{
    let x = chars_of(a);
    let y = chars_of(b);
    same_chars(&x, &y)
}

pub fn same_chars(x: &Vec<char>, y: &Vec<char>) -> (r: bool)
    ensures
        r == (x@ == y@),
{
    if x.len() != y.len() {
        return false;
    }
    let mut i: usize = 0;
    while i < x.len()
        invariant
            i <= x.len(),
            x.len() == y.len(),
            forall|k: int| 0 <= k < i ==> x@[k] == y@[k],
        decreases x.len() - i,
    {
        if x[i] != y[i] {
            return false;
        }
        i += 1;
    }
    assert(x@ =~= y@);
    true
}

/// The views of a sequence of strings.
pub open spec fn views(v: Seq<String>) -> Seq<Seq<char>> {
    v.map_values(|s: String| s@)
}

/// Splits at every `sep`, keeping empty parts: always one part more than there are
/// separators.
pub open spec fn split_on(s: Seq<char>, sep: char) -> Seq<Seq<char>>
    decreases s.len(),
{
    if s.len() == 0 {
        seq![Seq::<char>::empty()]
    } else {
        let parts = split_on(s.drop_last(), sep);
        if s.last() == sep {
            parts.push(Seq::<char>::empty())
        } else {
            parts.drop_last().push(parts.last().push(s.last()))
        }
    }
}

pub proof fn lemma_split_on_nonempty(s: Seq<char>, sep: char)
    ensures
        split_on(s, sep).len() >= 1,
    decreases s.len(),
{
    if s.len() > 0 {
        lemma_split_on_nonempty(s.drop_last(), sep);
    }
}

pub fn split_at_char(s: &Vec<char>, sep: char) -> (parts: Vec<String>)
    ensures
        views(parts@) == split_on(s@, sep),
        parts.len() >= 1,
{
    let mut parts: Vec<String> = Vec::new();
    let mut current = String::new();
    let mut i: usize = 0;
    assert(views(parts@).push(current@) =~= split_on(s@.take(0), sep));
    while i < s.len()
        invariant
            i <= s.len(),
            views(parts@).push(current@) == split_on(s@.take(i as int), sep),
        decreases s.len() - i,
    {
        let ghost before = split_on(s@.take(i as int), sep);
        let ghost old_parts = views(parts@);
        let ghost old_current = current@;
        proof {
            assert(s@.take(i as int + 1).drop_last() =~= s@.take(i as int));
            assert(before.last() == current@);
            assert(before.drop_last() =~= views(parts@));
        }
        let c = s[i];
        if c == sep {
            let done = current;
            parts.push(done);
            current = String::new();
            assert(views(parts@) =~= old_parts.push(old_current));
            assert(views(parts@).push(current@) =~= split_on(s@.take(i as int + 1), sep));
        } else {
            current.push(c);
            assert(views(parts@).push(current@) =~= split_on(s@.take(i as int + 1), sep));
        }
        i += 1;
    }
    assert(s@.take(s@.len() as int) =~= s@);
    let ghost old_parts = views(parts@);
    let ghost last = current@;
    parts.push(current);
    assert(views(parts@) =~= old_parts.push(last));
    parts
}

/// The parts with `sep` between each two.
pub open spec fn join(parts: Seq<Seq<char>>, sep: Seq<char>) -> Seq<char>
    decreases parts.len(),
{
    if parts.len() == 0 {
        Seq::empty()
    } else if parts.len() == 1 {
        parts[0]
    } else {
        join(parts.drop_last(), sep) + sep + parts.last()
    }
}

pub fn join_strings(parts: &Vec<String>, sep: &str) -> (s: String)
    ensures
        s@ == join(views(parts@), sep@),
{
    let mut s = String::new();
    let mut i: usize = 0;
    while i < parts.len()
        invariant
            i <= parts.len(),
            s@ == join(views(parts@).take(i as int), sep@),
        decreases parts.len() - i,
    {
        let ghost all = views(parts@);
        proof {
            assert(all.take(i as int + 1).drop_last() =~= all.take(i as int));
            assert(all.take(i as int + 1).last() == parts@[i as int]@);
        }
        if i > 0 {
            s.append(sep);
        } else {
            assert(Seq::<char>::empty() + parts@[0]@ =~= parts@[0]@);
        }
        s.append(parts[i].as_str());
        i += 1;
    }
    assert(views(parts@).take(parts@.len() as int) =~= views(parts@));
    s
}

/// Unicode's White_Space property.
pub open spec fn is_space(c: char) -> bool {
    ||| 0x9 <= c as u32 <= 0xd
    ||| c == ' '
    ||| c as u32 == 0x85
    ||| c as u32 == 0xa0
    ||| c as u32 == 0x1680
    ||| 0x2000 <= c as u32 <= 0x200a
    ||| c as u32 == 0x2028
    ||| c as u32 == 0x2029
    ||| c as u32 == 0x202f
    ||| c as u32 == 0x205f
    ||| c as u32 == 0x3000
}

pub fn is_space_char(c: char) -> (b: bool)
    ensures
        b == is_space(c),
{
    let n: u32 = c as u32;
    (0x9 <= n && n <= 0xd) || c == ' ' || n == 0x85 || n == 0xa0 || n == 0x1680 || (0x2000 <= n
        && n <= 0x200a) || n == 0x2028 || n == 0x2029 || n == 0x202f || n == 0x205f || n
        == 0x3000
}

/// Without the white space that it starts with.
pub open spec fn trim_start(s: Seq<char>) -> Seq<char>
    decreases s.len(),
{
    if s.len() > 0 && is_space(s[0]) {
        trim_start(s.drop_first())
    } else {
        s
    }
}

/// Without the white space that it ends with.
pub open spec fn trim_end(s: Seq<char>) -> Seq<char>
    decreases s.len(),
{
    if s.len() > 0 && is_space(s.last()) {
        trim_end(s.drop_last())
    } else {
        s
    }
}

/// Without white space at either end.
pub open spec fn trim(s: Seq<char>) -> Seq<char> {
    trim_end(trim_start(s))
}

/// The bounds of what [`trim`] leaves.
pub fn trim_bounds(v: &Vec<char>) -> (r: (usize, usize))
    ensures
        r.0 <= r.1 <= v.len(),
        v@.subrange(r.0 as int, r.1 as int) == trim(v@),
{
    let mut i: usize = 0;
    assert(v@.skip(0) =~= v@);
    while i < v.len() && is_space_char(v[i])
        invariant
            i <= v.len(),
            trim_start(v@) == trim_start(v@.skip(i as int)),
        decreases v.len() - i,
    {
        assert(v@.skip(i as int).drop_first() =~= v@.skip(i as int + 1));
        i += 1;
    }
    assert(trim_start(v@) =~= v@.skip(i as int));
    let mut j: usize = v.len();
    assert(v@.subrange(i as int, j as int) =~= v@.skip(i as int));
    while j > i && is_space_char(v[j - 1])
        invariant
            i <= j <= v.len(),
            trim(v@) == trim_end(v@.subrange(i as int, j as int)),
        decreases j,
    {
        assert(v@.subrange(i as int, j as int).drop_last() =~= v@.subrange(
            i as int,
            j as int - 1,
        ));
        j -= 1;
    }
    (i, j)
}

pub fn trim_string(s: &str) -> (r: String)
    ensures
        r@ == trim(s@),
{
    let v = chars_of(s);
    let (i, j) = trim_bounds(&v);
    slice_of(&v, i, j)
}

/// The ASCII lower-case form of one character.
pub open spec fn lower(c: char) -> char {
    if 'A' <= c && c <= 'Z' {
        (c as int + 32) as char
    } else {
        c
    }
}

pub open spec fn lowercase(s: Seq<char>) -> Seq<char> {
    s.map_values(|c: char| lower(c))
}

pub fn lower_char(c: char) -> (r: char)
    ensures
        r == lower(c),
{
    if 'A' <= c && c <= 'Z' {
        (c as u8 + 32) as char
    } else {
        c
    }
}

/// The ASCII lower-case form.
pub fn lower_string(s: &str) -> (r: String)
    ensures
        r@ == lowercase(s@),
{
    let v = chars_of(s);
    let mut out = String::new();
    let mut i: usize = 0;
    while i < v.len()
        invariant
            i <= v.len(),
            out@ == lowercase(v@.take(i as int)),
        decreases v.len() - i,
    {
        out.push(lower_char(v[i]));
        i += 1;
        assert(out@ =~= lowercase(v@.take(i as int)));
    }
    assert(v@.take(v@.len() as int) =~= v@);
    out
}

/// The lines of a text, without their line ends (`\n`, or `\r\n`). A text that ends in a
/// line end has no empty line after it.
pub open spec fn lines(s: Seq<char>) -> Seq<Seq<char>> {
    let parts = split_on(s, '\n');
    let ended = Seq::new((parts.len() - 1) as nat, |i: int| without_cr(parts[i]));
    if parts.last().len() == 0 {
        ended
    } else {
        ended.push(parts.last())
    }
}

pub open spec fn without_cr(s: Seq<char>) -> Seq<char> {
    if s.len() > 0 && s.last() == '\r' {
        s.drop_last()
    } else {
        s
    }
}

pub fn lines_of(s: &str) -> (r: Vec<String>)
    ensures
        views(r@) == lines(s@),
{
    let v = chars_of(s);
    let parts = split_at_char(&v, '\n');
    let ghost all = split_on(s@, '\n');
    let mut out: Vec<String> = Vec::new();
    let last: usize = parts.len() - 1;
    let mut i: usize = 0;
    while i < last
        invariant
            i <= last,
            last == parts.len() - 1,
            all == views(parts@),
            views(out@) == Seq::new(i as nat, |k: int| without_cr(all[k])),
        decreases last - i,
    {
        let line = chars_of(parts[i].as_str());
        let ghost before = views(out@);
        let n: usize = line.len();
        let end: usize = if n > 0 && line[n - 1] == '\r' {
            n - 1
        } else {
            n
        };
        let kept = slice_of(&line, 0, end);
        assert(kept@ =~= without_cr(all[i as int]));
        out.push(kept);
        assert(views(out@) =~= before.push(kept@));
        i += 1;
        assert(views(out@) =~= Seq::new(i as nat, |k: int| without_cr(all[k])));
    }
    let tail = chars_of(parts[last].as_str());
    if tail.len() > 0 {
        let ghost before = views(out@);
        let kept = string_of(&tail);
        out.push(kept);
        assert(views(out@) =~= before.push(kept@));
    }
    assert(views(out@) =~= lines(s@));
    out
}

/// Where `c` stands last, or -1.
pub open spec fn last_at(s: Seq<char>, c: char) -> int
    decreases s.len(),
{
    if s.len() == 0 {
        -1
    } else if s.last() == c {
        s.len() - 1
    } else {
        last_at(s.drop_last(), c)
    }
}

pub proof fn lemma_last_at(s: Seq<char>, c: char)
    ensures
        -1 <= last_at(s, c) < s.len(),
        last_at(s, c) >= 0 ==> s[last_at(s, c)] == c,
        forall|k: int| last_at(s, c) < k < s.len() ==> s[k] != c,
    decreases s.len(),
{
    if s.len() > 0 && s.last() != c {
        lemma_last_at(s.drop_last(), c);
        assert forall|k: int| last_at(s, c) < k < s.len() implies s[k] != c by {
            if k < s.len() - 1 {
                assert(s[k] == s.drop_last()[k]);
            }
        }
    }
}

pub fn find_last(v: &Vec<char>, c: char) -> (r: Option<usize>)
    ensures
        match r {
            Some(i) => i < v.len() && i == last_at(v@, c),
            None => last_at(v@, c) == -1,
        },
{
    let mut i: usize = v.len();
    assert(v@.take(i as int) =~= v@);
    while i > 0
        invariant
            i <= v.len(),
            last_at(v@, c) == last_at(v@.take(i as int), c),
        decreases i,
    {
        if v[i - 1] == c {
            return Some(i - 1);
        }
        assert(v@.take(i as int).drop_last() =~= v@.take(i as int - 1));
        i -= 1;
    }
    None
}

/// Where `c` stands first, or the length.
pub open spec fn first_at(s: Seq<char>, c: char) -> int
    decreases s.len(),
{
    if s.len() == 0 || s[0] == c {
        0
    } else {
        1 + first_at(s.drop_first(), c)
    }
}

pub proof fn lemma_first_at(s: Seq<char>, c: char)
    ensures
        0 <= first_at(s, c) <= s.len(),
        first_at(s, c) < s.len() ==> s[first_at(s, c)] == c,
        forall|k: int| 0 <= k < first_at(s, c) ==> s[k] != c,
    decreases s.len(),
{
    if s.len() > 0 && s[0] != c {
        lemma_first_at(s.drop_first(), c);
        assert forall|k: int| 0 <= k < first_at(s, c) implies s[k] != c by {
            if k > 0 {
                assert(s[k] == s.drop_first()[k - 1]);
            }
        }
    }
}

pub fn find_first(v: &Vec<char>, c: char) -> (r: usize)
    ensures
        r == first_at(v@, c),
        r <= v.len(),
{
    let mut i: usize = 0;
    assert(v@.skip(0) =~= v@);
    while i < v.len() && v[i] != c
        invariant
            i <= v.len(),
            first_at(v@, c) == i + first_at(v@.skip(i as int), c),
        decreases v.len() - i,
    {
        assert(v@.skip(i as int).drop_first() =~= v@.skip(i as int + 1));
        i += 1;
    }
    i
}

/// What decimal digits write down: a number of at least one digit, up to `max`.
pub open spec fn number(s: Seq<char>, max: nat) -> Option<nat> {
    if s.len() > 0 && all_digits(s) && digits_value(s) <= max {
        Some(digits_value(s))
    } else {
        None
    }
}

pub proof fn lemma_digits_grow(s: Seq<char>, i: int)
    requires
        0 <= i <= s.len(),
    ensures
        digits_value(s.take(i)) <= digits_value(s),
    decreases s.len() - i,
{
    if i < s.len() {
        lemma_digits_grow(s, i + 1);
        assert(s.take(i + 1).drop_last() =~= s.take(i));
    } else {
        assert(s.take(i) =~= s);
    }
}

/// Reads a number; digits alone, no sign and no separators.
pub fn parse_number(v: &Vec<char>, from: usize, to: usize, max: u64) -> (r: Option<u64>)
    requires
        from <= to <= v.len(),
    ensures
        match r {
            Some(n) => number(v@.subrange(from as int, to as int), max as nat) == Some(n as nat),
            None => number(v@.subrange(from as int, to as int), max as nat) is None,
        },
{
    let ghost s = v@.subrange(from as int, to as int);
    if from == to {
        return None;
    }
    let mut n: u64 = 0;
    let mut i: usize = from;
    let mut over = false;
    assert(s.take(0) =~= Seq::<char>::empty());
    while i < to
        invariant
            from <= i <= to <= v.len(),
            s == v@.subrange(from as int, to as int),
            all_digits(s.take(i - from)),
            !over ==> n == digits_value(s.take(i - from)) && n <= max,
            over ==> digits_value(s) > max,
        decreases to - i,
    {
        let c = v[i];
        assert(s[i - from] == c);
        if !is_digit_char(c) {
            assert(!all_digits(s));
            return None;
        }
        proof {
            assert(s.take(i - from + 1).drop_last() =~= s.take(i - from));
            assert forall|k: int| 0 <= k < i - from + 1 implies is_digit(
                #[trigger] s.take(i - from + 1)[k],
            ) by {
                if k < i - from {
                    assert(s.take(i - from)[k] == s[k]);
                }
            }
        }
        if !over {
            let next: u128 = n as u128 * 10 + digit_of(c) as u128;
            if next > max as u128 {
                over = true;
                proof {
                    lemma_digits_grow(s, i - from + 1);
                }
            } else {
                n = next as u64;
            }
        }
        i += 1;
    }
    assert(s.take(to - from) =~= s);
    if over {
        None
    } else {
        Some(n)
    }
}

/// What a text says as a number up to `max`, a plus sign before it or not.
pub open spec fn unsigned(s: Seq<char>, max: nat) -> Option<nat> {
    if s.len() > 0 && s[0] == '+' {
        number(s.skip(1), max)
    } else {
        number(s, max)
    }
}

pub fn parse_unsigned(v: &Vec<char>, from: usize, to: usize, max: u64) -> (r: Option<u64>)
    requires
        from <= to <= v.len(),
    ensures
        match r {
            Some(n) => unsigned(v@.subrange(from as int, to as int), max as nat) == Some(n as nat)
                && n <= max,
            None => unsigned(v@.subrange(from as int, to as int), max as nat) is None,
        },
{
    if from < to && v[from] == '+' {
        assert(v@.subrange(from as int, to as int).skip(1) =~= v@.subrange(from + 1, to as int));
        parse_number(v, from + 1, to, max)
    } else {
        parse_number(v, from, to, max)
    }
}

/// Reading a number back from its decimal form.
pub proof fn lemma_decimal(n: nat)
    ensures
        decimal(n).len() > 0,
        all_digits(decimal(n)),
        digits_value(decimal(n)) == n,
        n > 0 ==> decimal(n)[0] != '0',
    decreases n,
{
    if n < 10 {
        let s = decimal(n);
        assert(s.len() == 1);
        assert(s.drop_last() =~= Seq::<char>::empty());
        assert(digits_value(s) == digits_value(s.drop_last()) * 10 + digit_value(s.last()));
    } else {
        lemma_decimal(n / 10);
        let s = decimal(n / 10);
        let t = decimal(n);
        assert(t.drop_last() =~= s);
        assert(t.last() == digit_char(n % 10));
        assert(digits_value(t) == n);
        assert forall|i: int| 0 <= i < t.len() implies is_digit(#[trigger] t[i]) by {
            if i < s.len() {
                assert(t[i] == s[i]);
            }
        }
        assert(t[0] == s[0]);
    }
}

/// A number in decimal, with zeros before it up to `width` digits.
pub open spec fn padded(n: nat, width: nat) -> Seq<char> {
    let d = decimal(n);
    if d.len() < width {
        Seq::new((width - d.len()) as nat, |i: int| '0') + d
    } else {
        d
    }
}

/// Appends a number, with zeros before it up to `width` digits.
pub fn push_padded(out: &mut String, n: u64, width: usize)
    ensures
        final(out)@ == old(out)@ + padded(n as nat, width as nat),
{
    let d = decimal_string(n);
    let len: usize = chars_of(&d).len();
    let ghost before = out@;
    let mut i: usize = len;
    assert(before + Seq::<char>::empty() =~= before);
    while i < width
        invariant
            len == decimal(n as nat).len(),
            len <= i,
            i <= width || i == len,
            out@ == before + Seq::new((i - len) as nat, |k: int| '0'),
        decreases width - i,
    {
        out.push('0');
        i += 1;
        assert(out@ =~= before + Seq::new((i - len) as nat, |k: int| '0'));
    }
    out.append(&d);
    assert(out@ =~= before + padded(n as nat, width as nat));
}

pub proof fn lemma_zeros_value(k: nat, d: Seq<char>)
    ensures
        digits_value(Seq::new(k, |i: int| '0') + d) == digits_value(d),
    decreases d.len(), k,
{
    let z = Seq::new(k, |i: int| '0');
    if d.len() > 0 {
        lemma_zeros_value(k, d.drop_last());
        assert((z + d).drop_last() =~= z + d.drop_last());
    } else if k > 0 {
        let z1 = Seq::new((k - 1) as nat, |i: int| '0');
        lemma_zeros_value((k - 1) as nat, d);
        assert((z + d).drop_last() =~= z1 + d);
        assert((z + d).last() == '0');
    } else {
        assert(z + d =~= d);
    }
}

/// Reading a number back from its padded form.
pub proof fn lemma_padded(n: nat, width: nat)
    ensures
        padded(n, width).len() >= width,
        padded(n, width).len() > 0,
        all_digits(padded(n, width)),
        digits_value(padded(n, width)) == n,
{
    lemma_decimal(n);
    let d = decimal(n);
    if d.len() < width {
        lemma_zeros_value((width - d.len()) as nat, d);
        let p = padded(n, width);
        assert forall|i: int| 0 <= i < p.len() implies is_digit(#[trigger] p[i]) by {
            if i >= width - d.len() {
                assert(p[i] == d[i - (width - d.len())]);
            }
        }
    }
}

/// How many digits a number has.
pub proof fn lemma_decimal_len(n: nat)
    ensures
        n < 10 ==> decimal(n).len() == 1,
        10 <= n < 100 ==> decimal(n).len() == 2,
        100 <= n < 1000 ==> decimal(n).len() == 3,
        1000 <= n < 10000 ==> decimal(n).len() == 4,
{
    reveal_with_fuel(decimal, 5);
}

proof fn lemma_padded_push(v: nat, d: nat, width: nat)
    requires
        d < 10,
        width >= 1,
    ensures
        padded(v * 10 + d, width + 1) == padded(v, width).push(digit_char(d)),
{
    let n = v * 10 + d;
    if v == 0 {
        assert(decimal(n) =~= seq![digit_char(d)]);
        assert(decimal(0) =~= seq!['0']);
        assert(padded(n, width + 1) =~= padded(v, width).push(digit_char(d)));
    } else {
        assert(n / 10 == v && n % 10 == d);
        assert(decimal(n) == decimal(v).push(digit_char(d)));
        assert(padded(n, width + 1) =~= padded(v, width).push(digit_char(d)));
    }
}

/// Digits are the padded form of what they write down.
pub proof fn lemma_padded_digits(s: Seq<char>)
    requires
        s.len() > 0,
        all_digits(s),
    ensures
        padded(digits_value(s), s.len()) == s,
    decreases s.len(),
{
    let c = s.last();
    assert(is_digit(s[s.len() - 1]));
    let d = digit_value(c);
    assert(digit_char(d) == c);
    if s.len() == 1 {
        assert(s.drop_last() =~= Seq::<char>::empty());
        assert(digits_value(s.drop_last()) == 0);
        assert(digits_value(s) == d);
        assert(decimal(d) =~= seq![c]);
        assert(s =~= seq![c]);
    } else {
        let front = s.drop_last();
        assert forall|i: int| 0 <= i < front.len() implies is_digit(#[trigger] front[i]) by {
            assert(front[i] == s[i]);
        }
        lemma_padded_digits(front);
        lemma_padded_push(digits_value(front), d, front.len());
        assert(front.push(c) =~= s);
    }
}

/// Where a character stands last that does not stand in what follows it.
pub proof fn lemma_last_at_is(before: Seq<char>, c: char, after: Seq<char>)
    requires
        forall|i: int| 0 <= i < after.len() ==> #[trigger] after[i] != c,
    ensures
        last_at(before.push(c) + after, c) == before.len(),
    decreases after.len(),
{
    let s = before.push(c) + after;
    if after.len() == 0 {
        assert(s =~= before.push(c));
    } else {
        assert(s.last() == after[after.len() - 1]);
        assert(s.drop_last() =~= before.push(c) + after.drop_last());
        assert forall|i: int| 0 <= i < after.drop_last().len() implies #[trigger] after.drop_last()[i]
            != c by {
            assert(after.drop_last()[i] == after[i]);
        }
        lemma_last_at_is(before, c, after.drop_last());
    }
}

/// The last part of a split is what follows the last separator.
pub proof fn lemma_split_last(s: Seq<char>, sep: char)
    ensures
        split_on(s, sep).len() >= 1,
        split_on(s, sep).last() == s.skip(last_at(s, sep) + 1),
        split_on(s, sep).len() == 1 <==> last_at(s, sep) == -1,
    decreases s.len(),
{
    if s.len() > 0 {
        let front = s.drop_last();
        lemma_split_last(front, sep);
        lemma_last_at(front, sep);
        if s.last() == sep {
            assert(s.skip(s.len() as int) =~= Seq::<char>::empty());
        } else {
            assert(split_on(s, sep).last() =~= s.skip(last_at(s, sep) + 1));
        }
    } else {
        assert(s.skip(0) =~= Seq::<char>::empty());
    }
}

/// What follows a text without a separator in it goes to the last part.
pub proof fn lemma_split_extend(s: Seq<char>, name: Seq<char>, sep: char)
    requires
        !name.contains(sep),
    ensures
        split_on(s + name, sep) == split_on(s, sep).drop_last().push(
            split_on(s, sep).last() + name,
        ),
    decreases name.len(),
{
    let parts = split_on(s, sep);
    lemma_split_on_nonempty(s, sep);
    if name.len() == 0 {
        assert(s + name =~= s);
        assert(parts.last() + name =~= parts.last());
        assert(parts.drop_last().push(parts.last()) =~= parts);
    } else {
        let front = name.drop_last();
        assert(!front.contains(sep)) by {
            if front.contains(sep) {
                let k = choose|k: int| 0 <= k < front.len() && front[k] == sep;
                assert(name[k] == sep);
            }
        }
        assert(name[name.len() - 1] != sep);
        lemma_split_extend(s, front, sep);
        assert((s + name).drop_last() =~= s + front);
        assert((s + name).last() == name.last());
        let before = split_on(s + front, sep);
        assert(before.last() == parts.last() + front);
        assert(before.drop_last() =~= parts.drop_last());
        assert(before.last().push(name.last()) =~= parts.last() + name);
        assert(split_on(s + name, sep) =~= parts.drop_last().push(parts.last() + name));
    }
}

/// A text with one more line at its end.
pub proof fn lemma_lines_push(s: Seq<char>, line: Seq<char>)
    requires
        s.len() == 0 || s.last() == '\n',
        !line.contains('\n'),
    ensures
        lines(s + line.push('\n')) == lines(s).push(without_cr(line)),
{
    let parts = split_on(s, '\n');
    lemma_split_on_nonempty(s, '\n');
    assert(parts.last() == Seq::<char>::empty());
    lemma_split_extend(s, line, '\n');
    let whole = s + line.push('\n');
    assert(whole.drop_last() =~= s + line);
    assert(Seq::<char>::empty() + line =~= line);
    let before = parts.drop_last().push(line);
    assert(split_on(s + line, '\n') == before);
    assert(split_on(whole, '\n') == before.push(Seq::empty()));
    assert(lines(whole) =~= lines(s).push(without_cr(line)));
}

pub open spec fn spaces(n: int) -> Seq<char> {
    Seq::new(
        (if n > 0 {
            n
        } else {
            0
        }) as nat,
        |i: int| ' ',
    )
}

/// A text, filled up with spaces to a width.
pub open spec fn left(s: Seq<char>, width: int) -> Seq<char> {
    s + spaces(width - s.len())
}

/// A text, with spaces before it up to a width.
pub open spec fn right(s: Seq<char>, width: int) -> Seq<char> {
    spaces(width - s.len()) + s
}

fn push_spaces(out: &mut String, from: usize, to: usize)
    ensures
        final(out)@ == old(out)@ + spaces(to - from),
{
    let ghost start = out@;
    let mut n: usize = from;
    assert(start + spaces(0) =~= start);
    while n < to
        invariant
            from <= n,
            n <= to || n == from,
            out@ == start + spaces(n - from),
        decreases to - n,
    {
        out.push(' ');
        n += 1;
        assert(out@ =~= start + spaces(n - from));
    }
    assert(spaces(to - from) =~= spaces(n - from));
}

pub fn push_left(out: &mut String, s: &str, width: usize)
    ensures
        final(out)@ == old(out)@ + left(s@, width as int),
{
    let ghost start = out@;
    out.append(s);
    push_spaces(out, chars_of(s).len(), width);
    assert(out@ =~= start + left(s@, width as int));
}

pub fn push_right(out: &mut String, s: &str, width: usize)
    ensures
        final(out)@ == old(out)@ + right(s@, width as int),
{
    let ghost start = out@;
    push_spaces(out, chars_of(s).len(), width);
    out.append(s);
    assert(out@ =~= start + right(s@, width as int));
}

/// Appends a text to a list of texts.
pub fn push_text(v: &mut Vec<String>, s: String)
    ensures
        views(final(v)@) == views(old(v)@).push(s@),
{
    let ghost had = views(v@);
    let ghost t = s@;
    v.push(s);
    assert(views(v@) =~= had.push(t));
}

/// Adds lines to lines.
pub fn push_texts(v: &mut Vec<String>, more: Vec<String>)
    ensures
        views(final(v)@) == views(old(v)@) + views(more@),
{
    let ghost had = views(v@);
    let mut i: usize = 0;
    assert(had + views(more@).take(0) =~= had);
    while i < more.len()
        invariant
            i <= more.len(),
            views(v@) == had + views(more@).take(i as int),
        decreases more.len() - i,
    {
        push_text(v, more[i].clone());
        assert(had + views(more@).take(i + 1) =~= (had + views(more@).take(i as int)).push(
            views(more@)[i as int],
        ));
        i += 1;
    }
    assert(views(more@).take(more@.len() as int) =~= views(more@));
}

/// What remains of bytes that are not UTF-8, with replacement characters where they are not.
pub uninterp spec fn replaced_text(data: Seq<u8>) -> Seq<char>;

/// Bytes as text: read as UTF-8 as they stand, where they are that.
pub open spec fn lossy_text(data: Seq<u8>) -> Seq<char> {
    if vstd::utf8::valid_utf8(data) {
        vstd::utf8::decode_utf8(data)
    } else {
        replaced_text(data)
    }
}

/// `String::from_utf8_lossy`: bytes that are UTF-8 are read as they stand; otherwise the
/// text is a function of the bytes alone.
#[verifier::external_body]
pub(crate) fn lossy(data: &[u8]) -> (s: String)
    ensures
        s@ == if vstd::utf8::valid_utf8(data@) {
            vstd::utf8::decode_utf8(data@)
        } else {
            replaced_text(data@)
        },
{
    String::from_utf8_lossy(data).into_owned()
}

/// A text in quotes, with whatever cannot be shown escaped.
pub uninterp spec fn debug_text(s: Seq<char>) -> Seq<char>;

/// `format!` with `{:?}`: a function of the text alone.
#[verifier::external_body]
pub(crate) fn debug_of(s: &str) -> (r: String)
    ensures
        r@ == debug_text(s@),
{
    format!("{s:?}")
}

/// A number with its sign.
pub open spec fn signed_decimal(n: int) -> Seq<char> {
    if n < 0 {
        seq!['-'] + decimal((-n) as nat)
    } else {
        decimal(n as nat)
    }
}

pub fn push_signed(out: &mut String, n: i64)
    ensures
        final(out)@ == old(out)@ + signed_decimal(n as int),
{
    let ghost before = out@;
    if n < 0 {
        out.push('-');
        push_decimal(out, (-(n as i128)) as u64);
        assert(out@ =~= before + signed_decimal(n as int));
    } else {
        push_decimal(out, n as u64);
    }
}

/// The lines that hold something, without white space around them.
pub open spec fn spoken_lines(ls: Seq<Seq<char>>) -> Seq<Seq<char>>
    decreases ls.len(),
{
    if ls.len() == 0 {
        Seq::empty()
    } else if trim(ls.last()).len() > 0 {
        spoken_lines(ls.drop_last()).push(trim(ls.last()))
    } else {
        spoken_lines(ls.drop_last())
    }
}

pub fn spoken_lines_of(s: &str) -> (r: Vec<String>)
    ensures
        views(r@) == spoken_lines(lines(s@)),
{
    let ls = lines_of(s);
    let ghost all = views(ls@);
    let mut r: Vec<String> = Vec::new();
    let mut i: usize = 0;
    assert(views(r@) =~= spoken_lines(all.take(0)));
    while i < ls.len()
        invariant
            i <= ls.len(),
            all == views(ls@),
            views(r@) == spoken_lines(all.take(i as int)),
        decreases ls.len() - i,
    {
        assert(all.take(i as int + 1).drop_last() =~= all.take(i as int));
        assert(all.take(i as int + 1).last() == ls@[i as int]@);
        let line = trim_string(&ls[i]);
        if !line.as_str().is_empty() {
            let ghost before = views(r@);
            let ghost said = line@;
            r.push(line);
            assert(views(r@) =~= before.push(said));
        }
        i += 1;
    }
    assert(all.take(all.len() as int) =~= all);
    r
}

/// What is said of bytes that are not UTF-8.
pub uninterp spec fn utf8_fault(data: Seq<u8>) -> Seq<char>;

/// `std::str::from_utf8`: the text that the bytes are, or where they stop being UTF-8, which
/// is a function of the bytes.
#[verifier::external_body]
pub(crate) fn utf8_of(data: &[u8]) -> (r: Result<String, String>)
    ensures
        r is Ok <==> vstd::utf8::valid_utf8(data@),
        r matches Ok(s) ==> s@ == vstd::utf8::decode_utf8(data@),
        r matches Err(e) ==> e@ == utf8_fault(data@),
{
    std::str::from_utf8(data).map(|s| s.to_owned()).map_err(|e| e.to_string())
}

/// A text stands in another at `i`.
pub open spec fn occurs_at(s: Seq<char>, pat: Seq<char>, i: int) -> bool {
    0 <= i && i + pat.len() <= s.len() && s.subrange(i, i + pat.len()) == pat
}

/// A text stands in another somewhere.
pub open spec fn occurs(s: Seq<char>, pat: Seq<char>) -> bool {
    exists|i: int| #[trigger] occurs_at(s, pat, i)
}

/// What stands from `i` on, with one text put in place of another wherever it stands.
pub open spec fn replaced(s: Seq<char>, pat: Seq<char>, with: Seq<char>, i: int) -> Seq<char>
    decreases s.len() - i,
{
    if i < 0 || i >= s.len() || pat.len() == 0 {
        Seq::empty()
    } else if occurs_at(s, pat, i) {
        with + replaced(s, pat, with, i + pat.len())
    } else {
        seq![s[i]] + replaced(s, pat, with, i + 1)
    }
}

fn stands_at(v: &Vec<char>, p: &Vec<char>, i: usize) -> (b: bool)
    requires
        i <= v.len(),
    ensures
        b == occurs_at(v@, p@, i as int),
{
    if p.len() > v.len() - i {
        return false;
    }
    let mut k: usize = 0;
    while k < p.len()
        invariant
            k <= p.len(),
            i + p.len() <= v.len(),
            forall|j: int| 0 <= j < k ==> v@[i + j] == p@[j],
        decreases p.len() - k,
    {
        if v[i + k] != p[k] {
            assert(v@.subrange(i as int, i + p@.len())[k as int] == v@[i + k]);
            return false;
        }
        k += 1;
    }
    assert(v@.subrange(i as int, i + p@.len()) =~= p@);
    true
}

/// Whether a text stands in another.
pub fn has_text(s: &str, pat: &str) -> (b: bool)
    ensures
        b == occurs(s@, pat@),
{
    let v = chars_of(s);
    let p = chars_of(pat);
    let mut i: usize = 0;
    while i < v.len()
        invariant
            i <= v.len(),
            v@ == s@,
            p@ == pat@,
            forall|k: int| 0 <= k < i ==> !#[trigger] occurs_at(s@, pat@, k),
        decreases v.len() - i,
    {
        if stands_at(&v, &p, i) {
            return true;
        }
        i += 1;
    }
    stands_at(&v, &p, i)
}

/// A text with one text put in place of another wherever it stands.
pub fn replace_text(s: &str, pat: &str, with: &str) -> (r: String)
    requires
        pat@.len() > 0,
    ensures
        r@ == replaced(s@, pat@, with@, 0),
{
    let v = chars_of(s);
    let p = chars_of(pat);
    let mut out = String::new();
    let mut i: usize = 0;
    assert(out@ + replaced(s@, pat@, with@, 0) =~= replaced(s@, pat@, with@, 0));
    while i < v.len()
        invariant
            i <= v.len(),
            v@ == s@,
            p@ == pat@,
            p@.len() > 0,
            out@ + replaced(s@, pat@, with@, i as int) == replaced(s@, pat@, with@, 0),
        decreases v.len() - i,
    {
        let ghost before = out@;
        if stands_at(&v, &p, i) {
            out.append(with);
            assert(before + (with@ + replaced(s@, pat@, with@, i + p@.len())) =~= before + with@
                + replaced(s@, pat@, with@, i + p@.len()));
            i += p.len();
        } else {
            out.push(v[i]);
            assert(before + (seq![v@[i as int]] + replaced(s@, pat@, with@, i + 1)) =~= out@
                + replaced(s@, pat@, with@, i + 1));
            i += 1;
        }
    }
    assert(out@ + replaced(s@, pat@, with@, i as int) =~= out@);
    out
}

/// A digit stands for how far it comes after zero, and a number in decimal is read as itself
/// and spelled without zeros before it.
pub proof fn law_numbers_are_spelled_in_decimal(n: nat)
    ensures
        n < 10 ==> decimal(n) == seq![(48 + n) as char],
        n >= 10 ==> decimal(n) == decimal(n / 10).push((48 + n % 10) as char),
        all_digits(decimal(n)),
        digits_value(decimal(n)) == n,
        n > 0 ==> decimal(n)[0] != '0',
    decreases n,
{
    lemma_decimal(n);
    if n >= 10 {
        law_numbers_are_spelled_in_decimal(n / 10);
        lemma_decimal(n / 10);
        assert(decimal(n)[0] == decimal(n / 10)[0]);
    }
}

/// A column holds its text and then spaces, or the spaces first, up to its width and no more
/// than the text where that is longer.
pub proof fn law_columns_are_filled(s: Seq<char>, width: nat, i: int)
    ensures
        left(s, width as int).len() == if s.len() < width {
            width
        } else {
            s.len()
        },
        left(s, width as int).take(s.len() as int) == s,
        s.len() <= i < left(s, width as int).len() ==> left(s, width as int)[i] == ' ',
        right(s, width as int).len() == left(s, width as int).len(),
        right(s, width as int).skip(right(s, width as int).len() - s.len()) == s,
        0 <= i < right(s, width as int).len() - s.len() ==> right(s, width as int)[i] == ' ',
{
    assert(left(s, width as int).take(s.len() as int) =~= s);
    assert(right(s, width as int).skip(right(s, width as int).len() - s.len()) =~= s);
}

/// Letters fall to their lower-case forms, 32 further on, and nothing else changes.
pub proof fn law_only_letters_are_lowered(s: Seq<char>, i: int)
    requires
        0 <= i < s.len(),
    ensures
        lowercase(s).len() == s.len(),
        lowercase(s)[i] as int == if 'A' <= s[i] && s[i] <= 'Z' {
            s[i] as int + 32
        } else {
            s[i] as int
        },
{
}

/// Joined parts stand in order with the separator between them.
pub proof fn law_parts_are_joined(parts: Seq<Seq<char>>, last: Seq<char>, sep: Seq<char>)
    ensures
        join(Seq::<Seq<char>>::empty(), sep) == Seq::<char>::empty(),
        join(seq![last], sep) == last,
        parts.len() > 0 ==> join(parts.push(last), sep) == join(parts, sep) + sep + last,
{
    assert(parts.push(last).drop_last() =~= parts);
    let one = seq![last];
    assert(one.drop_last() =~= Seq::<Seq<char>>::empty());
    assert(join(one, sep) =~= last);
}

/// Parts that hold no separator come back from what they make with separators between them.
pub proof fn law_split_parts_come_back(s: Seq<char>, part: Seq<char>, sep: char)
    requires
        !part.contains(sep),
    ensures
        split_on(part, sep) == seq![part],
        split_on(s + seq![sep] + part, sep) == split_on(s, sep).push(part),
{
    let none = Seq::<char>::empty();
    lemma_split_extend(none, part, sep);
    assert(none + part =~= part);
    assert(split_on(none, sep).drop_last() =~= Seq::<Seq<char>>::empty());
    assert(split_on(part, sep) =~= seq![part]);
    let t = s + seq![sep];
    assert(t.drop_last() =~= s);
    lemma_split_extend(t, part, sep);
    assert(split_on(t + part, sep) =~= split_on(s, sep).push(part));
}

} // verus!
