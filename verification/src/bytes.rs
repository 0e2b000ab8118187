//! Byte sequences: little-endian integers, copies and comparisons.

use vstd::prelude::*;

verus! {

/// The two bytes of a number below 2^16, least significant first.
pub open spec fn le16(n: nat) -> Seq<u8> {
    seq![(n % 256) as u8, (n / 256 % 256) as u8]
}

/// The four bytes of a number below 2^32, least significant first.
pub open spec fn le32(n: nat) -> Seq<u8> {
    seq![
        (n % 256) as u8,
        (n / 256 % 256) as u8,
        (n / 65536 % 256) as u8,
        (n / 16777216 % 256) as u8,
    ]
}

/// The number that the two bytes at `i` hold, least significant first.
pub open spec fn u16_at(s: Seq<u8>, i: int) -> nat {
    s[i] as nat + 256 * s[i + 1] as nat
}

/// The number that the four bytes at `i` hold, least significant first.
pub open spec fn u32_at(s: Seq<u8>, i: int) -> nat {
    s[i] as nat + 256 * s[i + 1] as nat + 65536 * s[i + 2] as nat + 16777216 * s[i + 3] as nat
}

/// The bytes at `i` are those of `part`.
pub open spec fn holds_at(s: Seq<u8>, i: int, part: Seq<u8>) -> bool {
    &&& 0 <= i
    &&& i + part.len() <= s.len()
    &&& forall|k: int| 0 <= k < part.len() ==> #[trigger] s[i + k] == part[k]
}

/// Reading back what [`le32`] wrote.
pub proof fn lemma_le32(n: nat, s: Seq<u8>, i: int)
    requires
        n < 0x1_0000_0000,
        holds_at(s, i, le32(n)),
    ensures
        u32_at(s, i) == n,
{
    assert(s[i + 0] == le32(n)[0]);
    assert(s[i + 1] == le32(n)[1]);
    assert(s[i + 2] == le32(n)[2]);
    assert(s[i + 3] == le32(n)[3]);
}

/// Reading back what [`le16`] wrote.
pub proof fn lemma_le16(n: nat, s: Seq<u8>, i: int)
    requires
        n < 0x1_0000,
        holds_at(s, i, le16(n)),
    ensures
        u16_at(s, i) == n,
{
    assert(s[i + 0] == le16(n)[0]);
    assert(s[i + 1] == le16(n)[1]);
}

pub fn push_le16(out: &mut Vec<u8>, n: u16)
    ensures
        final(out)@ == old(out)@ + le16(n as nat),
{
    out.push((n % 256) as u8);
    out.push((n / 256 % 256) as u8);
    assert(out@ =~= old(out)@ + le16(n as nat));
}

pub fn push_le32(out: &mut Vec<u8>, n: u32)
    ensures
        final(out)@ == old(out)@ + le32(n as nat),
{
    out.push((n % 256) as u8);
    out.push((n / 256 % 256) as u8);
    out.push((n / 65536 % 256) as u8);
    out.push((n / 16777216 % 256) as u8);
    assert(out@ =~= old(out)@ + le32(n as nat));
}

pub fn read_le16(s: &[u8], i: usize) -> (n: u16)
    requires
        i + 2 <= s.len(),
    ensures
        n == u16_at(s@, i as int),
{
    s[i] as u16 + 256 * s[i + 1] as u16
}

pub fn read_le32(s: &[u8], i: usize) -> (n: u32)
    requires
        i + 4 <= s.len(),
    ensures
        n == u32_at(s@, i as int),
{
    s[i] as u32 + 256 * s[i + 1] as u32 + 65536 * s[i + 2] as u32 + 16777216 * s[i + 3] as u32
}

/// Appends the bytes of `s` from `from` up to, not including, `to`.
pub fn push_range(out: &mut Vec<u8>, s: &[u8], from: usize, to: usize)
    requires
        from <= to <= s.len(),
    ensures
        final(out)@ == old(out)@ + s@.subrange(from as int, to as int),
{
    let ghost before = out@;
    let mut i: usize = from;
    while i < to
        invariant
            from <= i <= to <= s.len(),
            out@ == before + s@.subrange(from as int, i as int),
        decreases to - i,
    {
        out.push(s[i]);
        i += 1;
        assert(out@ =~= before + s@.subrange(from as int, i as int));
    }
}

pub fn push_all(out: &mut Vec<u8>, s: &[u8])
    ensures
        final(out)@ == old(out)@ + s@,
{
    push_range(out, s, 0, s.len());
    assert(s@.subrange(0, s@.len() as int) =~= s@);
}

/// Appends `n` zero bytes.
pub fn push_zeros(out: &mut Vec<u8>, n: usize)
    ensures
        final(out)@ == old(out)@ + zeros(n as nat),
{
    let ghost before = out@;
    let mut i: usize = 0;
    while i < n
        invariant
            i <= n,
            out@ == before + zeros(i as nat),
        decreases n - i,
    {
        out.push(0u8);
        i += 1;
        assert(out@ =~= before + zeros(i as nat));
    }
}

pub open spec fn zeros(n: nat) -> Seq<u8> {
    Seq::new(n, |i: int| 0u8)
}

/// A copy of the bytes from `from` up to, not including, `to`.
pub fn copy_range(s: &[u8], from: usize, to: usize) -> (out: Vec<u8>)
    requires
        from <= to <= s.len(),
    ensures
        out@ == s@.subrange(from as int, to as int),
{
    let mut out: Vec<u8> = Vec::new();
    push_range(&mut out, s, from, to);
    assert(out@ =~= s@.subrange(from as int, to as int));
    out
}

/// Whether the bytes of `s` at `i` are the four of `tag`.
pub fn tag_at(s: &[u8], i: usize, tag: [u8; 4]) -> (r: bool)
    requires
        i + 4 <= s.len(),
    ensures
        r == (s@.subrange(i as int, i + 4) == tag@),
{
    let r = s[i] == tag[0] && s[i + 1] == tag[1] && s[i + 2] == tag[2] && s[i + 3] == tag[3];
    proof {
        let sub = s@.subrange(i as int, i + 4);
        if r {
            assert(sub =~= tag@);
        } else {
            assert(sub[0] == s@[i as int] && sub[1] == s@[i + 1] && sub[2] == s@[i + 2] && sub[3]
                == s@[i + 3]);
        }
    }
    r
}

pub fn same_bytes(a: &[u8], b: &[u8]) -> (r: bool)
    ensures
        r == (a@ == b@),
{
    if a.len() != b.len() {
        return false;
    }
    let mut i: usize = 0;
    while i < a.len()
        invariant
            i <= a.len(),
            a.len() == b.len(),
            forall|k: int| 0 <= k < i ==> a@[k] == b@[k],
        decreases a.len() - i,
    {
        if a[i] != b[i] {
            return false;
        }
        i += 1;
    }
    assert(a@ =~= b@);
    true
}

/// Whether two digests are the same.
pub fn same_md5(a: &[u8; 16], b: &[u8; 16]) -> (r: bool)
    ensures
        r == (a@ == b@),
        r == (*a == *b),
{
    let mut i: usize = 0;
    while i < 16
        invariant
            i <= 16,
            forall|k: int| 0 <= k < i ==> a@[k] == b@[k],
        decreases 16 - i,
    {
        if a[i] != b[i] {
            return false;
        }
        i += 1;
    }
    assert(a@ =~= b@);
    assert(*a =~= *b);
    true
}

/// An integer's two's complement in 32 bits.
pub open spec fn twos(n: int) -> nat {
    if n >= 0 {
        n as nat
    } else {
        (n + 0x1_0000_0000) as nat
    }
}

pub fn twos_of(n: i32) -> (u: u32)
    ensures
        u == twos(n as int),
{
    if n >= 0 {
        n as u32
    } else {
        (n as i64 + 0x1_0000_0000) as u32
    }
}

/// The order of byte strings: by the first byte in which they differ, and a string before
/// those that it begins.
pub open spec fn before(a: Seq<u8>, b: Seq<u8>) -> bool
    decreases a.len(),
{
    if b.len() == 0 {
        false
    } else if a.len() == 0 {
        true
    } else {
        a[0] < b[0] || (a[0] == b[0] && before(a.drop_first(), b.drop_first()))
    }
}

pub proof fn lemma_before_trans(a: Seq<u8>, b: Seq<u8>, c: Seq<u8>)
    requires
        before(a, b),
        before(b, c),
    ensures
        before(a, c),
    decreases a.len(),
{
    if a.len() > 0 && a[0] == b[0] && b[0] == c[0] {
        lemma_before_trans(a.drop_first(), b.drop_first(), c.drop_first());
    }
}

pub proof fn lemma_before_differs(a: Seq<u8>, b: Seq<u8>)
    requires
        before(a, b),
    ensures
        a != b,
    decreases a.len(),
{
    if a.len() > 0 && b.len() > 0 && a[0] == b[0] {
        lemma_before_differs(a.drop_first(), b.drop_first());
    }
}

/// Of two different byte strings one comes before the other.
pub proof fn lemma_before_total(a: Seq<u8>, b: Seq<u8>)
    ensures
        a == b || before(a, b) || before(b, a),
    decreases a.len(),
{
    if a.len() == 0 || b.len() == 0 {
        if a.len() == 0 && b.len() == 0 {
            assert(a =~= b);
        }
    } else if a[0] == b[0] {
        lemma_before_total(a.drop_first(), b.drop_first());
        if a.drop_first() == b.drop_first() {
            assert(a =~= seq![a[0]] + a.drop_first());
            assert(b =~= seq![b[0]] + b.drop_first());
        }
    }
}

/// Whether a byte string comes before another.
pub fn comes_before(a: &[u8], b: &[u8]) -> (r: bool)
    ensures
        r == before(a@, b@),
{
    let mut i: usize = 0;
    assert(a@.skip(0) =~= a@ && b@.skip(0) =~= b@);
    while i < a.len() && i < b.len()
        invariant
            i <= a.len(),
            i <= b.len(),
            before(a@, b@) == before(a@.skip(i as int), b@.skip(i as int)),
        decreases a.len() - i,
    {
        let ghost (x, y) = (a@.skip(i as int), b@.skip(i as int));
        assert(x[0] == a@[i as int] && y[0] == b@[i as int]);
        if a[i] != b[i] {
            return a[i] < b[i];
        }
        assert(x.drop_first() =~= a@.skip(i + 1));
        assert(y.drop_first() =~= b@.skip(i + 1));
        i += 1;
    }
    i < b.len()
}

/// The numbers below `n`, each once.
pub open spec fn is_order(order: Seq<usize>, n: int) -> bool {
    &&& order.len() == n
    &&& order.no_duplicates()
    &&& forall|i: int| 0 <= i < n ==> #[trigger] order[i] < n
}

/// In this order no key comes before an earlier one, and keys that are the same stay in the
/// order that they came in.
pub open spec fn sorts(order: Seq<usize>, keys: Seq<Seq<u8>>) -> bool {
    forall|i: int, j: int|
        0 <= i < j < order.len() ==> in_turn(keys, #[trigger] order[i], #[trigger] order[j])
}

/// The entry `a` may stand before the entry `b`.
pub open spec fn in_turn(keys: Seq<Seq<u8>>, a: usize, b: usize) -> bool {
    before(keys[a as int], keys[b as int]) || (keys[a as int] == keys[b as int] && a < b)
}

proof fn lemma_in_turn(keys: Seq<Seq<u8>>, a: usize, b: usize, c: usize)
    requires
        in_turn(keys, a, b),
        in_turn(keys, b, c),
    ensures
        in_turn(keys, a, c),
{
    if before(keys[a as int], keys[b as int]) && before(keys[b as int], keys[c as int]) {
        lemma_before_trans(keys[a as int], keys[b as int], keys[c as int]);
    }
}

/// The order of keys.
pub fn sort_order(keys: &Vec<Vec<u8>>) -> (order: Vec<usize>)
    ensures
        is_order(order@, keys.len() as int),
        sorts(order@, crate::seqs::nested(keys@)),
{
    let ghost all = crate::seqs::nested(keys@);
    let mut order: Vec<usize> = Vec::new();
    let mut n: usize = 0;
    while n < keys.len()
        invariant
            n <= keys.len(),
            all == crate::seqs::nested(keys@),
            is_order(order@, n as int),
            sorts(order@, all),
        decreases keys.len() - n,
    {
        let ghost had = order@;
        let mut p: usize = order.len();
        while p > 0 && comes_before(&keys[n], &keys[order[p - 1]])
            invariant
                p <= order.len(),
                n < keys.len(),
                order@ == had,
                all == crate::seqs::nested(keys@),
                is_order(order@, n as int),
                sorts(order@, all),
                forall|k: int| p <= k < order.len() ==> in_turn(all, n, #[trigger] order@[k]),
            decreases p,
        {
            assert(all[n as int] == keys@[n as int]@);
            assert(all[order@[p - 1] as int] == keys@[order@[p - 1] as int]@);
            p -= 1;
        }
        proof {
            assert forall|k: int| 0 <= k < p implies in_turn(all, #[trigger] had[k], n) by {
                let last = had[p - 1];
                assert(all[n as int] == keys@[n as int]@);
                assert(all[last as int] == keys@[last as int]@);
                lemma_before_total(all[last as int], all[n as int]);
                assert(in_turn(all, last, n));
                if k < p - 1 {
                    assert(in_turn(all, had[k], last));
                    lemma_in_turn(all, had[k], last, n);
                }
            }
        }
        order.insert(p, n);
        proof {
            let now = order@;
            assert(now =~= had.take(p as int).push(n) + had.skip(p as int));
            assert forall|i: int| 0 <= i < now.len() implies #[trigger] now[i] == if i < p {
                had[i]
            } else if i == p {
                n
            } else {
                had[i - 1]
            } by {}
            assert forall|i: int, j: int| 0 <= i < j < now.len() implies in_turn(
                all,
                #[trigger] now[i],
                #[trigger] now[j],
            ) by {
                if i < p && j < p {
                    assert(in_turn(all, had[i], had[j]));
                } else if i < p && j > p {
                    assert(in_turn(all, had[i], had[j - 1]));
                } else if i > p {
                    assert(in_turn(all, had[i - 1], had[j - 1]));
                } else if i == p {
                    assert(in_turn(all, n, had[j - 1]));
                }
            }
            assert forall|i: int| 0 <= i < now.len() implies #[trigger] now[i] < n + 1 by {
                if i < p {
                    assert(had[i] < n);
                } else if i > p {
                    assert(had[i - 1] < n);
                }
            }
            assert(now.no_duplicates()) by {
                assert forall|i: int, j: int|
                    0 <= i < now.len() && 0 <= j < now.len() && i != j implies now[i]
                    != now[j] by {
                    if i == p || j == p {
                        let k = if i == p {
                            j
                        } else {
                            i
                        };
                        if k < p {
                            assert(had[k] < n);
                        } else {
                            assert(had[k - 1] < n);
                        }
                    }
                }
            }
        }
        n += 1;
    }
    order
}

} // verus!
