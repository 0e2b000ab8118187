//! What is written is read back: an encoded draft is a torrent, and says what the draft says.

use super::bencode;
use super::bencode::{Level, Tok};
use super::encode;
use super::encode::{Content, Draft, Pair};
use super::metainfo;
use super::metainfo::{InfoParts, Metainfo, TorrentFile};
use super::values;
use crate::bytes;
use crate::digest;
use crate::seqs;
use crate::text;
use vstd::prelude::*;

verus! {

// Values, and where they stand.

/// With `d` open at `j`, everything is closed exactly at the end.
pub open spec fn closes(v: Seq<Tok>, j: int, d: int) -> bool
    decreases v.len() - j,
{
    if d <= 0 {
        d == 0 && j == v.len()
    } else {
        0 <= j < v.len() && closes(v, j + 1, d + bencode::opens(v[j]))
    }
}

/// The tokens are those of one value.
pub open spec fn is_value(v: Seq<Tok>) -> bool {
    v.len() > 0 && !(v[0] is End) && closes(v, 1, bencode::opens(v[0]))
}

/// These tokens stand at `p`.
pub open spec fn stands(ts: Seq<Tok>, p: int, v: Seq<Tok>) -> bool {
    0 <= p && p + v.len() <= ts.len() && ts.subrange(p, p + v.len()) == v
}

proof fn lemma_stands_at(ts: Seq<Tok>, p: int, v: Seq<Tok>, j: int)
    requires
        stands(ts, p, v),
        0 <= j < v.len(),
    ensures
        ts[p + j] == v[j],
{
    assert(ts.subrange(p, p + v.len())[j] == v[j]);
}

/// A part of what stands somewhere stands there too.
proof fn lemma_stands_part(ts: Seq<Tok>, p: int, a: Seq<Tok>, v: Seq<Tok>, b: Seq<Tok>)
    requires
        stands(ts, p, a + v + b),
    ensures
        stands(ts, p + a.len(), v),
{
    let q = p + a.len();
    assert(ts.subrange(q, q + v.len()) =~= v) by {
        assert forall|j: int| 0 <= j < v.len() implies ts.subrange(q, q + v.len())[j] == v[j] by {
            lemma_stands_at(ts, p, a + v + b, a.len() + j);
        }
    }
}

proof fn lemma_closed(ts: Seq<Tok>, p: int, v: Seq<Tok>, j: int, d: int)
    requires
        stands(ts, p, v),
        0 <= j,
        closes(v, j, d),
    ensures
        bencode::closed_at(ts, p + j, d) == p + v.len(),
    decreases v.len() - j,
{
    if d > 0 {
        lemma_stands_at(ts, p, v, j);
        lemma_closed(ts, p, v, j + 1, d + bencode::opens(v[j]));
    }
}

/// A value is over where its tokens are.
proof fn lemma_past(ts: Seq<Tok>, p: int, v: Seq<Tok>)
    requires
        stands(ts, p, v),
        is_value(v),
    ensures
        bencode::past(ts, p) == p + v.len(),
        ts[p] == v[0],
{
    lemma_stands_at(ts, p, v, 0);
    lemma_closed(ts, p, v, 1, bencode::opens(v[0]));
}

/// A value opens nothing that it does not close.
proof fn lemma_through(ts: Seq<Tok>, p: int, v: Seq<Tok>, j: int, e: int, d: int)
    requires
        stands(ts, p, v),
        0 <= j,
        0 <= e,
        closes(v, j, e),
        d >= 1,
    ensures
        closes(ts, p + j, e + d) == closes(ts, p + v.len(), d),
    decreases v.len() - j,
{
    if e > 0 {
        lemma_stands_at(ts, p, v, j);
        assert(closes(ts, p + j, e + d) == closes(
            ts,
            p + j + 1,
            e + d + bencode::opens(v[j]),
        ));
        lemma_through(ts, p, v, j + 1, e + bencode::opens(v[j]), d);
    }
}

proof fn lemma_value_through(ts: Seq<Tok>, p: int, v: Seq<Tok>, d: int)
    requires
        stands(ts, p, v),
        is_value(v),
        d >= 1,
    ensures
        closes(ts, p, d) == closes(ts, p + v.len(), d),
{
    lemma_stands_at(ts, p, v, 0);
    lemma_through(ts, p, v, 1, bencode::opens(v[0]), d);
}

// Dictionaries.

/// Every value of these entries is one.
pub open spec fn are_values(pairs: Seq<Pair>) -> bool {
    forall|k: int| 0 <= k < pairs.len() ==> is_value((#[trigger] pairs[k]).1)
}

/// How far into a dictionary the entry `k` begins.
pub open spec fn reach(pairs: Seq<Pair>, k: int) -> int {
    encode::pair_tokens(pairs.take(k)).len() as int
}

proof fn lemma_reach(pairs: Seq<Pair>, k: int)
    requires
        0 <= k < pairs.len(),
    ensures
        reach(pairs, k + 1) == reach(pairs, k) + 1 + pairs[k].1.len(),
        encode::pair_tokens(pairs.take(k + 1)) == encode::pair_tokens(pairs.take(k)) + seq![
            Tok::Bytes(bencode::word(pairs[k].0)),
        ] + pairs[k].1,
{
    assert(pairs.take(k + 1).drop_last() =~= pairs.take(k));
}

/// The tokens of the first entries begin the tokens of all.
proof fn lemma_pairs_split(pairs: Seq<Pair>, k: int) -> (rest: Seq<Tok>)
    requires
        0 <= k <= pairs.len(),
    ensures
        encode::pair_tokens(pairs) == encode::pair_tokens(pairs.take(k)) + rest,
    decreases pairs.len() - k,
{
    if k == pairs.len() {
        assert(pairs.take(k) =~= pairs);
        let none = Seq::<Tok>::empty();
        assert(encode::pair_tokens(pairs) + none =~= encode::pair_tokens(pairs));
        none
    } else {
        let after = lemma_pairs_split(pairs, k + 1);
        lemma_reach(pairs, k);
        let mine = seq![Tok::Bytes(bencode::word(pairs[k].0))] + pairs[k].1;
        let front = encode::pair_tokens(pairs.take(k));
        assert(encode::pair_tokens(pairs) =~= front + (mine + after));
        mine + after
    }
}

/// The key and the value of the entry `k`, where a dictionary stands.
proof fn lemma_entry_stands(ts: Seq<Tok>, p: int, pairs: Seq<Pair>, k: int)
    requires
        stands(ts, p, encode::dict(pairs)),
        0 <= k < pairs.len(),
    ensures
        p + 1 + reach(pairs, k) + 1 < ts.len(),
        ts[p + 1 + reach(pairs, k)] == Tok::Bytes(bencode::word(pairs[k].0)),
        stands(ts, p + 1 + reach(pairs, k) + 1, pairs[k].1),
{
    let rest = lemma_pairs_split(pairs, k + 1);
    lemma_reach(pairs, k);
    let front = encode::pair_tokens(pairs.take(k));
    let word = seq![Tok::Bytes(bencode::word(pairs[k].0))];
    let v = pairs[k].1;
    let tail = rest + seq![Tok::End];
    let a = seq![Tok::Dict] + front;
    assert(encode::dict(pairs) =~= a + word + (v + tail));
    lemma_stands_part(ts, p, a, word, v + tail);
    lemma_stands_at(ts, p + a.len(), word, 0);
    assert(encode::dict(pairs) =~= (a + word) + v + tail);
    lemma_stands_part(ts, p, a + word, v, tail);
}

/// The entries of a dictionary, from `k` on.
pub open spec fn entries_from(p: int, pairs: Seq<Pair>, k: int) -> Seq<(Seq<u8>, int)> {
    Seq::new(
        (pairs.len() - k) as nat,
        |i: int| (bencode::word(pairs[k + i].0), p + 1 + reach(pairs, k + i) + 1),
    )
}

proof fn lemma_entries(ts: Seq<Tok>, p: int, pairs: Seq<Pair>, k: int)
    requires
        stands(ts, p, encode::dict(pairs)),
        are_values(pairs),
        0 <= k <= pairs.len(),
    ensures
        bencode::entries(ts, p + 1 + reach(pairs, k)) == entries_from(p, pairs, k),
        bencode::entries_end(ts, p + 1 + reach(pairs, k)) == p + 1 + reach(
            pairs,
            pairs.len() as int,
        ),
        bencode::ends(ts, p + 1 + reach(pairs, pairs.len() as int)),
    decreases pairs.len() - k,
{
    let q = p + 1 + reach(pairs, k);
    let n = pairs.len() as int;
    assert(pairs.take(n) =~= pairs);
    let close = p + 1 + reach(pairs, n);
    assert(encode::dict(pairs)[1 + reach(pairs, n)] == Tok::End);
    lemma_stands_at(ts, p, encode::dict(pairs), 1 + reach(pairs, n));
    if k == n {
        assert(bencode::entries(ts, q) =~= entries_from(p, pairs, k));
    } else {
        lemma_entry_stands(ts, p, pairs, k);
        lemma_past(ts, q + 1, pairs[k].1);
        lemma_reach(pairs, k);
        lemma_entries(ts, p, pairs, k + 1);
        assert(bencode::entries(ts, q) =~= entries_from(p, pairs, k));
    }
}

/// Keys in order are all different.
proof fn lemma_ordered(pairs: Seq<Pair>, i: int, j: int)
    requires
        encode::in_order(pairs),
        0 <= i < j < pairs.len(),
    ensures
        bytes::before(bencode::word(pairs[i].0), bencode::word(pairs[j].0)),
        bencode::word(pairs[i].0) != bencode::word(pairs[j].0),
    decreases j - i,
{
    assert(bytes::before(bencode::word(pairs[j - 1].0), bencode::word(pairs[j].0)));
    if i < j - 1 {
        lemma_ordered(pairs, i, j - 1);
        bytes::lemma_before_trans(
            bencode::word(pairs[i].0),
            bencode::word(pairs[j - 1].0),
            bencode::word(pairs[j].0),
        );
    }
    bytes::lemma_before_differs(bencode::word(pairs[i].0), bencode::word(pairs[j].0));
}

/// A key that no entry has, has no value.
proof fn lemma_no_value(es: Seq<(Seq<u8>, int)>, key: Seq<u8>)
    requires
        forall|k: int| 0 <= k < es.len() ==> (#[trigger] es[k]).0 != key,
    ensures
        bencode::value_of(es, key) is None,
    decreases es.len(),
{
    if es.len() > 0 {
        assert(es[es.len() - 1].0 != key);
        assert forall|k: int| 0 <= k < es.drop_last().len() implies (
        #[trigger] es.drop_last()[k]).0 != key by {
            assert(es[k].0 != key);
        }
        lemma_no_value(es.drop_last(), key);
    }
}

/// A key that one entry has, has its value.
proof fn lemma_one_value(es: Seq<(Seq<u8>, int)>, key: Seq<u8>, i: int)
    requires
        0 <= i < es.len(),
        es[i].0 == key,
        forall|k: int| i < k < es.len() ==> (#[trigger] es[k]).0 != key,
    ensures
        bencode::value_of(es, key) == Some(es[i].1),
    decreases es.len(),
{
    if i < es.len() - 1 {
        assert(es[es.len() - 1].0 != key);
        assert forall|k: int| i < k < es.drop_last().len() implies (
        #[trigger] es.drop_last()[k]).0 != key by {
            assert(es[k].0 != key);
        }
        lemma_one_value(es.drop_last(), key, i);
    }
}

/// The value of a key that a dictionary has.
proof fn lemma_field(ts: Seq<Tok>, p: int, pairs: Seq<Pair>, i: int)
    requires
        stands(ts, p, encode::dict(pairs)),
        are_values(pairs),
        encode::in_order(pairs),
        0 <= i < pairs.len(),
    ensures
        metainfo::field(ts, p, pairs[i].0) == Some(p + 1 + reach(pairs, i) + 1),
        stands(ts, p + 1 + reach(pairs, i) + 1, pairs[i].1),
{
    assert(pairs.take(0) =~= Seq::<Pair>::empty());
    assert(reach(pairs, 0) == 0);
    lemma_entries(ts, p, pairs, 0);
    lemma_entry_stands(ts, p, pairs, i);
    let es = entries_from(p, pairs, 0);
    let key = bencode::word(pairs[i].0);
    assert forall|k: int| i < k < es.len() implies (#[trigger] es[k]).0 != key by {
        lemma_ordered(pairs, i, k);
    }
    lemma_one_value(es, key, i);
}

/// A key that a dictionary has not has no value.
proof fn lemma_no_field(ts: Seq<Tok>, p: int, pairs: Seq<Pair>, key: Seq<char>)
    requires
        stands(ts, p, encode::dict(pairs)),
        are_values(pairs),
        forall|k: int|
            0 <= k < pairs.len() ==> bencode::word((#[trigger] pairs[k]).0) != bencode::word(key),
    ensures
        metainfo::field(ts, p, key) is None,
{
    assert(pairs.take(0) =~= Seq::<Pair>::empty());
    assert(reach(pairs, 0) == 0);
    lemma_entries(ts, p, pairs, 0);
    let es = entries_from(p, pairs, 0);
    assert forall|k: int| 0 <= k < es.len() implies (#[trigger] es[k]).0 != bencode::word(key) by {
        assert(bencode::word(pairs[k].0) != bencode::word(key));
    }
    lemma_no_value(es, bencode::word(key));
}

proof fn lemma_dict_closes(ts: Seq<Tok>, p: int, pairs: Seq<Pair>, k: int)
    requires
        stands(ts, p, encode::dict(pairs)),
        are_values(pairs),
        0 <= k <= pairs.len(),
    ensures
        closes(ts, p + 1 + reach(pairs, k), 1) == closes(
            ts,
            p + 1 + reach(pairs, pairs.len() as int),
            1,
        ),
    decreases pairs.len() - k,
{
    if k < pairs.len() {
        let q = p + 1 + reach(pairs, k);
        lemma_entry_stands(ts, p, pairs, k);
        lemma_reach(pairs, k);
        lemma_value_through(ts, q + 1, pairs[k].1, 1);
        lemma_dict_closes(ts, p, pairs, k + 1);
    }
}

/// A dictionary of values is a value.
proof fn lemma_dict_is_value(pairs: Seq<Pair>)
    requires
        are_values(pairs),
    ensures
        is_value(encode::dict(pairs)),
{
    let v = encode::dict(pairs);
    let n = pairs.len() as int;
    assert(v.subrange(0, v.len() as int) =~= v);
    assert(pairs.take(n) =~= pairs);
    assert(pairs.take(0) =~= Seq::<Pair>::empty());
    lemma_dict_closes(v, 0, pairs, 0);
    assert(v[1 + reach(pairs, n)] == Tok::End);
    assert(closes(v, v.len() as int, 0));
    assert(closes(v, v.len() - 1, 1));
}

// Lists.

pub open spec fn all_values(parts: Seq<Seq<Tok>>) -> bool {
    forall|k: int| 0 <= k < parts.len() ==> is_value(#[trigger] parts[k])
}

/// How far into a list the item `k` begins.
pub open spec fn item_reach(parts: Seq<Seq<Tok>>, k: int) -> int {
    seqs::concat(parts.take(k)).len() as int
}

proof fn lemma_item_reach(parts: Seq<Seq<Tok>>, k: int)
    requires
        0 <= k < parts.len(),
    ensures
        item_reach(parts, k + 1) == item_reach(parts, k) + parts[k].len(),
{
    assert(parts.take(k + 1).drop_last() =~= parts.take(k));
}

/// The item `k`, where a list stands.
proof fn lemma_item_stands(ts: Seq<Tok>, p: int, parts: Seq<Seq<Tok>>, k: int)
    requires
        stands(ts, p, encode::list(parts)),
        0 <= k < parts.len(),
    ensures
        stands(ts, p + 1 + item_reach(parts, k), parts[k]),
{
    let a = parts.take(k);
    let b = parts.skip(k + 1);
    assert(parts =~= a + seq![parts[k]] + b);
    seqs::lemma_concat_add(a + seq![parts[k]], b);
    seqs::lemma_concat_add(a, seq![parts[k]]);
    seqs::lemma_concat_one(parts[k]);
    let head = seq![Tok::List] + seqs::concat(a);
    let tail = seqs::concat(b) + seq![Tok::End];
    assert(encode::list(parts) =~= head + parts[k] + tail);
    lemma_stands_part(ts, p, head, parts[k], tail);
}

/// Where the items of a list are, from `k` on.
pub open spec fn items_from(p: int, parts: Seq<Seq<Tok>>, k: int) -> Seq<int> {
    Seq::new((parts.len() - k) as nat, |i: int| p + 1 + item_reach(parts, k + i))
}

proof fn lemma_items(ts: Seq<Tok>, p: int, parts: Seq<Seq<Tok>>, k: int)
    requires
        stands(ts, p, encode::list(parts)),
        all_values(parts),
        0 <= k <= parts.len(),
    ensures
        bencode::items(ts, p + 1 + item_reach(parts, k)) == items_from(p, parts, k),
        bencode::ends(ts, p + 1 + item_reach(parts, parts.len() as int)),
    decreases parts.len() - k,
{
    let q = p + 1 + item_reach(parts, k);
    let n = parts.len() as int;
    assert(parts.take(n) =~= parts);
    assert(encode::list(parts)[1 + item_reach(parts, n)] == Tok::End);
    lemma_stands_at(ts, p, encode::list(parts), 1 + item_reach(parts, n));
    if k == n {
        assert(bencode::items(ts, q) =~= items_from(p, parts, k));
    } else {
        lemma_item_stands(ts, p, parts, k);
        lemma_past(ts, q, parts[k]);
        lemma_item_reach(parts, k);
        lemma_items(ts, p, parts, k + 1);
        assert(bencode::items(ts, q) =~= items_from(p, parts, k));
    }
}

proof fn lemma_list_closes(ts: Seq<Tok>, p: int, parts: Seq<Seq<Tok>>, k: int)
    requires
        stands(ts, p, encode::list(parts)),
        all_values(parts),
        0 <= k <= parts.len(),
    ensures
        closes(ts, p + 1 + item_reach(parts, k), 1) == closes(
            ts,
            p + 1 + item_reach(parts, parts.len() as int),
            1,
        ),
    decreases parts.len() - k,
{
    if k < parts.len() {
        let q = p + 1 + item_reach(parts, k);
        lemma_item_stands(ts, p, parts, k);
        lemma_item_reach(parts, k);
        lemma_value_through(ts, q, parts[k], 1);
        lemma_list_closes(ts, p, parts, k + 1);
    }
}

/// A list of values is a value.
proof fn lemma_list_is_value(parts: Seq<Seq<Tok>>)
    requires
        all_values(parts),
    ensures
        is_value(encode::list(parts)),
{
    let v = encode::list(parts);
    let n = parts.len() as int;
    assert(v.subrange(0, v.len() as int) =~= v);
    assert(parts.take(n) =~= parts);
    assert(parts.take(0) =~= Seq::<Seq<Tok>>::empty());
    lemma_list_closes(v, 0, parts, 0);
    assert(v[1 + item_reach(parts, n)] == Tok::End);
    assert(closes(v, v.len() as int, 0));
    assert(closes(v, v.len() - 1, 1));
}

/// The items of a list of strings.
pub open spec fn text_parts(l: Seq<Seq<char>>) -> Seq<Seq<Tok>> {
    l.map_values(|s: Seq<char>| seq![Tok::Bytes(bencode::word(s))])
}

proof fn lemma_texts(l: Seq<Seq<char>>)
    ensures
        bencode::texts(l) == encode::list(text_parts(l)),
        all_values(text_parts(l)),
    decreases l.len(),
{
    lemma_concat_texts(l);
}

proof fn lemma_concat_texts(l: Seq<Seq<char>>)
    ensures
        seqs::concat(text_parts(l)) == l.map_values(|s: Seq<char>| Tok::Bytes(bencode::word(s))),
    decreases l.len(),
{
    if l.len() > 0 {
        lemma_concat_texts(l.drop_last());
        assert(text_parts(l).drop_last() =~= text_parts(l.drop_last()));
        assert(seqs::concat(text_parts(l)) =~= l.map_values(
            |s: Seq<char>| Tok::Bytes(bencode::word(s)),
        ));
    } else {
        assert(seqs::concat(text_parts(l)) =~= l.map_values(
            |s: Seq<char>| Tok::Bytes(bencode::word(s)),
        ));
    }
}

// Tokens that follow each other as they may.

/// A value may come here.
pub open spec fn takes_value(l: Seq<Level>) -> bool {
    l.len() > 0 ==> !(l.last() is Key)
}

/// The tokens may come wherever a value may, if `h` more levels may be opened there.
pub open spec fn fits(v: Seq<Tok>, h: int) -> bool {
    forall|a: Seq<Tok>, l: Seq<Level>|
        #![trigger bencode::levels(a + v), takes_value(l)]
        bencode::levels(a) == Some(l) && takes_value(l) && l.len() + h <= bencode::MAX_DEPTH
            ==> bencode::levels(a + v) == Some(bencode::with_value(l))
}

proof fn lemma_leaf_fits(t: Tok)
    requires
        t is Bytes || (t matches Tok::Num(n) && bencode::is_number(n)),
    ensures
        fits(seq![t], 0),
{
    let v = seq![t];
    assert forall|a: Seq<Tok>, l: Seq<Level>|
        #![trigger bencode::levels(a + v), takes_value(l)]
        bencode::levels(a) == Some(l) && takes_value(l) && l.len() + 0
            <= bencode::MAX_DEPTH implies bencode::levels(a + v) == Some(
        bencode::with_value(l),
    ) by {
        assert((a + v).drop_last() =~= a);
        assert((a + v).last() == t);
    }
}

/// What is open in a list of this kind of items.
proof fn lemma_list_levels(
    a: Seq<Tok>,
    l: Seq<Level>,
    parts: Seq<Seq<Tok>>,
    h: int,
    k: int,
)
    requires
        0 <= h,
        bencode::levels(a) == Some(l),
        takes_value(l),
        l.len() + h + 1 <= bencode::MAX_DEPTH,
        forall|i: int| 0 <= i < parts.len() ==> fits(#[trigger] parts[i], h),
        0 <= k <= parts.len(),
    ensures
        bencode::levels(a + seq![Tok::List] + seqs::concat(parts.take(k))) == Some(
            bencode::with_value(l).push(Level::Items),
        ),
    decreases k,
{
    let open = bencode::with_value(l).push(Level::Items);
    let head = a + seq![Tok::List];
    if k == 0 {
        assert(parts.take(0) =~= Seq::<Seq<Tok>>::empty());
        assert(head + seqs::concat(parts.take(0)) =~= head);
        assert(head.drop_last() =~= a);
    } else {
        lemma_list_levels(a, l, parts, h, k - 1);
        let before = head + seqs::concat(parts.take(k - 1));
        assert(parts.take(k).drop_last() =~= parts.take(k - 1));
        assert(head + seqs::concat(parts.take(k)) =~= before + parts[k - 1]);
        assert(fits(parts[k - 1], h));
        assert(takes_value(open));
        assert(bencode::with_value(open) =~= open);
    }
}

proof fn lemma_list_fits(parts: Seq<Seq<Tok>>, h: int)
    requires
        0 <= h,
        forall|i: int| 0 <= i < parts.len() ==> fits(#[trigger] parts[i], h),
    ensures
        fits(encode::list(parts), h + 1),
{
    let v = encode::list(parts);
    let n = parts.len() as int;
    assert forall|a: Seq<Tok>, l: Seq<Level>|
        #![trigger bencode::levels(a + v), takes_value(l)]
        bencode::levels(a) == Some(l) && takes_value(l) && l.len() + (h + 1)
            <= bencode::MAX_DEPTH implies bencode::levels(a + v) == Some(
        bencode::with_value(l),
    ) by {
        lemma_list_levels(a, l, parts, h, n);
        assert(parts.take(n) =~= parts);
        let before = a + seq![Tok::List] + seqs::concat(parts);
        assert((a + v).drop_last() =~= before);
        assert((a + v).last() == Tok::End);
        let open = bencode::with_value(l).push(Level::Items);
        assert(open.drop_last() =~= bencode::with_value(l));
    }
}

/// The last key of the first `k` entries.
pub open spec fn last_key(pairs: Seq<Pair>, k: int) -> Option<Seq<u8>> {
    if k <= 0 {
        None
    } else {
        Some(bencode::word(pairs[k - 1].0))
    }
}

proof fn lemma_dict_levels(a: Seq<Tok>, l: Seq<Level>, pairs: Seq<Pair>, h: int, k: int)
    requires
        0 <= h,
        bencode::levels(a) == Some(l),
        takes_value(l),
        l.len() + h + 1 <= bencode::MAX_DEPTH,
        encode::in_order(pairs),
        forall|i: int| 0 <= i < pairs.len() ==> fits((#[trigger] pairs[i]).1, h),
        0 <= k <= pairs.len(),
    ensures
        bencode::levels(a + seq![Tok::Dict] + encode::pair_tokens(pairs.take(k))) == Some(
            bencode::with_value(l).push(Level::Key(last_key(pairs, k))),
        ),
    decreases k,
{
    let outer = bencode::with_value(l);
    let head = a + seq![Tok::Dict];
    if k == 0 {
        assert(pairs.take(0) =~= Seq::<Pair>::empty());
        assert(head + encode::pair_tokens(pairs.take(0)) =~= head);
        assert(head.drop_last() =~= a);
    } else {
        lemma_dict_levels(a, l, pairs, h, k - 1);
        lemma_reach(pairs, k - 1);
        let before = head + encode::pair_tokens(pairs.take(k - 1));
        let key = bencode::word(pairs[k - 1].0);
        let word = seq![Tok::Bytes(key)];
        let v = pairs[k - 1].1;
        let open = outer.push(Level::Key(last_key(pairs, k - 1)));
        let at_value = outer.push(Level::Value(key));
        let with_word = before + word;
        assert(with_word.drop_last() =~= before);
        assert(with_word.last() == Tok::Bytes(key));
        assert(open.drop_last() =~= outer);
        if k > 1 {
            assert(bytes::before(bencode::word(pairs[k - 2].0), bencode::word(pairs[k - 1].0)));
        }
        assert(bencode::levels(with_word) == Some(at_value));
        assert(head + encode::pair_tokens(pairs.take(k)) =~= with_word + v);
        assert(fits(pairs[k - 1].1, h));
        assert(takes_value(at_value));
        assert(at_value.drop_last() =~= outer);
        assert(bencode::with_value(at_value) =~= outer.push(Level::Key(Some(key))));
    }
}

proof fn lemma_dict_fits(pairs: Seq<Pair>, h: int)
    requires
        0 <= h,
        encode::in_order(pairs),
        forall|i: int| 0 <= i < pairs.len() ==> fits((#[trigger] pairs[i]).1, h),
    ensures
        fits(encode::dict(pairs), h + 1),
{
    let v = encode::dict(pairs);
    let n = pairs.len() as int;
    assert forall|a: Seq<Tok>, l: Seq<Level>|
        #![trigger bencode::levels(a + v), takes_value(l)]
        bencode::levels(a) == Some(l) && takes_value(l) && l.len() + (h + 1)
            <= bencode::MAX_DEPTH implies bencode::levels(a + v) == Some(
        bencode::with_value(l),
    ) by {
        lemma_dict_levels(a, l, pairs, h, n);
        assert(pairs.take(n) =~= pairs);
        let before = a + seq![Tok::Dict] + encode::pair_tokens(pairs);
        assert((a + v).drop_last() =~= before);
        assert((a + v).last() == Tok::End);
        let open = bencode::with_value(l).push(Level::Key(last_key(pairs, n)));
        assert(open.drop_last() =~= bencode::with_value(l));
    }
}

/// A value on its own is complete.
proof fn lemma_fits_complete(v: Seq<Tok>, h: int)
    requires
        fits(v, h),
        0 <= h <= bencode::MAX_DEPTH,
    ensures
        bencode::complete(v),
{
    let none = Seq::<Tok>::empty();
    let l = Seq::<Level>::empty();
    assert(bencode::levels(none) == Some(l));
    assert(takes_value(l));
    assert(none + v =~= v);
    assert(bencode::levels(none + v) == Some(bencode::with_value(l)));
}

/// What fits less deep fits deeper.
proof fn lemma_fits_more(v: Seq<Tok>, h: int, more: int)
    requires
        fits(v, h),
        h <= more,
    ensures
        fits(v, more),
{
    assert forall|a: Seq<Tok>, l: Seq<Level>|
        #![trigger bencode::levels(a + v), takes_value(l)]
        bencode::levels(a) == Some(l) && takes_value(l) && l.len() + more
            <= bencode::MAX_DEPTH implies bencode::levels(a + v) == Some(
        bencode::with_value(l),
    ) by {}
}

// One spelling, one reading.

/// Where the first of these bytes stands, in bytes before which there is none.
proof fn lemma_first_mark(a: Seq<u8>, b: Seq<u8>, x: Seq<u8>, y: Seq<u8>, mark: u8)
    requires
        !a.contains(mark),
        !b.contains(mark),
        (a.push(mark) + x).is_prefix_of(b.push(mark) + y),
    ensures
        a == b,
        x.is_prefix_of(y),
{
    let left = a.push(mark) + x;
    let right = b.push(mark) + y;
    assert(forall|k: int|
        0 <= k < left.len() ==> #[trigger] left[k] == right.subrange(0, left.len() as int)[k]);
    assert forall|k: int| 0 <= k < left.len() implies #[trigger] left[k] == right[k] by {
        assert(left[k] == right.subrange(0, left.len() as int)[k]);
    }
    if a.len() < b.len() {
        assert(left[a.len() as int] == mark);
        assert(right[a.len() as int] == b[a.len() as int]);
        assert(b.contains(mark));
    } else if b.len() < a.len() {
        assert(left[b.len() as int] == a[b.len() as int]);
        assert(right[b.len() as int] == mark);
        assert(a.contains(mark));
    }
    assert(a =~= b) by {
        assert forall|k: int| 0 <= k < a.len() implies a[k] == b[k] by {
            assert(left[k] == a[k] && right[k] == b[k]);
        }
    }
    assert(x =~= y.subrange(0, x.len() as int)) by {
        assert forall|k: int| 0 <= k < x.len() implies x[k] == y.subrange(0, x.len() as int)[k] by {
            assert(left[a.len() + 1 + k] == x[k]);
            assert(right[a.len() + 1 + k] == y[k]);
        }
    }
}

/// Digits hold no mark that is not a digit.
proof fn lemma_digits_unmarked(s: Seq<char>, mark: u8)
    requires
        text::all_digits(s),
        mark == 58 || mark == 101,
    ensures
        !bencode::word(s).contains(mark),
        bencode::word(s).len() == s.len(),
        forall|k: int|
            0 <= k < s.len() ==> 48 <= #[trigger] bencode::word(s)[k] <= 57,
{
    assert forall|k: int| 0 <= k < s.len() implies '\0' <= #[trigger] s[k] <= '\u{7f}' by {
        assert(text::is_digit(s[k]));
    }
    bencode::lemma_ascii_word(s);
    assert forall|k: int| 0 <= k < s.len() implies 48 <= #[trigger] bencode::word(s)[k] <= 57 by {
        assert(text::is_digit(s[k]));
        assert(bencode::word(s)[k] == s[k] as u8);
    }
}

/// A number as it is written holds no `e`.
proof fn lemma_number_unmarked(n: Seq<char>)
    requires
        bencode::is_number(n),
    ensures
        !bencode::word(n).contains(101u8),
{
    assert forall|k: int| 0 <= k < n.len() implies '\0' <= #[trigger] n[k] <= '\u{7f}' && n[k]
        != 'e' by {
        if n[0] == '-' {
            if k > 0 {
                assert(text::is_digit(n.skip(1)[k - 1]));
            }
        } else {
            assert(text::is_digit(n[k]));
        }
    }
    bencode::lemma_ascii_word(n);
    if bencode::word(n).contains(101u8) {
        let k = choose|k: int| 0 <= k < bencode::word(n).len() && bencode::word(n)[k] == 101u8;
        let c = n[k];
        assert(bencode::word(n)[k] == c as u8);
        assert(c as u8 == 101u8 && c <= '\u{7f}');
        assert(c == 'e');
    }
}

/// A token, as it may stand in a file.
pub open spec fn is_token(t: Tok) -> bool {
    t matches Tok::Num(n) ==> bencode::is_number(n)
}

/// The first byte tells what kind of token it is.
proof fn lemma_first_byte(t: Tok)
    ensures
        bencode::spell(t).len() > 0,
        match t {
            Tok::List => bencode::spell(t)[0] == 108,
            Tok::Dict => bencode::spell(t)[0] == 100,
            Tok::End => bencode::spell(t)[0] == 101,
            Tok::Num(_) => bencode::spell(t)[0] == 105,
            Tok::Bytes(_) => 48 <= bencode::spell(t)[0] <= 57,
        },
{
    if t is Bytes {
        let d = text::decimal(t->Bytes_0.len());
        text::lemma_decimal(t->Bytes_0.len());
        lemma_digits_unmarked(d, 58);
        assert(bencode::spell(t)[0] == bencode::word(d)[0]);
    }
}

/// A token is told from the bytes that it begins.
proof fn lemma_token_told(s: Tok, t: Tok, x: Seq<u8>, y: Seq<u8>)
    requires
        is_token(s),
        is_token(t),
        (bencode::spell(s) + x).is_prefix_of(bencode::spell(t) + y),
    ensures
        s == t,
        x.is_prefix_of(y),
{
    let left = bencode::spell(s) + x;
    let right = bencode::spell(t) + y;
    lemma_first_byte(s);
    lemma_first_byte(t);
    assert(left[0] == right.subrange(0, left.len() as int)[0]);
    assert(bencode::spell(s)[0] == bencode::spell(t)[0]);
    match s {
        Tok::Num(m) => {
            let n = t->Num_0;
            let (a, b) = (bencode::word(m), bencode::word(n));
            lemma_number_unmarked(m);
            lemma_number_unmarked(n);
            lemma_drop_first(105u8, a.push(101u8) + x, b.push(101u8) + y, left, right);
            lemma_first_mark(a, b, x, y, 101u8);
            bencode::lemma_word(m, n);
        },
        Tok::Bytes(m) => {
            let n = t->Bytes_0;
            let (c, d) = (text::decimal(m.len()), text::decimal(n.len()));
            text::lemma_decimal(m.len());
            text::lemma_decimal(n.len());
            lemma_digits_unmarked(c, 58);
            lemma_digits_unmarked(d, 58);
            let (a, b) = (bencode::word(c), bencode::word(d));
            assert(left =~= a.push(58u8) + (m + x));
            assert(right =~= b.push(58u8) + (n + y));
            lemma_first_mark(a, b, m + x, n + y, 58u8);
            bencode::lemma_word(c, d);
            assert(m.len() == n.len());
            lemma_same_head(m, n, x, y);
        },
        _ => {
            lemma_same_head(bencode::spell(s), bencode::spell(t), x, y);
        },
    }
}

proof fn lemma_drop_first(c: u8, x: Seq<u8>, y: Seq<u8>, left: Seq<u8>, right: Seq<u8>)
    requires
        left.is_prefix_of(right),
        left =~= seq![c] + x,
        right =~= seq![c] + y,
    ensures
        x.is_prefix_of(y),
{
    assert(x =~= y.subrange(0, x.len() as int)) by {
        assert forall|k: int| 0 <= k < x.len() implies x[k] == y.subrange(0, x.len() as int)[k] by {
            assert(left[k + 1] == right.subrange(0, left.len() as int)[k + 1]);
        }
    }
}

proof fn lemma_same_head(m: Seq<u8>, n: Seq<u8>, x: Seq<u8>, y: Seq<u8>)
    requires
        m.len() == n.len(),
        (m + x).is_prefix_of(n + y),
    ensures
        m == n,
        x.is_prefix_of(y),
{
    let left = m + x;
    let right = n + y;
    assert forall|k: int| 0 <= k < left.len() implies #[trigger] left[k] == right[k] by {
        assert(left[k] == right.subrange(0, left.len() as int)[k]);
    }
    assert(m =~= n) by {
        assert forall|k: int| 0 <= k < m.len() implies m[k] == n[k] by {
            assert(left[k] == m[k] && right[k] == n[k]);
        }
    }
    assert(x =~= y.subrange(0, x.len() as int)) by {
        assert forall|k: int| 0 <= k < x.len() implies x[k] == y.subrange(0, x.len() as int)[k] by {
            assert(left[m.len() + k] == x[k]);
            assert(right[m.len() + k] == y[k]);
        }
    }
}

/// Tokens are told from the bytes that they begin.
proof fn lemma_tokens_told(a: Seq<Tok>, b: Seq<Tok>)
    requires
        forall|i: int| 0 <= i < a.len() ==> is_token(#[trigger] a[i]),
        forall|i: int| 0 <= i < b.len() ==> is_token(#[trigger] b[i]),
        bencode::spelled(a).is_prefix_of(bencode::spelled(b)),
    ensures
        a.is_prefix_of(b),
    decreases a.len(),
{
    if a.len() == 0 {
        assert(a =~= b.subrange(0, 0));
    } else {
        let (s, x) = (a[0], a.drop_first());
        assert(a =~= seq![s] + x);
        bencode::lemma_spelled_add(seq![s], x);
        encode::lemma_spelled_one(s);
        lemma_first_byte(s);
        assert(b.len() > 0) by {
            if b.len() == 0 {
                assert(bencode::spelled(b).len() == 0);
            }
        }
        let (t, y) = (b[0], b.drop_first());
        assert(b =~= seq![t] + y);
        bencode::lemma_spelled_add(seq![t], y);
        encode::lemma_spelled_one(t);
        lemma_token_told(s, t, bencode::spelled(x), bencode::spelled(y));
        assert forall|i: int| 0 <= i < x.len() implies is_token(#[trigger] x[i]) by {
            assert(is_token(a[i + 1]));
        }
        assert forall|i: int| 0 <= i < y.len() implies is_token(#[trigger] y[i]) by {
            assert(is_token(b[i + 1]));
        }
        lemma_tokens_told(x, y);
        assert(a =~= b.subrange(0, a.len() as int)) by {
            assert forall|k: int| 0 <= k < a.len() implies a[k] == b.subrange(
                0,
                a.len() as int,
            )[k] by {
                if k > 0 {
                    assert(x[k - 1] == y.subrange(0, x.len() as int)[k - 1]);
                }
            }
        }
    }
}

/// What is spelled is read: tokens that follow each other as they may are the reading of
/// their own spelling.
pub proof fn law_spelling_reads_back(ts: Seq<Tok>)
    requires
        bencode::structured(ts),
    ensures
        bencode::reading(bencode::spelled(ts)) == ts,
{
    let data = bencode::spelled(ts);
    bencode::lemma_numbers(ts);
    assert(data =~= data.subrange(0, data.len() as int));
    assert forall|other: Seq<Tok>| #[trigger]
        bencode::structured(other) && bencode::spelled(other).is_prefix_of(
            data,
        ) implies other.is_prefix_of(ts) by {
        bencode::lemma_numbers(other);
        assert forall|i: int| 0 <= i < other.len() implies is_token(#[trigger] other[i]) by {}
        assert forall|i: int| 0 <= i < ts.len() implies is_token(#[trigger] ts[i]) by {}
        lemma_tokens_told(other, ts);
    }
    bencode::lemma_reading(data, ts);
}

// Reading what was written.

/// Text that was written is read back.
proof fn lemma_text_back(s: Seq<char>)
    ensures
        text::lossy_text(bencode::word(s)) == s,
{
    vstd::utf8::encode_utf8_valid_utf8(s);
    vstd::utf8::encode_utf8_decode_utf8(s);
}

/// A number that was written is read back.
proof fn lemma_number_back(n: int)
    ensures
        bencode::is_number(text::signed_decimal(n)),
        bencode::number_value(text::signed_decimal(n)) == n,
{
    let s = text::signed_decimal(n);
    if n < 0 {
        let d = text::decimal((-n) as nat);
        text::lemma_decimal((-n) as nat);
        assert(s =~= seq!['-'] + d);
        assert(s.skip(1) =~= d);
    } else {
        text::lemma_decimal(n as nat);
        assert(text::is_digit(s[0]));
        if n == 0 {
            assert(s =~= seq![text::digit_char(0)]);
        }
    }
}

proof fn lemma_strings_faultless(ts: Seq<Tok>, cut: Seq<char>, p: int, l: Seq<Seq<char>>, k: int)
    requires
        stands(ts, p, bencode::texts(l)),
        0 <= k <= l.len(),
    ensures
        values::texts_fault(ts, cut, p + 1 + item_reach(text_parts(l), k)) is None,
    decreases l.len() - k,
{
    let parts = text_parts(l);
    lemma_texts(l);
    lemma_items(ts, p, parts, k);
    if k < l.len() {
        lemma_item_stands(ts, p, parts, k);
        lemma_past(ts, p + 1 + item_reach(parts, k), parts[k]);
        lemma_item_reach(parts, k);
        lemma_strings_faultless(ts, cut, p, l, k + 1);
    }
}

/// A list of strings that was written is read back.
proof fn lemma_strings_back(ts: Seq<Tok>, cut: Seq<char>, p: int, l: Seq<Seq<char>>)
    requires
        stands(ts, p, bencode::texts(l)),
    ensures
        values::strings_fault(ts, cut, p) is None,
        values::strings_at(ts, p) == l,
{
    let parts = text_parts(l);
    lemma_texts(l);
    lemma_stands_at(ts, p, bencode::texts(l), 0);
    assert(parts.take(0) =~= Seq::<Seq<Tok>>::empty());
    lemma_strings_faultless(ts, cut, p, l, 0);
    lemma_items(ts, p, parts, 0);
    assert(values::strings_at(ts, p) =~= l) by {
        assert forall|k: int| 0 <= k < l.len() implies values::strings_at(ts, p)[k] == l[k] by {
            lemma_item_stands(ts, p, parts, k);
            lemma_stands_at(ts, p + 1 + item_reach(parts, k), parts[k], 0);
            lemma_text_back(l[k]);
        }
    }
}

/// The items of a list of tiers.
pub open spec fn tier_parts(tiers: Seq<Seq<Seq<char>>>) -> Seq<Seq<Tok>> {
    tiers.map_values(|t: Seq<Seq<char>>| bencode::texts(t))
}

proof fn lemma_tier_values(tiers: Seq<Seq<Seq<char>>>)
    ensures
        all_values(tier_parts(tiers)),
        encode::tiers_list(tiers) == encode::list(tier_parts(tiers)),
{
    assert forall|k: int| 0 <= k < tiers.len() implies is_value(
        #[trigger] tier_parts(tiers)[k],
    ) by {
        lemma_texts(tiers[k]);
        lemma_list_is_value(text_parts(tiers[k]));
    }
}

proof fn lemma_tiers_faultless(
    ts: Seq<Tok>,
    cut: Seq<char>,
    p: int,
    tiers: Seq<Seq<Seq<char>>>,
    k: int,
)
    requires
        stands(ts, p, encode::tiers_list(tiers)),
        0 <= k <= tiers.len(),
    ensures
        values::lists_fault(ts, cut, p + 1 + item_reach(tier_parts(tiers), k)) is None,
    decreases tiers.len() - k,
{
    let parts = tier_parts(tiers);
    lemma_tier_values(tiers);
    lemma_items(ts, p, parts, k);
    if k < tiers.len() {
        let q = p + 1 + item_reach(parts, k);
        lemma_item_stands(ts, p, parts, k);
        lemma_strings_back(ts, cut, q, tiers[k]);
        lemma_past(ts, q, parts[k]);
        lemma_item_reach(parts, k);
        lemma_tiers_faultless(ts, cut, p, tiers, k + 1);
    }
}

proof fn lemma_tiers_back(ts: Seq<Tok>, cut: Seq<char>, p: int, tiers: Seq<Seq<Seq<char>>>)
    requires
        stands(ts, p, encode::tiers_list(tiers)),
    ensures
        values::tiers_fault(ts, cut, p) is None,
        values::lists_at(ts, p) == tiers,
{
    let parts = tier_parts(tiers);
    lemma_tier_values(tiers);
    lemma_stands_at(ts, p, encode::tiers_list(tiers), 0);
    assert(parts.take(0) =~= Seq::<Seq<Tok>>::empty());
    lemma_tiers_faultless(ts, cut, p, tiers, 0);
    lemma_items(ts, p, parts, 0);
    assert(values::lists_at(ts, p) =~= tiers) by {
        assert forall|k: int| 0 <= k < tiers.len() implies values::lists_at(ts, p)[k]
            == tiers[k] by {
            lemma_item_stands(ts, p, parts, k);
            lemma_strings_back(ts, cut, p + 1 + item_reach(parts, k), tiers[k]);
        }
    }
}

// Entries that are there or not.

/// The value of an entry that a dictionary has.
proof fn lemma_field_of(ts: Seq<Tok>, p: int, pairs: Seq<Pair>, pair: Pair)
    requires
        stands(ts, p, encode::dict(pairs)),
        are_values(pairs),
        encode::in_order(pairs),
        pairs.contains(pair),
    ensures
        metainfo::field(ts, p, pair.0) is Some,
        stands(ts, metainfo::field(ts, p, pair.0)->0, pair.1),
{
    let i = choose|i: int| 0 <= i < pairs.len() && pairs[i] == pair;
    lemma_field(ts, p, pairs, i);
}

/// No entry has this key.
pub open spec fn lacks(pairs: Seq<Pair>, key: Seq<char>) -> bool {
    forall|k: int|
        0 <= k < pairs.len() ==> bencode::word((#[trigger] pairs[k]).0) != bencode::word(key)
}

/// The entries are values, in order, and fit.
pub open spec fn sound(pairs: Seq<Pair>, h: int) -> bool {
    &&& are_values(pairs)
    &&& encode::in_order(pairs)
    &&& forall|k: int| 0 <= k < pairs.len() ==> fits((#[trigger] pairs[k]).1, h)
}

proof fn lemma_sound_push(pairs: Seq<Pair>, pair: Pair, h: int)
    requires
        sound(pairs, h),
        is_value(pair.1),
        fits(pair.1, h),
        pairs.len() > 0 ==> bytes::before(
            bencode::word(pairs.last().0),
            bencode::word(pair.0),
        ),
    ensures
        sound(pairs.push(pair), h),
{
    let now = pairs.push(pair);
    assert forall|k: int| 0 <= k < now.len() implies is_value((#[trigger] now[k]).1) && fits(
        now[k].1,
        h,
    ) by {
        if k < pairs.len() {
            assert(now[k] == pairs[k]);
        }
    }
    assert forall|i: int| 0 < i < now.len() implies bytes::before(
        bencode::word(now[i - 1].0),
        bencode::word((#[trigger] now[i]).0),
    ) by {
        if i < pairs.len() {
            assert(now[i] == pairs[i] && now[i - 1] == pairs[i - 1]);
        }
    }
}

proof fn lemma_text_pair(key: Seq<char>, value: Seq<char>, h: int)
    requires
        0 <= h,
    ensures
        is_value(encode::text_pair(key, value).1),
        fits(encode::text_pair(key, value).1, h),
{
    lemma_leaf(Tok::Bytes(bencode::word(value)), h);
}

proof fn lemma_number_pair(key: Seq<char>, value: int, h: int)
    requires
        0 <= h,
    ensures
        is_value(encode::number_pair(key, value).1),
        fits(encode::number_pair(key, value).1, h),
{
    lemma_number_back(value);
    lemma_leaf(Tok::Num(text::signed_decimal(value)), h);
}

proof fn lemma_leaf(t: Tok, h: int)
    requires
        0 <= h,
        t is Bytes || (t matches Tok::Num(n) && bencode::is_number(n)),
    ensures
        is_value(seq![t]),
        fits(seq![t], h),
{
    let v = seq![t];
    assert(closes(v, 1, 0));
    lemma_leaf_fits(t);
    lemma_fits_more(v, 0, h);
}

proof fn lemma_texts_pair(l: Seq<Seq<char>>, h: int)
    requires
        1 <= h,
    ensures
        is_value(bencode::texts(l)),
        fits(bencode::texts(l), h),
{
    let parts = text_parts(l);
    lemma_texts(l);
    lemma_list_is_value(parts);
    assert forall|i: int| 0 <= i < parts.len() implies fits(#[trigger] parts[i], 0) by {
        lemma_leaf(Tok::Bytes(bencode::word(l[i])), 0);
    }
    lemma_list_fits(parts, 0);
    lemma_fits_more(bencode::texts(l), 1, h);
}

// Files.

proof fn lemma_file_pairs(f: TorrentFile)
    ensures
        sound(encode::file_pairs(f), 1),
        is_value(encode::dict(encode::file_pairs(f))),
        fits(encode::dict(encode::file_pairs(f)), 2),
{
    let none = Seq::<Pair>::empty();
    let attr = encode::text_pair("attr"@, "p"@);
    let length = encode::number_pair("length"@, f.length as int);
    let path = ("path"@, bencode::texts(text::views(f.path@)));
    encode::lemma_file_order();
    lemma_text_pair("attr"@, "p"@, 1);
    lemma_number_pair("length"@, f.length as int, 1);
    lemma_texts_pair(text::views(f.path@), 1);
    assert(sound(none, 1));
    let a = encode::with(none, f.is_pad, attr);
    if f.is_pad {
        lemma_sound_push(none, attr, 1);
    }
    lemma_sound_push(a, length, 1);
    lemma_sound_push(a.push(length), path, 1);
    lemma_dict_is_value(encode::file_pairs(f));
    lemma_dict_fits(encode::file_pairs(f), 1);
}

#[verifier::rlimit(40)]
#[verifier::spinoff_prover]
proof fn lemma_file_entries_faultless(
    ts: Seq<Tok>,
    cut: Seq<char>,
    p: int,
    pairs: Seq<Pair>,
    k: int,
)
    requires
        stands(ts, p, encode::dict(pairs)),
        are_values(pairs),
        0 <= k <= pairs.len(),
        forall|i: int|
            0 <= i < pairs.len() ==> metainfo::file_entry_fault(
                ts,
                cut,
                bencode::word((#[trigger] pairs[i]).0),
                p + 1 + reach(pairs, i) + 1,
            ) is None,
    ensures
        metainfo::file_entries_fault(ts, cut, p + 1 + reach(pairs, k)) is None,
    decreases pairs.len() - k,
{
    lemma_entries(ts, p, pairs, k);
    if k < pairs.len() {
        let q = p + 1 + reach(pairs, k);
        lemma_entry_stands(ts, p, pairs, k);
        lemma_past(ts, q + 1, pairs[k].1);
        lemma_reach(pairs, k);
        assert(metainfo::file_entry_fault(ts, cut, bencode::word(pairs[k].0), q + 1) is None);
        lemma_file_entries_faultless(ts, cut, p, pairs, k + 1);
    }
}

/// What is read of a file is what was written of it.
pub open spec fn same_file(read: TorrentFile, f: TorrentFile) -> bool {
    &&& text::views(read.path@) == text::views(f.path@)
    &&& read.length == f.length
    &&& read.is_pad == (f.is_pad || metainfo::named_like_padding(text::views(f.path@)))
}

proof fn lemma_file_back(ts: Seq<Tok>, cut: Seq<char>, p: int, f: TorrentFile)
    requires
        stands(ts, p, encode::dict(encode::file_pairs(f))),
        f.length <= i64::MAX,
        f.path@.len() > 0,
        values::components_fault(text::views(f.path@)) is None,
    ensures
        metainfo::file_fault(ts, cut, p) is None,
        metainfo::file_length(ts, p) == f.length,
        forall|read: TorrentFile| #[trigger]
            metainfo::is_file(read, ts, p) ==> same_file(read, f),
{
    let pairs = encode::file_pairs(f);
    let none = Seq::<Pair>::empty();
    let attr = encode::text_pair("attr"@, "p"@);
    let length = encode::number_pair("length"@, f.length as int);
    let path = ("path"@, bencode::texts(text::views(f.path@)));
    let a = encode::with(none, f.is_pad, attr);
    lemma_file_pairs(f);
    metainfo::lemma_file_keys();
    lemma_number_back(f.length as int);
    assert(pairs == a.push(length).push(path));
    assert(pairs[a.len() as int] == length && pairs[a.len() as int + 1] == path);
    assert(pairs.contains(length));
    assert(pairs.contains(path));
    lemma_field_of(ts, p, pairs, length);
    lemma_field_of(ts, p, pairs, path);
    let at_length = metainfo::field(ts, p, "length"@)->0;
    let at_path = metainfo::field(ts, p, "path"@)->0;
    lemma_stands_at(ts, at_length, length.1, 0);
    lemma_strings_back(ts, cut, at_path, text::views(f.path@));
    if f.is_pad {
        assert(pairs[0] == attr);
        assert(pairs.contains(attr));
        lemma_field_of(ts, p, pairs, attr);
        let at_attr = metainfo::field(ts, p, "attr"@)->0;
        lemma_stands_at(ts, at_attr, attr.1, 0);
        reveal_strlit("p");
        bencode::lemma_ascii_word("p"@);
        assert(bencode::word("p"@)[0] == 112u8);
        assert(metainfo::marked_as_padding(ts, p));
    } else {
        assert(a =~= none);
        assert forall|k: int| 0 <= k < pairs.len() implies bencode::word((#[trigger] pairs[k]).0)
            != bencode::word("attr"@) by {
            assert(pairs[k] == length || pairs[k] == path);
        }
        lemma_no_field(ts, p, pairs, "attr"@);
    }
    lemma_stands_at(ts, p, encode::dict(pairs), 0);
    assert forall|i: int| 0 <= i < pairs.len() implies metainfo::file_entry_fault(
        ts,
        cut,
        bencode::word((#[trigger] pairs[i]).0),
        p + 1 + reach(pairs, i) + 1,
    ) is None by {
        let q = p + 1 + reach(pairs, i) + 1;
        lemma_entry_stands(ts, p, pairs, i);
        lemma_stands_at(ts, q, pairs[i].1, 0);
        assert(pairs[i] == attr || pairs[i] == length || pairs[i] == path);
        if pairs[i] == path {
            lemma_strings_back(ts, cut, q, text::views(f.path@));
        }
    }
    assert(pairs.take(0) =~= none);
    assert(reach(pairs, 0) == 0);
    lemma_file_entries_faultless(ts, cut, p, pairs, 0);
}

/// The items of a list of files.
pub open spec fn file_parts(files: Seq<TorrentFile>) -> Seq<Seq<Tok>> {
    files.map_values(|f: TorrentFile| encode::dict(encode::file_pairs(f)))
}

/// Each of these files can be read.
pub open spec fn readable(files: Seq<TorrentFile>) -> bool {
    forall|k: int|
        0 <= k < files.len() ==> {
            let f = #[trigger] files[k];
            &&& f.length <= i64::MAX
            &&& f.path@.len() > 0
            &&& values::components_fault(text::views(f.path@)) is None
        }
}

proof fn lemma_readable(files: Seq<TorrentFile>, k: int)
    requires
        0 <= k,
        encode::path_objection(files, k) is None,
        encode::file_objection(files, k) is None,
    ensures
        forall|i: int|
            k <= i < files.len() ==> {
                let f = #[trigger] files[i];
                &&& f.length <= i64::MAX
                &&& f.path@.len() > 0
                &&& values::components_fault(text::views(f.path@)) is None
            },
    decreases files.len() - k,
{
    if k < files.len() {
        lemma_readable(files, k + 1);
    }
}

proof fn lemma_file_parts(files: Seq<TorrentFile>)
    ensures
        all_values(file_parts(files)),
        encode::files_list(files) == encode::list(file_parts(files)),
        is_value(encode::files_list(files)),
        fits(encode::files_list(files), 3),
{
    let parts = file_parts(files);
    assert forall|k: int| 0 <= k < parts.len() implies is_value(#[trigger] parts[k]) && fits(
        parts[k],
        2,
    ) by {
        lemma_file_pairs(files[k]);
    }
    lemma_list_is_value(parts);
    lemma_list_fits(parts, 2);
}

proof fn lemma_files_faultless(
    ts: Seq<Tok>,
    cut: Seq<char>,
    p: int,
    files: Seq<TorrentFile>,
    k: int,
)
    requires
        stands(ts, p, encode::files_list(files)),
        readable(files),
        0 <= k <= files.len(),
    ensures
        metainfo::files_from_fault(ts, cut, p + 1 + item_reach(file_parts(files), k)) is None,
    decreases files.len() - k,
{
    let parts = file_parts(files);
    lemma_file_parts(files);
    lemma_items(ts, p, parts, k);
    if k < files.len() {
        let q = p + 1 + item_reach(parts, k);
        lemma_item_stands(ts, p, parts, k);
        lemma_file_back(ts, cut, q, files[k]);
        lemma_past(ts, q, parts[k]);
        lemma_item_reach(parts, k);
        lemma_files_faultless(ts, cut, p, files, k + 1);
    }
}

/// What is read of files is what was written of them.
pub open spec fn same_files(read: Seq<TorrentFile>, files: Seq<TorrentFile>) -> bool {
    &&& read.len() == files.len()
    &&& forall|k: int| 0 <= k < files.len() ==> same_file(#[trigger] read[k], files[k])
}

proof fn lemma_total_back(ts: Seq<Tok>, at: Seq<int>, files: Seq<TorrentFile>)
    requires
        at.len() == files.len(),
        forall|k: int|
            0 <= k < at.len() ==> metainfo::file_length(ts, #[trigger] at[k]) == files[k].length,
    ensures
        metainfo::total_at(ts, at) == encode::sum(files),
    decreases at.len(),
{
    if at.len() > 0 {
        let (a, f) = (at.drop_last(), files.drop_last());
        assert forall|k: int| 0 <= k < a.len() implies metainfo::file_length(ts, #[trigger] a[k])
            == f[k].length by {
            assert(metainfo::file_length(ts, at[k]) == files[k].length);
        }
        lemma_total_back(ts, a, f);
        assert(metainfo::file_length(ts, at[at.len() - 1]) == files.last().length);
    }
}

proof fn lemma_files_back(ts: Seq<Tok>, cut: Seq<char>, p: int, files: Seq<TorrentFile>)
    requires
        stands(ts, p, encode::files_list(files)),
        readable(files),
    ensures
        metainfo::files_fault(ts, cut, p) is None,
        metainfo::total_at(ts, bencode::items(ts, p + 1)) == encode::sum(files),
        forall|read: Seq<TorrentFile>| #[trigger]
            metainfo::are_files(read, ts, bencode::items(ts, p + 1)) ==> same_files(read, files),
{
    let parts = file_parts(files);
    lemma_file_parts(files);
    lemma_stands_at(ts, p, encode::files_list(files), 0);
    assert(parts.take(0) =~= Seq::<Seq<Tok>>::empty());
    lemma_files_faultless(ts, cut, p, files, 0);
    lemma_items(ts, p, parts, 0);
    let at = bencode::items(ts, p + 1);
    assert forall|k: int| 0 <= k < files.len() implies metainfo::file_length(
        ts,
        #[trigger] at[k],
    ) == files[k].length && (forall|read: TorrentFile| #[trigger]
        metainfo::is_file(read, ts, at[k]) ==> same_file(read, files[k])) by {
        lemma_item_stands(ts, p, parts, k);
        lemma_file_back(ts, cut, p + 1 + item_reach(parts, k), files[k]);
    }
    lemma_total_back(ts, at, files);
    assert forall|read: Seq<TorrentFile>| #[trigger]
        metainfo::are_files(read, ts, at) implies same_files(read, files) by {
        assert forall|k: int| 0 <= k < files.len() implies same_file(
            #[trigger] read[k],
            files[k],
        ) by {
            assert(metainfo::is_file(read[k], ts, at[k]));
        }
    }
}

// The info dictionary.

proof fn lemma_flat(pieces: Seq<[u8; 20]>)
    ensures
        encode::flat(pieces).len() == 20 * pieces.len(),
        forall|k: int|
            0 <= k < pieces.len() ==> encode::flat(pieces).subrange(20 * k, 20 * k + 20)
                == (#[trigger] pieces[k])@,
    decreases pieces.len(),
{
    if pieces.len() > 0 {
        let front = pieces.drop_last();
        lemma_flat(front);
        let all = encode::flat(pieces);
        assert(pieces.last()@.len() == 20);
        assert forall|k: int| 0 <= k < pieces.len() implies all.subrange(20 * k, 20 * k + 20)
            == (#[trigger] pieces[k])@ by {
            if k < front.len() {
                assert(front[k] == pieces[k]);
                assert(all.subrange(20 * k, 20 * k + 20) =~= encode::flat(front).subrange(
                    20 * k,
                    20 * k + 20,
                ));
            } else {
                assert(all.subrange(20 * k, 20 * k + 20) =~= pieces[k]@);
            }
        }
    }
}

/// The entries of the info dictionary that are always there.
pub open spec fn first_info_pairs(d: Draft) -> Seq<Pair> {
    seq![
        encode::content_pair(d.content),
        encode::text_pair("name"@, d.name@),
        encode::number_pair("piece length"@, d.piece_length as int),
        ("pieces"@, seq![Tok::Bytes(encode::flat(d.pieces@))]),
    ]
}

proof fn lemma_info_pairs(d: Draft)
    ensures
        sound(encode::info_pairs(d), 3),
        is_value(encode::dict(encode::info_pairs(d))),
        fits(encode::dict(encode::info_pairs(d)), 4),
{
    let none = Seq::<Pair>::empty();
    let content = encode::content_pair(d.content);
    let name = encode::text_pair("name"@, d.name@);
    let piece_length = encode::number_pair("piece length"@, d.piece_length as int);
    let pieces = ("pieces"@, seq![Tok::Bytes(encode::flat(d.pieces@))]);
    let private = encode::number_pair("private"@, 1);
    let source = encode::text_pair("source"@, d.source->0@);
    encode::lemma_info_order();
    match d.content {
        Content::Single { length } => {
            lemma_number_pair("length"@, length as int, 3);
        },
        Content::Multi { files } => {
            lemma_file_parts(files@);
        },
    }
    lemma_text_pair("name"@, d.name@, 3);
    lemma_number_pair("piece length"@, d.piece_length as int, 3);
    lemma_leaf(Tok::Bytes(encode::flat(d.pieces@)), 3);
    lemma_number_pair("private"@, 1, 3);
    lemma_text_pair("source"@, d.source->0@, 3);
    assert(sound(none, 3));
    lemma_sound_push(none, content, 3);
    let a = none.push(content);
    lemma_sound_push(a, name, 3);
    let b = a.push(name);
    lemma_sound_push(b, piece_length, 3);
    let c = b.push(piece_length);
    lemma_sound_push(c, pieces, 3);
    let e = c.push(pieces);
    assert(e =~= first_info_pairs(d));
    let f = encode::with(e, d.private, private);
    if d.private {
        lemma_sound_push(e, private, 3);
    }
    if d.source is Some {
        lemma_sound_push(f, source, 3);
    }
    assert(encode::info_pairs(d) == encode::with(f, d.source is Some, source));
    lemma_dict_is_value(encode::info_pairs(d));
    lemma_dict_fits(encode::info_pairs(d), 3);
}

/// Which entries the info dictionary has.
proof fn lemma_info_pairs_are(d: Draft)
    ensures
        encode::info_pairs(d).contains(encode::content_pair(d.content)),
        encode::info_pairs(d).contains(encode::text_pair("name"@, d.name@)),
        encode::info_pairs(d).contains(
            encode::number_pair("piece length"@, d.piece_length as int),
        ),
        encode::info_pairs(d).contains(("pieces"@, seq![Tok::Bytes(encode::flat(d.pieces@))])),
        d.private ==> encode::info_pairs(d).contains(encode::number_pair("private"@, 1)),
        d.source is Some ==> encode::info_pairs(d).contains(
            encode::text_pair("source"@, d.source->0@),
        ),
        forall|k: int|
            0 <= k < encode::info_pairs(d).len() ==> {
                let pair = #[trigger] encode::info_pairs(d)[k];
                ||| pair == encode::content_pair(d.content)
                ||| pair == encode::text_pair("name"@, d.name@)
                ||| pair == encode::number_pair("piece length"@, d.piece_length as int)
                ||| pair == ("pieces"@, seq![Tok::Bytes(encode::flat(d.pieces@))])
                ||| d.private && pair == encode::number_pair("private"@, 1)
                ||| d.source is Some && pair == encode::text_pair("source"@, d.source->0@)
            },
{
    let pairs = encode::info_pairs(d);
    let e = first_info_pairs(d);
    let private = encode::number_pair("private"@, 1);
    let source = encode::text_pair("source"@, d.source->0@);
    let f = encode::with(e, d.private, private);
    assert(pairs == encode::with(f, d.source is Some, source));
    assert(forall|k: int| 0 <= k < e.len() ==> f[k] == e[k]);
    assert(forall|k: int| 0 <= k < f.len() ==> pairs[k] == f[k]);
    assert(pairs[0] == e[0] && pairs[1] == e[1] && pairs[2] == e[2] && pairs[3] == e[3]);
    if d.private {
        assert(f[4] == private);
        assert(pairs[4] == private);
    }
    if d.source is Some {
        assert(pairs[f.len() as int] == source);
    }
    assert forall|k: int| 0 <= k < pairs.len() implies {
        let pair = #[trigger] pairs[k];
        ||| pair == encode::content_pair(d.content)
        ||| pair == encode::text_pair("name"@, d.name@)
        ||| pair == encode::number_pair("piece length"@, d.piece_length as int)
        ||| pair == ("pieces"@, seq![Tok::Bytes(encode::flat(d.pieces@))])
        ||| d.private && pair == encode::number_pair("private"@, 1)
        ||| d.source is Some && pair == encode::text_pair("source"@, d.source->0@)
    } by {
        if k < 4 {
            assert(pairs[k] == e[k]);
        }
    }
}

#[verifier::rlimit(40)]
#[verifier::spinoff_prover]
proof fn lemma_info_entries_faultless(
    ts: Seq<Tok>,
    cut: Seq<char>,
    p: int,
    pairs: Seq<Pair>,
    k: int,
)
    requires
        stands(ts, p, encode::dict(pairs)),
        are_values(pairs),
        0 <= k <= pairs.len(),
        forall|i: int|
            0 <= i < pairs.len() ==> metainfo::info_entry_fault(
                ts,
                cut,
                bencode::word((#[trigger] pairs[i]).0),
                p + 1 + reach(pairs, i) + 1,
            ) is None,
    ensures
        metainfo::info_entries_fault(ts, cut, p + 1 + reach(pairs, k)) is None,
    decreases pairs.len() - k,
{
    lemma_entries(ts, p, pairs, k);
    if k < pairs.len() {
        let q = p + 1 + reach(pairs, k);
        lemma_entry_stands(ts, p, pairs, k);
        lemma_past(ts, q + 1, pairs[k].1);
        lemma_reach(pairs, k);
        assert(metainfo::info_entry_fault(ts, cut, bencode::word(pairs[k].0), q + 1) is None);
        lemma_info_entries_faultless(ts, cut, p, pairs, k + 1);
    }
}

/// What is read of an info dictionary is what was written of it.
pub open spec fn same_info(q: InfoParts, d: Draft) -> bool {
    &&& q.info_hash@ == digest::sha1_digest(bencode::spelled(encode::dict(encode::info_pairs(d))))
    &&& q.name@ == d.name@
    &&& q.piece_length == d.piece_length
    &&& q.pieces@.len() == d.pieces@.len()
    &&& forall|k: int| 0 <= k < d.pieces@.len() ==> (#[trigger] q.pieces@[k])@ == d.pieces@[k]@
    &&& q.total_length == d.total()
    &&& q.is_single_file == (d.content is Single)
    &&& match d.content {
        Content::Single { length } => {
            &&& q.files@.len() == 1
            &&& text::views(q.files@[0].path@) == seq![d.name@]
            &&& q.files@[0].length == length
            &&& !q.files@[0].is_pad
        },
        Content::Multi { files } => same_files(q.files@, files@),
    }
    &&& q.private == d.private
    &&& metainfo::opt_view(q.source) == metainfo::opt_view(d.source)
}

/// No entry of the info dictionary has these keys, in these drafts.
proof fn lemma_info_lacks(d: Draft)
    ensures
        lacks(encode::info_pairs(d), "meta version"@),
        d.content is Single ==> lacks(encode::info_pairs(d), "files"@),
        d.content is Multi ==> lacks(encode::info_pairs(d), "length"@),
        !d.private ==> lacks(encode::info_pairs(d), "private"@),
        d.source is None ==> lacks(encode::info_pairs(d), "source"@),
{
    lemma_info_pairs_are(d);
    metainfo::lemma_info_keys();
}

/// Nothing is wrong with any entry of the info dictionary.
proof fn lemma_info_entries_back(ts: Seq<Tok>, cut: Seq<char>, p: int, d: Draft)
    requires
        stands(ts, p, encode::dict(encode::info_pairs(d))),
        encode::objection(d) is None,
    ensures
        metainfo::info_entries_fault(ts, cut, p + 1) is None,
{
    let pairs = encode::info_pairs(d);
    lemma_info_pairs(d);
    lemma_info_pairs_are(d);
    metainfo::lemma_info_keys();
    lemma_number_back(d.piece_length as int);
    lemma_number_back(1);
    assert forall|i: int| 0 <= i < pairs.len() implies metainfo::info_entry_fault(
        ts,
        cut,
        bencode::word((#[trigger] pairs[i]).0),
        p + 1 + reach(pairs, i) + 1,
    ) is None by {
        let q = p + 1 + reach(pairs, i) + 1;
        lemma_entry_stands(ts, p, pairs, i);
        assert(is_value(pairs[i].1));
        lemma_stands_at(ts, q, pairs[i].1, 0);
        if pairs[i] == encode::content_pair(d.content) {
            match d.content {
                Content::Single { length } => {
                    lemma_number_back(length as int);
                },
                Content::Multi { files } => {
                    lemma_readable(files@, 0);
                    lemma_files_back(ts, cut, q, files@);
                },
            }
        }
    }
    assert(pairs.take(0) =~= Seq::<Pair>::empty());
    assert(reach(pairs, 0) == 0);
    lemma_info_entries_faultless(ts, cut, p, pairs, 0);
}

/// The fields of the info dictionary are those of the draft.
#[verifier::rlimit(60)]
#[verifier::spinoff_prover]
proof fn lemma_info_fields_back(ts: Seq<Tok>, cut: Seq<char>, p: int, d: Draft)
    requires
        stands(ts, p, encode::dict(encode::info_pairs(d))),
        encode::objection(d) is None,
    ensures
        metainfo::field(ts, p, "meta version"@) is None,
        metainfo::text_field(ts, p, "name"@) == Some(d.name@),
        metainfo::number_field(ts, p, "piece length"@) == Some(d.piece_length as int),
        metainfo::field(ts, p, "pieces"@) matches Some(q) && ts[q] == Tok::Bytes(
            encode::flat(d.pieces@),
        ),
        match d.content {
            Content::Single { length } => metainfo::number_field(ts, p, "length"@) == Some(
                length as int,
            ) && metainfo::field(ts, p, "files"@) is None,
            Content::Multi { files } => metainfo::field(ts, p, "length"@) is None && (
            metainfo::field(ts, p, "files"@) matches Some(q) && stands(
                ts,
                q,
                encode::files_list(files@),
            )),
        },
        metainfo::number_field(ts, p, "private"@) == if d.private {
            Some(1int)
        } else {
            None
        },
        metainfo::text_field(ts, p, "source"@) == metainfo::opt_view(d.source),
        metainfo::dict_tokens(ts, p) == encode::dict(encode::info_pairs(d)),
{
    let pairs = encode::info_pairs(d);
    lemma_info_pairs(d);
    lemma_info_pairs_are(d);
    lemma_info_lacks(d);
    lemma_no_field(ts, p, pairs, "meta version"@);
    let name = encode::text_pair("name"@, d.name@);
    lemma_field_of(ts, p, pairs, name);
    lemma_stands_at(ts, metainfo::field(ts, p, "name"@)->0, name.1, 0);
    lemma_text_back(d.name@);
    let piece_length = encode::number_pair("piece length"@, d.piece_length as int);
    lemma_field_of(ts, p, pairs, piece_length);
    lemma_stands_at(ts, metainfo::field(ts, p, "piece length"@)->0, piece_length.1, 0);
    lemma_number_back(d.piece_length as int);
    let pieces = ("pieces"@, seq![Tok::Bytes(encode::flat(d.pieces@))]);
    lemma_field_of(ts, p, pairs, pieces);
    lemma_stands_at(ts, metainfo::field(ts, p, "pieces"@)->0, pieces.1, 0);
    let content = encode::content_pair(d.content);
    lemma_field_of(ts, p, pairs, content);
    match d.content {
        Content::Single { length } => {
            lemma_stands_at(ts, metainfo::field(ts, p, "length"@)->0, content.1, 0);
            lemma_number_back(length as int);
            lemma_no_field(ts, p, pairs, "files"@);
        },
        Content::Multi { files } => {
            lemma_no_field(ts, p, pairs, "length"@);
        },
    }
    if d.private {
        let private = encode::number_pair("private"@, 1);
        lemma_field_of(ts, p, pairs, private);
        lemma_stands_at(ts, metainfo::field(ts, p, "private"@)->0, private.1, 0);
        lemma_number_back(1);
    } else {
        lemma_no_field(ts, p, pairs, "private"@);
    }
    if d.source is Some {
        let source = encode::text_pair("source"@, d.source->0@);
        lemma_field_of(ts, p, pairs, source);
        lemma_stands_at(ts, metainfo::field(ts, p, "source"@)->0, source.1, 0);
        lemma_text_back(d.source->0@);
    } else {
        lemma_no_field(ts, p, pairs, "source"@);
    }
    assert(pairs.take(0) =~= Seq::<Pair>::empty());
    assert(reach(pairs, 0) == 0);
    lemma_entries(ts, p, pairs, 0);
    assert(pairs.take(pairs.len() as int) =~= pairs);
    assert(encode::dict(pairs).len() == reach(pairs, pairs.len() as int) + 2);
}

proof fn lemma_info_back(ts: Seq<Tok>, cut: Seq<char>, p: int, d: Draft)
    requires
        stands(ts, p, encode::dict(encode::info_pairs(d))),
        encode::objection(d) is None,
        d.total() <= u64::MAX,
    ensures
        metainfo::info_fault(ts, cut, p) is None,
        forall|q: InfoParts| #[trigger] metainfo::is_info(q, ts, p) ==> same_info(q, d),
{
    lemma_stands_at(ts, p, encode::dict(encode::info_pairs(d)), 0);
    lemma_info_entries_back(ts, cut, p, d);
    lemma_info_fields_back(ts, cut, p, d);
    lemma_flat(d.pieces@);
    match d.content {
        Content::Multi { files } => {
            lemma_readable(files@, 0);
            lemma_files_back(ts, cut, metainfo::field(ts, p, "files"@)->0, files@);
        },
        _ => {},
    }
    assert(metainfo::total_length_at(ts, p) == d.total());
    assert(metainfo::info_shape_fault(ts, p) is None);
    assert forall|q: InfoParts| #[trigger] metainfo::is_info(q, ts, p) implies same_info(q, d) by {
        let raw = encode::flat(d.pieces@);
        assert(metainfo::are_hashes(q.pieces@, raw));
        assert forall|k: int| 0 <= k < d.pieces@.len() implies (#[trigger] q.pieces@[k])@
            == d.pieces@[k]@ by {
            assert(q.pieces@[k]@ == raw.subrange(20 * k, 20 * k + 20));
            assert(raw.subrange(20 * k, 20 * k + 20) == d.pieces@[k]@);
        }
    }
}

// The whole file.

/// The entries of the outer dictionary, by name.
pub open spec fn announce_pair(d: Draft) -> Pair {
    encode::text_pair("announce"@, d.announce@[0]@[0]@)
}

pub open spec fn tiers_pair(d: Draft) -> Pair {
    ("announce-list"@, encode::tiers_list(values::tier_views(d.announce@)))
}

pub open spec fn comment_pair(d: Draft) -> Pair {
    encode::text_pair("comment"@, d.comment->0@)
}

pub open spec fn creator_pair(d: Draft) -> Pair {
    encode::text_pair("created by"@, d.created_by->0@)
}

pub open spec fn date_pair(d: Draft) -> Pair {
    encode::number_pair("creation date"@, d.creation_date->0 as int)
}

pub open spec fn info_pair(d: Draft) -> Pair {
    ("info"@, encode::dict(encode::info_pairs(d)))
}

proof fn lemma_with(pairs: Seq<Pair>, there: bool, pair: Pair)
    ensures
        there ==> encode::with(pairs, there, pair).contains(pair),
        forall|x: Pair|
            #![trigger encode::with(pairs, there, pair).contains(x)]
            encode::with(pairs, there, pair).contains(x) <==> pairs.contains(x) || (there && x
                == pair),
{
    let now = encode::with(pairs, there, pair);
    if there {
        assert(now[pairs.len() as int] == pair);
    }
    assert forall|x: Pair|
        #![trigger encode::with(pairs, there, pair).contains(x)]
        now.contains(x) <==> pairs.contains(x) || (there && x == pair) by {
        if pairs.contains(x) {
            let k = choose|k: int| 0 <= k < pairs.len() && pairs[k] == x;
            assert(now[k] == x);
        }
        if now.contains(x) {
            let k = choose|k: int| 0 <= k < now.len() && now[k] == x;
            if k < pairs.len() {
                assert(pairs[k] == x);
            }
        }
    }
}

/// Which entries the outer dictionary has.
proof fn lemma_outer_pairs_are(d: Draft)
    ensures
        forall|x: Pair|
            #![trigger encode::outer_pairs(d).contains(x)]
            encode::outer_pairs(d).contains(x) <==> {
                ||| encode::has_first(d) && x == announce_pair(d)
                ||| d.announce@.len() > 0 && x == tiers_pair(d)
                ||| d.comment is Some && x == comment_pair(d)
                ||| d.created_by is Some && x == creator_pair(d)
                ||| d.creation_date is Some && x == date_pair(d)
                ||| x == info_pair(d)
            },
{
    let none = Seq::<Pair>::empty();
    let a = encode::with(none, encode::has_first(d), announce_pair(d));
    let b = encode::with(a, d.announce@.len() > 0, tiers_pair(d));
    let c = encode::with(b, d.comment is Some, comment_pair(d));
    let e = encode::with(c, d.created_by is Some, creator_pair(d));
    let f = encode::with(e, d.creation_date is Some, date_pair(d));
    let g = encode::with(f, true, info_pair(d));
    assert(encode::outer_pairs(d) == g);
    lemma_with(none, encode::has_first(d), announce_pair(d));
    lemma_with(a, d.announce@.len() > 0, tiers_pair(d));
    lemma_with(b, d.comment is Some, comment_pair(d));
    lemma_with(c, d.created_by is Some, creator_pair(d));
    lemma_with(e, d.creation_date is Some, date_pair(d));
    lemma_with(f, true, info_pair(d));
    assert forall|x: Pair|
        #![trigger encode::outer_pairs(d).contains(x)]
        encode::outer_pairs(d).contains(x) <==> {
            ||| encode::has_first(d) && x == announce_pair(d)
            ||| d.announce@.len() > 0 && x == tiers_pair(d)
            ||| d.comment is Some && x == comment_pair(d)
            ||| d.created_by is Some && x == creator_pair(d)
            ||| d.creation_date is Some && x == date_pair(d)
            ||| x == info_pair(d)
        } by {
        assert(!none.contains(x));
        assert(g.contains(x) <==> f.contains(x) || x == info_pair(d));
        assert(f.contains(x) <==> e.contains(x) || (d.creation_date is Some && x == date_pair(d)));
        assert(e.contains(x) <==> c.contains(x) || (d.created_by is Some && x == creator_pair(d)));
        assert(c.contains(x) <==> b.contains(x) || (d.comment is Some && x == comment_pair(d)));
        assert(b.contains(x) <==> a.contains(x) || (d.announce@.len() > 0 && x == tiers_pair(d)));
        assert(a.contains(x) <==> none.contains(x) || (encode::has_first(d) && x
            == announce_pair(d)));
    }
}

proof fn lemma_tiers_value(tiers: Seq<Seq<Seq<char>>>, h: int)
    requires
        2 <= h,
    ensures
        is_value(encode::tiers_list(tiers)),
        fits(encode::tiers_list(tiers), h),
{
    let parts = tier_parts(tiers);
    lemma_tier_values(tiers);
    lemma_list_is_value(parts);
    assert forall|i: int| 0 <= i < parts.len() implies fits(#[trigger] parts[i], 1) by {
        lemma_texts_pair(tiers[i], 1);
    }
    lemma_list_fits(parts, 1);
    lemma_fits_more(encode::tiers_list(tiers), 2, h);
}

proof fn lemma_outer_pairs(d: Draft)
    ensures
        sound(encode::outer_pairs(d), 4),
        fits(encode::dict(encode::outer_pairs(d)), 5),
{
    let none = Seq::<Pair>::empty();
    let a = encode::with(none, encode::has_first(d), announce_pair(d));
    let b = encode::with(a, d.announce@.len() > 0, tiers_pair(d));
    let c = encode::with(b, d.comment is Some, comment_pair(d));
    let e = encode::with(c, d.created_by is Some, creator_pair(d));
    let f = encode::with(e, d.creation_date is Some, date_pair(d));
    encode::lemma_outer_order();
    assert(sound(none, 4));
    if encode::has_first(d) {
        lemma_text_pair("announce"@, d.announce@[0]@[0]@, 4);
        lemma_sound_push(none, announce_pair(d), 4);
    }
    if d.announce@.len() > 0 {
        lemma_tiers_value(values::tier_views(d.announce@), 4);
        lemma_sound_push(a, tiers_pair(d), 4);
    }
    if d.comment is Some {
        lemma_text_pair("comment"@, d.comment->0@, 4);
        lemma_sound_push(b, comment_pair(d), 4);
    }
    if d.created_by is Some {
        lemma_text_pair("created by"@, d.created_by->0@, 4);
        lemma_sound_push(c, creator_pair(d), 4);
    }
    if d.creation_date is Some {
        lemma_number_pair("creation date"@, d.creation_date->0 as int, 4);
        lemma_sound_push(e, date_pair(d), 4);
    }
    lemma_info_pairs(d);
    lemma_sound_push(f, info_pair(d), 4);
    assert(encode::outer_pairs(d) == f.push(info_pair(d)));
    lemma_dict_fits(encode::outer_pairs(d), 4);
}

/// No entry has a key that none of them has.
proof fn lemma_outer_lacks(d: Draft, key: Seq<char>)
    requires
        forall|x: Pair| #[trigger]
            encode::outer_pairs(d).contains(x) ==> bencode::word(x.0) != bencode::word(key),
    ensures
        lacks(encode::outer_pairs(d), key),
{
    let pairs = encode::outer_pairs(d);
    assert forall|k: int| 0 <= k < pairs.len() implies bencode::word((#[trigger] pairs[k]).0)
        != bencode::word(key) by {
        assert(pairs.contains(pairs[k]));
    }
}

#[verifier::rlimit(40)]
#[verifier::spinoff_prover]
proof fn lemma_outer_entries_faultless(
    ts: Seq<Tok>,
    cut: Seq<char>,
    p: int,
    pairs: Seq<Pair>,
    k: int,
)
    requires
        stands(ts, p, encode::dict(pairs)),
        are_values(pairs),
        0 <= k <= pairs.len(),
        forall|i: int|
            0 <= i < pairs.len() ==> metainfo::outer_entry_fault(
                ts,
                cut,
                bencode::word((#[trigger] pairs[i]).0),
                p + 1 + reach(pairs, i) + 1,
            ) is None,
    ensures
        metainfo::outer_entries_fault(ts, cut, p + 1 + reach(pairs, k)) is None,
    decreases pairs.len() - k,
{
    lemma_entries(ts, p, pairs, k);
    if k < pairs.len() {
        let q = p + 1 + reach(pairs, k);
        lemma_entry_stands(ts, p, pairs, k);
        lemma_past(ts, q + 1, pairs[k].1);
        lemma_reach(pairs, k);
        assert(metainfo::outer_entry_fault(ts, cut, bencode::word(pairs[k].0), q + 1) is None);
        lemma_outer_entries_faultless(ts, cut, p, pairs, k + 1);
    }
}

/// Nothing is wrong with any entry of the outer dictionary.
proof fn lemma_outer_entries_back(ts: Seq<Tok>, cut: Seq<char>, d: Draft)
    requires
        ts == encode::dict(encode::outer_pairs(d)),
        encode::objection(d) is None,
        d.total() <= u64::MAX,
    ensures
        metainfo::outer_entries_fault(ts, cut, 1) is None,
{
    let pairs = encode::outer_pairs(d);
    assert(stands(ts, 0, ts)) by {
        assert(ts.subrange(0, ts.len() as int) =~= ts);
    }
    lemma_outer_pairs(d);
    lemma_outer_pairs_are(d);
    metainfo::lemma_outer_keys();
    assert forall|i: int| 0 <= i < pairs.len() implies metainfo::outer_entry_fault(
        ts,
        cut,
        bencode::word((#[trigger] pairs[i]).0),
        0 + 1 + reach(pairs, i) + 1,
    ) is None by {
        let q = 0 + 1 + reach(pairs, i) + 1;
        lemma_entry_stands(ts, 0, pairs, i);
        assert(is_value(pairs[i].1));
        lemma_stands_at(ts, q, pairs[i].1, 0);
        assert(pairs.contains(pairs[i]));
        if pairs[i] == tiers_pair(d) {
            lemma_tiers_back(ts, cut, q, values::tier_views(d.announce@));
        } else if pairs[i] == info_pair(d) {
            lemma_info_back(ts, cut, q, d);
        } else if d.creation_date is Some && pairs[i] == date_pair(d) {
            lemma_number_back(d.creation_date->0 as int);
        }
    }
    assert(pairs.take(0) =~= Seq::<Pair>::empty());
    assert(reach(pairs, 0) == 0);
    lemma_outer_entries_faultless(ts, cut, 0, pairs, 0);
}

/// A URL that a tier has and that is not empty is left when the tier is cleaned.
proof fn lemma_cleaned_has(urls: Seq<Seq<char>>, i: int)
    requires
        0 <= i < urls.len(),
        urls[i].len() > 0,
    ensures
        values::cleaned(urls).contains(urls[i]),
    decreases urls.len(),
{
    let front = values::cleaned(urls.drop_last());
    let now = values::cleaned(urls);
    if i < urls.len() - 1 {
        lemma_cleaned_has(urls.drop_last(), i);
        let k = choose|k: int| 0 <= k < front.len() && front[k] == urls[i];
        assert(now[k] == urls[i]);
    } else {
        if front.contains(urls.last()) {
            assert(now == front);
        } else {
            assert(now[front.len() as int] == urls.last());
        }
    }
}

/// And the tier is kept.
proof fn lemma_kept_has(tiers: Seq<Seq<Seq<char>>>, i: int, url: Seq<char>)
    requires
        0 <= i < tiers.len(),
        values::cleaned(tiers[i]).contains(url),
    ensures
        metainfo::in_tiers(values::kept_tiers(tiers), url),
    decreases tiers.len(),
{
    let front = values::kept_tiers(tiers.drop_last());
    let now = values::kept_tiers(tiers);
    if i < tiers.len() - 1 {
        assert(tiers.drop_last()[i] == tiers[i]);
        lemma_kept_has(tiers.drop_last(), i, url);
        let k = choose|k: int| 0 <= k < front.len() && (#[trigger] front[k]).contains(url);
        assert(now[k] == front[k]);
        assert(now[k].contains(url));
    } else {
        let urls = values::cleaned(tiers.last());
        assert(urls.len() > 0);
        assert(now[front.len() as int] == urls);
        assert(now[front.len() as int].contains(url));
    }
}

/// The tiers that are read are those that were written, cleaned.
proof fn lemma_announce_back(ts: Seq<Tok>, cut: Seq<char>, d: Draft)
    requires
        ts == encode::dict(encode::outer_pairs(d)),
    ensures
        metainfo::tiers_of(ts) == values::kept_tiers(values::tier_views(d.announce@)),
{
    let pairs = encode::outer_pairs(d);
    let tiers = values::tier_views(d.announce@);
    assert(stands(ts, 0, ts)) by {
        assert(ts.subrange(0, ts.len() as int) =~= ts);
    }
    lemma_outer_pairs(d);
    lemma_outer_pairs_are(d);
    metainfo::lemma_outer_keys();
    if d.announce@.len() > 0 {
        assert(pairs.contains(tiers_pair(d)));
        lemma_field_of(ts, 0, pairs, tiers_pair(d));
        lemma_tiers_back(ts, cut, metainfo::field(ts, 0, "announce-list"@)->0, tiers);
    } else {
        lemma_outer_lacks(d, "announce-list"@);
        lemma_no_field(ts, 0, pairs, "announce-list"@);
        assert(values::kept_tiers(tiers) =~= Seq::empty());
    }
    if encode::has_first(d) {
        let url = d.announce@[0]@[0]@;
        assert(pairs.contains(announce_pair(d)));
        lemma_field_of(ts, 0, pairs, announce_pair(d));
        lemma_stands_at(ts, metainfo::field(ts, 0, "announce"@)->0, announce_pair(d).1, 0);
        lemma_text_back(url);
        if url.len() > 0 {
            assert(tiers[0][0] == url);
            lemma_cleaned_has(tiers[0], 0);
            lemma_kept_has(tiers, 0, url);
        }
    } else {
        lemma_outer_lacks(d, "announce"@);
        lemma_no_field(ts, 0, pairs, "announce"@);
    }
}

/// The optional entries that are read are those that were written.
proof fn lemma_options_back(ts: Seq<Tok>, d: Draft)
    requires
        ts == encode::dict(encode::outer_pairs(d)),
    ensures
        metainfo::text_field(ts, 0, "comment"@) == metainfo::opt_view(d.comment),
        metainfo::text_field(ts, 0, "created by"@) == metainfo::opt_view(d.created_by),
        metainfo::number_field(ts, 0, "creation date"@) == match d.creation_date {
            Some(n) => Some(n as int),
            None => None,
        },
        metainfo::field(ts, 0, "info"@) matches Some(q) && stands(
            ts,
            q,
            encode::dict(encode::info_pairs(d)),
        ),
{
    let pairs = encode::outer_pairs(d);
    assert(stands(ts, 0, ts)) by {
        assert(ts.subrange(0, ts.len() as int) =~= ts);
    }
    lemma_outer_pairs(d);
    lemma_outer_pairs_are(d);
    metainfo::lemma_outer_keys();
    if d.comment is Some {
        assert(pairs.contains(comment_pair(d)));
        lemma_field_of(ts, 0, pairs, comment_pair(d));
        lemma_stands_at(ts, metainfo::field(ts, 0, "comment"@)->0, comment_pair(d).1, 0);
        lemma_text_back(d.comment->0@);
    } else {
        lemma_outer_lacks(d, "comment"@);
        lemma_no_field(ts, 0, pairs, "comment"@);
    }
    if d.created_by is Some {
        assert(pairs.contains(creator_pair(d)));
        lemma_field_of(ts, 0, pairs, creator_pair(d));
        lemma_stands_at(ts, metainfo::field(ts, 0, "created by"@)->0, creator_pair(d).1, 0);
        lemma_text_back(d.created_by->0@);
    } else {
        lemma_outer_lacks(d, "created by"@);
        lemma_no_field(ts, 0, pairs, "created by"@);
    }
    if d.creation_date is Some {
        assert(pairs.contains(date_pair(d)));
        lemma_field_of(ts, 0, pairs, date_pair(d));
        lemma_stands_at(ts, metainfo::field(ts, 0, "creation date"@)->0, date_pair(d).1, 0);
        lemma_number_back(d.creation_date->0 as int);
    } else {
        lemma_outer_lacks(d, "creation date"@);
        lemma_no_field(ts, 0, pairs, "creation date"@);
    }
    assert(pairs.contains(info_pair(d)));
    lemma_field_of(ts, 0, pairs, info_pair(d));
}

/// What is written is read back: the bytes of every draft that can be written are those of
/// a torrent, whose infohash is the one that was advertised, and which says what the draft
/// says. Of the tiers, empty and repeated URLs and tiers without any are left out; a file
/// that is named like padding is padding.
pub proof fn law_encoded_draft_reads_back(d: Draft, m: Metainfo)
    requires
        encode::objection(d) is None,
        d.total() <= u64::MAX,
    ensures
        ({
            let data = bencode::spelled(encode::dict(encode::outer_pairs(d)));
            &&& metainfo::torrent_fault(data) is None
            &&& m.reads(bencode::reading(data)) ==> {
                &&& same_info(m.info(), d)
                &&& values::tier_views(m.announce@) == values::kept_tiers(
                    values::tier_views(d.announce@),
                )
                &&& metainfo::opt_view(m.comment) == metainfo::opt_view(d.comment)
                &&& metainfo::opt_view(m.created_by) == metainfo::opt_view(d.created_by)
                &&& m.creation_date == d.creation_date
            }
        }),
{
    let ts = encode::dict(encode::outer_pairs(d));
    let data = bencode::spelled(ts);
    let cut = metainfo::cut_text(data);
    lemma_outer_pairs(d);
    lemma_fits_complete(ts, 5);
    law_spelling_reads_back(ts);
    assert(data.len() > 0) by {
        assert(ts =~= seq![ts[0]] + ts.drop_first());
        bencode::lemma_spelled_add(seq![ts[0]], ts.drop_first());
        encode::lemma_spelled_one(ts[0]);
        lemma_first_byte(ts[0]);
    }
    lemma_outer_entries_back(ts, cut, d);
    lemma_announce_back(ts, cut, d);
    lemma_options_back(ts, d);
    lemma_info_back(ts, cut, metainfo::field(ts, 0, "info"@)->0, d);
}

/// The trackers, the comment, the maker and the date are outside the infohash: drafts that
/// differ in these alone have the same info dictionary.
pub proof fn law_infohash_leaves_out_the_rest(a: Draft, b: Draft)
    requires
        a.name@ == b.name@,
        a.piece_length == b.piece_length,
        a.pieces@ == b.pieces@,
        a.content == b.content,
        a.private == b.private,
        metainfo::opt_view(a.source) == metainfo::opt_view(b.source),
    ensures
        encode::dict(encode::info_pairs(a)) == encode::dict(encode::info_pairs(b)),
{
}

/// The name, the piece length, the private flag and the source are inside the infohash: drafts
/// that differ in one of them have info dictionaries of different bytes.
pub proof fn law_infohash_covers_identity(a: Draft, b: Draft)
    requires
        encode::objection(a) is None,
        encode::objection(b) is None,
        bencode::spelled(encode::dict(encode::info_pairs(a))) == bencode::spelled(
            encode::dict(encode::info_pairs(b)),
        ),
    ensures
        a.name@ == b.name@,
        a.piece_length == b.piece_length,
        encode::flat(a.pieces@) == encode::flat(b.pieces@),
        a.private == b.private,
        metainfo::opt_view(a.source) == metainfo::opt_view(b.source),
{
    let x = encode::dict(encode::info_pairs(a));
    let y = encode::dict(encode::info_pairs(b));
    lemma_info_pairs(a);
    lemma_info_pairs(b);
    lemma_fits_complete(x, 4);
    lemma_fits_complete(y, 4);
    law_spelling_reads_back(x);
    law_spelling_reads_back(y);
    assert(x == y);
    assert(x.subrange(0, x.len() as int) =~= x);
    let cut = Seq::<char>::empty();
    lemma_info_fields_back(x, cut, 0, a);
    lemma_info_fields_back(x, cut, 0, b);
}

} // verus!
