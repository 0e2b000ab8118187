//! What stands in a torrent file, byte for byte, and how a payload is cut.

use super::bencode;
use super::bencode::Tok;
use super::create;
use super::create::{CreateOpts, Cut, SourceFile};
use super::encode;
use super::encode::{Content, Draft, Pair};
use super::layout;
use super::metainfo;
use super::metainfo::TorrentFile;
use super::values;
use crate::seqs;
use crate::text;
use vstd::prelude::*;

verus! {

/// A string as it stands in the file: how long it is, a colon, and its bytes.
pub open spec fn string_bytes(s: Seq<char>) -> Seq<u8> {
    bencode::spell(Tok::Bytes(bencode::word(s)))
}

/// A number as it stands in the file: between an `i` and an `e`.
pub open spec fn number_bytes(n: int) -> Seq<u8> {
    bencode::spell(Tok::Num(text::signed_decimal(n)))
}

/// Between an `l` and an `e`.
pub open spec fn list_bytes(parts: Seq<Seq<u8>>) -> Seq<u8> {
    seq![108u8] + seqs::concat(parts) + seq![101u8]
}

/// A list of strings as it stands in the file.
pub open spec fn strings_bytes(l: Seq<Seq<char>>) -> Seq<u8> {
    list_bytes(l.map_values(|s: Seq<char>| string_bytes(s)))
}

/// Some bytes, where a condition holds.
pub open spec fn only_if(b: bool, s: Seq<u8>) -> Seq<u8> {
    if b {
        s
    } else {
        Seq::empty()
    }
}

/// A file as it stands in the list of files.
pub open spec fn file_bytes(f: TorrentFile) -> Seq<u8> {
    seq![100u8] + only_if(f.is_pad, string_bytes("attr"@) + string_bytes("p"@)) + string_bytes(
        "length"@,
    ) + number_bytes(f.length as int) + string_bytes("path"@) + strings_bytes(
        text::views(f.path@),
    ) + seq![101u8]
}

proof fn lemma_pair(pairs: Seq<Pair>, key: Seq<char>, value: Seq<Tok>)
    ensures
        bencode::spelled(encode::pair_tokens(pairs.push((key, value)))) == bencode::spelled(
            encode::pair_tokens(pairs),
        ) + string_bytes(key) + bencode::spelled(value),
{
    let now = pairs.push((key, value));
    let head = encode::pair_tokens(pairs);
    let word = seq![Tok::Bytes(bencode::word(key))];
    assert(now.drop_last() =~= pairs);
    assert(encode::pair_tokens(now) == head + word + value);
    bencode::lemma_spelled_add(head, word);
    bencode::lemma_spelled_add(head + word, value);
    encode::lemma_spelled_one(word[0]);
}

proof fn lemma_text(pairs: Seq<Pair>, key: Seq<char>, value: Seq<char>)
    ensures
        bencode::spelled(encode::pair_tokens(pairs.push(encode::text_pair(key, value))))
            == bencode::spelled(encode::pair_tokens(pairs)) + string_bytes(key) + string_bytes(
            value,
        ),
{
    lemma_pair(pairs, key, seq![Tok::Bytes(bencode::word(value))]);
    encode::lemma_spelled_one(Tok::Bytes(bencode::word(value)));
}

proof fn lemma_number(pairs: Seq<Pair>, key: Seq<char>, value: int)
    ensures
        bencode::spelled(encode::pair_tokens(pairs.push(encode::number_pair(key, value))))
            == bencode::spelled(encode::pair_tokens(pairs)) + string_bytes(key) + number_bytes(
            value,
        ),
{
    lemma_pair(pairs, key, seq![Tok::Num(text::signed_decimal(value))]);
    encode::lemma_spelled_one(Tok::Num(text::signed_decimal(value)));
}

proof fn lemma_no_pairs()
    ensures
        bencode::spelled(encode::pair_tokens(Seq::<Pair>::empty())) == Seq::<u8>::empty(),
{
}

proof fn lemma_dict(pairs: Seq<Pair>)
    ensures
        bencode::spelled(encode::dict(pairs)) == seq![100u8] + bencode::spelled(
            encode::pair_tokens(pairs),
        ) + seq![101u8],
{
    let inner = encode::pair_tokens(pairs);
    bencode::lemma_spelled_add(seq![Tok::Dict], inner);
    bencode::lemma_spelled_add(seq![Tok::Dict] + inner, seq![Tok::End]);
    encode::lemma_spelled_one(Tok::Dict);
    encode::lemma_spelled_one(Tok::End);
}

proof fn lemma_list(parts: Seq<Seq<Tok>>)
    ensures
        bencode::spelled(encode::list(parts)) == list_bytes(
            parts.map_values(|p: Seq<Tok>| bencode::spelled(p)),
        ),
{
    let inner = seqs::concat(parts);
    bencode::lemma_spelled_add(seq![Tok::List], inner);
    bencode::lemma_spelled_add(seq![Tok::List] + inner, seq![Tok::End]);
    encode::lemma_spelled_one(Tok::List);
    encode::lemma_spelled_one(Tok::End);
    lemma_parts(parts);
}

proof fn lemma_parts(parts: Seq<Seq<Tok>>)
    ensures
        bencode::spelled(seqs::concat(parts)) == seqs::concat(
            parts.map_values(|p: Seq<Tok>| bencode::spelled(p)),
        ),
    decreases parts.len(),
{
    let spelled = parts.map_values(|p: Seq<Tok>| bencode::spelled(p));
    if parts.len() > 0 {
        let front = parts.drop_last();
        lemma_parts(front);
        assert(spelled.drop_last() =~= front.map_values(|p: Seq<Tok>| bencode::spelled(p)));
        bencode::lemma_spelled_add(seqs::concat(front), parts.last());
    } else {
        assert(seqs::concat(parts) =~= Seq::<Tok>::empty());
    }
}

proof fn lemma_strings(l: Seq<Seq<char>>)
    ensures
        bencode::spelled(bencode::texts(l)) == strings_bytes(l),
{
    let parts = l.map_values(|s: Seq<char>| seq![Tok::Bytes(bencode::word(s))]);
    lemma_singles(l);
    assert(bencode::texts(l) =~= encode::list(parts));
    lemma_list(parts);
    let a = parts.map_values(|p: Seq<Tok>| bencode::spelled(p));
    let b = l.map_values(|s: Seq<char>| string_bytes(s));
    assert forall|i: int| 0 <= i < l.len() implies a[i] == b[i] by {
        encode::lemma_spelled_one(Tok::Bytes(bencode::word(l[i])));
    }
    assert(a =~= b);
}

proof fn lemma_singles(l: Seq<Seq<char>>)
    ensures
        seqs::concat(l.map_values(|s: Seq<char>| seq![Tok::Bytes(bencode::word(s))]))
            == l.map_values(|s: Seq<char>| Tok::Bytes(bencode::word(s))),
    decreases l.len(),
{
    let a = l.map_values(|s: Seq<char>| seq![Tok::Bytes(bencode::word(s))]);
    let b = l.map_values(|s: Seq<char>| Tok::Bytes(bencode::word(s)));
    if l.len() > 0 {
        let front = l.drop_last();
        lemma_singles(front);
        assert(a.drop_last() =~= front.map_values(
            |s: Seq<char>| seq![Tok::Bytes(bencode::word(s))],
        ));
        assert(seqs::concat(a) =~= b);
    } else {
        assert(seqs::concat(a) =~= b);
    }
}

/// A file of a torrent is written as its length and its path, one string for each step, and
/// one that is padding is marked.
pub proof fn law_file_is_spelled(f: TorrentFile)
    ensures
        bencode::spelled(encode::dict(encode::file_pairs(f))) == file_bytes(f),
{
    let none = Seq::<Pair>::empty();
    lemma_no_pairs();
    let a = encode::with(none, f.is_pad, encode::text_pair("attr"@, "p"@));
    lemma_text(none, "attr"@, "p"@);
    let b = a.push(encode::number_pair("length"@, f.length as int));
    lemma_number(a, "length"@, f.length as int);
    lemma_pair(b, "path"@, bencode::texts(text::views(f.path@)));
    lemma_strings(text::views(f.path@));
    lemma_dict(encode::file_pairs(f));
    assert(bencode::spelled(encode::dict(encode::file_pairs(f))) =~= file_bytes(f));
}

proof fn lemma_maybe(pairs: Seq<Pair>, there: bool, key: Seq<char>, value: Seq<Tok>)
    ensures
        bencode::spelled(encode::pair_tokens(encode::with(pairs, there, (key, value))))
            == bencode::spelled(encode::pair_tokens(pairs)) + only_if(
            there,
            string_bytes(key) + bencode::spelled(value),
        ),
{
    lemma_pair(pairs, key, value);
    let had = bencode::spelled(encode::pair_tokens(pairs));
    let k = string_bytes(key);
    let v = bencode::spelled(value);
    assert(had + k + v =~= had + (k + v));
    assert(had + Seq::<u8>::empty() =~= had);
}

proof fn lemma_first(key: Seq<char>, value: Seq<Tok>)
    ensures
        bencode::spelled(encode::pair_tokens(Seq::<Pair>::empty().push((key, value))))
            == string_bytes(key) + bencode::spelled(value),
{
    lemma_no_pairs();
    lemma_pair(Seq::<Pair>::empty(), key, value);
    assert(Seq::<u8>::empty() + string_bytes(key) =~= string_bytes(key));
}

/// What a torrent is identified by holds, in this order, the length of the one file or the
/// list of files, the name, the piece length, the hashes of the pieces, whether it is private,
/// and the source, the last two only where they were asked for.
pub proof fn law_info_is_spelled(d: Draft)
    ensures
        bencode::spelled(encode::dict(encode::info_pairs(d))) == seq![100u8] + ((
        match d.content {
            Content::Single { length } => string_bytes("length"@) + number_bytes(length as int),
            Content::Multi { files } => string_bytes("files"@) + list_bytes(
                files@.map_values(|f: TorrentFile| file_bytes(f)),
            ),
        }) + string_bytes("name"@) + string_bytes(d.name@) + string_bytes("piece length"@)
            + number_bytes(d.piece_length as int) + string_bytes("pieces"@) + bencode::spell(
            Tok::Bytes(encode::flat(d.pieces@)),
        ) + only_if(d.private, string_bytes("private"@) + number_bytes(1)) + only_if(
            d.source is Some,
            string_bytes("source"@) + string_bytes(d.source->0@),
        )) + seq![101u8],
{
    let none = Seq::<Pair>::empty();
    let a = none.push(encode::content_pair(d.content));
    match d.content {
        Content::Single { length } => {
            let n = Tok::Num(text::signed_decimal(length as int));
            lemma_first("length"@, seq![n]);
            encode::lemma_spelled_one(n);
        },
        Content::Multi { files } => {
            lemma_first("files"@, encode::files_list(files@));
            lemma_files(files@);
        },
    }
    let b = a.push(encode::text_pair("name"@, d.name@));
    lemma_text(a, "name"@, d.name@);
    let c = b.push(encode::number_pair("piece length"@, d.piece_length as int));
    lemma_number(b, "piece length"@, d.piece_length as int);
    let hashes = seq![Tok::Bytes(encode::flat(d.pieces@))];
    let e = c.push(("pieces"@, hashes));
    lemma_pair(c, "pieces"@, hashes);
    encode::lemma_spelled_one(hashes[0]);
    let yes = Tok::Num(text::signed_decimal(1));
    let f = encode::with(e, d.private, ("private"@, seq![yes]));
    lemma_maybe(e, d.private, "private"@, seq![yes]);
    encode::lemma_spelled_one(yes);
    let source = Tok::Bytes(bencode::word(d.source->0@));
    let g = encode::with(f, d.source is Some, ("source"@, seq![source]));
    lemma_maybe(f, d.source is Some, "source"@, seq![source]);
    encode::lemma_spelled_one(source);
    assert(e =~= seq![
        encode::content_pair(d.content),
        encode::text_pair("name"@, d.name@),
        encode::number_pair("piece length"@, d.piece_length as int),
        ("pieces"@, hashes),
    ]);
    assert(g == encode::info_pairs(d));
    lemma_dict(g);
}

proof fn lemma_files(files: Seq<TorrentFile>)
    ensures
        bencode::spelled(encode::files_list(files)) == list_bytes(
            files.map_values(|f: TorrentFile| file_bytes(f)),
        ),
{
    let parts = files.map_values(|f: TorrentFile| encode::dict(encode::file_pairs(f)));
    lemma_list(parts);
    let a = parts.map_values(|p: Seq<Tok>| bencode::spelled(p));
    let b = files.map_values(|f: TorrentFile| file_bytes(f));
    assert forall|i: int| 0 <= i < files.len() implies a[i] == b[i] by {
        law_file_is_spelled(files[i]);
    }
    assert(a =~= b);
}

/// Around what it is identified by, a torrent names its trackers, the first of them also by
/// itself, and says what it was said of it, who made it and when.
pub proof fn law_torrent_is_spelled(d: Draft)
    ensures
        bencode::spelled(encode::dict(encode::outer_pairs(d))) == seq![100u8] + (Seq::empty()
            + only_if(
            d.announce@.len() > 0 && d.announce@[0]@.len() > 0,
            string_bytes("announce"@) + string_bytes(d.announce@[0]@[0]@),
        ) + only_if(
            d.announce@.len() > 0,
            string_bytes("announce-list"@) + list_bytes(
                d.announce@.map_values(|t: Vec<String>| strings_bytes(text::views(t@))),
            ),
        ) + only_if(
            d.comment is Some,
            string_bytes("comment"@) + string_bytes(d.comment->0@),
        ) + only_if(
            d.created_by is Some,
            string_bytes("created by"@) + string_bytes(d.created_by->0@),
        ) + only_if(
            d.creation_date is Some,
            string_bytes("creation date"@) + number_bytes(d.creation_date->0 as int),
        ) + string_bytes("info"@) + bencode::spelled(encode::dict(encode::info_pairs(d)))) + seq![
            101u8,
        ],
{
    let none = Seq::<Pair>::empty();
    lemma_no_pairs();
    let one = d.announce@.len() > 0 && d.announce@[0]@.len() > 0;
    let first = Tok::Bytes(bencode::word(d.announce@[0]@[0]@));
    let a = encode::with(none, one, ("announce"@, seq![first]));
    lemma_maybe(none, one, "announce"@, seq![first]);
    encode::lemma_spelled_one(first);
    let tiers = encode::tiers_list(values::tier_views(d.announce@));
    let b = encode::with(a, d.announce@.len() > 0, ("announce-list"@, tiers));
    lemma_maybe(a, d.announce@.len() > 0, "announce-list"@, tiers);
    lemma_tiers(d.announce@);
    let comment = Tok::Bytes(bencode::word(d.comment->0@));
    let c = encode::with(b, d.comment is Some, ("comment"@, seq![comment]));
    lemma_maybe(b, d.comment is Some, "comment"@, seq![comment]);
    encode::lemma_spelled_one(comment);
    let made = Tok::Bytes(bencode::word(d.created_by->0@));
    let e = encode::with(c, d.created_by is Some, ("created by"@, seq![made]));
    lemma_maybe(c, d.created_by is Some, "created by"@, seq![made]);
    encode::lemma_spelled_one(made);
    let when = Tok::Num(text::signed_decimal(d.creation_date->0 as int));
    let f = encode::with(e, d.creation_date is Some, ("creation date"@, seq![when]));
    lemma_maybe(e, d.creation_date is Some, "creation date"@, seq![when]);
    encode::lemma_spelled_one(when);
    lemma_pair(f, "info"@, encode::dict(encode::info_pairs(d)));
    assert(encode::outer_pairs(d) == f.push(("info"@, encode::dict(encode::info_pairs(d)))));
    lemma_dict(encode::outer_pairs(d));
}

proof fn lemma_tiers(tiers: Seq<Vec<String>>)
    ensures
        bencode::spelled(encode::tiers_list(values::tier_views(tiers))) == list_bytes(
            tiers.map_values(|t: Vec<String>| strings_bytes(text::views(t@))),
        ),
{
    let views = values::tier_views(tiers);
    let parts = views.map_values(|t: Seq<Seq<char>>| bencode::texts(t));
    lemma_list(parts);
    let a = parts.map_values(|p: Seq<Tok>| bencode::spelled(p));
    let b = tiers.map_values(|t: Vec<String>| strings_bytes(text::views(t@)));
    assert forall|i: int| 0 <= i < tiers.len() implies a[i] == b[i] by {
        lemma_strings(text::views(tiers[i]@));
    }
    assert(a =~= b);
}

/// The hashes of the pieces stand one behind the other, twenty bytes each.
pub proof fn law_hashes_stand_in_order(pieces: Seq<[u8; 20]>, i: int, k: int)
    requires
        0 <= i < pieces.len(),
        0 <= k < 20,
    ensures
        encode::flat(pieces).len() == 20 * pieces.len(),
        encode::flat(pieces)[20 * i + k] == pieces[i]@[k],
    decreases pieces.len(),
{
    let front = pieces.drop_last();
    if front.len() > 0 {
        law_hashes_stand_in_order(front, if i < front.len() {
            i
        } else {
            0
        }, k);
    }
    assert(encode::flat(pieces) == encode::flat(front) + pieces.last()@);
}

/// The number of pieces is the least that holds all the data.
pub proof fn law_pieces_hold_the_data(total: int, length: int)
    requires
        total > 0,
        length > 0,
    ensures
        metainfo::pieces_for(total, length) * length >= total,
        (metainfo::pieces_for(total, length) - 1) * length < total,
{
    let n = metainfo::pieces_for(total, length);
    vstd::arithmetic::div_mod::lemma_fundamental_div_mod(total + length - 1, length);
    vstd::arithmetic::div_mod::lemma_mod_bound(total + length - 1, length);
    assert(n * length == length * n) by (nonlinear_arith);
    assert((n - 1) * length == length * n - length) by (nonlinear_arith);
}

/// A piece length that was not asked for lies between 16 KiB and 16 MiB and doubles up from
/// the former; with it there are no more than 2000 pieces, except at 16 MiB, and with half of
/// it there would be, except at 16 KiB.
pub proof fn law_pieces_are_few_enough(n: int, total: int)
    requires
        create::is_chosen_length(n, total, None),
        total > 0,
    ensures
        16384 <= n <= 16777216,
        exists|k: nat| n == 16384 * #[trigger] vstd::arithmetic::power2::pow2(k),
        n == 16777216 || 2000 * n >= total,
        n == 16384 || 2000 * (n / 2) < total,
{
    let k = choose|k: nat|
        k <= 10 && n == create::MIN_PIECE_LENGTH * #[trigger] vstd::arithmetic::power2::pow2(k);
    create::lemma_pow2_grows(k);
    assert(n == 16384 * vstd::arithmetic::power2::pow2(k));
    law_pieces_hold_the_data(total, n);
    let p = metainfo::pieces_for(total, n);
    assert(p <= 2000 ==> p * n <= 2000 * n) by (nonlinear_arith)
        requires
            n > 0,
    ;
    let half = n / 2;
    law_pieces_hold_the_data(total, half);
    let q = metainfo::pieces_for(total, half);
    assert(q > 2000 ==> (q - 1) * half >= 2000 * half) by (nonlinear_arith)
        requires
            half > 0,
    ;
}

/// A torrent says what was asked for: whether it is private, its source, its trackers, the
/// comment and who made it, and the files that go in with their lengths.
pub proof fn law_torrent_says_what_was_asked(
    d: Draft,
    name: Seq<char>,
    single: bool,
    files: Seq<SourceFile>,
    cut: Cut,
    opts: CreateOpts,
    now: i64,
)
    requires
        create::is_draft(d, name, single, files, cut, opts, now),
    ensures
        d.name@ == name,
        d.piece_length == cut.piece_length,
        d.private == opts.private,
        d.source is Some == opts.source is Some,
        opts.source is Some ==> d.source->0@ == opts.source->0@,
        d.announce@.len() == opts.announce@.len(),
        forall|i: int|
            0 <= i < opts.announce@.len() ==> text::views(#[trigger] d.announce@[i]@)
                == text::views(opts.announce@[i]@),
        d.comment is Some == opts.comment is Some,
        opts.comment is Some ==> d.comment->0@ == opts.comment->0@,
        d.created_by is Some && d.created_by->0@ == opts.created_by@,
        d.creation_date == Some(now),
        d.content is Single == single,
        d.content matches Content::Single { length } ==> length == cut.total_length,
        d.content matches Content::Multi { files: put } ==> put@.len() == files.len() && forall|
            i: int,
        |
            0 <= i < files.len() ==> (#[trigger] put@[i]).length == files[i].length && text::views(
                put@[i].path@,
            ) == text::views(files[i].path@) && !put@[i].is_pad,
{
    let a = values::tier_views(d.announce@);
    let b = values::tier_views(opts.announce@);
    assert(a.len() == b.len());
    assert forall|i: int| 0 <= i < opts.announce@.len() implies text::views(
        #[trigger] d.announce@[i]@,
    ) == text::views(opts.announce@[i]@) by {
        assert(a[i] == b[i]);
    }
}

/// Windows keeps the names of its devices for itself: these four, and `COM` and `LPT` with a
/// digit that is not zero, in whatever case. It keeps no others.
pub proof fn law_device_names_are_reserved(name: Seq<char>)
    ensures
        ({
            let n = text::lowercase(name);
            layout::is_reserved(name) == (n == seq!['c', 'o', 'n'] || n == seq!['p', 'r', 'n']
                || n == seq!['a', 'u', 'x'] || n == seq!['n', 'u', 'l'] || (n.len() == 4 && (
            n.take(3) == seq!['c', 'o', 'm'] || n.take(3) == seq!['l', 'p', 't']) && '1' <= n[3]
                && n[3] <= '9'))
        }),
{
    let n = text::lowercase(name);
    reveal_strlit("con");
    reveal_strlit("prn");
    reveal_strlit("aux");
    reveal_strlit("nul");
    reveal_strlit("com1");
    reveal_strlit("com2");
    reveal_strlit("com3");
    reveal_strlit("com4");
    reveal_strlit("com5");
    reveal_strlit("com6");
    reveal_strlit("com7");
    reveal_strlit("com8");
    reveal_strlit("com9");
    reveal_strlit("lpt1");
    reveal_strlit("lpt2");
    reveal_strlit("lpt3");
    reveal_strlit("lpt4");
    reveal_strlit("lpt5");
    reveal_strlit("lpt6");
    reveal_strlit("lpt7");
    reveal_strlit("lpt8");
    reveal_strlit("lpt9");
    assert("con"@ =~= seq!['c', 'o', 'n']);
    assert("prn"@ =~= seq!['p', 'r', 'n']);
    assert("aux"@ =~= seq!['a', 'u', 'x']);
    assert("nul"@ =~= seq!['n', 'u', 'l']);
    let com = seq!['c', 'o', 'm'];
    let lpt = seq!['l', 'p', 't'];
    assert("com1"@ =~= com.push('1'));
    assert("com2"@ =~= com.push('2'));
    assert("com3"@ =~= com.push('3'));
    assert("com4"@ =~= com.push('4'));
    assert("com5"@ =~= com.push('5'));
    assert("com6"@ =~= com.push('6'));
    assert("com7"@ =~= com.push('7'));
    assert("com8"@ =~= com.push('8'));
    assert("com9"@ =~= com.push('9'));
    assert("lpt1"@ =~= lpt.push('1'));
    assert("lpt2"@ =~= lpt.push('2'));
    assert("lpt3"@ =~= lpt.push('3'));
    assert("lpt4"@ =~= lpt.push('4'));
    assert("lpt5"@ =~= lpt.push('5'));
    assert("lpt6"@ =~= lpt.push('6'));
    assert("lpt7"@ =~= lpt.push('7'));
    assert("lpt8"@ =~= lpt.push('8'));
    assert("lpt9"@ =~= lpt.push('9'));
    if n.len() == 4 {
        assert(n =~= n.take(3).push(n[3]));
        assert forall|p: Seq<char>, c: char| p.len() == 3 implies #[trigger] p.push(c).take(3) == p
            by {
            assert(p.push(c).take(3) =~= p);
        }
    }
}

} // verus!
