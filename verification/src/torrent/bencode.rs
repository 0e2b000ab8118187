//! Bencode, token by token.
//!
//! A bencoded file is canonical: numbers without leading zeros, dictionary keys in order. A
//! sequence of tokens therefore has one spelling, and the bytes that a part of a file takes
//! up are the spelling of that part's tokens.

use crate::bytes;
use crate::text;
use crate::text::chars_of;
use bendy::encoding::ToBencode;
use vstd::prelude::*;
use vstd::string::*;

verus! {

/// One token.
#[derive(Debug, Clone)]
pub enum Token {
    /// The beginning of a list.
    List,
    /// The beginning of a dictionary.
    Dict,
    /// A byte string, which need not be text.
    Bytes(Vec<u8>),
    /// A number, as it is written.
    Num(String),
    /// The end of a list or a dictionary.
    End,
}

/// What a token is.
pub enum Tok {
    List,
    Dict,
    Bytes(Seq<u8>),
    Num(Seq<char>),
    End,
}

impl View for Token {
    type V = Tok;

    open spec fn view(&self) -> Tok {
        match self {
            Token::List => Tok::List,
            Token::Dict => Tok::Dict,
            Token::Bytes(b) => Tok::Bytes(b@),
            Token::Num(n) => Tok::Num(n@),
            Token::End => Tok::End,
        }
    }
}

pub open spec fn views(tokens: Seq<Token>) -> Seq<Tok> {
    tokens.map_values(|t: Token| t@)
}

/// The bytes of a word, as a key or a string holds them.
pub open spec fn word(s: Seq<char>) -> Seq<u8> {
    vstd::utf8::encode_utf8(s)
}

/// How a token is written.
pub open spec fn spell(t: Tok) -> Seq<u8> {
    match t {
        Tok::List => seq![108u8],
        Tok::Dict => seq![100u8],
        Tok::Bytes(b) => word(text::decimal(b.len())).push(58u8) + b,
        Tok::Num(n) => seq![105u8] + word(n).push(101u8),
        Tok::End => seq![101u8],
    }
}

/// How tokens are written, one after the other.
pub open spec fn spelled(ts: Seq<Tok>) -> Seq<u8>
    decreases ts.len(),
{
    if ts.len() == 0 {
        Seq::empty()
    } else {
        spelled(ts.drop_last()) + spell(ts.last())
    }
}

/// A number as it may be written: no leading zeros, and no negative zero.
pub open spec fn is_number(s: Seq<char>) -> bool {
    let digits = if s.len() > 0 && s[0] == '-' {
        s.skip(1)
    } else {
        s
    };
    &&& digits.len() > 0
    &&& text::all_digits(digits)
    &&& digits[0] == '0' ==> s.len() == 1
}

/// What may come next in a list or a dictionary that is not closed yet.
pub enum Level {
    /// In a list: anything.
    Items,
    /// In a dictionary: a key, and after this one if there is one.
    Key(Option<Seq<u8>>),
    /// In a dictionary, after this key: its value.
    Value(Seq<u8>),
}

/// How deep lists and dictionaries may be nested.
pub const MAX_DEPTH: usize = 2048;

/// What is open after a value has begun where `levels` were.
pub open spec fn with_value(levels: Seq<Level>) -> Seq<Level> {
    if levels.len() > 0 {
        match levels.last() {
            Level::Value(k) => levels.drop_last().push(Level::Key(Some(k))),
            _ => levels,
        }
    } else {
        levels
    }
}

/// What is open after one more token, if it may come there.
pub open spec fn step(levels: Seq<Level>, t: Tok) -> Option<Seq<Level>> {
    let at_key = levels.len() > 0 && levels.last() is Key;
    match t {
        Tok::End => if levels.len() == 0 || levels.last() is Value {
            None
        } else {
            Some(levels.drop_last())
        },
        Tok::Bytes(b) => if at_key {
            match levels.last()->Key_0 {
                Some(k) if !bytes::before(k, b) => None,
                _ => Some(levels.drop_last().push(Level::Value(b))),
            }
        } else {
            Some(with_value(levels))
        },
        Tok::Num(n) => if at_key || !is_number(n) {
            None
        } else {
            Some(with_value(levels))
        },
        Tok::List => if at_key || levels.len() >= MAX_DEPTH {
            None
        } else {
            Some(with_value(levels).push(Level::Items))
        },
        Tok::Dict => if at_key || levels.len() >= MAX_DEPTH {
            None
        } else {
            Some(with_value(levels).push(Level::Key(None)))
        },
    }
}

/// What is open after these tokens, if each may come where it does.
pub open spec fn levels(ts: Seq<Tok>) -> Option<Seq<Level>>
    decreases ts.len(),
{
    if ts.len() == 0 {
        Some(Seq::empty())
    } else {
        match levels(ts.drop_last()) {
            Some(l) => step(l, ts.last()),
            None => None,
        }
    }
}

/// Tokens that follow each other as they may, up to wherever they stop.
pub open spec fn structured(ts: Seq<Tok>) -> bool {
    levels(ts) is Some
}

/// And nothing is left open.
pub open spec fn complete(ts: Seq<Tok>) -> bool {
    levels(ts) == Some(Seq::<Level>::empty())
}

/// The tokens that bytes begin with: all of them, up to the end or to the first fault.
pub open spec fn is_reading(data: Seq<u8>, ts: Seq<Tok>) -> bool {
    &&& structured(ts)
    &&& spelled(ts).is_prefix_of(data)
    &&& forall|other: Seq<Tok>| #[trigger]
        structured(other) && spelled(other).is_prefix_of(data) ==> other.is_prefix_of(ts)
}

pub open spec fn reading(data: Seq<u8>) -> Seq<Tok> {
    choose|ts: Seq<Tok>| is_reading(data, ts)
}

/// There is one reading.
pub proof fn lemma_reading(data: Seq<u8>, ts: Seq<Tok>)
    requires
        is_reading(data, ts),
    ensures
        reading(data) == ts,
{
    let other = reading(data);
    assert(is_reading(data, other));
    assert(structured(ts) && structured(other));
    assert(ts.is_prefix_of(other) && other.is_prefix_of(ts));
    assert(ts =~= other);
}

/// Nothing is left open, and nothing is left over.
pub open spec fn reads_whole(data: Seq<u8>, ts: Seq<Tok>) -> bool {
    complete(ts) && spelled(ts) == data
}

/// What is said of bytes that are not bencode.
pub uninterp spec fn bencode_fault(data: Seq<u8>) -> Seq<char>;

/// The tokens of a file up to its end, or up to the first fault, which is told.
///
/// `bendy::decoding::Decoder::tokens`: the tokens that come out follow each other as they
/// may and are spelled at the beginning of the bytes; whatever tokens the bytes begin with
/// come out, if they follow each other as they may; there is no fault exactly where the
/// bytes are spelled to the end and nothing is left open; and the fault is a function of the
/// bytes.
#[verifier::external_body]
pub(crate) fn tokens(data: &[u8]) -> (r: (Vec<Token>, Option<String>))
    ensures
        is_reading(data@, views(r.0@)),
        r.1 is None <==> reads_whole(data@, views(r.0@)),
        r.1 matches Some(e) ==> e@ == bencode_fault(data@),
{
    let mut found: Vec<Token> = Vec::new();
    for token in bendy::decoding::Decoder::new(data).tokens() {
        found.push(match token {
            Ok(bendy::state_tracker::Token::List) => Token::List,
            Ok(bendy::state_tracker::Token::Dict) => Token::Dict,
            Ok(bendy::state_tracker::Token::String(b)) => Token::Bytes(b.to_vec()),
            Ok(bendy::state_tracker::Token::Num(n)) => Token::Num(n.to_owned()),
            Ok(bendy::state_tracker::Token::End) => Token::End,
            Err(e) => return (found, Some(e.to_string())),
        });
    }
    (found, None)
}

pub open spec fn unexpected_text(expected: Seq<char>, found: Seq<char>) -> Seq<char> {
    "discovered "@ + found + " but expected "@ + expected
}

/// `bendy::decoding::Error::unexpected_token`, as text.
#[verifier::external_body]
pub(crate) fn unexpected_token(expected: &str, found: &str) -> (s: String)
    ensures
        s@ == unexpected_text(expected@, found@),
{
    bendy::decoding::Error::unexpected_token(expected, found).to_string()
}

/// `ToBencode::to_bencode` of a string: its length in bytes, a colon, and its bytes.
#[verifier::external_body]
pub(crate) fn bencode_text(s: &str) -> (r: Result<Vec<u8>, String>)
    ensures
        r is Ok,
        r->Ok_0@ == spell(Tok::Bytes(word(s@))),
{
    s.to_bencode().map_err(|e| e.to_string())
}

/// `ToBencode::to_bencode` of bytes, by way of `AsString`.
#[verifier::external_body]
pub(crate) fn bencode_bytes(data: &[u8]) -> (r: Result<Vec<u8>, String>)
    ensures
        r is Ok,
        r->Ok_0@ == spell(Tok::Bytes(data@)),
{
    bendy::encoding::AsString(data).to_bencode().map_err(|e| e.to_string())
}

/// `ToBencode::to_bencode` of a number.
#[verifier::external_body]
pub(crate) fn bencode_u64(n: u64) -> (r: Result<Vec<u8>, String>)
    ensures
        r is Ok,
        r->Ok_0@ == spell(Tok::Num(text::decimal(n as nat))),
{
    n.to_bencode().map_err(|e| e.to_string())
}

/// `ToBencode::to_bencode` of a number that may be negative.
#[verifier::external_body]
pub(crate) fn bencode_i64(n: i64) -> (r: Result<Vec<u8>, String>)
    ensures
        r is Ok,
        r->Ok_0@ == spell(Tok::Num(text::signed_decimal(n as int))),
{
    n.to_bencode().map_err(|e| e.to_string())
}

/// A list of strings.
pub open spec fn texts(l: Seq<Seq<char>>) -> Seq<Tok> {
    seq![Tok::List] + l.map_values(|s: Seq<char>| Tok::Bytes(word(s))) + seq![Tok::End]
}

/// `ToBencode::to_bencode` of a list of strings.
#[verifier::external_body]
pub(crate) fn bencode_texts(l: &Vec<String>) -> (r: Result<Vec<u8>, String>)
    ensures
        r is Ok,
        r->Ok_0@ == spelled(texts(text::views(l@))),
{
    l.to_bencode().map_err(|e| e.to_string())
}

pub proof fn lemma_word(a: Seq<char>, b: Seq<char>)
    ensures
        word(a) == word(b) ==> a == b,
{
    vstd::utf8::encode_utf8_decode_utf8(a);
    vstd::utf8::encode_utf8_decode_utf8(b);
}

/// The spelling of ASCII text is its characters.
pub proof fn lemma_ascii_word(s: Seq<char>)
    requires
        vstd::utf8::is_ascii_chars(s),
    ensures
        word(s).len() == s.len(),
        forall|i: int| 0 <= i < s.len() ==> #[trigger] word(s)[i] == s[i] as u8,
{
    vstd::utf8::is_ascii_chars_encode_utf8(s);
}

pub proof fn lemma_spelled_add(a: Seq<Tok>, b: Seq<Tok>)
    ensures
        spelled(a + b) == spelled(a) + spelled(b),
    decreases b.len(),
{
    if b.len() == 0 {
        assert(a + b =~= a);
        assert(spelled(a) + spelled(b) =~= spelled(a));
    } else {
        lemma_spelled_add(a, b.drop_last());
        assert((a + b).drop_last() =~= a + b.drop_last());
        assert(spelled(a) + spelled(b.drop_last()) + spell(b.last()) =~= spelled(a) + (spelled(
            b.drop_last(),
        ) + spell(b.last())));
    }
}

/// Numbers stand among tokens that follow each other as they may only as numbers are
/// written.
pub proof fn lemma_numbers(ts: Seq<Tok>)
    requires
        structured(ts),
    ensures
        forall|i: int|
            0 <= i < ts.len() ==> ((#[trigger] ts[i]) matches Tok::Num(n) ==> is_number(n)),
    decreases ts.len(),
{
    if ts.len() > 0 {
        lemma_numbers(ts.drop_last());
        assert forall|i: int| 0 <= i < ts.len() implies ((#[trigger] ts[i]) matches Tok::Num(n)
            ==> is_number(n)) by {
            if i < ts.len() - 1 {
                assert(ts.drop_last()[i] == ts[i]);
            }
        }
    }
}

/// A number takes as many bytes as it has characters.
proof fn lemma_numeral_len(ts: Seq<Tok>, i: int)
    requires
        structured(ts),
        0 <= i < ts.len(),
    ensures
        ts[i] matches Tok::Num(n) ==> word(n).len() == n.len(),
{
    lemma_numbers(ts);
    if ts[i] is Num {
        let n = ts[i]->Num_0;
        assert(is_number(n));
        assert forall|k: int| 0 <= k < n.len() implies '\0' <= #[trigger] n[k]
            <= '\u{7f}' by {
            if n[0] == '-' {
                if k > 0 {
                    assert(text::is_digit(n.skip(1)[k - 1]));
                }
            } else {
                assert(text::is_digit(n[k]));
            }
        }
        lemma_ascii_word(n);
    }
}

/// How many bytes the spelling of the first `n` tokens takes.
pub fn spelled_len(ts: &Vec<Token>, n: usize, data: &[u8]) -> (len: usize)
    requires
        n <= ts.len(),
        structured(views(ts@)),
        spelled(views(ts@)).is_prefix_of(data@),
    ensures
        len == spelled(views(ts@).take(n as int)).len(),
        len <= data.len(),
{
    let ghost all = views(ts@);
    let mut len: usize = 0;
    let mut i: usize = 0;
    assert(all.take(0) =~= Seq::<Tok>::empty());
    while i < n
        invariant
            i <= n <= ts.len(),
            all == views(ts@),
            structured(all),
            spelled(all).is_prefix_of(data@),
            len == spelled(all.take(i as int)).len(),
            len <= data.len(),
        decreases n - i,
    {
        let ghost t = all[i as int];
        proof {
            assert(all.take(i + 1).drop_last() =~= all.take(i as int));
            assert(all.take(i + 1).last() == t);
            assert(all =~= all.take(i + 1) + all.skip(i + 1));
            lemma_spelled_add(all.take(i + 1), all.skip(i + 1));
            assert(t == ts@[i as int]@);
        }
        match &ts[i] {
            Token::Bytes(b) => {
                let digits = chars_of(&text::decimal_string(b.len() as u64));
                proof {
                    text::lemma_decimal(b@.len());
                    assert forall|k: int| 0 <= k < digits@.len() implies '\0'
                        <= #[trigger] digits@[k] <= '\u{7f}' by {
                        assert(text::is_digit(digits@[k]));
                    }
                    lemma_ascii_word(digits@);
                }
                len = len + digits.len() + 1 + b.len();
            },
            Token::Num(s) => {
                let digits = chars_of(s);
                proof {
                    lemma_numeral_len(all, i as int);
                }
                len = len + digits.len() + 2;
            },
            _ => {
                len += 1;
            },
        }
        i += 1;
    }
    len
}

/// What kind of token it is, in bencode's own words.
pub open spec fn kind(t: Tok) -> Seq<char> {
    match t {
        Tok::List => "List"@,
        Tok::Dict => "Dict"@,
        Tok::Bytes(_) => "String"@,
        Tok::Num(_) => "Num"@,
        Tok::End => "End"@,
    }
}

pub fn kind_of(t: &Token) -> (s: &'static str)
    ensures
        s@ == kind(t@),
{
    match t {
        Token::List => "List",
        Token::Dict => "Dict",
        Token::Bytes(_) => "String",
        Token::Num(_) => "Num",
        Token::End => "End",
    }
}

/// How a token changes how much is open.
pub open spec fn opens(t: Tok) -> int {
    match t {
        Tok::List => 1,
        Tok::Dict => 1,
        Tok::End => -1,
        _ => 0,
    }
}

/// Where `depth` open lists and dictionaries are closed, from `i` on; the end of the tokens
/// where they never are.
pub open spec fn closed_at(ts: Seq<Tok>, i: int, depth: int) -> int
    decreases ts.len() - i,
{
    if depth <= 0 || i < 0 || i >= ts.len() {
        i
    } else {
        closed_at(ts, i + 1, depth + opens(ts[i]))
    }
}

/// Where the value at `i` is over.
pub open spec fn past(ts: Seq<Tok>, i: int) -> int {
    closed_at(ts, i + 1, opens(ts[i]))
}

pub proof fn lemma_closed_at(ts: Seq<Tok>, i: int, depth: int)
    requires
        0 <= i <= ts.len(),
    ensures
        i <= closed_at(ts, i, depth) <= ts.len(),
    decreases ts.len() - i,
{
    if depth > 0 && i < ts.len() {
        lemma_closed_at(ts, i + 1, depth + opens(ts[i]));
    }
}

pub fn past_value(ts: &Vec<Token>, i: usize) -> (j: usize)
    requires
        i < ts.len(),
    ensures
        j == past(views(ts@), i as int),
        i < j <= ts.len(),
{
    let ghost all = views(ts@);
    proof {
        lemma_closed_at(all, i + 1, opens(all[i as int]));
    }
    let mut depth: usize = match &ts[i] {
        Token::List => 1,
        Token::Dict => 1,
        _ => 0,
    };
    let mut j: usize = i + 1;
    assert(past(all, i as int) == closed_at(all, j as int, depth as int));
    while j < ts.len() && depth > 0
        invariant
            i < j <= ts.len(),
            all == views(ts@),
            depth <= j,
            past(all, i as int) == closed_at(all, j as int, depth as int),
        decreases ts.len() - j,
    {
        assert(all[j as int] == ts@[j as int]@);
        match &ts[j] {
            Token::List => {
                depth += 1;
            },
            Token::Dict => {
                depth += 1;
            },
            Token::End => {
                depth -= 1;
            },
            _ => {},
        }
        j += 1;
    }
    j
}

/// The entries of a dictionary, from the key at `i` on: each key, and where its value is.
pub open spec fn entries(ts: Seq<Tok>, i: int) -> Seq<(Seq<u8>, int)>
    decreases ts.len() - i,
{
    if 0 <= i && i + 1 < ts.len() && ts[i] is Bytes {
        proof {
            lemma_closed_at(ts, i + 2, opens(ts[i + 1]));
        }
        seq![(ts[i]->Bytes_0, i + 1)] + entries(ts, past(ts, i + 1))
    } else {
        Seq::empty()
    }
}

/// Where a dictionary stops that is at the key at `i`.
pub open spec fn entries_end(ts: Seq<Tok>, i: int) -> int
    decreases ts.len() - i,
{
    if 0 <= i && i + 1 < ts.len() && ts[i] is Bytes {
        proof {
            lemma_closed_at(ts, i + 2, opens(ts[i + 1]));
        }
        entries_end(ts, past(ts, i + 1))
    } else {
        i
    }
}

/// The items of a list, from the one at `i` on: where each is.
pub open spec fn items(ts: Seq<Tok>, i: int) -> Seq<int>
    decreases ts.len() - i,
{
    if 0 <= i < ts.len() && !(ts[i] is End) {
        proof {
            lemma_closed_at(ts, i + 1, opens(ts[i]));
        }
        seq![i] + items(ts, past(ts, i))
    } else {
        Seq::empty()
    }
}

/// Where a list stops that is at the item at `i`.
pub open spec fn items_end(ts: Seq<Tok>, i: int) -> int
    decreases ts.len() - i,
{
    if 0 <= i < ts.len() && !(ts[i] is End) {
        proof {
            lemma_closed_at(ts, i + 1, opens(ts[i]));
        }
        items_end(ts, past(ts, i))
    } else {
        i
    }
}

/// A list or a dictionary is closed at `i`, and not merely cut short.
pub open spec fn ends(ts: Seq<Tok>, i: int) -> bool {
    0 <= i < ts.len() && ts[i] is End
}

/// The value of a key: of the last entry that has it.
pub open spec fn value_of(es: Seq<(Seq<u8>, int)>, key: Seq<u8>) -> Option<int>
    decreases es.len(),
{
    if es.len() == 0 {
        None
    } else if es.last().0 == key {
        Some(es.last().1)
    } else {
        value_of(es.drop_last(), key)
    }
}

/// The number that is written.
pub open spec fn number_value(s: Seq<char>) -> int {
    if s.len() > 0 && s[0] == '-' {
        -(text::digits_value(s.skip(1)) as int)
    } else {
        text::digits_value(s) as int
    }
}

pub open spec fn fits_i64(n: int) -> bool {
    -0x8000_0000_0000_0000 <= n <= 0x7FFF_FFFF_FFFF_FFFF
}

/// Reads a number, if it fits.
pub fn parse_i64(s: &str) -> (r: Option<i64>)
    requires
        is_number(s@),
    ensures
        match r {
            Some(n) => n == number_value(s@),
            None => !fits_i64(number_value(s@)),
        },
{
    let v = chars_of(s);
    let negative = v.len() > 0 && v[0] == '-';
    let from: usize = if negative {
        1
    } else {
        0
    };
    let max: u64 = if negative {
        0x8000_0000_0000_0000
    } else {
        0x7FFF_FFFF_FFFF_FFFF
    };
    let to: usize = v.len();
    let ghost digits = v@.subrange(from as int, to as int);
    proof {
        if negative {
            assert(digits =~= s@.skip(1));
        } else {
            assert(digits =~= s@);
        }
    }
    match text::parse_number(&v, from, to, max) {
        None => None,
        Some(n) => if negative {
            Some((-(n as i128)) as i64)
        } else {
            Some(n as i64)
        },
    }
}

} // verus!
