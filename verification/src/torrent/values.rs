//! Reading the values of a bencoded file, each with what can be wrong with it.

use super::bencode;
use super::bencode::{kind_of, parse_i64, past_value, unexpected_token, Tok, Token};
use crate::error::Error;
use crate::text;
use crate::text::{chars_of, debug_of, find_first, lossy, push_signed, same};
use vstd::prelude::*;
use vstd::string::*;

verus! {

/// Why a file cannot be read as a torrent.
pub enum Fault {
    /// It is not bencode, or not of the shape it should be.
    Bencode(Seq<char>),
    /// It is bencode, but no torrent.
    Torrent(Seq<char>),
    /// It names a file that could escape the torrent root.
    Unsafe(Seq<char>),
}

/// The error says so, of this file.
pub open spec fn is_fault(e: Error, origin: Seq<char>, f: Fault) -> bool {
    match f {
        Fault::Bencode(said) => e matches Error::Bencode { path, source } && path@ == origin
            && source@ == said,
        Fault::Torrent(detail) => e.is_torrent(origin, detail),
        Fault::Unsafe(detail) => e.is_unsafe_path(origin, detail),
    }
}

pub(crate) fn bencode_error(origin: &str, said: String) -> (e: Error)
    ensures
        is_fault(e, origin@, Fault::Bencode(said@)),
{
    Error::Bencode { path: origin.to_owned(), source: said }
}

pub open spec fn not_a(expected: Seq<char>, t: Tok) -> Fault {
    Fault::Bencode(bencode::unexpected_text(expected, bencode::kind(t)))
}

pub(crate) fn not_a_error(expected: &str, t: &Token, origin: &str) -> (e: Error)
    ensures
        is_fault(e, origin@, not_a(expected@, t@)),
{
    bencode_error(origin, unexpected_token(expected, kind_of(t)))
}

// Strings and numbers.

pub open spec fn text_fault(t: Tok) -> Option<Fault> {
    if t is Bytes {
        None
    } else {
        Some(not_a("String"@, t))
    }
}

/// A byte string as text.
pub open spec fn text_of(t: Tok) -> Seq<char> {
    text::lossy_text(t->Bytes_0)
}

pub(crate) fn read_text(t: &Token, origin: &str) -> (r: Result<String, Error>)
    ensures
        match r {
            Ok(s) => text_fault(t@) is None && s@ == text_of(t@),
            Err(e) => text_fault(t@) matches Some(f) && is_fault(e, origin@, f),
        },
{
    match t {
        Token::Bytes(b) => Ok(lossy(b)),
        _ => Err(not_a_error("String", t, origin)),
    }
}

pub open spec fn integer_fault(t: Tok, what: Seq<char>) -> Option<Fault> {
    match t {
        Tok::Num(n) => if bencode::fits_i64(bencode::number_value(n)) {
            None
        } else {
            Some(Fault::Torrent(what + " "@ + text::debug_text(n) + " is not an integer"@))
        },
        _ => Some(not_a("Num"@, t)),
    }
}

pub open spec fn integer_of(t: Tok) -> int {
    bencode::number_value(t->Num_0)
}

/// Every number is written as numbers are.
pub open spec fn numbers(ts: Seq<Tok>) -> bool {
    forall|i: int| 0 <= i < ts.len() ==> is_numeral(#[trigger] ts[i])
}

pub open spec fn is_numeral(t: Tok) -> bool {
    t matches Tok::Num(n) ==> bencode::is_number(n)
}

pub(crate) fn read_integer(t: &Token, origin: &str, what: &str) -> (r: Result<i64, Error>)
    requires
        is_numeral(t@),
    ensures
        match r {
            Ok(n) => integer_fault(t@, what@) is None && n == integer_of(t@),
            Err(e) => integer_fault(t@, what@) matches Some(f) && is_fault(e, origin@, f),
        },
{
    match t {
        Token::Num(n) => match parse_i64(n) {
            Some(i) => Ok(i),
            None => {
                let mut d = what.to_owned();
                d.append(" ");
                d.append(&debug_of(n));
                d.append(" is not an integer");
                Err(Error::torrent(origin, &d))
            },
        },
        _ => Err(not_a_error("Num", t, origin)),
    }
}

pub open spec fn unsigned_fault(t: Tok, what: Seq<char>) -> Option<Fault> {
    if integer_fault(t, what) is None && integer_of(t) < 0 {
        Some(Fault::Torrent(what + " is negative: "@ + text::signed_decimal(integer_of(t))))
    } else {
        integer_fault(t, what)
    }
}

pub(crate) fn read_unsigned(t: &Token, origin: &str, what: &str) -> (r: Result<u64, Error>)
    requires
        is_numeral(t@),
    ensures
        match r {
            Ok(n) => unsigned_fault(t@, what@) is None && n == integer_of(t@),
            Err(e) => unsigned_fault(t@, what@) matches Some(f) && is_fault(e, origin@, f),
        },
{
    let n = read_integer(t, origin, what)?;
    if n < 0 {
        let mut d = what.to_owned();
        d.append(" is negative: ");
        push_signed(&mut d, n);
        return Err(Error::torrent(origin, &d));
    }
    Ok(n as u64)
}

// Lists.

/// What is wrong with a list of strings, from the item at `i` on. `cut` is what is said
/// where the file stops before the list does.
pub open spec fn texts_fault(ts: Seq<Tok>, cut: Seq<char>, i: int) -> Option<Fault>
    decreases ts.len() - i,
{
    if 0 <= i < ts.len() && !(ts[i] is End) {
        proof {
            bencode::lemma_closed_at(ts, i + 1, bencode::opens(ts[i]));
        }
        match text_fault(ts[i]) {
            Some(f) => Some(f),
            None => texts_fault(ts, cut, bencode::past(ts, i)),
        }
    } else if bencode::ends(ts, i) {
        None
    } else {
        Some(Fault::Bencode(cut))
    }
}

pub open spec fn strings_fault(ts: Seq<Tok>, cut: Seq<char>, i: int) -> Option<Fault> {
    if ts[i] is List {
        texts_fault(ts, cut, i + 1)
    } else {
        Some(not_a("List"@, ts[i]))
    }
}

/// The strings of the list at `i`.
pub open spec fn strings_at(ts: Seq<Tok>, i: int) -> Seq<Seq<char>> {
    bencode::items(ts, i + 1).map_values(|j: int| text_of(ts[j]))
}

pub(crate) fn read_strings(ts: &Vec<Token>, cut: &str, i: usize, origin: &str) -> (r: Result<
    Vec<String>,
    Error,
>)
    requires
        i < ts.len(),
    ensures
        match r {
            Ok(l) => strings_fault(bencode::views(ts@), cut@, i as int) is None && text::views(l@)
                == strings_at(bencode::views(ts@), i as int),
            Err(e) => strings_fault(bencode::views(ts@), cut@, i as int) matches Some(f)
                && is_fault(e, origin@, f),
        },
{
    let ghost all = bencode::views(ts@);
    assert(all[i as int] == ts@[i as int]@);
    match &ts[i] {
        Token::List => {},
        _ => {
            return Err(not_a_error("List", &ts[i], origin));
        },
    }
    let mut out: Vec<String> = Vec::new();
    let mut j: usize = i + 1;
    let ghost mut done: Seq<int> = Seq::empty();
    assert(text::views(out@) =~= done.map_values(|j: int| text_of(all[j])));
    assert(done + bencode::items(all, i + 1) =~= bencode::items(all, i + 1));
    loop
        invariant_except_break
            i < j <= ts.len(),
            all == bencode::views(ts@),
            all[i as int] is List,
            texts_fault(all, cut@, i + 1) == texts_fault(all, cut@, j as int),
            bencode::items(all, i + 1) == done + bencode::items(all, j as int),
            text::views(out@) == done.map_values(|j: int| text_of(all[j])),
        ensures
            texts_fault(all, cut@, i + 1) is None,
            bencode::items(all, i + 1) == done,
            text::views(out@) == done.map_values(|j: int| text_of(all[j])),
        decreases ts.len() - j,
    {
        if j >= ts.len() {
            return Err(bencode_error(origin, cut.to_owned()));
        }
        assert(all[j as int] == ts@[j as int]@);
        match &ts[j] {
            Token::End => {
                assert(done + bencode::items(all, j as int) =~= done);
                break;
            },
            _ => {},
        }
        let s = read_text(&ts[j], origin)?;
        let ghost before = out@;
        out.push(s);
        let ghost old_done = done;
        proof {
            done = done.push(j as int);
            assert(old_done + (seq![j as int] + bencode::items(
                all,
                bencode::past(all, j as int),
            )) =~= done + bencode::items(all, bencode::past(all, j as int)));
            assert(text::views(out@) =~= text::views(before).push(s@));
            assert(done.map_values(|j: int| text_of(all[j])) =~= old_done.map_values(
                |j: int| text_of(all[j]),
            ).push(text_of(all[j as int])));
        }
        j = past_value(ts, j);
    }
    Ok(out)
}

/// A tier without empty and repeated URLs.
pub open spec fn cleaned(urls: Seq<Seq<char>>) -> Seq<Seq<char>>
    decreases urls.len(),
{
    if urls.len() == 0 {
        Seq::empty()
    } else {
        let front = cleaned(urls.drop_last());
        if urls.last().len() > 0 && !front.contains(urls.last()) {
            front.push(urls.last())
        } else {
            front
        }
    }
}

pub fn contains_text(list: &Vec<String>, s: &str) -> (b: bool)
    ensures
        b == text::views(list@).contains(s@),
{
    let mut i: usize = 0;
    while i < list.len()
        invariant
            i <= list.len(),
            forall|k: int| 0 <= k < i ==> (#[trigger] list@[k])@ != s@,
        decreases list.len() - i,
    {
        if same(&list[i], s) {
            assert(text::views(list@)[i as int] == s@);
            return true;
        }
        i += 1;
    }
    proof {
        if text::views(list@).contains(s@) {
            let k = choose|k: int|
                0 <= k < text::views(list@).len() && text::views(list@)[k] == s@;
            assert(list@[k]@ == s@);
        }
    }
    false
}

fn clean(urls: Vec<String>) -> (out: Vec<String>)
    ensures
        text::views(out@) == cleaned(text::views(urls@)),
{
    let ghost all = text::views(urls@);
    let mut out: Vec<String> = Vec::new();
    let mut i: usize = 0;
    assert(text::views(out@) =~= cleaned(all.take(0)));
    while i < urls.len()
        invariant
            i <= urls.len(),
            all == text::views(urls@),
            text::views(out@) == cleaned(all.take(i as int)),
        decreases urls.len() - i,
    {
        let url: &str = urls[i].as_str();
        assert(all.take(i + 1).drop_last() =~= all.take(i as int));
        assert(all.take(i + 1).last() == url@);
        if !url.is_empty() && !contains_text(&out, url) {
            let ghost before = out@;
            out.push(url.to_owned());
            assert(text::views(out@) =~= text::views(before).push(url@));
        }
        i += 1;
    }
    assert(all.take(urls.len() as int) =~= all);
    out
}

/// The tiers that are left once each is cleaned and the empty ones are dropped.
pub open spec fn kept_tiers(tiers: Seq<Seq<Seq<char>>>) -> Seq<Seq<Seq<char>>>
    decreases tiers.len(),
{
    if tiers.len() == 0 {
        Seq::empty()
    } else {
        let urls = cleaned(tiers.last());
        if urls.len() > 0 {
            kept_tiers(tiers.drop_last()).push(urls)
        } else {
            kept_tiers(tiers.drop_last())
        }
    }
}

/// What is wrong with a list of lists of strings, from the list at `i` on.
pub open spec fn lists_fault(ts: Seq<Tok>, cut: Seq<char>, i: int) -> Option<Fault>
    decreases ts.len() - i,
{
    if 0 <= i < ts.len() && !(ts[i] is End) {
        proof {
            bencode::lemma_closed_at(ts, i + 1, bencode::opens(ts[i]));
        }
        match strings_fault(ts, cut, i) {
            Some(f) => Some(f),
            None => lists_fault(ts, cut, bencode::past(ts, i)),
        }
    } else if bencode::ends(ts, i) {
        None
    } else {
        Some(Fault::Bencode(cut))
    }
}

pub open spec fn tiers_fault(ts: Seq<Tok>, cut: Seq<char>, i: int) -> Option<Fault> {
    if ts[i] is List {
        lists_fault(ts, cut, i + 1)
    } else {
        Some(not_a("List"@, ts[i]))
    }
}

/// The lists of strings of the list at `i`.
pub open spec fn lists_at(ts: Seq<Tok>, i: int) -> Seq<Seq<Seq<char>>> {
    bencode::items(ts, i + 1).map_values(|j: int| strings_at(ts, j))
}

/// The views of a list of lists of strings.
pub open spec fn tier_views(tiers: Seq<Vec<String>>) -> Seq<Seq<Seq<char>>> {
    tiers.map_values(|t: Vec<String>| text::views(t@))
}

pub(crate) fn read_tiers(ts: &Vec<Token>, cut: &str, i: usize, origin: &str) -> (r: Result<
    Vec<Vec<String>>,
    Error,
>)
    requires
        i < ts.len(),
    ensures
        match r {
            Ok(l) => tiers_fault(bencode::views(ts@), cut@, i as int) is None && tier_views(l@)
                == kept_tiers(lists_at(bencode::views(ts@), i as int)),
            Err(e) => tiers_fault(bencode::views(ts@), cut@, i as int) matches Some(f)
                && is_fault(e, origin@, f),
        },
{
    let ghost all = bencode::views(ts@);
    assert(all[i as int] == ts@[i as int]@);
    match &ts[i] {
        Token::List => {},
        _ => {
            return Err(not_a_error("List", &ts[i], origin));
        },
    }
    let mut out: Vec<Vec<String>> = Vec::new();
    let mut j: usize = i + 1;
    let ghost mut done: Seq<int> = Seq::empty();
    assert(tier_views(out@) =~= kept_tiers(done.map_values(|j: int| strings_at(all, j))));
    assert(done + bencode::items(all, i + 1) =~= bencode::items(all, i + 1));
    loop
        invariant_except_break
            i < j <= ts.len(),
            all == bencode::views(ts@),
            all[i as int] is List,
            lists_fault(all, cut@, i + 1) == lists_fault(all, cut@, j as int),
            bencode::items(all, i + 1) == done + bencode::items(all, j as int),
            tier_views(out@) == kept_tiers(done.map_values(|j: int| strings_at(all, j))),
        ensures
            lists_fault(all, cut@, i + 1) is None,
            bencode::items(all, i + 1) == done,
            tier_views(out@) == kept_tiers(done.map_values(|j: int| strings_at(all, j))),
        decreases ts.len() - j,
    {
        if j >= ts.len() {
            return Err(bencode_error(origin, cut.to_owned()));
        }
        assert(all[j as int] == ts@[j as int]@);
        match &ts[j] {
            Token::End => {
                assert(done + bencode::items(all, j as int) =~= done);
                break;
            },
            _ => {},
        }
        let urls = read_strings(ts, cut, j, origin)?;
        let urls = clean(urls);
        let ghost old_done = done;
        proof {
            done = done.push(j as int);
            assert(old_done + (seq![j as int] + bencode::items(
                all,
                bencode::past(all, j as int),
            )) =~= done + bencode::items(all, bencode::past(all, j as int)));
            let lists = done.map_values(|j: int| strings_at(all, j));
            assert(lists.drop_last() =~= old_done.map_values(|j: int| strings_at(all, j)));
            assert(lists.last() == strings_at(all, j as int));
        }
        if urls.len() > 0 {
            let ghost before = out@;
            let ghost u = text::views(urls@);
            out.push(urls);
            assert(tier_views(out@) =~= tier_views(before).push(u));
        }
        j = past_value(ts, j);
    }
    Ok(out)
}

// Path components.

/// Anything that could escape the torrent root when joined to a real folder.
pub open spec fn component_fault(c: Seq<char>, what: Seq<char>) -> Option<Fault> {
    if c.len() == 0 {
        Some(Fault::Unsafe(what + " is empty"@))
    } else if c == "."@ || c == ".."@ {
        Some(Fault::Unsafe(what + " is "@ + text::debug_text(c)))
    } else if c.contains('/') || c.contains('\\') {
        Some(
            Fault::Unsafe(what + " "@ + text::debug_text(c) + " contains a path separator"@),
        )
    } else if c.contains('\0') {
        Some(Fault::Unsafe(what + " "@ + text::debug_text(c) + " contains a NUL byte"@))
    } else {
        None
    }
}

fn has_char(v: &Vec<char>, c: char) -> (b: bool)
    ensures
        b == v@.contains(c),
{
    proof {
        text::lemma_first_at(v@, c);
    }
    let i: usize = find_first(v, c);
    let r = i < v.len();
    proof {
        if r {
            assert(v@[i as int] == c);
        } else if v@.contains(c) {
            let k = choose|k: int| 0 <= k < v@.len() && v@[k] == c;
            assert(v@[k] != c);
        }
    }
    r
}

/// Refuses a path component that could escape the torrent root. It happens here, as a
/// torrent is read, so that an unsafe file is never so much as described.
pub fn validate_component(c: &str, origin: &str, what: &str) -> (r: Result<(), Error>)
    ensures
        match r {
            Ok(_) => component_fault(c@, what@) is None,
            Err(e) => component_fault(c@, what@) matches Some(f) && is_fault(e, origin@, f),
        },
{
    let mut d = what.to_owned();
    if c.is_empty() {
        d.append(" is empty");
        return Err(Error::unsafe_path(origin, &d));
    }
    if same(c, ".") || same(c, "..") {
        d.append(" is ");
        d.append(&debug_of(c));
        return Err(Error::unsafe_path(origin, &d));
    }
    let v = chars_of(c);
    if has_char(&v, '/') || has_char(&v, '\\') {
        d.append(" ");
        d.append(&debug_of(c));
        d.append(" contains a path separator");
        return Err(Error::unsafe_path(origin, &d));
    }
    if has_char(&v, '\0') {
        d.append(" ");
        d.append(&debug_of(c));
        d.append(" contains a NUL byte");
        return Err(Error::unsafe_path(origin, &d));
    }
    Ok(())
}

/// What is wrong with the components of a path: with the first that is not safe.
pub open spec fn components_fault(cs: Seq<Seq<char>>) -> Option<Fault>
    decreases cs.len(),
{
    if cs.len() == 0 {
        None
    } else {
        match component_fault(cs[0], "path component"@) {
            Some(f) => Some(f),
            None => components_fault(cs.drop_first()),
        }
    }
}

} // verus!
