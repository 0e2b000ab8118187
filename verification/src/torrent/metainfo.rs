//! Reading torrent files, and computing the infohash.

use super::bencode;
use super::bencode::{past_value, spelled_len, tokens, Tok, Token};
use super::encode;
use super::values;
use super::values::{
    bencode_error, contains_text, not_a_error, read_integer, read_strings, read_text, read_tiers,
    read_unsigned, validate_component, Fault,
};
use crate::bytes::{copy_range, same_bytes};
use crate::digest;
use crate::digest::{hex_encode, sha1_of};
use crate::error::Error;
use crate::seqs;
use crate::text;
use crate::text::{chars_of, decimal_string, join_strings, push_decimal, same};
use vstd::prelude::*;
use vstd::string::*;

verus! {

/// Guards against a file that claims an absurd piece size. Real torrents run from 16 KiB to
/// 16 MiB; anything past a gibibyte is not a torrent worth allocating for.
pub const MAX_PIECE_LENGTH: u64 = 0x4000_0000;

#[derive(Debug, Clone, PartialEq, Eq)]
pub struct TorrentFile {
    /// Path components, relative to the torrent root, each of which is safe to join.
    pub path: Vec<String>,
    pub length: u64,
    /// Padding: zero bytes contributed to the stream that never exist on disk.
    pub is_pad: bool,
}

impl TorrentFile {
    pub fn display_path(&self) -> (s: String)
        ensures
            s@ == text::join(text::views(self.path@), "/"@),
    {
        join_strings(&self.path, "/")
    }
}

#[derive(Debug, Clone)]
pub struct Metainfo {
    /// SHA-1 of the bencoded `info` dictionary, taken from its original bytes.
    pub info_hash: [u8; 20],
    pub name: String,
    pub piece_length: u64,
    pub pieces: Vec<[u8; 20]>,
    /// Every file in stream order, padding included. Padding is flagged, never hidden.
    pub files: Vec<TorrentFile>,
    pub total_length: u64,
    /// Single-file torrents have no root directory; `name` is the file itself.
    pub is_single_file: bool,
    /// Lives inside `info`, so it is part of the infohash: a torrent cannot be made private
    /// after the fact, only made into a different torrent.
    pub private: bool,
    /// Some private sites require this to make the infohash uniquely theirs.
    pub source: Option<String>,
    /// Tracker tiers. Clients choose at random within a tier and fall through between tiers,
    /// so the nesting carries meaning and is kept rather than flattened.
    pub announce: Vec<Vec<String>>,
    pub comment: Option<String>,
    pub created_by: Option<String>,
    pub creation_date: Option<i64>,
}

// The files of a torrent.

/// What is wrong with one entry of a file's dictionary.
pub open spec fn file_entry_fault(ts: Seq<Tok>, cut: Seq<char>, key: Seq<u8>, i: int) -> Option<
    Fault,
> {
    if key == bencode::word("length"@) {
        values::unsigned_fault(ts[i], "file length"@)
    } else if key == bencode::word("attr"@) {
        values::text_fault(ts[i])
    } else if key == bencode::word("path"@) {
        if values::strings_fault(ts, cut, i) is Some {
            values::strings_fault(ts, cut, i)
        } else if values::strings_at(ts, i).len() == 0 {
            Some(Fault::Torrent("file entry has an empty path"@))
        } else {
            values::components_fault(values::strings_at(ts, i))
        }
    } else {
        None
    }
}

/// What is wrong with the entries of a file's dictionary, from the one at `i` on.
pub open spec fn file_entries_fault(ts: Seq<Tok>, cut: Seq<char>, i: int) -> Option<Fault>
    decreases ts.len() - i,
{
    if 0 <= i && i + 1 < ts.len() && ts[i] is Bytes {
        proof {
            bencode::lemma_closed_at(ts, i + 2, bencode::opens(ts[i + 1]));
        }
        match file_entry_fault(ts, cut, ts[i]->Bytes_0, i + 1) {
            Some(f) => Some(f),
            None => file_entries_fault(ts, cut, bencode::past(ts, i + 1)),
        }
    } else if bencode::ends(ts, i) {
        None
    } else {
        Some(Fault::Bencode(cut))
    }
}

/// The value of a key of the dictionary at `i`.
pub open spec fn field(ts: Seq<Tok>, i: int, key: Seq<char>) -> Option<int> {
    bencode::value_of(bencode::entries(ts, i + 1), bencode::word(key))
}

pub open spec fn file_fault(ts: Seq<Tok>, cut: Seq<char>, i: int) -> Option<Fault> {
    if !(ts[i] is Dict) {
        Some(values::not_a("Dict"@, ts[i]))
    } else if file_entries_fault(ts, cut, i + 1) is Some {
        file_entries_fault(ts, cut, i + 1)
    } else if field(ts, i, "length"@) is None {
        Some(Fault::Torrent("file entry has no length"@))
    } else if field(ts, i, "path"@) is None {
        Some(Fault::Torrent("file entry has no path"@))
    } else {
        None
    }
}

pub open spec fn starts_with(s: Seq<char>, prefix: Seq<char>) -> bool {
    prefix.is_prefix_of(s)
}

/// Names that mark padding by convention: a heuristic, but the alternative is to treat
/// padding as a missing file and report a good download as broken.
pub open spec fn named_like_padding(path: Seq<Seq<char>>) -> bool {
    path.len() > 0 && (path[0] == ".pad"@ || starts_with(path.last(), "_____padding_file"@))
}

/// Where the `attr` of a file says so, it is padding.
pub open spec fn marked_as_padding(ts: Seq<Tok>, i: int) -> bool {
    field(ts, i, "attr"@) matches Some(p) && ts[p]->Bytes_0.contains(112u8)
}

/// It is the file that the dictionary at `i` describes.
pub open spec fn is_file(f: TorrentFile, ts: Seq<Tok>, i: int) -> bool {
    &&& field(ts, i, "path"@) matches Some(p) && text::views(f.path@) == values::strings_at(ts, p)
    &&& field(ts, i, "length"@) matches Some(p) && f.length == values::integer_of(ts[p])
    &&& f.is_pad == (marked_as_padding(ts, i) || named_like_padding(text::views(f.path@)))
}

/// What is wrong with a list of files, from the one at `i` on.
pub open spec fn files_from_fault(ts: Seq<Tok>, cut: Seq<char>, i: int) -> Option<Fault>
    decreases ts.len() - i,
{
    if 0 <= i < ts.len() && !(ts[i] is End) {
        proof {
            bencode::lemma_closed_at(ts, i + 1, bencode::opens(ts[i]));
        }
        match file_fault(ts, cut, i) {
            Some(f) => Some(f),
            None => files_from_fault(ts, cut, bencode::past(ts, i)),
        }
    } else if bencode::ends(ts, i) {
        None
    } else {
        Some(Fault::Bencode(cut))
    }
}

pub open spec fn files_fault(ts: Seq<Tok>, cut: Seq<char>, i: int) -> Option<Fault> {
    if ts[i] is List {
        files_from_fault(ts, cut, i + 1)
    } else {
        Some(values::not_a("List"@, ts[i]))
    }
}

/// They are the files that these dictionaries describe.
pub open spec fn are_files(files: Seq<TorrentFile>, ts: Seq<Tok>, at: Seq<int>) -> bool {
    &&& files.len() == at.len()
    &&& forall|k: int| 0 <= k < at.len() ==> is_file(#[trigger] files[k], ts, at[k])
}

/// The value of a key of the dictionary at `i`.
fn find(ts: &Vec<Token>, i: usize, key: &str) -> (r: Option<usize>)
    requires
        i < ts.len(),
    ensures
        match r {
            Some(p) => i < p < ts.len() && field(bencode::views(ts@), i as int, key@) == Some(
                p as int,
            ),
            None => field(bencode::views(ts@), i as int, key@) is None,
        },
{
    let ghost all = bencode::views(ts@);
    let ghost es = bencode::entries(all, i + 1);
    let ghost mut done: Seq<(Seq<u8>, int)> = Seq::empty();
    let mut found: Option<usize> = None;
    let mut j: usize = i + 1;
    assert(done + es =~= es);
    while j < ts.len() && j + 1 < ts.len()
        invariant
            i < j <= ts.len(),
            all == bencode::views(ts@),
            es == bencode::entries(all, i + 1),
            es == done + bencode::entries(all, j as int),
            match found {
                Some(p) => i < p < ts.len() && bencode::value_of(done, bencode::word(key@))
                    == Some(p as int),
                None => bencode::value_of(done, bencode::word(key@)) is None,
            },
        decreases ts.len() - j,
    {
        assert(all[j as int] == ts@[j as int]@);
        match &ts[j] {
            Token::Bytes(k) => {
                let ghost old_done = done;
                proof {
                    done = done.push((k@, j + 1));
                    assert(done.drop_last() =~= old_done);
                    assert(old_done + (seq![(k@, j + 1)] + bencode::entries(
                        all,
                        bencode::past(all, j + 1),
                    )) =~= done + bencode::entries(all, bencode::past(all, j + 1)));
                }
                if same_bytes(k, key.as_bytes()) {
                    found = Some(j + 1);
                }
                j = past_value(ts, j + 1);
            },
            _ => {
                assert(bencode::entries(all, j as int) =~= Seq::empty());
                assert(es =~= done);
                return found;
            },
        }
    }
    assert(bencode::entries(all, j as int) =~= Seq::empty());
    assert(es =~= done);
    found
}

/// A value that a key has stands in the entries.
proof fn lemma_value_of(es: Seq<(Seq<u8>, int)>, key: Seq<u8>)
    ensures
        bencode::value_of(es, key) matches Some(p) ==> es.contains((key, p)),
    decreases es.len(),
{
    if es.len() > 0 {
        if es.last().0 == key {
            assert(es[es.len() - 1] == (key, es.last().1));
        } else {
            lemma_value_of(es.drop_last(), key);
            if bencode::value_of(es.drop_last(), key) is Some {
                let p = bencode::value_of(es.drop_last(), key)->0;
                let k = choose|k: int|
                    0 <= k < es.drop_last().len() && es.drop_last()[k] == (key, p);
                assert(es[k] == (key, p));
            }
        }
    }
}

/// Where nothing is wrong with the entries of a file, nothing is wrong with any.
proof fn lemma_file_entries(ts: Seq<Tok>, cut: Seq<char>, i: int)
    requires
        0 <= i <= ts.len(),
        file_entries_fault(ts, cut, i) is None,
    ensures
        forall|k: int|
            0 <= k < bencode::entries(ts, i).len() ==> {
                let e = #[trigger] bencode::entries(ts, i)[k];
                i < e.1 < ts.len() && file_entry_fault(ts, cut, e.0, e.1) is None
            },
    decreases ts.len() - i,
{
    if i + 1 < ts.len() && ts[i] is Bytes {
        bencode::lemma_closed_at(ts, i + 2, bencode::opens(ts[i + 1]));
        let next = bencode::past(ts, i + 1);
        lemma_file_entries(ts, cut, next);
        let es = bencode::entries(ts, i);
        assert(es == seq![(ts[i]->Bytes_0, i + 1)] + bencode::entries(ts, next));
        assert forall|k: int| 0 <= k < es.len() implies {
            let e = #[trigger] es[k];
            i < e.1 < ts.len() && file_entry_fault(ts, cut, e.0, e.1) is None
        } by {
            if k > 0 {
                assert(es[k] == bencode::entries(ts, next)[k - 1]);
            }
        }
    }
}

/// Checks one entry of a file's dictionary.
fn check_file_entry(ts: &Vec<Token>, cut: &str, key: &Vec<u8>, i: usize, origin: &str) -> (r:
    Result<(), Error>)
    requires
        i < ts.len(),
        values::numbers(bencode::views(ts@)),
    ensures
        ({
            let fault = file_entry_fault(bencode::views(ts@), cut@, key@, i as int);
            match r {
                Ok(_) => fault is None,
                Err(e) => fault matches Some(f) && values::is_fault(e, origin@, f),
            }
        }),
{
    let ghost all = bencode::views(ts@);
    assert(all[i as int] == ts@[i as int]@);
    assert(values::is_numeral(all[i as int]));
    if same_bytes(key, "length".as_bytes()) {
        read_unsigned(&ts[i], origin, "file length")?;
    } else if same_bytes(key, "attr".as_bytes()) {
        read_text(&ts[i], origin)?;
    } else if same_bytes(key, "path".as_bytes()) {
        let components = read_strings(ts, cut, i, origin)?;
        let ghost cs = text::views(components@);
        if components.len() == 0 {
            return Err(Error::torrent(origin, "file entry has an empty path"));
        }
        let mut k: usize = 0;
        assert(cs.skip(0) =~= cs);
        while k < components.len()
            invariant
                k <= components.len(),
                components.len() > 0,
                i < ts.len(),
                all == bencode::views(ts@),
                cs == text::views(components@),
                file_entry_fault(all, cut@, key@, i as int) == values::components_fault(cs),
                values::components_fault(cs) == values::components_fault(cs.skip(k as int)),
            decreases components.len() - k,
        {
            assert(cs.skip(k as int)[0] == components@[k as int]@);
            assert(cs.skip(k as int).drop_first() =~= cs.skip(k + 1));
            validate_component(&components[k], origin, "path component")?;
            k += 1;
        }
    }
    Ok(())
}

/// Whether a text begins with another.
pub fn begins(s: &str, prefix: &str) -> (b: bool)
    ensures
        b == starts_with(s@, prefix@),
{
    let v = chars_of(s);
    let p = chars_of(prefix);
    if p.len() > v.len() {
        return false;
    }
    let mut i: usize = 0;
    while i < p.len()
        invariant
            i <= p.len() <= v.len(),
            v@ == s@,
            p@ == prefix@,
            forall|k: int| 0 <= k < i ==> p@[k] == v@[k],
        decreases p.len() - i,
    {
        if p[i] != v[i] {
            assert(s@.subrange(0, p@.len() as int)[i as int] == s@[i as int]);
            return false;
        }
        i += 1;
    }
    assert(p@ =~= s@.subrange(0, p@.len() as int));
    true
}

fn has_byte(data: &Vec<u8>, b: u8) -> (r: bool)
    ensures
        r == data@.contains(b),
{
    let mut i: usize = 0;
    while i < data.len()
        invariant
            i <= data.len(),
            forall|k: int| 0 <= k < i ==> data@[k] != b,
        decreases data.len() - i,
    {
        if data[i] == b {
            assert(data@[i as int] == b);
            return true;
        }
        i += 1;
    }
    false
}

fn read_file(ts: &Vec<Token>, cut: &str, i: usize, origin: &str) -> (r: Result<TorrentFile, Error>)
    requires
        i < ts.len(),
        values::numbers(bencode::views(ts@)),
    ensures
        ({
            let fault = file_fault(bencode::views(ts@), cut@, i as int);
            match r {
                Ok(f) => fault is None && is_file(f, bencode::views(ts@), i as int),
                Err(e) => fault matches Some(f) && values::is_fault(e, origin@, f),
            }
        }),
{
    let ghost all = bencode::views(ts@);
    assert(all[i as int] == ts@[i as int]@);
    match &ts[i] {
        Token::Dict => {},
        _ => {
            return Err(not_a_error("Dict", &ts[i], origin));
        },
    }
    let mut j: usize = i + 1;
    loop
        invariant_except_break
            i < j <= ts.len(),
            all == bencode::views(ts@),
            all[i as int] is Dict,
            values::numbers(all),
            file_entries_fault(all, cut@, i + 1) == file_entries_fault(all, cut@, j as int),
        ensures
            file_entries_fault(all, cut@, i + 1) is None,
        decreases ts.len() - j,
    {
        if j >= ts.len() {
            return Err(bencode_error(origin, cut.to_owned()));
        }
        assert(all[j as int] == ts@[j as int]@);
        match &ts[j] {
            Token::Bytes(key) => {
                if j + 1 >= ts.len() {
                    return Err(bencode_error(origin, cut.to_owned()));
                }
                check_file_entry(ts, cut, key, j + 1, origin)?;
                j = past_value(ts, j + 1);
            },
            Token::End => {
                break;
            },
            _ => {
                return Err(bencode_error(origin, cut.to_owned()));
            },
        }
    }
    let ghost es = bencode::entries(all, i + 1);
    proof {
        lemma_file_entries(all, cut@, i + 1);
        lemma_value_of(es, bencode::word("length"@));
        lemma_value_of(es, bencode::word("attr"@));
        lemma_value_of(es, bencode::word("path"@));
        lemma_file_keys();
    }
    let length = match find(ts, i, "length") {
        Some(p) => {
            proof {
                let k = choose|k: int|
                    0 <= k < es.len() && es[k] == (bencode::word("length"@), p as int);
                assert(file_entry_fault(all, cut@, es[k].0, es[k].1) is None);
                assert(all[p as int] == ts@[p as int]@);
                assert(values::is_numeral(all[p as int]));
            }
            read_unsigned(&ts[p], origin, "file length")?
        },
        None => {
            return Err(Error::torrent(origin, "file entry has no length"));
        },
    };
    let path = match find(ts, i, "path") {
        Some(p) => {
            proof {
                let k = choose|k: int|
                    0 <= k < es.len() && es[k] == (bencode::word("path"@), p as int);
                assert(file_entry_fault(all, cut@, es[k].0, es[k].1) is None);
            }
            read_strings(ts, cut, p, origin)?
        },
        None => {
            return Err(Error::torrent(origin, "file entry has no path"));
        },
    };
    let mut is_pad = false;
    match find(ts, i, "attr") {
        Some(p) => {
            proof {
                let k = choose|k: int|
                    0 <= k < es.len() && es[k] == (bencode::word("attr"@), p as int);
                assert(file_entry_fault(all, cut@, es[k].0, es[k].1) is None);
                assert(all[p as int] == ts@[p as int]@);
            }
            match &ts[p] {
                Token::Bytes(b) => {
                    is_pad = has_byte(b, 112);
                },
                _ => {},
            }
        },
        None => {},
    }
    let ghost components = text::views(path@);
    if !is_pad && path.len() > 0 {
        assert(components[0] == path@[0]@ && components.last() == path@[path@.len() - 1]@);
        is_pad = same(&path[0], ".pad") || begins(&path[path.len() - 1], "_____padding_file");
    }
    Ok(TorrentFile { path, length, is_pad })
}

/// The keys of a file's dictionary are three.
pub proof fn lemma_file_keys()
    ensures
        bencode::word("length"@) != bencode::word("attr"@),
        bencode::word("length"@) != bencode::word("path"@),
        bencode::word("attr"@) != bencode::word("path"@),
{
    reveal_strlit("length");
    reveal_strlit("attr");
    reveal_strlit("path");
    vstd::utf8::encode_utf8_decode_utf8("length"@);
    vstd::utf8::encode_utf8_decode_utf8("attr"@);
    vstd::utf8::encode_utf8_decode_utf8("path"@);
    assert("attr"@[0] != "path"@[0]);
    assert("length"@.len() != "attr"@.len());
    assert("length"@.len() != "path"@.len());
}

fn read_files(ts: &Vec<Token>, cut: &str, i: usize, origin: &str) -> (r: Result<
    Vec<TorrentFile>,
    Error,
>)
    requires
        i < ts.len(),
        values::numbers(bencode::views(ts@)),
    ensures
        ({
            let all = bencode::views(ts@);
            match r {
                Ok(files) => files_fault(all, cut@, i as int) is None && are_files(
                    files@,
                    all,
                    bencode::items(all, i + 1),
                ),
                Err(e) => files_fault(all, cut@, i as int) matches Some(f) && values::is_fault(
                    e,
                    origin@,
                    f,
                ),
            }
        }),
{
    let ghost all = bencode::views(ts@);
    assert(all[i as int] == ts@[i as int]@);
    match &ts[i] {
        Token::List => {},
        _ => {
            return Err(not_a_error("List", &ts[i], origin));
        },
    }
    let mut out: Vec<TorrentFile> = Vec::new();
    let mut j: usize = i + 1;
    let ghost mut done: Seq<int> = Seq::empty();
    assert(done + bencode::items(all, i + 1) =~= bencode::items(all, i + 1));
    loop
        invariant_except_break
            i < j <= ts.len(),
            all == bencode::views(ts@),
            all[i as int] is List,
            values::numbers(all),
            files_from_fault(all, cut@, i + 1) == files_from_fault(all, cut@, j as int),
            bencode::items(all, i + 1) == done + bencode::items(all, j as int),
            are_files(out@, all, done),
        ensures
            files_from_fault(all, cut@, i + 1) is None,
            bencode::items(all, i + 1) == done,
            are_files(out@, all, done),
        decreases ts.len() - j,
    {
        if j >= ts.len() {
            return Err(bencode_error(origin, cut.to_owned()));
        }
        assert(all[j as int] == ts@[j as int]@);
        match &ts[j] {
            Token::End => {
                assert(done + bencode::items(all, j as int) =~= done);
                break;
            },
            _ => {},
        }
        let f = read_file(ts, cut, j, origin)?;
        out.push(f);
        proof {
            let old_done = done;
            done = done.push(j as int);
            assert(old_done + (seq![j as int] + bencode::items(
                all,
                bencode::past(all, j as int),
            )) =~= done + bencode::items(all, bencode::past(all, j as int)));
        }
        j = past_value(ts, j);
    }
    Ok(out)
}

// The info dictionary.

/// What is wrong with one entry of the info dictionary.
pub open spec fn info_entry_fault(ts: Seq<Tok>, cut: Seq<char>, key: Seq<u8>, i: int) -> Option<
    Fault,
> {
    if key == bencode::word("name"@) {
        values::text_fault(ts[i])
    } else if key == bencode::word("piece length"@) {
        values::unsigned_fault(ts[i], "piece length"@)
    } else if key == bencode::word("pieces"@) {
        values::text_fault(ts[i])
    } else if key == bencode::word("length"@) {
        values::unsigned_fault(ts[i], "length"@)
    } else if key == bencode::word("files"@) {
        files_fault(ts, cut, i)
    } else if key == bencode::word("meta version"@) {
        values::integer_fault(ts[i], "meta version"@)
    } else if key == bencode::word("private"@) {
        values::integer_fault(ts[i], "private"@)
    } else if key == bencode::word("source"@) {
        values::text_fault(ts[i])
    } else {
        None
    }
}

/// What is wrong with the entries of the info dictionary, from the one at `i` on.
pub open spec fn info_entries_fault(ts: Seq<Tok>, cut: Seq<char>, i: int) -> Option<Fault>
    decreases ts.len() - i,
{
    if 0 <= i && i + 1 < ts.len() && ts[i] is Bytes {
        proof {
            bencode::lemma_closed_at(ts, i + 2, bencode::opens(ts[i + 1]));
        }
        match info_entry_fault(ts, cut, ts[i]->Bytes_0, i + 1) {
            Some(f) => Some(f),
            None => info_entries_fault(ts, cut, bencode::past(ts, i + 1)),
        }
    } else if bencode::ends(ts, i) {
        None
    } else {
        Some(Fault::Bencode(cut))
    }
}

/// The text that a key of the dictionary at `i` has.
pub open spec fn text_field(ts: Seq<Tok>, i: int, key: Seq<char>) -> Option<Seq<char>> {
    match field(ts, i, key) {
        Some(p) => Some(values::text_of(ts[p])),
        None => None,
    }
}

/// The number that a key of the dictionary at `i` has.
pub open spec fn number_field(ts: Seq<Tok>, i: int, key: Seq<char>) -> Option<int> {
    match field(ts, i, key) {
        Some(p) => Some(values::integer_of(ts[p])),
        None => None,
    }
}

pub open spec fn opt_view(o: Option<String>) -> Option<Seq<char>> {
    match o {
        Some(s) => Some(s@),
        None => None,
    }
}

/// The length of the file that the dictionary at `i` describes.
pub open spec fn file_length(ts: Seq<Tok>, i: int) -> int {
    values::integer_of(ts[field(ts, i, "length"@)->0])
}

/// The lengths of these files together.
pub open spec fn total_at(ts: Seq<Tok>, at: Seq<int>) -> int
    decreases at.len(),
{
    if at.len() == 0 {
        0
    } else {
        total_at(ts, at.drop_last()) + file_length(ts, at.last())
    }
}

/// Where the files are that the info dictionary at `i` lists.
pub open spec fn files_at(ts: Seq<Tok>, i: int) -> Seq<int> {
    bencode::items(ts, field(ts, i, "files"@)->0 + 1)
}

/// How long the whole stream is.
pub open spec fn total_length_at(ts: Seq<Tok>, i: int) -> int {
    match number_field(ts, i, "length"@) {
        Some(n) => n,
        None => total_at(ts, files_at(ts, i)),
    }
}

/// How many pieces of this length it takes.
pub open spec fn pieces_for(total: int, piece_length: int) -> int {
    (total + piece_length - 1) / piece_length
}

pub open spec fn count_mismatch(have: int, total: int, piece_length: int) -> Seq<char> {
    text::decimal(have as nat) + " pieces for "@ + text::decimal(total as nat) + " bytes at "@
        + text::decimal(piece_length as nat) + " per piece; expected "@ + text::decimal(
        pieces_for(total, piece_length) as nat,
    )
}

/// What is wrong with the info dictionary at `i`, once its entries can be read.
pub open spec fn info_shape_fault(ts: Seq<Tok>, i: int) -> Option<Fault> {
    let version = number_field(ts, i, "meta version"@);
    let name = text_field(ts, i, "name"@);
    let piece_length = number_field(ts, i, "piece length"@);
    let pieces = field(ts, i, "pieces"@);
    let single = field(ts, i, "length"@) is Some;
    let multi = field(ts, i, "files"@) is Some;
    let total = total_length_at(ts, i);
    let hashes = ts[pieces->0]->Bytes_0.len();
    if version is Some && version->0 >= 2 && pieces is None {
        Some(
            Fault::Torrent("this is a BitTorrent v2 torrent, which is not supported yet"@),
        )
    } else if name is None {
        Some(Fault::Torrent("info dictionary has no name"@))
    } else if values::component_fault(name->0, "name"@) is Some {
        values::component_fault(name->0, "name"@)
    } else if piece_length is None {
        Some(Fault::Torrent("info dictionary has no piece length"@))
    } else if piece_length->0 == 0 || piece_length->0 > MAX_PIECE_LENGTH {
        Some(
            Fault::Torrent(
                "implausible piece length "@ + text::decimal(piece_length->0 as nat),
            ),
        )
    } else if pieces is None {
        Some(Fault::Torrent("info dictionary has no pieces"@))
    } else if hashes % 20 != 0 {
        Some(
            Fault::Torrent(
                "pieces is "@ + text::decimal(hashes) + " bytes, not a multiple of 20"@,
            ),
        )
    } else if single && multi {
        Some(Fault::Torrent("info dictionary has both length and files"@))
    } else if !single && !multi {
        Some(Fault::Torrent("info dictionary has neither length nor files"@))
    } else if total > u64::MAX {
        Some(Fault::Torrent("total length overflows a 64-bit integer"@))
    } else if hashes / 20 != pieces_for(total, piece_length->0) {
        Some(Fault::Torrent(count_mismatch(hashes as int / 20, total, piece_length->0)))
    } else {
        None
    }
}

pub open spec fn info_fault(ts: Seq<Tok>, cut: Seq<char>, i: int) -> Option<Fault> {
    if !(ts[i] is Dict) {
        Some(values::not_a("Dict"@, ts[i]))
    } else if info_entries_fault(ts, cut, i + 1) is Some {
        info_entries_fault(ts, cut, i + 1)
    } else {
        info_shape_fault(ts, i)
    }
}

/// The tokens of the dictionary at `i`.
pub open spec fn dict_tokens(ts: Seq<Tok>, i: int) -> Seq<Tok> {
    ts.subrange(i, bencode::entries_end(ts, i + 1) + 1)
}

/// Hashes laid end to end.
pub open spec fn are_hashes(pieces: Seq<[u8; 20]>, raw: Seq<u8>) -> bool {
    &&& pieces.len() == raw.len() / 20
    &&& forall|k: int|
        0 <= k < pieces.len() ==> (#[trigger] pieces[k])@ == raw.subrange(20 * k, 20 * k + 20)
}

/// What an info dictionary holds.
#[derive(Debug, Clone)]
pub struct InfoParts {
    pub info_hash: [u8; 20],
    pub name: String,
    pub piece_length: u64,
    pub pieces: Vec<[u8; 20]>,
    pub files: Vec<TorrentFile>,
    pub total_length: u64,
    pub is_single_file: bool,
    pub private: bool,
    pub source: Option<String>,
}

/// It is what the info dictionary at `i` holds. The infohash is that of the dictionary's own
/// bytes.
pub open spec fn is_info(p: InfoParts, ts: Seq<Tok>, i: int) -> bool {
    &&& p.info_hash@ == digest::sha1_digest(bencode::spelled(dict_tokens(ts, i)))
    &&& text_field(ts, i, "name"@) == Some(p.name@)
    &&& number_field(ts, i, "piece length"@) == Some(p.piece_length as int)
    &&& field(ts, i, "pieces"@) matches Some(q) && are_hashes(p.pieces@, ts[q]->Bytes_0)
    &&& p.is_single_file == (field(ts, i, "length"@) is Some)
    &&& p.total_length == total_length_at(ts, i)
    &&& if p.is_single_file {
        &&& p.files@.len() == 1
        &&& text::views(p.files@[0].path@) == seq![p.name@]
        &&& p.files@[0].length == p.total_length
        &&& !p.files@[0].is_pad
    } else {
        are_files(p.files@, ts, files_at(ts, i))
    }
    &&& p.private == (number_field(ts, i, "private"@) is Some && number_field(
        ts,
        i,
        "private"@,
    )->0 != 0)
    &&& opt_view(p.source) == text_field(ts, i, "source"@)
}

/// Where nothing is wrong with the entries of the info dictionary, nothing is wrong with any.
proof fn lemma_info_entries(ts: Seq<Tok>, cut: Seq<char>, i: int)
    requires
        0 <= i <= ts.len(),
        info_entries_fault(ts, cut, i) is None,
    ensures
        forall|k: int|
            0 <= k < bencode::entries(ts, i).len() ==> {
                let e = #[trigger] bencode::entries(ts, i)[k];
                i < e.1 < ts.len() && info_entry_fault(ts, cut, e.0, e.1) is None
            },
        i <= bencode::entries_end(ts, i) < ts.len(),
    decreases ts.len() - i,
{
    if i + 1 < ts.len() && ts[i] is Bytes {
        bencode::lemma_closed_at(ts, i + 2, bencode::opens(ts[i + 1]));
        let next = bencode::past(ts, i + 1);
        lemma_info_entries(ts, cut, next);
        let es = bencode::entries(ts, i);
        assert(es == seq![(ts[i]->Bytes_0, i + 1)] + bencode::entries(ts, next));
        assert forall|k: int| 0 <= k < es.len() implies {
            let e = #[trigger] es[k];
            i < e.1 < ts.len() && info_entry_fault(ts, cut, e.0, e.1) is None
        } by {
            if k > 0 {
                assert(es[k] == bencode::entries(ts, next)[k - 1]);
            }
        }
    }
}

/// And so nothing is wrong with the value of any key.
proof fn lemma_info_field(ts: Seq<Tok>, cut: Seq<char>, i: int, key: Seq<char>)
    requires
        0 <= i < ts.len(),
        info_entries_fault(ts, cut, i + 1) is None,
    ensures
        field(ts, i, key) matches Some(p) ==> i < p < ts.len() && info_entry_fault(
            ts,
            cut,
            bencode::word(key),
            p,
        ) is None,
{
    let es = bencode::entries(ts, i + 1);
    lemma_info_entries(ts, cut, i + 1);
    lemma_value_of(es, bencode::word(key));
    if field(ts, i, key) is Some {
        let p = field(ts, i, key)->0;
        let k = choose|k: int| 0 <= k < es.len() && es[k] == (bencode::word(key), p);
        assert(info_entry_fault(ts, cut, es[k].0, es[k].1) is None);
    }
}

/// The keys of the info dictionary are all different.
pub proof fn lemma_info_keys()
    ensures
        bencode::word("piece length"@) != bencode::word("name"@),
        bencode::word("pieces"@) != bencode::word("name"@),
        bencode::word("pieces"@) != bencode::word("piece length"@),
        bencode::word("length"@) != bencode::word("name"@),
        bencode::word("length"@) != bencode::word("piece length"@),
        bencode::word("length"@) != bencode::word("pieces"@),
        bencode::word("files"@) != bencode::word("name"@),
        bencode::word("files"@) != bencode::word("piece length"@),
        bencode::word("files"@) != bencode::word("pieces"@),
        bencode::word("files"@) != bencode::word("length"@),
        bencode::word("meta version"@) != bencode::word("name"@),
        bencode::word("meta version"@) != bencode::word("piece length"@),
        bencode::word("meta version"@) != bencode::word("pieces"@),
        bencode::word("meta version"@) != bencode::word("length"@),
        bencode::word("meta version"@) != bencode::word("files"@),
        bencode::word("private"@) != bencode::word("name"@),
        bencode::word("private"@) != bencode::word("piece length"@),
        bencode::word("private"@) != bencode::word("pieces"@),
        bencode::word("private"@) != bencode::word("length"@),
        bencode::word("private"@) != bencode::word("files"@),
        bencode::word("private"@) != bencode::word("meta version"@),
        bencode::word("source"@) != bencode::word("name"@),
        bencode::word("source"@) != bencode::word("piece length"@),
        bencode::word("source"@) != bencode::word("pieces"@),
        bencode::word("source"@) != bencode::word("length"@),
        bencode::word("source"@) != bencode::word("files"@),
        bencode::word("source"@) != bencode::word("meta version"@),
        bencode::word("source"@) != bencode::word("private"@),
{
    reveal_strlit("name");
    reveal_strlit("piece length");
    reveal_strlit("pieces");
    reveal_strlit("length");
    reveal_strlit("files");
    reveal_strlit("meta version");
    reveal_strlit("private");
    reveal_strlit("source");
    vstd::utf8::encode_utf8_decode_utf8("name"@);
    vstd::utf8::encode_utf8_decode_utf8("piece length"@);
    vstd::utf8::encode_utf8_decode_utf8("pieces"@);
    vstd::utf8::encode_utf8_decode_utf8("length"@);
    vstd::utf8::encode_utf8_decode_utf8("files"@);
    vstd::utf8::encode_utf8_decode_utf8("meta version"@);
    vstd::utf8::encode_utf8_decode_utf8("private"@);
    vstd::utf8::encode_utf8_decode_utf8("source"@);
    assert("pieces"@[0] != "length"@[0]);
    assert("pieces"@[0] != "source"@[0]);
    assert("length"@[0] != "source"@[0]);
    assert("meta version"@[0] != "piece length"@[0]);
    assert("name"@.len() == 4);
    assert("files"@.len() == 5);
    assert("pieces"@.len() == 6);
    assert("private"@.len() == 7);
}

/// Checks one entry of the info dictionary.
fn check_info_entry(ts: &Vec<Token>, cut: &str, key: &Vec<u8>, i: usize, origin: &str) -> (r:
    Result<(), Error>)
    requires
        i < ts.len(),
        values::numbers(bencode::views(ts@)),
    ensures
        ({
            let fault = info_entry_fault(bencode::views(ts@), cut@, key@, i as int);
            match r {
                Ok(_) => fault is None,
                Err(e) => fault matches Some(f) && values::is_fault(e, origin@, f),
            }
        }),
{
    let ghost all = bencode::views(ts@);
    assert(all[i as int] == ts@[i as int]@);
    assert(values::is_numeral(all[i as int]));
    if same_bytes(key, "name".as_bytes()) {
        read_text(&ts[i], origin)?;
    } else if same_bytes(key, "piece length".as_bytes()) {
        read_unsigned(&ts[i], origin, "piece length")?;
    } else if same_bytes(key, "pieces".as_bytes()) {
        read_text(&ts[i], origin)?;
    } else if same_bytes(key, "length".as_bytes()) {
        read_unsigned(&ts[i], origin, "length")?;
    } else if same_bytes(key, "files".as_bytes()) {
        read_files(ts, cut, i, origin)?;
    } else if same_bytes(key, "meta version".as_bytes()) {
        read_integer(&ts[i], origin, "meta version")?;
    } else if same_bytes(key, "private".as_bytes()) {
        read_integer(&ts[i], origin, "private")?;
    } else if same_bytes(key, "source".as_bytes()) {
        read_text(&ts[i], origin)?;
    }
    Ok(())
}

/// Checks the entries of the info dictionary at `i`, and gives where it ends.
fn check_info_entries(ts: &Vec<Token>, cut: &str, i: usize, origin: &str) -> (r: Result<
    usize,
    Error,
>)
    requires
        i < ts.len(),
        values::numbers(bencode::views(ts@)),
    ensures
        ({
            let all = bencode::views(ts@);
            let fault = info_entries_fault(all, cut@, i + 1);
            match r {
                Ok(end) => fault is None && end == bencode::entries_end(all, i + 1) && i < end
                    < ts.len(),
                Err(e) => fault matches Some(f) && values::is_fault(e, origin@, f),
            }
        }),
{
    let ghost all = bencode::views(ts@);
    let mut j: usize = i + 1;
    loop
        invariant
            i < j <= ts.len(),
            all == bencode::views(ts@),
            values::numbers(all),
            info_entries_fault(all, cut@, i + 1) == info_entries_fault(all, cut@, j as int),
            bencode::entries_end(all, i + 1) == bencode::entries_end(all, j as int),
        decreases ts.len() - j,
    {
        if j >= ts.len() {
            return Err(bencode_error(origin, cut.to_owned()));
        }
        assert(all[j as int] == ts@[j as int]@);
        match &ts[j] {
            Token::Bytes(key) => {
                if j + 1 >= ts.len() {
                    return Err(bencode_error(origin, cut.to_owned()));
                }
                check_info_entry(ts, cut, key, j + 1, origin)?;
                j = past_value(ts, j + 1);
            },
            Token::End => {
                return Ok(j);
            },
            _ => {
                return Err(bencode_error(origin, cut.to_owned()));
            },
        }
    }
}

/// The text that a key of the dictionary at `i` has.
fn read_text_field(ts: &Vec<Token>, i: usize, key: &str, origin: &str) -> (r: Result<
    Option<String>,
    Error,
>)
    requires
        i < ts.len(),
    ensures
        ({
            let all = bencode::views(ts@);
            match r {
                Ok(o) => opt_view(o) == text_field(all, i as int, key@),
                Err(_) => field(all, i as int, key@) matches Some(p) && values::text_fault(
                    all[p],
                ) is Some,
            }
        }),
{
    match find(ts, i, key) {
        Some(p) => {
            assert(bencode::views(ts@)[p as int] == ts@[p as int]@);
            match read_text(&ts[p], origin) {
                Ok(s) => Ok(Some(s)),
                Err(e) => Err(e),
            }
        },
        None => Ok(None),
    }
}

/// The number that a key of the dictionary at `i` has.
fn read_number_field(ts: &Vec<Token>, i: usize, key: &str, origin: &str) -> (r: Result<
    Option<i64>,
    Error,
>)
    requires
        i < ts.len(),
        values::numbers(bencode::views(ts@)),
    ensures
        ({
            let all = bencode::views(ts@);
            match r {
                Ok(Some(n)) => number_field(all, i as int, key@) == Some(n as int),
                Ok(None) => number_field(all, i as int, key@) is None,
                Err(_) => field(all, i as int, key@) matches Some(p) && values::integer_fault(
                    all[p],
                    key@,
                ) is Some,
            }
        }),
{
    match find(ts, i, key) {
        Some(p) => {
            assert(bencode::views(ts@)[p as int] == ts@[p as int]@);
            assert(values::is_numeral(bencode::views(ts@)[p as int]));
            match read_integer(&ts[p], origin, key) {
                Ok(n) => Ok(Some(n)),
                Err(e) => Err(e),
            }
        },
        None => Ok(None),
    }
}

/// Cuts hashes that are laid end to end.
fn split_hashes(raw: &Vec<u8>) -> (pieces: Vec<[u8; 20]>)
    ensures
        are_hashes(pieces@, raw@),
{
    let n: usize = raw.len() / 20;
    let mut pieces: Vec<[u8; 20]> = Vec::new();
    let mut k: usize = 0;
    while k < n
        invariant
            k <= n,
            n == raw@.len() / 20,
            pieces.len() == k,
            forall|j: int|
                0 <= j < k ==> (#[trigger] pieces@[j])@ == raw@.subrange(20 * j, 20 * j + 20),
        decreases n - k,
    {
        let mut a: [u8; 20] = [0;20];
        let mut j: usize = 0;
        while j < 20
            invariant
                j <= 20,
                k < n,
                20 * n <= raw.len(),
                a@.len() == 20,
                forall|x: int| 0 <= x < j ==> a@[x] == raw@[20 * k + x],
            decreases 20 - j,
        {
            a[j] = raw[20 * k + j];
            j += 1;
        }
        assert(a@ =~= raw@.subrange(20 * k as int, 20 * k as int + 20));
        pieces.push(a);
        k += 1;
    }
    pieces
}

proof fn lemma_total_grows(ts: Seq<Tok>, at: Seq<int>, k: int)
    requires
        0 <= k <= at.len(),
        forall|j: int| 0 <= j < at.len() ==> file_length(ts, #[trigger] at[j]) >= 0,
    ensures
        0 <= total_at(ts, at.take(k)) <= total_at(ts, at),
    decreases at.len(),
{
    if k == at.len() {
        assert(at.take(k) =~= at);
        if at.len() > 0 {
            let front = at.drop_last();
            assert forall|j: int| 0 <= j < front.len() implies file_length(
                ts,
                #[trigger] front[j],
            ) >= 0 by {
                assert(at[j] == front[j]);
            }
            lemma_total_grows(ts, front, front.len() as int);
            assert(front.take(front.len() as int) =~= front);
            assert(file_length(ts, at[at.len() - 1]) >= 0);
        }
    } else {
        let front = at.drop_last();
        assert forall|j: int| 0 <= j < front.len() implies file_length(
            ts,
            #[trigger] front[j],
        ) >= 0 by {
            assert(at[j] == front[j]);
        }
        lemma_total_grows(ts, front, k);
        assert(front.take(k) =~= at.take(k));
        assert(file_length(ts, at[at.len() - 1]) >= 0);
    }
}

/// The length of all files together, if it fits.
fn sum_lengths(files: &Vec<TorrentFile>, Ghost(ts): Ghost<Seq<Tok>>, Ghost(at): Ghost<
    Seq<int>,
>) -> (r: Option<u64>)
    requires
        are_files(files@, ts, at),
    ensures
        match r {
            Some(n) => n == total_at(ts, at),
            None => total_at(ts, at) > u64::MAX,
        },
{
    proof {
        assert forall|j: int| 0 <= j < at.len() implies file_length(ts, #[trigger] at[j]) >= 0 by {
            assert(is_file(files@[j], ts, at[j]));
        }
    }
    let mut total: u64 = 0;
    let mut k: usize = 0;
    assert(at.take(0) =~= Seq::<int>::empty());
    while k < files.len()
        invariant
            k <= files.len(),
            are_files(files@, ts, at),
            forall|j: int| 0 <= j < at.len() ==> file_length(ts, #[trigger] at[j]) >= 0,
            total == total_at(ts, at.take(k as int)),
        decreases files.len() - k,
    {
        proof {
            assert(is_file(files@[k as int], ts, at[k as int]));
            assert(at.take(k + 1).drop_last() =~= at.take(k as int));
            lemma_total_grows(ts, at, k + 1);
        }
        let length: u64 = files[k].length;
        if length > u64::MAX - total {
            return None;
        }
        total += length;
        k += 1;
    }
    assert(at.take(files.len() as int) =~= at);
    Some(total)
}

/// Reads the info dictionary at `i`.
fn parse_info(data: &[u8], ts: &Vec<Token>, cut: &str, i: usize, origin: &str) -> (r: Result<
    InfoParts,
    Error,
>)
    requires
        i < ts.len(),
        bencode::structured(bencode::views(ts@)),
        bencode::spelled(bencode::views(ts@)).is_prefix_of(data@),
    ensures
        ({
            let all = bencode::views(ts@);
            match r {
                Ok(p) => info_fault(all, cut@, i as int) is None && is_info(p, all, i as int),
                Err(e) => info_fault(all, cut@, i as int) matches Some(f) && values::is_fault(
                    e,
                    origin@,
                    f,
                ),
            }
        }),
{
    let ghost all = bencode::views(ts@);
    let ghost at = i as int;
    proof {
        bencode::lemma_numbers(all);
        assert(values::numbers(all));
        assert(all[at] == ts@[at]@);
        lemma_info_keys();
    }
    match &ts[i] {
        Token::Dict => {},
        _ => {
            return Err(not_a_error("Dict", &ts[i], origin));
        },
    }
    let end = check_info_entries(ts, cut, i, origin)?;
    proof {
        lemma_info_field(all, cut@, at, "name"@);
        lemma_info_field(all, cut@, at, "piece length"@);
        lemma_info_field(all, cut@, at, "pieces"@);
        lemma_info_field(all, cut@, at, "length"@);
        lemma_info_field(all, cut@, at, "files"@);
        lemma_info_field(all, cut@, at, "meta version"@);
        lemma_info_field(all, cut@, at, "private"@);
        lemma_info_field(all, cut@, at, "source"@);
    }
    let info_hash = hash_of(data, ts, i, end);
    let version = read_number_field(ts, i, "meta version", origin)?;
    let pieces_at = find(ts, i, "pieces");
    match version {
        Some(v) => {
            if v >= 2 && pieces_at.is_none() {
                return Err(
                    Error::torrent(
                        origin,
                        "this is a BitTorrent v2 torrent, which is not supported yet",
                    ),
                );
            }
        },
        None => {},
    }
    let name = match read_text_field(ts, i, "name", origin)? {
        Some(n) => n,
        None => {
            return Err(Error::torrent(origin, "info dictionary has no name"));
        },
    };
    validate_component(&name, origin, "name")?;
    let piece_length: u64 = match read_number_field(ts, i, "piece length", origin)? {
        Some(n) => n as u64,
        None => {
            return Err(Error::torrent(origin, "info dictionary has no piece length"));
        },
    };
    if piece_length == 0 || piece_length > MAX_PIECE_LENGTH {
        let mut d = "implausible piece length ".to_owned();
        push_decimal(&mut d, piece_length);
        return Err(Error::torrent(origin, &d));
    }
    let pieces_at = match pieces_at {
        Some(p) => p,
        None => {
            return Err(Error::torrent(origin, "info dictionary has no pieces"));
        },
    };
    assert(all[pieces_at as int] == ts@[pieces_at as int]@);
    let empty: Vec<u8> = Vec::new();
    let raw: &Vec<u8> = match &ts[pieces_at] {
        Token::Bytes(b) => b,
        _ => &empty,
    };
    if raw.len() % 20 != 0 {
        let mut d = "pieces is ".to_owned();
        push_decimal(&mut d, raw.len() as u64);
        d.append(" bytes, not a multiple of 20");
        return Err(Error::torrent(origin, &d));
    }
    let pieces = split_hashes(raw);
    let private = match read_number_field(ts, i, "private", origin)? {
        Some(n) => n != 0,
        None => false,
    };
    let source = read_text_field(ts, i, "source", origin)?;
    let single = read_number_field(ts, i, "length", origin)?;
    let multi = find(ts, i, "files");
    let is_single_file = single.is_some();
    if is_single_file && multi.is_some() {
        return Err(Error::torrent(origin, "info dictionary has both length and files"));
    }
    let mut files: Vec<TorrentFile> = Vec::new();
    let total_length: u64;
    match (single, multi) {
        (Some(n), _) => {
            let mut path: Vec<String> = Vec::new();
            path.push(name.clone());
            assert(text::views(path@) =~= seq![name@]);
            files.push(TorrentFile { path, length: n as u64, is_pad: false });
            total_length = n as u64;
        },
        (None, Some(p)) => {
            files = read_files(ts, cut, p, origin)?;
            match sum_lengths(&files, Ghost(all), Ghost(files_at(all, at))) {
                Some(n) => {
                    total_length = n;
                },
                None => {
                    return Err(
                        Error::torrent(origin, "total length overflows a 64-bit integer"),
                    );
                },
            }
        },
        (None, None) => {
            return Err(
                Error::torrent(origin, "info dictionary has neither length nor files"),
            );
        },
    }
    let expected = pieces_needed(total_length, piece_length);
    if pieces.len() as u64 != expected {
        let mut d = decimal_string(pieces.len() as u64);
        d.append(" pieces for ");
        push_decimal(&mut d, total_length);
        d.append(" bytes at ");
        push_decimal(&mut d, piece_length);
        d.append(" per piece; expected ");
        push_decimal(&mut d, expected);
        return Err(Error::torrent(origin, &d));
    }
    Ok(
        InfoParts {
            info_hash,
            name,
            piece_length,
            pieces,
            files,
            total_length,
            is_single_file,
            private,
            source,
        },
    )
}

/// How many pieces of this length it takes.
pub fn pieces_needed(total: u64, piece_length: u64) -> (n: u64)
    requires
        piece_length > 0,
    ensures
        n == pieces_for(total as int, piece_length as int),
{
    let whole: u64 = total / piece_length;
    proof {
        let (t, p) = (total as int, piece_length as int);
        let (q, r) = (t / p, t % p);
        vstd::arithmetic::div_mod::lemma_fundamental_div_mod(t, p);
        assert(p * q == q * p) by (nonlinear_arith);
        if r == 0 {
            vstd::arithmetic::div_mod::lemma_fundamental_div_mod_converse(
                t + p - 1,
                p,
                q,
                p - 1,
            );
        } else {
            assert((q + 1) * p == q * p + p) by (nonlinear_arith);
            vstd::arithmetic::div_mod::lemma_fundamental_div_mod_converse(
                t + p - 1,
                p,
                q + 1,
                r - 1,
            );
            assert(q < u64::MAX) by (nonlinear_arith)
                requires
                    t <= u64::MAX,
                    p >= 1,
                    0 < r,
                    t == p * q + r,
                    q >= 0,
            ;
        }
    }
    if total % piece_length == 0 {
        whole
    } else {
        whole + 1
    }
}

/// The infohash: of the bytes that the dictionary from `i` to `end` takes up in the file.
fn hash_of(data: &[u8], ts: &Vec<Token>, i: usize, end: usize) -> (h: [u8; 20])
    requires
        i <= end < ts.len(),
        bencode::structured(bencode::views(ts@)),
        bencode::spelled(bencode::views(ts@)).is_prefix_of(data@),
    ensures
        h@ == digest::sha1_digest(
            bencode::spelled(bencode::views(ts@).subrange(i as int, end + 1)),
        ),
{
    let ghost all = bencode::views(ts@);
    let from = spelled_len(ts, i, data);
    let to = spelled_len(ts, end + 1, data);
    proof {
        let head = all.take(i as int);
        let part = all.subrange(i as int, end + 1);
        let rest = all.skip(end + 1);
        assert(all.take(end + 1) =~= head + part);
        assert(all =~= head + part + rest);
        bencode::lemma_spelled_add(head, part);
        bencode::lemma_spelled_add(head + part, rest);
        let whole = bencode::spelled(all);
        assert(whole == data@.subrange(0, whole.len() as int));
        assert(data@.subrange(from as int, to as int) =~= bencode::spelled(part)) by {
            assert forall|k: int| 0 <= k < to - from implies data@.subrange(
                from as int,
                to as int,
            )[k] == #[trigger] bencode::spelled(part)[k] by {
                assert(whole[from + k] == data@[from + k]);
                assert((bencode::spelled(head) + bencode::spelled(part))[from + k]
                    == bencode::spelled(part)[k]);
            }
        }
    }
    let raw = copy_range(data, from, to);
    sha1_of(&raw)
}

// The whole file.

/// What is wrong with one entry of the outer dictionary.
pub open spec fn outer_entry_fault(ts: Seq<Tok>, cut: Seq<char>, key: Seq<u8>, i: int) -> Option<
    Fault,
> {
    if key == bencode::word("announce"@) {
        values::text_fault(ts[i])
    } else if key == bencode::word("announce-list"@) {
        values::tiers_fault(ts, cut, i)
    } else if key == bencode::word("comment"@) {
        values::text_fault(ts[i])
    } else if key == bencode::word("created by"@) {
        values::text_fault(ts[i])
    } else if key == bencode::word("creation date"@) {
        values::integer_fault(ts[i], "creation date"@)
    } else if key == bencode::word("info"@) {
        info_fault(ts, cut, i)
    } else {
        None
    }
}

/// What is wrong with the entries of the outer dictionary, from the one at `i` on.
pub open spec fn outer_entries_fault(ts: Seq<Tok>, cut: Seq<char>, i: int) -> Option<Fault>
    decreases ts.len() - i,
{
    if 0 <= i && i + 1 < ts.len() && ts[i] is Bytes {
        proof {
            bencode::lemma_closed_at(ts, i + 2, bencode::opens(ts[i + 1]));
        }
        match outer_entry_fault(ts, cut, ts[i]->Bytes_0, i + 1) {
            Some(f) => Some(f),
            None => outer_entries_fault(ts, cut, bencode::past(ts, i + 1)),
        }
    } else if bencode::ends(ts, i) {
        None
    } else {
        Some(Fault::Bencode(cut))
    }
}

/// What is said where a file stops in the middle. A file without a fault leaves nothing
/// open, so that nothing is ever said of it.
pub open spec fn cut_text(data: Seq<u8>) -> Seq<char> {
    if bencode::reads_whole(data, bencode::reading(data)) {
        ""@
    } else {
        bencode::bencode_fault(data)
    }
}

/// Why these bytes are no torrent.
pub open spec fn torrent_fault(data: Seq<u8>) -> Option<Fault> {
    let ts = bencode::reading(data);
    let cut = cut_text(data);
    if data.len() == 0 {
        Some(Fault::Torrent("file is empty"@))
    } else if ts.len() == 0 {
        Some(Fault::Bencode(cut))
    } else if !(ts[0] is Dict) {
        Some(values::not_a("Dict"@, ts[0]))
    } else if outer_entries_fault(ts, cut, 1) is Some {
        outer_entries_fault(ts, cut, 1)
    } else if field(ts, 0, "info"@) is None {
        Some(Fault::Torrent("no info dictionary"@))
    } else {
        None
    }
}

/// A tracker that is in one of these tiers.
pub open spec fn in_tiers(tiers: Seq<Seq<Seq<char>>>, url: Seq<char>) -> bool {
    exists|i: int| 0 <= i < tiers.len() && (#[trigger] tiers[i]).contains(url)
}

/// The tiers of a torrent. The single tracker should also be in the list, and real torrents
/// put it there; it becomes a tier of its own, the first, only where it is absent.
pub open spec fn tiers_of(ts: Seq<Tok>) -> Seq<Seq<Seq<char>>> {
    let listed = match field(ts, 0, "announce-list"@) {
        Some(p) => values::kept_tiers(values::lists_at(ts, p)),
        None => Seq::empty(),
    };
    match text_field(ts, 0, "announce"@) {
        Some(url) if url.len() > 0 && !in_tiers(listed, url) => seq![seq![url]] + listed,
        _ => listed,
    }
}

impl Metainfo {
    /// Its info dictionary's part.
    pub open spec fn info(&self) -> InfoParts {
        InfoParts {
            info_hash: self.info_hash,
            name: self.name,
            piece_length: self.piece_length,
            pieces: self.pieces,
            files: self.files,
            total_length: self.total_length,
            is_single_file: self.is_single_file,
            private: self.private,
            source: self.source,
        }
    }

    /// It is what these tokens say.
    pub open spec fn reads(&self, ts: Seq<Tok>) -> bool {
        &&& field(ts, 0, "info"@) matches Some(p) && is_info(self.info(), ts, p)
        &&& values::tier_views(self.announce@) == tiers_of(ts)
        &&& opt_view(self.comment) == text_field(ts, 0, "comment"@)
        &&& opt_view(self.created_by) == text_field(ts, 0, "created by"@)
        &&& match self.creation_date {
            Some(n) => number_field(ts, 0, "creation date"@) == Some(n as int),
            None => number_field(ts, 0, "creation date"@) is None,
        }
    }
}

impl Metainfo {
    /// Its two halves agree: the stream is all files laid end to end, and there are as many
    /// hashes as it takes pieces to cover it.
    pub open spec fn wf(&self) -> bool {
        &&& 0 < self.piece_length <= MAX_PIECE_LENGTH
        &&& self.total_length == encode::sum(self.files@)
        &&& self.pieces@.len() == pieces_for(self.total_length as int, self.piece_length as int)
    }

    /// The files that exist on disk: padding excluded.
    pub fn real_files(&self) -> (r: Vec<&TorrentFile>)
        ensures
            r@.map_values(|f: &TorrentFile| *f) == on_disk(self.files@),
    {
        let mut r: Vec<&TorrentFile> = Vec::new();
        let mut i: usize = 0;
        assert(self.files@.take(0) =~= Seq::<TorrentFile>::empty());
        assert(r@.map_values(|f: &TorrentFile| *f) =~= on_disk(self.files@.take(0)));
        while i < self.files.len()
            invariant
                i <= self.files.len(),
                r@.map_values(|f: &TorrentFile| *f) == on_disk(self.files@.take(i as int)),
            decreases self.files.len() - i,
        {
            assert(self.files@.take(i + 1).drop_last() =~= self.files@.take(i as int));
            if !self.files[i].is_pad {
                let ghost before = r@;
                r.push(&self.files[i]);
                assert(r@.map_values(|f: &TorrentFile| *f) =~= before.map_values(
                    |f: &TorrentFile| *f,
                ).push(self.files@[i as int]));
            }
            i += 1;
        }
        assert(self.files@.take(self.files.len() as int) =~= self.files@);
        r
    }

    /// Every tracker, tiers flattened, for callers that only want to list them.
    pub fn trackers(&self) -> (r: Vec<&str>)
        ensures
            r@.map_values(|s: &str| s@) == seqs::concat(values::tier_views(self.announce@)),
    {
        let ghost tiers = values::tier_views(self.announce@);
        let mut r: Vec<&str> = Vec::new();
        let mut i: usize = 0;
        assert(tiers.take(0) =~= Seq::<Seq<Seq<char>>>::empty());
        assert(r@.map_values(|s: &str| s@) =~= seqs::concat(tiers.take(0)));
        while i < self.announce.len()
            invariant
                i <= self.announce.len(),
                tiers == values::tier_views(self.announce@),
                r@.map_values(|s: &str| s@) == seqs::concat(tiers.take(i as int)),
            decreases self.announce.len() - i,
        {
            let tier = &self.announce[i];
            let ghost before = seqs::concat(tiers.take(i as int));
            let mut k: usize = 0;
            assert(before + text::views(tier@).take(0) =~= before);
            while k < tier.len()
                invariant
                    k <= tier.len(),
                    r@.map_values(|s: &str| s@) == before + text::views(tier@).take(k as int),
                decreases tier.len() - k,
            {
                let ghost had = r@;
                r.push(tier[k].as_str());
                proof {
                    let v = text::views(tier@);
                    assert(v.take(k + 1) =~= v.take(k as int).push(v[k as int]));
                    assert(r@.map_values(|s: &str| s@) =~= had.map_values(|s: &str| s@).push(
                        tier@[k as int]@,
                    ));
                    assert(before + v.take(k as int).push(v[k as int]) =~= (before + v.take(
                        k as int,
                    )).push(v[k as int]));
                }
                k += 1;
            }
            proof {
                assert(text::views(tier@).take(tier@.len() as int) =~= text::views(tier@));
                assert(tiers.take(i + 1).drop_last() =~= tiers.take(i as int));
                assert(tiers[i as int] == text::views(tier@));
            }
            i += 1;
        }
        assert(tiers.take(self.announce.len() as int) =~= tiers);
        r
    }
}

/// The files that are not padding.
pub open spec fn on_disk(files: Seq<TorrentFile>) -> Seq<TorrentFile>
    decreases files.len(),
{
    if files.len() == 0 {
        Seq::empty()
    } else if files.last().is_pad {
        on_disk(files.drop_last())
    } else {
        on_disk(files.drop_last()).push(files.last())
    }
}

proof fn lemma_total_is_sum(ts: Seq<Tok>, at: Seq<int>, files: Seq<TorrentFile>)
    requires
        are_files(files, ts, at),
    ensures
        total_at(ts, at) == encode::sum(files),
    decreases at.len(),
{
    if at.len() > 0 {
        let (a, f) = (at.drop_last(), files.drop_last());
        assert forall|k: int| 0 <= k < a.len() implies is_file(#[trigger] f[k], ts, a[k]) by {
            assert(is_file(files[k], ts, at[k]));
        }
        lemma_total_is_sum(ts, a, f);
        assert(is_file(files[at.len() - 1], ts, at[at.len() - 1]));
    }
}

proof fn lemma_info_is_sound(p: InfoParts, ts: Seq<Tok>, cut: Seq<char>, i: int)
    requires
        info_fault(ts, cut, i) is None,
        is_info(p, ts, i),
    ensures
        0 < p.piece_length <= MAX_PIECE_LENGTH,
        p.total_length == encode::sum(p.files@),
        p.pieces@.len() == pieces_for(p.total_length as int, p.piece_length as int),
{
    if p.is_single_file {
        assert(p.files@.drop_last() =~= Seq::<TorrentFile>::empty());
        assert(encode::sum(p.files@.drop_last()) == 0);
    } else {
        lemma_total_is_sum(ts, files_at(ts, i), p.files@);
    }
}

/// A path component that stays inside the folder it is joined to.
pub open spec fn is_safe(c: Seq<char>) -> bool {
    &&& c.len() > 0
    &&& c != "."@
    &&& c != ".."@
    &&& !c.contains('/')
    &&& !c.contains('\\')
    &&& !c.contains('\0')
}

proof fn lemma_components_safe(cs: Seq<Seq<char>>)
    requires
        values::components_fault(cs) is None,
    ensures
        forall|k: int| 0 <= k < cs.len() ==> is_safe(#[trigger] cs[k]),
    decreases cs.len(),
{
    if cs.len() > 0 {
        lemma_components_safe(cs.drop_first());
        assert forall|k: int| 0 <= k < cs.len() implies is_safe(#[trigger] cs[k]) by {
            if k > 0 {
                assert(cs.drop_first()[k - 1] == cs[k]);
            }
        }
    }
}

proof fn lemma_files_faultless(ts: Seq<Tok>, cut: Seq<char>, i: int)
    requires
        0 <= i <= ts.len(),
        files_from_fault(ts, cut, i) is None,
    ensures
        forall|k: int|
            0 <= k < bencode::items(ts, i).len() ==> {
                let p = #[trigger] bencode::items(ts, i)[k];
                i <= p < ts.len() && file_fault(ts, cut, p) is None
            },
    decreases ts.len() - i,
{
    if i < ts.len() && !(ts[i] is End) {
        bencode::lemma_closed_at(ts, i + 1, bencode::opens(ts[i]));
        let next = bencode::past(ts, i);
        lemma_files_faultless(ts, cut, next);
        let at = bencode::items(ts, i);
        assert(at == seq![i] + bencode::items(ts, next));
        assert forall|k: int| 0 <= k < at.len() implies {
            let p = #[trigger] at[k];
            i <= p < ts.len() && file_fault(ts, cut, p) is None
        } by {
            if k > 0 {
                assert(at[k] == bencode::items(ts, next)[k - 1]);
            }
        }
    }
}

/// The path of a file that can be read is safe.
proof fn lemma_file_is_safe(f: TorrentFile, ts: Seq<Tok>, cut: Seq<char>, i: int)
    requires
        0 <= i < ts.len(),
        file_fault(ts, cut, i) is None,
        is_file(f, ts, i),
    ensures
        f.path@.len() > 0,
        forall|k: int| 0 <= k < f.path@.len() ==> is_safe((#[trigger] f.path@[k])@),
{
    let es = bencode::entries(ts, i + 1);
    lemma_file_entries(ts, cut, i + 1);
    lemma_value_of(es, bencode::word("path"@));
    lemma_file_keys();
    let p = field(ts, i, "path"@)->0;
    let k = choose|k: int| 0 <= k < es.len() && es[k] == (bencode::word("path"@), p);
    assert(file_entry_fault(ts, cut, es[k].0, es[k].1) is None);
    let cs = text::views(f.path@);
    assert(cs == values::strings_at(ts, p));
    lemma_components_safe(cs);
    assert forall|k: int| 0 <= k < f.path@.len() implies is_safe((#[trigger] f.path@[k])@) by {
        assert(cs[k] == f.path@[k]@);
    }
}

/// No torrent that is read names a file outside its own root: every path has a component,
/// and no component is empty, a dot or two, or holds a separator or a NUL.
pub proof fn law_torrent_paths_are_safe(data: Seq<u8>, m: Metainfo, i: int)
    requires
        torrent_fault(data) is None,
        m.reads(bencode::reading(data)),
        0 <= i < m.files@.len(),
    ensures
        is_safe(m.name@),
        m.files@[i].path@.len() > 0,
        forall|k: int|
            0 <= k < m.files@[i].path@.len() ==> is_safe((#[trigger] m.files@[i].path@[k])@),
{
    let ts = bencode::reading(data);
    let cut = cut_text(data);
    lemma_outer_field(ts, cut, "info"@);
    lemma_outer_keys();
    lemma_info_keys();
    let p = field(ts, 0, "info"@)->0;
    lemma_info_field(ts, cut, p, "files"@);
    lemma_info_field(ts, cut, p, "name"@);
    if m.is_single_file {
        assert(text::views(m.files@[0].path@) == seq![m.name@]);
        assert(m.files@[0].path@.len() == 1);
        assert(text::views(m.files@[0].path@)[0] == m.files@[0].path@[0]@);
    } else {
        let q = field(ts, p, "files"@)->0;
        lemma_files_faultless(ts, cut, q + 1);
        let at = files_at(ts, p);
        assert(is_file(m.files@[i], ts, at[i]));
        lemma_file_is_safe(m.files@[i], ts, cut, at[i]);
    }
}

/// Where nothing is wrong with the entries of the outer dictionary, nothing is wrong with
/// any.
proof fn lemma_outer_entries(ts: Seq<Tok>, cut: Seq<char>, i: int)
    requires
        0 <= i <= ts.len(),
        outer_entries_fault(ts, cut, i) is None,
    ensures
        forall|k: int|
            0 <= k < bencode::entries(ts, i).len() ==> {
                let e = #[trigger] bencode::entries(ts, i)[k];
                i < e.1 < ts.len() && outer_entry_fault(ts, cut, e.0, e.1) is None
            },
    decreases ts.len() - i,
{
    if i + 1 < ts.len() && ts[i] is Bytes {
        bencode::lemma_closed_at(ts, i + 2, bencode::opens(ts[i + 1]));
        let next = bencode::past(ts, i + 1);
        lemma_outer_entries(ts, cut, next);
        let es = bencode::entries(ts, i);
        assert(es == seq![(ts[i]->Bytes_0, i + 1)] + bencode::entries(ts, next));
        assert forall|k: int| 0 <= k < es.len() implies {
            let e = #[trigger] es[k];
            i < e.1 < ts.len() && outer_entry_fault(ts, cut, e.0, e.1) is None
        } by {
            if k > 0 {
                assert(es[k] == bencode::entries(ts, next)[k - 1]);
            }
        }
    }
}

proof fn lemma_outer_field(ts: Seq<Tok>, cut: Seq<char>, key: Seq<char>)
    requires
        ts.len() > 0,
        outer_entries_fault(ts, cut, 1) is None,
    ensures
        field(ts, 0, key) matches Some(p) ==> 0 < p < ts.len() && outer_entry_fault(
            ts,
            cut,
            bencode::word(key),
            p,
        ) is None,
{
    let es = bencode::entries(ts, 1);
    lemma_outer_entries(ts, cut, 1);
    lemma_value_of(es, bencode::word(key));
    if field(ts, 0, key) is Some {
        let p = field(ts, 0, key)->0;
        let k = choose|k: int| 0 <= k < es.len() && es[k] == (bencode::word(key), p);
        assert(outer_entry_fault(ts, cut, es[k].0, es[k].1) is None);
    }
}

/// The keys of the outer dictionary are all different.
pub proof fn lemma_outer_keys()
    ensures
        bencode::word("announce-list"@) != bencode::word("announce"@),
        bencode::word("comment"@) != bencode::word("announce"@),
        bencode::word("comment"@) != bencode::word("announce-list"@),
        bencode::word("created by"@) != bencode::word("announce"@),
        bencode::word("created by"@) != bencode::word("announce-list"@),
        bencode::word("created by"@) != bencode::word("comment"@),
        bencode::word("creation date"@) != bencode::word("announce"@),
        bencode::word("creation date"@) != bencode::word("announce-list"@),
        bencode::word("creation date"@) != bencode::word("comment"@),
        bencode::word("creation date"@) != bencode::word("created by"@),
        bencode::word("info"@) != bencode::word("announce"@),
        bencode::word("info"@) != bencode::word("announce-list"@),
        bencode::word("info"@) != bencode::word("comment"@),
        bencode::word("info"@) != bencode::word("created by"@),
        bencode::word("info"@) != bencode::word("creation date"@),
{
    reveal_strlit("announce");
    reveal_strlit("announce-list");
    reveal_strlit("comment");
    reveal_strlit("created by");
    reveal_strlit("creation date");
    reveal_strlit("info");
    vstd::utf8::encode_utf8_decode_utf8("announce"@);
    vstd::utf8::encode_utf8_decode_utf8("announce-list"@);
    vstd::utf8::encode_utf8_decode_utf8("comment"@);
    vstd::utf8::encode_utf8_decode_utf8("created by"@);
    vstd::utf8::encode_utf8_decode_utf8("creation date"@);
    vstd::utf8::encode_utf8_decode_utf8("info"@);
    assert("announce"@.len() == 8);
    assert("announce-list"@.len() == 13);
    assert("comment"@.len() == 7);
    assert("created by"@.len() == 10);
    assert("creation date"@[0] != "announce-list"@[0]);
    assert("info"@.len() == 4);
}

/// Checks one entry of the outer dictionary.
fn check_outer_entry(
    data: &[u8],
    ts: &Vec<Token>,
    cut: &str,
    key: &Vec<u8>,
    i: usize,
    origin: &str,
) -> (r: Result<(), Error>)
    requires
        i < ts.len(),
        bencode::structured(bencode::views(ts@)),
        bencode::spelled(bencode::views(ts@)).is_prefix_of(data@),
    ensures
        ({
            let fault = outer_entry_fault(bencode::views(ts@), cut@, key@, i as int);
            match r {
                Ok(_) => fault is None,
                Err(e) => fault matches Some(f) && values::is_fault(e, origin@, f),
            }
        }),
{
    let ghost all = bencode::views(ts@);
    proof {
        bencode::lemma_numbers(all);
        assert(all[i as int] == ts@[i as int]@);
        assert(values::is_numeral(all[i as int]));
    }
    if same_bytes(key, "announce".as_bytes()) {
        read_text(&ts[i], origin)?;
    } else if same_bytes(key, "announce-list".as_bytes()) {
        read_tiers(ts, cut, i, origin)?;
    } else if same_bytes(key, "comment".as_bytes()) {
        read_text(&ts[i], origin)?;
    } else if same_bytes(key, "created by".as_bytes()) {
        read_text(&ts[i], origin)?;
    } else if same_bytes(key, "creation date".as_bytes()) {
        read_integer(&ts[i], origin, "creation date")?;
    } else if same_bytes(key, "info".as_bytes()) {
        parse_info(data, ts, cut, i, origin)?;
    }
    Ok(())
}

/// Checks the entries of the outer dictionary.
fn check_outer_entries(data: &[u8], ts: &Vec<Token>, cut: &str, origin: &str) -> (r: Result<
    (),
    Error,
>)
    requires
        ts.len() > 0,
        bencode::structured(bencode::views(ts@)),
        bencode::spelled(bencode::views(ts@)).is_prefix_of(data@),
    ensures
        ({
            let fault = outer_entries_fault(bencode::views(ts@), cut@, 1);
            match r {
                Ok(_) => fault is None,
                Err(e) => fault matches Some(f) && values::is_fault(e, origin@, f),
            }
        }),
{
    let ghost all = bencode::views(ts@);
    let mut j: usize = 1;
    loop
        invariant
            1 <= j <= ts.len(),
            all == bencode::views(ts@),
            bencode::structured(all),
            bencode::spelled(all).is_prefix_of(data@),
            outer_entries_fault(all, cut@, 1) == outer_entries_fault(all, cut@, j as int),
        decreases ts.len() - j,
    {
        if j >= ts.len() {
            return Err(bencode_error(origin, cut.to_owned()));
        }
        assert(all[j as int] == ts@[j as int]@);
        match &ts[j] {
            Token::Bytes(key) => {
                if j + 1 >= ts.len() {
                    return Err(bencode_error(origin, cut.to_owned()));
                }
                check_outer_entry(data, ts, cut, key, j + 1, origin)?;
                j = past_value(ts, j + 1);
            },
            Token::End => {
                return Ok(());
            },
            _ => {
                return Err(bencode_error(origin, cut.to_owned()));
            },
        }
    }
}

/// Whether a tracker is in one of these tiers.
fn is_listed(tiers: &Vec<Vec<String>>, url: &str) -> (b: bool)
    ensures
        b == in_tiers(values::tier_views(tiers@), url@),
{
    let ghost all = values::tier_views(tiers@);
    let mut i: usize = 0;
    while i < tiers.len()
        invariant
            i <= tiers.len(),
            all == values::tier_views(tiers@),
            forall|k: int| 0 <= k < i ==> !(#[trigger] all[k]).contains(url@),
        decreases tiers.len() - i,
    {
        assert(all[i as int] == text::views(tiers@[i as int]@));
        if contains_text(&tiers[i], url) {
            return true;
        }
        i += 1;
    }
    false
}

/// The tiers of a torrent.
fn read_announce(ts: &Vec<Token>, cut: &str, origin: &str) -> (r: Result<Vec<Vec<String>>, Error>)
    requires
        ts.len() > 0,
        outer_entries_fault(bencode::views(ts@), cut@, 1) is None,
    ensures
        r is Ok,
        values::tier_views(r->Ok_0@) == tiers_of(bencode::views(ts@)),
{
    let ghost all = bencode::views(ts@);
    proof {
        lemma_outer_keys();
        lemma_outer_field(all, cut@, "announce"@);
        lemma_outer_field(all, cut@, "announce-list"@);
    }
    let mut tiers: Vec<Vec<String>> = match find(ts, 0, "announce-list") {
        Some(p) => read_tiers(ts, cut, p, origin)?,
        None => Vec::new(),
    };
    let ghost listed = values::tier_views(tiers@);
    proof {
        if field(all, 0, "announce-list"@) is None {
            assert(listed =~= Seq::empty());
        }
    }
    match read_text_field(ts, 0, "announce", origin)? {
        Some(url) => {
            if !url.as_str().is_empty() && !is_listed(&tiers, &url) {
                let mut first: Vec<String> = Vec::new();
                let ghost u = url@;
                first.push(url);
                assert(text::views(first@) =~= seq![u]);
                let ghost before = tiers@;
                tiers.insert(0, first);
                assert(values::tier_views(tiers@) =~= seq![seq![u]] + listed);
            }
        },
        None => {},
    }
    Ok(tiers)
}

impl Metainfo {
    /// The infohash, as it is shown.
    pub fn info_hash_hex(&self) -> (s: String)
        ensures
            s@ == digest::hex_text(self.info_hash@),
    {
        hex_encode(&self.info_hash)
    }

    /// Reads a torrent file.
    pub fn from_bytes(data: &[u8], origin: &str) -> (r: Result<Metainfo, Error>)
        ensures
            match r {
                Ok(m) => torrent_fault(data@) is None && m.reads(bencode::reading(data@))
                    && m.wf(),
                Err(e) => torrent_fault(data@) matches Some(f) && values::is_fault(e, origin@, f),
            },
    {
        let (ts, fault) = tokens(data);
        let ghost all = bencode::views(ts@);
        proof {
            bencode::lemma_reading(data@, all);
            lemma_outer_keys();
        }
        let cut = match fault {
            Some(e) => e,
            None => "".to_owned(),
        };
        assert(cut@ == cut_text(data@));
        if data.len() == 0 {
            return Err(Error::torrent(origin, "file is empty"));
        }
        if ts.len() == 0 {
            return Err(bencode_error(origin, cut));
        }
        assert(all[0] == ts@[0]@);
        match &ts[0] {
            Token::Dict => {},
            _ => {
                return Err(not_a_error("Dict", &ts[0], origin));
            },
        }
        check_outer_entries(data, &ts, &cut, origin)?;
        proof {
            bencode::lemma_numbers(all);
            assert(values::numbers(all));
            lemma_outer_field(all, cut@, "comment"@);
            lemma_outer_field(all, cut@, "created by"@);
            lemma_outer_field(all, cut@, "creation date"@);
            lemma_outer_field(all, cut@, "info"@);
        }
        let info = match find(&ts, 0, "info") {
            Some(p) => parse_info(data, &ts, &cut, p, origin)?,
            None => {
                return Err(Error::torrent(origin, "no info dictionary"));
            },
        };
        let announce = read_announce(&ts, &cut, origin)?;
        let comment = read_text_field(&ts, 0, "comment", origin)?;
        let created_by = read_text_field(&ts, 0, "created by", origin)?;
        proof {
            lemma_info_is_sound(info, all, cut@, field(all, 0, "info"@)->0);
        }
        let creation_date = read_number_field(&ts, 0, "creation date", origin)?;
        Ok(
            Metainfo {
                info_hash: info.info_hash,
                name: info.name,
                piece_length: info.piece_length,
                pieces: info.pieces,
                files: info.files,
                total_length: info.total_length,
                is_single_file: info.is_single_file,
                private: info.private,
                source: info.source,
                announce,
                comment,
                created_by,
                creation_date,
            },
        )
    }
}

} // verus!
