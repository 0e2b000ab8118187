//! Writing torrent files, and the one rule that governs it.
//!
//! Verification takes the infohash from the `info` dictionary's original bytes. Creation is
//! the same rule pointed the other way: the infohash is taken from the bytes that are about
//! to be written, never from a second encoding of the same data. So `info` is encoded exactly
//! once, into a buffer; that buffer is hashed, and the same buffer is spliced verbatim into
//! the outer dictionary.
//!
//! Canonical form is not optional: a key that is put into a dictionary has to come after the
//! one before it.

use super::bencode;
use super::bencode::{
    bencode_bytes, bencode_i64, bencode_text, bencode_texts, bencode_u64, Tok,
};
use super::metainfo;
use super::metainfo::{pieces_needed, TorrentFile, MAX_PIECE_LENGTH};
use super::values;
use super::values::{validate_component, Fault};
use crate::bytes;
use crate::bytes::push_all;
use crate::digest;
use crate::digest::sha1_of;
use crate::error::Error;
use crate::seqs;
use crate::text;
use crate::text::{debug_of, decimal_string, push_decimal};
use vstd::prelude::*;
use vstd::string::*;

verus! {

/// What the torrent describes: one file, or a folder of them.
#[derive(Debug, Clone, PartialEq, Eq)]
pub enum Content {
    /// `name` is the file itself, and there is no root folder.
    Single { length: u64 },
    /// In stream order. Padding included and flagged, as when reading.
    Multi { files: Vec<TorrentFile> },
}

/// Everything needed to write a torrent. The piece hashes are an input: computing them is a
/// walk over the payload, which belongs to the caller.
#[derive(Debug, Clone, PartialEq, Eq)]
pub struct Draft {
    pub name: String,
    pub piece_length: u64,
    pub pieces: Vec<[u8; 20]>,
    pub content: Content,
    /// Inside `info`, so it changes the infohash.
    pub private: bool,
    /// Inside `info` too, for the private sites that require it.
    pub source: Option<String>,
    /// Tracker tiers. Empty means a trackerless torrent, which is legal.
    pub announce: Vec<Vec<String>>,
    pub comment: Option<String>,
    pub created_by: Option<String>,
    /// Epoch seconds, UTC.
    pub creation_date: Option<i64>,
}

/// A torrent that has been encoded but not yet written.
#[derive(Debug, Clone)]
pub struct Encoded {
    pub bytes: Vec<u8>,
    /// SHA-1 of the `info` dictionary as encoded inside `bytes`.
    pub info_hash: [u8; 20],
}

/// The lengths of these files together.
pub open spec fn sum(files: Seq<TorrentFile>) -> nat
    decreases files.len(),
{
    if files.len() == 0 {
        0
    } else {
        sum(files.drop_last()) + files.last().length as nat
    }
}

pub proof fn lemma_sum_grows(files: Seq<TorrentFile>, k: int)
    requires
        0 <= k <= files.len(),
    ensures
        sum(files.take(k)) <= sum(files),
    decreases files.len() - k,
{
    if k < files.len() {
        lemma_sum_grows(files, k + 1);
        assert(files.take(k + 1).drop_last() =~= files.take(k));
    } else {
        assert(files.take(k) =~= files);
    }
}

impl Draft {
    pub open spec fn total(&self) -> nat {
        match self.content {
            Content::Single { length } => length as nat,
            Content::Multi { files } => sum(files@),
        }
    }

    pub fn total_length(&self) -> (n: u64)
        requires
            self.total() <= u64::MAX,
        ensures
            n == self.total(),
    {
        match &self.content {
            Content::Single { length } => *length,
            Content::Multi { files } => {
                let mut n: u64 = 0;
                let mut k: usize = 0;
                assert(files@.take(0) =~= Seq::<TorrentFile>::empty());
                while k < files.len()
                    invariant
                        k <= files.len(),
                        n == sum(files@.take(k as int)),
                        sum(files@) <= u64::MAX,
                    decreases files.len() - k,
                {
                    proof {
                        lemma_sum_grows(files@, k + 1);
                        assert(files@.take(k + 1).drop_last() =~= files@.take(k as int));
                    }
                    n += files[k].length;
                    k += 1;
                }
                assert(files@.take(files.len() as int) =~= files@);
                n
            },
        }
    }
}

// What may not be written.

/// The words of a fault.
pub open spec fn said(f: Fault) -> Seq<char> {
    match f {
        Fault::Bencode(s) => s,
        Fault::Torrent(s) => s,
        Fault::Unsafe(s) => s,
    }
}

pub open spec fn too_long(what: Seq<char>, length: u64) -> Seq<char> {
    what + " "@ + text::debug_text(text::decimal(length as nat)) + " is not an integer"@
}

/// Why the file entries from `k` on cannot be written: a path is empty.
pub open spec fn path_objection(files: Seq<TorrentFile>, k: int) -> Option<Seq<char>>
    decreases files.len() - k,
{
    if k < 0 || k >= files.len() {
        None
    } else if files[k].path@.len() == 0 {
        Some("a file entry has an empty path"@)
    } else {
        path_objection(files, k + 1)
    }
}

/// Why a reader would refuse one of the files from `k` on.
pub open spec fn file_objection(files: Seq<TorrentFile>, k: int) -> Option<Seq<char>>
    decreases files.len() - k,
{
    if k < 0 || k >= files.len() {
        None
    } else if files[k].length > i64::MAX {
        Some(too_long("file length"@, files[k].length))
    } else {
        match values::components_fault(text::views(files[k].path@)) {
            Some(f) => Some(said(f)),
            None => file_objection(files, k + 1),
        }
    }
}

/// Why a draft cannot be written.
pub open spec fn objection(d: Draft) -> Option<Seq<char>> {
    let total = d.total() as int;
    let piece_length = d.piece_length as int;
    if d.name@.len() == 0 {
        Some("a torrent needs a name"@)
    } else if d.piece_length == 0 {
        Some("piece length cannot be zero"@)
    } else if total == 0 {
        Some(d.name@ + " has no data in it to seed"@)
    } else if d.pieces@.len() != metainfo::pieces_for(total, piece_length) {
        Some(
            text::decimal(d.pieces@.len()) + " piece hashes for "@ + text::decimal(total as nat)
                + " bytes at "@ + text::decimal(piece_length as nat) + " per piece; expected "@
                + text::decimal(metainfo::pieces_for(total, piece_length) as nat),
        )
    } else if d.content matches Content::Multi { files } && path_objection(files@, 0) is Some {
        path_objection(d.content->files@, 0)
    } else if d.piece_length > MAX_PIECE_LENGTH {
        Some("implausible piece length "@ + text::decimal(d.piece_length as nat))
    } else if values::component_fault(d.name@, "name"@) is Some {
        Some(said(values::component_fault(d.name@, "name"@)->0))
    } else {
        match d.content {
            Content::Single { length } => if length > i64::MAX {
                Some(too_long("length"@, length))
            } else {
                None
            },
            Content::Multi { files } => file_objection(files@, 0),
        }
    }
}

fn refused(detail: &str) -> (e: Error)
    ensures
        e matches Error::TorrentEncode { detail: d } && d@ == detail@,
{
    Error::TorrentEncode { detail: detail.to_owned() }
}

fn too_long_text(what: &str, length: u64) -> (s: String)
    ensures
        s@ == too_long(what@, length),
{
    let mut d = what.to_owned();
    d.append(" ");
    d.append(&debug_of(&decimal_string(length)));
    d.append(" is not an integer");
    d
}

/// What a reader would say of a component, without the file it would say it of.
fn component_detail(c: &str, what: &str) -> (r: Option<String>)
    ensures
        match r {
            None => values::component_fault(c@, what@) is None,
            Some(s) => values::component_fault(c@, what@) matches Some(f) && s@ == said(f),
        },
{
    match validate_component(c, "", what) {
        Ok(_) => None,
        Err(e) => match e {
            Error::UnsafeTorrentPath { path: _, detail } => Some(detail),
            _ => None,
        },
    }
}

fn check_paths(files: &Vec<TorrentFile>) -> (r: Result<(), Error>)
    ensures
        match r {
            Ok(_) => path_objection(files@, 0) is None,
            Err(e) => path_objection(files@, 0) matches Some(d) && (
            e matches Error::TorrentEncode { detail } && detail@ == d),
        },
{
    let mut k: usize = 0;
    while k < files.len()
        invariant
            k <= files.len(),
            path_objection(files@, 0) == path_objection(files@, k as int),
        decreases files.len() - k,
    {
        if files[k].path.len() == 0 {
            return Err(refused("a file entry has an empty path"));
        }
        k += 1;
    }
    Ok(())
}

fn check_files(files: &Vec<TorrentFile>) -> (r: Result<(), Error>)
    ensures
        match r {
            Ok(_) => file_objection(files@, 0) is None,
            Err(e) => file_objection(files@, 0) matches Some(d) && (
            e matches Error::TorrentEncode { detail } && detail@ == d),
        },
{
    let mut k: usize = 0;
    while k < files.len()
        invariant
            k <= files.len(),
            file_objection(files@, 0) == file_objection(files@, k as int),
        decreases files.len() - k,
    {
        if files[k].length > i64::MAX as u64 {
            return Err(refused(&too_long_text("file length", files[k].length)));
        }
        let path = &files[k].path;
        let ghost cs = text::views(path@);
        let mut j: usize = 0;
        assert(cs.skip(0) =~= cs);
        while j < path.len()
            invariant
                j <= path.len(),
                k < files.len(),
                *path == files@[k as int].path,
                cs == text::views(path@),
                files@[k as int].length <= i64::MAX,
                file_objection(files@, 0) == file_objection(files@, k as int),
                values::components_fault(cs) == values::components_fault(cs.skip(j as int)),
            decreases path.len() - j,
        {
            assert(cs.skip(j as int)[0] == path@[j as int]@);
            assert(cs.skip(j as int).drop_first() =~= cs.skip(j + 1));
            match component_detail(&path[j], "path component") {
                Some(d) => {
                    return Err(refused(&d));
                },
                None => {},
            }
            j += 1;
        }
        k += 1;
    }
    Ok(())
}

/// Refuses to write anything that would then be refused when it is read. The alternative is
/// to produce a file that looks fine until someone tries to seed it.
fn validate(draft: &Draft) -> (r: Result<(), Error>)
    requires
        draft.total() <= u64::MAX,
    ensures
        match r {
            Ok(_) => objection(*draft) is None,
            Err(e) => objection(*draft) matches Some(d) && (e matches Error::TorrentEncode {
                detail,
            } && detail@ == d),
        },
{
    if draft.name.as_str().is_empty() {
        return Err(refused("a torrent needs a name"));
    }
    if draft.piece_length == 0 {
        return Err(refused("piece length cannot be zero"));
    }
    let total: u64 = draft.total_length();
    if total == 0 {
        let mut d = draft.name.clone();
        d.append(" has no data in it to seed");
        return Err(refused(&d));
    }
    let expected: u64 = pieces_needed(total, draft.piece_length);
    if draft.pieces.len() as u64 != expected {
        let mut d = decimal_string(draft.pieces.len() as u64);
        d.append(" piece hashes for ");
        push_decimal(&mut d, total);
        d.append(" bytes at ");
        push_decimal(&mut d, draft.piece_length);
        d.append(" per piece; expected ");
        push_decimal(&mut d, expected);
        return Err(refused(&d));
    }
    match &draft.content {
        Content::Multi { files } => {
            check_paths(files)?;
        },
        _ => {},
    }
    if draft.piece_length > MAX_PIECE_LENGTH {
        let mut d = "implausible piece length ".to_owned();
        push_decimal(&mut d, draft.piece_length);
        return Err(refused(&d));
    }
    match component_detail(&draft.name, "name") {
        Some(d) => {
            return Err(refused(&d));
        },
        None => {},
    }
    match &draft.content {
        Content::Single { length } => if *length > i64::MAX as u64 {
            Err(refused(&too_long_text("length", *length)))
        } else {
            Ok(())
        },
        Content::Multi { files } => check_files(files),
    }
}

// Dictionaries.

/// One entry: a key, and the tokens of its value.
pub type Pair = (Seq<char>, Seq<Tok>);

/// The tokens of entries, one after the other.
pub open spec fn pair_tokens(pairs: Seq<Pair>) -> Seq<Tok>
    decreases pairs.len(),
{
    if pairs.len() == 0 {
        Seq::empty()
    } else {
        pair_tokens(pairs.drop_last()) + seq![Tok::Bytes(bencode::word(pairs.last().0))]
            + pairs.last().1
    }
}

/// A dictionary.
pub open spec fn dict(pairs: Seq<Pair>) -> Seq<Tok> {
    seq![Tok::Dict] + pair_tokens(pairs) + seq![Tok::End]
}

/// The keys come one after the other.
pub open spec fn in_order(pairs: Seq<Pair>) -> bool {
    forall|i: int|
        0 < i < pairs.len() ==> bytes::before(
            bencode::word(pairs[i - 1].0),
            bencode::word((#[trigger] pairs[i]).0),
        )
}

/// A dictionary that is being written, from values that are already encoded. `pairs` is what
/// it holds so far.
struct RawDict {
    out: Vec<u8>,
    pairs: Ghost<Seq<Pair>>,
}

impl RawDict {
    spec fn wf(&self) -> bool {
        &&& self.out@ == bencode::spelled(seq![Tok::Dict] + pair_tokens(self.pairs@))
        &&& in_order(self.pairs@)
    }

    fn new() -> (d: RawDict)
        ensures
            d.wf(),
            d.pairs@ == Seq::<Pair>::empty(),
    {
        let mut out: Vec<u8> = Vec::new();
        out.push(100);
        proof {
            let none = Seq::<Pair>::empty();
            assert(seq![Tok::Dict] + pair_tokens(none) =~= seq![Tok::Dict]);
            lemma_spelled_one(Tok::Dict);
            assert(out@ =~= seq![100u8]);
        }
        RawDict { out, pairs: Ghost(Seq::empty()) }
    }

    /// Puts in one more entry. Its key has to come after the one before it.
    fn put(&mut self, key: &str, value: &Vec<u8>, Ghost(tokens): Ghost<Seq<Tok>>) -> (r: Result<
        (),
        Error,
    >)
        requires
            old(self).wf(),
            value@ == bencode::spelled(tokens),
            old(self).pairs@.len() > 0 ==> bytes::before(
                bencode::word(old(self).pairs@.last().0),
                bencode::word(key@),
            ),
        ensures
            r is Ok,
            final(self).wf(),
            final(self).pairs@ == old(self).pairs@.push((key@, tokens)),
    {
        let ghost before = self.pairs@;
        let ghost head = seq![Tok::Dict] + pair_tokens(before);
        let k = match bencode_text(key) {
            Ok(b) => b,
            Err(said) => {
                return Err(refused(&said));
            },
        };
        push_all(&mut self.out, &k);
        push_all(&mut self.out, value);
        proof {
            let pair = (key@, tokens);
            let now = before.push(pair);
            let word = seq![Tok::Bytes(bencode::word(key@))];
            assert(now.drop_last() =~= before);
            assert(seq![Tok::Dict] + pair_tokens(now) =~= head + word + tokens);
            bencode::lemma_spelled_add(head, word);
            bencode::lemma_spelled_add(head + word, tokens);
            lemma_spelled_one(Tok::Bytes(bencode::word(key@)));
            assert forall|i: int| 0 < i < now.len() implies bytes::before(
                bencode::word(now[i - 1].0),
                bencode::word((#[trigger] now[i]).0),
            ) by {
                if i < before.len() {
                    assert(now[i] == before[i] && now[i - 1] == before[i - 1]);
                }
            }
        }
        self.pairs = Ghost(self.pairs@.push((key@, tokens)));
        Ok(())
    }

    fn put_text(&mut self, key: &str, value: &str) -> (r: Result<(), Error>)
        requires
            old(self).wf(),
            old(self).pairs@.len() > 0 ==> bytes::before(
                bencode::word(old(self).pairs@.last().0),
                bencode::word(key@),
            ),
        ensures
            r is Ok,
            final(self).wf(),
            final(self).pairs@ == old(self).pairs@.push(text_pair(key@, value@)),
    {
        let ghost tokens = seq![Tok::Bytes(bencode::word(value@))];
        proof {
            lemma_spelled_one(tokens[0]);
        }
        let bytes = encoded(bencode_text(value))?;
        self.put(key, &bytes, Ghost(tokens))
    }

    fn put_number(&mut self, key: &str, value: u64) -> (r: Result<(), Error>)
        requires
            old(self).wf(),
            old(self).pairs@.len() > 0 ==> bytes::before(
                bencode::word(old(self).pairs@.last().0),
                bencode::word(key@),
            ),
        ensures
            r is Ok,
            final(self).wf(),
            final(self).pairs@ == old(self).pairs@.push(number_pair(key@, value as int)),
    {
        let ghost tokens = seq![Tok::Num(text::signed_decimal(value as int))];
        proof {
            lemma_spelled_one(tokens[0]);
        }
        let bytes = encoded(bencode_u64(value))?;
        self.put(key, &bytes, Ghost(tokens))
    }

    /// The dictionary.
    fn finish(self) -> (out: Vec<u8>)
        requires
            self.wf(),
        ensures
            out@ == bencode::spelled(dict(self.pairs@)),
    {
        let mut out = self.out;
        out.push(101);
        proof {
            let head = seq![Tok::Dict] + pair_tokens(self.pairs@);
            bencode::lemma_spelled_add(head, seq![Tok::End]);
            lemma_spelled_one(Tok::End);
            assert(out@ =~= bencode::spelled(head) + seq![101u8]);
        }
        out
    }
}

pub proof fn lemma_spelled_one(t: Tok)
    ensures
        bencode::spelled(seq![t]) == bencode::spell(t),
{
    let one = seq![t];
    assert(one.drop_last() =~= Seq::<Tok>::empty());
    assert(bencode::spelled(one.drop_last()) =~= Seq::<u8>::empty());
    assert(bencode::spelled(one) == bencode::spelled(one.drop_last()) + bencode::spell(t));
    assert(bencode::spelled(one) =~= bencode::spell(t));
}

// The order of keys.

/// A word comes before another if it has the smaller character where they first differ.
proof fn lemma_differs_at(a: Seq<u8>, b: Seq<u8>, i: int)
    requires
        0 <= i < a.len(),
        i < b.len(),
        forall|k: int| 0 <= k < i ==> a[k] == b[k],
        a[i] < b[i],
    ensures
        bytes::before(a, b),
    decreases a.len(),
{
    if i > 0 {
        let (x, y) = (a.drop_first(), b.drop_first());
        assert(a[0] == b[0]);
        assert forall|k: int| 0 <= k < i - 1 implies x[k] == y[k] by {
            assert(a[k + 1] == b[k + 1]);
        }
        lemma_differs_at(x, y, i - 1);
    }
}

/// A word comes before those that it begins.
proof fn lemma_begins(a: Seq<u8>, b: Seq<u8>)
    requires
        a.is_prefix_of(b),
        a.len() < b.len(),
    ensures
        bytes::before(a, b),
    decreases a.len(),
{
    if a.len() > 0 {
        assert(a[0] == b.subrange(0, a.len() as int)[0]);
        assert(a.drop_first() =~= b.drop_first().subrange(0, a.len() - 1)) by {
            assert forall|k: int| 0 <= k < a.len() - 1 implies #[trigger] a.drop_first()[k]
                == b.drop_first().subrange(0, a.len() - 1)[k] by {
                assert(a[k + 1] == b.subrange(0, a.len() as int)[k + 1]);
            }
        }
        lemma_begins(a.drop_first(), b.drop_first());
    }
}

/// The words of ASCII texts are ordered as their characters are.
proof fn lemma_text_before(a: Seq<char>, b: Seq<char>, i: int)
    requires
        vstd::utf8::is_ascii_chars(a),
        vstd::utf8::is_ascii_chars(b),
        0 <= i < a.len(),
        i < b.len(),
        forall|k: int| 0 <= k < i ==> a[k] == b[k],
        a[i] < b[i],
    ensures
        bytes::before(bencode::word(a), bencode::word(b)),
{
    bencode::lemma_ascii_word(a);
    bencode::lemma_ascii_word(b);
    let x = bencode::word(a);
    let y = bencode::word(b);
    assert forall|k: int| 0 <= k < i implies x[k] == y[k] by {
        assert(x[k] == a[k] as u8 && y[k] == b[k] as u8);
    }
    let (c, d) = (a[i], b[i]);
    assert(x[i] == c as u8 && y[i] == d as u8);
    lemma_differs_at(x, y, i);
}

/// The keys of a file's dictionary, in order.
pub proof fn lemma_file_order()
    ensures
        bytes::before(bencode::word("attr"@), bencode::word("length"@)),
        bytes::before(bencode::word("length"@), bencode::word("path"@)),
{
    reveal_strlit("attr");
    reveal_strlit("length");
    reveal_strlit("path");
    lemma_text_before("attr"@, "length"@, 0);
    lemma_text_before("length"@, "path"@, 0);
}

/// The keys of the info dictionary, in order.
pub proof fn lemma_info_order()
    ensures
        bytes::before(bencode::word("files"@), bencode::word("name"@)),
        bytes::before(bencode::word("length"@), bencode::word("name"@)),
        bytes::before(bencode::word("name"@), bencode::word("piece length"@)),
        bytes::before(bencode::word("piece length"@), bencode::word("pieces"@)),
        bytes::before(bencode::word("pieces"@), bencode::word("private"@)),
        bytes::before(bencode::word("pieces"@), bencode::word("source"@)),
        bytes::before(bencode::word("private"@), bencode::word("source"@)),
{
    reveal_strlit("files");
    reveal_strlit("length");
    reveal_strlit("name");
    reveal_strlit("piece length");
    reveal_strlit("pieces");
    reveal_strlit("private");
    reveal_strlit("source");
    lemma_text_before("files"@, "name"@, 0);
    lemma_text_before("length"@, "name"@, 0);
    lemma_text_before("name"@, "piece length"@, 0);
    lemma_text_before("piece length"@, "pieces"@, 5);
    lemma_text_before("pieces"@, "private"@, 1);
    lemma_text_before("pieces"@, "source"@, 0);
    lemma_text_before("private"@, "source"@, 0);
}

/// The keys of the outer dictionary, in order.
pub proof fn lemma_outer_order()
    ensures
        bytes::before(bencode::word("announce"@), bencode::word("announce-list"@)),
        bytes::before(bencode::word("announce-list"@), bencode::word("comment"@)),
        bytes::before(bencode::word("announce-list"@), bencode::word("created by"@)),
        bytes::before(bencode::word("announce-list"@), bencode::word("creation date"@)),
        bytes::before(bencode::word("announce-list"@), bencode::word("info"@)),
        bytes::before(bencode::word("comment"@), bencode::word("created by"@)),
        bytes::before(bencode::word("comment"@), bencode::word("creation date"@)),
        bytes::before(bencode::word("comment"@), bencode::word("info"@)),
        bytes::before(bencode::word("created by"@), bencode::word("creation date"@)),
        bytes::before(bencode::word("created by"@), bencode::word("info"@)),
        bytes::before(bencode::word("creation date"@), bencode::word("info"@)),
{
    reveal_strlit("announce");
    reveal_strlit("announce-list");
    reveal_strlit("comment");
    reveal_strlit("created by");
    reveal_strlit("creation date");
    reveal_strlit("info");
    bencode::lemma_ascii_word("announce"@);
    bencode::lemma_ascii_word("announce-list"@);
    assert(bencode::word("announce"@) =~= bencode::word("announce-list"@).subrange(0, 8)) by {
        assert forall|k: int| 0 <= k < 8 implies bencode::word("announce"@)[k]
            == #[trigger] bencode::word("announce-list"@).subrange(0, 8)[k] by {
            assert("announce"@[k] == "announce-list"@[k]);
        }
    }
    lemma_begins(bencode::word("announce"@), bencode::word("announce-list"@));
    lemma_text_before("announce-list"@, "comment"@, 0);
    lemma_text_before("announce-list"@, "created by"@, 0);
    lemma_text_before("announce-list"@, "creation date"@, 0);
    lemma_text_before("announce-list"@, "info"@, 0);
    lemma_text_before("comment"@, "created by"@, 1);
    lemma_text_before("comment"@, "creation date"@, 1);
    lemma_text_before("comment"@, "info"@, 0);
    lemma_text_before("created by"@, "creation date"@, 5);
    lemma_text_before("created by"@, "info"@, 0);
    lemma_text_before("creation date"@, "info"@, 0);
}

// Files, info, and the whole.

/// An entry that is there or not.
pub open spec fn with(pairs: Seq<Pair>, there: bool, pair: Pair) -> Seq<Pair> {
    if there {
        pairs.push(pair)
    } else {
        pairs
    }
}

pub open spec fn text_pair(key: Seq<char>, value: Seq<char>) -> Pair {
    (key, seq![Tok::Bytes(bencode::word(value))])
}

pub open spec fn number_pair(key: Seq<char>, value: int) -> Pair {
    (key, seq![Tok::Num(text::signed_decimal(value))])
}

/// The entries of a file's dictionary.
pub open spec fn file_pairs(f: TorrentFile) -> Seq<Pair> {
    with(Seq::empty(), f.is_pad, text_pair("attr"@, "p"@)).push(
        number_pair("length"@, f.length as int),
    ).push(("path"@, bencode::texts(text::views(f.path@))))
}

/// The tokens of a list of parts.
pub open spec fn list(parts: Seq<Seq<Tok>>) -> Seq<Tok> {
    seq![Tok::List] + seqs::concat(parts) + seq![Tok::End]
}

/// A list of files.
pub open spec fn files_list(files: Seq<TorrentFile>) -> Seq<Tok> {
    list(files.map_values(|f: TorrentFile| dict(file_pairs(f))))
}

/// Hashes laid end to end.
pub open spec fn flat(pieces: Seq<[u8; 20]>) -> Seq<u8>
    decreases pieces.len(),
{
    if pieces.len() == 0 {
        Seq::empty()
    } else {
        flat(pieces.drop_last()) + pieces.last()@
    }
}

/// What the torrent describes, as an entry.
pub open spec fn content_pair(c: Content) -> Pair {
    match c {
        Content::Single { length } => number_pair("length"@, length as int),
        Content::Multi { files } => ("files"@, files_list(files@)),
    }
}

/// The entries of the info dictionary.
pub open spec fn info_pairs(d: Draft) -> Seq<Pair> {
    let pairs = seq![
        content_pair(d.content),
        text_pair("name"@, d.name@),
        number_pair("piece length"@, d.piece_length as int),
        ("pieces"@, seq![Tok::Bytes(flat(d.pieces@))]),
    ];
    let pairs = with(pairs, d.private, number_pair("private"@, 1));
    with(pairs, d.source is Some, text_pair("source"@, d.source->0@))
}

/// A list of tiers.
pub open spec fn tiers_list(tiers: Seq<Seq<Seq<char>>>) -> Seq<Tok> {
    list(tiers.map_values(|t: Seq<Seq<char>>| bencode::texts(t)))
}

/// There is a first tracker: that of the first tier.
pub open spec fn has_first(d: Draft) -> bool {
    d.announce@.len() > 0 && d.announce@[0]@.len() > 0
}

/// The entries of the outer dictionary. The single tracker is the first URL of the first
/// tier; the list carries all of them. A trackerless torrent has neither key.
pub open spec fn outer_pairs(d: Draft) -> Seq<Pair> {
    let none = Seq::<Pair>::empty();
    let a = with(none, has_first(d), text_pair("announce"@, d.announce@[0]@[0]@));
    let b = with(
        a,
        d.announce@.len() > 0,
        ("announce-list"@, tiers_list(values::tier_views(d.announce@))),
    );
    let c = with(b, d.comment is Some, text_pair("comment"@, d.comment->0@));
    let e = with(c, d.created_by is Some, text_pair("created by"@, d.created_by->0@));
    let f = with(
        e,
        d.creation_date is Some,
        number_pair("creation date"@, d.creation_date->0 as int),
    );
    f.push(("info"@, dict(info_pairs(d))))
}

fn encoded(r: Result<Vec<u8>, String>) -> (b: Result<Vec<u8>, Error>)
    requires
        r is Ok,
    ensures
        b is Ok,
        b->Ok_0@ == r->Ok_0@,
{
    match r {
        Ok(b) => Ok(b),
        Err(said) => Err(refused(&said)),
    }
}

fn encode_file(f: &TorrentFile) -> (r: Result<Vec<u8>, Error>)
    ensures
        r is Ok,
        r->Ok_0@ == bencode::spelled(dict(file_pairs(*f))),
{
    let mut d = RawDict::new();
    proof {
        lemma_file_order();
    }
    if f.is_pad {
        // The authoritative marker for padding.
        d.put_text("attr", "p")?;
    }
    d.put_number("length", f.length)?;
    let path = encoded(bencode_texts(&f.path))?;
    d.put("path", &path, Ghost(bencode::texts(text::views(f.path@))))?;
    assert(d.pairs@ =~= file_pairs(*f));
    Ok(d.finish())
}

fn encode_files(files: &Vec<TorrentFile>) -> (r: Result<Vec<u8>, Error>)
    ensures
        r is Ok,
        r->Ok_0@ == bencode::spelled(files_list(files@)),
{
    let ghost parts = files@.map_values(|f: TorrentFile| dict(file_pairs(f)));
    let mut out: Vec<u8> = Vec::new();
    out.push(108);
    let mut k: usize = 0;
    proof {
        lemma_spelled_one(Tok::List);
        assert(parts.take(0) =~= Seq::<Seq<Tok>>::empty());
        assert(seq![Tok::List] + seqs::concat(parts.take(0)) =~= seq![Tok::List]);
        assert(out@ =~= seq![108u8]);
    }
    while k < files.len()
        invariant
            k <= files.len(),
            parts == files@.map_values(|f: TorrentFile| dict(file_pairs(f))),
            out@ == bencode::spelled(seq![Tok::List] + seqs::concat(parts.take(k as int))),
        decreases files.len() - k,
    {
        let f = encode_file(&files[k])?;
        push_all(&mut out, &f);
        proof {
            let head = seq![Tok::List] + seqs::concat(parts.take(k as int));
            assert(parts.take(k + 1).drop_last() =~= parts.take(k as int));
            assert(parts[k as int] == dict(file_pairs(files@[k as int])));
            assert(seq![Tok::List] + seqs::concat(parts.take(k + 1)) =~= head + parts[k as int]);
            bencode::lemma_spelled_add(head, parts[k as int]);
        }
        k += 1;
    }
    out.push(101);
    proof {
        assert(parts.take(files.len() as int) =~= parts);
        lemma_spelled_one(Tok::End);
        bencode::lemma_spelled_add(seq![Tok::List] + seqs::concat(parts), seq![Tok::End]);
    }
    Ok(out)
}

fn encode_tiers(tiers: &Vec<Vec<String>>) -> (r: Result<Vec<u8>, Error>)
    ensures
        r is Ok,
        r->Ok_0@ == bencode::spelled(tiers_list(values::tier_views(tiers@))),
{
    let ghost all = values::tier_views(tiers@);
    let ghost parts = all.map_values(|t: Seq<Seq<char>>| bencode::texts(t));
    let mut out: Vec<u8> = Vec::new();
    out.push(108);
    let mut k: usize = 0;
    proof {
        lemma_spelled_one(Tok::List);
        assert(parts.take(0) =~= Seq::<Seq<Tok>>::empty());
        assert(seq![Tok::List] + seqs::concat(parts.take(0)) =~= seq![Tok::List]);
        assert(out@ =~= seq![108u8]);
    }
    while k < tiers.len()
        invariant
            k <= tiers.len(),
            all == values::tier_views(tiers@),
            parts == all.map_values(|t: Seq<Seq<char>>| bencode::texts(t)),
            out@ == bencode::spelled(seq![Tok::List] + seqs::concat(parts.take(k as int))),
        decreases tiers.len() - k,
    {
        let tier = encoded(bencode_texts(&tiers[k]))?;
        push_all(&mut out, &tier);
        proof {
            let head = seq![Tok::List] + seqs::concat(parts.take(k as int));
            assert(parts.take(k + 1).drop_last() =~= parts.take(k as int));
            assert(parts[k as int] == bencode::texts(text::views(tiers@[k as int]@)));
            assert(seq![Tok::List] + seqs::concat(parts.take(k + 1)) =~= head + parts[k as int]);
            bencode::lemma_spelled_add(head, parts[k as int]);
        }
        k += 1;
    }
    out.push(101);
    proof {
        assert(parts.take(tiers.len() as int) =~= parts);
        lemma_spelled_one(Tok::End);
        bencode::lemma_spelled_add(seq![Tok::List] + seqs::concat(parts), seq![Tok::End]);
    }
    Ok(out)
}

fn encode_info(draft: &Draft) -> (r: Result<Vec<u8>, Error>)
    ensures
        r is Ok,
        r->Ok_0@ == bencode::spelled(dict(info_pairs(*draft))),
{
    let mut pieces: Vec<u8> = Vec::new();
    let mut k: usize = 0;
    assert(draft.pieces@.take(0) =~= Seq::<[u8; 20]>::empty());
    while k < draft.pieces.len()
        invariant
            k <= draft.pieces.len(),
            pieces@ == flat(draft.pieces@.take(k as int)),
        decreases draft.pieces.len() - k,
    {
        assert(draft.pieces@.take(k + 1).drop_last() =~= draft.pieces@.take(k as int));
        push_all(&mut pieces, &draft.pieces[k]);
        k += 1;
    }
    assert(draft.pieces@.take(draft.pieces.len() as int) =~= draft.pieces@);
    let ghost hashes = seq![Tok::Bytes(pieces@)];
    let mut d = RawDict::new();
    proof {
        lemma_info_order();
        lemma_spelled_one(hashes[0]);
    }
    match &draft.content {
        Content::Multi { files } => {
            let value = encode_files(files)?;
            d.put("files", &value, Ghost(files_list(files@)))?;
        },
        Content::Single { length } => {
            d.put_number("length", *length)?;
        },
    }
    d.put_text("name", &draft.name)?;
    d.put_number("piece length", draft.piece_length)?;
    let value = encoded(bencode_bytes(&pieces))?;
    d.put("pieces", &value, Ghost(hashes))?;
    if draft.private {
        d.put_number("private", 1)?;
    }
    match &draft.source {
        Some(s) => {
            d.put_text("source", s)?;
        },
        None => {},
    }
    assert(d.pairs@ =~= info_pairs(*draft));
    Ok(d.finish())
}

/// The outer dictionary, with `info` spliced in as the exact bytes that were hashed.
fn encode_outer(draft: &Draft, info: &Vec<u8>) -> (r: Result<Vec<u8>, Error>)
    requires
        info@ == bencode::spelled(dict(info_pairs(*draft))),
    ensures
        r is Ok,
        r->Ok_0@ == bencode::spelled(dict(outer_pairs(*draft))),
{
    let mut d = RawDict::new();
    proof {
        lemma_outer_order();
    }
    if draft.announce.len() > 0 {
        if draft.announce[0].len() > 0 {
            d.put_text("announce", &draft.announce[0][0])?;
        }
        let tiers = encode_tiers(&draft.announce)?;
        let ghost tokens = tiers_list(values::tier_views(draft.announce@));
        d.put("announce-list", &tiers, Ghost(tokens))?;
    }
    match &draft.comment {
        Some(s) => {
            d.put_text("comment", s)?;
        },
        None => {},
    }
    match &draft.created_by {
        Some(s) => {
            d.put_text("created by", s)?;
        },
        None => {},
    }
    match &draft.creation_date {
        Some(n) => {
            let ghost tokens = seq![Tok::Num(text::signed_decimal(*n as int))];
            proof {
                lemma_spelled_one(tokens[0]);
            }
            let value = encoded(bencode_i64(*n))?;
            d.put("creation date", &value, Ghost(tokens))?;
        },
        None => {},
    }
    d.put("info", info, Ghost(dict(info_pairs(*draft))))?;
    assert(d.pairs@ =~= outer_pairs(*draft));
    Ok(d.finish())
}

/// Encodes a draft into the bytes of a torrent file, with the infohash taken from those
/// bytes.
pub fn encode(draft: &Draft) -> (r: Result<Encoded, Error>)
    requires
        draft.total() <= u64::MAX,
    ensures
        match r {
            Ok(e) => {
                &&& objection(*draft) is None
                &&& e.bytes@ == bencode::spelled(dict(outer_pairs(*draft)))
                &&& e.info_hash@ == digest::sha1_digest(
                    bencode::spelled(dict(info_pairs(*draft))),
                )
            },
            Err(e) => objection(*draft) matches Some(d) && (e matches Error::TorrentEncode {
                detail,
            } && detail@ == d),
        },
{
    validate(draft)?;
    let info = encode_info(draft)?;
    let info_hash = sha1_of(&info);
    let bytes = encode_outer(draft, &info)?;
    Ok(Encoded { bytes, info_hash })
}

/// Encodes only the `info` dictionary, because the infohash is a question that people ask on
/// its own.
pub fn info_bytes(draft: &Draft) -> (r: Result<Vec<u8>, Error>)
    requires
        draft.total() <= u64::MAX,
    ensures
        match r {
            Ok(b) => objection(*draft) is None && b@ == bencode::spelled(dict(info_pairs(*draft))),
            Err(e) => objection(*draft) matches Some(d) && (e matches Error::TorrentEncode {
                detail,
            } && detail@ == d),
        },
{
    validate(draft)?;
    encode_info(draft)
}

} // verus!
