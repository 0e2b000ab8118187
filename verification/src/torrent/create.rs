//! Making a torrent from a folder on disk.
//!
//! Everything downstream of the file list depends on the file list being exactly right, so
//! this module is mostly about being explicit: what was included, what was left out and why,
//! and what order it all went in. Nothing is dropped silently.

use super::bencode;
use super::encode;
use super::encode::{Content, Draft};
use super::metainfo;
use super::metainfo::{pieces_needed, Metainfo, TorrentFile};
use super::round_trip;
use super::stream;
use super::stream::{build_spans, gather, piece_range, segments};
use super::values;
use super::verify;
use crate::bytes;
use crate::bytes::sort_order;
use crate::digest;
use crate::digest::{hex_encode, sha1_of};
use crate::error::Error;
use crate::path;
use crate::path::{file_name_of, join_path, parent_of};
use crate::seqs;
use crate::text;
use crate::text::{chars_of, debug_of, decimal_string, join_strings, push_decimal, same};
use crate::tools::CRATE_VERSION;
use vstd::prelude::*;
use vstd::string::*;

verus! {

/// Piece length bounds. Below 16 KiB the metadata bloats; above 16 MiB a single bad piece
/// costs an absurd amount of downloading again.
pub const MIN_PIECE_LENGTH: u64 = 16384;

pub const MAX_PIECE_LENGTH: u64 = 16777216;

/// What the automatic piece length aims for. A piece costs 20 bytes, so this also decides
/// how big the torrent file itself gets.
pub const TARGET_PIECES: u64 = 2000;

#[derive(Debug, Clone)]
pub struct CreateOpts {
    /// Tracker tiers, already resolved to real URLs. Empty makes a trackerless torrent.
    pub announce: Vec<Vec<String>>,
    /// `None` picks one from the payload size.
    pub piece_length: Option<u64>,
    pub private: bool,
    pub source: Option<String>,
    pub comment: Option<String>,
    /// Keep the files that would otherwise be left out as noise.
    pub include_all: bool,
    pub overwrite: bool,
    pub created_by: String,
}

impl Default for CreateOpts {
    fn default() -> (o: CreateOpts)
        ensures
            o.announce@.len() == 0,
            o.piece_length is None,
            !o.private,
            o.source is None,
            o.comment is None,
            !o.include_all,
            !o.overwrite,
            o.created_by@ == "Little Helper "@ + CRATE_VERSION@,
    {
        let mut created_by = "Little Helper ".to_owned();
        created_by.append(CRATE_VERSION);
        CreateOpts {
            announce: Vec::new(),
            piece_length: None,
            private: false,
            source: None,
            comment: None,
            include_all: false,
            overwrite: false,
            created_by,
        }
    }
}

/// Why something on disk did not make it into the torrent.
#[derive(Debug, Clone, Copy, PartialEq, Eq, Structural)]
pub enum Skipped {
    /// Metadata of the operating system, a torrent, or a staging file.
    Noise,
    /// A torrent cannot express an empty folder at all.
    EmptyDirectory,
}

impl Skipped {
    pub fn reason(self) -> (s: &'static str)
        ensures
            s@ == match self {
                Skipped::Noise => "not part of the recording"@,
                Skipped::EmptyDirectory =>
                    "empty directories cannot be expressed in a v1 torrent"@,
            },
    {
        match self {
            Skipped::Noise => "not part of the recording",
            Skipped::EmptyDirectory => "empty directories cannot be expressed in a v1 torrent",
        }
    }
}

/// What was made, and what was left out of it.
#[derive(Debug, Clone)]
pub struct Created {
    pub path: String,
    pub info_hash: [u8; 20],
    pub name: String,
    pub piece_length: u64,
    pub pieces: usize,
    pub files: Vec<TorrentFile>,
    pub total_length: u64,
    /// Never dropped silently: the caller is expected to show these.
    pub excluded: Vec<(String, Skipped)>,
}

impl Created {
    pub fn info_hash_hex(&self) -> (s: String)
        ensures
            s@ == digest::hex_text(self.info_hash@),
    {
        hex_encode(&self.info_hash)
    }
}

/// The name that a torrent gets: that of the folder or the file that it is made of, whose full
/// path is `full`.
pub fn torrent_name(source: &str, full: &str) -> (r: Result<String, Error>)
    ensures
        match r {
            Ok(n) => path::file_name(full@) == Some(n@),
            Err(e) => path::file_name(full@) is None && (e matches Error::TorrentEncode { detail }
                && detail@ == source@ + " has no name to give the torrent"@),
        },
{
    match file_name_of(full) {
        Some(n) => Ok(n),
        None => {
            let mut detail = source.to_owned();
            detail.append(" has no name to give the torrent");
            Err(Error::TorrentEncode { detail })
        },
    }
}

/// Where a torrent goes when nobody names a destination, where the source has a name.
pub open spec fn output_of(source: Seq<char>) -> Option<Seq<char>> {
    match (path::parent(source), path::file_name(source)) {
        (Some(d), Some(n)) => Some(path::join(d, n + ".torrent"@)),
        _ => None,
    }
}

/// Where a torrent goes when nobody names a destination: beside the source, named after it.
/// Writing it inside the folder that it describes would add a file to that folder, so that
/// making it again later gives a different infohash.
pub fn default_output(source: &str) -> (r: Option<String>)
    ensures
        match output_of(source@) {
            Some(p) => r matches Some(s) && s@ == p,
            None => r is None,
        },
{
    match parent_of(source) {
        None => None,
        Some(d) => match file_name_of(source) {
            None => None,
            Some(n) => {
                let mut name = n;
                name.append(".torrent");
                Some(join_path(&d, &name))
            },
        },
    }
}

// What goes in.

pub open spec fn ends_with(s: Seq<char>, end: Seq<char>) -> bool {
    end.len() <= s.len() && s.skip(s.len() - end.len()) == end
}

/// Names that are left out unless told otherwise. Nobody wants them in a seed, and a torrent
/// of a torrent helps no one.
pub open spec fn is_noise(name: Seq<char>) -> bool {
    ||| name == ".DS_Store"@
    ||| name == "Thumbs.db"@
    ||| name == "desktop.ini"@
    ||| metainfo::starts_with(name, "._"@)
    ||| ends_with(name, ".torrent"@)
    ||| metainfo::starts_with(name, "."@) && ends_with(name, ".part"@)
}

fn ends(s: &str, end: &str) -> (b: bool)
    ensures
        b == ends_with(s@, end@),
{
    let v = chars_of(s);
    let e = chars_of(end);
    if e.len() > v.len() {
        return false;
    }
    let from: usize = v.len() - e.len();
    let mut i: usize = 0;
    while i < e.len()
        invariant
            i <= e.len() <= v.len(),
            from == v.len() - e.len(),
            v@ == s@,
            e@ == end@,
            forall|k: int| 0 <= k < i ==> e@[k] == v@[from + k],
        decreases e.len() - i,
    {
        if e[i] != v[from + i] {
            assert(s@.skip(from as int)[i as int] == v@[from + i]);
            return false;
        }
        i += 1;
    }
    assert(s@.skip(from as int) =~= end@);
    true
}

fn noise(name: &str) -> (b: bool)
    ensures
        b == is_noise(name@),
{
    same(name, ".DS_Store") || same(name, "Thumbs.db") || same(name, "desktop.ini")
        || metainfo::begins(name, "._") || ends(name, ".torrent") || (metainfo::begins(name, ".")
        && ends(name, ".part"))
}

/// One thing that a walk through a folder comes by. Folders are walked in the order of their
/// names, each entered and left.
#[derive(Debug, Clone)]
pub enum Seen {
    Enter { name: String, path: String },
    Leave,
    File { name: String, path: String, length: u64 },
    Link { path: String },
    /// A name that is not text; what can be shown of it.
    Unnamed { shown: String },
}

/// A file that goes into the torrent.
#[derive(Debug, Clone)]
pub struct SourceFile {
    /// Path components relative to the torrent root.
    pub path: Vec<String>,
    /// Where it actually lives.
    pub disk: String,
    pub length: u64,
}

/// What keeps a folder from becoming a torrent. A link is refused rather than followed:
/// following one pulls data from outside the folder into a torrent that the user believes
/// describes the folder.
pub open spec fn walk_objection(s: Seen, root: Seq<char>) -> Option<Seq<char>> {
    match s {
        Seen::Link { path } => Some(
            path@ + " is a symbolic link; following it could put data from outside "@ + root
                + " into the torrent"@,
        ),
        Seen::Unnamed { shown } => Some(
            text::debug_text(shown@)
                + " is not valid UTF-8, and torrent paths must be (BEP 3)"@,
        ),
        _ => None,
    }
}

/// Whether a file that is come by goes in.
pub open spec fn goes_in(s: Seen, include_all: bool) -> bool {
    s matches Seen::File { name, path: _, length: _ } && (include_all || !is_noise(name@))
}

/// A folder that is open during a walk.
pub struct Open {
    pub name: Seq<char>,
    pub path: Seq<char>,
    /// Something was found in it.
    pub found: bool,
}

/// Something was found in the folder that is open.
pub open spec fn mark(open: Seq<Open>) -> Seq<Open> {
    if open.len() == 0 {
        open
    } else {
        open.drop_last().push(
            Open { name: open.last().name, path: open.last().path, found: true },
        )
    }
}

/// The folders that are open after these steps of a walk.
pub open spec fn open_after(seen: Seq<Seen>, include_all: bool) -> Seq<Open>
    decreases seen.len(),
{
    if seen.len() == 0 {
        Seq::empty()
    } else {
        let open = open_after(seen.drop_last(), include_all);
        match seen.last() {
            Seen::Enter { name, path } => mark(open).push(
                Open { name: name@, path: path@, found: false },
            ),
            Seen::Leave => if open.len() > 0 {
                open.drop_last()
            } else {
                open
            },
            _ => if goes_in(seen.last(), include_all) {
                mark(open)
            } else {
                open
            },
        }
    }
}

pub open spec fn names(open: Seq<Open>) -> Seq<Seq<char>> {
    open.map_values(|o: Open| o.name)
}

/// A file of a walk: its components, where it lives, its length.
pub type Item = (Seq<Seq<char>>, Seq<char>, u64);

/// The files that go in, in the order of the walk.
pub open spec fn included(seen: Seq<Seen>, include_all: bool) -> Seq<Item>
    decreases seen.len(),
{
    if seen.len() == 0 {
        Seq::empty()
    } else {
        let front = included(seen.drop_last(), include_all);
        match seen.last() {
            Seen::File { name, path, length } if include_all || !is_noise(name@) => front.push(
                (names(open_after(seen.drop_last(), include_all)).push(name@), path@, length),
            ),
            _ => front,
        }
    }
}

/// What was left out, in the order of the walk.
pub open spec fn left_out(seen: Seq<Seen>, include_all: bool) -> Seq<(Seq<char>, Skipped)>
    decreases seen.len(),
{
    if seen.len() == 0 {
        Seq::empty()
    } else {
        let front = left_out(seen.drop_last(), include_all);
        let open = open_after(seen.drop_last(), include_all);
        match seen.last() {
            Seen::File { name, path, length: _ } if !include_all && is_noise(name@) => front.push(
                (path@, Skipped::Noise),
            ),
            Seen::Leave => if open.len() > 0 && !open.last().found {
                front.push((open.last().path, Skipped::EmptyDirectory))
            } else {
                front
            },
            _ => front,
        }
    }
}

pub open spec fn items(files: Seq<SourceFile>) -> Seq<Item> {
    files.map_values(|f: SourceFile| (text::views(f.path@), f.disk@, f.length))
}

pub open spec fn skipped(excluded: Seq<(String, Skipped)>) -> Seq<(Seq<char>, Skipped)> {
    excluded.map_values(|e: (String, Skipped)| (e.0@, e.1))
}

/// The first step of a walk, from `k` on, that is refused.
pub open spec fn first_refused(seen: Seq<Seen>, root: Seq<char>, k: int) -> int
    decreases seen.len() - k,
{
    if k < 0 || k >= seen.len() || walk_objection(seen[k], root) is Some {
        k
    } else {
        first_refused(seen, root, k + 1)
    }
}

struct OpenDir {
    name: String,
    path: String,
    found: bool,
}

spec fn open_views(open: Seq<OpenDir>) -> Seq<Open> {
    open.map_values(|o: OpenDir| Open { name: o.name@, path: o.path@, found: o.found })
}

fn mark_last(open: &mut Vec<OpenDir>)
    ensures
        open_views(final(open)@) == mark(open_views(old(open)@)),
{
    let ghost before = open_views(open@);
    match open.pop() {
        Some(o) => {
            let ghost rest = open_views(open@);
            assert(rest =~= before.drop_last());
            open.push(OpenDir { name: o.name, path: o.path, found: true });
            assert(open_views(open@) =~= mark(before));
        },
        None => {
            assert(open_views(open@) =~= mark(before));
        },
    }
}

fn components(open: &Vec<OpenDir>, name: &str) -> (r: Vec<String>)
    ensures
        text::views(r@) == names(open_views(open@)).push(name@),
{
    let mut r: Vec<String> = Vec::new();
    let mut i: usize = 0;
    while i < open.len()
        invariant
            i <= open.len(),
            r.len() == i,
            forall|k: int| 0 <= k < i ==> (#[trigger] r@[k])@ == open@[k].name@,
        decreases open.len() - i,
    {
        r.push(open[i].name.clone());
        i += 1;
    }
    r.push(name.to_owned());
    assert(text::views(r@) =~= names(open_views(open@)).push(name@));
    r
}

fn cannot_encode(detail: &str) -> (e: Error)
    ensures
        e matches Error::TorrentEncode { detail: d } && d@ == detail@,
{
    Error::TorrentEncode { detail: detail.to_owned() }
}

/// The files that go in and what was left out, of a walk through the folder `root`.
pub open spec fn is_walked(
    files: Seq<SourceFile>,
    excluded: Seq<(String, Skipped)>,
    root: Seq<char>,
    seen: Seq<Seen>,
    include_all: bool,
) -> bool {
    &&& first_refused(seen, root, 0) >= seen.len()
    &&& items(files) == included(seen, include_all)
    &&& skipped(excluded) == left_out(seen, include_all)
}

/// Turns a walk through the folder `root` into the files that go in and what was left out,
/// both in the order of the walk.
pub fn walk(root: &str, seen: &[Seen], include_all: bool) -> (r: Result<
    (Vec<SourceFile>, Vec<(String, Skipped)>),
    Error,
>)
    ensures
        ({
            let i = first_refused(seen@, root@, 0);
            match r {
                Ok((files, excluded)) => is_walked(
                    files@,
                    excluded@,
                    root@,
                    seen@,
                    include_all,
                ),
                Err(e) => i < seen@.len() && (walk_objection(seen@[i], root@) matches Some(d) && (
                e matches Error::TorrentEncode { detail } && detail@ == d)),
            }
        }),
{
    let mut files: Vec<SourceFile> = Vec::new();
    let mut excluded: Vec<(String, Skipped)> = Vec::new();
    let mut open: Vec<OpenDir> = Vec::new();
    let mut i: usize = 0;
    proof {
        assert(seen@.take(0) =~= Seq::<Seen>::empty());
        assert(open_views(open@) =~= open_after(seen@.take(0), include_all));
        assert(items(files@) =~= included(seen@.take(0), include_all));
        assert(skipped(excluded@) =~= left_out(seen@.take(0), include_all));
    }
    while i < seen.len()
        invariant
            i <= seen.len(),
            first_refused(seen@, root@, 0) == first_refused(seen@, root@, i as int),
            open_views(open@) == open_after(seen@.take(i as int), include_all),
            items(files@) == included(seen@.take(i as int), include_all),
            skipped(excluded@) == left_out(seen@.take(i as int), include_all),
        decreases seen.len() - i,
    {
        let ghost before = seen@.take(i as int);
        let ghost had_open = open_views(open@);
        let ghost had_files = items(files@);
        let ghost had_excluded = skipped(excluded@);
        assert(seen@.take(i + 1).drop_last() =~= before);
        assert(seen@.take(i + 1).last() == seen@[i as int]);
        match &seen[i] {
            Seen::Link { path } => {
                let mut d = path.clone();
                d.append(" is a symbolic link; following it could put data from outside ");
                d.append(root);
                d.append(" into the torrent");
                return Err(cannot_encode(&d));
            },
            Seen::Unnamed { shown } => {
                let mut d = debug_of(shown);
                d.append(" is not valid UTF-8, and torrent paths must be (BEP 3)");
                return Err(cannot_encode(&d));
            },
            Seen::Enter { name, path } => {
                mark_last(&mut open);
                let ghost marked = open@;
                open.push(OpenDir { name: name.clone(), path: path.clone(), found: false });
                assert(open_views(open@) =~= open_views(marked).push(
                    Open { name: name@, path: path@, found: false },
                ));
            },
            Seen::Leave => {
                let ghost was = open@;
                match open.pop() {
                    Some(o) => {
                        assert(open_views(open@) =~= had_open.drop_last());
                        assert(had_open.last() == open_views(was).last());
                        if !o.found {
                            let ghost p = o.path@;
                            excluded.push((o.path, Skipped::EmptyDirectory));
                            assert(skipped(excluded@) =~= had_excluded.push(
                                (p, Skipped::EmptyDirectory),
                            ));
                        }
                    },
                    None => {
                        assert(had_open.len() == 0);
                    },
                }
            },
            Seen::File { name, path, length } => {
                if !include_all && noise(name) {
                    excluded.push((path.clone(), Skipped::Noise));
                    assert(skipped(excluded@) =~= had_excluded.push((path@, Skipped::Noise)));
                } else {
                    let comps = components(&open, name);
                    let ghost c = text::views(comps@);
                    files.push(SourceFile { path: comps, disk: path.clone(), length: *length });
                    assert(items(files@) =~= had_files.push((c, path@, *length)));
                    mark_last(&mut open);
                }
            },
        }
        i += 1;
    }
    assert(seen@.take(seen.len() as int) =~= seen@);
    Ok((files, excluded))
}

/// What files are sorted by: the bytes of the whole path. A different order is a different
/// infohash, and the torrent would then never match anyone else's of the same files.
pub open spec fn file_key(path: Seq<Seq<char>>) -> Seq<u8> {
    bencode::word(text::join(path, "/"@))
}

/// The files, each once, in the order of the stream.
pub open spec fn is_sorted(sorted: Seq<SourceFile>, files: Seq<SourceFile>) -> bool {
    let keys = files.map_values(|f: SourceFile| file_key(text::views(f.path@)));
    exists|order: Seq<usize>|
        {
            &&& #[trigger] bytes::is_order(order, files.len() as int)
            &&& bytes::sorts(order, keys)
            &&& items(sorted) == order.map_values(|k: usize| items(files)[k as int])
        }
}

/// Puts the files into the order that the stream uses.
pub fn sort_files(files: Vec<SourceFile>) -> (sorted: Vec<SourceFile>)
    ensures
        is_sorted(sorted@, files@),
{
    let mut keys: Vec<Vec<u8>> = Vec::new();
    let mut i: usize = 0;
    while i < files.len()
        invariant
            i <= files.len(),
            keys.len() == i,
            forall|k: int|
                0 <= k < i ==> (#[trigger] keys@[k])@ == file_key(text::views(files@[k].path@)),
        decreases files.len() - i,
    {
        let joined = join_strings(&files[i].path, "/");
        keys.push(joined.as_str().as_bytes_vec());
        i += 1;
    }
    let order = sort_order(&keys);
    let mut sorted: Vec<SourceFile> = Vec::new();
    let mut i: usize = 0;
    while i < order.len()
        invariant
            i <= order.len(),
            order.len() == files.len(),
            bytes::is_order(order@, files.len() as int),
            sorted.len() == i,
            forall|k: int|
                0 <= k < i ==> {
                    let (a, b) = (#[trigger] sorted@[k], files@[order@[k] as int]);
                    text::views(a.path@) == text::views(b.path@) && a.disk@ == b.disk@
                        && a.length == b.length
                },
        decreases order.len() - i,
    {
        assert(order@[i as int] < files.len());
        let f = &files[order[i]];
        sorted.push(
            SourceFile { path: copy_texts(&f.path), disk: f.disk.clone(), length: f.length },
        );
        i += 1;
    }
    proof {
        let all = seqs::nested(keys@);
        let want = files@.map_values(|f: SourceFile| file_key(text::views(f.path@)));
        assert(all =~= want);
        assert(items(sorted@) =~= order@.map_values(|k: usize| items(files@)[k as int])) by {
            assert forall|k: int| 0 <= k < sorted@.len() implies items(sorted@)[k] == items(
                files@,
            )[order@[k] as int] by {
                let (a, b) = (sorted@[k], files@[order@[k] as int]);
                assert(order@[k] < files.len());
                assert(items(files@)[order@[k] as int] == (
                    text::views(b.path@),
                    b.disk@,
                    b.length,
                ));
            }
        }
    }
    sorted
}

/// A copy of a list of texts.
pub fn copy_texts(l: &Vec<String>) -> (r: Vec<String>)
    ensures
        text::views(r@) == text::views(l@),
{
    let mut r: Vec<String> = Vec::new();
    let mut i: usize = 0;
    while i < l.len()
        invariant
            i <= l.len(),
            r.len() == i,
            forall|k: int| 0 <= k < i ==> (#[trigger] r@[k])@ == l@[k]@,
        decreases l.len() - i,
    {
        r.push(l[i].clone());
        i += 1;
    }
    assert(text::views(r@) =~= text::views(l@));
    r
}

// Pieces.

/// A piece length that clients accept: a power of two within bounds.
pub open spec fn is_piece_length(n: int) -> bool {
    exists|k: nat| k <= 10 && n == MIN_PIECE_LENGTH * #[trigger] vstd::arithmetic::power2::pow2(k)
}

proof fn lemma_piece_lengths(k: nat)
    ensures
        vstd::arithmetic::power2::pow2(0) == 1,
        vstd::arithmetic::power2::pow2(k + 1) == 2 * vstd::arithmetic::power2::pow2(k),
        vstd::arithmetic::power2::pow2(10) == 1024,
{
    vstd::arithmetic::power2::lemma2_to64();
    vstd::arithmetic::power2::lemma_pow2_unfold(k + 1);
}

/// The piece length of a payload: the one that was asked for; and where none was, the
/// smallest that keeps the number of pieces within bounds, or the greatest where none does.
pub open spec fn is_chosen_length(n: int, total: int, wanted: Option<u64>) -> bool {
    &&& is_piece_length(n)
    &&& match wanted {
        Some(w) => n == w,
        None => {
            &&& n == MAX_PIECE_LENGTH || metainfo::pieces_for(total, n) <= TARGET_PIECES
            &&& n == MIN_PIECE_LENGTH || metainfo::pieces_for(total, n / 2) > TARGET_PIECES
        },
    }
}

/// The smallest piece length that clients accept and that keeps the number of pieces within
/// bounds; the greatest where none does.
pub fn auto_piece_length(total_length: u64) -> (n: u64)
    ensures
        is_chosen_length(n as int, total_length as int, None),
{
    proof {
        lemma_piece_lengths(0);
    }
    let mut n: u64 = MIN_PIECE_LENGTH;
    let ghost mut k: nat = 0;
    while n < MAX_PIECE_LENGTH && pieces_needed(total_length, n) > TARGET_PIECES
        invariant
            k <= 10,
            n == MIN_PIECE_LENGTH * vstd::arithmetic::power2::pow2(k),
            MIN_PIECE_LENGTH <= n <= MAX_PIECE_LENGTH,
            n == MIN_PIECE_LENGTH || metainfo::pieces_for(total_length as int, n as int / 2)
                > TARGET_PIECES,
        decreases MAX_PIECE_LENGTH - n,
    {
        proof {
            lemma_piece_lengths(k);
            if k == 10 {
                assert(n == MAX_PIECE_LENGTH);
            }
            k = k + 1;
            lemma_pow2_grows(k);
        }
        n = n * 2;
    }
    n
}

pub proof fn lemma_pow2_grows(k: nat)
    requires
        k <= 10,
    ensures
        1 <= vstd::arithmetic::power2::pow2(k) <= 1024,
    decreases 10 - k,
{
    lemma_piece_lengths(k);
    vstd::arithmetic::power2::lemma_pow2_pos(k);
    if k < 10 {
        lemma_pow2_grows(k + 1);
    }
}

pub open spec fn bad_piece_length(n: u64) -> Seq<char> {
    "piece length "@ + text::decimal(n as nat) + " is not a power of two between "@
        + text::decimal(MIN_PIECE_LENGTH as nat) + " and "@ + text::decimal(
        MAX_PIECE_LENGTH as nat,
    ) + " bytes"@
}

/// Refuses a piece length that clients would reject: a torrent that nobody can load is worse
/// than an argument error.
pub fn validate_piece_length(n: u64) -> (r: Result<(), Error>)
    ensures
        match r {
            Ok(_) => is_piece_length(n as int),
            Err(e) => !is_piece_length(n as int) && (e matches Error::TorrentEncode { detail }
                && detail@ == bad_piece_length(n)),
        },
{
    proof {
        lemma_piece_lengths(0);
    }
    let mut m: u64 = MIN_PIECE_LENGTH;
    let ghost mut k: nat = 0;
    while m < n && m < MAX_PIECE_LENGTH
        invariant
            k <= 10,
            m == MIN_PIECE_LENGTH * vstd::arithmetic::power2::pow2(k),
            MIN_PIECE_LENGTH <= m <= MAX_PIECE_LENGTH,
            forall|j: nat|
                j < k ==> n != MIN_PIECE_LENGTH * #[trigger] vstd::arithmetic::power2::pow2(j),
        decreases MAX_PIECE_LENGTH - m,
    {
        proof {
            lemma_piece_lengths(k);
            if k == 10 {
                assert(m == MAX_PIECE_LENGTH);
            }
            k = k + 1;
            lemma_pow2_grows(k);
        }
        m = m * 2;
    }
    if m == n {
        return Ok(());
    }
    proof {
        if is_piece_length(n as int) {
            let j = choose|j: nat|
                j <= 10 && n == MIN_PIECE_LENGTH * #[trigger] vstd::arithmetic::power2::pow2(j);
            lemma_pow2_grows(j);
            if j > k {
                vstd::arithmetic::power2::lemma_pow2_strictly_increases(k, j);
                assert(n > m);
                assert(m == MAX_PIECE_LENGTH);
            }
            assert(j == k);
        }
    }
    let mut d = "piece length ".to_owned();
    push_decimal(&mut d, n);
    d.append(" is not a power of two between ");
    push_decimal(&mut d, MIN_PIECE_LENGTH);
    d.append(" and ");
    push_decimal(&mut d, MAX_PIECE_LENGTH);
    d.append(" bytes");
    Err(cannot_encode(&d))
}

/// Every piece length that is accepted, the automatic one among them, is within bounds and
/// can be read back.
pub proof fn law_accepted_piece_lengths_are_readable(n: int)
    requires
        is_piece_length(n),
    ensures
        MIN_PIECE_LENGTH <= n <= MAX_PIECE_LENGTH,
        n <= super::metainfo::MAX_PIECE_LENGTH,
{
    let k = choose|k: nat|
        k <= 10 && n == MIN_PIECE_LENGTH * #[trigger] vstd::arithmetic::power2::pow2(k);
    lemma_pow2_grows(k);
}

/// The piece length of a payload is determined by its length and by what was asked for.
pub proof fn law_piece_length_is_determined(a: int, b: int, total: int, wanted: Option<u64>)
    requires
        total >= 0,
        is_chosen_length(a, total, wanted),
        is_chosen_length(b, total, wanted),
    ensures
        a == b,
{
    lemma_smaller_length(a, b, total, wanted);
    lemma_smaller_length(b, a, total, wanted);
}

proof fn lemma_smaller_length(a: int, b: int, total: int, wanted: Option<u64>)
    requires
        total >= 0,
        is_chosen_length(a, total, wanted),
        is_chosen_length(b, total, wanted),
    ensures
        a >= b,
{
    if wanted is None && a < b {
        let j = choose|k: nat|
            k <= 10 && a == MIN_PIECE_LENGTH * #[trigger] vstd::arithmetic::power2::pow2(k);
        let k = choose|k: nat|
            k <= 10 && b == MIN_PIECE_LENGTH * #[trigger] vstd::arithmetic::power2::pow2(k);
        lemma_pow2_grows(j);
        lemma_pow2_grows(k);
        if k <= j {
            if k < j {
                vstd::arithmetic::power2::lemma_pow2_strictly_increases(k, j);
            }
            assert(false);
        }
        let half = (k - 1) as nat;
        lemma_piece_lengths(half);
        lemma_pow2_grows(half);
        assert(b / 2 == MIN_PIECE_LENGTH * vstd::arithmetic::power2::pow2(half));
        if j < half {
            vstd::arithmetic::power2::lemma_pow2_strictly_increases(j, half);
        }
        assert(a <= b / 2);
        lemma_fewer_pieces(total, a, b / 2);
    }
}

/// Longer pieces are no more of them.
proof fn lemma_fewer_pieces(total: int, a: int, b: int)
    requires
        total >= 0,
        0 < a <= b,
    ensures
        metainfo::pieces_for(total, b) <= metainfo::pieces_for(total, a),
{
    let q = metainfo::pieces_for(total, a);
    let r = metainfo::pieces_for(total, b);
    vstd::arithmetic::div_mod::lemma_fundamental_div_mod(total + a - 1, a);
    vstd::arithmetic::div_mod::lemma_fundamental_div_mod(total + b - 1, b);
    assert(r <= q) by (nonlinear_arith)
        requires
            total >= 0,
            0 < a <= b,
            a * q >= total,
            b * r <= total + b - 1,
            q >= 0,
    ;
}

/// The lengths of the files that go in.
pub open spec fn source_lengths(files: Seq<SourceFile>) -> Seq<u64> {
    files.map_values(|f: SourceFile| f.length)
}

fn lengths_vec(files: &Vec<SourceFile>) -> (r: Vec<u64>)
    ensures
        r@ == source_lengths(files@),
{
    let mut r: Vec<u64> = Vec::new();
    let mut i: usize = 0;
    while i < files.len()
        invariant
            i <= files.len(),
            r.len() == i,
            forall|k: int| 0 <= k < i ==> r@[k] == files@[k].length,
        decreases files.len() - i,
    {
        r.push(files[i].length);
        i += 1;
    }
    assert(r@ =~= source_lengths(files@));
    r
}

fn sum_of(ls: &Vec<u64>) -> (n: u64)
    requires
        stream::sum(ls@) <= u64::MAX,
    ensures
        n == stream::sum(ls@),
{
    let mut n: u64 = 0;
    let mut i: usize = 0;
    assert(ls@.take(0) =~= Seq::<u64>::empty());
    while i < ls.len()
        invariant
            i <= ls.len(),
            n == stream::sum(ls@.take(i as int)),
            stream::sum(ls@) <= u64::MAX,
        decreases ls.len() - i,
    {
        proof {
            assert(ls@.take(i + 1).drop_last() =~= ls@.take(i as int));
            stream::lemma_sum_grows(ls@, i + 1, ls@.len() as int);
            assert(ls@.take(ls@.len() as int) =~= ls@);
        }
        n += ls[i];
        i += 1;
    }
    assert(ls@.take(ls@.len() as int) =~= ls@);
    n
}

/// How a payload is cut.
#[derive(Debug, Clone, Copy, PartialEq, Eq, Structural)]
pub struct Cut {
    pub piece_length: u64,
    pub total_length: u64,
    pub pieces: u32,
}

/// Why a payload cannot be cut into pieces.
pub open spec fn cut_objection(
    source: Seq<char>,
    files: Seq<SourceFile>,
    wanted: Option<u64>,
) -> Option<Seq<char>> {
    let total = stream::sum(source_lengths(files)) as int;
    if files.len() == 0 {
        Some(source + " contains no files to put in a torrent"@)
    } else if total == 0 {
        Some(source + " has no data in it to seed"@)
    } else if wanted is Some && !is_piece_length(wanted->0 as int) {
        Some(bad_piece_length(wanted->0))
    } else {
        None
    }
}

pub open spec fn too_many(n: int) -> Seq<char> {
    text::decimal(n as nat) + " pieces is more than a torrent can hold"@
}

/// Decides how a payload is cut. `source` is what the user called it.
pub fn plan_pieces(source: &str, files: &Vec<SourceFile>, wanted: Option<u64>) -> (r: Result<
    Cut,
    Error,
>)
    requires
        stream::sum(source_lengths(files@)) <= u64::MAX,
    ensures
        ({
            let total = stream::sum(source_lengths(files@)) as int;
            match r {
                Ok(c) => {
                    &&& cut_objection(source@, files@, wanted) is None
                    &&& c.total_length == total
                    &&& is_chosen_length(c.piece_length as int, total, wanted)
                    &&& c.pieces == metainfo::pieces_for(total, c.piece_length as int)
                },
                Err(e) => e matches Error::TorrentEncode { detail } && match cut_objection(
                    source@,
                    files@,
                    wanted,
                ) {
                    Some(d) => detail@ == d,
                    None => exists|n: int| #[trigger]
                        is_chosen_length(n, total, wanted) && metainfo::pieces_for(total, n)
                            > u32::MAX && detail@ == too_many(metainfo::pieces_for(total, n)),
                },
            }
        }),
{
    if files.len() == 0 {
        let mut d = source.to_owned();
        d.append(" contains no files to put in a torrent");
        return Err(cannot_encode(&d));
    }
    let total_length: u64 = sum_of(&lengths_vec(files));
    if total_length == 0 {
        let mut d = source.to_owned();
        d.append(" has no data in it to seed");
        return Err(cannot_encode(&d));
    }
    let piece_length: u64 = match wanted {
        Some(n) => {
            validate_piece_length(n)?;
            n
        },
        None => auto_piece_length(total_length),
    };
    proof {
        law_accepted_piece_lengths_are_readable(piece_length as int);
        assert(is_chosen_length(piece_length as int, total_length as int, wanted));
    }
    let count: u64 = pieces_needed(total_length, piece_length);
    if count > u32::MAX as u64 {
        let mut d = decimal_string(count);
        d.append(" pieces is more than a torrent can hold");
        return Err(cannot_encode(&d));
    }
    Ok(Cut { piece_length, total_length, pieces: count as u32 })
}

/// The hash of one piece.
pub fn hash_piece(data: &[u8]) -> (h: [u8; 20])
    ensures
        h@ == digest::sha1_digest(data@),
{
    sha1_of(data)
}

/// The hashes of a stream that is cut into pieces of this length.
pub open spec fn are_piece_hashes(
    pieces: Seq<[u8; 20]>,
    all: Seq<u8>,
    piece_length: int,
) -> bool {
    &&& pieces.len() == metainfo::pieces_for(all.len() as int, piece_length)
    &&& forall|i: int|
        0 <= i < pieces.len() ==> (#[trigger] pieces[i])@ == digest::sha1_digest(
            all.subrange(
                stream::piece_start(i, piece_length),
                stream::piece_end(i, piece_length, all.len() as int),
            ),
        )
}

/// Hashes a payload that is held in memory, in one pass over the stream.
pub fn hash_pieces(data: &[Vec<u8>], cut: &Cut) -> (pieces: Vec<[u8; 20]>)
    requires
        cut.piece_length > 0,
        seqs::concat(seqs::nested(data@)).len() == cut.total_length,
        cut.pieces == metainfo::pieces_for(cut.total_length as int, cut.piece_length as int),
    ensures
        are_piece_hashes(
            pieces@,
            seqs::concat(seqs::nested(data@)),
            cut.piece_length as int,
        ),
{
    let ghost files = seqs::nested(data@);
    let ghost all = seqs::concat(files);
    let mut ls: Vec<u64> = Vec::new();
    let mut i: usize = 0;
    while i < data.len()
        invariant
            i <= data.len(),
            ls.len() == i,
            forall|k: int| 0 <= k < i ==> ls@[k] == data@[k]@.len(),
        decreases data.len() - i,
    {
        ls.push(data[i].len() as u64);
        i += 1;
    }
    proof {
        assert(stream::lengths_of(files, ls@));
        verify::lemma_contribution_total(files, ls@);
    }
    let spans = build_spans(&ls);
    let mut pieces: Vec<[u8; 20]> = Vec::new();
    let mut i: usize = 0;
    let n: usize = cut.pieces as usize;
    while i < n
        invariant
            i <= n,
            n == metainfo::pieces_for(cut.total_length as int, cut.piece_length as int),
            cut.piece_length > 0,
            files == seqs::nested(data@),
            all == seqs::concat(files),
            all.len() == cut.total_length,
            stream::lengths_of(files, ls@),
            stream::are_spans(spans@, ls@),
            pieces.len() == i,
            forall|k: int|
                0 <= k < i ==> (#[trigger] pieces@[k])@ == digest::sha1_digest(
                    all.subrange(
                        stream::piece_start(k, cut.piece_length as int),
                        stream::piece_end(k, cut.piece_length as int, all.len() as int),
                    ),
                ),
        decreases n - i,
    {
        proof {
            verify::lemma_piece_inside(
                cut.total_length as int,
                cut.piece_length as int,
                i as int,
            );
        }
        let (start, end) = piece_range(i, cut.piece_length, cut.total_length);
        let plan = segments(&spans, start, end);
        proof {
            stream::lemma_segments_inside(
                spans@,
                ls@,
                plan@,
                start as int,
                end as int,
                spans@.len() as int,
            );
            stream::law_segments_are_the_stream(
                files,
                ls@,
                spans@,
                plan@,
                start as int,
                end as int,
            );
            assert forall|k: int| 0 <= k < plan.len() implies {
                let g = #[trigger] plan@[k];
                g.index < data.len() && g.offset + g.len <= data@[g.index as int]@.len()
            } by {
                assert(files[plan@[k].index as int].len() == ls@[plan@[k].index as int]);
            }
        }
        let bytes = gather(data, &plan);
        pieces.push(sha1_of(&bytes));
        i += 1;
    }
    pieces
}

// The torrent.

/// The files of a torrent, from those that go in. Padding is never made.
pub open spec fn are_torrent_files(files: Seq<TorrentFile>, from: Seq<SourceFile>) -> bool {
    &&& files.len() == from.len()
    &&& forall|i: int|
        0 <= i < files.len() ==> {
            let f = #[trigger] files[i];
            &&& text::views(f.path@) == text::views(from[i].path@)
            &&& f.length == from[i].length
            &&& !f.is_pad
        }
}

fn torrent_files(from: &Vec<SourceFile>) -> (files: Vec<TorrentFile>)
    ensures
        are_torrent_files(files@, from@),
{
    let mut files: Vec<TorrentFile> = Vec::new();
    let mut i: usize = 0;
    while i < from.len()
        invariant
            i <= from.len(),
            files.len() == i,
            forall|k: int|
                0 <= k < i ==> {
                    let f = #[trigger] files@[k];
                    &&& text::views(f.path@) == text::views(from@[k].path@)
                    &&& f.length == from@[k].length
                    &&& !f.is_pad
                },
        decreases from.len() - i,
    {
        files.push(
            TorrentFile {
                path: copy_texts(&from[i].path),
                length: from[i].length,
                is_pad: false,
            },
        );
        i += 1;
    }
    files
}

pub proof fn lemma_same_sum(files: Seq<TorrentFile>, from: Seq<SourceFile>)
    requires
        are_torrent_files(files, from),
    ensures
        encode::sum(files) == stream::sum(source_lengths(from)),
    decreases files.len(),
{
    if files.len() > 0 {
        let (f, s) = (files.drop_last(), from.drop_last());
        assert forall|i: int| 0 <= i < f.len() implies {
            let x = #[trigger] f[i];
            &&& text::views(x.path@) == text::views(s[i].path@)
            &&& x.length == s[i].length
            &&& !x.is_pad
        } by {
            assert(files[i] == f[i]);
        }
        lemma_same_sum(f, s);
        assert(source_lengths(from).drop_last() =~= source_lengths(s));
        assert(files[files.len() - 1].length == from[from.len() - 1].length);
    }
}

pub(crate) fn copy_text(o: &Option<String>) -> (r: Option<String>)
    ensures
        metainfo::opt_view(r) == metainfo::opt_view(*o),
{
    match o {
        Some(s) => Some(s.clone()),
        None => None,
    }
}

pub(crate) fn copy_tiers(tiers: &Vec<Vec<String>>) -> (r: Vec<Vec<String>>)
    ensures
        values::tier_views(r@) == values::tier_views(tiers@),
{
    let mut r: Vec<Vec<String>> = Vec::new();
    let mut i: usize = 0;
    while i < tiers.len()
        invariant
            i <= tiers.len(),
            r.len() == i,
            forall|k: int|
                0 <= k < i ==> text::views((#[trigger] r@[k])@) == text::views(tiers@[k]@),
        decreases tiers.len() - i,
    {
        r.push(copy_texts(&tiers[i]));
        i += 1;
    }
    assert(values::tier_views(r@) =~= values::tier_views(tiers@));
    r
}

/// What is to be written, from what goes in and what was asked for.
pub open spec fn is_draft(
    d: Draft,
    name: Seq<char>,
    single: bool,
    files: Seq<SourceFile>,
    cut: Cut,
    opts: CreateOpts,
    now: i64,
) -> bool {
    &&& d.name@ == name
    &&& d.piece_length == cut.piece_length
    &&& match d.content {
        Content::Single { length } => single && length == cut.total_length,
        Content::Multi { files: f } => !single && are_torrent_files(f@, files),
    }
    &&& d.private == opts.private
    &&& metainfo::opt_view(d.source) == metainfo::opt_view(opts.source)
    &&& values::tier_views(d.announce@) == values::tier_views(opts.announce@)
    &&& metainfo::opt_view(d.comment) == metainfo::opt_view(opts.comment)
    &&& metainfo::opt_view(d.created_by) == Some(opts.created_by@)
    &&& d.creation_date == Some(now)
}

/// Puts together what is to be written. `now` is in epoch seconds, UTC.
pub fn draft_of(
    name: &str,
    single: bool,
    files: &Vec<SourceFile>,
    cut: &Cut,
    pieces: Vec<[u8; 20]>,
    opts: &CreateOpts,
    now: i64,
) -> (d: Draft)
    requires
        stream::sum(source_lengths(files@)) == cut.total_length,
    ensures
        is_draft(d, name@, single, files@, *cut, *opts, now),
        d.pieces == pieces,
        d.total() == cut.total_length,
{
    let content = if single {
        Content::Single { length: cut.total_length }
    } else {
        let f = torrent_files(files);
        proof {
            lemma_same_sum(f@, files@);
        }
        Content::Multi { files: f }
    };
    Draft {
        name: name.to_owned(),
        piece_length: cut.piece_length,
        pieces,
        content,
        private: opts.private,
        source: copy_text(&opts.source),
        announce: copy_tiers(&opts.announce),
        comment: copy_text(&opts.comment),
        created_by: Some(opts.created_by.clone()),
        creation_date: Some(now),
    }
}

/// A torrent that was made but not written yet.
#[derive(Debug, Clone)]
pub struct Made {
    pub bytes: Vec<u8>,
    pub created: Created,
}

fn same_hashes(a: &Vec<[u8; 20]>, b: &Vec<[u8; 20]>) -> (r: bool)
    ensures
        r == (a@.len() == b@.len() && forall|i: int|
            0 <= i < a@.len() ==> (#[trigger] a@[i])@ == b@[i]@),
{
    if a.len() != b.len() {
        return false;
    }
    let mut i: usize = 0;
    while i < a.len()
        invariant
            i <= a.len(),
            a.len() == b.len(),
            forall|k: int| 0 <= k < i ==> (#[trigger] a@[k])@ == b@[k]@,
        decreases a.len() - i,
    {
        if !bytes::same_bytes(&a[i], &b[i]) {
            return false;
        }
        i += 1;
    }
    true
}

/// What a draft becomes, to be written to `dst`.
pub open spec fn is_made(
    m: Made,
    draft: Draft,
    dst: Seq<char>,
    excluded: Vec<(String, Skipped)>,
) -> bool {
    &&& encode::objection(draft) is None
    &&& m.bytes@ == bencode::spelled(encode::dict(encode::outer_pairs(draft)))
    &&& m.created.path@ == dst
    &&& m.created.info_hash@ == digest::sha1_digest(
        bencode::spelled(encode::dict(encode::info_pairs(draft))),
    )
    &&& m.created.name@ == draft.name@
    &&& m.created.piece_length == draft.piece_length
    &&& m.created.pieces == draft.pieces@.len()
    &&& match draft.content {
        Content::Single { length } => {
            &&& m.created.files@.len() == 1
            &&& text::views(m.created.files@[0].path@) == seq![draft.name@]
            &&& m.created.files@[0].length == length
            &&& !m.created.files@[0].is_pad
        },
        Content::Multi { files } => round_trip::same_files(m.created.files@, files@),
    }
    &&& m.created.total_length == draft.total()
    &&& m.created.excluded == excluded
}

/// Encodes a draft, and reads back what is about to be written: it costs nothing next to the
/// walk over the payload. What was made is what was meant, so that only a draft that cannot
/// be written is refused.
pub fn finish(draft: &Draft, dst: &str, excluded: Vec<(String, Skipped)>) -> (r: Result<
    Made,
    Error,
>)
    requires
        draft.total() <= u64::MAX,
    ensures
        match r {
            Ok(m) => is_made(m, *draft, dst@, excluded),
            Err(e) => encode::objection(*draft) matches Some(d) && (
            e matches Error::TorrentEncode { detail } && detail@ == d),
        },
{
    let encoded = encode(draft)?;
    let read = Metainfo::from_bytes(&encoded.bytes, dst);
    proof {
        match &read {
            Ok(m) => {
                round_trip::law_encoded_draft_reads_back(*draft, *m);
            },
            Err(_) => {
                let any: Metainfo = vstd::pervasive::arbitrary();
                round_trip::law_encoded_draft_reads_back(*draft, any);
            },
        }
    }
    let read = match read {
        Ok(m) => m,
        Err(e) => {
            return Err(e);
        },
    };
    let count: usize = match &draft.content {
        Content::Single { length: _ } => 1,
        Content::Multi { files } => files.len(),
    };
    if !bytes::same_bytes(&read.info_hash, &encoded.info_hash) || !same_hashes(
        &read.pieces,
        &draft.pieces,
    ) || read.files.len() != count {
        return Err(
            cannot_encode(
                "the torrent we encoded does not read back as the one we meant to write",
            ),
        );
    }
    let total_length: u64 = draft.total_length();
    Ok(
        Made {
            bytes: encoded.bytes,
            created: Created {
                path: dst.to_owned(),
                info_hash: encoded.info_hash,
                name: draft.name.clone(),
                piece_length: draft.piece_length,
                pieces: draft.pieces.len(),
                files: read.files,
                total_length,
                excluded,
            },
        },
    )
}

/// The files of a folder that a torrent was made of verify against it, every piece of them,
/// as long as none of them is named like padding.
pub proof fn law_created_torrent_verifies(
    m: Metainfo,
    d: Draft,
    spans: Seq<stream::Span>,
    readable: Seq<bool>,
    data: Seq<Seq<u8>>,
    i: int,
)
    requires
        m.wf(),
        round_trip::same_info(m.info(), d),
        match d.content {
            Content::Single { length } => data.len() == 1 && data[0].len() == length,
            Content::Multi { files } => {
                &&& data.len() == files@.len()
                &&& forall|k: int|
                    0 <= k < data.len() ==> {
                        let f = #[trigger] files@[k];
                        &&& data[k].len() == f.length
                        &&& !f.is_pad
                        &&& !metainfo::named_like_padding(text::views(f.path@))
                    }
            },
        },
        are_piece_hashes(d.pieces@, seqs::concat(data), d.piece_length as int),
        readable.len() == data.len(),
        forall|k: int| 0 <= k < readable.len() ==> readable[k],
        spans.len() == data.len(),
        0 <= i < m.pieces@.len(),
    ensures
        verify::outcome_of(m, spans, readable, data, i) is Verified,
{
    let all = seqs::concat(data);
    let files = verify::contributions(m, readable, data);
    assert(files =~= data) by {
        assert(files.len() == data.len());
        assert forall|k: int| 0 <= k < data.len() implies files[k] == data[k] by {
            assert(readable[k]);
            match d.content {
                Content::Single { length } => {
                    assert(!m.files@[0].is_pad);
                },
                Content::Multi { files: f } => {
                    assert(round_trip::same_file(m.files@[k], f@[k]));
                },
            }
        }
    }
    assert(all.len() == m.total_length) by {
        let ls = verify::lengths(m.files@);
        assert forall|k: int| 0 <= k < data.len() implies (#[trigger] data[k]).len() == ls[k] by {
            match d.content {
                Content::Single { length } => {},
                Content::Multi { files: f } => {
                    assert(round_trip::same_file(m.files@[k], f@[k]));
                    assert(f@[k].length == data[k].len());
                },
            }
        }
        verify::lemma_contribution_total(data, ls);
        verify::lemma_lengths(m.files@);
    }
    assert(verify::all_readable(m, spans, readable, i));
    assert(m.pieces@[i]@ == d.pieces@[i]@);
    assert(d.pieces@[i]@ == digest::sha1_digest(
        all.subrange(
            stream::piece_start(i, d.piece_length as int),
            stream::piece_end(i, d.piece_length as int, all.len() as int),
        ),
    ));
}

/// What is to be written of a payload that is held in memory: cut as it has to be, with the
/// hashes of its pieces.
pub open spec fn is_planned(
    d: Draft,
    cut: Cut,
    name: Seq<char>,
    single: bool,
    files: Seq<SourceFile>,
    data: Seq<Vec<u8>>,
    opts: CreateOpts,
    now: i64,
) -> bool {
    let total = stream::sum(source_lengths(files)) as int;
    &&& is_draft(d, name, single, files, cut, opts, now)
    &&& cut.total_length == total
    &&& is_chosen_length(cut.piece_length as int, total, opts.piece_length)
    &&& cut.pieces == metainfo::pieces_for(total, cut.piece_length as int)
    &&& are_piece_hashes(
        d.pieces@,
        seqs::concat(seqs::nested(data)),
        cut.piece_length as int,
    )
}

/// Makes a torrent of a payload that is held in memory. `name` is the folder's own name, or
/// the file's where there is just one file; `source` is what the user called it.
pub fn create(
    source: &str,
    name: &str,
    single: bool,
    files: &Vec<SourceFile>,
    data: &[Vec<u8>],
    excluded: Vec<(String, Skipped)>,
    dst: &str,
    opts: &CreateOpts,
    now: i64,
) -> (r: Result<Made, Error>)
    requires
        data.len() == files.len(),
        forall|k: int| 0 <= k < data.len() ==> (#[trigger] data@[k])@.len() == files@[k].length,
        stream::sum(source_lengths(files@)) <= u64::MAX,
    ensures
        ({
            let total = stream::sum(source_lengths(files@)) as int;
            match r {
                Ok(m) => cut_objection(source@, files@, opts.piece_length) is None && exists|
                    d: Draft,
                    cut: Cut,
                | #[trigger]
                    is_planned(d, cut, name@, single, files@, data@, *opts, now) && is_made(
                        m,
                        d,
                        dst@,
                        excluded,
                    ),
                Err(e) => e matches Error::TorrentEncode { detail } && match cut_objection(
                    source@,
                    files@,
                    opts.piece_length,
                ) {
                    Some(d) => detail@ == d,
                    None => {
                        ||| exists|n: int| #[trigger]
                            is_chosen_length(n, total, opts.piece_length)
                                && metainfo::pieces_for(total, n) > u32::MAX && detail@
                                == too_many(metainfo::pieces_for(total, n))
                        ||| exists|d: Draft, cut: Cut| #[trigger]
                            is_planned(d, cut, name@, single, files@, data@, *opts, now)
                                && encode::objection(d) == Some(detail@)
                    },
                },
            }
        }),
{
    let cut = plan_pieces(source, files, opts.piece_length)?;
    proof {
        let all = seqs::nested(data@);
        let ls = source_lengths(files@);
        assert forall|k: int| 0 <= k < all.len() implies (#[trigger] all[k]).len() == ls[k] by {
            assert(data@[k]@.len() == files@[k].length);
        }
        verify::lemma_contribution_total(all, ls);
        law_accepted_piece_lengths_are_readable(cut.piece_length as int);
    }
    let pieces = hash_pieces(data, &cut);
    let draft = draft_of(name, single, files, &cut, pieces, opts, now);
    assert(is_planned(draft, cut, name@, single, files@, data@, *opts, now));
    finish(&draft, dst, excluded)
}

} // verus!
