//! Finding a torrent's files on disk, and the size pre-check.
//!
//! Nothing here looks into files. Sizes alone answer whether a download finished; whether it
//! is intact needs the pieces.

use super::metainfo;
use super::metainfo::{Metainfo, TorrentFile};
use super::report::{FileOutcome, FileStatus, TorrentReport};
use crate::bytes;
use crate::bytes::sort_order;
use crate::error::Error;
use crate::path;
use crate::path::{join_path, parent_of, same_path, steps_of_path};
use crate::seqs;
use crate::text;
use crate::text::{chars_of, debug_of, find_first, join_strings, lower_string, same, slice_of};
use vstd::prelude::*;
use vstd::string::*;

verus! {

/// What stands at a path that the user gave.
#[derive(Debug, Clone, Copy, PartialEq, Eq, Structural)]
pub enum Given {
    Nothing,
    File,
    Folder,
}

/// Where a file that was pointed at lies.
pub open spec fn folder_of(p: Seq<char>) -> Seq<char> {
    match path::parent(p) {
        Some(d) if d.len() > 0 => d,
        _ => "."@,
    }
}

/// Works out which folder the torrent's relative paths hang off. Users point at either the
/// folder that contains the show or the show folder itself, and both work. `inside` says
/// whether there is a folder of the torrent's name in the one given.
pub fn resolve_root(meta: &Metainfo, given: &str, kind: Given, inside: bool) -> (r: Result<
    String,
    Error,
>)
    ensures
        match r {
            Ok(root) => !(kind is Nothing) && root@ == if kind is File {
                folder_of(given@)
            } else if !meta.is_single_file && inside {
                path::join(given@, meta.name@)
            } else {
                given@
            },
            Err(e) => kind is Nothing && e.is_torrent(
                given@,
                "no such file or directory to check the torrent against"@,
            ),
        },
{
    match kind {
        Given::Nothing => Err(
            Error::torrent(given, "no such file or directory to check the torrent against"),
        ),
        Given::File => {
            // They pointed at the file itself; its folder is the root.
            match parent_of(given) {
                Some(d) => if d.as_str().is_empty() {
                    Ok(".".to_owned())
                } else {
                    Ok(d)
                },
                None => Ok(".".to_owned()),
            }
        },
        Given::Folder => {
            // A torrent of a single file has no root folder of its own: its name is the file.
            if !meta.is_single_file && inside {
                Ok(join_path(given, &meta.name))
            } else {
                Ok(given.to_owned())
            }
        },
    }
}

/// Names that Windows refuses, whatever follows a dot. A torrent that holds one cannot be
/// written there, and silently mangling the name would be worse than saying so.
pub open spec fn is_reserved(name: Seq<char>) -> bool {
    let n = text::lowercase(name);
    ||| n == "con"@ || n == "prn"@ || n == "aux"@ || n == "nul"@
    ||| n == "com1"@ || n == "com2"@ || n == "com3"@ || n == "com4"@ || n == "com5"@
    ||| n == "com6"@ || n == "com7"@ || n == "com8"@ || n == "com9"@
    ||| n == "lpt1"@ || n == "lpt2"@ || n == "lpt3"@ || n == "lpt4"@ || n == "lpt5"@
    ||| n == "lpt6"@ || n == "lpt7"@ || n == "lpt8"@ || n == "lpt9"@
}

fn reserved(name: &str) -> (b: bool)
    ensures
        b == is_reserved(name@),
{
    let s = lower_string(name);
    same(&s, "con") || same(&s, "prn") || same(&s, "aux") || same(&s, "nul") || same(&s, "com1")
        || same(&s, "com2") || same(&s, "com3") || same(&s, "com4") || same(&s, "com5") || same(
        &s,
        "com6",
    ) || same(&s, "com7") || same(&s, "com8") || same(&s, "com9") || same(&s, "lpt1") || same(
        &s,
        "lpt2",
    ) || same(&s, "lpt3") || same(&s, "lpt4") || same(&s, "lpt5") || same(&s, "lpt6") || same(
        &s,
        "lpt7",
    ) || same(&s, "lpt8") || same(&s, "lpt9")
}

/// What comes before the first dot.
pub open spec fn before_dot(c: Seq<char>) -> Seq<char> {
    c.take(text::first_at(c, '.'))
}

/// Where the first reserved name stands, from `k` on.
pub open spec fn first_reserved(cs: Seq<Seq<char>>, k: int) -> int
    decreases cs.len() - k,
{
    if k < 0 || k >= cs.len() || is_reserved(before_dot(cs[k])) {
        k
    } else {
        first_reserved(cs, k + 1)
    }
}

/// Components joined onto a root.
pub open spec fn joined(root: Seq<char>, cs: Seq<Seq<char>>) -> Seq<char>
    decreases cs.len(),
{
    if cs.len() == 0 {
        root
    } else {
        path::join(joined(root, cs.drop_last()), cs.last())
    }
}

/// A path that is not below a root, or that climbs.
pub open spec fn escapes(root: Seq<char>, p: Seq<char>) -> bool {
    ||| root.len() > 0 && !(path::is_absolute(root) == path::is_absolute(p) && path::steps(
        root,
    ).is_prefix_of(path::steps(p)))
    ||| path::steps(p).contains(".."@)
}

fn does_escape(root: &str, p: &str) -> (b: bool)
    ensures
        b == escapes(root@, p@),
{
    let r = chars_of(root);
    let v = chars_of(p);
    let a = steps_of_path(root);
    let b = steps_of_path(p);
    let ghost x = text::views(a@);
    let ghost y = text::views(b@);
    let mut below = (r.len() > 0 && r[0] == '/') == (v.len() > 0 && v[0] == '/') && a.len()
        <= b.len();
    let ghost start = below;
    let mut i: usize = 0;
    while i < a.len() && below
        invariant
            i <= a.len(),
            start ==> a.len() <= b.len(),
            below ==> start,
            x == text::views(a@),
            y == text::views(b@),
            below ==> forall|k: int| 0 <= k < i ==> x[k] == y[k],
            start && !below ==> exists|k: int| 0 <= k < a.len() && x[k] != y[k],
        decreases a.len() - i,
    {
        assert(x[i as int] == a@[i as int]@ && y[i as int] == b@[i as int]@);
        if !same(&a[i], &b[i]) {
            below = false;
        }
        i += 1;
    }
    proof {
        if below {
            assert(x =~= y.subrange(0, x.len() as int));
        } else if start {
            let k = choose|k: int| 0 <= k < a.len() && x[k] != y[k];
            assert(y.subrange(0, x.len() as int)[k] == y[k]);
        }
    }
    if r.len() > 0 && !below {
        return true;
    }
    let mut j: usize = 0;
    while j < b.len()
        invariant
            j <= b.len(),
            y == text::views(b@),
            y == path::steps(p@),
            r@ == root@,
            !(root@.len() > 0 && !(path::is_absolute(root@) == path::is_absolute(p@)
                && path::steps(root@).is_prefix_of(path::steps(p@)))),
            forall|k: int| 0 <= k < j ==> y[k] != ".."@,
        decreases b.len() - j,
    {
        assert(y[j as int] == b@[j as int]@);
        if same(&b[j], "..") {
            assert(y[j as int] == ".."@);
            return true;
        }
        j += 1;
    }
    false
}

/// What is said of components that cannot be joined onto a root.
pub open spec fn is_join_refusal(
    e: Error,
    root: Seq<char>,
    cs: Seq<Seq<char>>,
    origin: Seq<char>,
) -> bool {
    let i = first_reserved(cs, 0);
    let p = joined(root, cs);
    if i < cs.len() {
        e.is_unsafe_path(
            origin,
            text::debug_text(cs[i]) + " is a reserved device name on Windows"@,
        )
    } else {
        escapes(root, p) && e.is_unsafe_path(origin, p + " escapes the torrent root"@)
    }
}

/// Joins components onto the root, and refuses anything that could still escape it.
///
/// Components were already checked when the torrent was read, so this is the second line of
/// defence, and the rules that only matter once a real path is built.
pub fn join_checked(root: &str, components: &[String], origin: &str) -> (r: Result<String, Error>)
    ensures
        ({
            let cs = text::views(components@);
            let i = first_reserved(cs, 0);
            let p = joined(root@, cs);
            match r {
                Ok(s) => i >= cs.len() && !escapes(root@, p) && s@ == p,
                Err(e) => is_join_refusal(e, root@, cs, origin@),
            }
        }),
{
    let ghost cs = text::views(components@);
    let mut k: usize = 0;
    while k < components.len()
        invariant
            k <= components.len(),
            cs == text::views(components@),
            first_reserved(cs, 0) == first_reserved(cs, k as int),
        decreases components.len() - k,
    {
        assert(cs[k as int] == components@[k as int]@);
        let v = chars_of(&components[k]);
        let dot: usize = find_first(&v, '.');
        let stem = slice_of(&v, 0, dot);
        assert(stem@ =~= before_dot(cs[k as int]));
        if reserved(&stem) {
            let mut d = debug_of(&components[k]);
            d.append(" is a reserved device name on Windows");
            return Err(Error::unsafe_path(origin, &d));
        }
        k += 1;
    }
    let mut p = root.to_owned();
    let mut k: usize = 0;
    assert(cs.take(0) =~= Seq::<Seq<char>>::empty());
    while k < components.len()
        invariant
            k <= components.len(),
            cs == text::views(components@),
            p@ == joined(root@, cs.take(k as int)),
        decreases components.len() - k,
    {
        assert(cs.take(k + 1).drop_last() =~= cs.take(k as int));
        assert(cs.take(k + 1).last() == components@[k as int]@);
        p = join_path(&p, &components[k]);
        k += 1;
    }
    assert(cs.take(components.len() as int) =~= cs);
    if does_escape(root, &p) {
        p.append(" escapes the torrent root");
        return Err(Error::unsafe_path(origin, &p));
    }
    Ok(p)
}

/// Safe components never leave the root: the joined path takes the root's own steps and
/// then theirs, so that it can only climb where the root itself does.
pub proof fn law_safe_components_stay_inside(root: Seq<char>, cs: Seq<Seq<char>>)
    requires
        forall|k: int| 0 <= k < cs.len() ==> metainfo::is_safe(#[trigger] cs[k]),
    ensures
        path::steps(joined(root, cs)) == path::steps(root) + cs,
        root.len() > 0 ==> path::is_absolute(joined(root, cs)) == path::is_absolute(root),
        !path::steps(root).contains(".."@) ==> !escapes(root, joined(root, cs)),
    decreases cs.len(),
{
    lemma_joined(root, cs);
    let p = joined(root, cs);
    let s = path::steps(root);
    assert(s =~= (s + cs).subrange(0, s.len() as int));
    if !s.contains(".."@) {
        if path::steps(p).contains(".."@) {
            let k = choose|k: int| 0 <= k < (s + cs).len() && (s + cs)[k] == ".."@;
            if k < s.len() {
                assert(s[k] == ".."@);
            } else {
                assert(metainfo::is_safe(cs[k - s.len()]));
            }
        }
    }
}

proof fn lemma_joined(root: Seq<char>, cs: Seq<Seq<char>>)
    requires
        forall|k: int| 0 <= k < cs.len() ==> metainfo::is_safe(#[trigger] cs[k]),
    ensures
        path::steps(joined(root, cs)) == path::steps(root) + cs,
        root.len() > 0 ==> path::is_absolute(joined(root, cs)) == path::is_absolute(root)
            && joined(root, cs).len() > 0,
    decreases cs.len(),
{
    if cs.len() == 0 {
        assert(path::steps(root) + cs =~= path::steps(root));
    } else {
        let front = cs.drop_last();
        assert forall|k: int| 0 <= k < front.len() implies metainfo::is_safe(
            #[trigger] front[k],
        ) by {
            assert(metainfo::is_safe(cs[k]));
        }
        lemma_joined(root, front);
        let name = cs[cs.len() - 1];
        assert(metainfo::is_safe(name));
        reveal_strlit(".");
        assert("."@ =~= seq!['.']);
        path::lemma_join_steps(joined(root, front), name);
        assert((path::steps(root) + front).push(name) =~= path::steps(root) + cs);
    }
}

/// What was found where a file should be.
#[derive(Debug, Clone)]
pub enum Found {
    File { length: u64 },
    /// Something else than a regular file.
    Other,
    Missing,
    Refused { reason: String },
}

/// What sizes alone tell of a file.
pub open spec fn is_size_status(s: FileStatus, f: TorrentFile, found: Found) -> bool {
    if f.is_pad {
        s is Padding
    } else {
        match found {
            Found::Other => s matches FileStatus::Unreadable { reason } && reason@
                == "not a regular file"@,
            Found::File { length } => if length == f.length {
                s is SizeOk
            } else {
                s matches FileStatus::WrongSize { expected, actual } && expected == f.length
                    && actual == length
            },
            Found::Missing => s is Missing,
            Found::Refused { reason: why } => s matches FileStatus::Unreadable { reason }
                && reason@ == why@,
        }
    }
}

fn size_status(f: &TorrentFile, found: &Found) -> (s: FileStatus)
    ensures
        is_size_status(s, *f, *found),
{
    if f.is_pad {
        // Padding is bytes of the stream, not a file that anyone downloads.
        return FileStatus::Padding;
    }
    match found {
        Found::Other => FileStatus::Unreadable { reason: "not a regular file".to_owned() },
        Found::File { length } => if *length == f.length {
            FileStatus::SizeOk
        } else {
            FileStatus::WrongSize { expected: f.length, actual: *length }
        },
        Found::Missing => FileStatus::Missing,
        Found::Refused { reason } => FileStatus::Unreadable { reason: reason.clone() },
    }
}

/// Why a file's path cannot be built.
pub open spec fn path_refused(root: Seq<char>, f: TorrentFile) -> bool {
    let cs = text::views(f.path@);
    first_reserved(cs, 0) < cs.len() || escapes(root, joined(root, cs))
}

/// Where each of the torrent's files is expected.
pub fn expected_paths(meta: &Metainfo, root: &str, origin: &str) -> (r: Result<Vec<String>, Error>)
    ensures
        match r {
            Ok(ps) => {
                &&& ps.len() == meta.files.len()
                &&& forall|i: int|
                    0 <= i < ps.len() ==> !#[trigger] path_refused(root@, meta.files@[i])
                &&& forall|i: int|
                    0 <= i < ps.len() ==> (#[trigger] ps@[i])@ == joined(
                        root@,
                        text::views(meta.files@[i].path@),
                    )
            },
            Err(e) => exists|i: int|
                {
                    &&& 0 <= i < meta.files@.len()
                    &&& #[trigger] path_refused(root@, meta.files@[i])
                    &&& forall|k: int|
                        0 <= k < i ==> !#[trigger] path_refused(root@, meta.files@[k])
                    &&& is_join_refusal(
                        e,
                        root@,
                        text::views(meta.files@[i].path@),
                        origin@,
                    )
                },
        },
{
    let mut ps: Vec<String> = Vec::new();
    let mut i: usize = 0;
    while i < meta.files.len()
        invariant
            i <= meta.files.len(),
            ps.len() == i,
            forall|k: int| 0 <= k < i ==> !#[trigger] path_refused(root@, meta.files@[k]),
            forall|k: int|
                0 <= k < i ==> (#[trigger] ps@[k])@ == joined(
                    root@,
                    text::views(meta.files@[k].path@),
                ),
        decreases meta.files.len() - i,
    {
        match join_checked(root, meta.files[i].path.as_slice(), origin) {
            Ok(p) => {
                ps.push(p);
            },
            Err(e) => {
                assert(path_refused(root@, meta.files@[i as int]));
                return Err(e);
            },
        }
        i += 1;
    }
    Ok(ps)
}

/// It is one of these paths.
pub open spec fn among(p: Seq<char>, ps: Seq<String>) -> bool {
    exists|i: int| 0 <= i < ps.len() && path::same(p, (#[trigger] ps[i])@)
}

/// The paths of `local` that are none of these, in order.
pub open spec fn others(local: Seq<String>, ps: Seq<String>) -> Seq<Seq<char>>
    decreases local.len(),
{
    if local.len() == 0 {
        Seq::empty()
    } else if among(local.last()@, ps) {
        others(local.drop_last(), ps)
    } else {
        others(local.drop_last(), ps).push(local.last()@)
    }
}

fn is_among(p: &str, ps: &Vec<String>) -> (b: bool)
    ensures
        b == among(p@, ps@),
{
    let mut i: usize = 0;
    while i < ps.len()
        invariant
            i <= ps.len(),
            forall|k: int| 0 <= k < i ==> !path::same(p@, (#[trigger] ps@[k])@),
        decreases ps.len() - i,
    {
        if same_path(p, &ps[i]) {
            return true;
        }
        i += 1;
    }
    false
}

/// What paths are sorted by: their steps, one after the other, each closed by a byte that
/// comes before all others and that no name holds.
pub open spec fn path_key(p: Seq<char>) -> Seq<u8> {
    vstd::utf8::encode_utf8(text::join(path::steps(p), "\0"@))
}

/// Paths in order.
pub open spec fn in_path_order(ps: Seq<Seq<char>>) -> bool {
    forall|i: int, j: int|
        0 <= i < j < ps.len() ==> !bytes::before(
            path_key(#[trigger] ps[j]),
            path_key(#[trigger] ps[i]),
        )
}

/// These are the paths of `local` that are not expected, each once, in order; none for a
/// torrent of a single file.
pub open spec fn are_extras(
    r: Seq<Seq<char>>,
    meta: Metainfo,
    local: Seq<String>,
    expected: Seq<String>,
) -> bool {
    let found = others(local, expected);
    if meta.is_single_file {
        r.len() == 0
    } else {
        &&& in_path_order(r)
        &&& exists|order: Seq<usize>| #[trigger]
            bytes::is_order(order, found.len() as int) && r == order.map_values(
                |k: usize| found[k as int],
            )
    }
}

/// The files in a torrent's folder that it does not list, in order. Traders keep text files,
/// artwork and checksums next to a show and want them acknowledged, not flagged as errors.
/// For a torrent of a single file there are none: the folder is the user's own, and listing
/// its other contents would be noise.
pub fn find_extras(meta: &Metainfo, local: &Vec<String>, expected: &Vec<String>) -> (r: Vec<String>)
    ensures
        are_extras(text::views(r@), *meta, local@, expected@),
{
    if meta.is_single_file {
        return Vec::new();
    }
    let mut extra: Vec<String> = Vec::new();
    let mut i: usize = 0;
    assert(local@.take(0) =~= Seq::<String>::empty());
    assert(text::views(extra@) =~= others(local@.take(0), expected@));
    while i < local.len()
        invariant
            i <= local.len(),
            text::views(extra@) == others(local@.take(i as int), expected@),
        decreases local.len() - i,
    {
        assert(local@.take(i + 1).drop_last() =~= local@.take(i as int));
        if !is_among(&local[i], expected) {
            let ghost before = extra@;
            extra.push(local[i].clone());
            assert(text::views(extra@) =~= text::views(before).push(local@[i as int]@));
        }
        i += 1;
    }
    assert(local@.take(local.len() as int) =~= local@);
    let ghost found = others(local@, expected@);
    let mut keys: Vec<Vec<u8>> = Vec::new();
    let mut i: usize = 0;
    while i < extra.len()
        invariant
            i <= extra.len(),
            keys.len() == i,
            forall|k: int| 0 <= k < i ==> (#[trigger] keys@[k])@ == path_key(extra@[k]@),
        decreases extra.len() - i,
    {
        let steps = steps_of_path(&extra[i]);
        let key = join_strings(&steps, "\0");
        keys.push(key.as_str().as_bytes_vec());
        i += 1;
    }
    let order = sort_order(&keys);
    let mut r: Vec<String> = Vec::new();
    let mut i: usize = 0;
    while i < order.len()
        invariant
            i <= order.len(),
            order.len() == extra.len(),
            bytes::is_order(order@, extra.len() as int),
            text::views(extra@) == found,
            r.len() == i,
            forall|k: int| 0 <= k < i ==> (#[trigger] r@[k])@ == found[order@[k] as int],
        decreases order.len() - i,
    {
        assert(order@[i as int] < extra.len());
        assert(found[order@[i as int] as int] == extra@[order@[i as int] as int]@);
        r.push(extra[order[i]].clone());
        i += 1;
    }
    proof {
        let all = seqs::nested(keys@);
        assert(text::views(r@) =~= order@.map_values(|k: usize| found[k as int]));
        assert(bytes::is_order(order@, found.len() as int));
        assert forall|i: int, j: int| 0 <= i < j < r@.len() implies !bytes::before(
            path_key(#[trigger] text::views(r@)[j]),
            path_key(#[trigger] text::views(r@)[i]),
        ) by {
            let (a, b) = (order@[i], order@[j]);
            assert(bytes::in_turn(all, a, b));
            assert(all[a as int] == keys@[a as int]@ && all[b as int] == keys@[b as int]@);
            assert(found[a as int] == extra@[a as int]@ && found[b as int] == extra@[b as int]@);
            assert(text::views(r@)[i] == found[a as int]);
            assert(text::views(r@)[j] == found[b as int]);
            if bytes::before(all[b as int], all[a as int]) {
                if bytes::before(all[a as int], all[b as int]) {
                    bytes::lemma_before_trans(all[a as int], all[b as int], all[a as int]);
                    bytes::lemma_before_differs(all[a as int], all[a as int]);
                } else {
                    bytes::lemma_before_differs(all[b as int], all[a as int]);
                }
            }
        }
    }
    r
}

/// Compares what the torrent says against what is on disk, by size only. `paths` are the
/// files' expected paths, `found` what is there, `local` all files in the root folder.
pub fn check_sizes(
    meta: &Metainfo,
    root: &str,
    paths: Vec<String>,
    found: &[Found],
    local: &Vec<String>,
) -> (r: TorrentReport)
    requires
        paths.len() == meta.files.len(),
        found.len() == meta.files.len(),
    ensures
        r.info_hash == meta.info_hash,
        r.name@ == meta.name@,
        r.root@ == root@,
        r.quick,
        r.pieces is None,
        r.files.len() == meta.files.len(),
        forall|i: int|
            0 <= i < r.files.len() ==> {
                let o = #[trigger] r.files@[i];
                &&& o.index == i
                &&& o.path@ == paths@[i]@
                &&& is_size_status(o.status, meta.files@[i], found@[i])
            },
        are_extras(text::views(r.extra_local@), *meta, local@, paths@),
{
    let extra_local = find_extras(meta, local, &paths);
    let mut files: Vec<FileOutcome> = Vec::new();
    let mut i: usize = 0;
    while i < meta.files.len()
        invariant
            i <= meta.files.len(),
            paths.len() == meta.files.len(),
            found.len() == meta.files.len(),
            files.len() == i,
            forall|k: int|
                0 <= k < i ==> {
                    let o = #[trigger] files@[k];
                    &&& o.index == k
                    &&& o.path@ == paths@[k]@
                    &&& is_size_status(o.status, meta.files@[k], found@[k])
                },
        decreases meta.files.len() - i,
    {
        let status = size_status(&meta.files[i], &found[i]);
        files.push(FileOutcome { index: i, path: paths[i].clone(), status });
        i += 1;
    }
    TorrentReport {
        info_hash: meta.info_hash,
        name: meta.name.clone(),
        root: root.to_owned(),
        files,
        extra_local,
        quick: true,
        pieces: None,
    }
}

} // verus!
