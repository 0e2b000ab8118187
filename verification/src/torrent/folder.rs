//! What a torrent that was made of a folder says of the folder.

use super::bencode;
use super::create;
use super::create::{CreateOpts, Cut, Made, Seen, Skipped, SourceFile};
use super::encode;
use super::encode::Draft;
use super::metainfo;
use super::metainfo::{Metainfo, TorrentFile};
use super::round_trip;
use super::stream;
use crate::bytes;
use crate::path;
use crate::text;
use vstd::prelude::*;

verus! {

/// A file or a folder, as a walk comes upon it.
pub open spec fn is_entry(s: Seen) -> bool {
    s is File || s is Enter
}

pub open spec fn entry_name(s: Seen) -> Seq<char> {
    match s {
        Seen::File { name, .. } => name@,
        Seen::Enter { name, .. } => name@,
        _ => Seq::empty(),
    }
}

pub open spec fn entry_path(s: Seen) -> Seq<char> {
    match s {
        Seen::File { path, .. } => path@,
        Seen::Enter { path, .. } => path@,
        _ => Seq::empty(),
    }
}

/// Where an entry stands below the root: in the folders that are open, under its own name.
pub open spec fn place(seen: Seq<Seen>, k: int) -> Seq<Seq<char>> {
    create::names(create::open_after(seen.take(k), true)).push(entry_name(seen[k]))
}

/// The path of a place below a root.
pub open spec fn at(root: Seq<char>, place: Seq<Seq<char>>) -> Seq<char>
    decreases place.len(),
{
    if place.len() == 0 {
        root
    } else {
        path::join(at(root, place.drop_last()), place.last())
    }
}

/// A walk through a folder: every entry lies where it was come upon, under a name that holds
/// no separator, and nothing is come upon twice.
pub open spec fn is_walk(root: Seq<char>, seen: Seq<Seen>) -> bool {
    &&& forall|k: int|
        0 <= k < seen.len() && is_entry(#[trigger] seen[k]) ==> {
            &&& !entry_name(seen[k]).contains('/')
            &&& entry_path(seen[k]) == at(root, place(seen, k))
        }
    &&& forall|i: int, j: int|
        0 <= i < j < seen.len() && is_entry(#[trigger] seen[i]) && is_entry(#[trigger] seen[j])
            ==> entry_path(seen[i]) != entry_path(seen[j])
}

/// The file at a step of a walk, as it goes in.
pub open spec fn item_at(seen: Seq<Seen>, k: int) -> create::Item {
    (place(seen, k), entry_path(seen[k]), seen[k]->File_length)
}

/// Whether a file of a walk is among the files of a torrent.
pub open spec fn is_listed(files: Seq<TorrentFile>, seen: Seq<Seen>, k: int) -> bool {
    exists|i: int|
        0 <= i < files.len() && text::views((#[trigger] files[i]).path@) == place(seen, k)
            && files[i].length == seen[k]->File_length
}

/// Whether an entry of a walk is among what was left out.
pub open spec fn is_excluded(excluded: Seq<(String, Skipped)>, seen: Seq<Seen>, k: int) -> bool {
    exists|i: int| 0 <= i < excluded.len() && (#[trigger] excluded[i]).0@ == entry_path(seen[k])
}

/// Files that are the same in all that they say.
pub open spec fn alike(a: TorrentFile, b: TorrentFile) -> bool {
    &&& text::views(a.path@) == text::views(b.path@)
    &&& a.length == b.length
    &&& a.is_pad == b.is_pad
}

// The walk.

/// Which folders are open does not depend on what goes in.
proof fn lemma_open_names(seen: Seq<Seen>, a: bool, b: bool)
    ensures
        create::names(create::open_after(seen, a)) == create::names(create::open_after(seen, b)),
    decreases seen.len(),
{
    let x = create::open_after(seen, a);
    let y = create::open_after(seen, b);
    if seen.len() > 0 {
        let front = seen.drop_last();
        lemma_open_names(front, a, b);
        let p = create::open_after(front, a);
        let q = create::open_after(front, b);
        assert(create::names(p).len() == create::names(q).len());
        lemma_mark_names(p);
        lemma_mark_names(q);
        assert forall|i: int| 0 <= i < p.len() implies p[i].name == q[i].name by {
            assert(create::names(p)[i] == create::names(q)[i]);
        }
        match seen.last() {
            Seen::Enter { name, path } => {
                assert(create::names(x) =~= create::names(p).push(name@));
                assert(create::names(y) =~= create::names(q).push(name@));
            },
            Seen::Leave => {
                assert(create::names(x) =~= create::names(y));
            },
            _ => {
                assert(create::names(x) =~= create::names(p));
                assert(create::names(y) =~= create::names(q));
            },
        }
    } else {
        assert(create::names(x) =~= create::names(y));
    }
}

pub proof fn lemma_mark_names(open: Seq<create::Open>)
    ensures
        create::names(create::mark(open)) == create::names(open),
        create::mark(open).len() == open.len(),
        forall|i: int|
            0 <= i < open.len() ==> (#[trigger] create::mark(open)[i]).path == open[i].path,
{
    assert(create::names(create::mark(open)) =~= create::names(open));
}

/// Every folder that is open was entered before.
proof fn lemma_open_entered(seen: Seq<Seen>, include_all: bool, n: int, i: int)
    requires
        0 <= n <= seen.len(),
        0 <= i < create::open_after(seen.take(n), include_all).len(),
    ensures
        ({
            let o = create::open_after(seen.take(n), include_all)[i];
            exists|j: int|
                0 <= j < n && (#[trigger] seen[j]) is Enter && entry_path(seen[j]) == o.path
                    && entry_name(seen[j]) == o.name
        }),
    decreases n,
{
    if n > 0 {
        let front = seen.take(n - 1);
        assert(seen.take(n).drop_last() =~= front);
        assert(seen.take(n).last() == seen[n - 1]);
        let open = create::open_after(front, include_all);
        let now = create::open_after(seen.take(n), include_all);
        lemma_mark_names(open);
        if i < open.len() {
            lemma_open_entered(seen, include_all, n - 1, i);
            assert(create::names(create::mark(open))[i] == create::names(open)[i]);
            let j = choose|j: int|
                0 <= j < n - 1 && (#[trigger] seen[j]) is Enter && entry_path(seen[j])
                    == open[i].path && entry_name(seen[j]) == open[i].name;
            assert(seen[j] is Enter && entry_path(seen[j]) == now[i].path && entry_name(seen[j])
                == now[i].name);
        } else {
            assert(seen[n - 1] is Enter);
        }
    } else {
        assert(seen.take(0) =~= Seq::<Seen>::empty());
    }
}

proof fn lemma_place(seen: Seq<Seen>, include_all: bool, k: int)
    requires
        0 <= k < seen.len(),
    ensures
        place(seen, k) == create::names(create::open_after(seen.take(k), include_all)).push(
            entry_name(seen[k]),
        ),
{
    lemma_open_names(seen.take(k), true, include_all);
}

/// No component of a place holds a separator.
proof fn lemma_place_is_plain(root: Seq<char>, seen: Seq<Seen>, k: int)
    requires
        is_walk(root, seen),
        0 <= k < seen.len(),
        is_entry(seen[k]),
    ensures
        forall|i: int|
            0 <= i < place(seen, k).len() ==> !(#[trigger] place(seen, k)[i]).contains('/'),
{
    let open = create::open_after(seen.take(k), true);
    assert forall|i: int| 0 <= i < place(seen, k).len() implies !(
    #[trigger] place(seen, k)[i]).contains('/') by {
        if i < open.len() {
            lemma_open_entered(seen, true, k, i);
            let j = choose|j: int|
                0 <= j < k && (#[trigger] seen[j]) is Enter && entry_path(seen[j])
                    == open[i].path && entry_name(seen[j]) == open[i].name;
            assert(is_entry(seen[j]));
            assert(place(seen, k)[i] == create::names(open)[i]);
        }
    }
}

/// The files that go in are those that were come upon and not left out.
pub proof fn lemma_included(seen: Seq<Seen>, include_all: bool, n: int)
    requires
        0 <= n <= seen.len(),
    ensures
        forall|i: int|
            0 <= i < create::included(seen.take(n), include_all).len() ==> exists|k: int|
                0 <= k < n && create::goes_in(#[trigger] seen[k], include_all)
                    && #[trigger] create::included(seen.take(n), include_all)[i] == item_at(
                    seen,
                    k,
                ),
        forall|k: int|
            0 <= k < n && create::goes_in(#[trigger] seen[k], include_all) ==> create::included(
                seen.take(n),
                include_all,
            ).contains(item_at(seen, k)),
    decreases n,
{
    let all = create::included(seen.take(n), include_all);
    if n > 0 {
        let front = seen.take(n - 1);
        assert(seen.take(n).drop_last() =~= front);
        assert(seen.take(n).last() == seen[n - 1]);
        let had = create::included(front, include_all);
        lemma_included(seen, include_all, n - 1);
        lemma_place(seen, include_all, n - 1);
        if create::goes_in(seen[n - 1], include_all) {
            assert(all == had.push(item_at(seen, n - 1)));
            assert(all[had.len() as int] == item_at(seen, n - 1));
        } else {
            assert(all == had);
        }
        assert forall|i: int| 0 <= i < all.len() implies exists|k: int|
            0 <= k < n && create::goes_in(#[trigger] seen[k], include_all) && #[trigger] all[i]
                == item_at(seen, k) by {
            if i < had.len() {
                let k = choose|k: int|
                    0 <= k < n - 1 && create::goes_in(#[trigger] seen[k], include_all) && had[i]
                        == item_at(seen, k);
                assert(create::goes_in(seen[k], include_all) && all[i] == item_at(seen, k));
            } else {
                assert(create::goes_in(seen[n - 1], include_all));
            }
        }
        assert forall|k: int|
            0 <= k < n && create::goes_in(#[trigger] seen[k], include_all) implies all.contains(
            item_at(seen, k),
        ) by {
            if k < n - 1 {
                assert(had.contains(item_at(seen, k)));
                let i = choose|i: int| 0 <= i < had.len() && had[i] == item_at(seen, k);
                assert(all[i] == had[i]);
            }
        }
    } else {
        assert(seen.take(0) =~= Seq::<Seen>::empty());
    }
}

/// Whether a step of a walk accounts for something that was left out.
pub open spec fn is_reason(s: Seen, include_all: bool, e: (Seq<char>, Skipped)) -> bool {
    &&& is_entry(s)
    &&& entry_path(s) == e.0
    &&& s is File ==> !create::goes_in(s, include_all)
}

/// What was left out are the files that do not go in, and folders.
pub proof fn lemma_left_out(seen: Seq<Seen>, include_all: bool, n: int)
    requires
        0 <= n <= seen.len(),
    ensures
        forall|i: int|
            0 <= i < create::left_out(seen.take(n), include_all).len() ==> exists|k: int|
                0 <= k < n && is_reason(
                    #[trigger] seen[k],
                    include_all,
                    #[trigger] create::left_out(seen.take(n), include_all)[i],
                ),
        forall|k: int|
            0 <= k < n && (#[trigger] seen[k]) is File && !create::goes_in(seen[k], include_all)
                ==> create::left_out(seen.take(n), include_all).contains(
                (entry_path(seen[k]), Skipped::Noise),
            ),
    decreases n,
{
    let all = create::left_out(seen.take(n), include_all);
    if n > 0 {
        let front = seen.take(n - 1);
        assert(seen.take(n).drop_last() =~= front);
        assert(seen.take(n).last() == seen[n - 1]);
        let had = create::left_out(front, include_all);
        let open = create::open_after(front, include_all);
        lemma_left_out(seen, include_all, n - 1);
        assert(all == had || all == had.push(all.last()));
        assert forall|i: int| 0 <= i < all.len() implies exists|k: int|
            0 <= k < n && is_reason(#[trigger] seen[k], include_all, #[trigger] all[i]) by {
            if i < had.len() {
                assert(all[i] == had[i]);
                let k = choose|k: int|
                    0 <= k < n - 1 && is_reason(#[trigger] seen[k], include_all, had[i]);
                assert(is_reason(seen[k], include_all, all[i]));
            } else if seen[n - 1] is Leave {
                lemma_open_entered(seen, include_all, n - 1, open.len() - 1);
                let k = choose|k: int|
                    0 <= k < n - 1 && (#[trigger] seen[k]) is Enter && entry_path(seen[k])
                        == open.last().path && entry_name(seen[k]) == open.last().name;
                assert(is_reason(seen[k], include_all, all[i]));
            } else {
                assert(is_reason(seen[n - 1], include_all, all[i]));
            }
        }
        assert forall|k: int|
            0 <= k < n && (#[trigger] seen[k]) is File && !create::goes_in(
                seen[k],
                include_all,
            ) implies all.contains((entry_path(seen[k]), Skipped::Noise)) by {
            if k < n - 1 {
                let e = (entry_path(seen[k]), Skipped::Noise);
                assert(had.contains(e));
                let i = choose|i: int| 0 <= i < had.len() && had[i] == e;
                assert(all[i] == had[i]);
            } else {
                assert(all[had.len() as int] == (entry_path(seen[k]), Skipped::Noise));
            }
        }
    } else {
        assert(seen.take(0) =~= Seq::<Seen>::empty());
    }
}

// The order.

/// Components without separators can be told from what they make when they are joined.
proof fn lemma_join_splits(parts: Seq<Seq<char>>)
    requires
        parts.len() > 0,
        forall|i: int| 0 <= i < parts.len() ==> !(#[trigger] parts[i]).contains('/'),
    ensures
        text::split_on(text::join(parts, "/"@), '/') == parts,
    decreases parts.len(),
{
    reveal_strlit("/");
    let none = Seq::<char>::empty();
    let last = parts.last();
    assert(last == parts[parts.len() - 1]);
    if parts.len() == 1 {
        text::lemma_split_extend(none, last, '/');
        assert(none + last =~= last);
        assert(text::split_on(none, '/') == seq![none]);
        assert(seq![none].drop_last().push(last) =~= parts);
    } else {
        let front = parts.drop_last();
        assert forall|i: int| 0 <= i < front.len() implies !(#[trigger] front[i]).contains(
            '/',
        ) by {
            assert(front[i] == parts[i]);
        }
        lemma_join_splits(front);
        let s = text::join(front, "/"@);
        let slashed = s.push('/');
        assert(s + "/"@ =~= slashed);
        assert(slashed.drop_last() =~= s);
        assert(text::split_on(slashed, '/') == front.push(none));
        text::lemma_split_extend(slashed, last, '/');
        assert(front.push(none).drop_last() =~= front);
        assert(none + last =~= last);
        assert(front.push(last) =~= parts);
    }
}

proof fn lemma_keys_differ(a: Seq<Seq<char>>, b: Seq<Seq<char>>)
    requires
        a.len() > 0,
        b.len() > 0,
        forall|i: int| 0 <= i < a.len() ==> !(#[trigger] a[i]).contains('/'),
        forall|i: int| 0 <= i < b.len() ==> !(#[trigger] b[i]).contains('/'),
        a != b,
    ensures
        create::file_key(a) != create::file_key(b),
{
    lemma_join_splits(a);
    lemma_join_splits(b);
    bencode::lemma_word(text::join(a, "/"@), text::join(b, "/"@));
}

/// An order of `n` things leaves none of them out.
proof fn lemma_order_is_whole(order: Seq<usize>, n: int, k: int)
    requires
        bytes::is_order(order, n),
        0 <= k < n,
    ensures
        exists|i: int| 0 <= i < n && #[trigger] order[i] == k,
{
    let as_ints = order.map_values(|v: usize| v as int);
    let have = as_ints.to_set();
    let want = vstd::set_lib::set_int_range(0, n);
    assert(as_ints.no_duplicates()) by {
        assert forall|i: int, j: int|
            0 <= i < as_ints.len() && 0 <= j < as_ints.len() && i != j implies as_ints[i]
            != as_ints[j] by {
            assert(order[i] != order[j]);
        }
    }
    as_ints.unique_seq_to_set();
    vstd::set_lib::lemma_int_range(0, n);
    vstd::seq_lib::seq_to_set_is_finite(as_ints);
    assert forall|x: int| have.contains(x) implies want.contains(x) by {
        let i = choose|i: int| 0 <= i < as_ints.len() && as_ints[i] == x;
        assert(order[i] < n);
    }
    vstd::set_lib::lemma_subset_equality(have, want);
    assert(want.contains(k));
    let i = choose|i: int| 0 <= i < as_ints.len() && as_ints[i] == k;
    assert(order[i] == k);
}

// The law.

/// Whether a walk came upon a file, which goes in.
spec fn is_walked_to(f: SourceFile, seen: Seq<Seen>, include_all: bool) -> bool {
    exists|k: int|
        0 <= k < seen.len() && create::goes_in(#[trigger] seen[k], include_all) && (
            text::views(f.path@),
            f.disk@,
            f.length,
        ) == item_at(seen, k)
}

/// What the files of a folder's torrent are, when they are in order.
proof fn lemma_sorted_items(
    root: Seq<char>,
    seen: Seq<Seen>,
    include_all: bool,
    walked: Seq<SourceFile>,
    files: Seq<SourceFile>,
)
    requires
        is_walk(root, seen),
        create::items(walked) == create::included(seen, include_all),
        create::is_sorted(files, walked),
    ensures
        forall|i: int|
            0 <= i < files.len() ==> is_walked_to(#[trigger] files[i], seen, include_all),
        forall|k: int|
            0 <= k < seen.len() && create::goes_in(#[trigger] seen[k], include_all)
                ==> create::items(files).contains(item_at(seen, k)),
        forall|i: int, j: int|
            0 <= i < j < files.len() ==> bytes::before(
                create::file_key(text::views((#[trigger] files[i]).path@)),
                create::file_key(text::views((#[trigger] files[j]).path@)),
            ),
{
    let keys = walked.map_values(|f: SourceFile| create::file_key(text::views(f.path@)));
    let n = walked.len() as int;
    let order = choose|order: Seq<usize>|
        {
            &&& #[trigger] bytes::is_order(order, n)
            &&& bytes::sorts(order, keys)
            &&& create::items(files) == order.map_values(
                |k: usize| create::items(walked)[k as int],
            )
        };
    let got = create::items(files);
    let all = create::included(seen, include_all);
    assert(seen.take(seen.len() as int) =~= seen);
    lemma_included(seen, include_all, seen.len() as int);
    assert(got.len() == files.len());
    assert forall|i: int| 0 <= i < files.len() implies is_walked_to(
        #[trigger] files[i],
        seen,
        include_all,
    ) by {
        assert(order[i] < n);
        assert(got[i] == all[order[i] as int]);
        let k = choose|k: int|
            0 <= k < seen.len() && create::goes_in(#[trigger] seen[k], include_all)
                && all[order[i] as int] == item_at(seen, k);
        assert(got[i] == (text::views(files[i].path@), files[i].disk@, files[i].length));
        assert(create::goes_in(seen[k], include_all));
    }
    assert forall|k: int|
        0 <= k < seen.len() && create::goes_in(#[trigger] seen[k], include_all) implies got.contains(
        item_at(seen, k),
    ) by {
        let w = choose|w: int| 0 <= w < all.len() && all[w] == item_at(seen, k);
        lemma_order_is_whole(order, n, w);
        let i = choose|i: int| 0 <= i < n && #[trigger] order[i] == w;
        assert(got[i] == all[w]);
    }
    assert forall|i: int, j: int| 0 <= i < j < files.len() implies bytes::before(
        create::file_key(text::views((#[trigger] files[i]).path@)),
        create::file_key(text::views((#[trigger] files[j]).path@)),
    ) by {
        let (a, b) = (order[i] as int, order[j] as int);
        assert(order[i] != order[j]);
        assert(order[i] < n && order[j] < n);
        assert(got[i] == create::items(walked)[a] && got[j] == create::items(walked)[b]);
        assert(text::views(files[i].path@) == text::views(walked[a].path@));
        assert(text::views(files[j].path@) == text::views(walked[b].path@));
        assert(keys[a] == create::file_key(text::views(files[i].path@)));
        assert(keys[b] == create::file_key(text::views(files[j].path@)));
        assert(bytes::in_turn(keys, order[i], order[j]));
        lemma_items_differ(root, seen, include_all, a, b);
        assert(text::views(walked[a].path@) == all[a].0);
        assert(text::views(walked[b].path@) == all[b].0);
    }
}

/// Two files that go in have different keys.
proof fn lemma_items_differ(root: Seq<char>, seen: Seq<Seen>, include_all: bool, a: int, b: int)
    requires
        is_walk(root, seen),
        0 <= a < create::included(seen, include_all).len(),
        0 <= b < create::included(seen, include_all).len(),
        a != b,
    ensures
        create::file_key(create::included(seen, include_all)[a].0) != create::file_key(
            create::included(seen, include_all)[b].0,
        ),
{
    let all = create::included(seen, include_all);
    assert(seen.take(seen.len() as int) =~= seen);
    let (i, j) = if a < b {
        (a, b)
    } else {
        (b, a)
    };
    lemma_included_in_turn(seen, include_all, seen.len() as int, i, j);
    let (p, q) = choose|p: int, q: int|
        0 <= p < q < seen.len() && create::goes_in(#[trigger] seen[p], include_all)
            && create::goes_in(#[trigger] seen[q], include_all) && all[i] == item_at(seen, p)
            && all[j] == item_at(seen, q);
    assert(is_entry(seen[p]) && is_entry(seen[q]));
    lemma_place_is_plain(root, seen, p);
    lemma_place_is_plain(root, seen, q);
    lemma_keys_differ(place(seen, p), place(seen, q));
}

/// The files that go in stand in the order in which they were come upon.
proof fn lemma_included_in_turn(seen: Seq<Seen>, include_all: bool, n: int, i: int, j: int)
    requires
        0 <= n <= seen.len(),
        0 <= i < j < create::included(seen.take(n), include_all).len(),
    ensures
        exists|p: int, q: int|
            0 <= p < q < n && create::goes_in(#[trigger] seen[p], include_all)
                && create::goes_in(#[trigger] seen[q], include_all) && create::included(
                seen.take(n),
                include_all,
            )[i] == item_at(seen, p) && create::included(seen.take(n), include_all)[j] == item_at(
                seen,
                q,
            ),
    decreases n,
{
    let all = create::included(seen.take(n), include_all);
    if n > 0 {
        let front = seen.take(n - 1);
        assert(seen.take(n).drop_last() =~= front);
        assert(seen.take(n).last() == seen[n - 1]);
        let had = create::included(front, include_all);
        lemma_place(seen, include_all, n - 1);
        if j < had.len() {
            lemma_included_in_turn(seen, include_all, n - 1, i, j);
            let (p, q) = choose|p: int, q: int|
                0 <= p < q < n - 1 && create::goes_in(#[trigger] seen[p], include_all)
                    && create::goes_in(#[trigger] seen[q], include_all) && had[i] == item_at(
                    seen,
                    p,
                ) && had[j] == item_at(seen, q);
            assert(create::goes_in(seen[p], include_all) && create::goes_in(seen[q], include_all));
            assert(all[i] == had[i] && all[j] == had[j]);
        } else {
            assert(create::goes_in(seen[n - 1], include_all));
            lemma_included(seen, include_all, n - 1);
            assert(all[i] == had[i]);
            let p = choose|p: int|
                0 <= p < n - 1 && create::goes_in(#[trigger] seen[p], include_all) && had[i]
                    == item_at(seen, p);
            assert(create::goes_in(seen[p], include_all));
            assert(all[j] == item_at(seen, n - 1));
        }
    } else {
        assert(seen.take(0) =~= Seq::<Seen>::empty());
    }
}

proof fn lemma_same_lengths(a: Seq<TorrentFile>, b: Seq<TorrentFile>)
    requires
        round_trip::same_files(a, b),
    ensures
        encode::sum(a) == encode::sum(b),
    decreases a.len(),
{
    if a.len() > 0 {
        let (x, y) = (a.drop_last(), b.drop_last());
        assert forall|k: int| 0 <= k < y.len() implies round_trip::same_file(
            #[trigger] x[k],
            y[k],
        ) by {
            assert(round_trip::same_file(a[k], b[k]));
        }
        lemma_same_lengths(x, y);
        assert(round_trip::same_file(a[a.len() - 1], b[b.len() - 1]));
    }
}

/// A folder with a link in it is refused.
pub proof fn law_links_are_refused(root: Seq<char>, seen: Seq<Seen>, k: int)
    requires
        0 <= k < seen.len(),
        seen[k] is Link,
    ensures
        create::first_refused(seen, root, 0) < seen.len(),
{
    lemma_first_refused(seen, root, 0, k);
}

proof fn lemma_first_refused(seen: Seq<Seen>, root: Seq<char>, from: int, k: int)
    requires
        0 <= from <= k < seen.len(),
        create::walk_objection(seen[k], root) is Some,
    ensures
        create::first_refused(seen, root, from) <= k,
    decreases k - from,
{
    if create::walk_objection(seen[from], root) is None {
        lemma_first_refused(seen, root, from + 1, k);
    }
}

/// Making a torrent of a folder, from the walk through it to what is read from the bytes that
/// are written. The torrent reads back, with the infohash and the files that were reported.
/// The files ascend strictly by the bytes of their paths, and their lengths make up the
/// total. Every file that the walk came upon is either among the files or among what was left
/// out, and never in both.
pub proof fn law_created_torrent_describes_the_folder(
    root: Seq<char>,
    seen: Seq<Seen>,
    walked: Seq<SourceFile>,
    excluded: Vec<(String, Skipped)>,
    files: Seq<SourceFile>,
    name: Seq<char>,
    cut: Cut,
    opts: CreateOpts,
    now: i64,
    draft: Draft,
    dst: Seq<char>,
    made: Made,
    m: Metainfo,
)
    requires
        is_walk(root, seen),
        create::is_walked(walked, excluded@, root, seen, opts.include_all),
        create::is_sorted(files, walked),
        stream::sum(create::source_lengths(files)) == cut.total_length,
        create::is_draft(draft, name, false, files, cut, opts, now),
        create::is_made(made, draft, dst, excluded),
        m.reads(bencode::reading(made.bytes@)),
    ensures
        metainfo::torrent_fault(made.bytes@) is None,
        m.info_hash@ == made.created.info_hash@,
        m.files@.len() == made.created.files@.len(),
        forall|i: int|
            0 <= i < m.files@.len() ==> alike(#[trigger] m.files@[i], made.created.files@[i]),
        encode::sum(made.created.files@) == made.created.total_length,
        forall|i: int, j: int|
            0 <= i < j < made.created.files@.len() ==> bytes::before(
                create::file_key(text::views((#[trigger] made.created.files@[i]).path@)),
                create::file_key(text::views((#[trigger] made.created.files@[j]).path@)),
            ),
        forall|k: int|
            0 <= k < seen.len() && (#[trigger] seen[k]) is File ==> is_listed(
                made.created.files@,
                seen,
                k,
            ) != is_excluded(made.created.excluded@, seen, k),
{
    let include_all = opts.include_all;
    let drafted = draft.content->files@;
    let listed = made.created.files@;
    assert(draft.content is Multi);
    create::lemma_same_sum(drafted, files);
    round_trip::law_encoded_draft_reads_back(draft, m);
    lemma_same_lengths(listed, drafted);
    assert forall|i: int| 0 <= i < m.files@.len() implies alike(
        #[trigger] m.files@[i],
        listed[i],
    ) by {
        assert(round_trip::same_file(m.files@[i], drafted[i]));
        assert(round_trip::same_file(listed[i], drafted[i]));
    }
    lemma_sorted_items(root, seen, include_all, walked, files);
    assert forall|i: int| 0 <= i < listed.len() implies text::views(
        (#[trigger] listed[i]).path@,
    ) == text::views(files[i].path@) && listed[i].length == files[i].length by {
        assert(round_trip::same_file(listed[i], drafted[i]));
        assert(drafted[i].length == files[i].length);
    }
    assert forall|k: int| 0 <= k < seen.len() && (#[trigger] seen[k]) is File implies is_listed(
        listed,
        seen,
        k,
    ) != is_excluded(excluded@, seen, k) by {
        lemma_listed_or_left_out(root, seen, include_all, walked, excluded@, files, listed, k);
    }
}

proof fn lemma_listed_or_left_out(
    root: Seq<char>,
    seen: Seq<Seen>,
    include_all: bool,
    walked: Seq<SourceFile>,
    excluded: Seq<(String, Skipped)>,
    files: Seq<SourceFile>,
    listed: Seq<TorrentFile>,
    k: int,
)
    requires
        is_walk(root, seen),
        create::is_walked(walked, excluded, root, seen, include_all),
        create::is_sorted(files, walked),
        listed.len() == files.len(),
        forall|i: int|
            0 <= i < listed.len() ==> text::views((#[trigger] listed[i]).path@) == text::views(
                files[i].path@,
            ) && listed[i].length == files[i].length,
        0 <= k < seen.len(),
        seen[k] is File,
    ensures
        is_listed(listed, seen, k) == create::goes_in(seen[k], include_all),
        is_excluded(excluded, seen, k) == !create::goes_in(seen[k], include_all),
{
    lemma_sorted_items(root, seen, include_all, walked, files);
    assert(seen.take(seen.len() as int) =~= seen);
    lemma_left_out(seen, include_all, seen.len() as int);
    let out = create::left_out(seen, include_all);
    assert(is_entry(seen[k]));
    if create::goes_in(seen[k], include_all) {
        let got = create::items(files);
        let i = choose|i: int| 0 <= i < got.len() && got[i] == item_at(seen, k);
        assert(got[i] == (text::views(files[i].path@), files[i].disk@, files[i].length));
        assert(text::views(listed[i].path@) == place(seen, k));
    }
    if is_listed(listed, seen, k) {
        let i = choose|i: int|
            0 <= i < listed.len() && text::views((#[trigger] listed[i]).path@) == place(seen, k)
                && listed[i].length == seen[k]->File_length;
        assert(text::views(files[i].path@) == place(seen, k));
        assert(is_walked_to(files[i], seen, include_all));
        let j = choose|j: int|
            0 <= j < seen.len() && create::goes_in(#[trigger] seen[j], include_all) && (
                text::views(files[i].path@),
                files[i].disk@,
                files[i].length,
            ) == item_at(seen, j);
        assert(is_entry(seen[j]));
        assert(entry_path(seen[j]) == entry_path(seen[k]));
        assert(j == k);
    }
    if !create::goes_in(seen[k], include_all) {
        let e = (entry_path(seen[k]), Skipped::Noise);
        assert(out.contains(e));
        let i = choose|i: int| 0 <= i < out.len() && out[i] == e;
        assert(create::skipped(excluded)[i] == (excluded[i].0@, excluded[i].1));
    }
    if is_excluded(excluded, seen, k) {
        let i = choose|i: int|
            0 <= i < excluded.len() && (#[trigger] excluded[i]).0@ == entry_path(seen[k]);
        assert(create::skipped(excluded)[i] == (excluded[i].0@, excluded[i].1));
        let j = choose|j: int|
            0 <= j < seen.len() && is_reason(#[trigger] seen[j], include_all, out[i]);
        assert(entry_path(seen[j]) == entry_path(seen[k]));
        assert(is_entry(seen[j]));
        assert(j == k);
    }
}

} // verus!
