//! How the files of a torrent are judged, and which of its trackers are kept.

use super::bencode::Tok;
use super::create;
use super::create::SourceFile;
use super::layout;
use super::layout::Found;
use super::metainfo;
use super::metainfo::{Metainfo, TorrentFile};
use super::report::FileStatus;
use super::stream::Span;
use super::values;
use super::verify;
use super::verify::PieceOutcome;
use crate::bytes;
use crate::text;
use vstd::prelude::*;

verus! {

/// By its size alone a file is in order just where it is a file of the length that the torrent
/// gives; padding is never looked for, and what is wrong with any other is said.
pub proof fn law_sizes_are_compared(s: FileStatus, f: TorrentFile, found: Found)
    requires
        layout::is_size_status(s, f, found),
    ensures
        s is Padding == f.is_pad,
        !f.is_pad ==> (s is SizeOk <==> found is File && found->length == f.length),
        !f.is_pad ==> (s is Missing <==> found is Missing),
        s matches FileStatus::WrongSize { expected, actual } ==> found is File && expected
            == f.length && actual == found->length && expected != actual,
        s is Unreadable ==> found is Other || found is Refused,
        s is SizeOk || s is Padding || s is Missing || s is WrongSize || s is Unreadable,
{
}

/// Whether a span has a byte in common with a piece of a stream.
pub open spec fn has_part_in(s: Span, i: int, piece_length: int, total: int) -> bool {
    exists|k: int|
        #![trigger in_span(s, k)]
        in_span(s, k) && i * piece_length <= k < (i + 1) * piece_length && k < total
}

pub open spec fn in_span(s: Span, k: int) -> bool {
    s.start <= k < s.end
}

/// A piece concerns the files that have a byte in it, and no others.
pub proof fn law_piece_concerns_whose_bytes_it_holds(
    meta: Metainfo,
    spans: Seq<Span>,
    i: int,
    file: int,
)
    requires
        0 <= i,
        0 <= file < spans.len(),
        meta.piece_length > 0,
    ensures
        verify::touches(meta, spans, i, file) == has_part_in(
            spans[file],
            i,
            meta.piece_length as int,
            meta.total_length as int,
        ),
{
    let s = spans[file];
    let n = meta.piece_length as int;
    let total = meta.total_length as int;
    let a = i * n;
    let b = (i + 1) * n;
    assert(b == a + n && 0 <= a) by (nonlinear_arith)
        requires
            a == i * n,
            b == (i + 1) * n,
            0 <= i,
            n > 0,
    ;
    if verify::touches(meta, spans, i, file) {
        let k = if s.start as int > a {
            s.start as int
        } else {
            a
        };
        assert(in_span(s, k));
    }
    if has_part_in(s, i, n, total) {
        let k = choose|k: int|
            #![trigger in_span(s, k)]
            in_span(s, k) && i * n <= k < (i + 1) * n && k < total;
        assert(s.start <= k < s.end);
    }
}

/// Every piece that failed and that a file has to itself is held against it, and it is then
/// called corrupt.
pub proof fn law_failed_piece_is_held_against_its_file(
    s: FileStatus,
    meta: Metainfo,
    spans: Seq<Span>,
    outcomes: Seq<PieceOutcome>,
    file: int,
    i: int,
)
    requires
        verify::is_piece_status(s, meta, spans, outcomes, file),
        0 <= i < outcomes.len() <= u32::MAX,
        outcomes[i] is Failed,
        verify::touches(meta, spans, i, file),
        forall|k: int|
            0 <= k < spans.len() && k != file && !(#[trigger] meta.files@[k]).is_pad
                ==> !verify::touches(meta, spans, i, k),
    ensures
        s matches FileStatus::Corrupt { bad_pieces } && bad_pieces@.contains(i as u32),
{
    lemma_alone(meta, spans, i, file, spans.len() as int);
    lemma_held(meta, spans, outcomes, file, i, outcomes.len() as int);
    let bad = verify::bad_pieces(meta, spans, outcomes, file, outcomes.len() as int);
    assert(bad.contains(i as u32));
    assert(bad.len() > 0);
}

proof fn lemma_alone(meta: Metainfo, spans: Seq<Span>, i: int, file: int, n: int)
    requires
        0 <= n <= spans.len(),
        forall|k: int|
            0 <= k < spans.len() && k != file && !(#[trigger] meta.files@[k]).is_pad
                ==> !verify::touches(meta, spans, i, k),
    ensures
        verify::shared_with(meta, spans, i, file, n).len() == 0,
    decreases n,
{
    if n > 0 {
        lemma_alone(meta, spans, i, file, n - 1);
        assert(meta.files@[n - 1].is_pad || n - 1 == file || !verify::touches(
            meta,
            spans,
            i,
            n - 1,
        ));
    }
}

proof fn lemma_held(
    meta: Metainfo,
    spans: Seq<Span>,
    outcomes: Seq<PieceOutcome>,
    file: int,
    i: int,
    n: int,
)
    requires
        0 <= i < n <= outcomes.len() <= u32::MAX,
        verify::failed_on(meta, spans, outcomes, i, file),
        verify::is_alone(meta, spans, i, file),
    ensures
        verify::bad_pieces(meta, spans, outcomes, file, n).contains(i as u32),
    decreases n,
{
    let all = verify::bad_pieces(meta, spans, outcomes, file, n);
    let had = verify::bad_pieces(meta, spans, outcomes, file, n - 1);
    if i < n - 1 {
        lemma_held(meta, spans, outcomes, file, i, n - 1);
        let k = choose|k: int| 0 <= k < had.len() && had[k] == i as u32;
        assert(all[k] == i as u32);
    } else {
        assert(all[had.len() as int] == i as u32);
    }
}

/// A file that is called suspect has no failed piece to itself and one that it shares; it is
/// named which piece, the first such, and who shares it.
pub proof fn law_suspicion_is_shared(
    s: FileStatus,
    meta: Metainfo,
    spans: Seq<Span>,
    outcomes: Seq<PieceOutcome>,
    file: int,
    other: int,
)
    requires
        verify::is_piece_status(s, meta, spans, outcomes, file),
        s is Suspect,
        outcomes.len() <= u32::MAX,
        spans.len() <= usize::MAX,
        0 <= other < spans.len(),
    ensures
        s matches FileStatus::Suspect { piece, shared_with } && piece < outcomes.len()
            && outcomes[piece as int] is Failed && verify::touches(meta, spans, piece as int, file)
            && shared_with@.len() > 0 && (shared_with@.contains(other as usize) <==> other != file
            && !meta.files@[other].is_pad && verify::touches(meta, spans, piece as int, other)),
{
    lemma_first_shared(meta, spans, outcomes, file, 0);
    let i = verify::first_shared(meta, spans, outcomes, file, 0)->0;
    lemma_shared(meta, spans, i, file, other, spans.len() as int);
}

proof fn lemma_first_shared(
    meta: Metainfo,
    spans: Seq<Span>,
    outcomes: Seq<PieceOutcome>,
    file: int,
    i: int,
)
    requires
        0 <= i <= outcomes.len(),
    ensures
        verify::first_shared(meta, spans, outcomes, file, i) matches Some(k) ==> i <= k
            < outcomes.len() && verify::failed_on(meta, spans, outcomes, k, file)
            && !verify::is_alone(meta, spans, k, file),
    decreases outcomes.len() - i,
{
    if i < outcomes.len() {
        lemma_first_shared(meta, spans, outcomes, file, i + 1);
    }
}

proof fn lemma_shared(meta: Metainfo, spans: Seq<Span>, i: int, file: int, other: int, n: int)
    requires
        0 <= n <= spans.len() <= usize::MAX,
        0 <= other < spans.len(),
    ensures
        verify::shared_with(meta, spans, i, file, n).contains(other as usize) <==> other < n
            && other != file && !meta.files@[other].is_pad && verify::touches(
            meta,
            spans,
            i,
            other,
        ),
    decreases n,
{
    if n > 0 {
        lemma_shared(meta, spans, i, file, other, n - 1);
        let had = verify::shared_with(meta, spans, i, file, n - 1);
        let all = verify::shared_with(meta, spans, i, file, n);
        let c = other as usize;
        if all.len() > had.len() {
            assert(all == had.push((n - 1) as usize));
            assert(all[had.len() as int] == (n - 1) as usize);
            if had.contains(c) {
                let k = choose|k: int| 0 <= k < had.len() && had[k] == c;
                assert(all[k] == c);
            }
            if all.contains(c) {
                let k = choose|k: int| 0 <= k < all.len() && all[k] == c;
                assert(k < had.len() ==> had[k] == c);
            }
        }
    }
}

/// A file that is called complete has no piece that failed or that could not be read.
pub proof fn law_complete_file_has_no_doubtful_piece(
    s: FileStatus,
    meta: Metainfo,
    spans: Seq<Span>,
    outcomes: Seq<PieceOutcome>,
    file: int,
    i: int,
)
    requires
        verify::is_piece_status(s, meta, spans, outcomes, file),
        s is Complete,
        0 <= i < outcomes.len() <= u32::MAX,
        verify::touches(meta, spans, i, file),
    ensures
        outcomes[i] is Verified,
{
    let n = outcomes.len() as int;
    if outcomes[i] is Failed {
        if verify::is_alone(meta, spans, i, file) {
            lemma_held(meta, spans, outcomes, file, i, n);
            assert(verify::bad_pieces(meta, spans, outcomes, file, n).len() > 0);
        } else {
            lemma_some_shared(meta, spans, outcomes, file, 0, i);
        }
    } else if outcomes[i] is Unverifiable {
        lemma_counted(meta, spans, outcomes, file, i, n);
    }
}

proof fn lemma_some_shared(
    meta: Metainfo,
    spans: Seq<Span>,
    outcomes: Seq<PieceOutcome>,
    file: int,
    from: int,
    i: int,
)
    requires
        0 <= from <= i < outcomes.len(),
        verify::failed_on(meta, spans, outcomes, i, file),
        !verify::is_alone(meta, spans, i, file),
    ensures
        verify::first_shared(meta, spans, outcomes, file, from) is Some,
    decreases i - from,
{
    if from < i {
        lemma_some_shared(meta, spans, outcomes, file, from + 1, i);
    }
}

proof fn lemma_counted(
    meta: Metainfo,
    spans: Seq<Span>,
    outcomes: Seq<PieceOutcome>,
    file: int,
    i: int,
    n: int,
)
    requires
        0 <= i < n <= outcomes.len(),
        verify::touches(meta, spans, i, file),
    ensures
        verify::count_on(meta, spans, outcomes, file, outcomes[i], n) > 0,
    decreases n,
{
    if i < n - 1 {
        lemma_counted(meta, spans, outcomes, file, i, n - 1);
    }
}

/// The trackers of a tier are kept in order, each once, and none that is empty.
pub proof fn law_tier_keeps_each_tracker_once(urls: Seq<Seq<char>>, url: Seq<char>)
    ensures
        values::cleaned(urls).no_duplicates(),
        values::cleaned(urls).contains(url) <==> urls.contains(url) && url.len() > 0,
        urls.no_duplicates() && !urls.contains(Seq::<char>::empty()) ==> values::cleaned(urls)
            == urls,
    decreases urls.len(),
{
    if urls.len() > 0 {
        let front = urls.drop_last();
        let last = urls.last();
        law_tier_keeps_each_tracker_once(front, url);
        law_tier_keeps_each_tracker_once(front, last);
        let had = values::cleaned(front);
        let now = values::cleaned(urls);
        let n = urls.len() - 1;
        assert(urls[n] == last);
        if front.contains(url) {
            let k = choose|k: int| 0 <= k < front.len() && front[k] == url;
            assert(urls[k] == url);
        }
        if urls.contains(url) {
            let k = choose|k: int| 0 <= k < urls.len() && urls[k] == url;
            assert(k < n ==> front[k] == url);
        }
        if now.len() > had.len() {
            assert(now == had.push(last));
            assert(now[had.len() as int] == last);
            assert forall|i: int, j: int| 0 <= i < j < now.len() implies now[i] != now[j] by {
                assert(now[i] == had[i]);
                if j == had.len() {
                    assert(had.contains(had[i]));
                }
            }
            if had.contains(url) {
                let k = choose|k: int| 0 <= k < had.len() && had[k] == url;
                assert(now[k] == url);
            }
            if now.contains(url) {
                let k = choose|k: int| 0 <= k < now.len() && now[k] == url;
                assert(k < had.len() ==> had[k] == url);
            }
        }
        if urls.no_duplicates() && !urls.contains(Seq::<char>::empty()) {
            assert forall|i: int, j: int| 0 <= i < j < front.len() implies front[i] != front[j] by {
                assert(urls[i] != urls[j]);
            }
            assert(!front.contains(Seq::<char>::empty())) by {
                if front.contains(Seq::<char>::empty()) {
                    let k = choose|k: int| 0 <= k < front.len() && front[k] == Seq::<char>::empty();
                    assert(urls[k] == Seq::<char>::empty());
                }
            }
            assert(had == front);
            assert(last.len() > 0) by {
                if last.len() == 0 {
                    assert(last =~= Seq::<char>::empty());
                }
            }
            assert(!front.contains(last)) by {
                if front.contains(last) {
                    let k = choose|k: int| 0 <= k < front.len() && front[k] == last;
                    assert(urls[k] == urls[n]);
                }
            }
            assert(now =~= urls);
        }
    }
}

/// A file is taken for padding by its name where it lies in a folder `.pad` or is called so by
/// convention, and by nothing else in its name.
pub proof fn law_padding_is_told_by_its_name(path: Seq<Seq<char>>, rest: Seq<char>)
    requires
        path.len() > 0,
    ensures
        path[0] == seq!['.', 'p', 'a', 'd'] ==> metainfo::named_like_padding(path),
        path.last() == "_____padding_file"@ + rest ==> metainfo::named_like_padding(path),
        path.last().len() > 0 && path.last()[0] != '_' && path[0] != seq!['.', 'p', 'a', 'd']
            ==> !metainfo::named_like_padding(path),
{
    reveal_strlit(".pad");
    reveal_strlit("_____padding_file");
    assert(".pad"@ =~= seq!['.', 'p', 'a', 'd']);
    let mark = "_____padding_file"@;
    if path.last() == mark + rest {
        assert(mark.is_prefix_of(path.last()));
    }
    if mark.is_prefix_of(path.last()) {
        assert(path.last()[0] == mark[0]);
    }
}

/// The files of a torrent stand in the order of the bytes of their paths, whatever the order
/// that they were found in, and none is lost or doubled.
pub proof fn law_files_are_in_order(sorted: Seq<SourceFile>, files: Seq<SourceFile>, i: int, j: int)
    requires
        create::is_sorted(sorted, files),
        0 <= i < j < sorted.len(),
    ensures
        sorted.len() == files.len(),
        !bytes::before(
            vstd::utf8::encode_utf8(text::join(text::views(sorted[j].path@), "/"@)),
            vstd::utf8::encode_utf8(text::join(text::views(sorted[i].path@), "/"@)),
        ),
        exists|k: int|
            0 <= k < files.len() && text::views((#[trigger] files[k]).path@) == text::views(
                sorted[i].path@,
            ) && files[k].length == sorted[i].length,
{
    let keys = files.map_values(|f: SourceFile| create::file_key(text::views(f.path@)));
    let order = choose|order: Seq<usize>|
        {
            &&& #[trigger] bytes::is_order(order, files.len() as int)
            &&& bytes::sorts(order, keys)
            &&& create::items(sorted) == order.map_values(
                |k: usize| create::items(files)[k as int],
            )
        };
    let all = create::items(sorted);
    assert(all.len() == order.len());
    assert(order[i] < files.len() && order[j] < files.len());
    assert(all[i] == create::items(files)[order[i] as int]);
    assert(all[j] == create::items(files)[order[j] as int]);
    assert(bytes::in_turn(keys, order[i], order[j]));
    let x = keys[order[i] as int];
    let y = keys[order[j] as int];
    if bytes::before(y, x) {
        if bytes::before(x, y) {
            bytes::lemma_before_trans(x, y, x);
        }
        bytes::lemma_before_differs(x, x);
    }
    let k = order[i] as int;
    assert(text::views(files[k].path@) == text::views(sorted[i].path@) && files[k].length
        == sorted[i].length);
}

/// Byte strings are ordered by the first byte in which they differ, and what begins a longer
/// one comes before it.
pub proof fn law_byte_order(common: Seq<u8>, a: Seq<u8>, b: Seq<u8>)
    requires
        b.len() > 0,
        a.len() > 0 ==> a[0] != b[0],
    ensures
        bytes::before(common + a, common + b) == (a.len() == 0 || a[0] < b[0]),
    decreases common.len(),
{
    if common.len() > 0 {
        law_byte_order(common.drop_first(), a, b);
        assert((common + a).drop_first() =~= common.drop_first() + a);
        assert((common + b).drop_first() =~= common.drop_first() + b);
    } else {
        assert(common + a =~= a);
        assert(common + b =~= b);
    }
}

/// The tracker that a torrent names by itself is among its tiers, first where the list does not
/// have it, and the tiers of the list are all there.
pub proof fn law_single_tracker_is_kept(ts: Seq<Tok>, url: Seq<char>)
    requires
        metainfo::text_field(ts, 0, "announce"@) == Some(url),
        url.len() > 0,
    ensures
        ({
            let tiers = metainfo::tiers_of(ts);
            &&& exists|i: int| 0 <= i < tiers.len() && (#[trigger] tiers[i]).contains(url)
            &&& metainfo::field(ts, 0, "announce-list"@) is None ==> tiers == seq![seq![url]]
            &&& metainfo::field(ts, 0, "announce-list"@) matches Some(p) ==> {
                let listed = values::kept_tiers(values::lists_at(ts, p));
                tiers == listed || tiers == seq![seq![url]] + listed
            }
        }),
{
    let tiers = metainfo::tiers_of(ts);
    let one = seq![url];
    assert(one[0] == url);
    let listed = match metainfo::field(ts, 0, "announce-list"@) {
        Some(p) => values::kept_tiers(values::lists_at(ts, p)),
        None => Seq::empty(),
    };
    if !metainfo::in_tiers(listed, url) {
        assert(tiers[0] == one);
        assert(tiers[0].contains(url));
        if listed.len() == 0 {
            assert(tiers =~= seq![one]);
        }
    }
}

/// What is looked for on disk are the files of a torrent in their order, all but the padding.
pub proof fn law_padding_is_not_looked_for(files: Seq<TorrentFile>, f: TorrentFile)
    ensures
        metainfo::on_disk(Seq::<TorrentFile>::empty()) == Seq::<TorrentFile>::empty(),
        f.is_pad ==> metainfo::on_disk(files.push(f)) == metainfo::on_disk(files),
        !f.is_pad ==> metainfo::on_disk(files.push(f)) == metainfo::on_disk(files).push(f),
{
    assert(files.push(f).drop_last() =~= files);
}

} // verus!
