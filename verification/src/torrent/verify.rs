//! Verifying a local fileset against a torrent's piece hashes.
//!
//! Piece boundaries have nothing to do with file boundaries: a piece routinely spans two
//! files. The status of a file is therefore derived from piece results, and when a shared
//! piece fails the data genuinely does not say which of its files is at fault.

use super::encode;
use super::metainfo;
use super::metainfo::{Metainfo, TorrentFile};
use super::report::{FileOutcome, FileStatus, PieceCounts, TorrentReport};
use super::stream;
use super::stream::{build_spans, overlapping, piece_range, segments, Segment, Span};
use crate::bytes;
use crate::bytes::{push_range, push_zeros, same_bytes};
use crate::digest;
use crate::digest::sha1_of;
use crate::seqs;
use vstd::prelude::*;

verus! {

#[derive(Debug, Clone, Copy, PartialEq, Eq, Structural)]
pub enum PieceOutcome {
    Verified,
    Failed,
    /// A file that this piece covers is missing or of the wrong size, so there is nothing to
    /// hash. This is not the same as failing, and is never reported as corruption.
    Unverifiable,
}

/// The lengths of the files.
pub open spec fn lengths(files: Seq<TorrentFile>) -> Seq<u64> {
    files.map_values(|f: TorrentFile| f.length)
}

pub proof fn lemma_lengths(files: Seq<TorrentFile>)
    ensures
        stream::sum(lengths(files)) == encode::sum(files),
    decreases files.len(),
{
    if files.len() > 0 {
        lemma_lengths(files.drop_last());
        assert(lengths(files).drop_last() =~= lengths(files.drop_last()));
    }
}

/// Where each file of a torrent sits in the stream.
pub fn spans_of(meta: &Metainfo) -> (spans: Vec<Span>)
    requires
        meta.wf(),
    ensures
        stream::are_spans(spans@, lengths(meta.files@)),
{
    let mut ls: Vec<u64> = Vec::new();
    let mut i: usize = 0;
    while i < meta.files.len()
        invariant
            i <= meta.files.len(),
            ls.len() == i,
            forall|k: int| 0 <= k < i ==> ls@[k] == meta.files@[k].length,
        decreases meta.files.len() - i,
    {
        ls.push(meta.files[i].length);
        i += 1;
    }
    proof {
        assert(ls@ =~= lengths(meta.files@));
        lemma_lengths(meta.files@);
    }
    build_spans(&ls)
}

/// Where piece `i` of a torrent begins and ends.
pub open spec fn start_of(meta: Metainfo, i: int) -> int {
    stream::piece_start(i, meta.piece_length as int)
}

pub open spec fn end_of(meta: Metainfo, i: int) -> int {
    stream::piece_end(i, meta.piece_length as int, meta.total_length as int)
}

/// Every piece begins before the end of the stream.
pub proof fn lemma_piece_inside(total: int, piece_length: int, i: int)
    requires
        0 <= total,
        0 < piece_length,
        0 <= i < metainfo::pieces_for(total, piece_length),
    ensures
        0 <= i * piece_length < total,
        stream::piece_start(i, piece_length) < stream::piece_end(i, piece_length, total) <= total,
{
    let (t, p) = (total, piece_length);
    let n = metainfo::pieces_for(t, p);
    vstd::arithmetic::div_mod::lemma_fundamental_div_mod(t + p - 1, p);
    assert(p * n <= t + p - 1);
    assert(i * p <= (n - 1) * p) by (nonlinear_arith)
        requires
            0 <= i <= n - 1,
            p > 0,
    ;
    assert((n - 1) * p == p * n - p) by (nonlinear_arith);
    assert(0 <= i * p) by (nonlinear_arith)
        requires
            0 <= i,
            p > 0,
    ;
}

proof fn lemma_piece_starts_inside(meta: Metainfo, i: int)
    requires
        meta.wf(),
        0 <= i < meta.pieces@.len(),
    ensures
        0 <= i * meta.piece_length < meta.total_length,
        start_of(meta, i) < end_of(meta, i) <= meta.total_length,
{
    lemma_piece_inside(meta.total_length as int, meta.piece_length as int, i);
}

pub fn range_of(meta: &Metainfo, i: usize) -> (r: (u64, u64))
    requires
        meta.wf(),
        i < meta.pieces.len(),
    ensures
        r.0 == start_of(*meta, i as int),
        r.1 == end_of(*meta, i as int),
        r.0 < r.1 <= meta.total_length,
{
    proof {
        lemma_piece_starts_inside(*meta, i as int);
    }
    piece_range(i, meta.piece_length, meta.total_length)
}

/// Whether piece `i` takes bytes from this file.
pub open spec fn touches(meta: Metainfo, spans: Seq<Span>, i: int, file: int) -> bool {
    stream::overlaps(spans[file], start_of(meta, i), end_of(meta, i))
}

/// Whether a file's bytes can be had: its size is right, or it is padding.
pub open spec fn has_bytes(s: FileStatus) -> bool {
    s is SizeOk || s is Padding
}

/// Every file that piece `i` takes bytes from can be read.
pub open spec fn all_readable(meta: Metainfo, spans: Seq<Span>, readable: Seq<bool>, i: int) -> bool {
    forall|k: int| 0 <= k < spans.len() && #[trigger] touches(meta, spans, i, k) ==> readable[k]
}

/// What is to be read for piece `i`: the parts of the files that it spans, in order, up to
/// the first that cannot be read. The second result says whether that is all of them.
pub fn piece_plan(meta: &Metainfo, spans: &[Span], readable: &[bool], i: usize) -> (r: (
    Vec<Segment>,
    bool,
))
    requires
        meta.wf(),
        i < meta.pieces.len(),
        stream::are_spans(spans@, lengths(meta.files@)),
        readable.len() == spans.len(),
    ensures
        r.1 == all_readable(*meta, spans@, readable@, i as int),
        r.1 ==> stream::are_segments(
            r.0@,
            spans@,
            start_of(*meta, i as int),
            end_of(*meta, i as int),
            spans.len() as int,
        ),
        forall|k: int|
            0 <= k < r.0.len() ==> {
                let g = #[trigger] r.0@[k];
                &&& g.index < meta.files.len()
                &&& readable@[g.index as int]
                &&& g.offset + g.len <= meta.files@[g.index as int].length
            },
{
    let (start, end) = range_of(meta, i);
    let all = segments(spans, start, end);
    let ghost n = spans@.len() as int;
    proof {
        stream::lemma_segments_inside(
            spans@,
            lengths(meta.files@),
            all@,
            start as int,
            end as int,
            n,
        );
    }
    let mut k: usize = 0;
    while k < spans.len()
        invariant
            k <= spans.len(),
            readable.len() == spans.len(),
            n == spans@.len(),
            start == start_of(*meta, i as int),
            end == end_of(*meta, i as int),
            stream::are_spans(spans@, lengths(meta.files@)),
            stream::are_segments(all@, spans@, start as int, end as int, n),
            forall|j: int|
                0 <= j < all.len() ==> {
                    let g = #[trigger] all@[j];
                    g.index < spans.len() && g.offset + g.len <= lengths(meta.files@)[g.index
                        as int] && stream::overlaps(
                        spans@[g.index as int],
                        start as int,
                        end as int,
                    )
                },
            forall|j: int|
                0 <= j < k && #[trigger] touches(*meta, spans@, i as int, j) ==> readable@[j],
        decreases spans.len() - k,
    {
        if overlapping(&spans[k], start, end) && !readable[k] {
            assert(touches(*meta, spans@, i as int, k as int));
            let mut some: Vec<Segment> = Vec::new();
            let mut j: usize = 0;
            while j < all.len() && readable[all[j].index]
                invariant
                    j <= all.len(),
                    readable.len() == spans.len(),
                    lengths(meta.files@).len() == spans.len(),
                    forall|x: int|
                        0 <= x < all.len() ==> {
                            let g = #[trigger] all@[x];
                            g.index < spans.len() && g.offset + g.len <= lengths(
                                meta.files@,
                            )[g.index as int] && stream::overlaps(
                                spans@[g.index as int],
                                start as int,
                                end as int,
                            )
                        },
                    some.len() == j,
                    forall|x: int|
                        0 <= x < some.len() ==> {
                            let g = #[trigger] some@[x];
                            &&& g.index < meta.files.len()
                            &&& readable@[g.index as int]
                            &&& g.offset + g.len <= meta.files@[g.index as int].length
                        },
                decreases all.len() - j,
            {
                assert(all@[j as int].index < spans.len());
                some.push(all[j]);
                j += 1;
            }
            return (some, false);
        }
        k += 1;
    }
    proof {
        assert forall|x: int| 0 <= x < all.len() implies {
            let g = #[trigger] all@[x];
            &&& g.index < meta.files.len()
            &&& readable@[g.index as int]
            &&& g.offset + g.len <= meta.files@[g.index as int].length
        } by {
            let g = all@[x];
            assert(touches(*meta, spans@, i as int, g.index as int));
        }
    }
    (all, true)
}

/// What a piece comes to, once what there is of it was read.
pub fn piece_outcome(expected: &[u8; 20], data: Option<&[u8]>) -> (o: PieceOutcome)
    ensures
        o == match data {
            None => PieceOutcome::Unverifiable,
            Some(d) => if digest::sha1_digest(d@) == expected@ {
                PieceOutcome::Verified
            } else {
                PieceOutcome::Failed
            },
        },
{
    match data {
        None => PieceOutcome::Unverifiable,
        Some(d) => if same_bytes(&sha1_of(d), expected) {
            PieceOutcome::Verified
        } else {
            PieceOutcome::Failed
        },
    }
}

/// The files that share piece `i` with `file`: padding is ours, not the user's, so it never
/// shares blame.
pub open spec fn shared_with(
    meta: Metainfo,
    spans: Seq<Span>,
    i: int,
    file: int,
    n: int,
) -> Seq<usize>
    decreases n,
{
    if n <= 0 {
        Seq::empty()
    } else if n - 1 != file && !meta.files@[n - 1].is_pad && touches(meta, spans, i, n - 1) {
        shared_with(meta, spans, i, file, n - 1).push((n - 1) as usize)
    } else {
        shared_with(meta, spans, i, file, n - 1)
    }
}

fn sharers(meta: &Metainfo, spans: &[Span], i: usize, file: usize) -> (r: Vec<usize>)
    requires
        meta.wf(),
        i < meta.pieces.len(),
        stream::are_spans(spans@, lengths(meta.files@)),
    ensures
        r@ == shared_with(*meta, spans@, i as int, file as int, spans.len() as int),
{
    let (start, end) = range_of(meta, i);
    let mut r: Vec<usize> = Vec::new();
    let mut n: usize = 0;
    while n < spans.len()
        invariant
            n <= spans.len(),
            spans.len() == meta.files.len(),
            start == start_of(*meta, i as int),
            end == end_of(*meta, i as int),
            r@ == shared_with(*meta, spans@, i as int, file as int, n as int),
        decreases spans.len() - n,
    {
        if n != file && !meta.files[n].is_pad && overlapping(&spans[n], start, end) {
            r.push(n);
        }
        n += 1;
    }
    r
}

/// Piece `i` failed, and takes bytes from `file`.
pub open spec fn failed_on(
    meta: Metainfo,
    spans: Seq<Span>,
    outcomes: Seq<PieceOutcome>,
    i: int,
    file: int,
) -> bool {
    touches(meta, spans, i, file) && outcomes[i] is Failed
}

/// Nobody shares piece `i` with `file`.
pub open spec fn is_alone(meta: Metainfo, spans: Seq<Span>, i: int, file: int) -> bool {
    shared_with(meta, spans, i, file, spans.len() as int).len() == 0
}

/// The first `n` pieces that failed and lie in `file` alone.
pub open spec fn bad_pieces(
    meta: Metainfo,
    spans: Seq<Span>,
    outcomes: Seq<PieceOutcome>,
    file: int,
    n: int,
) -> Seq<u32>
    decreases n,
{
    if n <= 0 {
        Seq::empty()
    } else if failed_on(meta, spans, outcomes, n - 1, file) && is_alone(meta, spans, n - 1, file) {
        bad_pieces(meta, spans, outcomes, file, n - 1).push((n - 1) as u32)
    } else {
        bad_pieces(meta, spans, outcomes, file, n - 1)
    }
}

/// The first piece, from `i` on, that failed and is shared with `file`.
pub open spec fn first_shared(
    meta: Metainfo,
    spans: Seq<Span>,
    outcomes: Seq<PieceOutcome>,
    file: int,
    i: int,
) -> Option<int>
    decreases outcomes.len() - i,
{
    if i < 0 || i >= outcomes.len() {
        None
    } else if failed_on(meta, spans, outcomes, i, file) && !is_alone(meta, spans, i, file) {
        Some(i)
    } else {
        first_shared(meta, spans, outcomes, file, i + 1)
    }
}

/// How many of the first `n` pieces take bytes from `file` and came out like this.
pub open spec fn count_on(
    meta: Metainfo,
    spans: Seq<Span>,
    outcomes: Seq<PieceOutcome>,
    file: int,
    o: PieceOutcome,
    n: int,
) -> nat
    decreases n,
{
    if n <= 0 {
        0
    } else {
        count_on(meta, spans, outcomes, file, o, n - 1) + if touches(meta, spans, n - 1, file)
            && outcomes[n - 1] == o {
            1nat
        } else {
            0nat
        }
    }
}

/// The status of a file that is there in the right size. A failed piece that lies wholly
/// inside one file convicts that file, while a failed piece that is shared between files
/// convicts none: naming one would send somebody downloading the wrong file again.
pub open spec fn is_piece_status(
    s: FileStatus,
    meta: Metainfo,
    spans: Seq<Span>,
    outcomes: Seq<PieceOutcome>,
    file: int,
) -> bool {
    let n = outcomes.len() as int;
    let bad = bad_pieces(meta, spans, outcomes, file, n);
    let shared = first_shared(meta, spans, outcomes, file, 0);
    let ok = count_on(meta, spans, outcomes, file, PieceOutcome::Verified, n);
    let open = count_on(meta, spans, outcomes, file, PieceOutcome::Unverifiable, n);
    if bad.len() > 0 {
        s matches FileStatus::Corrupt { bad_pieces: b } && b@ == bad
    } else if shared is Some {
        s matches FileStatus::Suspect { piece, shared_with: w } && piece == shared->0 && w@
            == shared_with(meta, spans, shared->0, file, spans.len() as int)
    } else if open > 0 {
        s matches FileStatus::Partial { verified, unverifiable } && verified == ok
            && unverifiable == open
    } else {
        s is Complete
    }
}

/// The status of one file, from how the pieces came out.
pub fn attribute(meta: &Metainfo, spans: &[Span], outcomes: &[PieceOutcome], file: usize) -> (s:
    FileStatus)
    requires
        meta.wf(),
        meta.pieces.len() <= u32::MAX,
        outcomes.len() == meta.pieces.len(),
        stream::are_spans(spans@, lengths(meta.files@)),
        file < meta.files.len(),
    ensures
        is_piece_status(s, *meta, spans@, outcomes@, file as int),
{
    let mut bad: Vec<u32> = Vec::new();
    let mut shared: Option<(u32, Vec<usize>)> = None;
    let mut verified: u32 = 0;
    let mut unverifiable: u32 = 0;
    let ghost f = file as int;
    let mut i: usize = 0;
    while i < outcomes.len()
        invariant
            i <= outcomes.len(),
            meta.wf(),
            meta.pieces.len() <= u32::MAX,
            outcomes.len() == meta.pieces.len(),
            stream::are_spans(spans@, lengths(meta.files@)),
            file < meta.files.len(),
            f == file,
            bad@ == bad_pieces(*meta, spans@, outcomes@, f, i as int),
            match shared {
                Some((p, w)) => first_shared(*meta, spans@, outcomes@, f, 0) == Some(p as int)
                    && w@ == shared_with(*meta, spans@, p as int, f, spans.len() as int),
                None => first_shared(*meta, spans@, outcomes@, f, 0) == first_shared(
                    *meta,
                    spans@,
                    outcomes@,
                    f,
                    i as int,
                ),
            },
            verified <= i,
            unverifiable <= i,
            verified == count_on(*meta, spans@, outcomes@, f, PieceOutcome::Verified, i as int),
            unverifiable == count_on(
                *meta,
                spans@,
                outcomes@,
                f,
                PieceOutcome::Unverifiable,
                i as int,
            ),
        decreases outcomes.len() - i,
    {
        let (start, end) = range_of(meta, i);
        if overlapping(&spans[file], start, end) {
            match outcomes[i] {
                PieceOutcome::Verified => {
                    verified += 1;
                },
                PieceOutcome::Unverifiable => {
                    unverifiable += 1;
                },
                PieceOutcome::Failed => {
                    let others = sharers(meta, spans, i, file);
                    if others.len() == 0 {
                        bad.push(i as u32);
                    } else if shared.is_none() {
                        shared = Some((i as u32, others));
                    }
                },
            }
        }
        i += 1;
    }
    if bad.len() > 0 {
        return FileStatus::Corrupt { bad_pieces: bad };
    }
    match shared {
        Some((piece, shared_with)) => FileStatus::Suspect { piece, shared_with },
        None => if unverifiable > 0 {
            FileStatus::Partial { verified, unverifiable }
        } else {
            FileStatus::Complete
        },
    }
}

/// How many pieces came out like this.
pub open spec fn count(outcomes: Seq<PieceOutcome>, o: PieceOutcome) -> nat
    decreases outcomes.len(),
{
    if outcomes.len() == 0 {
        0
    } else {
        count(outcomes.drop_last(), o) + if outcomes.last() == o {
            1nat
        } else {
            0nat
        }
    }
}

pub fn piece_counts(outcomes: &[PieceOutcome]) -> (c: PieceCounts)
    requires
        outcomes.len() <= u32::MAX,
    ensures
        c.total == outcomes.len(),
        c.ok == count(outcomes@, PieceOutcome::Verified),
        c.failed == count(outcomes@, PieceOutcome::Failed),
        c.unverifiable == count(outcomes@, PieceOutcome::Unverifiable),
        c.ok + c.failed + c.unverifiable == c.total,
{
    let mut ok: u32 = 0;
    let mut failed: u32 = 0;
    let mut unverifiable: u32 = 0;
    let mut i: usize = 0;
    assert(outcomes@.take(0) =~= Seq::<PieceOutcome>::empty());
    while i < outcomes.len()
        invariant
            i <= outcomes.len() <= u32::MAX,
            ok == count(outcomes@.take(i as int), PieceOutcome::Verified),
            failed == count(outcomes@.take(i as int), PieceOutcome::Failed),
            unverifiable == count(outcomes@.take(i as int), PieceOutcome::Unverifiable),
            ok + failed + unverifiable == i,
        decreases outcomes.len() - i,
    {
        assert(outcomes@.take(i + 1).drop_last() =~= outcomes@.take(i as int));
        match outcomes[i] {
            PieceOutcome::Verified => {
                ok += 1;
            },
            PieceOutcome::Failed => {
                failed += 1;
            },
            PieceOutcome::Unverifiable => {
                unverifiable += 1;
            },
        }
        i += 1;
    }
    assert(outcomes@.take(outcomes.len() as int) =~= outcomes@);
    PieceCounts { total: outcomes.len() as u32, ok, failed, unverifiable }
}

/// A file's outcome after the pieces were read: it is judged by them if it was there in the
/// right size, and otherwise stays as it was.
pub open spec fn is_outcome(
    after: FileOutcome,
    before: FileOutcome,
    meta: Metainfo,
    spans: Seq<Span>,
    outcomes: Seq<PieceOutcome>,
    i: int,
) -> bool {
    &&& after.index == before.index
    &&& after.path@ == before.path@
    &&& if before.status is SizeOk && !meta.files@[i].is_pad {
        is_piece_status(after.status, meta, spans, outcomes, i)
    } else {
        after.status == before.status
    }
}

/// The report, once every piece that could be was read.
pub fn conclude(meta: &Metainfo, spans: &[Span], outcomes: &[PieceOutcome], report: TorrentReport)
    -> (r: TorrentReport)
    requires
        meta.wf(),
        meta.pieces.len() <= u32::MAX,
        outcomes.len() == meta.pieces.len(),
        stream::are_spans(spans@, lengths(meta.files@)),
        report.files.len() == meta.files.len(),
    ensures
        r.info_hash == report.info_hash,
        r.name == report.name,
        r.root == report.root,
        r.extra_local == report.extra_local,
        !r.quick,
        r.pieces matches Some(c) && {
            &&& c.total == outcomes.len()
            &&& c.ok == count(outcomes@, PieceOutcome::Verified)
            &&& c.failed == count(outcomes@, PieceOutcome::Failed)
            &&& c.unverifiable == count(outcomes@, PieceOutcome::Unverifiable)
        },
        r.files.len() == report.files.len(),
        forall|i: int|
            0 <= i < r.files.len() ==> is_outcome(
                #[trigger] r.files@[i],
                report.files@[i],
                *meta,
                spans@,
                outcomes@,
                i,
            ),
{
    let ghost all = report.files@;
    let mut rest = report.files;
    let mut files: Vec<FileOutcome> = Vec::new();
    let mut i: usize = 0;
    while i < meta.files.len()
        invariant
            i <= meta.files.len(),
            meta.wf(),
            meta.pieces.len() <= u32::MAX,
            outcomes.len() == meta.pieces.len(),
            stream::are_spans(spans@, lengths(meta.files@)),
            all.len() == meta.files.len(),
            rest.len() == all.len() - i,
            forall|k: int| 0 <= k < rest.len() ==> #[trigger] rest@[k] == all[i + k],
            files.len() == i,
            forall|k: int|
                0 <= k < i ==> is_outcome(
                    #[trigger] files@[k],
                    all[k],
                    *meta,
                    spans@,
                    outcomes@,
                    k,
                ),
        decreases meta.files.len() - i,
    {
        assert(rest@[0] == all[i + 0]);
        let o = rest.remove(0);
        let judged = match &o.status {
            FileStatus::SizeOk => !meta.files[i].is_pad,
            _ => false,
        };
        let status = if judged {
            attribute(meta, spans, outcomes, i)
        } else {
            o.status
        };
        files.push(FileOutcome { index: o.index, path: o.path, status });
        i += 1;
    }
    TorrentReport {
        info_hash: report.info_hash,
        name: report.name,
        root: report.root,
        files,
        extra_local: report.extra_local,
        quick: false,
        pieces: Some(piece_counts(outcomes)),
    }
}

// A fileset in memory.

/// What a file contributes to the stream: zeros for padding. What a file that cannot be read
/// contributes makes no difference to any piece that can be verified.
pub open spec fn contribution(f: TorrentFile, readable: bool, data: Seq<u8>) -> Seq<u8> {
    if f.is_pad || !readable {
        bytes::zeros(f.length as nat)
    } else {
        data
    }
}

/// What each file contributes to the stream.
pub open spec fn contributions(
    meta: Metainfo,
    readable: Seq<bool>,
    data: Seq<Seq<u8>>,
) -> Seq<Seq<u8>> {
    Seq::new(meta.files@.len(), |i: int| contribution(meta.files@[i], readable[i], data[i]))
}

/// How piece `i` comes out: it cannot be verified if a file that it takes bytes from cannot
/// be read; otherwise the stream's hash decides.
pub open spec fn outcome_of(
    meta: Metainfo,
    spans: Seq<Span>,
    readable: Seq<bool>,
    data: Seq<Seq<u8>>,
    i: int,
) -> PieceOutcome {
    if !all_readable(meta, spans, readable, i) {
        PieceOutcome::Unverifiable
    } else if digest::sha1_digest(
        piece_bytes(contributions(meta, readable, data), start_of(meta, i), end_of(meta, i)),
    ) == meta.pieces@[i]@ {
        PieceOutcome::Verified
    } else {
        PieceOutcome::Failed
    }
}

/// The stream between `start` and `end`.
pub open spec fn piece_bytes(files: Seq<Seq<u8>>, start: int, end: int) -> Seq<u8> {
    seqs::concat(files).subrange(start, end)
}

/// Whether each file's bytes can be had.
pub fn readable_files(report: &TorrentReport) -> (r: Vec<bool>)
    ensures
        r.len() == report.files.len(),
        forall|i: int|
            0 <= i < r.len() ==> #[trigger] r@[i] == has_bytes(report.files@[i].status),
{
    let mut r: Vec<bool> = Vec::new();
    let mut i: usize = 0;
    while i < report.files.len()
        invariant
            i <= report.files.len(),
            r.len() == i,
            forall|k: int|
                0 <= k < i ==> #[trigger] r@[k] == has_bytes(report.files@[k].status),
        decreases report.files.len() - i,
    {
        let b = match &report.files[i].status {
            FileStatus::SizeOk => true,
            FileStatus::Padding => true,
            _ => false,
        };
        r.push(b);
        i += 1;
    }
    r
}

/// Every file that can be read has the length it should have.
pub open spec fn right_lengths(meta: Metainfo, readable: Seq<bool>, data: Seq<Seq<u8>>) -> bool {
    forall|i: int|
        0 <= i < meta.files@.len() && readable[i] && !meta.files@[i].is_pad ==> (
        #[trigger] data[i]).len() == meta.files@[i].length
}

/// The bytes of a piece, from files that are held in memory.
fn read_piece(meta: &Metainfo, readable: &[bool], data: &[Vec<u8>], plan: &[Segment]) -> (out: Vec<
    u8,
>)
    requires
        readable.len() == meta.files.len(),
        data.len() == meta.files.len(),
        right_lengths(*meta, readable@, seqs::nested(data@)),
        forall|k: int|
            0 <= k < plan.len() ==> {
                let g = #[trigger] plan@[k];
                &&& g.index < meta.files.len()
                &&& readable@[g.index as int]
                &&& g.offset + g.len <= meta.files@[g.index as int].length
            },
        forall|k: int| 0 <= k < plan.len() ==> (#[trigger] plan@[k]).len <= usize::MAX,
    ensures
        out@ == stream::segment_bytes(
            contributions(*meta, readable@, seqs::nested(data@)),
            plan@,
        ),
{
    let ghost files = contributions(*meta, readable@, seqs::nested(data@));
    let mut out: Vec<u8> = Vec::new();
    let mut i: usize = 0;
    assert(plan@.take(0) =~= Seq::<Segment>::empty());
    while i < plan.len()
        invariant
            i <= plan.len(),
            readable.len() == meta.files.len(),
            data.len() == meta.files.len(),
            right_lengths(*meta, readable@, seqs::nested(data@)),
            files == contributions(*meta, readable@, seqs::nested(data@)),
            forall|k: int|
                0 <= k < plan.len() ==> {
                    let g = #[trigger] plan@[k];
                    &&& g.index < meta.files.len()
                    &&& readable@[g.index as int]
                    &&& g.offset + g.len <= meta.files@[g.index as int].length
                },
            forall|k: int| 0 <= k < plan.len() ==> (#[trigger] plan@[k]).len <= usize::MAX,
            out@ == stream::segment_bytes(files, plan@.take(i as int)),
        decreases plan.len() - i,
    {
        let g = plan[i];
        let ghost part = files[g.index as int].subrange(g.offset as int, g.offset + g.len);
        proof {
            assert(plan@.take(i + 1).drop_last() =~= plan@.take(i as int));
            assert(seqs::nested(data@)[g.index as int] == data@[g.index as int]@);
        }
        if meta.files[g.index].is_pad {
            push_zeros(&mut out, g.len as usize);
            assert(bytes::zeros(g.len as nat) =~= part);
        } else {
            let file = &data[g.index];
            assert(g.offset + g.len <= file.len());
            let from: usize = g.offset as usize;
            let to: usize = from + g.len as usize;
            push_range(&mut out, file, from, to);
        }
        i += 1;
    }
    assert(plan@.take(plan.len() as int) =~= plan@);
    out
}

/// Checks a fileset that is held in memory: `report` is what the sizes told, `data` what is
/// in the files that can be read.
pub fn check(meta: &Metainfo, report: TorrentReport, data: &[Vec<u8>]) -> (r: TorrentReport)
    requires
        meta.wf(),
        meta.pieces.len() <= u32::MAX,
        meta.total_length <= usize::MAX,
        report.files.len() == meta.files.len(),
        data.len() == meta.files.len(),
        right_lengths(
            *meta,
            report.files@.map_values(|f: FileOutcome| has_bytes(f.status)),
            seqs::nested(data@),
        ),
    ensures
        r.info_hash == report.info_hash,
        r.name == report.name,
        r.root == report.root,
        r.extra_local == report.extra_local,
        !r.quick,
        r.files.len() == report.files.len(),
        exists|spans: Seq<Span>, outcomes: Seq<PieceOutcome>|
            {
                &&& #[trigger] stream::are_spans(spans, lengths(meta.files@))
                &&& outcomes.len() == meta.pieces@.len()
                &&& forall|i: int|
                    0 <= i < outcomes.len() ==> #[trigger] outcomes[i] == outcome_of(
                        *meta,
                        spans,
                        report.files@.map_values(|f: FileOutcome| has_bytes(f.status)),
                        seqs::nested(data@),
                        i,
                    )
                &&& forall|i: int|
                    0 <= i < r.files.len() ==> is_outcome(
                        #[trigger] r.files@[i],
                        report.files@[i],
                        *meta,
                        spans,
                        outcomes,
                        i,
                    )
                &&& r.pieces matches Some(c) && c.total == outcomes.len() && c.ok == #[trigger] count(
                    outcomes,
                    PieceOutcome::Verified,
                ) && c.failed == count(outcomes, PieceOutcome::Failed) && c.unverifiable == count(
                    outcomes,
                    PieceOutcome::Unverifiable,
                )
            },
{
    let ghost ready = report.files@.map_values(|f: FileOutcome| has_bytes(f.status));
    let ghost all = seqs::nested(data@);
    let ghost files = contributions(*meta, ready, all);
    let spans = spans_of(meta);
    let readable = readable_files(&report);
    assert(readable@ =~= ready);
    let ghost ls = lengths(meta.files@);
    proof {
        lemma_lengths(meta.files@);
        assert(stream::lengths_of(files, ls)) by {
            assert forall|i: int| 0 <= i < files.len() implies (#[trigger] files[i]).len()
                == ls[i] by {
                assert(all[i] == data@[i]@);
            }
        }
        lemma_contribution_total(files, ls);
    }
    let mut outcomes: Vec<PieceOutcome> = Vec::new();
    let mut i: usize = 0;
    while i < meta.pieces.len()
        invariant
            i <= meta.pieces.len(),
            meta.wf(),
            meta.total_length <= usize::MAX,
            data.len() == meta.files.len(),
            readable.len() == meta.files.len(),
            readable@ == ready,
            all == seqs::nested(data@),
            files == contributions(*meta, ready, all),
            ls == lengths(meta.files@),
            right_lengths(*meta, ready, all),
            stream::lengths_of(files, ls),
            seqs::concat(files).len() == meta.total_length,
            stream::are_spans(spans@, ls),
            outcomes.len() == i,
            forall|k: int|
                0 <= k < i ==> #[trigger] outcomes@[k] == outcome_of(
                    *meta,
                    spans@,
                    ready,
                    all,
                    k,
                ),
        decreases meta.pieces.len() - i,
    {
        let (plan, whole) = piece_plan(meta, &spans, &readable, i);
        let outcome = if whole {
            proof {
                lemma_piece_starts_inside(*meta, i as int);
                stream::law_segments_are_the_stream(
                    files,
                    ls,
                    spans@,
                    plan@,
                    start_of(*meta, i as int),
                    end_of(*meta, i as int),
                );
                assert forall|k: int| 0 <= k < plan.len() implies (#[trigger] plan@[k]).len
                    <= usize::MAX by {
                    lemma_length_below(meta.files@, plan@[k].index as int);
                }
            }
            let bytes = read_piece(meta, &readable, data, &plan);
            piece_outcome(&meta.pieces[i], Some(bytes.as_slice()))
        } else {
            piece_outcome(&meta.pieces[i], None)
        };
        outcomes.push(outcome);
        i += 1;
    }
    let r = conclude(meta, &spans, &outcomes, report);
    proof {
        assert(stream::are_spans(spans@, lengths(meta.files@)));
        assert(count(outcomes@, PieceOutcome::Verified) >= 0);
    }
    r
}

pub proof fn lemma_contribution_total(files: Seq<Seq<u8>>, ls: Seq<u64>)
    requires
        stream::lengths_of(files, ls),
    ensures
        seqs::concat(files).len() == stream::sum(ls),
    decreases files.len(),
{
    if files.len() > 0 {
        let (f, l) = (files.drop_last(), ls.drop_last());
        assert forall|i: int| 0 <= i < f.len() implies (#[trigger] f[i]).len() == l[i] by {
            assert(files[i].len() == ls[i]);
        }
        lemma_contribution_total(f, l);
        assert(files[files.len() - 1].len() == ls[ls.len() - 1]);
    }
}

proof fn lemma_length_below(files: Seq<TorrentFile>, i: int)
    requires
        0 <= i < files.len(),
    ensures
        files[i].length <= encode::sum(files),
    decreases files.len(),
{
    if i < files.len() - 1 {
        lemma_length_below(files.drop_last(), i);
    }
}

/// A file of which every piece verified is complete.
pub proof fn law_verified_pieces_make_a_complete_file(
    s: FileStatus,
    meta: Metainfo,
    spans: Seq<Span>,
    outcomes: Seq<PieceOutcome>,
    file: int,
)
    requires
        is_piece_status(s, meta, spans, outcomes, file),
        forall|i: int|
            0 <= i < outcomes.len() && #[trigger] touches(meta, spans, i, file) ==> outcomes[i]
                is Verified,
    ensures
        s is Complete,
{
    lemma_no_fault(meta, spans, outcomes, file, outcomes.len() as int);
    lemma_none_shared(meta, spans, outcomes, file, 0);
}

proof fn lemma_no_fault(
    meta: Metainfo,
    spans: Seq<Span>,
    outcomes: Seq<PieceOutcome>,
    file: int,
    n: int,
)
    requires
        0 <= n <= outcomes.len(),
        forall|i: int|
            0 <= i < outcomes.len() && #[trigger] touches(meta, spans, i, file) ==> outcomes[i]
                is Verified,
    ensures
        bad_pieces(meta, spans, outcomes, file, n).len() == 0,
        count_on(meta, spans, outcomes, file, PieceOutcome::Unverifiable, n) == 0,
    decreases n,
{
    if n > 0 {
        lemma_no_fault(meta, spans, outcomes, file, n - 1);
    }
}

proof fn lemma_none_shared(
    meta: Metainfo,
    spans: Seq<Span>,
    outcomes: Seq<PieceOutcome>,
    file: int,
    i: int,
)
    requires
        0 <= i <= outcomes.len(),
        forall|i: int|
            0 <= i < outcomes.len() && #[trigger] touches(meta, spans, i, file) ==> outcomes[i]
                is Verified,
    ensures
        first_shared(meta, spans, outcomes, file, i) is None,
    decreases outcomes.len() - i,
{
    if i < outcomes.len() {
        lemma_none_shared(meta, spans, outcomes, file, i + 1);
    }
}

/// A file is called corrupt only for pieces that failed and that no other real file has a
/// part in; a piece that could not be verified convicts nobody.
pub proof fn law_corruption_is_certain(
    meta: Metainfo,
    spans: Seq<Span>,
    outcomes: Seq<PieceOutcome>,
    file: int,
    n: int,
    k: int,
)
    requires
        0 <= n <= outcomes.len() <= u32::MAX,
        0 <= k < bad_pieces(meta, spans, outcomes, file, n).len(),
    ensures
        ({
            let i = bad_pieces(meta, spans, outcomes, file, n)[k] as int;
            &&& 0 <= i < n
            &&& outcomes[i] is Failed
            &&& touches(meta, spans, i, file)
            &&& is_alone(meta, spans, i, file)
        }),
    decreases n,
{
    if n > 0 {
        let front = bad_pieces(meta, spans, outcomes, file, n - 1);
        if k < front.len() {
            law_corruption_is_certain(meta, spans, outcomes, file, n - 1, k);
        }
    }
}

} // verus!
