//! What is said of a torrent check.

use crate::digest;
use crate::digest::hex_encode;
use crate::display;
use crate::display::pieces_phrase;
use crate::path;
use crate::path::path_below;
use crate::report::files::joined;
use crate::report::torrent;
use crate::text;
use crate::text::{decimal_string, join_strings, push_decimal, push_left, push_text, push_texts};
use crate::torrent::layout;
use crate::torrent::layout::Found;
use crate::torrent::metainfo;
use crate::torrent::metainfo::{Metainfo, TorrentFile};
use crate::torrent::report;
use crate::torrent::report::{FileOutcome, FileStatus, PieceCounts, TorrentReport, Verdict};
use crate::torrent::stream;
use crate::torrent::stream::Span;
use crate::torrent::verify;
use crate::torrent::verify::PieceOutcome;
use vstd::prelude::*;
use vstd::string::*;

verus! {

pub open spec fn label_text(s: FileStatus) -> Seq<char> {
    match s {
        FileStatus::SizeOk => "SIZE OK"@,
        FileStatus::Complete => "OK"@,
        FileStatus::Corrupt { .. } => "CORRUPT"@,
        FileStatus::Suspect { .. } => "SUSPECT"@,
        FileStatus::Partial { .. } => "PARTIAL"@,
        FileStatus::Missing => "MISSING"@,
        FileStatus::WrongSize { .. } => "WRONG SIZE"@,
        FileStatus::Unreadable { .. } => "UNREADABLE"@,
        FileStatus::Padding => "PADDING"@,
    }
}

/// The paths of some of the files.
pub open spec fn paths_at(files: Seq<TorrentFile>, at: Seq<usize>) -> Seq<Seq<char>> {
    at.map_values(|i: usize| torrent::shown_path(files[i as int]))
}

pub open spec fn bad_pieces_text(pieces: Seq<u32>) -> Seq<char> {
    if pieces.len() == 1 {
        "piece "@ + text::decimal(pieces[0] as nat)
    } else {
        "pieces "@ + text::join(display::numbers(pieces), ", "@)
    }
}

/// What there is to add to a status.
pub open spec fn detail(s: FileStatus, files: Seq<TorrentFile>) -> Seq<char> {
    match s {
        FileStatus::WrongSize { expected, actual } => "  (expected "@ + text::decimal(
            expected as nat,
        ) + " bytes, found "@ + text::decimal(actual as nat) + ")"@,
        FileStatus::Unreadable { reason } => "  ("@ + reason@ + ")"@,
        FileStatus::Corrupt { bad_pieces } => "  ("@ + bad_pieces_text(bad_pieces@) + ")"@,
        FileStatus::Suspect { piece, shared_with } => "  (piece "@ + text::decimal(piece as nat)
            + " is shared with "@ + text::join(paths_at(files, shared_with@), ", "@)
            + "; either could be at fault)"@,
        FileStatus::Partial { verified, unverifiable } => "  ("@ + text::decimal(verified as nat)
            + " pieces verified, "@ + text::decimal(unverifiable as nat)
            + " unreadable because a neighbouring file is bad)"@,
        _ => ""@,
    }
}

/// The line of one file.
pub open spec fn outcome_text(o: FileOutcome, files: Seq<TorrentFile>) -> Seq<char> {
    text::left(label_text(o.status), 11) + " "@ + torrent::shown_path(files[o.index as int])
        + detail(o.status, files)
}

/// The lines of all files but padding, in order.
pub open spec fn outcome_texts(os: Seq<FileOutcome>, files: Seq<TorrentFile>) -> Seq<Seq<char>>
    decreases os.len(),
{
    if os.len() == 0 {
        Seq::empty()
    } else if os.last().status is Padding {
        outcome_texts(os.drop_last(), files)
    } else {
        outcome_texts(os.drop_last(), files).push(outcome_text(os.last(), files))
    }
}

/// Whether a report speaks of the files of a torrent only.
pub open spec fn speaks_of(r: TorrentReport, files: Seq<TorrentFile>) -> bool {
    forall|k: int| 0 <= k < r.files@.len() ==> is_outcome_of(#[trigger] r.files@[k], files)
}

pub open spec fn is_outcome_of(o: FileOutcome, files: Seq<TorrentFile>) -> bool {
    &&& o.index < files.len()
    &&& o.status matches FileStatus::Suspect { shared_with, .. } ==> forall|j: int|
        0 <= j < shared_with@.len() ==> #[trigger] shared_with@[j] < files.len()
}

fn shared_paths(files: &Vec<TorrentFile>, at: &Vec<usize>) -> (r: Vec<String>)
    requires
        forall|j: int| 0 <= j < at@.len() ==> #[trigger] at@[j] < files@.len(),
    ensures
        text::views(r@) == paths_at(files@, at@),
{
    let ghost all = paths_at(files@, at@);
    let mut r: Vec<String> = Vec::new();
    let mut i: usize = 0;
    assert(text::views(r@) =~= all.take(0));
    while i < at.len()
        invariant
            i <= at.len(),
            forall|j: int| 0 <= j < at@.len() ==> #[trigger] at@[j] < files@.len(),
            all == paths_at(files@, at@),
            text::views(r@) == all.take(i as int),
        decreases at.len() - i,
    {
        push_text(&mut r, files[at[i]].display_path());
        assert(text::views(r@) =~= all.take(i + 1));
        i += 1;
    }
    assert(all.take(all.len() as int) =~= all);
    r
}

fn detail_of(s: &FileStatus, files: &Vec<TorrentFile>) -> (r: String)
    requires
        s matches FileStatus::Suspect { shared_with, .. } ==> forall|j: int|
            0 <= j < shared_with@.len() ==> #[trigger] shared_with@[j] < files@.len(),
    ensures
        r@ == detail(*s, files@),
{
    match s {
        FileStatus::WrongSize { expected, actual } => {
            let mut l = "  (expected ".to_owned();
            push_decimal(&mut l, *expected);
            l.append(" bytes, found ");
            push_decimal(&mut l, *actual);
            l.append(")");
            l
        },
        FileStatus::Unreadable { reason } => {
            let mut l = joined("  (", reason);
            l.append(")");
            l
        },
        FileStatus::Corrupt { bad_pieces } => {
            let mut l = joined("  (", &pieces_phrase(bad_pieces));
            l.append(")");
            l
        },
        FileStatus::Suspect { piece, shared_with } => {
            let mut l = "  (piece ".to_owned();
            push_decimal(&mut l, *piece as u64);
            l.append(" is shared with ");
            l.append(&join_strings(&shared_paths(files, shared_with), ", "));
            l.append("; either could be at fault)");
            l
        },
        FileStatus::Partial { verified, unverifiable } => {
            let mut l = "  (".to_owned();
            push_decimal(&mut l, *verified as u64);
            l.append(" pieces verified, ");
            push_decimal(&mut l, *unverifiable as u64);
            l.append(" unreadable because a neighbouring file is bad)");
            l
        },
        _ => "".to_owned(),
    }
}

fn outcome_lines(os: &Vec<FileOutcome>, files: &Vec<TorrentFile>) -> (r: Vec<String>)
    requires
        forall|k: int| 0 <= k < os@.len() ==> is_outcome_of(#[trigger] os@[k], files@),
    ensures
        text::views(r@) == outcome_texts(os@, files@),
{
    let mut r: Vec<String> = Vec::new();
    let mut i: usize = 0;
    assert(text::views(r@) =~= outcome_texts(os@.take(0), files@));
    while i < os.len()
        invariant
            i <= os.len(),
            forall|k: int| 0 <= k < os@.len() ==> is_outcome_of(#[trigger] os@[k], files@),
            text::views(r@) == outcome_texts(os@.take(i as int), files@),
        decreases os.len() - i,
    {
        let o = &os[i];
        assert(os@.take(i + 1).drop_last() =~= os@.take(i as int));
        assert(os@.take(i + 1).last() == *o);
        assert(is_outcome_of(os@[i as int], files@));
        let padding = match o.status {
            FileStatus::Padding => true,
            _ => false,
        };
        if !padding {
            let mut l = String::new();
            push_left(&mut l, o.status.label(), 11);
            assert(l@ =~= text::left(label_text(o.status), 11));
            l.append(" ");
            l.append(&files[o.index].display_path());
            l.append(&detail_of(&o.status, files));
            push_text(&mut r, l);
        }
        i += 1;
    }
    assert(os@.take(os@.len() as int) =~= os@);
    r
}

/// The lines of what is there but not in the torrent.
pub open spec fn extra_texts(extra: Seq<String>, root: Seq<char>) -> Seq<Seq<char>> {
    extra.map_values(|p: String| text::left("EXTRA"@, 11) + " "@ + path::below(p@, root))
}

fn extra_lines(extra: &Vec<String>, root: &str) -> (r: Vec<String>)
    ensures
        text::views(r@) == extra_texts(extra@, root@),
{
    let ghost all = extra_texts(extra@, root@);
    let mut r: Vec<String> = Vec::new();
    let mut i: usize = 0;
    assert(text::views(r@) =~= all.take(0));
    while i < extra.len()
        invariant
            i <= extra.len(),
            all == extra_texts(extra@, root@),
            text::views(r@) == all.take(i as int),
        decreases extra.len() - i,
    {
        let mut l = String::new();
        push_left(&mut l, "EXTRA", 11);
        assert(l@ =~= text::left("EXTRA"@, 11));
        l.append(" ");
        l.append(&path_below(&extra[i], root));
        push_text(&mut r, l);
        assert(text::views(r@) =~= all.take(i + 1));
        i += 1;
    }
    assert(all.take(all.len() as int) =~= all);
    r
}

/// The line about the pieces, where they were read.
pub open spec fn pieces_texts(pieces: Option<PieceCounts>) -> Seq<Seq<char>> {
    match pieces {
        Some(p) => seq![
            text::decimal(p.ok as nat) + " of "@ + text::decimal(p.total as nat)
                + " pieces verified"@ + (if p.failed > 0 {
                ", "@ + text::decimal(p.failed as nat) + " failed"@
            } else {
                ""@
            }) + (if p.unverifiable > 0 {
                ", "@ + text::decimal(p.unverifiable as nat) + " unverifiable"@
            } else {
                ""@
            }),
        ],
        None => Seq::empty(),
    }
}

fn counted(n: u32, what: &str) -> (s: String)
    ensures
        s@ == if n > 0 {
            ", "@ + text::decimal(n as nat) + what@
        } else {
            ""@
        },
{
    if n == 0 {
        return "".to_owned();
    }
    let mut s = ", ".to_owned();
    push_decimal(&mut s, n as u64);
    s.append(what);
    s
}

fn pieces_lines(pieces: &Option<PieceCounts>) -> (r: Vec<String>)
    ensures
        text::views(r@) == pieces_texts(*pieces),
{
    let mut r: Vec<String> = Vec::new();
    match pieces {
        Some(p) => {
            let mut l = decimal_string(p.ok as u64);
            l.append(" of ");
            push_decimal(&mut l, p.total as u64);
            l.append(" pieces verified");
            l.append(&counted(p.failed, " failed"));
            l.append(&counted(p.unverifiable, " unverifiable"));
            push_text(&mut r, l);
        },
        None => {},
    }
    assert(text::views(r@) =~= pieces_texts(*pieces));
    r
}

/// Whether any file failed.
pub open spec fn failed(r: TorrentReport) -> bool {
    exists|i: int| 0 <= i < r.files@.len() && (#[trigger] r.files@[i]).status.failed()
}

/// The last line.
pub open spec fn verdict_text(r: TorrentReport, total: nat) -> Seq<char> {
    if failed(r) {
        let n = report::failed_of(r.files@).len();
        text::decimal(n) + " of "@ + text::decimal(total) + (if n == 1 {
            " file needs attention"@
        } else {
            " files need attention"@
        })
    } else if r.quick {
        "all "@ + text::decimal(total) + " files match by size (contents not read)"@
    } else {
        "all "@ + text::decimal(total) + " files verified"@
    }
}

fn verdict_line(r: &TorrentReport, total: usize) -> (s: String)
    ensures
        s@ == verdict_text(*r, total as nat),
{
    match r.verdict() {
        Verdict::Incomplete => {
            let failures = r.failures();
            let n = failures.len();
            assert(failures@.map_values(|f: &FileOutcome| *f).len() == n);
            let mut s = decimal_string(n as u64);
            s.append(" of ");
            push_decimal(&mut s, total as u64);
            if n == 1 {
                s.append(" file needs attention");
            } else {
                s.append(" files need attention");
            }
            s
        },
        Verdict::SizesMatch => {
            let mut s = "all ".to_owned();
            push_decimal(&mut s, total as u64);
            s.append(" files match by size (contents not read)");
            s
        },
        Verdict::Complete => {
            let mut s = "all ".to_owned();
            push_decimal(&mut s, total as u64);
            s.append(" files verified");
            s
        },
    }
}

pub open spec fn check_head(r: TorrentReport, meta: Metainfo) -> Seq<Seq<char>> {
    seq![
        r.name@,
        "  "@ + digest::hex_text(r.info_hash@) + "  "@ + text::decimal(
            metainfo::on_disk(meta.files@).len(),
        ) + " files  "@ + display::bytes_text(meta.total_length as nat),
        "  root "@ + r.root@,
        ""@,
    ]
}

/// What a check found, and whether it passed.
pub fn check_lines(r: &TorrentReport, meta: &Metainfo) -> (out: (Vec<String>, bool))
    requires
        speaks_of(*r, meta.files@),
    ensures
        text::views(out.0@) == (check_head(*r, *meta) + outcome_texts(r.files@, meta.files@)
            + extra_texts(r.extra_local@, r.root@)).push(""@) + pieces_texts(r.pieces) + seq![
            verdict_text(*r, metainfo::on_disk(meta.files@).len()),
        ],
        out.1 == !failed(*r),
{
    let files = meta.real_files();
    let total = files.len();
    assert(files@.map_values(|f: &TorrentFile| *f).len() == total);
    let mut l: Vec<String> = Vec::new();
    push_text(&mut l, r.name.clone());
    let mut second = joined("  ", &hex_encode(&r.info_hash));
    second.append("  ");
    push_decimal(&mut second, total as u64);
    second.append(" files  ");
    second.append(&display::bytes(meta.total_length));
    push_text(&mut l, second);
    push_text(&mut l, joined("  root ", &r.root));
    push_text(&mut l, "".to_owned());
    assert(text::views(l@) =~= check_head(*r, *meta));
    push_texts(&mut l, outcome_lines(&r.files, &meta.files));
    push_texts(&mut l, extra_lines(&r.extra_local, &r.root));
    push_text(&mut l, "".to_owned());
    push_texts(&mut l, pieces_lines(&r.pieces));
    let ghost had = text::views(l@);
    let last = verdict_line(r, total);
    let ghost line = last@;
    push_text(&mut l, last);
    assert(had.push(line) =~= had + seq![line]);
    (l, r.verdict() != Verdict::Incomplete)
}

// Laws.

proof fn lemma_shared_with(
    meta: Metainfo,
    spans: Seq<Span>,
    i: int,
    file: int,
    n: int,
    limit: int,
)
    requires
        n <= limit <= usize::MAX,
    ensures
        forall|j: int|
            0 <= j < verify::shared_with(meta, spans, i, file, n).len() ==> (
            #[trigger] verify::shared_with(meta, spans, i, file, n)[j]) < limit,
    decreases n,
{
    if n > 0 {
        lemma_shared_with(meta, spans, i, file, n - 1, limit);
        let before = verify::shared_with(meta, spans, i, file, n - 1);
        let all = verify::shared_with(meta, spans, i, file, n);
        assert(((n - 1) as usize) < limit);
        assert forall|j: int| 0 <= j < all.len() implies (#[trigger] all[j]) < limit by {
            if j < before.len() {
                assert(all[j] == before[j]);
            }
        }
    }
}

/// What the sizes say of a torrent's files can be shown.
pub proof fn law_size_report_can_be_shown(meta: Metainfo, found: Seq<Found>, r: TorrentReport)
    requires
        r.files@.len() == meta.files@.len(),
        forall|i: int|
            0 <= i < r.files@.len() ==> (#[trigger] r.files@[i]).index == i
                && layout::is_size_status(r.files@[i].status, meta.files@[i], found[i]),
    ensures
        speaks_of(r, meta.files@),
{
    assert forall|k: int| 0 <= k < r.files@.len() implies is_outcome_of(
        #[trigger] r.files@[k],
        meta.files@,
    ) by {
        assert(r.files@[k].index == k);
    }
}

/// What the pieces say of them can be shown too, where what the sizes said could.
pub proof fn law_piece_report_can_be_shown(
    meta: Metainfo,
    before: TorrentReport,
    spans: Seq<Span>,
    outcomes: Seq<PieceOutcome>,
    r: TorrentReport,
)
    requires
        speaks_of(before, meta.files@),
        stream::are_spans(spans, verify::lengths(meta.files@)),
        meta.files@.len() <= usize::MAX,
        r.files@.len() == before.files@.len(),
        forall|i: int|
            0 <= i < r.files@.len() ==> verify::is_outcome(
                #[trigger] r.files@[i],
                before.files@[i],
                meta,
                spans,
                outcomes,
                i,
            ),
    ensures
        speaks_of(r, meta.files@),
{
    assert(spans.len() == meta.files@.len());
    assert forall|k: int| 0 <= k < r.files@.len() implies is_outcome_of(
        #[trigger] r.files@[k],
        meta.files@,
    ) by {
        assert(verify::is_outcome(r.files@[k], before.files@[k], meta, spans, outcomes, k));
        assert(is_outcome_of(before.files@[k], meta.files@));
        let shared = verify::first_shared(meta, spans, outcomes, k, 0);
        lemma_shared_with(
            meta,
            spans,
            shared->0,
            k,
            spans.len() as int,
            meta.files@.len() as int,
        );
    }
}

} // verus!
