//! What is said of a torrent that was read.

use crate::digest;
use crate::display;
use crate::report::files::joined;
use crate::seqs;
use crate::text;
use crate::text::{lines_of, push_decimal, push_left, push_right, push_text, push_texts};
use crate::torrent::metainfo;
use crate::torrent::metainfo::{Metainfo, TorrentFile};
use crate::torrent::values;
use vstd::prelude::*;
use vstd::string::*;

verus! {

/// Lines in a column, the first of them labelled.
pub open spec fn labelled(label: Seq<char>, lines: Seq<Seq<char>>) -> Seq<Seq<char>> {
    Seq::new(
        lines.len(),
        |i: int|
            "  "@ + text::left(
                if i == 0 {
                    label
                } else {
                    ""@
                },
                12,
            ) + " "@ + lines[i],
    )
}

fn labelled_lines(label: &str, lines: &Vec<String>) -> (r: Vec<String>)
    ensures
        text::views(r@) == labelled(label@, text::views(lines@)),
{
    let ghost all = labelled(label@, text::views(lines@));
    let mut r: Vec<String> = Vec::new();
    let mut i: usize = 0;
    assert(text::views(r@) =~= all.take(0));
    while i < lines.len()
        invariant
            i <= lines.len(),
            all == labelled(label@, text::views(lines@)),
            text::views(r@) == all.take(i as int),
        decreases lines.len() - i,
    {
        let mut l = "  ".to_owned();
        if i == 0 {
            push_left(&mut l, label, 12);
        } else {
            push_left(&mut l, "", 12);
        }
        l.append(" ");
        l.append(&lines[i]);
        push_text(&mut r, l);
        assert(text::views(lines@)[i as int] == lines@[i as int]@);
        assert(text::views(r@) =~= all.take(i + 1));
        i += 1;
    }
    assert(all.take(all.len() as int) =~= all);
    r
}

fn owned_lines(lines: &Vec<&str>) -> (r: Vec<String>)
    ensures
        text::views(r@) == lines@.map_values(|s: &str| s@),
{
    let ghost all = lines@.map_values(|s: &str| s@);
    let mut r: Vec<String> = Vec::new();
    let mut i: usize = 0;
    assert(text::views(r@) =~= all.take(0));
    while i < lines.len()
        invariant
            i <= lines.len(),
            all == lines@.map_values(|s: &str| s@),
            text::views(r@) == all.take(i as int),
        decreases lines.len() - i,
    {
        push_text(&mut r, lines[i].to_owned());
        assert(text::views(r@) =~= all.take(i + 1));
        i += 1;
    }
    assert(all.take(all.len() as int) =~= all);
    r
}

/// A file with its size.
pub open spec fn listed(f: TorrentFile) -> Seq<char> {
    "  "@ + text::right(display::bytes_text(f.length as nat), 12) + "  "@ + shown_path(f)
}

pub open spec fn shown_path(f: TorrentFile) -> Seq<char> {
    text::join(text::views(f.path@), "/"@)
}

pub open spec fn listing(files: Seq<TorrentFile>) -> Seq<Seq<char>> {
    files.map_values(|f: TorrentFile| listed(f))
}

fn listing_lines(files: &Vec<&TorrentFile>) -> (r: Vec<String>)
    ensures
        text::views(r@) == listing(files@.map_values(|f: &TorrentFile| *f)),
{
    let ghost all = listing(files@.map_values(|f: &TorrentFile| *f));
    let mut r: Vec<String> = Vec::new();
    let mut i: usize = 0;
    assert(text::views(r@) =~= all.take(0));
    while i < files.len()
        invariant
            i <= files.len(),
            all == listing(files@.map_values(|f: &TorrentFile| *f)),
            text::views(r@) == all.take(i as int),
        decreases files.len() - i,
    {
        let mut l = "  ".to_owned();
        push_right(&mut l, &display::bytes(files[i].length), 12);
        l.append("  ");
        l.append(&files[i].display_path());
        push_text(&mut r, l);
        assert(text::views(r@) =~= all.take(i + 1));
        i += 1;
    }
    assert(all.take(all.len() as int) =~= all);
    r
}

/// A line for a text that there may be.
pub open spec fn optional(label: Seq<char>, value: Option<String>) -> Seq<Seq<char>> {
    match value {
        Some(v) => seq![label + v@],
        None => Seq::empty(),
    }
}

pub open spec fn files_text(kept: int, all: int) -> Seq<char> {
    if kept < all {
        "  files        "@ + text::decimal(kept as nat) + " ("@ + text::decimal(
            (all - kept) as nat,
        ) + " padding)"@
    } else {
        "  files        "@ + text::decimal(kept as nat)
    }
}

/// What a torrent is, before the columns of its comment and its trackers.
pub open spec fn torrent_head(t: Metainfo) -> Seq<Seq<char>> {
    seq![
        t.name@,
        "  infohash     "@ + digest::hex_text(t.info_hash@),
        "  pieces       "@ + text::decimal(t.pieces@.len()) + " x "@ + display::bytes_text(
            t.piece_length as nat,
        ),
        "  total        "@ + display::bytes_text(t.total_length as nat) + " ("@ + text::decimal(
            t.total_length as nat,
        ) + " bytes)"@,
        files_text(metainfo::on_disk(t.files@).len() as int, t.files@.len() as int),
    ]
}

/// The lines about what is part of the infohash, and about who made it.
pub open spec fn torrent_origin(t: Metainfo) -> Seq<Seq<char>> {
    (if t.private {
        seq!["  private      yes (BEP 27; part of the infohash)"@]
    } else {
        Seq::empty()
    }) + optional("  source       "@, t.source) + optional("  created by   "@, t.created_by)
}

/// The line about when it was made.
pub open spec fn are_created(lines: Seq<Seq<char>>, creation_date: Option<i64>) -> bool {
    match creation_date {
        Some(ts) => lines.len() == 1 && exists|y: int, m: int, d: int|
            {
                &&& display::is_date(y, m, d)
                &&& display::day_number(y, m, d) == ts as int / 86_400
                &&& lines[0] == "  created      "@ + #[trigger] display::date_text(
                    y,
                    m,
                    d,
                    ts as int % 86_400,
                )
            },
        None => lines.len() == 0,
    }
}

/// The columns of its comment and its trackers, and its files if they are listed.
pub open spec fn torrent_tail(t: Metainfo, list_files: bool) -> Seq<Seq<char>> {
    (match t.comment {
        Some(c) => labelled("comment"@, text::lines(c@)),
        None => Seq::empty(),
    }) + labelled("trackers"@, seqs::concat(values::tier_views(t.announce@))) + (if list_files {
        seq![""@] + listing(metainfo::on_disk(t.files@))
    } else {
        Seq::empty()
    })
}

proof fn lemma_on_disk_len(files: Seq<TorrentFile>)
    ensures
        metainfo::on_disk(files).len() <= files.len(),
    decreases files.len(),
{
    if files.len() > 0 {
        lemma_on_disk_len(files.drop_last());
    }
}

fn head_lines(t: &Metainfo) -> (r: Vec<String>)
    ensures
        text::views(r@) == torrent_head(*t),
{
    let mut r: Vec<String> = Vec::new();
    assert(text::views(r@) =~= Seq::<Seq<char>>::empty());
    push_text(&mut r, t.name.clone());
    push_text(&mut r, joined("  infohash     ", &t.info_hash_hex()));
    let mut l = "  pieces       ".to_owned();
    push_decimal(&mut l, t.pieces.len() as u64);
    l.append(" x ");
    l.append(&display::bytes(t.piece_length));
    push_text(&mut r, l);
    let mut l = joined("  total        ", &display::bytes(t.total_length));
    l.append(" (");
    push_decimal(&mut l, t.total_length);
    l.append(" bytes)");
    push_text(&mut r, l);
    let files = t.real_files();
    let kept = files.len();
    proof {
        lemma_on_disk_len(t.files@);
        assert(files@.map_values(|f: &TorrentFile| *f).len() == kept);
    }
    let mut l = "  files        ".to_owned();
    push_decimal(&mut l, kept as u64);
    if t.files.len() > kept {
        l.append(" (");
        push_decimal(&mut l, (t.files.len() - kept) as u64);
        l.append(" padding)");
    }
    push_text(&mut r, l);
    assert(text::views(r@) =~= torrent_head(*t));
    r
}

fn push_optional(r: &mut Vec<String>, label: &str, value: &Option<String>)
    ensures
        text::views(final(r)@) == text::views(old(r)@) + optional(label@, *value),
{
    match value {
        Some(v) => {
            let ghost had = text::views(r@);
            push_text(r, joined(label, v));
            assert(had + seq![label@ + v@] =~= had.push(label@ + v@));
        },
        None => {
            assert(text::views(r@) + Seq::<Seq<char>>::empty() =~= text::views(r@));
        },
    }
}

fn origin_lines(t: &Metainfo) -> (r: Vec<String>)
    ensures
        text::views(r@) == torrent_origin(*t),
{
    let mut r: Vec<String> = Vec::new();
    assert(text::views(r@) =~= Seq::<Seq<char>>::empty());
    if t.private {
        push_text(&mut r, "  private      yes (BEP 27; part of the infohash)".to_owned());
    }
    assert(text::views(r@) =~= if t.private {
        seq!["  private      yes (BEP 27; part of the infohash)"@]
    } else {
        Seq::empty()
    });
    push_optional(&mut r, "  source       ", &t.source);
    push_optional(&mut r, "  created by   ", &t.created_by);
    r
}

fn created_line(creation_date: Option<i64>) -> (r: Vec<String>)
    ensures
        are_created(text::views(r@), creation_date),
{
    let mut r: Vec<String> = Vec::new();
    assert(text::views(r@) =~= Seq::<Seq<char>>::empty());
    match creation_date {
        Some(ts) => {
            push_text(&mut r, joined("  created      ", &display::date(ts)));
        },
        None => {},
    }
    r
}

fn tail_lines(t: &Metainfo, list_files: bool) -> (r: Vec<String>)
    ensures
        text::views(r@) == torrent_tail(*t, list_files),
{
    let mut r: Vec<String> = match &t.comment {
        Some(c) => labelled_lines("comment", &lines_of(c)),
        None => Vec::new(),
    };
    assert(text::views(r@) =~= match t.comment {
        Some(c) => labelled("comment"@, text::lines(c@)),
        None => Seq::empty(),
    });
    push_texts(&mut r, labelled_lines("trackers", &owned_lines(&t.trackers())));
    let ghost had = text::views(r@);
    if list_files {
        push_text(&mut r, "".to_owned());
        push_texts(&mut r, listing_lines(&t.real_files()));
        let ghost files = listing(metainfo::on_disk(t.files@));
        assert(had.push(""@) + files =~= had + (seq![""@] + files));
    } else {
        assert(had + Seq::<Seq<char>>::empty() =~= had);
    }
    r
}

/// What a torrent is: the infohash, what it holds, and whom it names.
pub fn torrent_lines(t: &Metainfo, list_files: bool) -> (r: Vec<String>)
    ensures
        exists|created: Seq<Seq<char>>| #[trigger]
            are_created(created, t.creation_date) && text::views(r@) == torrent_head(*t)
                + torrent_origin(*t) + created + torrent_tail(*t, list_files),
{
    let mut r = head_lines(t);
    push_texts(&mut r, origin_lines(t));
    let created = created_line(t.creation_date);
    let ghost c = text::views(created@);
    push_texts(&mut r, created);
    push_texts(&mut r, tail_lines(t, list_files));
    assert(are_created(c, t.creation_date));
    r
}

} // verus!
