//! Making a torrent: what the request comes to, and what is said of the result.

use crate::digest;
use crate::display;
use crate::path;
use crate::path::{is_within, parent_of, path_below};
use crate::report::files::joined;
use crate::text;
use crate::text::{join_strings, push_decimal, push_left, push_text, push_texts};
use crate::torrent::create::{
    copy_text, copy_tiers, default_output, CreateOpts, Created, Skipped,
};
use crate::torrent::metainfo;
use crate::torrent::trackers::{confirmation, Chosen, Pick, Resolved};
use crate::torrent::values;
use vstd::prelude::*;
use vstd::string::*;

verus! {

/// What was asked for on the command line.
#[derive(Debug, Clone)]
pub struct CreateRequest {
    pub piece_length: Option<u64>,
    pub private: bool,
    pub source: Option<String>,
    pub comment: Option<String>,
    pub include_all: bool,
    pub force: bool,
}

/// The first of two texts that there may be.
pub open spec fn first_of(a: Option<String>, b: Option<String>) -> Option<Seq<char>> {
    match a {
        Some(s) => Some(s@),
        None => metainfo::opt_view(b),
    }
}

/// What a request comes to once its trackers are known. The flags win over the list of
/// trackers: an entry can only ever add `private` or a `source`, never take one away that the
/// user asked for.
pub fn create_opts(request: &CreateRequest, chosen: &Resolved) -> (o: CreateOpts)
    ensures
        values::tier_views(o.announce@) == values::tier_views(chosen.tiers@),
        o.piece_length == request.piece_length,
        o.private == (request.private || chosen.private),
        metainfo::opt_view(o.source) == first_of(request.source, chosen.source),
        metainfo::opt_view(o.comment) == metainfo::opt_view(request.comment),
        o.include_all == request.include_all,
        o.overwrite == request.force,
        o.created_by@ == "Little Helper "@ + crate::tools::CRATE_VERSION@,
{
    let d = CreateOpts::default();
    CreateOpts {
        announce: copy_tiers(&chosen.tiers),
        piece_length: request.piece_length,
        private: request.private || chosen.private,
        source: if request.source.is_some() {
            copy_text(&request.source)
        } else {
            copy_text(&chosen.source)
        },
        comment: copy_text(&request.comment),
        include_all: request.include_all,
        overwrite: request.force,
        created_by: d.created_by,
    }
}

/// Where the torrent goes: where it was asked for, or beside its source.
pub fn torrent_output(asked: &Option<String>, source: &str) -> (r: Result<String, String>)
    ensures
        match r {
            Ok(p) => match asked {
                Some(a) => p@ == a@,
                None => path::file_name(source@) is Some && path::parent(source@) is Some
                    && p@ == path::join(
                    path::parent(source@)->0,
                    path::file_name(source@)->0 + ".torrent"@,
                ),
            },
            Err(e) => asked is None && (path::file_name(source@) is None || path::parent(
                source@,
            ) is None) && e@ == source@ + " has no parent directory to write a torrent beside"@,
        },
{
    match asked {
        Some(a) => Ok(a.clone()),
        None => match default_output(source) {
            Some(p) => Ok(p),
            None => Err(joined(source, " has no parent directory to write a torrent beside")),
        },
    }
}

/// Whether a torrent would be written inside the folder that it describes. That adds a file to
/// the folder, so that making the torrent again would give another infohash.
pub open spec fn lands_inside(source: Seq<char>, is_dir: bool, dst: Seq<char>) -> bool {
    is_dir && (path::parent(dst) matches Some(p) && path::within(p, source))
}

/// What is said of a torrent that is written inside the folder that it describes.
pub fn inside_warning(source: &str, is_dir: bool, dst: &str) -> (r: Option<String>)
    ensures
        match r {
            Some(w) => lands_inside(source@, is_dir, dst@) && w@
                == "warning: writing the torrent inside "@ + source@
                + " means re-creating it later will not produce the same infohash"@,
            None => !lands_inside(source@, is_dir, dst@),
        },
{
    if !is_dir {
        return None;
    }
    match parent_of(dst) {
        Some(p) => if is_within(&p, source) {
            let mut w = joined("warning: writing the torrent inside ", source);
            w.append(" means re-creating it later will not produce the same infohash");
            Some(w)
        } else {
            None
        },
        None => None,
    }
}

// What is said of the result.

/// The line about one thing that was left out.
pub open spec fn excluded_text(path: Seq<char>, why: Skipped, source: Seq<char>) -> Seq<char> {
    "  excluded   "@ + path::below(path, source) + " ("@ + (match why {
        Skipped::Noise => "not part of the recording"@,
        Skipped::EmptyDirectory => "empty directories cannot be expressed in a v1 torrent"@,
    }) + ")"@
}

pub open spec fn excluded_texts(excluded: Seq<(String, Skipped)>, source: Seq<char>) -> Seq<
    Seq<char>,
> {
    excluded.map_values(|e: (String, Skipped)| excluded_text(e.0@, e.1, source))
}

fn excluded_lines(excluded: &Vec<(String, Skipped)>, source: &str) -> (r: Vec<String>)
    ensures
        text::views(r@) == excluded_texts(excluded@, source@),
{
    let ghost all = excluded_texts(excluded@, source@);
    let mut r: Vec<String> = Vec::new();
    let mut i: usize = 0;
    assert(text::views(r@) =~= all.take(0));
    while i < excluded.len()
        invariant
            i <= excluded.len(),
            all == excluded_texts(excluded@, source@),
            text::views(r@) == all.take(i as int),
        decreases excluded.len() - i,
    {
        let mut l = joined("  excluded   ", &path_below(&excluded[i].0, source));
        l.append(" (");
        l.append(excluded[i].1.reason());
        l.append(")");
        push_text(&mut r, l);
        assert(text::views(r@) =~= all.take(i + 1));
        i += 1;
    }
    assert(all.take(all.len() as int) =~= all);
    r
}

/// The names of the chosen trackers that make a torrent private.
pub open spec fn private_names(chosen: Seq<Chosen>) -> Seq<Seq<char>>
    decreases chosen.len(),
{
    if chosen.len() == 0 {
        Seq::empty()
    } else {
        let front = private_names(chosen.drop_last());
        match chosen.last()@.entry {
            Some(e) => if e.private {
                front.push(e.name)
            } else {
                front
            },
            None => front,
        }
    }
}

fn names_of_private(chosen: &Vec<Chosen>) -> (r: Vec<String>)
    ensures
        text::views(r@) == private_names(chosen@),
{
    let mut r: Vec<String> = Vec::new();
    let mut i: usize = 0;
    assert(text::views(r@) =~= private_names(chosen@.take(0)));
    while i < chosen.len()
        invariant
            i <= chosen.len(),
            text::views(r@) == private_names(chosen@.take(i as int)),
        decreases chosen.len() - i,
    {
        assert(chosen@.take(i + 1).drop_last() =~= chosen@.take(i as int));
        assert(chosen@.take(i + 1).last() == chosen@[i as int]);
        match &chosen[i].tracker {
            Some(t) => {
                if t.private {
                    push_text(&mut r, t.name.clone());
                }
            },
            None => {},
        }
        i += 1;
    }
    assert(chosen@.take(chosen@.len() as int) =~= chosen@);
    r
}

/// The line of the `i`th tracker that was chosen.
pub open spec fn pick_text(p: Pick, i: int) -> Seq<char> {
    let label = "  "@ + text::left(
        if i == 0 {
            "tracker"@
        } else {
            ""@
        },
        10,
    ) + " "@;
    match p.entry {
        Some(e) => label + e.name + "  "@ + p.announce + "  ("@ + (match e.checked {
            Some(d) => e.health.label_text() + " — checked "@ + d,
            None => e.health.label_text() + " — from your own list"@,
        }) + ")"@,
        None => label + p.announce + "  (given as a URL, used verbatim)"@,
    }
}

pub open spec fn pick_texts(chosen: Seq<Chosen>) -> Seq<Seq<char>> {
    if chosen.len() == 0 {
        seq!["  tracker    none (a trackerless torrent)"@]
    } else {
        Seq::new(chosen.len(), |i: int| pick_text(chosen[i]@, i))
    }
}

fn pick_line(c: &Chosen, i: usize) -> (s: String)
    ensures
        s@ == pick_text(c@, i as int),
{
    let mut s = "  ".to_owned();
    if i == 0 {
        push_left(&mut s, "tracker", 10);
    } else {
        push_left(&mut s, "", 10);
    }
    s.append(" ");
    match &c.tracker {
        Some(t) => {
            s.append(&t.name);
            s.append("  ");
            s.append(&c.announce);
            s.append("  (");
            s.append(&confirmation(t));
            s.append(")");
        },
        None => {
            s.append(&c.announce);
            s.append("  (given as a URL, used verbatim)");
        },
    }
    s
}

fn pick_lines(chosen: &Vec<Chosen>) -> (r: Vec<String>)
    ensures
        text::views(r@) == pick_texts(chosen@),
{
    let ghost all = pick_texts(chosen@);
    let mut r: Vec<String> = Vec::new();
    if chosen.len() == 0 {
        push_text(&mut r, "  tracker    none (a trackerless torrent)".to_owned());
        assert(text::views(r@) =~= all);
        return r;
    }
    let mut i: usize = 0;
    assert(text::views(r@) =~= all.take(0));
    while i < chosen.len()
        invariant
            i <= chosen.len(),
            chosen.len() > 0,
            all == pick_texts(chosen@),
            text::views(r@) == all.take(i as int),
        decreases chosen.len() - i,
    {
        push_text(&mut r, pick_line(&chosen[i], i));
        assert(text::views(r@) =~= all.take(i + 1));
        i += 1;
    }
    assert(all.take(all.len() as int) =~= all);
    r
}

pub open spec fn made_head(made: Created) -> Seq<Seq<char>> {
    seq![
        made.name@,
        "  "@ + text::decimal(made.files@.len()) + " files   "@ + display::bytes_text(
            made.total_length as nat,
        ) + "   "@ + text::decimal(made.pieces as nat) + (if made.pieces == 1 {
            " piece of "@
        } else {
            " pieces of "@
        }) + display::bytes_text(made.piece_length as nat),
    ]
}

/// What decided a part of the torrent's identity: the infohash, whether it is private and by
/// whose word, and its source.
pub open spec fn identity(
    made: Created,
    asked_private: bool,
    chosen: Resolved,
    source_tag: Option<Seq<char>>,
) -> Seq<Seq<char>> {
    seq!["  infohash   "@ + digest::hex_text(made.info_hash@)] + (if asked_private
        || chosen.private {
        seq![
            "  private    yes (BEP 27; part of the infohash — set by "@ + (if asked_private {
                "--private"@
            } else {
                text::join(private_names(chosen.chosen@), ", "@)
            }) + ")"@,
        ]
    } else {
        Seq::empty()
    }) + (match source_tag {
        Some(tag) => seq!["  source     "@ + tag + " (part of the infohash)"@],
        None => Seq::empty(),
    })
}

fn identity_lines(
    made: &Created,
    asked_private: bool,
    chosen: &Resolved,
    source_tag: &Option<String>,
) -> (r: Vec<String>)
    ensures
        text::views(r@) == identity(
            *made,
            asked_private,
            *chosen,
            metainfo::opt_view(*source_tag),
        ),
{
    let mut r: Vec<String> = Vec::new();
    push_text(&mut r, joined("  infohash   ", &made.info_hash_hex()));
    if asked_private || chosen.private {
        let mut l = "  private    yes (BEP 27; part of the infohash — set by ".to_owned();
        if asked_private {
            l.append("--private");
        } else {
            l.append(&join_strings(&names_of_private(&chosen.chosen), ", "));
        }
        l.append(")");
        push_text(&mut r, l);
    }
    match source_tag {
        Some(tag) => {
            let mut l = joined("  source     ", tag);
            l.append(" (part of the infohash)");
            push_text(&mut r, l);
        },
        None => {},
    }
    assert(text::views(r@) =~= identity(
        *made,
        asked_private,
        *chosen,
        metainfo::opt_view(*source_tag),
    ));
    r
}

/// What became of a request to make a torrent. The flag and the source are inside the infohash,
/// so the entry that decided them is named.
pub fn made_lines(made: &Created, source: &str, request: &CreateRequest, chosen: &Resolved) -> (r:
    Vec<String>)
    ensures
        text::views(r@) == (made_head(*made) + excluded_texts(made.excluded@, source@) + identity(
            *made,
            request.private,
            *chosen,
            first_of(request.source, chosen.source),
        ) + pick_texts(chosen.chosen@)).push("  wrote      "@ + made.path@),
{
    let mut r: Vec<String> = Vec::new();
    push_text(&mut r, made.name.clone());
    let mut l = "  ".to_owned();
    push_decimal(&mut l, made.files.len() as u64);
    l.append(" files   ");
    l.append(&display::bytes(made.total_length));
    l.append("   ");
    push_decimal(&mut l, made.pieces as u64);
    if made.pieces == 1 {
        l.append(" piece of ");
    } else {
        l.append(" pieces of ");
    }
    l.append(&display::bytes(made.piece_length));
    push_text(&mut r, l);
    assert(text::views(r@) =~= made_head(*made));
    push_texts(&mut r, excluded_lines(&made.excluded, source));
    let tag = if request.source.is_some() {
        copy_text(&request.source)
    } else {
        copy_text(&chosen.source)
    };
    push_texts(&mut r, identity_lines(made, request.private, chosen, &tag));
    push_texts(&mut r, pick_lines(&chosen.chosen));
    push_text(&mut r, joined("  wrote      ", &made.path));
    r
}

} // verus!
