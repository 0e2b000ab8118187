//! The list of trackers, with what was seen of each and when.

use crate::report::files::joined;
use crate::text;
use crate::text::{debug_of, join_strings, push_decimal, push_left, push_text, push_texts};
use crate::torrent::trackers;
use crate::torrent::trackers::{confirmation, Entry, Origin, Passkeys, Tracker, TrackerList};
use vstd::prelude::*;
use vstd::string::*;

verus! {

/// What an entry does to a torrent, and whether it lacks a passkey.
pub open spec fn flags(e: Entry, keys: Map<Seq<char>, Seq<char>>) -> Seq<Seq<char>> {
    (if e.private {
        seq!["sets private: 1 (changes the infohash)"@]
    } else {
        Seq::empty()
    }) + (match e.source {
        Some(tag) => seq![
            "sets info.source "@ + text::debug_text(tag) + " (changes the infohash)"@,
        ],
        None => Seq::empty(),
    }) + (if trackers::asks_passkey(e.announce) {
        if keys.dom().contains(e.id) {
            seq!["passkey configured"@]
        } else {
            seq!["needs a passkey, and none is configured"@]
        }
    } else {
        Seq::empty()
    })
}

fn flag_texts(t: &Tracker, keys: &Passkeys) -> (r: Vec<String>)
    ensures
        text::views(r@) == flags(t@, keys@),
{
    let mut r: Vec<String> = Vec::new();
    assert(text::views(r@) =~= Seq::<Seq<char>>::empty());
    if t.private {
        push_text(&mut r, "sets private: 1 (changes the infohash)".to_owned());
    }
    match &t.source {
        Some(tag) => {
            let mut l = joined("sets info.source ", &debug_of(tag));
            l.append(" (changes the infohash)");
            push_text(&mut r, l);
        },
        None => {},
    }
    if t.needs_passkey() {
        match keys.get(&t.id) {
            Some(_) => {
                push_text(&mut r, "passkey configured".to_owned());
            },
            None => {
                push_text(&mut r, "needs a passkey, and none is configured".to_owned());
            },
        }
    }
    assert(text::views(r@) =~= flags(t@, keys@));
    r
}

pub open spec fn origin_text(o: Origin) -> Seq<char> {
    match o {
        Origin::Bundled => ""@,
        Origin::User => "  (yours)"@,
        Origin::Overridden => "  (replaced by your own list)"@,
    }
}

/// A line that stands under another, past the column of ids.
pub open spec fn indented(s: Seq<char>) -> Seq<char> {
    text::left(""@, 14) + s
}

/// The lines of one entry: what it is and how far it can be believed, its URL and what was
/// seen, and what it does to a torrent if it does anything.
pub open spec fn entry_texts(e: Entry, keys: Map<Seq<char>, Seq<char>>) -> Seq<Seq<char>> {
    let confirmed = match e.checked {
        Some(d) => e.health.label_text() + " — checked "@ + d,
        None => e.health.label_text() + " — from your own list"@,
    };
    let head = seq![
        text::left(e.id, 14) + e.name + origin_text(e.origin) + "  —  "@ + confirmed,
        indented(
            match e.evidence {
                Some(saw) => e.announce + " — "@ + saw,
                None => e.announce,
            },
        ),
    ];
    if flags(e, keys).len() == 0 {
        head
    } else {
        head.push(indented(text::join(flags(e, keys), "; "@)))
    }
}

fn indent(s: &str) -> (r: String)
    ensures
        r@ == indented(s@),
{
    let mut r = String::new();
    push_left(&mut r, "", 14);
    assert(r@ =~= text::left(""@, 14));
    r.append(s);
    r
}

fn entry_lines(t: &Tracker, keys: &Passkeys) -> (r: Vec<String>)
    ensures
        text::views(r@) == entry_texts(t@, keys@),
{
    let mut r: Vec<String> = Vec::new();
    let mut l = String::new();
    push_left(&mut l, &t.id, 14);
    assert(l@ =~= text::left(t.id@, 14));
    l.append(&t.name);
    match t.origin {
        Origin::Bundled => {
            l.append("");
        },
        Origin::User => {
            l.append("  (yours)");
        },
        Origin::Overridden => {
            l.append("  (replaced by your own list)");
        },
    }
    l.append("  —  ");
    l.append(&confirmation(t));
    push_text(&mut r, l);
    let mut second = t.announce.clone();
    match &t.evidence {
        Some(saw) => {
            second.append(" — ");
            second.append(saw);
        },
        None => {},
    }
    push_text(&mut r, indent(&second));
    let f = flag_texts(t, keys);
    assert(text::views(f@).len() == f@.len());
    if f.len() > 0 {
        push_text(&mut r, indent(&join_strings(&f, "; ")));
    }
    assert(text::views(r@) =~= entry_texts(t@, keys@));
    r
}

/// Whether an entry answered as a tracker when it was checked.
pub open spec fn answered(e: Entry) -> bool {
    e.health is Announces || e.health is PersonalUrl
}

/// The lines of the entries that answered, in order.
pub open spec fn list_texts(list: Seq<Entry>, keys: Map<Seq<char>, Seq<char>>) -> Seq<Seq<char>>
    decreases list.len(),
{
    if list.len() == 0 {
        Seq::empty()
    } else if answered(list.last()) {
        list_texts(list.drop_last(), keys) + entry_texts(list.last(), keys)
    } else {
        list_texts(list.drop_last(), keys)
    }
}

/// How many entries answered, and how many of those can be used as they stand.
pub open spec fn answered_count(list: Seq<Entry>) -> nat
    decreases list.len(),
{
    if list.len() == 0 {
        0
    } else {
        answered_count(list.drop_last()) + if answered(list.last()) {
            1nat
        } else {
            0
        }
    }
}

pub open spec fn usable_count(list: Seq<Entry>) -> nat
    decreases list.len(),
{
    if list.len() == 0 {
        0
    } else {
        usable_count(list.drop_last()) + if answered(list.last())
            && list.last().health.may_be_used() {
            1nat
        } else {
            0
        }
    }
}

/// What is said of the user's own list, which `exists` or not.
pub open spec fn own_list(user_list: Option<Seq<char>>, exists: bool) -> Seq<Seq<char>> {
    match user_list {
        Some(p) => if exists {
            seq!["your own list: "@ + p]
        } else {
            seq![
                "no list of your own yet; put one at "@ + p,
                "  one `Display Name|announce URL` per line — the format Trader's Little Helper used, so an existing tracker.lst can be copied straight in"@,
            ]
        },
        None => Seq::empty(),
    }
}

fn count(list: &TrackerList) -> (r: (usize, usize))
    ensures
        r.0 == usable_count(trackers::current(list@)),
        r.1 == answered_count(trackers::current(list@)),
{
    let v = list.iter();
    let ghost all = trackers::current(list@);
    let mut usable: usize = 0;
    let mut total: usize = 0;
    let mut i: usize = 0;
    while i < v.len()
        invariant
            i <= v.len(),
            all == v@.map_values(|t: &Tracker| t@),
            usable == usable_count(all.take(i as int)),
            total == answered_count(all.take(i as int)),
            usable <= i,
            total <= i,
        decreases v.len() - i,
    {
        assert(all.take(i + 1).drop_last() =~= all.take(i as int));
        assert(all.take(i + 1).last() == v@[i as int]@);
        if v[i].health.responds() {
            total += 1;
            if v[i].health.usable() {
                usable += 1;
            }
        }
        i += 1;
    }
    assert(all.take(all.len() as int) =~= all);
    (usable, total)
}

/// The whole listing.
pub fn tracker_lines(list: &TrackerList, keys: &Passkeys, user_list_exists: bool) -> (r: Vec<
    String,
>)
    ensures
        text::views(r@) == list_texts(list@, keys@) + seq![
            text::decimal(usable_count(trackers::current(list@))) + " of "@ + text::decimal(
                answered_count(trackers::current(list@)),
            ) + " entries can be used as they stand."@,
        ] + own_list(trackers::opt(list.user_list), user_list_exists),
{
    let all = list.all();
    let ghost es = list@;
    let mut r: Vec<String> = Vec::new();
    let mut i: usize = 0;
    assert(text::views(r@) =~= list_texts(es.take(0), keys@));
    while i < all.len()
        invariant
            i <= all.len(),
            es == trackers::entries(all@),
            text::views(r@) == list_texts(es.take(i as int), keys@),
        decreases all.len() - i,
    {
        assert(es.take(i + 1).drop_last() =~= es.take(i as int));
        assert(es.take(i + 1).last() == all@[i as int]@);
        if all[i].health.responds() {
            push_texts(&mut r, entry_lines(&all[i], keys));
        }
        i += 1;
    }
    assert(es.take(es.len() as int) =~= es);
    let (usable, total) = count(list);
    let mut l = text::decimal_string(usable as u64);
    l.append(" of ");
    push_decimal(&mut l, total as u64);
    l.append(" entries can be used as they stand.");
    let ghost had = text::views(r@);
    let ghost line = l@;
    push_text(&mut r, l);
    assert(had.push(line) =~= had + seq![line]);
    let mut own: Vec<String> = Vec::new();
    match &list.user_list {
        Some(p) => {
            if user_list_exists {
                push_text(&mut own, joined("your own list: ", p));
            } else {
                push_text(&mut own, joined("no list of your own yet; put one at ", p));
                push_text(
                    &mut own,
                    "  one `Display Name|announce URL` per line — the format Trader's Little Helper used, so an existing tracker.lst can be copied straight in".to_owned(),
                );
            }
        },
        None => {},
    }
    assert(text::views(own@) =~= own_list(trackers::opt(list.user_list), user_list_exists));
    push_texts(&mut r, own);
    r
}

} // verus!
