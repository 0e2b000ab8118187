//! The tracker list, the user's own on top of it, and choosing from it.

use lh_core::report::made::{made_lines, CreateRequest};
use lh_core::report::trackers::tracker_lines;
use lh_core::torrent::create::{create, CreateOpts, SourceFile};
use lh_core::torrent::metainfo::Metainfo;
use lh_core::torrent::trackers::{
    confirmation, parse_list, resolve, Health, Origin, Passkeys, TrackerList,
};

fn names(l: &[&str]) -> Vec<String> {
    l.iter().map(|s| s.to_string()).collect()
}

fn refused(l: &[&str], list: &TrackerList, keys: &Passkeys) -> String {
    resolve(&names(l), list, keys, "/c/passkeys.lst").unwrap_err().to_string()
}

/// Only the entries that answered are listed, each with the date it was checked.
#[test]
fn the_listing_names_only_the_ones_that_answered() {
    let mut list = TrackerList::bundled();
    list.user_list = Some("/c/trackers.lst".to_string());
    let text = tracker_lines(&list, &Passkeys::new(), false).join("\n");
    for id in ["dime", "etree", "genesis", "tradersden"] {
        assert!(text.contains(id), "{id} is missing from the listing");
    }
    for id in [
        "crosstown",
        "jamtothis",
        "losslesslegs",
        "mindwarp",
        "yeeshkul",
        "zappateers",
        "zomb",
    ] {
        assert!(!text.contains(id), "{id} should not be in the listing:\n{text}");
    }
    assert_eq!(text.matches("checked 2026-08-30").count(), 4, "{text}");
    assert!(text.contains("2 of 4 entries can be used as they stand."), "{text}");
    assert!(text.contains("trackers.lst"), "{text}");
    let there = tracker_lines(&list, &Passkeys::new(), true).join("\n");
    assert!(there.ends_with("your own list: /c/trackers.lst"), "{there}");
}

#[test]
fn the_shipped_list_has_eleven_entries() {
    let list = TrackerList::bundled();
    assert_eq!(list.all().len(), 11);
    assert_eq!(
        list.ids(),
        "crosstown, dime, etree, genesis, jamtothis, losslesslegs, mindwarp, tradersden, \
         yeeshkul, zappateers, zomb"
    );
    let g = list.get("genesis").unwrap();
    assert_eq!(g.health, Health::Announces);
    assert_eq!(confirmation(g), "announces — checked 2026-08-30");
    assert!(list.get("GENESIS").is_none());
}

/// An entry that cannot work never becomes an announce URL, and the way out is named.
#[test]
fn what_cannot_work_is_refused() {
    let list = TrackerList::bundled();
    let keys = Passkeys::new();
    let said = refused(&["zomb"], &list, &keys);
    assert!(said.contains("no DNS A record"), "{said}");
    assert!(said.contains("--tracker <URL>"), "{said}");
    let said = refused(&["etree"], &list, &keys);
    assert!(said.contains("issues a personal announce URL"), "{said}");
    let said = refused(&["nosuch"], &list, &keys);
    assert!(said.contains("no tracker by that name. Known ids: crosstown"), "{said}");
}

#[test]
fn a_url_is_used_verbatim_and_once() {
    let list = TrackerList::bundled();
    let keys = Passkeys::new();
    let r = resolve(
        &names(&["http://x/{passkey}", "genesis", "http://x/{passkey}"]),
        &list,
        &keys,
        "p",
    )
    .unwrap();
    assert_eq!(
        r.tiers,
        vec![
            names(&["http://x/{passkey}"]),
            names(&["http://torrent.genesis-movement.org/announce.php"]),
        ]
    );
    assert_eq!(r.warnings, names(&["http://x/{passkey} was named twice; using it once"]));
    assert_eq!(r.chosen[0].name(), "(given as a URL)");
    assert_eq!(r.chosen[1].name(), "Genesis-Movement Torrent");
}

#[test]
fn a_silent_tracker_is_used_with_a_warning() {
    let r = resolve(
        &names(&["crosstown"]),
        &TrackerList::bundled(),
        &Passkeys::new(),
        "p",
    )
    .unwrap();
    assert_eq!(r.tiers.len(), 1);
    assert!(r.warnings[0].contains("did not answer when we checked on 2026-08-30"), "{:?}", r.warnings);
}

fn pit() -> (TrackerList, Passkeys) {
    let mut list = TrackerList::bundled();
    list.merge(
        b"The Pit|https://pit.example/announce/{passkey}|private|source=PIT|id=pit\r\n",
        "trackers.lst",
    )
    .unwrap();
    let keys = Passkeys::parse(b"# mine\npit | s3cr3t\n", "passkeys.lst").unwrap();
    (list, keys)
}

/// The user's own list supplies the URL, the key comes from its file, and the torrent says
/// whose word made it private.
#[test]
fn a_user_list_supplies_the_url_the_passkey_and_the_private_flag() {
    let (list, keys) = pit();
    let chosen = resolve(&names(&["pit"]), &list, &keys, "p").unwrap();
    assert_eq!(chosen.tiers, vec![names(&["https://pit.example/announce/s3cr3t"])]);
    assert!(chosen.private);
    assert_eq!(chosen.source.as_deref(), Some("PIT"));
    let request = CreateRequest {
        piece_length: None,
        private: false,
        source: None,
        comment: None,
        include_all: false,
        force: false,
    };
    let opts: CreateOpts = lh_core::report::made::create_opts(&request, &chosen);
    let files = vec![SourceFile {
        path: names(&["t01.flac"]),
        disk: "/show/t01.flac".to_string(),
        length: 3,
    }];
    let made = create(
        "/show",
        "show",
        false,
        &files,
        &[b"abc".to_vec()],
        vec![],
        "/show.torrent",
        &opts,
        0,
    )
    .unwrap();
    let lines = made_lines(&made.created, "/show", &request, &chosen).join("\n");
    assert!(lines.contains("private    yes"), "{lines}");
    assert!(lines.contains("set by The Pit"), "{lines}");
    assert!(lines.contains("source     PIT"), "{lines}");
    let t = Metainfo::from_bytes(&made.bytes, "show.torrent").unwrap();
    assert_eq!(t.trackers(), vec!["https://pit.example/announce/s3cr3t"]);
    assert!(t.private);
}

#[test]
fn an_unfilled_passkey_is_refused() {
    let (list, _) = pit();
    let said = refused(&["pit"], &list, &Passkeys::new());
    assert!(said.contains("/c/passkeys.lst"), "{said}");
    assert!(said.contains("`pit|<your key>`"), "{said}");
}

#[test]
fn two_sources_cannot_both_be_had() {
    let (mut list, keys) = pit();
    list.merge(b"Other|http://o/a|source=OTH\n", "trackers.lst").unwrap();
    let said = refused(&["pit", "other"], &list, &keys);
    assert!(said.contains("one torrent cannot satisfy both"), "{said}");
}

#[test]
fn several_private_sites_are_warned_of() {
    let mut list = TrackerList::bundled();
    list.merge(b"A|http://a/a|private\nB|http://b/b|private\n", "l").unwrap();
    let r = resolve(&names(&["a", "b"]), &list, &Passkeys::new(), "p").unwrap();
    assert_eq!(
        r.warnings,
        names(&["you named 2 private sites (A, B). Cross-posting one torrent to several breaks most sites' rules."])
    );
}

/// An entry of the user's own replaces the one with its id, which stays visible.
#[test]
fn a_merged_entry_wins() {
    let mut list = TrackerList::bundled();
    list.merge(b"\xc3\x89tree|http://mine/|id=etree\n", "l").unwrap();
    assert_eq!(list.get("etree").unwrap().announce, "http://mine/");
    assert_eq!(list.all().len(), 12);
    assert_eq!(
        list.all().iter().filter(|t| t.origin == Origin::Overridden).count(),
        1
    );
    assert_eq!(list.iter().len(), 11);
    assert!(resolve(&names(&["etree"]), &list, &Passkeys::new(), "p").is_ok());
}

#[test]
fn a_broken_list_names_the_line() {
    let said = |data: &[u8]| parse_list(data, "l").unwrap_err().to_string();
    assert_eq!(
        said(b"\nno bar here\n"),
        "l: line 2: \"no bar here\" has no `|`; the format is `Display Name|announce URL`"
    );
    assert_eq!(said(b"|http://x\n"), "l: line 1: the entry has no name");
    assert_eq!(said(b"A|\n"), "l: line 1: \"A\" has no announce URL");
    assert_eq!(said(b"A|http://x|zap\n"), "l: line 1: unknown field \"zap\"");
    assert_eq!(said(b"A|http://x|k=v\n"), "l: line 1: unknown field \"k\"");
    assert_eq!(
        said("É|http://x\n".as_bytes()),
        "l: line 1: \"É\" gives no id and none can be made from it"
    );
    assert_eq!(
        said(b"A|http://x\na|http://y\n"),
        "l: line 2: id \"a\" is already used by \"A\"; give one of them an `id=` field"
    );
    assert!(said(b"\xff").starts_with("l: not valid UTF-8: "), "{}", said(b"\xff"));
    let e = Passkeys::parse(b"pit\n", "k").unwrap_err();
    assert_eq!(e.to_string(), "k: line 1: \"pit\" is not `tracker id|passkey`");
    let l = parse_list(b"# c\r\n\r\nLossless Legs|http://x|\r\n", "l").unwrap();
    assert_eq!(l.len(), 1);
    assert_eq!(l[0].id, "losslesslegs");
    assert_eq!(l[0].health, Health::Unchecked);
    assert_eq!(confirmation(&l[0]), "unchecked — from your own list");
}

#[test]
fn the_last_passkey_for_an_id_counts() {
    let keys = Passkeys::parse(b"a|1\nb|2\na|3\n", "k").unwrap();
    assert_eq!(keys.get("a"), Some("3"));
    assert_eq!(keys.get("b"), Some("2"));
    assert_eq!(keys.get("c"), None);
    assert!(!keys.is_empty());
    assert!(Passkeys::new().is_empty());
}

/// A whole list over another: its entries win, the others stay, and what was replaced is kept.
#[test]
fn a_merged_list_wins() {
    let mut list = TrackerList::bundled();
    let mine = b"My Tree|http://mine/1|id=etree\nNew One|http://new/1\nZ|http://z|id=zomb\n";
    let new = parse_list(mine, "l").unwrap();
    list.merge(mine, "l").unwrap();
    for e in &new {
        assert_eq!(list.get(&e.id), Some(e));
    }
    let shipped = TrackerList::bundled();
    assert_eq!(list.get("genesis"), shipped.get("genesis"));
    assert_eq!(list.all().len(), 14);
    let replaced: Vec<&str> = list
        .all()
        .iter()
        .filter(|t| t.origin == Origin::Overridden)
        .map(|t| t.id.as_str())
        .collect();
    assert_eq!(replaced, ["etree", "zomb"]);
    let mut ids: Vec<&str> = list.iter().iter().map(|t| t.id.as_str()).collect();
    assert_eq!(ids.last(), Some(&"newone"));
    ids.sort();
    ids.dedup();
    assert_eq!(ids.len(), 12);
    // A second list over the first keeps the ids apart still.
    list.merge(b"Again|http://again|id=etree\n", "l").unwrap();
    assert_eq!(list.get("etree").unwrap().name, "Again");
    assert_eq!(list.iter().len(), 12);
    assert!(list.merge(b"no bar\n", "l").is_err());
    assert_eq!(list.iter().len(), 12);
}
