//! Torrents: reading, making and checking them.

use lh_core::error::Error;
use lh_core::report::check::check_lines;
use lh_core::report::made::{
    create_opts, inside_warning, made_lines, torrent_output, CreateRequest,
};
use lh_core::report::torrent::torrent_lines;
use lh_core::torrent::create::{
    auto_piece_length, create, hash_piece, sort_files, validate_piece_length, walk, CreateOpts,
    Made, Seen, Skipped, SourceFile,
};
use lh_core::torrent::encode::{encode, info_bytes, Content, Draft};
use lh_core::torrent::layout::{
    check_sizes, expected_paths, join_checked, resolve_root, Found, Given,
};
use lh_core::torrent::metainfo::{Metainfo, TorrentFile};
use lh_core::torrent::report::{FileStatus, Verdict};
use lh_core::torrent::trackers::Resolved;
use lh_core::torrent::verify::check;
use sha1::{Digest, Sha1};

fn texts(l: &[&str]) -> Vec<String> {
    l.iter().map(|s| s.to_string()).collect()
}

fn sha1_hex(data: &[u8]) -> String {
    hex::encode(Sha1::digest(data))
}

/// A whole torrent around an `info` dictionary.
fn around(info: &str) -> Vec<u8> {
    format!("d4:info{info}e").into_bytes()
}

fn said(r: Result<Metainfo, Error>) -> String {
    r.unwrap_err().to_string()
}

const ONE_HASH: &str = "6:pieces20:aaaaaaaaaaaaaaaaaaaa";

#[test]
fn a_single_file_torrent_reads() {
    let info = format!("d6:lengthi5e4:name5:a.bin12:piece lengthi16384e{ONE_HASH}e");
    let data = format!("d8:announce8:http://x13:creation datei86400e4:info{info}e");
    let t = Metainfo::from_bytes(data.as_bytes(), "x.torrent").unwrap();
    assert_eq!(t.name, "a.bin");
    assert!(t.is_single_file);
    assert_eq!(t.total_length, 5);
    assert_eq!(t.pieces, vec![[b'a'; 20]]);
    assert_eq!(t.info_hash_hex(), sha1_hex(info.as_bytes()));
    assert_eq!(t.trackers(), vec!["http://x"]);
    assert_eq!(t.creation_date, Some(86_400));
    assert!(!t.private);
    let lines = torrent_lines(&t, true);
    assert_eq!(lines[0], "a.bin");
    assert_eq!(lines[1], format!("  infohash     {}", sha1_hex(info.as_bytes())));
    assert_eq!(lines[2], "  pieces       1 x 16.0 KiB");
    assert_eq!(lines[4], "  files        1");
    assert_eq!(lines[5], "  created      1970-01-02 00:00:00 UTC");
    assert_eq!(lines[6], "  trackers     http://x");
    assert_eq!(lines[7], "");
    assert_eq!(lines.len(), 9);
    assert!(lines[8].ends_with("  a.bin"), "{}", lines[8]);
    assert_eq!(torrent_lines(&t, false).len(), 7);
}

#[test]
fn torrent_info_on_a_non_torrent_is_a_command_failure() {
    let e = said(Metainfo::from_bytes(b"fLaC\0\0", "cdda-aligned.flac"));
    assert!(e.starts_with("cdda-aligned.flac: not valid bencode: "), "{e}");
}

#[test]
fn a_non_torrent_says_so() {
    assert_eq!(
        said(Metainfo::from_bytes(b"", "x")),
        "x: not a usable torrent: file is empty"
    );
    assert!(said(Metainfo::from_bytes(b"li1ee", "x")).starts_with("x: not valid bencode: "));
    assert!(said(Metainfo::from_bytes(b"d4:info", "x")).starts_with("x: not valid bencode: "));
    assert_eq!(
        said(Metainfo::from_bytes(b"d3:fooi1ee", "x")),
        "x: not a usable torrent: no info dictionary"
    );
}

/// Each way in which an info dictionary is refused.
#[test]
fn a_broken_info_dictionary_is_refused() {
    let cases = [
        (
            "d12:meta versioni2e4:name1:a12:piece lengthi1ee".to_string(),
            "this is a BitTorrent v2 torrent, which is not supported yet",
        ),
        (
            format!("d6:lengthi5e12:piece lengthi8e{ONE_HASH}e"),
            "info dictionary has no name",
        ),
        (
            format!("d6:lengthi5e4:name1:a{ONE_HASH}e"),
            "info dictionary has no piece length",
        ),
        (
            format!("d6:lengthi5e4:name1:a12:piece lengthi0e{ONE_HASH}e"),
            "implausible piece length 0",
        ),
        (
            "d6:lengthi5e4:name1:a12:piece lengthi8ee".to_string(),
            "info dictionary has no pieces",
        ),
        (
            "d6:lengthi5e4:name1:a12:piece lengthi8e6:pieces3:abce".to_string(),
            "pieces is 3 bytes, not a multiple of 20",
        ),
        (
            format!("d4:name1:a12:piece lengthi8e{ONE_HASH}e"),
            "info dictionary has neither length nor files",
        ),
        (
            format!(
                "d5:filesld6:lengthi5e4:pathl1:aeee6:lengthi5e4:name1:a12:piece lengthi8e{ONE_HASH}e"
            ),
            "info dictionary has both length and files",
        ),
    ];
    for (info, want) in cases {
        let got = said(Metainfo::from_bytes(&around(&info), "x"));
        assert_eq!(got, format!("x: not a usable torrent: {want}"), "{info}");
    }
    let short = format!("d6:lengthi50e4:name1:a12:piece lengthi8e{ONE_HASH}e");
    let got = said(Metainfo::from_bytes(&around(&short), "x"));
    assert!(got.contains('7'), "{got}");
}

/// A torrent names its files, and whoever made it chose the names.
#[test]
fn unsafe_names_are_refused() {
    for name in ["..", ".", "a/b", "a\\b"] {
        let info = format!(
            "d6:lengthi5e4:name{}:{name}12:piece lengthi8e{ONE_HASH}e",
            name.len()
        );
        let e = Metainfo::from_bytes(&around(&info), "x").unwrap_err();
        assert!(matches!(e, Error::UnsafeTorrentPath { .. }), "{}", e.to_string());
        let info = format!(
            "d5:filesld6:lengthi5e4:pathl{}:{name}eee4:name1:a12:piece lengthi8e{ONE_HASH}e",
            name.len()
        );
        let e = Metainfo::from_bytes(&around(&info), "x").unwrap_err();
        assert!(matches!(e, Error::UnsafeTorrentPath { .. }), "{}", e.to_string());
    }
}

#[test]
fn joins_stay_below_the_root() {
    assert_eq!(
        join_checked("/s", &texts(&["a", "b.flac"]), "x").unwrap(),
        "/s/a/b.flac"
    );
    let e = join_checked("/s", &texts(&["CON.txt"]), "x").unwrap_err();
    assert_eq!(
        e.to_string(),
        "x: refusing unsafe path in torrent: \"CON.txt\" is a reserved device name on Windows"
    );
    let e = join_checked("/s", &texts(&["..", "b"]), "x").unwrap_err();
    assert!(matches!(e, Error::UnsafeTorrentPath { .. }), "{}", e.to_string());
}

fn draft(content: Content, pieces: usize) -> Draft {
    Draft {
        name: "show".to_string(),
        piece_length: 16_384,
        pieces: vec![[7; 20]; pieces],
        content,
        private: true,
        source: Some("PIT".to_string()),
        announce: vec![texts(&["http://a", "http://b"]), texts(&["http://c"])],
        comment: Some("one\ntwo".to_string()),
        created_by: Some("me".to_string()),
        creation_date: Some(-1),
    }
}

fn tfile(path: &[&str], length: u64) -> TorrentFile {
    TorrentFile {
        path: texts(path),
        length,
        is_pad: false,
    }
}

/// What is written reads back, field by field, and hashes to what was promised.
#[test]
fn an_encoded_torrent_reads_back() {
    let d = draft(
        Content::Multi {
            files: vec![tfile(&["a.flac"], 10), tfile(&["art", "b.txt"], 20_000)],
        },
        2,
    );
    let e = encode(&d).unwrap();
    assert_eq!(hex::encode(e.info_hash), sha1_hex(&info_bytes(&d).unwrap()));
    let t = Metainfo::from_bytes(&e.bytes, "x").unwrap();
    assert_eq!(t.info_hash, e.info_hash);
    assert_eq!(t.name, "show");
    assert_eq!(t.pieces, d.pieces);
    assert_eq!(t.files.len(), 2);
    assert_eq!(t.files[1].display_path(), "art/b.txt");
    assert_eq!(t.files[1].length, 20_000);
    assert!(t.private);
    assert_eq!(t.source.as_deref(), Some("PIT"));
    assert_eq!(t.announce, d.announce);
    assert_eq!(t.comment.as_deref(), Some("one\ntwo"));
    assert_eq!(t.created_by.as_deref(), Some("me"));
    assert_eq!(t.creation_date, Some(-1));
    let lines = torrent_lines(&t, false);
    assert!(lines.contains(&"  private      yes (BEP 27; part of the infohash)".to_string()));
    assert!(lines.contains(&"  comment      one".to_string()));
    assert!(lines.contains(&"               two".to_string()));
    assert!(lines.contains(&"               http://b".to_string()));
}

#[test]
fn private_and_source_are_part_of_the_infohash() {
    let content = Content::Single { length: 5 };
    let base = encode(&draft(content.clone(), 1)).unwrap().info_hash;
    let mut open = draft(content.clone(), 1);
    open.private = false;
    assert_ne!(encode(&open).unwrap().info_hash, base);
    let mut other = draft(content.clone(), 1);
    other.source = None;
    assert_ne!(encode(&other).unwrap().info_hash, base);
    let mut elsewhere = draft(content, 1);
    elsewhere.announce = vec![];
    elsewhere.comment = None;
    assert_eq!(encode(&elsewhere).unwrap().info_hash, base);
}

#[test]
fn a_draft_that_makes_no_sense_is_refused() {
    let said = |d: &Draft| encode(d).unwrap_err().to_string();
    let ok = draft(Content::Single { length: 5 }, 1);
    let mut d = ok.clone();
    d.name = String::new();
    assert_eq!(said(&d), "cannot write a torrent: a torrent needs a name");
    let mut d = ok.clone();
    d.piece_length = 0;
    assert_eq!(said(&d), "cannot write a torrent: piece length cannot be zero");
    let mut d = ok.clone();
    d.content = Content::Single { length: 0 };
    assert_eq!(said(&d), "cannot write a torrent: show has no data in it to seed");
    let mut d = ok.clone();
    d.pieces = vec![];
    assert_eq!(
        said(&d),
        "cannot write a torrent: 0 piece hashes for 5 bytes at 16384 per piece; expected 1"
    );
}

#[test]
fn piece_lengths_are_powers_of_two_in_range() {
    assert!(validate_piece_length(16_384).is_ok());
    assert!(validate_piece_length(16_777_216).is_ok());
    for n in [0, 1, 8_192, 16_385, 20_000, 33_554_432] {
        let e = validate_piece_length(n).unwrap_err();
        assert!(matches!(e, Error::TorrentEncode { .. }), "{}", e.to_string());
    }
    assert_eq!(auto_piece_length(1), 16_384);
    assert_eq!(auto_piece_length(u64::MAX), 16_777_216);
    let n = auto_piece_length(700_000_000);
    assert!(n.is_power_of_two() && n > 16_384 && n < 16_777_216, "{n}");
}

fn seen_file(dir: &str, name: &str, length: u64) -> Seen {
    Seen::File {
        name: name.to_string(),
        path: format!("{dir}/{name}"),
        length,
    }
}

fn entered(dir: &str, name: &str) -> Seen {
    Seen::Enter {
        name: name.to_string(),
        path: format!("{dir}/{name}"),
    }
}

#[test]
fn a_walk_leaves_out_noise_and_empty_folders() {
    let seen = vec![
        seen_file("/s", "t01.flac", 3),
        seen_file("/s", ".DS_Store", 1),
        seen_file("/s", "old.torrent", 1),
        entered("/s", "art"),
        seen_file("/s/art", "front.jpg", 2),
        Seen::Leave,
        entered("/s", "empty"),
        Seen::Leave,
    ];
    let (files, excluded) = walk("/s", &seen, false).unwrap();
    let paths: Vec<Vec<String>> = files.iter().map(|f| f.path.clone()).collect();
    assert_eq!(paths, vec![texts(&["t01.flac"]), texts(&["art", "front.jpg"])]);
    assert_eq!(
        excluded,
        vec![
            ("/s/.DS_Store".to_string(), Skipped::Noise),
            ("/s/old.torrent".to_string(), Skipped::Noise),
            ("/s/empty".to_string(), Skipped::EmptyDirectory),
        ]
    );
    let (all, _) = walk("/s", &seen, true).unwrap();
    assert_eq!(all.len(), 4);
    let sorted = sort_files(files);
    assert_eq!(sorted[0].path, texts(&["art", "front.jpg"]));
    assert_eq!(sorted[1].path, texts(&["t01.flac"]));
}

#[test]
fn a_walk_refuses_links_and_nameless_files() {
    let link = vec![Seen::Link {
        path: "/s/l".to_string(),
    }];
    let e = walk("/s", &link, true).unwrap_err();
    assert!(e.to_string().contains("/s/l is a symbolic link"), "{}", e.to_string());
    let odd = vec![Seen::Unnamed {
        shown: "/s/\u{fffd}".to_string(),
    }];
    assert!(walk("/s", &odd, true).is_err());
}

fn source(path: &[&str], data: &[u8]) -> SourceFile {
    SourceFile {
        path: texts(path),
        disk: format!("/s/{}", path.join("/")),
        length: data.len() as u64,
    }
}

fn payload() -> (Vec<SourceFile>, Vec<Vec<u8>>) {
    let a: Vec<u8> = (0..20_000u32).map(|i| (i % 251) as u8).collect();
    let b: Vec<u8> = (0..9_000u32).map(|i| (i % 13) as u8).collect();
    let c: Vec<u8> = vec![9; 40_000];
    (
        vec![source(&["a.flac"], &a), source(&["b.flac"], &b), source(&["c.flac"], &c)],
        vec![a, b, c],
    )
}

fn made() -> (Made, Vec<Vec<u8>>) {
    let (files, data) = payload();
    let mut opts = CreateOpts::default();
    opts.piece_length = Some(16_384);
    let m = create(
        "/s",
        "s",
        false,
        &files,
        &data,
        vec![("/s/Thumbs.db".to_string(), Skipped::Noise)],
        "/s.torrent",
        &opts,
        86_400,
    )
    .unwrap();
    (m, data)
}

#[test]
fn pieces_are_hashed_across_file_boundaries() {
    let (m, data) = made();
    let t = Metainfo::from_bytes(&m.bytes, "x").unwrap();
    let stream: Vec<u8> = data.concat();
    let expected: Vec<String> = stream.chunks(16_384).map(sha1_hex).collect();
    let got: Vec<String> = t.pieces.iter().map(hex::encode).collect();
    assert_eq!(got, expected);
    assert_eq!(hex::encode(hash_piece(b"abc")), "a9993e364706816aba3e25717850c26c9cd0d89d");
    assert_eq!(t.total_length, 69_000);
    assert_eq!(t.creation_date, Some(86_400));
    assert_eq!(m.created.info_hash, t.info_hash);
    assert_eq!(m.created.pieces, 5);
}

/// Where no piece length is asked for, the payload decides, and one that is no piece length
/// makes no torrent.
#[test]
fn the_piece_length_is_chosen_by_the_payload() {
    let (files, data) = payload();
    let mut opts = CreateOpts::default();
    let make = |opts: &CreateOpts| {
        create("/s", "s", false, &files, &data, vec![], "/s.torrent", opts, 1)
    };
    let m = make(&opts).unwrap();
    let t = Metainfo::from_bytes(&m.bytes, "x").unwrap();
    assert_eq!(t.piece_length, auto_piece_length(69_000) as u64);
    let expected: Vec<String> =
        data.concat().chunks(t.piece_length as usize).map(sha1_hex).collect();
    assert_eq!(t.pieces.iter().map(hex::encode).collect::<Vec<_>>(), expected);
    opts.piece_length = Some(12_345);
    assert!(make(&opts).is_err());
}

fn checked(t: &Metainfo, data: &[Vec<u8>], found: Vec<Found>, quick: bool) -> (Vec<String>, bool) {
    let paths = expected_paths(t, "/s", "x").unwrap();
    let local = vec!["/s/a.flac".to_string(), "/s/notes/x.txt".to_string()];
    let report = check_sizes(t, "/s", paths, &found, &local);
    let report = if quick { report } else { check(t, report, data) };
    check_lines(&report, t)
}

fn all_there(data: &[Vec<u8>]) -> Vec<Found> {
    data.iter()
        .map(|d| Found::File {
            length: d.len() as u64,
        })
        .collect()
}

/// What was made of a folder verifies against that folder.
#[test]
fn a_created_torrent_verifies() {
    let (m, data) = made();
    let t = Metainfo::from_bytes(&m.bytes, "x").unwrap();
    let (lines, ok) = checked(&t, &data, all_there(&data), false);
    assert!(ok);
    assert_eq!(lines[0], "s");
    assert_eq!(lines[2], "  root /s");
    assert_eq!(lines[4], "OK          a.flac");
    assert_eq!(lines[7], "EXTRA       notes/x.txt");
    assert_eq!(lines[9], "5 of 5 pieces verified");
    assert_eq!(lines[10], "all 3 files verified");
    let (lines, ok) = checked(&t, &data, all_there(&data), true);
    assert!(ok);
    assert_eq!(lines[4], "SIZE OK     a.flac");
    assert_eq!(
        lines[lines.len() - 1],
        "all 3 files match by size (contents not read)"
    );
}

/// A piece that lies in one file convicts it; one that is shared accuses both.
#[test]
fn a_bad_piece_is_attributed() {
    let (m, data) = made();
    let t = Metainfo::from_bytes(&m.bytes, "x").unwrap();
    let mut bad = data.clone();
    bad[0][5] ^= 1;
    let (lines, ok) = checked(&t, &bad, all_there(&data), false);
    assert!(!ok);
    assert_eq!(lines[4], "CORRUPT     a.flac  (piece 0)");
    assert_eq!(lines[5], "OK          b.flac");
    assert_eq!(lines[9], "4 of 5 pieces verified, 1 failed");
    assert_eq!(lines[10], "1 of 3 file needs attention");
    let mut bad = data.clone();
    bad[1][0] ^= 1;
    let (lines, ok) = checked(&t, &bad, all_there(&data), false);
    assert!(!ok);
    assert_eq!(
        lines[4],
        "SUSPECT     a.flac  (piece 1 is shared with b.flac, c.flac; either could be at fault)"
    );
}

#[test]
fn missing_and_wrong_files_are_named() {
    let (m, data) = made();
    let t = Metainfo::from_bytes(&m.bytes, "x").unwrap();
    let found = vec![
        Found::Missing,
        Found::File { length: 1 },
        Found::File { length: 40_000 },
    ];
    let held = vec![vec![], vec![], data[2].clone()];
    let (lines, ok) = checked(&t, &held, found, false);
    assert!(!ok);
    assert_eq!(lines[4], "MISSING     a.flac");
    assert_eq!(lines[5], "WRONG SIZE  b.flac  (expected 9000 bytes, found 1)");
    assert_eq!(
        lines[6],
        "PARTIAL     c.flac  (3 pieces verified, 1 unreadable because a neighbouring file is bad)"
    );
    let found = vec![
        Found::Refused {
            reason: "denied".to_string(),
        },
        Found::Other,
        Found::File { length: 40_000 },
    ];
    let (lines, _) = checked(&t, &held, found, true);
    assert_eq!(lines[4], "UNREADABLE  a.flac  (denied)");
}

#[test]
fn the_root_is_the_show_or_the_folder_that_holds_it() {
    let (m, _) = made();
    let t = Metainfo::from_bytes(&m.bytes, "x").unwrap();
    assert_eq!(resolve_root(&t, "/x", Given::Folder, true).unwrap(), "/x/s");
    assert_eq!(resolve_root(&t, "/x/s", Given::Folder, false).unwrap(), "/x/s");
    assert_eq!(resolve_root(&t, "/x/f", Given::File, false).unwrap(), "/x");
    assert_eq!(resolve_root(&t, "f", Given::File, false).unwrap(), ".");
    assert!(resolve_root(&t, "/no", Given::Nothing, false).is_err());
}

#[test]
fn creation_refuses_what_cannot_be_seeded() {
    let opts = CreateOpts::default();
    let e = create("/s", "s", false, &vec![], &[], vec![], "/d", &opts, 0).unwrap_err();
    assert_eq!(
        e.to_string(),
        "cannot write a torrent: /s contains no files to put in a torrent"
    );
    let empty = vec![source(&["a"], b"")];
    let e = create("/s", "s", false, &empty, &[vec![]], vec![], "/d", &opts, 0).unwrap_err();
    assert_eq!(e.to_string(), "cannot write a torrent: /s has no data in it to seed");
}

fn request() -> CreateRequest {
    CreateRequest {
        piece_length: Some(16_384),
        private: false,
        source: None,
        comment: Some("c".to_string()),
        include_all: false,
        force: true,
    }
}

fn no_trackers() -> Resolved {
    Resolved {
        tiers: vec![],
        private: false,
        source: None,
        chosen: vec![],
        warnings: vec![],
    }
}

#[test]
fn flags_win_over_the_tracker_list() {
    let mut r = request();
    let mut chosen = no_trackers();
    chosen.private = true;
    chosen.source = Some("PIT".to_string());
    let o = create_opts(&r, &chosen);
    assert!(o.private && o.overwrite);
    assert_eq!(o.source.as_deref(), Some("PIT"));
    assert_eq!(o.comment.as_deref(), Some("c"));
    assert_eq!(o.piece_length, Some(16_384));
    r.source = Some("MINE".to_string());
    assert_eq!(create_opts(&r, &chosen).source.as_deref(), Some("MINE"));
}

#[test]
fn the_report_of_a_new_torrent() {
    let (m, _) = made();
    let lines = made_lines(&m.created, "/s", &request(), &no_trackers());
    assert_eq!(lines[0], "s");
    assert_eq!(lines[1], "  3 files   67.4 KiB   5 pieces of 16.0 KiB");
    assert_eq!(lines[2], "  excluded   Thumbs.db (not part of the recording)");
    assert_eq!(lines[3], format!("  infohash   {}", m.created.info_hash_hex()));
    assert_eq!(lines[4], "  tracker    none (a trackerless torrent)");
    assert_eq!(lines[5], "  wrote      /s.torrent");
    assert_eq!(
        torrent_output(&None, "/x/show"),
        Ok("/x/show.torrent".to_string())
    );
    assert!(torrent_output(&None, "/").is_err());
    assert!(inside_warning("/x/show", true, "/x/show/a/b.torrent").is_some());
    assert!(inside_warning("/x/show", true, "/x/showy.torrent").is_none());
    assert!(inside_warning("/x/show", false, "/x/show/b.torrent").is_none());
}

#[test]
fn a_verdict_follows_from_the_files() {
    let (m, data) = made();
    let t = Metainfo::from_bytes(&m.bytes, "x").unwrap();
    let paths = expected_paths(&t, "/s", "x").unwrap();
    let report = check_sizes(&t, "/s", paths, &all_there(&data), &vec![]);
    assert_eq!(report.verdict(), Verdict::SizesMatch);
    let report = check(&t, report, &data);
    assert_eq!(report.verdict(), Verdict::Complete);
    assert!(report.failures().is_empty());
    assert!(report.files.iter().all(|f| f.status == FileStatus::Complete));
}

/// From the walk to the bytes: every file is listed or left out, the files ascend, and the
/// bytes read back as what was reported.
#[test]
fn a_folder_is_described_by_its_torrent() {
    let at = |p: &str| format!("/s/{p}");
    let named = |p: &str| p.rsplit('/').next().unwrap().to_string();
    let file = |p: &str, length: u64| Seen::File {
        name: named(p),
        path: at(p),
        length,
    };
    let seen = vec![
        file(".DS_Store", 9),
        Seen::Enter {
            name: "a".to_string(),
            path: at("a"),
        },
        file("a/x.flac", 4),
        file("a/y.torrent", 2),
        Seen::Leave,
        file("a-b.flac", 3),
        file("b.txt", 1),
    ];
    let (walked, excluded) = walk("/s", &seen, false).unwrap();
    let files = sort_files(walked);
    let data: Vec<Vec<u8>> = files.iter().map(|f| vec![7; f.length as usize]).collect();
    let opts = CreateOpts::default();
    let made = create("/s", "s", false, &files, &data, excluded, "/s.torrent", &opts, 1).unwrap();
    let m = Metainfo::from_bytes(&made.bytes, "x").unwrap();
    assert_eq!(m.info_hash, made.created.info_hash);
    assert_eq!(m.files, made.created.files);
    let shown: Vec<String> = m.files.iter().map(|f| f.display_path()).collect();
    assert_eq!(shown, ["a-b.flac", "a/x.flac", "b.txt"]);
    assert_eq!(m.files.iter().map(|f| f.length).sum::<u64>(), made.created.total_length);
    for s in &seen {
        if let Seen::File { path, .. } = s {
            let listed = shown.iter().any(|p| at(p) == *path);
            let left_out = made.created.excluded.iter().any(|(p, _)| p == path);
            assert!(listed != left_out, "{path}");
        }
    }
}
