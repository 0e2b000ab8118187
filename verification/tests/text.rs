//! Texts and paths.

use lh_core::display::{bytes, duration_precise, pieces_phrase, FLICKS};
use lh_core::model::{AudioFile, AudioFormat, StreamInfo};
use lh_core::path::{
    extension_of, file_name_of, is_within, join_path, parent_of, path_below, same_path, stem_of,
};
use lh_core::text::{lines_of, push_padded, push_right, replace_text, trim_string};

/// A path comes apart as the platform's own paths do.
#[test]
fn paths_come_apart() {
    for p in ["a/b.flac", "/a/b", "a", "/", "", "a/", "a/.", "a//b/", "..", "a/..", "./a"] {
        let std = std::path::Path::new(p);
        let name = std.file_name().map(|n| n.to_string_lossy().into_owned());
        assert_eq!(file_name_of(p), name, "{p}");
        let parent = std.parent().map(|n| n.to_string_lossy().into_owned());
        assert_eq!(parent_of(p), parent, "{p}");
    }
    for n in ["a.flac", "a", ".a", "a.", "a.b.c", "..a"] {
        let std = std::path::Path::new(n);
        let ext = std.extension().map(|e| e.to_string_lossy().into_owned());
        assert_eq!(extension_of(n), ext, "{n}");
        assert_eq!(stem_of(n), std.file_stem().unwrap().to_string_lossy(), "{n}");
    }
    for (a, b) in [("a", "b"), ("a/", "b"), ("", "b"), ("/", "b"), ("a", "/b")] {
        let want = std::path::Path::new(a).join(b).to_string_lossy().into_owned();
        assert_eq!(join_path(a, b), want, "{a} {b}");
    }
}

#[test]
fn paths_are_taken_below_a_root() {
    for (p, root) in [
        ("/s/a/b", "/s"),
        ("/s/a", "/s/"),
        ("/s", "/s"),
        ("/sa", "/s"),
        ("s/a", "/s"),
        ("/s/a", "/s/a/b"),
        ("/a", "/"),
    ] {
        let std = std::path::Path::new(p);
        assert_eq!(is_within(p, root), std.starts_with(root), "{p} {root}");
        let below = std.strip_prefix(root).unwrap_or(std).to_string_lossy().into_owned();
        assert_eq!(path_below(p, root), below, "{p} {root}");
    }
    assert!(same_path("a//b/./c", "a/b/c/"));
    assert!(!same_path("./a", "a"));
}

#[test]
fn texts_are_taken_apart_like_strings() {
    for s in ["", "a", "a\nb", "a\r\nb\r\n", "\n\n", "a\rb\n"] {
        let want: Vec<String> = s.lines().map(str::to_string).collect();
        assert_eq!(lines_of(s), want, "{s:?}");
    }
    for s in ["", "  a b\t", "\u{a0}x\u{2003}", "\n"] {
        assert_eq!(trim_string(s), s.trim(), "{s:?}");
    }
    assert_eq!(replace_text("aXbXX", "X", "yy"), "ayybyyyy");
    let mut out = String::new();
    push_padded(&mut out, 7, 3);
    push_right(&mut out, "ab", 4);
    assert_eq!(out, "007  ab");
}

#[test]
fn quantities_are_shown() {
    assert_eq!(bytes(0), "0 B");
    assert_eq!(bytes(1023), "1023 B");
    assert_eq!(pieces_phrase(&[3]), "piece 3");
    assert_eq!(pieces_phrase(&[3, 5, 9]), "pieces 3, 5, 9");
    assert_eq!(duration_precise(FLICKS as u128 * 61 + FLICKS as u128 / 2), "1:01.500");
    let f = AudioFile {
        path: "d/x.flac".to_string(),
        format: AudioFormat::Flac,
        file_size: 1,
        stream_info: StreamInfo {
            sample_rate: 44_100,
            channels: 2,
            bits_per_sample: 16,
            total_frames: Some(44_100),
            audio_md5: None,
        },
        encoder: None,
    };
    assert_eq!(f.stream_info.duration(), Some(FLICKS as u128));
    assert_eq!(f.stream_info.bytes_per_frame(), 4);
    assert_eq!(f.file_name(), "x.flac");
}
