//! Fixing one boundary between two files.

use lh_core::analysis::sbe_fix::{
    check_single_boundary, execute_single_boundary, fixed_pair, ShiftedPair,
};
use lh_core::error::Error;
use lh_core::model::{AudioFile, AudioFormat, StreamInfo};
use lh_core::tools::{Agent, Provenance};
use md5::{Digest, Md5};

fn file(path: &str, rate: u32) -> AudioFile {
    AudioFile {
        path: path.to_string(),
        format: AudioFormat::Flac,
        file_size: 0,
        stream_info: StreamInfo {
            sample_rate: rate,
            channels: 2,
            bits_per_sample: 16,
            total_frames: None,
            audio_md5: None,
        },
        encoder: None,
    }
}

fn md5_of(samples: &[i32]) -> [u8; 16] {
    let pcm: Vec<u8> = samples.iter().flat_map(|s| (*s as i16).to_le_bytes()).collect();
    Md5::digest(pcm).into()
}

fn shifted(n: i64) -> Result<ShiftedPair, Error> {
    let a = file("a.flac", 44_100);
    let b = file("b.flac", 44_100);
    execute_single_boundary(&a, &b, n, (1..=10).collect(), (11..=16).collect())
}

#[test]
fn frames_move_across_one_boundary() {
    let p = shifted(2).unwrap();
    assert_eq!(p.a, (1..=6).collect::<Vec<i32>>());
    assert_eq!(p.b, (7..=16).collect::<Vec<i32>>());
    assert_eq!(p.before, md5_of(&(1..=16).collect::<Vec<i32>>()));
    let p = shifted(-1).unwrap();
    assert_eq!(p.a, (1..=12).collect::<Vec<i32>>());
    assert_eq!(p.b, (13..=16).collect::<Vec<i32>>());
    let p = shifted(0).unwrap();
    assert_eq!(p.a.len(), 10);
}

#[test]
fn a_boundary_cannot_be_overdrawn() {
    assert_eq!(
        shifted(6).unwrap_err().to_string(),
        "a.flac: cannot shift 6 frames off a file that only has 5"
    );
    assert_eq!(
        shifted(-4).unwrap_err().to_string(),
        "b.flac: cannot borrow 4 frames from a file that only has 3"
    );
    let a = file("a.flac", 44_100);
    let b = file("b.flac", 48_000);
    let e = execute_single_boundary(&a, &b, 0, vec![], vec![]).unwrap_err();
    assert_eq!(
        e.to_string(),
        "b.flac: not CD audio (44.1 kHz / 16-bit / stereo); sbe fix has nothing to align"
    );
}

#[test]
fn what_was_encoded_is_checked() {
    let p = shifted(2).unwrap();
    let (x, y) = check_single_boundary("o/a.flac", &p.before, &p.a, &p.b).unwrap();
    assert_eq!((x, y), (md5_of(&p.a), md5_of(&p.b)));
    let mut bad = p.b.clone();
    bad[0] += 1;
    let e = check_single_boundary("o/a.flac", &p.before, &p.a, &bad).unwrap_err();
    assert!(e.to_string().starts_with("o/a.flac: round-trip audio MD5 mismatch"));
    let who = |o: &str| Provenance {
        operation: "encode".to_string(),
        input: "i".to_string(),
        output: o.to_string(),
        agent: Agent::in_process(),
    };
    let (a, b) = fixed_pair(
        2,
        ("o/a.flac".to_string(), "o/b.flac".to_string()),
        (x, y),
        (who("a"), who("b")),
    );
    assert_eq!((a.shifted_in, a.shifted_out), (0, 2));
    assert_eq!((b.shifted_in, b.shifted_out), (2, 0));
    assert_eq!(b.path, "o/b.flac");
}
