//! WAV files, and repairing a set of them.

use lh_core::error::Error;
use lh_core::format::wav::{audio_md5, probe, read_chunks, write_chunks, WavWriter};
use lh_core::model::{AudioFile, AudioFormat, StreamInfo};
use lh_core::repair::in_place::{
    asides, check_asides, check_in_place, in_place_results, pieces, sub_plan, swaps, unswap,
    InPlace,
};
use lh_core::repair::members::{check_flac_set, fixed_set, prepare_flac_set};
use lh_core::repair::plan::{plan_fix, BoundaryDirection, FixPlan, TailPolicy};
use lh_core::repair::wavs::{check_wav_set, read_wav_set, wav_set_md5, write_wav_set};
use lh_core::report::repair::{
    fix_decision, fix_plan_lines, fixed_lines, in_place_lines, repair_extension, tail_note,
    tail_policy, FixDecision,
};
use lh_core::tools::{Agent, Provenance};
use md5::{Digest, Md5};

fn md5_of(data: &[u8]) -> [u8; 16] {
    Md5::digest(data).into()
}

fn info(frames: Option<u64>) -> StreamInfo {
    StreamInfo {
        sample_rate: 44_100,
        channels: 2,
        bits_per_sample: 16,
        total_frames: frames,
        audio_md5: None,
    }
}

fn written(samples: &[i32]) -> Vec<u8> {
    let mut w = WavWriter::new(&info(None)).unwrap();
    w.write_samples(samples).unwrap();
    w.finish().unwrap().0
}

fn pcm(samples: &[i32]) -> Vec<u8> {
    samples.iter().flat_map(|s| (*s as i16).to_le_bytes()).collect()
}

fn samples(n: usize, seed: i32) -> Vec<i32> {
    (0..2 * n as i32).map(|i| (i * 31 + seed) % 2001 - 1000).collect()
}

/// What is written reads back, with the header that every reader knows.
#[test]
fn a_written_wav_reads_back() {
    let s = samples(5, 0);
    let file = written(&s);
    assert_eq!(&file[..4], b"RIFF");
    assert_eq!(&file[4..8], &(36u32 + 20).to_le_bytes());
    assert_eq!(&file[8..16], b"WAVEfmt ");
    let layout = probe("a.wav", &file).unwrap();
    assert_eq!(layout.stream_info, info(Some(5)));
    assert_eq!(layout.data_offset, 44);
    assert_eq!(layout.data_len, 20);
    assert_eq!(&file[44..], &pcm(&s)[..]);
    assert_eq!(audio_md5("a.wav", &file).unwrap(), md5_of(&pcm(&s)));
}

#[test]
fn an_odd_number_of_bytes_is_padded() {
    let mono = StreamInfo {
        channels: 1,
        bits_per_sample: 8,
        ..info(None)
    };
    let mut w = WavWriter::new(&mono).unwrap();
    w.write_samples(&[1, 2, 3]).unwrap();
    let (file, len) = w.finish().unwrap();
    assert_eq!(len, 3);
    assert_eq!(file.len() % 2, 0);
    assert_eq!(probe("a.wav", &file).unwrap().data_len, 3);
}

#[test]
fn a_broken_wav_says_how() {
    let good = written(&samples(5, 0));
    let said = |f: &[u8]| probe("a.wav", f).unwrap_err().to_string();
    let mut f = good.clone();
    f[0] = b'X';
    assert!(said(&f).starts_with("a.wav: "), "{}", said(&f));
    assert!(probe("a.wav", &good[..10]).is_err());
    let mut f = good.clone();
    f[20] = 3;
    assert!(said(&f).contains('3'), "{}", said(&f));
    let mut f = good.clone();
    f[22] = 0;
    assert!(probe("a.wav", &f).is_err());
    let e = probe("a.wav", &good[..36]).unwrap_err();
    assert!(matches!(e, Error::Malformed { .. }), "{}", e.to_string());
}

fn with_tail(samples: &[i32]) -> Vec<u8> {
    let mut f = written(samples);
    f.extend(b"LIST\x04\0\0\0abcd");
    let riff = (f.len() as u32 - 8).to_le_bytes();
    f[4..8].copy_from_slice(&riff);
    f
}

#[test]
fn chunks_around_the_audio_are_kept() {
    let file = with_tail(&samples(5, 0));
    let c = read_chunks("a.wav", &file).unwrap();
    assert_eq!(c.data, pcm(&samples(5, 0)));
    assert_eq!(c.tail, b"LIST\x04\0\0\0abcd".to_vec());
    assert_eq!(write_chunks(&c, &c.data).unwrap(), file);
    let other = write_chunks(&c, &[1, 2, 3, 4]).unwrap();
    let back = read_chunks("b.wav", &other).unwrap();
    assert_eq!(back.data, vec![1, 2, 3, 4]);
    assert!(c.same_chunks_besides_data(&back));
    let plain = read_chunks("c.wav", &written(&samples(5, 0))).unwrap();
    assert!(!c.same_chunks_besides_data(&plain));
}

fn member(path: &str, format: AudioFormat, frames: u64) -> AudioFile {
    AudioFile {
        path: path.to_string(),
        format,
        file_size: 0,
        stream_info: info(Some(frames)),
        encoder: None,
    }
}

fn set(format: AudioFormat) -> (Vec<AudioFile>, Vec<Vec<i32>>) {
    let lens = [588 * 2 + 3, 588, 588 * 3];
    let mut files = Vec::new();
    let mut audio = Vec::new();
    for i in 0..3 {
        files.push(member(&format!("d/t0{}.x", i + 1), format, lens[i]));
        audio.push(samples(lens[i] as usize, i as i32));
    }
    (files, audio)
}

fn plan(files: &[AudioFile], pad: bool) -> FixPlan {
    plan_fix(files, BoundaryDirection::Backward, tail_policy(pad)).unwrap()
}

/// Repaired, every file holds whole sectors, and the audio end to end is what it was.
#[test]
fn a_wav_set_is_repaired() {
    let (files, audio) = set(AudioFormat::Wav);
    let raw: Vec<Vec<u8>> = audio.iter().map(|s| with_tail(s)).collect();
    let plan = plan(&files, true);
    assert!(plan.fully_fixed);
    let dsts: Vec<String> = (1..4).map(|i| format!("o/t0{i}.wav")).collect();
    let chunks = read_wav_set(&files, &raw, 4).unwrap();
    let before = wav_set_md5(&chunks);
    let end_to_end: Vec<u8> = audio.iter().flat_map(|s| pcm(s)).collect();
    assert_eq!(before, md5_of(&end_to_end));
    let staged = write_wav_set(&files, &plan, &dsts, &chunks, 4).unwrap();
    let temps: Vec<String> = (1..4).map(|i| format!("o/.t0{i}.wav.part")).collect();
    let md5s = check_wav_set(&plan, &temps, &dsts, &chunks, &staged, 4, &before).unwrap();
    let mut all = Vec::new();
    for (i, f) in staged.iter().enumerate() {
        let c = read_chunks("x", f).unwrap();
        assert_eq!(c.data.len() % (588 * 4), 0);
        assert_eq!(md5s[i], md5_of(&c.data));
        assert_eq!(c.tail, b"LIST\x04\0\0\0abcd".to_vec());
        all.extend(c.data);
    }
    assert_eq!(&all[..end_to_end.len()], &end_to_end[..]);
    assert!(all[end_to_end.len()..].iter().all(|b| *b == 0));
    // A file that came out otherwise is caught.
    let mut broken = staged.clone();
    let at = broken[1].len() - 20;
    broken[1][at] ^= 1;
    let e = check_wav_set(&plan, &temps, &dsts, &chunks, &broken, 4, &before).unwrap_err();
    assert!(e.to_string().starts_with("o/t01.wav: round-trip audio MD5"), "{}", e.to_string());
    // One whose other chunks differ is named by where it was to go, and one that cannot be
    // taken apart by where it stands.
    let mut other = staged.clone();
    let at = other[1].len() - 1;
    other[1][at] ^= 1;
    let e = check_wav_set(&plan, &temps, &dsts, &chunks, &other, 4, &before).unwrap_err();
    assert!(e.to_string().starts_with("o/t02.wav: "), "{}", e.to_string());
    let mut cut = staged.clone();
    cut[1].truncate(20);
    let e = check_wav_set(&plan, &temps, &dsts, &chunks, &cut, 4, &before).unwrap_err();
    assert!(e.to_string().starts_with("o/.t02.wav.part: "), "{}", e.to_string());
}

/// A plan that moves more than there is, or adds more than a file can hold, is refused.
#[test]
fn a_wav_set_is_not_overdrawn() {
    let (files, audio) = set(AudioFormat::Wav);
    let raw: Vec<Vec<u8>> = audio.iter().map(|s| with_tail(s)).collect();
    let dsts: Vec<String> = (1..4).map(|i| format!("o/t0{i}.wav")).collect();
    let chunks = read_wav_set(&files, &raw, 4).unwrap();
    let mut far = plan(&files, true);
    far.boundaries[1].shifted_frames = i64::MAX;
    let e = write_wav_set(&files, &far, &dsts, &chunks, 4).unwrap_err();
    assert!(
        e.to_string().starts_with("d/t02.x: cannot shift more frames across its edges"),
        "{}",
        e.to_string()
    );
    let mut long = plan(&files, true);
    long.tail_padding_frames = Some(1 << 40);
    let e = write_wav_set(&files, &long, &dsts, &chunks, 4).unwrap_err();
    assert_eq!(e.to_string(), "o/t03.wav: audio exceeds the 4 GiB a WAV file can address");
}

#[test]
fn a_flac_set_is_repaired() {
    let (files, audio) = set(AudioFormat::Flac);
    let plan = plan(&files, false);
    let dsts: Vec<String> = (1..4).map(|i| format!("o/t0{i}.flac")).collect();
    let (before, shifted) = prepare_flac_set(&files, audio.clone(), &plan).unwrap();
    let end_to_end: Vec<i32> = audio.concat();
    assert_eq!(before, md5_of(&pcm(&end_to_end)));
    assert_eq!(shifted.concat(), end_to_end);
    assert_eq!(shifted[0].len(), 588 * 2 * 2);
    let md5s = check_flac_set(&plan, &dsts, shifted.clone(), &before).unwrap();
    assert_eq!(md5s[0], md5_of(&pcm(&shifted[0])));
    let mut broken = shifted.clone();
    broken[2][0] ^= 1;
    assert!(check_flac_set(&plan, &dsts, broken, &before).is_err());
    let provenance: Vec<Provenance> = dsts
        .iter()
        .map(|d| Provenance {
            operation: "sbe fix".to_string(),
            input: "x".to_string(),
            output: d.clone(),
            agent: Agent::in_process(),
        })
        .collect();
    let fixed = fixed_set(&plan, dsts.clone(), &md5s, provenance);
    assert_eq!(fixed[0].shifted_out, 3);
    assert_eq!(fixed[1].shifted_in, 3);
    let lines = fixed_lines(&files, &fixed);
    assert_eq!(
        lines[0],
        format!("FIXED     t01.x -> o/t01.flac   audio md5 {}", hex::encode(md5s[0]))
    );
    assert_eq!(
        tail_note(&files, &plan),
        Some(
            "t03.x   still misaligned — rerun with --pad-tail to close it with silence".to_string()
        )
    );
}

#[test]
fn a_plan_is_shown() {
    let (files, _) = set(AudioFormat::Flac);
    let p = plan(&files, false);
    assert_eq!(
        fix_plan_lines("x/d", &files, &p, false),
        vec![
            "d",
            "  t01.x → t02.x   shift 3 frames backward   (t01.x was +3 past a sector)",
            "  t02.x → t03.x   shift 3 frames backward   (t02.x was +3 past a sector)",
            "  t03.x        last file, still misaligned once every other boundary is fixed — rerun with --pad-tail to close it with silence",
            "plan only, nothing written — pass --pad-tail to fully align the set",
        ]
    );
    let p = plan(&files, true);
    let lines = fix_plan_lines("x/d", &files, &p, true);
    assert_eq!(
        lines[3],
        "  t03.x        last file, would be padded with 585 frames of silence (not written — planning only)"
    );
    assert_eq!(lines[4], "plan only, nothing written — every file would end up aligned");
    let p = plan_fix(&files, BoundaryDirection::Forward, TailPolicy::Report).unwrap();
    let lines = fix_plan_lines("x/d", &files, &p, false);
    assert_eq!(
        lines[1],
        "  t01.x → t02.x   shift 585 frames forward   (t01.x borrows 585 frames from t02.x)"
    );
    assert_eq!(repair_extension(AudioFormat::Wav), "wav");
    assert_eq!(repair_extension(AudioFormat::Flac), "flac");
    assert_eq!(fix_decision(true, false, false), Ok(FixDecision::Show));
    assert_eq!(fix_decision(false, true, false), Ok(FixDecision::InPlace));
    assert_eq!(fix_decision(false, false, true), Ok(FixDecision::Elsewhere));
    assert!(fix_decision(false, false, false).unwrap_err().contains("--in-place"));
}

fn aligned(path: &str) -> AudioFile {
    member(path, AudioFormat::Wav, 588)
}

/// Only what a plan changes is replaced, and each replaced file is set aside first.
#[test]
fn an_in_place_fix_sets_the_originals_aside() {
    let files = vec![
        aligned("d/t01.wav"),
        member("d/t02.wav", AudioFormat::Wav, 588 + 3),
        member("d/t03.wav", AudioFormat::Wav, 588 * 2 - 3),
        aligned("d/t04.wav"),
    ];
    let p = plan(&files, false);
    assert!(p.fully_fixed);
    let dir = check_in_place(&files, &p).unwrap();
    assert_eq!(dir, "d");
    let aside = asides(&files, &dir);
    assert_eq!(aside[1], "d/_original/sbe-fix/t02.wav");
    assert!(check_asides(&p, &aside, &[true, false, false, true]).is_ok());
    assert!(check_asides(&p, &aside, &[false, true, false, false]).is_err());
    assert_eq!(pieces(&p), vec![(0, 0), (1, 2), (3, 3)]);
    let sub = sub_plan(&p, 1, 2);
    assert_eq!(sub.boundaries.len(), 1);
    assert_eq!(sub.boundaries[0].shifted_frames, 3);
    let staged: Vec<String> = (1..5).map(|i| format!("d/.t0{i}.part")).collect();
    let s = swaps(&files, &p, &aside, &staged);
    assert_eq!(s.len(), 2);
    let undo = unswap(&s, 1, true);
    assert_eq!(undo.len(), 2);
    let fixed = vec![
        None,
        Some(lh_core::repair::Fixed {
            path: "d/t02.wav".to_string(),
            shifted_in: 0,
            shifted_out: 3,
            audio_md5: [1; 16],
            provenance: Provenance {
                operation: "sbe fix".to_string(),
                input: "a".to_string(),
                output: "b".to_string(),
                agent: Agent::in_process(),
            },
        }),
        None,
        None,
    ];
    let done = in_place_results(&files, fixed, &aside);
    assert!(matches!(done[0], InPlace::Unchanged { .. }));
    let lines = in_place_lines(&files, &done);
    assert_eq!(lines[0], "UNCHANGED t01.wav");
    assert_eq!(
        lines[1],
        format!(
            "FIXED     t02.wav   original moved to d/_original/sbe-fix/t02.wav   audio md5 {}",
            hex::encode([1u8; 16])
        )
    );
}

/// A set that was fixed needs nothing more.
#[test]
fn replanning_a_fixed_set_moves_nothing() {
    for direction in [
        BoundaryDirection::Backward,
        BoundaryDirection::Forward,
        BoundaryDirection::Nearest,
    ] {
        let (files, _) = set(AudioFormat::Wav);
        let p = plan_fix(&files, direction, TailPolicy::Report).unwrap();
        let again: Vec<AudioFile> = files
            .iter()
            .enumerate()
            .map(|(i, f)| {
                let frames = f.stream_info.total_frames.unwrap() as i64;
                let now = frames + p.shifted_in(i) - p.shifted_out(i);
                member(&f.path, AudioFormat::Wav, now as u64)
            })
            .collect();
        let total = |fs: &[AudioFile]| -> u64 {
            fs.iter().map(|f| f.stream_info.total_frames.unwrap()).sum()
        };
        assert_eq!(total(&files), total(&again));
        let q = plan_fix(&again, direction, TailPolicy::Report).unwrap();
        assert!(q.boundaries.iter().all(|b| b.shifted_frames == 0));
    }
}

/// A swap that fails halfway is taken back, and the folder is what it was.
#[test]
fn a_failed_swap_is_taken_back() {
    let files = vec![
        member("d/t01.wav", AudioFormat::Wav, 588 + 3),
        member("d/t02.wav", AudioFormat::Wav, 588 * 2 - 3),
    ];
    let p = plan(&files, false);
    let aside = asides(&files, "d");
    let staged = vec!["d/s/t01.wav".to_string(), "d/s/t02.wav".to_string()];
    let all = swaps(&files, &p, &aside, &staged);
    let mut fs: std::collections::BTreeMap<String, u8> = std::collections::BTreeMap::new();
    fs.insert("d/t01.wav".to_string(), 1);
    fs.insert("d/t02.wav".to_string(), 2);
    let before = fs.clone();
    fs.insert("d/s/t01.wav".to_string(), 11);
    // The first is swapped; of the second, only the original is out of the way.
    for (s, whole) in all.iter().zip([true, false]) {
        let had = fs.remove(&s.path).unwrap();
        fs.insert(s.aside.clone(), had);
        if whole {
            let new = fs.remove(&s.staged).unwrap();
            fs.insert(s.path.clone(), new);
        }
    }
    for undo in unswap(&all, 1, true) {
        if undo.clear {
            fs.remove(&undo.path);
        }
        let had = fs.remove(&undo.original).unwrap();
        fs.insert(undo.path.clone(), had);
    }
    assert_eq!(fs, before);
}
