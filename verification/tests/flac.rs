//! FLAC files, built here byte by byte: what they hold, whether they verify, their checksums
//! and tags, and what is cut out of them.

use lh_core::analysis::verify::{compare_md5, verify, Verification};
use lh_core::checksum::{
    check_entry, compute, ffp, kind_for, md5, st5, ChecksumFile, ChecksumKind, Entry, EntryOutcome,
};
use lh_core::convert::{destination, move_aside, to_flac, to_wav};
use lh_core::display::FLICKS;
use lh_core::error::Error;
use lh_core::format::blocks::has_readable_blocks;
use lh_core::format::flac::{
    decode_blocks, decode_to_samples, decode_to_wav, interleave, is_decodable, samples_md5,
    write_decoded, Decoded,
};
use lh_core::format::wav::WavWriter;
use lh_core::format::{audio_md5, probe, wav};
use lh_core::model::{AudioFile, AudioFormat};
use lh_core::report::convert::{check_convert, convert_lines, converted_line, ConvertOutcome, Target};
use lh_core::report::files::{
    checked_line, checksum_results, entry_lines, info_lines, verify_lines, wrote_line,
};
use lh_core::sample::cut::cut_blocks;
use lh_core::sample::encode::{clip_frames, cut_excerpt, finish_sample, Request};
use lh_core::sample::mode::{Clip, Mode};
use lh_core::tag::{
    apply, assert_audio_unchanged, open, read, read_comment_block, restore_comment_block, Field, Tags,
};
use lh_core::tools::Agent;
use md5::{Digest, Md5};

fn crc8(data: &[u8]) -> u8 {
    let mut crc = 0u8;
    for b in data {
        crc ^= b;
        for _ in 0..8 {
            crc = if crc & 0x80 != 0 { (crc << 1) ^ 0x07 } else { crc << 1 };
        }
    }
    crc
}

fn crc16(data: &[u8]) -> u16 {
    let mut crc = 0u16;
    for b in data {
        crc ^= (*b as u16) << 8;
        for _ in 0..8 {
            crc = if crc & 0x8000 != 0 { (crc << 1) ^ 0x8005 } else { crc << 1 };
        }
    }
    crc
}

fn pcm(samples: &[i32]) -> Vec<u8> {
    samples.iter().flat_map(|s| (*s as i16).to_le_bytes()).collect()
}

fn md5_of(data: &[u8]) -> [u8; 16] {
    Md5::digest(data).into()
}

/// 16-bit stereo at 44.1 kHz in one frame, its samples interleaved.
fn flac(samples: &[i32], digest: [u8; 16]) -> Vec<u8> {
    let n = samples.len() / 2;
    let mut out = b"fLaC".to_vec();
    out.extend([0x80, 0, 0, 34]);
    out.extend((n as u16).to_be_bytes());
    out.extend((n as u16).to_be_bytes());
    out.extend([0; 6]);
    let packed: u64 = (44_100u64 << 44) | (1u64 << 41) | (15u64 << 36) | n as u64;
    out.extend(packed.to_be_bytes());
    out.extend(digest);
    out.extend(frame(samples, 2, 0));
    out
}

/// One frame of verbatim samples.
fn frame(samples: &[i32], channels: usize, number: u8) -> Vec<u8> {
    let n = samples.len() / channels;
    let mut frame = vec![0xff, 0xf8, 0x79, ((channels as u8 - 1) << 4) | 0x08, number];
    frame.extend((n as u16 - 1).to_be_bytes());
    frame.push(crc8(&frame));
    for c in 0..channels {
        frame.push(0x02);
        for i in 0..n {
            frame.extend((samples[channels * i + c] as i16).to_be_bytes());
        }
    }
    let crc = crc16(&frame);
    frame.extend(crc.to_be_bytes());
    frame
}

fn samples(n: usize) -> Vec<i32> {
    (0..2 * n as i32).map(|i| (i * 37) % 3001 - 1500).collect()
}

fn good(n: usize) -> Vec<u8> {
    flac(&samples(n), md5_of(&pcm(&samples(n))))
}

/// The metadata of a file, which has blocks that can be read.
fn meta(file: &[u8]) -> metaflac::Tag {
    assert!(has_readable_blocks(file));
    open("a.flac", file).unwrap()
}

fn probed(file: &[u8]) -> AudioFile {
    probe("d/a.flac", file).unwrap()
}

#[test]
fn samples_come_back_as_they_were() {
    let file = good(600);
    assert!(is_decodable(&file));
    let (info, got) = decode_to_samples("a.flac", &file).unwrap();
    assert_eq!(got, samples(600));
    assert_eq!(info.sample_rate, 44_100);
    assert_eq!(info.channels, 2);
    assert_eq!(info.bits_per_sample, 16);
    assert_eq!(info.total_frames, Some(600));
    let none = decode_blocks("a.flac", &file, 0).unwrap();
    assert!(none.blocks.is_empty() && none.fault.is_none());
    let one = decode_blocks("a.flac", &file, 1).unwrap();
    assert_eq!(interleave(&one.blocks), samples(600));
}

/// Blocks of a hundred frames, each with its own number of channels.
fn blocks_of(channels: &[usize]) -> Vec<u8> {
    let mut out = good(100)[..42].to_vec();
    for (k, n) in channels.iter().enumerate() {
        out.extend(frame(&level(k, *n), *n, k as u8));
    }
    out
}

fn level(k: usize, channels: usize) -> Vec<i32> {
    (0..100 * channels as i32).map(|i| 1000 * k as i32 + i).collect()
}

#[test]
fn every_block_keeps_its_own_channels() {
    let file = blocks_of(&[2, 1, 2]);
    let d = decode_blocks("a.flac", &file, 9).unwrap();
    assert_eq!(d.blocks.iter().map(|b| b.len()).collect::<Vec<_>>(), [2, 1, 2]);
    let all: Vec<i32> = [level(0, 2), level(1, 1), level(2, 2)].concat();
    assert_eq!(interleave(&d.blocks), all);
    assert_eq!(decode_blocks("a.flac", &file, 2).unwrap().blocks.len(), 2);
    // A clip over all three takes frames, however many channels they have.
    let mut f = probed(&file);
    f.stream_info.total_frames = None;
    let (riff, frames) = cut_excerpt("a.flac", "o.wav", &f, &file, 98, 203).unwrap();
    assert_eq!(frames, 105);
    let at = wav::probe("o.wav", &riff).unwrap().data_offset as usize;
    let want: Vec<i32> =
        [level(0, 2)[196..].to_vec(), level(1, 1), level(2, 2)[..6].to_vec()].concat();
    assert_eq!(&riff[at..], &pcm(&want)[..]);
}

#[test]
fn what_is_wrong_after_a_clip_does_not_show() {
    let mut file = blocks_of(&[2, 2]);
    let at = file.len() - 20;
    file[at] ^= 1;
    let f = probed(&file);
    let (_, frames) = cut_excerpt("a.flac", "o.wav", &f, &file, 0, 100).unwrap();
    assert_eq!(frames, 100);
    let e = cut_excerpt("a.flac", "o.wav", &f, &file, 0, 101).unwrap_err();
    assert!(matches!(e, Error::Flac { .. }), "{}", e.to_string());
    let e = to_wav(&f, &file, "d/.a.wav.part", "d/a.wav").unwrap_err();
    assert!(matches!(e, Error::Flac { .. }), "{}", e.to_string());
    assert!(audio_md5("a.flac", &file).is_err());
}

/// Two frames of two channels, and maybe something wrong after them.
fn two_frames(fault: Option<&str>) -> Decoded {
    Decoded {
        sample_rate: 44_100,
        channels: 2,
        bits_per_sample: 16,
        total_frames: None,
        blocks: vec![vec![vec![1, 3], vec![2, 4]]],
        fault: fault.map(|s| s.to_string()),
    }
}

#[test]
fn decoded_blocks_are_written_and_cut() {
    let info = probed(&good(100)).stream_info;
    let mut w = WavWriter::new(&info).unwrap();
    let md5 = write_decoded("a.flac", "o.wav", two_frames(None), &mut w).unwrap();
    assert_eq!(md5, md5_of(&pcm(&[1, 2, 3, 4])));
    let (riff, len) = w.finish().unwrap();
    assert_eq!(len, 8);
    assert!(riff.ends_with(&pcm(&[1, 2, 3, 4])));
    let mut w = WavWriter::new(&info).unwrap();
    let e = write_decoded("a.flac", "o.wav", two_frames(Some("bad")), &mut w).unwrap_err();
    assert_eq!(e.to_string(), "a.flac: FLAC decode failed: bad");
    let (riff, n) = cut_blocks("a", "o", &info, two_frames(Some("bad")), 1, 2).unwrap();
    assert_eq!(n, 1);
    assert!(riff.ends_with(&pcm(&[3, 4])));
    let e = cut_blocks("a.flac", "o", &info, two_frames(Some("bad")), 1, 3).unwrap_err();
    assert_eq!(e.to_string(), "a.flac: FLAC decode failed: bad");
    let (_, n) = cut_blocks("a", "o", &info, two_frames(None), 1, 9).unwrap();
    assert_eq!(n, 1);
    let file = good(100);
    let mut w = WavWriter::new(&info).unwrap();
    assert_eq!(
        decode_to_wav("a.flac", "o.wav", &file, &mut w).unwrap(),
        md5_of(&pcm(&samples(100)))
    );
}

#[test]
fn the_audio_digest_is_that_of_the_samples() {
    let file = good(100);
    let want = md5_of(&pcm(&samples(100)));
    assert_eq!(audio_md5("a.flac", &file).unwrap(), want);
    assert_eq!(samples_md5(&samples(100), 16), want);
    // 24-bit samples take three bytes each, and one bit still takes one.
    assert_eq!(samples_md5(&[-2, 0x123456], 24), md5_of(&[0xfe, 0xff, 0xff, 0x56, 0x34, 0x12]));
    assert_eq!(samples_md5(&[1, 2], 1), md5_of(&[1, 2]));
}

#[test]
fn a_broken_file_does_not_decode() {
    let mut file = good(100);
    let at = file.len() - 20;
    file[at] ^= 1;
    let e = decode_to_samples("a.flac", &file).unwrap_err();
    assert!(matches!(e, Error::Flac { .. }), "{}", e.to_string());
    assert!(decode_to_samples("a.flac", b"RIFF").is_err());
}

#[test]
fn a_probe_reads_the_header() {
    let file = good(588);
    let f = probed(&file);
    assert_eq!(f.format, AudioFormat::Flac);
    assert_eq!(f.file_size, file.len() as u64);
    assert_eq!(f.stream_info.total_frames, Some(588));
    assert_eq!(f.stream_info.audio_md5, Some(md5_of(&pcm(&samples(588)))));
    assert!(f.stream_info.is_cdda());
    assert_eq!(
        info_lines(&f),
        vec![
            "a.flac".to_string(),
            format!("  FLAC  44100 Hz  16-bit  2 ch  0:00.013  {} bytes", file.len()),
            "  sbe: aligned".to_string(),
        ]
    );
    // A header of zeros carries no digest.
    let f = probed(&flac(&samples(100), [0; 16]));
    assert_eq!(f.stream_info.audio_md5, None);
    let e = probe("a.flac", b"junk").unwrap_err();
    assert!(matches!(e, Error::FlacMeta { .. }), "{}", e.to_string());
    let e = probe("a.shn", b"").unwrap_err();
    assert!(matches!(e, Error::Unsupported { .. }), "{}", e.to_string());
    let e = probe("a.txt", b"").unwrap_err();
    assert!(matches!(e, Error::UnknownFormat { .. }), "{}", e.to_string());
}

#[test]
fn verification_compares_header_and_audio() {
    let file = good(100);
    let v = verify("a.flac", &file).unwrap();
    assert_eq!(v, Verification::Verified);
    let wrong = flac(&samples(100), [1; 16]);
    let v = verify("a.flac", &wrong).unwrap();
    let computed = md5_of(&pcm(&samples(100)));
    assert_eq!(v, Verification::Md5Mismatch { stored: [1; 16], computed });
    let (lines, ok) = verify_lines("a.flac", &Some(Ok(v)));
    assert!(!ok);
    assert_eq!(lines[0], "MISMATCH  a.flac");
    assert_eq!(lines[1], format!("            stored   {}", hex::encode([1u8; 16])));
    assert_eq!(lines[2], format!("            computed {}", hex::encode(computed)));
    let none = flac(&samples(100), [0; 16]);
    let v = verify("a.flac", &none).unwrap();
    assert_eq!(v, Verification::NoStoredMd5 { computed });
    assert!(verify_lines("a.flac", &Some(Ok(v))).1);
    assert_eq!(compare_md5(None, [3; 16]), Verification::NoStoredMd5 { computed: [3; 16] });
    assert_eq!(verify_lines("a", &None), (vec!["CANCELLED a".to_string()], false));
    let e = Error::malformed("a", "bad");
    assert_eq!(
        verify_lines("a", &Some(Err(e))),
        (vec!["FAILED    a: a: bad".to_string()], false)
    );
}

/// The checksum that leaves the header out is the same for both formats of one recording.
#[test]
fn checksums_of_a_flac() {
    let file = good(100);
    let audio = md5_of(&pcm(&samples(100)));
    assert_eq!(ffp("a.flac", &file).unwrap(), audio);
    assert_eq!(md5(&file), md5_of(&file));
    assert_eq!(st5("a.flac", &file).unwrap(), audio);
    let (riff, _) = to_wav(&probed(&file), &file, "d/.a.wav.part", "d/a.wav").unwrap();
    assert_eq!(st5("a.wav", &riff).unwrap(), audio);
    assert_eq!(compute(ChecksumKind::Ffp, "a.flac", &file).unwrap(), audio);
    assert_eq!(compute(ChecksumKind::Md5, "a.flac", &file).unwrap(), md5_of(&file));
    assert!(ffp("a.wav", &riff).is_err());
}

#[test]
fn entries_are_checked() {
    let file = good(100);
    let entry = |d: [u8; 16]| Entry {
        file_name: "a.flac".to_string(),
        digest: d,
    };
    let right = entry(md5_of(&file));
    let o = check_entry(ChecksumKind::Md5, "d/a.flac", &right, Some(&file));
    assert!(matches!(o, EntryOutcome::Matched));
    assert_eq!(entry_lines("a.flac", &o), (vec!["OK        a.flac".to_string()], true));
    let o = check_entry(ChecksumKind::Md5, "d/a.flac", &right, None);
    assert!(matches!(o, EntryOutcome::Missing));
    assert_eq!(entry_lines("a.flac", &o), (vec!["MISSING   a.flac".to_string()], false));
    let o = check_entry(ChecksumKind::Md5, "d/a.flac", &entry([9; 16]), Some(&file));
    let (lines, ok) = entry_lines("a.flac", &o);
    assert!(!ok);
    assert_eq!(lines[1], format!("            expected {}", hex::encode([9u8; 16])));
    assert_eq!(lines[2], format!("            actual   {}", hex::encode(md5_of(&file))));
    let o = check_entry(ChecksumKind::St5, "d/a.flac", &right, Some(b"junk"));
    assert!(matches!(o, EntryOutcome::Failed(_)));
    assert_eq!(checked_line(3, ChecksumKind::Ffp), "3 FFP entries checked");
    assert_eq!(wrote_line(1, ChecksumKind::St5, "x.st5"), "wrote 1 ST5 entries to x.st5");
}

#[test]
fn checksum_files_read_back() {
    let results = vec![
        ("a.flac".to_string(), Some(Ok([1; 16]))),
        ("b.flac".to_string(), Some(Err(Error::malformed("b", "bad")))),
        ("c.flac".to_string(), None),
        ("d e.flac".to_string(), Some(Ok([0xab; 16]))),
    ];
    for kind in [ChecksumKind::Ffp, ChecksumKind::Md5, ChecksumKind::St5] {
        let (file, said) = checksum_results(kind, &results);
        assert_eq!(said, vec!["b.flac: b: bad", "c.flac: cancelled"]);
        let text = file.render();
        if kind == ChecksumKind::Ffp {
            assert_eq!(text.lines().next().unwrap(), format!("a.flac:{}", hex::encode([1u8; 16])));
        } else {
            assert_eq!(text.lines().next().unwrap(), format!("{}  a.flac", hex::encode([1u8; 16])));
        }
        let back = ChecksumFile::parse(kind, &text, "x").unwrap();
        assert_eq!(back.entries.len(), 2);
        assert_eq!(back.entries[1].file_name, "d e.flac");
        assert_eq!(back.entries[1].digest, [0xab; 16]);
    }
    let e = ChecksumFile::parse(ChecksumKind::Ffp, "; c\na.flac:zz\n", "x.ffp").unwrap_err();
    assert!(e.to_string().starts_with("x.ffp:2: malformed FFP entry: "), "{}", e.to_string());
    assert!(ChecksumFile::parse(ChecksumKind::Md5, "abcd  a\n", "x").is_err());
}

#[test]
fn a_checksum_file_is_told_by_its_extension() {
    assert_eq!(kind_for("d/show.FFP"), Ok(ChecksumKind::Ffp));
    assert_eq!(kind_for("d/show.md5"), Ok(ChecksumKind::Md5));
    assert_eq!(kind_for("d/show.st5"), Ok(ChecksumKind::St5));
}

#[test]
fn a_broken_checksum_file_is_a_command_failure_not_a_file_failure() {
    let e = kind_for("fixtures/cdda-aligned.flac").unwrap_err();
    assert!(e.contains("expected .ffp, .md5 or .st5"), "{e}");
    assert!(e.contains("\"flac\""), "{e}");
}

fn saved(tag: &metaflac::Tag, file: &[u8]) -> Vec<u8> {
    let mut out = Vec::new();
    let mut t = tag.clone();
    t.write_to(&mut out).unwrap();
    let audio = file.windows(2).position(|w| w == [0xff, 0xf8]).unwrap();
    out.extend(&file[audio..]);
    out
}

/// What is written reads back, other comments and the vendor stay, and so does the audio.
#[test]
fn tags_are_written_and_read_back() {
    let file = good(100);
    let mut tag = meta(&file);
    tag.vorbis_comments_mut().vendor_string = "reference libFLAC 1.4.3".to_string();
    tag.set_vorbis("X-SOURCE", vec!["sbd"]);
    tag.set_vorbis("ARTIST", vec!["old", "older"]);
    let original = read_comment_block("a.flac", &saved(&tag, &file)).unwrap();
    let mut edit = Tags::default();
    edit.set(Field::Artist, Some("Grateful Dead".to_string()));
    edit.set(Field::TrackNumber, Some("3".to_string()));
    apply("a.flac", &mut tag, &edit).unwrap();
    let after = saved(&tag, &file);
    let m = meta(&after);
    let tags = read("a.flac", &after).unwrap();
    assert_eq!(tags.artist.as_deref(), Some("Grateful Dead"));
    assert_eq!(tags.track_number(), Some(3));
    assert_eq!(tags.title, None);
    let t = &m;
    assert_eq!(t.vorbis_comments().unwrap().vendor_string, "reference libFLAC 1.4.3");
    assert_eq!(
        t.get_vorbis("X-SOURCE").unwrap().collect::<Vec<_>>(),
        vec!["sbd"]
    );
    assert_eq!(probe("a.flac", &after).unwrap().encoder.as_deref(), Some("reference libFLAC 1.4.3"));
    let before = ffp("a.flac", &file).unwrap();
    assert_audio_unchanged("a.flac", &after, before).unwrap();
    let e = assert_audio_unchanged("a.flac", &after, [0; 16]).unwrap_err();
    assert!(matches!(e, Error::AudioChanged { .. }), "{}", e.to_string());
    // Applying the same edit again changes nothing.
    assert!(tags.changes(&edit).is_empty());
    // An empty value clears the field.
    let mut clear = Tags::default();
    clear.set(Field::Artist, Some(String::new()));
    apply("a.flac", &mut tag, &clear).unwrap();
    assert!(tag.get_vorbis("ARTIST").is_none());
    restore_comment_block(&mut tag, &original);
    assert_eq!(
        tag.get_vorbis("ARTIST").unwrap().collect::<Vec<_>>(),
        vec!["old", "older"]
    );
    assert!(apply("a.wav", &mut tag, &edit).is_err());
}

#[test]
fn a_flac_becomes_a_wav() {
    let file = good(100);
    let f = probed(&file);
    let (riff, done) = to_wav(&f, &file, "d/.a.wav.part", "d/a.wav").unwrap();
    assert!(done.checked_against_source);
    assert_eq!(done.audio_md5, md5_of(&pcm(&samples(100))));
    let layout = wav::probe("a.wav", &riff).unwrap();
    assert_eq!(layout.data_len, 400);
    assert_eq!(layout.stream_info.total_frames, Some(100));
    assert_eq!(&riff[layout.data_offset as usize..], &pcm(&samples(100))[..]);
    // A header that the audio does not bear out is an error, not a file.
    let wrong = flac(&samples(100), [1; 16]);
    assert!(to_wav(&probed(&wrong), &wrong, "d/.a.wav.part", "d/a.wav").is_err());
    // What cannot be a WAV is refused by where it was to go.
    let mut odd = probed(&file);
    odd.stream_info.bits_per_sample = 12;
    let e = to_wav(&odd, &file, "d/.a.wav.part", "d/a.wav").unwrap_err();
    assert_eq!(
        e.to_string(),
        "d/a.wav: cannot write a 12-bit WAV; only 8, 16 and 24 bits are supported"
    );
    // Without one there is nothing to check against, and that is said.
    let none = flac(&samples(100), [0; 16]);
    let (_, done) = to_wav(&probed(&none), &none, "d/.a.wav.part", "d/a.wav").unwrap();
    assert!(!done.checked_against_source);
    let outcome = Some(ConvertOutcome::Done(Box::new(done), None));
    let (lines, ok, written) = convert_lines(&f, Target::Wav, &outcome, false);
    assert!(ok && written);
    assert_eq!(
        lines,
        vec!["WROTE     a.wav  (unchecked: nothing in the source to compare against)"]
    );
}

#[test]
fn conversions_are_reported() {
    let f = probed(&good(100));
    let (lines, ok, _) = convert_lines(&f, Target::Flac, &Some(ConvertOutcome::Skipped), false);
    assert!(ok);
    assert_eq!(lines, vec!["SKIPPED   a.flac (already FLAC)"]);
    let failed = Some(ConvertOutcome::Failed(Error::OutputExists {
        path: "d/a.wav".to_string(),
    }));
    let (lines, ok, _) = convert_lines(&f, Target::Wav, &failed, false);
    assert!(!ok);
    assert_eq!(
        lines,
        vec!["FAILED    a.flac: d/a.wav already exists; refusing to overwrite it"]
    );
    let (lines, ok, _) = convert_lines(&f, Target::Wav, &Some(ConvertOutcome::NoFileName), false);
    assert!(!ok);
    assert_eq!(lines, vec!["FAILED    d/a.flac (has no file name to work from)"]);
    let (lines, _, _) = convert_lines(&f, Target::Wav, &None, false);
    assert_eq!(lines, vec!["CANCELLED a.flac"]);
    let agent = Agent::in_process();
    let done = to_flac("d/a.wav", "d/a.flac", agent, 16, &[5; 16], Some([5; 16])).unwrap();
    let outcome = Some(ConvertOutcome::Done(
        Box::new(done),
        Some(Ok("d/_original/a.wav".to_string())),
    ));
    let (lines, ok, written) = convert_lines(&f, Target::Flac, &outcome, true);
    assert!(ok && written);
    assert_eq!(lines[0], "WROTE     a.flac");
    assert!(lines[1].starts_with("          "), "{}", lines[1]);
    assert_eq!(lines[lines.len() - 1], "MOVED     a.flac -> _original/");
    assert_eq!(converted_line(1, 2), "1 of 2 files converted");
    assert!(check_convert(true, Target::Flac).is_ok());
    assert_eq!(
        check_convert(true, Target::Wav),
        Err("--move-sources only applies to --to flac".to_string())
    );
}

#[test]
fn an_encoder_that_changed_the_audio_is_caught() {
    let agent = Agent::in_process();
    assert!(to_flac("a.wav", "a.flac", agent.clone(), 16, &[5; 16], Some([6; 16])).is_err());
    assert!(to_flac("a.wav", "a.flac", agent, 16, &[5; 16], None).is_err());
    assert_eq!(destination("d/a.flac", "wav", None).unwrap(), "d/a.wav");
    assert_eq!(destination("d/a.flac", "wav", Some("o")).unwrap(), "o/a.wav");
    assert!(destination("/", "wav", None).is_err());
    assert_eq!(
        move_aside("d/a.wav", "d/_original", false).unwrap(),
        "d/_original/a.wav"
    );
    assert!(move_aside("d/a.wav", "d/_original", true).is_err());
}

#[test]
fn a_clip_is_cut_out() {
    let file = good(600);
    let f = probed(&file);
    let (riff, frames) = cut_excerpt("a.flac", "out.wav", &f, &file, 10, 20).unwrap();
    assert_eq!(frames, 10);
    let layout = wav::probe("out.wav", &riff).unwrap();
    assert_eq!(&riff[layout.data_offset as usize..], &pcm(&samples(600)[20..40])[..]);
    // What lies past the end is not there to cut.
    let (_, frames) = cut_excerpt("a.flac", "out.wav", &f, &file, 590, 900).unwrap();
    assert_eq!(frames, 10);
    let clip = Clip {
        start: 0,
        length: FLICKS / 100,
    };
    assert_eq!(clip_frames("a.flac", &f.stream_info, clip).unwrap(), (0, 441));
    let late = Clip {
        start: FLICKS,
        length: FLICKS,
    };
    assert!(clip_frames("a.flac", &f.stream_info, late).is_err());
    let request = Request {
        clip,
        mode: Mode::Cbr(256),
        max_bytes: Some(1000),
        overwrite: false,
    };
    let done = finish_sample("a.flac", "o.mp3", &f, &request, 441, 900, Agent::in_process()).unwrap();
    assert_eq!(done.bytes, 900);
    assert_eq!(done.clip.length, FLICKS / 100);
    let e = finish_sample("a.flac", "o.mp3", &f, &request, 441, 1001, Agent::in_process())
        .unwrap_err();
    assert!(matches!(e, Error::SampleTooLarge { .. }), "{}", e.to_string());
    let e = finish_sample("a.flac", "o.mp3", &f, &request, 0, 1, Agent::in_process()).unwrap_err();
    assert_eq!(e.to_string(), "a.flac: the clip holds no audio");
}

/// A FLAC of these metadata blocks and nothing else.
fn with_blocks(blocks: &[(u8, Vec<u8>)]) -> Vec<u8> {
    let mut out = b"fLaC".to_vec();
    for (i, (kind, data)) in blocks.iter().enumerate() {
        out.push(kind | if i + 1 == blocks.len() { 0x80 } else { 0 });
        out.extend(&(data.len() as u32).to_be_bytes()[1..]);
        out.extend(data);
    }
    out
}

fn le(n: usize) -> Vec<u8> {
    (n as u32).to_le_bytes().to_vec()
}

fn comments(vendor: &[u8], all: &[&[u8]]) -> Vec<u8> {
    let mut d = le(vendor.len());
    d.extend(vendor);
    d.extend(le(all.len()));
    for c in all {
        d.extend(le(c.len()));
        d.extend(*c);
    }
    d
}

fn picture(kind: u32, mime: &[u8], said: &[u8], data: &[u8]) -> Vec<u8> {
    let mut d = kind.to_be_bytes().to_vec();
    for part in [mime, said] {
        d.extend((part.len() as u32).to_be_bytes());
        d.extend(part);
    }
    d.extend([0; 16]);
    d.extend((data.len() as u32).to_be_bytes());
    d.extend(data);
    d
}

fn cue(tracks: &[u8]) -> Vec<u8> {
    let mut d = vec![0; 395];
    d.push(tracks.len() as u8);
    for n in tracks {
        d.extend([0; 35]);
        d.push(*n);
        d.extend(vec![0; 12 * *n as usize]);
    }
    d
}

/// What can be read, `open` reads; every way of cutting a block short is told before.
#[test]
fn blocks_hold_what_they_announce() {
    let stream = (0u8, vec![1; 34]);
    let whole: Vec<(u8, Vec<u8>)> = vec![
        stream.clone(),
        (1, vec![]),
        (2, vec![0; 4]),
        (3, vec![0; 40]),
        (4, comments(b"v", &[b"A=1", b"B="])),
        (5, cue(&[0, 2, 1])),
        (6, picture(3, b"image/png", b"front", b"xyz")),
        (9, vec![]),
    ];
    let file = with_blocks(&whole);
    assert!(has_readable_blocks(&file));
    assert!(open("a.flac", &file).is_ok());
    // How many bytes a block of each kind can lose before something is missing.
    for (kind, spare) in [(0, 0), (1, 0), (2, 0), (3, 40), (4, 0), (5, 3), (6, 0)] {
        let (_, data) = &whole[kind];
        for cut in 0..data.len() {
            let short = with_blocks(&[(kind as u8, data[..cut].to_vec())]);
            let lost = data.len() - cut;
            assert_eq!(has_readable_blocks(&short), lost <= spare, "{kind} {cut}");
            if lost <= spare {
                assert!(open("a.flac", &short).is_ok());
            }
        }
    }
}

/// What is refused before anything is missing is an error, and nothing is asked after it.
#[test]
fn a_refused_block_ends_the_reading() {
    let short = (0u8, vec![]);
    for refused in [
        (4u8, comments(b"\xff", &[])[..5].to_vec()),
        (4, comments(b"v", &[b"A=\xff"])),
        (6, vec![0, 0, 0, 21]),
        (6, picture(0, b"\xff", b"", b"")[..9].to_vec()),
        (6, picture(0, b"", b"\xff", b"")[..13].to_vec()),
        (5, vec![0xff; 128]),
    ] {
        let file = with_blocks(&[refused, short.clone()]);
        assert!(has_readable_blocks(&file));
        let e = open("a.flac", &file).unwrap_err();
        assert!(matches!(e, Error::FlacMeta { .. }), "{}", e.to_string());
    }
    let bare = with_blocks(&[(4, comments(b"v", &[b"no equals sign"]))]);
    assert!(!has_readable_blocks(&bare));
    assert!(!has_readable_blocks(&with_blocks(&[(1, vec![0; 9]), short.clone()])));
    // A file that is no FLAC has no blocks, and one that ends early says so.
    assert!(has_readable_blocks(b"junk"));
    assert!(open("a.flac", b"junk").is_err());
    assert!(has_readable_blocks(b"fLaC\0\0"));
    assert!(open("a.flac", b"fLaC\0\0").is_err());
}

/// An ID3 tag in front is skipped, with its footer where it has one.
#[test]
fn an_id3_tag_is_skipped() {
    let file = good(100);
    for (flags, footer) in [(0u8, 0usize), (0x10, 10)] {
        let mut tagged = vec![b'I', b'D', b'3', 3, 0, flags, 0, 0, 1, 2];
        tagged.extend(vec![7; 130 + footer]);
        tagged.extend(&file);
        assert!(has_readable_blocks(&tagged));
        assert_eq!(ffp("a.flac", &tagged).unwrap(), ffp("a.flac", &file).unwrap());
        let mut broken = tagged[..140 + footer].to_vec();
        broken.extend(with_blocks(&[(0, vec![])]));
        assert!(!has_readable_blocks(&broken));
    }
    assert!(has_readable_blocks(b"ID3\x03\0"));
    assert!(open("a.flac", b"ID3\x03\0").is_err());
}

/// A byte order mark, either line end, and blank or comment lines make no difference.
#[test]
fn the_layout_of_a_checksum_file_makes_no_difference() {
    for kind in [ChecksumKind::Ffp, ChecksumKind::Md5, ChecksumKind::St5] {
        let mut file = ChecksumFile::new(kind);
        for (name, d) in [("a b.flac", 1u8), ("c:d.flac", 2), ("e=f.flac", 3)] {
            file.entries.push(Entry {
                file_name: name.to_string(),
                digest: [d; 16],
            });
        }
        let plain = file.render();
        assert_eq!(ChecksumFile::parse(kind, &plain, "x").unwrap(), file);
        let marked = format!("\u{feff}{plain}");
        assert_eq!(ChecksumFile::parse(kind, &marked, "x").unwrap(), file);
        let crlf = plain.replace('\n', "\r\n");
        assert_eq!(ChecksumFile::parse(kind, &crlf, "x").unwrap(), file);
        let spread = plain.replace('\n', "\n\n; said\r\n  \t\n# more\n");
        assert_eq!(ChecksumFile::parse(kind, &spread, "x").unwrap(), file);
        let all = format!("\u{feff};first\r\n{}", spread.replace('\n', "\r\n"));
        assert_eq!(ChecksumFile::parse(kind, &all, "x").unwrap(), file);
    }
}
