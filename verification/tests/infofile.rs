//! Info files.

use lh_core::display::FLICKS;
use lh_core::infofile::plan::{file_name, plan, InfoPlan, Problem, Track};
use lh_core::infofile::render::{decide, file_text, render, Decision};
use lh_core::model::{AudioFile, AudioFormat, StreamInfo};
use lh_core::tag::{Field, Tags};
use lh_core::tools::CRATE_VERSION;

fn track(label: &str, disc: Option<u32>, title: Option<&str>, secs: f64) -> Track {
    Track {
        file_name: format!("gd1977-05-08{label}.flac"),
        label: label.to_string(),
        disc,
        title: title.map(str::to_string),
        length: Some((secs * FLICKS as f64).round() as u128),
        is_cdda: true,
    }
}

fn show() -> Tags {
    Tags {
        artist: Some("Grateful Dead".into()),
        date: Some("1977-05-08".into()),
        album: Some("Barton Hall".into()),
        ..Tags::default()
    }
}

#[test]
fn renders_a_set_without_discs() {
    let plan = InfoPlan {
        path: String::from("gd1977-05-08.txt"),
        show: show(),
        tracks: vec![
            track("t01", None, Some("Minglewood Blues"), 330.4),
            track("t02", None, Some("Loser"), 425.6),
        ],
        problems: vec![],
    };
    let text = render(&plan, CRATE_VERSION);
    assert_eq!(
        text,
        format!(
            "Grateful Dead\n1977-05-08\nBarton Hall\n\nSource: \n\n\
             t01  Minglewood Blues   5:30\n\
             t02  Loser              7:06\n\n\
             Total: 12:36\n\nGenerated by little-helper {}\n",
            CRATE_VERSION
        )
    );
}

#[test]
fn disc_totals_sum_frames_not_rounded_times() {
    // Each track rounds down to 0:00; summed first, three of them round to 0:01.
    let plan = InfoPlan {
        path: String::from("x.txt"),
        show: Tags::default(),
        tracks: vec![
            track("d1t01", Some(1), Some("a"), 0.4),
            track("d1t02", Some(1), Some("b"), 0.4),
            track("d1t03", Some(1), Some("c"), 0.4),
            track("d2t01", Some(2), None, 61.0),
        ],
        problems: vec![],
    };
    let text = render(&plan, CRATE_VERSION);
    assert!(text.contains("Disc 1 [0:01]\n"), "{text}");
    assert!(text.contains("Disc 2 [1:01]\n"), "{text}");
    assert!(text.contains("d2t01  (no title)   1:01\n"), "{text}");
    assert!(text.contains("Total: 1:02\n"), "{text}");
}

#[test]
fn names_the_file_from_the_folder_then_the_tracks() {
    let t = vec![track("t01", None, None, 1.0)];
    assert_eq!(
        file_name("/x/gd1977-05-08.sbd.miller.flac16", &t),
        "gd1977-05-08.txt"
    );
    assert_eq!(file_name("/x/Cornell 77", &t), "gd1977-05-08.txt");
    assert_eq!(file_name("/x/Cornell 77", &vec![]), "Cornell 77.txt");
}

fn audio(path: &str, format: AudioFormat, frames: Option<u64>) -> AudioFile {
    AudioFile {
        path: path.to_string(),
        format,
        file_size: 0,
        stream_info: StreamInfo {
            sample_rate: 44_100,
            channels: 2,
            bits_per_sample: 16,
            total_frames: frames,
            audio_md5: None,
        },
        encoder: None,
    }
}

fn titled(title: Option<&str>, artist: &str) -> Tags {
    Tags {
        title: title.map(str::to_string),
        artist: Some(artist.to_string()),
        ..Tags::default()
    }
}

/// Whatever the file cannot say cleanly is reported: one problem of each kind.
#[test]
fn a_plan_reports_every_kind_of_problem() {
    let files = vec![
        audio("s/gd1977-05-08d1t01.flac", AudioFormat::Flac, Some(44_100 * 81 * 60)),
        audio("s/gd1977-05-08d2t01.flac", AudioFormat::Flac, None),
        audio("s/extra.wav", AudioFormat::Wav, Some(44_100)),
    ];
    let tags = vec![
        titled(Some("Dark Star"), "Grateful Dead"),
        titled(None, "The Dead"),
        Tags::default(),
    ];
    let names = vec![
        "gd1977-05-08.txt".to_string(),
        "notes.txt".to_string(),
        "cover.jpg".to_string(),
    ];
    let p = plan("s/gd1977-05-08.flac16", &files, &tags, &names);
    assert_eq!(p.path, "s/gd1977-05-08.flac16/gd1977-05-08.txt");
    assert_eq!(p.tracks.len(), 2);
    assert_eq!(p.tracks[0].label, "d1t01");
    assert_eq!(p.tracks[1].disc, Some(2));
    assert!(p.has_discs());
    assert_eq!(p.show.artist.as_deref(), Some("Grateful Dead"));
    let said: Vec<String> = p.problems.iter().map(|x| x.to_string()).collect();
    assert!(said.contains(&"gd1977-05-08d2t01.flac has no TITLE".to_string()), "{said:?}");
    assert!(
        said.contains(&"gd1977-05-08d2t01.flac does not state its length".to_string()),
        "{said:?}"
    );
    assert!(said.contains(&"extra.wav is not FLAC, left out".to_string()), "{said:?}");
    assert!(said.contains(&"notes.txt is already in the folder".to_string()), "{said:?}");
    assert!(
        said.contains(
            &"ARTIST differs between files (\"Grateful Dead\", \"The Dead\"); using the first"
                .to_string()
        ),
        "{said:?}"
    );
    assert!(
        said.contains(&"disc 1 runs 81:00, longer than an 80-minute CD-R".to_string()),
        "{said:?}"
    );
    assert!(p
        .problems
        .iter()
        .any(|x| matches!(x, Problem::Disagrees { field: Field::Artist, .. })));
}

/// The text goes to disk with the line ends that every trader's editor reads.
#[test]
fn the_file_has_carriage_returns() {
    let plan = InfoPlan {
        path: String::from("x.txt"),
        show: show(),
        tracks: vec![track("t01", None, Some("a"), 1.0)],
        problems: vec![],
    };
    let text = render(&plan, "1.2.3");
    let file = file_text(&plan, "1.2.3");
    assert_eq!(file, text.replace('\n', "\r\n"));
    assert!(file.ends_with("Generated by little-helper 1.2.3\r\n"));
}

#[test]
fn a_hand_written_file_is_kept_unless_forced() {
    assert_eq!(decide(true, false, true), Decision::Keep);
    assert_eq!(decide(true, false, false), Decision::Keep);
    assert_eq!(decide(true, true, true), Decision::Write);
    assert_eq!(decide(false, false, true), Decision::Write);
    assert_eq!(decide(false, false, false), Decision::Show);
}
