//! Tagging, renaming and describing a show from the command line.

use lh_core::display::FLICKS;
use lh_core::etree::ShowDate;
use lh_core::infofile::render::Decision;
use lh_core::model::{AudioFile, AudioFormat, StreamInfo};
use lh_core::analysis::sbe::Sbe;
use lh_core::rename::plan::{plan_rename, RenameEntry, RenamePlan, RenameStatus};
use lh_core::report::files::sbe_line;
use lh_core::report::sample::{folder_refusal, mode_arg, sample_line, size_arg, time_arg};
use lh_core::report::show::{
    check_tag_set, name_spec, no_audio, not_a_directory, read_titles, rename_report,
    setlist_ending, tag_lines, tag_summary, untagged_line, RenameDecision,
};
use lh_core::sample::encode::{
    check_request, default_output, encoder_argv, find_encoder, Request, Sample,
};
use lh_core::sample::mode::{clip_for, Clip, Mode};
use lh_core::tag::{show_edits, Field, Tags};
use lh_core::tools::{Agent, Provenance, Tool, ToolId, ToolSource};

fn some(s: &str) -> Option<String> {
    Some(s.to_string())
}

#[test]
fn a_folder_name_supplies_the_band_and_the_date() {
    let spec = name_spec("/x/gd1977-05-08.sbd.flac16", &None, &None, true, Some(2)).unwrap();
    assert_eq!(spec.band, "gd");
    assert_eq!(spec.date, ShowDate::new(1977, 5, 8).unwrap());
    assert!(spec.short_year && spec.keep_suffix);
    assert_eq!(spec.disc, Some(2));
    let spec = name_spec("/x/gd1977-05-08", &some("ph"), &some("94-10-31"), false, None).unwrap();
    assert_eq!(spec.band, "ph");
    assert_eq!(spec.date, ShowDate::new(1994, 10, 31).unwrap());
}

/// What is missing is named exactly.
#[test]
fn a_rename_without_band_or_date_says_so() {
    assert_eq!(
        name_spec("/x/Cornell", &None, &some("1977-05-08"), false, None).unwrap_err(),
        "no --band given, and /x/Cornell is not an etree show folder name to read one from"
    );
    assert_eq!(
        name_spec("/x/Cornell", &some("gd"), &None, false, None).unwrap_err(),
        "no --date given, and /x/Cornell is not an etree show folder name to read one from"
    );
    assert_eq!(
        name_spec("/x/gd1977-05-08", &None, &some("1977-5-8"), false, None).unwrap_err(),
        "--date \"1977-5-8\" is not YYYY-MM-DD or YY-MM-DD"
    );
}

#[test]
fn a_rename_plan_is_shown_and_decided_on() {
    let spec = name_spec("/x/gd1977-05-08", &None, &None, false, None).unwrap();
    let files = vec![
        "/x/gd1977-05-08/gd1977-05-08t01.flac".to_string(),
        "/x/gd1977-05-08/b.flac".to_string(),
    ];
    let plan = plan_rename(&files, &spec);
    let (lines, d, ending) = rename_report(&plan, false);
    assert_eq!(
        lines,
        vec![
            "gd1977-05-08t01.flac   unchanged",
            "b.flac -> gd1977-05-08t02.flac",
        ]
    );
    assert_eq!(d, RenameDecision::Show);
    assert_eq!(ending, "plan only, nothing written — pass --yes to rename");
    let (_, d, ending) = rename_report(&plan, true);
    assert_eq!(d, RenameDecision::Rename);
    assert_eq!(ending, "renamed 1 of 2 files");
    let (_, d, ending) = rename_report(&plan_rename(&files[..1], &spec), true);
    assert_eq!(d, RenameDecision::Nothing);
    assert_eq!(ending, "nothing to rename");
    let e = RenameEntry {
        from: "d/a".to_string(),
        to: "d/b".to_string(),
        status: RenameStatus::Collision,
    };
    let (lines, d, ending) = rename_report(&RenamePlan { entries: vec![e] }, true);
    assert_eq!(lines, vec!["a -> b   COLLISION"]);
    assert_eq!(d, RenameDecision::Refuse);
    assert_eq!(ending, "refusing: more than one file would end up with the same name");
}

#[test]
fn a_tag_diff_is_shown() {
    let mut before = Tags::default();
    before.set(Field::Artist, some("old"));
    let mut edit = Tags::default();
    edit.set(Field::Artist, some("new \"one\""));
    edit.set(Field::Album, some("Barton Hall"));
    let (lines, changed) = tag_lines("a.flac", &before, &edit);
    assert!(changed);
    assert_eq!(
        lines,
        vec![
            "a.flac",
            "  ARTIST       \"old\" -> \"new \\\"one\\\"\"",
            "  ALBUM        \"\" -> \"Barton Hall\"",
        ]
    );
    let (lines, changed) = tag_lines("a.flac", &edit, &edit);
    assert!(!changed);
    assert_eq!(lines, vec!["a.flac   unchanged"]);
    assert_eq!(tag_summary(false, true, 0), "nothing to change");
    assert_eq!(tag_summary(true, false, 0), "plan only, nothing written — pass --yes to write");
    assert_eq!(tag_summary(true, true, 3), "wrote 3 files");
}

#[test]
fn tracks_are_numbered_and_titled_in_order() {
    let mut show = Tags::default();
    show.set(Field::Artist, some("Grateful Dead"));
    let titles = read_titles("Bertha\r\nMe & My Uncle\n");
    let edits = show_edits(&show, &Some(titles.clone()), 2, "d").unwrap();
    assert_eq!(edits[0].title.as_deref(), Some("Bertha"));
    assert_eq!(edits[1].track_number.as_deref(), Some("2"));
    assert_eq!(edits[1].artist.as_deref(), Some("Grateful Dead"));
    assert_eq!(
        show_edits(&show, &Some(titles), 3, "d").unwrap_err(),
        "2 titles given but 3 FLAC files in d"
    );
    assert!(check_tag_set(2, 1, "d").is_ok());
    assert_eq!(check_tag_set(0, 0, "d"), Err("no audio files found in d".to_string()));
    assert_eq!(check_tag_set(1, 0, "d"), Err("no FLAC files to tag in d".to_string()));
    assert_eq!(not_a_directory("d"), "d is not a directory");
    assert_eq!(no_audio("d"), "no audio files found in d");
    let wav = AudioFile {
        path: "d/a.wav".to_string(),
        format: AudioFormat::Wav,
        file_size: 0,
        stream_info: StreamInfo {
            sample_rate: 44_100,
            channels: 2,
            bits_per_sample: 16,
            total_frames: None,
            audio_md5: None,
        },
        encoder: None,
    };
    assert_eq!(untagged_line(&wav), "N/A       a.wav (WAV carries no Vorbis comments)");
}

#[test]
fn an_info_file_is_announced() {
    let (d, said, ok) = setlist_ending("d/x.txt", false, false, false);
    assert_eq!((d, ok), (Decision::Show, true));
    assert_eq!(said, "plan only, nothing written — pass --yes to write d/x.txt");
    let (d, said, ok) = setlist_ending("d/x.txt", true, false, true);
    assert_eq!((d, ok), (Decision::Keep, false));
    assert_eq!(said, "d/x.txt already exists — pass --force to replace it");
    assert!(setlist_ending("d/x.txt", true, false, false).2);
    let (d, said, ok) = setlist_ending("d/x.txt", true, true, true);
    assert_eq!((d, ok), (Decision::Write, true));
    assert_eq!(said, "wrote d/x.txt");
}

#[test]
fn sector_boundaries_are_reported() {
    assert_eq!(
        sbe_line("a", &Some(Sbe::Aligned)),
        ("ALIGNED   a".to_string(), true)
    );
    assert_eq!(
        sbe_line("a", &Some(Sbe::Misaligned { remainder_frames: 3 })),
        ("SBE       a (+3 frames)".to_string(), false)
    );
    assert_eq!(
        sbe_line("a", &Some(Sbe::NotApplicable { reason: "r" })),
        ("N/A       a (r)".to_string(), true)
    );
    assert_eq!(sbe_line("a", &None), ("CANCELLED a".to_string(), false));
}

#[test]
fn arguments_of_a_sample_are_read() {
    assert_eq!(time_arg("1:30"), Ok(90 * FLICKS));
    assert_eq!(time_arg("x"), Err("\"x\" is not a time like 90 or 1:30".to_string()));
    assert_eq!(mode_arg("v0"), Ok(Mode::Vbr(0)));
    assert_eq!(
        mode_arg("12"),
        Err("\"12\" is not a mode; try 320, 256, 192, 160, 128, v0 or v2".to_string())
    );
    assert_eq!(size_arg("900K"), Ok(900_000));
    assert_eq!(size_arg(""), Err("\"\" is not a size like 1M or 900K".to_string()));
    assert!(folder_refusal("d").starts_with("d is a folder; give one track"));
}

fn tool(id: ToolId) -> Tool {
    Tool {
        id,
        path: "/bin/x".to_string(),
        source: ToolSource::Path,
        version: "v".to_string(),
        sha256: "s".to_string(),
    }
}

#[test]
fn encoders_are_told_what_to_do() {
    let mut tags = Tags::default();
    tags.set(Field::Title, some("Bertha"));
    assert_eq!(
        encoder_argv(&tool(ToolId::Lame), Mode::Cbr(256), &tags, "i.wav", "o.mp3").unwrap(),
        vec![
            "--silent", "--id3v2-utf16", "-b", "256", "--cbr", "--tt", "Bertha", "i.wav", "o.mp3"
        ]
    );
    let argv =
        encoder_argv(&tool(ToolId::Ffmpeg), Mode::Vbr(2), &tags, "i.wav", "o.mp3").unwrap();
    assert!(argv.windows(2).any(|w| w == ["-q:a", "2"]), "{argv:?}");
    assert!(argv.contains(&"title=Bertha".to_string()), "{argv:?}");
    assert!(encoder_argv(&tool(ToolId::Flac), Mode::Vbr(2), &tags, "i", "o").is_err());
    let missing = || {
        lh_core::tools::Registry::discover_one(
            ToolId::Lame,
            lh_core::tools::Discovery::NotFound { searched: vec![] },
        )
        .require(ToolId::Lame)
        .unwrap_err()
    };
    let found = find_encoder(Err(missing()), false, Ok(tool(ToolId::Ffmpeg))).unwrap();
    assert_eq!(found.id, ToolId::Ffmpeg);
    assert!(find_encoder(Err(missing()), true, Ok(tool(ToolId::Ffmpeg))).is_err());
}

#[test]
fn a_sample_is_announced() {
    let clip = clip_for(Some(5 * FLICKS), Some(10 * FLICKS), None, Mode::Cbr(256), 1_000_000);
    assert_eq!((clip.start, clip.length), (5 * FLICKS, 10 * FLICKS));
    let done = Sample {
        output: "o.mp3".to_string(),
        bytes: 320_000,
        clip: Clip {
            start: 5 * FLICKS,
            length: 10 * FLICKS,
        },
        provenance: Provenance {
            operation: "sample".to_string(),
            input: "i".to_string(),
            output: "o.mp3".to_string(),
            agent: Agent::in_process(),
        },
    };
    let line = sample_line(&done, Mode::Cbr(256), 1_000_000);
    assert!(line.starts_with("wrote o.mp3 ("), "{line}");
    assert!(line.contains("0:05 to 0:15, 256 kbps CBR"), "{line}");
    let request = Request {
        clip: done.clip,
        mode: Mode::Cbr(320),
        max_bytes: Some(1_000),
        overwrite: false,
    };
    let e = check_request("i.flac", "o.mp3", &request).unwrap_err();
    assert!(e.to_string().starts_with("i.flac: ") || e.to_string().starts_with("o.mp3: "), "{}", e.to_string());
    assert_eq!(
        default_output("show/t01.flac", "/x/show/t01.flac").unwrap(),
        "/x/t01.sample.mp3"
    );
}
