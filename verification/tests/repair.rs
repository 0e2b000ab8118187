//! Planning a repair, and the checks that come before one is carried out.

use lh_core::convert::EncodeOpts;
use lh_core::model::{AudioFile, AudioFormat, StreamInfo};
use lh_core::repair::members::{check_fix, set_format, RepairEncode};
use lh_core::repair::plan::{plan_fix, BoundaryDirection, BoundaryFix, FixPlan, TailPolicy};
use lh_core::repair::ranges::data_ranges;
use lh_core::tools::{Tool, ToolId, ToolSource};

fn file(name: &str, frames: u64) -> AudioFile {
    AudioFile {
        path: String::from(name),
        format: AudioFormat::Flac,
        file_size: 0,
        stream_info: StreamInfo {
            sample_rate: 44_100,
            channels: 2,
            bits_per_sample: 16,
            total_frames: Some(frames),
            audio_md5: None,
        },
        encoder: None,
    }
}

#[test]
fn data_ranges_cut_the_concatenation_at_the_new_lengths() {
    // 3 bytes handed forward out of the first file, 2 borrowed back from the third.
    assert_eq!(
        data_ranges(&[10, 5, 8], &[7, 10, 6]),
        vec![
            vec![(0, 0..7)],
            vec![(0, 7..10), (1, 0..5), (2, 0..2)],
            vec![(2, 2..8)],
        ]
    );
    // A file handed on in full, and an empty one skipped over.
    assert_eq!(
        data_ranges(&[4, 0, 2, 6], &[0, 0, 8, 4]),
        vec![
            vec![],
            vec![],
            vec![(0, 0..4), (2, 0..2), (3, 0..2)],
            vec![(3, 2..6)]
        ]
    );
}

#[test]
fn set_format_refuses_a_mixed_set() {
    let mut wav = file("t02.wav", 588);
    wav.format = AudioFormat::Wav;
    assert_eq!(
        set_format(std::slice::from_ref(&wav)).unwrap(),
        AudioFormat::Wav
    );
    let err = set_format(&[file("t01.flac", 588), wav]).unwrap_err();
    assert!(err.to_string().contains("convert first"), "{}", err.to_string());
}

#[test]
fn mod_empty_set_is_refused() {
    assert!(plan_fix(&[], BoundaryDirection::Backward, TailPolicy::Report).is_err());
}

#[test]
fn mod_non_cdda_member_is_refused() {
    let mut f = file("t01.flac", 588);
    f.stream_info.sample_rate = 48_000;
    let err = plan_fix(&[f], BoundaryDirection::Backward, TailPolicy::Report).unwrap_err();
    assert!(err.to_string().contains("not CD audio"));
}

#[test]
fn mod_already_aligned_set_needs_nothing() {
    let files = [file("t01.flac", 588 * 10), file("t02.flac", 588 * 20)];
    let plan = plan_fix(&files, BoundaryDirection::Backward, TailPolicy::Report).unwrap();
    assert_eq!(
        plan.boundaries,
        vec![BoundaryFix {
            index: 0,
            shifted_frames: 0
        }]
    );
    assert_eq!(plan.tail_padding_frames, None);
    assert!(plan.fully_fixed);
}

#[test]
fn mod_single_boundary_backward_moves_the_remainder() {
    // t01 is 3 frames past a sector; backward hands those 3 frames to t02.
    let files = [file("t01.flac", 588 * 10 + 3), file("t02.flac", 588 * 20)];
    let plan = plan_fix(&files, BoundaryDirection::Backward, TailPolicy::Report).unwrap();
    assert_eq!(
        plan.boundaries,
        vec![BoundaryFix {
            index: 0,
            shifted_frames: 3
        }]
    );
    // t02 now carries 3 extra frames, so it is 3 short of its own next sector.
    assert_eq!(plan.tail_padding_frames, None);
    assert!(!plan.fully_fixed);
}

#[test]
fn mod_single_boundary_forward_borrows_from_the_next_file() {
    let files = [file("t01.flac", 588 * 10 + 3), file("t02.flac", 588 * 20)];
    let plan = plan_fix(&files, BoundaryDirection::Forward, TailPolicy::Report).unwrap();
    // t01 needs 585 more frames to reach the next sector up.
    assert_eq!(
        plan.boundaries,
        vec![BoundaryFix {
            index: 0,
            shifted_frames: -585
        }]
    );
    assert!(!plan.fully_fixed); // t02 lost 585 frames, now short by 585 of its own.
}

#[test]
fn mod_nearest_picks_the_smaller_shift() {
    // Remainder of 3 (out of 588): backward moves 3, forward would move 585 — nearest
    // picks backward.
    let files = [file("t01.flac", 588 * 10 + 3), file("t02.flac", 588 * 20)];
    let plan = plan_fix(&files, BoundaryDirection::Nearest, TailPolicy::Report).unwrap();
    assert_eq!(plan.boundaries[0].shifted_frames, 3);

    // Remainder of 585: backward would move 585, forward moves only 3 — nearest picks
    // forward.
    let files = [file("t01.flac", 588 * 10 + 585), file("t02.flac", 588 * 20)];
    let plan = plan_fix(&files, BoundaryDirection::Nearest, TailPolicy::Report).unwrap();
    assert_eq!(plan.boundaries[0].shifted_frames, -3);
}

#[test]
fn mod_chained_boundaries_carry_the_remainder_forward() {
    // t01 is 3 over; backward hands 3 frames to t02, which was itself exactly aligned
    // and is now 3 over in turn, so boundary 2 has to move those same 3 frames again.
    let files = [
        file("t01.flac", 588 * 10 + 3),
        file("t02.flac", 588 * 20),
        file("t03.flac", 588 * 5),
    ];
    let plan = plan_fix(&files, BoundaryDirection::Backward, TailPolicy::Report).unwrap();
    assert_eq!(
        plan.boundaries,
        vec![
            BoundaryFix {
                index: 0,
                shifted_frames: 3
            },
            BoundaryFix {
                index: 1,
                shifted_frames: 3
            },
        ]
    );
    assert_eq!(plan.tail_padding_frames, None);
    assert!(!plan.fully_fixed); // t03 now carries the 3 frames, still misaligned.
}

#[test]
fn mod_misaligned_tail_is_reported_not_padded_by_default() {
    let files = [file("t01.flac", 588 * 10 + 141)];
    let plan = plan_fix(&files, BoundaryDirection::Backward, TailPolicy::Report).unwrap();
    assert!(plan.boundaries.is_empty());
    assert_eq!(plan.tail_padding_frames, None);
    assert!(!plan.fully_fixed);
}

#[test]
fn mod_pad_tail_closes_the_gap() {
    let files = [file("t01.flac", 588 * 10 + 141)];
    let plan = plan_fix(&files, BoundaryDirection::Backward, TailPolicy::Pad).unwrap();
    assert_eq!(plan.tail_padding_frames, Some(588 - 141));
    assert!(plan.fully_fixed);
}

#[test]
fn mod_aligned_tail_is_never_padded_even_when_pad_is_requested() {
    let files = [file("t01.flac", 588 * 10)];
    let plan = plan_fix(&files, BoundaryDirection::Backward, TailPolicy::Pad).unwrap();
    assert_eq!(plan.tail_padding_frames, None);
    assert!(plan.fully_fixed);
}

fn dummy_tool() -> Tool {
    Tool {
        id: ToolId::Flac,
        path: String::from("flac"),
        source: ToolSource::Path,
        version: "test".into(),
        sha256: String::new(),
    }
}

/// The checks on the shape of a fix come before any file is touched.
#[test]
fn execute_fix_refuses_a_destination_count_that_does_not_match() {
    let files = [file("t01.flac", 588 * 10), file("t02.flac", 588 * 20)];
    let plan = plan_fix(&files, BoundaryDirection::Backward, TailPolicy::Report).unwrap();
    let tool = dummy_tool();
    let opts = EncodeOpts::default();
    let encode = RepairEncode {
        flac: Some(tool),
        opts,
        overwrite: false,
    };
    let dsts = [String::from("out/t01.flac")]; // one destination, two files
    let err = check_fix(&files, &plan, &dsts, &encode).unwrap_err();
    assert!(err.to_string().contains("same length"), "{}", err.to_string());
}

#[test]
fn execute_fix_refuses_a_plan_computed_for_a_different_file_count() {
    let files = [file("t01.flac", 588 * 10), file("t02.flac", 588 * 20)];
    // A plan for three files, deliberately mismatched to this two-file set.
    let plan = FixPlan {
        boundaries: vec![
            BoundaryFix {
                index: 0,
                shifted_frames: 0,
            },
            BoundaryFix {
                index: 1,
                shifted_frames: 0,
            },
        ],
        tail_padding_frames: None,
        fully_fixed: true,
    };
    let tool = dummy_tool();
    let opts = EncodeOpts::default();
    let encode = RepairEncode {
        flac: Some(tool),
        opts,
        overwrite: false,
    };
    let dsts = [String::from("out/t01.flac"), String::from("out/t02.flac")];
    let err = check_fix(&files, &plan, &dsts, &encode).unwrap_err();
    assert!(
        err.to_string().contains("not computed for this file set"),
        "{}", err.to_string()
    );
}

#[test]
fn execute_fix_refuses_an_empty_set() {
    let plan = FixPlan {
        boundaries: vec![],
        tail_padding_frames: None,
        fully_fixed: true,
    };
    let tool = dummy_tool();
    let opts = EncodeOpts::default();
    let encode = RepairEncode {
        flac: Some(tool),
        opts,
        overwrite: false,
    };
    assert!(check_fix(&[], &plan, &[], &encode).is_err());
}
