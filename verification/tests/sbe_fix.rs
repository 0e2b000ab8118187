//! The same plans, by way of the analysis of sector boundaries.

use lh_core::analysis::{plan_fix, BoundaryDirection, BoundaryFix, TailPolicy};
use lh_core::model::{AudioFile, AudioFormat, StreamInfo};

fn file(name: &str, frames: u64) -> AudioFile {
    AudioFile {
        path: String::from(name),
        format: AudioFormat::Flac,
        file_size: 0,
        stream_info: StreamInfo {
            sample_rate: 44_100,
            channels: 2,
            bits_per_sample: 16,
            total_frames: Some(frames),
            audio_md5: None,
        },
        encoder: None,
    }
}

#[test]
fn sbe_fix_empty_set_is_refused() {
    assert!(plan_fix(&[], BoundaryDirection::Backward, TailPolicy::Report).is_err());
}

#[test]
fn sbe_fix_non_cdda_member_is_refused() {
    let mut f = file("t01.flac", 588);
    f.stream_info.sample_rate = 48_000;
    let err = plan_fix(&[f], BoundaryDirection::Backward, TailPolicy::Report).unwrap_err();
    assert!(err.to_string().contains("not CD audio"));
}

#[test]
fn sbe_fix_already_aligned_set_needs_nothing() {
    let files = [file("t01.flac", 588 * 10), file("t02.flac", 588 * 20)];
    let plan = plan_fix(&files, BoundaryDirection::Backward, TailPolicy::Report).unwrap();
    assert_eq!(
        plan.boundaries,
        vec![BoundaryFix {
            index: 0,
            shifted_frames: 0
        }]
    );
    assert_eq!(plan.tail_padding_frames, None);
    assert!(plan.fully_fixed);
}

#[test]
fn sbe_fix_single_boundary_backward_moves_the_remainder() {
    // t01 is 3 frames past a sector; backward hands those 3 frames to t02.
    let files = [file("t01.flac", 588 * 10 + 3), file("t02.flac", 588 * 20)];
    let plan = plan_fix(&files, BoundaryDirection::Backward, TailPolicy::Report).unwrap();
    assert_eq!(
        plan.boundaries,
        vec![BoundaryFix {
            index: 0,
            shifted_frames: 3
        }]
    );
    // t02 now carries 3 extra frames, so it is 3 short of its own next sector.
    assert_eq!(plan.tail_padding_frames, None);
    assert!(!plan.fully_fixed);
}

#[test]
fn sbe_fix_single_boundary_forward_borrows_from_the_next_file() {
    let files = [file("t01.flac", 588 * 10 + 3), file("t02.flac", 588 * 20)];
    let plan = plan_fix(&files, BoundaryDirection::Forward, TailPolicy::Report).unwrap();
    // t01 needs 585 more frames to reach the next sector up.
    assert_eq!(
        plan.boundaries,
        vec![BoundaryFix {
            index: 0,
            shifted_frames: -585
        }]
    );
    assert!(!plan.fully_fixed); // t02 lost 585 frames, now short by 585 of its own.
}

#[test]
fn sbe_fix_nearest_picks_the_smaller_shift() {
    // Remainder of 3 (out of 588): backward moves 3, forward would move 585 — nearest
    // picks backward.
    let files = [file("t01.flac", 588 * 10 + 3), file("t02.flac", 588 * 20)];
    let plan = plan_fix(&files, BoundaryDirection::Nearest, TailPolicy::Report).unwrap();
    assert_eq!(plan.boundaries[0].shifted_frames, 3);

    // Remainder of 585: backward would move 585, forward moves only 3 — nearest picks
    // forward.
    let files = [file("t01.flac", 588 * 10 + 585), file("t02.flac", 588 * 20)];
    let plan = plan_fix(&files, BoundaryDirection::Nearest, TailPolicy::Report).unwrap();
    assert_eq!(plan.boundaries[0].shifted_frames, -3);
}

#[test]
fn sbe_fix_chained_boundaries_carry_the_remainder_forward() {
    // t01 is 3 over; backward hands 3 frames to t02, which was itself exactly aligned
    // and is now 3 over in turn, so boundary 2 has to move those same 3 frames again.
    let files = [
        file("t01.flac", 588 * 10 + 3),
        file("t02.flac", 588 * 20),
        file("t03.flac", 588 * 5),
    ];
    let plan = plan_fix(&files, BoundaryDirection::Backward, TailPolicy::Report).unwrap();
    assert_eq!(
        plan.boundaries,
        vec![
            BoundaryFix {
                index: 0,
                shifted_frames: 3
            },
            BoundaryFix {
                index: 1,
                shifted_frames: 3
            },
        ]
    );
    assert_eq!(plan.tail_padding_frames, None);
    assert!(!plan.fully_fixed); // t03 now carries the 3 frames, still misaligned.
}

#[test]
fn sbe_fix_misaligned_tail_is_reported_not_padded_by_default() {
    let files = [file("t01.flac", 588 * 10 + 141)];
    let plan = plan_fix(&files, BoundaryDirection::Backward, TailPolicy::Report).unwrap();
    assert!(plan.boundaries.is_empty());
    assert_eq!(plan.tail_padding_frames, None);
    assert!(!plan.fully_fixed);
}

#[test]
fn sbe_fix_pad_tail_closes_the_gap() {
    let files = [file("t01.flac", 588 * 10 + 141)];
    let plan = plan_fix(&files, BoundaryDirection::Backward, TailPolicy::Pad).unwrap();
    assert_eq!(plan.tail_padding_frames, Some(588 - 141));
    assert!(plan.fully_fixed);
}

#[test]
fn sbe_fix_aligned_tail_is_never_padded_even_when_pad_is_requested() {
    let files = [file("t01.flac", 588 * 10)];
    let plan = plan_fix(&files, BoundaryDirection::Backward, TailPolicy::Pad).unwrap();
    assert_eq!(plan.tail_padding_frames, None);
    assert!(plan.fully_fixed);
}
