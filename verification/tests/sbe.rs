use lh_core::analysis::{sbe, Sbe};
use lh_core::model::StreamInfo;

fn cdda(frames: u64) -> StreamInfo {
    StreamInfo {
        sample_rate: 44_100,
        channels: 2,
        bits_per_sample: 16,
        total_frames: Some(frames),
        audio_md5: None,
    }
}

#[test]
fn whole_sectors_are_aligned() {
    assert_eq!(sbe(&cdda(588 * 100)), Sbe::Aligned);
    assert_eq!(sbe(&cdda(0)), Sbe::Aligned);
}

#[test]
fn short_of_a_boundary_is_misaligned() {
    assert_eq!(
        sbe(&cdda(588 * 100 + 1)),
        Sbe::Misaligned {
            remainder_frames: 1
        }
    );
    assert_eq!(
        sbe(&cdda(587)),
        Sbe::Misaligned {
            remainder_frames: 587
        }
    );
}

#[test]
fn non_cdda_is_never_a_pass() {
    let mut info = cdda(1);
    info.sample_rate = 48_000;
    assert!(matches!(sbe(&info), Sbe::NotApplicable { .. }));

    let mut info = cdda(1);
    info.bits_per_sample = 24;
    assert!(matches!(sbe(&info), Sbe::NotApplicable { .. }));

    let mut info = cdda(1);
    info.channels = 1;
    assert!(matches!(sbe(&info), Sbe::NotApplicable { .. }));
}

#[test]
fn unknown_length_is_not_applicable() {
    let mut info = cdda(0);
    info.total_frames = None;
    assert!(matches!(sbe(&info), Sbe::NotApplicable { .. }));
}
