//! Batches of jobs, working sets and configuration.

use lh_core::config::{config_dir, config_path};
use lh_core::error::Error;
use lh_core::job::{Batch, Event, JobId};
use lh_core::model::{AudioFile, AudioFormat, StreamInfo};
use lh_core::scan::{scan, wanted, Visit};

fn finished(id: u64, output: u32) -> Event<u32> {
    Event::Finished {
        id: JobId(id),
        label: "x".to_string(),
        output,
    }
}

/// Results come in the order of submission, however the jobs ended.
#[test]
fn results_keep_the_order_of_submission() {
    let mut b: Batch<u32> = Batch::new(3);
    assert!(!b.take(Event::Started {
        id: JobId(2),
        label: "c".to_string()
    }));
    assert!(b.take(finished(2, 30)));
    assert!(!b.take(Event::Progress {
        id: JobId(0),
        done: 1,
        total: 2
    }));
    assert_eq!(b.progress(), "1 of 3 done");
    assert!(b.take(Event::Cancelled {
        id: JobId(1),
        label: "b".to_string()
    }));
    assert!(!b.is_finished());
    assert!(b.take(finished(0, 10)));
    assert!(b.is_finished());
    assert_eq!(b.into_results(), vec![Some(10), None, Some(30)]);
}

#[test]
fn a_batch_of_nothing_is_finished() {
    let b: Batch<u32> = Batch::new(0);
    assert!(b.is_finished());
    assert!(b.into_results().is_empty());
}

fn audio(path: &str) -> AudioFile {
    AudioFile {
        path: path.to_string(),
        format: AudioFormat::Wav,
        file_size: 0,
        stream_info: StreamInfo {
            sample_rate: 44_100,
            channels: 2,
            bits_per_sample: 16,
            total_frames: None,
            audio_md5: None,
        },
        encoder: None,
    }
}

/// Whatever cannot be read is named, never dropped.
#[test]
fn nothing_recognized_is_dropped() {
    let set = scan(vec![
        Visit::Entry {
            path: "d/a.wav".to_string(),
            is_file: true,
            probed: Ok(audio("d/a.wav")),
        },
        Visit::Entry {
            path: "d/b.flac".to_string(),
            is_file: true,
            probed: Err(Error::malformed("d/b.flac", "broken")),
        },
        Visit::Entry {
            path: "d/notes.txt".to_string(),
            is_file: true,
            probed: Err(Error::malformed("d/notes.txt", "not probed")),
        },
        Visit::Failed {
            path: "d/secret".to_string(),
            said: "permission denied".to_string(),
        },
    ]);
    assert_eq!(set.files.len(), 1);
    assert_eq!(set.files[0].path, "d/a.wav");
    assert_eq!(
        set.skipped,
        vec![
            ("d/b.flac".to_string(), "d/b.flac: broken".to_string()),
            ("d/secret".to_string(), "permission denied".to_string()),
        ]
    );
    assert!(wanted("d/a.WAV", true));
    assert!(!wanted("d/a.wav", false));
    assert!(!wanted("d/a.txt", true));
}

#[test]
fn the_environment_overrides_the_platform() {
    let some = |s: &str| Some(s.to_string());
    assert_eq!(config_dir(some("/e"), some("/p")), some("/e"));
    assert_eq!(config_dir(None, some("/p")), some("/p"));
    assert_eq!(config_dir(None, None), None);
    assert_eq!(config_path(&some("/e"), "trackers.lst"), some("/e/trackers.lst"));
    assert_eq!(config_path(&None, "trackers.lst"), None);
}
