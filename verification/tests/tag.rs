use lh_core::error::Error;
use lh_core::model::AudioFormat;
use lh_core::tag::{is_taggable, read, Field, Tags};

#[test]
fn every_field_round_trips_through_get_and_set() {
    let mut tags = Tags::default();
    assert!(tags.is_empty());
    for field in Field::ALL {
        tags.set(field, Some(field.key().to_lowercase()));
    }
    for field in Field::ALL {
        assert_eq!(tags.get(field), Some(field.key().to_lowercase().as_str()));
    }
    assert!(!tags.is_empty());
}

#[test]
fn only_title_and_track_number_are_per_track() {
    let per_track: Vec<_> = Field::ALL
        .into_iter()
        .filter(|f| f.is_per_track())
        .collect();
    assert_eq!(per_track, [Field::Title, Field::TrackNumber]);
}

/// A field the edit does not name is untouched, so it is not a change. This is what
/// keeps a preview honest: it shows what will happen, not every field that exists.
#[test]
fn changes_lists_only_what_the_edit_would_alter() {
    let mut before = Tags::default();
    before.set(Field::Artist, Some("Grateful Dead".into()));
    before.set(Field::Title, Some("Bertha".into()));

    let mut edit = Tags::default();
    edit.set(Field::Artist, Some("Grateful Dead".into())); // same value, not a change
    edit.set(Field::Title, Some("Sugaree".into())); // changed
    edit.set(Field::Date, Some("1977-05-08".into())); // added
    // GENRE left None: untouched, not cleared.

    let changes = before.changes(&edit);
    assert_eq!(
        changes,
        [
            (Field::Title, Some("Bertha"), "Sugaree"),
            (Field::Date, None, "1977-05-08"),
        ]
    );
}

/// Clearing is spelled `Some("")`, and it is a change when there was something there.
#[test]
fn clearing_a_field_is_a_change() {
    let mut before = Tags::default();
    before.set(Field::Genre, Some("Polka".into()));
    let mut edit = Tags::default();
    edit.set(Field::Genre, Some(String::new()));
    assert_eq!(before.changes(&edit), [(Field::Genre, Some("Polka"), "")]);
}

#[test]
fn a_track_number_is_a_number_only_when_it_is_one() {
    let mut tags = Tags::default();
    tags.set(Field::TrackNumber, Some("01".into()));
    assert_eq!(tags.track_number(), Some(1));
    tags.set(Field::TrackNumber, Some("1/17".into()));
    assert_eq!(tags.track_number(), None);
    assert_eq!(tags.get(Field::TrackNumber), Some("1/17"));
}

#[test]
fn only_flac_can_carry_these_tags() {
    assert!(is_taggable(AudioFormat::Flac));
    for other in [
        AudioFormat::Wav,
        AudioFormat::Shn,
        AudioFormat::Ape,
        AudioFormat::Wv,
        AudioFormat::Tta,
    ] {
        assert!(!is_taggable(other));
    }
}

#[test]
fn reading_a_non_flac_says_so_specifically() {
    let err = read("show/track.wav", b"").unwrap_err();
    assert!(matches!(err, Error::NotTaggable { .. }), "{}", err.to_string());
    assert!(err.to_string().contains("WAV"), "{}", err.to_string());

    let err = read("show/notes.txt", b"").unwrap_err();
    assert!(matches!(err, Error::UnknownFormat { .. }), "{}", err.to_string());
}
