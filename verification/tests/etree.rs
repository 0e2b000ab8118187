use lh_core::etree::{sanitize, ShowDate, ShowFormat, ShowName, TrackName, YearForm};

/// Every track-name example on the two wiki pages, plus the short-year form in
/// circulation alongside them. Parsing and rendering have to agree about all of them,
/// or a rename would quietly rewrite names that were already correct.
#[test]
fn wiki_track_names_round_trip() {
    for name in [
        "ph2000-04-20d1t01.shn",
        "gd1973-02-09d1t01bertha.shn",
        "gd77-05-08d1t01.flac",
        "jgb1987-01-25d2t14.flac",
    ] {
        let parsed = TrackName::parse(name).unwrap_or_else(|| panic!("{name} did not parse"));
        assert_eq!(parsed.render(), name, "{name} did not round-trip");
    }
}

#[test]
fn track_name_fields() {
    let t = TrackName::parse("gd1973-02-09d1t01bertha.shn").unwrap();
    assert_eq!(t.band, "gd");
    assert_eq!(t.date, ShowDate::new(1973, 2, 9).unwrap());
    assert_eq!(t.year_form, YearForm::Long);
    assert_eq!(t.disc, Some(1));
    assert_eq!(t.track, 1);
    assert_eq!(t.suffix.as_deref(), Some("bertha"));
    assert_eq!(t.ext, "shn");
}

#[test]
fn a_short_year_stays_short_and_still_means_1977() {
    let t = TrackName::parse("gd77-05-08d1t01.flac").unwrap();
    assert_eq!(t.date.year, 1977);
    assert_eq!(t.year_form, YearForm::Short);
    assert_eq!(t.render(), "gd77-05-08d1t01.flac");
    assert_eq!(t.date.render_iso(), "1977-05-08");
}

#[test]
fn a_two_digit_year_picks_its_century_at_the_pivot() {
    assert_eq!(ShowDate::parse("30-01-01").unwrap().0.year, 2030);
    assert_eq!(ShowDate::parse("31-01-01").unwrap().0.year, 1931);
    assert_eq!(ShowDate::parse("99-12-31").unwrap().0.year, 1999);
    assert_eq!(ShowDate::parse("00-01-01").unwrap().0.year, 2000);
}

/// The standard's one stated consequence: without the leading zero, 10 sorts before 2,
/// and that order is what gets burned to a disc.
#[test]
fn single_digit_tracks_are_padded_and_longer_ones_are_not() {
    let mut t = TrackName::parse("ph2000-04-20d1t01.shn").unwrap();
    for (track, expected) in [
        (1, "ph2000-04-20d1t01.shn"),
        (9, "ph2000-04-20d1t09.shn"),
        (10, "ph2000-04-20d1t10.shn"),
        (100, "ph2000-04-20d1t100.shn"),
    ] {
        t.track = track;
        assert_eq!(t.render(), expected);
    }
}

#[test]
fn a_band_ending_in_a_digit_is_not_eaten_by_the_year() {
    let t = TrackName::parse("u21983-02-23d1t05.flac").unwrap();
    assert_eq!(t.band, "u2");
    assert_eq!(t.date.year, 1983);
    assert_eq!(t.track, 5);
}

#[test]
fn a_set_without_disc_numbers_parses_and_renders_without_them() {
    let t = TrackName::parse("ph2000-04-20t07.flac").unwrap();
    assert_eq!(t.disc, None);
    assert_eq!(t.track, 7);
    assert_eq!(t.render(), "ph2000-04-20t07.flac");
}

/// Anything that is not an etree name must be `None` rather than a partial reading —
/// a half-parse here becomes a wrong rename later.
#[test]
fn names_that_are_not_etree_names_do_not_parse() {
    for name in [
        "track01.flac",            // no band, no date
        "01 - Bertha.flac",        // the thing people rename *from*
        "gd1977-05-08.flac",       // a date, but no track
        "gd1977-05-08d1.flac",     // a disc, but still no track
        "gd1977-05-08d1t.flac",    // `t` with no number
        "1977-05-08d1t01.flac",    // no band
        "gd1977-13-08d1t01.flac",  // month 13
        "gd1977-02-30d1t01.flac",  // February 30th
        "gd1977-5-8d1t01.flac",    // no leading zeros
        "gd1977-05-08d1t01",       // no extension
        "gd1977-05-08d1t01.",      // empty extension
        "gd.1977-05-08d1t01.flac", // a dot where the standard has none
        "gd1977-05-08d1t01.fl ac", // space in the extension
    ] {
        assert!(
            TrackName::parse(name).is_none(),
            "{name} parsed but should not have"
        );
    }
}

#[test]
fn leap_days_are_real_and_only_on_leap_years() {
    assert!(ShowDate::new(2000, 2, 29).is_some()); // divisible by 400
    assert!(ShowDate::new(1980, 2, 29).is_some());
    assert!(ShowDate::new(1900, 2, 29).is_none()); // divisible by 100, not 400
    assert!(ShowDate::new(1977, 2, 29).is_none());
}

/// Every folder example on the two wiki pages.
#[test]
fn wiki_show_folders_parse() {
    let s = ShowName::parse("gd1969-01-25.sbd.kaplan.7923.sbeok.shnf").unwrap();
    assert_eq!(s.band, "gd");
    assert_eq!(s.date, ShowDate::new(1969, 1, 25).unwrap());
    assert_eq!(s.segments, ["sbd", "kaplan", "7923", "sbeok"]);
    assert_eq!(s.format, Some(ShowFormat::Shnf));

    let s = ShowName::parse("jgb1987-01-25.nak.corley.19810.sbeok.shnf").unwrap();
    assert_eq!(s.band, "jgb");
    assert_eq!(s.segments, ["nak", "corley", "19810", "sbeok"]);

    // A hyphen inside a segment must not be mistaken for the date's.
    let s = ShowName::parse("gd1979-10-31.sbd-aud.shephard.9372.sbefail.shnf").unwrap();
    assert_eq!(s.date, ShowDate::new(1979, 10, 31).unwrap());
    assert_eq!(s.segments, ["sbd-aud", "shephard", "9372", "sbefail"]);

    let s = ShowName::parse("ph2003-04-20.flac16").unwrap();
    assert!(s.segments.is_empty());
    assert_eq!(s.format, Some(ShowFormat::Flac16));

    let s = ShowName::parse("ph2000-04-20.shnf").unwrap();
    assert_eq!(s.format, Some(ShowFormat::Shnf));
}

#[test]
fn a_folder_naming_no_format_keeps_its_last_segment() {
    let s = ShowName::parse("gd1977-05-08.sbd.miller").unwrap();
    assert_eq!(s.format, None);
    assert_eq!(s.segments, ["sbd", "miller"]);
}

#[test]
fn folders_that_are_not_etree_names_do_not_parse() {
    for name in [
        "Grateful Dead 1977-05-08",
        "gd1977-05-08d1", // a track-name fragment, not a folder
        "sbd.kaplan.7923",
        "downloads",
    ] {
        assert!(
            ShowName::parse(name).is_none(),
            "{name} parsed but should not have"
        );
    }
}

#[test]
fn sanitize_drops_what_the_standard_forbids() {
    assert_eq!(sanitize("Scarlet Begonias"), "ScarletBegonias");
    assert_eq!(sanitize("drums/space"), "drumsspace");
    assert_eq!(sanitize("sugaree & co."), "sugareeco.");
    assert_eq!(sanitize("st._stephen-1"), "st._stephen-1");
    assert_eq!(sanitize("über"), "ber");
}
