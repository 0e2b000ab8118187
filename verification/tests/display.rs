use lh_core::display::{bytes, date, duration_precise, duration_short, pieces_phrase, FLICKS};

/// A duration in thousandths of a second.
fn millis(n: u128) -> u128 {
    n * u128::from(FLICKS) / 1000
}

#[test]
fn duration_short_matches_mm_ss() {
    assert_eq!(duration_short(millis(400)), "0:00");
    assert_eq!(duration_short(millis(65_600)), "1:06");
}

#[test]
fn bytes_matches_kib_mib() {
    assert_eq!(bytes(512), "512 B");
    assert_eq!(bytes(16 * 1024), "16.0 KiB");
    assert_eq!(bytes(16 * 1024 * 1024), "16.0 MiB");
}

#[test]
fn half_a_tenth_goes_to_the_even_one() {
    assert_eq!(bytes(1280), "1.2 KiB");
    assert_eq!(bytes(1792), "1.8 KiB");
    assert_eq!(bytes(1024 * 1024 - 1), "1024.0 KiB");
    assert_eq!(bytes(3 << 40), "3.0 TiB");
    assert_eq!(bytes(5 << 30), "5.0 GiB");
    assert_eq!(bytes(u64::MAX), "16777216.0 TiB");
}

#[test]
fn dates_are_those_of_the_calendar() {
    assert_eq!(date(0), "1970-01-01 00:00:00 UTC");
    assert_eq!(date(951_782_400), "2000-02-29 00:00:00 UTC");
    assert_eq!(date(1_000_000_000), "2001-09-09 01:46:40 UTC");
    assert_eq!(date(-1), "1969-12-31 23:59:59 UTC");
    assert_eq!(date(4_107_542_399), "2100-02-28 23:59:59 UTC");
    assert_eq!(date(4_107_542_400), "2100-03-01 00:00:00 UTC");
    assert_eq!(date(-62_167_219_201), "-001-12-31 23:59:59 UTC");
}

#[test]
fn precise_durations_round_to_milliseconds() {
    assert_eq!(duration_precise(millis(0)), "0:00.000");
    assert_eq!(duration_precise(millis(61_005)), "1:01.005");
    assert_eq!(duration_precise(352_800), "0:00.001");
    assert_eq!(duration_precise(352_799), "0:00.000");
}

#[test]
fn one_piece_is_a_piece() {
    assert_eq!(pieces_phrase(&[3]), "piece 3");
    assert_eq!(pieces_phrase(&[3, 5, 9]), "pieces 3, 5, 9");
    assert_eq!(pieces_phrase(&[]), "pieces ");
}
