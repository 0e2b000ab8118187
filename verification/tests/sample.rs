use lh_core::display::FLICKS;
use lh_core::sample::encode::{check_request, Request};
use lh_core::sample::seconds::format_secs;
use lh_core::sample::{
    estimate_bytes, format_time, longest_fitting, parse_size, parse_time, Clip, Mode,
    DEFAULT_MAX_BYTES, DEFAULT_MAX_SECS,
};

/// A time in tenths of a second.
fn tenths(n: u64) -> u64 {
    n * (FLICKS / 10)
}

#[test]
fn times_parse_and_format() {
    assert_eq!(parse_time("90"), Some(tenths(900)));
    assert_eq!(parse_time("1:30"), Some(tenths(900)));
    assert_eq!(parse_time("1:02:03"), Some(tenths(37230)));
    assert_eq!(parse_time("0:30.5"), Some(tenths(305)));
    assert_eq!(parse_time("1:75"), None);
    assert_eq!(parse_time(""), None);
    assert_eq!(parse_time("a"), None);
    assert_eq!(format_time(tenths(909).into()), "1:30");
    assert_eq!(format_time(tenths(37230).into()), "1:02:03");
}

#[test]
fn sizes_parse_decimal_and_binary() {
    assert_eq!(parse_size("1M"), Some(1_000_000));
    assert_eq!(parse_size("1MB"), Some(1_000_000));
    assert_eq!(parse_size("1MiB"), Some(1_048_576));
    assert_eq!(parse_size("900k"), Some(900_000));
    assert_eq!(parse_size("1.5M"), Some(1_500_000));
    assert_eq!(parse_size("12345"), Some(12_345));
    assert_eq!(parse_size("0"), None);
    assert_eq!(parse_size("1G"), None);
}

#[test]
fn modes_parse() {
    assert_eq!(Mode::parse("320"), Some(Mode::Cbr(320)));
    assert_eq!(Mode::parse("256k"), Some(Mode::Cbr(256)));
    assert_eq!(Mode::parse("V0"), Some(Mode::Vbr(0)));
    assert_eq!(Mode::parse("300"), None);
    assert_eq!(Mode::parse("v10"), None);
}

#[test]
fn the_longest_fitting_clip_is_under_the_limit() {
    for mode in Mode::presets() {
        let secs = longest_fitting(mode, DEFAULT_MAX_BYTES);
        assert!(
            estimate_bytes(mode, secs * FLICKS) <= DEFAULT_MAX_BYTES,
            "{}",
            mode.label()
        );
        assert!(
            estimate_bytes(mode, (secs + 1) * FLICKS) > DEFAULT_MAX_BYTES,
            "{}",
            mode.label()
        );
    }
    // The default mode's reason for being the default.
    assert!(longest_fitting(Mode::default(), DEFAULT_MAX_BYTES) >= DEFAULT_MAX_SECS);
}

#[test]
fn the_default_clip_is_centred_and_capped() {
    let clip = Clip::default_for(Some(tenths(3000)), Mode::default(), DEFAULT_MAX_BYTES);
    assert_eq!(
        clip,
        Clip {
            start: tenths(1350),
            length: tenths(300)
        }
    );
    assert_eq!(
        Clip::centred(Some(tenths(3000)), tenths(400)),
        Clip {
            start: tenths(1300),
            length: tenths(400)
        }
    );
    let short = Clip::default_for(Some(tenths(125)), Mode::default(), DEFAULT_MAX_BYTES);
    assert_eq!(
        short,
        Clip {
            start: 0,
            length: tenths(120)
        }
    );
    let tight = Clip::default_for(Some(tenths(3000)), Mode::Cbr(320), DEFAULT_MAX_BYTES);
    assert_eq!(
        tight.length,
        longest_fitting(Mode::Cbr(320), DEFAULT_MAX_BYTES) * FLICKS
    );
}

#[test]
fn times_may_have_an_exponent() {
    assert_eq!(parse_time("9e1"), Some(tenths(900)));
    assert_eq!(parse_time("1.5E+1"), Some(tenths(150)));
    assert_eq!(parse_time("5e-1"), Some(tenths(5)));
    assert_eq!(parse_time(".005e3"), Some(tenths(50)));
    assert_eq!(parse_time("1:5e0"), Some(tenths(650)));
    assert_eq!(parse_time("1:6e1"), None);
    assert_eq!(parse_time("1e-400"), Some(0));
    assert_eq!(parse_time("0e99999999999999999999999999999"), Some(0));
    for bad in ["e5", "1e", "1e+", "1e5.0", "inf", "nan", "1ee1"] {
        assert_eq!(parse_time(bad), None, "{bad}");
    }
}

#[test]
fn times_are_not_negative_or_infinite() {
    assert_eq!(parse_time("-0"), Some(0));
    assert_eq!(parse_time("1:-0.0e3"), Some(tenths(600)));
    assert_eq!(parse_time("-1"), None);
    // The least that is told from zero, and what is not.
    assert_eq!(parse_time("-1e-400"), Some(0));
    assert_eq!(parse_time("-2.4703282292062328e-324"), None);
    assert_eq!(parse_time("-2.4703282292062327e-324"), Some(0));
    assert_eq!("-2.4703282292062327e-324".parse::<f64>().unwrap(), 0.0);
    assert!("-2.4703282292062328e-324".parse::<f64>().unwrap() < 0.0);
    assert_eq!(parse_size(&format!("0.{}1", "0".repeat(400))), None);
    assert_eq!(parse_size(&format!("0.{}1", "0".repeat(300))), Some(0));
    // The last that is under a minute, and what rounds to one.
    assert!("59.999999999999996447".parse::<f64>().unwrap() < 60.0);
    assert_eq!(parse_time("0:59.999999999999996447"), Some(tenths(600)));
    assert_eq!("59.999999999999996448".parse::<f64>().unwrap(), 60.0);
    assert_eq!(parse_time("0:59.999999999999996448"), None);
    assert_eq!(parse_time("1e308"), Some(u64::MAX));
    assert_eq!(parse_time("1e309"), None);
    assert_eq!(parse_time("1e99999999999999999999999999999"), None);
    let most = "1".to_string() + &"0".repeat(308);
    assert_eq!(parse_time(&most), Some(u64::MAX));
    assert_eq!(parse_time(&format!("{most}0")), None);
    assert_eq!(parse_size(&most), Some(u64::MAX));
    assert_eq!(parse_size(&format!("{most}0")), None);
    // The first that rounds to infinity, and the last that does not.
    let limit = "179769313486231580793728971405303415079934132710037826936173778980444968292764750946649017977587207096330286416692887910946555547851940402630657488671505820681908902000708383676273854845817711531764475730270069855571366959622842914819860834936475292719074168444365510704342711559699508093042880177904174497792";
    assert!(limit.parse::<f64>().unwrap().is_infinite());
    assert_eq!(parse_size(limit), None);
    let below = limit[..limit.len() - 1].to_string() + "1";
    assert!(below.parse::<f64>().unwrap().is_finite());
    assert_eq!(parse_size(&below), Some(u64::MAX));
}

#[test]
fn seconds_are_shown_as_they_were_given() {
    for text in ["90", "90.5", "0.1", "90.123456", "0.000000001", "7.25"] {
        let flicks = parse_time(text).unwrap();
        assert_eq!(format_secs(flicks), text);
        assert_eq!(parse_time(&format_secs(flicks)), Some(flicks));
    }
    for flicks in [1, 2, 3, 352_800_001, FLICKS - 1, u64::MAX - 1] {
        assert_eq!(parse_time(&format_secs(flicks)), Some(flicks));
    }
}

#[test]
fn a_bitrate_of_nothing_fits_anything() {
    let silent = Mode::Cbr(0);
    assert_eq!(longest_fitting(silent, DEFAULT_MAX_BYTES), u64::MAX);
    assert_eq!(longest_fitting(silent, 100), 0);
    let clip = Clip::default_for(Some(tenths(3000)), silent, DEFAULT_MAX_BYTES);
    assert_eq!(clip.length, DEFAULT_MAX_SECS * FLICKS);
    // With no room either, the length is that of the track, or none.
    let clip = Clip::default_for(Some(tenths(125)), silent, 100);
    assert_eq!((clip.start, clip.length), (0, tenths(120)));
    assert_eq!(Clip::default_for(None, silent, 100).length, 0);
    let request = Request {
        clip,
        mode: silent,
        max_bytes: Some(100),
        overwrite: false,
    };
    let e = check_request("i.flac", "o.mp3", &request).unwrap_err();
    assert_eq!(
        e.to_string(),
        "o.mp3: 12 s at 0 kbps CBR comes to about 7 KB, over the 1 KB limit; NaN s would fit"
    );
}
