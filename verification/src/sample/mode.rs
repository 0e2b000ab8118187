//! How an MP3 is encoded, and how large it comes out.

use super::exponent;
use super::exponent::read_number;
use super::number;
use super::number::read_decimal;
use crate::display;
use crate::display::FLICKS;
use crate::text;
use crate::text::{
    chars_of, decimal_string, lower_string, parse_unsigned, push_decimal, push_padded, same, slice_of,
    split_at_char, trim_string,
};
use vstd::prelude::*;
use vstd::string::*;

verus! {

/// 1 MB, the cap that sites commonly put on a sample. Decimal, so that it also fits a limit
/// that meant 1 MiB.
pub const DEFAULT_MAX_BYTES: u64 = 1_000_000;

/// The longest default clip, in seconds. Long enough to hear the recording.
pub const DEFAULT_MAX_SECS: u64 = 30;

/// Frames, the ID3 tag and the encoder's delay and padding: what a file of constant bitrate
/// carries on top of its audio. Generous, so that the check before encoding never passes a
/// clip that the measured one would then fail.
pub const OVERHEAD_BYTES: u64 = 6144;

/// How the MP3 is encoded.
#[derive(Debug, Clone, Copy, PartialEq, Eq, Structural)]
pub enum Mode {
    /// Constant bitrate, in kbps. The size is known before encoding.
    Cbr(u16),
    /// LAME's `-V` quality, 0 (best) to 9. The size is only estimated.
    Vbr(u8),
}

/// The MPEG-1 Layer III bitrates at and above 32 kbps.
pub open spec fn is_rate(kbps: int) -> bool {
    ||| kbps == 32
    ||| kbps == 40
    ||| kbps == 48
    ||| kbps == 56
    ||| kbps == 64
    ||| kbps == 80
    ||| kbps == 96
    ||| kbps == 112
    ||| kbps == 128
    ||| kbps == 160
    ||| kbps == 192
    ||| kbps == 224
    ||| kbps == 256
    ||| kbps == 320
}

fn known_rate(kbps: u64) -> (b: bool)
    ensures
        b == is_rate(kbps as int),
{
    kbps == 32 || kbps == 40 || kbps == 48 || kbps == 56 || kbps == 64 || kbps == 80 || kbps == 96
        || kbps == 112 || kbps == 128 || kbps == 160 || kbps == 192 || kbps == 224 || kbps == 256
        || kbps == 320
}

/// Whether a text ends in another.
pub open spec fn ends(s: Seq<char>, end: Seq<char>) -> bool {
    s.len() >= end.len() && s.skip(s.len() - end.len()) == end
}

/// Without the unit of a bitrate.
pub open spec fn without_unit(s: Seq<char>) -> Seq<char> {
    if ends(s, "kbps"@) {
        s.take(s.len() - 4)
    } else if ends(s, "k"@) {
        s.take(s.len() - 1)
    } else {
        s
    }
}

pub open spec fn mode_of(s: Seq<char>) -> Option<Mode> {
    let t = without_unit(text::lowercase(text::trim(s)));
    if t.len() > 0 && t[0] == 'v' {
        match text::unsigned(t.skip(1), u8::MAX as nat) {
            Some(q) => if q <= 9 {
                Some(Mode::Vbr(q as u8))
            } else {
                None
            },
            None => None,
        }
    } else {
        match text::unsigned(t, u16::MAX as nat) {
            Some(kbps) => if is_rate(kbps as int) {
                Some(Mode::Cbr(kbps as u16))
            } else {
                None
            },
            None => None,
        }
    }
}

impl Mode {
    /// Every mode that is offered, best first.
    pub fn presets() -> (r: [Mode; 7])
        ensures
            r@ == seq![
                Mode::Cbr(320),
                Mode::Cbr(256),
                Mode::Cbr(192),
                Mode::Cbr(160),
                Mode::Cbr(128),
                Mode::Vbr(0),
                Mode::Vbr(2),
            ],
    {
        let r: [Mode; 7] = [
            Mode::Cbr(320),
            Mode::Cbr(256),
            Mode::Cbr(192),
            Mode::Cbr(160),
            Mode::Cbr(128),
            Mode::Vbr(0),
            Mode::Vbr(2),
        ];
        assert(r@ =~= seq![
            Mode::Cbr(320),
            Mode::Cbr(256),
            Mode::Cbr(192),
            Mode::Cbr(160),
            Mode::Cbr(128),
            Mode::Vbr(0),
            Mode::Vbr(2),
        ]);
        r
    }

    /// Reads `320`, `256k` or `v0`.
    pub fn parse(s: &str) -> (r: Option<Mode>)
        ensures
            r == mode_of(s@),
    {
        let low = lower_string(&trim_string(s));
        let v = chars_of(&low);
        let n: usize = v.len();
        let ghost t = v@;
        proof {
            reveal_strlit("kbps");
            reveal_strlit("k");
            if ends(t, "kbps"@) {
                let tail = t.skip(t.len() - 4);
                assert(tail[0] == t[t.len() - 4] && tail[1] == t[t.len() - 3] && tail[2]
                    == t[t.len() - 2] && tail[3] == t[t.len() - 1]);
            } else if t.len() >= 4 {
                let tail = t.skip(t.len() - 4);
                assert(!(tail =~= "kbps"@));
            }
            if ends(t, "k"@) {
                assert(t.skip(t.len() - 1)[0] == t[t.len() - 1]);
            } else if t.len() >= 1 {
                assert(!(t.skip(t.len() - 1) =~= "k"@));
            }
        }
        let end: usize = if n >= 4 && v[n - 4] == 'k' && v[n - 3] == 'b' && v[n - 2] == 'p' && v[n
            - 1] == 's' {
            n - 4
        } else if n >= 1 && v[n - 1] == 'k' {
            n - 1
        } else {
            n
        };
        let ghost u = without_unit(t);
        assert(u =~= v@.subrange(0, end as int));
        if end > 0 && v[0] == 'v' {
            assert(u.skip(1) =~= v@.subrange(1, end as int));
            return match parse_unsigned(&v, 1, end, u8::MAX as u64) {
                Some(q) => if q <= 9 {
                    Some(Mode::Vbr(q as u8))
                } else {
                    None
                },
                None => None,
            };
        }
        match parse_unsigned(&v, 0, end, u16::MAX as u64) {
            Some(kbps) => if known_rate(kbps) {
                Some(Mode::Cbr(kbps as u16))
            } else {
                None
            },
            None => None,
        }
    }

    /// The bitrate that a size is estimated from: exact for a constant one, and LAME's
    /// typical average on music for a variable one.
    pub open spec fn kbps(self) -> nat {
        match self {
            Mode::Cbr(kbps) => kbps as nat,
            Mode::Vbr(q) => if q == 0 {
                245
            } else if q == 1 {
                225
            } else if q == 2 {
                190
            } else if q == 3 {
                175
            } else if q == 4 {
                165
            } else if q == 5 {
                130
            } else if q == 6 {
                115
            } else if q == 7 {
                100
            } else if q == 8 {
                85
            } else {
                65
            },
        }
    }

    pub fn nominal_kbps(self) -> (n: u32)
        ensures
            n == self.kbps(),
    {
        match self {
            Mode::Cbr(kbps) => kbps as u32,
            Mode::Vbr(q) => match q {
                0 => 245,
                1 => 225,
                2 => 190,
                3 => 175,
                4 => 165,
                5 => 130,
                6 => 115,
                7 => 100,
                8 => 85,
                _ => 65,
            },
        }
    }

    pub open spec fn label_text(self) -> Seq<char> {
        match self {
            Mode::Cbr(kbps) => text::decimal(kbps as nat) + " kbps CBR"@,
            Mode::Vbr(q) => "V"@ + text::decimal(q as nat) + " VBR (~"@ + text::decimal(
                self.kbps(),
            ) + " kbps)"@,
        }
    }

    pub fn label(self) -> (s: String)
        ensures
            s@ == self.label_text(),
    {
        match self {
            Mode::Cbr(kbps) => {
                let mut s = decimal_string(kbps as u64);
                s.append(" kbps CBR");
                s
            },
            Mode::Vbr(q) => {
                let mut s = "V".to_owned();
                push_decimal(&mut s, q as u64);
                s.append(" VBR (~");
                push_decimal(&mut s, self.nominal_kbps() as u64);
                s.append(" kbps)");
                s
            },
        }
    }

    /// Whether [`estimate_bytes`] is a bound rather than a guess.
    pub fn is_exact(self) -> (b: bool)
        ensures
            b == (self is Cbr),
    {
        matches!(self, Mode::Cbr(_))
    }
}

impl Default for Mode {
    /// 30 s of it fits 1 MB.
    fn default() -> (m: Mode)
        ensures
            m == Mode::Cbr(256),
    {
        Mode::Cbr(256)
    }
}

/// The size of a clip: its bits, rounded up to whole bytes, and the overhead.
pub open spec fn estimate(mode: Mode, flicks: nat) -> nat {
    ((flicks * mode.kbps() * 125 + FLICKS - 1) / FLICKS as int) as nat + OVERHEAD_BYTES as nat
}

/// The size that a clip of so many [`FLICKS`] should come out at.
pub fn estimate_bytes(mode: Mode, flicks: u64) -> (n: u64)
    ensures
        n == estimate(mode, flicks as nat),
{
    let rate: u128 = mode.nominal_kbps() as u128;
    let f: u128 = flicks as u128;
    assert(f * rate <= 0xFFFF_FFFF_FFFF_FFFF * 0xFFFF) by (nonlinear_arith)
        requires
            f <= 0xFFFF_FFFF_FFFF_FFFF,
            rate <= 0xFFFF,
    ;
    let audio: u128 = (f * rate * 125 + 705_599_999) / 705_600_000;
    audio as u64 + OVERHEAD_BYTES
}

/// The bytes that a limit leaves for audio.
pub open spec fn room(max_bytes: nat) -> nat {
    if max_bytes > OVERHEAD_BYTES {
        (max_bytes - OVERHEAD_BYTES) as nat
    } else {
        0
    }
}

/// The longest clip, in whole seconds, whose estimate stays within a limit. At a bitrate of 0
/// any room is enough for every length.
pub open spec fn longest(mode: Mode, max_bytes: nat) -> nat {
    if mode.kbps() > 0 {
        room(max_bytes) / (mode.kbps() * 125)
    } else if room(max_bytes) > 0 {
        u64::MAX as nat
    } else {
        0
    }
}

/// The longest clip whose estimate stays within `max_bytes`, in whole seconds; the most that
/// 64 bits hold where there is no longest.
pub fn longest_fitting(mode: Mode, max_bytes: u64) -> (secs: u64)
    ensures
        secs == longest(mode, max_bytes as nat),
{
    let left: u64 = if max_bytes > OVERHEAD_BYTES {
        max_bytes - OVERHEAD_BYTES
    } else {
        0
    };
    let rate: u64 = mode.nominal_kbps() as u64 * 125;
    if rate > 0 {
        left / rate
    } else if left > 0 {
        u64::MAX
    } else {
        0
    }
}

/// The longest clip fits, where anything does, and one a second longer does not.
pub proof fn law_longest_clip_fits(mode: Mode, max_bytes: nat)
    requires
        mode.kbps() > 0,
        max_bytes >= OVERHEAD_BYTES,
    ensures
        estimate(mode, longest(mode, max_bytes) * FLICKS as nat) <= max_bytes,
        estimate(mode, (longest(mode, max_bytes) + 1) * FLICKS as nat) > max_bytes,
{
    let rate = mode.kbps() * 125;
    let room = room(max_bytes);
    let secs = longest(mode, max_bytes);
    lemma_whole_seconds(mode, secs);
    lemma_whole_seconds(mode, secs + 1);
    assert(secs == room / rate);
    assert(secs * rate <= room && room < (secs + 1) * rate) by (nonlinear_arith)
        requires
            secs == room / rate,
            rate > 0,
    ;
}

proof fn lemma_whole_seconds(mode: Mode, secs: nat)
    ensures
        estimate(mode, secs * FLICKS as nat) == secs * (mode.kbps() * 125) + OVERHEAD_BYTES,
{
    let rate = mode.kbps() * 125;
    let f = secs * FLICKS as nat;
    assert(f * mode.kbps() * 125 == (secs * rate) * 705_600_000) by (nonlinear_arith)
        requires
            f == secs * 705_600_000,
            rate == mode.kbps() * 125,
    ;
    let x = secs * rate;
    assert((x * 705_600_000 + 705_599_999) / 705_600_000 == x);
}

/// Where in the track the clip is, in [`FLICKS`].
#[derive(Debug, Clone, Copy, PartialEq, Eq, Structural)]
pub struct Clip {
    pub start: u64,
    pub length: u64,
}

/// Whole seconds, rounded down, in [`FLICKS`].
pub open spec fn floor_secs(flicks: nat) -> nat {
    flicks / FLICKS as nat * FLICKS as nat
}

/// A clip in the middle of a track, or from its start where its length is unknown.
pub open spec fn centred_clip(track: Option<nat>, length: nat) -> (nat, nat) {
    match track {
        Some(t) => {
            let whole = floor_secs(t);
            let shorter = if length < whole {
                length
            } else {
                whole
            };
            let len = if shorter > FLICKS {
                shorter
            } else {
                FLICKS as nat
            };
            let start = if t > len {
                floor_secs(((t - len) / 2) as nat)
            } else {
                0
            };
            (start, len)
        },
        None => (0, length),
    }
}

/// How long a default clip is: as long as fits, between one second and thirty.
pub open spec fn default_length(mode: Mode, max_bytes: nat) -> nat {
    let fits = longest(mode, max_bytes);
    (if fits < 1 {
        1
    } else if fits > DEFAULT_MAX_SECS {
        DEFAULT_MAX_SECS as nat
    } else {
        fits
    }) * FLICKS as nat
}

/// The default clip of a track. No room at a bitrate of 0 sets no length: it is then that of
/// the track, or 0 where that is unknown.
pub open spec fn default_clip(track: Option<nat>, mode: Mode, max_bytes: nat) -> (nat, nat) {
    if mode.kbps() == 0 && room(max_bytes) == 0 {
        match track {
            Some(t) => centred_clip(track, t),
            None => (0, 0),
        }
    } else {
        centred_clip(track, default_length(mode, max_bytes))
    }
}

pub open spec fn opt_nat(o: Option<u64>) -> Option<nat> {
    match o {
        Some(n) => Some(n as nat),
        None => None,
    }
}

impl Clip {
    /// The longest clip that fits `max_bytes`, capped at [`DEFAULT_MAX_SECS`] and the track
    /// itself, centred in the track.
    pub fn default_for(track: Option<u64>, mode: Mode, max_bytes: u64) -> (c: Clip)
        ensures
            (c.start as nat, c.length as nat) == default_clip(
                opt_nat(track),
                mode,
                max_bytes as nat,
            ),
    {
        if mode.nominal_kbps() == 0 && max_bytes <= OVERHEAD_BYTES {
            return match track {
                Some(t) => Clip::centred(track, t),
                None => Clip { start: 0, length: 0 },
            };
        }
        let fits: u64 = longest_fitting(mode, max_bytes);
        let secs: u64 = if fits < 1 {
            1
        } else if fits > DEFAULT_MAX_SECS {
            DEFAULT_MAX_SECS
        } else {
            fits
        };
        Clip::centred(track, secs * FLICKS)
    }

    /// A clip of `length` (or the whole track, if that is shorter) centred in the track. From
    /// the start when the track's length is unknown.
    pub fn centred(track: Option<u64>, length: u64) -> (c: Clip)
        ensures
            (c.start as nat, c.length as nat) == centred_clip(opt_nat(track), length as nat),
    {
        match track {
            Some(t) => {
                let whole: u64 = t / FLICKS * FLICKS;
                let shorter: u64 = if length < whole {
                    length
                } else {
                    whole
                };
                let len: u64 = if shorter > FLICKS {
                    shorter
                } else {
                    FLICKS
                };
                let start: u64 = if t > len {
                    (t - len) / 2 / FLICKS * FLICKS
                } else {
                    0
                };
                Clip { start, length: len }
            },
            None => Clip { start: 0, length },
        }
    }

    pub fn end(&self) -> (n: u128)
        ensures
            n == self.start + self.length,
    {
        self.start as u128 + self.length as u128
    }
}

/// A centred clip lies within a track of at least a second.
pub proof fn law_centred_clip_is_inside(track: nat, length: nat)
    requires
        track >= FLICKS,
    ensures
        centred_clip(Some(track), length).0 + centred_clip(Some(track), length).1 <= track,
        centred_clip(Some(track), length).1 >= FLICKS,
{
}

/// The clip that is asked for: what was given, and the default for what was not. A start
/// given alone keeps the default length; a length given alone is centred.
pub fn clip_for(
    start: Option<u64>,
    length: Option<u64>,
    track: Option<u64>,
    mode: Mode,
    max_bytes: u64,
) -> (c: Clip)
    ensures
        c.length as nat == match length {
            Some(n) => n as nat,
            None => default_clip(opt_nat(track), mode, max_bytes as nat).1,
        },
        c.start as nat == match start {
            Some(n) => n as nat,
            None => centred_clip(opt_nat(track), c.length as nat).0,
        },
{
    let len: u64 = match length {
        Some(n) => n,
        None => Clip::default_for(track, mode, max_bytes).length,
    };
    let from: u64 = match start {
        Some(n) => n,
        None => Clip::centred(track, len).start,
    };
    Clip { start: from, length: len }
}

// Times and sizes as text.

/// What the last part of a time comes to, in [`FLICKS`], and whether that is a minute or more.
/// Nothing below zero is a time, nor is what a floating-point number cannot hold.
pub open spec fn last_part(s: Seq<char>) -> Option<(nat, bool)> {
    let d = exponent::unsigned_part(s);
    let t = exponent::plain(d);
    let whole = text::digits_value(number::whole_digits(t));
    if !exponent::is_number(d) || number::is_infinite(whole) || (s.len() > 0 && s[0] == '-'
        && number::is_positive(t)) {
        None
    } else {
        Some((number::scaled(t, FLICKS as nat), number::is_minute(t)))
    }
}

/// What the parts of a time from `i` on come to, after `so_far`.
pub open spec fn time_from(parts: Seq<Seq<char>>, i: int, so_far: nat) -> Option<nat>
    decreases parts.len() - i,
{
    if i < 0 || i >= parts.len() {
        None
    } else if i == parts.len() - 1 {
        match last_part(parts[i]) {
            Some((value, minute)) => if i > 0 && minute {
                None
            } else {
                Some(so_far * 60 + value)
            },
            None => None,
        }
    } else {
        match text::unsigned(parts[i], u32::MAX as nat) {
            Some(n) => if i > 0 && n >= 60 {
                None
            } else {
                time_from(parts, i + 1, so_far * 60 + n * FLICKS as nat)
            },
            None => None,
        }
    }
}

/// A time as text, in [`FLICKS`].
pub open spec fn time_of(s: Seq<char>) -> Option<nat> {
    let t = text::trim(s);
    let parts = text::split_on(t, ':');
    if t.len() == 0 || parts.len() > 3 {
        None
    } else {
        time_from(parts, 0, 0)
    }
}

/// Reads `90`, `1:30`, `1:02:03`, `1:30.5` or `9e1`, in [`FLICKS`]; the most that 64 bits hold
/// where it is more.
pub fn parse_time(s: &str) -> (r: Option<u64>)
    ensures
        match time_of(s@) {
            Some(n) => r matches Some(m) && m as nat == if n < u64::MAX {
                n
            } else {
                u64::MAX as nat
            },
            None => r is None,
        },
{
    let t = trim_string(s);
    if t.as_str().is_empty() {
        return None;
    }
    let v = chars_of(&t);
    let parts = split_at_char(&v, ':');
    let ghost all = text::split_on(t@, ':');
    assert(all == text::views(parts@));
    if parts.len() > 3 {
        return None;
    }
    let mut so_far: u128 = 0;
    let last: usize = parts.len() - 1;
    let mut i: usize = 0;
    while i < last
        invariant
            i <= last,
            last == parts.len() - 1,
            last <= 2,
            all == text::views(parts@),
            time_of(s@) == time_from(all, i as int, so_far as nat),
            i == 0 ==> so_far == 0,
            i == 1 ==> so_far <= 0xFFFF_FFFF * FLICKS,
            i == 2 ==> so_far <= 0x40_0000_0000 * FLICKS,
        decreases last - i,
    {
        assert(all[i as int] == parts@[i as int]@);
        let part = chars_of(&parts[i]);
        assert(part@.subrange(0, part@.len() as int) =~= part@);
        let n: u64 = match parse_unsigned(&part, 0, part.len(), u32::MAX as u64) {
            Some(n) => n,
            None => {
                return None;
            },
        };
        if i > 0 && n >= 60 {
            return None;
        }
        so_far = so_far * 60 + n as u128 * FLICKS as u128;
        i += 1;
    }
    assert(all[last as int] == parts@[last as int]@);
    let part = chars_of(&parts[last]);
    let minus = part.len() > 0 && part[0] == '-';
    let from: usize = if minus || (part.len() > 0 && part[0] == '+') {
        1
    } else {
        0
    };
    assert(part@.skip(0) =~= part@);
    let d = match read_number(&part, from, FLICKS) {
        Some(d) => d,
        None => {
            return None;
        },
    };
    if !d.finite || (minus && d.positive) {
        return None;
    }
    if last > 0 && d.minute {
        return None;
    }
    let total: u128 = so_far * 60 + d.value as u128;
    if total < u64::MAX as u128 {
        Some(total as u64)
    } else {
        Some(u64::MAX)
    }
}

/// A time as it is shown: whole seconds, rounded down, and hours only where there are any.
pub open spec fn time_text(flicks: nat) -> Seq<char> {
    let total = flicks / FLICKS as nat;
    let h = total / 3600;
    if h > 0 {
        text::decimal(h) + ":"@ + text::padded(total / 60 % 60, 2) + ":"@ + text::padded(
            total % 60,
            2,
        )
    } else {
        text::decimal(total / 60 % 60) + ":"@ + text::padded(total % 60, 2)
    }
}

/// `1:30`, or `1:02:03` past the hour. Whole seconds, rounded down.
pub fn format_time(flicks: u128) -> (s: String)
    requires
        flicks <= 0xFFFF_FFFF_FFFF_FFFF * FLICKS,
    ensures
        s@ == time_text(flicks as nat),
{
    let total: u64 = (flicks / FLICKS as u128) as u64;
    let h: u64 = total / 3600;
    assert(total as nat == flicks as nat / FLICKS as nat);
    let mut s = String::new();
    if h > 0 {
        push_decimal(&mut s, h);
        s.append(":");
        push_padded(&mut s, total / 60 % 60, 2);
        assert(s@ =~= text::decimal(h as nat) + ":"@ + text::padded(
            (total / 60 % 60) as nat,
            2,
        ));
    } else {
        push_decimal(&mut s, total / 60 % 60);
        assert(s@ =~= text::decimal((total / 60 % 60) as nat));
    }
    s.append(":");
    push_padded(&mut s, total % 60, 2);
    s
}

/// Where something that is neither a digit nor a point stands first, or the length.
pub open spec fn unit_at(s: Seq<char>, i: int) -> int
    decreases s.len() - i,
{
    if i < 0 || i >= s.len() || !(text::is_digit(s[i]) || s[i] == '.') {
        i
    } else {
        unit_at(s, i + 1)
    }
}

/// What a unit of size is worth. `k` and `m` are decimal, `ki` and `mi` binary.
pub open spec fn unit_scale(unit: Seq<char>) -> Option<nat> {
    if unit.len() == 0 {
        Some(1)
    } else if unit == "k"@ {
        Some(1000)
    } else if unit == "m"@ {
        Some(1_000_000)
    } else if unit == "ki"@ {
        Some(1024)
    } else if unit == "mi"@ {
        Some(1_048_576)
    } else {
        None
    }
}

/// A size as text, in bytes.
pub open spec fn size_of(s: Seq<char>) -> Option<nat> {
    let low = text::lowercase(text::trim(s));
    let t = if low.len() > 0 && low.last() == 'b' {
        low.drop_last()
    } else {
        low
    };
    let i = unit_at(t, 0);
    match unit_scale(text::trim(t.skip(i))) {
        Some(scale) => if number::is_decimal(t.take(i)) && number::is_positive(t.take(i))
            && !number::is_infinite(text::digits_value(number::whole_digits(t.take(i)))) {
            Some(number::scaled(t.take(i), scale))
        } else {
            None
        },
        None => None,
    }
}

/// Reads `1M`, `900K`, `1MiB` or `1000000`, in bytes; the most that 64 bits hold where it is
/// more.
pub fn parse_size(s: &str) -> (r: Option<u64>)
    ensures
        match size_of(s@) {
            Some(n) => r matches Some(m) && m as nat == if n < u64::MAX {
                n
            } else {
                u64::MAX as nat
            },
            None => r is None,
        },
{
    let low = lower_string(&trim_string(s));
    let v = chars_of(&low);
    let n: usize = v.len();
    let end: usize = if n > 0 && v[n - 1] == 'b' {
        n - 1
    } else {
        n
    };
    let ghost t = if v@.len() > 0 && v@.last() == 'b' {
        v@.drop_last()
    } else {
        v@
    };
    assert(t =~= v@.subrange(0, end as int));
    let mut i: usize = 0;
    while i < end && ((v[i] >= '0' && v[i] <= '9') || v[i] == '.')
        invariant
            i <= end <= v.len(),
            t == v@.subrange(0, end as int),
            unit_at(t, 0) == unit_at(t, i as int),
        decreases end - i,
    {
        assert(t[i as int] == v@[i as int]);
        i += 1;
    }
    proof {
        if i < end {
            assert(t[i as int] == v@[i as int]);
        }
        assert(unit_at(t, 0) == i);
        assert(t.skip(i as int) =~= v@.subrange(i as int, end as int));
        assert(t.take(i as int) =~= v@.subrange(0, i as int));
    }
    let unit = trim_string(&slice_of(&v, i, end));
    let scale: u64 = if unit.as_str().is_empty() {
        1
    } else if same(&unit, "k") {
        1000
    } else if same(&unit, "m") {
        1_000_000
    } else if same(&unit, "ki") {
        1024
    } else if same(&unit, "mi") {
        1_048_576
    } else {
        return None;
    };
    match read_decimal(&v, 0, i, scale) {
        Some(d) => if d.positive && d.finite {
            Some(d.value)
        } else {
            None
        },
        None => None,
    }
}

/// A size as it is shown, decimal like the limit that it is compared against.
pub open spec fn size_text(bytes: nat) -> Seq<char> {
    if bytes >= 10_000_000 {
        let tenths = display::rounded_even(bytes * 10, 1_000_000);
        text::decimal(tenths / 10) + "."@ + text::decimal(tenths % 10) + " MB"@
    } else {
        text::decimal((bytes + 999) / 1000) + " KB"@
    }
}

/// `942 KB`, or `12.5 MB`.
pub fn format_size(bytes: u64) -> (s: String)
    ensures
        s@ == size_text(bytes as nat),
{
    if bytes >= 10_000_000 {
        let a: u128 = bytes as u128 * 10;
        let q: u128 = a / 1_000_000;
        let r: u128 = a % 1_000_000;
        let tenths: u128 = if 2 * r > 1_000_000 || (2 * r == 1_000_000 && q % 2 == 1) {
            q + 1
        } else {
            q
        };
        let mut s = decimal_string((tenths / 10) as u64);
        s.append(".");
        push_decimal(&mut s, (tenths % 10) as u64);
        s.append(" MB");
        s
    } else {
        let mut s = decimal_string((bytes + 999) / 1000);
        s.append(" KB");
        s
    }
}

} // verus!
