//! What is said of single files: what they are, whether they verify, and their checksums.

use crate::analysis::sbe;
use crate::analysis::sbe::Sbe;
use crate::analysis::verify::Verification;
use crate::checksum::file;
use crate::checksum::file::{ChecksumFile, Entry};
use crate::checksum::{ChecksumKind, EntryOutcome};
use crate::digest;
use crate::digest::hex_encode;
use crate::display;
use crate::display::duration_precise;
use crate::error::Error;
use crate::model::AudioFile;
use crate::path;
use crate::text;
use crate::text::{decimal_string, push_decimal, push_text};
use vstd::prelude::*;
use vstd::string::*;

verus! {

/// Two texts, one after the other.
pub(crate) fn joined(a: &str, b: &str) -> (s: String)
    ensures
        s@ == a@ + b@,
{
    let mut s = a.to_owned();
    s.append(b);
    s
}

// What a file is.

/// The line about a file's sector boundaries.
pub open spec fn boundary_text(s: Sbe) -> Seq<char> {
    match s {
        Sbe::Aligned => "  sbe: aligned"@,
        Sbe::Misaligned { remainder_frames } => "  sbe: MISALIGNED ("@ + text::decimal(
            remainder_frames as nat,
        ) + " frames past a sector boundary)"@,
        Sbe::NotApplicable { reason } => "  sbe: n/a ("@ + reason@ + ")"@,
    }
}

fn boundary_line(s: &Sbe) -> (l: String)
    ensures
        l@ == boundary_text(*s),
{
    match s {
        Sbe::Aligned => "  sbe: aligned".to_owned(),
        Sbe::Misaligned { remainder_frames } => {
            let mut l = "  sbe: MISALIGNED (".to_owned();
            push_decimal(&mut l, *remainder_frames);
            l.append(" frames past a sector boundary)");
            l
        },
        Sbe::NotApplicable { reason } => {
            let mut l = joined("  sbe: n/a (", reason);
            l.append(")");
            l
        },
    }
}

/// The line about a file's format, length and size.
pub open spec fn stream_text(f: AudioFile) -> Seq<char> {
    let si = f.stream_info;
    "  "@ + f.format.name_text() + "  "@ + text::decimal(si.sample_rate as nat) + " Hz  "@
        + text::decimal(si.bits_per_sample as nat) + "-bit  "@ + text::decimal(si.channels as nat)
        + " ch  "@ + (match si.length() {
        Some(n) => display::precise_text(n),
        None => "?"@,
    }) + "  "@ + text::decimal(f.file_size as nat) + " bytes"@
}

/// What is said of a file before its sector boundaries.
pub open spec fn info_head(f: AudioFile) -> Seq<Seq<char>> {
    let head = seq![path::name_of(f.path@), stream_text(f)];
    match f.encoder {
        Some(e) => head.push("  encoder: "@ + e@),
        None => head,
    }
}

/// What a file is, including the encoder that produced it.
pub fn info_lines(f: &AudioFile) -> (r: Vec<String>)
    ensures
        exists|s: Sbe| #[trigger]
            sbe::is_sbe(s, f.stream_info) && text::views(r@) == info_head(*f).push(
                boundary_text(s),
            ),
{
    let si = &f.stream_info;
    let mut r: Vec<String> = Vec::new();
    push_text(&mut r, f.file_name());
    let mut l = joined("  ", f.format.name());
    l.append("  ");
    push_decimal(&mut l, si.sample_rate as u64);
    l.append(" Hz  ");
    push_decimal(&mut l, si.bits_per_sample as u64);
    l.append("-bit  ");
    push_decimal(&mut l, si.channels as u64);
    l.append(" ch  ");
    let length = match si.duration() {
        Some(n) => duration_precise(n),
        None => "?".to_owned(),
    };
    l.append(&length);
    l.append("  ");
    push_decimal(&mut l, f.file_size);
    l.append(" bytes");
    push_text(&mut r, l);
    match &f.encoder {
        Some(e) => {
            push_text(&mut r, joined("  encoder: ", e));
        },
        None => {},
    }
    assert(text::views(r@) =~= info_head(*f));
    let s = sbe::sbe(si);
    push_text(&mut r, boundary_line(&s));
    r
}

// Sector boundaries of a set.

/// The line of a file in a report on sector boundaries; `None` where it was not looked at.
pub open spec fn sbe_text(name: Seq<char>, s: Option<Sbe>) -> Seq<char> {
    match s {
        Some(Sbe::Aligned) => "ALIGNED   "@ + name,
        Some(Sbe::Misaligned { remainder_frames }) => "SBE       "@ + name + " (+"@
            + text::decimal(remainder_frames as nat) + " frames)"@,
        Some(Sbe::NotApplicable { reason }) => "N/A       "@ + name + " ("@ + reason@ + ")"@,
        None => "CANCELLED "@ + name,
    }
}

/// The line of a file in a report on sector boundaries, and whether it passed. A file that
/// they do not apply to does not fail.
pub fn sbe_line(name: &str, s: &Option<Sbe>) -> (r: (String, bool))
    ensures
        r.0@ == sbe_text(name@, *s),
        r.1 == (s matches Some(b) && !(b is Misaligned)),
{
    match s {
        Some(Sbe::Aligned) => (joined("ALIGNED   ", name), true),
        Some(Sbe::Misaligned { remainder_frames }) => {
            let mut l = joined("SBE       ", name);
            l.append(" (+");
            push_decimal(&mut l, *remainder_frames);
            l.append(" frames)");
            (l, false)
        },
        Some(Sbe::NotApplicable { reason }) => {
            let mut l = joined("N/A       ", name);
            l.append(" (");
            l.append(reason);
            l.append(")");
            (l, true)
        },
        None => (joined("CANCELLED ", name), false),
    }
}

// Verification.

/// Two digests under a line that names a file.
pub open spec fn two_digests(
    head: Seq<char>,
    first: Seq<char>,
    a: Seq<u8>,
    second: Seq<char>,
    b: Seq<u8>,
) -> Seq<Seq<char>> {
    seq![head, first + digest::hex_text(a), second + digest::hex_text(b)]
}

pub open spec fn verify_text(name: Seq<char>, r: Option<Result<Verification, Error>>) -> Seq<
    Seq<char>,
> {
    match r {
        Some(Ok(Verification::Verified)) => seq!["OK        "@ + name],
        Some(Ok(Verification::Md5Mismatch { stored, computed })) => two_digests(
            "MISMATCH  "@ + name,
            "            stored   "@,
            stored@,
            "            computed "@,
            computed@,
        ),
        Some(Ok(Verification::NoStoredMd5 { .. })) => seq![
            "NO MD5    "@ + name + " (decoded cleanly, nothing to compare)"@,
        ],
        Some(Err(e)) => seq!["FAILED    "@ + name + ": "@ + e.text()],
        None => seq!["CANCELLED "@ + name],
    }
}

fn push_digests(r: &mut Vec<String>, first: &str, a: &[u8; 16], second: &str, b: &[u8; 16])
    ensures
        text::views(final(r)@) == text::views(old(r)@).push(first@ + digest::hex_text(a@)).push(
            second@ + digest::hex_text(b@),
        ),
{
    push_text(r, joined(first, &hex_encode(a)));
    push_text(r, joined(second, &hex_encode(b)));
}

/// What is said of a verification, and whether the file passed. One that carries no MD5 has
/// nothing to fail.
pub fn verify_lines(name: &str, outcome: &Option<Result<Verification, Error>>) -> (r: (
    Vec<String>,
    bool,
))
    ensures
        text::views(r.0@) == verify_text(name@, *outcome),
        r.1 == (outcome matches Some(Ok(v)) && !(v is Md5Mismatch)),
{
    let mut l: Vec<String> = Vec::new();
    assert(text::views(l@) =~= Seq::<Seq<char>>::empty());
    let ok = match outcome {
        Some(Ok(Verification::Verified)) => {
            push_text(&mut l, joined("OK        ", name));
            true
        },
        Some(Ok(Verification::Md5Mismatch { stored, computed })) => {
            push_text(&mut l, joined("MISMATCH  ", name));
            push_digests(
                &mut l,
                "            stored   ",
                stored,
                "            computed ",
                computed,
            );
            false
        },
        Some(Ok(Verification::NoStoredMd5 { .. })) => {
            let mut s = joined("NO MD5    ", name);
            s.append(" (decoded cleanly, nothing to compare)");
            push_text(&mut l, s);
            true
        },
        Some(Err(e)) => {
            let mut s = joined("FAILED    ", name);
            s.append(": ");
            s.append(&e.to_string());
            push_text(&mut l, s);
            false
        },
        None => {
            push_text(&mut l, joined("CANCELLED ", name));
            false
        },
    };
    assert(text::views(l@) =~= verify_text(name@, *outcome));
    (l, ok)
}

// Checksums.

pub open spec fn entry_text(name: Seq<char>, o: EntryOutcome) -> Seq<Seq<char>> {
    match o {
        EntryOutcome::Matched => seq!["OK        "@ + name],
        EntryOutcome::Missing => seq!["MISSING   "@ + name],
        EntryOutcome::Mismatch { expected, actual } => two_digests(
            "MISMATCH  "@ + name,
            "            expected "@,
            expected@,
            "            actual   "@,
            actual@,
        ),
        EntryOutcome::Failed(e) => seq!["FAILED    "@ + name + ": "@ + e.text()],
    }
}

/// What is said of one entry of a checksum file, and whether it passed.
pub fn entry_lines(name: &str, o: &EntryOutcome) -> (r: (Vec<String>, bool))
    ensures
        text::views(r.0@) == entry_text(name@, *o),
        r.1 == (o is Matched),
{
    let mut l: Vec<String> = Vec::new();
    assert(text::views(l@) =~= Seq::<Seq<char>>::empty());
    let ok = match o {
        EntryOutcome::Matched => {
            push_text(&mut l, joined("OK        ", name));
            true
        },
        EntryOutcome::Missing => {
            push_text(&mut l, joined("MISSING   ", name));
            false
        },
        EntryOutcome::Mismatch { expected, actual } => {
            push_text(&mut l, joined("MISMATCH  ", name));
            push_digests(
                &mut l,
                "            expected ",
                expected,
                "            actual   ",
                actual,
            );
            false
        },
        EntryOutcome::Failed(e) => {
            let mut s = joined("FAILED    ", name);
            s.append(": ");
            s.append(&e.to_string());
            push_text(&mut l, s);
            false
        },
    };
    assert(text::views(l@) =~= entry_text(name@, *o));
    (l, ok)
}

/// The entries of the files whose digests were computed, in order.
pub open spec fn computed(results: Seq<(String, Option<Result<[u8; 16], Error>>)>) -> Seq<file::Sum>
    decreases results.len(),
{
    if results.len() == 0 {
        Seq::empty()
    } else {
        let front = computed(results.drop_last());
        let (name, r) = results.last();
        match r {
            Some(Ok(d)) => front.push((name@, d@)),
            _ => front,
        }
    }
}

/// What is said of the files whose digests were not computed, in order.
pub open spec fn uncomputed(results: Seq<(String, Option<Result<[u8; 16], Error>>)>) -> Seq<
    Seq<char>,
>
    decreases results.len(),
{
    if results.len() == 0 {
        Seq::empty()
    } else {
        let front = uncomputed(results.drop_last());
        let (name, r) = results.last();
        match r {
            Some(Ok(_)) => front,
            Some(Err(e)) => front.push(name@ + ": "@ + e.text()),
            None => front.push(name@ + ": cancelled"@),
        }
    }
}

/// The checksum file that computed digests make, and what is said of the files that have none.
pub fn checksum_results(
    kind: ChecksumKind,
    results: &Vec<(String, Option<Result<[u8; 16], Error>>)>,
) -> (r: (ChecksumFile, Vec<String>))
    ensures
        r.0.kind == kind,
        file::sums(r.0.entries@) == computed(results@),
        text::views(r.1@) == uncomputed(results@),
{
    let mut out = ChecksumFile::new(kind);
    let mut said: Vec<String> = Vec::new();
    let mut i: usize = 0;
    assert(file::sums(out.entries@) =~= computed(results@.take(0)));
    assert(text::views(said@) =~= uncomputed(results@.take(0)));
    while i < results.len()
        invariant
            i <= results.len(),
            out.kind == kind,
            file::sums(out.entries@) == computed(results@.take(i as int)),
            text::views(said@) == uncomputed(results@.take(i as int)),
        decreases results.len() - i,
    {
        assert(results@.take(i + 1).drop_last() =~= results@.take(i as int));
        assert(results@.take(i + 1).last() == results@[i as int]);
        let name = &results[i].0;
        match &results[i].1 {
            Some(Ok(d)) => {
                let ghost had = file::sums(out.entries@);
                out.entries.push(Entry { file_name: name.clone(), digest: *d });
                assert(file::sums(out.entries@) =~= had.push((name@, d@)));
            },
            Some(Err(e)) => {
                let mut l = joined(name, ": ");
                l.append(&e.to_string());
                push_text(&mut said, l);
            },
            None => {
                push_text(&mut said, joined(name, ": cancelled"));
            },
        }
        i += 1;
    }
    assert(results@.take(results@.len() as int) =~= results@);
    (out, said)
}

/// `3 FFP entries checked`.
pub fn checked_line(entries: usize, kind: ChecksumKind) -> (s: String)
    ensures
        s@ == text::decimal(entries as nat) + " "@ + kind.label_text() + " entries checked"@,
{
    let mut s = decimal_string(entries as u64);
    s.append(" ");
    s.append(kind.label());
    s.append(" entries checked");
    s
}

/// `wrote 3 FFP entries to show.ffp`.
pub fn wrote_line(entries: usize, kind: ChecksumKind, path: &str) -> (s: String)
    ensures
        s@ == "wrote "@ + text::decimal(entries as nat) + " "@ + kind.label_text()
            + " entries to "@ + path@,
{
    let mut s = "wrote ".to_owned();
    push_decimal(&mut s, entries as u64);
    s.append(" ");
    s.append(kind.label());
    s.append(" entries to ");
    s.append(path);
    s
}

} // verus!
