//! The text of `.ffp`, `.md5` and `.st5` files.

use super::ChecksumKind;
use crate::digest;
use crate::digest::{hex_decode, hex_encode};
use crate::error::Error;
use crate::text;
use crate::text::{
    chars_of, debug_of, find_last, is_space_char, lines_of, slice_of, trim_string,
};
use vstd::prelude::*;
use vstd::string::*;

verus! {

#[derive(Debug, Clone, PartialEq, Eq)]
pub struct Entry {
    pub file_name: String,
    pub digest: [u8; 16],
}

/// The file's name and its digest.
pub type Sum = (Seq<char>, Seq<u8>);

impl View for Entry {
    type V = (Seq<char>, Seq<u8>);

    open spec fn view(&self) -> (Seq<char>, Seq<u8>) {
        (self.file_name@, self.digest@)
    }
}

pub open spec fn sums(entries: Seq<Entry>) -> Seq<Sum> {
    entries.map_values(|e: Entry| e@)
}

#[derive(Debug, Clone, PartialEq, Eq)]
pub struct ChecksumFile {
    pub kind: ChecksumKind,
    pub entries: Vec<Entry>,
}

/// One line: `name:hash` for an FFP, and otherwise what `md5sum` reads, `hash  name`.
pub open spec fn line_of(kind: ChecksumKind, e: Sum) -> Seq<char> {
    match kind {
        ChecksumKind::Ffp => e.0 + ":"@ + digest::hex_text(e.1),
        _ => digest::hex_text(e.1) + "  "@ + e.0,
    }
}

/// The lines, each with its line end.
pub open spec fn rendered(kind: ChecksumKind, entries: Seq<Sum>) -> Seq<char>
    decreases entries.len(),
{
    if entries.len() == 0 {
        Seq::empty()
    } else {
        rendered(kind, entries.drop_last()) + line_of(kind, entries.last()).push('\n')
    }
}

// Reading.

/// Without the byte order marks that it starts with.
pub open spec fn without_bom(s: Seq<char>) -> Seq<char>
    decreases s.len(),
{
    if s.len() > 0 && s[0] == '\u{feff}' {
        without_bom(s.drop_first())
    } else {
        s
    }
}

/// A line without byte order marks at its start, nor white space at its ends.
pub open spec fn cleaned(line: Seq<char>) -> Seq<char> {
    text::trim(without_bom(line))
}

/// A line that says nothing: empty, or a comment.
pub open spec fn is_comment(line: Seq<char>) -> bool {
    line.len() == 0 || line[0] == ';' || line[0] == '#'
}

/// Where the first white space stands, or the length.
pub open spec fn first_space(s: Seq<char>, i: int) -> int
    decreases s.len() - i,
{
    if i < 0 || i >= s.len() || text::is_space(s[i]) {
        i
    } else {
        first_space(s, i + 1)
    }
}

/// The digest that some text writes down, or what is wrong with it.
pub open spec fn digest_of(hex: Seq<char>) -> Result<Seq<u8>, Seq<char>> {
    if !digest::is_hex(hex) {
        Err(text::debug_text(hex) + " is not hexadecimal"@)
    } else if digest::hex_bytes(hex).len() != 16 {
        Err("digest is not 16 bytes"@)
    } else {
        Ok(digest::hex_bytes(hex))
    }
}

/// `name:hash`. The name may itself hold colons, so it is split at the last one.
pub open spec fn ffp_line(line: Seq<char>) -> Result<Sum, Seq<char>> {
    let i = text::last_at(line, ':');
    let name = text::trim(line.take(i));
    if i < 0 {
        Err("expected \"name:hash\""@)
    } else if name.len() == 0 {
        Err("empty filename"@)
    } else {
        match digest_of(text::trim(line.skip(i + 1))) {
            Ok(d) => Ok((name, d)),
            Err(e) => Err(e),
        }
    }
}

/// Without the star that marks a binary file.
pub open spec fn without_star(s: Seq<char>) -> Seq<char> {
    if s.len() > 0 && s[0] == '*' {
        s.drop_first()
    } else {
        s
    }
}

/// `hash  name` or `hash *name`.
pub open spec fn md5_line(line: Seq<char>) -> Result<Sum, Seq<char>> {
    let i = first_space(line, 0);
    let name = text::trim(without_star(text::trim_start(line.skip(i + 1))));
    if i >= line.len() {
        Err("expected \"hash  name\""@)
    } else {
        match digest_of(text::trim(line.take(i))) {
            Err(e) => Err(e),
            Ok(d) => if name.len() == 0 {
                Err("empty filename"@)
            } else {
                Ok((name, d))
            },
        }
    }
}

pub open spec fn entry_line(kind: ChecksumKind, line: Seq<char>) -> Result<Sum, Seq<char>> {
    match kind {
        ChecksumKind::Ffp => ffp_line(line),
        _ => md5_line(line),
    }
}

/// What the lines from `k` on add to the entries, or the first line that is wrong and what
/// is wrong with it.
pub open spec fn lines_sums(
    kind: ChecksumKind,
    lines: Seq<Seq<char>>,
    k: int,
    entries: Seq<Sum>,
) -> Result<Seq<Sum>, (int, Seq<char>)>
    decreases lines.len() - k,
{
    if k < 0 || k >= lines.len() {
        Ok(entries)
    } else {
        let line = cleaned(lines[k]);
        if is_comment(line) {
            lines_sums(kind, lines, k + 1, entries)
        } else {
            match entry_line(kind, line) {
                Ok(e) => lines_sums(kind, lines, k + 1, entries.push(e)),
                Err(d) => Err((k, d)),
            }
        }
    }
}

/// What a checksum file says.
pub open spec fn parsed(kind: ChecksumKind, s: Seq<char>) -> Result<Seq<Sum>, (int, Seq<char>)> {
    lines_sums(kind, text::lines(s), 0, Seq::empty())
}

/// Whether it is [`Error::ChecksumSyntax`] for this line.
pub open spec fn is_syntax(e: Error, p: Seq<char>, k: int, kind: ChecksumKind, d: Seq<char>) -> bool {
    e matches Error::ChecksumSyntax { path, line, kind: label, detail } && path@ == p && line == k
        + 1 && label@ == kind.label_text() && detail@ == d
}

fn read_digest(hex: &str) -> (r: Result<[u8; 16], String>)
    ensures
        match r {
            Ok(d) => digest_of(hex@) == Ok::<Seq<u8>, Seq<char>>(d@),
            Err(e) => digest_of(hex@) == Err::<Seq<u8>, Seq<char>>(e@),
        },
{
    match hex_decode(hex) {
        None => {
            let mut e = debug_of(hex);
            e.append(" is not hexadecimal");
            Err(e)
        },
        Some(v) => {
            if v.len() != 16 {
                return Err("digest is not 16 bytes".to_owned());
            }
            let mut d: [u8; 16] = [0u8; 16];
            let mut i: usize = 0;
            while i < 16
                invariant
                    i <= 16,
                    v.len() == 16,
                    d@.len() == 16,
                    forall|k: int| 0 <= k < i ==> #[trigger] d@[k] == v@[k],
                decreases 16 - i,
            {
                d[i] = v[i];
                i += 1;
            }
            assert(d@ =~= v@);
            Ok(d)
        },
    }
}

fn parse_ffp_line(line: &str) -> (r: Result<Entry, String>)
    ensures
        match r {
            Ok(e) => ffp_line(line@) == Ok::<Sum, Seq<char>>(e@),
            Err(d) => ffp_line(line@) == Err::<Sum, Seq<char>>(d@),
        },
{
    let v = chars_of(line);
    let i: usize = match find_last(&v, ':') {
        Some(i) => i,
        None => {
            return Err("expected \"name:hash\"".to_owned());
        },
    };
    let name = trim_string(&slice_of(&v, 0, i));
    let hex = trim_string(&slice_of(&v, i + 1, v.len()));
    proof {
        assert(v@.subrange(0, i as int) =~= v@.take(i as int));
        assert(v@.subrange(i + 1, v@.len() as int) =~= v@.skip(i + 1));
    }
    if name.as_str().is_empty() {
        return Err("empty filename".to_owned());
    }
    match read_digest(&hex) {
        Ok(d) => Ok(Entry { file_name: name, digest: d }),
        Err(e) => Err(e),
    }
}

fn parse_md5_line(line: &str) -> (r: Result<Entry, String>)
    ensures
        match r {
            Ok(e) => md5_line(line@) == Ok::<Sum, Seq<char>>(e@),
            Err(d) => md5_line(line@) == Err::<Sum, Seq<char>>(d@),
        },
{
    let v = chars_of(line);
    let mut i: usize = 0;
    while i < v.len() && !is_space_char(v[i])
        invariant
            i <= v.len(),
            first_space(v@, 0) == first_space(v@, i as int),
        decreases v.len() - i,
    {
        i += 1;
    }
    if i >= v.len() {
        return Err("expected \"hash  name\"".to_owned());
    }
    let hex = trim_string(&slice_of(&v, 0, i));
    proof {
        assert(v@.subrange(0, i as int) =~= v@.take(i as int));
    }
    let d = match read_digest(&hex) {
        Ok(d) => d,
        Err(e) => {
            return Err(e);
        },
    };
    let ghost rest = v@.skip(i + 1);
    let mut j: usize = i + 1;
    assert(v@.skip(j as int) =~= rest);
    while j < v.len() && is_space_char(v[j])
        invariant
            j <= v.len(),
            text::trim_start(rest) == text::trim_start(v@.skip(j as int)),
        decreases v.len() - j,
    {
        assert(v@.skip(j as int).drop_first() =~= v@.skip(j + 1));
        j += 1;
    }
    assert(text::trim_start(rest) == v@.skip(j as int));
    if j < v.len() && v[j] == '*' {
        j += 1;
        assert(v@.skip(j - 1).drop_first() =~= v@.skip(j as int));
    }
    assert(without_star(text::trim_start(rest)) == v@.skip(j as int));
    let name = trim_string(&slice_of(&v, j, v.len()));
    assert(v@.subrange(j as int, v@.len() as int) =~= v@.skip(j as int));
    if name.as_str().is_empty() {
        return Err("empty filename".to_owned());
    }
    Ok(Entry { file_name: name, digest: d })
}

/// A line without byte order marks at its start and white space at its ends.
fn clean(line: &str) -> (r: String)
    ensures
        r@ == cleaned(line@),
{
    let v = chars_of(line);
    let mut i: usize = 0;
    assert(v@.skip(0) =~= v@);
    while i < v.len() && v[i] == '\u{feff}'
        invariant
            i <= v.len(),
            without_bom(v@) == without_bom(v@.skip(i as int)),
        decreases v.len() - i,
    {
        assert(v@.skip(i as int).drop_first() =~= v@.skip(i + 1));
        i += 1;
    }
    assert(v@.subrange(i as int, v@.len() as int) =~= v@.skip(i as int));
    trim_string(&slice_of(&v, i, v.len()))
}

impl ChecksumFile {
    pub fn new(kind: ChecksumKind) -> (f: ChecksumFile)
        ensures
            f.kind == kind,
            f.entries@.len() == 0,
    {
        ChecksumFile { kind, entries: Vec::new() }
    }

    pub fn render(&self) -> (s: String)
        ensures
            s@ == rendered(self.kind, sums(self.entries@)),
    {
        let ghost all = sums(self.entries@);
        let mut out = String::new();
        let mut i: usize = 0;
        assert(all.take(0) =~= Seq::<Sum>::empty());
        while i < self.entries.len()
            invariant
                i <= self.entries.len(),
                all == sums(self.entries@),
                out@ == rendered(self.kind, all.take(i as int)),
            decreases self.entries.len() - i,
        {
            let e = &self.entries[i];
            let ghost before = out@;
            let hex = hex_encode(&e.digest);
            match self.kind {
                ChecksumKind::Ffp => {
                    out.append(&e.file_name);
                    out.append(":");
                    out.append(&hex);
                },
                _ => {
                    out.append(&hex);
                    out.append("  ");
                    out.append(&e.file_name);
                },
            }
            out.push('\n');
            proof {
                assert(all.take(i + 1).drop_last() =~= all.take(i as int));
                assert(all.take(i + 1).last() == e@);
                assert(out@ =~= before + line_of(self.kind, e@).push('\n'));
            }
            i += 1;
        }
        assert(all.take(all.len() as int) =~= all);
        out
    }

    /// Reads a checksum file, tolerant of what is actually out in the wild: CRLF, a byte
    /// order mark, comment lines, blank lines, and both `hash *name` and `hash  name`.
    pub fn parse(kind: ChecksumKind, s: &str, origin: &str) -> (r: Result<ChecksumFile, Error>)
        ensures
            match r {
                Ok(f) => f.kind == kind && parsed(kind, s@) == Ok::<
                    Seq<Sum>,
                    (int, Seq<char>),
                >(sums(f.entries@)),
                Err(e) => parsed(kind, s@) matches Err((k, d)) && is_syntax(e, origin@, k, kind, d),
            },
    {
        let lines = lines_of(s);
        let ghost all = text::views(lines@);
        let mut entries: Vec<Entry> = Vec::new();
        let mut k: usize = 0;
        assert(sums(entries@) =~= Seq::<Sum>::empty());
        while k < lines.len()
            invariant
                k <= lines.len(),
                all == text::views(lines@),
                all == text::lines(s@),
                parsed(kind, s@) == lines_sums(kind, all, k as int, sums(entries@)),
            decreases lines.len() - k,
        {
            assert(all[k as int] == lines@[k as int]@);
            let line = clean(&lines[k]);
            let v = chars_of(&line);
            if v.len() == 0 || v[0] == ';' || v[0] == '#' {
                k += 1;
                continue;
            }
            let r = match kind {
                ChecksumKind::Ffp => parse_ffp_line(&line),
                _ => parse_md5_line(&line),
            };
            match r {
                Ok(e) => {
                    let ghost had = sums(entries@);
                    let ghost added = e@;
                    entries.push(e);
                    assert(sums(entries@) =~= had.push(added));
                },
                Err(detail) => {
                    return Err(
                        Error::ChecksumSyntax {
                            path: origin.to_owned(),
                            line: k + 1,
                            kind: kind.label(),
                            detail,
                        },
                    );
                },
            }
            k += 1;
        }
        Ok(ChecksumFile { kind, entries })
    }
}

// Laws.

/// A name that a checksum file can hold: not empty, on one line, with no white space at
/// either end, and without a first character that would mean something else there.
pub open spec fn is_holdable(kind: ChecksumKind, name: Seq<char>) -> bool {
    &&& name.len() > 0
    &&& !name.contains('\n')
    &&& !text::is_space(name[0])
    &&& !text::is_space(name.last())
    &&& match kind {
        ChecksumKind::Ffp => name[0] != ';' && name[0] != '#' && name[0] != '\u{feff}',
        _ => name[0] != '*',
    }
}

proof fn lemma_trim_is(s: Seq<char>)
    requires
        s.len() > 0,
        !text::is_space(s[0]),
        !text::is_space(s.last()),
    ensures
        text::trim(s) == s,
        text::trim_start(s) == s,
{
}

proof fn lemma_hex_text(d: Seq<u8>)
    ensures
        digest::hex_text(d).len() == 2 * d.len(),
        forall|i: int|
            0 <= i < 2 * d.len() ==> {
                let c = #[trigger] digest::hex_text(d)[i];
                ('0' <= c && c <= '9') || ('a' <= c && c <= 'f')
            },
{
}

pub proof fn lemma_first_space_at(s: Seq<char>, i: int, n: int)
    requires
        0 <= i <= n < s.len(),
        text::is_space(s[n]),
        forall|k: int| i <= k < n ==> !text::is_space(#[trigger] s[k]),
    ensures
        first_space(s, i) == n,
    decreases n - i,
{
    if i < n {
        assert(!text::is_space(s[i]));
        lemma_first_space_at(s, i + 1, n);
    }
}

proof fn lemma_line_reads_back(kind: ChecksumKind, e: Sum)
    requires
        is_holdable(kind, e.0),
        e.1.len() == 16,
    ensures
        ({
            let line = line_of(kind, e);
            &&& !line.contains('\n')
            &&& text::without_cr(line) == line
            &&& cleaned(line) == line
            &&& !is_comment(line)
            &&& entry_line(kind, line) == Ok::<Sum, Seq<char>>(e)
        }),
{
    let hex = digest::hex_text(e.1);
    let name = e.0;
    let line = line_of(kind, e);
    lemma_hex_text(e.1);
    digest::law_hex_round_trip(e.1);
    lemma_trim_is(hex);
    lemma_trim_is(name);
    reveal_strlit(":");
    reveal_strlit("  ");
    match kind {
        ChecksumKind::Ffp => {
            let n = name.len() as int;
            assert(line[0] == name[0]);
            assert(line.last() == hex.last());
            assert forall|i: int| 0 <= i < line.len() implies #[trigger] line[i] != '\n' by {
                if i < n {
                    assert(name.contains(name[i]));
                    assert(line[i] == name[i]);
                } else if i > n {
                    assert(line[i] == hex[i - n - 1]);
                }
            }
            lemma_trim_is(line);
            assert(line =~= name.push(':') + hex);
            text::lemma_last_at_is(name, ':', hex);
            assert(line.take(n) =~= name);
            assert(line.skip(n + 1) =~= hex);
        },
        _ => {
            let n = hex.len() as int;
            assert(line[0] == hex[0]);
            assert(line.last() == name.last());
            assert forall|i: int| 0 <= i < line.len() implies #[trigger] line[i] != '\n' by {
                if i < n {
                    assert(line[i] == hex[i]);
                } else if i >= n + 2 {
                    assert(line[i] == name[i - n - 2]);
                    assert(name.contains(name[i - n - 2]));
                }
            }
            lemma_trim_is(line);
            assert forall|k: int| 0 <= k < n implies !text::is_space(#[trigger] line[k]) by {
                assert(line[k] == hex[k]);
            }
            assert(line[n] == ' ');
            lemma_first_space_at(line, 0, n);
            assert(line.take(n) =~= hex);
            let rest = line.skip(n + 1);
            assert(rest[0] == ' ');
            assert(rest.drop_first() =~= name);
            assert(text::trim_start(rest) == name);
        },
    }
}

/// One more line adds the entry that it holds, and a comment adds nothing.
pub proof fn lemma_lines_grow(
    kind: ChecksumKind,
    lines: Seq<Seq<char>>,
    k: int,
    entries: Seq<Sum>,
    line: Seq<char>,
)
    requires
        0 <= k <= lines.len(),
        lines_sums(kind, lines, k, entries) is Ok,
        is_comment(cleaned(line)) || entry_line(kind, cleaned(line)) is Ok,
    ensures
        lines_sums(kind, lines.push(line), k, entries) == Ok::<Seq<Sum>, (int, Seq<char>)>(
            if is_comment(cleaned(line)) {
                lines_sums(kind, lines, k, entries)->Ok_0
            } else {
                lines_sums(kind, lines, k, entries)->Ok_0.push(
                    entry_line(kind, cleaned(line))->Ok_0,
                )
            },
        ),
    decreases lines.len() - k,
{
    let more = lines.push(line);
    if k < lines.len() {
        assert(more[k] == lines[k]);
        let at = cleaned(lines[k]);
        if is_comment(at) {
            lemma_lines_grow(kind, lines, k + 1, entries, line);
        } else {
            let got = entry_line(kind, at)->Ok_0;
            lemma_lines_grow(kind, lines, k + 1, entries.push(got), line);
        }
    } else {
        assert(more[k] == line);
        reveal_with_fuel(lines_sums, 2);
    }
}

/// What is written down in a checksum file is what is read from it.
pub proof fn law_rendered_file_reads_back(kind: ChecksumKind, entries: Seq<Sum>)
    requires
        forall|i: int|
            0 <= i < entries.len() ==> is_holdable(kind, (#[trigger] entries[i]).0)
                && entries[i].1.len() == 16,
    ensures
        parsed(kind, rendered(kind, entries)) == Ok::<Seq<Sum>, (int, Seq<char>)>(entries),
    decreases entries.len(),
{
    let none = Seq::<Sum>::empty();
    if entries.len() == 0 {
        let s = Seq::<char>::empty();
        assert(text::split_on(s, '\n') == seq![s]);
        assert(text::lines(s) =~= Seq::<Seq<char>>::empty());
        assert(entries =~= none);
    } else {
        let front = entries.drop_last();
        let last = entries.last();
        assert forall|i: int| 0 <= i < front.len() implies is_holdable(
            kind,
            (#[trigger] front[i]).0,
        ) && front[i].1.len() == 16 by {
            assert(front[i] == entries[i]);
        }
        law_rendered_file_reads_back(kind, front);
        let s = rendered(kind, front);
        let line = line_of(kind, last);
        assert(last == entries[entries.len() - 1]);
        lemma_line_reads_back(kind, last);
        assert(s.len() == 0 || s.last() == '\n');
        text::lemma_lines_push(s, line);
        lemma_lines_grow(kind, text::lines(s), 0, none, line);
        assert(front.push(last) =~= entries);
    }
}

// What else a checksum file may hold.

proof fn lemma_trimmed_cr(s: Seq<char>)
    ensures
        text::trim(s.push('\r')) == text::trim(s),
    decreases s.len(),
{
    let t = s.push('\r');
    if s.len() == 0 {
        assert(t.drop_first() =~= s);
        assert(text::trim_start(s) =~= s);
        assert(text::trim_start(t) == text::trim_start(t.drop_first()));
    } else if text::is_space(s[0]) {
        assert(t.drop_first() =~= s.drop_first().push('\r'));
        lemma_trimmed_cr(s.drop_first());
    } else {
        assert(t[0] == s[0]);
        assert(t.drop_last() =~= s);
    }
}

proof fn lemma_cleaned_cr(line: Seq<char>)
    ensures
        cleaned(line.push('\r')) == cleaned(line),
    decreases line.len(),
{
    let more = line.push('\r');
    if line.len() > 0 && line[0] == '\u{feff}' {
        assert(more.drop_first() =~= line.drop_first().push('\r'));
        lemma_cleaned_cr(line.drop_first());
    } else {
        assert(line.len() > 0 ==> more[0] == line[0]);
        lemma_trimmed_cr(line);
    }
}

pub proof fn lemma_cleaned_without_cr(line: Seq<char>)
    ensures
        cleaned(text::without_cr(line)) == cleaned(line),
{
    if line.len() > 0 && line.last() == '\r' {
        assert(line.drop_last().push('\r') =~= line);
        lemma_cleaned_cr(line.drop_last());
    }
}

/// Only what is left of the lines counts.
proof fn lemma_cleaned_lines(
    kind: ChecksumKind,
    a: Seq<Seq<char>>,
    b: Seq<Seq<char>>,
    k: int,
    entries: Seq<Sum>,
)
    requires
        a.len() == b.len(),
        forall|i: int| 0 <= i < a.len() ==> cleaned(#[trigger] a[i]) == cleaned(b[i]),
    ensures
        lines_sums(kind, a, k, entries) == lines_sums(kind, b, k, entries),
    decreases a.len() - k,
{
    if 0 <= k < a.len() {
        assert(cleaned(a[k]) == cleaned(b[k]));
        let line = cleaned(a[k]);
        if is_comment(line) {
            lemma_cleaned_lines(kind, a, b, k + 1, entries);
        } else if let Ok(e) = entry_line(kind, line) {
            lemma_cleaned_lines(kind, a, b, k + 1, entries.push(e));
        }
    }
}

proof fn lemma_split_prefix(c: char, s: Seq<char>, sep: char)
    requires
        c != sep,
    ensures
        text::split_on(seq![c] + s, sep) == text::split_on(s, sep).update(
            0,
            seq![c] + text::split_on(s, sep)[0],
        ),
    decreases s.len(),
{
    let whole = seq![c] + s;
    let parts = text::split_on(s, sep);
    text::lemma_split_on_nonempty(s, sep);
    let want = parts.update(0, seq![c] + parts[0]);
    if s.len() == 0 {
        assert(whole.drop_last() =~= s);
        assert(text::split_on(whole.drop_last(), sep) == seq![Seq::<char>::empty()]);
        assert(text::split_on(whole, sep) =~= want);
    } else {
        let front = s.drop_last();
        assert(whole.drop_last() =~= seq![c] + front);
        assert(whole.last() == s.last());
        lemma_split_prefix(c, front, sep);
        text::lemma_split_on_nonempty(front, sep);
        let before = text::split_on(front, sep);
        if s.last() != sep && before.len() == 1 {
            assert(seq![c] + before[0].push(s.last()) =~= (seq![c] + before[0]).push(s.last()));
        }
        assert(text::split_on(whole, sep) =~= want);
    }
}

/// A byte order mark before a checksum file makes no difference.
pub proof fn law_byte_order_mark_is_skipped(kind: ChecksumKind, s: Seq<char>)
    ensures
        parsed(kind, seq!['\u{feff}'] + s) == parsed(kind, s),
{
    let bom = seq!['\u{feff}'];
    let whole = bom + s;
    let parts = text::split_on(s, '\n');
    let more = text::split_on(whole, '\n');
    text::lemma_split_on_nonempty(s, '\n');
    lemma_split_prefix('\u{feff}', s, '\n');
    let none = Seq::<Sum>::empty();
    let a = text::lines(whole);
    let b = text::lines(s);
    let first = parts[0];
    assert((bom + first).drop_first() =~= first);
    assert(cleaned(bom + first) == cleaned(first));
    if parts.len() == 1 && first.len() == 0 {
        assert(a =~= seq![bom + first]);
        assert(b =~= Seq::<Seq<char>>::empty());
        assert(without_bom(first) =~= first);
        assert(text::trim(first) =~= first);
        assert(is_comment(cleaned(a[0])));
        reveal_with_fuel(lines_sums, 2);
    } else {
        assert(a.len() == b.len());
        assert forall|i: int| 0 <= i < a.len() implies cleaned(#[trigger] a[i]) == cleaned(
            b[i],
        ) by {
            if i == 0 && parts.len() > 1 {
                lemma_cleaned_without_cr(bom + first);
                lemma_cleaned_without_cr(first);
            }
        }
        lemma_cleaned_lines(kind, a, b, 0, none);
    }
}

/// Lines, each with its line end: `\r\n` where it says so, and otherwise `\n`.
pub open spec fn laid_out(lines: Seq<(Seq<char>, bool)>) -> Seq<char>
    decreases lines.len(),
{
    if lines.len() == 0 {
        Seq::empty()
    } else {
        let (line, crlf) = lines.last();
        laid_out(lines.drop_last()) + if crlf {
            line.push('\r').push('\n')
        } else {
            line.push('\n')
        }
    }
}

/// The lines that are no comments, nor blank.
pub open spec fn saying(lines: Seq<(Seq<char>, bool)>) -> Seq<Seq<char>>
    decreases lines.len(),
{
    if lines.len() == 0 {
        Seq::empty()
    } else if is_comment(cleaned(lines.last().0)) {
        saying(lines.drop_last())
    } else {
        saying(lines.drop_last()).push(cleaned(lines.last().0))
    }
}

/// The lines that a rendered file consists of.
pub open spec fn entry_lines(kind: ChecksumKind, entries: Seq<Sum>) -> Seq<Seq<char>> {
    entries.map_values(|e: Sum| line_of(kind, e))
}

/// What is read from a checksum file is what was written down in it, however it is laid out:
/// with either line end, with blank lines and comments anywhere between its own lines, and
/// with or without a byte order mark before it all.
pub proof fn law_layout_makes_no_difference(
    kind: ChecksumKind,
    entries: Seq<Sum>,
    lines: Seq<(Seq<char>, bool)>,
)
    requires
        forall|i: int|
            0 <= i < entries.len() ==> is_holdable(kind, (#[trigger] entries[i]).0)
                && entries[i].1.len() == 16,
        forall|i: int| 0 <= i < lines.len() ==> !(#[trigger] lines[i]).0.contains('\n'),
        saying(lines) == entry_lines(kind, entries),
    ensures
        parsed(kind, laid_out(lines)) == Ok::<Seq<Sum>, (int, Seq<char>)>(entries),
        parsed(kind, seq!['\u{feff}'] + laid_out(lines)) == Ok::<Seq<Sum>, (int, Seq<char>)>(
            entries,
        ),
    decreases lines.len(),
{
    let none = Seq::<Sum>::empty();
    law_byte_order_mark_is_skipped(kind, laid_out(lines));
    if lines.len() == 0 {
        let s = Seq::<char>::empty();
        assert(entry_lines(kind, entries).len() == 0);
        assert(text::split_on(s, '\n') == seq![s]);
        assert(text::lines(s) =~= Seq::<Seq<char>>::empty());
        assert(entries =~= none);
    } else {
        let front = lines.drop_last();
        let (line, crlf) = lines.last();
        assert(lines[lines.len() - 1].0 == line);
        assert forall|i: int| 0 <= i < front.len() implies !(#[trigger] front[i]).0.contains(
            '\n',
        ) by {
            assert(front[i] == lines[i]);
        }
        let s = laid_out(front);
        let ended = if crlf {
            line.push('\r')
        } else {
            line
        };
        lemma_cleaned_cr(line);
        lemma_cleaned_without_cr(ended);
        let stored = text::without_cr(ended);
        assert(cleaned(stored) == cleaned(line));
        assert(!ended.contains('\n')) by {
            if ended.contains('\n') {
                let k = choose|k: int| 0 <= k < ended.len() && ended[k] == '\n';
                assert(line[k] == '\n');
            }
        }
        assert(s.len() == 0 || s.last() == '\n');
        text::lemma_lines_push(s, ended);
        assert(laid_out(lines) == s + ended.push('\n'));
        if is_comment(cleaned(line)) {
            law_layout_makes_no_difference(kind, entries, front);
            lemma_lines_grow(kind, text::lines(s), 0, none, stored);
        } else {
            let all = entry_lines(kind, entries);
            let rest = entries.drop_last();
            let last = entries.last();
            assert(all.len() > 0);
            assert(all.last() == line_of(kind, last));
            assert(saying(front) =~= all.drop_last());
            assert(entry_lines(kind, rest) =~= all.drop_last());
            assert forall|i: int| 0 <= i < rest.len() implies is_holdable(
                kind,
                (#[trigger] rest[i]).0,
            ) && rest[i].1.len() == 16 by {
                assert(rest[i] == entries[i]);
            }
            assert(last == entries[entries.len() - 1]);
            law_layout_makes_no_difference(kind, rest, front);
            lemma_line_reads_back(kind, last);
            lemma_lines_grow(kind, text::lines(s), 0, none, stored);
            assert(rest.push(last) =~= entries);
        }
    }
}

} // verus!
