//! What the lines of a checksum file are read as, in whichever of the forms that tools write.

use super::file;
use super::file::Sum;
use super::ChecksumKind;
use crate::digest;
use crate::text;
use vstd::prelude::*;

verus! {

/// The outcome of reading a checksum file.
pub type Read = Result<Seq<Sum>, (int, Seq<char>)>;

/// A name as it may stand in a line: something, on one line, with no white space around it.
pub open spec fn is_name(name: Seq<char>) -> bool {
    &&& name.len() > 0
    &&& !name.contains('\n')
    &&& !text::is_space(name[0])
    &&& !text::is_space(name.last())
}

/// Thirty-two hexadecimal digits, of either case.
pub open spec fn is_digits(hex: Seq<char>) -> bool {
    &&& hex.len() == 32
    &&& forall|i: int|
        0 <= i < 32 ==> {
            let c = #[trigger] hex[i];
            ('0' <= c && c <= '9') || ('a' <= c && c <= 'f') || ('A' <= c && c <= 'F')
        }
}

/// White space within a line.
pub open spec fn is_gap(s: Seq<char>) -> bool {
    &&& !s.contains('\n')
    &&& forall|i: int| 0 <= i < s.len() ==> text::is_space(#[trigger] s[i])
}

/// What a digit stands for.
pub open spec fn digit(c: char) -> int {
    if c <= '9' {
        c as int - '0' as int
    } else if c <= 'F' {
        c as int - 'A' as int + 10
    } else {
        c as int - 'a' as int + 10
    }
}

/// The bytes that digits write down, two for each, the high one first.
pub open spec fn is_written(d: Seq<u8>, hex: Seq<char>) -> bool {
    &&& d.len() == 16
    &&& forall|i: int|
        0 <= i < 16 ==> #[trigger] d[i] == 16 * digit(hex[2 * i]) + digit(hex[2 * i + 1])
}

proof fn lemma_digest(hex: Seq<char>)
    requires
        is_digits(hex),
    ensures
        file::digest_of(hex) is Ok,
        is_written(file::digest_of(hex)->Ok_0, hex),
{
    assert forall|i: int| 0 <= i < hex.len() implies digest::hex_value(#[trigger] hex[i])
        is Some by {}
    let d = digest::hex_bytes(hex);
    assert forall|i: int| 0 <= i < 16 implies #[trigger] d[i] == 16 * digit(hex[2 * i]) + digit(
        hex[2 * i + 1],
    ) by {
        assert(digest::hex_value(hex[2 * i])->0 == digit(hex[2 * i]));
        assert(digest::hex_value(hex[2 * i + 1])->0 == digit(hex[2 * i + 1]));
    }
}

proof fn lemma_trim_start_gap(gap: Seq<char>, s: Seq<char>)
    requires
        is_gap(gap),
        s.len() > 0,
        !text::is_space(s[0]),
    ensures
        text::trim_start(gap + s) == s,
    decreases gap.len(),
{
    if gap.len() == 0 {
        assert(gap + s =~= s);
    } else {
        let rest = gap.drop_first();
        assert forall|i: int| 0 <= i < rest.len() implies text::is_space(#[trigger] rest[i]) by {
            assert(rest[i] == gap[i + 1]);
        }
        assert(!rest.contains('\n')) by {
            if rest.contains('\n') {
                let i = choose|i: int| 0 <= i < rest.len() && rest[i] == '\n';
                assert(gap[i + 1] == '\n');
            }
        }
        lemma_trim_start_gap(rest, s);
        assert((gap + s).drop_first() =~= rest + s);
        assert((gap + s)[0] == gap[0]);
    }
}

proof fn lemma_trim_end_gap(s: Seq<char>, gap: Seq<char>)
    requires
        is_gap(gap),
        s.len() > 0,
        !text::is_space(s.last()),
    ensures
        text::trim_end(s + gap) == s,
    decreases gap.len(),
{
    if gap.len() == 0 {
        assert(s + gap =~= s);
    } else {
        let rest = gap.drop_last();
        assert forall|i: int| 0 <= i < rest.len() implies text::is_space(#[trigger] rest[i]) by {
            assert(rest[i] == gap[i]);
        }
        assert(!rest.contains('\n')) by {
            if rest.contains('\n') {
                let i = choose|i: int| 0 <= i < rest.len() && rest[i] == '\n';
                assert(gap[i] == '\n');
            }
        }
        lemma_trim_end_gap(s, rest);
        assert((s + gap).drop_last() =~= s + rest);
        assert((s + gap).last() == gap[gap.len() - 1]);
    }
}

pub proof fn lemma_trim(gap: Seq<char>, s: Seq<char>, after: Seq<char>)
    requires
        is_gap(gap),
        is_gap(after),
        s.len() > 0,
        !text::is_space(s[0]),
        !text::is_space(s.last()),
    ensures
        text::trim(gap + s + after) == s,
{
    assert(gap + s + after =~= gap + (s + after));
    assert((s + after)[0] == s[0]);
    lemma_trim_start_gap(gap, s + after);
    lemma_trim_end_gap(s, after);
}

/// One line after others: what it holds is added, what says nothing adds nothing, and what is
/// wrong is named by its place.
proof fn lemma_after(kind: ChecksumKind, s: Seq<char>, line: Seq<char>)
    requires
        s.len() == 0 || s.last() == '\n',
        !line.contains('\n'),
        file::parsed(kind, s) is Ok,
    ensures
        ({
            let clean = file::cleaned(line);
            let had = file::parsed(kind, s)->Ok_0;
            let r = file::parsed(kind, s + line.push('\n'));
            if file::is_comment(clean) {
                r == Read::Ok(had)
            } else {
                match file::entry_line(kind, clean) {
                    Ok(e) => r == Read::Ok(had.push(e)),
                    Err(d) => r == Read::Err((text::lines(s).len() as int, d)),
                }
            }
        }),
{
    text::lemma_lines_push(s, line);
    let stored = text::without_cr(line);
    file::lemma_cleaned_without_cr(line);
    let clean = file::cleaned(line);
    let none = Seq::<Sum>::empty();
    if file::is_comment(clean) || file::entry_line(kind, clean) is Ok {
        file::lemma_lines_grow(kind, text::lines(s), 0, none, stored);
    } else {
        lemma_fails(kind, text::lines(s), 0, none, stored);
    }
}

proof fn lemma_fails(
    kind: ChecksumKind,
    lines: Seq<Seq<char>>,
    k: int,
    entries: Seq<Sum>,
    line: Seq<char>,
)
    requires
        0 <= k <= lines.len(),
        file::lines_sums(kind, lines, k, entries) is Ok,
        !file::is_comment(file::cleaned(line)),
        file::entry_line(kind, file::cleaned(line)) is Err,
    ensures
        file::lines_sums(kind, lines.push(line), k, entries) == Read::Err(
            (lines.len() as int, file::entry_line(kind, file::cleaned(line))->Err_0),
        ),
    decreases lines.len() - k,
{
    let more = lines.push(line);
    if k < lines.len() {
        assert(more[k] == lines[k]);
        let at = file::cleaned(lines[k]);
        if file::is_comment(at) {
            lemma_fails(kind, lines, k + 1, entries, line);
        } else {
            let got = file::entry_line(kind, at)->Ok_0;
            lemma_fails(kind, lines, k + 1, entries.push(got), line);
        }
    } else {
        assert(more[k] == line);
    }
}

/// After whatever a file holds, a line of digits, white space, maybe a star, and a name is
/// read as the entry of that name, with the bytes that the digits write down. This is what
/// `md5sum` writes for text and for binary files.
pub proof fn law_md5sum_line_is_read(
    kind: ChecksumKind,
    s: Seq<char>,
    hex: Seq<char>,
    gap: Seq<char>,
    star: bool,
    name: Seq<char>,
    after: Seq<char>,
)
    requires
        !(kind is Ffp),
        s.len() == 0 || s.last() == '\n',
        file::parsed(kind, s) is Ok,
        is_digits(hex),
        gap.len() > 0,
        is_gap(gap),
        is_gap(after),
        is_name(name),
        star || name[0] != '*',
    ensures
        ({
            let line = hex + gap + (if star {
                seq!['*']
            } else {
                Seq::empty()
            }) + name + after;
            file::parsed(kind, s + line.push('\n')) matches Ok(entries) && {
                &&& entries.len() == file::parsed(kind, s)->Ok_0.len() + 1
                &&& entries.drop_last() == file::parsed(kind, s)->Ok_0
                &&& entries.last().0 == name
                &&& is_written(entries.last().1, hex)
            }
        }),
{
    let mark = if star {
        seq!['*']
    } else {
        Seq::<char>::empty()
    };
    let line = hex + gap + mark + name + after;
    let core = hex + gap + mark + name;
    let none = Seq::<char>::empty();
    let n = hex.len() as int;
    assert(core[0] == hex[0]);
    assert(core.last() == name.last());
    assert(!text::is_space(hex[0]) && hex[0] != '\u{feff}' && hex[0] != ';' && hex[0] != '#');
    assert(line[0] == hex[0]);
    assert(none + core + after =~= line);
    lemma_trim(none, core, after);
    assert(file::cleaned(line) == core);
    assert(!line.contains('\n')) by {
        if line.contains('\n') {
            let i = choose|i: int| 0 <= i < line.len() && line[i] == '\n';
            if i < n {
                assert(line[i] == hex[i]);
            } else if i < n + gap.len() {
                assert(gap[i - n] == '\n');
            } else if i >= n + gap.len() + mark.len() + name.len() {
                assert(after[i - n - gap.len() - mark.len() - name.len()] == '\n');
            } else if i >= n + gap.len() + mark.len() {
                assert(name[i - n - gap.len() - mark.len()] == '\n');
            } else {
                assert(line[i] == '*');
            }
        }
    }
    assert forall|k: int| 0 <= k < n implies !text::is_space(#[trigger] core[k]) by {
        assert(core[k] == hex[k]);
    }
    assert(core[n] == gap[0]);
    file::lemma_first_space_at(core, 0, n);
    assert(core.take(n) =~= hex);
    lemma_trim(none, hex, none);
    assert(none + hex + none =~= hex);
    let rest = core.skip(n + 1);
    let space = gap.drop_first();
    assert(is_gap(space)) by {
        assert forall|i: int| 0 <= i < space.len() implies text::is_space(#[trigger] space[i]) by {
            assert(space[i] == gap[i + 1]);
        }
        if space.contains('\n') {
            let i = choose|i: int| 0 <= i < space.len() && space[i] == '\n';
            assert(gap[i + 1] == '\n');
        }
    }
    assert(rest =~= space + (mark + name));
    assert((mark + name)[0] == if star {
        '*'
    } else {
        name[0]
    });
    lemma_trim_start_gap(space, mark + name);
    assert(file::without_star(mark + name) =~= name);
    lemma_trim(none, name, none);
    assert(none + name + none =~= name);
    lemma_digest(hex);
    lemma_after(kind, s, line);
    let had = file::parsed(kind, s)->Ok_0;
    let e = file::entry_line(kind, core)->Ok_0;
    assert(had.push(e).drop_last() =~= had);
}

/// After whatever a file holds, a line of a name, a colon and digits, with or without white
/// space about them, is read as the entry of that name, though the name holds colons.
pub proof fn law_ffp_line_is_read(
    s: Seq<char>,
    name: Seq<char>,
    before: Seq<char>,
    gap: Seq<char>,
    hex: Seq<char>,
    after: Seq<char>,
)
    requires
        s.len() == 0 || s.last() == '\n',
        file::parsed(ChecksumKind::Ffp, s) is Ok,
        is_digits(hex),
        is_gap(before),
        is_gap(gap),
        is_gap(after),
        is_name(name),
        name[0] != ';' && name[0] != '#' && name[0] != '\u{feff}',
    ensures
        ({
            let line = name + before + seq![':'] + gap + hex + after;
            file::parsed(ChecksumKind::Ffp, s + line.push('\n')) matches Ok(entries) && {
                &&& entries.len() == file::parsed(ChecksumKind::Ffp, s)->Ok_0.len() + 1
                &&& entries.drop_last() == file::parsed(ChecksumKind::Ffp, s)->Ok_0
                &&& entries.last().0 == name
                &&& is_written(entries.last().1, hex)
            }
        }),
{
    let kind = ChecksumKind::Ffp;
    let line = name + before + seq![':'] + gap + hex + after;
    let core = name + before + seq![':'] + gap + hex;
    let none = Seq::<char>::empty();
    let n = name.len() + before.len();
    assert(core[0] == name[0]);
    assert(core.last() == hex.last());
    assert(!text::is_space(hex[31]));
    assert(none + core + after =~= line);
    assert(line[0] == name[0]);
    lemma_trim(none, core, after);
    assert(file::cleaned(line) == core);
    assert(!line.contains('\n')) by {
        if line.contains('\n') {
            let i = choose|i: int| 0 <= i < line.len() && line[i] == '\n';
            if i < name.len() {
                assert(name[i] == '\n');
            } else if i < n {
                assert(before[i - name.len()] == '\n');
            } else if i == n {
                assert(line[i] == ':');
            } else if i < n + 1 + gap.len() {
                assert(gap[i - n - 1] == '\n');
            } else if i < n + 1 + gap.len() + hex.len() {
                assert(line[i] == hex[i - n - 1 - gap.len()]);
            } else {
                assert(after[i - n - 1 - gap.len() - hex.len()] == '\n');
            }
        }
    }
    let tail = gap + hex;
    assert(!tail.contains(':')) by {
        if tail.contains(':') {
            let i = choose|i: int| 0 <= i < tail.len() && tail[i] == ':';
            if i < gap.len() {
                assert(text::is_space(gap[i]));
            } else {
                assert(tail[i] == hex[i - gap.len()]);
            }
        }
    }
    assert(core =~= (name + before).push(':') + tail);
    text::lemma_last_at_is(name + before, ':', tail);
    assert(core.take(n as int) =~= none + name + before);
    lemma_trim(none, name, before);
    assert(core.skip(n as int + 1) =~= gap + hex + none);
    lemma_trim(gap, hex, none);
    lemma_digest(hex);
    lemma_after(kind, s, line);
    let had = file::parsed(kind, s)->Ok_0;
    let e = file::entry_line(kind, core)->Ok_0;
    assert(had.push(e).drop_last() =~= had);
}

/// A blank line, and one that begins with `;` or `#`, whatever follows, add nothing.
pub proof fn law_comments_say_nothing(
    kind: ChecksumKind,
    s: Seq<char>,
    gap: Seq<char>,
    mark: char,
    words: Seq<char>,
)
    requires
        s.len() == 0 || s.last() == '\n',
        file::parsed(kind, s) is Ok,
        is_gap(gap),
        mark == ';' || mark == '#',
        !words.contains('\n'),
    ensures
        file::parsed(kind, s + gap.push('\n')) == file::parsed(kind, s),
        file::parsed(kind, s + (gap.push(mark) + words).push('\n')) == file::parsed(kind, s),
{
    let none = Seq::<char>::empty();
    lemma_all_gap(gap);
    assert(gap.len() > 0 ==> text::is_space(gap[0]));
    assert(file::cleaned(gap) == none);
    lemma_after(kind, s, gap);
    let line = gap.push(mark) + words;
    assert(line =~= gap + (seq![mark] + words));
    assert(gap.len() > 0 ==> line[0] == gap[0]);
    assert(file::without_bom(line) == line);
    lemma_trim_start_gap(gap, seq![mark] + words);
    lemma_trim_end_keeps(seq![mark] + words);
    assert(!line.contains('\n')) by {
        if line.contains('\n') {
            let i = choose|i: int| 0 <= i < line.len() && line[i] == '\n';
            if i < gap.len() {
                assert(gap[i] == '\n');
            } else if i > gap.len() {
                assert(words[i - gap.len() - 1] == '\n');
            }
        }
    }
    lemma_after(kind, s, line);
}

proof fn lemma_all_gap(gap: Seq<char>)
    requires
        is_gap(gap),
    ensures
        text::trim_start(gap) == Seq::<char>::empty(),
    decreases gap.len(),
{
    if gap.len() > 0 {
        let rest = gap.drop_first();
        assert forall|i: int| 0 <= i < rest.len() implies text::is_space(#[trigger] rest[i]) by {
            assert(rest[i] == gap[i + 1]);
        }
        assert(!rest.contains('\n')) by {
            if rest.contains('\n') {
                let i = choose|i: int| 0 <= i < rest.len() && rest[i] == '\n';
                assert(gap[i + 1] == '\n');
            }
        }
        lemma_all_gap(rest);
    } else {
        assert(gap =~= Seq::<char>::empty());
    }
}

proof fn lemma_trim_end_keeps(s: Seq<char>)
    requires
        s.len() > 0,
        !text::is_space(s[0]),
    ensures
        text::trim_end(s).len() > 0,
        text::trim_end(s)[0] == s[0],
    decreases s.len(),
{
    if text::is_space(s.last()) {
        assert(s.drop_last()[0] == s[0]);
        lemma_trim_end_keeps(s.drop_last());
    }
}

/// A line that says something and has no separator is an error that names its line.
pub proof fn law_bad_line_is_named(kind: ChecksumKind, s: Seq<char>, line: Seq<char>)
    requires
        s.len() == 0 || s.last() == '\n',
        file::parsed(kind, s) is Ok,
        is_name(line),
        line[0] != ';' && line[0] != '#' && line[0] != '\u{feff}',
        kind is Ffp ==> !line.contains(':'),
        !(kind is Ffp) ==> forall|i: int| 0 <= i < line.len() ==> !text::is_space(#[trigger] line[i]),
    ensures
        file::parsed(kind, s + line.push('\n')) matches Err((k, _)) && k == text::lines(s).len(),
{
    let none = Seq::<char>::empty();
    lemma_trim(none, line, none);
    assert(none + line + none =~= line);
    if kind is Ffp {
        text::lemma_last_at(line, ':');
        if text::last_at(line, ':') >= 0 {
            assert(line[text::last_at(line, ':')] == ':');
        }
    } else {
        lemma_no_space(line, 0);
    }
    lemma_after(kind, s, line);
}

proof fn lemma_no_space(s: Seq<char>, i: int)
    requires
        0 <= i <= s.len(),
        forall|k: int| 0 <= k < s.len() ==> !text::is_space(#[trigger] s[k]),
    ensures
        file::first_space(s, i) == s.len(),
    decreases s.len() - i,
{
    if i < s.len() {
        lemma_no_space(s, i + 1);
    }
}

/// What is written is a line for each file in order: the name, a colon and the digest in a
/// fingerprint file, and the digest, two spaces and the name in the others.
pub proof fn law_lines_are_written(kind: ChecksumKind, had: Seq<Sum>, name: Seq<char>, d: Seq<u8>)
    ensures
        file::rendered(kind, Seq::<Sum>::empty()) == Seq::<char>::empty(),
        kind is Ffp ==> file::rendered(kind, had.push((name, d))) == file::rendered(kind, had)
            + name + seq![':'] + digest::hex_text(d) + seq!['\n'],
        kind is Md5 || kind is St5 ==> file::rendered(kind, had.push((name, d)))
            == file::rendered(kind, had) + digest::hex_text(d) + seq![' ', ' '] + name + seq!['\n'],
{
    let all = had.push((name, d));
    let hex = digest::hex_text(d);
    let front = file::rendered(kind, had);
    assert(all.drop_last() =~= had);
    reveal_strlit(":");
    reveal_strlit("  ");
    assert(":"@ =~= seq![':']);
    assert("  "@ =~= seq![' ', ' ']);
    if kind is Ffp {
        assert(file::rendered(kind, all) =~= front + name + seq![':'] + hex + seq!['\n']);
    } else {
        assert(file::rendered(kind, all) =~= front + hex + seq![' ', ' '] + name + seq!['\n']);
    }
}

} // verus!
