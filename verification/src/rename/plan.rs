//! Planning: pure arithmetic over names already in memory, so that it can be recomputed on
//! every keystroke of a live preview.

use crate::etree;
use crate::etree::{ShowDate, TrackName, TrackParts, YearForm};
use crate::path;
use crate::path::{name_or_empty, same_path, with_file_name};
use crate::text;
use crate::text::{chars_of, find_last, slice_of};
use vstd::prelude::*;

verus! {

/// What a rename should turn a set into. One value for the whole run: a flat folder that
/// holds two discs gets one `disc` value applied to every file in it.
#[derive(Debug, Clone)]
pub struct NameSpec {
    pub band: String,
    pub date: ShowDate,
    /// `77-05-08` instead of `1977-05-08`.
    pub short_year: bool,
    pub disc: Option<u32>,
    /// Carry a file's existing title suffix (`bertha` in `gd...t01bertha.shn`) forward. A
    /// file whose current name is not an etree name has no suffix to carry either way.
    pub keep_suffix: bool,
}

impl NameSpec {
    pub open spec fn form(&self) -> YearForm {
        if self.short_year {
            YearForm::Short
        } else {
            YearForm::Long
        }
    }

    fn year_form(&self) -> (f: YearForm)
        ensures
            f == self.form(),
    {
        if self.short_year {
            YearForm::Short
        } else {
            YearForm::Long
        }
    }
}

/// What would happen to one file.
#[derive(Debug, Clone, Copy, PartialEq, Eq, Structural)]
pub enum RenameStatus {
    /// The computed name is the name it already has.
    Unchanged,
    Changed,
    /// Another file in this same plan computed to the identical name. The whole plan is
    /// refused rather than picking between them.
    Collision,
}

/// One file's row in a plan: where it is, where it would go, and why.
#[derive(Debug, Clone, PartialEq, Eq)]
pub struct RenameEntry {
    pub from: String,
    pub to: String,
    pub status: RenameStatus,
}

/// A whole set's plan, in the order it was given.
#[derive(Debug, Clone)]
pub struct RenamePlan {
    pub entries: Vec<RenameEntry>,
}

impl Default for RenamePlan {
    fn default() -> (p: RenamePlan)
        ensures
            p.entries@.len() == 0,
    {
        RenamePlan { entries: Vec::new() }
    }
}

impl RenamePlan {
    pub open spec fn collides(&self) -> bool {
        exists|i: int|
            0 <= i < self.entries@.len() && (#[trigger] self.entries@[i]).status
                == RenameStatus::Collision
    }

    pub fn has_collisions(&self) -> (b: bool)
        ensures
            b == self.collides(),
    {
        let mut i: usize = 0;
        while i < self.entries.len()
            invariant
                i <= self.entries.len(),
                forall|k: int|
                    0 <= k < i ==> (#[trigger] self.entries@[k]).status
                        != RenameStatus::Collision,
            decreases self.entries.len() - i,
        {
            if self.entries[i].status == RenameStatus::Collision {
                return true;
            }
            i += 1;
        }
        false
    }
}

/// What stands behind the last dot of a name.
pub open spec fn ending(name: Seq<char>) -> Seq<char> {
    if text::last_at(name, '.') < 0 {
        Seq::empty()
    } else {
        name.skip(text::last_at(name, '.') + 1)
    }
}

/// The suffix that is carried forward.
pub open spec fn kept_suffix(name: Seq<char>, spec: NameSpec) -> Option<Seq<char>> {
    if spec.keep_suffix {
        match etree::parse_track(name) {
            Some(t) => t.suffix,
            None => None,
        }
    } else {
        None
    }
}

/// The name that a file gets at this place in the set.
pub open spec fn target_name(from: Seq<char>, spec: NameSpec, track: u32) -> TrackParts {
    let name = path::name_of(from);
    TrackParts {
        band: spec.band@,
        date: spec.date,
        year_form: spec.form(),
        disc: spec.disc,
        track,
        suffix: kept_suffix(name, spec),
        ext: ending(name),
    }
}

/// Where a file goes: beside where it is, with its own extension. Only the name changes.
pub open spec fn target(from: Seq<char>, spec: NameSpec, track: u32) -> Seq<char> {
    path::with_name(from, etree::track_text(target_name(from, spec, track)))
}

fn target_path(from: &str, spec: &NameSpec, track: u32) -> (to: String)
    ensures
        to@ == target(from@, *spec, track),
{
    let name = name_or_empty(from);
    let v = chars_of(&name);
    let ext = match find_last(&v, '.') {
        Some(i) => {
            let e = slice_of(&v, i + 1, v.len());
            assert(e@ =~= v@.skip(i + 1));
            e
        },
        None => String::new(),
    };
    let suffix: Option<String> = if spec.keep_suffix {
        match TrackName::parse(&name) {
            Some(t) => t.suffix,
            None => None,
        }
    } else {
        None
    };
    let new = TrackName {
        band: spec.band.clone(),
        date: spec.date,
        year_form: spec.year_form(),
        disc: spec.disc,
        track,
        suffix,
        ext,
    };
    assert(new@ == target_name(from@, *spec, track));
    with_file_name(from, &new.render())
}

/// Where file `i` goes.
pub open spec fn target_of(files: Seq<String>, spec: NameSpec, i: int) -> Seq<char> {
    target(files[i]@, spec, (i + 1) as u32)
}

/// Another file of the set goes to the same place as file `i`.
pub open spec fn is_shared(files: Seq<String>, spec: NameSpec, i: int) -> bool {
    exists|j: int|
        0 <= j < files.len() && j != i && path::same(
            target_of(files, spec, i),
            #[trigger] target_of(files, spec, j),
        )
}

pub open spec fn status_of(files: Seq<String>, spec: NameSpec, i: int) -> RenameStatus {
    if is_shared(files, spec, i) {
        RenameStatus::Collision
    } else if path::same(target_of(files, spec, i), files[i]@) {
        RenameStatus::Unchanged
    } else {
        RenameStatus::Changed
    }
}

/// Computes a [`RenamePlan`] for `files`, taken in the order given. The track number is
/// always `1 + position`; nothing about a file's current name is consulted for it.
pub fn plan_rename(files: &[String], spec: &NameSpec) -> (plan: RenamePlan)
    requires
        files.len() <= u32::MAX,
    ensures
        plan.entries.len() == files.len(),
        forall|i: int|
            0 <= i < files.len() ==> {
                let e = #[trigger] plan.entries@[i];
                &&& e.from@ == files@[i]@
                &&& e.to@ == target_of(files@, *spec, i)
                &&& e.status == status_of(files@, *spec, i)
            },
{
    let mut targets: Vec<String> = Vec::new();
    let mut i: usize = 0;
    while i < files.len()
        invariant
            i <= files.len(),
            files.len() <= u32::MAX,
            targets.len() == i,
            forall|k: int| 0 <= k < i ==> (#[trigger] targets@[k])@ == target_of(files@, *spec, k),
        decreases files.len() - i,
    {
        targets.push(target_path(&files[i], spec, i as u32 + 1));
        i += 1;
    }
    let mut entries: Vec<RenameEntry> = Vec::new();
    let mut i: usize = 0;
    while i < files.len()
        invariant
            i <= files.len(),
            targets.len() == files.len(),
            forall|k: int|
                0 <= k < files.len() ==> (#[trigger] targets@[k])@ == target_of(files@, *spec, k),
            entries.len() == i,
            forall|k: int|
                0 <= k < i ==> {
                    let e = #[trigger] entries@[k];
                    &&& e.from@ == files@[k]@
                    &&& e.to@ == target_of(files@, *spec, k)
                    &&& e.status == status_of(files@, *spec, k)
                },
        decreases files.len() - i,
    {
        let mut shared = false;
        let mut j: usize = 0;
        while j < files.len()
            invariant
                i < files.len(),
                j <= files.len(),
                targets.len() == files.len(),
                forall|k: int|
                    0 <= k < files.len() ==> (#[trigger] targets@[k])@ == target_of(
                        files@,
                        *spec,
                        k,
                    ),
                shared == (exists|k: int|
                    0 <= k < j && k != i && path::same(
                        target_of(files@, *spec, i as int),
                        #[trigger] target_of(files@, *spec, k),
                    )),
            decreases files.len() - j,
        {
            assert(targets@[j as int]@ == target_of(files@, *spec, j as int));
            if j != i && same_path(&targets[i], &targets[j]) {
                shared = true;
            }
            j += 1;
        }
        let status = if shared {
            RenameStatus::Collision
        } else if same_path(&targets[i], &files[i]) {
            RenameStatus::Unchanged
        } else {
            RenameStatus::Changed
        };
        entries.push(RenameEntry { from: files[i].clone(), to: targets[i].clone(), status });
        i += 1;
    }
    RenamePlan { entries }
}

/// The part of a name before the track number.
spec fn before_track(t: TrackParts) -> Seq<char> {
    t.band + etree::date_text(t.date, t.year_form) + etree::disc_text(t.disc) + seq!['t']
}

/// A suffix that was read does not begin with a digit, nor hold a separator.
proof fn lemma_read_suffix(name: Seq<char>)
    requires
        forall|i: int| 0 <= i < name.len() ==> #[trigger] name[i] != '/',
    ensures
        etree::parse_track(name) matches Some(t) ==> (t.suffix matches Some(s) ==> s.len() > 0
            && !text::is_digit(s[0]) && (forall|i: int| 0 <= i < s.len() ==> #[trigger] s[i] != '/')),
{
    if let Some(t) = etree::parse_track(name) {
        let dot = text::last_at(name, '.');
        text::lemma_last_at(name, '.');
        let stem = name.take(dot);
        etree::lemma_found_date(stem, 0);
        let (start, dash) = etree::find_date(stem, 0)->0;
        let rest = stem.skip(dash + 6);
        etree::lemma_numbers_suffix(rest);
        let (_, _, suffix) = etree::parse_numbers(rest)->0;
        assert forall|i: int| 0 <= i < suffix.len() implies #[trigger] suffix[i] != '/' by {
            let k = rest.len() - suffix.len() + i;
            assert(suffix[i] == rest[k]);
            assert(rest[k] == name[dash + 6 + k]);
        }
    }
}

proof fn lemma_name_has_no_separator(p: Seq<char>)
    ensures
        forall|i: int| 0 <= i < path::name_of(p).len() ==> #[trigger] path::name_of(p)[i] != '/',
{
    let q = path::bare(p);
    text::lemma_last_at(q, '/');
    let n = path::last_component(p);
    assert forall|i: int| 0 <= i < n.len() implies #[trigger] n[i] != '/' by {
        assert(n[i] == q[text::last_at(q, '/') + 1 + i]);
    }
}

/// What follows the track number in a target's name, and where it lies: no digit first, no
/// separator anywhere.
proof fn lemma_target_parts(from: Seq<char>, spec: NameSpec, track: u32)
    ensures
        ({
            let t = target_name(from, spec, track);
            let after = etree::suffix_text(t.suffix).push('.') + t.ext;
            &&& etree::track_text(t) == before_track(t) + text::padded(track as nat, 2) + after
            &&& !text::is_digit(after[0])
            &&& forall|i: int| 0 <= i < after.len() ==> #[trigger] after[i] != '/'
        }),
{
    let name = path::name_of(from);
    let t = target_name(from, spec, track);
    let suffix = etree::suffix_text(t.suffix);
    let after = suffix.push('.') + t.ext;
    lemma_name_has_no_separator(from);
    lemma_read_suffix(name);
    text::lemma_last_at(name, '.');
    assert(etree::track_text(t) =~= before_track(t) + text::padded(track as nat, 2) + after);
    assert forall|i: int| 0 <= i < after.len() implies #[trigger] after[i] != '/' by {
        if i < suffix.len() {
            assert(after[i] == suffix[i]);
        } else if i > suffix.len() {
            let k = i - suffix.len() - 1;
            assert(after[i] == t.ext[k]);
            assert(t.ext[k] == name[text::last_at(name, '.') + 1 + k]);
        }
    }
}

/// Two texts of digits that something else follows are the same where the whole is.
proof fn lemma_digits_cut_alike(a: Seq<char>, x: Seq<char>, b: Seq<char>, y: Seq<char>)
    requires
        text::all_digits(a),
        text::all_digits(b),
        x.len() > 0,
        y.len() > 0,
        !text::is_digit(x[0]),
        !text::is_digit(y[0]),
        a + x == b + y,
    ensures
        a == b,
{
    let s = a + x;
    if a.len() < b.len() {
        assert(s[a.len() as int] == x[0]);
        assert((b + y)[a.len() as int] == b[a.len() as int]);
        assert(false);
    }
    if b.len() < a.len() {
        assert((b + y)[b.len() as int] == y[0]);
        assert(s[b.len() as int] == a[b.len() as int]);
        assert(false);
    }
    assert forall|i: int| 0 <= i < a.len() implies #[trigger] a[i] == b[i] by {
        assert(s[i] == a[i]);
        assert((b + y)[i] == b[i]);
    }
    assert(a =~= b);
}

/// The last part of a target's name: what follows the last separator before the track
/// number.
proof fn lemma_target_last_part(from: Seq<char>, spec: NameSpec, track: u32)
    ensures
        ({
            let t = target_name(from, spec, track);
            let head = before_track(t);
            let after = etree::suffix_text(t.suffix).push('.') + t.ext;
            let name = etree::track_text(t);
            &&& text::last_at(name, '/') == text::last_at(head, '/')
            &&& path::last_part(name) == path::last_part(head) + text::padded(track as nat, 2)
                + after
            &&& path::is_name(path::last_part(name))
            &&& path::last_part(head).len() > 0
        }),
{
    let t = target_name(from, spec, track);
    let head = before_track(t);
    let digits = text::padded(track as nat, 2);
    let after = etree::suffix_text(t.suffix).push('.') + t.ext;
    let name = etree::track_text(t);
    lemma_target_parts(from, spec, track);
    text::lemma_padded(track as nat, 2);
    text::lemma_last_at(head, '/');
    let i = text::last_at(head, '/');
    let tail = head.skip(i + 1);
    assert(head.last() == 't');
    let whole = tail + digits + after;
    assert forall|k: int| 0 <= k < whole.len() implies #[trigger] whole[k] != '/' by {
        if k < tail.len() {
            assert(whole[k] == head[i + 1 + k]);
        } else if k < tail.len() + digits.len() {
            assert(whole[k] == digits[k - tail.len()]);
            assert(text::is_digit(digits[k - tail.len()]));
        } else {
            assert(whole[k] == after[k - tail.len() - digits.len()]);
        }
    }
    if i >= 0 {
        assert(name =~= head.take(i).push('/') + whole);
        text::lemma_last_at_is(head.take(i), '/', whole);
    } else {
        assert(name =~= whole);
        lemma_no_last(name, '/');
    }
    assert(path::last_part(name) =~= whole);
    assert(tail.last() == 't');
    assert(whole.len() >= 4);
}

proof fn lemma_no_last(s: Seq<char>, c: char)
    requires
        forall|i: int| 0 <= i < s.len() ==> #[trigger] s[i] != c,
    ensures
        text::last_at(s, c) == -1,
{
    text::lemma_last_at(s, c);
    if text::last_at(s, c) >= 0 {
        assert(s[text::last_at(s, c)] != c);
    }
}

/// A plan never collides: distinct positions carry distinct track numbers, and so distinct
/// names.
pub proof fn law_plan_never_collides(files: Seq<String>, spec: NameSpec, i: int)
    requires
        files.len() <= u32::MAX,
        0 <= i < files.len(),
    ensures
        !is_shared(files, spec, i),
        status_of(files, spec, i) != RenameStatus::Collision,
{
    assert forall|j: int| 0 <= j < files.len() && j != i implies !path::same(
        target_of(files, spec, i),
        #[trigger] target_of(files, spec, j),
    ) by {
        lemma_targets_differ(files, spec, i, j);
    }
}

proof fn lemma_targets_differ(files: Seq<String>, spec: NameSpec, i: int, j: int)
    requires
        files.len() <= u32::MAX,
        0 <= i < files.len(),
        0 <= j < files.len(),
        i != j,
    ensures
        !path::same(target_of(files, spec, i), target_of(files, spec, j)),
{
    let a = target_of(files, spec, i);
    let b = target_of(files, spec, j);
    if path::same(a, b) {
        let ti = target_name(files[i]@, spec, (i + 1) as u32);
        let tj = target_name(files[j]@, spec, (j + 1) as u32);
        lemma_target_ends(files[i]@, spec, (i + 1) as u32);
        lemma_target_ends(files[j]@, spec, (j + 1) as u32);
        lemma_target_last_part(files[i]@, spec, (i + 1) as u32);
        lemma_target_last_part(files[j]@, spec, (j + 1) as u32);
        lemma_target_parts(files[i]@, spec, (i + 1) as u32);
        lemma_target_parts(files[j]@, spec, (j + 1) as u32);
        let head = path::last_part(before_track(ti));
        assert(before_track(ti) == before_track(tj));
        let di = text::padded((i + 1) as nat, 2);
        let dj = text::padded((j + 1) as nat, 2);
        let xi = etree::suffix_text(ti.suffix).push('.') + ti.ext;
        let xj = etree::suffix_text(tj.suffix).push('.') + tj.ext;
        assert(head + di + xi == head + dj + xj);
        assert((head + di + xi).skip(head.len() as int) =~= di + xi);
        assert((head + dj + xj).skip(head.len() as int) =~= dj + xj);
        text::lemma_padded((i + 1) as nat, 2);
        text::lemma_padded((j + 1) as nat, 2);
        lemma_digits_cut_alike(di, xi, dj, xj);
        assert(false);
    }
}

/// The last step of a target is the last part of its name.
proof fn lemma_target_ends(from: Seq<char>, spec: NameSpec, track: u32)
    ensures
        ({
            let name = etree::track_text(target_name(from, spec, track));
            let to = target(from, spec, track);
            &&& path::steps(to).len() > 0
            &&& path::steps(to).last() == path::last_part(name)
        }),
{
    let name = etree::track_text(target_name(from, spec, track));
    lemma_target_last_part(from, spec, track);
    let dir = match path::file_name(from) {
        Some(_) => match path::parent(from) {
            Some(d) => d,
            None => from,
        },
        None => from,
    };
    assert(target(from, spec, track) == path::join(dir, name));
    path::lemma_join_last_part(dir, name);
    path::lemma_last_step(path::join(dir, name));
}

/// Where no suffix is kept, the name of a target ends in what its file's name ended in.
pub proof fn lemma_target_name(from: Seq<char>, spec: NameSpec, track: u32)
    requires
        !spec.band@.contains('/'),
    ensures
        ({
            let name = etree::track_text(target_name(from, spec, track));
            &&& path::is_name(name)
            &&& !name.contains('/')
            &&& ending(name) == ending(path::name_of(from))
        }),
{
    let t = target_name(from, spec, track);
    let name = etree::track_text(t);
    lemma_target_last_part(from, spec, track);
    let head = before_track(t);
    let date = etree::date_text(t.date, t.year_form);
    let disc = etree::disc_text(t.disc);
    text::lemma_padded(t.date.year as nat, 4);
    text::lemma_padded(t.date.year as nat % 100, 2);
    text::lemma_padded(t.date.month as nat, 2);
    text::lemma_padded(t.date.day as nat, 2);
    if t.disc is Some {
        text::lemma_decimal(t.disc->0 as nat);
    }
    assert forall|i: int| 0 <= i < date.len() implies #[trigger] date[i] != '/' by {
        let year = match t.year_form {
            YearForm::Long => text::padded(t.date.year as nat, 4),
            YearForm::Short => text::padded(t.date.year as nat % 100, 2),
        };
        let month = text::padded(t.date.month as nat, 2);
        let day = text::padded(t.date.day as nat, 2);
        if i < year.len() {
            assert(date[i] == year[i]);
        } else if year.len() < i < year.len() + 1 + month.len() {
            assert(date[i] == month[i - year.len() - 1]);
        } else if i > year.len() + 1 + month.len() {
            assert(date[i] == day[i - year.len() - month.len() - 2]);
        }
    }
    assert forall|i: int| 0 <= i < head.len() implies #[trigger] head[i] != '/' by {
        if i < t.band.len() {
            assert(head[i] == t.band[i]);
            assert(t.band.contains(t.band[i]));
        } else if i < t.band.len() + date.len() {
            assert(head[i] == date[i - t.band.len()]);
        } else if i < t.band.len() + date.len() + disc.len() {
            let k = i - t.band.len() - date.len();
            assert(head[i] == disc[k]);
            if k > 0 {
                assert(disc[k] == text::decimal(t.disc->0 as nat)[k - 1]);
            }
        }
    }
    lemma_no_last(head, '/');
    assert(name.skip(0) =~= name);
    text::lemma_last_at(name, '/');
    let stem = etree::track_stem(t);
    let from_name = path::name_of(from);
    text::lemma_last_at(from_name, '.');
    assert forall|k: int| 0 <= k < t.ext.len() implies #[trigger] t.ext[k] != '.' by {
        assert(t.ext[k] == from_name[text::last_at(from_name, '.') + 1 + k]);
    }
    text::lemma_last_at_is(stem, '.', t.ext);
    assert(name.skip(stem.len() as int + 1) =~= t.ext);
}

/// Planning again on what a plan made changes nothing. Every file of the plan goes beside
/// where it is, with its own extension; and planned again from there, where no suffixes are
/// kept, each one is unchanged and goes to the same place.
pub proof fn law_replanning_changes_nothing(
    files: Seq<String>,
    spec: NameSpec,
    targets: Seq<String>,
    i: int,
)
    requires
        files.len() <= u32::MAX,
        !spec.keep_suffix,
        !spec.band@.contains('/'),
        forall|k: int| 0 <= k < files.len() ==> path::file_name((#[trigger] files[k])@) is Some,
        targets.len() == files.len(),
        forall|k: int|
            0 <= k < files.len() ==> (#[trigger] targets[k])@ == target_of(files, spec, k),
        0 <= i < files.len(),
    ensures
        path::parent(target_of(files, spec, i)) == path::parent(files[i]@),
        path::file_name(target_of(files, spec, i)) == Some(
            etree::track_text(target_name(files[i]@, spec, (i + 1) as u32)),
        ),
        ending(path::name_of(target_of(files, spec, i))) == ending(path::name_of(files[i]@)),
        target_of(targets, spec, i) == target_of(files, spec, i),
        status_of(targets, spec, i) == RenameStatus::Unchanged,
{
    let from = files[i]@;
    let track = (i + 1) as u32;
    let name = etree::track_text(target_name(from, spec, track));
    let to = targets[i]@;
    assert(to == target_of(files, spec, i));
    assert(path::file_name(files[i]@) is Some);
    lemma_target_name(from, spec, track);
    path::lemma_with_name(from, name);
    assert(target_name(to, spec, track) == target_name(from, spec, track));
    law_plan_never_collides(targets, spec, i);
}

} // verus!
