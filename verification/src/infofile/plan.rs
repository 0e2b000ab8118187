//! What an info file will say, and what it cannot say cleanly.

use crate::bytes;
use crate::bytes::sort_order;
use crate::display;
use crate::display::{duration_short, FLICKS};
use crate::etree;
use crate::etree::{ShowName, TrackName};
use crate::model::AudioFile;
use crate::path;
use crate::path::{extension_of, join_path, name_or_empty};
use crate::seqs;
use crate::tag;
use crate::tag::{is_taggable, Field, Tags};
use crate::text;
use crate::text::{debug_of, join_strings, lower_string, push_decimal, push_padded, same};
use vstd::prelude::*;
use vstd::string::*;

verus! {

/// The longest that a CD-R holds, 80 minutes, in [`FLICKS`].
pub const CD_MAX: u128 = 3_386_880_000_000;

/// The fields of the show that the header and the source line come from, in that order.
pub const SHOW_FIELDS: [Field; 5] = [
    Field::Artist,
    Field::Date,
    Field::Album,
    Field::Location,
    Field::Comment,
];

#[derive(Debug, Clone, PartialEq)]
pub struct Track {
    pub file_name: String,
    /// `d1t01`, or `t01` for a set without discs.
    pub label: String,
    pub disc: Option<u32>,
    pub title: Option<String>,
    /// In [`FLICKS`]. `None` when the file's header does not state its length.
    pub length: Option<u128>,
    pub is_cdda: bool,
}

/// What a track says.
pub struct TrackLine {
    pub file_name: Seq<char>,
    pub label: Seq<char>,
    pub disc: Option<u32>,
    pub title: Option<Seq<char>>,
    pub length: Option<nat>,
    pub is_cdda: bool,
}

impl View for Track {
    type V = TrackLine;

    open spec fn view(&self) -> TrackLine {
        TrackLine {
            file_name: self.file_name@,
            label: self.label@,
            disc: self.disc,
            title: tag::opt(self.title),
            length: match self.length {
                Some(n) => Some(n as nat),
                None => None,
            },
            is_cdda: self.is_cdda,
        }
    }
}

pub open spec fn lines(tracks: Seq<Track>) -> Seq<TrackLine> {
    tracks.map_values(|t: Track| t@)
}

/// Something that the info file cannot say cleanly, reported rather than papered over.
#[derive(Debug, Clone, PartialEq)]
pub enum Problem {
    MissingTitle { file: String },
    /// A field of the show that is not the same on every file. The first value is used.
    Disagrees { field: Field, values: Vec<String> },
    NoLength { file: String },
    /// A disc of CD audio (`None`: the whole set, when it has no discs) too long for a CD-R.
    TooLongForCd { disc: Option<u32>, length: u128 },
    NotFlac { file: String },
    /// Another text file in the folder, most likely an info file under another name.
    OtherTextFile { file: String },
}

/// What a problem says.
pub enum Trouble {
    MissingTitle(Seq<char>),
    Disagrees(Field, Seq<Seq<char>>),
    NoLength(Seq<char>),
    TooLongForCd(Option<u32>, nat),
    NotFlac(Seq<char>),
    OtherTextFile(Seq<char>),
}

impl View for Problem {
    type V = Trouble;

    open spec fn view(&self) -> Trouble {
        match self {
            Problem::MissingTitle { file } => Trouble::MissingTitle(file@),
            Problem::Disagrees { field, values } => Trouble::Disagrees(
                *field,
                text::views(values@),
            ),
            Problem::NoLength { file } => Trouble::NoLength(file@),
            Problem::TooLongForCd { disc, length } => Trouble::TooLongForCd(*disc, *length as nat),
            Problem::NotFlac { file } => Trouble::NotFlac(file@),
            Problem::OtherTextFile { file } => Trouble::OtherTextFile(file@),
        }
    }
}

pub open spec fn troubles(problems: Seq<Problem>) -> Seq<Trouble> {
    problems.map_values(|p: Problem| p@)
}

/// Each text in quotes.
pub open spec fn quoted(values: Seq<Seq<char>>) -> Seq<Seq<char>> {
    values.map_values(|v: Seq<char>| text::debug_text(v))
}

pub open spec fn trouble_text(t: Trouble) -> Seq<char> {
    match t {
        Trouble::MissingTitle(file) => file + " has no TITLE"@,
        Trouble::Disagrees(field, values) => field.key_text() + " differs between files ("@
            + text::join(quoted(values), ", "@) + "); using the first"@,
        Trouble::NoLength(file) => file + " does not state its length"@,
        Trouble::TooLongForCd(disc, length) => (match disc {
            Some(d) => "disc "@ + text::decimal(d as nat),
            None => "the set"@,
        }) + " runs "@ + display::short_text(length) + ", longer than an 80-minute CD-R"@,
        Trouble::NotFlac(file) => file + " is not FLAC, left out"@,
        Trouble::OtherTextFile(file) => file + " is already in the folder"@,
    }
}

/// What can be shown as a duration.
pub open spec fn showable(length: nat) -> bool {
    length <= 0xFFFF_FFFF_FFFF_FFFF * FLICKS
}

impl Problem {
    /// The one line that says it.
    pub fn to_string(&self) -> (s: String)
        requires
            self matches Problem::TooLongForCd { length, .. } ==> showable(length as nat),
        ensures
            s@ == trouble_text(self@),
    {
        match self {
            Problem::MissingTitle { file } => said(file, " has no TITLE"),
            Problem::Disagrees { field, values } => {
                let mut quotes: Vec<String> = Vec::new();
                let mut i: usize = 0;
                while i < values.len()
                    invariant
                        i <= values.len(),
                        quotes.len() == i,
                        forall|k: int|
                            0 <= k < i ==> (#[trigger] quotes@[k])@ == text::debug_text(
                                values@[k]@,
                            ),
                    decreases values.len() - i,
                {
                    quotes.push(debug_of(&values[i]));
                    i += 1;
                }
                assert(text::views(quotes@) =~= quoted(text::views(values@)));
                let mut s = field.key().to_owned();
                s.append(" differs between files (");
                s.append(&join_strings(&quotes, ", "));
                s.append("); using the first");
                s
            },
            Problem::NoLength { file } => said(file, " does not state its length"),
            Problem::TooLongForCd { disc, length } => {
                let mut s = match disc {
                    Some(d) => {
                        let mut s = "disc ".to_owned();
                        push_decimal(&mut s, *d as u64);
                        s
                    },
                    None => "the set".to_owned(),
                };
                s.append(" runs ");
                s.append(&duration_short(*length));
                s.append(", longer than an 80-minute CD-R");
                s
            },
            Problem::NotFlac { file } => said(file, " is not FLAC, left out"),
            Problem::OtherTextFile { file } => said(file, " is already in the folder"),
        }
    }
}

fn said(file: &str, what: &str) -> (s: String)
    ensures
        s@ == file@ + what@,
{
    let mut s = file.to_owned();
    s.append(what);
    s
}

#[derive(Debug, Clone, PartialEq)]
pub struct InfoPlan {
    /// Where the file goes: `<folder>/<bbyyyy-mm-dd>.txt`.
    pub path: String,
    /// The tags of the show, one value each: the first file's where they disagree.
    pub show: Tags,
    pub tracks: Vec<Track>,
    pub problems: Vec<Problem>,
}

/// Whether any track carries a disc number.
pub open spec fn some_disc(tracks: Seq<TrackLine>) -> bool {
    exists|i: int| 0 <= i < tracks.len() && (#[trigger] tracks[i]).disc is Some
}

impl InfoPlan {
    /// Whether any track carries a disc number: the only case in which disc headers are drawn.
    pub fn has_discs(&self) -> (b: bool)
        ensures
            b == some_disc(lines(self.tracks@)),
    {
        let ghost all = lines(self.tracks@);
        let mut i: usize = 0;
        while i < self.tracks.len()
            invariant
                i <= self.tracks.len(),
                all == lines(self.tracks@),
                forall|k: int| 0 <= k < i ==> (#[trigger] all[k]).disc is None,
            decreases self.tracks.len() - i,
        {
            assert(all[i as int] == self.tracks@[i as int]@);
            if self.tracks[i].disc.is_some() {
                return true;
            }
            i += 1;
        }
        false
    }
}

// What the files say.

/// The FLAC files, in order, each with its tags.
pub open spec fn flacs(files: Seq<AudioFile>, tags: Seq<Tags>) -> Seq<(AudioFile, Tags)>
    decreases files.len(),
{
    if files.len() == 0 {
        Seq::empty()
    } else {
        let rest = flacs(files.drop_last(), tags);
        if files.last().format is Flac {
            rest.push((files.last(), tags[files.len() - 1]))
        } else {
            rest
        }
    }
}

/// The files that are left out.
pub open spec fn left_out(files: Seq<AudioFile>) -> Seq<Trouble>
    decreases files.len(),
{
    if files.len() == 0 {
        Seq::empty()
    } else {
        let rest = left_out(files.drop_last());
        if files.last().format is Flac {
            rest
        } else {
            rest.push(Trouble::NotFlac(path::name_of(files.last().path@)))
        }
    }
}

/// The disc and the number of the `i`-th track: from its name where that is an etree name,
/// and otherwise from its place.
pub open spec fn place_of(name: Seq<char>, i: int) -> (Option<u32>, nat) {
    match etree::parse_track(name) {
        Some(t) => (t.disc, t.track as nat),
        None => (None, (i + 1) as nat),
    }
}

pub open spec fn label_of(disc: Option<u32>, number: nat) -> Seq<char> {
    match disc {
        Some(d) => "d"@ + text::decimal(d as nat) + "t"@ + text::padded(number, 2),
        None => "t"@ + text::padded(number, 2),
    }
}

/// A value that says something.
pub open spec fn spoken(v: Option<Seq<char>>) -> Option<Seq<char>> {
    match v {
        Some(s) => if s.len() > 0 {
            Some(s)
        } else {
            None
        },
        None => None,
    }
}

/// What the `i`-th of the FLAC files says.
pub open spec fn line_of(f: (AudioFile, Tags), i: int) -> TrackLine {
    let name = path::name_of(f.0.path@);
    let (disc, number) = place_of(name, i);
    TrackLine {
        file_name: name,
        label: label_of(disc, number),
        disc,
        title: spoken(f.1.value(Field::Title)),
        length: f.0.stream_info.length(),
        is_cdda: f.0.stream_info.cdda(),
    }
}

pub open spec fn track_lines(fs: Seq<(AudioFile, Tags)>) -> Seq<TrackLine> {
    Seq::new(fs.len(), |i: int| line_of(fs[i], i))
}

/// What the tracks leave unsaid.
pub open spec fn unsaid(tracks: Seq<TrackLine>) -> Seq<Trouble>
    decreases tracks.len(),
{
    if tracks.len() == 0 {
        Seq::empty()
    } else {
        let t = tracks.last();
        let rest = unsaid(tracks.drop_last());
        let named = if t.title is None {
            rest.push(Trouble::MissingTitle(t.file_name))
        } else {
            rest
        };
        if t.length is None {
            named.push(Trouble::NoLength(t.file_name))
        } else {
            named
        }
    }
}

/// The different values that a field has among the files, in the order in which they appear.
pub open spec fn values_of(fs: Seq<(AudioFile, Tags)>, field: Field) -> Seq<Seq<char>>
    decreases fs.len(),
{
    if fs.len() == 0 {
        Seq::empty()
    } else {
        let rest = values_of(fs.drop_last(), field);
        match spoken(fs.last().1.value(field)) {
            Some(v) => if rest.contains(v) {
                rest
            } else {
                rest.push(v)
            },
            None => rest,
        }
    }
}

pub open spec fn show_fields() -> Seq<Field> {
    seq![Field::Artist, Field::Date, Field::Album, Field::Location, Field::Comment]
}

/// The fields, up to the `k`-th, on which the files do not agree.
pub open spec fn disagreements(fs: Seq<(AudioFile, Tags)>, k: int) -> Seq<Trouble>
    decreases k,
{
    if k <= 0 {
        Seq::empty()
    } else {
        let field = show_fields()[k - 1];
        let rest = disagreements(fs, k - 1);
        if values_of(fs, field).len() > 1 {
            rest.push(Trouble::Disagrees(field, values_of(fs, field)))
        } else {
            rest
        }
    }
}

/// What the show's own tags say: of each field of the header the first value that any file
/// has, and of the others nothing.
pub open spec fn is_show(show: Tags, fs: Seq<(AudioFile, Tags)>) -> bool {
    forall|f: Field| #[trigger]
        show.value(f) == if show_fields().contains(f) && values_of(fs, f).len() > 0 {
            Some(values_of(fs, f)[0])
        } else {
            None
        }
}

// Discs.

/// Where the run of tracks that share the disc of `start` ends.
pub open spec fn run_end(tracks: Seq<TrackLine>, start: int, i: int) -> int
    decreases tracks.len() - i,
{
    if i < 0 || i >= tracks.len() || tracks[i].disc != tracks[start].disc {
        i
    } else {
        run_end(tracks, start, i + 1)
    }
}

pub proof fn lemma_run_end(tracks: Seq<TrackLine>, start: int, i: int)
    requires
        0 <= start < i <= tracks.len(),
    ensures
        i <= run_end(tracks, start, i) <= tracks.len(),
    decreases tracks.len() - i,
{
    if i < tracks.len() && tracks[i].disc == tracks[start].disc {
        lemma_run_end(tracks, start, i + 1);
    }
}

/// The runs of tracks that share a disc number, from `start` on: where each starts and ends.
/// Runs, not groups, so that a set whose files are out of disc order shows that.
pub open spec fn runs(tracks: Seq<TrackLine>, start: int) -> Seq<(int, int)>
    decreases tracks.len() - start,
{
    if start < 0 || start >= tracks.len() {
        Seq::empty()
    } else {
        let end = run_end(tracks, start, start + 1);
        proof {
            lemma_run_end(tracks, start, start + 1);
        }
        seq![(start, end)] + runs(tracks, end)
    }
}

/// The lengths of the tracks of a run, added up. A track that does not say adds nothing.
pub open spec fn total(tracks: Seq<TrackLine>) -> nat
    decreases tracks.len(),
{
    if tracks.len() == 0 {
        0
    } else {
        total(tracks.drop_last()) + (match tracks.last().length {
            Some(n) => n,
            None => 0,
        })
    }
}

pub open spec fn all_cdda(tracks: Seq<TrackLine>) -> bool {
    forall|i: int| 0 <= i < tracks.len() ==> (#[trigger] tracks[i]).is_cdda
}

/// The discs, up to the `k`-th run, that are too long for a CD-R.
pub open spec fn too_long(tracks: Seq<TrackLine>, rs: Seq<(int, int)>, k: int) -> Seq<Trouble>
    decreases k,
{
    if k <= 0 {
        Seq::empty()
    } else {
        let (from, to) = rs[k - 1];
        let run = tracks.subrange(from, to);
        let rest = too_long(tracks, rs, k - 1);
        if all_cdda(run) && total(run) > CD_MAX {
            rest.push(Trouble::TooLongForCd(tracks[from].disc, total(run)))
        } else {
            rest
        }
    }
}

/// The runs of tracks that share a disc number.
pub fn discs(tracks: &Vec<Track>) -> (r: Vec<(usize, usize)>)
    ensures
        r.len() == runs(lines(tracks@), 0).len(),
        forall|k: int|
            0 <= k < r.len() ==> {
                &&& (#[trigger] r@[k]).0 == runs(lines(tracks@), 0)[k].0
                &&& r@[k].1 == runs(lines(tracks@), 0)[k].1
                &&& r@[k].0 < r@[k].1 <= tracks.len()
            },
{
    let ghost all = lines(tracks@);
    let ghost want = runs(all, 0);
    let mut r: Vec<(usize, usize)> = Vec::new();
    let mut start: usize = 0;
    let ghost mut so_far = Seq::<(int, int)>::empty();
    assert(so_far + want =~= want);
    while start < tracks.len()
        invariant
            start <= tracks.len(),
            all == lines(tracks@),
            want == runs(all, 0),
            want == so_far + runs(all, start as int),
            r.len() == so_far.len(),
            forall|k: int|
                0 <= k < r.len() ==> {
                    &&& (#[trigger] r@[k]).0 == so_far[k].0
                    &&& r@[k].1 == so_far[k].1
                    &&& r@[k].0 < r@[k].1 <= tracks.len()
                },
        decreases tracks.len() - start,
    {
        let mut end: usize = start + 1;
        while end < tracks.len() && tracks[end].disc == tracks[start].disc
            invariant
                start < end <= tracks.len(),
                all == lines(tracks@),
                run_end(all, start as int, start + 1) == run_end(all, start as int, end as int),
            decreases tracks.len() - end,
        {
            assert(all[end as int] == tracks@[end as int]@);
            assert(all[start as int] == tracks@[start as int]@);
            end += 1;
        }
        proof {
            if end < tracks.len() {
                assert(all[end as int] == tracks@[end as int]@);
                assert(all[start as int] == tracks@[start as int]@);
            }
            let one = (start as int, end as int);
            assert(runs(all, start as int) == seq![one] + runs(all, end as int));
            assert(so_far + (seq![one] + runs(all, end as int)) =~= so_far.push(one) + runs(
                all,
                end as int,
            ));
            so_far = so_far.push(one);
        }
        r.push((start, end));
        start = end;
    }
    assert(so_far + runs(all, start as int) =~= so_far);
    r
}

/// The lengths of a run of tracks, added up.
pub fn run_length(tracks: &Vec<Track>, from: usize, to: usize) -> (n: u128)
    requires
        from <= to <= tracks.len(),
        total(lines(tracks@).subrange(from as int, to as int)) <= u128::MAX,
    ensures
        n == total(lines(tracks@).subrange(from as int, to as int)),
{
    let ghost all = lines(tracks@);
    let mut n: u128 = 0;
    let mut i: usize = from;
    assert(all.subrange(from as int, from as int) =~= Seq::<TrackLine>::empty());
    while i < to
        invariant
            from <= i <= to <= tracks.len(),
            all == lines(tracks@),
            total(all.subrange(from as int, to as int)) <= u128::MAX,
            n == total(all.subrange(from as int, i as int)),
        decreases to - i,
    {
        proof {
            let more = all.subrange(from as int, i + 1);
            assert(more.drop_last() =~= all.subrange(from as int, i as int));
            assert(more.last() == tracks@[i as int]@);
            lemma_total_grows(all, from as int, i + 1, to as int);
        }
        match tracks[i].length {
            Some(len) => {
                n = n + len;
            },
            None => {},
        }
        i += 1;
    }
    n
}

proof fn lemma_total_grows(tracks: Seq<TrackLine>, from: int, i: int, to: int)
    requires
        0 <= from <= i <= to <= tracks.len(),
    ensures
        total(tracks.subrange(from, i)) <= total(tracks.subrange(from, to)),
    decreases to - i,
{
    if i < to {
        lemma_total_grows(tracks, from, i, to - 1);
        let whole = tracks.subrange(from, to);
        assert(whole.drop_last() =~= tracks.subrange(from, to - 1));
    }
}

proof fn lemma_part_of_total(tracks: Seq<TrackLine>, from: int, to: int)
    requires
        0 <= from <= to <= tracks.len(),
    ensures
        total(tracks.subrange(from, to)) <= total(tracks.take(to)) <= total(tracks),
    decreases to - from,
{
    assert(tracks.subrange(0, to) =~= tracks.take(to));
    assert(tracks.subrange(0, tracks.len() as int) =~= tracks);
    lemma_total_grows(tracks, 0, to, tracks.len() as int);
    if from < to {
        lemma_part_of_total(tracks, from, to - 1);
        let part = tracks.subrange(from, to);
        assert(part.drop_last() =~= tracks.subrange(from, to - 1));
        assert(tracks.take(to).drop_last() =~= tracks.take(to - 1));
        assert(part.last() == tracks.take(to).last());
    } else {
        assert(tracks.subrange(from, to) =~= Seq::<TrackLine>::empty());
    }
}

/// A run of tracks is no longer than all of them.
pub proof fn lemma_run_fits(tracks: Seq<TrackLine>, from: int, to: int)
    requires
        0 <= from <= to <= tracks.len(),
    ensures
        total(tracks.subrange(from, to)) <= total(tracks),
{
    lemma_part_of_total(tracks, from, to);
}

// The name.

/// The name of an info file, `bbyyyy-mm-dd.txt`: from the folder's etree name, else the first
/// track's, else the folder's own name.
pub open spec fn name_for(folder: Seq<char>, first: Option<Seq<char>>) -> Seq<char> {
    (match etree::parse_show(folder) {
        Some(s) => s.band + etree::date_text(s.date, s.year_form),
        None => match first {
            Some(name) => match etree::parse_track(name) {
                Some(t) => t.band + etree::date_text(t.date, t.year_form),
                None => folder,
            },
            None => folder,
        },
    }) + ".txt"@
}

pub open spec fn first_name(tracks: Seq<TrackLine>) -> Option<Seq<char>> {
    if tracks.len() > 0 {
        Some(tracks[0].file_name)
    } else {
        None
    }
}

pub fn file_name(dir: &str, tracks: &Vec<Track>) -> (s: String)
    ensures
        s@ == name_for(path::name_of(dir@), first_name(lines(tracks@))),
{
    let folder = name_or_empty(dir);
    let mut stem = match ShowName::parse(&folder) {
        Some(s) => {
            let mut stem = s.band.clone();
            stem.append(&s.date.render(s.year_form));
            stem
        },
        None => {
            if tracks.len() == 0 {
                folder
            } else {
                assert(lines(tracks@)[0] == tracks@[0]@);
                match TrackName::parse(&tracks[0].file_name) {
                    Some(t) => {
                        let mut stem = t.band.clone();
                        stem.append(&t.date.render(t.year_form));
                        stem
                    },
                    None => folder,
                }
            }
        },
    };
    stem.append(".txt");
    stem
}

// Other text files.

/// A text file other than the one that is to be written.
pub open spec fn is_other_text(name: Seq<char>, own: Seq<char>) -> bool {
    name != own && (path::extension(name) matches Some(e) && text::lowercase(e) == "txt"@)
}

/// The other text files, in the order in which they were found.
pub open spec fn other_texts(names: Seq<Seq<char>>, own: Seq<char>) -> Seq<Seq<char>>
    decreases names.len(),
{
    if names.len() == 0 {
        Seq::empty()
    } else {
        let rest = other_texts(names.drop_last(), own);
        if is_other_text(names.last(), own) {
            rest.push(names.last())
        } else {
            rest
        }
    }
}

/// Texts as bytes, by which they are ordered.
pub open spec fn encoded(names: Seq<Seq<char>>) -> Seq<Seq<u8>> {
    names.map_values(|n: Seq<char>| vstd::utf8::encode_utf8(n))
}

/// Whether these are the other text files, put in order.
pub open spec fn are_other_texts(ts: Seq<Trouble>, names: Seq<Seq<char>>, own: Seq<char>) -> bool {
    let others = other_texts(names, own);
    exists|order: Seq<usize>|
        {
            &&& bytes::is_order(order, others.len() as int)
            &&& #[trigger] bytes::sorts(order, encoded(others))
            &&& ts == Seq::new(
                order.len(),
                |i: int| Trouble::OtherTextFile(others[order[i] as int]),
            )
        }
}

fn report(problems: &mut Vec<Problem>, p: Problem)
    ensures
        troubles(final(problems)@) == troubles(old(problems)@).push(p@),
{
    let ghost had = troubles(problems@);
    let ghost t = p@;
    problems.push(p);
    assert(troubles(problems@) =~= had.push(t));
}

fn has_value(values: &Vec<String>, v: &str) -> (b: bool)
    ensures
        b == text::views(values@).contains(v@),
{
    let ghost all = text::views(values@);
    let mut i: usize = 0;
    while i < values.len()
        invariant
            i <= values.len(),
            all == text::views(values@),
            forall|k: int| 0 <= k < i ==> all[k] != v@,
        decreases values.len() - i,
    {
        assert(all[i as int] == values@[i as int]@);
        if same(&values[i], v) {
            return true;
        }
        i += 1;
    }
    false
}

/// The FLAC files among some files, by their place.
fn flac_places(files: &Vec<AudioFile>, tags: Ghost<Seq<Tags>>) -> (r: (Vec<usize>, Vec<Problem>))
    ensures
        r.0.len() == flacs(files@, tags@).len(),
        forall|k: int|
            0 <= k < r.0.len() ==> #[trigger] r.0@[k] < files.len() && flacs(files@, tags@)[k] == (
                files@[r.0@[k] as int],
                tags@[r.0@[k] as int],
            ),
        troubles(r.1@) == left_out(files@),
{
    let mut places: Vec<usize> = Vec::new();
    let mut problems: Vec<Problem> = Vec::new();
    let mut i: usize = 0;
    assert(files@.take(0) =~= Seq::<AudioFile>::empty());
    assert(troubles(problems@) =~= Seq::<Trouble>::empty());
    while i < files.len()
        invariant
            i <= files.len(),
            places.len() == flacs(files@.take(i as int), tags@).len(),
            forall|k: int|
                0 <= k < places.len() ==> #[trigger] places@[k] < i && flacs(
                    files@.take(i as int),
                    tags@,
                )[k] == (files@[places@[k] as int], tags@[places@[k] as int]),
            troubles(problems@) == left_out(files@.take(i as int)),
        decreases files.len() - i,
    {
        proof {
            assert(files@.take(i + 1).drop_last() =~= files@.take(i as int));
            assert(files@.take(i + 1).last() == files@[i as int]);
        }
        if is_taggable(files[i].format) {
            places.push(i);
        } else {
            report(&mut problems, Problem::NotFlac { file: files[i].file_name() });
        }
        i += 1;
    }
    assert(files@.take(files@.len() as int) =~= files@);
    (places, problems)
}

/// The different values of a field among the files at these places.
fn field_values(
    files: Ghost<Seq<AudioFile>>,
    tags: &Vec<Tags>,
    places: &Vec<usize>,
    field: Field,
) -> (values: Vec<String>)
    requires
        tags.len() == files@.len(),
        places.len() == flacs(files@, tags@).len(),
        forall|k: int|
            0 <= k < places.len() ==> #[trigger] places@[k] < tags.len() && flacs(
                files@,
                tags@,
            )[k] == (files@[places@[k] as int], tags@[places@[k] as int]),
    ensures
        text::views(values@) == values_of(flacs(files@, tags@), field),
{
    let ghost fs = flacs(files@, tags@);
    let mut values: Vec<String> = Vec::new();
    let mut k: usize = 0;
    assert(fs.take(0) =~= Seq::<(AudioFile, Tags)>::empty());
    assert(text::views(values@) =~= Seq::<Seq<char>>::empty());
    while k < places.len()
        invariant
            k <= places.len(),
            fs == flacs(files@, tags@),
            tags.len() == files@.len(),
            places.len() == fs.len(),
            forall|j: int|
                0 <= j < places.len() ==> #[trigger] places@[j] < tags.len() && fs[j] == (
                    files@[places@[j] as int],
                    tags@[places@[j] as int],
                ),
            text::views(values@) == values_of(fs.take(k as int), field),
        decreases places.len() - k,
    {
        let at: usize = places[k];
        proof {
            assert(fs.take(k + 1).drop_last() =~= fs.take(k as int));
            assert(fs.take(k + 1).last() == fs[k as int]);
            assert(fs[k as int].1 == tags@[at as int]);
        }
        match tags[at].get(field) {
            Some(v) => {
                if !v.is_empty() && !has_value(&values, v) {
                    let ghost had = text::views(values@);
                    values.push(v.to_owned());
                    assert(text::views(values@) =~= had.push(v@));
                }
            },
            None => {},
        }
        k += 1;
    }
    assert(fs.take(fs.len() as int) =~= fs);
    values
}

fn track_of(file: &AudioFile, tags: &Tags, i: usize) -> (t: Track)
    requires
        i < u32::MAX,
    ensures
        t@ == line_of((*file, *tags), i as int),
        t.length matches Some(n) ==> n <= 0xFFFF_FFFF_FFFF_FFFF * FLICKS,
{
    let name = file.file_name();
    let (disc, number): (Option<u32>, u64) = match TrackName::parse(&name) {
        Some(t) => (t.disc, t.track as u64),
        None => (None, i as u64 + 1),
    };
    let mut label = String::new();
    match disc {
        Some(d) => {
            label.append("d");
            push_decimal(&mut label, d as u64);
            label.append("t");
        },
        None => {
            label.append("t");
        },
    }
    push_padded(&mut label, number, 2);
    assert(label@ =~= label_of(disc, number as nat));
    let title: Option<String> = match tags.get(Field::Title) {
        Some(t) => if t.is_empty() {
            None
        } else {
            Some(t.to_owned())
        },
        None => None,
    };
    Track {
        file_name: name,
        label,
        disc,
        title,
        length: file.stream_info.duration(),
        is_cdda: file.stream_info.is_cdda(),
    }
}

/// What the tracks leave unsaid, added to what is known already.
fn add_unsaid(problems: &mut Vec<Problem>, tracks: &Vec<Track>)
    ensures
        troubles(final(problems)@) == troubles(old(problems)@) + unsaid(lines(tracks@)),
{
    let ghost start = troubles(problems@);
    let ghost all = lines(tracks@);
    let mut i: usize = 0;
    assert(all.take(0) =~= Seq::<TrackLine>::empty());
    assert(start + unsaid(all.take(0)) =~= start);
    while i < tracks.len()
        invariant
            i <= tracks.len(),
            all == lines(tracks@),
            troubles(problems@) == start + unsaid(all.take(i as int)),
        decreases tracks.len() - i,
    {
        let t = &tracks[i];
        let ghost had = unsaid(all.take(i as int));
        proof {
            assert(all.take(i + 1).drop_last() =~= all.take(i as int));
            assert(all.take(i + 1).last() == t@);
        }
        let ghost mut now = had;
        if t.title.is_none() {
            report(problems, Problem::MissingTitle { file: t.file_name.clone() });
            proof {
                now = now.push(Trouble::MissingTitle(t.file_name@));
                assert(troubles(problems@) =~= start + now);
            }
        }
        if t.length.is_none() {
            report(problems, Problem::NoLength { file: t.file_name.clone() });
            proof {
                now = now.push(Trouble::NoLength(t.file_name@));
                assert(troubles(problems@) =~= start + now);
            }
        }
        assert(now == unsaid(all.take(i + 1)));
        i += 1;
    }
    assert(all.take(all.len() as int) =~= all);
}

/// The discs that are too long for a CD-R, added to what is known already.
fn add_too_long(problems: &mut Vec<Problem>, tracks: &Vec<Track>)
    requires
        total(lines(tracks@)) <= u128::MAX,
    ensures
        troubles(final(problems)@) == troubles(old(problems)@) + too_long(
            lines(tracks@),
            runs(lines(tracks@), 0),
            runs(lines(tracks@), 0).len() as int,
        ),
{
    let ghost start = troubles(problems@);
    let ghost all = lines(tracks@);
    let ghost rs = runs(all, 0);
    let ranges = discs(tracks);
    let mut k: usize = 0;
    assert(start + too_long(all, rs, 0) =~= start);
    while k < ranges.len()
        invariant
            k <= ranges.len(),
            all == lines(tracks@),
            rs == runs(all, 0),
            total(all) <= u128::MAX,
            ranges.len() == rs.len(),
            forall|j: int|
                0 <= j < ranges.len() ==> {
                    &&& (#[trigger] ranges@[j]).0 == rs[j].0
                    &&& ranges@[j].1 == rs[j].1
                    &&& ranges@[j].0 < ranges@[j].1 <= tracks.len()
                },
            troubles(problems@) == start + too_long(all, rs, k as int),
        decreases ranges.len() - k,
    {
        let (from, to) = ranges[k];
        assert(ranges@[k as int].0 == rs[k as int].0);
        let ghost run = all.subrange(from as int, to as int);
        proof {
            lemma_run_fits(all, from as int, to as int);
        }
        let mut cdda = true;
        let mut i: usize = from;
        while i < to
            invariant
                from <= i <= to <= tracks.len(),
                all == lines(tracks@),
                run == all.subrange(from as int, to as int),
                cdda == (forall|j: int| 0 <= j < i - from ==> (#[trigger] run[j]).is_cdda),
            decreases to - i,
        {
            assert(run[i - from] == tracks@[i as int]@);
            if !tracks[i].is_cdda {
                cdda = false;
            }
            i += 1;
        }
        let length = run_length(tracks, from, to);
        assert(all[from as int] == tracks@[from as int]@);
        let ghost had = too_long(all, rs, k as int);
        if cdda && length > CD_MAX {
            report(problems, Problem::TooLongForCd { disc: tracks[from].disc, length });
            assert(troubles(problems@) =~= start + had.push(
                Trouble::TooLongForCd(all[from as int].disc, total(run)),
            ));
        }
        assert(rs[k as int] == (from as int, to as int));
        k += 1;
        assert(troubles(problems@) == start + too_long(all, rs, k as int));
    }
}

/// The other text files, in order, added to what is known already.
fn add_other_texts(problems: &mut Vec<Problem>, names: &Vec<String>, own: &str)
    ensures
        exists|ts: Seq<Trouble>|
            troubles(final(problems)@) == troubles(old(problems)@) + ts
                && #[trigger] are_other_texts(ts, text::views(names@), own@),
{
    let ghost start = troubles(problems@);
    let ghost all = text::views(names@);
    let mut others: Vec<String> = Vec::new();
    let mut keys: Vec<Vec<u8>> = Vec::new();
    let mut i: usize = 0;
    assert(all.take(0) =~= Seq::<Seq<char>>::empty());
    assert(text::views(others@) =~= Seq::<Seq<char>>::empty());
    while i < names.len()
        invariant
            i <= names.len(),
            all == text::views(names@),
            text::views(others@) == other_texts(all.take(i as int), own@),
            keys.len() == others.len(),
            forall|k: int|
                0 <= k < keys.len() ==> (#[trigger] keys@[k])@ == vstd::utf8::encode_utf8(
                    others@[k]@,
                ),
        decreases names.len() - i,
    {
        let ghost had = text::views(others@);
        proof {
            assert(all.take(i + 1).drop_last() =~= all.take(i as int));
            assert(all.take(i + 1).last() == names@[i as int]@);
        }
        let is_text = match extension_of(&names[i]) {
            Some(e) => same(&lower_string(&e), "txt"),
            None => false,
        };
        if is_text && !same(&names[i], own) {
            keys.push(names[i].as_str().as_bytes_vec());
            others.push(names[i].clone());
            assert(text::views(others@) =~= had.push(names@[i as int]@));
        }
        i += 1;
    }
    assert(all.take(all.len() as int) =~= all);
    let order = sort_order(&keys);
    let ghost found = other_texts(all, own@);
    assert(found == text::views(others@));
    assert(seqs::nested(keys@) =~= encoded(found)) by {
        assert forall|k: int| 0 <= k < keys.len() implies seqs::nested(keys@)[k] == encoded(found)[k] by {
            assert(keys@[k]@ == vstd::utf8::encode_utf8(others@[k]@));
        }
    }
    let ghost want = Seq::new(
        order@.len(),
        |j: int| Trouble::OtherTextFile(found[order@[j] as int]),
    );
    let mut k: usize = 0;
    assert(start + want.take(0) =~= start);
    while k < order.len()
        invariant
            k <= order.len(),
            found == text::views(others@),
            order.len() == others.len(),
            forall|j: int| 0 <= j < order.len() ==> #[trigger] order@[j] < others.len(),
            want == Seq::new(
                order@.len(),
                |j: int| Trouble::OtherTextFile(found[order@[j] as int]),
            ),
            troubles(problems@) == start + want.take(k as int),
        decreases order.len() - k,
    {
        let at: usize = order[k];
        assert(found[at as int] == others@[at as int]@);
        report(problems, Problem::OtherTextFile { file: others[at].clone() });
        assert(troubles(problems@) =~= start + want.take(k + 1));
        k += 1;
    }
    assert(want.take(want.len() as int) =~= want);
    proof {
        assert(bytes::sorts(order@, encoded(found)));
        assert(are_other_texts(want, all, own@));
    }
}

/// What there is to say about a show of these files, with what cannot be said cleanly: the
/// files that are left out, what a track leaves unsaid, the fields that differ, the discs
/// that are too long, and the other text files.
pub open spec fn is_plan(
    p: InfoPlan,
    dir: Seq<char>,
    files: Seq<AudioFile>,
    tags: Seq<Tags>,
    names: Seq<Seq<char>>,
) -> bool {
    let fs = flacs(files, tags);
    let tracks = track_lines(fs);
    let own = name_for(path::name_of(dir), first_name(tracks));
    let rs = runs(tracks, 0);
    &&& lines(p.tracks@) == tracks
    &&& is_show(p.show, fs)
    &&& p.path@ == path::join(dir, own)
    &&& exists|others: Seq<Trouble>|
        #[trigger] are_other_texts(others, names, own) && troubles(p.problems@) == left_out(files)
            + unsaid(tracks) + disagreements(fs, 5) + too_long(tracks, rs, rs.len() as int)
            + others
}

/// Collects the tags and the length of every FLAC in `files`, in the order given. `tags` are
/// those of each file, and `names` the names of the files in the folder `dir`.
pub fn plan(dir: &str, files: &Vec<AudioFile>, tags: &Vec<Tags>, names: &Vec<String>) -> (p:
    InfoPlan)
    requires
        tags.len() == files.len(),
        files.len() < u32::MAX,
        total(track_lines(flacs(files@, tags@))) <= u128::MAX,
    ensures
        is_plan(p, dir@, files@, tags@, text::views(names@)),
{
    let ghost fs = flacs(files@, tags@);
    let (places, mut problems) = flac_places(files, Ghost(tags@));
    proof {
        lemma_flacs_len(files@, tags@);
    }
    let mut tracks: Vec<Track> = Vec::new();
    let mut k: usize = 0;
    while k < places.len()
        invariant
            k <= places.len(),
            fs == flacs(files@, tags@),
            places.len() == fs.len(),
            fs.len() <= files.len() < u32::MAX,
            tags.len() == files.len(),
            forall|j: int|
                0 <= j < places.len() ==> #[trigger] places@[j] < files.len() && fs[j] == (
                    files@[places@[j] as int],
                    tags@[places@[j] as int],
                ),
            tracks.len() == k,
            forall|j: int| 0 <= j < k ==> (#[trigger] tracks@[j])@ == line_of(fs[j], j),
        decreases places.len() - k,
    {
        let at: usize = places[k];
        tracks.push(track_of(&files[at], &tags[at], k));
        k += 1;
    }
    assert(lines(tracks@) =~= track_lines(fs));
    add_unsaid(&mut problems, &tracks);
    let mut show = Tags::default();
    let fields = SHOW_FIELDS;
    assert(fields@ =~= show_fields());
    let ghost start = troubles(problems@);
    let mut k: usize = 0;
    assert(start + disagreements(fs, 0) =~= start);
    while k < 5
        invariant
            k <= 5,
            fs == flacs(files@, tags@),
            fields@ == show_fields(),
            tags.len() == files.len(),
            places.len() == fs.len(),
            forall|j: int|
                0 <= j < places.len() ==> #[trigger] places@[j] < files.len() && fs[j] == (
                    files@[places@[j] as int],
                    tags@[places@[j] as int],
                ),
            troubles(problems@) == start + disagreements(fs, k as int),
            forall|f: Field| #[trigger]
                show.value(f) == if show_fields().take(k as int).contains(f) && values_of(
                    fs,
                    f,
                ).len() > 0 {
                    Some(values_of(fs, f)[0])
                } else {
                    None
                },
        decreases 5 - k,
    {
        let field = fields[k];
        let ghost before = show;
        let ghost rest = disagreements(fs, k as int);
        let mut values = field_values(Ghost(files@), tags, &places, field);
        let ghost vs = text::views(values@);
        if values.len() > 0 {
            assert(vs[0] == values@[0]@);
            show.set(field, Some(values[0].clone()));
        }
        if values.len() > 1 {
            report(&mut problems, Problem::Disagrees { field, values });
            assert(troubles(problems@) =~= start + rest.push(Trouble::Disagrees(field, vs)));
        }
        proof {
            let now = show_fields().take(k + 1);
            let then = show_fields().take(k as int);
            assert(now =~= then.push(field));
            assert forall|f: Field| #[trigger]
                show.value(f) == if now.contains(f) && values_of(fs, f).len() > 0 {
                    Some(values_of(fs, f)[0])
                } else {
                    None
                } by {
                if f == field {
                    assert(now[k as int] == field);
                    if then.contains(f) {
                        let j = choose|j: int| 0 <= j < then.len() && then[j] == f;
                        lemma_show_fields_differ(j, k as int);
                    }
                    assert(before.value(f) is None);
                } else {
                    assert(now.contains(f) == then.contains(f)) by {
                        if then.contains(f) {
                            let j = choose|j: int| 0 <= j < then.len() && then[j] == f;
                            assert(now[j] == f);
                        }
                        if now.contains(f) {
                            let j = choose|j: int| 0 <= j < now.len() && now[j] == f;
                            assert(then[j] == f);
                        }
                    }
                    assert(show.value(f) == before.value(f));
                }
            }
        }
        k += 1;
    }
    assert(show_fields().take(5) =~= show_fields());
    add_too_long(&mut problems, &tracks);
    let own = file_name(dir, &tracks);
    add_other_texts(&mut problems, names, &own);
    InfoPlan { path: join_path(dir, &own), show, tracks, problems }
}

proof fn lemma_show_fields_differ(i: int, j: int)
    requires
        0 <= i < j < 5,
    ensures
        show_fields()[i] != show_fields()[j],
{
}

proof fn lemma_flacs_len(files: Seq<AudioFile>, tags: Seq<Tags>)
    ensures
        flacs(files, tags).len() <= files.len(),
    decreases files.len(),
{
    if files.len() > 0 {
        lemma_flacs_len(files.drop_last(), tags);
    }
}

// Laws.

/// The runs are the whole set, cut where the disc changes: they follow one another, none is
/// empty, the tracks of one share a disc, and those of two that follow each other do not.
pub proof fn law_runs_cut_the_set_by_disc(tracks: Seq<TrackLine>, start: int, k: int)
    requires
        0 <= start <= tracks.len(),
        0 <= k < runs(tracks, start).len(),
    ensures
        ({
            let rs = runs(tracks, start);
            let (from, to) = rs[k];
            &&& start <= from < to <= tracks.len()
            &&& from == if k == 0 {
                start
            } else {
                rs[k - 1].1
            }
            &&& to == if k + 1 == rs.len() {
                tracks.len() as int
            } else {
                rs[k + 1].0
            }
            &&& forall|i: int|
                from <= i < to ==> (#[trigger] tracks[i]).disc == tracks[from].disc
            &&& to < tracks.len() ==> tracks[to].disc != tracks[from].disc
        }),
    decreases tracks.len() - start,
{
    let end = run_end(tracks, start, start + 1);
    let rest = runs(tracks, end);
    let rs = runs(tracks, start);
    lemma_run_end(tracks, start, start + 1);
    assert(rs == seq![(start, end)] + rest);
    lemma_run_same(tracks, start, start + 1);
    if rest.len() > 0 {
        law_runs_cut_the_set_by_disc(tracks, end, 0);
        assert(rs[1] == rest[0]);
    }
    if k > 0 {
        law_runs_cut_the_set_by_disc(tracks, end, k - 1);
        assert(rs[k] == rest[k - 1]);
        if k > 1 {
            assert(rs[k - 1] == rest[k - 2]);
        }
        if k + 1 < rs.len() {
            assert(rs[k + 1] == rest[k]);
        }
    }
}

proof fn lemma_run_same(tracks: Seq<TrackLine>, start: int, i: int)
    requires
        0 <= start < i <= tracks.len(),
    ensures
        ({
            let end = run_end(tracks, start, i);
            &&& i <= end <= tracks.len()
            &&& forall|j: int|
                i <= j < end ==> (#[trigger] tracks[j]).disc == tracks[start].disc
            &&& end < tracks.len() ==> tracks[end].disc != tracks[start].disc
        }),
    decreases tracks.len() - i,
{
    if i < tracks.len() && tracks[i].disc == tracks[start].disc {
        lemma_run_same(tracks, start, i + 1);
    }
}

} // verus!
