//! A folder's worth of files.

use crate::error::Error;
use crate::model;
use crate::model::{AudioFile, AudioFormat};
use vstd::prelude::*;
use vstd::string::*;

verus! {

/// One folder's worth of files: a show, or a few shows.
#[derive(Debug, Clone)]
pub struct WorkingSet {
    pub files: Vec<AudioFile>,
    /// Files that were recognized but could not be read, with the reason. Never silently
    /// dropped.
    pub skipped: Vec<(String, String)>,
}

pub open spec fn reasons(skipped: Seq<(String, String)>) -> Seq<(Seq<char>, Seq<char>)> {
    skipped.map_values(|s: (String, String)| (s.0@, s.1@))
}

/// What a walk through a folder comes upon.
#[derive(Debug)]
pub enum Visit {
    /// Something that could not be visited.
    Failed { path: String, said: String },
    /// Something, and what a probe of it found, where it is a file that is probed.
    Entry { path: String, is_file: bool, probed: Result<AudioFile, Error> },
}

/// Whether an entry is an audio file, by its name: the ones that are probed.
pub open spec fn is_audio(path: Seq<char>, is_file: bool) -> bool {
    is_file && model::format_of_path(path) is Some
}

/// Whether an entry is probed at all.
pub fn wanted(path: &str, is_file: bool) -> (b: bool)
    ensures
        b == is_audio(path@, is_file),
{
    is_file && AudioFormat::from_path(path).is_some()
}

/// The files that were read, in the order of the walk.
pub open spec fn read_files(visits: Seq<Visit>) -> Seq<AudioFile>
    decreases visits.len(),
{
    if visits.len() == 0 {
        Seq::empty()
    } else {
        let rest = read_files(visits.drop_last());
        match visits.last() {
            Visit::Entry { path, is_file, probed: Ok(f) } => if is_audio(path@, is_file) {
                rest.push(f)
            } else {
                rest
            },
            _ => rest,
        }
    }
}

/// What was skipped, in the order of the walk, with the reason.
pub open spec fn skipped_files(visits: Seq<Visit>) -> Seq<(Seq<char>, Seq<char>)>
    decreases visits.len(),
{
    if visits.len() == 0 {
        Seq::empty()
    } else {
        let rest = skipped_files(visits.drop_last());
        match visits.last() {
            Visit::Failed { path, said } => rest.push((path@, said@)),
            Visit::Entry { path, is_file, probed: Err(e) } => if is_audio(path@, is_file) {
                rest.push((path@, e.text()))
            } else {
                rest
            },
            _ => rest,
        }
    }
}

/// Collects what a walk came upon. Every audio file ends up on one of the two lists.
pub fn scan(visits: Vec<Visit>) -> (s: WorkingSet)
    ensures
        s.files@ == read_files(visits@),
        reasons(s.skipped@) == skipped_files(visits@),
{
    let ghost all = visits@;
    let n: usize = visits.len();
    let mut rest = visits;
    let mut files: Vec<AudioFile> = Vec::new();
    let mut skipped: Vec<(String, String)> = Vec::new();
    let mut i: usize = 0;
    assert(all.take(0) =~= Seq::<Visit>::empty());
    assert(rest@ =~= all.skip(0));
    assert(reasons(skipped@) =~= skipped_files(all.take(0)));
    while i < n
        invariant
            i <= n,
            n == all.len(),
            rest@ == all.skip(i as int),
            files@ == read_files(all.take(i as int)),
            reasons(skipped@) == skipped_files(all.take(i as int)),
        decreases n - i,
    {
        let ghost had = reasons(skipped@);
        let visit = rest.remove(0);
        proof {
            assert(rest@ =~= all.skip(i + 1));
            assert(all.take(i + 1).drop_last() =~= all.take(i as int));
            assert(all.take(i + 1).last() == visit);
        }
        match visit {
            Visit::Failed { path, said } => {
                let ghost pair = (path@, said@);
                skipped.push((path, said));
                assert(reasons(skipped@) =~= had.push(pair));
            },
            Visit::Entry { path, is_file, probed } => {
                if wanted(&path, is_file) {
                    match probed {
                        Ok(f) => {
                            files.push(f);
                        },
                        Err(e) => {
                            let said = e.to_string();
                            let ghost pair = (path@, said@);
                            skipped.push((path, said));
                            assert(reasons(skipped@) =~= had.push(pair));
                        },
                    }
                }
            },
        }
        i += 1;
    }
    assert(all.take(n as int) =~= all);
    WorkingSet { files, skipped }
}

/// How many audio files, and entries that could not be visited, a walk came upon.
pub open spec fn audio_count(visits: Seq<Visit>) -> nat
    decreases visits.len(),
{
    if visits.len() == 0 {
        0
    } else {
        audio_count(visits.drop_last()) + match visits.last() {
            Visit::Failed { .. } => 1nat,
            Visit::Entry { path, is_file, .. } => if is_audio(path@, is_file) {
                1nat
            } else {
                0nat
            },
        }
    }
}

/// Nothing is dropped: what was read and what was skipped are all that there was.
pub proof fn law_nothing_is_dropped(visits: Seq<Visit>)
    ensures
        read_files(visits).len() + skipped_files(visits).len() == audio_count(visits),
    decreases visits.len(),
{
    if visits.len() > 0 {
        law_nothing_is_dropped(visits.drop_last());
    }
}

/// What a walk comes upon next goes behind what was there: an audio file that could be read to
/// those that were, one that could not, or that could not be visited, to those that were
/// skipped with the reason, and anything else to neither.
pub proof fn law_each_visit_goes_where_it_belongs(visits: Seq<Visit>, v: Visit)
    ensures
        ({
            let read = read_files(visits.push(v));
            let skipped = skipped_files(visits.push(v));
            let (had, left) = (read_files(visits), skipped_files(visits));
            match v {
                Visit::Failed { path, said } => read == had && skipped == left.push(
                    (path@, said@),
                ),
                Visit::Entry { path, is_file, probed } => if is_file && model::format_of_path(
                    path@,
                ) is Some {
                    match probed {
                        Ok(f) => read == had.push(f) && skipped == left,
                        Err(e) => read == had && skipped == left.push((path@, e.text())),
                    }
                } else {
                    read == had && skipped == left
                },
            }
        }),
{
    assert(visits.push(v).drop_last() =~= visits);
}

} // verus!
