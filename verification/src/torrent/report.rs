//! What a torrent check concluded, per file and overall.

use vstd::prelude::*;

verus! {

#[derive(Debug, Clone, PartialEq, Eq)]
pub enum FileStatus {
    /// Sizes agree. Contents were not read.
    SizeOk,
    /// Every piece that overlaps this file verified.
    Complete,
    /// Pieces that lie wholly inside this file failed. It is definitely this file.
    Corrupt { bad_pieces: Vec<u32> },
    /// Only a piece shared with a neighbour failed. The data does not say which file is at
    /// fault, so all are named rather than one guessed.
    Suspect { piece: u32, shared_with: Vec<usize> },
    /// What could be read verified; the rest is in pieces shared with a file that is bad.
    Partial { verified: u32, unverifiable: u32 },
    Missing,
    WrongSize { expected: u64, actual: u64 },
    Unreadable { reason: String },
    /// Zero bytes in the stream that are not expected on disk.
    Padding,
}

impl FileStatus {
    pub open spec fn failed(&self) -> bool {
        self is Corrupt || self is Suspect || self is Missing || self is WrongSize
            || self is Unreadable
    }

    /// Whether this outcome should stop the overall check from passing.
    pub fn is_failure(&self) -> (b: bool)
        ensures
            b == self.failed(),
    {
        match self {
            FileStatus::Corrupt { .. } => true,
            FileStatus::Suspect { .. } => true,
            FileStatus::Missing => true,
            FileStatus::WrongSize { .. } => true,
            FileStatus::Unreadable { .. } => true,
            _ => false,
        }
    }

    pub fn label(&self) -> (s: &'static str)
        ensures
            s@ == match self {
                FileStatus::SizeOk => "SIZE OK"@,
                FileStatus::Complete => "OK"@,
                FileStatus::Corrupt { .. } => "CORRUPT"@,
                FileStatus::Suspect { .. } => "SUSPECT"@,
                FileStatus::Partial { .. } => "PARTIAL"@,
                FileStatus::Missing => "MISSING"@,
                FileStatus::WrongSize { .. } => "WRONG SIZE"@,
                FileStatus::Unreadable { .. } => "UNREADABLE"@,
                FileStatus::Padding => "PADDING"@,
            },
    {
        match self {
            FileStatus::SizeOk => "SIZE OK",
            FileStatus::Complete => "OK",
            FileStatus::Corrupt { .. } => "CORRUPT",
            FileStatus::Suspect { .. } => "SUSPECT",
            FileStatus::Partial { .. } => "PARTIAL",
            FileStatus::Missing => "MISSING",
            FileStatus::WrongSize { .. } => "WRONG SIZE",
            FileStatus::Unreadable { .. } => "UNREADABLE",
            FileStatus::Padding => "PADDING",
        }
    }
}

#[derive(Debug, Clone)]
pub struct FileOutcome {
    /// Index into the torrent's files.
    pub index: usize,
    /// Where it was looked for.
    pub path: String,
    pub status: FileStatus,
}

#[derive(Debug, Clone, Copy, PartialEq, Eq, Structural)]
pub enum Verdict {
    /// Everything the torrent lists is present and correct.
    Complete,
    /// Sizes all agree, but nothing was hashed.
    SizesMatch,
    Incomplete,
}

/// How the pieces came out.
#[derive(Debug, Clone, Copy, PartialEq, Eq, Structural)]
pub struct PieceCounts {
    pub total: u32,
    pub ok: u32,
    pub failed: u32,
    pub unverifiable: u32,
}

#[derive(Debug, Clone)]
pub struct TorrentReport {
    pub info_hash: [u8; 20],
    pub name: String,
    /// The folder that the torrent's paths were resolved against.
    pub root: String,
    pub files: Vec<FileOutcome>,
    /// Present locally, absent from the torrent. Informational, never a failure.
    pub extra_local: Vec<String>,
    /// True when only sizes were compared.
    pub quick: bool,
    /// How the pieces came out, where they were read.
    pub pieces: Option<PieceCounts>,
}

/// The outcomes that are failures, in order.
pub open spec fn failed_of(files: Seq<FileOutcome>) -> Seq<FileOutcome>
    decreases files.len(),
{
    if files.len() == 0 {
        Seq::empty()
    } else if files.last().status.failed() {
        failed_of(files.drop_last()).push(files.last())
    } else {
        failed_of(files.drop_last())
    }
}

proof fn lemma_failed_of(files: Seq<FileOutcome>)
    ensures
        failed_of(files).len() > 0 <==> exists|i: int|
            0 <= i < files.len() && (#[trigger] files[i]).status.failed(),
    decreases files.len(),
{
    if files.len() > 0 {
        let front = files.drop_last();
        lemma_failed_of(front);
        if files.last().status.failed() {
            assert(files[files.len() - 1].status.failed());
        } else {
            if exists|i: int| 0 <= i < files.len() && (#[trigger] files[i]).status.failed() {
                let i = choose|i: int|
                    0 <= i < files.len() && (#[trigger] files[i]).status.failed();
                assert(front[i].status.failed());
            }
            if exists|i: int| 0 <= i < front.len() && (#[trigger] front[i]).status.failed() {
                let i = choose|i: int|
                    0 <= i < front.len() && (#[trigger] front[i]).status.failed();
                assert(files[i].status.failed());
            }
        }
    }
}

impl TorrentReport {
    pub fn failures(&self) -> (r: Vec<&FileOutcome>)
        ensures
            r@.map_values(|f: &FileOutcome| *f) == failed_of(self.files@),
    {
        let mut r: Vec<&FileOutcome> = Vec::new();
        let mut i: usize = 0;
        assert(self.files@.take(0) =~= Seq::<FileOutcome>::empty());
        assert(r@.map_values(|f: &FileOutcome| *f) =~= failed_of(self.files@.take(0)));
        while i < self.files.len()
            invariant
                i <= self.files.len(),
                r@.map_values(|f: &FileOutcome| *f) == failed_of(self.files@.take(i as int)),
            decreases self.files.len() - i,
        {
            assert(self.files@.take(i + 1).drop_last() =~= self.files@.take(i as int));
            if self.files[i].status.is_failure() {
                let ghost before = r@;
                r.push(&self.files[i]);
                assert(r@.map_values(|f: &FileOutcome| *f) =~= before.map_values(
                    |f: &FileOutcome| *f,
                ).push(self.files@[i as int]));
            }
            i += 1;
        }
        assert(self.files@.take(self.files.len() as int) =~= self.files@);
        r
    }

    /// Any file that failed makes the whole incomplete.
    pub fn verdict(&self) -> (v: Verdict)
        ensures
            v == if exists|i: int|
                0 <= i < self.files@.len() && (#[trigger] self.files@[i]).status.failed() {
                Verdict::Incomplete
            } else if self.quick {
                Verdict::SizesMatch
            } else {
                Verdict::Complete
            },
    {
        let failures = self.failures();
        proof {
            lemma_failed_of(self.files@);
            assert(failures@.len() == failures@.map_values(|f: &FileOutcome| *f).len());
        }
        if failures.len() > 0 {
            Verdict::Incomplete
        } else if self.quick {
            Verdict::SizesMatch
        } else {
            Verdict::Complete
        }
    }
}

} // verus!
