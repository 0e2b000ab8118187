//! Writing a file without ever putting a half-written one under its real name.
//!
//! Outputs are staged beside the destination and renamed in only once they have been
//! checked, so that an interrupted run leaves the original untouched and leaves no debris
//! under the name that people will look for.

use crate::error::Error;
use crate::path;
use crate::path::{name_or_empty, with_file_name};
use crate::text;
use crate::text::push_decimal;
use vstd::prelude::*;
use vstd::string::*;

verus! {

/// A destination being built.
#[derive(Debug, Clone)]
pub struct TempOutput {
    temp: String,
    final_path: String,
}

/// The hidden name that an output is built under, beside its destination, so that the rename
/// stays on one file system.
pub open spec fn staged_path(dst: Seq<char>, pid: nat) -> Seq<char> {
    path::with_name(
        dst,
        "."@ + path::name_of(dst) + ".lh-"@ + text::decimal(pid) + ".part"@,
    )
}

impl TempOutput {
    pub closed spec fn temp_text(&self) -> Seq<char> {
        self.temp@
    }

    pub closed spec fn final_text(&self) -> Seq<char> {
        self.final_path@
    }

    /// Whether an output may be built at `dst`: it is not the input itself, and nothing is
    /// there already unless it is to be replaced. `same_file` says whether both name one
    /// existing file, `taken` whether anything is at `dst`.
    pub fn stage(dst: &str, same_file: bool, taken: bool, overwrite: bool, pid: u32) -> (r: Result<
        TempOutput,
        Error,
    >)
        ensures
            match r {
                Ok(t) => !same_file && (!taken || overwrite) && t.temp_text() == staged_path(
                    dst@,
                    pid as nat,
                ) && t.final_text() == dst@,
                Err(e) => if same_file {
                    e.is_malformed(
                        dst@,
                        "the output is the input; that would destroy the original"@,
                    )
                } else {
                    taken && !overwrite && e.is_output_exists(dst@)
                },
            },
    {
        if same_file {
            return Err(
                Error::malformed(
                    dst,
                    "the output is the input; that would destroy the original",
                ),
            );
        }
        if taken && !overwrite {
            return Err(Error::OutputExists { path: dst.to_owned() });
        }
        let mut name = ".".to_owned();
        name.append(&name_or_empty(dst));
        name.append(".lh-");
        push_decimal(&mut name, pid as u64);
        name.append(".part");
        let temp = with_file_name(dst, &name);
        Ok(TempOutput { temp, final_path: dst.to_owned() })
    }

    /// Where to write it.
    pub fn path(&self) -> (s: &str)
        ensures
            s@ == self.temp_text(),
    {
        &self.temp
    }

    /// Where it goes once it is done.
    pub fn destination(&self) -> (s: &str)
        ensures
            s@ == self.final_text(),
    {
        &self.final_path
    }
}

/// What is to be done about a batch of outputs of which one could not be renamed into place:
/// every one that already was, the last first, is removed again, so that the set is never
/// seen half done under real names.
pub fn uncommit(outputs: &[TempOutput], failed: usize) -> (paths: Vec<String>)
    requires
        failed <= outputs.len(),
    ensures
        paths.len() == failed,
        forall|i: int|
            0 <= i < failed ==> (#[trigger] paths@[i])@ == outputs@[failed - 1 - i].final_text(),
{
    let mut paths: Vec<String> = Vec::new();
    let mut k: usize = failed;
    while k > 0
        invariant
            k <= failed <= outputs.len(),
            paths.len() == failed - k,
            forall|i: int|
                0 <= i < failed - k ==> (#[trigger] paths@[i])@ == outputs@[failed - 1
                    - i].final_text(),
        decreases k,
    {
        paths.push(outputs[k - 1].final_path.clone());
        k -= 1;
    }
    paths
}

/// The error for an output that could not be renamed into place.
pub fn commit_error(outputs: &[TempOutput], failed: usize, source: &str) -> (e: Error)
    requires
        failed < outputs.len(),
    ensures
        e matches Error::Io { path, source: s } && path@ == outputs@[failed as int].final_text()
            && s@ == source@,
{
    Error::io(&outputs[failed].final_path, source)
}

/// A folder after the first `n` outputs were renamed into place.
pub open spec fn committed<V>(
    fs: Map<Seq<char>, V>,
    outputs: Seq<TempOutput>,
    n: int,
) -> Map<Seq<char>, V>
    decreases n,
{
    if n <= 0 {
        fs
    } else {
        let before = committed(fs, outputs, n - 1);
        let o = outputs[n - 1];
        before.remove(o.temp_text()).insert(o.final_text(), before[o.temp_text()])
    }
}

/// A folder after these files were removed.
pub open spec fn removed<V>(fs: Map<Seq<char>, V>, paths: Seq<Seq<char>>) -> Map<Seq<char>, V>
    decreases paths.len(),
{
    if paths.len() == 0 {
        fs
    } else {
        removed(fs, paths.drop_last()).remove(paths.last())
    }
}

proof fn lemma_removed<V>(fs: Map<Seq<char>, V>, paths: Seq<Seq<char>>)
    ensures
        forall|p: Seq<char>|
            #[trigger] removed(fs, paths).dom().contains(p) <==> fs.dom().contains(p)
                && !paths.contains(p),
        forall|p: Seq<char>|
            #[trigger] removed(fs, paths).dom().contains(p) ==> removed(fs, paths)[p] == fs[p],
    decreases paths.len(),
{
    if paths.len() > 0 {
        let front = paths.drop_last();
        lemma_removed(fs, front);
        assert forall|p: Seq<char>| paths.contains(p) <==> front.contains(p) || p
            == paths.last() by {
            if paths.contains(p) {
                let i = choose|i: int| 0 <= i < paths.len() && paths[i] == p;
                if i < paths.len() - 1 {
                    assert(front[i] == p);
                }
            }
            if front.contains(p) {
                let i = choose|i: int| 0 <= i < front.len() && front[i] == p;
                assert(paths[i] == p);
            }
            if p == paths.last() {
                assert(paths[paths.len() - 1] == p);
            }
        }
        let before = removed(fs, front);
        let after = removed(fs, paths);
        assert(after == before.remove(paths.last()));
        assert forall|p: Seq<char>| #[trigger] after.dom().contains(p) <==> fs.dom().contains(p)
            && !paths.contains(p) by {
            assert(before.dom().contains(p) <==> fs.dom().contains(p) && !front.contains(p));
            assert(paths.contains(p) <==> front.contains(p) || p == paths.last());
        }
        assert forall|p: Seq<char>| #[trigger] after.dom().contains(p) implies after[p] == fs[p] by {
            assert(before.dom().contains(p));
        }
    }
}

proof fn lemma_committed<V>(fs: Map<Seq<char>, V>, outputs: Seq<TempOutput>, n: int)
    requires
        0 <= n <= outputs.len(),
    ensures
        forall|p: Seq<char>|
            (forall|i: int|
                0 <= i < n ==> (#[trigger] outputs[i]).final_text() != p && outputs[i].temp_text()
                    != p) ==> (#[trigger] committed(fs, outputs, n).dom().contains(p)
                <==> fs.dom().contains(p)) && (fs.dom().contains(p) ==> committed(
                fs,
                outputs,
                n,
            )[p] == fs[p]),
    decreases n,
{
    if n > 0 {
        lemma_committed(fs, outputs, n - 1);
        assert forall|p: Seq<char>|
            (forall|i: int|
                0 <= i < n ==> (#[trigger] outputs[i]).final_text() != p && outputs[i].temp_text()
                    != p) implies (#[trigger] committed(fs, outputs, n).dom().contains(p)
            <==> fs.dom().contains(p)) && (fs.dom().contains(p) ==> committed(fs, outputs, n)[p]
            == fs[p]) by {
            assert(outputs[n - 1].final_text() != p);
            let before = committed(fs, outputs, n - 1);
            assert(before.dom().contains(p) <==> fs.dom().contains(p));
        }
    }
}

/// A batch that fails part way leaves none of its outputs under its real name, and touches
/// nothing but its own names.
pub proof fn law_failed_commit_leaves_no_output<V>(
    fs: Map<Seq<char>, V>,
    outputs: Seq<TempOutput>,
    failed: int,
    paths: Seq<Seq<char>>,
)
    requires
        0 <= failed <= outputs.len(),
        paths.len() == failed,
        forall|i: int|
            0 <= i < failed ==> #[trigger] paths[i] == outputs[failed - 1 - i].final_text(),
    ensures
        ({
            let after = removed(committed(fs, outputs, failed), paths);
            &&& forall|i: int|
                0 <= i < failed ==> !after.dom().contains(
                    (#[trigger] outputs[i]).final_text(),
                )
            &&& forall|p: Seq<char>|
                (forall|i: int|
                    0 <= i < failed ==> (#[trigger] outputs[i]).final_text() != p
                        && outputs[i].temp_text() != p) ==> (#[trigger] after.dom().contains(p)
                    <==> fs.dom().contains(p)) && (fs.dom().contains(p) ==> after[p] == fs[p])
        }),
{
    let mid = committed(fs, outputs, failed);
    let after = removed(mid, paths);
    lemma_removed(mid, paths);
    lemma_committed(fs, outputs, failed);
    assert forall|i: int| 0 <= i < failed implies !after.dom().contains(
        (#[trigger] outputs[i]).final_text(),
    ) by {
        assert(paths[failed - 1 - i] == outputs[i].final_text());
        assert(paths.contains(outputs[i].final_text()));
    }
    assert forall|p: Seq<char>|
        (forall|i: int|
            0 <= i < failed ==> (#[trigger] outputs[i]).final_text() != p
                && outputs[i].temp_text() != p) implies (#[trigger] after.dom().contains(p)
        <==> fs.dom().contains(p)) && (fs.dom().contains(p) ==> after[p] == fs[p]) by {
        if paths.contains(p) {
            let i = choose|i: int| 0 <= i < paths.len() && paths[i] == p;
            assert(outputs[failed - 1 - i].final_text() != p);
        }
        assert(mid.dom().contains(p) <==> fs.dom().contains(p));
    }
}

} // verus!
