//! What of a folder goes into a torrent.

use super::create;
use super::create::{Seen, Skipped, SourceFile};
use super::folder;
use super::metainfo;
use vstd::prelude::*;

verus! {

/// Whether a name is another with something before it.
pub open spec fn ends_in(name: Seq<char>, end: Seq<char>) -> bool {
    exists|stem: Seq<char>| name == #[trigger] (stem + end)
}

/// Whether a name is another with something behind it.
pub open spec fn starts_in(name: Seq<char>, start: Seq<char>) -> bool {
    exists|rest: Seq<char>| name == #[trigger] (start + rest)
}

/// What an operating system leaves behind, a torrent, or a file that is still being written.
pub open spec fn is_debris(name: Seq<char>) -> bool {
    ||| name == ".DS_Store"@
    ||| name == "Thumbs.db"@
    ||| name == "desktop.ini"@
    ||| starts_in(name, seq!['.', '_'])
    ||| ends_in(name, seq!['.', 't', 'o', 'r', 'r', 'e', 'n', 't'])
    ||| (starts_in(name, seq!['.']) && ends_in(name, seq!['.', 'p', 'a', 'r', 't']))
}

proof fn lemma_ends(name: Seq<char>, end: Seq<char>)
    ensures
        create::ends_with(name, end) == ends_in(name, end),
{
    if create::ends_with(name, end) {
        let stem = name.take(name.len() - end.len());
        assert(name =~= stem + end);
    }
    if ends_in(name, end) {
        let stem = choose|stem: Seq<char>| name == #[trigger] (stem + end);
        assert(name.skip(name.len() - end.len()) =~= end);
    }
}

proof fn lemma_starts(name: Seq<char>, start: Seq<char>)
    ensures
        metainfo::starts_with(name, start) == starts_in(name, start),
{
    if metainfo::starts_with(name, start) {
        let rest = name.skip(start.len() as int);
        assert(name =~= start + rest);
    }
    if starts_in(name, start) {
        let rest = choose|rest: Seq<char>| name == #[trigger] (start + rest);
        assert(name.take(start.len() as int) =~= start);
    }
}

proof fn lemma_debris(name: Seq<char>)
    ensures
        create::is_noise(name) == is_debris(name),
{
    reveal_strlit("._");
    reveal_strlit(".torrent");
    reveal_strlit(".part");
    reveal_strlit(".");
    assert("._"@ =~= seq!['.', '_']);
    assert(".torrent"@ =~= seq!['.', 't', 'o', 'r', 'r', 'e', 'n', 't']);
    assert(".part"@ =~= seq!['.', 'p', 'a', 'r', 't']);
    assert("."@ =~= seq!['.']);
    lemma_starts(name, "._"@);
    lemma_starts(name, "."@);
    lemma_ends(name, ".torrent"@);
    lemma_ends(name, ".part"@);
}

/// Of a folder's files, nothing but debris is left out, and where everything is asked for, not
/// even that: every other file of a walk is among those of the torrent, at its place and with
/// its length. Debris is left out, and is reported as such.
pub proof fn law_nothing_but_debris_is_left_out(
    root: Seq<char>,
    seen: Seq<Seen>,
    include_all: bool,
    walked: Seq<SourceFile>,
    excluded: Seq<(String, Skipped)>,
    k: int,
)
    requires
        create::is_walked(walked, excluded, root, seen, include_all),
        0 <= k < seen.len(),
        seen[k] is File,
    ensures
        include_all || !is_debris(folder::entry_name(seen[k])) ==> create::items(walked).contains(
            (folder::place(seen, k), folder::entry_path(seen[k]), seen[k]->File_length),
        ),
        !include_all && is_debris(folder::entry_name(seen[k])) ==> create::skipped(
            excluded,
        ).contains((folder::entry_path(seen[k]), Skipped::Noise)),
{
    lemma_debris(folder::entry_name(seen[k]));
    assert(seen.take(seen.len() as int) =~= seen);
    folder::lemma_included(seen, include_all, seen.len() as int);
    folder::lemma_left_out(seen, include_all, seen.len() as int);
    assert(create::goes_in(seen[k], include_all) == (include_all || !create::is_noise(
        folder::entry_name(seen[k]),
    )));
}

/// A name that has no dot before anything else, is none of the two that are known, and is not
/// that of a torrent, is no debris: a show's audio, its checksums and its texts go in.
pub proof fn law_ordinary_names_go_in(name: Seq<char>)
    requires
        name.len() > 0,
        name[0] != '.',
        name != "Thumbs.db"@,
        name != "desktop.ini"@,
        forall|stem: Seq<char>| name != #[trigger] (stem + ".torrent"@),
    ensures
        !create::is_noise(name),
{
    lemma_debris(name);
    reveal_strlit(".DS_Store");
    reveal_strlit(".torrent");
    assert(".torrent"@ =~= seq!['.', 't', 'o', 'r', 'r', 'e', 'n', 't']);
    assert(".DS_Store"@[0] == '.');
    let (hidden, dot) = (seq!['.', '_'], seq!['.']);
    if starts_in(name, hidden) {
        let rest = choose|rest: Seq<char>| name == #[trigger] (hidden + rest);
        assert(name[0] == '.');
    }
    if starts_in(name, dot) {
        let rest = choose|rest: Seq<char>| name == #[trigger] (dot + rest);
        assert(name[0] == '.');
    }
}

/// Where a file of a walk stands in the torrent: in the folders that were entered and not left
/// before it, under its own name. After entering a folder, whatever comes up to its end stands
/// in it.
pub proof fn law_files_stand_in_their_folders(seen: Seq<Seen>, k: int)
    requires
        0 <= k < seen.len(),
        folder::is_entry(seen[k]),
    ensures
        folder::place(seen, k).last() == folder::entry_name(seen[k]),
        k == 0 ==> folder::place(seen, k).len() == 1,
        k > 0 ==> match seen[k - 1] {
            Seen::Enter { .. } => folder::place(seen, k).drop_last() == folder::place(seen, k - 1),
            Seen::File { .. } => folder::place(seen, k).drop_last() == folder::place(
                seen,
                k - 1,
            ).drop_last(),
            _ => true,
        },
{
    let p = folder::place(seen, k);
    if k == 0 {
        assert(seen.take(0) =~= Seq::<Seen>::empty());
    } else {
        let front = seen.take(k - 1);
        assert(seen.take(k).drop_last() =~= front);
        assert(seen.take(k).last() == seen[k - 1]);
        let open = create::open_after(front, true);
        folder::lemma_mark_names(open);
        let q = folder::place(seen, k - 1);
        assert(q.drop_last() =~= create::names(open));
        match seen[k - 1] {
            Seen::Enter { name, path } => {
                assert(create::names(create::open_after(seen.take(k), true)) =~= create::names(
                    open,
                ).push(name@));
                assert(p.drop_last() =~= q);
            },
            _ => {
                assert(p.drop_last() =~= create::names(create::open_after(seen.take(k), true)));
            },
        }
    }
}

} // verus!
