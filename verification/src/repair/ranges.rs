//! Where the audio of each repaired file comes from.

use crate::seqs;
use std::ops::Range;
use vstd::prelude::*;

verus! {

/// The sum of the first `n` lengths.
pub open spec fn sum_to(lens: Seq<u64>, n: int) -> int
    decreases n,
{
    if n <= 0 {
        0
    } else {
        sum_to(lens, n - 1) + lens[n - 1]
    }
}

pub proof fn lemma_sum_monotone(lens: Seq<u64>, a: int, b: int)
    requires
        0 <= a <= b <= lens.len(),
    ensures
        0 <= sum_to(lens, a) <= sum_to(lens, b),
    decreases b,
{
    if a < b {
        lemma_sum_monotone(lens, a, b - 1);
    } else if a > 0 {
        lemma_sum_monotone(lens, a - 1, a - 1);
    }
}

/// Byte `at` of source `j`, counted through all the sources laid end to end.
pub open spec fn place(src: Seq<u64>, j: int, at: int) -> int {
    sum_to(src, j) + at
}

/// The ranges are parts of the sources, none of them empty, and lead without a gap from
/// `from` to `to`, counted through all the sources laid end to end.
pub open spec fn leads(src: Seq<u64>, ranges: Seq<(usize, Range<u64>)>, from: int, to: int) -> bool
    decreases ranges.len(),
{
    if ranges.len() == 0 {
        from == to
    } else {
        let (j, range) = ranges.last();
        &&& j < src.len()
        &&& range.start < range.end <= src[j as int]
        &&& place(src, j as int, range.end as int) == to
        &&& leads(src, ranges.drop_last(), from, place(src, j as int, range.start as int))
    }
}

/// The bytes that a list of ranges picks out of the sources.
pub open spec fn picked(data: Seq<Seq<u8>>, ranges: Seq<(usize, Range<u64>)>) -> Seq<u8>
    decreases ranges.len(),
{
    if ranges.len() == 0 {
        Seq::empty()
    } else {
        let (j, range) = ranges.last();
        picked(data, ranges.drop_last()) + data[j as int].subrange(
            range.start as int,
            range.end as int,
        )
    }
}

/// Each source is as long as is said of it.
pub open spec fn have_lens(data: Seq<Seq<u8>>, src: Seq<u64>) -> bool {
    &&& data.len() == src.len()
    &&& forall|i: int| 0 <= i < src.len() ==> (#[trigger] data[i]).len() == src[i]
}

proof fn lemma_place_in_concat(data: Seq<Seq<u8>>, src: Seq<u64>, j: int)
    requires
        have_lens(data, src),
        0 <= j <= src.len(),
    ensures
        seqs::concat(data.take(j)).len() == sum_to(src, j),
    decreases j,
{
    if j > 0 {
        lemma_place_in_concat(data, src, j - 1);
        assert(data.take(j).drop_last() =~= data.take(j - 1));
        assert(data.take(j).last() == data[j - 1]);
    } else {
        assert(data.take(0) =~= Seq::<Seq<u8>>::empty());
    }
}

proof fn lemma_source_in_concat(data: Seq<Seq<u8>>, src: Seq<u64>, j: int, a: int, b: int)
    requires
        have_lens(data, src),
        0 <= j < src.len(),
        0 <= a <= b <= src[j],
    ensures
        place(src, j, b) <= seqs::concat(data).len(),
        seqs::concat(data).subrange(place(src, j, a), place(src, j, b)) == data[j].subrange(a, b),
        0 <= place(src, j, a),
{
    lemma_place_in_concat(data, src, j);
    let before = data.take(j);
    let after = data.skip(j + 1);
    assert(data =~= before + seq![data[j]] + after);
    seqs::lemma_concat_add(before + seq![data[j]], after);
    seqs::lemma_concat_add(before, seq![data[j]]);
    seqs::lemma_concat_one(data[j]);
    assert(seqs::concat(data) == seqs::concat(before) + data[j] + seqs::concat(after));
    assert(seqs::concat(data).subrange(place(src, j, a), place(src, j, b)) =~= data[j].subrange(
        a,
        b,
    ));
}

/// Ranges that lead from one place to another pick out exactly what lies between the two.
pub proof fn law_ranges_pick_what_they_span(
    data: Seq<Seq<u8>>,
    src: Seq<u64>,
    ranges: Seq<(usize, Range<u64>)>,
    from: int,
    to: int,
)
    requires
        have_lens(data, src),
        0 <= from <= seqs::concat(data).len(),
        leads(src, ranges, from, to),
    ensures
        from <= to <= seqs::concat(data).len(),
        picked(data, ranges) == seqs::concat(data).subrange(from, to),
    decreases ranges.len(),
{
    let all = seqs::concat(data);
    if ranges.len() == 0 {
        assert(all.subrange(from, to) =~= Seq::<u8>::empty());
    } else {
        let (j, range) = ranges.last();
        let mid = place(src, j as int, range.start as int);
        law_ranges_pick_what_they_span(data, src, ranges.drop_last(), from, mid);
        lemma_source_in_concat(data, src, j as int, range.start as int, range.end as int);
        assert(all.subrange(from, to) =~= all.subrange(from, mid) + all.subrange(mid, to));
    }
}

/// Where each output's audio comes from: byte ranges of the sources, as
/// `(source index, range)`, in order. Laid end to end, output after output, they are every
/// source laid end to end, cut at `new_lens` instead of `src_lens`. Both must add up to the
/// same total; a range may reach past the next source when a short file hands on frames that
/// it was itself handed.
pub fn data_ranges(src_lens: &[u64], new_lens: &[u64]) -> (r: Vec<Vec<(usize, Range<u64>)>>)
    requires
        sum_to(src_lens@, src_lens@.len() as int) == sum_to(new_lens@, new_lens@.len() as int),
    ensures
        r.len() == new_lens.len(),
        forall|i: int|
            0 <= i < r.len() ==> leads(
                src_lens@,
                (#[trigger] r@[i])@,
                sum_to(new_lens@, i),
                sum_to(new_lens@, i + 1),
            ),
{
    let ghost src = src_lens@;
    let ghost new = new_lens@;
    let mut r: Vec<Vec<(usize, Range<u64>)>> = Vec::new();
    let mut j: usize = 0;
    let mut at: u64 = 0;
    let mut i: usize = 0;
    while i < new_lens.len()
        invariant
            i <= new_lens.len(),
            src == src_lens@,
            new == new_lens@,
            sum_to(src, src.len() as int) == sum_to(new, new.len() as int),
            j <= src.len(),
            j < src.len() ==> at <= src[j as int],
            j == src.len() ==> at == 0,
            place(src, j as int, at as int) == sum_to(new, i as int),
            r.len() == i,
            forall|k: int|
                0 <= k < i ==> leads(
                    src,
                    (#[trigger] r@[k])@,
                    sum_to(new, k),
                    sum_to(new, k + 1),
                ),
        decreases new_lens.len() - i,
    {
        let mut out: Vec<(usize, Range<u64>)> = Vec::new();
        let mut need: u64 = new_lens[i];
        let ghost from = sum_to(new, i as int);
        proof {
            lemma_sum_monotone(new, i as int + 1, new.len() as int);
        }
        while need > 0
            invariant
                i < new_lens.len(),
                src == src_lens@,
                new == new_lens@,
                from == sum_to(new, i as int),
                sum_to(new, i + 1) <= sum_to(src, src.len() as int),
                j <= src.len(),
                j < src.len() ==> at <= src[j as int],
                j == src.len() ==> at == 0,
                need <= new[i as int],
                place(src, j as int, at as int) == from + new[i as int] - need,
                leads(src, out@, from, place(src, j as int, at as int)),
            decreases src.len() - j, need,
        {
            proof {
                if j < src.len() {
                    lemma_sum_monotone(src, j as int + 1, src.len() as int);
                }
            }
            let left: u64 = src_lens[j] - at;
            if left == 0 {
                j += 1;
                at = 0;
            } else {
                let take: u64 = if need < left {
                    need
                } else {
                    left
                };
                let ghost so_far = out@;
                out.push((j, at..at + take));
                assert(out@.drop_last() =~= so_far);
                at += take;
                need -= take;
            }
        }
        r.push(out);
        i += 1;
    }
    r
}

} // verus!
