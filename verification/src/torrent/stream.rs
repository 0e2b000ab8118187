//! The stream that a torrent is cut from.
//!
//! Every file is joined, in listed order, into one logical byte stream, and that is cut into
//! pieces of one length. Piece boundaries have nothing to do with file boundaries. Both
//! verification, which compares piece hashes, and creation, which produces them, walk this
//! stream, so the walk lives here once.

use crate::bytes::push_range;
use crate::seqs;
use vstd::prelude::*;

verus! {

/// Where one file sits in the stream.
#[derive(Debug, Clone, Copy, PartialEq, Eq)]
pub struct Span {
    pub index: usize,
    pub start: u64,
    pub end: u64,
}

/// The sum of lengths.
pub open spec fn sum(lengths: Seq<u64>) -> nat
    decreases lengths.len(),
{
    if lengths.len() == 0 {
        0
    } else {
        sum(lengths.drop_last()) + lengths.last() as nat
    }
}

pub proof fn lemma_sum_grows(lengths: Seq<u64>, i: int, j: int)
    requires
        0 <= i <= j <= lengths.len(),
    ensures
        sum(lengths.take(i)) <= sum(lengths.take(j)),
    decreases j - i,
{
    if i < j {
        lemma_sum_grows(lengths, i, j - 1);
        assert(lengths.take(j).drop_last() =~= lengths.take(j - 1));
    }
}

/// The files are laid end to end, in order.
pub open spec fn are_spans(spans: Seq<Span>, lengths: Seq<u64>) -> bool {
    &&& spans.len() == lengths.len()
    &&& forall|i: int|
        0 <= i < spans.len() ==> {
            let s = #[trigger] spans[i];
            &&& s.index == i
            &&& s.start == sum(lengths.take(i))
            &&& s.end == sum(lengths.take(i + 1))
        }
}

/// Lays the files end to end. A file of no length takes up an empty span, which overlaps no
/// piece and so is simply never read.
pub fn build_spans(lengths: &[u64]) -> (spans: Vec<Span>)
    requires
        sum(lengths@) <= u64::MAX,
    ensures
        are_spans(spans@, lengths@),
{
    let mut offset: u64 = 0;
    let mut spans: Vec<Span> = Vec::new();
    let mut i: usize = 0;
    assert(lengths@.take(0) =~= Seq::<u64>::empty());
    while i < lengths.len()
        invariant
            i <= lengths.len(),
            sum(lengths@) <= u64::MAX,
            offset == sum(lengths@.take(i as int)),
            spans.len() == i,
            forall|k: int|
                0 <= k < i ==> {
                    let s = #[trigger] spans@[k];
                    &&& s.index == k
                    &&& s.start == sum(lengths@.take(k))
                    &&& s.end == sum(lengths@.take(k + 1))
                },
        decreases lengths.len() - i,
    {
        proof {
            assert(lengths@.take(i + 1).drop_last() =~= lengths@.take(i as int));
            lemma_sum_grows(lengths@, i + 1, lengths@.len() as int);
            assert(lengths@.take(lengths@.len() as int) =~= lengths@);
        }
        let end: u64 = offset + lengths[i];
        spans.push(Span { index: i, start: offset, end });
        offset = end;
        i += 1;
    }
    spans
}

/// Whether a file has bytes between `start` and `end`.
pub open spec fn overlaps(s: Span, start: int, end: int) -> bool {
    s.start < end && start < s.end && s.start < s.end && start < end
}

pub fn overlapping(s: &Span, start: u64, end: u64) -> (b: bool)
    ensures
        b == overlaps(*s, start as int, end as int),
{
    s.start < end && start < s.end && s.start < s.end && start < end
}

/// A part of one file.
#[derive(Debug, Clone, Copy, PartialEq, Eq)]
pub struct Segment {
    pub index: usize,
    pub offset: u64,
    pub len: u64,
}

/// The part of a file between `start` and `end` of the stream.
pub open spec fn segment_of(s: Span, start: int, end: int) -> (int, int, int) {
    let from = if start < s.start {
        s.start as int
    } else {
        start
    };
    let to = if end < s.end {
        end
    } else {
        s.end as int
    };
    (s.index as int, from - s.start, to - from)
}

/// The parts of the first `n` files between `start` and `end` of the stream, in order.
pub open spec fn are_segments(
    segments: Seq<Segment>,
    spans: Seq<Span>,
    start: int,
    end: int,
    n: int,
) -> bool
    decreases n,
{
    if n <= 0 {
        segments.len() == 0
    } else if overlaps(spans[n - 1], start, end) {
        &&& segments.len() > 0
        &&& (
            segments.last().index as int,
            segments.last().offset as int,
            segments.last().len as int,
        ) == segment_of(spans[n - 1], start, end)
        &&& are_segments(segments.drop_last(), spans, start, end, n - 1)
    } else {
        are_segments(segments, spans, start, end, n - 1)
    }
}

/// What is to be read, and from which files, for the stream between `start` and `end`.
pub fn segments(spans: &[Span], start: u64, end: u64) -> (r: Vec<Segment>)
    ensures
        are_segments(r@, spans@, start as int, end as int, spans.len() as int),
{
    let mut r: Vec<Segment> = Vec::new();
    let mut i: usize = 0;
    while i < spans.len()
        invariant
            i <= spans.len(),
            are_segments(r@, spans@, start as int, end as int, i as int),
        decreases spans.len() - i,
    {
        let s = spans[i];
        if overlapping(&s, start, end) {
            let from: u64 = if start < s.start {
                s.start
            } else {
                start
            };
            let to: u64 = if end < s.end {
                end
            } else {
                s.end
            };
            let ghost before = r@;
            r.push(Segment { index: s.index, offset: from - s.start, len: to - from });
            assert(r@.drop_last() =~= before);
        }
        i += 1;
    }
    r
}

/// The bytes of segments, one after the other.
pub open spec fn segment_bytes(files: Seq<Seq<u8>>, segments: Seq<Segment>) -> Seq<u8>
    decreases segments.len(),
{
    if segments.len() == 0 {
        Seq::empty()
    } else {
        let s = segments.last();
        segment_bytes(files, segments.drop_last()) + files[s.index as int].subrange(
            s.offset as int,
            s.offset + s.len,
        )
    }
}

/// The lengths are those of the files.
pub open spec fn lengths_of(files: Seq<Seq<u8>>, lengths: Seq<u64>) -> bool {
    &&& files.len() == lengths.len()
    &&& forall|i: int| 0 <= i < files.len() ==> (#[trigger] files[i]).len() == lengths[i]
}

proof fn lemma_stream_len(files: Seq<Seq<u8>>, lengths: Seq<u64>, n: int)
    requires
        lengths_of(files, lengths),
        0 <= n <= files.len(),
    ensures
        seqs::concat(files.take(n)).len() == sum(lengths.take(n)),
    decreases n,
{
    if n > 0 {
        lemma_stream_len(files, lengths, n - 1);
        assert(files.take(n).drop_last() =~= files.take(n - 1));
        assert(lengths.take(n).drop_last() =~= lengths.take(n - 1));
    } else {
        assert(files.take(0) =~= Seq::<Seq<u8>>::empty());
        assert(lengths.take(0) =~= Seq::<u64>::empty());
    }
}

/// The part of a stream of length `len` up to `end`.
pub open spec fn clip(at: int, len: int) -> int {
    if at < len {
        at
    } else {
        len
    }
}

proof fn lemma_segments_of(
    files: Seq<Seq<u8>>,
    lengths: Seq<u64>,
    spans: Seq<Span>,
    segments: Seq<Segment>,
    start: int,
    end: int,
    n: int,
)
    requires
        lengths_of(files, lengths),
        are_spans(spans, lengths),
        0 <= start <= end,
        0 <= n <= files.len(),
        are_segments(segments, spans, start, end, n),
    ensures
        ({
            let stream = seqs::concat(files.take(n));
            segment_bytes(files, segments) == stream.subrange(
                clip(start, stream.len() as int),
                clip(end, stream.len() as int),
            )
        }),
    decreases n,
{
    let stream = seqs::concat(files.take(n));
    let len = stream.len() as int;
    lemma_stream_len(files, lengths, n);
    if n == 0 {
        assert(files.take(0) =~= Seq::<Seq<u8>>::empty());
        assert(segment_bytes(files, segments) =~= stream.subrange(
            clip(start, len),
            clip(end, len),
        ));
    } else {
        let front = seqs::concat(files.take(n - 1));
        let last = files[n - 1];
        assert(files.take(n).drop_last() =~= files.take(n - 1));
        assert(stream == front + last);
        lemma_stream_len(files, lengths, n - 1);
        let s = spans[n - 1];
        let m = front.len() as int;
        assert(s.start == m && s.end == len);
        if overlaps(s, start, end) {
            let g = segments.last();
            lemma_segments_of(files, lengths, spans, segments.drop_last(), start, end, n - 1);
            let part = last.subrange(g.offset as int, g.offset + g.len);
            assert(segment_bytes(files, segments) == front.subrange(
                clip(start, m),
                clip(end, m),
            ) + part);
            assert(front.subrange(clip(start, m), clip(end, m)) + part =~= stream.subrange(
                clip(start, len),
                clip(end, len),
            ));
        } else {
            lemma_segments_of(files, lengths, spans, segments, start, end, n - 1);
            assert(front.subrange(clip(start, m), clip(end, m)) =~= stream.subrange(
                clip(start, len),
                clip(end, len),
            ));
        }
    }
}

/// The segments of a part of the stream, one after the other, are that part.
pub proof fn law_segments_are_the_stream(
    files: Seq<Seq<u8>>,
    lengths: Seq<u64>,
    spans: Seq<Span>,
    segments: Seq<Segment>,
    start: int,
    end: int,
)
    requires
        lengths_of(files, lengths),
        are_spans(spans, lengths),
        are_segments(segments, spans, start, end, spans.len() as int),
        0 <= start <= end <= seqs::concat(files).len(),
    ensures
        segment_bytes(files, segments) == seqs::concat(files).subrange(start, end),
{
    assert(files.take(files.len() as int) =~= files);
    lemma_segments_of(files, lengths, spans, segments, start, end, files.len() as int);
}

/// Every segment lies within its file.
pub proof fn lemma_segments_inside(
    spans: Seq<Span>,
    lengths: Seq<u64>,
    segments: Seq<Segment>,
    start: int,
    end: int,
    n: int,
)
    requires
        are_spans(spans, lengths),
        0 <= start <= end,
        0 <= n <= spans.len(),
        are_segments(segments, spans, start, end, n),
    ensures
        forall|i: int|
            0 <= i < segments.len() ==> {
                let g = #[trigger] segments[i];
                g.index < spans.len() && g.offset + g.len <= lengths[g.index as int] && overlaps(
                    spans[g.index as int],
                    start,
                    end,
                )
            },
    decreases n,
{
    if n > 0 {
        if overlaps(spans[n - 1], start, end) {
            lemma_segments_inside(spans, lengths, segments.drop_last(), start, end, n - 1);
            assert(lengths.take(n).drop_last() =~= lengths.take(n - 1));
            assert forall|i: int| 0 <= i < segments.len() implies {
                let g = #[trigger] segments[i];
                g.index < spans.len() && g.offset + g.len <= lengths[g.index as int] && overlaps(
                    spans[g.index as int],
                    start,
                    end,
                )
            } by {
                if i < segments.len() - 1 {
                    assert(segments.drop_last()[i] == segments[i]);
                } else {
                    assert(spans[n - 1].index == n - 1);
                }
            }
        } else {
            lemma_segments_inside(spans, lengths, segments, start, end, n - 1);
        }
    }
}

/// Gathers the bytes of segments of files that are held in memory.
pub fn gather(files: &[Vec<u8>], segments: &[Segment]) -> (out: Vec<u8>)
    requires
        forall|i: int|
            0 <= i < segments.len() ==> {
                let g = #[trigger] segments@[i];
                g.index < files.len() && g.offset + g.len <= files@[g.index as int]@.len()
            },
    ensures
        out@ == segment_bytes(seqs::nested(files@), segments@),
{
    let ghost all = seqs::nested(files@);
    let mut out: Vec<u8> = Vec::new();
    let mut i: usize = 0;
    assert(segments@.take(0) =~= Seq::<Segment>::empty());
    while i < segments.len()
        invariant
            i <= segments.len(),
            all == seqs::nested(files@),
            forall|i: int|
                0 <= i < segments.len() ==> {
                    let g = #[trigger] segments@[i];
                    g.index < files.len() && g.offset + g.len <= files@[g.index as int]@.len()
                },
            out@ == segment_bytes(all, segments@.take(i as int)),
        decreases segments.len() - i,
    {
        let g = segments[i];
        proof {
            assert(segments@.take(i + 1).drop_last() =~= segments@.take(i as int));
            assert(all[g.index as int] == files@[g.index as int]@);
        }
        let file = &files[g.index];
        assert(g.offset + g.len <= file.len());
        let from: usize = g.offset as usize;
        let to: usize = from + g.len as usize;
        push_range(&mut out, file, from, to);
        i += 1;
    }
    assert(segments@.take(segments.len() as int) =~= segments@);
    out
}

/// Where piece `i` begins and ends.
pub open spec fn piece_start(i: int, piece_length: int) -> int {
    i * piece_length
}

pub open spec fn piece_end(i: int, piece_length: int, total: int) -> int {
    clip(i * piece_length + piece_length, total)
}

pub fn piece_range(i: usize, piece_length: u64, total: u64) -> (r: (u64, u64))
    requires
        i * piece_length <= total,
    ensures
        r.0 == piece_start(i as int, piece_length as int),
        r.1 == piece_end(i as int, piece_length as int, total as int),
{
    let start: u64 = (i as u128 * piece_length as u128) as u64;
    let end: u64 = if total - start < piece_length {
        total
    } else {
        start + piece_length
    };
    (start, end)
}

} // verus!
