//! The metadata blocks that a FLAC begins with, and reading them.

use crate::bytes;
use crate::bytes::{read_le32, tag_at};
use crate::text::utf8_of;
use vstd::prelude::*;
use vstd::slice::slice_subrange;

verus! {

/// The number that the three bytes at `i` hold, most significant first.
pub open spec fn be24_at(s: Seq<u8>, i: int) -> nat {
    (s[i] as nat) * 65536 + (s[i + 1] as nat) * 256 + s[i + 2] as nat
}

/// The number that the four bytes at `i` hold, most significant first.
pub open spec fn be32_at(s: Seq<u8>, i: int) -> nat {
    (s[i] as nat) * 16777216 + be24_at(s, i + 1)
}

/// What reading a block comes to.
#[derive(Debug, Clone, Copy, PartialEq, Eq, Structural)]
pub enum Reading {
    /// It holds all that its own lengths and counts announce.
    Whole,
    /// Something in it is refused before anything is found to be missing: a text that is no
    /// UTF-8, or a kind of picture that there is not.
    Refused,
    /// It ends before all that it announces, or a comment in it has no `=`.
    Short,
}

/// The text of `n` bytes at `i`, and what is read after it.
pub open spec fn text_then(d: Seq<u8>, i: int, n: nat, rest: Reading) -> Reading {
    if i + n > d.len() {
        Reading::Short
    } else if !vstd::utf8::valid_utf8(d.subrange(i, i + n)) {
        Reading::Refused
    } else {
        rest
    }
}

/// `n` comments, from the one at `i` on.
pub open spec fn comments_reading(d: Seq<u8>, i: int, n: nat) -> Reading
    decreases n,
{
    if n == 0 {
        Reading::Whole
    } else if i + 4 > d.len() {
        Reading::Short
    } else {
        let len = bytes::u32_at(d, i);
        text_then(
            d,
            i + 4,
            len,
            if d.subrange(i + 4, i + 4 + len).contains(61u8) {
                comments_reading(d, i + 4 + len, (n - 1) as nat)
            } else {
                Reading::Short
            },
        )
    }
}

/// A block of Vorbis comments: the vendor, how many comments, and the comments.
pub open spec fn vorbis_reading(d: Seq<u8>) -> Reading {
    if d.len() < 4 {
        Reading::Short
    } else {
        let vendor = bytes::u32_at(d, 0);
        text_then(
            d,
            4,
            vendor,
            if vendor + 8 > d.len() {
                Reading::Short
            } else {
                comments_reading(d, vendor + 8int, bytes::u32_at(d, vendor + 4int))
            },
        )
    }
}

/// A picture: its kind, the MIME type, the description, four numbers, and the picture.
pub open spec fn picture_reading(d: Seq<u8>) -> Reading {
    if d.len() < 4 {
        Reading::Short
    } else if be32_at(d, 0) > 20 {
        Reading::Refused
    } else if d.len() < 8 {
        Reading::Short
    } else {
        let mime = be32_at(d, 4);
        text_then(d, 8, mime, described_reading(d, mime + 8int))
    }
}

/// What follows the MIME type of a picture.
pub open spec fn described_reading(d: Seq<u8>, i: int) -> Reading {
    if i + 4 > d.len() {
        Reading::Short
    } else {
        let len = be32_at(d, i);
        let end = i + 4 + len;
        text_then(
            d,
            i + 4,
            len,
            if end + 20 > d.len() || end + 20 + be32_at(d, end + 16) > d.len() {
                Reading::Short
            } else {
                Reading::Whole
            },
        )
    }
}

/// `n` tracks of a cue sheet, from the one at `i` on. The last index of a track may lack the
/// three bytes that it keeps in reserve.
pub open spec fn tracks_reading(d: Seq<u8>, i: int, n: nat) -> Reading
    decreases n,
{
    if n == 0 {
        Reading::Whole
    } else if i + 21 > d.len() {
        Reading::Short
    } else {
        text_then(
            d,
            i + 9,
            12,
            if i + 36 > d.len() {
                Reading::Short
            } else {
                let indices = d[i + 35] as nat;
                if indices > 0 && i + 36 + 12 * indices - 3 > d.len() {
                    Reading::Short
                } else {
                    tracks_reading(d, i + 36 + 12 * indices, (n - 1) as nat)
                }
            },
        )
    }
}

/// A cue sheet: the catalogue number, then what is reserved, and the tracks.
pub open spec fn cue_reading(d: Seq<u8>) -> Reading {
    text_then(
        d,
        0,
        128,
        if d.len() < 396 {
            Reading::Short
        } else {
            tracks_reading(d, 396, d[395] as nat)
        },
    )
}

/// What reading a block of some kind comes to: STREAMINFO, APPLICATION, the comments, a cue
/// sheet or a picture. Of padding, seek tables and unknown blocks nothing is asked.
pub open spec fn block_reading(kind: nat, d: Seq<u8>) -> Reading {
    if kind == 0 {
        if d.len() < 34 {
            Reading::Short
        } else {
            Reading::Whole
        }
    } else if kind == 2 {
        if d.len() < 4 {
            Reading::Short
        } else {
            Reading::Whole
        }
    } else if kind == 4 {
        vorbis_reading(d)
    } else if kind == 5 {
        cue_reading(d)
    } else if kind == 6 {
        picture_reading(d)
    } else {
        Reading::Whole
    }
}

/// Where a block whose header stands at `i` ends: at the end of the file, if not before.
pub open spec fn block_end(file: Seq<u8>, i: int) -> int {
    if i + 4 + be24_at(file, i + 1) <= file.len() {
        i + 4 + be24_at(file, i + 1)
    } else {
        file.len() as int
    }
}

/// Whether each block from the one at `i` on holds what it announces, up to the last one or
/// the first that is refused, and all of them, after `before` bytes of others, announce no
/// more than 32 bits can count.
pub open spec fn blocks_hold(file: Seq<u8>, i: int, before: nat) -> bool
    decreases file.len() - i,
{
    if i < 0 || i + 4 > file.len() {
        true
    } else {
        let end = block_end(file, i);
        let total = before + 4 + be24_at(file, i + 1);
        match block_reading((file[i] % 128) as nat, file.subrange(i + 4, end)) {
            Reading::Short => false,
            Reading::Refused => true,
            Reading::Whole => total <= u32::MAX && (file[i] >= 128 || blocks_hold(
                file,
                end,
                total,
            )),
        }
    }
}

/// `fLaC` at `i`.
pub open spec fn marked_at(file: Seq<u8>, i: int) -> bool {
    i + 4 <= file.len() && file.subrange(i, i + 4) == seq![102u8, 76, 97, 67]
}

/// Whether an ID3 tag comes first, of one of three versions.
pub open spec fn id3_first(file: Seq<u8>) -> bool {
    file.len() >= 10 && file[0] == 73 && file[1] == 68 && file[2] == 51 && 2 <= file[3] <= 4
}

/// Where an ID3 tag ends: its size is written in four times seven bits, and it may have a
/// footer.
pub open spec fn id3_end(file: Seq<u8>) -> int {
    10 + (file[6] % 128) * 2097152 + (file[7] % 128) * 16384 + (file[8] % 128) * 128 + (file[9]
        % 128) + if file[5] / 16 % 2 == 1 {
        10int
    } else {
        0
    }
}

/// Where the mark of a FLAC stands.
pub open spec fn mark(file: Seq<u8>) -> int {
    if id3_first(file) {
        id3_end(file)
    } else {
        0
    }
}

/// Whether the metadata of a file can be read without coming upon a block that ends too
/// early. A file that is not marked as a FLAC has no blocks.
pub open spec fn readable_blocks(file: Seq<u8>) -> bool {
    marked_at(file, mark(file)) ==> blocks_hold(file, mark(file) + 4, 0)
}

fn read_be24(s: &[u8], i: usize) -> (n: u32)
    requires
        i + 3 <= s.len(),
    ensures
        n == be24_at(s@, i as int),
{
    s[i] as u32 * 65536 + s[i + 1] as u32 * 256 + s[i + 2] as u32
}

fn read_be32(s: &[u8], i: usize) -> (n: u32)
    requires
        i + 4 <= s.len(),
    ensures
        n == be32_at(s@, i as int),
{
    s[i] as u32 * 16777216 + read_be24(s, i + 1)
}

/// What reading the text of `n` bytes at `i` comes to.
fn read_text(d: &[u8], i: usize, n: u32) -> (r: Reading)
    requires
        i <= d.len(),
    ensures
        forall|rest: Reading| #[trigger] text_then(d@, i as int, n as nat, rest) == (if r is Whole {
            rest
        } else {
            r
        }),
        r is Whole ==> i + n <= d.len(),
{
    if d.len() - i < n as usize {
        Reading::Short
    } else {
        match utf8_of(slice_subrange(d, i, i + n as usize)) {
            Ok(_) => Reading::Whole,
            Err(_) => Reading::Refused,
        }
    }
}

fn has_equals(d: &[u8], from: usize, to: usize) -> (b: bool)
    requires
        from <= to <= d.len(),
    ensures
        b == d@.subrange(from as int, to as int).contains(61u8),
{
    let ghost part = d@.subrange(from as int, to as int);
    let mut i: usize = from;
    while i < to
        invariant
            from <= i <= to <= d.len(),
            part == d@.subrange(from as int, to as int),
            forall|k: int| 0 <= k < i - from ==> part[k] != 61u8,
        decreases to - i,
    {
        assert(part[i - from] == d@[i as int]);
        if d[i] == 61 {
            return true;
        }
        i += 1;
    }
    false
}

fn read_comments(d: &[u8], at: usize, n: u32) -> (r: Reading)
    requires
        at <= d.len(),
    ensures
        r == comments_reading(d@, at as int, n as nat),
{
    let mut i: usize = at;
    let mut left: u32 = n;
    while left > 0
        invariant
            i <= d.len(),
            comments_reading(d@, at as int, n as nat) == comments_reading(
                d@,
                i as int,
                left as nat,
            ),
        decreases left,
    {
        if d.len() - i < 4 {
            return Reading::Short;
        }
        let len = read_le32(d, i);
        let r = read_text(d, i + 4, len);
        match r {
            Reading::Whole => {},
            _ => {
                return r;
            },
        }
        let end: usize = i + 4 + len as usize;
        if !has_equals(d, i + 4, end) {
            return Reading::Short;
        }
        i = end;
        left -= 1;
    }
    Reading::Whole
}

fn read_vorbis(d: &[u8]) -> (r: Reading)
    ensures
        r == vorbis_reading(d@),
{
    if d.len() < 4 {
        return Reading::Short;
    }
    let vendor = read_le32(d, 0);
    let r = read_text(d, 4, vendor);
    match r {
        Reading::Whole => {},
        _ => {
            return r;
        },
    }
    let end: usize = 4 + vendor as usize;
    if d.len() - end < 4 {
        return Reading::Short;
    }
    read_comments(d, end + 4, read_le32(d, end))
}

fn read_described(d: &[u8], i: usize) -> (r: Reading)
    requires
        i <= d.len(),
    ensures
        r == described_reading(d@, i as int),
{
    if d.len() - i < 4 {
        return Reading::Short;
    }
    let len = read_be32(d, i);
    let r = read_text(d, i + 4, len);
    match r {
        Reading::Whole => {},
        _ => {
            return r;
        },
    }
    let end: usize = i + 4 + len as usize;
    if d.len() - end < 20 || d.len() - end - 20 < read_be32(d, end + 16) as usize {
        Reading::Short
    } else {
        Reading::Whole
    }
}

fn read_picture(d: &[u8]) -> (r: Reading)
    ensures
        r == picture_reading(d@),
{
    if d.len() < 4 {
        return Reading::Short;
    }
    if read_be32(d, 0) > 20 {
        return Reading::Refused;
    }
    if d.len() < 8 {
        return Reading::Short;
    }
    let mime = read_be32(d, 4);
    let r = read_text(d, 8, mime);
    match r {
        Reading::Whole => read_described(d, 8 + mime as usize),
        _ => r,
    }
}

fn read_tracks(d: &[u8], at: usize, n: u8) -> (r: Reading)
    requires
        at <= d.len(),
    ensures
        r == tracks_reading(d@, at as int, n as nat),
{
    let mut i: usize = at;
    let mut left: u8 = n;
    while left > 0
        invariant
            i <= d.len(),
            tracks_reading(d@, at as int, n as nat) == tracks_reading(d@, i as int, left as nat),
        decreases left,
    {
        if d.len() - i < 21 {
            return Reading::Short;
        }
        let r = read_text(d, i + 9, 12);
        match r {
            Reading::Whole => {},
            _ => {
                return r;
            },
        }
        if d.len() - i < 36 {
            return Reading::Short;
        }
        let indices: usize = d[i + 35] as usize;
        if indices > 0 && d.len() - i - 36 < 12 * indices - 3 {
            return Reading::Short;
        }
        left -= 1;
        if d.len() - i - 36 < 12 * indices {
            // Only what the last index keeps in reserve is missing.
            proof {
                reveal_with_fuel(tracks_reading, 3);
            }
            return if left == 0 {
                Reading::Whole
            } else {
                Reading::Short
            };
        }
        i = i + 36 + 12 * indices;
    }
    Reading::Whole
}

fn read_cue(d: &[u8]) -> (r: Reading)
    ensures
        r == cue_reading(d@),
{
    let r = read_text(d, 0, 128);
    match r {
        Reading::Whole => {
            if d.len() < 396 {
                Reading::Short
            } else {
                read_tracks(d, 396, d[395])
            }
        },
        _ => r,
    }
}

fn read_block(kind: u8, d: &[u8]) -> (r: Reading)
    ensures
        r == block_reading(kind as nat, d@),
{
    let least: usize = if kind == 0 {
        34
    } else if kind == 2 {
        4
    } else if kind == 4 {
        return read_vorbis(d);
    } else if kind == 5 {
        return read_cue(d);
    } else if kind == 6 {
        return read_picture(d);
    } else {
        0
    };
    if d.len() < least {
        Reading::Short
    } else {
        Reading::Whole
    }
}

/// Where the mark of a FLAC would stand in a file that can hold one there.
fn mark_of(file: &[u8]) -> (r: Option<usize>)
    ensures
        match r {
            Some(i) => i == mark(file@) && marked_at(file@, i as int),
            None => !marked_at(file@, mark(file@)),
        },
{
    let mut i: usize = 0;
    if file.len() >= 10 && file[0] == 73 && file[1] == 68 && file[2] == 51 && 2 <= file[3]
        && file[3] <= 4 {
        let size: u64 = (file[6] % 128) as u64 * 2097152 + (file[7] % 128) as u64 * 16384 + (
        file[8] % 128) as u64 * 128 + (file[9] % 128) as u64;
        let footer: u64 = if file[5] / 16 % 2 == 1 {
            10
        } else {
            0
        };
        let end: u64 = 10 + size + footer;
        assert(end == id3_end(file@));
        if end > file.len() as u64 {
            return None;
        }
        i = end as usize;
    }
    if file.len() - i >= 4 && tag_at(file, i, [102u8, 76, 97, 67]) {
        assert([102u8, 76, 97, 67]@ =~= seq![102u8, 76, 97, 67]);
        Some(i)
    } else {
        assert([102u8, 76, 97, 67]@ =~= seq![102u8, 76, 97, 67]);
        None
    }
}

/// Whether the metadata of a file can be read without coming upon a block that ends too
/// early.
pub fn has_readable_blocks(file: &[u8]) -> (b: bool)
    ensures
        b == readable_blocks(file@),
{
    let mut i: usize = match mark_of(file) {
        Some(i) => i + 4,
        None => {
            return true;
        },
    };
    let mut total: u32 = 0;
    while file.len() - i >= 4
        invariant
            i <= file.len(),
            readable_blocks(file@) == blocks_hold(file@, i as int, total as nat),
        decreases file.len() - i,
    {
        let length = read_be24(file, i + 1);
        let end: usize = if file.len() - i - 4 < length as usize {
            file.len()
        } else {
            i + 4 + length as usize
        };
        assert(end == block_end(file@, i as int));
        match read_block(file[i] % 128, slice_subrange(file, i + 4, end)) {
            Reading::Short => {
                return false;
            },
            Reading::Refused => {
                return true;
            },
            Reading::Whole => {},
        }
        if total > u32::MAX - 4 - length {
            return false;
        }
        if file[i] >= 128 {
            return true;
        }
        total = total + 4 + length;
        i = end;
    }
    true
}

} // verus!
