//! Vorbis comments, read and written to the etree tagging standard.
//!
//! The fields are ordinary Vorbis comments, so this is a thin, careful layer over `metaflac`
//! rather than a format of its own. Careful in two ways:
//!
//! * Writing is additive. [`apply`] sets the fields that an edit names and leaves every other
//!   comment exactly where it was, the vendor string included: that string says which encoder
//!   produced the audio, which retagging does not change and must not appear to.
//! * Audio is never touched, and that is checked: [`assert_audio_unchanged`].

use crate::bytes::same_md5;
use crate::checksum;
use crate::checksum::ffp;
use crate::digest;
use crate::digest::hex_encode;
use crate::error::Error;
use crate::format::blocks;
use crate::model;
use crate::model::AudioFormat;
use crate::text;
use crate::text::{chars_of, debug_of, decimal_string, parse_unsigned, push_decimal, push_left, same};
use vstd::prelude::*;
use vstd::string::*;

verus! {

/// The metadata of a FLAC file, as `metaflac` holds it.
#[verifier::external_type_specification]
#[verifier::external_body]
pub struct ExTag(metaflac::Tag);

/// One block of Vorbis comments, as `metaflac` holds it.
#[verifier::external_type_specification]
#[verifier::external_body]
pub struct ExVorbisComment(metaflac::block::VorbisComment);

/// Comments by key, each key with its values in order.
pub type Comments = Map<Seq<char>, Seq<Seq<char>>>;

/// The STREAMINFO blocks of a file's metadata, in order: the sample rate, the channels, the
/// bits of a sample, how many frames, and the MD5.
pub uninterp spec fn stream_infos(t: metaflac::Tag) -> Seq<(u32, u8, u8, u64, Seq<u8>)>;

/// The Vorbis comment blocks of a file's metadata, in order: the vendor and the comments.
pub uninterp spec fn comment_blocks(t: metaflac::Tag) -> Seq<
    (Seq<char>, Map<Seq<char>, Seq<Seq<char>>>),
>;

/// The vendor of one block.
pub uninterp spec fn block_vendor(b: metaflac::block::VorbisComment) -> Seq<char>;

/// The comments of one block.
pub uninterp spec fn block_comments(b: metaflac::block::VorbisComment) -> Map<
    Seq<char>,
    Seq<Seq<char>>,
>;

/// What the library asks of a file's metadata: its STREAMINFO blocks and its comment blocks.
pub type Metadata = (Seq<(u32, u8, u8, u64, Seq<u8>)>, Seq<(Seq<char>, Comments)>);

pub open spec fn metadata_of(t: metaflac::Tag) -> Metadata {
    (stream_infos(t), comment_blocks(t))
}

/// What `metaflac` makes of a file: its metadata, or what it says is wrong.
pub uninterp spec fn flac_metadata(file: Seq<u8>) -> Result<
    (Seq<(u32, u8, u8, u64, Seq<u8>)>, Seq<(Seq<char>, Map<Seq<char>, Seq<Seq<char>>>)>),
    Seq<char>,
>;

/// `metaflac::Tag::read_from`, on a file that is held in memory.
///
/// Claimed: the outcome is decided by the bytes alone. It panics on a block that ends before
/// what it announces, on a comment without `=`, and where overflow is checked on blocks that
/// together announce more than 32 bits can count, and so such files are left out.
#[verifier::external_body]
pub(crate) fn read_metadata(file: &[u8]) -> (r: Result<metaflac::Tag, String>)
    requires
        blocks::readable_blocks(file@),
    ensures
        match r {
            Ok(t) => flac_metadata(file@) == Ok::<Metadata, Seq<char>>(
                (stream_infos(t), comment_blocks(t)),
            ),
            Err(said) => flac_metadata(file@) == Err::<Metadata, Seq<char>>(said@),
        },
{
    let mut rest = file;
    metaflac::Tag::read_from(&mut rest).map_err(|e| e.to_string())
}

/// The metadata of a file.
pub fn open(path: &str, file: &[u8]) -> (r: Result<metaflac::Tag, Error>)
    requires
        blocks::readable_blocks(file@),
    ensures
        match flac_metadata(file@) {
            Ok(m) => r matches Ok(t) && metadata_of(t) == m,
            Err(said) => r matches Err(e) && crate::format::is_meta_error(e, path@, said),
        },
{
    match read_metadata(file) {
        Ok(t) => Ok(t),
        Err(said) => Err(Error::FlacMeta { path: path.to_owned(), source: said }),
    }
}

/// What a STREAMINFO block says.
#[derive(Debug, Clone)]
pub struct StreamHeader {
    pub sample_rate: u32,
    pub channels: u8,
    pub bits_per_sample: u8,
    pub total_samples: u64,
    pub md5: Vec<u8>,
}

impl View for StreamHeader {
    type V = (u32, u8, u8, u64, Seq<u8>);

    open spec fn view(&self) -> (u32, u8, u8, u64, Seq<u8>) {
        (
            self.sample_rate,
            self.channels,
            self.bits_per_sample,
            self.total_samples,
            self.md5@,
        )
    }
}

/// `metaflac::Tag::get_streaminfo`: the first STREAMINFO block, where there is one.
#[verifier::external_body]
pub(crate) fn stream_header(t: &metaflac::Tag) -> (r: Option<StreamHeader>)
    ensures
        match r {
            Some(h) => stream_infos(*t).len() > 0 && h@ == stream_infos(*t)[0],
            None => stream_infos(*t).len() == 0,
        },
{
    match t.get_streaminfo() {
        Some(si) => Some(
            StreamHeader {
                sample_rate: si.sample_rate,
                channels: si.num_channels,
                bits_per_sample: si.bits_per_sample,
                total_samples: si.total_samples,
                md5: si.md5.clone(),
            },
        ),
        None => None,
    }
}

/// `metaflac::Tag::vorbis_comments`: a copy of the first Vorbis comment block, where there is
/// one.
#[verifier::external_body]
pub(crate) fn first_block(t: &metaflac::Tag) -> (r: Option<metaflac::block::VorbisComment>)
    ensures
        match r {
            Some(b) => comment_blocks(*t).len() > 0 && comment_blocks(*t)[0] == (
                block_vendor(b),
                block_comments(b),
            ),
            None => comment_blocks(*t).len() == 0,
        },
{
    t.vorbis_comments().cloned()
}

/// The vendor string of a block: a field of `metaflac`'s `VorbisComment`.
#[verifier::external_body]
pub(crate) fn vendor_of(b: &metaflac::block::VorbisComment) -> (s: String)
    ensures
        s@ == block_vendor(*b),
{
    b.vendor_string.clone()
}

/// `metaflac::block::VorbisComment::get`: a copy of the values of a key, where it has any.
#[verifier::external_body]
fn values_of(b: &metaflac::block::VorbisComment, key: &str) -> (r: Option<Vec<String>>)
    ensures
        match r {
            Some(v) => block_comments(*b).dom().contains(key@) && text::views(v@)
                == block_comments(*b)[key@],
            None => !block_comments(*b).dom().contains(key@),
        },
{
    b.get(key).cloned()
}

/// The blocks with the first one changed; one with no vendor and no comments comes to be
/// where there was none.
pub open spec fn with_first(
    blocks: Seq<(Seq<char>, Comments)>,
    comments: Comments,
) -> Seq<(Seq<char>, Comments)> {
    if blocks.len() == 0 {
        seq![(Seq::empty(), comments)]
    } else {
        blocks.update(0, (blocks[0].0, comments))
    }
}

/// The comments of the first block.
pub open spec fn first_comments(blocks: Seq<(Seq<char>, Comments)>) -> Comments {
    if blocks.len() == 0 {
        Map::empty()
    } else {
        blocks[0].1
    }
}

/// No lower-case ASCII letter.
pub open spec fn is_upper(s: Seq<char>) -> bool {
    forall|i: int| 0 <= i < s.len() ==> !('a' <= #[trigger] s[i] && s[i] <= 'z')
}

/// `metaflac::Tag::set_vorbis` with one value, which replaces all the values that an
/// upper-case key had in the first block, and touches nothing else.
#[verifier::external_body]
fn set_value(t: &mut metaflac::Tag, key: &str, value: &str)
    requires
        is_upper(key@),
    ensures
        comment_blocks(*final(t)) == with_first(
            comment_blocks(*old(t)),
            first_comments(comment_blocks(*old(t))).insert(key@, seq![value@]),
        ),
        stream_infos(*final(t)) == stream_infos(*old(t)),
{
    t.set_vorbis(key, vec![value])
}

/// `metaflac::Tag::remove_vorbis`, which takes an upper-case key out of the first block, and
/// touches nothing else.
#[verifier::external_body]
fn remove_value(t: &mut metaflac::Tag, key: &str)
    requires
        is_upper(key@),
    ensures
        comment_blocks(*final(t)) == with_first(
            comment_blocks(*old(t)),
            first_comments(comment_blocks(*old(t))).remove(key@),
        ),
        stream_infos(*final(t)) == stream_infos(*old(t)),
{
    t.remove_vorbis(key)
}

/// `metaflac::Tag::vorbis_comments_mut`, whose comments are then those of another block.
#[verifier::external_body]
fn replace_comments(t: &mut metaflac::Tag, b: &metaflac::block::VorbisComment)
    ensures
        comment_blocks(*final(t)) == with_first(comment_blocks(*old(t)), block_comments(*b)),
        stream_infos(*final(t)) == stream_infos(*old(t)),
{
    t.vorbis_comments_mut().comments = b.comments.clone();
}

/// One of the fields that the etree standard names.
#[derive(Debug, Clone, Copy, PartialEq, Eq, Structural)]
pub enum Field {
    Title,
    Artist,
    Album,
    Date,
    TrackNumber,
    /// How many tracks the show has.
    TrackTotal,
    Genre,
    Comment,
    Location,
}

/// The fields in the order a person reads them: what the track is, then what the show was,
/// then the notes about it.
pub open spec fn all_fields() -> Seq<Field> {
    seq![
        Field::Title,
        Field::Artist,
        Field::Album,
        Field::Date,
        Field::TrackNumber,
        Field::TrackTotal,
        Field::Genre,
        Field::Comment,
        Field::Location,
    ]
}

impl Field {
    pub const ALL: [Field; 9] = [
        Field::Title,
        Field::Artist,
        Field::Album,
        Field::Date,
        Field::TrackNumber,
        Field::TrackTotal,
        Field::Genre,
        Field::Comment,
        Field::Location,
    ];

    pub open spec fn key_text(self) -> Seq<char> {
        match self {
            Field::Title => "TITLE"@,
            Field::Artist => "ARTIST"@,
            Field::Album => "ALBUM"@,
            Field::Date => "DATE"@,
            Field::TrackNumber => "TRACKNUMBER"@,
            Field::TrackTotal => "TRACKTOTAL"@,
            Field::Genre => "GENRE"@,
            Field::Comment => "COMMENT"@,
            Field::Location => "LOCATION"@,
        }
    }

    /// The Vorbis comment key, in upper case as the standard and every tool write it.
    pub fn key(self) -> (s: &'static str)
        ensures
            s@ == self.key_text(),
    {
        match self {
            Field::Title => "TITLE",
            Field::Artist => "ARTIST",
            Field::Album => "ALBUM",
            Field::Date => "DATE",
            Field::TrackNumber => "TRACKNUMBER",
            Field::TrackTotal => "TRACKTOTAL",
            Field::Genre => "GENRE",
            Field::Comment => "COMMENT",
            Field::Location => "LOCATION",
        }
    }

    /// Whether the field describes one track rather than the whole show.
    pub fn is_per_track(self) -> (b: bool)
        ensures
            b == (self is Title || self is TrackNumber),
    {
        matches!(self, Field::Title | Field::TrackNumber)
    }
}

proof fn lemma_keys()
    ensures
        forall|f: Field| is_upper(#[trigger] f.key_text()),
        forall|f: Field, g: Field| #[trigger] f.key_text() == #[trigger] g.key_text() ==> f == g,
{
    reveal_strlit("TITLE");
    reveal_strlit("ARTIST");
    reveal_strlit("ALBUM");
    reveal_strlit("DATE");
    reveal_strlit("TRACKNUMBER");
    reveal_strlit("TRACKTOTAL");
    reveal_strlit("GENRE");
    reveal_strlit("COMMENT");
    reveal_strlit("LOCATION");
    assert forall|f: Field, g: Field| #[trigger] f.key_text() == #[trigger] g.key_text() implies f
        == g by {
        let a = f.key_text();
        let b = g.key_text();
        assert(a.len() == b.len());
        assert(a[0] == b[0]);
        assert(a[1] == b[1]);
        assert(a.len() > 5 ==> a[5] == b[5]);
    }
}

/// The fields of one file, or of an edit.
///
/// Every field is text, the track number included, because this has to report what a file
/// actually says: real files carry `1/17` and `01`. `None` means that the file does not have
/// the field, and in an edit that it is left alone. To remove a field, set it to an empty
/// text.
#[derive(Debug, Clone, PartialEq, Eq)]
pub struct Tags {
    pub title: Option<String>,
    pub artist: Option<String>,
    pub album: Option<String>,
    pub date: Option<String>,
    pub track_number: Option<String>,
    pub track_total: Option<String>,
    pub genre: Option<String>,
    pub comment: Option<String>,
    pub location: Option<String>,
}

pub open spec fn opt(o: Option<String>) -> Option<Seq<char>> {
    match o {
        Some(s) => Some(s@),
        None => None,
    }
}

/// What an edit changes of the fields up to the `k`-th: the field, what it was, and what it
/// will be.
pub open spec fn changes_to(before: Tags, edit: Tags, k: int) -> Seq<
    (Field, Option<Seq<char>>, Seq<char>),
>
    decreases k,
{
    if k <= 0 {
        Seq::empty()
    } else {
        let f = all_fields()[k - 1];
        let rest = changes_to(before, edit, k - 1);
        match edit.value(f) {
            Some(after) => if before.value(f) != Some(after) {
                rest.push((f, before.value(f), after))
            } else {
                rest
            },
            None => rest,
        }
    }
}

pub open spec fn change_views(v: Seq<(Field, Option<&str>, &str)>) -> Seq<
    (Field, Option<Seq<char>>, Seq<char>),
> {
    v.map_values(
        |c: (Field, Option<&str>, &str)|
            (
                c.0,
                match c.1 {
                    Some(s) => Some(s@),
                    None => None,
                },
                c.2@,
            ),
    )
}

impl Default for Tags {
    fn default() -> (t: Tags)
        ensures
            forall|f: Field| #[trigger] t.value(f) is None,
    {
        Tags {
            title: None,
            artist: None,
            album: None,
            date: None,
            track_number: None,
            track_total: None,
            genre: None,
            comment: None,
            location: None,
        }
    }
}

impl Tags {
    /// The value of a field.
    pub open spec fn value(&self, f: Field) -> Option<Seq<char>> {
        match f {
            Field::Title => opt(self.title),
            Field::Artist => opt(self.artist),
            Field::Album => opt(self.album),
            Field::Date => opt(self.date),
            Field::TrackNumber => opt(self.track_number),
            Field::TrackTotal => opt(self.track_total),
            Field::Genre => opt(self.genre),
            Field::Comment => opt(self.comment),
            Field::Location => opt(self.location),
        }
    }

    pub fn get(&self, field: Field) -> (r: Option<&str>)
        ensures
            match r {
                Some(s) => self.value(field) == Some(s@),
                None => self.value(field) is None,
            },
    {
        let value = match field {
            Field::Title => &self.title,
            Field::Artist => &self.artist,
            Field::Album => &self.album,
            Field::Date => &self.date,
            Field::TrackNumber => &self.track_number,
            Field::TrackTotal => &self.track_total,
            Field::Genre => &self.genre,
            Field::Comment => &self.comment,
            Field::Location => &self.location,
        };
        match value {
            Some(s) => Some(s.as_str()),
            None => None,
        }
    }

    /// Sets one field, and no other.
    pub fn set(&mut self, field: Field, value: Option<String>)
        ensures
            final(self).value(field) == opt(value),
            forall|f: Field| f != field ==> #[trigger] final(self).value(f) == old(self).value(f),
    {
        match field {
            Field::Title => {
                self.title = value;
            },
            Field::Artist => {
                self.artist = value;
            },
            Field::Album => {
                self.album = value;
            },
            Field::Date => {
                self.date = value;
            },
            Field::TrackNumber => {
                self.track_number = value;
            },
            Field::TrackTotal => {
                self.track_total = value;
            },
            Field::Genre => {
                self.genre = value;
            },
            Field::Comment => {
                self.comment = value;
            },
            Field::Location => {
                self.location = value;
            },
        }
    }

    /// The track number as a number, when it is one. `None` for a file that spells it `1/17`,
    /// or does not carry it at all.
    pub fn track_number(&self) -> (r: Option<u32>)
        ensures
            match self.value(Field::TrackNumber) {
                None => r is None,
                Some(s) => match text::unsigned(s, u32::MAX as nat) {
                    Some(n) => r == Some(n as u32) && n <= u32::MAX,
                    None => r is None,
                },
            },
    {
        let s = match &self.track_number {
            Some(s) => s,
            None => {
                return None;
            },
        };
        let v = chars_of(s);
        assert(v@.subrange(0, v@.len() as int) =~= v@);
        match parse_unsigned(&v, 0, v.len(), u32::MAX as u64) {
            Some(n) => Some(n as u32),
            None => None,
        }
    }

    pub fn is_empty(&self) -> (b: bool)
        ensures
            b == (forall|f: Field| #[trigger] self.value(f) is None),
    {
        if self.title.is_some() || self.artist.is_some() || self.album.is_some()
            || self.date.is_some() || self.track_number.is_some() || self.track_total.is_some()
            || self.genre.is_some() || self.comment.is_some() || self.location.is_some() {
            proof {
                let some = if self.title.is_some() {
                    Field::Title
                } else if self.artist.is_some() {
                    Field::Artist
                } else if self.album.is_some() {
                    Field::Album
                } else if self.date.is_some() {
                    Field::Date
                } else if self.track_number.is_some() {
                    Field::TrackNumber
                } else if self.track_total.is_some() {
                    Field::TrackTotal
                } else if self.genre.is_some() {
                    Field::Genre
                } else if self.comment.is_some() {
                    Field::Comment
                } else {
                    Field::Location
                };
                assert(self.value(some) is Some);
            }
            return false;
        }
        true
    }

    /// What the edit `other` would alter, in the order of [`Field::ALL`]: the field, what it
    /// was, and what it will be. A field that the edit leaves `None` is not a change: it is
    /// untouched, not cleared.
    pub fn changes<'a>(&'a self, other: &'a Tags) -> (r: Vec<
        (Field, Option<&'a str>, &'a str),
    >)
        ensures
            change_views(r@) == changes_to(*self, *other, 9),
    {
        let fields = Field::ALL;
        assert(fields@ =~= all_fields());
        let mut r: Vec<(Field, Option<&'a str>, &'a str)> = Vec::new();
        let mut k: usize = 0;
        assert(change_views(r@) =~= changes_to(*self, *other, 0));
        while k < 9
            invariant
                k <= 9,
                fields@ == all_fields(),
                change_views(r@) == changes_to(*self, *other, k as int),
            decreases 9 - k,
        {
            let f = fields[k];
            assert(f == all_fields()[k as int]);
            let ghost had = change_views(r@);
            let before = self.get(f);
            match other.get(f) {
                Some(after) => {
                    let unchanged = match before {
                        Some(b) => same(b, after),
                        None => false,
                    };
                    if !unchanged {
                        r.push((f, before, after));
                        assert(change_views(r@) =~= had.push(
                            (f, self.value(f), after@),
                        ));
                    }
                },
                None => {},
            }
            k += 1;
        }
        r
    }
}

/// Whether a format can carry the tags at all. Only FLAC can: what WAV has of its own is
/// another standard, which no etree convention names.
pub fn is_taggable(format: AudioFormat) -> (b: bool)
    ensures
        b == (format is Flac),
{
    matches!(format, AudioFormat::Flac)
}

/// Whether it is the error of a file that cannot be tagged.
pub open spec fn is_refusal(e: Error, p: Seq<char>) -> bool {
    match model::format_of_path(p) {
        None => e matches Error::UnknownFormat { path } && path@ == p,
        Some(f) => !(f is Flac) && (e matches Error::NotTaggable { path, format } && path@ == p
            && format@ == f.name_text()),
    }
}

/// Refuses a file that is no FLAC.
pub fn require_flac(path: &str) -> (r: Result<(), Error>)
    ensures
        match r {
            Ok(_) => model::format_of_path(path@) == Some(AudioFormat::Flac),
            Err(e) => is_refusal(e, path@),
        },
{
    match AudioFormat::from_path(path) {
        Some(format) => {
            if is_taggable(format) {
                Ok(())
            } else {
                Err(Error::NotTaggable { path: path.to_owned(), format: format.name() })
            }
        },
        None => Err(Error::UnknownFormat { path: path.to_owned() }),
    }
}

/// The value of a key: the first one, where it has several.
pub open spec fn first_value(comments: Comments, key: Seq<char>) -> Option<Seq<char>> {
    if comments.dom().contains(key) && comments[key].len() > 0 {
        Some(comments[key][0])
    } else {
        None
    }
}

/// Whether these are the fields of a file with these comments.
pub open spec fn are_tags(t: Tags, comments: Comments) -> bool {
    forall|f: Field| #[trigger] t.value(f) == first_value(comments, f.key_text())
}

/// The outcome of reading the etree fields of a file.
pub open spec fn is_read(r: Result<Tags, Error>, path: Seq<char>, file: Seq<u8>) -> bool {
    if model::format_of_path(path) != Some(AudioFormat::Flac) {
        r matches Err(e) && is_refusal(e, path)
    } else {
        match flac_metadata(file) {
            Err(said) => r matches Err(e) && crate::format::is_meta_error(e, path, said),
            Ok(m) => r matches Ok(tags) && are_tags(tags, first_comments(m.1)),
        }
    }
}

/// Reads the etree fields from a file. Every other comment is ignored, not lost: [`apply`]
/// preserves what it does not set.
///
/// A field that the file carries more than once comes back as the first value.
pub fn read(path: &str, file: &[u8]) -> (r: Result<Tags, Error>)
    requires
        model::format_of_path(path@) == Some(AudioFormat::Flac) ==> blocks::readable_blocks(
            file@,
        ),
    ensures
        is_read(r, path@, file@),
{
    require_flac(path)?;
    let t = open(path, file)?;
    Ok(fields_of(&t))
}

/// The etree fields in a file's metadata.
pub fn fields_of(t: &metaflac::Tag) -> (tags: Tags)
    ensures
        are_tags(tags, first_comments(comment_blocks(*t))),
{
    let mut tags = Tags::default();
    let block = match first_block(t) {
        Some(b) => b,
        None => {
            return tags;
        },
    };
    let fields = Field::ALL;
    assert(fields@ =~= all_fields());
    let ghost comments = block_comments(block);
    let mut k: usize = 0;
    while k < 9
        invariant
            k <= 9,
            fields@ == all_fields(),
            comments == block_comments(block),
            forall|i: int|
                0 <= i < k ==> tags.value(#[trigger] all_fields()[i]) == first_value(
                    comments,
                    all_fields()[i].key_text(),
                ),
        decreases 9 - k,
    {
        let f = fields[k];
        assert(f == all_fields()[k as int]);
        let ghost before = tags;
        let value: Option<String> = match values_of(&block, f.key()) {
            Some(v) => {
                if v.len() > 0 {
                    assert(text::views(v@)[0] == v@[0]@);
                    Some(v[0].clone())
                } else {
                    None
                }
            },
            None => None,
        };
        tags.set(f, value);
        proof {
            assert forall|i: int| 0 <= i < k + 1 implies tags.value(#[trigger] all_fields()[i])
                == first_value(comments, all_fields()[i].key_text()) by {
                if i < k {
                    lemma_fields_differ(i, k as int);
                }
            }
        }
        k += 1;
    }
    assert forall|f: Field| #[trigger] tags.value(f) == first_value(comments, f.key_text()) by {
        lemma_field_index(f);
    }
    tags
}

/// Where a field stands in the list of all.
pub open spec fn field_index(f: Field) -> int {
    match f {
        Field::Title => 0,
        Field::Artist => 1,
        Field::Album => 2,
        Field::Date => 3,
        Field::TrackNumber => 4,
        Field::TrackTotal => 5,
        Field::Genre => 6,
        Field::Comment => 7,
        Field::Location => 8,
    }
}

proof fn lemma_field_index(f: Field)
    ensures
        0 <= field_index(f) < 9,
        all_fields()[field_index(f)] == f,
{
}

proof fn lemma_fields_differ(i: int, j: int)
    requires
        0 <= i < j < 9,
    ensures
        all_fields()[i] != all_fields()[j],
{
    assert(field_index(all_fields()[i]) == i);
    assert(field_index(all_fields()[j]) == j);
}

/// The comments after the fields up to the `k`-th of an edit: set, removed where the text is
/// empty, and otherwise as they were.
pub open spec fn edited(comments: Comments, edit: Tags, k: int) -> Comments
    decreases k,
{
    if k <= 0 {
        comments
    } else {
        let f = all_fields()[k - 1];
        let rest = edited(comments, edit, k - 1);
        match edit.value(f) {
            None => rest,
            Some(v) => if v.len() == 0 {
                rest.remove(f.key_text())
            } else {
                rest.insert(f.key_text(), seq![v])
            },
        }
    }
}

/// Whether an edit names no field.
pub open spec fn names_none(edit: Tags) -> bool {
    forall|f: Field| #[trigger] edit.value(f) is None
}

/// What an edit makes of a file's metadata. One that names no field leaves it as it is.
pub open spec fn applied(m: Metadata, edit: Tags) -> Metadata {
    if names_none(edit) {
        m
    } else {
        (m.0, with_first(m.1, edited(first_comments(m.1), edit, 9)))
    }
}

/// Writes the fields that `edit` names, and only those, into a file's metadata.
///
/// A field that is `None` leaves the existing value alone: an edit says what to change, not
/// what the file should end up containing. An empty text removes the field. Every comment
/// that the edit does not name survives untouched, and so does the vendor string.
pub fn apply(path: &str, t: &mut metaflac::Tag, edit: &Tags) -> (r: Result<(), Error>)
    ensures
        match r {
            Ok(_) => model::format_of_path(path@) == Some(AudioFormat::Flac) && metadata_of(
                *final(t),
            ) == applied(metadata_of(*old(t)), *edit) && (names_none(*edit) ==> *final(t) == *old(
                t,
            )),
            Err(e) => is_refusal(e, path@) && *final(t) == *old(t),
        },
{
    require_flac(path)?;
    if edit.is_empty() {
        return Ok(());
    }
    let ghost blocks = comment_blocks(*t);
    let ghost infos = stream_infos(*t);
    let ghost comments = first_comments(blocks);
    let ghost mut touched = false;
    let fields = Field::ALL;
    assert(fields@ =~= all_fields());
    let mut k: usize = 0;
    while k < 9
        invariant
            k <= 9,
            fields@ == all_fields(),
            comments == first_comments(blocks),
            stream_infos(*t) == infos,
            !touched ==> comment_blocks(*t) == blocks && edited(comments, *edit, k as int)
                == comments,
            touched ==> comment_blocks(*t) == with_first(
                blocks,
                edited(comments, *edit, k as int),
            ),
            !touched ==> forall|i: int|
                0 <= i < k ==> edit.value(#[trigger] all_fields()[i]) is None,
        decreases 9 - k,
    {
        let f = fields[k];
        assert(f == all_fields()[k as int]);
        let ghost rest = edited(comments, *edit, k as int);
        proof {
            lemma_keys();
        }
        match edit.get(f) {
            None => {},
            Some(value) => {
                if value.is_empty() {
                    remove_value(t, f.key());
                } else {
                    set_value(t, f.key(), value);
                }
                proof {
                    touched = true;
                    assert(first_comments(with_first(blocks, rest)) == rest);
                    let next = edited(comments, *edit, k + 1);
                    assert(with_first(with_first(blocks, rest), next) =~= with_first(
                        blocks,
                        next,
                    ));
                }
            },
        }
        k += 1;
    }
    proof {
        if !touched {
            assert forall|f: Field| #[trigger] edit.value(f) is None by {
                lemma_field_index(f);
            }
        }
    }
    Ok(())
}

/// Puts the comments of a block onto a file's metadata, and keeps whatever vendor string it
/// has.
///
/// A repair does this to a file that the reference encoder has just written, whose vendor
/// string is what the new file should keep: what is restored is what the tags said, not who
/// encoded the audio that they were attached to. Where there was no block there is nothing
/// to restore.
pub fn restore_comment_block(
    t: &mut metaflac::Tag,
    original: &Option<metaflac::block::VorbisComment>,
)
    ensures
        match *original {
            None => *final(t) == *old(t),
            Some(b) => comment_blocks(*final(t)) == with_first(
                comment_blocks(*old(t)),
                block_comments(b),
            ) && stream_infos(*final(t)) == stream_infos(*old(t)),
        },
{
    match original {
        Some(b) => {
            replace_comments(t, b);
        },
        None => {},
    }
}

/// The whole block of Vorbis comments of a file, for a caller that has to put it back
/// verbatim.
pub fn read_comment_block(path: &str, file: &[u8]) -> (r: Result<
    Option<metaflac::block::VorbisComment>,
    Error,
>)
    requires
        blocks::readable_blocks(file@),
    ensures
        match flac_metadata(file@) {
            Ok(m) => r matches Ok(found) && match found {
                Some(b) => m.1.len() > 0 && m.1[0] == (block_vendor(b), block_comments(b)),
                None => m.1.len() == 0,
            },
            Err(said) => r matches Err(e) && crate::format::is_meta_error(e, path@, said),
        },
{
    let t = open(path, file)?;
    Ok(first_block(&t))
}

/// Whether it is [`Error::AudioChanged`] for these.
pub open spec fn is_changed(e: Error, p: Seq<char>, b: Seq<u8>, a: Seq<u8>) -> bool {
    e matches Error::AudioChanged { path, before, after } && path@ == p && before@
        == digest::hex_text(b) && after@ == digest::hex_text(a)
}

/// The audio MD5 that a file carried before a write must be the one that it carries after. A
/// mismatch is reported as an error of its own, so that a caller stops the run rather than
/// repeat it across a show.
pub fn audio_unchanged(path: &str, before: [u8; 16], after: [u8; 16]) -> (r: Result<(), Error>)
    ensures
        match r {
            Ok(_) => before@ == after@,
            Err(e) => before@ != after@ && is_changed(e, path@, before@, after@),
        },
{
    if same_md5(&before, &after) {
        Ok(())
    } else {
        Err(
            Error::AudioChanged {
                path: path.to_owned(),
                before: hex_encode(&before),
                after: hex_encode(&after),
            },
        )
    }
}

/// [`audio_unchanged`] against the MD5 in the header that a file now has: `file` is what it
/// holds after the write.
pub fn assert_audio_unchanged(path: &str, file: &[u8], before: [u8; 16]) -> (r: Result<(), Error>)
    requires
        model::format_of_path(path@) == Some(AudioFormat::Flac) ==> blocks::readable_blocks(
            file@,
        ),
    ensures
        match r {
            Ok(_) => checksum::is_ffp(Ok(before), path@, file@),
            Err(e) => checksum::is_ffp(Err(e), path@, file@) || exists|after: [u8; 16]|
                checksum::is_ffp(Ok(after), path@, file@) && before@ != after@
                    && #[trigger] is_changed(e, path@, before@, after@),
        },
{
    let after = ffp(path, file)?;
    assert(before@ == after@ ==> before == after);
    audio_unchanged(path, before, after)
}

// Tagging a show.

/// What is said where there are not as many titles as files.
pub open spec fn titles_mismatch(titles: nat, files: nat, dir: Seq<char>) -> Seq<char> {
    text::decimal(titles) + " titles given but "@ + text::decimal(files) + " FLAC files in "@ + dir
}

/// The edit of one file of a show: the show's own fields, its number among the files, how
/// many there are, and its title, where titles were given.
pub open spec fn is_edit_of(
    edit: Tags,
    show: Tags,
    i: int,
    n: nat,
    titles: Option<Seq<Seq<char>>>,
) -> bool {
    forall|f: Field| #[trigger]
        edit.value(f) == match f {
            Field::TrackNumber => Some(text::decimal((i + 1) as nat)),
            Field::TrackTotal => Some(text::decimal(n)),
            Field::Title => match titles {
                Some(t) => Some(t[i]),
                None => show.value(Field::Title),
            },
            _ => show.value(f),
        }
}

fn copy_opt(o: &Option<String>) -> (r: Option<String>)
    ensures
        opt(r) == opt(*o),
{
    match o {
        Some(s) => Some(s.clone()),
        None => None,
    }
}

fn copy_tags(t: &Tags) -> (r: Tags)
    ensures
        forall|f: Field| #[trigger] r.value(f) == t.value(f),
{
    Tags {
        title: copy_opt(&t.title),
        artist: copy_opt(&t.artist),
        album: copy_opt(&t.album),
        date: copy_opt(&t.date),
        track_number: copy_opt(&t.track_number),
        track_total: copy_opt(&t.track_total),
        genre: copy_opt(&t.genre),
        comment: copy_opt(&t.comment),
        location: copy_opt(&t.location),
    }
}

/// The edits of a show's files, in their order. The track number always comes from the
/// position among the FLAC files and the total from how many there are; every other field is
/// the show's, but for the titles, one for each file.
pub fn show_edits(
    show: &Tags,
    titles: &Option<Vec<String>>,
    files: usize,
    dir: &str,
) -> (r: Result<Vec<Tags>, String>)
    ensures
        ({
            let given = match *titles {
                Some(t) => Some(text::views(t@)),
                None => None,
            };
            match r {
                Ok(edits) => (given matches Some(t) ==> t.len() == files) && edits.len() == files
                    && forall|i: int|
                    0 <= i < files ==> is_edit_of(
                        #[trigger] edits@[i],
                        *show,
                        i,
                        files as nat,
                        given,
                    ),
                Err(e) => given matches Some(t) && t.len() != files && e@ == titles_mismatch(
                    t.len(),
                    files as nat,
                    dir@,
                ),
            }
        }),
{
    match titles {
        Some(t) => {
            assert(text::views(t@).len() == t.len());
            if t.len() != files {
                let mut e = String::new();
                push_decimal(&mut e, t.len() as u64);
                e.append(" titles given but ");
                push_decimal(&mut e, files as u64);
                e.append(" FLAC files in ");
                e.append(dir);
                assert(e@ =~= titles_mismatch(t.len() as nat, files as nat, dir@));
                return Err(e);
            }
        },
        None => {},
    }
    let ghost given = match titles {
        Some(t) => Some(text::views(t@)),
        None => None,
    };
    let mut edits: Vec<Tags> = Vec::new();
    let mut i: usize = 0;
    while i < files
        invariant
            i <= files,
            edits.len() == i,
            titles matches Some(t) ==> t.len() == files && given == Some(text::views(t@)),
            titles is None ==> given is None,
            forall|k: int|
                0 <= k < i ==> is_edit_of(#[trigger] edits@[k], *show, k, files as nat, given),
        decreases files - i,
    {
        let mut edit = copy_tags(show);
        edit.set(Field::TrackNumber, Some(decimal_string(i as u64 + 1)));
        edit.set(Field::TrackTotal, Some(decimal_string(files as u64)));
        match titles {
            Some(t) => {
                assert(text::views(t@)[i as int] == t@[i as int]@);
                edit.set(Field::Title, Some(t[i].clone()));
            },
            None => {},
        }
        assert(is_edit_of(edit, *show, i as int, files as nat, given));
        edits.push(edit);
        i += 1;
    }
    Ok(edits)
}

/// One line of the preview of a change.
pub fn change_line(field: Field, old_value: Option<&str>, new_value: &str) -> (s: String)
    ensures
        s@ == "  "@ + text::left(field.key_text(), 12) + " "@ + text::debug_text(
            match old_value {
                Some(o) => o@,
                None => ""@,
            },
        ) + " -> "@ + text::debug_text(new_value@),
{
    let mut s = "  ".to_owned();
    push_left(&mut s, field.key(), 12);
    s.append(" ");
    s.append(&debug_of(match old_value {
        Some(o) => o,
        None => "",
    }));
    s.append(" -> ");
    s.append(&debug_of(new_value));
    s
}

// Laws.

proof fn lemma_edited_other(comments: Comments, edit: Tags, k: int, key: Seq<char>)
    requires
        0 <= k <= 9,
        forall|i: int| 0 <= i < k ==> (#[trigger] all_fields()[i]).key_text() != key,
    ensures
        edited(comments, edit, k).dom().contains(key) == comments.dom().contains(key),
        comments.dom().contains(key) ==> edited(comments, edit, k)[key] == comments[key],
    decreases k,
{
    if k > 0 {
        assert(all_fields()[k - 1].key_text() != key);
        lemma_edited_other(comments, edit, k - 1, key);
    }
}

/// Writing is additive: a comment that an edit does not name is exactly what it was.
pub proof fn law_other_comments_survive(comments: Comments, edit: Tags, key: Seq<char>)
    requires
        forall|f: Field| (#[trigger] edit.value(f)) is Some ==> f.key_text() != key,
    ensures
        edited(comments, edit, 9).dom().contains(key) == comments.dom().contains(key),
        comments.dom().contains(key) ==> edited(comments, edit, 9)[key] == comments[key],
{
    lemma_unnamed(comments, edit, 9, key);
}

proof fn lemma_unnamed(comments: Comments, edit: Tags, k: int, key: Seq<char>)
    requires
        0 <= k <= 9,
        forall|f: Field| (#[trigger] edit.value(f)) is Some ==> f.key_text() != key,
    ensures
        edited(comments, edit, k).dom().contains(key) == comments.dom().contains(key),
        comments.dom().contains(key) ==> edited(comments, edit, k)[key] == comments[key],
    decreases k,
{
    if k > 0 {
        lemma_unnamed(comments, edit, k - 1, key);
        assert(edit.value(all_fields()[k - 1]) is Some ==> all_fields()[k - 1].key_text() != key);
    }
}

/// The vendor string, which says who encoded the audio, survives every write.
pub proof fn law_vendor_survives(blocks: Seq<(Seq<char>, Comments)>, comments: Comments)
    requires
        blocks.len() > 0,
    ensures
        with_first(blocks, comments).len() == blocks.len(),
        with_first(blocks, comments)[0].0 == blocks[0].0,
        with_first(blocks, comments).drop_first() == blocks.drop_first(),
{
    assert(with_first(blocks, comments).drop_first() =~= blocks.drop_first());
}

/// What an edit leaves of a field.
pub open spec fn after_edit(before: Option<Seq<char>>, edit: Option<Seq<char>>) -> Option<
    Seq<char>,
> {
    match edit {
        None => before,
        Some(v) => if v.len() == 0 {
            None
        } else {
            Some(v)
        },
    }
}

/// What is read back after a write is what the edit said, and what was there for the fields
/// that it left alone.
pub proof fn law_written_tags_read_back(comments: Comments, edit: Tags, f: Field)
    ensures
        first_value(edited(comments, edit, 9), f.key_text()) == after_edit(
            first_value(comments, f.key_text()),
            edit.value(f),
        ),
{
    lemma_keys();
    lemma_field_index(f);
    let i = field_index(f);
    let key = f.key_text();
    assert forall|j: int| 0 <= j < i implies (#[trigger] all_fields()[j]).key_text() != key by {
        lemma_fields_differ(j, i);
    }
    lemma_edited_other(comments, edit, i, key);
    let here = edited(comments, edit, i + 1);
    assert(first_value(here, key) == after_edit(first_value(comments, key), edit.value(f)));
    lemma_later_edits(comments, edit, f, 9);
}

proof fn lemma_later_edits(comments: Comments, edit: Tags, f: Field, k: int)
    requires
        field_index(f) < k <= 9,
    ensures
        first_value(edited(comments, edit, k), f.key_text()) == first_value(
            edited(comments, edit, field_index(f) + 1),
            f.key_text(),
        ),
    decreases k,
{
    if k > field_index(f) + 1 {
        lemma_later_edits(comments, edit, f, k - 1);
        lemma_keys();
        lemma_field_index(f);
        lemma_fields_differ(field_index(f), k - 1);
        assert(all_fields()[k - 1].key_text() != f.key_text());
    }
}

/// A second write of the same edit would change nothing, but for the fields that it removes.
pub proof fn law_repeated_edit_changes_nothing(comments: Comments, edit: Tags, after: Tags)
    requires
        are_tags(after, edited(comments, edit, 9)),
        forall|f: Field| (#[trigger] edit.value(f)) is Some ==> edit.value(f)->0.len() > 0,
    ensures
        changes_to(after, edit, 9).len() == 0,
{
    lemma_no_changes(comments, edit, after, 9);
}

proof fn lemma_no_changes(comments: Comments, edit: Tags, after: Tags, k: int)
    requires
        are_tags(after, edited(comments, edit, 9)),
        forall|f: Field| (#[trigger] edit.value(f)) is Some ==> edit.value(f)->0.len() > 0,
        0 <= k <= 9,
    ensures
        changes_to(after, edit, k).len() == 0,
    decreases k,
{
    if k > 0 {
        lemma_no_changes(comments, edit, after, k - 1);
        let f = all_fields()[k - 1];
        law_written_tags_read_back(comments, edit, f);
        assert(after.value(f) == first_value(edited(comments, edit, 9), f.key_text()));
        assert(edit.value(f) is Some ==> edit.value(f)->0.len() > 0);
    }
}

/// Whether an edit leaves a key alone.
pub open spec fn leaves_alone(edit: Tags, key: Seq<char>) -> bool {
    forall|f: Field| (#[trigger] edit.value(f)) is Some ==> f.key_text() != key
}

/// A file that was tagged: `before` is what it held, and `after` holds the metadata that
/// [`apply`] made of it. What is read from it is what the edit said, and what was there for
/// the fields that it left alone; every comment under another key is as it was, and so are
/// the vendor and any further blocks; and its FFP is the one that it had.
pub proof fn law_tagged_file_reads_back(
    path: Seq<char>,
    before: Seq<u8>,
    after: Seq<u8>,
    edit: Tags,
    was: Tags,
    now: Tags,
)
    requires
        is_read(Ok(was), path, before),
        is_read(Ok(now), path, after),
        flac_metadata(before) matches Ok(m) && flac_metadata(after) == Ok::<Metadata, Seq<char>>(
            applied(m, edit),
        ),
    ensures
        forall|f: Field| #[trigger]
            now.value(f) == after_edit(was.value(f), edit.value(f)),
        ({
            let old_blocks = flac_metadata(before)->Ok_0.1;
            let new_blocks = flac_metadata(after)->Ok_0.1;
            &&& forall|key: Seq<char>| #[trigger]
                leaves_alone(edit, key) ==> {
                    let a = first_comments(old_blocks);
                    let b = first_comments(new_blocks);
                    a.dom().contains(key) == b.dom().contains(key) && (a.dom().contains(key)
                        ==> a[key] == b[key])
                }
            &&& old_blocks.len() > 0 ==> new_blocks.len() == old_blocks.len() && new_blocks[0].0
                == old_blocks[0].0 && new_blocks.drop_first() == old_blocks.drop_first()
        }),
        forall|r: Result<[u8; 16], Error>|
            #![trigger checksum::is_ffp(r, path, before)]
            #![trigger checksum::is_ffp(r, path, after)]
            checksum::is_ffp(r, path, before) == checksum::is_ffp(r, path, after),
        names_none(edit) ==> flac_metadata(after) == flac_metadata(before),
{
    let old_blocks = flac_metadata(before)->Ok_0.1;
    let new_blocks = flac_metadata(after)->Ok_0.1;
    let comments = first_comments(old_blocks);
    assert(first_comments(new_blocks) == if names_none(edit) {
        comments
    } else {
        edited(comments, edit, 9)
    });
    assert forall|f: Field| #[trigger]
        now.value(f) == after_edit(was.value(f), edit.value(f)) by {
        law_written_tags_read_back(comments, edit, f);
        assert(now.value(f) == first_value(first_comments(new_blocks), f.key_text()));
        assert(was.value(f) == first_value(comments, f.key_text()));
        if names_none(edit) {
            assert(edit.value(f) is None);
        }
    }
    assert forall|key: Seq<char>| #[trigger] leaves_alone(edit, key) implies {
        let b = first_comments(new_blocks);
        comments.dom().contains(key) == b.dom().contains(key) && (comments.dom().contains(key)
            ==> comments[key] == b[key])
    } by {
        law_other_comments_survive(comments, edit, key);
    }
    if old_blocks.len() > 0 {
        law_vendor_survives(old_blocks, edited(comments, edit, 9));
    }
}

/// Whether a field holds what the first comment under a key says, and nothing where there is
/// none.
pub open spec fn holds_first(field: Option<String>, comments: Comments, key: Seq<char>) -> bool {
    match field {
        Some(s) => comments.dom().contains(key) && comments[key].len() > 0 && s@
            == comments[key].first(),
        None => comments.dom().contains(key) ==> comments[key].len() == 0,
    }
}

/// Each field is read from the comment that bears its name in the etree standard, and from the
/// first one where there are several.
pub proof fn law_fields_are_read_by_name(t: Tags, comments: Comments)
    requires
        are_tags(t, comments),
    ensures
        holds_first(t.title, comments, "TITLE"@),
        holds_first(t.artist, comments, "ARTIST"@),
        holds_first(t.album, comments, "ALBUM"@),
        holds_first(t.date, comments, "DATE"@),
        holds_first(t.track_number, comments, "TRACKNUMBER"@),
        holds_first(t.track_total, comments, "TRACKTOTAL"@),
        holds_first(t.genre, comments, "GENRE"@),
        holds_first(t.comment, comments, "COMMENT"@),
        holds_first(t.location, comments, "LOCATION"@),
{
    assert(t.value(Field::Title) == first_value(comments, "TITLE"@));
    assert(t.value(Field::Artist) == first_value(comments, "ARTIST"@));
    assert(t.value(Field::Album) == first_value(comments, "ALBUM"@));
    assert(t.value(Field::Date) == first_value(comments, "DATE"@));
    assert(t.value(Field::TrackNumber) == first_value(comments, "TRACKNUMBER"@));
    assert(t.value(Field::TrackTotal) == first_value(comments, "TRACKTOTAL"@));
    assert(t.value(Field::Genre) == first_value(comments, "GENRE"@));
    assert(t.value(Field::Comment) == first_value(comments, "COMMENT"@));
    assert(t.value(Field::Location) == first_value(comments, "LOCATION"@));
}

/// A field that an edit names is written as the one comment under its key, and removed where
/// its text is empty.
pub proof fn law_named_field_is_written(comments: Comments, edit: Tags, f: Field, v: Seq<char>)
    requires
        edit.value(f) == Some(v),
    ensures
        v.len() == 0 ==> !edited(comments, edit, 9).dom().contains(f.key_text()),
        v.len() > 0 ==> edited(comments, edit, 9).dom().contains(f.key_text()) && edited(
            comments,
            edit,
            9,
        )[f.key_text()] == seq![v],
{
    lemma_written(comments, edit, f, v, 9);
}

proof fn lemma_written(comments: Comments, edit: Tags, f: Field, v: Seq<char>, k: int)
    requires
        edit.value(f) == Some(v),
        field_index(f) < k <= 9,
    ensures
        v.len() == 0 ==> !edited(comments, edit, k).dom().contains(f.key_text()),
        v.len() > 0 ==> edited(comments, edit, k).dom().contains(f.key_text()) && edited(
            comments,
            edit,
            k,
        )[f.key_text()] == seq![v],
    decreases k,
{
    lemma_keys();
    lemma_field_index(f);
    if k > field_index(f) + 1 {
        lemma_written(comments, edit, f, v, k - 1);
        lemma_fields_differ(field_index(f), k - 1);
        assert(all_fields()[k - 1].key_text() != f.key_text());
    }
}

/// A change is what an edit names and the file does not say already; nothing else is one.
pub proof fn law_changes_are_what_differs(
    before: Tags,
    edit: Tags,
    f: Field,
    was: Option<Seq<char>>,
    now: Seq<char>,
)
    ensures
        changes_to(before, edit, 9).contains((f, was, now)) == (edit.value(f) == Some(now)
            && before.value(f) == was && was != Some(now)),
{
    lemma_field_index(f);
    lemma_changes(before, edit, f, was, now, 9);
}

proof fn lemma_changes(
    before: Tags,
    edit: Tags,
    f: Field,
    was: Option<Seq<char>>,
    now: Seq<char>,
    k: int,
)
    requires
        0 <= k <= 9,
    ensures
        changes_to(before, edit, k).contains((f, was, now)) == (field_index(f) < k
            && edit.value(f) == Some(now) && before.value(f) == was && was != Some(now)),
    decreases k,
{
    lemma_field_index(f);
    if k > 0 {
        lemma_changes(before, edit, f, was, now, k - 1);
        let g = all_fields()[k - 1];
        assert(field_index(g) == k - 1);
        let had = changes_to(before, edit, k - 1);
        let all = changes_to(before, edit, k);
        let c = (f, was, now);
        if edit.value(g) is Some && before.value(g) != edit.value(g) {
            let last = (g, before.value(g), edit.value(g)->0);
            assert(all == had.push(last));
            assert(all[had.len() as int] == last);
            if had.contains(c) {
                let i = choose|i: int| 0 <= i < had.len() && had[i] == c;
                assert(all[i] == c);
            }
            if all.contains(c) {
                let i = choose|i: int| 0 <= i < all.len() && all[i] == c;
                assert(i < had.len() ==> had[i] == c);
            }
        }
    }
}

/// The files of a show are numbered from one in their order, each says how many there are,
/// bears the title that stands at its place, and says of the show what the show's edit does.
pub proof fn law_tracks_are_numbered_and_titled(
    edit: Tags,
    show: Tags,
    i: int,
    n: nat,
    titles: Option<Seq<Seq<char>>>,
)
    requires
        is_edit_of(edit, show, i, n, titles),
        0 <= i < n,
    ensures
        opt(edit.track_number) == Some(text::decimal((i + 1) as nat)),
        opt(edit.track_total) == Some(text::decimal(n)),
        titles matches Some(t) ==> opt(edit.title) == Some(t[i]),
        titles is None ==> opt(edit.title) == opt(show.title),
        opt(edit.artist) == opt(show.artist),
        opt(edit.album) == opt(show.album),
        opt(edit.date) == opt(show.date),
        opt(edit.genre) == opt(show.genre),
        opt(edit.comment) == opt(show.comment),
        opt(edit.location) == opt(show.location),
{
    assert(edit.value(Field::TrackNumber) == opt(edit.track_number));
    assert(edit.value(Field::TrackTotal) == opt(edit.track_total));
    assert(edit.value(Field::Title) == opt(edit.title));
    assert(edit.value(Field::Artist) == opt(edit.artist));
    assert(edit.value(Field::Album) == opt(edit.album));
    assert(edit.value(Field::Date) == opt(edit.date));
    assert(edit.value(Field::Genre) == opt(edit.genre));
    assert(edit.value(Field::Comment) == opt(edit.comment));
    assert(edit.value(Field::Location) == opt(edit.location));
}

} // verus!
