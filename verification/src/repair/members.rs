//! What a set must be like to be repaired, and the check on a repaired set of FLACs.

use super::plan::FixPlan;
use super::shift;
use super::shift::shift_buffers;
use super::wavs;
use super::wavs::mismatch;
use crate::bytes::same_md5;
use crate::convert::EncodeOpts;
use crate::digest;
use crate::error::Error;
use crate::format::flac;
use crate::format::flac::concatenated_pcm_md5;
use crate::model::{AudioFile, AudioFormat};
use crate::path;
use crate::seqs;
use crate::tools::{Provenance, Tool};
use vstd::prelude::*;
use vstd::string::*;

verus! {

/// One committed repair.
#[derive(Debug, Clone)]
pub struct Fixed {
    pub path: String,
    /// Frames gained from the previous file's tail.
    pub shifted_in: i64,
    /// Frames given to the next file's head.
    pub shifted_out: i64,
    pub audio_md5: [u8; 16],
    pub provenance: Provenance,
}

/// What a repair encodes with. A set of WAVs is never encoded, so `flac` and `opts` only
/// matter for FLAC; `overwrite` applies to both.
#[derive(Debug, Clone)]
pub struct RepairEncode {
    pub flac: Option<Tool>,
    pub opts: EncodeOpts,
    pub overwrite: bool,
}

/// Where the first file stands, from `from` on, that is not of this format; the number of
/// files where none is.
pub open spec fn first_other(files: Seq<AudioFile>, format: AudioFormat, from: int) -> int
    decreases files.len() - from,
{
    if from < 0 || from >= files.len() || files[from].format != format {
        from
    } else {
        first_other(files, format, from + 1)
    }
}

/// Why a set has no one format that it can be fixed as: which file, and what of it.
pub open spec fn format_objection(files: Seq<AudioFile>) -> Option<(Seq<char>, Seq<char>)> {
    if files.len() == 0 {
        Some(("<set>"@, "no files to fix"@))
    } else if !files[0].format.implemented() {
        Some(
            (
                files[0].path@,
                "sbe fix can only execute against FLAC or WAV, and this is "@
                    + files[0].format.name_text(),
            ),
        )
    } else {
        let i = first_other(files, files[0].format, 0);
        if i < files.len() {
            Some(
                (
                    files[i].path@,
                    "is "@ + files[i].format.name_text() + " but "@ + path::name_of(files[0].path@)
                        + " is "@ + files[0].format.name_text()
                        + "; sbe fix takes a set of one format — convert first"@,
                ),
            )
        } else {
            None
        }
    }
}

/// The one format that a set of files can be fixed as: every file FLAC, or every file WAV. A
/// set that mixes the two is refused, and so is any other format.
pub fn set_format(files: &[AudioFile]) -> (r: Result<AudioFormat, Error>)
    ensures
        match r {
            Ok(f) => format_objection(files@) is None && f == files@[0].format,
            Err(e) => format_objection(files@) matches Some((p, d)) && e.is_malformed(p, d),
        },
{
    if files.len() == 0 {
        return Err(Error::malformed("<set>", "no files to fix"));
    }
    let first = &files[0];
    if !first.format.is_implemented() {
        let mut d = "sbe fix can only execute against FLAC or WAV, and this is ".to_owned();
        d.append(first.format.name());
        return Err(Error::malformed(&first.path, &d));
    }
    let mut i: usize = 0;
    while i < files.len()
        invariant
            i <= files.len(),
            files.len() > 0,
            *first == files@[0],
            first.format.implemented(),
            first_other(files@, files@[0].format, 0) == first_other(
                files@,
                files@[0].format,
                i as int,
            ),
        decreases files.len() - i,
    {
        if files[i].format != first.format {
            let mut d = "is ".to_owned();
            d.append(files[i].format.name());
            d.append(" but ");
            d.append(&first.file_name());
            d.append(" is ");
            d.append(first.format.name());
            d.append("; sbe fix takes a set of one format — convert first");
            return Err(Error::malformed(&files[i].path, &d));
        }
        i += 1;
    }
    Ok(first.format)
}

/// Where the first file stands, from `from` on, that is not CD audio.
pub open spec fn first_not_cdda(files: Seq<AudioFile>, from: int) -> int
    decreases files.len() - from,
{
    if from < 0 || from >= files.len() || !files[from].stream_info.cdda() {
        from
    } else {
        first_not_cdda(files, from + 1)
    }
}

/// Why a plan cannot be carried out on a set.
pub open spec fn fix_objection(
    files: Seq<AudioFile>,
    plan: FixPlan,
    dsts: nat,
    has_flac: bool,
) -> Option<(Seq<char>, Seq<char>)> {
    let i = first_not_cdda(files, 0);
    if files.len() == 0 {
        Some(("<set>"@, "no files to fix"@))
    } else if files.len() != dsts {
        Some(("<set>"@, "files and destinations must be the same length"@))
    } else if plan.boundaries@.len() != files.len() - 1 {
        Some(("<set>"@, "this plan was not computed for this file set"@))
    } else if i < files.len() {
        Some(
            (
                files[i].path@,
                "not CD audio (44.1 kHz / 16-bit / stereo); sbe fix has nothing to align"@,
            ),
        )
    } else if format_objection(files) is Some {
        format_objection(files)
    } else if files[0].format is Flac && !has_flac {
        Some((files[0].path@, "fixing FLAC needs the reference flac binary"@))
    } else {
        None
    }
}

/// Whether a plan can be carried out on a set, and as which format. `files` and `dsts` are in
/// the order that the plan was computed for.
pub fn check_fix(files: &[AudioFile], plan: &FixPlan, dsts: &[String], encode: &RepairEncode) -> (r:
    Result<AudioFormat, Error>)
    ensures
        match r {
            Ok(f) => fix_objection(files@, *plan, dsts@.len(), encode.flac is Some) is None && f
                == files@[0].format,
            Err(e) => fix_objection(files@, *plan, dsts@.len(), encode.flac is Some) matches Some((p, d))
                && e.is_malformed(p, d),
        },
{
    if files.len() == 0 {
        return Err(Error::malformed("<set>", "no files to fix"));
    }
    if files.len() != dsts.len() {
        return Err(Error::malformed("<set>", "files and destinations must be the same length"));
    }
    if plan.boundaries.len() != files.len() - 1 {
        return Err(Error::malformed("<set>", "this plan was not computed for this file set"));
    }
    let mut i: usize = 0;
    while i < files.len()
        invariant
            i <= files.len(),
            files.len() > 0,
            files.len() == dsts.len(),
            plan.boundaries.len() == files.len() - 1,
            first_not_cdda(files@, 0) == first_not_cdda(files@, i as int),
        decreases files.len() - i,
    {
        if !files[i].stream_info.is_cdda() {
            return Err(
                Error::malformed(
                    &files[i].path,
                    "not CD audio (44.1 kHz / 16-bit / stereo); sbe fix has nothing to align",
                ),
            );
        }
        i += 1;
    }
    let format = set_format(files)?;
    if format == AudioFormat::Flac && encode.flac.is_none() {
        return Err(
            Error::malformed(&files[0].path, "fixing FLAC needs the reference flac binary"),
        );
    }
    Ok(format)
}

/// A set of FLACs that passed the check is all CD audio.
pub proof fn lemma_checked_is_cdda(files: Seq<AudioFile>, from: int)
    requires
        0 <= from <= files.len(),
        first_not_cdda(files, from) >= files.len(),
    ensures
        forall|i: int| from <= i < files.len() ==> (#[trigger] files[i]).stream_info.cdda(),
    decreases files.len() - from,
{
    if from < files.len() {
        lemma_checked_is_cdda(files, from + 1);
    }
}

fn slices(buffers: &Vec<Vec<i32>>) -> (refs: Vec<&[i32]>)
    ensures
        refs@.map_values(|b: &[i32]| b@) == seqs::nested(buffers@),
{
    let mut refs: Vec<&[i32]> = Vec::new();
    let mut i: usize = 0;
    while i < buffers.len()
        invariant
            i <= buffers.len(),
            refs.len() == i,
            forall|k: int| 0 <= k < i ==> (#[trigger] refs@[k])@ == buffers@[k]@,
        decreases buffers.len() - i,
    {
        refs.push(buffers[i].as_slice());
        i += 1;
    }
    assert(refs@.map_values(|b: &[i32]| b@) =~= seqs::nested(buffers@));
    refs
}

/// The MD5 of a set's decoded audio, laid end to end.
pub open spec fn pcm_md5(buffers: Seq<Seq<i32>>, bits: nat) -> Seq<u8> {
    digest::md5_digest(flac::pcm_bytes(seqs::concat(buffers), flac::sample_width(bits)))
}

/// The decoded audio of a set of FLACs, shifted and padded as planned, and the MD5 of what
/// it was before.
pub fn prepare_flac_set(files: &[AudioFile], buffers: Vec<Vec<i32>>, plan: &FixPlan) -> (r: Result<
    ([u8; 16], Vec<Vec<i32>>),
    Error,
>)
    requires
        buffers.len() > 0,
        files.len() == buffers.len(),
        plan.boundaries.len() == buffers.len() - 1,
        plan.wf(),
        plan.pad() * 2 <= usize::MAX,
        forall|i: int| 0 <= i < files.len() ==> (#[trigger] files@[i]).stream_info.cdda(),
    ensures
        ({
            let before = seqs::nested(buffers@);
            let lens = shift::lengths(before);
            match r {
                Ok((md5, out)) => {
                    let after = seqs::nested(out@);
                    &&& md5@ == pcm_md5(before, 16)
                    &&& out.len() == buffers.len()
                    &&& seqs::concat(after) == seqs::concat(before) + shift::silence(
                        plan.pad() * 2,
                    )
                    &&& forall|i: int|
                        0 <= i < buffers.len() - 1 ==> (#[trigger] after[i]).len()
                            == shift::shifted_len(*plan, lens, 2, i)
                    &&& forall|i: int|
                        0 <= i < buffers.len() - 1 ==> !#[trigger] shift::overdrawn(
                            *plan,
                            lens,
                            2,
                            i,
                        )
                },
                Err(e) => exists|i: int|
                    {
                        &&& 0 <= i < buffers.len() - 1
                        &&& forall|k: int|
                            0 <= k < i ==> !#[trigger] shift::overdrawn(*plan, lens, 2, k)
                        &&& #[trigger] shift::overdrawn(*plan, lens, 2, i)
                        &&& e.is_malformed(
                            files@[if plan.shift(i) > 0 {
                                i
                            } else {
                                i + 1
                            }].path@,
                            shift::overdraft(*plan, i),
                        )
                    },
            }
        }),
{
    assert(files@[0].stream_info.cdda());
    let channels: usize = files[0].stream_info.channels as usize;
    let bits: u8 = files[0].stream_info.bits_per_sample;
    let refs = slices(&buffers);
    let md5 = concatenated_pcm_md5(&refs, bits);
    match shift_buffers(files, buffers, plan, channels) {
        Ok(out) => Ok((md5, out)),
        Err(e) => Err(e),
    }
}

/// The decoded audio of the last file, without the silence that was added.
pub open spec fn unpadded(buffers: Seq<Seq<i32>>, pad: nat) -> Seq<Seq<i32>> {
    let last = buffers.last();
    buffers.update(
        buffers.len() - 1,
        if pad <= last.len() {
            last.take(last.len() - pad)
        } else {
            Seq::empty()
        },
    )
}

/// The check on a repaired set of FLACs, decoded again from what was staged: laid end to
/// end, without the added silence, the audio has the MD5 that it had before. It catches an
/// encoding mistake that happens to land on a sector. Gives each file's own audio MD5.
pub fn check_flac_set(
    plan: &FixPlan,
    dsts: &[String],
    checked: Vec<Vec<i32>>,
    before: &[u8; 16],
) -> (r: Result<Vec<[u8; 16]>, Error>)
    requires
        checked.len() > 0,
        dsts.len() == checked.len(),
        plan.pad() * 2 <= usize::MAX,
    ensures
        ({
            let found = seqs::nested(checked@);
            let after = pcm_md5(unpadded(found, plan.pad() * 2), 16);
            match r {
                Ok(md5s) => {
                    &&& after == before@
                    &&& md5s.len() == checked.len()
                    &&& forall|i: int|
                        0 <= i < md5s.len() ==> (#[trigger] md5s@[i])@ == pcm_md5(
                            seq![found[i]],
                            16,
                        )
                },
                Err(e) => after != before@ && e.is_malformed(
                    dsts@[0]@,
                    wavs::mismatch_text(before@, after),
                ),
            }
        }),
{
    let ghost found = seqs::nested(checked@);
    let mut md5s: Vec<[u8; 16]> = Vec::new();
    let mut i: usize = 0;
    while i < checked.len()
        invariant
            i <= checked.len(),
            found == seqs::nested(checked@),
            md5s.len() == i,
            forall|k: int|
                0 <= k < i ==> (#[trigger] md5s@[k])@ == pcm_md5(seq![found[k]], 16),
        decreases checked.len() - i,
    {
        let mut one: Vec<&[i32]> = Vec::new();
        one.push(checked[i].as_slice());
        assert(one@.map_values(|b: &[i32]| b@) =~= seq![found[i as int]]);
        md5s.push(concatenated_pcm_md5(&one, 16));
        i += 1;
    }
    let pad: u64 = match plan.tail_padding_frames {
        Some(n) => n,
        None => 0,
    };
    let cut: usize = (pad * 2) as usize;
    let mut kept = checked;
    let mut last = match kept.pop() {
        Some(v) => v,
        None => Vec::new(),
    };
    let keep: usize = if cut <= last.len() {
        last.len() - cut
    } else {
        0
    };
    let ghost whole = last@;
    last.truncate(keep);
    let ghost short = last@;
    kept.push(last);
    proof {
        assert(short =~= whole.take(keep as int));
        assert(whole == found.last());
        if cut > whole.len() {
            assert(short =~= Seq::<i32>::empty());
        }
        assert(seqs::nested(kept@) =~= unpadded(found, plan.pad() * 2));
    }
    let refs = slices(&kept);
    let after = concatenated_pcm_md5(&refs, 16);
    if !same_md5(&after, before) {
        return Err(mismatch(&dsts[0], before, &after));
    }
    Ok(md5s)
}

/// What a repair that was staged without a fault is checked to be: the decoded audio of the
/// staged files, if it is what was handed to the encoder, passes.
pub proof fn law_flac_repair_passes_its_check(
    plan: FixPlan,
    before: Seq<Seq<i32>>,
    after: Seq<Seq<i32>>,
)
    requires
        after.len() > 0,
        after.last().len() >= plan.pad() * 2,
        seqs::concat(after) == seqs::concat(before) + shift::silence(plan.pad() * 2),
    ensures
        seqs::concat(unpadded(after, plan.pad() * 2)) == seqs::concat(before),
        pcm_md5(unpadded(after, plan.pad() * 2), 16) == pcm_md5(before, 16),
{
    let pad = plan.pad() * 2;
    let last = after.last();
    let cut = last.take(last.len() - pad);
    let new = unpadded(after, pad);
    assert(new.drop_last() =~= after.drop_last());
    let front = seqs::concat(after.drop_last());
    assert(seqs::concat(after) == front + last);
    assert(seqs::concat(new) == front + cut);
    let whole = seqs::concat(before) + shift::silence(pad);
    assert(seqs::concat(new) =~= seqs::concat(before)) by {
        assert((front + last).len() == whole.len());
        assert forall|i: int| 0 <= i < seqs::concat(before).len() implies #[trigger] (front
            + cut)[i] == seqs::concat(before)[i] by {
            assert((front + last)[i] == whole[i]);
        }
    }
}

/// The records of a repaired set.
pub fn fixed_set(plan: &FixPlan, paths: Vec<String>, md5s: &Vec<[u8; 16]>, provenance: Vec<Provenance>) -> (r: Vec<Fixed>)
    requires
        paths.len() == plan.boundaries.len() + 1,
        md5s.len() == paths.len(),
        provenance.len() == paths.len(),
    ensures
        r.len() == paths.len(),
        forall|i: int|
            0 <= i < r.len() ==> {
                let f = #[trigger] r@[i];
                &&& f.path@ == paths@[i]@
                &&& f.shifted_in == plan.shift(i - 1)
                &&& f.shifted_out == plan.shift(i)
                &&& f.audio_md5 == md5s@[i]
                &&& f.provenance == provenance@[i]
            },
{
    let ghost all_paths = paths@;
    let ghost all_provenance = provenance@;
    let mut paths = paths;
    let mut provenance = provenance;
    let mut r: Vec<Fixed> = Vec::new();
    let mut i: usize = 0;
    while i < md5s.len()
        invariant
            i <= md5s.len(),
            md5s.len() == plan.boundaries.len() + 1,
            all_paths.len() == md5s.len(),
            all_provenance.len() == md5s.len(),
            paths.len() == md5s.len() - i,
            provenance.len() == md5s.len() - i,
            forall|k: int| 0 <= k < paths.len() ==> #[trigger] paths@[k] == all_paths[i + k],
            forall|k: int|
                0 <= k < provenance.len() ==> #[trigger] provenance@[k] == all_provenance[i + k],
            r.len() == i,
            forall|k: int|
                0 <= k < i ==> {
                    let f = #[trigger] r@[k];
                    &&& f.path@ == all_paths[k]@
                    &&& f.shifted_in == plan.shift(k - 1)
                    &&& f.shifted_out == plan.shift(k)
                    &&& f.audio_md5 == md5s@[k]
                    &&& f.provenance == all_provenance[k]
                },
        decreases md5s.len() - i,
    {
        assert(paths@[0] == all_paths[i + 0]);
        assert(provenance@[0] == all_provenance[i + 0]);
        let path = paths.remove(0);
        let who = provenance.remove(0);
        r.push(
            Fixed {
                path,
                shifted_in: plan.shifted_in(i),
                shifted_out: plan.shifted_out(i),
                audio_md5: md5s[i],
                provenance: who,
            },
        );
        i += 1;
    }
    r
}

proof fn lemma_first_not_cdda(files: Seq<AudioFile>, from: int)
    requires
        0 <= from <= files.len(),
    ensures
        from <= first_not_cdda(files, from) <= files.len(),
        forall|i: int|
            from <= i < first_not_cdda(files, from) ==> (#[trigger] files[i]).stream_info.cdda(),
        first_not_cdda(files, from) < files.len() ==> !files[first_not_cdda(
            files,
            from,
        )].stream_info.cdda(),
    decreases files.len() - from,
{
    if from < files.len() && files[from].stream_info.cdda() {
        lemma_first_not_cdda(files, from + 1);
    }
}

proof fn lemma_first_of_another(files: Seq<AudioFile>, format: AudioFormat, from: int)
    requires
        0 <= from <= files.len(),
    ensures
        from <= first_other(files, format, from) <= files.len(),
        forall|i: int|
            from <= i < first_other(files, format, from) ==> (#[trigger] files[i]).format
                == format,
        first_other(files, format, from) < files.len() ==> files[first_other(
            files,
            format,
            from,
        )].format != format,
    decreases files.len() - from,
{
    if from < files.len() && files[from].format == format {
        lemma_first_of_another(files, format, from + 1);
    }
}

/// A set is fixed just where it is CD audio throughout and of one format, FLAC or WAV, where
/// the plan has a boundary between any two of its files, where each has a destination, and
/// where there is a `flac` for what is FLAC.
pub proof fn law_only_cd_audio_is_fixed(
    files: Seq<AudioFile>,
    plan: FixPlan,
    dsts: nat,
    has_flac: bool,
)
    ensures
        fix_objection(files, plan, dsts, has_flac) is None <==> {
            &&& files.len() > 0
            &&& files.len() == dsts
            &&& plan.boundaries@.len() == files.len() - 1
            &&& forall|i: int|
                0 <= i < files.len() ==> (#[trigger] files[i]).stream_info.sample_rate == 44_100
                    && files[i].stream_info.channels == 2 && files[i].stream_info.bits_per_sample
                    == 16
            &&& forall|i: int| 0 <= i < files.len() ==> (#[trigger] files[i]).format
                == files[0].format
            &&& files[0].format is Flac || files[0].format is Wav
            &&& files[0].format is Flac ==> has_flac
        },
{
    if files.len() > 0 {
        lemma_first_not_cdda(files, 0);
        lemma_first_of_another(files, files[0].format, 0);
        let i = first_not_cdda(files, 0);
        if i < files.len() {
            assert(!files[i].stream_info.cdda());
        }
    }
}

} // verus!
