//! From a file without an index to its frames and gaps, and what is told at the
//! end.

use crate::bits::bits_of;
use crate::declared::{
    crop_at, frames_at, law_pps_declares_coding, law_sps_declares_stream, law_sps_declares_timing,
    law_sps_starts_with_profile, past_crop, read_coding, read_stream, read_timing,
};
use crate::fault::Fault;
use crate::frames::{
    frames_in_order, in_frame, in_gap, law_frames_are_due, law_split_partitions,
    lemma_in_gap_push_front, scan, split_from, Frame,
};
use crate::geometry::Found;
use crate::layout::law_payload_fits;
use crate::mdat::{
    find_mdat, find_x264_sei, law_what_is_found_is_signed, mdat_from, signed_data,
};
use crate::nal::unescaped;
use crate::order::{is_display_order, order_counts, order_known, shown_order};
use crate::pad::shown_size;
use crate::sps::{
    keeps_level, law_level_is_kept, level_from, make_pps, make_sps, pick_level, pps_unit, sps_unit,
};
use crate::video::{
    decoder_config, file_head, mdia_box, minf_box, moov_box, payload_len, ranges_of, sample_entry,
    stbl_box, stsd_box, times_fit, write_video_mp4, VideoFile, VideoOut,
};
use crate::x264::{params_of, X264};
use vstd::prelude::*;
use vstd::slice::slice_subrange;

verus! {

/// The least that media data has to hold, in bytes.
pub const MIN_DATA: usize = 16;

/// Where `d` ends without the zeros at its end, but not before `start`: a download
/// that was cut off leaves zeros.
pub open spec fn data_end(d: Seq<u8>, start: int, end: int) -> int
    decreases end,
{
    if end > start && end > 0 && d[end - 1] == 0 {
        data_end(d, start, end - 1)
    } else {
        end
    }
}

/// Where the parts of a file are.
#[derive(Clone, Copy, Debug, PartialEq, Eq, Structural)]
pub struct Located {
    /// Where the media data starts.
    pub start: usize,
    /// Where it ends.
    pub end: usize,
    /// Where the length of the encoder's user data stands.
    pub sei_start: usize,
    /// How long that user data is.
    pub sei_len: usize,
}

impl Located {
    /// The parts lie in `d`, in order.
    pub open spec fn lies_in(&self, d: Seq<u8>) -> bool {
        &&& self.start <= self.sei_start
        &&& self.sei_len >= 3
        &&& self.sei_start + 4 + self.sei_len <= self.end
        &&& self.end <= d.len()
    }

    /// Where the frames start.
    pub open spec fn frames_at(&self) -> int {
        self.sei_start + 4 + self.sei_len
    }
}

/// Where the parts of the file `d` are, or what it lacks.
pub open spec fn located(d: Seq<u8>) -> Result<Located, Fault> {
    match mdat_from(d, 0) {
        None => Err(Fault::NoMediaData),
        Some(start) => {
            let end = data_end(d, start, d.len() as int);
            if end < start + MIN_DATA {
                Err(Fault::NoUsefulData)
            } else {
                match signed_data(d, start, end) {
                    None => Err(Fault::NoEncoderData),
                    Some((q, len)) => Ok(
                        Located {
                            start: start as usize,
                            end: end as usize,
                            sei_start: q as usize,
                            sei_len: len as usize,
                        },
                    ),
                }
            }
        },
    }
}

/// Finds the media data of a file and the encoder's user data in it.
pub fn locate(d: &[u8]) -> (r: Result<Located, Fault>)
    ensures
        r == located(d@),
        r matches Ok(l) ==> l.lies_in(d@),
{
    let start: usize = match find_mdat(d) {
        Some(start) => start,
        None => {
            return Err(Fault::NoMediaData);
        },
    };
    let mut end: usize = d.len();
    while end > start && d[end - 1] == 0
        invariant
            start <= end <= d@.len(),
            data_end(d@, start as int, d@.len() as int) == data_end(d@, start as int, end as int),
        decreases end,
    {
        end = end - 1;
    }
    if end - start < MIN_DATA {
        return Err(Fault::NoUsefulData);
    }
    match find_x264_sei(d, start, end) {
        Some((sei_start, sei_len)) => Ok(Located { start, end, sei_start, sei_len }),
        None => Err(Fault::NoEncoderData),
    }
}

/// The text of the encoder's user data.
pub fn user_data<'a>(d: &'a [u8], l: &Located) -> (r: &'a [u8])
    requires
        l.lies_in(d@),
    ensures
        r@ == d@.subrange(l.sei_start + 5, l.sei_start + 4 + l.sei_len),
{
    let n: usize = d.len();
    assert(l.sei_start + 4 + l.sei_len <= n);
    slice_subrange(d, l.sei_start + 5, l.sei_start + 4 + l.sei_len)
}

/// What the media data splits into.
#[derive(Debug)]
pub struct Stream {
    /// The video frames.
    pub frames: Vec<Frame>,
    /// What lies between them, as pairs of position and length.
    pub gaps: Vec<(usize, usize)>,
}

/// The gaps of a stream: what comes before the user data is one too.
pub open spec fn stream_gaps(l: Located, gaps: Seq<(usize, usize)>) -> Seq<(usize, usize)> {
    if l.sei_start > l.start {
        seq![(l.start, (l.sei_start - l.start) as usize)] + gaps
    } else {
        gaps
    }
}

/// What the media data behind the user data splits into.
pub open spec fn split_of(d: Seq<u8>, l: Located, x: X264) -> (Seq<Frame>, Seq<(usize, usize)>) {
    split_from(
        d,
        l.frames_at(),
        l.end as int,
        params_of(x, 8).log2_fn as nat,
        0,
        usize::MAX as nat,
    )
}

/// Frames can be decoded: there are two or more, and the first is a key frame.
pub open spec fn is_decodable(frames: Seq<Frame>) -> bool {
    frames.len() >= 2 && frames[0].is_key()
}

/// Splits the media data into frames and gaps.
pub fn split_stream(d: &[u8], l: &Located, x: &X264) -> (r: Result<Stream, Fault>)
    requires
        l.lies_in(d@),
        x.derivable_spec(),
    ensures
        r is Ok <==> is_decodable(split_of(d@, *l, *x).0),
        r matches Ok(s) ==> {
            &&& s.frames@ == split_of(d@, *l, *x).0
            &&& s.gaps@ == stream_gaps(*l, split_of(d@, *l, *x).1)
            &&& frames_in_order(s.frames@, l.frames_at(), l.end as int)
            &&& forall|k: int| 0 <= k < s.frames@.len() ==> (#[trigger] s.frames@[k]).lies_in(d@)
            &&& forall|k: int|
                0 <= k < s.gaps@.len() ==> (#[trigger] s.gaps@[k]).1 > 0 && s.gaps@[k].0
                    + s.gaps@[k].1 <= d@.len()
        },
        r matches Err(e) ==> e == Fault::NoFrames,
{
    let log2_fn: u32 = crate::x264::derive(x, 8).log2_fn;
    let n: usize = d.len();
    assert(l.sei_start + 4 + l.sei_len <= n);
    let from: usize = l.sei_start + 4 + l.sei_len;
    let (frames, found): (Vec<Frame>, Vec<(usize, usize)>) = scan(
        d,
        from,
        l.end,
        log2_fn,
        usize::MAX,
    );
    if frames.len() < 2 || frames[0].hdr % 32 != 5 {
        return Err(Fault::NoFrames);
    }
    let mut gaps: Vec<(usize, usize)> = Vec::new();
    if l.sei_start > l.start {
        gaps.push((l.start, l.sei_start - l.start));
    }
    let mut rest: Vec<(usize, usize)> = found;
    gaps.append(&mut rest);
    proof {
        let whole = split_of(d@, *l, *x);
        assert(gaps@ =~= stream_gaps(*l, whole.1));
        law_split_partitions(
            d@,
            l.frames_at(),
            l.end as int,
            log2_fn as nat,
            0,
            usize::MAX as nat,
        );
        assert forall|k: int| 0 <= k < frames@.len() implies (#[trigger] frames@[k]).lies_in(
            d@,
        ) by {
            law_frames_are_due(
                d@,
                l.frames_at(),
                l.end as int,
                log2_fn as nat,
                0,
                usize::MAX as nat,
                k,
            );
        }
        assert forall|k: int| 0 <= k < gaps@.len() implies (#[trigger] gaps@[k]).1 > 0 && gaps@[k].0
            + gaps@[k].1 <= d@.len() by {
            if l.sei_start > l.start {
                if k > 0 {
                    assert(gaps@[k] == whole.1[k - 1]);
                }
            } else {
                assert(gaps@[k] == whole.1[k]);
            }
        }
    }
    Ok(Stream { frames, gaps })
}

/// The level that a find asks for at a frame rate.
pub open spec fn level_of(f: Found, fps: (u32, u32)) -> u8 {
    level_from(0, f.geo.w_mb as int, f.geo.h_mb as int, f.params.num_ref as int, fps)
}

/// The track that is written for a find: its parameter sets, and the size that is
/// left without the padding.
pub open spec fn is_track_of(
    v: VideoOut,
    x: X264,
    f: Found,
    pad: (usize, usize),
    fps: (u32, u32),
) -> bool {
    &&& v.sps@ == sps_unit(
        f.params,
        f.geo.depth as int,
        f.geo.w_mb as int,
        f.geo.h_mb as int,
        level_of(f, fps),
        ((pad.0 / 2) as u32, (pad.1 / 2) as u32),
        Some(fps),
    )
    &&& v.pps@ == pps_unit(x, f.geo.qp as int)
    &&& v.depth == f.geo.depth
    &&& v.width == f.geo.w_mb * 16 - pad.0
    &&& v.height == f.geo.h_mb * 16 - pad.1
    &&& v.fps == fps
}

/// Lays out the video that a search found, at `fps` frames per second and without
/// `pad` pixels at the right and at the bottom.
pub fn assemble(
    d: &[u8],
    frames: &[Frame],
    x: &X264,
    f: &Found,
    pad: (usize, usize),
    fps: (u32, u32),
) -> (r: Result<VideoFile, Fault>)
    requires
        forall|k: int| 0 <= k < frames@.len() ==> (#[trigger] frames@[k]).lies_in(d@),
        payload_len(frames@) + 16 <= u64::MAX,
        f.wf(),
        -0x3fff_ffff <= x.cqo <= 0x3fff_ffff,
        pad.0 <= f.geo.w_mb * 16,
        pad.1 <= f.geo.h_mb * 16,
        fps.0 > 0,
    ensures
        r is Ok <==> order_known(d@, frames@, f.params) && times_fit(
            shown_order(d@, frames@, f.params),
            fps.1,
        ),
        r matches Ok(file) ==> {
            &&& file.head@ == file_head(payload_len(frames@))
            &&& file.ranges@ == ranges_of(frames@)
            &&& f.params.poc_type == 0 ==> is_display_order(
                frames@,
                order_counts(d@, frames@, f.params),
                shown_order(d@, frames@, f.params),
            )
            &&& forall|v: VideoOut|
                is_track_of(v, *x, *f, pad, fps) ==> file.moov@ == #[trigger] moov_box(
                    frames@,
                    shown_order(d@, frames@, f.params),
                    v,
                )
        },
        r matches Err(e) ==> e == if order_known(d@, frames@, f.params) {
            Fault::TooLong
        } else {
            Fault::NoOrder
        },
{
    let s = shown_size(&f.geo, pad);
    let level: u8 = pick_level(f.geo.w_mb, f.geo.h_mb, f.params.num_ref, fps);
    let sps: Vec<u8> = make_sps(
        &f.params,
        f.geo.depth,
        f.geo.w_mb,
        f.geo.h_mb,
        level,
        s.crop,
        Some(fps),
    );
    let pps: Vec<u8> = make_pps(x, f.geo.qp);
    proof {
        law_sps_starts_with_profile(
            f.params,
            f.geo.depth as int,
            f.geo.w_mb as int,
            f.geo.h_mb as int,
            level,
            s.crop,
            Some(fps),
        );
    }
    let v = VideoOut {
        sps: sps.as_slice(),
        pps: pps.as_slice(),
        depth: f.geo.depth,
        width: s.width,
        height: s.height,
        fps,
    };
    proof {
        assert forall|w: VideoOut| is_track_of(w, *x, *f, pad, fps) implies #[trigger] moov_box(
            frames@,
            shown_order(d@, frames@, f.params),
            w,
        ) == moov_box(frames@, shown_order(d@, frames@, f.params), v) by {
            lemma_same_track(frames@, shown_order(d@, frames@, f.params), v, w);
        }
    }
    write_video_mp4(d, frames, &f.params, &v)
}

/// The index depends on what the parameter sets hold, not on where they are kept.
proof fn lemma_same_track(frames: Seq<Frame>, disp: Seq<usize>, v: VideoOut, w: VideoOut)
    requires
        v.sps@ == w.sps@,
        v.pps@ == w.pps@,
        v.depth == w.depth,
        v.width == w.width,
        v.height == w.height,
        v.fps == w.fps,
    ensures
        moov_box(frames, disp, v) == moov_box(frames, disp, w),
{
    assert(decoder_config(v) == decoder_config(w));
    assert(sample_entry(v) == sample_entry(w));
    assert(stsd_box(v) == stsd_box(w));
    assert(stbl_box(frames, disp, v) == stbl_box(frames, disp, w));
    assert(minf_box(frames, disp, v) == minf_box(frames, disp, w));
    assert(mdia_box(frames, disp, v) == mdia_box(frames, disp, w));
}

/// Of the end of a file only zeros are given up.
pub proof fn law_only_zeros_are_dropped(d: Seq<u8>, start: int, end: int, i: int)
    requires
        0 <= start <= end <= d.len(),
        data_end(d, start, end) <= i < end,
    ensures
        start <= data_end(d, start, end),
        d[i] == 0,
    decreases end,
{
    lemma_data_end(d, start, end);
    if i < end - 1 {
        law_only_zeros_are_dropped(d, start, end - 1, i);
    }
}

proof fn lemma_data_end(d: Seq<u8>, start: int, end: int)
    requires
        0 <= start <= end,
    ensures
        start <= data_end(d, start, end) <= end,
    decreases end,
{
    if end > start && d[end - 1] == 0 {
        lemma_data_end(d, start, end - 1);
    }
}

/// Nothing of the media data is lost or used twice: each byte belongs to the user
/// data, to one frame or to one gap, and to one of them only.
pub proof fn law_every_byte_is_kept(d: Seq<u8>, l: Located, x: X264, i: int)
    requires
        l.lies_in(d),
        d.len() <= usize::MAX,
        l.start <= i < l.end,
    ensures
        ({
            let frames = split_of(d, l, x).0;
            let gaps = stream_gaps(l, split_of(d, l, x).1);
            let own = l.sei_start <= i < l.frames_at();
            &&& own ==> !in_frame(frames, i) && !in_gap(gaps, i)
            &&& !own ==> in_frame(frames, i) != in_gap(gaps, i)
        }),
{
    let s = split_of(d, l, x);
    let from = l.frames_at();
    let end = l.end as int;
    let log2_fn = params_of(x, 8).log2_fn as nat;
    law_split_partitions(d, from, end, log2_fn, 0, usize::MAX as nat);
    law_payload_fits(s.0, from, end);
    assert(in_frame(s.0, i) ==> from <= i < end);
    assert(in_gap(s.1, i) ==> from <= i < end);
    if l.sei_start > l.start {
        lemma_in_gap_push_front(
            (l.start, (l.sei_start - l.start) as usize),
            s.1,
            i,
        );
    }
}

proof fn lemma_data_end_is_last(d: Seq<u8>, start: int, end: int)
    requires
        0 <= start <= end <= d.len(),
    ensures
        data_end(d, start, end) > start ==> d[data_end(d, start, end) - 1] != 0,
    decreases end,
{
    if end > start && d[end - 1] == 0 {
        lemma_data_end_is_last(d, start, end - 1);
    }
}

/// The parts of a file that was located: the media data starts where its box says and
/// ends behind the last byte that is not zero, at least 16 bytes further on; the user
/// data is that which is signed first in it.
pub proof fn law_located_parts(d: Seq<u8>)
    requires
        d.len() <= usize::MAX,
    ensures
        located(d) matches Ok(l) ==> {
            &&& mdat_from(d, 0) == Some(l.start as int)
            &&& l.start + 16 <= l.end <= d.len()
            &&& d[l.end - 1] != 0
            &&& forall|i: int| l.end <= i < d.len() ==> #[trigger] d[i] == 0
            &&& signed_data(d, l.start as int, l.end as int) == Some(
                (l.sei_start as int, l.sei_len as int),
            )
        },
{
    if let Some(start) = mdat_from(d, 0) {
        lemma_mdat_from_bounds(d, 0);
        let end = data_end(d, start, d.len() as int);
        lemma_data_end(d, start, d.len() as int);
        lemma_data_end_is_last(d, start, d.len() as int);
        assert forall|i: int| end <= i < d.len() implies #[trigger] d[i] == 0 by {
            law_only_zeros_are_dropped(d, start, d.len() as int, i);
        }
        if end >= start + MIN_DATA && signed_data(d, start, end) is Some {
            law_what_is_found_is_signed(d, start, end);
        }
    }
}

proof fn lemma_mdat_from_bounds(d: Seq<u8>, off: int)
    ensures
        mdat_from(d, off) matches Some(s) ==> 0 <= s <= d.len(),
    decreases d.len() - off,
{
    if 0 <= off && off + 8 <= d.len() && off + crate::mdat::box_header_len(d, off) <= d.len()
        && crate::mdat::box_len(d, off) >= crate::mdat::box_header_len(d, off) && off
        + crate::mdat::box_len(d, off) <= d.len() {
        lemma_mdat_from_bounds(d, off + crate::mdat::box_len(d, off));
    }
}

/// What a file lacks: media data, if it has no box of it; something useful in it, if
/// nothing but zeros stands from its 16th byte on; and the encoder's user data, if that
/// is not found in it.
pub proof fn law_what_is_lacking(d: Seq<u8>)
    requires
        d.len() <= usize::MAX,
    ensures
        located(d) == Err::<Located, Fault>(Fault::NoMediaData) <==> mdat_from(d, 0) is None,
        located(d) == Err::<Located, Fault>(Fault::NoUsefulData) <==> (mdat_from(
            d,
            0,
        ) matches Some(start) && forall|i: int| start + 15 <= i < d.len() ==> #[trigger] d[i] == 0),
        located(d) is Err ==> located(d)->Err_0 == Fault::NoMediaData || located(d)->Err_0
            == Fault::NoUsefulData || located(d)->Err_0 == Fault::NoEncoderData,
{
    if let Some(start) = mdat_from(d, 0) {
        lemma_mdat_from_bounds(d, 0);
        let end = data_end(d, start, d.len() as int);
        lemma_data_end(d, start, d.len() as int);
        lemma_data_end_is_last(d, start, d.len() as int);
        if end < start + 16 {
            assert forall|i: int| start + 15 <= i < d.len() implies #[trigger] d[i] == 0 by {
                law_only_zeros_are_dropped(d, start, d.len() as int, i);
            }
        } else {
            assert(d[end - 1] != 0);
        }
    }
}

/// A stream can be decoded if it has two frames or more and starts with a key frame.
pub proof fn law_what_can_be_decoded(frames: Seq<Frame>)
    ensures
        is_decodable(frames) <==> frames.len() > 1 && frames[0].hdr % 32 == 5,
{
}

/// The frames are looked for behind the user data, with frame numbers as wide as 8-bit
/// video of these settings has them, and up to the end.
pub proof fn law_frames_follow_the_user_data(d: Seq<u8>, l: Located, x: X264)
    requires
        x.derivable_spec(),
    ensures
        split_of(d, l, x) == split_from(
            d,
            l.sei_start + 4 + l.sei_len,
            l.end as int,
            params_of(x, 8).log2_fn as nat,
            0,
            usize::MAX as nat,
        ),
        l.frames_at() == l.sei_start + 4 + l.sei_len,
{
}

/// What is written about a find is what a decoder reads: with an even padding, the
/// frame size less the cropping is the size that the track claims; the depth, the
/// counters and the quantiser are those of the find, and the level is the lowest that
/// holds it.
pub proof fn law_track_is_the_find(
    v: VideoOut,
    x: X264,
    f: Found,
    pad: (usize, usize),
    fps: (u32, u32),
)
    requires
        f.wf(),
        is_track_of(v, x, f, pad, fps),
        f.params.num_ref < u32::MAX,
        f.params.poc_type < u32::MAX,
        f.params.reorder < u32::MAX,
        -0x3fff_ffff <= x.cqo <= 0x3fff_ffff,
        pad.0 <= 16 * f.geo.w_mb,
        pad.1 <= 16 * f.geo.h_mb,
        pad.0 % 2 == 0,
        pad.1 % 2 == 0,
        0 < fps.0 < 0x8000_0000,
    ensures
        ({
            let b = bits_of(unescaped(v.sps@.skip(1), 0));
            let c = bits_of(unescaped(v.pps@.skip(1), 0));
            let s = read_stream(b);
            let level = s.profile.level->0 as int;
            &&& s.frames.w_mb == Some(f.geo.w_mb as nat) && s.frames.h_mb == Some(f.geo.h_mb as nat)
            &&& 16 * s.frames.w_mb->0 - 2 * s.frames.crop.0->0 == v.width
            &&& 16 * s.frames.h_mb->0 - 2 * s.frames.crop.1->0 == v.height
            &&& s.profile.profile == Some(f.params.profile as nat)
            &&& s.frames.log2_fn == Some(f.params.log2_fn as nat)
            &&& s.frames.num_ref == Some(f.params.num_ref as nat)
            &&& s.profile.level is Some
            &&& keeps_level(
                level,
                f.geo.w_mb as int,
                f.geo.h_mb as int,
                f.params.num_ref as int,
                fps,
            ) || level == 60
            &&& read_timing(past_crop(crop_at(frames_at(b)))) matches Some(t) && t.tick == Some(
                fps.1 as nat,
            ) && t.scale == Some(2 * fps.0 as nat)
            &&& read_coding(c).qp == Some(f.geo.qp as int)
        }),
{
    let crop = ((pad.0 / 2) as u32, (pad.1 / 2) as u32);
    let level = level_of(f, fps);
    law_sps_declares_stream(
        f.params,
        f.geo.depth,
        f.geo.w_mb,
        f.geo.h_mb,
        level,
        crop,
        Some(fps),
    );
    law_sps_declares_timing(
        f.params,
        f.geo.depth,
        f.geo.w_mb,
        f.geo.h_mb,
        level,
        crop,
        Some(fps),
    );
    law_pps_declares_coding(x, f.geo.qp as int);
    law_level_is_kept(
        f.geo.w_mb as int,
        f.geo.h_mb as int,
        f.params.num_ref as int,
        fps,
        0,
    );
}

} // verus!
