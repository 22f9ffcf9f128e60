//! What a decoder reads in the parameter sets.

use crate::bits::{
    bits_of, law_exp_golomb_read_back, law_field_read_back, lemma_assoc, lemma_packed_whole,
    lemma_u_bits_len, lemma_value_bound, lemma_value_of_u_bits, packed, read_u, read_ue, se_bits,
    se_index, u_bits, ue_bits, value, with_trailer, zeros,
};
use crate::nal::{escaped, law_escape_round_trip, law_no_start_code, unescaped, zero_run};
use crate::sps::{
    crop_bits, format_bits, is_high_profile, nal_unit, order_bits, pps_bits, pps_unit,
    prediction_bits, quantiser_bits, sps_bits, sps_unit, transform_bits, usability_bits,
};
use crate::x264::{Params, X264};
use vstd::arithmetic::power2::lemma2_to64;
use vstd::prelude::*;

verus! {

/// The sample format in a sequence parameter set of a high profile.
pub struct DeclaredFormat {
    /// How chroma is sampled: 1 is at half the resolution both ways.
    pub chroma: Option<nat>,
    /// Bits per luma sample.
    pub luma_depth: Option<nat>,
    /// Bits per chroma sample.
    pub chroma_depth: Option<nat>,
    /// Whether the transform is bypassed and whether matrices are scaled, as two
    /// bits.
    pub flags: Option<nat>,
}

/// What a sequence parameter set tells a decoder first.
pub struct DeclaredProfile {
    /// The profile.
    pub profile: Option<nat>,
    /// The constraints.
    pub constraints: Option<nat>,
    /// The level.
    pub level: Option<nat>,
    /// The number of the parameter set.
    pub id: Option<nat>,
    /// The sample format, which only the high profiles tell.
    pub format: Option<DeclaredFormat>,
}

/// What a sequence parameter set tells a decoder about the frames.
pub struct DeclaredFrames {
    /// The width of a frame number, in bits.
    pub log2_fn: Option<nat>,
    /// How picture order is coded.
    pub poc_type: Option<nat>,
    /// The width of a picture order count, in bits, which only its first kind
    /// tells.
    pub log2_poc: Option<nat>,
    /// Reference frames.
    pub num_ref: Option<nat>,
    /// Whether frame numbers may be left out.
    pub gaps: Option<nat>,
    /// The width in macroblocks.
    pub w_mb: Option<nat>,
    /// The height in macroblocks.
    pub h_mb: Option<nat>,
    /// Whether there are only whole frames and whether direct prediction is by 8
    /// by 8 blocks, as two bits.
    pub flags: Option<nat>,
    /// Whether anything is cropped.
    pub is_cropped: Option<nat>,
    /// What is cropped at the right and at the bottom, in pairs of pixels.
    pub crop: (Option<nat>, Option<nat>),
}

/// What a sequence parameter set tells a decoder.
pub struct DeclaredStream {
    /// Profile, level and sample format.
    pub profile: DeclaredProfile,
    /// Counters and frame size.
    pub frames: DeclaredFrames,
}

/// What a sequence parameter set tells a decoder about time and buffers.
pub struct DeclaredTiming {
    /// Whether shape, overscan, signal and chroma sites are told, and whether
    /// timing is, as five bits.
    pub picture: Option<nat>,
    /// How long a tick is, of a second that `scale` divides.
    pub tick: Option<nat>,
    /// Into how many parts a second is divided.
    pub scale: Option<nat>,
    /// Whether frames come at a fixed rate, whether two kinds of buffering and the
    /// structure of pictures are told, whether buffers are limited and whether
    /// motion vectors may point outside, as six bits.
    pub buffers: Option<nat>,
    /// How well pictures and macroblocks are compressed at least: 0 is unknown.
    pub limits: (Option<nat>, Option<nat>),
    /// How long motion vectors are at most, as powers of two.
    pub vectors: (Option<nat>, Option<nat>),
    /// How many frames are held back.
    pub reorder: Option<nat>,
    /// How many frames a decoder holds.
    pub held: Option<nat>,
}

/// `b` from behind its next Exp-Golomb code on.
pub open spec fn past_ue(b: Seq<bool>) -> Seq<bool> {
    read_ue(b).1
}

/// `b` from behind its next `n` bits on.
pub open spec fn past_u(b: Seq<bool>, n: nat) -> Seq<bool> {
    read_u(b, n).1
}

/// The number that the next Exp-Golomb code of `b` stands for, counted from `n`.
pub open spec fn ue_from(b: Seq<bool>, n: nat) -> Option<nat> {
    match read_ue(b).0 {
        Some(v) => Some(v + n),
        None => None,
    }
}

/// Reading what is cropped: nothing, or four numbers for left, right, top and
/// bottom.
pub open spec fn read_crop(b: Seq<bool>) -> (Option<nat>, Option<nat>) {
    let left = past_u(b, 1);
    let right = past_ue(left);
    let bottom = past_ue(past_ue(right));
    if read_u(b, 1).0 == Some(0nat) {
        (Some(0nat), Some(0nat))
    } else {
        (read_ue(right).0, read_ue(bottom).0)
    }
}

/// `b` from behind what is cropped on.
pub open spec fn past_crop(b: Seq<bool>) -> Seq<bool> {
    if read_u(b, 1).0 == Some(0nat) {
        past_u(b, 1)
    } else {
        past_ue(past_ue(past_ue(past_ue(past_u(b, 1)))))
    }
}

/// Where the number of reference frames stands, from the width of the frame number
/// on.
pub open spec fn refs_at(b: Seq<bool>) -> Seq<bool> {
    let order = past_ue(b);
    if read_ue(order).0 == Some(0nat) {
        past_ue(past_ue(order))
    } else {
        past_ue(order)
    }
}

/// Where it stands what is cropped, from the width of the frame number on.
pub open spec fn crop_at(b: Seq<bool>) -> Seq<bool> {
    past_u(past_ue(past_ue(past_u(past_ue(refs_at(b)), 1))), 2)
}

/// Reading on from the width of the frame number: the kind of picture order
/// count with, in its first kind, its width, the number of reference frames and
/// a flag come before the frame size, two flags between it and what is cropped.
pub open spec fn read_frames(b: Seq<bool>) -> DeclaredFrames {
    let order = past_ue(b);
    let gaps = past_ue(refs_at(b));
    let size = past_u(gaps, 1);
    let flags = past_ue(past_ue(size));
    DeclaredFrames {
        log2_fn: ue_from(b, 4),
        poc_type: read_ue(order).0,
        log2_poc: if read_ue(order).0 == Some(0nat) {
            ue_from(past_ue(order), 4)
        } else {
            None
        },
        num_ref: read_ue(refs_at(b)).0,
        gaps: read_u(gaps, 1).0,
        w_mb: ue_from(size, 1),
        h_mb: ue_from(past_ue(size), 1),
        flags: read_u(flags, 2).0,
        is_cropped: read_u(crop_at(b), 1).0,
        crop: read_crop(crop_at(b)),
    }
}

/// Reading the sample format.
pub open spec fn read_format(b: Seq<bool>) -> DeclaredFormat {
    DeclaredFormat {
        chroma: read_ue(b).0,
        luma_depth: ue_from(past_ue(b), 8),
        chroma_depth: ue_from(past_ue(past_ue(b)), 8),
        flags: read_u(past_ue(past_ue(past_ue(b))), 2).0,
    }
}

/// The profile in the payload of a sequence parameter set is a high one.
pub open spec fn reads_high(b: Seq<bool>) -> bool {
    let profile = read_u(b, 8).0;
    profile == Some(100nat) || profile == Some(110nat) || profile == Some(122nat) || profile
        == Some(244nat)
}

/// Where the sample format stands, if it does, in the payload of a sequence
/// parameter set.
pub open spec fn format_at(b: Seq<bool>) -> Seq<bool> {
    past_ue(past_u(past_u(past_u(b, 8), 8), 8))
}

/// Where the width of the frame number stands.
pub open spec fn frames_at(b: Seq<bool>) -> Seq<bool> {
    if reads_high(b) {
        past_u(past_ue(past_ue(past_ue(format_at(b)))), 2)
    } else {
        format_at(b)
    }
}

/// How a decoder reads the payload of a sequence parameter set: behind profile,
/// constraints, level and identifier comes, in the high profiles, the sample
/// format.
pub open spec fn read_stream(b: Seq<bool>) -> DeclaredStream {
    let level = past_u(past_u(b, 8), 8);
    DeclaredStream {
        profile: DeclaredProfile {
            profile: read_u(b, 8).0,
            constraints: read_u(past_u(b, 8), 8).0,
            level: read_u(level, 8).0,
            id: read_ue(past_u(level, 8)).0,
            format: if reads_high(b) {
                Some(read_format(format_at(b)))
            } else {
                None
            },
        },
        frames: read_frames(frames_at(b)),
    }
}

/// How a decoder reads timing and buffering, which a flag announces.
pub open spec fn read_timing(b: Seq<bool>) -> Option<DeclaredTiming> {
    let picture = past_u(b, 1);
    let tick = past_u(picture, 5);
    let scale = past_u(tick, 32);
    let buffers = past_u(scale, 32);
    let limits = past_u(buffers, 6);
    let vectors = past_ue(past_ue(limits));
    let reorder = past_ue(past_ue(vectors));
    if read_u(b, 1).0 == Some(0nat) {
        None
    } else {
        Some(
            DeclaredTiming {
                picture: read_u(picture, 5).0,
                tick: read_u(tick, 32).0,
                scale: read_u(scale, 32).0,
                buffers: read_u(buffers, 6).0,
                limits: (read_ue(limits).0, read_ue(past_ue(limits)).0),
                vectors: (read_ue(vectors).0, read_ue(past_ue(vectors)).0),
                reorder: read_ue(reorder).0,
                held: read_ue(past_ue(reorder)).0,
            },
        )
    }
}

/// What a decoder reads in a sequence parameter set that was written for these
/// parameters.
pub open spec fn stream_of(
    p: Params,
    depth: u32,
    w_mb: u32,
    h_mb: u32,
    level: u8,
    crop: (u32, u32),
) -> DeclaredStream {
    DeclaredStream {
        profile: DeclaredProfile {
            profile: Some(p.profile as nat),
            constraints: Some(0nat),
            level: Some(level as nat),
            id: Some(0nat),
            format: if is_high_profile(p.profile) {
                Some(
                    DeclaredFormat {
                        chroma: Some(1nat),
                        luma_depth: Some(depth as nat),
                        chroma_depth: Some(depth as nat),
                        flags: Some(0nat),
                    },
                )
            } else {
                None
            },
        },
        frames: DeclaredFrames {
            log2_fn: Some(p.log2_fn as nat),
            poc_type: Some(p.poc_type as nat),
            log2_poc: if p.poc_type == 0 {
                Some(p.log2_poc as nat)
            } else {
                None
            },
            num_ref: Some(p.num_ref as nat),
            gaps: Some(0nat),
            w_mb: Some(w_mb as nat),
            h_mb: Some(h_mb as nat),
            flags: Some(3nat),
            is_cropped: Some(if crop == (0u32, 0u32) { 0nat } else { 1nat }),
            crop: (Some(crop.0 as nat), Some(crop.1 as nat)),
        },
    }
}

proof fn lemma_flag_read(f: bool, rest: Seq<bool>)
    ensures
        past_u(seq![f] + rest, 1) == rest,
{
    reveal(read_u);
    assert((seq![f] + rest).skip(1) =~= rest);
}

/// The fields of a sequence parameter set up to the sample format, then `rest`.
spec fn sps_first(p: Params, depth: int, level: u8, rest: Seq<bool>) -> Seq<bool> {
    u_bits(8, p.profile as nat) + (u_bits(8, 0) + (u_bits(8, level as nat) + (ue_bits(0) + (
    format_bits(p.profile, depth) + rest))))
}

/// The fields behind the sample format up to the frame size, then `rest`.
spec fn sps_second(p: Params, w_mb: int, h_mb: int, rest: Seq<bool>) -> Seq<bool> {
    ue_bits((p.log2_fn - 4) as nat) + (order_bits(p) + (ue_bits(p.num_ref as nat) + (seq![false] + (
    ue_bits((w_mb - 1) as nat) + (ue_bits((h_mb - 1) as nat) + rest)))))
}

proof fn lemma_sps_order(
    p: Params,
    depth: int,
    w_mb: int,
    h_mb: int,
    level: u8,
    crop: (u32, u32),
    fps: Option<(u32, u32)>,
    trailer: Seq<bool>,
)
    ensures
        sps_bits(p, depth, w_mb, h_mb, level, crop, fps) + trailer == sps_first(
            p,
            depth,
            level,
            sps_second(
                p,
                w_mb,
                h_mb,
                seq![true, true] + (crop_bits(crop) + (usability_bits(p, fps) + trailer)),
            ),
        ),
{
    let f1 = u_bits(8, p.profile as nat);
    let p2 = f1 + u_bits(8, 0);
    let p3 = p2 + u_bits(8, level as nat);
    let p4 = p3 + ue_bits(0);
    let p5 = p4 + format_bits(p.profile, depth);
    let p6 = p5 + ue_bits((p.log2_fn - 4) as nat);
    let p7 = p6 + order_bits(p);
    let p8 = p7 + ue_bits(p.num_ref as nat);
    let p9 = p8 + seq![false];
    let p10 = p9 + ue_bits((w_mb - 1) as nat);
    let p11 = p10 + ue_bits((h_mb - 1) as nat);
    let p12 = p11 + seq![true, true];
    let p13 = p12 + crop_bits(crop);
    let r12 = usability_bits(p, fps) + trailer;
    let r11 = crop_bits(crop) + r12;
    let tail = seq![true, true] + r11;
    let r10 = ue_bits((h_mb - 1) as nat) + tail;
    let r9 = ue_bits((w_mb - 1) as nat) + r10;
    let r8 = seq![false] + r9;
    let r7 = ue_bits(p.num_ref as nat) + r8;
    let r6 = order_bits(p) + r7;
    let r5 = ue_bits((p.log2_fn - 4) as nat) + r6;
    let r4 = format_bits(p.profile, depth) + r5;
    let r3 = ue_bits(0) + r4;
    let r2 = u_bits(8, level as nat) + r3;
    lemma_assoc(p13, usability_bits(p, fps), trailer);
    lemma_assoc(p12, crop_bits(crop), r12);
    lemma_assoc(p11, seq![true, true], r11);
    lemma_assoc(p10, ue_bits((h_mb - 1) as nat), tail);
    lemma_assoc(p9, ue_bits((w_mb - 1) as nat), r10);
    lemma_assoc(p8, seq![false], r9);
    lemma_assoc(p7, ue_bits(p.num_ref as nat), r8);
    lemma_assoc(p6, order_bits(p), r7);
    lemma_assoc(p5, ue_bits((p.log2_fn - 4) as nat), r6);
    lemma_assoc(p4, format_bits(p.profile, depth), r5);
    lemma_assoc(p3, ue_bits(0), r4);
    lemma_assoc(p2, u_bits(8, level as nat), r3);
    lemma_assoc(f1, u_bits(8, 0), r2);
}

proof fn lemma_flag_value(f: bool, rest: Seq<bool>)
    ensures
        read_u(seq![f] + rest, 1).0 == Some(if f { 1nat } else { 0nat }),
{
    reveal(read_u);
    let b = seq![f] + rest;
    assert(b.take(1).drop_last() =~= Seq::<bool>::empty());
    assert(value(b.take(1).drop_last()) == 0);
}

proof fn lemma_crop_read(crop: (u32, u32), rest: Seq<bool>)
    requires
        crop.0 < u32::MAX,
        crop.1 < u32::MAX,
    ensures
        read_crop(crop_bits(crop) + rest) == (Some(crop.0 as nat), Some(crop.1 as nat)),
        read_u(crop_bits(crop) + rest, 1).0 == Some(
            if crop == (0u32, 0u32) { 0nat } else { 1nat },
        ),
        past_crop(crop_bits(crop) + rest) == rest,
{
    if crop == (0u32, 0u32) {
        assert(crop_bits(crop) =~= seq![false]);
        lemma_flag_value(false, rest);
        lemma_flag_read(false, rest);
    } else {
        let bottom = ue_bits(crop.1 as nat) + rest;
        let top = ue_bits(0) + bottom;
        let right = ue_bits(crop.0 as nat) + top;
        let left = ue_bits(0) + right;
        assert(crop_bits(crop) + rest == seq![true] + left) by {
            let p1 = seq![true] + ue_bits(0);
            let p2 = p1 + ue_bits(crop.0 as nat);
            let p3 = p2 + ue_bits(0);
            lemma_assoc(p3, ue_bits(crop.1 as nat), rest);
            lemma_assoc(p2, ue_bits(0), bottom);
            lemma_assoc(p1, ue_bits(crop.0 as nat), top);
            lemma_assoc(seq![true], ue_bits(0), right);
        }
        lemma_flag_value(true, left);
        lemma_flag_read(true, left);
        law_exp_golomb_read_back(0, right);
        law_exp_golomb_read_back(crop.0 as nat, top);
        law_exp_golomb_read_back(0, bottom);
        law_exp_golomb_read_back(crop.1 as nat, rest);
    }
}

proof fn lemma_pair_read(f: bool, rest: Seq<bool>)
    ensures
        read_u(seq![f, f] + rest, 2) == (Some(if f { 3nat } else { 0nat }), rest),
{
    let v = if f {
        3nat
    } else {
        0nat
    };
    lemma2_to64();
    reveal_with_fuel(u_bits, 3);
    assert(u_bits(2, v) =~= seq![f, f]);
    law_field_read_back(2, v, rest);
}

proof fn lemma_frames_read(
    p: Params,
    w_mb: u32,
    h_mb: u32,
    depth: u32,
    level: u8,
    crop: (u32, u32),
    tail: Seq<bool>,
)
    requires
        p.log2_fn >= 4,
        p.poc_type == 0 ==> p.log2_poc >= 4,
        p.num_ref < u32::MAX,
        p.poc_type < u32::MAX,
        w_mb >= 1,
        h_mb >= 1,
        crop.0 < u32::MAX,
        crop.1 < u32::MAX,
    ensures
        ({
            let last = crop_bits(crop) + tail;
            let b = sps_second(p, w_mb as int, h_mb as int, seq![true, true] + last);
            &&& read_frames(b) == stream_of(p, depth, w_mb, h_mb, level, crop).frames
            &&& crop_at(b) == last
        }),
{
    let last = crop_bits(crop) + tail;
    let rest = seq![true, true] + last;
    lemma_pair_read(true, last);
    lemma_crop_read(crop, tail);
    let r10 = ue_bits((h_mb - 1) as nat) + rest;
    let r9 = ue_bits((w_mb - 1) as nat) + r10;
    let r8 = seq![false] + r9;
    let r7 = ue_bits(p.num_ref as nat) + r8;
    law_exp_golomb_read_back((p.log2_fn - 4) as nat, order_bits(p) + r7);
    if p.poc_type == 0 {
        let width = ue_bits((p.log2_poc - 4) as nat);
        lemma_assoc(ue_bits(p.poc_type as nat), width, r7);
        law_exp_golomb_read_back(0, width + r7);
        law_exp_golomb_read_back((p.log2_poc - 4) as nat, r7);
    } else {
        law_exp_golomb_read_back(p.poc_type as nat, r7);
    }
    law_exp_golomb_read_back(p.num_ref as nat, r8);
    lemma_flag_value(false, r9);
    lemma_flag_read(false, r9);
    law_exp_golomb_read_back((w_mb - 1) as nat, r10);
    law_exp_golomb_read_back((h_mb - 1) as nat, rest);
}

proof fn lemma_format_read(p: Params, depth: u32, rest: Seq<bool>)
    requires
        is_high_profile(p.profile),
        depth >= 8,
    ensures
        ({
            let b = format_bits(p.profile, depth as int) + rest;
            &&& read_format(b) == (DeclaredFormat {
                chroma: Some(1nat),
                luma_depth: Some(depth as nat),
                chroma_depth: Some(depth as nat),
                flags: Some(0nat),
            })
            &&& past_u(past_ue(past_ue(past_ue(b))), 2) == rest
        }),
{
    let d = ue_bits((depth - 8) as nat);
    let flags = seq![false, false] + rest;
    assert(format_bits(p.profile, depth as int) + rest == ue_bits(1) + (d + (d + flags))) by {
        lemma_assoc(ue_bits(1) + d + d, seq![false, false], rest);
        lemma_assoc(ue_bits(1) + d, d, flags);
        lemma_assoc(ue_bits(1), d, d + flags);
    }
    law_exp_golomb_read_back(1, d + (d + flags));
    law_exp_golomb_read_back((depth - 8) as nat, d + flags);
    law_exp_golomb_read_back((depth - 8) as nat, flags);
    lemma_pair_read(false, rest);
}

proof fn lemma_profile_read(
    p: Params,
    depth: u32,
    w_mb: u32,
    h_mb: u32,
    level: u8,
    crop: (u32, u32),
    rest: Seq<bool>,
)
    requires
        is_high_profile(p.profile) ==> depth >= 8,
    ensures
        read_stream(sps_first(p, depth as int, level, rest)) == (DeclaredStream {
            profile: stream_of(p, depth, w_mb, h_mb, level, crop).profile,
            frames: read_frames(rest),
        }),
        frames_at(sps_first(p, depth as int, level, rest)) == rest,
{
    let format = format_bits(p.profile, depth as int);
    lemma2_to64();
    law_field_read_back(
        8,
        p.profile as nat,
        u_bits(8, 0) + (u_bits(8, level as nat) + (ue_bits(0) + (format + rest))),
    );
    law_field_read_back(8, 0, u_bits(8, level as nat) + (ue_bits(0) + (format + rest)));
    law_field_read_back(8, level as nat, ue_bits(0) + (format + rest));
    law_exp_golomb_read_back(0, format + rest);
    if is_high_profile(p.profile) {
        lemma_format_read(p, depth, rest);
    } else {
        assert(format + rest =~= rest);
    }
}

proof fn lemma_sps_read(
    p: Params,
    depth: u32,
    w_mb: u32,
    h_mb: u32,
    level: u8,
    crop: (u32, u32),
    fps: Option<(u32, u32)>,
) -> (rest: Seq<bool>)
    requires
        is_high_profile(p.profile) ==> depth >= 8,
        p.log2_fn >= 4,
        p.poc_type == 0 ==> p.log2_poc >= 4,
        p.num_ref < u32::MAX,
        p.poc_type < u32::MAX,
        w_mb >= 1,
        h_mb >= 1,
        crop.0 < u32::MAX,
        crop.1 < u32::MAX,
    ensures
        ({
            let unit = sps_unit(p, depth as int, w_mb as int, h_mb as int, level, crop, fps);
            let b = bits_of(unescaped(unit.skip(1), 0));
            &&& unit[0] == 0x67
            &&& read_stream(b) == stream_of(p, depth, w_mb, h_mb, level, crop)
            &&& past_crop(crop_at(frames_at(b))) == usability_bits(p, fps) + rest
        }),
{
    let payload = sps_bits(p, depth as int, w_mb as int, h_mb as int, level, crop, fps);
    let unit = sps_unit(p, depth as int, w_mb as int, h_mb as int, level, crop, fps);
    let b = with_trailer(payload);
    let raw = packed(b);
    assert(unit.skip(1) =~= escaped(raw, 0));
    law_escape_round_trip(raw);
    lemma_packed_whole(b);
    let trailer = seq![true] + zeros(((8 - (payload.len() + 1) % 8) % 8) as nat);
    assert(b =~= payload + trailer);
    lemma_sps_order(p, depth as int, w_mb as int, h_mb as int, level, crop, fps, trailer);
    let tail = usability_bits(p, fps) + trailer;
    let rest = seq![true, true] + (crop_bits(crop) + tail);
    lemma_profile_read(
        p,
        depth,
        w_mb,
        h_mb,
        level,
        crop,
        sps_second(p, w_mb as int, h_mb as int, rest),
    );
    lemma_frames_read(p, w_mb, h_mb, depth, level, crop, tail);
    lemma_crop_read(crop, tail);
    trailer
}

/// A decoder that reads a sequence parameter set finds in it the profile, the
/// level, the counters, the frame size and the cropping that it was written for.
/// Numbers of the greatest `u32` are too long for a reader.
pub proof fn law_sps_declares_stream(
    p: Params,
    depth: u32,
    w_mb: u32,
    h_mb: u32,
    level: u8,
    crop: (u32, u32),
    fps: Option<(u32, u32)>,
)
    requires
        is_high_profile(p.profile) ==> depth >= 8,
        p.log2_fn >= 4,
        p.poc_type == 0 ==> p.log2_poc >= 4,
        p.num_ref < u32::MAX,
        p.poc_type < u32::MAX,
        w_mb >= 1,
        h_mb >= 1,
        crop.0 < u32::MAX,
        crop.1 < u32::MAX,
    ensures
        ({
            let unit = sps_unit(p, depth as int, w_mb as int, h_mb as int, level, crop, fps);
            &&& unit[0] == 0x67
            &&& read_stream(bits_of(unescaped(unit.skip(1), 0))) == stream_of(
                p,
                depth,
                w_mb,
                h_mb,
                level,
                crop,
            )
        }),
{
    let _ = lemma_sps_read(p, depth, w_mb, h_mb, level, crop, fps);
}

/// What a decoder reads about time and buffers in a sequence parameter set for
/// `num` / `den` frames a second.
pub open spec fn timing_of(p: Params, num: u32, den: u32) -> DeclaredTiming {
    DeclaredTiming {
        picture: Some(1nat),
        tick: Some(den as nat),
        scale: Some(2 * num as nat),
        buffers: Some(3nat),
        limits: (Some(0nat), Some(0nat)),
        vectors: (Some(15nat), Some(15nat)),
        reorder: Some(p.reorder as nat),
        held: Some(p.num_ref as nat),
    }
}

/// The fields on time and buffers, then `rest`.
spec fn timing_fields(p: Params, num: u32, den: u32, rest: Seq<bool>) -> Seq<bool> {
    seq![true] + (u_bits(5, 1) + (u_bits(32, den as nat) + (u_bits(32, 2 * num as nat) + (u_bits(
        6,
        3,
    ) + (ue_bits(0) + (ue_bits(0) + (ue_bits(15) + (ue_bits(15) + (ue_bits(p.reorder as nat) + (
    ue_bits(p.num_ref as nat) + rest))))))))))
}

proof fn lemma_timing_order(p: Params, num: u32, den: u32, rest: Seq<bool>)
    ensures
        usability_bits(p, Some((num, den))) + rest == timing_fields(p, num, den, rest),
{
    let r9 = ue_bits(p.num_ref as nat) + rest;
    let r8 = ue_bits(p.reorder as nat) + r9;
    let r7 = ue_bits(15) + r8;
    let r6 = ue_bits(15) + r7;
    let r5 = ue_bits(0) + r6;
    let r4 = ue_bits(0) + r5;
    let r3 = seq![true, true] + r4;
    let r2 = zeros(4) + r3;
    let r1 = u_bits(32, 2 * num as nat) + r2;
    let r0 = u_bits(32, den as nat) + r1;
    let p1 = seq![true] + zeros(4);
    let p2 = p1 + seq![true];
    let p3 = p2 + u_bits(32, den as nat);
    let p4 = p3 + u_bits(32, 2 * num as nat);
    let p5 = p4 + zeros(4);
    let p6 = p5 + seq![true, true];
    let p7 = p6 + ue_bits(0);
    let p8 = p7 + ue_bits(0);
    let p9 = p8 + ue_bits(15);
    let p10 = p9 + ue_bits(15);
    let p11 = p10 + ue_bits(p.reorder as nat);
    lemma_assoc(p11, ue_bits(p.num_ref as nat), rest);
    lemma_assoc(p10, ue_bits(p.reorder as nat), r9);
    lemma_assoc(p9, ue_bits(15), r8);
    lemma_assoc(p8, ue_bits(15), r7);
    lemma_assoc(p7, ue_bits(0), r6);
    lemma_assoc(p6, ue_bits(0), r5);
    lemma_assoc(p5, seq![true, true], r4);
    lemma_assoc(p4, zeros(4), r3);
    lemma_assoc(p3, u_bits(32, 2 * num as nat), r2);
    lemma_assoc(p2, u_bits(32, den as nat), r1);
    lemma_assoc(p1, seq![true], r0);
    lemma_assoc(seq![true], zeros(4), seq![true] + r0);
    lemma_assoc(zeros(4), seq![true], r0);
    lemma_assoc(zeros(4), seq![true, true], r4);
    reveal_with_fuel(u_bits, 7);
    assert(u_bits(5, 1) =~= zeros(4) + seq![true]);
    assert(u_bits(6, 3) =~= zeros(4) + seq![true, true]);
}

proof fn lemma_timing_read(p: Params, num: u32, den: u32, rest: Seq<bool>)
    requires
        num < 0x8000_0000,
        p.reorder < u32::MAX,
        p.num_ref < u32::MAX,
    ensures
        read_timing(timing_fields(p, num, den, rest)) == Some(timing_of(p, num, den)),
{
    let r9 = ue_bits(p.num_ref as nat) + rest;
    let r8 = ue_bits(p.reorder as nat) + r9;
    let r7 = ue_bits(15) + r8;
    let r6 = ue_bits(15) + r7;
    let r5 = ue_bits(0) + r6;
    let r4 = ue_bits(0) + r5;
    let r3 = u_bits(6, 3) + r4;
    let r2 = u_bits(32, 2 * num as nat) + r3;
    let r1 = u_bits(32, den as nat) + r2;
    let r0 = u_bits(5, 1) + r1;
    lemma2_to64();
    lemma_flag_value(true, r0);
    lemma_flag_read(true, r0);
    law_field_read_back(5, 1, r1);
    law_field_read_back(32, den as nat, r2);
    law_field_read_back(32, 2 * num as nat, r3);
    law_field_read_back(6, 3, r4);
    law_exp_golomb_read_back(0, r5);
    law_exp_golomb_read_back(0, r6);
    law_exp_golomb_read_back(15, r7);
    law_exp_golomb_read_back(15, r8);
    law_exp_golomb_read_back(p.reorder as nat, r9);
    law_exp_golomb_read_back(p.num_ref as nat, rest);
}

/// A decoder finds the frame rate in a sequence parameter set, and how many frames
/// it has to hold. Twice the numerator has to fit its field of 32 bits.
pub proof fn law_sps_declares_timing(
    p: Params,
    depth: u32,
    w_mb: u32,
    h_mb: u32,
    level: u8,
    crop: (u32, u32),
    fps: Option<(u32, u32)>,
)
    requires
        is_high_profile(p.profile) ==> depth >= 8,
        p.log2_fn >= 4,
        p.poc_type == 0 ==> p.log2_poc >= 4,
        p.num_ref < u32::MAX,
        p.poc_type < u32::MAX,
        p.reorder < u32::MAX,
        w_mb >= 1,
        h_mb >= 1,
        crop.0 < u32::MAX,
        crop.1 < u32::MAX,
        fps matches Some(f) ==> f.0 < 0x8000_0000,
    ensures
        ({
            let unit = sps_unit(p, depth as int, w_mb as int, h_mb as int, level, crop, fps);
            let b = bits_of(unescaped(unit.skip(1), 0));
            read_timing(past_crop(crop_at(frames_at(b)))) == match fps {
                Some((num, den)) => Some(timing_of(p, num, den)),
                None => None,
            }
        }),
{
    let rest = lemma_sps_read(p, depth, w_mb, h_mb, level, crop, fps);
    match fps {
        Some((num, den)) => {
            lemma_timing_order(p, num, den, rest);
            lemma_timing_read(p, num, den, rest);
        },
        None => {
            lemma_flag_value(false, rest);
        },
    }
}

proof fn lemma_value_of_some_bit(b: Seq<bool>, i: int)
    requires
        0 <= i < b.len(),
        b[i],
    ensures
        value(b) > 0,
    decreases b.len(),
{
    if i < b.len() - 1 {
        assert(b.drop_last()[i]);
        lemma_value_of_some_bit(b.drop_last(), i);
    }
}

proof fn lemma_escaped_last(b: Seq<u8>, z: nat)
    requires
        b.len() > 0,
    ensures
        escaped(b, z).len() > 0,
        escaped(b, z).last() == b.last(),
    decreases b.len(),
{
    if b.len() > 1 {
        let run = if z >= 2 && b[0] <= 3 {
            zero_run(0, b[0])
        } else {
            zero_run(z, b[0])
        };
        lemma_escaped_last(b.skip(1), run);
        assert(b.skip(1).last() == b.last());
    } else {
        let run = zero_run(
            if z >= 2 && b[0] <= 3 {
                0
            } else {
                z
            },
            b[0],
        );
        assert(b.skip(1).len() == 0);
        assert(escaped(b.skip(1), run).len() == 0);
    }
}

/// No unit ends in a zero.
pub proof fn law_unit_does_not_end_in_zero(header: u8, payload: Seq<bool>)
    ensures
        nal_unit(header, payload).len() >= 2,
        nal_unit(header, payload).last() != 0,
{
    let b = with_trailer(payload);
    let raw = packed(b);
    let n = raw.len() as int;
    let byte = b.subrange(8 * (n - 1), 8 * n);
    assert(b.len() == 8 * n);
    assert(b[payload.len() as int]);
    lemma_value_of_some_bit(byte, payload.len() - 8 * (n - 1));
    lemma_value_bound(byte);
    lemma2_to64();
    assert(raw.last() == value(byte) as u8);
    lemma_escaped_last(raw, 0);
}

/// No unit holds a start code, nor three zeros in a row: two zeros are never
/// followed by 0, 1 or 2.
pub proof fn law_unit_holds_no_start_code(header: u8, payload: Seq<bool>, i: int)
    requires
        header != 0,
        0 <= i,
        i + 2 < nal_unit(header, payload).len(),
        nal_unit(header, payload)[i] == 0,
        nal_unit(header, payload)[i + 1] == 0,
    ensures
        nal_unit(header, payload)[i + 2] > 2,
{
    law_no_start_code(packed(with_trailer(payload)), i - 1);
}

/// Behind its header byte a sequence parameter set starts with profile,
/// constraints and level, each in a byte of its own.
pub proof fn law_sps_starts_with_profile(
    p: Params,
    depth: int,
    w_mb: int,
    h_mb: int,
    level: u8,
    crop: (u32, u32),
    fps: Option<(u32, u32)>,
)
    requires
        p.profile > 0,
    ensures
        ({
            let unit = sps_unit(p, depth, w_mb, h_mb, level, crop, fps);
            &&& unit.len() >= 4
            &&& unit[0] == 0x67
            &&& unit[1] == p.profile
            &&& unit[2] == 0
            &&& unit[3] == level
        }),
{
    let payload = sps_bits(p, depth, w_mb, h_mb, level, crop, fps);
    let unit = sps_unit(p, depth, w_mb, h_mb, level, crop, fps);
    let b = with_trailer(payload);
    let raw = packed(b);
    let trailer = seq![true] + zeros(((8 - (payload.len() + 1) % 8) % 8) as nat);
    assert(b =~= payload + trailer);
    lemma_sps_order(p, depth, w_mb, h_mb, level, crop, fps, trailer);
    let first = u_bits(8, p.profile as nat);
    let second = u_bits(8, 0);
    let third = u_bits(8, level as nat);
    lemma_u_bits_len(8, p.profile as nat);
    lemma_u_bits_len(8, 0);
    lemma_u_bits_len(8, level as nat);
    assert(b.subrange(0, 8) =~= first);
    assert(b.subrange(8, 16) =~= second);
    assert(b.subrange(16, 24) =~= third);
    lemma2_to64();
    lemma_value_of_u_bits(8, p.profile as nat);
    lemma_value_of_u_bits(8, 0);
    lemma_value_of_u_bits(8, level as nat);
    assert(raw[0] == p.profile && raw[1] == 0 && raw[2] == level);
    lemma_escaped_start(raw);
}

proof fn lemma_escaped_start(raw: Seq<u8>)
    requires
        raw.len() >= 3,
        raw[0] > 0,
    ensures
        escaped(raw, 0).len() >= 3,
        forall|i: int| 0 <= i < 3 ==> escaped(raw, 0)[i] == raw[i],
{
    let one = raw.skip(1);
    let two = one.skip(1);
    let run = zero_run(0, one[0]);
    assert(escaped(raw, 0) == seq![raw[0]] + escaped(one, 0));
    assert(escaped(one, 0) == seq![one[0]] + escaped(two, run));
    assert(escaped(two, run) == seq![two[0]] + escaped(two.skip(1), zero_run(run, two[0])));
}

/// What a picture parameter set tells a decoder.
pub struct DeclaredCoding {
    /// Whether entropy coding is arithmetic: 1 is yes.
    pub cabac: Option<nat>,
    /// How many reference frames a slice uses unless it says so, less one.
    pub refs_less_one: Option<nat>,
    /// Whether P-slices are predicted with weights: 1 is yes.
    pub weightp: Option<nat>,
    /// How B-slices are predicted: 2 is with implicit weights.
    pub weightb: Option<nat>,
    /// The quantiser that slices start from.
    pub qp: Option<int>,
    /// The offset of the chroma quantiser.
    pub cqo: Option<int>,
    /// Whether slices control the deblocking filter, whether intra prediction is
    /// constrained and whether pictures may be redundant, as three bits.
    pub flags: Option<nat>,
    /// Whether 8x8 transforms are in use: 1 is yes.
    pub t8x8: Option<nat>,
    /// The offset of the quantiser of the second chroma plane.
    pub second_cqo: Option<int>,
}

/// The signed number that the next Exp-Golomb code of `b` stands for.
pub open spec fn read_se(b: Seq<bool>) -> Option<int> {
    match read_ue(b).0 {
        Some(k) => Some(
            if k % 2 == 1 {
                (k as int + 1) / 2
            } else {
                -(k as int / 2)
            },
        ),
        None => None,
    }
}

/// The signed number that the next code of `b` stands for, counted from 26.
pub open spec fn se_from_26(b: Seq<bool>) -> Option<int> {
    match read_se(b) {
        Some(v) => Some(26 + v),
        None => None,
    }
}

/// Nothing but the end of a payload stands in `b`: a one, then zeros.
pub open spec fn is_end(b: Seq<bool>) -> bool {
    b.len() > 0 && b[0] && forall|i: int| 1 <= i < b.len() ==> !#[trigger] b[i]
}

/// How a decoder reads a picture parameter set: two identifiers, the entropy
/// coder, a flag, slice groups, default reference counts, weights, quantisers and
/// flags. The transforms, a flag and the second offset may follow; where they do
/// not, there are no 8x8 transforms and both offsets are equal.
pub open spec fn read_coding(b: Seq<bool>) -> DeclaredCoding {
    let entropy = past_ue(past_ue(b));
    let refs = past_ue(past_u(past_u(entropy, 1), 1));
    let weightp = past_ue(past_ue(refs));
    let weightb = past_u(weightp, 1);
    let qp = past_u(weightb, 2);
    let cqo = past_ue(past_ue(qp));
    let flags = past_ue(cqo);
    let transform = past_u(flags, 3);
    DeclaredCoding {
        cabac: read_u(entropy, 1).0,
        refs_less_one: read_ue(refs).0,
        weightp: read_u(weightp, 1).0,
        weightb: read_u(weightb, 2).0,
        qp: se_from_26(qp),
        cqo: read_se(cqo),
        flags: read_u(flags, 3).0,
        t8x8: if is_end(transform) {
            Some(0nat)
        } else {
            read_u(transform, 1).0
        },
        second_cqo: if is_end(transform) {
            read_se(cqo)
        } else {
            read_se(past_u(transform, 2))
        },
    }
}

proof fn lemma_se_read(v: int, rest: Seq<bool>)
    requires
        -0x3fff_ffff <= v <= 0x3fff_ffff,
    ensures
        read_se(se_bits(v) + rest) == Some(v),
        past_ue(se_bits(v) + rest) == rest,
{
    reveal(se_bits);
    law_exp_golomb_read_back(se_index(v), rest);
}

/// How many reference frames a slice uses unless it says so, less one.
spec fn default_refs(x: X264) -> nat {
    if x.refs > 0 {
        (x.refs - 1) as nat
    } else {
        0
    }
}

/// How B-slices are predicted.
spec fn pair_weights(x: X264) -> nat {
    if x.weightb {
        2
    } else {
        0
    }
}

/// The fields of a picture parameter set from the weights on, then `rest`.
spec fn pps_second(x: X264, qp: int, rest: Seq<bool>) -> Seq<bool> {
    seq![x.weightp > 0] + (u_bits(2, pair_weights(x)) + (se_bits(qp - 26) + (se_bits(0) + (se_bits(
        x.cqo as int,
    ) + rest))))
}

/// The fields of a picture parameter set up to the weights, then `rest`.
spec fn pps_first(x: X264, rest: Seq<bool>) -> Seq<bool> {
    ue_bits(0) + (ue_bits(0) + (seq![x.cabac] + (seq![false] + (ue_bits(0) + (ue_bits(
        default_refs(x),
    ) + (ue_bits(0) + rest))))))
}

proof fn lemma_prediction_order(x: X264, rest: Seq<bool>)
    ensures
        prediction_bits(x) + rest == pps_first(
            x,
            seq![x.weightp > 0] + (u_bits(2, pair_weights(x)) + rest),
        ),
{
    let pair = u_bits(2, pair_weights(x));
    let refs = ue_bits(default_refs(x));
    let zero = ue_bits(0);
    let flag = seq![x.weightp > 0];
    let r6 = flag + (pair + rest);
    let r5 = zero + r6;
    let r4 = refs + r5;
    let r3 = zero + r4;
    let p2 = zero + zero;
    let p3 = p2 + seq![x.cabac, false];
    let p4 = p3 + zero;
    let p5 = p4 + refs;
    let p6 = p5 + zero;
    let p7 = p6 + flag;
    lemma_assoc(p7, pair, rest);
    lemma_assoc(p6, flag, pair + rest);
    lemma_assoc(p5, zero, r6);
    lemma_assoc(p4, refs, r5);
    lemma_assoc(p3, zero, r4);
    lemma_assoc(p2, seq![x.cabac, false], r3);
    assert(seq![x.cabac, false] + r3 =~= seq![x.cabac] + (seq![false] + r3));
    lemma_assoc(zero, zero, seq![x.cabac] + (seq![false] + r3));
}

proof fn lemma_pps_order(x: X264, qp: int, trailer: Seq<bool>)
    ensures
        pps_bits(x, qp) + trailer == pps_first(
            x,
            pps_second(
                x,
                qp,
                seq![true, x.constrained, false] + (transform_bits(x) + trailer),
            ),
        ),
{
    let last = transform_bits(x) + trailer;
    let flags = seq![true, x.constrained, false] + last;
    let q1 = se_bits(qp - 26) + se_bits(0);
    let q2 = q1 + se_bits(x.cqo as int);
    lemma_assoc(prediction_bits(x) + quantiser_bits(x, qp), transform_bits(x), trailer);
    lemma_assoc(prediction_bits(x), quantiser_bits(x, qp), last);
    lemma_assoc(q2, seq![true, x.constrained, false], last);
    lemma_assoc(q1, se_bits(x.cqo as int), flags);
    lemma_assoc(se_bits(qp - 26), se_bits(0), se_bits(x.cqo as int) + flags);
    lemma_prediction_order(x, quantiser_bits(x, qp) + last);
}

proof fn lemma_first_coding_read(x: X264, rest: Seq<bool>)
    ensures
        ({
            let b = pps_first(x, rest);
            let entropy = past_ue(past_ue(b));
            let refs = past_ue(past_u(past_u(entropy, 1), 1));
            &&& read_u(entropy, 1).0 == Some(if x.cabac { 1nat } else { 0nat })
            &&& read_ue(refs).0 == Some(default_refs(x))
            &&& past_ue(past_ue(refs)) == rest
        }),
{
    let r5 = ue_bits(0) + rest;
    let r4 = ue_bits(default_refs(x)) + r5;
    let r3 = ue_bits(0) + r4;
    let r2 = seq![false] + r3;
    let r1 = seq![x.cabac] + r2;
    law_exp_golomb_read_back(0, ue_bits(0) + r1);
    law_exp_golomb_read_back(0, r1);
    lemma_flag_value(x.cabac, r2);
    lemma_flag_read(x.cabac, r2);
    lemma_flag_read(false, r3);
    law_exp_golomb_read_back(0, r4);
    law_exp_golomb_read_back(default_refs(x), r5);
    law_exp_golomb_read_back(0, rest);
}

proof fn lemma_second_coding_read(x: X264, qp: int, rest: Seq<bool>)
    requires
        -0x3fff_ffff <= qp - 26 <= 0x3fff_ffff,
        -0x3fff_ffff <= x.cqo <= 0x3fff_ffff,
    ensures
        ({
            let weightp = pps_second(x, qp, rest);
            let weightb = past_u(weightp, 1);
            let q = past_u(weightb, 2);
            &&& read_u(weightp, 1).0 == Some(if x.weightp > 0 { 1nat } else { 0nat })
            &&& read_u(weightb, 2).0 == Some(pair_weights(x))
            &&& se_from_26(q) == Some(qp)
            &&& read_se(past_ue(past_ue(q))) == Some(x.cqo as int)
            &&& past_ue(past_ue(past_ue(q))) == rest
        }),
{
    let r10 = se_bits(x.cqo as int) + rest;
    let r9 = se_bits(0) + r10;
    let r8 = se_bits(qp - 26) + r9;
    let r7 = u_bits(2, pair_weights(x)) + r8;
    lemma2_to64();
    lemma_flag_value(x.weightp > 0, r7);
    lemma_flag_read(x.weightp > 0, r7);
    law_field_read_back(2, pair_weights(x), r8);
    lemma_se_read(qp - 26, r9);
    lemma_se_read(0, r10);
    lemma_se_read(x.cqo as int, rest);
}

proof fn lemma_flags_read(x: X264, rest: Seq<bool>)
    ensures
        read_u(seq![true, x.constrained, false] + rest, 3) == (
            Some(if x.constrained { 6nat } else { 4nat }),
            rest,
        ),
{
    let v = if x.constrained {
        6nat
    } else {
        4nat
    };
    lemma2_to64();
    reveal_with_fuel(u_bits, 4);
    assert(u_bits(3, v) =~= seq![true, x.constrained, false]);
    law_field_read_back(3, v, rest);
}

proof fn lemma_transform_read(x: X264, n: nat)
    requires
        -0x3fff_ffff <= x.cqo <= 0x3fff_ffff,
    ensures
        ({
            let b = transform_bits(x) + (seq![true] + zeros(n));
            &&& is_end(b) <==> !x.t8x8
            &&& x.t8x8 ==> read_u(b, 1).0 == Some(1nat)
            &&& x.t8x8 ==> read_se(past_u(b, 2)) == Some(x.cqo as int)
        }),
{
    let trailer = seq![true] + zeros(n);
    let b = transform_bits(x) + trailer;
    if x.t8x8 {
        let code = se_bits(x.cqo as int);
        let rest = code + trailer;
        assert(b[2 + code.len() as int]);
        assert(b =~= seq![true] + (seq![false] + rest));
        lemma_flag_value(true, seq![false] + rest);
        reveal_with_fuel(u_bits, 3);
        assert(u_bits(2, 2) =~= seq![true, false]);
        assert(b =~= u_bits(2, 2) + rest);
        lemma2_to64();
        law_field_read_back(2, 2, rest);
        lemma_se_read(x.cqo as int, trailer);
    } else {
        assert(b =~= trailer);
    }
}

/// A picture parameter set holds, for a decoder that reads it, the coding that it
/// was written for.
pub proof fn law_pps_declares_coding(x: X264, qp: int)
    requires
        -0x3fff_ffff <= qp - 26 <= 0x3fff_ffff,
        -0x3fff_ffff <= x.cqo <= 0x3fff_ffff,
    ensures
        read_coding(bits_of(unescaped(pps_unit(x, qp).skip(1), 0))) == (DeclaredCoding {
            cabac: Some(if x.cabac { 1nat } else { 0nat }),
            refs_less_one: Some(if x.refs > 0 { (x.refs - 1) as nat } else { 0nat }),
            weightp: Some(if x.weightp > 0 { 1nat } else { 0nat }),
            weightb: Some(if x.weightb { 2nat } else { 0nat }),
            qp: Some(qp),
            cqo: Some(x.cqo as int),
            flags: Some(if x.constrained { 6nat } else { 4nat }),
            t8x8: Some(if x.t8x8 { 1nat } else { 0nat }),
            second_cqo: Some(x.cqo as int),
        }),
        pps_unit(x, qp)[0] == 0x68,
{
    let payload = pps_bits(x, qp);
    let b = with_trailer(payload);
    let raw = packed(b);
    assert(pps_unit(x, qp).skip(1) =~= escaped(raw, 0));
    law_escape_round_trip(raw);
    lemma_packed_whole(b);
    let n = ((8 - (payload.len() + 1) % 8) % 8) as nat;
    let trailer = seq![true] + zeros(n);
    assert(b =~= payload + trailer);
    lemma_pps_order(x, qp, trailer);
    let rest = seq![true, x.constrained, false] + (transform_bits(x) + trailer);
    lemma_first_coding_read(x, pps_second(x, qp, rest));
    lemma_second_coding_read(x, qp, rest);
    lemma_flags_read(x, transform_bits(x) + trailer);
    lemma_transform_read(x, n);
}

} // verus!
