//! Sequence and picture parameter sets, written the way x264 writes them.

use crate::bits::{lemma_assoc, packed, se_bits, u_bits, ue_bits, with_trailer, zeros, BitW};
use crate::nal::{escape, escaped};
use crate::x264::{Params, X264};
use vstd::prelude::*;

verus! {

/// The NAL unit with header byte `header` and the given payload bits.
pub open spec fn nal_unit(header: u8, payload: Seq<bool>) -> Seq<u8> {
    seq![header] + escaped(packed(with_trailer(payload)), 0)
}

/// Profiles whose sequence parameter sets declare a chroma format and a bit
/// depth.
pub open spec fn is_high_profile(profile: u8) -> bool {
    profile == 100 || profile == 110 || profile == 122 || profile == 244
}

/// Chroma format 4:2:0, the same depth for luma and chroma, no lossless mode and
/// no scaling matrices. Only the high profiles declare them.
pub open spec fn format_bits(profile: u8, depth: int) -> Seq<bool> {
    if is_high_profile(profile) {
        ue_bits(1) + ue_bits((depth - 8) as nat) + ue_bits((depth - 8) as nat) + seq![false, false]
    } else {
        Seq::empty()
    }
}

/// The kind of picture order count, and its width where it is written out.
pub open spec fn order_bits(p: Params) -> Seq<bool> {
    if p.poc_type == 0 {
        ue_bits(p.poc_type as nat) + ue_bits((p.log2_poc - 4) as nat)
    } else {
        ue_bits(p.poc_type as nat)
    }
}

/// What is cut off at the right and at the bottom, in units of two pixels.
pub open spec fn crop_bits(crop: (u32, u32)) -> Seq<bool> {
    if crop == (0u32, 0u32) {
        seq![false]
    } else {
        seq![true] + ue_bits(0) + ue_bits(crop.0 as nat) + ue_bits(0) + ue_bits(crop.1 as nat)
    }
}

/// Timing and buffering: a frame lasts two ticks of `den` / (2 `num`) seconds,
/// and the decoder holds back as many frames as the parameters say.
pub open spec fn usability_bits(p: Params, fps: Option<(u32, u32)>) -> Seq<bool> {
    match fps {
        None => seq![false],
        Some((num, den)) => seq![true] + zeros(4) + seq![true] + u_bits(32, den as nat) + u_bits(
            32,
            2 * num as nat,
        ) + zeros(4) + seq![true, true] + ue_bits(0) + ue_bits(0) + ue_bits(15) + ue_bits(15)
            + ue_bits(p.reorder as nat) + ue_bits(p.num_ref as nat),
    }
}

/// The payload of a sequence parameter set.
pub open spec fn sps_bits(
    p: Params,
    depth: int,
    w_mb: int,
    h_mb: int,
    level: u8,
    crop: (u32, u32),
    fps: Option<(u32, u32)>,
) -> Seq<bool> {
    u_bits(8, p.profile as nat) + u_bits(8, 0) + u_bits(8, level as nat) + ue_bits(0) + format_bits(
        p.profile,
        depth,
    ) + ue_bits((p.log2_fn - 4) as nat) + order_bits(p) + ue_bits(p.num_ref as nat) + seq![false]
        + ue_bits((w_mb - 1) as nat) + ue_bits((h_mb - 1) as nat) + seq![true, true] + crop_bits(
        crop,
    ) + usability_bits(p, fps)
}

/// A sequence parameter set for frames of `w_mb` by `h_mb` macroblocks.
pub open spec fn sps_unit(
    p: Params,
    depth: int,
    w_mb: int,
    h_mb: int,
    level: u8,
    crop: (u32, u32),
    fps: Option<(u32, u32)>,
) -> Seq<u8> {
    nal_unit(0x67, sps_bits(p, depth, w_mb, h_mb, level, crop, fps))
}

/// The transform extension of a picture parameter set, which is there where 8x8
/// transforms are in use.
pub open spec fn transform_bits(x: X264) -> Seq<bool> {
    if x.t8x8 {
        seq![true, false] + se_bits(x.cqo as int)
    } else {
        Seq::empty()
    }
}

/// Entropy coder, default reference counts and weighted prediction.
pub open spec fn prediction_bits(x: X264) -> Seq<bool> {
    let default_refs = if x.refs > 0 {
        (x.refs - 1) as nat
    } else {
        0
    };
    ue_bits(0) + ue_bits(0) + seq![x.cabac, false] + ue_bits(0) + ue_bits(default_refs) + ue_bits(0)
        + seq![x.weightp > 0] + u_bits(
        2,
        if x.weightb {
            2
        } else {
            0
        },
    )
}

/// Initial quantisers, and which filters and predictions the slices control.
pub open spec fn quantiser_bits(x: X264, qp: int) -> Seq<bool> {
    se_bits(qp - 26) + se_bits(0) + se_bits(x.cqo as int) + seq![true, x.constrained, false]
}

/// The payload of a picture parameter set.
pub open spec fn pps_bits(x: X264, qp: int) -> Seq<bool> {
    prediction_bits(x) + quantiser_bits(x, qp) + transform_bits(x)
}

/// A picture parameter set whose slices start from quantiser `qp`.
pub open spec fn pps_unit(x: X264, qp: int) -> Seq<u8> {
    nal_unit(0x68, pps_bits(x, qp))
}

/// Finishes a payload and puts it behind a header byte.
fn finish_unit(header: u8, w: BitW) -> (nal: Vec<u8>)
    requires
        w.wf(),
    ensures
        nal@ == nal_unit(header, w@),
{
    let mut nal: Vec<u8> = Vec::new();
    nal.push(header);
    let raw: Vec<u8> = w.finish();
    let mut body: Vec<u8> = escape(raw.as_slice());
    nal.append(&mut body);
    assert(nal@ =~= nal_unit(header, w@));
    nal
}

fn put_format(w: &mut BitW, profile: u8, depth: u32)
    requires
        old(w).wf(),
        is_high_profile(profile) ==> depth >= 8,
    ensures
        final(w).wf(),
        final(w)@ == old(w)@ + format_bits(profile, depth as int),
{
    let ghost start = w@;
    if profile == 100 || profile == 110 || profile == 122 || profile == 244 {
        w.ue(1);
        w.ue(depth - 8);
        w.ue(depth - 8);
        w.bit(0);
        w.bit(0);
    }
    assert(w@ =~= start + format_bits(profile, depth as int));
}

fn put_crop(w: &mut BitW, crop: (u32, u32))
    requires
        old(w).wf(),
    ensures
        final(w).wf(),
        final(w)@ == old(w)@ + crop_bits(crop),
{
    let ghost start = w@;
    if crop.0 != 0 || crop.1 != 0 {
        w.bit(1);
        w.ue(0);
        w.ue(crop.0);
        w.ue(0);
        w.ue(crop.1);
    } else {
        w.bit(0);
    }
    assert(w@ =~= start + crop_bits(crop));
}

fn put_usability(w: &mut BitW, p: &Params, fps: Option<(u32, u32)>)
    requires
        old(w).wf(),
    ensures
        final(w).wf(),
        final(w)@ == old(w)@ + usability_bits(*p, fps),
{
    let ghost start = w@;
    proof {
        crate::bits::lemma_u_bits_zero(4);
    }
    match fps {
        Some((num, den)) => {
            w.bit(1);
            w.u(4, 0);
            w.bit(1);
            w.u(32, den as u64);
            w.u(32, 2 * num as u64);
            w.u(4, 0);
            w.bit(1);
            w.bit(1);
            w.ue(0);
            w.ue(0);
            w.ue(15);
            w.ue(15);
            w.ue(p.reorder);
            w.ue(p.num_ref);
        },
        None => {
            w.bit(0);
        },
    }
    assert(w@ =~= start + usability_bits(*p, fps));
}

/// A sequence parameter set. Sizes count macroblocks, `crop` counts pairs of
/// pixels and `fps` is a fraction.
pub fn make_sps(
    p: &Params,
    depth: u32,
    w_mb: u32,
    h_mb: u32,
    level: u8,
    crop: (u32, u32),
    fps: Option<(u32, u32)>,
) -> (nal: Vec<u8>)
    requires
        is_high_profile(p.profile) ==> depth >= 8,
        p.log2_fn >= 4,
        p.poc_type == 0 ==> p.log2_poc >= 4,
        w_mb >= 1,
        h_mb >= 1,
    ensures
        nal@ == sps_unit(*p, depth as int, w_mb as int, h_mb as int, level, crop, fps),
{
    let mut w = BitW::default();
    w.u(8, p.profile as u64);
    w.u(8, 0);
    w.u(8, level as u64);
    w.ue(0);
    put_format(&mut w, p.profile, depth);
    w.ue(p.log2_fn - 4);
    let ghost start = w@;
    w.ue(p.poc_type);
    if p.poc_type == 0 {
        w.ue(p.log2_poc - 4);
    }
    assert(w@ =~= start + order_bits(*p));
    w.ue(p.num_ref);
    w.bit(0);
    w.ue(w_mb - 1);
    w.ue(h_mb - 1);
    w.bit(1);
    w.bit(1);
    put_crop(&mut w, crop);
    put_usability(&mut w, p, fps);
    assert(w@ =~= sps_bits(*p, depth as int, w_mb as int, h_mb as int, level, crop, fps));
    finish_unit(0x67, w)
}

fn put_prediction(w: &mut BitW, x: &X264)
    requires
        old(w).wf(),
    ensures
        final(w).wf(),
        final(w)@ == old(w)@ + prediction_bits(*x),
{
    let ghost start = w@;
    let cabac: u32 = if x.cabac { 1 } else { 0 };
    let weightp: u32 = if x.weightp > 0 { 1 } else { 0 };
    let weightb: u64 = if x.weightb { 2 } else { 0 };
    let default_refs: u32 = x.refs.saturating_sub(1);
    let ghost z = ue_bits(0);
    let ghost dr = ue_bits(default_refs as nat);
    let ghost bi = u_bits(2, weightb as nat);
    w.ue(0);
    w.ue(0);
    let ghost a1 = z + z;
    proof {
        lemma_assoc(start, z, z);
    }
    w.bit(cabac);
    w.bit(0);
    let ghost a2 = a1 + seq![x.cabac, false];
    assert(w@ =~= start + a2);
    w.ue(0);
    w.ue(default_refs);
    w.ue(0);
    let ghost a3 = a2 + z + dr + z;
    proof {
        lemma_assoc(start, a2, z);
        lemma_assoc(start, a2 + z, dr);
        lemma_assoc(start, a2 + z + dr, z);
    }
    w.bit(weightp);
    let ghost a4 = a3 + seq![x.weightp > 0];
    assert(w@ =~= start + a4);
    w.u(2, weightb);
    proof {
        lemma_assoc(start, a4, bi);
    }
}

fn put_quantiser(w: &mut BitW, x: &X264, qp: i32)
    requires
        old(w).wf(),
        -0x3fff_ffff <= qp - 26 <= 0x3fff_ffff,
        -0x3fff_ffff <= x.cqo <= 0x3fff_ffff,
    ensures
        final(w).wf(),
        final(w)@ == old(w)@ + quantiser_bits(*x, qp as int),
{
    let ghost start = w@;
    w.se(qp - 26);
    w.se(0);
    w.se(x.cqo);
    w.bit(1);
    w.bit(if x.constrained { 1 } else { 0 });
    w.bit(0);
    assert(w@ =~= start + quantiser_bits(*x, qp as int));
}

/// A picture parameter set whose slices start from quantiser `qp`.
pub fn make_pps(x: &X264, qp: i32) -> (nal: Vec<u8>)
    requires
        -0x3fff_ffff <= qp - 26 <= 0x3fff_ffff,
        -0x3fff_ffff <= x.cqo <= 0x3fff_ffff,
    ensures
        nal@ == pps_unit(*x, qp as int),
{
    let mut w = BitW::default();
    put_prediction(&mut w, x);
    put_quantiser(&mut w, x, qp);
    let ghost start = w@;
    if x.t8x8 {
        w.bit(1);
        w.bit(0);
        w.se(x.cqo);
    }
    assert(w@ =~= start + transform_bits(*x));
    assert(w@ =~= pps_bits(*x, qp as int));
    finish_unit(0x68, w)
}

/// H.264 levels: number, macroblocks per second, macroblocks per frame and
/// macroblocks in the decoded picture buffer.
pub const LEVELS: [(u8, u32, u32, u32); 16] = [
    (10, 1485, 99, 396),
    (11, 3000, 396, 900),
    (12, 6000, 396, 2376),
    (13, 11880, 396, 2376),
    (20, 11880, 396, 2376),
    (21, 19800, 792, 4752),
    (22, 20250, 1620, 8100),
    (30, 40500, 1620, 8100),
    (31, 108000, 3600, 18000),
    (32, 216000, 5120, 20480),
    (40, 245760, 8192, 32768),
    (42, 522240, 8704, 34816),
    (50, 589824, 22080, 110400),
    (51, 983040, 36864, 184320),
    (52, 2073600, 36864, 184320),
    (60, 4177920, 139264, 696320),
];

/// A video of `w` by `h` macroblocks keeps the limits of a level.
pub open spec fn within(
    limits: (u8, u32, u32, u32),
    w: int,
    h: int,
    num_ref: int,
    fps: (u32, u32),
) -> bool {
    &&& fps.1 > 0
    &&& w * h * fps.0 <= limits.1 * fps.1
    &&& w * h <= limits.2
    &&& w * w <= 8 * limits.2
    &&& h * h <= 8 * limits.2
    &&& (if num_ref > 1 {
        num_ref
    } else {
        1
    }) * (w * h) <= limits.3
}

/// The first level from row `i` on whose limits the video keeps, or else 6.0.
pub open spec fn level_from(i: int, w: int, h: int, num_ref: int, fps: (u32, u32)) -> u8
    decreases 16 - i,
{
    if i >= 16 {
        60
    } else if within(LEVELS@[i], w, h, num_ref, fps) {
        LEVELS@[i].0
    } else {
        level_from(i + 1, w, h, num_ref, fps)
    }
}

/// The first level whose limits the video keeps is the one that is picked.
pub proof fn law_level_is_lowest(from: int, i: int, w: int, h: int, num_ref: int, fps: (u32, u32))
    requires
        0 <= from <= i < 16,
        within(LEVELS@[i], w, h, num_ref, fps),
        forall|k: int| from <= k < i ==> !within(#[trigger] LEVELS@[k], w, h, num_ref, fps),
    ensures
        level_from(from, w, h, num_ref, fps) == LEVELS@[i].0,
    decreases i - from,
{
    if from < i {
        assert(!within(LEVELS@[from], w, h, num_ref, fps));
        law_level_is_lowest(from + 1, i, w, h, num_ref, fps);
    }
}

/// A video that keeps the limits of no level gets 6.0 all the same.
pub proof fn law_level_without_limits(from: int, w: int, h: int, num_ref: int, fps: (u32, u32))
    requires
        0 <= from <= 16,
        forall|k: int| from <= k < 16 ==> !within(#[trigger] LEVELS@[k], w, h, num_ref, fps),
    ensures
        level_from(from, w, h, num_ref, fps) == 60,
    decreases 16 - from,
{
    if from < 16 {
        assert(!within(LEVELS@[from], w, h, num_ref, fps));
        law_level_without_limits(from + 1, w, h, num_ref, fps);
    }
}

proof fn lemma_levels_ascend(i: int)
    requires
        0 <= i < 16,
    ensures
        LEVELS@[i].0 <= 60,
        i < 15 ==> LEVELS@[i].0 <= LEVELS@[i + 1].0,
{
    assert(LEVELS@[0].0 == 10 && LEVELS@[1].0 == 11 && LEVELS@[2].0 == 12 && LEVELS@[3].0 == 13);
    assert(LEVELS@[4].0 == 20 && LEVELS@[5].0 == 21 && LEVELS@[6].0 == 22 && LEVELS@[7].0 == 30);
    assert(LEVELS@[8].0 == 31 && LEVELS@[9].0 == 32 && LEVELS@[10].0 == 40 && LEVELS@[11].0 == 42);
    assert(LEVELS@[12].0 == 50 && LEVELS@[13].0 == 51 && LEVELS@[14].0 == 52 && LEVELS@[15].0
        == 60);
}

proof fn lemma_level_at_least(i: int, w: int, h: int, num_ref: int, fps: (u32, u32))
    requires
        0 <= i < 16,
    ensures
        LEVELS@[i].0 <= level_from(i, w, h, num_ref, fps),
    decreases 16 - i,
{
    lemma_levels_ascend(i);
    if i < 15 {
        lemma_level_at_least(i + 1, w, h, num_ref, fps);
    } else {
        assert(level_from(16, w, h, num_ref, fps) == 60);
    }
}

proof fn lemma_slower(a: int, b: int, most: int, f: (u32, u32), g: (u32, u32))
    by (nonlinear_arith)
    requires
        0 <= a <= b,
        f.0 * g.1 <= g.0 * f.1,
        f.1 > 0,
        g.1 > 0,
        b * g.0 <= most * g.1,
    ensures
        a * f.0 <= most * f.1,
{
    assert(a * f.0 <= b * f.0);
    assert((b * f.0) * g.1 == b * (f.0 * g.1));
    assert(b * (f.0 * g.1) <= b * (g.0 * f.1));
    assert(b * (g.0 * f.1) == (b * g.0) * f.1);
    assert((b * g.0) * f.1 <= (most * g.1) * f.1);
    assert((most * g.1) * f.1 == (most * f.1) * g.1);
    assert((a * f.0) * g.1 <= (most * f.1) * g.1);
}

proof fn lemma_smaller_is_within(
    limits: (u8, u32, u32, u32),
    w: int,
    h: int,
    n: int,
    f: (u32, u32),
    w2: int,
    h2: int,
    n2: int,
    g: (u32, u32),
)
    requires
        0 <= w <= w2,
        0 <= h <= h2,
        n <= n2,
        f.0 * g.1 <= g.0 * f.1,
        f.1 > 0,
        within(limits, w2, h2, n2, g),
    ensures
        within(limits, w, h, n, f),
{
    lemma_product(w, h, w2, h2);
    lemma_product(w, w, w2, w2);
    lemma_product(h, h, h2, h2);
    lemma_slower(w * h, w2 * h2, limits.1 as int, f, g);
    let refs = if n > 1 {
        n
    } else {
        1
    };
    let refs2 = if n2 > 1 {
        n2
    } else {
        1
    };
    lemma_product(refs, w * h, refs2, w2 * h2);
}

/// A video that is larger, faster or has more reference frames never gets a lower
/// level.
pub proof fn law_level_grows(
    from: int,
    w: int,
    h: int,
    n: int,
    f: (u32, u32),
    w2: int,
    h2: int,
    n2: int,
    g: (u32, u32),
)
    requires
        0 <= from <= 16,
        0 <= w <= w2,
        0 <= h <= h2,
        n <= n2,
        f.0 * g.1 <= g.0 * f.1,
        f.1 > 0,
        g.1 > 0,
    ensures
        level_from(from, w, h, n, f) <= level_from(from, w2, h2, n2, g),
    decreases 16 - from,
{
    if from < 16 {
        if within(LEVELS@[from], w2, h2, n2, g) {
            lemma_smaller_is_within(LEVELS@[from], w, h, n, f, w2, h2, n2, g);
        } else {
            lemma_level_at_least(from, w2, h2, n2, g);
            law_level_grows(from + 1, w, h, n, f, w2, h2, n2, g);
        }
    }
}

/// The lowest level for frames of `w` by `h` macroblocks, `num_ref` reference
/// frames and `fps.0 / fps.1` frames per second.
pub fn pick_level(w: u32, h: u32, num_ref: u32, fps: (u32, u32)) -> (l: u8)
    ensures
        l == level_from(0, w as int, h as int, num_ref as int, fps),
{
    let refs: u128 = if num_ref > 1 {
        num_ref as u128
    } else {
        1
    };
    let w1: u128 = w as u128;
    let h1: u128 = h as u128;
    proof {
        lemma_product(w as int, h as int, 0xffff_ffff, 0xffff_ffff);
        lemma_product(w as int, w as int, 0xffff_ffff, 0xffff_ffff);
        lemma_product(h as int, h as int, 0xffff_ffff, 0xffff_ffff);
        lemma_product(w * h, fps.0 as int, 0xffff_fffe_0000_0001, 0xffff_ffff);
        lemma_product(refs as int, w * h, 0xffff_ffff, 0xffff_fffe_0000_0001);
    }
    let area: u128 = w1 * h1;
    let w2: u128 = w1 * w1;
    let h2: u128 = h1 * h1;
    let rate: u128 = area * fps.0 as u128;
    let held: u128 = refs * area;
    let mut i: usize = 0;
    while i < 16
        invariant
            i <= 16,
            area == w * h,
            w2 == w * w,
            h2 == h * h,
            rate == w * h * fps.0,
            held == refs * (w * h),
            refs == (if num_ref > 1 {
                num_ref as int
            } else {
                1
            }),
            level_from(0, w as int, h as int, num_ref as int, fps) == level_from(
                i as int,
                w as int,
                h as int,
                num_ref as int,
                fps,
            ),
        decreases 16 - i,
    {
        let (l, max_rate, fs, dpb) = LEVELS[i];
        proof {
            lemma_product(max_rate as int, fps.1 as int, 0xffff_ffff, 0xffff_ffff);
        }
        if fps.1 > 0 && rate <= max_rate as u128 * fps.1 as u128 && area <= fs as u128 && w2 <= 8
            * fs as u128 && h2 <= 8 * fs as u128 && held <= dpb as u128 {
            return l;
        }
        i = i + 1;
    }
    60
}

proof fn lemma_product(a: int, b: int, x: int, y: int)
    by (nonlinear_arith)
    requires
        0 <= a <= x,
        0 <= b <= y,
    ensures
        0 <= a * b <= x * y,
{
}

/// What the H.264 standard allows at a level: macroblocks per second, macroblocks per
/// frame, and macroblocks in the decoded picture buffer.
pub open spec fn limits_of(level: int) -> Option<(int, int, int)> {
    if level == 10 {
        Some((1485, 99, 396))
    } else if level == 11 {
        Some((3000, 396, 900))
    } else if level == 12 {
        Some((6000, 396, 2376))
    } else if level == 13 {
        Some((11880, 396, 2376))
    } else if level == 20 {
        Some((11880, 396, 2376))
    } else if level == 21 {
        Some((19800, 792, 4752))
    } else if level == 22 {
        Some((20250, 1620, 8100))
    } else if level == 30 {
        Some((40500, 1620, 8100))
    } else if level == 31 {
        Some((108000, 3600, 18000))
    } else if level == 32 {
        Some((216000, 5120, 20480))
    } else if level == 40 {
        Some((245760, 8192, 32768))
    } else if level == 42 {
        Some((522240, 8704, 34816))
    } else if level == 50 {
        Some((589824, 22080, 110400))
    } else if level == 51 {
        Some((983040, 36864, 184320))
    } else if level == 52 {
        Some((2073600, 36864, 184320))
    } else if level == 60 {
        Some((4177920, 139264, 696320))
    } else {
        None
    }
}

/// A video keeps the limits of a level: its macroblocks per second, its size, each
/// side, and what its reference frames take, of which it has one at least.
pub open spec fn keeps_level(level: int, w: int, h: int, num_ref: int, fps: (u32, u32)) -> bool {
    match limits_of(level) {
        None => false,
        Some((rate, size, buffer)) => {
            let refs = if num_ref < 1 {
                1
            } else {
                num_ref
            };
            &&& fps.1 != 0
            &&& w * h * fps.0 <= rate * fps.1
            &&& w * h <= size
            &&& w * w <= size * 8
            &&& h * h <= size * 8
            &&& refs * (w * h) <= buffer
        },
    }
}

proof fn lemma_rows(i: int)
    requires
        0 <= i < 16,
    ensures
        limits_of(LEVELS@[i].0 as int) == Some(
            (LEVELS@[i].1 as int, LEVELS@[i].2 as int, LEVELS@[i].3 as int),
        ),
        forall|m: int|
            (if i == 0 {
                0
            } else {
                LEVELS@[i - 1].0 as int
            }) < m < LEVELS@[i].0 ==> #[trigger] limits_of(m) is None,
        LEVELS@[i].0 <= 60,
{
    assert(LEVELS@[0] == (10u8, 1485u32, 99u32, 396u32));
    assert(LEVELS@[1] == (11u8, 3000u32, 396u32, 900u32));
    assert(LEVELS@[2] == (12u8, 6000u32, 396u32, 2376u32));
    assert(LEVELS@[3] == (13u8, 11880u32, 396u32, 2376u32));
    assert(LEVELS@[4] == (20u8, 11880u32, 396u32, 2376u32));
    assert(LEVELS@[5] == (21u8, 19800u32, 792u32, 4752u32));
    assert(LEVELS@[6] == (22u8, 20250u32, 1620u32, 8100u32));
    assert(LEVELS@[7] == (30u8, 40500u32, 1620u32, 8100u32));
    assert(LEVELS@[8] == (31u8, 108000u32, 3600u32, 18000u32));
    assert(LEVELS@[9] == (32u8, 216000u32, 5120u32, 20480u32));
    assert(LEVELS@[10] == (40u8, 245760u32, 8192u32, 32768u32));
    assert(LEVELS@[11] == (42u8, 522240u32, 8704u32, 34816u32));
    assert(LEVELS@[12] == (50u8, 589824u32, 22080u32, 110400u32));
    assert(LEVELS@[13] == (51u8, 983040u32, 36864u32, 184320u32));
    assert(LEVELS@[14] == (52u8, 2073600u32, 36864u32, 184320u32));
    assert(LEVELS@[15] == (60u8, 4177920u32, 139264u32, 696320u32));
}

proof fn lemma_lower_levels(i: int, w: int, h: int, num_ref: int, fps: (u32, u32), m: int)
    requires
        0 <= i < 16,
        (if i == 0 {
            0
        } else {
            LEVELS@[i - 1].0 as int
        }) < m,
        m < level_from(i, w, h, num_ref, fps),
    ensures
        !keeps_level(m, w, h, num_ref, fps),
    decreases 16 - i,
{
    lemma_rows(i);
    let row = LEVELS@[i];
    if m < row.0 {
        assert(limits_of(m) is None);
    } else {
        assert(!within(row, w, h, num_ref, fps));
        if m > row.0 {
            if i < 15 {
                lemma_lower_levels(i + 1, w, h, num_ref, fps, m);
            } else {
                assert(LEVELS@[15].0 == 60);
            }
        }
    }
}

proof fn lemma_picked_row(i: int, w: int, h: int, num_ref: int, fps: (u32, u32))
    requires
        0 <= i <= 16,
    ensures
        keeps_level(level_from(i, w, h, num_ref, fps) as int, w, h, num_ref, fps) || level_from(
            i,
            w,
            h,
            num_ref,
            fps,
        ) == 60,
        level_from(i, w, h, num_ref, fps) <= 60,
    decreases 16 - i,
{
    if i < 16 {
        lemma_rows(i);
        lemma_picked_row(i + 1, w, h, num_ref, fps);
    }
}

/// The level that is picked is one that the video keeps, or 6.0, and it keeps none of
/// the lower ones.
pub proof fn law_level_is_kept(w: int, h: int, num_ref: int, fps: (u32, u32), lower: int)
    ensures
        ({
            let l = level_from(0, w, h, num_ref, fps) as int;
            &&& keeps_level(l, w, h, num_ref, fps) || l == 60
            &&& lower < l ==> !keeps_level(lower, w, h, num_ref, fps)
        }),
{
    lemma_picked_row(0, w, h, num_ref, fps);
    if 0 < lower < level_from(0, w, h, num_ref, fps) {
        lemma_lower_levels(0, w, h, num_ref, fps, lower);
    }
}

} // verus!
