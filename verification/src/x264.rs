//! The encoder settings that x264 leaves in the stream, and the stream
//! parameters that follow from them.

use crate::bits::bit_len;
use vstd::arithmetic::power2::{lemma2_to64, lemma_pow2_strictly_increases, pow2};
use vstd::bits::lemma_u32_shl_is_mul;
use vstd::prelude::*;

verus! {

/// The x264 options that the parameter sets depend on.
#[derive(Clone, Copy, Debug)]
pub struct X264 {
    /// Arithmetic entropy coding.
    pub cabac: bool,
    /// The most B-frames in a row.
    pub bframes: u32,
    /// Whether B-frames are referred to: 0 is not at all, 1 is strictly layered.
    pub pyramid: u32,
    /// Reference frames.
    pub refs: u32,
    /// Transforms of 8 by 8.
    pub t8x8: bool,
    /// Weighted prediction of P-frames; 0 is none.
    pub weightp: u32,
    /// Weighted prediction of B-frames.
    pub weightb: bool,
    /// The offset of the chroma quantiser.
    pub cqo: i32,
    /// Intra prediction from intra blocks only.
    pub constrained: bool,
    /// The farthest that key frames are apart.
    pub keyint: u32,
}

/// Stream parameters that x264 derives from its options.
#[derive(Clone, Copy, Debug)]
pub struct Params {
    /// The profile.
    pub profile: u8,
    /// Reference frames.
    pub num_ref: u32,
    /// The width of a frame number, in bits.
    pub log2_fn: u32,
    /// How picture order is coded: 0 is by a count, 2 is as stored.
    pub poc_type: u32,
    /// The width of a picture order count, in bits.
    pub log2_poc: u32,
    /// How many frames are held back before one is shown.
    pub reorder: u32,
}

impl Params {
    /// The widths of the frame number and of the picture order count are ones
    /// that a slice header can be read with.
    pub open spec fn wf(&self) -> bool {
        &&& 4 <= self.log2_fn <= 31
        &&& 4 <= self.log2_poc <= 31
    }
}

/// The larger of two numbers.
pub open spec fn max2(a: int, b: int) -> int {
    if a >= b {
        a
    } else {
        b
    }
}

impl X264 {
    /// B-frames that other B-frames refer to.
    pub open spec fn has_pyramid(&self) -> bool {
        self.pyramid > 0 && self.bframes > 0
    }

    /// How many frames the decoder holds back before it shows one.
    pub open spec fn reorder_depth(&self) -> int {
        if self.has_pyramid() {
            2
        } else if self.bframes > 0 {
            1
        } else {
            0
        }
    }

    /// How many reference frames the stream declares. Only key frames: none.
    pub open spec fn num_ref_frames(&self) -> int {
        let most = max2(
            max2(self.refs as int, 1 + self.reorder_depth()),
            if self.has_pyramid() {
                4
            } else {
                1
            },
        );
        if self.keyint == 1 {
            0
        } else if self.pyramid == 1 && self.bframes > 0 {
            most - 1
        } else {
            most
        }
    }

    /// The greatest frame number that has to be told apart.
    pub open spec fn max_frame_num(&self) -> int {
        self.num_ref_frames() * (if self.has_pyramid() {
            2int
        } else {
            1int
        }) + 1
    }

    /// Twice the greatest distance in picture order that has to be told apart.
    pub open spec fn poc_span(&self) -> int {
        (self.bframes + 2) * (if self.has_pyramid() {
            2int
        } else {
            1int
        }) * 4
    }

    /// Both counters fit in the 31 bits that their widths can be written for.
    pub open spec fn derivable_spec(&self) -> bool {
        &&& self.max_frame_num() < 0x8000_0000
        &&& self.bframes > 0 ==> self.poc_span() < 0x8000_0000
    }

    /// Whether stream parameters can be derived from these options.
    pub fn derivable(&self) -> (r: bool)
        ensures
            r == self.derivable_spec(),
    {
        let pyr: bool = self.pyramid > 0 && self.bframes > 0;
        let k: u64 = if pyr { 2 } else { 1 };
        if self.bframes > 0 && (self.bframes as u64 + 2) * k * 4 >= 0x8000_0000 {
            return false;
        }
        let n: u64 = reference_frames(self) as u64;
        n * k + 1 < 0x8000_0000
    }
}

/// The width of a counter that runs up to `most`: at least 4 bits, and enough
/// for every value.
pub open spec fn counter_width(most: nat) -> nat {
    if bit_len(most) > 4 {
        bit_len(most)
    } else {
        4
    }
}

/// The profile that the tools in use call for.
pub open spec fn profile_of(x: X264, depth: u32) -> u8 {
    if depth > 8 {
        110
    } else if x.t8x8 {
        100
    } else if x.cabac || x.bframes > 0 || x.weightp > 0 {
        77
    } else {
        66
    }
}

/// The stream parameters of a video with `depth` bits per sample.
pub open spec fn params_of(x: X264, depth: u32) -> Params {
    Params {
        profile: profile_of(x, depth),
        num_ref: x.num_ref_frames() as u32,
        log2_fn: counter_width(x.max_frame_num() as nat) as u32,
        poc_type: if x.bframes > 0 {
            0
        } else {
            2
        },
        log2_poc: if x.bframes > 0 {
            counter_width(x.poc_span() as nat) as u32
        } else {
            4
        },
        reorder: x.reorder_depth() as u32,
    }
}

/// The number of reference frames that the options call for.
fn reference_frames(x: &X264) -> (n: u32)
    ensures
        n == x.num_ref_frames(),
{
    if x.keyint == 1 {
        return 0;
    }
    let pyr: bool = x.pyramid > 0 && x.bframes > 0;
    let least: u32 = if pyr {
        4
    } else if x.bframes > 0 {
        2
    } else {
        1
    };
    let n: u32 = if x.refs > least {
        x.refs
    } else {
        least
    };
    if x.pyramid == 1 && x.bframes > 0 {
        n - 1
    } else {
        n
    }
}

/// The width of a counter that runs up to `most`.
fn width_for(most: u32) -> (k: u32)
    requires
        most < 0x8000_0000,
    ensures
        k == counter_width(most as nat),
        4 <= k <= 31,
{
    let mut k: u32 = 4;
    proof {
        lemma2_to64();
        lemma_u32_shl_is_mul(1, 4);
        lemma_u32_shl_is_mul(1, 31);
    }
    while (1u32 << k) <= most
        invariant
            4 <= k <= 31,
            most < 0x8000_0000,
            (1u32 << 31u32) == 0x8000_0000,
            k > 4 ==> (1u32 << ((k - 1) as u32)) <= most,
        decreases 32 - k,
    {
        k = k + 1;
    }
    proof {
        lemma_shl_pow2(k);
        lemma_shl_pow2((k - 1) as u32);
        lemma_bit_len_is(most as nat, k as nat);
    }
    k
}

proof fn lemma_shl_pow2(k: u32)
    requires
        k <= 31,
    ensures
        (1u32 << k) == pow2(k as nat),
{
    lemma2_to64();
    if k < 31 {
        lemma_pow2_strictly_increases(k as nat, 31);
    }
    lemma_u32_shl_is_mul(1, k);
}

/// The least width that holds `most`, above 4, is its digit count.
proof fn lemma_bit_len_is(most: nat, k: nat)
    requires
        k >= 4,
        most < pow2(k),
        k > 4 ==> pow2((k - 1) as nat) <= most,
    ensures
        k == counter_width(most),
{
    crate::bits::lemma_bit_len_bound(most);
    let n = bit_len(most);
    if n > k {
        if n - 1 > k {
            lemma_pow2_strictly_increases(k, (n - 1) as nat);
        }
    } else if n < k && k > 4 {
        if n < k - 1 {
            lemma_pow2_strictly_increases(n, (k - 1) as nat);
        }
    }
}

/// The stream parameters that x264 writes for these options, with `depth` bits
/// per sample.
pub fn derive(x: &X264, depth: u32) -> (p: Params)
    requires
        x.derivable_spec(),
    ensures
        p == params_of(*x, depth),
        p.wf(),
{
    let pyr: bool = x.pyramid > 0 && x.bframes > 0;
    let reorder: u32 = if pyr {
        2
    } else if x.bframes > 0 {
        1
    } else {
        0
    };
    let k: u32 = if pyr {
        2
    } else {
        1
    };
    let num_ref: u32 = reference_frames(x);
    let log2_fn: u32 = width_for(num_ref * k + 1);
    let poc_type: u32 = if x.bframes > 0 {
        0
    } else {
        2
    };
    let log2_poc: u32 = if poc_type == 0 {
        width_for((x.bframes + 2) * k * 4)
    } else {
        4
    };
    let profile: u8 = if depth > 8 {
        110
    } else if x.t8x8 {
        100
    } else if x.cabac || x.bframes > 0 || x.weightp > 0 {
        77
    } else {
        66
    };
    Params { profile, num_ref, log2_fn, poc_type, log2_poc, reorder }
}

/// The widths that are derived hold every frame number and every distance in
/// picture order, and one bit less would not, unless the least width holds them.
pub proof fn law_counters_are_wide_enough(x: X264, depth: u32)
    requires
        x.derivable_spec(),
    ensures
        ({
            let p = params_of(x, depth);
            &&& x.max_frame_num() < pow2(p.log2_fn as nat)
            &&& p.log2_fn > 4 ==> pow2((p.log2_fn - 1) as nat) <= x.max_frame_num()
            &&& x.bframes > 0 ==> x.poc_span() < pow2(p.log2_poc as nat)
            &&& x.bframes > 0 && p.log2_poc > 4 ==> pow2((p.log2_poc - 1) as nat) <= x.poc_span()
        }),
{
    lemma_counter_holds(x.max_frame_num() as nat);
    if x.bframes > 0 {
        lemma_counter_holds(x.poc_span() as nat);
    }
}

proof fn lemma_counter_holds(most: nat)
    requires
        most < 0x8000_0000,
    ensures
        most < pow2(counter_width(most)),
        counter_width(most) > 4 ==> pow2((counter_width(most) - 1) as nat) <= most,
        counter_width(most) <= 31,
{
    lemma2_to64();
    crate::bits::lemma_bit_len_bound(most);
    let n = bit_len(most);
    if n < 4 {
        lemma_pow2_strictly_increases(n, 4);
    }
    if n > 31 {
        if n > 32 {
            lemma_pow2_strictly_increases(31, (n - 1) as nat);
        }
    }
}

/// How x264 counts: a stream has B-frames exactly if it has picture order counts;
/// the counter of frames takes every number up to the reference frames, twice as many
/// where B-frames are referred to, and one more; that of picture order takes twice the
/// distance of the farthest frames, which are two more than the B-frames in a row
/// apart, each two counts, and twice that where B-frames are referred to. No counter is
/// narrower than 4 bits nor wider than it needs to be.
pub proof fn law_derived_counters(x: X264, depth: u32)
    requires
        x.derivable_spec(),
    ensures
        ({
            let p = params_of(x, depth);
            let layers = if x.pyramid > 0 && x.bframes > 0 {
                2int
            } else {
                1
            };
            let numbers = layers * p.num_ref + 1;
            let distance = 2 * (x.bframes + 2) * layers;
            &&& p.poc_type == 0 <==> x.bframes > 0
            &&& p.poc_type == 0 || p.poc_type == 2
            &&& 4 <= p.log2_fn <= 31 && numbers < pow2(p.log2_fn as nat)
            &&& p.log2_fn > 4 ==> pow2((p.log2_fn - 1) as nat) <= numbers
            &&& x.bframes > 0 ==> 4 <= p.log2_poc <= 31 && 2 * distance < pow2(p.log2_poc as nat)
            &&& x.bframes > 0 && p.log2_poc > 4 ==> pow2((p.log2_poc - 1) as nat) <= 2 * distance
            &&& x.bframes == 0 ==> p.log2_poc == 4
        }),
{
    law_counters_are_wide_enough(x, depth);
    lemma_counter_holds(x.max_frame_num() as nat);
    if x.bframes > 0 {
        lemma_counter_holds(x.poc_span() as nat);
    }
    let k = if x.pyramid > 0 && x.bframes > 0 {
        2int
    } else {
        1
    };
    assert(x.num_ref_frames() * k == k * x.num_ref_frames()) by (nonlinear_arith);
    assert(2 * (2 * (x.bframes + 2) * k) == (x.bframes + 2) * k * 4) by (nonlinear_arith);
}

/// How many frames are held: none is held back without B-frames, one with them, two
/// where they are referred to. A stream of key frames only has no references; else it
/// has as many as it was asked for, but at least one more than are held back, and at
/// least 4 where B-frames are referred to. Where that is strictly layered, it needs one
/// less.
pub proof fn law_derived_references(x: X264, depth: u32)
    requires
        x.derivable_spec(),
    ensures
        ({
            let p = params_of(x, depth);
            let least: int = if x.bframes == 0 {
                1
            } else if x.pyramid == 0 {
                2
            } else {
                4
            };
            let spared: int = if x.pyramid == 1 && x.bframes > 0 {
                1
            } else {
                0
            };
            &&& p.reorder == 0 <==> x.bframes == 0
            &&& p.reorder == 2 <==> x.bframes > 0 && x.pyramid > 0
            &&& p.reorder <= 2
            &&& x.keyint == 1 ==> p.num_ref == 0
            &&& x.keyint != 1 && x.refs >= least ==> p.num_ref == x.refs - spared
            &&& x.keyint != 1 && x.refs < least ==> p.num_ref == least - spared
        }),
{
}

/// The profile: 110 for deep samples; else 100 for 8x8 transforms; else 77 for any of
/// arithmetic coding, B-frames and weighted P-frames; else 66.
pub proof fn law_derived_profile(x: X264, depth: u32)
    ensures
        ({
            let profile = params_of(x, depth).profile;
            let main = x.cabac || x.bframes > 0 || x.weightp > 0;
            &&& profile == 110 <==> depth > 8
            &&& profile == 100 <==> depth <= 8 && x.t8x8
            &&& profile == 77 <==> depth <= 8 && !x.t8x8 && main
            &&& profile == 66 <==> depth <= 8 && !x.t8x8 && !main
        }),
{
}

} // verus!
