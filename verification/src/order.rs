//! The order in which frames are shown.
//!
//! A slice header holds the low bits of its picture's order count. The rest is
//! inferred from the reference frame before it.

use crate::bits::{
    bits_of, law_exp_golomb_read_back, law_field_read_back, read_u, read_ue, u_bits, ue_bits, value,
    Bits,
};
use crate::fault::Fault;
use crate::frames::{behind_slice_ids, header_bytes, header_lies_in, skip_slice_ids, Frame};
use crate::mdat::min_int;
use crate::nal::{lemma_unescaped_len, unescape, unescaped};
use crate::x264::Params;
use vstd::arithmetic::div_mod::{lemma_fundamental_div_mod, lemma_mod_multiples_basic};
use vstd::arithmetic::power2::{
    lemma2_to64, lemma2_to64_rest, lemma_pow2_pos, lemma_pow2_strictly_increases,
    lemma_pow2_unfold, pow2,
};
use vstd::bits::lemma_u64_shl_is_mul;
use vstd::prelude::*;
use vstd::set_lib::{lemma_int_range, lemma_len_subset, lemma_subset_equality, set_int_range};
use vstd::slice::slice_subrange;

verus! {

/// The low bits of the order count in the slice header of `f`, where it can be
/// read.
pub open spec fn count_field(d: Seq<u8>, f: Frame, p: Params) -> Option<nat> {
    match behind_slice_ids(bits_of(header_bytes(d, f.pos as int, f.len as int, 24))) {
        None => None,
        Some(b) => {
            let number = read_u(b, p.log2_fn as nat);
            let key_id = read_ue(number.1);
            if number.0 is None || (f.is_key() && key_id.0 is None) {
                None
            } else if f.is_key() {
                read_u(key_id.1, p.log2_poc as nat).0
            } else {
                read_u(number.1, p.log2_poc as nat).0
            }
        },
    }
}

/// The high part of the order count whose low bits are `lsb`, that which brings it
/// nearest to the one before.
pub open spec fn high_part(lsb: int, prev_msb: int, prev_lsb: int, span: int) -> int {
    if lsb < prev_lsb && prev_lsb - lsb >= span / 2 {
        prev_msb + span
    } else if lsb > prev_lsb && lsb - prev_lsb > span / 2 {
        prev_msb - span
    } else {
        prev_msb
    }
}

/// The order count of the last reference frame of `frames`, as high part and low
/// bits. A key frame starts from zero.
pub open spec fn count_before(d: Seq<u8>, frames: Seq<Frame>, p: Params, key: bool) -> (int, int)
    decreases frames.len(),
{
    if key || frames.len() == 0 {
        (0, 0)
    } else {
        let f = frames.last();
        let prev = count_before(d, frames.drop_last(), p, f.is_key());
        if f.is_reference() {
            let lsb = count_field(d, f, p)->0 as int;
            (high_part(lsb, prev.0, prev.1, pow2(p.log2_poc as nat) as int), lsb)
        } else {
            prev
        }
    }
}

/// The order count of frame `i`.
pub open spec fn order_count(d: Seq<u8>, frames: Seq<Frame>, p: Params, i: int) -> int {
    let prev = count_before(d, frames.take(i), p, frames[i].is_key());
    let lsb = count_field(d, frames[i], p)->0 as int;
    high_part(lsb, prev.0, prev.1, pow2(p.log2_poc as nat) as int) + lsb
}

/// A key frame stands behind frame `a`, up to frame `b`.
pub open spec fn key_between(frames: Seq<Frame>, a: int, b: int) -> bool {
    exists|k: int| a < k <= b && (#[trigger] frames[k]).is_key()
}

/// Frame `a` is shown before frame `b`: a key frame separates them, or its order
/// count is the smaller one; of two equal ones the first in the file comes first.
pub open spec fn shown_before(frames: Seq<Frame>, counts: Seq<int>, a: int, b: int) -> bool {
    if a < b {
        key_between(frames, a, b) || counts[a] <= counts[b]
    } else {
        !key_between(frames, b, a) && counts[a] < counts[b]
    }
}

/// `disp` gives each frame its place in the order of showing.
pub open spec fn is_display_order(
    frames: Seq<Frame>,
    counts: Seq<int>,
    disp: Seq<usize>,
) -> bool {
    &&& disp.len() == frames.len()
    &&& forall|a: int| 0 <= a < disp.len() ==> (#[trigger] disp[a]) < disp.len()
    &&& forall|a: int, b: int|
        0 <= a < disp.len() && 0 <= b < disp.len() ==> ((#[trigger] disp[a]) < (#[trigger] disp[b])
            <==> shown_before(frames, counts, a, b))
}

/// The order counts of `frames`.
pub open spec fn order_counts(d: Seq<u8>, frames: Seq<Frame>, p: Params) -> Seq<int> {
    Seq::new(frames.len(), |i: int| order_count(d, frames, p, i))
}

/// The order count of every frame can be read.
pub open spec fn counts_readable(d: Seq<u8>, frames: Seq<Frame>, p: Params) -> bool {
    forall|i: int| 0 <= i < frames.len() ==> count_field(d, #[trigger] frames[i], p) is Some
}

/// The frames that are shown before frame `a`.
pub open spec fn earlier_frames(frames: Seq<Frame>, counts: Seq<int>, a: int) -> Set<int> {
    set_int_range(0, frames.len() as int).filter(|b: int| shown_before(frames, counts, b, a))
}

/// The place of each frame in the order of showing: how many are shown before it.
/// Where the stream has no counts of its own, frames are shown as they are stored.
pub open spec fn shown_order(d: Seq<u8>, frames: Seq<Frame>, p: Params) -> Seq<usize> {
    if p.poc_type != 0 {
        Seq::new(frames.len(), |i: int| i as usize)
    } else {
        Seq::new(
            frames.len(),
            |a: int| earlier_frames(frames, order_counts(d, frames, p), a).len() as usize,
        )
    }
}

proof fn lemma_keys_join(frames: Seq<Frame>, a: int, b: int, c: int)
    requires
        a <= b <= c,
    ensures
        key_between(frames, a, c) <==> key_between(frames, a, b) || key_between(frames, b, c),
{
    if key_between(frames, a, c) {
        let k = choose|k: int| a < k <= c && (#[trigger] frames[k]).is_key();
        if k <= b {
            assert(a < k <= b && frames[k].is_key());
        } else {
            assert(b < k <= c && frames[k].is_key());
        }
    }
    if key_between(frames, a, b) {
        let k = choose|k: int| a < k <= b && (#[trigger] frames[k]).is_key();
        assert(a < k <= c && frames[k].is_key());
    }
    if key_between(frames, b, c) {
        let k = choose|k: int| b < k <= c && (#[trigger] frames[k]).is_key();
        assert(a < k <= c && frames[k].is_key());
    }
}

proof fn lemma_shown_before_transitive(
    frames: Seq<Frame>,
    counts: Seq<int>,
    a: int,
    b: int,
    c: int,
)
    requires
        shown_before(frames, counts, a, b),
        shown_before(frames, counts, b, c),
    ensures
        shown_before(frames, counts, a, c),
{
    if a <= b && b <= c {
        lemma_keys_join(frames, a, b, c);
    } else if a <= c && c <= b {
        lemma_keys_join(frames, a, c, b);
    } else if b <= a && a <= c {
        lemma_keys_join(frames, b, a, c);
    } else if b <= c && c <= a {
        lemma_keys_join(frames, b, c, a);
    } else if c <= a && a <= b {
        lemma_keys_join(frames, c, a, b);
    } else {
        lemma_keys_join(frames, c, b, a);
    }
}

proof fn lemma_earlier_frames(frames: Seq<Frame>, counts: Seq<int>, a: int)
    requires
        0 <= a < frames.len(),
    ensures
        earlier_frames(frames, counts, a).finite(),
        earlier_frames(frames, counts, a).len() < frames.len(),
{
    let n = frames.len() as int;
    let all = set_int_range(0, n);
    let s = earlier_frames(frames, counts, a);
    lemma_int_range(0, n);
    assert(!key_between(frames, a, a));
    assert(!s.contains(a));
    assert(s.insert(a).subset_of(all));
    lemma_len_subset(s.insert(a), all);
}

proof fn lemma_earlier_frames_grow(frames: Seq<Frame>, counts: Seq<int>, a: int, b: int)
    requires
        0 <= a < frames.len(),
        0 <= b < frames.len(),
        shown_before(frames, counts, a, b),
    ensures
        earlier_frames(frames, counts, a).len() < earlier_frames(frames, counts, b).len(),
{
    let s = earlier_frames(frames, counts, a);
    let t = earlier_frames(frames, counts, b);
    lemma_earlier_frames(frames, counts, a);
    lemma_earlier_frames(frames, counts, b);
    assert(!key_between(frames, a, a));
    assert(!s.contains(a));
    assert forall|c: int| s.insert(a).contains(c) implies t.contains(c) by {
        if c != a {
            lemma_shown_before_transitive(frames, counts, c, a, b);
        }
    }
    lemma_len_subset(s.insert(a), t);
}

/// Where the stream has counts, frames are shown by them; where it has none, as
/// they are stored.
pub proof fn law_shown_order(d: Seq<u8>, frames: Seq<Frame>, p: Params)
    requires
        frames.len() <= usize::MAX,
    ensures
        shown_order(d, frames, p).len() == frames.len(),
        p.poc_type == 0 ==> is_display_order(
            frames,
            order_counts(d, frames, p),
            shown_order(d, frames, p),
        ),
        p.poc_type != 0 ==> forall|i: int|
            0 <= i < frames.len() ==> #[trigger] shown_order(d, frames, p)[i] == i,
{
    if p.poc_type == 0 {
        let counts = order_counts(d, frames, p);
        let disp = shown_order(d, frames, p);
        assert forall|a: int| 0 <= a < disp.len() implies (#[trigger] disp[a]) < disp.len()
            && disp[a] == earlier_frames(frames, counts, a).len() by {
            lemma_earlier_frames(frames, counts, a);
        }
        assert forall|a: int, b: int| 0 <= a < disp.len() && 0 <= b < disp.len() implies ((
        #[trigger] disp[a]) < (#[trigger] disp[b]) <==> shown_before(frames, counts, a, b)) by {
            assert(!key_between(frames, a, a));
            if shown_before(frames, counts, a, b) {
                lemma_earlier_frames_grow(frames, counts, a, b);
            } else if a != b {
                assert(shown_before(frames, counts, b, a));
                lemma_earlier_frames_grow(frames, counts, b, a);
            }
        }
    }
}

/// The order of showing can be told.
pub open spec fn order_known(d: Seq<u8>, frames: Seq<Frame>, p: Params) -> bool {
    p.poc_type != 0 || counts_readable(d, frames, p)
}

/// What is read of each slice header lies within `d`.
pub open spec fn headers_lie_in(d: Seq<u8>, frames: Seq<Frame>) -> bool {
    forall|k: int|
        0 <= k < frames.len() ==> header_lies_in(
            d,
            (#[trigger] frames[k]).pos as int,
            frames[k].len as int,
            24,
        )
}

/// Reads the low bits of the order count in the slice header of `f`.
fn read_count(d: &[u8], f: &Frame, p: &Params) -> (r: Option<u32>)
    requires
        header_lies_in(d@, f.pos as int, f.len as int, 24),
    ensures
        r is Some <==> count_field(d@, *f, *p) is Some,
        r matches Some(v) ==> count_field(d@, *f, *p) == Some(v as nat),
{
    let n: usize = d.len();
    assert(min_int(f.pos + 5 + 24, f.pos + 4 + f.len) <= n);
    let stop: usize = if f.len - 1 > 24 {
        f.pos + 5 + 24
    } else {
        f.pos + 4 + f.len
    };
    let raw: Vec<u8> = unescape(slice_subrange(d, f.pos + 5, stop));
    proof {
        lemma_unescaped_len(d@.subrange(f.pos + 5, stop as int), 0);
    }
    let mut r = Bits::new(raw.as_slice());
    if !skip_slice_ids(&mut r) {
        return None;
    }
    if r.u(p.log2_fn).is_none() {
        return None;
    }
    if f.hdr % 32 == 5 && r.ue().is_none() {
        return None;
    }
    r.u(p.log2_poc)
}

/// The order counts of `frames`, unless one of them cannot be read.
fn read_counts(d: &[u8], frames: &[Frame], p: &Params) -> (r: Option<Vec<i128>>)
    requires
        p.log2_poc <= 62,
        headers_lie_in(d@, frames@),
    ensures
        r is Some <==> counts_readable(d@, frames@, *p),
        r matches Some(v) ==> v@.len() == frames@.len() && forall|i: int|
            0 <= i < v@.len() ==> #[trigger] v@[i] == order_count(d@, frames@, *p, i),
{
    let n: usize = frames.len();
    proof {
        lemma2_to64();
        lemma2_to64_rest();
        if p.log2_poc < 62 {
            lemma_pow2_strictly_increases(p.log2_poc as nat, 62);
        }
        lemma_u64_shl_is_mul(1, p.log2_poc as u64);
        lemma_pow2_pos(p.log2_poc as nat);
    }
    let span: i128 = (1u64 << p.log2_poc as u64) as i128;
    let ghost whole = pow2(p.log2_poc as nat) as int;
    assert(span == whole && 0 < span <= 0x4000_0000_0000_0000);
    let mut prev_msb: i128 = 0;
    let mut prev_lsb: i128 = 0;
    let mut counts: Vec<i128> = Vec::new();
    let mut i: usize = 0;
    while i < n
        invariant
            i <= n == frames@.len(),
            headers_lie_in(d@, frames@),
            span == pow2(p.log2_poc as nat),
            0 < span <= 0x4000_0000_0000_0000,
            (prev_msb as int, prev_lsb as int) == count_before(
                d@,
                frames@.take(i as int),
                *p,
                false,
            ),
            -0x4000_0000_0000_0000 * i <= prev_msb <= 0x4000_0000_0000_0000 * i,
            0 <= prev_lsb <= u32::MAX,
            counts@.len() == i,
            forall|k: int| 0 <= k < i ==> #[trigger] counts@[k] == order_count(d@, frames@, *p, k),
            forall|k: int| 0 <= k < i ==> count_field(d@, #[trigger] frames@[k], *p) is Some,
        decreases n - i,
    {
        let f = &frames[i];
        let key = f.hdr % 32 == 5;
        let lsb: i128 = match read_count(d, f, p) {
            Some(v) => v as i128,
            None => {
                assert(count_field(d@, frames@[i as int], *p) is None);
                return None;
            },
        };
        if key {
            prev_msb = 0;
            prev_lsb = 0;
        }
        assert((prev_msb as int, prev_lsb as int) == count_before(
            d@,
            frames@.take(i as int),
            *p,
            key,
        ));
        let msb: i128 = if lsb < prev_lsb && prev_lsb - lsb >= span / 2 {
            prev_msb + span
        } else if lsb > prev_lsb && lsb - prev_lsb > span / 2 {
            prev_msb - span
        } else {
            prev_msb
        };
        assert(msb as int == high_part(
            lsb as int,
            prev_msb as int,
            prev_lsb as int,
            span as int,
        ));
        counts.push(msb + lsb);
        if f.hdr / 32 != 0 {
            prev_msb = msb;
            prev_lsb = lsb;
        }
        proof {
            let t = frames@.take(i + 1);
            assert(t.drop_last() =~= frames@.take(i as int));
            assert(t.last() == *f);
        }
        i = i + 1;
    }
    Some(counts)
}

/// The frames from `i` to `j` in the order of their counts.
fn sorted_group(counts: &Vec<i128>, i: usize, j: usize) -> (order: Vec<usize>)
    requires
        i <= j <= counts@.len(),
    ensures
        order@.len() == j - i,
        forall|r: int| 0 <= r < order@.len() ==> i <= (#[trigger] order@[r]) < j,
        forall|a: usize| i <= a < j ==> #[trigger] order@.contains(a),
        forall|q: int, r: int|
            0 <= q < r < order@.len() ==> counts@[(#[trigger] order@[q]) as int]
                < counts@[(#[trigger] order@[r]) as int] || (counts@[order@[q] as int]
                == counts@[order@[r] as int] && order@[q] < order@[r]),
{
    let mut order: Vec<usize> = Vec::new();
    let mut k: usize = i;
    while k < j
        invariant
            i <= k <= j <= counts@.len(),
            order@.len() == k - i,
            forall|r: int| 0 <= r < order@.len() ==> i <= (#[trigger] order@[r]) < k,
            forall|a: usize| i <= a < k ==> #[trigger] order@.contains(a),
            forall|q: int, r: int|
                0 <= q < r < order@.len() ==> counts@[(#[trigger] order@[q]) as int]
                    < counts@[(#[trigger] order@[r]) as int] || (counts@[order@[q] as int]
                    == counts@[order@[r] as int] && order@[q] < order@[r]),
        decreases j - k,
    {
        let mut at: usize = order.len();
        while at > 0 && counts[order[at - 1]] > counts[k]
            invariant
                at <= order@.len() == k - i,
                i <= k < j <= counts@.len(),
                forall|r: int| 0 <= r < order@.len() ==> i <= (#[trigger] order@[r]) < k,
                forall|r: int|
                    at <= r < order@.len() ==> counts@[(#[trigger] order@[r]) as int]
                        > counts@[k as int],
            decreases at,
        {
            at = at - 1;
        }
        let ghost before = order@;
        order.insert(at, k);
        proof {
            let now = order@;
            assert(now =~= before.insert(at as int, k));
            assert forall|a: usize| i <= a < k + 1 implies #[trigger] now.contains(a) by {
                if a == k {
                    assert(now[at as int] == a);
                } else {
                    assert(before.contains(a));
                    let r = choose|r: int| 0 <= r < before.len() && before[r] == a;
                    if r < at {
                        assert(now[r] == a);
                    } else {
                        assert(now[r + 1] == a);
                    }
                }
            }
            assert forall|q: int, r: int| 0 <= q < r < now.len() implies counts@[(
            #[trigger] now[q]) as int] < counts@[(#[trigger] now[r]) as int] || (
            counts@[now[q] as int] == counts@[now[r] as int] && now[q] < now[r]) by {
                let q0 = if q < at {
                    q
                } else {
                    q - 1
                };
                let r0 = if r < at {
                    r
                } else {
                    r - 1
                };
                if q == at {
                    assert(now[r] == before[r0]);
                } else if r == at {
                    assert(now[q] == before[q0]);
                    if q < at - 1 {
                        assert(before[q0] == before[q]);
                        assert(before[at - 1] < k);
                    }
                } else {
                    assert(now[q] == before[q0]);
                    assert(now[r] == before[r0]);
                }
            }
        }
        k = k + 1;
    }
    order
}

/// Orders `frames` for showing by the counts in their slice headers. Where the
/// stream has no counts of its own, frames are shown as they are stored.
pub fn display_order(d: &[u8], frames: &[Frame], p: &Params) -> (r: Result<Vec<usize>, Fault>)
    requires
        p.poc_type == 0 ==> p.log2_poc <= 62 && headers_lie_in(d@, frames@),
    ensures
        r is Ok <==> order_known(d@, frames@, *p),
        r matches Ok(disp) ==> disp@ == shown_order(d@, frames@, *p) && disp@.len() == frames@.len()
            && (p.poc_type == 0 ==> is_display_order(
            frames@,
            order_counts(d@, frames@, *p),
            disp@,
        )),
        r matches Err(e) ==> e == Fault::NoOrder,
{
    let n: usize = frames.len();
    let mut disp: Vec<usize> = Vec::new();
    let mut at: usize = 0;
    while at < n
        invariant
            at <= n,
            disp@ == Seq::new(at as nat, |i: int| i as usize),
        decreases n - at,
    {
        disp.push(at);
        at = at + 1;
        assert(disp@ =~= Seq::new(at as nat, |i: int| i as usize));
    }
    if p.poc_type != 0 {
        return Ok(disp);
    }
    let counts: Vec<i128> = match read_counts(d, frames, p) {
        Some(counts) => counts,
        None => {
            return Err(Fault::NoOrder);
        },
    };
    let ghost spec_counts = order_counts(d@, frames@, *p);
    let mut i: usize = 0;
    while i < n
        invariant
            i <= n == frames@.len() == counts@.len() == disp@.len() == spec_counts.len(),
            i < n ==> i == 0 || frames@[i as int].is_key(),
            forall|k: int| 0 <= k < n ==> spec_counts[k] == #[trigger] counts@[k],
            forall|a: int| 0 <= a < i ==> (#[trigger] disp@[a]) < i,
            forall|a: int, b: int|
                0 <= a < i && 0 <= b < i ==> ((#[trigger] disp@[a]) < (#[trigger] disp@[b])
                    <==> shown_before(frames@, spec_counts, a, b)),
        decreases n - i,
    {
        let mut j: usize = i + 1;
        while j < n && frames[j].hdr % 32 != 5
            invariant
                i < j <= n == frames@.len(),
                forall|k: int| i < k < j ==> !(#[trigger] frames@[k]).is_key(),
            decreases n - j,
        {
            j = j + 1;
        }
        let order: Vec<usize> = sorted_group(&counts, i, j);
        let ghost before = disp@;
        let mut rank: usize = 0;
        while rank < order.len()
            invariant
                rank <= order@.len() == j - i,
                i < j <= n == disp@.len() == before.len() == counts@.len(),
                forall|r: int| 0 <= r < order@.len() ==> i <= (#[trigger] order@[r]) < j,
                forall|a: int| 0 <= a < i ==> disp@[a] == before[a],
                forall|r: int|
                    0 <= r < rank ==> disp@[(#[trigger] order@[r]) as int] == i + r,
                forall|q: int, r: int|
                    0 <= q < r < order@.len() ==> counts@[(#[trigger] order@[q]) as int]
                        < counts@[(#[trigger] order@[r]) as int] || (counts@[order@[q] as int]
                        == counts@[order@[r] as int] && order@[q] < order@[r]),
            decreases order@.len() - rank,
        {
            let k: usize = order[rank];
            disp.set(k, i + rank);
            rank = rank + 1;
        }
        proof {
            assert forall|a: int| 0 <= a < j implies (#[trigger] disp@[a]) < j by {
                if a >= i {
                    assert(order@.contains(a as usize));
                    let r = choose|r: int| 0 <= r < order@.len() && order@[r] == a as usize;
                    assert(disp@[order@[r] as int] == i + r);
                } else {
                    assert(before[a] < i);
                }
            }
            assert forall|a: int, b: int| 0 <= a < j && 0 <= b < j implies ((
            #[trigger] disp@[a]) < (#[trigger] disp@[b]) <==> shown_before(
                frames@,
                spec_counts,
                a,
                b,
            )) by {
                lemma_group_order(
                    frames@,
                    spec_counts,
                    before,
                    disp@,
                    order@,
                    i as int,
                    j as int,
                    a,
                    b,
                );
            }
        }
        i = j;
    }
    proof {
        let other = shown_order(d@, frames@, *p);
        assert(is_display_order(frames@, spec_counts, disp@));
        law_shown_order(d@, frames@, *p);
        law_display_is_unique(frames@, spec_counts, disp@, other);
    }
    Ok(disp)
}

/// Placing a sorted group behind the groups before it keeps the order.
proof fn lemma_group_order(
    frames: Seq<Frame>,
    counts: Seq<int>,
    before: Seq<usize>,
    disp: Seq<usize>,
    order: Seq<usize>,
    i: int,
    j: int,
    a: int,
    b: int,
)
    requires
        0 <= i < j <= frames.len() == counts.len() == disp.len() == before.len(),
        frames.len() <= usize::MAX,
        0 <= a < j,
        0 <= b < j,
        i == 0 || frames[i].is_key(),
        forall|k: int| i < k < j ==> !(#[trigger] frames[k]).is_key(),
        order.len() == j - i,
        forall|r: int| 0 <= r < order.len() ==> i <= (#[trigger] order[r]) < j,
        forall|c: usize| i <= c < j ==> #[trigger] order.contains(c),
        forall|r: int| 0 <= r < order.len() ==> disp[(#[trigger] order[r]) as int] == i + r,
        forall|q: int, r: int|
            0 <= q < r < order.len() ==> counts[(#[trigger] order[q]) as int] < counts[(
            #[trigger] order[r]) as int] || (counts[order[q] as int] == counts[order[r] as int]
                && order[q] < order[r]),
        forall|c: int| 0 <= c < i ==> disp[c] == before[c],
        forall|c: int| 0 <= c < i ==> (#[trigger] before[c]) < i,
        forall|x: int, y: int|
            0 <= x < i && 0 <= y < i ==> ((#[trigger] before[x]) < (#[trigger] before[y])
                <==> shown_before(frames, counts, x, y)),
    ensures
        disp[a] < disp[b] <==> shown_before(frames, counts, a, b),
{
    if a < i && b < i {
        assert(disp[a] == before[a] && disp[b] == before[b]);
    } else if a >= i && b >= i {
        assert(order.contains(a as usize));
        let ra = choose|r: int| 0 <= r < order.len() && order[r] == a as usize;
        assert(order.contains(b as usize));
        let rb = choose|r: int| 0 <= r < order.len() && order[r] == b as usize;
        assert(disp[order[ra] as int] == i + ra);
        assert(disp[order[rb] as int] == i + rb);
        assert(!key_between(frames, a, b));
        assert(!key_between(frames, b, a));
        if ra < rb {
            assert(counts[order[ra] as int] <= counts[order[rb] as int]);
        } else if rb < ra {
            assert(counts[order[rb] as int] <= counts[order[ra] as int]);
        }
    } else if a < i {
        assert(order.contains(b as usize));
        let rb = choose|r: int| 0 <= r < order.len() && order[r] == b as usize;
        assert(disp[order[rb] as int] == i + rb);
        assert(disp[a] == before[a]);
        assert(frames[i].is_key());
        assert(key_between(frames, a, b));
    } else {
        assert(order.contains(a as usize));
        let ra = choose|r: int| 0 <= r < order.len() && order[r] == a as usize;
        assert(disp[order[ra] as int] == i + ra);
        assert(disp[b] == before[b]);
        assert(frames[i].is_key());
        assert(key_between(frames, b, a));
    }
}

/// Every place in the order of showing is given to exactly one frame.
pub proof fn law_display_is_permutation(frames: Seq<Frame>, counts: Seq<int>, disp: Seq<usize>)
    requires
        is_display_order(frames, counts, disp),
    ensures
        disp.no_duplicates(),
        forall|i: usize| i < disp.len() ==> #[trigger] disp.contains(i),
{
    assert forall|a: int, b: int| 0 <= a < disp.len() && 0 <= b < disp.len() && a
        != b implies disp[a] != disp[b] by {
        assert(shown_before(frames, counts, a, b) || shown_before(frames, counts, b, a));
    }
    let wide = disp.map_values(|x: usize| x as int);
    assert(wide.no_duplicates());
    wide.unique_seq_to_set();
    lemma_int_range(0, disp.len() as int);
    let all = set_int_range(0, disp.len() as int);
    assert(wide.to_set().subset_of(all));
    lemma_subset_equality(wide.to_set(), all);
    assert forall|i: usize| i < disp.len() implies #[trigger] disp.contains(i) by {
        assert(all.contains(i as int));
        assert(wide.to_set().contains(i as int));
        assert(wide.contains(i as int));
        let k = wide.index_of(i as int);
        assert(disp[k] == i);
    }
}

proof fn lemma_same_place(
    frames: Seq<Frame>,
    counts: Seq<int>,
    disp: Seq<usize>,
    other: Seq<usize>,
    a: int,
)
    requires
        is_display_order(frames, counts, disp),
        is_display_order(frames, counts, other),
        0 <= a < disp.len(),
    ensures
        disp[a] == other[a],
    decreases disp[a],
{
    let v = disp[a];
    law_display_is_permutation(frames, counts, disp);
    law_display_is_permutation(frames, counts, other);
    if other[a] < v {
        assert(disp.contains(other[a]));
        let b = disp.index_of(other[a]);
        lemma_same_place(frames, counts, disp, other, b);
        assert(other[b] == other[a] && a != b);
    } else if other[a] > v {
        assert(other.contains(v));
        let c = other.index_of(v);
        assert(other[c] < other[a]);
        assert(shown_before(frames, counts, c, a));
        assert(disp[c] < disp[a]);
        lemma_same_place(frames, counts, disp, other, c);
    }
}

/// Frames and counts leave one order of showing only.
pub proof fn law_display_is_unique(
    frames: Seq<Frame>,
    counts: Seq<int>,
    disp: Seq<usize>,
    other: Seq<usize>,
)
    requires
        is_display_order(frames, counts, disp),
        is_display_order(frames, counts, other),
    ensures
        disp == other,
{
    assert forall|a: int| 0 <= a < disp.len() implies disp[a] == other[a] by {
        lemma_same_place(frames, counts, disp, other, a);
    }
    assert(disp =~= other);
}

/// What is stored before a key frame is shown before all that is stored from the
/// key frame on.
pub proof fn law_key_frames_separate(
    frames: Seq<Frame>,
    counts: Seq<int>,
    disp: Seq<usize>,
    a: int,
    k: int,
    b: int,
)
    requires
        is_display_order(frames, counts, disp),
        0 <= a < k <= b < frames.len(),
        frames[k].is_key(),
    ensures
        disp[a] < disp[b],
{
    assert(key_between(frames, a, b));
    assert(shown_before(frames, counts, a, b));
}

proof fn lemma_high_part_is_whole(d: Seq<u8>, frames: Seq<Frame>, p: Params, key: bool)
    ensures
        count_before(d, frames, p, key).0 % (pow2(p.log2_poc as nat) as int) == 0,
    decreases frames.len(),
{
    let span = pow2(p.log2_poc as nat) as int;
    lemma_pow2_pos(p.log2_poc as nat);
    vstd::arithmetic::div_mod::lemma_small_mod(0, span as nat);
    if !key && frames.len() > 0 {
        let f = frames.last();
        lemma_high_part_is_whole(d, frames.drop_last(), p, f.is_key());
        let prev = count_before(d, frames.drop_last(), p, f.is_key());
        assert((prev.0 + span) % span == prev.0 % span) by (nonlinear_arith)
            requires
                span > 0,
        ;
        assert((prev.0 - span) % span == prev.0 % span) by (nonlinear_arith)
            requires
                span > 0,
        ;
    }
}

/// An order count ends in the bits that the slice header holds.
pub proof fn law_count_keeps_its_low_bits(d: Seq<u8>, frames: Seq<Frame>, p: Params, i: int)
    requires
        0 <= i < frames.len(),
    ensures
        (order_count(d, frames, p, i) - count_field(d, frames[i], p)->0) % (pow2(
            p.log2_poc as nat,
        ) as int) == 0,
{
    let span = pow2(p.log2_poc as nat) as int;
    lemma_pow2_pos(p.log2_poc as nat);
    let prev = count_before(d, frames.take(i), p, frames[i].is_key());
    lemma_high_part_is_whole(d, frames.take(i), p, frames[i].is_key());
    assert((prev.0 + span) % span == prev.0 % span) by (nonlinear_arith)
        requires
            span > 0,
    ;
    assert((prev.0 - span) % span == prev.0 % span) by (nonlinear_arith)
        requires
            span > 0,
    ;
}

/// The last reference frame before frame `i` is frame `r`. A header byte holds, in
/// its upper bits, whether other frames may refer to the frame.
pub open spec fn is_reference_before(frames: Seq<Frame>, r: int, i: int) -> bool {
    &&& 0 <= r < i <= frames.len()
    &&& frames[r].hdr / 32 != 0
    &&& forall|k: int| r < k < i ==> (#[trigger] frames[k]).hdr / 32 == 0
}

/// There is no reference frame before frame `i`.
pub open spec fn has_no_reference(frames: Seq<Frame>, i: int) -> bool {
    forall|k: int| 0 <= k < i ==> (#[trigger] frames[k]).hdr / 32 == 0
}

/// Key frames are reference frames, as [`crate::frames::scan`] finds them.
pub open spec fn keys_are_references(frames: Seq<Frame>) -> bool {
    forall|k: int|
        0 <= k < frames.len() ==> ((#[trigger] frames[k]).hdr % 32 == 5 ==> frames[k].hdr / 32 != 0)
}

proof fn lemma_fields_are_low(d: Seq<u8>, f: Frame, p: Params)
    ensures
        count_field(d, f, p) matches Some(v) ==> 0 <= v < pow2(p.log2_poc as nat),
{
    reveal(read_u);
    if let Some(b) = behind_slice_ids(bits_of(header_bytes(d, f.pos as int, f.len as int, 24))) {
        let number = read_u(b, p.log2_fn as nat);
        let from = if f.is_key() {
            read_ue(number.1).1
        } else {
            number.1
        };
        let n = p.log2_poc as nat;
        if n <= from.len() {
            let field = from.take(n as int);
            crate::bits::lemma_value_bound(field);
            assert(value(field) % 0x1_0000_0000 <= value(field));
        }
    }
}

proof fn lemma_count_before_is_of_reference(
    d: Seq<u8>,
    frames: Seq<Frame>,
    p: Params,
    r: int,
    i: int,
)
    requires
        counts_readable(d, frames, p),
        keys_are_references(frames),
        is_reference_before(frames, r, i),
    ensures
        ({
            let c = count_before(d, frames.take(i), p, false);
            &&& c.0 + c.1 == order_count(d, frames, p, r)
            &&& 0 <= c.1 < pow2(p.log2_poc as nat)
        }),
    decreases i,
{
    let t = frames.take(i);
    assert(t.drop_last() =~= frames.take(i - 1));
    assert(t.last() == frames[i - 1]);
    assert(count_field(d, frames[i - 1], p) is Some);
    lemma_fields_are_low(d, frames[i - 1], p);
    if r < i - 1 {
        lemma_count_before_is_of_reference(d, frames, p, r, i - 1);
    }
}

proof fn lemma_count_before_is_zero(d: Seq<u8>, frames: Seq<Frame>, p: Params, i: int)
    requires
        0 <= i <= frames.len(),
        keys_are_references(frames),
        has_no_reference(frames, i),
    ensures
        count_before(d, frames.take(i), p, false) == (0int, 0int),
    decreases i,
{
    if i > 0 {
        let t = frames.take(i);
        assert(t.drop_last() =~= frames.take(i - 1));
        assert(t.last() == frames[i - 1]);
        lemma_count_before_is_zero(d, frames, p, i - 1);
    }
}

/// The order count of a frame is, of all numbers that end in the bits of its slice
/// header, the one nearest to the count of the last reference frame: it lies less
/// than half of the range of those bits below it, and at most half above.
pub proof fn law_count_is_nearest(d: Seq<u8>, frames: Seq<Frame>, p: Params, r: int, i: int)
    requires
        counts_readable(d, frames, p),
        keys_are_references(frames),
        0 <= i < frames.len(),
        frames[i].hdr % 32 != 5,
        is_reference_before(frames, r, i),
    ensures
        ({
            let span = pow2(p.log2_poc as nat) as int;
            let step = order_count(d, frames, p, i) - order_count(d, frames, p, r);
            &&& -span < 2 * step <= span
            &&& (order_count(d, frames, p, i) - count_field(d, frames[i], p)->0) % span == 0
        }),
{
    lemma_count_before_is_of_reference(d, frames, p, r, i);
    assert(count_field(d, frames[i], p) is Some);
    lemma_fields_are_low(d, frames[i], p);
    law_count_keeps_its_low_bits(d, frames, p, i);
    lemma2_to64();
    if p.log2_poc > 0 {
        lemma_pow2_unfold(p.log2_poc as nat);
    }
}

/// At a key frame, and where no reference frame comes before, the order count is the
/// one nearest to zero.
pub proof fn law_first_count_is_nearest(d: Seq<u8>, frames: Seq<Frame>, p: Params, i: int)
    requires
        counts_readable(d, frames, p),
        keys_are_references(frames),
        0 <= i < frames.len(),
        frames[i].hdr % 32 == 5 || has_no_reference(frames, i),
    ensures
        ({
            let span = pow2(p.log2_poc as nat) as int;
            &&& -span < 2 * order_count(d, frames, p, i) <= span
            &&& (order_count(d, frames, p, i) - count_field(d, frames[i], p)->0) % span == 0
        }),
{
    assert(count_field(d, frames[i], p) is Some);
    lemma_fields_are_low(d, frames[i], p);
    if frames[i].hdr % 32 != 5 {
        lemma_count_before_is_zero(d, frames, p, i);
    }
    law_count_keeps_its_low_bits(d, frames, p, i);
}

/// `truth` are counts that the low bits in the slice headers leave no doubt about:
/// each ends in those bits, and lies within half of their range of the count of the
/// last reference frame, or of zero at a key frame.
pub open spec fn are_true_counts(
    d: Seq<u8>,
    frames: Seq<Frame>,
    p: Params,
    truth: Seq<int>,
) -> bool {
    let span = pow2(p.log2_poc as nat) as int;
    &&& truth.len() == frames.len()
    &&& forall|i: int|
        0 <= i < frames.len() ==> count_field(d, #[trigger] frames[i], p) == Some(
            (truth[i] % span) as nat,
        )
    &&& forall|i: int|
        0 <= i < frames.len() && ((#[trigger] frames[i]).hdr % 32 == 5 || has_no_reference(
            frames,
            i,
        )) ==> -span < 2 * truth[i] <= span
    &&& forall|r: int, i: int| #[trigger]
        is_reference_before(frames, r, i) && i < frames.len() && frames[i].hdr % 32 != 5 ==> -span
            < 2 * (truth[i] - truth[r]) <= span
}

proof fn lemma_near_and_congruent(a: int, b: int, base: int, span: int)
    requires
        span > 0,
        (a - b) % span == 0,
        -span < 2 * (a - base) <= span,
        -span < 2 * (b - base) <= span,
    ensures
        a == b,
{
    let k = (a - b) / span;
    assert(a - b == k * span) by (nonlinear_arith)
        requires
            span > 0,
            (a - b) % span == 0,
            k == (a - b) / span,
    ;
    assert(k == 0) by (nonlinear_arith)
        requires
            span > 0,
            a - b == k * span,
            -span < a - b < span,
    ;
}

proof fn lemma_congruent(c: int, t: int, span: int)
    requires
        span > 0,
        (c - t % span) % span == 0,
    ensures
        (c - t) % span == 0,
{
    let k = (c - t % span) / span;
    let m = t / span;
    lemma_fundamental_div_mod(c - t % span, span);
    lemma_fundamental_div_mod(t, span);
    assert(c - t == (k - m) * span) by (nonlinear_arith)
        requires
            c - t % span == span * k,
            t == span * m + t % span,
    ;
    lemma_mod_multiples_basic(k - m, span);
}

proof fn lemma_true_count(d: Seq<u8>, frames: Seq<Frame>, p: Params, truth: Seq<int>, i: int)
    requires
        keys_are_references(frames),
        are_true_counts(d, frames, p, truth),
        0 <= i < frames.len(),
    ensures
        order_count(d, frames, p, i) == truth[i],
    decreases i,
{
    let span = pow2(p.log2_poc as nat) as int;
    lemma_pow2_pos(p.log2_poc as nat);
    let c = order_count(d, frames, p, i);
    assert(counts_readable(d, frames, p)) by {
        assert forall|k: int| 0 <= k < frames.len() implies count_field(
            d,
            #[trigger] frames[k],
            p,
        ) is Some by {}
    }
    assert(count_field(d, frames[i], p) == Some((truth[i] % span) as nat));
    law_count_keeps_its_low_bits(d, frames, p, i);
    lemma_congruent(c, truth[i], span);
    if frames[i].hdr % 32 == 5 || has_no_reference(frames, i) {
        law_first_count_is_nearest(d, frames, p, i);
        lemma_near_and_congruent(c, truth[i], 0, span);
    } else {
        let r = lemma_last_reference_exists(frames, i);
        law_count_is_nearest(d, frames, p, r, i);
        lemma_true_count(d, frames, p, truth, r);
        lemma_near_and_congruent(c, truth[i], truth[r], span);
    }
}

proof fn lemma_last_reference_exists(frames: Seq<Frame>, i: int) -> (r: int)
    requires
        0 <= i <= frames.len(),
        !has_no_reference(frames, i),
    ensures
        is_reference_before(frames, r, i),
    decreases i,
{
    let k = choose|k: int| 0 <= k < i && (#[trigger] frames[k]).hdr / 32 != 0;
    if frames[i - 1].hdr / 32 != 0 {
        i - 1
    } else {
        assert(!has_no_reference(frames, i - 1)) by {
            assert(frames[k].hdr / 32 != 0);
        }
        lemma_last_reference_exists(frames, i - 1)
    }
}

/// Counts that differ from the last reference frame's by less than half of the range
/// of their low bits are read as they are.
pub proof fn law_true_counts_are_read(d: Seq<u8>, frames: Seq<Frame>, p: Params, truth: Seq<int>)
    requires
        keys_are_references(frames),
        are_true_counts(d, frames, p, truth),
    ensures
        order_counts(d, frames, p) == truth,
{
    assert forall|i: int| 0 <= i < frames.len() implies order_counts(d, frames, p)[i]
        == truth[i] by {
        lemma_true_count(d, frames, p, truth, i);
    }
    assert(order_counts(d, frames, p) =~= truth);
}

/// Frames are shown by their true counts: of two frames with no key frame behind the
/// one and up to the other, the one with the smaller count comes first; of equal
/// counts, the one that is stored first. A key frame is shown behind all that is
/// stored before it.
pub proof fn law_frames_are_shown_by_true_counts(
    d: Seq<u8>,
    frames: Seq<Frame>,
    p: Params,
    truth: Seq<int>,
    a: int,
    b: int,
)
    requires
        frames.len() <= usize::MAX,
        p.poc_type == 0,
        keys_are_references(frames),
        are_true_counts(d, frames, p, truth),
        0 <= a < b < frames.len(),
    ensures
        ({
            let disp = shown_order(d, frames, p);
            let keyed = exists|k: int| a < k <= b && (#[trigger] frames[k]).hdr % 32 == 5;
            disp[a] < disp[b] <==> keyed || truth[a] <= truth[b]
        }),
{
    law_true_counts_are_read(d, frames, p, truth);
    law_shown_order(d, frames, p);
    assert(shown_before(frames, truth, a, b) <==> shown_order(d, frames, p)[a] < shown_order(
        d,
        frames,
        p,
    )[b]);
    let keyed = exists|k: int| a < k <= b && (#[trigger] frames[k]).hdr % 32 == 5;
    if keyed {
        let k = choose|k: int| a < k <= b && (#[trigger] frames[k]).hdr % 32 == 5;
        assert(frames[k].is_key());
    }
    if key_between(frames, a, b) {
        let k = choose|k: int| a < k <= b && (#[trigger] frames[k]).is_key();
        assert(frames[k].hdr % 32 == 5);
    }
}

/// The low bits of the order count of a frame are read behind its number, and at a key
/// frame behind one more code, in the first 24 bytes behind the header byte of its unit,
/// as far as it reaches.
pub proof fn law_count_follows_the_number(
    d: Seq<u8>,
    f: Frame,
    p: Params,
    ids: (nat, nat, nat, nat),
    number: nat,
    low: nat,
    rest: Seq<bool>,
)
    requires
        1 <= f.len,
        p.log2_fn <= 32,
        p.log2_poc <= 32,
        number < pow2(p.log2_fn as nat),
        low < pow2(p.log2_poc as nat),
        ids.0 < u32::MAX && ids.1 < u32::MAX && ids.2 < u32::MAX && ids.3 < u32::MAX,
        ({
            let to = if f.len < 25 {
                f.pos + 4 + f.len
            } else {
                f.pos + 29
            };
            let count = u_bits(p.log2_poc as nat, low) + rest;
            let behind = if f.hdr % 32 == 5 {
                ue_bits(ids.3) + count
            } else {
                count
            };
            bits_of(unescaped(d.subrange(f.pos + 5, to), 0)) == ue_bits(ids.0) + (ue_bits(ids.1) + (
            ue_bits(ids.2) + (u_bits(p.log2_fn as nat, number) + behind)))
        }),
    ensures
        count_field(d, f, p) == Some(low),
{
    let count = u_bits(p.log2_poc as nat, low) + rest;
    let behind = if f.hdr % 32 == 5 {
        ue_bits(ids.3) + count
    } else {
        count
    };
    let all = u_bits(p.log2_fn as nat, number) + behind;
    law_exp_golomb_read_back(ids.0, ue_bits(ids.1) + (ue_bits(ids.2) + all));
    law_exp_golomb_read_back(ids.1, ue_bits(ids.2) + all);
    law_exp_golomb_read_back(ids.2, all);
    law_field_read_back(p.log2_fn as nat, number, behind);
    law_exp_golomb_read_back(ids.3, count);
    law_field_read_back(p.log2_poc as nat, low, rest);
}

} // verus!
