//! Telling video frames from audio in the media data.
//!
//! A frame is one NAL unit behind a four-byte length. What counts as one is
//! decided by its length, its header byte and the start of its slice header; on
//! top of that its frame number has to be the one that is due.

use crate::bits::{
    bit_len, bits_of, law_exp_golomb_read_back, law_field_read_back, law_what_is_read_is_a_code,
    law_what_is_read_is_a_field, lemma_assoc, read_u, read_ue, u_bits, ue_bits, Bits,
};
use crate::bytes::{be32_at, be32_bytes, put, read_be32};
use crate::mdat::{min_int, MAX_NAL};
use crate::nal::{lemma_unescaped_len, unescape, unescaped};
use vstd::arithmetic::power2::{lemma2_to64, lemma_pow2_strictly_increases, pow2};
use vstd::bits::lemma_u32_shl_is_mul;
use vstd::prelude::*;
use vstd::slice::slice_subrange;

verus! {

/// A video frame in the media data.
#[derive(Clone, Copy, Debug, PartialEq, Eq, Structural)]
pub struct Frame {
    /// Where the four bytes of its length stand.
    pub pos: usize,
    /// The length of its NAL unit.
    pub len: usize,
    /// The header byte of its NAL unit.
    pub hdr: u8,
}

impl Frame {
    /// Decoding can start at this frame.
    pub open spec fn is_key(&self) -> bool {
        self.hdr % 32 == 5
    }

    /// Other frames may refer to this one.
    pub open spec fn is_reference(&self) -> bool {
        self.hdr / 32 != 0
    }

    /// Where what follows the frame starts.
    pub open spec fn end(&self) -> int {
        self.pos + 4 + self.len
    }

    /// The frame lies within `d` and has a header byte.
    pub open spec fn lies_in(&self, d: Seq<u8>) -> bool {
        self.len >= 1 && self.end() <= d.len()
    }
}

/// A slice header starts with macroblock 0, one of the slice types that x264
/// writes, and parameter set 0.
pub open spec fn header_is_x264(b: Seq<bool>, key: bool) -> bool {
    let kind = read_ue(b.skip(1));
    &&& b.len() > 0
    &&& b[0]
    &&& kind.0 matches Some(t) && 5 <= t <= 7 && (key ==> t == 7)
    &&& read_ue(kind.1).0 == Some(0nat)
}

/// The length of the x264 slice whose own length stands at `q`, if there is one
/// that ends before `end`.
pub open spec fn slice_at(d: Seq<u8>, q: int, end: int) -> Option<int> {
    let len = be32_at(d, q);
    let h = d[q + 4];
    let key = h % 32 == 5;
    if q + 8 <= end && d[q] == 0 && 3 <= len <= MAX_NAL && q + 4 + len <= end && h < 128 && (h % 32
        == 1 || key) && (key ==> h / 32 != 0) && header_is_x264(
        bits_of(d.subrange(q + 5, q + 8)),
        key,
    ) {
        Some(len)
    } else {
        None
    }
}

/// The length of the x264 slice whose own length stands at `q`, if there is one
/// that ends before `end`.
pub fn video_at(d: &[u8], q: usize, end: usize) -> (r: Option<usize>)
    requires
        q + 8 <= end ==> q + 8 <= d@.len(),
    ensures
        r is Some <==> slice_at(d@, q as int, end as int) is Some,
        r matches Some(len) ==> slice_at(d@, q as int, end as int) == Some(len as int) && 3 <= len
            && q + 8 <= end && q + 4 + len <= end,
{
    if q > end || end - q < 8 {
        return None;
    }
    let n: usize = d.len();
    assert(q + 8 <= n);
    if d[q] != 0 {
        return None;
    }
    let len: usize = read_be32(d, q) as usize;
    if len < 3 || len > MAX_NAL || len > end - q - 4 {
        return None;
    }
    let h: u8 = d[q + 4];
    let t: u8 = h % 32;
    if h >= 128 || !(t == 1 || t == 5) || (t == 5 && h / 32 == 0) {
        return None;
    }
    let head: &[u8] = slice_subrange(d, q + 5, q + 8);
    let mut r = Bits::new(head);
    proof {
        crate::bits::lemma_bits_of_len(head@);
    }
    match r.bit() {
        Some(1) => {},
        _ => {
            return None;
        },
    }
    let st: u32 = match r.ue() {
        Some(v) => v,
        None => {
            return None;
        },
    };
    if st < 5 || st > 7 || (t == 5 && st != 7) {
        return None;
    }
    match r.ue() {
        Some(0) => Some(len),
        _ => None,
    }
}

/// Whatever slice an x264 writes is found with its length, and nothing else is: a
/// length of 3 to 2^24 - 1 in four bytes, a header byte of a slice, and a slice
/// header that starts with the codes of 0, of the slice type and of 0. A key frame
/// is a reference and holds I-slices only.
pub proof fn law_written_slice_is_found(
    d: Seq<u8>,
    q: int,
    end: int,
    len: u32,
    kind: nat,
    rest: Seq<bool>,
)
    requires
        0 <= q,
        q + 8 <= end <= d.len(),
        q + 4 + len <= end,
        3 <= len <= 0xff_ffff,
        d.subrange(q, q + 4) == be32_bytes(len),
        d[q + 4] < 128,
        d[q + 4] % 32 == 1 || d[q + 4] % 32 == 5,
        5 <= kind <= 7,
        d[q + 4] % 32 == 5 ==> d[q + 4] / 32 > 0 && kind == 7,
        bits_of(d.subrange(q + 5, q + 8)) == ue_bits(0) + ue_bits(kind) + ue_bits(0) + rest,
    ensures
        slice_at(d, q, end) == Some(len as int),
{
    let b = bits_of(d.subrange(q + 5, q + 8));
    let four = d.subrange(q, q + 4);
    assert(four[0] == d[q] && four[1] == d[q + 1] && four[2] == d[q + 2] && four[3] == d[q + 3]);
    assert(be32_at(d, q) == len);
    lemma_one_is_zero();
    lemma_assoc(ue_bits(0) + ue_bits(kind), ue_bits(0), rest);
    lemma_assoc(ue_bits(0), ue_bits(kind), ue_bits(0) + rest);
    assert(b == seq![true] + (ue_bits(kind) + (ue_bits(0) + rest)));
    assert(b.skip(1) =~= ue_bits(kind) + (ue_bits(0) + rest));
    law_exp_golomb_read_back(kind, ue_bits(0) + rest);
    law_exp_golomb_read_back(0, rest);
}

proof fn lemma_one_is_zero()
    ensures
        ue_bits(0) == seq![true],
{
    reveal(ue_bits);
    reveal_with_fuel(bit_len, 2);
    reveal_with_fuel(u_bits, 2);
    assert(ue_bits(0) =~= seq![true]);
}

/// What is found as a slice was written as one: see
/// [`law_written_slice_is_found`].
pub proof fn law_found_slice_was_written(d: Seq<u8>, q: int, end: int)
    requires
        0 <= q,
        end <= d.len(),
        slice_at(d, q, end) is Some,
    ensures
        ({
            let len = slice_at(d, q, end)->0;
            &&& 3 <= len <= 0xff_ffff
            &&& q + 8 <= end
            &&& q + 4 + len <= end
            &&& d.subrange(q, q + 4) == be32_bytes(len as u32)
            &&& d[q + 4] < 128
            &&& d[q + 4] % 32 == 1 || d[q + 4] % 32 == 5
            &&& d[q + 4] % 32 == 5 ==> d[q + 4] / 32 > 0
            &&& exists|kind: nat, rest: Seq<bool>|
                5 <= kind <= 7 && (d[q + 4] % 32 == 5 ==> kind == 7) && bits_of(
                    d.subrange(q + 5, q + 8),
                ) == #[trigger] (ue_bits(0) + ue_bits(kind) + ue_bits(0) + rest)
        }),
{
    let b = bits_of(d.subrange(q + 5, q + 8));
    let kind = read_ue(b.skip(1)).0->0;
    let behind = read_ue(b.skip(1)).1;
    let rest = read_ue(behind).1;
    law_what_is_read_is_a_code(b.skip(1));
    law_what_is_read_is_a_code(behind);
    lemma_one_is_zero();
    assert(b =~= seq![true] + b.skip(1));
    lemma_assoc(ue_bits(0) + ue_bits(kind), ue_bits(0), rest);
    lemma_assoc(ue_bits(0), ue_bits(kind), ue_bits(0) + rest);
    assert(b == ue_bits(0) + ue_bits(kind) + ue_bits(0) + rest);
    lemma_bytes_of_number(d, q);
}

proof fn lemma_bytes_of_number(d: Seq<u8>, q: int)
    requires
        0 <= q,
        q + 4 <= d.len(),
    ensures
        d.subrange(q, q + 4) == be32_bytes(be32_at(d, q) as u32),
{
    assert(d.subrange(q, q + 4) =~= be32_bytes(be32_at(d, q) as u32));
}

/// The start of a slice header, up to `most` bytes of it, lies within `d`.
pub open spec fn header_lies_in(d: Seq<u8>, q: int, len: int, most: int) -> bool {
    len >= 1 && min_int(q + 5 + most, q + 4 + len) <= d.len()
}

/// The raw bytes at the start of a slice header, at most `most` of them.
pub open spec fn header_bytes(d: Seq<u8>, q: int, len: int, most: int) -> Seq<u8> {
    unescaped(d.subrange(q + 5, min_int(q + 5 + most, q + 4 + len)), 0)
}

/// What follows the first three numbers of a slice header, where they can be
/// read.
pub open spec fn behind_slice_ids(b: Seq<bool>) -> Option<Seq<bool>> {
    let mb = read_ue(b);
    let kind = read_ue(mb.1);
    let pps = read_ue(kind.1);
    if mb.0 is Some && kind.0 is Some && pps.0 is Some {
        Some(pps.1)
    } else {
        None
    }
}

/// The frame number in the slice header of the NAL unit whose length stands at
/// `q`.
pub open spec fn number_at(d: Seq<u8>, q: int, len: int, log2_fn: nat) -> Option<nat> {
    match behind_slice_ids(bits_of(header_bytes(d, q, len, 12))) {
        Some(b) => read_u(b, log2_fn).0,
        None => None,
    }
}

/// Reads past first macroblock, slice type and parameter set.
pub fn skip_slice_ids(r: &mut Bits) -> (ok: bool)
    requires
        old(r).wf(),
    ensures
        final(r).wf(),
        final(r).d == old(r).d,
        ok == (behind_slice_ids(old(r)@) is Some),
        ok ==> behind_slice_ids(old(r)@) == Some(final(r)@),
{
    r.ue().is_some() && r.ue().is_some() && r.ue().is_some()
}

/// The frame number in the slice header of the NAL unit whose length stands at
/// `q`.
pub fn frame_num(d: &[u8], q: usize, len: usize, log2_fn: u32) -> (r: Option<u32>)
    requires
        header_lies_in(d@, q as int, len as int, 12),
    ensures
        r is Some <==> number_at(d@, q as int, len as int, log2_fn as nat) is Some,
        r matches Some(v) ==> number_at(d@, q as int, len as int, log2_fn as nat) == Some(v as nat),
{
    let n: usize = d.len();
    assert(min_int(q + 5 + 12, q + 4 + len) <= n);
    let stop: usize = if len - 1 > 12 {
        q + 5 + 12
    } else {
        q + 4 + len
    };
    let raw: Vec<u8> = unescape(slice_subrange(d, q + 5, stop));
    proof {
        lemma_unescaped_len(d@.subrange(q + 5, stop as int), 0);
    }
    let mut r = Bits::new(raw.as_slice());
    if !skip_slice_ids(&mut r) {
        return None;
    }
    r.u(log2_fn)
}

/// The number that is due: 0 at a key frame, else the one after the last
/// reference frame's.
pub open spec fn due_number(key: bool, last_ref: nat, log2_fn: nat) -> nat {
    if key {
        0
    } else {
        (last_ref + 1) % pow2(log2_fn)
    }
}

/// The length and the frame number of the frame at `q`: a slice whose number is
/// the one that is due.
pub open spec fn frame_at(d: Seq<u8>, q: int, end: int, log2_fn: nat, last_ref: nat) -> Option<
    (int, nat),
> {
    match slice_at(d, q, end) {
        None => None,
        Some(len) => if number_at(d, q, len, log2_fn) == Some(
            due_number(d[q + 4] % 32 == 5, last_ref, log2_fn),
        ) {
            Some((len, due_number(d[q + 4] % 32 == 5, last_ref, log2_fn)))
        } else {
            None
        },
    }
}

/// The length and the frame number of the frame at `q`, if there is one.
fn candidate(d: &[u8], q: usize, end: usize, log2_fn: u32, last_ref: u32) -> (r: Option<
    (usize, u32),
>)
    requires
        end <= d@.len(),
        log2_fn <= 31,
        (last_ref as nat) < pow2(log2_fn as nat),
    ensures
        r is Some <==> frame_at(d@, q as int, end as int, log2_fn as nat, last_ref as nat) is Some,
        r matches Some((len, fnum)) ==> {
            &&& frame_at(d@, q as int, end as int, log2_fn as nat, last_ref as nat) == Some(
                (len as int, fnum as nat),
            )
            &&& 3 <= len
            &&& q + 8 <= end
            &&& q + 4 + len <= end
            &&& (fnum as nat) < pow2(log2_fn as nat)
        },
{
    let len: usize = match video_at(d, q, end) {
        Some(len) => len,
        None => {
            return None;
        },
    };
    let fnum: u32 = match frame_num(d, q, len, log2_fn) {
        Some(v) => v,
        None => {
            return None;
        },
    };
    proof {
        lemma2_to64();
        if log2_fn < 31 {
            lemma_pow2_strictly_increases(log2_fn as nat, 31);
        }
        lemma_u32_shl_is_mul(1, log2_fn);
        vstd::arithmetic::power2::lemma_pow2_pos(log2_fn as nat);
    }
    let modulo: u32 = 1u32 << log2_fn;
    let expected: u32 = if d[q + 4] % 32 == 5 {
        0
    } else {
        (last_ref + 1) % modulo
    };
    if fnum == expected {
        Some((len, fnum))
    } else {
        None
    }
}

/// The first position from `q` on at which a frame starts, or `end`.
pub open spec fn next_frame(d: Seq<u8>, q: int, end: int, log2_fn: nat, last_ref: nat) -> int
    decreases end - q,
{
    if q >= end || frame_at(d, q, end, log2_fn, last_ref) is Some {
        q
    } else {
        next_frame(d, q + 1, end, log2_fn, last_ref)
    }
}

/// The number that the frames behind `f` count on from.
pub open spec fn ref_after(f: Frame, number: nat, last_ref: nat) -> nat {
    if f.is_reference() {
        number
    } else {
        last_ref
    }
}

/// The frame at `q`.
pub open spec fn frame_of(d: Seq<u8>, q: int, len: int) -> Frame {
    Frame { pos: q as usize, len: len as usize, hdr: d[q + 4] }
}

/// What the media data from `q` to `end` splits into: frames, at most `limit` of
/// them, and the gaps between them as pairs of position and length.
pub open spec fn split_from(
    d: Seq<u8>,
    q: int,
    end: int,
    log2_fn: nat,
    last_ref: nat,
    limit: nat,
) -> (Seq<Frame>, Seq<(usize, usize)>)
    decreases end - q,
{
    if q >= end || limit == 0 {
        (Seq::empty(), Seq::empty())
    } else {
        match frame_at(d, q, end, log2_fn, last_ref) {
            Some((len, number)) => {
                let f = frame_of(d, q, len);
                if len < 0 || q + 4 + len > end {
                    (Seq::empty(), Seq::empty())
                } else {
                    let rest = split_from(
                        d,
                        q + 4 + len,
                        end,
                        log2_fn,
                        ref_after(f, number, last_ref),
                        (limit - 1) as nat,
                    );
                    (seq![f] + rest.0, rest.1)
                }
            },
            None => {
                let e = next_frame(d, q + 1, end, log2_fn, last_ref);
                if e <= q || e > end {
                    (Seq::empty(), Seq::empty())
                } else {
                    let rest = split_from(d, e, end, log2_fn, last_ref, limit);
                    (rest.0, seq![(q as usize, (e - q) as usize)] + rest.1)
                }
            },
        }
    }
}

proof fn lemma_next_frame(d: Seq<u8>, q: int, e: int, end: int, log2_fn: nat, last_ref: nat)
    requires
        q <= e <= end,
        forall|i: int| q <= i < e ==> (#[trigger] frame_at(d, i, end, log2_fn, last_ref)) is None,
        e == end || frame_at(d, e, end, log2_fn, last_ref) is Some,
    ensures
        next_frame(d, q, end, log2_fn, last_ref) == e,
    decreases e - q,
{
    if q < e {
        lemma_next_frame(d, q + 1, e, end, log2_fn, last_ref);
    }
}

/// Splits the media data from `start` to `end` into video frames, at most `limit`
/// of them, and the gaps between them, in which the audio lies.
pub fn scan(d: &[u8], start: usize, end: usize, log2_fn: u32, limit: usize) -> (r: (
    Vec<Frame>,
    Vec<(usize, usize)>,
))
    requires
        end <= d@.len(),
        log2_fn <= 31,
    ensures
        (r.0@, r.1@) == split_from(
            d@,
            start as int,
            end as int,
            log2_fn as nat,
            0,
            limit as nat,
        ),
{
    let mut frames: Vec<Frame> = Vec::new();
    let mut gaps: Vec<(usize, usize)> = Vec::new();
    let mut last_ref: u32 = 0;
    let mut q: usize = start;
    let n: usize = d.len();
    let ghost whole = split_from(d@, start as int, end as int, log2_fn as nat, 0, limit as nat);
    proof {
        vstd::arithmetic::power2::lemma_pow2_pos(log2_fn as nat);
        assert(frames@ + whole.0 =~= whole.0);
        assert(gaps@ + whole.1 =~= whole.1);
    }
    while q < end && frames.len() < limit
        invariant
            start <= q,
            q <= end || q == start,
            end <= n == d@.len(),
            log2_fn <= 31,
            frames@.len() <= limit,
            (last_ref as nat) < pow2(log2_fn as nat),
            ({
                let rest = split_from(
                    d@,
                    q as int,
                    end as int,
                    log2_fn as nat,
                    last_ref as nat,
                    (limit - frames@.len()) as nat,
                );
                whole == (frames@ + rest.0, gaps@ + rest.1)
            }),
        decreases end - q,
    {
        let ghost rest = split_from(
            d@,
            q as int,
            end as int,
            log2_fn as nat,
            last_ref as nat,
            (limit - frames@.len()) as nat,
        );
        match candidate(d, q, end, log2_fn, last_ref) {
            Some((len, fnum)) => {
                let ghost before = frames@;
                let f = Frame { pos: q, len, hdr: d[q + 4] };
                if f.hdr / 32 != 0 {
                    last_ref = fnum;
                }
                frames.push(f);
                q = q + 4 + len;
                proof {
                    let tail = split_from(
                        d@,
                        q as int,
                        end as int,
                        log2_fn as nat,
                        last_ref as nat,
                        (limit - frames@.len()) as nat,
                    );
                    assert(rest.0 == seq![f] + tail.0 && rest.1 == tail.1);
                    assert(before + (seq![f] + tail.0) =~= frames@ + tail.0);
                }
            },
            None => {
                let s: usize = q;
                let ghost before = gaps@;
                q = q + 1;
                let mut found = false;
                while q < end && !found
                    invariant
                        s < q <= end <= n == d@.len(),
                        log2_fn <= 31,
                        (last_ref as nat) < pow2(log2_fn as nat),
                        forall|i: int|
                            s < i < q ==> (#[trigger] frame_at(
                                d@,
                                i,
                                end as int,
                                log2_fn as nat,
                                last_ref as nat,
                            )) is None,
                        found ==> q < end && frame_at(
                            d@,
                            q as int,
                            end as int,
                            log2_fn as nat,
                            last_ref as nat,
                        ) is Some,
                    decreases end - q, if found { 0int } else { 1 },
                {
                    if candidate(d, q, end, log2_fn, last_ref).is_some() {
                        found = true;
                    } else {
                        q = q + 1;
                    }
                }
                gaps.push((s, q - s));
                proof {
                    lemma_next_frame(
                        d@,
                        s + 1,
                        q as int,
                        end as int,
                        log2_fn as nat,
                        last_ref as nat,
                    );
                    let tail = split_from(
                        d@,
                        q as int,
                        end as int,
                        log2_fn as nat,
                        last_ref as nat,
                        (limit - frames@.len()) as nat,
                    );
                    let g = (s, (q - s) as usize);
                    assert(rest.0 == tail.0 && rest.1 == seq![g] + tail.1);
                    assert(before + (seq![g] + tail.1) =~= gaps@ + tail.1);
                }
            },
        }
    }
    proof {
        assert(whole.0 =~= frames@);
        assert(whole.1 =~= gaps@);
    }
    (frames, gaps)
}

/// Byte `i` belongs to one of `frames`.
pub open spec fn in_frame(frames: Seq<Frame>, i: int) -> bool {
    exists|k: int| 0 <= k < frames.len() && (#[trigger] frames[k]).pos <= i < frames[k].end()
}

/// Byte `i` belongs to one of `gaps`.
pub open spec fn in_gap(gaps: Seq<(usize, usize)>, i: int) -> bool {
    exists|k: int| 0 <= k < gaps.len() && (#[trigger] gaps[k]).0 <= i < gaps[k].0 + gaps[k].1
}

/// The frames follow one another from `from` on, and no two overlap.
pub open spec fn frames_in_order(frames: Seq<Frame>, from: int, to: int) -> bool {
    &&& forall|k: int|
        0 <= k < frames.len() ==> from <= (#[trigger] frames[k]).pos && frames[k].end() <= to
    &&& forall|j: int, k: int|
        0 <= j < k < frames.len() ==> (#[trigger] frames[j]).end() <= (#[trigger] frames[k]).pos
}

/// The gaps follow one another from `from` on, none is empty and no two overlap.
pub open spec fn gaps_in_order(gaps: Seq<(usize, usize)>, from: int, to: int) -> bool {
    &&& forall|k: int|
        0 <= k < gaps.len() ==> from <= (#[trigger] gaps[k]).0 && gaps[k].1 > 0 && gaps[k].0
            + gaps[k].1 <= to
    &&& forall|j: int, k: int|
        0 <= j < k < gaps.len() ==> (#[trigger] gaps[j]).0 + gaps[j].1 <= (#[trigger] gaps[k]).0
}

proof fn lemma_next_frame_bounds(d: Seq<u8>, q: int, end: int, log2_fn: nat, last_ref: nat)
    requires
        q <= end,
    ensures
        q <= next_frame(d, q, end, log2_fn, last_ref) <= end,
    decreases end - q,
{
    if q < end && frame_at(d, q, end, log2_fn, last_ref) is None {
        lemma_next_frame_bounds(d, q + 1, end, log2_fn, last_ref);
    }
}

proof fn lemma_in_frame_push_front(f: Frame, frames: Seq<Frame>, i: int)
    ensures
        in_frame(seq![f] + frames, i) <==> f.pos <= i < f.end() || in_frame(frames, i),
{
    let all = seq![f] + frames;
    if in_frame(all, i) {
        let k = choose|k: int| 0 <= k < all.len() && (#[trigger] all[k]).pos <= i < all[k].end();
        if k > 0 {
            assert(frames[k - 1] == all[k]);
        }
    }
    if f.pos <= i < f.end() {
        assert(all[0] == f);
    }
    if in_frame(frames, i) {
        let k = choose|k: int|
            0 <= k < frames.len() && (#[trigger] frames[k]).pos <= i < frames[k].end();
        assert(all[k + 1] == frames[k]);
    }
}

/// A byte belongs to gaps with one more in front if it belongs to that one or to
/// the others.
pub proof fn lemma_in_gap_push_front(g: (usize, usize), gaps: Seq<(usize, usize)>, i: int)
    ensures
        in_gap(seq![g] + gaps, i) <==> g.0 <= i < g.0 + g.1 || in_gap(gaps, i),
{
    let all = seq![g] + gaps;
    if in_gap(all, i) {
        let k = choose|k: int|
            0 <= k < all.len() && (#[trigger] all[k]).0 <= i < all[k].0 + all[k].1;
        if k > 0 {
            assert(gaps[k - 1] == all[k]);
        }
    }
    if g.0 <= i < g.0 + g.1 {
        assert(all[0] == g);
    }
    if in_gap(gaps, i) {
        let k = choose|k: int|
            0 <= k < gaps.len() && (#[trigger] gaps[k]).0 <= i < gaps[k].0 + gaps[k].1;
        assert(all[k + 1] == gaps[k]);
    }
}

/// Splitting keeps every byte: unless the limit stopped it, each byte from `q` to
/// `end` belongs to exactly one frame or gap, and no frame or gap reaches outside.
/// Frames stand in the order of the file, and so do gaps. There are no more frames
/// than the limit.
pub proof fn law_split_partitions(
    d: Seq<u8>,
    q: int,
    end: int,
    log2_fn: nat,
    last_ref: nat,
    limit: nat,
)
    requires
        0 <= q <= end <= d.len() <= usize::MAX,
    ensures
        ({
            let s = split_from(d, q, end, log2_fn, last_ref, limit);
            &&& s.0.len() <= limit
            &&& frames_in_order(s.0, q, end)
            &&& gaps_in_order(s.1, q, end)
            &&& forall|i: int| !(in_frame(s.0, i) && in_gap(s.1, i))
            &&& s.0.len() < limit ==> forall|i: int|
                q <= i < end ==> in_frame(s.0, i) || in_gap(s.1, i)
        }),
    decreases end - q,
{
    let s = split_from(d, q, end, log2_fn, last_ref, limit);
    if q < end && limit > 0 {
        match frame_at(d, q, end, log2_fn, last_ref) {
            Some((len, number)) => {
                let f = frame_of(d, q, len);
                let last = ref_after(f, number, last_ref);
                let rest = split_from(d, q + 4 + len, end, log2_fn, last, (limit - 1) as nat);
                law_split_partitions(d, q + 4 + len, end, log2_fn, last, (limit - 1) as nat);
                assert(f.end() == q + 4 + len);
                assert forall|k: int| 0 < k < s.0.len() implies s.0[k] == rest.0[k - 1] by {}
                assert forall|i: int| !(in_frame(s.0, i) && in_gap(s.1, i)) by {
                    lemma_in_frame_push_front(f, rest.0, i);
                }
                if s.0.len() < limit {
                    assert forall|i: int| q <= i < end implies in_frame(s.0, i) || in_gap(
                        s.1,
                        i,
                    ) by {
                        lemma_in_frame_push_front(f, rest.0, i);
                    }
                }
            },
            None => {
                let e = next_frame(d, q + 1, end, log2_fn, last_ref);
                lemma_next_frame_bounds(d, q + 1, end, log2_fn, last_ref);
                let g = (q as usize, (e - q) as usize);
                let rest = split_from(d, e, end, log2_fn, last_ref, limit);
                law_split_partitions(d, e, end, log2_fn, last_ref, limit);
                assert forall|k: int| 0 < k < s.1.len() implies s.1[k] == rest.1[k - 1] by {}
                assert forall|i: int| !(in_frame(s.0, i) && in_gap(s.1, i)) by {
                    lemma_in_gap_push_front(g, rest.1, i);
                }
                if s.0.len() < limit {
                    assert forall|i: int| q <= i < end implies in_frame(s.0, i) || in_gap(
                        s.1,
                        i,
                    ) by {
                        lemma_in_gap_push_front(g, rest.1, i);
                    }
                }
            },
        }
    }
}

/// The number of the last reference frame among `frames`, or `last_ref` where
/// there is none.
pub open spec fn last_reference(frames: Seq<Frame>, log2_fn: nat, last_ref: nat) -> nat
    decreases frames.len(),
{
    if frames.len() == 0 {
        last_ref
    } else {
        let f = frames.last();
        let before = last_reference(frames.drop_last(), log2_fn, last_ref);
        ref_after(f, due_number(f.is_key(), before, log2_fn), before)
    }
}

proof fn lemma_last_reference_push_front(
    f: Frame,
    frames: Seq<Frame>,
    log2_fn: nat,
    last_ref: nat,
)
    ensures
        last_reference(seq![f] + frames, log2_fn, last_ref) == last_reference(
            frames,
            log2_fn,
            ref_after(f, due_number(f.is_key(), last_ref, log2_fn), last_ref),
        ),
    decreases frames.len(),
{
    let all = seq![f] + frames;
    if frames.len() == 0 {
        assert(all.drop_last() =~= Seq::<Frame>::empty());
        assert(all.last() == f);
        assert(last_reference(all.drop_last(), log2_fn, last_ref) == last_ref);
    } else {
        assert(all.drop_last() =~= seq![f] + frames.drop_last());
        lemma_last_reference_push_front(f, frames.drop_last(), log2_fn, last_ref);
    }
}

/// Every frame that is split off is a slice of its own length, and its slice
/// header holds the number that is due after the frames before it.
pub proof fn law_frames_are_due(
    d: Seq<u8>,
    q: int,
    end: int,
    log2_fn: nat,
    last_ref: nat,
    limit: nat,
    k: int,
)
    requires
        0 <= q <= end <= d.len() <= usize::MAX,
        0 <= k < split_from(d, q, end, log2_fn, last_ref, limit).0.len(),
    ensures
        ({
            let frames = split_from(d, q, end, log2_fn, last_ref, limit).0;
            let f = frames[k];
            &&& slice_at(d, f.pos as int, end) == Some(f.len as int)
            &&& f.hdr == d[f.pos + 4]
            &&& f.lies_in(d)
            &&& number_at(d, f.pos as int, f.len as int, log2_fn) == Some(
                due_number(
                    f.is_key(),
                    last_reference(frames.take(k), log2_fn, last_ref),
                    log2_fn,
                ),
            )
        }),
    decreases end - q,
{
    let s = split_from(d, q, end, log2_fn, last_ref, limit);
    match frame_at(d, q, end, log2_fn, last_ref) {
        Some((len, number)) => {
            let f = frame_of(d, q, len);
            let last = ref_after(f, number, last_ref);
            let rest = split_from(d, q + 4 + len, end, log2_fn, last, (limit - 1) as nat);
            if k == 0 {
                assert(s.0.take(0) =~= Seq::<Frame>::empty());
            } else {
                law_frames_are_due(
                    d,
                    q + 4 + len,
                    end,
                    log2_fn,
                    last,
                    (limit - 1) as nat,
                    k - 1,
                );
                assert(s.0.take(k) =~= seq![f] + rest.0.take(k - 1));
                lemma_last_reference_push_front(f, rest.0.take(k - 1), log2_fn, last_ref);
            }
        },
        None => {
            let e = next_frame(d, q + 1, end, log2_fn, last_ref);
            lemma_next_frame_bounds(d, q + 1, end, log2_fn, last_ref);
            law_frames_are_due(d, e, end, log2_fn, last_ref, limit, k);
        },
    }
}

/// The number that is in force behind the first `k` frames is the one that the
/// slice header of the last reference frame among them holds, or the one from the
/// start where there is none.
pub proof fn law_last_reference_is_read(
    d: Seq<u8>,
    q: int,
    end: int,
    log2_fn: nat,
    last_ref: nat,
    limit: nat,
    k: int,
    j: int,
)
    requires
        0 <= q <= end <= d.len() <= usize::MAX,
        ({
            let frames = split_from(d, q, end, log2_fn, last_ref, limit).0;
            &&& -1 <= j < k <= frames.len()
            &&& 0 <= k
            &&& j >= 0 ==> frames[j].is_reference()
            &&& forall|m: int| j < m < k ==> !(#[trigger] frames[m]).is_reference()
        }),
    ensures
        ({
            let frames = split_from(d, q, end, log2_fn, last_ref, limit).0;
            let force = last_reference(frames.take(k), log2_fn, last_ref);
            if j >= 0 {
                number_at(d, frames[j].pos as int, frames[j].len as int, log2_fn) == Some(force)
            } else {
                force == last_ref
            }
        }),
    decreases k,
{
    let frames = split_from(d, q, end, log2_fn, last_ref, limit).0;
    if k > 0 {
        assert(frames.take(k).drop_last() =~= frames.take(k - 1));
        assert(frames.take(k).last() == frames[k - 1]);
        law_frames_are_due(d, q, end, log2_fn, last_ref, limit, k - 1);
        if j < k - 1 {
            law_last_reference_is_read(d, q, end, log2_fn, last_ref, limit, k - 1, j);
        }
    }
}

/// The first of `frames`, up to the last that stands before `at`.
pub open spec fn standing_before(frames: Seq<Frame>, at: int) -> Seq<Frame>
    decreases frames.len(),
{
    if frames.len() == 0 || frames.last().pos < at {
        frames
    } else {
        standing_before(frames.drop_last(), at)
    }
}

proof fn lemma_standing_before_push_front(f: Frame, frames: Seq<Frame>, at: int)
    requires
        f.pos < at,
    ensures
        standing_before(seq![f] + frames, at) == seq![f] + standing_before(frames, at),
    decreases frames.len(),
{
    let all = seq![f] + frames;
    if frames.len() == 0 {
        assert(all.last() == f);
        assert(all =~= seq![f] + standing_before(frames, at));
    } else if frames.last().pos >= at {
        assert(all.drop_last() =~= seq![f] + frames.drop_last());
        lemma_standing_before_push_front(f, frames.drop_last(), at);
    }
}

proof fn lemma_none_stands_before(frames: Seq<Frame>, at: int)
    requires
        forall|k: int| 0 <= k < frames.len() ==> at <= (#[trigger] frames[k]).pos,
    ensures
        standing_before(frames, at) == Seq::<Frame>::empty(),
    decreases frames.len(),
{
    if frames.len() > 0 {
        assert(at <= frames[frames.len() - 1].pos);
        assert forall|k: int| 0 <= k < frames.len() - 1 implies at <= (
        #[trigger] frames.drop_last()[k]).pos by {
            assert(at <= frames[k].pos);
        }
        lemma_none_stands_before(frames.drop_last(), at);
    } else {
        assert(frames =~= Seq::<Frame>::empty());
    }
}

proof fn lemma_next_frame_is_next(
    d: Seq<u8>,
    q: int,
    end: int,
    log2_fn: nat,
    last_ref: nat,
    i: int,
)
    requires
        q <= i < next_frame(d, q, end, log2_fn, last_ref),
    ensures
        frame_at(d, i, end, log2_fn, last_ref) is None,
    decreases i - q,
{
    if q < i {
        lemma_next_frame_is_next(d, q + 1, end, log2_fn, last_ref, i);
    }
}

/// No frame is overlooked: at no position inside a gap stands a slice with the
/// number that is due after the frames before the gap.
pub proof fn law_gaps_hold_no_due_frame(
    d: Seq<u8>,
    q: int,
    end: int,
    log2_fn: nat,
    last_ref: nat,
    limit: nat,
    k: int,
    i: int,
)
    requires
        0 <= q <= end <= d.len() <= usize::MAX,
        ({
            let gaps = split_from(d, q, end, log2_fn, last_ref, limit).1;
            0 <= k < gaps.len() && gaps[k].0 <= i < gaps[k].0 + gaps[k].1
        }),
    ensures
        ({
            let s = split_from(d, q, end, log2_fn, last_ref, limit);
            let before = standing_before(s.0, s.1[k].0 as int);
            frame_at(d, i, end, log2_fn, last_reference(before, log2_fn, last_ref)) is None
        }),
    decreases end - q,
{
    let s = split_from(d, q, end, log2_fn, last_ref, limit);
    match frame_at(d, q, end, log2_fn, last_ref) {
        Some((len, number)) => {
            let f = frame_of(d, q, len);
            let last = ref_after(f, number, last_ref);
            let rest = split_from(d, q + 4 + len, end, log2_fn, last, (limit - 1) as nat);
            law_gaps_hold_no_due_frame(
                d,
                q + 4 + len,
                end,
                log2_fn,
                last,
                (limit - 1) as nat,
                k,
                i,
            );
            law_split_partitions(d, q + 4 + len, end, log2_fn, last, (limit - 1) as nat);
            let at = s.1[k].0 as int;
            assert(rest.1[k].0 >= q + 4 + len);
            lemma_standing_before_push_front(f, rest.0, at);
            lemma_last_reference_push_front(f, standing_before(rest.0, at), log2_fn, last_ref);
        },
        None => {
            let e = next_frame(d, q + 1, end, log2_fn, last_ref);
            lemma_next_frame_bounds(d, q + 1, end, log2_fn, last_ref);
            let rest = split_from(d, e, end, log2_fn, last_ref, limit);
            if k == 0 {
                law_split_partitions(d, e, end, log2_fn, last_ref, limit);
                lemma_none_stands_before(s.0, q);
                if i > q {
                    lemma_next_frame_is_next(d, q + 1, end, log2_fn, last_ref, i);
                }
            } else {
                assert(s.1[k] == rest.1[k - 1]);
                law_gaps_hold_no_due_frame(d, e, end, log2_fn, last_ref, limit, k - 1, i);
            }
        },
    }
}

/// `frames` stand one right behind the other from `q` to `end`, each a slice with
/// the number that is due.
pub open spec fn is_stream(
    d: Seq<u8>,
    frames: Seq<Frame>,
    q: int,
    end: int,
    log2_fn: nat,
    last_ref: nat,
) -> bool
    decreases frames.len(),
{
    if frames.len() == 0 {
        q == end
    } else {
        let f = frames[0];
        let number = due_number(f.is_key(), last_ref, log2_fn);
        &&& f.pos == q
        &&& f.hdr == d[q + 4]
        &&& slice_at(d, q, end) == Some(f.len as int)
        &&& number_at(d, q, f.len as int, log2_fn) == Some(number)
        &&& is_stream(d, frames.skip(1), f.end(), end, log2_fn, ref_after(f, number, last_ref))
    }
}

/// Media data that is nothing but due frames is split into just those frames.
pub proof fn law_stream_is_recovered(
    d: Seq<u8>,
    frames: Seq<Frame>,
    q: int,
    end: int,
    log2_fn: nat,
    last_ref: nat,
    limit: nat,
)
    requires
        0 <= q <= end <= d.len() <= usize::MAX,
        is_stream(d, frames, q, end, log2_fn, last_ref),
        frames.len() <= limit,
    ensures
        split_from(d, q, end, log2_fn, last_ref, limit) == (frames, Seq::<(usize, usize)>::empty()),
    decreases frames.len(),
{
    let s = split_from(d, q, end, log2_fn, last_ref, limit);
    if frames.len() == 0 {
        assert(s.0 =~= frames);
    } else {
        let f = frames[0];
        let number = due_number(f.is_key(), last_ref, log2_fn);
        assert(frame_of(d, q, f.len as int) == f);
        law_stream_is_recovered(
            d,
            frames.skip(1),
            f.end(),
            end,
            log2_fn,
            ref_after(f, number, last_ref),
            (limit - 1) as nat,
        );
        assert(s.0 =~= frames);
    }
}

/// The start code in front of a NAL unit of a byte stream.
pub open spec fn start_code() -> Seq<u8> {
    seq![0u8, 0, 0, 1]
}

/// `frames` as a byte stream: each unit behind a start code.
pub open spec fn byte_stream(d: Seq<u8>, frames: Seq<Frame>) -> Seq<u8>
    decreases frames.len(),
{
    if frames.len() == 0 {
        Seq::empty()
    } else {
        let f = frames.last();
        byte_stream(d, frames.drop_last()) + start_code() + d.subrange(f.pos + 4, f.end())
    }
}

/// Appends a start code and `unit` to `o`.
pub fn put_unit(o: &mut Vec<u8>, unit: &[u8])
    ensures
        final(o)@ == old(o)@ + start_code() + unit@,
{
    o.push(0);
    o.push(0);
    o.push(0);
    o.push(1);
    proof {
        assert(o@ =~= old(o)@ + start_code());
    }
    put(o, unit);
}

/// Writes `frames` as a byte stream: each unit behind a start code.
pub fn annexb(d: &[u8], frames: &[Frame]) -> (o: Vec<u8>)
    requires
        forall|k: int| 0 <= k < frames@.len() ==> (#[trigger] frames@[k]).end() <= d@.len(),
    ensures
        o@ == byte_stream(d@, frames@),
{
    let mut o: Vec<u8> = Vec::new();
    let mut i: usize = 0;
    let n: usize = d.len();
    while i < frames.len()
        invariant
            i <= frames@.len(),
            n == d@.len(),
            forall|k: int| 0 <= k < frames@.len() ==> (#[trigger] frames@[k]).end() <= d@.len(),
            o@ == byte_stream(d@, frames@.take(i as int)),
        decreases frames@.len() - i,
    {
        let f = &frames[i];
        assert(frames@[i as int].end() <= d@.len());
        assert(f.pos + 4 + f.len <= n);
        put_unit(&mut o, slice_subrange(d, f.pos + 4, f.pos + 4 + f.len));
        proof {
            let t = frames@.take(i + 1);
            assert(t.drop_last() =~= frames@.take(i as int));
            assert(t.last() == *f);
        }
        i = i + 1;
    }
    proof {
        assert(frames@.take(i as int) =~= frames@);
    }
    o
}

/// A byte stream is each unit behind a start code, one after the other.
pub proof fn law_byte_stream_joins_units(d: Seq<u8>, frames: Seq<Frame>, f: Frame)
    ensures
        byte_stream(d, Seq::empty()) == Seq::<u8>::empty(),
        byte_stream(d, frames.push(f)) == byte_stream(d, frames) + seq![0u8, 0, 0, 1] + d.subrange(
            f.pos + 4,
            f.pos + 4 + f.len,
        ),
{
    assert(frames.push(f).drop_last() =~= frames);
}

/// The frame number of a unit is read behind three codes, in the first twelve bytes
/// behind its header byte, as far as it reaches.
pub proof fn law_number_follows_three_codes(
    d: Seq<u8>,
    q: int,
    len: int,
    log2_fn: nat,
    ids: (nat, nat, nat),
    number: nat,
    rest: Seq<bool>,
)
    requires
        0 <= q,
        1 <= len,
        log2_fn <= 32,
        number < pow2(log2_fn),
        ids.0 < u32::MAX && ids.1 < u32::MAX && ids.2 < u32::MAX,
        ({
            let to = if len < 13 {
                q + 4 + len
            } else {
                q + 17
            };
            bits_of(unescaped(d.subrange(q + 5, to), 0)) == ue_bits(ids.0) + (ue_bits(ids.1) + (
            ue_bits(ids.2) + (u_bits(log2_fn, number) + rest)))
        }),
    ensures
        number_at(d, q, len, log2_fn) == Some(number),
{
    law_exp_golomb_read_back(
        ids.0,
        ue_bits(ids.1) + (ue_bits(ids.2) + (u_bits(log2_fn, number) + rest)),
    );
    law_exp_golomb_read_back(ids.1, ue_bits(ids.2) + (u_bits(log2_fn, number) + rest));
    law_exp_golomb_read_back(ids.2, u_bits(log2_fn, number) + rest);
    law_field_read_back(log2_fn, number, rest);
}

/// A frame number that is read stands there: see [`law_number_follows_three_codes`].
pub proof fn law_number_that_is_read_stands_there(
    d: Seq<u8>,
    q: int,
    len: int,
    log2_fn: nat,
) -> (r: ((nat, nat, nat), Seq<bool>))
    requires
        0 <= q,
        1 <= len,
        log2_fn <= 32,
    ensures
        number_at(d, q, len, log2_fn) matches Some(number) ==> {
            let to = if len < 13 {
                q + 4 + len
            } else {
                q + 17
            };
            number < pow2(log2_fn) && bits_of(unescaped(d.subrange(q + 5, to), 0)) == ue_bits(
                r.0.0,
            ) + (ue_bits(r.0.1) + (ue_bits(r.0.2) + (u_bits(log2_fn, number) + r.1)))
        },
{
    let b = bits_of(header_bytes(d, q, len, 12));
    let one = read_ue(b);
    let two = read_ue(one.1);
    let three = read_ue(two.1);
    law_what_is_read_is_a_code(b);
    law_what_is_read_is_a_code(one.1);
    law_what_is_read_is_a_code(two.1);
    law_what_is_read_is_a_field(three.1, log2_fn);
    ((one.0->0, two.0->0, three.0->0), read_u(three.1, log2_fn).1)
}

} // verus!
