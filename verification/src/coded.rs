//! Frames as an encoder codes them, and that they are found and read again.

use crate::bits::{
    bit_len, bits_of, law_exp_golomb_read_back, law_field_read_back, lemma_assoc, lemma_bits_of_len,
    lemma_bits_of_take, lemma_u_bits_len, u_bits, ue_bits,
};
use crate::bytes::be32_bytes;
use crate::frames::{
    behind_slice_ids, frame_at, header_bytes, is_stream, law_stream_is_recovered,
    law_written_slice_is_found, number_at, slice_at, split_from, Frame,
};
use crate::nal::{escaped, lemma_escaped_first_bytes, lemma_unescaped_start, unescaped};
use crate::order::count_field;
use crate::x264::Params;
use vstd::arithmetic::power2::pow2;
use vstd::prelude::*;

verus! {

/// A slice of a picture, as an encoder codes it.
pub struct Slice {
    /// The header byte of its NAL unit.
    pub hdr: u8,
    /// Its type.
    pub kind: nat,
    /// Its frame number.
    pub number: nat,
    /// What follows the frame number.
    pub rest: Seq<bool>,
    /// The payload of its NAL unit.
    pub raw: Seq<u8>,
}

/// What a slice is stored as: a NAL unit behind its length.
pub open spec fn stored(s: Slice) -> Seq<u8> {
    be32_bytes((1 + escaped(s.raw, 0).len()) as u32) + (seq![s.hdr] + escaped(s.raw, 0))
}

/// The payload of `s` holds its fields, in which the frame number has `log2_fn`
/// bits: an x264 codes one slice for each frame, with the codes of 0, of the slice
/// type and of 0 before the frame number.
pub open spec fn is_coded(s: Slice, log2_fn: nat) -> bool {
    &&& s.raw.len() >= 3
    &&& 1 + escaped(s.raw, 0).len() <= 0xff_ffff
    &&& s.hdr < 128
    &&& s.hdr % 32 == 1 || s.hdr % 32 == 5
    &&& 5 <= s.kind <= 7
    &&& s.hdr % 32 == 5 ==> s.hdr / 32 > 0 && s.kind == 7
    &&& s.number < pow2(log2_fn)
    &&& bits_of(s.raw) == ue_bits(0) + ue_bits(s.kind) + ue_bits(0) + u_bits(log2_fn, s.number)
        + s.rest
}

/// `s` is stored at `q`.
pub open spec fn is_stored_at(d: Seq<u8>, q: int, s: Slice) -> bool {
    &&& 0 <= q
    &&& q + stored(s).len() <= d.len()
    &&& d.subrange(q, q + stored(s).len()) == stored(s)
}

proof fn lemma_short_codes(kind: nat)
    requires
        kind <= 7,
    ensures
        ue_bits(0).len() == 1,
        ue_bits(0)[0],
        ue_bits(kind).len() <= 7,
{
    law_exp_golomb_read_back(kind, Seq::empty());
    reveal_with_fuel(bit_len, 5);
    reveal(ue_bits);
    reveal_with_fuel(u_bits, 2);
    assert(bit_len(1) == 1);
    assert(ue_bits(0) =~= seq![true]);
}

proof fn lemma_ids_read(kind: nat, b: Seq<bool>)
    requires
        kind <= 7,
    ensures
        behind_slice_ids(ue_bits(0) + ue_bits(kind) + ue_bits(0) + b) == Some(b),
{
    lemma_assoc(ue_bits(0) + ue_bits(kind), ue_bits(0), b);
    lemma_assoc(ue_bits(0), ue_bits(kind), ue_bits(0) + b);
    law_exp_golomb_read_back(0, ue_bits(kind) + (ue_bits(0) + b));
    law_exp_golomb_read_back(kind, ue_bits(0) + b);
    law_exp_golomb_read_back(0, b);
}

proof fn lemma_stored_parts(d: Seq<u8>, q: int, s: Slice)
    requires
        is_stored_at(d, q, s),
    ensures
        stored(s).len() == 5 + escaped(s.raw, 0).len(),
        d.subrange(q, q + 4) == be32_bytes((1 + escaped(s.raw, 0).len()) as u32),
        d[q + 4] == s.hdr,
        d.subrange(q + 5, q + stored(s).len()) == escaped(s.raw, 0),
{
    let all = stored(s);
    let e = escaped(s.raw, 0);
    let there = d.subrange(q, q + all.len());
    let head = be32_bytes((1 + e.len()) as u32);
    assert(d.subrange(q, q + 4) =~= head) by {
        assert forall|i: int| 0 <= i < 4 implies d[q + i] == head[i] by {
            assert(there[i] == all[i]);
        }
    }
    assert(there[4] == all[4]);
    assert forall|i: int| 0 <= i < e.len() implies d[q + 5 + i] == e[i] by {
        assert(there[5 + i] == all[5 + i]);
    }
    assert(d.subrange(q + 5, q + all.len()) =~= e);
}

/// How many raw bytes are got from the first `most` bytes of a slice.
proof fn lemma_header_start(d: Seq<u8>, q: int, s: Slice, most: int) -> (m: int)
    requires
        is_stored_at(d, q, s),
        0 <= most,
    ensures
        0 <= m <= s.raw.len(),
        header_bytes(d, q, 1 + escaped(s.raw, 0).len() as int, most) == s.raw.take(m),
        m == s.raw.len() || 3 * m >= 2 * most,
{
    lemma_stored_parts(d, q, s);
    let e = escaped(s.raw, 0);
    let k = if most < e.len() {
        most
    } else {
        e.len() as int
    };
    lemma_unescaped_start(s.raw, 0, k);
    let behind = d.subrange(q + 5, q + stored(s).len());
    assert(d.subrange(q + 5, q + 5 + k) =~= behind.take(k));
    unescaped(e.take(k), 0).len() as int
}

proof fn lemma_bits_start(raw: Seq<u8>, m: int, fields: Seq<bool>, rest: Seq<bool>)
    requires
        0 <= m <= raw.len(),
        bits_of(raw) == fields + rest,
        m == raw.len() || 8 * m >= fields.len(),
    ensures
        bits_of(raw.take(m)) == fields + rest.take(8 * m - fields.len()),
        0 <= 8 * m - fields.len() <= rest.len(),
{
    lemma_bits_of_take(raw, m);
    lemma_bits_of_len(raw);
    assert((fields + rest).take(8 * m) =~= fields + rest.take(8 * m - fields.len()));
}

/// The frame number of a slice is read back, whatever its payload was escaped to.
pub proof fn law_coded_number_is_read(d: Seq<u8>, q: int, s: Slice, log2_fn: nat)
    requires
        is_stored_at(d, q, s),
        is_coded(s, log2_fn),
        log2_fn <= 32,
    ensures
        number_at(d, q, 1 + escaped(s.raw, 0).len() as int, log2_fn) == Some(s.number),
{
    let m = lemma_header_start(d, q, s, 12);
    let field = u_bits(log2_fn, s.number);
    let ids = ue_bits(0) + ue_bits(s.kind) + ue_bits(0);
    lemma_short_codes(s.kind);
    lemma_u_bits_len(log2_fn, s.number);
    lemma_bits_start(s.raw, m, ids + field, s.rest);
    let rest = s.rest.take(8 * m - (ids + field).len());
    lemma_assoc(ids, field, rest);
    lemma_ids_read(s.kind, field + rest);
    law_field_read_back(log2_fn, s.number, rest);
}

/// A slice that is stored is found with its length.
pub proof fn law_coded_slice_is_found(d: Seq<u8>, q: int, end: int, s: Slice, log2_fn: nat)
    requires
        is_stored_at(d, q, s),
        is_coded(s, log2_fn),
        q + stored(s).len() <= end <= d.len(),
    ensures
        slice_at(d, q, end) == Some(stored(s).len() - 4),
{
    lemma_stored_parts(d, q, s);
    let ids = ue_bits(0) + ue_bits(s.kind) + ue_bits(0);
    let field = u_bits(log2_fn, s.number);
    lemma_short_codes(s.kind);
    lemma_bits_of_len(s.raw);
    lemma_first_byte(s.raw);
    assert(bits_of(s.raw)[0]) by {
        assert(bits_of(s.raw)[0] == ue_bits(0)[0]);
    }
    lemma_escaped_first_bytes(s.raw);
    let behind = d.subrange(q + 5, q + stored(s).len());
    assert(d.subrange(q + 5, q + 8) =~= behind.take(3));
    lemma_assoc(ids, field, s.rest);
    lemma_bits_start(s.raw, 3, ids, field + s.rest);
    law_written_slice_is_found(
        d,
        q,
        end,
        (1 + escaped(s.raw, 0).len()) as u32,
        s.kind,
        (field + s.rest).take(8 * 3 - ids.len()),
    );
}

proof fn lemma_first_byte(raw: Seq<u8>)
    requires
        raw.len() > 0,
    ensures
        bits_of(raw).len() == 8 * raw.len(),
        bits_of(raw)[0] ==> raw[0] != 0,
{
    lemma_bits_of_len(raw);
    lemma_bits_of_take(raw, 1);
    assert(bits_of(raw).take(8)[0] == bits_of(raw)[0]);
    let one = raw.take(1);
    assert(one.drop_last() =~= Seq::<u8>::empty());
    assert(bits_of(one.drop_last()) =~= Seq::<bool>::empty());
    assert(bits_of(one) =~= u_bits(8, raw[0] as nat));
    crate::bits::lemma_u_bits_zero(8);
}

/// A slice that is stored is a frame exactly if its number is the one that is due:
/// 0 at a key frame, else the one behind the last reference frame's, in a circle.
pub proof fn law_coded_frame_is_found(
    d: Seq<u8>,
    q: int,
    end: int,
    s: Slice,
    log2_fn: nat,
    last_ref: nat,
)
    requires
        is_stored_at(d, q, s),
        is_coded(s, log2_fn),
        log2_fn <= 32,
        q + stored(s).len() <= end <= d.len(),
    ensures
        ({
            let due = if s.hdr % 32 == 5 {
                0nat
            } else {
                (last_ref + 1) % pow2(log2_fn)
            };
            frame_at(d, q, end, log2_fn, last_ref) == if s.number == due {
                Some((stored(s).len() - 4, s.number))
            } else {
                None
            }
        }),
{
    lemma_stored_parts(d, q, s);
    law_coded_slice_is_found(d, q, end, s, log2_fn);
    law_coded_number_is_read(d, q, s, log2_fn);
}

/// Slices one right behind the other.
pub open spec fn stored_all(ss: Seq<Slice>) -> Seq<u8>
    decreases ss.len(),
{
    if ss.len() == 0 {
        Seq::empty()
    } else {
        stored(ss[0]) + stored_all(ss.skip(1))
    }
}

/// Each slice is coded with the number that is due, where the last reference frame
/// before them had the number `last_ref`: 0 at a key frame, else one more than the
/// last reference frame's, in a circle of 2^`log2_fn`.
pub open spec fn are_coded(ss: Seq<Slice>, log2_fn: nat, last_ref: nat) -> bool
    decreases ss.len(),
{
    ss.len() > 0 ==> {
        let s = ss[0];
        &&& is_coded(s, log2_fn)
        &&& s.number == if s.hdr % 32 == 5 {
            0
        } else {
            (last_ref + 1) % pow2(log2_fn)
        }
        &&& are_coded(
            ss.skip(1),
            log2_fn,
            if s.hdr / 32 != 0 {
                s.number
            } else {
                last_ref
            },
        )
    }
}

/// Where the slices stand, if the first stands at `q`.
pub open spec fn frames_of(ss: Seq<Slice>, q: int) -> Seq<Frame>
    decreases ss.len(),
{
    if ss.len() == 0 {
        Seq::empty()
    } else {
        seq![
            Frame { pos: q as usize, len: (stored(ss[0]).len() - 4) as usize, hdr: ss[0].hdr },
        ] + frames_of(ss.skip(1), q + stored(ss[0]).len())
    }
}

proof fn lemma_coded_stream(
    d: Seq<u8>,
    q: int,
    end: int,
    ss: Seq<Slice>,
    log2_fn: nat,
    last_ref: nat,
)
    requires
        0 <= q <= end <= d.len() <= usize::MAX,
        log2_fn <= 32,
        are_coded(ss, log2_fn, last_ref),
        d.subrange(q, end) == stored_all(ss),
    ensures
        is_stream(d, frames_of(ss, q), q, end, log2_fn, last_ref),
        frames_of(ss, q).len() == ss.len(),
    decreases ss.len(),
{
    if ss.len() == 0 {
        assert(d.subrange(q, end).len() == 0);
    } else {
        let s = ss[0];
        let n = stored(s).len() as int;
        let there = d.subrange(q, end);
        assert(there =~= stored(s) + stored_all(ss.skip(1)));
        assert(d.subrange(q, q + n) =~= there.take(n));
        assert(there.take(n) =~= stored(s));
        assert(d.subrange(q + n, end) =~= there.skip(n));
        assert(there.skip(n) =~= stored_all(ss.skip(1)));
        lemma_stored_parts(d, q, s);
        law_coded_slice_is_found(d, q, end, s, log2_fn);
        law_coded_number_is_read(d, q, s, log2_fn);
        lemma_coded_stream(
            d,
            q + n,
            end,
            ss.skip(1),
            log2_fn,
            if s.hdr / 32 != 0 {
                s.number
            } else {
                last_ref
            },
        );
        let fs = frames_of(ss, q);
        assert(fs.skip(1) =~= frames_of(ss.skip(1), q + n));
        assert(fs[0].end() == q + n);
    }
}

/// A stream of slices, as an encoder codes and a muxer stores it, is split into just
/// those slices.
pub proof fn law_coded_stream_is_recovered(
    d: Seq<u8>,
    q: int,
    end: int,
    ss: Seq<Slice>,
    log2_fn: nat,
    last_ref: nat,
    limit: nat,
)
    requires
        0 <= q <= end <= d.len() <= usize::MAX,
        log2_fn <= 32,
        are_coded(ss, log2_fn, last_ref),
        d.subrange(q, end) == stored_all(ss),
        ss.len() <= limit,
    ensures
        split_from(d, q, end, log2_fn, last_ref, limit) == (
            frames_of(ss, q),
            Seq::<(usize, usize)>::empty(),
        ),
{
    lemma_coded_stream(d, q, end, ss, log2_fn, last_ref);
    law_stream_is_recovered(d, frames_of(ss, q), q, end, log2_fn, last_ref, limit);
}

/// What follows the frame number of a slice whose order count ends in `low`: at a
/// key frame, a number of its own comes first.
pub open spec fn count_bits(hdr: u8, key_id: nat, log2_poc: nat, low: nat) -> Seq<bool> {
    if hdr % 32 == 5 {
        ue_bits(key_id) + u_bits(log2_poc, low)
    } else {
        u_bits(log2_poc, low)
    }
}

proof fn lemma_key_id_len(key_id: nat)
    requires
        key_id <= 0xffff,
    ensures
        ue_bits(key_id).len() <= 33,
{
    law_exp_golomb_read_back(key_id, Seq::empty());
    crate::bits::lemma_bit_len_bound(key_id + 1);
    vstd::arithmetic::power2::lemma2_to64();
    if bit_len(key_id + 1) > 17 {
        if bit_len(key_id + 1) - 1 > 17 {
            vstd::arithmetic::power2::lemma_pow2_strictly_increases(
                17,
                (bit_len(key_id + 1) - 1) as nat,
            );
        }
    }
}

/// The low bits of the order count of a slice are read back, whatever its payload
/// was escaped to.
pub proof fn law_coded_count_is_read(
    d: Seq<u8>,
    q: int,
    s: Slice,
    p: Params,
    key_id: nat,
    low: nat,
    rest: Seq<bool>,
)
    requires
        is_stored_at(d, q, s),
        is_coded(s, p.log2_fn as nat),
        q + stored(s).len() <= usize::MAX,
        p.log2_fn <= 32,
        p.log2_poc <= 32,
        key_id <= 0xffff,
        low < pow2(p.log2_poc as nat),
        s.rest == count_bits(s.hdr, key_id, p.log2_poc as nat, low) + rest,
    ensures
        count_field(
            d,
            Frame { pos: q as usize, len: (stored(s).len() - 4) as usize, hdr: s.hdr },
            p,
        ) == Some(low),
{
    lemma_stored_parts(d, q, s);
    let m = lemma_header_start(d, q, s, 24);
    let number = u_bits(p.log2_fn as nat, s.number);
    let field = u_bits(p.log2_poc as nat, low);
    let id = ue_bits(key_id);
    let count = count_bits(s.hdr, key_id, p.log2_poc as nat, low);
    let ids = ue_bits(0) + ue_bits(s.kind) + ue_bits(0);
    lemma_short_codes(s.kind);
    lemma_key_id_len(key_id);
    lemma_u_bits_len(p.log2_fn as nat, s.number);
    lemma_u_bits_len(p.log2_poc as nat, low);
    let fields = ids + number + count;
    lemma_assoc(ids + number, count, rest);
    lemma_bits_start(s.raw, m, fields, rest);
    let left = rest.take(8 * m - fields.len());
    lemma_assoc(ids + number, count, left);
    lemma_assoc(ids, number, count + left);
    lemma_ids_read(s.kind, number + (count + left));
    law_field_read_back(p.log2_fn as nat, s.number, count + left);
    if s.hdr % 32 == 5 {
        lemma_assoc(id, field, left);
        law_exp_golomb_read_back(key_id, field + left);
    }
    law_field_read_back(p.log2_poc as nat, low, left);
}

} // verus!
