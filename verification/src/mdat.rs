//! Where the media data starts, and where x264 signed it.

use crate::bytes::{be32_at, be32_bytes, be64_at, be64_bytes, read_be32, read_be64};
use vstd::prelude::*;

verus! {

/// The longest NAL unit that is taken for one.
pub const MAX_NAL: usize = 0xff_ffff;

/// How far into the media data the encoder's signature is looked for.
pub const SIGNATURE_WINDOW: usize = 4_000_000;

/// How far before the signature its NAL unit may start.
pub const SIGNATURE_REACH: usize = 300;

/// The type of the media data box.
pub open spec fn mdat_tag() -> Seq<u8> {
    seq![0x6du8, 0x64, 0x61, 0x74]
}

/// The length of the header of the box at `off`: a size of 1 says that the real
/// one follows in 64 bits.
pub open spec fn box_header_len(d: Seq<u8>, off: int) -> int {
    if be32_at(d, off) == 1 {
        16
    } else {
        8
    }
}

/// The size of the box at `off`, header included.
pub open spec fn box_len(d: Seq<u8>, off: int) -> int {
    if be32_at(d, off) == 1 {
        be64_at(d, off + 8)
    } else {
        be32_at(d, off)
    }
}

/// Where the contents of the first media data box start, among the boxes that
/// follow one another from `off` on.
pub open spec fn mdat_from(d: Seq<u8>, off: int) -> Option<int>
    decreases d.len() - off,
{
    if off < 0 || off + 8 > d.len() || off + box_header_len(d, off) > d.len() {
        None
    } else if d.subrange(off + 4, off + 8) == mdat_tag() {
        Some(off + box_header_len(d, off))
    } else if box_len(d, off) < box_header_len(d, off) || off + box_len(d, off) > d.len() {
        None
    } else {
        mdat_from(d, off + box_len(d, off))
    }
}

/// Where the contents of the first media data box start.
pub fn find_mdat(d: &[u8]) -> (r: Option<usize>)
    ensures
        r is Some <==> mdat_from(d@, 0) is Some,
        r is Some ==> mdat_from(d@, 0) == Some(r->0 as int) && r->0 <= d@.len(),
{
    let n: usize = d.len();
    let mut off: usize = 0;
    while off <= n && n - off >= 8
        invariant
            n == d@.len(),
            off <= n,
            mdat_from(d@, 0) == mdat_from(d@, off as int),
        decreases n - off,
    {
        let size32: u32 = read_be32(d, off);
        if size32 == 1 && n - off < 16 {
            return None;
        }
        let hdr: usize = if size32 == 1 { 16 } else { 8 };
        let size: u64 = if size32 == 1 { read_be64(d, off + 8) } else { size32 as u64 };
        assert(d@.subrange(off + 4, off + 8) == mdat_tag() <==> (d@[off + 4] == 0x6d && d@[off + 5]
            == 0x64 && d@[off + 6] == 0x61 && d@[off + 7] == 0x74)) by {
            let t = d@.subrange(off + 4, off + 8);
            assert(t[0] == d@[off + 4] && t[1] == d@[off + 5] && t[2] == d@[off + 6] && t[3] == d@[off
                + 7]);
            if d@[off + 4] == 0x6d && d@[off + 5] == 0x64 && d@[off + 6] == 0x61 && d@[off + 7]
                == 0x74 {
                assert(t =~= mdat_tag());
            }
        }
        if d[off + 4] == 0x6d && d[off + 5] == 0x64 && d[off + 6] == 0x61 && d[off + 7] == 0x74 {
            return Some(off + hdr);
        }
        if size < hdr as u64 {
            return None;
        }
        if size > (n - off) as u64 {
            return None;
        }
        off = off + size as usize;
    }
    None
}

/// The text that x264 puts before its options.
pub open spec fn signature() -> Seq<u8> {
    seq![0x6fu8, 0x70, 0x74, 0x69, 0x6f, 0x6e, 0x73, 0x3a]
}

/// The first position from `i` on at which the signature stands before `end`.
pub open spec fn signature_from(d: Seq<u8>, i: int, end: int) -> Option<int>
    decreases end - i,
{
    if i + 8 > end {
        None
    } else if d.subrange(i, i + 8) == signature() {
        Some(i)
    } else {
        signature_from(d, i + 1, end)
    }
}

/// At `q` stands the length of a NAL unit of user data that ends before `end`
/// and reaches beyond `text_at`.
pub open spec fn user_data_at(d: Seq<u8>, q: int, text_at: int, end: int) -> bool {
    let len = be32_at(d, q);
    &&& d[q] == 0
    &&& d[q + 1] == 0
    &&& 3 <= len <= MAX_NAL
    &&& q + 4 + len <= end
    &&& d[q + 4] % 32 == 6
    &&& q + 4 + len > text_at
}

/// The last position from `low` to `q` at which such a unit stands.
pub open spec fn user_data_down(d: Seq<u8>, q: int, low: int, text_at: int, end: int) -> Option<int>
    decreases q - low + 1,
{
    if q < low {
        None
    } else if user_data_at(d, q, text_at, end) {
        Some(q)
    } else {
        user_data_down(d, q - 1, low, text_at, end)
    }
}

/// The smaller of two numbers.
pub open spec fn min_int(a: int, b: int) -> int {
    if a <= b {
        a
    } else {
        b
    }
}

/// The larger of two numbers.
pub open spec fn max_int(a: int, b: int) -> int {
    if a >= b {
        a
    } else {
        b
    }
}

/// The user data that x264 signed: where its length stands and how long it is.
pub open spec fn signed_data(d: Seq<u8>, start: int, end: int) -> Option<(int, int)> {
    match signature_from(d, start, min_int(start + SIGNATURE_WINDOW, end)) {
        None => None,
        Some(text_at) => match user_data_down(
            d,
            text_at,
            max_int(start, text_at - SIGNATURE_REACH),
            text_at,
            end,
        ) {
            None => None,
            Some(q) => Some((q, be32_at(d, q))),
        },
    }
}

/// Whether the signature stands at `i`.
fn is_signature(d: &[u8], i: usize) -> (r: bool)
    requires
        i + 8 <= d@.len(),
    ensures
        r == (d@.subrange(i as int, i + 8) == signature()),
{
    let n: usize = d.len();
    assert(i + 8 <= n);
    let r: bool = d[i] == 0x6f && d[i + 1] == 0x70 && d[i + 2] == 0x74 && d[i + 3] == 0x69 && d[i
        + 4] == 0x6f && d[i + 5] == 0x6e && d[i + 6] == 0x73 && d[i + 7] == 0x3a;
    proof {
        let t = d@.subrange(i as int, i + 8);
        if r {
            assert(t =~= signature());
        } else if t == signature() {
            assert(forall|k: int| 0 <= k < 8 ==> t[k] == d@[i + k]);
            assert(t[0] == 0x6f && t[1] == 0x70 && t[2] == 0x74 && t[3] == 0x69 && t[4] == 0x6f
                && t[5] == 0x6e && t[6] == 0x73 && t[7] == 0x3a);
        }
    }
    r
}

/// The first position from `start` on at which the signature stands before `end`.
fn find_signature(d: &[u8], start: usize, end: usize) -> (r: Option<usize>)
    requires
        start <= end <= d@.len(),
    ensures
        r is Some <==> signature_from(d@, start as int, end as int) is Some,
        r matches Some(t) ==> signature_from(d@, start as int, end as int) == Some(t as int) && start
            <= t && t + 8 <= end,
{
    let mut t: usize = start;
    while end - t >= 8
        invariant
            start <= t <= end <= d@.len(),
            signature_from(d@, start as int, end as int) == signature_from(
                d@,
                t as int,
                end as int,
            ),
        decreases end - t,
    {
        if is_signature(d, t) {
            return Some(t);
        }
        t = t + 1;
    }
    None
}

/// Finds the user data that x264 signed. It need not come first: the muxer may
/// have put audio before it.
pub fn find_x264_sei(d: &[u8], start: usize, end: usize) -> (r: Option<(usize, usize)>)
    requires
        start <= end,
        min_int(start + SIGNATURE_WINDOW, end as int) <= d@.len(),
    ensures
        r is Some <==> signed_data(d@, start as int, end as int) is Some,
        r matches Some((q, len)) ==> signed_data(d@, start as int, end as int) == Some(
            (q as int, len as int),
        ) && start <= q && q + 4 + len <= end && len >= 3,
{
    let window: usize = if end - start > SIGNATURE_WINDOW {
        start + SIGNATURE_WINDOW
    } else {
        end
    };
    let text_at: usize = match find_signature(d, start, window) {
        Some(t) => t,
        None => {
            return None;
        },
    };
    let low: usize = if text_at - start > SIGNATURE_REACH {
        text_at - SIGNATURE_REACH
    } else {
        start
    };
    let mut q: usize = text_at;
    loop
        invariant
            start <= low <= q <= text_at,
            text_at + 8 <= end,
            text_at + 8 <= d@.len(),
            signed_data(d@, start as int, end as int) == (match user_data_down(
                d@,
                q as int,
                low as int,
                text_at as int,
                end as int,
            ) {
                None => None,
                Some(q) => Some((q, be32_at(d@, q))),
            }),
        decreases q,
    {
        if d[q] == 0 && d[q + 1] == 0 {
            let len: usize = read_be32(d, q) as usize;
            if 3 <= len && len <= MAX_NAL && len <= end - q - 4 && d[q + 4] % 32 == 6 && q + 4 + len
                > text_at {
                return Some((q, len));
            }
        }
        if q == low {
            assert(user_data_down(d@, q - 1, low as int, text_at as int, end as int) is None);
            return None;
        }
        q = q - 1;
    }
}

proof fn lemma_signature_from(d: Seq<u8>, i: int, end: int)
    requires
        i <= end,
    ensures
        signature_from(d, i, end) matches Some(t) ==> {
            &&& i <= t
            &&& t + 8 <= end
            &&& d.subrange(t, t + 8) == signature()
            &&& forall|k: int| i <= k < t ==> #[trigger] d.subrange(k, k + 8) != signature()
        },
        signature_from(d, i, end) is None ==> forall|k: int|
            i <= k && k + 8 <= end ==> #[trigger] d.subrange(k, k + 8) != signature(),
    decreases end - i,
{
    if i + 8 <= end && d.subrange(i, i + 8) != signature() {
        lemma_signature_from(d, i + 1, end);
    }
}

proof fn lemma_user_data_down(d: Seq<u8>, q: int, low: int, text_at: int, end: int)
    ensures
        user_data_down(d, q, low, text_at, end) matches Some(k) ==> {
            &&& low <= k <= q
            &&& user_data_at(d, k, text_at, end)
            &&& forall|j: int| k < j <= q ==> !#[trigger] user_data_at(d, j, text_at, end)
        },
        user_data_down(d, q, low, text_at, end) is None ==> forall|j: int|
            low <= j <= q ==> !#[trigger] user_data_at(d, j, text_at, end),
    decreases q - low + 1,
{
    if q >= low && !user_data_at(d, q, text_at, end) {
        lemma_user_data_down(d, q - 1, low, text_at, end);
    }
}

/// The text `options:`, as bytes, stands first at `t` of all positions from `start` on.
pub open spec fn is_first_signature(d: Seq<u8>, start: int, t: int) -> bool {
    &&& start <= t
    &&& d.subrange(t, t + 8) == seq![0x6fu8, 0x70, 0x74, 0x69, 0x6f, 0x6e, 0x73, 0x3a]
    &&& forall|k: int|
        start <= k < t ==> #[trigger] d.subrange(k, k + 8) != seq![
            0x6fu8,
            0x70,
            0x74,
            0x69,
            0x6f,
            0x6e,
            0x73,
            0x3a,
        ]
}

proof fn lemma_signature_at(d: Seq<u8>, start: int, end: int, t: int)
    requires
        0 <= start <= end,
        is_first_signature(d, start, t),
        t + 8 <= start + 4_000_000,
        t + 8 <= end,
    ensures
        signature_from(d, start, min_int(start + SIGNATURE_WINDOW, end)) == Some(t),
{
    let window = min_int(start + SIGNATURE_WINDOW, end);
    lemma_signature_from(d, start, window);
    assert(d.subrange(t, t + 8) == signature());
    if signature_from(d, start, window) is Some {
        let k = signature_from(d, start, window)->0;
        if k < t {
            assert(d.subrange(k, k + 8) != signature());
        }
    }
}

/// User data that x264 signed is found: where its text first stands at `t`, within
/// 4,000,000 bytes, and the length of a unit of user data (type 6, from 3 to 2^24 - 1
/// bytes, of which the first two of the length are 0) stands at `q`, at most 300 bytes
/// before the text, and the unit reaches beyond `t` and ends by `end`, that unit is
/// found, or one that starts behind it.
pub proof fn law_signed_data_is_found(
    d: Seq<u8>,
    start: int,
    end: int,
    t: int,
    q: int,
    len: u32,
)
    requires
        0 <= start <= q <= t,
        t + 8 <= d.len(),
        is_first_signature(d, start, t),
        t + 8 <= start + 4_000_000,
        t + 8 <= end,
        t - q <= 300,
        d.subrange(q, q + 4) == be32_bytes(len),
        3 <= len < 0x1_0000,
        d[q + 4] % 32 == 6,
        t < q + 4 + len <= end,
    ensures
        signed_data(d, start, end) matches Some((k, n)) && q <= k <= t && (k == q ==> n == len),
{
    lemma_signature_at(d, start, end, t);
    let low = max_int(start, t - SIGNATURE_REACH);
    lemma_user_data_down(d, t, low, t, end);
    let four = d.subrange(q, q + 4);
    assert(four[0] == d[q] && four[1] == d[q + 1] && four[2] == d[q + 2] && four[3] == d[q + 3]);
    assert(be32_at(d, q) == len);
    assert(user_data_at(d, q, t, end));
}

/// What is found as signed user data is: its text first stands at some `t`, within
/// 4,000,000 bytes; its length stands at most 300 bytes before the text; it is of
/// type 6, has from 3 to 65535 bytes, reaches beyond the text and ends by `end`; and
/// no other such unit starts between it and the text.
pub proof fn law_what_is_found_is_signed(d: Seq<u8>, start: int, end: int)
    requires
        0 <= start <= end <= d.len(),
        signed_data(d, start, end) is Some,
    ensures
        ({
            let (q, len) = signed_data(d, start, end)->0;
            exists|t: int| #[trigger]
                is_first_signature(d, start, t) && t + 8 <= start + 4_000_000 && t + 8 <= end
                    && start <= q && t - 300 <= q <= t && d.subrange(q, q + 4) == be32_bytes(
                    len as u32,
                ) && 3 <= len < 0x1_0000 && d[q + 4] % 32 == 6 && t < q + 4 + len <= end && forall|
                    k: int,
                |
                    q < k <= t ==> !((#[trigger] d[k]) == 0 && d[k + 1] == 0 && 3 <= be32_at(d, k)
                        && d[k + 4] % 32 == 6 && t < k + 4 + be32_at(d, k) <= end)
        }),
{
    let window = min_int(start + SIGNATURE_WINDOW, end);
    lemma_signature_from(d, start, window);
    let t = signature_from(d, start, window)->0;
    assert(is_first_signature(d, start, t));
    let low = max_int(start, t - SIGNATURE_REACH);
    lemma_user_data_down(d, t, low, t, end);
    let (q, len) = signed_data(d, start, end)->0;
    assert(user_data_at(d, q, t, end));
    assert(d.subrange(q, q + 4) =~= be32_bytes(len as u32));
    assert forall|k: int| q < k <= t implies !((#[trigger] d[k]) == 0 && d[k + 1] == 0 && 3
        <= be32_at(d, k) && d[k + 4] % 32 == 6 && t < k + 4 + be32_at(d, k) <= end) by {
        assert(!user_data_at(d, k, t, end));
    }
}

/// Where the text does not stand within 4,000,000 bytes, nothing is found.
pub proof fn law_no_signature_no_data(d: Seq<u8>, start: int, end: int)
    requires
        0 <= start <= end <= d.len(),
        forall|k: int|
            start <= k && k + 8 <= start + 4_000_000 && k + 8 <= end ==> #[trigger] d.subrange(
                k,
                k + 8,
            ) != seq![0x6fu8, 0x70, 0x74, 0x69, 0x6f, 0x6e, 0x73, 0x3a],
    ensures
        signed_data(d, start, end) is None,
{
    lemma_signature_from(d, start, min_int(start + SIGNATURE_WINDOW, end));
}

/// The contents of a media data box start behind its header: 8 bytes, or 16 where
/// its size is 1 and the real one follows.
pub proof fn law_media_data_starts_behind_header(d: Seq<u8>, off: int)
    requires
        0 <= off,
        off + 8 <= d.len(),
        d.subrange(off + 4, off + 8) == seq![0x6du8, 0x64, 0x61, 0x74],
    ensures
        d.subrange(off, off + 4) != be32_bytes(1) ==> mdat_from(d, off) == Some(off + 8),
        d.subrange(off, off + 4) == be32_bytes(1) ==> mdat_from(d, off) == if off + 16 <= d.len() {
            Some(off + 16)
        } else {
            None
        },
{
    assert(d.subrange(off, off + 4) == be32_bytes(1) <==> be32_at(d, off) == 1) by {
        let four = d.subrange(off, off + 4);
        assert(four[0] == d[off] && four[1] == d[off + 1] && four[2] == d[off + 2] && four[3]
            == d[off + 3]);
        if be32_at(d, off) == 1 {
            assert(four =~= be32_bytes(1));
        }
    }
}

/// A box of another type is passed over: what is behind it decides. Its size counts
/// its header of 8 bytes.
pub proof fn law_other_box_is_passed(d: Seq<u8>, off: int, size: u32)
    requires
        0 <= off,
        8 <= size,
        off + size <= d.len(),
        d.subrange(off, off + 4) == be32_bytes(size),
        d.subrange(off + 4, off + 8) != seq![0x6du8, 0x64, 0x61, 0x74],
    ensures
        mdat_from(d, off) == mdat_from(d, off + size),
{
    let four = d.subrange(off, off + 4);
    assert(four[0] == d[off] && four[1] == d[off + 1] && four[2] == d[off + 2] && four[3] == d[off
        + 3]);
    assert(be32_at(d, off) == size);
}

/// A box of another type whose size stands in 64 bits is passed over. Its size counts
/// its header of 16 bytes.
pub proof fn law_large_box_is_passed(d: Seq<u8>, off: int, size: u64)
    requires
        0 <= off,
        16 <= size,
        off + size <= d.len(),
        d.subrange(off, off + 4) == be32_bytes(1),
        d.subrange(off + 4, off + 8) != seq![0x6du8, 0x64, 0x61, 0x74],
        d.subrange(off + 8, off + 16) == be64_bytes(size),
    ensures
        mdat_from(d, off) == mdat_from(d, off + size),
{
    lemma_number_at(d, off, 1);
    let eight = d.subrange(off + 8, off + 16);
    let hi = (size / 0x1_0000_0000) as u32;
    let lo = (size % 0x1_0000_0000) as u32;
    assert(d.subrange(off + 8, off + 12) =~= eight.subrange(0, 4));
    assert(d.subrange(off + 12, off + 16) =~= eight.subrange(4, 8));
    assert(eight.subrange(0, 4) =~= be32_bytes(hi));
    assert(eight.subrange(4, 8) =~= be32_bytes(lo));
    lemma_number_at(d, off + 8, hi);
    lemma_number_at(d, off + 12, lo);
    assert(be64_at(d, off + 8) == size);
}

proof fn lemma_number_at(d: Seq<u8>, i: int, v: u32)
    requires
        0 <= i,
        i + 4 <= d.len(),
        d.subrange(i, i + 4) == be32_bytes(v),
    ensures
        be32_at(d, i) == v,
{
    let four = d.subrange(i, i + 4);
    assert(four[0] == d[i] && four[1] == d[i + 1] && four[2] == d[i + 2] && four[3] == d[i + 3]);
}

/// Where no box starts, there is no media data: fewer than 8 bytes are left, or the
/// size of a box of another type does not count its own header, or its end lies
/// outside.
pub proof fn law_broken_box_ends_the_search(d: Seq<u8>, off: int, size: u32)
    requires
        0 <= off,
    ensures
        off + 8 > d.len() ==> mdat_from(d, off) is None,
        off + 8 <= d.len() && d.subrange(off, off + 4) == be32_bytes(size) && size != 1
            && d.subrange(off + 4, off + 8) != seq![0x6du8, 0x64, 0x61, 0x74] && (size < 8 || off
            + size > d.len()) ==> mdat_from(d, off) is None,
{
    if off + 8 <= d.len() && d.subrange(off, off + 4) == be32_bytes(size) {
        let four = d.subrange(off, off + 4);
        assert(four[0] == d[off] && four[1] == d[off + 1] && four[2] == d[off + 2] && four[3]
            == d[off + 3]);
        assert(be32_at(d, off) == size);
    }
}

} // verus!
