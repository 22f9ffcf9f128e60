//! What a file of video that was laid out holds true.

use crate::bytes::{be32_at, be32_bytes, be64_at, be64_bytes, law_be32_read_back};
use crate::frames::{
    frames_in_order, header_bytes, is_stream, last_reference, law_frames_are_due,
    law_stream_is_recovered, number_at, slice_at, split_from, Frame,
};
use crate::mdat::{box_len, mdat_from, mdat_tag};
use crate::mp4::{ftyp_box, law_box_reads_back, BRANDS, FTYP, ISOM, MDAT};
use crate::video::{
    delay_of, file_head, first_sample, is_big, lemma_delay_covers, payload_len, ranges_of, runs_of,
    shift_of,
};
use vstd::prelude::*;

verus! {

/// The bytes of `frames` in `d`, lengths and units, one frame after the other.
pub open spec fn stored_bytes(d: Seq<u8>, frames: Seq<Frame>) -> Seq<u8>
    decreases frames.len(),
{
    if frames.len() == 0 {
        Seq::empty()
    } else {
        let f = frames.last();
        stored_bytes(d, frames.drop_last()) + d.subrange(f.pos as int, f.end())
    }
}

/// The numbers that `runs` stands for.
pub open spec fn expanded(runs: Seq<(u32, u32)>) -> Seq<u32>
    decreases runs.len(),
{
    if runs.len() == 0 {
        Seq::empty()
    } else {
        expanded(runs.drop_last()) + Seq::new(runs.last().0 as nat, |i: int| runs.last().1)
    }
}

/// Runs stand for the numbers they were made from, and no two neighbours could be
/// one run.
pub proof fn law_runs_expand(s: Seq<u32>)
    requires
        s.len() <= u32::MAX,
    ensures
        expanded(runs_of(s)) == s,
        forall|k: int|
            0 < k < runs_of(s).len() ==> runs_of(s)[k - 1].1 != (#[trigger] runs_of(s)[k]).1,
    decreases s.len(),
{
    if s.len() == 0 {
        assert(expanded(runs_of(s)) =~= s);
    } else {
        let t = s.drop_last();
        law_runs_expand(t);
        let r = runs_of(t);
        let now = runs_of(s);
        if r.len() > 0 && r.last().1 == s.last() {
            let c = r.last().0;
            assert(expanded(r).len() == t.len());
            assert(expanded(r) == expanded(r.drop_last()) + Seq::new(c as nat, |i: int| s.last()));
            assert(c <= t.len());
            assert(now.drop_last() =~= r.drop_last());
            assert(now.last() == ((c + 1) as u32, s.last()));
            assert(Seq::new((c + 1) as nat, |i: int| s.last()) =~= Seq::new(
                c as nat,
                |i: int| s.last(),
            ).push(s.last()));
            assert(expanded(now) =~= t.push(s.last()));
            assert forall|k: int| 0 < k < now.len() implies now[k - 1].1 != (
            #[trigger] now[k]).1 by {
                assert(r[k - 1].1 != r[k].1);
                assert(now[k - 1] == r[k - 1]);
                assert(now[k].1 == r[k].1);
            }
        } else {
            assert(now.drop_last() =~= r);
            assert(Seq::new(1nat, |i: int| s.last()) =~= seq![s.last()]);
            assert(expanded(now) =~= t.push(s.last()));
            assert forall|k: int| 0 < k < now.len() implies now[k - 1].1 != (
            #[trigger] now[k]).1 by {
                if k < r.len() {
                    assert(r[k - 1].1 != r[k].1);
                }
            }
        }
        assert(t.push(s.last()) =~= s);
    }
}

/// The shift that the index stores for frame `i`: none at all where no frame is
/// held back.
pub open spec fn stored_shift(disp: Seq<usize>, i: int) -> int {
    if delay_of(disp) > 0 {
        shift_of(disp, i)
    } else {
        0
    }
}

/// A permutation under which no place comes early moves none.
proof fn lemma_no_delay_is_identity(disp: Seq<usize>, i: int)
    requires
        disp.no_duplicates(),
        forall|k: int| 0 <= k < disp.len() ==> (#[trigger] disp[k]) < disp.len(),
        delay_of(disp) == 0,
        0 <= i < disp.len(),
    ensures
        disp[i] == i,
    decreases disp.len() - i,
{
    lemma_delay_covers(disp, i);
    if disp[i] > i {
        lemma_no_delay_is_identity(disp, disp[i] as int);
        assert(disp[disp[i] as int] == disp[i]);
    }
}

/// The times in the index show the frames in the order of `disp`: decoding time
/// plus shift, less what is held back at the start, is the frame's place. No shift
/// is negative.
pub proof fn law_index_shows_in_order(disp: Seq<usize>, i: int)
    requires
        disp.no_duplicates(),
        forall|k: int| 0 <= k < disp.len() ==> (#[trigger] disp[k]) < disp.len(),
        0 <= i < disp.len(),
    ensures
        stored_shift(disp, i) >= 0,
        i + stored_shift(disp, i) - delay_of(disp) == disp[i],
{
    lemma_delay_covers(disp, i);
    if delay_of(disp) == 0 {
        lemma_no_delay_is_identity(disp, i);
    }
}

proof fn lemma_payload_len(d: Seq<u8>, frames: Seq<Frame>)
    requires
        forall|k: int| 0 <= k < frames.len() ==> (#[trigger] frames[k]).lies_in(d),
    ensures
        stored_bytes(d, frames).len() == payload_len(frames),
    decreases frames.len(),
{
    if frames.len() > 0 {
        assert forall|k: int| 0 <= k < frames.len() - 1 implies (
        #[trigger] frames.drop_last()[k]).lies_in(d) by {
            assert(frames[k].lies_in(d));
        }
        lemma_payload_len(d, frames.drop_last());
        assert(frames[frames.len() - 1].lies_in(d));
    }
}

proof fn lemma_ftyp()
    ensures
        ftyp_box().len() == 32,
        be32_at(ftyp_box(), 0) == 32,
        ftyp_box().subrange(4, 8) == FTYP@,
{
    law_box_reads_back(FTYP@, ISOM@ + be32_bytes(512) + BRANDS@);
}

/// The brands are stepped over.
proof fn lemma_behind_brands(f: Seq<u8>, rest: Seq<u8>)
    requires
        f.len() == 32,
        be32_at(f, 0) == 32,
        f.subrange(4, 8) == FTYP@,
    ensures
        mdat_from(f + rest, 0) == mdat_from(f + rest, 32),
{
    let file = f + rest;
    assert(be32_at(file, 0) == 32);
    assert(file.subrange(4, 8) =~= FTYP@);
    assert(FTYP@[0] != mdat_tag()[0]);
}

proof fn lemma_short_header(f: Seq<u8>, n: u32, rest: Seq<u8>)
    requires
        f.len() == 32,
        n > 1,
    ensures
        ({
            let file = f + (be32_bytes(n) + MDAT@) + rest;
            mdat_from(file, 32) == Some(40int) && box_len(file, 32) == n
        }),
{
    let file = f + (be32_bytes(n) + MDAT@) + rest;
    law_be32_read_back(n, f, MDAT@ + rest);
    assert(f + be32_bytes(n) + (MDAT@ + rest) =~= file);
    assert(MDAT@ =~= mdat_tag());
    assert(file.subrange(36, 40) =~= MDAT@);
}

proof fn lemma_long_header(f: Seq<u8>, n: u64, rest: Seq<u8>)
    requires
        f.len() == 32,
    ensures
        ({
            let file = f + (be32_bytes(1) + MDAT@ + be64_bytes(n)) + rest;
            mdat_from(file, 32) == Some(48int) && box_len(file, 32) == n
        }),
{
    let one = be32_bytes(1);
    let hi = be32_bytes((n / 0x1_0000_0000) as u32);
    let lo = be32_bytes((n % 0x1_0000_0000) as u32);
    let file = f + (one + MDAT@ + be64_bytes(n)) + rest;
    law_be32_read_back(1, f, MDAT@ + be64_bytes(n) + rest);
    assert(f + one + (MDAT@ + be64_bytes(n) + rest) =~= file);
    assert(MDAT@ =~= mdat_tag());
    assert(file.subrange(36, 40) =~= MDAT@);
    law_be32_read_back((n / 0x1_0000_0000) as u32, f + one + MDAT@, lo + rest);
    assert(f + one + MDAT@ + hi + (lo + rest) =~= file);
    law_be32_read_back((n % 0x1_0000_0000) as u32, f + one + MDAT@ + hi, rest);
    assert(f + one + MDAT@ + hi + lo + rest =~= file);
    assert(be64_at(file, 40) == n);
}

/// The media data of a file that was laid out is found, it starts where the index
/// says that the first sample is, and its box ends where the index starts.
pub proof fn law_media_data_is_found(stored: Seq<u8>, moov: Seq<u8>)
    requires
        stored.len() + 16 <= u64::MAX,
    ensures
        ({
            let head = file_head(stored.len() as int);
            let file = head + stored + moov;
            &&& head.len() == first_sample(stored.len() as int)
            &&& mdat_from(file, 0) == Some(head.len() as int)
            &&& 32 + box_len(file, 32) == head.len() + stored.len()
        }),
{
    let n = stored.len() as int;
    let file = file_head(n) + stored + moov;
    let f = ftyp_box();
    lemma_ftyp();
    let header = if is_big(n) {
        be32_bytes(1) + MDAT@ + be64_bytes((n + 16) as u64)
    } else {
        be32_bytes((n + 8) as u32) + MDAT@
    };
    assert(file =~= f + (header + stored + moov));
    assert(file =~= f + header + (stored + moov));
    lemma_behind_brands(f, header + stored + moov);
    if is_big(n) {
        lemma_long_header(f, (n + 16) as u64, stored + moov);
    } else {
        lemma_short_header(f, (n + 8) as u32, stored + moov);
    }
}

/// The audio of a file that was laid out is found where the index says, and its
/// box ends where the index starts.
pub proof fn law_audio_data_is_found(stored: Seq<u8>, moov: Seq<u8>)
    requires
        stored.len() + 8 <= 0xffff_0000,
    ensures
        ({
            let head = ftyp_box() + be32_bytes((stored.len() + 8) as u32) + MDAT@;
            let file = head + stored + moov;
            &&& head.len() == 40
            &&& mdat_from(file, 0) == Some(40int)
            &&& 32 + box_len(file, 32) == 40 + stored.len()
        }),
{
    let head = ftyp_box() + be32_bytes((stored.len() + 8) as u32) + MDAT@;
    assert(head =~= file_head(stored.len() as int));
    law_media_data_is_found(stored, moov);
}

/// `frames` one right behind the other from `at` on.
pub open spec fn relocated(frames: Seq<Frame>, at: int) -> Seq<Frame> {
    Seq::new(
        frames.len(),
        |i: int|
            Frame {
                pos: (at + payload_len(frames.take(i))) as usize,
                len: frames[i].len,
                hdr: frames[i].hdr,
            },
    )
}

proof fn lemma_payload_step(frames: Seq<Frame>, k: int)
    requires
        0 <= k < frames.len(),
    ensures
        payload_len(frames.take(k + 1)) == payload_len(frames.take(k)) + 4 + frames[k].len,
        payload_len(frames.take(k)) >= 0,
    decreases k,
{
    assert(frames.take(k + 1).drop_last() =~= frames.take(k));
    if k > 0 {
        lemma_payload_step(frames, k - 1);
    } else {
        assert(frames.take(0) =~= Seq::<Frame>::empty());
    }
}

proof fn lemma_payload_grows(frames: Seq<Frame>, i: int, k: int)
    requires
        0 <= i <= k <= frames.len(),
    ensures
        payload_len(frames.take(i)) <= payload_len(frames.take(k)),
    decreases k - i,
{
    if i < k {
        lemma_payload_step(frames, i);
        lemma_payload_grows(frames, i + 1, k);
    }
}

/// Each frame's bytes stand in the stored bytes, behind those of the frames before.
pub proof fn law_frame_is_stored(d: Seq<u8>, frames: Seq<Frame>, k: int)
    requires
        0 <= k < frames.len(),
        forall|i: int| 0 <= i < frames.len() ==> (#[trigger] frames[i]).lies_in(d),
    ensures
        0 <= payload_len(frames.take(k)),
        payload_len(frames.take(k + 1)) <= stored_bytes(d, frames).len(),
        stored_bytes(d, frames).subrange(
            payload_len(frames.take(k)),
            payload_len(frames.take(k + 1)),
        ) == d.subrange(frames[k].pos as int, frames[k].end()),
    decreases frames.len(),
{
    let before = frames.drop_last();
    assert forall|i: int| 0 <= i < before.len() implies (#[trigger] before[i]).lies_in(d) by {
        assert(frames[i].lies_in(d));
    }
    lemma_payload_len(d, frames);
    lemma_payload_len(d, before);
    lemma_payload_step(frames, k);
    assert(frames[k].lies_in(d));
    let all = stored_bytes(d, frames);
    if k == frames.len() - 1 {
        assert(frames.take(k) =~= before);
        assert(frames.take(k + 1) =~= frames);
        assert(all.subrange(payload_len(before), payload_len(frames)) =~= d.subrange(
            frames[k].pos as int,
            frames[k].end(),
        ));
    } else {
        law_frame_is_stored(d, before, k);
        assert(frames.take(k) =~= before.take(k));
        assert(frames.take(k + 1) =~= before.take(k + 1));
        assert(all.subrange(
            payload_len(frames.take(k)),
            payload_len(frames.take(k + 1)),
        ) =~= stored_bytes(d, before).subrange(
            payload_len(frames.take(k)),
            payload_len(frames.take(k + 1)),
        ));
    }
}

/// What is read of a unit of four bytes or more is in the unit itself.
proof fn lemma_same_slice(
    d: Seq<u8>,
    q: int,
    end: int,
    out: Seq<u8>,
    at: int,
    out_end: int,
    len: int,
    log2_fn: nat,
)
    requires
        0 <= q,
        0 <= at,
        len >= 4,
        q + 4 + len <= d.len(),
        at + 4 + len <= out_end <= out.len(),
        slice_at(d, q, end) == Some(len),
        out.subrange(at, at + 4 + len) == d.subrange(q, q + 4 + len),
    ensures
        slice_at(out, at, out_end) == Some(len),
        number_at(out, at, len, log2_fn) == number_at(d, q, len, log2_fn),
        out[at + 4] == d[q + 4],
{
    let a = out.subrange(at, at + 4 + len);
    let b = d.subrange(q, q + 4 + len);
    assert forall|i: int| 0 <= i < 4 + len implies out[at + i] == #[trigger] d[q + i] by {
        assert(a[i] == b[i]);
        assert(a[i] == out[at + i]);
    }
    assert(out[at + 0] == d[q + 0]);
    assert(out[at + 1] == d[q + 1]);
    assert(out[at + 2] == d[q + 2]);
    assert(out[at + 3] == d[q + 3]);
    assert(out[at + 4] == d[q + 4]);
    assert(be32_at(out, at) == be32_at(d, q));
    assert(out.subrange(at + 5, at + 8) =~= a.subrange(5, 8));
    assert(d.subrange(q + 5, q + 8) =~= b.subrange(5, 8));
    let most = if len - 1 < 12 {
        len - 1
    } else {
        12
    };
    assert(out.subrange(at + 5, at + 5 + most) =~= a.subrange(5, 5 + most));
    assert(d.subrange(q + 5, q + 5 + most) =~= b.subrange(5, 5 + most));
    assert(header_bytes(out, at, len, 12) == header_bytes(d, q, len, 12));
}

proof fn lemma_relocated_stream(
    d: Seq<u8>,
    q: int,
    end: int,
    log2_fn: nat,
    limit: nat,
    out: Seq<u8>,
    at: int,
    k: int,
)
    requires
        0 <= q <= end <= d.len() <= usize::MAX,
        ({
            let frames = split_from(d, q, end, log2_fn, 0, limit).0;
            let stored = stored_bytes(d, frames);
            &&& forall|i: int| 0 <= i < frames.len() ==> (#[trigger] frames[i]).len >= 4
            &&& 0 <= at
            &&& at + stored.len() <= out.len() <= usize::MAX
            &&& out.subrange(at, at + stored.len()) == stored
            &&& 0 <= k <= frames.len()
        }),
    ensures
        ({
            let frames = split_from(d, q, end, log2_fn, 0, limit).0;
            is_stream(
                out,
                relocated(frames, at).skip(k),
                at + payload_len(frames.take(k)),
                at + payload_len(frames),
                log2_fn,
                last_reference(frames.take(k), log2_fn, 0),
            )
        }),
    decreases split_from(d, q, end, log2_fn, 0, limit).0.len() - k,
{
    let frames = split_from(d, q, end, log2_fn, 0, limit).0;
    let moved = relocated(frames, at);
    let stored = stored_bytes(d, frames);
    assert forall|i: int| 0 <= i < frames.len() implies (#[trigger] frames[i]).lies_in(d) by {
        law_frames_are_due(d, q, end, log2_fn, 0, limit, i);
    }
    lemma_payload_len(d, frames);
    if k == frames.len() {
        assert(frames.take(k) =~= frames);
        assert(moved.skip(k) =~= Seq::<Frame>::empty());
    } else {
        let f = frames[k];
        let rest = moved.skip(k);
        law_frames_are_due(d, q, end, log2_fn, 0, limit, k);
        law_frame_is_stored(d, frames, k);
        lemma_payload_step(frames, k);
        lemma_payload_grows(frames, k + 1, frames.len() as int);
        assert(frames.take(frames.len() as int) =~= frames);
        let here = at + payload_len(frames.take(k));
        assert(f.len >= 4);
        assert(out.subrange(here, here + 4 + f.len) =~= d.subrange(f.pos as int, f.end())) by {
            assert(out.subrange(here, here + 4 + f.len) =~= out.subrange(
                at,
                at + stored.len(),
            ).subrange(payload_len(frames.take(k)), payload_len(frames.take(k + 1))));
        }
        lemma_same_slice(
            d,
            f.pos as int,
            end,
            out,
            here,
            at + payload_len(frames),
            f.len as int,
            log2_fn,
        );
        assert(rest[0].pos == here);
        assert(rest[0].len == f.len && rest[0].hdr == f.hdr);
        lemma_relocated_stream(d, q, end, log2_fn, limit, out, at, k + 1);
        assert(rest.skip(1) =~= moved.skip(k + 1));
        assert(frames.take(k + 1).drop_last() =~= frames.take(k));
        assert(frames.take(k + 1).last() == f);
        assert(rest[0].end() == at + payload_len(frames.take(k + 1)));
    }
}

/// Frames that were split off and stored one behind the other are found again: a
/// scan of the stored bytes gives the same frames and no gap. A unit of three
/// bytes is too short to be told without the byte behind it.
pub proof fn law_stored_frames_are_found_again(
    d: Seq<u8>,
    q: int,
    end: int,
    log2_fn: nat,
    limit: nat,
    out: Seq<u8>,
    at: int,
)
    requires
        0 <= q <= end <= d.len() <= usize::MAX,
        ({
            let frames = split_from(d, q, end, log2_fn, 0, limit).0;
            let stored = stored_bytes(d, frames);
            &&& forall|i: int| 0 <= i < frames.len() ==> (#[trigger] frames[i]).len >= 4
            &&& 0 <= at
            &&& at + stored.len() <= out.len() <= usize::MAX
            &&& out.subrange(at, at + stored.len()) == stored
        }),
    ensures
        ({
            let frames = split_from(d, q, end, log2_fn, 0, limit).0;
            split_from(
                out,
                at,
                at + stored_bytes(d, frames).len(),
                log2_fn,
                0,
                frames.len(),
            ) == (relocated(frames, at), Seq::<(usize, usize)>::empty())
        }),
{
    let frames = split_from(d, q, end, log2_fn, 0, limit).0;
    assert forall|i: int| 0 <= i < frames.len() implies (#[trigger] frames[i]).lies_in(d) by {
        law_frames_are_due(d, q, end, log2_fn, 0, limit, i);
    }
    lemma_payload_len(d, frames);
    lemma_relocated_stream(d, q, end, log2_fn, limit, out, at, 0);
    let moved = relocated(frames, at);
    assert(moved.skip(0) =~= moved);
    assert(frames.take(0) =~= Seq::<Frame>::empty());
    law_stream_is_recovered(
        out,
        moved,
        at,
        at + payload_len(frames),
        log2_fn,
        0,
        frames.len(),
    );
}

/// Frames that do not overlap take no more bytes than lie between the ends, and
/// each takes four or more.
pub proof fn law_payload_fits(frames: Seq<Frame>, from: int, to: int)
    requires
        from <= to,
        frames_in_order(frames, from, to),
    ensures
        4 * frames.len() <= payload_len(frames) <= to - from,
    decreases frames.len(),
{
    if frames.len() > 0 {
        let before = frames.drop_last();
        let last = frames.last();
        assert(frames[frames.len() - 1] == last);
        assert forall|k: int| 0 <= k < before.len() implies from <= (#[trigger] before[k]).pos
            && before[k].end() <= last.pos by {
            assert(frames[k].end() <= frames[frames.len() - 1].pos);
        }
        assert forall|j: int, k: int| 0 <= j < k < before.len() implies (
        #[trigger] before[j]).end() <= (#[trigger] before[k]).pos by {
            assert(frames[j].end() <= frames[k].pos);
        }
        law_payload_fits(before, from, last.pos as int);
    }
}

/// What is copied of each frame is its length and its unit, all of it and no more.
pub proof fn law_whole_frames_are_copied(frames: Seq<Frame>, i: int)
    requires
        0 <= i < frames.len(),
        frames[i].pos + 4 + frames[i].len <= usize::MAX,
    ensures
        ranges_of(frames).len() == frames.len(),
        ranges_of(frames)[i].0 == frames[i].pos,
        ranges_of(frames)[i].1 - ranges_of(frames)[i].0 == 4 + frames[i].len,
{
}

} // verus!
