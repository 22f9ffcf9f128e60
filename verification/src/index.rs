//! What a player reads in the index of a file that was laid out.

use crate::audio::{
    audio_entry, audio_handler_name, audio_moov_box, audio_stbl_box, audio_stsd_box,
    stream_descriptor, NOMINAL_DURATION,
};
use crate::bytes::{
    be16_bytes, be32_at, be32_bytes, be32_table, be64_at, be64_bytes, low16, low32, zero_bytes,
};
use crate::frames::Frame;
use crate::layout::{expanded, law_runs_expand};
use crate::mp4::{
    box_bytes, dinf_box, full_box, hdlr_box, matrix_bytes, mdhd_box, mvhd_box, tkhd_box, AVC1, AVCC,
    CO64, CTTS, DINF, EDTS, ELST, ESDS, HDLR, MDHD, MDIA, MINF, MOOV, MP4A, MVHD, SMHD, SOUN, STBL,
    STCO, STSC, STSD, STSS, STSZ, STTS, TKHD, TRAK, VIDE, VMHD,
};
use crate::sps::is_high_profile;
use crate::video::{
    chunk_box, ctts_box, decoder_config, delay_of, edts_box, handler_name, is_big, key_numbers,
    lemma_delay_covers, mdia_box, minf_box, moov_box, payload_len, run_table, runs_of, sample_entry,
    sample_sizes, shift_of, shifts_of, shown_ms, stbl_box, stsc_box, stsd_box, stss_box, stsz_box,
    stts_box, times_fit, VideoOut,
};
use vstd::prelude::*;

verus! {

/// What the first box of type `t` holds, among the boxes that follow one another in
/// `b`.
#[verifier::opaque]
pub open spec fn child(b: Seq<u8>, t: Seq<u8>) -> Option<Seq<u8>>
    decreases b.len(),
{
    if b.len() < 8 {
        None
    } else {
        let size = be32_at(b, 0);
        if size < 8 || size > b.len() {
            None
        } else if b.subrange(4, 8) == t {
            Some(b.subrange(8, size))
        } else {
            child(b.skip(size), t)
        }
    }
}

/// What the box of type `t` in `b` holds.
pub open spec fn inside(b: Seq<u8>, t: Seq<u8>) -> Seq<u8> {
    child(b, t)->0
}

proof fn lemma_be32_at(b: Seq<u8>, i: int, v: u32)
    requires
        0 <= i,
        i + 4 <= b.len(),
        b.subrange(i, i + 4) == be32_bytes(v),
    ensures
        be32_at(b, i) == v,
{
    let four = b.subrange(i, i + 4);
    assert(four[0] == b[i] && four[1] == b[i + 1] && four[2] == b[i + 2] && four[3] == b[i + 3]);
}

proof fn lemma_child_here(t: Seq<u8>, body: Seq<u8>, rest: Seq<u8>)
    requires
        t.len() == 4,
        8 + body.len() < 0x1_0000_0000,
    ensures
        child(box_bytes(t, body) + rest, t) == Some(body),
{
    reveal(child);
    let b = box_bytes(t, body) + rest;
    let size = (8 + body.len()) as u32;
    assert(low32(8 + body.len() as int) == size);
    assert(b.subrange(0, 4) =~= be32_bytes(size));
    lemma_be32_at(b, 0, size);
    assert(b.subrange(4, 8) =~= t);
    assert(b.subrange(8, size as int) =~= body);
}

/// The type that these four letters name.
pub open spec fn letters(a: u8, b: u8, c: u8, d: u8) -> Seq<u8> {
    seq![a, b, c, d]
}

proof fn lemma_types()
    ensures
        MOOV@ == letters(0x6d, 0x6f, 0x6f, 0x76),
        MVHD@ == letters(0x6d, 0x76, 0x68, 0x64),
        TRAK@ == letters(0x74, 0x72, 0x61, 0x6b),
        TKHD@ == letters(0x74, 0x6b, 0x68, 0x64),
        EDTS@ == letters(0x65, 0x64, 0x74, 0x73),
        ELST@ == letters(0x65, 0x6c, 0x73, 0x74),
        MDIA@ == letters(0x6d, 0x64, 0x69, 0x61),
        MDHD@ == letters(0x6d, 0x64, 0x68, 0x64),
        HDLR@ == letters(0x68, 0x64, 0x6c, 0x72),
        MINF@ == letters(0x6d, 0x69, 0x6e, 0x66),
        VMHD@ == letters(0x76, 0x6d, 0x68, 0x64),
        SMHD@ == letters(0x73, 0x6d, 0x68, 0x64),
        DINF@ == letters(0x64, 0x69, 0x6e, 0x66),
        STBL@ == letters(0x73, 0x74, 0x62, 0x6c),
        VIDE@ == letters(0x76, 0x69, 0x64, 0x65),
        SOUN@ == letters(0x73, 0x6f, 0x75, 0x6e),
{
    assert(MOOV@ =~= letters(0x6d, 0x6f, 0x6f, 0x76));
    assert(MVHD@ =~= letters(0x6d, 0x76, 0x68, 0x64));
    assert(TRAK@ =~= letters(0x74, 0x72, 0x61, 0x6b));
    assert(TKHD@ =~= letters(0x74, 0x6b, 0x68, 0x64));
    assert(EDTS@ =~= letters(0x65, 0x64, 0x74, 0x73));
    assert(ELST@ =~= letters(0x65, 0x6c, 0x73, 0x74));
    assert(MDIA@ =~= letters(0x6d, 0x64, 0x69, 0x61));
    assert(MDHD@ =~= letters(0x6d, 0x64, 0x68, 0x64));
    assert(HDLR@ =~= letters(0x68, 0x64, 0x6c, 0x72));
    assert(MINF@ =~= letters(0x6d, 0x69, 0x6e, 0x66));
    assert(VMHD@ =~= letters(0x76, 0x6d, 0x68, 0x64));
    assert(SMHD@ =~= letters(0x73, 0x6d, 0x68, 0x64));
    assert(DINF@ =~= letters(0x64, 0x69, 0x6e, 0x66));
    assert(STBL@ =~= letters(0x73, 0x74, 0x62, 0x6c));
    assert(VIDE@ =~= letters(0x76, 0x69, 0x64, 0x65));
    assert(SOUN@ =~= letters(0x73, 0x6f, 0x75, 0x6e));
}

proof fn lemma_table_types()
    ensures
        STSD@ == letters(0x73, 0x74, 0x73, 0x64),
        STTS@ == letters(0x73, 0x74, 0x74, 0x73),
        CTTS@ == letters(0x63, 0x74, 0x74, 0x73),
        STSS@ == letters(0x73, 0x74, 0x73, 0x73),
        STSC@ == letters(0x73, 0x74, 0x73, 0x63),
        STSZ@ == letters(0x73, 0x74, 0x73, 0x7a),
        STCO@ == letters(0x73, 0x74, 0x63, 0x6f),
        CO64@ == letters(0x63, 0x6f, 0x36, 0x34),
        AVC1@ == letters(0x61, 0x76, 0x63, 0x31),
        AVCC@ == letters(0x61, 0x76, 0x63, 0x43),
        MP4A@ == letters(0x6d, 0x70, 0x34, 0x61),
        ESDS@ == letters(0x65, 0x73, 0x64, 0x73),
{
    assert(STSD@ =~= letters(0x73, 0x74, 0x73, 0x64));
    assert(STTS@ =~= letters(0x73, 0x74, 0x74, 0x73));
    assert(CTTS@ =~= letters(0x63, 0x74, 0x74, 0x73));
    assert(STSS@ =~= letters(0x73, 0x74, 0x73, 0x73));
    assert(STSC@ =~= letters(0x73, 0x74, 0x73, 0x63));
    assert(STSZ@ =~= letters(0x73, 0x74, 0x73, 0x7a));
    assert(STCO@ =~= letters(0x73, 0x74, 0x63, 0x6f));
    assert(CO64@ =~= letters(0x63, 0x6f, 0x36, 0x34));
    assert(AVC1@ =~= letters(0x61, 0x76, 0x63, 0x31));
    assert(AVCC@ =~= letters(0x61, 0x76, 0x63, 0x43));
    assert(MP4A@ =~= letters(0x6d, 0x70, 0x34, 0x61));
    assert(ESDS@ =~= letters(0x65, 0x73, 0x64, 0x73));
}

proof fn lemma_letters_differ(a: Seq<u8>, b: Seq<u8>)
    requires
        a.len() == 4,
        b.len() == 4,
        a[0] != b[0] || a[1] != b[1] || a[2] != b[2] || a[3] != b[3],
    ensures
        a != b,
{
}

proof fn lemma_containers_differ()
    ensures
        MOOV@.len() == 4 && MVHD@.len() == 4 && TRAK@.len() == 4 && TKHD@.len() == 4,
        EDTS@.len() == 4 && MDIA@.len() == 4 && MDHD@.len() == 4 && HDLR@.len() == 4,
        MINF@.len() == 4 && VMHD@.len() == 4 && SMHD@.len() == 4 && DINF@.len() == 4,
        STBL@.len() == 4 && VIDE@.len() == 4 && SOUN@.len() == 4,
        MVHD@ != TRAK@,
        TKHD@ != EDTS@ && TKHD@ != MDIA@ && EDTS@ != MDIA@,
        MDHD@ != HDLR@ && MDHD@ != MINF@ && HDLR@ != MINF@,
        VMHD@ != DINF@ && VMHD@ != STBL@ && DINF@ != STBL@,
        SMHD@ != DINF@ && SMHD@ != STBL@,
{
    lemma_types();
    lemma_letters_differ(MVHD@, TRAK@);
    lemma_letters_differ(TKHD@, EDTS@);
    lemma_letters_differ(TKHD@, MDIA@);
    lemma_letters_differ(EDTS@, MDIA@);
    lemma_letters_differ(MDHD@, HDLR@);
    lemma_letters_differ(MDHD@, MINF@);
    lemma_letters_differ(HDLR@, MINF@);
    lemma_letters_differ(VMHD@, DINF@);
    lemma_letters_differ(VMHD@, STBL@);
    lemma_letters_differ(DINF@, STBL@);
    lemma_letters_differ(SMHD@, DINF@);
    lemma_letters_differ(SMHD@, STBL@);
}

/// A full box holds its version and flags, then its body.
proof fn lemma_full(t: Seq<u8>, flags: u32, body: Seq<u8>)
    ensures
        full_box(t, 0, flags, body) == box_bytes(t, be32_bytes(flags) + body),
{
    assert((0u32 << 24u32) | flags == flags) by (bit_vector);
}

/// The body of a movie header: times in thousandths of a second, the duration, the
/// normal rate, and 2 as the next track's number.
pub proof fn law_movie_header_reads_back(ms: u32, rest: Seq<u8>)
    ensures
        ({
            let b = inside(mvhd_box(ms) + rest, letters(0x6d, 0x76, 0x68, 0x64));
            &&& b.len() == 100
            &&& be32_at(b, 0) == 0
            &&& be32_at(b, 12) == 1000
            &&& be32_at(b, 16) == ms
            &&& be32_at(b, 20) == 0x10000
            &&& be32_at(b, 96) == 2
        }),
{
    let body = be32_bytes(0) + be32_bytes(0) + be32_bytes(1000) + be32_bytes(ms) + be32_bytes(
        0x10000,
    ) + be32_bytes(0x1000000) + zero_bytes(8) + matrix_bytes() + zero_bytes(24) + be32_bytes(2);
    let b = be32_bytes(0) + body;
    lemma_types();
    lemma_full(MVHD@, 0, body);
    lemma_child_here(MVHD@, b, rest);
    assert(b.subrange(0, 4) =~= be32_bytes(0));
    assert(b.subrange(12, 16) =~= be32_bytes(1000));
    assert(b.subrange(16, 20) =~= be32_bytes(ms));
    assert(b.subrange(20, 24) =~= be32_bytes(0x10000));
    assert(b.subrange(96, 100) =~= be32_bytes(2));
    lemma_be32_at(b, 0, 0);
    lemma_be32_at(b, 12, 1000);
    lemma_be32_at(b, 16, ms);
    lemma_be32_at(b, 20, 0x10000);
    lemma_be32_at(b, 96, 2);
}

proof fn lemma_fixed_point(w: u32)
    requires
        w < 0x1_0000,
    ensures
        w << 16u32 == w * 0x1_0000,
{
    assert(w << 16u32 == w * 0x1_0000) by (bit_vector)
        requires
            w < 0x1_0000,
    ;
}

/// The body of a track header: enabled and part of the movie, number 1, the duration,
/// the volume of audio, and the size in pixels as 16.16 fixed point numbers.
pub proof fn law_track_header_reads_back(ms: u32, w: u32, h: u32, audio: bool, rest: Seq<u8>)
    requires
        w < 0x1_0000,
        h < 0x1_0000,
    ensures
        ({
            let b = inside(tkhd_box(ms, w, h, audio) + rest, letters(0x74, 0x6b, 0x68, 0x64));
            &&& b.len() == 84
            &&& be32_at(b, 0) == 3
            &&& be32_at(b, 12) == 1
            &&& be32_at(b, 20) == ms
            &&& be32_at(b, 36) == if audio {
                0x100_0000int
            } else {
                0
            }
            &&& be32_at(b, 76) == w * 0x1_0000
            &&& be32_at(b, 80) == h * 0x1_0000
        }),
{
    let volume: u32 = if audio {
        0x1000000
    } else {
        0
    };
    let body = be32_bytes(0) + be32_bytes(0) + be32_bytes(1) + be32_bytes(0) + be32_bytes(ms)
        + zero_bytes(8) + zero_bytes(4) + be32_bytes(volume) + matrix_bytes() + be32_bytes(w << 16)
        + be32_bytes(h << 16);
    let b = be32_bytes(3) + body;
    lemma_types();
    lemma_full(TKHD@, 3, body);
    lemma_child_here(TKHD@, b, rest);
    lemma_fixed_point(w);
    lemma_fixed_point(h);
    assert(b.subrange(0, 4) =~= be32_bytes(3));
    assert(b.subrange(12, 16) =~= be32_bytes(1));
    assert(b.subrange(20, 24) =~= be32_bytes(ms));
    assert(b.subrange(36, 40) =~= be32_bytes(volume));
    assert(b.subrange(76, 80) =~= be32_bytes(w << 16));
    assert(b.subrange(80, 84) =~= be32_bytes(h << 16));
    lemma_be32_at(b, 0, 3);
    lemma_be32_at(b, 12, 1);
    lemma_be32_at(b, 20, ms);
    lemma_be32_at(b, 36, volume);
    lemma_be32_at(b, 76, w << 16);
    lemma_be32_at(b, 80, h << 16);
}

/// The body of a media header: units per second and the duration in them.
pub proof fn law_media_header_reads_back(ts: u32, dur: u32, rest: Seq<u8>)
    ensures
        ({
            let b = inside(mdhd_box(ts, dur) + rest, letters(0x6d, 0x64, 0x68, 0x64));
            &&& b.len() == 24
            &&& be32_at(b, 0) == 0
            &&& be32_at(b, 12) == ts
            &&& be32_at(b, 16) == dur
        }),
{
    let body = be32_bytes(0) + be32_bytes(0) + be32_bytes(ts) + be32_bytes(dur) + be32_bytes(
        0x55c40000,
    );
    let b = be32_bytes(0) + body;
    lemma_types();
    lemma_full(MDHD@, 0, body);
    lemma_child_here(MDHD@, b, rest);
    assert(b.subrange(0, 4) =~= be32_bytes(0));
    assert(b.subrange(12, 16) =~= be32_bytes(ts));
    assert(b.subrange(16, 20) =~= be32_bytes(dur));
    lemma_be32_at(b, 0, 0);
    lemma_be32_at(b, 12, ts);
    lemma_be32_at(b, 16, dur);
}

/// The body of a handler: the kind of media.
pub proof fn law_handler_reads_back(kind: Seq<u8>, name: Seq<u8>, rest: Seq<u8>)
    requires
        kind.len() == 4,
        name.len() < 100,
    ensures
        inside(hdlr_box(kind, name) + rest, letters(0x68, 0x64, 0x6c, 0x72)).subrange(8, 12) == kind,
{
    let body = zero_bytes(4) + kind + zero_bytes(12) + name;
    let b = be32_bytes(0) + body;
    lemma_types();
    lemma_full(HDLR@, 0, body);
    lemma_child_here(HDLR@, b, rest);
    assert(b.subrange(8, 12) =~= kind);
}

/// The edit of a track: one, of the duration, that starts behind what is held back, at
/// the normal rate.
pub proof fn law_edit_reads_back(ms: u32, hold: int, dur: u32, rest: Seq<u8>)
    requires
        0 <= hold * dur <= u32::MAX,
    ensures
        ({
            let e = inside(edts_box(ms, hold, dur) + rest, letters(0x65, 0x64, 0x74, 0x73));
            let b = inside(e, letters(0x65, 0x6c, 0x73, 0x74));
            &&& b.len() == 20
            &&& be32_at(b, 4) == 1
            &&& be32_at(b, 8) == ms
            &&& be32_at(b, 12) == hold * dur
            &&& be32_at(b, 16) == 0x10000
        }),
{
    let body = be32_bytes(1) + be32_bytes(ms) + be32_bytes((hold * dur) as u32) + be32_bytes(
        0x10000,
    );
    let b = be32_bytes(0) + body;
    let e = full_box(ELST@, 0, 0, body);
    lemma_types();
    lemma_full(ELST@, 0, body);
    lemma_child_here(EDTS@, e, rest);
    assert(e + Seq::<u8>::empty() =~= e);
    lemma_child_here(ELST@, b, Seq::empty());
    assert(b.subrange(4, 8) =~= be32_bytes(1));
    assert(b.subrange(8, 12) =~= be32_bytes(ms));
    assert(b.subrange(12, 16) =~= be32_bytes((hold * dur) as u32));
    assert(b.subrange(16, 20) =~= be32_bytes(0x10000));
    lemma_be32_at(b, 4, 1);
    lemma_be32_at(b, 8, ms);
    lemma_be32_at(b, 12, (hold * dur) as u32);
    lemma_be32_at(b, 16, 0x10000);
}

proof fn lemma_table_at(s: Seq<u32>, i: int)
    requires
        0 <= i < s.len(),
    ensures
        be32_table(s).len() == 4 * s.len(),
        be32_table(s).subrange(4 * i, 4 * i + 4) == be32_bytes(s[i]),
    decreases s.len(),
{
    lemma_table_len(s.drop_last());
    let t = be32_table(s.drop_last());
    if i == s.len() - 1 {
        assert(be32_table(s).subrange(4 * i, 4 * i + 4) =~= be32_bytes(s[i]));
    } else {
        lemma_table_at(s.drop_last(), i);
        assert(be32_table(s).subrange(4 * i, 4 * i + 4) =~= t.subrange(4 * i, 4 * i + 4));
    }
}

proof fn lemma_entry(head: Seq<u8>, table: Seq<u8>, v: u32, i: int)
    requires
        0 <= i,
        i + 4 <= table.len(),
        table.subrange(i, i + 4) == be32_bytes(v),
    ensures
        be32_at(head + table, head.len() + i) == v,
{
    let b = head + table;
    let at = head.len() + i;
    assert(b.subrange(at, at + 4) =~= table.subrange(i, i + 4));
    lemma_be32_at(b, at, v);
}

proof fn lemma_table_len(s: Seq<u32>)
    ensures
        be32_table(s).len() == 4 * s.len(),
    decreases s.len(),
{
    if s.len() > 0 {
        lemma_table_len(s.drop_last());
    }
}

/// The sizes of the samples: each its own, that of the unit and the four bytes of its
/// length.
pub proof fn law_sample_sizes_read_back(frames: Seq<Frame>, i: int, rest: Seq<u8>)
    requires
        0 <= i < frames.len(),
        20 + 4 * frames.len() < 0x1_0000_0000,
        frames[i].len + 4 <= u32::MAX,
    ensures
        ({
            let b = inside(stsz_box(frames) + rest, letters(0x73, 0x74, 0x73, 0x7a));
            &&& b.len() == 12 + 4 * frames.len()
            &&& be32_at(b, 4) == 0
            &&& be32_at(b, 8) == frames.len()
            &&& be32_at(b, 12 + 4 * i) == 4 + frames[i].len
        }),
{
    let sizes = sample_sizes(frames);
    let head = be32_bytes(0) + be32_bytes(0) + be32_bytes(frames.len() as u32);
    lemma_size_table(frames, rest);
    lemma_table_at(sizes, i);
    lemma_entry(head, be32_table(sizes), sizes[i], 4 * i);
}

proof fn lemma_size_table(frames: Seq<Frame>, rest: Seq<u8>)
    requires
        20 + 4 * frames.len() < 0x1_0000_0000,
    ensures
        ({
            let b = inside(stsz_box(frames) + rest, letters(0x73, 0x74, 0x73, 0x7a));
            let n = frames.len() as u32;
            &&& b == be32_bytes(0) + be32_bytes(0) + be32_bytes(n) + be32_table(
                sample_sizes(frames),
            )
            &&& b.len() == 12 + 4 * frames.len()
            &&& be32_at(b, 4) == 0
            &&& be32_at(b, 8) == frames.len()
        }),
{
    let n = frames.len() as u32;
    let table = be32_table(sample_sizes(frames));
    let body = be32_bytes(0) + be32_bytes(n) + table;
    let b = be32_bytes(0) + be32_bytes(0) + be32_bytes(n) + table;
    lemma_table_types();
    lemma_table_len(sample_sizes(frames));
    lemma_full(STSZ@, 0, body);
    assert(b =~= be32_bytes(0) + body);
    assert(low32(frames.len() as int) == n);
    assert(stsz_box(frames) == full_box(STSZ@, 0, 0, body));
    lemma_child_here(STSZ@, b, rest);
    assert(b.subrange(4, 8) =~= be32_bytes(0));
    assert(b.subrange(8, 12) =~= be32_bytes(n));
    lemma_be32_at(b, 4, 0);
    lemma_be32_at(b, 8, n);
}

proof fn lemma_key_numbers(frames: Seq<Frame>)
    requires
        frames.len() <= u32::MAX,
    ensures
        key_numbers(frames).len() <= frames.len(),
        forall|i: int|
            0 <= i < frames.len() && (#[trigger] frames[i]).hdr % 32 == 5 ==> key_numbers(
                frames,
            ).contains((i + 1) as u32),
        forall|k: int|
            0 <= k < key_numbers(frames).len() ==> 1 <= (#[trigger] key_numbers(frames)[k])
                <= frames.len() && frames[key_numbers(frames)[k] - 1].hdr % 32 == 5,
        forall|j: int, k: int|
            0 <= j < k < key_numbers(frames).len() ==> key_numbers(frames)[j] < key_numbers(
                frames,
            )[k],
    decreases frames.len(),
{
    if frames.len() > 0 {
        let t = frames.drop_last();
        lemma_key_numbers(t);
        let r = key_numbers(t);
        let now = key_numbers(frames);
        assert forall|i: int| 0 <= i < frames.len() && (#[trigger] frames[i]).hdr % 32
            == 5 implies now.contains((i + 1) as u32) by {
            if i < t.len() {
                assert(t[i].hdr % 32 == 5);
                assert(r.contains((i + 1) as u32));
                let j = r.index_of((i + 1) as u32);
                assert(now[j] == (i + 1) as u32);
            } else {
                assert(now[now.len() - 1] == (i + 1) as u32);
            }
        }
        assert forall|k: int| 0 <= k < now.len() implies 1 <= (#[trigger] now[k]) <= frames.len()
            && frames[now[k] - 1].hdr % 32 == 5 by {
            if k < r.len() {
                assert(1 <= r[k] <= t.len());
                assert(t[r[k] - 1] == frames[r[k] - 1]);
            }
        }
        assert forall|j: int, k: int| 0 <= j < k < now.len() implies now[j] < now[k] by {
            if k < r.len() {
                assert(r[j] < r[k]);
            } else {
                assert(1 <= r[j] <= t.len());
            }
        }
    }
}

/// The samples that decoding can start at: all key frames and no others, counted from
/// 1, in order.
pub proof fn law_key_frames_read_back(frames: Seq<Frame>, rest: Seq<u8>)
    requires
        16 + 4 * frames.len() < 0x1_0000_0000,
    ensures
        ({
            let b = inside(stss_box(frames) + rest, letters(0x73, 0x74, 0x73, 0x73));
            let n = be32_at(b, 4);
            &&& b.len() == 8 + 4 * n
            &&& n >= 0
            &&& forall|k: int|
                0 <= k < n ==> 1 <= #[trigger] be32_at(b, 8 + 4 * k) <= frames.len() && frames[
                be32_at(b, 8 + 4 * k) - 1].hdr % 32 == 5
            &&& forall|i: int|
                0 <= i < frames.len() && (#[trigger] frames[i]).hdr % 32 == 5 ==> exists|k: int|
                    0 <= k < n && #[trigger] be32_at(b, 8 + 4 * k) == i + 1
            &&& forall|j: int, k: int|
                0 <= j < k < n ==> #[trigger] be32_at(b, 8 + 4 * j) < #[trigger] be32_at(
                    b,
                    8 + 4 * k,
                )
        }),
{
    let keys = key_numbers(frames);
    let n = keys.len() as u32;
    let body = be32_bytes(n) + be32_table(keys);
    let b = be32_bytes(0) + body;
    lemma_table_types();
    lemma_key_numbers(frames);
    lemma_table_len(keys);
    lemma_full(STSS@, 0, body);
    lemma_child_here(STSS@, b, rest);
    assert(b.subrange(4, 8) =~= be32_bytes(n));
    lemma_be32_at(b, 4, n);
    assert forall|k: int| 0 <= k < n implies #[trigger] be32_at(b, 8 + 4 * k) == keys[k] by {
        lemma_table_at(keys, k);
        assert(b.subrange(8 + 4 * k, 12 + 4 * k) =~= be32_table(keys).subrange(4 * k, 4 * k + 4));
        lemma_be32_at(b, 8 + 4 * k, keys[k]);
    }
    assert forall|i: int| 0 <= i < frames.len() && (#[trigger] frames[i]).hdr % 32
        == 5 implies exists|k: int| 0 <= k < n && #[trigger] be32_at(b, 8 + 4 * k) == i + 1 by {
        assert(keys.contains((i + 1) as u32));
        let k = keys.index_of((i + 1) as u32);
        assert(be32_at(b, 8 + 4 * k) == i + 1);
    }
}

/// The durations of the samples: one entry, all of them, each one frame long. And the
/// chunks: one entry, from the first chunk on, all samples in it, with the first way of
/// coding.
pub proof fn law_sample_times_read_back(n: int, dur: u32, rest: Seq<u8>)
    requires
        0 <= n <= u32::MAX,
    ensures
        ({
            let b = inside(stts_box(n, dur) + rest, letters(0x73, 0x74, 0x74, 0x73));
            &&& b.len() == 16
            &&& be32_at(b, 4) == 1
            &&& be32_at(b, 8) == n
            &&& be32_at(b, 12) == dur
        }),
        ({
            let b = inside(stsc_box(n) + rest, letters(0x73, 0x74, 0x73, 0x63));
            &&& b.len() == 20
            &&& be32_at(b, 4) == 1
            &&& be32_at(b, 8) == 1
            &&& be32_at(b, 12) == n
            &&& be32_at(b, 16) == 1
        }),
{
    lemma_table_types();
    let count = n as u32;
    let times = be32_bytes(1) + be32_bytes(low32(n)) + be32_bytes(dur);
    let b = be32_bytes(0) + times;
    lemma_full(STTS@, 0, times);
    lemma_child_here(STTS@, b, rest);
    assert(b.subrange(4, 8) =~= be32_bytes(1));
    assert(b.subrange(8, 12) =~= be32_bytes(count));
    assert(b.subrange(12, 16) =~= be32_bytes(dur));
    lemma_be32_at(b, 4, 1);
    lemma_be32_at(b, 8, count);
    lemma_be32_at(b, 12, dur);
    let chunks = be32_bytes(1) + be32_bytes(1) + be32_bytes(low32(n)) + be32_bytes(1);
    let c = be32_bytes(0) + chunks;
    lemma_full(STSC@, 0, chunks);
    lemma_child_here(STSC@, c, rest);
    assert(c.subrange(4, 8) =~= be32_bytes(1));
    assert(c.subrange(8, 12) =~= be32_bytes(1));
    assert(c.subrange(12, 16) =~= be32_bytes(count));
    assert(c.subrange(16, 20) =~= be32_bytes(1));
    lemma_be32_at(c, 4, 1);
    lemma_be32_at(c, 8, 1);
    lemma_be32_at(c, 12, count);
    lemma_be32_at(c, 16, 1);
}

/// The one chunk starts behind the brands, of 32 bytes, and the header of the media
/// data, of 8, or of 16 where 32 bits do not hold its size.
pub proof fn law_chunk_reads_back(payload: int, rest: Seq<u8>)
    requires
        0 <= payload,
    ensures
        payload + 8 <= 0xffff_fff0 ==> {
            let b = inside(chunk_box(payload) + rest, letters(0x73, 0x74, 0x63, 0x6f));
            b.len() == 12 && be32_at(b, 4) == 1 && be32_at(b, 8) == 40
        },
        payload + 8 > 0xffff_fff0 ==> {
            let b = inside(chunk_box(payload) + rest, letters(0x63, 0x6f, 0x36, 0x34));
            b.len() == 16 && be32_at(b, 4) == 1 && be64_at(b, 8) == 48
        },
{
    lemma_table_types();
    if is_big(payload) {
        let body = be32_bytes(1) + be64_bytes(48);
        let b = be32_bytes(0) + body;
        lemma_full(CO64@, 0, body);
        lemma_child_here(CO64@, b, rest);
        assert(b.subrange(4, 8) =~= be32_bytes(1));
        assert(b.subrange(8, 12) =~= be32_bytes(0));
        assert(b.subrange(12, 16) =~= be32_bytes(48));
        lemma_be32_at(b, 4, 1);
        lemma_be32_at(b, 8, 0);
        lemma_be32_at(b, 12, 48);
    } else {
        let body = be32_bytes(1) + be32_bytes(40);
        let b = be32_bytes(0) + body;
        lemma_full(STCO@, 0, body);
        lemma_child_here(STCO@, b, rest);
        assert(b.subrange(4, 8) =~= be32_bytes(1));
        assert(b.subrange(8, 12) =~= be32_bytes(40));
        lemma_be32_at(b, 4, 1);
        lemma_be32_at(b, 8, 40);
    }
}

proof fn lemma_run_table_len(runs: Seq<(u32, u32)>, dur: u32)
    ensures
        run_table(runs, dur).len() == 8 * runs.len(),
    decreases runs.len(),
{
    if runs.len() > 0 {
        lemma_run_table_len(runs.drop_last(), dur);
    }
}

proof fn lemma_run_at(runs: Seq<(u32, u32)>, dur: u32, i: int)
    requires
        0 <= i < runs.len(),
    ensures
        run_table(runs, dur).len() == 8 * runs.len(),
        run_table(runs, dur).subrange(8 * i, 8 * i + 4) == be32_bytes(runs[i].0),
        run_table(runs, dur).subrange(8 * i + 4, 8 * i + 8) == be32_bytes(
            (runs[i].1 * dur) as u32,
        ),
    decreases runs.len(),
{
    let all = run_table(runs, dur);
    let t = run_table(runs.drop_last(), dur);
    lemma_run_table_len(runs, dur);
    lemma_run_table_len(runs.drop_last(), dur);
    if i == runs.len() - 1 {
        assert(all.subrange(8 * i, 8 * i + 4) =~= be32_bytes(runs[i].0));
        assert(all.subrange(8 * i + 4, 8 * i + 8) =~= be32_bytes((runs[i].1 * dur) as u32));
    } else {
        lemma_run_at(runs.drop_last(), dur, i);
        assert(all.subrange(8 * i, 8 * i + 4) =~= t.subrange(8 * i, 8 * i + 4));
        assert(all.subrange(8 * i + 4, 8 * i + 8) =~= t.subrange(8 * i + 4, 8 * i + 8));
    }
}

/// How many samples the first `k` entries of a table of shifts are for.
pub open spec fn samples_before(b: Seq<u8>, k: int) -> int
    decreases k,
{
    if k <= 0 {
        0
    } else {
        samples_before(b, k - 1) + be32_at(b, 8 + 8 * (k - 1))
    }
}

proof fn lemma_expanded_at(runs: Seq<(u32, u32)>, b: Seq<u8>, k: int, i: int)
    requires
        0 <= k < runs.len(),
        forall|j: int| 0 <= j < runs.len() ==> be32_at(b, 8 + 8 * j) == (#[trigger] runs[j]).0,
        samples_before(b, k) <= i < samples_before(b, k + 1),
    ensures
        0 <= i < expanded(runs).len(),
        expanded(runs)[i] == runs[k].1,
    decreases runs.len(),
{
    let t = runs.drop_last();
    assert forall|j: int| 0 <= j < t.len() implies be32_at(b, 8 + 8 * j) == (#[trigger] t[j]).0 by {
        assert(runs[j] == t[j]);
    }
    lemma_expanded_len(t, b);
    assert(be32_at(b, 8 + 8 * k) == runs[k].0);
    if k == runs.len() - 1 {
        assert(expanded(runs)[i] == Seq::new(runs.last().0 as nat, |i: int| runs.last().1)[i
            - expanded(t).len()]);
    } else {
        lemma_expanded_at(t, b, k, i);
        assert(expanded(runs)[i] == expanded(t)[i]);
    }
}

proof fn lemma_expanded_len(runs: Seq<(u32, u32)>, b: Seq<u8>)
    requires
        forall|j: int| 0 <= j < runs.len() ==> be32_at(b, 8 + 8 * j) == (#[trigger] runs[j]).0,
    ensures
        expanded(runs).len() == samples_before(b, runs.len() as int),
    decreases runs.len(),
{
    if runs.len() > 0 {
        let t = runs.drop_last();
        assert forall|j: int| 0 <= j < t.len() implies be32_at(b, 8 + 8 * j) == (
        #[trigger] t[j]).0 by {
            assert(runs[j] == t[j]);
        }
        lemma_expanded_len(t, b);
        assert(be32_at(b, 8 + 8 * (runs.len() - 1)) == runs[runs.len() - 1].0);
    }
}

/// The shifts of the samples: for each sample, the entry that it falls under says how
/// long after its decoding it is shown, so that, less what is held back, it is shown at
/// its place. All samples fall under an entry.
pub proof fn law_sample_shifts_read_back(
    disp: Seq<usize>,
    dur: u32,
    rest: Seq<u8>,
    k: int,
    i: int,
)
    requires
        times_fit(disp, dur),
        delay_of(disp) > 0,
        24 + 8 * disp.len() < 0x1_0000_0000,
        ({
            let b = inside(ctts_box(disp, dur) + rest, letters(0x63, 0x74, 0x74, 0x73));
            0 <= k < be32_at(b, 4) && samples_before(b, k) <= i < samples_before(b, k + 1)
        }),
    ensures
        ({
            let b = inside(ctts_box(disp, dur) + rest, letters(0x63, 0x74, 0x74, 0x73));
            &&& 0 <= i < disp.len()
            &&& be32_at(b, 8 + 8 * k + 4) == (disp[i] + delay_of(disp) - i) * dur
            &&& samples_before(b, be32_at(b, 4)) == disp.len()
        }),
{
    let shifts = shifts_of(disp);
    let runs = runs_of(shifts);
    let b = inside(ctts_box(disp, dur) + rest, letters(0x63, 0x74, 0x74, 0x73));
    lemma_shift_table(disp, dur, rest);
    law_runs_expand(shifts);
    lemma_expanded_len(runs, b);
    lemma_expanded_at(runs, b, k, i);
    assert(expanded(runs)[i] == shifts[i]);
    lemma_delay_covers(disp, i);
    assert(disp[i] + delay_of(disp) <= u32::MAX);
    assert(shift_of(disp, i) * dur <= u32::MAX);
    assert(shifts[i] == shift_of(disp, i));
    assert(runs[k].1 == shifts[i]);
    assert(0 <= shift_of(disp, i) * dur) by (nonlinear_arith)
        requires
            shift_of(disp, i) >= 0,
            dur >= 0,
    ;
}

proof fn lemma_shift_table(disp: Seq<usize>, dur: u32, rest: Seq<u8>)
    requires
        delay_of(disp) > 0,
        24 + 8 * disp.len() < 0x1_0000_0000,
    ensures
        ({
            let b = inside(ctts_box(disp, dur) + rest, letters(0x63, 0x74, 0x74, 0x73));
            let runs = runs_of(shifts_of(disp));
            &&& be32_at(b, 4) == runs.len()
            &&& forall|j: int|
                0 <= j < runs.len() ==> be32_at(b, 8 + 8 * j) == (#[trigger] runs[j]).0 && be32_at(
                    b,
                    8 + 8 * j + 4,
                ) == (runs[j].1 * dur) as u32
        }),
{
    let shifts = shifts_of(disp);
    let runs = runs_of(shifts);
    let n = runs.len() as u32;
    let table = run_table(runs, dur);
    let body = be32_bytes(n) + table;
    let b = be32_bytes(0) + body;
    let head = be32_bytes(0) + be32_bytes(n);
    lemma_table_types();
    lemma_runs_len(shifts);
    lemma_run_table_len(runs, dur);
    lemma_full(CTTS@, 0, body);
    lemma_child_here(CTTS@, b, rest);
    assert(ctts_box(disp, dur) == full_box(CTTS@, 0, 0, body));
    assert(inside(ctts_box(disp, dur) + rest, letters(0x63, 0x74, 0x74, 0x73)) == b);
    assert(b =~= head + table);
    assert(b.subrange(4, 8) =~= be32_bytes(n));
    lemma_be32_at(b, 4, n);
    assert forall|j: int| 0 <= j < runs.len() implies be32_at(b, 8 + 8 * j) == (
    #[trigger] runs[j]).0 && be32_at(b, 8 + 8 * j + 4) == (runs[j].1 * dur) as u32 by {
        lemma_run_at(runs, dur, j);
        lemma_entry(head, table, runs[j].0, 8 * j);
        lemma_entry(head, table, (runs[j].1 * dur) as u32, 8 * j + 4);
    }
}

proof fn lemma_runs_len(s: Seq<u32>)
    ensures
        runs_of(s).len() <= s.len(),
    decreases s.len(),
{
    if s.len() > 0 {
        lemma_runs_len(s.drop_last());
    }
}

/// What is held back is as much as the frame that comes earliest before its place in
/// the file needs, and no more.
pub proof fn law_held_back_is_needed(disp: Seq<usize>)
    ensures
        forall|i: int| 0 <= i < disp.len() ==> i - (#[trigger] disp[i]) <= delay_of(disp),
        delay_of(disp) > 0 ==> exists|i: int|
            0 <= i < disp.len() && i - (#[trigger] disp[i]) == delay_of(disp),
        delay_of(disp) >= 0,
    decreases disp.len(),
{
    assert forall|i: int| 0 <= i < disp.len() implies i - (#[trigger] disp[i]) <= delay_of(
        disp,
    ) by {
        lemma_delay_covers(disp, i);
    }
    if disp.len() > 0 {
        let t = disp.drop_last();
        law_held_back_is_needed(t);
        if delay_of(disp) > 0 {
            if delay_of(disp) == delay_of(t) {
                let i = choose|i: int| 0 <= i < t.len() && i - (#[trigger] t[i]) == delay_of(t);
                assert(disp[i] == t[i]);
            } else {
                assert(disp.len() - 1 - disp[disp.len() - 1] == delay_of(disp));
            }
        }
    }
}

/// The number in the two bytes of `b` from `i` on.
pub open spec fn be16_at(b: Seq<u8>, i: int) -> int {
    b[i] * 0x100 + b[i + 1]
}

proof fn lemma_be16_at(b: Seq<u8>, i: int, v: u16)
    requires
        0 <= i,
        i + 2 <= b.len(),
        b.subrange(i, i + 2) == be16_bytes(v),
    ensures
        be16_at(b, i) == v,
{
    let two = b.subrange(i, i + 2);
    assert(two[0] == b[i] && two[1] == b[i + 1]);
}

proof fn lemma_config_tail(depth: u32)
    requires
        8 <= depth < 16,
    ensures
        (0xf8u8 | ((depth - 8) % 0x100) as u8) % 8 == depth - 8,
        (0xf8u8 | ((depth - 8) % 0x100) as u8) / 8 == 31,
{
    let d = ((depth - 8) % 0x100) as u8;
    assert((0xf8u8 | d) % 8 == d && (0xf8u8 | d) / 8 == 31) by (bit_vector)
        requires
            d < 8,
    ;
}

/// What a decoder is told: the profile and level of the sequence parameter set, lengths
/// of four bytes, one set of each kind, whole, and behind them, in the high profiles,
/// 4:2:0 sampling and the depth of luma and of chroma.
pub proof fn law_decoder_config_reads_back(v: VideoOut)
    requires
        v.wf(),
        v.sps@.len() < 0x1_0000,
        v.pps@.len() < 0x1_0000,
        v.depth < 16,
    ensures
        ({
            let c = decoder_config(v);
            let s = v.sps@.len() as int;
            let p = v.pps@.len() as int;
            &&& c[0] == 1
            &&& c[1] == v.sps@[1] && c[2] == v.sps@[2] && c[3] == v.sps@[3]
            &&& c[4] % 4 + 1 == 4
            &&& c[5] % 32 == 1
            &&& be16_at(c, 6) == s
            &&& c.subrange(8, 8 + s) == v.sps@
            &&& c[8 + s] == 1
            &&& be16_at(c, 9 + s) == p
            &&& c.subrange(11 + s, 11 + s + p) == v.pps@
            &&& if v.sps@[1] == 100 || v.sps@[1] == 110 || v.sps@[1] == 122 || v.sps@[1] == 244 {
                &&& c.len() == 15 + s + p
                &&& c[11 + s + p] % 4 == 1
                &&& c[12 + s + p] % 8 == v.depth - 8
                &&& c[13 + s + p] % 8 == v.depth - 8
                &&& c[14 + s + p] == 0
            } else {
                c.len() == 11 + s + p
            }
        }),
{
    let c = decoder_config(v);
    let s = v.sps@.len() as int;
    let p = v.pps@.len() as int;
    let a = seq![1u8, v.sps@[1], v.sps@[2], v.sps@[3], 0xff, 0xe1];
    let b = be16_bytes(low16(s));
    let d = seq![1u8] + be16_bytes(low16(p));
    let tail = if is_high_profile(v.sps@[1]) {
        let depth = (0xf8u8 | ((v.depth - 8) % 0x100) as u8);
        seq![0xfdu8, depth, depth, 0]
    } else {
        Seq::empty()
    };
    assert(c =~= a + b + v.sps@ + d + v.pps@ + tail);
    assert(c.subrange(6, 8) =~= b);
    lemma_be16_at(c, 6, low16(s));
    assert(c.subrange(8, 8 + s) =~= v.sps@);
    assert(c.subrange(9 + s, 11 + s) =~= be16_bytes(low16(p)));
    lemma_be16_at(c, 9 + s, low16(p));
    assert(c.subrange(11 + s, 11 + s + p) =~= v.pps@);
    assert(c[8 + s] == d[0]);
    if is_high_profile(v.sps@[1]) {
        lemma_config_tail(v.depth);
        assert(c[11 + s + p] == tail[0]);
        assert(c[12 + s + p] == tail[1]);
        assert(c[13 + s + p] == tail[2]);
        assert(c[14 + s + p] == tail[3]);
    }
}

/// How a sample is coded: one entry, AVC, with the width and the height in pixels and
/// what a decoder is told.
pub proof fn law_sample_entry_reads_back(v: VideoOut, rest: Seq<u8>)
    requires
        v.width < 0x1_0000,
        v.height < 0x1_0000,
        decoder_config(v).len() + 200 < 0x1_0000_0000,
    ensures
        ({
            let b = inside(stsd_box(v) + rest, letters(0x73, 0x74, 0x73, 0x64));
            let e = inside(b.skip(8), letters(0x61, 0x76, 0x63, 0x31));
            &&& be32_at(b, 4) == 1
            &&& be16_at(e, 6) == 1
            &&& be16_at(e, 24) == v.width
            &&& be16_at(e, 26) == v.height
            &&& be16_at(e, 40) == 1
            &&& be16_at(e, 74) == 24
            &&& child(e.skip(78), letters(0x61, 0x76, 0x63, 0x43)) == Some(decoder_config(v))
        }),
{
    let config = box_bytes(AVCC@, decoder_config(v));
    let e = sample_entry(v);
    let head = entry_head(low16(v.width as int), low16(v.height as int));
    assert(e == head + config);
    lemma_entry_head(low16(v.width as int), low16(v.height as int));
    lemma_head_kept(head, config, 6);
    lemma_head_kept(head, config, 24);
    lemma_head_kept(head, config, 26);
    lemma_head_kept(head, config, 40);
    lemma_head_kept(head, config, 74);
    lemma_one_entry(STSD@, AVC1@, e, rest);
    lemma_table_types();
    assert(e.skip(78) =~= config);
    lemma_is_box(AVCC@, decoder_config(v));
    lemma_alone(config, AVCC@);
}

/// A table of one entry.
proof fn lemma_one_entry(t: Seq<u8>, kind: Seq<u8>, e: Seq<u8>, rest: Seq<u8>)
    requires
        t.len() == 4,
        kind.len() == 4,
        e.len() + 100 < 0x1_0000_0000,
    ensures
        ({
            let b = inside(
                full_box(t, 0, 0, be32_bytes(1) + box_bytes(kind, e)) + rest,
                t,
            );
            be32_at(b, 4) == 1 && child(b.skip(8), kind) == Some(e)
        }),
{
    let body = be32_bytes(1) + box_bytes(kind, e);
    let b = be32_bytes(0) + body;
    lemma_full(t, 0, body);
    lemma_child_here(t, b, rest);
    assert(b.subrange(4, 8) =~= be32_bytes(1));
    lemma_be32_at(b, 4, 1);
    assert(b.skip(8) =~= box_bytes(kind, e));
    lemma_is_box(kind, e);
    lemma_alone(box_bytes(kind, e), kind);
}

/// How a sample is coded, up to what a decoder is told.
spec fn entry_head(w: u16, h: u16) -> Seq<u8> {
    zero_bytes(6) + be16_bytes(1) + zero_bytes(16) + be16_bytes(w) + be16_bytes(h) + be32_bytes(
        0x480000,
    ) + be32_bytes(0x480000) + zero_bytes(4) + be16_bytes(1) + zero_bytes(32) + be16_bytes(0x18)
        + be16_bytes(0xffff)
}

proof fn lemma_entry_head(w: u16, h: u16)
    ensures
        ({
            let e = entry_head(w, h);
            &&& e.len() == 78
            &&& be16_at(e, 6) == 1
            &&& be16_at(e, 24) == w
            &&& be16_at(e, 26) == h
            &&& be16_at(e, 40) == 1
            &&& be16_at(e, 74) == 24
        }),
{
    let e = entry_head(w, h);
    assert(e.subrange(6, 8) =~= be16_bytes(1));
    assert(e.subrange(24, 26) =~= be16_bytes(w));
    assert(e.subrange(26, 28) =~= be16_bytes(h));
    assert(e.subrange(40, 42) =~= be16_bytes(1));
    assert(e.subrange(74, 76) =~= be16_bytes(0x18));
    lemma_be16_at(e, 6, 1);
    lemma_be16_at(e, 24, w);
    lemma_be16_at(e, 26, h);
    lemma_be16_at(e, 40, 1);
    lemma_be16_at(e, 74, 0x18);
}

proof fn lemma_head_kept(head: Seq<u8>, tail: Seq<u8>, i: int)
    requires
        0 <= i,
        i + 2 <= head.len(),
    ensures
        be16_at(head + tail, i) == be16_at(head, i),
{
}

/// The movie that an index describes.
pub open spec fn movie(m: Seq<u8>) -> Seq<u8> {
    inside(m, letters(0x6d, 0x6f, 0x6f, 0x76))
}

/// Its track.
pub open spec fn track(m: Seq<u8>) -> Seq<u8> {
    inside(movie(m), letters(0x74, 0x72, 0x61, 0x6b))
}

/// The media of its track.
pub open spec fn media(m: Seq<u8>) -> Seq<u8> {
    inside(track(m), letters(0x6d, 0x64, 0x69, 0x61))
}

/// The tables of its track's samples.
pub open spec fn tables(m: Seq<u8>) -> Seq<u8> {
    inside(inside(media(m), letters(0x6d, 0x69, 0x6e, 0x66)), letters(0x73, 0x74, 0x62, 0x6c))
}

/// `b` is a box of type `t`, whole.
#[verifier::opaque]
pub open spec fn is_box(b: Seq<u8>, t: Seq<u8>) -> bool {
    &&& t.len() == 4
    &&& 8 <= b.len() < 0x1_0000_0000
    &&& be32_at(b, 0) == b.len()
    &&& b.subrange(4, 8) == t
}

proof fn lemma_is_box(t: Seq<u8>, body: Seq<u8>)
    requires
        t.len() == 4,
        8 + body.len() < 0x1_0000_0000,
    ensures
        is_box(box_bytes(t, body), t),
        box_bytes(t, body).skip(8) == body,
{
    reveal(is_box);
    let b = box_bytes(t, body);
    let size = (8 + body.len()) as u32;
    assert(low32(8 + body.len() as int) == size);
    assert(b.subrange(0, 4) =~= be32_bytes(size));
    lemma_be32_at(b, 0, size);
    assert(b.subrange(4, 8) =~= t);
    assert(b.skip(8) =~= body);
}

/// A whole box is found in front of whatever follows it.
pub proof fn law_whole_box_is_found(b: Seq<u8>, t: Seq<u8>, rest: Seq<u8>)
    requires
        is_box(b, t),
    ensures
        child(b + rest, t) == Some(b.skip(8)),
{
    reveal(child);
    reveal(is_box);
    let all = b + rest;
    assert(be32_at(all, 0) == b.len());
    assert(all.subrange(4, 8) =~= b.subrange(4, 8));
    assert(all.subrange(8, b.len() as int) =~= b.skip(8));
}

proof fn lemma_passed(b: Seq<u8>, u: Seq<u8>, t: Seq<u8>, rest: Seq<u8>)
    requires
        is_box(b, u),
        u != t,
    ensures
        child(b + rest, t) == child(rest, t),
{
    reveal(child);
    reveal(is_box);
    let all = b + rest;
    assert(be32_at(all, 0) == b.len());
    assert(all.subrange(4, 8) =~= b.subrange(4, 8));
    assert(all.skip(b.len() as int) =~= rest);
}

proof fn lemma_alone(b: Seq<u8>, t: Seq<u8>)
    requires
        is_box(b, t),
    ensures
        child(b, t) == Some(b.skip(8)),
{
    assert(b + Seq::<u8>::empty() =~= b);
    law_whole_box_is_found(b, t, Seq::empty());
}

proof fn lemma_two(a: Seq<u8>, t: Seq<u8>, b: Seq<u8>, u: Seq<u8>)
    requires
        is_box(a, t),
        is_box(b, u),
        t != u,
    ensures
        child(a + b, t) == Some(a.skip(8)),
        child(a + b, u) == Some(b.skip(8)),
{
    law_whole_box_is_found(a, t, b);
    lemma_passed(a, t, u, b);
    lemma_alone(b, u);
}

proof fn lemma_three(
    a: Seq<u8>,
    t: Seq<u8>,
    b: Seq<u8>,
    u: Seq<u8>,
    c: Seq<u8>,
    w: Seq<u8>,
)
    requires
        is_box(a, t),
        is_box(b, u),
        is_box(c, w),
        t != u,
        t != w,
        u != w,
    ensures
        child(a + b + c, t) == Some(a.skip(8)),
        child(a + b + c, u) == Some(b.skip(8)),
        child(a + b + c, w) == Some(c.skip(8)),
{
    assert(a + b + c =~= a + (b + c));
    law_whole_box_is_found(a, t, b + c);
    lemma_passed(a, t, u, b + c);
    lemma_passed(a, t, w, b + c);
    lemma_two(b, u, c, w);
}

proof fn lemma_headers(ms: u32, w: u32, h: u32, audio: bool)
    ensures
        is_box(mvhd_box(ms), MVHD@),
        is_box(tkhd_box(ms, w, h, audio), TKHD@),
{
    let movie_body = be32_bytes(0) + be32_bytes(0) + be32_bytes(1000) + be32_bytes(ms)
        + be32_bytes(0x10000) + be32_bytes(0x1000000) + zero_bytes(8) + matrix_bytes() + zero_bytes(
        24,
    ) + be32_bytes(2);
    let volume: u32 = if audio {
        0x1000000
    } else {
        0
    };
    let track_body = be32_bytes(0) + be32_bytes(0) + be32_bytes(1) + be32_bytes(0) + be32_bytes(ms)
        + zero_bytes(8) + zero_bytes(4) + be32_bytes(volume) + matrix_bytes() + be32_bytes(w << 16)
        + be32_bytes(h << 16);
    lemma_full(MVHD@, 0, movie_body);
    lemma_full(TKHD@, 3, track_body);
    lemma_is_box(MVHD@, be32_bytes(0) + movie_body);
    lemma_is_box(TKHD@, be32_bytes(3) + track_body);
}

proof fn lemma_media_headers(ts: u32, dur: u32, kind: Seq<u8>, name: Seq<u8>)
    requires
        kind.len() == 4,
        name.len() < 100,
    ensures
        is_box(mdhd_box(ts, dur), MDHD@),
        is_box(hdlr_box(kind, name), HDLR@),
{
    let times = be32_bytes(0) + be32_bytes(0) + be32_bytes(ts) + be32_bytes(dur) + be32_bytes(
        0x55c40000,
    );
    let handler = zero_bytes(4) + kind + zero_bytes(12) + name;
    lemma_full(MDHD@, 0, times);
    lemma_full(HDLR@, 0, handler);
    lemma_is_box(MDHD@, be32_bytes(0) + times);
    lemma_is_box(HDLR@, be32_bytes(0) + handler);
}

proof fn lemma_edit_box(ms: u32, hold: int, dur: u32)
    ensures
        is_box(edts_box(ms, hold, dur), EDTS@),
{
    let edit = full_box(
        ELST@,
        0,
        0,
        be32_bytes(1) + be32_bytes(ms) + be32_bytes((hold * dur) as u32) + be32_bytes(0x10000),
    );
    lemma_is_box(EDTS@, edit);
}

proof fn lemma_data_box()
    ensures
        is_box(dinf_box(), DINF@),
{
    let body = dinf_box().skip(8);
    assert(dinf_box() =~= box_bytes(DINF@, body));
    lemma_is_box(DINF@, body);
}

/// The movie's header and its track.
proof fn lemma_movie(m: Seq<u8>, ms: u32, inner: Seq<u8>)
    requires
        m == box_bytes(MOOV@, mvhd_box(ms) + box_bytes(TRAK@, inner)),
        m.len() < 0x1_0000_0000,
    ensures
        child(movie(m), MVHD@) == Some(mvhd_box(ms).skip(8)),
        track(m) == inner,
{
    lemma_types();
    lemma_containers_differ();
    lemma_headers(ms, 0, 0, false);
    lemma_is_box(MOOV@, mvhd_box(ms) + box_bytes(TRAK@, inner));
    lemma_alone(m, MOOV@);
    lemma_is_box(TRAK@, inner);
    lemma_two(mvhd_box(ms), MVHD@, box_bytes(TRAK@, inner), TRAK@);
}

/// The media's headers and its tables.
proof fn lemma_media(
    around: Seq<u8>,
    a: Seq<u8>,
    b: Seq<u8>,
    general: Seq<u8>,
    t: Seq<u8>,
    data: Seq<u8>,
    held: Seq<u8>,
)
    requires
        around == a + b + box_bytes(MINF@, general + data + box_bytes(STBL@, held)),
        around.len() < 0x1_0000_0000,
        is_box(a, MDHD@),
        is_box(b, HDLR@),
        is_box(general, t),
        is_box(data, DINF@),
        t == VMHD@ || t == SMHD@,
    ensures
        child(around, MDHD@) == Some(a.skip(8)),
        child(around, HDLR@) == Some(b.skip(8)),
        child(inside(around, MINF@), STBL@) == Some(held),
{
    let inner = general + data + box_bytes(STBL@, held);
    lemma_containers_differ();
    lemma_is_box(STBL@, held);
    lemma_is_box(MINF@, inner);
    lemma_three(a, MDHD@, b, HDLR@, box_bytes(MINF@, inner), MINF@);
    lemma_three(general, t, data, DINF@, box_bytes(STBL@, held), STBL@);
}

/// What the tables of a video's samples are.
pub open spec fn video_tables(frames: Seq<Frame>, disp: Seq<usize>, v: VideoOut) -> Seq<u8> {
    stbl_box(frames, disp, v).skip(8)
}

proof fn lemma_stbl(frames: Seq<Frame>, disp: Seq<usize>, v: VideoOut)
    requires
        stbl_box(frames, disp, v).len() < 0x1_0000_0000,
    ensures
        stbl_box(frames, disp, v) == box_bytes(STBL@, video_tables(frames, disp, v)),
{
    let held = stsd_box(v) + stts_box(frames.len() as int, v.fps.1) + (if delay_of(disp) > 0 {
        ctts_box(disp, v.fps.1)
    } else {
        Seq::empty()
    }) + stss_box(frames) + stsc_box(frames.len() as int) + stsz_box(frames) + chunk_box(
        payload_len(frames),
    );
    assert(stbl_box(frames, disp, v) == box_bytes(STBL@, held));
    lemma_types();
    lemma_is_box(STBL@, held);
}

proof fn lemma_general(t: Seq<u8>, flags: u32, n: nat)
    requires
        t.len() == 4,
        n < 100,
    ensures
        is_box(full_box(t, 0, flags, zero_bytes(n)), t),
{
    lemma_full(t, flags, zero_bytes(n));
    lemma_is_box(t, be32_bytes(flags) + zero_bytes(n));
}

proof fn lemma_video_media(frames: Seq<Frame>, disp: Seq<usize>, v: VideoOut, inner: Seq<u8>)
    requires
        mdia_box(frames, disp, v).len() < 0x1_0000_0000,
        box_bytes(MDIA@, inner) == mdia_box(frames, disp, v),
    ensures
        ({
            let dur = (frames.len() * v.fps.1) as u32;
            &&& child(inner, MDHD@) == Some(mdhd_box(v.fps.0, dur).skip(8))
            &&& child(inner, HDLR@) == Some(hdlr_box(VIDE@, handler_name()).skip(8))
            &&& child(inside(inner, MINF@), STBL@) == Some(video_tables(frames, disp, v))
        }),
{
    let dur = (frames.len() * v.fps.1) as u32;
    lemma_mdia(frames, disp, v);
    lemma_read_mdia(
        mdia_box(frames, disp, v),
        inner,
        v.fps.0,
        dur,
        video_tables(frames, disp, v),
    );
}

/// The media of a video whose tables are `held`.
spec fn media_of(ts: u32, dur: u32, held: Seq<u8>) -> Seq<u8> {
    mdhd_box(ts, dur) + hdlr_box(VIDE@, handler_name()) + box_bytes(
        MINF@,
        full_box(VMHD@, 0, 1, zero_bytes(8)) + dinf_box() + box_bytes(STBL@, held),
    )
}

proof fn lemma_mdia(frames: Seq<Frame>, disp: Seq<usize>, v: VideoOut)
    requires
        mdia_box(frames, disp, v).len() < 0x1_0000_0000,
    ensures
        mdia_box(frames, disp, v) == box_bytes(
            MDIA@,
            media_of(
                v.fps.0,
                (frames.len() * v.fps.1) as u32,
                video_tables(frames, disp, v),
            ),
        ),
{
    lemma_stbl(frames, disp, v);
}

proof fn lemma_read_mdia(mdia: Seq<u8>, inner: Seq<u8>, ts: u32, dur: u32, held: Seq<u8>)
    requires
        mdia.len() < 0x1_0000_0000,
        mdia == box_bytes(MDIA@, media_of(ts, dur, held)),
        mdia == box_bytes(MDIA@, inner),
    ensures
        child(inner, MDHD@) == Some(mdhd_box(ts, dur).skip(8)),
        child(inner, HDLR@) == Some(hdlr_box(VIDE@, handler_name()).skip(8)),
        child(inside(inner, MINF@), STBL@) == Some(held),
{
    let general = full_box(VMHD@, 0, 1, zero_bytes(8));
    lemma_containers_differ();
    lemma_general(VMHD@, 1, 8);
    lemma_data_box();
    lemma_media_headers(ts, dur, VIDE@, handler_name());
    lemma_is_box(MDIA@, inner);
    lemma_is_box(MDIA@, media_of(ts, dur, held));
    lemma_media(
        media_of(ts, dur, held),
        mdhd_box(ts, dur),
        hdlr_box(VIDE@, handler_name()),
        general,
        VMHD@,
        dinf_box(),
        held,
    );
}

proof fn lemma_video_track(frames: Seq<Frame>, disp: Seq<usize>, v: VideoOut)
    requires
        moov_box(frames, disp, v).len() < 0x1_0000_0000,
    ensures
        ({
            let m = moov_box(frames, disp, v);
            let hold = delay_of(disp);
            let ms = shown_ms(frames.len() as int, hold, v.fps);
            &&& child(movie(m), MVHD@) == Some(mvhd_box(ms).skip(8))
            &&& child(track(m), TKHD@) == Some(tkhd_box(ms, v.width, v.height, false).skip(8))
            &&& child(track(m), EDTS@) == Some(edts_box(ms, hold, v.fps.1).skip(8))
            &&& mdia_box(frames, disp, v).len() < 0x1_0000_0000
            &&& box_bytes(MDIA@, media(m)) == mdia_box(frames, disp, v)
        }),
{
    let m = moov_box(frames, disp, v);
    let hold = delay_of(disp);
    let ms = shown_ms(frames.len() as int, hold, v.fps);
    let a = tkhd_box(ms, v.width, v.height, false);
    let b = edts_box(ms, hold, v.fps.1);
    let c = mdia_box(frames, disp, v);
    lemma_types();
    lemma_movie(m, ms, a + b + c);
    lemma_headers(ms, v.width, v.height, false);
    lemma_edit_box(ms, hold, v.fps.1);
    let dur = (frames.len() * v.fps.1) as u32;
    let all = mdhd_box(v.fps.0, dur) + hdlr_box(VIDE@, handler_name()) + minf_box(frames, disp, v);
    assert(c == box_bytes(MDIA@, all));
    lemma_is_box(MDIA@, all);
    lemma_containers_differ();
    lemma_three(a, TKHD@, b, EDTS@, c, MDIA@);
}

/// What a player reads in the index of a video: times in thousandths of a second, and
/// in them how long it is shown, rounded down, in the movie, in its track and in its one
/// edit; its size in pixels; an edit that starts behind what is held back; `fps.0` units
/// a second in its media, of which each frame takes `fps.1`; and that it is video.
pub proof fn law_video_index_reads_back(frames: Seq<Frame>, disp: Seq<usize>, v: VideoOut)
    requires
        moov_box(frames, disp, v).len() < 0x1_0000_0000,
        disp.len() == frames.len(),
        times_fit(disp, v.fps.1),
        v.fps.0 > 0,
        v.width < 0x1_0000,
        v.height < 0x1_0000,
        (frames.len() - delay_of(disp)) * v.fps.1 * 1000 < v.fps.0 * 0x1_0000_0000,
    ensures
        ({
            let m = moov_box(frames, disp, v);
            let h = inside(movie(m), letters(0x6d, 0x76, 0x68, 0x64));
            let t = inside(track(m), letters(0x74, 0x6b, 0x68, 0x64));
            let e = inside(
                inside(track(m), letters(0x65, 0x64, 0x74, 0x73)),
                letters(0x65, 0x6c, 0x73, 0x74),
            );
            let d = inside(media(m), letters(0x6d, 0x64, 0x68, 0x64));
            let ms = be32_at(h, 16);
            let shown = (frames.len() - delay_of(disp)) * v.fps.1;
            &&& be32_at(h, 12) == 1000
            &&& ms * v.fps.0 <= shown * 1000 < (ms + 1) * v.fps.0
            &&& be32_at(t, 20) == ms
            &&& be32_at(t, 76) == v.width * 0x1_0000
            &&& be32_at(t, 80) == v.height * 0x1_0000
            &&& be32_at(t, 36) == 0
            &&& be32_at(e, 4) == 1
            &&& be32_at(e, 8) == ms
            &&& be32_at(e, 12) == delay_of(disp) * v.fps.1
            &&& be32_at(d, 12) == v.fps.0
            &&& be32_at(d, 16) == frames.len() * v.fps.1
            &&& inside(media(m), letters(0x68, 0x64, 0x6c, 0x72)).subrange(8, 12) == letters(
                0x76,
                0x69,
                0x64,
                0x65,
            )
            &&& tables(m) == video_tables(frames, disp, v)
        }),
{
    lemma_hold_fits(disp, v.fps.1);
    lemma_video_movie_values(frames, disp, v);
    lemma_video_track_values(frames, disp, v);
    lemma_video_edit_values(frames, disp, v);
    lemma_video_media_values(frames, disp, v);
    lemma_ms(frames.len() as int, delay_of(disp), v.fps);
}

proof fn lemma_video_movie_values(frames: Seq<Frame>, disp: Seq<usize>, v: VideoOut)
    requires
        moov_box(frames, disp, v).len() < 0x1_0000_0000,
    ensures
        ({
            let m = moov_box(frames, disp, v);
            let h = inside(movie(m), letters(0x6d, 0x76, 0x68, 0x64));
            &&& be32_at(h, 12) == 1000
            &&& be32_at(h, 16) == shown_ms(frames.len() as int, delay_of(disp), v.fps)
        }),
{
    let ms = shown_ms(frames.len() as int, delay_of(disp), v.fps);
    lemma_types();
    lemma_video_track(frames, disp, v);
    lemma_header_values(ms, 0, 0, false);
}

proof fn lemma_video_track_values(frames: Seq<Frame>, disp: Seq<usize>, v: VideoOut)
    requires
        moov_box(frames, disp, v).len() < 0x1_0000_0000,
        v.width < 0x1_0000,
        v.height < 0x1_0000,
    ensures
        ({
            let m = moov_box(frames, disp, v);
            let t = inside(track(m), letters(0x74, 0x6b, 0x68, 0x64));
            &&& be32_at(t, 20) == shown_ms(frames.len() as int, delay_of(disp), v.fps)
            &&& be32_at(t, 36) == 0
            &&& be32_at(t, 76) == v.width * 0x1_0000
            &&& be32_at(t, 80) == v.height * 0x1_0000
        }),
{
    let ms = shown_ms(frames.len() as int, delay_of(disp), v.fps);
    lemma_types();
    lemma_video_track(frames, disp, v);
    lemma_header_values(ms, v.width, v.height, false);
}

proof fn lemma_video_edit_values(frames: Seq<Frame>, disp: Seq<usize>, v: VideoOut)
    requires
        moov_box(frames, disp, v).len() < 0x1_0000_0000,
        0 <= delay_of(disp) * v.fps.1 <= u32::MAX,
    ensures
        ({
            let m = moov_box(frames, disp, v);
            let e = inside(
                inside(track(m), letters(0x65, 0x64, 0x74, 0x73)),
                letters(0x65, 0x6c, 0x73, 0x74),
            );
            &&& be32_at(e, 4) == 1
            &&& be32_at(e, 8) == shown_ms(frames.len() as int, delay_of(disp), v.fps)
            &&& be32_at(e, 12) == delay_of(disp) * v.fps.1
        }),
{
    let ms = shown_ms(frames.len() as int, delay_of(disp), v.fps);
    lemma_types();
    lemma_video_track(frames, disp, v);
    lemma_edit_values(ms, delay_of(disp), v.fps.1);
}

proof fn lemma_video_media_values(frames: Seq<Frame>, disp: Seq<usize>, v: VideoOut)
    requires
        moov_box(frames, disp, v).len() < 0x1_0000_0000,
        frames.len() * v.fps.1 <= u32::MAX,
    ensures
        ({
            let m = moov_box(frames, disp, v);
            let d = inside(media(m), letters(0x6d, 0x64, 0x68, 0x64));
            &&& be32_at(d, 12) == v.fps.0
            &&& be32_at(d, 16) == frames.len() * v.fps.1
            &&& inside(media(m), letters(0x68, 0x64, 0x6c, 0x72)).subrange(8, 12) == letters(
                0x76,
                0x69,
                0x64,
                0x65,
            )
            &&& tables(m) == video_tables(frames, disp, v)
        }),
{
    let m = moov_box(frames, disp, v);
    let dur = (frames.len() * v.fps.1) as u32;
    assert(0 <= frames.len() * v.fps.1) by (nonlinear_arith)
        requires
            0 <= frames.len(),
            0 <= v.fps.1,
    ;
    lemma_video_media_found(frames, disp, v);
    lemma_media_values(v.fps.0, dur, VIDE@, handler_name());
    lemma_read_media(
        m,
        mdhd_box(v.fps.0, dur).skip(8),
        hdlr_box(VIDE@, handler_name()).skip(8),
        v.fps.0,
        dur,
        video_tables(frames, disp, v),
    );
}

proof fn lemma_read_media(
    m: Seq<u8>,
    times: Seq<u8>,
    handler: Seq<u8>,
    ts: u32,
    dur: u32,
    held: Seq<u8>,
)
    requires
        child(media(m), MDHD@) == Some(times),
        child(media(m), HDLR@) == Some(handler),
        child(inside(media(m), MINF@), STBL@) == Some(held),
        be32_at(times, 12) == ts,
        be32_at(times, 16) == dur,
        handler.subrange(8, 12) == VIDE@,
    ensures
        ({
            let d = inside(media(m), letters(0x6d, 0x64, 0x68, 0x64));
            &&& be32_at(d, 12) == ts
            &&& be32_at(d, 16) == dur
            &&& inside(media(m), letters(0x68, 0x64, 0x6c, 0x72)).subrange(8, 12) == letters(
                0x76,
                0x69,
                0x64,
                0x65,
            )
            &&& tables(m) == held
        }),
{
    lemma_types();
}

proof fn lemma_video_media_found(frames: Seq<Frame>, disp: Seq<usize>, v: VideoOut)
    requires
        moov_box(frames, disp, v).len() < 0x1_0000_0000,
    ensures
        ({
            let m = moov_box(frames, disp, v);
            let dur = (frames.len() * v.fps.1) as u32;
            &&& child(media(m), MDHD@) == Some(mdhd_box(v.fps.0, dur).skip(8))
            &&& child(media(m), HDLR@) == Some(hdlr_box(VIDE@, handler_name()).skip(8))
            &&& child(inside(media(m), MINF@), STBL@) == Some(video_tables(frames, disp, v))
        }),
{
    lemma_video_track(frames, disp, v);
    lemma_video_media(frames, disp, v, media(moov_box(frames, disp, v)));
}

proof fn lemma_header_values(ms: u32, w: u32, h: u32, audio: bool)
    requires
        w < 0x1_0000,
        h < 0x1_0000,
    ensures
        ({
            let b = mvhd_box(ms).skip(8);
            let t = tkhd_box(ms, w, h, audio).skip(8);
            &&& be32_at(b, 12) == 1000
            &&& be32_at(b, 16) == ms
            &&& be32_at(t, 20) == ms
            &&& be32_at(t, 36) == if audio {
                0x100_0000int
            } else {
                0
            }
            &&& be32_at(t, 76) == w * 0x1_0000
            &&& be32_at(t, 80) == h * 0x1_0000
        }),
{
    let none = Seq::<u8>::empty();
    lemma_types();
    lemma_headers(ms, w, h, audio);
    law_whole_box_is_found(mvhd_box(ms), MVHD@, none);
    law_whole_box_is_found(tkhd_box(ms, w, h, audio), TKHD@, none);
    law_movie_header_reads_back(ms, none);
    law_track_header_reads_back(ms, w, h, audio, none);
}

proof fn lemma_edit_values(ms: u32, hold: int, dur: u32)
    requires
        0 <= hold * dur <= u32::MAX,
    ensures
        ({
            let e = inside(edts_box(ms, hold, dur).skip(8), letters(0x65, 0x6c, 0x73, 0x74));
            &&& be32_at(e, 4) == 1
            &&& be32_at(e, 8) == ms
            &&& be32_at(e, 12) == hold * dur
        }),
{
    let none = Seq::<u8>::empty();
    lemma_types();
    lemma_edit_box(ms, hold, dur);
    law_whole_box_is_found(edts_box(ms, hold, dur), EDTS@, none);
    law_edit_reads_back(ms, hold, dur, none);
}

proof fn lemma_media_values(ts: u32, dur: u32, kind: Seq<u8>, name: Seq<u8>)
    requires
        kind.len() == 4,
        name.len() < 100,
    ensures
        ({
            let d = mdhd_box(ts, dur).skip(8);
            &&& be32_at(d, 12) == ts
            &&& be32_at(d, 16) == dur
            &&& hdlr_box(kind, name).skip(8).subrange(8, 12) == kind
        }),
{
    let none = Seq::<u8>::empty();
    lemma_types();
    lemma_media_headers(ts, dur, kind, name);
    law_whole_box_is_found(mdhd_box(ts, dur), MDHD@, none);
    law_whole_box_is_found(hdlr_box(kind, name), HDLR@, none);
    law_media_header_reads_back(ts, dur, none);
    law_handler_reads_back(kind, name, none);
}

proof fn lemma_hold_fits(disp: Seq<usize>, dur: u32)
    requires
        disp.len() * dur <= u32::MAX,
    ensures
        0 <= delay_of(disp) * dur <= u32::MAX,
        0 <= delay_of(disp) <= disp.len(),
{
    if disp.len() > 0 {
        lemma_delay_covers(disp, 0);
    }
    let h = delay_of(disp);
    let n = disp.len() as int;
    assert(0 <= h * dur <= n * dur) by (nonlinear_arith)
        requires
            0 <= h <= n,
            0 <= dur,
    ;
}

proof fn lemma_ms(n: int, hold: int, fps: (u32, u32))
    requires
        0 <= hold <= n,
        fps.0 > 0,
        (n - hold) * fps.1 * 1000 < fps.0 * 0x1_0000_0000,
    ensures
        ({
            let ms = shown_ms(n, hold, fps);
            ms * fps.0 <= (n - hold) * fps.1 * 1000 < (ms + 1) * fps.0
        }),
{
    let x = (n - hold) * fps.1 * 1000;
    let f = fps.0 as int;
    let q = x / f;
    assert(0 <= (n - hold) * fps.1) by (nonlinear_arith)
        requires
            0 <= hold <= n,
            0 <= fps.1,
    ;
    vstd::arithmetic::div_mod::lemma_fundamental_div_mod(x, f);
    vstd::arithmetic::div_mod::lemma_mod_bound(x, f);
    assert(0 <= q < 0x1_0000_0000 && q * f <= x < (q + 1) * f) by (nonlinear_arith)
        requires
            x == f * q + x % f,
            0 <= x % f < f,
            f > 0,
            0 <= x < f * 0x1_0000_0000,
    ;
}

proof fn lemma_full_box(t: Seq<u8>, flags: u32, body: Seq<u8>)
    requires
        t.len() == 4,
        full_box(t, 0, flags, body).len() < 0x1_0000_0000,
    ensures
        is_box(full_box(t, 0, flags, body), t),
{
    lemma_full(t, flags, body);
    lemma_is_box(t, be32_bytes(flags) + body);
}

proof fn lemma_table_boxes(frames: Seq<Frame>, disp: Seq<usize>, v: VideoOut)
    requires
        stsd_box(v).len() < 0x1_0000_0000,
        ctts_box(disp, v.fps.1).len() < 0x1_0000_0000,
        stss_box(frames).len() < 0x1_0000_0000,
        stsz_box(frames).len() < 0x1_0000_0000,
    ensures
        is_box(stsd_box(v), STSD@),
        is_box(ctts_box(disp, v.fps.1), CTTS@),
        is_box(stss_box(frames), STSS@),
        is_box(stsz_box(frames), STSZ@),
{
    let runs = runs_of(shifts_of(disp));
    lemma_full_box(STSD@, 0, be32_bytes(1) + box_bytes(AVC1@, sample_entry(v)));
    lemma_full_box(CTTS@, 0, be32_bytes(runs.len() as u32) + run_table(runs, v.fps.1));
    lemma_full_box(
        STSS@,
        0,
        be32_bytes(key_numbers(frames).len() as u32) + be32_table(key_numbers(frames)),
    );
    lemma_full_box(
        STSZ@,
        0,
        be32_bytes(0) + be32_bytes(low32(frames.len() as int)) + be32_table(sample_sizes(frames)),
    );
}

proof fn lemma_small_boxes(n: int, dur: u32, payload: int)
    ensures
        is_box(stts_box(n, dur), STTS@),
        is_box(stsc_box(n), STSC@),
        is_big(payload) ==> is_box(chunk_box(payload), CO64@),
        is_big(payload) == false ==> is_box(chunk_box(payload), STCO@),
{
    lemma_full_box(STTS@, 0, be32_bytes(1) + be32_bytes(low32(n)) + be32_bytes(dur));
    lemma_full_box(
        STSC@,
        0,
        be32_bytes(1) + be32_bytes(1) + be32_bytes(low32(n)) + be32_bytes(1),
    );
    lemma_full_box(CO64@, 0, be32_bytes(1) + be64_bytes(48));
    lemma_full_box(STCO@, 0, be32_bytes(1) + be32_bytes(40));
}

/// Whole boxes, one after the other.
pub open spec fn glued(list: Seq<Seq<u8>>) -> Seq<u8>
    decreases list.len(),
{
    if list.len() == 0 {
        Seq::empty()
    } else {
        list[0] + glued(list.skip(1))
    }
}

/// Among whole boxes, each of its own type, each is found, and one of another type is
/// not.
pub proof fn law_glued_boxes_are_found(list: Seq<Seq<u8>>, types: Seq<Seq<u8>>, t: Seq<u8>, k: int)
    requires
        types.len() == list.len(),
        forall|i: int| 0 <= i < list.len() ==> is_box(#[trigger] list[i], types[i]),
        0 <= k <= list.len(),
        forall|i: int| 0 <= i < k ==> #[trigger] types[i] != t,
    ensures
        k < list.len() && types[k] == t ==> child(glued(list), t) == Some(list[k].skip(8)),
        k == list.len() ==> child(glued(list), t) is None,
    decreases list.len(),
{
    reveal(child);
    if list.len() > 0 {
        let rest = list.skip(1);
        assert(is_box(list[0], types[0]));
        if k == 0 {
            if types[0] == t {
                law_whole_box_is_found(list[0], t, glued(rest));
            }
        } else {
            let others = types.skip(1);
            assert forall|i: int| 0 <= i < rest.len() implies is_box(
                #[trigger] rest[i],
                others[i],
            ) by {
                assert(rest[i] == list[i + 1]);
                assert(others[i] == types[i + 1]);
            }
            assert forall|i: int| 0 <= i < k - 1 implies #[trigger] others[i] != t by {
                assert(others[i] == types[i + 1]);
            }
            law_glued_boxes_are_found(rest, others, t, k - 1);
            assert(types[0] != t);
            lemma_passed(list[0], types[0], t, glued(rest));
            if k < list.len() {
                assert(rest[k - 1] == list[k]);
                assert(others[k - 1] == types[k]);
            }
        }
    }
}

proof fn lemma_glue_seven(
    a: Seq<u8>,
    b: Seq<u8>,
    c: Seq<u8>,
    d: Seq<u8>,
    e: Seq<u8>,
    f: Seq<u8>,
    g: Seq<u8>,
)
    ensures
        glued(seq![a, b, c, d, e, f, g]) == a + b + c + d + e + f + g,
        glued(seq![a, b, d, e, f, g]) == a + b + d + e + f + g,
{
    let l = seq![a, b, c, d, e, f, g];
    lemma_glue_five(c, d, e, f, g);
    assert(l.skip(1) =~= seq![b, c, d, e, f, g]);
    assert(seq![b, c, d, e, f, g].skip(1) =~= seq![c, d, e, f, g]);
    assert(glued(seq![b, c, d, e, f, g]) == b + glued(seq![c, d, e, f, g]));
    assert(glued(l) =~= a + b + c + d + e + f + g);
    let s = seq![a, b, d, e, f, g];
    assert(s.skip(1) =~= seq![b, d, e, f, g]);
    assert(seq![b, d, e, f, g].skip(1) =~= seq![d, e, f, g]);
    assert(glued(seq![b, d, e, f, g]) == b + glued(seq![d, e, f, g]));
    assert(glued(s) =~= a + b + d + e + f + g);
}

proof fn lemma_glue_five(c: Seq<u8>, d: Seq<u8>, e: Seq<u8>, f: Seq<u8>, g: Seq<u8>)
    ensures
        glued(seq![d, e, f, g]) == d + e + f + g,
        glued(seq![c, d, e, f, g]) == c + d + e + f + g,
{
    assert(seq![g].skip(1) =~= Seq::<Seq<u8>>::empty());
    assert(glued(Seq::<Seq<u8>>::empty()) == Seq::<u8>::empty());
    assert(glued(seq![g]) == seq![g][0] + glued(seq![g].skip(1)));
    assert(glued(seq![g]) =~= g);
    assert(seq![f, g].skip(1) =~= seq![g]);
    assert(glued(seq![f, g]) =~= f + g);
    assert(seq![e, f, g].skip(1) =~= seq![f, g]);
    assert(glued(seq![e, f, g]) =~= e + f + g);
    assert(seq![d, e, f, g].skip(1) =~= seq![e, f, g]);
    assert(glued(seq![d, e, f, g]) =~= d + e + f + g);
    assert(seq![c, d, e, f, g].skip(1) =~= seq![d, e, f, g]);
    assert(glued(seq![c, d, e, f, g]) =~= c + d + e + f + g);
}

proof fn lemma_seven(list: Seq<Seq<u8>>, last: Seq<u8>)
    requires
        list.len() == 7,
        is_box(list[0], STSD@),
        is_box(list[1], STTS@),
        is_box(list[2], CTTS@),
        is_box(list[3], STSS@),
        is_box(list[4], STSC@),
        is_box(list[5], STSZ@),
        is_box(list[6], last),
        last == STCO@ || last == CO64@,
    ensures
        child(glued(list), STSD@) == Some(list[0].skip(8)),
        child(glued(list), STTS@) == Some(list[1].skip(8)),
        child(glued(list), CTTS@) == Some(list[2].skip(8)),
        child(glued(list), STSS@) == Some(list[3].skip(8)),
        child(glued(list), STSC@) == Some(list[4].skip(8)),
        child(glued(list), STSZ@) == Some(list[5].skip(8)),
        child(glued(list), last) == Some(list[6].skip(8)),
{
    let types = seq![STSD@, STTS@, CTTS@, STSS@, STSC@, STSZ@, last];
    lemma_table_types();
    assert forall|i: int| 0 <= i < list.len() implies is_box(#[trigger] list[i], types[i]) by {}
    lemma_types_differ();
    law_glued_boxes_are_found(list, types, STSD@, 0);
    law_glued_boxes_are_found(list, types, STTS@, 1);
    law_glued_boxes_are_found(list, types, CTTS@, 2);
    law_glued_boxes_are_found(list, types, STSS@, 3);
    law_glued_boxes_are_found(list, types, STSC@, 4);
    law_glued_boxes_are_found(list, types, STSZ@, 5);
    law_glued_boxes_are_found(list, types, last, 6);
}

proof fn lemma_six(list: Seq<Seq<u8>>, last: Seq<u8>)
    requires
        list.len() == 6,
        is_box(list[0], STSD@),
        is_box(list[1], STTS@),
        is_box(list[2], STSS@),
        is_box(list[3], STSC@),
        is_box(list[4], STSZ@),
        is_box(list[5], last),
        last == STCO@ || last == CO64@,
    ensures
        child(glued(list), STSD@) == Some(list[0].skip(8)),
        child(glued(list), STTS@) == Some(list[1].skip(8)),
        child(glued(list), STSS@) == Some(list[2].skip(8)),
        child(glued(list), STSC@) == Some(list[3].skip(8)),
        child(glued(list), STSZ@) == Some(list[4].skip(8)),
        child(glued(list), last) == Some(list[5].skip(8)),
        child(glued(list), CTTS@) is None,
{
    let types = seq![STSD@, STTS@, STSS@, STSC@, STSZ@, last];
    lemma_table_types();
    assert forall|i: int| 0 <= i < list.len() implies is_box(#[trigger] list[i], types[i]) by {}
    lemma_types_differ();
    law_glued_boxes_are_found(list, types, STSD@, 0);
    law_glued_boxes_are_found(list, types, STTS@, 1);
    law_glued_boxes_are_found(list, types, STSS@, 2);
    law_glued_boxes_are_found(list, types, STSC@, 3);
    law_glued_boxes_are_found(list, types, STSZ@, 4);
    law_glued_boxes_are_found(list, types, last, 5);
    law_glued_boxes_are_found(list, types, CTTS@, 6);
}

proof fn lemma_types_differ()
    ensures
        STSD@ != STTS@ && STSD@ != CTTS@ && STSD@ != STSS@ && STSD@ != STSC@ && STSD@ != STSZ@,
        STTS@ != CTTS@ && STTS@ != STSS@ && STTS@ != STSC@ && STTS@ != STSZ@,
        CTTS@ != STSS@ && CTTS@ != STSC@ && CTTS@ != STSZ@,
        STSS@ != STSC@ && STSS@ != STSZ@ && STSC@ != STSZ@,
        STCO@ != STSD@ && STCO@ != STTS@ && STCO@ != CTTS@ && STCO@ != STSS@ && STCO@ != STSC@
            && STCO@ != STSZ@,
        CO64@ != STSD@ && CO64@ != STTS@ && CO64@ != CTTS@ && CO64@ != STSS@ && CO64@ != STSC@
            && CO64@ != STSZ@,
{
    lemma_table_types();
    lemma_letters_differ(STSD@, STTS@);
    lemma_letters_differ(STSD@, CTTS@);
    lemma_letters_differ(STSD@, STSS@);
    lemma_letters_differ(STSD@, STSC@);
    lemma_letters_differ(STSD@, STSZ@);
    lemma_letters_differ(STTS@, CTTS@);
    lemma_letters_differ(STTS@, STSS@);
    lemma_letters_differ(STTS@, STSC@);
    lemma_letters_differ(STTS@, STSZ@);
    lemma_letters_differ(CTTS@, STSS@);
    lemma_letters_differ(CTTS@, STSC@);
    lemma_letters_differ(CTTS@, STSZ@);
    lemma_letters_differ(STSS@, STSC@);
    lemma_letters_differ(STSS@, STSZ@);
    lemma_letters_differ(STSC@, STSZ@);
    lemma_letters_differ(STCO@, STSD@);
    lemma_letters_differ(STCO@, STTS@);
    lemma_letters_differ(STCO@, CTTS@);
    lemma_letters_differ(STCO@, STSS@);
    lemma_letters_differ(STCO@, STSC@);
    lemma_letters_differ(STCO@, STSZ@);
    lemma_letters_differ(CO64@, STSD@);
    lemma_letters_differ(CO64@, STTS@);
    lemma_letters_differ(CO64@, CTTS@);
    lemma_letters_differ(CO64@, STSS@);
    lemma_letters_differ(CO64@, STSC@);
    lemma_letters_differ(CO64@, STSZ@);
}

/// The tables that a player finds in the index of a video: how samples are coded, that
/// all of them last `fps.1`, their shifts where frames are held back and none where not,
/// the key frames, one chunk of all samples, their sizes, and where the chunk starts.
pub proof fn law_video_tables_are_found(frames: Seq<Frame>, disp: Seq<usize>, v: VideoOut)
    requires
        stbl_box(frames, disp, v).len() < 0x1_0000_0000,
    ensures
        ({
            let b = video_tables(frames, disp, v);
            let n = frames.len() as int;
            let chunk = chunk_box(payload_len(frames));
            &&& child(b, letters(0x73, 0x74, 0x73, 0x64)) == Some(stsd_box(v).skip(8))
            &&& child(b, letters(0x73, 0x74, 0x74, 0x73)) == Some(stts_box(n, v.fps.1).skip(8))
            &&& child(b, letters(0x73, 0x74, 0x73, 0x73)) == Some(stss_box(frames).skip(8))
            &&& child(b, letters(0x73, 0x74, 0x73, 0x63)) == Some(stsc_box(n).skip(8))
            &&& child(b, letters(0x73, 0x74, 0x73, 0x7a)) == Some(stsz_box(frames).skip(8))
            &&& child(b, letters(0x63, 0x74, 0x74, 0x73)) == if delay_of(disp) > 0 {
                Some(ctts_box(disp, v.fps.1).skip(8))
            } else {
                None
            }
            &&& child(
                b,
                if payload_len(frames) + 8 > 0xffff_fff0 {
                    letters(0x63, 0x6f, 0x36, 0x34)
                } else {
                    letters(0x73, 0x74, 0x63, 0x6f)
                },
            ) == Some(chunk.skip(8))
        }),
{
    let n = frames.len() as int;
    let payload = payload_len(frames);
    lemma_small_boxes(n, v.fps.1, payload);
    lemma_held(frames, disp, v);
    lemma_some_table_boxes(frames, v);
    if delay_of(disp) > 0 {
        lemma_table_boxes(frames, disp, v);
    }
    lemma_tables(
        video_tables(frames, disp, v),
        delay_of(disp) > 0,
        is_big(payload),
        stsd_box(v),
        stts_box(n, v.fps.1),
        ctts_box(disp, v.fps.1),
        stss_box(frames),
        stsc_box(n),
        stsz_box(frames),
        chunk_box(payload),
    );
}

proof fn lemma_tables(
    held: Seq<u8>,
    late: bool,
    big: bool,
    a: Seq<u8>,
    b: Seq<u8>,
    c: Seq<u8>,
    d: Seq<u8>,
    e: Seq<u8>,
    f: Seq<u8>,
    g: Seq<u8>,
)
    requires
        is_box(a, STSD@),
        is_box(b, STTS@),
        late ==> is_box(c, CTTS@),
        is_box(d, STSS@),
        is_box(e, STSC@),
        is_box(f, STSZ@),
        big ==> is_box(g, CO64@),
        big == false ==> is_box(g, STCO@),
        late ==> held == glued(seq![a, b, c, d, e, f, g]),
        late == false ==> held == glued(seq![a, b, d, e, f, g]),
    ensures
        child(held, letters(0x73, 0x74, 0x73, 0x64)) == Some(a.skip(8)),
        child(held, letters(0x73, 0x74, 0x74, 0x73)) == Some(b.skip(8)),
        child(held, letters(0x73, 0x74, 0x73, 0x73)) == Some(d.skip(8)),
        child(held, letters(0x73, 0x74, 0x73, 0x63)) == Some(e.skip(8)),
        child(held, letters(0x73, 0x74, 0x73, 0x7a)) == Some(f.skip(8)),
        child(held, letters(0x63, 0x74, 0x74, 0x73)) == if late {
            Some(c.skip(8))
        } else {
            None
        },
        child(
            held,
            if big {
                letters(0x63, 0x6f, 0x36, 0x34)
            } else {
                letters(0x73, 0x74, 0x63, 0x6f)
            },
        ) == Some(g.skip(8)),
{
    let last = if big {
        CO64@
    } else {
        STCO@
    };
    lemma_table_types();
    if late {
        lemma_seven(seq![a, b, c, d, e, f, g], last);
    } else {
        lemma_six(seq![a, b, d, e, f, g], last);
    }
}

proof fn lemma_some_table_boxes(frames: Seq<Frame>, v: VideoOut)
    requires
        stsd_box(v).len() < 0x1_0000_0000,
        stss_box(frames).len() < 0x1_0000_0000,
        stsz_box(frames).len() < 0x1_0000_0000,
    ensures
        is_box(stsd_box(v), STSD@),
        is_box(stss_box(frames), STSS@),
        is_box(stsz_box(frames), STSZ@),
{
    lemma_full_box(STSD@, 0, be32_bytes(1) + box_bytes(AVC1@, sample_entry(v)));
    lemma_full_box(
        STSS@,
        0,
        be32_bytes(key_numbers(frames).len() as u32) + be32_table(key_numbers(frames)),
    );
    lemma_full_box(
        STSZ@,
        0,
        be32_bytes(0) + be32_bytes(low32(frames.len() as int)) + be32_table(sample_sizes(frames)),
    );
}

proof fn lemma_held(frames: Seq<Frame>, disp: Seq<usize>, v: VideoOut)
    requires
        stbl_box(frames, disp, v).len() < 0x1_0000_0000,
    ensures
        stsd_box(v).len() < 0x1_0000_0000,
        stss_box(frames).len() < 0x1_0000_0000,
        stsz_box(frames).len() < 0x1_0000_0000,
        delay_of(disp) > 0 ==> ctts_box(disp, v.fps.1).len() < 0x1_0000_0000,
        delay_of(disp) > 0 ==> video_tables(frames, disp, v) == glued(
            seq![
                stsd_box(v),
                stts_box(frames.len() as int, v.fps.1),
                ctts_box(disp, v.fps.1),
                stss_box(frames),
                stsc_box(frames.len() as int),
                stsz_box(frames),
                chunk_box(payload_len(frames)),
            ],
        ),
        delay_of(disp) <= 0 ==> video_tables(frames, disp, v) == glued(
            seq![
                stsd_box(v),
                stts_box(frames.len() as int, v.fps.1),
                stss_box(frames),
                stsc_box(frames.len() as int),
                stsz_box(frames),
                chunk_box(payload_len(frames)),
            ],
        ),
{
    lemma_glue(
        stbl_box(frames, disp, v),
        delay_of(disp) > 0,
        stsd_box(v),
        stts_box(frames.len() as int, v.fps.1),
        ctts_box(disp, v.fps.1),
        stss_box(frames),
        stsc_box(frames.len() as int),
        stsz_box(frames),
        chunk_box(payload_len(frames)),
    );
}

proof fn lemma_glue(
    stbl: Seq<u8>,
    late: bool,
    a: Seq<u8>,
    b: Seq<u8>,
    c: Seq<u8>,
    d: Seq<u8>,
    e: Seq<u8>,
    f: Seq<u8>,
    g: Seq<u8>,
)
    requires
        stbl == box_bytes(
            STBL@,
            a + b + (if late {
                c
            } else {
                Seq::empty()
            }) + d + e + f + g,
        ),
        stbl.len() < 0x1_0000_0000,
    ensures
        a.len() < 0x1_0000_0000 && d.len() < 0x1_0000_0000 && f.len() < 0x1_0000_0000,
        late ==> c.len() < 0x1_0000_0000,
        late ==> stbl.skip(8) == glued(seq![a, b, c, d, e, f, g]),
        late == false ==> stbl.skip(8) == glued(seq![a, b, d, e, f, g]),
{
    let held = a + b + (if late {
        c
    } else {
        Seq::empty()
    }) + d + e + f + g;
    lemma_types();
    lemma_is_box(STBL@, held);
    lemma_glue_seven(a, b, c, d, e, f, g);
    if late == false {
        assert(a + b + Seq::<u8>::empty() =~= a + b);
    }
}

/// What the tables of the audio are.
pub open spec fn audio_tables(total: u32, rate: u32, ch: u32, config: u16) -> Seq<u8> {
    audio_stbl_box(total, rate, ch, config).skip(8)
}

proof fn lemma_audio_media(total: u32, rate: u32, ch: u32, config: u16)
    ensures
        ({
            let m = audio_moov_box(total, rate, ch, config);
            let ms = (1_000_000int * 1000 / rate as int) as u32;
            &&& m.len() < 10000
            &&& child(movie(m), MVHD@) == Some(mvhd_box(ms).skip(8))
            &&& child(track(m), TKHD@) == Some(tkhd_box(ms, 0, 0, true).skip(8))
            &&& child(media(m), MDHD@) == Some(mdhd_box(rate, 1_000_000).skip(8))
            &&& child(media(m), HDLR@) == Some(hdlr_box(SOUN@, audio_handler_name()).skip(8))
            &&& tables(m) == audio_tables(total, rate, ch, config)
        }),
{
    lemma_audio_stbl(total, rate, ch, config);
    lemma_audio_movie(
        audio_moov_box(total, rate, ch, config),
        (1_000_000int * 1000 / rate as int) as u32,
        rate,
        audio_tables(total, rate, ch, config),
    );
}

proof fn lemma_audio_stbl(total: u32, rate: u32, ch: u32, config: u16)
    ensures
        audio_stbl_box(total, rate, ch, config) == box_bytes(
            STBL@,
            audio_tables(total, rate, ch, config),
        ),
        audio_tables(total, rate, ch, config).len() < 1000,
{
    let held = audio_stsd_box(rate, ch, config) + full_box(
        STTS@,
        0,
        0,
        be32_bytes(1) + be32_bytes(1) + be32_bytes(NOMINAL_DURATION),
    ) + full_box(
        STSC@,
        0,
        0,
        be32_bytes(1) + be32_bytes(1) + be32_bytes(1) + be32_bytes(1),
    ) + full_box(STSZ@, 0, 0, be32_bytes(total) + be32_bytes(1)) + full_box(
        STCO@,
        0,
        0,
        be32_bytes(1) + be32_bytes(40),
    );
    assert(audio_stbl_box(total, rate, ch, config) == box_bytes(STBL@, held));
    lemma_is_box(STBL@, held);
}

/// The movie of audio whose tables are `held`.
spec fn audio_movie_of(ms: u32, rate: u32, held: Seq<u8>) -> Seq<u8> {
    let inner = full_box(SMHD@, 0, 0, zero_bytes(4)) + dinf_box() + box_bytes(STBL@, held);
    let around = mdhd_box(rate, 1_000_000) + hdlr_box(SOUN@, audio_handler_name()) + box_bytes(
        MINF@,
        inner,
    );
    box_bytes(
        MOOV@,
        mvhd_box(ms) + box_bytes(TRAK@, tkhd_box(ms, 0, 0, true) + box_bytes(MDIA@, around)),
    )
}

proof fn lemma_audio_movie(m: Seq<u8>, ms: u32, rate: u32, held: Seq<u8>)
    requires
        m == audio_movie_of(ms, rate, held),
        held.len() < 1000,
    ensures
        m.len() < 10000,
        child(movie(m), MVHD@) == Some(mvhd_box(ms).skip(8)),
        child(track(m), TKHD@) == Some(tkhd_box(ms, 0, 0, true).skip(8)),
        child(media(m), MDHD@) == Some(mdhd_box(rate, 1_000_000).skip(8)),
        child(media(m), HDLR@) == Some(hdlr_box(SOUN@, audio_handler_name()).skip(8)),
        tables(m) == held,
{
    let general = full_box(SMHD@, 0, 0, zero_bytes(4));
    let around = mdhd_box(rate, 1_000_000) + hdlr_box(SOUN@, audio_handler_name()) + box_bytes(
        MINF@,
        general + dinf_box() + box_bytes(STBL@, held),
    );
    lemma_containers_differ();
    lemma_general(SMHD@, 0, 4);
    lemma_data_box();
    lemma_headers(ms, 0, 0, true);
    lemma_media_headers(rate, 1_000_000, SOUN@, audio_handler_name());
    lemma_header_lens(ms, rate);
    lemma_other_lens();
    let n = lemma_around_len(
        mdhd_box(rate, 1_000_000),
        hdlr_box(SOUN@, audio_handler_name()),
        general,
        dinf_box(),
        held,
    );
    lemma_movie_len(mvhd_box(ms), tkhd_box(ms, 0, 0, true), around);
    lemma_media(
        around,
        mdhd_box(rate, 1_000_000),
        hdlr_box(SOUN@, audio_handler_name()),
        general,
        SMHD@,
        dinf_box(),
        held,
    );
    lemma_audio_track(m, ms, around);
}

proof fn lemma_box_len(t: Seq<u8>, body: Seq<u8>)
    requires
        t.len() == 4,
    ensures
        box_bytes(t, body).len() == 8 + body.len(),
{
}

proof fn lemma_header_lens(ms: u32, rate: u32)
    ensures
        mvhd_box(ms).len() == 108,
        tkhd_box(ms, 0, 0, true).len() == 92,
        mdhd_box(rate, 1_000_000).len() == 32,
{
}

proof fn lemma_other_lens()
    ensures
        hdlr_box(SOUN@, audio_handler_name()).len() == 34,
        dinf_box().len() == 36,
        full_box(SMHD@, 0, 0, zero_bytes(4)).len() == 16,
{
}

/// How long the boxes are that stand around tables.
proof fn lemma_around_len(
    a: Seq<u8>,
    b: Seq<u8>,
    general: Seq<u8>,
    data: Seq<u8>,
    held: Seq<u8>,
) -> (n: int)
    ensures
        n == (a + b + box_bytes(MINF@, general + data + box_bytes(STBL@, held))).len(),
        n == a.len() + b.len() + 16 + general.len() + data.len() + held.len(),
{
    lemma_containers_differ();
    lemma_box_len(STBL@, held);
    let inner = general + data + box_bytes(STBL@, held);
    lemma_box_len(MINF@, inner);
    (a + b + box_bytes(MINF@, inner)).len() as int
}

proof fn lemma_movie_len(head: Seq<u8>, about: Seq<u8>, around: Seq<u8>)
    ensures
        box_bytes(MOOV@, head + box_bytes(TRAK@, about + box_bytes(MDIA@, around))).len() == 24
            + head.len() + about.len() + around.len(),
{
    lemma_containers_differ();
    lemma_box_len(MDIA@, around);
    let track = about + box_bytes(MDIA@, around);
    lemma_box_len(TRAK@, track);
    lemma_box_len(MOOV@, head + box_bytes(TRAK@, track));
}

proof fn lemma_audio_track(m: Seq<u8>, ms: u32, around: Seq<u8>)
    requires
        m == box_bytes(
            MOOV@,
            mvhd_box(ms) + box_bytes(TRAK@, tkhd_box(ms, 0, 0, true) + box_bytes(MDIA@, around)),
        ),
        m.len() < 10000,
        around.len() < 5000,
    ensures
        child(movie(m), MVHD@) == Some(mvhd_box(ms).skip(8)),
        child(track(m), TKHD@) == Some(tkhd_box(ms, 0, 0, true).skip(8)),
        media(m) == around,
        MINF@ == letters(0x6d, 0x69, 0x6e, 0x66),
        STBL@ == letters(0x73, 0x74, 0x62, 0x6c),
{
    lemma_types();
    lemma_containers_differ();
    lemma_movie(m, ms, tkhd_box(ms, 0, 0, true) + box_bytes(MDIA@, around));
    lemma_headers(ms, 0, 0, true);
    lemma_is_box(MDIA@, around);
    lemma_two(tkhd_box(ms, 0, 0, true), TKHD@, box_bytes(MDIA@, around), MDIA@);
}

/// What a player reads in the index of audio: times in thousandths of a second, full
/// volume and no size, `rate` units a second, and that it is sound.
pub proof fn law_audio_index_reads_back(total: u32, rate: u32, ch: u32, config: u16)
    requires
        rate > 0,
    ensures
        ({
            let m = audio_moov_box(total, rate, ch, config);
            let h = inside(movie(m), letters(0x6d, 0x76, 0x68, 0x64));
            let t = inside(track(m), letters(0x74, 0x6b, 0x68, 0x64));
            let d = inside(media(m), letters(0x6d, 0x64, 0x68, 0x64));
            let ms = be32_at(h, 16);
            &&& be32_at(h, 12) == 1000
            &&& ms * rate <= 1_000_000_000 < (ms + 1) * rate
            &&& be32_at(t, 20) == ms
            &&& be32_at(t, 36) == 0x100_0000
            &&& be32_at(t, 76) == 0
            &&& be32_at(t, 80) == 0
            &&& be32_at(d, 12) == rate
            &&& be32_at(d, 16) == 1_000_000
            &&& inside(media(m), letters(0x68, 0x64, 0x6c, 0x72)).subrange(8, 12) == letters(
                0x73,
                0x6f,
                0x75,
                0x6e,
            )
            &&& tables(m) == audio_tables(total, rate, ch, config)
        }),
{
    let m = audio_moov_box(total, rate, ch, config);
    let ms = (1_000_000int * 1000 / rate as int) as u32;
    lemma_audio_media(total, rate, ch, config);
    lemma_header_values(ms, 0, 0, true);
    lemma_media_values(rate, 1_000_000, SOUN@, audio_handler_name());
    let r = rate as int;
    let q = 1_000_000_000int / r;
    vstd::arithmetic::div_mod::lemma_fundamental_div_mod(1_000_000_000, r);
    vstd::arithmetic::div_mod::lemma_mod_bound(1_000_000_000, r);
    assert(0 <= q <= 1_000_000_000 && q * r <= 1_000_000_000 < (q + 1) * r) by (nonlinear_arith)
        requires
            1_000_000_000 == r * q + 1_000_000_000int % r,
            0 <= 1_000_000_000int % r < r,
            r > 0,
    ;
    lemma_read_audio(
        m,
        mvhd_box(ms).skip(8),
        tkhd_box(ms, 0, 0, true).skip(8),
        mdhd_box(rate, 1_000_000).skip(8),
        hdlr_box(SOUN@, audio_handler_name()).skip(8),
    );
}

proof fn lemma_read_audio(
    m: Seq<u8>,
    head: Seq<u8>,
    about: Seq<u8>,
    times: Seq<u8>,
    handler: Seq<u8>,
)
    requires
        child(movie(m), MVHD@) == Some(head),
        child(track(m), TKHD@) == Some(about),
        child(media(m), MDHD@) == Some(times),
        child(media(m), HDLR@) == Some(handler),
    ensures
        inside(movie(m), letters(0x6d, 0x76, 0x68, 0x64)) == head,
        inside(track(m), letters(0x74, 0x6b, 0x68, 0x64)) == about,
        inside(media(m), letters(0x6d, 0x64, 0x68, 0x64)) == times,
        inside(media(m), letters(0x68, 0x64, 0x6c, 0x72)) == handler,
        SOUN@ == letters(0x73, 0x6f, 0x75, 0x6e),
{
    lemma_types();
}

/// The descriptors of the stream, each with its length: AAC, the configuration of its
/// decoder, and the kind of synchronisation.
pub proof fn law_stream_descriptor_reads_back(config: u16)
    ensures
        ({
            let d = stream_descriptor(config);
            &&& d[0] == 3 && d.len() == 2 + d[1]
            &&& d[5] == 4 && 7 + d[6] == 24
            &&& d[7] == 0x40
            &&& d[20] == 5 && 22 + d[21] == 24
            &&& be16_at(d, 22) == config
            &&& d[24] == 6 && d.len() == 26 + d[25]
        }),
{
    let d = stream_descriptor(config);
    assert(d.subrange(22, 24) =~= be16_bytes(config));
    lemma_be16_at(d, 22, config);
}

/// The tables that a player finds in the index of audio: one entry, AAC, with its
/// channels, 16 bits and its rate; one sample, of `total` bytes, in one chunk, behind
/// the brands, of 32 bytes, and the header of the media data, of 8.
pub proof fn law_audio_tables_read_back(total: u32, rate: u32, ch: u32, config: u16)
    requires
        rate < 0x1_0000,
        ch < 0x1_0000,
    ensures
        ({
            let b = audio_tables(total, rate, ch, config);
            let a = inside(b, letters(0x73, 0x74, 0x73, 0x64));
            let e = inside(a.skip(8), letters(0x6d, 0x70, 0x34, 0x61));
            let s = inside(e.skip(28), letters(0x65, 0x73, 0x64, 0x73));
            &&& be32_at(a, 4) == 1
            &&& be16_at(e, 16) == ch
            &&& be16_at(e, 18) == 16
            &&& be32_at(e, 24) == rate * 0x1_0000
            &&& s.skip(4) == stream_descriptor(config)
        }),
        ({
            let b = audio_tables(total, rate, ch, config);
            let t = inside(b, letters(0x73, 0x74, 0x74, 0x73));
            let c = inside(b, letters(0x73, 0x74, 0x73, 0x63));
            let z = inside(b, letters(0x73, 0x74, 0x73, 0x7a));
            let o = inside(b, letters(0x73, 0x74, 0x63, 0x6f));
            &&& be32_at(t, 4) == 1 && be32_at(t, 8) == 1 && be32_at(t, 12) == 1_000_000
            &&& be32_at(c, 4) == 1 && be32_at(c, 8) == 1 && be32_at(c, 12) == 1 && be32_at(c, 16)
                == 1
            &&& be32_at(z, 4) == total && be32_at(z, 8) == 1
            &&& be32_at(o, 4) == 1 && be32_at(o, 8) == 40
        }),
{
    let a = audio_stsd_box(rate, ch, config);
    let t = be32_bytes(1) + be32_bytes(1) + be32_bytes(1_000_000);
    let c = be32_bytes(1) + be32_bytes(1) + be32_bytes(1) + be32_bytes(1);
    let z = be32_bytes(total) + be32_bytes(1);
    let o = be32_bytes(1) + be32_bytes(40);
    lemma_table_types();
    lemma_full_box(STSD@, 0, be32_bytes(1) + box_bytes(MP4A@, audio_entry(rate, ch, config)));
    lemma_audio_boxes(
        audio_stbl_box(total, rate, ch, config),
        a,
        full_box(STTS@, 0, 0, t),
        full_box(STSC@, 0, 0, c),
        full_box(STSZ@, 0, 0, z),
        full_box(STCO@, 0, 0, o),
        t,
        c,
        z,
        o,
    );
    lemma_audio_entry(rate, ch, config);
    lemma_audio_numbers(total);
    law_whole_box_is_found(a, STSD@, Seq::empty());
}

proof fn lemma_audio_boxes(
    stbl: Seq<u8>,
    a: Seq<u8>,
    b: Seq<u8>,
    d: Seq<u8>,
    e: Seq<u8>,
    f: Seq<u8>,
    t: Seq<u8>,
    c: Seq<u8>,
    z: Seq<u8>,
    o: Seq<u8>,
)
    requires
        stbl == box_bytes(STBL@, a + b + d + e + f),
        a.len() < 1000,
        is_box(a, STSD@),
        b == full_box(STTS@, 0, 0, t),
        d == full_box(STSC@, 0, 0, c),
        e == full_box(STSZ@, 0, 0, z),
        f == full_box(STCO@, 0, 0, o),
        t.len() < 100 && c.len() < 100 && z.len() < 100 && o.len() < 100,
    ensures
        child(stbl.skip(8), STSD@) == Some(a.skip(8)),
        child(stbl.skip(8), STTS@) == Some(be32_bytes(0) + t),
        child(stbl.skip(8), STSC@) == Some(be32_bytes(0) + c),
        child(stbl.skip(8), STSZ@) == Some(be32_bytes(0) + z),
        child(stbl.skip(8), STCO@) == Some(be32_bytes(0) + o),
{
    lemma_full(STTS@, 0, t);
    lemma_full(STSC@, 0, c);
    lemma_full(STSZ@, 0, z);
    lemma_full(STCO@, 0, o);
    lemma_is_box(STTS@, be32_bytes(0) + t);
    lemma_is_box(STSC@, be32_bytes(0) + c);
    lemma_is_box(STSZ@, be32_bytes(0) + z);
    lemma_is_box(STCO@, be32_bytes(0) + o);
    lemma_is_box(STBL@, a + b + d + e + f);
    lemma_five(a, b, d, e, f);
}

proof fn lemma_five(a: Seq<u8>, b: Seq<u8>, d: Seq<u8>, e: Seq<u8>, f: Seq<u8>)
    requires
        is_box(a, STSD@),
        is_box(b, STTS@),
        is_box(d, STSC@),
        is_box(e, STSZ@),
        is_box(f, STCO@),
    ensures
        child(a + b + d + e + f, STSD@) == Some(a.skip(8)),
        child(a + b + d + e + f, STTS@) == Some(b.skip(8)),
        child(a + b + d + e + f, STSC@) == Some(d.skip(8)),
        child(a + b + d + e + f, STSZ@) == Some(e.skip(8)),
        child(a + b + d + e + f, STCO@) == Some(f.skip(8)),
{
    let list = seq![a, b, d, e, f];
    let types = seq![STSD@, STTS@, STSC@, STSZ@, STCO@];
    lemma_glue_five(a, b, d, e, f);
    lemma_types_differ();
    assert forall|i: int| 0 <= i < list.len() implies is_box(#[trigger] list[i], types[i]) by {}
    law_glued_boxes_are_found(list, types, STSD@, 0);
    law_glued_boxes_are_found(list, types, STTS@, 1);
    law_glued_boxes_are_found(list, types, STSC@, 2);
    law_glued_boxes_are_found(list, types, STSZ@, 3);
    law_glued_boxes_are_found(list, types, STCO@, 4);
}

proof fn lemma_audio_numbers(total: u32)
    ensures
        ({
            let t = be32_bytes(0) + (be32_bytes(1) + be32_bytes(1) + be32_bytes(1_000_000));
            let c = be32_bytes(0) + (be32_bytes(1) + be32_bytes(1) + be32_bytes(1) + be32_bytes(1));
            let z = be32_bytes(0) + (be32_bytes(total) + be32_bytes(1));
            let o = be32_bytes(0) + (be32_bytes(1) + be32_bytes(40));
            &&& be32_at(t, 4) == 1 && be32_at(t, 8) == 1 && be32_at(t, 12) == 1_000_000
            &&& be32_at(c, 4) == 1 && be32_at(c, 8) == 1 && be32_at(c, 12) == 1 && be32_at(c, 16)
                == 1
            &&& be32_at(z, 4) == total && be32_at(z, 8) == 1
            &&& be32_at(o, 4) == 1 && be32_at(o, 8) == 40
        }),
{
}

proof fn lemma_audio_entry(rate: u32, ch: u32, config: u16)
    requires
        rate < 0x1_0000,
        ch < 0x1_0000,
    ensures
        ({
            let a = inside(
                audio_stsd_box(rate, ch, config) + Seq::<u8>::empty(),
                letters(0x73, 0x74, 0x73, 0x64),
            );
            let e = inside(a.skip(8), letters(0x6d, 0x70, 0x34, 0x61));
            let s = inside(e.skip(28), letters(0x65, 0x73, 0x64, 0x73));
            &&& be32_at(a, 4) == 1
            &&& be16_at(e, 16) == ch
            &&& be16_at(e, 18) == 16
            &&& be32_at(e, 24) == rate * 0x1_0000
            &&& s.skip(4) == stream_descriptor(config)
        }),
{
    let e = audio_entry(rate, ch, config);
    let esds = full_box(ESDS@, 0, 0, stream_descriptor(config));
    lemma_table_types();
    lemma_one_entry(STSD@, MP4A@, e, Seq::empty());
    lemma_audio_fields(rate, ch as u16, esds);
    assert(e.skip(28) =~= esds);
    lemma_full(ESDS@, 0, stream_descriptor(config));
    lemma_is_box(ESDS@, be32_bytes(0) + stream_descriptor(config));
    lemma_alone(esds, ESDS@);
    assert((be32_bytes(0) + stream_descriptor(config)).skip(4) =~= stream_descriptor(config));
}

proof fn lemma_audio_fields(rate: u32, ch: u16, tail: Seq<u8>)
    requires
        rate < 0x1_0000,
    ensures
        ({
            let e = zero_bytes(6) + be16_bytes(1) + zero_bytes(8) + be16_bytes(ch) + be16_bytes(16)
                + zero_bytes(4) + be32_bytes(rate << 16) + tail;
            &&& be16_at(e, 16) == ch
            &&& be16_at(e, 18) == 16
            &&& be32_at(e, 24) == rate * 0x1_0000
        }),
{
    let e = zero_bytes(6) + be16_bytes(1) + zero_bytes(8) + be16_bytes(ch) + be16_bytes(16)
        + zero_bytes(4) + be32_bytes(rate << 16) + tail;
    lemma_fixed_point(rate);
    assert(e.subrange(16, 18) =~= be16_bytes(ch));
    assert(e.subrange(18, 20) =~= be16_bytes(16));
    assert(e.subrange(24, 28) =~= be32_bytes(rate << 16));
    lemma_be16_at(e, 16, ch);
    lemma_be16_at(e, 18, 16);
    lemma_be32_at(e, 24, rate << 16);
}

} // verus!
