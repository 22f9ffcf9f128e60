//! The boxes that an MP4 index is made of.

use crate::bytes::{be32, be32_at, be32_bytes, low32, put, put_be32, put_zeros, zero_bytes};
use vstd::prelude::*;

verus! {

/// `ftyp`
pub const FTYP: [u8; 4] = [0x66, 0x74, 0x79, 0x70];

/// `mdat`
pub const MDAT: [u8; 4] = [0x6d, 0x64, 0x61, 0x74];

/// `moov`
pub const MOOV: [u8; 4] = [0x6d, 0x6f, 0x6f, 0x76];

/// `mvhd`
pub const MVHD: [u8; 4] = [0x6d, 0x76, 0x68, 0x64];

/// `trak`
pub const TRAK: [u8; 4] = [0x74, 0x72, 0x61, 0x6b];

/// `tkhd`
pub const TKHD: [u8; 4] = [0x74, 0x6b, 0x68, 0x64];

/// `edts`
pub const EDTS: [u8; 4] = [0x65, 0x64, 0x74, 0x73];

/// `elst`
pub const ELST: [u8; 4] = [0x65, 0x6c, 0x73, 0x74];

/// `mdia`
pub const MDIA: [u8; 4] = [0x6d, 0x64, 0x69, 0x61];

/// `mdhd`
pub const MDHD: [u8; 4] = [0x6d, 0x64, 0x68, 0x64];

/// `hdlr`
pub const HDLR: [u8; 4] = [0x68, 0x64, 0x6c, 0x72];

/// `minf`
pub const MINF: [u8; 4] = [0x6d, 0x69, 0x6e, 0x66];

/// `vmhd`
pub const VMHD: [u8; 4] = [0x76, 0x6d, 0x68, 0x64];

/// `smhd`
pub const SMHD: [u8; 4] = [0x73, 0x6d, 0x68, 0x64];

/// `dinf`
pub const DINF: [u8; 4] = [0x64, 0x69, 0x6e, 0x66];

/// `dref`
pub const DREF: [u8; 4] = [0x64, 0x72, 0x65, 0x66];

/// `stbl`
pub const STBL: [u8; 4] = [0x73, 0x74, 0x62, 0x6c];

/// `stsd`
pub const STSD: [u8; 4] = [0x73, 0x74, 0x73, 0x64];

/// `stts`
pub const STTS: [u8; 4] = [0x73, 0x74, 0x74, 0x73];

/// `ctts`
pub const CTTS: [u8; 4] = [0x63, 0x74, 0x74, 0x73];

/// `stss`
pub const STSS: [u8; 4] = [0x73, 0x74, 0x73, 0x73];

/// `stsc`
pub const STSC: [u8; 4] = [0x73, 0x74, 0x73, 0x63];

/// `stsz`
pub const STSZ: [u8; 4] = [0x73, 0x74, 0x73, 0x7a];

/// `stco`
pub const STCO: [u8; 4] = [0x73, 0x74, 0x63, 0x6f];

/// `co64`
pub const CO64: [u8; 4] = [0x63, 0x6f, 0x36, 0x34];

/// `avc1`
pub const AVC1: [u8; 4] = [0x61, 0x76, 0x63, 0x31];

/// `avcC`
pub const AVCC: [u8; 4] = [0x61, 0x76, 0x63, 0x43];

/// `mp4a`
pub const MP4A: [u8; 4] = [0x6d, 0x70, 0x34, 0x61];

/// `esds`
pub const ESDS: [u8; 4] = [0x65, 0x73, 0x64, 0x73];

/// `url `
pub const URL: [u8; 4] = [0x75, 0x72, 0x6c, 0x20];

/// `vide`
pub const VIDE: [u8; 4] = [0x76, 0x69, 0x64, 0x65];

/// `soun`
pub const SOUN: [u8; 4] = [0x73, 0x6f, 0x75, 0x6e];

/// `isom`
pub const ISOM: [u8; 4] = [0x69, 0x73, 0x6f, 0x6d];

/// The brands that a file is compatible with: `isomiso2avc1mp41`
pub const BRANDS: [u8; 16] = [
    0x69,
    0x73,
    0x6f,
    0x6d,
    0x69,
    0x73,
    0x6f,
    0x32,
    0x61,
    0x76,
    0x63,
    0x31,
    0x6d,
    0x70,
    0x34,
    0x31,
];

/// The bytes of `parts`, one part after the other.
pub open spec fn joined(parts: Seq<&[u8]>) -> Seq<u8>
    decreases parts.len(),
{
    if parts.len() == 0 {
        Seq::empty()
    } else {
        joined(parts.drop_last()) + parts.last()@
    }
}

/// A box: its size, its type, its contents. The size has 32 bits only.
pub open spec fn box_bytes(t: Seq<u8>, body: Seq<u8>) -> Seq<u8> {
    be32_bytes(low32(8 + body.len() as int)) + t + body
}

/// A full box: one whose contents start with eight bits of version and 24 of
/// flags.
pub open spec fn full_box(t: Seq<u8>, version: u8, flags: u32, body: Seq<u8>) -> Seq<u8> {
    box_bytes(t, be32_bytes(((version as u32) << 24) | flags) + body)
}

/// Appends `parts`, one after the other.
fn put_parts(o: &mut Vec<u8>, parts: &[&[u8]])
    ensures
        final(o)@ == old(o)@ + joined(parts@),
{
    let ghost start = o@;
    let mut i: usize = 0;
    assert(start + joined(parts@.take(0)) =~= start);
    while i < parts.len()
        invariant
            i <= parts@.len(),
            o@ == start + joined(parts@.take(i as int)),
        decreases parts@.len() - i,
    {
        put(o, parts[i]);
        proof {
            let t = parts@.take(i + 1);
            assert(t.drop_last() =~= parts@.take(i as int));
            assert(start + joined(t.drop_last()) + t.last()@ =~= start + joined(t));
        }
        i = i + 1;
    }
    assert(parts@.take(i as int) =~= parts@);
}

/// A box of type `t` that holds `parts`.
pub fn bx(t: &[u8; 4], parts: &[&[u8]]) -> (o: Vec<u8>)
    ensures
        o@ == box_bytes(t@, joined(parts@)),
{
    let mut n: u64 = 0;
    let mut i: usize = 0;
    assert(parts@.take(0) =~= Seq::<&[u8]>::empty());
    while i < parts.len()
        invariant
            i <= parts@.len(),
            n == joined(parts@.take(i as int)).len() % 0x1_0000_0000,
        decreases parts@.len() - i,
    {
        proof {
            let t = parts@.take(i + 1);
            assert(t.drop_last() =~= parts@.take(i as int));
        }
        n = (n + parts[i].len() as u64 % 0x1_0000_0000) % 0x1_0000_0000;
        i = i + 1;
    }
    assert(parts@.take(i as int) =~= parts@);
    let size: u32 = ((8 + n) % 0x1_0000_0000) as u32;
    assert(size == low32(8 + joined(parts@).len() as int));
    let mut o: Vec<u8> = Vec::new();
    put_be32(&mut o, size);
    assert(o@ =~= be32_bytes(size));
    put(&mut o, t.as_slice());
    put_parts(&mut o, parts);
    o
}

proof fn lemma_joined_push_front(head: &[u8], parts: Seq<&[u8]>)
    ensures
        joined(seq![head] + parts) == head@ + joined(parts),
    decreases parts.len(),
{
    let all = seq![head] + parts;
    if parts.len() == 0 {
        assert(all.drop_last() =~= Seq::<&[u8]>::empty());
        assert(joined(all.drop_last()) =~= Seq::<u8>::empty());
        assert(joined(all) =~= head@ + joined(parts));
    } else {
        assert(all.drop_last() =~= seq![head] + parts.drop_last());
        lemma_joined_push_front(head, parts.drop_last());
        assert(joined(all) =~= head@ + joined(parts));
    }
}

proof fn lemma_joined_one(part: &[u8])
    ensures
        joined(seq![part]) == part@,
{
    let one = seq![part];
    assert(one.drop_last() =~= Seq::<&[u8]>::empty());
    assert(joined(one.drop_last()) =~= Seq::<u8>::empty());
    assert(joined(one) =~= part@);
}

/// A full box of type `t` that holds `parts` behind its version and flags.
pub fn full(t: &[u8; 4], version: u8, flags: u32, parts: &[&[u8]]) -> (o: Vec<u8>)
    ensures
        o@ == full_box(t@, version, flags, joined(parts@)),
{
    let head: [u8; 4] = be32(((version as u32) << 24) | flags);
    let mut all: Vec<&[u8]> = Vec::new();
    all.push(head.as_slice());
    all.extend_from_slice(parts);
    proof {
        let h: &[u8] = all@[0];
        assert(all@ =~= seq![h] + parts@);
        lemma_joined_push_front(h, parts@);
    }
    bx(t, all.as_slice())
}

/// A box of type `t` that holds `body`.
pub fn wrap(t: &[u8; 4], body: &[u8]) -> (o: Vec<u8>)
    ensures
        o@ == box_bytes(t@, body@),
{
    let parts: [&[u8]; 1] = [body];
    proof {
        assert(parts@ =~= seq![parts@[0]]);
        lemma_joined_one(parts@[0]);
    }
    bx(t, parts.as_slice())
}

/// A full box of type `t` and version 0 that holds `body`.
pub fn wrap_full(t: &[u8; 4], flags: u32, body: &[u8]) -> (o: Vec<u8>)
    ensures
        o@ == full_box(t@, 0, flags, body@),
{
    let parts: [&[u8]; 1] = [body];
    proof {
        assert(parts@ =~= seq![parts@[0]]);
        lemma_joined_one(parts@[0]);
    }
    full(t, 0, flags, parts.as_slice())
}

/// The matrix that leaves a picture as it is.
pub open spec fn matrix_bytes() -> Seq<u8> {
    be32_bytes(0x10000) + be32_bytes(0) + be32_bytes(0) + be32_bytes(0) + be32_bytes(0x10000)
        + be32_bytes(0) + be32_bytes(0) + be32_bytes(0) + be32_bytes(0x40000000)
}

/// The matrix that leaves a picture as it is.
pub fn matrix() -> (o: Vec<u8>)
    ensures
        o@ == matrix_bytes(),
{
    let mut o: Vec<u8> = Vec::new();
    put_be32(&mut o, 0x10000);
    assert(o@ =~= be32_bytes(0x10000));
    put_be32(&mut o, 0);
    put_be32(&mut o, 0);
    put_be32(&mut o, 0);
    put_be32(&mut o, 0x10000);
    put_be32(&mut o, 0);
    put_be32(&mut o, 0);
    put_be32(&mut o, 0);
    put_be32(&mut o, 0x40000000);
    o
}

/// The movie header of a movie of `dur_ms` milliseconds: times in milliseconds,
/// rate 1, volume 1, and 2 as the next track's number.
pub open spec fn mvhd_box(dur_ms: u32) -> Seq<u8> {
    full_box(
        MVHD@,
        0,
        0,
        be32_bytes(0) + be32_bytes(0) + be32_bytes(1000) + be32_bytes(dur_ms) + be32_bytes(0x10000)
            + be32_bytes(0x1000000) + zero_bytes(8) + matrix_bytes() + zero_bytes(24) + be32_bytes(
            2,
        ),
    )
}

/// The movie header of a movie of `dur_ms` milliseconds.
pub fn mvhd(dur_ms: u32) -> (o: Vec<u8>)
    ensures
        o@ == mvhd_box(dur_ms),
{
    let mut b: Vec<u8> = Vec::new();
    put_be32(&mut b, 0);
    assert(b@ =~= be32_bytes(0));
    put_be32(&mut b, 0);
    put_be32(&mut b, 1000);
    put_be32(&mut b, dur_ms);
    put_be32(&mut b, 0x10000);
    put_be32(&mut b, 0x1000000);
    put_zeros(&mut b, 8);
    put(&mut b, matrix().as_slice());
    put_zeros(&mut b, 24);
    put_be32(&mut b, 2);
    wrap_full(&MVHD, 0, b.as_slice())
}

/// The header of track 1, which is enabled and part of the movie: its duration,
/// its volume and its size as 16.16 fixed point numbers.
pub open spec fn tkhd_box(dur_ms: u32, w: u32, h: u32, audio: bool) -> Seq<u8> {
    full_box(
        TKHD@,
        0,
        3,
        be32_bytes(0) + be32_bytes(0) + be32_bytes(1) + be32_bytes(0) + be32_bytes(dur_ms)
            + zero_bytes(8) + zero_bytes(4) + be32_bytes(
            if audio {
                0x1000000
            } else {
                0
            },
        ) + matrix_bytes() + be32_bytes(w << 16) + be32_bytes(h << 16),
    )
}

/// The header of track 1.
pub fn tkhd(dur_ms: u32, w: u32, h: u32, audio: bool) -> (o: Vec<u8>)
    ensures
        o@ == tkhd_box(dur_ms, w, h, audio),
{
    let mut b: Vec<u8> = Vec::new();
    put_be32(&mut b, 0);
    assert(b@ =~= be32_bytes(0));
    put_be32(&mut b, 0);
    put_be32(&mut b, 1);
    put_be32(&mut b, 0);
    put_be32(&mut b, dur_ms);
    put_zeros(&mut b, 8);
    put_zeros(&mut b, 4);
    put_be32(
        &mut b,
        if audio {
            0x1000000
        } else {
            0
        },
    );
    put(&mut b, matrix().as_slice());
    put_be32(&mut b, w << 16);
    put_be32(&mut b, h << 16);
    wrap_full(&TKHD, 3, b.as_slice())
}

/// The header of a track's media: units per second, duration, and `und` as its
/// language.
pub open spec fn mdhd_box(ts: u32, dur: u32) -> Seq<u8> {
    full_box(
        MDHD@,
        0,
        0,
        be32_bytes(0) + be32_bytes(0) + be32_bytes(ts) + be32_bytes(dur) + be32_bytes(0x55c40000),
    )
}

/// The header of a track's media.
pub fn mdhd(ts: u32, dur: u32) -> (o: Vec<u8>)
    ensures
        o@ == mdhd_box(ts, dur),
{
    let mut b: Vec<u8> = Vec::new();
    put_be32(&mut b, 0);
    assert(b@ =~= be32_bytes(0));
    put_be32(&mut b, 0);
    put_be32(&mut b, ts);
    put_be32(&mut b, dur);
    put_be32(&mut b, 0x55c40000);
    wrap_full(&MDHD, 0, b.as_slice())
}

/// What kind of media a track holds, and a name for its handler.
pub open spec fn hdlr_box(kind: Seq<u8>, name: Seq<u8>) -> Seq<u8> {
    full_box(HDLR@, 0, 0, zero_bytes(4) + kind + zero_bytes(12) + name)
}

/// What kind of media a track holds, and a name for its handler.
pub fn hdlr(kind: &[u8; 4], name: &[u8]) -> (o: Vec<u8>)
    ensures
        o@ == hdlr_box(kind@, name@),
{
    let mut b: Vec<u8> = Vec::new();
    put_zeros(&mut b, 4);
    assert(b@ =~= zero_bytes(4));
    put(&mut b, kind.as_slice());
    put_zeros(&mut b, 12);
    put(&mut b, name);
    wrap_full(&HDLR, 0, b.as_slice())
}

/// A track's data is in the file itself.
pub open spec fn dinf_box() -> Seq<u8> {
    box_bytes(
        DINF@,
        full_box(DREF@, 0, 0, be32_bytes(1) + full_box(URL@, 0, 1, Seq::empty())),
    )
}

/// A track's data is in the file itself.
pub fn dinf() -> (o: Vec<u8>)
    ensures
        o@ == dinf_box(),
{
    let none: [u8; 0] = [];
    assert(none@ =~= Seq::<u8>::empty());
    let url: Vec<u8> = wrap_full(&URL, 1, none.as_slice());
    let mut b: Vec<u8> = Vec::new();
    put_be32(&mut b, 1);
    assert(b@ =~= be32_bytes(1));
    put(&mut b, url.as_slice());
    let dref: Vec<u8> = wrap_full(&DREF, 0, b.as_slice());
    wrap(&DINF, dref.as_slice())
}

/// The brands of the file.
pub open spec fn ftyp_box() -> Seq<u8> {
    box_bytes(FTYP@, ISOM@ + be32_bytes(512) + BRANDS@)
}

/// The brands of the file.
pub fn ftyp() -> (o: Vec<u8>)
    ensures
        o@ == ftyp_box(),
        o@.len() == 32,
{
    let mut b: Vec<u8> = Vec::new();
    put(&mut b, ISOM.as_slice());
    assert(b@ =~= ISOM@);
    put_be32(&mut b, 512);
    put(&mut b, BRANDS.as_slice());
    wrap(&FTYP, b.as_slice())
}

/// A box of less than 4 GiB says how long it is, of what type, and what it holds.
pub proof fn law_box_reads_back(t: Seq<u8>, body: Seq<u8>)
    requires
        t.len() == 4,
        8 + body.len() < 0x1_0000_0000,
    ensures
        ({
            let b = box_bytes(t, body);
            &&& be32_at(b, 0) == b.len()
            &&& b.subrange(4, 8) == t
            &&& b.skip(8) == body
        }),
{
    let b = box_bytes(t, body);
    let size = be32_bytes(low32(8 + body.len() as int));
    crate::bytes::law_be32_read_back((8 + body.len()) as u32, Seq::empty(), t + body);
    assert(Seq::<u8>::empty() + size + (t + body) =~= b);
    assert(b.subrange(4, 8) =~= t);
    assert(b.skip(8) =~= body);
}

} // verus!
