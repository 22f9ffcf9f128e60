//! The audio that lies between the frames: whether there is any, a file that makes
//! it decodable, and the frame rate that its length tells.

use crate::bytes::{
    be16_bytes, be32_bytes, put, put_be16, put_be32, put_zeros, zero_bytes,
};
use crate::fault::Fault;
use crate::mp4::{
    box_bytes, dinf, dinf_box, ftyp, ftyp_box, full_box, hdlr, hdlr_box, mdhd, mdhd_box, mvhd,
    mvhd_box, tkhd, tkhd_box, wrap, wrap_full, ESDS, MDAT, MDIA, MINF, MOOV, MP4A, SMHD, SOUN, STBL,
    STCO, STSC, STSD, STSZ, STTS, TRAK,
};
use vstd::prelude::*;

verus! {

/// The sample rates of AAC, in the order of their index.
pub const RATES: [u32; 12] = [
    96000,
    88200,
    64000,
    48000,
    44100,
    32000,
    24000,
    22050,
    16000,
    12000,
    11025,
    8000,
];

/// How long the one sample is said to last: a decoder takes it whole all the same.
pub const NOMINAL_DURATION: u32 = 1_000_000;

/// The first index from `i` on that `rate` has.
pub open spec fn rate_index_from(rate: u32, i: int) -> Option<int>
    decreases 12 - i,
{
    if i >= 12 {
        None
    } else if RATES[i] == rate {
        Some(i)
    } else {
        rate_index_from(rate, i + 1)
    }
}

/// The index of `rate`.
pub open spec fn rate_index(rate: u32) -> Option<int> {
    rate_index_from(rate, 0)
}

fn find_rate(rate: u32) -> (r: Option<u16>)
    ensures
        r is Some <==> rate_index(rate) is Some,
        r matches Some(i) ==> rate_index(rate) == Some(i as int) && i < 12 && rate > 0,
{
    let mut i: usize = 0;
    while i < 12
        invariant
            i <= 12,
            rate_index(rate) == rate_index_from(rate, i as int),
        decreases 12 - i,
    {
        if RATES[i] == rate {
            assert(RATES[i as int] > 0);
            return Some(i as u16);
        }
        i = i + 1;
    }
    None
}

/// The configuration of an AAC-LC decoder: five bits of object type, four of rate
/// index, four of channels.
pub open spec fn audio_config(index: u16, ch: u32) -> u16 {
    (2u16 << 11) | (index << 7) | ((ch as u16) << 3)
}

/// The fields of the configuration do not touch.
pub proof fn law_audio_config_fields(index: u16, ch: u32)
    requires
        index < 16,
        ch < 16,
    ensures
        audio_config(index, ch) / 0x800 == 2,
        audio_config(index, ch) / 0x80 % 16 == index,
        audio_config(index, ch) / 8 % 16 == ch,
        audio_config(index, ch) % 8 == 0,
{
    let c = audio_config(index, ch);
    let n = ch as u16;
    assert(c == (2u16 << 11) | (index << 7) | (n << 3));
    assert(c == 0x1000 + index * 0x80 + n * 8) by (bit_vector)
        requires
            c == (2u16 << 11) | (index << 7) | (n << 3),
            index < 16,
            n < 16,
    ;
}

/// The descriptors of the stream: AAC audio, and the decoder's configuration.
pub open spec fn stream_descriptor(config: u16) -> Seq<u8> {
    seq![3u8, 25, 0, 0, 0] + seq![4u8, 17, 0x40, 0x15] + zero_bytes(11) + seq![5u8, 2]
        + be16_bytes(config) + seq![6u8, 1, 2]
}

fn descriptor(config: u16) -> (o: Vec<u8>)
    ensures
        o@ == stream_descriptor(config),
{
    let stream: [u8; 5] = [3, 25, 0, 0, 0];
    let decoder: [u8; 4] = [4, 17, 0x40, 0x15];
    let specific: [u8; 2] = [5, 2];
    let sync: [u8; 3] = [6, 1, 2];
    assert(decoder@ =~= seq![4u8, 17, 0x40, 0x15]);
    assert(specific@ =~= seq![5u8, 2]);
    assert(sync@ =~= seq![6u8, 1, 2]);
    let mut o: Vec<u8> = Vec::new();
    put(&mut o, stream.as_slice());
    assert(o@ =~= seq![3u8, 25, 0, 0, 0]);
    put(&mut o, decoder.as_slice());
    put_zeros(&mut o, 11);
    put(&mut o, specific.as_slice());
    put_be16(&mut o, config);
    put(&mut o, sync.as_slice());
    o
}

/// How samples are coded: `ch` channels of 16 bits at `rate`.
pub open spec fn audio_entry(rate: u32, ch: u32, config: u16) -> Seq<u8> {
    zero_bytes(6) + be16_bytes(1) + zero_bytes(8) + be16_bytes(ch as u16) + be16_bytes(16)
        + zero_bytes(4) + be32_bytes(rate << 16) + full_box(ESDS@, 0, 0, stream_descriptor(config))
}

/// The table of sample entries, with the one entry there is.
pub open spec fn audio_stsd_box(rate: u32, ch: u32, config: u16) -> Seq<u8> {
    full_box(STSD@, 0, 0, be32_bytes(1) + box_bytes(MP4A@, audio_entry(rate, ch, config)))
}

fn audio_stsd(rate: u32, ch: u32, config: u16) -> (o: Vec<u8>)
    ensures
        o@ == audio_stsd_box(rate, ch, config),
{
    let mut b: Vec<u8> = Vec::new();
    put_zeros(&mut b, 6);
    assert(b@ =~= zero_bytes(6));
    put_be16(&mut b, 1);
    put_zeros(&mut b, 8);
    put_be16(&mut b, ch as u16);
    put_be16(&mut b, 16);
    put_zeros(&mut b, 4);
    put_be32(&mut b, rate << 16);
    put(&mut b, wrap_full(&ESDS, 0, descriptor(config).as_slice()).as_slice());
    let entry: Vec<u8> = wrap(&MP4A, b.as_slice());
    let mut t: Vec<u8> = Vec::new();
    put_be32(&mut t, 1);
    assert(t@ =~= be32_bytes(1));
    put(&mut t, entry.as_slice());
    wrap_full(&STSD, 0, t.as_slice())
}

/// A full box of two numbers.
fn table2(t: &[u8; 4], a: u32, b: u32) -> (o: Vec<u8>)
    ensures
        o@ == full_box(t@, 0, 0, be32_bytes(a) + be32_bytes(b)),
{
    let mut body: Vec<u8> = Vec::new();
    put_be32(&mut body, a);
    assert(body@ =~= be32_bytes(a));
    put_be32(&mut body, b);
    wrap_full(t, 0, body.as_slice())
}

/// All of the audio is one sample of `total` bytes in one chunk, 40 bytes into the
/// file.
pub open spec fn audio_stbl_box(total: u32, rate: u32, ch: u32, config: u16) -> Seq<u8> {
    box_bytes(
        STBL@,
        audio_stsd_box(rate, ch, config) + full_box(
            STTS@,
            0,
            0,
            be32_bytes(1) + be32_bytes(1) + be32_bytes(NOMINAL_DURATION),
        ) + full_box(
            STSC@,
            0,
            0,
            be32_bytes(1) + be32_bytes(1) + be32_bytes(1) + be32_bytes(1),
        ) + full_box(STSZ@, 0, 0, be32_bytes(total) + be32_bytes(1)) + full_box(
            STCO@,
            0,
            0,
            be32_bytes(1) + be32_bytes(40),
        ),
    )
}

fn audio_stbl(total: u32, rate: u32, ch: u32, config: u16) -> (o: Vec<u8>)
    ensures
        o@ == audio_stbl_box(total, rate, ch, config),
{
    let mut times: Vec<u8> = Vec::new();
    put_be32(&mut times, 1);
    assert(times@ =~= be32_bytes(1));
    put_be32(&mut times, 1);
    put_be32(&mut times, NOMINAL_DURATION);
    let mut chunks: Vec<u8> = Vec::new();
    put_be32(&mut chunks, 1);
    assert(chunks@ =~= be32_bytes(1));
    put_be32(&mut chunks, 1);
    put_be32(&mut chunks, 1);
    put_be32(&mut chunks, 1);
    let mut b: Vec<u8> = audio_stsd(rate, ch, config);
    put(&mut b, wrap_full(&STTS, 0, times.as_slice()).as_slice());
    put(&mut b, wrap_full(&STSC, 0, chunks.as_slice()).as_slice());
    put(&mut b, table2(&STSZ, total, 1).as_slice());
    put(&mut b, table2(&STCO, 1, 40).as_slice());
    wrap(&STBL, b.as_slice())
}

/// The handler's name.
pub open spec fn audio_handler_name() -> Seq<u8> {
    seq![0x61u8, 0]
}

/// The media of the track.
pub open spec fn audio_mdia_box(total: u32, rate: u32, ch: u32, config: u16) -> Seq<u8> {
    box_bytes(
        MDIA@,
        mdhd_box(rate, NOMINAL_DURATION) + hdlr_box(SOUN@, audio_handler_name()) + box_bytes(
            MINF@,
            full_box(SMHD@, 0, 0, zero_bytes(4)) + dinf_box() + audio_stbl_box(
                total,
                rate,
                ch,
                config,
            ),
        ),
    )
}

fn audio_mdia(total: u32, rate: u32, ch: u32, config: u16) -> (o: Vec<u8>)
    ensures
        o@ == audio_mdia_box(total, rate, ch, config),
{
    let mut zeros: Vec<u8> = Vec::new();
    put_zeros(&mut zeros, 4);
    assert(zeros@ =~= zero_bytes(4));
    let mut minf: Vec<u8> = wrap_full(&SMHD, 0, zeros.as_slice());
    put(&mut minf, dinf().as_slice());
    put(&mut minf, audio_stbl(total, rate, ch, config).as_slice());
    let name: [u8; 2] = [0x61, 0];
    assert(name@ =~= audio_handler_name());
    let mut b: Vec<u8> = mdhd(rate, NOMINAL_DURATION);
    put(&mut b, hdlr(&SOUN, name.as_slice()).as_slice());
    put(&mut b, wrap(&MINF, minf.as_slice()).as_slice());
    wrap(&MDIA, b.as_slice())
}

/// The index of the audio.
pub open spec fn audio_moov_box(total: u32, rate: u32, ch: u32, config: u16) -> Seq<u8> {
    let ms = (NOMINAL_DURATION * 1000 / rate as int) as u32;
    box_bytes(
        MOOV@,
        mvhd_box(ms) + box_bytes(
            TRAK@,
            tkhd_box(ms, 0, 0, true) + audio_mdia_box(total, rate, ch, config),
        ),
    )
}

/// How many bytes `gaps` have in all.
pub open spec fn gaps_len(gaps: Seq<(usize, usize)>) -> int
    decreases gaps.len(),
{
    if gaps.len() == 0 {
        0
    } else {
        gaps_len(gaps.drop_last()) + gaps.last().1
    }
}

proof fn lemma_gaps_prefix(gaps: Seq<(usize, usize)>, i: int)
    requires
        0 <= i <= gaps.len(),
    ensures
        0 <= gaps_len(gaps.take(i)) <= gaps_len(gaps),
    decreases gaps.len(),
{
    if gaps.len() == 0 {
        assert(gaps.take(i) =~= gaps);
    } else {
        lemma_gaps_prefix(gaps.drop_last(), 0);
        assert(gaps.drop_last().take(0) =~= Seq::<(usize, usize)>::empty());
        if i == gaps.len() {
            assert(gaps.take(i) =~= gaps);
        } else {
            lemma_gaps_prefix(gaps.drop_last(), i);
            assert(gaps.take(i) =~= gaps.drop_last().take(i));
        }
    }
}

/// How many bytes `gaps` have in all, if that is at most `most`.
fn total_within(gaps: &[(usize, usize)], most: u64) -> (r: Option<u64>)
    requires
        most <= u64::MAX / 2,
    ensures
        r is Some <==> gaps_len(gaps@) <= most,
        r matches Some(n) ==> n == gaps_len(gaps@),
{
    let mut total: u64 = 0;
    let mut i: usize = 0;
    while i < gaps.len()
        invariant
            i <= gaps@.len(),
            total <= most <= u64::MAX / 2,
            total == gaps_len(gaps@.take(i as int)),
        decreases gaps@.len() - i,
    {
        proof {
            let t = gaps@.take(i + 1);
            assert(t.drop_last() =~= gaps@.take(i as int));
            lemma_gaps_prefix(gaps@, i + 1);
        }
        if gaps[i].1 as u64 > most - total {
            return None;
        }
        total = total + gaps[i].1 as u64;
        i = i + 1;
    }
    assert(gaps@.take(i as int) =~= gaps@);
    Some(total)
}

/// What to write: the file is `head`, then each range of the media data, then
/// `moov`.
#[derive(Debug)]
pub struct AudioFile {
    /// What stands before the audio.
    pub head: Vec<u8>,
    /// Where the audio lies in the media data, each range with its end.
    pub ranges: Vec<(usize, usize)>,
    /// What stands behind the audio.
    pub moov: Vec<u8>,
}

/// Where each of `gaps` starts and ends.
fn ranges_of(gaps: &[(usize, usize)]) -> (r: Vec<(usize, usize)>)
    requires
        forall|k: int|
            0 <= k < gaps@.len() ==> (#[trigger] gaps@[k]).0 + gaps@[k].1 <= usize::MAX,
    ensures
        r@.len() == gaps@.len(),
        forall|k: int|
            0 <= k < gaps@.len() ==> (#[trigger] r@[k]).0 == gaps@[k].0 && r@[k].1 == gaps@[k].0
                + gaps@[k].1,
{
    let mut r: Vec<(usize, usize)> = Vec::new();
    let mut i: usize = 0;
    while i < gaps.len()
        invariant
            i <= gaps@.len(),
            r@.len() == i,
            forall|k: int|
                0 <= k < gaps@.len() ==> (#[trigger] gaps@[k]).0 + gaps@[k].1 <= usize::MAX,
            forall|k: int|
                0 <= k < i ==> (#[trigger] r@[k]).0 == gaps@[k].0 && r@[k].1 == gaps@[k].0
                    + gaps@[k].1,
        decreases gaps@.len() - i,
    {
        let g: (usize, usize) = gaps[i];
        r.push((g.0, g.0 + g.1));
        i = i + 1;
    }
    r
}

/// Lays out a file that holds the bytes of `gaps` as one sample of AAC.
pub fn aac_wrapper(gaps: &[(usize, usize)], rate: u32, ch: u32) -> (r: Result<AudioFile, Fault>)
    requires
        rate_index(rate) is Some && gaps_len(gaps@) + 8 <= 0xffff_0000 ==> forall|k: int|
            0 <= k < gaps@.len() ==> (#[trigger] gaps@[k]).0 + gaps@[k].1 <= usize::MAX,
    ensures
        r is Ok <==> rate_index(rate) is Some && gaps_len(gaps@) + 8 <= 0xffff_0000,
        r matches Ok(f) ==> {
            let total = gaps_len(gaps@) as u32;
            &&& f.head@ == ftyp_box() + be32_bytes((total + 8) as u32) + MDAT@
            &&& f.ranges@.len() == gaps@.len()
            &&& forall|k: int|
                0 <= k < gaps@.len() ==> (#[trigger] f.ranges@[k]).0 == gaps@[k].0
                    && f.ranges@[k].1 == gaps@[k].0 + gaps@[k].1
            &&& f.moov@ == audio_moov_box(
                total,
                rate,
                ch,
                audio_config(rate_index(rate)->0 as u16, ch),
            )
        },
        r matches Err(e) ==> e == if rate_index(rate) is None {
            Fault::BadSampleRate
        } else {
            Fault::AudioTooLarge
        },
{
    let index: u16 = match find_rate(rate) {
        Some(index) => index,
        None => {
            return Err(Fault::BadSampleRate);
        },
    };
    let total: u32 = match total_within(gaps, 0xffff_0000 - 8) {
        Some(total) => total as u32,
        None => {
            return Err(Fault::AudioTooLarge);
        },
    };
    proof {
        lemma_gaps_prefix(gaps@, 0);
    }
    let config: u16 = (2u16 << 11) | (index << 7) | ((ch as u16) << 3);
    let ms: u32 = (NOMINAL_DURATION as u64 * 1000 / rate as u64) as u32;
    let mut trak: Vec<u8> = tkhd(ms, 0, 0, true);
    put(&mut trak, audio_mdia(total, rate, ch, config).as_slice());
    let mut body: Vec<u8> = mvhd(ms);
    put(&mut body, wrap(&TRAK, trak.as_slice()).as_slice());
    let moov: Vec<u8> = wrap(&MOOV, body.as_slice());
    let mut head: Vec<u8> = ftyp();
    put_be32(&mut head, total + 8);
    put(&mut head, MDAT.as_slice());
    Ok(AudioFile { head, ranges: ranges_of(gaps), moov })
}

/// The least that is taken for audio, in bytes.
pub const MIN_AUDIO: u64 = 4096;

/// How many of `gaps` start with a block of class `c`: the class is the first three
/// bits of a gap.
pub open spec fn votes_for(d: Seq<u8>, gaps: Seq<(usize, usize)>, c: int) -> int
    decreases gaps.len(),
{
    if gaps.len() == 0 {
        0
    } else {
        let g = gaps.last();
        votes_for(d, gaps.drop_last(), c) + if g.1 > 0 && d[g.0 as int] / 32 == c {
            1int
        } else {
            0
        }
    }
}

/// How many of `gaps` have a class at all.
pub open spec fn votes_cast(gaps: Seq<(usize, usize)>) -> int
    decreases gaps.len(),
{
    if gaps.len() == 0 {
        0
    } else {
        votes_cast(gaps.drop_last()) + if gaps.last().1 > 0 {
            1int
        } else {
            0
        }
    }
}

/// Class `c` has the most votes, and more than any class above it.
pub open spec fn wins(d: Seq<u8>, gaps: Seq<(usize, usize)>, c: int) -> bool {
    &&& forall|k: int|
        0 <= k < c ==> #[trigger] votes_for(d, gaps, k) <= votes_for(d, gaps, c)
    &&& forall|k: int| c < k < 8 ==> #[trigger] votes_for(d, gaps, k) < votes_for(d, gaps, c)
}

/// How many channels of audio lie in `gaps`: one if most of them start with a
/// single channel element, two if most start with a channel pair. The first gap
/// may start with text of the encoder's, so all of them vote.
pub open spec fn channels_of(d: Seq<u8>, gaps: Seq<(usize, usize)>) -> Option<u32> {
    let cast = votes_cast(gaps);
    if gaps_len(gaps) <= MIN_AUDIO || cast == 0 {
        None
    } else if wins(d, gaps, 0) && 2 * votes_for(d, gaps, 0) >= cast {
        Some(1u32)
    } else if wins(d, gaps, 1) && 2 * votes_for(d, gaps, 1) >= cast {
        Some(2u32)
    } else {
        None
    }
}

proof fn lemma_votes_bounds(d: Seq<u8>, gaps: Seq<(usize, usize)>, c: int)
    ensures
        0 <= votes_for(d, gaps, c) <= votes_cast(gaps) <= gaps.len(),
    decreases gaps.len(),
{
    if gaps.len() > 0 {
        lemma_votes_bounds(d, gaps.drop_last(), c);
    }
}

/// How many of `gaps` start with a block of class `c`.
fn count_votes(d: &[u8], gaps: &[(usize, usize)], c: u8) -> (r: usize)
    requires
        forall|k: int|
            0 <= k < gaps@.len() && (#[trigger] gaps@[k]).1 > 0 ==> gaps@[k].0 < d@.len(),
    ensures
        r == votes_for(d@, gaps@, c as int),
{
    let mut r: usize = 0;
    let mut i: usize = 0;
    while i < gaps.len()
        invariant
            i <= gaps@.len(),
            r <= i,
            forall|k: int|
                0 <= k < gaps@.len() && (#[trigger] gaps@[k]).1 > 0 ==> gaps@[k].0 < d@.len(),
            r == votes_for(d@, gaps@.take(i as int), c as int),
        decreases gaps@.len() - i,
    {
        let (from, len): (usize, usize) = gaps[i];
        proof {
            let t = gaps@.take(i + 1);
            assert(t.drop_last() =~= gaps@.take(i as int));
            assert(t.last() == gaps@[i as int]);
        }
        if len > 0 && d[from] / 32 == c {
            r = r + 1;
        }
        i = i + 1;
    }
    assert(gaps@.take(i as int) =~= gaps@);
    r
}

/// How many of `gaps` have a class at all.
fn count_cast(gaps: &[(usize, usize)]) -> (r: usize)
    ensures
        r == votes_cast(gaps@),
{
    let mut r: usize = 0;
    let mut i: usize = 0;
    while i < gaps.len()
        invariant
            i <= gaps@.len(),
            r <= i,
            r == votes_cast(gaps@.take(i as int)),
        decreases gaps@.len() - i,
    {
        proof {
            let t = gaps@.take(i + 1);
            assert(t.drop_last() =~= gaps@.take(i as int));
        }
        if gaps[i].1 > 0 {
            r = r + 1;
        }
        i = i + 1;
    }
    assert(gaps@.take(i as int) =~= gaps@);
    r
}

/// Whether class `c` has the most votes, of which there are `n` for it.
fn is_winner(d: &[u8], gaps: &[(usize, usize)], c: u8, n: usize) -> (r: bool)
    requires
        c < 8,
        n == votes_for(d@, gaps@, c as int),
        forall|k: int|
            0 <= k < gaps@.len() && (#[trigger] gaps@[k]).1 > 0 ==> gaps@[k].0 < d@.len(),
    ensures
        r == wins(d@, gaps@, c as int),
{
    let mut k: u8 = 0;
    while k < 8
        invariant
            k <= 8,
            c < 8,
            n == votes_for(d@, gaps@, c as int),
            forall|j: int|
                0 <= j < gaps@.len() && (#[trigger] gaps@[j]).1 > 0 ==> gaps@[j].0 < d@.len(),
            forall|j: int| 0 <= j < k && j < c ==> #[trigger] votes_for(d@, gaps@, j) <= n,
            forall|j: int| c < j < k ==> #[trigger] votes_for(d@, gaps@, j) < n,
        decreases 8 - k,
    {
        let m: usize = count_votes(d, gaps, k);
        if (k < c && m > n) || (k > c && m >= n) {
            assert(votes_for(d@, gaps@, k as int) == m);
            return false;
        }
        k = k + 1;
    }
    true
}

/// How many channels of audio lie in `gaps`, if any does.
pub fn audio_channels(d: &[u8], gaps: &[(usize, usize)]) -> (r: Option<u32>)
    requires
        forall|k: int|
            0 <= k < gaps@.len() && (#[trigger] gaps@[k]).1 > 0 ==> gaps@[k].0 < d@.len(),
    ensures
        r == channels_of(d@, gaps@),
{
    let cast: usize = count_cast(gaps);
    if cast == 0 || total_within(gaps, MIN_AUDIO).is_some() {
        return None;
    }
    let mono: usize = count_votes(d, gaps, 0);
    let pair: usize = count_votes(d, gaps, 1);
    proof {
        lemma_votes_bounds(d@, gaps@, 0);
        lemma_votes_bounds(d@, gaps@, 1);
    }
    if mono >= cast - mono && is_winner(d, gaps, 0, mono) {
        Some(1)
    } else if pair >= cast - pair && is_winner(d, gaps, 1, pair) {
        Some(2)
    } else {
        None
    }
}

/// The frame rates that a video may have.
pub const STD_FPS: [(u32, u32); 10] = [
    (24000, 1001),
    (24, 1),
    (25, 1),
    (30000, 1001),
    (30, 1),
    (50, 1),
    (60000, 1001),
    (60, 1),
    (15, 1),
    (20, 1),
];

/// The rate that audio is first decoded at.
pub const FIRST_RATE: u32 = 48000;

/// The other rate that audio may have: it parses just the same.
pub const OTHER_RATE: u32 = 44100;

/// The frame rate of a video that nothing tells the rate of.
pub const DEFAULT_FPS: (u32, u32) = (30000, 1001);

/// A frame rate that a video may have.
pub open spec fn is_std_fps(fps: (u32, u32)) -> bool {
    exists|i: int| 0 <= i < 10 && #[trigger] STD_FPS[i] == fps
}

/// A sample rate and a frame rate.
#[derive(Clone, Copy, Debug)]
pub struct Timing {
    /// Audio samples per second.
    pub rate: u32,
    /// Frames per second, as numerator and denominator.
    pub fps: (u32, u32),
}

/// The pairs that are tried, in order.
pub open spec fn timing_number(i: int) -> Timing {
    if i < 10 {
        Timing { rate: FIRST_RATE, fps: STD_FPS[i] }
    } else {
        Timing { rate: OTHER_RATE, fps: STD_FPS[i - 10] }
    }
}

/// The pairs that are tried.
pub fn timings() -> (r: Vec<Timing>)
    ensures
        r@.len() == 20,
        forall|i: int| 0 <= i < 20 ==> #[trigger] r@[i] == timing_number(i),
{
    let mut r: Vec<Timing> = Vec::new();
    let mut i: usize = 0;
    while i < 20
        invariant
            i <= 20,
            r@.len() == i,
            forall|k: int| 0 <= k < i ==> #[trigger] r@[k] == timing_number(k),
        decreases 20 - i,
    {
        if i < 10 {
            r.push(Timing { rate: FIRST_RATE, fps: STD_FPS[i] });
        } else {
            r.push(Timing { rate: OTHER_RATE, fps: STD_FPS[i - 10] });
        }
        i = i + 1;
    }
    r
}

/// Number `i` of `misfits` is below `limit` and the first of the smallest.
pub open spec fn is_best_fit(misfits: Seq<u64>, limit: u64, i: int) -> bool {
    &&& 0 <= i < misfits.len()
    &&& misfits[i] < limit
    &&& forall|k: int| 0 <= k < i ==> misfits[i] < #[trigger] misfits[k]
    &&& forall|k: int| i < k < misfits.len() ==> misfits[i] <= #[trigger] misfits[k]
}

/// The pair that makes audio and video last equally long. `misfits` says how far
/// each pair is from that, less being better; one of `limit` or more is none at
/// all. Where there is none, the rate that the audio was decoded at and the
/// default frame rate stand.
pub fn best_timing(misfits: &[u64], limit: u64) -> (r: Timing)
    requires
        misfits@.len() == 20,
    ensures
        is_std_fps(r.fps),
        r.rate == FIRST_RATE || r.rate == OTHER_RATE,
        forall|i: int| is_best_fit(misfits@, limit, i) ==> r == timing_number(i),
        (forall|i: int| !is_best_fit(misfits@, limit, i)) ==> r == (Timing {
            rate: 48000,
            fps: (30000, 1001),
        }),
        (exists|i: int| is_best_fit(misfits@, limit, i)) <==> exists|k: int|
            0 <= k < 20 && #[trigger] misfits@[k] < limit,
{
    let all: Vec<Timing> = timings();
    let mut r = Timing { rate: FIRST_RATE, fps: DEFAULT_FPS };
    assert(STD_FPS[3] == DEFAULT_FPS);
    let mut best: u64 = limit;
    let mut i: usize = 0;
    let ghost mut at: int = -1;
    while i < 20
        invariant
            i <= 20 == misfits@.len(),
            all@.len() == 20,
            forall|k: int| 0 <= k < 20 ==> #[trigger] all@[k] == timing_number(k),
            is_std_fps(r.fps),
            r.rate == FIRST_RATE || r.rate == OTHER_RATE,
            at < i,
            at < 0 ==> best == limit && r == (Timing { rate: FIRST_RATE, fps: DEFAULT_FPS }),
            at >= 0 ==> best == misfits@[at] < limit && r == timing_number(at),
            forall|k: int| 0 <= k < at ==> best < #[trigger] misfits@[k],
            forall|k: int| 0 <= k < i ==> best <= #[trigger] misfits@[k],
        decreases 20 - i,
    {
        if misfits[i] < best {
            best = misfits[i];
            r = all[i];
            proof {
                at = i as int;
                let j = if i < 10 {
                    i as int
                } else {
                    i - 10
                };
                assert(STD_FPS[j] == r.fps);
            }
        }
        i = i + 1;
    }
    proof {
        if at >= 0 {
            assert(is_best_fit(misfits@, limit, at));
        }
        assert forall|k: int| is_best_fit(misfits@, limit, k) implies k == at by {
            assert(best <= misfits@[k]);
            if at >= 0 && at < k {
                assert(misfits@[k] < misfits@[at]);
            }
            if at > k {
                assert(best < misfits@[k]);
                assert(misfits@[k] <= misfits@[at]);
            }
        }
        if exists|k: int| 0 <= k < 20 && #[trigger] misfits@[k] < limit {
            let k = choose|k: int| 0 <= k < 20 && #[trigger] misfits@[k] < limit;
            assert(best <= misfits@[k]);
        }
    }
    r
}

/// The votes for class `c` are those of the gaps that hold something and whose first
/// three bits are `c`; all that hold something have a vote.
pub proof fn law_every_gap_has_a_vote(d: Seq<u8>, gaps: Seq<(usize, usize)>, c: int)
    ensures
        votes_for(d, gaps, c) == gaps.filter(
            |g: (usize, usize)| g.1 > 0 && d[g.0 as int] / 32 == c,
        ).len(),
        votes_cast(gaps) == gaps.filter(|g: (usize, usize)| g.1 > 0).len(),
    decreases gaps.len(),
{
    reveal(Seq::filter);
    if gaps.len() > 0 {
        law_every_gap_has_a_vote(d, gaps.drop_last(), c);
    }
}

/// The bytes of all gaps add up.
pub proof fn law_gaps_add_up(gaps: Seq<(usize, usize)>)
    ensures
        gaps_len(gaps) == gaps.fold_left(0int, |a: int, g: (usize, usize)| a + g.1),
    decreases gaps.len(),
{
    let plus = |a: int, g: (usize, usize)| a + g.1;
    reveal(Seq::fold_left);
    if gaps.len() > 0 {
        law_gaps_add_up(gaps.drop_last());
        assert(gaps.fold_left(0int, plus) == plus(gaps.drop_last().fold_left(0int, plus), gaps.last()));
    }
}

/// There is audio exactly if the gaps hold more than 4096 bytes and half of them, or
/// more, start like audio of one channel (the bits 000) or of two (001), and no other
/// beginning is as common: of two that are, the one with the greater bits counts.
pub proof fn law_channels_are_voted(d: Seq<u8>, gaps: Seq<(usize, usize)>)
    ensures
        ({
            let cast = votes_cast(gaps);
            let mono = votes_for(d, gaps, 0);
            let pair = votes_for(d, gaps, 1);
            let r = channels_of(d, gaps);
            &&& r is Some ==> gaps_len(gaps) > 4096 && cast > 0
            &&& r is None || r == Some(1u32) || r == Some(2u32)
            &&& gaps_len(gaps) > 4096 && 2 * mono > cast ==> r == Some(1u32)
            &&& gaps_len(gaps) > 4096 && 2 * pair > cast ==> r == Some(2u32)
            &&& gaps_len(gaps) > 4096 && cast > 0 && 2 * pair == cast && 2 * mono == cast ==> r
                == Some(2u32)
            &&& r == Some(1u32) ==> 2 * mono >= cast && pair < mono && forall|k: int|
                0 <= k < 8 ==> #[trigger] votes_for(d, gaps, k) <= mono
            &&& r == Some(2u32) ==> 2 * pair >= cast && mono <= pair && forall|k: int|
                0 <= k < 8 ==> #[trigger] votes_for(d, gaps, k) <= pair
        }),
{
    let cast = votes_cast(gaps);
    let mono = votes_for(d, gaps, 0);
    let pair = votes_for(d, gaps, 1);
    lemma_votes_bounds(d, gaps, 0);
    lemma_votes_bounds(d, gaps, 1);
    assert forall|k: int, j: int| 0 <= k < j < 8 implies #[trigger] votes_for(d, gaps, k)
        + #[trigger] votes_for(d, gaps, j) <= cast && votes_for(d, gaps, k) >= 0 && votes_for(
        d,
        gaps,
        j,
    ) >= 0 by {
        lemma_two_votes(d, gaps, k, j);
        lemma_votes_bounds(d, gaps, k);
        lemma_votes_bounds(d, gaps, j);
    }
    if gaps_len(gaps) > 4096 && 2 * mono > cast {
        assert(wins(d, gaps, 0)) by {
            assert forall|k: int| 0 < k < 8 implies #[trigger] votes_for(d, gaps, k) < mono by {
                assert(votes_for(d, gaps, 0) + votes_for(d, gaps, k) <= cast);
            }
        }
    }
    if gaps_len(gaps) > 4096 && (2 * pair > cast || (cast > 0 && 2 * pair == cast && 2 * mono
        == cast)) {
        assert(wins(d, gaps, 1)) by {
            assert(votes_for(d, gaps, 0) + votes_for(d, gaps, 1) <= cast);
            assert forall|k: int| 1 < k < 8 implies #[trigger] votes_for(d, gaps, k) < pair by {
                lemma_three_votes(d, gaps, k);
                assert(votes_for(d, gaps, 1) + votes_for(d, gaps, k) <= cast);
            }
        }
        assert(!wins(d, gaps, 0)) by {
            assert(votes_for(d, gaps, 1) == pair);
        }
    }
    if wins(d, gaps, 0) {
        assert(votes_for(d, gaps, 1) < mono);
    }
    if wins(d, gaps, 1) {
        assert(votes_for(d, gaps, 0) <= pair);
    }
}

proof fn lemma_two_votes(d: Seq<u8>, gaps: Seq<(usize, usize)>, a: int, b: int)
    requires
        a != b,
    ensures
        votes_for(d, gaps, a) + votes_for(d, gaps, b) <= votes_cast(gaps),
    decreases gaps.len(),
{
    if gaps.len() > 0 {
        lemma_two_votes(d, gaps.drop_last(), a, b);
    }
}

proof fn lemma_three_votes(d: Seq<u8>, gaps: Seq<(usize, usize)>, k: int)
    requires
        k > 1,
    ensures
        votes_for(d, gaps, 0) + votes_for(d, gaps, 1) + votes_for(d, gaps, k) <= votes_cast(gaps),
    decreases gaps.len(),
{
    if gaps.len() > 0 {
        lemma_three_votes(d, gaps.drop_last(), k);
    }
}

/// The sample rates of AAC have their indices by the standard, and no other rate has
/// one.
pub proof fn law_rates_have_their_indices(rate: u32)
    ensures
        rate_index(rate) == (if rate == 96000 {
            Some(0int)
        } else if rate == 88200 {
            Some(1)
        } else if rate == 64000 {
            Some(2)
        } else if rate == 48000 {
            Some(3)
        } else if rate == 44100 {
            Some(4)
        } else if rate == 32000 {
            Some(5)
        } else if rate == 24000 {
            Some(6)
        } else if rate == 22050 {
            Some(7)
        } else if rate == 16000 {
            Some(8)
        } else if rate == 12000 {
            Some(9)
        } else if rate == 11025 {
            Some(10)
        } else if rate == 8000 {
            Some(11)
        } else {
            None
        }),
{
    reveal_with_fuel(rate_index_from, 14);
}

/// A rate that audio may have, with a rate that video may have.
pub open spec fn is_usual_timing(t: Timing) -> bool {
    &&& t.rate == 48000 || t.rate == 44100
    &&& t.fps == (24000u32, 1001u32) || t.fps == (24u32, 1u32) || t.fps == (25u32, 1u32) || t.fps
        == (30000u32, 1001u32) || t.fps == (30u32, 1u32) || t.fps == (50u32, 1u32) || t.fps == (
        60000u32,
        1001u32,
    ) || t.fps == (60u32, 1u32) || t.fps == (15u32, 1u32) || t.fps == (20u32, 1u32)
}

/// Every usual timing is tried, and no other is; those of 48000 come first.
pub proof fn law_every_usual_timing_is_tried(t: Timing)
    ensures
        is_usual_timing(t) <==> exists|i: int| 0 <= i < 20 && #[trigger] timing_number(i) == t,
        forall|i: int| 0 <= i < 20 ==> (#[trigger] timing_number(i)).rate == if i < 10 {
            48000int
        } else {
            44100
        },
{
    let s = if t.rate == 48000 {
        0int
    } else {
        10
    };
    let j = if t.fps == (24000u32, 1001u32) {
        0int
    } else if t.fps == (24u32, 1u32) {
        1
    } else if t.fps == (25u32, 1u32) {
        2
    } else if t.fps == (30000u32, 1001u32) {
        3
    } else if t.fps == (30u32, 1u32) {
        4
    } else if t.fps == (50u32, 1u32) {
        5
    } else if t.fps == (60000u32, 1001u32) {
        6
    } else if t.fps == (60u32, 1u32) {
        7
    } else if t.fps == (15u32, 1u32) {
        8
    } else {
        9
    };
    assert(STD_FPS@ =~= seq![
        (24000u32, 1001u32),
        (24u32, 1u32),
        (25u32, 1u32),
        (30000u32, 1001u32),
        (30u32, 1u32),
        (50u32, 1u32),
        (60000u32, 1001u32),
        (60u32, 1u32),
        (15u32, 1u32),
        (20u32, 1u32),
    ]);
    if is_usual_timing(t) {
        assert(timing_number(s + j) == t);
    }
}

/// The pair that fits best is the first of those that are nearest, and one is found
/// wherever one is near enough.
pub proof fn law_nearest_pair_fits(misfits: Seq<u64>, limit: u64, i: int)
    requires
        0 <= i < misfits.len(),
        misfits[i] < limit,
        forall|k: int| 0 <= k < misfits.len() ==> misfits[i] <= #[trigger] misfits[k],
        forall|k: int| 0 <= k < i ==> misfits[i] != #[trigger] misfits[k],
    ensures
        forall|j: int| #[trigger] is_best_fit(misfits, limit, j) <==> j == i,
{
    assert forall|j: int| #[trigger] is_best_fit(misfits, limit, j) <==> j == i by {
        if is_best_fit(misfits, limit, j) {
            assert(misfits[i] <= misfits[j]);
            if j < i {
                assert(misfits[j] != misfits[i]);
                assert(misfits[j] <= misfits[i]);
            }
            if j > i {
                assert(misfits[j] < misfits[i]);
            }
        }
    }
}

} // verus!
