//! A file that holds the video alone, with an index of its own.

use crate::bytes::{
    be16_bytes, be32_bytes, be32_table, be64_bytes, low16, low32, put, put_be16, put_be32,
    put_be64, put_table, put_zeros, zero_bytes,
};
use crate::fault::Fault;
use crate::frames::Frame;
use crate::mdat::max_int;
use crate::mp4::{
    box_bytes, dinf, dinf_box, ftyp, ftyp_box, full_box, hdlr, hdlr_box, mdhd, mdhd_box, mvhd,
    mvhd_box, tkhd, tkhd_box, wrap, wrap_full, AVC1, AVCC, CO64, CTTS, EDTS, ELST, MDAT, MDIA,
    MINF, MOOV, STBL, STCO, STSC, STSD, STSS, STSZ, STTS, TRAK, VIDE, VMHD,
};
use crate::order::{
    display_order, headers_lie_in, is_display_order, order_counts, order_known, shown_order,
};
use crate::sps::is_high_profile;
use crate::x264::Params;
use vstd::prelude::*;

verus! {

/// What a track of video is described by.
#[derive(Clone, Copy, Debug)]
pub struct VideoOut<'a> {
    /// The sequence parameter set.
    pub sps: &'a [u8],
    /// The picture parameter set.
    pub pps: &'a [u8],
    /// Bits per sample.
    pub depth: u32,
    /// The width that is shown.
    pub width: u32,
    /// The height that is shown.
    pub height: u32,
    /// Frames per second, as numerator and denominator.
    pub fps: (u32, u32),
}

impl<'a> VideoOut<'a> {
    /// The parameter set holds a profile and a level, the depth can be stored and
    /// time passes.
    pub open spec fn wf(&self) -> bool {
        &&& self.sps@.len() >= 4
        &&& is_high_profile(self.sps@[1]) ==> self.depth >= 8
        &&& self.fps.0 > 0
    }
}

/// What a decoder needs to start: profile, level, and both parameter sets.
pub open spec fn decoder_config(v: VideoOut) -> Seq<u8> {
    let sps = v.sps@;
    let depth = (0xf8u8 | ((v.depth - 8) % 0x100) as u8);
    seq![1u8, sps[1], sps[2], sps[3], 0xff, 0xe1] + be16_bytes(low16(sps.len() as int)) + sps
        + seq![1u8] + be16_bytes(low16(v.pps@.len() as int)) + v.pps@ + (if is_high_profile(
        sps[1],
    ) {
        seq![0xfdu8, depth, depth, 0]
    } else {
        Seq::empty()
    })
}

/// Appends what a decoder needs to start.
fn put_decoder_config(o: &mut Vec<u8>, v: &VideoOut)
    requires
        v.wf(),
    ensures
        final(o)@ == old(o)@ + decoder_config(*v),
{
    let mut b: Vec<u8> = Vec::new();
    b.push(1);
    b.push(v.sps[1]);
    b.push(v.sps[2]);
    b.push(v.sps[3]);
    b.push(0xff);
    b.push(0xe1);
    assert(b@ =~= seq![1u8, v.sps@[1], v.sps@[2], v.sps@[3], 0xff, 0xe1]);
    put_be16(&mut b, (v.sps.len() % 0x1_0000) as u16);
    put(&mut b, v.sps);
    let ghost mid = b@;
    b.push(1);
    assert(b@ =~= mid + seq![1u8]);
    put_be16(&mut b, (v.pps.len() % 0x1_0000) as u16);
    put(&mut b, v.pps);
    let profile: u8 = v.sps[1];
    let ghost rest = b@;
    if profile == 100 || profile == 110 || profile == 122 || profile == 244 {
        let depth: u8 = 0xf8u8 | ((v.depth - 8) % 0x100) as u8;
        b.push(0xfd);
        b.push(depth);
        b.push(depth);
        b.push(0);
        assert(b@ =~= rest + seq![0xfdu8, depth, depth, 0]);
    } else {
        assert(b@ =~= rest + Seq::<u8>::empty());
    }
    assert(b@ == decoder_config(*v));
    put(o, b.as_slice());
}

/// How samples are coded: AVC at 72 dpi and 24 bits per pixel.
pub open spec fn sample_entry(v: VideoOut) -> Seq<u8> {
    zero_bytes(6) + be16_bytes(1) + zero_bytes(16) + be16_bytes(low16(v.width as int))
        + be16_bytes(low16(v.height as int)) + be32_bytes(0x480000) + be32_bytes(0x480000)
        + zero_bytes(4) + be16_bytes(1) + zero_bytes(32) + be16_bytes(0x18) + be16_bytes(0xffff)
        + box_bytes(AVCC@, decoder_config(v))
}

/// The table of sample entries, with the one entry there is.
pub open spec fn stsd_box(v: VideoOut) -> Seq<u8> {
    full_box(STSD@, 0, 0, be32_bytes(1) + box_bytes(AVC1@, sample_entry(v)))
}

fn stsd(v: &VideoOut) -> (o: Vec<u8>)
    requires
        v.wf(),
    ensures
        o@ == stsd_box(*v),
{
    let mut config: Vec<u8> = Vec::new();
    put_decoder_config(&mut config, v);
    assert(config@ =~= decoder_config(*v));
    let mut b: Vec<u8> = Vec::new();
    put_zeros(&mut b, 6);
    assert(b@ =~= zero_bytes(6));
    put_be16(&mut b, 1);
    put_zeros(&mut b, 16);
    put_be16(&mut b, (v.width % 0x1_0000) as u16);
    put_be16(&mut b, (v.height % 0x1_0000) as u16);
    put_be32(&mut b, 0x480000);
    put_be32(&mut b, 0x480000);
    put_zeros(&mut b, 4);
    put_be16(&mut b, 1);
    put_zeros(&mut b, 32);
    put_be16(&mut b, 0x18);
    put_be16(&mut b, 0xffff);
    put(&mut b, wrap(&AVCC, config.as_slice()).as_slice());
    let entry: Vec<u8> = wrap(&AVC1, b.as_slice());
    let mut t: Vec<u8> = Vec::new();
    put_be32(&mut t, 1);
    assert(t@ =~= be32_bytes(1));
    put(&mut t, entry.as_slice());
    wrap_full(&STSD, 0, t.as_slice())
}

/// Each of the `n` samples lasts `dur`.
pub open spec fn stts_box(n: int, dur: u32) -> Seq<u8> {
    full_box(STTS@, 0, 0, be32_bytes(1) + be32_bytes(low32(n)) + be32_bytes(dur))
}

/// How many frames a decoder has to hold back so that none is late: the farthest
/// that a frame is shown before its place in the file.
pub open spec fn delay_of(disp: Seq<usize>) -> int
    decreases disp.len(),
{
    if disp.len() == 0 {
        0
    } else {
        max_int(delay_of(disp.drop_last()), disp.len() - 1 - disp.last())
    }
}

/// How many frame times lie between decoding frame `i` and showing it.
pub open spec fn shift_of(disp: Seq<usize>, i: int) -> int {
    disp[i] + delay_of(disp) - i
}

/// The shifts of all frames.
pub open spec fn shifts_of(disp: Seq<usize>) -> Seq<u32> {
    Seq::new(disp.len(), |i: int| shift_of(disp, i) as u32)
}

/// Every time fits in the 32 bits that the index has for it.
pub open spec fn times_fit(disp: Seq<usize>, dur: u32) -> bool {
    &&& disp.len() <= u32::MAX
    &&& disp.len() * dur <= u32::MAX
    &&& delay_of(disp) > 0 ==> forall|i: int|
        0 <= i < disp.len() ==> (#[trigger] disp[i]) + delay_of(disp) <= u32::MAX && shift_of(
            disp,
            i,
        ) * dur <= u32::MAX
}

/// Runs of equal numbers, as pairs of how many there are and which.
pub open spec fn runs_of(s: Seq<u32>) -> Seq<(u32, u32)>
    decreases s.len(),
{
    if s.len() == 0 {
        Seq::empty()
    } else {
        let r = runs_of(s.drop_last());
        if r.len() > 0 && r.last().1 == s.last() {
            r.drop_last().push(((r.last().0 + 1) as u32, s.last()))
        } else {
            r.push((1u32, s.last()))
        }
    }
}

/// The table of runs, each shift as a time.
pub open spec fn run_table(runs: Seq<(u32, u32)>, dur: u32) -> Seq<u8>
    decreases runs.len(),
{
    if runs.len() == 0 {
        Seq::empty()
    } else {
        run_table(runs.drop_last(), dur) + be32_bytes(runs.last().0) + be32_bytes(
            (runs.last().1 * dur) as u32,
        )
    }
}

/// How long after its decoding each sample is shown.
pub open spec fn ctts_box(disp: Seq<usize>, dur: u32) -> Seq<u8> {
    let runs = runs_of(shifts_of(disp));
    full_box(CTTS@, 0, 0, be32_bytes(runs.len() as u32) + run_table(runs, dur))
}

fn stts(n: usize, dur: u32) -> (o: Vec<u8>)
    ensures
        o@ == stts_box(n as int, dur),
{
    let mut b: Vec<u8> = Vec::new();
    put_be32(&mut b, 1);
    assert(b@ =~= be32_bytes(1));
    put_be32(&mut b, (n as u64 % 0x1_0000_0000) as u32);
    put_be32(&mut b, dur);
    wrap_full(&STTS, 0, b.as_slice())
}

/// Every frame is covered by what is held back.
pub proof fn lemma_delay_covers(disp: Seq<usize>, i: int)
    requires
        0 <= i < disp.len(),
    ensures
        i - disp[i] <= delay_of(disp) < disp.len(),
        0 <= delay_of(disp),
    decreases disp.len(),
{
    lemma_delay_bounds(disp.drop_last());
    if i < disp.len() - 1 {
        lemma_delay_covers(disp.drop_last(), i);
        assert(disp.drop_last()[i] == disp[i]);
    }
}

proof fn lemma_delay_bounds(disp: Seq<usize>)
    ensures
        0 <= delay_of(disp) <= disp.len(),
    decreases disp.len(),
{
    if disp.len() > 0 {
        lemma_delay_bounds(disp.drop_last());
    }
}

/// How many frames a decoder has to hold back.
fn delay(disp: &Vec<usize>) -> (r: usize)
    ensures
        r == delay_of(disp@),
{
    let mut r: usize = 0;
    let mut i: usize = 0;
    while i < disp.len()
        invariant
            i <= disp@.len(),
            r == delay_of(disp@.take(i as int)),
        decreases disp@.len() - i,
    {
        if disp[i] < i && i - disp[i] > r {
            r = i - disp[i];
        }
        proof {
            let t = disp@.take(i + 1);
            assert(t.drop_last() =~= disp@.take(i as int));
            lemma_delay_bounds(t.drop_last());
        }
        i = i + 1;
    }
    assert(disp@.take(i as int) =~= disp@);
    r
}

/// The shifts of all frames, if every time fits in 32 bits.
fn shifts(disp: &Vec<usize>, hold: usize, dur: u32) -> (r: Option<Vec<u32>>)
    requires
        hold == delay_of(disp@),
    ensures
        r is Some <==> times_fit(disp@, dur),
        r matches Some(s) ==> (hold > 0 ==> s@ == shifts_of(disp@)),
{
    let n: usize = disp.len();
    assert(n <= u32::MAX ==> n * dur <= u64::MAX) by (nonlinear_arith)
        requires
            0 <= dur <= u32::MAX,
    ;
    if n > 0xffff_ffff || n as u64 * dur as u64 > 0xffff_ffff {
        return None;
    }
    let mut s: Vec<u32> = Vec::new();
    if hold == 0 {
        return Some(s);
    }
    proof {
        lemma_delay_bounds(disp@);
    }
    let mut i: usize = 0;
    while i < n
        invariant
            i <= n == disp@.len(),
            n <= u32::MAX,
            n * dur <= u32::MAX,
            0 < hold == delay_of(disp@) <= n,
            forall|k: int|
                0 <= k < i ==> (#[trigger] disp@[k]) + hold <= u32::MAX && shift_of(disp@, k) * dur
                    <= u32::MAX,
            s@.len() == i,
            forall|k: int| 0 <= k < i ==> #[trigger] s@[k] == shift_of(disp@, k) as u32,
        decreases n - i,
    {
        proof {
            lemma_delay_covers(disp@, i as int);
        }
        if disp[i] > 0xffff_ffff - hold {
            assert(disp@[i as int] + delay_of(disp@) > u32::MAX);
            return None;
        }
        let c: usize = disp[i] + hold - i;
        assert(c == shift_of(disp@, i as int) && c <= u32::MAX);
        assert(c * dur <= 0xffff_fffe_0000_0001) by (nonlinear_arith)
            requires
                0 <= c <= 0xffff_ffff,
                0 <= dur <= 0xffff_ffff,
        ;
        if c as u64 * dur as u64 > 0xffff_ffff {
            assert(shift_of(disp@, i as int) * dur > u32::MAX);
            return None;
        }
        s.push(c as u32);
        i = i + 1;
    }
    assert(s@ =~= shifts_of(disp@));
    Some(s)
}

proof fn lemma_runs_bounds(s: Seq<u32>)
    ensures
        runs_of(s).len() <= s.len(),
        forall|k: int| 0 <= k < runs_of(s).len() ==> 1 <= (#[trigger] runs_of(s)[k]).0 <= s.len()
            || s.len() > u32::MAX,
    decreases s.len(),
{
    if s.len() > 0 {
        lemma_runs_bounds(s.drop_last());
        let r = runs_of(s.drop_last());
        assert forall|k: int| 0 <= k < runs_of(s).len() implies 1 <= (#[trigger] runs_of(s)[k]).0
            <= s.len() || s.len() > u32::MAX by {
            if k < r.len() {
                assert(1 <= r[k].0 <= s.len() - 1 || s.len() - 1 > u32::MAX);
            }
        }
    }
}

/// Runs of equal numbers in `s`.
fn runs(s: &Vec<u32>) -> (r: Vec<(u32, u32)>)
    requires
        s@.len() <= u32::MAX,
    ensures
        r@ == runs_of(s@),
        r@.len() <= s@.len(),
{
    let mut r: Vec<(u32, u32)> = Vec::new();
    let mut i: usize = 0;
    assert(r@ =~= runs_of(s@.take(0)));
    while i < s.len()
        invariant
            i <= s@.len() <= u32::MAX,
            r@ == runs_of(s@.take(i as int)),
        decreases s@.len() - i,
    {
        let c: u32 = s[i];
        let m: usize = r.len();
        let ghost before = r@;
        proof {
            let t = s@.take(i + 1);
            assert(t.drop_last() =~= s@.take(i as int));
            assert(t.last() == c);
            lemma_runs_bounds(s@.take(i as int));
        }
        if m > 0 && r[m - 1].1 == c {
            let count: u32 = r[m - 1].0 + 1;
            r.set(m - 1, (count, c));
            assert(r@ =~= before.drop_last().push((count, c)));
        } else {
            r.push((1, c));
        }
        i = i + 1;
    }
    proof {
        assert(s@.take(i as int) =~= s@);
        lemma_runs_bounds(s@);
    }
    r
}

proof fn lemma_runs_hold_shifts(s: Seq<u32>, dur: u32)
    requires
        forall|k: int| 0 <= k < s.len() ==> (#[trigger] s[k]) * dur <= u32::MAX,
    ensures
        forall|k: int|
            0 <= k < runs_of(s).len() ==> (#[trigger] runs_of(s)[k]).1 * dur <= u32::MAX,
    decreases s.len(),
{
    if s.len() > 0 {
        assert forall|k: int| 0 <= k < s.len() - 1 implies (#[trigger] s.drop_last()[k]) * dur
            <= u32::MAX by {
            assert(s[k] * dur <= u32::MAX);
        }
        lemma_runs_hold_shifts(s.drop_last(), dur);
        let r = runs_of(s.drop_last());
        let t = runs_of(s);
        assert forall|k: int| 0 <= k < t.len() implies (#[trigger] t[k]).1 * dur <= u32::MAX by {
            assert(s.last() * dur <= u32::MAX);
            if k < t.len() - 1 {
                assert(r[k] == t[k]);
            }
        }
    }
}

fn ctts(disp: &Vec<usize>, s: &Vec<u32>, dur: u32) -> (o: Vec<u8>)
    requires
        s@ == shifts_of(disp@),
        times_fit(disp@, dur),
        delay_of(disp@) > 0,
    ensures
        o@ == ctts_box(disp@, dur),
{
    proof {
        assert forall|k: int| 0 <= k < s@.len() implies (#[trigger] s@[k]) * dur <= u32::MAX by {
            lemma_delay_covers(disp@, k);
            assert(disp@[k] + delay_of(disp@) <= u32::MAX);
        }
        lemma_runs_hold_shifts(s@, dur);
    }
    let r: Vec<(u32, u32)> = runs(s);
    let mut b: Vec<u8> = Vec::new();
    put_be32(&mut b, r.len() as u32);
    assert(b@ =~= be32_bytes(r@.len() as u32));
    let ghost head = b@;
    let mut i: usize = 0;
    assert(head + run_table(r@.take(0), dur) =~= head);
    while i < r.len()
        invariant
            i <= r@.len(),
            forall|k: int| 0 <= k < r@.len() ==> (#[trigger] r@[k]).1 * dur <= u32::MAX,
            b@ == head + run_table(r@.take(i as int), dur),
        decreases r@.len() - i,
    {
        let (count, shift): (u32, u32) = r[i];
        assert(r@[i as int].1 * dur <= u32::MAX);
        put_be32(&mut b, count);
        put_be32(&mut b, shift * dur);
        proof {
            let t = r@.take(i + 1);
            assert(t.drop_last() =~= r@.take(i as int));
            assert(head + run_table(t.drop_last(), dur) + be32_bytes(count) + be32_bytes(
                (shift * dur) as u32,
            ) =~= head + run_table(t, dur));
        }
        i = i + 1;
    }
    assert(r@.take(i as int) =~= r@);
    wrap_full(&CTTS, 0, b.as_slice())
}

/// The numbers of the key frames among `frames`, counted from 1.
pub open spec fn key_numbers(frames: Seq<Frame>) -> Seq<u32>
    decreases frames.len(),
{
    if frames.len() == 0 {
        Seq::empty()
    } else {
        let r = key_numbers(frames.drop_last());
        if frames.last().is_key() {
            r.push(frames.len() as u32)
        } else {
            r
        }
    }
}

/// Which samples decoding can start at.
pub open spec fn stss_box(frames: Seq<Frame>) -> Seq<u8> {
    let keys = key_numbers(frames);
    full_box(STSS@, 0, 0, be32_bytes(keys.len() as u32) + be32_table(keys))
}

fn stss(frames: &[Frame]) -> (o: Vec<u8>)
    requires
        frames@.len() <= u32::MAX,
    ensures
        o@ == stss_box(frames@),
{
    let mut keys: Vec<u32> = Vec::new();
    let mut i: usize = 0;
    assert(keys@ =~= key_numbers(frames@.take(0)));
    while i < frames.len()
        invariant
            i <= frames@.len() <= u32::MAX,
            keys@ == key_numbers(frames@.take(i as int)),
            keys@.len() <= i,
        decreases frames@.len() - i,
    {
        proof {
            let t = frames@.take(i + 1);
            assert(t.drop_last() =~= frames@.take(i as int));
            assert(t.last() == frames@[i as int]);
        }
        if frames[i].hdr % 32 == 5 {
            keys.push((i + 1) as u32);
        }
        i = i + 1;
    }
    assert(frames@.take(i as int) =~= frames@);
    let mut b: Vec<u8> = Vec::new();
    put_be32(&mut b, keys.len() as u32);
    assert(b@ =~= be32_bytes(keys@.len() as u32));
    put_table(&mut b, keys.as_slice());
    wrap_full(&STSS, 0, b.as_slice())
}

/// All `n` samples are in one chunk.
pub open spec fn stsc_box(n: int) -> Seq<u8> {
    full_box(
        STSC@,
        0,
        0,
        be32_bytes(1) + be32_bytes(1) + be32_bytes(low32(n)) + be32_bytes(1),
    )
}

fn stsc(n: usize) -> (o: Vec<u8>)
    ensures
        o@ == stsc_box(n as int),
{
    let mut b: Vec<u8> = Vec::new();
    put_be32(&mut b, 1);
    assert(b@ =~= be32_bytes(1));
    put_be32(&mut b, 1);
    put_be32(&mut b, (n as u64 % 0x1_0000_0000) as u32);
    put_be32(&mut b, 1);
    wrap_full(&STSC, 0, b.as_slice())
}

/// The sizes of the samples: each unit with the four bytes of its length.
pub open spec fn sample_sizes(frames: Seq<Frame>) -> Seq<u32> {
    Seq::new(frames.len(), |i: int| low32(4 + frames[i].len))
}

/// How long each sample is.
pub open spec fn stsz_box(frames: Seq<Frame>) -> Seq<u8> {
    full_box(
        STSZ@,
        0,
        0,
        be32_bytes(0) + be32_bytes(low32(frames.len() as int)) + be32_table(sample_sizes(frames)),
    )
}

fn stsz(frames: &[Frame]) -> (o: Vec<u8>)
    ensures
        o@ == stsz_box(frames@),
{
    let n: usize = frames.len();
    let mut sizes: Vec<u32> = Vec::new();
    let mut i: usize = 0;
    while i < n
        invariant
            i <= n == frames@.len(),
            sizes@.len() == i,
            forall|k: int| 0 <= k < i ==> #[trigger] sizes@[k] == low32(4 + frames@[k].len),
        decreases n - i,
    {
        sizes.push(((frames[i].len as u64 % 0x1_0000_0000 + 4) % 0x1_0000_0000) as u32);
        i = i + 1;
    }
    assert(sizes@ =~= sample_sizes(frames@));
    let mut b: Vec<u8> = Vec::new();
    put_be32(&mut b, 0);
    assert(b@ =~= be32_bytes(0));
    put_be32(&mut b, (n as u64 % 0x1_0000_0000) as u32);
    put_table(&mut b, sizes.as_slice());
    wrap_full(&STSZ, 0, b.as_slice())
}

/// The number of bytes that `frames` take, lengths and units.
pub open spec fn payload_len(frames: Seq<Frame>) -> int
    decreases frames.len(),
{
    if frames.len() == 0 {
        0
    } else {
        payload_len(frames.drop_last()) + 4 + frames.last().len
    }
}

/// The media data needs a size of 64 bits.
pub open spec fn is_big(payload: int) -> bool {
    payload + 8 > 0xffff_fff0
}

/// Where in the file the first sample stands: behind the brands and the header of
/// the media data.
pub open spec fn first_sample(payload: int) -> int {
    if is_big(payload) {
        48
    } else {
        40
    }
}

/// Where the one chunk starts.
pub open spec fn chunk_box(payload: int) -> Seq<u8> {
    if is_big(payload) {
        full_box(CO64@, 0, 0, be32_bytes(1) + be64_bytes(48))
    } else {
        full_box(STCO@, 0, 0, be32_bytes(1) + be32_bytes(40))
    }
}

fn chunk(big: bool, Ghost(payload): Ghost<int>) -> (o: Vec<u8>)
    requires
        big == is_big(payload),
    ensures
        o@ == chunk_box(payload),
{
    let mut b: Vec<u8> = Vec::new();
    put_be32(&mut b, 1);
    assert(b@ =~= be32_bytes(1));
    if big {
        put_be64(&mut b, 48);
        wrap_full(&CO64, 0, b.as_slice())
    } else {
        put_be32(&mut b, 40);
        wrap_full(&STCO, 0, b.as_slice())
    }
}

/// The table of samples.
pub open spec fn stbl_box(frames: Seq<Frame>, disp: Seq<usize>, v: VideoOut) -> Seq<u8> {
    box_bytes(
        STBL@,
        stsd_box(v) + stts_box(frames.len() as int, v.fps.1) + (if delay_of(disp) > 0 {
            ctts_box(disp, v.fps.1)
        } else {
            Seq::empty()
        }) + stss_box(frames) + stsc_box(frames.len() as int) + stsz_box(frames) + chunk_box(
            payload_len(frames),
        ),
    )
}

fn stbl(
    frames: &[Frame],
    disp: &Vec<usize>,
    s: &Vec<u32>,
    hold: usize,
    big: bool,
    v: &VideoOut,
) -> (o: Vec<u8>)
    requires
        v.wf(),
        disp@.len() == frames@.len(),
        hold == delay_of(disp@),
        hold > 0 ==> s@ == shifts_of(disp@),
        times_fit(disp@, v.fps.1),
        big == is_big(payload_len(frames@)),
    ensures
        o@ == stbl_box(frames@, disp@, *v),
{
    let n: usize = frames.len();
    let mut b: Vec<u8> = stsd(v);
    put(&mut b, stts(n, v.fps.1).as_slice());
    let ghost before = b@;
    if hold > 0 {
        put(&mut b, ctts(disp, s, v.fps.1).as_slice());
    } else {
        assert(before + Seq::<u8>::empty() =~= before);
    }
    put(&mut b, stss(frames).as_slice());
    put(&mut b, stsc(n).as_slice());
    put(&mut b, stsz(frames).as_slice());
    put(&mut b, chunk(big, Ghost(payload_len(frames@))).as_slice());
    wrap(&STBL, b.as_slice())
}

/// How long the video is shown, in milliseconds.
pub open spec fn shown_ms(n: int, hold: int, fps: (u32, u32)) -> u32 {
    low32((n - hold) * fps.1 * 1000 / fps.0 as int)
}

/// The handler's name.
pub open spec fn handler_name() -> Seq<u8> {
    seq![0x76u8, 0]
}

/// Where the samples are and how they are coded.
pub open spec fn minf_box(frames: Seq<Frame>, disp: Seq<usize>, v: VideoOut) -> Seq<u8> {
    box_bytes(
        MINF@,
        full_box(VMHD@, 0, 1, zero_bytes(8)) + dinf_box() + stbl_box(frames, disp, v),
    )
}

/// The media of the track.
pub open spec fn mdia_box(frames: Seq<Frame>, disp: Seq<usize>, v: VideoOut) -> Seq<u8> {
    box_bytes(
        MDIA@,
        mdhd_box(v.fps.0, (frames.len() * v.fps.1) as u32) + hdlr_box(VIDE@, handler_name())
            + minf_box(frames, disp, v),
    )
}

/// Showing starts after the frames that are held back.
pub open spec fn edts_box(ms: u32, hold: int, dur: u32) -> Seq<u8> {
    box_bytes(
        EDTS@,
        full_box(
            ELST@,
            0,
            0,
            be32_bytes(1) + be32_bytes(ms) + be32_bytes((hold * dur) as u32) + be32_bytes(0x10000),
        ),
    )
}

/// The index.
pub open spec fn moov_box(frames: Seq<Frame>, disp: Seq<usize>, v: VideoOut) -> Seq<u8> {
    let hold = delay_of(disp);
    let ms = shown_ms(frames.len() as int, hold, v.fps);
    box_bytes(
        MOOV@,
        mvhd_box(ms) + box_bytes(
            TRAK@,
            tkhd_box(ms, v.width, v.height, false) + edts_box(ms, hold, v.fps.1) + mdia_box(
                frames,
                disp,
                v,
            ),
        ),
    )
}

fn minf(
    frames: &[Frame],
    disp: &Vec<usize>,
    s: &Vec<u32>,
    hold: usize,
    big: bool,
    v: &VideoOut,
) -> (o: Vec<u8>)
    requires
        v.wf(),
        disp@.len() == frames@.len(),
        hold == delay_of(disp@),
        hold > 0 ==> s@ == shifts_of(disp@),
        times_fit(disp@, v.fps.1),
        big == is_big(payload_len(frames@)),
    ensures
        o@ == minf_box(frames@, disp@, *v),
{
    let mut zeros: Vec<u8> = Vec::new();
    put_zeros(&mut zeros, 8);
    assert(zeros@ =~= zero_bytes(8));
    let mut b: Vec<u8> = wrap_full(&VMHD, 1, zeros.as_slice());
    put(&mut b, dinf().as_slice());
    put(&mut b, stbl(frames, disp, s, hold, big, v).as_slice());
    wrap(&MINF, b.as_slice())
}

fn mdia(
    frames: &[Frame],
    disp: &Vec<usize>,
    s: &Vec<u32>,
    hold: usize,
    big: bool,
    v: &VideoOut,
) -> (o: Vec<u8>)
    requires
        v.wf(),
        disp@.len() == frames@.len(),
        hold == delay_of(disp@),
        hold > 0 ==> s@ == shifts_of(disp@),
        times_fit(disp@, v.fps.1),
        big == is_big(payload_len(frames@)),
    ensures
        o@ == mdia_box(frames@, disp@, *v),
{
    let name: [u8; 2] = [0x76, 0];
    assert(name@ =~= handler_name());
    let mut b: Vec<u8> = mdhd(v.fps.0, (frames.len() as u64 * v.fps.1 as u64) as u32);
    put(&mut b, hdlr(&VIDE, name.as_slice()).as_slice());
    put(&mut b, minf(frames, disp, s, hold, big, v).as_slice());
    wrap(&MDIA, b.as_slice())
}

fn edts(ms: u32, shift: u32, Ghost(hold): Ghost<int>, Ghost(dur): Ghost<u32>) -> (o: Vec<u8>)
    requires
        shift == hold * dur,
    ensures
        o@ == edts_box(ms, hold, dur),
{
    let mut b: Vec<u8> = Vec::new();
    put_be32(&mut b, 1);
    assert(b@ =~= be32_bytes(1));
    put_be32(&mut b, ms);
    put_be32(&mut b, shift);
    put_be32(&mut b, 0x10000);
    let elst: Vec<u8> = wrap_full(&ELST, 0, b.as_slice());
    wrap(&EDTS, elst.as_slice())
}

fn moov(
    frames: &[Frame],
    disp: &Vec<usize>,
    s: &Vec<u32>,
    hold: usize,
    big: bool,
    v: &VideoOut,
) -> (o: Vec<u8>)
    requires
        v.wf(),
        disp@.len() == frames@.len(),
        hold == delay_of(disp@),
        hold > 0 ==> s@ == shifts_of(disp@),
        times_fit(disp@, v.fps.1),
        big == is_big(payload_len(frames@)),
    ensures
        o@ == moov_box(frames@, disp@, *v),
{
    let n: usize = frames.len();
    let dur: u32 = v.fps.1;
    proof {
        lemma_delay_bounds(disp@);
        assert(0 <= hold * dur <= n * dur) by (nonlinear_arith)
            requires
                0 <= hold <= n,
                0 <= dur,
        ;
        assert(0 <= (n - hold) * dur <= n * dur) by (nonlinear_arith)
            requires
                0 <= hold <= n,
                0 <= dur,
        ;
    }
    let ms: u32 = (((n - hold) as u64 * dur as u64) * 1000 / v.fps.0 as u64 % 0x1_0000_0000) as u32;
    let mut trak: Vec<u8> = tkhd(ms, v.width, v.height, false);
    put(
        &mut trak,
        edts(
            ms,
            (hold as u64 * dur as u64) as u32,
            Ghost(hold as int),
            Ghost(dur),
        ).as_slice(),
    );
    put(&mut trak, mdia(frames, disp, s, hold, big, v).as_slice());
    let mut b: Vec<u8> = mvhd(ms);
    put(&mut b, wrap(&TRAK, trak.as_slice()).as_slice());
    wrap(&MOOV, b.as_slice())
}

/// What stands before the first sample: the brands and the header of the media
/// data.
pub open spec fn file_head(payload: int) -> Seq<u8> {
    ftyp_box() + (if is_big(payload) {
        be32_bytes(1) + MDAT@ + be64_bytes((payload + 16) as u64)
    } else {
        be32_bytes((payload + 8) as u32) + MDAT@
    })
}

fn head(payload: u64, big: bool) -> (o: Vec<u8>)
    requires
        payload + 16 <= u64::MAX,
        big == is_big(payload as int),
    ensures
        o@ == file_head(payload as int),
{
    let mut b: Vec<u8> = Vec::new();
    if big {
        put_be32(&mut b, 1);
        assert(b@ =~= be32_bytes(1));
        put(&mut b, MDAT.as_slice());
        put_be64(&mut b, payload + 16);
    } else {
        put_be32(&mut b, (payload + 8) as u32);
        assert(b@ =~= be32_bytes((payload + 8) as u32));
        put(&mut b, MDAT.as_slice());
    }
    let mut o: Vec<u8> = ftyp();
    put(&mut o, b.as_slice());
    o
}

/// What to write around the frames: the file is `head`, then each frame with its
/// length, then `moov`.
#[derive(Debug)]
pub struct VideoFile {
    /// What stands before the first frame.
    pub head: Vec<u8>,
    /// Where in the media data each frame starts and ends, its length included.
    pub ranges: Vec<(usize, usize)>,
    /// What stands behind the last frame.
    pub moov: Vec<u8>,
}

/// Where each of `frames` starts and ends.
pub open spec fn ranges_of(frames: Seq<Frame>) -> Seq<(usize, usize)> {
    Seq::new(frames.len(), |i: int| (frames[i].pos, frames[i].end() as usize))
}

proof fn lemma_payload_prefix(frames: Seq<Frame>, i: int)
    requires
        0 <= i <= frames.len(),
    ensures
        0 <= payload_len(frames.take(i)) <= payload_len(frames),
    decreases frames.len() - i,
{
    lemma_payload_nonneg(frames.take(i));
    if i < frames.len() {
        lemma_payload_prefix(frames, i + 1);
        assert(frames.take(i + 1).drop_last() =~= frames.take(i));
    } else {
        assert(frames.take(i) =~= frames);
    }
}

proof fn lemma_payload_nonneg(frames: Seq<Frame>)
    ensures
        payload_len(frames) >= 0,
    decreases frames.len(),
{
    if frames.len() > 0 {
        lemma_payload_nonneg(frames.drop_last());
    }
}

/// Lays out a file that holds `frames` alone, shown at `v.fps` frames per second
/// in the order that their slice headers tell.
pub fn write_video_mp4(d: &[u8], frames: &[Frame], p: &Params, v: &VideoOut) -> (r: Result<
    VideoFile,
    Fault,
>)
    requires
        p.poc_type == 0 ==> p.log2_poc <= 62 && headers_lie_in(d@, frames@),
        v.wf(),
        forall|k: int| 0 <= k < frames@.len() ==> (#[trigger] frames@[k]).end() <= d@.len(),
        payload_len(frames@) + 16 <= u64::MAX,
    ensures
        r is Ok <==> order_known(d@, frames@, *p) && times_fit(
            shown_order(d@, frames@, *p),
            v.fps.1,
        ),
        r matches Ok(f) ==> {
            &&& f.head@ == file_head(payload_len(frames@))
            &&& f.ranges@ == ranges_of(frames@)
            &&& f.moov@ == moov_box(frames@, shown_order(d@, frames@, *p), *v)
            &&& p.poc_type == 0 ==> is_display_order(
                frames@,
                order_counts(d@, frames@, *p),
                shown_order(d@, frames@, *p),
            )
        },
        r matches Err(e) ==> e == if order_known(d@, frames@, *p) {
            Fault::TooLong
        } else {
            Fault::NoOrder
        },
{
    let disp: Vec<usize> = match display_order(d, frames, p) {
        Ok(disp) => disp,
        Err(e) => {
            return Err(e);
        },
    };
    let hold: usize = delay(&disp);
    let s: Vec<u32> = match shifts(&disp, hold, v.fps.1) {
        Some(s) => s,
        None => {
            return Err(Fault::TooLong);
        },
    };
    let n: usize = d.len();
    let mut ranges: Vec<(usize, usize)> = Vec::new();
    let mut payload: u64 = 0;
    let mut i: usize = 0;
    while i < frames.len()
        invariant
            i <= frames@.len(),
            n == d@.len(),
            forall|k: int| 0 <= k < frames@.len() ==> (#[trigger] frames@[k]).end() <= d@.len(),
            payload_len(frames@) + 16 <= u64::MAX,
            payload == payload_len(frames@.take(i as int)),
            ranges@ == ranges_of(frames@.take(i as int)),
        decreases frames@.len() - i,
    {
        let f = &frames[i];
        proof {
            assert(frames@[i as int].end() <= d@.len());
            let t = frames@.take(i + 1);
            assert(t.drop_last() =~= frames@.take(i as int));
            assert(t.last() == *f);
            lemma_payload_prefix(frames@, i + 1);
            lemma_payload_prefix(frames@, i as int);
        }
        assert(f.pos + 4 + f.len <= n);
        ranges.push((f.pos, f.pos + 4 + f.len));
        payload = payload + 4 + f.len as u64;
        i = i + 1;
        assert(ranges@ =~= ranges_of(frames@.take(i as int)));
    }
    assert(frames@.take(i as int) =~= frames@);
    let big = payload + 8 > 0xffff_fff0;
    let head: Vec<u8> = head(payload, big);
    let moov: Vec<u8> = moov(frames, &disp, &s, hold, big, v);
    Ok(VideoFile { head, ranges, moov })
}

} // verus!
