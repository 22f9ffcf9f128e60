//! Guesses about a stream that a decoder is asked to try, and what its answers
//! tell.
//!
//! A guess is written in front of some frames as a pair of parameter sets. The
//! decoder's complaints, or the pictures that it gave, say how good it was.

use crate::bits::bits_of;
use crate::bytes::put;
use crate::declared::{
    crop_at, frames_at, law_pps_declares_coding, law_sps_declares_stream, law_sps_declares_timing,
    past_crop, read_coding, read_stream, read_timing, stream_of,
};
use crate::frames::{annexb, byte_stream, put_unit, start_code, Frame};
use crate::nal::unescaped;
use crate::sps::{is_high_profile, make_pps, make_sps, pps_unit, sps_unit};
use crate::text::{
    blank, chars_of, contains, find_second_piece, first_word, has, is_blank, is_digit, is_space,
    law_a_word_is_one_word, law_decimal_number_is_parsed, law_first_word_is_first,
    law_no_text_between, law_number_reads_back, law_text_between, law_white_space_separates_words,
    line_ranges, lines, next_word, number_text, parse_u32, parsed_u32, parts, second_piece,
    stands_at,
};
use crate::x264::{Params, X264};
use vstd::prelude::*;
use vstd::slice::slice_subrange;

verus! {

/// The widest row that is tried, in macroblocks.
pub const MAX_W_MB: u32 = 240;

/// The height that a width is tried with, in macroblocks.
pub const TEST_H_MB: u32 = 136;

/// How many frames a guess is validated on.
pub const PROBE_FRAMES: usize = 48;

/// How many of them a decoder may keep to itself.
pub const HELD_FRAMES: usize = 8;

/// A guess at depth, quantiser and size.
#[derive(Clone, Copy, Debug, PartialEq, Eq, Structural)]
pub struct Geo {
    /// Bits per sample.
    pub depth: u32,
    /// The quantiser that slices start from.
    pub qp: i32,
    /// The width in macroblocks.
    pub w_mb: u32,
    /// The height in macroblocks.
    pub h_mb: u32,
}

impl Geo {
    /// The guess can be written down for a stream with these settings.
    pub open spec fn writable(&self, x: X264, p: Params) -> bool {
        &&& is_high_profile(p.profile) ==> self.depth >= 8
        &&& p.log2_fn >= 4
        &&& p.poc_type == 0 ==> p.log2_poc >= 4
        &&& self.w_mb >= 1
        &&& self.h_mb >= 1
        &&& -0x3fff_ffff <= self.qp - 26 <= 0x3fff_ffff
        &&& -0x3fff_ffff <= x.cqo <= 0x3fff_ffff
    }
}

/// A byte stream that claims the guess `g` of the frames in `data`.
pub open spec fn guess_stream(x: X264, p: Params, g: Geo, data: Seq<u8>) -> Seq<u8> {
    start_code() + sps_unit(p, g.depth as int, g.w_mb as int, g.h_mb as int, 52, (0, 0), None)
        + start_code() + pps_unit(x, g.qp as int) + data
}

/// A byte stream that claims the guess `g` of the frames in `data`.
pub fn write_guess(x: &X264, p: &Params, g: &Geo, data: &[u8]) -> (o: Vec<u8>)
    requires
        g.writable(*x, *p),
    ensures
        o@ == guess_stream(*x, *p, *g, data@),
{
    let mut o: Vec<u8> = Vec::new();
    let sps: Vec<u8> = make_sps(p, g.depth, g.w_mb, g.h_mb, 52, (0, 0), None);
    put_unit(&mut o, sps.as_slice());
    assert(o@ =~= start_code() + sps@);
    put_unit(&mut o, make_pps(x, g.qp).as_slice());
    put(&mut o, data);
    o
}

/// The guess that tells a quantiser: one row wider than any video. With the right
/// quantiser decoding gets far into it, with a wrong one it fails at once.
pub fn qp_guess(depth: u32, qp: i32) -> (g: Geo)
    ensures
        g == (Geo { depth, qp, w_mb: 240, h_mb: 1 }),
{
    Geo { depth, qp, w_mb: MAX_W_MB, h_mb: 1 }
}

/// The guess that tells a width: a picture higher than any video. With the right
/// width the rows that are missing tell the height.
pub fn width_guess(depth: u32, qp: i32, w: u32) -> (g: Geo)
    ensures
        g == (Geo { depth, qp, w_mb: w, h_mb: 136 }),
{
    Geo { depth, qp, w_mb: w, h_mb: TEST_H_MB }
}

/// The number that the first word of `s` denotes.
pub open spec fn leading_number(s: Seq<char>) -> Option<u32> {
    match first_word(s) {
        Some(w) => parsed_u32(w),
        None => None,
    }
}

fn read_leading_number(s: &[char]) -> (r: Option<u32>)
    ensures
        r == leading_number(s@),
{
    let (a, b): (usize, usize) = next_word(s, 0);
    if a < s.len() {
        parse_u32(slice_subrange(s, a, b))
    } else {
        None
    }
}

/// The first of `ls` that holds `pat`, from what follows it on up to the next one.
pub open spec fn first_mention(ls: Seq<Seq<char>>, pat: Seq<char>) -> Option<Seq<char>>
    decreases ls.len(),
{
    if ls.len() == 0 {
        None
    } else if second_piece(ls[0], pat) is Some {
        second_piece(ls[0], pat)
    } else {
        first_mention(ls.skip(1), pat)
    }
}

/// How many macroblocks the decoder says it had to conceal.
pub open spec fn concealed_of(err: Seq<char>) -> u32 {
    match first_mention(lines(err), "concealing "@) {
        Some(s) => match leading_number(s) {
            Some(n) => n,
            None => 0,
        },
        None => 0,
    }
}

fn concealed(s: &[char]) -> (r: u32)
    ensures
        r == concealed_of(s@),
{
    let pat: Vec<char> = chars_of("concealing ");
    let ranges: Vec<(usize, usize)> = line_ranges(s);
    let ghost all = lines(s@);
    let mut i: usize = 0;
    assert(all.skip(0) =~= all);
    while i < ranges.len()
        invariant
            i <= ranges@.len() == all.len(),
            pat@ == "concealing "@,
            all == lines(s@),
            parts(s@, ranges@) == all,
            forall|k: int|
                0 <= k < ranges@.len() ==> (#[trigger] ranges@[k]).0 <= ranges@[k].1 <= s@.len(),
            first_mention(all, pat@) == first_mention(all.skip(i as int), pat@),
        decreases ranges@.len() - i,
    {
        let (a, b): (usize, usize) = ranges[i];
        let line: &[char] = slice_subrange(s, a, b);
        assert(line@ == parts(s@, ranges@)[i as int]);
        assert(all.skip(i as int)[0] == line@);
        assert(all.skip(i as int).skip(1) =~= all.skip(i + 1));
        match find_second_piece(line, pat.as_slice()) {
            Some((c, d)) => {
                return match read_leading_number(slice_subrange(line, c, d)) {
                    Some(n) => n,
                    None => 0,
                };
            },
            None => {},
        }
        i = i + 1;
    }
    assert(all.skip(i as int).len() == 0);
    0
}

/// The height, in macroblocks, that the decoder's words on a picture `w` wide
/// tell, if the width can be right: it met no error, and what it concealed are
/// whole rows.
pub open spec fn height_told(err: Seq<char>, w: u32) -> Option<u32> {
    let c = concealed_of(err);
    if has(err, "error while decoding"@) || has(err, "Nothing was written"@) || c % w != 0 || c / w
        >= TEST_H_MB {
        None
    } else {
        Some((TEST_H_MB - c / w) as u32)
    }
}

/// The height that the decoder's words on a picture `w` macroblocks wide tell.
pub fn test_width(err: &str, w: u32) -> (r: Option<u32>)
    requires
        w > 0,
    ensures
        r == height_told(err@, w),
{
    let s: Vec<char> = chars_of(err);
    if contains(s.as_slice(), chars_of("error while decoding").as_slice()) || contains(
        s.as_slice(),
        chars_of("Nothing was written").as_slice(),
    ) {
        return None;
    }
    let c: u32 = concealed(s.as_slice());
    if c % w != 0 {
        return None;
    }
    if c / w >= TEST_H_MB {
        return None;
    }
    Some(TEST_H_MB - c / w)
}

/// The macroblock, counted along its row, at which the decoder says it failed
/// first.
pub open spec fn failed_at(err: Seq<char>) -> Option<u32> {
    match second_piece(err, "error while decoding MB "@) {
        Some(s) => leading_number(s),
        None => None,
    }
}

/// The macroblock at which the decoder says it failed first.
pub fn first_error_mb(err: &str) -> (r: Option<u32>)
    ensures
        r == failed_at(err@),
{
    let s: Vec<char> = chars_of(err);
    match find_second_piece(s.as_slice(), chars_of("error while decoding MB ").as_slice()) {
        Some((a, b)) => read_leading_number(slice_subrange(s.as_slice(), a, b)),
        None => None,
    }
}

/// How far decoding got with a quantiser: to its first error, or all the way where
/// the decoder said nothing.
pub open spec fn qp_score(err: Seq<char>) -> Option<u32> {
    if is_blank(err) {
        Some(u32::MAX)
    } else {
        failed_at(err)
    }
}

/// How far decoding got with a quantiser, by the decoder's words.
pub fn probe_qp(err: &str) -> (r: Option<u32>)
    ensures
        r == qp_score(err@),
{
    if blank(chars_of(err).as_slice()) {
        return Some(u32::MAX);
    }
    first_error_mb(err)
}

/// How many bytes a decoded picture has: a full plane and two quarter planes.
pub open spec fn picture_len(g: Geo) -> int {
    (g.w_mb * 16) * (g.h_mb * 16) * 3 / 2 * if g.depth > 8 {
        2int
    } else {
        1
    }
}

/// How the decoded pictures differ from one to the next.
#[derive(Clone, Copy, Debug, PartialEq, Eq, Structural)]
pub enum Roughness {
    /// There are no two pictures.
    Unknown,
    /// The sum of the differences between samples, and how many were taken.
    Sampled {
        /// The sum of the absolute differences.
        total: u128,
        /// How many there are.
        samples: u128,
    },
}

/// Every how many bytes a sample is taken.
pub open spec fn sample_step(depth: u32) -> int {
    if depth > 8 {
        194
    } else {
        97
    }
}

/// The sample at `k`: two bytes, the low one first, where samples are deep.
pub open spec fn sample_at(out: Seq<u8>, k: int, depth: u32) -> int {
    if depth > 8 {
        out[k] + 0x100 * out[k + 1]
    } else {
        out[k] as int
    }
}

/// The absolute value of `n`.
pub open spec fn magnitude(n: int) -> int {
    if n < 0 {
        -n
    } else {
        n
    }
}

/// The differences between the pictures at `a` and `b`, summed from byte `j` on,
/// and how many there are.
pub open spec fn picture_difference(
    out: Seq<u8>,
    a: int,
    b: int,
    len: int,
    depth: u32,
    j: int,
) -> (int, int)
    decreases len + sample_step(depth) - j,
{
    if j + 1 >= len {
        (0, 0)
    } else {
        let rest = picture_difference(out, a, b, len, depth, j + sample_step(depth));
        let d = magnitude(sample_at(out, a + j, depth) - sample_at(out, b + j, depth));
        (d + rest.0, 1 + rest.1)
    }
}

/// The differences between each of the first `count` pictures and the one before.
pub open spec fn total_difference(out: Seq<u8>, len: int, depth: u32, count: int) -> (int, int)
    decreases count,
{
    if count < 2 {
        (0, 0)
    } else {
        let before = total_difference(out, len, depth, count - 1);
        let last = picture_difference(
            out,
            (count - 2) * len,
            (count - 1) * len,
            len,
            depth,
            0,
        );
        (before.0 + last.0, before.1 + last.1)
    }
}

/// How the first `count` pictures of `len` bytes differ.
pub open spec fn roughness_of(out: Seq<u8>, len: int, count: int, depth: u32) -> Roughness {
    if count < 2 || len == 0 {
        Roughness::Unknown
    } else {
        let t = total_difference(out, len, depth, count);
        Roughness::Sampled { total: t.0 as u128, samples: t.1 as u128 }
    }
}

proof fn lemma_difference_bounds(
    out: Seq<u8>,
    a: int,
    b: int,
    len: int,
    depth: u32,
    j: int,
)
    requires
        0 <= j,
    ensures
        ({
            let d = picture_difference(out, a, b, len, depth, j);
            &&& 0 <= d.0 <= 0xffff * d.1
            &&& 0 <= d.1
            &&& j <= len ==> d.1 <= len - j
            &&& j > len ==> d.1 == 0
        }),
    decreases len + sample_step(depth) - j,
{
    if j + 1 < len {
        lemma_difference_bounds(out, a, b, len, depth, j + sample_step(depth));
    }
}

/// The sample at `k`.
fn sample(out: &[u8], k: usize, depth: u32) -> (v: u32)
    requires
        k + 1 < out@.len(),
    ensures
        v == sample_at(out@, k as int, depth),
        v <= 0xffff,
{
    if depth > 8 {
        let n: usize = out.len();
        assert(k + 1 < n);
        out[k] as u32 + 0x100 * out[k + 1] as u32
    } else {
        out[k] as u32
    }
}

/// How the first `count` pictures of `len` bytes differ from one to the next. A
/// wrong depth makes pictures jitter that are smooth with the right one.
pub fn temporal_roughness(out: &[u8], len: usize, count: usize, depth: u32) -> (r: Roughness)
    requires
        count >= 2 ==> len * count <= out@.len(),
    ensures
        r == roughness_of(out@, len as int, count as int, depth),
{
    if count < 2 || len == 0 {
        return Roughness::Unknown;
    }
    let step: usize = if depth > 8 {
        194
    } else {
        97
    };
    let size: usize = out.len();
    let mut total: u128 = 0;
    let mut samples: u128 = 0;
    let mut a: usize = 0;
    let mut i: usize = 1;
    while i < count
        invariant
            1 <= i <= count,
            len > 0,
            size == out@.len(),
            len * count <= size,
            a == (i - 1) * len,
            step == sample_step(depth),
            (total as int, samples as int) == total_difference(out@, len as int, depth, i as int),
            samples <= a,
            total <= 0xffff * samples,
        decreases count - i,
    {
        assert(a + 2 * len <= size) by (nonlinear_arith)
            requires
                a == (i - 1) * len,
                i + 1 <= count,
                len * count <= size,
                len > 0,
        ;
        let b: usize = a + len;
        assert(b == i * len) by (nonlinear_arith)
            requires
                b == (i - 1) * len + len,
        ;
        let ghost before = (total as int, samples as int);
        let ghost whole = picture_difference(out@, a as int, b as int, len as int, depth, 0);
        let mut j: usize = 0;
        proof {
            lemma_difference_bounds(out@, a as int, b as int, len as int, depth, 0);
        }
        while j < len && len - j > 1
            invariant
                0 < len,
                a + 2 * len <= size == out@.len(),
                b == a + len,
                before.1 <= a,
                before.0 <= 0xffff * before.1,
                step == sample_step(depth),
                whole.0 <= 0xffff * whole.1,
                whole.1 <= len,
                ({
                    let rest = picture_difference(
                        out@,
                        a as int,
                        b as int,
                        len as int,
                        depth,
                        j as int,
                    );
                    &&& total + rest.0 == before.0 + whole.0
                    &&& samples + rest.1 == before.1 + whole.1
                }),
            decreases len - j,
        {
            let va: u32 = sample(out, a + j, depth);
            let vb: u32 = sample(out, b + j, depth);
            let d: u32 = if va < vb {
                vb - va
            } else {
                va - vb
            };
            proof {
                lemma_difference_bounds(
                    out@,
                    a as int,
                    b as int,
                    len as int,
                    depth,
                    j + sample_step(depth),
                );
            }
            total = total + d as u128;
            samples = samples + 1;
            if len - j <= step {
                j = len;
            } else {
                j = j + step;
            }
        }
        assert((i + 1 - 2) * len == a) by (nonlinear_arith)
            requires
                a == (i - 1) * len,
        ;
        assert((i + 1 - 1) * len == b) by (nonlinear_arith)
            requires
                b == i * len,
        ;
        a = b;
        i = i + 1;
    }
    Roughness::Sampled { total, samples }
}

/// The picture `i` of those that are `len` bytes long each.
pub open spec fn picture(out: Seq<u8>, len: int, i: int) -> Seq<u8> {
    out.subrange(i * len, (i + 1) * len)
}

/// A sample is taken at byte `j` of a picture of `len` bytes.
pub open spec fn is_sampled(j: int, len: int, depth: u32) -> bool {
    0 <= j && j + 1 < len && j % sample_step(depth) == 0
}

/// How many samples are taken in a picture of `len` bytes.
pub open spec fn sampled_count(len: int, depth: u32) -> int {
    (len - 2 + sample_step(depth)) / sample_step(depth)
}

spec fn pair_difference(p: Seq<u8>, q: Seq<u8>, depth: u32, j: int) -> (int, int)
    decreases p.len() + sample_step(depth) - j,
{
    if j + 1 >= p.len() {
        (0, 0)
    } else {
        let rest = pair_difference(p, q, depth, j + sample_step(depth));
        (magnitude(sample_at(p, j, depth) - sample_at(q, j, depth)) + rest.0, 1 + rest.1)
    }
}

proof fn lemma_picture(out: Seq<u8>, len: int, count: int, i: int)
    requires
        0 < len,
        0 <= i < count,
        len * count <= out.len(),
    ensures
        0 <= i * len,
        (i + 1) * len == i * len + len,
        (i + 1) * len <= out.len(),
        picture(out, len, i).len() == len,
{
    assert(0 <= i * len && (i + 1) * len == i * len + len && (i + 1) * len <= len * count)
        by (nonlinear_arith)
        requires
            0 < len,
            0 <= i < count,
    ;
}

proof fn lemma_pair(out: Seq<u8>, len: int, count: int, depth: u32, i: int, j: int)
    requires
        0 < len,
        1 <= i < count,
        len * count <= out.len(),
        0 <= j,
    ensures
        picture_difference(out, (i - 1) * len, i * len, len, depth, j) == pair_difference(
            picture(out, len, i - 1),
            picture(out, len, i),
            depth,
            j,
        ),
    decreases len + sample_step(depth) - j,
{
    lemma_picture(out, len, count, i - 1);
    lemma_picture(out, len, count, i);
    if j + 1 < len {
        lemma_pair(out, len, count, depth, i, j + sample_step(depth));
    }
}

proof fn lemma_last_pair(out: Seq<u8>, len: int, count: int, depth: u32, k: int)
    requires
        0 < len,
        2 <= k <= count,
        len * count <= out.len(),
    ensures
        ({
            let before = total_difference(out, len, depth, k - 1);
            let last = pair_difference(
                picture(out, len, k - 2),
                picture(out, len, k - 1),
                depth,
                0,
            );
            total_difference(out, len, depth, k) == (before.0 + last.0, before.1 + last.1)
        }),
        picture(out, len, k - 2).len() == len,
        picture(out, len, k - 1).len() == len,
{
    lemma_picture(out, len, count, k - 2);
    lemma_picture(out, len, count, k - 1);
    lemma_pair(out, len, count, depth, k - 1, 0);
}

proof fn lemma_pair_count(p: Seq<u8>, q: Seq<u8>, depth: u32, j: int)
    requires
        0 <= j,
    ensures
        pair_difference(p, q, depth, j).1 == if j + 1 >= p.len() {
            0
        } else {
            sampled_count(p.len() - j, depth)
        },
    decreases p.len() + sample_step(depth) - j,
{
    if j + 1 < p.len() {
        lemma_pair_count(p, q, depth, j + sample_step(depth));
    }
}

proof fn lemma_pair_at_most(p: Seq<u8>, q: Seq<u8>, depth: u32, m: int, j: int)
    requires
        0 <= j,
        j % sample_step(depth) == 0,
        p.len() == q.len(),
        forall|k: int| #[trigger]
            is_sampled(k, p.len() as int, depth) ==> sample_at(p, k, depth) <= m && sample_at(
                q,
                k,
                depth,
            ) <= m,
    ensures
        ({
            let d = pair_difference(p, q, depth, j);
            0 <= d.0 <= m * d.1 && 0 <= d.1
        }),
    decreases p.len() + sample_step(depth) - j,
{
    if j + 1 < p.len() {
        assert(is_sampled(j, p.len() as int, depth));
        let next = j + sample_step(depth);
        lemma_pair_at_most(p, q, depth, m, next);
        let n = pair_difference(p, q, depth, next).1;
        assert(m * (1 + n) == m + m * n) by (nonlinear_arith);
    } else {
        assert(m * 0 == 0);
    }
}

proof fn lemma_pair_equal(p: Seq<u8>, depth: u32, j: int)
    requires
        0 <= j,
    ensures
        pair_difference(p, p, depth, j).0 == 0,
    decreases p.len() + sample_step(depth) - j,
{
    if j + 1 < p.len() {
        lemma_pair_equal(p, depth, j + sample_step(depth));
    }
}

proof fn lemma_pair_symmetric(p: Seq<u8>, q: Seq<u8>, depth: u32, j: int)
    requires
        0 <= j,
        p.len() == q.len(),
    ensures
        pair_difference(p, q, depth, j) == pair_difference(q, p, depth, j),
    decreases p.len() + sample_step(depth) - j,
{
    if j + 1 < p.len() {
        lemma_pair_symmetric(p, q, depth, j + sample_step(depth));
    }
}

proof fn lemma_pair_apart(p: Seq<u8>, q: Seq<u8>, depth: u32, m: int, j: int)
    requires
        0 <= j,
        j % sample_step(depth) == 0,
        p.len() == q.len(),
        forall|k: int| #[trigger]
            is_sampled(k, p.len() as int, depth) ==> magnitude(
                sample_at(p, k, depth) - sample_at(q, k, depth),
            ) == m,
    ensures
        ({
            let d = pair_difference(p, q, depth, j);
            d.0 == m * d.1
        }),
    decreases p.len() + sample_step(depth) - j,
{
    if j + 1 < p.len() {
        assert(is_sampled(j, p.len() as int, depth));
        let next = j + sample_step(depth);
        lemma_pair_apart(p, q, depth, m, next);
        let n = pair_difference(p, q, depth, next).1;
        assert(m * (1 + n) == m + m * n) by (nonlinear_arith);
    } else {
        assert(m * 0 == 0);
    }
}

proof fn lemma_total_count(out: Seq<u8>, len: int, count: int, depth: u32, k: int)
    requires
        0 < len,
        1 <= k <= count,
        len * count <= out.len(),
    ensures
        total_difference(out, len, depth, k).1 == (k - 1) * sampled_count(len, depth),
    decreases k,
{
    let n = sampled_count(len, depth);
    if k >= 2 {
        lemma_total_count(out, len, count, depth, k - 1);
        lemma_last_pair(out, len, count, depth, k);
        lemma_pair_count(picture(out, len, k - 2), picture(out, len, k - 1), depth, 0);
        assert((k - 1) * n == (k - 2) * n + n) by (nonlinear_arith);
    } else {
        assert((k - 1) * n == 0) by (nonlinear_arith)
            requires
                k == 1,
        ;
    }
}

proof fn lemma_total_at_most(out: Seq<u8>, len: int, count: int, depth: u32, m: int, k: int)
    requires
        0 < len,
        1 <= k <= count,
        len * count <= out.len(),
        forall|i: int, j: int|
            0 <= i < count && is_sampled(j, len, depth) ==> #[trigger] sample_at(
                picture(out, len, i),
                j,
                depth,
            ) <= m,
    ensures
        ({
            let t = total_difference(out, len, depth, k);
            0 <= t.0 <= m * t.1
        }),
    decreases k,
{
    if k >= 2 {
        lemma_total_at_most(out, len, count, depth, m, k - 1);
        lemma_last_pair(out, len, count, depth, k);
        let p = picture(out, len, k - 2);
        let q = picture(out, len, k - 1);
        lemma_pair_at_most(p, q, depth, m, 0);
        let a = total_difference(out, len, depth, k - 1).1;
        let b = pair_difference(p, q, depth, 0).1;
        assert(m * (a + b) == m * a + m * b) by (nonlinear_arith);
    } else {
        assert(m * 0 == 0);
    }
}

proof fn lemma_total_fits(out: Seq<u8>, len: int, count: int, depth: u32)
    requires
        0 < len,
        2 <= count,
        len * count <= out.len() <= usize::MAX,
    ensures
        ({
            let t = total_difference(out, len, depth, count);
            0 <= t.0 <= u128::MAX && 0 <= t.1 <= usize::MAX
        }),
{
    lemma_total_at_most(out, len, count, depth, 0xffff, count);
    lemma_total_count(out, len, count, depth, count);
    let n = sampled_count(len, depth);
    if depth > 8 {
        assert(n == (len + 192) / 194);
    } else {
        assert(n == (len + 95) / 97);
    }
    assert(0 <= (count - 1) * n <= len * count) by (nonlinear_arith)
        requires
            0 <= n <= len,
            2 <= count,
    ;
}

/// As many samples are taken as each picture but the first has, whatever they
/// hold.
pub proof fn law_roughness_counts_samples(out: Seq<u8>, len: int, count: int, depth: u32)
    requires
        0 < len,
        2 <= count,
        len * count <= out.len() <= usize::MAX,
    ensures
        roughness_of(out, len, count, depth) matches Roughness::Sampled { samples, .. } && samples
            == (count - 1) * sampled_count(len, depth),
{
    lemma_total_fits(out, len, count, depth);
    lemma_total_count(out, len, count, depth, count);
}

/// The sum of the differences is at most the number of samples times the largest
/// sample: their mean lies between nothing and the full range.
pub proof fn law_roughness_is_bounded(out: Seq<u8>, len: int, count: int, depth: u32, m: int)
    requires
        0 < len,
        2 <= count,
        len * count <= out.len() <= usize::MAX,
        forall|i: int, j: int|
            0 <= i < count && is_sampled(j, len, depth) ==> #[trigger] sample_at(
                picture(out, len, i),
                j,
                depth,
            ) <= m,
    ensures
        roughness_of(out, len, count, depth) matches Roughness::Sampled { total, samples } && total
            <= m * samples,
{
    lemma_total_fits(out, len, count, depth);
    lemma_total_at_most(out, len, count, depth, m, count);
}

proof fn lemma_total_equal(out: Seq<u8>, len: int, count: int, depth: u32, k: int)
    requires
        0 < len,
        1 <= k <= count,
        len * count <= out.len(),
        forall|i: int| 0 <= i < count ==> #[trigger] picture(out, len, i) == picture(out, len, 0),
    ensures
        total_difference(out, len, depth, k).0 == 0,
    decreases k,
{
    if k >= 2 {
        lemma_total_equal(out, len, count, depth, k - 1);
        lemma_last_pair(out, len, count, depth, k);
        lemma_pair_equal(picture(out, len, k - 1), depth, 0);
    }
}

/// Pictures that are all equal do not differ.
pub proof fn law_still_pictures_are_smooth(out: Seq<u8>, len: int, count: int, depth: u32)
    requires
        0 < len,
        2 <= count,
        len * count <= out.len(),
        forall|i: int| 0 <= i < count ==> #[trigger] picture(out, len, i) == picture(out, len, 0),
    ensures
        roughness_of(out, len, count, depth) matches Roughness::Sampled { total, .. } && total == 0,
{
    lemma_total_equal(out, len, count, depth, count);
}

proof fn lemma_total_apart(
    out: Seq<u8>,
    len: int,
    count: int,
    depth: u32,
    m: int,
    phase: int,
    k: int,
)
    requires
        0 < len,
        0 <= m,
        1 <= k <= count,
        len * count <= out.len(),
        forall|i: int, j: int|
            0 <= i < count && is_sampled(j, len, depth) ==> #[trigger] sample_at(
                picture(out, len, i),
                j,
                depth,
            ) == if (i + phase) % 2 == 0 {
                0
            } else {
                m
            },
    ensures
        ({
            let t = total_difference(out, len, depth, k);
            t.0 == m * t.1
        }),
    decreases k,
{
    if k >= 2 {
        lemma_total_apart(out, len, count, depth, m, phase, k - 1);
        lemma_last_pair(out, len, count, depth, k);
        let p = picture(out, len, k - 2);
        let q = picture(out, len, k - 1);
        lemma_pair_apart(p, q, depth, m, 0);
        let a = total_difference(out, len, depth, k - 1).1;
        let b = pair_difference(p, q, depth, 0).1;
        assert(m * (a + b) == m * a + m * b) by (nonlinear_arith);
    } else {
        assert(m * 0 == 0);
    }
}

/// Pictures that go to and fro between all samples 0 and all samples `m` differ as
/// much as samples up to `m` can.
pub proof fn law_flashing_pictures_are_rough(
    out: Seq<u8>,
    len: int,
    count: int,
    depth: u32,
    m: int,
    phase: int,
)
    requires
        0 < len,
        2 <= count,
        len * count <= out.len() <= usize::MAX,
        0 <= m,
        forall|i: int, j: int|
            0 <= i < count && is_sampled(j, len, depth) ==> #[trigger] sample_at(
                picture(out, len, i),
                j,
                depth,
            ) == if (i + phase) % 2 == 0 {
                0
            } else {
                m
            },
    ensures
        roughness_of(out, len, count, depth) matches Roughness::Sampled { total, samples } && total
            == m * samples,
{
    lemma_total_fits(out, len, count, depth);
    lemma_total_apart(out, len, count, depth, m, phase, count);
}

proof fn lemma_total_reversed(
    out: Seq<u8>,
    back: Seq<u8>,
    len: int,
    count: int,
    depth: u32,
    k: int,
)
    requires
        0 < len,
        1 <= k <= count,
        len * count <= out.len(),
        len * count <= back.len(),
        forall|i: int|
            0 <= i < count ==> #[trigger] picture(back, len, i) == picture(
                out,
                len,
                count - 1 - i,
            ),
    ensures
        ({
            let t = total_difference(back, len, depth, k);
            let u = total_difference(out, len, depth, count - k + 1);
            total_difference(out, len, depth, count) == (t.0 + u.0, t.1 + u.1)
        }),
    decreases k,
{
    if k >= 2 {
        lemma_total_reversed(out, back, len, count, depth, k - 1);
        lemma_last_pair(back, len, count, depth, k);
        lemma_last_pair(out, len, count, depth, count - k + 2);
        lemma_pair_symmetric(picture(back, len, k - 2), picture(back, len, k - 1), depth, 0);
    }
}

/// Pictures in reverse order differ as much as in order.
pub proof fn law_roughness_has_no_direction(
    out: Seq<u8>,
    back: Seq<u8>,
    len: int,
    count: int,
    depth: u32,
)
    requires
        0 <= len,
        len * count <= out.len(),
        len * count <= back.len(),
        forall|i: int|
            0 <= i < count ==> #[trigger] picture(back, len, i) == picture(
                out,
                len,
                count - 1 - i,
            ),
    ensures
        roughness_of(back, len, count, depth) == roughness_of(out, len, count, depth),
{
    if count >= 2 && len > 0 {
        lemma_total_reversed(out, back, len, count, depth, count);
    }
}

/// A guess decodes cleanly: the decoder said nothing, it gave whole pictures of
/// the guessed size, and of `n` frames at most a few are missing.
pub open spec fn decodes_cleanly(err: Seq<char>, out_len: int, n: int, g: Geo) -> bool {
    let len = picture_len(g);
    &&& is_blank(err)
    &&& len > 0
    &&& out_len % len == 0
    &&& out_len / len <= n
    &&& out_len / len + HELD_FRAMES >= n
}

/// How the pictures that a guess gave differ, if it decodes cleanly. `err` is what
/// the decoder said, `out` what it gave for `n` frames.
pub fn validates(err: &str, out: &[u8], n: usize, g: &Geo) -> (r: Option<Roughness>)
    requires
        g.w_mb * g.h_mb * 768 <= u64::MAX,
    ensures
        r is Some <==> decodes_cleanly(err@, out@.len() as int, n as int, *g),
        r matches Some(v) ==> v == roughness_of(
            out@,
            picture_len(*g),
            out@.len() as int / picture_len(*g),
            g.depth,
        ),
{
    assert((g.w_mb * 16) * (g.h_mb * 16) * 3 == g.w_mb * g.h_mb * 768) by (nonlinear_arith);
    assert(0 <= (g.w_mb * 16) * (g.h_mb * 16) <= g.w_mb * g.h_mb * 768) by (nonlinear_arith)
        requires
            0 <= g.w_mb,
            0 <= g.h_mb,
    ;
    let samples: u64 = (g.w_mb as u64 * 16) * (g.h_mb as u64 * 16) * 3 / 2;
    let len: u64 = if g.depth > 8 {
        samples * 2
    } else {
        samples
    };
    assert(len == picture_len(*g));
    if !blank(chars_of(err).as_slice()) || len == 0 || out.len() as u64 % len != 0 {
        return None;
    }
    let count: u64 = out.len() as u64 / len;
    if count > n as u64 || n as u64 - count > HELD_FRAMES as u64 {
        return None;
    }
    proof {
        vstd::arithmetic::div_mod::lemma_fundamental_div_mod(out@.len() as int, len as int);
        if count == 0 {
            assert(out@.len() == 0) by (nonlinear_arith)
                requires
                    out@.len() == len * count + 0,
                    count == 0,
            ;
        } else {
            assert(len <= out@.len()) by (nonlinear_arith)
                requires
                    out@.len() == len * count,
                    count >= 1,
            ;
        }
    }
    if count == 0 {
        return Some(Roughness::Unknown);
    }
    Some(temporal_roughness(out, len as usize, count as usize, g.depth))
}

/// The frames that a guess is validated on.
pub open spec fn probe_frames(frames: Seq<Frame>) -> Seq<Frame> {
    if frames.len() < PROBE_FRAMES {
        frames
    } else {
        frames.take(PROBE_FRAMES as int)
    }
}

/// A byte stream that claims the guess `g` of the first frames, and how many they
/// are.
pub fn validation_stream(
    x: &X264,
    p: &Params,
    g: &Geo,
    d: &[u8],
    frames: &[Frame],
) -> (r: (Vec<u8>, usize))
    requires
        g.writable(*x, *p),
        forall|k: int|
            0 <= k < probe_frames(frames@).len() ==> (#[trigger] frames@[k]).end() <= d@.len(),
    ensures
        r.0@ == guess_stream(*x, *p, *g, byte_stream(d@, probe_frames(frames@))),
        r.1 == probe_frames(frames@).len(),
{
    let n: usize = if frames.len() < PROBE_FRAMES {
        frames.len()
    } else {
        PROBE_FRAMES
    };
    let first: &[Frame] = slice_subrange(frames, 0, n);
    assert(first@ =~= probe_frames(frames@));
    proof {
        assert forall|k: int| 0 <= k < first@.len() implies (#[trigger] first@[k]).end()
            <= d@.len() by {
            assert(frames@[k].end() <= d@.len());
        }
    }
    let data: Vec<u8> = annexb(d, first);
    (write_guess(x, p, g, data.as_slice()), n)
}

/// A decoded picture is a plane of brightness and two planes of colour, which are
/// half as wide and half as high. A sample has one byte, or two where samples are
/// deep.
pub proof fn law_picture_is_its_planes(g: Geo)
    ensures
        ({
            let w = 16 * g.w_mb;
            let h = 16 * g.h_mb;
            picture_len(g) == (w * h + 2 * ((w / 2) * (h / 2))) * if g.depth > 8 {
                2int
            } else {
                1
            }
        }),
{
    let a = g.w_mb as int;
    let b = g.h_mb as int;
    assert((a * 16) * (b * 16) == 256 * (a * b)) by (nonlinear_arith);
    assert((16 * a) * (16 * b) == 256 * (a * b)) by (nonlinear_arith);
    assert(((16 * a) / 2) * ((16 * b) / 2) == 64 * (a * b)) by {
        assert((16 * a) / 2 == 8 * a);
        assert((16 * b) / 2 == 8 * b);
        assert((8 * a) * (8 * b) == 64 * (a * b)) by (nonlinear_arith);
    }
}

/// A guess decodes cleanly exactly if the decoder said nothing and gave `k` whole
/// pictures of it, `k` being `n` or up to 8 less.
pub proof fn law_whole_pictures_validate(err: Seq<char>, out_len: int, n: int, g: Geo)
    requires
        0 <= out_len,
        g.w_mb > 0,
        g.h_mb > 0,
    ensures
        decodes_cleanly(err, out_len, n, g) <==> is_blank(err) && exists|k: int|
            0 <= k && n - 8 <= k <= n && out_len == #[trigger] (k * picture_len(g)),
        forall|k: int|
            0 <= k && out_len == #[trigger] (k * picture_len(g)) ==> out_len / picture_len(g) == k,
{
    let len = picture_len(g);
    law_picture_is_its_planes(g);
    assert(len > 0) by {
        let a = g.w_mb as int;
        let b = g.h_mb as int;
        assert((a * 16) * (b * 16) >= 256) by (nonlinear_arith)
            requires
                a >= 1,
                b >= 1,
        ;
    }
    assert forall|k: int| 0 <= k && out_len == #[trigger] (k * len) implies out_len / len == k
        && out_len % len == 0 by {
        vstd::arithmetic::div_mod::lemma_div_multiples_vanish(k, len);
        vstd::arithmetic::div_mod::lemma_mod_multiples_basic(k, len);
        assert(k * len == len * k) by (nonlinear_arith);
    }
    if decodes_cleanly(err, out_len, n, g) {
        let k = out_len / len;
        vstd::arithmetic::div_mod::lemma_fundamental_div_mod(out_len, len);
        vstd::arithmetic::div_mod::lemma_div_pos_is_pos(out_len, len);
        assert(out_len == k * len) by (nonlinear_arith)
            requires
                out_len == len * k + 0,
        ;
    }
}

proof fn lemma_number_leads(n: u32, c: char, rest: Seq<char>)
    requires
        is_space(c),
    ensures
        leading_number(number_text(n as nat).push(c) + rest) == Some(n),
        leading_number(number_text(n as nat)) == Some(n),
{
    let t = number_text(n as nat);
    law_number_reads_back(n as nat);
    assert forall|k: int| 0 <= k < t.len() implies !is_space(#[trigger] t[k]) by {
        assert(is_digit(t[k]));
    }
    law_a_word_is_one_word(t);
    law_white_space_separates_words(t, c, rest);
    law_first_word_is_first(t);
    law_first_word_is_first(t.push(c) + rest);
    law_decimal_number_is_parsed(n);
}

/// The macroblock at which decoding failed first is the number behind the first
/// mention of it.
pub proof fn law_first_failure_is_read(a: Seq<char>, n: u32, c: char, rest: Seq<char>)
    requires
        is_space(c),
        ({
            let pat = "error while decoding MB "@;
            let err = a + pat + (number_text(n as nat).push(c) + rest);
            forall|i: int|
                0 <= i < a.len() || a.len() + pat.len() <= i ==> !#[trigger] stands_at(err, pat, i)
        }),
    ensures
        failed_at(a + "error while decoding MB "@ + (number_text(n as nat).push(c) + rest)) == Some(
            n,
        ),
{
    reveal_strlit("error while decoding MB ");
    let pat = "error while decoding MB "@;
    let b = number_text(n as nat).push(c) + rest;
    law_text_between(a, pat, b);
    lemma_number_leads(n, c, rest);
}

/// Where the decoder mentions no failure, none is read.
pub proof fn law_no_failure_is_none(err: Seq<char>)
    requires
        has(err, "error while decoding MB "@) == false,
    ensures
        failed_at(err) is None,
{
    law_no_text_between(err, "error while decoding MB "@);
}

/// How far a quantiser gets: all the way where the decoder says nothing but white
/// space, else to the macroblock at which it failed first.
pub proof fn law_quantisers_are_scored(err: Seq<char>)
    ensures
        (forall|i: int| 0 <= i < err.len() ==> is_space(#[trigger] err[i])) ==> qp_score(err)
            == Some(0xffff_ffffu32),
        (exists|i: int| 0 <= i < err.len() && !is_space(#[trigger] err[i])) ==> qp_score(err)
            == failed_at(err),
{
}

proof fn lemma_first_mention(ls: Seq<Seq<char>>, pat: Seq<char>, k: int)
    requires
        0 <= k < ls.len(),
        second_piece(ls[k], pat) is Some,
        forall|j: int| 0 <= j < k ==> has(#[trigger] ls[j], pat) == false,
    ensures
        first_mention(ls, pat) == second_piece(ls[k], pat),
    decreases k,
{
    if k > 0 {
        law_no_text_between(ls[0], pat);
        let t = ls.skip(1);
        assert forall|j: int| 0 <= j < k - 1 implies has(#[trigger] t[j], pat) == false by {
            assert(has(ls[j + 1], pat) == false);
        }
        lemma_first_mention(t, pat, k - 1);
    }
}

proof fn lemma_no_mention(ls: Seq<Seq<char>>, pat: Seq<char>)
    requires
        forall|j: int| 0 <= j < ls.len() ==> has(#[trigger] ls[j], pat) == false,
    ensures
        first_mention(ls, pat) is None,
    decreases ls.len(),
{
    if ls.len() > 0 {
        law_no_text_between(ls[0], pat);
        let t = ls.skip(1);
        assert forall|j: int| 0 <= j < t.len() implies has(#[trigger] t[j], pat) == false by {
            assert(has(ls[j + 1], pat) == false);
        }
        lemma_no_mention(t, pat);
    }
}

/// How many macroblocks were concealed is the number behind the mention of it in the
/// first line that has one; where none has, none were.
pub proof fn law_concealed_is_read(
    err: Seq<char>,
    k: int,
    a: Seq<char>,
    n: u32,
    c: char,
    rest: Seq<char>,
)
    requires
        is_space(c),
        ({
            let pat = "concealing "@;
            let line = a + pat + (number_text(n as nat).push(c) + rest);
            &&& 0 <= k < lines(err).len()
            &&& lines(err)[k] == line
            &&& forall|j: int| 0 <= j < k ==> has(#[trigger] lines(err)[j], pat) == false
            &&& forall|i: int|
                0 <= i < a.len() || a.len() + pat.len() <= i ==> !#[trigger] stands_at(
                    line,
                    pat,
                    i,
                )
        }),
    ensures
        concealed_of(err) == n,
{
    reveal_strlit("concealing ");
    let pat = "concealing "@;
    let b = number_text(n as nat).push(c) + rest;
    law_text_between(a, pat, b);
    lemma_number_leads(n, c, rest);
    lemma_first_mention(lines(err), pat, k);
}

/// Where no line mentions it, nothing was concealed.
pub proof fn law_nothing_was_concealed(err: Seq<char>)
    requires
        forall|j: int|
            0 <= j < lines(err).len() ==> has(#[trigger] lines(err)[j], "concealing "@) == false,
    ensures
        concealed_of(err) == 0,
{
    lemma_no_mention(lines(err), "concealing "@);
}

/// A width is right exactly if decoding met no error and what was concealed is whole
/// rows: the 136 rows that were claimed less those are the height, which is one at
/// least.
pub proof fn law_height_is_what_was_not_concealed(err: Seq<char>, w: u32, h: int)
    requires
        w > 0,
    ensures
        ({
            let clean = has(err, "error while decoding"@) == false && has(
                err,
                "Nothing was written"@,
            ) == false;
            let right = clean && 1 <= h <= 136 && concealed_of(err) == (136 - h) * w;
            &&& right ==> height_told(err, w) == Some(h as u32)
            &&& height_told(err, w) == Some(h as u32) && 0 <= h <= u32::MAX ==> right
        }),
{
    let c = concealed_of(err);
    if 1 <= h <= 136 && c == (136 - h) * w {
        vstd::arithmetic::div_mod::lemma_div_multiples_vanish(136 - h, w as int);
        vstd::arithmetic::div_mod::lemma_mod_multiples_basic(136 - h, w as int);
        assert(c as int == w * (136 - h)) by (nonlinear_arith)
            requires
                c == (136 - h) * w,
        ;
        assert(c as int / w as int == 136 - h);
        assert(c as int % w as int == 0);
        assert(c / w == 136 - h);
        assert(c % w == 0);
    }
    if height_told(err, w) == Some(h as u32) && 0 <= h <= u32::MAX {
        vstd::arithmetic::div_mod::lemma_fundamental_div_mod(c as int, w as int);
        vstd::arithmetic::div_mod::lemma_div_pos_is_pos(c as int, w as int);
        assert(c as int / w as int == 136 - h);
        assert(c == (136 - h) * w) by (nonlinear_arith)
            requires
                c == w * (c as int / w as int),
                c as int / w as int == 136 - h,
        ;
    }
}

/// A guess is claimed as it is: the stream starts with a sequence parameter set that
/// tells its depth and size at level 5.2, uncropped and without timing, and a picture
/// parameter set that tells its quantiser, each behind a start code; the data follows.
pub proof fn law_guess_is_claimed(x: X264, p: Params, g: Geo, data: Seq<u8>) -> (units: (
    Seq<u8>,
    Seq<u8>,
))
    requires
        g.writable(x, p),
        p.num_ref < u32::MAX,
        p.poc_type < u32::MAX,
        p.reorder < u32::MAX,
    ensures
        ({
            let code = seq![0u8, 0, 0, 1];
            let (sps, pps) = units;
            let b = bits_of(unescaped(sps.skip(1), 0));
            let c = bits_of(unescaped(pps.skip(1), 0));
            &&& guess_stream(x, p, g, data) == code + sps + code + pps + data
            &&& sps[0] == 0x67
            &&& read_stream(b) == stream_of(p, g.depth, g.w_mb, g.h_mb, 52, (0, 0))
            &&& read_timing(past_crop(crop_at(frames_at(b)))) is None
            &&& pps[0] == 0x68
            &&& read_coding(c).qp == Some(g.qp as int)
            &&& read_coding(c).cqo == Some(x.cqo as int)
        }),
{
    let sps = sps_unit(p, g.depth as int, g.w_mb as int, g.h_mb as int, 52, (0, 0), None);
    let pps = pps_unit(x, g.qp as int);
    law_sps_declares_stream(p, g.depth, g.w_mb, g.h_mb, 52, (0, 0), None);
    law_sps_declares_timing(p, g.depth, g.w_mb, g.h_mb, 52, (0, 0), None);
    law_pps_declares_coding(x, g.qp as int);
    let code = seq![0u8, 0, 0, 1];
    assert(guess_stream(x, p, g, data) =~= code + sps + code + pps + data);
    (sps, pps)
}

/// A guess is validated on the first 48 frames, or on all of fewer.
pub proof fn law_first_frames_validate(frames: Seq<Frame>)
    ensures
        frames.len() <= 48 ==> probe_frames(frames) == frames,
        frames.len() > 48 ==> probe_frames(frames) == frames.take(48),
{
    if frames.len() == 48 {
        assert(frames.take(48) =~= frames);
    }
}

/// A sample is taken at every 97th byte of a picture, or at every 194th where samples
/// have two bytes, but not at its last byte.
pub proof fn law_samples_lie_apart(len: int, depth: u32)
    requires
        0 < len,
    ensures
        depth <= 8 ==> 97 * (sampled_count(len, depth) - 1) < len - 1 <= 97 * sampled_count(
            len,
            depth,
        ),
        depth > 8 ==> 194 * (sampled_count(len, depth) - 1) < len - 1 <= 194 * sampled_count(
            len,
            depth,
        ),
        forall|j: int| #[trigger]
            is_sampled(j, len, depth) <==> 0 <= j < len - 1 && j % (if depth > 8 {
                194int
            } else {
                97
            }) == 0,
{
}

proof fn lemma_pair_differs_once(p: Seq<u8>, q: Seq<u8>, depth: u32, j: int, at: int)
    requires
        0 <= j,
        j % sample_step(depth) == 0,
        p.len() == q.len(),
        j <= at,
        is_sampled(at, p.len() as int, depth),
        forall|k: int| #[trigger]
            is_sampled(k, p.len() as int, depth) && k != at ==> sample_at(p, k, depth) == sample_at(
                q,
                k,
                depth,
            ),
    ensures
        pair_difference(p, q, depth, j).0 == magnitude(
            sample_at(p, at, depth) - sample_at(q, at, depth),
        ),
    decreases p.len() + sample_step(depth) - j,
{
    assert(is_sampled(j, p.len() as int, depth));
    let next = j + sample_step(depth);
    if j == at {
        assert forall|k: int| next <= k && #[trigger] is_sampled(
            k,
            p.len() as int,
            depth,
        ) implies sample_at(p, k, depth) == sample_at(q, k, depth) by {}
        lemma_pair_same_from(p, q, depth, next);
    } else {
        assert(at >= next) by {
            if depth > 8 {
                assert(at % 194 == 0 && j % 194 == 0);
            } else {
                assert(at % 97 == 0 && j % 97 == 0);
            }
        }
        lemma_pair_differs_once(p, q, depth, next, at);
    }
}

proof fn lemma_pair_same_from(p: Seq<u8>, q: Seq<u8>, depth: u32, j: int)
    requires
        0 <= j,
        j % sample_step(depth) == 0,
        p.len() == q.len(),
        forall|k: int|
            j <= k && #[trigger] is_sampled(k, p.len() as int, depth) ==> sample_at(p, k, depth)
                == sample_at(q, k, depth),
    ensures
        pair_difference(p, q, depth, j).0 == 0,
    decreases p.len() + sample_step(depth) - j,
{
    if j + 1 < p.len() {
        assert(is_sampled(j, p.len() as int, depth));
        lemma_pair_same_from(p, q, depth, j + sample_step(depth));
    }
}

/// Each sample counts by how far it is from the one in the picture before: two pictures
/// that differ in one sample differ by just that.
pub proof fn law_each_sample_counts(out: Seq<u8>, len: int, depth: u32, at: int)
    requires
        0 < len,
        2 * len <= out.len() <= usize::MAX,
        0 <= at < len - 1,
        at % (if depth > 8 {
            194int
        } else {
            97
        }) == 0,
        forall|k: int| #[trigger]
            is_sampled(k, len, depth) && k != at ==> sample_at(picture(out, len, 0), k, depth)
                == sample_at(picture(out, len, 1), k, depth),
    ensures
        ({
            let a = if depth > 8 {
                out[at] + 256 * out[at + 1]
            } else {
                out[at] as int
            };
            let b = if depth > 8 {
                out[len + at] + 256 * out[len + at + 1]
            } else {
                out[len + at] as int
            };
            roughness_of(out, len, 2, depth) matches Roughness::Sampled { total, .. } && (total == a
                - b || total == b - a)
        }),
{
    let p = picture(out, len, 0);
    let q = picture(out, len, 1);
    lemma_total_fits(out, len, 2, depth);
    lemma_last_pair(out, len, 2, depth, 2);
    lemma_picture(out, len, 2, 0);
    lemma_picture(out, len, 2, 1);
    assert(total_difference(out, len, depth, 1) == (0int, 0int));
    lemma_pair_differs_once(p, q, depth, 0, at);
    assert(p[at] == out[at] && p[at + 1] == out[at + 1]);
    assert(q[at] == out[len + at] && q[at + 1] == out[len + at + 1]);
}

/// A picture more adds how it differs from the one before it.
pub proof fn law_pictures_add_up(out: Seq<u8>, len: int, count: int, depth: u32)
    requires
        0 < len,
        2 <= count,
        len * (count + 1) <= out.len() <= usize::MAX,
    ensures
        ({
            let last = out.subrange((count - 1) * len, (count + 1) * len);
            roughness_of(out, len, count + 1, depth) matches Roughness::Sampled { total, samples }
                && (roughness_of(out, len, count, depth) matches Roughness::Sampled {
                total: t,
                samples: s,
            } && roughness_of(last, len, 2, depth) matches Roughness::Sampled {
                total: u,
                samples: v,
            } && total == t + u && samples == s + v)
        }),
{
    let last = out.subrange((count - 1) * len, (count + 1) * len);
    assert(len * count <= len * (count + 1)) by (nonlinear_arith)
        requires
            0 < len,
    ;
    lemma_picture(out, len, count + 1, count - 1);
    lemma_picture(out, len, count + 1, count);
    assert((count + 1) * len == (count - 1) * len + 2 * len) by (nonlinear_arith);
    lemma_total_fits(out, len, count, depth);
    lemma_total_fits(out, len, count + 1, depth);
    lemma_total_fits(last, len, 2, depth);
    lemma_last_pair(out, len, count + 1, depth, count + 1);
    lemma_last_pair(last, len, 2, depth, 2);
    assert(total_difference(last, len, depth, 1) == (0int, 0int));
    assert(picture(last, len, 0) =~= picture(out, len, count - 1)) by {
        assert(0 * len == 0);
    }
    assert(picture(last, len, 1) =~= picture(out, len, count));
}

} // verus!
