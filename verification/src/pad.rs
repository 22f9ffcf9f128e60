//! The padding at the right and at the bottom of a picture.
//!
//! x264 codes whole macroblocks and fills them up by repeating the last pixel. In
//! padding, neighbours hardly differ.

use crate::frames::Frame;
use crate::probe::{magnitude, Geo};
use vstd::prelude::*;

verus! {

/// How many key frames are looked at.
pub const PAD_PICKS: usize = 5;

/// The widest padding that is looked for.
pub const MAX_PAD: usize = 15;

/// A picture with fewer columns or rows is too small to tell.
pub const MIN_LINES: usize = 64;

/// Where the key frames stand among `frames`.
pub open spec fn key_places(frames: Seq<Frame>) -> Seq<usize>
    decreases frames.len(),
{
    if frames.len() == 0 {
        Seq::empty()
    } else {
        let r = key_places(frames.drop_last());
        if frames.last().is_key() {
            r.push((frames.len() - 1) as usize)
        } else {
            r
        }
    }
}

/// How many of `n` key frames are looked at.
pub open spec fn pick_count(n: int) -> int {
    if n < PAD_PICKS {
        n
    } else {
        PAD_PICKS as int
    }
}

/// The key frames that are looked at, spread over the whole stream.
pub open spec fn picks_of(frames: Seq<Frame>) -> Seq<usize> {
    let keys = key_places(frames);
    let n = keys.len() as int;
    Seq::new(pick_count(n) as nat, |i: int| keys[i * n / pick_count(n)])
}

proof fn lemma_key_places(frames: Seq<Frame>)
    requires
        frames.len() <= usize::MAX,
    ensures
        key_places(frames).len() <= frames.len(),
        forall|i: int|
            0 <= i < key_places(frames).len() ==> (#[trigger] key_places(frames)[i]) < frames.len()
                && frames[key_places(frames)[i] as int].is_key(),
    decreases frames.len(),
{
    if frames.len() > 0 {
        lemma_key_places(frames.drop_last());
        let r = key_places(frames.drop_last());
        assert forall|i: int| 0 <= i < key_places(frames).len() implies (
        #[trigger] key_places(frames)[i]) < frames.len()
            && frames[key_places(frames)[i] as int].is_key() by {
            if i < r.len() {
                assert(r[i] < frames.len() - 1);
                assert(frames.drop_last()[r[i] as int] == frames[r[i] as int]);
            }
        }
    }
}

/// The key frames that are looked at for padding.
pub fn pad_picks(frames: &[Frame]) -> (r: Vec<usize>)
    ensures
        r@ == picks_of(frames@),
        forall|i: int|
            0 <= i < r@.len() ==> (#[trigger] r@[i]) < frames@.len()
                && frames@[r@[i] as int].is_key(),
{
    let mut keys: Vec<usize> = Vec::new();
    let mut i: usize = 0;
    assert(keys@ =~= key_places(frames@.take(0)));
    while i < frames.len()
        invariant
            i <= frames@.len(),
            keys@ == key_places(frames@.take(i as int)),
        decreases frames@.len() - i,
    {
        proof {
            let t = frames@.take(i + 1);
            assert(t.drop_last() =~= frames@.take(i as int));
            assert(t.last() == frames@[i as int]);
        }
        if frames[i].hdr % 32 == 5 {
            keys.push(i);
        }
        i = i + 1;
    }
    proof {
        assert(frames@.take(i as int) =~= frames@);
        lemma_key_places(frames@);
    }
    let n: usize = keys.len();
    let picks: usize = if n < PAD_PICKS {
        n
    } else {
        PAD_PICKS
    };
    let mut r: Vec<usize> = Vec::new();
    let mut k: usize = 0;
    while k < picks
        invariant
            k <= picks <= PAD_PICKS,
            picks <= n == keys@.len(),
            picks == pick_count(n as int),
            r@.len() == k,
            forall|j: int| 0 <= j < k ==> #[trigger] r@[j] == keys@[j * n / (picks as int)],
            forall|j: int|
                0 <= j < keys@.len() ==> (#[trigger] keys@[j]) < frames@.len()
                    && frames@[keys@[j] as int].is_key(),
            forall|j: int|
                0 <= j < k ==> (#[trigger] r@[j]) < frames@.len() && frames@[r@[j] as int].is_key(),
        decreases picks - k,
    {
        assert(0 <= k * n / (picks as int)) by (nonlinear_arith)
            requires
                0 <= k,
                0 <= n,
                0 < picks,
        ;
        assert(k * n / (picks as int) < n) by (nonlinear_arith)
            requires
                0 <= k < picks <= n,
        ;
        assert(k * n <= u128::MAX) by (nonlinear_arith)
            requires
                0 <= k <= 5,
                0 <= n <= usize::MAX,
        ;
        let at: usize = (k as u128 * n as u128 / picks as u128) as usize;
        r.push(keys[at]);
        k = k + 1;
    }
    assert(r@ =~= picks_of(frames@));
    r
}

/// How two samples differ.
pub open spec fn gap(a: u8, b: u8) -> int {
    magnitude(a as int - b as int)
}

/// How column `x` of a picture `w` wide differs from the one to its left, summed
/// over the first `k` of every other row.
pub open spec fn column_gap(raw: Seq<u8>, w: int, x: int, k: int) -> int
    decreases k,
{
    if k <= 0 {
        0
    } else {
        let row = 2 * (k - 1) * w;
        column_gap(raw, w, x, k - 1) + gap(raw[row + x], raw[row + x - 1])
    }
}

/// How row `y` of a picture `w` wide differs from the one above it, summed over
/// the first `k` of every other column.
pub open spec fn row_gap(raw: Seq<u8>, w: int, y: int, k: int) -> int
    decreases k,
{
    if k <= 0 {
        0
    } else {
        let x = 2 * (k - 1);
        row_gap(raw, w, y, k - 1) + gap(raw[y * w + x], raw[(y - 1) * w + x])
    }
}

fn sample_gap(a: u8, b: u8) -> (r: u128)
    ensures
        r == gap(a, b),
        r <= 255,
{
    if a < b {
        (b - a) as u128
    } else {
        (a - b) as u128
    }
}

fn column_sum(raw: &[u8], w: usize, h: usize, x: usize) -> (r: u128)
    requires
        raw@.len() == w * h,
        1 <= x < w,
    ensures
        r == column_gap(raw@, w as int, x as int, (h + 1) / 2),
        r <= 255 * h,
{
    let mut r: u128 = 0;
    let mut k: usize = 0;
    let mut row: usize = 0;
    let half: usize = h / 2 + h % 2;
    let size: usize = raw.len();
    while k < half
        invariant
            k <= half == (h + 1) / 2,
            size == raw@.len() == w * h,
            1 <= x < w,
            k < half ==> row == 2 * k * w,
            r == column_gap(raw@, w as int, x as int, k as int),
            r <= 255 * k,
        decreases half - k,
    {
        assert(row + w <= size) by (nonlinear_arith)
            requires
                row == 2 * k * w,
                2 * k + 1 <= h,
                size == w * h,
        ;
        assert(2 * ((k + 1) - 1) * w == row) by (nonlinear_arith)
            requires
                row == 2 * k * w,
        ;
        r = r + sample_gap(raw[row + x], raw[row + x - 1]);
        k = k + 1;
        if k < half {
            assert(row + 2 * w <= size && row + 2 * w == 2 * k * w) by (nonlinear_arith)
                requires
                    row == 2 * (k - 1) * w,
                    2 * k + 1 <= h,
                    size == w * h,
            ;
            row = row + w + w;
        }
    }
    r
}

fn row_sum(raw: &[u8], w: usize, h: usize, y: usize) -> (r: u128)
    requires
        raw@.len() == w * h,
        1 <= y < h,
    ensures
        r == row_gap(raw@, w as int, y as int, (w + 1) / 2),
        r <= 255 * w,
{
    let mut r: u128 = 0;
    let mut k: usize = 0;
    let half: usize = w / 2 + w % 2;
    let size: usize = raw.len();
    assert((y - 1) * w + w == y * w && y * w + w <= size) by (nonlinear_arith)
        requires
            1 <= y < h,
            size == w * h,
    ;
    let row: usize = y * w;
    let above: usize = row - w;
    while k < half
        invariant
            k <= half == (w + 1) / 2,
            size == raw@.len(),
            row == y * w,
            above == (y - 1) * w,
            row + w <= size,
            above + w == row,
            r == row_gap(raw@, w as int, y as int, k as int),
            r <= 255 * k,
        decreases half - k,
    {
        let x: usize = 2 * k;
        r = r + sample_gap(raw[row + x], raw[above + x]);
        k = k + 1;
    }
    r
}

/// What the pictures of a stream tell about its padding.
pub struct Edges {
    w: usize,
    h: usize,
    cols: Vec<u128>,
    rows: Vec<u128>,
    used: u32,
}

impl Edges {
    /// There is a sum for each column and row, and none can have overflown.
    pub closed spec fn wf(&self) -> bool {
        &&& self.w * self.h <= usize::MAX
        &&& self.cols@.len() == self.w
        &&& self.rows@.len() == self.h
        &&& forall|x: int|
            0 <= x < self.cols@.len() ==> #[trigger] self.cols@[x] <= self.used * (255 * self.h)
        &&& forall|y: int|
            0 <= y < self.rows@.len() ==> #[trigger] self.rows@[y] <= self.used * (255 * self.w)
    }

    /// The width of the pictures.
    pub closed spec fn width(&self) -> int {
        self.w as int
    }

    /// The height of the pictures.
    pub closed spec fn height(&self) -> int {
        self.h as int
    }

    /// How many pictures were taken in.
    pub closed spec fn count(&self) -> int {
        self.used as int
    }

    /// How much each column differs from the one to its left.
    pub closed spec fn columns(&self) -> Seq<u128> {
        self.cols@
    }

    /// How much each row differs from the one above it.
    pub closed spec fn lines(&self) -> Seq<u128> {
        self.rows@
    }

    /// Nothing is known yet of pictures `w` by `h`.
    pub fn new(w: usize, h: usize) -> (e: Self)
        requires
            w * h <= usize::MAX,
        ensures
            e.wf(),
            e.width() == w,
            e.height() == h,
            e.count() == 0,
            e.columns() == Seq::new(w as nat, |i: int| 0u128),
            e.lines() == Seq::new(h as nat, |i: int| 0u128),
    {
        let e = Edges { w, h, cols: zero_sums(w), rows: zero_sums(h), used: 0 };
        e
    }

    /// Takes in a picture of one byte per pixel; one of another size tells nothing.
    pub fn take_picture(&mut self, raw: &[u8])
        requires
            old(self).wf(),
            old(self).count() < u32::MAX,
        ensures
            final(self).wf(),
            final(self).width() == old(self).width(),
            final(self).height() == old(self).height(),
            raw@.len() != old(self).width() * old(self).height() ==> *final(self) == *old(self),
            raw@.len() == old(self).width() * old(self).height() ==> {
                let w = old(self).width();
                let h = old(self).height();
                &&& final(self).count() == old(self).count() + 1
                &&& final(self).columns().len() == w
                &&& final(self).lines().len() == h
                &&& forall|x: int|
                    0 <= x < w ==> #[trigger] final(self).columns()[x] == old(self).columns()[x]
                        + if x == 0 {
                        0
                    } else {
                        column_gap(raw@, w, x, (h + 1) / 2)
                    }
                &&& forall|y: int|
                    0 <= y < h ==> #[trigger] final(self).lines()[y] == old(self).lines()[y]
                        + if y == 0 {
                        0
                    } else {
                        row_gap(raw@, w, y, (w + 1) / 2)
                    }
            },
    {
        let w: usize = self.w;
        let h: usize = self.h;
        if raw.len() != w * h {
            return;
        }
        let ghost cols = self.cols@;
        let ghost rows = self.rows@;
        let ghost used = self.used as int;
        assert(used * (255 * h) + 255 * h == (used + 1) * (255 * h)) by (nonlinear_arith);
        assert(used * (255 * w) + 255 * w == (used + 1) * (255 * w)) by (nonlinear_arith);
        assert(0 <= (used + 1) * (255 * h) <= u128::MAX) by (nonlinear_arith)
            requires
                0 <= used < u32::MAX,
                0 <= h <= u64::MAX,
        ;
        assert(0 <= (used + 1) * (255 * w) <= u128::MAX) by (nonlinear_arith)
            requires
                0 <= used < u32::MAX,
                0 <= w <= u64::MAX,
        ;
        let mut x: usize = 1;
        while x < w
            invariant
                1 <= x,
                x <= w || x == 1,
                w == self.w,
                h == self.h,
                raw@.len() == w * h,
                self.used == used,
                self.rows@ == rows,
                self.cols@.len() == w == cols.len(),
                (used + 1) * (255 * h) <= u128::MAX,
                used * (255 * h) + 255 * h == (used + 1) * (255 * h),
                forall|i: int| 0 <= i < w ==> #[trigger] cols[i] <= used * (255 * h),
                forall|i: int|
                    0 <= i < w ==> #[trigger] self.cols@[i] == cols[i] + if 0 < i < x {
                        column_gap(raw@, w as int, i, (h + 1) / 2)
                    } else {
                        0
                    },
                forall|i: int| 0 <= i < w ==> #[trigger] self.cols@[i] <= (used + 1) * (255 * h),
            decreases w - x,
        {
            let sum: u128 = column_sum(raw, w, h, x);
            assert(self.cols@[x as int] == cols[x as int]);
            assert(cols[x as int] <= used * (255 * h));
            let v: u128 = self.cols[x] + sum;
            self.cols.set(x, v);
            x = x + 1;
        }
        let ghost new_cols = self.cols@;
        let mut y: usize = 1;
        while y < h
            invariant
                1 <= y,
                y <= h || y == 1,
                w == self.w,
                h == self.h,
                raw@.len() == w * h,
                self.used == used,
                self.cols@ == new_cols,
                self.rows@.len() == h == rows.len(),
                (used + 1) * (255 * w) <= u128::MAX,
                used * (255 * w) + 255 * w == (used + 1) * (255 * w),
                forall|i: int| 0 <= i < h ==> #[trigger] rows[i] <= used * (255 * w),
                forall|i: int|
                    0 <= i < h ==> #[trigger] self.rows@[i] == rows[i] + if 0 < i < y {
                        row_gap(raw@, w as int, i, (w + 1) / 2)
                    } else {
                        0
                    },
                forall|i: int| 0 <= i < h ==> #[trigger] self.rows@[i] <= (used + 1) * (255 * w),
            decreases h - y,
        {
            let sum: u128 = row_sum(raw, w, h, y);
            assert(self.rows@[y as int] == rows[y as int]);
            assert(rows[y as int] <= used * (255 * w));
            let v: u128 = self.rows[y] + sum;
            self.rows.set(y, v);
            y = y + 1;
        }
        self.used = self.used + 1;
    }

    /// The padding at the right and at the bottom, in pixels.
    pub fn pad(&self) -> (r: (usize, usize))
        requires
            self.wf(),
        ensures
            self.count() == 0 ==> r == (0usize, 0usize),
            self.count() > 0 ==> r.0 == pad_of(self.columns()) && r.1 == pad_of(self.lines()),
            r.0 < 16 && r.0 % 2 == 0 && (r.0 > 0 ==> self.width() >= MIN_LINES),
            r.1 < 16 && r.1 % 2 == 0 && (r.1 > 0 ==> self.height() >= MIN_LINES),
    {
        if self.used == 0 {
            return (0, 0);
        }
        (trailing_pad(self.cols.as_slice()), trailing_pad(self.rows.as_slice()))
    }
}

fn zero_sums(n: usize) -> (v: Vec<u128>)
    ensures
        v@ == Seq::new(n as nat, |i: int| 0u128),
{
    let mut v: Vec<u128> = Vec::new();
    let mut i: usize = 0;
    while i < n
        invariant
            i <= n,
            v@ == Seq::new(i as nat, |k: int| 0u128),
        decreases n - i,
    {
        v.push(0);
        i = i + 1;
        assert(v@ =~= Seq::new(i as nat, |k: int| 0u128));
    }
    assert(v@ =~= Seq::new(n as nat, |k: int| 0u128));
    v
}

/// The sum of `v`, but for its first item.
pub open spec fn inner_sum(v: Seq<u128>) -> int
    decreases v.len(),
{
    if v.len() <= 1 {
        0
    } else {
        inner_sum(v.drop_last()) + v.last()
    }
}

/// `v[i]` is so small that it can only be padding: less than 0.6, and less than
/// 0.35 of the mean.
pub open spec fn is_quiet(v: Seq<u128>, i: int) -> bool {
    &&& 10 * v[i] < 6
    &&& 100 * (v[i] * (v.len() - 1)) < 35 * inner_sum(v)
}

/// How many items at the end of `v` are quiet, from the `k`th on, up to the most
/// that is looked for.
pub open spec fn quiet_run(v: Seq<u128>, k: int) -> int
    decreases MAX_PAD - k,
{
    if k < MAX_PAD && is_quiet(v, v.len() - 1 - k) {
        quiet_run(v, k + 1)
    } else {
        k
    }
}

/// The padding at the end of `v`, in pairs of pixels: none where there is too
/// little to tell, or where the picture is too flat.
pub open spec fn pad_of(v: Seq<u128>) -> int {
    if v.len() < MIN_LINES || inner_sum(v) < v.len() - 1 {
        0
    } else {
        quiet_run(v, 0) - quiet_run(v, 0) % 2
    }
}

proof fn lemma_inner_sum_grows(v: Seq<u128>, i: int)
    requires
        0 <= i <= v.len(),
    ensures
        0 <= inner_sum(v.take(i)) <= inner_sum(v),
    decreases v.len(),
{
    if i == v.len() {
        assert(v.take(i) =~= v);
        if i > 1 {
            lemma_inner_sum_grows(v.drop_last(), i - 1);
        }
    } else {
        assert(v.take(i) =~= v.drop_last().take(i));
        lemma_inner_sum_grows(v.drop_last(), i);
    }
}

/// The padding at the end of `v`, in pixels.
pub fn trailing_pad(v: &[u128]) -> (r: usize)
    ensures
        r == pad_of(v@),
        r < 16,
        r % 2 == 0,
        r > 0 ==> v@.len() >= MIN_LINES,
{
    let n: usize = v.len();
    if n < MIN_LINES {
        return 0;
    }
    let need: u128 = (n - 1) as u128;
    let mut sum: u128 = 0;
    let mut i: usize = 1;
    assert(v@.take(1).len() == 1);
    while i < n && sum < need
        invariant
            1 <= i <= n == v@.len(),
            need == n - 1,
            sum == inner_sum(v@.take(i as int)) || (sum >= need && inner_sum(v@.take(i as int))
                >= need),
        decreases n - i,
    {
        proof {
            let t = v@.take(i + 1);
            assert(t.drop_last() =~= v@.take(i as int));
            assert(t.last() == v@[i as int]);
        }
        if v[i] >= need {
            sum = need;
            proof {
                lemma_inner_sum_grows(v@.take(i as int), i as int);
            }
        } else {
            sum = sum + v[i];
        }
        i = i + 1;
    }
    proof {
        lemma_inner_sum_grows(v@, i as int);
        assert(i == n ==> v@.take(i as int) =~= v@);
    }
    if sum < need {
        return 0;
    }
    let mut k: usize = 0;
    while k < MAX_PAD && v[n - 1 - k] == 0
        invariant
            k <= MAX_PAD < n == v@.len(),
            n >= MIN_LINES,
            inner_sum(v@) >= n - 1,
            quiet_run(v@, 0) == quiet_run(v@, k as int),
        decreases MAX_PAD - k,
    {
        assert(0 * (v@.len() - 1) == 0);
        assert(is_quiet(v@, n - 1 - k));
        k = k + 1;
    }
    k - k % 2
}

/// What is left of a picture without its padding.
#[derive(Clone, Copy, Debug)]
pub struct Shown {
    /// The width in pixels.
    pub width: u32,
    /// The height in pixels.
    pub height: u32,
    /// What is cropped at the right and at the bottom, in pairs of pixels.
    pub crop: (u32, u32),
}

/// What is left of a picture without `pad` pixels at the right and at the bottom.
pub fn shown_size(g: &Geo, pad: (usize, usize)) -> (s: Shown)
    requires
        g.w_mb * 16 <= u32::MAX,
        g.h_mb * 16 <= u32::MAX,
        pad.0 <= g.w_mb * 16,
        pad.1 <= g.h_mb * 16,
    ensures
        s.width == g.w_mb * 16 - pad.0,
        s.height == g.h_mb * 16 - pad.1,
        s.crop.0 == pad.0 / 2,
        s.crop.1 == pad.1 / 2,
{
    Shown {
        width: g.w_mb * 16 - pad.0 as u32,
        height: g.h_mb * 16 - pad.1 as u32,
        crop: ((pad.0 / 2) as u32, (pad.1 / 2) as u32),
    }
}

/// The sum of `v` but for its first item, one item after the other.
pub proof fn law_inner_sum_adds_up(v: Seq<u128>)
    requires
        v.len() > 0,
    ensures
        inner_sum(v) == v.skip(1).fold_left(0int, |a: int, b: u128| a + b),
    decreases v.len(),
{
    let plus = |a: int, b: u128| a + b;
    let t = v.skip(1);
    reveal(Seq::fold_left);
    if v.len() > 1 {
        law_inner_sum_adds_up(v.drop_last());
        assert(t.drop_last() =~= v.drop_last().skip(1));
        assert(t.last() == v.last());
        assert(t.fold_left(0int, plus) == plus(t.drop_last().fold_left(0int, plus), t.last()));
    }
}

proof fn lemma_quiet_run(v: Seq<u128>, k: int)
    requires
        0 <= k <= 15,
        v.len() >= 64,
        inner_sum(v) >= v.len() - 1,
    ensures
        k <= quiet_run(v, k) <= 15,
        forall|i: int| k <= i < quiet_run(v, k) ==> v[#[trigger] (v.len() - 1 - i)] == 0,
        quiet_run(v, k) < 15 ==> v[v.len() - 1 - quiet_run(v, k)] != 0,
    decreases 15 - k,
{
    if k < 15 {
        let at = v.len() - 1 - k;
        if v[at] == 0 {
            assert(0 * (v.len() - 1) == 0);
            assert(is_quiet(v, at));
            lemma_quiet_run(v, k + 1);
            assert forall|i: int| k <= i < quiet_run(v, k) implies v[#[trigger] (v.len() - 1
                - i)] == 0 by {}
        }
    }
}

/// Padding is what does not change at all at the end of an axis: an even number of
/// lines, 14 at most, and one more even step would meet a change or the limit. An axis
/// of fewer than 64 lines, or one whose lines change by less than 1 in the mean, has
/// none.
pub proof fn law_padding_does_not_change(v: Seq<u128>)
    ensures
        ({
            let k = pad_of(v);
            &&& 0 <= k <= 14 && k % 2 == 0
            &&& v.len() < 64 ==> k == 0
            &&& v.len() >= 64 && inner_sum(v) < v.len() - 1 ==> k == 0
            &&& k > 0 ==> forall|i: int| 0 <= i < k ==> v[#[trigger] (v.len() - 1 - i)] == 0
            &&& v.len() >= 64 && inner_sum(v) >= v.len() - 1 && k < 14 ==> v[v.len() - 1 - k] != 0
                || v[v.len() - 2 - k] != 0
        }),
{
    if v.len() >= 64 && inner_sum(v) >= v.len() - 1 {
        lemma_quiet_run(v, 0);
        let k = pad_of(v);
        let r = quiet_run(v, 0);
        assert(k == r || k == r - 1);
    }
}

/// A column is compared with the one to its left in every other row, from the first
/// on: each such row adds how far the two pixels are apart.
pub proof fn law_columns_are_compared(raw: Seq<u8>, w: int, x: int, k: int)
    requires
        0 <= k,
    ensures
        column_gap(raw, w, x, 0) == 0,
        ({
            let a = raw[2 * k * w + x] as int;
            let b = raw[2 * k * w + x - 1] as int;
            let step = column_gap(raw, w, x, k + 1) - column_gap(raw, w, x, k);
            step >= 0 && (step == a - b || step == b - a)
        }),
{
}

/// A row is compared with the one above it in every other column, from the first on:
/// each such column adds how far the two pixels are apart.
pub proof fn law_rows_are_compared(raw: Seq<u8>, w: int, y: int, k: int)
    requires
        0 <= k,
    ensures
        row_gap(raw, w, y, 0) == 0,
        ({
            let a = raw[y * w + 2 * k] as int;
            let b = raw[(y - 1) * w + 2 * k] as int;
            let step = row_gap(raw, w, y, k + 1) - row_gap(raw, w, y, k);
            step >= 0 && (step == a - b || step == b - a)
        }),
{
}

/// A picture on its side has the rows that it had as columns.
pub proof fn law_rows_are_columns_of_the_picture_on_its_side(
    raw: Seq<u8>,
    side: Seq<u8>,
    w: int,
    h: int,
    x: int,
    k: int,
)
    requires
        0 < x < w,
        0 <= 2 * k <= h + 1,
        forall|i: int, j: int|
            #![trigger raw[j * w + i]]
            0 <= i < w && 0 <= j < h ==> side[i * h + j] == raw[j * w + i],
    ensures
        column_gap(raw, w, x, k) == row_gap(side, h, x, k),
    decreases k,
{
    if k > 0 {
        law_rows_are_columns_of_the_picture_on_its_side(raw, side, w, h, x, k - 1);
        let j = 2 * (k - 1);
        assert(side[x * h + j] == raw[j * w + x]);
        assert(raw[j * w + (x - 1)] == raw[j * w + x - 1]);
        assert(side[(x - 1) * h + j] == raw[j * w + (x - 1)]);
    }
}

/// The key frames are found, all of them and nothing else, in order.
pub proof fn law_key_places_are_all(frames: Seq<Frame>)
    requires
        frames.len() <= usize::MAX,
    ensures
        forall|i: int|
            0 <= i < frames.len() && (#[trigger] frames[i]).hdr % 32 == 5 ==> key_places(
                frames,
            ).contains(i as usize),
        forall|a: int, b: int|
            0 <= a < b < key_places(frames).len() ==> key_places(frames)[a] < key_places(frames)[b],
        forall|a: int|
            0 <= a < key_places(frames).len() ==> (#[trigger] key_places(frames)[a]) < frames.len()
                && frames[key_places(frames)[a] as int].hdr % 32 == 5,
    decreases frames.len(),
{
    lemma_key_places(frames);
    if frames.len() > 0 {
        let t = frames.drop_last();
        law_key_places_are_all(t);
        lemma_key_places(t);
        let r = key_places(t);
        let now = key_places(frames);
        assert forall|i: int| 0 <= i < frames.len() && (#[trigger] frames[i]).hdr % 32
            == 5 implies now.contains(i as usize) by {
            if i < t.len() {
                assert(t[i].hdr % 32 == 5);
                assert(r.contains(i as usize));
                let j = r.index_of(i as usize);
                assert(now[j] == i as usize);
            } else {
                assert(now[now.len() - 1] == i as usize);
            }
        }
        assert forall|a: int, b: int| 0 <= a < b < now.len() implies now[a] < now[b] by {
            if b < r.len() {
                assert(r[a] < r[b]);
            } else {
                assert(r[a] < t.len());
            }
        }
    }
}

spec fn pick_place(i: int, n: int, c: int) -> int {
    i * n / c
}

/// The pictures that are looked at for padding are key frames, in order and none
/// twice: all of them where there are five at most, else five, the first among them
/// and the others at every fifth of the way.
pub proof fn law_padding_is_looked_for_in_key_frames(frames: Seq<Frame>)
    requires
        frames.len() <= usize::MAX,
    ensures
        ({
            let p = picks_of(frames);
            &&& p.len() <= 5
            &&& forall|i: int|
                0 <= i < p.len() ==> (#[trigger] p[i]) < frames.len() && frames[p[i] as int].hdr
                    % 32 == 5
            &&& forall|a: int, b: int| 0 <= a < b < p.len() ==> p[a] < p[b]
            &&& p.len() < 5 ==> forall|i: int|
                0 <= i < frames.len() && (#[trigger] frames[i]).hdr % 32 == 5 ==> p.contains(
                    i as usize,
                )
            &&& p.len() > 0 ==> forall|i: int|
                0 <= i < p[0] ==> (#[trigger] frames[i]).hdr % 32 != 5
            &&& p.len() == 5 ==> forall|i: int|
                0 <= i < 5 ==> exists|j: int|
                    0 <= j < key_places(frames).len() && #[trigger] p[i] == #[trigger] key_places(
                        frames,
                    )[j] && 5 * j <= i * key_places(frames).len() < 5 * j + 5
        }),
{
    law_key_places_are_all(frames);
    lemma_key_places(frames);
    let keys = key_places(frames);
    let p = picks_of(frames);
    let n = keys.len() as int;
    let c = pick_count(n);
    if n > 0 {
        assert forall|i: int| 0 <= i < c implies 0 <= #[trigger] pick_place(i, n, c) < n && (n <= 5 ==> pick_place(i, n, c) == i) by {
            if n <= 5 {
                vstd::arithmetic::div_mod::lemma_div_by_multiple(i, n);
            } else {
                assert(0 <= i * n < n * 5) by (nonlinear_arith)
                    requires
                        0 <= i < 5,
                        n > 0,
                ;
            }
        }
        assert forall|a: int, b: int| 0 <= a < b < c implies #[trigger] pick_place(a, n, c)
            < #[trigger] pick_place(b, n, c) by {
            if n > 5 {
                assert(b * n >= a * n + n) by (nonlinear_arith)
                    requires
                        a < b,
                        n > 0,
                ;
                assert(c == 5);
                assert(a * n / 5 + 1 <= b * n / 5);
            } else {
                assert(0 <= pick_place(a, n, c) < n && pick_place(a, n, c) == a);
                assert(0 <= pick_place(b, n, c) < n && pick_place(b, n, c) == b);
            }
        }
        assert forall|a: int, b: int| 0 <= a < b < p.len() implies p[a] < p[b] by {
            let i = pick_place(a, n, c);
            let j = pick_place(b, n, c);
            assert(keys[i] < keys[j]);
        }
        assert(p[0] == keys[0]) by {
            assert(0 * n / c == 0);
            assert(pick_place(0, n, c) == 0);
        }
        assert forall|i: int| 0 <= i < p[0] implies (#[trigger] frames[i]).hdr % 32 != 5 by {
            if frames[i].hdr % 32 == 5 {
                assert(keys.contains(i as usize));
                let j = keys.index_of(i as usize);
                if j > 0 {
                    assert(keys[0] < keys[j]);
                }
            }
        }
        if p.len() == 5 {
            assert forall|i: int| 0 <= i < 5 implies exists|j: int|
                0 <= j < n && #[trigger] p[i] == #[trigger] keys[j] && 5 * j <= i * n < 5 * j + 5 by {
                let j = pick_place(i, n, c);
                assert(0 <= j < n);
                assert(c == 5);
                assert(p[i] == keys[j]);
            }
        }
        if p.len() < 5 {
            assert forall|i: int| 0 <= i < frames.len() && (#[trigger] frames[i]).hdr % 32
                == 5 implies p.contains(i as usize) by {
                assert(keys.contains(i as usize));
                let j = keys.index_of(i as usize);
                assert(pick_place(j, n, c) == j);
                assert(p[j] == i as usize);
            }
        }
        assert forall|i: int| 0 <= i < p.len() implies (#[trigger] p[i]) < frames.len()
            && frames[p[i] as int].hdr % 32 == 5 by {
            assert(0 <= pick_place(i, n, c) < n);
        }
    }
}

} // verus!
