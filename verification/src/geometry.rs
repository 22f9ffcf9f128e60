//! The search for depth, quantiser and size.
//!
//! Nothing in the stream tells them, so they are guessed and a decoder is asked.
//! The search says what to ask next and takes the answers in.

use crate::fault::Fault;
use crate::probe::{Geo, MAX_W_MB, TEST_H_MB};
use crate::sorting::sorted;
use crate::x264::{params_of, Params, X264};
use vstd::prelude::*;
use vstd::relations::total_ordering;
use vstd::seq_lib::lemma_sorted_unique;

verus! {

/// How many quantisers are tried at each depth.
pub const TRIED_QPS: usize = 5;

/// The largest quantiser.
pub const MAX_QP: i32 = 51;

/// A guess that decodes cleanly.
#[derive(Clone, Copy, Debug)]
pub struct Found {
    /// Depth, quantiser and size.
    pub geo: Geo,
    /// The parameters that it was validated with.
    pub params: Params,
    /// How rough the pictures are; less is better.
    pub roughness: u64,
}

impl Found {
    /// How many macroblocks a picture has.
    pub open spec fn area(&self) -> int {
        self.geo.w_mb * self.geo.h_mb
    }

    /// Parameter sets can be written from the find.
    pub open spec fn wf(&self) -> bool {
        &&& self.geo.depth == 8 || self.geo.depth == 10
        &&& 0 <= self.geo.qp <= MAX_QP
        &&& is_size((self.geo.w_mb, self.geo.h_mb))
        &&& self.params.wf()
        &&& self.params.profile > 0
    }
}

/// What a search wants to know.
#[derive(Clone, Copy, Debug)]
pub enum Ask {
    /// How far decoding gets with each quantiser.
    Quantisers {
        /// The depth to try them at.
        depth: u32,
    },
    /// Which widths can be right, and the heights that they tell.
    Widths {
        /// The depth to try them at.
        depth: u32,
        /// The quantiser to try them with.
        qp: i32,
    },
    /// Whether a guess decodes cleanly, and how rough the pictures are.
    Validate {
        /// Depth, quantiser and size.
        geo: Geo,
        /// The parameters to try it with.
        params: Params,
    },
    /// Nothing: the search is over.
    Nothing,
}

/// The answers that a decoder would give.
pub struct Oracle {
    /// For a depth, pairs of how far decoding got and with which quantiser.
    pub scores: spec_fn(u32) -> Seq<(u32, i32)>,
    /// For a depth and a quantiser, pairs of width and height.
    pub sizes: spec_fn(u32, i32) -> Seq<(u32, u32)>,
    /// For a guess, how rough the pictures are if it decodes cleanly.
    pub verdict: spec_fn(Geo, Params) -> Option<u64>,
}

/// Larger scores first, and larger quantisers first among equal scores.
pub open spec fn score_order() -> spec_fn((u32, i32), (u32, i32)) -> bool {
    |a: (u32, i32), b: (u32, i32)| a.0 > b.0 || (a.0 == b.0 && a.1 >= b.1)
}

/// Smaller widths first, and smaller heights first among equal widths.
pub open spec fn size_order() -> spec_fn((u32, u32), (u32, u32)) -> bool {
    |a: (u32, u32), b: (u32, u32)| a.0 < b.0 || (a.0 == b.0 && a.1 <= b.1)
}

/// The quantisers to try: those of the best scores.
pub open spec fn best_qps(scores: Seq<(u32, i32)>) -> Seq<i32> {
    let s = scores.sort_by(score_order());
    let n = if s.len() < TRIED_QPS {
        s.len()
    } else {
        TRIED_QPS as nat
    };
    Seq::new(n, |i: int| s[i].1)
}

/// How many reference frames to claim: first what the options suggest, then more
/// room.
pub open spec fn ref_choices(num_ref: u32) -> Seq<u32> {
    if num_ref == 8 {
        seq![8u32, 16]
    } else {
        seq![num_ref, 8, 16]
    }
}

/// `p` with another number of reference frames.
pub open spec fn with_refs(p: Params, num_ref: u32) -> Params {
    Params { num_ref, ..p }
}

/// The first claim, from number `ri` on, with which the guess decodes cleanly.
pub open spec fn first_valid(o: Oracle, geo: Geo, p: Params, ri: int) -> Option<Found>
    decreases ref_choices(p.num_ref).len() - ri,
{
    let refs = ref_choices(p.num_ref);
    if ri < 0 || ri >= refs.len() {
        None
    } else {
        let params = with_refs(p, refs[ri]);
        match (o.verdict)(geo, params) {
            Some(roughness) => Some(Found { geo, params, roughness }),
            None => first_valid(o, geo, p, ri + 1),
        }
    }
}

/// The larger of two finds; the first of two equally large ones.
pub open spec fn larger(best: Option<Found>, new: Option<Found>) -> Option<Found> {
    match (best, new) {
        (Some(b), Some(n)) => if n.area() > b.area() {
            new
        } else {
            best
        },
        (None, _) => new,
        (_, None) => best,
    }
}

/// The smoother of two finds; the first of two equally smooth ones.
pub open spec fn smoother(best: Option<Found>, new: Option<Found>) -> Option<Found> {
    match (best, new) {
        (Some(b), Some(n)) => if n.roughness < b.roughness {
            new
        } else {
            best
        },
        (None, _) => new,
        (_, None) => best,
    }
}

/// The largest of `best` and the sizes from number `si` on that decode cleanly. A
/// size far too small decodes cleanly too: the decoder drops what does not fit.
pub open spec fn largest_valid(
    o: Oracle,
    depth: u32,
    p: Params,
    qp: i32,
    sizes: Seq<(u32, u32)>,
    si: int,
    best: Option<Found>,
) -> Option<Found>
    decreases sizes.len() - si,
{
    if si < 0 || si >= sizes.len() {
        best
    } else {
        let geo = Geo { depth, qp, w_mb: sizes[si].0, h_mb: sizes[si].1 };
        largest_valid(
            o,
            depth,
            p,
            qp,
            sizes,
            si + 1,
            larger(best, first_valid(o, geo, p, 0)),
        )
    }
}

/// What the first of the quantisers from number `qi` on finds that finds anything.
pub open spec fn first_find(
    o: Oracle,
    depth: u32,
    p: Params,
    qps: Seq<i32>,
    qi: int,
) -> Option<Found>
    decreases qps.len() - qi,
{
    if qi < 0 || qi >= qps.len() {
        None
    } else {
        let sizes = (o.sizes)(depth, qps[qi]).sort_by(size_order());
        let f = largest_valid(o, depth, p, qps[qi], sizes, 0, None);
        if f is Some {
            f
        } else {
            first_find(o, depth, p, qps, qi + 1)
        }
    }
}

/// What is found at a depth.
pub open spec fn found_at(o: Oracle, x: X264, depth: u32) -> Option<Found> {
    first_find(o, depth, params_of(x, depth), best_qps((o.scores)(depth)), 0)
}

/// What a search finds: a video of one depth decodes cleanly with the other too,
/// but not as smoothly.
pub open spec fn geometry_of(o: Oracle, x: X264) -> Option<Found> {
    smoother(found_at(o, x, 8), found_at(o, x, 10))
}

/// Where a search stands: what it asks, and what it has yet to try.
#[verifier::ext_equal]
pub struct Standing {
    /// What it wants to know.
    pub asks: Ask,
    /// The claims to try next for the size at hand.
    pub later_refs: Seq<u32>,
    /// The sizes to try next with the quantiser at hand.
    pub later_sizes: Seq<(u32, u32)>,
    /// The quantisers to try next at the depth at hand.
    pub later_qps: Seq<i32>,
    /// The largest find with the quantiser at hand.
    pub best: Option<Found>,
    /// The smoothest find of the depths that are done with.
    pub found: Option<Found>,
}

/// A search that asks `asks` and has nothing to try before it knows.
pub open spec fn standing(asks: Ask, found: Option<Found>) -> Standing {
    Standing {
        asks,
        later_refs: Seq::empty(),
        later_sizes: Seq::empty(),
        later_qps: Seq::empty(),
        best: None,
        found,
    }
}

/// A depth has found `new`: the next depth is searched.
pub open spec fn past_depth(depth: u32, found: Option<Found>, new: Option<Found>) -> Standing {
    standing(after_depth(depth), smoother(found, new))
}

/// The first of the quantisers `qps` is tried; without one, the depth has found
/// nothing.
pub open spec fn at_qp(depth: u32, qps: Seq<i32>, found: Option<Found>) -> Standing {
    if qps.len() == 0 {
        past_depth(depth, found, None)
    } else {
        Standing {
            later_qps: qps.skip(1),
            ..standing(Ask::Widths { depth, qp: qps[0] }, found)
        }
    }
}

/// The first of `sizes` is tried with its first claim. Without one, the depth has
/// found the best size, or there is none and the next of the quantisers `qps` is
/// tried.
pub open spec fn at_size(
    depth: u32,
    p: Params,
    qp: i32,
    sizes: Seq<(u32, u32)>,
    qps: Seq<i32>,
    best: Option<Found>,
    found: Option<Found>,
) -> Standing {
    if sizes.len() > 0 {
        Standing {
            asks: Ask::Validate {
                geo: Geo { depth, qp, w_mb: sizes[0].0, h_mb: sizes[0].1 },
                params: with_refs(p, ref_choices(p.num_ref)[0]),
            },
            later_refs: ref_choices(p.num_ref).skip(1),
            later_sizes: sizes.skip(1),
            later_qps: qps,
            best,
            found,
        }
    } else if best is Some {
        past_depth(depth, found, best)
    } else {
        at_qp(depth, qps, found)
    }
}

/// Where a search stands that stood at `s` and was told `scores`.
pub open spec fn after_scores(s: Standing, scores: Seq<(u32, i32)>) -> Standing {
    at_qp(s.asks->Quantisers_depth, best_qps(scores), s.found)
}

/// Where a search stands that stood at `s` and was told `sizes`: they are tried
/// from the smallest width on.
pub open spec fn after_sizes(x: X264, s: Standing, sizes: Seq<(u32, u32)>) -> Standing {
    let depth = s.asks->Widths_depth;
    at_size(
        depth,
        params_of(x, depth),
        s.asks->Widths_qp,
        sizes.sort_by(size_order()),
        s.later_qps,
        None,
        s.found,
    )
}

/// Where a search stands that stood at `s` and was told `verdict`: a guess that did
/// not decode is tried with its next claim; else comes the next size.
pub open spec fn after_verdict(x: X264, s: Standing, verdict: Option<u64>) -> Standing {
    let geo = s.asks->geo;
    let params = s.asks->params;
    if verdict is None && s.later_refs.len() > 0 {
        Standing {
            asks: Ask::Validate { geo, params: with_refs(params, s.later_refs[0]) },
            later_refs: s.later_refs.skip(1),
            ..s
        }
    } else {
        let new = match verdict {
            Some(roughness) => Some(Found { geo, params, roughness }),
            None => None,
        };
        at_size(
            geo.depth,
            params_of(x, geo.depth),
            geo.qp,
            s.later_sizes,
            s.later_qps,
            larger(s.best, new),
            s.found,
        )
    }
}

/// The stage of a search.
#[derive(Clone, Copy, Debug, PartialEq, Eq, Structural)]
enum Stage {
    Quantisers,
    Widths,
    Validate,
    Over,
}

/// A search for depth, quantiser and size.
pub struct Search {
    x: X264,
    stage: Stage,
    depth: u32,
    p: Params,
    qps: Vec<i32>,
    qi: usize,
    sizes: Vec<(u32, u32)>,
    si: usize,
    ri: usize,
    best: Option<Found>,
    found: Option<Found>,
}

impl View for Search {
    type V = Standing;

    closed spec fn view(&self) -> Standing {
        match self.stage {
            Stage::Quantisers => standing(Ask::Quantisers { depth: self.depth }, self.found),
            Stage::Widths => at_qp(self.depth, self.qps@.skip(self.qi as int), self.found),
            Stage::Validate => Standing {
                asks: Ask::Validate {
                    geo: self.geo(),
                    params: with_refs(self.p, ref_choices(self.p.num_ref)[self.ri as int]),
                },
                later_refs: ref_choices(self.p.num_ref).skip(self.ri + 1),
                later_sizes: self.sizes@.skip(self.si + 1),
                later_qps: self.qps@.skip(self.qi + 1),
                best: self.best,
                found: self.found,
            },
            Stage::Over => standing(Ask::Nothing, self.found),
        }
    }
}

impl Search {
    /// What holds at any stage.
    closed spec fn sound(&self) -> bool {
        &&& self.x.derivable_spec()
        &&& self.depth == 8 || self.depth == 10
        &&& self.p == params_of(self.x, self.depth)
        &&& self.p.wf()
        &&& forall|i: int| 0 <= i < self.qps@.len() ==> 0 <= #[trigger] self.qps@[i] <= MAX_QP
        &&& forall|i: int| 0 <= i < self.sizes@.len() ==> is_size(#[trigger] self.sizes@[i])
        &&& self.best matches Some(f) ==> f.wf()
        &&& self.found matches Some(f) ==> f.wf()
    }

    /// The search is in a state that it can be in.
    pub closed spec fn wf(&self) -> bool {
        &&& self.sound()
        &&& self.stage == Stage::Widths ==> self.qi < self.qps@.len()
        &&& self.stage == Stage::Validate ==> {
            &&& self.qi < self.qps@.len()
            &&& self.si < self.sizes@.len()
            &&& self.ri < ref_choices(self.p.num_ref).len()
        }
    }

    /// The settings of the stream that is searched.
    pub closed spec fn settings(&self) -> X264 {
        self.x
    }

    /// What the search wants to know.
    pub open spec fn asks(&self) -> Ask {
        self@.asks
    }

    closed spec fn geo(&self) -> Geo {
        let s = self.sizes@[self.si as int];
        Geo { depth: self.depth, qp: self.qps@[self.qi as int], w_mb: s.0, h_mb: s.1 }
    }

    /// What the search will find, if the answers are those of `o`.
    pub closed spec fn outcome(&self, o: Oracle) -> Option<Found> {
        match self.stage {
            Stage::Over => self.found,
            Stage::Quantisers => self.ended(o, found_at(o, self.x, self.depth)),
            Stage::Widths => self.ended(
                o,
                first_find(o, self.depth, self.p, self.qps@, self.qi as int),
            ),
            Stage::Validate => {
                let best = largest_valid(
                    o,
                    self.depth,
                    self.p,
                    self.qps@[self.qi as int],
                    self.sizes@,
                    self.si + 1,
                    larger(self.best, first_valid(o, self.geo(), self.p, self.ri as int)),
                );
                self.ended(
                    o,
                    if best is Some {
                        best
                    } else {
                        first_find(o, self.depth, self.p, self.qps@, self.qi + 1)
                    },
                )
            },
        }
    }

    /// What the search will find, once this depth has found `new`.
    closed spec fn ended(&self, o: Oracle, new: Option<Found>) -> Option<Found> {
        let found = smoother(self.found, new);
        if self.depth == 8 {
            smoother(found, found_at(o, self.x, 10))
        } else {
            found
        }
    }

    /// How much of the search is left: depths, quantisers, sizes and claims. Of
    /// the sizes of a quantiser nothing is known before they are asked for.
    pub closed spec fn left(&self) -> (int, int, int, int) {
        let depths = if self.stage == Stage::Over {
            0int
        } else if self.depth == 8 {
            4
        } else {
            2
        };
        match self.stage {
            Stage::Over => (0, 0, 0, 0),
            Stage::Quantisers => (depths, 0, 0, 0),
            Stage::Widths => (depths - 1, 2 * (self.qps@.len() - self.qi), 0, 0),
            Stage::Validate => (
                depths - 1,
                2 * (self.qps@.len() - self.qi) - 1,
                self.sizes@.len() - self.si,
                ref_choices(self.p.num_ref).len() - self.ri,
            ),
        }
    }

    /// A search for a stream with the settings `x`.
    pub fn start(x: &X264) -> (s: Self)
        requires
            x.derivable_spec(),
        ensures
            s.wf(),
            s.settings() == *x,
            s@ == standing(Ask::Quantisers { depth: 8 }, None),
            forall|o: Oracle| #[trigger] s.outcome(o) == geometry_of(o, *x),
    {
        Search {
            x: *x,
            stage: Stage::Quantisers,
            depth: 8,
            p: crate::x264::derive(x, 8),
            qps: Vec::new(),
            qi: 0,
            sizes: Vec::new(),
            si: 0,
            ri: 0,
            best: None,
            found: None,
        }
    }

    /// What the search wants to know.
    pub fn ask(&self) -> (a: Ask)
        requires
            self.wf(),
        ensures
            a == self.asks(),
            a matches Ask::Quantisers { depth } ==> depth == 8 || depth == 10,
            a matches Ask::Widths { depth, qp } ==> (depth == 8 || depth == 10) && 0 <= qp
                <= MAX_QP,
            a matches Ask::Validate { geo, params } ==> (geo.depth == 8 || geo.depth == 10) && 0
                <= geo.qp <= MAX_QP && is_size((geo.w_mb, geo.h_mb)) && params.wf(),
    {
        match self.stage {
            Stage::Quantisers => Ask::Quantisers { depth: self.depth },
            Stage::Widths => Ask::Widths { depth: self.depth, qp: self.qps[self.qi] },
            Stage::Validate => {
                let (w_mb, h_mb): (u32, u32) = self.sizes[self.si];
                assert(is_size(self.sizes@[self.si as int]));
                let geo = Geo { depth: self.depth, qp: self.qps[self.qi], w_mb, h_mb };
                let num_ref: u32 = choice(self.p.num_ref, self.ri);
                Ask::Validate { geo, params: Params { num_ref, ..self.p } }
            },
            Stage::Over => Ask::Nothing,
        }
    }

    /// This depth has found `new`: goes on with the next one.
    fn end_depth(&mut self, new: Option<Found>)
        requires
            old(self).sound(),
            new matches Some(f) ==> f.wf(),
        ensures
            final(self).wf(),
            final(self).stage == Stage::Quantisers || final(self).stage == Stage::Over,
            old(self).depth == 8 <==> final(self).stage == Stage::Quantisers,
            final(self).stage == Stage::Quantisers ==> final(self).depth == 10,
            final(self)@ == past_depth(old(self).depth, old(self).found, new),
            final(self).x == old(self).x,
            forall|o: Oracle| #[trigger]
                final(self).outcome(o) == old(self).ended(o, new),
    {
        match (self.found, new) {
            (Some(b), Some(n)) => {
                if n.roughness < b.roughness {
                    self.found = new;
                }
            },
            (None, _) => {
                self.found = new;
            },
            (_, None) => {},
        }
        if self.depth == 8 {
            self.depth = 10;
            self.p = crate::x264::derive(&self.x, 10);
            self.stage = Stage::Quantisers;
        } else {
            self.stage = Stage::Over;
        }
    }

    /// Goes on with the quantiser at `qi`, if there is one.
    fn enter_qp(&mut self)
        requires
            old(self).sound(),
            old(self).qi <= old(self).qps@.len(),
        ensures
            final(self).wf(),
            old(self).qi < old(self).qps@.len() ==> final(self).stage == Stage::Widths
                && final(self).depth == old(self).depth && final(self).qi == old(self).qi
                && final(self).qps@ == old(self).qps@,
            old(self).qi == old(self).qps@.len() ==> (final(self).stage == Stage::Quantisers
                && old(self).depth == 8 && final(self).depth == 10) || (final(self).stage
                == Stage::Over && old(self).depth == 10),
            final(self)@ == at_qp(
                old(self).depth,
                old(self).qps@.skip(old(self).qi as int),
                old(self).found,
            ),
            final(self).x == old(self).x,
            forall|o: Oracle| #[trigger]
                final(self).outcome(o) == old(self).ended(
                    o,
                    first_find(
                        o,
                        old(self).depth,
                        old(self).p,
                        old(self).qps@,
                        old(self).qi as int,
                    ),
                ),
    {
        if self.qi < self.qps.len() {
            self.stage = Stage::Widths;
        } else {
            self.end_depth(None);
        }
    }

    /// Goes on with the size at `si`, if there is one.
    fn enter_size(&mut self)
        requires
            old(self).sound(),
            old(self).qi < old(self).qps@.len(),
            old(self).si <= old(self).sizes@.len(),
            old(self).ri == 0,
        ensures
            final(self).wf(),
            old(self).si < old(self).sizes@.len() ==> final(self).stage == Stage::Validate
                && final(self).depth == old(self).depth && final(self).qi == old(self).qi
                && final(self).qps@ == old(self).qps@ && final(self).si == old(self).si
                && final(self).sizes@ == old(self).sizes@ && final(self).ri == 0,
            old(self).si == old(self).sizes@.len() ==> (final(self).stage == Stage::Quantisers
                && old(self).depth == 8 && final(self).depth == 10) || (final(self).stage
                == Stage::Over && old(self).depth == 10) || (final(self).stage == Stage::Widths
                && final(self).depth == old(self).depth && final(self).qi == old(self).qi + 1
                && final(self).qps@ == old(self).qps@),
            final(self)@ == at_size(
                old(self).depth,
                old(self).p,
                old(self).qps@[old(self).qi as int],
                old(self).sizes@.skip(old(self).si as int),
                old(self).qps@.skip(old(self).qi + 1),
                old(self).best,
                old(self).found,
            ),
            final(self).x == old(self).x,
            forall|o: Oracle| #[trigger]
                final(self).outcome(o) == old(self).ended(o, old(self).find_from_size(o)),
    {
        if self.si < self.sizes.len() {
            self.stage = Stage::Validate;
            proof {
                assert forall|o: Oracle| #[trigger] self.outcome(o) == old(self).ended(
                    o,
                    old(self).find_from_size(o),
                ) by {}
            }
        } else if self.best.is_some() {
            let best: Option<Found> = self.best;
            self.end_depth(best);
        } else {
            let n: usize = self.qps.len();
            assert(self.qi < n);
            self.qi = self.qi + 1;
            self.enter_qp();
        }
    }

    /// What this depth finds, counted from the size at `si` on.
    closed spec fn find_from_size(&self, o: Oracle) -> Option<Found> {
        let best = largest_valid(
            o,
            self.depth,
            self.p,
            self.qps@[self.qi as int],
            self.sizes@,
            self.si as int,
            self.best,
        );
        if best is Some {
            best
        } else {
            first_find(o, self.depth, self.p, self.qps@, self.qi + 1)
        }
    }

    /// Takes in how far decoding got, and with which quantiser.
    pub fn take_scores(&mut self, scores: &Vec<(u32, i32)>)
        requires
            old(self).wf(),
            old(self).asks() is Quantisers,
            forall|i: int| 0 <= i < scores@.len() ==> 0 <= (#[trigger] scores@[i]).1 <= MAX_QP,
        ensures
            final(self).wf(),
            is_less(final(self).left(), old(self).left()),
            final(self).settings() == old(self).settings(),
            final(self)@ == after_scores(old(self)@, scores@),
            final(self).asks() == if best_qps(scores@).len() > 0 {
                Ask::Widths {
                    depth: old(self).asks()->Quantisers_depth,
                    qp: best_qps(scores@)[0],
                }
            } else {
                after_depth(old(self).asks()->Quantisers_depth)
            },
            forall|o: Oracle|
                (o.scores)(old(self).asks()->Quantisers_depth) == scores@
                    ==> (#[trigger] final(self).outcome(o)) == old(self).outcome(o),
    {
        let all: Vec<(u32, i32)> = sorted(scores, score_leads, Ghost(score_order()));
        proof {
            lemma_sorted_holds(scores@, all@);
        }
        let n: usize = if all.len() < TRIED_QPS {
            all.len()
        } else {
            TRIED_QPS
        };
        let mut qps: Vec<i32> = Vec::new();
        let mut i: usize = 0;
        while i < n
            invariant
                i <= n <= all@.len(),
                qps@.len() == i,
                forall|k: int| 0 <= k < i ==> #[trigger] qps@[k] == all@[k].1,
            decreases n - i,
        {
            qps.push(all[i].1);
            i = i + 1;
        }
        assert(qps@ =~= best_qps(scores@));
        proof {
            assert forall|k: int| 0 <= k < qps@.len() implies 0 <= #[trigger] qps@[k] <= MAX_QP by {
                assert(all@.contains(all@[k]));
                assert(scores@.contains(all@[k]));
                let j = scores@.index_of(all@[k]);
                assert(0 <= scores@[j].1 <= MAX_QP);
            }
        }
        self.qps = qps;
        self.qi = 0;
        self.enter_qp();
    }

    /// Takes in which widths can be right, with the heights that they tell.
    pub fn take_sizes(&mut self, sizes: &Vec<(u32, u32)>)
        requires
            old(self).wf(),
            old(self).asks() is Widths,
            forall|i: int| 0 <= i < sizes@.len() ==> is_size(#[trigger] sizes@[i]),
        ensures
            final(self).wf(),
            is_less(final(self).left(), old(self).left()),
            final(self).settings() == old(self).settings(),
            final(self)@ == after_sizes(old(self).settings(), old(self)@, sizes@),
            final(self).asks() == ({
                let depth = old(self).asks()->Widths_depth;
                let p = params_of(old(self).settings(), depth);
                let first = sizes@.sort_by(size_order())[0];
                if sizes@.len() > 0 {
                    Ask::Validate {
                        geo: Geo {
                            depth,
                            qp: old(self).asks()->Widths_qp,
                            w_mb: first.0,
                            h_mb: first.1,
                        },
                        params: with_refs(p, ref_choices(p.num_ref)[0]),
                    }
                } else if old(self)@.later_qps.len() > 0 {
                    Ask::Widths { depth, qp: old(self)@.later_qps[0] }
                } else {
                    after_depth(depth)
                }
            }),
            forall|o: Oracle|
                (o.sizes)(old(self).asks()->Widths_depth, old(self).asks()->Widths_qp) == sizes@
                    ==> (#[trigger] final(self).outcome(o)) == old(self).outcome(o),
    {
        let all: Vec<(u32, u32)> = sorted(sizes, size_leads, Ghost(size_order()));
        proof {
            lemma_sorted_holds(sizes@, all@);
            assert forall|k: int| 0 <= k < all@.len() implies is_size(#[trigger] all@[k]) by {
                assert(all@.contains(all@[k]));
                assert(sizes@.contains(all@[k]));
                let j = sizes@.index_of(all@[k]);
                assert(is_size(sizes@[j]));
            }
        }
        self.sizes = all;
        self.si = 0;
        self.ri = 0;
        self.best = None;
        self.enter_size();
    }

    /// Takes in how rough the pictures of the guess are, if it decodes cleanly.
    pub fn take_verdict(&mut self, verdict: Option<u64>)
        requires
            old(self).wf(),
            old(self).asks() is Validate,
        ensures
            final(self).wf(),
            is_less(final(self).left(), old(self).left()),
            final(self).settings() == old(self).settings(),
            final(self)@ == after_verdict(old(self).settings(), old(self)@, verdict),
            final(self).asks() == ({
                let s = old(self)@;
                let geo = s.asks->geo;
                let p = params_of(old(self).settings(), geo.depth);
                if verdict is None && s.later_refs.len() > 0 {
                    Ask::Validate { geo, params: with_refs(p, s.later_refs[0]) }
                } else if s.later_sizes.len() > 0 {
                    let (w_mb, h_mb) = s.later_sizes[0];
                    Ask::Validate {
                        geo: Geo { w_mb, h_mb, ..geo },
                        params: with_refs(p, ref_choices(p.num_ref)[0]),
                    }
                } else if verdict is None && s.best is None && s.later_qps.len() > 0 {
                    Ask::Widths { depth: geo.depth, qp: s.later_qps[0] }
                } else {
                    after_depth(geo.depth)
                }
            }),
            forall|o: Oracle|
                (o.verdict)(old(self).asks()->geo, old(self).asks()->params) == verdict
                    ==> (#[trigger] final(self).outcome(o)) == old(self).outcome(o),
    {
        let n: usize = self.sizes.len();
        assert(self.si < n);
        assert(is_size(self.sizes@[self.si as int]));
        let (w_mb, h_mb): (u32, u32) = self.sizes[self.si];
        let geo = Geo { depth: self.depth, qp: self.qps[self.qi], w_mb, h_mb };
        let num_ref: u32 = choice(self.p.num_ref, self.ri);
        match verdict {
            Some(roughness) => {
                let new = Found { geo, params: Params { num_ref, ..self.p }, roughness };
                let take = match self.best {
                    Some(b) => {
                        assert(b.area() <= u64::MAX) by (nonlinear_arith)
                            requires
                                b.area() == b.geo.w_mb * b.geo.h_mb,
                        ;
                        assert(new.area() <= u64::MAX) by (nonlinear_arith)
                            requires
                                new.area() == new.geo.w_mb * new.geo.h_mb,
                        ;
                        w_mb as u64 * h_mb as u64 > b.geo.w_mb as u64 * b.geo.h_mb as u64
                    },
                    None => true,
                };
                if take {
                    self.best = Some(new);
                }
                self.si = self.si + 1;
                self.ri = 0;
                let ghost mid = *self;
                self.enter_size();
                proof {
                    assert(mid.best == larger(old(self).best, Some(new)));
                    assert forall|o: Oracle|
                        (o.verdict)(old(self).asks()->geo, old(self).asks()->params)
                            == verdict implies (#[trigger] self.outcome(o)) == old(self).outcome(
                        o,
                    ) by {
                        assert(first_valid(
                            o,
                            old(self).geo(),
                            old(self).p,
                            old(self).ri as int,
                        ) == Some(new));
                        assert(self.outcome(o) == mid.ended(o, mid.find_from_size(o)));
                    }
                }
            },
            None => {
                self.ri = self.ri + 1;
                let ghost mid = *self;
                let last = self.ri == choices(self.p.num_ref);
                if last {
                    self.si = self.si + 1;
                    self.ri = 0;
                    self.enter_size();
                }
                proof {
                    assert forall|o: Oracle|
                        (o.verdict)(old(self).asks()->geo, old(self).asks()->params)
                            == verdict implies (#[trigger] self.outcome(o)) == old(self).outcome(
                        o,
                    ) by {
                        assert(first_valid(o, old(self).geo(), old(self).p, old(self).ri as int)
                            == first_valid(o, old(self).geo(), old(self).p, mid.ri as int));
                        if last {
                            assert(first_valid(
                                o,
                                old(self).geo(),
                                old(self).p,
                                mid.ri as int,
                            ) is None);
                        } else {
                            assert(mid.geo() == old(self).geo());
                        }
                    }
                }
            },
        }
    }

    /// The guess that the search ended with.
    pub fn finish(self) -> (r: Result<Found, Fault>)
        requires
            self.wf(),
            self.asks() is Nothing,
        ensures
            forall|o: Oracle| (r matches Ok(f) ==> #[trigger] self.outcome(o) == Some(f)),
            forall|o: Oracle| r is Err ==> (#[trigger] self.outcome(o)) is None,
            r == match self@.found {
                Some(f) => Ok(f),
                None => Err(Fault::NoGeometry),
            },
            r matches Ok(f) ==> f.wf(),
    {
        match self.found {
            Some(f) => Ok(f),
            None => Err(Fault::NoGeometry),
        }
    }
}

/// Whether score `a` is tried no later than `b`.
fn score_leads(a: (u32, i32), b: (u32, i32)) -> (r: bool)
    ensures
        r == score_order()(a, b),
{
    a.0 > b.0 || (a.0 == b.0 && a.1 >= b.1)
}

/// Whether size `a` is tried no later than `b`.
fn size_leads(a: (u32, u32), b: (u32, u32)) -> (r: bool)
    ensures
        r == size_order()(a, b),
{
    a.0 < b.0 || (a.0 == b.0 && a.1 <= b.1)
}

/// How many claims there are.
fn choices(num_ref: u32) -> (n: usize)
    ensures
        n == ref_choices(num_ref).len(),
{
    if num_ref == 8 {
        2
    } else {
        3
    }
}

/// Claim number `i`.
fn choice(num_ref: u32, i: usize) -> (r: u32)
    requires
        i < ref_choices(num_ref).len(),
    ensures
        r == ref_choices(num_ref)[i as int],
{
    let skip: usize = if num_ref == 8 {
        1
    } else {
        0
    };
    if i + skip == 0 {
        num_ref
    } else if i + skip == 1 {
        8
    } else {
        16
    }
}

/// What sorting gives is what it was given.
proof fn lemma_sorted_holds<T>(s: Seq<T>, r: Seq<T>)
    requires
        r.to_multiset() == s.to_multiset(),
    ensures
        forall|x: T| r.contains(x) ==> #[trigger] s.contains(x),
{
    broadcast use vstd::seq_lib::group_to_multiset_ensures;

    assert forall|x: T| r.contains(x) implies #[trigger] s.contains(x) by {
        assert(r.to_multiset().count(x) > 0);
        assert(s.to_multiset().count(x) > 0);
    }
}

/// What is asked when a depth is done with.
pub open spec fn after_depth(depth: u32) -> Ask {
    if depth == 8 {
        Ask::Quantisers { depth: 10 }
    } else {
        Ask::Nothing
    }
}

/// A size that can be guessed.
pub open spec fn is_size(s: (u32, u32)) -> bool {
    1 <= s.0 <= MAX_W_MB && 1 <= s.1 <= TEST_H_MB
}

/// `a` is less than `b`, the first difference deciding.
pub open spec fn is_less(a: (int, int, int, int), b: (int, int, int, int)) -> bool {
    ||| a.0 < b.0
    ||| a.0 == b.0 && a.1 < b.1
    ||| a.0 == b.0 && a.1 == b.1 && a.2 < b.2
    ||| a.0 == b.0 && a.1 == b.1 && a.2 == b.2 && a.3 < b.3
}

/// What is left of a search never falls below nothing. Each answer leaves less, so
/// every search comes to an end.
pub proof fn law_search_ends(s: Search)
    requires
        s.wf(),
    ensures
        s.left().0 >= 0,
        s.left().1 >= 0,
        s.left().2 >= 0,
        s.left().3 >= 0,
{
}

proof fn lemma_first_valid(o: Oracle, geo: Geo, p: Params, ri: int)
    ensures
        first_valid(o, geo, p, ri) matches Some(f) ==> {
            &&& f.geo == geo
            &&& f.params == with_refs(p, f.params.num_ref)
            &&& ref_choices(p.num_ref).contains(f.params.num_ref)
            &&& (o.verdict)(f.geo, f.params) == Some(f.roughness)
        },
    decreases ref_choices(p.num_ref).len() - ri,
{
    let refs = ref_choices(p.num_ref);
    if 0 <= ri < refs.len() {
        lemma_first_valid(o, geo, p, ri + 1);
        assert(refs.contains(refs[ri]));
    }
}

/// `f` decodes cleanly, and claims no more than the options leave open.
pub open spec fn decodes(o: Oracle, x: X264, f: Found) -> bool {
    let p = params_of(x, f.geo.depth);
    &&& (o.verdict)(f.geo, f.params) == Some(f.roughness)
    &&& f.params == with_refs(p, f.params.num_ref)
    &&& ref_choices(p.num_ref).contains(f.params.num_ref)
}

proof fn lemma_largest_valid(
    o: Oracle,
    x: X264,
    depth: u32,
    qp: i32,
    sizes: Seq<(u32, u32)>,
    si: int,
    best: Option<Found>,
)
    requires
        0 <= si,
        best matches Some(b) ==> decodes(o, x, b) && b.geo.depth == depth && b.geo.qp == qp,
    ensures
        ({
            let p = params_of(x, depth);
            let r = largest_valid(o, depth, p, qp, sizes, si, best);
            &&& r matches Some(f) ==> decodes(o, x, f) && f.geo.depth == depth && f.geo.qp == qp
            &&& best matches Some(b) ==> r is Some && b.area() <= r->0.area()
            &&& forall|i: int|
                si <= i < sizes.len() ==> ((#[trigger] first_valid(
                    o,
                    Geo { depth, qp, w_mb: sizes[i].0, h_mb: sizes[i].1 },
                    p,
                    0,
                )) matches Some(f) ==> r is Some && f.area() <= r->0.area())
        }),
    decreases sizes.len() - si,
{
    let p = params_of(x, depth);
    if si < sizes.len() {
        let geo = Geo { depth, qp, w_mb: sizes[si].0, h_mb: sizes[si].1 };
        let new = first_valid(o, geo, p, 0);
        lemma_first_valid(o, geo, p, 0);
        lemma_largest_valid(o, x, depth, qp, sizes, si + 1, larger(best, new));
        let r = largest_valid(o, depth, p, qp, sizes, si, best);
        assert forall|i: int| si <= i < sizes.len() implies ((#[trigger] first_valid(
            o,
            Geo { depth, qp, w_mb: sizes[i].0, h_mb: sizes[i].1 },
            p,
            0,
        )) matches Some(f) ==> r is Some && f.area() <= r->0.area()) by {
            if i == si {
                assert(new is Some ==> larger(best, new) is Some);
            }
        }
    }
}

/// Of the sizes that are tried with a quantiser, no size that decodes cleanly is
/// larger than the one found.
pub proof fn law_found_is_largest(
    o: Oracle,
    x: X264,
    depth: u32,
    qp: i32,
    sizes: Seq<(u32, u32)>,
    i: int,
)
    requires
        0 <= i < sizes.len(),
    ensures
        first_valid(
            o,
            Geo { depth, qp, w_mb: sizes[i].0, h_mb: sizes[i].1 },
            params_of(x, depth),
            0,
        ) matches Some(f) ==> {
            let r = largest_valid(o, depth, params_of(x, depth), qp, sizes, 0, None);
            r is Some && f.area() <= r->0.area()
        },
{
    lemma_largest_valid(o, x, depth, qp, sizes, 0, None);
}

proof fn lemma_first_find(o: Oracle, x: X264, depth: u32, qps: Seq<i32>, qi: int)
    requires
        0 <= qi,
    ensures
        first_find(o, depth, params_of(x, depth), qps, qi) matches Some(f) ==> decodes(o, x, f)
            && f.geo.depth == depth && qps.contains(f.geo.qp),
    decreases qps.len() - qi,
{
    if qi < qps.len() {
        let sizes = (o.sizes)(depth, qps[qi]).sort_by(size_order());
        lemma_largest_valid(o, x, depth, qps[qi], sizes, 0, None);
        lemma_first_find(o, x, depth, qps, qi + 1);
        assert(qps.contains(qps[qi]));
    }
}

/// What a search finds decodes cleanly, at 8 or 10 bits, and no smoother find was
/// made at the other depth.
pub proof fn law_found_decodes(o: Oracle, x: X264)
    ensures
        geometry_of(o, x) matches Some(f) ==> {
            &&& decodes(o, x, f)
            &&& f.geo.depth == 8 || f.geo.depth == 10
            &&& best_qps((o.scores)(f.geo.depth)).contains(f.geo.qp)
            &&& found_at(o, x, 8) matches Some(g) ==> f.roughness <= g.roughness
            &&& found_at(o, x, 10) matches Some(g) ==> f.roughness <= g.roughness
        },
        geometry_of(o, x) is None <==> found_at(o, x, 8) is None && found_at(o, x, 10) is None,
{
    lemma_first_find(o, x, 8, best_qps((o.scores)(8)), 0);
    lemma_first_find(o, x, 10, best_qps((o.scores)(10)), 0);
}

proof fn lemma_score_order()
    ensures
        total_ordering(score_order()),
{
}

proof fn lemma_size_order()
    ensures
        total_ordering(size_order()),
{
}

/// The order in which scores arrive does not matter, nor that of sizes.
pub proof fn law_arrival_does_not_matter(
    scores: Seq<(u32, i32)>,
    other_scores: Seq<(u32, i32)>,
    sizes: Seq<(u32, u32)>,
    other_sizes: Seq<(u32, u32)>,
)
    requires
        scores.to_multiset() == other_scores.to_multiset(),
        sizes.to_multiset() == other_sizes.to_multiset(),
    ensures
        best_qps(scores) == best_qps(other_scores),
        sizes.sort_by(size_order()) == other_sizes.sort_by(size_order()),
{
    lemma_score_order();
    lemma_size_order();
    scores.lemma_sort_by_ensures(score_order());
    other_scores.lemma_sort_by_ensures(score_order());
    lemma_sorted_unique(
        scores.sort_by(score_order()),
        other_scores.sort_by(score_order()),
        score_order(),
    );
    sizes.lemma_sort_by_ensures(size_order());
    other_sizes.lemma_sort_by_ensures(size_order());
    lemma_sorted_unique(
        sizes.sort_by(size_order()),
        other_sizes.sort_by(size_order()),
        size_order(),
    );
}

/// The claims that are tried: the number that the options suggest, then 8, then 16,
/// none twice in a row.
pub proof fn law_claims(num_ref: u32)
    ensures
        num_ref != 8 ==> ref_choices(num_ref) == seq![num_ref, 8u32, 16u32],
        num_ref == 8 ==> ref_choices(num_ref) == seq![8u32, 16u32],
{
}

/// The quantisers that are tried are those of the five best scores, the best first; of
/// equal scores the greater quantiser comes first. No score that is left out is better
/// than one that is tried.
pub proof fn law_best_quantisers_are_tried(scores: Seq<(u32, i32)>)
    ensures
        ({
            let s = scores.sort_by(score_order());
            let qps = best_qps(scores);
            &&& s.to_multiset() == scores.to_multiset()
            &&& qps.len() == if scores.len() < 5 {
                scores.len() as int
            } else {
                5
            }
            &&& forall|i: int| 0 <= i < qps.len() ==> #[trigger] qps[i] == s[i].1
            &&& forall|i: int, j: int|
                0 <= i < j < s.len() ==> (#[trigger] s[i]).0 > (#[trigger] s[j]).0 || (s[i].0
                    == s[j].0 && s[i].1 >= s[j].1)
        }),
{
    lemma_score_order();
    scores.lemma_sort_by_ensures(score_order());
    let s = scores.sort_by(score_order());
    assert(s.len() == scores.len()) by {
        broadcast use vstd::seq_lib::group_to_multiset_ensures;

        assert(s.to_multiset().len() == scores.to_multiset().len());
    }
    assert forall|i: int, j: int| 0 <= i < j < s.len() implies (#[trigger] s[i]).0 > (
    #[trigger] s[j]).0 || (s[i].0 == s[j].0 && s[i].1 >= s[j].1) by {
        assert(score_order()(s[i], s[j]));
    }
}

/// Sizes are tried by their width, the narrowest first; of equal widths the lowest.
pub proof fn law_sizes_are_tried_in_order(sizes: Seq<(u32, u32)>)
    ensures
        ({
            let s = sizes.sort_by(size_order());
            &&& s.to_multiset() == sizes.to_multiset()
            &&& forall|i: int, j: int|
                0 <= i < j < s.len() ==> (#[trigger] s[i]).0 < (#[trigger] s[j]).0 || (s[i].0
                    == s[j].0 && s[i].1 <= s[j].1)
        }),
{
    lemma_size_order();
    sizes.lemma_sort_by_ensures(size_order());
    let s = sizes.sort_by(size_order());
    assert forall|i: int, j: int| 0 <= i < j < s.len() implies (#[trigger] s[i]).0 < (
    #[trigger] s[j]).0 || (s[i].0 == s[j].0 && s[i].1 <= s[j].1) by {
        assert(size_order()(s[i], s[j]));
    }
}

/// What is found at a depth comes from the first of its quantisers with which any size
/// decodes; it is the first of the largest such sizes, with the first claim that decodes.
pub proof fn law_first_quantiser_that_finds(o: Oracle, x: X264, depth: u32, k: int)
    requires
        ({
            let qps = best_qps((o.scores)(depth));
            let p = params_of(x, depth);
            &&& 0 <= k < qps.len()
            &&& largest_valid(
                o,
                depth,
                p,
                qps[k],
                (o.sizes)(depth, qps[k]).sort_by(size_order()),
                0,
                None,
            ) is Some
            &&& forall|j: int|
                0 <= j < k ==> largest_valid(
                    o,
                    depth,
                    p,
                    #[trigger] qps[j],
                    (o.sizes)(depth, qps[j]).sort_by(size_order()),
                    0,
                    None,
                ) is None
        }),
    ensures
        ({
            let qps = best_qps((o.scores)(depth));
            found_at(o, x, depth) == largest_valid(
                o,
                depth,
                params_of(x, depth),
                qps[k],
                (o.sizes)(depth, qps[k]).sort_by(size_order()),
                0,
                None,
            )
        }),
{
    lemma_first_find_is(o, depth, params_of(x, depth), best_qps((o.scores)(depth)), 0, k);
}

proof fn lemma_first_find_is(
    o: Oracle,
    depth: u32,
    p: Params,
    qps: Seq<i32>,
    i: int,
    k: int,
)
    requires
        0 <= i <= k < qps.len(),
        largest_valid(
            o,
            depth,
            p,
            qps[k],
            (o.sizes)(depth, qps[k]).sort_by(size_order()),
            0,
            None,
        ) is Some,
        forall|j: int|
            i <= j < k ==> largest_valid(
                o,
                depth,
                p,
                #[trigger] qps[j],
                (o.sizes)(depth, qps[j]).sort_by(size_order()),
                0,
                None,
            ) is None,
    ensures
        first_find(o, depth, p, qps, i) == largest_valid(
            o,
            depth,
            p,
            qps[k],
            (o.sizes)(depth, qps[k]).sort_by(size_order()),
            0,
            None,
        ),
    decreases k - i,
{
    if i < k {
        assert(largest_valid(
            o,
            depth,
            p,
            qps[i],
            (o.sizes)(depth, qps[i]).sort_by(size_order()),
            0,
            None,
        ) is None);
        lemma_first_find_is(o, depth, p, qps, i + 1, k);
    }
}

/// A guess decodes with the first of its claims with which the decoder says so.
pub proof fn law_first_claim_that_decodes(o: Oracle, geo: Geo, p: Params, k: int)
    requires
        0 <= k < ref_choices(p.num_ref).len(),
        (o.verdict)(geo, with_refs(p, ref_choices(p.num_ref)[k])) is Some,
        forall|j: int|
            0 <= j < k ==> (o.verdict)(
                geo,
                with_refs(p, #[trigger] ref_choices(p.num_ref)[j]),
            ) is None,
    ensures
        first_valid(o, geo, p, 0) matches Some(f) && f.geo == geo && f.params.num_ref == ref_choices(
            p.num_ref,
        )[k] && Some(f.roughness) == (o.verdict)(geo, f.params) && f.params == (Params {
            num_ref: f.params.num_ref,
            ..p
        }),
{
    lemma_first_claim(o, geo, p, 0, k);
}

proof fn lemma_first_claim(o: Oracle, geo: Geo, p: Params, i: int, k: int)
    requires
        0 <= i <= k < ref_choices(p.num_ref).len(),
        (o.verdict)(geo, with_refs(p, ref_choices(p.num_ref)[k])) is Some,
        forall|j: int|
            i <= j < k ==> (o.verdict)(
                geo,
                with_refs(p, #[trigger] ref_choices(p.num_ref)[j]),
            ) is None,
    ensures
        first_valid(o, geo, p, i) matches Some(f) && f.geo == geo && f.params == with_refs(
            p,
            ref_choices(p.num_ref)[k],
        ) && Some(f.roughness) == (o.verdict)(geo, f.params),
    decreases k - i,
{
    if i < k {
        assert((o.verdict)(geo, with_refs(p, ref_choices(p.num_ref)[i])) is None);
        lemma_first_claim(o, geo, p, i + 1, k);
    }
}

/// Of two depths the smoother find counts; of equally smooth ones, that at 8 bits. What
/// one depth alone finds, counts.
pub proof fn law_smoother_depth_counts(o: Oracle, x: X264)
    ensures
        found_at(o, x, 10) is None ==> geometry_of(o, x) == found_at(o, x, 8),
        found_at(o, x, 8) is None ==> geometry_of(o, x) == found_at(o, x, 10),
        found_at(o, x, 8) matches Some(a) ==> (found_at(o, x, 10) matches Some(b) ==> {
            &&& a.roughness <= b.roughness ==> geometry_of(o, x) == Some(a)
            &&& a.roughness > b.roughness ==> geometry_of(o, x) == Some(b)
        }),
{
}

/// What size number `i` is found with, if it decodes.
pub open spec fn of_size(
    o: Oracle,
    depth: u32,
    p: Params,
    qp: i32,
    sizes: Seq<(u32, u32)>,
    i: int,
) -> Option<Found> {
    first_valid(o, Geo { depth, qp, w_mb: sizes[i].0, h_mb: sizes[i].1 }, p, 0)
}

/// Of the sizes that decode, the one with the most macroblocks is found, and of equally
/// large ones the first.
pub proof fn law_first_of_the_largest_is_found(
    o: Oracle,
    depth: u32,
    p: Params,
    qp: i32,
    sizes: Seq<(u32, u32)>,
    k: int,
)
    requires
        0 <= k < sizes.len(),
        of_size(o, depth, p, qp, sizes, k) is Some,
        forall|i: int|
            0 <= i < k ==> ((#[trigger] of_size(o, depth, p, qp, sizes, i)) is Some ==> sizes[i].0
                * sizes[i].1 < sizes[k].0 * sizes[k].1),
        forall|i: int|
            k < i < sizes.len() ==> ((#[trigger] of_size(o, depth, p, qp, sizes, i)) is Some
                ==> sizes[i].0 * sizes[i].1 <= sizes[k].0 * sizes[k].1),
    ensures
        largest_valid(o, depth, p, qp, sizes, 0, None) == of_size(o, depth, p, qp, sizes, k),
{
    lemma_largest_from(o, depth, p, qp, sizes, k, 0, None);
}

proof fn lemma_largest_from(
    o: Oracle,
    depth: u32,
    p: Params,
    qp: i32,
    sizes: Seq<(u32, u32)>,
    k: int,
    si: int,
    best: Option<Found>,
)
    requires
        0 <= k < sizes.len(),
        0 <= si <= sizes.len(),
        of_size(o, depth, p, qp, sizes, k) is Some,
        forall|i: int|
            0 <= i < k ==> ((#[trigger] of_size(o, depth, p, qp, sizes, i)) is Some ==> sizes[i].0
                * sizes[i].1 < sizes[k].0 * sizes[k].1),
        forall|i: int|
            k < i < sizes.len() ==> ((#[trigger] of_size(o, depth, p, qp, sizes, i)) is Some
                ==> sizes[i].0 * sizes[i].1 <= sizes[k].0 * sizes[k].1),
        si <= k ==> (best matches Some(b) ==> b.geo.w_mb * b.geo.h_mb < sizes[k].0 * sizes[k].1),
        si > k ==> best == of_size(o, depth, p, qp, sizes, k),
    ensures
        largest_valid(o, depth, p, qp, sizes, si, best) == of_size(o, depth, p, qp, sizes, k),
    decreases sizes.len() - si,
{
    let geo_k = Geo { depth, qp, w_mb: sizes[k].0, h_mb: sizes[k].1 };
    lemma_valid_is_of_its_size(o, geo_k, p, 0);
    if si < sizes.len() {
        let geo = Geo { depth, qp, w_mb: sizes[si].0, h_mb: sizes[si].1 };
        let new = first_valid(o, geo, p, 0);
        lemma_valid_is_of_its_size(o, geo, p, 0);
        assert(new == of_size(o, depth, p, qp, sizes, si));
        lemma_largest_from(o, depth, p, qp, sizes, k, si + 1, larger(best, new));
    }
}

proof fn lemma_valid_is_of_its_size(o: Oracle, geo: Geo, p: Params, ri: int)
    ensures
        first_valid(o, geo, p, ri) matches Some(f) ==> f.geo == geo,
    decreases ref_choices(p.num_ref).len() - ri,
{
    let refs = ref_choices(p.num_ref);
    if 0 <= ri < refs.len() && (o.verdict)(geo, with_refs(p, refs[ri])) is None {
        lemma_valid_is_of_its_size(o, geo, p, ri + 1);
    }
}

} // verus!
