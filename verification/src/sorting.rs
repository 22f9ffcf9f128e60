//! Sorting by a total order.

use vstd::prelude::*;
use vstd::relations::{sorted_by, total_ordering};
use vstd::seq_lib::lemma_sorted_unique;

verus! {

proof fn lemma_insert_multiset<T>(s: Seq<T>, at: int, x: T)
    requires
        0 <= at <= s.len(),
    ensures
        s.insert(at, x).to_multiset() == s.push(x).to_multiset(),
{
    broadcast use vstd::seq_lib::group_to_multiset_ensures;
    broadcast use vstd::multiset::group_multiset_axioms;

    let t = s.insert(at, x);
    assert(t.remove(at) =~= s);
    assert(t[at] == x);
    assert(t.contains(x));
    assert(t.to_multiset() =~= s.to_multiset().insert(x));
}

/// The items of `v` in the order that `leq` computes, which is `order`.
pub(crate) fn sorted<T: Copy, F: Fn(T, T) -> bool>(
    v: &Vec<T>,
    leq: F,
    Ghost(order): Ghost<spec_fn(T, T) -> bool>,
) -> (r: Vec<T>)
    requires
        total_ordering(order),
        forall|a: T, b: T| call_requires(leq, (a, b)),
        forall|a: T, b: T, c: bool| call_ensures(leq, (a, b), c) ==> c == order(a, b),
    ensures
        r@ == v@.sort_by(order),
        r@.len() == v@.len(),
        r@.to_multiset() == v@.to_multiset(),
{
    let mut r: Vec<T> = Vec::new();
    let mut i: usize = 0;
    assert(r@ =~= v@.take(0));
    while i < v.len()
        invariant
            i <= v@.len(),
            r@.len() == i,
            total_ordering(order),
            forall|a: T, b: T| call_requires(leq, (a, b)),
            forall|a: T, b: T, c: bool| call_ensures(leq, (a, b), c) ==> c == order(a, b),
            sorted_by(r@, order),
            r@.to_multiset() == v@.take(i as int).to_multiset(),
        decreases v@.len() - i,
    {
        let x: T = v[i];
        let mut at: usize = r.len();
        let mut going = true;
        while at > 0 && going
            invariant
                at <= r@.len(),
                total_ordering(order),
                forall|a: T, b: T| call_requires(leq, (a, b)),
                forall|a: T, b: T, c: bool| call_ensures(leq, (a, b), c) ==> c == order(a, b),
                forall|k: int| at <= k < r@.len() ==> !order(#[trigger] r@[k], x),
                !going ==> at > 0 && order(r@[at - 1], x),
            decreases at, if going { 1int } else { 0 },
        {
            if leq(r[at - 1], x) {
                going = false;
            } else {
                at = at - 1;
            }
        }
        let ghost before = r@;
        r.insert(at, x);
        proof {
            let now = r@;
            assert(now =~= before.insert(at as int, x));
            lemma_insert_multiset(before, at as int, x);
            assert(v@.take(i + 1) =~= v@.take(i as int).push(x));
            broadcast use vstd::seq_lib::group_to_multiset_ensures;

            assert(now.to_multiset() == v@.take(i + 1).to_multiset());
            assert forall|a: int, b: int| 0 <= a < b < now.len() implies #[trigger] order(
                now[a],
                now[b],
            ) by {
                let a0 = if a < at {
                    a
                } else {
                    a - 1
                };
                let b0 = if b < at {
                    b
                } else {
                    b - 1
                };
                if a == at {
                    assert(now[b] == before[b0]);
                    assert(!order(before[b0], x));
                    assert(order(x, before[b0]) || order(before[b0], x));
                } else if b == at {
                    assert(now[a] == before[a0]);
                    assert(order(before[at - 1], x));
                    if a < at - 1 {
                        assert(order(before[a0], before[at - 1]));
                    }
                } else {
                    assert(now[a] == before[a0] && now[b] == before[b0]);
                    assert(order(before[a0], before[b0]));
                }
            }
        }
        i = i + 1;
    }
    proof {
        assert(v@.take(i as int) =~= v@);
        v@.lemma_sort_by_ensures(order);
        lemma_sorted_unique(r@, v@.sort_by(order), order);
    }
    r
}

} // verus!
