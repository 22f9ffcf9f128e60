//! Emulation prevention: keeping start codes out of a NAL unit's payload.

use vstd::prelude::*;

verus! {

/// The length of the run of zeros that ends with `x`, where a run of `z` zeros
/// came before it.
pub open spec fn zero_run(z: nat, x: u8) -> nat {
    if x == 0 {
        z + 1
    } else {
        0
    }
}

/// `b` with a 3 put before every byte up to 3 that would follow two zeros,
/// where `z` zeros came before `b`.
pub open spec fn escaped(b: Seq<u8>, z: nat) -> Seq<u8>
    decreases b.len(),
{
    if b.len() == 0 {
        Seq::empty()
    } else if z >= 2 && b[0] <= 3 {
        seq![3u8, b[0]] + escaped(b.skip(1), zero_run(0, b[0]))
    } else {
        seq![b[0]] + escaped(b.skip(1), zero_run(z, b[0]))
    }
}

/// `b` without the 3s that follow two zeros, where `z` zeros came before `b`.
pub open spec fn unescaped(b: Seq<u8>, z: nat) -> Seq<u8>
    decreases b.len(),
{
    if b.len() == 0 {
        Seq::empty()
    } else if z >= 2 && b[0] == 3 {
        unescaped(b.skip(1), 0)
    } else {
        seq![b[0]] + unescaped(b.skip(1), zero_run(z, b[0]))
    }
}

/// Dropping bytes makes nothing longer.
pub proof fn lemma_unescaped_len(b: Seq<u8>, z: nat)
    ensures
        unescaped(b, z).len() <= b.len(),
    decreases b.len(),
{
    if b.len() > 0 {
        if z >= 2 && b[0] == 3 {
            lemma_unescaped_len(b.skip(1), 0);
        } else {
            lemma_unescaped_len(b.skip(1), zero_run(z, b[0]));
        }
    }
}

/// Raw payload to NAL payload: inserts the emulation prevention bytes.
pub fn escape(b: &[u8]) -> (o: Vec<u8>)
    ensures
        o@ == escaped(b@, 0),
{
    let mut o: Vec<u8> = Vec::new();
    let mut z: usize = 0;
    let mut i: usize = 0;
    assert(b@.skip(0) =~= b@);
    while i < b.len()
        invariant
            i <= b.len(),
            z <= i,
            o@ + escaped(b@.skip(i as int), z as nat) == escaped(b@, 0),
        decreases b.len() - i,
    {
        let ghost rest = b@.skip(i as int);
        let ghost before = o@;
        let ghost run = z as nat;
        assert(rest.skip(1) =~= b@.skip(i + 1));
        let x: u8 = b[i];
        if z >= 2 && x <= 3 {
            o.push(3);
            z = 0;
        }
        o.push(x);
        z = if x == 0 { z + 1 } else { 0 };
        assert(o@ + escaped(rest.skip(1), z as nat) =~= before + escaped(rest, run));
        i = i + 1;
    }
    assert(o@ + escaped(b@.skip(i as int), z as nat) =~= o@);
    o
}

/// NAL payload to raw payload: drops the emulation prevention bytes.
pub fn unescape(b: &[u8]) -> (o: Vec<u8>)
    ensures
        o@ == unescaped(b@, 0),
{
    let mut o: Vec<u8> = Vec::new();
    let mut z: usize = 0;
    let mut i: usize = 0;
    assert(b@.skip(0) =~= b@);
    while i < b.len()
        invariant
            i <= b.len(),
            z <= i,
            o@ + unescaped(b@.skip(i as int), z as nat) == unescaped(b@, 0),
        decreases b.len() - i,
    {
        let ghost rest = b@.skip(i as int);
        let ghost before = o@;
        let ghost run = z as nat;
        assert(rest.skip(1) =~= b@.skip(i + 1));
        let x: u8 = b[i];
        i = i + 1;
        if z >= 2 && x == 3 {
            z = 0;
        } else {
            o.push(x);
            z = if x == 0 { z + 1 } else { 0 };
        }
        assert(o@ + unescaped(rest.skip(1), z as nat) =~= before + unescaped(rest, run));
    }
    assert(o@ + unescaped(b@.skip(i as int), z as nat) =~= o@);
    o
}

/// Unescaping takes back exactly what escaping put in.
pub proof fn law_escape_round_trip(b: Seq<u8>)
    ensures
        unescaped(escaped(b, 0), 0) == b,
{
    lemma_round_trip(b, 0);
}

proof fn lemma_round_trip(b: Seq<u8>, z: nat)
    ensures
        unescaped(escaped(b, z), z) == b,
    decreases b.len(),
{
    if b.len() > 0 {
        let e = escaped(b, z);
        if z >= 2 && b[0] <= 3 {
            let tail = escaped(b.skip(1), zero_run(0, b[0]));
            lemma_round_trip(b.skip(1), zero_run(0, b[0]));
            assert(e.skip(1) =~= seq![b[0]] + tail);
            assert(e.skip(1).skip(1) =~= tail);
            reveal_with_fuel(unescaped, 3);
        } else {
            lemma_round_trip(b.skip(1), zero_run(z, b[0]));
            assert(e.skip(1) =~= escaped(b.skip(1), zero_run(z, b[0])));
        }
        assert(seq![b[0]] + b.skip(1) =~= b);
    }
    assert(unescaped(escaped(b, z), z) =~= b);
}

/// An escaped payload holds no start code, nor three zeros in a row: two zeros
/// are never followed by 0, 1 or 2.
pub proof fn law_no_start_code(b: Seq<u8>, i: int)
    requires
        0 <= i,
        i + 2 < escaped(b, 0).len(),
        escaped(b, 0)[i] == 0,
        escaped(b, 0)[i + 1] == 0,
    ensures
        escaped(b, 0)[i + 2] > 2,
{
    lemma_no_start_code(b, 0, i);
}

/// What follows a run of `z` zeros, and every two zeros, is greater than 2.
proof fn lemma_no_start_code(b: Seq<u8>, z: nat, i: int)
    ensures
        z >= 2 && escaped(b, z).len() > 0 ==> escaped(b, z)[0] > 2,
        z >= 1 && escaped(b, z).len() > 1 && escaped(b, z)[0] == 0 ==> escaped(b, z)[1] > 2,
        0 <= i && i + 2 < escaped(b, z).len() && escaped(b, z)[i] == 0 && escaped(b, z)[i + 1] == 0
            ==> escaped(b, z)[i + 2] > 2,
    decreases b.len(),
{
    if b.len() > 0 {
        let e = escaped(b, z);
        if z >= 2 && b[0] <= 3 {
            let tail = escaped(b.skip(1), zero_run(0, b[0]));
            lemma_no_start_code(b.skip(1), zero_run(0, b[0]), i - 2);
            assert(e.skip(2) =~= tail);
            if i >= 2 && i + 2 < e.len() {
                assert(e[i] == tail[i - 2]);
                assert(e[i + 1] == tail[i - 1]);
                assert(e[i + 2] == tail[i]);
            }
        } else {
            let tail = escaped(b.skip(1), zero_run(z, b[0]));
            lemma_no_start_code(b.skip(1), zero_run(z, b[0]), i - 1);
            assert(e.skip(1) =~= tail);
            if i >= 1 && i + 2 < e.len() {
                assert(e[i] == tail[i - 1]);
                assert(e[i + 1] == tail[i]);
                assert(e[i + 2] == tail[i + 1]);
            }
        }
    }
}

proof fn lemma_take_front(raw: Seq<u8>, v: Seq<u8>)
    requires
        0 < raw.len(),
        v.len() < raw.len(),
        v == raw.skip(1).take(v.len() as int),
    ensures
        (seq![raw[0]] + v) == raw.take(v.len() as int + 1),
{
    assert((seq![raw[0]] + v) =~= raw.take(v.len() as int + 1));
}

/// The first `k` bytes of an escaped payload give its first raw bytes back, two for
/// every three at least, or all there are.
pub proof fn lemma_unescaped_start(raw: Seq<u8>, z: nat, k: int)
    requires
        z <= 2,
        0 <= k <= escaped(raw, z).len(),
    ensures
        ({
            let u = unescaped(escaped(raw, z).take(k), z);
            &&& u.len() <= raw.len()
            &&& u == raw.take(u.len() as int)
            &&& 3 * u.len() + z >= 2 * k
            &&& k == escaped(raw, z).len() ==> u.len() == raw.len()
        }),
    decreases raw.len(),
{
    let e = escaped(raw, z);
    let u = unescaped(e.take(k), z);
    if raw.len() == 0 || k == 0 {
        assert(u =~= raw.take(0));
    } else if z >= 2 && raw[0] <= 3 {
        let run = zero_run(0, raw[0]);
        let tail = escaped(raw.skip(1), run);
        assert(e =~= seq![3u8, raw[0]] + tail);
        let behind = e.take(k).skip(1);
        assert(e.take(k)[0] == 3);
        assert(u == unescaped(behind, 0));
        if k == 1 {
            assert(behind =~= Seq::<u8>::empty());
            assert(u =~= raw.take(0));
        } else {
            lemma_unescaped_start(raw.skip(1), run, k - 2);
            assert(behind =~= seq![raw[0]] + tail.take(k - 2));
            assert(behind.skip(1) =~= tail.take(k - 2));
            let v = unescaped(tail.take(k - 2), run);
            assert(u == seq![raw[0]] + v);
            lemma_take_front(raw, v);
        }
    } else {
        let run = zero_run(z, raw[0]);
        let tail = escaped(raw.skip(1), run);
        assert(e =~= seq![raw[0]] + tail);
        lemma_unescaped_start(raw.skip(1), run, k - 1);
        assert(e.take(k)[0] == raw[0]);
        assert(e.take(k).skip(1) =~= tail.take(k - 1));
        let v = unescaped(tail.take(k - 1), run);
        assert(u == seq![raw[0]] + v);
        lemma_take_front(raw, v);
    }
}

/// The first three bytes of a payload that does not start with a zero stand as they
/// are.
pub proof fn lemma_escaped_first_bytes(raw: Seq<u8>)
    requires
        raw.len() >= 3,
        raw[0] != 0,
    ensures
        escaped(raw, 0).len() >= 3,
        escaped(raw, 0).take(3) == raw.take(3),
{
    reveal_with_fuel(escaped, 4);
    let e = escaped(raw, 0);
    assert(raw.skip(1)[0] == raw[1]);
    assert(raw.skip(1).skip(1)[0] == raw[2]);
    assert(e.take(3) =~= raw.take(3));
}

/// A 3 behind two zeros is dropped, whatever stands before them and behind it.
pub proof fn law_three_behind_zeros_is_dropped(a: Seq<u8>, c: Seq<u8>)
    ensures
        unescaped(a + seq![0u8, 0, 3] + c, 0) == unescaped(a + seq![0u8, 0], 0) + unescaped(c, 0),
{
    lemma_three_is_dropped(a, c, 0);
}

proof fn lemma_three_is_dropped(a: Seq<u8>, c: Seq<u8>, z: nat)
    ensures
        unescaped(a + seq![0u8, 0, 3] + c, z) == unescaped(a + seq![0u8, 0], z) + unescaped(c, 0),
    decreases a.len(),
{
    let b = a + seq![0u8, 0, 3] + c;
    let h = a + seq![0u8, 0];
    if a.len() == 0 {
        let b1 = b.skip(1);
        let b2 = b1.skip(1);
        let h1 = h.skip(1);
        assert(b[0] == 0 && b1[0] == 0 && b2[0] == 3);
        assert(b2.skip(1) =~= c);
        assert(h1[0] == 0);
        assert(h1.skip(1) =~= Seq::<u8>::empty());
        assert(unescaped(h1.skip(1), z + 2) =~= Seq::<u8>::empty());
        assert(unescaped(h1, z + 1) =~= seq![0u8]);
        assert(unescaped(h, z) =~= seq![0u8, 0]);
        assert(unescaped(b2, z + 2) == unescaped(c, 0));
        assert(unescaped(b1, z + 1) == seq![0u8] + unescaped(c, 0));
        assert(unescaped(b, z) =~= seq![0u8, 0] + unescaped(c, 0));
    } else {
        let t = a.skip(1);
        assert(b[0] == a[0] && h[0] == a[0]);
        assert(b.skip(1) =~= t + seq![0u8, 0, 3] + c);
        assert(h.skip(1) =~= t + seq![0u8, 0]);
        if z >= 2 && a[0] == 3 {
            lemma_three_is_dropped(t, c, 0);
        } else {
            lemma_three_is_dropped(t, c, zero_run(z, a[0]));
            assert(unescaped(b, z) =~= unescaped(h, z) + unescaped(c, 0));
        }
    }
}

/// Where no 3 follows two zeros, nothing is dropped.
pub proof fn law_nothing_else_is_dropped(b: Seq<u8>)
    requires
        forall|i: int|
            0 <= i < b.len() - 2 ==> !((#[trigger] b[i]) == 0 && b[i + 1] == 0 && b[i + 2] == 3),
    ensures
        unescaped(b, 0) == b,
{
    lemma_nothing_is_dropped(b, 0);
}

proof fn lemma_nothing_is_dropped(b: Seq<u8>, z: nat)
    requires
        forall|i: int|
            0 <= i < b.len() - 2 ==> !((#[trigger] b[i]) == 0 && b[i + 1] == 0 && b[i + 2] == 3),
        z >= 2 && b.len() > 0 ==> b[0] != 3,
        z >= 1 && b.len() > 1 ==> !(b[0] == 0 && b[1] == 3),
    ensures
        unescaped(b, z) == b,
    decreases b.len(),
{
    if b.len() > 0 {
        let t = b.skip(1);
        assert forall|i: int| 0 <= i < t.len() - 2 implies !((#[trigger] t[i]) == 0 && t[i + 1] == 0
            && t[i + 2] == 3) by {
            assert(t[i] == b[i + 1]);
        }
        if b.len() > 2 {
            assert(!(b[0] == 0 && b[1] == 0 && b[2] == 3));
        }
        lemma_nothing_is_dropped(t, zero_run(z, b[0]));
        assert(unescaped(b, z) =~= b);
    }
}

} // verus!
