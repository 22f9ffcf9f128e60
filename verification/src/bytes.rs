//! Byte strings and big-endian numbers in them.

use vstd::prelude::*;

verus! {

/// The two low bytes of `v`, most significant first.
pub open spec fn be16_bytes(v: u16) -> Seq<u8> {
    seq![(v / 0x100) as u8, (v % 0x100) as u8]
}

/// The four bytes of `v`, most significant first.
pub open spec fn be32_bytes(v: u32) -> Seq<u8> {
    seq![
        (v / 0x100_0000) as u8,
        (v / 0x1_0000 % 0x100) as u8,
        (v / 0x100 % 0x100) as u8,
        (v % 0x100) as u8,
    ]
}

/// The eight bytes of `v`, most significant first.
pub open spec fn be64_bytes(v: u64) -> Seq<u8> {
    be32_bytes((v / 0x1_0000_0000) as u32) + be32_bytes((v % 0x1_0000_0000) as u32)
}

/// The big-endian number in the four bytes of `d` from `i` on.
pub open spec fn be32_at(d: Seq<u8>, i: int) -> int {
    d[i] * 0x100_0000 + d[i + 1] * 0x1_0000 + d[i + 2] * 0x100 + d[i + 3]
}

/// The big-endian number in the eight bytes of `d` from `i` on.
pub open spec fn be64_at(d: Seq<u8>, i: int) -> int {
    be32_at(d, i) * 0x1_0000_0000 + be32_at(d, i + 4)
}

/// The low 16 bits of `n`.
pub open spec fn low16(n: int) -> u16 {
    (n % 0x1_0000) as u16
}

/// The low 32 bits of `n`.
pub open spec fn low32(n: int) -> u32 {
    (n % 0x1_0000_0000) as u32
}

/// The numbers of `s`, one after the other, in 32 bits each.
pub open spec fn be32_table(s: Seq<u32>) -> Seq<u8>
    decreases s.len(),
{
    if s.len() == 0 {
        Seq::empty()
    } else {
        be32_table(s.drop_last()) + be32_bytes(s.last())
    }
}

/// `n` zero bytes.
pub open spec fn zero_bytes(n: nat) -> Seq<u8> {
    Seq::new(n, |i: int| 0u8)
}

/// The four bytes of `v`, most significant first.
pub fn be32(v: u32) -> (r: [u8; 4])
    ensures
        r@ == be32_bytes(v),
{
    let r: [u8; 4] = [
        (v / 0x100_0000) as u8,
        (v / 0x1_0000 % 0x100) as u8,
        (v / 0x100 % 0x100) as u8,
        (v % 0x100) as u8,
    ];
    assert(r@ =~= be32_bytes(v));
    r
}

/// Reads the big-endian number in the four bytes of `d` from `i` on.
pub fn read_be32(d: &[u8], i: usize) -> (v: u32)
    requires
        i + 4 <= d@.len(),
    ensures
        v == be32_at(d@, i as int),
{
    let n: usize = d.len();
    assert(i + 4 <= n);
    d[i] as u32 * 0x100_0000 + d[i + 1] as u32 * 0x1_0000 + d[i + 2] as u32 * 0x100 + d[i + 3] as u32
}

/// Reads the big-endian number in the eight bytes of `d` from `i` on.
pub fn read_be64(d: &[u8], i: usize) -> (v: u64)
    requires
        i + 8 <= d@.len(),
    ensures
        v == be64_at(d@, i as int),
{
    let n: usize = d.len();
    assert(i + 8 <= n);
    read_be32(d, i) as u64 * 0x1_0000_0000 + read_be32(d, i + 4) as u64
}

/// Appends a byte string.
pub fn put(o: &mut Vec<u8>, b: &[u8])
    ensures
        final(o)@ == old(o)@ + b@,
{
    let ghost start = o@;
    o.extend_from_slice(b);
    assert(o@ =~= start + b@);
}

/// Appends the two bytes of `v`.
pub fn put_be16(o: &mut Vec<u8>, v: u16)
    ensures
        final(o)@ == old(o)@ + be16_bytes(v),
{
    let ghost start = o@;
    o.push((v / 0x100) as u8);
    o.push((v % 0x100) as u8);
    assert(o@ =~= start + be16_bytes(v));
}

/// Appends the four bytes of `v`.
pub fn put_be32(o: &mut Vec<u8>, v: u32)
    ensures
        final(o)@ == old(o)@ + be32_bytes(v),
{
    let b: [u8; 4] = be32(v);
    put(o, b.as_slice());
}

/// Appends the eight bytes of `v`.
pub fn put_be64(o: &mut Vec<u8>, v: u64)
    ensures
        final(o)@ == old(o)@ + be64_bytes(v),
{
    let ghost start = o@;
    put_be32(o, (v / 0x1_0000_0000) as u32);
    put_be32(o, (v % 0x1_0000_0000) as u32);
    assert(o@ =~= start + be64_bytes(v));
}

/// Appends `n` zero bytes.
pub fn put_zeros(o: &mut Vec<u8>, n: usize)
    ensures
        final(o)@ == old(o)@ + zero_bytes(n as nat),
{
    let ghost start = o@;
    let mut i: usize = 0;
    assert(start + zero_bytes(0) =~= start);
    while i < n
        invariant
            i <= n,
            o@ == start + zero_bytes(i as nat),
        decreases n - i,
    {
        o.push(0);
        i = i + 1;
        assert(o@ =~= start + zero_bytes(i as nat));
    }
}

/// Appends the numbers of `s`, in 32 bits each.
pub fn put_table(o: &mut Vec<u8>, s: &[u32])
    ensures
        final(o)@ == old(o)@ + be32_table(s@),
{
    let ghost start = o@;
    let mut i: usize = 0;
    assert(start + be32_table(s@.take(0)) =~= start);
    while i < s.len()
        invariant
            i <= s@.len(),
            o@ == start + be32_table(s@.take(i as int)),
        decreases s@.len() - i,
    {
        put_be32(o, s[i]);
        proof {
            let t = s@.take(i + 1);
            assert(t.drop_last() =~= s@.take(i as int));
            assert(start + be32_table(t.drop_last()) + be32_bytes(t.last()) =~= start + be32_table(
                t,
            ));
        }
        i = i + 1;
    }
    assert(s@.take(i as int) =~= s@);
}

/// A number that was written big-endian reads back.
pub proof fn law_be32_read_back(v: u32, before: Seq<u8>, after: Seq<u8>)
    ensures
        be32_at(before + be32_bytes(v) + after, before.len() as int) == v,
{
    let all = before + be32_bytes(v) + after;
    let i = before.len() as int;
    assert(all[i] == be32_bytes(v)[0]);
    assert(all[i + 1] == be32_bytes(v)[1]);
    assert(all[i + 2] == be32_bytes(v)[2]);
    assert(all[i + 3] == be32_bytes(v)[3]);
}

} // verus!
