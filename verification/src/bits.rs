//! Reading and writing bit strings, most significant bit first.
//!
//! A byte string stands for the sequence of its bits; [`Bits`] consumes that
//! sequence from the front and [`BitW`] grows one at the back. Fixed-width
//! fields and Exp-Golomb codes are described on bit sequences, so that the
//! reader and the writer share one vocabulary.

use vstd::arithmetic::div_mod::{lemma_mod_breakdown, lemma_small_mod};
use vstd::arithmetic::power2::{
    lemma2_to64, lemma2_to64_rest, lemma_pow2_pos, lemma_pow2_strictly_increases,
    lemma_pow2_unfold, pow2,
};
use vstd::bits::lemma_u32_shl_is_mul;
use vstd::prelude::*;

verus! {

/// The `n` low bits of `v`, most significant first.
pub open spec fn u_bits(n: nat, v: nat) -> Seq<bool>
    decreases n,
{
    if n == 0 {
        Seq::empty()
    } else {
        u_bits((n - 1) as nat, v / 2).push(v % 2 == 1)
    }
}

/// The number that a bit string denotes, most significant bit first.
pub open spec fn value(b: Seq<bool>) -> nat
    decreases b.len(),
{
    if b.len() == 0 {
        0
    } else {
        2 * value(b.drop_last()) + if b.last() { 1nat } else { 0nat }
    }
}

/// The bits of a byte string.
pub open spec fn bits_of(d: Seq<u8>) -> Seq<bool>
    decreases d.len(),
{
    if d.len() == 0 {
        Seq::empty()
    } else {
        bits_of(d.drop_last()) + u_bits(8, d.last() as nat)
    }
}

/// `n` zero bits.
pub open spec fn zeros(n: nat) -> Seq<bool> {
    Seq::new(n, |i: int| false)
}

/// How many binary digits it takes to write `v` down.
pub open spec fn bit_len(v: nat) -> nat
    decreases v,
{
    if v == 0 {
        0
    } else {
        1 + bit_len(v / 2)
    }
}

/// The unsigned Exp-Golomb code of `v`: `v + 1` in binary, behind one zero for
/// every digit after its first.
#[verifier::opaque]
pub open spec fn ue_bits(v: nat) -> Seq<bool> {
    let n = bit_len(v + 1);
    zeros((n - 1) as nat) + u_bits(n, v + 1)
}

/// The signed numbers in the order 0, 1, -1, 2, -2 and so on.
pub open spec fn se_index(v: int) -> nat {
    if v > 0 {
        (2 * v - 1) as nat
    } else {
        (-2 * v) as nat
    }
}

/// The signed Exp-Golomb code of `v`.
#[verifier::opaque]
pub open spec fn se_bits(v: int) -> Seq<bool> {
    ue_bits(se_index(v))
}

/// How many bits at the front of `b` are zero.
pub open spec fn leading_zeros(b: Seq<bool>) -> nat
    decreases b.len(),
{
    if b.len() == 0 || b[0] {
        0
    } else {
        1 + leading_zeros(b.skip(1))
    }
}

/// Reading a field of `n` bits: what it denotes modulo 2^32, if there are that
/// many bits, and what is left afterwards.
#[verifier::opaque]
pub open spec fn read_u(b: Seq<bool>, n: nat) -> (Option<nat>, Seq<bool>) {
    if n <= b.len() {
        (Some(value(b.take(n as int)) % 0x1_0000_0000), b.skip(n as int))
    } else {
        (None, Seq::empty())
    }
}

/// Reading an Exp-Golomb code: its number and what is left afterwards. Codes
/// with more than 31 leading zeros are not read.
#[verifier::opaque]
pub open spec fn read_ue(b: Seq<bool>) -> (Option<nat>, Seq<bool>) {
    let z = leading_zeros(b) as int;
    if z > 31 {
        (None, b.skip(32))
    } else if z + 1 + z <= b.len() {
        (
            Some((pow2(z as nat) - 1 + value(b.subrange(z + 1, z + 1 + z))) as nat),
            b.skip(z + 1 + z),
        )
    } else {
        (None, Seq::empty())
    }
}

/// A bit string closed by a one and filled up with zeros to whole bytes.
pub open spec fn with_trailer(b: Seq<bool>) -> Seq<bool> {
    b.push(true) + zeros(((8 - (b.len() + 1) % 8) % 8) as nat)
}

/// The bytes that eight bits at a time make up.
pub open spec fn packed(b: Seq<bool>) -> Seq<u8> {
    Seq::new(b.len() / 8, |i: int| value(b.subrange(8 * i, 8 * i + 8)) as u8)
}

pub proof fn lemma_u_bits_len(n: nat, v: nat)
    ensures
        u_bits(n, v).len() == n,
    decreases n,
{
    if n > 0 {
        lemma_u_bits_len((n - 1) as nat, v / 2);
    }
}

pub proof fn lemma_bits_of_len(d: Seq<u8>)
    ensures
        bits_of(d).len() == 8 * d.len(),
    decreases d.len(),
{
    if d.len() > 0 {
        lemma_bits_of_len(d.drop_last());
        lemma_u_bits_len(8, d.last() as nat);
    }
}

/// Bit `j` of a byte, counted from the most significant one.
proof fn lemma_byte_bit(b: u8, j: u8)
    requires
        j < 8,
    ensures
        u_bits(8, b as nat).len() == 8,
        u_bits(8, b as nat)[j as int] == ((b >> (7 - j) as u8) & 1 == 1),
{
    lemma_u_bits_len(8, b as nat);
    reveal_with_fuel(u_bits, 9);
    let n = b as nat;
    assert(u_bits(8, n)[7] == (n % 2 == 1));
    assert(u_bits(8, n)[6] == (n / 2 % 2 == 1));
    assert(u_bits(8, n)[5] == (n / 2 / 2 % 2 == 1));
    assert(u_bits(8, n)[4] == (n / 2 / 2 / 2 % 2 == 1));
    assert(u_bits(8, n)[3] == (n / 2 / 2 / 2 / 2 % 2 == 1));
    assert(u_bits(8, n)[2] == (n / 2 / 2 / 2 / 2 / 2 % 2 == 1));
    assert(u_bits(8, n)[1] == (n / 2 / 2 / 2 / 2 / 2 / 2 % 2 == 1));
    assert(u_bits(8, n)[0] == (n / 2 / 2 / 2 / 2 / 2 / 2 / 2 % 2 == 1));
    assert({
        &&& (b >> 0u8) & 1 == b % 2
        &&& (b >> 1u8) & 1 == b / 2 % 2
        &&& (b >> 2u8) & 1 == b / 2 / 2 % 2
        &&& (b >> 3u8) & 1 == b / 2 / 2 / 2 % 2
        &&& (b >> 4u8) & 1 == b / 2 / 2 / 2 / 2 % 2
        &&& (b >> 5u8) & 1 == b / 2 / 2 / 2 / 2 / 2 % 2
        &&& (b >> 6u8) & 1 == b / 2 / 2 / 2 / 2 / 2 / 2 % 2
        &&& (b >> 7u8) & 1 == b / 2 / 2 / 2 / 2 / 2 / 2 / 2 % 2
    }) by (bit_vector);
}

/// Where the bits of each byte lie.
proof fn lemma_bits_of_at(d: Seq<u8>, k: int, j: int)
    requires
        0 <= k < d.len(),
        0 <= j < 8,
    ensures
        bits_of(d).len() == 8 * d.len(),
        bits_of(d)[8 * k + j] == u_bits(8, d[k] as nat)[j],
    decreases d.len(),
{
    lemma_bits_of_len(d);
    lemma_bits_of_len(d.drop_last());
    lemma_u_bits_len(8, d.last() as nat);
    if k < d.len() - 1 {
        lemma_bits_of_at(d.drop_last(), k, j);
    }
}

/// A reader over the bits of a byte string.
pub struct Bits<'a> {
    pub d: &'a [u8],
    pub p: usize,
}

impl<'a> View for Bits<'a> {
    type V = Seq<bool>;

    /// The bits that have not been read yet.
    open spec fn view(&self) -> Seq<bool> {
        bits_of(self.d@).skip(self.p as int)
    }
}

impl<'a> Bits<'a> {
    /// The position lies within the bytes, and counts bits in a `usize`.
    pub open spec fn wf(&self) -> bool {
        &&& 8 * self.d@.len() <= usize::MAX
        &&& self.p <= 8 * self.d@.len()
    }

    /// Starts at the first bit of `d`.
    pub fn new(d: &'a [u8]) -> (r: Self)
        requires
            8 * d@.len() <= usize::MAX,
        ensures
            r.wf(),
            r.d == d,
            r.p == 0,
            r@ == bits_of(d@),
    {
        proof {
            lemma_bits_of_len(d@);
        }
        let r = Bits { d, p: 0 };
        assert(r@ =~= bits_of(d@));
        r
    }

    /// Takes one bit.
    pub fn bit(&mut self) -> (r: Option<u32>)
        requires
            old(self).wf(),
        ensures
            final(self).wf(),
            final(self).d == old(self).d,
            old(self)@.len() == 0 ==> r is None && final(self)@ == old(self)@,
            old(self)@.len() > 0 ==> {
                &&& r == Some(if old(self)@[0] { 1u32 } else { 0u32 })
                &&& final(self)@ == old(self)@.skip(1)
            },
    {
        proof {
            lemma_bits_of_len(self.d@);
        }
        if self.p / 8 >= self.d.len() {
            return None;
        }
        let b: u8 = self.d[self.p / 8];
        let j: u8 = (self.p % 8) as u8;
        let v: u8 = (b >> (7 - j)) & 1;
        proof {
            lemma_bits_of_at(self.d@, self.p as int / 8, j as int);
            lemma_byte_bit(b, j);
            assert((b >> (7 - j) as u8) & 1 <= 1) by (bit_vector);
            assert(bits_of(self.d@).skip(self.p as int).skip(1) =~= bits_of(self.d@).skip(
                self.p + 1,
            ));
        }
        self.p = self.p + 1;
        Some(v as u32)
    }

    /// Takes a field of `n` bits.
    pub fn u(&mut self, n: u32) -> (r: Option<u32>)
        requires
            old(self).wf(),
        ensures
            final(self).wf(),
            final(self).d == old(self).d,
            r is Some <==> read_u(old(self)@, n as nat).0 is Some,
            r is Some ==> r->0 == read_u(old(self)@, n as nat).0->0,
            final(self)@ == read_u(old(self)@, n as nat).1,
    {
        reveal(read_u);
        let ghost start = self@;
        let mut v: u32 = 0;
        let mut i: u32 = 0;
        assert(start.take(0) =~= Seq::<bool>::empty());
        assert(start.skip(0) =~= start);
        while i < n
            invariant
                start == old(self)@,
                self.d == old(self).d,
                i <= n,
                i <= start.len(),
                self.wf(),
                self@ == start.skip(i as int),
                v == value(start.take(i as int)) % 0x1_0000_0000,
            decreases n - i,
        {
            let b: u32 = match self.bit() {
                Some(b) => b,
                None => {
                    reveal(read_u);
                    assert(self@ =~= Seq::<bool>::empty());
                    return None;
                },
            };
            proof {
                let i1 = i as int;
                assert(start.take(i1 + 1).drop_last() =~= start.take(i1));
                assert(start.take(i1 + 1).last() == start.skip(i1)[0]);
                assert(start.skip(i1).skip(1) =~= start.skip(i1 + 1));
                assert(((v << 1) | b) == (2 * v + b) % 0x1_0000_0000) by (bit_vector)
                    requires
                        b <= 1,
                ;
            }
            v = (v << 1) | b;
            i = i + 1;
        }
        Some(v)
    }

    /// Takes an unsigned Exp-Golomb code.
    pub fn ue(&mut self) -> (r: Option<u32>)
        requires
            old(self).wf(),
        ensures
            final(self).wf(),
            final(self).d == old(self).d,
            r is Some <==> read_ue(old(self)@).0 is Some,
            r is Some ==> r->0 == read_ue(old(self)@).0->0,
            final(self)@ == read_ue(old(self)@).1,
    {
        reveal(read_ue);
        reveal(read_u);
        let ghost start = self@;
        let mut z: u32 = 0;
        assert(start.skip(0) =~= start);
        loop
            invariant_except_break
                z <= start.len(),
                self@ == start.skip(z as int),
                leading_zeros(start) == z + leading_zeros(start.skip(z as int)),
            invariant
                start == old(self)@,
                self.d == old(self).d,
                z <= 31,
                self.wf(),
            ensures
                self@ == start.skip(z + 1),
                z < start.len(),
                leading_zeros(start) == z,
            decreases 32 - z,
        {
            match self.bit() {
                None => {
                    reveal(read_ue);
                    assert(self@ =~= Seq::<bool>::empty());
                    return None;
                },
                Some(b) => {
                    assert(start.skip(z as int).skip(1) =~= start.skip(z + 1));
                    if b != 0 {
                        break;
                    }
                },
            }
            z = z + 1;
            if z > 31 {
                reveal(read_ue);
                return None;
            }
        }
        let ghost rest = self@;
        let low: u32 = if z > 0 {
            match self.u(z) {
                Some(v) => v,
                None => {
                    return None;
                },
            }
        } else {
            assert(rest.skip(0) =~= rest);
            assert(start.subrange(1, 1) =~= Seq::<bool>::empty());
            0
        };
        proof {
            assert(rest.take(z as int) =~= start.subrange(z + 1, z + 1 + z));
            assert(rest.skip(z as int) =~= start.skip(z + 1 + z));
            let field = start.subrange(z + 1, z + 1 + z);
            lemma_value_bound(field);
            lemma_u32_shl_is_mul_one(z);
            lemma_pow2_increases(z as nat, 31);
            lemma2_to64();
            assert(value(field) % 0x1_0000_0000 == value(field)) by {
                lemma_small_mod(value(field), 0x1_0000_0000);
            }
        }
        Some((1u32 << z) - 1 + low)
    }
}

/// A bit string under construction.
pub struct BitW {
    pub out: Vec<u8>,
    pub cur: u8,
    pub n: u8,
}

impl View for BitW {
    type V = Seq<bool>;

    /// The bits written so far.
    open spec fn view(&self) -> Seq<bool> {
        bits_of(self.out@) + u_bits(self.n as nat, self.cur as nat)
    }
}

impl Default for BitW {
    /// An empty bit string.
    fn default() -> (r: Self)
        ensures
            r.wf(),
            r@ == Seq::<bool>::empty(),
    {
        let r = BitW { out: Vec::new(), cur: 0, n: 0 };
        proof {
            lemma2_to64();
        }
        assert(r@ =~= Seq::<bool>::empty());
        r
    }
}

impl BitW {
    /// Fewer than eight bits wait for their byte to fill up.
    pub open spec fn wf(&self) -> bool {
        &&& self.n < 8
        &&& (self.cur as nat) < pow2(self.n as nat)
    }

    /// Appends the low bit of `b`.
    pub fn bit(&mut self, b: u32)
        requires
            old(self).wf(),
        ensures
            final(self).wf(),
            final(self)@ == old(self)@.push(b % 2 == 1),
    {
        let ghost before = *self;
        let cur: u8 = self.cur;
        let low: u8 = (b & 1) as u8;
        proof {
            lemma2_to64();
            lemma_pow2_increases(self.n as nat, 7);
            lemma_pow2_unfold((self.n + 1) as nat);
            assert((b & 1) as u8 == b % 2) by (bit_vector);
            assert((cur << 1) | low == 2 * cur + low) by (bit_vector)
                requires
                    cur < 128,
                    low <= 1,
            ;
        }
        self.cur = (cur << 1) | low;
        self.n = self.n + 1;
        assert(u_bits(self.n as nat, self.cur as nat) =~= u_bits(
            before.n as nat,
            before.cur as nat,
        ).push(b % 2 == 1));
        if self.n == 8 {
            let full: u8 = self.cur;
            self.out.push(full);
            self.cur = 0;
            self.n = 0;
            assert(self.out@.drop_last() =~= before.out@);
        }
        assert(self@ =~= before@.push(b % 2 == 1));
    }

    /// Appends the `n` low bits of `v`.
    pub fn u(&mut self, n: u32, v: u64)
        requires
            old(self).wf(),
            n <= 64,
        ensures
            final(self).wf(),
            final(self)@ == old(self)@ + u_bits(n as nat, v as nat),
    {
        let ghost start = self@;
        let mut i: u32 = n;
        assert(start + u_bits(0, 0) =~= start);
        while i > 0
            invariant
                i <= n <= 64,
                self.wf(),
                i == 64 ==> self@ == start,
                i < 64 ==> self@ == start + u_bits((n - i) as nat, (v >> i) as nat),
            decreases i,
        {
            i = i - 1;
            proof {
                assert(i < 63 ==> (v >> i) / 2 == v >> ((i + 1) as u32)) by (bit_vector)
                    requires
                        i < 64,
                ;
                assert((v >> i) & 1 == (v >> i) % 2) by (bit_vector)
                    requires
                        i < 64,
                ;
                assert(v >> 63u32 <= 1) by (bit_vector);
                reveal_with_fuel(u_bits, 2);
            }
            self.bit(((v >> i) & 1) as u32);
            assert(self@ =~= start + u_bits((n - i) as nat, (v >> i) as nat));
        }
        assert(v >> 0u32 == v) by (bit_vector);
    }

    /// Appends the unsigned Exp-Golomb code of `v`.
    pub fn ue(&mut self, v: u32)
        requires
            old(self).wf(),
        ensures
            final(self).wf(),
            final(self)@ == old(self)@ + ue_bits(v as nat),
    {
        let ghost start = self@;
        let x: u64 = v as u64 + 1;
        let n: u32 = digits(x);
        proof {
            lemma_bit_len_bound(x as nat);
            lemma_u_bits_zero((n - 1) as nat);
        }
        self.u(n - 1, 0);
        self.u(n, x);
        reveal(ue_bits);
        assert(self@ =~= start + ue_bits(v as nat));
    }

    /// Appends the signed Exp-Golomb code of `v`.
    pub fn se(&mut self, v: i32)
        requires
            old(self).wf(),
            -0x3fff_ffff <= v <= 0x3fff_ffff,
        ensures
            final(self).wf(),
            final(self)@ == old(self)@ + se_bits(v as int),
    {
        let k: u32 = if v > 0 {
            (2 * v - 1) as u32
        } else {
            (2 * (-v)) as u32
        };
        self.ue(k);
        reveal(se_bits);
    }

    /// Closes the bit string with a one and fills its last byte with zeros.
    pub fn finish(self) -> (r: Vec<u8>)
        requires
            self.wf(),
        ensures
            r@ == packed(with_trailer(self@)),
            bits_of(r@) == with_trailer(self@),
    {
        let mut w = self;
        let ghost b = self@;
        w.bit(1);
        let ghost mut k: nat = 0;
        proof {
            lemma_bits_of_len(w.out@);
            lemma_u_bits_len(w.n as nat, w.cur as nat);
        }
        assert(b.push(true) + zeros(0) =~= b.push(true));
        while w.n != 0
            invariant
                w.wf(),
                w@ == b.push(true) + zeros(k),
                k < 8,
                w.n != 0 ==> w.n + 0 == (b.len() + 1 + k) % 8,
                w.n == 0 ==> (b.len() + 1 + k) % 8 == 0,
                k > 0 ==> (b.len() + 1) % 8 + k <= 8 && (b.len() + 1) % 8 != 0,
            decreases (8 - w.n) % 8,
        {
            w.bit(0);
            proof {
                assert(b.push(true) + zeros(k + 1) =~= (b.push(true) + zeros(k)).push(false));
                k = k + 1;
                lemma_bits_of_len(w.out@);
                lemma_u_bits_len(w.n as nat, w.cur as nat);
                assert(w@.len() == b.len() + 1 + k);
            }
        }
        proof {
            assert(w@ =~= bits_of(w.out@));
            assert(k == (8 - (b.len() + 1) % 8) % 8);
            lemma_packed_bits(w.out@);
        }
        w.out
    }
}

/// The number of binary digits of `v`.
fn digits(v: u64) -> (n: u32)
    ensures
        n == bit_len(v as nat),
        n <= 64,
        v > 0 ==> n > 0,
{
    let mut x: u64 = v;
    let mut n: u32 = 0;
    proof {
        lemma_bit_len_bound(v as nat);
        lemma2_to64_rest();
        lemma2_to64();
        if bit_len(v as nat) > 64 {
            lemma_pow2_increases(64, (bit_len(v as nat) - 1) as nat);
        }
    }
    while x > 0
        invariant
            n + bit_len(x as nat) == bit_len(v as nat),
            bit_len(v as nat) <= 64,
        decreases x,
    {
        x = x / 2;
        n = n + 1;
    }
    n
}

/// A number lies between the powers of two that its digit count names.
pub proof fn lemma_bit_len_bound(v: nat)
    ensures
        v < pow2(bit_len(v)),
        v > 0 ==> bit_len(v) > 0 && pow2((bit_len(v) - 1) as nat) <= v,
    decreases v,
{
    lemma2_to64();
    if v > 0 {
        lemma_bit_len_bound(v / 2);
        lemma_pow2_unfold(bit_len(v));
        if v > 1 {
            lemma_pow2_unfold((bit_len(v) - 1) as nat);
        }
    }
}

pub proof fn lemma_u_bits_zero(n: nat)
    ensures
        u_bits(n, 0) == zeros(n),
    decreases n,
{
    if n > 0 {
        lemma_u_bits_zero((n - 1) as nat);
        assert(u_bits(n, 0) =~= zeros(n));
    } else {
        assert(u_bits(n, 0) =~= zeros(n));
    }
}

/// A number is below the power of two that its width names.
pub proof fn lemma_value_bound(b: Seq<bool>)
    ensures
        value(b) < pow2(b.len()),
    decreases b.len(),
{
    lemma2_to64();
    if b.len() > 0 {
        lemma_value_bound(b.drop_last());
        lemma_pow2_unfold(b.len());
    }
}

proof fn lemma_pow2_increases(a: nat, b: nat)
    requires
        a <= b,
    ensures
        pow2(a) <= pow2(b),
{
    if a < b {
        lemma_pow2_strictly_increases(a, b);
    }
}

proof fn lemma_u32_shl_is_mul_one(z: u32)
    requires
        z <= 31,
    ensures
        (1u32 << z) == pow2(z as nat),
{
    lemma_pow2_increases(z as nat, 31);
    lemma2_to64();
    lemma_u32_shl_is_mul(1, z);
}

/// A fixed-width field denotes the number it was written for, up to its width.
pub proof fn lemma_value_of_u_bits(n: nat, v: nat)
    ensures
        value(u_bits(n, v)) == v % pow2(n),
    decreases n,
{
    lemma2_to64();
    lemma_u_bits_len(n, v);
    if n > 0 {
        lemma_value_of_u_bits((n - 1) as nat, v / 2);
        assert(u_bits(n, v).drop_last() =~= u_bits((n - 1) as nat, v / 2));
        lemma_pow2_unfold(n);
        lemma_pow2_pos((n - 1) as nat);
        let m = pow2((n - 1) as nat);
        assert(v % (2 * m) == 2 * ((v / 2) % m) + v % 2) by {
            lemma_mod_breakdown(v as int, 2, m as int);
        }
    }
}

/// Packing the bits of a byte string gives the byte string back.
pub proof fn lemma_packed_bits(d: Seq<u8>)
    ensures
        packed(bits_of(d)) == d,
{
    lemma_bits_of_len(d);
    let b = bits_of(d);
    assert forall|i: int| 0 <= i < d.len() implies packed(b)[i] == d[i] by {
        let v = d[i] as nat;
        lemma_u_bits_len(8, v);
        assert forall|j: int| 0 <= j < 8 implies b.subrange(8 * i, 8 * i + 8)[j] == u_bits(8, v)[j] by {
            lemma_bits_of_at(d, i, j);
        }
        assert(b.subrange(8 * i, 8 * i + 8) =~= u_bits(8, v));
        lemma_value_of_u_bits(8, v);
        lemma2_to64();
        lemma_small_mod(v, 256);
    }
    assert(packed(b) =~= d);
}

/// Whole bytes hold exactly the bits that were packed into them.
pub proof fn lemma_packed_whole(b: Seq<bool>)
    requires
        b.len() % 8 == 0,
    ensures
        bits_of(packed(b)) == b,
{
    let d = packed(b);
    lemma_bits_of_len(d);
    assert forall|k: int| 0 <= k < b.len() implies bits_of(d)[k] == b[k] by {
        let i = k / 8;
        let j = k % 8;
        let byte = b.subrange(8 * i, 8 * i + 8);
        lemma_bits_of_at(d, i, j);
        lemma_value_bound(byte);
        lemma2_to64();
        lemma_u_bits_of_value(byte);
        assert(byte[j] == b[k]);
    }
    assert(bits_of(d) =~= b);
}

/// Writing down what a bit string denotes, in as many bits, gives it back.
proof fn lemma_u_bits_of_value(b: Seq<bool>)
    ensures
        u_bits(b.len(), value(b)) == b,
    decreases b.len(),
{
    if b.len() > 0 {
        lemma_u_bits_of_value(b.drop_last());
        assert(b =~= b.drop_last().push(b.last()));
    } else {
        assert(u_bits(0, 0) =~= b);
    }
}

proof fn lemma_leading_zeros_of_zeros(z: nat, b: Seq<bool>)
    requires
        b.len() > 0,
        b[0],
    ensures
        leading_zeros(zeros(z) + b) == z,
    decreases z,
{
    let all = zeros(z) + b;
    if z > 0 {
        lemma_leading_zeros_of_zeros((z - 1) as nat, b);
        assert(all.skip(1) =~= zeros((z - 1) as nat) + b);
    }
}

/// Writing a number down with exactly its own digits starts with a one, and the
/// digits behind it denote what is left of the number.
proof fn lemma_leading_digit(v: nat)
    requires
        v > 0,
    ensures
        u_bits(bit_len(v), v).len() == bit_len(v),
        u_bits(bit_len(v), v)[0],
        value(u_bits(bit_len(v), v).skip(1)) == v - pow2((bit_len(v) - 1) as nat),
    decreases v,
{
    let n = bit_len(v);
    lemma_u_bits_len(n, v);
    lemma2_to64();
    if v == 1 {
        assert(n == 1) by {
            reveal_with_fuel(bit_len, 2);
        }
        reveal_with_fuel(u_bits, 2);
        assert(u_bits(1, 1).skip(1) =~= Seq::<bool>::empty());
    } else {
        lemma_leading_digit(v / 2);
        lemma_pow2_unfold((n - 1) as nat);
        let b = u_bits(n, v);
        assert(b.skip(1).drop_last() =~= u_bits((n - 1) as nat, v / 2).skip(1));
        assert(b.skip(1).last() == b.last());
    }
}

/// Bit strings may be put together in any order of grouping.
pub proof fn lemma_assoc(a: Seq<bool>, b: Seq<bool>, c: Seq<bool>)
    ensures
        (a + b) + c == a + (b + c),
{
    assert((a + b) + c =~= a + (b + c));
}

/// What the writer puts down in a field of at most 32 bits, the reader takes
/// back, and it leaves everything behind the field alone.
pub proof fn law_field_read_back(n: nat, v: nat, rest: Seq<bool>)
    requires
        n <= 32,
        v < pow2(n),
    ensures
        read_u(u_bits(n, v) + rest, n) == (Some(v), rest),
{
    reveal(read_u);
    lemma_u_bits_len(n, v);
    lemma_value_of_u_bits(n, v);
    lemma_small_mod(v, pow2(n));
    lemma_pow2_increases(n, 32);
    lemma2_to64();
    lemma_small_mod(v, 0x1_0000_0000);
    let all = u_bits(n, v) + rest;
    assert(all.take(n as int) =~= u_bits(n, v));
    assert(all.skip(n as int) =~= rest);
}

/// What is left to read tells where a reader is, and the reverse.
pub proof fn law_position_is_what_was_read(r: Bits)
    requires
        r.wf(),
    ensures
        r@.len() == 8 * r.d@.len() - r.p,
{
    lemma_bits_of_len(r.d@);
}

/// What the writer puts down as an Exp-Golomb code, the reader takes back, and
/// it leaves everything behind the code alone. The code of `v` has twice as many
/// bits as `v + 1` has digits, less one. The greatest `u32` is the one number whose
/// code is too long for the reader.
pub proof fn law_exp_golomb_read_back(v: nat, rest: Seq<bool>)
    requires
        v < u32::MAX,
    ensures
        read_ue(ue_bits(v) + rest) == (Some(v), rest),
        ue_bits(v).len() == 2 * bit_len(v + 1) - 1,
{
    reveal(read_ue);
    reveal(ue_bits);
    let n = bit_len(v + 1);
    let z = (n - 1) as nat;
    let digits = u_bits(n, v + 1);
    let all = ue_bits(v) + rest;
    lemma_bit_len_bound(v + 1);
    lemma_leading_digit(v + 1);
    lemma2_to64();
    assert(z <= 31) by {
        if z > 31 {
            lemma_pow2_increases(32, z);
        }
    }
    assert(all =~= zeros(z) + (digits + rest));
    lemma_leading_zeros_of_zeros(z, digits + rest);
    assert(all.subrange(n as int, (n + z) as int) =~= digits.skip(1));
    assert(all.skip((n + z) as int) =~= rest);
}

/// The code of the greatest `u32` is refused.
pub proof fn law_longest_code_is_refused(rest: Seq<bool>)
    ensures
        read_ue(ue_bits(u32::MAX as nat) + rest).0 is None,
{
    reveal(read_ue);
    reveal(ue_bits);
    let v = u32::MAX as nat;
    let n = bit_len(v + 1);
    let digits = u_bits(n, v + 1);
    lemma2_to64();
    lemma_bit_len_bound(v + 1);
    lemma_leading_digit(v + 1);
    assert(n > 32) by {
        if n <= 32 {
            lemma_pow2_increases(n, 32);
        }
    }
    assert(ue_bits(v) + rest =~= zeros((n - 1) as nat) + (digits + rest));
    lemma_leading_zeros_of_zeros((n - 1) as nat, digits + rest);
}

/// No two byte strings have the same bits.
pub proof fn law_bits_determine_bytes(a: Seq<u8>, b: Seq<u8>)
    requires
        bits_of(a) == bits_of(b),
    ensures
        a == b,
    decreases a.len(),
{
    lemma_bits_of_len(a);
    lemma_bits_of_len(b);
    if a.len() > 0 {
        lemma_bits_of_len(a.drop_last());
        lemma_bits_of_len(b.drop_last());
        let k = 8 * (a.len() - 1);
        lemma_u_bits_len(8, a.last() as nat);
        lemma_u_bits_len(8, b.last() as nat);
        assert(bits_of(a).take(k) =~= bits_of(a.drop_last()));
        assert(bits_of(b).take(k) =~= bits_of(b.drop_last()));
        assert(bits_of(a).skip(k) =~= u_bits(8, a.last() as nat));
        assert(bits_of(b).skip(k) =~= u_bits(8, b.last() as nat));
        law_bits_determine_bytes(a.drop_last(), b.drop_last());
        lemma_value_of_u_bits(8, a.last() as nat);
        lemma_value_of_u_bits(8, b.last() as nat);
        lemma2_to64();
        lemma_small_mod(a.last() as nat, 256);
        lemma_small_mod(b.last() as nat, 256);
        assert(a =~= a.drop_last().push(a.last()));
        assert(b =~= b.drop_last().push(b.last()));
    } else {
        assert(a =~= b);
    }
}

/// The first bytes of a byte string hold its first bits.
pub proof fn lemma_bits_of_take(d: Seq<u8>, m: int)
    requires
        0 <= m <= d.len(),
    ensures
        bits_of(d.take(m)) == bits_of(d).take(8 * m),
{
    lemma_bits_of_len(d);
    lemma_bits_of_len(d.take(m));
    assert forall|k: int| 0 <= k < 8 * m implies bits_of(d.take(m))[k] == bits_of(d)[k] by {
        lemma_bits_of_at(d.take(m), k / 8, k % 8);
        lemma_bits_of_at(d, k / 8, k % 8);
    }
    assert(bits_of(d.take(m)) =~= bits_of(d).take(8 * m));
}

proof fn lemma_leading_one(b: Seq<bool>)
    ensures
        value(seq![true] + b) == pow2(b.len()) + value(b),
    decreases b.len(),
{
    lemma2_to64();
    let all = seq![true] + b;
    if b.len() == 0 {
        assert(all.drop_last() =~= Seq::<bool>::empty());
        assert(value(all.drop_last()) == 0);
    } else {
        lemma_leading_one(b.drop_last());
        assert(all.drop_last() =~= seq![true] + b.drop_last());
        lemma_pow2_unfold(b.len());
    }
}

proof fn lemma_leading_zeros_are_zero(b: Seq<bool>)
    ensures
        leading_zeros(b) <= b.len(),
        forall|i: int| 0 <= i < leading_zeros(b) ==> !#[trigger] b[i],
        leading_zeros(b) < b.len() ==> b[leading_zeros(b) as int],
    decreases b.len(),
{
    if b.len() > 0 && !b[0] {
        let r = b.skip(1);
        lemma_leading_zeros_are_zero(r);
        assert forall|i: int| 0 <= i < leading_zeros(b) implies !#[trigger] b[i] by {
            if i > 0 {
                assert(!r[i - 1]);
            }
        }
        if leading_zeros(b) < b.len() {
            assert(r[leading_zeros(r) as int] == b[leading_zeros(b) as int]);
        }
    }
}

proof fn lemma_bit_len_is(v: nat, n: nat)
    requires
        n > 0,
        pow2((n - 1) as nat) <= v < pow2(n),
    ensures
        bit_len(v) == n,
{
    lemma_pow2_pos((n - 1) as nat);
    lemma_bit_len_bound(v);
    if bit_len(v) < n {
        lemma_pow2_increases(bit_len(v), (n - 1) as nat);
    } else if bit_len(v) > n {
        lemma_pow2_increases(n, (bit_len(v) - 1) as nat);
    }
}

/// What is read as an Exp-Golomb code is the code of the number that is read: no
/// other bits are taken for it.
pub proof fn law_what_is_read_is_a_code(b: Seq<bool>)
    ensures
        read_ue(b).0 matches Some(v) ==> v < u32::MAX && b == ue_bits(v) + read_ue(b).1,
{
    reveal(read_ue);
    reveal(ue_bits);
    let z = leading_zeros(b);
    lemma_leading_zeros_are_zero(b);
    if z <= 31 && z + 1 + z <= b.len() {
        let tail = b.subrange((z + 1) as int, (z + 1 + z) as int);
        let v = (pow2(z) - 1 + value(tail)) as nat;
        let rest = b.skip((z + 1 + z) as int);
        lemma_pow2_pos(z);
        lemma_value_bound(tail);
        lemma_pow2_unfold(z + 1);
        lemma_leading_one(tail);
        lemma_bit_len_is(v + 1, z + 1);
        lemma_u_bits_of_value(seq![true] + tail);
        lemma_pow2_increases(z + 1, 32);
        lemma2_to64();
        assert(u_bits(z + 1, v + 1) == seq![true] + tail);
        assert(b =~= zeros(z) + (seq![true] + tail) + rest);
    }
}

/// What is read as a field of at most 32 bits is the number in as many bits.
pub proof fn law_what_is_read_is_a_field(b: Seq<bool>, n: nat)
    requires
        n <= 32,
    ensures
        read_u(b, n).0 matches Some(v) ==> v < pow2(n) && b == u_bits(n, v) + read_u(b, n).1,
        read_u(b, n).0 is None <==> b.len() < n,
{
    reveal(read_u);
    if n <= b.len() {
        let field = b.take(n as int);
        lemma_value_bound(field);
        lemma_pow2_increases(n, 32);
        lemma2_to64();
        lemma_small_mod(value(field), 0x1_0000_0000);
        lemma_u_bits_of_value(field);
        assert(b =~= field + b.skip(n as int));
    }
}

} // verus!
