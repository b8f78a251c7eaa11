//! Unsigned 256-bit integers, as far as the proof-of-work rules need them.

use vstd::arithmetic::div_mod::lemma_fundamental_div_mod_converse;
use vstd::arithmetic::power2::{
    lemma2_to64, lemma_pow2_adds, lemma_pow2_strictly_increases, lemma_pow2_unfold, pow2,
};
use vstd::bytes::{
    lemma_auto_spec_u128_to_from_le_bytes, spec_u128_from_le_bytes, spec_u128_to_le_bytes,
    u128_from_le_bytes, u128_to_le_bytes,
};
use vstd::prelude::*;
use vstd::slice::slice_subrange;

verus! {

/// `2^128`.
pub open spec fn two_pow_128() -> int {
    0x1_0000_0000_0000_0000_0000_0000_0000_0000int
}

/// `2^256`.
pub open spec fn two_pow_256() -> int {
    0x1_0000_0000_0000_0000_0000_0000_0000_0000_0000_0000_0000_0000_0000_0000_0000_0000int
}

/// An unsigned 256-bit integer, held as two 128-bit halves.
#[derive(Clone, Copy, Debug, PartialEq, Eq, Structural)]
pub struct U256 {
    /// The upper 128 bits.
    pub hi: u128,
    /// The lower 128 bits.
    pub lo: u128,
}

impl View for U256 {
    type V = nat;

    /// The number that the two halves stand for.
    open spec fn view(&self) -> nat {
        (self.hi * two_pow_128() + self.lo) as nat
    }
}

/// `pow2(128)` and `pow2(256)` written out.
pub proof fn lemma_pow2_256()
    ensures
        pow2(64) == 0x1_0000_0000_0000_0000,
        pow2(128) == two_pow_128(),
        pow2(256) == two_pow_256(),
{
    lemma2_to64();
    lemma_pow2_adds(64, 64);
    lemma_pow2_adds(128, 128);
    assert(0x1_0000_0000_0000_0000int * 0x1_0000_0000_0000_0000int == two_pow_128())
        by (nonlinear_arith);
    assert(two_pow_128() * two_pow_128() == two_pow_256()) by (nonlinear_arith);
}

/// Adds two 128-bit numbers and a carry; returns the low 128 bits of the sum
/// and the carry out.
fn add_with_carry(a: u128, b: u128, carry: bool) -> (r: (u128, bool))
    ensures
        a + b + (if carry { 1int } else { 0int }) == r.0 + (if r.1 { two_pow_128() } else { 0int }),
{
    let c: u128 = if carry { 1 } else { 0 };
    if a > u128::MAX - b {
        let s: u128 = a - (u128::MAX - b) - 1;
        (s + c, true)
    } else {
        let s: u128 = a + b;
        if s > u128::MAX - c {
            (0, true)
        } else {
            (s + c, false)
        }
    }
}

/// Subtracts a 128-bit number and a borrow from another; returns the low 128
/// bits of the difference and the borrow out.
fn sub_with_borrow(a: u128, b: u128, borrow: bool) -> (r: (u128, bool))
    ensures
        a - b - (if borrow { 1int } else { 0int }) == r.0 - (if r.1 { two_pow_128() } else { 0int }),
{
    let c: u128 = if borrow { 1 } else { 0 };
    if a >= b {
        let d: u128 = a - b;
        if d >= c {
            (d - c, false)
        } else {
            (u128::MAX, true)
        }
    } else {
        let d: u128 = u128::MAX - (b - a) + 1;
        (d - c, true)
    }
}

/// Appends the bytes of `s` to `v`.
pub fn append_bytes(v: &mut Vec<u8>, s: &[u8])
    ensures
        final(v)@ == old(v)@ + s@,
{
    let mut i: usize = 0;
    while i < s.len()
        invariant
            i <= s.len(),
            v@ == old(v)@ + s@.subrange(0, i as int),
        decreases s.len() - i,
    {
        v.push(s[i]);
        i = i + 1;
    }
    assert(s@.subrange(0, s.len() as int) == s@);
}

impl U256 {
    /// The 32 bytes of the value, least significant byte first.
    pub open spec fn spec_to_le_bytes(self) -> Seq<u8> {
        spec_u128_to_le_bytes(self.lo) + spec_u128_to_le_bytes(self.hi)
    }

    /// The value that 32 bytes stand for, least significant byte first.
    pub open spec fn spec_from_le_bytes(b: Seq<u8>) -> U256 {
        U256 {
            hi: spec_u128_from_le_bytes(b.subrange(16, 32)),
            lo: spec_u128_from_le_bytes(b.subrange(0, 16)),
        }
    }

    /// Writing a value as bytes and reading it back gives the value.
    pub proof fn lemma_bytes_round_trip(self)
        ensures
            self.spec_to_le_bytes().len() == 32,
            U256::spec_from_le_bytes(self.spec_to_le_bytes()) == self,
    {
        lemma_auto_spec_u128_to_from_le_bytes();
        let b = self.spec_to_le_bytes();
        assert(b.subrange(0, 16) == spec_u128_to_le_bytes(self.lo));
        assert(b.subrange(16, 32) == spec_u128_to_le_bytes(self.hi));
    }

    /// Reading 32 bytes as a value and writing it back gives the bytes.
    pub proof fn lemma_value_round_trip(b: Seq<u8>)
        requires
            b.len() == 32,
        ensures
            U256::spec_from_le_bytes(b).spec_to_le_bytes() == b,
    {
        lemma_auto_spec_u128_to_from_le_bytes();
        assert(b.subrange(0, 16) + b.subrange(16, 32) == b);
    }

    /// The 32 bytes of the value, least significant byte first.
    pub fn to_le_bytes(&self) -> (out: Vec<u8>)
        ensures
            out@ == self.spec_to_le_bytes(),
            out@.len() == 32,
    {
        let mut out: Vec<u8> = u128_to_le_bytes(self.lo);
        let high: Vec<u8> = u128_to_le_bytes(self.hi);
        append_bytes(&mut out, high.as_slice());
        out
    }

    /// The value that 32 bytes stand for, least significant byte first.
    pub fn from_le_bytes(b: &[u8]) -> (r: U256)
        requires
            b@.len() == 32,
        ensures
            r == U256::spec_from_le_bytes(b@),
    {
        let lo: u128 = u128_from_le_bytes(slice_subrange(b, 0, 16));
        let hi: u128 = u128_from_le_bytes(slice_subrange(b, 16, 32));
        U256 { hi, lo }
    }

    /// The value that stands for a number below `2^256`.
    pub open spec fn spec_from_nat(n: nat) -> U256 {
        U256 { hi: (n as int / two_pow_128()) as u128, lo: (n as int % two_pow_128()) as u128 }
    }

    /// The value that stands for the number of a value is that value.
    pub proof fn lemma_from_nat(self)
        ensures
            U256::spec_from_nat(self@) == self,
    {
        let n = self@ as int;
        lemma_fundamental_div_mod_converse(n, two_pow_128(), self.hi as int, self.lo as int);
    }

    /// The largest value, `2^256 - 1`.
    pub open spec fn spec_max() -> nat {
        (two_pow_256() - 1) as nat
    }

    /// Zero.
    pub fn zero() -> (r: U256)
        ensures
            r@ == 0,
    {
        U256 { hi: 0, lo: 0 }
    }

    /// One.
    pub fn one() -> (r: U256)
        ensures
            r@ == 1,
    {
        U256 { hi: 0, lo: 1 }
    }

    /// The largest value.
    pub fn max_value() -> (r: U256)
        ensures
            r@ == U256::spec_max(),
    {
        U256 { hi: u128::MAX, lo: u128::MAX }
    }

    /// The value of a 64-bit number.
    pub fn from_u64(x: u64) -> (r: U256)
        ensures
            r@ == x,
    {
        U256 { hi: 0, lo: x as u128 }
    }

    /// The value of a 128-bit number.
    pub fn from_u128(x: u128) -> (r: U256)
        ensures
            r@ == x,
    {
        U256 { hi: 0, lo: x }
    }

    /// Whether the value is zero.
    pub fn is_zero(&self) -> (r: bool)
        ensures
            r == (self@ == 0),
    {
        self.hi == 0 && self.lo == 0
    }

    /// Whether `self` is numerically below `other`.
    pub fn lt(&self, other: &U256) -> (r: bool)
        ensures
            r == (self@ < other@),
    {
        self.hi < other.hi || (self.hi == other.hi && self.lo < other.lo)
    }

    /// Whether `self` is numerically at most `other`.
    pub fn le(&self, other: &U256) -> (r: bool)
        ensures
            r == (self@ <= other@),
    {
        self.hi < other.hi || (self.hi == other.hi && self.lo <= other.lo)
    }

    /// The sum modulo `2^256`, and whether it passed `2^256`.
    pub fn add_carry(self, other: U256) -> (r: (U256, bool))
        ensures
            self@ + other@ == r.0@ + (if r.1 { two_pow_256() } else { 0int }),
    {
        let low: (u128, bool) = add_with_carry(self.lo, other.lo, false);
        let high: (u128, bool) = add_with_carry(self.hi, other.hi, low.1);
        (U256 { hi: high.0, lo: low.0 }, high.1)
    }

    /// The sum, or the largest value where the sum passes it.
    pub fn saturating_add(self, other: U256) -> (r: U256)
        ensures
            r@ == if self@ + other@ <= U256::spec_max() { self@ + other@ } else { U256::spec_max() },
    {
        let s: (U256, bool) = self.add_carry(other);
        if s.1 {
            U256::max_value()
        } else {
            s.0
        }
    }

    /// The difference modulo `2^256`, and whether `other` was the larger.
    pub fn sub_borrow(self, other: U256) -> (r: (U256, bool))
        ensures
            self@ - other@ == r.0@ - (if r.1 { two_pow_256() } else { 0int }),
            r.1 == (self@ < other@),
    {
        let low: (u128, bool) = sub_with_borrow(self.lo, other.lo, false);
        let high: (u128, bool) = sub_with_borrow(self.hi, other.hi, low.1);
        (U256 { hi: high.0, lo: low.0 }, high.1)
    }

    /// `self * 2^n`, or `None` where that passes `2^256 - 1`.
    pub fn checked_shl(self, n: u32) -> (r: Option<U256>)
        ensures
            match r {
                Some(v) => v@ == self@ * pow2(n as nat),
                None => self@ * pow2(n as nat) >= two_pow_256(),
            },
    {
        if self.is_zero() {
            assert(self@ * pow2(n as nat) == 0) by (nonlinear_arith)
                requires
                    self@ == 0,
            ;
            return Some(self);
        }
        let mut acc: U256 = self;
        let mut i: u32 = 0;
        proof {
            lemma2_to64();
        }
        while i < n
            invariant
                i <= n,
                acc@ == self@ * pow2(i as nat),
            decreases n - i,
        {
            let d: (U256, bool) = acc.add_carry(acc);
            proof {
                lemma_pow2_unfold((i + 1) as nat);
                let a: int = self@ as int;
                let b: int = pow2(i as nat) as int;
                assert(a * (2 * b) == 2 * (a * b)) by (nonlinear_arith);
            }
            if d.1 {
                proof {
                    if i + 1 < n {
                        lemma_pow2_strictly_increases((i + 1) as nat, n as nat);
                    }
                    let a: int = self@ as int;
                    let b: int = pow2((i + 1) as nat) as int;
                    let c: int = pow2(n as nat) as int;
                    assert(a * c >= a * b) by (nonlinear_arith)
                        requires
                            a >= 0,
                            c >= b,
                    ;
                }
                return None;
            }
            acc = d.0;
            i = i + 1;
        }
        Some(acc)
    }

    /// `self * m`, or `None` where that passes `2^256 - 1`.
    pub fn checked_mul_u64(self, m: u64) -> (r: Option<U256>)
        ensures
            match r {
                Some(v) => v@ == self@ * m,
                None => self@ * m >= two_pow_256(),
            },
    {
        let mut acc: U256 = U256::zero();
        let mut rest: u64 = m;
        let mut i: u32 = 0;
        // the bits of `m` taken so far, and `2^i`
        let ghost mut top: int = 0;
        let ghost mut p: int = 1;
        let ghost a: int = self@ as int;
        let ghost mi: int = m as int;
        proof {
            lemma2_to64();
            assert(a * 0 == 0) by (nonlinear_arith);
        }
        while i < 64
            invariant
                i <= 64,
                a == self@,
                mi == m,
                p == pow2(i as nat),
                1 <= p <= 0x1_0000_0000_0000_0000,
                mi * p == top * 0x1_0000_0000_0000_0000 + rest,
                0 <= top,
                acc@ == a * top,
            decreases 64 - i,
        {
            let bit: bool = rest >= 0x8000_0000_0000_0000u64;
            let ghost b: int = if bit { 1 } else { 0 };
            let ghost top2: int = 2 * top + b;
            proof {
                lemma_pow2_unfold((i + 1) as nat);
                lemma2_to64();
                if i < 63 {
                    lemma_pow2_strictly_increases((i + 1) as nat, 64);
                }
                assert(mi * (2 * p) == 2 * (mi * p)) by (nonlinear_arith);
                assert(top2 * 0x1_0000_0000_0000_0000 == 2 * (top * 0x1_0000_0000_0000_0000) + b
                    * 0x1_0000_0000_0000_0000) by (nonlinear_arith)
                    requires
                        top2 == 2 * top + b,
                ;
                assert(a * (2 * top) == 2 * (a * top)) by (nonlinear_arith);
                assert(a * (2 * top + 1) == 2 * (a * top) + a) by (nonlinear_arith);
                // the part of `m` that is still to come only adds to the product
                assert(mi >= top2) by (nonlinear_arith)
                    requires
                        mi * (2 * p) >= top2 * 0x1_0000_0000_0000_0000,
                        1 <= 2 * p <= 0x1_0000_0000_0000_0000,
                        mi >= 0,
                        top2 >= 0,
                ;
                assert(a * mi >= a * top2) by (nonlinear_arith)
                    requires
                        a >= 0,
                        mi >= top2,
                ;
                assert(a * top2 >= a * (2 * top)) by (nonlinear_arith)
                    requires
                        a >= 0,
                        top2 >= 2 * top,
                ;
            }
            let doubled: (U256, bool) = acc.add_carry(acc);
            if doubled.1 {
                return None;
            }
            let next: (U256, bool) = doubled.0.add_carry(if bit { self } else { U256::zero() });
            if next.1 {
                return None;
            }
            acc = next.0;
            rest = if bit {
                (rest - 0x8000_0000_0000_0000u64) * 2
            } else {
                rest * 2
            };
            i = i + 1;
            proof {
                top = top2;
                p = 2 * p;
            }
        }
        proof {
            lemma2_to64();
            assert(mi == top) by (nonlinear_arith)
                requires
                    mi * p == top * 0x1_0000_0000_0000_0000 + rest,
                    p == 0x1_0000_0000_0000_0000,
                    0 <= rest < 0x1_0000_0000_0000_0000,
            ;
        }
        Some(acc)
    }

    /// Quotient and remainder of the division by `d`.
    pub fn div_rem(self, d: U256) -> (r: (U256, U256))
        requires
            d@ > 0,
        ensures
            r.0@ == self@ / d@,
            r.1@ == self@ % d@,
    {
        let mut q: U256 = U256::zero();
        let mut rem: U256 = U256::zero();
        let mut n: U256 = self;
        let mut i: u32 = 0;
        // the bits of `self` taken so far, and `2^i`
        let ghost mut top: int = 0;
        let ghost mut p: int = 1;
        proof {
            lemma2_to64();
            lemma_pow2_256();
        }
        while i < 256
            invariant
                i <= 256,
                d@ > 0,
                p == pow2(i as nat),
                1 <= p <= two_pow_256(),
                self@ * p == top * two_pow_256() + n@,
                top == q@ * d@ + rem@,
                rem@ < d@,
                0 <= top < p,
            decreases 256 - i,
        {
            let bit: bool = n.hi >= 0x8000_0000_0000_0000_0000_0000_0000_0000u128;
            let n2: (U256, bool) = n.add_carry(n);
            let r2: (U256, bool) = rem.add_carry(rem);
            let r3: (U256, bool) = r2.0.add_carry(if bit { U256::one() } else { U256::zero() });
            let ghost b: int = if bit { 1 } else { 0 };
            let ghost big: int = 2 * rem@ + b;
            let ghost q0: int = q@ as int;
            let ghost d0: int = d@ as int;
            let ghost rem0: int = rem@ as int;
            proof {
                lemma_pow2_unfold((i + 1) as nat);
                lemma_pow2_256();
                if i < 255 {
                    lemma_pow2_strictly_increases((i + 1) as nat, 256);
                }
                assert(self@ * (2 * p) == 2 * (self@ * p)) by (nonlinear_arith);
                assert((2 * top + b) * two_pow_256() == 2 * (top * two_pow_256()) + b
                    * two_pow_256()) by (nonlinear_arith);
                assert((2 * q0) * d0 == 2 * (q0 * d0)) by (nonlinear_arith);
                assert((2 * q0 + 1) * d0 == 2 * (q0 * d0) + d0) by (nonlinear_arith);
                assert(q0 <= q0 * d0) by (nonlinear_arith)
                    requires
                        q0 >= 0,
                        d0 >= 1,
                ;
                assert(n2.1 == bit);
            }
            let q2: (U256, bool) = q.add_carry(q);
            assert(!q2.1);
            if r2.1 || r3.1 || !r3.0.lt(&d) {
                let r4: (U256, bool) = r3.0.sub_borrow(d);
                let q3: (U256, bool) = q2.0.add_carry(U256::one());
                rem = r4.0;
                q = q3.0;
            } else {
                rem = r3.0;
                q = q2.0;
            }
            n = n2.0;
            i = i + 1;
            proof {
                top = 2 * top + b;
                p = 2 * p;
            }
        }
        proof {
            lemma_pow2_256();
            let x: int = self@ as int;
            let m: int = n@ as int;
            assert(x == top) by (nonlinear_arith)
                requires
                    x * p == top * two_pow_256() + m,
                    p == two_pow_256(),
                    0 <= m < two_pow_256(),
            ;
            lemma_fundamental_div_mod_converse(x, d@ as int, q@ as int, rem@ as int);
        }
        (q, rem)
    }
}

} // verus!
