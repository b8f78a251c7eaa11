//! Proof-of-work rules: compact targets, the work a target stands for, and
//! the periodic difficulty adjustment.

use crate::uint256::{lemma_pow2_256, two_pow_256, U256};
use vstd::arithmetic::div_mod::{
    lemma_div_denominator, lemma_div_plus_one, lemma_fundamental_div_mod,
    lemma_fundamental_div_mod_converse,
};
use vstd::arithmetic::power2::{lemma2_to64, lemma_pow2_adds, pow2};
use vstd::prelude::*;

verus! {

/// The size byte of a compact target: its upper eight bits.
pub open spec fn spec_compact_exponent(bits: u32) -> nat {
    (bits / 0x100_0000) as nat
}

/// The mantissa of a compact target: its lower 23 bits.
pub open spec fn spec_compact_mantissa(bits: u32) -> nat {
    (bits % 0x80_0000) as nat
}

/// Whether a compact target has its sign bit set on a mantissa that is not
/// zero.
pub open spec fn spec_compact_negative(bits: u32) -> bool {
    (bits / 0x80_0000) % 2 == 1 && spec_compact_mantissa(bits) != 0
}

/// The magnitude of a compact target: `mantissa * 256^(exponent - 3)`.
pub open spec fn spec_compact_value(bits: u32) -> nat {
    let e = spec_compact_exponent(bits);
    let m = spec_compact_mantissa(bits);
    if e <= 3 {
        (m / pow2((8 * (3 - e)) as nat)) as nat
    } else {
        m * pow2((8 * (e - 3)) as nat)
    }
}

/// The target that a compact form stands for, where it is neither negative
/// nor too large for 256 bits.
pub open spec fn spec_target(bits: u32) -> Option<nat> {
    if spec_compact_negative(bits) || spec_compact_value(bits) >= two_pow_256() {
        None
    } else {
        Some(spec_compact_value(bits))
    }
}

/// The target of a compact form, zero where it has none.
pub open spec fn spec_target_or_zero(bits: u32) -> nat {
    match spec_target(bits) {
        Some(t) => t,
        None => 0,
    }
}

/// The expected number of hashes to meet a target: `2^256 / (target + 1)`,
/// held to 256 bits.
pub open spec fn spec_work(target: nat) -> nat {
    if target == 0 {
        U256::spec_max()
    } else {
        (two_pow_256() / ((target + 1) as int)) as nat
    }
}

/// Whether a hash meets the target that `bits` stands for, and that target
/// is positive and no easier than `limit`.
pub open spec fn spec_pow_valid(hash: nat, bits: u32, limit: nat) -> bool {
    match spec_target(bits) {
        Some(t) => 0 < t <= limit && hash <= t,
        None => false,
    }
}

/// The number of bytes that a number takes.
pub open spec fn spec_byte_len(t: nat) -> nat
    decreases t,
{
    if t == 0 {
        0
    } else {
        1 + spec_byte_len(t / 256)
    }
}

/// The compact form of a target below `2^256`: its three most significant
/// bytes as the mantissa, shifted down one byte where the sign bit would be
/// set, and its byte length as the size.
pub open spec fn spec_compact(t: nat) -> u32 {
    let s = spec_byte_len(t);
    let m = if s <= 3 {
        t * pow2((8 * (3 - s)) as nat)
    } else {
        (t / pow2((8 * (s - 3)) as nat)) as nat
    };
    if m >= 0x80_0000 {
        (m / 256 + (s + 1) * 0x100_0000) as u32
    } else {
        (m + s * 0x100_0000) as u32
    }
}

/// The time that a period is taken to have lasted: the measured time, kept
/// between a quarter and four times the intended time.
pub open spec fn spec_clamped_timespan(actual: int, intended: nat) -> nat {
    if actual < intended / 4 {
        intended / 4
    } else if actual > intended * 4 {
        intended * 4
    } else {
        actual as nat
    }
}

/// The target after an adjustment: the old target scaled by the time the
/// period took over the time it should have taken, no easier than `limit`.
pub open spec fn spec_next_target(prev: nat, actual: int, intended: nat, limit: nat) -> nat {
    let raw = (prev * spec_clamped_timespan(actual, intended)) / intended;
    if raw > limit {
        limit
    } else {
        raw as nat
    }
}

/// The rules of a network that bear on proof of work.
#[derive(Clone, Copy, Debug, PartialEq, Eq, Structural)]
pub struct Params {
    /// The easiest target allowed, in compact form.
    pub pow_limit_bits: u32,
    /// Number of blocks between two adjustments of the difficulty.
    pub retarget_interval: u32,
    /// The time that `retarget_interval` blocks should take, in seconds.
    pub target_timespan: u32,
    /// Whether the difficulty never changes.
    pub no_retargeting: bool,
}

impl Params {
    /// The rules make sense: periods are not empty and the limit is a
    /// positive target.
    pub open spec fn wf(&self) -> bool {
        &&& self.retarget_interval >= 1
        &&& self.target_timespan >= 1
        &&& spec_target_or_zero(self.pow_limit_bits) > 0
    }

    /// The easiest target allowed.
    pub open spec fn spec_pow_limit(&self) -> nat {
        spec_target_or_zero(self.pow_limit_bits)
    }

    /// The compact target that the block after a period must carry, given
    /// the compact target of the period's last block and the times of its
    /// first and last block.
    pub open spec fn spec_next_bits(&self, prev_bits: u32, first_time: u32, last_time: u32) -> u32 {
        spec_compact(
            spec_next_target(
                spec_target_or_zero(prev_bits),
                last_time - first_time,
                self.target_timespan as nat,
                self.spec_pow_limit(),
            ),
        )
    }

    /// Whether the rules make sense.
    pub fn is_valid(&self) -> (r: bool)
        ensures
            r == self.wf(),
    {
        if self.retarget_interval == 0 || self.target_timespan == 0 {
            return false;
        }
        match target_from_bits(self.pow_limit_bits) {
            Some(t) => !t.is_zero(),
            None => false,
        }
    }

    /// The easiest target allowed.
    pub fn pow_limit(&self) -> (r: U256)
        ensures
            r@ == self.spec_pow_limit(),
    {
        target_or_zero(self.pow_limit_bits)
    }

    /// The compact target that the block after a period must carry.
    pub fn next_bits(&self, prev_bits: u32, first_time: u32, last_time: u32) -> (r: u32)
        requires
            self.wf(),
        ensures
            r == self.spec_next_bits(prev_bits, first_time, last_time),
    {
        let prev: U256 = target_or_zero(prev_bits);
        let limit: U256 = self.pow_limit();
        let next: U256 = next_target(prev, first_time, last_time, self.target_timespan, limit);
        compact_from_target(next)
    }
}

/// Decodes a compact target; `None` where it is negative or too large.
pub fn target_from_bits(bits: u32) -> (r: Option<U256>)
    ensures
        match r {
            Some(t) => spec_target(bits) == Some(t@),
            None => spec_target(bits) is None,
        },
{
    let exponent: u32 = bits / 0x100_0000;
    let mantissa: u32 = bits % 0x80_0000;
    let sign: bool = (bits / 0x80_0000) % 2 == 1;
    if sign && mantissa != 0 {
        return None;
    }
    proof {
        lemma2_to64();
        lemma_pow2_256();
    }
    if exponent <= 3 {
        let m: u32 = if exponent == 3 {
            mantissa
        } else if exponent == 2 {
            mantissa / 0x100
        } else if exponent == 1 {
            mantissa / 0x1_0000
        } else {
            0
        };
        proof {
            let e = spec_compact_exponent(bits);
            assert(e == exponent);
            if exponent == 3 {
                assert(pow2((8 * (3 - e)) as nat) == pow2(0));
            } else if exponent == 2 {
                assert(pow2((8 * (3 - e)) as nat) == pow2(8));
            } else if exponent == 1 {
                assert(pow2((8 * (3 - e)) as nat) == pow2(16));
            } else {
                assert(pow2((8 * (3 - e)) as nat) == pow2(24));
            }
            assert(spec_compact_value(bits) == m);
        }
        Some(U256::from_u64(m as u64))
    } else {
        let shift: u32 = 8 * (exponent - 3);
        assert(spec_compact_value(bits) == mantissa * pow2(shift as nat));
        U256::from_u64(mantissa as u64).checked_shl(shift)
    }
}

/// The target of a compact form, zero where it has none.
pub fn target_or_zero(bits: u32) -> (r: U256)
    ensures
        r@ == spec_target_or_zero(bits),
{
    match target_from_bits(bits) {
        Some(t) => t,
        None => U256::zero(),
    }
}

/// The work that a target stands for.
pub fn work_from_target(target: U256) -> (r: U256)
    ensures
        r@ == spec_work(target@),
{
    if target.is_zero() {
        return U256::max_value();
    }
    let above: (U256, bool) = target.add_carry(U256::one());
    if above.1 {
        assert(target@ + 1 == two_pow_256());
        assert(two_pow_256() / two_pow_256() == 1);
        return U256::one();
    }
    let d: U256 = above.0;
    let rest: (U256, bool) = U256::max_value().sub_borrow(target);
    let qr: (U256, U256) = rest.0.div_rem(d);
    proof {
        let x: int = rest.0@ as int;
        let di: int = d@ as int;
        lemma_div_plus_one(x, di);
        assert(x / di <= x) by (nonlinear_arith)
            requires
                x >= 0,
                di >= 1,
        ;
    }
    let r: (U256, bool) = qr.0.add_carry(U256::one());
    r.0
}

/// The work of the target that `bits` stands for.
pub fn work_from_bits(bits: u32) -> (r: U256)
    ensures
        r@ == spec_work(spec_target_or_zero(bits)),
{
    work_from_target(target_or_zero(bits))
}

/// Whether `hash` meets the target that `bits` stands for, and that target
/// is positive and no easier than `limit`.
pub fn check_proof_of_work(hash: &U256, bits: u32, limit: &U256) -> (r: bool)
    ensures
        r == spec_pow_valid(hash@, bits, limit@),
{
    match target_from_bits(bits) {
        Some(t) => !t.is_zero() && t.le(limit) && hash.le(&t),
        None => false,
    }
}

/// A number takes at most `k` bytes exactly when it is below `256^k`.
pub proof fn lemma_byte_len_bound(t: nat, k: nat)
    ensures
        spec_byte_len(t) <= k <==> t < pow2(8 * k),
    decreases k,
{
    lemma2_to64();
    if k == 0 {
        if t != 0 {
            assert(spec_byte_len(t) == 1 + spec_byte_len(t / 256));
        }
    } else {
        lemma_pow2_adds(8, (8 * (k - 1)) as nat);
        lemma_byte_len_bound(t / 256, (k - 1) as nat);
    }
}

/// The number of bytes that a target takes.
pub fn byte_len(target: U256) -> (size: u32)
    ensures
        size == spec_byte_len(target@),
        size <= 32,
{
    let byte: U256 = U256::from_u64(256);
    let mut cur: U256 = target;
    let mut size: u32 = 0;
    proof {
        lemma_pow2_256();
        lemma_byte_len_bound(target@, 32);
    }
    while !cur.is_zero()
        invariant
            byte@ == 256,
            size + spec_byte_len(cur@) == spec_byte_len(target@),
            spec_byte_len(target@) <= 32,
        decreases cur@,
    {
        let qr: (U256, U256) = cur.div_rem(byte);
        cur = qr.0;
        size = size + 1;
    }
    size
}

/// The mantissa of a target of at most three bytes: the target, moved up
/// to fill three bytes.
fn mantissa_of_small(target: U256, size: u32) -> (m: u32)
    requires
        size == spec_byte_len(target@),
        size <= 3,
    ensures
        m == target@ * pow2((8 * (3 - size)) as nat),
        m < 0x100_0000,
{
    proof {
        lemma2_to64();
        lemma_byte_len_bound(target@, size as nat);
        lemma_byte_len_bound(target@, 3);
    }
    assert(target@ < 0x100_0000);
    assert(target.hi == 0);
    let low: u32 = target.lo as u32;
    let ghost t: int = target@ as int;
    let ghost p: int = pow2((8 * (3 - size)) as nat) as int;
    if size == 3 {
        assert(p == 1);
        assert(t * p == t) by (nonlinear_arith)
            requires
                p == 1,
        ;
        low
    } else if size == 2 {
        assert(p == 0x100);
        assert(pow2((8 * size) as nat) == 0x1_0000);
        assert(t * p == t * 0x100) by (nonlinear_arith)
            requires
                p == 0x100,
        ;
        low * 0x100
    } else if size == 1 {
        assert(p == 0x1_0000);
        assert(pow2((8 * size) as nat) == 0x100);
        assert(t * p == t * 0x1_0000) by (nonlinear_arith)
            requires
                p == 0x1_0000,
        ;
        low * 0x1_0000
    } else {
        assert(pow2((8 * size) as nat) == 1);
        assert(t * p == 0) by (nonlinear_arith)
            requires
                t == 0,
        ;
        0
    }
}

/// The mantissa of a target of more than three bytes: its three most
/// significant bytes.
fn mantissa_of_large(target: U256, size: u32) -> (m: u32)
    requires
        size == spec_byte_len(target@),
        3 < size <= 32,
    ensures
        m == target@ / pow2((8 * (size - 3)) as nat),
        m < 0x100_0000,
{
    let byte: U256 = U256::from_u64(256);
    let mut top: U256 = target;
    let mut k: u32 = 0;
    proof {
        lemma2_to64();
        let t: int = target@ as int;
        let one: int = pow2((8 * k) as nat) as int;
        assert(one == 1);
        assert(t / one == t) by (nonlinear_arith)
            requires
                one == 1,
        ;
    }
    while k < size - 3
        invariant
            byte@ == 256,
            3 < size <= 32,
            k <= size - 3,
            size == spec_byte_len(target@),
            top@ == target@ / pow2((8 * k) as nat),
            spec_byte_len(top@) == size - k,
        decreases size - 3 - k,
    {
        proof {
            lemma2_to64();
            vstd::arithmetic::power2::lemma_pow2_pos((8 * k) as nat);
            lemma_div_denominator(target@ as int, pow2((8 * k) as nat) as int, 256);
            lemma_pow2_adds((8 * k) as nat, 8);
        }
        let qr: (U256, U256) = top.div_rem(byte);
        top = qr.0;
        k = k + 1;
    }
    proof {
        lemma2_to64();
        lemma_byte_len_bound(top@, 3);
    }
    assert(top@ < 0x100_0000);
    assert(top.hi == 0);
    top.lo as u32
}

/// Encodes a target in compact form.
pub fn compact_from_target(target: U256) -> (bits: u32)
    ensures
        bits == spec_compact(target@),
{
    let size: u32 = byte_len(target);
    let mantissa: u32 = if size <= 3 {
        mantissa_of_small(target, size)
    } else {
        mantissa_of_large(target, size)
    };
    if mantissa >= 0x80_0000 {
        mantissa / 256 + (size + 1) * 0x100_0000
    } else {
        mantissa + size * 0x100_0000
    }
}

/// The target after an adjustment.
pub fn next_target(
    prev: U256,
    first_time: u32,
    last_time: u32,
    intended: u32,
    limit: U256,
) -> (r: U256)
    requires
        intended >= 1,
    ensures
        r@ == spec_next_target(prev@, last_time - first_time, intended as nat, limit@),
{
    let low: u64 = (intended / 4) as u64;
    let high: u64 = (intended as u64) * 4;
    let span: u64 = if last_time < first_time {
        low
    } else {
        let actual: u64 = (last_time - first_time) as u64;
        if actual < low {
            low
        } else if actual > high {
            high
        } else {
            actual
        }
    };
    assert(span == spec_clamped_timespan(last_time - first_time, intended as nat));
    let qr: (U256, U256) = prev.div_rem(U256::from_u64(intended as u64));
    let rem: u128 = qr.1.lo;
    proof {
        let r: int = qr.1@ as int;
        let t: int = intended as int;
        assert(r == (prev@ as int) % t);
        assert(0 <= r < t) by (nonlinear_arith)
            requires
                r == (prev@ as int) % t,
                t > 0,
        ;
        assert(rem == r);
        assert(rem * (span as int) <= 0xffff_ffff * 0x4_0000_0000) by (nonlinear_arith)
            requires
                0 <= rem <= 0xffff_ffff,
                0 <= span <= 0x4_0000_0000,
        ;
    }
    let tail: u128 = (rem * (span as u128)) / (intended as u128);
    proof {
        let p: int = prev@ as int;
        let t: int = intended as int;
        let s: int = span as int;
        let q: int = qr.0@ as int;
        let r: int = rem as int;
        lemma_fundamental_div_mod(p, t);
        lemma_fundamental_div_mod(r * s, t);
        assert(p * s == (q * s + (r * s) / t) * t + (r * s) % t) by (nonlinear_arith)
            requires
                p == t * q + r,
                r * s == t * ((r * s) / t) + (r * s) % t,
        ;
        assert(0 <= (r * s) % t < t) by (nonlinear_arith)
            requires
                t > 0,
        ;
        lemma_fundamental_div_mod_converse(p * s, t, q * s + (r * s) / t, (r * s) % t);
    }
    let scaled: Option<U256> = qr.0.checked_mul_u64(span);
    match scaled {
        None => limit,
        Some(head) => {
            let sum: (U256, bool) = head.add_carry(U256::from_u128(tail));
            if sum.1 || limit.lt(&sum.0) {
                limit
            } else {
                sum.0
            }
        },
    }
}

} // verus!
