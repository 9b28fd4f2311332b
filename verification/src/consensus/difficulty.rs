//! Difficulty adjustment.

use crate::consensus::block::{
    compact_exponent, compact_mantissa, compact_target, compact_value, expand_compact,
    split_compact, BlockHeader, BlockHeaderView, TargetError, U256,
};
use crate::consensus::params::ChainParams;
use crate::consensus::u256::{lemma_u256_bound, lemma_u256_injective, two_256};
use crate::primitives::bigint::lemma_byte_range_monotone;
use crate::primitives::bytes::{
    byte_range, le_value, lemma_byte_range_step, lemma_byte_range_values, lemma_le_value_bound,
    lemma_le_value_concat, lemma_le_value_zeros,
};
use vstd::arithmetic::div_mod::*;
use vstd::prelude::*;

verus! {

pub const MAINNET_TARGET_BLOCK_TIME: u64 = 150;

/// Mainnet: RandomX conservative launch target with 10 leading zero bits.
/// Big-endian: 0x003FFFFF...FFFF (2^246 - 1).
pub const MAINNET_MAX_TARGET: [u8; 32] = [
        0xFF, 0xFF, 0xFF, 0xFF, 0xFF, 0xFF, 0xFF, 0xFF, 0xFF, 0xFF, 0xFF, 0xFF, 0xFF, 0xFF, 0xFF,
        0xFF, 0xFF, 0xFF, 0xFF, 0xFF, 0xFF, 0xFF, 0xFF, 0xFF, 0xFF, 0xFF, 0xFF, 0xFF, 0xFF, 0xFF,
        0x3F, 0x00,
];

/// Testnet: RandomX calibrated for 40.12 H/s at 150 s block time.
/// Big-endian: 0x000AE3D6D27BB41C..., about 12 leading zero bits.
pub const TESTNET_MAX_TARGET: [u8; 32] = [
        0xE3, 0x0A, 0x80, 0xDF, 0xFD, 0x58, 0x6A, 0x9E, 0x3A, 0x0F, 0x8D, 0x06, 0x73, 0xB8, 0x88,
        0xF9, 0x4B, 0x43, 0x29, 0xDB, 0xF0, 0x31, 0xF5, 0x3E, 0x1C, 0xB4, 0x7B, 0xD2, 0xD6, 0xE3,
        0x0A, 0x00,
];

/// Regtest: near-trivial (n_bits 0x207fffff) for instant block generation.
pub const REGTEST_MAX_TARGET: [u8; 32] = [
        0, 0, 0, 0, 0, 0, 0, 0, 0, 0, 0, 0, 0, 0, 0, 0, 0, 0, 0, 0, 0, 0, 0, 0, 0, 0, 0, 0, 0, 0xFF,
        0xFF, 0x7F,
];

#[derive(Debug, Clone, Copy)]
pub enum DifficultyError {
    InvalidTimestamp,
    Overflow,
    TargetError(TargetError),
    TargetMismatch { expected: U256, actual: U256 },
}

impl PartialEq for DifficultyError {
    fn eq(&self, other: &DifficultyError) -> (r: bool) {
        proof {
            if let DifficultyError::TargetMismatch { expected: e1, actual: a1 } = self {
                if let DifficultyError::TargetMismatch { expected: e2, actual: a2 } = other {
                    if e1@ == e2@ && a1@ == a2@ {
                        lemma_u256_injective(*e1, *e2);
                        lemma_u256_injective(*a1, *a2);
                    }
                }
            }
        }
        match (self, other) {
            (DifficultyError::InvalidTimestamp, DifficultyError::InvalidTimestamp) => true,
            (DifficultyError::Overflow, DifficultyError::Overflow) => true,
            (DifficultyError::TargetError(a), DifficultyError::TargetError(b)) => *a == *b,
            (
                DifficultyError::TargetMismatch { expected: e1, actual: a1 },
                DifficultyError::TargetMismatch { expected: e2, actual: a2 },
            ) => *e1 == *e2 && *a1 == *a2,
            _ => false,
        }
    }
}

impl vstd::std_specs::cmp::PartialEqSpecImpl for DifficultyError {
    open spec fn obeys_eq_spec() -> bool {
        true
    }

    open spec fn eq_spec(&self, other: &DifficultyError) -> bool {
        *self == *other
    }
}

impl Eq for DifficultyError {

}

/// Number of bytes that a number takes, without leading zeros.
pub open spec fn significant_bytes(t: nat) -> nat
    decreases t,
{
    if t == 0 {
        0
    } else {
        1 + significant_bytes(t / 256)
    }
}

/// The three highest bytes of a number, as a number.
pub open spec fn leading_three(t: nat) -> nat {
    let size = significant_bytes(t);
    if size <= 3 {
        t * byte_range((3 - size) as nat)
    } else {
        t / byte_range((size - 3) as nat)
    }
}

/// Exponent of the compact form of a number that is not zero.
pub open spec fn compact_size(t: nat) -> nat {
    if leading_three(t) >= 0x80_0000 {
        significant_bytes(t) + 1
    } else {
        significant_bytes(t)
    }
}

/// Mantissa of the compact form of a number that is not zero. A mantissa whose
/// top bit is set would read as negative and is shifted down by a byte.
pub open spec fn compact_lead(t: nat) -> nat {
    if leading_three(t) >= 0x80_0000 {
        leading_three(t) / 256
    } else {
        leading_three(t)
    }
}

/// The compact form of a number.
pub open spec fn compact_of(t: nat) -> nat {
    if t == 0 {
        0
    } else {
        compact_size(t) * 0x100_0000 + compact_lead(t)
    }
}

/// What is left of a number in its compact form.
pub open spec fn compact_rounded(t: nat) -> nat {
    compact_value(compact_size(t), compact_lead(t))
}

pub proof fn lemma_significant_bytes(t: nat, n: nat)
    requires
        n >= 1,
        byte_range((n - 1) as nat) <= t < byte_range(n),
    ensures
        significant_bytes(t) == n,
    decreases n,
{
    lemma_byte_range_step((n - 1) as nat);
    if n == 1 {
        lemma_byte_range_step(0);
        reveal_with_fuel(significant_bytes, 2);
        assert(t / 256 == 0);
    } else {
        lemma_byte_range_step((n - 2) as nat);
        assert(byte_range((n - 2) as nat) <= t / 256 < byte_range((n - 1) as nat));
        lemma_significant_bytes(t / 256, (n - 1) as nat);
    }
}

pub proof fn lemma_significant_range(t: nat)
    requires
        t > 0,
    ensures
        significant_bytes(t) >= 1,
        byte_range((significant_bytes(t) - 1) as nat) <= t < byte_range(significant_bytes(t)),
    decreases t,
{
    lemma_byte_range_step(0);
    reveal_with_fuel(significant_bytes, 2);
    if t / 256 > 0 {
        lemma_significant_range(t / 256);
        let k = significant_bytes(t / 256);
        lemma_byte_range_step((k - 1) as nat);
        lemma_byte_range_step(k);
    }
}

/// The three leading bytes of a number that is not zero: the first is not zero.
pub proof fn lemma_leading_three(t: nat)
    requires
        t > 0,
    ensures
        0x1_0000 <= leading_three(t) < 0x100_0000,
{
    lemma_byte_range_values();
    lemma_byte_range_step(0);
    lemma_significant_range(t);
    let size = significant_bytes(t);
    if size > 3 {
        let d = byte_range((size - 3) as nat);
        lemma_byte_range_step((size - 3) as nat);
        lemma_byte_range_step((size - 2) as nat);
        lemma_byte_range_step((size - 1) as nat);
        assert(0x1_0000 * d <= t < 0x100_0000 * d);
        assert(0x1_0000 <= t / d < 0x100_0000) by (nonlinear_arith)
            requires
                0x1_0000 * d <= t < 0x100_0000 * d,
                d > 0,
        ;
    } else if size == 1 {
        assert(t * byte_range(2) == t * 0x1_0000);
    } else if size == 2 {
        assert(t * byte_range(1) == t * 0x100);
    } else {
        assert(t * byte_range(0) == t);
    }
}

/// The compact form holds exponent and mantissa apart, and its mantissa does
/// not read as negative.
pub proof fn lemma_compact_of_parts(t: nat)
    requires
        0 < t < two_256(),
    ensures
        0x8000 <= compact_lead(t) < 0x80_0000,
        1 <= compact_size(t) <= 33,
        compact_of(t) < 0x1_0000_0000,
        compact_exponent(compact_of(t) as u32) == compact_size(t),
        compact_mantissa(compact_of(t) as u32) == compact_lead(t),
{
    lemma_leading_three(t);
    lemma_significant_range(t);
    if significant_bytes(t) > 32 {
        lemma_byte_range_monotone(32, (significant_bytes(t) - 1) as nat);
    }
}

/// Rounding to the compact form never makes a number larger.
pub proof fn lemma_compact_rounds_down(t: nat)
    requires
        t > 0,
    ensures
        compact_rounded(t) <= t,
{
    lemma_byte_range_values();
    lemma_byte_range_step(0);
    lemma_leading_three(t);
    lemma_significant_range(t);
    let size = significant_bytes(t);
    let m = leading_three(t);
    if size > 3 {
        let d = byte_range((size - 3) as nat);
        lemma_byte_range_step((size - 3) as nat);
        assert(m * d <= t) by (nonlinear_arith)
            requires
                m == t / d,
                d > 0,
        ;
        if m >= 0x80_0000 {
            let q = m / 256;
            assert(q * (256 * d) <= m * d) by (nonlinear_arith)
                requires
                    q * 256 <= m,
                    d > 0,
            ;
        }
    } else {
        lemma_small_sizes(t);
    }
}

/// Numbers of up to three bytes keep their value in the compact form, but for
/// the lowest byte of one with three bytes and its top bit set.
proof fn lemma_small_sizes(t: nat)
    requires
        t > 0,
        significant_bytes(t) <= 3,
    ensures
        compact_rounded(t) == (if significant_bytes(t) == 3 && t >= 0x80_0000 {
            (t / 256) * 256
        } else {
            t
        }),
{
    lemma_byte_range_values();
    lemma_byte_range_step(0);
    lemma_significant_range(t);
    let size = significant_bytes(t);
    if size == 1 {
        assert(t * byte_range(2) == t * 0x1_0000);
        assert((t * 0x1_0000) / 256 == t * 0x100);
        assert((t * 0x100) / byte_range(1) == t);
        assert((t * 0x1_0000) / byte_range(2) == t);
    } else if size == 2 {
        assert(t * byte_range(1) == t * 0x100);
        assert((t * 0x100) / 256 == t);
        assert((t * 0x100) / byte_range(1) == t);
        assert(t / byte_range(0) == t);
    } else {
        assert(t * byte_range(0) == t);
        assert(t / byte_range(0) == t);
        let q = t / 256;
        assert(q * byte_range(1) == q * 256);
    }
}

/// A number with a compact form of its own that is not above another is not above what that
/// one is rounded to.
proof fn lemma_compact_is_nearest(t: nat, exponent: nat, mantissa: nat)
    requires
        t > 0,
        mantissa < 0x80_0000,
        compact_value(exponent, mantissa) <= t,
    ensures
        compact_value(exponent, mantissa) <= compact_rounded(t),
{
    lemma_byte_range_values();
    lemma_byte_range_step(0);
    lemma_leading_three(t);
    lemma_significant_range(t);
    let s = compact_value(exponent, mantissa);
    let size = significant_bytes(t);
    let m = leading_three(t);
    if exponent <= 3 {
        let d = byte_range((3 - exponent) as nat);
        lemma_byte_range_monotone(0, (3 - exponent) as nat);
        assert(mantissa / d <= mantissa) by (nonlinear_arith)
            requires
                d >= 1,
        ;
    }
    if size <= 3 {
        lemma_small_sizes(t);
        if size == 3 && t >= 0x80_0000 && s >= 0x80_0000 {
            assert(exponent > 3);
            let e = byte_range((exponent - 4) as nat);
            lemma_byte_range_step((exponent - 4) as nat);
            assert(mantissa * (256 * e) == (mantissa * e) * 256) by (nonlinear_arith);
            lemma_multiple_below(s, 256, mantissa * e, t);
        }
    } else {
        let d = byte_range((size - 3) as nat);
        lemma_byte_range_step((size - 3) as nat);
        lemma_byte_range_step((size - 4) as nat);
        lemma_byte_range_monotone(1, (size - 3) as nat);
        if m < 0x80_0000 {
            if exponent >= size {
                lemma_byte_range_add((size - 3) as nat, (exponent - size) as nat);
                let k = byte_range((exponent - size) as nat);
                assert(mantissa * (d * k) == (mantissa * k) * d) by (nonlinear_arith);
                lemma_multiple_below(s, d, mantissa * k, t);
            } else {
                assert(0x1_0000 * d <= m * d) by (nonlinear_arith)
                    requires
                        0x1_0000 <= m,
                ;
                if exponent > 3 {
                    let e = byte_range((exponent - 3) as nat);
                    lemma_byte_range_monotone((exponent - 3) as nat, (size - 4) as nat);
                    assert(mantissa * e <= 0x80_0000 * byte_range((size - 4) as nat)) by (
                    nonlinear_arith)
                        requires
                            mantissa <= 0x80_0000,
                            e <= byte_range((size - 4) as nat),
                    ;
                }
            }
        } else {
            let q = m / 256;
            assert(0x80_0000 * d <= q * (256 * d)) by (nonlinear_arith)
                requires
                    q * 256 >= 0x80_0000,
                    d > 0,
            ;
            if exponent > size {
                lemma_byte_range_add((size - 2) as nat, (exponent - size - 1) as nat);
                let k = byte_range((exponent - size - 1) as nat);
                assert(mantissa * ((256 * d) * k) == (mantissa * k) * (256 * d)) by (
                nonlinear_arith);
                lemma_multiple_below(s, 256 * d, mantissa * k, t);
                lemma_div_denominator(t as int, d as int, 256);
                assert(d * 256 == 256 * d) by (nonlinear_arith);
            } else if exponent > 3 {
                let e = byte_range((exponent - 3) as nat);
                lemma_byte_range_monotone((exponent - 3) as nat, (size - 3) as nat);
                assert(mantissa * e <= 0x80_0000 * d) by (nonlinear_arith)
                    requires
                        mantissa <= 0x80_0000,
                        e <= d,
                ;
            }
        }
    }
}

proof fn lemma_multiple_below(s: nat, d: nat, k: nat, t: nat)
    requires
        d > 0,
        s == k * d,
        s <= t,
    ensures
        s <= (t / d) * d,
{
    assert(k <= t / d) by (nonlinear_arith)
        requires
            d > 0,
            k * d <= t,
    ;
    assert(k * d <= (t / d) * d) by (nonlinear_arith)
        requires
            k <= t / d,
    ;
}

proof fn lemma_byte_range_add(a: nat, b: nat)
    ensures
        byte_range(a + b) == byte_range(a) * byte_range(b),
    decreases b,
{
    lemma_byte_range_step(0);
    lemma_byte_range_values();
    if b == 0 {
        assert(byte_range(a) * 1 == byte_range(a));
    } else {
        lemma_byte_range_add(a, (b - 1) as nat);
        lemma_byte_range_step((b - 1) as nat);
        lemma_byte_range_step((a + b - 1) as nat);
        let x = byte_range(a);
        let y = byte_range((b - 1) as nat);
        assert(256 * (x * y) == x * (256 * y)) by (nonlinear_arith);
    }
}

/// The compact form of a target stands for the largest target not above it that has a compact
/// form: for the target itself where that has one.
pub proof fn lemma_compact_is_largest(t: nat)
    requires
        2 * t < two_256(),
    ensures
        compact_target(compact_of(t) as u32) is Ok,
        compact_target(compact_of(t) as u32)->Ok_0 <= t,
        forall|n_bits: u32|
            (#[trigger] compact_target(n_bits)) is Ok && compact_target(n_bits)->Ok_0 <= t
                ==> compact_target(n_bits)->Ok_0 <= compact_target(compact_of(t) as u32)->Ok_0,
        (exists|n_bits: u32| #[trigger] compact_target(n_bits) == Ok::<nat, TargetError>(t))
            ==> compact_target(compact_of(t) as u32)->Ok_0 == t,
{
    lemma_byte_range_values();
    lemma_byte_range_step(0);
    if t == 0 {
        assert(0nat / byte_range(3) == 0) by {
            lemma_byte_range_monotone(0, 3);
            lemma_div_basics_1(byte_range(3) as int);
        }
        assert(compact_target(0u32) == Ok::<nat, TargetError>(0));
    } else {
        lemma_compact_of_parts(t);
        lemma_compact_rounds_down(t);
        lemma_leading_three(t);
        lemma_significant_range(t);
        assert(compact_size(t) <= 32) by {
            if compact_size(t) > 32 {
                let size = significant_bytes(t);
                let m = leading_three(t);
                assert(size == 32);
                let d = byte_range(29);
                lemma_byte_range_step(29);
                lemma_byte_range_step(30);
                lemma_byte_range_step(31);
                assert(0x80_0000 * d <= t) by (nonlinear_arith)
                    requires
                        m == t / d,
                        m >= 0x80_0000,
                        d > 0,
                ;
                assert(2 * (0x80_0000 * d) == byte_range(32));
            }
        }
        assert(compact_target(compact_of(t) as u32) == Ok::<nat, TargetError>(
            compact_rounded(t),
        ));
        assert forall|n_bits: u32|
            (#[trigger] compact_target(n_bits)) is Ok && compact_target(n_bits)->Ok_0
                <= t implies compact_target(n_bits)->Ok_0 <= compact_rounded(t) by {
            lemma_compact_is_nearest(t, compact_exponent(n_bits), compact_mantissa(n_bits));
        }
    }
}

/// A number that was rounded to the compact form keeps its compact form, so
/// the target that a block states in `n_bits` is the target it was given.
pub proof fn lemma_compact_fixed_point(t: nat)
    requires
        t > 0,
    ensures
        compact_rounded(t) > 0,
        compact_of(compact_rounded(t)) == compact_of(t),
{
    lemma_byte_range_values();
    lemma_byte_range_step(0);
    lemma_leading_three(t);
    lemma_significant_range(t);
    let size = significant_bytes(t);
    let m = leading_three(t);
    let v = compact_rounded(t);
    if size > 3 {
        let d = byte_range((size - 3) as nat);
        lemma_byte_range_step((size - 3) as nat);
        lemma_byte_range_step((size - 2) as nat);
        lemma_byte_range_step((size - 1) as nat);
        let m2 = if m >= 0x80_0000 {
            (m / 256) * 256
        } else {
            m
        };
        if m >= 0x80_0000 {
            let q = m / 256;
            assert(q * (256 * d) == (q * 256) * d) by (nonlinear_arith);
        }
        assert(v == m2 * d);
        assert(0x1_0000 * d <= m2 * d < 0x100_0000 * d) by (nonlinear_arith)
            requires
                0x1_0000 <= m2 < 0x100_0000,
                d > 0,
        ;
        lemma_significant_bytes(v, size);
        lemma_div_multiples_vanish(m2 as int, d as int);
        assert(m2 * d == d * m2) by (nonlinear_arith);
        assert(leading_three(v) == m2);
    } else {
        lemma_small_sizes(t);
        if size == 3 && t >= 0x80_0000 {
            lemma_significant_bytes(v, 3);
            assert(v * byte_range(0) == v);
            assert(t * byte_range(0) == t);
        }
    }
}

/// Writes a number in compact form.
pub fn u256_to_compact(target: &U256) -> (n_bits: u32)
    ensures
        n_bits == compact_of(target@),
{
    let bytes = target.0;
    let ghost all = bytes@;
    let mut size: usize = 32;
    while size > 0 && bytes[size - 1] == 0
        invariant
            size <= 32,
            all == bytes@,
            forall|j: int| size <= j < 32 ==> all[j] == 0,
        decreases size,
    {
        size -= 1;
    }
    proof {
        lemma_u256_bound(*target);
    }
    if size == 0 {
        proof {
            lemma_le_value_zeros(all);
        }
        return 0;
    }
    let top: u32 = bytes[size - 1] as u32;
    let second: u32 = if size >= 2 {
        bytes[size - 2] as u32
    } else {
        0
    };
    let third: u32 = if size >= 3 {
        bytes[size - 3] as u32
    } else {
        0
    };
    let mantissa: u32 = top * 0x1_0000 + second * 0x100 + third;
    proof {
        lemma_leading_bytes(all, size as int);
        lemma_compact_of_parts(target@);
    }
    if mantissa >= 0x80_0000 {
        (size as u32 + 1) * 0x100_0000 + mantissa / 256
    } else {
        (size as u32) * 0x100_0000 + mantissa
    }
}

proof fn lemma_leading_bytes(all: Seq<u8>, size: int)
    requires
        all.len() == 32,
        1 <= size <= 32,
        all[size - 1] != 0,
        forall|j: int| size <= j < 32 ==> all[j] == 0,
    ensures
        le_value(all) > 0,
        significant_bytes(le_value(all)) == size,
        leading_three(le_value(all)) == all[size - 1] * 0x1_0000 + (if size >= 2 {
            all[size - 2] * 0x100
        } else {
            0
        }) + (if size >= 3 {
            all[size - 3] as int
        } else {
            0
        }),
{
    let t = le_value(all);
    let used = all.take(size);
    assert(all =~= used + all.skip(size));
    lemma_le_value_concat(used, all.skip(size));
    lemma_le_value_zeros(all.skip(size));
    assert(byte_range(size as nat) * 0 == 0);
    assert(t == le_value(used));
    lemma_le_value_bound(used);
    lemma_byte_range_values();
    lemma_byte_range_step(0);
    lemma_byte_range_step((size - 1) as nat);
    reveal_with_fuel(le_value, 4);
    if size >= 3 {
        let low = used.take(size - 3);
        let lead = used.skip(size - 3);
        assert(used =~= low + lead);
        lemma_le_value_concat(low, lead);
        assert(lead.skip(1).skip(1).skip(1) =~= Seq::empty());
        assert(lead.skip(1)[0] == all[size - 2]);
        assert(lead.skip(1).skip(1)[0] == all[size - 1]);
        assert(lead[0] == all[size - 3]);
        let m = le_value(lead);
        assert(m == all[size - 3] + 256 * (all[size - 2] + 256 * all[size - 1]));
        lemma_le_value_bound(low);
        let d = byte_range((size - 3) as nat);
        lemma_byte_range_step((size - 3) as nat);
        lemma_byte_range_step((size - 2) as nat);
        assert(d * m >= 0x1_0000 * d) by (nonlinear_arith)
            requires
                m >= 0x1_0000,
        ;
        lemma_significant_bytes(t, size as nat);
        if size > 3 {
            assert(d * m == m * d) by (nonlinear_arith);
            lemma_fundamental_div_mod_converse(t as int, d as int, m as int, le_value(low) as int);
        } else {
            assert(low =~= Seq::empty());
            assert(byte_range(0) * m == m);
            assert(t * byte_range(0) == t);
        }
    } else if size == 2 {
        assert(used.skip(1)[0] == all[1]);
        assert(used.skip(1).skip(1) =~= Seq::empty());
        assert(t == all[0] + 256 * all[1]);
        lemma_significant_bytes(t, 2);
        assert(t * byte_range(1) == t * 0x100);
    } else {
        assert(used.skip(1) =~= Seq::empty());
        assert(t == all[0]);
        lemma_significant_bytes(t, 1);
        assert(t * byte_range(2) == t * 0x1_0000);
    }
}

/// A target times `factor / scale`; one that takes more than 256 bits is cut to
/// the largest allowed target.
pub open spec fn scaled_target(target: nat, factor: nat, scale: nat, max_target: nat) -> nat {
    if (target * factor) / scale >= two_256() {
        max_target
    } else {
        (target * factor) / scale
    }
}

pub open spec fn smaller(a: nat, b: nat) -> nat {
    if a < b {
        a
    } else {
        b
    }
}

pub open spec fn larger(a: nat, b: nat) -> nat {
    if a > b {
        a
    } else {
        b
    }
}

/// Seconds from one block to the next, zero where the clock went back.
pub open spec fn seconds_between(earlier: u64, later: u64) -> nat {
    if later > earlier {
        (later - earlier) as nat
    } else {
        0
    }
}

/// The target before it is rounded: the previous one scaled by the time that
/// the block took, by no more than one percent either way, at least 1 and at
/// most the largest allowed.
pub open spec fn adjusted_target(prev_target: nat, elapsed: nat, params: ChainParams) -> nat {
    let max_target = params.max_target@;
    let block_time = params.target_block_time as nat;
    let span = if elapsed < block_time / 4 {
        block_time / 4
    } else {
        smaller(elapsed, block_time * 4)
    };
    let by_time = scaled_target(prev_target, span, block_time, max_target);
    let not_above = smaller(by_time, scaled_target(prev_target, 101, 100, max_target));
    let not_below = larger(not_above, scaled_target(prev_target, 99, 100, max_target));
    smaller(larger(not_below, 1), max_target)
}

/// The target of the block that follows another.
pub open spec fn next_target(
    prev: BlockHeaderView,
    timestamp: u64,
    params: ChainParams,
) -> Result<nat, DifficultyError> {
    let elapsed = seconds_between(prev.timestamp, timestamp);
    match prev.target() {
        Err(_) => Err(DifficultyError::InvalidTimestamp),
        Ok(prev_target) => if !params.difficulty_adjustment {
            Ok(prev_target)
        } else if params.allow_min_difficulty_blocks && elapsed > (params.target_block_time * 6)
            / 5 {
            Ok(params.max_target@)
        } else {
            let t = adjusted_target(prev_target, elapsed, params);
            if t == 0 {
                Ok(0)
            } else if compact_size(t) > 32 {
                Err(DifficultyError::Overflow)
            } else {
                Ok(compact_rounded(t))
            }
        },
    }
}

/// Computes the target of the block that follows `prev_header`.
pub fn calculate_next_target(
    prev_header: &BlockHeader,
    current_timestamp: u64,
    params: &ChainParams,
) -> (r: Result<U256, DifficultyError>)
    requires
        params.valid(),
    ensures
        match r {
            Ok(t) => next_target(prev_header@, current_timestamp, *params) == Ok::<
                nat,
                DifficultyError,
            >(t@),
            Err(e) => next_target(prev_header@, current_timestamp, *params) == Err::<
                nat,
                DifficultyError,
            >(e),
        },
{
    let prev_target = match prev_header.target() {
        Ok(t) => t,
        Err(_) => return Err(DifficultyError::InvalidTimestamp),
    };
    if !params.difficulty_adjustment {
        return Ok(prev_target);
    }
    // Timestamps may legitimately decrease (a block only needs to be above the
    // median time past, not above its predecessor). A timespan of 0 is raised to
    // a quarter of the block time, which makes the difficulty one percent higher.
    let elapsed: u64 = current_timestamp.saturating_sub(prev_header.timestamp);
    if params.allow_min_difficulty_blocks && elapsed > params.target_block_time * 6 / 5 {
        return Ok(params.max_target);
    }
    let block_time: u64 = params.target_block_time;
    let min_timespan: u64 = block_time / 4;
    let max_timespan: u64 = block_time * 4;
    let mut actual_timespan: u64 = elapsed;
    if actual_timespan < min_timespan {
        actual_timespan = min_timespan;
    } else if actual_timespan > max_timespan {
        actual_timespan = max_timespan;
    }
    let mut new_target = multiply_u256_by_factor(
        &prev_target,
        actual_timespan,
        block_time,
        &params.max_target,
    );
    let max_increase = multiply_u256_by_factor(&prev_target, 101, 100, &params.max_target);
    if new_target > max_increase {
        new_target = max_increase;
    }
    let max_decrease = multiply_u256_by_factor(&prev_target, 99, 100, &params.max_target);
    if new_target < max_decrease {
        new_target = max_decrease;
    }
    if new_target == U256::zero() {
        new_target = U256::one();
    }
    if new_target > params.max_target {
        new_target = params.max_target;
    }
    assert(new_target@ == adjusted_target(prev_target@, elapsed as nat, *params));
    let n_bits: u32 = u256_to_compact(&new_target);
    let (exponent, mantissa) = split_compact(n_bits);
    proof {
        lemma_u256_bound(new_target);
        if new_target@ > 0 {
            lemma_compact_of_parts(new_target@);
        } else {
            lemma_byte_range_values();
            assert(compact_value(0, 0) == 0);
        }
    }
    match expand_compact(exponent, mantissa) {
        Some(t) => Ok(t),
        None => Err(DifficultyError::Overflow),
    }
}

fn multiply_u256_by_factor(target: &U256, factor: u64, scale: u64, max_target: &U256) -> (r: U256)
    requires
        scale != 0,
    ensures
        r@ == scaled_target(target@, factor as nat, scale as nat, max_target@),
{
    match target.scaled(factor, scale) {
        Some(t) => {
            proof {
                lemma_u256_bound(t);
            }
            t
        },
        None => *max_target,
    }
}

/// What is wrong with the target of a header, given its predecessor.
pub open spec fn difficulty_error(
    prev: BlockHeaderView,
    current: BlockHeaderView,
    params: ChainParams,
) -> Option<DifficultyError> {
    match next_target(prev, current.timestamp, params) {
        Err(e) => Some(e),
        Ok(expected) => match current.target() {
            Err(_) => Some(DifficultyError::InvalidTimestamp),
            Ok(actual) => if expected != actual {
                Some(
                    DifficultyError::TargetMismatch {
                        expected: crate::consensus::u256::u256_of(expected),
                        actual: crate::consensus::u256::u256_of(actual),
                    },
                )
            } else {
                None
            },
        },
    }
}

/// Checks that a header states the target that follows from its predecessor.
pub fn validate_difficulty(
    prev_header: Option<&BlockHeader>,
    current_header: &BlockHeader,
    params: &ChainParams,
) -> (r: Result<(), DifficultyError>)
    requires
        params.valid(),
    ensures
        match prev_header {
            None => r is Ok,
            Some(prev) => match difficulty_error(prev@, current_header@, *params) {
                Some(e) => r == Err::<(), DifficultyError>(e),
                None => r is Ok,
            },
        },
{
    let prev = match prev_header {
        Some(prev) => prev,
        None => return Ok(()),
    };
    let expected = match calculate_next_target(prev, current_header.timestamp, params) {
        Ok(t) => t,
        Err(e) => return Err(e),
    };
    let actual = match current_header.target() {
        Ok(t) => t,
        Err(_) => return Err(DifficultyError::InvalidTimestamp),
    };
    if expected != actual {
        proof {
            lemma_u256_injective(expected, crate::consensus::u256::u256_of(expected@));
            lemma_u256_injective(actual, crate::consensus::u256::u256_of(actual@));
        }
        return Err(DifficultyError::TargetMismatch { expected, actual });
    }
    Ok(())
}

/// Where difficulty is adjusted, no target is above the largest allowed one.
pub proof fn lemma_next_target_bounded(prev: BlockHeaderView, timestamp: u64, params: ChainParams)
    requires
        params.difficulty_adjustment,
        next_target(prev, timestamp, params) is Ok,
    ensures
        next_target(prev, timestamp, params)->Ok_0 <= params.max_target@,
{
    let t = adjusted_target(
        prev.target()->Ok_0,
        seconds_between(prev.timestamp, timestamp),
        params,
    );
    if t > 0 {
        lemma_compact_rounds_down(t);
    }
}

/// One block makes the target at most one percent easier, unless the network
/// lets it fall to the easiest at once.
pub proof fn lemma_next_target_rises_slowly(
    prev: BlockHeaderView,
    timestamp: u64,
    params: ChainParams,
)
    requires
        params.difficulty_adjustment,
        !params.allow_min_difficulty_blocks,
        next_target(prev, timestamp, params) is Ok,
        (prev.target()->Ok_0 * 101) / 100 < two_256(),
    ensures
        next_target(prev, timestamp, params)->Ok_0 <= larger((prev.target()->Ok_0 * 101) / 100, 1),
{
    let p = prev.target()->Ok_0;
    let t = adjusted_target(p, seconds_between(prev.timestamp, timestamp), params);
    if t > 0 {
        lemma_compact_rounds_down(t);
    }
}

/// A header that states the compact form of the target computed for it passes
/// the difficulty check.
pub proof fn lemma_computed_target_validates(
    prev: BlockHeaderView,
    current: BlockHeaderView,
    params: ChainParams,
)
    requires
        params.difficulty_adjustment,
        next_target(prev, current.timestamp, params) matches Ok(t) && t > 0 && current.n_bits
            == compact_of(t),
        !params.allow_min_difficulty_blocks,
    ensures
        difficulty_error(prev, current, params) is None,
{
    let t = adjusted_target(
        prev.target()->Ok_0,
        seconds_between(prev.timestamp, current.timestamp),
        params,
    );
    let v = compact_rounded(t);
    lemma_compact_rounds_down(t);
    lemma_compact_fixed_point(t);
    lemma_u256_bound(params.max_target);
    lemma_compact_of_parts(t);
    lemma_compact_of_parts(v);
    assert(compact_target(current.n_bits) == Ok::<nat, TargetError>(v));
}

} // verus!
