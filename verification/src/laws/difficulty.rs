//! How the target follows the time that a block took.

use crate::consensus::block::{
    compact_exponent, compact_mantissa, compact_target, BlockHeaderView, TargetError,
};
use crate::consensus::difficulty::{
    adjusted_target, compact_of, compact_rounded, compact_size, difficulty_error, leading_three,
    lemma_compact_is_largest, lemma_compact_of_parts, lemma_leading_three, lemma_significant_range,
    next_target, seconds_between, significant_bytes,
};
use crate::consensus::params::ChainParams;
use crate::consensus::u256::{lemma_u256_bound, two_256};
use crate::primitives::bigint::lemma_byte_range_monotone;
use crate::primitives::bytes::{
    byte_range, le_value, lemma_byte_range_step, lemma_byte_range_values,
};
use vstd::prelude::*;

verus! {

/// Whether a target is the largest with a compact form that is not above another.
pub open spec fn compact_floor(r: nat, t: nat) -> bool {
    &&& r <= t
    &&& exists|n_bits: u32| #[trigger] compact_target(n_bits) == Ok::<nat, TargetError>(r)
    &&& forall|n_bits: u32|
        (#[trigger] compact_target(n_bits)) is Ok && compact_target(n_bits)->Ok_0 <= t
            ==> compact_target(n_bits)->Ok_0 <= r
}

/// The lower of two numbers, but one where that is zero and the second is not.
pub open spec fn capped(t: nat, max: nat) -> nat {
    if t >= max {
        max
    } else if t == 0 {
        1
    } else {
        t
    }
}

proof fn lemma_compact_size_bounds(t: nat)
    requires
        0 < t < two_256(),
        compact_size(t) <= 32,
    ensures
        2 * t < two_256(),
{
    lemma_byte_range_values();
    lemma_significant_range(t);
    lemma_leading_three(t);
    let size = significant_bytes(t);
    if size < 32 {
        lemma_byte_range_monotone(size, 31);
        lemma_byte_range_step(31);
    } else {
        if size > 32 {
            lemma_byte_range_monotone(32, (size - 1) as nat);
        }
        let d = byte_range(29);
        lemma_byte_range_step(29);
        lemma_byte_range_step(30);
        lemma_byte_range_step(31);
        assert(leading_three(t) == t / d);
        assert(t < 0x80_0000 * d) by (nonlinear_arith)
            requires
                t / d < 0x80_0000,
                d > 0,
        ;
    }
}

proof fn lemma_next_is_floor(prev: BlockHeaderView, timestamp: u64, params: ChainParams)
    requires
        params.difficulty_adjustment,
        next_target(prev, timestamp, params) is Ok,
        !(params.allow_min_difficulty_blocks && 5 * seconds_between(prev.timestamp, timestamp) > 6
            * params.target_block_time),
        params.valid(),
    ensures
        compact_floor(
            next_target(prev, timestamp, params)->Ok_0,
            adjusted_target(
                prev.target()->Ok_0,
                seconds_between(prev.timestamp, timestamp),
                params,
            ),
        ),
{
    let elapsed = seconds_between(prev.timestamp, timestamp);
    let t = adjusted_target(prev.target()->Ok_0, elapsed, params);
    let r = next_target(prev, timestamp, params)->Ok_0;
    assert(!(elapsed > (params.target_block_time * 6) / 5) || !params.allow_min_difficulty_blocks);
    lemma_u256_bound(params.max_target);
    assert(t <= params.max_target@);
    if t == 0 {
        lemma_compact_is_largest(0);
    } else {
        lemma_compact_size_bounds(t);
        lemma_compact_is_largest(t);
        lemma_compact_of_parts(t);
        assert(compact_target(compact_of(t) as u32) == Ok::<nat, TargetError>(compact_rounded(t)));
    }
}

/// A block that took at least a hundredth longer than planned makes the target one percent
/// easier, up to the easiest and rounded to the compact form.
pub proof fn lemma_late_block_eases(prev: BlockHeaderView, timestamp: u64, params: ChainParams)
    requires
        params.valid(),
        params.difficulty_adjustment,
        next_target(prev, timestamp, params) is Ok,
        100 * (timestamp - prev.timestamp) >= 101 * params.target_block_time,
        !(params.allow_min_difficulty_blocks && 5 * (timestamp - prev.timestamp) > 6
            * params.target_block_time),
    ensures
        compact_floor(
            next_target(prev, timestamp, params)->Ok_0,
            capped(prev.target()->Ok_0 * 101 / 100, params.max_target@),
        ),
{
    let e = (timestamp - prev.timestamp) as nat;
    let b = params.target_block_time as nat;
    let p = prev.target()->Ok_0;
    let span = if e < b * 4 {
        e
    } else {
        b * 4
    };
    lemma_u256_bound(params.max_target);
    lemma_scaling_grows(p, 101, 100, span, b);
    lemma_scaling_grows(p, 99, 100, 101, 100);
    lemma_next_is_floor(prev, timestamp, params);
}

/// A block that took at least a hundredth less than planned makes the target one percent
/// harder, rounded to the compact form.
pub proof fn lemma_early_block_hardens(prev: BlockHeaderView, timestamp: u64, params: ChainParams)
    requires
        params.valid(),
        params.difficulty_adjustment,
        next_target(prev, timestamp, params) is Ok,
        100 * (timestamp - prev.timestamp) <= 99 * params.target_block_time,
    ensures
        compact_floor(
            next_target(prev, timestamp, params)->Ok_0,
            capped(prev.target()->Ok_0 * 99 / 100, params.max_target@),
        ),
{
    let e = seconds_between(prev.timestamp, timestamp);
    let b = params.target_block_time as nat;
    let p = prev.target()->Ok_0;
    let span = if e < b / 4 {
        b / 4
    } else {
        e
    };
    lemma_u256_bound(params.max_target);
    lemma_scaling_grows(p, span, b, 99, 100);
    lemma_scaling_grows(p, 99, 100, 101, 100);
    lemma_prev_target_bound(prev);
    assert(p * 99 / 100 <= p) by (nonlinear_arith);
    lemma_next_is_floor(prev, timestamp, params);
}

/// A block that took about as long as planned scales the target by the time that it took,
/// rounded to the compact form.
pub proof fn lemma_timely_block_scales(prev: BlockHeaderView, timestamp: u64, params: ChainParams)
    requires
        params.valid(),
        params.difficulty_adjustment,
        next_target(prev, timestamp, params) is Ok,
        99 * params.target_block_time <= 100 * (timestamp - prev.timestamp),
        100 * (timestamp - prev.timestamp) <= 101 * params.target_block_time,
    ensures
        compact_floor(
            next_target(prev, timestamp, params)->Ok_0,
            capped(
                prev.target()->Ok_0 * ((timestamp - prev.timestamp) as nat)
                    / (params.target_block_time as nat),
                params.max_target@,
            ),
        ),
{
    let e = (timestamp - prev.timestamp) as nat;
    let b = params.target_block_time as nat;
    let p = prev.target()->Ok_0;
    lemma_u256_bound(params.max_target);
    lemma_scaling_grows(p, e, b, 101, 100);
    lemma_scaling_grows(p, 99, 100, e, b);
    lemma_next_is_floor(prev, timestamp, params);
}

proof fn lemma_prev_target_bound(prev: BlockHeaderView)
    requires
        prev.target() is Ok,
    ensures
        prev.target()->Ok_0 < two_256(),
{
    lemma_byte_range_values();
    let e = compact_exponent(prev.n_bits);
    let m = compact_mantissa(prev.n_bits);
    if e > 3 {
        let d = byte_range((e - 3) as nat);
        lemma_byte_range_monotone((e - 3) as nat, 29);
        lemma_byte_range_step(29);
        lemma_byte_range_step(30);
        lemma_byte_range_step(31);
        assert(m * d < 0x100_0000 * byte_range(29)) by (nonlinear_arith)
            requires
                m < 0x100_0000,
                0 <= d <= byte_range(29),
                byte_range(29) > 0,
        ;
    } else {
        lemma_byte_range_monotone(0, (3 - e) as nat);
        lemma_byte_range_step(0);
        let d = byte_range((3 - e) as nat);
        assert(m / d <= m) by (nonlinear_arith)
            requires
                d >= 1,
        ;
        lemma_byte_range_monotone(4, 32);
    }
}

/// Scaling by a larger fraction gives no less.
proof fn lemma_scaling_grows(p: nat, a: nat, b: nat, c: nat, d: nat)
    requires
        b > 0,
        d > 0,
        a * d <= c * b,
    ensures
        p * a / b <= p * c / d,
{
    assert(p * a / b <= p * c / d) by (nonlinear_arith)
        requires
            b > 0,
            d > 0,
            a * d <= c * b,
    {
        let x = p * a / b;
        assert(x * b <= p * a);
        assert(x * b * d <= p * a * d);
        assert(p * (a * d) <= p * (c * b));
        assert(p * a * d == p * (a * d));
        assert(p * c * b == p * (c * b));
        assert(x * d * b <= p * c * b);
        assert(x * d <= p * c);
    }
}

/// Where difficulty is not adjusted, the target stays; where a network lets blocks be as easy as
/// can be, one that took more than six fifths of the planned time is.
pub proof fn lemma_target_without_adjustment(
    prev: BlockHeaderView,
    timestamp: u64,
    params: ChainParams,
)
    requires
        params.valid(),
        prev.target() is Ok,
    ensures
        !params.difficulty_adjustment ==> next_target(prev, timestamp, params) is Ok
            && next_target(prev, timestamp, params)->Ok_0 == prev.target()->Ok_0,
        params.difficulty_adjustment && params.allow_min_difficulty_blocks && 5 * (timestamp
            - prev.timestamp) >= 6 * params.target_block_time + 5 ==> next_target(
            prev,
            timestamp,
            params,
        ) is Ok && next_target(prev, timestamp, params)->Ok_0 == params.max_target@,
{
}

/// A header passes exactly if it states, in a form that can be read, the target that follows
/// from its predecessor.
pub proof fn lemma_stated_target_decides(
    prev: BlockHeaderView,
    current: BlockHeaderView,
    params: ChainParams,
)
    ensures
        difficulty_error(prev, current, params) is None <==> {
            &&& next_target(prev, current.timestamp, params) is Ok
            &&& compact_target(current.n_bits) is Ok
            &&& compact_target(current.n_bits)->Ok_0 == next_target(
                prev,
                current.timestamp,
                params,
            )->Ok_0
        },
{
}

/// The compact form: the low three bytes are the number where the top byte is three, one more in
/// the top byte makes the number 256 times as large, and forms with the sign bit set, or that
/// stand for more than 256 bits, are refused.
pub proof fn lemma_compact_form(n_bits: u32)
    ensures
        compact_target(n_bits) is Ok <==> n_bits % 0x100_0000 < 0x80_0000 && n_bits
            < 0x2100_0000,
        0x300_0000 <= n_bits < 0x380_0000 ==> compact_target(n_bits) == Ok::<nat, TargetError>(
            (n_bits - 0x300_0000) as nat,
        ),
        n_bits >= 0x300_0000 && n_bits < 0x2000_0000 && compact_target(n_bits) is Ok
            ==> compact_target((n_bits + 0x100_0000) as u32) == Ok::<nat, TargetError>(
            256 * compact_target(n_bits)->Ok_0,
        ),
        n_bits < 0x300_0000 && compact_target(n_bits) is Ok ==> compact_target(n_bits)->Ok_0
            == compact_target((n_bits + 0x100_0000) as u32)->Ok_0 / 256,
{
    lemma_byte_range_values();
    lemma_byte_range_step(0);
    let e = compact_exponent(n_bits);
    let m = compact_mantissa(n_bits);
    assert(n_bits == e * 0x100_0000 + m);
    if n_bits < 0x2100_0000 - 0x100_0000 {
        let n = (n_bits + 0x100_0000) as u32;
        assert(compact_exponent(n) == e + 1);
        assert(compact_mantissa(n) == m);
        if e > 3 {
            let d = byte_range((e - 3) as nat);
            lemma_byte_range_step((e - 3) as nat);
            assert(m * (256 * d) == 256 * (m * d)) by (nonlinear_arith);
        } else if e == 3 {
            assert(m / byte_range(0) == m);
            assert(m * byte_range(1) == 256 * m);
        } else if e == 2 {
            assert(m / byte_range(0) == m);
        } else if e == 1 {
            assert(m / byte_range(2) == (m / byte_range(1)) / 256) by (nonlinear_arith)
                requires
                    byte_range(2) == 0x1_0000,
                    byte_range(1) == 0x100,
            ;
        } else {
            assert(m / byte_range(3) == (m / byte_range(2)) / 256) by (nonlinear_arith)
                requires
                    byte_range(3) == 0x100_0000,
                    byte_range(2) == 0x1_0000,
            ;
        }
    }
    if e == 3 {
        assert(m / byte_range(0) == m);
    }
}

/// The work of a header is how often its target, plus one, goes into the 256-bit numbers.
pub proof fn lemma_work_is_expected_hashes(h: BlockHeaderView)
    requires
        h.target() is Ok,
        h.target()->Ok_0 > 0,
    ensures
        h.work() * (h.target()->Ok_0 + 1) <= two_256(),
        two_256() < (h.work() + 1) * (h.target()->Ok_0 + 1),
        h.work() >= 1,
{
    lemma_prev_target_bound(h);
    let t = h.target()->Ok_0;
    let n = two_256();
    let q = n / (t + 1);
    assert(q * (t + 1) <= n && n < (q + 1) * (t + 1) && (t + 1 <= n ==> q >= 1) && (t >= 1 ==> q
        < n)) by (nonlinear_arith)
        requires
            q == n / (t + 1),
            n > 0,
    ;
    if t + 1 == n {
        assert(1 * (t + 1) == n);
        assert(2 * (t + 1) > n);
    } else {
        vstd::arithmetic::div_mod::lemma_small_mod(q, n);
    }
}

/// A hash reaches a target exactly if it is not above it, read from its low end: the lower of
/// two hashes reaches what the higher one does.
pub proof fn lemma_hash_reaches_target(h: BlockHeaderView, a: Seq<u8>, b: Seq<u8>)
    requires
        h.target() is Ok,
    ensures
        le_value(a) <= h.target()->Ok_0 <==> h.meets_target(a),
        le_value(a) <= le_value(b) && h.meets_target(b) ==> h.meets_target(a),
{
}

} // verus!
