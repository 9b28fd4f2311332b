//! Arithmetic on numbers of any size, held as little-endian bytes.

use crate::primitives::bytes::{
    byte_range, le_value, lemma_byte_range_step, lemma_le_value_bound, lemma_le_value_concat,
};
use num_bigint::BigUint;
use vstd::prelude::*;

verus! {

/// A byte form without superfluous zero bytes: zero is one zero byte, any other
/// number ends in a byte that is not zero.
pub open spec fn shortest_form(s: Seq<u8>) -> bool {
    s.len() >= 1 && (s.len() == 1 || s.last() != 0)
}

/// Multiplication of `num_bigint::BigUint`s: the result is the product, in the
/// shortest form that `BigUint::to_bytes_le` writes.
#[verifier::external_body]
pub(crate) fn big_mul(a: &[u8], b: &[u8]) -> (r: Vec<u8>)
    ensures
        le_value(r@) == le_value(a@) * le_value(b@),
        shortest_form(r@),
{
    (BigUint::from_bytes_le(a) * BigUint::from_bytes_le(b)).to_bytes_le()
}

/// Division of `num_bigint::BigUint`s, which panics on a zero divisor: the
/// result is the quotient rounded down, in the shortest form that
/// `BigUint::to_bytes_le` writes.
#[verifier::external_body]
pub(crate) fn big_div(a: &[u8], b: &[u8]) -> (r: Vec<u8>)
    requires
        le_value(b@) != 0,
    ensures
        le_value(r@) == le_value(a@) / le_value(b@),
        shortest_form(r@),
{
    (BigUint::from_bytes_le(a) / BigUint::from_bytes_le(b)).to_bytes_le()
}

/// In the shortest form a number has more than `n` bytes exactly if it does
/// not fit into `n` bytes.
pub proof fn lemma_shortest_form_width(s: Seq<u8>, n: nat)
    requires
        shortest_form(s),
        n >= 1,
    ensures
        s.len() > n <==> le_value(s) >= byte_range(n),
{
    if s.len() > n {
        let front = s.drop_last();
        let top = seq![s.last()];
        assert(s =~= front + top);
        lemma_le_value_concat(front, top);
        reveal_with_fuel(le_value, 2);
        assert(le_value(top) >= 1);
        let p = byte_range(front.len());
        let t = le_value(top);
        assert(p * t >= p) by (nonlinear_arith)
            requires
                t >= 1,
        ;
        lemma_byte_range_monotone(n, front.len());
    } else {
        lemma_le_value_bound(s);
        lemma_byte_range_monotone(s.len(), n);
    }
}

pub proof fn lemma_byte_range_monotone(m: nat, n: nat)
    requires
        m <= n,
    ensures
        byte_range(m) <= byte_range(n),
    decreases n,
{
    if m < n {
        lemma_byte_range_monotone(m, (n - 1) as nat);
        lemma_byte_range_step((n - 1) as nat);
    }
}

} // verus!
