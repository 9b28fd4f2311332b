//! 256-bit unsigned integers.

use crate::primitives::bigint::{big_div, big_mul, lemma_shortest_form_width};
use crate::primitives::bytes::{
    array32, byte_range, bytes_equal, le_bytes, le_value, lemma_array32_ext, lemma_byte_range_step,
    lemma_byte_range_values, lemma_le_bytes_len, lemma_le_value_bound, lemma_le_value_concat,
    lemma_le_value_injective, lemma_le_value_of_bytes, lemma_le_value_zeros, u64_to_le,
};
use core::cmp::Ordering;
use vstd::prelude::*;

verus! {

/// 256-bit unsigned integer used for difficulty targets and hash comparison.
#[derive(Debug, Clone, Copy)]
pub struct U256(pub [u8; 32]);

impl View for U256 {
    type V = nat;

    open spec fn view(&self) -> nat {
        le_value(self.0@)
    }
}

/// `2^256`.
pub open spec fn two_256() -> nat {
    byte_range(32)
}

/// The 256-bit integer of a number.
pub open spec fn u256_of(n: nat) -> U256 {
    choose|x: U256| x@ == n
}

/// A 256-bit integer is determined by the number that it stands for.
pub proof fn lemma_u256_injective(a: U256, b: U256)
    requires
        a@ == b@,
    ensures
        a == b,
{
    lemma_le_value_injective(a.0@, b.0@);
    lemma_array32_ext(a.0, b.0);
}

/// Every 256-bit integer is below `2^256`.
pub proof fn lemma_u256_bound(a: U256)
    ensures
        a@ < two_256(),
{
    lemma_le_value_bound(a.0@);
}

/// The sequence whose number is larger at the highest place where two
/// sequences differ stands for the larger number.
proof fn lemma_le_value_less(a: Seq<u8>, b: Seq<u8>, k: int)
    requires
        a.len() == b.len(),
        0 <= k < a.len(),
        a[k] < b[k],
        forall|j: int| k < j < a.len() ==> a[j] == b[j],
    ensures
        le_value(a) < le_value(b),
{
    let p = byte_range(k as nat);
    let high = a.skip(k + 1);
    assert(high =~= b.skip(k + 1));
    lemma_split_at(a, k);
    lemma_split_at(b, k);
    lemma_le_value_bound(a.take(k));
    let h = le_value(high);
    let x = a[k] as nat;
    let y = b[k] as nat;
    assert(p * (x + 256 * h) + p <= p * (y + 256 * h)) by (nonlinear_arith)
        requires
            x + 1 <= y,
    ;
}

proof fn lemma_less_at(a: Seq<u8>, b: Seq<u8>, k: usize)
    requires
        a.len() == b.len(),
        k < a.len(),
        a[k as int] < b[k as int],
        forall|j: int| k < j < a.len() ==> a[j] == b[j],
    ensures
        le_value(a) < le_value(b),
{
    lemma_le_value_less(a, b, k as int);
}

proof fn lemma_split_at(s: Seq<u8>, k: int)
    requires
        0 <= k < s.len(),
    ensures
        le_value(s) == le_value(s.take(k)) + byte_range(k as nat) * (s[k] as nat + 256 * le_value(
            s.skip(k + 1),
        )),
{
    assert(s =~= s.take(k) + s.skip(k));
    lemma_le_value_concat(s.take(k), s.skip(k));
    assert(s.skip(k).skip(1) =~= s.skip(k + 1));
}

/// How two numbers are ordered.
pub open spec fn nat_ordering(a: nat, b: nat) -> Ordering {
    if a < b {
        Ordering::Less
    } else if a == b {
        Ordering::Equal
    } else {
        Ordering::Greater
    }
}

impl PartialEq for U256 {
    fn eq(&self, other: &U256) -> (r: bool) {
        proof {
            if self.0@ != other.0@ && self@ == other@ {
                lemma_le_value_injective(self.0@, other.0@);
            }
        }
        bytes_equal(&self.0, &other.0)
    }
}

impl vstd::std_specs::cmp::PartialEqSpecImpl for U256 {
    open spec fn obeys_eq_spec() -> bool {
        true
    }

    open spec fn eq_spec(&self, other: &U256) -> bool {
        self@ == other@
    }
}

impl Eq for U256 {

}

impl PartialOrd for U256 {
    fn partial_cmp(&self, other: &U256) -> (r: Option<Ordering>) {
        let mut i: usize = 32;
        while i > 0
            invariant
                i <= 32,
                forall|j: int| i <= j < 32 ==> self.0@[j] == other.0@[j],
            decreases i,
        {
            i -= 1;
            if self.0[i] < other.0[i] {
                proof {
                    lemma_less_at(self.0@, other.0@, i);
                }
                return Some(Ordering::Less);
            }
            if self.0[i] > other.0[i] {
                proof {
                    lemma_less_at(other.0@, self.0@, i);
                }
                return Some(Ordering::Greater);
            }
        }
        assert(self.0@ =~= other.0@);
        Some(Ordering::Equal)
    }
}

impl vstd::std_specs::cmp::PartialOrdSpecImpl for U256 {
    open spec fn obeys_partial_cmp_spec() -> bool {
        true
    }

    open spec fn partial_cmp_spec(&self, other: &U256) -> Option<Ordering> {
        Some(nat_ordering(self@, other@))
    }
}

impl From<u64> for U256 {
    fn from(v: u64) -> (r: Self) {
        let low = u64_to_le(v);
        let mut bytes: [u8; 32] = [0u8; 32];
        let mut i: usize = 0;
        while i < 8
            invariant
                i <= 8,
                forall|j: int| 0 <= j < i ==> bytes@[j] == low@[j],
                forall|j: int| i <= j < 32 ==> bytes@[j] == 0,
            decreases 8 - i,
        {
            bytes[i] = low[i];
            i += 1;
        }
        let r = U256(bytes);
        proof {
            assert(bytes@ =~= low@ + bytes@.skip(8));
            lemma_le_value_concat(low@, bytes@.skip(8));
            lemma_le_value_zeros(bytes@.skip(8));
            lemma_byte_range_values();
            lemma_le_value_of_bytes(v as nat, 8);
            assert(byte_range(8) * 0 == 0);
            assert(r@ == v);
            lemma_u256_injective(r, u256_of(v as nat));
        }
        r
    }
}

impl vstd::std_specs::convert::FromSpecImpl<u64> for U256 {
    open spec fn obeys_from_spec() -> bool {
        true
    }

    open spec fn from_spec(v: u64) -> U256 {
        u256_of(v as nat)
    }
}

/// `U256::from` gives the number itself.
pub proof fn lemma_u256_of(n: nat)
    requires
        n < two_256(),
    ensures
        u256_of(n)@ == n,
{
    let s = le_bytes(n, 32);
    lemma_le_bytes_len(n, 32);
    lemma_le_value_of_bytes(n, 32);
    let a = array_of(s, 32);
    lemma_array_of(s, 32);
    assert(a@ =~= s);
    assert(U256(a)@ == n);
}

/// An array of 32 bytes whose first `k` are those of a sequence.
spec fn array_of(s: Seq<u8>, k: nat) -> [u8; 32]
    decreases k,
{
    if k == 0 {
        arbitrary()
    } else {
        vstd::array::spec_array_update(array_of(s, (k - 1) as nat), k - 1, s[k - 1])
    }
}

proof fn lemma_array_of(s: Seq<u8>, k: nat)
    requires
        k <= 32,
    ensures
        forall|j: int| 0 <= j < k ==> array_of(s, k)@[j] == s[j],
    decreases k,
{
    if k > 0 {
        lemma_array_of(s, (k - 1) as nat);
    }
}

impl U256 {
    /// Constructs a 256-bit integer from little-endian bytes.
    pub fn from_le_bytes(bytes: [u8; 32]) -> (r: Self)
        ensures
            r@ == le_value(bytes@),
            r.0 == bytes,
    {
        U256(bytes)
    }

    /// Serialize to little-endian bytes
    pub fn to_bytes_le(&self) -> (r: [u8; 32])
        ensures
            r@ == le_bytes(self@, 32),
            r == self.0,
    {
        proof {
            crate::primitives::bytes::lemma_le_bytes_of_value(self.0@);
        }
        self.0
    }

    /// Deserialize from little-endian bytes (slice): the first 32 of them, or
    /// zero where there are fewer.
    pub fn from_bytes_le(bytes: &[u8]) -> (r: Self)
        ensures
            bytes@.len() < 32 ==> r@ == 0,
            bytes@.len() >= 32 ==> r@ == le_value(bytes@.take(32)),
    {
        if bytes.len() < 32 {
            let r = U256([0u8; 32]);
            proof {
                lemma_le_value_zeros(r.0@);
            }
            return r;
        }
        U256(array32(bytes))
    }

    /// Zero.
    pub fn zero() -> (r: U256)
        ensures
            r@ == 0,
    {
        let r = U256([0u8; 32]);
        proof {
            lemma_le_value_zeros(r.0@);
        }
        r
    }

    /// One.
    pub fn one() -> (r: U256)
        ensures
            r@ == 1,
    {
        proof {
            lemma_byte_range_values();
            lemma_two_256();
            lemma_u256_of(1);
        }
        U256::from(1u64)
    }

    /// The next number, and zero after the largest.
    pub fn increment(&self) -> (r: U256)
        ensures
            r@ == (self@ + 1) % two_256(),
    {
        let mut bytes: [u8; 32] = self.0;
        let ghost whole = self.0@;
        let mut i: usize = 0;
        proof {
            lemma_u256_bound(*self);
            lemma_two_256();
            assert(whole.take(0) =~= Seq::empty());
            lemma_byte_range_step(0);
        }
        while i < 32
            invariant
                i <= 32,
                whole == self.0@,
                self@ < two_256(),
                whole.len() == 32,
                le_value(whole.take(i as int)) == byte_range(i as nat) - 1,
                forall|j: int| 0 <= j < i ==> bytes@[j] == 0,
                forall|j: int| i <= j < 32 ==> bytes@[j] == whole[j],
            decreases 32 - i,
        {
            proof {
                lemma_split_at(whole, i as int);
            }
            if bytes[i] < 255 {
                let ghost before = bytes@;
                bytes[i] = bytes[i] + 1;
                let r = U256(bytes);
                proof {
                    lemma_split_at(bytes@, i as int);
                    lemma_le_value_zeros(bytes@.take(i as int));
                    assert(bytes@.skip(i + 1) =~= whole.skip(i + 1));
                    let p = byte_range(i as nat);
                    let x = whole[i as int] as nat;
                    let h = le_value(whole.skip(i + 1));
                    assert(p * (x + 1 + 256 * h) == p * (x + 256 * h) + p) by (nonlinear_arith);
                    lemma_u256_bound(r);
                    vstd::arithmetic::div_mod::lemma_small_mod(r@, two_256());
                }
                return r;
            }
            bytes[i] = 0;
            proof {
                let p = byte_range(i as nat);
                assert(whole.take(i + 1) =~= whole.take(i as int) + seq![255u8]);
                lemma_le_value_concat(whole.take(i as int), seq![255u8]);
                reveal_with_fuel(le_value, 2);
                let q = le_value(seq![255u8]);
                assert(q == 255);
                assert(p * q == 255 * p) by (nonlinear_arith)
                    requires
                        q == 255,
                ;
                lemma_byte_range_step(i as nat);
            }
            i += 1;
        }
        assert(whole.take(32) =~= whole);
        proof {
            vstd::arithmetic::div_mod::lemma_mod_self_0(two_256() as int);
        }
        U256::zero()
    }

    /// The sum, without the bits that do not fit.
    pub fn wrapping_sum(&self, other: &U256) -> (r: U256)
        ensures
            r@ == (self@ + other@) % two_256(),
    {
        let mut bytes: [u8; 32] = [0u8; 32];
        let mut carry: u16 = 0;
        let mut i: usize = 0;
        let ghost a = self.0@;
        let ghost b = other.0@;
        proof {
            lemma_byte_range_step(0);
            assert(a.take(0) =~= Seq::empty());
            assert(b.take(0) =~= Seq::empty());
            assert(bytes@.take(0) =~= Seq::empty());
        }
        while i < 32
            invariant
                i <= 32,
                a == self.0@,
                b == other.0@,
                a.len() == 32,
                b.len() == 32,
                carry <= 1,
                le_value(a.take(i as int)) + le_value(b.take(i as int)) == le_value(
                    bytes@.take(i as int),
                ) + carry * byte_range(i as nat),
            decreases 32 - i,
        {
            let sum: u16 = self.0[i] as u16 + other.0[i] as u16 + carry;
            let ghost before = bytes@;
            let ghost old_carry = carry;
            bytes[i] = (sum % 256) as u8;
            carry = sum / 256;
            proof {
                let p = byte_range(i as nat);
                lemma_byte_range_step(i as nat);
                lemma_push_top(a, i as int);
                lemma_push_top(b, i as int);
                lemma_push_top(bytes@, i as int);
                assert(bytes@.take(i as int) =~= before.take(i as int));
                let x = a[i as int] as int;
                let y = b[i as int] as int;
                let z = bytes@[i as int] as int;
                assert(p * x + p * y + old_carry * p == p * z + carry * (256 * p))
                    by (nonlinear_arith)
                    requires
                        x + y + old_carry == z + 256 * carry,
                ;
            }
            i += 1;
        }
        let r = U256(bytes);
        proof {
            assert(a.take(32) =~= a);
            assert(b.take(32) =~= b);
            assert(bytes@.take(32) =~= bytes@);
            lemma_u256_bound(r);
            let m = two_256() as int;
            if carry == 0 {
                assert(0 * byte_range(32) == 0);
                vstd::arithmetic::div_mod::lemma_small_mod(r@, two_256());
            } else {
                assert(1 * byte_range(32) == byte_range(32));
                vstd::arithmetic::div_mod::lemma_mod_add_multiples_vanish(r@ as int, m);
                vstd::arithmetic::div_mod::lemma_small_mod(r@, two_256());
            }
        }
        r
    }

    /// `2^256` divided by a number that is not zero, without the bit that does
    /// not fit where that number is one.
    pub fn inverse_of(divisor: &U256) -> (r: U256)
        requires
            divisor@ != 0,
        ensures
            r@ == (two_256() / divisor@) % two_256(),
    {
        let mut dividend: Vec<u8> = Vec::new();
        let mut i: usize = 0;
        while i < 32
            invariant
                i <= 32,
                dividend.len() == i,
                forall|j: int| 0 <= j < i ==> dividend@[j] == 0,
            decreases 32 - i,
        {
            dividend.push(0);
            i += 1;
        }
        let ghost zeros = dividend@;
        dividend.push(1);
        proof {
            lemma_le_value_zeros(zeros);
            assert(dividend@ =~= zeros + seq![1u8]);
            lemma_le_value_concat(zeros, seq![1u8]);
            reveal_with_fuel(le_value, 2);
            assert(le_value(seq![1u8]) == 1);
            assert(byte_range(32) * 1 == byte_range(32));
        }
        let quotient = big_div(&dividend, &divisor.0);
        U256::low_bytes_of(&quotient)
    }

    /// The number of a byte sequence, without the bits that do not fit.
    fn low_bytes_of(bytes: &Vec<u8>) -> (r: U256)
        ensures
            r@ == le_value(bytes@) % two_256(),
    {
        let mut out: [u8; 32] = [0u8; 32];
        let mut i: usize = 0;
        while i < 32 && i < bytes.len()
            invariant
                i <= 32,
                i <= bytes.len(),
                forall|j: int| 0 <= j < i ==> out@[j] == bytes@[j],
                forall|j: int| i <= j < 32 ==> out@[j] == 0,
            decreases 32 - i,
        {
            out[i] = bytes[i];
            i += 1;
        }
        let r = U256(out);
        proof {
            lemma_u256_bound(r);
            if bytes.len() >= 32 {
                assert(bytes@ =~= out@ + bytes@.skip(32));
                lemma_le_value_concat(out@, bytes@.skip(32));
                let h = le_value(bytes@.skip(32)) as int;
                let m = two_256() as int;
                vstd::arithmetic::div_mod::lemma_mod_multiples_vanish(h, r@ as int, m);
            } else {
                assert(out@ =~= bytes@ + out@.skip(bytes.len() as int));
                lemma_le_value_concat(bytes@, out@.skip(bytes.len() as int));
                lemma_le_value_zeros(out@.skip(bytes.len() as int));
                assert(byte_range(bytes.len() as nat) * 0 == 0);
            }
            vstd::arithmetic::div_mod::lemma_small_mod(r@, two_256());
        }
        r
    }

    /// The number times `factor / scale`, rounded down, or nothing where that
    /// takes more than 256 bits.
    pub fn scaled(&self, factor: u64, scale: u64) -> (r: Option<U256>)
        requires
            scale != 0,
        ensures
            match r {
                Some(v) => v@ == (self@ * factor as nat) / (scale as nat),
                None => (self@ * factor as nat) / (scale as nat) >= two_256(),
            },
    {
        let factor_bytes = u64_to_le(factor);
        let scale_bytes = u64_to_le(scale);
        proof {
            lemma_byte_range_values();
            lemma_le_value_of_bytes(factor as nat, 8);
            lemma_le_value_of_bytes(scale as nat, 8);
        }
        let product = big_mul(&self.0, &factor_bytes);
        let quotient = big_div(&product, &scale_bytes);
        proof {
            lemma_shortest_form_width(quotient@, 32);
        }
        if quotient.len() > 32 {
            return None;
        }
        let r = U256::low_bytes_of(&quotient);
        proof {
            vstd::arithmetic::div_mod::lemma_small_mod(le_value(quotient@), two_256());
        }
        Some(r)
    }
}

proof fn lemma_push_top(s: Seq<u8>, i: int)
    requires
        0 <= i < s.len(),
    ensures
        le_value(s.take(i + 1)) == le_value(s.take(i)) + byte_range(i as nat) * (s[i] as int),
{
    assert(s.take(i + 1) =~= s.take(i) + seq![s[i]]);
    lemma_le_value_concat(s.take(i), seq![s[i]]);
    reveal_with_fuel(le_value, 2);
    assert(le_value(seq![s[i]]) == s[i] as nat);
}

/// `2^256` is more than any machine integer.
pub proof fn lemma_two_256()
    ensures
        two_256() > u64::MAX,
{
    lemma_byte_range_values();
    crate::primitives::bigint::lemma_byte_range_monotone(8, 32);
}

impl core::ops::Add for U256 {
    type Output = U256;

    /// The sum, without the bits that do not fit.
    fn add(self, other: U256) -> (r: U256)
        ensures
            r@ == (self@ + other@) % two_256(),
    {
        self.wrapping_sum(&other)
    }
}

impl vstd::std_specs::ops::AddSpecImpl for U256 {
    open spec fn obeys_add_spec() -> bool {
        false
    }

    open spec fn add_req(self, other: U256) -> bool {
        true
    }

    open spec fn add_spec(self, other: U256) -> U256 {
        self
    }
}

} // verus!
