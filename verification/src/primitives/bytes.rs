//! Little-endian numbers and small helpers on byte sequences.

use vstd::arithmetic::div_mod::*;
use vstd::arithmetic::mul::*;
use vstd::arithmetic::power::*;
use vstd::prelude::*;

verus! {

/// The number that a byte sequence stands for, least significant byte first.
pub open spec fn le_value(s: Seq<u8>) -> nat
    decreases s.len(),
{
    if s.len() == 0 {
        0
    } else {
        s[0] as nat + 256 * le_value(s.skip(1))
    }
}

/// The `n` lowest bytes of a number, least significant byte first.
pub open spec fn le_bytes(v: nat, n: nat) -> Seq<u8>
    decreases n,
{
    if n == 0 {
        Seq::empty()
    } else {
        seq![(v % 256) as u8] + le_bytes(v / 256, (n - 1) as nat)
    }
}

/// `256^n`: the number of values that `n` bytes can hold.
pub open spec fn byte_range(n: nat) -> nat {
    pow(256, n) as nat
}

pub proof fn lemma_byte_range_step(n: nat)
    ensures
        byte_range(0) == 1,
        byte_range(n) > 0,
        byte_range(n + 1) == 256 * byte_range(n),
{
    lemma_pow0(256);
    lemma_pow_positive(256, n);
    lemma_pow_positive(256, n + 1);
    lemma_pow_adds(256, 1, n);
    lemma_pow1(256);
}

/// The little-endian form of a number has as many bytes as were asked for.
pub proof fn lemma_le_bytes_len(v: nat, n: nat)
    ensures
        le_bytes(v, n).len() == n,
    decreases n,
{
    if n > 0 {
        lemma_le_bytes_len(v / 256, (n - 1) as nat);
    }
}

/// Reading back the little-endian form of a number that fits gives the number.
pub proof fn lemma_le_value_of_bytes(v: nat, n: nat)
    requires
        v < byte_range(n),
    ensures
        le_value(le_bytes(v, n)) == v,
    decreases n,
{
    if n == 0 {
        lemma_byte_range_step(0);
    } else {
        let m = (n - 1) as nat;
        lemma_byte_range_step(m);
        assert(v / 256 < byte_range(m));
        lemma_le_value_of_bytes(v / 256, m);
        let s = le_bytes(v, n);
        assert(s.skip(1) =~= le_bytes(v / 256, m));
    }
}

/// Writing the number that a byte sequence stands for gives the sequence.
pub proof fn lemma_le_bytes_of_value(s: Seq<u8>)
    ensures
        le_bytes(le_value(s), s.len()) == s,
    decreases s.len(),
{
    if s.len() > 0 {
        let t = s.skip(1);
        lemma_le_bytes_of_value(t);
        assert(le_value(s) % 256 == s[0] as nat);
        assert(le_value(s) / 256 == le_value(t));
        assert(seq![s[0]] + t =~= s);
    } else {
        assert(le_bytes(le_value(s), 0) =~= s);
    }
}

/// A byte sequence stands for a number below `256^len`.
pub proof fn lemma_le_value_bound(s: Seq<u8>)
    ensures
        le_value(s) < byte_range(s.len()),
    decreases s.len(),
{
    if s.len() == 0 {
        lemma_byte_range_step(0);
    } else {
        lemma_le_value_bound(s.skip(1));
        lemma_byte_range_step((s.len() - 1) as nat);
    }
}

/// Two byte sequences of one length that stand for one number are equal.
pub proof fn lemma_le_value_injective(a: Seq<u8>, b: Seq<u8>)
    requires
        a.len() == b.len(),
        le_value(a) == le_value(b),
    ensures
        a == b,
{
    lemma_le_bytes_of_value(a);
    lemma_le_bytes_of_value(b);
}

/// The number of a concatenation: the second part counts `256^len` of the first.
pub proof fn lemma_le_value_concat(a: Seq<u8>, b: Seq<u8>)
    ensures
        le_value(a + b) == le_value(a) + byte_range(a.len()) * le_value(b),
    decreases a.len(),
{
    if a.len() == 0 {
        assert(a + b =~= b);
        lemma_byte_range_step(0);
        let v = le_value(b);
        assert(1 * v == v);
    } else {
        lemma_le_value_concat(a.skip(1), b);
        assert((a + b).skip(1) =~= a.skip(1) + b);
        lemma_byte_range_step((a.len() - 1) as nat);
        let p = byte_range((a.len() - 1) as nat);
        let v = le_value(b);
        assert(le_value(a + b) == a[0] as nat + 256 * le_value(a.skip(1) + b));
        assert(byte_range(a.len()) * v == 256 * (p * v)) by (nonlinear_arith)
            requires
                byte_range(a.len()) == 256 * p,
        ;
    }
}

/// Zero bytes at the most significant end do not change the number.
pub proof fn lemma_le_value_zeros(s: Seq<u8>)
    requires
        forall|i: int| 0 <= i < s.len() ==> s[i] == 0,
    ensures
        le_value(s) == 0,
    decreases s.len(),
{
    if s.len() > 0 {
        lemma_le_value_zeros(s.skip(1));
    }
}

/// Widths of the machine integers, in values.
pub proof fn lemma_byte_range_values()
    ensures
        byte_range(1) == 0x100,
        byte_range(2) == 0x1_0000,
        byte_range(3) == 0x100_0000,
        byte_range(4) == 0x1_0000_0000,
        byte_range(8) == 0x1_0000_0000_0000_0000,
{
    lemma_byte_range_step(0);
    lemma_byte_range_step(1);
    lemma_byte_range_step(2);
    lemma_byte_range_step(3);
    lemma_byte_range_step(4);
    lemma_byte_range_step(5);
    lemma_byte_range_step(6);
    lemma_byte_range_step(7);
}

proof fn lemma_le_value_2(s: Seq<u8>)
    requires
        s.len() == 2,
    ensures
        le_value(s) == s[0] + 256 * s[1],
{
    reveal_with_fuel(le_value, 3);
    assert(s.skip(1)[0] == s[1]);
}

proof fn lemma_le_value_4(s: Seq<u8>)
    requires
        s.len() == 4,
    ensures
        le_value(s) == s[0] + 256 * (s[1] + 256 * (s[2] + 256 * s[3])),
{
    reveal_with_fuel(le_value, 3);
    assert(s.skip(1).skip(1) =~= seq![s[2], s[3]]);
    lemma_le_value_2(s.skip(1).skip(1));
    assert(s.skip(1)[0] == s[1]);
}

proof fn lemma_le_value_8(s: Seq<u8>)
    requires
        s.len() == 8,
    ensures
        le_value(s) == s[0] + 256 * (s[1] + 256 * (s[2] + 256 * (s[3] + 256 * (s[4] + 256 * (s[5]
            + 256 * (s[6] + 256 * s[7])))))),
{
    let t4 = s.skip(1).skip(1).skip(1).skip(1);
    assert(t4 =~= seq![s[4], s[5], s[6], s[7]]);
    lemma_le_value_4(t4);
    reveal_with_fuel(le_value, 5);
    assert(s.skip(1)[0] == s[1]);
    assert(s.skip(1).skip(1)[0] == s[2]);
    assert(s.skip(1).skip(1).skip(1)[0] == s[3]);
}

/// Little-endian form of a 16-bit number.
pub fn u16_to_le(value: u16) -> (out: [u8; 2])
    ensures
        out@ == le_bytes(value as nat, 2),
{
    let out: [u8; 2] = [(value % 256) as u8, (value / 256) as u8];
    proof {
        reveal_with_fuel(le_bytes, 3);
        assert(out@ =~= le_bytes(value as nat, 2));
    }
    out
}

/// Little-endian form of a 32-bit number.
pub fn u32_to_le(value: u32) -> (out: [u8; 4])
    ensures
        out@ == le_bytes(value as nat, 4),
{
    let v1: u32 = value / 256;
    let v2: u32 = v1 / 256;
    let v3: u32 = v2 / 256;
    let out: [u8; 4] = [(value % 256) as u8, (v1 % 256) as u8, (v2 % 256) as u8, v3 as u8];
    proof {
        reveal_with_fuel(le_bytes, 5);
        assert(out@ =~= le_bytes(value as nat, 4));
    }
    out
}

/// Little-endian form of a 64-bit number.
pub fn u64_to_le(value: u64) -> (out: [u8; 8])
    ensures
        out@ == le_bytes(value as nat, 8),
{
    let v1: u64 = value / 256;
    let v2: u64 = v1 / 256;
    let v3: u64 = v2 / 256;
    let v4: u64 = v3 / 256;
    let v5: u64 = v4 / 256;
    let v6: u64 = v5 / 256;
    let v7: u64 = v6 / 256;
    let out: [u8; 8] = [
        (value % 256) as u8,
        (v1 % 256) as u8,
        (v2 % 256) as u8,
        (v3 % 256) as u8,
        (v4 % 256) as u8,
        (v5 % 256) as u8,
        (v6 % 256) as u8,
        v7 as u8,
    ];
    proof {
        reveal_with_fuel(le_bytes, 9);
        assert(out@ =~= le_bytes(value as nat, 8));
    }
    out
}

/// The 16-bit number in the first two bytes.
pub fn u16_from_le(bytes: &[u8]) -> (value: u16)
    requires
        bytes@.len() >= 2,
    ensures
        value == le_value(bytes@.take(2)),
{
    proof {
        lemma_le_value_2(bytes@.take(2));
    }
    bytes[0] as u16 + 256 * (bytes[1] as u16)
}

/// The 32-bit number in the first four bytes.
pub fn u32_from_le(bytes: &[u8]) -> (value: u32)
    requires
        bytes@.len() >= 4,
    ensures
        value == le_value(bytes@.take(4)),
{
    proof {
        lemma_le_value_4(bytes@.take(4));
    }
    bytes[0] as u32 + 256 * (bytes[1] as u32 + 256 * (bytes[2] as u32 + 256 * (bytes[3] as u32)))
}

/// The 64-bit number in the first eight bytes.
pub fn u64_from_le(bytes: &[u8]) -> (value: u64)
    requires
        bytes@.len() >= 8,
    ensures
        value == le_value(bytes@.take(8)),
{
    proof {
        lemma_le_value_8(bytes@.take(8));
    }
    bytes[0] as u64 + 256 * (bytes[1] as u64 + 256 * (bytes[2] as u64 + 256 * (bytes[3] as u64
        + 256 * (bytes[4] as u64 + 256 * (bytes[5] as u64 + 256 * (bytes[6] as u64 + 256 * (
    bytes[7] as u64)))))))
}

/// Appends a slice to a vector.
pub fn append_bytes(out: &mut Vec<u8>, bytes: &[u8])
    ensures
        final(out)@ == old(out)@ + bytes@,
{
    out.extend_from_slice(bytes);
    assert(out@ =~= old(out)@ + bytes@);
}

/// The part of a slice from `start` on.
pub fn tail_from(bytes: &[u8], start: usize) -> (out: &[u8])
    requires
        start <= bytes@.len(),
    ensures
        out@ == bytes@.skip(start as int),
{
    let out = vstd::slice::slice_subrange(bytes, start, bytes.len());
    assert(out@ =~= bytes@.skip(start as int));
    out
}

/// Whether two slices hold the same bytes.
pub fn bytes_equal(a: &[u8], b: &[u8]) -> (r: bool)
    ensures
        r == (a@ == b@),
{
    if a.len() != b.len() {
        return false;
    }
    let mut i: usize = 0;
    while i < a.len()
        invariant
            a@.len() == b@.len(),
            i <= a@.len(),
            forall|j: int| 0 <= j < i ==> a@[j] == b@[j],
        decreases a@.len() - i,
    {
        if a[i] != b[i] {
            return false;
        }
        i += 1;
    }
    assert(a@ =~= b@);
    true
}

/// Copies the first 32 bytes of a slice.
pub fn array32(bytes: &[u8]) -> (out: [u8; 32])
    requires
        bytes@.len() >= 32,
    ensures
        out@ == bytes@.take(32),
{
    let mut out: [u8; 32] = [0u8; 32];
    let mut i: usize = 0;
    while i < 32
        invariant
            i <= 32,
            bytes@.len() >= 32,
            forall|j: int| 0 <= j < i ==> out@[j] == bytes@[j],
        decreases 32 - i,
    {
        out[i] = bytes[i];
        i += 1;
    }
    assert(out@ =~= bytes@.take(32));
    out
}

/// Two arrays with the same bytes are the same array.
pub proof fn lemma_array32_ext(a: [u8; 32], b: [u8; 32])
    requires
        a@ == b@,
    ensures
        a == b,
{
    assert forall|i: int| 0 <= i < 32 implies a[i] == b[i] by {
        assert(a@[i] == b@[i]);
    }
    assert(a =~= b);
}

} // verus!
