//! Base64 as in RFC 4648.

use vstd::prelude::*;

verus! {

/// The character that fills up the last group.
pub const PADDING: u8 = 0x3d;

/// The number that a character stands for.
pub open spec fn digit_value(c: u8) -> Option<u8> {
    if 0x41 <= c <= 0x5a {
        Some((c - 0x41) as u8)
    } else if 0x61 <= c <= 0x7a {
        Some((c - 0x61 + 26) as u8)
    } else if 0x30 <= c <= 0x39 {
        Some((c - 0x30 + 52) as u8)
    } else if c == 0x2b {
        Some(62u8)
    } else if c == 0x2f {
        Some(63u8)
    } else {
        None
    }
}

/// The character for a number below sixty-four.
pub open spec fn digit(v: int) -> u8 {
    if v < 26 {
        (v + 0x41) as u8
    } else if v < 52 {
        (v - 26 + 0x61) as u8
    } else if v < 62 {
        (v - 52 + 0x30) as u8
    } else if v == 62 {
        0x2bu8
    } else {
        0x2fu8
    }
}

/// A text without the padding at its end.
pub open spec fn unpadded(text: Seq<u8>) -> Seq<u8>
    decreases text.len(),
{
    if text.len() > 0 && text.last() == PADDING {
        unpadded(text.drop_last())
    } else {
        text
    }
}

/// The byte at a place, out of the numbers that its characters stand for.
pub open spec fn byte_at(digits: Seq<u8>, k: int) -> u8 {
    let g = 4 * (k / 3);
    if k % 3 == 0 {
        (digits[g] * 4 + digits[g + 1] / 16) as u8
    } else if k % 3 == 1 {
        ((digits[g + 1] % 16) * 16 + digits[g + 2] / 4) as u8
    } else {
        ((digits[g + 2] % 4) * 64 + digits[g + 3]) as u8
    }
}

/// The bytes that numbers of six bits each make up; bits that fill no byte are dropped.
pub open spec fn bytes_of(digits: Seq<u8>) -> Seq<u8> {
    Seq::new(digits.len() * 3 / 4, |k: int| byte_at(digits, k))
}

/// The numbers that characters stand for.
pub open spec fn digits_of(text: Seq<u8>) -> Seq<u8> {
    Seq::new(text.len(), |i: int| digit_value(text[i])->Some_0)
}

/// Whether every character stands for a number.
pub open spec fn all_digits(text: Seq<u8>) -> bool {
    forall|i: int| 0 <= i < text.len() ==> digit_value(#[trigger] text[i]) is Some
}

/// What a text decodes to.
pub open spec fn decoded(text: Seq<u8>) -> Option<Seq<u8>> {
    let t = unpadded(text);
    if all_digits(t) {
        Some(bytes_of(digits_of(t)))
    } else {
        None
    }
}

/// A byte, or zero past the end.
pub open spec fn byte_or_zero(bytes: Seq<u8>, i: int) -> int {
    if i < bytes.len() {
        bytes[i] as int
    } else {
        0
    }
}

/// The character at a place of the text for some bytes.
pub open spec fn char_at(bytes: Seq<u8>, j: int) -> u8 {
    let g = 3 * (j / 4);
    let a = byte_or_zero(bytes, g);
    let b = byte_or_zero(bytes, g + 1);
    let c = byte_or_zero(bytes, g + 2);
    if j % 4 == 0 {
        digit(a / 4)
    } else if j % 4 == 1 {
        digit((a % 4) * 16 + b / 16)
    } else if j % 4 == 2 {
        if g + 1 < bytes.len() {
            digit((b % 16) * 4 + c / 64)
        } else {
            PADDING
        }
    } else {
        if g + 2 < bytes.len() {
            digit(c % 64)
        } else {
            PADDING
        }
    }
}

/// The text for some bytes, filled up to whole groups.
pub open spec fn encoded(bytes: Seq<u8>) -> Seq<u8> {
    Seq::new(4 * ((bytes.len() + 2) / 3), |j: int| char_at(bytes, j))
}

proof fn lemma_digit(v: int)
    requires
        0 <= v < 64,
    ensures
        digit_value(digit(v)) == Some(v as u8),
        digit(v) != PADDING,
        !(9 <= digit(v) <= 13) && digit(v) != 32,
{
}

/// What stands before the padding in the text for some bytes.
proof fn lemma_unpadded_encoding(bytes: Seq<u8>)
    ensures
        unpadded(encoded(bytes)) == encoded(bytes).take((4 * bytes.len() + 2) as int / 3),
        forall|j: int|
            0 <= j < (4 * bytes.len() + 2) / 3 ==> #[trigger] encoded(bytes)[j] != PADDING,
        forall|j: int|
            0 <= j < encoded(bytes).len() ==> !(9 <= #[trigger] encoded(bytes)[j] <= 13)
                && encoded(bytes)[j] != 32,
{
    let n = bytes.len() as int;
    let text = encoded(bytes);
    let m = (4 * n + 2) / 3;
    assert forall|j: int| 0 <= j < text.len() implies (j < m ==> text[j] != PADDING) && (j >= m
        ==> text[j] == PADDING) && !(9 <= #[trigger] text[j] <= 13) && text[j] != 32 by {
        let g = 3 * (j / 4);
        let a = byte_or_zero(bytes, g);
        let b = byte_or_zero(bytes, g + 1);
        let c = byte_or_zero(bytes, g + 2);
        lemma_digit(a / 4);
        lemma_digit((a % 4) * 16 + b / 16);
        lemma_digit((b % 16) * 4 + c / 64);
        lemma_digit(c % 64);
    }
    reveal_with_fuel(unpadded, 4);
    let cut = text.take(m);
    if n % 3 == 1 {
        assert(text.drop_last().drop_last() =~= cut);
    } else if n % 3 == 2 {
        assert(text.drop_last() =~= cut);
    } else {
        assert(text =~= cut);
    }
    if m > 0 {
        assert(cut.last() == text[m - 1]);
    }
}

/// The number that the character at a place of the text for some bytes stands for.
spec fn six_bits(bytes: Seq<u8>, j: int) -> int {
    let g = 3 * (j / 4);
    let a = byte_or_zero(bytes, g);
    let b = byte_or_zero(bytes, g + 1);
    let c = byte_or_zero(bytes, g + 2);
    if j % 4 == 0 {
        a / 4
    } else if j % 4 == 1 {
        (a % 4) * 16 + b / 16
    } else if j % 4 == 2 {
        (b % 16) * 4 + c / 64
    } else {
        c % 64
    }
}

proof fn lemma_char(bytes: Seq<u8>, j: int)
    requires
        0 <= j,
        char_at(bytes, j) != PADDING,
    ensures
        digit_value(char_at(bytes, j)) == Some(six_bits(bytes, j) as u8),
        0 <= six_bits(bytes, j) < 64,
{
    let g = 3 * (j / 4);
    let a = byte_or_zero(bytes, g);
    let b = byte_or_zero(bytes, g + 1);
    let c = byte_or_zero(bytes, g + 2);
    lemma_digit(a / 4);
    lemma_digit((a % 4) * 16 + b / 16);
    lemma_digit((b % 16) * 4 + c / 64);
    lemma_digit(c % 64);
}

proof fn lemma_byte(bytes: Seq<u8>, digits: Seq<u8>, k: int)
    requires
        0 <= k < bytes.len(),
        digits.len() == (4 * bytes.len() + 2) / 3,
        forall|j: int|
            0 <= j < digits.len() ==> (#[trigger] digits[j]) as int == six_bits(bytes, j),
    ensures
        byte_at(digits, k) == bytes[k],
{
    let q = k / 3;
    let g = 4 * q;
    assert(g / 4 == q && (g + 1) / 4 == q && (g + 2) / 4 == q && (g + 3) / 4 == q);
    assert(g % 4 == 0 && (g + 1) % 4 == 1 && (g + 2) % 4 == 2 && (g + 3) % 4 == 3);
    if k % 3 == 0 {
        assert(g + 1 < digits.len());
        assert(digits[g] as int == six_bits(bytes, g));
        assert(digits[g + 1] as int == six_bits(bytes, g + 1));
    } else if k % 3 == 1 {
        assert(g + 2 < digits.len());
        assert(digits[g + 1] as int == six_bits(bytes, g + 1));
        assert(digits[g + 2] as int == six_bits(bytes, g + 2));
    } else {
        assert(g + 3 < digits.len());
        assert(digits[g + 2] as int == six_bits(bytes, g + 2));
        assert(digits[g + 3] as int == six_bits(bytes, g + 3));
    }
}

/// What is written in Base64 is read back.
pub proof fn lemma_reads_back(bytes: Seq<u8>)
    ensures
        decoded(encoded(bytes)) == Some(bytes),
{
    let n = bytes.len() as int;
    let text = encoded(bytes);
    let m = (4 * n + 2) / 3;
    lemma_unpadded_encoding(bytes);
    let cut = text.take(m);
    let d = digits_of(cut);
    assert forall|j: int| 0 <= j < m implies digit_value(#[trigger] cut[j]) is Some && d[j] as int
        == six_bits(bytes, j) by {
        assert(text[j] != PADDING);
        lemma_char(bytes, j);
    }
    assert forall|j: int| 0 <= j < d.len() implies (#[trigger] d[j]) as int == six_bits(
        bytes,
        j,
    ) by {
        assert(digit_value(cut[j]) is Some);
    }
    assert(m * 3 / 4 == n);
    assert forall|k: int| 0 <= k < n implies #[trigger] bytes_of(d)[k] == bytes[k] by {
        lemma_byte(bytes, d, k);
    }
    assert(bytes_of(d) =~= bytes);
}

/// The text for some bytes holds no white space.
pub proof fn lemma_no_blanks(bytes: Seq<u8>, j: int)
    requires
        0 <= j < encoded(bytes).len(),
    ensures
        !(9 <= encoded(bytes)[j] <= 13),
        encoded(bytes)[j] != 32,
{
    lemma_unpadded_encoding(bytes);
}

fn value_of(c: u8) -> (r: Option<u8>)
    ensures
        r == digit_value(c),
{
    if 0x41 <= c && c <= 0x5a {
        Some(c - 0x41)
    } else if 0x61 <= c && c <= 0x7a {
        Some(c - 0x61 + 26)
    } else if 0x30 <= c && c <= 0x39 {
        Some(c - 0x30 + 52)
    } else if c == 0x2b {
        Some(62)
    } else if c == 0x2f {
        Some(63)
    } else {
        None
    }
}

fn digits_before(text: &[u8], end: usize) -> (r: Option<Vec<u8>>)
    requires
        end <= text@.len(),
    ensures
        match r {
            Some(d) => all_digits(text@.take(end as int)) && d@ == digits_of(
                text@.take(end as int),
            ) && forall|i: int| 0 <= i < d@.len() ==> #[trigger] d@[i] < 64,
            None => !all_digits(text@.take(end as int)),
        },
{
    let ghost t = text@.take(end as int);
    let mut d: Vec<u8> = Vec::new();
    let mut i: usize = 0;
    while i < end
        invariant
            i <= end <= text@.len(),
            t == text@.take(end as int),
            d@.len() == i,
            forall|k: int|
                0 <= k < i ==> digit_value(#[trigger] t[k]) == Some(d@[k]) && d@[k] < 64,
        decreases end - i,
    {
        assert(t[i as int] == text@[i as int]);
        match value_of(text[i]) {
            Some(v) => d.push(v),
            None => {
                assert(digit_value(t[i as int]) is None);
                return None;
            },
        }
        i += 1;
    }
    assert(d@ =~= digits_of(t));
    assert forall|k: int| 0 <= k < d@.len() implies #[trigger] d@[k] < 64 by {
        assert(digit_value(t[k]) == Some(d@[k]));
    }
    Some(d)
}

/// Decodes a text; padding at its end is accepted, and not asked for. Nothing comes back
/// where a character stands for no number.
pub fn decode(text: &[u8]) -> (r: Option<Vec<u8>>)
    ensures
        match r {
            Some(bytes) => decoded(text@) == Some(bytes@),
            None => decoded(text@) is None,
        },
{
    let mut end: usize = text.len();
    assert(text@.take(end as int) =~= text@);
    while end > 0 && text[end - 1] == PADDING
        invariant
            end <= text@.len(),
            unpadded(text@) == unpadded(text@.take(end as int)),
        decreases end,
    {
        assert(text@.take(end as int).drop_last() =~= text@.take(end - 1));
        end -= 1;
    }
    let digits = match digits_before(text, end) {
        Some(d) => d,
        None => return None,
    };
    let n: usize = digits.len();
    // The size in bytes, without a product that could overflow
    let total: usize = n / 4 * 3 + n % 4 * 3 / 4;
    assert(total == n * 3 / 4);
    let mut out: Vec<u8> = Vec::new();
    let mut k: usize = 0;
    while k < total
        invariant
            k <= total,
            total == n * 3 / 4,
            n == digits@.len(),
            forall|i: int| 0 <= i < digits@.len() ==> #[trigger] digits@[i] < 64,
            out@ == bytes_of(digits@).take(k as int),
        decreases total - k,
    {
        let g: usize = k / 3 * 4;
        assert(g == 4 * (k as int / 3));
        let byte: u8 = if k % 3 == 0 {
            assert(digits@[g as int] < 64 && digits@[g + 1] < 64);
            digits[g] * 4 + digits[g + 1] / 16
        } else if k % 3 == 1 {
            digits[g + 1] % 16 * 16 + digits[g + 2] / 4
        } else {
            digits[g + 2] % 4 * 64 + digits[g + 3]
        };
        assert(byte == byte_at(digits@, k as int)) by {
            assert(digits@[g + 1] < 64);
            if k % 3 != 0 {
                assert(digits@[g + 2] < 64);
            }
            if k % 3 == 2 {
                assert(digits@[g + 3] < 64);
            }
        }
        out.push(byte);
        assert(out@ =~= bytes_of(digits@).take(k + 1));
        k += 1;
    }
    assert(out@ =~= bytes_of(digits@));
    Some(out)
}

} // verus!
