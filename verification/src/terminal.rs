//! Reading the values of terminals from the source text.

use vstd::prelude::*;
use crate::scan::{
    all_bits, all_digits, decimal_number, decimal_value, digit_value, hex_pair, hex_value,
    is_bit, is_digit, is_hex_digit,
};
use crate::text::{
    byte_offset, is_lead_of, lead_byte, lead_width, lemma_offset_grows, lemma_offset_order,
};

verus! {

/// The rule on the value of a decimal or hexadecimal terminal: it is not
/// negative, and it is at most 126 unless the extended profile is chosen.
pub fn within_terminal_range(value: i32, extended: bool) -> (ok: bool)
    ensures
        ok == crate::scan::within_terminal_range(value as int, extended),
{
    0 <= value && (extended || value <= 126)
}

/// The view of an optional number.
pub open spec fn number_view(n: Option<i32>) -> Option<int> {
    match n {
        Some(v) => Some(v as int),
        None => None,
    }
}

/// The value of a hexadecimal digit that is known by its byte; `None` for
/// another character.
fn hex_digit(b: u8, Ghost(c): Ghost<char>) -> (v: Option<i32>)
    requires
        is_lead_of(b, c),
    ensures
        v is Some <==> is_hex_digit(c),
        v matches Some(d) ==> d == hex_value(c) && 0 <= d < 16,
{
    if ('0' as u8) <= b && b <= ('9' as u8) {
        Some((b - ('0' as u8)) as i32)
    } else if ('a' as u8) <= b && b <= ('f' as u8) {
        Some((b - ('a' as u8)) as i32 + 10)
    } else if ('A' as u8) <= b && b <= ('F' as u8) {
        Some((b - ('A' as u8)) as i32 + 10)
    } else {
        None
    }
}

/// Two characters, each known by its first byte, read as a number in base
/// 16: two hexadecimal digits, or a `+` and one hexadecimal digit.
pub(crate) fn parse_hex_pair(b0: u8, b1: u8, Ghost(c0): Ghost<char>, Ghost(c1): Ghost<char>) -> (v: Option<
    i32,
>)
    requires
        is_lead_of(b0, c0),
        is_lead_of(b1, c1),
    ensures
        number_view(v) == hex_pair(c0, c1),
        v matches Some(n) ==> 0 <= n < 256,
{
    let low = hex_digit(b1, Ghost(c1));
    match low {
        None => None,
        Some(d1) => {
            if b0 == ('+' as u8) {
                Some(d1)
            } else {
                match hex_digit(b0, Ghost(c0)) {
                    None => None,
                    Some(d0) => Some(16 * d0 + d1),
                }
            }
        },
    }
}

/// Counts the characters between two byte offsets of a text, which are the
/// offsets of the characters with the indices `a` and `b`, and tells whether
/// each of them is `0` or `1`.
pub(crate) fn count_bits(
    src: &str,
    from: usize,
    to: usize,
    Ghost(a): Ghost<int>,
    Ghost(b): Ghost<int>,
) -> (r: (usize, bool))
    requires
        0 <= a <= b <= src@.len(),
        from == byte_offset(src@, a),
        to == byte_offset(src@, b),
    ensures
        r.0 == b - a,
        r.1 == all_bits(src@.subrange(a, b)),
{
    let ghost text = src@.subrange(a, b);
    let mut at = from;
    let mut count: usize = 0;
    let mut bits = true;
    let ghost mut k = a;
    proof {
        lemma_offset_order(src@, a, b);
        lemma_offset_grows(src@, 0, a);
    }
    while at < to
        invariant
            0 <= a <= k <= b <= src@.len(),
            at == byte_offset(src@, k),
            to == byte_offset(src@, b),
            count == k - a,
            count <= at,
            text == src@.subrange(a, b),
            bits == all_bits(text.take(k - a)),
            at < to <==> k < b,
        decreases b - k,
    {
        let byte = lead_byte(src, at, Ghost(k));
        let bit = byte == ('0' as u8) || byte == ('1' as u8);
        proof {
            let before = text.take(k - a);
            let now = text.take(k - a + 1);
            assert(now[k - a] == src@[k]);
            assert(bit == is_bit(src@[k]));
            if all_bits(now) {
                assert forall|t: int| 0 <= t < before.len() implies is_bit(
                    #[trigger] before[t],
                ) by {
                    assert(is_bit(now[t]));
                }
            }
            if all_bits(before) && bit {
                assert forall|t: int| 0 <= t < now.len() implies is_bit(
                    #[trigger] now[t],
                ) by {
                    if t < before.len() {
                        assert(is_bit(before[t]));
                    }
                }
            }
            lemma_offset_order(src@, k + 1, b);
        }
        bits = bits && bit;
        at = at + lead_width(byte);
        count = count + 1;
        proof {
            k = k + 1;
        }
    }
    proof {
        assert(text.take(b - a) =~= text);
    }
    (count, bits)
}

/// The number that decimal digits denote is not negative.
proof fn lemma_decimal_value_nonnegative(s: Seq<char>)
    requires
        all_digits(s),
    ensures
        0 <= decimal_value(s),
    decreases s.len(),
{
    if s.len() > 0 {
        assert(all_digits(s.drop_last())) by {
            assert forall|k: int| 0 <= k < s.drop_last().len() implies is_digit(
                #[trigger] s.drop_last()[k],
            ) by {
                assert(is_digit(s[k]));
            }
        }
        lemma_decimal_value_nonnegative(s.drop_last());
        assert(is_digit(s[s.len() - 1]));
    }
}

/// The number that decimal digits denote is at least the number that any
/// of its beginnings denotes.
proof fn lemma_decimal_value_grows(s: Seq<char>, k: int)
    requires
        all_digits(s),
        0 <= k <= s.len(),
    ensures
        0 <= decimal_value(s.take(k)) <= decimal_value(s),
    decreases s.len() - k,
{
    assert(all_digits(s.take(k))) by {
        assert forall|t: int| 0 <= t < s.take(k).len() implies is_digit(#[trigger] s.take(k)[t]) by {
            assert(is_digit(s[t]));
        }
    }
    lemma_decimal_value_nonnegative(s.take(k));
    if k == s.len() {
        assert(s.take(k) =~= s);
    } else {
        lemma_decimal_value_grows(s, k + 1);
        assert(s.take(k + 1).drop_last() =~= s.take(k));
        assert(s.take(k + 1).last() == s[k]);
        assert(is_digit(s[k]));
    }
}

/// The text between two byte offsets of a text, which are the offsets of the
/// characters with the indices `a` and `b`, read as a decimal number of 32
/// bits.
pub(crate) fn parse_decimal(
    src: &str,
    from: usize,
    to: usize,
    Ghost(a): Ghost<int>,
    Ghost(b): Ghost<int>,
) -> (r: Option<i32>)
    requires
        0 <= a <= b <= src@.len(),
        from == byte_offset(src@, a),
        to == byte_offset(src@, b),
    ensures
        number_view(r) == decimal_number(src@.subrange(a, b)),
{
    let ghost digits = src@.subrange(a, b);
    proof {
        lemma_offset_order(src@, a, b);
        assert(digits.take(0) =~= Seq::<char>::empty());
    }
    if from >= to {
        return None;
    }
    let mut at = from;
    let mut value: i64 = 0;
    let ghost mut k = a;
    while at < to
        invariant
            0 <= a <= k <= b <= src@.len(),
            a < b,
            at == byte_offset(src@, k),
            to == byte_offset(src@, b),
            digits == src@.subrange(a, b),
            all_digits(digits.take(k - a)),
            value == decimal_value(digits.take(k - a)),
            0 <= value <= i32::MAX,
            at < to <==> k < b,
        decreases b - k,
    {
        let byte = lead_byte(src, at, Ghost(k));
        let ghost before = digits.take(k - a);
        let ghost now = digits.take(k - a + 1);
        proof {
            assert(now.drop_last() =~= before);
            assert(now.last() == src@[k]);
            assert(digits[k - a] == src@[k]);
            lemma_offset_order(src@, k + 1, b);
        }
        if !(('0' as u8) <= byte && byte <= ('9' as u8)) {
            proof {
                assert(!is_digit(digits[k - a]));
            }
            return None;
        }
        let digit = byte - ('0' as u8);
        proof {
            assert(is_digit(src@[k]));
            assert(digit_value(src@[k]) == digit);
            assert forall|t: int| 0 <= t < now.len() implies is_digit(#[trigger] now[t]) by {
                if t < before.len() {
                    assert(is_digit(before[t]));
                    assert(before[t] == now[t]);
                }
            }
        }
        value = value * 10 + digit as i64;
        if value > 0x7fff_ffff {
            proof {
                if all_digits(digits) {
                    lemma_decimal_value_grows(digits, k - a + 1);
                }
            }
            return None;
        }
        at = at + lead_width(byte);
        proof {
            k = k + 1;
        }
    }
    proof {
        assert(digits.take(b - a) =~= digits);
    }
    Some(value as i32)
}

} // verus!
