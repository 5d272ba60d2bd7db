//! Base64 VLQ values, the number encoding of the `mappings` string.

use vstd::prelude::*;

verus! {

/// The 6-bit value of a character of the standard Base64 alphabet.
pub open spec fn base64_value(c: u8) -> Option<u32> {
    if 'A' as u8 <= c && c <= 'Z' as u8 {
        Some((c - 'A' as u8) as u32)
    } else if 'a' as u8 <= c && c <= 'z' as u8 {
        Some((c - 'a' as u8 + 26) as u32)
    } else if '0' as u8 <= c && c <= '9' as u8 {
        Some((c - '0' as u8 + 52) as u32)
    } else if c == '+' as u8 {
        Some(62)
    } else if c == '/' as u8 {
        Some(63)
    } else {
        None
    }
}

/// Convert a Base64 character to its 6-bit value.
pub fn base64_char_to_value(c: u8) -> (r: Option<u32>)
    ensures
        r == base64_value(c),
        r matches Some(v) ==> v < 64,
{
    if 'A' as u8 <= c && c <= 'Z' as u8 {
        Some((c - 'A' as u8) as u32)
    } else if 'a' as u8 <= c && c <= 'z' as u8 {
        Some((c - 'a' as u8 + 26) as u32)
    } else if '0' as u8 <= c && c <= '9' as u8 {
        Some((c - '0' as u8 + 52) as u32)
    } else if c == '+' as u8 {
        Some(62)
    } else if c == '/' as u8 {
        Some(63)
    } else {
        None
    }
}


/// Whether a character is a Base64 digit whose continuation bit is set, so
/// that the VLQ value goes on with the next character.
pub open spec fn vlq_continues(c: u8) -> bool {
    base64_value(c) matches Some(d) && d >= 32
}

/// The number of characters of the VLQ value that starts at `start`: the
/// digits up to and including the first one without the continuation bit.
/// `None` where the input ends, or holds a character outside the Base64
/// alphabet, before that digit.
pub open spec fn vlq_length(chars: Seq<u8>, start: int) -> Option<nat>
    decreases chars.len() - start,
{
    if start < 0 || start >= chars.len() {
        None
    } else {
        match base64_value(chars[start]) {
            None => None,
            Some(d) => if d < 32 {
                Some(1)
            } else {
                match vlq_length(chars, start + 1) {
                    Some(n) => Some(n + 1),
                    None => None,
                }
            },
        }
    }
}

/// The contribution of the `k`-th digit (counted from 0) of a VLQ value: its
/// five value bits, shifted by five bits per earlier digit.
pub open spec fn vlq_chunk(digit: u32, k: nat) -> u32 {
    (digit & 31u32) << (((5 * k) % 32) as u32)
}

/// The sum of the contributions of the first `n` digits from `start`.
pub open spec fn vlq_sum(chars: Seq<u8>, start: int, n: nat) -> int
    decreases n,
{
    if n == 0 {
        0
    } else {
        vlq_sum(chars, start, (n - 1) as nat) + vlq_chunk(
            base64_value(chars[start + n - 1]).unwrap(),
            (n - 1) as nat,
        )
    }
}

/// The unsigned value of the `n` digits from `start`, in 32 bits (a value of
/// more than 32 bits wraps around).
pub open spec fn vlq_raw(chars: Seq<u8>, start: int, n: nat) -> u32 {
    (vlq_sum(chars, start, n) % 0x1_0000_0000) as u32
}

/// The lowest bit of the unsigned value is the sign, the other bits are the
/// magnitude.
pub open spec fn vlq_signed(raw: u32) -> i32 {
    if raw % 2 == 1 {
        (-((raw / 2) as int)) as i32
    } else {
        (raw / 2) as i32
    }
}

/// The signed value of the `n` digits from `start`.
pub open spec fn vlq_value(chars: Seq<u8>, start: int, n: nat) -> i32 {
    vlq_signed(vlq_raw(chars, start, n))
}

/// The VLQ value that starts at `start` and the number of characters it
/// takes, or `None` where there is no complete value there.
pub open spec fn vlq_decode(chars: Seq<u8>, start: int) -> Option<(i32, usize)> {
    match vlq_length(chars, start) {
        Some(n) => Some((vlq_value(chars, start, n), n as usize)),
        None => None,
    }
}

/// A complete VLQ value lies inside the input and takes at least one character.
pub proof fn lemma_vlq_length_bounds(chars: Seq<u8>, start: int)
    ensures
        vlq_length(chars, start) matches Some(n) ==> 1 <= n && 0 <= start && start + n
            <= chars.len(),
    decreases chars.len() - start,
{
    if 0 <= start < chars.len() {
        lemma_vlq_length_bounds(chars, start + 1);
    }
}

/// One digit more: the 32-bit sum, with wrapping addition, of the digits so far.
proof fn lemma_vlq_step(chars: Seq<u8>, start: int, k: nat, result: u32, digit: u32)
    requires
        0 <= start,
        start + k < chars.len(),
        base64_value(chars[start + k]) == Some(digit),
        result as int == vlq_sum(chars, start, k) % 0x1_0000_0000,
    ensures
        vstd::wrapping::u32_specs::wrapping_add(result, vlq_chunk(digit, k)) as int == vlq_sum(
            chars,
            start,
            k + 1,
        ) % 0x1_0000_0000,
{
    let c = vlq_chunk(digit, k);
    assert(vlq_sum(chars, start, k + 1) == vlq_sum(chars, start, k) + c);
    vstd::arithmetic::div_mod::lemma_add_mod_noop(vlq_sum(chars, start, k), c as int, 0x1_0000_0000);
    vstd::arithmetic::div_mod::lemma_small_mod(c as nat, 0x1_0000_0000);
    vstd::arithmetic::div_mod::lemma_small_mod(result as nat, 0x1_0000_0000);
    if result + c >= 0x1_0000_0000 {
        vstd::arithmetic::div_mod::lemma_fundamental_div_mod_converse(
            result + c,
            0x1_0000_0000,
            1,
            result + c - 0x1_0000_0000,
        );
    } else {
        vstd::arithmetic::div_mod::lemma_small_mod((result + c) as nat, 0x1_0000_0000);
    }
}

/// 32 to the power `k`.
pub open spec fn pow32(k: nat) -> nat
    decreases k,
{
    if k == 0 {
        1
    } else {
        32 * pow32((k - 1) as nat)
    }
}

/// The value of `n` digits from `start` as the Source Map format reads them:
/// the sum of each digit's five value bits times 32 to the power of its
/// position.
pub open spec fn vlq_digits_value(chars: Seq<u8>, start: int, n: nat) -> nat
    decreases n,
{
    if n == 0 {
        0
    } else {
        vlq_digits_value(chars, start, (n - 1) as nat) + (base64_value(
            chars[start + n - 1],
        ).unwrap() % 32) as nat * pow32((n - 1) as nat)
    }
}

proof fn lemma_vlq_chunk_small(d: u32, k: nat)
    requires
        d < 64,
        k <= 5,
    ensures
        vlq_chunk(d, k) == (d % 32) * pow32(k),
{
    reveal_with_fuel(pow32, 6);
    if k == 0 {
        assert(((5 * k) % 32) as u32 == 0u32 && pow32(k) == 1);
        assert((d & 31u32) << 0u32 == d % 32) by (bit_vector);
    } else if k == 1 {
        assert(((5 * k) % 32) as u32 == 5u32 && pow32(k) == 32);
        assert((d & 31u32) << 5u32 == (d % 32) * 32) by (bit_vector);
    } else if k == 2 {
        assert(((5 * k) % 32) as u32 == 10u32 && pow32(k) == 1024);
        assert((d & 31u32) << 10u32 == (d % 32) * 1024) by (bit_vector);
    } else if k == 3 {
        assert(((5 * k) % 32) as u32 == 15u32 && pow32(k) == 32768);
        assert((d & 31u32) << 15u32 == (d % 32) * 32768) by (bit_vector);
    } else if k == 4 {
        assert(((5 * k) % 32) as u32 == 20u32 && pow32(k) == 1048576);
        assert((d & 31u32) << 20u32 == (d % 32) * 1048576) by (bit_vector);
    } else {
        assert(((5 * k) % 32) as u32 == 25u32 && pow32(k) == 33554432);
        assert((d & 31u32) << 25u32 == (d % 32) * 33554432) by (bit_vector);
    }
}

proof fn lemma_vlq_sum_small(chars: Seq<u8>, start: int, n: nat)
    requires
        n <= 6,
        forall|i: int| start <= i < start + n ==> base64_value(#[trigger] chars[i]) is Some,
    ensures
        vlq_sum(chars, start, n) == vlq_digits_value(chars, start, n),
        vlq_digits_value(chars, start, n) < pow32(n),
    decreases n,
{
    if n > 0 {
        let k = (n - 1) as nat;
        let d = base64_value(chars[start + k]).unwrap();
        lemma_vlq_sum_small(chars, start, k);
        lemma_vlq_chunk_small(d, k);
        assert((d % 32) as nat * pow32(k) <= 31 * pow32(k)) by (nonlinear_arith)
            requires
                d % 32 <= 31,
        ;
    }
}

/// The digits of a complete VLQ value are Base64 characters.
proof fn lemma_vlq_digits_base64(chars: Seq<u8>, start: int)
    ensures
        vlq_length(chars, start) matches Some(n) ==> forall|i: int|
            start <= i < start + n ==> base64_value(#[trigger] chars[i]) is Some,
    decreases chars.len() - start,
{
    if 0 <= start < chars.len() {
        lemma_vlq_digits_base64(chars, start + 1);
    }
}

/// Law: a VLQ value of at most six digits is read as the Source Map format
/// defines it: the digits' five value bits, least significant digit first,
/// make a number whose lowest bit is the sign and whose other bits are the
/// magnitude.
pub proof fn law_vlq_value(chars: Seq<u8>, start: int)
    requires
        vlq_length(chars, start) matches Some(n) && n <= 6,
    ensures
        ({
            let n = vlq_length(chars, start).unwrap();
            let v = vlq_digits_value(chars, start, n);
            &&& vlq_raw(chars, start, n) == v
            &&& vlq_value(chars, start, n) as int == if v % 2 == 1 {
                -((v / 2) as int)
            } else {
                (v / 2) as int
            }
        }),
{
    let n = vlq_length(chars, start).unwrap();
    lemma_vlq_digits_base64(chars, start);
    lemma_vlq_sum_small(chars, start, n);
    reveal_with_fuel(pow32, 7);
    assert(pow32(n) <= pow32(6)) by {
        lemma_pow32_monotonic(n, 6);
    }
    vstd::arithmetic::div_mod::lemma_small_mod(
        vlq_digits_value(chars, start, n),
        0x1_0000_0000,
    );
}

proof fn lemma_pow32_monotonic(a: nat, b: nat)
    requires
        a <= b,
    ensures
        pow32(a) <= pow32(b),
    decreases b,
{
    if a < b {
        lemma_pow32_monotonic(a, (b - 1) as nat);
    }
}

/// The character of the standard Base64 alphabet for a 6-bit value.
pub open spec fn base64_char(d: nat) -> u8 {
    if d < 26 {
        ('A' as u8 + d) as u8
    } else if d < 52 {
        ('a' as u8 + d - 26) as u8
    } else if d < 62 {
        ('0' as u8 + d - 52) as u8
    } else if d == 62 {
        '+' as u8
    } else {
        '/' as u8
    }
}

/// The Base64 VLQ digits of an unsigned value: its five-bit groups, least
/// significant first, each with the continuation bit (32) but the last.
pub open spec fn vlq_digits(r: nat) -> Seq<u8>
    decreases r,
{
    if r < 32 {
        seq![base64_char(r)]
    } else {
        seq![base64_char(r % 32 + 32)] + vlq_digits(r / 32)
    }
}

/// The Source Map V3 Base64 VLQ encoding of a value: twice its magnitude,
/// plus one where it is negative, written as VLQ digits.
pub open spec fn vlq_encode(v: int) -> Seq<u8> {
    vlq_digits(
        if v < 0 {
            (2 * (-v) + 1) as nat
        } else {
            (2 * v) as nat
        },
    )
}

proof fn lemma_base64_char(d: nat)
    requires
        d < 64,
    ensures
        base64_value(base64_char(d)) == Some(d as u32),
{
}

/// Reading one more digit at the front multiplies the rest by 32.
proof fn lemma_vlq_digits_value_front(chars: Seq<u8>, start: int, n: nat)
    ensures
        vlq_digits_value(chars, start, n + 1) == (base64_value(chars[start]).unwrap() % 32) as nat
            + 32 * vlq_digits_value(chars, start + 1, n),
    decreases n,
{
    let d0 = (base64_value(chars[start]).unwrap() % 32) as nat;
    if n == 0 {
        assert(pow32(0) == 1);
        assert(vlq_digits_value(chars, start, 0) == 0);
        assert(vlq_digits_value(chars, start + 1, 0) == 0);
        assert(vlq_digits_value(chars, start, 1) == d0 * pow32(0));
    } else {
        let m = (n - 1) as nat;
        lemma_vlq_digits_value_front(chars, start, m);
        let a = vlq_digits_value(chars, start + 1, m);
        let d = (base64_value(chars[start + 1 + m]).unwrap() % 32) as nat;
        let p = pow32(m);
        assert(pow32(n) == 32 * p);
        assert(vlq_digits_value(chars, start, n + 1) == vlq_digits_value(chars, start, n) + d
            * pow32(n));
        assert(vlq_digits_value(chars, start, n) == d0 + 32 * a);
        assert(vlq_digits_value(chars, start + 1, n) == a + d * p);
        assert(d * (32 * p) == 32 * (d * p)) by (nonlinear_arith);
        assert(32 * a + 32 * (d * p) == 32 * (a + d * p)) by (nonlinear_arith);
    }
}

proof fn lemma_vlq_digits_len(r: nat, k: nat)
    requires
        1 <= k,
        r < pow32(k),
    ensures
        vlq_digits(r).len() <= k,
    decreases r,
{
    if r >= 32 {
        let km = (k - 1) as nat;
        let p = pow32(km);
        assert(pow32(k) == 32 * p);
        vstd::arithmetic::div_mod::lemma_fundamental_div_mod(r as int, 32);
        let q = r / 32;
        assert(r == 32 * q + r % 32);
        if q >= p {
            assert(32 * q >= 32 * p) by (nonlinear_arith)
                requires
                    q >= p,
            ;
        }
        assert(q < p);
        if km == 0 {
            assert(pow32(0) == 1);
        }
        lemma_vlq_digits_len(q, km);
    }
}

/// VLQ digits of `r` placed at `start` are one complete value of value `r`.
proof fn lemma_vlq_digits_decode(chars: Seq<u8>, start: int, r: nat)
    requires
        0 <= start,
        start + vlq_digits(r).len() <= chars.len(),
        forall|i: int| 0 <= i < vlq_digits(r).len() ==> chars[start + i] == #[trigger] vlq_digits(r)[i],
    ensures
        vlq_length(chars, start) == Some(vlq_digits(r).len()),
        vlq_digits_value(chars, start, vlq_digits(r).len()) == r,
    decreases r,
{
    assert(chars[start + 0] == vlq_digits(r)[0]);
    if r < 32 {
        lemma_base64_char(r);
        assert(chars[start] == base64_char(r));
        assert(vlq_digits(r).len() == 1);
        assert(vlq_digits_value(chars, start, 0) == 0);
        assert(pow32(0) == 1);
        vstd::arithmetic::div_mod::lemma_small_mod(r, 32);
        assert(vlq_digits_value(chars, start, 1) == (r % 32) * pow32(0));
    } else {
        let low = r % 32;
        let rest = vlq_digits(r / 32);
        lemma_base64_char(low + 32);
        assert(chars[start] == base64_char(low + 32));
        assert forall|i: int| 0 <= i < rest.len() implies chars[(start + 1) + i] == #[trigger] rest[i] by {
            assert(vlq_digits(r)[i + 1] == rest[i]);
        }
        lemma_vlq_digits_decode(chars, start + 1, r / 32);
        lemma_vlq_digits_value_front(chars, start, rest.len());
        assert((low + 32) % 32 == low) by {
            vstd::arithmetic::div_mod::lemma_mod_add_multiples_vanish(low as int, 32);
            vstd::arithmetic::div_mod::lemma_small_mod(low, 32);
        }
        vstd::arithmetic::div_mod::lemma_fundamental_div_mod(r as int, 32);
        assert(vlq_digits(r).len() == rest.len() + 1);
        assert(vlq_digits_value(chars, start, rest.len() + 1) == low + 32 * (r / 32));
    }
}

/// Law: the Source Map V3 Base64 VLQ encoding of a value whose magnitude is
/// below 2^29 decodes, whatever follows it, to that value and the length of
/// the encoding.
pub proof fn law_vlq_round_trip(v: int, rest: Seq<u8>)
    requires
        -0x2000_0000 < v < 0x2000_0000,
    ensures
        vlq_decode(vlq_encode(v) + rest, 0) == Some((v as i32, vlq_encode(v).len() as usize)),
{
    let r: nat = if v < 0 {
        (2 * (-v) + 1) as nat
    } else {
        (2 * v) as nat
    };
    let e = vlq_encode(v);
    let s = e + rest;
    assert forall|i: int| 0 <= i < vlq_digits(r).len() implies s[0 + i] == #[trigger] vlq_digits(
        r,
    )[i] by {}
    lemma_vlq_digits_decode(s, 0, r);
    reveal_with_fuel(pow32, 7);
    lemma_vlq_digits_len(r, 6);
    law_vlq_value(s, 0);
}

proof fn lemma_vlq_length_same_digits(a: Seq<u8>, sa: int, b: Seq<u8>, sb: int, n: nat)
    requires
        vlq_length(a, sa) == Some(n),
        0 <= sb,
        sb + n <= b.len(),
        forall|j: int| sa <= j < sa + n ==> #[trigger] a[j] == b[sb + (j - sa)],
    ensures
        vlq_length(b, sb) == Some(n),
    decreases n,
{
    lemma_vlq_length_bounds(a, sa);
    assert(a[sa] == b[sb + (sa - sa)]);
    let d = base64_value(a[sa]).unwrap();
    if d >= 32 {
        let m = vlq_length(a, sa + 1).unwrap();
        assert(n == m + 1);
        assert forall|j: int| sa + 1 <= j < sa + 1 + m implies #[trigger] a[j] == b[(sb + 1) + (j
            - (sa + 1))] by {
            assert(a[j] == b[sb + (j - sa)]);
        }
        lemma_vlq_length_same_digits(a, sa + 1, b, sb + 1, m);
    }
}

proof fn lemma_vlq_sum_same_digits(a: Seq<u8>, sa: int, b: Seq<u8>, sb: int, k: nat)
    requires
        forall|j: int| sa <= j < sa + k ==> #[trigger] a[j] == b[sb + (j - sa)],
    ensures
        vlq_sum(a, sa, k) == vlq_sum(b, sb, k),
    decreases k,
{
    if k > 0 {
        lemma_vlq_sum_same_digits(a, sa, b, sb, (k - 1) as nat);
        assert(a[sa + k - 1] == b[sb + ((sa + k - 1) - sa)]);
    }
}

/// Law: a VLQ value, and the number of its characters, depend only on its
/// own digits: wherever the same digits stand in another input, they decode
/// to the same value and length.
pub proof fn law_vlq_own_digits(a: Seq<u8>, sa: int, b: Seq<u8>, sb: int)
    requires
        vlq_length(a, sa) matches Some(n) && 0 <= sb && sb + n <= b.len() && a.subrange(
            sa,
            sa + n,
        ) == b.subrange(sb, sb + n),
    ensures
        vlq_decode(b, sb) == vlq_decode(a, sa),
{
    let n = vlq_length(a, sa).unwrap();
    lemma_vlq_length_bounds(a, sa);
    assert forall|j: int| sa <= j < sa + n implies #[trigger] a[j] == b[sb + (j - sa)] by {
        assert(a.subrange(sa, sa + n)[j - sa] == b.subrange(sb, sb + n)[j - sa]);
    }
    lemma_vlq_length_same_digits(a, sa, b, sb, n);
    lemma_vlq_sum_same_digits(a, sa, b, sb, n);
}

/// Decode a single Base64 VLQ value from the mappings string.
///
/// Returns the decoded value and the number of characters consumed.
pub fn decode_vlq(chars: &[u8], start: usize) -> (r: Option<(i32, usize)>)
    ensures
        r == vlq_decode(chars@, start as int),
        r matches Some((_, n)) ==> 1 <= n && start + n <= chars.len(),
{
    let mut result: u32 = 0;
    let mut shift: u32 = 0;
    let mut pos: usize = start;
    proof {
        lemma_vlq_length_bounds(chars@, start as int);
    }
    loop
        invariant
            start <= pos,
            pos <= start || pos <= chars.len(),
            shift == (5 * (pos - start)) % 32,
            result as int == vlq_sum(chars@, start as int, (pos - start) as nat) % 0x1_0000_0000,
            match vlq_length(chars@, pos as int) {
                Some(n) => vlq_length(chars@, start as int) == Some((n + (pos - start)) as nat),
                None => vlq_length(chars@, start as int) is None,
            },
        decreases chars.len() - pos,
    {
        if pos >= chars.len() {
            return None;
        }
        let digit = match base64_char_to_value(chars[pos]) {
            Some(d) => d,
            None => return None,
        };
        let ghost k: nat = (pos - start) as nat;
        let ghost old_pos = pos;
        pos += 1;
        let has_continuation = (digit & 32) != 0;
        let value_part = digit & 31;
        let chunk = value_part << shift;
        proof {
            lemma_vlq_step(chars@, start as int, k, result, digit);
            vstd::arithmetic::div_mod::lemma_add_mod_noop((5 * k) as int, 5, 32);
            assert(vlq_length(chars@, old_pos as int) == match base64_value(chars@[old_pos as int]) {
                None => None,
                Some(d) => if d < 32 {
                    Some(1nat)
                } else {
                    match vlq_length(chars@, old_pos + 1) {
                        Some(n) => Some(n + 1),
                        None => None,
                    }
                },
            });
        }
        result = result.wrapping_add(chunk);
        shift = (shift + 5) % 32;
        assert(has_continuation == (digit >= 32)) by (bit_vector)
            requires
                digit < 64,
                has_continuation == ((digit & 32) != 0),
        ;
        if !has_continuation {
            let is_negative = (result & 1) == 1;
            let magnitude = result >> 1;
            assert(is_negative == (result % 2 == 1) && magnitude == result / 2) by (bit_vector)
                requires
                    is_negative == ((result & 1) == 1),
                    magnitude == result >> 1,
            ;
            let signed = if is_negative {
                -(magnitude as i32)
            } else {
                magnitude as i32
            };
            return Some((signed, pos - start));
        }
    }
}

} // verus!
