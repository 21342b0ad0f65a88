//! The remaining-length field of an MQTT fixed header: one to four bytes that
//! hold a number in base 128, least significant digit first, where every byte
//! but the last has its high bit set.

use vstd::prelude::*;

verus! {

/// Largest remaining length that a packet can carry: four base-128 digits.
pub const MAX_REMAINING_LENGTH: usize = 268_435_455;

/// 128 to the power `i`.
pub open spec fn pow128(i: nat) -> nat
    decreases i,
{
    if i == 0 {
        1
    } else {
        128 * pow128((i - 1) as nat)
    }
}

/// The byte that carries the lowest base-128 digit of `n`, with the
/// continuation bit set when more digits follow.
pub open spec fn length_digit(n: nat) -> u8 {
    if n < 128 {
        n as u8
    } else {
        (n % 128 + 128) as u8
    }
}

/// The bytes of the remaining-length field that stands for `n`.
/// Zero has no digit at all, so its encoding is empty.
pub open spec fn encoded_length(n: nat) -> Seq<u8>
    decreases n,
{
    if n == 0 {
        Seq::empty()
    } else {
        seq![length_digit(n)] + encoded_length(n / 128)
    }
}

/// The number that a run of length bytes stands for: byte `i` contributes its
/// low seven bits times 128 to the power `i`.
pub open spec fn decoded_length(digits: Seq<u8>) -> nat
    decreases digits.len(),
{
    if digits.len() == 0 {
        0
    } else {
        decoded_length(digits.drop_last()) + (digits.last() % 128) as nat * pow128(
            (digits.len() - 1) as nat,
        )
    }
}

/// Index of the first byte at or after `from` whose high bit is clear, or
/// `s.len()` when there is none.
pub open spec fn length_end(s: Seq<u8>, from: int) -> int
    decreases s.len() - from,
{
    if from < 0 || from >= s.len() {
        s.len() as int
    } else if s[from] < 128 {
        from
    } else {
        length_end(s, from + 1)
    }
}

/// Whether `header` holds, after its first byte, a complete length field of
/// at most four bytes.
pub open spec fn has_length(header: Seq<u8>) -> bool {
    length_end(header, 1) < header.len() && length_end(header, 1) <= 4
}

/// Whether `decode_length` can read `header`: it holds a complete length
/// field, or it is the first byte alone, which is what a packet with the
/// encoding of zero looks like.
pub open spec fn decodable(header: Seq<u8>) -> bool {
    header.len() == 1 || has_length(header)
}

/// The number of bytes that the fixed header takes: the first byte and the
/// length field after it. A header of the first byte alone has no field.
pub open spec fn consumed(header: Seq<u8>) -> int {
    if header.len() == 1 {
        1
    } else {
        length_end(header, 1) + 1
    }
}

/// The remaining length that the fixed header of a packet states.
pub open spec fn remaining_length(header: Seq<u8>) -> nat {
    decoded_length(header.subrange(1, consumed(header)))
}

/// Whether a packet sizes itself: its length field is complete and states
/// the number of bytes that follow it.
pub open spec fn well_framed(packet: Seq<u8>) -> bool {
    has_length(packet) && consumed(packet) + remaining_length(packet) == packet.len()
}

/// What `length_end` finds: every byte before it is a continuation byte, and
/// the byte at it, if there is one, is not.
pub proof fn lemma_length_end(s: Seq<u8>, from: int)
    requires
        0 <= from <= s.len(),
    ensures
        from <= length_end(s, from) <= s.len(),
        forall|j: int| from <= j < length_end(s, from) ==> s[j] >= 128,
        length_end(s, from) < s.len() ==> s[length_end(s, from)] < 128,
    decreases s.len() - from,
{
    if from < s.len() && s[from] >= 128 {
        lemma_length_end(s, from + 1);
    }
}

/// A terminating byte that only continuation bytes precede is where
/// `length_end` stops.
pub proof fn lemma_length_end_is(s: Seq<u8>, from: int, end: int)
    requires
        0 <= from <= end < s.len(),
        forall|j: int| from <= j < end ==> s[j] >= 128,
        s[end] < 128,
    ensures
        length_end(s, from) == end,
    decreases end - from,
{
    if from < end {
        lemma_length_end_is(s, from + 1, end);
    }
}

/// Reading one more byte adds its low seven bits at the next power of 128.
pub proof fn lemma_decoded_length_push(digits: Seq<u8>, byte: u8)
    ensures
        decoded_length(digits.push(byte)) == decoded_length(digits) + (byte % 128) as nat * pow128(
            digits.len(),
        ),
{
    assert(digits.push(byte).drop_last() =~= digits);
}

/// A run of `k` length bytes stands for a number below 128 to the power `k`.
pub proof fn lemma_decoded_length_bound(digits: Seq<u8>)
    ensures
        decoded_length(digits) < pow128(digits.len()),
    decreases digits.len(),
{
    if digits.len() > 0 {
        lemma_decoded_length_bound(digits.drop_last());
        let k = (digits.len() - 1) as nat;
        let d = (digits.last() % 128) as nat;
        assert(d * pow128(k) <= 127 * pow128(k)) by (nonlinear_arith)
            requires
                d <= 127,
        ;
    }
}

/// The first four powers of 128.
pub proof fn lemma_pow128_values()
    ensures
        pow128(0) == 1,
        pow128(1) == 128,
        pow128(2) == 16_384,
        pow128(3) == 2_097_152,
        pow128(4) == 268_435_456,
{
    reveal_with_fuel(pow128, 5);
}

/// Putting a byte in front of a run of length bytes adds its low seven bits
/// and moves every other digit up by one power of 128.
pub proof fn lemma_decoded_length_front(byte: u8, digits: Seq<u8>)
    ensures
        decoded_length(seq![byte] + digits) == (byte % 128) as nat + 128 * decoded_length(digits),
    decreases digits.len(),
{
    let all = seq![byte] + digits;
    if digits.len() == 0 {
        assert(all.drop_last() =~= Seq::<u8>::empty());
        assert(decoded_length(all.drop_last()) == 0);
        assert(all.last() == byte);
        let d = (byte % 128) as nat;
        let one = pow128(0);
        assert(d * one == d) by (nonlinear_arith)
            requires
                one == 1,
        ;
    } else {
        assert(all.drop_last() =~= seq![byte] + digits.drop_last());
        assert(all.last() == digits.last());
        lemma_decoded_length_front(byte, digits.drop_last());
        let d = (digits.last() % 128) as nat;
        let p = pow128((digits.len() - 1) as nat);
        assert(pow128(digits.len()) == 128 * p);
        let q = pow128(digits.len());
        assert(d * q == 128 * (d * p)) by (nonlinear_arith)
            requires
                q == 128 * p,
        ;
    }
}

/// The field that stands for a positive length ends in a byte with the high
/// bit clear, and every byte before it has the high bit set.
pub proof fn lemma_encoded_length_shape(n: nat)
    requires
        n > 0,
    ensures
        encoded_length(n).len() >= 1,
        encoded_length(n).last() < 128,
        forall|j: int| 0 <= j < encoded_length(n).len() - 1 ==> encoded_length(n)[j] >= 128,
    decreases n,
{
    if n >= 128 {
        lemma_encoded_length_shape(n / 128);
    } else {
        assert(encoded_length(n / 128) =~= Seq::<u8>::empty());
    }
}

/// A length below 128 to the power `k` takes at most `k` bytes.
pub proof fn lemma_encoded_length_len(n: nat, k: nat)
    requires
        n < pow128(k),
    ensures
        encoded_length(n).len() <= k,
    decreases n,
{
    if n > 0 {
        assert(k > 0);
        lemma_encoded_length_len(n / 128, (k - 1) as nat);
    }
}

/// Decoding the bytes that `encoded_length` gives for `n` yields `n` again.
pub proof fn lemma_decoded_encoded(n: nat)
    ensures
        decoded_length(encoded_length(n)) == n,
    decreases n,
{
    if n > 0 {
        lemma_decoded_encoded(n / 128);
        lemma_decoded_length_front(length_digit(n), encoded_length(n / 128));
    }
}

/// Decoding undoes encoding: in a packet made of any first byte, the encoded
/// form of a length from 1 to `MAX_REMAINING_LENGTH`, and any bytes after it,
/// the length field is found complete, it is exactly the encoded bytes, and
/// it decodes to the length that was encoded.
pub proof fn lemma_length_round_trip(first: u8, n: nat, rest: Seq<u8>)
    requires
        0 < n <= MAX_REMAINING_LENGTH,
    ensures
        has_length(seq![first] + encoded_length(n) + rest),
        length_end(seq![first] + encoded_length(n) + rest, 1) == encoded_length(n).len(),
        (seq![first] + encoded_length(n) + rest).subrange(1, encoded_length(n).len() as int + 1)
            == encoded_length(n),
        decoded_length(encoded_length(n)) == n,
        1 <= encoded_length(n).len() <= 4,
{
    let field = encoded_length(n);
    let packet = seq![first] + field + rest;
    lemma_pow128_values();
    lemma_encoded_length_len(n, 4);
    lemma_encoded_length_shape(n);
    lemma_decoded_encoded(n);
    assert forall|j: int| 1 <= j < field.len() implies packet[j] >= 128 by {
        assert(packet[j] == field[j - 1]);
    }
    assert(packet[field.len() as int] == field.last());
    lemma_length_end_is(packet, 1, field.len() as int);
    assert(packet.subrange(1, field.len() as int + 1) =~= field);
}

/// Decoding undoes encoding for every length from 0 to
/// `MAX_REMAINING_LENGTH`: a header made of any first byte and the encoded
/// length can be decoded, it is consumed whole, and it states that length.
pub proof fn lemma_decode_encoded(first: u8, n: nat)
    requires
        n <= MAX_REMAINING_LENGTH,
    ensures
        decodable(seq![first] + encoded_length(n)),
        consumed(seq![first] + encoded_length(n)) == (seq![first] + encoded_length(n)).len(),
        remaining_length(seq![first] + encoded_length(n)) == n,
{
    let header = seq![first] + encoded_length(n);
    if n == 0 {
        assert(header.subrange(1, 1) =~= Seq::<u8>::empty());
    } else {
        lemma_length_round_trip(first, n, Seq::empty());
        assert(header =~= seq![first] + encoded_length(n) + Seq::<u8>::empty());
    }
}

/// A packet made of a first byte, the encoded length of its body and the
/// body sizes itself, for a body of 1 to `MAX_REMAINING_LENGTH` bytes: its
/// header states the length of the body and ends where the body begins.
pub proof fn lemma_well_framed(first: u8, body: Seq<u8>)
    requires
        0 < body.len() <= MAX_REMAINING_LENGTH,
    ensures
        well_framed(seq![first] + encoded_length(body.len()) + body),
        remaining_length(seq![first] + encoded_length(body.len()) + body) == body.len(),
        consumed(seq![first] + encoded_length(body.len()) + body) == 1 + encoded_length(
            body.len(),
        ).len(),
{
    lemma_length_round_trip(first, body.len(), body);
}

/// Zero is encoded as no byte at all, so what decodes in its place is the
/// byte that follows: in a header that is filled up with zeros, that is the
/// length zero again.
pub proof fn lemma_zero_length_defaults(first: u8, rest: Seq<u8>)
    requires
        rest.len() > 0,
        rest[0] == 0,
    ensures
        encoded_length(0) == Seq::<u8>::empty(),
        has_length(seq![first] + encoded_length(0) + rest),
        length_end(seq![first] + encoded_length(0) + rest, 1) == 1,
        decoded_length((seq![first] + encoded_length(0) + rest).subrange(1, 2)) == 0,
{
    let packet = seq![first] + encoded_length(0) + rest;
    assert(packet[1] == rest[0]);
    let field = packet.subrange(1, 2);
    assert(field.drop_last() =~= Seq::<u8>::empty());
    assert(decoded_length(field.drop_last()) == 0);
    assert(field.last() == 0);
    let d = (field.last() % 128) as nat;
    assert(d * pow128(0) == 0) by (nonlinear_arith)
        requires
            d == 0,
    ;
}

/// Encodes `length` as the bytes of a remaining-length field.
pub fn encode_length(length: usize) -> (bytes: Vec<u8>)
    ensures
        bytes@ == encoded_length(length as nat),
        length <= MAX_REMAINING_LENGTH ==> bytes.len() <= 4,
{
    proof {
        if length <= MAX_REMAINING_LENGTH {
            lemma_pow128_values();
            lemma_encoded_length_len(length as nat, 4);
        }
    }
    let mut bytes: Vec<u8> = Vec::with_capacity(4);
    let mut rest: usize = length;
    while rest > 0
        invariant
            encoded_length(length as nat) == bytes@ + encoded_length(rest as nat),
        decreases rest,
    {
        let ghost before = rest;
        let mut byte: usize = rest % 128;
        rest /= 128;
        if rest > 0 {
            assert(byte | 0x80 == byte + 128) by (bit_vector)
                requires
                    byte < 128,
            ;
            byte |= 0x80;
        }
        assert(byte == length_digit(before as nat));
        assert(bytes@ + encoded_length(before as nat) =~= bytes@.push(byte as u8) + encoded_length(
            rest as nat,
        ));
        bytes.push(byte as u8);
    }
    assert(bytes@ + encoded_length(0) =~= bytes@);
    bytes
}

/// Decodes the remaining-length field that follows the first byte of
/// `header`. Returns the length and the number of header bytes consumed,
/// the first byte included. A header of the first byte alone has no field:
/// its length is zero and one byte is consumed.
pub fn decode_length(header: &[u8]) -> (r: (usize, usize))
    requires
        decodable(header@),
    ensures
        r.0 == remaining_length(header@),
        r.1 == consumed(header@),
        r.0 <= MAX_REMAINING_LENGTH,
{
    if header.len() == 1 {
        assert(header@.subrange(1, 1) =~= Seq::<u8>::empty());
        return (0, 1);
    }
    let ghost end = length_end(header@, 1);
    proof {
        lemma_length_end(header@, 1);
        lemma_pow128_values();
    }
    let mut multiplier: usize = 1;
    let mut len: usize = 0;
    let mut digit: u8 = 128;
    let mut i: usize = 0;
    assert(header@.subrange(1, 1) =~= Seq::<u8>::empty());
    while digit & 128 != 0
        invariant
            end == length_end(header@, 1),
            1 <= end <= 4,
            end < header.len(),
            forall|j: int| 1 <= j < end ==> header@[j] >= 128,
            header@[end] < 128,
            0 <= i <= end,
            digit >= 128 ==> i < end,
            digit < 128 ==> i == end,
            multiplier == pow128(i as nat),
            len == decoded_length(header@.subrange(1, i + 1)),
            len < pow128(i as nat),
        decreases end - i,
    {
        assert(digit & 128 != 0 <==> digit >= 128) by (bit_vector);
        let ghost seen = header@.subrange(1, i + 1);
        i += 1;
        digit = header[i];
        assert(digit & 128 != 0 <==> digit >= 128) by (bit_vector);
        assert(digit as usize & 127 == digit % 128) by (bit_vector);
        proof {
            lemma_pow128_values();
            assert(pow128(i as nat) == 128 * pow128((i - 1) as nat));
            assert(header@.subrange(1, i + 1) =~= seen.push(digit));
            lemma_decoded_length_push(seen, digit);
            lemma_decoded_length_bound(header@.subrange(1, i + 1));
            assert((digit % 128) as nat * multiplier <= 127 * multiplier) by (nonlinear_arith)
                requires
                    digit % 128 <= 127,
            ;
        }
        len += (digit as usize & 127) * multiplier;
        multiplier *= 128;
    }
    assert(digit & 128 != 0 <==> digit >= 128) by (bit_vector);
    (len, i + 1)
}

/// Decodes the remaining-length field of a header that came from the wire:
/// the length and the bytes consumed if `header` holds a complete field of
/// at most four bytes, and `None` otherwise. On the wire a header always has
/// a length byte, so the first byte alone gives `None` too.
pub fn checked_decode_length(header: &[u8]) -> (r: Option<(usize, usize)>)
    ensures
        r is Some <==> has_length(header@),
        r matches Some(found) ==> {
            &&& found.0 == remaining_length(header@)
            &&& found.1 == consumed(header@)
            &&& found.1 == length_end(header@, 1) + 1
            &&& found.0 <= MAX_REMAINING_LENGTH
        },
{
    let mut i: usize = 1;
    while i <= 4 && i < header.len()
        invariant
            1 <= i <= 5,
            forall|j: int| 1 <= j < i && j < header.len() ==> header@[j] >= 128,
        decreases 5 - i,
    {
        if header[i] < 128 {
            proof {
                lemma_length_end_is(header@, 1, i as int);
            }
            return Some(decode_length(header));
        }
        i += 1;
    }
    proof {
        if header.len() >= 1 {
            lemma_length_end(header@, 1);
        }
    }
    None
}

} // verus!
