//! What holds of the two directions together, and of every encoding.

use vstd::prelude::*;
use vstd::utf8::{encode_utf8, is_ascii_chars, is_ascii_chars_encode_utf8};
use crate::alphabet::{is_symbol_code, lemma_symbol_inverse, symbol_char, symbol_code, PAD};
use crate::decode::{
    absorb, after_byte, decode_run, decode_step, decoded, lemma_error_persists, top_byte, DecodeError,
    DecodeState,
};
use crate::encode::{byte_or_zero, encoded_bytes, encoded_text, padding_count, sextet, six_bits, symbol_count};

verus! {

/// Reading one more byte of `t` is one more decoding step.
proof fn lemma_run_extend(t: Seq<u8>, m: int)
    requires
        0 <= m < t.len(),
    ensures
        decode_run(t.take(m + 1)) == (match decode_run(t.take(m)) {
            Ok(s) => decode_step(s, t[m]),
            Err(e) => Err(e),
        }),
{
    assert(t.take(m + 1).drop_last() =~= t.take(m));
}

/// Four symbols made from three bytes give those bytes back and leave the
/// accumulator empty.
proof fn lemma_group_bits(x: u8, y: u8, z: u8, w: u8, b1: u16, b2: u16, b3: u16, b4: u16)
    by (bit_vector)
    requires
        b1 == 0u16 | ((six_bits(x, y, 0u8) as u16) << 10u16),
        b2 == b1 | ((six_bits(x, y, 6u8) as u16) << 4u16),
        b3 == after_byte(b2) | ((six_bits(y, z, 4u8) as u16) << 6u16),
        b4 == after_byte(b3) | ((six_bits(z, w, 2u8) as u16) << 8u16),
    ensures
        top_byte(b2) == x,
        top_byte(b3) == y,
        top_byte(b4) == z,
        after_byte(b4) == 0u16,
        six_bits(x, y, 0u8) < 64,
        six_bits(x, y, 6u8) < 64,
        six_bits(y, z, 4u8) < 64,
        six_bits(z, w, 2u8) < 64,
{
}

/// Where the four symbols of the group that starts at byte `3 * h` take their bits.
proof fn lemma_group_sextets(b: Seq<u8>, h: int)
    requires
        0 <= h,
    ensures
        sextet(b, 4 * h) == six_bits(byte_or_zero(b, 3 * h), byte_or_zero(b, 3 * h + 1), 0),
        sextet(b, 4 * h + 1) == six_bits(byte_or_zero(b, 3 * h), byte_or_zero(b, 3 * h + 1), 6),
        sextet(b, 4 * h + 2) == six_bits(byte_or_zero(b, 3 * h + 1), byte_or_zero(b, 3 * h + 2), 4),
        sextet(b, 4 * h + 3) == six_bits(byte_or_zero(b, 3 * h + 2), byte_or_zero(b, 3 * h + 3), 2),
{
    vstd::arithmetic::div_mod::lemma_fundamental_div_mod_converse(6 * (4 * h), 8, 3 * h, 0);
    vstd::arithmetic::div_mod::lemma_fundamental_div_mod_converse(6 * (4 * h + 1), 8, 3 * h, 6);
    vstd::arithmetic::div_mod::lemma_fundamental_div_mod_converse(6 * (4 * h + 2), 8, 3 * h + 1, 4);
    vstd::arithmetic::div_mod::lemma_fundamental_div_mod_converse(6 * (4 * h + 3), 8, 3 * h + 2, 2);
}

/// The length of an encoding, split into whole groups and the rest.
proof fn lemma_encoded_len(n: nat)
    ensures
        n % 3 == 0 ==> symbol_count(n) == 4 * (n / 3) && padding_count(n) == 0,
        n % 3 == 1 ==> symbol_count(n) == 4 * (n / 3) + 2 && padding_count(n) == 2,
        n % 3 == 2 ==> symbol_count(n) == 4 * (n / 3) + 3 && padding_count(n) == 1,
{
    let q = (n / 3) as int;
    let r = (n % 3) as int;
    vstd::arithmetic::div_mod::lemma_fundamental_div_mod(n as int, 3);
    if r == 0 {
        vstd::arithmetic::div_mod::lemma_fundamental_div_mod_converse(8 * n as int + 5, 6, 4 * q, 5);
    } else if r == 1 {
        vstd::arithmetic::div_mod::lemma_fundamental_div_mod_converse(8 * n as int + 5, 6, 4 * q + 2, 1);
    } else {
        vstd::arithmetic::div_mod::lemma_fundamental_div_mod_converse(8 * n as int + 5, 6, 4 * q + 3, 3);
    }
}

/// Decoding the first `g` whole groups of an encoding gives the first `3 * g`
/// bytes back, with nothing held.
proof fn lemma_groups(b: Seq<u8>, g: int)
    requires
        0 <= g,
        3 * g <= b.len(),
    ensures
        decode_run(encoded_bytes(b).take(4 * g)) == Ok::<DecodeState, DecodeError>(
            DecodeState { bits: 0, held: 0, out: b.take(3 * g) },
        ),
    decreases g,
{
    let t = encoded_bytes(b);
    let n = b.len();
    if g == 0 {
        assert(t.take(0) =~= Seq::<u8>::empty());
        assert(b.take(0) =~= Seq::<u8>::empty());
    } else {
        let h = g - 1;
        lemma_groups(b, h);
        lemma_encoded_len(n);
        vstd::arithmetic::div_mod::lemma_fundamental_div_mod(n as int, 3);
        assert(4 * g <= symbol_count(n));
        lemma_group_sextets(b, h);
        let x = b[3 * h];
        let y = b[3 * h + 1];
        let z = b[3 * h + 2];
        let w = byte_or_zero(b, 3 * h + 3);
        let b1 = absorb(0u16, 0, six_bits(x, y, 0u8));
        let b2 = absorb(b1, 6, six_bits(x, y, 6u8));
        let b3 = absorb(after_byte(b2), 4, six_bits(y, z, 4u8));
        let b4 = absorb(after_byte(b3), 2, six_bits(z, w, 2u8));
        lemma_group_bits(x, y, z, w, b1, b2, b3, b4);
        lemma_symbol_inverse(six_bits(x, y, 0u8));
        lemma_symbol_inverse(six_bits(x, y, 6u8));
        lemma_symbol_inverse(six_bits(y, z, 4u8));
        lemma_symbol_inverse(six_bits(z, w, 2u8));
        assert(t[4 * h] == symbol_code(six_bits(x, y, 0u8)));
        assert(t[4 * h + 1] == symbol_code(six_bits(x, y, 6u8)));
        assert(t[4 * h + 2] == symbol_code(six_bits(y, z, 4u8)));
        assert(t[4 * h + 3] == symbol_code(six_bits(z, w, 2u8)));
        lemma_run_extend(t, 4 * h);
        lemma_run_extend(t, 4 * h + 1);
        lemma_run_extend(t, 4 * h + 2);
        lemma_run_extend(t, 4 * h + 3);
        assert(b.take(3 * h).push(x).push(y).push(z) =~= b.take(3 * g));
    }
}

/// Every six-bit group is below 64.
proof fn lemma_sextet_bound(b: Seq<u8>, k: int)
    ensures
        sextet(b, k) < 64,
{
    let hi = byte_or_zero(b, (6 * k) / 8);
    let lo = byte_or_zero(b, (6 * k) / 8 + 1);
    let off = ((6 * k) % 8) as u8;
    assert(six_bits(hi, lo, off) < 64) by (bit_vector);
}

/// The bytes of an encoding: its characters are ASCII, one byte each.
proof fn lemma_text_bytes(b: Seq<u8>)
    ensures
        is_ascii_chars(encoded_text(b)),
        encode_utf8(encoded_text(b)) == encoded_bytes(b),
{
    let t = encoded_bytes(b);
    let s = encoded_text(b);
    assert forall|i: int| 0 <= i < t.len() implies t[i] < 128 by {
        if i < symbol_count(b.len()) {
            lemma_sextet_bound(b, i);
            lemma_symbol_inverse(sextet(b, i));
        }
    }
    assert forall|i: int| 0 <= i < s.len() implies '\0' <= #[trigger] s[i] <= '\u{7f}' && s[i] as u8 == t[i] by {
        assert(t[i] < 128);
    }
    is_ascii_chars_encode_utf8(s);
    assert(encode_utf8(s) =~= t);
}

/// Round trip: decoding the encoding of any byte sequence gives it back.
pub proof fn lemma_round_trip(b: Seq<u8>)
    ensures
        decoded(encode_utf8(encoded_text(b))) == Ok::<Seq<u8>, DecodeError>(b),
{
    lemma_text_bytes(b);
    let t = encoded_bytes(b);
    let n = b.len();
    let q = (n / 3) as int;
    lemma_encoded_len(n);
    vstd::arithmetic::div_mod::lemma_fundamental_div_mod(n as int, 3);
    lemma_groups(b, q);
    if n % 3 == 0 {
        assert(t.take(4 * q) =~= t);
        assert(b.take(3 * q) =~= b);
    } else {
        lemma_group_sextets(b, q);
        let x = b[3 * q];
        let y = byte_or_zero(b, 3 * q + 1);
        let b1 = absorb(0u16, 0, six_bits(x, y, 0u8));
        let b2 = absorb(b1, 6, six_bits(x, y, 6u8));
        let b3 = absorb(after_byte(b2), 4, six_bits(y, 0u8, 4u8));
        let b4 = absorb(after_byte(b3), 2, six_bits(0u8, 0u8, 2u8));
        lemma_group_bits(x, y, 0u8, 0u8, b1, b2, b3, b4);
        lemma_symbol_inverse(six_bits(x, y, 0u8));
        lemma_symbol_inverse(six_bits(x, y, 6u8));
        lemma_symbol_inverse(six_bits(y, 0u8, 4u8));
        assert(t[4 * q] == symbol_code(six_bits(x, y, 0u8)));
        assert(t[4 * q + 1] == symbol_code(six_bits(x, y, 6u8)));
        lemma_run_extend(t, 4 * q);
        lemma_run_extend(t, 4 * q + 1);
        lemma_run_extend(t, 4 * q + 2);
        lemma_run_extend(t, 4 * q + 3);
        assert(t.take(4 * q + 4) =~= t);
        if n % 3 == 1 {
            assert(t[4 * q + 2] == PAD);
            assert(t[4 * q + 3] == PAD);
            assert(b.take(3 * q).push(x) =~= b);
        } else {
            assert(t[4 * q + 2] == symbol_code(six_bits(y, 0u8, 4u8)));
            assert(t[4 * q + 3] == PAD);
            assert(b.take(3 * q).push(x).push(y) =~= b);
        }
    }
}

/// Text round trip: text that the encoder produced decodes, and encoding
/// what it decodes to gives the same text again.
pub proof fn lemma_text_round_trip(t: Seq<char>)
    requires
        exists|b: Seq<u8>| t == encoded_text(b),
    ensures
        match decoded(encode_utf8(t)) {
            Ok(d) => encoded_text(d) == t,
            Err(_) => false,
        },
{
    let b = choose|b: Seq<u8>| t == encoded_text(b);
    lemma_round_trip(b);
}

/// The number of padding symbols of an encoding: none when the input length
/// is a multiple of three, two when it leaves one byte over, one when it
/// leaves two. They close the text, and no other symbol is a padding symbol.
pub proof fn lemma_padding_count(b: Seq<u8>)
    ensures
        ({
            let t = encoded_text(b);
            let p: int = if b.len() % 3 == 0 {
                0
            } else if b.len() % 3 == 1 {
                2
            } else {
                1
            };
            &&& p <= t.len()
            &&& forall|i: int| t.len() - p <= i < t.len() ==> t[i] == '='
            &&& forall|i: int| 0 <= i < t.len() - p ==> t[i] != '='
        }),
{
    let t = encoded_text(b);
    lemma_encoded_len(b.len());
    assert forall|i: int| 0 <= i < symbol_count(b.len()) implies t[i] != '=' by {
        lemma_sextet_bound(b, i);
        lemma_symbol_inverse(sextet(b, i));
    }
}

/// Alphabet closure: every character of an encoding that is not the padding
/// symbol is the symbol of some six-bit value.
pub proof fn lemma_alphabet_closure(b: Seq<u8>)
    ensures
        forall|i: int|
            0 <= i < encoded_text(b).len() && encoded_text(b)[i] != '=' ==> exists|v: u8|
                v < 64 && encoded_text(b)[i] == symbol_char(v),
{
    let t = encoded_text(b);
    assert forall|i: int| 0 <= i < t.len() && t[i] != '=' implies exists|v: u8|
        v < 64 && t[i] == symbol_char(v) by {
        if i < symbol_count(b.len()) {
            lemma_sextet_bound(b, i);
            assert(t[i] == symbol_char(sextet(b, i)));
        }
    }
}

/// A prefix of alphabet and padding symbols alone decodes without an error.
proof fn lemma_valid_prefix(t: Seq<u8>, j: int)
    requires
        0 <= j <= t.len(),
        forall|i: int| 0 <= i < j ==> is_symbol_code(#[trigger] t[i]) || t[i] == PAD,
    ensures
        decode_run(t.take(j)) matches Ok(_),
    decreases j,
{
    if j == 0 {
    } else {
        lemma_valid_prefix(t, j - 1);
        lemma_run_extend(t, j - 1);
    }
}

/// Decoding fails with `InvalidSymbol` at the first byte that is neither an
/// alphabet symbol nor the padding symbol, carrying that byte, whatever
/// padding came before it.
pub proof fn lemma_first_invalid_byte(t: Seq<u8>, j: int)
    requires
        0 <= j < t.len(),
        !is_symbol_code(t[j]) && t[j] != PAD,
        forall|i: int| 0 <= i < j ==> is_symbol_code(#[trigger] t[i]) || t[i] == PAD,
    ensures
        decoded(t) == Err::<Seq<u8>, DecodeError>(DecodeError::InvalidSymbol { offending_byte: t[j] }),
{
    lemma_valid_prefix(t, j);
    lemma_run_extend(t, j);
    lemma_error_persists(t, j + 1, DecodeError::InvalidSymbol { offending_byte: t[j] });
}

/// Text made of alphabet and padding symbols alone never fails with
/// `InvalidSymbol`: it decodes, or fails with `InvalidPadding` at its end.
pub proof fn lemma_no_invalid_byte(t: Seq<u8>)
    requires
        forall|i: int| 0 <= i < t.len() ==> is_symbol_code(#[trigger] t[i]) || t[i] == PAD,
    ensures
        decoded(t) matches Ok(_) || decoded(t) matches Err(DecodeError::InvalidPadding { .. }),
{
    lemma_valid_prefix(t, t.len() as int);
    assert(t.take(t.len() as int) =~= t);
}

} // verus!
