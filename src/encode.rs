//! Encoding: the input read as a bitstream, most significant bit first, six
//! bits at a time, then padded to a multiple of four symbols.

use vstd::prelude::*;
use crate::alphabet::{symbol_char, symbol_code, symbol_for, PAD};

verus! {

/// The byte at `i`, or zero past the end: the bitstream is filled with zero bits.
pub open spec fn byte_or_zero(b: Seq<u8>, i: int) -> u8 {
    if 0 <= i < b.len() {
        b[i]
    } else {
        0
    }
}

/// The six bits that start `offset` bits into the sixteen-bit window `hi, lo`.
pub open spec fn six_bits(hi: u8, lo: u8, offset: u8) -> u8 {
    (((((hi as u16) << 8u16) | (lo as u16)) >> ((10 - offset) as u16)) & 63u16) as u8
}

/// The `k`-th six-bit group of the bitstream of `b`: the group at bit `6 * k`.
pub open spec fn sextet(b: Seq<u8>, k: int) -> u8 {
    six_bits(byte_or_zero(b, (6 * k) / 8), byte_or_zero(b, (6 * k) / 8 + 1), ((6 * k) % 8) as u8)
}

/// Number of data symbols for `n` bytes: `ceil(8 * n / 6)`.
pub open spec fn symbol_count(n: nat) -> nat {
    (8 * n + 5) / 6
}

/// Number of padding symbols for `n` bytes.
pub open spec fn padding_count(n: nat) -> nat {
    if n % 3 == 0 {
        0
    } else {
        (3 - n % 3) as nat
    }
}

/// The encoding of `b`, as ASCII codes.
pub open spec fn encoded_bytes(b: Seq<u8>) -> Seq<u8> {
    Seq::new(symbol_count(b.len()), |k: int| symbol_code(sextet(b, k))) + Seq::new(
        padding_count(b.len()),
        |k: int| PAD,
    )
}

/// The encoding of `b`, as text.
pub open spec fn encoded_text(b: Seq<u8>) -> Seq<char> {
    encoded_bytes(b).map_values(|c: u8| c as char)
}

/// Relies on `String::push`: the character is appended at the end.
#[verifier::external_body]
fn push_char(s: &mut String, c: char)
    ensures
        final(s)@ == old(s)@.push(c),
{
    s.push(c);
}

/// Six bits of the window made of `from.0` then `from.1`, starting `offset`
/// bits from its top.
fn collect_six_bits(from: (u8, u8), offset: u8) -> (r: u8)
    requires
        offset <= 10,
    ensures
        r == six_bits(from.0, from.1, offset),
        r < 64,
{
    let combined: u16 = ((from.0 as u16) << 8) | (from.1 as u16);
    let hi = from.0;
    let lo = from.1;
    assert((((((hi as u16) << 8u16) | (lo as u16)) & (0xfc00u16 >> offset)) >> ((10 - offset) as u16))
        == (((((hi as u16) << 8u16) | (lo as u16)) >> ((10 - offset) as u16)) & 63u16)) by (bit_vector)
        requires
            offset <= 10,
    ;
    assert(((((((hi as u16) << 8u16) | (lo as u16)) >> ((10 - offset) as u16)) & 63u16)) < 64) by (bit_vector);
    ((combined & (0xfc00u16 >> offset)) >> (10 - offset)) as u8
}

/// Encodes `data` as Base64 text.
pub fn base64_encode(data: &[u8]) -> (r: String)
    ensures
        r@ == encoded_text(data@),
        r@.len() % 4 == 0,
        (r@.len() == 0) == (data@.len() == 0),
{
    let n = data.len();
    let mut encoded_string = String::new();
    let mut index: usize = 0;
    let mut offset: u8 = 0;
    let ghost b = data@;
    while index < n
        invariant
            b == data@,
            n == b.len(),
            index <= n,
            offset < 8,
            offset % 2 == 0,
            8 * index + offset == 6 * encoded_string@.len(),
            6 * encoded_string@.len() < 8 * n + 6,
            index == n ==> 8 * n <= 6 * encoded_string@.len(),
            encoded_string@ == Seq::new(encoded_string@.len(), |j: int| symbol_char(sextet(b, j))),
        decreases 8 * (n - index) + 8 - offset,
    {
        let ghost k = encoded_string@.len() as int;
        let lower = data[index];
        let upper = if index + 1 == n {
            0u8
        } else {
            data[index + 1]
        };
        proof {
            vstd::arithmetic::div_mod::lemma_fundamental_div_mod_converse(
                6 * k,
                8,
                index as int,
                offset as int,
            );
            assert(lower == byte_or_zero(b, (6 * k) / 8));
            assert(upper == byte_or_zero(b, (6 * k) / 8 + 1));
        }
        let v = collect_six_bits((lower, upper), offset);
        let c = symbol_for(v);
        push_char(&mut encoded_string, c as char);
        if offset >= 2 {
            offset = offset - 2;
            index = index + 1;
        } else {
            offset = offset + 6;
        }
        assert(encoded_string@ =~= Seq::new(encoded_string@.len(), |j: int| symbol_char(sextet(b, j))));
    }
    let ghost m = encoded_string@.len();
    assert(m == symbol_count(n as nat)) by (nonlinear_arith)
        requires
            8 * n <= 6 * m,
            6 * m < 8 * n + 6,
    ;
    let pad: usize = if n % 3 == 0 {
        0
    } else {
        3 - n % 3
    };
    let mut i: usize = 0;
    while i < pad
        invariant
            b == data@,
            n == b.len(),
            pad == padding_count(n as nat),
            i <= pad,
            encoded_string@ == Seq::new(m, |j: int| symbol_char(sextet(b, j))) + Seq::new(
                i as nat,
                |j: int| PAD as char,
            ),
        decreases pad - i,
    {
        push_char(&mut encoded_string, '=');
        i = i + 1;
        assert(encoded_string@ =~= Seq::new(m, |j: int| symbol_char(sextet(b, j))) + Seq::new(
            i as nat,
            |j: int| PAD as char,
        ));
    }
    assert(encoded_string@ =~= encoded_text(b));
    assert(m % 4 + pad == 4 || (m % 4 == 0 && pad == 0)) by (nonlinear_arith)
        requires
            m == (8 * n + 5) / 6,
            pad == (if n % 3 == 0 { 0 } else { 3 - n % 3 }),
    ;
    encoded_string
}

} // verus!
