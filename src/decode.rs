//! Decoding: a sixteen-bit accumulator takes six bits per symbol, each
//! padding symbol lowers the held-bit count by two, and a byte is handed out
//! whenever eight or more bits are held. Only a byte outside the alphabet and
//! the padding symbol stops decoding early.

use vstd::prelude::*;
use crate::alphabet::{is_symbol_code, symbol_value, value_of, PAD};
use vstd::string::StringSliceAdditionalSpecFns;

verus! {

/// Why a text could not be decoded.
#[derive(Debug, Clone, Copy, PartialEq, Eq)]
pub enum DecodeError {
    /// The byte is neither an alphabet symbol nor the padding symbol.
    InvalidSymbol { offending_byte: u8 },
    /// After the whole input, the held-bit count is not zero. Each padding
    /// symbol lowers the count by two, so it may be below zero.
    InvalidPadding { leftover_bits: i128 },
}

/// The decoder's state between two input bytes.
pub struct DecodeState {
    /// The accumulator; the held bits are its top `held` bits.
    pub bits: u16,
    /// Number of held bits; below zero when padding symbols gave up more
    /// bits than were held, and the next symbols' first bits are owed.
    pub held: int,
    /// Bytes handed out so far.
    pub out: Seq<u8>,
}

/// The accumulator after the six-bit value `v` is placed right after the
/// `held` bits already in it, in the sixteen-bit window. Where bits are owed
/// (`held < 0`), that many of the first bits of `v` fall off the window.
pub open spec fn absorb(bits: u16, held: int, v: u8) -> u16 {
    if held <= -6 {
        bits
    } else {
        bits | ((v as u16) << ((10 - held) as u16))
    }
}

/// The byte made of the accumulator's top eight bits.
pub open spec fn top_byte(bits: u16) -> u8 {
    (bits >> 8u16) as u8
}

/// The accumulator once its top eight bits are taken out.
pub open spec fn after_byte(bits: u16) -> u16 {
    (bits & 0xffu16) << 8u16
}

/// One input byte read in state `s`.
pub open spec fn decode_step(s: DecodeState, c: u8) -> Result<DecodeState, DecodeError> {
    if is_symbol_code(c) {
        let bits = absorb(s.bits, s.held, symbol_value(c));
        let held = s.held + 6;
        if held >= 8 {
            Ok(DecodeState { bits: after_byte(bits), held: held - 8, out: s.out.push(top_byte(bits)) })
        } else {
            Ok(DecodeState { bits, held, out: s.out })
        }
    } else if c == PAD {
        Ok(DecodeState { bits: s.bits, held: s.held - 2, out: s.out })
    } else {
        Err(DecodeError::InvalidSymbol { offending_byte: c })
    }
}

/// The state after reading all of `t` from the empty state, or the first error.
pub open spec fn decode_run(t: Seq<u8>) -> Result<DecodeState, DecodeError>
    decreases t.len(),
{
    if t.len() == 0 {
        Ok(DecodeState { bits: 0, held: 0, out: Seq::empty() })
    } else {
        match decode_run(t.drop_last()) {
            Ok(s) => decode_step(s, t.last()),
            Err(e) => Err(e),
        }
    }
}

/// What decoding the bytes `t` gives.
pub open spec fn decoded(t: Seq<u8>) -> Result<Seq<u8>, DecodeError> {
    match decode_run(t) {
        Ok(s) => if s.held == 0 {
            Ok(s.out)
        } else {
            Err(DecodeError::InvalidPadding { leftover_bits: s.held as i128 })
        },
        Err(e) => Err(e),
    }
}

/// An error in a prefix is the error of the whole input.
pub(crate) proof fn lemma_error_persists(t: Seq<u8>, j: int, e: DecodeError)
    requires
        0 <= j <= t.len(),
        decode_run(t.take(j)) == Err::<DecodeState, DecodeError>(e),
    ensures
        decode_run(t) == Err::<DecodeState, DecodeError>(e),
    decreases t.len() - j,
{
    if j == t.len() {
        assert(t.take(j) =~= t);
    } else {
        assert(t.take(j + 1).drop_last() =~= t.take(j));
        lemma_error_persists(t, j + 1, e);
    }
}

/// Decodes the Base64 text `data`, reading it byte by byte.
pub fn base64_decode(data: &str) -> (r: Result<Vec<u8>, DecodeError>)
    ensures
        match r {
            Ok(v) => decoded(data.spec_bytes()) == Ok::<Seq<u8>, DecodeError>(v@),
            Err(e) => decoded(data.spec_bytes()) == Err::<Seq<u8>, DecodeError>(e),
        },
{
    let bytes = data.as_bytes();
    let ghost t = bytes@;
    let n = bytes.len();
    let mut collected_bits: i128 = 0;
    let mut byte_buffer: u16 = 0;
    let mut outputbytes: Vec<u8> = Vec::new();
    let mut i: usize = 0;
    while i < n
        invariant
            t == bytes@,
            t == data.spec_bytes(),
            n == t.len(),
            i <= n,
            -2 * i <= collected_bits <= 6,
            collected_bits % 2 == 0,
            decode_run(t.take(i as int)) == Ok::<DecodeState, DecodeError>(
                DecodeState { bits: byte_buffer, held: collected_bits as int, out: outputbytes@ },
            ),
        decreases n - i,
    {
        let c = bytes[i];
        assert(t.take(i + 1).drop_last() =~= t.take(i as int));
        if let Some(v) = value_of(c) {
            if collected_bits > -6 {
                byte_buffer = byte_buffer | ((v as u16) << ((10 - collected_bits) as u16));
            }
            collected_bits = collected_bits + 6;
            if collected_bits >= 8 {
                outputbytes.push((byte_buffer >> 8) as u8);
                byte_buffer = (byte_buffer & 0xff) << 8;
                collected_bits = collected_bits - 8;
            }
        } else if c == PAD {
            collected_bits = collected_bits - 2;
        } else {
            proof {
                lemma_error_persists(t, i + 1, DecodeError::InvalidSymbol { offending_byte: c });
            }
            return Err(DecodeError::InvalidSymbol { offending_byte: c });
        }
        i = i + 1;
    }
    assert(t.take(n as int) =~= t);
    if collected_bits != 0 {
        return Err(DecodeError::InvalidPadding { leftover_bits: collected_bits });
    }
    Ok(outputbytes)
}

} // verus!
