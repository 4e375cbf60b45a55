//! The 64 symbols `A-Z a-z 0-9 + /` and the padding symbol `=`, as ASCII codes.

use vstd::prelude::*;

verus! {

/// ASCII code of the padding symbol `=`.
pub const PAD: u8 = 61;

/// ASCII code of the symbol at index `v` of the alphabet `A-Z a-z 0-9 + /`.
pub open spec fn symbol_code(v: u8) -> u8 {
    if v < 26 {
        ('A' as u8 + v) as u8
    } else if v < 52 {
        ('a' as u8 + (v - 26)) as u8
    } else if v < 62 {
        ('0' as u8 + (v - 52)) as u8
    } else if v == 62 {
        '+' as u8
    } else {
        '/' as u8
    }
}

/// Whether the byte `c` is one of the 64 alphabet symbols.
pub open spec fn is_symbol_code(c: u8) -> bool {
    exists|v: u8| v < 64 && symbol_code(v) == c
}

/// The alphabet index of the symbol `c` (meaningful when `is_symbol_code(c)`).
pub open spec fn symbol_value(c: u8) -> u8 {
    choose|v: u8| v < 64 && symbol_code(v) == c
}

/// The symbol for `v`, as a character.
pub open spec fn symbol_char(v: u8) -> char {
    symbol_code(v) as char
}

/// Distinct indices have distinct symbols.
proof fn lemma_symbol_injective(v: u8, w: u8)
    requires
        v < 64,
        w < 64,
        symbol_code(v) == symbol_code(w),
    ensures
        v == w,
{
}

/// Every index has a symbol, which is not the padding symbol and whose
/// index is the one it came from.
pub proof fn lemma_symbol_inverse(v: u8)
    requires
        v < 64,
    ensures
        is_symbol_code(symbol_code(v)),
        symbol_code(v) != PAD,
        symbol_value(symbol_code(v)) == v,
        symbol_code(v) < 128,
{
    let c = symbol_code(v);
    assert(is_symbol_code(c));
    let w = symbol_value(c);
    lemma_symbol_injective(v, w);
}

/// The symbol that stands for the six-bit value `v`.
pub fn symbol_for(v: u8) -> (c: u8)
    requires
        v < 64,
    ensures
        c == symbol_code(v),
{
    if v < 26 {
        ('A' as u8) + v
    } else if v < 52 {
        ('a' as u8) + (v - 26)
    } else if v < 62 {
        ('0' as u8) + (v - 52)
    } else if v == 62 {
        ('+' as u8)
    } else {
        ('/' as u8)
    }
}

/// The alphabet index of `c`, or `None` where `c` is not an alphabet symbol.
pub fn value_of(c: u8) -> (r: Option<u8>)
    ensures
        r == (if is_symbol_code(c) {
            Some(symbol_value(c))
        } else {
            None::<u8>
        }),
        r matches Some(v) ==> v < 64,
{
    let r: Option<u8> = if ('A' as u8) <= c && c <= ('Z' as u8) {
        Some(c - ('A' as u8))
    } else if ('a' as u8) <= c && c <= ('z' as u8) {
        Some(c - ('a' as u8) + 26)
    } else if ('0' as u8) <= c && c <= ('9' as u8) {
        Some(c - ('0' as u8) + 52)
    } else if c == ('+' as u8) {
        Some(62)
    } else if c == ('/' as u8) {
        Some(63)
    } else {
        None
    };
    proof {
        match r {
            Some(v) => {
                lemma_symbol_inverse(v);
            },
            None => {
                assert forall|v: u8| v < 64 implies symbol_code(v) != c by {}
            },
        }
    }
    r
}

} // verus!
