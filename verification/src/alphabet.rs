//! The base64 alphabet: sixty-four symbols, their indices, and the pad symbol.

use vstd::prelude::*;

verus! {

/// The pad symbol `=`.
pub const PAD: u8 = 61;

/// The symbol that stands for the sixlet `i`: `A`-`Z` for 0-25, `a`-`z` for
/// 26-51, `0`-`9` for 52-61, `+` for 62 and `/` for 63.
pub open spec fn symbol_of(i: int) -> u8
    recommends
        0 <= i < 64,
{
    if i < 26 {
        (65 + i) as u8
    } else if i < 52 {
        (71 + i) as u8
    } else if i < 62 {
        (i - 4) as u8
    } else if i == 62 {
        43
    } else {
        47
    }
}

/// Whether `c` is one of the sixty-four symbols of the alphabet.
pub open spec fn is_symbol(c: u8) -> bool {
    ||| 65 <= c <= 90
    ||| 97 <= c <= 122
    ||| 48 <= c <= 57
    ||| c == 43
    ||| c == 47
}

/// The sixlet that the symbol `c` stands for.
pub open spec fn sixlet_of(c: u8) -> int
    recommends
        is_symbol(c),
{
    if 65 <= c <= 90 {
        c - 65
    } else if 97 <= c <= 122 {
        c - 71
    } else if 48 <= c <= 57 {
        c + 4
    } else if c == 43 {
        62
    } else {
        63
    }
}

/// Symbols and sixlets correspond one to one, and no symbol is the pad.
pub proof fn lemma_alphabet_bijective()
    ensures
        forall|i: int| 0 <= i < 64 ==> is_symbol(#[trigger] symbol_of(i)),
        forall|i: int| 0 <= i < 64 ==> sixlet_of(#[trigger] symbol_of(i)) == i,
        forall|i: int| 0 <= i < 64 ==> #[trigger] symbol_of(i) != PAD,
        forall|c: u8| is_symbol(c) ==> 0 <= #[trigger] sixlet_of(c) < 64,
        forall|c: u8| is_symbol(c) ==> symbol_of(#[trigger] sixlet_of(c)) == c,
        !is_symbol(PAD),
{
}

} // verus!
