//! The codec: two lookup tables built once, and the `encode` and `decode`
//! operations that read them.

use vstd::prelude::*;
use crate::alphabet::{is_symbol, lemma_alphabet_bijective, sixlet_of, symbol_of, PAD};
use crate::model::{
    aligned, decodable, decode_spec, decoded_byte, encode_spec, encoded_symbol, field,
    pad_count, symbol_allowed, symbols_allowed, value_of,
};

verus! {

/// The entry of the reverse table for a byte that is neither a symbol of
/// the alphabet nor the pad. No sixlet has this value.
pub const ABSENT: u8 = 255;

/// Why an input could not be decoded.
#[derive(Debug, Clone, Copy, PartialEq, Eq, Structural)]
pub enum DecodingErrorKind {
    /// The input holds a byte outside the alphabet, or a pad that is not
    /// one of its last symbols.
    InvalidCharacter,
    /// The length of the input is not a multiple of four.
    InvalidLength,
}

/// The failure of a call of [`Base64::decode`].
#[derive(Debug)]
pub struct DecodingError {
    kind: DecodingErrorKind,
}

impl View for DecodingError {
    type V = DecodingErrorKind;

    closed spec fn view(&self) -> DecodingErrorKind {
        self.kind
    }
}

impl DecodingError {
    /// An error of the given kind.
    pub fn new(kind: DecodingErrorKind) -> (e: DecodingError)
        ensures
            e@ == kind,
    {
        DecodingError { kind }
    }

    /// The kind of this error.
    pub fn kind(&self) -> (k: DecodingErrorKind)
        ensures
            k == self@,
    {
        self.kind
    }

    /// The text that describes this error to a user.
    pub fn message(&self) -> (text: String)
        ensures
            text@ == error_text(self@),
    {
        match self.kind {
            DecodingErrorKind::InvalidCharacter => {
                "Input being decoded contains invalid characters".to_owned()
            },
            DecodingErrorKind::InvalidLength => "Input string isn't properly aligned".to_owned(),
        }
    }
}

/// The text that describes an error of the given kind.
pub open spec fn error_text(kind: DecodingErrorKind) -> Seq<char> {
    match kind {
        DecodingErrorKind::InvalidCharacter => "Input being decoded contains invalid characters"@,
        DecodingErrorKind::InvalidLength => "Input string isn't properly aligned"@,
    }
}

/// The forward table: the symbol of each sixlet, in order.
pub open spec fn symbol_table() -> Seq<u8> {
    Seq::new(64, |i: int| symbol_of(i))
}

/// The entry of the reverse table for the byte `c`: its sixlet where `c` is
/// a symbol of the alphabet, zero where it is the pad, `ABSENT` otherwise.
pub open spec fn sixlet_entry(c: u8) -> u8 {
    if is_symbol(c) {
        sixlet_of(c) as u8
    } else if c == PAD {
        0
    } else {
        ABSENT
    }
}

/// The reverse table, over the 128 bytes of ASCII.
pub open spec fn sixlet_table() -> Seq<u8> {
    Seq::new(128, |c: int| sixlet_entry(c as u8))
}

/// The symbol of the sixlet `i`.
fn symbol_for(i: u8) -> (c: u8)
    requires
        i < 64,
    ensures
        c == symbol_of(i as int),
{
    if i < 26 {
        'A' as u8 + i
    } else if i < 52 {
        'a' as u8 + (i - 26)
    } else if i < 62 {
        '0' as u8 + (i - 52)
    } else if i == 62 {
        '+' as u8
    } else {
        '/' as u8
    }
}

/// The four 6-bit fields of three bytes, most significant first.
fn split_group(b1: u8, b2: u8, b3: u8) -> (f: (u8, u8, u8, u8))
    ensures
        f.0 == b1 / 4,
        f.1 == (b1 % 4) * 16 + b2 / 16,
        f.2 == (b2 % 16) * 4 + b3 / 64,
        f.3 == b3 % 64,
{
    let f0: u8 = b1 >> 2;
    let f1: u8 = ((b1 << 4) | (b2 >> 4)) & 0b111111;
    let f2: u8 = ((b2 << 2) | (b3 >> 6)) & 0b111111;
    let f3: u8 = b3 & 0b111111;
    assert(b1 >> 2 == b1 / 4) by (bit_vector);
    assert(((b1 << 4) | (b2 >> 4)) & 0b111111 == (b1 % 4) * 16 + b2 / 16) by (bit_vector);
    assert(((b2 << 2) | (b3 >> 6)) & 0b111111 == (b2 % 16) * 4 + b3 / 64) by (bit_vector);
    assert(b3 & 0b111111 == b3 % 64) by (bit_vector);
    (f0, f1, f2, f3)
}

/// The three bytes of the 24-bit value that four sixlets pack, most
/// significant first.
fn pack_group(v0: u8, v1: u8, v2: u8, v3: u8) -> (b: (u8, u8, u8))
    requires
        v0 < 64,
        v1 < 64,
        v2 < 64,
        v3 < 64,
    ensures
        b.0 == v0 * 4 + v1 / 16,
        b.1 == (v1 % 16) * 16 + v2 / 4,
        b.2 == (v2 % 4) * 64 + v3,
{
    let packed: u32 = ((v0 as u32) << 18) | ((v1 as u32) << 12) | ((v2 as u32) << 6) | (v3 as u32);
    let b0: u8 = (packed >> 16) as u8;
    let b1: u8 = ((packed >> 8) & 0xff) as u8;
    let b2: u8 = (packed & 0xff) as u8;
    assert(packed >> 16 == v0 * 4 + v1 / 16 && (packed >> 8) & 0xff == (v1 % 16) * 16 + v2 / 4
        && packed & 0xff == (v2 % 4) * 64 + v3) by (bit_vector)
        requires
            packed == ((v0 as u32) << 18) | ((v1 as u32) << 12) | ((v2 as u32) << 6) | (v3 as u32),
            v0 < 64,
            v1 < 64,
            v2 < 64,
            v3 < 64,
    ;
    (b0, b1, b2)
}

/// A base64 codec over the standard alphabet, with `=` as the pad.
pub struct Base64 {
    char_array: [u8; 64],
    char_to_sixlet: [u8; 128],
}

impl Base64 {
    #[verifier::type_invariant]
    spec fn tables_built(&self) -> bool {
        &&& self.char_array@ == symbol_table()
        &&& self.char_to_sixlet@ == sixlet_table()
    }

    /// The forward table of this codec.
    pub closed spec fn symbols(&self) -> Seq<u8> {
        self.char_array@
    }

    /// The reverse table of this codec.
    pub closed spec fn sixlets(&self) -> Seq<u8> {
        self.char_to_sixlet@
    }

    /// Builds the two tables from the alphabet.
    pub fn new() -> (codec: Base64)
        ensures
            codec.symbols() == symbol_table(),
            codec.sixlets() == sixlet_table(),
    {
        let mut char_array: [u8; 64] = [0; 64];
        let mut char_to_sixlet: [u8; 128] = [ABSENT; 128];
        let mut i: u8 = 0;
        while i < 64
            invariant
                i <= 64,
                forall|k: int| 0 <= k < i ==> char_array@[k] == symbol_of(k),
                forall|c: int|
                    0 <= c < 128 ==> char_to_sixlet@[c] == (if is_symbol(c as u8) && sixlet_of(
                        c as u8,
                    ) < i {
                        sixlet_of(c as u8) as u8
                    } else {
                        ABSENT
                    }),
            decreases 64 - i,
        {
            let c: u8 = symbol_for(i);
            proof {
                lemma_alphabet_bijective();
            }
            char_array[i as usize] = c;
            char_to_sixlet[c as usize] = i;
            i += 1;
        }
        char_to_sixlet[PAD as usize] = 0;
        proof {
            lemma_alphabet_bijective();
            assert(char_array@ =~= symbol_table());
            assert(char_to_sixlet@ =~= sixlet_table());
        }
        Base64 { char_array, char_to_sixlet }
    }

    /// The sixlet that the reverse table holds for `c`, if it holds one.
    fn lookup(&self, c: u8) -> (n: Option<u8>)
        ensures
            n == (if is_symbol(c) || c == PAD {
                Some(value_of(c) as u8)
            } else {
                None
            }),
    {
        proof {
            use_type_invariant(self);
            lemma_alphabet_bijective();
        }
        if c >= 128 {
            return None;
        }
        let n: u8 = self.char_to_sixlet[c as usize];
        if n == ABSENT {
            None
        } else {
            Some(n)
        }
    }

    /// Encodes `buffer`: every three bytes become four symbols, and a last
    /// group of one or two bytes is padded with `=` to four.
    pub fn encode(&self, buffer: &[u8]) -> (out: Vec<u8>)
        ensures
            out@ == encode_spec(buffer@),
            out@.len() == 4 * ((buffer@.len() + 2) / 3),
    {
        proof {
            use_type_invariant(self);
        }
        let len: usize = buffer.len();
        let whole: usize = len - len % 3;
        let mut v: Vec<u8> = match (len / 3 + 1).checked_mul(4) {
            Some(capacity) => Vec::with_capacity(capacity),
            None => Vec::new(),
        };
        let mut i: usize = 0;
        while i < whole
            invariant
                i <= whole <= len,
                i % 3 == 0,
                whole % 3 == 0,
                len == buffer@.len(),
                self.char_array@ == symbol_table(),
                v@.len() == 4 * (i / 3),
                forall|j: int| 0 <= j < v@.len() ==> v@[j] == encoded_symbol(buffer@, j),
            decreases whole - i,
        {
            let f = split_group(buffer[i], buffer[i + 1], buffer[i + 2]);
            let ghost g = i as int / 3;
            proof {
                assert(field(buffer@, g, 0) == f.0);
                assert(field(buffer@, g, 1) == f.1);
                assert(field(buffer@, g, 2) == f.2);
                assert(field(buffer@, g, 3) == f.3);
            }
            v.push(self.char_array[f.0 as usize]);
            v.push(self.char_array[f.1 as usize]);
            v.push(self.char_array[f.2 as usize]);
            v.push(self.char_array[f.3 as usize]);
            i += 3;
            proof {
                assert forall|j: int| 4 * g <= j < 4 * g + 4 implies v@[j] == encoded_symbol(
                    buffer@,
                    j,
                ) by {
                    assert(j / 4 == g);
                }
            }
        }
        let ghost g = whole as int / 3;
        if len - whole == 2 {
            let f = split_group(buffer[whole], buffer[whole + 1], 0);
            proof {
                assert(field(buffer@, g, 0) == f.0);
                assert(field(buffer@, g, 1) == f.1);
                assert(field(buffer@, g, 2) == f.2);
            }
            v.push(self.char_array[f.0 as usize]);
            v.push(self.char_array[f.1 as usize]);
            v.push(self.char_array[f.2 as usize]);
            v.push(PAD);
        } else if len - whole == 1 {
            let f = split_group(buffer[whole], 0, 0);
            proof {
                assert(field(buffer@, g, 0) == f.0);
                assert(field(buffer@, g, 1) == f.1);
            }
            v.push(self.char_array[f.0 as usize]);
            v.push(self.char_array[f.1 as usize]);
            v.push(PAD);
            v.push(PAD);
        }
        proof {
            assert forall|j: int| 4 * g <= j < v@.len() implies v@[j] == encoded_symbol(
                buffer@,
                j,
            ) by {
                assert(j / 4 == g);
            }
            assert(v@ =~= encode_spec(buffer@));
        }
        v
    }

    /// Decodes `enc_buf`. The input must be a whole number of 4-symbol
    /// groups, of symbols of the alphabet, ending in at most two pads.
    pub fn decode(&self, enc_buf: &[u8]) -> (result: Result<Vec<u8>, DecodingError>)
        ensures
            !aligned(enc_buf@) ==> (result matches Err(e) && e@
                == DecodingErrorKind::InvalidLength),
            aligned(enc_buf@) && !symbols_allowed(enc_buf@) ==> (result matches Err(e) && e@
                == DecodingErrorKind::InvalidCharacter),
            decodable(enc_buf@) ==> (result matches Ok(v) && v@ == decode_spec(enc_buf@)),
    {
        let len: usize = enc_buf.len();
        if len % 4 != 0 {
            return Err(DecodingError::new(DecodingErrorKind::InvalidLength));
        }
        let to_strip: usize = if len >= 1 && enc_buf[len - 1] == PAD {
            if len >= 2 && enc_buf[len - 2] == PAD {
                2
            } else {
                1
            }
        } else {
            0
        };
        let mut v: Vec<u8> = Vec::with_capacity((len / 4) * 3);
        let mut i: usize = 0;
        while i < len
            invariant
                i <= len,
                i % 4 == 0,
                len % 4 == 0,
                len == enc_buf@.len(),
                to_strip == pad_count(enc_buf@),
                v@.len() == 3 * (i / 4),
                forall|j: int| 0 <= j < i ==> symbol_allowed(enc_buf@, j),
                forall|j: int| 0 <= j < v@.len() ==> v@[j] == decoded_byte(enc_buf@, j) as u8,
            decreases len - i,
        {
            let mut sixlets: [u8; 4] = [0; 4];
            let mut k: usize = 0;
            while k < 4
                invariant
                    k <= 4,
                    i + 4 <= len,
                    len % 4 == 0,
                    len == enc_buf@.len(),
                    to_strip == pad_count(enc_buf@),
                    forall|j: int| 0 <= j < i + k ==> symbol_allowed(enc_buf@, j),
                    forall|m: int| 0 <= m < k ==> sixlets@[m] == value_of(enc_buf@[i + m]),
                decreases 4 - k,
            {
                let c: u8 = enc_buf[i + k];
                let n: u8 = match self.lookup(c) {
                    Some(n) => n,
                    None => {
                        assert(!symbol_allowed(enc_buf@, i + k));
                        return Err(DecodingError::new(DecodingErrorKind::InvalidCharacter));
                    },
                };
                if c == PAD && i + k < len - to_strip {
                    assert(!symbol_allowed(enc_buf@, i + k));
                    return Err(DecodingError::new(DecodingErrorKind::InvalidCharacter));
                }
                sixlets[k] = n;
                k += 1;
            }
            proof {
                lemma_alphabet_bijective();
            }
            let b = pack_group(sixlets[0], sixlets[1], sixlets[2], sixlets[3]);
            let ghost g = i as int / 4;
            v.push(b.0);
            v.push(b.1);
            v.push(b.2);
            i += 4;
            proof {
                assert forall|j: int| 3 * g <= j < 3 * g + 3 implies v@[j] == decoded_byte(
                    enc_buf@,
                    j,
                ) as u8 by {
                    assert(j / 3 == g);
                }
            }
        }
        v.truncate(v.len() - to_strip);
        proof {
            assert(v@ =~= decode_spec(enc_buf@));
        }
        Ok(v)
    }
}

} // verus!
