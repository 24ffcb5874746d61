//! The mathematical model of the codec: what encoding and decoding mean, as
//! functions on sequences of bytes, and the laws that relate the two.

use vstd::prelude::*;
use crate::alphabet::{is_symbol, lemma_alphabet_bijective, sixlet_of, symbol_of, PAD};

verus! {

/// The byte of `b` at position `i`, or zero past its end.
pub open spec fn byte_at(b: Seq<u8>, i: int) -> int {
    if 0 <= i < b.len() {
        b[i] as int
    } else {
        0
    }
}

/// The `k`-th of the four 6-bit fields that the three bytes of group `g`
/// split into. Bytes past the end of `b` count as zero.
pub open spec fn field(b: Seq<u8>, g: int, k: int) -> int
    recommends
        0 <= k < 4,
{
    let b1 = byte_at(b, 3 * g);
    let b2 = byte_at(b, 3 * g + 1);
    let b3 = byte_at(b, 3 * g + 2);
    if k == 0 {
        b1 / 4
    } else if k == 1 {
        (b1 % 4) * 16 + b2 / 16
    } else if k == 2 {
        (b2 % 16) * 4 + b3 / 64
    } else {
        b3 % 64
    }
}

/// The length of the encoding of `n` bytes: four symbols for every group of
/// three bytes, the last group counted whole.
pub open spec fn encoded_len(n: nat) -> nat {
    (4 * ((n + 2) / 3)) as nat
}

/// The symbol at position `j` of the encoding of `b`. Position `k` of group
/// `g` is a pad exactly where the field would hold no bit of the input.
pub open spec fn encoded_symbol(b: Seq<u8>, j: int) -> u8 {
    let g = j / 4;
    let k = j % 4;
    if 3 * g + k > b.len() {
        PAD
    } else {
        symbol_of(field(b, g, k))
    }
}

/// The base64 encoding of `b`.
pub open spec fn encode_spec(b: Seq<u8>) -> Seq<u8> {
    Seq::new(encoded_len(b.len()), |j: int| encoded_symbol(b, j))
}

/// The number of pad symbols that end `s`: the length of its trailing run of
/// `=`, counted up to two.
pub open spec fn pad_count(s: Seq<u8>) -> nat {
    if s.len() >= 1 && s[s.len() - 1] == PAD {
        if s.len() >= 2 && s[s.len() - 2] == PAD {
            2
        } else {
            1
        }
    } else {
        0
    }
}

/// Whether the symbol at position `i` of `s` may stand there: a symbol of
/// the alphabet anywhere, a pad only among the trailing pads.
pub open spec fn symbol_allowed(s: Seq<u8>, i: int) -> bool {
    is_symbol(s[i]) || (s[i] == PAD && i >= s.len() - pad_count(s))
}

/// Whether every symbol of `s` may stand where it does.
pub open spec fn symbols_allowed(s: Seq<u8>) -> bool {
    forall|i: int| 0 <= i < s.len() ==> symbol_allowed(s, i)
}

/// Whether the length of `s` is a whole number of 4-symbol groups.
pub open spec fn aligned(s: Seq<u8>) -> bool {
    s.len() % 4 == 0
}

/// Whether `s` decodes: it is aligned and holds only allowed symbols.
pub open spec fn decodable(s: Seq<u8>) -> bool {
    aligned(s) && symbols_allowed(s)
}

/// A byte that is neither a symbol of the alphabet nor the pad makes its
/// sequence undecodable, wherever it stands.
pub proof fn lemma_foreign_byte_not_allowed(s: Seq<u8>, i: int)
    requires
        0 <= i < s.len(),
        !is_symbol(s[i]),
        s[i] != PAD,
    ensures
        !symbols_allowed(s),
        !decodable(s),
{
    assert(!symbol_allowed(s, i));
}

/// A pad makes its sequence undecodable unless it is one of the last two
/// symbols and only pads follow it.
pub proof fn lemma_stray_pad_not_allowed(s: Seq<u8>, i: int)
    requires
        0 <= i < s.len(),
        s[i] == PAD,
        i < s.len() - 2 || s[s.len() - 1] != PAD,
    ensures
        !symbols_allowed(s),
        !decodable(s),
{
    assert(!symbol_allowed(s, i));
}

/// The 6-bit value that the symbol `c` contributes to its group. The pad
/// contributes zero.
pub open spec fn value_of(c: u8) -> int {
    if is_symbol(c) {
        sixlet_of(c)
    } else {
        0
    }
}

/// The number of bytes that `s` decodes to: three for every group, less
/// one for every trailing pad.
pub open spec fn decoded_len(s: Seq<u8>) -> nat {
    (3 * (s.len() / 4) - pad_count(s)) as nat
}

/// The byte at position `i` of the decoding of `s`: the `i % 3`-th byte of
/// the 24-bit value that the four symbols of group `i / 3` pack, most
/// significant first.
pub open spec fn decoded_byte(s: Seq<u8>, i: int) -> int {
    let g = i / 3;
    let k = i % 3;
    let v0 = value_of(s[4 * g]);
    let v1 = value_of(s[4 * g + 1]);
    let v2 = value_of(s[4 * g + 2]);
    let v3 = value_of(s[4 * g + 3]);
    if k == 0 {
        v0 * 4 + v1 / 16
    } else if k == 1 {
        (v1 % 16) * 16 + v2 / 4
    } else {
        (v2 % 4) * 64 + v3
    }
}

/// The decoding of `s`, meaningful where `decodable(s)`.
pub open spec fn decode_spec(s: Seq<u8>) -> Seq<u8>
    recommends
        decodable(s),
{
    Seq::new(decoded_len(s), |i: int| decoded_byte(s, i) as u8)
}

/// The encoding of `n` bytes is four symbols for every three bytes, rounded
/// up to whole groups.
pub proof fn lemma_encoded_len(b: Seq<u8>)
    ensures
        encode_spec(b).len() == 4 * ((b.len() + 2) / 3),
        encode_spec(b).len() % 4 == 0,
        b.len() == 0 <==> encode_spec(b).len() == 0,
{
}

/// Every field is a sixlet.
pub proof fn lemma_field_range(b: Seq<u8>, g: int, k: int)
    requires
        0 <= k < 4,
    ensures
        0 <= field(b, g, k) < 64,
{
}

/// The symbol at position `j` of an encoding is a pad exactly where `j` lies
/// among the last `(3 - len % 3) % 3` positions, and a symbol of the
/// alphabet elsewhere.
proof fn lemma_encoded_symbol_kind(b: Seq<u8>, j: int)
    requires
        0 <= j < encoded_len(b.len()),
    ensures
        encoded_symbol(b, j) == PAD <==> j >= encoded_len(b.len()) - (3 - b.len() % 3) % 3,
        is_symbol(encoded_symbol(b, j)) <==> encoded_symbol(b, j) != PAD,
{
    lemma_alphabet_bijective();
    let n = b.len() as int;
    let m = (n + 2) / 3;
    let g = j / 4;
    let k = j % 4;
    lemma_field_range(b, g, k);
    assert(encoded_symbol(b, j) == PAD <==> 3 * g + k > n);
    assert(j == 4 * g + k);
    assert(g <= m - 1);
    assert(3 * m - 2 <= n <= 3 * m);
    assert((3 - n % 3) % 3 == 3 * m - n);
}

/// An encoding ends in no pad where the input is a whole number of groups,
/// in one pad where two bytes are left over, in two where one is. Only
/// those last positions hold a pad; the others hold symbols of the alphabet.
pub proof fn lemma_encoded_pads(b: Seq<u8>)
    ensures
        pad_count(encode_spec(b)) == (3 - b.len() % 3) % 3,
        forall|j: int|
            0 <= j < encode_spec(b).len() ==> (is_symbol(#[trigger] encode_spec(b)[j]) <==> j
                < encode_spec(b).len() - pad_count(encode_spec(b))),
        forall|j: int|
            0 <= j < encode_spec(b).len() ==> (#[trigger] encode_spec(b)[j] == PAD <==> j
                >= encode_spec(b).len() - pad_count(encode_spec(b))),
{
    let e = encode_spec(b);
    let n = b.len() as int;
    let pads = (3 - n % 3) % 3;
    assert forall|j: int| 0 <= j < e.len() implies (#[trigger] e[j] == PAD <==> j >= e.len()
        - pads) && (is_symbol(e[j]) <==> e[j] != PAD) by {
        lemma_encoded_symbol_kind(b, j);
    }
    if n > 0 {
        assert(e.len() >= 4);
        assert(e[e.len() - 1] == PAD <==> pads >= 1);
        assert(e[e.len() - 2] == PAD <==> pads >= 2);
    }
    assert(pad_count(e) == pads);
}

/// Packing the four fields of three bytes back together gives the bytes.
proof fn lemma_pack_fields(b1: int, b2: int, b3: int)
    requires
        0 <= b1 < 256,
        0 <= b2 < 256,
        0 <= b3 < 256,
    ensures
        (b1 / 4) * 4 + ((b1 % 4) * 16 + b2 / 16) / 16 == b1,
        (((b1 % 4) * 16 + b2 / 16) % 16) * 16 + ((b2 % 16) * 4 + b3 / 64) / 4 == b2,
        (((b2 % 16) * 4 + b3 / 64) % 4) * 64 + b3 % 64 == b3,
{
}

/// The symbol at a position that holds no pad contributes its field.
proof fn lemma_value_of_encoded(b: Seq<u8>, g: int, k: int)
    requires
        0 <= g,
        0 <= k < 4,
        3 * g < b.len(),
        3 * g + k <= b.len(),
    ensures
        4 * g + k < encode_spec(b).len(),
        value_of(encode_spec(b)[4 * g + k]) == field(b, g, k),
{
    lemma_alphabet_bijective();
    lemma_field_range(b, g, k);
    let j = 4 * g + k;
    assert(j / 4 == g && j % 4 == k);
    assert(encode_spec(b)[j] == encoded_symbol(b, j));
}

/// The byte at position `i` of the decoding of an encoding is the byte at
/// position `i` of what was encoded.
proof fn lemma_decoded_byte_of_encoding(b: Seq<u8>, i: int)
    requires
        0 <= i < b.len(),
    ensures
        decoded_byte(encode_spec(b), i) == b[i],
{
    let g = i / 3;
    let k = i % 3;
    lemma_pack_fields(byte_at(b, 3 * g), byte_at(b, 3 * g + 1), byte_at(b, 3 * g + 2));
    lemma_value_of_encoded(b, g, 0);
    lemma_value_of_encoded(b, g, 1);
    if k >= 1 {
        lemma_value_of_encoded(b, g, 2);
    }
    if k == 2 {
        lemma_value_of_encoded(b, g, 3);
    }
}

/// Round trip: the encoding of any bytes decodes, and decodes to those
/// bytes.
pub proof fn lemma_decode_encode(b: Seq<u8>)
    ensures
        decodable(encode_spec(b)),
        decode_spec(encode_spec(b)) == b,
{
    lemma_encoded_pads(b);
    let e = encode_spec(b);
    assert forall|j: int| 0 <= j < e.len() implies symbol_allowed(e, j) by {
        if j >= e.len() - pad_count(e) {
            assert(e[j] == PAD);
        }
    }
    assert(decoded_len(e) == b.len());
    assert forall|i: int| 0 <= i < b.len() implies decode_spec(e)[i] == b[i] by {
        lemma_decoded_byte_of_encoding(b, i);
    }
    assert(decode_spec(e) =~= b);
}

/// The bytes that decoding drops for the pads of an encoding are zero: the
/// bits that encoding pads out are zero, and the pad counts as zero, so
/// dropping one byte for each pad loses nothing of the input.
pub proof fn lemma_dropped_bytes_zero(b: Seq<u8>, i: int)
    requires
        b.len() <= i < 3 * (encode_spec(b).len() / 4),
    ensures
        decoded_byte(encode_spec(b), i) == 0,
{
    lemma_encoded_pads(b);
    let e = encode_spec(b);
    let n = b.len() as int;
    let g = i / 3;
    assert(g == (n + 2) / 3 - 1);
    assert(e.len() == 4 * g + 4);
    lemma_value_of_encoded(b, g, 1);
    if n % 3 == 2 {
        lemma_value_of_encoded(b, g, 2);
    }
    assert(!is_symbol(PAD));
}

/// Encoding distributes over concatenation where the first part is a whole
/// number of 3-byte groups.
pub proof fn lemma_encode_concat(a: Seq<u8>, b: Seq<u8>)
    requires
        a.len() % 3 == 0,
    ensures
        encode_spec(a + b) == encode_spec(a) + encode_spec(b),
{
    let ab = a + b;
    let ea = encode_spec(a);
    let eb = encode_spec(b);
    let groups = a.len() as int / 3;
    assert(ea.len() == 4 * groups);
    assert(encode_spec(ab).len() == ea.len() + eb.len());
    assert forall|j: int| 0 <= j < ea.len() + eb.len() implies encode_spec(ab)[j] == (ea + eb)[j] by {
        let g = j / 4;
        let k = j % 4;
        if j < ea.len() {
            assert(g < groups);
            assert(byte_at(ab, 3 * g) == byte_at(a, 3 * g));
            assert(byte_at(ab, 3 * g + 1) == byte_at(a, 3 * g + 1));
            assert(byte_at(ab, 3 * g + 2) == byte_at(a, 3 * g + 2));
        } else {
            let h = (j - ea.len()) / 4;
            assert(h == g - groups);
            assert((j - ea.len()) % 4 == k);
            assert(byte_at(ab, 3 * g) == byte_at(b, 3 * h));
            assert(byte_at(ab, 3 * g + 1) == byte_at(b, 3 * h + 1));
            assert(byte_at(ab, 3 * g + 2) == byte_at(b, 3 * h + 2));
        }
    }
    assert(encode_spec(ab) =~= ea + eb);
}

} // verus!
