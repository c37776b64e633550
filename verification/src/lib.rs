//! A steganographic text codec.
//!
//! `encode` turns arbitrary Unicode text into a sequence of two
//! visually-invisible characters, the zero-width non-joiner ([`ZERO`]) and the
//! zero-width joiner ([`ONE`]): each UTF-8 byte of the text becomes eight
//! carrier characters, most significant bit first.  `decode` reverses this,
//! rejecting inputs whose character count is not a multiple of eight
//! (`InvalidLength`), inputs containing a character outside the two-symbol
//! alphabet (`InvalidCharacter`), and inputs whose reassembled bytes are not
//! valid UTF-8 (`InvalidUtf8`).

use vstd::prelude::*;
use vstd::string::StrSliceExecFns;
use vstd::string::StringExecFns;
use vstd::utf8::decode_utf8;
use vstd::utf8::encode_utf8;
use vstd::utf8::encode_utf8_decode_utf8;
use vstd::utf8::encode_utf8_valid_utf8;
use vstd::utf8::valid_utf8;

verus! {

/// The carrier character for a zero bit: the zero-width non-joiner.
pub const ZERO: char = '\u{200C}';

/// The carrier character for a one bit: the zero-width joiner.
pub const ONE: char = '\u{200D}';

/// True of the two carrier characters and nothing else.
pub open spec fn is_hidden_char(c: char) -> bool {
    c == ZERO || c == ONE
}

/// True when every character of the sequence is a carrier character.
pub open spec fn all_hidden(s: Seq<char>) -> bool {
    forall|i: int| 0 <= i < s.len() ==> is_hidden_char(s[i])
}

/// The bit of `b` at position `j`, counted from the most significant
/// (`j` ranges over `0..8`; position 0 is the most significant bit).
pub open spec fn bit_at(b: u8, j: int) -> bool {
    (b >> ((7 - j) as u8)) & 1 == 1
}

/// The carrier character of one bit.
pub open spec fn bit_char(bit: bool) -> char {
    if bit {
        ONE
    } else {
        ZERO
    }
}

/// The eight carrier characters of one byte, most significant bit first.
pub open spec fn byte_bits(b: u8) -> Seq<char> {
    Seq::new(8, |j: int| bit_char(bit_at(b, j)))
}

/// The hidden sequence of a byte string: eight carrier characters per byte,
/// in byte order.
pub open spec fn hidden_of_bytes(bytes: Seq<u8>) -> Seq<char>
    decreases bytes.len(),
{
    if bytes.len() == 0 {
        Seq::empty()
    } else {
        hidden_of_bytes(bytes.drop_last()) + byte_bits(bytes.last())
    }
}

/// The bit value carried by one character: 1 for [`ONE`], 0 otherwise.
pub open spec fn bit_value(c: char) -> int {
    if c == ONE {
        1
    } else {
        0
    }
}

/// The byte encoded by a group of eight carrier characters.
pub open spec fn group_byte(g: Seq<char>) -> u8 {
    (128 * bit_value(g[0]) + 64 * bit_value(g[1]) + 32 * bit_value(g[2]) + 16 * bit_value(g[3])
        + 8 * bit_value(g[4]) + 4 * bit_value(g[5]) + 2 * bit_value(g[6]) + bit_value(g[7])) as u8
}

/// The bytes encoded by a hidden sequence, one per group of eight characters,
/// in group order.
pub open spec fn bytes_of_hidden(s: Seq<char>) -> Seq<u8> {
    Seq::new(s.len() / 8, |k: int| group_byte(s.subrange(8 * k, 8 * k + 8)))
}

/// The bit carried by one character: 1 for [`ONE`], 0 for [`ZERO`], and
/// `None` for any character outside the alphabet.
fn char_bit(c: char) -> (r: Option<u8>)
    ensures
        r is Some <==> is_hidden_char(c),
        r is Some ==> r->Some_0 as int == bit_value(c),
{
    if c == ONE {
        Some(1)
    } else if c == ZERO {
        Some(0)
    } else {
        None
    }
}

/// The hidden sequence of a byte string is eight characters per byte.
pub proof fn lemma_hidden_of_bytes_len(bytes: Seq<u8>)
    ensures
        hidden_of_bytes(bytes).len() == 8 * bytes.len(),
    decreases bytes.len(),
{
    if bytes.len() > 0 {
        lemma_hidden_of_bytes_len(bytes.drop_last());
    }
}

/// Every character of a hidden sequence of bytes is a carrier character.
pub proof fn lemma_hidden_of_bytes_all_hidden(bytes: Seq<u8>)
    ensures
        all_hidden(hidden_of_bytes(bytes)),
    decreases bytes.len(),
{
    if bytes.len() > 0 {
        lemma_hidden_of_bytes_all_hidden(bytes.drop_last());
        lemma_hidden_of_bytes_len(bytes.drop_last());
        let s = hidden_of_bytes(bytes);
        let prefix = hidden_of_bytes(bytes.drop_last());
        assert forall|i: int| 0 <= i < s.len() implies is_hidden_char(s[i]) by {
            if i < prefix.len() {
                assert(s[i] == prefix[i]);
            } else {
                assert(s[i] == byte_bits(bytes.last())[i - prefix.len()]);
            }
        }
    }
}

/// Decoding the eight carrier characters of a byte gives that byte back.
proof fn lemma_group_byte_byte_bits(b: u8)
    ensures
        group_byte(byte_bits(b)) == b,
{
    assert(128 * (if (b >> 7) & 1 == 1 { 1int } else { 0int }) + 64 * (
    if (b >> 6) & 1 == 1 {
        1int
    } else {
        0int
    }) + 32 * (if (b >> 5) & 1 == 1 { 1int } else { 0int }) + 16 * (
    if (b >> 4) & 1 == 1 {
        1int
    } else {
        0int
    }) + 8 * (if (b >> 3) & 1 == 1 { 1int } else { 0int }) + 4 * (
    if (b >> 2) & 1 == 1 {
        1int
    } else {
        0int
    }) + 2 * (if (b >> 1) & 1 == 1 { 1int } else { 0int }) + (
    if (b >> 0) & 1 == 1 {
        1int
    } else {
        0int
    }) == b) by (bit_vector);
}

/// Group `k` of the hidden sequence of a byte string is the bit expansion of
/// byte `k`.
proof fn lemma_hidden_of_bytes_group(bytes: Seq<u8>, k: int)
    requires
        0 <= k < bytes.len(),
    ensures
        hidden_of_bytes(bytes).subrange(8 * k, 8 * k + 8) =~= byte_bits(bytes[k]),
    decreases bytes.len(),
{
    lemma_hidden_of_bytes_len(bytes);
    lemma_hidden_of_bytes_len(bytes.drop_last());
    if k == bytes.len() - 1 {
        assert forall|j: int| 0 <= j < 8 implies hidden_of_bytes(bytes).subrange(
            8 * k,
            8 * k + 8,
        )[j] == byte_bits(bytes[k])[j] by {
            assert(hidden_of_bytes(bytes)[8 * k + j] == byte_bits(bytes.last())[j]);
        }
    } else {
        lemma_hidden_of_bytes_group(bytes.drop_last(), k);
        assert forall|j: int| 0 <= j < 8 implies hidden_of_bytes(bytes).subrange(
            8 * k,
            8 * k + 8,
        )[j] == byte_bits(bytes[k])[j] by {
            assert(hidden_of_bytes(bytes)[8 * k + j] == hidden_of_bytes(bytes.drop_last())[8 * k
                + j]);
            assert(hidden_of_bytes(bytes.drop_last()).subrange(8 * k, 8 * k + 8)[j] == byte_bits(
                bytes.drop_last()[k],
            )[j]);
        }
    }
}

/// Bit-level round trip: decoding the hidden sequence of a byte string,
/// group by group, gives the byte string back.
pub proof fn lemma_bytes_of_hidden_of_bytes(bytes: Seq<u8>)
    ensures
        bytes_of_hidden(hidden_of_bytes(bytes)) =~= bytes,
{
    lemma_hidden_of_bytes_len(bytes);
    assert forall|k: int| 0 <= k < bytes.len() implies bytes_of_hidden(hidden_of_bytes(bytes))[k]
        == bytes[k] by {
        lemma_hidden_of_bytes_group(bytes, k);
        lemma_group_byte_byte_bits(bytes[k]);
    }
}

/// Encodes Unicode text as a hidden sequence: every UTF-8 byte of the text
/// becomes eight carrier characters, most significant bit first.  Encoding
/// never fails, the result is eight characters per UTF-8 byte, and every
/// character of the result is a carrier character.
pub fn encode(text: &str) -> (r: String)
    ensures
        r@ == hidden_of_bytes(encode_utf8(text@)),
        r@.len() == 8 * encode_utf8(text@).len(),
        all_hidden(r@),
{
    let bytes: &[u8] = text.as_bytes();
    let mut result = String::new();
    let mut i: usize = 0;
    while i < bytes.len()
        invariant
            i <= bytes@.len(),
            bytes@ == encode_utf8(text@),
            result@ == hidden_of_bytes(bytes@.take(i as int)),
        decreases bytes@.len() - i,
    {
        let b = bytes[i];
        let mut j: usize = 0;
        while j < 8
            invariant
                j <= 8,
                i < bytes@.len(),
                b == bytes@[i as int],
                result@ == hidden_of_bytes(bytes@.take(i as int)) + byte_bits(b).take(j as int),
            decreases 8 - j,
        {
            let shift: u8 = (7 - j) as u8;
            proof {
                reveal_strlit("\u{200C}");
                reveal_strlit("\u{200D}");
            }
            if ((b >> shift) & 1) == 1 {
                result.append("\u{200D}");
            } else {
                result.append("\u{200C}");
            }
            proof {
                assert(byte_bits(b).take(j + 1) =~= byte_bits(b).take(j as int) + seq![
                    bit_char(bit_at(b, j as int)),
                ]);
            }
            j += 1;
        }
        proof {
            assert(byte_bits(b).take(8) =~= byte_bits(b));
            assert(bytes@.take(i + 1).drop_last() =~= bytes@.take(i as int));
            assert(bytes@.take(i + 1).last() == b);
        }
        i += 1;
    }
    proof {
        assert(bytes@.take(bytes@.len() as int) =~= bytes@);
        lemma_hidden_of_bytes_len(bytes@);
        lemma_hidden_of_bytes_all_hidden(bytes@);
    }
    result
}

/// Why a character sequence could not be decoded.  The three kinds are
/// checked in this order: length first, then the alphabet, then UTF-8
/// validity of the reassembled bytes.
#[derive(Debug, PartialEq, Eq)]
pub enum DecodeError {
    /// The character count of the input is not a multiple of eight.
    InvalidLength,
    /// A character of the input is neither [`ZERO`] nor [`ONE`].
    InvalidCharacter,
    /// The reassembled bytes are not valid UTF-8.
    InvalidUtf8,
}

/// Relies on `String::from_utf8` of the standard library: it returns the
/// string whose UTF-8 byte representation is exactly the given bytes, and it
/// fails precisely when the bytes are not valid UTF-8.
#[verifier::external_body]
fn string_from_utf8(bytes: Vec<u8>) -> (r: Option<String>)
    ensures
        r is Some <==> valid_utf8(bytes@),
        r matches Some(t) ==> encode_utf8(t@) == bytes@,
{
    String::from_utf8(bytes).ok()
}

/// Decodes a hidden sequence back into text.
///
/// The input is rejected with `InvalidLength` exactly when its character
/// count is not a multiple of eight (before any other check), with
/// `InvalidCharacter` exactly when the count is right but some character is
/// outside the two-symbol alphabet, and with `InvalidUtf8` exactly when the
/// characters are all carriers but the reassembled bytes are not valid
/// UTF-8.  On success the returned text is the one whose UTF-8 bytes are the
/// groupwise decoding of the input.
pub fn decode(encoded_text: &str) -> (r: Result<String, DecodeError>)
    ensures
        r == Err::<String, DecodeError>(DecodeError::InvalidLength) <==> encoded_text@.len() % 8
            != 0,
        r == Err::<String, DecodeError>(DecodeError::InvalidCharacter) <==> (encoded_text@.len()
            % 8 == 0 && !all_hidden(encoded_text@)),
        r == Err::<String, DecodeError>(DecodeError::InvalidUtf8) <==> (encoded_text@.len() % 8
            == 0 && all_hidden(encoded_text@) && !valid_utf8(bytes_of_hidden(encoded_text@))),
        r is Ok <==> (encoded_text@.len() % 8 == 0 && all_hidden(encoded_text@) && valid_utf8(
            bytes_of_hidden(encoded_text@),
        )),
        r matches Ok(t) ==> encode_utf8(t@) == bytes_of_hidden(encoded_text@),
        r matches Ok(t) ==> t@ == decode_utf8(bytes_of_hidden(encoded_text@)),
{
    let ghost s: Seq<char> = encoded_text@;
    let n = encoded_text.unicode_len();
    if n % 8 != 0 {
        return Err(DecodeError::InvalidLength);
    }
    let mut bytes: Vec<u8> = Vec::new();
    let mut i: usize = 0;
    while i < n
        invariant
            n == s.len(),
            s == encoded_text@,
            n % 8 == 0,
            i % 8 == 0,
            i <= n,
            all_hidden(s.take(i as int)),
            bytes@ == bytes_of_hidden(s.take(i as int)),
        decreases n - i,
    {
        assert(i + 8 <= n);
        let ghost g = s.subrange(i as int, i as int + 8);
        let b0 = match char_bit(encoded_text.get_char(i)) {
            Some(v) => v,
            None => {
                return Err(DecodeError::InvalidCharacter);
            },
        };
        let b1 = match char_bit(encoded_text.get_char(i + 1)) {
            Some(v) => v,
            None => {
                return Err(DecodeError::InvalidCharacter);
            },
        };
        let b2 = match char_bit(encoded_text.get_char(i + 2)) {
            Some(v) => v,
            None => {
                return Err(DecodeError::InvalidCharacter);
            },
        };
        let b3 = match char_bit(encoded_text.get_char(i + 3)) {
            Some(v) => v,
            None => {
                return Err(DecodeError::InvalidCharacter);
            },
        };
        let b4 = match char_bit(encoded_text.get_char(i + 4)) {
            Some(v) => v,
            None => {
                return Err(DecodeError::InvalidCharacter);
            },
        };
        let b5 = match char_bit(encoded_text.get_char(i + 5)) {
            Some(v) => v,
            None => {
                return Err(DecodeError::InvalidCharacter);
            },
        };
        let b6 = match char_bit(encoded_text.get_char(i + 6)) {
            Some(v) => v,
            None => {
                return Err(DecodeError::InvalidCharacter);
            },
        };
        let b7 = match char_bit(encoded_text.get_char(i + 7)) {
            Some(v) => v,
            None => {
                return Err(DecodeError::InvalidCharacter);
            },
        };
        let val: u8 = 128 * b0 + 64 * b1 + 32 * b2 + 16 * b3 + 8 * b4 + 4 * b5 + 2 * b6 + b7;
        proof {
            assert(val == group_byte(g));
            assert forall|idx: int| 0 <= idx < i + 8 implies #[trigger] is_hidden_char(
                s.take(i as int + 8)[idx],
            ) by {
                if idx < i as int {
                    assert(s.take(i as int)[idx] == s[idx]);
                }
            }
            assert forall|k: int| 0 <= k < (i + 8) / 8 implies bytes@.push(val)[k] == group_byte(
                s.take(i as int + 8).subrange(8 * k, 8 * k + 8),
            ) by {
                if k < i as int / 8 {
                    assert(s.take(i as int).subrange(8 * k, 8 * k + 8) =~= s.take(
                        i as int + 8,
                    ).subrange(8 * k, 8 * k + 8));
                } else {
                    assert(g =~= s.take(i as int + 8).subrange(8 * k, 8 * k + 8));
                }
            }
            assert(bytes@.push(val) =~= bytes_of_hidden(s.take(i as int + 8)));
        }
        bytes.push(val);
        i += 8;
    }
    proof {
        assert(s.take(n as int) =~= s);
    }
    match string_from_utf8(bytes) {
        Some(t) => {
            proof {
                encode_utf8_decode_utf8(t@);
            }
            Ok(t)
        },
        None => Err(DecodeError::InvalidUtf8),
    }
}

/// Round trip: the hidden sequence of any text has a character count that is
/// a multiple of eight, consists of carrier characters only, reassembles to
/// the text's own UTF-8 bytes, and those bytes are valid UTF-8 and decode to
/// the text itself.  Together with the contracts of [`encode`] and [`decode`]
/// this says that `decode(encode(t))` succeeds and returns `t`, for every
/// text `t`.
pub proof fn lemma_round_trip(t: Seq<char>)
    ensures
        hidden_of_bytes(encode_utf8(t)).len() % 8 == 0,
        all_hidden(hidden_of_bytes(encode_utf8(t))),
        bytes_of_hidden(hidden_of_bytes(encode_utf8(t))) == encode_utf8(t),
        valid_utf8(encode_utf8(t)),
        decode_utf8(encode_utf8(t)) == t,
{
    lemma_hidden_of_bytes_len(encode_utf8(t));
    lemma_hidden_of_bytes_all_hidden(encode_utf8(t));
    lemma_bytes_of_hidden_of_bytes(encode_utf8(t));
    encode_utf8_valid_utf8(t);
    encode_utf8_decode_utf8(t);
}

} // verus!
