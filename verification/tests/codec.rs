use hiddentext_rs::{decode, encode, DecodeError, ONE, ZERO};

#[test]
fn encode_works() {
    let text = "a"; // binary 01100001
    let mut expected = String::new();
    expected.push(ZERO); // 0
    expected.push(ONE); // 1
    expected.push(ONE); // 1
    expected.push(ZERO); // 0
    expected.push(ZERO); // 0
    expected.push(ZERO); // 0
    expected.push(ZERO); // 0
    expected.push(ONE); // 1
    assert_eq!(encode(text), expected);
}

#[test]
fn decode_works() {
    let mut encoded = String::new();
    encoded.push(ZERO);
    encoded.push(ONE);
    encoded.push(ONE);
    encoded.push(ZERO);
    encoded.push(ZERO);
    encoded.push(ZERO);
    encoded.push(ZERO);
    encoded.push(ONE);
    let expected = "a";
    assert_eq!(decode(&encoded).unwrap(), expected);
}

#[test]
fn encode_decode_roundtrip_works() {
    let original = "Lorem ipsum dolor sit amet, consectetur adipiscing elit. Sed do eiusmod tempor incididunt ut labore et dolore magna aliqua.";
    let encoded = encode(original);
    let decoded = decode(&encoded).unwrap();
    assert_eq!(original, decoded);
}

#[test]
fn encode_decode_emoji_works() {
    let original = "😀 café ₿";
    let encoded = encode(original);
    let decoded = decode(&encoded).unwrap();
    assert_eq!(original, decoded);
}

#[test]
fn decode_invalid_length_returns_error() {
    let encoded = "a";
    assert_eq!(decode(encoded), Err(DecodeError::InvalidLength));
}

#[test]
fn decode_invalid_character_returns_error() {
    let encoded = "abcdefgh";
    assert_eq!(decode(encoded), Err(DecodeError::InvalidCharacter));
}

#[test]
fn decode_invalid_utf8_returns_error() {
    let mut encoded = String::new();
    // This is an invalid UTF-8 sequence (specifically, a lone surrogate half).
    // 11011000 00000000 -> 0xD8 0x00
    for _ in 0..4 {
        encoded.push(ONE); // 1101
    }
    for _ in 0..4 {
        encoded.push(ZERO); // 1000
    }
    for _ in 0..8 {
        encoded.push(ZERO); // 00000000
    }
    assert_eq!(decode(&encoded), Err(DecodeError::InvalidUtf8));
}

#[test]
fn encode_length_is_eight_per_utf8_byte() {
    // "€" is three UTF-8 bytes, "aé" is one plus two.
    assert_eq!(encode("").chars().count(), 0);
    assert_eq!(encode("a").chars().count(), 8);
    assert_eq!(encode("€").chars().count(), 24);
    assert_eq!(encode("aé").chars().count(), 24);
    assert_eq!(encode("hello").chars().count(), 8 * "hello".len());
}

#[test]
fn encode_uses_only_the_two_carriers() {
    let encoded = encode("mixed ascii, accents é, emoji 🙂");
    assert!(encoded.chars().all(|c| c == ZERO || c == ONE));
}

#[test]
fn decode_empty_is_empty() {
    assert_eq!(decode("").unwrap(), "");
}

#[test]
fn encode_empty_is_empty() {
    assert_eq!(encode(""), "");
}

#[test]
fn wrong_length_wins_over_wrong_alphabet() {
    // Three foreign characters: rejected for the length, not the alphabet.
    assert_eq!(decode("abc"), Err(DecodeError::InvalidLength));
    // Nine carrier characters: still a length error.
    let mut encoded = String::new();
    for _ in 0..9 {
        encoded.push(ONE);
    }
    assert_eq!(decode(&encoded), Err(DecodeError::InvalidLength));
}

#[test]
fn decode_rejects_foreign_character_in_later_group() {
    // First group is a valid byte, second group holds one ordinary letter.
    let mut encoded = String::new();
    for _ in 0..8 {
        encoded.push(ZERO);
    }
    for _ in 0..7 {
        encoded.push(ZERO);
    }
    encoded.push('x');
    assert_eq!(decode(&encoded), Err(DecodeError::InvalidCharacter));
}

#[test]
fn decode_exact_bits_of_two_byte_text() {
    // "é" is 0xC3 0xA9: 11000011 10101001.
    let expected = "é";
    let bits = [
        1, 1, 0, 0, 0, 0, 1, 1, // 0xC3
        1, 0, 1, 0, 1, 0, 0, 1, // 0xA9
    ];
    let mut encoded = String::new();
    for bit in bits {
        encoded.push(if bit == 1 { ONE } else { ZERO });
    }
    assert_eq!(encode(expected), encoded);
    assert_eq!(decode(&encoded).unwrap(), expected);
}

#[test]
fn roundtrip_of_the_carriers_themselves() {
    // The carrier characters are ordinary text too and must survive a trip.
    let mut original = String::new();
    original.push(ZERO);
    original.push(ONE);
    let encoded = encode(&original);
    assert_eq!(encoded.chars().count(), 8 * original.len());
    assert_eq!(decode(&encoded).unwrap(), original);
}
