use counter_bech32::codec::{decode, encode, DecodingError};

const VECTOR_ADDR: &str = "juno1lqgdq9u8zhcvwwwz3xjswactrtq6qzptmlzlh6xspl34dxq32uhqhlphat";
const VECTOR_BYTES: [u8; 32] = [
    248, 16, 208, 23, 135, 21, 240, 199, 57, 194, 137, 165, 7, 119, 11, 26, 193, 160, 8, 43, 223,
    197, 251, 232, 208, 15, 227, 86, 152, 17, 87, 46,
];

const CHARSET: &str = "qpzry9x8gf2tvdw0s3jn54khce6mua7l";

#[test]
fn concrete_vector_encodes() {
    let s = encode("juno", &VECTOR_BYTES).unwrap();
    assert_eq!(s, VECTOR_ADDR.to_string());
}

#[test]
fn concrete_vector_decodes() {
    let (tag, bytes) = decode(VECTOR_ADDR).unwrap();
    assert_eq!(tag, "juno".to_string());
    assert_eq!(bytes, VECTOR_BYTES);
}

#[test]
fn round_trip_various_payloads() {
    let tags = ["a", "cosmos", "juno", "verylongtagmadeonlyofletters"];
    for (t_idx, tag) in tags.iter().enumerate() {
        let mut payload = [0u8; 32];
        for i in 0..32 {
            payload[i] = (i as u8).wrapping_mul(7).wrapping_add(t_idx as u8 * 13);
        }
        let s = encode(tag, &payload).unwrap();
        let (tag2, payload2) = decode(&s).unwrap();
        assert_eq!(&tag2, tag);
        assert_eq!(payload2, payload);
    }
}

#[test]
fn round_trip_longest_tag() {
    // 83 letters, the longest tag the codec accepts
    let tag: String = std::iter::repeat('z').take(83).collect();
    let payload = [0xabu8; 32];
    let s = encode(&tag, &payload).unwrap();
    let (tag2, payload2) = decode(&s).unwrap();
    assert_eq!(tag2, tag);
    assert_eq!(payload2, payload);
}

#[test]
fn encode_rejects_bad_tags() {
    let payload = [1u8; 32];
    // empty tag
    assert!(encode("", &payload).is_err());
    // uppercase letter
    assert!(encode("Juno", &payload).is_err());
    // digit in the tag
    assert!(encode("jun0", &payload).is_err());
    // separator character in the tag
    assert!(encode("ju1no", &payload).is_err());
    // 84 letters is one too many
    let long: String = std::iter::repeat('a').take(84).collect();
    assert!(encode(&long, &payload).is_err());
    // a character beyond ASCII
    assert!(encode("jun\u{e9}", &payload).is_err());
}

#[test]
fn flipping_any_body_character_is_detected() {
    let bytes: Vec<u8> = VECTOR_ADDR.bytes().collect();
    let charset: Vec<u8> = CHARSET.bytes().collect();
    // positions after the separator at index 4
    for pos in 5..bytes.len() {
        let mut tampered = bytes.clone();
        let replacement = charset
            .iter()
            .copied()
            .find(|&c| c != tampered[pos])
            .unwrap();
        tampered[pos] = replacement;
        let s = String::from_utf8(tampered).unwrap();
        let res = decode(&s);
        assert_eq!(res, Err(DecodingError::ChecksumMismatch), "position {}", pos);
    }
}

#[test]
fn flipping_a_tag_character_is_detected() {
    let mut s: Vec<u8> = VECTOR_ADDR.bytes().collect();
    s[0] = b'k'; // "kuno..."
    let s = String::from_utf8(s).unwrap();
    assert_eq!(decode(&s), Err(DecodingError::ChecksumMismatch));
}

#[test]
fn removing_the_separator_is_structural_corruption() {
    let s: String = VECTOR_ADDR.chars().filter(|&c| c != '1').collect();
    assert_eq!(decode(&s), Err(DecodingError::MissingSeparator));
    assert_eq!(decode("qqqq"), Err(DecodingError::MissingSeparator));
    assert_eq!(decode(""), Err(DecodingError::MissingSeparator));
}

#[test]
fn wrong_body_length_is_invalid_length() {
    // a checksum-valid encoding whose body carries no data groups
    assert_eq!(decode("a12uel5l"), Err(DecodingError::InvalidLength));
    // a body too short to even hold a checksum
    assert_eq!(decode("juno1qqq"), Err(DecodingError::InvalidLength));
}

#[test]
fn tag_errors_on_decode() {
    // nothing before the separator
    assert_eq!(decode("1qqqqqqqqq"), Err(DecodingError::TagEmpty));
    // 84 letters before the separator
    let mut s: String = std::iter::repeat('a').take(84).collect();
    s.push('1');
    s.push_str("qqqqqqqqq");
    assert_eq!(decode(&s), Err(DecodingError::TagTooLong));
    // an uppercase letter in the tag
    assert_eq!(decode("jUno1qqqqqqqqq"), Err(DecodingError::InvalidCharacter));
}

#[test]
fn invalid_characters_on_decode() {
    // 'b' is excluded from the alphabet
    let mut s: Vec<u8> = VECTOR_ADDR.bytes().collect();
    let last = s.len() - 1;
    s[last] = b'b';
    let s = String::from_utf8(s).unwrap();
    assert_eq!(decode(&s), Err(DecodingError::InvalidCharacter));
    // a character beyond ASCII anywhere is rejected
    assert_eq!(
        decode("juno1qqqqqqqq\u{e9}"),
        Err(DecodingError::InvalidCharacter)
    );
}

#[test]
fn mixed_case_body_is_rejected() {
    // the codec consumes canonical lowercase only
    let mut s: Vec<u8> = VECTOR_ADDR.bytes().collect();
    let last = s.len() - 1;
    s[last] = s[last].to_ascii_uppercase();
    let s = String::from_utf8(s).unwrap();
    assert_eq!(decode(&s), Err(DecodingError::InvalidCharacter));
}
