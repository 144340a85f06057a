use felt_convert::codec::{felt_arr_to_str, str_to_felt, FeltError, MAX_CHARS};
use felt_convert::felt::Felt;

fn felt(bytes: &[u8]) -> Felt {
    Felt { negative: false, magnitude: bytes.to_vec() }
}

#[test]
fn encode_empty_is_zero() {
    assert_eq!(str_to_felt(""), Ok(felt(&[0])));
    assert_eq!(Felt::zero(), felt(&[0]));
}

#[test]
fn encode_single_ascii_char() {
    assert_eq!(str_to_felt("A"), Ok(felt(&[0x41])));
}

#[test]
fn encode_two_chars() {
    assert_eq!(str_to_felt("Hi"), Ok(felt(&[0x48, 0x69])));
}

#[test]
fn encode_rejects_thirty_two_chars() {
    let s = "a".repeat(32);
    assert_eq!(str_to_felt(&s), Err(FeltError::InputTooLong));
}

#[test]
fn encode_accepts_thirty_one_chars() {
    let s = "a".repeat(MAX_CHARS);
    let f = str_to_felt(&s).unwrap();
    assert_eq!(f, felt(&[0x61; 31]));
    assert_eq!(felt_arr_to_str(vec![f]), Ok(s));
}

#[test]
fn encode_counts_characters_not_bytes() {
    // 31 two-byte characters: 62 bytes, still within the limit.
    let s = "é".repeat(31);
    assert!(str_to_felt(&s).is_ok());
    let t = "é".repeat(32);
    assert_eq!(str_to_felt(&t), Err(FeltError::InputTooLong));
}

#[test]
fn encode_joins_unpadded_fragments() {
    // U+0005 renders as "5", U+0100 as "100": "5" + "100" = 0x5100.
    assert_eq!(str_to_felt("\u{5}\u{100}"), Ok(felt(&[0x51, 0x00])));
    // U+00E9 renders as "e9".
    assert_eq!(str_to_felt("é"), Ok(felt(&[0xe9])));
    // U+1F600 renders as "1f600".
    assert_eq!(str_to_felt("\u{1F600}"), Ok(felt(&[0x01, 0xf6, 0x00])));
}

#[test]
fn decode_zero_fails() {
    assert_eq!(felt_arr_to_str(vec![felt(&[0])]), Err(FeltError::HexDecodeError));
    assert_eq!(felt_arr_to_str(vec![felt(&[])]), Err(FeltError::HexDecodeError));
}

#[test]
fn round_trip_single_char() {
    let f = str_to_felt("A").unwrap();
    assert_eq!(felt_arr_to_str(vec![f]), Ok("A".to_string()));
}

#[test]
fn round_trip_two_chars() {
    let f = str_to_felt("Hi").unwrap();
    assert_eq!(felt_arr_to_str(vec![f]), Ok("Hi".to_string()));
}

#[test]
fn round_trip_printable_ascii() {
    let s = "Hello, felt world! ~{}[]0189";
    let f = str_to_felt(s).unwrap();
    assert_eq!(felt_arr_to_str(vec![f]), Ok(s.to_string()));
}

#[test]
fn decode_joins_in_order() {
    let a = str_to_felt("A").unwrap();
    let b = str_to_felt("B").unwrap();
    assert_eq!(felt_arr_to_str(vec![a, b]), Ok("AB".to_string()));
    let b2 = str_to_felt("B").unwrap();
    let a2 = str_to_felt("A").unwrap();
    assert_eq!(felt_arr_to_str(vec![b2, a2]), Ok("BA".to_string()));
}

#[test]
fn decode_of_nothing_is_empty() {
    assert_eq!(felt_arr_to_str(vec![]), Ok(String::new()));
}

#[test]
fn odd_digit_char_does_not_round_trip() {
    // U+0005 encodes to 5, whose rendering "5" is odd in length.
    let f = str_to_felt("\u{5}").unwrap();
    assert_eq!(f, felt(&[0x05]));
    assert_eq!(felt_arr_to_str(vec![f]), Err(FeltError::HexDecodeError));
    // U+0100 encodes to 0x100, rendered "100".
    let g = str_to_felt("\u{100}").unwrap();
    assert_eq!(felt_arr_to_str(vec![g]), Err(FeltError::HexDecodeError));
}

#[test]
fn empty_string_does_not_round_trip() {
    let f = str_to_felt("").unwrap();
    assert_eq!(felt_arr_to_str(vec![f]), Err(FeltError::HexDecodeError));
}

#[test]
fn decode_failure_discards_earlier_pieces() {
    let a = str_to_felt("A").unwrap();
    assert_eq!(felt_arr_to_str(vec![a, felt(&[0x05])]), Err(FeltError::HexDecodeError));
}

#[test]
fn decode_replaces_invalid_utf8() {
    // 0xe9 alone is not UTF-8.
    assert_eq!(felt_arr_to_str(vec![felt(&[0xe9])]), Ok("\u{FFFD}".to_string()));
    let f = str_to_felt("é").unwrap();
    assert_eq!(felt_arr_to_str(vec![f]), Ok("\u{FFFD}".to_string()));
}

#[test]
fn decode_reads_multibyte_utf8() {
    // The UTF-8 bytes of 'é' are c3 a9.
    assert_eq!(felt_arr_to_str(vec![felt(&[0xc3, 0xa9])]), Ok("é".to_string()));
}

#[test]
fn decode_ignores_leading_zero_bytes() {
    assert_eq!(felt_arr_to_str(vec![felt(&[0x00, 0x00, 0x41])]), Ok("A".to_string()));
}

#[test]
fn decode_negative_fails() {
    // "-41": odd length.
    let n = Felt { negative: true, magnitude: vec![0x41] };
    assert_eq!(felt_arr_to_str(vec![n]), Err(FeltError::HexDecodeError));
    // "-a": even length, but '-' is no digit.
    let m = Felt { negative: true, magnitude: vec![0x0a] };
    assert_eq!(felt_arr_to_str(vec![m]), Err(FeltError::HexDecodeError));
}

#[test]
fn negative_zero_is_zero() {
    let z = Felt { negative: true, magnitude: vec![0] };
    assert_eq!(felt_arr_to_str(vec![z]), Err(FeltError::HexDecodeError));
}

#[test]
fn decode_concatenation_matches_parts() {
    let parts = ["ab", "Cd", "ef!"];
    let mut joined = String::new();
    let mut felts = Vec::new();
    for p in parts.iter() {
        let f = str_to_felt(p).unwrap();
        let g = str_to_felt(p).unwrap();
        joined.push_str(&felt_arr_to_str(vec![g]).unwrap());
        felts.push(f);
    }
    assert_eq!(joined, "abCdef!");
    assert_eq!(felt_arr_to_str(felts), Ok(joined));
}

#[test]
fn error_messages() {
    assert_eq!(
        FeltError::InputTooLong.message(),
        "unable to convert to felt: string greater than 31 chars"
    );
    assert_eq!(FeltError::HexDecodeError.message(), "Failed to decode hex string");
}
