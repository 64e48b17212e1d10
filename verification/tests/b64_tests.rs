use base64::Engine;
use rustysky::b64::base64url_decode;

#[test]
fn decodes_unpadded_url_safe_input() {
    let data: Vec<u8> = vec![0xfb, 0xef, 0xff, 0x01, 0x02, 0x03];
    let encoded = base64::engine::general_purpose::URL_SAFE_NO_PAD.encode(&data);
    let decoded = base64url_decode(&encoded.into_bytes()).unwrap();
    assert_eq!(decoded, data);
}

#[test]
fn decodes_plain_base64() {
    let decoded = base64url_decode(&b"AQID".to_vec()).unwrap();
    assert_eq!(decoded, vec![1, 2, 3]);
    let decoded = base64url_decode(&Vec::new()).unwrap();
    assert_eq!(decoded, Vec::<u8>::new());
}

#[test]
fn pads_remainders_of_two_and_three() {
    let decoded = base64url_decode(&b"eQ".to_vec()).unwrap();
    assert_eq!(decoded, b"y".to_vec());
    let decoded = base64url_decode(&b"eyI".to_vec()).unwrap();
    assert_eq!(decoded, vec![0x7b, 0x22]);
    // the decoder demands canonical input: unused trailing bits must be
    // zero, so "eyJ" (same two bytes, non-zero padding bits) is rejected
    assert!(base64url_decode(&b"eyJ".to_vec()).is_err());
}

#[test]
fn rejects_length_remainder_of_one() {
    let e = base64url_decode(&b"AAAAA".to_vec()).unwrap_err();
    assert_eq!(e, "Invalid base64 length");
}

#[test]
fn rejects_invalid_characters() {
    let e = base64url_decode(&b"%%%%".to_vec()).unwrap_err();
    assert_eq!(e, "Invalid base64");
}

#[test]
fn maps_url_safe_alphabet_onto_standard() {
    // '-' and '_' stand for '+' and '/' in the url-safe alphabet
    let via_url_safe = base64url_decode(&b"-_-_".to_vec()).unwrap();
    let expected = base64::engine::general_purpose::STANDARD.decode("+/+/").unwrap();
    assert_eq!(via_url_safe, expected);
}
