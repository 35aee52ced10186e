use light::token::{gen_token, hex2byte_v};

#[test]
fn hex_pairs_decode_high_digit_first() {
    assert_eq!(hex2byte_v("0a1b"), vec![0x0a, 0x1b]);
    assert_eq!(hex2byte_v("ff00"), vec![0xff, 0x00]);
    assert_eq!(hex2byte_v(""), Vec::<u8>::new());
}

#[test]
fn hex_uppercase_decodes_like_lowercase() {
    assert_eq!(hex2byte_v("FF"), vec![0xff]);
    assert_eq!(hex2byte_v("Aa"), vec![0xaa]);
}

#[test]
fn trailing_lone_digit_stands_for_its_value() {
    assert_eq!(hex2byte_v("abc"), vec![0xab, 0x0c]);
    assert_eq!(hex2byte_v("7"), vec![0x07]);
}

#[test]
fn token_has_jwt_shape_and_is_deterministic_without_expiry() {
    let key = "00112233445566778899aabbccddeeff";
    let one = gen_token(key, "user@example.org".to_string(), None).unwrap();
    let two = gen_token(key, "user@example.org".to_string(), None).unwrap();
    assert_eq!(one, two);
    assert_eq!(one.split('.').count(), 3);
    assert!(!one.is_empty());
}

#[test]
fn token_depends_on_the_claims() {
    let key = "00112233445566778899aabbccddeeff";
    let a = gen_token(key, "a@example.org".to_string(), None).unwrap();
    let b = gen_token(key, "b@example.org".to_string(), None).unwrap();
    assert_ne!(a, b);
    let with_life = gen_token(key, "a@example.org".to_string(), Some(3600)).unwrap();
    assert_ne!(a, with_life);
}
