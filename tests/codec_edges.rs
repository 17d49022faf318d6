use base67::{decode, encode, DecodeError};

#[test]
fn round_trip_lengths_up_to_200() {
    for len in 0..=200usize {
        let data: Vec<u8> = (0..len).map(|i| ((i * 97 + len * 13) % 256) as u8).collect();
        let encoded = encode(&data);
        assert_eq!(decode(&encoded).unwrap(), data, "length {}", len);
    }
}

#[test]
fn encoded_length_is_four_per_started_chunk() {
    for len in 1..=30usize {
        let data = vec![7u8; len];
        assert_eq!(encode(&data).len(), 4 * ((len + 2) / 3), "length {}", len);
    }
}

#[test]
fn padding_follows_the_last_chunk() {
    for len in 1..=30usize {
        let data = vec![200u8; len];
        let encoded = encode(&data);
        match len % 3 {
            1 => assert!(encoded.ends_with("==")),
            2 => assert!(encoded.ends_with('=') && !encoded.ends_with("==")),
            _ => assert!(!encoded.ends_with('=')),
        }
    }
}

#[test]
fn known_vector_decodes() {
    assert_eq!(decode("WVgA").unwrap(), b"foo");
    assert_eq!(decode("R|4ABx==").unwrap(), b"Rust");
    assert_eq!(decode("Pz+SXqDwaBsnGMK=").unwrap(), b"Hello world");
}

#[test]
fn largest_values_per_chunk_width() {
    assert_eq!(encode(&[255, 255, 255]), "30bN");
    assert_eq!(encode(&[255, 255]), "OoJ=");
    assert_eq!(encode(&[255]), "D2==");
    assert_eq!(encode(b"M"), "BK==");
    assert_eq!(encode(b"Ma"), "Ebs=");
    assert_eq!(decode("30bN").unwrap(), vec![255, 255, 255]);
}

#[test]
fn out_of_range_groups_keep_the_low_bytes() {
    assert_eq!(decode("--==").unwrap(), vec![136]);
    assert_eq!(decode("---=").unwrap(), vec![150, 218]);
    assert_eq!(decode("----").unwrap(), vec![51, 123, 80]);
}

#[test]
fn every_symbol_decodes() {
    let alphabet = "ABCDEFGHIJKLMNOPQRSTUVWXYZabcdefghijklmnopqrstuvwxyz0123456789+/|\\-";
    let symbols: Vec<char> = alphabet.chars().collect();
    for (d, &c) in symbols.iter().enumerate() {
        let group: String = ['A', c, '=', '='].iter().collect();
        assert_eq!(decode(&group).unwrap(), vec![d as u8], "symbol {}", c);
    }
}

#[test]
fn invalid_length_is_refused() {
    assert_eq!(decode("ABC"), Err(DecodeError::InvalidLength));
    assert_eq!(decode("A"), Err(DecodeError::InvalidLength));
    assert_eq!(decode("WVgAW"), Err(DecodeError::InvalidLength));
    assert_eq!(decode("\u{e9}AB"), Err(DecodeError::InvalidLength));
}

#[test]
fn invalid_character_is_refused() {
    assert_eq!(decode("AB\u{1}A"), Err(DecodeError::InvalidCharacter('\u{1}')));
    assert_eq!(decode("=AAA"), Err(DecodeError::InvalidCharacter('=')));
    assert_eq!(decode("A=AA"), Err(DecodeError::InvalidCharacter('=')));
    assert_eq!(decode("WVgA=A=="), Err(DecodeError::InvalidCharacter('=')));
    assert_eq!(decode("AA*="), Err(DecodeError::InvalidCharacter('*')));
    assert_eq!(decode("\u{e9}AAA"), Err(DecodeError::InvalidCharacter('\u{e9}')));
    assert_eq!(decode("A.B,"), Err(DecodeError::InvalidCharacter('.')));
}
