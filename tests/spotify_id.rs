use spotify_id::{FileId, SpotifyId, SpotifyIdError};

#[test]
fn test_base16() {
    let spotify_id_str = "a719283ffb17abcd0192ea49b20139ff";
    let zeros = "00000000000000000000000000000000";
    assert_eq!(spotify_id_str, SpotifyId::from_base16(spotify_id_str).unwrap().to_base16());
    assert_eq!(zeros, SpotifyId::from_base16(zeros).unwrap().to_base16());
}

#[test]
fn test_base62() {
    let spotify_id_str = "6rqhFgbbKwnb9MLmUQDhG6";
    let zeros = "0000000000000000000000";
    assert_eq!(spotify_id_str, SpotifyId::from_base62(spotify_id_str).unwrap().to_base62());
    assert_eq!(zeros, SpotifyId::from_base62(zeros).unwrap().to_base62());
}

const SAMPLES: [u128; 7] = [
    0,
    1,
    61,
    255,
    0x0123_4567_89ab_cdef_fedc_ba98_7654_3210,
    0xa719283ffb17abcd0192ea49b20139ff,
    u128::MAX,
];

#[test]
fn base16_round_trip_on_samples() {
    for v in SAMPLES {
        let text = SpotifyId(v).to_base16();
        assert_eq!(text.len(), 32);
        assert_eq!(SpotifyId::from_base16(&text), Ok(SpotifyId(v)));
    }
}

#[test]
fn base62_round_trip_on_samples() {
    for v in SAMPLES {
        let text = SpotifyId(v).to_base62();
        assert_eq!(text.len(), 22);
        assert_eq!(SpotifyId::from_base62(&text), Ok(SpotifyId(v)));
    }
}

#[test]
fn raw_round_trip_on_samples() {
    for v in SAMPLES {
        let bytes = SpotifyId(v).to_raw();
        assert_eq!(bytes.len(), 16);
        assert_eq!(SpotifyId::from_raw(&bytes), Ok(SpotifyId(v)));
    }
}

#[test]
fn zero_renders_as_zeros() {
    assert_eq!(SpotifyId(0).to_base16(), "0".repeat(32));
    assert_eq!(SpotifyId(0).to_base62(), "0".repeat(22));
}

#[test]
fn base16_values() {
    assert_eq!(SpotifyId::from_base16("ff"), Ok(SpotifyId(255)));
    assert_eq!(SpotifyId::from_base16(""), Ok(SpotifyId(0)));
    assert_eq!(SpotifyId(255).to_base16(), "000000000000000000000000000000ff");
    assert_eq!(SpotifyId(u128::MAX).to_base16(), "f".repeat(32));
    assert_eq!(
        SpotifyId::from_base16("a719283ffb17abcd0192ea49b20139ff"),
        Ok(SpotifyId(0xa719283ffb17abcd0192ea49b20139ff))
    );
}

#[test]
fn base62_values() {
    assert_eq!(SpotifyId::from_base62("10"), Ok(SpotifyId(62)));
    assert_eq!(SpotifyId::from_base62("Z"), Ok(SpotifyId(61)));
    assert_eq!(SpotifyId::from_base62("a"), Ok(SpotifyId(10)));
    assert_eq!(SpotifyId::from_base62("A"), Ok(SpotifyId(36)));
    assert_eq!(SpotifyId(62 * 62 + 61).to_base62(), "000000000000000000010Z");
    assert_eq!(SpotifyId(u128::MAX).to_base62(), "7N42dgm5tFLK9N8MT7fHC7");
}

#[test]
fn base62_sample_value() {
    let id = SpotifyId::from_base62("6rqhFgbbKwnb9MLmUQDhG6").unwrap();
    let mut expected: u128 = 0;
    for c in "6rqhFgbbKwnb9MLmUQDhG6".chars() {
        let d = "0123456789abcdefghijklmnopqrstuvwxyzABCDEFGHIJKLMNOPQRSTUVWXYZ"
            .find(c)
            .unwrap() as u128;
        expected = expected * 62 + d;
    }
    assert_eq!(id, SpotifyId(expected));
}

#[test]
fn invalid_base16_digit() {
    assert_eq!(SpotifyId::from_base16("g"), Err(SpotifyIdError::InvalidDigit));
    assert_eq!(SpotifyId::from_base16("0A"), Err(SpotifyIdError::InvalidDigit));
    assert_eq!(SpotifyId::from_base16("12 4"), Err(SpotifyIdError::InvalidDigit));
    assert_eq!(SpotifyId::from_base16("\u{00e9}"), Err(SpotifyIdError::InvalidDigit));
}

#[test]
fn invalid_base62_digit() {
    assert_eq!(SpotifyId::from_base62("6rqh gbb"), Err(SpotifyIdError::InvalidDigit));
    assert_eq!(SpotifyId::from_base62("-1"), Err(SpotifyIdError::InvalidDigit));
    assert_eq!(SpotifyId::from_base62("ab\u{00e9}"), Err(SpotifyIdError::InvalidDigit));
}

#[test]
fn invalid_digit_wins_over_overflow() {
    let text = format!("{}g", "f".repeat(40));
    assert_eq!(SpotifyId::from_base16(&text), Err(SpotifyIdError::InvalidDigit));
    let text = format!("{} ", "Z".repeat(30));
    assert_eq!(SpotifyId::from_base62(&text), Err(SpotifyIdError::InvalidDigit));
}

#[test]
fn base16_overflow() {
    assert_eq!(SpotifyId::from_base16(&"f".repeat(33)), Err(SpotifyIdError::Overflow));
    let text = format!("1{}", "0".repeat(32));
    assert_eq!(SpotifyId::from_base16(&text), Err(SpotifyIdError::Overflow));
    let text = format!("0{}", "f".repeat(32));
    assert_eq!(SpotifyId::from_base16(&text), Ok(SpotifyId(u128::MAX)));
}

#[test]
fn base62_overflow() {
    assert_eq!(SpotifyId::from_base62(&"Z".repeat(22)), Err(SpotifyIdError::Overflow));
    assert_eq!(SpotifyId::from_base62("7N42dgm5tFLK9N8MT7fHC8"), Err(SpotifyIdError::Overflow));
    assert_eq!(SpotifyId::from_base62("7N42dgm5tFLK9N8MT7fHC7"), Ok(SpotifyId(u128::MAX)));
}

#[test]
fn raw_layout() {
    let id = SpotifyId(0x0102_0304_0506_0708_090a_0b0c_0d0e_0f10);
    let bytes = id.to_raw();
    assert_eq!(bytes, [1, 2, 3, 4, 5, 6, 7, 8, 9, 10, 11, 12, 13, 14, 15, 16]);
    assert_eq!(SpotifyId::from_raw(&bytes), Ok(id));
    assert_eq!(SpotifyId(1).to_raw(), [0, 0, 0, 0, 0, 0, 0, 0, 0, 0, 0, 0, 0, 0, 0, 1]);
    assert_eq!(SpotifyId(1 << 64).to_raw(), [0, 0, 0, 0, 0, 0, 0, 1, 0, 0, 0, 0, 0, 0, 0, 0]);
    let high_only = [0xffu8, 0, 0, 0, 0, 0, 0, 0, 0, 0, 0, 0, 0, 0, 0, 0];
    assert_eq!(SpotifyId::from_raw(&high_only), Ok(SpotifyId(0xff << 120)));
}

#[test]
fn raw_length_mismatch() {
    assert_eq!(SpotifyId::from_raw(&[0u8; 15]), Err(SpotifyIdError::LengthMismatch));
    assert_eq!(SpotifyId::from_raw(&[0u8; 17]), Err(SpotifyIdError::LengthMismatch));
    assert_eq!(SpotifyId::from_raw(&[]), Err(SpotifyIdError::LengthMismatch));
}

#[test]
fn file_id_base16() {
    let mut bytes = [0u8; 20];
    for (i, b) in bytes.iter_mut().enumerate() {
        *b = i as u8;
    }
    bytes[19] = 0xff;
    bytes[0] = 0x0a;
    let text = FileId(bytes).to_base16();
    assert_eq!(text.len(), 40);
    assert_eq!(text, "0a0102030405060708090a0b0c0d0e0f101112ff");
    assert_eq!(FileId([0u8; 20]).to_base16(), "0".repeat(40));
    assert_eq!(FileId([0xabu8; 20]).to_base16(), "ab".repeat(20));
}
