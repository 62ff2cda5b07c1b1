use photo_scanner::codec::{
    bytes_to_geolocation_parts, string_to_ucs2_little_endian, ucs2_little_endian_to_string,
    GeoError, Ucs2Error,
};

#[test]
fn test_ucs2_little_endian_to_string() {
    let bytes = vec![0x48, 0x00, 0x65, 0x00, 0x6C, 0x00, 0x6C, 0x00, 0x6F, 0x00]; // "Hello" in UCS-2 LE
    let result = ucs2_little_endian_to_string(&bytes).unwrap();
    assert_eq!(result, "Hello");
}

#[test]
fn test_string_to_ucs2_little_endian() {
    let input = "Hello";
    let result = string_to_ucs2_little_endian(input);
    let expected = vec![0x48, 0x00, 0x65, 0x00, 0x6C, 0x00, 0x6C, 0x00, 0x6F, 0x00]; // "Hello" in UCS-2 LE
    assert_eq!(result, expected);
}

#[test]
fn test_invalid_ucs2_little_endian_to_string() {
    let bytes = vec![0x48, 0x00, 0x65]; // Invalid UCS-2 LE
    let result = ucs2_little_endian_to_string(&bytes);
    assert!(result.is_err());
}

#[test]
fn test_ucs2_error_variants() {
    // Odd length is its own error.
    assert_eq!(
        ucs2_little_endian_to_string(&vec![0x48]),
        Err(Ucs2Error::OddLength)
    );
    // A lone high surrogate is an invalid code unit sequence.
    assert_eq!(
        ucs2_little_endian_to_string(&vec![0x3D, 0xD8]),
        Err(Ucs2Error::InvalidCodeUnit)
    );
    // A low surrogate with nothing before it as well.
    assert_eq!(
        ucs2_little_endian_to_string(&vec![0x00, 0xDE]),
        Err(Ucs2Error::InvalidCodeUnit)
    );
}

#[test]
fn test_ucs2_surrogate_pair_round_trip() {
    // U+1F600 encodes as the surrogate pair D83D DE00.
    let text = "a\u{1F600}b";
    let bytes = string_to_ucs2_little_endian(text);
    assert_eq!(bytes, vec![0x61, 0x00, 0x3D, 0xD8, 0x00, 0xDE, 0x62, 0x00]);
    let back = ucs2_little_endian_to_string(&bytes).unwrap();
    assert_eq!(back, text);
}

#[test]
fn test_ucs2_round_trip_plain_text() {
    let text = "Ein Foto aus Zürich";
    let bytes = string_to_ucs2_little_endian(text);
    let back = ucs2_little_endian_to_string(&bytes).unwrap();
    assert_eq!(back, text);
}

#[test]
fn test_vec_u8_to_geoloction() {
    let coord: Vec<u8> = vec![
        0x2A, 0x00, 0x00, 0x00, 0x01, 0x00, 0x00, 0x00, 0x18, 0x00, 0x00, 0x00, 0x01, 0x00, 0x00,
        0x00, 0xE0, 0x07, 0x00, 0x00, 0x64, 0x00, 0x00, 0x00,
    ];
    let parts = bytes_to_geolocation_parts(&coord).unwrap();
    assert_eq!(parts.degrees_num, 42);
    assert_eq!(parts.degrees_den, 1);
    assert_eq!(parts.minutes_num, 24);
    assert_eq!(parts.minutes_den, 1);
    assert_eq!(parts.seconds_num, 2016);
    assert_eq!(parts.seconds_den, 100);
    // 42 + 24/60 + 20.16/3600 = 42.4056 once combined by the caller.
    let combined = parts.degrees_num as f64 / parts.degrees_den as f64
        + (parts.minutes_num as f64 / parts.minutes_den as f64) / 60.0
        + (parts.seconds_num as f64 / parts.seconds_den as f64) / 3600.0;
    assert_eq!(combined, 42.4056);
}

#[test]
fn test_geolocation_parts_wrong_length() {
    assert_eq!(
        bytes_to_geolocation_parts(&vec![0x2A, 0x00]),
        Err(GeoError::WrongLength)
    );
}
