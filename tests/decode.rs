use ppm::{pack_rgb, DecodeError, Image};

fn decode(data: &[u8]) -> Result<Image, DecodeError> {
    Image::decode("test.ppm".to_string(), data)
}

fn binary(header: &str, payload: &[u8]) -> Vec<u8> {
    let mut v = header.as_bytes().to_vec();
    v.extend_from_slice(payload);
    v
}

fn err(r: Result<Image, DecodeError>) -> DecodeError {
    match r {
        Ok(_) => panic!("expected an error"),
        Err(e) => e,
    }
}

#[test]
fn minimal_valid_image() {
    let img = decode(&binary("P6\n1 1\n255\n", &[10, 20, 30])).unwrap();
    assert_eq!(img.magic_number, "P6");
    assert_eq!(img.width, 1);
    assert_eq!(img.height, 1);
    assert_eq!(img.max_val, 255);
    assert_eq!(img.filename, "test.ppm");
    assert_eq!(img.to_minifb_buffer(), vec![0x000A141E]);
}

#[test]
fn channel_packing() {
    assert_eq!(pack_rgb(0x12, 0x34, 0x56), 0x00123456);
    let img = Image::new(
        "p".to_string(),
        "P6".to_string(),
        1,
        1,
        255,
        vec![0x12, 0x34, 0x56].into_boxed_slice(),
    );
    assert_eq!(img.to_minifb_buffer(), vec![0x00123456]);
}

#[test]
fn packing_keeps_pixel_order() {
    let img = decode(&binary("P6 2 2 255\n", &[1, 2, 3, 4, 5, 6, 7, 8, 9, 255, 0, 128])).unwrap();
    assert_eq!(
        img.to_minifb_buffer(),
        vec![0x010203, 0x040506, 0x070809, 0xFF0080]
    );
}

#[test]
fn binary_pixel_count() {
    let payload: Vec<u8> = (0..18).collect();
    let img = decode(&binary("P6\n2 3\n255\n", &payload)).unwrap();
    assert_eq!(img.pixels.len(), 2 * 3 * 3);
    assert_eq!(img.pixels, payload);
    assert_eq!(img.to_minifb_buffer().len(), 6);
}

#[test]
fn binary_extra_bytes_are_ignored() {
    let img = decode(&binary("P6\n1 1\n255\n", &[1, 2, 3, 4, 5])).unwrap();
    assert_eq!(img.pixels, vec![1, 2, 3]);
}

#[test]
fn binary_payload_is_not_tokenized() {
    let img = decode(&binary("P6\n1 2\n255\n", b"#\n 1 #")).unwrap();
    assert_eq!(img.pixels, b"#\n 1 #".to_vec());
}

#[test]
fn format_rejection() {
    assert_eq!(err(decode(b"P2\n1 1\n255\n0 0 0\n")), DecodeError::UnsupportedFormat);
    assert_eq!(err(decode(b"P5\n")), DecodeError::UnsupportedFormat);
    assert_eq!(err(decode(b"p6 1 1 255\n")), DecodeError::UnsupportedFormat);
    assert_eq!(err(decode(b"P66 1 1 255\n")), DecodeError::UnsupportedFormat);
}

#[test]
fn truncated_binary_payload() {
    let payload = vec![7u8; 299];
    assert_eq!(
        err(decode(&binary("P6\n10 10\n255\n", &payload))),
        DecodeError::TruncatedPayload
    );
    let payload = vec![7u8; 300];
    let img = decode(&binary("P6\n10 10\n255\n", &payload)).unwrap();
    assert_eq!(img.to_minifb_buffer(), vec![0x070707; 100]);
}

#[test]
fn huge_dimensions_are_truncated() {
    let data = format!("P6\n{} {}\n255\n", usize::MAX, 2);
    assert_eq!(err(decode(data.as_bytes())), DecodeError::TruncatedPayload);
    let data = format!("P3\n{} {}\n255\n1 2 3\n", usize::MAX, usize::MAX);
    assert_eq!(err(decode(data.as_bytes())), DecodeError::TruncatedPayload);
}

#[test]
fn out_of_range_ascii_value() {
    assert_eq!(err(decode(b"P3\n1 1\n255\n256 0 0\n")), DecodeError::InvalidPixelValue);
    assert_eq!(err(decode(b"P3\n1 1\n255\n0 -1 0\n")), DecodeError::InvalidPixelValue);
    assert_eq!(err(decode(b"P3\n1 1\n255\n0 0 abc\n")), DecodeError::InvalidPixelValue);
    assert_eq!(err(decode(b"P3\n1 1\n255\n256\n")), DecodeError::InvalidPixelValue);
}

#[test]
fn ascii_decode() {
    let img = decode(b"P3\n2 1\n255\n255 0 7\n 0 128\t255\n").unwrap();
    assert_eq!(img.magic_number, "P3");
    assert_eq!(img.pixels, vec![255, 0, 7, 0, 128, 255]);
    assert_eq!(img.to_minifb_buffer(), vec![0xFF0007, 0x0080FF]);
}

#[test]
fn ascii_token_count() {
    assert_eq!(err(decode(b"P3\n1 1\n255\n1 2\n")), DecodeError::TruncatedPayload);
    assert_eq!(err(decode(b"P3\n1 1\n255\n")), DecodeError::TruncatedPayload);
    assert_eq!(err(decode(b"P3\n1 1\n255\n1 2 3 4\n")), DecodeError::TrailingData);
    assert!(decode(b"P3\n1 1\n255\n1 2 3\n").is_ok());
}

#[test]
fn ascii_payload_on_header_line_and_comments() {
    let img = decode(b"P3 1 1 255 9\n# a comment 1 2\n8\n  # another\n7").unwrap();
    assert_eq!(img.pixels, vec![9, 8, 7]);
}

#[test]
fn comment_transparency() {
    let plain = binary("P6\n2 1\n255\n", &[1, 2, 3, 4, 5, 6]);
    let commented = binary(
        "# leading\nP6\n# between\n  # indented\n2 1\n#\n255\n",
        &[1, 2, 3, 4, 5, 6],
    );
    let a = decode(&plain).unwrap();
    let b = decode(&commented).unwrap();
    assert_eq!(a.magic_number, b.magic_number);
    assert_eq!((a.width, a.height, a.max_val), (b.width, b.height, b.max_val));
    assert_eq!(a.pixels, b.pixels);
    assert_eq!(a.to_minifb_buffer(), b.to_minifb_buffer());
}

#[test]
fn hash_inside_a_line_is_a_token() {
    assert_eq!(err(decode(b"P6 # 1 1 255\n")), DecodeError::MalformedHeaderField);
}

#[test]
fn missing_fields() {
    assert_eq!(err(decode(b"")), DecodeError::MissingField);
    assert_eq!(err(decode(b"  \n# only a comment\n")), DecodeError::MissingField);
    assert_eq!(err(decode(b"P6\n")), DecodeError::MissingField);
    assert_eq!(err(decode(b"P6\n1\n")), DecodeError::MissingField);
    assert_eq!(err(decode(b"P3\n1 1\n")), DecodeError::MissingField);
}

#[test]
fn malformed_header_fields() {
    assert_eq!(err(decode(b"P6\nx 1\n255\n")), DecodeError::MalformedHeaderField);
    assert_eq!(err(decode(b"P6\n1 -1\n255\n")), DecodeError::MalformedHeaderField);
    assert_eq!(err(decode(b"P6\n1 1\n65536\n")), DecodeError::MalformedHeaderField);
    assert_eq!(
        err(decode(b"P6\n99999999999999999999999 1\n255\n")),
        DecodeError::MalformedHeaderField
    );
    let img = decode(b"P6\n0 0\n65535\n").unwrap();
    assert_eq!(img.max_val, 65535);
    assert!(img.to_minifb_buffer().is_empty());
}

#[test]
fn max_value_is_not_used_to_rescale() {
    let img = decode(b"P3\n1 1\n15\n200 100 15\n").unwrap();
    assert_eq!(img.max_val, 15);
    assert_eq!(img.to_minifb_buffer(), vec![0xC8640F]);
}
