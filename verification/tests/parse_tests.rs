use image_display::{parse, parse_binary_pgm, encode, FormatError, Image};

fn ascii_2x2() -> Vec<u8> {
    b"P2\n2 2\n255\n0 85 170 255\n".to_vec()
}

#[test]
fn parse_ascii_basic() {
    let img = parse(&ascii_2x2()).unwrap();
    assert_eq!(img.width, 2);
    assert_eq!(img.height, 2);
    assert_eq!(img.max_value, 255);
    // row-major: sample k sits at column k % width, row k / width
    assert_eq!(img.get(0, 0), 0);
    assert_eq!(img.get(1, 0), 85);
    assert_eq!(img.get(0, 1), 170);
    assert_eq!(img.get(1, 1), 255);
}

#[test]
fn parse_ascii_with_comments() {
    let buf = b"# a comment\nP2\n# another\n2 2\n# more\n255\n0 85 170 255\n".to_vec();
    let img = parse(&buf).unwrap();
    assert_eq!(img.width, 2);
    assert_eq!(img.height, 2);
    assert_eq!(img.get(1, 0), 85);
}

#[test]
fn parse_ascii_tokens_span_lines() {
    let buf = b"P2\n2\n2\n255\n0\n85\n170\n255\n".to_vec();
    let img = parse(&buf).unwrap();
    assert_eq!(img.width, 2);
    assert_eq!(img.height, 2);
    assert_eq!(img.get(0, 1), 170);
}

#[test]
fn parse_binary_basic() {
    let mut buf = b"P5\n2 2\n255\n".to_vec();
    buf.extend_from_slice(&[0, 85, 170, 255]);
    let img = parse(&buf).unwrap();
    assert_eq!(img.width, 2);
    assert_eq!(img.height, 2);
    assert_eq!(img.max_value, 255);
    assert_eq!(img.get(0, 0), 0);
    assert_eq!(img.get(1, 0), 85);
    assert_eq!(img.get(0, 1), 170);
    assert_eq!(img.get(1, 1), 255);
}

#[test]
fn parse_empty_buffer_is_bad_magic() {
    assert_eq!(parse(&Vec::new()).unwrap_err(), FormatError::BadMagic);
}

#[test]
fn parse_missing_magic() {
    let buf = b"Q7\n2 2\n255\n0 85 170 255\n".to_vec();
    assert_eq!(parse(&buf).unwrap_err(), FormatError::BadMagic);
}

#[test]
fn parse_zero_width() {
    let buf = b"P2\n0 2\n255\n\n".to_vec();
    assert_eq!(parse(&buf).unwrap_err(), FormatError::ZeroDimension);
}

#[test]
fn parse_zero_max_value() {
    let buf = b"P2\n2 2\n0\n0 85 170 255\n".to_vec();
    assert_eq!(parse(&buf).unwrap_err(), FormatError::NonPositiveMaxValue);
}

#[test]
fn parse_too_few_samples_ascii() {
    let buf = b"P2\n2 2\n255\n0 85 170\n".to_vec();
    assert_eq!(parse(&buf).unwrap_err(), FormatError::InsufficientSamples);
}

#[test]
fn parse_too_few_samples_binary() {
    let mut buf = b"P5\n2 2\n255\n".to_vec();
    buf.extend_from_slice(&[0, 85, 170]);
    assert_eq!(parse(&buf).unwrap_err(), FormatError::InsufficientSamples);
}

#[test]
fn parse_non_numeric_header() {
    let buf = b"P2\nx 2\n255\n0 85 170 255\n".to_vec();
    assert_eq!(parse(&buf).unwrap_err(), FormatError::MalformedHeader);
}

#[test]
fn parse_clamps_samples_to_max_value() {
    let buf = b"P2\n2 1\n100\n40 200\n".to_vec();
    let img = parse(&buf).unwrap();
    assert_eq!(img.get(0, 0), 40);
    assert_eq!(img.get(1, 0), 100);
}

#[test]
fn parse_binary_ignores_extra_trailing_bytes() {
    let mut buf = b"P5\n2 1\n255\n".to_vec();
    buf.extend_from_slice(&[10, 20, 99, 99]);
    let img = parse(&buf).unwrap();
    assert_eq!(img.samples, vec![10, 20]);
}

#[test]
fn parse_binary_clamps_bytes_above_max_value() {
    let mut buf = b"P5\n2 1\n100\n".to_vec();
    buf.extend_from_slice(&[40, 200]);
    let img = parse(&buf).unwrap();
    assert_eq!(img.get(0, 0), 40);
    assert_eq!(img.get(1, 0), 100);
}

#[test]
fn round_trip_ascii() {
    let img = parse(&ascii_2x2()).unwrap();
    let again = parse(&encode(&img)).unwrap();
    assert_eq!(again.width, img.width);
    assert_eq!(again.height, img.height);
    assert_eq!(again.max_value, img.max_value);
    assert_eq!(again.samples, img.samples);
}

#[test]
fn round_trip_binary() {
    let mut buf = b"P5\n3 1\n200\n".to_vec();
    buf.extend_from_slice(&[7, 0, 200]);
    let img = parse(&buf).unwrap();
    let again = parse(&encode(&img)).unwrap();
    assert_eq!(again.width, 3);
    assert_eq!(again.height, 1);
    assert_eq!(again.max_value, 200);
    assert_eq!(again.samples, vec![7, 0, 200]);
}

#[test]
fn encode_output_shape() {
    let img = Image { width: 2, height: 1, max_value: 9, samples: vec![3, 9] };
    assert_eq!(encode(&img), b"P2\n2\n1\n9\n3\n9\n".to_vec());
}

#[test]
fn binary_expansion_keeps_header_and_expands_bytes() {
    let mut buf = b"P5\n2 1\n255\n".to_vec();
    buf.extend_from_slice(&[0, 137]);
    let out = parse_binary_pgm(&buf);
    assert_eq!(out, b"P5\n2 1\n255\n0\n137\n".to_vec());
}

#[test]
fn binary_expansion_of_short_buffer_is_identity() {
    let buf = b"P5\nab".to_vec();
    assert_eq!(parse_binary_pgm(&buf), buf);
}
