use preset_manager::lsi_parser::{encode_lsi_image, parse_lsi_image};
use preset_manager::types::{Point, PresetError};

fn pt(x: f32, y: f32) -> Point {
    Point::new(x.to_bits(), y.to_bits())
}

#[test]
fn empty_buffer_decodes_to_empty_image() {
    let img = parse_lsi_image(&[]).unwrap();
    assert_eq!(img.len(), 0);
}

#[test]
fn roundtrip_single_polyline() {
    let image = vec![vec![pt(0.5, 0.25), pt(1.0, -2.0), pt(3.5, 4.75)]];
    let bytes = encode_lsi_image(&image);
    let back = parse_lsi_image(bytes.as_slice()).unwrap();
    assert_eq!(back, image);
}

#[test]
fn roundtrip_preserves_order_and_empty_polylines() {
    let image = vec![
        vec![pt(1.0, 2.0), pt(3.0, 4.0)],
        vec![],
        vec![pt(-1.5, 0.0)],
        vec![],
    ];
    let bytes = encode_lsi_image(&image);
    let back = parse_lsi_image(bytes.as_slice()).unwrap();
    assert_eq!(back, image);
}

#[test]
fn roundtrip_empty_image() {
    let image: Vec<Vec<Point>> = vec![];
    let bytes = encode_lsi_image(&image);
    assert!(bytes.is_empty());
    let back = parse_lsi_image(bytes.as_slice()).unwrap();
    assert_eq!(back, image);
}

#[test]
fn encoding_is_little_endian_count_then_points() {
    let image = vec![vec![pt(1.0, 2.0)]];
    let bytes = encode_lsi_image(&image);
    let mut expected = Vec::new();
    expected.extend_from_slice(&1i32.to_le_bytes());
    expected.extend_from_slice(&1.0f32.to_le_bytes());
    expected.extend_from_slice(&2.0f32.to_le_bytes());
    assert_eq!(bytes, expected);
}

#[test]
fn truncated_record_is_malformed() {
    // Declares three points but carries only one.
    let mut bytes = Vec::new();
    bytes.extend_from_slice(&3i32.to_le_bytes());
    bytes.extend_from_slice(&1.0f32.to_le_bytes());
    bytes.extend_from_slice(&2.0f32.to_le_bytes());
    assert_eq!(parse_lsi_image(&bytes), Err(PresetError::MalformedImage));
}

#[test]
fn trailing_bytes_are_malformed() {
    let image = vec![vec![pt(1.0, 2.0)]];
    let mut bytes = encode_lsi_image(&image);
    bytes.push(0);
    assert_eq!(parse_lsi_image(&bytes), Err(PresetError::MalformedImage));
}

#[test]
fn short_header_is_malformed() {
    assert_eq!(parse_lsi_image(&[1, 0]), Err(PresetError::MalformedImage));
}

#[test]
fn negative_count_is_malformed() {
    let bytes = (-1i32).to_le_bytes();
    assert_eq!(parse_lsi_image(&bytes), Err(PresetError::MalformedImage));
}

#[test]
fn zero_count_record_is_one_empty_polyline() {
    let bytes = 0i32.to_le_bytes();
    let img = parse_lsi_image(&bytes).unwrap();
    assert_eq!(img, vec![Vec::<Point>::new()]);
}
