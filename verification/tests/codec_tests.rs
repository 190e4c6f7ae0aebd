use std::collections::HashMap;

use stroke_db::codec::decode_pairs;
use stroke_db::codec::encode_pairs;
use stroke_db::errors::EditError;
use stroke_db::point::Point;

fn pt(x: u16, y: u16) -> Point {
    Point { x, y }
}

fn sample_pairs() -> Vec<(char, Vec<Vec<Point>>)> {
    vec![
        ('A', vec![vec![pt(0, 0), pt(65535, 65535)]]),
        // Duplicate stroke shapes across characters are fine.
        ('人', vec![vec![pt(50, 50)], vec![pt(1, 2), pt(3, 4)]]),
        ('大', vec![vec![pt(50, 50)], vec![pt(1, 2), pt(3, 4)]]),
        // A four-byte character exercises the widest UTF-8 form.
        ('𠀀', vec![vec![pt(7, 8)]]),
    ]
}

#[test]
fn round_trip_empty_database() {
    let pairs: Vec<(char, Vec<Vec<Point>>)> = vec![];
    let bytes = encode_pairs(&pairs);
    assert_eq!(bytes, vec![0u8; 8]);
    assert_eq!(decode_pairs(&bytes), Ok(vec![]));
}

#[test]
fn round_trip_single_character() {
    let pairs = vec![('人', vec![vec![pt(50, 50)]])];
    let bytes = encode_pairs(&pairs);
    assert_eq!(decode_pairs(&bytes), Ok(pairs));
}

#[test]
fn round_trip_multi_character_with_duplicate_shapes() {
    let pairs = sample_pairs();
    let bytes = encode_pairs(&pairs);
    assert_eq!(decode_pairs(&bytes), Ok(pairs));
}

#[test]
fn encoding_is_deterministic() {
    let a = encode_pairs(&sample_pairs());
    let b = encode_pairs(&sample_pairs());
    assert_eq!(a, b);
}

#[test]
fn exact_bytes_of_one_ascii_pair() {
    // One pair: 'A' with one stroke of one point (3, 4).
    let pairs = vec![('A', vec![vec![pt(3, 4)]])];
    let bytes = encode_pairs(&pairs);
    let expected: Vec<u8> = vec![
        1, 0, 0, 0, 0, 0, 0, 0, // one pair
        0x41, // 'A'
        1, 0, 0, 0, 0, 0, 0, 0, // one stroke
        1, 0, 0, 0, 0, 0, 0, 0, // one point
        3, 0, 4, 0, // x = 3, y = 4, little-endian
    ];
    assert_eq!(bytes, expected);
}

#[test]
fn truncated_input_is_malformed() {
    let bytes = encode_pairs(&sample_pairs());
    for cut in [0, 1, 7, 8, 9, bytes.len() - 1] {
        let shorter: Vec<u8> = bytes[..cut].to_vec();
        assert_eq!(decode_pairs(&shorter), Err(EditError::MalformedData));
    }
}

#[test]
fn trailing_garbage_is_malformed() {
    let mut bytes = encode_pairs(&sample_pairs());
    bytes.push(0);
    assert_eq!(decode_pairs(&bytes), Err(EditError::MalformedData));
}

#[test]
fn invalid_character_bytes_are_malformed() {
    // One pair whose character byte is a lone continuation byte.
    let mut bytes: Vec<u8> = vec![1, 0, 0, 0, 0, 0, 0, 0];
    bytes.push(0x80);
    bytes.extend_from_slice(&[0, 0, 0, 0, 0, 0, 0, 0]);
    assert_eq!(decode_pairs(&bytes), Err(EditError::MalformedData));
}

#[test]
fn overlong_character_encoding_is_malformed() {
    // 0xC0 0x80 is an overlong encoding of NUL and must be rejected.
    let mut bytes: Vec<u8> = vec![1, 0, 0, 0, 0, 0, 0, 0];
    bytes.extend_from_slice(&[0xC0, 0x80]);
    bytes.extend_from_slice(&[0, 0, 0, 0, 0, 0, 0, 0]);
    assert_eq!(decode_pairs(&bytes), Err(EditError::MalformedData));
}

#[test]
fn round_trip_across_utf8_width_boundaries() {
    let chars = ['\u{1}', '\u{7F}', '\u{80}', '\u{7FF}', '\u{800}', '\u{D7FF}', '\u{E000}',
        '\u{FFFF}', '\u{10000}', '\u{10FFFF}'];
    let pairs: Vec<(char, Vec<Vec<Point>>)> =
        chars.iter().map(|c| (*c, vec![vec![pt(1, 1)]])).collect();
    let bytes = encode_pairs(&pairs);
    assert_eq!(decode_pairs(&bytes), Ok(pairs));
}

#[test]
fn surrogate_encoding_is_malformed() {
    // ED A0 80 is the UTF-8 bit pattern of the surrogate U+D800.
    let mut bytes: Vec<u8> = vec![1, 0, 0, 0, 0, 0, 0, 0];
    bytes.extend_from_slice(&[0xED, 0xA0, 0x80]);
    bytes.extend_from_slice(&[0, 0, 0, 0, 0, 0, 0, 0]);
    assert_eq!(decode_pairs(&bytes), Err(EditError::MalformedData));
}

#[test]
fn code_point_beyond_unicode_is_malformed() {
    // F4 90 80 80 would encode 0x110000, one past the last scalar.
    let mut bytes: Vec<u8> = vec![1, 0, 0, 0, 0, 0, 0, 0];
    bytes.extend_from_slice(&[0xF4, 0x90, 0x80, 0x80]);
    bytes.extend_from_slice(&[0, 0, 0, 0, 0, 0, 0, 0]);
    assert_eq!(decode_pairs(&bytes), Err(EditError::MalformedData));
}

#[test]
fn oversized_count_is_malformed() {
    // A pair count far beyond what the bytes can hold.
    let bytes: Vec<u8> = vec![0xFF; 16];
    assert_eq!(decode_pairs(&bytes), Err(EditError::MalformedData));
}

/// The wire format matches what the rest of the world writes for
/// `Vec<(char, Vec<Vec<(u16, u16)>>)>`: bincode with fixed-width
/// little-endian integers.
#[test]
fn bytes_agree_with_bincode_serialize() {
    let pairs = sample_pairs();
    let plain: Vec<(char, Vec<Vec<(u16, u16)>>)> = pairs
        .iter()
        .map(|(c, e)| (*c, e.iter().map(|s| s.iter().map(|p| (p.x, p.y)).collect()).collect()))
        .collect();
    let ours = encode_pairs(&pairs);
    let theirs: Vec<u8> = bincode::serialize(&plain).unwrap();
    assert_eq!(ours, theirs);
}

#[test]
fn bincode_reads_our_bytes_back() {
    let pairs = sample_pairs();
    let bytes = encode_pairs(&pairs);
    let read: Vec<(char, Vec<Vec<(u16, u16)>>)> = bincode::deserialize(&bytes).unwrap();
    let plain: Vec<(char, Vec<Vec<(u16, u16)>>)> = pairs
        .iter()
        .map(|(c, e)| (*c, e.iter().map(|s| s.iter().map(|p| (p.x, p.y)).collect()).collect()))
        .collect();
    assert_eq!(read, plain);
}

/// The map snapshot uses the same framing as a serialized map, so a map
/// reader accepts it.
#[test]
fn bincode_reads_the_map_form() {
    let mut db = stroke_db::db::Database::new();
    db.add_character('人').unwrap();
    db.add_character('大').unwrap();
    let bytes = stroke_db::export::export_map(&db);
    let read: HashMap<char, Vec<Vec<(u16, u16)>>> = bincode::deserialize(&bytes).unwrap();
    assert_eq!(read.len(), 2);
    assert_eq!(read[&'人'], vec![vec![(50, 50)]]);
    assert_eq!(read[&'大'], vec![vec![(50, 50)]]);
}
