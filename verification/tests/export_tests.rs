use std::io::Read;

use base64::Engine;

use stroke_db::db::Database;
use stroke_db::errors::EditError;
use stroke_db::export::export_map;
use stroke_db::export::export_map_base64;
use stroke_db::export::export_map_bzip2;
use stroke_db::export::export_vector;
use stroke_db::export::load_database;
use stroke_db::export::load_database_bzip2;
use stroke_db::point::Point;

fn pt(x: u16, y: u16) -> Point {
    Point { x, y }
}

fn sample_db() -> Database {
    let pairs = vec![
        ('人', vec![vec![pt(1, 1), pt(2, 2)], vec![pt(50, 50)]]),
        ('大', vec![vec![pt(3, 3)]]),
    ];
    Database::from_pairs(pairs).unwrap()
}

#[test]
fn canonical_export_loads_back_identically() {
    let db = sample_db();
    let bytes = export_vector(&db);
    let again = load_database(&bytes).unwrap();
    assert_eq!(export_vector(&again), bytes);
    assert_eq!(again.len(), db.len());
    assert_eq!(again.char_at(0), '人');
    assert_eq!(again.entry_at(0), db.entry_at(0));
    assert_eq!(again.char_at(1), '大');
    assert_eq!(again.entry_at(1), db.entry_at(1));
}

#[test]
fn empty_database_round_trips() {
    let db = Database::new();
    let bytes = export_vector(&db);
    let again = load_database(&bytes).unwrap();
    assert_eq!(again.len(), 0);
}

#[test]
fn loading_garbage_is_malformed() {
    let bytes = vec![1, 2, 3];
    match load_database(&bytes) {
        Err(e) => assert_eq!(e, EditError::MalformedData),
        Ok(_) => panic!("garbage must not load"),
    }
}

#[test]
fn base64_export_matches_the_reference_encoder() {
    let db = sample_db();
    let ours = export_map_base64(&db);
    let theirs = base64::engine::general_purpose::STANDARD.encode(export_map(&db));
    assert_eq!(ours, theirs);
    assert!(!ours.is_empty());
    assert_ne!(ours.as_bytes(), &export_map(&db)[..]);
}

#[test]
fn bzip2_export_decompresses_to_the_snapshot() {
    let db = sample_db();
    let packed = export_map_bzip2(&db);
    let mut dec = bzip2::read::BzDecoder::new(&packed[..]);
    let mut plain = Vec::new();
    dec.read_to_end(&mut plain).unwrap();
    assert_eq!(plain, export_map(&db));
    assert_ne!(packed, export_map(&db));
}

#[test]
fn bzip2_export_loads_back_identically() {
    let db = sample_db();
    let packed = export_map_bzip2(&db);
    let again = load_database_bzip2(&packed).unwrap();
    assert_eq!(export_vector(&again), export_vector(&db));
}

#[test]
fn bzip2_garbage_is_malformed() {
    let bytes = vec![9, 9, 9, 9];
    match load_database_bzip2(&bytes) {
        Err(e) => assert_eq!(e, EditError::MalformedData),
        Ok(_) => panic!("garbage must not load"),
    }
}
