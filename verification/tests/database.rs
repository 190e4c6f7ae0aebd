use stroke_db::db::Database;
use stroke_db::errors::EditError;
use stroke_db::export::export_vector;
use stroke_db::point::Point;

fn pt(x: u16, y: u16) -> Point {
    Point { x, y }
}

#[test]
fn add_character_seeds_one_default_stroke() {
    let mut db = Database::new();
    assert_eq!(db.len(), 0);
    let r = db.add_character('人');
    assert_eq!(r, Ok(0));
    assert_eq!(db.len(), 1);
    assert_eq!(db.char_at(0), '人');
    assert_eq!(db.entry_at(0), &vec![vec![pt(50, 50)]]);
}

#[test]
fn roster_stays_sorted_by_code_point() {
    let mut db = Database::new();
    assert_eq!(db.add_character('大'), Ok(0));
    assert_eq!(db.add_character('人'), Ok(0));
    assert_eq!(db.add_character('一'), Ok(0));
    // '一' U+4E00 < '人' U+4EBA < '大' U+5927
    assert_eq!(db.char_at(0), '一');
    assert_eq!(db.char_at(1), '人');
    assert_eq!(db.char_at(2), '大');
}

#[test]
fn add_existing_character_reports_index_and_changes_nothing() {
    let mut db = Database::new();
    db.add_character('人').unwrap();
    db.add_character('大').unwrap();
    let before = export_vector(&db);
    let r = db.add_character('人');
    assert_eq!(r, Err(EditError::AlreadyExists(0)));
    let after = export_vector(&db);
    assert_eq!(before, after);
}

#[test]
fn lookup_finds_entries_and_guards_unknown() {
    let mut db = Database::new();
    db.add_character('人').unwrap();
    assert_eq!(db.lookup('人'), Ok(&vec![vec![pt(50, 50)]]));
    assert_eq!(db.lookup('大'), Err(EditError::UnknownCharacter));
}

#[test]
fn find_by_prefix_takes_the_first_character() {
    let mut db = Database::new();
    db.add_character('人').unwrap();
    db.add_character('大').unwrap();
    assert_eq!(db.find_by_prefix("大家"), Ok(1));
    assert_eq!(db.find_by_prefix("人"), Ok(0));
    assert_eq!(db.find_by_prefix("小"), Err(EditError::NotFound));
    assert_eq!(db.find_by_prefix(""), Err(EditError::NotFound));
}

#[test]
fn from_pairs_rebuilds_roster_and_map() {
    let pairs = vec![
        ('人', vec![vec![pt(1, 1), pt(2, 2)]]),
        ('大', vec![vec![pt(3, 3)], vec![pt(4, 4)]]),
    ];
    let db = Database::from_pairs(pairs).unwrap();
    assert_eq!(db.len(), 2);
    assert_eq!(db.char_at(0), '人');
    assert_eq!(db.entry_at(0), &vec![vec![pt(1, 1), pt(2, 2)]]);
    assert_eq!(db.char_at(1), '大');
    assert_eq!(db.entry_at(1), &vec![vec![pt(3, 3)], vec![pt(4, 4)]]);
}

#[test]
fn from_pairs_lets_the_later_duplicate_win() {
    let pairs = vec![
        ('人', vec![vec![pt(1, 1)]]),
        ('大', vec![vec![pt(2, 2)]]),
        ('人', vec![vec![pt(9, 9)]]),
    ];
    let db = Database::from_pairs(pairs).unwrap();
    // The roster holds each character once, and the later entry won.
    assert_eq!(db.len(), 2);
    assert_eq!(db.char_at(0), '人');
    assert_eq!(db.entry_at(0), &vec![vec![pt(9, 9)]]);
    assert_eq!(db.char_at(1), '大');
}

#[test]
fn from_pairs_refuses_an_empty_stroke() {
    let pairs = vec![('人', vec![vec![pt(1, 1)], vec![]])];
    match Database::from_pairs(pairs) {
        Err(e) => assert_eq!(e, EditError::MalformedData),
        Ok(_) => panic!("a pair with an empty stroke must be refused"),
    }
}
