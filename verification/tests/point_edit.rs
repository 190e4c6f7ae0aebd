use stroke_db::edit::delete_at;
use stroke_db::edit::insert_after;
use stroke_db::edit::insert_before;
use stroke_db::edit::replace_at;
use stroke_db::errors::EditError;
use stroke_db::point::Point;

fn pt(x: u16, y: u16) -> Point {
    Point { x, y }
}

#[test]
fn replace_overwrites_in_place() {
    let mut stroke = vec![pt(1, 1), pt(2, 2), pt(3, 3)];
    let r = replace_at(&mut stroke, 1, Some(pt(9, 9)));
    assert_eq!(r, Ok(1));
    assert_eq!(stroke, vec![pt(1, 1), pt(9, 9), pt(3, 3)]);
}

#[test]
fn replace_without_staged_point_fails() {
    let mut stroke = vec![pt(1, 1)];
    let r = replace_at(&mut stroke, 0, None);
    assert_eq!(r, Err(EditError::NoStagedPoint));
    assert_eq!(stroke, vec![pt(1, 1)]);
}

#[test]
fn replace_bad_index_fails() {
    let mut stroke = vec![pt(1, 1)];
    let r = replace_at(&mut stroke, 1, Some(pt(9, 9)));
    assert_eq!(r, Err(EditError::IndexOutOfRange));
    assert_eq!(stroke, vec![pt(1, 1)]);
}

#[test]
fn insert_before_keeps_cursor() {
    let mut stroke = vec![pt(1, 1), pt(2, 2)];
    let r = insert_before(&mut stroke, 1, Some(pt(9, 9)));
    assert_eq!(r, Ok(1));
    assert_eq!(stroke, vec![pt(1, 1), pt(9, 9), pt(2, 2)]);
}

#[test]
fn insert_before_at_end_appends() {
    let mut stroke = vec![pt(1, 1)];
    let r = insert_before(&mut stroke, 1, Some(pt(9, 9)));
    assert_eq!(r, Ok(1));
    assert_eq!(stroke, vec![pt(1, 1), pt(9, 9)]);
}

#[test]
fn insert_after_advances_cursor() {
    let mut stroke = vec![pt(50, 50)];
    let r = insert_after(&mut stroke, 0, Some(pt(120, 80)));
    assert_eq!(r, Ok(1));
    assert_eq!(stroke, vec![pt(50, 50), pt(120, 80)]);
}

#[test]
fn insert_after_without_staged_point_fails() {
    let mut stroke = vec![pt(1, 1)];
    let r = insert_after(&mut stroke, 0, None);
    assert_eq!(r, Err(EditError::NoStagedPoint));
    assert_eq!(stroke, vec![pt(1, 1)]);
}

#[test]
fn delete_last_point_is_protected() {
    let mut stroke = vec![pt(5, 5)];
    let r = delete_at(&mut stroke, 0);
    assert_eq!(r, Err(EditError::LastPointProtected));
    assert_eq!(stroke, vec![pt(5, 5)]);
}

#[test]
fn delete_from_two_keeps_the_other() {
    let mut stroke = vec![pt(5, 5), pt(6, 6)];
    let r = delete_at(&mut stroke, 0);
    assert_eq!(r, Ok(0));
    assert_eq!(stroke, vec![pt(6, 6)]);

    let mut stroke = vec![pt(5, 5), pt(6, 6)];
    let r = delete_at(&mut stroke, 1);
    assert_eq!(r, Ok(0));
    assert_eq!(stroke, vec![pt(5, 5)]);
}

#[test]
fn delete_of_last_index_steps_cursor_back() {
    let mut stroke = vec![pt(1, 1), pt(2, 2), pt(3, 3)];
    let r = delete_at(&mut stroke, 2);
    assert_eq!(r, Ok(1));
    assert_eq!(stroke, vec![pt(1, 1), pt(2, 2)]);

    let mut stroke = vec![pt(1, 1), pt(2, 2), pt(3, 3)];
    let r = delete_at(&mut stroke, 1);
    assert_eq!(r, Ok(1));
    assert_eq!(stroke, vec![pt(1, 1), pt(3, 3)]);
}

#[test]
fn delete_bad_index_fails() {
    let mut stroke = vec![pt(1, 1), pt(2, 2)];
    let r = delete_at(&mut stroke, 2);
    assert_eq!(r, Err(EditError::IndexOutOfRange));
    assert_eq!(stroke, vec![pt(1, 1), pt(2, 2)]);
}
