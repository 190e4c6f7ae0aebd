use stroke_db::errors::EditError;
use stroke_db::point::Point;
use stroke_db::strokes::Destination;
use stroke_db::strokes::Direction;
use stroke_db::strokes::add_stroke;
use stroke_db::strokes::delete_stroke;
use stroke_db::strokes::move_adjacent;
use stroke_db::strokes::move_block;

fn pt(x: u16, y: u16) -> Point {
    Point { x, y }
}

/// Five distinguishable single-point strokes.
fn five() -> Vec<Vec<Point>> {
    (0..5u16).map(|i| vec![pt(i, i)]).collect()
}

#[test]
fn add_stroke_appends_default() {
    let mut entry = vec![vec![pt(1, 1)]];
    add_stroke(&mut entry);
    assert_eq!(entry.len(), 2);
    assert_eq!(entry[1], vec![pt(50, 50)]);
}

#[test]
fn delete_stroke_removes_at_index() {
    let mut entry = five();
    assert_eq!(delete_stroke(&mut entry, 2), Ok(()));
    assert_eq!(entry, vec![vec![pt(0, 0)], vec![pt(1, 1)], vec![pt(3, 3)], vec![pt(4, 4)]]);
    assert_eq!(delete_stroke(&mut entry, 4), Err(EditError::IndexOutOfRange));
    assert_eq!(entry.len(), 4);
}

#[test]
fn move_forward_then_backward_restores_order() {
    let original = five();
    let mut entry = five();
    let r = move_adjacent(&mut entry, 2, Direction::Forward);
    assert_eq!(r, Ok(1));
    assert_eq!(entry[1], vec![pt(2, 2)]);
    assert_eq!(entry[2], vec![pt(1, 1)]);
    let r = move_adjacent(&mut entry, 1, Direction::Backward);
    assert_eq!(r, Ok(2));
    assert_eq!(entry, original);
}

#[test]
fn move_forward_at_first_is_a_failing_no_op() {
    let original = five();
    let mut entry = five();
    let r = move_adjacent(&mut entry, 0, Direction::Forward);
    assert_eq!(r, Err(EditError::BoundaryReached));
    assert_eq!(entry, original);
}

#[test]
fn move_backward_at_last_is_a_failing_no_op() {
    let original = five();
    let mut entry = five();
    let r = move_adjacent(&mut entry, 4, Direction::Backward);
    assert_eq!(r, Err(EditError::BoundaryReached));
    assert_eq!(entry, original);
}

#[test]
fn move_block_adjacent_shifts_block_right_by_one() {
    // [s0,s1,s2,s3,s4], block of 2 at index 1 -> [s0,s3,s1,s2,s4]
    let mut entry = five();
    let r = move_block(&mut entry, 1, 2, Destination::Adjacent);
    assert_eq!(r, Ok(2));
    assert_eq!(
        entry,
        vec![vec![pt(0, 0)], vec![pt(3, 3)], vec![pt(1, 1)], vec![pt(2, 2)], vec![pt(4, 4)]]
    );
}

#[test]
fn move_block_adjacent_preserves_length_and_contents() {
    let mut entry = five();
    let mut before = entry.clone();
    let r = move_block(&mut entry, 0, 3, Destination::Adjacent);
    assert_eq!(r, Ok(1));
    assert_eq!(entry.len(), 5);
    // Same strokes, rearranged: sorting both sides recovers equality.
    let mut after = entry.clone();
    before.sort_by_key(|s| (s[0].x, s[0].y));
    after.sort_by_key(|s| (s[0].x, s[0].y));
    assert_eq!(before, after);
    // The moved block keeps its internal order.
    assert_eq!(&entry[1..4], &[vec![pt(0, 0)], vec![pt(1, 1)], vec![pt(2, 2)]]);
}

#[test]
fn move_block_to_end_appends_block_as_suffix() {
    // [s0,s1,s2,s3,s4], move_block(index=1, count=2, end) -> [s0,s3,s4,s1,s2]
    let mut entry = five();
    let r = move_block(&mut entry, 1, 2, Destination::End);
    assert_eq!(r, Ok(3));
    assert_eq!(
        entry,
        vec![vec![pt(0, 0)], vec![pt(3, 3)], vec![pt(4, 4)], vec![pt(1, 1)], vec![pt(2, 2)]]
    );
}

#[test]
fn move_block_of_three_to_end() {
    let mut entry = five();
    let r = move_block(&mut entry, 0, 3, Destination::End);
    assert_eq!(r, Ok(2));
    assert_eq!(
        entry,
        vec![vec![pt(3, 3)], vec![pt(4, 4)], vec![pt(0, 0)], vec![pt(1, 1)], vec![pt(2, 2)]]
    );
}

#[test]
fn move_block_of_one_behaves_like_the_general_algorithm() {
    // A block of one to the end appends that stroke as the new suffix.
    let mut entry = five();
    let r = move_block(&mut entry, 1, 1, Destination::End);
    assert_eq!(r, Ok(4));
    assert_eq!(
        entry,
        vec![vec![pt(0, 0)], vec![pt(2, 2)], vec![pt(3, 3)], vec![pt(4, 4)], vec![pt(1, 1)]]
    );
    // A block of one moved adjacently is a single swap with the successor.
    let mut entry = five();
    let r = move_block(&mut entry, 1, 1, Destination::Adjacent);
    assert_eq!(r, Ok(2));
    assert_eq!(
        entry,
        vec![vec![pt(0, 0)], vec![pt(2, 2)], vec![pt(1, 1)], vec![pt(3, 3)], vec![pt(4, 4)]]
    );
}

#[test]
fn move_block_needs_enough_strokes() {
    let original = five();
    let mut entry = five();
    let r = move_block(&mut entry, 4, 2, Destination::Adjacent);
    assert_eq!(r, Err(EditError::InsufficientLength));
    assert_eq!(entry, original);

    let mut short: Vec<Vec<Point>> = vec![vec![pt(1, 1)]];
    let r = move_block(&mut short, 0, 2, Destination::End);
    assert_eq!(r, Err(EditError::InsufficientLength));
    assert_eq!(short, vec![vec![pt(1, 1)]]);
}

#[test]
fn move_block_already_at_end_is_refused() {
    let original = five();
    let mut entry = five();
    let r = move_block(&mut entry, 3, 2, Destination::End);
    assert_eq!(r, Err(EditError::AlreadyAtEnd));
    assert_eq!(entry, original);
}
