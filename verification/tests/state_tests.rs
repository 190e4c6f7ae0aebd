use stroke_db::db::Database;
use stroke_db::errors::EditError;
use stroke_db::point::Point;
use stroke_db::state::AppState;
use stroke_db::state::Command;

fn pt(x: u16, y: u16) -> Point {
    Point { x, y }
}

/// Roster ['人', '大'], entry for '人' seeded with one default stroke.
fn two_char_state() -> AppState {
    let mut db = Database::new();
    db.add_character('人').unwrap();
    db.add_character('大').unwrap();
    AppState::new(db)
}

/// Add a stroke, stage a click, insert after: the full editing scenario.
#[test]
fn add_stroke_then_insert_after() {
    let mut st = two_char_state();
    assert_eq!(st.dispatch(Command::SelectCharacter(0)), Ok(()));
    assert_eq!(st.db.entry_at(0), &vec![vec![pt(50, 50)]]);

    assert_eq!(st.dispatch(Command::AddStroke), Ok(()));
    assert_eq!(st.db.entry_at(0).len(), 2);
    assert_eq!(st.db.entry_at(0)[1], vec![pt(50, 50)]);

    // A click at device (60, 40) stages the canvas point (120, 80).
    assert_eq!(st.dispatch(Command::StageClick(60, 40)), Ok(()));
    assert_eq!(st.sel.staged_point, Some(pt(120, 80)));

    assert_eq!(st.dispatch(Command::SelectStroke(1)), Ok(()));
    assert_eq!(st.dispatch(Command::SelectPoint(0)), Ok(()));
    assert_eq!(st.dispatch(Command::InsertAfter), Ok(()));
    assert_eq!(st.db.entry_at(0)[1], vec![pt(50, 50), pt(120, 80)]);
    assert_eq!(st.sel.current_point, 1);
}

#[test]
fn staged_point_survives_commits() {
    // The staged point is not consumed: it can be applied twice in a row.
    let mut st = two_char_state();
    st.dispatch(Command::SelectCharacter(0)).unwrap();
    st.dispatch(Command::StageClick(10, 20)).unwrap();
    st.dispatch(Command::InsertAfter).unwrap();
    st.dispatch(Command::InsertAfter).unwrap();
    assert_eq!(st.db.entry_at(0)[0], vec![pt(50, 50), pt(20, 40), pt(20, 40)]);
}

#[test]
fn point_commands_need_a_staged_point() {
    let mut st = two_char_state();
    st.dispatch(Command::SelectCharacter(0)).unwrap();
    assert_eq!(st.dispatch(Command::Replace), Err(EditError::NoStagedPoint));
    assert_eq!(st.dispatch(Command::InsertBefore), Err(EditError::NoStagedPoint));
    assert_eq!(st.db.entry_at(0), &vec![vec![pt(50, 50)]]);
}

#[test]
fn delete_point_is_protected_through_dispatch() {
    let mut st = two_char_state();
    st.dispatch(Command::SelectCharacter(0)).unwrap();
    assert_eq!(st.dispatch(Command::DeletePoint), Err(EditError::LastPointProtected));
    assert_eq!(st.db.entry_at(0), &vec![vec![pt(50, 50)]]);
}

#[test]
fn move_commands_update_the_cursor() {
    let mut st = two_char_state();
    st.dispatch(Command::SelectCharacter(0)).unwrap();
    st.dispatch(Command::AddStroke).unwrap();
    st.dispatch(Command::AddStroke).unwrap();
    // Three strokes now; select the middle one and move it forward.
    st.dispatch(Command::SelectStroke(1)).unwrap();
    assert_eq!(st.dispatch(Command::MoveForward), Ok(()));
    assert_eq!(st.sel.current_stroke, 0);
    assert_eq!(st.dispatch(Command::MoveForward), Err(EditError::BoundaryReached));
    assert_eq!(st.dispatch(Command::MoveBackward), Ok(()));
    assert_eq!(st.sel.current_stroke, 1);
}

#[test]
fn move_block_commands_report_their_errors() {
    let mut st = two_char_state();
    st.dispatch(Command::SelectCharacter(0)).unwrap();
    st.dispatch(Command::AddStroke).unwrap();
    // Two strokes: a block of two starting at 0 is already the suffix.
    st.dispatch(Command::SelectStroke(0)).unwrap();
    assert_eq!(st.dispatch(Command::MoveBlockEnd(2)), Err(EditError::AlreadyAtEnd));
    assert_eq!(st.dispatch(Command::MoveBlockAdjacent(3)), Err(EditError::InsufficientLength));
}

#[test]
fn move_block_through_dispatch_moves_the_block() {
    let mut st = two_char_state();
    st.dispatch(Command::SelectCharacter(0)).unwrap();
    for _ in 0..4 {
        st.dispatch(Command::AddStroke).unwrap();
    }
    // Make the five strokes distinguishable: set stroke i's point to (i, i).
    for i in 0..5u16 {
        st.dispatch(Command::SelectStroke(i as usize)).unwrap();
        st.dispatch(Command::SelectPoint(0)).unwrap();
        st.dispatch(Command::StageClick(i, i)).unwrap();
        st.dispatch(Command::Replace).unwrap();
    }
    st.dispatch(Command::SelectStroke(1)).unwrap();
    assert_eq!(st.dispatch(Command::MoveBlockEnd(2)), Ok(()));
    assert_eq!(st.sel.current_stroke, 3);
    let shapes: Vec<u16> = st.db.entry_at(0).iter().map(|s| s[0].x).collect();
    assert_eq!(shapes, vec![0, 6, 8, 2, 4]);
}

#[test]
fn add_character_selects_the_new_entry() {
    let mut st = two_char_state();
    assert_eq!(st.dispatch(Command::AddCharacter('一')), Ok(()));
    assert_eq!(st.sel.current_character, 0);
    assert_eq!(st.db.len(), 3);
    assert_eq!(
        st.dispatch(Command::AddCharacter('人')),
        Err(EditError::AlreadyExists(1))
    );
    assert_eq!(st.db.len(), 3);
}

#[test]
fn select_by_prefix_moves_the_cursor() {
    let mut st = two_char_state();
    assert_eq!(st.select_by_prefix("大"), Ok(1));
    assert_eq!(st.sel.current_character, 1);
    assert_eq!(st.select_by_prefix("小"), Err(EditError::NotFound));
    assert_eq!(st.sel.current_character, 1);
}

#[test]
fn selection_commands_check_their_indices() {
    let mut st = two_char_state();
    assert_eq!(st.dispatch(Command::SelectCharacter(2)), Err(EditError::IndexOutOfRange));
    st.dispatch(Command::SelectCharacter(0)).unwrap();
    assert_eq!(st.dispatch(Command::SelectStroke(1)), Err(EditError::IndexOutOfRange));
    assert_eq!(st.dispatch(Command::SelectPoint(1)), Err(EditError::IndexOutOfRange));
}
