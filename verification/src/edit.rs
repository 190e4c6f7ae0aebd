//! Point sequence editor: in-place insert, replace and delete of points
//! within a single stroke, with cursor-index bookkeeping.
//!
//! Each operation takes the target index and, where a point is to be written,
//! the staged point (the last coordinate the user clicked).  On success it
//! returns the cursor index that should be selected afterwards; on failure it
//! reports a typed error and leaves the stroke untouched.

use vstd::prelude::*;

use crate::errors::EditError;
use crate::point::Point;

verus! {

/// Lifts an executable cursor result to its mathematical form.
pub open spec fn cursor_view(r: Result<usize, EditError>) -> Result<int, EditError> {
    match r {
        Ok(i) => Ok(i as int),
        Err(e) => Err(e),
    }
}

/// What `replace_at` does: overwrite the point at `index` with the staged
/// point; the cursor stays where it was.
pub open spec fn replace_at_spec(ps: Seq<Point>, index: int, staged: Option<Point>) -> (Seq<
    Point,
>, Result<int, EditError>) {
    if staged is None {
        (ps, Err(EditError::NoStagedPoint))
    } else if 0 <= index < ps.len() {
        (ps.update(index, staged.unwrap()), Ok(index))
    } else {
        (ps, Err(EditError::IndexOutOfRange))
    }
}

/// What `insert_before` does: the staged point comes to occupy `index`,
/// shifting the rest right; the cursor stays at `index`, which now names the
/// new point.  Inserting at `len` appends.
pub open spec fn insert_before_spec(ps: Seq<Point>, index: int, staged: Option<Point>) -> (Seq<
    Point,
>, Result<int, EditError>) {
    if staged is None {
        (ps, Err(EditError::NoStagedPoint))
    } else if 0 <= index <= ps.len() {
        (ps.insert(index, staged.unwrap()), Ok(index))
    } else {
        (ps, Err(EditError::IndexOutOfRange))
    }
}

/// What `insert_after` does: the staged point is inserted at `index + 1` and
/// the cursor advances by one to track it.
pub open spec fn insert_after_spec(ps: Seq<Point>, index: int, staged: Option<Point>) -> (Seq<
    Point,
>, Result<int, EditError>) {
    if staged is None {
        (ps, Err(EditError::NoStagedPoint))
    } else if 0 <= index < ps.len() {
        (ps.insert(index + 1, staged.unwrap()), Ok(index + 1))
    } else {
        (ps, Err(EditError::IndexOutOfRange))
    }
}

/// What `delete_at` does: remove the point at `index`, refusing to delete the
/// last remaining point.  If the removed index was the last one, the cursor
/// steps back by one so it still names a valid point.
pub open spec fn delete_at_spec(ps: Seq<Point>, index: int) -> (Seq<Point>, Result<
    int,
    EditError,
>) {
    if ps.len() <= 1 {
        (ps, Err(EditError::LastPointProtected))
    } else if 0 <= index < ps.len() {
        (ps.remove(index), Ok(if index == ps.len() - 1 { index - 1 } else { index }))
    } else {
        (ps, Err(EditError::IndexOutOfRange))
    }
}

/// Overwrites the point at `index` with the staged point.
pub fn replace_at(ps: &mut Vec<Point>, index: usize, staged: Option<Point>) -> (r: Result<
    usize,
    EditError,
>)
    ensures
        (final(ps)@, cursor_view(r)) == replace_at_spec(old(ps)@, index as int, staged),
{
    match staged {
        None => Err(EditError::NoStagedPoint),
        Some(p) => {
            if index < ps.len() {
                ps[index] = p;
                Ok(index)
            } else {
                Err(EditError::IndexOutOfRange)
            }
        },
    }
}

/// Inserts the staged point so that it occupies `index`.
pub fn insert_before(ps: &mut Vec<Point>, index: usize, staged: Option<Point>) -> (r: Result<
    usize,
    EditError,
>)
    ensures
        (final(ps)@, cursor_view(r)) == insert_before_spec(old(ps)@, index as int, staged),
{
    match staged {
        None => Err(EditError::NoStagedPoint),
        Some(p) => {
            if index <= ps.len() {
                ps.insert(index, p);
                Ok(index)
            } else {
                Err(EditError::IndexOutOfRange)
            }
        },
    }
}

/// Inserts the staged point right after `index` and advances the cursor.
pub fn insert_after(ps: &mut Vec<Point>, index: usize, staged: Option<Point>) -> (r: Result<
    usize,
    EditError,
>)
    ensures
        (final(ps)@, cursor_view(r)) == insert_after_spec(old(ps)@, index as int, staged),
{
    match staged {
        None => Err(EditError::NoStagedPoint),
        Some(p) => {
            if index < ps.len() {
                ps.insert(index + 1, p);
                Ok(index + 1)
            } else {
                Err(EditError::IndexOutOfRange)
            }
        },
    }
}

/// Removes the point at `index`; a stroke always keeps at least one point.
pub fn delete_at(ps: &mut Vec<Point>, index: usize) -> (r: Result<usize, EditError>)
    ensures
        (final(ps)@, cursor_view(r)) == delete_at_spec(old(ps)@, index as int),
{
    if ps.len() <= 1 {
        Err(EditError::LastPointProtected)
    } else if index < ps.len() {
        ps.remove(index);
        if index == ps.len() {
            Ok(index - 1)
        } else {
            Ok(index)
        }
    } else {
        Err(EditError::IndexOutOfRange)
    }
}

} // verus!
