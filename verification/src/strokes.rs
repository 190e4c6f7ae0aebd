//! Stroke sequence editor: add and delete whole strokes, swap a stroke with
//! its neighbour, and relocate a contiguous block of strokes, all on one
//! character's stroke list.
//!
//! A block move extracts the `count` strokes starting at `index` and reinserts
//! them, in their original order, either immediately after their original
//! position (shifting the block right by one) or at the tail of the list.

use vstd::prelude::*;
use vstd::seq_lib::lemma_multiset_commutative;

use crate::edit::cursor_view;
use crate::errors::EditError;
use crate::point::Point;
use crate::point::default_point;
use crate::point::fresh_point;

verus! {

/// Which neighbour a single-stroke move swaps with: `Forward` moves the
/// stroke one position earlier in draw order, `Backward` one position later.
#[derive(Clone, Copy, Debug, PartialEq, Eq, Structural)]
pub enum Direction {
    Forward,
    Backward,
}

/// Where a block move reinserts the extracted block: right after its original
/// position, or at the tail of the stroke list.
#[derive(Clone, Copy, Debug, PartialEq, Eq, Structural)]
pub enum Destination {
    Adjacent,
    End,
}

/// The mathematical contents of a stroke list: each stroke as its point
/// sequence.
pub open spec fn strokes_view(ss: Seq<Vec<Point>>) -> Seq<Seq<Point>> {
    Seq::new(ss.len(), |i: int| ss[i]@)
}

/// What `add_stroke` does: append a new stroke seeded with one default point.
pub open spec fn add_stroke_spec(ss: Seq<Seq<Point>>) -> Seq<Seq<Point>> {
    ss.push(seq![default_point()])
}

/// What `delete_stroke` does: remove the stroke at `index`.
pub open spec fn delete_stroke_spec(ss: Seq<Seq<Point>>, index: int) -> (Seq<Seq<Point>>, Result<
    (),
    EditError,
>) {
    if 0 <= index < ss.len() {
        (ss.remove(index), Ok(()))
    } else {
        (ss, Err(EditError::IndexOutOfRange))
    }
}

/// What `move_adjacent` does: swap the stroke at `index` with its immediate
/// neighbour and move the cursor onto the stroke's new position.  At the
/// first or last position the neighbour does not exist and the operation
/// reports `BoundaryReached` without mutating.
pub open spec fn move_adjacent_spec(ss: Seq<Seq<Point>>, index: int, dir: Direction) -> (Seq<
    Seq<Point>,
>, Result<int, EditError>) {
    if !(0 <= index < ss.len()) {
        (ss, Err(EditError::IndexOutOfRange))
    } else {
        match dir {
            Direction::Forward => {
                if index == 0 {
                    (ss, Err(EditError::BoundaryReached))
                } else {
                    (ss.update(index - 1, ss[index]).update(index, ss[index - 1]), Ok(index - 1))
                }
            },
            Direction::Backward => {
                if index == ss.len() - 1 {
                    (ss, Err(EditError::BoundaryReached))
                } else {
                    (ss.update(index + 1, ss[index]).update(index, ss[index + 1]), Ok(index + 1))
                }
            },
        }
    }
}

/// What `move_block` does: extract the `count` strokes starting at `index`
/// and reinsert them in original order, either right after their original
/// position (`Adjacent`) or at the tail (`End`).  The cursor lands on the
/// position after the original index for an adjacent move, and on the block's
/// new starting index for a move to the end.
pub open spec fn move_block_spec(
    ss: Seq<Seq<Point>>,
    index: int,
    count: int,
    dest: Destination,
) -> (Seq<Seq<Point>>, Result<int, EditError>) {
    if ss.len() < count || index < 0 || ss.len() - index < count {
        (ss, Err(EditError::InsufficientLength))
    } else if ss.len() - index == count {
        (ss, Err(EditError::AlreadyAtEnd))
    } else {
        let block = ss.subrange(index, index + count);
        let rest = ss.subrange(0, index) + ss.subrange(index + count, ss.len() as int);
        match dest {
            Destination::Adjacent => {
                (
                    rest.subrange(0, index + 1) + block + rest.subrange(
                        index + 1,
                        rest.len() as int,
                    ),
                    Ok(index + 1),
                )
            },
            Destination::End => (rest + block, Ok(ss.len() - count)),
        }
    }
}

/// Appends a new stroke seeded with one default point.  Always succeeds.
pub fn add_stroke(ss: &mut Vec<Vec<Point>>)
    ensures
        strokes_view(final(ss)@) == add_stroke_spec(strokes_view(old(ss)@)),
{
    let mut seeded: Vec<Point> = Vec::new();
    seeded.push(fresh_point());
    ss.push(seeded);
    assert(strokes_view(ss@) =~= add_stroke_spec(strokes_view(old(ss)@)));
}

/// Removes the stroke at `index`.
pub fn delete_stroke(ss: &mut Vec<Vec<Point>>, index: usize) -> (r: Result<(), EditError>)
    ensures
        ({
            let (nss, rr) = delete_stroke_spec(strokes_view(old(ss)@), index as int);
            strokes_view(final(ss)@) == nss && r == rr
        }),
{
    if index < ss.len() {
        ss.remove(index);
        assert(strokes_view(ss@) =~= strokes_view(old(ss)@).remove(index as int));
        Ok(())
    } else {
        Err(EditError::IndexOutOfRange)
    }
}

/// Swaps the stroke at `index` with its immediate neighbour in the given
/// direction and returns the cursor index that now names the moved stroke.
pub fn move_adjacent(ss: &mut Vec<Vec<Point>>, index: usize, dir: Direction) -> (r: Result<
    usize,
    EditError,
>)
    ensures
        ({
            let (nss, rr) = move_adjacent_spec(strokes_view(old(ss)@), index as int, dir);
            strokes_view(final(ss)@) == nss && cursor_view(r) == rr
        }),
{
    if index >= ss.len() {
        return Err(EditError::IndexOutOfRange);
    }
    match dir {
        Direction::Forward => {
            if index == 0 {
                Err(EditError::BoundaryReached)
            } else {
                let s = ss.remove(index);
                ss.insert(index - 1, s);
                proof {
                    let v = strokes_view(old(ss)@);
                    assert(strokes_view(ss@) =~= v.update(index - 1, v[index as int]).update(
                        index as int,
                        v[index - 1],
                    ));
                }
                Ok(index - 1)
            }
        },
        Direction::Backward => {
            if index == ss.len() - 1 {
                Err(EditError::BoundaryReached)
            } else {
                let s = ss.remove(index);
                ss.insert(index + 1, s);
                proof {
                    let v = strokes_view(old(ss)@);
                    assert(strokes_view(ss@) =~= v.update(index + 1, v[index as int]).update(
                        index as int,
                        v[index + 1],
                    ));
                }
                Ok(index + 1)
            }
        },
    }
}

/// Relocates the contiguous block of `count` strokes starting at `index`.
pub fn move_block(ss: &mut Vec<Vec<Point>>, index: usize, count: usize, dest: Destination) -> (r:
    Result<usize, EditError>)
    ensures
        ({
            let (nss, rr) = move_block_spec(
                strokes_view(old(ss)@),
                index as int,
                count as int,
                dest,
            );
            strokes_view(final(ss)@) == nss && cursor_view(r) == rr
        }),
{
    let len = ss.len();
    if count > len || index > len || len - index < count {
        return Err(EditError::InsufficientLength);
    }
    if len - index == count {
        return Err(EditError::AlreadyAtEnd);
    }
    let ghost orig = ss@;
    let ghost blockg = orig.subrange(index as int, index + count);
    let ghost restg = orig.subrange(0, index as int) + orig.subrange(
        index + count,
        orig.len() as int,
    );

    // Extract the block, one stroke at a time.
    let mut block: Vec<Vec<Point>> = Vec::new();
    let mut k: usize = 0;
    while k < count
        invariant
            k <= count,
            index + count <= orig.len(),
            ss@.len() == orig.len() - k,
            ss@ =~= orig.subrange(0, index as int) + orig.subrange(index + k, orig.len() as int),
            block@ =~= orig.subrange(index as int, index + k),
        decreases count - k,
    {
        let s = ss.remove(index);
        block.push(s);
        k = k + 1;
        assert(ss@ =~= orig.subrange(0, index as int) + orig.subrange(index + k, orig.len() as int));
        assert(block@ =~= orig.subrange(index as int, index + k));
    }
    assert(ss@ =~= restg);
    assert(block@ =~= blockg);

    let insert_at: usize = match dest {
        Destination::Adjacent => index + 1,
        Destination::End => len - count,
    };
    assert(insert_at <= ss.len());

    // Reinsert the block in original order at the destination offset.
    let mut k: usize = 0;
    while k < count
        invariant
            k <= count,
            orig.len() <= usize::MAX,
            insert_at + count <= orig.len(),
            restg.len() == orig.len() - count,
            insert_at <= restg.len(),
            blockg.len() == count,
            ss@.len() == restg.len() + k,
            ss@ =~= restg.subrange(0, insert_at as int) + blockg.subrange(0, k as int)
                + restg.subrange(insert_at as int, restg.len() as int),
            block@ =~= blockg.subrange(k as int, count as int),
        decreases count - k,
    {
        let s = block.remove(0);
        ss.insert(insert_at + k, s);
        k = k + 1;
        assert(ss@ =~= restg.subrange(0, insert_at as int) + blockg.subrange(0, k as int)
            + restg.subrange(insert_at as int, restg.len() as int));
        assert(block@ =~= blockg.subrange(k as int, count as int));
    }

    proof {
        let v = strokes_view(orig);
        let (nss, _) = move_block_spec(v, index as int, count as int, dest);
        assert(strokes_view(ss@) =~= nss);
    }
    match dest {
        Destination::Adjacent => Ok(index + 1),
        Destination::End => Ok(insert_at),
    }
}

/// Inverse law for single-stroke moves: a successful forward move followed by
/// a backward move on the resulting index restores the original stroke order
/// and the original cursor; at the boundaries the move fails with
/// `BoundaryReached` and leaves the list unchanged.
pub proof fn lemma_move_adjacent_inverse(ss: Seq<Seq<Point>>, index: int)
    ensures
        0 < index < ss.len() ==> ({
            let (moved, r1) = move_adjacent_spec(ss, index, Direction::Forward);
            let (back, r2) = move_adjacent_spec(moved, index - 1, Direction::Backward);
            &&& r1 == Ok::<int, EditError>(index - 1)
            &&& r2 == Ok::<int, EditError>(index)
            &&& back == ss
        }),
        index == 0 && ss.len() > 0 ==> move_adjacent_spec(ss, index, Direction::Forward) == (
            ss,
            Err::<int, EditError>(EditError::BoundaryReached),
        ),
        0 <= index == ss.len() - 1 ==> move_adjacent_spec(ss, index, Direction::Backward) == (
            ss,
            Err::<int, EditError>(EditError::BoundaryReached),
        ),
{
    if 0 < index < ss.len() {
        let (moved, _) = move_adjacent_spec(ss, index, Direction::Forward);
        let (back, _) = move_adjacent_spec(moved, index - 1, Direction::Backward);
        assert(back =~= ss);
    }
}

/// An adjacent block move preserves the multiset of strokes, keeps the block
/// contiguous in its original order, and leaves the length unchanged.
pub proof fn lemma_move_block_adjacent_preserves(ss: Seq<Seq<Point>>, index: int, count: int)
    requires
        0 <= index,
        0 <= count,
        count <= ss.len(),
        ss.len() - index > count,
    ensures
        ({
            let (moved, r) = move_block_spec(ss, index, count, Destination::Adjacent);
            &&& r == Ok::<int, EditError>(index + 1)
            &&& moved.len() == ss.len()
            &&& moved.to_multiset() == ss.to_multiset()
            &&& moved.subrange(index + 1, index + 1 + count) == ss.subrange(index, index + count)
        }),
{
    broadcast use vstd::multiset::group_multiset_axioms;

    let (moved, r) = move_block_spec(ss, index, count, Destination::Adjacent);
    let block = ss.subrange(index, index + count);
    let rest = ss.subrange(0, index) + ss.subrange(index + count, ss.len() as int);
    let a = rest.subrange(0, index + 1);
    let c = rest.subrange(index + 1, rest.len() as int);
    assert(moved == a + block + c);
    assert(moved.len() == ss.len());
    assert(moved.subrange(index + 1, index + 1 + count) =~= block);

    // Both sides decompose into the same three parts, so the multisets agree.
    let p = ss.subrange(0, index);
    let q = ss.subrange(index + count, ss.len() as int);
    assert(ss =~= (p + block) + q);
    lemma_multiset_commutative(p + block, q);
    lemma_multiset_commutative(p, block);
    assert(moved =~= (a + block) + c);
    lemma_multiset_commutative(a + block, c);
    lemma_multiset_commutative(a, block);
    assert(a + c =~= p + q);
    lemma_multiset_commutative(a, c);
    lemma_multiset_commutative(p, q);
    assert forall|x: Seq<Point>|
        ss.to_multiset().count(x) == moved.to_multiset().count(x) by {
        assert(ss.to_multiset().count(x) == p.to_multiset().count(x) + block.to_multiset().count(x)
            + q.to_multiset().count(x));
        assert(moved.to_multiset().count(x) == a.to_multiset().count(x)
            + block.to_multiset().count(x) + c.to_multiset().count(x));
        assert((a + c).to_multiset() == (p + q).to_multiset());
        assert((a + c).to_multiset().count(x) == a.to_multiset().count(x) + c.to_multiset().count(
            x,
        ));
        assert((p + q).to_multiset().count(x) == p.to_multiset().count(x) + q.to_multiset().count(
            x,
        ));
        assert(a.to_multiset().count(x) + c.to_multiset().count(x) == p.to_multiset().count(x)
            + q.to_multiset().count(x));
    }
    assert(ss.to_multiset() =~= moved.to_multiset());
}

/// A block move to the end preserves the multiset of strokes, appends the
/// block as the new suffix in its original order, and leaves the length
/// unchanged.
pub proof fn lemma_move_block_end_preserves(ss: Seq<Seq<Point>>, index: int, count: int)
    requires
        0 <= index,
        0 <= count,
        count <= ss.len(),
        ss.len() - index > count,
    ensures
        ({
            let (moved, r) = move_block_spec(ss, index, count, Destination::End);
            &&& r == Ok::<int, EditError>(ss.len() - count)
            &&& moved.len() == ss.len()
            &&& moved.to_multiset() == ss.to_multiset()
            &&& moved.subrange(ss.len() - count, ss.len() as int) == ss.subrange(
                index,
                index + count,
            )
        }),
{
    let (moved, r) = move_block_spec(ss, index, count, Destination::End);
    let block = ss.subrange(index, index + count);
    let rest = ss.subrange(0, index) + ss.subrange(index + count, ss.len() as int);
    broadcast use vstd::multiset::group_multiset_axioms;

    assert(moved == rest + block);
    assert(moved.len() == ss.len());
    assert(moved.subrange(ss.len() - count, ss.len() as int) =~= block);
    let p = ss.subrange(0, index);
    let q = ss.subrange(index + count, ss.len() as int);
    assert(ss =~= (p + block) + q);
    lemma_multiset_commutative(p + block, q);
    lemma_multiset_commutative(p, block);
    assert(ss.to_multiset() == p.to_multiset().add(block.to_multiset()).add(q.to_multiset()));
    assert(rest == p + q);
    lemma_multiset_commutative(p + q, block);
    lemma_multiset_commutative(p, q);
    assert(moved.to_multiset() == p.to_multiset().add(q.to_multiset()).add(block.to_multiset()));
    assert forall|x: Seq<Point>|
        ss.to_multiset().count(x) == moved.to_multiset().count(x) by {
        assert(ss.to_multiset().count(x) == p.to_multiset().count(x) + block.to_multiset().count(x)
            + q.to_multiset().count(x));
        assert(moved.to_multiset().count(x) == p.to_multiset().count(x) + q.to_multiset().count(x)
            + block.to_multiset().count(x));
    }
    assert(ss.to_multiset() =~= moved.to_multiset());
}

} // verus!
