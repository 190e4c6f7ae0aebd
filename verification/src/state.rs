//! Selection/cursor state and the command dispatcher.
//!
//! The application state is the character database plus the cursor: which
//! character, stroke and point are selected, and the staged point (the last
//! clicked coordinate, held until a point-editing command consumes it).
//! Every user gesture becomes one `Command`, and `dispatch` is the single
//! entry point that applies it.  `dispatch_spec` states the exact transition:
//! what the new database contents, the new cursor and the reported outcome
//! are for every state and command.  A failing command changes nothing.

use vstd::prelude::*;

use crate::db::Database;
use crate::db::add_character_spec;
use crate::db::db_wf;
use crate::db::roster_view;
use crate::edit::delete_at_spec;
use crate::edit::insert_after_spec;
use crate::edit::insert_before_spec;
use crate::edit::replace_at_spec;
use crate::errors::EditError;
use crate::point::Point;
use crate::strokes::Destination;
use crate::strokes::Direction;
use crate::strokes::add_stroke_spec;
use crate::strokes::delete_stroke_spec;
use crate::strokes::move_adjacent_spec;
use crate::strokes::move_block_spec;
use crate::strokes::strokes_view;

verus! {

/// The cursor: which character, stroke and point are selected, and the
/// staged point.  The staged point is transient UI state: each click
/// overwrites it, and it stays available until the next click, so one staged
/// point can be applied to several strokes in sequence.
#[derive(Clone, Copy, Debug)]
pub struct Selection {
    pub current_character: usize,
    pub current_stroke: usize,
    pub current_point: usize,
    pub staged_point: Option<Point>,
}

/// One user gesture, as the engine sees it.
#[derive(Clone, Copy, Debug)]
pub enum Command {
    SelectCharacter(usize),
    SelectStroke(usize),
    SelectPoint(usize),
    /// Registers a click at device coordinates; the engine scales them by two
    /// to the canvas's internal resolution and stages the point.
    StageClick(u16, u16),
    Replace,
    InsertBefore,
    InsertAfter,
    DeletePoint,
    AddStroke,
    DeleteStroke,
    MoveForward,
    MoveBackward,
    MoveBlockAdjacent(usize),
    MoveBlockEnd(usize),
    AddCharacter(char),
}

/// A device coordinate scaled by two to the canvas's internal resolution,
/// truncated to 16 bits as the stored points are.
pub open spec fn scaled(x: u16) -> u16 {
    ((2 * x) % 0x10000) as u16
}

/// The whole application state: the database and the cursor.
pub struct AppState {
    pub db: Database,
    pub sel: Selection,
}

/// The outcome of a point-editing command once the character and stroke
/// indices have been checked: on success the stroke is replaced and the point
/// cursor moves to the index the editor reports; on failure nothing changes.
pub open spec fn apply_point_op(
    v: Seq<(char, Seq<Seq<Point>>)>,
    sel: Selection,
    res: (Seq<Point>, Result<int, EditError>),
) -> (Seq<(char, Seq<Seq<Point>>)>, Selection, Result<(), EditError>) {
    let c = sel.current_character as int;
    let s = sel.current_stroke as int;
    match res.1 {
        Ok(cur) => (
            v.update(c, (v[c].0, v[c].1.update(s, res.0))),
            (Selection {
                current_character: sel.current_character,
                current_stroke: sel.current_stroke,
                current_point: cur as usize,
                staged_point: sel.staged_point,
            }),
            Ok(()),
        ),
        Err(e) => (v, sel, Err(e)),
    }
}

/// The outcome of a stroke-reordering command once the character index has
/// been checked: on success the stroke list is replaced, the stroke cursor
/// moves to the index the editor reports and the point cursor resets; on
/// failure nothing changes.
pub open spec fn apply_move_op(
    v: Seq<(char, Seq<Seq<Point>>)>,
    sel: Selection,
    res: (Seq<Seq<Point>>, Result<int, EditError>),
) -> (Seq<(char, Seq<Seq<Point>>)>, Selection, Result<(), EditError>) {
    let c = sel.current_character as int;
    match res.1 {
        Ok(cur) => (
            v.update(c, (v[c].0, res.0)),
            (Selection {
                current_character: sel.current_character,
                current_stroke: cur as usize,
                current_point: 0,
                staged_point: sel.staged_point,
            }),
            Ok(()),
        ),
        Err(e) => (v, sel, Err(e)),
    }
}

/// The exact transition `dispatch` makes: the new database contents, the new
/// cursor, and the reported outcome, for every state and command.  Index
/// validity is checked from the outside in: first the character, then the
/// stroke, then whatever the editing operation itself demands.
pub open spec fn dispatch_spec(v: Seq<(char, Seq<Seq<Point>>)>, sel: Selection, cmd: Command) -> (
    Seq<(char, Seq<Seq<Point>>)>,
    Selection,
    Result<(), EditError>,
) {
    let c = sel.current_character as int;
    let s = sel.current_stroke as int;
    match cmd {
        Command::SelectCharacter(i) => {
            if (i as int) < v.len() {
                (
                    v,
                    (Selection {
                        current_character: i,
                        current_stroke: 0,
                        current_point: 0,
                        staged_point: sel.staged_point,
                    }),
                    Ok(()),
                )
            } else {
                (v, sel, Err(EditError::IndexOutOfRange))
            }
        },
        Command::SelectStroke(i) => {
            if c < v.len() && (i as int) < v[c].1.len() {
                (
                    v,
                    (Selection {
                        current_character: sel.current_character,
                        current_stroke: i,
                        current_point: 0,
                        staged_point: sel.staged_point,
                    }),
                    Ok(()),
                )
            } else {
                (v, sel, Err(EditError::IndexOutOfRange))
            }
        },
        Command::SelectPoint(i) => {
            if c < v.len() && s < v[c].1.len() && (i as int) < v[c].1[s].len() {
                (
                    v,
                    (Selection {
                        current_character: sel.current_character,
                        current_stroke: sel.current_stroke,
                        current_point: i,
                        staged_point: sel.staged_point,
                    }),
                    Ok(()),
                )
            } else {
                (v, sel, Err(EditError::IndexOutOfRange))
            }
        },
        Command::StageClick(x, y) => (
            v,
            (Selection {
                current_character: sel.current_character,
                current_stroke: sel.current_stroke,
                current_point: sel.current_point,
                staged_point: Some(Point { x: scaled(x), y: scaled(y) }),
            }),
            Ok(()),
        ),
        Command::Replace => {
            if c < v.len() && s < v[c].1.len() {
                apply_point_op(
                    v,
                    sel,
                    replace_at_spec(v[c].1[s], sel.current_point as int, sel.staged_point),
                )
            } else {
                (v, sel, Err(EditError::IndexOutOfRange))
            }
        },
        Command::InsertBefore => {
            if c < v.len() && s < v[c].1.len() {
                apply_point_op(
                    v,
                    sel,
                    insert_before_spec(v[c].1[s], sel.current_point as int, sel.staged_point),
                )
            } else {
                (v, sel, Err(EditError::IndexOutOfRange))
            }
        },
        Command::InsertAfter => {
            if c < v.len() && s < v[c].1.len() {
                apply_point_op(
                    v,
                    sel,
                    insert_after_spec(v[c].1[s], sel.current_point as int, sel.staged_point),
                )
            } else {
                (v, sel, Err(EditError::IndexOutOfRange))
            }
        },
        Command::DeletePoint => {
            if c < v.len() && s < v[c].1.len() {
                apply_point_op(v, sel, delete_at_spec(v[c].1[s], sel.current_point as int))
            } else {
                (v, sel, Err(EditError::IndexOutOfRange))
            }
        },
        Command::AddStroke => {
            if c < v.len() {
                (
                    v.update(c, (v[c].0, add_stroke_spec(v[c].1))),
                    (Selection {
                        current_character: sel.current_character,
                        current_stroke: 0,
                        current_point: 0,
                        staged_point: sel.staged_point,
                    }),
                    Ok(()),
                )
            } else {
                (v, sel, Err(EditError::IndexOutOfRange))
            }
        },
        Command::DeleteStroke => {
            if c < v.len() {
                let (nss, rr) = delete_stroke_spec(v[c].1, s);
                match rr {
                    Ok(_) => (
                        v.update(c, (v[c].0, nss)),
                        (Selection {
                            current_character: sel.current_character,
                            current_stroke: 0,
                            current_point: 0,
                            staged_point: sel.staged_point,
                        }),
                        Ok(()),
                    ),
                    Err(e) => (v, sel, Err(e)),
                }
            } else {
                (v, sel, Err(EditError::IndexOutOfRange))
            }
        },
        Command::MoveForward => {
            if c < v.len() {
                apply_move_op(v, sel, move_adjacent_spec(v[c].1, s, Direction::Forward))
            } else {
                (v, sel, Err(EditError::IndexOutOfRange))
            }
        },
        Command::MoveBackward => {
            if c < v.len() {
                apply_move_op(v, sel, move_adjacent_spec(v[c].1, s, Direction::Backward))
            } else {
                (v, sel, Err(EditError::IndexOutOfRange))
            }
        },
        Command::MoveBlockAdjacent(count) => {
            if c < v.len() {
                apply_move_op(
                    v,
                    sel,
                    move_block_spec(v[c].1, s, count as int, Destination::Adjacent),
                )
            } else {
                (v, sel, Err(EditError::IndexOutOfRange))
            }
        },
        Command::MoveBlockEnd(count) => {
            if c < v.len() {
                apply_move_op(v, sel, move_block_spec(v[c].1, s, count as int, Destination::End))
            } else {
                (v, sel, Err(EditError::IndexOutOfRange))
            }
        },
        Command::AddCharacter(ch) => {
            let (nv, rr) = add_character_spec(v, ch);
            match rr {
                Ok(i) => (
                    nv,
                    (Selection {
                        current_character: i as usize,
                        current_stroke: 0,
                        current_point: 0,
                        staged_point: sel.staged_point,
                    }),
                    Ok(()),
                ),
                Err(e) => (v, sel, Err(e)),
            }
        },
    }
}

/// Replacing one entry's stroke list with non-empty strokes keeps the
/// database well-formed: the roster is untouched and no stroke is empty.
proof fn lemma_entry_update_wf(v: Seq<(char, Seq<Seq<Point>>)>, c: int, e2: Seq<Seq<Point>>)
    requires
        db_wf(v),
        0 <= c < v.len(),
        forall|j: int| 0 <= j < e2.len() ==> #[trigger] e2[j].len() >= 1,
    ensures
        db_wf(v.update(c, (v[c].0, e2))),
{
    let nv = v.update(c, (v[c].0, e2));
    assert(roster_view(nv) =~= roster_view(v));
    assert forall|i: int, j: int|
        0 <= i < nv.len() && 0 <= j < nv[i].1.len() implies #[trigger] nv[i].1[j].len() >= 1 by {
        if i != c {
            assert(nv[i] == v[i]);
        }
    }
}

/// A successful block move only rearranges strokes, so none of them can
/// become empty.
proof fn lemma_move_block_nonempty(
    ss: Seq<Seq<Point>>,
    index: int,
    count: int,
    dest: Destination,
)
    requires
        0 <= count,
        forall|j: int| 0 <= j < ss.len() ==> #[trigger] ss[j].len() >= 1,
    ensures
        ({
            let (nss, r) = move_block_spec(ss, index, count, dest);
            forall|j: int| 0 <= j < nss.len() ==> #[trigger] nss[j].len() >= 1
        }),
{
    let (nss, r) = move_block_spec(ss, index, count, dest);
    if !(ss.len() < count || index < 0 || ss.len() - index < count) && ss.len() - index != count {
        let block = ss.subrange(index, index + count);
        let rest = ss.subrange(0, index) + ss.subrange(index + count, ss.len() as int);
        assert forall|j: int| 0 <= j < block.len() implies #[trigger] block[j].len() >= 1 by {
            assert(block[j] == ss[index + j]);
        }
        assert forall|j: int| 0 <= j < rest.len() implies #[trigger] rest[j].len() >= 1 by {
            if j < index {
                assert(rest[j] == ss[j]);
            } else {
                assert(rest[j] == ss[j + count]);
            }
        }
        assert forall|j: int| 0 <= j < nss.len() implies #[trigger] nss[j].len() >= 1 by {
            match dest {
                Destination::Adjacent => {
                    let a = rest.subrange(0, index + 1);
                    let cc = rest.subrange(index + 1, rest.len() as int);
                    assert(nss == a + block + cc);
                    if j < a.len() {
                        assert(nss[j] == a[j] && a[j] == rest[j]);
                    } else if j < a.len() + block.len() {
                        assert(nss[j] == block[j - a.len()]);
                    } else {
                        assert(nss[j] == cc[j - a.len() - block.len()]);
                        assert(cc[j - a.len() - block.len()] == rest[j - block.len()]);
                    }
                },
                Destination::End => {
                    assert(nss == rest + block);
                    if j < rest.len() {
                        assert(nss[j] == rest[j]);
                    } else {
                        assert(nss[j] == block[j - rest.len()]);
                    }
                },
            }
        }
    }
}

impl AppState {
    /// Wraps a freshly loaded database with a zeroed cursor and no staged
    /// point.
    pub fn new(db: Database) -> (st: AppState)
        ensures
            st.db == db,
            st.sel == (Selection {
                current_character: 0,
                current_stroke: 0,
                current_point: 0,
                staged_point: None::<Point>,
            }),
    {
        AppState {
            db,
            sel: Selection {
                current_character: 0,
                current_stroke: 0,
                current_point: 0,
                staged_point: None,
            },
        }
    }

    /// Selects the character a typed prefix names: the roster index of the
    /// first character of `text`, found by binary search.  A character that
    /// is in the roster must be selected; an absent one, or empty text, is
    /// reported as `NotFound`.  The database and the staged point are
    /// untouched; on failure the cursor is too.
    pub fn select_by_prefix(&mut self, text: &str) -> (r: Result<usize, EditError>)
        requires
            old(self).db.wf(),
        ensures
            final(self).db == old(self).db,
            ({
                let v = old(self).db@;
                if text@.len() == 0 {
                    &&& r == Err::<usize, EditError>(EditError::NotFound)
                    &&& final(self).sel == old(self).sel
                } else {
                    let i = crate::db::lower_bound(roster_view(v), text@[0]);
                    if i < v.len() && v[i].0 == text@[0] {
                        &&& r == Ok::<usize, EditError>(i as usize)
                        &&& final(self).sel == (Selection {
                            current_character: i as usize,
                            current_stroke: 0,
                            current_point: 0,
                            staged_point: old(self).sel.staged_point,
                        })
                    } else {
                        &&& r == Err::<usize, EditError>(EditError::NotFound)
                        &&& final(self).sel == old(self).sel
                    }
                }
            }),
    {
        let total = self.db.len();
        proof {
            assert(total == self.db@.len());
        }
        match self.db.find_by_prefix(text) {
            Ok(i) => {
                proof {
                    crate::db::lemma_lower_bound_bounds(roster_view(self.db@), text@[0]);
                }
                self.sel = Selection {
                    current_character: i,
                    current_stroke: 0,
                    current_point: 0,
                    staged_point: self.sel.staged_point,
                };
                Ok(i)
            },
            Err(e) => Err(e),
        }
    }

    /// Applies one command.  The exact transition is `dispatch_spec`; a
    /// failing command leaves the database and the cursor exactly as they
    /// were.
    pub fn dispatch(&mut self, cmd: Command) -> (r: Result<(), EditError>)
        requires
            old(self).db.wf(),
        ensures
            ({
                let (nv, nsel, rr) = dispatch_spec(old(self).db@, old(self).sel, cmd);
                final(self).db@ == nv && final(self).sel == nsel && r == rr
            }),
            final(self).db.wf(),
            r is Err ==> final(self).db@ == old(self).db@ && final(self).sel == old(self).sel,
    {
        let ghost v0 = self.db@;
        let ghost sel0 = self.sel;
        match cmd {
            Command::SelectCharacter(i) => {
                if i < self.db.len() {
                    self.sel = Selection {
                        current_character: i,
                        current_stroke: 0,
                        current_point: 0,
                        staged_point: self.sel.staged_point,
                    };
                    Ok(())
                } else {
                    Err(EditError::IndexOutOfRange)
                }
            },
            Command::SelectStroke(i) => {
                let c = self.sel.current_character;
                if c < self.db.len() && i < self.db.entry_at(c).len() {
                    self.sel = Selection {
                        current_character: c,
                        current_stroke: i,
                        current_point: 0,
                        staged_point: self.sel.staged_point,
                    };
                    Ok(())
                } else {
                    Err(EditError::IndexOutOfRange)
                }
            },
            Command::SelectPoint(i) => {
                let c = self.sel.current_character;
                let s = self.sel.current_stroke;
                if c < self.db.len() && s < self.db.entry_at(c).len() && i < self.db.entry_at(
                    c,
                )[s].len() {
                    self.sel = Selection {
                        current_character: c,
                        current_stroke: s,
                        current_point: i,
                        staged_point: self.sel.staged_point,
                    };
                    Ok(())
                } else {
                    Err(EditError::IndexOutOfRange)
                }
            },
            Command::StageClick(x, y) => {
                let sx = (((x as u32) * 2) % 0x10000) as u16;
                let sy = (((y as u32) * 2) % 0x10000) as u16;
                assert(sx == scaled(x) && sy == scaled(y));
                self.sel = Selection {
                    current_character: self.sel.current_character,
                    current_stroke: self.sel.current_stroke,
                    current_point: self.sel.current_point,
                    staged_point: Some(Point { x: sx, y: sy }),
                };
                Ok(())
            },
            Command::Replace | Command::InsertBefore | Command::InsertAfter
                | Command::DeletePoint => {
                let c = self.sel.current_character;
                let s = self.sel.current_stroke;
                if c >= self.db.len() {
                    return Err(EditError::IndexOutOfRange);
                }
                let e = self.db.entry_mut(c);
                if s >= e.len() {
                    proof {
                        assert(self.db@ =~= v0);
                    }
                    return Err(EditError::IndexOutOfRange);
                }
                let stroke = &mut e[s];
                let pr = match cmd {
                    Command::Replace => crate::edit::replace_at(
                        stroke,
                        self.sel.current_point,
                        self.sel.staged_point,
                    ),
                    Command::InsertBefore => crate::edit::insert_before(
                        stroke,
                        self.sel.current_point,
                        self.sel.staged_point,
                    ),
                    Command::InsertAfter => crate::edit::insert_after(
                        stroke,
                        self.sel.current_point,
                        self.sel.staged_point,
                    ),
                    _ => crate::edit::delete_at(stroke, self.sel.current_point),
                };
                match pr {
                    Ok(cur) => {
                        self.sel = Selection {
                            current_character: c,
                            current_stroke: s,
                            current_point: cur,
                            staged_point: self.sel.staged_point,
                        };
                        proof {
                            let (nv, nsel, rr) = dispatch_spec(v0, sel0, cmd);
                            assert(strokes_view(e@) =~= v0[c as int].1.update(
                                s as int,
                                stroke@,
                            ));
                            assert(self.db@ =~= nv);
                            lemma_entry_update_wf(
                                v0,
                                c as int,
                                v0[c as int].1.update(s as int, stroke@),
                            );
                        }
                        Ok(())
                    },
                    Err(err) => {
                        proof {
                            assert(strokes_view(e@) =~= v0[c as int].1);
                            assert(self.db@ =~= v0);
                        }
                        Err(err)
                    },
                }
            },
            Command::AddStroke => {
                let c = self.sel.current_character;
                if c >= self.db.len() {
                    return Err(EditError::IndexOutOfRange);
                }
                let e = self.db.entry_mut(c);
                crate::strokes::add_stroke(e);
                self.sel = Selection {
                    current_character: c,
                    current_stroke: 0,
                    current_point: 0,
                    staged_point: self.sel.staged_point,
                };
                proof {
                    let (nv, nsel, rr) = dispatch_spec(v0, sel0, cmd);
                    assert(self.db@ =~= nv);
                    lemma_entry_update_wf(v0, c as int, add_stroke_spec(v0[c as int].1));
                }
                Ok(())
            },
            Command::DeleteStroke => {
                let c = self.sel.current_character;
                if c >= self.db.len() {
                    return Err(EditError::IndexOutOfRange);
                }
                let e = self.db.entry_mut(c);
                match crate::strokes::delete_stroke(e, self.sel.current_stroke) {
                    Ok(_) => {
                        self.sel = Selection {
                            current_character: c,
                            current_stroke: 0,
                            current_point: 0,
                            staged_point: self.sel.staged_point,
                        };
                        proof {
                            let (nv, nsel, rr) = dispatch_spec(v0, sel0, cmd);
                            let (nss, _) = delete_stroke_spec(v0[c as int].1, sel0.current_stroke as int);
                            assert(self.db@ =~= nv);
                            assert(forall|j: int|
                                0 <= j < nss.len() ==> #[trigger] nss[j].len() >= 1);
                            lemma_entry_update_wf(v0, c as int, nss);
                        }
                        Ok(())
                    },
                    Err(err) => {
                        proof {
                            assert(self.db@ =~= v0);
                        }
                        Err(err)
                    },
                }
            },
            Command::MoveForward | Command::MoveBackward => {
                let c = self.sel.current_character;
                if c >= self.db.len() {
                    return Err(EditError::IndexOutOfRange);
                }
                let dir = match cmd {
                    Command::MoveForward => Direction::Forward,
                    _ => Direction::Backward,
                };
                let e = self.db.entry_mut(c);
                match crate::strokes::move_adjacent(e, self.sel.current_stroke, dir) {
                    Ok(cur) => {
                        self.sel = Selection {
                            current_character: c,
                            current_stroke: cur,
                            current_point: 0,
                            staged_point: self.sel.staged_point,
                        };
                        proof {
                            let (nv, nsel, rr) = dispatch_spec(v0, sel0, cmd);
                            let (nss, _) = move_adjacent_spec(
                                v0[c as int].1,
                                sel0.current_stroke as int,
                                dir,
                            );
                            assert(self.db@ =~= nv);
                            assert(forall|j: int|
                                0 <= j < nss.len() ==> #[trigger] nss[j].len() >= 1);
                            lemma_entry_update_wf(v0, c as int, nss);
                        }
                        Ok(())
                    },
                    Err(err) => {
                        proof {
                            assert(self.db@ =~= v0);
                        }
                        Err(err)
                    },
                }
            },
            Command::MoveBlockAdjacent(count) | Command::MoveBlockEnd(count) => {
                let c = self.sel.current_character;
                if c >= self.db.len() {
                    return Err(EditError::IndexOutOfRange);
                }
                let dest = match cmd {
                    Command::MoveBlockAdjacent(_) => Destination::Adjacent,
                    _ => Destination::End,
                };
                let e = self.db.entry_mut(c);
                match crate::strokes::move_block(e, self.sel.current_stroke, count, dest) {
                    Ok(cur) => {
                        self.sel = Selection {
                            current_character: c,
                            current_stroke: cur,
                            current_point: 0,
                            staged_point: self.sel.staged_point,
                        };
                        proof {
                            let (nv, nsel, rr) = dispatch_spec(v0, sel0, cmd);
                            let (nss, _) = move_block_spec(
                                v0[c as int].1,
                                sel0.current_stroke as int,
                                count as int,
                                dest,
                            );
                            assert(self.db@ =~= nv);
                            lemma_move_block_nonempty(
                                v0[c as int].1,
                                sel0.current_stroke as int,
                                count as int,
                                dest,
                            );
                            lemma_entry_update_wf(v0, c as int, nss);
                        }
                        Ok(())
                    },
                    Err(err) => {
                        proof {
                            assert(self.db@ =~= v0);
                        }
                        Err(err)
                    },
                }
            },
            Command::AddCharacter(ch) => {
                match self.db.add_character(ch) {
                    Ok(i) => {
                        self.sel = Selection {
                            current_character: i,
                            current_stroke: 0,
                            current_point: 0,
                            staged_point: self.sel.staged_point,
                        };
                        Ok(())
                    },
                    Err(err) => Err(err),
                }
            },
        }
    }
}

} // verus!
