//! Character database: the mapping from character to its stroke list.
//!
//! The database is stored as an association list ordered strictly by code
//! point, so the roster (the ordered sequence of all known characters) and
//! the map's key set are the same thing by construction and can never fall
//! out of step.  Lookups run by binary search over the sorted roster.

use vstd::prelude::*;

use crate::errors::EditError;
use crate::point::Point;
use crate::point::default_point;
use crate::point::fresh_point;
use crate::strokes::strokes_view;

verus! {

/// The mathematical contents of an association list of characters and stroke
/// lists.
pub open spec fn pairs_view(ps: Seq<(char, Vec<Vec<Point>>)>) -> Seq<(char, Seq<Seq<Point>>)> {
    Seq::new(ps.len(), |i: int| (ps[i].0, strokes_view(ps[i].1@)))
}

/// The roster: the sequence of characters, in storage order.
pub open spec fn roster_view(v: Seq<(char, Seq<Seq<Point>>)>) -> Seq<char> {
    Seq::new(v.len(), |i: int| v[i].0)
}

/// True when the characters are strictly increasing by code point: sorted,
/// with no duplicates.
pub open spec fn sorted_distinct(cs: Seq<char>) -> bool {
    forall|i: int, j: int| 0 <= i < j < cs.len() ==> cs[i] < cs[j]
}

/// True when every stroke of every entry holds at least one point.
pub open spec fn strokes_nonempty(v: Seq<(char, Seq<Seq<Point>>)>) -> bool {
    forall|i: int, j: int|
        0 <= i < v.len() && 0 <= j < v[i].1.len() ==> #[trigger] v[i].1[j].len() >= 1
}

/// Well-formedness of the database contents: roster strictly sorted by code
/// point, and no stroke ever empty.
pub open spec fn db_wf(v: Seq<(char, Seq<Seq<Point>>)>) -> bool {
    &&& sorted_distinct(roster_view(v))
    &&& strokes_nonempty(v)
}

/// The number of roster characters strictly below `ch`; for a sorted roster
/// this is both the index of `ch` when present and its insertion position
/// when absent.
pub open spec fn lower_bound(cs: Seq<char>, ch: char) -> int
    decreases cs.len(),
{
    if cs.len() == 0 {
        0
    } else if cs[0] < ch {
        1 + lower_bound(cs.drop_first(), ch)
    } else {
        0
    }
}

/// For a sorted roster, everything before the lower bound is strictly below
/// `ch` and everything from it onward is at least `ch`.
pub proof fn lemma_lower_bound_bounds(cs: Seq<char>, ch: char)
    requires
        sorted_distinct(cs),
    ensures
        0 <= lower_bound(cs, ch) <= cs.len(),
        forall|j: int| 0 <= j < lower_bound(cs, ch) ==> cs[j] < ch,
        forall|j: int| lower_bound(cs, ch) <= j < cs.len() ==> cs[j] >= ch,
    decreases cs.len(),
{
    if cs.len() == 0 {
    } else if cs[0] < ch {
        assert(sorted_distinct(cs.drop_first())) by {
            assert(forall|i: int, j: int|
                0 <= i < j < cs.drop_first().len() ==> cs.drop_first()[i] == cs[i + 1]
                    && cs.drop_first()[j] == cs[j + 1]);
        }
        lemma_lower_bound_bounds(cs.drop_first(), ch);
        assert forall|j: int| 1 <= j < lower_bound(cs, ch) implies cs[j] < ch by {
            assert(cs.drop_first()[j - 1] == cs[j]);
            assert(0 <= j - 1 < lower_bound(cs.drop_first(), ch));
        }
        assert forall|j: int| lower_bound(cs, ch) <= j < cs.len() implies cs[j] >= ch by {
            assert(cs.drop_first()[j - 1] == cs[j]);
            assert(lower_bound(cs.drop_first(), ch) <= j - 1 < cs.drop_first().len());
        }
    } else {
        // cs[0] >= ch, and sortedness pushes every later element above cs[0].
        assert(forall|j: int| 0 < j < cs.len() ==> cs[0] < #[trigger] cs[j]);
    }
}

/// What `add_character` does: refuse a character the roster already holds,
/// reporting its index; otherwise create its entry, seeded with one default
/// stroke of one default point, at the position that keeps the roster sorted.
pub open spec fn add_character_spec(v: Seq<(char, Seq<Seq<Point>>)>, ch: char) -> (Seq<
    (char, Seq<Seq<Point>>),
>, Result<int, EditError>) {
    let i = lower_bound(roster_view(v), ch);
    if i < v.len() && v[i].0 == ch {
        (v, Err(EditError::AlreadyExists(i as usize)))
    } else {
        (v.insert(i, (ch, seq![seq![default_point()]])), Ok(i))
    }
}

/// What loading does with one `(character, strokes)` pair: replace the entry
/// when the character is already present (the later occurrence wins), else
/// insert it at its sorted position.
pub open spec fn upsert(
    v: Seq<(char, Seq<Seq<Point>>)>,
    ch: char,
    e: Seq<Seq<Point>>,
) -> Seq<(char, Seq<Seq<Point>>)> {
    let i = lower_bound(roster_view(v), ch);
    if i < v.len() && v[i].0 == ch {
        v.update(i, (ch, e))
    } else {
        v.insert(i, (ch, e))
    }
}

/// What loading does with a whole pair list: upsert each pair in order,
/// starting from `acc`.
pub open spec fn build_db(
    acc: Seq<(char, Seq<Seq<Point>>)>,
    ps: Seq<(char, Seq<Seq<Point>>)>,
) -> Seq<(char, Seq<Seq<Point>>)>
    decreases ps.len(),
{
    if ps.len() == 0 {
        acc
    } else {
        build_db(upsert(acc, ps[0].0, ps[0].1), ps.drop_first())
    }
}

/// The character database.  Its contents are reached only through the
/// methods here and through the editing commands, which keep it well-formed.
pub struct Database {
    pub(crate) entries: Vec<(char, Vec<Vec<Point>>)>,
}

impl View for Database {
    type V = Seq<(char, Seq<Seq<Point>>)>;

    closed spec fn view(&self) -> Seq<(char, Seq<Seq<Point>>)> {
        pairs_view(self.entries@)
    }
}

impl Database {
    /// Well-formedness: every constructor establishes it and every operation
    /// preserves it.
    pub open spec fn wf(&self) -> bool {
        db_wf(self@)
    }

    /// Creates an empty database.
    pub fn new() -> (d: Database)
        ensures
            d@ == Seq::<(char, Seq<Seq<Point>>)>::empty(),
            d.wf(),
    {
        let d = Database { entries: Vec::new() };
        proof {
            assert(d@ =~= Seq::<(char, Seq<Seq<Point>>)>::empty());
        }
        d
    }

    /// The number of characters in the roster.
    pub fn len(&self) -> (n: usize)
        ensures
            n == self@.len(),
    {
        self.entries.len()
    }

    /// The roster character at `index`.
    pub fn char_at(&self, index: usize) -> (c: char)
        requires
            index < self@.len(),
        ensures
            c == self@[index as int].0,
    {
        self.entries[index].0
    }

    /// The stroke list of the roster entry at `index`.
    pub fn entry_at(&self, index: usize) -> (e: &Vec<Vec<Point>>)
        requires
            index < self@.len(),
        ensures
            strokes_view(e@) == self@[index as int].1,
    {
        &self.entries[index].1
    }

    /// The database contents as an ordered pair list, in roster order.
    pub fn to_pairs(&self) -> (p: &Vec<(char, Vec<Vec<Point>>)>)
        ensures
            pairs_view(p@) == self@,
    {
        &self.entries
    }

    /// Exclusive access to the stroke list of the roster entry at `index`;
    /// whatever the caller makes of it becomes that entry's stroke list,
    /// while the character itself and all other entries stay as they were.
    pub(crate) fn entry_mut(&mut self, index: usize) -> (e: &mut Vec<Vec<Point>>)
        requires
            index < old(self)@.len(),
        ensures
            strokes_view((*e)@) == old(self)@[index as int].1,
            final(self)@ == old(self)@.update(
                index as int,
                (old(self)@[index as int].0, strokes_view((*final(e))@)),
            ),
    {
        let ghost oldv = self@;
        let pair = &mut self.entries[index];
        let e = &mut pair.1;
        proof {
            assert(strokes_view((*e)@) == oldv[index as int].1);
        }
        e
    }

    /// Binary search for `ch` over the sorted roster; returns the lower
    /// bound, i.e. the index of `ch` when present and its insertion position
    /// when absent.
    fn search(&self, ch: char) -> (pos: usize)
        requires
            self.wf(),
        ensures
            pos == lower_bound(roster_view(self@), ch),
    {
        let ghost cs = roster_view(self@);
        proof {
            lemma_lower_bound_bounds(cs, ch);
        }
        let mut lo: usize = 0;
        let mut hi: usize = self.entries.len();
        while lo < hi
            invariant
                self.wf(),
                cs == roster_view(self@),
                lo <= hi <= cs.len(),
                forall|j: int| 0 <= j < lo ==> cs[j] < ch,
                forall|j: int| hi <= j < cs.len() ==> cs[j] >= ch,
            decreases hi - lo,
        {
            let mid = lo + (hi - lo) / 2;
            let c = self.entries[mid].0;
            assert(c == cs[mid as int]);
            if c < ch {
                lo = mid + 1;
            } else {
                hi = mid;
            }
        }
        proof {
            let lb = lower_bound(cs, ch);
            if lb < lo {
                assert(cs[lb] >= ch);
                assert(cs[lb] < ch);
            }
            if lo < lb {
                assert(cs[lo as int] < ch);
                assert(cs[lo as int] >= ch);
            }
        }
        lo
    }

    /// Whether the database knows `ch`, and where: `Ok` with the roster index
    /// when present, `UnknownCharacter` when absent.
    pub fn find_index(&self, ch: char) -> (r: Result<usize, EditError>)
        requires
            self.wf(),
        ensures
            ({
                let i = lower_bound(roster_view(self@), ch);
                if i < self@.len() && self@[i].0 == ch {
                    r == Ok::<usize, EditError>(i as usize)
                } else {
                    r == Err::<usize, EditError>(EditError::UnknownCharacter)
                }
            }),
    {
        let pos = self.search(ch);
        if pos < self.entries.len() {
            let c = self.entries[pos].0;
            if c == ch {
                return Ok(pos);
            }
        }
        Err(EditError::UnknownCharacter)
    }

    /// The stroke list of `ch`, or `UnknownCharacter` when the database does
    /// not hold it.
    pub fn lookup(&self, ch: char) -> (r: Result<&Vec<Vec<Point>>, EditError>)
        requires
            self.wf(),
        ensures
            ({
                let i = lower_bound(roster_view(self@), ch);
                if i < self@.len() && self@[i].0 == ch {
                    r matches Ok(e) && strokes_view(e@) == self@[i].1
                } else {
                    r matches Err(e) && e == EditError::UnknownCharacter
                }
            }),
    {
        let pos = self.search(ch);
        if pos < self.entries.len() {
            let c = self.entries[pos].0;
            if c == ch {
                return Ok(&self.entries[pos].1);
            }
        }
        Err(EditError::UnknownCharacter)
    }

    /// Finds the roster index of the first character of `text` by binary
    /// search; `NotFound` when `text` is empty or the character is absent.
    pub fn find_by_prefix(&self, text: &str) -> (r: Result<usize, EditError>)
        requires
            self.wf(),
        ensures
            ({
                if text@.len() == 0 {
                    r == Err::<usize, EditError>(EditError::NotFound)
                } else {
                    let i = lower_bound(roster_view(self@), text@[0]);
                    if i < self@.len() && self@[i].0 == text@[0] {
                        r == Ok::<usize, EditError>(i as usize)
                    } else {
                        r == Err::<usize, EditError>(EditError::NotFound)
                    }
                }
            }),
    {
        if text.unicode_len() == 0 {
            return Err(EditError::NotFound);
        }
        let ch = text.get_char(0);
        match self.find_index(ch) {
            Ok(i) => Ok(i),
            Err(_) => Err(EditError::NotFound),
        }
    }

    /// Adds `ch` with one default stroke of one default point, keeping the
    /// roster sorted; refuses a character that is already present, reporting
    /// its roster index, and then changes nothing at all.
    pub fn add_character(&mut self, ch: char) -> (r: Result<usize, EditError>)
        requires
            old(self).wf(),
        ensures
            ({
                let (nv, rr) = add_character_spec(old(self)@, ch);
                final(self)@ == nv && crate::edit::cursor_view(r) == rr
            }),
            r is Err ==> *final(self) == *old(self),
            final(self).wf(),
    {
        proof {
            lemma_lower_bound_bounds(roster_view(self@), ch);
        }
        let pos = self.search(ch);
        if pos < self.entries.len() {
            let c = self.entries[pos].0;
            if c == ch {
                return Err(EditError::AlreadyExists(pos));
            }
        }
        let mut stroke: Vec<Point> = Vec::new();
        stroke.push(fresh_point());
        let mut entry: Vec<Vec<Point>> = Vec::new();
        entry.push(stroke);
        let ghost oldv = self@;
        self.entries.insert(pos, (ch, entry));
        proof {
            let target = oldv.insert(pos as int, (ch, seq![seq![default_point()]]));
            assert(strokes_view(entry@) =~= seq![seq![default_point()]]);
            assert(self@ =~= target);
            lemma_insert_keeps_wf(oldv, pos as int, ch, seq![seq![default_point()]]);
        }
        Ok(pos)
    }

    /// Rebuilds a database from an ordered `(character, strokes)` pair list,
    /// as read from a persisted file.  A duplicated character keeps the later
    /// occurrence (last write wins) and the roster stays sorted and
    /// duplicate-free.  A pair holding an empty stroke is refused with
    /// `MalformedData`: a stroke with zero points must never become
    /// observable.
    pub fn from_pairs(pairs: Vec<(char, Vec<Vec<Point>>)>) -> (r: Result<Database, EditError>)
        ensures
            strokes_nonempty(pairs_view(pairs@)) ==> (r matches Ok(d) && d@ == build_db(
                Seq::empty(),
                pairs_view(pairs@),
            ) && d.wf()),
            !strokes_nonempty(pairs_view(pairs@)) ==> r == Err::<Database, EditError>(
                EditError::MalformedData,
            ),
    {
        let ghost orig = pairs_view(pairs@);
        let mut rest = pairs;
        let mut db = Database { entries: Vec::new() };
        let ghost k: int = 0;
        proof {
            assert(db@ =~= Seq::<(char, Seq<Seq<Point>>)>::empty());
            assert(pairs_view(rest@) =~= orig.subrange(0, orig.len() as int));
        }
        while rest.len() > 0
            invariant
                orig == pairs_view(pairs@),
                0 <= k <= orig.len(),
                pairs_view(rest@) == orig.subrange(k, orig.len() as int),
                db.wf(),
                build_db(db@, pairs_view(rest@)) == build_db(Seq::empty(), orig),
                strokes_nonempty(orig.subrange(0, k)),
            decreases rest@.len(),
        {
            let ghost prev_rest = pairs_view(rest@);
            let ghost prev_db = db@;
            let pair = rest.remove(0);
            let ch = pair.0;
            let e = pair.1;
            proof {
                assert(prev_rest[0] == (ch, strokes_view(e@)));
                assert(pairs_view(rest@) =~= prev_rest.drop_first());
                assert(prev_rest.drop_first() =~= orig.subrange(k + 1, orig.len() as int));
            }

            // Refuse an empty stroke before touching the database.
            let mut j: usize = 0;
            while j < e.len()
                invariant
                    j <= e.len(),
                    orig == pairs_view(pairs@),
                    0 <= k < orig.len(),
                    orig[k].1 == strokes_view(e@),
                    forall|jj: int| 0 <= jj < j ==> #[trigger] e@[jj]@.len() >= 1,
                decreases e.len() - j,
            {
                if e[j].len() == 0 {
                    proof {
                        assert(strokes_view(e@)[j as int].len() == 0);
                        assert(orig[k].1[j as int].len() == 0);
                        assert(!strokes_nonempty(orig));
                    }
                    return Err(EditError::MalformedData);
                }
                j = j + 1;
            }
            proof {
                assert(forall|jj: int|
                    0 <= jj < strokes_view(e@).len() ==> #[trigger] strokes_view(e@)[jj].len()
                        >= 1);
            }

            proof {
                lemma_lower_bound_bounds(roster_view(db@), ch);
            }
            let pos = db.search(ch);
            let mut found = false;
            if pos < db.entries.len() {
                let c = db.entries[pos].0;
                if c == ch {
                    found = true;
                }
            }
            if found {
                db.entries.set(pos, (ch, e));
                proof {
                    assert(db@ =~= prev_db.update(pos as int, (ch, strokes_view(e@))));
                    assert(db@ == upsert(prev_db, ch, strokes_view(e@)));
                    assert(roster_view(db@) =~= roster_view(prev_db));
                    assert forall|i: int, jj: int|
                        0 <= i < db@.len() && 0 <= jj < db@[i].1.len() implies #[trigger] db@[i].1[jj].len()
                        >= 1 by {
                        if i != pos {
                            assert(db@[i] == prev_db[i]);
                        }
                    }
                }
            } else {
                db.entries.insert(pos, (ch, e));
                proof {
                    assert(db@ =~= prev_db.insert(pos as int, (ch, strokes_view(e@))));
                    assert(db@ == upsert(prev_db, ch, strokes_view(e@)));
                    lemma_insert_keeps_wf(prev_db, pos as int, ch, strokes_view(e@));
                }
            }
            proof {
                assert(build_db(prev_db, prev_rest) == build_db(
                    upsert(prev_db, prev_rest[0].0, prev_rest[0].1),
                    prev_rest.drop_first(),
                ));
                k = k + 1;
                assert(orig.subrange(0, k) =~= orig.subrange(0, k - 1).push(orig[k - 1]));
                assert(strokes_nonempty(orig.subrange(0, k))) by {
                    let pre = orig.subrange(0, k);
                    assert forall|i: int, jj: int|
                        0 <= i < pre.len() && 0 <= jj < pre[i].1.len() implies #[trigger] pre[i].1[jj].len()
                        >= 1 by {
                        if i < k - 1 {
                            assert(pre[i] == orig.subrange(0, k - 1)[i]);
                        } else {
                            assert(pre[i] == (ch, strokes_view(e@)));
                        }
                    }
                }
            }
        }
        proof {
            assert(pairs_view(rest@).len() == 0);
            assert(k == orig.len());
            assert(orig.subrange(0, k) =~= orig);
            assert(build_db(db@, pairs_view(rest@)) == db@);
        }
        Ok(db)
    }
}

/// Rebuilding already well-formed contents changes nothing: every pair of a
/// sorted, duplicate-free list lands at the end of the accumulator, so the
/// fold reproduces the list.
proof fn lemma_build_db_prefix(v: Seq<(char, Seq<Seq<Point>>)>, k: int)
    requires
        db_wf(v),
        0 <= k <= v.len(),
    ensures
        build_db(v.take(k), v.skip(k)) == v,
    decreases v.len() - k,
{
    if k == v.len() {
        assert(v.skip(k).len() == 0);
        assert(v.take(k) =~= v);
    } else {
        let acc = v.take(k);
        let rest = v.skip(k);
        let ch = v[k].0;
        let cs = roster_view(acc);
        assert forall|i: int, j: int| 0 <= i < j < cs.len() implies cs[i] < cs[j] by {
            assert(cs[i] == acc[i].0 && acc[i] == v[i]);
            assert(cs[j] == acc[j].0 && acc[j] == v[j]);
            assert(roster_view(v)[i] == v[i].0 && roster_view(v)[j] == v[j].0);
        }
        lemma_lower_bound_bounds(cs, ch);
        // Every accumulated character is below `ch`, so the lower bound is
        // the end and the pair cannot already be present.
        assert forall|j: int| 0 <= j < cs.len() implies cs[j] < ch by {
            assert(cs[j] == acc[j].0 && acc[j] == v[j]);
            assert(roster_view(v)[j] == v[j].0 && roster_view(v)[k] == v[k].0);
        }
        let lb = lower_bound(cs, ch);
        assert(lb == acc.len()) by {
            if lb < acc.len() {
                assert(cs[lb] >= ch);
                assert(cs[lb] < ch);
            }
        }
        assert(upsert(acc, ch, v[k].1) == acc.insert(lb, (ch, v[k].1)));
        assert(acc.insert(lb, (ch, v[k].1)) =~= v.take(k + 1)) by {
            assert((ch, v[k].1) == v[k]);
        }
        assert(rest[0] == v[k]);
        assert(rest.drop_first() =~= v.skip(k + 1));
        lemma_build_db_prefix(v, k + 1);
        assert(build_db(acc, rest) == build_db(v.take(k + 1), v.skip(k + 1)));
    }
}

/// Loading well-formed contents reproduces them exactly: `build_db` is the
/// identity on a sorted, duplicate-free pair list.
pub proof fn lemma_build_db_identity(v: Seq<(char, Seq<Seq<Point>>)>)
    requires
        db_wf(v),
    ensures
        build_db(Seq::empty(), v) == v,
{
    assert(v.take(0) =~= Seq::<(char, Seq<Seq<Point>>)>::empty());
    assert(v.skip(0) =~= v);
    lemma_build_db_prefix(v, 0);
}

/// Inserting a fresh character with non-empty strokes at its lower bound
/// keeps the database well-formed.
proof fn lemma_insert_keeps_wf(
    v: Seq<(char, Seq<Seq<Point>>)>,
    pos: int,
    ch: char,
    e: Seq<Seq<Point>>,
)
    requires
        db_wf(v),
        pos == lower_bound(roster_view(v), ch),
        !(pos < v.len() && v[pos].0 == ch),
        forall|j: int| 0 <= j < e.len() ==> #[trigger] e[j].len() >= 1,
    ensures
        db_wf(v.insert(pos, (ch, e))),
{
    let cs = roster_view(v);
    lemma_lower_bound_bounds(cs, ch);
    let nv = v.insert(pos, (ch, e));
    let ncs = roster_view(nv);
    v.insert_ensures(pos, (ch, e));
    assert forall|i: int, j: int| 0 <= i < j < ncs.len() implies ncs[i] < ncs[j] by {
        assert(ncs[i] == nv[i].0);
        assert(ncs[j] == nv[j].0);
        if i < pos {
            assert(nv[i] == v[i] && cs[i] == v[i].0 && cs[i] < ch);
        }
        if j < pos {
            assert(nv[j] == v[j] && cs[j] == v[j].0 && cs[j] < ch);
        }
        if i > pos {
            assert(nv[i] == v[i - 1] && cs[i - 1] == v[i - 1].0);
            assert(pos <= i - 1 < v.len());
            assert(cs[i - 1] >= ch);
            assert(cs[i - 1] != ch) by {
                if cs[i - 1] == ch {
                    if i - 1 > pos {
                        assert(cs[pos] >= ch && cs[pos] < cs[i - 1]);
                    }
                }
            }
        }
        if j > pos {
            assert(nv[j] == v[j - 1] && cs[j - 1] == v[j - 1].0);
            assert(pos <= j - 1 < v.len());
            assert(cs[j - 1] >= ch);
            assert(cs[j - 1] != ch) by {
                if cs[j - 1] == ch {
                    if j - 1 > pos {
                        assert(cs[pos] >= ch && cs[pos] < cs[j - 1]);
                    }
                }
            }
        }
        if i < j < pos || pos < i < j {
            assert(sorted_distinct(cs));
        }
    }
    assert forall|i: int, j: int|
        0 <= i < nv.len() && 0 <= j < nv[i].1.len() implies #[trigger] nv[i].1[j].len() >= 1 by {
        if i < pos {
            assert(nv[i] == v[i]);
            assert(v[i].1[j].len() >= 1);
        } else if i == pos {
            assert(nv[i].1 == e);
        } else {
            assert(nv[i] == v[i - 1]);
            assert(v[i - 1].1[j].len() >= 1);
        }
    }
}

} // verus!
