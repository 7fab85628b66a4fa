use crate::mark::Mark;
use vstd::prelude::*;

verus! {

/// The location of a cell within a grid: 0-based `(row, column)`.
pub type Position = (usize, usize);

/// An area within a grid that may be marked: `None` is unmarked.
pub type Cell = Option<Mark>;

/// `p` lies within a 3x3 grid.
pub open spec fn in_bounds_spec(p: Position) -> bool {
    p.0 < 3 && p.1 < 3
}

/// Row-major cell index of a position.
pub open spec fn index_of(p: Position) -> int {
    p.0 * 3 + p.1
}

/// Position of a row-major cell index.
pub open spec fn pos_at(i: int) -> Position {
    ((i / 3) as usize, (i % 3) as usize)
}

pub proof fn lemma_index_of_bounds(p: Position)
    requires
        in_bounds_spec(p),
    ensures
        0 <= index_of(p) < 9,
        pos_at(index_of(p)) == p,
{
}

pub proof fn lemma_pos_at_bounds(i: int)
    requires
        0 <= i < 9,
    ensures
        in_bounds_spec(pos_at(i)),
        index_of(pos_at(i)) == i,
{
}

/// Number of unmarked cells in `s` at index `from` or later.
pub open spec fn count_empty_from(s: Seq<Cell>, from: int) -> nat
    decreases s.len() - from,
{
    if from < 0 || from >= s.len() {
        0
    } else {
        (if s[from] is None {
            1nat
        } else {
            0nat
        }) + count_empty_from(s, from + 1)
    }
}

/// Number of unmarked cells in `s`.
pub open spec fn count_empty(s: Seq<Cell>) -> nat {
    count_empty_from(s, 0)
}

/// Number of cells in `s` at index `from` or later that hold `m`.
pub open spec fn count_mark_from(s: Seq<Cell>, from: int, m: Mark) -> nat
    decreases s.len() - from,
{
    if from < 0 || from >= s.len() {
        0
    } else {
        (if s[from] == Some(m) {
            1nat
        } else {
            0nat
        }) + count_mark_from(s, from + 1, m)
    }
}

/// Number of cells in `s` that hold `m`.
pub open spec fn count_mark(s: Seq<Cell>, m: Mark) -> nat {
    count_mark_from(s, 0, m)
}

/// Number of marked cells in `s`.
pub open spec fn count_marked(s: Seq<Cell>) -> nat {
    count_mark(s, Mark::X) + count_mark(s, Mark::O)
}

/// Every cell of an all-unmarked grid counts as empty.
pub proof fn lemma_count_empty_all(s: Seq<Cell>, from: int)
    requires
        0 <= from <= s.len(),
        forall|i: int| 0 <= i < s.len() ==> s[i] is None,
    ensures
        count_empty_from(s, from) == s.len() - from,
    decreases s.len() - from,
{
    if from < s.len() {
        lemma_count_empty_all(s, from + 1);
    }
}

/// Positions of the unmarked cells of `s` at index `from` or later,
/// in row-major order.
pub open spec fn empties_from(s: Seq<Cell>, from: int) -> Seq<Position>
    decreases s.len() - from,
{
    if from < 0 || from >= s.len() {
        Seq::empty()
    } else if s[from] is None {
        seq![pos_at(from)] + empties_from(s, from + 1)
    } else {
        empties_from(s, from + 1)
    }
}

/// Each suffix of a grid splits into unmarked cells and cells marked
/// `X` or `O`.
pub proof fn lemma_counts_partition(s: Seq<Cell>, from: int)
    requires
        0 <= from <= s.len(),
    ensures
        count_empty_from(s, from) + count_mark_from(s, from, Mark::X) + count_mark_from(
            s,
            from,
            Mark::O,
        ) == s.len() - from,
    decreases s.len() - from,
{
    if from < s.len() {
        lemma_counts_partition(s, from + 1);
        let c = s[from];
        assert(c is None || c == Some(Mark::X) || c == Some(Mark::O));
    }
}

/// The unmarked positions are as many as the unmarked cells.
pub proof fn lemma_empties_len(s: Seq<Cell>, from: int)
    ensures
        empties_from(s, from).len() == count_empty_from(s, from),
    decreases s.len() - from,
{
    if 0 <= from < s.len() {
        lemma_empties_len(s, from + 1);
    }
}

/// Every listed unmarked position is in bounds, unmarked, and listed
/// once, provided the grid has nine cells.
pub proof fn lemma_empties_sound(s: Seq<Cell>, from: int)
    requires
        s.len() == 9,
    ensures
        forall|k: int|
            0 <= k < empties_from(s, from).len() ==> {
                let p = #[trigger] empties_from(s, from)[k];
                &&& in_bounds_spec(p)
                &&& from <= index_of(p) < 9
                &&& s[index_of(p)] is None
            },
    decreases s.len() - from,
{
    if 0 <= from < s.len() {
        lemma_empties_sound(s, from + 1);
        if s[from] is None {
            lemma_pos_at_bounds(from);
            assert(empties_from(s, from) == seq![pos_at(from)] + empties_from(s, from + 1));
            assert forall|k: int| 0 <= k < empties_from(s, from).len() implies {
                let p = #[trigger] empties_from(s, from)[k];
                &&& in_bounds_spec(p)
                &&& from <= index_of(p) < 9
                &&& s[index_of(p)] is None
            } by {
                if k > 0 {
                    assert(empties_from(s, from)[k] == empties_from(s, from + 1)[k - 1]);
                }
            }
        }
    }
}

/// Every unmarked in-bounds position at index `from` or later is listed.
pub proof fn lemma_empties_complete(s: Seq<Cell>, from: int, p: Position)
    requires
        s.len() == 9,
        in_bounds_spec(p),
        0 <= from <= index_of(p),
        s[index_of(p)] is None,
    ensures
        empties_from(s, from).contains(p),
    decreases s.len() - from,
{
    lemma_index_of_bounds(p);
    if from == index_of(p) {
        assert(empties_from(s, from)[0] == p);
    } else {
        lemma_empties_complete(s, from + 1, p);
        let k = choose|k: int|
            0 <= k < empties_from(s, from + 1).len() && #[trigger] empties_from(s, from + 1)[k]
                == p;
        if s[from] is None {
            assert(empties_from(s, from)[k + 1] == p);
        }
    }
}

/// Marking one unmarked cell removes exactly that position from the
/// unmarked listing and adjusts the counts by one.
pub proof fn lemma_counts_after_mark(s: Seq<Cell>, from: int, j: int, m: Mark)
    requires
        0 <= from,
        0 <= j < s.len(),
        s[j] is None,
    ensures
        count_empty_from(s.update(j, Some(m)), from) == count_empty_from(s, from) - (
        if from <= j {
            1int
        } else {
            0int
        }),
        count_mark_from(s.update(j, Some(m)), from, m) == count_mark_from(s, from, m) + (
        if from <= j {
            1int
        } else {
            0int
        }),
        count_mark_from(s.update(j, Some(m)), from, m.swap_spec()) == count_mark_from(
            s,
            from,
            m.swap_spec(),
        ),
    decreases s.len() - from,
{
    let t = s.update(j, Some(m));
    if from < s.len() {
        lemma_counts_after_mark(s, from + 1, j, m);
        if from == j {
            assert(t[from] == Some(m));
        } else {
            assert(t[from] == s[from]);
        }
    }
}

/// The unmarked positions and the marked cells together account for
/// all nine cells of a grid.
pub proof fn lemma_empties_complement(g: Grid)
    ensures
        g.empties().len() + count_marked(g.cells@) == 9,
{
    lemma_empties_len(g.cells@, 0);
    lemma_counts_partition(g.cells@, 0);
}

/// A 3x3 Tic-tac-toe grid.
///
/// Cells are stored in row-major order: the cell at `(r, c)` has
/// index `3 * r + c`.
#[derive(Clone, Copy)]
pub struct Grid {
    pub cells: [Cell; 9],
    pub last: Option<Mark>,
}

/// A grid with every cell unmarked.
pub open spec fn empty_grid() -> Grid {
    Grid { cells: vstd::array::spec_array_fill_for_copy_type(None), last: None }
}

impl Grid {
    /// Positions of the unmarked cells, in row-major order.
    pub open spec fn empties(self) -> Seq<Position> {
        empties_from(self.cells@, 0)
    }

    /// The cell at `p` is unmarked.
    pub open spec fn empty_at(self, p: Position) -> bool {
        self.cells@[index_of(p)] is None
    }

    /// Creates a new empty `Grid`.
    pub fn new() -> (g: Self)
        ensures
            g == empty_grid(),
            forall|i: int| 0 <= i < 9 ==> g.cells@[i] is None,
            g.last is None,
    {
        let g = Self { cells: [None; 9], last: None };
        proof {
            assert(g.cells =~= empty_grid().cells);
        }
        g
    }

    /// Returns `true` iff `p` lies within the bounds of a 3x3 grid,
    /// i.e. both coordinates are in `{0, 1, 2}`.
    pub fn in_bounds(p: Position) -> (r: bool)
        ensures
            r == in_bounds_spec(p),
    {
        p.0 < 3 && p.1 < 3
    }

    /// Marks the unmarked cell at `p` with `m`.
    pub fn mark(&mut self, p: Position, m: Mark)
        requires
            in_bounds_spec(p),
            old(self).empty_at(p),
        ensures
            final(self).cells@ == old(self).cells@.update(index_of(p), Some(m)),
            final(self).last == Some(m),
    {
        let i = to_index(p);
        self.cells[i] = Some(m);
        self.last = Some(m);
    }

    /// Returns `true` iff the cell at `p` is marked.
    pub fn is_marked_at(&self, p: Position) -> (r: bool)
        requires
            in_bounds_spec(p),
        ensures
            r == !self.empty_at(p),
    {
        !self.is_unmarked_at(p)
    }

    /// Returns `true` iff the cell at `p` is not marked.
    pub fn is_unmarked_at(&self, p: Position) -> (r: bool)
        requires
            in_bounds_spec(p),
        ensures
            r == self.empty_at(p),
    {
        self.cells[to_index(p)].is_none()
    }

    /// Returns the last `Mark`, if any, to be marked on a cell.
    pub fn last_mark(&self) -> (r: Option<Mark>)
        ensures
            r == self.last,
    {
        self.last
    }

    /// Returns an iterator over the positions of the unmarked cells,
    /// in row-major order.
    pub fn unmarked_positions(&self) -> (it: UnmarkedPositions)
        ensures
            it.cells@ == self.cells@,
            it.index == 0,
            it.remaining() == self.empties(),
    {
        UnmarkedPositions { cells: self.cells, index: 0 }
    }

    /// Returns an iterator over all nine cells, in row-major order.
    pub fn cells(&self) -> (it: Cells)
        ensures
            it.cells@ == self.cells@,
            it.index == 0,
    {
        Cells { cells: self.cells, index: 0 }
    }

    /// Collects the positions of the unmarked cells, in row-major order.
    pub(crate) fn unmarked_vec(&self) -> (r: Vec<Position>)
        ensures
            r@ == self.empties(),
    {
        let mut r: Vec<Position> = Vec::new();
        let mut i: usize = 0;
        while i < 9
            invariant
                i <= 9,
                r@ + empties_from(self.cells@, i as int) == self.empties(),
            decreases 9 - i,
        {
            if self.cells[i].is_none() {
                r.push((i / 3, i % 3));
                assert(r@ + empties_from(self.cells@, i + 1) == self.empties());
            }
            i += 1;
        }
        assert(r@ =~= self.empties());
        r
    }
}

fn to_index(p: Position) -> (i: usize)
    requires
        in_bounds_spec(p),
    ensures
        i == index_of(p),
        i < 9,
{
    p.0 * 3 + p.1
}

fn to_pos(i: usize) -> (p: Position)
    requires
        i < 9,
    ensures
        p == pos_at(i as int),
{
    (i / 3, i % 3)
}

/// An iterator over the positions of the unmarked cells of a grid.
///
/// Created by [`Grid::unmarked_positions`]; yields positions in
/// row-major order.
pub struct UnmarkedPositions {
    pub cells: [Cell; 9],
    pub index: usize,
}

impl UnmarkedPositions {
    /// Positions this iterator has yet to yield.
    pub open spec fn remaining(self) -> Seq<Position> {
        empties_from(self.cells@, self.index as int)
    }

    /// Yields the next unmarked position, if any remains.
    pub fn next(&mut self) -> (r: Option<Position>)
        ensures
            final(self).cells@ == old(self).cells@,
            old(self).remaining().len() > 0 ==> r == Some(old(self).remaining()[0])
                && final(self).remaining() == old(self).remaining().drop_first(),
            old(self).remaining().len() == 0 ==> r is None && final(self).remaining()
                == old(self).remaining(),
    {
        while self.index < 9 && self.cells[self.index].is_some()
            invariant
                self.cells@ == old(self).cells@,
                self.remaining() == old(self).remaining(),
            decreases 9 - self.index,
        {
            self.index += 1;
        }
        if self.index >= 9 {
            None
        } else {
            self.index += 1;
            let p = to_pos(self.index - 1);
            proof {
                let s = self.cells@;
                let j = old(self).index as int;
                assert(empties_from(s, self.index - 1) == seq![pos_at(self.index - 1)]
                    + empties_from(s, self.index as int));
                assert(old(self).remaining()[0] == pos_at(self.index - 1));
                assert(final(self).remaining() =~= old(self).remaining().drop_first());
            }
            Some(p)
        }
    }
}

/// An iterator over the cells of a grid.
///
/// Created by [`Grid::cells`]; yields all nine cells in row-major
/// order.
pub struct Cells {
    pub cells: [Cell; 9],
    pub index: usize,
}

impl Cells {
    /// Yields the next cell, if any remains.
    pub fn next(&mut self) -> (r: Option<Cell>)
        ensures
            final(self).cells@ == old(self).cells@,
            old(self).index < 9 ==> r == Some(old(self).cells@[old(self).index as int])
                && final(self).index == old(self).index + 1,
            old(self).index >= 9 ==> r is None && *final(self) == *old(self),
    {
        if self.index < 9 {
            self.index += 1;
            Some(self.cells[self.index - 1])
        } else {
            None
        }
    }
}

} // verus!
