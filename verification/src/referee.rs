use crate::grid::{Cell, Grid};
use crate::mark::Mark;
use vstd::prelude::*;

verus! {

/// A `Win` or `Draw`.
#[derive(Debug, PartialEq, Eq, Structural, Clone, Copy)]
pub enum Outcome {
    Win,
    Draw,
}

/// The `k`-th winning arrangement, as a triple of row-major cell
/// indices: three rows, three columns, two diagonals.
pub open spec fn arrangement_spec(k: int) -> (int, int, int) {
    if k == 0 {
        (0, 1, 2)
    } else if k == 1 {
        (3, 4, 5)
    } else if k == 2 {
        (6, 7, 8)
    } else if k == 3 {
        (0, 3, 6)
    } else if k == 4 {
        (1, 4, 7)
    } else if k == 5 {
        (2, 5, 8)
    } else {
        if k == 6 {
            (0, 4, 8)
        } else {
            (2, 4, 6)
        }
    }
}

/// The three cells of arrangement `k` all hold `m`.
pub open spec fn line_won(s: Seq<Cell>, k: int, m: Mark) -> bool {
    let t = arrangement_spec(k);
    s[t.0] == Some(m) && s[t.1] == Some(m) && s[t.2] == Some(m)
}

/// Some winning arrangement is fully occupied by `m`.
pub open spec fn is_winner(s: Seq<Cell>, m: Mark) -> bool {
    exists|k: int| 0 <= k < 8 && line_won(s, k, m)
}

/// Some winning arrangement is monochromatic.
pub open spec fn has_winner(s: Seq<Cell>) -> bool {
    is_winner(s, Mark::X) || is_winner(s, Mark::O)
}

/// Every cell is marked.
pub open spec fn is_full(s: Seq<Cell>) -> bool {
    forall|i: int| 0 <= i < 9 ==> s[i] is Some
}

/// What [`evaluate`] returns: `Win` if some arrangement is
/// monochromatic, else `Draw` if every cell is marked, else `None`.
pub open spec fn evaluate_spec(g: Grid) -> Option<Outcome> {
    if has_winner(g.cells@) {
        Some(Outcome::Win)
    } else if is_full(g.cells@) {
        Some(Outcome::Draw)
    } else {
        None
    }
}

/// Determines the `Outcome`, if any, of a given `Grid`.
pub fn evaluate(grid: &Grid) -> (r: Option<Outcome>)
    ensures
        r == evaluate_spec(*grid),
{
    if is_win(grid) {
        Some(Outcome::Win)
    } else if is_draw(grid) {
        Some(Outcome::Draw)
    } else {
        None
    }
}

fn arrangement(k: usize) -> (r: (usize, usize, usize))
    requires
        k < 8,
    ensures
        r.0 < 9 && r.1 < 9 && r.2 < 9,
        (r.0 as int, r.1 as int, r.2 as int) == arrangement_spec(k as int),
{
    if k == 0 {
        (0, 1, 2)
    } else if k == 1 {
        (3, 4, 5)
    } else if k == 2 {
        (6, 7, 8)
    } else if k == 3 {
        (0, 3, 6)
    } else if k == 4 {
        (1, 4, 7)
    } else if k == 5 {
        (2, 5, 8)
    } else if k == 6 {
        (0, 4, 8)
    } else {
        (2, 4, 6)
    }
}

fn is_win(grid: &Grid) -> (r: bool)
    ensures
        r == has_winner(grid.cells@),
{
    let mut k: usize = 0;
    while k < 8
        invariant
            k <= 8,
            forall|j: int, m: Mark| 0 <= j < k ==> !line_won(grid.cells@, j, m),
        decreases 8 - k,
    {
        let (a, b, c) = arrangement(k);
        let won = match (grid.cells[a], grid.cells[b], grid.cells[c]) {
            (Some(x), Some(y), Some(z)) => x == y && y == z,
            _ => false,
        };
        if won {
            proof {
                let x = grid.cells@[a as int].unwrap();
                assert(line_won(grid.cells@, k as int, x));
            }
            return true;
        }
        proof {
            assert forall|m: Mark| !line_won(grid.cells@, k as int, m) by {
                if line_won(grid.cells@, k as int, m) {
                    assert(grid.cells@[a as int] == Some(m));
                }
            }
        }
        k += 1;
    }
    false
}

fn is_draw(grid: &Grid) -> (r: bool)
    ensures
        r == is_full(grid.cells@),
{
    let mut i: usize = 0;
    while i < 9
        invariant
            i <= 9,
            forall|j: int| 0 <= j < i ==> grid.cells@[j] is Some,
        decreases 9 - i,
    {
        if grid.cells[i].is_none() {
            return false;
        }
        i += 1;
    }
    true
}

/// After marking one cell of a grid that had no winner, only the mark
/// just placed can be a winner.
pub proof fn lemma_no_new_winner_for_other(s: Seq<Cell>, j: int, m: Mark)
    requires
        s.len() == 9,
        0 <= j < 9,
        !has_winner(s),
    ensures
        !is_winner(s.update(j, Some(m)), m.swap_spec()),
{
    let t = s.update(j, Some(m));
    let other = m.swap_spec();
    assert forall|k: int| 0 <= k < 8 implies !line_won(t, k, other) by {
        if line_won(t, k, other) {
            let tr = arrangement_spec(k);
            assert(t[j] == Some(m));
            assert(s[tr.0] == Some(other) && s[tr.1] == Some(other) && s[tr.2] == Some(other));
            assert(line_won(s, k, other));
            assert(is_winner(s, other));
        }
    }
}

} // verus!
