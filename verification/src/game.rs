use crate::grid::{
    count_mark, empty_grid, in_bounds_spec, index_of, lemma_counts_after_mark,
    lemma_counts_partition, lemma_count_empty_all, Grid, Position,
};
use crate::mark::Mark;
use crate::referee::{
    self, evaluate_spec, has_winner, is_full, is_winner, lemma_no_new_winner_for_other, Outcome,
};
use vstd::prelude::*;

verus! {

/// Whether a game is still in play or has ended with an `Outcome`.
#[derive(Debug, Clone, Copy)]
pub enum State {
    Play,
    GameOver(Outcome),
}

/// The possible errors that can occur when playing a [`Game`].
#[derive(Debug, PartialEq, Eq, Structural, Clone, Copy)]
pub enum PlayError {
    /// Tried to mark a marked cell.
    AlreadyMarked,
    /// Tried to play at a position `p` with `Grid::in_bounds(p) == false`.
    OutOfBounds,
}

/// The game logic for Tic-tac-toe.
///
/// Either `X` or `O` plays first and then play alternates until the
/// game is over, either by virtue of a win or a draw.  The state
/// machine enforces those rules, so every grid it exposes is one
/// reachable by legal play; [`Game::wf`] captures what that
/// guarantees.
#[derive(Clone, Copy)]
pub struct Game {
    pub grid: Grid,
    pub turn: Mark,
    pub state: State,
}

impl Game {
    /// The game is still in play.
    pub open spec fn is_playing_spec(self) -> bool {
        self.state is Play
    }

    /// The reason the game is over, if it is.
    pub open spec fn outcome_spec(self) -> Option<Outcome> {
        match self.state {
            State::Play => None,
            State::GameOver(o) => Some(o),
        }
    }

    /// Every reachable game state satisfies this invariant:
    /// - in play: no winning arrangement is monochromatic, and the
    ///   player whose turn it is has placed the same number of marks
    ///   as the opponent, or one fewer;
    /// - won: some winning arrangement is fully occupied by `turn`'s
    ///   mark, the last player to move;
    /// - drawn: all nine cells are marked and no arrangement is
    ///   monochromatic.
    pub open spec fn wf(self) -> bool {
        let s = self.grid.cells@;
        let mine = count_mark(s, self.turn);
        let theirs = count_mark(s, self.turn.swap_spec());
        match self.state {
            State::Play => evaluate_spec(self.grid) is None && (theirs == mine || theirs == mine
                + 1),
            State::GameOver(Outcome::Win) => is_winner(s, self.turn) && (mine == theirs || mine
                == theirs + 1),
            State::GameOver(Outcome::Draw) => is_full(s) && !has_winner(s) && (mine == theirs
                || mine == theirs + 1),
        }
    }

    /// `p` denotes an unmarked in-bounds cell of a game in play.
    pub open spec fn valid_move(self, p: Position) -> bool {
        self.state is Play && in_bounds_spec(p) && self.grid.cells@[index_of(p)] is None
    }

    /// The state after legally playing `p`: the cell at `p` is marked
    /// with `turn`; on a win or a draw the game ends with `turn` left
    /// as the player who just moved, otherwise the turn is swapped.
    pub open spec fn play_step(self, p: Position) -> Game {
        let g2 = Grid {
            cells: vstd::array::spec_array_update(self.grid.cells, index_of(p), Some(self.turn)),
            last: Some(self.turn),
        };
        match evaluate_spec(g2) {
            Some(o) => Game { grid: g2, turn: self.turn, state: State::GameOver(o) },
            None => Game { grid: g2, turn: self.turn.swap_spec(), state: State::Play },
        }
    }

    /// The state after a restart: an empty grid, in play, started by
    /// the previous winner on a win, by the other player on a draw,
    /// and by the same player otherwise.
    pub open spec fn restart_spec(self) -> Game {
        let first = if self.state matches State::GameOver(Outcome::Draw) {
            self.turn.swap_spec()
        } else {
            self.turn
        };
        Game { grid: empty_grid(), turn: first, state: State::Play }
    }

    /// Starts a new game with an empty grid and lets `first` play first.
    pub fn start(first: Mark) -> (g: Self)
        ensures
            g == (Game { grid: empty_grid(), turn: first, state: State::Play }),
            g.wf(),
    {
        let g = Self { grid: Grid::new(), turn: first, state: State::Play };
        proof {
            lemma_empty_game_wf(g);
        }
        g
    }

    /// Restarts the game for a new round.
    pub fn restart(&mut self)
        ensures
            *final(self) == old(self).restart_spec(),
            final(self).wf(),
    {
        self.grid = Grid::new();
        if let State::GameOver(Outcome::Draw) = self.state {
            self.turn = self.turn.swap();
        }
        self.state = State::Play;
        proof {
            lemma_empty_game_wf(*self);
        }
    }

    /// Marks the cell at `p` with the mark given by `turn`, unless the
    /// game is over.
    ///
    /// It returns:
    /// - `Some(PlayError::OutOfBounds)` iff the game is not over and
    ///   `p` is out of bounds;
    /// - `Some(PlayError::AlreadyMarked)` iff the game is not over and
    ///   the cell at `p` is already marked;
    /// - `None` in all other cases: on a legal move the game advances
    ///   by [`Game::play_step`], and after game over nothing changes.
    pub fn play(&mut self, p: Position) -> (r: Option<PlayError>)
        requires
            old(self).wf(),
        ensures
            final(self).wf(),
            !old(self).is_playing_spec() ==> r is None && *final(self) == *old(self),
            old(self).is_playing_spec() && !in_bounds_spec(p) ==> r == Some(PlayError::OutOfBounds)
                && *final(self) == *old(self),
            old(self).is_playing_spec() && in_bounds_spec(p) && !old(self).grid.empty_at(p) ==> r
                == Some(PlayError::AlreadyMarked) && *final(self) == *old(self),
            old(self).valid_move(p) ==> r is None && *final(self) == old(self).play_step(p),
    {
        if self.is_playing() {
            if Grid::in_bounds(p) {
                if self.grid.is_unmarked_at(p) {
                    unchecked_play(self, p);
                    None
                } else {
                    Some(PlayError::AlreadyMarked)
                }
            } else {
                Some(PlayError::OutOfBounds)
            }
        } else {
            None
        }
    }

    /// Returns `true` iff this `Game` is in play.
    pub fn is_playing(&self) -> (r: bool)
        ensures
            r == self.is_playing_spec(),
    {
        matches!(self.state, State::Play)
    }

    /// Returns `true` iff this `Game` is over.
    pub fn is_game_over(&self) -> (r: bool)
        ensures
            r == !self.is_playing_spec(),
    {
        !self.is_playing()
    }

    /// Returns the grid managed by this `Game`.
    pub fn grid(&self) -> (r: &Grid)
        ensures
            *r == self.grid,
    {
        &self.grid
    }

    /// Returns whose turn it is to play; once the game is won, this is
    /// the winner's mark.
    pub fn turn(&self) -> (r: Mark)
        ensures
            r == self.turn,
    {
        self.turn
    }

    /// Returns why this `Game` is over, if it is over.
    pub fn outcome(&self) -> (r: Option<Outcome>)
        ensures
            r == self.outcome_spec(),
    {
        if let State::GameOver(outcome) = self.state {
            Some(outcome)
        } else {
            None
        }
    }
}

/// Advances the game by the move `p` without checking it first; the
/// caller must hand in a legal move.
pub fn unchecked_play(game: &mut Game, p: Position)
    requires
        old(game).wf(),
        old(game).valid_move(p),
    ensures
        *final(game) == old(game).play_step(p),
        final(game).wf(),
{
    proof {
        lemma_play_step_wf(*game, p);
    }
    game.grid.mark(p, game.turn);
    proof {
        assert(game.grid.cells =~= old(game).play_step(p).grid.cells);
    }
    if let Some(outcome) = referee::evaluate(&game.grid) {
        game.state = State::GameOver(outcome);
    } else {
        game.turn = game.turn.swap();
    }
}

/// A game on an all-empty grid is well formed whatever mark plays
/// first, provided it is in play.
proof fn lemma_empty_game_wf(g: Game)
    requires
        g.state is Play,
        forall|i: int| 0 <= i < 9 ==> g.grid.cells@[i] is None,
    ensures
        g.wf(),
{
    let s = g.grid.cells@;
    lemma_count_empty_all(s, 0);
    lemma_counts_partition(s, 0);
    assert(!is_winner(s, Mark::X)) by {
        assert forall|k: int| 0 <= k < 8 implies !referee::line_won(s, k, Mark::X) by {
            let t = referee::arrangement_spec(k);
            assert(s[t.0] is None);
        }
    }
    assert(!is_winner(s, Mark::O)) by {
        assert forall|k: int| 0 <= k < 8 implies !referee::line_won(s, k, Mark::O) by {
            let t = referee::arrangement_spec(k);
            assert(s[t.0] is None);
        }
    }
    assert(!is_full(s));
}

/// A legal move of a well-formed game leads to a well-formed game.
pub proof fn lemma_play_step_wf(g: Game, p: Position)
    requires
        g.wf(),
        g.valid_move(p),
    ensures
        g.play_step(p).wf(),
{
    let s = g.grid.cells@;
    let m = g.turn;
    let j = index_of(p);
    let t = s.update(j, Some(m));
    let g2 = g.play_step(p);
    assert(g2.grid.cells@ == t);
    lemma_counts_after_mark(s, 0, j, m);
    lemma_no_new_winner_for_other(s, j, m);
    if has_winner(t) {
        assert(is_winner(t, m));
    } else if is_full(t) {
    } else {
        assert(g2.turn == m.swap_spec());
        assert(m.swap_spec().swap_spec() == m);
    }
}

/// On every reachable grid the numbers of `X` and `O` marks differ by
/// at most one.
pub proof fn lemma_counts_balanced(g: Game)
    requires
        g.wf(),
    ensures
        -1 <= count_mark(g.grid.cells@, Mark::X) - count_mark(g.grid.cells@, Mark::O) <= 1,
{
    assert(g.turn == Mark::X || g.turn == Mark::O);
}

/// A won game shows a winning arrangement fully occupied by the mark
/// of `turn`, the last player to move.
pub proof fn lemma_win_shows_winner(g: Game)
    requires
        g.wf(),
        g.outcome_spec() == Some(Outcome::Win),
    ensures
        is_winner(g.grid.cells@, g.turn),
{
}

/// A drawn game is full and shows no monochromatic arrangement.
pub proof fn lemma_draw_shows_no_winner(g: Game)
    requires
        g.wf(),
        g.outcome_spec() == Some(Outcome::Draw),
    ensures
        is_full(g.grid.cells@),
        !has_winner(g.grid.cells@),
{
}

/// Restarting twice from any state gives the same result as
/// restarting once.
pub proof fn lemma_restart_idempotent(g: Game)
    ensures
        g.restart_spec().restart_spec() == g.restart_spec(),
{
}

} // verus!
