//! The perfect-play move selector.
//!
//! [`moves`] returns the set of positions that are optimal for the
//! player whose turn it is, under exhaustive search with a tie-break
//! that prefers lines resolving at a smaller depth; [`random_move`]
//! picks one of them uniformly at random.

use crate::game::{lemma_play_step_wf, Game};
use crate::grid::{
    count_empty, index_of, lemma_counts_after_mark, lemma_empties_complete, lemma_empties_sound,
    lemma_index_of_bounds, lemma_pos_at_bounds, pos_at, Position,
};
use crate::referee::{is_full, Outcome};
use vstd::prelude::*;

verus! {

/// Score of a terminal outcome, seen by the player who just moved:
/// a win is worth more than a draw.
pub open spec fn outcome_score(o: Outcome) -> int {
    match o {
        Outcome::Win => 2,
        Outcome::Draw => 1,
    }
}

/// What a search of one subtree concludes: the score of its best
/// line, the depth at which that line resolves, and the optimal
/// positions collected so far.
pub struct ValueModel {
    pub score: int,
    pub depth: int,
    pub positions: Seq<Position>,
}

/// The better of two search results for the maximizing player:
/// higher score first, smaller depth on equal scores, and both
/// position lists kept when score and depth tie.
pub open spec fn vmax(a: ValueModel, b: ValueModel) -> ValueModel {
    if a.score > b.score {
        a
    } else if b.score > a.score {
        b
    } else if a.depth < b.depth {
        a
    } else if b.depth < a.depth {
        b
    } else {
        ValueModel { score: a.score, depth: a.depth, positions: a.positions + b.positions }
    }
}

/// The better of two search results for the minimizing player.
pub open spec fn vmin(a: ValueModel, b: ValueModel) -> ValueModel {
    if a.score < b.score {
        a
    } else if b.score < a.score {
        b
    } else if a.depth < b.depth {
        a
    } else if b.depth < a.depth {
        b
    } else {
        ValueModel { score: a.score, depth: a.depth, positions: a.positions + b.positions }
    }
}

/// Positions open to the player to move.
pub open spec fn empties_of(g: Game) -> Seq<Position> {
    g.grid.empties()
}

pub open spec fn dummy_value() -> ValueModel {
    ValueModel { score: 0, depth: 0, positions: Seq::empty() }
}

/// Value of the subgame reached by playing `p`, from the maximizing
/// player's side, labelled with the move that reaches it.
pub open spec fn max_child(g: Game, depth: int, p: Position) -> ValueModel
    decreases count_empty(g.grid.cells@), 0int, 0int,
{
    if g.valid_move(p) {
        proof {
            lemma_index_of_bounds(p);
            lemma_counts_after_mark(g.grid.cells@, 0, index_of(p), g.turn);
        }
        let v = minimize_spec(g.play_step(p), depth + 1);
        ValueModel { score: v.score, depth: v.depth, positions: seq![p] }
    } else {
        dummy_value()
    }
}

/// Value of the subgame reached by playing `p`, from the minimizing
/// player's side.
pub open spec fn min_child(g: Game, depth: int, p: Position) -> ValueModel
    decreases count_empty(g.grid.cells@), 0int, 0int,
{
    if g.valid_move(p) {
        proof {
            lemma_index_of_bounds(p);
            lemma_counts_after_mark(g.grid.cells@, 0, index_of(p), g.turn);
        }
        let v = maximize_spec(g.play_step(p), depth + 1);
        ValueModel { score: v.score, depth: v.depth, positions: seq![p] }
    } else {
        dummy_value()
    }
}

/// Folds [`vmax`] over the children reached by `ps`, left to right.
pub open spec fn max_fold(g: Game, depth: int, ps: Seq<Position>, acc: Option<ValueModel>) -> Option<
    ValueModel,
>
    decreases count_empty(g.grid.cells@), 1int, ps.len(),
{
    if ps.len() == 0 {
        acc
    } else {
        let v = max_child(g, depth, ps.first());
        let acc2 = match acc {
            None => Some(v),
            Some(a) => Some(vmax(a, v)),
        };
        max_fold(g, depth, ps.drop_first(), acc2)
    }
}

/// Folds [`vmin`] over the children reached by `ps`, left to right.
pub open spec fn min_fold(g: Game, depth: int, ps: Seq<Position>, acc: Option<ValueModel>) -> Option<
    ValueModel,
>
    decreases count_empty(g.grid.cells@), 1int, ps.len(),
{
    if ps.len() == 0 {
        acc
    } else {
        let v = min_child(g, depth, ps.first());
        let acc2 = match acc {
            None => Some(v),
            Some(a) => Some(vmin(a, v)),
        };
        min_fold(g, depth, ps.drop_first(), acc2)
    }
}

/// Value of `g` for the player to move, who maximizes.  A terminal
/// game was lost or drawn by that player, so it scores negatively.
pub open spec fn maximize_spec(g: Game, depth: int) -> ValueModel
    decreases count_empty(g.grid.cells@), 2int, 0int,
{
    if g.state is Play {
        match max_fold(g, depth, empties_of(g), None) {
            Some(v) => v,
            None => dummy_value(),
        }
    } else {
        ValueModel {
            score: -outcome_score(g.outcome_spec().unwrap()),
            depth,
            positions: Seq::empty(),
        }
    }
}

/// Value of `g` for the opponent of the player to move, who
/// minimizes.  A terminal game was won or drawn by that opponent.
pub open spec fn minimize_spec(g: Game, depth: int) -> ValueModel
    decreases count_empty(g.grid.cells@), 2int, 0int,
{
    if g.state is Play {
        match min_fold(g, depth, empties_of(g), None) {
            Some(v) => v,
            None => dummy_value(),
        }
    } else {
        ValueModel { score: outcome_score(g.outcome_spec().unwrap()), depth, positions: Seq::empty(
        ) }
    }
}

/// What [`moves`] returns of a game.
pub open spec fn moves_spec(g: Game) -> Seq<Position> {
    maximize_spec(g, 0).positions
}

/// A search result: the score and resolution depth of the best line
/// found, and the equally optimal positions that reach it.
pub struct Value {
    pub score: i32,
    pub depth: u32,
    pub positions: Vec<Position>,
}

impl Value {
    /// The mathematical content of this result.
    pub open spec fn model(self) -> ValueModel {
        ValueModel {
            score: self.score as int,
            depth: self.depth as int,
            positions: self.positions@,
        }
    }

    /// A result with the given score and depth and no positions yet.
    pub fn new(score: i32, depth: u32) -> (v: Self)
        ensures
            v.model() == (ValueModel {
                score: score as int,
                depth: depth as int,
                positions: Seq::<Position>::empty(),
            }),
    {
        let v = Self { score, depth, positions: Vec::new() };
        proof {
            assert(v.model().positions =~= Seq::<Position>::empty());
        }
        v
    }

    /// Combines two results for the maximizing player.
    pub fn max(self, other: Self) -> (r: Self)
        ensures
            r.model() == vmax(self.model(), other.model()),
    {
        if self.score > other.score {
            self
        } else if other.score > self.score {
            other
        } else if self.depth < other.depth {
            self
        } else if other.depth < self.depth {
            other
        } else {
            let mut ps = self.positions;
            let mut rest = other.positions;
            ps.append(&mut rest);
            Self { score: self.score, depth: self.depth, positions: ps }
        }
    }

    /// Combines two results for the minimizing player.
    pub fn min(self, other: Self) -> (r: Self)
        ensures
            r.model() == vmin(self.model(), other.model()),
    {
        if self.score < other.score {
            self
        } else if other.score < self.score {
            other
        } else if self.depth < other.depth {
            self
        } else if other.depth < self.depth {
            other
        } else {
            let mut ps = self.positions;
            let mut rest = other.positions;
            ps.append(&mut rest);
            Self { score: self.score, depth: self.depth, positions: ps }
        }
    }
}

spec fn model_opt(v: Option<Value>) -> Option<ValueModel> {
    match v {
        None => None,
        Some(x) => Some(x.model()),
    }
}

/// A game in play always offers a move.
pub proof fn lemma_playing_has_empty(g: Game)
    requires
        g.wf(),
        g.state is Play,
    ensures
        empties_of(g).len() > 0,
{
    let s = g.grid.cells@;
    assert(!is_full(s));
    let i = choose|i: int| 0 <= i < 9 && !(s[i] is Some);
    lemma_pos_at_bounds(i);
    lemma_empties_complete(s, 0, pos_at(i));
}

/// Returns the set of positions that are optimal for the player whose
/// turn it is, in row-major order; empty once the game is over.
pub fn moves(game: &Game) -> (r: Vec<Position>)
    requires
        game.wf(),
    ensures
        r@ == moves_spec(*game),
{
    proof {
        crate::grid::lemma_counts_partition(game.grid.cells@, 0);
    }
    maximize(game, 0).positions
}

#[verifier::loop_isolation(false)]
fn maximize(game: &Game, depth: u32) -> (v: Value)
    requires
        game.wf(),
        depth + count_empty(game.grid.cells@) <= 9,
    ensures
        v.model() == maximize_spec(*game, depth as int),
    decreases count_empty(game.grid.cells@),
{
    if game.is_playing() {
        let positions = game.grid().unmarked_vec();
        proof {
            lemma_playing_has_empty(*game);
            lemma_empties_sound(game.grid.cells@, 0);
            assert(empties_of(*game).skip(0) =~= empties_of(*game));
        }
        let mut value: Option<Value> = None;
        let mut i: usize = 0;
        while i < positions.len()
            invariant
                i <= positions.len(),
                value is Some <==> i > 0,
                max_fold(*game, depth as int, empties_of(*game), None) == max_fold(
                    *game,
                    depth as int,
                    empties_of(*game).skip(i as int),
                    model_opt(value),
                ),
            decreases positions.len() - i,
        {
            let pos = positions[i];
            let ghost rest = empties_of(*game).skip(i as int);
            proof {
                assert(rest[0] == empties_of(*game)[i as int]);
                assert(game.valid_move(pos));
                lemma_index_of_bounds(pos);
                lemma_counts_after_mark(game.grid.cells@, 0, index_of(pos), game.turn);
                lemma_play_step_wf(*game, pos);
            }
            let mut next_game = *game;
            next_game.play(pos);
            let mut next_value = minimize(&next_game, depth + 1);
            next_value.positions = vec![pos];
            proof {
                assert(next_value.positions@ =~= seq![pos]);
                assert(next_value.model() == max_child(*game, depth as int, pos));
                assert(rest.drop_first() =~= empties_of(*game).skip(i + 1));
            }
            value = match value {
                None => Some(next_value),
                Some(v) => Some(v.max(next_value)),
            };
            i += 1;
        }
        proof {
            assert(empties_of(*game).skip(positions.len() as int) =~= Seq::<Position>::empty());
        }
        value.unwrap()
    } else {
        Value::new(min_score(game), depth)
    }
}

#[verifier::loop_isolation(false)]
fn minimize(game: &Game, depth: u32) -> (v: Value)
    requires
        game.wf(),
        depth + count_empty(game.grid.cells@) <= 9,
    ensures
        v.model() == minimize_spec(*game, depth as int),
    decreases count_empty(game.grid.cells@),
{
    if game.is_playing() {
        let positions = game.grid().unmarked_vec();
        proof {
            lemma_playing_has_empty(*game);
            lemma_empties_sound(game.grid.cells@, 0);
            assert(empties_of(*game).skip(0) =~= empties_of(*game));
        }
        let mut value: Option<Value> = None;
        let mut i: usize = 0;
        while i < positions.len()
            invariant
                i <= positions.len(),
                value is Some <==> i > 0,
                min_fold(*game, depth as int, empties_of(*game), None) == min_fold(
                    *game,
                    depth as int,
                    empties_of(*game).skip(i as int),
                    model_opt(value),
                ),
            decreases positions.len() - i,
        {
            let pos = positions[i];
            let ghost rest = empties_of(*game).skip(i as int);
            proof {
                assert(rest[0] == empties_of(*game)[i as int]);
                assert(game.valid_move(pos));
                lemma_index_of_bounds(pos);
                lemma_counts_after_mark(game.grid.cells@, 0, index_of(pos), game.turn);
                lemma_play_step_wf(*game, pos);
            }
            let mut next_game = *game;
            next_game.play(pos);
            let mut next_value = maximize(&next_game, depth + 1);
            next_value.positions = vec![pos];
            proof {
                assert(next_value.positions@ =~= seq![pos]);
                assert(next_value.model() == min_child(*game, depth as int, pos));
                assert(rest.drop_first() =~= empties_of(*game).skip(i + 1));
            }
            value = match value {
                None => Some(next_value),
                Some(v) => Some(v.min(next_value)),
            };
            i += 1;
        }
        proof {
            assert(empties_of(*game).skip(positions.len() as int) =~= Seq::<Position>::empty());
        }
        value.unwrap()
    } else {
        Value::new(max_score(game), depth)
    }
}

fn max_score(game: &Game) -> (r: i32)
    requires
        !game.is_playing_spec(),
    ensures
        r as int == outcome_score(game.outcome_spec().unwrap()),
{
    match game.outcome().unwrap() {
        Outcome::Win => 2,
        Outcome::Draw => 1,
    }
}

fn min_score(game: &Game) -> (r: i32)
    requires
        !game.is_playing_spec(),
    ensures
        r as int == -outcome_score(game.outcome_spec().unwrap()),
{
    -max_score(game)
}

/// The score and the resolution depth that playing `p` reaches, for
/// the maximizing player moving at `g` with the search `depth` deep.
pub open spec fn move_value(g: Game, depth: int, p: Position) -> (int, int) {
    let v = max_child(g, depth, p);
    (v.score, v.depth)
}

/// `a` is at least as good for the mover as `b`: a higher score, or
/// an equal score resolved at most as deep.
pub open spec fn at_least_as_good(a: (int, int), b: (int, int)) -> bool {
    a.0 > b.0 || (a.0 == b.0 && a.1 <= b.1)
}

/// The moves among `ps`, in order, whose value is exactly
/// `(score, d)`.
pub open spec fn moves_achieving(g: Game, depth: int, ps: Seq<Position>, score: int, d: int) -> Seq<
    Position,
>
    decreases ps.len(),
{
    if ps.len() == 0 {
        Seq::empty()
    } else {
        let rest = moves_achieving(g, depth, ps.drop_first(), score, d);
        if move_value(g, depth, ps.first()) == (score, d) {
            seq![ps.first()] + rest
        } else {
            rest
        }
    }
}

/// Every move listed by [`moves_achieving`] comes from `ps` and has
/// the named value.
pub proof fn lemma_achieving_sound(g: Game, depth: int, ps: Seq<Position>, score: int, d: int)
    ensures
        forall|j: int|
            0 <= j < moves_achieving(g, depth, ps, score, d).len() ==> {
                let p = #[trigger] moves_achieving(g, depth, ps, score, d)[j];
                ps.contains(p) && move_value(g, depth, p) == (score, d)
            },
    decreases ps.len(),
{
    if ps.len() > 0 {
        lemma_achieving_sound(g, depth, ps.drop_first(), score, d);
        let all = moves_achieving(g, depth, ps, score, d);
        let rest = moves_achieving(g, depth, ps.drop_first(), score, d);
        assert forall|j: int| 0 <= j < all.len() implies {
            let p = #[trigger] all[j];
            ps.contains(p) && move_value(g, depth, p) == (score, d)
        } by {
            if move_value(g, depth, ps.first()) == (score, d) {
                if j == 0 {
                    assert(all[0] == ps.first());
                    assert(ps[0] == ps.first());
                } else {
                    assert(all[j] == rest[j - 1]);
                    let p = rest[j - 1];
                    let k = choose|k: int| 0 <= k < ps.drop_first().len() && ps.drop_first()[k] == p;
                    assert(ps[k + 1] == p);
                }
            } else {
                let p = rest[j];
                let k = choose|k: int| 0 <= k < ps.drop_first().len() && ps.drop_first()[k] == p;
                assert(ps[k + 1] == p);
            }
        }
    }
}

/// Every move of `ps` with the named value is listed by
/// [`moves_achieving`].
pub proof fn lemma_achieving_complete(
    g: Game,
    depth: int,
    ps: Seq<Position>,
    score: int,
    d: int,
    k: int,
)
    requires
        0 <= k < ps.len(),
        move_value(g, depth, ps[k]) == (score, d),
    ensures
        moves_achieving(g, depth, ps, score, d).contains(ps[k]),
    decreases ps.len(),
{
    let all = moves_achieving(g, depth, ps, score, d);
    let rest = moves_achieving(g, depth, ps.drop_first(), score, d);
    if k == 0 {
        assert(all[0] == ps.first());
    } else {
        assert(ps.drop_first()[k - 1] == ps[k]);
        lemma_achieving_complete(g, depth, ps.drop_first(), score, d, k - 1);
        let j = choose|j: int| 0 <= j < rest.len() && rest[j] == ps[k];
        if move_value(g, depth, ps.first()) == (score, d) {
            assert(all[j + 1] == rest[j]);
        }
    }
}

/// How [`max_fold`] summarizes an accumulator and the children of
/// `ps`: it returns the lexicographically best value, and collects the
/// accumulator's positions, if they achieve it, followed by every move
/// of `ps` that achieves it.
proof fn lemma_max_fold_dominates(g: Game, depth: int, ps: Seq<Position>, a: ValueModel)
    requires
        forall|k: int| 0 <= k < ps.len() ==> g.valid_move(#[trigger] ps[k]),
    ensures
        max_fold(g, depth, ps, Some(a)) is Some,
        ({
            let r = max_fold(g, depth, ps, Some(a)).unwrap();
            &&& at_least_as_good((r.score, r.depth), (a.score, a.depth))
            &&& forall|k: int|
                0 <= k < ps.len() ==> at_least_as_good(
                    (r.score, r.depth),
                    move_value(g, depth, #[trigger] ps[k]),
                )
            &&& ((r.score, r.depth) == (a.score, a.depth) || exists|k: int|
                0 <= k < ps.len() && move_value(g, depth, #[trigger] ps[k]) == (r.score, r.depth))
            &&& r.positions =~= (if (r.score, r.depth) == (a.score, a.depth) {
                a.positions
            } else {
                Seq::<Position>::empty()
            }) + moves_achieving(g, depth, ps, r.score, r.depth)
        }),
    decreases ps.len(),
{
    let r = max_fold(g, depth, ps, Some(a)).unwrap();
    if ps.len() == 0 {
        assert(r == a);
        assert(r.positions =~= a.positions + moves_achieving(g, depth, ps, r.score, r.depth));
    } else {
        let p0 = ps.first();
        assert(g.valid_move(ps[0]));
        let c = max_child(g, depth, p0);
        let acc2 = vmax(a, c);
        assert(forall|k: int|
            0 <= k < ps.drop_first().len() ==> g.valid_move(#[trigger] ps.drop_first()[k]));
        lemma_max_fold_dominates(g, depth, ps.drop_first(), acc2);
        assert(max_fold(g, depth, ps, Some(a)) == max_fold(g, depth, ps.drop_first(), Some(acc2)));
        let rest = moves_achieving(g, depth, ps.drop_first(), r.score, r.depth);
        assert(c.positions == seq![p0]);
        assert(move_value(g, depth, p0) == (c.score, c.depth));
        assert forall|k: int|
            0 <= k < ps.len() implies at_least_as_good(
            (r.score, r.depth),
            move_value(g, depth, #[trigger] ps[k]),
        ) by {
            if k > 0 {
                assert(ps.drop_first()[k - 1] == ps[k]);
            }
        }
        if (r.score, r.depth) == (acc2.score, acc2.depth) {
            if a.score > c.score || (a.score == c.score && a.depth < c.depth) {
                assert(acc2 == a);
                assert(moves_achieving(g, depth, ps, r.score, r.depth) == rest);
                assert(r.positions =~= (if (r.score, r.depth) == (a.score, a.depth) {
                    a.positions
                } else {
                    Seq::<Position>::empty()
                }) + moves_achieving(g, depth, ps, r.score, r.depth));
            } else if c.score > a.score || (c.score == a.score && c.depth < a.depth) {
                assert(acc2 == c);
                assert(moves_achieving(g, depth, ps, r.score, r.depth) == seq![p0] + rest);
                assert(r.positions =~= acc2.positions + rest);
                assert(r.positions =~= Seq::<Position>::empty() + (seq![p0] + rest));
            } else {
                assert(acc2.positions == a.positions + seq![p0]);
                assert(moves_achieving(g, depth, ps, r.score, r.depth) == seq![p0] + rest);
                assert(r.positions =~= (a.positions + seq![p0]) + rest);
                assert(r.positions =~= a.positions + (seq![p0] + rest));
            }
        } else {
            assert(r.positions =~= Seq::<Position>::empty() + rest);
            if move_value(g, depth, p0) == (r.score, r.depth) {
                assert(at_least_as_good((acc2.score, acc2.depth), (c.score, c.depth)));
                assert(false);
            }
            assert(moves_achieving(g, depth, ps, r.score, r.depth) == rest);
            if (r.score, r.depth) == (a.score, a.depth) {
                assert(at_least_as_good((acc2.score, acc2.depth), (a.score, a.depth)));
                assert(false);
            }
        }
    }
}

/// Optimality of [`moves`]: on a game in play it returns, in
/// row-major order, exactly the available moves whose value equals
/// the game's: no available move has a higher score, none with the
/// best score resolves at a smaller depth, and at least one move is
/// returned.
pub proof fn lemma_moves_optimal(g: Game)
    requires
        g.wf(),
        g.state is Play,
    ensures
        ({
            let best = maximize_spec(g, 0);
            let avail = empties_of(g);
            &&& moves_spec(g).len() > 0
            &&& exists|k: int|
                0 <= k < avail.len() && move_value(g, 0, #[trigger] avail[k]) == (
                best.score,
                best.depth,
                )
            &&& forall|k: int|
                0 <= k < avail.len() ==> at_least_as_good(
                    (best.score, best.depth),
                    move_value(g, 0, #[trigger] avail[k]),
                )
            &&& moves_spec(g) =~= moves_achieving(g, 0, avail, best.score, best.depth)
        }),
{
    lemma_playing_has_empty(g);
    lemma_empties_sound(g.grid.cells@, 0);
    let avail = empties_of(g);
    let p0 = avail.first();
    assert(g.valid_move(avail[0]));
    let c0 = max_child(g, 0, p0);
    assert(c0.positions == seq![p0]);
    assert(forall|k: int|
        0 <= k < avail.drop_first().len() ==> g.valid_move(#[trigger] avail.drop_first()[k]));
    lemma_max_fold_dominates(g, 0, avail.drop_first(), c0);
    assert(max_fold(g, 0, avail, None) == max_fold(g, 0, avail.drop_first(), Some(c0)));
    let best = maximize_spec(g, 0);
    let rest = moves_achieving(g, 0, avail.drop_first(), best.score, best.depth);
    assert(move_value(g, 0, p0) == (c0.score, c0.depth));
    assert forall|k: int|
        0 <= k < avail.len() implies at_least_as_good(
        (best.score, best.depth),
        move_value(g, 0, #[trigger] avail[k]),
    ) by {
        if k > 0 {
            assert(avail.drop_first()[k - 1] == avail[k]);
        }
    }
    if (best.score, best.depth) == (c0.score, c0.depth) {
        assert(move_value(g, 0, avail[0]) == (best.score, best.depth));
        assert(moves_achieving(g, 0, avail, best.score, best.depth) == seq![p0] + rest);
        assert(best.positions =~= c0.positions + rest);
        assert(best.positions =~= seq![p0] + rest);
    } else {
        let k = choose|k: int|
            0 <= k < avail.drop_first().len() && move_value(g, 0, #[trigger] avail.drop_first()[k])
                == (best.score, best.depth);
        assert(avail[k + 1] == avail.drop_first()[k]);
        assert(moves_achieving(g, 0, avail, best.score, best.depth) == rest);
        assert(best.positions =~= Seq::<Position>::empty() + rest);
        lemma_achieving_complete(g, 0, avail.drop_first(), best.score, best.depth, k);
        assert(rest.len() > 0);
    }
}

/// The selector always offers a move while the game is in play.
pub proof fn lemma_moves_nonempty(g: Game)
    requires
        g.wf(),
        g.state is Play,
    ensures
        moves_spec(g).len() > 0,
{
    lemma_moves_optimal(g);
}

/// Determinism of [`moves`]: the result is a function of the game
/// state alone, which the contract of [`moves`] pins to
/// [`moves_spec`].
pub proof fn lemma_moves_deterministic(g1: Game, g2: Game)
    requires
        g1 == g2,
    ensures
        moves_spec(g1) == moves_spec(g2),
{
}

/// Relies on `rand::thread_rng` and `rand::Rng::gen_range`: a number
/// drawn from `0..n` lies below `n`, and the call panics only on an
/// empty range, which `n > 0` rules out.
#[verifier::external_body]
pub(crate) fn random_index(n: usize) -> (i: usize)
    requires
        n > 0,
    ensures
        i < n,
{
    rand::Rng::gen_range(&mut rand::thread_rng(), 0..n)
}

/// Picks uniformly at random among the optimal moves of `game`.
pub fn random_move(game: &Game) -> (p: Position)
    requires
        game.wf(),
        moves_spec(*game).len() > 0,
    ensures
        moves_spec(*game).contains(p),
{
    let ms = moves(game);
    let i = random_index(ms.len());
    let p = ms[i];
    proof {
        assert(moves_spec(*game)[i as int] == p);
    }
    p
}

} // verus!
