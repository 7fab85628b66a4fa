//! A second move selector: plain negamax.
//!
//! Unlike [`crate::ai`], this selector compares moves by score alone,
//! with no preference between lines that resolve sooner or later, so
//! on a lost position it keeps every move.  It also answers trivial
//! positions (one move left, or a fresh board) without searching.

use crate::ai::{lemma_playing_has_empty, outcome_score};
use crate::game::{lemma_play_step_wf, Game};
use crate::grid::{
    count_empty, index_of, lemma_counts_after_mark, lemma_empties_sound, lemma_index_of_bounds,
    Position,
};
use crate::referee::Outcome;
use vstd::prelude::*;

verus! {

/// Positions open to the player to move.
pub open spec fn empties_of(g: Game) -> Seq<Position> {
    g.grid.empties()
}

/// Negamax value of `g` for the player to move: a terminal game was
/// lost or drawn by that player, and otherwise the best move counts.
pub open spec fn game_value(g: Game) -> int
    decreases count_empty(g.grid.cells@), 2int, 0int,
{
    if g.state is Play {
        best_value(g, empties_of(g))
    } else {
        -outcome_score(g.outcome_spec().unwrap())
    }
}

/// Value of the subgame reached from `g` by playing `p`, for the
/// player moving at `g`.
pub open spec fn child_value(g: Game, p: Position) -> int
    decreases count_empty(g.grid.cells@), 0int, 0int,
{
    if g.valid_move(p) {
        proof {
            lemma_index_of_bounds(p);
            lemma_counts_after_mark(g.grid.cells@, 0, index_of(p), g.turn);
        }
        -game_value(g.play_step(p))
    } else {
        -3
    }
}

/// The largest [`child_value`] among the moves `ps`; below every real
/// value when `ps` is empty.
pub open spec fn best_value(g: Game, ps: Seq<Position>) -> int
    decreases count_empty(g.grid.cells@), 1int, ps.len(),
{
    if ps.len() == 0 {
        -3
    } else {
        let v = child_value(g, ps.first());
        let rest = best_value(g, ps.drop_first());
        if v >= rest {
            v
        } else {
            rest
        }
    }
}

/// Walks the moves `ps` keeping every one whose value equals the best
/// seen so far, exactly as [`find_best_moves`]'s loop does.
pub open spec fn collect_best(g: Game, ps: Seq<Position>, best: int, acc: Seq<Position>) -> (
    int,
    Seq<Position>,
)
    decreases count_empty(g.grid.cells@), 1int, ps.len(),
{
    if ps.len() == 0 {
        (best, acc)
    } else {
        let v = child_value(g, ps.first());
        if v > best {
            collect_best(g, ps.drop_first(), v, seq![ps.first()])
        } else if v == best {
            collect_best(g, ps.drop_first(), best, acc.push(ps.first()))
        } else {
            collect_best(g, ps.drop_first(), best, acc)
        }
    }
}

/// What [`find_best_moves`] returns of a game.
pub open spec fn find_best_spec(g: Game) -> Seq<Position> {
    if g.outcome_spec() is None {
        collect_best(g, empties_of(g), i8::MIN as int, Seq::empty()).1
    } else {
        Seq::empty()
    }
}

/// What [`moves`] returns: nothing once the game is over, the sole
/// remaining move or all nine moves of a fresh board without search,
/// and otherwise every move of the highest negamax value.
pub open spec fn moves_spec(g: Game) -> Seq<Position> {
    if !(g.state is Play) {
        Seq::empty()
    } else if empties_of(g).len() == 1 || empties_of(g).len() == 9 {
        empties_of(g)
    } else {
        find_best_spec(g)
    }
}

/// Returns the positions of the highest negamax value for the player
/// whose turn it is, in row-major order; empty once the game is over.
pub fn moves(game: &Game) -> (r: Vec<Position>)
    requires
        game.wf(),
    ensures
        r@ == moves_spec(*game),
{
    if game.is_game_over() {
        let r: Vec<Position> = Vec::new();
        proof {
            assert(r@ =~= moves_spec(*game));
        }
        return r;
    }
    let positions = game.grid().unmarked_vec();
    if positions.len() == 1 || positions.len() == 9 {
        positions
    } else {
        find_best_moves(game)
    }
}

#[verifier::loop_isolation(false)]
fn find_best_moves(game: &Game) -> (r: Vec<Position>)
    requires
        game.wf(),
    ensures
        r@ == find_best_spec(*game),
{
    if game.outcome().is_none() {
        let positions = game.grid().unmarked_vec();
        proof {
            lemma_empties_sound(game.grid.cells@, 0);
            assert(empties_of(*game).skip(0) =~= empties_of(*game));
        }
        let mut value: i8 = i8::MIN;
        let mut best: Vec<Position> = Vec::new();
        let mut i: usize = 0;
        while i < positions.len()
            invariant
                i <= positions.len(),
                i == 0 ==> value == i8::MIN && best@ =~= Seq::<Position>::empty(),
                i > 0 ==> -2 <= value <= 2,
                collect_best(
                    *game,
                    empties_of(*game).skip(i as int),
                    value as int,
                    best@,
                ) == collect_best(
                    *game,
                    empties_of(*game),
                    i8::MIN as int,
                    Seq::<Position>::empty(),
                ),
            decreases positions.len() - i,
        {
            let pos = positions[i];
            let ghost rest = empties_of(*game).skip(i as int);
            proof {
                assert(rest[0] == empties_of(*game)[i as int]);
                assert(game.valid_move(pos));
                lemma_index_of_bounds(pos);
                lemma_counts_after_mark(game.grid.cells@, 0, index_of(pos), game.turn);
                lemma_play_step_wf(*game, pos);
                lemma_game_value_bounds(game.play_step(pos));
            }
            let mut next_game = *game;
            next_game.play(pos);
            let next_value = negamax(&next_game, -1);
            proof {
                assert(next_value as int == child_value(*game, pos));
                assert(rest.drop_first() =~= empties_of(*game).skip(i + 1));
            }
            if next_value > value {
                value = next_value;
                best = vec![pos];
                proof {
                    assert(best@ =~= seq![pos]);
                }
            } else if next_value == value {
                best.push(pos);
            }
            i += 1;
        }
        proof {
            assert(empties_of(*game).skip(positions.len() as int) =~= Seq::<Position>::empty());
        }
        best
    } else {
        let r: Vec<Position> = Vec::new();
        proof {
            assert(r@ =~= find_best_spec(*game));
        }
        r
    }
}

#[verifier::loop_isolation(false)]
fn negamax(game: &Game, color: i8) -> (r: i8)
    requires
        game.wf(),
        color == 1 || color == -1,
    ensures
        r as int == color * game_value(*game),
    decreases count_empty(game.grid.cells@),
{
    match game.outcome() {
        None => {
            let positions = game.grid().unmarked_vec();
            proof {
                lemma_playing_has_empty(*game);
                lemma_empties_sound(game.grid.cells@, 0);
                assert(empties_of(*game).skip(0) =~= empties_of(*game));
            }
            let mut value: i8 = i8::MIN;
            let mut i: usize = 0;
            while i < positions.len()
                invariant
                    i <= positions.len(),
                    i == 0 ==> value == i8::MIN,
                    i > 0 ==> -2 <= value <= 2 && best_value(
                        *game,
                        empties_of(*game),
                    ) == if value as int >= best_value(*game, empties_of(*game).skip(i as int)) {
                        value as int
                    } else {
                        best_value(*game, empties_of(*game).skip(i as int))
                    },
                decreases positions.len() - i,
            {
                let pos = positions[i];
                let ghost rest = empties_of(*game).skip(i as int);
                proof {
                    assert(rest[0] == empties_of(*game)[i as int]);
                    assert(game.valid_move(pos));
                    lemma_index_of_bounds(pos);
                    lemma_counts_after_mark(game.grid.cells@, 0, index_of(pos), game.turn);
                    lemma_play_step_wf(*game, pos);
                    lemma_game_value_bounds(game.play_step(pos));
                }
                let mut next_game = *game;
                next_game.play(pos);
                let sub = negamax(&next_game, -color);
                let contribution = color * sub;
                proof {
                    assert(contribution as int == child_value(*game, pos));
                    assert(rest.drop_first() =~= empties_of(*game).skip(i + 1));
                }
                if contribution > value {
                    value = contribution;
                }
                i += 1;
            }
            proof {
                assert(empties_of(*game).skip(positions.len() as int) =~= Seq::<Position>::empty());
                assert(value as int == best_value(*game, empties_of(*game)));
            }
            color * value
        },
        Some(outcome) => -(color * score(outcome)),
    }
}

fn score(outcome: Outcome) -> (r: i8)
    ensures
        r as int == outcome_score(outcome),
{
    match outcome {
        Outcome::Win => 2,
        Outcome::Draw => 1,
    }
}

/// The negamax value of a well-formed game lies between a loss and a
/// win.
pub proof fn lemma_game_value_bounds(g: Game)
    requires
        g.wf(),
    ensures
        -2 <= game_value(g) <= 2,
    decreases count_empty(g.grid.cells@), 2int, 0int,
{
    if g.state is Play {
        lemma_playing_has_empty(g);
        lemma_empties_sound(g.grid.cells@, 0);
        lemma_best_value_bounds(g, empties_of(g));
    }
}

/// The best value over any non-empty suffix of the available moves of
/// a well-formed game in play lies between a loss and a win.
proof fn lemma_best_value_bounds(g: Game, ps: Seq<Position>)
    requires
        g.wf(),
        g.state is Play,
        forall|k: int|
            0 <= k < ps.len() ==> g.valid_move(#[trigger] ps[k]),
        ps.len() > 0,
    ensures
        -2 <= best_value(g, ps) <= 2,
    decreases count_empty(g.grid.cells@), 1int, ps.len(),
{
    let p = ps.first();
    assert(g.valid_move(p));
    lemma_index_of_bounds(p);
    lemma_counts_after_mark(g.grid.cells@, 0, index_of(p), g.turn);
    lemma_play_step_wf(g, p);
    lemma_game_value_bounds(g.play_step(p));
    assert(child_value(g, p) == -game_value(g.play_step(p)));
    if ps.len() > 1 {
        assert(forall|k: int|
            0 <= k < ps.drop_first().len() ==> g.valid_move(#[trigger] ps.drop_first()[k]));
        lemma_best_value_bounds(g, ps.drop_first());
    } else {
        assert(ps.drop_first().len() == 0);
        assert(best_value(g, ps.drop_first()) == -3);
    }
}

/// The moves among `ps`, in order, whose child value is exactly `v`.
pub open spec fn best_achieving(g: Game, ps: Seq<Position>, v: int) -> Seq<Position>
    decreases ps.len(),
{
    if ps.len() == 0 {
        Seq::empty()
    } else {
        let rest = best_achieving(g, ps.drop_first(), v);
        if child_value(g, ps.first()) == v {
            seq![ps.first()] + rest
        } else {
            rest
        }
    }
}

/// Every move of `ps` whose value is `v` is listed by
/// [`best_achieving`].
pub proof fn lemma_best_achieving_complete(g: Game, ps: Seq<Position>, v: int, k: int)
    requires
        0 <= k < ps.len(),
        child_value(g, ps[k]) == v,
    ensures
        best_achieving(g, ps, v).contains(ps[k]),
    decreases ps.len(),
{
    let all = best_achieving(g, ps, v);
    let rest = best_achieving(g, ps.drop_first(), v);
    if k == 0 {
        assert(all[0] == ps.first());
    } else {
        assert(ps.drop_first()[k - 1] == ps[k]);
        lemma_best_achieving_complete(g, ps.drop_first(), v, k - 1);
        let j = choose|j: int| 0 <= j < rest.len() && rest[j] == ps[k];
        if child_value(g, ps.first()) == v {
            assert(all[j + 1] == rest[j]);
        }
    }
}

/// Every move listed by [`best_achieving`] comes from `ps` and has
/// the value `v`.
pub proof fn lemma_best_achieving_sound(g: Game, ps: Seq<Position>, v: int)
    ensures
        forall|j: int|
            0 <= j < best_achieving(g, ps, v).len() ==> {
                let p = #[trigger] best_achieving(g, ps, v)[j];
                ps.contains(p) && child_value(g, p) == v
            },
    decreases ps.len(),
{
    if ps.len() > 0 {
        lemma_best_achieving_sound(g, ps.drop_first(), v);
        let all = best_achieving(g, ps, v);
        let rest = best_achieving(g, ps.drop_first(), v);
        assert forall|j: int| 0 <= j < all.len() implies {
            let p = #[trigger] all[j];
            ps.contains(p) && child_value(g, p) == v
        } by {
            if child_value(g, ps.first()) == v {
                if j == 0 {
                    assert(all[0] == ps.first());
                    assert(ps[0] == ps.first());
                } else {
                    assert(all[j] == rest[j - 1]);
                    let p = rest[j - 1];
                    let k = choose|k: int| 0 <= k < ps.drop_first().len() && ps.drop_first()[k] == p;
                    assert(ps[k + 1] == p);
                }
            } else {
                let p = rest[j];
                let k = choose|k: int| 0 <= k < ps.drop_first().len() && ps.drop_first()[k] == p;
                assert(ps[k + 1] == p);
            }
        }
    }
}

/// How the search loop summarizes its accumulator and the moves `ps`:
/// it ends on the largest value seen, keeping the accumulated
/// positions only if nothing in `ps` beats them, followed by every
/// move of `ps` achieving that value.
proof fn lemma_collect_best_props(g: Game, ps: Seq<Position>, best: int, acc: Seq<Position>)
    ensures
        ({
            let r = collect_best(g, ps, best, acc);
            &&& r.0 >= best
            &&& forall|k: int| 0 <= k < ps.len() ==> r.0 >= child_value(g, #[trigger] ps[k])
            &&& (r.0 == best || exists|k: int|
                0 <= k < ps.len() && child_value(g, #[trigger] ps[k]) == r.0)
            &&& r.1 =~= (if r.0 == best {
                acc
            } else {
                Seq::<Position>::empty()
            }) + best_achieving(g, ps, r.0)
        }),
    decreases ps.len(),
{
    let r = collect_best(g, ps, best, acc);
    if ps.len() == 0 {
        assert(r.1 =~= acc + best_achieving(g, ps, r.0));
    } else {
        let p0 = ps.first();
        let v0 = child_value(g, p0);
        assert(ps[0] == p0);
        if v0 > best {
            lemma_collect_best_props(g, ps.drop_first(), v0, seq![p0]);
        } else if v0 == best {
            lemma_collect_best_props(g, ps.drop_first(), best, acc.push(p0));
            if r.0 == best {
                assert(acc.push(p0) =~= acc + seq![p0]);
            }
        } else {
            lemma_collect_best_props(g, ps.drop_first(), best, acc);
        }
        let rest = best_achieving(g, ps.drop_first(), r.0);
        assert forall|k: int| 0 <= k < ps.len() implies r.0 >= child_value(
            g,
            #[trigger] ps[k],
        ) by {
            if k > 0 {
                assert(ps.drop_first()[k - 1] == ps[k]);
            }
        }
        if r.0 == best {
            assert(v0 != r.0 || acc.push(p0) == acc + seq![p0]);
        }
        assert(r.1 =~= (if r.0 == best {
            acc
        } else {
            Seq::<Position>::empty()
        }) + best_achieving(g, ps, r.0));
    }
}

/// The best value over moves is achieved by one of them and bounds
/// them all.
proof fn lemma_best_value_is_max(g: Game, ps: Seq<Position>)
    requires
        g.wf(),
        g.state is Play,
        forall|k: int| 0 <= k < ps.len() ==> g.valid_move(#[trigger] ps[k]),
    ensures
        forall|k: int| 0 <= k < ps.len() ==> best_value(g, ps) >= child_value(g, #[trigger] ps[k]),
        ps.len() > 0 ==> exists|k: int|
            0 <= k < ps.len() && child_value(g, #[trigger] ps[k]) == best_value(g, ps),
    decreases ps.len(),
{
    if ps.len() > 0 {
        assert(forall|k: int|
            0 <= k < ps.drop_first().len() ==> g.valid_move(#[trigger] ps.drop_first()[k]));
        lemma_best_value_is_max(g, ps.drop_first());
        assert(ps[0] == ps.first());
        assert(g.valid_move(ps[0]));
        lemma_index_of_bounds(ps[0]);
        lemma_counts_after_mark(g.grid.cells@, 0, index_of(ps[0]), g.turn);
        lemma_play_step_wf(g, ps[0]);
        lemma_game_value_bounds(g.play_step(ps[0]));
        assert(child_value(g, ps.first()) >= -2);
        assert forall|k: int| 0 <= k < ps.len() implies best_value(g, ps) >= child_value(
            g,
            #[trigger] ps[k],
        ) by {
            if k > 0 {
                assert(ps.drop_first()[k - 1] == ps[k]);
            }
        }
        assert(ps.drop_first().len() == 0 ==> best_value(g, ps.drop_first()) == -3);
        let b = best_value(g, ps);
        if b == child_value(g, ps.first()) {
            assert(child_value(g, ps[0]) == b);
        } else {
            assert(ps.len() > 1 && b == best_value(g, ps.drop_first()));
            let k = choose|k: int|
                0 <= k < ps.drop_first().len() && child_value(g, #[trigger] ps.drop_first()[k])
                    == best_value(g, ps.drop_first());
            assert(ps[k + 1] == ps.drop_first()[k]);
            assert(child_value(g, ps[k + 1]) == b);
        }
    }
}

/// Optimality of the search: on a game in play, [`find_best_moves`]
/// keeps, in row-major order, exactly the available moves of the
/// game's own negamax value, and keeps at least one.
pub proof fn lemma_find_best_optimal(g: Game)
    requires
        g.wf(),
        g.state is Play,
    ensures
        ({
            let avail = empties_of(g);
            &&& find_best_spec(g).len() > 0
            &&& game_value(g) == best_value(g, avail)
            &&& exists|k: int|
                0 <= k < avail.len() && child_value(g, #[trigger] avail[k]) == game_value(g)
            &&& forall|k: int|
                0 <= k < avail.len() ==> game_value(g) >= child_value(g, #[trigger] avail[k])
            &&& find_best_spec(g) =~= best_achieving(g, avail, game_value(g))
        }),
{
    let avail = empties_of(g);
    lemma_playing_has_empty(g);
    lemma_empties_sound(g.grid.cells@, 0);
    lemma_collect_best_props(g, avail, i8::MIN as int, Seq::empty());
    lemma_best_value_is_max(g, avail);
    let r = collect_best(g, avail, i8::MIN as int, Seq::empty());
    assert(g.valid_move(avail[0]));
    lemma_index_of_bounds(avail[0]);
    lemma_counts_after_mark(g.grid.cells@, 0, index_of(avail[0]), g.turn);
    lemma_play_step_wf(g, avail[0]);
    lemma_game_value_bounds(g.play_step(avail[0]));
    assert(child_value(g, avail[0]) >= -2);
    assert(r.0 > i8::MIN as int);
    assert(r.0 == best_value(g, avail));
    let k = choose|k: int| 0 <= k < avail.len() && child_value(g, #[trigger] avail[k]) == r.0;
    lemma_best_achieving_complete(g, avail, r.0, k);
    assert(find_best_spec(g) == r.1);
    assert(find_best_spec(g) =~= Seq::<Position>::empty() + best_achieving(g, avail, r.0));
}

/// Picks uniformly at random among the moves of `game` that
/// [`moves`] keeps.
pub fn random_move(game: &Game) -> (p: Position)
    requires
        game.wf(),
        moves_spec(*game).len() > 0,
    ensures
        moves_spec(*game).contains(p),
{
    let ms = moves(game);
    let i = crate::ai::random_index(ms.len());
    let p = ms[i];
    proof {
        assert(moves_spec(*game)[i as int] == p);
    }
    p
}

} // verus!
