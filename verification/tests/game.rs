use xsos::{Cells, Game, Mark, Outcome, PlayError};

fn drain_cells(mut it: Cells) -> Vec<Option<Mark>> {
    let mut out = Vec::new();
    while let Some(c) = it.next() {
        out.push(c);
    }
    out
}

#[test]
fn after_3_plays() {
    let mut game = Game::start(Mark::X);

    assert!(game.is_playing());

    game.play((1, 1));
    game.play((0, 2));
    game.play((2, 0));

    assert!(game.is_playing());
    assert_eq!(game.turn(), Mark::O);
    assert_eq!(
        drain_cells(game.grid().cells()),
        vec![
            None,
            None,
            Some(Mark::O),
            None,
            Some(Mark::X),
            None,
            Some(Mark::X),
            None,
            None
        ]
    );
}

#[test]
fn when_x_wins() {
    let mut game = Game::start(Mark::X);

    game.play((1, 1));
    game.play((0, 2));
    game.play((2, 0));
    game.play((1, 2));
    game.play((2, 2));
    game.play((2, 1));
    game.play((0, 0));

    assert!(game.is_game_over());
    assert_eq!(game.turn(), Mark::X);
    assert_eq!(
        drain_cells(game.grid().cells()),
        vec![
            Some(Mark::X),
            None,
            Some(Mark::O),
            None,
            Some(Mark::X),
            Some(Mark::O),
            Some(Mark::X),
            Some(Mark::O),
            Some(Mark::X)
        ]
    );
    assert_eq!(game.outcome(), Some(Outcome::Win));
}

#[test]
fn when_o_squashes() {
    let mut game = Game::start(Mark::O);

    game.play((1, 1));
    game.play((0, 0));
    game.play((2, 2));
    game.play((0, 2));
    game.play((0, 1));
    game.play((2, 1));
    game.play((1, 2));
    game.play((1, 0));
    game.play((2, 0));

    assert!(game.is_game_over());
    assert_eq!(game.turn(), Mark::O);
    assert_eq!(
        drain_cells(game.grid().cells()),
        vec![
            Some(Mark::X),
            Some(Mark::O),
            Some(Mark::X),
            Some(Mark::X),
            Some(Mark::O),
            Some(Mark::O),
            Some(Mark::O),
            Some(Mark::X),
            Some(Mark::O)
        ]
    );
    assert_eq!(game.outcome(), Some(Outcome::Draw));
}

#[test]
fn when_position_is_out_of_bounds() {
    let mut game = Game::start(Mark::X);

    assert_eq!(game.play((0, 4)), Some(PlayError::OutOfBounds));
}

#[test]
fn when_position_is_unavailable() {
    let mut game = Game::start(Mark::X);

    game.play((1, 1));

    assert_eq!(game.play((1, 1)), Some(PlayError::AlreadyMarked));
}

#[test]
fn game_clone() {
    let mut game = Game::start(Mark::X);

    game.play((1, 1));
    game.play((0, 2));
    game.play((2, 0));
    game.play((1, 2));
    game.play((2, 2));
    game.play((2, 1));

    let mut clone_of_game = game.clone();

    clone_of_game.play((0, 0));

    assert!(clone_of_game.is_game_over());
    assert!(game.is_playing());
}

#[test]
fn play_error_leaves_game_unchanged() {
    let mut game = Game::start(Mark::X);
    game.play((1, 1));

    let before_cells = drain_cells(game.grid().cells());
    let before_turn = game.turn();

    assert_eq!(game.play((5, 5)), Some(PlayError::OutOfBounds));
    assert_eq!(drain_cells(game.grid().cells()), before_cells);
    assert_eq!(game.turn(), before_turn);

    assert_eq!(game.play((1, 1)), Some(PlayError::AlreadyMarked));
    assert_eq!(drain_cells(game.grid().cells()), before_cells);
    assert_eq!(game.turn(), before_turn);
}

#[test]
fn successful_non_terminal_play_swaps_the_turn() {
    let mut game = Game::start(Mark::O);
    assert_eq!(game.turn(), Mark::O);
    assert_eq!(game.play((0, 0)), None);
    assert_eq!(game.turn(), Mark::X);
    assert_eq!(game.play((1, 1)), None);
    assert_eq!(game.turn(), Mark::O);
}

#[test]
fn plays_after_game_over_are_silently_ignored() {
    let mut game = Game::start(Mark::X);

    game.play((0, 0));
    game.play((1, 0));
    game.play((0, 1));
    game.play((1, 1));
    game.play((0, 2));

    assert!(game.is_game_over());
    assert_eq!(game.play((2, 1)), None);
    assert!(game.grid().is_unmarked_at((2, 1)));
    assert_eq!(game.outcome(), Some(Outcome::Win));
}

#[test]
fn mark_counts_never_drift_apart() {
    let mut game = Game::start(Mark::X);
    let moves = [(1, 1), (0, 0), (2, 2), (0, 2), (0, 1), (2, 1), (1, 2), (1, 0), (2, 0)];
    for &p in moves.iter() {
        game.play(p);
        let cells = drain_cells(game.grid().cells());
        let xs = cells.iter().filter(|c| **c == Some(Mark::X)).count() as i64;
        let os = cells.iter().filter(|c| **c == Some(Mark::O)).count() as i64;
        assert!((xs - os).abs() <= 1);
    }
}

#[test]
fn restart_after_draw_swaps_the_starter() {
    let mut game = Game::start(Mark::O);

    game.play((1, 1));
    game.play((0, 0));
    game.play((2, 2));
    game.play((0, 2));
    game.play((0, 1));
    game.play((2, 1));
    game.play((1, 2));
    game.play((1, 0));
    game.play((2, 0));

    assert_eq!(game.outcome(), Some(Outcome::Draw));
    game.restart();
    assert!(game.is_playing());
    assert_eq!(game.turn(), Mark::X);
}

#[test]
fn restart_after_win_keeps_the_winner_as_starter() {
    let mut game = Game::start(Mark::X);

    game.play((0, 0));
    game.play((1, 0));
    game.play((0, 1));
    game.play((1, 1));
    game.play((0, 2));

    assert_eq!(game.outcome(), Some(Outcome::Win));
    assert_eq!(game.turn(), Mark::X);
    game.restart();
    assert!(game.is_playing());
    assert_eq!(game.turn(), Mark::X);
    assert!(game.grid().is_unmarked_at((0, 0)));
}

#[test]
fn restarting_twice_equals_restarting_once() {
    let mut once = Game::start(Mark::X);
    once.play((0, 0));
    once.play((1, 0));
    once.play((0, 1));
    once.play((1, 1));
    once.play((0, 2));

    let mut twice = once.clone();

    once.restart();
    twice.restart();
    twice.restart();

    assert_eq!(once.turn(), twice.turn());
    assert_eq!(once.is_playing(), twice.is_playing());
    assert_eq!(
        drain_cells(once.grid().cells()),
        drain_cells(twice.grid().cells())
    );
}
