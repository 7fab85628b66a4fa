use xsos::ai::{moves, random_move};
use xsos::{Game, Mark};

#[test]
fn it_finds_the_blocking_position_to_avoid_losing() {
    let mut game = Game::start(Mark::X);

    game.play((0, 0));
    game.play((0, 2));
    game.play((1, 1));

    assert_eq!(moves(&game), vec![(2, 2)]);
}

#[test]
fn it_gives_up_when_losing_is_inevitable() {
    let mut game = Game::start(Mark::X);

    game.play((0, 0));
    game.play((0, 1));
    game.play((1, 1));

    assert_eq!(moves(&game), vec![(0, 2), (1, 0), (1, 2), (2, 0), (2, 1)]);
}

#[test]
fn it_finds_the_winning_position() {
    let mut game = Game::start(Mark::X);

    game.play((0, 0));
    game.play((0, 2));
    game.play((1, 0));
    game.play((2, 1));

    assert_eq!(moves(&game), vec![(2, 0)]);
}

#[test]
fn it_favors_winning_over_blocking() {
    let mut game = Game::start(Mark::X);

    game.play((2, 0));
    game.play((0, 2));
    game.play((0, 0));
    game.play((2, 2));

    assert_eq!(moves(&game), vec![(1, 0)]);
}

#[test]
fn moves_is_deterministic_for_one_state() {
    let mut game = Game::start(Mark::X);

    game.play((0, 0));
    game.play((0, 2));
    game.play((1, 1));

    assert_eq!(moves(&game), moves(&game));
}

#[test]
fn moves_of_a_finished_game_is_empty() {
    let mut game = Game::start(Mark::X);

    game.play((0, 0));
    game.play((1, 0));
    game.play((0, 1));
    game.play((1, 1));
    game.play((0, 2));

    assert!(game.is_game_over());
    assert_eq!(moves(&game), vec![]);
}

#[test]
fn random_move_picks_one_of_the_optimal_moves() {
    let mut game = Game::start(Mark::X);

    game.play((0, 0));
    game.play((0, 1));
    game.play((1, 1));

    let optimal = moves(&game);
    for _ in 0..20 {
        let p = random_move(&game);
        assert!(optimal.contains(&p));
    }
}
