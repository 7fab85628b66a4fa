use xsos::search::{moves, random_move};
use xsos::{Game, Mark};

#[test]
fn it_finds_the_blocking_move_to_avoid_losing() {
    let mut game = Game::start(Mark::X);

    game.play((0, 0));
    game.play((0, 2));
    game.play((1, 1));

    assert_eq!(moves(&game), vec![(2, 2)]);
}

#[test]
fn it_has_no_good_moves_since_every_position_is_losing() {
    let mut game = Game::start(Mark::X);

    game.play((0, 0));
    game.play((0, 1));
    game.play((1, 1));

    assert_eq!(
        moves(&game),
        vec![(0, 2), (1, 0), (1, 2), (2, 0), (2, 1), (2, 2)]
    );
}

#[test]
fn it_finds_the_winning_moves() {
    let mut game = Game::start(Mark::X);

    game.play((0, 0));
    game.play((0, 2));
    game.play((1, 0));
    game.play((2, 1));

    assert_eq!(moves(&game), vec![(1, 1), (1, 2), (2, 0), (2, 2)]);
}

#[test]
fn ai_it_favors_winning_over_blocking() {
    let mut game = Game::start(Mark::X);

    game.play((2, 0));
    game.play((0, 2));
    game.play((0, 0));
    game.play((2, 2));

    assert_eq!(moves(&game), vec![(1, 0)]);
}

#[test]
fn a_fresh_board_offers_every_position() {
    let game = Game::start(Mark::X);

    assert_eq!(
        moves(&game),
        vec![
            (0, 0),
            (0, 1),
            (0, 2),
            (1, 0),
            (1, 1),
            (1, 2),
            (2, 0),
            (2, 1),
            (2, 2)
        ]
    );
}

#[test]
fn the_last_open_position_is_offered_without_search() {
    let mut game = Game::start(Mark::O);

    game.play((1, 1));
    game.play((0, 0));
    game.play((2, 2));
    game.play((0, 2));
    game.play((0, 1));
    game.play((2, 1));
    game.play((1, 2));
    game.play((1, 0));

    assert!(game.is_playing());
    assert_eq!(moves(&game), vec![(2, 0)]);
}

#[test]
fn search_random_move_picks_one_of_the_kept_moves() {
    let mut game = Game::start(Mark::X);

    game.play((0, 0));
    game.play((0, 2));
    game.play((1, 0));
    game.play((2, 1));

    let kept = moves(&game);
    for _ in 0..20 {
        let p = random_move(&game);
        assert!(kept.contains(&p));
    }
}
