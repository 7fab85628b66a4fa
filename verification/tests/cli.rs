use xsos::cli::{first_unmarked_position, parse_position, Config, Player};
use xsos::{Grid, Mark};

fn args(items: &[&str]) -> Vec<String> {
    items.iter().map(|s| s.to_string()).collect()
}

#[test]
fn defaults() {
    assert_eq!(
        Config::parse_args(&args(&[""])),
        Some(Config {
            x: Player::Human,
            o: Player::Computer,
            first: Mark::X,
            rounds: 25
        })
    );
}

#[test]
fn let_o_play_first() {
    assert_eq!(
        Config::parse_args(&args(&["", "--first", "o"])),
        Some(Config {
            x: Player::Human,
            o: Player::Computer,
            first: Mark::O,
            rounds: 25
        })
    );
}

#[test]
fn let_computer_play_with_x_and_human_play_with_o() {
    assert_eq!(
        Config::parse_args(&args(&["", "-x", "computer", "-o", "human"])),
        Some(Config {
            x: Player::Computer,
            o: Player::Human,
            first: Mark::X,
            rounds: 25
        })
    );

    // Shorthand
    assert_eq!(
        Config::parse_args(&args(&["", "-x", "c", "-o", "h"])),
        Some(Config {
            x: Player::Computer,
            o: Player::Human,
            first: Mark::X,
            rounds: 25
        })
    );

    // Case insensitive
    assert_eq!(
        Config::parse_args(&args(&["", "-x", "cOmPuTeR", "-o", "H"])),
        Some(Config {
            x: Player::Computer,
            o: Player::Human,
            first: Mark::X,
            rounds: 25
        })
    );
}

#[test]
fn computer_vs_computer() {
    assert_eq!(
        Config::parse_args(&args(&["", "-x", "computer"])),
        Some(Config {
            x: Player::Computer,
            o: Player::Computer,
            first: Mark::X,
            rounds: 25
        })
    );
}

#[test]
fn computer_vs_computer_for_50_rounds() {
    assert_eq!(
        Config::parse_args(&args(&["", "-x", "computer", "--rounds", "50"])),
        Some(Config {
            x: Player::Computer,
            o: Player::Computer,
            first: Mark::X,
            rounds: 50
        })
    );
}

#[test]
fn rejected_arguments() {
    // an unknown flag
    assert_eq!(Config::parse_args(&args(&["", "-q", "human"])), None);
    // a flag without its value
    assert_eq!(Config::parse_args(&args(&["", "-x"])), None);
    // a player nobody can be
    assert_eq!(Config::parse_args(&args(&["", "-o", "alien"])), None);
    // a mark outside the game
    assert_eq!(Config::parse_args(&args(&["", "--first", "z"])), None);
    // a round count that does not fit
    assert_eq!(Config::parse_args(&args(&["", "--rounds", "256"])), None);
    assert_eq!(
        Config::parse_args(&args(&["", "-r", "99999999999999999999999999"])),
        None
    );
    // no program name at all
    assert_eq!(Config::parse_args(&Vec::new()), None);
}

#[test]
fn count_humans_counts_only_humans() {
    assert_eq!(Player::count_humans(&[Player::Human, Player::Computer]), 1);
    assert_eq!(Player::count_humans(&[Player::Human, Player::Human]), 2);
    assert_eq!(
        Player::count_humans(&[Player::Computer, Player::Computer]),
        0
    );
    assert_eq!(Player::count_humans(&[]), 0);
}

#[test]
fn positions_parse_from_two_one_based_numbers() {
    assert_eq!(parse_position("1 2"), Some((0, 1)));
    assert_eq!(parse_position("  3 1  "), Some((2, 0)));
    assert_eq!(parse_position("2\t2"), Some((1, 1)));
}

#[test]
fn malformed_positions_are_rejected() {
    assert_eq!(parse_position(""), None);
    assert_eq!(parse_position("1"), None);
    assert_eq!(parse_position("1 2 3"), None);
    assert_eq!(parse_position("x y"), None);
    assert_eq!(parse_position("12x 3"), None);
    assert_eq!(parse_position("0 2"), None);
    assert_eq!(parse_position("2 0"), None);
}

#[test]
fn the_hint_names_the_first_unmarked_position() {
    let mut grid = Grid::new();
    grid.mark((0, 0), Mark::X);
    grid.mark((0, 1), Mark::O);
    assert_eq!(first_unmarked_position(&grid), (0, 2));
}
