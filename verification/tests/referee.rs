use xsos::referee::evaluate;
use xsos::{Grid, Mark, Outcome};

#[test]
fn evaluate_on_an_empty_grid_returns_none() {
    let grid = Grid::new();

    assert!(evaluate(&grid).is_none());
}

#[test]
fn evaluate_detects_a_win() {
    let mut grid = Grid::new();

    grid.mark((0, 0), Mark::X);
    grid.mark((1, 0), Mark::O);
    grid.mark((0, 1), Mark::X);
    grid.mark((1, 1), Mark::O);
    grid.mark((0, 2), Mark::X);

    assert_eq!(evaluate(&grid), Some(Outcome::Win));
}

#[test]
fn evaluate_detects_a_draw() {
    let mut grid = Grid::new();

    grid.mark((0, 0), Mark::X);
    grid.mark((1, 1), Mark::O);
    grid.mark((0, 1), Mark::X);
    grid.mark((0, 2), Mark::O);
    grid.mark((2, 0), Mark::X);
    grid.mark((1, 0), Mark::O);
    grid.mark((1, 2), Mark::X);
    grid.mark((2, 2), Mark::O);
    grid.mark((2, 1), Mark::X);

    assert_eq!(evaluate(&grid), Some(Outcome::Draw));
}

#[test]
fn evaluate_detects_a_column_win() {
    let mut grid = Grid::new();

    grid.mark((0, 2), Mark::O);
    grid.mark((0, 0), Mark::X);
    grid.mark((1, 2), Mark::O);
    grid.mark((1, 0), Mark::X);
    grid.mark((2, 2), Mark::O);

    assert_eq!(evaluate(&grid), Some(Outcome::Win));
}

#[test]
fn evaluate_detects_a_diagonal_win() {
    let mut grid = Grid::new();

    grid.mark((0, 0), Mark::X);
    grid.mark((0, 1), Mark::O);
    grid.mark((1, 1), Mark::X);
    grid.mark((0, 2), Mark::O);
    grid.mark((2, 2), Mark::X);

    assert_eq!(evaluate(&grid), Some(Outcome::Win));
}

#[test]
fn evaluate_sees_no_outcome_in_an_open_position() {
    let mut grid = Grid::new();

    grid.mark((0, 0), Mark::X);
    grid.mark((1, 1), Mark::O);
    grid.mark((2, 2), Mark::X);

    assert_eq!(evaluate(&grid), None);
}
