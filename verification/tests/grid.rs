use xsos::{Cells, Grid, Mark, Position, UnmarkedPositions};

fn drain_positions(mut it: UnmarkedPositions) -> Vec<Position> {
    let mut out = Vec::new();
    while let Some(p) = it.next() {
        out.push(p);
    }
    out
}

fn drain_cells(mut it: Cells) -> Vec<Option<Mark>> {
    let mut out = Vec::new();
    while let Some(c) = it.next() {
        out.push(c);
    }
    out
}

#[test]
fn grid_usage() {
    let mut grid = Grid::new();

    grid.mark((0, 0), Mark::X);
    grid.mark((1, 1), Mark::O);

    assert!(grid.is_marked_at((0, 0)));
    assert!(grid.is_marked_at((1, 1)));

    assert_eq!(
        drain_positions(grid.unmarked_positions()),
        vec![(0, 1), (0, 2), (1, 0), (1, 2), (2, 0), (2, 1), (2, 2)]
    );

    assert_eq!(
        drain_cells(grid.cells()),
        vec![
            Some(Mark::X),
            None,
            None,
            None,
            Some(Mark::O),
            None,
            None,
            None,
            None
        ]
    );
}

#[test]
fn grid_clone() {
    let mut grid = Grid::new();

    grid.mark((0, 0), Mark::X);

    let mut clone_of_grid = grid.clone();

    clone_of_grid.mark((1, 1), Mark::O);

    assert!(clone_of_grid.is_marked_at((0, 0)));
    assert!(clone_of_grid.is_marked_at((1, 1)));
    assert!(grid.is_unmarked_at((1, 1)));
}

#[test]
fn in_bounds_corners_and_beyond() {
    assert!(Grid::in_bounds((0, 0)));
    assert!(Grid::in_bounds((2, 2)));
    assert!(!Grid::in_bounds((3, 3)));
    assert!(!Grid::in_bounds((0, 3)));
    assert!(!Grid::in_bounds((3, 0)));
}

#[test]
fn last_mark_follows_the_latest_play() {
    let mut grid = Grid::new();
    assert_eq!(grid.last_mark(), None);
    grid.mark((0, 0), Mark::X);
    assert_eq!(grid.last_mark(), Some(Mark::X));
    grid.mark((2, 1), Mark::O);
    assert_eq!(grid.last_mark(), Some(Mark::O));
}

#[test]
fn unmarked_positions_plus_marked_cells_is_nine() {
    let mut grid = Grid::new();
    grid.mark((0, 0), Mark::X);
    grid.mark((0, 2), Mark::O);
    grid.mark((1, 1), Mark::X);

    let unmarked = drain_positions(grid.unmarked_positions()).len();
    let marked = drain_cells(grid.cells())
        .into_iter()
        .filter(Option::is_some)
        .count();
    assert_eq!(unmarked + marked, 9);
}

#[test]
fn empty_grid_has_nine_unmarked_positions_in_row_major_order() {
    let grid = Grid::new();
    assert_eq!(
        drain_positions(grid.unmarked_positions()),
        vec![
            (0, 0),
            (0, 1),
            (0, 2),
            (1, 0),
            (1, 1),
            (1, 2),
            (2, 0),
            (2, 1),
            (2, 2)
        ]
    );
}
