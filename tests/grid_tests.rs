use cover_solver::grid::{Cell, Grid, GridSettings, Position};
use cover_solver::mask::Mask;

fn super_armor() -> Mask {
    Mask {
        height: 7,
        width: 7,
        cells: vec![
            true, false, false, false, false, false, false, //
            true, true, false, false, false, false, false, //
            true, false, false, false, false, false, false, //
            false, false, false, false, false, false, false, //
            false, false, false, false, false, false, false, //
            false, false, false, false, false, false, false, //
            false, false, false, false, false, false, false, //
        ],
    }
}

#[test]
fn test_mask_rot90() {
    let mask = Mask {
        height: 7,
        width: 7,
        cells: vec![
            true, true, true, true, true, false, false, //
            true, true, true, true, false, false, false, //
            true, true, true, true, false, false, false, //
            true, true, true, true, false, false, false, //
            true, true, true, true, false, false, false, //
            true, true, true, true, false, false, false, //
            true, true, true, true, false, false, false, //
        ],
    };
    let mask = mask.rotate90();
    assert_eq!(
        mask,
        Mask {
            height: 7,
            width: 7,
            cells: vec![
                true, true, true, true, true, true, true, //
                true, true, true, true, true, true, true, //
                true, true, true, true, true, true, true, //
                true, true, true, true, true, true, true, //
                false, false, false, false, false, false, true, //
                false, false, false, false, false, false, false, //
                false, false, false, false, false, false, false, //
            ],
        }
    )
}

#[test]
fn test_grid_place() {
    let grid = Grid::new(GridSettings {
        height: 7,
        width: 7,
        has_oob: false,
        command_line_row: 3,
    });
    let mask = super_armor();
    let expected: Vec<Cell> = vec![
        Cell::Placed(0), Cell::Empty, Cell::Empty, Cell::Empty, Cell::Empty, Cell::Empty, Cell::Empty,
        Cell::Placed(0), Cell::Placed(0), Cell::Empty, Cell::Empty, Cell::Empty, Cell::Empty, Cell::Empty,
        Cell::Placed(0), Cell::Empty, Cell::Empty, Cell::Empty, Cell::Empty, Cell::Empty, Cell::Empty,
        Cell::Empty, Cell::Empty, Cell::Empty, Cell::Empty, Cell::Empty, Cell::Empty, Cell::Empty,
        Cell::Empty, Cell::Empty, Cell::Empty, Cell::Empty, Cell::Empty, Cell::Empty, Cell::Empty,
        Cell::Empty, Cell::Empty, Cell::Empty, Cell::Empty, Cell::Empty, Cell::Empty, Cell::Empty,
        Cell::Empty, Cell::Empty, Cell::Empty, Cell::Empty, Cell::Empty, Cell::Empty, Cell::Empty,
    ];
    assert_eq!(grid.place(&mask, Position { x: 0, y: 0 }, 0).unwrap().cells, expected);
}

#[test]
fn test_grid_place_error_source_clipped_does_not_mutate() {
    let grid = Grid::new(GridSettings {
        height: 7,
        width: 7,
        has_oob: false,
        command_line_row: 3,
    });
    let mask = super_armor();
    assert!(matches!(grid.place(&mask, Position { x: -1, y: 0 }, 0), None));
}

#[test]
fn test_grid_place_error_destination_clobbered_does_not_mutate() {
    let grid = Grid::new(GridSettings {
        height: 7,
        width: 7,
        has_oob: true,
        command_line_row: 3,
    });
    let mask = super_armor();
    assert!(matches!(grid.place(&mask, Position { x: 0, y: 0 }, 0), None));
}

#[test]
fn test_grid_place_oob() {
    let grid = Grid::new(GridSettings {
        height: 7,
        width: 7,
        has_oob: true,
        command_line_row: 3,
    });
    let mask = super_armor();
    let expected: Vec<Cell> = vec![
        Cell::Forbidden, Cell::Placed(0), Cell::Empty, Cell::Empty, Cell::Empty, Cell::Empty, Cell::Forbidden,
        Cell::Empty, Cell::Placed(0), Cell::Placed(0), Cell::Empty, Cell::Empty, Cell::Empty, Cell::Empty,
        Cell::Empty, Cell::Placed(0), Cell::Empty, Cell::Empty, Cell::Empty, Cell::Empty, Cell::Empty,
        Cell::Empty, Cell::Empty, Cell::Empty, Cell::Empty, Cell::Empty, Cell::Empty, Cell::Empty,
        Cell::Empty, Cell::Empty, Cell::Empty, Cell::Empty, Cell::Empty, Cell::Empty, Cell::Empty,
        Cell::Empty, Cell::Empty, Cell::Empty, Cell::Empty, Cell::Empty, Cell::Empty, Cell::Empty,
        Cell::Forbidden, Cell::Empty, Cell::Empty, Cell::Empty, Cell::Empty, Cell::Empty, Cell::Forbidden,
    ];
    assert_eq!(grid.place(&mask, Position { x: 1, y: 0 }, 0).unwrap().cells, expected);
}

#[test]
fn test_grid_place_forbidden() {
    let grid = Grid::new(GridSettings {
        height: 7,
        width: 7,
        has_oob: true,
        command_line_row: 3,
    });
    let mask = super_armor();
    assert!(matches!(grid.place(&mask, Position { x: 0, y: 0 }, 0), None));
}

#[test]
fn test_grid_place_different_sizes() {
    let grid = Grid::new(GridSettings {
        height: 7,
        width: 7,
        has_oob: false,
        command_line_row: 3,
    });
    let mask = Mask {
        height: 3,
        width: 2,
        cells: vec![
            true, false, //
            true, true, //
            true, false, //
        ],
    };
    let expected: Vec<Cell> = vec![
        Cell::Placed(0), Cell::Empty, Cell::Empty, Cell::Empty, Cell::Empty, Cell::Empty, Cell::Empty,
        Cell::Placed(0), Cell::Placed(0), Cell::Empty, Cell::Empty, Cell::Empty, Cell::Empty, Cell::Empty,
        Cell::Placed(0), Cell::Empty, Cell::Empty, Cell::Empty, Cell::Empty, Cell::Empty, Cell::Empty,
        Cell::Empty, Cell::Empty, Cell::Empty, Cell::Empty, Cell::Empty, Cell::Empty, Cell::Empty,
        Cell::Empty, Cell::Empty, Cell::Empty, Cell::Empty, Cell::Empty, Cell::Empty, Cell::Empty,
        Cell::Empty, Cell::Empty, Cell::Empty, Cell::Empty, Cell::Empty, Cell::Empty, Cell::Empty,
        Cell::Empty, Cell::Empty, Cell::Empty, Cell::Empty, Cell::Empty, Cell::Empty, Cell::Empty,
    ];
    assert_eq!(grid.place(&mask, Position { x: 0, y: 0 }, 0).unwrap().cells, expected);
}

#[test]
fn test_grid_place_nonzero_pos() {
    let grid = Grid::new(GridSettings {
        height: 7,
        width: 7,
        has_oob: false,
        command_line_row: 3,
    });
    let mask = super_armor();
    let expected: Vec<Cell> = vec![
        Cell::Empty, Cell::Placed(0), Cell::Empty, Cell::Empty, Cell::Empty, Cell::Empty, Cell::Empty,
        Cell::Empty, Cell::Placed(0), Cell::Placed(0), Cell::Empty, Cell::Empty, Cell::Empty, Cell::Empty,
        Cell::Empty, Cell::Placed(0), Cell::Empty, Cell::Empty, Cell::Empty, Cell::Empty, Cell::Empty,
        Cell::Empty, Cell::Empty, Cell::Empty, Cell::Empty, Cell::Empty, Cell::Empty, Cell::Empty,
        Cell::Empty, Cell::Empty, Cell::Empty, Cell::Empty, Cell::Empty, Cell::Empty, Cell::Empty,
        Cell::Empty, Cell::Empty, Cell::Empty, Cell::Empty, Cell::Empty, Cell::Empty, Cell::Empty,
        Cell::Empty, Cell::Empty, Cell::Empty, Cell::Empty, Cell::Empty, Cell::Empty, Cell::Empty,
    ];
    assert_eq!(grid.place(&mask, Position { x: 1, y: 0 }, 0).unwrap().cells, expected);
}

#[test]
fn test_grid_place_neg_pos() {
    let grid = Grid::new(GridSettings {
        height: 7,
        width: 7,
        has_oob: false,
        command_line_row: 3,
    });
    let mask = Mask {
        height: 7,
        width: 7,
        cells: vec![
            false, true, false, false, false, false, false, //
            false, true, true, false, false, false, false, //
            false, true, false, false, false, false, false, //
            false, false, false, false, false, false, false, //
            false, false, false, false, false, false, false, //
            false, false, false, false, false, false, false, //
            false, false, false, false, false, false, false, //
        ],
    };
    let expected: Vec<Cell> = vec![
        Cell::Placed(0), Cell::Empty, Cell::Empty, Cell::Empty, Cell::Empty, Cell::Empty, Cell::Empty,
        Cell::Placed(0), Cell::Placed(0), Cell::Empty, Cell::Empty, Cell::Empty, Cell::Empty, Cell::Empty,
        Cell::Placed(0), Cell::Empty, Cell::Empty, Cell::Empty, Cell::Empty, Cell::Empty, Cell::Empty,
        Cell::Empty, Cell::Empty, Cell::Empty, Cell::Empty, Cell::Empty, Cell::Empty, Cell::Empty,
        Cell::Empty, Cell::Empty, Cell::Empty, Cell::Empty, Cell::Empty, Cell::Empty, Cell::Empty,
        Cell::Empty, Cell::Empty, Cell::Empty, Cell::Empty, Cell::Empty, Cell::Empty, Cell::Empty,
        Cell::Empty, Cell::Empty, Cell::Empty, Cell::Empty, Cell::Empty, Cell::Empty, Cell::Empty,
    ];
    assert_eq!(grid.place(&mask, Position { x: -1, y: 0 }, 0).unwrap().cells, expected);
}

#[test]
fn test_grid_place_source_clipped() {
    let grid = Grid::new(GridSettings {
        height: 7,
        width: 7,
        has_oob: false,
        command_line_row: 3,
    });
    let mask = super_armor();
    assert!(matches!(grid.place(&mask, Position { x: -1, y: 1 }, 0), None));
}

#[test]
fn test_grid_place_source_clipped_other_side() {
    let grid = Grid::new(GridSettings {
        height: 7,
        width: 7,
        has_oob: false,
        command_line_row: 3,
    });
    let mask = super_armor();
    assert!(matches!(grid.place(&mask, Position { x: 6, y: 0 }, 0), None));
}

#[test]
fn test_grid_destination_clobbered() {
    let mut grid = Grid::new(GridSettings {
        height: 7,
        width: 7,
        has_oob: false,
        command_line_row: 3,
    });
    grid.cells[0] = Cell::Placed(2);
    let mask = super_armor();
    assert!(matches!(grid.place(&mask, Position { x: 0, y: 0 }, 0), None));
}
