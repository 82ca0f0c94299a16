use cover_solver::candidates::placement_positions_for_mask;
use cover_solver::grid::{GridSettings, Location, Position};
use cover_solver::mask::Mask;
use cover_solver::parts::{Constraint, Part, Placement, Requirement};
use cover_solver::solver::solve;

fn super_armor() -> Mask {
    Mask {
        height: 7,
        width: 7,
        cells: vec![
            true, false, false, false, false, false, false, //
            true, true, false, false, false, false, false, //
            true, false, false, false, false, false, false, //
            false, false, false, false, false, false, false, //
            false, false, false, false, false, false, false, //
            false, false, false, false, false, false, false, //
            false, false, false, false, false, false, false, //
        ],
    }
}

#[test]
fn test_placement_positions_for_mask() {
    assert_eq!(
        placement_positions_for_mask(
            &super_armor(),
            true,
            GridSettings {
                height: 7,
                width: 7,
                has_oob: true,
                command_line_row: 3,
            },
            None,
            None,
        ),
        vec![
            Position { x: 1, y: 0 },
            Position { x: 2, y: 0 },
            Position { x: 3, y: 0 },
            Position { x: 4, y: 0 },
            Position { x: 5, y: 0 },
            Position { x: 0, y: 1 },
            Position { x: 1, y: 1 },
            Position { x: 2, y: 1 },
            Position { x: 3, y: 1 },
            Position { x: 4, y: 1 },
            Position { x: 5, y: 1 },
            Position { x: 0, y: 2 },
            Position { x: 1, y: 2 },
            Position { x: 2, y: 2 },
            Position { x: 3, y: 2 },
            Position { x: 4, y: 2 },
            Position { x: 5, y: 2 },
            Position { x: 0, y: 3 },
            Position { x: 1, y: 3 },
            Position { x: 2, y: 3 },
            Position { x: 3, y: 3 },
            Position { x: 4, y: 3 },
            Position { x: 5, y: 3 },
            Position { x: 1, y: 4 },
            Position { x: 2, y: 4 },
            Position { x: 3, y: 4 },
            Position { x: 4, y: 4 },
            Position { x: 5, y: 4 },
        ]
    );
}

#[test]
fn test_placement_positions_for_mask_on_command_line() {
    assert_eq!(
        placement_positions_for_mask(
            &super_armor(),
            true,
            GridSettings {
                height: 7,
                width: 7,
                has_oob: true,
                command_line_row: 3,
            },
            Some(true),
            None,
        ),
        vec![
            Position { x: 0, y: 1 },
            Position { x: 1, y: 1 },
            Position { x: 2, y: 1 },
            Position { x: 3, y: 1 },
            Position { x: 4, y: 1 },
            Position { x: 5, y: 1 },
            Position { x: 0, y: 2 },
            Position { x: 1, y: 2 },
            Position { x: 2, y: 2 },
            Position { x: 3, y: 2 },
            Position { x: 4, y: 2 },
            Position { x: 5, y: 2 },
            Position { x: 0, y: 3 },
            Position { x: 1, y: 3 },
            Position { x: 2, y: 3 },
            Position { x: 3, y: 3 },
            Position { x: 4, y: 3 },
            Position { x: 5, y: 3 },
        ]
    );
}

#[test]
fn test_placement_positions_for_mask_not_bugged() {
    assert_eq!(
        placement_positions_for_mask(
            &super_armor(),
            true,
            GridSettings {
                height: 7,
                width: 7,
                has_oob: true,
                command_line_row: 3,
            },
            None,
            Some(false),
        ),
        vec![
            Position { x: 1, y: 1 },
            Position { x: 2, y: 1 },
            Position { x: 3, y: 1 },
            Position { x: 4, y: 1 },
            Position { x: 1, y: 2 },
            Position { x: 2, y: 2 },
            Position { x: 3, y: 2 },
            Position { x: 4, y: 2 },
            Position { x: 1, y: 3 },
            Position { x: 2, y: 3 },
            Position { x: 3, y: 3 },
            Position { x: 4, y: 3 },
        ]
    );
}

#[test]
fn test_mask_trimmed() {
    let super_armor = Mask {
        height: 3,
        width: 3,
        cells: vec![
            true, false, false, //
            true, false, false, //
            true, false, false, //
        ],
    };

    let expected_super_armor = Mask {
        height: 3,
        width: 1,
        cells: vec![
            true, //
            true, //
            true, //
        ],
    };

    assert_eq!(super_armor.trimmed(), expected_super_armor);
}

#[test]
fn test_solve() {
    let super_armor = Mask {
        height: 3,
        width: 3,
        cells: vec![
            true, false, false, //
            true, true, false, //
            true, false, false, //
        ],
    };

    assert_eq!(
        solve(
            vec![Part {
                is_solid: true,
                color: 0,
                compressed_mask: super_armor.clone(),
                uncompressed_mask: super_armor.clone(),
            }],
            vec![Requirement {
                part_index: 0,
                constraint: Constraint {
                    compressed: Some(true),
                    on_command_line: Some(true),
                    bugged: Some(false),
                },
            }],
            GridSettings {
                height: 3,
                width: 3,
                has_oob: false,
                command_line_row: 1,
            },
            vec![true],
        ),
        vec![
            vec![Placement { loc: Location { position: Position { x: 0, y: 0 }, rotation: 0 }, compressed: true }],
            vec![Placement { loc: Location { position: Position { x: 1, y: 0 }, rotation: 0 }, compressed: true }],
            vec![Placement { loc: Location { position: Position { x: 0, y: 0 }, rotation: 1 }, compressed: true }],
            vec![Placement { loc: Location { position: Position { x: 0, y: 1 }, rotation: 1 }, compressed: true }],
            vec![Placement { loc: Location { position: Position { x: -1, y: 0 }, rotation: 2 }, compressed: true }],
            vec![Placement { loc: Location { position: Position { x: 0, y: 0 }, rotation: 2 }, compressed: true }],
            vec![Placement { loc: Location { position: Position { x: 0, y: -1 }, rotation: 3 }, compressed: true }],
            vec![Placement { loc: Location { position: Position { x: 0, y: 0 }, rotation: 3 }, compressed: true }],
        ]
    );
}
