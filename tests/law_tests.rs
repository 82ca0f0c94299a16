use cover_solver::admissible::{placement_is_admissible, requirements_are_admissible, solution_is_admissible};
use cover_solver::candidates::{candidates_for_part, placement_locations_and_masks_for_mask};
use cover_solver::grid::{Cell, Grid, GridSettings, Location, Position};
use cover_solver::mask::Mask;
use cover_solver::parts::{Constraint, Part, Placement, Requirement};
use cover_solver::solver::{check_inputs, place_all, solve, InputError};

fn l_shape() -> Mask {
    Mask {
        height: 3,
        width: 3,
        cells: vec![
            true, false, false, //
            true, true, false, //
            true, false, false, //
        ],
    }
}

fn bar(len: usize) -> Mask {
    Mask { height: 1, width: len, cells: vec![true; len] }
}

fn settings(height: usize, width: usize, has_oob: bool, row: usize) -> GridSettings {
    GridSettings { height, width, has_oob, command_line_row: row }
}

fn free() -> Constraint {
    Constraint { compressed: None, on_command_line: None, bugged: None }
}

fn replay(parts: &[Part], requirements: &[Requirement], placements: &[Placement], s: GridSettings) -> Option<Grid> {
    let mut grid = Grid::new(s);
    for (i, p) in placements.iter().enumerate() {
        let part = &parts[requirements[i].part_index];
        let mask = if p.compressed { &part.compressed_mask } else { &part.uncompressed_mask };
        grid = grid.place(&mask.rotate(p.loc.rotation), p.loc.position, i)?;
    }
    Some(grid)
}

#[test]
fn rotate90_of_a_wide_mask() {
    let mask = Mask { height: 2, width: 3, cells: vec![true, true, false, false, false, true] };
    let turned = mask.rotate90();
    assert_eq!(turned, Mask { height: 3, width: 2, cells: vec![false, true, false, true, true, false] });
}

#[test]
fn rotate_four_times_gives_the_mask_back() {
    let mask = Mask { height: 2, width: 3, cells: vec![true, true, false, false, false, true] };
    assert_eq!(mask.rotate(4), mask);
    assert_eq!(mask.rotate(0), mask);
    assert_eq!(mask.rotate(5), mask.rotate90());
    assert_eq!(l_shape().rotate(2).rotate(2), l_shape());
}

#[test]
fn trimming_twice_is_trimming_once() {
    let mask = Mask {
        height: 4,
        width: 4,
        cells: vec![
            false, false, false, false, //
            false, true, false, false, //
            false, true, true, false, //
            false, false, false, false, //
        ],
    };
    let once = mask.trimmed();
    assert_eq!(once, Mask { height: 2, width: 2, cells: vec![true, false, true, true] });
    assert_eq!(once.trimmed(), once);
}

#[test]
fn trimming_an_unset_mask_keeps_it() {
    let mask = Mask { height: 2, width: 3, cells: vec![false; 6] };
    assert_eq!(mask.trimmed(), mask);
    let empty = Mask { height: 0, width: 0, cells: vec![] };
    assert_eq!(empty.trimmed(), empty);
}

#[test]
fn failed_place_leaves_the_grid_as_it_was() {
    let mut grid = Grid::new(settings(3, 3, false, 1));
    grid.cells[7] = Cell::Placed(1);
    let before = grid.cells.clone();
    assert!(grid.place(&l_shape(), Position { x: 0, y: 0 }, 0).is_some());
    assert!(grid.place(&l_shape(), Position { x: 1, y: 0 }, 0).is_none());
    assert!(grid.place(&l_shape(), Position { x: -1, y: 0 }, 0).is_none());
    assert_eq!(grid.cells, before);
}

#[test]
fn fresh_grid_with_forbidden_corners() {
    let grid = Grid::new(settings(2, 3, true, 0));
    assert_eq!(
        grid.cells,
        vec![Cell::Forbidden, Cell::Empty, Cell::Forbidden, Cell::Forbidden, Cell::Empty, Cell::Forbidden]
    );
}

#[test]
fn per_placement_check() {
    let s = settings(3, 3, false, 1);
    let on_line = Grid::new(s).place(&bar(2), Position { x: 0, y: 1 }, 0).unwrap();
    let off_line = Grid::new(s).place(&bar(2), Position { x: 0, y: 0 }, 0).unwrap();
    assert!(placement_is_admissible(&on_line, true, 0, Some(true), Some(false)));
    assert!(!placement_is_admissible(&off_line, true, 0, Some(true), None));
    assert!(!placement_is_admissible(&off_line, true, 0, None, Some(false)));
    assert!(placement_is_admissible(&off_line, false, 0, None, Some(false)));
    let oob = settings(3, 3, true, 1);
    let ring = Grid::new(oob).place(&bar(1), Position { x: 1, y: 0 }, 0).unwrap();
    assert!(!placement_is_admissible(&ring, true, 0, None, None));
}

#[test]
fn requirement_precheck() {
    let parts = vec![Part { is_solid: true, color: 0, compressed_mask: bar(2), uncompressed_mask: bar(3) }];
    let on_line = Constraint { compressed: None, on_command_line: Some(true), bugged: None };
    let two = vec![Requirement { part_index: 0, constraint: on_line }; 2];
    assert!(requirements_are_admissible(&parts, &two, settings(3, 2, false, 1)));
    let three = vec![Requirement { part_index: 0, constraint: on_line }; 3];
    assert!(!requirements_are_admissible(&parts, &three, settings(3, 2, false, 1)));
    let wide = Constraint { compressed: Some(false), on_command_line: None, bugged: None };
    let big = vec![Requirement { part_index: 0, constraint: wide }; 3];
    assert!(requirements_are_admissible(&parts, &big, settings(3, 3, false, 1)));
    assert!(!requirements_are_admissible(&parts, &big, settings(3, 3, true, 1)));
    assert!(!requirements_are_admissible(&parts, &[], settings(1, 1, true, 0)));
}

#[test]
fn whole_solution_check_sees_same_color_neighbours() {
    let parts = vec![Part { is_solid: true, color: 5, compressed_mask: bar(1), uncompressed_mask: bar(1) }];
    let not_bugged = Constraint { compressed: None, on_command_line: None, bugged: Some(false) };
    let requirements = vec![Requirement { part_index: 0, constraint: not_bugged }; 2];
    let s = settings(1, 3, false, 0);
    let apart = [Position { x: 0, y: 0 }, Position { x: 2, y: 0 }];
    let touching = [Position { x: 0, y: 0 }, Position { x: 1, y: 0 }];
    for (positions, expected) in [(apart, true), (touching, false)] {
        let mut grid = Grid::new(s);
        for (i, p) in positions.iter().enumerate() {
            grid = grid.place(&parts[0].compressed_mask, *p, i).unwrap();
        }
        assert_eq!(solution_is_admissible(&parts, &requirements, &grid), expected);
    }
}

#[test]
fn candidates_follow_the_compression_demand() {
    let part = Part { is_solid: false, color: 0, compressed_mask: bar(2), uncompressed_mask: bar(3) };
    let s = settings(1, 3, false, 0);
    let mut c = free();
    let both = candidates_for_part(&part, s, &c, false);
    let flags: Vec<(isize, bool)> = both.iter().map(|k| (k.placement.loc.position.x, k.placement.compressed)).collect();
    assert_eq!(flags, vec![(0, true), (1, true), (0, false)]);
    c.compressed = Some(false);
    let forced = candidates_for_part(&part, s, &c, false);
    assert_eq!(forced.len(), 2);
    assert!(forced.iter().all(|k| !k.placement.compressed && k.mask == bar(2)));
    let same = Part { is_solid: false, color: 0, compressed_mask: bar(2), uncompressed_mask: bar(2) };
    assert_eq!(candidates_for_part(&same, s, &free(), false).len(), 2);
}

#[test]
fn symmetric_masks_are_not_turned_twice() {
    let s = settings(2, 2, false, 0);
    let square = Mask { height: 1, width: 1, cells: vec![true] };
    let locs = placement_locations_and_masks_for_mask(&square, false, s, None, None, true);
    assert_eq!(locs.len(), 4);
    assert!(locs.iter().all(|(l, _)| l.rotation == 0));
    let turned = placement_locations_and_masks_for_mask(&bar(2), false, s, None, None, true);
    let rotations: Vec<usize> = turned.iter().map(|(l, _)| l.rotation).collect();
    assert_eq!(rotations, vec![0, 0, 1, 1]);
}

#[test]
fn emitted_solutions_replay_and_differ() {
    let parts = vec![
        Part { is_solid: false, color: 0, compressed_mask: bar(2), uncompressed_mask: bar(2) },
        Part { is_solid: false, color: 1, compressed_mask: bar(1), uncompressed_mask: bar(1) },
    ];
    let requirements = vec![
        Requirement { part_index: 0, constraint: free() },
        Requirement { part_index: 1, constraint: free() },
        Requirement { part_index: 1, constraint: free() },
    ];
    let s = settings(2, 2, false, 0);
    let solutions = solve(parts.clone(), requirements.clone(), s, vec![true, false]);
    assert!(!solutions.is_empty());
    let mut topologies = Vec::new();
    for solution in &solutions {
        assert_eq!(solution.len(), requirements.len());
        let owners = place_all(&parts, &requirements, solution, s).unwrap();
        let grid = replay(&parts, &requirements, solution, s).unwrap();
        assert!(solution_is_admissible(&parts, &requirements, &grid));
        for (k, cell) in grid.cells.iter().enumerate() {
            match cell {
                Cell::Placed(r) => assert_eq!(owners[k], Some(*r)),
                _ => assert_eq!(owners[k], None),
            }
        }
        let topology: Vec<Option<usize>> = owners.iter().map(|o| o.map(|r| requirements[r].part_index)).collect();
        assert!(!topologies.contains(&topology));
        topologies.push(topology);
    }
    assert_eq!(solutions.len(), 4);
}

#[test]
fn solve_with_nothing_to_place() {
    let solutions = solve(vec![], vec![], settings(2, 2, false, 0), vec![]);
    assert_eq!(solutions, vec![Vec::<Placement>::new()]);
}

#[test]
fn solve_with_command_line_outside_the_grid() {
    let parts = vec![Part { is_solid: true, color: 0, compressed_mask: l_shape(), uncompressed_mask: l_shape() }];
    let requirements = vec![Requirement { part_index: 0, constraint: free() }];
    assert!(solve(parts.clone(), requirements.clone(), settings(3, 3, false, 3), vec![true]).is_empty());
    assert!(solve(parts, requirements, settings(2, 2, false, 0), vec![true]).is_empty());
}

#[test]
fn place_all_reports_overlap() {
    let parts = vec![Part { is_solid: true, color: 0, compressed_mask: bar(2), uncompressed_mask: bar(2) }];
    let requirements = vec![Requirement { part_index: 0, constraint: free() }; 2];
    let at = |x: isize, rotation: usize| Placement {
        loc: Location { position: Position { x, y: 0 }, rotation },
        compressed: true,
    };
    let s = settings(2, 3, false, 0);
    assert_eq!(place_all(&parts, &requirements, &[at(0, 0), at(1, 0)], s), None);
    assert_eq!(
        place_all(&parts, &requirements, &[at(0, 0), at(2, 1)], s),
        Some(vec![Some(0), Some(0), Some(1), None, None, Some(1)])
    );
}

#[test]
fn input_errors() {
    let good = Part { is_solid: true, color: 0, compressed_mask: bar(2), uncompressed_mask: bar(2) };
    let bad = Part { is_solid: true, color: 0, compressed_mask: Mask { height: 2, width: 2, cells: vec![true] }, uncompressed_mask: bar(2) };
    let req = vec![Requirement { part_index: 0, constraint: free() }];
    let s = settings(3, 3, false, 0);
    assert_eq!(check_inputs(&[good.clone()], &req, s), Ok(()));
    assert_eq!(check_inputs(&[bad], &req, s), Err(InputError::MalformedMask));
    assert_eq!(check_inputs(&[good.clone()], &[Requirement { part_index: 1, constraint: free() }], s), Err(InputError::UnknownPart));
    assert_eq!(check_inputs(&[good], &req, settings(usize::MAX, 2, false, 0)), Err(InputError::GridTooLarge));
}

#[test]
fn set_cell_past_the_grid_in_mask_coordinates_is_clipped() {
    let grid = Grid::new(settings(1, 1, false, 0));
    let mask = Mask { height: 1, width: 2, cells: vec![false, true] };
    assert!(grid.place(&mask, Position { x: -1, y: 0 }, 0).is_none());
    let parts = vec![Part { is_solid: true, color: 0, compressed_mask: mask.clone(), uncompressed_mask: mask }];
    let requirements = vec![Requirement { part_index: 0, constraint: free() }];
    let at = Placement { loc: Location { position: Position { x: -1, y: 0 }, rotation: 0 }, compressed: true };
    assert_eq!(place_all(&parts, &requirements, &[at], settings(1, 1, false, 0)), None);
    let wide = Grid::new(settings(1, 2, false, 0));
    assert_eq!(
        wide.place(&Mask { height: 1, width: 2, cells: vec![false, true] }, Position { x: -1, y: 0 }, 0).unwrap().cells,
        vec![Cell::Placed(0), Cell::Empty]
    );
}

#[test]
fn forced_uncompressed_searches_the_compressed_mask() {
    let parts = vec![Part { is_solid: false, color: 0, compressed_mask: bar(1), uncompressed_mask: bar(2) }];
    let off = Constraint { compressed: Some(false), on_command_line: None, bugged: None };
    let requirements = vec![Requirement { part_index: 0, constraint: off }];
    let at = |x: isize| Placement { loc: Location { position: Position { x, y: 0 }, rotation: 0 }, compressed: false };
    let solutions = solve(parts, requirements, settings(1, 2, false, 0), vec![]);
    assert_eq!(solutions, vec![vec![at(0)], vec![at(1)]]);
}
