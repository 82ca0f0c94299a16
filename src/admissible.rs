//! The checks that prune the search: per placement, per complete arrangement, and the cheap necessary conditions on the requirements.

use crate::grid::{Cell, Grid, GridSettings};
use crate::parts::{Part, Requirement};
use vstd::prelude::*;

verus! {

/// Whether cell `k` of a grid of the given width is placed by requirement `r`
/// and lies in the interior, away from the outer ring.
pub open spec fn interior_at(cells: Seq<Cell>, height: int, width: int, r: usize, k: int) -> bool {
    cells[k] == Cell::Placed(r) && 1 <= k / width < height - 1 && 1 <= k % width < width - 1
}

/// Whether cell `k` is placed by `r` and lies on the outer ring.
pub open spec fn border_at(cells: Seq<Cell>, height: int, width: int, r: usize, k: int) -> bool {
    cells[k] == Cell::Placed(r) && (k / width == 0 || k / width == height - 1 || k % width == 0
        || k % width == width - 1)
}

/// Whether cell `k` is placed by `r` and lies on row `row`.
pub open spec fn row_at(cells: Seq<Cell>, width: int, row: int, r: usize, k: int) -> bool {
    cells[k] == Cell::Placed(r) && k / width == row
}

pub open spec fn interior_has(cells: Seq<Cell>, s: GridSettings, r: usize) -> bool {
    exists|k: int| 0 <= k < cells.len() && #[trigger] interior_at(cells, s.height as int, s.width as int, r, k)
}

pub open spec fn border_has(cells: Seq<Cell>, s: GridSettings, r: usize) -> bool {
    exists|k: int| 0 <= k < cells.len() && #[trigger] border_at(cells, s.height as int, s.width as int, r, k)
}

pub open spec fn command_line_has(cells: Seq<Cell>, s: GridSettings, r: usize) -> bool {
    exists|k: int| 0 <= k < cells.len() && #[trigger] row_at(cells, s.width as int, s.command_line_row as int, r, k)
}

/// Whether the cells of requirement `r` on a grid with `cells` and settings
/// `s` are still acceptable during the search: with forbidden corners some
/// of them lie in the interior, the command-line demand holds, and a
/// placement that must not be bugged is neither on the outer ring nor solid
/// off the command line (nor hollow on it).
pub open spec fn placement_ok(
    cells: Seq<Cell>,
    s: GridSettings,
    part_is_solid: bool,
    r: usize,
    on_command_line: Option<bool>,
    bugged: Option<bool>,
) -> bool {
    let out_of_bounds = s.has_oob && border_has(cells, s, r);
    let on_line = command_line_has(cells, s, r);
    &&& !(s.has_oob && !interior_has(cells, s, r))
    &&& demand_met(on_command_line, on_line)
    &&& !(bugged == Some(false) && (out_of_bounds || part_is_solid == !on_line))
}

/// Decides `placement_ok` for the cells of requirement `requirement_index`.
pub fn placement_is_admissible(
    grid: &Grid,
    part_is_solid: bool,
    requirement_index: usize,
    on_command_line: Option<bool>,
    bugged: Option<bool>,
) -> (r: bool)
    requires
        grid.wf(),
    ensures
        r == placement_ok(grid.cells@, grid.spec_settings(), part_is_solid, requirement_index, on_command_line, bugged),
{
    let h = grid.height;
    let w = grid.width;
    let n = grid.cells.len();
    let ghost cells = grid.cells@;
    let mut interior = false;
    let mut border = false;
    let mut on_line = false;
    let mut k: usize = 0;
    while k < n
        invariant
            grid.wf(),
            cells == grid.cells@,
            n == cells.len(),
            h == grid.height,
            w == grid.width,
            k <= n,
            interior == exists|k2: int| 0 <= k2 < k && #[trigger] interior_at(cells, h as int, w as int, requirement_index, k2),
            border == exists|k2: int| 0 <= k2 < k && #[trigger] border_at(cells, h as int, w as int, requirement_index, k2),
            on_line == exists|k2: int| 0 <= k2 < k && #[trigger] row_at(cells, w as int, grid.command_line_row as int, requirement_index, k2),
        decreases n - k,
    {
        proof {
            crate::arith::lemma_split_index(k as int, h as int, w as int);
        }
        let y = k / w;
        let x = k % w;
        let mine = grid.cells[k] == Cell::Placed(requirement_index);
        let hit_interior = mine && 1 <= y && y + 1 < h && 1 <= x && x + 1 < w;
        let hit_border = mine && (y == 0 || y == h - 1 || x == 0 || x == w - 1);
        let hit_line = mine && y == grid.command_line_row;
        assert(hit_interior == interior_at(cells, h as int, w as int, requirement_index, k as int));
        assert(hit_border == border_at(cells, h as int, w as int, requirement_index, k as int));
        assert(hit_line == row_at(cells, w as int, grid.command_line_row as int, requirement_index, k as int));
        interior = interior || hit_interior;
        border = border || hit_border;
        on_line = on_line || hit_line;
        k += 1;
    }
    let ghost gs = grid.spec_settings();
    assert(gs.height == h && gs.width == w && gs.command_line_row == grid.command_line_row);
    assert(interior == interior_has(cells, gs, requirement_index)) by {
        if interior_has(cells, gs, requirement_index) {
            let k2 = choose|k2: int| 0 <= k2 < cells.len() && #[trigger] interior_at(cells, gs.height as int, gs.width as int, requirement_index, k2);
            assert(interior_at(cells, h as int, w as int, requirement_index, k2));
        }
    }
    assert(border == border_has(cells, gs, requirement_index));
    assert(on_line == command_line_has(cells, gs, requirement_index)) by {
        if command_line_has(cells, gs, requirement_index) {
            let k2 = choose|k2: int| 0 <= k2 < cells.len() && #[trigger] row_at(cells, gs.width as int, gs.command_line_row as int, requirement_index, k2);
            assert(row_at(cells, w as int, grid.command_line_row as int, requirement_index, k2));
        }
    }
    if grid.has_oob && !interior {
        return false;
    }
    let out_of_bounds = grid.has_oob && border;
    match on_command_line {
        Some(want) => {
            if want != on_line {
                return false;
            }
        },
        None => {},
    }
    let is_bugged = out_of_bounds || (part_is_solid == !on_line);
    if bugged == Some(false) && is_bugged {
        return false;
    }
    true
}

/// The color of the part that requirement `r` names.
pub open spec fn color_of(parts: Seq<Part>, requirements: Seq<Requirement>, r: int) -> usize {
    parts[requirements[r].part_index as int].color
}

/// Whether cell `n` is placed by another requirement than `r` whose part has
/// the color of `r`'s part.
pub open spec fn same_color_at(cells: Seq<Cell>, s: GridSettings, parts: Seq<Part>, requirements: Seq<Requirement>, r: usize, n: int) -> bool {
    match cells[n] {
        Cell::Placed(r2) => r2 != r && color_of(parts, requirements, r2 as int) == color_of(parts, requirements, r as int),
        _ => false,
    }
}

/// Whether cell `k` is placed by `r` and one of its four neighbours inside
/// the grid is placed by another requirement of the same color.
pub open spec fn touch_at(cells: Seq<Cell>, s: GridSettings, parts: Seq<Part>, requirements: Seq<Requirement>, r: usize, k: int) -> bool {
    let w = s.width as int;
    let h = s.height as int;
    let y = k / w;
    let x = k % w;
    &&& cells[k] == Cell::Placed(r)
    &&& {
        ||| x > 0 && same_color_at(cells, s, parts, requirements, r, k - 1)
        ||| x + 1 < w && same_color_at(cells, s, parts, requirements, r, k + 1)
        ||| y > 0 && same_color_at(cells, s, parts, requirements, r, k - w)
        ||| y + 1 < h && same_color_at(cells, s, parts, requirements, r, k + w)
    }
}

/// Whether cell `k` is placed by `r` and counts as out of bounds in a
/// complete arrangement: the first or last column, or the last row.
pub open spec fn edge_at(cells: Seq<Cell>, height: int, width: int, r: usize, k: int) -> bool {
    cells[k] == Cell::Placed(r) && (k % width == 0 || k % width == width - 1 || k / width == height - 1)
}

/// Whether requirement `r` is bugged in the complete arrangement `g`: out of
/// bounds, solid off the command line or hollow on it, or touching a part of
/// its own color.
pub open spec fn bugged_in(cells: Seq<Cell>, s: GridSettings, parts: Seq<Part>, requirements: Seq<Requirement>, r: usize) -> bool {
    let n = cells.len();
    let out_of_bounds = s.has_oob && exists|k: int| 0 <= k < n && #[trigger] edge_at(cells, s.height as int, s.width as int, r, k);
    let on_line = command_line_has(cells, s, r);
    let touching = exists|k: int| 0 <= k < n && #[trigger] touch_at(cells, s, parts, requirements, r, k);
    out_of_bounds || parts[requirements[r as int].part_index as int].is_solid == !on_line || touching
}

/// Whether an optional demand is absent or equal to `actual`.
pub open spec fn demand_met(demand: Option<bool>, actual: bool) -> bool {
    match demand {
        Some(want) => want == actual,
        None => true,
    }
}

/// Whether every requirement's demand on being bugged holds in `g`.
pub open spec fn solution_ok(cells: Seq<Cell>, s: GridSettings, parts: Seq<Part>, requirements: Seq<Requirement>) -> bool {
    forall|r: int|
        0 <= r < requirements.len() ==> demand_met((#[trigger] requirements[r]).constraint.bugged, bugged_in(cells, s, parts, requirements, r as usize))
}

/// Every placed cell names one of the first `n` requirements.
pub open spec fn placed_below(cells: Seq<Cell>, n: int) -> bool {
    forall|k: int| 0 <= k < cells.len() ==> (#[trigger] cells[k] matches Cell::Placed(r) ==> r < n)
}

/// Decides `solution_ok` on a complete arrangement.
pub fn solution_is_admissible(parts: &[Part], requirements: &[Requirement], grid: &Grid) -> (r: bool)
    requires
        grid.wf(),
        crate::parts::inputs_wf(parts@, requirements@),
        placed_below(grid.cells@, requirements@.len() as int),
    ensures
        r == solution_ok(grid.cells@, grid.spec_settings(), parts@, requirements@),
{
    let nreq = requirements.len();
    let mut r: usize = 0;
    while r < nreq
        invariant
            grid.wf(),
            crate::parts::inputs_wf(parts@, requirements@),
            placed_below(grid.cells@, requirements@.len() as int),
            nreq == requirements@.len(),
            r <= nreq,
            forall|r2: int|
                0 <= r2 < r ==> demand_met((#[trigger] requirements@[r2]).constraint.bugged, bugged_in(grid.cells@, grid.spec_settings(), parts@, requirements@, r2 as usize)),
        decreases nreq - r,
    {
        match requirements[r].constraint.bugged {
            Some(b) => {
                if b != requirement_is_bugged(parts, requirements, grid, r) {
                    return false;
                }
            },
            None => {},
        }
        r += 1;
    }
    true
}

/// Decides `bugged_in` for requirement `r`.
fn requirement_is_bugged(parts: &[Part], requirements: &[Requirement], grid: &Grid, r: usize) -> (b: bool)
    requires
        grid.wf(),
        crate::parts::inputs_wf(parts@, requirements@),
        placed_below(grid.cells@, requirements@.len() as int),
        r < requirements@.len(),
    ensures
        b == bugged_in(grid.cells@, grid.spec_settings(), parts@, requirements@, r),
{
    let h = grid.height;
    let w = grid.width;
    let n = grid.cells.len();
    let ghost cells = grid.cells@;
    let color = parts[requirements[r].part_index].color;
    let mut edge = false;
    let mut on_line = false;
    let mut touching = false;
    let mut k: usize = 0;
    while k < n
        invariant
            grid.wf(),
            crate::parts::inputs_wf(parts@, requirements@),
            placed_below(grid.cells@, requirements@.len() as int),
            r < requirements@.len(),
            color == color_of(parts@, requirements@, r as int),
            cells == grid.cells@,
            n == cells.len(),
            h == grid.height,
            w == grid.width,
            k <= n,
            edge == exists|k2: int| 0 <= k2 < k && #[trigger] edge_at(cells, h as int, w as int, r, k2),
            on_line == exists|k2: int| 0 <= k2 < k && #[trigger] row_at(cells, w as int, grid.command_line_row as int, r, k2),
            touching == exists|k2: int| 0 <= k2 < k && #[trigger] touch_at(grid.cells@, grid.spec_settings(), parts@, requirements@, r, k2),
        decreases n - k,
    {
        proof {
            crate::arith::lemma_split_index(k as int, h as int, w as int);
        }
        let y = k / w;
        let x = k % w;
        let mine = grid.cells[k] == Cell::Placed(r);
        let hit_edge = mine && (x == 0 || x == w - 1 || y == h - 1);
        let hit_line = mine && y == grid.command_line_row;
        let mut hit_touch = false;
        if mine {
            if x > 0 && same_color(parts, requirements, grid, r, color, k - 1) {
                hit_touch = true;
            }
            if x + 1 < w {
                proof {
                    crate::arith::lemma_index_in_bounds(y as int, x + 1, h as int, w as int);
                }
                if same_color(parts, requirements, grid, r, color, k + 1) {
                    hit_touch = true;
                }
            }
            if y > 0 {
                proof {
                    assert(k >= w) by (nonlinear_arith)
                        requires
                            k == y * w + x,
                            y > 0,
                            x >= 0,
                    ;
                }
                if same_color(parts, requirements, grid, r, color, k - w) {
                    hit_touch = true;
                }
            }
            if y + 1 < h {
                proof {
                    crate::arith::lemma_index_in_bounds(y + 1, x as int, h as int, w as int);
                    assert((y + 1) * w + x == k + w) by (nonlinear_arith)
                        requires
                            k == y * w + x,
                    ;
                }
                if same_color(parts, requirements, grid, r, color, k + w) {
                    hit_touch = true;
                }
            }
        }
        assert(hit_edge == edge_at(cells, h as int, w as int, r, k as int));
        assert(hit_line == row_at(cells, w as int, grid.command_line_row as int, r, k as int));
        assert(hit_touch == touch_at(grid.cells@, grid.spec_settings(), parts@, requirements@, r, k as int));
        edge = edge || hit_edge;
        on_line = on_line || hit_line;
        touching = touching || hit_touch;
        k += 1;
    }
    let ghost gs = grid.spec_settings();
    assert(gs.height == h && gs.width == w && gs.command_line_row == grid.command_line_row);
    assert(on_line == command_line_has(cells, gs, r)) by {
        if command_line_has(cells, gs, r) {
            let k2 = choose|k2: int| 0 <= k2 < cells.len() && #[trigger] row_at(cells, gs.width as int, gs.command_line_row as int, r, k2);
            assert(row_at(cells, w as int, grid.command_line_row as int, r, k2));
        }
    }
    let out_of_bounds = grid.has_oob && edge;
    let solid = parts[requirements[r].part_index].is_solid;
    out_of_bounds || solid == !on_line || touching
}

/// Decides `same_color_at` for cell `n`.
fn same_color(parts: &[Part], requirements: &[Requirement], grid: &Grid, r: usize, color: usize, n: usize) -> (b: bool)
    requires
        grid.wf(),
        crate::parts::inputs_wf(parts@, requirements@),
        placed_below(grid.cells@, requirements@.len() as int),
        r < requirements@.len(),
        color == color_of(parts@, requirements@, r as int),
        n < grid.cells@.len(),
    ensures
        b == same_color_at(grid.cells@, grid.spec_settings(), parts@, requirements@, r, n as int),
{
    match grid.cells[n] {
        Cell::Placed(r2) => {
            assert(grid.cells@[n as int] matches Cell::Placed(r3) ==> r3 < requirements@.len());
            r2 != r && parts[requirements[r2].part_index].color == color
        },
        _ => false,
    }
}

/// The number of set cells.
pub open spec fn count_true(s: Seq<bool>) -> nat
    decreases s.len(),
{
    if s.len() == 0 {
        0
    } else {
        count_true(s.drop_last()) + if s.last() {
            1nat
        } else {
            0nat
        }
    }
}

/// The cells that requirement `r` occupies: those of the uncompressed mask
/// when it must not be compressed, else those of the compressed mask.
pub open spec fn cells_of(parts: Seq<Part>, requirements: Seq<Requirement>, r: int) -> nat {
    let part = parts[requirements[r].part_index as int];
    if requirements[r].constraint.compressed == Some(false) {
        count_true(part.uncompressed_mask.cells@)
    } else {
        count_true(part.compressed_mask.cells@)
    }
}

/// The cells that the first `n` requirements occupy together.
pub open spec fn cells_needed(parts: Seq<Part>, requirements: Seq<Requirement>, n: int) -> nat
    decreases n,
{
    if n <= 0 {
        0
    } else {
        cells_needed(parts, requirements, n - 1) + cells_of(parts, requirements, n - 1)
    }
}

/// The number of the first `n` requirements that must touch the command line.
pub open spec fn on_line_count(requirements: Seq<Requirement>, n: int) -> nat
    decreases n,
{
    if n <= 0 {
        0
    } else {
        on_line_count(requirements, n - 1) + if requirements[n - 1].constraint.on_command_line == Some(true) {
            1nat
        } else {
            0nat
        }
    }
}

/// The cells free for parts: all of them but the forbidden corners.
pub open spec fn capacity(s: GridSettings) -> int {
    s.width * s.height - if s.has_oob {
        4int
    } else {
        0int
    }
}

/// The cheap necessary conditions for a solution: no more requirements on
/// the command line than it has cells, and no more cells needed than free.
pub open spec fn requirements_ok(parts: Seq<Part>, requirements: Seq<Requirement>, s: GridSettings) -> bool {
    &&& on_line_count(requirements, requirements.len() as int) <= s.width
    &&& cells_needed(parts, requirements, requirements.len() as int) <= capacity(s)
}

/// The number of set cells of `cells`.
pub fn count_set(cells: &Vec<bool>) -> (r: usize)
    ensures
        r == count_true(cells@),
{
    let mut count: usize = 0;
    let mut k: usize = 0;
    while k < cells.len()
        invariant
            k <= cells@.len(),
            count == count_true(cells@.take(k as int)),
            count <= k,
        decreases cells@.len() - k,
    {
        assert(cells@.take(k + 1).drop_last() =~= cells@.take(k as int));
        if cells[k] {
            count += 1;
        }
        k += 1;
    }
    assert(cells@.take(cells@.len() as int) =~= cells@);
    count
}

/// Decides `requirements_ok`.
pub fn requirements_are_admissible(parts: &[Part], requirements: &[Requirement], grid_settings: GridSettings) -> (r: bool)
    requires
        crate::parts::inputs_wf(parts@, requirements@),
        grid_settings.height * grid_settings.width <= usize::MAX,
    ensures
        r == requirements_ok(parts@, requirements@, grid_settings),
{
    let n = requirements.len();
    let mut on_line: usize = 0;
    let mut total: u128 = 0;
    let mut k: usize = 0;
    while k < n
        invariant
            crate::parts::inputs_wf(parts@, requirements@),
            n == requirements@.len(),
            k <= n,
            on_line == on_line_count(requirements@, k as int),
            on_line <= k,
            total == cells_needed(parts@, requirements@, k as int),
            total <= k * (usize::MAX as int),
        decreases n - k,
    {
        let req = &requirements[k];
        if req.constraint.on_command_line == Some(true) {
            on_line += 1;
        }
        let part = &parts[req.part_index];
        let c = if req.constraint.compressed == Some(false) {
            count_set(&part.uncompressed_mask.cells)
        } else {
            count_set(&part.compressed_mask.cells)
        };
        proof {
            assert((k + 1) * (usize::MAX as int) == k * (usize::MAX as int) + usize::MAX) by (nonlinear_arith);
            assert(k * (usize::MAX as int) + usize::MAX < u128::MAX) by (nonlinear_arith)
                requires
                    k < usize::MAX,
            ;
        }
        total = total + c as u128;
        k += 1;
    }
    if on_line > grid_settings.width {
        return false;
    }
    proof {
        assert(grid_settings.width * grid_settings.height == grid_settings.height * grid_settings.width) by (nonlinear_arith);
    }
    let all = grid_settings.height * grid_settings.width;
    if grid_settings.has_oob {
        if all < 4 {
            return false;
        }
        total <= (all - 4) as u128
    } else {
        total <= all as u128
    }
}

} // verus!
