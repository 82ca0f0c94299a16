//! The backtracking search, the replay of placements, and input checks.

use crate::admissible::{
    border_at, border_has, command_line_has, interior_at, interior_has, row_at,
    placed_below, placement_is_admissible, placement_ok, requirements_are_admissible, requirements_ok,
    solution_is_admissible, solution_ok,
};
use crate::candidates::{candidates_for_part, candidates_shaped, candidates_spec, candidates_wf, settings_fit, stamp_shape_of};
use crate::grid::{empty_cells, fits, in_region, stamp_cell, stamped, Cell, Grid, GridSettings, Location, Position};
use crate::arith::{lemma_index_in_bounds, lemma_join_index, lemma_split_index};
use crate::mask::{rotated, Shape};
use crate::parts::{inputs_wf, Candidate, Part, Placement, Requirement, Solution};
use vstd::prelude::*;

verus! {

/// The shape that placement `p` of requirement `r` stamps: the chosen mask
/// of the requirement's part, turned.
pub open spec fn placed_shape(parts: Seq<Part>, requirements: Seq<Requirement>, p: Placement, r: int) -> Shape {
    let part = parts[requirements[r].part_index as int];
    rotated(
        if p.compressed {
            part.compressed_mask@
        } else {
            part.uncompressed_mask@
        },
        p.loc.rotation as nat,
    )
}

/// The cells after the first `n` placements are stamped in order onto an
/// empty grid, placement `i` for requirement `i`; `None` once one fails.
pub open spec fn replay(
    parts: Seq<Part>,
    requirements: Seq<Requirement>,
    placements: Seq<Placement>,
    s: GridSettings,
    n: int,
) -> Option<Seq<Cell>>
    decreases n,
{
    if n <= 0 {
        Some(empty_cells(s))
    } else {
        match replay(parts, requirements, placements, s, n - 1) {
            None => None,
            Some(cells) => {
                let p = placements[n - 1];
                let m = placed_shape(parts, requirements, p, n - 1);
                let x = p.loc.position.x as int;
                let y = p.loc.position.y as int;
                if fits(cells, s.height as int, s.width as int, m, x, y) {
                    Some(stamped(cells, s.width as int, m, x, y, (n - 1) as usize))
                } else {
                    None
                }
            },
        }
    }
}

/// The cells after every placement is stamped, or `None`.
pub open spec fn placed_all(
    parts: Seq<Part>,
    requirements: Seq<Requirement>,
    placements: Seq<Placement>,
    s: GridSettings,
) -> Option<Seq<Cell>> {
    replay(parts, requirements, placements, s, placements.len() as int)
}

/// The requirement that fills a cell, if any.
pub open spec fn cell_owner(c: Cell) -> Option<usize> {
    match c {
        Cell::Placed(r) => Some(r),
        _ => None,
    }
}

pub open spec fn owners(cells: Seq<Cell>) -> Seq<Option<usize>> {
    cells.map_values(|c: Cell| cell_owner(c))
}

/// The part that fills a cell, if any.
pub open spec fn cell_part(requirements: Seq<Requirement>, c: Cell) -> Option<usize> {
    match c {
        Cell::Placed(r) => Some(requirements[r as int].part_index),
        _ => None,
    }
}

/// The grid seen by parts rather than by requirements.
pub open spec fn part_topology(requirements: Seq<Requirement>, cells: Seq<Cell>) -> Seq<Option<usize>> {
    cells.map_values(|c: Cell| cell_part(requirements, c))
}

/// Stamping for requirement `idx` keeps every placed cell below `n`.
proof fn lemma_stamped_below(cells: Seq<Cell>, width: int, m: Shape, px: int, py: int, idx: usize, n: int)
    requires
        placed_below(cells, n),
        idx < n,
    ensures
        placed_below(stamped(cells, width, m, px, py, idx), n),
{
    let t = stamped(cells, width, m, px, py, idx);
    assert forall|k: int| 0 <= k < t.len() implies (#[trigger] t[k] matches Cell::Placed(r) ==> r < n) by {
        assert(t[k] == stamp_cell(cells[k], m, px, py, k / width, k % width, idx));
    }
}

/// Whether placement `i` stamps a set cell of its shape on cell `k` of a
/// grid with settings `s`.
pub open spec fn covers(
    parts: Seq<Part>,
    requirements: Seq<Requirement>,
    placements: Seq<Placement>,
    s: GridSettings,
    i: int,
    k: int,
) -> bool {
    let p = placements[i];
    let m = placed_shape(parts, requirements, p, i);
    let y = k / (s.width as int) - p.loc.position.y as int;
    let x = k % (s.width as int) - p.loc.position.x as int;
    0 <= y < m.height && 0 <= x < m.width && m.at(y, x)
}

/// After the first `n` placements replay, a cell is placed by requirement
/// `i` exactly when placement `i` is among them and stamps a set cell on it;
/// the grid keeps its size.
pub proof fn lemma_replay_owners(
    parts: Seq<Part>,
    requirements: Seq<Requirement>,
    placements: Seq<Placement>,
    s: GridSettings,
    n: int,
)
    requires
        inputs_wf(parts, requirements),
        placements.len() <= requirements.len(),
        placements.len() <= usize::MAX,
        0 <= n <= placements.len(),
        replay(parts, requirements, placements, s, n) is Some,
    ensures
        ({
            let cells = replay(parts, requirements, placements, s, n).unwrap();
            &&& cells.len() == s.height * s.width
            &&& placed_below(cells, n)
            &&& forall|k: int, i: int|
                0 <= k < cells.len() && 0 <= i < n ==> (cells[k] == Cell::Placed(i as usize) <==> #[trigger] covers(
                    parts,
                    requirements,
                    placements,
                    s,
                    i,
                    k,
                ))
        }),
    decreases n,
{
    if n > 0 {
        lemma_replay_owners(parts, requirements, placements, s, n - 1);
        let c0 = replay(parts, requirements, placements, s, n - 1).unwrap();
        let cells = replay(parts, requirements, placements, s, n).unwrap();
        let p = placements[n - 1];
        let m = placed_shape(parts, requirements, p, n - 1);
        let px = p.loc.position.x as int;
        let py = p.loc.position.y as int;
        let h = s.height as int;
        let w = s.width as int;
        let part = parts[requirements[n - 1].part_index as int];
        assert(part.wf());
        crate::mask::lemma_rotated_mod(part.compressed_mask@, p.loc.rotation as nat);
        crate::mask::lemma_rotated_mod(part.uncompressed_mask@, p.loc.rotation as nat);
        assert(m.wf());
        assert(fits(c0, h, w, m, px, py));
        assert(cells == stamped(c0, w, m, px, py, (n - 1) as usize));
        assert forall|k: int| 0 <= k < cells.len() && covers(parts, requirements, placements, s, n - 1, k) implies c0[k] == Cell::Empty by {
            lemma_split_index(k, h, w);
            let y = k / w - py;
            let x = k % w - px;
            let j = y * (m.width as int) + x;
            lemma_index_in_bounds(y, x, m.height as int, m.width as int);
            lemma_join_index(y, x, m.width as int);
            assert(m.cells[j]);
            assert((y + py) * w + (x + px) == k);
        }
        assert forall|k: int, i: int| 0 <= k < cells.len() && 0 <= i < n implies (cells[k] == Cell::Placed(i as usize) <==> #[trigger] covers(
            parts,
            requirements,
            placements,
            s,
            i,
            k,
        )) by {
            assert(cells[k] == stamp_cell(c0[k], m, px, py, k / w, k % w, (n - 1) as usize));
            if i < n - 1 {
                assert(c0[k] == Cell::Placed(i as usize) <==> covers(parts, requirements, placements, s, i, k));
                assert((n - 1) as usize != i as usize);
                if covers(parts, requirements, placements, s, n - 1, k) {
                    assert(c0[k] == Cell::Empty);
                }
            } else {
                assert(!(c0[k] matches Cell::Placed(r) && r == n - 1));
            }
        }
        lemma_stamped_below(c0, w, m, px, py, (n - 1) as usize, n);
    } else {
        assert(s.height * s.width >= 0) by (nonlinear_arith);
    }
}

/// The owners that a replay reports match the placements: a cell names
/// requirement `i` exactly when placement `i` stamps a set cell on it.
pub proof fn lemma_place_all_owners(
    parts: Seq<Part>,
    requirements: Seq<Requirement>,
    placements: Seq<Placement>,
    s: GridSettings,
)
    requires
        inputs_wf(parts, requirements),
        placements.len() <= requirements.len(),
        placements.len() <= usize::MAX,
        placed_all(parts, requirements, placements, s) is Some,
    ensures
        ({
            let o = owners(placed_all(parts, requirements, placements, s).unwrap());
            &&& o.len() == s.height * s.width
            &&& forall|k: int, i: int|
                0 <= k < o.len() && 0 <= i < placements.len() ==> (o[k] == Some(i as usize) <==> #[trigger] covers(
                    parts,
                    requirements,
                    placements,
                    s,
                    i,
                    k,
                ))
            &&& forall|k: int| 0 <= k < o.len() ==> (#[trigger] o[k] matches Some(i) ==> i < placements.len())
        }),
{
    lemma_replay_owners(parts, requirements, placements, s, placements.len() as int);
    let cells = placed_all(parts, requirements, placements, s).unwrap();
    let o = owners(cells);
    assert forall|k: int, i: int| 0 <= k < o.len() && 0 <= i < placements.len() implies (o[k] == Some(i as usize) <==> #[trigger] covers(
        parts,
        requirements,
        placements,
        s,
        i,
        k,
    )) by {
        assert(o[k] == cell_owner(cells[k]));
        assert(cells[k] == Cell::Placed(i as usize) <==> covers(parts, requirements, placements, s, i, k));
    }
    assert forall|k: int| 0 <= k < o.len() implies (#[trigger] o[k] matches Some(i) ==> i < placements.len()) by {
        assert(o[k] == cell_owner(cells[k]));
    }
}

/// Replaying the first `n` placements of `sol` in input order succeeds and
/// gives a grid that holds exactly their footprints.
proof fn lemma_replay_matches(
    parts: Seq<Part>,
    requirements: Seq<Requirement>,
    sol: Seq<Placement>,
    s: GridSettings,
    ident: Seq<usize>,
    n: int,
)
    requires
        inputs_wf(parts, requirements),
        sol.len() == requirements.len(),
        requirements.len() <= usize::MAX,
        sol_fits(parts, requirements, sol, s),
        forall|i: int| 0 <= i < sol.len() ==> #[trigger] placed_shape(parts, requirements, sol[i], i) == search_shape(parts, requirements, sol[i], i),
        ident == Seq::new(requirements.len(), |i: int| i as usize),
        0 <= n <= sol.len(),
    ensures
        replay(parts, requirements, sol, s, n) is Some,
        grid_matches(parts, requirements, ident, s, n, replay(parts, requirements, sol, s, n).unwrap(), sol),
        placed_fit(parts, requirements, ident, s, n, sol),
    decreases n,
{
    let h = s.height as int;
    let w = s.width as int;
    if n == 0 {
        let e = empty_cells(s);
        assert forall|k: int| 0 <= k < e.len() implies !(#[trigger] e[k] is Placed) by {}
    } else {
        lemma_replay_matches(parts, requirements, sol, s, ident, n - 1);
        let c0 = replay(parts, requirements, sol, s, n - 1).unwrap();
        let p = sol[n - 1];
        let m = placed_shape(parts, requirements, p, n - 1);
        assert(m == search_shape(parts, requirements, p, n - 1));
        let px = p.loc.position.x as int;
        let py = p.loc.position.y as int;
        let part = parts[requirements[n - 1].part_index as int];
        assert(part.wf());
        crate::mask::lemma_rotated_mod(part.compressed_mask@, p.loc.rotation as nat);
        crate::mask::lemma_rotated_mod(part.uncompressed_mask@, p.loc.rotation as nat);
        assert(m.wf());
        assert(fits_fresh(parts, requirements, sol, s, n - 1));
        let e = empty_cells(s);
        assert(h * w >= 0) by (nonlinear_arith)
            requires
                h >= 0,
                w >= 0,
        ;
        assert forall|jj: int| 0 <= jj < m.cells.len() && #[trigger] m.cells[jj] implies {
            let my = jj / (m.width as int);
            let mx = jj % (m.width as int);
            in_region(h, py, my) && in_region(w, px, mx) && c0[(my + py) * w + (mx + px)] == Cell::Empty
        } by {
            let my = jj / (m.width as int);
            let mx = jj % (m.width as int);
            let k = (my + py) * w + (mx + px);
            assert(in_region(h, py, my) && in_region(w, px, mx) && e[k] == Cell::Empty);
            lemma_index_in_bounds(my + py, mx + px, h, w);
            lemma_split_index(jj, m.height as int, m.width as int);
            lemma_join_index(my + py, mx + px, w);
            assert(footprint(parts, requirements, sol, s, n - 1, k));
            if c0[k] is Placed {
                let r = c0[k]->Placed_0;
                let j = choose|j: int| 0 <= j < n - 1 && ident[j] == r;
                assert(footprint(parts, requirements, sol, s, r as int, k));
            }
        }
        assert(fits(c0, h, w, m, px, py));
        assert forall|a: int, b: int| 0 <= a < b < ident.len() implies #[trigger] ident[a] != #[trigger] ident[b] by {}
        lemma_descend(parts, requirements, ident, s, n - 1, c0, sol, p, m);
        assert(sol.update(n - 1, p) =~= sol);
        assert(ident[n - 1] == (n - 1) as usize);
    }
}

/// When each placement's chosen mask is the mask the search stamped (so
/// unless compression is forced off for a part whose two masks differ),
/// replaying a solution's placements in input order succeeds, and the grid
/// it gives is the solution's layout: a cell names requirement `i` exactly
/// when placement `i` covers it.
pub proof fn lemma_replays_as_searched(
    parts: Seq<Part>,
    requirements: Seq<Requirement>,
    sol: Seq<Placement>,
    s: GridSettings,
)
    requires
        inputs_wf(parts, requirements),
        sol.len() == requirements.len(),
        requirements.len() <= usize::MAX,
        sol_fits(parts, requirements, sol, s),
        forall|i: int| 0 <= i < sol.len() ==> #[trigger] placed_shape(parts, requirements, sol[i], i) == search_shape(parts, requirements, sol[i], i),
    ensures
        placed_all(parts, requirements, sol, s) == Some(layout(parts, requirements, sol, s)),
{
    let ident = Seq::new(requirements.len(), |i: int| i as usize);
    lemma_replay_matches(parts, requirements, sol, s, ident, sol.len() as int);
    assert forall|i: usize| i < requirements.len() implies ident.contains(i) by {
        assert(ident[i as int] == i);
    }
    lemma_leaf_layout(parts, requirements, ident, s, replay(parts, requirements, sol, s, sol.len() as int).unwrap(), sol);
}

/// Stamps each placement in order onto an empty grid.
fn replay_grid(parts: &[Part], requirements: &[Requirement], placements: &[Placement], grid_settings: GridSettings) -> (r: Option<Grid>)
    requires
        inputs_wf(parts@, requirements@),
        placements@.len() <= requirements@.len(),
        grid_settings.height * grid_settings.width <= usize::MAX,
    ensures
        r is None <==> placed_all(parts@, requirements@, placements@, grid_settings) is None,
        r matches Some(g) ==> {
            &&& g.wf()
            &&& g.spec_settings() == grid_settings
            &&& placed_all(parts@, requirements@, placements@, grid_settings) == Some(g.cells@)
            &&& placed_below(g.cells@, requirements@.len() as int)
        },
{
    let mut grid = Grid::new(grid_settings);
    let n = placements.len();
    let mut i: usize = 0;
    while i < n
        invariant
            inputs_wf(parts@, requirements@),
            n == placements@.len(),
            n <= requirements@.len(),
            i <= n,
            grid.wf(),
            grid.spec_settings() == grid_settings,
            replay(parts@, requirements@, placements@, grid_settings, i as int) == Some(grid.cells@),
            placed_below(grid.cells@, i as int),
        decreases n - i,
    {
        let p = placements[i];
        let part = &parts[requirements[i].part_index];
        assert(part.wf());
        let mask = if p.compressed {
            part.compressed_mask.rotate(p.loc.rotation)
        } else {
            part.uncompressed_mask.rotate(p.loc.rotation)
        };
        match grid.place(&mask, p.loc.position, i) {
            Some(next) => {
                proof {
                    lemma_stamped_below(
                        grid.cells@,
                        grid.width as int,
                        mask@,
                        p.loc.position.x as int,
                        p.loc.position.y as int,
                        i,
                        i + 1,
                    );
                }
                grid = next;
            },
            None => {
                proof {
                    replay_stays_none(parts@, requirements@, placements@, grid_settings, i + 1, n as int);
                }
                return None;
            },
        }
        i += 1;
    }
    assert(placed_below(grid.cells@, requirements@.len() as int));
    Some(grid)
}

proof fn replay_stays_none(
    parts: Seq<Part>,
    requirements: Seq<Requirement>,
    placements: Seq<Placement>,
    s: GridSettings,
    i: int,
    n: int,
)
    requires
        0 < i <= n,
        replay(parts, requirements, placements, s, i) is None,
    ensures
        replay(parts, requirements, placements, s, n) is None,
    decreases n - i,
{
    if i < n {
        replay_stays_none(parts, requirements, placements, s, i + 1, n);
    }
}

/// Replays `placements` onto an empty grid, placement `i` for requirement
/// `i` in its chosen and turned mask. Returns, for each cell in row-major
/// order, the requirement that fills it, or `None` when a placement fails.
pub fn place_all(
    parts: &[Part],
    requirements: &[Requirement],
    placements: &[Placement],
    grid_settings: GridSettings,
) -> (r: Option<Vec<Option<usize>>>)
    requires
        inputs_wf(parts@, requirements@),
        placements@.len() <= requirements@.len(),
        grid_settings.height * grid_settings.width <= usize::MAX,
    ensures
        r is None <==> placed_all(parts@, requirements@, placements@, grid_settings) is None,
        r matches Some(v) ==> v@ == owners(placed_all(parts@, requirements@, placements@, grid_settings).unwrap()),
{
    match replay_grid(parts, requirements, placements, grid_settings) {
        None => None,
        Some(grid) => {
            let mut out: Vec<Option<usize>> = Vec::new();
            let mut k: usize = 0;
            while k < grid.cells.len()
                invariant
                    k <= grid.cells@.len(),
                    out@ == owners(grid.cells@).take(k as int),
                decreases grid.cells@.len() - k,
            {
                let v = match grid.cells[k] {
                    Cell::Placed(r) => Some(r),
                    _ => None,
                };
                out.push(v);
                k += 1;
                assert(out@ =~= owners(grid.cells@).take(k as int));
            }
            assert(out@ =~= owners(grid.cells@));
            Some(out)
        },
    }
}

/// The grid seen by parts: each cell holds the part index of the
/// requirement that fills it.
fn topology(grid: &Grid, requirements: &[Requirement]) -> (r: Vec<Option<usize>>)
    requires
        placed_below(grid.cells@, requirements@.len() as int),
    ensures
        r@ == part_topology(requirements@, grid.cells@),
{
    let mut out: Vec<Option<usize>> = Vec::new();
    let mut k: usize = 0;
    while k < grid.cells.len()
        invariant
            placed_below(grid.cells@, requirements@.len() as int),
            k <= grid.cells@.len(),
            out@ == part_topology(requirements@, grid.cells@).take(k as int),
        decreases grid.cells@.len() - k,
    {
        let v = match grid.cells[k] {
            Cell::Placed(r) => {
                assert(grid.cells@[k as int] matches Cell::Placed(r2) ==> r2 < requirements@.len());
                Some(requirements[r].part_index)
            },
            _ => None,
        };
        out.push(v);
        k += 1;
        assert(out@ =~= part_topology(requirements@, grid.cells@).take(k as int));
    }
    assert(out@ =~= part_topology(requirements@, grid.cells@));
    out
}

/// Whether two topologies are equal.
fn same_topology(a: &Vec<Option<usize>>, b: &Vec<Option<usize>>) -> (r: bool)
    ensures
        r == (a@ == b@),
{
    if a.len() != b.len() {
        return false;
    }
    let mut k: usize = 0;
    while k < a.len()
        invariant
            a@.len() == b@.len(),
            k <= a@.len(),
            forall|k2: int| 0 <= k2 < k ==> a@[k2] == b@[k2],
        decreases a@.len() - k,
    {
        let equal = match (a[k], b[k]) {
            (Some(x), Some(y)) => x == y,
            (None, None) => true,
            _ => false,
        };
        if !equal {
            return false;
        }
        k += 1;
    }
    assert(a@ =~= b@);
    true
}

/// Whether `t` is one of `seen`.
fn seen_before(seen: &Vec<Vec<Option<usize>>>, t: &Vec<Option<usize>>) -> (r: bool)
    ensures
        r == exists|i: int| 0 <= i < seen@.len() && (#[trigger] seen@[i])@ == t@,
{
    let mut i: usize = 0;
    while i < seen.len()
        invariant
            i <= seen@.len(),
            forall|i2: int| 0 <= i2 < i ==> (#[trigger] seen@[i2])@ != t@,
        decreases seen@.len() - i,
    {
        if same_topology(&seen[i], t) {
            return true;
        }
        i += 1;
    }
    false
}

/// A copy of a list of placements.
fn copy_placements(v: &Vec<Placement>) -> (r: Vec<Placement>)
    ensures
        r@ == v@,
{
    let mut out: Vec<Placement> = Vec::new();
    let mut k: usize = 0;
    while k < v.len()
        invariant
            k <= v@.len(),
            out@ == v@.take(k as int),
        decreases v@.len() - k,
    {
        out.push(v[k]);
        k += 1;
        assert(out@ =~= v@.take(k as int));
    }
    assert(out@ =~= v@);
    out
}

/// What the depth-first search finds from candidate `c` of depth `depth` on,
/// with the grid's `cells`, the arrangements of parts met so far in
/// `visited`, and the placements chosen on the way in `current`; also the
/// arrangements met once it is done. Depth `d` tries the candidates of
/// requirement `order[d]`. A candidate is followed when it fits, passes the
/// per-placement check and gives an arrangement of parts not met before,
/// which is then met. Past the last depth the placements are found when the
/// complete arrangement passes the whole-solution check.
pub open spec fn search_from(
    parts: Seq<Part>,
    requirements: Seq<Requirement>,
    lists: Seq<Seq<(Placement, Shape)>>,
    order: Seq<usize>,
    s: GridSettings,
    depth: int,
    c: int,
    cells: Seq<Cell>,
    visited: Seq<Seq<Option<usize>>>,
    current: Seq<Placement>,
) -> (Seq<Seq<Placement>>, Seq<Seq<Option<usize>>>)
    decreases order.len() - depth, lists[order[depth] as int].len() - c,
{
    if depth >= order.len() {
        if solution_ok(cells, s, parts, requirements) {
            (seq![current], visited)
        } else {
            (Seq::empty(), visited)
        }
    } else if c < 0 || c >= lists[order[depth] as int].len() {
        (Seq::empty(), visited)
    } else {
        let r = order[depth];
        let (pl, m) = lists[r as int][c];
        let x = pl.loc.position.x as int;
        let y = pl.loc.position.y as int;
        let req = requirements[r as int];
        let part = parts[req.part_index as int];
        let next = stamped(cells, s.width as int, m, x, y, r);
        let topo = part_topology(requirements, next);
        let tried = if fits(cells, s.height as int, s.width as int, m, x, y) && placement_ok(
            next,
            s,
            part.is_solid,
            r,
            req.constraint.on_command_line,
            req.constraint.bugged,
        ) && !visited.contains(topo) {
            search_from(
                parts,
                requirements,
                lists,
                order,
                s,
                depth + 1,
                0,
                next,
                visited.push(topo),
                current.update(r as int, pl),
            )
        } else {
            (Seq::empty(), visited)
        };
        let rest = search_from(parts, requirements, lists, order, s, depth, c + 1, cells, tried.1, current);
        (tried.0 + rest.0, rest.1)
    }
}

pub open spec fn placements_view(v: Seq<Vec<Placement>>) -> Seq<Seq<Placement>> {
    v.map_values(|x: Vec<Placement>| x@)
}

pub open spec fn topologies_view(v: Seq<Vec<Option<usize>>>) -> Seq<Seq<Option<usize>>> {
    v.map_values(|x: Vec<Option<usize>>| x@)
}

pub open spec fn lists_view(v: Seq<Vec<Candidate>>) -> Seq<Seq<(Placement, Shape)>> {
    v.map_values(|x: Vec<Candidate>| crate::candidates::candidates_view(x@))
}

/// The shape that the search stamps for placement `p` of requirement `r`.
pub open spec fn search_shape(parts: Seq<Part>, requirements: Seq<Requirement>, p: Placement, r: int) -> Shape {
    stamp_shape_of(parts[requirements[r].part_index as int], requirements[r].constraint, p)
}

/// Whether placement `i` of `sol` stamps a set cell of its searched shape
/// on cell `k` of a grid with settings `s`.
pub open spec fn footprint(
    parts: Seq<Part>,
    requirements: Seq<Requirement>,
    sol: Seq<Placement>,
    s: GridSettings,
    i: int,
    k: int,
) -> bool {
    let p = sol[i];
    let m = search_shape(parts, requirements, p, i);
    let y = k / (s.width as int) - p.loc.position.y as int;
    let x = k % (s.width as int) - p.loc.position.x as int;
    0 <= y < m.height && 0 <= x < m.width && m.at(y, x)
}

/// The grid that a solution describes: each cell under a footprint is
/// placed by that footprint's requirement, every other cell is as on a
/// fresh grid.
pub open spec fn layout(parts: Seq<Part>, requirements: Seq<Requirement>, sol: Seq<Placement>, s: GridSettings) -> Seq<Cell> {
    let e = empty_cells(s);
    Seq::new(
        e.len(),
        |k: int|
            if exists|i: int| 0 <= i < sol.len() && #[trigger] footprint(parts, requirements, sol, s, i, k) {
                Cell::Placed((choose|i: int| 0 <= i < sol.len() && #[trigger] footprint(parts, requirements, sol, s, i, k)) as usize)
            } else {
                e[k]
            },
    )
}

/// The arrangement of parts that a solution describes.
pub open spec fn layout_topology(parts: Seq<Part>, requirements: Seq<Requirement>, sol: Seq<Placement>, s: GridSettings) -> Seq<Option<usize>> {
    part_topology(requirements, layout(parts, requirements, sol, s))
}

/// Whether `cells` holds exactly the footprints of the requirements
/// `order[0 .. depth]`, placed as `current` says, on a fresh grid.
pub open spec fn grid_matches(
    parts: Seq<Part>,
    requirements: Seq<Requirement>,
    order: Seq<usize>,
    s: GridSettings,
    depth: int,
    cells: Seq<Cell>,
    current: Seq<Placement>,
) -> bool {
    &&& cells.len() == empty_cells(s).len()
    &&& forall|k: int|
        0 <= k < cells.len() && (#[trigger] cells[k] is Placed) ==> (exists|j: int| 0 <= j < depth && order[j] == cells[k]->Placed_0)
            && footprint(parts, requirements, current, s, cells[k]->Placed_0 as int, k)
    &&& forall|j: int, k: int|
        0 <= j < depth && 0 <= k < cells.len() && #[trigger] footprint(parts, requirements, current, s, order[j] as int, k)
            ==> cells[k] == Cell::Placed(order[j])
    &&& forall|k: int| 0 <= k < cells.len() && !(#[trigger] cells[k] is Placed) ==> cells[k] == empty_cells(s)[k]
}

/// Each of the requirements `order[0 .. depth]` has a placement in
/// `current` whose searched shape fits a fresh grid.
pub open spec fn placed_fit(
    parts: Seq<Part>,
    requirements: Seq<Requirement>,
    order: Seq<usize>,
    s: GridSettings,
    depth: int,
    current: Seq<Placement>,
) -> bool {
    forall|j: int| 0 <= j < depth ==> #[trigger] fits_fresh(parts, requirements, current, s, order[j] as int)
}

/// Whether placement `i` of `sol`, in its searched shape, fits a fresh grid.
pub open spec fn fits_fresh(parts: Seq<Part>, requirements: Seq<Requirement>, sol: Seq<Placement>, s: GridSettings, i: int) -> bool {
    fits(
        empty_cells(s),
        s.height as int,
        s.width as int,
        search_shape(parts, requirements, sol[i], i),
        sol[i].loc.position.x as int,
        sol[i].loc.position.y as int,
    )
}

/// Every placement of `sol` fits a fresh grid and no two footprints share a
/// cell.
pub open spec fn sol_fits(parts: Seq<Part>, requirements: Seq<Requirement>, sol: Seq<Placement>, s: GridSettings) -> bool {
    &&& forall|i: int| 0 <= i < sol.len() ==> #[trigger] fits_fresh(parts, requirements, sol, s, i)
    &&& forall|i: int, j: int, k: int|
        0 <= i < sol.len() && 0 <= j < sol.len() && i != j && 0 <= k < empty_cells(s).len() && #[trigger] footprint(parts, requirements, sol, s, i, k)
            ==> !#[trigger] footprint(parts, requirements, sol, s, j, k)
}

/// The placements chosen for `order[0 .. depth]` are candidates of their
/// requirements and pass the per-placement check on `cells`.
pub open spec fn placed_ok(
    parts: Seq<Part>,
    requirements: Seq<Requirement>,
    lists: Seq<Seq<(Placement, Shape)>>,
    order: Seq<usize>,
    s: GridSettings,
    depth: int,
    cells: Seq<Cell>,
    current: Seq<Placement>,
) -> bool {
    forall|j: int| 0 <= j < depth ==> #[trigger] searched_ok(parts, requirements, lists, s, cells, current, order[j] as int)
}

/// Placement `r` of `sol` is a candidate of requirement `r`, in the shape
/// the search stamps, and passes the per-placement check on `cells`.
pub open spec fn searched_ok(
    parts: Seq<Part>,
    requirements: Seq<Requirement>,
    lists: Seq<Seq<(Placement, Shape)>>,
    s: GridSettings,
    cells: Seq<Cell>,
    sol: Seq<Placement>,
    r: int,
) -> bool {
    let req = requirements[r];
    &&& lists[r].contains((sol[r], search_shape(parts, requirements, sol[r], r)))
    &&& placement_ok(
        cells,
        s,
        parts[req.part_index as int].is_solid,
        r as usize,
        req.constraint.on_command_line,
        req.constraint.bugged,
    )
}

/// The per-placement check of `r` reads only the cells placed by `r`.
proof fn lemma_same_cells_ok(
    a: Seq<Cell>,
    b: Seq<Cell>,
    s: GridSettings,
    solid: bool,
    r: usize,
    on_command_line: Option<bool>,
    bugged: Option<bool>,
)
    requires
        a.len() == b.len(),
        forall|k: int| 0 <= k < a.len() ==> (#[trigger] a[k] == Cell::Placed(r)) == (b[k] == Cell::Placed(r)),
    ensures
        placement_ok(a, s, solid, r, on_command_line, bugged) == placement_ok(b, s, solid, r, on_command_line, bugged),
{
    let h = s.height as int;
    let w = s.width as int;
    assert forall|k: int| 0 <= k < a.len() implies (#[trigger] interior_at(a, h, w, r, k) == interior_at(b, h, w, r, k))
        && border_at(a, h, w, r, k) == border_at(b, h, w, r, k) && row_at(a, w, s.command_line_row as int, r, k) == row_at(
        b,
        w,
        s.command_line_row as int,
        r,
        k,
    ) by {
        assert((a[k] == Cell::Placed(r)) == (b[k] == Cell::Placed(r)));
    }
    if interior_has(a, s, r) {
        let k = choose|k: int| 0 <= k < a.len() && #[trigger] interior_at(a, h, w, r, k);
        assert(interior_at(b, h, w, r, k));
    }
    if interior_has(b, s, r) {
        let k = choose|k: int| 0 <= k < b.len() && #[trigger] interior_at(b, h, w, r, k);
        assert(interior_at(a, h, w, r, k));
    }
    if border_has(a, s, r) {
        let k = choose|k: int| 0 <= k < a.len() && #[trigger] border_at(a, h, w, r, k);
        assert(border_at(b, h, w, r, k));
    }
    if border_has(b, s, r) {
        let k = choose|k: int| 0 <= k < b.len() && #[trigger] border_at(b, h, w, r, k);
        assert(border_at(a, h, w, r, k));
    }
    if command_line_has(a, s, r) {
        let k = choose|k: int| 0 <= k < a.len() && #[trigger] row_at(a, w, s.command_line_row as int, r, k);
        assert(row_at(b, w, s.command_line_row as int, r, k));
    }
    if command_line_has(b, s, r) {
        let k = choose|k: int| 0 <= k < b.len() && #[trigger] row_at(b, w, s.command_line_row as int, r, k);
        assert(row_at(a, w, s.command_line_row as int, r, k));
    }
}

/// Stamping the next requirement's footprint keeps the grid matching.
proof fn lemma_descend(
    parts: Seq<Part>,
    requirements: Seq<Requirement>,
    order: Seq<usize>,
    s: GridSettings,
    depth: int,
    cells: Seq<Cell>,
    current: Seq<Placement>,
    pl: Placement,
    m: Shape,
)
    requires
        inputs_wf(parts, requirements),
        current.len() == requirements.len(),
        0 <= depth < order.len(),
        forall|d: int| 0 <= d < order.len() ==> #[trigger] order[d] < requirements.len(),
        forall|a: int, b: int| 0 <= a < b < order.len() ==> #[trigger] order[a] != #[trigger] order[b],
        grid_matches(parts, requirements, order, s, depth, cells, current),
        m == search_shape(parts, requirements, pl, order[depth] as int),
        fits(cells, s.height as int, s.width as int, m, pl.loc.position.x as int, pl.loc.position.y as int),
        placed_fit(parts, requirements, order, s, depth, current),
    ensures
        placed_fit(parts, requirements, order, s, depth + 1, current.update(order[depth] as int, pl)),
        forall|k: int|
            0 <= k < cells.len() ==> #[trigger] stamped(
                cells,
                s.width as int,
                m,
                pl.loc.position.x as int,
                pl.loc.position.y as int,
                order[depth],
            )[k] == cells[k] || (stamped(
                cells,
                s.width as int,
                m,
                pl.loc.position.x as int,
                pl.loc.position.y as int,
                order[depth],
            )[k] == Cell::Placed(order[depth]) && cells[k] == Cell::Empty),
        grid_matches(
            parts,
            requirements,
            order,
            s,
            depth + 1,
            stamped(cells, s.width as int, m, pl.loc.position.x as int, pl.loc.position.y as int, order[depth]),
            current.update(order[depth] as int, pl),
        ),
{
    let r = order[depth];
    let cur2 = current.update(r as int, pl);
    let h = s.height as int;
    let w = s.width as int;
    let px = pl.loc.position.x as int;
    let py = pl.loc.position.y as int;
    let next = stamped(cells, w, m, px, py, r);
    let part = parts[requirements[r as int].part_index as int];
    assert(part.wf());
    crate::mask::lemma_rotated_mod(part.compressed_mask@, pl.loc.rotation as nat);
    crate::mask::lemma_rotated_mod(part.uncompressed_mask@, pl.loc.rotation as nat);
    assert(m.wf());
    assert(h * w >= 0) by (nonlinear_arith)
        requires
            h >= 0,
            w >= 0,
    ;
    assert(cells.len() == h * w);
    assert forall|k: int| 0 <= k < cells.len() implies #[trigger] next[k] == (if footprint(parts, requirements, cur2, s, r as int, k) {
        Cell::Placed(r)
    } else {
        cells[k]
    }) by {
        assert(cur2[r as int] == pl);
    }
    assert forall|k: int| 0 <= k < cells.len() && footprint(parts, requirements, cur2, s, r as int, k) implies cells[k] == Cell::Empty by {
        assert(cur2[r as int] == pl);
        lemma_split_index(k, h, w);
        let y = k / w - py;
        let x = k % w - px;
        let j = y * (m.width as int) + x;
        lemma_index_in_bounds(y, x, m.height as int, m.width as int);
        lemma_join_index(y, x, m.width as int);
        assert(m.cells[j]);
        assert((y + py) * w + (x + px) == k);
    }
    assert forall|i: int, k: int| 0 <= i < requirements.len() && i != r && 0 <= k < cells.len() implies footprint(parts, requirements, cur2, s, i, k)
        == footprint(parts, requirements, current, s, i, k) by {
        assert(cur2[i] == current[i]);
    }
    assert forall|k: int| 0 <= k < next.len() && (#[trigger] next[k] is Placed) implies (exists|j: int| 0 <= j < depth + 1 && order[j] == next[k]->Placed_0)
        && footprint(parts, requirements, cur2, s, next[k]->Placed_0 as int, k) by {
        let r2 = next[k]->Placed_0;
        if footprint(parts, requirements, cur2, s, r as int, k) {
            assert(r2 == r);
            assert(order[depth] == r2);
        } else {
            assert(cells[k] == Cell::Placed(r2));
            let j = choose|j: int| 0 <= j < depth && order[j] == r2;
            assert(order[j] != order[depth]);
        }
    }
    assert forall|j: int, k: int| 0 <= j < depth + 1 && 0 <= k < next.len() && #[trigger] footprint(parts, requirements, cur2, s, order[j] as int, k)
        implies next[k] == Cell::Placed(order[j]) by {
        if j < depth {
            assert(order[j] != order[depth]);
            assert(footprint(parts, requirements, current, s, order[j] as int, k));
            assert(cells[k] == Cell::Placed(order[j]));
            if footprint(parts, requirements, cur2, s, r as int, k) {
                assert(cells[k] == Cell::Empty);
            }
        }
    }
    assert forall|k: int| 0 <= k < next.len() && !(#[trigger] next[k] is Placed) implies next[k] == empty_cells(s)[k] by {
        assert(next[k] == cells[k]);
    }
    assert(cur2[r as int] == pl);
    assert forall|j: int| 0 <= j < depth + 1 implies #[trigger] fits_fresh(parts, requirements, cur2, s, order[j] as int) by {
        if j < depth {
            assert(order[j] != order[depth]);
            assert(fits_fresh(parts, requirements, current, s, order[j] as int));
            assert(cur2[order[j] as int] == current[order[j] as int]);
        } else {
            let e = empty_cells(s);
            assert forall|jj: int| 0 <= jj < m.cells.len() && #[trigger] m.cells[jj] implies {
                let my = jj / (m.width as int);
                let mx = jj % (m.width as int);
                in_region(h, py, my) && in_region(w, px, mx) && e[(my + py) * w + (mx + px)] == Cell::Empty
            } by {
                let my = jj / (m.width as int);
                let mx = jj % (m.width as int);
                let k = (my + py) * w + (mx + px);
                assert(in_region(h, py, my) && in_region(w, px, mx));
                lemma_index_in_bounds(my + py, mx + px, h, w);
                assert(cells[k] == Cell::Empty);
                assert(!(cells[k] is Placed));
                assert(cells[k] == e[k]);
            }
        }
    }
}

/// Past the last depth, every placement fits a fresh grid and the
/// footprints are disjoint.
proof fn lemma_leaf_fits(
    parts: Seq<Part>,
    requirements: Seq<Requirement>,
    order: Seq<usize>,
    s: GridSettings,
    cells: Seq<Cell>,
    current: Seq<Placement>,
)
    requires
        current.len() == requirements.len(),
        requirements.len() <= usize::MAX,
        forall|i: usize| i < requirements.len() ==> order.contains(i),
        forall|d: int| 0 <= d < order.len() ==> #[trigger] order[d] < requirements.len(),
        grid_matches(parts, requirements, order, s, order.len() as int, cells, current),
        placed_fit(parts, requirements, order, s, order.len() as int, current),
    ensures
        sol_fits(parts, requirements, current, s),
{
    assert forall|i: int| 0 <= i < current.len() implies #[trigger] fits_fresh(parts, requirements, current, s, i) by {
        assert(order.contains(i as usize));
        let j = choose|j: int| 0 <= j < order.len() && order[j] == i as usize;
        assert(fits_fresh(parts, requirements, current, s, order[j] as int));
    }
    assert forall|i: int, i2: int, k: int|
        0 <= i < current.len() && 0 <= i2 < current.len() && i != i2 && 0 <= k < empty_cells(s).len() && #[trigger] footprint(parts, requirements, current, s, i, k)
            implies !#[trigger] footprint(parts, requirements, current, s, i2, k) by {
        assert(order.contains(i as usize));
        let j = choose|j: int| 0 <= j < order.len() && order[j] == i as usize;
        assert(footprint(parts, requirements, current, s, order[j] as int, k));
        assert(order.contains(i2 as usize));
        let j2 = choose|j2: int| 0 <= j2 < order.len() && order[j2] == i2 as usize;
        if footprint(parts, requirements, current, s, i2, k) {
            assert(footprint(parts, requirements, current, s, order[j2] as int, k));
        }
    }
}

/// Past the last depth, a matching grid is the layout of the placements.
proof fn lemma_leaf_layout(
    parts: Seq<Part>,
    requirements: Seq<Requirement>,
    order: Seq<usize>,
    s: GridSettings,
    cells: Seq<Cell>,
    current: Seq<Placement>,
)
    requires
        current.len() == requirements.len(),
        requirements.len() <= usize::MAX,
        forall|i: usize| i < requirements.len() ==> order.contains(i),
        forall|d: int| 0 <= d < order.len() ==> #[trigger] order[d] < requirements.len(),
        grid_matches(parts, requirements, order, s, order.len() as int, cells, current),
    ensures
        cells == layout(parts, requirements, current, s),
{
    let l = layout(parts, requirements, current, s);
    assert forall|k: int| 0 <= k < cells.len() implies cells[k] == l[k] by {
        if exists|i: int| 0 <= i < current.len() && #[trigger] footprint(parts, requirements, current, s, i, k) {
            let i = choose|i: int| 0 <= i < current.len() && #[trigger] footprint(parts, requirements, current, s, i, k);
            assert(order.contains(i as usize));
            let j = choose|j: int| 0 <= j < order.len() && order[j] == i as usize;
            assert(footprint(parts, requirements, current, s, order[j] as int, k));
        } else {
            if cells[k] is Placed {
                let r2 = cells[k]->Placed_0;
                assert(cells[k] == Cell::Placed(r2));
                let j = choose|j: int| 0 <= j < order.len() && order[j] == r2;
                assert(footprint(parts, requirements, current, s, r2 as int, k));
            }
        }
    }
    assert(cells =~= l);
}

/// The found solutions pass the whole-solution check on their layouts and
/// have pairwise different arrangements of parts.
pub open spec fn found_ok(parts: Seq<Part>, requirements: Seq<Requirement>, s: GridSettings, found: Seq<Seq<Placement>>) -> bool {
    &&& forall|i: int| 0 <= i < found.len() ==> sol_fits(parts, requirements, #[trigger] found[i], s)
    &&& forall|i: int| 0 <= i < found.len() ==> solution_ok(layout(parts, requirements, #[trigger] found[i], s), s, parts, requirements)
    &&& forall|i: int, j: int|
        0 <= i < found.len() && 0 <= j < found.len() && i != j ==> layout_topology(parts, requirements, #[trigger] found[i], s)
            != layout_topology(parts, requirements, #[trigger] found[j], s)
}

/// Every placement of every found solution is a candidate of its
/// requirement and passes the per-placement check on the layout.
pub open spec fn found_searched(
    parts: Seq<Part>,
    requirements: Seq<Requirement>,
    lists: Seq<Seq<(Placement, Shape)>>,
    s: GridSettings,
    found: Seq<Seq<Placement>>,
) -> bool {
    forall|i: int, r: int|
        0 <= i < found.len() && 0 <= r < requirements.len() ==> #[trigger] searched_ok(
            parts,
            requirements,
            lists,
            s,
            layout(parts, requirements, found[i], s),
            found[i],
            r,
        )
}

/// The arrangement of every found solution has been met.
pub open spec fn found_met(
    parts: Seq<Part>,
    requirements: Seq<Requirement>,
    s: GridSettings,
    found: Seq<Seq<Placement>>,
    visited: Seq<Seq<Option<usize>>>,
) -> bool {
    forall|i: int| 0 <= i < found.len() ==> visited.contains(layout_topology(parts, requirements, #[trigger] found[i], s))
}

pub open spec fn extends(before: Seq<Seq<Option<usize>>>, after: Seq<Seq<Option<usize>>>) -> bool {
    before.len() <= after.len() && forall|i: int| 0 <= i < before.len() ==> after[i] == before[i]
}

/// Depth-first search from `depth` on; see `search_from`.
fn search(
    parts: &[Part],
    requirements: &[Requirement],
    lists: &Vec<Vec<Candidate>>,
    order: &Vec<usize>,
    grid_settings: GridSettings,
    depth: usize,
    grid: &Grid,
    visited: &mut Vec<Vec<Option<usize>>>,
    current: &Vec<Placement>,
    found: &mut Vec<Solution>,
)
    requires
        inputs_wf(parts@, requirements@),
        grid.wf(),
        grid.spec_settings() == grid_settings,
        placed_below(grid.cells@, requirements@.len() as int),
        lists@.len() == requirements@.len(),
        forall|i: int| 0 <= i < lists@.len() ==> candidates_wf(#[trigger] lists@[i]@),
        forall|d: int| 0 <= d < order@.len() ==> #[trigger] order@[d] < requirements@.len(),
        depth <= order@.len(),
        current@.len() == requirements@.len(),
        forall|i: int| 0 <= i < old(found)@.len() ==> (#[trigger] old(found)@[i])@.len() == requirements@.len(),
        requirements@.len() <= usize::MAX,
        forall|a: int, b: int| 0 <= a < b < order@.len() ==> #[trigger] order@[a] != #[trigger] order@[b],
        forall|i: usize| i < requirements@.len() ==> order@.contains(i),
        forall|i: int|
            0 <= i < lists@.len() ==> candidates_shaped(
                #[trigger] lists@[i]@,
                parts@[requirements@[i].part_index as int],
                requirements@[i].constraint,
            ),
        grid_matches(parts@, requirements@, order@, grid_settings, depth as int, grid.cells@, current@),
        placed_fit(parts@, requirements@, order@, grid_settings, depth as int, current@),
        placed_ok(parts@, requirements@, lists_view(lists@), order@, grid_settings, depth as int, grid.cells@, current@),
        found_searched(parts@, requirements@, lists_view(lists@), grid_settings, placements_view(old(found)@)),
        found_ok(parts@, requirements@, grid_settings, placements_view(old(found)@)),
        order@.len() > 0 ==> found_met(parts@, requirements@, grid_settings, placements_view(old(found)@), topologies_view(old(visited)@)),
        order@.len() == 0 ==> old(found)@.len() == 0,
        depth == order@.len() && order@.len() > 0 ==> {
            &&& topologies_view(old(visited)@).contains(part_topology(requirements@, grid.cells@))
            &&& forall|i: int|
                0 <= i < old(found)@.len() ==> layout_topology(parts@, requirements@, #[trigger] old(found)@[i]@, grid_settings)
                    != part_topology(requirements@, grid.cells@)
        },
    ensures
        forall|i: int| 0 <= i < final(found)@.len() ==> (#[trigger] final(found)@[i])@.len() == requirements@.len(),
        found_ok(parts@, requirements@, grid_settings, placements_view(final(found)@)),
        found_searched(parts@, requirements@, lists_view(lists@), grid_settings, placements_view(final(found)@)),
        order@.len() > 0 ==> found_met(parts@, requirements@, grid_settings, placements_view(final(found)@), topologies_view(final(visited)@)),
        extends(topologies_view(old(visited)@), topologies_view(final(visited)@)),
        ({
            let res = search_from(
                parts@,
                requirements@,
                lists_view(lists@),
                order@,
                grid_settings,
                depth as int,
                0,
                grid.cells@,
                topologies_view(old(visited)@),
                current@,
            );
            &&& placements_view(final(found)@) == placements_view(old(found)@) + res.0
            &&& topologies_view(final(visited)@) == res.1
        }),
    decreases order@.len() - depth,
{
    let ghost ls = lists_view(lists@);
    let ghost s = grid_settings;
    if depth == order.len() {
        if solution_is_admissible(parts, requirements, grid) {
            let ghost before = found@;
            proof {
                lemma_leaf_layout(parts@, requirements@, order@, s, grid.cells@, current@);
                lemma_leaf_fits(parts@, requirements@, order@, s, grid.cells@, current@);
            }
            found.push(copy_placements(current));
            assert(placements_view(found@) =~= placements_view(before) + seq![current@]);
            proof {
                let fv = placements_view(found@);
                let bv = placements_view(before);
                assert(fv[fv.len() - 1] == current@);
                assert forall|i: int| 0 <= i < bv.len() implies fv[i] == bv[i] && fv[i] == before[i]@ by {}
                assert forall|i: int, j: int|
                    0 <= i < fv.len() && 0 <= j < fv.len() && i != j implies layout_topology(parts@, requirements@, #[trigger] fv[i], s)
                        != layout_topology(parts@, requirements@, #[trigger] fv[j], s) by {
                    if i < bv.len() && j < bv.len() {
                        assert(fv[i] == bv[i] && fv[j] == bv[j]);
                    } else if i < bv.len() {
                        assert(fv[i] == before[i]@);
                    } else {
                        assert(fv[j] == before[j]@);
                    }
                }
                assert forall|i: int| 0 <= i < fv.len() implies solution_ok(layout(parts@, requirements@, #[trigger] fv[i], s), s, parts@, requirements@) by {
                    if i < bv.len() {
                        assert(fv[i] == bv[i]);
                    }
                }
                assert forall|i: int| 0 <= i < fv.len() implies sol_fits(parts@, requirements@, #[trigger] fv[i], s) by {
                    if i < bv.len() {
                        assert(fv[i] == bv[i]);
                    }
                }
                assert forall|i: int, r: int| 0 <= i < fv.len() && 0 <= r < requirements@.len() implies #[trigger] searched_ok(
                    parts@,
                    requirements@,
                    ls,
                    s,
                    layout(parts@, requirements@, fv[i], s),
                    fv[i],
                    r,
                ) by {
                    if i < bv.len() {
                        assert(fv[i] == bv[i]);
                    } else {
                        assert(order@.contains(r as usize));
                        let j = choose|j: int| 0 <= j < order@.len() && order@[j] == r as usize;
                        assert(searched_ok(parts@, requirements@, ls, s, grid.cells@, current@, order@[j] as int));
                    }
                }
                if order@.len() > 0 {
                    assert forall|i: int| 0 <= i < fv.len() implies topologies_view(visited@).contains(layout_topology(parts@, requirements@, #[trigger] fv[i], s)) by {
                        if i < bv.len() {
                            assert(fv[i] == bv[i]);
                        }
                    }
                }
            }
        } else {
            assert(placements_view(found@) =~= placements_view(found@) + Seq::<Seq<Placement>>::empty());
        }
        return;
    }
    let total = order.len();
    let r = order[depth];
    let cands = &lists[r];
    let requirement = &requirements[r];
    let part = &parts[requirement.part_index];
    let ghost f0 = placements_view(found@);
    let ghost v_start = topologies_view(visited@);
    let ghost whole = search_from(parts@, requirements@, ls, order@, s, depth as int, 0, grid.cells@, topologies_view(visited@), current@);
    assert(ls[r as int] == crate::candidates::candidates_view(cands@));
    let mut c: usize = 0;
    while c < cands.len()
        invariant
            inputs_wf(parts@, requirements@),
            grid.wf(),
            grid.spec_settings() == grid_settings,
            placed_below(grid.cells@, requirements@.len() as int),
            lists@.len() == requirements@.len(),
            forall|i: int| 0 <= i < lists@.len() ==> candidates_wf(#[trigger] lists@[i]@),
            forall|d: int| 0 <= d < order@.len() ==> #[trigger] order@[d] < requirements@.len(),
            depth < order@.len(),
            total == order@.len(),
            r == order@[depth as int],
            r < requirements@.len(),
            cands == &lists@[r as int],
            ls == lists_view(lists@),
            ls[r as int] == crate::candidates::candidates_view(cands@),
            requirement == &requirements@[r as int],
            part == &parts@[requirement.part_index as int],
            s == grid_settings,
            c <= cands@.len(),
            current@.len() == requirements@.len(),
            forall|i: int| 0 <= i < found@.len() ==> (#[trigger] found@[i])@.len() == requirements@.len(),
            requirements@.len() <= usize::MAX,
            forall|a: int, b: int| 0 <= a < b < order@.len() ==> #[trigger] order@[a] != #[trigger] order@[b],
            forall|i: usize| i < requirements@.len() ==> order@.contains(i),
            forall|i: int|
                0 <= i < lists@.len() ==> candidates_shaped(
                    #[trigger] lists@[i]@,
                    parts@[requirements@[i].part_index as int],
                    requirements@[i].constraint,
                ),
            grid_matches(parts@, requirements@, order@, grid_settings, depth as int, grid.cells@, current@),
            placed_fit(parts@, requirements@, order@, grid_settings, depth as int, current@),
            placed_ok(parts@, requirements@, ls, order@, grid_settings, depth as int, grid.cells@, current@),
            found_searched(parts@, requirements@, ls, grid_settings, placements_view(found@)),
            found_ok(parts@, requirements@, grid_settings, placements_view(found@)),
            found_met(parts@, requirements@, grid_settings, placements_view(found@), topologies_view(visited@)),
            extends(v_start, topologies_view(visited@)),
            ({
                let rest = search_from(parts@, requirements@, ls, order@, s, depth as int, c as int, grid.cells@, topologies_view(visited@), current@);
                &&& placements_view(found@) + rest.0 == f0 + whole.0
                &&& rest.1 == whole.1
            }),
        decreases cands@.len() - c,
    {
        let cand = &cands[c];
        assert(cand.mask.wf());
        let ghost v0 = topologies_view(visited@);
        let ghost found_before = placements_view(found@);
        let ghost step = search_from(parts@, requirements@, ls, order@, s, depth as int, c as int, grid.cells@, v0, current@);
        let ghost x = cand.placement.loc.position.x as int;
        let ghost y = cand.placement.loc.position.y as int;
        let ghost next_cells = stamped(grid.cells@, grid.width as int, cand.mask@, x, y, r);
        let ghost topo_spec = part_topology(requirements@, next_cells);
        let ghost tried = if fits(grid.cells@, grid.height as int, grid.width as int, cand.mask@, x, y) && placement_ok(
            next_cells,
            s,
            part.is_solid,
            r,
            requirement.constraint.on_command_line,
            requirement.constraint.bugged,
        ) && !v0.contains(topo_spec) {
            search_from(parts@, requirements@, ls, order@, s, depth + 1, 0, next_cells, v0.push(topo_spec), current@.update(r as int, cand.placement))
        } else {
            (Seq::empty(), v0)
        };
        let ghost rest = search_from(parts@, requirements@, ls, order@, s, depth as int, c + 1, grid.cells@, tried.1, current@);
        assert(ls[r as int][c as int] == (cand.placement, cand.mask@));
        assert(step == (tried.0 + rest.0, rest.1));
        let mut followed = false;
        match grid.place(&cand.mask, cand.placement.loc.position, r) {
            Some(next) => {
                proof {
                    lemma_stamped_below(grid.cells@, grid.width as int, cand.mask@, x, y, r, requirements@.len() as int);
                }
                if placement_is_admissible(
                    &next,
                    part.is_solid,
                    r,
                    requirement.constraint.on_command_line,
                    requirement.constraint.bugged,
                ) {
                    let topo = topology(&next, requirements);
                    let met = seen_before(visited, &topo);
                    proof {
                        if v0.contains(topo_spec) {
                            let i = choose|i: int| 0 <= i < v0.len() && v0[i] == topo_spec;
                            assert(visited@[i]@ == topo@);
                        }
                        if met {
                            let i = choose|i: int| 0 <= i < visited@.len() && (#[trigger] visited@[i])@ == topo@;
                            assert(v0[i] == topo_spec);
                        }
                    }
                    if !met {
                        let ghost vbefore = visited@;
                        visited.push(topo);
                        assert(topologies_view(visited@) =~= v0.push(topo_spec));
                        let mut next_current = copy_placements(current);
                        next_current.set(r, cand.placement);
                        proof {
                            assert(cands@[c as int].mask@ == stamp_shape_of(*part, requirement.constraint, cand.placement));
                            lemma_descend(parts@, requirements@, order@, s, depth as int, grid.cells@, current@, cand.placement, cand.mask@);
                            let fv = placements_view(found@);
                            let v1 = topologies_view(visited@);
                            assert forall|i: int| 0 <= i < fv.len() implies v1.contains(layout_topology(parts@, requirements@, #[trigger] fv[i], s)) by {
                                let t = layout_topology(parts@, requirements@, fv[i], s);
                                assert(v0.contains(t));
                                let w = choose|w: int| 0 <= w < v0.len() && v0[w] == t;
                                assert(v1[w] == t);
                            }
                            assert(v1[v1.len() - 1] == topo_spec);
                            assert forall|i: int| 0 <= i < found@.len() implies layout_topology(parts@, requirements@, #[trigger] found@[i]@, s)
                                != part_topology(requirements@, next.cells@) by {
                                assert(fv[i] == found@[i]@);
                                assert(v0.contains(layout_topology(parts@, requirements@, fv[i], s)));
                            }
                            assert(extends(v_start, v1));
                            let cur2 = next_current@;
                            let nc = next.cells@;
                            assert(cur2 == current@.update(r as int, cand.placement));
                            assert forall|j: int| 0 <= j < depth + 1 implies #[trigger] searched_ok(parts@, requirements@, ls, s, nc, cur2, order@[j] as int) by {
                                let r2 = order@[j];
                                if j < depth {
                                    assert(r2 != r);
                                    assert(searched_ok(parts@, requirements@, ls, s, grid.cells@, current@, order@[j] as int));
                                    assert(cur2[r2 as int] == current@[r2 as int]);
                                    assert forall|k: int| 0 <= k < nc.len() implies (#[trigger] nc[k] == Cell::Placed(r2)) == (grid.cells@[k] == Cell::Placed(r2)) by {}
                                    let rq = requirements@[r2 as int];
                                    lemma_same_cells_ok(nc, grid.cells@, s, parts@[rq.part_index as int].is_solid, r2, rq.constraint.on_command_line, rq.constraint.bugged);
                                } else {
                                    assert(cur2[r as int] == cand.placement);
                                    assert(ls[r as int][c as int] == (cand.placement, cand.mask@));
                                    assert(ls[r as int].contains((cur2[r as int], search_shape(parts@, requirements@, cur2[r as int], r as int))));
                                }
                            }
                        }
                        search(parts, requirements, lists, order, grid_settings, depth + 1, &next, visited, &next_current, found);
                        followed = true;
                        assert(extends(v_start, topologies_view(visited@)));
                    }
                }
            },
            None => {},
        }
        if !followed {
            assert(placements_view(found@) =~= found_before + tried.0);
        }
        assert(placements_view(found@) + rest.0 =~= found_before + step.0);
        c += 1;
    }
    proof {
        let end = search_from(parts@, requirements@, ls, order@, s, depth as int, c as int, grid.cells@, topologies_view(visited@), current@);
        assert(end.0 =~= Seq::<Seq<Placement>>::empty());
        assert(placements_view(found@) =~= placements_view(found@) + end.0);
    }
}

/// Whether parts of color `color` may spin; colors past the list may not.
pub open spec fn spinnable_of(colors: Seq<bool>, color: usize) -> bool {
    if color < colors.len() {
        colors[color as int]
    } else {
        false
    }
}

/// The candidates of each requirement, in input order.
pub open spec fn all_candidates(
    parts: Seq<Part>,
    requirements: Seq<Requirement>,
    s: GridSettings,
    colors: Seq<bool>,
) -> Seq<Seq<(Placement, Shape)>> {
    Seq::new(
        requirements.len(),
        |i: int|
            {
                let part = parts[requirements[i].part_index as int];
                candidates_spec(part, s, requirements[i].constraint, spinnable_of(colors, part.color))
            },
    )
}

/// Whether requirement `a` comes before `b` in the search: fewer
/// candidates, ties by input order.
pub open spec fn searched_before(lists: Seq<Seq<(Placement, Shape)>>, a: usize, b: usize) -> bool {
    lists[a as int].len() < lists[b as int].len() || (lists[a as int].len() == lists[b as int].len() && a < b)
}

/// Whether `order` holds each requirement once, sorted by `searched_before`.
pub open spec fn is_search_order(order: Seq<usize>, lists: Seq<Seq<(Placement, Shape)>>) -> bool {
    &&& order.len() == lists.len()
    &&& forall|d: int| 0 <= d < order.len() ==> #[trigger] order[d] < lists.len()
    &&& forall|i: usize| i < lists.len() ==> order.contains(i)
    &&& forall|a: int, b: int| 0 <= a < b < order.len() ==> searched_before(lists, #[trigger] order[a], #[trigger] order[b])
}

/// The placements recorded before any is chosen.
pub open spec fn blank_placement() -> Placement {
    Placement { loc: Location { position: Position { x: 0, y: 0 }, rotation: 0 }, compressed: false }
}

/// What the search in `order` finds from an empty grid.
pub open spec fn solutions_in_order(
    parts: Seq<Part>,
    requirements: Seq<Requirement>,
    s: GridSettings,
    colors: Seq<bool>,
    order: Seq<usize>,
) -> Seq<Seq<Placement>> {
    search_from(
        parts,
        requirements,
        all_candidates(parts, requirements, s, colors),
        order,
        s,
        0,
        0,
        empty_cells(s),
        Seq::empty(),
        Seq::new(requirements.len(), |i: int| blank_placement()),
    ).0
}

/// Every distinct way to place all requirements, each as one placement per
/// requirement in the order of `requirements`. Nothing is returned when the
/// command line lies outside the grid or when the requirements cannot fit.
/// Otherwise the requirements are searched hardest first (fewest
/// candidates, ties by input order) as `search_from` describes, and what it
/// finds is returned in the order found. Of each solution, read through the
/// masks the search stamped (its `layout`): every placement is a candidate
/// of its requirement that fits a fresh grid, no two footprints share a
/// cell, each passes the per-placement check, the whole arrangement passes
/// the whole-solution check, and no two solutions give the same arrangement
/// of parts.
pub fn solve(
    parts: Vec<Part>,
    requirements: Vec<Requirement>,
    grid_settings: GridSettings,
    spinnable_colors: Vec<bool>,
) -> (r: Vec<Solution>)
    requires
        inputs_wf(parts@, requirements@),
        settings_fit(grid_settings),
    ensures
        grid_settings.command_line_row >= grid_settings.height ==> r@.len() == 0,
        !requirements_ok(parts@, requirements@, grid_settings) ==> r@.len() == 0,
        grid_settings.command_line_row < grid_settings.height && requirements_ok(parts@, requirements@, grid_settings) ==> exists|order: Seq<usize>|
            #[trigger] is_search_order(order, all_candidates(parts@, requirements@, grid_settings, spinnable_colors@))
                && placements_view(r@) == solutions_in_order(parts@, requirements@, grid_settings, spinnable_colors@, order),
        forall|i: int| 0 <= i < r@.len() ==> (#[trigger] r@[i])@.len() == requirements@.len(),
        forall|i: int|
            0 <= i < r@.len() ==> solution_ok(
                layout(parts@, requirements@, (#[trigger] r@[i])@, grid_settings),
                grid_settings,
                parts@,
                requirements@,
            ),
        forall|i: int| 0 <= i < r@.len() ==> sol_fits(parts@, requirements@, (#[trigger] r@[i])@, grid_settings),
        forall|i: int, q: int|
            0 <= i < r@.len() && 0 <= q < requirements@.len() ==> #[trigger] searched_ok(
                parts@,
                requirements@,
                all_candidates(parts@, requirements@, grid_settings, spinnable_colors@),
                grid_settings,
                layout(parts@, requirements@, r@[i]@, grid_settings),
                r@[i]@,
                q,
            ),
        forall|i: int, j: int|
            0 <= i < r@.len() && 0 <= j < r@.len() && i != j ==> layout_topology(parts@, requirements@, (#[trigger] r@[i])@, grid_settings)
                != layout_topology(parts@, requirements@, (#[trigger] r@[j])@, grid_settings),
{
    if grid_settings.command_line_row >= grid_settings.height {
        return Vec::new();
    }
    if !requirements_are_admissible(parts.as_slice(), requirements.as_slice(), grid_settings) {
        return Vec::new();
    }
    let ghost everything = all_candidates(parts@, requirements@, grid_settings, spinnable_colors@);
    let n = requirements.len();
    let mut lists: Vec<Vec<Candidate>> = Vec::new();
    let mut order: Vec<usize> = Vec::new();
    let mut i: usize = 0;
    while i < n
        invariant
            inputs_wf(parts@, requirements@),
            settings_fit(grid_settings),
            n == requirements@.len(),
            everything == all_candidates(parts@, requirements@, grid_settings, spinnable_colors@),
            i <= n,
            lists@.len() == i,
            forall|k: int| 0 <= k < lists@.len() ==> candidates_wf(#[trigger] lists@[k]@),
            lists_view(lists@) == everything.take(i as int),
            is_search_order(order@, lists_view(lists@)),
            forall|k: int|
                0 <= k < lists@.len() ==> candidates_shaped(
                    #[trigger] lists@[k]@,
                    parts@[requirements@[k].part_index as int],
                    requirements@[k].constraint,
                ),
        decreases n - i,
    {
        let req = &requirements[i];
        let part = &parts[req.part_index];
        assert(part.wf());
        let spinnable = if part.color < spinnable_colors.len() {
            spinnable_colors[part.color]
        } else {
            false
        };
        let cands = candidates_for_part(part, grid_settings, &req.constraint, spinnable);
        let size = cands.len();
        let ghost ls = lists_view(lists@);
        let mut at: usize = 0;
        let mut done = false;
        while at < order.len() && !done
            invariant
                lists@.len() == i,
                ls == lists_view(lists@),
                is_search_order(order@, ls),
                at <= order@.len(),
                forall|d: int| 0 <= d < at ==> ls[#[trigger] order@[d] as int].len() <= size,
                done ==> at < order@.len() && ls[order@[at as int] as int].len() > size,
            decreases order@.len() - at, if done {
                0int
            } else {
                1int
            },
        {
            if lists[order[at]].len() > size {
                done = true;
            } else {
                at += 1;
            }
        }
        let ghost old_order = order@;
        proof {
            old_order.insert_ensures(at as int, i);
        }
        order.insert(at, i);
        let ghost lists_before = lists@;
        lists.push(cands);
        assert forall|k: int| 0 <= k < lists@.len() implies candidates_shaped(
            #[trigger] lists@[k]@,
            parts@[requirements@[k].part_index as int],
            requirements@[k].constraint,
        ) by {
            if k < i {
                assert(lists@[k] == lists_before[k]);
            }
        }
        proof {
            let ls2 = lists_view(lists@);
            assert(ls2 =~= ls.push(crate::candidates::candidates_view(cands@)));
            assert(ls2 =~= everything.take(i + 1));
            let o = order@;
            assert forall|a: int, b: int| 0 <= a < b < o.len() implies searched_before(ls2, #[trigger] o[a], #[trigger] o[b]) by {
                if b < at {
                    assert(searched_before(ls, old_order[a], old_order[b]));
                } else if b == at {
                    assert(o[a] == old_order[a]);
                } else if a < at {
                    assert(o[b] == old_order[b - 1]);
                    assert(o[a] == old_order[a]);
                    assert(searched_before(ls, old_order[a], old_order[b - 1]));
                } else if a == at {
                    assert(o[b] == old_order[b - 1]);
                    if b - 1 > at {
                        assert(searched_before(ls, old_order[at as int], old_order[b - 1]));
                    }
                } else {
                    assert(o[a] == old_order[a - 1]);
                    assert(o[b] == old_order[b - 1]);
                    assert(searched_before(ls, old_order[a - 1], old_order[b - 1]));
                }
            }
            assert forall|j: usize| j < ls2.len() implies o.contains(j) by {
                if j == i {
                    assert(o[at as int] == i);
                } else {
                    assert(old_order.contains(j));
                    let d = choose|d: int| 0 <= d < old_order.len() && old_order[d] == j;
                    if d < at {
                        assert(o[d] == j);
                    } else {
                        assert(o[d + 1] == j);
                    }
                }
            }
            assert forall|d: int| 0 <= d < o.len() implies #[trigger] o[d] < ls2.len() by {
                if d < at {
                    assert(o[d] == old_order[d]);
                } else if d > at {
                    assert(o[d] == old_order[d - 1]);
                }
            }
        }
        i += 1;
    }
    assert(everything.take(n as int) =~= everything);
    let mut found: Vec<Solution> = Vec::new();
    let mut visited: Vec<Vec<Option<usize>>> = Vec::new();
    let mut current: Vec<Placement> = Vec::new();
    let mut k: usize = 0;
    while k < n
        invariant
            current@ == Seq::new(k as nat, |i: int| blank_placement()),
            k <= n,
        decreases n - k,
    {
        current.push(Placement { loc: Location { position: Position { x: 0, y: 0 }, rotation: 0 }, compressed: false });
        k += 1;
        assert(current@ =~= Seq::new(k as nat, |i: int| blank_placement()));
    }
    let grid = Grid::new(grid_settings);
    assert(placed_below(grid.cells@, n as int));
    proof {
        let ls = lists_view(lists@);
        assert forall|a: int, b: int| 0 <= a < b < order@.len() implies #[trigger] order@[a] != #[trigger] order@[b] by {
            assert(searched_before(ls, order@[a], order@[b]));
        }
        assert(grid_matches(parts@, requirements@, order@, grid_settings, 0, grid.cells@, current@));
        assert(found_ok(parts@, requirements@, grid_settings, placements_view(found@)));
    }
    assert(topologies_view(visited@) =~= Seq::empty());
    assert(placements_view(found@) =~= Seq::empty());
    search(
        parts.as_slice(),
        requirements.as_slice(),
        &lists,
        &order,
        grid_settings,
        0,
        &grid,
        &mut visited,
        &current,
        &mut found,
    );
    proof {
        let fv = placements_view(found@);
        assert forall|i: int| 0 <= i < found@.len() implies solution_ok(
            layout(parts@, requirements@, (#[trigger] found@[i])@, grid_settings),
            grid_settings,
            parts@,
            requirements@,
        ) by {
            assert(fv[i] == found@[i]@);
        }
        assert forall|i: int| 0 <= i < found@.len() implies sol_fits(parts@, requirements@, (#[trigger] found@[i])@, grid_settings) by {
            assert(fv[i] == found@[i]@);
        }
        assert forall|i: int, q: int| 0 <= i < found@.len() && 0 <= q < requirements@.len() implies #[trigger] searched_ok(
            parts@,
            requirements@,
            all_candidates(parts@, requirements@, grid_settings, spinnable_colors@),
            grid_settings,
            layout(parts@, requirements@, found@[i]@, grid_settings),
            found@[i]@,
            q,
        ) by {
            assert(fv[i] == found@[i]@);
            assert(searched_ok(parts@, requirements@, lists_view(lists@), grid_settings, layout(parts@, requirements@, fv[i], grid_settings), fv[i], q));
        }
        assert forall|i: int, j: int|
            0 <= i < found@.len() && 0 <= j < found@.len() && i != j implies layout_topology(parts@, requirements@, (#[trigger] found@[i])@, grid_settings)
                != layout_topology(parts@, requirements@, (#[trigger] found@[j])@, grid_settings) by {
            assert(fv[i] == found@[i]@);
            assert(fv[j] == found@[j]@);
        }
    }
    found
}

/// Why inputs cannot be searched.
#[derive(Debug, Clone, Copy, PartialEq, Eq, Structural)]
pub enum InputError {
    /// A mask does not hold `height * width` cells.
    MalformedMask,
    /// A requirement names a part that does not exist.
    UnknownPart,
    /// The grid's cells or positions cannot be counted in machine integers.
    GridTooLarge,
}

/// Checks the inputs of `solve` and `place_all`: every mask well formed
/// (else `MalformedMask`), then every requirement naming a part (else
/// `UnknownPart`), then a grid that fits machine integers (else
/// `GridTooLarge`).
pub fn check_inputs(parts: &[Part], requirements: &[Requirement], grid_settings: GridSettings) -> (r: Result<(), InputError>)
    ensures
        r is Ok <==> inputs_wf(parts@, requirements@) && settings_fit(grid_settings),
        r == Err::<(), InputError>(InputError::MalformedMask) <==> exists|i: int| 0 <= i < parts@.len() && !(#[trigger] parts@[i]).wf(),
        r == Err::<(), InputError>(InputError::UnknownPart) <==> (forall|i: int| 0 <= i < parts@.len() ==> (#[trigger] parts@[i]).wf())
            && exists|k: int| 0 <= k < requirements@.len() && (#[trigger] requirements@[k]).part_index >= parts@.len(),
        r == Err::<(), InputError>(InputError::GridTooLarge) <==> inputs_wf(parts@, requirements@) && !settings_fit(grid_settings),
{
    let mut i: usize = 0;
    while i < parts.len()
        invariant
            i <= parts@.len(),
            forall|i2: int| 0 <= i2 < i ==> (#[trigger] parts@[i2]).wf(),
        decreases parts@.len() - i,
    {
        let part = &parts[i];
        let c = &part.compressed_mask;
        let u = &part.uncompressed_mask;
        let c_len = c.cells.len();
        let u_len = u.cells.len();
        let c_ok = match c.height.checked_mul(c.width) {
            Some(size) => size == c_len,
            None => false,
        };
        let u_ok = match u.height.checked_mul(u.width) {
            Some(size) => size == u_len,
            None => false,
        };
        assert(c_ok == c.wf());
        assert(u_ok == u.wf());
        if !(c_ok && u_ok) {
            assert(!parts@[i as int].wf());
            return Err(InputError::MalformedMask);
        }
        i += 1;
    }
    let mut k: usize = 0;
    while k < requirements.len()
        invariant
            forall|i2: int| 0 <= i2 < parts@.len() ==> (#[trigger] parts@[i2]).wf(),
            k <= requirements@.len(),
            forall|k2: int| 0 <= k2 < k ==> (#[trigger] requirements@[k2]).part_index < parts@.len(),
        decreases requirements@.len() - k,
    {
        if requirements[k].part_index >= parts.len() {
            return Err(InputError::UnknownPart);
        }
        k += 1;
    }
    let fits_machine = match grid_settings.height.checked_mul(grid_settings.width) {
        Some(_) => grid_settings.height <= isize::MAX as usize && grid_settings.width <= isize::MAX as usize,
        None => false,
    };
    if !fits_machine {
        return Err(InputError::GridTooLarge);
    }
    Ok(())
}

} // verus!
