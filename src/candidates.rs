//! The candidate placements of a requirement on an empty grid.

use crate::admissible::{placement_is_admissible, placement_ok};
use crate::arith::lemma_split_index;
use crate::grid::{empty_cells, fits, stamped, Grid, GridSettings, Location, Position};
use crate::mask::{rotated, trim, Mask, Shape};
use crate::parts::{Candidate, Constraint, Part, Placement};
use vstd::prelude::*;

verus! {

/// Settings whose positions and cells can be counted in machine integers.
pub open spec fn settings_fit(s: GridSettings) -> bool {
    &&& s.height * s.width <= usize::MAX
    &&& s.height <= isize::MAX
    &&& s.width <= isize::MAX
}

/// The number of positions tried: `2 * height - 1` rows by `2 * width - 1`
/// columns, or none on a grid without cells.
pub open spec fn position_count(s: GridSettings) -> int {
    if s.height == 0 || s.width == 0 {
        0
    } else {
        (2 * s.height - 1) * (2 * s.width - 1)
    }
}

/// The `i`-th position tried: rows from `1 - height` to `height - 1`, and in
/// each row the columns from `1 - width` to `width - 1`.
pub open spec fn nth_position(s: GridSettings, i: int) -> Position {
    let cols = 2 * s.width - 1;
    Position { x: (i % cols - s.width + 1) as isize, y: (i / cols - s.height + 1) as isize }
}

pub open spec fn all_positions(s: GridSettings) -> Seq<Position> {
    Seq::new(position_count(s) as nat, |i: int| nth_position(s, i))
}

/// Whether mask `m` stamped at `p` on an empty grid fits and leaves an
/// acceptable placement for requirement 0.
pub open spec fn position_ok(
    m: Shape,
    s: GridSettings,
    part_is_solid: bool,
    on_command_line: Option<bool>,
    bugged: Option<bool>,
    p: Position,
) -> bool {
    let e = empty_cells(s);
    &&& fits(e, s.height as int, s.width as int, m, p.x as int, p.y as int)
    &&& placement_ok(stamped(e, s.width as int, m, p.x as int, p.y as int, 0), s, part_is_solid, 0, on_command_line, bugged)
}

pub open spec fn position_pred(
    m: Shape,
    s: GridSettings,
    part_is_solid: bool,
    on_command_line: Option<bool>,
    bugged: Option<bool>,
) -> spec_fn(Position) -> bool {
    |p: Position| position_ok(m, s, part_is_solid, on_command_line, bugged, p)
}

/// The acceptable positions of mask `m`, in the order they are tried.
pub open spec fn positions_for(
    m: Shape,
    s: GridSettings,
    part_is_solid: bool,
    on_command_line: Option<bool>,
    bugged: Option<bool>,
) -> Seq<Position> {
    all_positions(s).filter(position_pred(m, s, part_is_solid, on_command_line, bugged))
}

/// Every position at which `mask` fits on an empty grid with an acceptable
/// placement, row by row and left to right.
pub fn placement_positions_for_mask(
    mask: &Mask,
    part_is_solid: bool,
    grid_settings: GridSettings,
    on_command_line: Option<bool>,
    bugged: Option<bool>,
) -> (r: Vec<Position>)
    requires
        mask.wf(),
        settings_fit(grid_settings),
    ensures
        r@ == positions_for(mask@, grid_settings, part_is_solid, on_command_line, bugged),
{
    let ghost s = grid_settings;
    let ghost pred = position_pred(mask@, s, part_is_solid, on_command_line, bugged);
    let ghost all = all_positions(s);
    let h = grid_settings.height;
    let w = grid_settings.width;
    let mut positions: Vec<Position> = Vec::new();
    if h == 0 || w == 0 {
        assert(all.take(0) =~= all);
        return positions;
    }
    let rows = 2 * (h as u128) - 1;
    let cols = 2 * (w as u128) - 1;
    proof {
        assert(rows * cols <= u128::MAX) by (nonlinear_arith)
            requires
                rows < 0x1_0000_0000_0000_0000,
                cols < 0x1_0000_0000_0000_0000,
        ;
    }
    let count = rows * cols;
    let mut i: u128 = 0;
    while i < count
        invariant
            s == grid_settings,
            settings_fit(s),
            mask.wf(),
            h == s.height,
            w == s.width,
            h > 0,
            w > 0,
            rows == 2 * h - 1,
            cols == 2 * w - 1,
            count == position_count(s),
            all == all_positions(s),
            pred == position_pred(mask@, s, part_is_solid, on_command_line, bugged),
            i <= count,
            positions@ == all.take(i as int).filter(pred),
        decreases count - i,
    {
        proof {
            lemma_split_index(i as int, rows as int, cols as int);
        }
        let yi = i / cols;
        let xi = i % cols;
        let y = (yi as i128 - h as i128 + 1) as isize;
        let x = (xi as i128 - w as i128 + 1) as isize;
        let pos = Position { x, y };
        assert(pos == all[i as int]);
        let grid = Grid::new(grid_settings);
        let keep = match grid.place(mask, pos, 0) {
            Some(placed) => placement_is_admissible(&placed, part_is_solid, 0, on_command_line, bugged),
            None => false,
        };
        assert(keep == pred(pos));
        proof {
            let next = all.take(i + 1);
            assert(next.len() == i + 1);
            reveal_with_fuel(Seq::filter, 1);
            assert(next.drop_last() =~= all.take(i as int));
            assert(next.last() == pos);
            assert(next.filter(pred) == if pred(pos) {
                all.take(i as int).filter(pred).push(pos)
            } else {
                all.take(i as int).filter(pred)
            });
        }
        if keep {
            positions.push(pos);
        }
        i += 1;
    }
    assert(all.take(count as int) =~= all);
    positions
}

/// The number of turns explored from turn `i` on: exploring stops at the
/// first turn whose trimmed form equals that of an earlier turn, or after
/// the fourth.
pub open spec fn turns_from(m: Shape, i: nat) -> nat
    decreases 4 - i,
{
    if i >= 4 {
        4
    } else if exists|j: nat| j < i && trim(#[trigger] rotated(m, j)) == trim(rotated(m, i)) {
        i
    } else {
        turns_from(m, i + 1)
    }
}

/// The number of turns explored: all distinct ones when the part may spin,
/// else only the unturned mask.
pub open spec fn turn_count(m: Shape, spinnable: bool) -> nat {
    if spinnable {
        turns_from(m, 1)
    } else {
        1
    }
}

/// The locations of the acceptable positions of `m` turned `i` times,
/// each with the turned shape.
pub open spec fn located(
    m: Shape,
    s: GridSettings,
    part_is_solid: bool,
    on_command_line: Option<bool>,
    bugged: Option<bool>,
    i: nat,
) -> Seq<(Location, Shape)> {
    let turned = rotated(m, i);
    positions_for(turned, s, part_is_solid, on_command_line, bugged).map_values(
        |p: Position| (Location { position: p, rotation: i as usize }, turned),
    )
}

/// The locations of the first `n` turns, in order of turns.
pub open spec fn located_upto(
    m: Shape,
    s: GridSettings,
    part_is_solid: bool,
    on_command_line: Option<bool>,
    bugged: Option<bool>,
    n: nat,
) -> Seq<(Location, Shape)>
    decreases n,
{
    if n == 0 {
        Seq::empty()
    } else {
        located_upto(m, s, part_is_solid, on_command_line, bugged, (n - 1) as nat) + located(
            m,
            s,
            part_is_solid,
            on_command_line,
            bugged,
            (n - 1) as nat,
        )
    }
}

/// The mathematical content of a list of locations with masks.
pub open spec fn located_view(v: Seq<(Location, Mask)>) -> Seq<(Location, Shape)> {
    v.map_values(|e: (Location, Mask)| (e.0, e.1@))
}

pub open spec fn masks_wf(v: Seq<(Location, Mask)>) -> bool {
    forall|k: int| 0 <= k < v.len() ==> (#[trigger] v[k]).1.wf()
}

/// Each mask of `v` is `base` turned by its location's rotation.
pub open spec fn masks_turned(v: Seq<(Location, Mask)>, base: Shape) -> bool {
    forall|k: int| 0 <= k < v.len() ==> (#[trigger] v[k]).1@ == rotated(base, v[k].0.rotation as nat)
}

/// Appending located masks that are all `base` turned by `rotation` keeps
/// every mask `base` turned by its rotation.
proof fn lemma_push_turned(old: Seq<(Location, Mask)>, new: Seq<(Location, Mask)>, positions: Seq<Position>, mask: Shape, rotation: usize, base: Shape)
    requires
        masks_turned(old, base),
        mask == rotated(base, rotation as nat),
        located_view(new) == located_view(old) + positions.map_values(|p: Position| (Location { position: p, rotation }, mask)),
    ensures
        masks_turned(new, base),
{
    assert forall|k: int| 0 <= k < new.len() implies (#[trigger] new[k]).1@ == rotated(base, new[k].0.rotation as nat) by {
        assert(located_view(new).len() == new.len());
        assert(located_view(old).len() == old.len());
        assert(located_view(new)[k] == (new[k].0, new[k].1@));
        if k < old.len() {
            assert(located_view(old)[k] == (old[k].0, old[k].1@));
            assert(located_view(new)[k] == located_view(old)[k]);
        } else {
            let j = k - old.len();
            assert(located_view(new)[k] == positions.map_values(|p: Position| (Location { position: p, rotation }, mask))[j]);
        }
    }
}

/// Whether two masks are structurally equal.
pub fn same_mask(a: &Mask, b: &Mask) -> (r: bool)
    ensures
        r == (a@ == b@),
{
    if a.height != b.height || a.width != b.width || a.cells.len() != b.cells.len() {
        return false;
    }
    let mut k: usize = 0;
    while k < a.cells.len()
        invariant
            a.cells@.len() == b.cells@.len(),
            k <= a.cells@.len(),
            forall|k2: int| 0 <= k2 < k ==> a.cells@[k2] == b.cells@[k2],
        decreases a.cells@.len() - k,
    {
        if a.cells[k] != b.cells[k] {
            return false;
        }
        k += 1;
    }
    assert(a.cells@ =~= b.cells@);
    true
}

/// Appends each of `positions` with `rotation` and a copy of `mask`.
fn push_located(locations: &mut Vec<(Location, Mask)>, positions: &Vec<Position>, mask: &Mask, rotation: usize)
    requires
        mask.wf(),
        masks_wf(old(locations)@),
    ensures
        masks_wf(final(locations)@),
        located_view(final(locations)@) == located_view(old(locations)@) + positions@.map_values(
            |p: Position| (Location { position: p, rotation }, mask@),
        ),
{
    let ghost start = located_view(locations@);
    let ghost added = positions@.map_values(|p: Position| (Location { position: p, rotation }, mask@));
    let mut k: usize = 0;
    while k < positions.len()
        invariant
            mask.wf(),
            masks_wf(locations@),
            start == located_view(old(locations)@),
            added == positions@.map_values(|p: Position| (Location { position: p, rotation }, mask@)),
            k <= positions@.len(),
            located_view(locations@) == start + added.take(k as int),
        decreases positions@.len() - k,
    {
        let loc = Location { position: positions[k], rotation };
        let copy = mask.clone_mask();
        let ghost before = locations@;
        locations.push((loc, copy));
        proof {
            assert(locations@ == before.push((loc, copy)));
            assert(added[k as int] == (loc, copy@));
            assert(added.take(k + 1) =~= added.take(k as int).push((loc, copy@)));
            assert(located_view(locations@) =~= located_view(before).push((loc, copy@)));
        }
        k += 1;
        assert(located_view(locations@) =~= start + added.take(k as int));
    }
    assert(added.take(k as int) =~= added);
}

/// Every location at which `mask`, turned or not, can be placed, each with
/// the turned mask. Unturned positions come first; a part that may spin then
/// tries one, two and three quarter turns, stopping at the first turn whose
/// trimmed shape repeats an earlier one.
pub fn placement_locations_and_masks_for_mask(
    mask: &Mask,
    part_is_solid: bool,
    grid_settings: GridSettings,
    on_command_line: Option<bool>,
    bugged: Option<bool>,
    spinnable: bool,
) -> (r: Vec<(Location, Mask)>)
    requires
        mask.wf(),
        settings_fit(grid_settings),
    ensures
        masks_wf(r@),
        masks_turned(r@, mask@),
        located_view(r@) == located_upto(
            mask@,
            grid_settings,
            part_is_solid,
            on_command_line,
            bugged,
            turn_count(mask@, spinnable),
        ),
{
    let ghost m = mask@;
    let ghost s = grid_settings;
    let mut locations: Vec<(Location, Mask)> = Vec::new();
    let first = placement_positions_for_mask(mask, part_is_solid, grid_settings, on_command_line, bugged);
    proof {
        assert(rotated(m, 0) == m);
        assert(located_view(locations@) =~= Seq::empty());
        assert(located_upto(m, s, part_is_solid, on_command_line, bugged, 0) =~= Seq::empty());
    }
    let ghost empty = locations@;
    push_located(&mut locations, &first, mask, 0);
    proof {
        lemma_push_turned(empty, locations@, first@, mask@, 0, m);
    }
    assert(located_view(locations@) =~= located_upto(m, s, part_is_solid, on_command_line, bugged, 1));
    if !spinnable {
        return locations;
    }
    let mut known: Vec<Mask> = Vec::new();
    known.push(mask.trimmed());
    let mut current = mask.clone_mask();
    let mut i: usize = 1;
    let mut stop = false;
    while i < 4 && !stop
        invariant
            m == mask@,
            s == grid_settings,
            mask.wf(),
            settings_fit(s),
            1 <= i <= 4,
            current.wf(),
            !stop ==> current@ == rotated(m, (i - 1) as nat),
            known@.len() == i,
            forall|j: int| 0 <= j < i ==> (#[trigger] known@[j])@ == trim(rotated(m, j as nat)),
            turns_from(m, 1) == if stop {
                i as nat
            } else {
                turns_from(m, i as nat)
            },
            masks_wf(locations@),
            masks_turned(locations@, m),
            located_view(locations@) == located_upto(m, s, part_is_solid, on_command_line, bugged, i as nat),
        decreases (4 - i) * 2 + if stop {
            0int
        } else {
            1int
        },
    {
        current = current.rotate90();
        assert(current@ == rotated(m, i as nat));
        let t = current.trimmed();
        let mut seen = false;
        let mut j: usize = 0;
        while j < known.len()
            invariant
                known@.len() == i,
                j <= i,
                seen == exists|j2: nat| j2 < j && trim(#[trigger] rotated(m, j2)) == t@,
                forall|j3: int| 0 <= j3 < i ==> (#[trigger] known@[j3])@ == trim(rotated(m, j3 as nat)),
            decreases i - j,
        {
            if same_mask(&known[j], &t) {
                seen = true;
                assert(trim(rotated(m, j as nat)) == t@);
            }
            j += 1;
        }
        if seen {
            stop = true;
        } else {
            let positions = placement_positions_for_mask(&current, part_is_solid, grid_settings, on_command_line, bugged);
            let ghost before = locations@;
            push_located(&mut locations, &positions, &current, i);
            proof {
                lemma_push_turned(before, locations@, positions@, current@, i, m);
            }
            assert(located_view(locations@) =~= located_upto(m, s, part_is_solid, on_command_line, bugged, (i + 1) as nat));
            known.push(t);
            i += 1;
        }
    }
    locations
}

/// The locations of `m` that the search tries for a part with the given
/// constraint.
pub open spec fn locations_of(
    m: Shape,
    s: GridSettings,
    part_is_solid: bool,
    constraint: Constraint,
    spinnable: bool,
) -> Seq<(Location, Shape)> {
    located_upto(m, s, part_is_solid, constraint.on_command_line, constraint.bugged, turn_count(m, spinnable))
}

/// Locations turned into placements marked `compressed`.
pub open spec fn flagged(locs: Seq<(Location, Shape)>, compressed: bool) -> Seq<(Placement, Shape)> {
    locs.map_values(|e: (Location, Shape)| (Placement { loc: e.0, compressed }, e.1))
}

/// The candidates of a part: its compressed mask when the constraint asks
/// for either shape explicitly (the placements then carry the asked flag),
/// and when it does not, its compressed mask followed by its uncompressed
/// one unless the two are equal.
pub open spec fn candidates_spec(part: Part, s: GridSettings, constraint: Constraint, spinnable: bool) -> Seq<(Placement, Shape)> {
    let compressed = locations_of(part.compressed_mask@, s, part.is_solid, constraint, spinnable);
    match constraint.compressed {
        Some(flag) => flagged(compressed, flag),
        None => if part.compressed_mask@ == part.uncompressed_mask@ {
            flagged(compressed, true)
        } else {
            flagged(compressed, true) + flagged(
                locations_of(part.uncompressed_mask@, s, part.is_solid, constraint, spinnable),
                false,
            )
        },
    }
}

/// The mathematical content of a list of candidates.
pub open spec fn candidates_view(v: Seq<Candidate>) -> Seq<(Placement, Shape)> {
    v.map_values(|c: Candidate| (c.placement, c.mask@))
}

pub open spec fn candidates_wf(v: Seq<Candidate>) -> bool {
    forall|k: int| 0 <= k < v.len() ==> (#[trigger] v[k]).mask.wf()
}

/// The shape that the search stamps for placement `p` of a part under
/// `constraint`: the uncompressed mask only when the constraint leaves
/// compression open and the placement is uncompressed, else the compressed
/// mask; turned by the placement's rotation.
pub open spec fn stamp_shape_of(part: Part, constraint: Constraint, p: Placement) -> Shape {
    rotated(
        if constraint.compressed is None && !p.compressed {
            part.uncompressed_mask@
        } else {
            part.compressed_mask@
        },
        p.loc.rotation as nat,
    )
}

/// Each candidate's mask is the shape that its placement stamps.
pub open spec fn candidates_shaped(v: Seq<Candidate>, part: Part, constraint: Constraint) -> bool {
    forall|k: int| 0 <= k < v.len() ==> (#[trigger] v[k]).mask@ == stamp_shape_of(part, constraint, v[k].placement)
}

proof fn lemma_push_shaped(
    old: Seq<Candidate>,
    new: Seq<Candidate>,
    locs: Seq<(Location, Mask)>,
    flag: bool,
    part: Part,
    constraint: Constraint,
)
    requires
        candidates_shaped(old, part, constraint),
        masks_turned(locs, if constraint.compressed is None && !flag {
            part.uncompressed_mask@
        } else {
            part.compressed_mask@
        }),
        candidates_view(new) == candidates_view(old) + flagged(located_view(locs), flag),
    ensures
        candidates_shaped(new, part, constraint),
{
    assert forall|k: int| 0 <= k < new.len() implies (#[trigger] new[k]).mask@ == stamp_shape_of(part, constraint, new[k].placement) by {
        assert(candidates_view(new).len() == new.len());
        assert(candidates_view(old).len() == old.len());
        assert(candidates_view(new)[k] == (new[k].placement, new[k].mask@));
        if k < old.len() {
            assert(candidates_view(old)[k] == (old[k].placement, old[k].mask@));
            assert(candidates_view(new)[k] == candidates_view(old)[k]);
        } else {
            let j = k - old.len();
            assert(located_view(locs)[j] == (locs[j].0, locs[j].1@));
            assert(candidates_view(new)[k] == flagged(located_view(locs), flag)[j]);
        }
    }
}

/// Appends each location of `locs` as a placement marked `compressed`.
fn push_candidates(out: &mut Vec<Candidate>, locs: &Vec<(Location, Mask)>, compressed: bool)
    requires
        masks_wf(locs@),
        candidates_wf(old(out)@),
    ensures
        candidates_wf(final(out)@),
        candidates_view(final(out)@) == candidates_view(old(out)@) + flagged(located_view(locs@), compressed),
{
    let ghost start = candidates_view(out@);
    let ghost added = flagged(located_view(locs@), compressed);
    let mut k: usize = 0;
    while k < locs.len()
        invariant
            masks_wf(locs@),
            candidates_wf(out@),
            start == candidates_view(old(out)@),
            added == flagged(located_view(locs@), compressed),
            k <= locs@.len(),
            candidates_view(out@) == start + added.take(k as int),
        decreases locs@.len() - k,
    {
        let placement = Placement { loc: locs[k].0, compressed };
        let mask = locs[k].1.clone_mask();
        let cand = Candidate { placement, mask };
        let ghost before = out@;
        out.push(cand);
        proof {
            assert(locs@[k as int].1.wf());
            assert(added[k as int] == (placement, mask@));
            assert(added.take(k + 1) =~= added.take(k as int).push((placement, mask@)));
            assert(candidates_view(out@) =~= candidates_view(before).push((placement, mask@)));
        }
        k += 1;
    }
    assert(added.take(k as int) =~= added);
}

/// Every candidate placement of `part` on an empty grid under `constraint`,
/// with the turned mask that each stamps.
pub fn candidates_for_part(part: &Part, grid_settings: GridSettings, constraint: &Constraint, spinnable: bool) -> (r: Vec<Candidate>)
    requires
        part.wf(),
        settings_fit(grid_settings),
    ensures
        candidates_wf(r@),
        candidates_shaped(r@, *part, *constraint),
        candidates_view(r@) == candidates_spec(*part, grid_settings, *constraint, spinnable),
{
    let mut out: Vec<Candidate> = Vec::new();
    let compressed = placement_locations_and_masks_for_mask(
        &part.compressed_mask,
        part.is_solid,
        grid_settings,
        constraint.on_command_line,
        constraint.bugged,
        spinnable,
    );
    assert(candidates_view(out@) =~= Seq::empty());
    match constraint.compressed {
        Some(flag) => {
            let ghost before = out@;
            push_candidates(&mut out, &compressed, flag);
            proof {
                lemma_push_shaped(before, out@, compressed@, flag, *part, *constraint);
            }
            assert(candidates_view(out@) =~= candidates_spec(*part, grid_settings, *constraint, spinnable));
        },
        None => {
            let ghost before = out@;
            push_candidates(&mut out, &compressed, true);
            proof {
                lemma_push_shaped(before, out@, compressed@, true, *part, *constraint);
            }
            if same_mask(&part.compressed_mask, &part.uncompressed_mask) {
                assert(candidates_view(out@) =~= candidates_spec(*part, grid_settings, *constraint, spinnable));
            } else {
                let uncompressed = placement_locations_and_masks_for_mask(
                    &part.uncompressed_mask,
                    part.is_solid,
                    grid_settings,
                    constraint.on_command_line,
                    constraint.bugged,
                    spinnable,
                );
                let ghost before2 = out@;
                push_candidates(&mut out, &uncompressed, false);
                proof {
                    lemma_push_shaped(before2, out@, uncompressed@, false, *part, *constraint);
                }
                assert(candidates_view(out@) =~= candidates_spec(*part, grid_settings, *constraint, spinnable));
            }
        },
    }
    out
}

} // verus!
