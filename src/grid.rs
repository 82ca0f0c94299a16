//! Grids of cells and the stamping of masks onto them.

use crate::arith::{lemma_index_in_bounds, lemma_join_index, lemma_split_index};
use crate::mask::{Mask, Shape};
use vstd::prelude::*;

verus! {

/// A signed position on the grid; it may lie outside it.
#[derive(Debug, Clone, Copy, PartialEq, Eq, Structural)]
pub struct Position {
    pub x: isize,
    pub y: isize,
}

/// A position together with a number of quarter turns.
#[derive(Debug, Clone, Copy, PartialEq, Eq, Structural)]
pub struct Location {
    pub position: Position,
    pub rotation: usize,
}

/// One cell of a grid.
#[derive(Debug, Clone, Copy, PartialEq, Eq, Structural)]
pub enum Cell {
    Empty,
    Placed(usize),
    Forbidden,
}

/// The dimensions of a grid, whether its corners are forbidden, and the row
/// of the command line.
#[derive(Debug, Clone, Copy)]
pub struct GridSettings {
    pub height: usize,
    pub width: usize,
    pub has_oob: bool,
    pub command_line_row: usize,
}

/// A row-major matrix of cells.
#[derive(Debug)]
pub struct Grid {
    pub height: usize,
    pub width: usize,
    pub has_oob: bool,
    pub command_line_row: usize,
    pub cells: Vec<Cell>,
}

/// Whether index `k` of a `height` × `width` matrix is one of its corners.
pub open spec fn is_corner(k: int, height: int, width: int) -> bool {
    (k / width == 0 || k / width == height - 1) && (k % width == 0 || k % width == width - 1)
}

/// The cells of a fresh grid: the corners forbidden when the settings ask
/// for it, every other cell empty.
pub open spec fn empty_cells(s: GridSettings) -> Seq<Cell> {
    Seq::new(
        (s.height * s.width) as nat,
        |k: int|
            if s.has_oob && is_corner(k, s.height as int, s.width as int) {
                Cell::Forbidden
            } else {
                Cell::Empty
            },
    )
}

/// Whether mask coordinate `c` lies in the part of the mask that may be
/// stamped along an axis of length `extent` at offset `p`: from `-p` on for
/// a negative offset, else from 0, and below `extent` less a positive
/// offset.
pub open spec fn in_region(extent: int, p: int, c: int) -> bool {
    let src = if p < 0 {
        -p
    } else {
        0
    };
    let dst = if p < 0 {
        0
    } else {
        p
    };
    src <= c < extent - dst
}

/// Whether mask `m` placed with its top left cell at (`px`, `py`) keeps every
/// set cell inside the region that may be stamped and over an empty cell.
pub open spec fn fits(cells: Seq<Cell>, height: int, width: int, m: Shape, px: int, py: int) -> bool {
    forall|j: int|
        0 <= j < m.cells.len() && #[trigger] m.cells[j] ==> {
            let my = j / (m.width as int);
            let mx = j % (m.width as int);
            in_region(height, py, my) && in_region(width, px, mx) && cells[(my + py) * width + (mx + px)]
                == Cell::Empty
        }
}

/// What becomes of cell (`y`, `x`) when mask `m` is stamped at (`px`, `py`).
pub open spec fn stamp_cell(old: Cell, m: Shape, px: int, py: int, y: int, x: int, idx: usize) -> Cell {
    let my = y - py;
    let mx = x - px;
    if 0 <= my < m.height && 0 <= mx < m.width && m.at(my, mx) {
        Cell::Placed(idx)
    } else {
        old
    }
}

/// The cells after mask `m` is stamped at (`px`, `py`) for requirement `idx`.
pub open spec fn stamped(cells: Seq<Cell>, width: int, m: Shape, px: int, py: int, idx: usize) -> Seq<Cell> {
    Seq::new(cells.len(), |k: int| stamp_cell(cells[k], m, px, py, k / width, k % width, idx))
}

impl Grid {
    pub open spec fn wf(&self) -> bool {
        self.cells@.len() == self.height * self.width
    }

    pub open spec fn spec_settings(&self) -> GridSettings {
        GridSettings {
            height: self.height,
            width: self.width,
            has_oob: self.has_oob,
            command_line_row: self.command_line_row,
        }
    }

    /// An empty grid; with `has_oob` its four corners are forbidden.
    pub fn new(settings: GridSettings) -> (r: Grid)
        requires
            settings.height * settings.width <= usize::MAX,
        ensures
            r.wf(),
            r.height == settings.height,
            r.width == settings.width,
            r.has_oob == settings.has_oob,
            r.command_line_row == settings.command_line_row,
            r.cells@ == empty_cells(settings),
    {
        let h = settings.height;
        let w = settings.width;
        let n = h * w;
        let mut cells: Vec<Cell> = Vec::new();
        let mut k: usize = 0;
        while k < n
            invariant
                n == h * w,
                h == settings.height,
                w == settings.width,
                k <= n,
                cells@ == empty_cells(settings).take(k as int),
            decreases n - k,
        {
            proof {
                lemma_split_index(k as int, h as int, w as int);
            }
            let y = k / w;
            let x = k % w;
            let corner = (y == 0 || y == h - 1) && (x == 0 || x == w - 1);
            if settings.has_oob && corner {
                cells.push(Cell::Forbidden);
            } else {
                cells.push(Cell::Empty);
            }
            k += 1;
            assert(cells@ =~= empty_cells(settings).take(k as int));
        }
        assert(cells@ =~= empty_cells(settings));
        Grid { height: h, width: w, has_oob: settings.has_oob, command_line_row: settings.command_line_row, cells }
    }

    /// The settings that describe this grid.
    pub fn settings(&self) -> (r: GridSettings)
        ensures
            r == self.spec_settings(),
    {
        GridSettings {
            height: self.height,
            width: self.width,
            has_oob: self.has_oob,
            command_line_row: self.command_line_row,
        }
    }

    /// Stamps `mask` with its top left cell at `pos`, marking each cell under
    /// a set mask cell as placed by `requirement_index`. Fails, leaving the
    /// grid as it is, when a set mask cell would fall outside the grid or on
    /// a cell that is not empty.
    pub fn place(&self, mask: &Mask, pos: Position, requirement_index: usize) -> (r: Option<Grid>)
        requires
            self.wf(),
            mask.wf(),
        ensures
            r is None <==> !fits(self.cells@, self.height as int, self.width as int, mask@, pos.x as int, pos.y as int),
            r matches Some(g) ==> {
                &&& g.wf()
                &&& g.height == self.height
                &&& g.width == self.width
                &&& g.has_oob == self.has_oob
                &&& g.command_line_row == self.command_line_row
                &&& g.cells@ == stamped(self.cells@, self.width as int, mask@, pos.x as int, pos.y as int, requirement_index)
            },
    {
        let h = self.height;
        let w = self.width;
        let mh = mask.height;
        let mw = mask.width;
        let ghost m = mask@;
        let ghost px = pos.x as int;
        let ghost py = pos.y as int;
        let mn = mask.cells.len();
        let n = self.cells.len();
        let mut j: usize = 0;
        while j < mn
            invariant
                self.wf(),
                mask.wf(),
                m == mask@,
                px == pos.x as int,
                py == pos.y as int,
                h == self.height,
                w == self.width,
                mh == mask.height,
                mw == mask.width,
                mn == m.cells.len(),
                n == self.cells@.len(),
                j <= mn,
                forall|j2: int|
                    0 <= j2 < j && #[trigger] m.cells[j2] ==> {
                        let my = j2 / (m.width as int);
                        let mx = j2 % (m.width as int);
                        in_region(h as int, py, my) && in_region(w as int, px, mx) && self.cells@[(my + py) * w + (mx
                            + px)] == Cell::Empty
                    },
            decreases mn - j,
        {
            if mask.cells[j] {
                proof {
                    lemma_split_index(j as int, mh as int, mw as int);
                }
                let my = (j / mw) as i128;
                let mx = (j % mw) as i128;
                let py = pos.y as i128;
                let px = pos.x as i128;
                let src_y: i128 = if py < 0 { -py } else { 0 };
                let dst_y: i128 = if py < 0 { 0 } else { py };
                let src_x: i128 = if px < 0 { -px } else { 0 };
                let dst_x: i128 = if px < 0 { 0 } else { px };
                if !(src_y <= my && my < h as i128 - dst_y && src_x <= mx && mx < w as i128 - dst_x) {
                    return None;
                }
                let y = my + py;
                let x = mx + px;
                proof {
                    lemma_index_in_bounds(y as int, x as int, h as int, w as int);
                }
                let idx = (y as usize) * w + (x as usize);
                match self.cells[idx] {
                    Cell::Empty => {},
                    _ => {
                        return None;
                    },
                }
            }
            j += 1;
        }
        let ghost target = stamped(self.cells@, w as int, m, px, py, requirement_index);
        let mut cells: Vec<Cell> = Vec::new();
        let mut k: usize = 0;
        while k < n
            invariant
                self.wf(),
                mask.wf(),
                m == mask@,
                px == pos.x as int,
                py == pos.y as int,
                h == self.height,
                w == self.width,
                mh == mask.height,
                mw == mask.width,
                n == self.cells@.len(),
                mn == m.cells.len(),
                target == stamped(self.cells@, w as int, m, px, py, requirement_index),
                k <= n,
                cells@ == target.take(k as int),
            decreases n - k,
        {
            proof {
                lemma_split_index(k as int, h as int, w as int);
            }
            let y = (k / w) as i128;
            let x = (k % w) as i128;
            let my = y - pos.y as i128;
            let mx = x - pos.x as i128;
            let mut c = self.cells[k];
            if 0 <= my && my < mh as i128 && 0 <= mx && mx < mw as i128 {
                proof {
                    lemma_index_in_bounds(my as int, mx as int, mh as int, mw as int);
                }
                if mask.cells[(my as usize) * mw + (mx as usize)] {
                    c = Cell::Placed(requirement_index);
                }
            }
            cells.push(c);
            k += 1;
            assert(cells@ =~= target.take(k as int));
        }
        assert(cells@ =~= target);
        Some(Grid { height: h, width: w, has_oob: self.has_oob, command_line_row: self.command_line_row, cells })
    }
}

} // verus!
