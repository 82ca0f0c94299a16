//! Masks: rectangular binary images, their quarter turns and their trimmed forms.

use crate::arith::{lemma_index_in_bounds, lemma_join_index, lemma_split_index};
use vstd::prelude::*;

verus! {

/// The mathematical content of a mask: its dimensions and its cells in
/// row-major order.
pub struct Shape {
    pub height: nat,
    pub width: nat,
    pub cells: Seq<bool>,
}

impl Shape {
    pub open spec fn wf(self) -> bool {
        self.cells.len() == self.height * self.width
    }

    /// The cell in row `y` and column `x`.
    pub open spec fn at(self, y: int, x: int) -> bool {
        self.cells[y * self.width + x]
    }

    /// Whether any cell is set.
    pub open spec fn any_set(self) -> bool {
        exists|k: int| 0 <= k < self.cells.len() && self.cells[k]
    }
}

/// The quarter turn clockwise: the transpose with each row reversed, so that
/// the cell in row `i` and column `j` comes from row `height - 1 - j` and
/// column `i`.
pub open spec fn rot90(s: Shape) -> Shape {
    Shape {
        height: s.width,
        width: s.height,
        cells: Seq::new(
            s.width * s.height,
            |k: int| s.cells[(s.height - 1 - k % (s.height as int)) * s.width + k / (s.height as int)],
        ),
    }
}

/// `n` quarter turns clockwise.
pub open spec fn rotated(s: Shape, n: nat) -> Shape
    decreases n,
{
    if n == 0 {
        s
    } else {
        rot90(rotated(s, (n - 1) as nat))
    }
}

/// The smallest row of a set cell among the first `n` cells, or `height`
/// when none of them is set.
pub open spec fn min_row(s: Shape, n: int) -> int
    decreases n,
{
    if n <= 0 {
        s.height as int
    } else {
        let m = min_row(s, n - 1);
        let y = (n - 1) / (s.width as int);
        if s.cells[n - 1] && y < m {
            y
        } else {
            m
        }
    }
}

/// The largest row of a set cell among the first `n` cells, or `-1`.
pub open spec fn max_row(s: Shape, n: int) -> int
    decreases n,
{
    if n <= 0 {
        -1
    } else {
        let m = max_row(s, n - 1);
        let y = (n - 1) / (s.width as int);
        if s.cells[n - 1] && y > m {
            y
        } else {
            m
        }
    }
}

/// The smallest column of a set cell among the first `n` cells, or `width`.
pub open spec fn min_col(s: Shape, n: int) -> int
    decreases n,
{
    if n <= 0 {
        s.width as int
    } else {
        let m = min_col(s, n - 1);
        let x = (n - 1) % (s.width as int);
        if s.cells[n - 1] && x < m {
            x
        } else {
            m
        }
    }
}

/// The largest column of a set cell among the first `n` cells, or `-1`.
pub open spec fn max_col(s: Shape, n: int) -> int
    decreases n,
{
    if n <= 0 {
        -1
    } else {
        let m = max_col(s, n - 1);
        let x = (n - 1) % (s.width as int);
        if s.cells[n - 1] && x > m {
            x
        } else {
            m
        }
    }
}

/// The sub-rectangle of `s` with rows `top .. top + height` and columns
/// `left .. left + width`.
pub open spec fn crop(s: Shape, top: int, left: int, height: nat, width: nat) -> Shape {
    Shape {
        height,
        width,
        cells: Seq::new(
            height * width,
            |k: int| s.at(top + k / (width as int), left + k % (width as int)),
        ),
    }
}

/// The smallest sub-rectangle that holds every set cell; a mask with no set
/// cell is its own trimmed form.
pub open spec fn trim(s: Shape) -> Shape {
    let n = s.cells.len() as int;
    if min_row(s, n) >= s.height {
        s
    } else {
        crop(
            s,
            min_row(s, n),
            min_col(s, n),
            (max_row(s, n) + 1 - min_row(s, n)) as nat,
            (max_col(s, n) + 1 - min_col(s, n)) as nat,
        )
    }
}

/// The half turn: the cells in reverse order.
pub open spec fn flipped(s: Shape) -> Shape {
    Shape {
        height: s.height,
        width: s.width,
        cells: Seq::new(s.cells.len(), |k: int| s.cells[s.cells.len() - 1 - k]),
    }
}

/// Two quarter turns make the half turn.
pub proof fn lemma_rot90_twice(s: Shape)
    requires
        s.wf(),
    ensures
        rot90(s).wf(),
        rot90(rot90(s)) == flipped(s),
{
    let h = s.height as int;
    let w = s.width as int;
    let r = rot90(s);
    assert(w * h == h * w) by (nonlinear_arith);
    let rr = rot90(r);
    assert forall|k: int| 0 <= k < h * w implies rr.cells[k] == flipped(s).cells[k] by {
        lemma_split_index(k, h, w);
        let i = k / w;
        let j = k % w;
        lemma_index_in_bounds(w - 1 - j, i, w, h);
        lemma_join_index(w - 1 - j, i, h);
        assert((h - 1 - i) * w + (w - 1 - j) == h * w - 1 - (i * w + j)) by (nonlinear_arith);
    }
    assert(rr.cells =~= flipped(s).cells);
}

/// Four quarter turns give back the mask.
pub proof fn lemma_rotation_period(s: Shape)
    requires
        s.wf(),
    ensures
        rotated(s, 4) == s,
{
    lemma_rot90_twice(s);
    let f = flipped(s);
    assert(rotated(s, 0) == s);
    assert(rotated(s, 1) == rot90(s));
    assert(rotated(s, 2) == f);
    lemma_rot90_twice(f);
    assert(flipped(f).cells =~= s.cells);
    assert(rotated(s, 3) == rot90(rotated(s, 2)));
    assert(rotated(s, 4) == rot90(rot90(rotated(s, 2))));
}

/// Turning `n` quarter turns is turning `n % 4` of them.
pub proof fn lemma_rotated_mod(s: Shape, n: nat)
    requires
        s.wf(),
    ensures
        rotated(s, n) == rotated(s, n % 4),
        rotated(s, n).wf(),
    decreases n,
{
    if n < 4 {
        lemma_rotated_wf(s, n);
    } else {
        lemma_rotated_mod(s, (n - 4) as nat);
        lemma_rotated_wf(s, (n - 4) as nat);
        lemma_rotated_add(s, (n - 4) as nat, 4);
        lemma_rotation_period(rotated(s, (n - 4) as nat));
        assert(n % 4 == (n - 4) as nat % 4);
    }
}

proof fn lemma_rotated_wf(s: Shape, n: nat)
    requires
        s.wf(),
    ensures
        rotated(s, n).wf(),
    decreases n,
{
    if n > 0 {
        lemma_rotated_wf(s, (n - 1) as nat);
        let p = rotated(s, (n - 1) as nat);
        assert(p.width * p.height == p.height * p.width) by (nonlinear_arith);
    }
}

proof fn lemma_rotated_add(s: Shape, a: nat, b: nat)
    ensures
        rotated(s, a + b) == rotated(rotated(s, a), b),
    decreases b,
{
    if b > 0 {
        lemma_rotated_add(s, a, (b - 1) as nat);
        assert((a + b - 1) as nat == a + (b - 1) as nat);
    }
}

/// Among the first `n` cells, the row and column bounds enclose every set
/// cell, each bound is reached by a set cell, and with no set cell the
/// bounds keep their starting values.
proof fn lemma_extrema(s: Shape, n: int)
    requires
        s.wf(),
        0 <= n <= s.cells.len(),
    ensures
        forall|k: int|
            0 <= k < n && #[trigger] s.cells[k] ==> min_row(s, n) <= k / (s.width as int) <= max_row(s, n)
                && min_col(s, n) <= k % (s.width as int) <= max_col(s, n),
        (exists|k: int| 0 <= k < n && s.cells[k]) ==> {
            &&& exists|k: int| 0 <= k < n && s.cells[k] && k / (s.width as int) == min_row(s, n)
            &&& exists|k: int| 0 <= k < n && s.cells[k] && k / (s.width as int) == max_row(s, n)
            &&& exists|k: int| 0 <= k < n && s.cells[k] && k % (s.width as int) == min_col(s, n)
            &&& exists|k: int| 0 <= k < n && s.cells[k] && k % (s.width as int) == max_col(s, n)
        },
        !(exists|k: int| 0 <= k < n && s.cells[k]) ==> min_row(s, n) == s.height && max_row(s, n) == -1
            && min_col(s, n) == s.width && max_col(s, n) == -1,
    decreases n,
{
    if n > 0 {
        lemma_extrema(s, n - 1);
        lemma_split_index(n - 1, s.height as int, s.width as int);
        if exists|k: int| 0 <= k < n - 1 && s.cells[k] {
        } else if s.cells[n - 1] {
            assert(forall|k: int| 0 <= k < n && #[trigger] s.cells[k] ==> k == n - 1);
        }
    }
}

/// A set cell of `s` at row `y` and column `x` inside the bounds shows up in
/// its crop at row `y - top` and column `x - left`.
proof fn lemma_crop_at(s: Shape, top: int, left: int, height: nat, width: nat, y: int, x: int)
    requires
        top <= y < top + height,
        left <= x < left + width,
    ensures
        crop(s, top, left, height, width).cells.len() == height * width,
        0 <= (y - top) * width + (x - left) < height * width,
        crop(s, top, left, height, width).cells[(y - top) * width + (x - left)] == s.at(y, x),
{
    lemma_index_in_bounds(y - top, x - left, height as int, width as int);
    lemma_join_index(y - top, x - left, width as int);
}

/// Trimming twice trims no further than trimming once.
pub proof fn lemma_trim_idempotent(s: Shape)
    requires
        s.wf(),
    ensures
        trim(trim(s)) == trim(s),
{
    let n = s.cells.len() as int;
    if min_row(s, n) >= s.height {
        return;
    }
    lemma_extrema(s, n);
    let w = s.width as int;
    let top = min_row(s, n);
    let left = min_col(s, n);
    let th = (max_row(s, n) + 1 - top) as nat;
    let tw = (max_col(s, n) + 1 - left) as nat;
    let t = trim(s);
    assert(exists|k: int| 0 <= k < n && s.cells[k]);
    assert(t == crop(s, top, left, th, tw));
    let tn = t.cells.len() as int;
    assert(t.wf());
    // Each bound of `s` is reached by a set cell, which lands on the matching
    // edge of `t`.
    let k0 = choose|k: int| 0 <= k < n && s.cells[k] && k / w == min_row(s, n);
    let k1 = choose|k: int| 0 <= k < n && s.cells[k] && k / w == max_row(s, n);
    let k2 = choose|k: int| 0 <= k < n && s.cells[k] && k % w == min_col(s, n);
    let k3 = choose|k: int| 0 <= k < n && s.cells[k] && k % w == max_col(s, n);
    lemma_split_index(k0, s.height as int, w);
    lemma_split_index(k1, s.height as int, w);
    lemma_split_index(k2, s.height as int, w);
    lemma_split_index(k3, s.height as int, w);
    assert(s.cells[k0] && s.cells[k1] && s.cells[k2] && s.cells[k3]);
    lemma_crop_at(s, top, left, th, tw, k0 / w, k0 % w);
    lemma_crop_at(s, top, left, th, tw, k1 / w, k1 % w);
    lemma_crop_at(s, top, left, th, tw, k2 / w, k2 % w);
    lemma_crop_at(s, top, left, th, tw, k3 / w, k3 % w);
    let j0 = (k0 / w - top) * tw + (k0 % w - left);
    let j1 = (k1 / w - top) * tw + (k1 % w - left);
    let j2 = (k2 / w - top) * tw + (k2 % w - left);
    let j3 = (k3 / w - top) * tw + (k3 % w - left);
    lemma_join_index(k0 / w - top, k0 % w - left, tw as int);
    lemma_join_index(k1 / w - top, k1 % w - left, tw as int);
    lemma_join_index(k2 / w - top, k2 % w - left, tw as int);
    lemma_join_index(k3 / w - top, k3 % w - left, tw as int);
    assert(t.cells[j0] && t.cells[j1] && t.cells[j2] && t.cells[j3]);
    lemma_extrema(t, tn);
    let tt = tw as int;
    // The bounds of `t` are its own edges.
    let a = choose|k: int| 0 <= k < tn && t.cells[k] && k / tt == min_row(t, tn);
    let b = choose|k: int| 0 <= k < tn && t.cells[k] && k / tt == max_row(t, tn);
    let c = choose|k: int| 0 <= k < tn && t.cells[k] && k % tt == min_col(t, tn);
    let d = choose|k: int| 0 <= k < tn && t.cells[k] && k % tt == max_col(t, tn);
    lemma_split_index(a, th as int, tt);
    lemma_split_index(b, th as int, tt);
    lemma_split_index(c, th as int, tt);
    lemma_split_index(d, th as int, tt);
    assert(min_row(t, tn) == 0);
    assert(max_row(t, tn) == th - 1);
    assert(min_col(t, tn) == 0);
    assert(max_col(t, tn) == tw - 1);
    let tt2 = trim(t);
    assert(tt2 == crop(t, 0, 0, th, tw));
    assert forall|k: int| 0 <= k < tn implies tt2.cells[k] == t.cells[k] by {
        lemma_split_index(k, th as int, tt);
    }
    assert(tt2.cells =~= t.cells);
}

/// A rectangular binary image, its cells in row-major order.
#[derive(Debug, Clone, PartialEq, Eq)]
pub struct Mask {
    pub cells: Vec<bool>,
    pub height: usize,
    pub width: usize,
}

impl View for Mask {
    type V = Shape;

    open spec fn view(&self) -> Shape {
        Shape { height: self.height as nat, width: self.width as nat, cells: self.cells@ }
    }
}

impl Mask {
    /// Holds `height * width` cells.
    pub open spec fn wf(&self) -> bool {
        self@.wf()
    }

    /// The quarter turn clockwise.
    pub fn rotate90(&self) -> (r: Mask)
        requires
            self.wf(),
        ensures
            r.wf(),
            r@ == rot90(self@),
    {
        let h = self.height;
        let w = self.width;
        if self.cells.len() == 0 {
            let r = Mask { cells: Vec::new(), height: w, width: h };
            assert(r@.cells =~= rot90(self@).cells);
            return r;
        }
        let t = transposed(&self.cells, h, w);
        let mut cells: Vec<bool> = Vec::new();
        proof {
            assert(w * h == h * w) by (nonlinear_arith);
        }
        let n = self.cells.len();
        let mut k: usize = 0;
        while k < n
            invariant
                n == w * h,
                n == h * w,
                t@.len() == h * w,
                self.wf(),
                h == self.height,
                w == self.width,
                k <= n,
                forall|i: int, j: int|
                    0 <= i < w && 0 <= j < h ==> #[trigger] t@[i * h + j] == self@.at(j, i),
                cells@.len() == k,
                forall|m: int|
                    0 <= m < k ==> cells@[m] == rot90(self@).cells[m],
            decreases n - k,
        {
            proof {
                lemma_split_index(k as int, w as int, h as int);
            }
            let i = k / h;
            let j = k % h;
            proof {
                lemma_index_in_bounds(i as int, (h - 1 - j) as int, w as int, h as int);
            }
            let v = t[i * h + (h - 1 - j)];
            cells.push(v);
            k += 1;
        }
        let r = Mask { cells, height: w, width: h };
        assert(r@.cells =~= rot90(self@).cells);
        r
    }

    /// `num` quarter turns clockwise.
    pub fn rotate(&self, num: usize) -> (r: Mask)
        requires
            self.wf(),
        ensures
            r.wf(),
            r@ == rotated(self@, num as nat),
    {
        proof {
            lemma_rotated_mod(self@, num as nat);
        }
        let turns = num % 4;
        let mut mask = self.clone_mask();
        let mut i: usize = 0;
        while i < turns
            invariant
                turns < 4,
                i <= turns,
                self.wf(),
                mask.wf(),
                mask@ == rotated(self@, i as nat),
            decreases turns - i,
        {
            mask = mask.rotate90();
            i += 1;
        }
        mask
    }

    /// The smallest sub-rectangle that holds every set cell; a mask with no
    /// set cell is returned as it is.
    pub fn trimmed(&self) -> (r: Mask)
        requires
            self.wf(),
        ensures
            r.wf(),
            r@ == trim(self@),
    {
        let h = self.height;
        let w = self.width;
        let n = self.cells.len();
        let ghost s = self@;
        let mut top: usize = h;
        let mut bottom: usize = 0;
        let mut left: usize = w;
        let mut right: usize = 0;
        let mut k: usize = 0;
        while k < n
            invariant
                s == self@,
                s.wf(),
                n == s.cells.len(),
                h == s.height,
                w == s.width,
                k <= n,
                top as int == min_row(s, k as int),
                bottom as int == max_row(s, k as int) + 1,
                left as int == min_col(s, k as int),
                right as int == max_col(s, k as int) + 1,
                top <= h,
                bottom <= h,
                left <= w,
                right <= w,
                (top == h) == (bottom == 0),
                (top == h) == (left == w),
                (top == h) == (right == 0),
                top < h ==> top < bottom && left < right,
            decreases n - k,
        {
            proof {
                lemma_split_index(k as int, h as int, w as int);
            }
            let y = k / w;
            let x = k % w;
            if self.cells[k] {
                if y < top {
                    top = y;
                }
                if y + 1 > bottom {
                    bottom = y + 1;
                }
                if x < left {
                    left = x;
                }
                if x + 1 > right {
                    right = x + 1;
                }
            }
            k += 1;
        }
        if top >= h {
            return self.clone_mask();
        }
        let th = bottom - top;
        let tw = right - left;
        proof {
            assert(th * tw <= h * w) by (nonlinear_arith)
                requires
                    th <= h,
                    tw <= w,
            ;
        }
        let tn = th * tw;
        let ghost t = crop(s, top as int, left as int, th as nat, tw as nat);
        let mut cells: Vec<bool> = Vec::new();
        let mut i: usize = 0;
        while i < tn
            invariant
                s == self@,
                s.wf(),
                n == s.cells.len(),
                h == s.height,
                w == s.width,
                top < bottom <= h,
                left < right <= w,
                th == bottom - top,
                tw == right - left,
                tn == th * tw,
                t == crop(s, top as int, left as int, th as nat, tw as nat),
                i <= tn,
                cells@ == t.cells.take(i as int),
            decreases tn - i,
        {
            proof {
                lemma_split_index(i as int, th as int, tw as int);
            }
            let y = top + i / tw;
            let x = left + i % tw;
            proof {
                lemma_index_in_bounds(y as int, x as int, h as int, w as int);
            }
            cells.push(self.cells[y * w + x]);
            i += 1;
            assert(cells@ =~= t.cells.take(i as int));
        }
        assert(cells@ =~= t.cells);
        Mask { cells, height: th, width: tw }
    }

    /// A copy of the mask.
    pub fn clone_mask(&self) -> (r: Mask)
        ensures
            r@ == self@,
    {
        let mut cells: Vec<bool> = Vec::new();
        let mut k: usize = 0;
        while k < self.cells.len()
            invariant
                k <= self.cells@.len(),
                cells@ == self.cells@.take(k as int),
            decreases self.cells@.len() - k,
        {
            cells.push(self.cells[k]);
            k += 1;
            assert(cells@ =~= self.cells@.take(k as int));
        }
        assert(cells@ =~= self.cells@);
        Mask { cells, height: self.height, width: self.width }
    }
}

/// Relies on ndarray's `ArrayView2::from_shape`, `t`, `as_standard_layout`
/// and `into_raw_vec`: the transpose of a row-major `height` × `width`
/// matrix, itself laid out row-major. `from_shape` refuses a shape with no
/// cells whose other side exceeds `isize::MAX`, so the matrix must have a
/// cell.
#[verifier::external_body]
fn transposed(cells: &Vec<bool>, height: usize, width: usize) -> (r: Vec<bool>)
    requires
        cells@.len() == height * width,
        height * width > 0,
    ensures
        r@.len() == height * width,
        forall|i: int, j: int|
            0 <= i < width && 0 <= j < height ==> #[trigger] r@[i * height + j] == cells@[j
                * width + i],
{
    let view = ndarray::ArrayView2::from_shape((height, width), cells.as_slice()).unwrap();
    view.t().as_standard_layout().into_owned().into_raw_vec()
}

} // verus!
