//! The ground signal grid: flat row-major cells, with a sentinel marking
//! the cells no ray reached, and the homogenization that lets such a cell
//! borrow from the nearest reached cell within a few rings.
use vstd::prelude::*;
use vstd::arithmetic::div_mod::{lemma_fundamental_div_mod, lemma_fundamental_div_mod_converse};

verus! {

/// Rings searched around an unreached cell before it is given up.
pub const MAX_RING: usize = 2;

/// Decibels taken off a borrowed value for each ring of distance.
pub const RING_FALLOFF_DB: u32 = 3;

/// Where an unreached cell borrows its value from: the flat index of a
/// reached cell and the ring (Chebyshev distance) on which it was found.
#[derive(Clone, Copy, Debug, PartialEq, Eq, Structural)]
pub struct Fill {
    pub source: usize,
    pub ring: usize,
}

impl Fill {
    /// Decibels to subtract from the source's value.
    pub fn penalty_db(&self) -> (r: u32)
        requires
            self.ring <= MAX_RING,
        ensures
            r == RING_FALLOFF_DB * self.ring,
    {
        RING_FALLOFF_DB * (self.ring as u32)
    }
}

/// Flat index of the cell in column `cx`, row `cy` of a grid with rows of `width`.
pub open spec fn cell_at(width: int, cx: int, cy: int) -> int {
    cx + cy * width
}

pub open spec fn abs(a: int) -> int {
    if a < 0 { -a } else { a }
}

/// Chebyshev distance between cells (ax, ay) and (bx, by).
pub open spec fn chebyshev(ax: int, ay: int, bx: int, by: int) -> int {
    if abs(ax - bx) < abs(ay - by) { abs(ay - by) } else { abs(ax - bx) }
}

/// Ring `j` around (x, y) lies wholly inside a grid of `n` cells in rows of `width`.
pub open spec fn ring_fits(width: int, n: int, x: int, y: int, j: int) -> bool {
    &&& j <= x
    &&& j <= y
    &&& x + j < width
    &&& cell_at(width, x + j, y + j) < n
}

/// Column and row of position `k` (0 <= k < 8j) on ring `j` around (x, y):
/// from the lower-left corner right along the bottom edge, up the right
/// edge, left along the top edge, and down the left edge.
pub open spec fn ring_cell(x: int, y: int, j: int, k: int) -> (int, int) {
    if k < 2 * j {
        (x - j + k, y - j)
    } else if k < 4 * j {
        (x + j, y - j + (k - 2 * j))
    } else if k < 6 * j {
        (x + j - (k - 4 * j), y + j)
    } else {
        (x - j, y + j - (k - 6 * j))
    }
}

pub open spec fn ring_index(width: int, x: int, y: int, j: int, k: int) -> int {
    cell_at(width, ring_cell(x, y, j, k).0, ring_cell(x, y, j, k).1)
}

/// The first position at or after `k` on ring `j` whose cell was reached.
pub open spec fn first_reached(
    sentinel: Seq<bool>,
    width: int,
    x: int,
    y: int,
    j: int,
    k: int,
) -> Option<int>
    decreases 8 * j - k,
{
    if k < 0 || k >= 8 * j {
        None
    } else if !sentinel[ring_index(width, x, y, j, k)] {
        Some(k)
    } else {
        first_reached(sentinel, width, x, y, j, k + 1)
    }
}

/// Rings `j`, `j + 1`, ... up to `MAX_RING` searched in turn, stopping at the
/// first one that leaves the grid.
pub open spec fn search_rings(sentinel: Seq<bool>, width: int, x: int, y: int, j: int) -> Option<
    Fill,
>
    decreases MAX_RING + 1 - j,
{
    if j < 1 || j > MAX_RING || !ring_fits(width, sentinel.len() as int, x, y, j) {
        None
    } else {
        match first_reached(sentinel, width, x, y, j, 0) {
            Some(k) => Some(Fill { source: ring_index(width, x, y, j, k) as usize, ring: j as usize }),
            None => search_rings(sentinel, width, x, y, j + 1),
        }
    }
}

/// What homogenization does with cell `i`: nothing for a reached cell; for an
/// unreached one, the first reached cell on the nearest ring that has one.
pub open spec fn fill_of(sentinel: Seq<bool>, width: int, i: int) -> Option<Fill> {
    if sentinel[i] {
        search_rings(sentinel, width, i % width, i / width, 1)
    } else {
        None
    }
}

/// Flat index of ground cell (x, y) in a grid of `len` cells with rows of
/// `width`, or `None` for a cell that falls outside the grid.
pub fn cell_index(x: usize, y: usize, width: usize, len: usize) -> (r: Option<usize>)
    ensures
        r == (if cell_at(width as int, x as int, y as int) < len {
            Some(cell_at(width as int, x as int, y as int) as usize)
        } else {
            None
        }),
{
    match y.checked_mul(width) {
        Some(row) => match row.checked_add(x) {
            Some(c) => {
                if c < len {
                    Some(c)
                } else {
                    None
                }
            },
            None => None,
        },
        None => {
            assert(y * width >= 0) by (nonlinear_arith);
            None
        },
    }
}

proof fn lemma_cell_split(width: int, i: int)
    requires
        width > 0,
        i >= 0,
    ensures
        0 <= i % width < width,
        0 <= i / width,
        i == cell_at(width, i % width, i / width),
{
    lemma_fundamental_div_mod(i, width);
    assert(width * (i / width) == (i / width) * width) by (nonlinear_arith);
    assert(0 <= i / width) by (nonlinear_arith)
        requires
            width > 0,
            i >= 0,
    ;
}

/// Every cell of a ring that fits lies inside the grid, in the column range
/// of the grid, at Chebyshev distance `j` from the centre.
proof fn lemma_ring_cell_bounds(width: int, n: int, x: int, y: int, j: int, k: int)
    requires
        width > 0,
        0 <= x,
        1 <= j,
        0 <= k < 8 * j,
        ring_fits(width, n, x, y, j),
    ensures
        0 <= ring_cell(x, y, j, k).0 < width,
        0 <= ring_cell(x, y, j, k).1 <= y + j,
        y + j < n,
        0 <= ring_index(width, x, y, j, k) < n,
        chebyshev(ring_cell(x, y, j, k).0, ring_cell(x, y, j, k).1, x, y) == j,
{
    let cx = ring_cell(x, y, j, k).0;
    let cy = ring_cell(x, y, j, k).1;
    assert(0 <= cy * width <= (y + j) * width) by (nonlinear_arith)
        requires
            0 <= cy <= y + j,
            width > 0,
    ;
    assert(y + j <= (y + j) * width) by (nonlinear_arith)
        requires
            0 <= y + j,
            width > 0,
    ;
}

proof fn lemma_first_reached_none(s: Seq<bool>, w: int, x: int, y: int, j: int, k: int)
    requires
        0 <= k,
        forall|m: int| k <= m < 8 * j ==> s[#[trigger] ring_index(w, x, y, j, m)],
    ensures
        first_reached(s, w, x, y, j, k) is None,
    decreases 8 * j - k,
{
    if k < 8 * j {
        lemma_first_reached_none(s, w, x, y, j, k + 1);
    }
}

proof fn lemma_first_reached_some(s: Seq<bool>, w: int, x: int, y: int, j: int, k: int)
    ensures
        first_reached(s, w, x, y, j, k) matches Some(m) ==> k <= m < 8 * j && !s[ring_index(
            w,
            x,
            y,
            j,
            m,
        )],
    decreases 8 * j - k,
{
    if 0 <= k < 8 * j {
        lemma_first_reached_some(s, w, x, y, j, k + 1);
    }
}

proof fn lemma_search_rings_reached(s: Seq<bool>, w: int, x: int, y: int, j: int)
    requires
        w > 0,
        0 <= x,
        s.len() <= usize::MAX,
    ensures
        search_rings(s, w, x, y, j) matches Some(f) ==> {
            &&& f.source < s.len()
            &&& !s[f.source as int]
            &&& j <= f.ring <= MAX_RING
            &&& 1 <= f.ring
            &&& chebyshev(f.source as int % w, f.source as int / w, x, y) == f.ring
        },
    decreases MAX_RING + 1 - j,
{
    if 1 <= j <= MAX_RING && ring_fits(w, s.len() as int, x, y, j) {
        lemma_first_reached_some(s, w, x, y, j, 0);
        if let Some(k) = first_reached(s, w, x, y, j, 0) {
            lemma_ring_cell_bounds(w, s.len() as int, x, y, j, k);
            let cx = ring_cell(x, y, j, k).0;
            let cy = ring_cell(x, y, j, k).1;
            lemma_fundamental_div_mod_converse(ring_index(w, x, y, j, k), w, cy, cx);
        } else {
            lemma_search_rings_reached(s, w, x, y, j + 1);
        }
    }
}

/// A fill always borrows from a reached cell inside the grid, on a ring
/// between 1 and `MAX_RING`, and that ring is the Chebyshev distance between
/// the two cells.
pub proof fn lemma_fill_source_reached(sentinel: Seq<bool>, width: int, i: int)
    requires
        width > 0,
        0 <= i < sentinel.len() <= usize::MAX,
    ensures
        fill_of(sentinel, width, i) matches Some(f) ==> {
            &&& f.source < sentinel.len()
            &&& !sentinel[f.source as int]
            &&& 1 <= f.ring <= MAX_RING
            &&& chebyshev(
                f.source as int % width,
                f.source as int / width,
                i % width,
                i / width,
            ) == f.ring
        },
{
    lemma_cell_split(width, i);
    lemma_search_rings_reached(sentinel, width, i % width, i / width, 1);
}

/// A cell that no ray reached, and that has no reached cell within
/// `MAX_RING` rings of it inside the grid, keeps the sentinel: homogenization
/// gives it no fill.
pub proof fn lemma_isolated_cell_stays(sentinel: Seq<bool>, width: int, i: int)
    requires
        width > 0,
        0 <= i < sentinel.len(),
        sentinel[i],
        forall|cx: int, cy: int|
            0 <= cx < width && 0 <= cy && #[trigger] cell_at(width, cx, cy) < sentinel.len()
                && 1 <= chebyshev(cx, cy, i % width, i / width) <= MAX_RING ==> sentinel[cell_at(
                width,
                cx,
                cy,
            )],
    ensures
        fill_of(sentinel, width, i) is None,
{
    lemma_cell_split(width, i);
    lemma_rings_all_unreached(sentinel, width, i % width, i / width, 1);
}

proof fn lemma_rings_all_unreached(s: Seq<bool>, w: int, x: int, y: int, j: int)
    requires
        w > 0,
        0 <= x,
        1 <= j,
        forall|cx: int, cy: int|
            0 <= cx < w && 0 <= cy && #[trigger] cell_at(w, cx, cy) < s.len() && 1 <= chebyshev(
                cx,
                cy,
                x,
                y,
            ) <= MAX_RING ==> s[cell_at(w, cx, cy)],
    ensures
        search_rings(s, w, x, y, j) is None,
    decreases MAX_RING + 1 - j,
{
    let n = s.len() as int;
    if j <= MAX_RING && ring_fits(w, n, x, y, j) {
        assert forall|m: int| 0 <= m < 8 * j implies s[#[trigger] ring_index(w, x, y, j, m)] by {
            lemma_ring_cell_bounds(w, n, x, y, j, m);
        }
        lemma_first_reached_none(s, w, x, y, j, 0);
        lemma_rings_all_unreached(s, w, x, y, j + 1);
    }
}

/// Once no cell is left unreached, homogenization changes nothing: it gives
/// no cell a fill, so running it again on such a grid leaves it as it is.
pub proof fn lemma_settled_grid_unchanged(sentinel: Seq<bool>, width: int)
    requires
        width > 0,
        forall|i: int| 0 <= i < sentinel.len() ==> !#[trigger] sentinel[i],
    ensures
        forall|i: int| 0 <= i < sentinel.len() ==> #[trigger] fill_of(sentinel, width, i) is None,
{
}

/// Whether ring `j` around cell `i` = (x, y) lies inside the grid.
fn ring_fits_exec(n: usize, width: usize, i: usize, x: usize, y: usize, j: usize) -> (r: bool)
    requires
        width > 0,
        i < n,
        1 <= j <= MAX_RING,
        x == i % width,
        y == i / width,
    ensures
        r == ring_fits(width as int, n as int, x as int, y as int, j as int),
{
    proof {
        lemma_cell_split(width as int, i as int);
    }
    if j > x || j > y || j >= width - x {
        return false;
    }
    proof {
        assert(j * width <= y * width) by (nonlinear_arith)
            requires
                j <= y,
                width > 0,
        ;
        assert((y + j) * width == y * width + j * width) by (nonlinear_arith);
    }
    j + j * width < n - i
}

/// The index of the first reached cell on ring `j` around cell `i`, if any.
fn first_reached_on_ring(sentinel: &Vec<bool>, width: usize, i: usize, j: usize) -> (r: Option<
    usize,
>)
    requires
        width > 0,
        i < sentinel.len(),
        1 <= j <= MAX_RING,
        ring_fits(
            width as int,
            sentinel.len() as int,
            (i % width) as int,
            (i / width) as int,
            j as int,
        ),
    ensures
        r == (match first_reached(
            sentinel@,
            width as int,
            (i % width) as int,
            (i / width) as int,
            j as int,
            0,
        ) {
            Some(k) => Some(
                ring_index(width as int, (i % width) as int, (i / width) as int, j as int, k) as usize,
            ),
            None => None,
        }),
{
    let x = i % width;
    let y = i / width;
    let ghost s = sentinel@;
    let ghost w = width as int;
    let n = sentinel.len();
    let mut k: usize = 0;
    while k < 8 * j
        invariant
            n == s.len(),
            0 <= k <= 8 * j,
            1 <= j <= MAX_RING,
            width > 0,
            x == i % width,
            y == i / width,
            s == sentinel@,
            w == width as int,
            ring_fits(w, s.len() as int, x as int, y as int, j as int),
            first_reached(s, w, x as int, y as int, j as int, 0) == first_reached(
                s,
                w,
                x as int,
                y as int,
                j as int,
                k as int,
            ),
        decreases 8 * j - k,
    {
        proof {
            lemma_ring_cell_bounds(w, s.len() as int, x as int, y as int, j as int, k as int);
        }
        let cx: usize;
        let cy: usize;
        if k < 2 * j {
            cx = x - j + k;
            cy = y - j;
        } else if k < 4 * j {
            cx = x + j;
            cy = y - j + (k - 2 * j);
        } else if k < 6 * j {
            cx = x + j - (k - 4 * j);
            cy = y + j;
        } else {
            cx = x - j;
            cy = y + j - (k - 6 * j);
        }
        let idx = cx + cy * width;
        if !sentinel[idx] {
            return Some(idx);
        }
        k = k + 1;
    }
    None
}

/// What homogenization does with cell `i` of a grid with rows of `width`,
/// where `sentinel` marks the cells that no ray reached.
pub fn fill_for_cell(sentinel: &Vec<bool>, width: usize, i: usize) -> (r: Option<Fill>)
    requires
        width > 0,
        i < sentinel.len(),
    ensures
        r == fill_of(sentinel@, width as int, i as int),
{
    if !sentinel[i] {
        return None;
    }
    let x = i % width;
    let y = i / width;
    let ghost s = sentinel@;
    let ghost w = width as int;
    let mut j: usize = 1;
    while j <= MAX_RING
        invariant
            1 <= j <= MAX_RING + 1,
            width > 0,
            i < sentinel.len(),
            x == i % width,
            y == i / width,
            s == sentinel@,
            w == width as int,
            fill_of(s, w, i as int) == search_rings(s, w, x as int, y as int, j as int),
        decreases MAX_RING + 1 - j,
    {
        if !ring_fits_exec(sentinel.len(), width, i, x, y, j) {
            return None;
        }
        match first_reached_on_ring(sentinel, width, i, j) {
            Some(idx) => {
                return Some(Fill { source: idx, ring: j });
            },
            None => {},
        }
        j = j + 1;
    }
    None
}

/// The homogenization of a whole grid, one entry per cell, all read from the
/// same snapshot of which cells were reached: the reached cell each
/// unreached cell borrows from, if any.
pub fn homogenize_plan(sentinel: &Vec<bool>, width: usize) -> (plan: Vec<Option<Fill>>)
    requires
        width > 0,
    ensures
        plan@.len() == sentinel@.len(),
        forall|i: int|
            0 <= i < sentinel@.len() ==> #[trigger] plan@[i] == fill_of(sentinel@, width as int, i),
        forall|i: int|
            0 <= i < sentinel@.len() ==> (#[trigger] plan@[i] matches Some(f) ==> {
                &&& f.source < sentinel@.len()
                &&& !sentinel@[f.source as int]
                &&& 1 <= f.ring <= MAX_RING
            }),
{
    let mut plan: Vec<Option<Fill>> = Vec::new();
    let mut i: usize = 0;
    while i < sentinel.len()
        invariant
            width > 0,
            i <= sentinel@.len(),
            plan@.len() == i,
            forall|c: int| 0 <= c < i ==> #[trigger] plan@[c] == fill_of(sentinel@, width as int, c),
            forall|c: int|
                0 <= c < i ==> (#[trigger] plan@[c] matches Some(f) ==> {
                    &&& f.source < sentinel@.len()
                    &&& !sentinel@[f.source as int]
                    &&& 1 <= f.ring <= MAX_RING
                }),
        decreases sentinel@.len() - i,
    {
        let f = fill_for_cell(sentinel, width, i);
        proof {
            lemma_fill_source_reached(sentinel@, width as int, i as int);
        }
        plan.push(f);
        i = i + 1;
    }
    plan
}

} // verus!
