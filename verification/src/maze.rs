use vstd::prelude::*;
use vstd::slice::SliceAdditionalExecFns;

verus! {

// Grid cells are stored row-major: cell (x, y) sits at index `y * w + x`.
// A cell value of 0 is an open cell, 1 is a wall.

pub open spec fn grid_wf(cells: Seq<u8>, w: int, h: int) -> bool {
    &&& 3 <= w
    &&& 3 <= h
    &&& w % 2 == 1
    &&& h % 2 == 1
    &&& cells.len() == w * h
    &&& forall|i: int| 0 <= i < cells.len() ==> cells[i] == 0 || cells[i] == 1
}

pub open spec fn in_bounds(w: int, h: int, x: int, y: int) -> bool {
    0 <= x < w && 0 <= y < h
}

pub open spec fn open_at(cells: Seq<u8>, w: int, x: int, y: int) -> bool {
    cells[y * w + x] == 0
}

/// A cell on the outer frame of the grid.
pub open spec fn on_border(w: int, h: int, x: int, y: int) -> bool {
    x == 0 || y == 0 || x == w - 1 || y == h - 1
}

pub open spec fn border_walls(cells: Seq<u8>, w: int, h: int) -> bool {
    forall|x: int, y: int|
        in_bounds(w, h, x, y) && on_border(w, h, x, y) ==> !open_at(cells, w, x, y)
}

/// The lattice pillars: a cell with two even coordinates is never a room
/// center (odd-odd) nor a wall slot between two centers (one odd
/// coordinate), so a perfect maze leaves it walled.
pub open spec fn even_even_walls(cells: Seq<u8>, w: int, h: int) -> bool {
    forall|x: int, y: int|
        in_bounds(w, h, x, y) && x % 2 == 0 && y % 2 == 0 ==> !open_at(cells, w, x, y)
}

/// Number of open cells in the whole grid.
pub open spec fn count_open(cells: Seq<u8>) -> int
    decreases cells.len(),
{
    if cells.len() == 0 {
        0
    } else {
        count_open(cells.drop_last()) + if cells.last() == 0 {
            1int
        } else {
            0int
        }
    }
}

pub proof fn lemma_count_open_nonneg(cells: Seq<u8>)
    ensures
        0 <= count_open(cells) <= cells.len(),
    decreases cells.len(),
{
    if cells.len() > 0 {
        lemma_count_open_nonneg(cells.drop_last());
    }
}

pub proof fn lemma_count_open_update(cells: Seq<u8>, i: int, v: u8)
    requires
        0 <= i < cells.len(),
    ensures
        count_open(cells.update(i, v)) == count_open(cells) - (if cells[i] == 0 {
            1int
        } else {
            0int
        }) + (if v == 0 {
            1int
        } else {
            0int
        }),
    decreases cells.len(),
{
    let upd = cells.update(i, v);
    if i == cells.len() - 1 {
        assert(upd.drop_last() =~= cells.drop_last());
    } else {
        assert(upd.drop_last() =~= cells.drop_last().update(i, v));
        lemma_count_open_update(cells.drop_last(), i, v);
    }
}

/// Row-major indices are injective over in-bounds coordinates.
pub proof fn lemma_idx_inj(w: int, x1: int, y1: int, x2: int, y2: int)
    by (nonlinear_arith)
    requires
        w >= 1,
        0 <= x1 < w,
        0 <= x2 < w,
        0 <= y1,
        0 <= y2,
        y1 * w + x1 == y2 * w + x2,
    ensures
        x1 == x2 && y1 == y2,
{
}

/// In-bounds coordinates index inside the grid vector.
pub proof fn lemma_idx_bound(w: int, h: int, x: int, y: int)
    by (nonlinear_arith)
    requires
        w >= 1,
        h >= 1,
        in_bounds(w, h, x, y),
    ensures
        0 <= y * w + x < w * h,
{
}

pub fn cell_is_open(cells: &Vec<u8>, w: usize, x: usize, y: usize) -> (r: bool)
    requires
        w >= 1,
        y * w + x < cells@.len(),
    ensures
        r == open_at(cells@, w as int, x as int, y as int),
{
    let n = cells.len();
    cells[y * w + x] == 0
}

// ---------------------------------------------------------------------------
// The logical cell lattice: (w-1)/2 x (h-1)/2 rooms, each centered on the odd
// grid coordinate (2*cx+1, 2*cy+1); the wall cell between two adjacent rooms
// sits halfway between their centers.
// ---------------------------------------------------------------------------

pub open spec fn lat_w(w: int) -> int {
    (w - 1) / 2
}

pub open spec fn lat_h(h: int) -> int {
    (h - 1) / 2
}

pub open spec fn lat_in(cw: int, ch: int, cx: int, cy: int) -> bool {
    0 <= cx < cw && 0 <= cy < ch
}

pub open spec fn lat_visited(v: Seq<bool>, cw: int, cx: int, cy: int) -> bool {
    v[cy * cw + cx]
}

// ---------------------------------------------------------------------------
// Reachability through open cells, by orthogonal steps.
// ---------------------------------------------------------------------------

pub open spec fn adjacent(ax: int, ay: int, bx: int, by: int) -> bool {
    (ax == bx && (ay == by + 1 || ay + 1 == by)) || (ay == by && (ax == bx + 1 || ax + 1 == bx))
}

/// A walk over in-bounds, open cells, each step orthogonal.
pub open spec fn is_path(cells: Seq<u8>, w: int, h: int, p: Seq<(int, int)>) -> bool {
    &&& p.len() >= 1
    &&& forall|i: int|
        0 <= i < p.len() ==> in_bounds(w, h, (#[trigger] p[i]).0, p[i].1) && open_at(
            cells,
            w,
            p[i].0,
            p[i].1,
        )
    &&& forall|i: int|
        0 <= i < p.len() - 1 ==> adjacent((#[trigger] p[i]).0, p[i].1, p[i + 1].0, p[i + 1].1)
}

/// (x, y) can be reached from (sx, sy) walking over open cells.
pub open spec fn reaches(cells: Seq<u8>, w: int, h: int, sx: int, sy: int, x: int, y: int) -> bool {
    exists|p: Seq<(int, int)>|
        #[trigger] is_path(cells, w, h, p) && p.first() == (sx, sy) && p.last() == (x, y)
}

pub proof fn lemma_reach_self(cells: Seq<u8>, w: int, h: int, x: int, y: int)
    requires
        in_bounds(w, h, x, y),
        open_at(cells, w, x, y),
    ensures
        reaches(cells, w, h, x, y, x, y),
{
    let p: Seq<(int, int)> = seq![(x, y)];
    assert(is_path(cells, w, h, p));
    assert(p.first() == (x, y) && p.last() == (x, y));
}

pub proof fn lemma_reach_step(
    cells: Seq<u8>,
    w: int,
    h: int,
    sx: int,
    sy: int,
    px: int,
    py: int,
    x: int,
    y: int,
)
    requires
        reaches(cells, w, h, sx, sy, px, py),
        in_bounds(w, h, x, y),
        open_at(cells, w, x, y),
        adjacent(px, py, x, y),
    ensures
        reaches(cells, w, h, sx, sy, x, y),
{
    let p = choose|p: Seq<(int, int)>|
        #[trigger] is_path(cells, w, h, p) && p.first() == (sx, sy) && p.last() == (px, py);
    let q = p.push((x, y));
    assert(q.last() == (x, y));
    assert(forall|i: int| 0 <= i < p.len() ==> q[i] == p[i]);
    assert(q[p.len() as int - 1] == (px, py));
    assert(is_path(cells, w, h, q));
    assert(q.first() == (sx, sy));
}

/// Opening cells never disconnects anything: any walk valid on the old grid is
/// valid on a grid whose open cells are a superset of the old ones.
pub proof fn lemma_open_monotone_preserves_reach(
    c1: Seq<u8>,
    c2: Seq<u8>,
    w: int,
    h: int,
    sx: int,
    sy: int,
    x: int,
    y: int,
)
    requires
        forall|ax: int, ay: int|
            in_bounds(w, h, ax, ay) && open_at(c1, w, ax, ay) ==> open_at(c2, w, ax, ay),
        reaches(c1, w, h, sx, sy, x, y),
    ensures
        reaches(c2, w, h, sx, sy, x, y),
{
    let p = choose|p: Seq<(int, int)>|
        #[trigger] is_path(c1, w, h, p) && p.first() == (sx, sy) && p.last() == (x, y);
    assert forall|i: int| 0 <= i < p.len() implies in_bounds(w, h, (#[trigger] p[i]).0, p[i].1)
        && open_at(c2, w, p[i].0, p[i].1) by {
        assert(in_bounds(w, h, p[i].0, p[i].1) && open_at(c1, w, p[i].0, p[i].1));
    }
    assert(is_path(c2, w, h, p));
}

// ---------------------------------------------------------------------------
// Counting helpers for the generator's bookkeeping.
// ---------------------------------------------------------------------------

pub open spec fn count_true(s: Seq<bool>) -> int
    decreases s.len(),
{
    if s.len() == 0 {
        0
    } else {
        count_true(s.drop_last()) + if s.last() {
            1int
        } else {
            0int
        }
    }
}

pub proof fn lemma_count_true_bounds(s: Seq<bool>)
    ensures
        0 <= count_true(s) <= s.len(),
    decreases s.len(),
{
    if s.len() > 0 {
        lemma_count_true_bounds(s.drop_last());
    }
}

pub proof fn lemma_count_true_update(s: Seq<bool>, i: int, v: bool)
    requires
        0 <= i < s.len(),
    ensures
        count_true(s.update(i, v)) == count_true(s) - (if s[i] {
            1int
        } else {
            0int
        }) + (if v {
            1int
        } else {
            0int
        }),
    decreases s.len(),
{
    let upd = s.update(i, v);
    if i == s.len() - 1 {
        assert(upd.drop_last() =~= s.drop_last());
    } else {
        assert(upd.drop_last() =~= s.drop_last().update(i, v));
        lemma_count_true_update(s.drop_last(), i, v);
    }
}

pub proof fn lemma_count_true_full(s: Seq<bool>)
    requires
        forall|i: int| 0 <= i < s.len() ==> s[i],
    ensures
        count_true(s) == s.len(),
    decreases s.len(),
{
    if s.len() > 0 {
        lemma_count_true_full(s.drop_last());
    }
}

proof fn lemma_count_true_const(n: nat, v: bool)
    ensures
        count_true(Seq::new(n, |i: int| v)) == if v {
            n as int
        } else {
            0int
        },
    decreases n,
{
    if n > 0 {
        assert(Seq::new(n, |i: int| v).drop_last() =~= Seq::new((n - 1) as nat, |i: int| v));
        lemma_count_true_const((n - 1) as nat, v);
    }
}

proof fn lemma_count_open_const_wall(n: nat)
    ensures
        count_open(Seq::new(n, |i: int| 1u8)) == 0,
    decreases n,
{
    if n > 0 {
        assert(Seq::new(n, |i: int| 1u8).drop_last() =~= Seq::new((n - 1) as nat, |i: int| 1u8));
        lemma_count_open_const_wall((n - 1) as nat);
    }
}

// ---------------------------------------------------------------------------
// The randomized depth-first backtracker.
// ---------------------------------------------------------------------------

/// All lattice neighbors of (cx, cy) are visited.
pub open spec fn nbrs_visited(v: Seq<bool>, cw: int, ch: int, cx: int, cy: int) -> bool {
    &&& cx > 0 ==> lat_visited(v, cw, cx - 1, cy)
    &&& cy > 0 ==> lat_visited(v, cw, cx, cy - 1)
    &&& cx + 1 < cw ==> lat_visited(v, cw, cx + 1, cy)
    &&& cy + 1 < ch ==> lat_visited(v, cw, cx, cy + 1)
}

pub open spec fn on_stack_at(st: Seq<(usize, usize)>, ax: int, ay: int) -> bool {
    exists|k: int| 0 <= k < st.len() && (#[trigger] st[k]).0 as int == ax && st[k].1 as int == ay
}

/// Distinct in-bounds coordinates have distinct row-major indices.
pub proof fn lemma_idx_ne(w: int, x1: int, y1: int, x2: int, y2: int)
    requires
        w >= 1,
        0 <= x1 < w,
        0 <= x2 < w,
        0 <= y1,
        0 <= y2,
        x1 != x2 || y1 != y2,
    ensures
        y1 * w + x1 != y2 * w + x2,
{
    if y1 * w + x1 == y2 * w + x2 {
        lemma_idx_inj(w, x1, y1, x2, y2);
    }
}

/// An unvisited room is still fully sealed: its center and its four
/// surrounding wall cells are all walls.
pub open spec fn sealed(grid: Seq<u8>, w: int, cx: int, cy: int) -> bool {
    &&& grid[(2 * cy + 1) * w + (2 * cx + 1)] == 1
    &&& grid[(2 * cy + 1) * w + 2 * cx] == 1
    &&& grid[(2 * cy + 1) * w + (2 * cx + 2)] == 1
    &&& grid[2 * cy * w + (2 * cx + 1)] == 1
    &&& grid[(2 * cy + 2) * w + (2 * cx + 1)] == 1
}

/// A candidate entry (nx, ny, wx, wy): an unvisited lattice neighbor of
/// (cx, cy) together with the grid coordinates of the wall cell between them.
pub open spec fn cand_ok(
    v: Seq<bool>,
    cw: int,
    ch: int,
    cx: int,
    cy: int,
    c: (usize, usize, usize, usize),
) -> bool {
    &&& lat_in(cw, ch, c.0 as int, c.1 as int)
    &&& !lat_visited(v, cw, c.0 as int, c.1 as int)
    &&& ((c.0 == cx && (c.1 + 1 == cy || cy + 1 == c.1)) || (c.1 == cy && (c.0 + 1 == cx || cx + 1
        == c.0)))
    &&& c.2 == cx + c.0 + 1
    &&& c.3 == cy + c.1 + 1
}

/// A vector of `n` copies of `v`.
fn filled_u8(n: usize, v: u8) -> (r: Vec<u8>)
    ensures
        r@ == Seq::new(n as nat, |i: int| v),
{
    let mut r: Vec<u8> = Vec::new();
    let mut i: usize = 0;
    while i < n
        invariant
            i <= n,
            r@ =~= Seq::new(i as nat, |j: int| v),
        decreases n - i,
    {
        r.push(v);
        i = i + 1;
    }
    proof {
        assert(r@ =~= Seq::new(n as nat, |i: int| v));
    }
    r
}

/// A vector of `n` copies of `v`.
fn filled_bool(n: usize, v: bool) -> (r: Vec<bool>)
    ensures
        r@ == Seq::new(n as nat, |i: int| v),
{
    let mut r: Vec<bool> = Vec::new();
    let mut i: usize = 0;
    while i < n
        invariant
            i <= n,
            r@ =~= Seq::new(i as nat, |j: int| v),
        decreases n - i,
    {
        r.push(v);
        i = i + 1;
    }
    proof {
        assert(r@ =~= Seq::new(n as nat, |i: int| v));
    }
    r
}

/// Marks room (cx, cy) visited, opens its center cell, and pushes it onto the
/// visit stack.
pub fn push_cell_fn(
    grid: &mut Vec<u8>,
    visited: &mut Vec<bool>,
    w: usize,
    cw: usize,
    cx: usize,
    cy: usize,
    stack: &mut Vec<(usize, usize)>,
)
    requires
        w >= 1,
        cy * cw + cx < old(visited)@.len(),
        (2 * cy + 1) * w + (2 * cx + 1) < old(grid)@.len(),
    ensures
        final(visited)@ == old(visited)@.update((cy * cw + cx) as int, true),
        final(grid)@ == old(grid)@.update(((2 * cy + 1) * w + (2 * cx + 1)) as int, 0u8),
        final(stack)@ == old(stack)@.push((cx, cy)),
{
    let nv = visited.len();
    let ng = grid.len();
    proof {
        assert((2 * (cy as int) + 1) <= (2 * (cy as int) + 1) * (w as int) && 2 * (cx as int) + 1
            <= (2 * (cy as int) + 1) * (w as int) + (2 * (cx as int) + 1)) by (nonlinear_arith)
            requires
                w as int >= 1,
                cx as int >= 0,
                cy as int >= 0,
        ;
    }
    visited.set(cy * cw + cx, true);
    grid.set((2 * cy + 1) * w + (2 * cx + 1), 0);
    stack.push((cx, cy));
}

proof fn lemma_all_visited(v: Seq<bool>, cw: int, ch: int, cx: int, cy: int)
    requires
        v.len() == cw * ch,
        cw >= 1,
        ch >= 1,
        lat_visited(v, cw, 0, 0),
        forall|ax: int, ay: int|
            lat_in(cw, ch, ax, ay) && #[trigger] lat_visited(v, cw, ax, ay) ==> nbrs_visited(
                v,
                cw,
                ch,
                ax,
                ay,
            ),
        lat_in(cw, ch, cx, cy),
    ensures
        lat_visited(v, cw, cx, cy),
    decreases cx + cy,
{
    if cx > 0 {
        lemma_all_visited(v, cw, ch, cx - 1, cy);
        assert(nbrs_visited(v, cw, ch, cx - 1, cy));
    } else if cy > 0 {
        lemma_all_visited(v, cw, ch, cx, cy - 1);
        assert(nbrs_visited(v, cw, ch, cx, cy - 1));
    }
}

/// Every index of the lattice vector corresponds to in-lattice coordinates.
proof fn lemma_lat_coords(cw: int, ch: int, i: int)
    by (nonlinear_arith)
    requires
        cw >= 1,
        ch >= 1,
        0 <= i < cw * ch,
    ensures
        lat_in(cw, ch, i % cw, i / cw),
        (i / cw) * cw + (i % cw) == i,
{
}

/// The grid/visited bookkeeping that the generator maintains: cells are 0/1
/// with a walled border; unvisited rooms are sealed; visited rooms have an
/// open center reachable from room (0, 0)'s center at (1, 1); and the open
/// cell count is one visited center plus one knocked wall per visited room,
/// minus the root's missing wall.
pub open spec fn gen_inv_cells(
    grid: Seq<u8>,
    visited: Seq<bool>,
    w: int,
    h: int,
    cw: int,
    ch: int,
) -> bool {
    &&& grid.len() == w * h
    &&& visited.len() == cw * ch
    &&& forall|i: int| 0 <= i < grid.len() ==> grid[i] == 0 || grid[i] == 1
    &&& border_walls(grid, w, h)
    &&& even_even_walls(grid, w, h)
    &&& forall|ax: int, ay: int|
        lat_in(cw, ch, ax, ay) && !lat_visited(visited, cw, ax, ay) ==> #[trigger] sealed(
            grid,
            w,
            ax,
            ay,
        )
    &&& forall|ax: int, ay: int|
        lat_in(cw, ch, ax, ay) && #[trigger] lat_visited(visited, cw, ax, ay) ==> open_at(
            grid,
            w,
            2 * ax + 1,
            2 * ay + 1,
        )
    &&& forall|ax: int, ay: int|
        lat_in(cw, ch, ax, ay) && #[trigger] lat_visited(visited, cw, ax, ay) ==> reaches(
            grid,
            w,
            h,
            1,
            1,
            2 * ax + 1,
            2 * ay + 1,
        )
    &&& count_open(grid) == 2 * count_true(visited) - 1
}

/// The wall cell between the current room and a chosen unvisited neighbor is
/// interior and still closed, as is the neighbor's center.
proof fn lemma_wall_facts(
    grid0: Seq<u8>,
    visited0: Seq<bool>,
    w: int,
    h: int,
    cw: int,
    ch: int,
    cx: int,
    cy: int,
    nx: int,
    ny: int,
)
    requires
        w == 2 * cw + 1,
        h == 2 * ch + 1,
        cw >= 1,
        ch >= 1,
        gen_inv_cells(grid0, visited0, w, h, cw, ch),
        lat_in(cw, ch, cx, cy),
        lat_in(cw, ch, nx, ny),
        (nx == cx && (ny + 1 == cy || cy + 1 == ny)) || (ny == cy && (nx + 1 == cx || cx + 1
            == nx)),
        !lat_visited(visited0, cw, nx, ny),
    ensures
        1 <= cx + nx + 1 <= w - 2,
        1 <= cy + ny + 1 <= h - 2,
        grid0[(cy + ny + 1) * w + (cx + nx + 1)] == 1,
        grid0[(2 * ny + 1) * w + (2 * nx + 1)] == 1,
        (cy + ny + 1) * w + (cx + nx + 1) != (2 * ny + 1) * w + (2 * nx + 1),
{
    assert(sealed(grid0, w, nx, ny));
    if ny == cy && nx + 1 == cx {
        assert((cy + ny + 1) * w + (cx + nx + 1) == (2 * ny + 1) * w + (2 * nx + 2));
    } else if ny == cy && cx + 1 == nx {
        assert((cy + ny + 1) * w + (cx + nx + 1) == (2 * ny + 1) * w + 2 * nx);
    } else if nx == cx && ny + 1 == cy {
        assert((cy + ny + 1) * w + (cx + nx + 1) == (2 * ny + 2) * w + (2 * nx + 1));
    } else {
        assert((cy + ny + 1) * w + (cx + nx + 1) == 2 * ny * w + (2 * nx + 1));
    }
    lemma_idx_ne(w, cx + nx + 1, cy + ny + 1, 2 * nx + 1, 2 * ny + 1);
}

/// Knocking down the wall to an unvisited neighbor and opening that
/// neighbor's center re-establishes all of the generator's bookkeeping.
#[verifier::rlimit(60)]
proof fn lemma_generate_step(
    grid0: Seq<u8>,
    grid1: Seq<u8>,
    grid2: Seq<u8>,
    visited0: Seq<bool>,
    visited2: Seq<bool>,
    w: int,
    h: int,
    cw: int,
    ch: int,
    cx: int,
    cy: int,
    nx: int,
    ny: int,
)
    requires
        w == 2 * cw + 1,
        h == 2 * ch + 1,
        cw >= 1,
        ch >= 1,
        gen_inv_cells(grid0, visited0, w, h, cw, ch),
        lat_in(cw, ch, cx, cy),
        lat_in(cw, ch, nx, ny),
        (nx == cx && (ny + 1 == cy || cy + 1 == ny)) || (ny == cy && (nx + 1 == cx || cx + 1
            == nx)),
        lat_visited(visited0, cw, cx, cy),
        !lat_visited(visited0, cw, nx, ny),
        grid1 == grid0.update((cy + ny + 1) * w + (cx + nx + 1), 0u8),
        grid2 == grid1.update((2 * ny + 1) * w + (2 * nx + 1), 0u8),
        visited2 == visited0.update(ny * cw + nx, true),
    ensures
        gen_inv_cells(grid2, visited2, w, h, cw, ch),
        count_true(visited2) == count_true(visited0) + 1,
        lat_visited(visited2, cw, nx, ny),
{
    let wi = (cy + ny + 1) * w + (cx + nx + 1);
    let ci = (2 * ny + 1) * w + (2 * nx + 1);
    let nidx = ny * cw + nx;
    lemma_wall_facts(grid0, visited0, w, h, cw, ch, cx, cy, nx, ny);
    lemma_lat_idx_bound(cw, ch, nx, ny);
    lemma_lat_idx_bound(cw, ch, cx, cy);
    lemma_idx_bound(w, h, cx + nx + 1, cy + ny + 1);
    lemma_idx_bound(w, h, 2 * nx + 1, 2 * ny + 1);
    lemma_count_open_update(grid0, wi, 0u8);
    lemma_count_open_update(grid1, ci, 0u8);
    lemma_count_true_update(visited0, nidx, true);
    assert(grid1[ci] == grid0[ci]);
    assert(count_open(grid2) == count_open(grid0) + 2);
    assert(count_true(visited2) == count_true(visited0) + 1);
    // the neighbor is now visited; everything visited before stays visited
    assert(lat_visited(visited2, cw, nx, ny));
    // the border is untouched: both written cells are interior
    assert forall|bx: int, by: int|
        in_bounds(w, h, bx, by) && on_border(w, h, bx, by) implies !open_at(grid2, w, bx, by) by {
        lemma_idx_bound(w, h, bx, by);
        if by * w + bx == wi {
            lemma_idx_inj(w, bx, by, cx + nx + 1, cy + ny + 1);
        }
        if by * w + bx == ci {
            lemma_idx_inj(w, bx, by, 2 * nx + 1, 2 * ny + 1);
        }
        assert(grid2[by * w + bx] == grid0[by * w + bx]);
    }
    // pillar cells have two even coordinates; both written cells have an
    // odd one, so the pillars stay walled
    assert forall|bx: int, by: int|
        in_bounds(w, h, bx, by) && bx % 2 == 0 && by % 2 == 0 implies !open_at(
        grid2,
        w,
        bx,
        by,
    ) by {
        lemma_idx_bound(w, h, bx, by);
        if by * w + bx == wi {
            lemma_idx_inj(w, bx, by, cx + nx + 1, cy + ny + 1);
        }
        if by * w + bx == ci {
            lemma_idx_inj(w, bx, by, 2 * nx + 1, 2 * ny + 1);
        }
        assert(grid2[by * w + bx] == grid0[by * w + bx]);
    }
    // rooms that are still unvisited are still sealed
    assert forall|ax: int, ay: int|
        lat_in(cw, ch, ax, ay) && !lat_visited(visited2, cw, ax, ay) implies sealed(
        grid2,
        w,
        ax,
        ay,
    ) by {
        lemma_lat_idx_bound(cw, ch, ax, ay);
        lemma_idx_bound(w, h, 2 * ax + 1, 2 * ay + 1);
        lemma_idx_bound(w, h, 2 * ax, 2 * ay + 1);
        lemma_idx_bound(w, h, 2 * ax + 2, 2 * ay + 1);
        lemma_idx_bound(w, h, 2 * ax + 1, 2 * ay);
        lemma_idx_bound(w, h, 2 * ax + 1, 2 * ay + 2);
        if ay * cw + ax == nidx {
            lemma_idx_inj(cw, ax, ay, nx, ny);
        }
        assert(!lat_visited(visited0, cw, ax, ay));
        assert(sealed(grid0, w, ax, ay));
        assert(!(ax == cx && ay == cy));
        assert(!(ax == nx && ay == ny));
        if (2 * ay + 1) * w + (2 * ax + 1) == wi {
            lemma_idx_inj(w, 2 * ax + 1, 2 * ay + 1, cx + nx + 1, cy + ny + 1);
        }
        if (2 * ay + 1) * w + (2 * ax + 1) == ci {
            lemma_idx_inj(w, 2 * ax + 1, 2 * ay + 1, 2 * nx + 1, 2 * ny + 1);
        }
        if (2 * ay + 1) * w + 2 * ax == wi {
            lemma_idx_inj(w, 2 * ax, 2 * ay + 1, cx + nx + 1, cy + ny + 1);
        }
        if (2 * ay + 1) * w + 2 * ax == ci {
            lemma_idx_inj(w, 2 * ax, 2 * ay + 1, 2 * nx + 1, 2 * ny + 1);
        }
        if (2 * ay + 1) * w + (2 * ax + 2) == wi {
            lemma_idx_inj(w, 2 * ax + 2, 2 * ay + 1, cx + nx + 1, cy + ny + 1);
        }
        if (2 * ay + 1) * w + (2 * ax + 2) == ci {
            lemma_idx_inj(w, 2 * ax + 2, 2 * ay + 1, 2 * nx + 1, 2 * ny + 1);
        }
        if 2 * ay * w + (2 * ax + 1) == wi {
            lemma_idx_inj(w, 2 * ax + 1, 2 * ay, cx + nx + 1, cy + ny + 1);
        }
        if 2 * ay * w + (2 * ax + 1) == ci {
            lemma_idx_inj(w, 2 * ax + 1, 2 * ay, 2 * nx + 1, 2 * ny + 1);
        }
        if (2 * ay + 2) * w + (2 * ax + 1) == wi {
            lemma_idx_inj(w, 2 * ax + 1, 2 * ay + 2, cx + nx + 1, cy + ny + 1);
        }
        if (2 * ay + 2) * w + (2 * ax + 1) == ci {
            lemma_idx_inj(w, 2 * ax + 1, 2 * ay + 2, 2 * nx + 1, 2 * ny + 1);
        }
    }
    // visited centers stay open (the two writes only open cells)
    assert forall|ax: int, ay: int|
        lat_in(cw, ch, ax, ay) && lat_visited(visited2, cw, ax, ay) implies open_at(
        grid2,
        w,
        2 * ax + 1,
        2 * ay + 1,
    ) by {
        lemma_idx_bound(w, h, 2 * ax + 1, 2 * ay + 1);
        if ax == nx && ay == ny {
            assert(grid2[ci] == 0);
        } else {
            lemma_lat_idx_bound(cw, ch, ax, ay);
            if ay * cw + ax == nidx {
                lemma_idx_inj(cw, ax, ay, nx, ny);
            }
            assert(lat_visited(visited0, cw, ax, ay));
            assert(grid0[(2 * ay + 1) * w + (2 * ax + 1)] == 0);
        }
    }
    // opening cells preserves every walk; the new room is reached through the
    // knocked-down wall
    assert forall|qx: int, qy: int|
        in_bounds(w, h, qx, qy) && open_at(grid0, w, qx, qy) implies open_at(grid2, w, qx, qy) by {
        lemma_idx_bound(w, h, qx, qy);
    }
    assert forall|ax: int, ay: int|
        lat_in(cw, ch, ax, ay) && lat_visited(visited2, cw, ax, ay) implies reaches(
        grid2,
        w,
        h,
        1,
        1,
        2 * ax + 1,
        2 * ay + 1,
    ) by {
        if ax == nx && ay == ny {
            assert(lat_visited(visited0, cw, cx, cy));
            assert(reaches(grid0, w, h, 1, 1, 2 * cx + 1, 2 * cy + 1));
            lemma_open_monotone_preserves_reach(grid0, grid2, w, h, 1, 1, 2 * cx + 1, 2 * cy + 1);
            assert(grid2[wi] == 0);
            assert(open_at(grid2, w, cx + nx + 1, cy + ny + 1));
            assert(adjacent(2 * cx + 1, 2 * cy + 1, cx + nx + 1, cy + ny + 1));
            lemma_reach_step(grid2, w, h, 1, 1, 2 * cx + 1, 2 * cy + 1, cx + nx + 1, cy + ny + 1);
            assert(grid2[ci] == 0);
            assert(open_at(grid2, w, 2 * nx + 1, 2 * ny + 1));
            assert(adjacent(cx + nx + 1, cy + ny + 1, 2 * nx + 1, 2 * ny + 1));
            lemma_reach_step(grid2, w, h, 1, 1, cx + nx + 1, cy + ny + 1, 2 * nx + 1, 2 * ny + 1);
        } else {
            lemma_lat_idx_bound(cw, ch, ax, ay);
            if ay * cw + ax == nidx {
                lemma_idx_inj(cw, ax, ay, nx, ny);
            }
            assert(lat_visited(visited0, cw, ax, ay));
            lemma_open_monotone_preserves_reach(grid0, grid2, w, h, 1, 1, 2 * ax + 1, 2 * ay + 1);
        }
    }
}


/// Arithmetic glue for the generator's dimensions.
proof fn lemma_mul_bounds_for_dims(w: int, h: int, cw: int, ch: int)
    by (nonlinear_arith)
    requires
        3 <= w,
        3 <= h,
        w % 2 == 1,
        h % 2 == 1,
        cw == (w - 1) / 2,
        ch == (h - 1) / 2,
    ensures
        w == 2 * cw + 1,
        h == 2 * ch + 1,
        1 <= cw,
        1 <= ch,
        cw * ch >= 1,
        cw * ch <= w * h,
        (w as int) + 1 < w * h,
{
}

proof fn lemma_lat_idx_bound(cw: int, ch: int, cx: int, cy: int)
    by (nonlinear_arith)
    requires
        cw >= 1,
        ch >= 1,
        lat_in(cw, ch, cx, cy),
    ensures
        0 <= cy * cw + cx < cw * ch,
{
}

/// Every stack entry is an in-lattice, visited room.
pub open spec fn stack_elems_ok(st: Seq<(usize, usize)>, v: Seq<bool>, cw: int, ch: int) -> bool {
    forall|k: int|
        0 <= k < st.len() ==> lat_in(cw, ch, (#[trigger] st[k]).0 as int, st[k].1 as int)
            && lat_visited(v, cw, st[k].0 as int, st[k].1 as int)
}

/// Every visited room that is not on the stack has all its neighbors visited.
pub open spec fn dfs_closure(st: Seq<(usize, usize)>, v: Seq<bool>, cw: int, ch: int) -> bool {
    forall|ax: int, ay: int|
        lat_in(cw, ch, ax, ay) && #[trigger] lat_visited(v, cw, ax, ay) && !on_stack_at(st, ax, ay)
            ==> nbrs_visited(v, cw, ch, ax, ay)
}

/// After visiting the first room, all of the generator's bookkeeping holds.
proof fn lemma_generate_init(
    grid1: Seq<u8>,
    visited1: Seq<bool>,
    stack1: Seq<(usize, usize)>,
    w: int,
    h: int,
    cw: int,
    ch: int,
)
    requires
        w == 2 * cw + 1,
        h == 2 * ch + 1,
        cw >= 1,
        ch >= 1,
        cw * ch >= 1,
        w + 1 < w * h,
        grid1.len() == w * h,
        grid1[w + 1] == 0,
        forall|i: int| 0 <= i < grid1.len() && i != w + 1 ==> grid1[i] == 1,
        visited1.len() == cw * ch,
        visited1[0] == true,
        forall|j: int| 0 <= j < visited1.len() && j != 0 ==> visited1[j] == false,
        stack1.len() == 1,
        stack1[0] == (0usize, 0usize),
    ensures
        gen_inv_cells(grid1, visited1, w, h, cw, ch),
        lat_visited(visited1, cw, 0, 0),
        stack_elems_ok(stack1, visited1, cw, ch),
        dfs_closure(stack1, visited1, cw, ch),
        count_true(visited1) == 1,
{
    let s0 = Seq::new((w * h) as nat, |i: int| 1u8);
    let v0 = Seq::new((cw * ch) as nat, |j: int| false);
    assert(grid1 =~= s0.update(w + 1, 0u8));
    assert(visited1 =~= v0.update(0, true));
    lemma_count_open_const_wall((w * h) as nat);
    lemma_count_true_const((cw * ch) as nat, false);
    lemma_count_open_update(s0, w + 1, 0u8);
    lemma_count_true_update(v0, 0, true);
    assert(count_open(grid1) == 1);
    assert(count_true(visited1) == 1);
    lemma_idx_bound(w, h, 1, 1);
    lemma_reach_self(grid1, w, h, 1, 1);
    // only room (0, 0) is visited
    assert forall|ax: int, ay: int|
        lat_in(cw, ch, ax, ay) && lat_visited(visited1, cw, ax, ay) implies ax == 0 && ay
        == 0 by {
        lemma_lat_idx_bound(cw, ch, ax, ay);
        if ay * cw + ax == 0 {
            lemma_idx_inj(cw, ax, ay, 0, 0);
        }
    }
    // its center at (1, 1) is the only open cell, so every other room stays
    // sealed and the border stays walled
    assert forall|ax: int, ay: int|
        lat_in(cw, ch, ax, ay) && !lat_visited(visited1, cw, ax, ay) implies sealed(
        grid1,
        w,
        ax,
        ay,
    ) by {
        lemma_lat_idx_bound(cw, ch, ax, ay);
        lemma_idx_bound(w, h, 2 * ax + 1, 2 * ay + 1);
        lemma_idx_bound(w, h, 2 * ax, 2 * ay + 1);
        lemma_idx_bound(w, h, 2 * ax + 2, 2 * ay + 1);
        lemma_idx_bound(w, h, 2 * ax + 1, 2 * ay);
        lemma_idx_bound(w, h, 2 * ax + 1, 2 * ay + 2);
        if (2 * ay + 1) * w + (2 * ax + 1) == w + 1 {
            lemma_idx_inj(w, 2 * ax + 1, 2 * ay + 1, 1, 1);
        }
        if (2 * ay + 1) * w + 2 * ax == w + 1 {
            lemma_idx_inj(w, 2 * ax, 2 * ay + 1, 1, 1);
        }
        if (2 * ay + 1) * w + (2 * ax + 2) == w + 1 {
            lemma_idx_inj(w, 2 * ax + 2, 2 * ay + 1, 1, 1);
        }
        if 2 * ay * w + (2 * ax + 1) == w + 1 {
            lemma_idx_inj(w, 2 * ax + 1, 2 * ay, 1, 1);
        }
        if (2 * ay + 2) * w + (2 * ax + 1) == w + 1 {
            lemma_idx_inj(w, 2 * ax + 1, 2 * ay + 2, 1, 1);
        }
    }
    assert forall|bx: int, by: int|
        in_bounds(w, h, bx, by) && on_border(w, h, bx, by) implies !open_at(grid1, w, bx, by) by {
        lemma_idx_bound(w, h, bx, by);
        if by * w + bx == w + 1 {
            lemma_idx_inj(w, bx, by, 1, 1);
        }
    }
    assert forall|bx: int, by: int|
        in_bounds(w, h, bx, by) && bx % 2 == 0 && by % 2 == 0 implies !open_at(
        grid1,
        w,
        bx,
        by,
    ) by {
        lemma_idx_bound(w, h, bx, by);
        if by * w + bx == w + 1 {
            lemma_idx_inj(w, bx, by, 1, 1);
        }
    }
    assert(on_stack_at(stack1, 0, 0));
}

/// Pushing the newly visited neighbor keeps the stack bookkeeping.
proof fn lemma_stack_step(
    st0: Seq<(usize, usize)>,
    st2: Seq<(usize, usize)>,
    v0: Seq<bool>,
    v2: Seq<bool>,
    cw: usize,
    ch: usize,
    nx: usize,
    ny: usize,
)
    requires
        cw >= 1,
        ch >= 1,
        v0.len() == cw * ch,
        lat_in(cw as int, ch as int, nx as int, ny as int),
        v2 == v0.update((ny as int) * (cw as int) + (nx as int), true),
        st2 == st0.push((nx, ny)),
        stack_elems_ok(st0, v0, cw as int, ch as int),
        dfs_closure(st0, v0, cw as int, ch as int),
    ensures
        stack_elems_ok(st2, v2, cw as int, ch as int),
        dfs_closure(st2, v2, cw as int, ch as int),
{
    lemma_lat_idx_bound(cw as int, ch as int, nx as int, ny as int);
    assert forall|k: int| 0 <= k < st2.len() implies lat_in(
        cw as int,
        ch as int,
        (#[trigger] st2[k]).0 as int,
        st2[k].1 as int,
    ) && lat_visited(v2, cw as int, st2[k].0 as int, st2[k].1 as int) by {
        if k < st0.len() {
            assert(st2[k] == st0[k]);
            assert(lat_visited(v0, cw as int, st0[k].0 as int, st0[k].1 as int));
            lemma_lat_idx_bound(cw as int, ch as int, st0[k].0 as int, st0[k].1 as int);
        } else {
            assert(st2[k] == (nx, ny));
            assert(lat_visited(v2, cw as int, nx as int, ny as int));
        }
    }
    assert forall|ax: int, ay: int|
        lat_in(cw as int, ch as int, ax, ay) && #[trigger] lat_visited(v2, cw as int, ax, ay)
            && !on_stack_at(st2, ax, ay) implies nbrs_visited(
        v2,
        cw as int,
        ch as int,
        ax,
        ay,
    ) by {
        assert(st2[st2.len() - 1] == (nx, ny));
        assert(on_stack_at(st2, nx as int, ny as int));
        lemma_lat_idx_bound(cw as int, ch as int, ax, ay);
        if ay * (cw as int) + ax == (ny as int) * (cw as int) + (nx as int) {
            lemma_idx_inj(cw as int, ax, ay, nx as int, ny as int);
        }
        assert(lat_visited(v0, cw as int, ax, ay));
        if on_stack_at(st0, ax, ay) {
            let k = choose|k: int|
                0 <= k < st0.len() && (#[trigger] st0[k]).0 as int == ax && st0[k].1 as int == ay;
            assert(st2[k] == st0[k]);
            assert(on_stack_at(st2, ax, ay));
        }
        assert(nbrs_visited(v0, cw as int, ch as int, ax, ay));
        if ax > 0 {
            lemma_lat_idx_bound(cw as int, ch as int, ax - 1, ay);
        }
        if ay > 0 {
            lemma_lat_idx_bound(cw as int, ch as int, ax, ay - 1);
        }
        if ax + 1 < cw as int {
            lemma_lat_idx_bound(cw as int, ch as int, ax + 1, ay);
        }
        if ay + 1 < ch as int {
            lemma_lat_idx_bound(cw as int, ch as int, ax, ay + 1);
        }
    }
}

/// Popping a room whose neighbors are all visited keeps the stack bookkeeping.
proof fn lemma_stack_pop(
    st0: Seq<(usize, usize)>,
    st2: Seq<(usize, usize)>,
    v: Seq<bool>,
    cw: usize,
    ch: usize,
    cx: usize,
    cy: usize,
)
    requires
        cw >= 1,
        ch >= 1,
        v.len() == cw * ch,
        st0.len() >= 1,
        st0.last() == (cx, cy),
        st2 == st0.drop_last(),
        stack_elems_ok(st0, v, cw as int, ch as int),
        dfs_closure(st0, v, cw as int, ch as int),
        nbrs_visited(v, cw as int, ch as int, cx as int, cy as int),
    ensures
        stack_elems_ok(st2, v, cw as int, ch as int),
        dfs_closure(st2, v, cw as int, ch as int),
{
    assert forall|k: int| 0 <= k < st2.len() implies lat_in(
        cw as int,
        ch as int,
        (#[trigger] st2[k]).0 as int,
        st2[k].1 as int,
    ) && lat_visited(v, cw as int, st2[k].0 as int, st2[k].1 as int) by {
        assert(st2[k] == st0[k]);
    }
    assert forall|ax: int, ay: int|
        lat_in(cw as int, ch as int, ax, ay) && #[trigger] lat_visited(v, cw as int, ax, ay)
            && !on_stack_at(st2, ax, ay) implies nbrs_visited(v, cw as int, ch as int, ax, ay) by {
        if ax == cx as int && ay == cy as int {
            assert(nbrs_visited(v, cw as int, ch as int, ax, ay));
        } else {
            if on_stack_at(st0, ax, ay) {
                let k = choose|k: int|
                    0 <= k < st0.len() && (#[trigger] st0[k]).0 as int == ax && st0[k].1 as int
                        == ay;
                if k < st0.len() - 1 {
                    assert(st2[k] == st0[k]);
                    assert(on_stack_at(st2, ax, ay));
                } else {
                    assert(st0[k] == (cx, cy));
                }
            }
            assert(nbrs_visited(v, cw as int, ch as int, ax, ay));
        }
    }
}

/// When the stack has emptied, every room has been visited.
proof fn lemma_generate_exit(v: Seq<bool>, cw: int, ch: int)
    requires
        cw >= 1,
        ch >= 1,
        v.len() == cw * ch,
        lat_visited(v, cw, 0, 0),
        forall|ax: int, ay: int|
            lat_in(cw, ch, ax, ay) && #[trigger] lat_visited(v, cw, ax, ay) ==> nbrs_visited(
                v,
                cw,
                ch,
                ax,
                ay,
            ),
    ensures
        count_true(v) == cw * ch,
        forall|ax: int, ay: int| lat_in(cw, ch, ax, ay) ==> #[trigger] lat_visited(v, cw, ax, ay),
{
    assert forall|ax: int, ay: int| lat_in(cw, ch, ax, ay) implies #[trigger] lat_visited(
        v,
        cw,
        ax,
        ay,
    ) by {
        lemma_all_visited(v, cw, ch, ax, ay);
    }
    assert forall|i: int| 0 <= i < v.len() implies v[i] by {
        lemma_lat_coords(cw, ch, i);
        assert(lat_visited(v, cw, i % cw, i / cw));
    }
    lemma_count_true_full(v);
}

/// Generates a perfect maze on an odd-sized grid with a randomized
/// depth-first backtracker. The open cells are the (w-1)/2 x (h-1)/2 room
/// centers plus one knocked-down wall per room except the first, so the open
/// cell count pins the number of knocked-down walls to (rooms - 1), and every
/// room center is reachable from the first room's center (1, 1).
pub fn generate_maze(w: usize, h: usize) -> (grid: Vec<u8>)
    requires
        3 <= w,
        3 <= h,
        w % 2 == 1,
        h % 2 == 1,
        w * h <= usize::MAX,
    ensures
        grid_wf(grid@, w as int, h as int),
        border_walls(grid@, w as int, h as int),
        even_even_walls(grid@, w as int, h as int),
        forall|cx: int, cy: int|
            lat_in(lat_w(w as int), lat_h(h as int), cx, cy) ==> open_at(
                grid@,
                w as int,
                2 * cx + 1,
                2 * cy + 1,
            ),
        count_open(grid@) == 2 * lat_w(w as int) * lat_h(h as int) - 1,
        forall|cx: int, cy: int|
            lat_in(lat_w(w as int), lat_h(h as int), cx, cy) ==> reaches(
                grid@,
                w as int,
                h as int,
                1,
                1,
                2 * cx + 1,
                2 * cy + 1,
            ),
{
    let cw = (w - 1) / 2;
    let ch = (h - 1) / 2;
    proof {
        lemma_mul_bounds_for_dims(w as int, h as int, cw as int, ch as int);
    }
    let mut grid: Vec<u8> = filled_u8(w * h, 1);
    let mut visited: Vec<bool> = filled_bool(cw * ch, false);
    let mut stack: Vec<(usize, usize)> = Vec::new();
    let ghost grid_init = grid@;
    let ghost visited_init = visited@;
    proof {
        assert(grid_init.len() == w * h);
        assert(visited_init.len() == cw * ch);
        assert((w as int) + 1 < (w as int) * (h as int));
        assert((2 * 0 + 1) * (w as int) + (2 * 0 + 1) == (w as int) + 1) by (nonlinear_arith);
        assert(grid_init.len() == (w as int) * (h as int));
    }
    push_cell_fn(&mut grid, &mut visited, w, cw, 0, 0, &mut stack);
    proof {
        assert(grid@ == grid_init.update((w as int) + 1, 0u8));
        assert(visited@ == visited_init.update(0, true));
        lemma_generate_init(
            grid@,
            visited@,
            stack@,
            w as int,
            h as int,
            cw as int,
            ch as int,
        );
    }
    while stack.len() > 0
        invariant
            w == 2 * cw + 1,
            h == 2 * ch + 1,
            1 <= cw,
            1 <= ch,
            w * h <= usize::MAX,
            cw * ch <= w * h,
            gen_inv_cells(grid@, visited@, w as int, h as int, cw as int, ch as int),
            lat_visited(visited@, cw as int, 0, 0),
            stack_elems_ok(stack@, visited@, cw as int, ch as int),
            dfs_closure(stack@, visited@, cw as int, ch as int),
            0 <= count_true(visited@) <= cw * ch,
        decreases cw * ch - count_true(visited@), stack@.len(),
    {
        let ghost stack_entry = stack@;
        let ghost visited_entry = visited@;
        let top = stack.pop();
        let (cx, cy) = match top {
            Some(c) => c,
            None => (0, 0),
        };
        proof {
            assert(stack_entry[stack_entry.len() - 1] == (cx, cy));
            lemma_lat_idx_bound(cw as int, ch as int, cx as int, cy as int);
        }
        let mut neighbors: Vec<(usize, usize, usize, usize)> = Vec::new();
        if cx > 0 {
            proof {
                lemma_lat_idx_bound(cw as int, ch as int, cx as int - 1, cy as int);
            }
            if !visited[cy * cw + (cx - 1)] {
                neighbors.push((cx - 1, cy, 2 * cx, 2 * cy + 1));
            }
        }
        if cy > 0 {
            proof {
                lemma_lat_idx_bound(cw as int, ch as int, cx as int, cy as int - 1);
            }
            if !visited[(cy - 1) * cw + cx] {
                neighbors.push((cx, cy - 1, 2 * cx + 1, 2 * cy));
            }
        }
        if cx + 1 < cw {
            proof {
                lemma_lat_idx_bound(cw as int, ch as int, cx as int + 1, cy as int);
            }
            if !visited[cy * cw + (cx + 1)] {
                neighbors.push((cx + 1, cy, 2 * cx + 2, 2 * cy + 1));
            }
        }
        if cy + 1 < ch {
            proof {
                lemma_lat_idx_bound(cw as int, ch as int, cx as int, cy as int + 1);
            }
            if !visited[(cy + 1) * cw + cx] {
                neighbors.push((cx, cy + 1, 2 * cx + 1, 2 * cy + 2));
            }
        }
        assert(forall|k: int|
            0 <= k < neighbors@.len() ==> cand_ok(
                visited@,
                cw as int,
                ch as int,
                cx as int,
                cy as int,
                #[trigger] neighbors@[k],
            ));
        if neighbors.len() > 0 {
            stack.push((cx, cy));
            proof {
                assert(stack@ =~= stack_entry);
            }
            let i = crate::rng::rand_below(neighbors.len());
            let (nx, ny, wx, wy) = neighbors[i];
            proof {
                assert(cand_ok(
                    visited@,
                    cw as int,
                    ch as int,
                    cx as int,
                    cy as int,
                    neighbors@[i as int],
                ));
                lemma_wall_facts(
                    grid@,
                    visited@,
                    w as int,
                    h as int,
                    cw as int,
                    ch as int,
                    cx as int,
                    cy as int,
                    nx as int,
                    ny as int,
                );
                lemma_lat_idx_bound(cw as int, ch as int, nx as int, ny as int);
                lemma_idx_bound(w as int, h as int, wx as int, wy as int);
                lemma_idx_bound(w as int, h as int, 2 * (nx as int) + 1, 2 * (ny as int) + 1);
            }
            let ghost grid0 = grid@;
            let ghost visited0 = visited@;
            grid.set(wy * w + wx, 0);
            let ghost grid1 = grid@;
            push_cell_fn(&mut grid, &mut visited, w, cw, nx, ny, &mut stack);
            proof {
                assert(grid1 == grid0.update(
                    ((cy as int) + (ny as int) + 1) * (w as int) + ((cx as int) + (nx as int) + 1),
                    0u8,
                ));
                assert(grid@ == grid1.update(
                    (2 * (ny as int) + 1) * (w as int) + (2 * (nx as int) + 1),
                    0u8,
                ));
                assert(visited@ == visited0.update(
                    (ny as int) * (cw as int) + (nx as int),
                    true,
                ));
                lemma_generate_step(
                    grid0,
                    grid1,
                    grid@,
                    visited0,
                    visited@,
                    w as int,
                    h as int,
                    cw as int,
                    ch as int,
                    cx as int,
                    cy as int,
                    nx as int,
                    ny as int,
                );
                lemma_count_true_bounds(visited@);
                assert(stack@ =~= stack_entry.push((nx, ny)));
                lemma_stack_step(
                    stack_entry,
                    stack@,
                    visited_entry,
                    visited@,
                    cw,
                    ch,
                    nx,
                    ny,
                );
            }
        } else {
            proof {
                assert(nbrs_visited(visited@, cw as int, ch as int, cx as int, cy as int));
                lemma_stack_pop(stack_entry, stack@, visited@, cw, ch, cx, cy);
            }
        }
    }
    proof {
        assert forall|ax: int, ay: int|
            lat_in(cw as int, ch as int, ax, ay) && #[trigger] lat_visited(
                visited@,
                cw as int,
                ax,
                ay,
            ) implies nbrs_visited(visited@, cw as int, ch as int, ax, ay) by {
            assert(!on_stack_at(stack@, ax, ay));
        }
        lemma_generate_exit(visited@, cw as int, ch as int);
        assert(lat_w(w as int) == cw as int);
        assert(lat_h(h as int) == ch as int);
        assert(2 * ((cw as int) * (ch as int)) == 2 * (cw as int) * (ch as int))
            by (nonlinear_arith);
        assert forall|cx_: int, cy_: int|
            lat_in(lat_w(w as int), lat_h(h as int), cx_, cy_) implies open_at(
            grid@,
            w as int,
            2 * cx_ + 1,
            2 * cy_ + 1,
        ) && reaches(grid@, w as int, h as int, 1, 1, 2 * cx_ + 1, 2 * cy_ + 1) by {
            assert(lat_visited(visited@, cw as int, cx_, cy_));
        }
    }
    grid
}

// ---------------------------------------------------------------------------
// The difficulty shaper: knock extra walls next to dead ends, adding loops.
// ---------------------------------------------------------------------------

/// The difficulty cycle: index 0 is Easy, 1 is Medium, 2 is Hard.
#[derive(Clone, Copy, PartialEq, Eq, Structural, Debug)]
pub enum Difficulty {
    Easy,
    Medium,
    Hard,
}

/// Share of dead ends that the shaper removes, in percent.
pub open spec fn difficulty_percent(d: Difficulty) -> int {
    match d {
        Difficulty::Easy => 50,
        Difficulty::Medium => 20,
        Difficulty::Hard => 0,
    }
}

pub open spec fn difficulty_index(d: Difficulty) -> int {
    match d {
        Difficulty::Easy => 0,
        Difficulty::Medium => 1,
        Difficulty::Hard => 2,
    }
}

pub open spec fn difficulty_of_index(i: int) -> Difficulty {
    if i == 0 {
        Difficulty::Easy
    } else if i == 1 {
        Difficulty::Medium
    } else {
        Difficulty::Hard
    }
}

pub fn difficulty_from_index(i: usize) -> (d: Difficulty)
    ensures
        d == difficulty_of_index(i as int),
{
    if i == 0 {
        Difficulty::Easy
    } else if i == 1 {
        Difficulty::Medium
    } else {
        Difficulty::Hard
    }
}

/// How many of an interior open cell's four orthogonal neighbors are walls.
pub open spec fn wall_nbrs(cells: Seq<u8>, w: int, x: int, y: int) -> int {
    (if cells[(y - 1) * w + x] == 1 {
        1int
    } else {
        0int
    }) + (if cells[(y + 1) * w + x] == 1 {
        1int
    } else {
        0int
    }) + (if cells[y * w + (x - 1)] == 1 {
        1int
    } else {
        0int
    }) + (if cells[y * w + (x + 1)] == 1 {
        1int
    } else {
        0int
    })
}

/// An open interior cell walled in on exactly three sides.
pub open spec fn is_dead_end(cells: Seq<u8>, w: int, h: int, x: int, y: int) -> bool {
    &&& 1 <= x < w - 1
    &&& 1 <= y < h - 1
    &&& open_at(cells, w, x, y)
    &&& wall_nbrs(cells, w, x, y) == 3
}

/// Dead ends among the first `n` cells in row-major order.
pub open spec fn dead_end_count_upto(cells: Seq<u8>, w: int, h: int, n: int) -> int
    decreases n,
{
    if n <= 0 {
        0
    } else {
        dead_end_count_upto(cells, w, h, n - 1) + if is_dead_end(
            cells,
            w,
            h,
            (n - 1) % w,
            (n - 1) / w,
        ) {
            1int
        } else {
            0int
        }
    }
}

pub open spec fn dead_end_count(cells: Seq<u8>, w: int, h: int) -> int {
    dead_end_count_upto(cells, w, h, w * h)
}

/// A row-major index decodes to its coordinates.
proof fn lemma_pos_decode(w: int, x: int, y: int)
    by (nonlinear_arith)
    requires
        w >= 1,
        0 <= x < w,
        0 <= y,
    ensures
        (y * w + x) % w == x,
        (y * w + x) / w == y,
{
}

proof fn lemma_de_count_skip(cells: Seq<u8>, w: int, h: int, a: int, b: int)
    requires
        0 <= a <= b,
        w >= 1,
        forall|i: int| a <= i < b ==> !is_dead_end(cells, w, h, #[trigger] (i % w), i / w),
    ensures
        dead_end_count_upto(cells, w, h, b) == dead_end_count_upto(cells, w, h, a),
    decreases b - a,
{
    if b > a {
        lemma_de_count_skip(cells, w, h, a, b - 1);
    }
}

/// Collects every dead end, in strictly ascending row-major order (so the
/// entries are pairwise distinct).
pub fn collect_dead_ends(cells: &Vec<u8>, w: usize, h: usize) -> (r: Vec<(usize, usize)>)
    requires
        grid_wf(cells@, w as int, h as int),
    ensures
        r@.len() == dead_end_count(cells@, w as int, h as int),
        forall|k: int|
            0 <= k < r@.len() ==> is_dead_end(
                cells@,
                w as int,
                h as int,
                (#[trigger] r@[k]).0 as int,
                r@[k].1 as int,
            ),
        forall|a: int, b: int|
            0 <= a < b < r@.len() ==> ((#[trigger] r@[a]).1 < (#[trigger] r@[b]).1 || (r@[a].1
                == r@[b].1 && r@[a].0 < r@[b].0)),
{
    let nc = cells.len();
    let mut r: Vec<(usize, usize)> = Vec::new();
    let mut y: usize = 1;
    proof {
        assert forall|i: int| 0 <= i < (w as int) + 1 implies !is_dead_end(
            cells@,
            w as int,
            h as int,
            #[trigger] (i % (w as int)),
            i / (w as int),
        ) by {
            if i < w as int {
                lemma_pos_decode(w as int, i, 0);
            } else {
                lemma_pos_decode(w as int, 0, 1);
            }
        }
        lemma_de_count_skip(cells@, w as int, h as int, 0, (w as int) + 1);
    }
    while y < h - 1
        invariant
            grid_wf(cells@, w as int, h as int),
            1 <= y <= h - 1,
            cells@.len() == w * h,
            w * h <= usize::MAX,
            r@.len() == dead_end_count_upto(cells@, w as int, h as int, (y as int) * (w as int) + 1),
            forall|k: int|
                0 <= k < r@.len() ==> is_dead_end(
                    cells@,
                    w as int,
                    h as int,
                    (#[trigger] r@[k]).0 as int,
                    r@[k].1 as int,
                ),
            forall|k: int| 0 <= k < r@.len() ==> (#[trigger] r@[k]).1 < y,
            forall|a: int, b: int|
                0 <= a < b < r@.len() ==> ((#[trigger] r@[a]).1 < (#[trigger] r@[b]).1 || (r@[a].1
                    == r@[b].1 && r@[a].0 < r@[b].0)),
        decreases h - 1 - y,
    {
        let mut x: usize = 1;
        while x < w - 1
            invariant
                grid_wf(cells@, w as int, h as int),
                1 <= y < h - 1,
                1 <= x <= w - 1,
                cells@.len() == w * h,
                w * h <= usize::MAX,
                r@.len() == dead_end_count_upto(
                    cells@,
                    w as int,
                    h as int,
                    (y as int) * (w as int) + (x as int),
                ),
                forall|k: int|
                    0 <= k < r@.len() ==> is_dead_end(
                        cells@,
                        w as int,
                        h as int,
                        (#[trigger] r@[k]).0 as int,
                        r@[k].1 as int,
                    ),
                forall|k: int|
                    0 <= k < r@.len() ==> ((#[trigger] r@[k]).1 < y || (r@[k].1 == y && r@[k].0
                        < x)),
                forall|a: int, b: int|
                    0 <= a < b < r@.len() ==> ((#[trigger] r@[a]).1 < (#[trigger] r@[b]).1 || (
                    r@[a].1 == r@[b].1 && r@[a].0 < r@[b].0)),
            decreases w - 1 - x,
        {
            proof {
                lemma_idx_bound(w as int, h as int, x as int, y as int);
                lemma_idx_bound(w as int, h as int, x as int, y as int - 1);
                lemma_idx_bound(w as int, h as int, x as int, y as int + 1);
                lemma_idx_bound(w as int, h as int, x as int - 1, y as int);
                lemma_idx_bound(w as int, h as int, x as int + 1, y as int);
                lemma_pos_decode(w as int, x as int, y as int);
            }
            if cells[y * w + x] == 0 {
                let mut walls: usize = 0;
                if cells[(y - 1) * w + x] == 1 {
                    walls = walls + 1;
                }
                if cells[(y + 1) * w + x] == 1 {
                    walls = walls + 1;
                }
                if cells[y * w + (x - 1)] == 1 {
                    walls = walls + 1;
                }
                if cells[y * w + (x + 1)] == 1 {
                    walls = walls + 1;
                }
                if walls == 3 {
                    r.push((x, y));
                }
            }
            x = x + 1;
        }
        proof {
            // the last cell of this row and the first of the next are not
            // interior, so the count does not change across them
            assert(((y as int) + 1) * (w as int) == (y as int) * (w as int) + (w as int))
                by (nonlinear_arith);
            assert forall|i: int|
                (y as int) * (w as int) + (w as int) - 1 <= i < ((y as int) + 1) * (w as int)
                    + 1 implies !is_dead_end(
                cells@,
                w as int,
                h as int,
                #[trigger] (i % (w as int)),
                i / (w as int),
            ) by {
                if i == (y as int) * (w as int) + (w as int) - 1 {
                    lemma_pos_decode(w as int, (w as int) - 1, y as int);
                } else {
                    lemma_pos_decode(w as int, 0, (y as int) + 1);
                }
            }
            lemma_de_count_skip(
                cells@,
                w as int,
                h as int,
                (y as int) * (w as int) + (w as int) - 1,
                ((y as int) + 1) * (w as int) + 1,
            );
        }
        y = y + 1;
    }
    proof {
        // everything from the last interior row's end to the grid's end is in
        // the bottom border row
        assert((w as int) * (h as int) == ((h as int) - 1) * (w as int) + (w as int))
            by (nonlinear_arith);
        assert forall|i: int|
            ((h as int) - 1) * (w as int) + 1 <= i < (w as int) * (h as int) implies !is_dead_end(
            cells@,
            w as int,
            h as int,
            #[trigger] (i % (w as int)),
            i / (w as int),
        ) by {
            let yy = i / (w as int);
            let xx = i % (w as int);
            vstd::arithmetic::div_mod::lemma_fundamental_div_mod(i, w as int);
            vstd::arithmetic::div_mod::lemma_mod_bound(i, w as int);
            assert(i == yy * (w as int) + xx);
            assert(0 <= xx < w as int);
            if yy < (h as int) - 1 {
                lemma_idx_bound(w as int, h as int, xx, yy);
                assert(yy * (w as int) + xx < ((h as int) - 1) * (w as int) + 1) by (nonlinear_arith)
                    requires
                        0 <= xx < w as int,
                        0 <= yy < (h as int) - 1,
                ;
            }
        }
        lemma_de_count_skip(
            cells@,
            w as int,
            h as int,
            ((h as int) - 1) * (w as int) + 1,
            (w as int) * (h as int),
        );
    }
    r
}

/// The dead-end count, exposed so that callers can measure the shaper's work.
pub fn count_dead_ends(cells: &Vec<u8>, w: usize, h: usize) -> (n: usize)
    requires
        grid_wf(cells@, w as int, h as int),
    ensures
        n == dead_end_count(cells@, w as int, h as int),
{
    let de = collect_dead_ends(cells, w, h);
    de.len()
}

/// Opening cells one at a time never lowers the open-cell count.
pub proof fn lemma_count_open_monotone(c1: Seq<u8>, c2: Seq<u8>)
    requires
        c1.len() == c2.len(),
        forall|i: int| 0 <= i < c1.len() && c1[i] == 0 ==> c2[i] == 0,
    ensures
        count_open(c2) >= count_open(c1),
    decreases c1.len(),
{
    if c1.len() > 0 {
        assert(forall|i: int|
            0 <= i < c1.drop_last().len() && c1.drop_last()[i] == 0 ==> c2.drop_last()[i] == 0);
        lemma_count_open_monotone(c1.drop_last(), c2.drop_last());
    }
}

proof fn lemma_ratio_bound(n: int, p: int)
    by (nonlinear_arith)
    requires
        n >= 0,
        0 <= p <= 100,
    ensures
        0 <= n * p / 100 <= n,
        n * p / 100 >= 1 ==> n >= 1,
{
}

/// Connects some dead ends outward to create loops: enumerates the dead ends
/// once, then for `floor(count * percent / 100)` rounds removes a random
/// remaining dead end from the pool and opens one of its wall neighbors at
/// random. Cells only ever flip from wall to open, so the open-cell count
/// never drops, rises by at most the number of rounds, and (by
/// `lemma_open_monotone_preserves_reach`) no previously reachable cell is
/// ever disconnected; and whenever at least one round is due, at least one
/// wall is opened (the first chosen dead end still has its three walls).
pub fn reduce_dead_ends(cells: &mut Vec<u8>, w: usize, h: usize, percent: usize)
    requires
        grid_wf(old(cells)@, w as int, h as int),
        percent <= 100,
    ensures
        grid_wf(final(cells)@, w as int, h as int),
        forall|i: int| 0 <= i < old(cells)@.len() && old(cells)@[i] == 0 ==> final(cells)@[i] == 0,
        count_open(final(cells)@) >= count_open(old(cells)@),
        count_open(final(cells)@) <= count_open(old(cells)@) + dead_end_count(
            old(cells)@,
            w as int,
            h as int,
        ) * (percent as int) / 100,
        dead_end_count(old(cells)@, w as int, h as int) * (percent as int) / 100 >= 1
            ==> count_open(final(cells)@) > count_open(old(cells)@),
{
    let nc = cells.len();
    let mut dead_ends = collect_dead_ends(cells, w, h);
    let ghost entry_cells = cells@;
    let ghost de0 = dead_end_count(cells@, w as int, h as int);
    proof {
        assert(w * h <= usize::MAX);
        lemma_count_open_nonneg(cells@);
        lemma_ratio_bound(de0, percent as int);
    }
    let target = (((dead_ends.len() as u128) * (percent as u128)) / 100) as usize;
    proof {
        assert(target == de0 * (percent as int) / 100);
    }
    let mut iter: usize = 0;
    while iter < target && dead_ends.len() > 0
        invariant
            iter <= target,
            grid_wf(cells@, w as int, h as int),
            w * h <= usize::MAX,
            cells@.len() == entry_cells.len(),
            forall|i: int| 0 <= i < entry_cells.len() && entry_cells[i] == 0 ==> cells@[i] == 0,
            count_open(cells@) >= count_open(entry_cells),
            count_open(cells@) <= count_open(entry_cells) + iter,
            iter == 0 ==> cells@ == entry_cells,
            iter == 0 ==> dead_ends@.len() == de0,
            iter >= 1 && target >= 1 ==> count_open(cells@) >= count_open(entry_cells) + 1,
            forall|k: int|
                0 <= k < dead_ends@.len() ==> is_dead_end(
                    entry_cells,
                    w as int,
                    h as int,
                    (#[trigger] dead_ends@[k]).0 as int,
                    dead_ends@[k].1 as int,
                ),
        decreases target - iter,
    {
        let ghost iter_entry = iter;
        let ghost cells_iter_entry = cells@;
        let idx = crate::rng::rand_below(dead_ends.len());
        let de = dead_ends.remove(idx);
        let (x, y) = de;
        proof {
            lemma_idx_bound(w as int, h as int, x as int, y as int - 1);
            lemma_idx_bound(w as int, h as int, x as int, y as int + 1);
            lemma_idx_bound(w as int, h as int, x as int - 1, y as int);
            lemma_idx_bound(w as int, h as int, x as int + 1, y as int);
        }
        let mut candidates: Vec<(usize, usize)> = Vec::new();
        if cells[(y - 1) * w + x] == 1 {
            candidates.push((x, y - 1));
        }
        if cells[(y + 1) * w + x] == 1 {
            candidates.push((x, y + 1));
        }
        if cells[y * w + (x - 1)] == 1 {
            candidates.push((x - 1, y));
        }
        if cells[y * w + (x + 1)] == 1 {
            candidates.push((x + 1, y));
        }
        assert(forall|k: int|
            0 <= k < candidates@.len() ==> in_bounds(
                w as int,
                h as int,
                (#[trigger] candidates@[k]).0 as int,
                candidates@[k].1 as int,
            ) && cells@[(candidates@[k].1 as int) * (w as int) + (candidates@[k].0 as int)] == 1);
        proof {
            // on the very first round the grid is untouched, so the chosen
            // dead end still has its three wall neighbors: some candidate
            // must exist and one wall will be opened
            if iter_entry == 0 {
                assert(is_dead_end(entry_cells, w as int, h as int, x as int, y as int));
                assert(wall_nbrs(cells@, w as int, x as int, y as int) == 3);
                assert(candidates@.len() >= 1);
            }
        }
        if candidates.len() > 0 {
            let j = crate::rng::rand_below(candidates.len());
            let (wx, wy) = candidates[j];
            proof {
                lemma_idx_bound(w as int, h as int, wx as int, wy as int);
                lemma_count_open_update(cells@, (wy as int) * (w as int) + (wx as int), 0u8);
            }
            cells.set(wy * w + wx, 0);
        }
        iter = iter + 1;
        proof {
            if iter_entry >= 1 && target >= 1 {
                assert(count_open(cells_iter_entry) >= count_open(entry_cells) + 1);
                assert(count_open(cells@) >= count_open(cells_iter_entry));
            }
        }
    }
    proof {
        lemma_count_open_monotone(entry_cells, cells@);
        if de0 * (percent as int) / 100 >= 1 {
            // the loop must have run at least once: the pool started with
            // de0 >= 1 dead ends and the target was at least 1
            assert(iter >= 1);
            assert(count_open(cells@) >= count_open(entry_cells) + 1);
        }
    }
}

/// Maps the difficulty to the shaper's removal share: Easy halves the dead
/// ends, Medium removes a fifth, Hard leaves the perfect maze untouched.
pub fn apply_difficulty(cells: &mut Vec<u8>, w: usize, h: usize, difficulty: Difficulty)
    requires
        grid_wf(old(cells)@, w as int, h as int),
    ensures
        grid_wf(final(cells)@, w as int, h as int),
        forall|i: int| 0 <= i < old(cells)@.len() && old(cells)@[i] == 0 ==> final(cells)@[i] == 0,
        count_open(final(cells)@) >= count_open(old(cells)@),
        count_open(final(cells)@) <= count_open(old(cells)@) + dead_end_count(
            old(cells)@,
            w as int,
            h as int,
        ) * difficulty_percent(difficulty) / 100,
        dead_end_count(old(cells)@, w as int, h as int) * difficulty_percent(difficulty) / 100 >= 1
            ==> count_open(final(cells)@) > count_open(old(cells)@),
        difficulty == Difficulty::Hard ==> final(cells)@ == old(cells)@,
{
    match difficulty {
        Difficulty::Easy => reduce_dead_ends(cells, w, h, 50),
        Difficulty::Medium => reduce_dead_ends(cells, w, h, 20),
        Difficulty::Hard => {
            proof {
                lemma_de_nonneg(old(cells)@, w as int, h as int, (w as int) * (h as int));
            }
        },
    }
}

proof fn lemma_de_nonneg(cells: Seq<u8>, w: int, h: int, n: int)
    ensures
        dead_end_count_upto(cells, w, h, n) >= 0,
    decreases n,
{
    if n > 0 {
        lemma_de_nonneg(cells, w, h, n - 1);
    }
}

} // verus!

