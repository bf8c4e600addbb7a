use vstd::prelude::*;
use vstd::slice::SliceAdditionalExecFns;
use crate::maze::{grid_wf, open_at, count_open, lemma_idx_bound};
use crate::world::{Player, WorldState};

verus! {

/// Some player stands on cell (x, y).
pub open spec fn occupied(players: Seq<Player>, x: int, y: int) -> bool {
    exists|k: int|
        0 <= k < players.len() && (#[trigger] players[k]).x as int == x && players[k].y as int == y
}

/// An in-bounds open cell that is not among the taken positions.
pub open spec fn free_cell(
    cells: Seq<u8>,
    w: usize,
    h: usize,
    taken: Seq<(usize, usize)>,
    x: usize,
    y: usize,
) -> bool {
    &&& x < w
    &&& y < h
    &&& open_at(cells, w as int, x as int, y as int)
    &&& !taken.contains((x, y))
}

fn contains_pos(taken: &Vec<(usize, usize)>, x: usize, y: usize) -> (b: bool)
    ensures
        b == taken@.contains((x, y)),
{
    let mut k: usize = 0;
    while k < taken.len()
        invariant
            k <= taken@.len(),
            forall|j: int| 0 <= j < k ==> #[trigger] taken@[j] != (x, y),
        decreases taken@.len() - k,
    {
        if taken[k].0 == x && taken[k].1 == y {
            assert(taken@[k as int] == (x, y));
            return true;
        }
        k = k + 1;
    }
    false
}

/// Chebyshev distance from the scan center.
pub open spec fn dist1(a: int, b: int) -> int {
    if a >= b {
        a - b
    } else {
        b - a
    }
}

pub open spec fn cheb(x: int, y: int, cx: int, cy: int) -> int {
    if dist1(x, cx) >= dist1(y, cy) {
        dist1(x, cx)
    } else {
        dist1(y, cy)
    }
}

/// The scan visits (ax, ay) no later than (bx, by): smaller Chebyshev radius
/// from the grid center (w/2, h/2) first, then row-major within one radius.
pub open spec fn scan_at_or_before(w: usize, h: usize, ax: int, ay: int, bx: int, by: int) -> bool {
    let da = cheb(ax, ay, (w / 2) as int, (h / 2) as int);
    let db = cheb(bx, by, (w / 2) as int, (h / 2) as int);
    da < db || (da == db && (ay < by || (ay == by && ax <= bx)))
}

/// (x, y) is the free cell the expanding-square scan reaches first: free,
/// and no free cell is visited earlier. Two distinct cells never share a
/// scan position, so this pins the result completely; in particular the
/// search is deterministic.
pub open spec fn is_first_free(
    cells: Seq<u8>,
    w: usize,
    h: usize,
    taken: Seq<(usize, usize)>,
    x: usize,
    y: usize,
) -> bool {
    &&& free_cell(cells, w, h, taken, x, y)
    &&& forall|qx: usize, qy: usize|
        #[trigger] free_cell(cells, w, h, taken, qx, qy) ==> scan_at_or_before(
            w,
            h,
            x as int,
            y as int,
            qx as int,
            qy as int,
        )
}

/// Scans expanding squares of Chebyshev radius 0, 1, 2, ... around the grid
/// center, row-major within each square, and returns the first in-bounds open
/// cell not among `taken` - the free cell nearest the center, row-major-first
/// on its ring; returns None only when no such cell exists at all.
pub fn find_first_free(cells: &Vec<u8>, w: usize, h: usize, taken: &Vec<(usize, usize)>) -> (r:
    Option<(usize, usize)>)
    requires
        1 <= w,
        1 <= h,
        cells@.len() == w * h,
        w * h <= usize::MAX,
    ensures
        match r {
            Some(p) => is_first_free(cells@, w, h, taken@, p.0, p.1),
            None => forall|x: usize, y: usize| !free_cell(cells@, w, h, taken@, x, y),
        },
{
    let cx = w / 2;
    let cy = h / 2;
    let rmax = if w > h {
        w
    } else {
        h
    };
    let mut r: usize = 0;
    while r < rmax
        invariant
            1 <= w,
            1 <= h,
            cells@.len() == w * h,
            w * h <= usize::MAX,
            cx == w / 2,
            cy == h / 2,
            rmax == if w > h {
                w
            } else {
                h
            },
            r <= rmax,
            forall|x: usize, y: usize|
                x < w && y < h && cheb(x as int, y as int, cx as int, cy as int) < r
                    ==> !free_cell(cells@, w, h, taken@, x, y),
        decreases rmax - r,
    {
        let ylo = if r >= cy {
            0
        } else {
            cy - r
        };
        let yhi = if r >= h - 1 - cy {
            h - 1
        } else {
            cy + r
        };
        let xlo = if r >= cx {
            0
        } else {
            cx - r
        };
        let xhi = if r >= w - 1 - cx {
            w - 1
        } else {
            cx + r
        };
        let mut y = ylo;
        while y <= yhi
            invariant
                1 <= w,
                1 <= h,
                cells@.len() == w * h,
                w * h <= usize::MAX,
                cx == w / 2,
                cy == h / 2,
                ylo <= y,
                yhi == if r >= h - 1 - cy {
                    (h - 1) as usize
                } else {
                    (cy + r) as usize
                },
                yhi < h,
                ylo == if r >= cy {
                    0usize
                } else {
                    (cy - r) as usize
                },
                xlo == if r >= cx {
                    0usize
                } else {
                    (cx - r) as usize
                },
                xhi == if r >= w - 1 - cx {
                    (w - 1) as usize
                } else {
                    (cx + r) as usize
                },
                xhi < w,
                forall|x_: usize, y_: usize|
                    x_ < w && y_ < h && cheb(x_ as int, y_ as int, cx as int, cy as int) < r
                        ==> !free_cell(cells@, w, h, taken@, x_, y_),
                forall|x_: usize, y_: usize|
                    xlo <= x_ <= xhi && ylo <= y_ < y ==> !free_cell(cells@, w, h, taken@, x_, y_),
            decreases yhi + 1 - y,
        {
            let mut x = xlo;
            while x <= xhi
                invariant
                    1 <= w,
                    1 <= h,
                    cells@.len() == w * h,
                    w * h <= usize::MAX,
                    cx == w / 2,
                    cy == h / 2,
                    ylo <= y <= yhi,
                    yhi < h,
                    ylo == if r >= cy {
                        0usize
                    } else {
                        (cy - r) as usize
                    },
                    xlo == if r >= cx {
                        0usize
                    } else {
                        (cx - r) as usize
                    },
                    xhi == if r >= w - 1 - cx {
                        (w - 1) as usize
                    } else {
                        (cx + r) as usize
                    },
                    yhi == if r >= h - 1 - cy {
                        (h - 1) as usize
                    } else {
                        (cy + r) as usize
                    },
                    xlo <= x,
                    xhi < w,
                    y < h,
                    forall|x_: usize, y_: usize|
                        x_ < w && y_ < h && cheb(x_ as int, y_ as int, cx as int, cy as int) < r
                            ==> !free_cell(cells@, w, h, taken@, x_, y_),
                    forall|x_: usize, y_: usize|
                        xlo <= x_ <= xhi && ylo <= y_ < y ==> !free_cell(
                            cells@,
                            w,
                            h,
                            taken@,
                            x_,
                            y_,
                        ),
                    forall|x_: usize| xlo <= x_ < x ==> !free_cell(cells@, w, h, taken@, x_, y),
                decreases xhi + 1 - x,
            {
                proof {
                    lemma_idx_bound(w as int, h as int, x as int, y as int);
                }
                if cells[y * w + x] == 0 && !contains_pos(taken, x, y) {
                    proof {
                        // the found cell sits on ring r (anything nearer
                        // failed already), and a free competitor is on ring
                        // r or beyond; on ring r it lies in this square, so
                        // the rows above y and the left part of row y have
                        // already failed
                        assert(free_cell(cells@, w, h, taken@, x, y));
                        assert(cheb(x as int, y as int, cx as int, cy as int) <= r);
                        assert forall|qx: usize, qy: usize|
                            #[trigger] free_cell(cells@, w, h, taken@, qx, qy) implies
                            scan_at_or_before(
                            w,
                            h,
                            x as int,
                            y as int,
                            qx as int,
                            qy as int,
                        ) by {
                            let dq = cheb(qx as int, qy as int, cx as int, cy as int);
                            assert(qx < w && qy < h);
                            if dq < r {
                                assert(!free_cell(cells@, w, h, taken@, qx, qy));
                            }
                            if dq == r {
                                assert(xlo <= qx <= xhi && ylo <= qy <= yhi);
                                if qy < y {
                                    assert(!free_cell(cells@, w, h, taken@, qx, qy));
                                }
                                if qy == y && qx < x {
                                    assert(!free_cell(cells@, w, h, taken@, qx, qy));
                                }
                            }
                        }
                    }
                    return Some((x, y));
                }
                x = x + 1;
            }
            y = y + 1;
        }
        proof {
            // the whole square of radius r has now been scanned
            assert forall|x_: usize, y_: usize|
                x_ < w && y_ < h && cheb(x_ as int, y_ as int, cx as int, cy as int) < r
                    + 1 implies !free_cell(cells@, w, h, taken@, x_, y_) by {
                if cheb(x_ as int, y_ as int, cx as int, cy as int) >= r {
                    assert(xlo <= x_ <= xhi && ylo <= y_ <= yhi);
                }
            }
        }
        r = r + 1;
    }
    proof {
        assert forall|x_: usize, y_: usize| true implies !free_cell(cells@, w, h, taken@, x_, y_) by {
            if x_ < w && y_ < h {
                assert(cheb(x_ as int, y_ as int, cx as int, cy as int) < rmax);
            }
        }
    }
    None
}

/// The spawn nearest the grid center: the first open cell in the expanding
/// square scan (nearest by Chebyshev radius, row-major-first on its ring),
/// or the fixed fallback (1, 1) when the grid has no open cell. The result
/// is pinned completely, so equal grids always give the same spawn.
pub fn find_spawn(cells: &Vec<u8>, w: usize, h: usize) -> (r: (usize, usize))
    requires
        grid_wf(cells@, w as int, h as int),
    ensures
        r.0 < w && r.1 < h,
        (exists|x: usize, y: usize|
            x < w && y < h && #[trigger] open_at(cells@, w as int, x as int, y as int)) ==> open_at(
            cells@,
            w as int,
            r.0 as int,
            r.1 as int,
        ) && (forall|qx: usize, qy: usize|
            qx < w && qy < h && #[trigger] open_at(cells@, w as int, qx as int, qy as int)
                ==> scan_at_or_before(w, h, r.0 as int, r.1 as int, qx as int, qy as int)),
        !(exists|x: usize, y: usize|
            x < w && y < h && #[trigger] open_at(cells@, w as int, x as int, y as int)) ==> r == (
        1usize,
        1usize,
        ),
        open_at(cells@, w as int, 1, 1) ==> open_at(cells@, w as int, r.0 as int, r.1 as int),
{
    let n = cells.len();
    let taken: Vec<(usize, usize)> = Vec::new();
    match find_first_free(cells, w, h, &taken) {
        Some(p) => {
            proof {
                assert forall|qx: usize, qy: usize|
                    qx < w && qy < h && #[trigger] open_at(
                        cells@,
                        w as int,
                        qx as int,
                        qy as int,
                    ) implies scan_at_or_before(w, h, p.0 as int, p.1 as int, qx as int, qy as int) by {
                    assert(!taken@.contains((qx, qy)));
                    assert(free_cell(cells@, w, h, taken@, qx, qy));
                }
            }
            p
        },
        None => {
            proof {
                assert forall|x: usize, y: usize|
                    x < w && y < h implies !open_at(cells@, w as int, x as int, y as int) by {
                    assert(!free_cell(cells@, w, h, taken@, x, y));
                    assert(!taken@.contains((x, y)));
                }
                assert(!open_at(cells@, w as int, (1usize) as int, (1usize) as int));
            }
            (1, 1)
        },
    }
}

pub fn is_occupied(players: &Vec<Player>, x: usize, y: usize) -> (b: bool)
    ensures
        b == occupied(players@, x as int, y as int),
{
    let mut k: usize = 0;
    while k < players.len()
        invariant
            k <= players@.len(),
            forall|j: int|
                0 <= j < k ==> !((#[trigger] players@[j]).x == x && players@[j].y == y),
        decreases players@.len() - k,
    {
        if players[k].x == x && players[k].y == y {
            return true;
        }
        k = k + 1;
    }
    false
}

fn player_positions(players: &Vec<Player>) -> (r: Vec<(usize, usize)>)
    ensures
        r@.len() == players@.len(),
        forall|k: int|
            0 <= k < r@.len() ==> #[trigger] r@[k] == ((players@[k].x), (players@[k].y)),
{
    let mut r: Vec<(usize, usize)> = Vec::new();
    let mut k: usize = 0;
    while k < players.len()
        invariant
            k <= players@.len(),
            r@.len() == k,
            forall|j: int|
                0 <= j < k ==> #[trigger] r@[j] == ((players@[j].x), (players@[j].y)),
        decreases players@.len() - k,
    {
        let p = players[k];
        r.push((p.x, p.y));
        k = k + 1;
    }
    r
}

proof fn lemma_positions_occupied(players: Seq<Player>, pos: Seq<(usize, usize)>, x: usize, y: usize)
    requires
        pos.len() == players.len(),
        forall|k: int| 0 <= k < pos.len() ==> #[trigger] pos[k] == ((players[k].x), (players[k].y)),
    ensures
        pos.contains((x, y)) == occupied(players, x as int, y as int),
{
    if pos.contains((x, y)) {
        let k = choose|k: int| 0 <= k < pos.len() && pos[k] == (x, y);
        assert(players[k].x == x && players[k].y == y);
        assert(occupied(players, x as int, y as int));
    }
    if occupied(players, x as int, y as int) {
        let k = choose|k: int|
            0 <= k < players.len() && (#[trigger] players[k]).x as int == x as int
                && players[k].y as int == y as int;
        assert(pos[k] == (x, y));
        assert(pos.contains((x, y)));
    }
}

/// An in-bounds open cell of the world that no current player stands on.
pub open spec fn open_unoccupied(wld: WorldState, x: usize, y: usize) -> bool {
    &&& x < wld.map_width
    &&& y < wld.map_height
    &&& open_at(wld.map_cells@, wld.map_width as int, x as int, y as int)
    &&& !occupied(wld.players@, x as int, y as int)
}

/// The unoccupied open cell the expanding-square scan reaches first.
pub open spec fn is_first_unoccupied(wld: WorldState, x: usize, y: usize) -> bool {
    &&& open_unoccupied(wld, x, y)
    &&& forall|qx: usize, qy: usize|
        #[trigger] open_unoccupied(wld, qx, qy) ==> scan_at_or_before(
            wld.map_width,
            wld.map_height,
            x as int,
            y as int,
            qx as int,
            qy as int,
        )
}

/// Finds the open cell nearest the center (row-major-first on its ring) that
/// no current player stands on, falling back to the fixed cell (1, 1) when
/// every open cell is occupied. The result is pinned completely, so equal
/// worlds always give the same cell.
pub fn find_unused_spawn(world: &WorldState) -> (r: (usize, usize))
    requires
        world.wf(),
    ensures
        r.0 < world.map_width && r.1 < world.map_height,
        open_at(world.map_cells@, world.map_width as int, r.0 as int, r.1 as int),
        (exists|x: usize, y: usize| open_unoccupied(*world, x, y)) ==> is_first_unoccupied(
            *world,
            r.0,
            r.1,
        ),
        !(exists|x: usize, y: usize| open_unoccupied(*world, x, y)) ==> r == (1usize, 1usize),
{
    let n = world.map_cells.len();
    let w = world.map_width;
    let h = world.map_height;
    let positions = player_positions(&world.players);
    match find_first_free(&world.map_cells, w, h, &positions) {
        Some(p) => {
            proof {
                lemma_positions_occupied(world.players@, positions@, p.0, p.1);
                assert forall|qx: usize, qy: usize|
                    #[trigger] open_unoccupied(*world, qx, qy) implies scan_at_or_before(
                    w,
                    h,
                    p.0 as int,
                    p.1 as int,
                    qx as int,
                    qy as int,
                ) by {
                    lemma_positions_occupied(world.players@, positions@, qx, qy);
                    assert(free_cell(world.map_cells@, w, h, positions@, qx, qy));
                }
                assert(open_unoccupied(*world, p.0, p.1));
            }
            p
        },
        None => {
            proof {
                assert forall|x: usize, y: usize| !open_unoccupied(*world, x, y) by {
                    assert(!free_cell(world.map_cells@, w, h, positions@, x, y));
                    if x < w && y < h {
                        lemma_positions_occupied(world.players@, positions@, x, y);
                    }
                }
            }
            (1, 1)
        },
    }
}

// ---------------------------------------------------------------------------
// Bulk reallocation after a maze regeneration, and the counting argument that
// shows all players land on pairwise distinct open cells whenever the grid
// has at least as many open cells as there are players.
// ---------------------------------------------------------------------------

/// Free cells among the first `n` grid indices, given the taken positions.
pub open spec fn free_count(cells: Seq<u8>, w: int, taken: Seq<(usize, usize)>, n: int) -> int
    decreases n,
{
    if n <= 0 {
        0
    } else {
        free_count(cells, w, taken, n - 1) + if cells[n - 1] == 0 && !taken.contains(
            ((((n - 1) % w) as usize), (((n - 1) / w) as usize)),
        ) {
            1int
        } else {
            0int
        }
    }
}

proof fn lemma_contains_push<T>(s: Seq<T>, p: T, q: T)
    ensures
        s.push(p).contains(q) == (s.contains(q) || q == p),
{
    if s.push(p).contains(q) {
        let k = choose|k: int| 0 <= k < s.push(p).len() && s.push(p)[k] == q;
        if k < s.len() {
            assert(s[k] == q);
        }
    }
    if s.contains(q) {
        let k = choose|k: int| 0 <= k < s.len() && s[k] == q;
        assert(s.push(p)[k] == q);
    }
    if q == p {
        assert(s.push(p)[s.len() as int] == q);
    }
}

proof fn lemma_div_decode(i: int, w: int, h: int)
    by (nonlinear_arith)
    requires
        w >= 1,
        h >= 1,
        0 <= i < w * h,
    ensures
        0 <= i % w < w,
        0 <= i / w < h,
        (i / w) * w + (i % w) == i,
{
}

/// Taking one more position lowers the free count by at most one; a position
/// whose index lies beyond the scanned prefix does not lower it at all.
proof fn lemma_free_count_push(
    cells: Seq<u8>,
    w: int,
    h: int,
    taken: Seq<(usize, usize)>,
    p: (usize, usize),
    n: int,
)
    requires
        w >= 1,
        h >= 1,
        w <= usize::MAX,
        h <= usize::MAX,
        n <= w * h,
    ensures
        free_count(cells, w, taken.push(p), n) >= free_count(cells, w, taken, n) - 1,
        (p.0 as int >= w || (p.1 as int) * w + (p.0 as int) >= n) ==> free_count(
            cells,
            w,
            taken.push(p),
            n,
        ) == free_count(cells, w, taken, n),
    decreases n,
{
    if n > 0 {
        let m = n - 1;
        lemma_div_decode(m, w, h);
        let mx = ((m % w) as usize, (m / w) as usize);
        lemma_contains_push(taken, p, mx);
        if mx == p {
            // the prefix below m cannot decode to p again
            assert(p.0 as int == m % w);
            assert(p.1 as int == m / w);
            assert((p.1 as int) * w + (p.0 as int) == m);
            lemma_free_count_push(cells, w, h, taken, p, m);
        } else {
            lemma_free_count_push(cells, w, h, taken, p, m);
        }
    }
}

/// With nothing taken, the free count is exactly the open-cell count.
proof fn lemma_free_count_empty(cells: Seq<u8>, w: int, n: int)
    requires
        0 <= n <= cells.len(),
    ensures
        free_count(cells, w, Seq::<(usize, usize)>::empty(), n) == count_open(cells.take(n)),
    decreases n,
{
    if n > 0 {
        lemma_free_count_empty(cells, w, n - 1);
        assert(cells.take(n).drop_last() =~= cells.take(n - 1));
        assert(!Seq::<(usize, usize)>::empty().contains(
            ((((n - 1) % w) as usize), (((n - 1) / w) as usize)),
        ));
        assert(cells.take(n).last() == cells[n - 1]);
    }
}

/// A positive free count exhibits a concrete free cell.
proof fn lemma_free_count_witness(
    cells: Seq<u8>,
    w: usize,
    h: usize,
    taken: Seq<(usize, usize)>,
    n: int,
)
    requires
        w >= 1,
        h >= 1,
        n <= w * h,
        cells.len() == w * h,
        free_count(cells, w as int, taken, n) > 0,
    ensures
        exists|x: usize, y: usize| free_cell(cells, w, h, taken, x, y),
    decreases n,
{
    if n > 0 {
        let m = n - 1;
        lemma_div_decode(m, w as int, h as int);
        if cells[m] == 0 && !taken.contains(((((m) % (w as int)) as usize), (((m) / (
        w as int)) as usize))) {
            let x = ((m) % (w as int)) as usize;
            let y = ((m) / (w as int)) as usize;
            assert((y as int) * (w as int) + (x as int) == m);
            assert(free_cell(cells, w, h, taken, x, y));
        } else {
            lemma_free_count_witness(cells, w, h, taken, m);
        }
    }
}

/// The positions already handed out to the first `k` players.
pub open spec fn assigned_prefix(players: Seq<Player>, k: int) -> Seq<(usize, usize)> {
    Seq::new(k as nat, |i: int| ((players[i].x), (players[i].y)))
}

/// Some in-bounds open cell avoids all the taken positions.
pub open spec fn some_free_cell(
    cells: Seq<u8>,
    w: usize,
    h: usize,
    taken: Seq<(usize, usize)>,
) -> bool {
    exists|qx: usize, qy: usize| free_cell(cells, w, h, taken, qx, qy)
}

/// Rank j of the bulk pass got exactly what the single-spawn scan would give
/// with the earlier ranks' cells taken: the first free cell of the
/// expanding-square scan, or the fixed fallback (1, 1) when none is left.
pub open spec fn rank_got_first_free(
    players: Seq<Player>,
    cells: Seq<u8>,
    w: usize,
    h: usize,
    j: int,
) -> bool {
    let taken = assigned_prefix(players, j);
    &&& (some_free_cell(cells, w, h, taken) ==> is_first_free(
        cells,
        w,
        h,
        taken,
        players[j].x,
        players[j].y,
    ))
    &&& (!some_free_cell(cells, w, h, taken) ==> players[j].x == 1 && players[j].y == 1)
}

/// All players stand on pairwise distinct cells.
pub open spec fn distinct_positions(players: Seq<Player>) -> bool {
    forall|i: int, j: int|
        0 <= i < j < players.len() ==> ((#[trigger] players[i]).x != (#[trigger] players[j]).x
            || players[i].y != players[j].y)
}

/// Reassigns every player a spawn on a fresh grid, in the stored (ascending
/// id) order, never reusing a cell that this pass already handed out: rank
/// by rank, each player gets the first free cell of the expanding-square
/// scan given the cells of the earlier ranks, or the fixed fallback (1, 1)
/// when none is left. That pins every position, so the outcome depends only
/// on the grid and the id order. When the grid has at least as many open
/// cells as players, the positions are pairwise distinct and all open.
pub fn allocate_unique_spawns_for_all(
    players: &mut Vec<Player>,
    cells: &Vec<u8>,
    w: usize,
    h: usize,
)
    requires
        grid_wf(cells@, w as int, h as int),
    ensures
        final(players)@.len() == old(players)@.len(),
        forall|k: int|
            0 <= k < final(players)@.len() ==> (#[trigger] final(players)@[k]).id
                == old(players)@[k].id,
        forall|k: int|
            0 <= k < final(players)@.len() ==> (#[trigger] final(players)@[k]).x < w
                && final(players)@[k].y < h,
        forall|k: int|
            0 <= k < final(players)@.len() ==> open_at(
                cells@,
                w as int,
                (#[trigger] final(players)@[k]).x as int,
                final(players)@[k].y as int,
            ) || (final(players)@[k].x == 1 && final(players)@[k].y == 1),
        forall|k: int|
            0 <= k < final(players)@.len() ==> #[trigger] rank_got_first_free(
                final(players)@,
                cells@,
                w,
                h,
                k,
            ),
        forall|k: int|
            0 <= k < final(players)@.len() && k < count_open(cells@) ==> #[trigger] some_free_cell(
                cells@,
                w,
                h,
                assigned_prefix(final(players)@, k),
            ),
        old(players)@.len() <= count_open(cells@) ==> distinct_positions(final(players)@),
        old(players)@.len() <= count_open(cells@) ==> (forall|k: int|
            0 <= k < final(players)@.len() ==> open_at(
                cells@,
                w as int,
                (#[trigger] final(players)@[k]).x as int,
                final(players)@[k].y as int,
            )),
{
    let n = cells.len();
    let ghost entry_players = players@;
    let ghost hypo = entry_players.len() <= count_open(cells@);
    let mut used: Vec<(usize, usize)> = Vec::new();
    proof {
        lemma_free_count_empty(cells@, w as int, (w as int) * (h as int));
        assert(cells@.take((w as int) * (h as int)) =~= cells@);
    }
    let mut k: usize = 0;
    while k < players.len()
        invariant
            grid_wf(cells@, w as int, h as int),
            w * h <= usize::MAX,
            k <= players@.len(),
            players@.len() == entry_players.len(),
            used@.len() == k,
            forall|j: int| 0 <= j < players@.len() ==> (#[trigger] players@[j]).id
                == entry_players[j].id,
            forall|j: int| k <= j < players@.len() ==> #[trigger] players@[j]
                == entry_players[j],
            forall|j: int|
                0 <= j < k ==> (#[trigger] players@[j]).x < w && players@[j].y < h,
            forall|j: int|
                0 <= j < k ==> #[trigger] used@[j] == ((players@[j].x), (players@[j].y)),
            forall|j: int|
                0 <= j < k ==> open_at(
                    cells@,
                    w as int,
                    (#[trigger] players@[j]).x as int,
                    players@[j].y as int,
                ) || (players@[j].x == 1 && players@[j].y == 1),
            forall|j: int|
                0 <= j < k ==> #[trigger] rank_got_first_free(players@, cells@, w, h, j),
            forall|j: int|
                0 <= j < k && j < count_open(cells@) ==> #[trigger] some_free_cell(
                    cells@,
                    w,
                    h,
                    assigned_prefix(players@, j),
                ),
            hypo == (entry_players.len() <= count_open(cells@)),
            free_count(cells@, w as int, used@, (w as int) * (h as int)) >= count_open(cells@) - k,
            hypo ==> (forall|i: int, j: int|
                0 <= i < j < k ==> #[trigger] used@[i] != #[trigger] used@[j]),
            hypo ==> (forall|j: int|
                0 <= j < k ==> open_at(
                    cells@,
                    w as int,
                    (#[trigger] players@[j]).x as int,
                    players@[j].y as int,
                )),
        decreases players@.len() - k,
    {
        proof {
            if hypo || (k as int) < count_open(cells@) {
                assert(free_count(cells@, w as int, used@, (w as int) * (h as int)) > 0);
                lemma_free_count_witness(cells@, w, h, used@, (w as int) * (h as int));
            }
        }
        let found = find_first_free(cells, w, h, &used);
        let pos = match found {
            Some(p) => p,
            None => (1, 1),
        };
        proof {
            if hypo {
                assert(found is Some);
            }
        }
        let pid = players[k].id;
        let ghost players_before = players@;
        players.set(k, Player { id: pid, x: pos.0, y: pos.1 });
        let ghost used_before = used@;
        used.push(pos);
        k = k + 1;
        proof {
            // the taken list handed to the scan is exactly the positions of
            // the earlier ranks, unchanged by this rank's update
            assert(assigned_prefix(players@, k - 1) =~= used_before);
            assert(rank_got_first_free(players@, cells@, w, h, k - 1));
            assert forall|j: int| 0 <= j < k - 1 implies #[trigger] rank_got_first_free(
                players@,
                cells@,
                w,
                h,
                j,
            ) by {
                assert(assigned_prefix(players@, j) =~= assigned_prefix(players_before, j));
                assert(players@[j] == players_before[j]);
                assert(rank_got_first_free(players_before, cells@, w, h, j));
            }
            assert forall|j: int|
                0 <= j < k - 1 && j < count_open(cells@) implies #[trigger] some_free_cell(
                cells@,
                w,
                h,
                assigned_prefix(players@, j),
            ) by {
                assert(assigned_prefix(players@, j) =~= assigned_prefix(players_before, j));
                assert(some_free_cell(cells@, w, h, assigned_prefix(players_before, j)));
            }
            if (k - 1) < count_open(cells@) {
                lemma_free_count_witness(cells@, w, h, used_before, (w as int) * (h as int));
                assert(some_free_cell(cells@, w, h, used_before));
                assert(some_free_cell(cells@, w, h, assigned_prefix(players@, k - 1)));
            }
            lemma_free_count_push(
                cells@,
                w as int,
                h as int,
                used_before,
                pos,
                (w as int) * (h as int),
            );
            if hypo {
                assert forall|i: int, j: int| 0 <= i < j < k implies #[trigger] used@[i]
                    != #[trigger] used@[j] by {
                    if j == k - 1 {
                        assert(!used_before.contains(pos));
                        assert(used_before[i] == used@[i]);
                    }
                }
            }
        }
    }
    proof {
        if hypo {
            assert forall|i: int, j: int| 0 <= i < j < players@.len() implies ((
            #[trigger] players@[i]).x != (#[trigger] players@[j]).x || players@[i].y
                != players@[j].y) by {
                assert(used@[i] != used@[j]);
                assert(used@[i] == ((players@[i].x), (players@[i].y)));
                assert(used@[j] == ((players@[j].x), (players@[j].y)));
            }
        }
    }
}

} // verus!
