use vstd::prelude::*;
use vstd::slice::SliceAdditionalExecFns;
use crate::maze::lemma_idx_bound;
use crate::world::Player;

verus! {

/// The pixel of a row-major framebuffer at column x, row y.
pub open spec fn pix(buf: Seq<u32>, w: int, x: int, y: int) -> u32 {
    buf[y * w + x]
}

/// The 0x00RRGGBB encoding of a color.
pub open spec fn rgb_val(r: u8, g: u8, b: u8) -> u32 {
    ((r as u32) << 16u32) | ((g as u32) << 8u32) | (b as u32)
}

/// Packs a color as 0x00RRGGBB.
pub fn rgb(r: u8, g: u8, b: u8) -> (c: u32)
    ensures
        c == rgb_val(r, g, b),
{
    ((r as u32) << 16u32) | ((g as u32) << 8u32) | (b as u32)
}

/// One row of the framebuffer holds `w` pixels; rows beyond `len / w` do not
/// exist, and a request aimed there is ignored.
proof fn lemma_row_fits(w: int, y: int, len: int)
    by (nonlinear_arith)
    requires
        w >= 1,
        0 <= y,
        y < len / w,
    ensures
        y * w + w <= len,
        0 <= y * w,
{
}

/// A pixel index decodes to its column and row.
proof fn lemma_pix_decode(w: int, x: int, y: int)
    by (nonlinear_arith)
    requires
        w >= 1,
        0 <= x < w,
        0 <= y,
    ensures
        (y * w + x) % w == x,
        (y * w + x) / w == y,
{
}

/// Paints the horizontal run from x0 to min(x1, w-1) of row y, when that row
/// exists; everything else is untouched.
pub fn draw_hline(buf: &mut Vec<u32>, w: usize, y: usize, x0: usize, x1: usize, color: u32)
    requires
        w >= 1,
    ensures
        final(buf)@.len() == old(buf)@.len(),
        y >= old(buf)@.len() as int / w as int ==> final(buf)@ == old(buf)@,
        y < old(buf)@.len() as int / w as int ==> (forall|x: int|
            x0 <= x <= x1 && x < w ==> #[trigger] pix(final(buf)@, w as int, x, y as int)
                == color) && (forall|i: int|
            0 <= i < old(buf)@.len() && (i < (y as int) * (w as int) + x0 || i > (y as int) * (
            w as int) + (if x1 < w {
                x1 as int
            } else {
                (w - 1) as int
            })) ==> final(buf)@[i] == old(buf)@[i]),
{
    let n = buf.len();
    if y >= n / w {
        return ;
    }
    proof {
        lemma_row_fits(w as int, y as int, n as int);
    }
    let row = y * w;
    let xm = if x1 < w {
        x1
    } else {
        w - 1
    };
    let mut x = x0;
    while x <= xm
        invariant
            w >= 1,
            buf@.len() == n,
            row == y * w,
            xm < w,
            (y as int) * (w as int) + (w as int) <= n,
            x0 <= x,
            forall|xx: int|
                x0 <= xx < x && xx <= xm ==> #[trigger] pix(buf@, w as int, xx, y as int) == color,
            forall|i: int|
                0 <= i < n && (i < row + x0 || i > row + xm) ==> buf@[i] == old(buf)@[i],
        decreases xm + 1 - x,
    {
        let ghost b0 = buf@;
        buf.set(row + x, color);
        proof {
            assert forall|xx: int|
                x0 <= xx <= x && xx <= xm implies pix(buf@, w as int, xx, y as int) == color by {
                assert(0 <= (y as int) * (w as int) + xx < n);
                if xx < x {
                    assert(pix(b0, w as int, xx, y as int) == color);
                }
            }
        }
        x = x + 1;
    }
}

/// Paints the vertical run of column x from row y0 to min(y1, len/w - 1);
/// everything else is untouched.
pub fn draw_vline(buf: &mut Vec<u32>, w: usize, x: usize, y0: usize, y1: usize, color: u32)
    requires
        w >= 1,
        old(buf)@.len() >= w,
    ensures
        final(buf)@.len() == old(buf)@.len(),
        x >= w ==> final(buf)@ == old(buf)@,
        x < w ==> (forall|yy: int|
            y0 <= yy <= y1 && yy < old(buf)@.len() as int / w as int ==> #[trigger] pix(
                final(buf)@,
                w as int,
                x as int,
                yy,
            ) == color) && (forall|i: int|
            0 <= i < old(buf)@.len() && (i % (w as int) != x || i / (w as int) < y0 || i / (
            w as int) > y1) ==> final(buf)@[i] == old(buf)@[i]),
{
    let n = buf.len();
    if x >= w {
        return ;
    }
    proof {
        assert((n as int) / (w as int) >= 1) by (nonlinear_arith)
            requires
                w as int >= 1,
                n as int >= w as int,
        ;
    }
    let ym = if y1 < n / w {
        y1
    } else {
        n / w - 1
    };
    let mut y = y0;
    while y <= ym
        invariant
            w >= 1,
            x < w,
            buf@.len() == n,
            ym < n as int / w as int,
            y0 <= y,
            ym <= y1,
            forall|yy: int|
                y0 <= yy < y && yy <= ym ==> #[trigger] pix(buf@, w as int, x as int, yy) == color,
            forall|i: int|
                0 <= i < n && (i % (w as int) != x || i / (w as int) < y0 || i / (w as int) > y1)
                    ==> buf@[i] == old(buf)@[i],
        decreases ym + 1 - y,
    {
        proof {
            lemma_row_fits(w as int, y as int, n as int);
            lemma_pix_decode(w as int, x as int, y as int);
        }
        let ghost b0 = buf@;
        buf.set(y * w + x, color);
        proof {
            assert forall|yy: int|
                y0 <= yy <= y && yy <= ym implies pix(buf@, w as int, x as int, yy) == color by {
                lemma_row_fits(w as int, yy, n as int);
                if yy < y {
                    assert(pix(b0, w as int, x as int, yy) == color);
                }
            }
            assert forall|i: int|
                0 <= i < n && (i % (w as int) != x || i / (w as int) < y0 || i / (
                w as int) > y1) implies buf@[i] == old(buf)@[i] by {
                vstd::arithmetic::div_mod::lemma_fundamental_div_mod(i, w as int);
                assert(i != (y as int) * (w as int) + x as int);
                assert(b0[i] == old(buf)@[i]);
            }
        }
        y = y + 1;
    }
    proof {
        assert forall|yy: int|
            y0 <= yy <= y1 && yy < n as int / w as int implies #[trigger] pix(
            buf@,
            w as int,
            x as int,
            yy,
        ) == color by {
            assert(yy <= ym);
        }
    }
}

/// The background palette: a faint grid line every 20 pixels over a dark fill.
pub open spec fn background_pixel(x: int, y: int) -> u32 {
    if x % 20 == 0 || y % 20 == 0 {
        rgb_val(60, 60, 70)
    } else {
        rgb_val(16, 16, 20)
    }
}

/// A dark background with a faint alignment grid every 20 pixels.
pub fn draw_background(buf: &mut Vec<u32>, w: usize, h: usize)
    requires
        w >= 1,
        h >= 1,
        old(buf)@.len() == w * h,
    ensures
        final(buf)@.len() == old(buf)@.len(),
        forall|x: int, y: int|
            0 <= x < w && 0 <= y < h ==> #[trigger] pix(final(buf)@, w as int, x, y)
                == background_pixel(x, y),
{
    let bg = rgb(16, 16, 20);
    let line = rgb(60, 60, 70);
    let n = buf.len();
    let mut y: usize = 0;
    while y < h
        invariant
            w >= 1,
            h >= 1,
            buf@.len() == n,
            n == w * h,
            bg == rgb_val(16, 16, 20),
            line == rgb_val(60, 60, 70),
            y <= h,
            forall|xx: int, yy: int|
                0 <= xx < w && 0 <= yy < y ==> #[trigger] pix(buf@, w as int, xx, yy)
                    == background_pixel(xx, yy),
        decreases h - y,
    {
        let mut x: usize = 0;
        while x < w
            invariant
                w >= 1,
                h >= 1,
                buf@.len() == n,
                n == w * h,
                bg == rgb_val(16, 16, 20),
                line == rgb_val(60, 60, 70),
                y < h,
                x <= w,
                forall|xx: int, yy: int|
                    0 <= xx < w && 0 <= yy < y ==> #[trigger] pix(buf@, w as int, xx, yy)
                        == background_pixel(xx, yy),
                forall|xx: int|
                    0 <= xx < x ==> #[trigger] pix(buf@, w as int, xx, y as int)
                        == background_pixel(xx, y as int),
            decreases w - x,
        {
            proof {
                lemma_idx_bound(w as int, h as int, x as int, y as int);
            }
            let c = if x % 20 == 0 || y % 20 == 0 {
                line
            } else {
                bg
            };
            let ghost b0 = buf@;
            buf.set(y * w + x, c);
            proof {
                assert(buf@[(y as int) * (w as int) + (x as int)] == c);
                assert(c == background_pixel(x as int, y as int));
                assert forall|xx: int, yy: int|
                    0 <= xx < w && 0 <= yy < y implies #[trigger] pix(buf@, w as int, xx, yy)
                    == background_pixel(xx, yy) by {
                    lemma_idx_bound(w as int, h as int, xx, yy);
                    crate::maze::lemma_idx_ne(w as int, xx, yy, x as int, y as int);
                    assert(pix(b0, w as int, xx, yy) == background_pixel(xx, yy));
                }
                assert forall|xx: int|
                    0 <= xx < x + 1 implies #[trigger] pix(buf@, w as int, xx, y as int)
                    == background_pixel(xx, y as int) by {
                    lemma_idx_bound(w as int, h as int, xx, y as int);
                    if xx < x {
                        crate::maze::lemma_idx_ne(w as int, xx, y as int, x as int, y as int);
                        assert(pix(b0, w as int, xx, y as int) == background_pixel(xx, y as int));
                    }
                }
            }
            x = x + 1;
        }
        y = y + 1;
    }
}

/// Horizontal pixels per maze cell: floor(w/mw), at least 1.
pub open spec fn cell_w(w: usize, mw: usize) -> usize {
    if w / mw >= 1 {
        (w / mw) as usize
    } else {
        1usize
    }
}

/// Vertical pixels per maze cell: floor(h/mh), at least 1.
pub open spec fn cell_h(h: usize, mh: usize) -> usize {
    if h / mh >= 1 {
        (h / mh) as usize
    } else {
        1usize
    }
}

fn cell_w_exec(w: usize, mw: usize) -> (r: usize)
    requires
        w >= 1,
        mw >= 1,
    ensures
        r == cell_w(w, mw),
        r >= 1,
        r <= w,
{
    if w / mw >= 1 {
        w / mw
    } else {
        1
    }
}

fn cell_h_exec(h: usize, mh: usize) -> (r: usize)
    requires
        h >= 1,
        mh >= 1,
    ensures
        r == cell_h(h, mh),
        r >= 1,
        r <= h,
{
    if h / mh >= 1 {
        h / mh
    } else {
        1
    }
}

/// A pixel inside the tiled region maps to an in-range cell coordinate.
proof fn lemma_tile_coord(p: int, c: int, m: int)
    by (nonlinear_arith)
    requires
        c >= 1,
        m >= 1,
        0 <= p < m * c,
    ensures
        0 <= p / c < m,
{
}

/// What draw_maze_into leaves at column x, row y: a wall cell paints its
/// whole floor(w/mw) x floor(h/mh) rectangle, every other pixel is the dark
/// background.
pub open spec fn maze_pixel(cells: Seq<u8>, w: usize, h: usize, mw: usize, mh: usize, x: int, y: int) -> u32 {
    if x < (mw as int) * (cell_w(w, mw) as int) && y < (mh as int) * (cell_h(h, mh) as int)
        && cells[(y / (cell_h(h, mh) as int)) * (mw as int) + x / (cell_w(w, mw) as int)] != 0 {
        rgb_val(200, 200, 200)
    } else {
        rgb_val(16, 16, 20)
    }
}

/// Scales the maze to the framebuffer: each maze cell covers a rectangle of
/// floor(w/mw) x floor(h/mh) pixels (at least 1 x 1) anchored at the top
/// left; wall cells paint their rectangle, everything else is background.
pub fn draw_maze_into(
    buf: &mut Vec<u32>,
    w: usize,
    h: usize,
    mw: usize,
    mh: usize,
    cells: &Vec<u8>,
)
    requires
        w >= 1,
        h >= 1,
        mw >= 1,
        mh >= 1,
        old(buf)@.len() == w * h,
        cells@.len() == mw * mh,
    ensures
        final(buf)@.len() == old(buf)@.len(),
        forall|x: int, y: int|
            0 <= x < w && 0 <= y < h ==> #[trigger] pix(final(buf)@, w as int, x, y) == maze_pixel(
                cells@,
                w,
                h,
                mw,
                mh,
                x,
                y,
            ),
{
    let bg = rgb(16, 16, 20);
    let wall = rgb(200, 200, 200);
    let cw = cell_w_exec(w, mw);
    let ch = cell_h_exec(h, mh);
    let n = buf.len();
    let nc = cells.len();
    let mut y: usize = 0;
    while y < h
        invariant
            w >= 1,
            h >= 1,
            mw >= 1,
            mh >= 1,
            cw == cell_w(w, mw),
            ch == cell_h(h, mh),
            cw >= 1,
            ch >= 1,
            bg == rgb_val(16, 16, 20),
            wall == rgb_val(200, 200, 200),
            buf@.len() == n,
            n == w * h,
            cells@.len() == mw * mh,
            mw * mh <= usize::MAX,
            y <= h,
            forall|xx: int, yy: int|
                0 <= xx < w && 0 <= yy < y ==> #[trigger] pix(buf@, w as int, xx, yy) == maze_pixel(
                    cells@,
                    w,
                    h,
                    mw,
                    mh,
                    xx,
                    yy,
                ),
        decreases h - y,
    {
        let mut x: usize = 0;
        while x < w
            invariant
                w >= 1,
                h >= 1,
                mw >= 1,
                mh >= 1,
                cw == cell_w(w, mw),
                ch == cell_h(h, mh),
                cw >= 1,
                ch >= 1,
                bg == rgb_val(16, 16, 20),
                wall == rgb_val(200, 200, 200),
                buf@.len() == n,
                n == w * h,
                cells@.len() == mw * mh,
                mw * mh <= usize::MAX,
                y < h,
                x <= w,
                forall|xx: int, yy: int|
                    0 <= xx < w && 0 <= yy < y ==> #[trigger] pix(buf@, w as int, xx, yy)
                        == maze_pixel(cells@, w, h, mw, mh, xx, yy),
                forall|xx: int|
                    0 <= xx < x ==> #[trigger] pix(buf@, w as int, xx, y as int) == maze_pixel(
                        cells@,
                        w,
                        h,
                        mw,
                        mh,
                        xx,
                        y as int,
                    ),
            decreases w - x,
        {
            proof {
                lemma_idx_bound(w as int, h as int, x as int, y as int);
            }
            proof {
                lemma_mul_le(w as int, mw as int, cw as int);
                lemma_mul_le(h as int, mh as int, ch as int);
            }
            let c = if x < mw * cw && y < mh * ch {
                let cxi = x / cw;
                let cyi = y / ch;
                proof {
                    lemma_mul_le(w as int, mw as int, cw as int);
                    lemma_mul_le(h as int, mh as int, ch as int);
                    lemma_tile_coord(x as int, cw as int, mw as int);
                    lemma_tile_coord(y as int, ch as int, mh as int);
                    lemma_idx_bound(mw as int, mh as int, cxi as int, cyi as int);
                }
                if cells[cyi * mw + cxi] != 0 {
                    wall
                } else {
                    bg
                }
            } else {
                bg
            };
            let ghost b0 = buf@;
            buf.set(y * w + x, c);
            proof {
                lemma_mul_le(w as int, mw as int, cw as int);
                lemma_mul_le(h as int, mh as int, ch as int);
                assert(buf@[(y as int) * (w as int) + (x as int)] == c);
                assert(c == maze_pixel(cells@, w, h, mw, mh, x as int, y as int));
                assert(pix(buf@, w as int, x as int, y as int) == maze_pixel(
                    cells@,
                    w,
                    h,
                    mw,
                    mh,
                    x as int,
                    y as int,
                ));
                assert forall|xx: int, yy: int|
                    0 <= xx < w && 0 <= yy < y implies #[trigger] pix(buf@, w as int, xx, yy)
                    == maze_pixel(cells@, w, h, mw, mh, xx, yy) by {
                    lemma_idx_bound(w as int, h as int, xx, yy);
                    crate::maze::lemma_idx_ne(w as int, xx, yy, x as int, y as int);
                    assert(pix(b0, w as int, xx, yy) == maze_pixel(cells@, w, h, mw, mh, xx, yy));
                }
                assert forall|xx: int|
                    0 <= xx < x + 1 implies #[trigger] pix(buf@, w as int, xx, y as int)
                    == maze_pixel(cells@, w, h, mw, mh, xx, y as int) by {
                    lemma_idx_bound(w as int, h as int, xx, y as int);
                    if xx < x {
                        crate::maze::lemma_idx_ne(w as int, xx, y as int, x as int, y as int);
                        assert(pix(b0, w as int, xx, y as int) == maze_pixel(
                            cells@,
                            w,
                            h,
                            mw,
                            mh,
                            xx,
                            y as int,
                        ));
                    }
                }
            }
            x = x + 1;
        }
        y = y + 1;
    }
}

/// The tiled region never extends past the framebuffer edge that produced it.
proof fn lemma_mul_le(p: int, m: int, c: int)
    by (nonlinear_arith)
    requires
        p >= 1,
        m >= 1,
        c >= 1,
        c == if p / m >= 1 {
            p / m
        } else {
            1
        },
    ensures
        p / m >= 1 ==> m * c <= p,
        p / m < 1 ==> m * c == m,
{
}

/// A pixel inside the disc of radius r around (cx, cy).
pub open spec fn in_disc(px: int, py: int, cx: int, cy: int, r: int) -> bool {
    (px - cx) * (px - cx) + (py - cy) * (py - cy) <= r * r
}

proof fn lemma_sq_facts(a: int, r: int)
    by (nonlinear_arith)
    requires
        0 <= r,
    ensures
        a * a >= 0,
        (a > r || a < -r) ==> a * a > r * r,
        -20000 <= a <= 20000 ==> a * a <= 400000000,
{
}

/// Fills the disc of the given radius around (cx, cy), clipped to the
/// framebuffer: a pixel inside the disc (and inside the w x (len/w) area)
/// takes the color, every pixel outside the disc keeps its value.
pub fn draw_disc(buf: &mut Vec<u32>, w: usize, cx: i64, cy: i64, r: i64, color: u32)
    requires
        w >= 1,
        0 <= r <= 10000,
        -1000000 <= cx <= 1000000,
        -1000000 <= cy <= 1000000,
    ensures
        final(buf)@.len() == old(buf)@.len(),
        forall|i: int|
            0 <= i < final(buf)@.len() && !in_disc(
                i % (w as int),
                i / (w as int),
                cx as int,
                cy as int,
                r as int,
            ) ==> final(buf)@[i] == old(buf)@[i],
        forall|i: int|
            0 <= i < final(buf)@.len() ==> final(buf)@[i] == old(buf)@[i] || final(buf)@[i]
                == color,
        forall|px: int, py: int|
            0 <= px < w && 0 <= py < old(buf)@.len() as int / w as int && in_disc(
                px,
                py,
                cx as int,
                cy as int,
                r as int,
            ) ==> #[trigger] pix(final(buf)@, w as int, px, py) == color,
{
    let n = buf.len();
    let hrows = n / w;
    proof {
        lemma_sq_facts(r as int, r as int);
    }
    let r2 = r * r;
    proof {
        assert forall|px: int, py: int|
            0 <= px < w && 0 <= py < hrows && in_disc(px, py, cx as int, cy as int, r as int) && py
                < cy - r implies #[trigger] pix(buf@, w as int, px, py) == color by {
            lemma_sq_facts(py - cy as int, r as int);
            lemma_sq_facts(px - cx as int, r as int);
        }
    }
    let mut dy: i64 = -r;
    while dy <= r
        invariant
            w >= 1,
            0 <= r <= 10000,
            -1000000 <= cx <= 1000000,
            -1000000 <= cy <= 1000000,
            r2 == r * r,
            buf@.len() == n,
            hrows == n as int / w as int,
            -r <= dy <= r + 1,
            forall|i: int|
                0 <= i < n && !in_disc(
                    i % (w as int),
                    i / (w as int),
                    cx as int,
                    cy as int,
                    r as int,
                ) ==> buf@[i] == old(buf)@[i],
            forall|i: int| 0 <= i < n ==> buf@[i] == old(buf)@[i] || buf@[i] == color,
            forall|px: int, py: int|
                0 <= px < w && 0 <= py < hrows && in_disc(px, py, cx as int, cy as int, r as int)
                    && py < cy + dy ==> #[trigger] pix(buf@, w as int, px, py) == color,
        decreases r + 1 - dy,
    {
        proof {
            assert forall|px: int|
                0 <= px < w && 0 <= cy + dy < hrows && in_disc(
                    px,
                    cy as int + dy as int,
                    cx as int,
                    cy as int,
                    r as int,
                ) && px < cx - r implies #[trigger] pix(buf@, w as int, px, cy as int + dy as int)
                == color by {
                lemma_sq_facts(px - cx as int, r as int);
                lemma_sq_facts(dy as int, r as int);
            }
        }
        let mut dx: i64 = -r;
        while dx <= r
            invariant
                w >= 1,
                0 <= r <= 10000,
                -1000000 <= cx <= 1000000,
                -1000000 <= cy <= 1000000,
                r2 == r * r,
                buf@.len() == n,
                hrows == n as int / w as int,
                -r <= dy <= r,
                -r <= dx <= r + 1,
                forall|i: int|
                    0 <= i < n && !in_disc(
                        i % (w as int),
                        i / (w as int),
                        cx as int,
                        cy as int,
                        r as int,
                    ) ==> buf@[i] == old(buf)@[i],
                forall|i: int| 0 <= i < n ==> buf@[i] == old(buf)@[i] || buf@[i] == color,
                forall|px: int, py: int|
                    0 <= px < w && 0 <= py < hrows && in_disc(
                        px,
                        py,
                        cx as int,
                        cy as int,
                        r as int,
                    ) && py < cy + dy ==> #[trigger] pix(buf@, w as int, px, py) == color,
                forall|px: int|
                    0 <= px < w && 0 <= cy + dy < hrows && in_disc(
                        px,
                        cy as int + dy as int,
                        cx as int,
                        cy as int,
                        r as int,
                    ) && px < cx + dx ==> #[trigger] pix(buf@, w as int, px, cy as int + dy as int)
                        == color,
            decreases r + 1 - dx,
        {
            proof {
                lemma_sq_facts(dx as int, r as int);
                lemma_sq_facts(dy as int, r as int);
            }
            let ghost b0 = buf@;
            if dx * dx + dy * dy <= r2 {
                let x = cx + dx;
                let y = cy + dy;
                if x >= 0 && y >= 0 && (x as usize) < w && ((y as usize) < hrows) {
                    proof {
                        lemma_row_fits(w as int, y as int, n as int);
                        lemma_pix_decode(w as int, x as int, y as int);
                    }
                    buf.set((y as usize) * w + (x as usize), color);
                }
            }
            proof {
                assert forall|i: int|
                    0 <= i < n && !in_disc(
                        i % (w as int),
                        i / (w as int),
                        cx as int,
                        cy as int,
                        r as int,
                    ) implies buf@[i] == old(buf)@[i] by {
                    assert(b0[i] == old(buf)@[i]);
                    if buf@[i] != b0[i] {
                        lemma_pix_decode(w as int, cx as int + dx as int, cy as int + dy as int);
                    }
                }
                assert forall|px: int, py: int|
                    0 <= px < w && 0 <= py < hrows && in_disc(
                        px,
                        py,
                        cx as int,
                        cy as int,
                        r as int,
                    ) && py < cy + dy implies #[trigger] pix(buf@, w as int, px, py) == color by {
                    lemma_row_fits(w as int, py, n as int);
                    assert(pix(b0, w as int, px, py) == color);
                }
                assert forall|px: int|
                    0 <= px < w && 0 <= cy + dy < hrows && in_disc(
                        px,
                        cy as int + dy as int,
                        cx as int,
                        cy as int,
                        r as int,
                    ) && px < cx + dx + 1 implies #[trigger] pix(
                    buf@,
                    w as int,
                    px,
                    cy as int + dy as int,
                ) == color by {
                    lemma_row_fits(w as int, cy as int + dy as int, n as int);
                    if px < cx + dx {
                        assert(pix(b0, w as int, px, cy as int + dy as int) == color);
                    }
                }
            }
            dx = dx + 1;
        }
        proof {
            // every disc pixel on this row lies within dx in [-r, r]
            assert forall|px: int|
                0 <= px < w && 0 <= cy + dy < hrows && in_disc(
                    px,
                    cy as int + dy as int,
                    cx as int,
                    cy as int,
                    r as int,
                ) implies #[trigger] pix(buf@, w as int, px, cy as int + dy as int) == color by {
                lemma_sq_facts(px - cx as int, r as int);
                lemma_sq_facts(dy as int, r as int);
                assert(px < cx + dx);
            }
        }
        dy = dy + 1;
    }
    proof {
        // rows beyond cy + r hold no disc pixel
        assert forall|px: int, py: int|
            0 <= px < w && 0 <= py < hrows && in_disc(
                px,
                py,
                cx as int,
                cy as int,
                r as int,
            ) implies #[trigger] pix(buf@, w as int, px, py) == color by {
            lemma_sq_facts(py - cy as int, r as int);
            lemma_sq_facts(px - cx as int, r as int);
            assert(py < cy + dy);
        }
    }
}

/// Draws each player as a filled disc at the center of its maze cell; the
/// sizes mirror draw_maze_into's tiling. Every pixel either keeps its old
/// value or takes one of the given per-player colors.
pub fn draw_players(
    buf: &mut Vec<u32>,
    w: usize,
    h: usize,
    mw: usize,
    mh: usize,
    players: &Vec<Player>,
    colors: &Vec<u32>,
)
    requires
        w >= 1,
        h >= 1,
        mw >= 1,
        mh >= 1,
        w <= 1000000,
        h <= 1000000,
        mw <= 1000000,
        mh <= 1000000,
        old(buf)@.len() == w * h,
        colors@.len() == players@.len(),
    ensures
        final(buf)@.len() == old(buf)@.len(),
        forall|i: int|
            0 <= i < final(buf)@.len() ==> final(buf)@[i] == old(buf)@[i] || colors@.contains(
                #[trigger] final(buf)@[i],
            ),
{
    let cw = cell_w_exec(w, mw);
    let ch = cell_h_exec(h, mh);
    let side0 = if cw < ch {
        cw
    } else {
        ch
    };
    let side = if side0 >= 3 {
        side0
    } else {
        3
    };
    let radius = side / 3;
    let mut k: usize = 0;
    while k < players.len()
        invariant
            w >= 1,
            h >= 1,
            mw >= 1,
            mh >= 1,
            w <= 1000000,
            h <= 1000000,
            mw <= 1000000,
            mh <= 1000000,
            cw == cell_w(w, mw),
            ch == cell_h(h, mh),
            1 <= cw <= w,
            1 <= ch <= h,
            buf@.len() == old(buf)@.len(),
            colors@.len() == players@.len(),
            k <= players@.len(),
            forall|i: int|
                0 <= i < buf@.len() ==> buf@[i] == old(buf)@[i] || colors@.contains(
                    #[trigger] buf@[i],
                ),
        decreases players@.len() - k,
    {
        let p = players[k];
        if p.x < mw && p.y < mh && radius <= 10000 {
            proof {
                lemma_mul_le(w as int, mw as int, cw as int);
                lemma_mul_le(h as int, mh as int, ch as int);
                assert((p.x as int) * (cw as int) + (cw as int) <= (mw as int) * (cw as int))
                    by (nonlinear_arith)
                    requires
                        (p.x as int) < mw as int,
                        cw as int >= 1,
                ;
                assert((p.y as int) * (ch as int) + (ch as int) <= (mh as int) * (ch as int))
                    by (nonlinear_arith)
                    requires
                        (p.y as int) < mh as int,
                        ch as int >= 1,
                ;
            }
            let px = p.x * cw + cw / 2;
            let py = p.y * ch + ch / 2;
            let ghost before = buf@;
            draw_disc(buf, w, px as i64, py as i64, radius as i64, colors[k]);
            proof {
                assert(colors@.contains(colors@[k as int]));
                assert forall|i: int|
                    0 <= i < buf@.len() implies buf@[i] == old(buf)@[i] || colors@.contains(
                    #[trigger] buf@[i],
                ) by {
                    assert(buf@[i] == before[i] || buf@[i] == colors@[k as int]);
                }
            }
        }
        k = k + 1;
    }
}

} // verus!
