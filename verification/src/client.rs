use vstd::prelude::*;
use vstd::slice::SliceAdditionalExecFns;
use vstd::string::StrSliceExecFns;
use crate::render::pix;

verus! {

/// Client-side session bookkeeping: where it connects and whether the server
/// has acknowledged it.
pub struct App {
    pub connected: bool,
    pub username: String,
    pub server_addr: String,
}

impl App {
    pub fn new(server_addr: String, username: String, connected: bool) -> (a: App)
        ensures
            a.connected == connected,
            a.username@ == username@,
            a.server_addr@ == server_addr@,
    {
        App { connected, username, server_addr }
    }
}

/// Counts frames against host-reported elapsed time and publishes a reading
/// once a full second has accumulated.
pub struct FpsCounter {
    pub frames: u32,
    pub in_second_ms: u64,
    pub fps: u32,
}

/// One frame: the counters saturate instead of wrapping, and a completed
/// second publishes the frame count and starts a fresh second.
pub open spec fn fps_after_tick(c: FpsCounter, elapsed_ms: u64) -> FpsCounter {
    let frames1 = if c.frames == u32::MAX {
        c.frames
    } else {
        (c.frames + 1) as u32
    };
    let acc = if elapsed_ms > u64::MAX - c.in_second_ms {
        u64::MAX
    } else {
        (c.in_second_ms + elapsed_ms) as u64
    };
    if acc >= 1000 {
        FpsCounter { frames: 0, in_second_ms: 0, fps: frames1 }
    } else {
        FpsCounter { frames: frames1, in_second_ms: acc, fps: c.fps }
    }
}

impl FpsCounter {
    pub fn new() -> (c: FpsCounter)
        ensures
            c.frames == 0,
            c.in_second_ms == 0,
            c.fps == 0,
    {
        FpsCounter { frames: 0, in_second_ms: 0, fps: 0 }
    }

    /// Registers one rendered frame and the time since the previous one.
    pub fn tick(&mut self, elapsed_ms: u64)
        ensures
            *final(self) == fps_after_tick(*old(self), elapsed_ms),
    {
        let frames1 = if self.frames == u32::MAX {
            self.frames
        } else {
            self.frames + 1
        };
        let acc = if elapsed_ms > u64::MAX - self.in_second_ms {
            u64::MAX
        } else {
            self.in_second_ms + elapsed_ms
        };
        if acc >= 1000 {
            self.fps = frames1;
            self.frames = 0;
            self.in_second_ms = 0;
        } else {
            self.frames = frames1;
            self.in_second_ms = acc;
        }
    }
}

// ---------------------------------------------------------------------------
// A tiny 5x7 bitmap overlay font: digits, 'F', 'P', 'S', ':' and space.
// ---------------------------------------------------------------------------

pub open spec fn has_glyph(ch: char) -> bool {
    ch == '0' || ch == '1' || ch == '2' || ch == '3' || ch == '4' || ch == '5' || ch == '6' || ch
        == '7' || ch == '8' || ch == '9' || ch == 'F' || ch == 'P' || ch == 'S' || ch == ':' || ch
        == ' '
}

/// Seven rows of five bits each (most significant bit leftmost), for the
/// characters the overlay can show.
pub fn glyph_bits(ch: char) -> (r: Option<[u8; 7]>)
    ensures
        r is Some <==> has_glyph(ch),
{
    match ch {
        '0' => Some([0b01110, 0b10001, 0b10011, 0b10101, 0b11001, 0b10001, 0b01110]),
        '1' => Some([0b00100, 0b01100, 0b00100, 0b00100, 0b00100, 0b00100, 0b01110]),
        '2' => Some([0b01110, 0b10001, 0b00001, 0b00010, 0b00100, 0b01000, 0b11111]),
        '3' => Some([0b11110, 0b00001, 0b00001, 0b01110, 0b00001, 0b00001, 0b11110]),
        '4' => Some([0b00010, 0b00110, 0b01010, 0b10010, 0b11111, 0b00010, 0b00010]),
        '5' => Some([0b11111, 0b10000, 0b11110, 0b00001, 0b00001, 0b10001, 0b01110]),
        '6' => Some([0b00110, 0b01000, 0b10000, 0b11110, 0b10001, 0b10001, 0b01110]),
        '7' => Some([0b11111, 0b00001, 0b00010, 0b00100, 0b01000, 0b01000, 0b01000]),
        '8' => Some([0b01110, 0b10001, 0b10001, 0b01110, 0b10001, 0b10001, 0b01110]),
        '9' => Some([0b01110, 0b10001, 0b10001, 0b01111, 0b00001, 0b00010, 0b01100]),
        'F' => Some([0b11111, 0b10000, 0b11110, 0b10000, 0b10000, 0b10000, 0b10000]),
        'P' => Some([0b11110, 0b10001, 0b10001, 0b11110, 0b10000, 0b10000, 0b10000]),
        'S' => Some([0b01111, 0b10000, 0b10000, 0b01110, 0b00001, 0b00001, 0b11110]),
        ':' => Some([0b00000, 0b00100, 0b00100, 0b00000, 0b00100, 0b00100, 0b00000]),
        ' ' => Some([0b00000, 0b00000, 0b00000, 0b00000, 0b00000, 0b00000, 0b00000]),
        _ => None,
    }
}

/// Writes one pixel if it lies inside the w-column framebuffer.
fn put_pixel(buf: &mut Vec<u32>, w: usize, px: usize, py: usize, color: u32)
    requires
        w >= 1,
    ensures
        final(buf)@.len() == old(buf)@.len(),
        forall|i: int|
            0 <= i < old(buf)@.len() && !(px < w && py < old(buf)@.len() as int / w as int && i == (
            py as int) * (w as int) + px as int) ==> final(buf)@[i] == old(buf)@[i],
        (px < w && py < old(buf)@.len() as int / w as int) ==> pix(
            final(buf)@,
            w as int,
            px as int,
            py as int,
        ) == color,
{
    let n = buf.len();
    if px < w && py < n / w {
        proof {
            assert((py as int) * (w as int) + (w as int) <= n as int) by (nonlinear_arith)
                requires
                    w as int >= 1,
                    0 <= py as int,
                    (py as int) < (n as int) / (w as int),
            ;
        }
        buf.set(py * w + px, color);
    }
}

/// Whether this pixel value is the optional text background color.
pub open spec fn is_bg_color(bg: Option<u32>, v: u32) -> bool {
    bg is Some && v == bg->0
}

/// Renders the text with the overlay font at (x, y): glyph pixels take the
/// foreground color, each glyph's 6 x 7 box takes the background color when
/// one is given, and the pen advances 6 pixels per supported character and 4
/// otherwise. Only pixels in rows y..y+7 and at columns at or right of x are
/// touched, and a touched pixel only ever takes one of the two colors.
pub fn draw_text(buf: &mut Vec<u32>, w: usize, x: usize, y: usize, text: &str, fg: u32, bg: Option<
    u32,
>)
    requires
        w >= 1,
        x + 6 * text@.len() + 6 <= usize::MAX,
        y + 7 <= usize::MAX,
    ensures
        final(buf)@.len() == old(buf)@.len(),
        forall|i: int|
            0 <= i < old(buf)@.len() && (i / (w as int) < y || i / (w as int) >= y + 7) ==> final(buf)@[i] == old(buf)@[i],
        forall|i: int|
            0 <= i < old(buf)@.len() && i % (w as int) < x ==> final(buf)@[i] == old(buf)@[i],
        forall|i: int|
            0 <= i < old(buf)@.len() && i % (w as int) >= x + 6 * text@.len() ==> final(buf)@[i]
                == old(buf)@[i],
        forall|i: int|
            0 <= i < old(buf)@.len() ==> final(buf)@[i] == old(buf)@[i] || final(buf)@[i] == fg
                || is_bg_color(bg, final(buf)@[i]),
{
    let n = buf.len();
    let len = text.unicode_len();
    let mut pen: usize = x;
    let mut k: usize = 0;
    while k < len
        invariant
            w >= 1,
            buf@.len() == n,
            old(buf)@.len() == n,
            len == text@.len(),
            x + 6 * text@.len() + 6 <= usize::MAX,
            y + 7 <= usize::MAX,
            k <= len,
            x <= pen,
            pen <= x + 6 * k,
            forall|i: int|
                0 <= i < n && (i / (w as int) < y || i / (w as int) >= y + 7) ==> buf@[i] == old(buf)@[i],
            forall|i: int| 0 <= i < n && i % (w as int) < x ==> buf@[i] == old(buf)@[i],
            forall|i: int|
                0 <= i < n && i % (w as int) >= x + 6 * text@.len() ==> buf@[i] == old(buf)@[i],
            forall|i: int|
                0 <= i < n ==> buf@[i] == old(buf)@[i] || buf@[i] == fg || is_bg_color(
                    bg,
                    buf@[i],
                ),
        decreases len - k,
    {
        let ch = text.get_char(k);
        match glyph_bits(ch) {
            Some(bits) => {
                match bg {
                    Some(bgcol) => {
                        let mut ry: usize = 0;
                        while ry < 7
                            invariant
                                w >= 1,
                                buf@.len() == n,
                                old(buf)@.len() == n,
                                ry <= 7,
                                x <= pen,
                                pen + 6 <= usize::MAX,
                                pen + 6 <= x + 6 * text@.len(),
                                y + 7 <= usize::MAX,
                                is_bg_color(bg, bgcol),
                                forall|i: int|
                                    0 <= i < n && (i / (w as int) < y || i / (w as int) >= y + 7)
                                        ==> buf@[i] == old(buf)@[i],
                                forall|i: int|
                                    0 <= i < n && i % (w as int) < x ==> buf@[i] == old(buf)@[i],
                                forall|i: int|
                                    0 <= i < n && i % (w as int) >= x + 6 * text@.len() ==> buf@[i]
                                        == old(buf)@[i],
                                forall|i: int|
                                    0 <= i < n ==> buf@[i] == old(buf)@[i] || buf@[i] == fg
                                        || is_bg_color(bg, buf@[i]),
                            decreases 7 - ry,
                        {
                            let mut rx: usize = 0;
                            while rx < 6
                                invariant
                                    w >= 1,
                                    buf@.len() == n,
                                    old(buf)@.len() == n,
                                    ry < 7,
                                    rx <= 6,
                                    x <= pen,
                                    pen + 6 <= usize::MAX,
                                    pen + 6 <= x + 6 * text@.len(),
                                    y + 7 <= usize::MAX,
                                    is_bg_color(bg, bgcol),
                                    forall|i: int|
                                        0 <= i < n && (i / (w as int) < y || i / (w as int) >= y
                                            + 7) ==> buf@[i] == old(buf)@[i],
                                    forall|i: int|
                                        0 <= i < n && i % (w as int) < x ==> buf@[i] == old(buf)@[i],
                                    forall|i: int|
                                        0 <= i < n && i % (w as int) >= x + 6 * text@.len()
                                            ==> buf@[i] == old(buf)@[i],
                                    forall|i: int|
                                        0 <= i < n ==> buf@[i] == old(buf)@[i] || buf@[i] == fg
                                            || is_bg_color(bg, buf@[i]),
                                decreases 6 - rx,
                            {
                                let ghost b0 = buf@;
                                put_pixel(buf, w, pen + rx, y + ry, bgcol);
                                proof {
                                    lemma_text_step(
                                        b0,
                                        buf@,
                                        old(buf)@,
                                        w as int,
                                        n as int,
                                        (pen + rx) as int,
                                        (y + ry) as int,
                                        x as int,
                                        y as int,
                                        x as int + 6 * (text@.len() as int),
                                        fg,
                                        bg,
                                        bgcol,
                                    );
                                }
                                rx = rx + 1;
                            }
                            ry = ry + 1;
                        }
                    },
                    None => {},
                }
                let mut ry: usize = 0;
                while ry < 7
                    invariant
                        w >= 1,
                        buf@.len() == n,
                        old(buf)@.len() == n,
                        ry <= 7,
                        x <= pen,
                        pen + 6 <= usize::MAX,
                        pen + 6 <= x + 6 * text@.len(),
                        y + 7 <= usize::MAX,
                        forall|i: int|
                            0 <= i < n && (i / (w as int) < y || i / (w as int) >= y + 7) ==> buf@[i]
                                == old(buf)@[i],
                        forall|i: int|
                            0 <= i < n && i % (w as int) < x ==> buf@[i] == old(buf)@[i],
                        forall|i: int|
                            0 <= i < n && i % (w as int) >= x + 6 * text@.len() ==> buf@[i] == old(
                                buf,
                            )@[i],
                        forall|i: int|
                            0 <= i < n ==> buf@[i] == old(buf)@[i] || buf@[i] == fg || is_bg_color(
                                bg,
                                buf@[i],
                            ),
                    decreases 7 - ry,
                {
                    let row = bits[ry];
                    let mut rx: usize = 0;
                    while rx < 5
                        invariant
                            w >= 1,
                            buf@.len() == n,
                            old(buf)@.len() == n,
                            ry < 7,
                            rx <= 5,
                            x <= pen,
                            pen + 6 <= usize::MAX,
                            pen + 6 <= x + 6 * text@.len(),
                            y + 7 <= usize::MAX,
                            forall|i: int|
                                0 <= i < n && (i / (w as int) < y || i / (w as int) >= y + 7)
                                    ==> buf@[i] == old(buf)@[i],
                            forall|i: int|
                                0 <= i < n && i % (w as int) < x ==> buf@[i] == old(buf)@[i],
                            forall|i: int|
                                0 <= i < n && i % (w as int) >= x + 6 * text@.len() ==> buf@[i]
                                    == old(buf)@[i],
                            forall|i: int|
                                0 <= i < n ==> buf@[i] == old(buf)@[i] || buf@[i] == fg
                                    || is_bg_color(bg, buf@[i]),
                        decreases 5 - rx,
                    {
                        if (row >> ((4 - rx) as u32)) & 1 == 1 {
                            let ghost b0 = buf@;
                            put_pixel(buf, w, pen + rx, y + ry, fg);
                            proof {
                                lemma_text_step(
                                    b0,
                                    buf@,
                                    old(buf)@,
                                    w as int,
                                    n as int,
                                    (pen + rx) as int,
                                    (y + ry) as int,
                                    x as int,
                                    y as int,
                                    x as int + 6 * (text@.len() as int),
                                    fg,
                                    bg,
                                    fg,
                                );
                            }
                        }
                        rx = rx + 1;
                    }
                    ry = ry + 1;
                }
                pen = pen + 6;
            },
            None => {
                pen = pen + 4;
            },
        }
        k = k + 1;
    }
}

/// One glyph pixel write preserves the text-band framing facts.
proof fn lemma_text_step(
    b0: Seq<u32>,
    b1: Seq<u32>,
    borig: Seq<u32>,
    w: int,
    n: int,
    px: int,
    py: int,
    x: int,
    y: int,
    xr: int,
    fg: u32,
    bg: Option<u32>,
    written: u32,
)
    requires
        w >= 1,
        b0.len() == n,
        b1.len() == n,
        borig.len() == n,
        0 <= x <= px < xr,
        0 <= y <= py < y + 7,
        written == fg || is_bg_color(bg, written),
        forall|i: int| 0 <= i < n && !(px < w && py < n / w && i == py * w + px) ==> b1[i] == b0[i],
        (px < w && py < n / w) ==> b1[py * w + px] == written,
        forall|i: int| 0 <= i < n && (i / w < y || i / w >= y + 7) ==> b0[i] == borig[i],
        forall|i: int| 0 <= i < n && i % w < x ==> b0[i] == borig[i],
        forall|i: int| 0 <= i < n && i % w >= xr ==> b0[i] == borig[i],
        forall|i: int| 0 <= i < n ==> b0[i] == borig[i] || b0[i] == fg || is_bg_color(bg, b0[i]),
    ensures
        forall|i: int| 0 <= i < n && (i / w < y || i / w >= y + 7) ==> b1[i] == borig[i],
        forall|i: int| 0 <= i < n && i % w < x ==> b1[i] == borig[i],
        forall|i: int| 0 <= i < n && i % w >= xr ==> b1[i] == borig[i],
        forall|i: int| 0 <= i < n ==> b1[i] == borig[i] || b1[i] == fg || is_bg_color(bg, b1[i]),
{
    if px < w && py < n / w {
        let idx = py * w + px;
        vstd::arithmetic::div_mod::lemma_fundamental_div_mod(idx, w);
        vstd::arithmetic::div_mod::lemma_mod_bound(idx, w);
        crate::maze::lemma_idx_inj(w, px, py, idx % w, idx / w);
        assert forall|i: int| 0 <= i < n && (i / w < y || i / w >= y + 7) implies b1[i]
            == borig[i] by {
            if i == idx {
                assert(i / w == py);
            }
        }
        assert forall|i: int| 0 <= i < n && i % w < x implies b1[i] == borig[i] by {
            if i == idx {
                assert(i % w == px);
            }
        }
        assert forall|i: int| 0 <= i < n && i % w >= xr implies b1[i] == borig[i] by {
            if i == idx {
                assert(i % w == px);
            }
        }
    }
}

} // verus!
