//! Scan conversion of lines, rectangles, circles and bitmaps.
use vstd::prelude::*;
use crate::canvas::{
    lemma_index_in_range, lemma_painted_insert, lemma_painted_nothing, lemma_painted_same,
    lemma_painted_union, Display,
};

verus! {

/// Largest magnitude of a signed coordinate or radius; it keeps every
/// intermediate sum within a 32-bit `isize`.
pub const COORD_MAX: isize = 0x3fff_ffff;

/// `v` is a coordinate or radius within [`COORD_MAX`].
pub open spec fn coord_ok(v: isize) -> bool {
    -COORD_MAX <= v <= COORD_MAX
}

/// The pixels `[x, x + w) x [y, y + h)`.
pub open spec fn in_rect(x: int, y: int, w: int, h: int, px: int, py: int) -> bool {
    x <= px < x + w && y <= py < y + h
}

/// Sets the `len` pixels `[x, x + len)` of row `y`.
pub(crate) fn fill_span(display: &mut Display, x: usize, y: usize, len: usize, color: u32)
    requires
        old(display).wf(),
        x + len <= usize::MAX,
    ensures
        Display::painted(
            *old(display),
            *final(display),
            |px: int, py: int| py == y && x <= px < x + len,
            color,
        ),
{
    proof {
        lemma_painted_nothing(*display, color);
    }
    let mut i: usize = 0;
    while i < len
        invariant
            0 <= i <= len,
            x + len <= usize::MAX,
            Display::painted(
                *old(display),
                *display,
                |px: int, py: int| py == y && x <= px < x + i,
                color,
            ),
        decreases len - i,
    {
        let ghost before = *display;
        display.set_pixel(x + i, y, color);
        proof {
            lemma_painted_union(
                *old(display),
                before,
                *display,
                |px: int, py: int| py == y && x <= px < x + i,
                |px: int, py: int| px == x + i && py == y,
                color,
            );
            lemma_painted_same(
                *old(display),
                *display,
                |px: int, py: int| (py == y && x <= px < x + i) || (px == x + i && py == y),
                |px: int, py: int| py == y && x <= px < x + i + 1,
                color,
            );
        }
        i = i + 1;
    }
}

/// Sets the `len` pixels `[y, y + len)` of column `x`.
pub(crate) fn fill_column(display: &mut Display, x: usize, y: usize, len: usize, color: u32)
    requires
        old(display).wf(),
        y + len <= usize::MAX,
    ensures
        Display::painted(
            *old(display),
            *final(display),
            |px: int, py: int| px == x && y <= py < y + len,
            color,
        ),
{
    proof {
        lemma_painted_nothing(*display, color);
    }
    let mut i: usize = 0;
    while i < len
        invariant
            0 <= i <= len,
            y + len <= usize::MAX,
            Display::painted(
                *old(display),
                *display,
                |px: int, py: int| px == x && y <= py < y + i,
                color,
            ),
        decreases len - i,
    {
        let ghost before = *display;
        display.set_pixel(x, y + i, color);
        proof {
            lemma_painted_union(
                *old(display),
                before,
                *display,
                |px: int, py: int| px == x && y <= py < y + i,
                |px: int, py: int| px == x && py == y + i,
                color,
            );
            lemma_painted_same(
                *old(display),
                *display,
                |px: int, py: int| (px == x && y <= py < y + i) || (px == x && py == y + i),
                |px: int, py: int| px == x && y <= py < y + i + 1,
                color,
            );
        }
        i = i + 1;
    }
}

/// Fills the rectangle `[x, x + width) x [y, y + height)`.
pub fn draw_rect(display: &mut Display, x: usize, y: usize, width: usize, height: usize, color: u32)
    requires
        old(display).wf(),
        x + width <= usize::MAX,
        y + height <= usize::MAX,
    ensures
        Display::painted(
            *old(display),
            *final(display),
            |px: int, py: int| in_rect(x as int, y as int, width as int, height as int, px, py),
            color,
        ),
{
    proof {
        lemma_painted_nothing(*display, color);
    }
    let mut dy: usize = 0;
    while dy < height
        invariant
            0 <= dy <= height,
            x + width <= usize::MAX,
            y + height <= usize::MAX,
            Display::painted(
                *old(display),
                *display,
                |px: int, py: int| in_rect(x as int, y as int, width as int, dy as int, px, py),
                color,
            ),
        decreases height - dy,
    {
        let ghost before = *display;
        fill_span(display, x, y + dy, width, color);
        proof {
            lemma_painted_union(
                *old(display),
                before,
                *display,
                |px: int, py: int| in_rect(x as int, y as int, width as int, dy as int, px, py),
                |px: int, py: int| py == y + dy && x <= px < x + width,
                color,
            );
            lemma_painted_same(
                *old(display),
                *display,
                |px: int, py: int|
                    in_rect(x as int, y as int, width as int, dy as int, px, py) || (py == y + dy
                        && x <= px < x + width),
                |px: int, py: int| in_rect(x as int, y as int, width as int, dy + 1, px, py),
                color,
            );
        }
        dy = dy + 1;
    }
}


/// The border of `thickness` pixels drawn by [`draw_rect_outline`]: the
/// pixels of the rectangle less than `thickness` away from one of its
/// edges.
pub open spec fn in_outline(x: int, y: int, w: int, h: int, thickness: int, px: int, py: int) -> bool {
    &&& in_rect(x, y, w, h, px, py)
    &&& (px - x < thickness || x + w - 1 - px < thickness || py - y < thickness || y + h - 1 - py
        < thickness)
}

/// Draws a border of `thickness` pixels just inside the rectangle
/// `[x, x + width) x [y, y + height)`; a border thicker than the rectangle
/// fills it.
pub fn draw_rect_outline(
    display: &mut Display,
    x: usize,
    y: usize,
    width: usize,
    height: usize,
    color: u32,
    thickness: usize,
)
    requires
        old(display).wf(),
        x + width <= usize::MAX,
        y + height <= usize::MAX,
    ensures
        Display::painted(
            *old(display),
            *final(display),
            |px: int, py: int|
                in_outline(x as int, y as int, width as int, height as int, thickness as int, px, py),
            color,
        ),
{
    let ghost w = width as int;
    let ghost h = height as int;
    let rows = if thickness < height {
        thickness
    } else {
        height
    };
    let cols = if thickness < width {
        thickness
    } else {
        width
    };
    proof {
        lemma_painted_nothing(*display, color);
    }
    let mut t: usize = 0;
    while t < rows
        invariant
            0 <= t <= rows,
            rows <= height,
            x + width <= usize::MAX,
            y + height <= usize::MAX,
            w == width,
            h == height,
            Display::painted(
                *old(display),
                *display,
                |px: int, py: int| x <= px < x + w && (y <= py < y + t || y + h - t <= py < y + h),
                color,
            ),
        decreases rows - t,
    {
        let ghost before = *display;
        fill_span(display, x, y + t, width, color);
        proof {
            lemma_painted_union(
                *old(display),
                before,
                *display,
                |px: int, py: int| x <= px < x + w && (y <= py < y + t || y + h - t <= py < y + h),
                |px: int, py: int| py == y + t && x <= px < x + width,
                color,
            );
        }
        let ghost mid = *display;
        fill_span(display, x, y + height - 1 - t, width, color);
        proof {
            lemma_painted_union(
                *old(display),
                mid,
                *display,
                |px: int, py: int|
                    (x <= px < x + w && (y <= py < y + t || y + h - t <= py < y + h)) || (py == y
                        + t && x <= px < x + width),
                |px: int, py: int| py == y + height - 1 - t && x <= px < x + width,
                color,
            );
            lemma_painted_same(
                *old(display),
                *display,
                |px: int, py: int|
                    ((x <= px < x + w && (y <= py < y + t || y + h - t <= py < y + h)) || (py == y
                        + t && x <= px < x + width)) || (py == y + height - 1 - t && x <= px < x
                        + width),
                |px: int, py: int|
                    x <= px < x + w && (y <= py < y + t + 1 || y + h - (t + 1) <= py < y + h),
                color,
            );
        }
        t = t + 1;
    }
    let ghost row_part = *display;
    proof {
        lemma_painted_nothing(row_part, color);
    }
    let mut t: usize = 0;
    while t < cols
        invariant
            0 <= t <= cols,
            cols <= width,
            x + width <= usize::MAX,
            y + height <= usize::MAX,
            w == width,
            h == height,
            Display::painted(
                row_part,
                *display,
                |px: int, py: int| y <= py < y + h && (x <= px < x + t || x + w - t <= px < x + w),
                color,
            ),
        decreases cols - t,
    {
        let ghost before = *display;
        fill_column(display, x + t, y, height, color);
        proof {
            lemma_painted_union(
                row_part,
                before,
                *display,
                |px: int, py: int| y <= py < y + h && (x <= px < x + t || x + w - t <= px < x + w),
                |px: int, py: int| px == x + t && y <= py < y + height,
                color,
            );
        }
        let ghost mid = *display;
        fill_column(display, x + width - 1 - t, y, height, color);
        proof {
            lemma_painted_union(
                row_part,
                mid,
                *display,
                |px: int, py: int|
                    (y <= py < y + h && (x <= px < x + t || x + w - t <= px < x + w)) || (px == x
                        + t && y <= py < y + height),
                |px: int, py: int| px == x + width - 1 - t && y <= py < y + height,
                color,
            );
            lemma_painted_same(
                row_part,
                *display,
                |px: int, py: int|
                    ((y <= py < y + h && (x <= px < x + t || x + w - t <= px < x + w)) || (px == x
                        + t && y <= py < y + height)) || (px == x + width - 1 - t && y <= py < y
                        + height),
                |px: int, py: int|
                    y <= py < y + h && (x <= px < x + t + 1 || x + w - (t + 1) <= px < x + w),
                color,
            );
        }
        t = t + 1;
    }
    proof {
        let tr = rows as int;
        let tc = cols as int;
        lemma_painted_union(
            *old(display),
            row_part,
            *display,
            |px: int, py: int| x <= px < x + w && (y <= py < y + tr || y + h - tr <= py < y + h),
            |px: int, py: int| y <= py < y + h && (x <= px < x + tc || x + w - tc <= px < x + w),
            color,
        );
        lemma_painted_same(
            *old(display),
            *display,
            |px: int, py: int|
                (x <= px < x + w && (y <= py < y + tr || y + h - tr <= py < y + h)) || (y <= py < y
                    + h && (x <= px < x + tc || x + w - tc <= px < x + w)),
            |px: int, py: int|
                in_outline(x as int, y as int, width as int, height as int, thickness as int, px, py),
            color,
        );
    }
}

/// Sets pixel `(x, y)` of signed coordinates; one with a negative
/// coordinate is skipped.
fn plot(display: &mut Display, x: isize, y: isize, color: u32)
    requires
        old(display).wf(),
    ensures
        Display::painted(*old(display), *final(display), |px: int, py: int| px == x && py == y, color),
{
    if x >= 0 && y >= 0 {
        display.set_pixel(x as usize, y as usize, color);
    } else {
        proof {
            lemma_painted_nothing(*display, color);
            lemma_painted_same(
                *display,
                *display,
                |px: int, py: int| false,
                |px: int, py: int| px == x && py == y,
                color,
            );
        }
    }
}

/// The pixels of the disk of radius `r` around `(cx, cy)`: offsets
/// `(dx, dy)` within `[-r, r]` with `dx * dx + dy * dy <= r * r`.
pub open spec fn in_disk(cx: int, cy: int, r: int, px: int, py: int) -> bool {
    &&& -r <= px - cx <= r
    &&& -r <= py - cy <= r
    &&& (px - cx) * (px - cx) + (py - cy) * (py - cy) <= r * r
}

/// Fills the disk of radius `radius` around `(cx, cy)`; pixels with a
/// negative coordinate are skipped.
pub fn fill_circle(display: &mut Display, cx: isize, cy: isize, radius: isize, color: u32)
    requires
        old(display).wf(),
        coord_ok(cx),
        coord_ok(cy),
        coord_ok(radius),
    ensures
        Display::painted(
            *old(display),
            *final(display),
            |px: int, py: int| in_disk(cx as int, cy as int, radius as int, px, py),
            color,
        ),
{
    let ghost r = radius as int;
    let rl = radius as i64;
    assert(rl == radius);
    assert(0 <= rl * rl <= 0x0fff_ffff_ffff_ffff) by (nonlinear_arith)
        requires
            -0x3fff_ffff <= rl <= 0x3fff_ffff,
    ;
    let rr = rl * rl;
    proof {
        lemma_painted_nothing(*display, color);
    }
    let mut y: isize = -radius;
    while y <= radius
        invariant
            coord_ok(cx),
            coord_ok(cy),
            coord_ok(radius),
            r == radius,
            rr == r * r,
            0 <= rr <= 0x0fff_ffff_ffff_ffff,
            -r <= y <= r + 1 || y == -r,
            Display::painted(
                *old(display),
                *display,
                |px: int, py: int| in_disk(cx as int, cy as int, r, px, py) && py - cy < y,
                color,
            ),
        decreases radius - y + 1,
    {
        let ghost row_start = *display;
        let mut x: isize = -radius;
        while x <= radius
            invariant
                coord_ok(cx),
                coord_ok(cy),
                coord_ok(radius),
                r == radius,
                rr == r * r,
                0 <= rr <= 0x0fff_ffff_ffff_ffff,
                -r <= y <= r,
                -r <= x <= r + 1,
                Display::painted(
                    *old(display),
                    *display,
                    |px: int, py: int|
                        in_disk(cx as int, cy as int, r, px, py) && (py - cy < y || (py - cy == y
                            && px - cx < x)),
                    color,
                ),
            decreases radius - x + 1,
        {
            let ghost before = *display;
            let xl = x as i64;
            let yl = y as i64;
            assert(0 <= xl * xl <= rr && 0 <= yl * yl <= rr) by (nonlinear_arith)
                requires
                    -r <= xl <= r,
                    -r <= yl <= r,
                    rr == r * r,
            ;
            assert(rr <= 0x0fff_ffff_ffff_ffff);
            if xl * xl + yl * yl <= rr {
                plot(display, cx + x, cy + y, color);
                proof {
                    lemma_painted_union(
                        *old(display),
                        before,
                        *display,
                        |px: int, py: int|
                            in_disk(cx as int, cy as int, r, px, py) && (py - cy < y || (py - cy
                                == y && px - cx < x)),
                        |px: int, py: int| px == cx + x && py == cy + y,
                        color,
                    );
                    lemma_painted_same(
                        *old(display),
                        *display,
                        |px: int, py: int|
                            (in_disk(cx as int, cy as int, r, px, py) && (py - cy < y || (py - cy
                                == y && px - cx < x))) || (px == cx + x && py == cy + y),
                        |px: int, py: int|
                            in_disk(cx as int, cy as int, r, px, py) && (py - cy < y || (py - cy
                                == y && px - cx < x + 1)),
                        color,
                    );
                }
            } else {
                proof {
                    lemma_painted_same(
                        *old(display),
                        *display,
                        |px: int, py: int|
                            in_disk(cx as int, cy as int, r, px, py) && (py - cy < y || (py - cy
                                == y && px - cx < x)),
                        |px: int, py: int|
                            in_disk(cx as int, cy as int, r, px, py) && (py - cy < y || (py - cy
                                == y && px - cx < x + 1)),
                        color,
                    );
                }
            }
            x = x + 1;
        }
        proof {
            lemma_painted_same(
                *old(display),
                *display,
                |px: int, py: int|
                    in_disk(cx as int, cy as int, r, px, py) && (py - cy < y || (py - cy == y && px
                        - cx < x)),
                |px: int, py: int| in_disk(cx as int, cy as int, r, px, py) && py - cy < y + 1,
                color,
            );
        }
        y = y + 1;
    }
    proof {
        lemma_painted_same(
            *old(display),
            *display,
            |px: int, py: int| in_disk(cx as int, cy as int, r, px, py) && py - cy < y,
            |px: int, py: int| in_disk(cx as int, cy as int, radius as int, px, py),
            color,
        );
    }
}


/// Bit `i` of the bitfield `bits`, most significant bit of each byte
/// first; bits past the end are unset.
pub open spec fn bit_set(bits: Seq<u8>, i: int) -> bool {
    0 <= i && i / 8 < bits.len() && (bits[i / 8] >> ((7 - i % 8) as u32)) & 1 == 1
}

/// The pixels of the `width x height` block at `(x, y)` whose bit in the
/// row-major bitfield `bits` is set.
pub open spec fn in_bitmap(x: int, y: int, w: int, h: int, bits: Seq<u8>, px: int, py: int) -> bool {
    in_rect(x, y, w, h, px, py) && bit_set(bits, (py - y) * w + (px - x))
}

/// Sets to `color` each pixel of the `width x height` block at `(x, y)`
/// whose bit in `bitmap` is set, and leaves the others alone.
pub fn draw_bitmap(
    display: &mut Display,
    x: usize,
    y: usize,
    width: usize,
    height: usize,
    bitmap: &[u8],
    color: u32,
)
    requires
        old(display).wf(),
        x + width <= usize::MAX,
        y + height <= usize::MAX,
        width * height <= usize::MAX,
    ensures
        Display::painted(
            *old(display),
            *final(display),
            |px: int, py: int| in_bitmap(x as int, y as int, width as int, height as int, bitmap@, px, py),
            color,
        ),
{
    let ghost w = width as int;
    let ghost h = height as int;
    proof {
        lemma_painted_nothing(*display, color);
    }
    let mut dy: usize = 0;
    while dy < height
        invariant
            0 <= dy <= height,
            w == width,
            h == height,
            x + width <= usize::MAX,
            y + height <= usize::MAX,
            width * height <= usize::MAX,
            Display::painted(
                *old(display),
                *display,
                |px: int, py: int| in_bitmap(x as int, y as int, w, h, bitmap@, px, py) && py < y + dy,
                color,
            ),
        decreases height - dy,
    {
        let mut dx: usize = 0;
        while dx < width
            invariant
                0 <= dy < height,
                0 <= dx <= width,
                w == width,
                h == height,
                x + width <= usize::MAX,
                y + height <= usize::MAX,
                width * height <= usize::MAX,
                Display::painted(
                    *old(display),
                    *display,
                    |px: int, py: int|
                        in_bitmap(x as int, y as int, w, h, bitmap@, px, py) && (py < y + dy || (py
                            == y + dy && px < x + dx)),
                    color,
                ),
            decreases width - dx,
        {
            proof {
                lemma_index_in_range(dx as int, dy as int, w, h);
            }
            let ghost before = *display;
            let byte_index = (dy * width + dx) / 8;
            let bit_index = 7 - ((dy * width + dx) % 8);
            if byte_index < bitmap.len() && (bitmap[byte_index] >> (bit_index as u32)) & 1 == 1 {
                display.set_pixel(x + dx, y + dy, color);
                proof {
                    lemma_painted_union(
                        *old(display),
                        before,
                        *display,
                        |px: int, py: int|
                            in_bitmap(x as int, y as int, w, h, bitmap@, px, py) && (py < y + dy || (
                            py == y + dy && px < x + dx)),
                        |px: int, py: int| px == x + dx && py == y + dy,
                        color,
                    );
                }
            }
            proof {
                lemma_painted_same(
                    *old(display),
                    *display,
                    |px: int, py: int|
                        (in_bitmap(x as int, y as int, w, h, bitmap@, px, py) && (py < y + dy || (py
                            == y + dy && px < x + dx))) || (px == x + dx && py == y + dy
                            && bit_set(bitmap@, dy * w + dx)),
                    |px: int, py: int|
                        in_bitmap(x as int, y as int, w, h, bitmap@, px, py) && (py < y + dy || (py
                            == y + dy && px < x + dx + 1)),
                    color,
                );
            }
            dx = dx + 1;
        }
        proof {
            lemma_painted_same(
                *old(display),
                *display,
                |px: int, py: int|
                    in_bitmap(x as int, y as int, w, h, bitmap@, px, py) && (py < y + dy || (py == y
                        + dy && px < x + dx)),
                |px: int, py: int| in_bitmap(x as int, y as int, w, h, bitmap@, px, py) && py < y + dy + 1,
                color,
            );
        }
        dy = dy + 1;
    }
    proof {
        lemma_painted_same(
            *old(display),
            *display,
            |px: int, py: int| in_bitmap(x as int, y as int, w, h, bitmap@, px, py) && py < y + dy,
            |px: int, py: int| in_bitmap(x as int, y as int, width as int, height as int, bitmap@, px, py),
            color,
        );
    }
}


/// The error term of the line algorithm after `i` horizontal and `j`
/// vertical steps on a line that spans `dx` columns and `ddy` rows.
pub open spec fn line_err(dx: int, ddy: int, i: int, j: int) -> int {
    dx * (j + 1) - ddy * (i + 1)
}

/// The step offsets `(i, j)` that the line algorithm visits from `(i, j)`
/// on: it takes a horizontal step when twice the error is at least `-ddy`,
/// a vertical one when it is at most `dx`, and stops at `(dx, ddy)`.
pub open spec fn line_steps(dx: int, ddy: int, i: int, j: int) -> Set<(int, int)>
    decreases (dx - i) + (ddy - j),
{
    if i < 0 || j < 0 || i > dx || j > ddy {
        Set::empty()
    } else if i == dx && j == ddy {
        set![(i, j)]
    } else {
        let e2 = 2 * line_err(dx, ddy, i, j);
        let ni = if e2 >= -ddy && i < dx {
            i + 1
        } else {
            i
        };
        let nj = if e2 <= dx && j < ddy {
            j + 1
        } else {
            j
        };
        if ni == i && nj == j {
            set![(i, j)]
        } else {
            set![(i, j)].union(line_steps(dx, ddy, ni, nj))
        }
    }
}

/// The direction, `1` or `-1`, in which the line algorithm walks from `a`
/// toward `b`.
pub open spec fn step_sign(a: int, b: int) -> int {
    if a < b {
        1
    } else {
        -1
    }
}

/// The absolute value of `v`.
pub open spec fn abs(v: int) -> int {
    if v < 0 {
        -v
    } else {
        v
    }
}

/// `(px, py)` is a pixel of the line from `(x0, y0)` to `(x1, y1)`: its
/// offset from `(x0, y0)`, measured in the direction of the line, is a
/// step that the line algorithm visits.
pub open spec fn on_line(x0: int, y0: int, x1: int, y1: int, px: int, py: int) -> bool {
    line_steps(abs(x1 - x0), abs(y1 - y0), 0, 0).contains(
        (step_sign(x0, x1) * (px - x0), step_sign(y0, y1) * (py - y0)),
    )
}

/// A step of the line algorithm never passes the end point, and always
/// moves on at least one axis.
proof fn lemma_line_step(dx: int, ddy: int, i: int, j: int)
    requires
        0 <= i <= dx,
        0 <= j <= ddy,
        !(i == dx && j == ddy),
    ensures
        2 * line_err(dx, ddy, i, j) >= -ddy ==> i < dx,
        2 * line_err(dx, ddy, i, j) <= dx ==> j < ddy,
        2 * line_err(dx, ddy, i, j) >= -ddy || 2 * line_err(dx, ddy, i, j) <= dx,
        line_err(dx, ddy, i + 1, j) == line_err(dx, ddy, i, j) - ddy,
        line_err(dx, ddy, i, j + 1) == line_err(dx, ddy, i, j) + dx,
{
    assert(line_err(dx, ddy, i + 1, j) == line_err(dx, ddy, i, j) - ddy) by (nonlinear_arith);
    assert(line_err(dx, ddy, i, j + 1) == line_err(dx, ddy, i, j) + dx) by (nonlinear_arith);
    if i == dx {
        assert(2 * line_err(dx, ddy, i, j) < -ddy) by (nonlinear_arith)
            requires
                i == dx,
                0 <= dx,
                0 <= j < ddy,
        ;
    }
    if j == ddy {
        assert(2 * line_err(dx, ddy, i, j) > dx) by (nonlinear_arith)
            requires
                j == ddy,
                0 <= ddy,
                0 <= i < dx,
        ;
    }
}

/// Draws the line from `(x0, y0)` to `(x1, y1)`, both ends included, with
/// the integer line algorithm; pixels with a negative coordinate are
/// skipped.
pub fn draw_line(display: &mut Display, x0: isize, y0: isize, x1: isize, y1: isize, color: u32)
    requires
        old(display).wf(),
        coord_ok(x0),
        coord_ok(y0),
        coord_ok(x1),
        coord_ok(y1),
    ensures
        Display::painted(
            *old(display),
            *final(display),
            |px: int, py: int| on_line(x0 as int, y0 as int, x1 as int, y1 as int, px, py),
            color,
        ),
{
    let x0l = x0 as i64;
    let y0l = y0 as i64;
    let x1l = x1 as i64;
    let y1l = y1 as i64;
    assert(x0l == x0 && y0l == y0 && x1l == x1 && y1l == y1);
    let dx: i64 = if x1l >= x0l {
        x1l - x0l
    } else {
        x0l - x1l
    };
    let dy: i64 = if y1l >= y0l {
        y0l - y1l
    } else {
        y1l - y0l
    };
    let sx: i64 = if x0l < x1l {
        1
    } else {
        -1
    };
    let sy: i64 = if y0l < y1l {
        1
    } else {
        -1
    };
    let mut err: i64 = dx + dy;

    let mut x: i64 = x0l;
    let mut y: i64 = y0l;

    let ghost ddy: int = -dy;
    let ghost all = line_steps(dx as int, ddy, 0, 0);
    let ghost mut i: int = 0;
    let ghost mut j: int = 0;
    let ghost mut done: Set<(int, int)> = Set::empty();
    proof {
        lemma_painted_nothing(*display, color);
        lemma_painted_same(
            *display,
            *display,
            |px: int, py: int| false,
            |px: int, py: int| done.contains((sx * (px - x0), sy * (py - y0))),
            color,
        );
    }
    loop
        invariant
            old(display).wf(),
            coord_ok(x0),
            coord_ok(y0),
            coord_ok(x1),
            coord_ok(y1),
            x0l == x0,
            y0l == y0,
            x1l == x1,
            y1l == y1,
            dx == abs(x1 - x0),
            ddy == abs(y1 - y0),
            dy == -ddy,
            sx == step_sign(x0 as int, x1 as int),
            sy == step_sign(y0 as int, y1 as int),
            all == line_steps(dx as int, ddy, 0, 0),
            0 <= i <= dx,
            0 <= j <= ddy,
            x == x0 + sx * i,
            y == y0 + sy * j,
            err == line_err(dx as int, ddy, i, j),
            -2 * ddy <= err <= 2 * dx,
            done.union(line_steps(dx as int, ddy, i, j)) == all,
            Display::painted(
                *old(display),
                *display,
                |px: int, py: int| done.contains((sx * (px - x0), sy * (py - y0))),
                color,
            ),
        ensures
            Display::painted(
                *old(display),
                *display,
                |px: int, py: int| on_line(x0 as int, y0 as int, x1 as int, y1 as int, px, py),
                color,
            ),
        decreases (dx - i) + (ddy - j),
    {
        let ghost before = *display;
        proof {
            if sx == 1 {
                assert(x == x0 + i);
            } else {
                assert(x == x0 - i);
            }
            if sy == 1 {
                assert(y == y0 + j);
            } else {
                assert(y == y0 - j);
            }
        }
        plot(display, x as isize, y as isize, color);
        proof {
            lemma_painted_union(
                *old(display),
                before,
                *display,
                |px: int, py: int| done.contains((sx * (px - x0), sy * (py - y0))),
                |px: int, py: int| px == x && py == y,
                color,
            );
            let nd = done.insert((i, j));
            assert forall|px: int, py: int|
                old(display).in_bounds(px, py) implies (done.contains((sx * (px - x0), sy * (py
                    - y0))) || (px == x && py == y)) == nd.contains((sx * (px - x0), sy * (py
                    - y0))) by {
                if sx * (px - x0) == i && sy * (py - y0) == j {
                    assert(px == x && py == y) by (nonlinear_arith)
                        requires
                            sx * (px - x0) == i,
                            sy * (py - y0) == j,
                            sx == 1 || sx == -1,
                            sy == 1 || sy == -1,
                            x == x0 + sx * i,
                            y == y0 + sy * j,
                    ;
                }
                if px == x && py == y {
                    assert(sx * (px - x0) == i && sy * (py - y0) == j) by (nonlinear_arith)
                        requires
                            sx == 1 || sx == -1,
                            sy == 1 || sy == -1,
                            px == x0 + sx * i,
                            py == y0 + sy * j,
                    ;
                }
            }
            lemma_painted_same(
                *old(display),
                *display,
                |px: int, py: int|
                    done.contains((sx * (px - x0), sy * (py - y0))) || (px == x && py == y),
                |px: int, py: int| nd.contains((sx * (px - x0), sy * (py - y0))),
                color,
            );
            done = nd;
        }

        if x == x1l && y == y1l {
            proof {
                assert(i == dx && j == ddy) by (nonlinear_arith)
                    requires
                        x == x0 + sx * i,
                        y == y0 + sy * j,
                        x == x1,
                        y == y1,
                        dx == abs(x1 - x0),
                        ddy == abs(y1 - y0),
                        sx == step_sign(x0 as int, x1 as int),
                        sy == step_sign(y0 as int, y1 as int),
                        0 <= i,
                        0 <= j,
                ;
                assert(line_steps(dx as int, ddy, i, j) == set![(i, j)]);
                assert(done =~= all);
                assert forall|px: int, py: int| old(display).in_bounds(px, py) implies
                    done.contains((sx * (px - x0), sy * (py - y0))) == on_line(
                        x0 as int,
                        y0 as int,
                        x1 as int,
                        y1 as int,
                        px,
                        py,
                    ) by {
                    assert(all.contains((sx * (px - x0), sy * (py - y0))) == on_line(
                        x0 as int,
                        y0 as int,
                        x1 as int,
                        y1 as int,
                        px,
                        py,
                    ));
                }
                lemma_painted_same(
                    *old(display),
                    *display,
                    |px: int, py: int| done.contains((sx * (px - x0), sy * (py - y0))),
                    |px: int, py: int| on_line(x0 as int, y0 as int, x1 as int, y1 as int, px, py),
                    color,
                );
            }
            break;
        }
        proof {
            if i == dx && j == ddy {
                assert(x == x1 && y == y1) by (nonlinear_arith)
                    requires
                        x == x0 + sx * i,
                        y == y0 + sy * j,
                        i == dx,
                        j == ddy,
                        dx == abs(x1 - x0),
                        ddy == abs(y1 - y0),
                        sx == step_sign(x0 as int, x1 as int),
                        sy == step_sign(y0 as int, y1 as int),
                ;
            }
            lemma_line_step(dx as int, ddy, i, j);
        }
        let ghost old_steps = line_steps(dx as int, ddy, i, j);
        let ghost (oi, oj) = (i, j);
        let e2 = 2 * err;
        if e2 >= dy {
            err = err + dy;
            x = x + sx;
            proof {
                i = i + 1;
            }
        }
        if e2 <= dx {
            err = err + dx;
            y = y + sy;
            proof {
                j = j + 1;
            }
        }
        proof {
            assert(old_steps == set![(oi, oj)].union(line_steps(dx as int, ddy, i, j)));
            assert(done.union(line_steps(dx as int, ddy, i, j)) =~= all);
        }
    }
}


/// `(dx, dy)` is one of the eight reflections of `(a, b)` across the axes
/// and the diagonals.
pub open spec fn octant_image(a: int, b: int, dx: int, dy: int) -> bool {
    ||| dx == a && dy == b
    ||| dx == b && dy == a
    ||| dx == -b && dy == a
    ||| dx == -a && dy == b
    ||| dx == -a && dy == -b
    ||| dx == -b && dy == -a
    ||| dx == b && dy == -a
    ||| dx == a && dy == -b
}

/// Sets the eight reflections of offset `(a, b)` around `(cx, cy)`; each
/// one with a negative coordinate is skipped.
fn plot_octants(display: &mut Display, cx: isize, cy: isize, a: isize, b: isize, color: u32)
    requires
        old(display).wf(),
        coord_ok(cx),
        coord_ok(cy),
        coord_ok(a),
        coord_ok(b),
    ensures
        Display::painted(
            *old(display),
            *final(display),
            |px: int, py: int| octant_image(a as int, b as int, px - cx, py - cy),
            color,
        ),
{
    let ghost mut pts: Set<(int, int)> = Set::empty();
    proof {
        lemma_painted_nothing(*display, color);
        lemma_painted_same(
            *display,
            *display,
            |px: int, py: int| false,
            |px: int, py: int| pts.contains((px, py)),
            color,
        );
    }
    let ghost before = *display;
    plot(display, cx + a, cy + b, color);
    proof {
        lemma_painted_insert(*old(display), before, *display, pts, cx + a, cy + b, color);
        pts = pts.insert((cx + a, cy + b));
    }
    let ghost before = *display;
    plot(display, cx + b, cy + a, color);
    proof {
        lemma_painted_insert(*old(display), before, *display, pts, cx + b, cy + a, color);
        pts = pts.insert((cx + b, cy + a));
    }
    let ghost before = *display;
    plot(display, cx - b, cy + a, color);
    proof {
        lemma_painted_insert(*old(display), before, *display, pts, cx - b, cy + a, color);
        pts = pts.insert((cx - b, cy + a));
    }
    let ghost before = *display;
    plot(display, cx - a, cy + b, color);
    proof {
        lemma_painted_insert(*old(display), before, *display, pts, cx - a, cy + b, color);
        pts = pts.insert((cx - a, cy + b));
    }
    let ghost before = *display;
    plot(display, cx - a, cy - b, color);
    proof {
        lemma_painted_insert(*old(display), before, *display, pts, cx - a, cy - b, color);
        pts = pts.insert((cx - a, cy - b));
    }
    let ghost before = *display;
    plot(display, cx - b, cy - a, color);
    proof {
        lemma_painted_insert(*old(display), before, *display, pts, cx - b, cy - a, color);
        pts = pts.insert((cx - b, cy - a));
    }
    let ghost before = *display;
    plot(display, cx + b, cy - a, color);
    proof {
        lemma_painted_insert(*old(display), before, *display, pts, cx + b, cy - a, color);
        pts = pts.insert((cx + b, cy - a));
    }
    let ghost before = *display;
    plot(display, cx + a, cy - b, color);
    proof {
        lemma_painted_insert(*old(display), before, *display, pts, cx + a, cy - b, color);
        pts = pts.insert((cx + a, cy - b));
    }
    proof {
        lemma_painted_same(
            *old(display),
            *display,
            |px: int, py: int| pts.contains((px, py)),
            |px: int, py: int| octant_image(a as int, b as int, px - cx, py - cy),
            color,
        );
    }
}

/// Draws the triangle with corners `(x0, y0)`, `(x1, y1)`, `(x2, y2)` as
/// its three edges.
pub fn draw_triangle(
    display: &mut Display,
    x0: isize,
    y0: isize,
    x1: isize,
    y1: isize,
    x2: isize,
    y2: isize,
    color: u32,
)
    requires
        old(display).wf(),
        coord_ok(x0),
        coord_ok(y0),
        coord_ok(x1),
        coord_ok(y1),
        coord_ok(x2),
        coord_ok(y2),
    ensures
        Display::painted(
            *old(display),
            *final(display),
            |px: int, py: int|
                on_line(x0 as int, y0 as int, x1 as int, y1 as int, px, py) || on_line(
                    x1 as int,
                    y1 as int,
                    x2 as int,
                    y2 as int,
                    px,
                    py,
                ) || on_line(x2 as int, y2 as int, x0 as int, y0 as int, px, py),
            color,
        ),
{
    draw_line(display, x0, y0, x1, y1, color);
    let ghost first = *display;
    draw_line(display, x1, y1, x2, y2, color);
    proof {
        lemma_painted_union(
            *old(display),
            first,
            *display,
            |px: int, py: int| on_line(x0 as int, y0 as int, x1 as int, y1 as int, px, py),
            |px: int, py: int| on_line(x1 as int, y1 as int, x2 as int, y2 as int, px, py),
            color,
        );
    }
    let ghost second = *display;
    draw_line(display, x2, y2, x0, y0, color);
    proof {
        lemma_painted_union(
            *old(display),
            second,
            *display,
            |px: int, py: int|
                on_line(x0 as int, y0 as int, x1 as int, y1 as int, px, py) || on_line(
                    x1 as int,
                    y1 as int,
                    x2 as int,
                    y2 as int,
                    px,
                    py,
                ),
            |px: int, py: int| on_line(x2 as int, y2 as int, x0 as int, y0 as int, px, py),
            color,
        );
    }
}


/// The offsets `(x, y)` of the first octant that the midpoint circle
/// algorithm visits from state `(x, y, err)` on: each step moves one row
/// up, adds `1 + 2 * y` to the error, and moves one column in when
/// `2 * (err - x) + 1 > 0`, adding `1 - 2 * x`; it runs while `x >= y`.
pub open spec fn circle_steps(x: int, y: int, err: int) -> Set<(int, int)>
    decreases x - y + 2,
{
    if x < y {
        Set::empty()
    } else {
        let ny = y + 1;
        let e1 = err + 1 + 2 * ny;
        let inward = 2 * (e1 - x) + 1 > 0;
        let nx = if inward {
            x - 1
        } else {
            x
        };
        let ne = if inward {
            e1 + 1 - 2 * nx
        } else {
            e1
        };
        set![(x, y)].union(circle_steps(nx, ny, ne))
    }
}

/// `(dx, dy)` is a reflection of an offset in `steps`.
pub open spec fn reflects(steps: Set<(int, int)>, dx: int, dy: int) -> bool {
    ||| steps.contains((dx, dy))
    ||| steps.contains((dy, dx))
    ||| steps.contains((dy, -dx))
    ||| steps.contains((-dx, dy))
    ||| steps.contains((-dx, -dy))
    ||| steps.contains((-dy, -dx))
    ||| steps.contains((-dy, dx))
    ||| steps.contains((dx, -dy))
}

/// `(px, py)` is a pixel of the circle of radius `r` around `(cx, cy)`:
/// a reflection of an offset that the midpoint algorithm visits.
pub open spec fn on_circle(cx: int, cy: int, r: int, px: int, py: int) -> bool {
    reflects(circle_steps(r, 0, 0), px - cx, py - cy)
}

/// The error term of the midpoint algorithm at `(x, y)` on a circle of
/// radius `r`.
pub open spec fn circle_err(r: int, x: int, y: int) -> int {
    y * y + 2 * y + x * x - 2 * x - r * r + 2 * r
}

/// The error term stays well within 64 bits for radii within bounds.
proof fn lemma_circle_err_bound(r: int, x: int, y: int)
    requires
        0 <= r < 0x4000_0000,
        0 <= y <= r + 1,
        -1 <= x <= r,
    ensures
        -0x3000_0000_0000_0000 <= circle_err(r, x, y) <= 0x3000_0000_0000_0000,
{
    assert(0 <= y * y <= 0x1000_0000_0000_0000) by (nonlinear_arith)
        requires
            0 <= y <= 0x4000_0000,
    ;
    assert(0 <= x * x <= 0x1000_0000_0000_0000) by (nonlinear_arith)
        requires
            -1 <= x <= 0x4000_0000,
    ;
    assert(0 <= r * r <= 0x1000_0000_0000_0000) by (nonlinear_arith)
        requires
            0 <= r <= 0x4000_0000,
    ;
}

/// How the error term changes when the algorithm moves a row up or a
/// column in.
proof fn lemma_circle_err_step(r: int, x: int, y: int)
    ensures
        circle_err(r, x, y + 1) == circle_err(r, x, y) + 1 + 2 * (y + 1),
        circle_err(r, x - 1, y) == circle_err(r, x, y) + 1 - 2 * (x - 1),
{
    assert(circle_err(r, x, y + 1) == circle_err(r, x, y) + 1 + 2 * (y + 1)) by (nonlinear_arith);
    assert(circle_err(r, x - 1, y) == circle_err(r, x, y) + 1 - 2 * (x - 1)) by (nonlinear_arith);
}

/// Draws the outline of the circle of radius `radius` around `(cx, cy)`
/// with the midpoint algorithm; pixels with a negative coordinate are
/// skipped.
pub fn draw_circle(display: &mut Display, cx: isize, cy: isize, radius: isize, color: u32)
    requires
        old(display).wf(),
        coord_ok(cx),
        coord_ok(cy),
        coord_ok(radius),
    ensures
        Display::painted(
            *old(display),
            *final(display),
            |px: int, py: int| on_circle(cx as int, cy as int, radius as int, px, py),
            color,
        ),
{
    let ghost r = radius as int;
    let ghost all = circle_steps(r, 0, 0);
    let ghost mut done: Set<(int, int)> = Set::empty();
    let mut x: i64 = radius as i64;
    let mut y: i64 = 0;
    let mut err: i64 = 0;
    proof {
        lemma_painted_nothing(*display, color);
        lemma_painted_same(
            *display,
            *display,
            |px: int, py: int| false,
            |px: int, py: int| reflects(done, px - cx, py - cy),
            color,
        );
    }
    while x >= y
        invariant
            old(display).wf(),
            coord_ok(cx),
            coord_ok(cy),
            coord_ok(radius),
            r == radius,
            all == circle_steps(r, 0, 0),
            (y == 0 && x == r) || (0 <= r && 0 <= y <= r + 1 && -1 <= x <= r),
            y == 0 && x == r ==> err == 0,
            0 <= r ==> err == circle_err(r, x as int, y as int),
            done.union(circle_steps(x as int, y as int, err as int)) == all,
            Display::painted(
                *old(display),
                *display,
                |px: int, py: int| reflects(done, px - cx, py - cy),
                color,
            ),
        decreases x - y + 2,
    {
        let ghost before = *display;
        plot_octants(display, cx, cy, x as isize, y as isize, color);
        proof {
            lemma_painted_union(
                *old(display),
                before,
                *display,
                |px: int, py: int| reflects(done, px - cx, py - cy),
                |px: int, py: int| octant_image(x as int, y as int, px - cx, py - cy),
                color,
            );
            let nd = done.insert((x as int, y as int));
            lemma_painted_same(
                *old(display),
                *display,
                |px: int, py: int|
                    reflects(done, px - cx, py - cy) || octant_image(x as int, y as int, px - cx, py - cy),
                |px: int, py: int| reflects(nd, px - cx, py - cy),
                color,
            );
            done = nd;
        }
        let ghost (ox, oy, oe) = (x as int, y as int, err as int);
        proof {
            lemma_circle_err_bound(r, x as int, y as int);
            lemma_circle_err_step(r, x as int, y as int);
            lemma_circle_err_step(r, x as int, y + 1);
        }
        y = y + 1;
        err = err + 1 + 2 * y;
        if 2 * (err - x) + 1 > 0 {
            x = x - 1;
            err = err + 1 - 2 * x;
        }
        proof {
            assert(circle_steps(ox, oy, oe) == set![(ox, oy)].union(
                circle_steps(x as int, y as int, err as int),
            ));
            assert(done.union(circle_steps(x as int, y as int, err as int)) =~= all);
        }
    }
    proof {
        assert(done =~= all);
        lemma_painted_same(
            *old(display),
            *display,
            |px: int, py: int| reflects(done, px - cx, py - cy),
            |px: int, py: int| on_circle(cx as int, cy as int, radius as int, px, py),
            color,
        );
    }
}


/// Offset `(ox, oy)` lies in the quarter disk of radius `r`.
pub open spec fn in_quarter(r: int, ox: int, oy: int) -> bool {
    0 <= ox <= r && 0 <= oy <= r && ox * ox + oy * oy <= r * r
}

/// `(px, py)` is the image, in one of the four corners of the `w x h`
/// rectangle at `(x, y)` with corner radius `r`, of an offset on which
/// `ok` holds; the right corners exist only when `w > r`, the bottom ones
/// only when `h > r`.
pub open spec fn corner_pixel(
    x: int,
    y: int,
    w: int,
    h: int,
    r: int,
    ok: spec_fn(int, int) -> bool,
    px: int,
    py: int,
) -> bool {
    ||| ok(x + r - px, y + r - py)
    ||| w > r && ok(px - (x + w - r - 1), y + r - py)
    ||| h > r && ok(x + r - px, py - (y + h - r - 1))
    ||| w > r && h > r && ok(px - (x + w - r - 1), py - (y + h - r - 1))
}

/// The pixels of the rectangle `[x, x + w) x [y, y + h)` with corners
/// rounded to radius `r`: the full-width band between the top and bottom
/// `r` rows, the top and bottom `r` rows without their `r` outer columns
/// on each side, and a quarter disk in each corner, all clipped to the
/// rectangle.
pub open spec fn in_rounded_rect(x: int, y: int, w: int, h: int, r: int, px: int, py: int) -> bool {
    &&& in_rect(x, y, w, h, px, py)
    &&& {
        ||| r <= py - y < h - r
        ||| (py - y < r || y + h - r <= py) && r <= px - x < w - r
        ||| corner_pixel(x, y, w, h, r, |ox: int, oy: int| in_quarter(r, ox, oy), px, py)
    }
}

/// Sets the images of offset `(cx, cy)` in the four corners that lie
/// inside the rectangle.
fn plot_corners(
    display: &mut Display,
    x: usize,
    y: usize,
    width: usize,
    height: usize,
    radius: usize,
    cx: usize,
    cy: usize,
    color: u32,
)
    requires
        old(display).wf(),
        x + width <= usize::MAX,
        y + height <= usize::MAX,
        x + radius <= usize::MAX,
        y + radius <= usize::MAX,
        cx <= radius,
        cy <= radius,
    ensures
        Display::painted(
            *old(display),
            *final(display),
            |px: int, py: int|
                in_rect(x as int, y as int, width as int, height as int, px, py) && corner_pixel(
                    x as int,
                    y as int,
                    width as int,
                    height as int,
                    radius as int,
                    |ox: int, oy: int| ox == cx && oy == cy,
                    px,
                    py,
                ),
            color,
        ),
{
    let ghost mut pts: Set<(int, int)> = Set::empty();
    proof {
        lemma_painted_nothing(*display, color);
        lemma_painted_same(
            *display,
            *display,
            |px: int, py: int| false,
            |px: int, py: int| pts.contains((px, py)),
            color,
        );
    }
    if radius - cx < width && radius - cy < height {
        let ghost before = *display;
        display.set_pixel(x + radius - cx, y + radius - cy, color);
        proof {
            lemma_painted_insert(*old(display), before, *display, pts, (x + radius - cx) as int, (y + radius - cy) as int, color);
            pts = pts.insert(((x + radius - cx) as int, (y + radius - cy) as int));
        }
    }
    if width > radius && radius - cy < height {
        let ghost before = *display;
        display.set_pixel(x + width - radius - 1 + cx, y + radius - cy, color);
        proof {
            lemma_painted_insert(*old(display), before, *display, pts, (x + width - radius - 1 + cx) as int, (y + radius - cy) as int, color);
            pts = pts.insert(((x + width - radius - 1 + cx) as int, (y + radius - cy) as int));
        }
    }
    if height > radius && radius - cx < width {
        let ghost before = *display;
        display.set_pixel(x + radius - cx, y + height - radius - 1 + cy, color);
        proof {
            lemma_painted_insert(*old(display), before, *display, pts, (x + radius - cx) as int, (y + height - radius - 1 + cy) as int, color);
            pts = pts.insert(((x + radius - cx) as int, (y + height - radius - 1 + cy) as int));
        }
    }
    if width > radius && height > radius {
        let ghost before = *display;
        display.set_pixel(x + width - radius - 1 + cx, y + height - radius - 1 + cy, color);
        proof {
            lemma_painted_insert(*old(display), before, *display, pts, (x + width - radius - 1 + cx) as int, (y + height - radius - 1 + cy) as int, color);
            pts = pts.insert(((x + width - radius - 1 + cx) as int, (y + height - radius - 1 + cy) as int));
        }
    }
    proof {
        lemma_painted_same(
            *old(display),
            *display,
            |px: int, py: int| pts.contains((px, py)),
            |px: int, py: int|
                in_rect(x as int, y as int, width as int, height as int, px, py) && corner_pixel(
                    x as int,
                    y as int,
                    width as int,
                    height as int,
                    radius as int,
                    |ox: int, oy: int| ox == cx && oy == cy,
                    px,
                    py,
                ),
            color,
        );
    }
}

/// Fills the rectangle `[x, x + width) x [y, y + height)` with its
/// corners rounded to radius `radius`.
pub fn draw_rounded_rect(
    display: &mut Display,
    x: usize,
    y: usize,
    width: usize,
    height: usize,
    radius: usize,
    color: u32,
)
    requires
        old(display).wf(),
        x + width <= usize::MAX,
        y + height <= usize::MAX,
        x + radius <= usize::MAX,
        y + radius <= usize::MAX,
        radius <= COORD_MAX,
    ensures
        Display::painted(
            *old(display),
            *final(display),
            |px: int, py: int|
                in_rounded_rect(x as int, y as int, width as int, height as int, radius as int, px, py),
            color,
        ),
{
    let ghost (xi, yi, w, h, r) = (x as int, y as int, width as int, height as int, radius as int);
    proof {
        lemma_painted_nothing(*display, color);
    }
    let band_end = height.saturating_sub(radius);
    let mut dy: usize = radius;
    while dy < band_end
        invariant
            r <= dy,
            band_end == if h >= r { h - r } else { 0 },
            dy <= band_end || dy == r,
            x + width <= usize::MAX,
            y + height <= usize::MAX,
            xi == x,
            yi == y,
            w == width,
            h == height,
            r == radius,
            Display::painted(
                *old(display),
                *display,
                |px: int, py: int| r <= py - yi < dy && xi <= px < xi + w,
                color,
            ),
        decreases band_end - dy,
    {
        let ghost before = *display;
        fill_span(display, x, y + dy, width, color);
        proof {
            lemma_painted_union(
                *old(display),
                before,
                *display,
                |px: int, py: int| r <= py - yi < dy && xi <= px < xi + w,
                |px: int, py: int| py == y + dy && x <= px < x + width,
                color,
            );
            lemma_painted_same(
                *old(display),
                *display,
                |px: int, py: int|
                    (r <= py - yi < dy && xi <= px < xi + w) || (py == y + dy && x <= px < x + width),
                |px: int, py: int| r <= py - yi < dy + 1 && xi <= px < xi + w,
                color,
            );
        }
        dy = dy + 1;
    }
    let ghost band = *display;
    proof {
        lemma_painted_same(
            *old(display),
            band,
            |px: int, py: int| r <= py - yi < dy && xi <= px < xi + w,
            |px: int, py: int| r <= py - yi < h - r && xi <= px < xi + w,
            color,
        );
        lemma_painted_nothing(band, color);
    }

    let cap_end = width.saturating_sub(radius);
    let cap_len: usize = if cap_end > radius {
        cap_end - radius
    } else {
        0
    };
    let cap_rows = if radius < height {
        radius
    } else {
        height
    };
    let mut dy: usize = 0;
    while dy < cap_rows
        invariant
            0 <= dy <= cap_rows,
            cap_rows <= radius,
            cap_rows <= height,
            cap_len == if w - r > r { w - 2 * r } else { 0 },
            x + width <= usize::MAX,
            y + height <= usize::MAX,
            x + radius <= usize::MAX,
            y + radius <= usize::MAX,
            xi == x,
            yi == y,
            w == width,
            h == height,
            r == radius,
            Display::painted(
                band,
                *display,
                |px: int, py: int|
                    (0 <= py - yi < dy || yi + h - dy <= py < yi + h) && r <= px - xi < w - r,
                color,
            ),
        decreases cap_rows - dy,
    {
        let ghost before = *display;
        fill_span(display, x + radius, y + dy, cap_len, color);
        proof {
            lemma_painted_union(
                band,
                before,
                *display,
                |px: int, py: int|
                    (0 <= py - yi < dy || yi + h - dy <= py < yi + h) && r <= px - xi < w - r,
                |px: int, py: int| py == y + dy && x + radius <= px < x + radius + cap_len,
                color,
            );
        }
        let ghost mid = *display;
        fill_span(display, x + radius, y + height - 1 - dy, cap_len, color);
        proof {
            lemma_painted_union(
                band,
                mid,
                *display,
                |px: int, py: int|
                    ((0 <= py - yi < dy || yi + h - dy <= py < yi + h) && r <= px - xi < w - r) || (
                    py == y + dy && x + radius <= px < x + radius + cap_len),
                |px: int, py: int| py == yi + h - 1 - dy && x + radius <= px < x + radius + cap_len,
                color,
            );
            lemma_painted_same(
                band,
                *display,
                |px: int, py: int|
                    (((0 <= py - yi < dy || yi + h - dy <= py < yi + h) && r <= px - xi < w - r) || (
                    py == y + dy && x + radius <= px < x + radius + cap_len)) || (py == yi + h - 1
                        - dy && x + radius <= px < x + radius + cap_len),
                |px: int, py: int|
                    (0 <= py - yi < dy + 1 || yi + h - (dy + 1) <= py < yi + h) && r <= px - xi < w - r,
                color,
            );
        }
        dy = dy + 1;
    }
    let ghost caps = *display;
    proof {
        lemma_painted_nothing(caps, color);
    }

    let rl = radius as i64;
    assert(0 <= rl * rl <= 0x0fff_ffff_ffff_ffff) by (nonlinear_arith)
        requires
            0 <= rl <= 0x3fff_ffff,
    ;
    let rr = rl * rl;
    let mut cy: usize = 0;
    while cy <= radius
        invariant
            0 <= cy <= radius + 1,
            radius <= COORD_MAX,
            rl == radius,
            rr == r * r,
            0 <= rr <= 0x0fff_ffff_ffff_ffff,
            x + width <= usize::MAX,
            y + height <= usize::MAX,
            x + radius <= usize::MAX,
            y + radius <= usize::MAX,
            xi == x,
            yi == y,
            w == width,
            h == height,
            r == radius,
            Display::painted(
                caps,
                *display,
                |px: int, py: int|
                    in_rect(xi, yi, w, h, px, py) && corner_pixel(
                        xi,
                        yi,
                        w,
                        h,
                        r,
                        |ox: int, oy: int| in_quarter(r, ox, oy) && oy < cy,
                        px,
                        py,
                    ),
                color,
            ),
        decreases radius + 1 - cy,
    {
        let mut cx: usize = 0;
        while cx <= radius
            invariant
                0 <= cy <= radius,
                0 <= cx <= radius + 1,
                radius <= COORD_MAX,
                rl == radius,
                rr == r * r,
                0 <= rr <= 0x0fff_ffff_ffff_ffff,
                x + width <= usize::MAX,
                y + height <= usize::MAX,
                x + radius <= usize::MAX,
                y + radius <= usize::MAX,
                xi == x,
                yi == y,
                w == width,
                h == height,
                r == radius,
                Display::painted(
                    caps,
                    *display,
                    |px: int, py: int|
                        in_rect(xi, yi, w, h, px, py) && corner_pixel(
                            xi,
                            yi,
                            w,
                            h,
                            r,
                            |ox: int, oy: int| in_quarter(r, ox, oy) && (oy < cy || (oy == cy && ox < cx)),
                            px,
                            py,
                        ),
                    color,
                ),
            decreases radius + 1 - cx,
        {
            let cxl = cx as i64;
            let cyl = cy as i64;
            assert(0 <= cxl * cxl <= rr && 0 <= cyl * cyl <= rr) by (nonlinear_arith)
                requires
                    0 <= cxl <= rl,
                    0 <= cyl <= rl,
                    rr == rl * rl,
            ;
            let ghost before = *display;
            if cxl * cxl + cyl * cyl <= rr {
                plot_corners(display, x, y, width, height, radius, cx, cy, color);
                proof {
                    lemma_painted_union(
                        caps,
                        before,
                        *display,
                        |px: int, py: int|
                            in_rect(xi, yi, w, h, px, py) && corner_pixel(
                                xi,
                                yi,
                                w,
                                h,
                                r,
                                |ox: int, oy: int| in_quarter(r, ox, oy) && (oy < cy || (oy == cy && ox < cx)),
                                px,
                                py,
                            ),
                        |px: int, py: int|
                            in_rect(xi, yi, w, h, px, py) && corner_pixel(xi, yi, w, h, r, |ox: int, oy: int| ox == cx && oy == cy, px, py),
                        color,
                    );
                    lemma_painted_same(
                        caps,
                        *display,
                        |px: int, py: int|
                            in_rect(xi, yi, w, h, px, py) && corner_pixel(
                                xi,
                                yi,
                                w,
                                h,
                                r,
                                |ox: int, oy: int| in_quarter(r, ox, oy) && (oy < cy || (oy == cy && ox < cx)),
                                px,
                                py,
                            ) || (in_rect(xi, yi, w, h, px, py) && corner_pixel(xi, yi, w, h, r, |ox: int, oy: int| ox == cx && oy == cy, px, py)),
                        |px: int, py: int|
                            in_rect(xi, yi, w, h, px, py) && corner_pixel(
                                xi,
                                yi,
                                w,
                                h,
                                r,
                                |ox: int, oy: int| in_quarter(r, ox, oy) && (oy < cy || (oy == cy && ox < cx + 1)),
                                px,
                                py,
                            ),
                        color,
                    );
                }
            } else {
                proof {
                    lemma_painted_same(
                        caps,
                        *display,
                        |px: int, py: int|
                            in_rect(xi, yi, w, h, px, py) && corner_pixel(
                                xi,
                                yi,
                                w,
                                h,
                                r,
                                |ox: int, oy: int| in_quarter(r, ox, oy) && (oy < cy || (oy == cy && ox < cx)),
                                px,
                                py,
                            ),
                        |px: int, py: int|
                            in_rect(xi, yi, w, h, px, py) && corner_pixel(
                                xi,
                                yi,
                                w,
                                h,
                                r,
                                |ox: int, oy: int| in_quarter(r, ox, oy) && (oy < cy || (oy == cy && ox < cx + 1)),
                                px,
                                py,
                            ),
                        color,
                    );
                }
            }
            cx = cx + 1;
        }
        proof {
            lemma_painted_same(
                caps,
                *display,
                |px: int, py: int|
                    in_rect(xi, yi, w, h, px, py) && corner_pixel(
                        xi,
                        yi,
                        w,
                        h,
                        r,
                        |ox: int, oy: int| in_quarter(r, ox, oy) && (oy < cy || (oy == cy && ox < cx)),
                        px,
                        py,
                    ),
                |px: int, py: int|
                    in_rect(xi, yi, w, h, px, py) && corner_pixel(xi, yi, w, h, r, |ox: int, oy: int| in_quarter(r, ox, oy) && oy < cy + 1, px, py),
                color,
            );
        }
        cy = cy + 1;
    }
    proof {
        lemma_painted_same(
            caps,
            *display,
            |px: int, py: int|
                in_rect(xi, yi, w, h, px, py) && corner_pixel(xi, yi, w, h, r, |ox: int, oy: int| in_quarter(r, ox, oy) && oy < cy, px, py),
            |px: int, py: int| in_rect(xi, yi, w, h, px, py) && corner_pixel(xi, yi, w, h, r, |ox: int, oy: int| in_quarter(r, ox, oy), px, py),
            color,
        );
        let cr = cap_rows as int;
        lemma_painted_union(
            *old(display),
            band,
            caps,
            |px: int, py: int| r <= py - yi < h - r && xi <= px < xi + w,
            |px: int, py: int|
                (0 <= py - yi < cr || yi + h - cr <= py < yi + h) && r <= px - xi < w - r,
            color,
        );
        lemma_painted_union(
            *old(display),
            caps,
            *display,
            |px: int, py: int|
                (r <= py - yi < h - r && xi <= px < xi + w) || ((0 <= py - yi < cr || yi + h - cr <= py
                    < yi + h) && r <= px - xi < w - r),
            |px: int, py: int| in_rect(xi, yi, w, h, px, py) && corner_pixel(xi, yi, w, h, r, |ox: int, oy: int| in_quarter(r, ox, oy), px, py),
            color,
        );
        lemma_painted_same(
            *old(display),
            *display,
            |px: int, py: int|
                ((r <= py - yi < h - r && xi <= px < xi + w) || ((0 <= py - yi < cr || yi + h - cr <= py
                    < yi + h) && r <= px - xi < w - r)) || in_rect(xi, yi, w, h, px, py) && corner_pixel(
                    xi,
                    yi,
                    w,
                    h,
                    r,
                    |ox: int, oy: int| in_quarter(r, ox, oy),
                    px,
                    py,
                ),
            |px: int, py: int| in_rounded_rect(xi, yi, w, h, r, px, py),
            color,
        );
    }
}

} // verus!
