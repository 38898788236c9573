//! Laws that relate the drawing operations to each other and to the
//! pixels they leave behind.
use vstd::prelude::*;
use crate::canvas::{lemma_pixel_off_surface, Display};
use crate::color::{blend, blue, green, red};
use crate::shapes::{in_disk, in_outline, in_rect, line_steps, on_line};

verus! {

/// Reading a pixel on the surface right after writing it gives back the
/// color written.
pub proof fn law_set_then_get(d: Display, after: Display, x: usize, y: usize, c: u32)
    requires
        d.wf(),
        d.in_bounds(x as int, y as int),
        Display::painted(d, after, |px: int, py: int| px == x && py == y, c),
    ensures
        after.pixel(x as int, y as int) == c,
{
    assert(after.pixel(x as int, y as int) == c);
}

/// Writing a pixel off the surface changes nothing, and reading one
/// gives `0`.
pub proof fn law_off_surface(d: Display, after: Display, x: usize, y: usize, c: u32)
    requires
        d.wf(),
        !d.in_bounds(x as int, y as int),
        Display::painted(d, after, |px: int, py: int| px == x && py == y, c),
    ensures
        forall|px: int, py: int| #[trigger] after.pixel(px, py) == d.pixel(px, py),
        d.pixel(x as int, y as int) == 0,
        after.pixel(x as int, y as int) == 0,
{
    lemma_pixel_off_surface(d, x as int, y as int);
    assert forall|px: int, py: int| #[trigger] after.pixel(px, py) == d.pixel(px, py) by {
        assert(after.pixel(px, py) == if d.in_bounds(px, py) && px == x && py == y {
            c
        } else {
            d.pixel(px, py)
        });
    }
}

/// After clearing to `c` every pixel of the surface reads `c`.
pub proof fn law_clear(d: Display, after: Display, c: u32)
    requires
        d.wf(),
        Display::painted(d, after, |px: int, py: int| true, c),
    ensures
        forall|x: int, y: int| d.in_bounds(x, y) ==> #[trigger] after.pixel(x, y) == c,
{
    assert forall|x: int, y: int| d.in_bounds(x, y) implies #[trigger] after.pixel(x, y) == c by {
        assert(after.pixel(x, y) == if d.in_bounds(x, y) && true { c } else { d.pixel(x, y) });
    }
}

/// A line from a point to itself is that single pixel.
pub proof fn law_line_single_point(x0: int, y0: int, px: int, py: int)
    ensures
        on_line(x0, y0, x0, y0, px, py) <==> (px == x0 && py == y0),
{
    assert(line_steps(0, 0, 0, 0) == set![(0int, 0int)]);
    assert(on_line(x0, y0, x0, y0, px, py) == line_steps(0, 0, 0, 0).contains(
        (-1 * (px - x0), -1 * (py - y0)),
    ));
}

/// Drawing a line from a point to itself sets exactly that pixel.
pub proof fn law_degenerate_line(d: Display, after: Display, x0: isize, y0: isize, c: u32)
    requires
        d.wf(),
        Display::painted(
            d,
            after,
            |px: int, py: int| on_line(x0 as int, y0 as int, x0 as int, y0 as int, px, py),
            c,
        ),
    ensures
        Display::painted(d, after, |px: int, py: int| px == x0 && py == y0, c),
{
    assert forall|px: int, py: int|
        #[trigger] after.pixel(px, py) == if d.in_bounds(px, py) && px == x0 && py == y0 {
            c
        } else {
            d.pixel(px, py)
        } by {
        law_line_single_point(x0 as int, y0 as int, px, py);
        assert(after.pixel(px, py) == if d.in_bounds(px, py) && on_line(
            x0 as int,
            y0 as int,
            x0 as int,
            y0 as int,
            px,
            py,
        ) {
            c
        } else {
            d.pixel(px, py)
        });
    }
}

/// Drawing a border of thickness `t` sets exactly the pixels of the
/// rectangle within Chebyshev distance `t - 1` of its edge, and leaves
/// its inner part and everything outside it alone.
pub proof fn law_rect_outline(
    d: Display,
    after: Display,
    x: usize,
    y: usize,
    w: usize,
    h: usize,
    t: usize,
    c: u32,
)
    requires
        d.wf(),
        Display::painted(
            d,
            after,
            |px: int, py: int| in_outline(x as int, y as int, w as int, h as int, t as int, px, py),
            c,
        ),
    ensures
        Display::painted(
            d,
            after,
            |px: int, py: int|
                in_rect(x as int, y as int, w as int, h as int, px, py) && (px - x < t || x + w - 1
                    - px < t || py - y < t || y + h - 1 - py < t),
            c,
        ),
{
    assert forall|px: int, py: int|
        #[trigger] after.pixel(px, py) == if d.in_bounds(px, py) && (in_rect(
            x as int,
            y as int,
            w as int,
            h as int,
            px,
            py,
        ) && (px - x < t || x + w - 1 - px < t || py - y < t || y + h - 1 - py < t)) {
            c
        } else {
            d.pixel(px, py)
        } by {
        assert(after.pixel(px, py) == if d.in_bounds(px, py) && in_outline(
            x as int,
            y as int,
            w as int,
            h as int,
            t as int,
            px,
            py,
        ) {
            c
        } else {
            d.pixel(px, py)
        });
    }
}

/// Blending at opacity 0 keeps the background and at opacity 255 gives
/// the foreground, each for a color word whose top byte is clear.
pub proof fn law_blend_extremes(bg: u32, fg: u32)
    ensures
        bg < 0x100_0000 ==> blend(bg, fg, 0) == bg,
        fg < 0x100_0000 ==> blend(bg, fg, 255) == fg,
{
    assert(red(bg) * 255 / 255 == red(bg));
    assert(green(bg) * 255 / 255 == green(bg));
    assert(blue(bg) * 255 / 255 == blue(bg));
    assert(red(fg) * 255 / 255 == red(fg));
    assert(green(fg) * 255 / 255 == green(fg));
    assert(blue(fg) * 255 / 255 == blue(fg));
    if bg < 0x100_0000 {
        lemma_unpacks(bg);
    }
    if fg < 0x100_0000 {
        lemma_unpacks(fg);
    }
}

/// A color word with a clear top byte is the packing of its channels.
proof fn lemma_unpacks(c: u32)
    requires
        c < 0x100_0000,
    ensures
        red(c) * 0x10000 + green(c) * 0x100 + blue(c) == c,
{
    assert(((c as int / 0x10000) % 0x100) * 0x10000 + ((c as int / 0x100) % 0x100) * 0x100 + c as int
        % 0x100 == c) by (nonlinear_arith)
        requires
            0 <= c < 0x100_0000,
    ;
}

/// For a radius of at least zero, the filled circle holds pixel
/// `(cx + dx, cy + dy)` exactly when `dx * dx + dy * dy <= r * r`.
pub proof fn law_disk_membership(cx: int, cy: int, r: int, px: int, py: int)
    requires
        r >= 0,
    ensures
        in_disk(cx, cy, r, px, py) <==> (px - cx) * (px - cx) + (py - cy) * (py - cy) <= r * r,
{
    let dx = px - cx;
    let dy = py - cy;
    if dx * dx + dy * dy <= r * r {
        assert(-r <= dx <= r && -r <= dy <= r) by (nonlinear_arith)
            requires
                dx * dx + dy * dy <= r * r,
                r >= 0,
        ;
    }
}

/// Filling a circle of radius at least zero sets exactly the pixels on
/// the surface whose offsets `(dx, dy)` from the center have
/// `dx * dx + dy * dy <= r * r`.
pub proof fn law_fill_circle(d: Display, after: Display, cx: isize, cy: isize, r: isize, c: u32)
    requires
        d.wf(),
        r >= 0,
        Display::painted(d, after, |px: int, py: int| in_disk(cx as int, cy as int, r as int, px, py), c),
    ensures
        Display::painted(
            d,
            after,
            |px: int, py: int| (px - cx) * (px - cx) + (py - cy) * (py - cy) <= r * r,
            c,
        ),
{
    assert forall|px: int, py: int|
        #[trigger] after.pixel(px, py) == if d.in_bounds(px, py) && (px - cx) * (px - cx) + (py - cy)
            * (py - cy) <= r * r {
            c
        } else {
            d.pixel(px, py)
        } by {
        law_disk_membership(cx as int, cy as int, r as int, px, py);
        assert(after.pixel(px, py) == if d.in_bounds(px, py) && in_disk(
            cx as int,
            cy as int,
            r as int,
            px,
            py,
        ) {
            c
        } else {
            d.pixel(px, py)
        });
    }
}

} // verus!
