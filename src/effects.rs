//! Gradients and drop shadows.
use vstd::prelude::*;
use crate::canvas::Display;
use crate::color::{blend, blend_colors, gradient_at, gradient_color};
use crate::shapes::{fill_column, fill_span, in_rect};

verus! {

/// Fills `[x, x + width) x [y, y + height)` with a vertical gradient: row
/// `y + dy` gets `gradient_at(color_top, color_bottom, dy, height)`.
pub fn draw_gradient_vertical(
    display: &mut Display,
    x: usize,
    y: usize,
    width: usize,
    height: usize,
    color_top: u32,
    color_bottom: u32,
)
    requires
        old(display).wf(),
        x + width <= usize::MAX,
        y + height <= usize::MAX,
    ensures
        old(display).same_geometry(final(display)),
        forall|px: int, py: int|
            #[trigger] final(display).pixel(px, py) == if old(display).in_bounds(px, py) && in_rect(
                x as int,
                y as int,
                width as int,
                height as int,
                px,
                py,
            ) {
                gradient_at(color_top, color_bottom, py - y, height as int) as u32
            } else {
                old(display).pixel(px, py)
            },
{
    let mut dy: usize = 0;
    while dy < height
        invariant
            0 <= dy <= height,
            x + width <= usize::MAX,
            y + height <= usize::MAX,
            old(display).same_geometry(display),
            forall|px: int, py: int|
                #[trigger] display.pixel(px, py) == if old(display).in_bounds(px, py) && in_rect(
                    x as int,
                    y as int,
                    width as int,
                    dy as int,
                    px,
                    py,
                ) {
                    gradient_at(color_top, color_bottom, py - y, height as int) as u32
                } else {
                    old(display).pixel(px, py)
                },
        decreases height - dy,
    {
        let color = gradient_color(color_top, color_bottom, dy, height);
        let ghost before = *display;
        fill_span(display, x, y + dy, width, color);
        proof {
            assert forall|px: int, py: int|
                #[trigger] display.pixel(px, py) == if old(display).in_bounds(px, py) && in_rect(
                    x as int,
                    y as int,
                    width as int,
                    dy + 1,
                    px,
                    py,
                ) {
                    gradient_at(color_top, color_bottom, py - y, height as int) as u32
                } else {
                    old(display).pixel(px, py)
                } by {
                assert(display.pixel(px, py) == if before.in_bounds(px, py) && py == y + dy && x
                    <= px < x + width {
                    color
                } else {
                    before.pixel(px, py)
                });
                assert(before.pixel(px, py) == if old(display).in_bounds(px, py) && in_rect(
                    x as int,
                    y as int,
                    width as int,
                    dy as int,
                    px,
                    py,
                ) {
                    gradient_at(color_top, color_bottom, py - y, height as int) as u32
                } else {
                    old(display).pixel(px, py)
                });
            }
        }
        dy = dy + 1;
    }
}

/// Fills `[x, x + width) x [y, y + height)` with a horizontal gradient:
/// column `x + dx` gets `gradient_at(color_left, color_right, dx, width)`.
pub fn draw_gradient_horizontal(
    display: &mut Display,
    x: usize,
    y: usize,
    width: usize,
    height: usize,
    color_left: u32,
    color_right: u32,
)
    requires
        old(display).wf(),
        x + width <= usize::MAX,
        y + height <= usize::MAX,
    ensures
        old(display).same_geometry(final(display)),
        forall|px: int, py: int|
            #[trigger] final(display).pixel(px, py) == if old(display).in_bounds(px, py) && in_rect(
                x as int,
                y as int,
                width as int,
                height as int,
                px,
                py,
            ) {
                gradient_at(color_left, color_right, px - x, width as int) as u32
            } else {
                old(display).pixel(px, py)
            },
{
    let mut dx: usize = 0;
    while dx < width
        invariant
            0 <= dx <= width,
            x + width <= usize::MAX,
            y + height <= usize::MAX,
            old(display).same_geometry(display),
            forall|px: int, py: int|
                #[trigger] display.pixel(px, py) == if old(display).in_bounds(px, py) && in_rect(
                    x as int,
                    y as int,
                    dx as int,
                    height as int,
                    px,
                    py,
                ) {
                    gradient_at(color_left, color_right, px - x, width as int) as u32
                } else {
                    old(display).pixel(px, py)
                },
        decreases width - dx,
    {
        let color = gradient_color(color_left, color_right, dx, width);
        let ghost before = *display;
        fill_column(display, x + dx, y, height, color);
        proof {
            assert forall|px: int, py: int|
                #[trigger] display.pixel(px, py) == if old(display).in_bounds(px, py) && in_rect(
                    x as int,
                    y as int,
                    dx + 1,
                    height as int,
                    px,
                    py,
                ) {
                    gradient_at(color_left, color_right, px - x, width as int) as u32
                } else {
                    old(display).pixel(px, py)
                } by {
                assert(display.pixel(px, py) == if before.in_bounds(px, py) && px == x + dx && y
                    <= py < y + height {
                    color
                } else {
                    before.pixel(px, py)
                });
                assert(before.pixel(px, py) == if old(display).in_bounds(px, py) && in_rect(
                    x as int,
                    y as int,
                    dx as int,
                    height as int,
                    px,
                    py,
                ) {
                    gradient_at(color_left, color_right, px - x, width as int) as u32
                } else {
                    old(display).pixel(px, py)
                });
            }
        }
        dx = dx + 1;
    }
}


/// Distance of position `d` of a span of `len` padded by `blur` on each
/// side to the unpadded span: `0` inside it.
pub open spec fn edge_dist(d: int, len: int, blur: int) -> int {
    if d < blur {
        blur - d
    } else if d >= len + blur {
        d - len - blur + 1
    } else {
        0
    }
}

/// Distance of offset `(dx, dy)` of the padded box to the box itself,
/// the larger of the two axes.
pub open spec fn shadow_dist(dx: int, dy: int, w: int, h: int, blur: int) -> int {
    let a = edge_dist(dx, w, blur);
    let b = edge_dist(dy, h, blur);
    if a >= b {
        a
    } else {
        b
    }
}

/// Opacity of the shadow at that distance: 128 at the box, fading to 0 at
/// `blur`; a shadow without blur is 128 throughout.
pub open spec fn shadow_alpha(dist: int, blur: int) -> int {
    if blur == 0 {
        128
    } else {
        (blur - dist) * 128 / blur
    }
}

/// The color that the shadow of a `w x h` box with offset `offset` and blur
/// `blur` at `(x, y)` gives to pixel `(px, py)` whose color was `bg`.
pub open spec fn shadowed(bg: u32, x: int, y: int, w: int, h: int, offset: int, blur: int, px: int, py: int) -> u32 {
    let dist = shadow_dist(px - x - offset, py - y - offset, w, h, blur);
    if in_rect(x + offset, y + offset, w + 2 * blur, h + 2 * blur, px, py) && dist <= blur {
        blend(bg, 0, shadow_alpha(dist, blur) as u8) as u32
    } else {
        bg
    }
}

/// Darkens the pixels around the box `[x, x + width) x [y, y + height)`
/// moved by `offset` on both axes: within the box black is blended in at
/// opacity 128, fading out over `blur` pixels around it (with no blur, the
/// box alone gets opacity 128).
pub fn draw_shadow(display: &mut Display, x: usize, y: usize, width: usize, height: usize, offset: usize, blur: usize)
    requires
        old(display).wf(),
        x + offset + width + 2 * blur <= usize::MAX,
        y + offset + height + 2 * blur <= usize::MAX,
    ensures
        old(display).same_geometry(final(display)),
        forall|px: int, py: int|
            #[trigger] final(display).pixel(px, py) == if old(display).in_bounds(px, py) {
                shadowed(
                    old(display).pixel(px, py),
                    x as int,
                    y as int,
                    width as int,
                    height as int,
                    offset as int,
                    blur as int,
                    px,
                    py,
                )
            } else {
                old(display).pixel(px, py)
            },
{
    let ghost ox = x + offset;
    let ghost oy = y + offset;
    let ghost w = width as int;
    let ghost h = height as int;
    let ghost b = blur as int;
    let tw = width + blur * 2;
    let th = height + blur * 2;
    let mut dy: usize = 0;
    while dy < th
        invariant
            0 <= dy <= th,
            tw == width + 2 * blur,
            th == height + 2 * blur,
            ox == x + offset,
            oy == y + offset,
            w == width,
            h == height,
            b == blur,
            x + offset + width + 2 * blur <= usize::MAX,
            y + offset + height + 2 * blur <= usize::MAX,
            old(display).same_geometry(display),
            forall|px: int, py: int|
                #[trigger] display.pixel(px, py) == if old(display).in_bounds(px, py) && py < oy + dy {
                    shadowed(old(display).pixel(px, py), x as int, y as int, w, h, offset as int, b, px, py)
                } else {
                    old(display).pixel(px, py)
                },
        decreases th - dy,
    {
        let mut dx: usize = 0;
        while dx < tw
            invariant
                0 <= dy < th,
                0 <= dx <= tw,
                tw == width + 2 * blur,
                th == height + 2 * blur,
                    ox == x + offset,
                oy == y + offset,
                w == width,
                h == height,
                b == blur,
                x + offset + width + 2 * blur <= usize::MAX,
                y + offset + height + 2 * blur <= usize::MAX,
                old(display).same_geometry(display),
                forall|px: int, py: int|
                    #[trigger] display.pixel(px, py) == if old(display).in_bounds(px, py) && (py < oy
                        + dy || (py == oy + dy && px < ox + dx)) {
                        shadowed(old(display).pixel(px, py), x as int, y as int, w, h, offset as int, b, px, py)
                    } else {
                        old(display).pixel(px, py)
                    },
            decreases tw - dx,
        {
            let shadow_x = x + offset + dx;
            let shadow_y = y + offset + dy;

            let dist_x = if dx < blur {
                blur - dx
            } else if dx >= width + blur {
                dx - width - blur + 1
            } else {
                0
            };
            let dist_y = if dy < blur {
                blur - dy
            } else if dy >= height + blur {
                dy - height - blur + 1
            } else {
                0
            };
            let dist = if dist_x >= dist_y {
                dist_x
            } else {
                dist_y
            };
            let ghost before = *display;
            if dist <= blur {
                let alpha: u8 = if blur == 0 {
                    128
                } else {
                    assert((blur - dist) as int * 128 / (blur as int) <= 128) by (nonlinear_arith)
                        requires
                            0 <= dist <= blur,
                            blur > 0,
                    ;
                    (((blur - dist) as u128) * 128 / (blur as u128)) as u8
                };
                if shadow_x < display.width() && shadow_y < display.height() {
                    let bg = display.get_pixel(shadow_x, shadow_y);
                    display.set_pixel(shadow_x, shadow_y, blend_colors(bg, 0x000000, alpha));
                }
            }
            proof {
                assert forall|px: int, py: int|
                    #[trigger] display.pixel(px, py) == if old(display).in_bounds(px, py) && (py < oy
                        + dy || (py == oy + dy && px < ox + dx + 1)) {
                        shadowed(old(display).pixel(px, py), x as int, y as int, w, h, offset as int, b, px, py)
                    } else {
                        old(display).pixel(px, py)
                    } by {
                    assert(before.pixel(px, py) == if old(display).in_bounds(px, py) && (py < oy
                        + dy || (py == oy + dy && px < ox + dx)) {
                        shadowed(old(display).pixel(px, py), x as int, y as int, w, h, offset as int, b, px, py)
                    } else {
                        old(display).pixel(px, py)
                    });
                    assert(display.pixel(px, py) == if before.in_bounds(px, py) && px == shadow_x
                        && py == shadow_y && dist <= blur {
                        display.pixel(px, py)
                    } else {
                        before.pixel(px, py)
                    });
                }
            }
            dx = dx + 1;
        }
        dy = dy + 1;
    }
}

} // verus!
