//! Drawing primitives over a double-buffered linear framebuffer.
//!
//! A [`Display`] owns a back buffer of `width * height` packed color words;
//! the shape operations of [`shapes`] and [`effects`] paint into it, and
//! [`Display::swap_buffers`] copies it into a view of the physical
//! framebuffer, row by row, honouring the framebuffer's own pitch.
use vstd::prelude::*;

pub mod canvas;
pub mod color;
pub mod colors;
pub mod effects;
pub mod laws;
pub mod shapes;

pub use canvas::{clear_screen, draw_pixel, swap_buffers, Display, FramebufferInfo};
pub use color::{blend_colors, rgb};
pub use effects::{draw_gradient_horizontal, draw_gradient_vertical, draw_shadow};
pub use shapes::{
    draw_bitmap, draw_circle, draw_line, draw_rect, draw_rect_outline, draw_rounded_rect,
    draw_triangle, fill_circle,
};

verus! {

} // verus!
