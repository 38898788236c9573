//! A palette of named colors.
use vstd::prelude::*;

verus! {

pub const BLACK: u32 = 0x000000;
pub const WHITE: u32 = 0xFFFFFF;
pub const RED: u32 = 0xFF0000;
pub const GREEN: u32 = 0x00FF00;
pub const BLUE: u32 = 0x0000FF;
pub const YELLOW: u32 = 0xFFFF00;
pub const CYAN: u32 = 0x00FFFF;
pub const MAGENTA: u32 = 0xFF00FF;
pub const GRAY: u32 = 0x808080;
pub const DARK_GRAY: u32 = 0x404040;
pub const LIGHT_GRAY: u32 = 0xC0C0C0;
pub const ORANGE: u32 = 0xFF8000;
pub const PURPLE: u32 = 0x8000FF;

} // verus!
