use vstd::prelude::*;

verus! {

/// The color word with red `r`, green `g` and blue `b`: red in bits
/// 16..24, green in bits 8..16, blue in bits 0..8.
pub open spec fn pack(r: int, g: int, b: int) -> int {
    r * 0x10000 + g * 0x100 + b
}

/// The red channel of a color word.
pub open spec fn red(c: u32) -> int {
    (c as int / 0x10000) % 0x100
}

/// The green channel of a color word.
pub open spec fn green(c: u32) -> int {
    (c as int / 0x100) % 0x100
}

/// The blue channel of a color word.
pub open spec fn blue(c: u32) -> int {
    c as int % 0x100
}

/// One channel of `bg` covered by `fg` at opacity `alpha` out of 255.
pub open spec fn blend_channel(bg: int, fg: int, alpha: int) -> int {
    (bg * (255 - alpha) + fg * alpha) / 255
}

/// `bg` covered by `fg` at opacity `alpha`, channel by channel.
pub open spec fn blend(bg: u32, fg: u32, alpha: u8) -> int {
    pack(
        blend_channel(red(bg), red(fg), alpha as int),
        blend_channel(green(bg), green(fg), alpha as int),
        blend_channel(blue(bg), blue(fg), alpha as int),
    )
}

/// One channel interpolated between `c1` (at ratio 0) and `c2` (at ratio
/// 256), in 256ths.
pub open spec fn lerp_channel(c1: int, c2: int, ratio: int) -> int {
    (c1 * (256 - ratio) + c2 * ratio) / 256
}

/// The color at position `pos` of a gradient of `len` steps from `c1` to `c2`.
pub open spec fn gradient_at(c1: u32, c2: u32, pos: int, len: int) -> int {
    let ratio = pos * 256 / len;
    pack(
        lerp_channel(red(c1), red(c2), ratio),
        lerp_channel(green(c1), green(c2), ratio),
        lerp_channel(blue(c1), blue(c2), ratio),
    )
}

/// Shifting and or-ing three channels packs them.
pub proof fn lemma_pack(r: u32, g: u32, b: u32)
    requires
        r < 0x100,
        g < 0x100,
        b < 0x100,
    ensures
        (r << 16u32) | (g << 8u32) | b == r * 0x10000 + g * 0x100 + b,
        r * 0x10000 + g * 0x100 + b < 0x100_0000,
{
    assert((r << 16u32) | (g << 8u32) | b == r * 0x10000 + g * 0x100 + b) by (bit_vector)
        requires
            r < 0x100,
            g < 0x100,
            b < 0x100,
    ;
}

/// Shifting and masking a color word reads its channels.
pub proof fn lemma_unpack(c: u32)
    ensures
        (c >> 16u32) & 0xFF == red(c),
        (c >> 8u32) & 0xFF == green(c),
        c & 0xFF == blue(c),
{
    assert((c >> 16u32) & 0xFF == (c / 0x10000) % 0x100) by (bit_vector);
    assert((c >> 8u32) & 0xFF == (c / 0x100) % 0x100) by (bit_vector);
    assert(c & 0xFF == c % 0x100) by (bit_vector);
}

/// The color word of the channels `r`, `g`, `b`.
pub fn rgb(r: u8, g: u8, b: u8) -> (c: u32)
    ensures
        c as int == pack(r as int, g as int, b as int),
        red(c) == r,
        green(c) == g,
        blue(c) == b,
{
    proof {
        lemma_pack(r as u32, g as u32, b as u32);
    }
    let c = ((r as u32) << 16) | ((g as u32) << 8) | (b as u32);
    proof {
        lemma_channels_of_pack(r as int, g as int, b as int);
    }
    c
}

/// The channels of a packed word are the ones it was packed from.
pub proof fn lemma_channels_of_pack(r: int, g: int, b: int)
    requires
        0 <= r < 0x100,
        0 <= g < 0x100,
        0 <= b < 0x100,
    ensures
        (pack(r, g, b) / 0x10000) % 0x100 == r,
        (pack(r, g, b) / 0x100) % 0x100 == g,
        pack(r, g, b) % 0x100 == b,
{
    assert((pack(r, g, b) / 0x10000) % 0x100 == r) by (nonlinear_arith)
        requires
            0 <= r < 0x100,
            0 <= g < 0x100,
            0 <= b < 0x100,
            pack(r, g, b) == r * 0x10000 + g * 0x100 + b,
    ;
    assert((pack(r, g, b) / 0x100) % 0x100 == g) by (nonlinear_arith)
        requires
            0 <= r < 0x100,
            0 <= g < 0x100,
            0 <= b < 0x100,
            pack(r, g, b) == r * 0x10000 + g * 0x100 + b,
    ;
}

proof fn lemma_blend_channel_bound(bg: int, fg: int, alpha: int)
    requires
        0 <= bg < 0x100,
        0 <= fg < 0x100,
        0 <= alpha <= 255,
    ensures
        0 <= blend_channel(bg, fg, alpha) < 0x100,
        0 <= bg * (255 - alpha) + fg * alpha <= 255 * 255,
{
    assert(0 <= bg * (255 - alpha) + fg * alpha <= 255 * 255) by (nonlinear_arith)
        requires
            0 <= bg < 0x100,
            0 <= fg < 0x100,
            0 <= alpha <= 255,
    ;
}

proof fn lemma_lerp_channel_bound(c1: int, c2: int, ratio: int)
    requires
        0 <= c1 < 0x100,
        0 <= c2 < 0x100,
        0 <= ratio <= 256,
    ensures
        0 <= lerp_channel(c1, c2, ratio) < 0x100,
        0 <= c1 * (256 - ratio) + c2 * ratio <= 255 * 256,
{
    assert(0 <= c1 * (256 - ratio) + c2 * ratio <= 255 * 256) by (nonlinear_arith)
        requires
            0 <= c1 < 0x100,
            0 <= c2 < 0x100,
            0 <= ratio <= 256,
    ;
}

/// `bg` covered by `fg` at opacity `alpha` (0 keeps `bg`, 255 gives `fg`),
/// each channel rounded down.
pub fn blend_colors(bg: u32, fg: u32, alpha: u8) -> (c: u32)
    ensures
        c as int == blend(bg, fg, alpha),
{
    let alpha = alpha as u32;
    let inv_alpha = 255 - alpha;

    let bg_r = (bg >> 16) & 0xFF;
    let bg_g = (bg >> 8) & 0xFF;
    let bg_b = bg & 0xFF;

    let fg_r = (fg >> 16) & 0xFF;
    let fg_g = (fg >> 8) & 0xFF;
    let fg_b = fg & 0xFF;

    proof {
        lemma_unpack(bg);
        lemma_unpack(fg);
        lemma_blend_channel_bound(bg_r as int, fg_r as int, alpha as int);
        lemma_blend_channel_bound(bg_g as int, fg_g as int, alpha as int);
        lemma_blend_channel_bound(bg_b as int, fg_b as int, alpha as int);
    }

    let r = (bg_r * inv_alpha + fg_r * alpha) / 255;
    let g = (bg_g * inv_alpha + fg_g * alpha) / 255;
    let b = (bg_b * inv_alpha + fg_b * alpha) / 255;

    proof {
        lemma_pack(r, g, b);
    }
    (r << 16) | (g << 8) | b
}

/// The color at position `pos` of a gradient of `len` steps from `c1` to `c2`.
pub fn gradient_color(c1: u32, c2: u32, pos: usize, len: usize) -> (c: u32)
    requires
        pos < len,
    ensures
        c as int == gradient_at(c1, c2, pos as int, len as int),
{
    let r1 = (c1 >> 16) & 0xFF;
    let g1 = (c1 >> 8) & 0xFF;
    let b1 = c1 & 0xFF;

    let r2 = (c2 >> 16) & 0xFF;
    let g2 = (c2 >> 8) & 0xFF;
    let b2 = c2 & 0xFF;

    let ratio = ((pos as u128) * 256 / (len as u128)) as u32;
    proof {
        assert((pos as int) * 256 / (len as int) <= 256) by (nonlinear_arith)
            requires
                0 <= pos < len,
        ;
        lemma_unpack(c1);
        lemma_unpack(c2);
        lemma_lerp_channel_bound(r1 as int, r2 as int, ratio as int);
        lemma_lerp_channel_bound(g1 as int, g2 as int, ratio as int);
        lemma_lerp_channel_bound(b1 as int, b2 as int, ratio as int);
    }
    let r = (r1 * (256 - ratio) + r2 * ratio) / 256;
    let g = (g1 * (256 - ratio) + g2 * ratio) / 256;
    let b = (b1 * (256 - ratio) + b2 * ratio) / 256;

    proof {
        lemma_pack(r, g, b);
    }
    (r << 16) | (g << 8) | b
}

} // verus!
