use graphics::colors::{BLACK, BLUE, RED, WHITE};
use graphics::{
    blend_colors, draw_bitmap, draw_circle, draw_gradient_horizontal, draw_gradient_vertical,
    draw_line, draw_rect, draw_rect_outline, draw_rounded_rect, draw_shadow, draw_triangle,
    fill_circle, rgb, Display, FramebufferInfo,
};

fn canvas(width: usize, height: usize) -> Display {
    Display::init(FramebufferInfo { width, height, pitch: width })
}

fn set_pixels(d: &Display) -> Vec<(usize, usize)> {
    let mut v = Vec::new();
    for y in 0..d.height() {
        for x in 0..d.width() {
            if d.get_pixel(x, y) != 0 {
                v.push((x, y));
            }
        }
    }
    v
}

#[test]
fn rgb_packs_channels() {
    assert_eq!(rgb(0x12, 0x34, 0x56), 0x123456);
    assert_eq!(rgb(255, 0, 0), RED);
    assert_eq!(rgb(0, 0, 255), BLUE);
}

#[test]
fn line_diagonal_scenario() {
    let mut d = canvas(4, 4);
    draw_line(&mut d, 0, 0, 3, 3, 0xFFFFFF);
    assert_eq!(set_pixels(&d), vec![(0, 0), (1, 1), (2, 2), (3, 3)]);
}

#[test]
fn line_degenerate_is_one_pixel() {
    let mut d = canvas(4, 4);
    draw_line(&mut d, 2, 1, 2, 1, WHITE);
    assert_eq!(set_pixels(&d), vec![(2, 1)]);
}

#[test]
fn line_shallow_and_reversed() {
    let mut d = canvas(5, 3);
    draw_line(&mut d, 4, 2, 0, 0, WHITE);
    assert_eq!(set_pixels(&d), vec![(0, 0), (1, 0), (2, 1), (3, 1), (4, 2)]);
}

#[test]
fn line_clips_negative_coordinates() {
    let mut d = canvas(3, 3);
    draw_line(&mut d, -2, 0, 2, 0, WHITE);
    assert_eq!(set_pixels(&d), vec![(0, 0), (1, 0), (2, 0)]);
}

#[test]
fn rect_scenario() {
    let mut d = canvas(4, 4);
    draw_rect(&mut d, 1, 1, 2, 2, 0x00FF00);
    assert_eq!(set_pixels(&d), vec![(1, 1), (2, 1), (1, 2), (2, 2)]);
}

#[test]
fn rect_outline_thickness_one() {
    let mut d = canvas(5, 5);
    draw_rect_outline(&mut d, 0, 0, 4, 4, WHITE, 1);
    let expected: Vec<(usize, usize)> = vec![
        (0, 0), (1, 0), (2, 0), (3, 0),
        (0, 1), (3, 1),
        (0, 2), (3, 2),
        (0, 3), (1, 3), (2, 3), (3, 3),
    ];
    assert_eq!(set_pixels(&d), expected);
}

#[test]
fn rect_outline_ring_is_chebyshev_band() {
    let mut d = canvas(8, 8);
    draw_rect_outline(&mut d, 1, 1, 6, 6, WHITE, 2);
    for y in 0..8usize {
        for x in 0..8usize {
            let inside = (1..7).contains(&x) && (1..7).contains(&y);
            let dist = if inside {
                (x - 1).min(6 - x).min(y - 1).min(6 - y)
            } else {
                usize::MAX
            };
            assert_eq!(d.get_pixel(x, y) == WHITE, inside && dist < 2, "pixel ({x}, {y})");
        }
    }
}

#[test]
fn fill_circle_scenario() {
    let mut d = canvas(11, 11);
    fill_circle(&mut d, 5, 5, 2, 0xFFFFFF);
    assert_eq!(d.get_pixel(5, 7), 0xFFFFFF);
    assert_eq!(d.get_pixel(5, 8), 0);
}

#[test]
fn fill_circle_matches_disk_test() {
    let mut d = canvas(11, 11);
    fill_circle(&mut d, 5, 5, 3, WHITE);
    for y in 0..11isize {
        for x in 0..11isize {
            let inside = (x - 5) * (x - 5) + (y - 5) * (y - 5) <= 9;
            assert_eq!(d.get_pixel(x as usize, y as usize) == WHITE, inside);
        }
    }
}

#[test]
fn fill_circle_clips_at_origin() {
    let mut d = canvas(4, 4);
    fill_circle(&mut d, 0, 0, 1, WHITE);
    assert_eq!(set_pixels(&d), vec![(0, 0), (1, 0), (0, 1)]);
}

#[test]
fn circle_radius_two() {
    let mut d = canvas(5, 5);
    draw_circle(&mut d, 2, 2, 2, WHITE);
    let expected: Vec<(usize, usize)> = vec![
        (2, 0),
        (1, 1), (3, 1),
        (0, 2), (4, 2),
        (1, 3), (3, 3),
        (2, 4),
    ];
    assert_eq!(set_pixels(&d), expected);
}

#[test]
fn circle_radius_zero_is_center() {
    let mut d = canvas(3, 3);
    draw_circle(&mut d, 1, 1, 0, WHITE);
    assert_eq!(set_pixels(&d), vec![(1, 1)]);
}

#[test]
fn rounded_rect_cuts_corners() {
    let mut d = canvas(8, 8);
    draw_rounded_rect(&mut d, 0, 0, 8, 8, 2, WHITE);
    assert_eq!(d.get_pixel(0, 0), 0);
    assert_eq!(d.get_pixel(7, 7), 0);
    assert_eq!(d.get_pixel(7, 0), 0);
    assert_eq!(d.get_pixel(0, 7), 0);
    assert_eq!(d.get_pixel(1, 1), WHITE);
    assert_eq!(d.get_pixel(4, 4), WHITE);
    assert_eq!(d.get_pixel(0, 3), WHITE);
    assert_eq!(d.get_pixel(3, 0), WHITE);
    assert_eq!(d.get_pixel(6, 6), WHITE);
}

#[test]
fn rounded_rect_zero_radius_is_rect() {
    let mut a = canvas(6, 6);
    let mut b = canvas(6, 6);
    draw_rounded_rect(&mut a, 1, 1, 4, 3, 0, WHITE);
    draw_rect(&mut b, 1, 1, 4, 3, WHITE);
    assert_eq!(set_pixels(&a), set_pixels(&b));
}

#[test]
fn gradient_vertical_rows() {
    let mut d = canvas(2, 4);
    draw_gradient_vertical(&mut d, 0, 0, 2, 4, 0x000000, 0xFF0000);
    assert_eq!(d.get_pixel(0, 0), 0x000000);
    assert_eq!(d.get_pixel(1, 1), 0x3F0000);
    assert_eq!(d.get_pixel(0, 2), 0x7F0000);
    assert_eq!(d.get_pixel(1, 3), 0xBF0000);
}

#[test]
fn gradient_horizontal_columns() {
    let mut d = canvas(2, 2);
    draw_gradient_horizontal(&mut d, 0, 0, 2, 2, 0x0000FF, 0x00FF00);
    assert_eq!(d.get_pixel(0, 0), 0x0000FF);
    assert_eq!(d.get_pixel(0, 1), 0x0000FF);
    assert_eq!(d.get_pixel(1, 0), 0x007F7F);
    assert_eq!(d.get_pixel(1, 1), 0x007F7F);
}

#[test]
fn triangle_edges() {
    let mut d = canvas(4, 4);
    draw_triangle(&mut d, 0, 0, 3, 0, 0, 3, WHITE);
    let expected: Vec<(usize, usize)> = vec![
        (0, 0), (1, 0), (2, 0), (3, 0),
        (0, 1), (2, 1),
        (0, 2), (1, 2),
        (0, 3),
    ];
    assert_eq!(set_pixels(&d), expected);
}

#[test]
fn bitmap_msb_first() {
    let mut d = canvas(4, 2);
    draw_bitmap(&mut d, 0, 0, 4, 2, &[0b1001_0110], WHITE);
    assert_eq!(set_pixels(&d), vec![(0, 0), (3, 0), (1, 1), (2, 1)]);
}

#[test]
fn bitmap_short_source_is_unset() {
    let mut d = canvas(8, 3);
    d.set_pixel(0, 2, RED);
    draw_bitmap(&mut d, 0, 0, 8, 3, &[0xFF], WHITE);
    assert_eq!(d.get_pixel(7, 0), WHITE);
    assert_eq!(d.get_pixel(0, 1), 0);
    assert_eq!(d.get_pixel(0, 2), RED);
}

#[test]
fn blend_extremes() {
    assert_eq!(blend_colors(0x123456, 0xABCDEF, 0), 0x123456);
    assert_eq!(blend_colors(0x123456, 0xABCDEF, 255), 0xABCDEF);
}

#[test]
fn blend_half_scenario() {
    assert_eq!(blend_colors(0x000000, 0xFFFFFF, 128), 0x808080);
}

#[test]
fn shadow_darkens_box_and_fades() {
    let mut d = canvas(8, 8);
    d.clear(WHITE);
    draw_shadow(&mut d, 1, 1, 2, 2, 1, 2);
    // Inside the box, at offset 1 plus blur 2: alpha 128.
    assert_eq!(d.get_pixel(4, 4), blend_colors(WHITE, BLACK, 128));
    assert_eq!(d.get_pixel(4, 4), 0x7F7F7F);
    // One pixel outside the box: alpha 64.
    assert_eq!(d.get_pixel(3, 4), blend_colors(WHITE, BLACK, 64));
    // At the padded edge: alpha 0, unchanged.
    assert_eq!(d.get_pixel(2, 4), WHITE);
    // Outside the padded box.
    assert_eq!(d.get_pixel(0, 0), WHITE);
}

#[test]
fn empty_shapes_change_nothing() {
    let mut d = canvas(4, 4);
    draw_rect(&mut d, 1, 1, 0, 3, WHITE);
    draw_rect(&mut d, 1, 1, 3, 0, WHITE);
    draw_rect_outline(&mut d, 0, 0, 4, 4, WHITE, 0);
    fill_circle(&mut d, 2, 2, -1, WHITE);
    draw_circle(&mut d, 2, 2, -1, WHITE);
    draw_bitmap(&mut d, 0, 0, 4, 4, &[], WHITE);
    assert!(set_pixels(&d).is_empty());
}

#[test]
fn shapes_clip_at_far_edges() {
    let mut d = canvas(3, 3);
    draw_rect(&mut d, 2, 2, 5, 5, WHITE);
    assert_eq!(set_pixels(&d), vec![(2, 2)]);
}

#[test]
fn zero_sized_canvas() {
    let mut d = canvas(0, 0);
    d.set_pixel(0, 0, WHITE);
    d.clear(WHITE);
    assert_eq!(d.get_pixel(0, 0), 0);
    let mut front: Vec<u32> = Vec::new();
    d.swap_buffers(&mut front);
    assert!(front.is_empty());
}

#[test]
fn rect_outline_thicker_than_rect_stays_inside() {
    let mut d = canvas(4, 4);
    draw_rect_outline(&mut d, 0, 0, 1, 1, WHITE, 2);
    assert_eq!(set_pixels(&d), vec![(0, 0)]);

    let mut e = canvas(5, 5);
    draw_rect_outline(&mut e, 1, 1, 3, 2, WHITE, 5);
    let expected: Vec<(usize, usize)> = vec![(1, 1), (2, 1), (3, 1), (1, 2), (2, 2), (3, 2)];
    assert_eq!(set_pixels(&e), expected);
}

#[test]
fn rounded_rect_narrower_than_radius_stays_inside() {
    let mut d = canvas(3, 3);
    draw_rounded_rect(&mut d, 0, 0, 1, 1, 1, WHITE);
    assert!(set_pixels(&d).is_empty());

    let mut e = canvas(8, 8);
    draw_rounded_rect(&mut e, 0, 0, 2, 6, 3, WHITE);
    let set = set_pixels(&e);
    assert!(set.iter().all(|&(x, y)| x < 2 && y < 6), "{set:?}");
    assert_eq!(e.get_pixel(0, 3), WHITE);
    assert_eq!(e.get_pixel(1, 3), WHITE);
    assert_eq!(e.get_pixel(0, 2), WHITE);
}

#[test]
fn shadow_without_blur_is_hard() {
    let mut d = canvas(4, 4);
    d.clear(WHITE);
    draw_shadow(&mut d, 0, 0, 2, 2, 1, 0);
    for y in 0..4 {
        for x in 0..4 {
            let inside = (1..3).contains(&x) && (1..3).contains(&y);
            let expected = if inside { 0x7F7F7F } else { WHITE };
            assert_eq!(d.get_pixel(x, y), expected, "pixel ({x}, {y})");
        }
    }
}
