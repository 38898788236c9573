use graphics::colors::{BLACK, GRAY, GREEN, RED, WHITE};
use graphics::{clear_screen, draw_pixel, swap_buffers, Display, FramebufferInfo};

fn canvas(width: usize, height: usize) -> Display {
    Display::init(FramebufferInfo { width, height, pitch: width })
}

fn snapshot(d: &Display) -> Vec<u32> {
    let mut v = Vec::new();
    for y in 0..d.height() {
        for x in 0..d.width() {
            v.push(d.get_pixel(x, y));
        }
    }
    v
}

#[test]
fn init_is_zeroed_and_sized() {
    let d = canvas(5, 3);
    assert_eq!(d.width(), 5);
    assert_eq!(d.height(), 3);
    assert!(snapshot(&d).iter().all(|&c| c == 0));
}

#[test]
fn set_then_get_in_bounds() {
    let mut d = canvas(4, 4);
    for y in 0..4 {
        for x in 0..4 {
            let c = (y * 4 + x) as u32 + 1;
            d.set_pixel(x, y, c);
            assert_eq!(d.get_pixel(x, y), c);
        }
    }
}

#[test]
fn set_out_of_bounds_is_noop() {
    let mut d = canvas(4, 4);
    d.set_pixel(1, 1, RED);
    let before = snapshot(&d);
    d.set_pixel(4, 0, WHITE);
    d.set_pixel(0, 4, WHITE);
    d.set_pixel(100, 100, WHITE);
    assert_eq!(snapshot(&d), before);
    assert_eq!(d.get_pixel(4, 0), 0);
    assert_eq!(d.get_pixel(0, 4), 0);
    assert_eq!(d.get_pixel(usize::MAX, 2), 0);
}

#[test]
fn clear_sets_every_pixel() {
    let mut d = canvas(4, 4);
    d.set_pixel(3, 3, GREEN);
    d.clear(GRAY);
    assert!(snapshot(&d).iter().all(|&c| c == GRAY));
}

#[test]
fn clear_red_scenario() {
    let mut d = canvas(4, 4);
    d.clear(0xFF0000);
    assert_eq!(d.get_pixel(2, 2), 0xFF0000);
}

#[test]
fn free_functions_reach_the_display() {
    let mut d = canvas(3, 2);
    clear_screen(&mut d, BLACK);
    draw_pixel(&mut d, 2, 1, WHITE);
    assert_eq!(d.get_pixel(2, 1), WHITE);
    assert_eq!(d.get_pixel(1, 1), BLACK);
}

#[test]
fn present_honours_pitch() {
    let mut d = Display::init(FramebufferInfo { width: 3, height: 2, pitch: 5 });
    for y in 0..2 {
        for x in 0..3 {
            d.set_pixel(x, y, 10 * y as u32 + x as u32 + 1);
        }
    }
    let mut front = vec![0xDEADu32; 10];
    d.swap_buffers(&mut front);
    assert_eq!(front, vec![1, 2, 3, 0xDEAD, 0xDEAD, 11, 12, 13, 0xDEAD, 0xDEAD]);
}

#[test]
fn present_without_padding() {
    let mut d = canvas(2, 2);
    d.set_pixel(0, 0, RED);
    d.set_pixel(1, 1, GREEN);
    let mut front = vec![7u32; 4];
    swap_buffers(&d, &mut front);
    assert_eq!(front, vec![RED, 0, 0, GREEN]);
}

#[test]
fn framebuffer_set_pixel_uses_pitch() {
    let fb = FramebufferInfo { width: 2, height: 2, pitch: 3 };
    let mut mem = vec![0u32; 6];
    fb.set_pixel(&mut mem, 1, 1, WHITE);
    fb.set_pixel(&mut mem, 2, 0, RED);
    assert_eq!(mem, vec![0, 0, 0, 0, WHITE, 0]);
}
