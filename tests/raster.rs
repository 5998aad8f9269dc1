use softrast::calc::{swap, CMID};
use softrast::color::{hex_to_rgb, rgb_clamped, rgb_to_hex, RGB};
use softrast::device::{Device, Fragment};
use softrast::pipeline::{
    check_cvv, draws_wireframe, fill_of, triangle_accepted, ClipTests, Fill, RENDER_STATE_COLOR,
    RENDER_STATE_TEXTURE, RENDER_STATE_WIREFRAME,
};

fn lit(d: &Device, color: u32) -> Vec<(usize, usize)> {
    let mut out = Vec::new();
    for y in 0..d.height {
        for x in 0..d.width {
            if d.framebuf[y * d.width + x] == color {
                out.push((x, y));
            }
        }
    }
    out
}

fn sorted(mut v: Vec<(usize, usize)>) -> Vec<(usize, usize)> {
    v.sort();
    v
}

#[test]
fn cmid_clamps_into_range() {
    assert_eq!(CMID(-5, 0, 255), 0);
    assert_eq!(CMID(300, 0, 255), 255);
    assert_eq!(CMID(17, 0, 255), 17);
    assert_eq!(CMID(0, 0, 255), 0);
    assert_eq!(CMID(255, 0, 255), 255);
}

#[test]
fn swap_exchanges() {
    let mut a: usize = 3;
    let mut b: usize = 9;
    swap(&mut a, &mut b);
    assert_eq!((a, b), (9, 3));
}

#[test]
fn rgb_packing() {
    assert_eq!(rgb_to_hex(RGB { R: 0x12, G: 0x34, B: 0x56 }), 0x123456);
    assert_eq!(rgb_to_hex(RGB { R: 0x1ff, G: 0, B: 0x100 }), 0xff0000);
    let c = hex_to_rgb(0xff80ff);
    assert_eq!((c.R, c.G, c.B), (1, 0, 1));
    let c = hex_to_rgb(0x00ff00);
    assert_eq!((c.R, c.G, c.B), (0, 1, 0));
}

#[test]
fn rgb_clamped_limits_channels() {
    assert_eq!(rgb_clamped(300, -4, 128), 0xff0080);
    assert_eq!(rgb_clamped(1, 2, 3), 0x010203);
}

#[test]
fn new_device_is_black() {
    let d = Device::new(4, 3);
    assert_eq!(d.framebuf.len(), 12);
    assert_eq!(d.zbuffer.len(), 12);
    assert!(d.framebuf.iter().all(|&c| c == 0));
    assert!(d.zbuffer.iter().all(|&z| z == 0));
}

#[test]
fn pixel_sets_one_and_skips_outside() {
    let mut d = Device::new(4, 3);
    d.pixel(2, 1, 7);
    d.pixel(4, 0, 9);
    d.pixel(0, 3, 9);
    assert_eq!(lit(&d, 7), vec![(2, 1)]);
    assert!(lit(&d, 9).is_empty());
}

#[test]
fn clear_with_background() {
    let mut d = Device::new(3, 2);
    d.background = 0x112233;
    d.zbuffer[4] = 99;
    d.clear(0);
    assert!(d.framebuf.iter().all(|&c| c == 0x112233));
    assert!(d.zbuffer.iter().all(|&z| z == 0));
}

#[test]
fn clear_with_gradient() {
    let mut d = Device::new(2, 3);
    d.clear(1);
    assert_eq!(d.framebuf, vec![0xe6e6e6, 0xe6e6e6, 0x737373, 0x737373, 0, 0]);
}

#[test]
fn horizontal_line_on_cleared_buffer() {
    let mut d = Device::new(20, 5);
    d.clear(0);
    d.draw_line(0, 0, 10, 0, 0xabcdef);
    let expected: Vec<(usize, usize)> = (0..=10).map(|x| (x, 0)).collect();
    assert_eq!(lit(&d, 0xabcdef), expected);
    assert_eq!(lit(&d, 0).len(), 100 - 11);
}

#[test]
fn vertical_line_both_ways() {
    let mut d = Device::new(6, 6);
    d.draw_line(3, 5, 3, 1, 4);
    let expected: Vec<(usize, usize)> = (1..=5).map(|y| (3, y)).collect();
    assert_eq!(lit(&d, 4), expected);
}

#[test]
fn single_point_line() {
    let mut d = Device::new(6, 6);
    d.draw_line(2, 2, 2, 2, 4);
    assert_eq!(lit(&d, 4), vec![(2, 2)]);
}

#[test]
fn shallow_line_pixels() {
    let mut d = Device::new(8, 8);
    d.draw_line(0, 0, 4, 2, 5);
    assert_eq!(
        sorted(lit(&d, 5)),
        vec![(0, 0), (1, 0), (1, 1), (2, 1), (3, 1), (3, 2), (4, 2)]
    );
}

#[test]
fn steep_line_pixels() {
    let mut d = Device::new(8, 8);
    d.draw_line(2, 4, 0, 0, 5);
    assert_eq!(
        sorted(lit(&d, 5)),
        vec![(0, 0), (0, 1), (1, 1), (1, 2), (1, 3), (2, 3), (2, 4)]
    );
}

#[test]
fn line_symmetry() {
    let cases = [(1, 2, 7, 5), (6, 0, 0, 3), (2, 1, 4, 7), (5, 6, 1, 1), (0, 3, 7, 3)];
    for &(x1, y1, x2, y2) in cases.iter() {
        let mut a = Device::new(8, 8);
        let mut b = Device::new(8, 8);
        a.draw_line(x1, y1, x2, y2, 1);
        b.draw_line(x2, y2, x1, y1, 1);
        assert_eq!(a.framebuf, b.framebuf);
    }
}

#[test]
fn line_clipped_at_edges() {
    let mut d = Device::new(4, 4);
    d.draw_line(2, 1, 9, 1, 3);
    assert_eq!(lit(&d, 3), vec![(2, 1), (3, 1)]);
}

#[test]
fn scanline_depth_test() {
    let mut d = Device::new(4, 2);
    d.zbuffer[1 * 4 + 1] = 50;
    d.zbuffer[1 * 4 + 2] = 60;
    let frags = vec![
        Fragment { depth: 10, color: 0xa },
        Fragment { depth: 40, color: 0xb },
        Fragment { depth: 60, color: 0xc },
        Fragment { depth: 70, color: 0xd },
    ];
    d.draw_scanline(0, 1, &frags);
    assert_eq!(d.framebuf, vec![0, 0, 0, 0, 0xa, 0, 0xc, 0xd]);
    assert_eq!(d.zbuffer, vec![0, 0, 0, 0, 10, 50, 60, 70]);
}

#[test]
fn scanline_skips_outside_columns() {
    let mut d = Device::new(3, 2);
    let frags = vec![Fragment { depth: 1, color: 9 }; 6];
    d.draw_scanline(-2, 0, &frags);
    assert_eq!(d.framebuf, vec![9, 9, 9, 0, 0, 0]);
    let mut e = Device::new(3, 2);
    e.draw_scanline(0, 2, &frags);
    e.draw_scanline(0, -1, &frags);
    assert!(e.framebuf.iter().all(|&c| c == 0));
}

#[test]
fn redraw_changes_nothing() {
    let mut d = Device::new(5, 3);
    d.zbuffer[2] = 30;
    let rows = [
        (0, 0, vec![Fragment { depth: 20, color: 1 }, Fragment { depth: 20, color: 2 }, Fragment { depth: 20, color: 3 }]),
        (1, 1, vec![Fragment { depth: 25, color: 4 }, Fragment { depth: 35, color: 5 }]),
    ];
    for (x, y, f) in rows.iter() {
        d.draw_scanline(*x, *y, f);
    }
    let once = (d.framebuf.clone(), d.zbuffer.clone());
    for (x, y, f) in rows.iter() {
        d.draw_scanline(*x, *y, f);
    }
    assert_eq!((d.framebuf.clone(), d.zbuffer.clone()), once);
    assert_eq!(d.framebuf, vec![1, 2, 0, 0, 0, 0, 4, 5, 0, 0, 0, 0, 0, 0, 0]);
}

#[test]
fn later_fragment_wins_on_equal_depth() {
    let mut d = Device::new(2, 1);
    d.draw_scanline(0, 0, &vec![Fragment { depth: 5, color: 1 }]);
    d.draw_scanline(0, 0, &vec![Fragment { depth: 5, color: 2 }]);
    assert_eq!(d.framebuf[0], 2);
}

#[test]
fn checkerboard_texture() {
    let mut d = Device::new(2, 2);
    d.init_texture();
    assert_eq!((d.tex_width, d.tex_height), (256, 256));
    assert_eq!(d.texture_read(0, 0), 0x3fbcef);
    assert_eq!(d.texture_read(32, 0), 0xffffff);
    assert_eq!(d.texture_read(32, 32), 0x3fbcef);
    assert_eq!(d.texture_read(-10, 40), 0xffffff);
    assert_eq!(d.texture_read(1000, 1000), 0x3fbcef);
}

#[test]
fn set_texture_and_clamped_read() {
    let mut d = Device::new(2, 2);
    d.texture = vec![1, 2, 3, 4, 5, 6];
    d.set_texture(3, 2);
    assert_eq!(d.texture_read(2, 1), 6);
    assert_eq!(d.texture_read(5, -3), 3);
    assert_eq!(d.texture_read(-1, 9), 4);
}

#[test]
fn trapezoid_rows_clipped() {
    let d = Device::new(4, 10);
    assert_eq!(d.trap_rows(-3, 4), (0, 4));
    assert_eq!(d.trap_rows(2, 15), (2, 10));
    assert_eq!(d.trap_rows(12, 15), (12, 12));
    assert_eq!(d.trap_rows(5, 3), (5, 5));
}

#[test]
fn render_modes() {
    assert_eq!(fill_of(RENDER_STATE_COLOR), Fill::Colored);
    assert_eq!(fill_of(RENDER_STATE_TEXTURE), Fill::Textured);
    assert_eq!(fill_of(RENDER_STATE_TEXTURE | RENDER_STATE_COLOR), Fill::Textured);
    assert_eq!(fill_of(RENDER_STATE_WIREFRAME), Fill::Nothing);
    assert!(draws_wireframe(RENDER_STATE_WIREFRAME | RENDER_STATE_COLOR));
    assert!(!draws_wireframe(RENDER_STATE_TEXTURE));
}

fn tests(near: bool, far: bool, left: bool, right: bool, bottom: bool, top: bool) -> ClipTests {
    ClipTests { near, far, left, right, bottom, top }
}

#[test]
fn clip_codes() {
    assert_eq!(check_cvv(tests(false, false, false, false, false, false)), 0);
    assert_eq!(check_cvv(tests(true, false, false, false, false, false)), 1);
    assert_eq!(check_cvv(tests(false, true, false, true, false, true)), 42);
    assert_eq!(check_cvv(tests(true, true, true, true, true, true)), 63);
}

#[test]
fn triangle_behind_near_plane_rejected() {
    let behind = check_cvv(tests(true, false, false, false, false, false));
    let inside = check_cvv(tests(false, false, false, false, false, false));
    assert!(!triangle_accepted(behind, behind, behind));
    assert!(!triangle_accepted(inside, inside, behind));
    assert!(triangle_accepted(inside, inside, inside));
}

#[test]
fn diagonal_line_stays_within_its_ends() {
    let mut d = Device::new(4, 4);
    d.draw_line(0, 0, 2, 2, 6);
    assert_eq!(sorted(lit(&d, 6)), vec![(0, 0), (0, 1), (1, 1), (1, 2), (2, 2)]);
}

#[test]
fn diagonal_line_reversed_and_falling() {
    let mut d = Device::new(4, 4);
    d.draw_line(2, 2, 0, 0, 6);
    assert_eq!(sorted(lit(&d, 6)), vec![(0, 0), (0, 1), (1, 1), (1, 2), (2, 2)]);
    let mut e = Device::new(4, 4);
    e.draw_line(0, 3, 3, 0, 6);
    assert_eq!(
        sorted(lit(&e, 6)),
        vec![(0, 2), (0, 3), (1, 1), (1, 2), (2, 0), (2, 1), (3, 0)]
    );
}
