use std::collections::HashSet;
use triangle::{chaos_image, draw_image, Image, Line};

fn black_pixels(img: &Image, size: u32) -> HashSet<(u32, u32)> {
    let mut black = HashSet::new();
    for y in 0..size {
        for x in 0..size {
            if img.get(x, y) == 0 {
                black.insert((x, y));
            }
        }
    }
    black
}

#[test]
fn render_depth_zero_draws_exactly_the_outer_triangle() {
    let size: u32 = 16;
    let img = draw_image(size, 0);
    let bound = (size - 1) as i32;
    let top = Line::new((0, 0), (bound, 0)).mid();
    let mut expected: HashSet<(i32, i32)> = HashSet::new();
    for line in [
        Line::new(top, (0, bound)),
        Line::new(top, (bound, bound)),
        Line::new((0, bound), (bound, bound)),
    ] {
        for p in line.points() {
            expected.insert(p);
        }
    }
    for y in 0..size {
        for x in 0..size {
            let black = img.get(x, y) == 0;
            assert_eq!(black, expected.contains(&(x as i32, y as i32)), "at ({x},{y})");
        }
    }
}

#[test]
fn render_stays_in_bounds() {
    // An out-of-bounds paint would panic inside the renderer; rendering a
    // range of sizes and depths to completion, with the right dimensions,
    // shows every painted coordinate was inside the canvas.
    for (size, depth) in [(10, 0), (10, 1), (10, 5), (10, 10), (100, 0), (100, 5), (800, 1)] {
        let img = draw_image(size, depth);
        let (w, h, data) = img.into_raw();
        assert_eq!((w, h), (size, size));
        assert_eq!(data.len(), (size * size) as usize);
    }
}

#[test]
fn render_black_pixel_count_is_monotone_in_depth() {
    let size: u32 = 64;
    let mut last = 0;
    for depth in 0..5 {
        let img = draw_image(size, depth);
        let count = black_pixels(&img, size).len();
        assert!(count >= last, "depth {depth}: {count} < {last}");
        last = count;
    }
}

#[test]
fn render_deeper_keeps_every_black_pixel() {
    let size: u32 = 32;
    let shallow = black_pixels(&draw_image(size, 1), size);
    let deep = black_pixels(&draw_image(size, 2), size);
    assert!(shallow.is_subset(&deep));
    assert!(deep.len() > shallow.len());
}

#[test]
fn painting_twice_equals_painting_once() {
    let pts = vec![(1, 1), (2, 3), (2, 3), (0, 7), (7, 0)];
    let mut once = Image::new(8);
    once.draw_vec(pts.clone());
    let mut twice = Image::new(8);
    twice.draw_vec(pts.clone());
    twice.draw_vec(pts);
    for y in 0..8 {
        for x in 0..8 {
            assert_eq!(once.get(x, y), twice.get(x, y));
        }
    }
}

#[test]
fn raw_buffer_matches_pixels() {
    let size: u32 = 12;
    let img = draw_image(size, 2);
    let mut values = Vec::new();
    for y in 0..size {
        for x in 0..size {
            values.push(((x, y), img.get(x, y)));
        }
    }
    let (w, _h, data) = img.into_raw();
    for ((x, y), v) in values {
        assert_eq!(data[(y * w + x) as usize], v);
    }
}

#[test]
fn chaos_image_frame() {
    let img = chaos_image();
    assert_eq!(img.get(0, 0), 0);
    let mut blacks = 0;
    for y in 0..600 {
        for x in 0..800 {
            let v = img.get(x, y);
            assert!(v == 0 || v == 255);
            if v == 0 {
                blacks += 1;
            }
        }
    }
    assert!(blacks >= 1);
    let (w, h, _data) = img.into_raw();
    assert_eq!((w, h), (800, 600));
}
