use watermark_remover::raster::{crop_rgba, draw_rect, fit_rgba, set_px, zoom_window};

#[test]
fn set_px_paints_inside_only() {
    let mut px = vec![0u8; 3 * 2 * 4];
    set_px(&mut px, 3, 2, 1, 1, [10, 20, 30]);
    let i = (1 * 3 + 1) * 4;
    assert_eq!(&px[i..i + 4], &[10, 20, 30, 255]);
    let before = px.clone();
    set_px(&mut px, 3, 2, 3, 0, [1, 2, 3]);
    set_px(&mut px, 3, 2, -1, 0, [1, 2, 3]);
    set_px(&mut px, 3, 2, 0, 2, [1, 2, 3]);
    assert_eq!(px, before);
}

#[test]
fn draw_rect_paints_a_two_pixel_outline() {
    let (w, h) = (8usize, 8usize);
    let mut px = vec![0u8; w * h * 4];
    draw_rect(&mut px, w, h, 1, 1, 6, [9, 9, 9]);
    for y in 0..h {
        for x in 0..w {
            let on = (1..7).contains(&x) && (1..7).contains(&y) && !((3..5).contains(&x) && (3..5).contains(&y));
            let i = (y * w + x) * 4;
            let want: &[u8] = if on { &[9, 9, 9, 255] } else { &[0, 0, 0, 0] };
            assert_eq!(&px[i..i + 4], want, "pixel ({x},{y})");
        }
    }
}

#[test]
fn draw_rect_clips_at_the_image_edge() {
    let (w, h) = (4usize, 4usize);
    let mut px = vec![0u8; w * h * 4];
    draw_rect(&mut px, w, h, 2, 2, 6, [5, 6, 7]);
    // Only the top-left part of the outline (columns/rows 2 and 3) lands inside.
    for y in 0..h {
        for x in 0..w {
            let i = (y * w + x) * 4;
            let on = x >= 2 && y >= 2;
            assert_eq!(px[i + 3], if on { 255 } else { 0 }, "pixel ({x},{y})");
        }
    }
    let mut none = vec![0u8; w * h * 4];
    draw_rect(&mut none, w, h, 0, 0, 0, [5, 6, 7]);
    assert!(none.iter().all(|&b| b == 0));
}

#[test]
fn fit_rgba_keeps_small_images() {
    let src: Vec<u8> = (0..(3 * 2 * 4)).map(|v| v as u8).collect();
    let (w, h, out) = fit_rgba(&src, 3, 2, 1000);
    assert_eq!((w, h), (3, 2));
    assert_eq!(out, src);
}

#[test]
fn fit_rgba_downscales_by_nearest_neighbour() {
    // 4×2 image, each pixel's bytes all equal to its index.
    let (w, h) = (4usize, 2usize);
    let mut src = vec![0u8; w * h * 4];
    for p in 0..w * h {
        for c in 0..4 {
            src[p * 4 + c] = p as u8;
        }
    }
    let (pw, ph, out) = fit_rgba(&src, w, h, 2);
    assert_eq!((pw, ph), (2, 1));
    // Preview (0,0) samples source (0,0); preview (1,0) samples source (2,0).
    assert_eq!(out, vec![0, 0, 0, 0, 2, 2, 2, 2]);
    // 2000×1000 → 1000×500.
    let big = vec![7u8; 2000 * 1000 * 4];
    let (pw, ph, out) = fit_rgba(&big, 2000, 1000, 1000);
    assert_eq!((pw, ph), (1000, 500));
    assert_eq!(out.len(), 1000 * 500 * 4);
    // 3000×1001 → 1000×334 (333.67 rounds up).
    let tall = vec![1u8; 3000 * 1001 * 4];
    let (pw, ph, _) = fit_rgba(&tall, 3000, 1001, 1000);
    assert_eq!((pw, ph), (1000, 334));
}

#[test]
fn zoom_window_pads_the_tile_and_clips_to_the_image() {
    // 96px tile at (1800, 1300) in a 2000×1500 image, 58px of padding.
    assert_eq!(zoom_window(1800, 1300, 96, 58, 2000, 1500), (1742, 1242, 212, 212));
    // Clipped at the right and bottom edges.
    assert_eq!(zoom_window(1900, 1420, 96, 58, 2000, 1500), (1842, 1362, 158, 138));
    // Clipped at the left and top edges.
    assert_eq!(zoom_window(10, 20, 48, 29, 800, 600), (0, 0, 87, 97));
    // A tile entirely off the image still gives a one-pixel view.
    assert_eq!(zoom_window(5000, 5000, 48, 29, 800, 600), (800, 600, 1, 1));
}

#[test]
fn crop_rgba_copies_the_block() {
    let (w, h) = (4usize, 3usize);
    let src: Vec<u8> = (0..(w * h * 4) as u32).map(|v| v as u8).collect();
    let c = crop_rgba(&src, w, 1, 1, 2, 2);
    assert_eq!(c.len(), 16);
    for y in 0..2 {
        for x in 0..2 {
            let si = ((1 + y) * w + 1 + x) * 4;
            let di = (y * 2 + x) * 4;
            assert_eq!(&c[di..di + 4], &src[si..si + 4]);
        }
    }
    assert_eq!(crop_rgba(&src, w, 0, 0, w, h), src);
    assert!(crop_rgba(&src, w, 2, 2, 0, 5).is_empty());
}

#[test]
fn zoom_window_contains_a_tile_inside_the_image() {
    for &(ox, oy, t, pad, w, h) in &[
        (1800i64, 1300i64, 96i64, 58i64, 2000usize, 1500usize),
        (0, 0, 48, 29, 800, 600),
        (752, 552, 48, 29, 800, 600),
        (100, 100, 96, 0, 196, 196),
    ] {
        let (x0, y0, cw, ch) = zoom_window(ox, oy, t, pad, w, h);
        assert!(0 <= x0 && x0 <= ox && 0 <= y0 && y0 <= oy);
        assert!(ox + t <= x0 + cw as i64 && x0 + cw as i64 <= w as i64);
        assert!(oy + t <= y0 + ch as i64 && y0 + ch as i64 <= h as i64);
    }
}
