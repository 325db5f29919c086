use pdf2md::raster::{
    all_outlines_fit, canvas_height_for, detection_color, draw_boxes_rgb_bytes, draw_boxes_square, draw_rect,
    draw_rect_rgb_bytes, outline_fits, put_pixel_rgb, rgb_pixel, PixelBox,
};

fn pixel(img: &[u8], width: u32, x: u32, y: u32) -> [u8; 3] {
    let i = ((y * width + x) * 3) as usize;
    [img[i], img[i + 1], img[i + 2]]
}

#[test]
fn rgb_pixel_reads_the_three_channels() {
    let img: Vec<u8> = (0u8..18).collect();
    assert_eq!(rgb_pixel(&img, 3, 0, 0), [0, 1, 2]);
    assert_eq!(rgb_pixel(&img, 3, 2, 0), [6, 7, 8]);
    assert_eq!(rgb_pixel(&img, 3, 1, 1), [12, 13, 14]);
}

#[test]
fn put_pixel_writes_inside_and_skips_outside() {
    let mut img = vec![0u8; 12];
    put_pixel_rgb(&mut img, 2, 1, 1, [9, 8, 7]);
    assert_eq!(img, vec![0, 0, 0, 0, 0, 0, 0, 0, 0, 9, 8, 7]);
    put_pixel_rgb(&mut img, 2, 0, 2, [1, 1, 1]);
    assert_eq!(img, vec![0, 0, 0, 0, 0, 0, 0, 0, 0, 9, 8, 7]);
    let mut short = vec![0u8; 5];
    put_pixel_rgb(&mut short, 2, 1, 0, [4, 4, 4]);
    assert_eq!(short, vec![0u8; 5]);
}

#[test]
fn draw_rect_draws_only_the_outline() {
    let (w, h) = (5u32, 4u32);
    let mut img = vec![0u8; (w * h * 3) as usize];
    draw_rect_rgb_bytes(&mut img, w, h, 1, 0, 3, 3, [255, 0, 0]);
    for y in 0..h {
        for x in 0..w {
            let on = (1..=3).contains(&x) && (y == 0 || y == 3) || (x == 1 || x == 3);
            let expected = if on { [255, 0, 0] } else { [0, 0, 0] };
            assert_eq!(pixel(&img, w, x, y), expected, "pixel {x},{y}");
        }
    }
}

#[test]
fn draw_rect_clamps_corners_to_the_canvas() {
    let (w, h) = (3u32, 3u32);
    let mut img = vec![0u8; 27];
    draw_rect_rgb_bytes(&mut img, w, h, 1, 1, 100, 100, [1, 2, 3]);
    for y in 0..h {
        for x in 0..w {
            let on = x >= 1 && y >= 1;
            let expected = if on { [1, 2, 3] } else { [0, 0, 0] };
            assert_eq!(pixel(&img, w, x, y), expected);
        }
    }
}

#[test]
fn draw_rect_on_zero_width_canvas_paints_first_pixel() {
    let mut img = vec![0u8; 6];
    draw_rect_rgb_bytes(&mut img, 0, 2, 5, 5, 9, 9, [7, 7, 7]);
    assert_eq!(img, vec![7, 7, 7, 0, 0, 0]);
    let mut img = vec![0u8; 6];
    draw_rect_rgb_bytes(&mut img, 0, 0, 5, 5, 9, 9, [7, 7, 7]);
    assert_eq!(img, vec![0u8; 6]);
}

#[test]
fn draw_rect_with_reversed_corners_draws_sides_only() {
    let (w, h) = (4u32, 3u32);
    let mut img = vec![0u8; 36];
    draw_rect_rgb_bytes(&mut img, w, h, 3, 0, 1, 2, [5, 5, 5]);
    // The rows run from x = 3 to x = 1 and so draw nothing; the sides are
    // drawn at x = 3 and x = 1 for every row from 0 to 2.
    for y in 0..h {
        for x in 0..w {
            let expected = if x == 1 || x == 3 { [5, 5, 5] } else { [0, 0, 0] };
            assert_eq!(pixel(&img, w, x, y), expected);
        }
    }
}

#[test]
fn detection_color_clamps_the_class() {
    assert_eq!(detection_color(-3), [255, 0, 0]);
    assert_eq!(detection_color(0), [255, 0, 0]);
    assert_eq!(detection_color(7), [0, 128, 255]);
    assert_eq!(detection_color(10), [128, 0, 0]);
    assert_eq!(detection_color(42), [128, 0, 0]);
}

#[test]
fn draw_boxes_draws_in_order_with_class_colors() {
    let (w, h) = (3u32, 3u32);
    let mut img = vec![0u8; 27];
    let boxes = [
        PixelBox { x1: 0, y1: 0, x2: 2, y2: 2, class_id: 1 },
        PixelBox { x1: 0, y1: 0, x2: 0, y2: 0, class_id: 2 },
    ];
    assert!(all_outlines_fit(w, h, &boxes));
    draw_boxes_rgb_bytes(&mut img, w, h, &boxes);
    assert_eq!(pixel(&img, w, 0, 0), [0, 0, 255]);
    assert_eq!(pixel(&img, w, 1, 0), [0, 255, 0]);
    assert_eq!(pixel(&img, w, 1, 1), [0, 0, 0]);
    assert_eq!(pixel(&img, w, 2, 2), [0, 255, 0]);
}

#[test]
fn outline_fits_rejects_offsets_beyond_u32() {
    assert!(outline_fits(10, 10, 0, 0, 9, 9));
    assert!(outline_fits(0, 5, 0, 0, 100, 100));
    assert!(!outline_fits(100_000, 100_000, 0, 0, 99_999, 99_999));
    assert!(outline_fits(100_000, 100_000, 0, 0, 10, 10));
    assert!(!all_outlines_fit(
        100_000,
        100_000,
        &[PixelBox { x1: 0, y1: 0, x2: 99_999, y2: 99_999, class_id: 0 }]
    ));
}

#[test]
fn draw_rect_on_square_canvas() {
    // 9 pixels: a 3 × 3 canvas.
    let mut img = vec![0u8; 27];
    assert_eq!(canvas_height_for(img.len(), 3), 3);
    draw_rect(&mut img, 3, 0, 0, 2, 2, [4, 5, 6]);
    for y in 0..3 {
        for x in 0..3 {
            let expected = if x == 1 && y == 1 { [0, 0, 0] } else { [4, 5, 6] };
            assert_eq!(pixel(&img, 3, x, y), expected);
        }
    }
    // 10 pixels on a side of 3: three rows, the tenth pixel is never drawn.
    let mut img = vec![0u8; 30];
    assert_eq!(canvas_height_for(img.len(), 3), 3);
    draw_rect(&mut img, 3, 0, 0, 9, 9, [1, 1, 1]);
    assert_eq!(&img[27..30], &[0, 0, 0]);
    assert_eq!(canvas_height_for(30, 0), 0);
}

#[test]
fn square_canvas_drawing_matches_sized_drawing() {
    let boxes = [
        PixelBox { x1: 0, y1: 1, x2: 3, y2: 2, class_id: 8 },
        PixelBox { x1: 2, y1: 0, x2: 9, y2: 9, class_id: 3 },
    ];
    let mut a: Vec<u8> = (0..48).map(|i| i as u8).collect();
    let mut b = a.clone();
    draw_boxes_square(&mut a, 4, &boxes);
    draw_boxes_rgb_bytes(&mut b, 4, 4, &boxes);
    assert_eq!(a, b);
    assert_ne!(a, (0..48).map(|i| i as u8).collect::<Vec<u8>>());
}

#[test]
fn drawing_in_two_calls_matches_one_call() {
    let (w, h) = (6u32, 5u32);
    let a = PixelBox { x1: 0, y1: 0, x2: 3, y2: 3, class_id: 2 };
    let b = PixelBox { x1: 2, y1: 1, x2: 5, y2: 4, class_id: 7 };
    let mut once = vec![0u8; (w * h * 3) as usize];
    draw_boxes_rgb_bytes(&mut once, w, h, &[a, b]);
    let mut twice = vec![0u8; (w * h * 3) as usize];
    draw_boxes_rgb_bytes(&mut twice, w, h, &[a]);
    draw_boxes_rgb_bytes(&mut twice, w, h, &[b]);
    assert_eq!(once, twice);
    let mut single = vec![0u8; (w * h * 3) as usize];
    draw_rect_rgb_bytes(&mut single, w, h, b.x1, b.y1, b.x2, b.y2, detection_color(b.class_id));
    let mut boxed = vec![0u8; (w * h * 3) as usize];
    draw_boxes_rgb_bytes(&mut boxed, w, h, &[b]);
    assert_eq!(single, boxed);
}
