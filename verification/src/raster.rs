use vstd::prelude::*;

verus! {

/// Byte offset of pixel `(x, y)` in a packed RGB buffer of the given width.
pub open spec fn pixel_offset(width: int, x: int, y: int) -> int {
    (y * width + x) * 3
}

/// Reads the RGB triple of pixel `(x, y)` from a packed RGB buffer.
pub fn rgb_pixel(rgb: &[u8], width: u32, x: u32, y: u32) -> (px: [u8; 3])
    requires
        pixel_offset(width as int, x as int, y as int) + 2 < rgb@.len(),
        pixel_offset(width as int, x as int, y as int) <= u32::MAX,
    ensures
        px@ == rgb@.subrange(
            pixel_offset(width as int, x as int, y as int),
            pixel_offset(width as int, x as int, y as int) + 3,
        ),
{
    assert(0 <= y * width + x) by (nonlinear_arith);
    let idx = ((y * width + x) * 3) as usize;
    let px = [rgb[idx], rgb[idx + 1], rgb[idx + 2]];
    assert(px@ =~= rgb@.subrange(idx as int, idx + 3));
    px
}

/// The buffer `img` with the three bytes at `off` set to `color`, when the
/// whole pixel lies inside the buffer; otherwise `img` unchanged.
pub open spec fn with_pixel(img: Seq<u8>, off: int, color: [u8; 3]) -> Seq<u8> {
    if off + 2 < img.len() {
        img.update(off, color[0]).update(off + 1, color[1]).update(off + 2, color[2])
    } else {
        img
    }
}

/// Writes `color` into pixel `(x, y)` of a packed RGB buffer, ignoring
/// pixels whose bytes do not all lie inside the buffer.
pub fn put_pixel_rgb(img: &mut [u8], width: u32, x: u32, y: u32, color: [u8; 3])
    requires
        pixel_offset(width as int, x as int, y as int) <= u32::MAX,
    ensures
        final(img)@ == with_pixel(old(img)@, pixel_offset(width as int, x as int, y as int), color),
{
    assert(0 <= y * width + x) by (nonlinear_arith);
    let idx = ((y * width + x) * 3) as usize;
    if idx < img.len() && img.len() - idx > 2 {
        img[idx] = color[0];
        img[idx + 1] = color[1];
        img[idx + 2] = color[2];
    }
}

/// `v` clamped to the last valid coordinate below `limit` (0 when `limit` is 0).
pub open spec fn clamp_coord(v: int, limit: int) -> int {
    let last = if limit > 0 { limit - 1 } else { 0 };
    if v < last { v } else { last }
}

/// Whether pixel `(x, y)` lies on the outline that `draw_rect_rgb_bytes` draws
/// for the rectangle `(x1, y1)`–`(x2, y2)` on a `width` × `height` canvas:
/// the corners are first clamped to the canvas; the top and bottom edges are
/// drawn when the canvas has rows, the left and right edges when it has columns.
pub open spec fn on_outline(
    width: int,
    height: int,
    x1: int,
    y1: int,
    x2: int,
    y2: int,
    x: int,
    y: int,
) -> bool {
    let cx1 = clamp_coord(x1, width);
    let cy1 = clamp_coord(y1, height);
    let cx2 = clamp_coord(x2, width);
    let cy2 = clamp_coord(y2, height);
    ||| height > 0 && cx1 <= x <= cx2 && (y == cy1 || y == cy2)
    ||| width > 0 && cy1 <= y <= cy2 && (x == cx1 || x == cx2)
}

/// Whether byte `k` of a buffer of length `len` belongs to a pixel, lying wholly
/// inside the buffer, for which `painted` holds.
pub open spec fn byte_covered(painted: spec_fn(int, int) -> bool, width: int, len: int, k: int) -> bool {
    &&& k - k % 3 + 2 < len
    &&& exists|x: int, y: int| #[trigger] painted(x, y) && pixel_offset(width, x, y) == k - k % 3
}

/// The buffer `img` after every pixel for which `painted` holds is set to `color`.
pub open spec fn paint(img: Seq<u8>, painted: spec_fn(int, int) -> bool, width: int, color: [u8; 3]) -> Seq<u8> {
    Seq::new(
        img.len(),
        |k: int|
            if byte_covered(painted, width, img.len() as int, k) {
                color[k % 3]
            } else {
                img[k]
            },
    )
}

/// The pixels of the outline, as a predicate.
pub open spec fn outline(width: int, height: int, x1: int, y1: int, x2: int, y2: int) -> spec_fn(int, int) -> bool {
    |x: int, y: int| on_outline(width, height, x1, y1, x2, y2, x, y)
}

/// Every outline pixel has a byte offset that fits in `u32`.
pub open spec fn outline_offsets_fit(width: int, height: int, x1: int, y1: int, x2: int, y2: int) -> bool {
    forall|x: int, y: int|
        #[trigger] on_outline(width, height, x1, y1, x2, y2, x, y) ==> pixel_offset(width, x, y) <= u32::MAX
}

proof fn lemma_paint_step(
    img: Seq<u8>,
    before: spec_fn(int, int) -> bool,
    after: spec_fn(int, int) -> bool,
    width: int,
    x: int,
    y: int,
    color: [u8; 3],
)
    requires
        0 <= x,
        0 <= y,
        width >= 0,
        forall|a: int, b: int| #[trigger] after(a, b) <==> (before(a, b) || (a == x && b == y)),
    ensures
        with_pixel(paint(img, before, width, color), pixel_offset(width, x, y), color) =~= paint(
            img,
            after,
            width,
            color,
        ),
{
    let off = pixel_offset(width, x, y);
    assert(off % 3 == 0) by (nonlinear_arith)
        requires off == (y * width + x) * 3;
    assert(off >= 0) by (nonlinear_arith)
        requires off == (y * width + x) * 3, x >= 0, y >= 0, width >= 0;
    let lhs = with_pixel(paint(img, before, width, color), off, color);
    let rhs = paint(img, after, width, color);
    assert forall|k: int| 0 <= k < img.len() implies lhs[k] == rhs[k] by {
        if off + 2 < img.len() && off <= k < off + 3 {
            assert(k - k % 3 == off);
            assert(after(x, y));
            assert(byte_covered(after, width, img.len() as int, k));
        } else {
            if byte_covered(after, width, img.len() as int, k) {
                let (a, b) = choose|a: int, b: int| #[trigger] after(a, b) && pixel_offset(width, a, b) == k - k % 3;
                if a == x && b == y {
                    assert(false);
                } else {
                    assert(before(a, b));
                }
            }
            if byte_covered(before, width, img.len() as int, k) {
                let (a, b) = choose|a: int, b: int| #[trigger] before(a, b) && pixel_offset(width, a, b) == k - k % 3;
                assert(after(a, b));
            }
        }
    }
}

/// Draws the one-pixel outline of the rectangle `(x1, y1)`–`(x2, y2)` in
/// `color` on a packed RGB buffer of `width` × `height` pixels. The corners
/// are clamped to the canvas first; pixels whose bytes fall outside the buffer
/// are skipped.
pub fn draw_rect_rgb_bytes(
    img: &mut [u8],
    width: u32,
    height: u32,
    x1: u32,
    y1: u32,
    x2: u32,
    y2: u32,
    color: [u8; 3],
)
    requires
        outline_offsets_fit(width as int, height as int, x1 as int, y1 as int, x2 as int, y2 as int),
    ensures
        final(img)@ == paint(
            old(img)@,
            outline(width as int, height as int, x1 as int, y1 as int, x2 as int, y2 as int),
            width as int,
            color,
        ),
{
    let ghost w = width as int;
    let ghost h = height as int;
    let ghost full = outline(w, h, x1 as int, y1 as int, x2 as int, y2 as int);
    let ghost initial = img@;
    let cx1 = x1.min(width.saturating_sub(1));
    let cy1 = y1.min(height.saturating_sub(1));
    let cx2 = x2.min(width.saturating_sub(1));
    let cy2 = y2.min(height.saturating_sub(1));
    assert(cx1 as int == clamp_coord(x1 as int, w));
    assert(cy1 as int == clamp_coord(y1 as int, h));
    assert(cx2 as int == clamp_coord(x2 as int, w));
    assert(cy2 as int == clamp_coord(y2 as int, h));
    proof {
        assert(img@ =~= paint(initial, |a: int, b: int| false, w, color));
    }
    let mut x = cx1;
    while x <= cx2
        invariant
            cx1 <= x,
            x <= cx2 + 1 || x == cx1,
            cx2 < u32::MAX,
            cx1 as int == clamp_coord(x1 as int, w),
            cy1 as int == clamp_coord(y1 as int, h),
            cx2 as int == clamp_coord(x2 as int, w),
            cy2 as int == clamp_coord(y2 as int, h),
            outline_offsets_fit(w, h, x1 as int, y1 as int, x2 as int, y2 as int),
            w == width,
            h == height,
            img@.len() == initial.len(),
            img@ == paint(
                initial,
                |a: int, b: int| h > 0 && cx1 <= a < x && (b == cy1 || b == cy2),
                w,
                color,
            ),
        decreases cx2 + 1 - x,
    {
        let ghost before = |a: int, b: int| h > 0 && cx1 <= a < x && (b == cy1 || b == cy2);
        let ghost mid = |a: int, b: int| before(a, b) || (h > 0 && a == x && b == cy1);
        let ghost after = |a: int, b: int| h > 0 && cx1 <= a < x + 1 && (b == cy1 || b == cy2);
        if cy1 < height {
            assert(on_outline(w, h, x1 as int, y1 as int, x2 as int, y2 as int, x as int, cy1 as int));
            proof {
                lemma_paint_step(initial, before, mid, w, x as int, cy1 as int, color);
            }
            put_pixel_rgb(img, width, x, cy1, color);
        } else {
            assert(mid =~= before);
        }
        if cy2 < height {
            assert(on_outline(w, h, x1 as int, y1 as int, x2 as int, y2 as int, x as int, cy2 as int));
            proof {
                lemma_paint_step(initial, mid, after, w, x as int, cy2 as int, color);
            }
            put_pixel_rgb(img, width, x, cy2, color);
        } else {
            assert(after =~= mid);
        }
        x = x + 1;
    }
    let ghost top_bottom = |a: int, b: int| h > 0 && cx1 <= a <= cx2 && (b == cy1 || b == cy2);
    assert(img@ == paint(initial, top_bottom, w, color)) by {
        assert(top_bottom =~= (|a: int, b: int| h > 0 && cx1 <= a < x && (b == cy1 || b == cy2)));
    }
    let mut y = cy1;
    assert(top_bottom =~= (|a: int, b: int| top_bottom(a, b) || (w > 0 && cy1 <= b < y && (a == cx1 || a == cx2))));
    while y <= cy2
        invariant
            cy1 <= y,
            y <= cy2 + 1 || y == cy1,
            cy2 < u32::MAX,
            cx1 as int == clamp_coord(x1 as int, w),
            cy1 as int == clamp_coord(y1 as int, h),
            cx2 as int == clamp_coord(x2 as int, w),
            cy2 as int == clamp_coord(y2 as int, h),
            outline_offsets_fit(w, h, x1 as int, y1 as int, x2 as int, y2 as int),
            w == width,
            h == height,
            img@.len() == initial.len(),
            img@ == paint(
                initial,
                |a: int, b: int| top_bottom(a, b) || (w > 0 && cy1 <= b < y && (a == cx1 || a == cx2)),
                w,
                color,
            ),
        decreases cy2 + 1 - y,
    {
        let ghost before = |a: int, b: int| top_bottom(a, b) || (w > 0 && cy1 <= b < y && (a == cx1 || a == cx2));
        let ghost mid = |a: int, b: int| before(a, b) || (w > 0 && a == cx1 && b == y);
        let ghost after = |a: int, b: int| top_bottom(a, b) || (w > 0 && cy1 <= b < y + 1 && (a == cx1 || a == cx2));
        if cx1 < width {
            assert(on_outline(w, h, x1 as int, y1 as int, x2 as int, y2 as int, cx1 as int, y as int));
            proof {
                lemma_paint_step(initial, before, mid, w, cx1 as int, y as int, color);
            }
            put_pixel_rgb(img, width, cx1, y, color);
        } else {
            assert(mid =~= before);
        }
        if cx2 < width {
            assert(on_outline(w, h, x1 as int, y1 as int, x2 as int, y2 as int, cx2 as int, y as int));
            proof {
                lemma_paint_step(initial, mid, after, w, cx2 as int, y as int, color);
            }
            put_pixel_rgb(img, width, cx2, y, color);
        } else {
            assert(after =~= mid);
        }
        y = y + 1;
    }
    assert(full =~= (|a: int, b: int| top_bottom(a, b) || (w > 0 && cy1 <= b < y && (a == cx1 || a == cx2))));
}

/// The outline colour of each detection class, for the eleven layout
/// classes; class ids below the range use the first colour and ids above it
/// the last.
pub open spec fn class_color(class_id: i32) -> [u8; 3] {
    let c = if class_id < 0 { 0 } else if class_id > 10 { 10 } else { class_id };
    if c == 0 {
        [255, 0, 0]
    } else if c == 1 {
        [0, 255, 0]
    } else if c == 2 {
        [0, 0, 255]
    } else if c == 3 {
        [255, 255, 0]
    } else if c == 4 {
        [255, 0, 255]
    } else if c == 5 {
        [0, 255, 255]
    } else if c == 6 {
        [128, 0, 128]
    } else if c == 7 {
        [0, 128, 255]
    } else if c == 8 {
        [128, 128, 0]
    } else if c == 9 {
        [0, 128, 128]
    } else {
        [128, 0, 0]
    }
}

/// The class colours tell the classes apart: the eleven layout classes get
/// eleven different colours, none of them black; ids below the range are
/// drawn like the first class and ids above it like the last.
pub proof fn lemma_class_colors_distinct(a: i32, b: i32)
    ensures
        0 <= a <= 10 && 0 <= b <= 10 && a != b ==> class_color(a) != class_color(b),
        class_color(a) != [0u8, 0, 0],
        a < 0 ==> class_color(a) == class_color(0),
        a > 10 ==> class_color(a) == class_color(10),
{
}

/// The outline colour for a detection of class `class_id`.
pub fn detection_color(class_id: i32) -> (color: [u8; 3])
    ensures
        color == class_color(class_id),
{
    let c = if class_id < 0 {
        0
    } else if class_id > 10 {
        10
    } else {
        class_id
    };
    if c == 0 {
        [255, 0, 0]
    } else if c == 1 {
        [0, 255, 0]
    } else if c == 2 {
        [0, 0, 255]
    } else if c == 3 {
        [255, 255, 0]
    } else if c == 4 {
        [255, 0, 255]
    } else if c == 5 {
        [0, 255, 255]
    } else if c == 6 {
        [128, 0, 128]
    } else if c == 7 {
        [0, 128, 255]
    } else if c == 8 {
        [128, 128, 0]
    } else if c == 9 {
        [0, 128, 128]
    } else {
        [128, 0, 0]
    }
}

proof fn lemma_offset_monotone(w: int, x: int, y: int, xm: int, ym: int)
    requires
        w > 0,
        0 <= x < w,
        0 <= xm < w,
        0 <= y <= ym,
        y == ym ==> x <= xm,
    ensures
        pixel_offset(w, x, y) <= pixel_offset(w, xm, ym),
{
    if y < ym {
        assert(y * w + x < ym * w) by (nonlinear_arith)
            requires 0 <= y < ym, 0 <= x < w, w > 0;
        assert(ym * w <= ym * w + xm);
    }
}

/// Whether every pixel of the outline of `(x1, y1)`–`(x2, y2)` on a
/// `width` × `height` canvas has a byte offset that fits in `u32`, which
/// `draw_rect_rgb_bytes` needs.
pub fn outline_fits(width: u32, height: u32, x1: u32, y1: u32, x2: u32, y2: u32) -> (fits: bool)
    ensures
        fits == outline_offsets_fit(width as int, height as int, x1 as int, y1 as int, x2 as int, y2 as int),
{
    let ghost w = width as int;
    let ghost h = height as int;
    if width == 0 {
        assert forall|x: int, y: int| #[trigger] on_outline(w, h, x1 as int, y1 as int, x2 as int, y2 as int, x, y)
            implies pixel_offset(w, x, y) <= u32::MAX by {
            assert(y * 0 == 0) by (nonlinear_arith);
        }
        return true;
    }
    let cx1 = x1.min(width - 1);
    let cy1 = y1.min(height.saturating_sub(1));
    let cx2 = x2.min(width - 1);
    let cy2 = y2.min(height.saturating_sub(1));
    let top_y = if cy1 > cy2 { cy1 } else { cy2 };
    let side_x = if cx1 > cx2 { cx1 } else { cx2 };
    let limit = u32::MAX as u128;
    assert((top_y as int) * (width as int) <= 0xffff_ffff * 0xffff_ffff) by (nonlinear_arith)
        requires top_y <= 0xffff_ffffu32, width <= 0xffff_ffffu32;
    assert((cy2 as int) * (width as int) <= 0xffff_ffff * 0xffff_ffff) by (nonlinear_arith)
        requires cy2 <= 0xffff_ffffu32, width <= 0xffff_ffffu32;
    let rows_fit = height == 0 || cx1 > cx2 || ((top_y as u128) * (width as u128) + (cx2 as u128)) * 3 <= limit;
    let sides_fit = cy1 > cy2 || ((cy2 as u128) * (width as u128) + (side_x as u128)) * 3 <= limit;
    proof {
        if rows_fit && sides_fit {
            assert forall|x: int, y: int| #[trigger] on_outline(w, h, x1 as int, y1 as int, x2 as int, y2 as int, x, y)
                implies pixel_offset(w, x, y) <= u32::MAX by {
                if h > 0 && cx1 <= x <= cx2 && (y == cy1 || y == cy2) {
                    lemma_offset_monotone(w, x, y, cx2 as int, top_y as int);
                } else {
                    lemma_offset_monotone(w, x, y, side_x as int, cy2 as int);
                }
            }
        } else if !rows_fit {
            assert(on_outline(w, h, x1 as int, y1 as int, x2 as int, y2 as int, cx2 as int, top_y as int));
        } else {
            assert(on_outline(w, h, x1 as int, y1 as int, x2 as int, y2 as int, side_x as int, cy2 as int));
        }
    }
    rows_fit && sides_fit
}

/// The height of a canvas of `len / 3` pixels whose width is `side`: the
/// pixel count, cut to 32 bits, divided by `side` (0 when `side` is 0).
pub open spec fn canvas_height(len: int, side: int) -> int {
    if side > 0 {
        ((len / 3) % 0x1_0000_0000) / side
    } else {
        0
    }
}

/// The height of a canvas held in a buffer of `len` bytes whose width is
/// taken to be `side` pixels.
pub fn canvas_height_for(len: usize, side: u32) -> (height: u32)
    ensures
        height == canvas_height(len as int, side as int),
{
    let pixels = len / 3;
    if side > 0 {
        let count = ((pixels as u64) % 0x1_0000_0000) as u32;
        count / side
    } else {
        0
    }
}

/// Draws the outline of `(x1, y1)`–`(x2, y2)` in `color` on a packed RGB
/// buffer whose canvas is taken to be `side` pixels wide (the caller passes
/// the square root of the pixel count) and as many rows high as the pixels
/// fill.
pub fn draw_rect(img: &mut [u8], side: u32, x1: u32, y1: u32, x2: u32, y2: u32, color: [u8; 3])
    requires
        outline_offsets_fit(
            side as int,
            canvas_height(old(img)@.len() as int, side as int),
            x1 as int,
            y1 as int,
            x2 as int,
            y2 as int,
        ),
    ensures
        final(img)@ == paint(
            old(img)@,
            outline(side as int, canvas_height(old(img)@.len() as int, side as int), x1 as int, y1 as int, x2 as int, y2 as int),
            side as int,
            color,
        ),
{
    let h = canvas_height_for(img.len(), side);
    draw_rect_rgb_bytes(img, side, h, x1, y1, x2, y2, color);
}

/// A detection box in whole pixels, with its class.
#[derive(Clone, Copy, Debug, PartialEq, Eq, Structural)]
pub struct PixelBox {
    pub x1: u32,
    pub y1: u32,
    pub x2: u32,
    pub y2: u32,
    pub class_id: i32,
}

/// The outline of `b` on a `width` × `height` canvas.
pub open spec fn box_outline(width: int, height: int, b: PixelBox) -> spec_fn(int, int) -> bool {
    outline(width, height, b.x1 as int, b.y1 as int, b.x2 as int, b.y2 as int)
}

/// The buffer after the outlines of `boxes` are drawn one after another,
/// each in the colour of its class.
pub open spec fn boxes_drawn(img: Seq<u8>, width: int, height: int, boxes: Seq<PixelBox>) -> Seq<u8>
    decreases boxes.len(),
{
    if boxes.len() == 0 {
        img
    } else {
        let b = boxes.last();
        paint(
            boxes_drawn(img, width, height, boxes.drop_last()),
            box_outline(width, height, b),
            width,
            class_color(b.class_id),
        )
    }
}

/// Every box's outline has byte offsets that fit in `u32`.
pub open spec fn boxes_fit(width: int, height: int, boxes: Seq<PixelBox>) -> bool {
    forall|i: int|
        0 <= i < boxes.len() ==> outline_offsets_fit(
            width,
            height,
            (#[trigger] boxes[i]).x1 as int,
            boxes[i].y1 as int,
            boxes[i].x2 as int,
            boxes[i].y2 as int,
        )
}

/// Whether every box's outline has byte offsets that fit in `u32`, which
/// `draw_boxes_rgb_bytes` needs.
pub fn all_outlines_fit(width: u32, height: u32, boxes: &[PixelBox]) -> (fits: bool)
    ensures
        fits == boxes_fit(width as int, height as int, boxes@),
{
    let mut i: usize = 0;
    while i < boxes.len()
        invariant
            i <= boxes@.len(),
            boxes_fit(width as int, height as int, boxes@.take(i as int)),
        decreases boxes@.len() - i,
    {
        let b = boxes[i];
        if !outline_fits(width, height, b.x1, b.y1, b.x2, b.y2) {
            assert(!boxes_fit(width as int, height as int, boxes@)) by {
                assert(boxes@[i as int] == b);
            }
            return false;
        }
        proof {
            assert forall|j: int| 0 <= j < i + 1 implies outline_offsets_fit(
                width as int,
                height as int,
                (#[trigger] boxes@.take(i + 1)[j]).x1 as int,
                boxes@.take(i + 1)[j].y1 as int,
                boxes@.take(i + 1)[j].x2 as int,
                boxes@.take(i + 1)[j].y2 as int,
            ) by {
                if j < i {
                    assert(boxes@.take(i + 1)[j] == boxes@.take(i as int)[j]);
                }
            }
        }
        i = i + 1;
    }
    assert(boxes@.take(i as int) =~= boxes@);
    true
}

/// Drawing the boxes of `a` and then those of `b` gives the same buffer as
/// drawing all of `a + b` at once.
pub proof fn lemma_boxes_drawn_in_sequence(img: Seq<u8>, width: int, height: int, a: Seq<PixelBox>, b: Seq<PixelBox>)
    ensures
        boxes_drawn(boxes_drawn(img, width, height, a), width, height, b) == boxes_drawn(img, width, height, a + b),
    decreases b.len(),
{
    if b.len() > 0 {
        lemma_boxes_drawn_in_sequence(img, width, height, a, b.drop_last());
        assert((a + b).drop_last() =~= a + b.drop_last());
        assert((a + b).last() == b.last());
    } else {
        assert(a + b =~= a);
    }
}

/// Drawing a single box paints its outline in the colour of its class, as
/// one call of `draw_rect_rgb_bytes` does.
pub proof fn lemma_boxes_drawn_single(img: Seq<u8>, width: int, height: int, b: PixelBox)
    ensures
        boxes_drawn(img, width, height, seq![b]) == paint(img, box_outline(width, height, b), width, class_color(b.class_id)),
{
    assert(seq![b].drop_last() =~= Seq::<PixelBox>::empty());
    assert(boxes_drawn(img, width, height, Seq::<PixelBox>::empty()) == img);
    assert(seq![b].last() == b);
}

/// Draws the outline of every box, in order, on a packed RGB buffer of
/// `width` × `height` pixels, each in the colour of its class.
pub fn draw_boxes_rgb_bytes(image: &mut [u8], width: u32, height: u32, boxes: &[PixelBox])
    requires
        boxes_fit(width as int, height as int, boxes@),
    ensures
        final(image)@ == boxes_drawn(old(image)@, width as int, height as int, boxes@),
{
    let ghost initial = image@;
    let mut i: usize = 0;
    while i < boxes.len()
        invariant
            i <= boxes@.len(),
            boxes_fit(width as int, height as int, boxes@),
            image@ == boxes_drawn(initial, width as int, height as int, boxes@.take(i as int)),
        decreases boxes@.len() - i,
    {
        let b = boxes[i];
        let color = detection_color(b.class_id);
        assert(outline_offsets_fit(width as int, height as int, boxes@[i as int].x1 as int, boxes@[i as int].y1 as int, boxes@[i as int].x2 as int, boxes@[i as int].y2 as int));
        draw_rect_rgb_bytes(image, width, height, b.x1, b.y1, b.x2, b.y2, color);
        proof {
            assert(boxes@.take(i + 1).drop_last() =~= boxes@.take(i as int));
        }
        i = i + 1;
    }
    assert(boxes@.take(i as int) =~= boxes@);
}

/// Draws the outline of every box, in order, each in the colour of its
/// class, on a packed RGB buffer whose canvas is taken to be `side` pixels
/// wide (the caller passes the square root of the pixel count), as
/// `draw_rect` does for one box.
pub fn draw_boxes_square(image: &mut [u8], side: u32, boxes: &[PixelBox])
    requires
        boxes_fit(side as int, canvas_height(old(image)@.len() as int, side as int), boxes@),
    ensures
        final(image)@ == boxes_drawn(old(image)@, side as int, canvas_height(old(image)@.len() as int, side as int), boxes@),
{
    let ghost initial = image@;
    let ghost h = canvas_height(initial.len() as int, side as int);
    let mut i: usize = 0;
    while i < boxes.len()
        invariant
            i <= boxes@.len(),
            image@.len() == initial.len(),
            h == canvas_height(initial.len() as int, side as int),
            boxes_fit(side as int, h, boxes@),
            image@ == boxes_drawn(initial, side as int, h, boxes@.take(i as int)),
        decreases boxes@.len() - i,
    {
        let b = boxes[i];
        let color = detection_color(b.class_id);
        assert(outline_offsets_fit(side as int, h, boxes@[i as int].x1 as int, boxes@[i as int].y1 as int, boxes@[i as int].x2 as int, boxes@[i as int].y2 as int));
        draw_rect(image, side, b.x1, b.y1, b.x2, b.y2, color);
        proof {
            assert(boxes@.take(i + 1).drop_last() =~= boxes@.take(i as int));
            lemma_paint_len(boxes_drawn(initial, side as int, h, boxes@.take(i as int)), box_outline(side as int, h, b), side as int, color);
        }
        i = i + 1;
    }
    assert(boxes@.take(i as int) =~= boxes@);
}

proof fn lemma_paint_len(img: Seq<u8>, painted: spec_fn(int, int) -> bool, width: int, color: [u8; 3])
    ensures
        paint(img, painted, width, color).len() == img.len(),
{
}

/// On a square canvas the two ways of drawing agree: for a buffer of
/// `3 * side * side` bytes, drawing the boxes with `draw_boxes_square` gives
/// what `draw_boxes_rgb_bytes` gives on a `side` × `side` canvas (while the
/// pixel count fits in 32 bits).
pub proof fn lemma_square_canvas_drawing(img: Seq<u8>, side: int, boxes: Seq<PixelBox>)
    requires
        img.len() == 3 * side * side,
        0 <= side,
        side * side < 0x1_0000_0000,
    ensures
        canvas_height(img.len() as int, side) == side,
        boxes_drawn(img, side, canvas_height(img.len() as int, side), boxes) == boxes_drawn(img, side, side, boxes),
{
    let len = img.len() as int;
    if side > 0 {
        let sq = side * side;
        assert(len == 3 * sq) by (nonlinear_arith)
            requires len == 3 * side * side, sq == side * side;
        assert(len / 3 == sq);
        assert((side * side) % 0x1_0000_0000 == side * side);
        assert((side * side) / side == side) by (nonlinear_arith)
            requires side > 0;
    }
}

} // verus!
