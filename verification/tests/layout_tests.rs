use pdf2md::layout::{reading_order, region, LayoutBox, Region};
use pdf2md::paragraph::{best_box_for_line, build_paragraphs, line_text, TextLine};

fn body(class_id: i32, y: u32, x: u32) -> LayoutBox {
    LayoutBox {
        class_id,
        y_key: y,
        x_key: x,
        width_key: 100,
        near_page_bottom: false,
        full_width: false,
        zone_separator: false,
        left_of_middle: true,
        in_left_column: true,
        in_right_column: false,
        narrow: true,
    }
}

fn right(mut b: LayoutBox) -> LayoutBox {
    b.left_of_middle = false;
    b.in_left_column = false;
    b.in_right_column = true;
    b
}

fn no_gaps(n: usize) -> (Vec<Option<u32>>, Vec<Vec<bool>>) {
    let bottoms = (0..=n).map(|i| Some(i as u32)).collect();
    (bottoms, vec![vec![false; n + 1]; n])
}

#[test]
fn regions_follow_class_and_position() {
    assert_eq!(region(&body(5, 0, 0)), Region::Header);
    assert_eq!(region(&body(4, 0, 0)), Region::Footer);
    assert_eq!(region(&body(1, 0, 0)), Region::Footer);
    let mut low = body(9, 0, 0);
    low.near_page_bottom = true;
    assert_eq!(region(&low), Region::Footer);
    let mut low_title = body(10, 0, 0);
    low_title.near_page_bottom = true;
    assert_eq!(region(&low_title), Region::Body);
    assert_eq!(region(&body(9, 0, 0)), Region::Body);
}

#[test]
fn headers_first_footers_last_body_top_to_bottom() {
    let boxes = vec![body(5, 10, 0), body(9, 100, 50), body(4, 700, 0), body(9, 50, 50)];
    let (bottoms, gaps) = no_gaps(boxes.len());
    let (order_by_box, ordered) = reading_order(&boxes, &bottoms, &gaps);
    assert_eq!(ordered, vec![0, 3, 1, 2]);
    assert_eq!(order_by_box, vec![0, 2, 3, 1]);
}

#[test]
fn two_column_zone_reads_left_column_first() {
    let boxes = vec![
        body(9, 10, 10),
        right(body(9, 10, 300)),
        body(9, 20, 10),
        right(body(9, 20, 300)),
        body(9, 30, 10),
        right(body(9, 30, 300)),
    ];
    let (bottoms, gaps) = no_gaps(boxes.len());
    let (_, ordered) = reading_order(&boxes, &bottoms, &gaps);
    assert_eq!(ordered, vec![0, 2, 4, 1, 3, 5]);
}

#[test]
fn two_column_reading_does_not_depend_on_box_numbering() {
    let boxes = vec![
        right(body(9, 30, 300)),
        body(9, 30, 10),
        right(body(9, 20, 300)),
        body(9, 20, 10),
        right(body(9, 10, 300)),
        body(9, 10, 10),
    ];
    let (bottoms, gaps) = no_gaps(boxes.len());
    let (_, ordered) = reading_order(&boxes, &bottoms, &gaps);
    assert_eq!(ordered, vec![5, 3, 1, 4, 2, 0]);
}

#[test]
fn wide_median_keeps_a_zone_in_one_column() {
    let mut boxes = vec![
        body(9, 10, 10),
        right(body(9, 10, 300)),
        body(9, 20, 10),
        right(body(9, 20, 300)),
    ];
    for b in boxes.iter_mut() {
        b.narrow = false;
    }
    let (bottoms, gaps) = no_gaps(boxes.len());
    let (_, ordered) = reading_order(&boxes, &bottoms, &gaps);
    assert_eq!(ordered, vec![0, 1, 2, 3]);
}

#[test]
fn separator_and_gap_close_zones() {
    // Two columns above a full-width separator; below it, four boxes in two
    // columns that a vertical gap splits into two zones.
    let mut sep = body(9, 40, 0);
    sep.full_width = true;
    sep.zone_separator = true;
    let boxes = vec![
        body(9, 10, 10),
        right(body(9, 10, 300)),
        body(9, 20, 10),
        right(body(9, 20, 300)),
        sep,
        right(body(9, 100, 300)),
        body(9, 100, 10),
        body(9, 200, 10),
        right(body(9, 200, 300)),
    ];
    let n = boxes.len();
    let (bottoms, mut gaps) = no_gaps(n);
    let (_, ordered) = reading_order(&boxes, &bottoms, &gaps);
    assert_eq!(ordered, vec![0, 2, 1, 3, 4, 6, 7, 5, 8]);
    // Box 7 lies far below the zone bottom, which box 6 holds then.
    gaps[7][6] = true;
    let (order_by_box, ordered) = reading_order(&boxes, &bottoms, &gaps);
    assert_eq!(ordered, vec![0, 2, 1, 3, 4, 6, 5, 7, 8]);
    assert_eq!(order_by_box, vec![0, 2, 1, 3, 4, 6, 5, 7, 8]);
}

#[test]
fn best_box_is_the_first_smallest_containing_box() {
    assert_eq!(best_box_for_line(&[true, true, true], &[5, 3, 3]), Some(1));
    assert_eq!(best_box_for_line(&[false, true, false], &[1, 9, 0]), Some(1));
    assert_eq!(best_box_for_line(&[false, false], &[1, 2]), None);
    assert_eq!(best_box_for_line(&[], &[]), None);
}

#[test]
fn paragraphs_gather_lines_in_reading_order() {
    let boxes = vec![body(9, 100, 0), body(10, 10, 0), body(6, 50, 0)];
    let (bottoms, gaps) = no_gaps(boxes.len());
    let lines = vec![
        TextLine { text: "Title".to_string(), yx_key: 10, best_box: Some(1) },
        TextLine { text: "second".to_string(), yx_key: 120, best_box: Some(0) },
        TextLine { text: "first".to_string(), yx_key: 110, best_box: Some(0) },
        TextLine { text: "stray".to_string(), yx_key: 5, best_box: None },
    ];
    let paragraphs = build_paragraphs(&boxes, &bottoms, &gaps, &lines);
    let got: Vec<(usize, i32, usize, &str)> = paragraphs
        .iter()
        .map(|p| (p.box_index, p.class_id, p.order_index, p.text.as_str()))
        .collect();
    assert_eq!(got, vec![(1, 10, 0, "Title"), (2, 6, 1, ""), (0, 9, 2, "first second")]);
}

#[test]
fn line_text_keeps_present_characters_trimmed() {
    assert_eq!(line_text(&[Some(' '), Some('a'), None, Some('b'), Some(' ')]), Some("ab".to_string()));
    assert_eq!(line_text(&[None, Some(' '), Some('\t')]), None);
    assert_eq!(line_text(&[]), None);
}
