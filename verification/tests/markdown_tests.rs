use pdf2md::markdown::{
    block_kind, box_image_file_name, page_image_file_name, relative_path, write_footer_block,
    write_image_link, write_paragraph, write_quote_block, write_text_block, Block,
};

#[test]
fn text_block_trims_and_prefixes() {
    let mut out = String::from("x");
    write_text_block(&mut out, "#", "  Title here \n");
    assert_eq!(out, "x\n# Title here\n\n");
    let mut out = String::new();
    write_text_block(&mut out, "", "body");
    assert_eq!(out, "\nbody\n\n");
}

#[test]
fn blank_blocks_write_nothing() {
    let mut out = String::from("keep");
    write_text_block(&mut out, "##", " \t\n ");
    write_quote_block(&mut out, "Footnote", "");
    write_footer_block(&mut out, "   ");
    assert_eq!(out, "keep");
}

#[test]
fn quote_block_continues_the_quote_on_every_line() {
    let mut out = String::new();
    write_quote_block(&mut out, "Footnote", " one\ntwo ");
    assert_eq!(out, "\n> **Footnote:** one\n> two\n\n");
}

#[test]
fn footer_block_sits_between_rules() {
    let mut out = String::new();
    write_footer_block(&mut out, " Page 3 ");
    assert_eq!(out, "\n---\nPage 3\n\n---\n\n");
}

#[test]
fn block_kinds_follow_the_classes() {
    assert_eq!(block_kind(10), Block::Title);
    assert_eq!(block_kind(7), Block::SectionHeader);
    assert_eq!(block_kind(9), Block::Text);
    assert_eq!(block_kind(3), Block::Text);
    assert_eq!(block_kind(0), Block::Text);
    assert_eq!(block_kind(1), Block::Footnote);
    assert_eq!(block_kind(4), Block::PageFooter);
    for c in [2, 5, 6, 8, 11, -1] {
        assert_eq!(block_kind(c), Block::Image);
    }
}

#[test]
fn paragraphs_render_by_class() {
    let mut out = String::new();
    write_paragraph(&mut out, 10, "Doc", 1, 0, "");
    write_paragraph(&mut out, 7, "Intro", 1, 1, "");
    write_paragraph(&mut out, 9, "Text.", 1, 2, "");
    write_paragraph(&mut out, 1, "Note", 1, 3, "");
    write_paragraph(&mut out, 4, "Foot", 1, 4, "");
    write_paragraph(&mut out, 6, "ignored", 12, 5, "a/b.png");
    assert_eq!(
        out,
        "\n# Doc\n\n\n## Intro\n\n\nText.\n\n\n> **Footnote:** Note\n\n\n---\nFoot\n\n---\n\n\n![page 12 box 5](a/b.png)\n\n"
    );
}

#[test]
fn image_link_prints_numbers_in_decimal() {
    let mut out = String::new();
    write_image_link(&mut out, 1024, 0, "x.png");
    assert_eq!(out, "\n![page 1024 box 0](x.png)\n\n");
}

#[test]
fn relative_path_strips_the_base_directory() {
    assert_eq!(relative_path("out/assets/p.png", "out"), "assets/p.png");
    assert_eq!(relative_path("other/p.png", "out"), "other/p.png");
    assert_eq!(relative_path("outside/p.png", "out"), "outside/p.png");
    assert_eq!(relative_path("p.png", ""), "p.png");
}

#[test]
fn asset_names_are_zero_padded() {
    assert_eq!(box_image_file_name(3, 12, 6), "page_0003_order_0012_class_6.png");
    assert_eq!(box_image_file_name(12345, 0, -2), "page_12345_order_0000_class_-2.png");
    assert_eq!(box_image_file_name(1, 1, i32::MIN), "page_0001_order_0001_class_-2147483648.png");
    assert_eq!(page_image_file_name(7), "page_0007_detect_input.png");
}

#[test]
fn trimming_removes_unicode_white_space_only() {
    // No-break space, em space and ideographic space are White_Space; the
    // zero-width space (U+200B) is not.
    let mut out = String::new();
    write_text_block(&mut out, "", "\u{a0}\u{2003}Wide\u{3000}\u{85}");
    assert_eq!(out, "\nWide\n\n");
    let mut out = String::new();
    write_text_block(&mut out, "", "\u{200b}x\u{200b}");
    assert_eq!(out, "\n\u{200b}x\u{200b}\n\n");
    let mut out = String::new();
    write_footer_block(&mut out, "\u{1680}\u{2028}\u{2029}\u{202f}\u{205f}");
    assert_eq!(out, "");
}
