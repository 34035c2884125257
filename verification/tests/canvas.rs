use vtui::canvas::{has_control, Blit, Canvas, Glyph, TextSpan};
use vtui::node::{ArenaNode, Descriptor, Identity, NodeAttributes};
use vtui::rect::LogicalRect;

fn canvas(rect: LogicalRect, clipped: bool, offset: (i32, i32), bounds: LogicalRect) -> Canvas {
    let attributes = NodeAttributes { clipped, offset, ..NodeAttributes::default() };
    let mut node =
        ArenaNode::build(Descriptor::from_parts(Identity::at(0), Vec::new(), attributes));
    node.rect = rect;
    Canvas::new(&node, bounds)
}

fn glyph(index: usize, column: i32, width: u32) -> Glyph {
    Glyph { index, column, width }
}

const SCREEN: LogicalRect = LogicalRect { x: 0, y: 0, width: 20, height: 10 };

#[test]
fn canvas_speaks_of_its_node() {
    let c = canvas(LogicalRect::new(3, 4, 5, 6), true, (1, 2), SCREEN);
    assert_eq!(c.rect(), LogicalRect::new(3, 4, 5, 6));
    assert_eq!(c.area(), LogicalRect::new(0, 0, 5, 6));
    assert!(c.clipped());
    assert_eq!(c.get_buf_column(0), 2);
    assert_eq!(c.get_buf_column(7), 9);
    assert_eq!(c.get_buf_row(0), 2);
    assert_eq!(c.get_buf_row(-4), -2);
    assert!(c.is_visible(3, 4));
    assert!(c.is_visible(7, 9));
    assert!(!c.is_visible(8, 9));
    assert!(!c.is_visible(7, 10));
    assert!(!c.is_visible(2, 4));
}

#[test]
fn control_codes_are_found() {
    assert!(has_control("a\tb"));
    assert!(has_control("\u{7f}"));
    assert!(has_control("x\u{9f}"));
    assert!(!has_control("plain text, and \u{a0} too"));
    assert!(!has_control(""));
    let mut c = '\0';
    loop {
        assert_eq!(has_control(&c.to_string()), c.is_control());
        if c == char::MAX {
            break;
        }
        c = match char::from_u32(c as u32 + 1) {
            Some(next) => next,
            None => '\u{e000}',
        };
    }
}

#[test]
fn text_span_is_the_visible_part_of_the_line() {
    let c = canvas(LogicalRect::new(5, 2, 10, 3), false, (0, 0), SCREEN);
    assert_eq!(c.text_span(0, 0, usize::MAX), Some(TextSpan { row: 2, start: 5, skip: 0, room: 15 }));
    assert_eq!(c.text_span(-8, 1, usize::MAX), Some(TextSpan { row: 3, start: 0, skip: 3, room: 20 }));
    assert_eq!(c.text_span(0, 0, 4), Some(TextSpan { row: 2, start: 5, skip: 0, room: 4 }));
    assert_eq!(c.text_span(15, 0, usize::MAX), None);
    assert_eq!(c.text_span(0, 8, usize::MAX), None);
    assert_eq!(c.text_span(0, -3, usize::MAX), None);
    // A clipped canvas writes within the region of its node.
    let c = canvas(LogicalRect::new(5, 2, 10, 3), true, (0, 0), SCREEN);
    assert_eq!(c.text_span(0, 0, usize::MAX), Some(TextSpan { row: 2, start: 5, skip: 0, room: 10 }));
    assert_eq!(c.text_span(-8, 1, usize::MAX), Some(TextSpan { row: 3, start: 5, skip: 8, room: 10 }));
    assert_eq!(c.text_span(0, 3, usize::MAX), None);
    assert_eq!(c.text_span(10, 0, usize::MAX), None);
    // The offset scrolls the content.
    let c = canvas(LogicalRect::new(5, 2, 10, 3), true, (2, 1), SCREEN);
    assert_eq!(c.text_span(0, 1, usize::MAX), Some(TextSpan { row: 2, start: 5, skip: 2, room: 10 }));
}

#[test]
fn text_is_drawn_cluster_by_cluster() {
    let c = canvas(LogicalRect::new(5, 2, 10, 3), true, (0, 0), SCREEN);
    let (row, glyphs) = c.text(1, 1, "abc").unwrap();
    assert_eq!(row, 3);
    assert_eq!(glyphs, vec![glyph(0, 6, 1), glyph(1, 7, 1), glyph(2, 8, 1)]);
    // Wide clusters take two columns; a mark joins the letter before it.
    let (_, glyphs) = c.text(0, 0, "日e\u{301}本").unwrap();
    assert_eq!(glyphs, vec![glyph(0, 5, 2), glyph(1, 7, 1), glyph(2, 8, 2)]);
    // Clusters with control codes and clusters without width are left out.
    let (_, glyphs) = c.text(0, 0, "a\tb\u{200b}c\r\nd").unwrap();
    assert_eq!(glyphs, vec![glyph(0, 5, 1), glyph(2, 6, 1), glyph(4, 7, 1), glyph(6, 8, 1)]);
    assert_eq!(c.text(0, 5, "abc"), None);
    assert_eq!(c.text(0, 0, ""), Some((2, Vec::new())));
}

#[test]
fn text_is_cut_at_both_edges() {
    let c = canvas(LogicalRect::new(5, 2, 4, 3), true, (0, 0), SCREEN);
    // Two columns are cut off at the left, four are left to write.
    let (_, glyphs) = c.text(-2, 0, "abcdefgh").unwrap();
    assert_eq!(glyphs, vec![glyph(2, 5, 1), glyph(3, 6, 1), glyph(4, 7, 1), glyph(5, 8, 1)]);
    // A wide cluster that is cut in half is cut off whole.
    let (_, glyphs) = c.text(-1, 0, "日本語").unwrap();
    assert_eq!(glyphs, vec![glyph(1, 5, 2), glyph(2, 7, 2)]);
    // A wide cluster that does not fit ends the text, though a narrow one would have fit.
    let (_, glyphs) = c.text(0, 0, "abc日d").unwrap();
    assert_eq!(glyphs, vec![glyph(0, 5, 1), glyph(1, 6, 1), glyph(2, 7, 1)]);
}

#[test]
fn widget_is_clipped_to_what_is_visible() {
    let c = canvas(LogicalRect::new(5, 2, 10, 6), true, (0, 0), SCREEN);
    assert_eq!(
        c.widget(LogicalRect::new(0, 0, 4, 3)),
        Some(Blit {
            picture_width: 4,
            picture_height: 3,
            src_x: 0,
            src_y: 0,
            dst_x: 5,
            dst_y: 2,
            row_len: 4,
            rows: 3,
        })
    );
    // The picture begins before the region and ends behind it.
    assert_eq!(
        c.widget(LogicalRect::new(-2, -1, 30, 3)),
        Some(Blit {
            picture_width: 30,
            picture_height: 3,
            src_x: 2,
            src_y: 1,
            dst_x: 5,
            dst_y: 2,
            row_len: 10,
            rows: 2,
        })
    );
    assert_eq!(c.widget(LogicalRect::new(10, 0, 4, 3)), None);
    assert_eq!(c.widget(LogicalRect::new(0, 0, 0, 3)), None);
    // The region of the node reaches beyond the screen.
    let c = canvas(LogicalRect::new(15, 8, 10, 6), true, (1, 0), SCREEN);
    assert_eq!(
        c.widget(LogicalRect::new(0, 0, 8, 8)),
        Some(Blit {
            picture_width: 8,
            picture_height: 8,
            src_x: 1,
            src_y: 0,
            dst_x: 15,
            dst_y: 8,
            row_len: 5,
            rows: 2,
        })
    );
}
