//! Where the drawing of a node lands on the screen.
//!
//! A node draws in coordinates of its own, which begin at the corner of its region and are moved
//! by its canvas offset. A canvas works out which cells of the screen such a drawing reaches: it
//! clips text to the line that holds it and cuts it at the edge, cluster by cluster, and it clips
//! the picture of a widget to what is visible of it. Writing the cells is left to the caller.

use crate::node::ArenaNode;
use crate::rect::{clamp_i32, int_max, int_min, saturate, LogicalRect};
use vstd::prelude::*;

verus! {

/// The grapheme clusters of a text, in their order.
pub uninterp spec fn clusters(text: Seq<char>) -> Seq<Seq<char>>;

/// The number of columns that a string takes when it is displayed.
pub uninterp spec fn display_width(text: Seq<char>) -> nat;

/// `unicode_segmentation::UnicodeSegmentation::graphemes`, extended: the grapheme clusters of
/// the text, in their order.
#[verifier::external_body]
fn graphemes(text: &str) -> (parts: Vec<&str>)
    ensures
        parts.len() == clusters(text@).len(),
        forall|i: int| 0 <= i < parts.len() ==> (#[trigger] parts[i])@ == clusters(text@)[i],
{
    unicode_segmentation::UnicodeSegmentation::graphemes(text, true).collect()
}

/// `unicode_width::UnicodeWidthStr::width`: the number of columns that the string takes when it
/// is displayed.
#[verifier::external_body]
fn width_of(text: &str) -> (columns: usize)
    ensures
        columns == display_width(text@),
{
    unicode_width::UnicodeWidthStr::width(text)
}

/// Whether a character is a control code: one of the first 32 characters, or one of the 33 that
/// begin with the delete character.
pub open spec fn is_control(c: char) -> bool {
    (c as u32) < 0x20 || 0x7f <= (c as u32) <= 0x9f
}

/// Whether a string holds a control code.
pub open spec fn holds_control(text: Seq<char>) -> bool {
    exists|i: int| 0 <= i < text.len() && is_control(#[trigger] text[i])
}

/// Tells whether a string holds a control code.
pub fn has_control(text: &str) -> (b: bool)
    ensures
        b == holds_control(text@),
{
    let n = text.unicode_len();
    let mut i: usize = 0;
    while i < n
        invariant
            n == text@.len(),
            i <= n,
            forall|j: int| 0 <= j < i ==> !is_control(#[trigger] text@[j]),
        decreases n - i,
    {
        let c = text.get_char(i);
        let code = c as u32;
        if code < 0x20 || (0x7f <= code && code <= 0x9f) {
            return true;
        }
        i = i + 1;
    }
    false
}

/// The columns that a cluster takes on the screen: what it is wide, or none if it holds a
/// control code and is not drawn at all.
pub open spec fn columns_of(cluster: Seq<char>) -> int {
    if holds_control(cluster) {
        0
    } else {
        display_width(cluster) as int
    }
}

/// The columns that the clusters of a text take, in their order.
pub open spec fn cluster_columns(text: Seq<char>) -> Seq<int> {
    Seq::new(clusters(text).len(), |i: int| columns_of(clusters(text)[i]))
}

/// The stretch of one line of the screen that a text may be written to.
#[derive(Clone, Copy, Debug, PartialEq, Eq, Structural)]
pub struct TextSpan {
    /// The row of the screen.
    pub row: i32,
    /// The first column that may be written.
    pub start: i32,
    /// The columns of the text that lie before `start` and are cut off.
    pub skip: u32,
    /// The columns that may be written from `start` on.
    pub room: u32,
}

/// One cluster of a text and the place where it is drawn.
#[derive(Clone, Copy, Debug, PartialEq, Eq, Structural)]
pub struct Glyph {
    /// The place of the cluster among the clusters of the text.
    pub index: usize,
    /// The column of the screen where the cluster begins.
    pub column: i32,
    /// The columns that the cluster takes.
    pub width: u32,
}

/// The state of the writing of a line.
pub struct Pen {
    /// The next column to be written.
    pub cursor: int,
    /// The columns that are left.
    pub room: int,
    /// The columns that are still to be cut off.
    pub skip: int,
    /// Whether a cluster did not fit, which ends the writing.
    pub full: bool,
}

/// Whether the pen draws a cluster of the given width.
pub open spec fn draws(pen: Pen, width: int) -> bool {
    !pen.full && width > 0 && pen.skip == 0 && width <= pen.room
}

/// The pen after a cluster of the given width.
///
/// A cluster without width changes nothing. While columns are to be cut off, a cluster is cut
/// off whole. A cluster that does not fit into the room that is left ends the writing. Any other
/// cluster is drawn and moves the pen on.
pub open spec fn pen_step(pen: Pen, width: int) -> Pen {
    if pen.full || width <= 0 {
        pen
    } else if pen.skip > 0 {
        Pen { skip: int_max(pen.skip - width, 0), ..pen }
    } else if width > pen.room {
        Pen { full: true, ..pen }
    } else {
        Pen { cursor: pen.cursor + width, room: pen.room - width, ..pen }
    }
}

/// The pen after the first `n` clusters.
pub open spec fn pen_after(widths: Seq<int>, start: Pen, n: int) -> Pen
    decreases n,
{
    if n <= 0 {
        start
    } else {
        pen_step(pen_after(widths, start, n - 1), widths[n - 1])
    }
}

/// The clusters among the first `n` that are drawn, each with its place.
pub open spec fn glyph_run(widths: Seq<int>, start: Pen, n: int) -> Seq<Glyph>
    decreases n,
{
    if n <= 0 {
        Seq::empty()
    } else {
        let pen = pen_after(widths, start, n - 1);
        let before = glyph_run(widths, start, n - 1);
        if draws(pen, widths[n - 1]) {
            before.push(
                Glyph {
                    index: (n - 1) as usize,
                    column: pen.cursor as i32,
                    width: widths[n - 1] as u32,
                },
            )
        } else {
            before
        }
    }
}

/// The pen never leaves the span: it moves forward by what it takes from the room.
pub proof fn lemma_pen_in_span(widths: Seq<int>, start: Pen, n: int)
    requires
        start.room >= 0,
        start.skip >= 0,
    ensures
        pen_after(widths, start, n).room >= 0,
        pen_after(widths, start, n).skip >= 0,
        pen_after(widths, start, n).cursor >= start.cursor,
        pen_after(widths, start, n).cursor + pen_after(widths, start, n).room == start.cursor
            + start.room,
    decreases n,
{
    if n > 0 {
        lemma_pen_in_span(widths, start, n - 1);
    }
}

/// Every cluster that is drawn lies within the span: text is clipped, never wrapped.
pub proof fn lemma_glyphs_in_span(widths: Seq<int>, start: Pen, n: int, k: int)
    requires
        start.room >= 0,
        start.skip >= 0,
        0 <= n <= widths.len(),
        0 <= k < glyph_run(widths, start, n).len(),
        start.cursor + start.room <= i32::MAX,
        i32::MIN <= start.cursor,
    ensures
        start.cursor <= glyph_run(widths, start, n)[k].column,
        glyph_run(widths, start, n)[k].column + glyph_run(widths, start, n)[k].width
            <= start.cursor + start.room,
        glyph_run(widths, start, n)[k].index < n,
        glyph_run(widths, start, n)[k].width > 0,
    decreases n,
{
    if n > 0 {
        let before = glyph_run(widths, start, n - 1);
        lemma_pen_in_span(widths, start, n - 1);
        if k < before.len() {
            lemma_glyphs_in_span(widths, start, n - 1, k);
        }
    }
}

/// What the copying of a picture takes from the picture and where it puts it on the screen.
///
/// Rows and columns of the source are counted from the corner of the picture, those of the
/// destination from the corner of the screen's buffer.
#[derive(Clone, Copy, Debug, PartialEq, Eq, Structural)]
pub struct Blit {
    /// The width of the picture.
    pub picture_width: u16,
    /// The height of the picture.
    pub picture_height: u16,
    pub src_x: u16,
    pub src_y: u16,
    pub dst_x: u32,
    pub dst_y: u32,
    /// The number of cells that are copied of each row.
    pub row_len: u16,
    /// The number of rows that are copied.
    pub rows: u16,
}

/// A drawing surface scoped to a rectangular region of the terminal buffer.
#[derive(Clone, Copy, Debug, PartialEq, Eq)]
pub struct Canvas {
    bounds: LogicalRect,
    clipped: bool,
    rect: LogicalRect,
    offset_x: i32,
    offset_y: i32,
}

impl Canvas {
    /// The area of the buffer that is drawn to.
    pub closed spec fn bounds(&self) -> LogicalRect {
        self.bounds
    }

    /// The region of the node.
    pub closed spec fn region(&self) -> LogicalRect {
        self.rect
    }

    /// Whether drawings are cut at the edge of the node's region.
    pub closed spec fn is_clipped(&self) -> bool {
        self.clipped
    }

    /// The canvas offset of the node.
    pub closed spec fn offset(&self) -> (i32, i32) {
        (self.offset_x, self.offset_y)
    }

    /// The part of the screen that may be written to: the buffer, or what the node's region
    /// covers of it.
    pub open spec fn window(&self) -> LogicalRect {
        if self.is_clipped() {
            self.bounds().overlap(self.region())
        } else {
            self.bounds()
        }
    }

    /// The column of the screen that the column `x` of the canvas lies at.
    pub open spec fn column_at(&self, x: int) -> int {
        clamp_i32(self.region().x + x - self.offset().0)
    }

    /// The row of the screen that the row `y` of the canvas lies at.
    pub open spec fn row_at(&self, y: int) -> int {
        clamp_i32(self.region().y + y - self.offset().1)
    }

    /// The stretch of the screen that a text at `(x, y)` of at most `max_width` columns may be
    /// written to, if any of it is visible.
    pub open spec fn span_at(&self, x: int, y: int, max_width: int) -> Option<TextSpan> {
        let area = self.window();
        let column = self.column_at(x);
        let row = self.row_at(y);
        let right = clamp_i32(area.right_edge());
        let start = int_max(column, area.x as int);
        if row < area.y || row >= clamp_i32(area.bottom_edge()) || start >= right {
            None
        } else {
            Some(
                TextSpan {
                    row: row as i32,
                    start: start as i32,
                    skip: (start - column) as u32,
                    room: int_min(right - start, int_min(max_width, i32::MAX as int)) as u32,
                },
            )
        }
    }

    /// The pen at the beginning of a span.
    pub open spec fn pen_of(span: TextSpan) -> Pen {
        Pen { cursor: span.start as int, room: span.room as int, skip: span.skip as int, full: false }
    }

    /// The picture of a widget that is to be drawn at `rect` of the canvas, as it lies on the
    /// screen.
    pub open spec fn placed(&self, rect: LogicalRect) -> LogicalRect {
        LogicalRect {
            x: clamp_i32(rect.x - clamp_i32(self.offset().0 - self.region().x)) as i32,
            y: clamp_i32(rect.y - clamp_i32(self.offset().1 - self.region().y)) as i32,
            width: rect.width,
            height: rect.height,
        }
    }

    /// What is visible of a picture on the screen: what lies in the node's region and in the
    /// buffer.
    pub open spec fn visible(&self, rect: LogicalRect) -> LogicalRect {
        self.placed(rect).overlap(self.region()).overlap(self.bounds())
    }

    /// Creates a new canvas for a node, on a buffer of the given area.
    pub fn new(node: &ArenaNode, bounds: LogicalRect) -> (canvas: Self)
        ensures
            canvas.bounds() == bounds,
            canvas.region() == node.rect,
            canvas.is_clipped() == node.attributes.clipped,
            canvas.offset() == node.attributes.offset,
    {
        let rect = node.area();
        let attributes = node.attributes();
        Self {
            bounds,
            clipped: attributes.clipped,
            rect,
            offset_x: attributes.offset.0,
            offset_y: attributes.offset.1,
        }
    }

    /// Returns the underlying rectangular region.
    pub fn rect(&self) -> (r: LogicalRect)
        ensures
            r == self.region(),
    {
        self.rect
    }

    /// Returns a [`LogicalRect`] with the same width and height, but with an origin of `(0, 0)`.
    pub fn area(&self) -> (r: LogicalRect)
        ensures
            r == (LogicalRect {
                x: 0,
                y: 0,
                width: self.region().width,
                height: self.region().height,
            }),
    {
        LogicalRect::new(0, 0, self.rect.width, self.rect.height)
    }

    /// Determines if the cell at `(x, y)` of the screen lies in the region of the node.
    pub fn is_visible(&self, x: i32, y: i32) -> (b: bool)
        ensures
            b == self.region().contains_point(x as int, y as int),
    {
        x >= self.rect.x && (x as i64) < self.rect.x as i64 + self.rect.width as i64 && y
            >= self.rect.y && (y as i64) < self.rect.y as i64 + self.rect.height as i64
    }

    /// Converts a x-coordinate local to this canvas to the global buffer space.
    pub fn get_buf_column(&self, x: i32) -> (column: i32)
        ensures
            column == self.column_at(x as int),
    {
        saturate(self.rect.x as i64 + x as i64 - self.offset_x as i64)
    }

    /// Converts a y-coordinate local to this canvas to the global buffer space.
    pub fn get_buf_row(&self, y: i32) -> (row: i32)
        ensures
            row == self.row_at(y as int),
    {
        saturate(self.rect.y as i64 + y as i64 - self.offset_y as i64)
    }

    /// Determines if content should be drawn even if outside of the canvas region.
    pub fn clipped(&self) -> (b: bool)
        ensures
            b == self.is_clipped(),
    {
        self.clipped
    }

    /// Finds the stretch of the screen that a text at `(x, y)` may be written to.
    pub fn text_span(&self, x: i32, y: i32, max_width: usize) -> (span: Option<TextSpan>)
        ensures
            span == self.span_at(x as int, y as int, max_width as int),
    {
        let area = if self.clipped {
            self.bounds.intersection(self.rect)
        } else {
            self.bounds
        };
        let column = self.get_buf_column(x);
        let row = self.get_buf_row(y);
        if row < area.top() || row >= area.bottom() {
            return None;
        }
        let start = if column >= area.left() {
            column
        } else {
            area.left()
        };
        let right = area.right();
        if start >= right {
            return None;
        }
        let gap: i64 = right as i64 - start as i64;
        let limit: i64 = if max_width > 2147483647 {
            2147483647
        } else {
            max_width as i64
        };
        let room = if gap <= limit {
            gap
        } else {
            limit
        };
        Some(
            TextSpan {
                row,
                start,
                skip: (start as i64 - column as i64) as u32,
                room: room as u32,
            },
        )
    }

    /// Works out where the clusters of a text are drawn.
    ///
    /// The text begins at `(x, y)` of the canvas and stays on its line. What lies before the
    /// left edge of the window is cut off cluster by cluster, and the text ends with the last
    /// cluster that fits before the right edge. Clusters without width, and clusters that hold a
    /// control code, are left out. The answer is the row of the screen and the clusters that
    /// are drawn, or nothing if the line is not visible.
    pub fn text(&self, x: i32, y: i32, text: &str) -> (drawn: Option<(i32, Vec<Glyph>)>)
        ensures
            match self.span_at(x as int, y as int, usize::MAX as int) {
                None => drawn is None,
                Some(span) => drawn matches Some((row, glyphs)) && row == span.row && glyphs@
                    == glyph_run(
                    cluster_columns(text@),
                    Self::pen_of(span),
                    cluster_columns(text@).len() as int,
                ),
            },
    {
        let span = match self.text_span(x, y, usize::MAX) {
            None => {
                return None;
            },
            Some(span) => span,
        };
        let parts = graphemes(text);
        let n = parts.len();
        let ghost widths = cluster_columns(text@);
        let ghost start = Self::pen_of(span);
        let mut glyphs: Vec<Glyph> = Vec::new();
        let mut cursor: i32 = span.start;
        let mut room: u32 = span.room;
        let mut skip: u32 = span.skip;
        let mut full = false;
        let mut i: usize = 0;
        while i < n && !full
            invariant
                n == parts.len(),
                n == widths.len(),
                widths == cluster_columns(text@),
                forall|k: int| 0 <= k < n ==> (#[trigger] parts[k])@ == clusters(text@)[k],
                start == Self::pen_of(span),
                i <= n,
                pen_after(widths, start, i as int) == (Pen {
                    cursor: cursor as int,
                    room: room as int,
                    skip: skip as int,
                    full,
                }),
                glyphs@ == glyph_run(widths, start, i as int),
                cursor + room == span.start + span.room,
                span.start + span.room <= i32::MAX,
                room <= span.room,
                span.room <= i32::MAX,
            decreases n - i,
        {
            let part = parts[i];
            let width: usize = if has_control(part) {
                0
            } else {
                width_of(part)
            };
            assert(width == widths[i as int]);
            if width == 0 {
            } else if skip > 0 {
                skip = if width >= skip as usize {
                    0
                } else {
                    skip - width as u32
                };
            } else if width > room as usize {
                full = true;
            } else {
                glyphs.push(Glyph { index: i, column: cursor, width: width as u32 });
                cursor = cursor + width as i32;
                room = room - width as u32;
            }
            i = i + 1;
        }
        proof {
            lemma_full_stays(widths, start, i as int, n as int);
        }
        Some((span.row, glyphs))
    }

    /// Works out what is to be copied of the picture of a widget that is drawn at `rect` of the
    /// canvas.
    ///
    /// The widget is rendered into a picture of its own, which holds at most 65535 columns and
    /// rows of it. Copied is what is visible: what of the picture lies in the node's region and
    /// in the buffer of the screen. Nothing is copied if nothing is visible.
    pub fn widget(&self, rect: LogicalRect) -> (blit: Option<Blit>)
        ensures
            match blit {
                Some(b) => {
                    let seen = self.visible(rect);
                    let at = self.placed(rect);
                    &&& seen.width > 0
                    &&& seen.height > 0
                    &&& b.picture_width == int_min(at.width as int, u16::MAX as int)
                    &&& b.picture_height == int_min(at.height as int, u16::MAX as int)
                    &&& b.src_x == seen.x - at.x
                    &&& b.src_y == seen.y - at.y
                    &&& b.dst_x == seen.x - self.bounds().x
                    &&& b.dst_y == seen.y - self.bounds().y
                    &&& b.row_len == int_min(seen.width as int, b.picture_width - b.src_x)
                    &&& b.rows == int_min(seen.height as int, b.picture_height - b.src_y)
                    &&& b.row_len > 0
                    &&& b.rows > 0
                    &&& b.dst_x + b.row_len <= self.bounds().width
                    &&& b.dst_y + b.rows <= self.bounds().height
                },
                None => {
                    let seen = self.visible(rect);
                    let at = self.placed(rect);
                    ||| seen.width <= 0
                    ||| seen.height <= 0
                    ||| seen.x - at.x >= u16::MAX
                    ||| seen.y - at.y >= u16::MAX
                },
            },
    {
        let dx = saturate(self.offset_x as i64 - self.rect.x as i64);
        let dy = saturate(self.offset_y as i64 - self.rect.y as i64);
        let at = LogicalRect {
            x: saturate(rect.x as i64 - dx as i64),
            y: saturate(rect.y as i64 - dy as i64),
            width: rect.width,
            height: rect.height,
        };
        let seen = at.intersection(self.rect).intersection(self.bounds);
        if seen.width <= 0 || seen.height <= 0 {
            return None;
        }
        let picture_width: i64 = if at.width > 65535 {
            65535
        } else {
            at.width as i64
        };
        let picture_height: i64 = if at.height > 65535 {
            65535
        } else {
            at.height as i64
        };
        let src_x: i64 = seen.x as i64 - at.x as i64;
        let src_y: i64 = seen.y as i64 - at.y as i64;
        if src_x >= 65535 || src_y >= 65535 {
            return None;
        }
        let row_len: i64 = if seen.width as i64 <= picture_width - src_x {
            seen.width as i64
        } else {
            picture_width - src_x
        };
        let rows: i64 = if seen.height as i64 <= picture_height - src_y {
            seen.height as i64
        } else {
            picture_height - src_y
        };
        Some(
            Blit {
                picture_width: picture_width as u16,
                picture_height: picture_height as u16,
                src_x: src_x as u16,
                src_y: src_y as u16,
                dst_x: (seen.x as i64 - self.bounds.x as i64) as u32,
                dst_y: (seen.y as i64 - self.bounds.y as i64) as u32,
                row_len: row_len as u16,
                rows: rows as u16,
            },
        )
    }
}

/// Once a cluster did not fit, nothing more is drawn.
pub proof fn lemma_full_stays(widths: Seq<int>, start: Pen, i: int, n: int)
    requires
        0 <= i <= n,
        i < n ==> pen_after(widths, start, i).full,
    ensures
        glyph_run(widths, start, n) == glyph_run(widths, start, i),
        i < n ==> pen_after(widths, start, n).full,
    decreases n - i,
{
    if i < n {
        lemma_full_stays(widths, start, i, n - 1);
        if i < n - 1 {
        } else {
            assert(pen_after(widths, start, n - 1).full);
        }
    }
}

} // verus!
