//! Bookkeeping of the preview layout: on which page each source line ends up.
use vstd::prelude::*;

use crate::layout::{text_width, unicode_display_width, wrap_text, wrapped_text, BlockSource};
use crate::spans::{spans_text, spans_view, InlineSpan};
use crate::text::{strings_view, string_of};

verus! {

/// What a preview render returns: where the PDF was written, and for each source line
/// (from 1) the page that shows it.
#[derive(Clone, Debug)]
pub struct MarkdownPreviewResult {
    pub file_path: String,
    pub line_page_map: Vec<u32>,
}

/// The page being filled, and for each source line the page it was last drawn on.
#[derive(Clone, Debug)]
pub struct PreviewLayoutState {
    pub page_index: u32,
    pub line_pages: Vec<u32>,
}

/// The index that source line `line` (from 1; line 0 read as line 1) has in the map.
pub open spec fn line_slot(line: int) -> int {
    if line >= 1 {
        line - 1
    } else {
        0
    }
}

/// Whether slot `k` belongs to a line of `start..=end`.
pub open spec fn slot_in_range(k: int, start: int, end: int) -> bool {
    start <= end && ((start <= k + 1 && k + 1 <= end) || (k == 0 && start <= 0))
}

/// The map with the slots of lines `start..=end` set to `page`.
pub open spec fn recorded_range(pages: Seq<u32>, page: u32, start: int, end: int) -> Seq<u32> {
    Seq::new(pages.len(), |k: int| if slot_in_range(k, start, end) { page } else { pages[k] })
}

impl PreviewLayoutState {
    /// The state before anything is drawn: on page 1, each of `source_line_count` lines
    /// (at least one) mapped to page 1.
    pub fn new(source_line_count: usize) -> (r: Self)
        ensures
            r.page_index == 1,
            r.line_pages@ == Seq::new(
                if source_line_count < 1 { 1nat } else { source_line_count as nat },
                |k: int| 1u32,
            ),
    {
        let n = if source_line_count < 1 { 1 } else { source_line_count };
        let mut line_pages: Vec<u32> = Vec::new();
        let mut k: usize = 0;
        while k < n
            invariant
                k <= n,
                line_pages@ == Seq::new(k as nat, |j: int| 1u32),
            decreases n - k,
        {
            line_pages.push(1);
            assert(line_pages@ =~= Seq::new((k + 1) as nat, |j: int| 1u32));
            k += 1;
        }
        PreviewLayoutState { page_index: 1, line_pages }
    }

    /// Maps source line `line` to the current page (nothing for a line past the map).
    pub fn record_line(&mut self, line: u32)
        ensures
            final(self).page_index == old(self).page_index,
            final(self).line_pages@ == (if line_slot(line as int) < old(self).line_pages@.len() {
                old(self).line_pages@.update(line_slot(line as int), old(self).page_index)
            } else {
                old(self).line_pages@
            }),
    {
        let idx: usize = if line >= 1 { (line - 1) as usize } else { 0 };
        if idx < self.line_pages.len() {
            let mut pages: Vec<u32> = Vec::new();
            std::mem::swap(&mut pages, &mut self.line_pages);
            pages.set(idx, self.page_index);
            self.line_pages = pages;
        }
    }

    /// Maps each line of `source` to the current page.
    pub fn record_source(&mut self, source: BlockSource)
        ensures
            final(self).page_index == old(self).page_index,
            final(self).line_pages@ == recorded_range(
                old(self).line_pages@,
                old(self).page_index,
                source.start_line as int,
                source.end_line as int,
            ),
    {
        let ghost orig = self.line_pages@;
        let start = source.start_line as u64;
        let end = source.end_line as u64;
        if start > end {
            assert(self.line_pages@ =~= recorded_range(orig, self.page_index, start as int, end as int));
            return;
        }
        let mut line: u64 = start;
        while line <= end
            invariant
                start <= line <= end + 1,
                start <= end <= u32::MAX,
                self.page_index == old(self).page_index,
                orig == old(self).line_pages@,
                self.line_pages@ == recorded_range(orig, self.page_index, start as int, line - 1),
            decreases end + 1 - line,
        {
            let ghost before = self.line_pages@;
            self.record_line(line as u32);
            assert(self.line_pages@ =~= recorded_range(orig, self.page_index, start as int, line as int));
            line += 1;
        }
    }
}

/// The lines that a code block drawn as `rendered` lines maps to: the i-th drawn line to
/// source line `start + min(i, end - start)`, or the whole source when nothing is drawn.
pub open spec fn code_line_source(source: BlockSource, index: int) -> u32 {
    let span = if source.end_line >= source.start_line {
        source.end_line - source.start_line
    } else {
        0
    };
    let i = index as u32;
    (source.start_line + (if i < span { i as int } else { span as int })) as u32
}

/// Maps the source lines of a code block drawn as `rendered_line_count` lines to the
/// current page (see [`code_line_source`]).
pub fn record_code_block_source_lines(
    layout: &mut PreviewLayoutState,
    source: BlockSource,
    rendered_line_count: usize,
)
    ensures
        final(layout).page_index == old(layout).page_index,
        rendered_line_count == 0 ==> final(layout).line_pages@ == recorded_range(
            old(layout).line_pages@,
            old(layout).page_index,
            source.start_line as int,
            source.end_line as int,
        ),
        rendered_line_count > 0 ==> final(layout).line_pages@ == Seq::new(
            old(layout).line_pages@.len(),
            |k: int|
                if exists|i: int| 0 <= i < rendered_line_count && line_slot(#[trigger] code_line_source(source, i) as int) == k {
                    old(layout).page_index
                } else {
                    old(layout).line_pages@[k]
                },
        ),
{
    if rendered_line_count == 0 {
        layout.record_source(source);
        return;
    }
    let ghost orig = layout.line_pages@;
    let ghost page = layout.page_index;
    let span: u32 = if source.end_line >= source.start_line {
        source.end_line - source.start_line
    } else {
        0
    };
    let mut index: usize = 0;
    while index < rendered_line_count
        invariant
            index <= rendered_line_count,
            layout.page_index == page,
            orig == old(layout).line_pages@,
            page == old(layout).page_index,
            span == (if source.end_line >= source.start_line { source.end_line - source.start_line } else { 0 }),
            layout.line_pages@ == Seq::new(
                orig.len(),
                |k: int|
                    if exists|i: int| 0 <= i < index && line_slot(#[trigger] code_line_source(source, i) as int) == k {
                        page
                    } else {
                        orig[k]
                    },
            ),
        decreases rendered_line_count - index,
    {
        let i = index as u32;
        let line = source.start_line + if i < span { i } else { span };
        assert(line == code_line_source(source, index as int));
        let ghost before = layout.line_pages@;
        layout.record_line(line);
        assert(layout.line_pages@ =~= Seq::new(
            orig.len(),
            |k: int|
                if exists|j: int| 0 <= j < index + 1 && line_slot(#[trigger] code_line_source(source, j) as int) == k {
                    page
                } else {
                    orig[k]
                },
        )) by {
            assert forall|k: int| 0 <= k < orig.len() implies #[trigger] layout.line_pages@[k] == (if exists|j: int| 0 <= j < index + 1 && line_slot(#[trigger] code_line_source(source, j) as int) == k {
                    page
                } else {
                    orig[k]
                }) by {
                if line_slot(line as int) == k {
                    assert(code_line_source(source, index as int) == line);
                } else {
                    if exists|j: int| 0 <= j < index + 1 && line_slot(#[trigger] code_line_source(source, j) as int) == k {
                        let j = choose|j: int| 0 <= j < index + 1 && line_slot(#[trigger] code_line_source(source, j) as int) == k;
                        assert(j < index);
                    }
                }
            }
        }
        index += 1;
    }
}

/// The source line that the `index`-th drawn line of a block stands for (see
/// [`code_line_source`]).
pub fn drawn_line_source(source: BlockSource, index: usize) -> (r: u32)
    ensures
        r == code_line_source(source, index as int),
{
    let i = index as u32;
    let span: u32 = if source.end_line >= source.start_line {
        source.end_line - source.start_line
    } else {
        0
    };
    source.start_line + if i < span { i } else { span }
}

/// The last source line that a spacer of `visible_lines` drawn lines stands for: the
/// `visible_lines`-th line of its source, or its last line.
pub open spec fn spacer_last_drawn(visible_lines: usize, source: BlockSource) -> u32 {
    let v = visible_lines as u32;
    let k = if v >= 1 { v - 1 } else { 0 };
    let s = if source.start_line + k > u32::MAX { u32::MAX as int } else { source.start_line + k };
    if s < source.end_line { s as u32 } else { source.end_line }
}

/// Maps the source lines of a spacer past those it drew to the current page: the lines
/// after [`spacer_last_drawn`] up to the end of its source.
pub fn record_spacer_tail(layout: &mut PreviewLayoutState, visible_lines: usize, source: BlockSource)
    ensures
        final(layout).page_index == old(layout).page_index,
        final(layout).line_pages@ == recorded_range(
            old(layout).line_pages@,
            old(layout).page_index,
            if spacer_last_drawn(visible_lines, source) == u32::MAX {
                u32::MAX as int
            } else {
                spacer_last_drawn(visible_lines, source) + 1
            },
            source.end_line as int,
        ),
{
    let v = visible_lines as u32;
    let last_drawn = source.start_line.saturating_add(v.saturating_sub(1));
    let last_drawn = if last_drawn < source.end_line { last_drawn } else { source.end_line };
    layout.record_source(BlockSource { start_line: last_drawn.saturating_add(1), end_line: source.end_line });
}

/// The columns left for the text of a list item: 90 less the indent (two per level), the
/// marker and six of spacing, and at least 20.
pub open spec fn list_budget(indent: u8, marker: Seq<char>) -> nat {
    let used = indent * 2 + text_width(marker) + 6;
    if used + 20 >= 90 {
        20
    } else {
        (90 - used) as nat
    }
}

/// The columns left for the text of a list item (see [`list_budget`]).
pub fn list_item_budget(indent: u8, marker: &str) -> (r: usize)
    ensures
        r == list_budget(indent, marker@),
{
    let used = (indent as usize * 2).saturating_add(unicode_display_width(marker)).saturating_add(6);
    if used >= 70 {
        20
    } else {
        90 - used
    }
}

/// The columns at which block-quote text is wrapped.
pub fn blockquote_wrap_cols() -> (r: usize)
    ensures
        r == crate::blocks::BLOCKQUOTE_WRAP_COLS,
{
    crate::blocks::BLOCKQUOTE_WRAP_COLS
}

/// The text of each cell of a table row, wrapped at `max_cell_cols` columns.
pub fn wrap_table_row_cells(row: &Vec<Vec<InlineSpan>>, max_cell_cols: usize) -> (r: Vec<Vec<String>>)
    ensures
        r@.len() == row@.len(),
        forall|i: int| 0 <= i < row@.len() ==> strings_view(#[trigger] r@[i]@) == wrapped_text(
            spans_text(spans_view(row@[i]@)),
            max_cell_cols as nat,
        ),
{
    let mut r: Vec<Vec<String>> = Vec::new();
    let mut i: usize = 0;
    while i < row.len()
        invariant
            i <= row.len(),
            r@.len() == i,
            forall|k: int| 0 <= k < i ==> strings_view(#[trigger] r@[k]@) == wrapped_text(
                spans_text(spans_view(row@[k]@)),
                max_cell_cols as nat,
            ),
        decreases row.len() - i,
    {
        let text = cell_text(&row[i]);
        let lines = wrap_text(text.as_str(), max_cell_cols);
        r.push(lines);
        i += 1;
    }
    r
}

/// The text of a cell: its runs one after the other.
pub fn cell_text(cell: &Vec<InlineSpan>) -> (s: String)
    ensures
        s@ == spans_text(spans_view(cell@)),
{
    let mut v: Vec<char> = Vec::new();
    let mut i: usize = 0;
    while i < cell.len()
        invariant
            i <= cell.len(),
            v@ == spans_text(spans_view(cell@).take(i as int)),
        decreases cell.len() - i,
    {
        crate::text::extend_vec(&mut v, &crate::text::chars_of(cell[i].text.as_str()));
        assert(spans_view(cell@).take(i + 1).drop_last() =~= spans_view(cell@).take(i as int));
        i += 1;
    }
    assert(spans_view(cell@).take(cell.len() as int) =~= spans_view(cell@));
    string_of(&v)
}

} // verus!
