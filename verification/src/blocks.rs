//! The block structure of a markdown document: headings, paragraphs, flattened lists,
//! tables, code, display math, block quotes and the blank space between them.
use vstd::prelude::*;

use crate::ast::{MdNode, NodeTag, NodeV};
use crate::inline::{collect_inline, collect_inline_list, item_spans, paragraph_spans};
use crate::layout::{layout_lines, trim_newlines_end, BlockSource};
use crate::spans::{merged, plain_style, push_span, spans_view, InlineSpan, SpanV, TextStyle};
use crate::text::{ascii_lowercase, decimal, is_space, trim};

verus! {

/// The most blank lines that one spacer stands for.
pub const MAX_SPACER_LINES: usize = 48;

/// The columns at which block-quote text is wrapped.
pub const BLOCKQUOTE_WRAP_COLS: usize = 96;

/// How a thematic break was written.
#[derive(Clone, Copy, Debug, PartialEq, Eq, Structural)]
pub enum ThematicBreakStyle {
    Hyphen,
    Asterisk,
    Underscore,
}

/// One line of a block quote.
#[derive(Clone, Debug)]
pub enum BlockquoteLine {
    Text(Vec<InlineSpan>),
    DisplayMath(String),
    CodeBlock { code: String },
}

/// A block of the rendered document.
#[allow(inconsistent_fields)]
#[derive(Clone, Debug)]
pub enum MarkdownBlock {
    Heading { level: usize, spans: Vec<InlineSpan>, source: BlockSource },
    Paragraph { spans: Vec<InlineSpan>, source: BlockSource },
    /// Vertical space for blank source lines between two blocks.
    Spacer { lines: usize, source: BlockSource },
    /// A bullet item; nested lists are flattened with a larger `indent`.
    ListItem { indent: u8, spans: Vec<InlineSpan>, source: BlockSource },
    OrderedListItem { n: u32, indent: u8, spans: Vec<InlineSpan>, source: BlockSource },
    ThematicBreak { style: ThematicBreakStyle, source: BlockSource },
    /// Rows of cells, each cell a sequence of runs.
    Table { rows: Vec<Vec<Vec<InlineSpan>>>, source: BlockSource },
    CodeBlock { lang: String, code: String, source: BlockSource },
    DisplayMath { expr: String, source: BlockSource },
    Blockquote { lines: Vec<BlockquoteLine>, source: BlockSource },
}

/// The model of a block-quote line.
pub enum QuoteLineV {
    Text(Seq<SpanV>),
    DisplayMath(Seq<char>),
    CodeBlock(Seq<char>),
}

/// The model of a block.
#[allow(inconsistent_fields)]
pub enum BlockV {
    Heading { level: usize, spans: Seq<SpanV>, source: BlockSource },
    Paragraph { spans: Seq<SpanV>, source: BlockSource },
    Spacer { lines: usize, source: BlockSource },
    ListItem { indent: u8, spans: Seq<SpanV>, source: BlockSource },
    OrderedListItem { n: u32, indent: u8, spans: Seq<SpanV>, source: BlockSource },
    ThematicBreak { style: ThematicBreakStyle, source: BlockSource },
    Table { rows: Seq<Seq<Seq<SpanV>>>, source: BlockSource },
    CodeBlock { lang: Seq<char>, code: Seq<char>, source: BlockSource },
    DisplayMath { expr: Seq<char>, source: BlockSource },
    Blockquote { lines: Seq<QuoteLineV>, source: BlockSource },
}

pub open spec fn quote_line_view(l: BlockquoteLine) -> QuoteLineV {
    match l {
        BlockquoteLine::Text(s) => QuoteLineV::Text(spans_view(s@)),
        BlockquoteLine::DisplayMath(e) => QuoteLineV::DisplayMath(e@),
        BlockquoteLine::CodeBlock { code } => QuoteLineV::CodeBlock(code@),
    }
}

pub open spec fn quote_lines_view(v: Seq<BlockquoteLine>) -> Seq<QuoteLineV> {
    v.map_values(|l: BlockquoteLine| quote_line_view(l))
}

pub open spec fn row_view(r: Vec<Vec<InlineSpan>>) -> Seq<Seq<SpanV>> {
    r@.map_values(|c: Vec<InlineSpan>| spans_view(c@))
}

pub open spec fn rows_view(v: Seq<Vec<Vec<InlineSpan>>>) -> Seq<Seq<Seq<SpanV>>> {
    v.map_values(|r: Vec<Vec<InlineSpan>>| row_view(r))
}

pub open spec fn block_view(b: MarkdownBlock) -> BlockV {
    match b {
        MarkdownBlock::Heading { level, spans, source } => BlockV::Heading {
            level,
            spans: spans_view(spans@),
            source,
        },
        MarkdownBlock::Paragraph { spans, source } => BlockV::Paragraph {
            spans: spans_view(spans@),
            source,
        },
        MarkdownBlock::Spacer { lines, source } => BlockV::Spacer { lines, source },
        MarkdownBlock::ListItem { indent, spans, source } => BlockV::ListItem {
            indent,
            spans: spans_view(spans@),
            source,
        },
        MarkdownBlock::OrderedListItem { n, indent, spans, source } => BlockV::OrderedListItem {
            n,
            indent,
            spans: spans_view(spans@),
            source,
        },
        MarkdownBlock::ThematicBreak { style, source } => BlockV::ThematicBreak { style, source },
        MarkdownBlock::Table { rows, source } => BlockV::Table { rows: rows_view(rows@), source },
        MarkdownBlock::CodeBlock { lang, code, source } => BlockV::CodeBlock {
            lang: lang@,
            code: code@,
            source,
        },
        MarkdownBlock::DisplayMath { expr, source } => BlockV::DisplayMath { expr: expr@, source },
        MarkdownBlock::Blockquote { lines, source } => BlockV::Blockquote {
            lines: quote_lines_view(lines@),
            source,
        },
    }
}

pub open spec fn blocks_view(v: Seq<MarkdownBlock>) -> Seq<BlockV> {
    v.map_values(|b: MarkdownBlock| block_view(b))
}

impl View for MarkdownBlock {
    type V = BlockV;

    open spec fn view(&self) -> BlockV {
        block_view(*self)
    }
}

impl View for BlockquoteLine {
    type V = QuoteLineV;

    open spec fn view(&self) -> QuoteLineV {
        quote_line_view(*self)
    }
}

// ---------------------------------------------------------------------------------------
// What each node becomes.

/// The source lines of a node, each at least 1.
pub open spec fn source_of(n: NodeV) -> BlockSource {
    BlockSource {
        start_line: if n.start_line < 1 { 1 } else { n.start_line },
        end_line: if n.end_line < 1 { 1 } else { n.end_line },
    }
}

/// `u8::saturating_add(1)`.
pub open spec fn inc_u8(x: u8) -> u8 {
    if x < 255 { (x + 1) as u8 } else { 255 }
}

/// `u32::saturating_add(1)`.
pub open spec fn inc_u32(x: u32) -> u32 {
    if x < u32::MAX { (x + 1) as u32 } else { u32::MAX }
}

/// The text of a paragraph's `Text` children, a line feed for each line break.
pub open spec fn raw_text(ns: Seq<NodeV>) -> Seq<char>
    decreases ns.len(),
{
    if ns.len() == 0 {
        Seq::empty()
    } else {
        (match ns[0].tag {
            NodeTag::Text => ns[0].text,
            NodeTag::SoftBreak | NodeTag::LineBreak => seq!['\n'],
            _ => Seq::empty(),
        }) + raw_text(ns.drop_first())
    }
}

/// `t` stripped of the two-character prefix `open` and suffix `close` (`None` when it does
/// not have both).
pub open spec fn strip_delimiters(t: Seq<char>, open: Seq<char>, close: Seq<char>) -> Option<
    Seq<char>,
> {
    if t.len() >= 4 && t.take(2) == open && t.skip(t.len() - 2) == close {
        Some(t.subrange(2, t.len() - 2))
    } else {
        None
    }
}

/// The display-math expression gathered from a paragraph's children: the trimmed literals
/// of its display-math nodes, a line feed for each line break after the first of them;
/// `None` when another kind of child (other than blank text) occurs.
pub open spec fn gather_display_math(ns: Seq<NodeV>, expr: Seq<char>, saw: bool) -> Option<
    (Seq<char>, bool),
>
    decreases ns.len(),
{
    if ns.len() == 0 {
        Some((expr, saw))
    } else {
        let c = ns[0];
        if c.tag == NodeTag::Math && c.flag {
            gather_display_math(ns.drop_first(), expr + trim(c.text), true)
        } else if c.tag == NodeTag::SoftBreak || c.tag == NodeTag::LineBreak {
            gather_display_math(
                ns.drop_first(),
                if saw {
                    expr.push('\n')
                } else {
                    expr
                },
                saw,
            )
        } else if c.tag == NodeTag::Text && trim(c.text).len() == 0 {
            gather_display_math(ns.drop_first(), expr, saw)
        } else {
            None
        }
    }
}

/// The expression of a paragraph that is display math: either `\[ expr \]` as its whole
/// text, or made only of `$$` math (and blank text and line breaks).
pub open spec fn display_math_expr(p: NodeV) -> Option<Seq<char>> {
    let t = trim(raw_text(p.children));
    match strip_delimiters(t, seq!['\\', '['], seq!['\\', ']']) {
        Some(e) if trim(e).len() > 0 => Some(trim(e)),
        _ => match gather_display_math(p.children, Seq::empty(), false) {
            Some((e, true)) => if trim(e).len() > 0 {
                Some(trim(e))
            } else {
                None
            },
            _ => None,
        },
    }
}

/// The style in which a thematic break line is drawn: asterisks or underscores when all
/// its non-blank characters are that character, hyphens otherwise.
pub open spec fn thematic_style(line: Seq<char>) -> ThematicBreakStyle {
    if (exists|i: int| 0 <= i < line.len() && line[i] == '*') && (forall|i: int|
        0 <= i < line.len() && !is_space(#[trigger] line[i]) ==> line[i] == '*') {
        ThematicBreakStyle::Asterisk
    } else if (exists|i: int| 0 <= i < line.len() && line[i] == '_') && (forall|i: int|
        0 <= i < line.len() && !is_space(#[trigger] line[i]) ==> line[i] == '_') {
        ThematicBreakStyle::Underscore
    } else {
        ThematicBreakStyle::Hyphen
    }
}

/// The style of a thematic break that starts on source line `line` (1-based).
pub open spec fn thematic_style_at(md: Seq<Seq<char>>, line: u32) -> ThematicBreakStyle {
    let idx = if line >= 1 { line - 1 } else { 0 };
    if idx < md.len() {
        thematic_style(md[idx])
    } else {
        ThematicBreakStyle::Hyphen
    }
}

/// The code block of a code-block node: its info string trimmed and in lower case, and
/// its literal.
/// The info string of a code block. The printed tree gives `math" math_style="display` both
/// for that info string and for `math`; it is `math` unless the fence line itself reads
/// `math_style`.
pub open spec fn fence_info(n: NodeV, md: Seq<Seq<char>>) -> Seq<char> {
    let line = if 1 <= n.start_line && n.start_line - 1 < md.len() { md[n.start_line - 1] } else { Seq::empty() };
    if n.info == "math"@ + crate::ast::math_style_tail() && crate::text::find(line, "math_style"@) is None {
        "math"@
    } else {
        n.info
    }
}

/// A code block: its language is the info string, trimmed and in ASCII lower case.
pub open spec fn code_block_of(n: NodeV, md: Seq<Seq<char>>) -> BlockV {
    BlockV::CodeBlock { lang: ascii_lowercase(trim(fence_info(n, md))), code: n.text, source: source_of(n) }
}

/// The runs of a table cell: the inline content of its children (a paragraph's children
/// taken in its place), neighbours of one style joined.
pub open spec fn cell_inline(ns: Seq<NodeV>, out: Seq<SpanV>) -> Seq<SpanV>
    decreases ns.len(),
{
    if ns.len() == 0 {
        out
    } else {
        cell_inline(
            ns.drop_first(),
            if ns[0].tag == NodeTag::Paragraph {
                collect_inline_list(ns[0].children, plain_style(), out)
            } else {
                collect_inline(ns[0], plain_style(), out)
            },
        )
    }
}

/// The cells of a row: one per `TableCell` child.
pub open spec fn row_cells(ns: Seq<NodeV>) -> Seq<Seq<SpanV>>
    decreases ns.len(),
{
    if ns.len() == 0 {
        Seq::empty()
    } else if ns[0].tag == NodeTag::TableCell {
        seq![merged(cell_inline(ns[0].children, Seq::empty()))] + row_cells(ns.drop_first())
    } else {
        row_cells(ns.drop_first())
    }
}

/// The rows of a table: one per `TableRow` child with at least one cell.
pub open spec fn table_rows(ns: Seq<NodeV>) -> Seq<Seq<Seq<SpanV>>>
    decreases ns.len(),
{
    if ns.len() == 0 {
        Seq::empty()
    } else if ns[0].tag == NodeTag::TableRow && row_cells(ns[0].children).len() > 0 {
        seq![row_cells(ns[0].children)] + table_rows(ns.drop_first())
    } else {
        table_rows(ns.drop_first())
    }
}

/// The table block of a table node, when it has a row.
pub open spec fn table_of(n: NodeV) -> Option<BlockV> {
    let rows = table_rows(n.children);
    if rows.len() > 0 {
        Some(BlockV::Table { rows, source: source_of(n) })
    } else {
        None
    }
}

/// A math node on its own: display math as is; inline math, when not blank, as a
/// paragraph of one math run.
pub open spec fn math_block_of(n: NodeV, out: Seq<BlockV>) -> Seq<BlockV> {
    if n.flag {
        out.push(BlockV::DisplayMath { expr: n.text, source: source_of(n) })
    } else if trim(n.text).len() > 0 {
        out.push(
            BlockV::Paragraph {
                spans: push_span(Seq::empty(), n.text, TextStyle { math: true, ..plain_style() }),
                source: source_of(n),
            },
        )
    } else {
        out
    }
}

/// `"> "` repeated `level` times, then a space.
pub open spec fn quote_prefix(level: u8) -> Seq<char> {
    Seq::new((2 * level) as nat, |i: int| if i % 2 == 0 { '>' } else { ' ' }).push(' ')
}

/// Two spaces per level of indentation.
pub open spec fn list_pad(indent: u8) -> Seq<char> {
    Seq::new((2 * indent) as nat, |i: int| ' ')
}

/// The spans of each line that block-quote text is wrapped into.
pub open spec fn wrapped_spans(spans: Seq<SpanV>) -> Seq<Seq<SpanV>> {
    layout_lines(
        spans,
        BLOCKQUOTE_WRAP_COLS as nat,
        BlockSource { start_line: 1, end_line: 1 },
    ).map_values(|l: crate::layout::LineV| l.spans)
}

/// Adds quoted text at `level`: nothing for no runs; otherwise, below the top level, a
/// plain run with the quote prefix first; then the runs wrapped into lines.
pub open spec fn quote_text(out: Seq<QuoteLineV>, level: u8, spans: Seq<SpanV>) -> Seq<
    QuoteLineV,
> {
    if spans.len() == 0 {
        out
    } else {
        let s = if level > 0 {
            seq![SpanV { text: quote_prefix(level), style: plain_style() }] + spans
        } else {
            spans
        };
        out + wrapped_spans(s).map_values(|l: Seq<SpanV>| QuoteLineV::Text(l))
    }
}

/// Adds a display-math line, trimmed, unless it is blank.
pub open spec fn quote_math(out: Seq<QuoteLineV>, expr: Seq<char>) -> Seq<QuoteLineV> {
    if trim(expr).len() == 0 {
        out
    } else {
        out.push(QuoteLineV::DisplayMath(trim(expr)))
    }
}

/// Adds a code line: the code without its final line feeds, unless that is empty.
pub open spec fn quote_code(out: Seq<QuoteLineV>, code: Seq<char>) -> Seq<QuoteLineV> {
    if trim_newlines_end(code).len() == 0 {
        out
    } else {
        out.push(QuoteLineV::CodeBlock(trim_newlines_end(code)))
    }
}

/// The plain lead of a list line inside a quote: the quote prefix below the top level,
/// then `marker`.
pub open spec fn item_lead(level: u8, marker: Seq<char>) -> Seq<SpanV> {
    let first = if level > 0 {
        push_span(Seq::empty(), quote_prefix(level), plain_style())
    } else {
        Seq::empty()
    };
    push_span(first, marker, plain_style())
}

/// Adds flattened list items as quoted lines: a bullet item (unless it has no runs) after
/// `pad + "• "`, a numbered item after `pad + n + ". "`.
pub open spec fn quote_items(out: Seq<QuoteLineV>, level: u8, items: Seq<BlockV>) -> Seq<
    QuoteLineV,
>
    decreases items.len(),
{
    if items.len() == 0 {
        out
    } else {
        let out1 = match items[0] {
            BlockV::ListItem { indent, spans, .. } => if spans.len() == 0 {
                out
            } else {
                quote_text(out, level, item_lead(level, list_pad(indent) + seq!['•', ' ']) + spans)
            },
            BlockV::OrderedListItem { n, indent, spans, .. } => quote_text(
                out,
                level,
                item_lead(level, list_pad(indent) + decimal(n as nat) + seq!['.', ' ']) + spans,
            ),
            _ => out,
        };
        quote_items(out1, level, items.drop_first())
    }
}

/// Adds the blocks of a nested node as quoted lines: paragraphs and headings as text,
/// quotes as they are, code blocks as code; other blocks are dropped.
pub open spec fn quote_blocks(out: Seq<QuoteLineV>, level: u8, bs: Seq<BlockV>) -> Seq<
    QuoteLineV,
>
    decreases bs.len(),
{
    if bs.len() == 0 {
        out
    } else {
        let out1 = match bs[0] {
            BlockV::Paragraph { spans, .. } => quote_text(out, level, spans),
            BlockV::Heading { spans, .. } => quote_text(out, level, spans),
            BlockV::Blockquote { lines, .. } => out + lines,
            BlockV::CodeBlock { code, .. } => quote_code(out, code),
            _ => out,
        };
        quote_blocks(out1, level, bs.drop_first())
    }
}

/// The blocks of a node appended to `out`.
pub open spec fn blocks_of(n: NodeV, md: Seq<Seq<char>>, out: Seq<BlockV>) -> Seq<BlockV>
    decreases n, 2int,
{
    match n.tag {
        NodeTag::Document => blocks_list(n.children, md, out),
        NodeTag::FrontMatter => out,
        NodeTag::BlockQuote | NodeTag::MultilineBlockQuote => {
            let lines = quote_list(n.children, 0, md, Seq::empty());
            if lines.len() > 0 {
                out.push(BlockV::Blockquote { lines, source: source_of(n) })
            } else {
                out
            }
        },
        NodeTag::List => flatten_list(n, 0, out),
        NodeTag::Paragraph => match display_math_expr(n) {
            Some(expr) => out.push(BlockV::DisplayMath { expr, source: source_of(n) }),
            None => {
                let spans = paragraph_spans(n);
                if spans.len() > 0 {
                    out.push(BlockV::Paragraph { spans, source: source_of(n) })
                } else {
                    out
                }
            },
        },
        NodeTag::Math => math_block_of(n, out),
        NodeTag::Heading => {
            let spans = paragraph_spans(n);
            if spans.len() > 0 {
                out.push(BlockV::Heading { level: n.number as usize, spans, source: source_of(n) })
            } else {
                out
            }
        },
        NodeTag::CodeBlock => out.push(code_block_of(n, md)),
        NodeTag::Table => match table_of(n) {
            Some(t) => out.push(t),
            None => out,
        },
        NodeTag::ThematicBreak => out.push(
            BlockV::ThematicBreak {
                style: thematic_style_at(md, n.start_line),
                source: source_of(n),
            },
        ),
        NodeTag::HtmlBlock => if trim(n.text).len() > 0 {
            out.push(
                BlockV::Paragraph {
                    spans: push_span(Seq::empty(), trim(n.text), plain_style()),
                    source: source_of(n),
                },
            )
        } else {
            out
        },
        NodeTag::Item => {
            let spans = item_spans(n);
            if spans.len() > 0 {
                out.push(BlockV::ListItem { indent: 0, spans, source: source_of(n) })
            } else {
                out
            }
        },
        _ => blocks_list(n.children, md, out),
    }
}

/// The blocks of a sequence of nodes appended to `out`.
pub open spec fn blocks_list(ns: Seq<NodeV>, md: Seq<Seq<char>>, out: Seq<BlockV>) -> Seq<BlockV>
    decreases ns, 0int,
{
    if ns.len() == 0 {
        out
    } else {
        blocks_list(ns.drop_first(), md, blocks_of(ns[0], md, out))
    }
}

/// The items of a list node, flattened: bullet items that have runs, and every numbered
/// item (numbered from the list's start, at least 1), nested lists one indent deeper.
pub open spec fn flatten_list(n: NodeV, indent: u8, out: Seq<BlockV>) -> Seq<BlockV>
    decreases n, 1int,
{
    if n.tag != NodeTag::List {
        out
    } else if n.flag {
        flatten_items(n.children, Some(if n.number < 1 { 1u32 } else { n.number }), indent, out)
    } else {
        flatten_items(n.children, None, indent, out)
    }
}

/// The flattened items of a list: `num` is the number of the next numbered item (`None`
/// for a bullet list). Children that are not items are skipped and take no number.
pub open spec fn flatten_items(
    items: Seq<NodeV>,
    num: Option<u32>,
    indent: u8,
    out: Seq<BlockV>,
) -> Seq<BlockV>
    decreases items, 0int,
{
    if items.len() == 0 {
        out
    } else if items[0].tag != NodeTag::Item {
        flatten_items(items.drop_first(), num, indent, out)
    } else {
        flatten_items(
            items.drop_first(),
            match num {
                Some(k) => Some(inc_u32(k)),
                None => None,
            },
            indent,
            flatten_item(items[0], num, indent, out),
        )
    }
}

/// The blocks of one item: one per paragraph child, and the flattened nested lists.
pub open spec fn flatten_item(item: NodeV, num: Option<u32>, indent: u8, out: Seq<BlockV>) -> Seq<
    BlockV,
>
    decreases item, 3int,
{
    item_children(item.children, num, indent, out)
}

pub open spec fn item_children(cs: Seq<NodeV>, num: Option<u32>, indent: u8, out: Seq<BlockV>) -> Seq<
    BlockV,
>
    decreases cs, 0int,
{
    if cs.len() == 0 {
        out
    } else {
        let c = cs[0];
        let out1 = if c.tag == NodeTag::Paragraph {
            let spans = paragraph_spans(c);
            match num {
                Some(k) => out.push(
                    BlockV::OrderedListItem { n: k, indent, spans, source: source_of(c) },
                ),
                None => if spans.len() > 0 {
                    out.push(BlockV::ListItem { indent, spans, source: source_of(c) })
                } else {
                    out
                },
            }
        } else if c.tag == NodeTag::List {
            flatten_list(c, inc_u8(indent), out)
        } else {
            out
        };
        item_children(cs.drop_first(), num, indent, out1)
    }
}

/// The lines of a block quote's children at quote depth `level`, appended to `out`.
pub open spec fn quote_list(ns: Seq<NodeV>, level: u8, md: Seq<Seq<char>>, out: Seq<QuoteLineV>) -> Seq<
    QuoteLineV,
>
    decreases ns, 0int,
{
    if ns.len() == 0 {
        out
    } else {
        quote_list(ns.drop_first(), level, md, quote_node(ns[0], level, md, out))
    }
}

/// The lines of one child of a block quote: a paragraph as display math or wrapped text,
/// a nested quote one level deeper, a list as quoted items, anything else through the
/// blocks it makes.
pub open spec fn quote_node(c: NodeV, level: u8, md: Seq<Seq<char>>, out: Seq<QuoteLineV>) -> Seq<
    QuoteLineV,
>
    decreases c, 3int,
{
    match c.tag {
        NodeTag::Paragraph => match display_math_expr(c) {
            Some(e) => quote_math(out, e),
            None => quote_text(out, level, paragraph_spans(c)),
        },
        NodeTag::BlockQuote | NodeTag::MultilineBlockQuote => quote_list(
            c.children,
            inc_u8(level),
            md,
            out,
        ),
        NodeTag::List => quote_items(out, level, flatten_list(c, 0, Seq::empty())),
        _ => quote_blocks(out, level, blocks_of(c, md, Seq::empty())),
    }
}

} // verus!

verus! {

pub proof fn lemma_blocks_view_push(s: Seq<MarkdownBlock>, b: MarkdownBlock)
    ensures
        blocks_view(s.push(b)) == blocks_view(s).push(block_view(b)),
{
    assert(blocks_view(s.push(b)) =~= blocks_view(s).push(block_view(b)));
}

pub proof fn lemma_quote_lines_view_push(s: Seq<BlockquoteLine>, l: BlockquoteLine)
    ensures
        quote_lines_view(s.push(l)) == quote_lines_view(s).push(quote_line_view(l)),
{
    assert(quote_lines_view(s.push(l)) =~= quote_lines_view(s).push(quote_line_view(l)));
}

fn push_block_value(blocks: &mut Vec<MarkdownBlock>, b: MarkdownBlock)
    ensures
        blocks_view(final(blocks)@) == blocks_view(old(blocks)@).push(block_view(b)),
{
    let ghost before = blocks@;
    blocks.push(b);
    proof {
        lemma_blocks_view_push(before, blocks@.last());
    }
}

fn push_quote_line(out: &mut Vec<BlockquoteLine>, l: BlockquoteLine)
    ensures
        quote_lines_view(final(out)@) == quote_lines_view(old(out)@).push(quote_line_view(l)),
{
    let ghost before = out@;
    out.push(l);
    proof {
        lemma_quote_lines_view_push(before, out@.last());
    }
}

impl BlockSource {
    /// The source lines of a node, each at least 1.
    pub fn from_node(node: &MdNode) -> (r: BlockSource)
        ensures
            r == source_of(node@),
    {
        BlockSource {
            start_line: if node.start_line < 1 { 1 } else { node.start_line },
            end_line: if node.end_line < 1 { 1 } else { node.end_line },
        }
    }
}

/// The text of a paragraph: its `Text` children, a line feed for each line break.
pub fn paragraph_raw_text(node: &MdNode) -> (r: Vec<char>)
    ensures
        r@ == raw_text(node@.children),
{
    let mut r: Vec<char> = Vec::new();
    let mut i: usize = 0;
    proof {
        crate::ast::lemma_nodes_view(node.children@);
    }
    assert(node@.children.skip(0) == node@.children);
    while i < node.children.len()
        invariant
            i <= node.children.len(),
            node@.children.len() == node.children@.len(),
            forall|k: int| 0 <= k < node.children.len() ==> #[trigger] node@.children[k]
                == crate::ast::node_view(node.children@[k]),
            r@ + raw_text(node@.children.skip(i as int)) == raw_text(node@.children),
        decreases node.children.len() - i,
    {
        let ghost rest = node@.children.skip(i as int);
        let ghost before = r@;
        assert(rest[0] == node@.children[i as int]);
        assert(rest.drop_first() == node@.children.skip(i + 1));
        let c = &node.children[i];
        if c.tag == NodeTag::Text {
            crate::text::extend_vec(&mut r, &c.text);
        } else if c.tag == NodeTag::SoftBreak || c.tag == NodeTag::LineBreak {
            r.push('\n');
        }
        assert(before + raw_text(rest) == r@ + raw_text(node@.children.skip(i + 1)));
        i += 1;
    }
    assert(node@.children.skip(node.children.len() as int) =~= Seq::<NodeV>::empty());
    assert(r@ + Seq::<char>::empty() == r@);
    r
}

/// `t` without the prefix `a b` and the suffix `c d`, when it has both.
pub fn strip_delimiters_exec(t: &Vec<char>, a: char, b: char, c: char, d: char) -> (r: Option<
    Vec<char>,
>)
    ensures
        r matches Some(e) ==> strip_delimiters(t@, seq![a, b], seq![c, d]) == Some(e@),
        r is None ==> strip_delimiters(t@, seq![a, b], seq![c, d]) is None,
{
    let n = t.len();
    if n >= 4 && t[0] == a && t[1] == b && t[n - 2] == c && t[n - 1] == d {
        assert(t@.take(2) =~= seq![a, b]);
        assert(t@.skip(n - 2) =~= seq![c, d]);
        Some(crate::text::slice_vec(t, 2, n - 2))
    } else {
        proof {
            if n >= 4 && t@.take(2) == seq![a, b] && t@.skip(n - 2) == seq![c, d] {
                assert(t@.take(2)[0] == t@[0] && t@.take(2)[1] == t@[1]);
                assert(t@.skip(n - 2)[0] == t@[n - 2] && t@.skip(n - 2)[1] == t@[n - 1]);
            }
        }
        None
    }
}

/// The display-math expression of a paragraph (see [`display_math_expr`]).
pub fn paragraph_display_math_expr(node: &MdNode) -> (r: Option<Vec<char>>)
    ensures
        r matches Some(e) ==> display_math_expr(node@) == Some(e@),
        r is None ==> display_math_expr(node@) is None,
{
    let raw = paragraph_raw_text(node);
    let t = crate::text::trim_vec(&raw);
    let st = strip_delimiters_exec(&t, '\\', '[', '\\', ']');
    if let Some(e) = st {
        let e2 = crate::text::trim_vec(&e);
        if e2.len() > 0 {
            return Some(e2);
        }
    }
    let mut expr: Vec<char> = Vec::new();
    let mut saw = false;
    let mut i: usize = 0;
    proof {
        crate::ast::lemma_nodes_view(node.children@);
    }
    assert(node@.children.skip(0) == node@.children);
    while i < node.children.len()
        invariant
            i <= node.children.len(),
            node@.children.len() == node.children@.len(),
            forall|k: int| 0 <= k < node.children.len() ==> #[trigger] node@.children[k]
                == crate::ast::node_view(node.children@[k]),
            gather_display_math(node@.children.skip(i as int), expr@, saw) == gather_display_math(
                node@.children,
                Seq::empty(),
                false,
            ),
            match strip_delimiters(trim(raw_text(node@.children)), seq!['\\', '['], seq!['\\', ']']) {
                Some(e) => trim(e).len() == 0,
                None => true,
            },
        decreases node.children.len() - i,
    {
        let ghost rest = node@.children.skip(i as int);
        assert(rest[0] == node@.children[i as int]);
        assert(rest.drop_first() == node@.children.skip(i + 1));
        let c = &node.children[i];
        if c.tag == NodeTag::Math && c.flag {
            let lit = crate::text::trim_vec(&c.text);
            crate::text::extend_vec(&mut expr, &lit);
            saw = true;
        } else if c.tag == NodeTag::SoftBreak || c.tag == NodeTag::LineBreak {
            if saw {
                expr.push('\n');
            }
        } else if c.tag == NodeTag::Text && crate::text::trim_vec(&c.text).len() == 0 {
        } else {
            assert(gather_display_math(rest, expr@, saw) is None);
            return None;
        }
        i += 1;
    }
    assert(node@.children.skip(node.children.len() as int) =~= Seq::<NodeV>::empty());
    if saw {
        let e = crate::text::trim_vec(&expr);
        if e.len() > 0 {
            Some(e)
        } else {
            None
        }
    } else {
        None
    }
}

/// The style of a thematic break line (see [`thematic_style`]).
pub fn classify_thematic_break_style(line: &Vec<char>) -> (s: ThematicBreakStyle)
    ensures
        s == thematic_style(line@),
{
    let mut any_star = false;
    let mut all_star = true;
    let mut any_us = false;
    let mut all_us = true;
    let mut i: usize = 0;
    while i < line.len()
        invariant
            i <= line.len(),
            any_star == exists|k: int| 0 <= k < i && line@[k] == '*',
            any_us == exists|k: int| 0 <= k < i && line@[k] == '_',
            all_star == forall|k: int| 0 <= k < i && !is_space(#[trigger] line@[k]) ==> line@[k]
                == '*',
            all_us == forall|k: int| 0 <= k < i && !is_space(#[trigger] line@[k]) ==> line@[k]
                == '_',
        decreases line.len() - i,
    {
        let c = line[i];
        if c == '*' {
            any_star = true;
        }
        if c == '_' {
            any_us = true;
        }
        if !crate::text::is_space_char(c) {
            if c != '*' {
                all_star = false;
            }
            if c != '_' {
                all_us = false;
            }
        }
        i += 1;
    }
    if any_star && all_star {
        ThematicBreakStyle::Asterisk
    } else if any_us && all_us {
        ThematicBreakStyle::Underscore
    } else {
        ThematicBreakStyle::Hyphen
    }
}

/// The code block of a code-block node (see [`code_block_of`]); `markdown_lines` are the
/// source lines.
pub fn code_block_from_node(node: &MdNode, markdown_lines: &Vec<Vec<char>>) -> (b: MarkdownBlock)
    ensures
        block_view(b) == code_block_of(node@, crate::text::lines_view(markdown_lines@)),
{
    let ghost md = crate::text::lines_view(markdown_lines@);
    let mut math = vec!['m', 'a', 't', 'h'];
    assert(math@ =~= "math"@) by {
        reveal_strlit("math");
    }
    let ghost m = math@;
    let tail = crate::ast::math_style_tail_vec();
    crate::text::extend_vec(&mut math, &tail);
    let mut info = crate::ast::clone_chars(&node.info);
    if crate::text::same_chars(&node.info, &math) {
        let empty: Vec<char> = Vec::new();
        let line: &Vec<char> = if 1 <= node.start_line && ((node.start_line - 1) as usize) < markdown_lines.len() {
            &markdown_lines[(node.start_line - 1) as usize]
        } else {
            &empty
        };
        proof {
            if 1 <= node.start_line && ((node.start_line - 1) as usize) < markdown_lines.len() {
                assert(line@ == md[node.start_line - 1]);
            } else {
                assert(line@ =~= Seq::<char>::empty());
            }
        }
        let style = crate::text::chars_of("math_style");
        if crate::text::find_from_vec(line, &style, 0).is_none() {
            info = vec!['m', 'a', 't', 'h'];
            assert(info@ =~= m);
        }
    }
    let info = crate::text::trim_vec(&info);
    let lang = crate::text::ascii_lowercase_vec(&info);
    MarkdownBlock::CodeBlock {
        lang: crate::text::string_of(&lang),
        code: crate::text::string_of(&node.text),
        source: BlockSource::from_node(node),
    }
}

} // verus!

verus! {

/// Appends copies of the runs of `src` to `dst`, without joining them.
pub fn append_spans(dst: &mut Vec<InlineSpan>, src: &Vec<InlineSpan>)
    ensures
        spans_view(final(dst)@) == spans_view(old(dst)@) + spans_view(src@),
{
    let mut i: usize = 0;
    while i < src.len()
        invariant
            i <= src.len(),
            spans_view(dst@) == spans_view(old(dst)@) + spans_view(src@).take(i as int),
        decreases src.len() - i,
    {
        let ghost before = dst@;
        dst.push(crate::spans::copy_span(&src[i]));
        proof {
            crate::spans::lemma_spans_view_push(before, dst@.last());
            assert(spans_view(src@).take(i + 1) =~= spans_view(src@).take(i as int).push(
                src@[i as int]@,
            ));
        }
        i += 1;
    }
    assert(spans_view(src@).take(src.len() as int) =~= spans_view(src@));
}

/// The cell runs of a table cell node (see [`cell_inline`]).
fn cell_spans(cell: &MdNode) -> (r: Vec<InlineSpan>)
    ensures
        spans_view(r@) == merged(cell_inline(cell@.children, Seq::empty())),
{
    let mut spans: Vec<InlineSpan> = Vec::new();
    let mut i: usize = 0;
    proof {
        crate::ast::lemma_nodes_view(cell.children@);
    }
    assert(cell@.children.skip(0) == cell@.children);
    assert(spans_view(spans@) =~= Seq::<SpanV>::empty());
    while i < cell.children.len()
        invariant
            i <= cell.children.len(),
            cell@.children.len() == cell.children@.len(),
            forall|k: int| 0 <= k < cell.children.len() ==> #[trigger] cell@.children[k]
                == crate::ast::node_view(cell.children@[k]),
            cell_inline(cell@.children.skip(i as int), spans_view(spans@)) == cell_inline(
                cell@.children,
                Seq::empty(),
            ),
        decreases cell.children.len() - i,
    {
        let ghost rest = cell@.children.skip(i as int);
        assert(rest[0] == cell@.children[i as int]);
        assert(rest.drop_first() == cell@.children.skip(i + 1));
        let c = &cell.children[i];
        if c.tag == NodeTag::Paragraph {
            crate::inline::collect_children(c, TextStyle::default(), &mut spans);
        } else {
            crate::inline::collect_inline_spans(c, TextStyle::default(), &mut spans);
        }
        i += 1;
    }
    assert(cell@.children.skip(cell.children.len() as int) =~= Seq::<NodeV>::empty());
    crate::spans::merge_adjacent_spans(&mut spans);
    spans
}

pub open spec fn cells_view(v: Seq<Vec<InlineSpan>>) -> Seq<Seq<SpanV>> {
    v.map_values(|c: Vec<InlineSpan>| spans_view(c@))
}

fn row_cells_exec(row: &MdNode) -> (r: Vec<Vec<InlineSpan>>)
    ensures
        cells_view(r@) == row_cells(row@.children),
{
    let mut cells: Vec<Vec<InlineSpan>> = Vec::new();
    let mut i: usize = 0;
    proof {
        crate::ast::lemma_nodes_view(row.children@);
    }
    assert(row@.children.skip(0) == row@.children);
    assert(cells_view(cells@) =~= Seq::<Seq<SpanV>>::empty());
    while i < row.children.len()
        invariant
            i <= row.children.len(),
            row@.children.len() == row.children@.len(),
            forall|k: int| 0 <= k < row.children.len() ==> #[trigger] row@.children[k]
                == crate::ast::node_view(row.children@[k]),
            cells_view(cells@) + row_cells(row@.children.skip(i as int)) == row_cells(
                row@.children,
            ),
        decreases row.children.len() - i,
    {
        let ghost rest = row@.children.skip(i as int);
        let ghost before = cells_view(cells@);
        assert(rest[0] == row@.children[i as int]);
        assert(rest.drop_first() == row@.children.skip(i + 1));
        let c = &row.children[i];
        if c.tag == NodeTag::TableCell {
            let sp = cell_spans(c);
            cells.push(sp);
            assert(cells_view(cells@) =~= before.push(cells@.last()@.map_values(
                |x: InlineSpan| x@,
            )));
            assert(before + row_cells(rest) =~= cells_view(cells@) + row_cells(
                row@.children.skip(i + 1),
            ));
        }
        i += 1;
    }
    assert(row@.children.skip(row.children.len() as int) =~= Seq::<NodeV>::empty());
    assert(cells_view(cells@) + Seq::<Seq<SpanV>>::empty() =~= cells_view(cells@));
    cells
}

/// The table block of a table node (see [`table_of`]).
pub fn table_from_node(table: &MdNode) -> (r: Option<MarkdownBlock>)
    ensures
        r matches Some(b) ==> table_of(table@) == Some(block_view(b)),
        r is None ==> table_of(table@) is None,
{
    let mut rows: Vec<Vec<Vec<InlineSpan>>> = Vec::new();
    let mut i: usize = 0;
    proof {
        crate::ast::lemma_nodes_view(table.children@);
    }
    assert(table@.children.skip(0) == table@.children);
    assert(rows_view(rows@) =~= Seq::<Seq<Seq<SpanV>>>::empty());
    while i < table.children.len()
        invariant
            i <= table.children.len(),
            table@.children.len() == table.children@.len(),
            forall|k: int| 0 <= k < table.children.len() ==> #[trigger] table@.children[k]
                == crate::ast::node_view(table.children@[k]),
            rows_view(rows@) + table_rows(table@.children.skip(i as int)) == table_rows(
                table@.children,
            ),
        decreases table.children.len() - i,
    {
        let ghost rest = table@.children.skip(i as int);
        let ghost before = rows_view(rows@);
        assert(rest[0] == table@.children[i as int]);
        assert(rest.drop_first() == table@.children.skip(i + 1));
        let row = &table.children[i];
        if row.tag == NodeTag::TableRow {
            let cells = row_cells_exec(row);
            if cells.len() > 0 {
                rows.push(cells);
                assert(row_view(rows@.last()) =~= cells_view(rows@.last()@));
                assert(rows_view(rows@) =~= before.push(row_view(rows@.last())));
                assert(before + table_rows(rest) =~= rows_view(rows@) + table_rows(
                    table@.children.skip(i + 1),
                ));
            }
        }
        i += 1;
    }
    assert(table@.children.skip(table.children.len() as int) =~= Seq::<NodeV>::empty());
    assert(rows_view(rows@) + Seq::<Seq<Seq<SpanV>>>::empty() =~= rows_view(rows@));
    if rows.len() == 0 {
        None
    } else {
        Some(MarkdownBlock::Table { rows, source: BlockSource::from_node(table) })
    }
}

/// Appends the block of a math node (see [`math_block_of`]).
pub fn push_math_block(node: &MdNode, blocks: &mut Vec<MarkdownBlock>)
    requires
        node@.tag == NodeTag::Math,
    ensures
        blocks_view(final(blocks)@) == math_block_of(node@, blocks_view(old(blocks)@)),
{
    let source = BlockSource::from_node(node);
    if node.flag {
        push_block_value(
            blocks,
            MarkdownBlock::DisplayMath { expr: crate::text::string_of(&node.text), source },
        );
    } else if crate::text::trim_vec(&node.text).len() > 0 {
        let mut spans: Vec<InlineSpan> = Vec::new();
        assert(spans_view(spans@) =~= Seq::<SpanV>::empty());
        crate::spans::push_chars(
            &mut spans,
            &node.text,
            TextStyle { bold: false, italic: false, code: false, link: false, math: true },
        );
        push_block_value(blocks, MarkdownBlock::Paragraph { spans, source });
    }
}

} // verus!

verus! {

fn quote_prefix_vec(level: u8) -> (v: Vec<char>)
    ensures
        v@ == quote_prefix(level),
{
    let mut v: Vec<char> = Vec::new();
    let mut k: u8 = 0;
    while k < level
        invariant
            k <= level,
            v@ == Seq::new((2 * k) as nat, |i: int| if i % 2 == 0 { '>' } else { ' ' }),
        decreases level - k,
    {
        v.push('>');
        v.push(' ');
        assert(v@ =~= Seq::new((2 * (k + 1)) as nat, |i: int| if i % 2 == 0 { '>' } else { ' ' }));
        k += 1;
    }
    v.push(' ');
    v
}

fn list_pad_vec(indent: u8) -> (v: Vec<char>)
    ensures
        v@ == list_pad(indent),
{
    let mut v: Vec<char> = Vec::new();
    let mut k: u8 = 0;
    while k < indent
        invariant
            k <= indent,
            v@ == Seq::new((2 * k) as nat, |i: int| ' '),
        decreases indent - k,
    {
        v.push(' ');
        v.push(' ');
        assert(v@ =~= Seq::new((2 * (k + 1)) as nat, |i: int| ' '));
        k += 1;
    }
    v
}

/// Adds quoted text, wrapped at [`BLOCKQUOTE_WRAP_COLS`] (see [`quote_text`]).
pub fn append_blockquote_text(out: &mut Vec<BlockquoteLine>, level: u8, spans: Vec<InlineSpan>)
    ensures
        quote_lines_view(final(out)@) == quote_text(
            quote_lines_view(old(out)@),
            level,
            spans_view(spans@),
        ),
{
    if spans.len() == 0 {
        return;
    }
    let mut s: Vec<InlineSpan> = Vec::new();
    if level > 0 {
        let p = quote_prefix_vec(level);
        s.push(InlineSpan { text: crate::text::string_of(&p), style: TextStyle::default() });
    }
    let ghost first = spans_view(s@);
    append_spans(&mut s, &spans);
    assert(spans_view(s@) == (if level > 0 {
        seq![SpanV { text: quote_prefix(level), style: plain_style() }] + spans_view(spans@)
    } else {
        spans_view(spans@)
    })) by {
        if level > 0 {
            assert(first =~= seq![SpanV { text: quote_prefix(level), style: plain_style() }]);
        } else {
            assert(first =~= Seq::<SpanV>::empty());
            assert(first + spans_view(spans@) =~= spans_view(spans@));
        }
    }
    let lines = crate::layout::layout_spans_lines(&s, BLOCKQUOTE_WRAP_COLS);
    let ghost w = wrapped_spans(spans_view(s@));
    let ghost base = quote_lines_view(out@);
    let mut k: usize = 0;
    while k < lines.len()
        invariant
            k <= lines.len() == w.len(),
            forall|j: int| 0 <= j < lines@.len() ==> spans_view(#[trigger] lines@[j]@) == w[j],
            quote_lines_view(out@) == base + w.take(k as int).map_values(
                |l: Seq<SpanV>| QuoteLineV::Text(l),
            ),
        decreases lines.len() - k,
    {
        let ghost before = quote_lines_view(out@);
        push_quote_line(out, BlockquoteLine::Text(crate::spans::copy_spans(&lines[k])));
        assert(w.take(k + 1).map_values(|l: Seq<SpanV>| QuoteLineV::Text(l)) =~= w.take(
            k as int,
        ).map_values(|l: Seq<SpanV>| QuoteLineV::Text(l)).push(QuoteLineV::Text(w[k as int])));
        k += 1;
    }
    assert(w.take(lines.len() as int) =~= w);
}

/// Adds a display-math line (see [`quote_math`]).
pub fn append_blockquote_math(out: &mut Vec<BlockquoteLine>, expr: &Vec<char>)
    ensures
        quote_lines_view(final(out)@) == quote_math(quote_lines_view(old(out)@), expr@),
{
    let e = crate::text::trim_vec(expr);
    if e.len() == 0 {
        return;
    }
    push_quote_line(out, BlockquoteLine::DisplayMath(crate::text::string_of(&e)));
}

/// Adds a code line (see [`quote_code`]).
pub fn append_blockquote_code_block(out: &mut Vec<BlockquoteLine>, code: &Vec<char>)
    ensures
        quote_lines_view(final(out)@) == quote_code(quote_lines_view(old(out)@), code@),
{
    let c = crate::layout::trim_newlines_end_exec(code);
    if c.len() == 0 {
        return;
    }
    push_quote_line(out, BlockquoteLine::CodeBlock { code: crate::text::string_of(&c) });
}

/// A copy of a block-quote line.
pub fn copy_quote_line(l: &BlockquoteLine) -> (r: BlockquoteLine)
    ensures
        quote_line_view(r) == quote_line_view(*l),
{
    match l {
        BlockquoteLine::Text(s) => BlockquoteLine::Text(crate::spans::copy_spans(s)),
        BlockquoteLine::DisplayMath(e) => BlockquoteLine::DisplayMath(e.clone()),
        BlockquoteLine::CodeBlock { code } => BlockquoteLine::CodeBlock { code: code.clone() },
    }
}

fn extend_quote_lines(out: &mut Vec<BlockquoteLine>, src: &Vec<BlockquoteLine>)
    ensures
        quote_lines_view(final(out)@) == quote_lines_view(old(out)@) + quote_lines_view(src@),
{
    let mut i: usize = 0;
    while i < src.len()
        invariant
            i <= src.len(),
            quote_lines_view(out@) == quote_lines_view(old(out)@) + quote_lines_view(src@).take(
                i as int,
            ),
        decreases src.len() - i,
    {
        push_quote_line(out, copy_quote_line(&src[i]));
        assert(quote_lines_view(src@).take(i + 1) =~= quote_lines_view(src@).take(i as int).push(
            quote_line_view(src@[i as int]),
        ));
        i += 1;
    }
    assert(quote_lines_view(src@).take(src.len() as int) =~= quote_lines_view(src@));
}

/// Adds flattened list items as quoted lines (see [`quote_items`]).
fn append_blockquote_items(out: &mut Vec<BlockquoteLine>, level: u8, items: &Vec<MarkdownBlock>)
    ensures
        quote_lines_view(final(out)@) == quote_items(
            quote_lines_view(old(out)@),
            level,
            blocks_view(items@),
        ),
{
    let ghost iv = blocks_view(items@);
    let mut i: usize = 0;
    assert(iv.skip(0) == iv);
    while i < items.len()
        invariant
            i <= items.len(),
            iv == blocks_view(items@),
            quote_items(quote_lines_view(out@), level, iv.skip(i as int)) == quote_items(
                quote_lines_view(old(out)@),
                level,
                iv,
            ),
        decreases items.len() - i,
    {
        let ghost rest = iv.skip(i as int);
        assert(rest[0] == iv[i as int]);
        assert(rest.drop_first() == iv.skip(i + 1));
        match &items[i] {
            MarkdownBlock::ListItem { indent, spans, .. } => {
                if spans.len() > 0 {
                    let mut line: Vec<InlineSpan> = Vec::new();
                    assert(spans_view(line@) =~= Seq::<SpanV>::empty());
                    if level > 0 {
                        let p = quote_prefix_vec(level);
                        crate::spans::push_chars(&mut line, &p, TextStyle::default());
                    }
                    let mut marker = list_pad_vec(*indent);
                    marker.push('•');
                    marker.push(' ');
                    assert(marker@ =~= list_pad(*indent) + seq!['•', ' ']);
                    crate::spans::push_chars(&mut line, &marker, TextStyle::default());
                    append_spans(&mut line, spans);
                    append_blockquote_text(out, level, line);
                }
            },
            MarkdownBlock::OrderedListItem { n, indent, spans, .. } => {
                let mut line: Vec<InlineSpan> = Vec::new();
                assert(spans_view(line@) =~= Seq::<SpanV>::empty());
                if level > 0 {
                    let p = quote_prefix_vec(level);
                    crate::spans::push_chars(&mut line, &p, TextStyle::default());
                }
                let mut marker = list_pad_vec(*indent);
                crate::text::push_decimal(&mut marker, *n as u64);
                marker.push('.');
                marker.push(' ');
                assert(marker@ =~= list_pad(*indent) + decimal(*n as nat) + seq!['.', ' ']);
                crate::spans::push_chars(&mut line, &marker, TextStyle::default());
                append_spans(&mut line, spans);
                append_blockquote_text(out, level, line);
            },
            _ => {},
        }
        i += 1;
    }
    assert(iv.skip(items.len() as int) =~= Seq::<BlockV>::empty());
}

/// Adds the blocks of a nested node as quoted lines (see [`quote_blocks`]).
fn append_blockquote_blocks(out: &mut Vec<BlockquoteLine>, level: u8, bs: &Vec<MarkdownBlock>)
    ensures
        quote_lines_view(final(out)@) == quote_blocks(
            quote_lines_view(old(out)@),
            level,
            blocks_view(bs@),
        ),
{
    let ghost bv = blocks_view(bs@);
    let mut i: usize = 0;
    assert(bv.skip(0) == bv);
    while i < bs.len()
        invariant
            i <= bs.len(),
            bv == blocks_view(bs@),
            quote_blocks(quote_lines_view(out@), level, bv.skip(i as int)) == quote_blocks(
                quote_lines_view(old(out)@),
                level,
                bv,
            ),
        decreases bs.len() - i,
    {
        let ghost rest = bv.skip(i as int);
        assert(rest[0] == bv[i as int]);
        assert(rest.drop_first() == bv.skip(i + 1));
        match &bs[i] {
            MarkdownBlock::Paragraph { spans, .. } => {
                append_blockquote_text(out, level, crate::spans::copy_spans(spans));
            },
            MarkdownBlock::Heading { spans, .. } => {
                append_blockquote_text(out, level, crate::spans::copy_spans(spans));
            },
            MarkdownBlock::Blockquote { lines, .. } => {
                extend_quote_lines(out, lines);
            },
            MarkdownBlock::CodeBlock { code, .. } => {
                let c = crate::text::chars_of(code.as_str());
                append_blockquote_code_block(out, &c);
            },
            _ => {},
        }
        i += 1;
    }
    assert(bv.skip(bs.len() as int) =~= Seq::<BlockV>::empty());
}

} // verus!

verus! {

/// Appends the blocks of a node (see [`blocks_of`]); `markdown_lines` are the source lines.
pub fn push_block(node: &MdNode, blocks: &mut Vec<MarkdownBlock>, markdown_lines: &Vec<Vec<char>>)
    ensures
        blocks_view(final(blocks)@) == blocks_of(
            node@,
            crate::text::lines_view(markdown_lines@),
            blocks_view(old(blocks)@),
        ),
    decreases node, 2int,
{
    proof {
        crate::ast::lemma_nodes_view(node.children@);
    }
    match node.tag {
        NodeTag::Document => push_blocks_from_children(node, blocks, markdown_lines),
        NodeTag::FrontMatter => {},
        NodeTag::BlockQuote | NodeTag::MultilineBlockQuote => {
            let mut lines: Vec<BlockquoteLine> = Vec::new();
            assert(quote_lines_view(lines@) =~= Seq::<QuoteLineV>::empty());
            collect_blockquote_content(node, 0, &mut lines, markdown_lines);
            if lines.len() > 0 {
                push_block_value(
                    blocks,
                    MarkdownBlock::Blockquote { lines, source: BlockSource::from_node(node) },
                );
            }
        },
        NodeTag::List => flatten_list_blocks(node, 0, blocks),
        NodeTag::Paragraph => {
            if let Some(expr) = paragraph_display_math_expr(node) {
                push_block_value(
                    blocks,
                    MarkdownBlock::DisplayMath {
                        expr: crate::text::string_of(&expr),
                        source: BlockSource::from_node(node),
                    },
                );
            } else {
                let spans = crate::inline::paragraph_spans_exec(node);
                if spans.len() > 0 {
                    push_block_value(
                        blocks,
                        MarkdownBlock::Paragraph { spans, source: BlockSource::from_node(node) },
                    );
                }
            }
        },
        NodeTag::Math => push_math_block(node, blocks),
        NodeTag::Heading => {
            let spans = crate::inline::paragraph_spans_exec(node);
            if spans.len() > 0 {
                push_block_value(
                    blocks,
                    MarkdownBlock::Heading {
                        level: node.number as usize,
                        spans,
                        source: BlockSource::from_node(node),
                    },
                );
            }
        },
        NodeTag::CodeBlock => push_block_value(blocks, code_block_from_node(node, markdown_lines)),
        NodeTag::Table => {
            if let Some(t) = table_from_node(node) {
                push_block_value(blocks, t);
            }
        },
        NodeTag::ThematicBreak => {
            let idx: usize = if node.start_line >= 1 {
                (node.start_line - 1) as usize
            } else {
                0
            };
            let style = if idx < markdown_lines.len() {
                classify_thematic_break_style(&markdown_lines[idx])
            } else {
                ThematicBreakStyle::Hyphen
            };
            push_block_value(
                blocks,
                MarkdownBlock::ThematicBreak { style, source: BlockSource::from_node(node) },
            );
        },
        NodeTag::HtmlBlock => {
            let t = crate::text::trim_vec(&node.text);
            if t.len() > 0 {
                let mut v: Vec<InlineSpan> = Vec::new();
                assert(spans_view(v@) =~= Seq::<SpanV>::empty());
                crate::spans::push_chars(&mut v, &t, TextStyle::default());
                push_block_value(
                    blocks,
                    MarkdownBlock::Paragraph { spans: v, source: BlockSource::from_node(node) },
                );
            }
        },
        NodeTag::Item => {
            let spans = crate::inline::item_first_paragraph_spans(node);
            if spans.len() > 0 {
                push_block_value(
                    blocks,
                    MarkdownBlock::ListItem {
                        indent: 0,
                        spans,
                        source: BlockSource::from_node(node),
                    },
                );
            }
        },
        _ => push_blocks_from_children(node, blocks, markdown_lines),
    }
}

/// Appends the blocks of each child of `node`.
pub fn push_blocks_from_children(
    node: &MdNode,
    blocks: &mut Vec<MarkdownBlock>,
    markdown_lines: &Vec<Vec<char>>,
)
    ensures
        blocks_view(final(blocks)@) == blocks_list(
            node@.children,
            crate::text::lines_view(markdown_lines@),
            blocks_view(old(blocks)@),
        ),
    decreases node, 1int,
{
    let ghost md = crate::text::lines_view(markdown_lines@);
    let mut i: usize = 0;
    proof {
        crate::ast::lemma_nodes_view(node.children@);
    }
    assert(node@.children.skip(0) == node@.children);
    while i < node.children.len()
        invariant
            i <= node.children.len(),
            md == crate::text::lines_view(markdown_lines@),
            node@.children.len() == node.children@.len(),
            forall|k: int| 0 <= k < node.children.len() ==> #[trigger] node@.children[k]
                == crate::ast::node_view(node.children@[k]),
            blocks_list(node@.children.skip(i as int), md, blocks_view(blocks@)) == blocks_list(
                node@.children,
                md,
                blocks_view(old(blocks)@),
            ),
        decreases node.children.len() - i,
    {
        let ghost rest = node@.children.skip(i as int);
        assert(rest[0] == node@.children[i as int]);
        assert(rest.drop_first() == node@.children.skip(i + 1));
        push_block(&node.children[i], blocks, markdown_lines);
        i += 1;
    }
    assert(node@.children.skip(node.children.len() as int) =~= Seq::<NodeV>::empty());
}

/// Appends the flattened items of a list node (see [`flatten_list`]).
pub fn flatten_list_blocks(list_node: &MdNode, indent: u8, blocks: &mut Vec<MarkdownBlock>)
    ensures
        blocks_view(final(blocks)@) == flatten_list(list_node@, indent, blocks_view(old(blocks)@)),
    decreases list_node, 1int,
{
    if list_node.tag != NodeTag::List {
        return;
    }
    let mut num: Option<u32> = if list_node.flag {
        Some(if list_node.number < 1 { 1u32 } else { list_node.number })
    } else {
        None
    };
    let ghost num0 = num;
    let mut i: usize = 0;
    proof {
        crate::ast::lemma_nodes_view(list_node.children@);
    }
    assert(list_node@.children.skip(0) == list_node@.children);
    while i < list_node.children.len()
        invariant
            i <= list_node.children.len(),
            list_node@.tag == NodeTag::List,
            num0 == (if list_node@.flag {
                Some(if list_node@.number < 1 { 1u32 } else { list_node@.number })
            } else {
                None::<u32>
            }),
            list_node@.children.len() == list_node.children@.len(),
            forall|k: int| 0 <= k < list_node.children.len() ==> #[trigger] list_node@.children[k]
                == crate::ast::node_view(list_node.children@[k]),
            flatten_items(list_node@.children.skip(i as int), num, indent, blocks_view(blocks@))
                == flatten_items(list_node@.children, num0, indent, blocks_view(old(blocks)@)),
        decreases list_node.children.len() - i,
    {
        let ghost rest = list_node@.children.skip(i as int);
        assert(rest[0] == list_node@.children[i as int]);
        assert(rest.drop_first() == list_node@.children.skip(i + 1));
        let item = &list_node.children[i];
        if item.tag == NodeTag::Item {
            flatten_item_blocks(item, num, indent, blocks);
            num = match num {
                Some(k) => Some(if k < u32::MAX { k + 1 } else { u32::MAX }),
                None => None,
            };
        }
        i += 1;
    }
    assert(list_node@.children.skip(list_node.children.len() as int) =~= Seq::<NodeV>::empty());
}

/// Appends the blocks of one list item (see [`flatten_item`]).
fn flatten_item_blocks(item: &MdNode, num: Option<u32>, indent: u8, blocks: &mut Vec<MarkdownBlock>)
    ensures
        blocks_view(final(blocks)@) == flatten_item(item@, num, indent, blocks_view(old(blocks)@)),
    decreases item, 3int,
{
    let mut i: usize = 0;
    proof {
        crate::ast::lemma_nodes_view(item.children@);
    }
    assert(item@.children.skip(0) == item@.children);
    while i < item.children.len()
        invariant
            i <= item.children.len(),
            item@.children.len() == item.children@.len(),
            forall|k: int| 0 <= k < item.children.len() ==> #[trigger] item@.children[k]
                == crate::ast::node_view(item.children@[k]),
            item_children(item@.children.skip(i as int), num, indent, blocks_view(blocks@))
                == item_children(item@.children, num, indent, blocks_view(old(blocks)@)),
        decreases item.children.len() - i,
    {
        let ghost rest = item@.children.skip(i as int);
        assert(rest[0] == item@.children[i as int]);
        assert(rest.drop_first() == item@.children.skip(i + 1));
        let child = &item.children[i];
        if child.tag == NodeTag::Paragraph {
            let spans = crate::inline::paragraph_spans_exec(child);
            match num {
                Some(k) => {
                    push_block_value(
                        blocks,
                        MarkdownBlock::OrderedListItem {
                            n: k,
                            indent,
                            spans,
                            source: BlockSource::from_node(child),
                        },
                    );
                },
                None => {
                    if spans.len() > 0 {
                        push_block_value(
                            blocks,
                            MarkdownBlock::ListItem {
                                indent,
                                spans,
                                source: BlockSource::from_node(child),
                            },
                        );
                    }
                },
            }
        } else if child.tag == NodeTag::List {
            let next: u8 = if indent < 255 { indent + 1 } else { 255 };
            flatten_list_blocks(child, next, blocks);
        }
        i += 1;
    }
    assert(item@.children.skip(item.children.len() as int) =~= Seq::<NodeV>::empty());
}

/// Appends the lines of a block quote's children at depth `level` (see [`quote_list`]).
pub fn collect_blockquote_content(
    node: &MdNode,
    level: u8,
    out: &mut Vec<BlockquoteLine>,
    markdown_lines: &Vec<Vec<char>>,
)
    ensures
        quote_lines_view(final(out)@) == quote_list(
            node@.children,
            level,
            crate::text::lines_view(markdown_lines@),
            quote_lines_view(old(out)@),
        ),
    decreases node, 1int,
{
    let ghost md = crate::text::lines_view(markdown_lines@);
    let mut i: usize = 0;
    proof {
        crate::ast::lemma_nodes_view(node.children@);
    }
    assert(node@.children.skip(0) == node@.children);
    while i < node.children.len()
        invariant
            i <= node.children.len(),
            md == crate::text::lines_view(markdown_lines@),
            node@.children.len() == node.children@.len(),
            forall|k: int| 0 <= k < node.children.len() ==> #[trigger] node@.children[k]
                == crate::ast::node_view(node.children@[k]),
            quote_list(node@.children.skip(i as int), level, md, quote_lines_view(out@))
                == quote_list(node@.children, level, md, quote_lines_view(old(out)@)),
        decreases node.children.len() - i,
    {
        let ghost rest = node@.children.skip(i as int);
        assert(rest[0] == node@.children[i as int]);
        assert(rest.drop_first() == node@.children.skip(i + 1));
        quote_child(&node.children[i], level, out, markdown_lines);
        i += 1;
    }
    assert(node@.children.skip(node.children.len() as int) =~= Seq::<NodeV>::empty());
}

/// Appends the lines of one child of a block quote (see [`quote_node`]).
fn quote_child(
    c: &MdNode,
    level: u8,
    out: &mut Vec<BlockquoteLine>,
    markdown_lines: &Vec<Vec<char>>,
)
    ensures
        quote_lines_view(final(out)@) == quote_node(
            c@,
            level,
            crate::text::lines_view(markdown_lines@),
            quote_lines_view(old(out)@),
        ),
    decreases c, 3int,
{
    match c.tag {
        NodeTag::Paragraph => {
            if let Some(expr) = paragraph_display_math_expr(c) {
                append_blockquote_math(out, &expr);
            } else {
                append_blockquote_text(out, level, crate::inline::paragraph_spans_exec(c));
            }
        },
        NodeTag::BlockQuote | NodeTag::MultilineBlockQuote => {
            let next: u8 = if level < 255 { level + 1 } else { 255 };
            collect_blockquote_content(c, next, out, markdown_lines);
        },
        NodeTag::List => {
            let mut flat: Vec<MarkdownBlock> = Vec::new();
            assert(blocks_view(flat@) =~= Seq::<BlockV>::empty());
            flatten_list_blocks(c, 0, &mut flat);
            append_blockquote_items(out, level, &flat);
        },
        _ => {
            let mut tmp: Vec<MarkdownBlock> = Vec::new();
            assert(blocks_view(tmp@) =~= Seq::<BlockV>::empty());
            push_block(c, &mut tmp, markdown_lines);
            append_blockquote_blocks(out, level, &tmp);
        },
    }
}

} // verus!

verus! {

// ---------------------------------------------------------------------------------------
// Blank source lines between blocks.

/// The source lines of a block.
pub open spec fn block_source_of(b: BlockV) -> BlockSource {
    match b {
        BlockV::Heading { source, .. } => source,
        BlockV::Paragraph { source, .. } => source,
        BlockV::Spacer { source, .. } => source,
        BlockV::ListItem { source, .. } => source,
        BlockV::OrderedListItem { source, .. } => source,
        BlockV::ThematicBreak { source, .. } => source,
        BlockV::Table { source, .. } => source,
        BlockV::CodeBlock { source, .. } => source,
        BlockV::DisplayMath { source, .. } => source,
        BlockV::Blockquote { source, .. } => source,
    }
}

/// The source lines of a block.
pub fn block_source(block: &MarkdownBlock) -> (s: BlockSource)
    ensures
        s == block_source_of(block_view(*block)),
{
    match block {
        MarkdownBlock::Heading { source, .. } => *source,
        MarkdownBlock::Paragraph { source, .. } => *source,
        MarkdownBlock::Spacer { source, .. } => *source,
        MarkdownBlock::ListItem { source, .. } => *source,
        MarkdownBlock::OrderedListItem { source, .. } => *source,
        MarkdownBlock::ThematicBreak { source, .. } => *source,
        MarkdownBlock::Table { source, .. } => *source,
        MarkdownBlock::CodeBlock { source, .. } => *source,
        MarkdownBlock::DisplayMath { source, .. } => *source,
        MarkdownBlock::Blockquote { source, .. } => *source,
    }
}

/// Whether source line `line` (1-based; line 0 read as line 1) exists and is blank.
pub open spec fn blank_at(md: Seq<Seq<char>>, line: int) -> bool {
    let idx = if line >= 1 { line - 1 } else { 0 };
    idx < md.len() && trim(md[idx]).len() == 0
}

/// The number of lines in `from..=to` that are blank (see [`blank_at`]).
pub open spec fn blank_count(md: Seq<Seq<char>>, from: int, to: int) -> nat
    decreases to + 1 - from,
{
    if from > to {
        0
    } else {
        (if blank_at(md, from) {
            1nat
        } else {
            0nat
        }) + blank_count(md, from + 1, to)
    }
}

/// The end line with trailing blank lines dropped, not going below `start`.
pub open spec fn trailing_trimmed(md: Seq<Seq<char>>, start: u32, end: u32) -> u32
    decreases end,
{
    if end > start && end - 1 < md.len() && trim(md[end - 1]).len() == 0 {
        trailing_trimmed(md, start, (end - 1) as u32)
    } else {
        end
    }
}

/// The start line with leading blank lines dropped, not going past `end`.
pub open spec fn leading_trimmed(md: Seq<Seq<char>>, start: u32, end: u32) -> u32
    decreases end - start,
{
    if start < end && start >= 1 && start - 1 < md.len() && trim(md[start - 1]).len() == 0 {
        leading_trimmed(md, (start + 1) as u32, end)
    } else {
        start
    }
}

/// The lines a block really covers: code and display math as given, other blocks without
/// blank lines at either end.
pub open spec fn effective_bounds(b: BlockV, md: Seq<Seq<char>>) -> BlockSource {
    let s = block_source_of(b);
    if b is CodeBlock || b is DisplayMath {
        s
    } else {
        let start = leading_trimmed(md, s.start_line, s.end_line);
        BlockSource { start_line: start, end_line: trailing_trimmed(md, start, s.end_line) }
    }
}

/// The spacer that goes between a block ending at `prev` and one starting at `next_start`:
/// one that stands for the blank lines in between (at most [`MAX_SPACER_LINES`]), when
/// there are any.
pub open spec fn gap_spacer(md: Seq<Seq<char>>, prev: u32, next_start: u32) -> Seq<BlockV> {
    let gs = if prev < u32::MAX { (prev + 1) as u32 } else { u32::MAX };
    let ge = if next_start >= 1 { (next_start - 1) as u32 } else { 0u32 };
    let n = blank_count(md, gs as int, ge as int);
    if gs <= ge && n > 0 {
        seq![
            BlockV::Spacer {
                lines: if n < MAX_SPACER_LINES { n as usize } else { MAX_SPACER_LINES },
                source: BlockSource { start_line: gs, end_line: ge },
            },
        ]
    } else {
        Seq::empty()
    }
}

/// The blocks other than spacers, each preceded by a spacer for the blank source lines
/// between it and the block before.
pub open spec fn spaced(bs: Seq<BlockV>, md: Seq<Seq<char>>, prev: Option<u32>) -> Seq<BlockV>
    decreases bs.len(),
{
    if bs.len() == 0 {
        Seq::empty()
    } else if bs[0] is Spacer {
        spaced(bs.drop_first(), md, prev)
    } else {
        let eff = effective_bounds(bs[0], md);
        let gap = match prev {
            Some(p) => gap_spacer(md, p, eff.start_line),
            None => Seq::empty(),
        };
        gap + seq![bs[0]] + spaced(bs.drop_first(), md, Some(eff.end_line))
    }
}

pub proof fn lemma_blank_count_bound(md: Seq<Seq<char>>, from: int, to: int)
    requires
        from >= 0,
    ensures
        blank_count(md, from, to) <= md.len() + 1,
        from >= 1 ==> blank_count(md, from, to) <= (if md.len() + 1 > from {
            md.len() + 1 - from
        } else {
            0
        }),
    decreases to + 1 - from,
{
    if from <= to {
        lemma_blank_count_bound(md, from + 1, to);
    }
}

fn is_blank_line(l: &Vec<char>) -> (b: bool)
    ensures
        b == (trim(l@).len() == 0),
{
    crate::text::trim_vec(l).len() == 0
}

/// The number of blank lines among source lines `start_line..=end_line` (see
/// [`blank_count`]).
pub fn count_blank_source_lines(markdown_lines: &Vec<Vec<char>>, start_line: u32, end_line: u32) -> (n: usize)
    requires
        start_line >= 1 || markdown_lines.len() < usize::MAX,
    ensures
        n == blank_count(crate::text::lines_view(markdown_lines@), start_line as int, end_line as int),
{
    let ghost md = crate::text::lines_view(markdown_lines@);
    if end_line < start_line {
        return 0;
    }
    let mut count: usize = 0;
    let mut line: u64 = end_line as u64 + 1;
    while line > start_line as u64
        invariant
            start_line <= line <= end_line as u64 + 1,
            md == crate::text::lines_view(markdown_lines@),
            start_line >= 1 || markdown_lines.len() < usize::MAX,
            count == blank_count(md, line as int, end_line as int),
        decreases line,
    {
        line -= 1;
        proof {
            lemma_blank_count_bound(md, line as int, end_line as int);
        }
        let idx: usize = if line >= 1 {
            (line - 1) as usize
        } else {
            0
        };
        if idx < markdown_lines.len() && is_blank_line(&markdown_lines[idx]) {
            count += 1;
        }
    }
    count
}

} // verus!

verus! {

/// The end line with trailing blank lines dropped (see [`trailing_trimmed`]).
pub fn trim_trailing_blank_source_lines(markdown_lines: &Vec<Vec<char>>, start_line: u32, end_line: u32) -> (e: u32)
    ensures
        e == trailing_trimmed(crate::text::lines_view(markdown_lines@), start_line, end_line),
        start_line <= end_line ==> start_line <= e <= end_line && forall|l: int|
            e < l <= end_line ==> blank_at(crate::text::lines_view(markdown_lines@), l),
{
    proof {
        law_trailing_trimmed(crate::text::lines_view(markdown_lines@), start_line, end_line);
    }
    let ghost md = crate::text::lines_view(markdown_lines@);
    let mut e = end_line;
    while e > start_line
        invariant
            md == crate::text::lines_view(markdown_lines@),
            trailing_trimmed(md, start_line, e) == trailing_trimmed(md, start_line, end_line),
        ensures
            trailing_trimmed(md, start_line, e) == e,
        decreases e,
    {
        let idx = (e - 1) as usize;
        if idx >= markdown_lines.len() {
            break;
        }
        if is_blank_line(&markdown_lines[idx]) {
            e -= 1;
        } else {
            break;
        }
    }
    e
}

/// The start line with leading blank lines dropped (see [`leading_trimmed`]).
pub fn trim_leading_blank_source_lines(markdown_lines: &Vec<Vec<char>>, start_line: u32, end_line: u32) -> (s: u32)
    ensures
        s == leading_trimmed(crate::text::lines_view(markdown_lines@), start_line, end_line),
        start_line < end_line && start_line >= 1 ==> start_line <= s <= end_line && forall|l: int|
            start_line <= l < s ==> blank_at(crate::text::lines_view(markdown_lines@), l),
{
    proof {
        law_leading_trimmed(crate::text::lines_view(markdown_lines@), start_line, end_line);
    }
    let ghost md = crate::text::lines_view(markdown_lines@);
    let mut s = start_line;
    while s < end_line
        invariant
            md == crate::text::lines_view(markdown_lines@),
            s <= end_line || s == start_line,
            leading_trimmed(md, s, end_line) == leading_trimmed(md, start_line, end_line),
        ensures
            leading_trimmed(md, s, end_line) == s,
        decreases end_line - s,
    {
        if s < 1 {
            break;
        }
        let idx = (s - 1) as usize;
        if idx >= markdown_lines.len() {
            break;
        }
        if is_blank_line(&markdown_lines[idx]) {
            s += 1;
        } else {
            break;
        }
    }
    s
}

/// The lines a block really covers (see [`effective_bounds`]).
pub fn effective_source_bounds(block: &MarkdownBlock, markdown_lines: &Vec<Vec<char>>) -> (r: BlockSource)
    ensures
        r == effective_bounds(block_view(*block), crate::text::lines_view(markdown_lines@)),
{
    let source = block_source(block);
    match block {
        MarkdownBlock::CodeBlock { .. } | MarkdownBlock::DisplayMath { .. } => {
            return source;
        },
        _ => {},
    }
    let start = trim_leading_blank_source_lines(markdown_lines, source.start_line, source.end_line);
    let end = trim_trailing_blank_source_lines(markdown_lines, start, source.end_line);
    BlockSource { start_line: start, end_line: end }
}

/// Drops the spacers of `blocks` and puts one before each block for the blank source
/// lines between it and the block before (see [`spaced`]).
pub fn finalize_block_spacers(blocks: Vec<MarkdownBlock>, markdown_lines: &Vec<Vec<char>>) -> (r: Vec<MarkdownBlock>)
    ensures
        blocks_view(r@) == spaced(blocks_view(blocks@), crate::text::lines_view(markdown_lines@), None),
        content_blocks(blocks_view(r@)) == content_blocks(blocks_view(blocks@)),
        spacers_well_placed(blocks_view(r@)),
        spacers_count_blanks(blocks_view(r@), crate::text::lines_view(markdown_lines@)),
        r@.len() > 0 ==> !(blocks_view(r@)[0] is Spacer),
{
    proof {
        law_spaced_blocks(blocks_view(blocks@), crate::text::lines_view(markdown_lines@), None);
    }
    let ghost md = crate::text::lines_view(markdown_lines@);
    let ghost all = blocks_view(blocks@);
    let mut rest = blocks;
    let mut out: Vec<MarkdownBlock> = Vec::new();
    let mut prev_end: Option<u32> = None;
    assert(blocks_view(out@) =~= Seq::<BlockV>::empty());
    while rest.len() > 0
        invariant
            md == crate::text::lines_view(markdown_lines@),
            blocks_view(out@) + spaced(blocks_view(rest@), md, prev_end) == spaced(all, md, None),
        decreases rest.len(),
    {
        let ghost rv = blocks_view(rest@);
        let ghost before = blocks_view(out@);
        let block = rest.remove(0);
        assert(blocks_view(rest@) =~= rv.drop_first());
        assert(block_view(block) == rv[0]);
        let is_spacer = match &block {
            MarkdownBlock::Spacer { .. } => true,
            _ => false,
        };
        if !is_spacer {
            let effective = effective_source_bounds(&block, markdown_lines);
            let ghost gap = match prev_end {
                Some(p) => gap_spacer(md, p, effective.start_line),
                None => Seq::empty(),
            };
            if let Some(p) = prev_end {
                let gap_start: u32 = if p < u32::MAX { p + 1 } else { u32::MAX };
                let gap_end: u32 = if effective.start_line >= 1 { effective.start_line - 1 } else { 0 };
                if gap_start <= gap_end {
                    let blank_lines = count_blank_source_lines(markdown_lines, gap_start, gap_end);
                    if blank_lines > 0 {
                        let lines = if blank_lines < MAX_SPACER_LINES {
                            blank_lines
                        } else {
                            MAX_SPACER_LINES
                        };
                        push_block_value(
                            &mut out,
                            MarkdownBlock::Spacer {
                                lines,
                                source: BlockSource { start_line: gap_start, end_line: gap_end },
                            },
                        );
                    }
                }
            }
            assert(blocks_view(out@) == before + gap);
            push_block_value(&mut out, block);
            assert(before + (gap + seq![rv[0]] + spaced(rv.drop_first(), md, Some(effective.end_line)))
                =~= blocks_view(out@) + spaced(rv.drop_first(), md, Some(effective.end_line)));
            prev_end = Some(effective.end_line);
        }
    }
    assert(blocks_view(out@) + Seq::<BlockV>::empty() =~= blocks_view(out@));
    out
}

/// The blocks of a markdown document: line endings normalised, `\(..\)` / `\[..\]` math
/// turned into `$$` blocks, unclosed mermaid fences closed, then the parsed tree flattened
/// into blocks with spacers for blank lines. Text that does not parse gives no blocks.
pub open spec fn markdown_blocks(markdown: Seq<char>) -> Seq<BlockV> {
    let md = crate::preprocess::normalized_mermaid_fences(
        crate::preprocess::normalized_math_delimiters(
            crate::preprocess::normalized_newlines(markdown),
        ),
    );
    match crate::ast::markdown_tree(md) {
        Some(root) => spaced(
            blocks_of(root, crate::preprocess::lines_of(md), Seq::empty()),
            crate::preprocess::lines_of(md),
            None,
        ),
        None => Seq::empty(),
    }
}

} // verus!

verus! {

/// The blocks of a markdown document (see [`markdown_blocks`]).
pub fn parse_markdown_blocks(markdown: &str) -> (r: Vec<MarkdownBlock>)
    ensures
        blocks_view(r@) == markdown_blocks(markdown@),
        spacers_well_placed(blocks_view(r@)),
        r@.len() > 0 ==> !(blocks_view(r@)[0] is Spacer),
{
    proof {
        law_markdown_blocks_spacers(markdown@);
    }
    let md0 = crate::text::chars_of(markdown);
    let a = crate::preprocess::normalize_newlines_vec(&md0);
    let b = crate::preprocess::normalize_markdown_math_delimiters(&a);
    let c = crate::preprocess::normalize_unclosed_mermaid_fences(&b);
    let lines = crate::preprocess::lines_exec(&c);
    let text = crate::text::string_of(&c);
    match crate::ast::markdown_tree_exec(text.as_str()) {
        Some(root) => {
            let mut blocks: Vec<MarkdownBlock> = Vec::new();
            assert(blocks_view(blocks@) =~= Seq::<BlockV>::empty());
            push_block(&root, &mut blocks, &lines);
            finalize_block_spacers(blocks, &lines)
        },
        None => {
            let r: Vec<MarkdownBlock> = Vec::new();
            assert(blocks_view(r@) =~= Seq::<BlockV>::empty());
            r
        },
    }
}

} // verus!

verus! {

/// The blocks other than spacers, in order.
pub open spec fn content_blocks(bs: Seq<BlockV>) -> Seq<BlockV>
    decreases bs.len(),
{
    if bs.len() == 0 {
        Seq::empty()
    } else {
        (if bs[0] is Spacer {
            Seq::empty()
        } else {
            seq![bs[0]]
        }) + content_blocks(bs.drop_first())
    }
}

pub proof fn lemma_content_blocks_append(a: Seq<BlockV>, b: Seq<BlockV>)
    ensures
        content_blocks(a + b) == content_blocks(a) + content_blocks(b),
    decreases a.len(),
{
    if a.len() == 0 {
        assert(a + b =~= b);
        assert(content_blocks(a) + content_blocks(b) =~= content_blocks(b));
    } else {
        lemma_content_blocks_append(a.drop_first(), b);
        assert((a + b).drop_first() =~= a.drop_first() + b);
        assert((a + b)[0] == a[0]);
    }
}

/// A spacer is followed by a block that is not one, and stands for 1 to
/// [`MAX_SPACER_LINES`] lines.
/// Each spacer stands for the blank lines of its own source range, at most
/// [`MAX_SPACER_LINES`] of them, and that range is not empty.
pub open spec fn spacers_count_blanks(r: Seq<BlockV>, md: Seq<Seq<char>>) -> bool {
    forall|i: int|
        0 <= i < r.len() && #[trigger] r[i] is Spacer ==> {
            let src = r[i]->Spacer_source;
            let n = blank_count(md, src.start_line as int, src.end_line as int);
            &&& src.start_line <= src.end_line
            &&& r[i]->Spacer_lines == if n < MAX_SPACER_LINES { n } else { MAX_SPACER_LINES as nat }
        }
}

pub open spec fn spacers_well_placed(r: Seq<BlockV>) -> bool {
    forall|i: int|
        0 <= i < r.len() && #[trigger] r[i] is Spacer ==> i + 1 < r.len() && !(r[i + 1] is Spacer)
            && 1 <= r[i]->Spacer_lines <= MAX_SPACER_LINES
}

/// Putting spacers between blocks keeps every other block, in order; each spacer stands
/// for 1 to [`MAX_SPACER_LINES`] blank lines and comes right before a block that is not a
/// spacer; and the first block is never a spacer.
pub proof fn law_spaced_blocks(bs: Seq<BlockV>, md: Seq<Seq<char>>, prev: Option<u32>)
    ensures
        content_blocks(spaced(bs, md, prev)) == content_blocks(bs),
        spacers_well_placed(spaced(bs, md, prev)),
        spacers_count_blanks(spaced(bs, md, prev), md),
        prev is None && spaced(bs, md, prev).len() > 0 ==> !(spaced(bs, md, prev)[0] is Spacer),
    decreases bs.len(),
{
    if bs.len() > 0 {
        if bs[0] is Spacer {
            law_spaced_blocks(bs.drop_first(), md, prev);
        } else {
            let eff = effective_bounds(bs[0], md);
            let gap = match prev {
                Some(p) => gap_spacer(md, p, eff.start_line),
                None => Seq::empty(),
            };
            let rest = spaced(bs.drop_first(), md, Some(eff.end_line));
            law_spaced_blocks(bs.drop_first(), md, Some(eff.end_line));
            let r = gap + seq![bs[0]] + rest;
            assert(spaced(bs, md, prev) == r);
            lemma_content_blocks_append(gap + seq![bs[0]], rest);
            lemma_content_blocks_append(gap, seq![bs[0]]);
            assert(content_blocks(Seq::<BlockV>::empty()) == Seq::<BlockV>::empty());
            assert(gap.len() == 0 || (gap.len() == 1 && gap[0] is Spacer));
            assert(content_blocks(gap) =~= Seq::<BlockV>::empty()) by {
                if gap.len() > 0 {
                    assert(gap.drop_first() =~= Seq::<BlockV>::empty());
                    assert(content_blocks(gap) == Seq::<BlockV>::empty() + content_blocks(gap.drop_first()));
                }
            }
            assert(content_blocks(seq![bs[0]]) =~= seq![bs[0]]) by {
                assert(seq![bs[0]].drop_first() =~= Seq::<BlockV>::empty());
                assert(content_blocks(seq![bs[0]]) == seq![bs[0]] + content_blocks(seq![bs[0]].drop_first()));
            }
            assert(content_blocks(bs) =~= seq![bs[0]] + content_blocks(bs.drop_first()));
            assert(Seq::<BlockV>::empty() + seq![bs[0]] + content_blocks(bs.drop_first()) =~= content_blocks(bs));
            assert forall|i: int|
                0 <= i < r.len() && #[trigger] r[i] is Spacer implies i + 1 < r.len() && !(r[i + 1] is Spacer)
                    && 1 <= r[i]->Spacer_lines <= MAX_SPACER_LINES by {
                if i < gap.len() {
                    assert(i == 0);
                    assert(r[i + 1] == bs[0]);
                } else if i == gap.len() {
                    assert(r[i] == bs[0]);
                } else {
                    assert(r[i] == rest[i - gap.len() - 1]);
                    assert(r[i + 1] == rest[i - gap.len()]);
                }
            }
            assert forall|i: int| 0 <= i < r.len() && #[trigger] r[i] is Spacer implies ({
                let src = r[i]->Spacer_source;
                let n = blank_count(md, src.start_line as int, src.end_line as int);
                &&& src.start_line <= src.end_line
                &&& r[i]->Spacer_lines == if n < MAX_SPACER_LINES { n } else { MAX_SPACER_LINES as nat }
            }) by {
                if i < gap.len() {
                    assert(r[i] == gap[0]);
                } else if i == gap.len() {
                    assert(r[i] == bs[0]);
                } else {
                    assert(r[i] == rest[i - gap.len() - 1]);
                }
            }
            if prev is None {
                assert(r[0] == bs[0]);
            }
        }
    }
}

/// The blocks of a markdown document keep the spacer rules of [`law_spaced_blocks`]: the
/// first block is not a spacer, and each spacer (1 to [`MAX_SPACER_LINES`] lines) comes
/// right before a block that is not one.
pub proof fn law_markdown_blocks_spacers(markdown: Seq<char>)
    ensures
        spacers_well_placed(markdown_blocks(markdown)),
        markdown_blocks(markdown).len() > 0 ==> !(markdown_blocks(markdown)[0] is Spacer),
{
    let md = crate::preprocess::normalized_mermaid_fences(
        crate::preprocess::normalized_math_delimiters(
            crate::preprocess::normalized_newlines(markdown),
        ),
    );
    match crate::ast::markdown_tree(md) {
        Some(root) => {
            law_spaced_blocks(blocks_of(root, crate::preprocess::lines_of(md), Seq::empty()), crate::preprocess::lines_of(md), None);
        },
        None => {},
    }
}

/// Dropping leading blank lines: from a first line of at least 1 below `end`, the new start
/// lies in `start..=end`, every line skipped is blank, and it stops at `end`, past the text,
/// or at a line that is not blank. A start at or past `end` is kept.
pub proof fn law_leading_trimmed(md: Seq<Seq<char>>, start: u32, end: u32)
    ensures
        start >= end ==> leading_trimmed(md, start, end) == start,
        start < end && start >= 1 ==> {
            let r = leading_trimmed(md, start, end);
            &&& start <= r <= end
            &&& forall|l: int| start <= l < r ==> blank_at(md, l) && l >= 1
            &&& r == end || r - 1 >= md.len() || trim(md[r - 1]).len() > 0
        },
    decreases end - start,
{
    if start < end && start >= 1 && start - 1 < md.len() && trim(md[start - 1]).len() == 0 {
        law_leading_trimmed(md, (start + 1) as u32, end);
        let r = leading_trimmed(md, start, end);
        assert forall|l: int| start <= l < r implies blank_at(md, l) && l >= 1 by {
            if l == start {
            } else {
                assert((start + 1) as u32 <= l < r);
            }
        }
    }
}

/// Dropping trailing blank lines: with `start <= end`, the new end lies in `start..=end`,
/// every line dropped is blank, and it stops at `start`, past the text, or at a line that
/// is not blank. An end at or below `start` is kept.
pub proof fn law_trailing_trimmed(md: Seq<Seq<char>>, start: u32, end: u32)
    ensures
        end <= start ==> trailing_trimmed(md, start, end) == end,
        start <= end ==> {
            let r = trailing_trimmed(md, start, end);
            &&& start <= r <= end
            &&& forall|l: int| r < l <= end ==> blank_at(md, l)
            &&& r == start || r - 1 >= md.len() || trim(md[r - 1]).len() > 0
        },
    decreases end,
{
    if end > start && end - 1 < md.len() && trim(md[end - 1]).len() == 0 {
        law_trailing_trimmed(md, start, (end - 1) as u32);
        let r = trailing_trimmed(md, start, end);
        assert forall|l: int| r < l <= end implies blank_at(md, l) by {
            if l == end {
            } else {
                assert(r < l <= (end - 1) as u32);
            }
        }
    }
}

/// A list item that holds one paragraph and nothing else.
pub open spec fn simple_item(it: NodeV) -> bool {
    it.tag == NodeTag::Item && it.children.len() == 1 && it.children[0].tag == NodeTag::Paragraph
}

/// `x`, held at `u32::MAX`.
pub open spec fn sat_u32(x: int) -> u32 {
    if x > u32::MAX { u32::MAX } else { x as u32 }
}

/// The numbered blocks of simple items numbered from `m` on.
pub open spec fn numbered_items(items: Seq<NodeV>, m: int, indent: u8) -> Seq<BlockV> {
    Seq::new(
        items.len(),
        |k: int|
            BlockV::OrderedListItem {
                n: sat_u32(m + k),
                indent,
                spans: paragraph_spans(items[k].children[0]),
                source: source_of(items[k].children[0]),
            },
    )
}

proof fn lemma_simple_items(items: Seq<NodeV>, m: u32, indent: u8, out: Seq<BlockV>)
    requires
        forall|i: int| 0 <= i < items.len() ==> simple_item(#[trigger] items[i]),
    ensures
        flatten_items(items, Some(m), indent, out) == out + numbered_items(items, m as int, indent),
    decreases items.len(),
{
    if items.len() == 0 {
        assert(out + numbered_items(items, m as int, indent) =~= out);
    } else {
        let it = items[0];
        assert(simple_item(it));
        let p = it.children[0];
        let b0 = BlockV::OrderedListItem {
            n: m,
            indent,
            spans: paragraph_spans(p),
            source: source_of(p),
        };
        assert(it.children.drop_first() =~= Seq::<NodeV>::empty());
        assert(item_children(it.children.drop_first(), Some(m), indent, out.push(b0)) == out.push(b0));
        assert(flatten_item(it, Some(m), indent, out) == out.push(b0));
        let rest = items.drop_first();
        assert forall|i: int| 0 <= i < rest.len() implies simple_item(#[trigger] rest[i]) by {
            assert(rest[i] == items[i + 1]);
        }
        let m2 = if m < u32::MAX { (m + 1) as u32 } else { u32::MAX };
        lemma_simple_items(rest, m2, indent, out.push(b0));
        assert(out.push(b0) + numbered_items(rest, m2 as int, indent) =~= out + numbered_items(items, m as int, indent)) by {
            let a = out.push(b0) + numbered_items(rest, m2 as int, indent);
            let b = out + numbered_items(items, m as int, indent);
            assert forall|i: int| 0 <= i < a.len() implies a[i] == b[i] by {
                if i < out.len() {
                } else if i == out.len() {
                    assert(sat_u32(m as int + 0) == m);
                } else {
                    let k = i - out.len();
                    assert(rest[k - 1] == items[k]);
                    assert(sat_u32(m2 as int + (k - 1)) == sat_u32(m as int + k));
                }
            }
        }
    }
}

/// An ordered list of simple items (one paragraph each) gives one numbered block per item,
/// in order: the first numbered with the list's start number (at least 1), each next one
/// with one more (held at `u32::MAX`), at the list's indent, with the item's text and lines.
pub proof fn law_ordered_list_numbers(n: NodeV, indent: u8, out: Seq<BlockV>)
    requires
        n.tag == NodeTag::List,
        n.flag,
        forall|i: int| 0 <= i < n.children.len() ==> simple_item(#[trigger] n.children[i]),
    ensures
        flatten_list(n, indent, out).len() == out.len() + n.children.len(),
        flatten_list(n, indent, out).take(out.len() as int) == out,
        forall|k: int|
            0 <= k < n.children.len() ==> #[trigger] flatten_list(n, indent, out)[out.len() + k]
                == (BlockV::OrderedListItem {
                n: sat_u32((if n.number < 1 { 1 } else { n.number as int }) + k),
                indent,
                spans: paragraph_spans(n.children[k].children[0]),
                source: source_of(n.children[k].children[0]),
            }),
{
    let start: u32 = if n.number < 1 { 1u32 } else { n.number };
    lemma_simple_items(n.children, start, indent, out);
    let r = out + numbered_items(n.children, start as int, indent);
    assert(r.take(out.len() as int) =~= out);
    assert forall|k: int| 0 <= k < n.children.len() implies #[trigger] r[out.len() + k] == (BlockV::OrderedListItem {
        n: sat_u32((if n.number < 1 { 1 } else { n.number as int }) + k),
        indent,
        spans: paragraph_spans(n.children[k].children[0]),
        source: source_of(n.children[k].children[0]),
    }) by {
        assert(r[out.len() + k] == numbered_items(n.children, start as int, indent)[k]);
    }
}

/// The bullet blocks of simple items whose paragraphs hold runs.
pub open spec fn bullet_items(items: Seq<NodeV>, indent: u8) -> Seq<BlockV> {
    Seq::new(
        items.len(),
        |k: int|
            BlockV::ListItem {
                indent,
                spans: paragraph_spans(items[k].children[0]),
                source: source_of(items[k].children[0]),
            },
    )
}

proof fn lemma_simple_bullets(items: Seq<NodeV>, indent: u8, out: Seq<BlockV>)
    requires
        forall|i: int| 0 <= i < items.len() ==> simple_item(#[trigger] items[i]),
        forall|i: int| 0 <= i < items.len() ==> paragraph_spans((#[trigger] items[i]).children[0]).len() > 0,
    ensures
        flatten_items(items, None, indent, out) == out + bullet_items(items, indent),
    decreases items.len(),
{
    if items.len() == 0 {
        assert(out + bullet_items(items, indent) =~= out);
    } else {
        let it = items[0];
        assert(simple_item(it));
        let p = it.children[0];
        assert(paragraph_spans(p).len() > 0);
        let b0 = BlockV::ListItem { indent, spans: paragraph_spans(p), source: source_of(p) };
        assert(it.children.drop_first() =~= Seq::<NodeV>::empty());
        assert(item_children(it.children.drop_first(), None, indent, out.push(b0)) == out.push(b0));
        assert(flatten_item(it, None, indent, out) == out.push(b0));
        let rest = items.drop_first();
        assert forall|i: int| 0 <= i < rest.len() implies simple_item(#[trigger] rest[i]) by {
            assert(rest[i] == items[i + 1]);
        }
        assert forall|i: int| 0 <= i < rest.len() implies paragraph_spans((#[trigger] rest[i]).children[0]).len() > 0 by {
            assert(rest[i] == items[i + 1]);
        }
        lemma_simple_bullets(rest, indent, out.push(b0));
        assert(out.push(b0) + bullet_items(rest, indent) =~= out + bullet_items(items, indent)) by {
            let a = out.push(b0) + bullet_items(rest, indent);
            let b = out + bullet_items(items, indent);
            assert forall|i: int| 0 <= i < a.len() implies a[i] == b[i] by {
                if i > out.len() {
                    assert(rest[i - out.len() - 1] == items[i - out.len()]);
                }
            }
        }
    }
}

/// A bullet list of simple items whose paragraphs hold runs gives one bullet block per
/// item, in order, at the list's indent, with the item's text and lines.
pub proof fn law_bullet_list_items(n: NodeV, indent: u8, out: Seq<BlockV>)
    requires
        n.tag == NodeTag::List,
        !n.flag,
        forall|i: int| 0 <= i < n.children.len() ==> simple_item(#[trigger] n.children[i]),
        forall|i: int| 0 <= i < n.children.len() ==> paragraph_spans((#[trigger] n.children[i]).children[0]).len() > 0,
    ensures
        flatten_list(n, indent, out).len() == out.len() + n.children.len(),
        flatten_list(n, indent, out).take(out.len() as int) == out,
        forall|k: int|
            0 <= k < n.children.len() ==> #[trigger] flatten_list(n, indent, out)[out.len() + k]
                == (BlockV::ListItem {
                indent,
                spans: paragraph_spans(n.children[k].children[0]),
                source: source_of(n.children[k].children[0]),
            }),
{
    lemma_simple_bullets(n.children, indent, out);
    let r = out + bullet_items(n.children, indent);
    assert(r.take(out.len() as int) =~= out);
    assert forall|k: int| 0 <= k < n.children.len() implies #[trigger] r[out.len() + k] == (BlockV::ListItem {
        indent,
        spans: paragraph_spans(n.children[k].children[0]),
        source: source_of(n.children[k].children[0]),
    }) by {
        assert(r[out.len() + k] == bullet_items(n.children, indent)[k]);
    }
}

} // verus!
