//! The HTML preview: blocks rendered as HTML and laid out on A4 pages by estimated height.
use vstd::prelude::*;

use base64::Engine;

use crate::blocks::{BlockV, BlockquoteLine, MarkdownBlock, QuoteLineV, ThematicBreakStyle};
use crate::math::{apply_rules, rules_view};
use crate::preprocess::lines_of;
use crate::spans::{spans_view, InlineSpan, SpanV};
use crate::text::{chars_of, decimal, extend_vec, joined, push_decimal, replace_all, string_of};

verus! {

/// The style sheet of the preview.
pub const PREVIEW_CSS: &'static str = r#"
      @page { size: A4; margin: 0; }
      :root {
        --page-w: 595pt;
        --page-h: 842pt;
        --page-pad: 40pt;
        --ink: #1d2330;
        --muted: #5e6472;
        --bg: #d7d7d7;
        --paper: #fff;
      }
      * { box-sizing: border-box; }
      html, body { margin: 0; padding: 0; color: var(--ink); font-family: "Noto Sans JP", "Yu Gothic UI", "Hiragino Sans", sans-serif; }
      body { background: var(--bg); padding: 16pt 0 32pt; }
      .page {
        width: var(--page-w);
        min-height: var(--page-h);
        margin: 0 auto 16pt;
        padding: var(--page-pad);
        background: var(--paper);
        box-shadow: 0 10px 24px rgba(0,0,0,.16);
        overflow: hidden;
        break-after: page;
        page-break-after: always;
      }
      .page:last-child { break-after: auto; page-break-after: auto; }
      h1 { font-size: 24pt; font-weight: 700; margin: 0 0 14pt; line-height: 1.2; }
      h2 { font-size: 20pt; font-weight: 700; margin: 18pt 0 12pt; line-height: 1.25; }
      h3 { font-size: 18pt; font-weight: 700; margin: 14pt 0 10pt; line-height: 1.25; }
      p { margin: 0 0 10pt; line-height: 1.5; font-size: 11.5pt; }
      ul, ol { margin: 0 0 10pt 1.4em; padding: 0; line-height: 1.5; font-size: 11.5pt; }
      li { margin: 0 0 3pt; }
      blockquote {
        margin: 0 0 10pt;
        padding: 10pt 12pt;
        border-left: 6px solid #7d92cf;
        background: #f5f7fc;
        line-height: 1.45;
        font-size: 11.5pt;
        overflow-wrap: anywhere;
        word-break: break-word;
        break-inside: avoid;
        page-break-inside: avoid;
      }
      blockquote .blockquote-line {
        margin: 0 0 4pt;
        overflow-wrap: anywhere;
        word-break: break-word;
      }
      blockquote .blockquote-line:last-child {
        margin-bottom: 0;
      }
      blockquote .blockquote-math {
        margin: 6pt 0;
        text-align: center;
        font-family: "Cambria Math", "Times New Roman", serif;
        font-style: italic;
        overflow-wrap: anywhere;
        word-break: break-word;
      }
      blockquote .blockquote-code {
        margin: 6pt 0;
        padding: 8pt 10pt;
        background: #eef2f8;
        border: 1px solid #d7deea;
        border-radius: 6px;
        font-family: "Cascadia Mono", "Consolas", monospace;
        white-space: pre-wrap;
        overflow-wrap: anywhere;
        word-break: break-word;
      }
      strong { font-weight: 700; }
      em { font-style: italic; }
      .link { color: #2156d1; text-decoration: underline; }
      .math { font-family: "Cambria Math", "Times New Roman", serif; font-style: italic; }
      .math-block {
        margin: 0 0 10pt;
        padding: 12pt 14pt;
        background: #f6f8ff;
        border: 1px solid #d7def1;
        border-radius: 8px;
        font-family: "Cambria Math", "Times New Roman", serif;
      }
      code {
        font-family: "Cascadia Mono", "Consolas", monospace;
        background: #eef2f8;
        padding: 0.12em 0.28em;
        border-radius: 4px;
      }
      pre {
        margin: 0 0 10pt;
        padding: 10pt 12pt;
        background: #f4f6fa;
        border: 1px solid #dde3ef;
        border-radius: 8px;
        white-space: pre-wrap;
        word-break: break-word;
        break-inside: avoid;
        page-break-inside: avoid;
      }
      pre code { background: transparent; padding: 0; }
      table { width: 100%; border-collapse: collapse; margin: 0 0 10pt; break-inside: avoid; page-break-inside: avoid; font-size: 10.5pt; }
      thead { display: table-header-group; }
      tbody { display: table-row-group; }
      tr { break-inside: avoid; page-break-inside: avoid; }
      th, td { border: 1px solid #adb5c7; padding: 6pt 8pt; text-align: left; vertical-align: top; }
      th { background: #f1f4fb; }
      .mermaid-frame {
        margin: 8pt 0 10pt;
        break-inside: avoid;
        page-break-inside: avoid;
      }
      img.mermaid {
        max-width: 100%;
        max-height: 260pt;
        width: auto;
        height: auto;
        display: block;
        margin: 0 auto;
        object-fit: contain;
        break-inside: avoid;
        page-break-inside: avoid;
      }
      .mermaid-fallback {
        padding: 10pt 12pt;
        border: 1px dashed #aab4cc;
        background: #fafbfe;
        margin: 0 0 10pt;
        break-inside: avoid;
        page-break-inside: avoid;
      }
      .mermaid-fallback .label { font-weight: 700; margin-bottom: 6px; }
      .muted { color: var(--muted); }
      hr { border: none; margin: 16pt 0; }
      hr.hr-hyphen { border-top: 1.5px solid #b6c0cf; }
      hr.hr-asterisk { border-top: 1.5px dashed #9daac0; }
      hr.hr-underscore { border-top: 3px double #c0c9d8; }
      a { color: #2156d1; }
      @media print {
        html, body { background: #fff; }
        body { padding: 0; }
        .page {
          margin: 0;
          box-shadow: none;
          overflow: visible;
          border: 0;
        }
        h1 { font-size: 24pt; }
        h2 { font-size: 20pt; }
        h3 { font-size: 18pt; }
        p, ul, ol, table { font-size: 11.5pt; }
        * {
          -webkit-print-color-adjust: exact;
          print-color-adjust: exact;
        }
      }
    "#;

/// The height that a page's content may take, in points.
pub const PAGE_CONTENT_LIMIT: u64 = 732;

/// The characters that HTML text escapes, with their entities, in the order replaced.
pub open spec fn escape_rules() -> Seq<(Seq<char>, Seq<char>)> {
    seq![
        ("&"@, "&amp;"@),
        ("<"@, "&lt;"@),
        (">"@, "&gt;"@),
        ("\""@, "&quot;"@),
        ("'"@, "&#39;"@),
    ]
}

/// `text` with `&`, `<`, `>`, `"` and `'` written as entities.
pub open spec fn escaped(text: Seq<char>) -> Seq<char> {
    apply_rules(text, escape_rules())
}

fn escape_rules_vec() -> (v: Vec<(Vec<char>, Vec<char>)>)
    ensures
        rules_view(v@) == escape_rules(),
{
    let mut v: Vec<(Vec<char>, Vec<char>)> = Vec::new();
    let ghost t = escape_rules();
    v.push((chars_of("&"), chars_of("&amp;")));
    assert(rules_view(v@) =~= t.take(1));
    v.push((chars_of("<"), chars_of("&lt;")));
    assert(rules_view(v@) =~= t.take(2));
    v.push((chars_of(">"), chars_of("&gt;")));
    assert(rules_view(v@) =~= t.take(3));
    v.push((chars_of("\""), chars_of("&quot;")));
    assert(rules_view(v@) =~= t.take(4));
    v.push((chars_of("'"), chars_of("&#39;")));
    assert(rules_view(v@) =~= t.take(5));
    assert(t.take(5) =~= t);
    v
}

fn escape_vec(text: &Vec<char>) -> (r: Vec<char>)
    ensures
        r@ == escaped(text@),
{
    let rules = escape_rules_vec();
    crate::math::apply_rules_vec(text, &rules)
}

/// Text escaped for HTML (see [`escaped`]).
pub fn escape_html(text: &str) -> (r: String)
    ensures
        r@ == escaped(text@),
{
    string_of(&escape_vec(&chars_of(text)))
}

/// A run as HTML: escaped, line feeds as `<br />`, then wrapped for link, math, code, bold
/// and italic, in that order from the inside out.
pub open spec fn span_html(s: SpanV) -> Seq<char> {
    let t0 = replace_all(escaped(s.text), seq!['\n'], "<br />"@);
    let t1 = if s.style.link { "<span class=\"link\">"@ + t0 + "</span>"@ } else { t0 };
    let t2 = if s.style.math { "<span class=\"math\">"@ + t1 + "</span>"@ } else { t1 };
    let t3 = if s.style.code { "<code>"@ + t2 + "</code>"@ } else { t2 };
    let t4 = if s.style.bold { "<strong>"@ + t3 + "</strong>"@ } else { t3 };
    if s.style.italic { "<em>"@ + t4 + "</em>"@ } else { t4 }
}

/// Runs as HTML, one after the other.
pub open spec fn spans_html(spans: Seq<SpanV>) -> Seq<char>
    decreases spans.len(),
{
    if spans.len() == 0 {
        Seq::empty()
    } else {
        spans_html(spans.drop_last()) + span_html(spans.last())
    }
}

} // verus!

verus! {

fn lit(out: &mut Vec<char>, s: &str)
    ensures
        final(out)@ == old(out)@ + s@,
{
    extend_vec(out, &chars_of(s));
}

fn wrap(inner: Vec<char>, open: &str, close: &str) -> (r: Vec<char>)
    ensures
        r@ == open@ + inner@ + close@,
{
    let mut r = chars_of(open);
    extend_vec(&mut r, &inner);
    lit(&mut r, close);
    r
}

fn span_html_vec(s: &InlineSpan) -> (r: Vec<char>)
    ensures
        r@ == span_html(s@),
{
    let esc = escape_vec(&chars_of(s.text.as_str()));
    let nl = vec!['\n'];
    assert(nl@ =~= seq!['\n']);
    let mut t = crate::text::replace_vec(&esc, &nl, &chars_of("<br />"));
    if s.style.link {
        t = wrap(t, "<span class=\"link\">", "</span>");
    }
    if s.style.math {
        t = wrap(t, "<span class=\"math\">", "</span>");
    }
    if s.style.code {
        t = wrap(t, "<code>", "</code>");
    }
    if s.style.bold {
        t = wrap(t, "<strong>", "</strong>");
    }
    if s.style.italic {
        t = wrap(t, "<em>", "</em>");
    }
    t
}

fn spans_html_vec(spans: &Vec<InlineSpan>) -> (r: Vec<char>)
    ensures
        r@ == spans_html(spans_view(spans@)),
{
    let ghost sv = spans_view(spans@);
    let mut out: Vec<char> = Vec::new();
    let mut i: usize = 0;
    while i < spans.len()
        invariant
            i <= spans.len(),
            sv == spans_view(spans@),
            out@ == spans_html(sv.take(i as int)),
        decreases spans.len() - i,
    {
        assert(sv.take(i + 1).drop_last() =~= sv.take(i as int));
        extend_vec(&mut out, &span_html_vec(&spans[i]));
        i += 1;
    }
    assert(sv.take(spans.len() as int) =~= sv);
    out
}

/// Runs as HTML (see [`spans_html`]).
pub fn render_spans_html(spans: &Vec<InlineSpan>) -> (r: String)
    ensures
        r@ == spans_html(spans_view(spans@)),
{
    string_of(&spans_html_vec(spans))
}

/// A table row as HTML: each cell in `<td>`.
pub open spec fn row_html(cells: Seq<Seq<SpanV>>) -> Seq<char>
    decreases cells.len(),
{
    if cells.len() == 0 {
        Seq::empty()
    } else {
        row_html(cells.drop_last()) + "<td>"@ + spans_html(cells.last()) + "</td>"@
    }
}

pub open spec fn rows_html(rows: Seq<Seq<Seq<SpanV>>>) -> Seq<char>
    decreases rows.len(),
{
    if rows.len() == 0 {
        Seq::empty()
    } else {
        rows_html(rows.drop_last()) + "<tr>"@ + row_html(rows.last()) + "</tr>"@
    }
}

/// A table as HTML.
pub open spec fn table_html(rows: Seq<Seq<Seq<SpanV>>>) -> Seq<char> {
    "<table><tbody>"@ + rows_html(rows) + "</tbody></table>"@
}

/// A table as HTML (see [`table_html`]).
pub fn render_table_html(rows: &Vec<Vec<Vec<InlineSpan>>>) -> (r: String)
    ensures
        r@ == table_html(crate::blocks::rows_view(rows@)),
{
    let ghost rv = crate::blocks::rows_view(rows@);
    let mut out = chars_of("<table><tbody>");
    let mut i: usize = 0;
    while i < rows.len()
        invariant
            i <= rows.len(),
            rv == crate::blocks::rows_view(rows@),
            out@ == "<table><tbody>"@ + rows_html(rv.take(i as int)),
        decreases rows.len() - i,
    {
        assert(rv.take(i + 1).drop_last() =~= rv.take(i as int));
        let row = &rows[i];
        let ghost cv = crate::blocks::row_view(*row);
        let mut r = chars_of("<tr>");
        let mut j: usize = 0;
        while j < row.len()
            invariant
                j <= row.len(),
                cv == crate::blocks::row_view(*row),
                r@ == "<tr>"@ + row_html(cv.take(j as int)),
            decreases row.len() - j,
        {
            assert(cv.take(j + 1).drop_last() =~= cv.take(j as int));
            let cell = wrap(spans_html_vec(&row[j]), "<td>", "</td>");
            extend_vec(&mut r, &cell);
            j += 1;
        }
        assert(cv.take(row.len() as int) =~= cv);
        lit(&mut r, "</tr>");
        let ghost before = out@;
        extend_vec(&mut out, &r);
        assert(out@ =~= "<table><tbody>"@ + rows_html(rv.take(i + 1)));
        i += 1;
    }
    assert(rv.take(rows.len() as int) =~= rv);
    lit(&mut out, "</tbody></table>");
    string_of(&out)
}

/// The number of lines of a text as `str::lines` counts them, at least one.
pub open spec fn line_count(s: Seq<char>) -> nat {
    if lines_of(s).len() == 0 {
        1
    } else {
        lines_of(s).len()
    }
}

fn line_count_exec(s: &Vec<char>) -> (n: usize)
    ensures
        n == line_count(s@),
{
    let ls = crate::preprocess::lines_exec(s);
    if ls.len() == 0 {
        1
    } else {
        ls.len()
    }
}

/// A block-quote line as HTML, with its estimated height in points.
pub open spec fn quote_line_html(l: QuoteLineV) -> (Seq<char>, nat) {
    match l {
        QuoteLineV::Text(spans) => ("<div class=\"blockquote-line\">"@ + spans_html(spans) + "</div>"@, 22),
        QuoteLineV::DisplayMath(e) => ("<div class=\"blockquote-math\">"@ + escaped(e) + "</div>"@, 34),
        QuoteLineV::CodeBlock(c) => (
            "<pre class=\"blockquote-code\"><code>"@ + escaped(c) + "</code></pre>"@,
            22 + line_count(c) * 18,
        ),
    }
}

/// A block-quote line as HTML, with its estimated height (see [`quote_line_html`]).
pub fn render_blockquote_html_line(line: &BlockquoteLine) -> (r: (String, u128))
    ensures
        r.0@ == quote_line_html(crate::blocks::quote_line_view(*line)).0,
        r.1 == quote_line_html(crate::blocks::quote_line_view(*line)).1,
        r.1 <= 0x1_0000_0000_0000_0000 * 18 + 22,
{
    match line {
        BlockquoteLine::Text(spans) => (
            string_of(&wrap(spans_html_vec(spans), "<div class=\"blockquote-line\">", "</div>")),
            22,
        ),
        BlockquoteLine::DisplayMath(e) => (
            string_of(&wrap(escape_vec(&chars_of(e.as_str())), "<div class=\"blockquote-math\">", "</div>")),
            34,
        ),
        BlockquoteLine::CodeBlock { code } => {
            let c = chars_of(code.as_str());
            let n = line_count_exec(&c);
            (
                string_of(&wrap(escape_vec(&c), "<pre class=\"blockquote-code\"><code>", "</code></pre>")),
                22 + (n as u128) * 18,
            )
        },
    }
}

} // verus!

verus! {

/// The character of a 6-bit value in the standard base64 alphabet.
pub open spec fn b64_char(v: int) -> char {
    if v < 26 {
        ('A' as int + v) as char
    } else if v < 52 {
        ('a' as int + (v - 26)) as char
    } else if v < 62 {
        ('0' as int + (v - 52)) as char
    } else if v == 62 {
        '+'
    } else {
        '/'
    }
}

/// Standard base64 with `=` padding: each 3 bytes become 4 characters.
pub open spec fn base64_of(data: Seq<u8>) -> Seq<char>
    decreases data.len(),
{
    if data.len() == 0 {
        Seq::empty()
    } else if data.len() == 1 {
        seq![b64_char(data[0] as int / 4), b64_char((data[0] as int % 4) * 16), '=', '=']
    } else if data.len() == 2 {
        seq![
            b64_char(data[0] as int / 4),
            b64_char((data[0] as int % 4) * 16 + data[1] as int / 16),
            b64_char((data[1] as int % 16) * 4),
            '=',
        ]
    } else {
        seq![
            b64_char(data[0] as int / 4),
            b64_char((data[0] as int % 4) * 16 + data[1] as int / 16),
            b64_char((data[1] as int % 16) * 4 + data[2] as int / 64),
            b64_char(data[2] as int % 64),
        ] + base64_of(data.skip(3))
    }
}

/// Encodes bytes with base64's standard engine (`base64::engine::general_purpose::STANDARD`,
/// `Engine::encode`): the standard alphabet with `=` padding. The crate panics when the
/// encoded length does not fit in `usize`, which `requires` rules out.
#[verifier::external_body]
fn encode_base64(data: &Vec<u8>) -> (r: String)
    requires
        (data.len() + 2) / 3 * 4 <= usize::MAX,
    ensures
        r@ == base64_of(data@),
{
    base64::engine::general_purpose::STANDARD.encode(data)
}

/// Bytes in base64 (see [`base64_of`]).
pub fn base64_encode(data: &Vec<u8>) -> (r: String)
    requires
        (data.len() + 2) / 3 * 4 <= usize::MAX,
    ensures
        r@ == base64_of(data@),
{
    encode_base64(data)
}

/// A rendered mermaid diagram: the PNG bytes and the image height in pixels.
#[derive(Clone, Debug)]
pub struct MermaidImage {
    pub png: Vec<u8>,
    pub height: u32,
}

/// The HTML of a rendered diagram, from its base64 PNG.
pub open spec fn mermaid_image_html(encoded: Seq<char>) -> Seq<char> {
    "<div class=\"mermaid-frame\"><img class=\"mermaid\" alt=\"Mermaid diagram\" src=\"data:image/png;base64,"@
        + encoded + "\" /></div>"@
}

/// The HTML shown where a diagram could not be rendered.
pub open spec fn mermaid_fallback_html() -> Seq<char> {
    "<div class=\"mermaid-fallback\"><div class=\"label\">Mermaid diagram preview unavailable</div><div class=\"muted\">Mermaid CLI を確認してください。</div></div>"@
}

/// The HTML of a rendered diagram (see [`mermaid_image_html`]).
pub fn mermaid_preview_image_html(encoded_png: &str) -> (r: String)
    ensures
        r@ == mermaid_image_html(encoded_png@),
{
    string_of(&wrap(
        chars_of(encoded_png),
        "<div class=\"mermaid-frame\"><img class=\"mermaid\" alt=\"Mermaid diagram\" src=\"data:image/png;base64,",
        "\" /></div>",
    ))
}

/// The HTML shown where a diagram could not be rendered.
pub fn mermaid_preview_fallback_html() -> (r: String)
    ensures
        r@ == mermaid_fallback_html(),
{
    String::from_str(
        "<div class=\"mermaid-fallback\"><div class=\"label\">Mermaid diagram preview unavailable</div><div class=\"muted\">Mermaid CLI を確認してください。</div></div>",
    )
}

/// The height a diagram takes in the preview: its height plus 20, kept within 120..=260.
pub open spec fn mermaid_height(image_height: u32) -> nat {
    let h = image_height + 20;
    if h > 260 {
        260
    } else if h < 120 {
        120
    } else {
        h as nat
    }
}

/// The height a diagram takes in the preview (see [`mermaid_height`]).
pub fn mermaid_preview_height(image_height: u32) -> (h: u64)
    ensures
        h == mermaid_height(image_height),
{
    let x = image_height as u64 + 20;
    if x > 260 {
        260
    } else if x < 120 {
        120
    } else {
        x
    }
}

} // verus!

verus! {

/// Block-quote lines as HTML, one after the other.
pub open spec fn quote_lines_html(lines: Seq<QuoteLineV>) -> Seq<char>
    decreases lines.len(),
{
    if lines.len() == 0 {
        Seq::empty()
    } else {
        quote_lines_html(lines.drop_last()) + quote_line_html(lines.last()).0
    }
}

/// The tag of a heading level.
pub open spec fn heading_tag(level: usize) -> Seq<char> {
    if level == 1 {
        "h1"@
    } else if level == 2 {
        "h2"@
    } else if level == 3 {
        "h3"@
    } else {
        "h4"@
    }
}

/// The class of a thematic break.
pub open spec fn break_class(style: ThematicBreakStyle) -> Seq<char> {
    match style {
        ThematicBreakStyle::Hyphen => "hr-hyphen"@,
        ThematicBreakStyle::Asterisk => "hr-asterisk"@,
        ThematicBreakStyle::Underscore => "hr-underscore"@,
    }
}

/// A block other than a block quote as HTML, with its estimated height in points;
/// `mermaid` is the rendered diagram of a mermaid code block, if it could be rendered.
pub open spec fn block_html(b: BlockV, mermaid: Option<(Seq<u8>, u32)>) -> (Seq<char>, nat) {
    match b {
        BlockV::Heading { level, spans, .. } => (
            "<"@ + heading_tag(level) + ">"@ + spans_html(spans) + "</"@ + heading_tag(level) + ">"@,
            if level == 1 { 56 } else { 40 },
        ),
        BlockV::Paragraph { spans, .. } => ("<p>"@ + spans_html(spans) + "</p>"@, 40 + spans.len() * 8),
        BlockV::Spacer { lines, .. } => {
            let h: nat = if lines < 1 { 14 } else { lines as nat * 14 };
            (
                "<div class=\"blank-line-spacer\" style=\"height:"@ + decimal(h) + "pt\"></div>"@,
                h,
            )
        },
        BlockV::ListItem { indent, spans, .. } => (
            "<ul style=\"margin-left:"@ + decimal(1 + indent as nat) + "em\"><li>"@ + spans_html(spans)
                + "</li></ul>"@,
            28,
        ),
        BlockV::OrderedListItem { n, indent, spans, .. } => (
            "<ol start=\""@ + decimal(n as nat) + "\" style=\"margin-left:"@ + decimal(1 + indent as nat)
                + "em\"><li>"@ + spans_html(spans) + "</li></ol>"@,
            28,
        ),
        BlockV::ThematicBreak { style, .. } => ("<hr class=\""@ + break_class(style) + "\" />"@, 18),
        BlockV::Table { rows, .. } => (table_html(rows), 48 + rows.len() * 28),
        BlockV::CodeBlock { lang, code, .. } => if lang == "mermaid"@ {
            match mermaid {
                Some((png, h)) => (mermaid_image_html(base64_of(png)), mermaid_height(h)),
                None => (mermaid_fallback_html(), 96),
            }
        } else {
            ("<pre><code>"@ + escaped(code) + "</code></pre>"@, line_count(code) * 20 + 28)
        },
        BlockV::DisplayMath { expr, .. } => (
            "<div class=\"math-block\">"@ + escaped(expr) + "</div>"@,
            46 + line_count(expr) * 12,
        ),
        BlockV::Blockquote { lines, .. } => ("<blockquote>"@ + quote_lines_html(lines) + "</blockquote>"@, 48),
    }
}

/// Whether a diagram's PNG is small enough for its base64 text to be addressed.
pub open spec fn encodable(png: Seq<u8>) -> bool {
    (png.len() + 2) / 3 * 4 <= usize::MAX
}

pub open spec fn mermaid_view(m: Option<&MermaidImage>) -> Option<(Seq<u8>, u32)> {
    match m {
        Some(img) => Some((img.png@, img.height)),
        None => None,
    }
}

fn decimal_vec(n: u64) -> (v: Vec<char>)
    ensures
        v@ == decimal(n as nat),
{
    let mut v: Vec<char> = Vec::new();
    push_decimal(&mut v, n);
    assert(v@ =~= decimal(n as nat));
    v
}

fn quote_lines_html_vec(lines: &Vec<BlockquoteLine>) -> (r: Vec<char>)
    ensures
        r@ == quote_lines_html(crate::blocks::quote_lines_view(lines@)),
{
    let ghost lv = crate::blocks::quote_lines_view(lines@);
    let mut out: Vec<char> = Vec::new();
    let mut i: usize = 0;
    while i < lines.len()
        invariant
            i <= lines.len(),
            lv == crate::blocks::quote_lines_view(lines@),
            out@ == quote_lines_html(lv.take(i as int)),
        decreases lines.len() - i,
    {
        assert(lv.take(i + 1).drop_last() =~= lv.take(i as int));
        let (h, _) = render_blockquote_html_line(&lines[i]);
        extend_vec(&mut out, &chars_of(h.as_str()));
        i += 1;
    }
    assert(lv.take(lines.len() as int) =~= lv);
    out
}

/// A block other than a block quote as HTML, with its estimated height (see
/// [`block_html`]); a block quote is given whole.
pub fn render_block_to_html(block: &MarkdownBlock, mermaid: Option<&MermaidImage>) -> (r: (String, u128))
    requires
        mermaid matches Some(img) ==> encodable(img.png@),
    ensures
        r.0@ == block_html(crate::blocks::block_view(*block), mermaid_view(mermaid)).0,
        r.1 == block_html(crate::blocks::block_view(*block), mermaid_view(mermaid)).1,
        r.1 <= 0x1_0000_0000_0000_0000_00,
{
    match block {
        MarkdownBlock::Heading { level, spans, .. } => {
            let tag = if *level == 1 { "h1" } else if *level == 2 { "h2" } else if *level == 3 { "h3" } else { "h4" };
            let mut out = chars_of("<");
            lit(&mut out, tag);
            lit(&mut out, ">");
            extend_vec(&mut out, &spans_html_vec(spans));
            lit(&mut out, "</");
            lit(&mut out, tag);
            lit(&mut out, ">");
            (string_of(&out), if *level == 1 { 56 } else { 40 })
        },
        MarkdownBlock::Paragraph { spans, .. } => (
            string_of(&wrap(spans_html_vec(spans), "<p>", "</p>")),
            40 + (spans.len() as u128) * 8,
        ),
        MarkdownBlock::Spacer { lines, .. } => {
            let h: u128 = if *lines < 1 { 14 } else { (*lines as u128) * 14 };
            let mut out = chars_of("<div class=\"blank-line-spacer\" style=\"height:");
            let mut digits: Vec<char> = Vec::new();
            push_decimal_u128(&mut digits, h);
            extend_vec(&mut out, &digits);
            lit(&mut out, "pt\"></div>");
            (string_of(&out), h)
        },
        MarkdownBlock::ListItem { indent, spans, .. } => {
            let mut out = chars_of("<ul style=\"margin-left:");
            extend_vec(&mut out, &decimal_vec(1 + *indent as u64));
            lit(&mut out, "em\"><li>");
            extend_vec(&mut out, &spans_html_vec(spans));
            lit(&mut out, "</li></ul>");
            (string_of(&out), 28)
        },
        MarkdownBlock::OrderedListItem { n, indent, spans, .. } => {
            let mut out = chars_of("<ol start=\"");
            extend_vec(&mut out, &decimal_vec(*n as u64));
            lit(&mut out, "\" style=\"margin-left:");
            extend_vec(&mut out, &decimal_vec(1 + *indent as u64));
            lit(&mut out, "em\"><li>");
            extend_vec(&mut out, &spans_html_vec(spans));
            lit(&mut out, "</li></ol>");
            (string_of(&out), 28)
        },
        MarkdownBlock::ThematicBreak { style, .. } => {
            let class = match style {
                ThematicBreakStyle::Hyphen => "hr-hyphen",
                ThematicBreakStyle::Asterisk => "hr-asterisk",
                ThematicBreakStyle::Underscore => "hr-underscore",
            };
            (string_of(&wrap(chars_of(class), "<hr class=\"", "\" />")), 18)
        },
        MarkdownBlock::Table { rows, .. } => (render_table_html(rows), 48 + (rows.len() as u128) * 28),
        MarkdownBlock::CodeBlock { lang, code, .. } => {
            if crate::ast::eq_lit(&chars_of(lang.as_str()), "mermaid") {
                match mermaid {
                    Some(img) => {
                        let encoded = encode_base64(&img.png);
                        (mermaid_preview_image_html(encoded.as_str()), mermaid_preview_height(img.height) as u128)
                    },
                    None => (mermaid_preview_fallback_html(), 96),
                }
            } else {
                let c = chars_of(code.as_str());
                let n = line_count_exec(&c);
                (string_of(&wrap(escape_vec(&c), "<pre><code>", "</code></pre>")), (n as u128) * 20 + 28)
            }
        },
        MarkdownBlock::DisplayMath { expr, .. } => {
            let e = chars_of(expr.as_str());
            let n = line_count_exec(&e);
            (string_of(&wrap(escape_vec(&e), "<div class=\"math-block\">", "</div>")), 46 + (n as u128) * 12)
        },
        MarkdownBlock::Blockquote { lines, .. } => (
            string_of(&wrap(quote_lines_html_vec(lines), "<blockquote>", "</blockquote>")),
            48,
        ),
    }
}

/// Appends the decimal numeral of `n`.
fn push_decimal_u128(out: &mut Vec<char>, n: u128)
    ensures
        final(out)@ == old(out)@ + decimal(n as nat),
    decreases n,
{
    if n >= 10 {
        push_decimal_u128(out, n / 10);
    }
    let d = (n % 10) as u64;
    let mut digit: Vec<char> = Vec::new();
    push_decimal(&mut digit, d);
    assert(digit@ =~= seq![crate::text::digit_char(d as nat)]);
    extend_vec(out, &digit);
    proof {
        if n >= 10 {
            assert(old(out)@ + decimal(n as nat) =~= (old(out)@ + decimal((n / 10) as nat)).push(crate::text::digit_char((n % 10) as nat)));
        } else {
            assert(old(out)@ + decimal(n as nat) =~= old(out)@.push(crate::text::digit_char(n as nat)));
        }
    }
}

} // verus!

verus! {

/// The state of splitting quote lines into chunks: finished chunks, the lines of the open
/// chunk, whether it has any, and its height (32 points of padding included).
pub open spec fn chunk_state(lines: Seq<QuoteLineV>, limit: nat) -> (Seq<(Seq<char>, nat)>, Seq<char>, bool, nat)
    decreases lines.len(),
{
    if lines.len() == 0 {
        (Seq::empty(), Seq::empty(), false, 32)
    } else {
        let (chunks, cur, filled, h) = chunk_state(lines.drop_last(), limit);
        let (html, lh) = quote_line_html(lines.last());
        if filled && h + lh > limit {
            (chunks.push(("<blockquote>"@ + cur + "</blockquote>"@, h)), html, true, 32 + lh)
        } else {
            (chunks, cur + html, true, h + lh)
        }
    }
}

/// A block quote cut into pieces of at most `limit` points each (a piece always takes
/// at least one line), as HTML with their heights; an empty quote gives one empty piece.
pub open spec fn quote_chunks(lines: Seq<QuoteLineV>, limit: nat) -> Seq<(Seq<char>, nat)> {
    let (chunks, cur, filled, h) = chunk_state(lines, limit);
    let all = if filled {
        chunks.push(("<blockquote>"@ + cur + "</blockquote>"@, h))
    } else {
        chunks
    };
    if all.len() == 0 {
        seq![("<blockquote></blockquote>"@, 32nat)]
    } else {
        all
    }
}

pub open spec fn html_items_view(v: Seq<(String, u128)>) -> Seq<(Seq<char>, nat)> {
    v.map_values(|p: (String, u128)| (p.0@, p.1 as nat))
}

/// A block quote cut into pieces that fit `page_limit` points (see [`quote_chunks`]).
pub fn render_blockquote_html_chunks(lines: &Vec<BlockquoteLine>, page_limit: u64) -> (r: Vec<(String, u128)>)
    ensures
        html_items_view(r@) == quote_chunks(crate::blocks::quote_lines_view(lines@), page_limit as nat),
        forall|k: int| 0 <= k < r@.len() ==> #[trigger] r@[k].1 <= 0x1_0000_0000_0000_0000_00 + 0x1_0000_0000_0000_0000,
{
    let ghost lv = crate::blocks::quote_lines_view(lines@);
    let mut chunks: Vec<(String, u128)> = Vec::new();
    let mut cur: Vec<char> = Vec::new();
    let mut filled = false;
    let mut h: u128 = 32;
    let mut i: usize = 0;
    assert(html_items_view(chunks@) =~= Seq::<(Seq<char>, nat)>::empty());
    while i < lines.len()
        invariant
            i <= lines.len(),
            lv == crate::blocks::quote_lines_view(lines@),
            chunk_state(lv.take(i as int), page_limit as nat) == (html_items_view(chunks@), cur@, filled, h as nat),
            h <= 0x1_0000_0000_0000_0000_00 + 0x1_0000_0000_0000_0000,
            !filled ==> h == 32,
            forall|k: int| 0 <= k < chunks@.len() ==> #[trigger] chunks@[k].1 <= 0x1_0000_0000_0000_0000_00 + 0x1_0000_0000_0000_0000,
        decreases lines.len() - i,
    {
        assert(lv.take(i + 1).drop_last() =~= lv.take(i as int));
        let (html, lh) = render_blockquote_html_line(&lines[i]);
        if filled && h + lh > page_limit as u128 {
            let ghost before = html_items_view(chunks@);
            let text = string_of(&wrap(cur, "<blockquote>", "</blockquote>"));
            chunks.push((text, h));
            assert(html_items_view(chunks@) =~= before.push((chunks@.last().0@, h as nat)));
            cur = chars_of(html.as_str());
            h = 32 + lh;
        } else {
            extend_vec(&mut cur, &chars_of(html.as_str()));
            h = h + lh;
        }
        filled = true;
        i += 1;
    }
    assert(lv.take(lines.len() as int) =~= lv);
    if filled {
        let ghost before = html_items_view(chunks@);
        let text = string_of(&wrap(cur, "<blockquote>", "</blockquote>"));
        chunks.push((text, h));
        assert(html_items_view(chunks@) =~= before.push((chunks@.last().0@, h as nat)));
    }
    if chunks.len() == 0 {
        chunks.push((String::from_str("<blockquote></blockquote>"), 32));
        assert(html_items_view(chunks@) =~= seq![("<blockquote></blockquote>"@, 32nat)]);
    }
    chunks
}

} // verus!

verus! {

/// The pieces that a block puts on the pages: the chunks of a block quote, or the block's
/// HTML.
pub open spec fn block_items(b: BlockV, mermaid: Option<(Seq<u8>, u32)>) -> Seq<(Seq<char>, nat)> {
    match b {
        BlockV::Blockquote { lines, .. } => quote_chunks(lines, PAGE_CONTENT_LIMIT as nat),
        _ => seq![block_html(b, mermaid)],
    }
}

/// The rendered diagram given for block `i`, if any.
pub open spec fn mermaid_at(renders: Seq<Option<(Seq<u8>, u32)>>, i: int) -> Option<(Seq<u8>, u32)> {
    if 0 <= i < renders.len() {
        renders[i]
    } else {
        None
    }
}

/// The pieces of all blocks, in order.
pub open spec fn all_items(bs: Seq<BlockV>, renders: Seq<Option<(Seq<u8>, u32)>>) -> Seq<(Seq<char>, nat)>
    decreases bs.len(),
{
    if bs.len() == 0 {
        Seq::empty()
    } else {
        all_items(bs.drop_last(), renders) + block_items(bs.last(), mermaid_at(renders, bs.len() - 1))
    }
}

/// Pieces laid out on pages: a piece goes on the current page unless that page already
/// holds something and the piece would take it past [`PAGE_CONTENT_LIMIT`]; then it
/// starts a new page. The pages and the height used on the last one.
pub open spec fn paginate(items: Seq<(Seq<char>, nat)>) -> (Seq<Seq<Seq<char>>>, nat)
    decreases items.len(),
{
    if items.len() == 0 {
        (seq![Seq::empty()], 0)
    } else {
        let (pages, h) = paginate(items.drop_last());
        let (html, est) = items.last();
        if pages.last().len() > 0 && h + est > PAGE_CONTENT_LIMIT {
            (pages.push(seq![html]), est)
        } else {
            (pages.update(pages.len() - 1, pages.last().push(html)), h + est)
        }
    }
}

pub proof fn lemma_paginate(items: Seq<(Seq<char>, nat)>)
    ensures
        paginate(items).0.len() >= 1,
        paginate(items).0.last().len() == 0 ==> paginate(items).1 == 0,
    decreases items.len(),
{
    if items.len() > 0 {
        lemma_paginate(items.drop_last());
    }
}

/// Pages as HTML sections.
pub open spec fn pages_html(pages: Seq<Seq<Seq<char>>>) -> Seq<char>
    decreases pages.len(),
{
    if pages.len() == 0 {
        Seq::empty()
    } else {
        pages_html(pages.drop_last()) + "<section class=\"page\">"@ + joined(pages.last()) + "</section>"@
    }
}

/// The preview document: the style sheet, then the blocks laid out on A4 pages.
pub open spec fn preview_html(bs: Seq<BlockV>, renders: Seq<Option<(Seq<u8>, u32)>>) -> Seq<char> {
    "<style>"@ + PREVIEW_CSS@ + "</style>"@ + pages_html(paginate(all_items(bs, renders)).0)
}

pub open spec fn renders_view(v: Seq<Option<MermaidImage>>) -> Seq<Option<(Seq<u8>, u32)>> {
    v.map_values(|m: Option<MermaidImage>| match m {
        Some(img) => Some((img.png@, img.height)),
        None => None,
    })
}

/// Every rendered diagram is small enough to encode.
pub open spec fn renders_encodable(v: Seq<Option<MermaidImage>>) -> bool {
    forall|i: int| 0 <= i < v.len() ==> (#[trigger] v[i] matches Some(img) ==> encodable(img.png@))
}

fn pages_html_vec(pages: &Vec<Vec<Vec<char>>>) -> (r: Vec<char>)
    ensures
        r@ == pages_html(pages@.map_values(|p: Vec<Vec<char>>| crate::text::lines_view(p@))),
{
    let ghost pv = pages@.map_values(|p: Vec<Vec<char>>| crate::text::lines_view(p@));
    let mut out: Vec<char> = Vec::new();
    let mut i: usize = 0;
    while i < pages.len()
        invariant
            i <= pages.len(),
            pv == pages@.map_values(|p: Vec<Vec<char>>| crate::text::lines_view(p@)),
            out@ == pages_html(pv.take(i as int)),
        decreases pages.len() - i,
    {
        assert(pv.take(i + 1).drop_last() =~= pv.take(i as int));
        lit(&mut out, "<section class=\"page\">");
        let page = &pages[i];
        let ghost before = out@;
        let ghost lv = crate::text::lines_view(page@);
        let mut j: usize = 0;
        while j < page.len()
            invariant
                j <= page.len(),
                lv == crate::text::lines_view(page@),
                out@ == before + joined(lv.take(j as int)),
            decreases page.len() - j,
        {
            assert(lv.take(j + 1).drop_last() =~= lv.take(j as int));
            extend_vec(&mut out, &page[j]);
            j += 1;
        }
        assert(lv.take(page.len() as int) =~= lv);
        lit(&mut out, "</section>");
        i += 1;
    }
    assert(pv.take(pages.len() as int) =~= pv);
    out
}

/// Places a piece (see [`paginate`]).
fn place(pages: &mut Vec<Vec<Vec<char>>>, h: &mut u128, html: Vec<char>, est: u128)
    requires
        old(pages).len() >= 1,
        old(pages)@.last().len() == 0 ==> *old(h) == 0,
        *old(h) <= 0x1_0000_0000_0000_0000_00 + 0x1_0000_0000_0000_0000,
        est <= 0x1_0000_0000_0000_0000_00 + 0x1_0000_0000_0000_0000,
    ensures
        final(pages).len() >= 1,
        final(pages)@.last().len() > 0,
        *final(h) <= 0x1_0000_0000_0000_0000_00 + 0x1_0000_0000_0000_0000,
        ({
            let (p, hh) = {
                let pv = old(pages)@.map_values(|p: Vec<Vec<char>>| crate::text::lines_view(p@));
                if pv.last().len() > 0 && *old(h) + est > PAGE_CONTENT_LIMIT {
                    (pv.push(seq![html@]), est as nat)
                } else {
                    (pv.update(pv.len() - 1, pv.last().push(html@)), (*old(h) + est) as nat)
                }
            };
            final(pages)@.map_values(|p: Vec<Vec<char>>| crate::text::lines_view(p@)) == p && *final(h) == hh
        }),
{
    let ghost pv = pages@.map_values(|p: Vec<Vec<char>>| crate::text::lines_view(p@));
    let last = pages.len() - 1;
    if pages[last].len() > 0 && *h + est > PAGE_CONTENT_LIMIT as u128 {
        let mut page: Vec<Vec<char>> = Vec::new();
        page.push(html);
        pages.push(page);
        assert(crate::text::lines_view(pages@.last()@) =~= seq![pages@.last()@[0]@]);
        assert(pages@.map_values(|p: Vec<Vec<char>>| crate::text::lines_view(p@)) =~= pv.push(crate::text::lines_view(pages@.last()@)));
        *h = est;
    } else {
        let mut page = pages.pop().unwrap();
        let ghost before = crate::text::lines_view(page@);
        page.push(html);
        assert(crate::text::lines_view(page@) =~= before.push(page@.last()@));
        pages.push(page);
        assert(pages@.map_values(|p: Vec<Vec<char>>| crate::text::lines_view(p@)) =~= pv.update(pv.len() - 1, pv.last().push(pages@.last()@.last()@)));
        *h = *h + est;
    }
}

/// The preview document (see [`preview_html`]); `mermaid_renders[i]` is the rendered
/// diagram of block `i` when it is a mermaid code block that could be rendered.
pub fn build_preview_html(blocks: &Vec<MarkdownBlock>, mermaid_renders: &Vec<Option<MermaidImage>>) -> (r: String)
    requires
        renders_encodable(mermaid_renders@),
    ensures
        r@ == preview_html(crate::blocks::blocks_view(blocks@), renders_view(mermaid_renders@)),
        r@ == "<style>"@ + PREVIEW_CSS@ + "</style>"@ + pages_html(
            paginate(all_items(crate::blocks::blocks_view(blocks@), renders_view(mermaid_renders@))).0,
        ),
        pieces_of(paginate(all_items(crate::blocks::blocks_view(blocks@), renders_view(mermaid_renders@))).0)
            == all_items(crate::blocks::blocks_view(blocks@), renders_view(mermaid_renders@)).map_values(
            |x: (Seq<char>, nat)| x.0,
        ),
        forall|k: int|
            0 <= k < paginate(all_items(crate::blocks::blocks_view(blocks@), renders_view(mermaid_renders@))).0.len()
                ==> (#[trigger] paginate(
                all_items(crate::blocks::blocks_view(blocks@), renders_view(mermaid_renders@)),
            ).0[k]).len() > 0 || all_items(crate::blocks::blocks_view(blocks@), renders_view(mermaid_renders@)).len()
                == 0,
        forall|k: int|
            0 <= k < paginate(all_items(crate::blocks::blocks_view(blocks@), renders_view(mermaid_renders@))).0.len()
                ==> #[trigger] page_heights(all_items(crate::blocks::blocks_view(blocks@), renders_view(mermaid_renders@)))[k]
                <= PAGE_CONTENT_LIMIT || paginate(
                all_items(crate::blocks::blocks_view(blocks@), renders_view(mermaid_renders@)),
            ).0[k].len() == 1,
{
    proof {
        law_paginate_keeps_pieces(all_items(crate::blocks::blocks_view(blocks@), renders_view(mermaid_renders@)));
        law_pages_fit(all_items(crate::blocks::blocks_view(blocks@), renders_view(mermaid_renders@)));
    }
    let ghost bv = crate::blocks::blocks_view(blocks@);
    let ghost rv = renders_view(mermaid_renders@);
    let mut pages: Vec<Vec<Vec<char>>> = Vec::new();
    let first: Vec<Vec<char>> = Vec::new();
    assert(crate::text::lines_view(first@) =~= Seq::<Seq<char>>::empty());
    pages.push(first);
    let mut h: u128 = 0;
    let mut i: usize = 0;
    assert(pages@.map_values(|p: Vec<Vec<char>>| crate::text::lines_view(p@)) =~= seq![Seq::<Seq<char>>::empty()]);
    while i < blocks.len()
        invariant
            i <= blocks.len(),
            bv == crate::blocks::blocks_view(blocks@),
            rv == renders_view(mermaid_renders@),
            renders_encodable(mermaid_renders@),
            pages.len() >= 1,
            pages@.last().len() == 0 ==> h == 0,
            h <= 0x1_0000_0000_0000_0000_00 + 0x1_0000_0000_0000_0000,
            paginate(all_items(bv.take(i as int), rv)) == (pages@.map_values(|p: Vec<Vec<char>>| crate::text::lines_view(p@)), h as nat),
        decreases blocks.len() - i,
    {
        assert(bv.take(i + 1).drop_last() =~= bv.take(i as int));
        let m: Option<&MermaidImage> = if i < mermaid_renders.len() {
            match &mermaid_renders[i] {
                Some(img) => Some(img),
                None => None,
            }
        } else {
            None
        };
        assert(mermaid_view(m) == mermaid_at(rv, i as int));
        let items: Vec<(String, u128)> = match &blocks[i] {
            MarkdownBlock::Blockquote { lines, .. } => render_blockquote_html_chunks(lines, PAGE_CONTENT_LIMIT),
            _ => {
                let mut one: Vec<(String, u128)> = Vec::new();
                one.push(render_block_to_html(&blocks[i], m));
                assert(html_items_view(one@) =~= seq![(one@[0].0@, one@[0].1 as nat)]);
                one
            },
        };
        let ghost prefix = all_items(bv.take(i as int), rv);
        let ghost iv = html_items_view(items@);
        assert(all_items(bv.take(i + 1), rv) =~= prefix + iv);
        let mut k: usize = 0;
        while k < items.len()
            invariant
                k <= items.len(),
                iv == html_items_view(items@),
                forall|q: int| 0 <= q < items@.len() ==> #[trigger] items@[q].1 <= 0x1_0000_0000_0000_0000_00 + 0x1_0000_0000_0000_0000,
                pages.len() >= 1,
                pages@.last().len() == 0 ==> h == 0,
                h <= 0x1_0000_0000_0000_0000_00 + 0x1_0000_0000_0000_0000,
                paginate(prefix + iv.take(k as int)) == (pages@.map_values(|p: Vec<Vec<char>>| crate::text::lines_view(p@)), h as nat),
            decreases items.len() - k,
        {
            assert((prefix + iv.take(k + 1)).drop_last() =~= prefix + iv.take(k as int));
            assert((prefix + iv.take(k + 1)).last() == iv[k as int]);
            let html = chars_of(items[k].0.as_str());
            place(&mut pages, &mut h, html, items[k].1);
            k += 1;
        }
        assert(iv.take(items.len() as int) =~= iv);
        i += 1;
    }
    assert(bv.take(blocks.len() as int) =~= bv);
    let mut out = chars_of("<style>");
    lit(&mut out, PREVIEW_CSS);
    lit(&mut out, "</style>");
    extend_vec(&mut out, &pages_html_vec(&pages));
    string_of(&out)
}

} // verus!

verus! {

/// The code of each mermaid code block, by block index (`None` for other blocks): the
/// diagrams to render before building the preview.
pub fn mermaid_sources(blocks: &Vec<MarkdownBlock>) -> (r: Vec<Option<String>>)
    ensures
        r@.len() == blocks@.len(),
        forall|i: int| 0 <= i < blocks@.len() ==> (match crate::blocks::block_view(#[trigger] blocks@[i]) {
            BlockV::CodeBlock { lang, code, .. } if lang == "mermaid"@ => r@[i] matches Some(c) && c@ == code,
            _ => r@[i] is None,
        }),
{
    let mut r: Vec<Option<String>> = Vec::new();
    let mut i: usize = 0;
    while i < blocks.len()
        invariant
            i <= blocks.len(),
            r@.len() == i,
            forall|k: int| 0 <= k < i ==> (match crate::blocks::block_view(#[trigger] blocks@[k]) {
                BlockV::CodeBlock { lang, code, .. } if lang == "mermaid"@ => r@[k] matches Some(c) && c@ == code,
                _ => r@[k] is None,
            }),
        decreases blocks.len() - i,
    {
        let item = match &blocks[i] {
            MarkdownBlock::CodeBlock { lang, code, .. } => {
                if crate::ast::eq_lit(&chars_of(lang.as_str()), "mermaid") {
                    Some(code.clone())
                } else {
                    None
                }
            },
            _ => None,
        };
        r.push(item);
        i += 1;
    }
    r
}

} // verus!

verus! {

/// Escaped text holds no `<`, `>`, `"` or `'`: nothing in it can open a tag or end an
/// attribute.
pub proof fn law_escaped_has_no_markup(s: Seq<char>)
    ensures
        !escaped(s).contains('<'),
        !escaped(s).contains('>'),
        !escaped(s).contains('"'),
        !escaped(s).contains('\''),
{
    reveal_strlit("&");
    reveal_strlit("&amp;");
    reveal_strlit("<");
    reveal_strlit("&lt;");
    reveal_strlit(">");
    reveal_strlit("&gt;");
    reveal_strlit("\"");
    reveal_strlit("&quot;");
    reveal_strlit("'");
    reveal_strlit("&#39;");
    let amp = seq!['&', 'a', 'm', 'p', ';'];
    let lt = seq!['&', 'l', 't', ';'];
    let gt = seq!['&', 'g', 't', ';'];
    let quot = seq!['&', 'q', 'u', 'o', 't', ';'];
    let apos = seq!['&', '#', '3', '9', ';'];
    assert("&"@ =~= seq!['&'] && "&amp;"@ =~= amp);
    assert("<"@ =~= seq!['<'] && "&lt;"@ =~= lt);
    assert(">"@ =~= seq!['>'] && "&gt;"@ =~= gt);
    assert("\""@ =~= seq!['"'] && "&quot;"@ =~= quot);
    assert("'"@ =~= seq!['\''] && "&#39;"@ =~= apos);
    let s1 = replace_all(s, seq!['&'], amp);
    let s2 = replace_all(s1, seq!['<'], lt);
    let s3 = replace_all(s2, seq!['>'], gt);
    let s4 = replace_all(s3, seq!['"'], quot);
    let s5 = replace_all(s4, seq!['\''], apos);
    let t = escape_rules();
    assert(escaped(s) == s5) by {
        assert(t.drop_first().drop_first().drop_first().drop_first().drop_first() =~= Seq::<(Seq<char>, Seq<char>)>::empty());
        assert(apply_rules(s4, t.drop_first().drop_first().drop_first().drop_first()) == apply_rules(s5, t.drop_first().drop_first().drop_first().drop_first().drop_first()));
        assert(apply_rules(s3, t.drop_first().drop_first().drop_first()) == apply_rules(s4, t.drop_first().drop_first().drop_first().drop_first()));
        assert(apply_rules(s2, t.drop_first().drop_first()) == apply_rules(s3, t.drop_first().drop_first().drop_first()));
        assert(apply_rules(s1, t.drop_first()) == apply_rules(s2, t.drop_first().drop_first()));
        assert(apply_rules(s, t) == apply_rules(s1, t.drop_first()));
    }
    assert(!lt.contains('<') && !gt.contains('<') && !quot.contains('<') && !apos.contains('<')) by {
        assert(lt[0] != '<' && lt[1] != '<' && lt[2] != '<' && lt[3] != '<');
    }
    assert(!gt.contains('>') && !quot.contains('>') && !apos.contains('>'));
    assert(!quot.contains('"') && !apos.contains('"'));
    assert(!apos.contains('\''));
    crate::text::lemma_replace_removes(s1, '<', lt);
    crate::text::lemma_replace_keeps_absent(s2, seq!['>'], gt, '<');
    crate::text::lemma_replace_keeps_absent(s3, seq!['"'], quot, '<');
    crate::text::lemma_replace_keeps_absent(s4, seq!['\''], apos, '<');
    crate::text::lemma_replace_removes(s2, '>', gt);
    crate::text::lemma_replace_keeps_absent(s3, seq!['"'], quot, '>');
    crate::text::lemma_replace_keeps_absent(s4, seq!['\''], apos, '>');
    crate::text::lemma_replace_removes(s3, '"', quot);
    crate::text::lemma_replace_keeps_absent(s4, seq!['\''], apos, '"');
    crate::text::lemma_replace_removes(s4, '\'', apos);
}

} // verus!

verus! {

/// The pieces of all pages, page after page.
pub open spec fn pieces_of(pages: Seq<Seq<Seq<char>>>) -> Seq<Seq<char>>
    decreases pages.len(),
{
    if pages.len() == 0 {
        Seq::empty()
    } else {
        pieces_of(pages.drop_last()) + pages.last()
    }
}

/// Laying pieces out on pages keeps every piece, in order, and leaves no page empty (when
/// there is anything to lay out).
pub proof fn law_paginate_keeps_pieces(items: Seq<(Seq<char>, nat)>)
    ensures
        pieces_of(paginate(items).0) == items.map_values(|x: (Seq<char>, nat)| x.0),
        items.len() > 0 ==> forall|k: int| 0 <= k < paginate(items).0.len() ==> #[trigger] paginate(items).0[k].len() > 0,
    decreases items.len(),
{
    if items.len() == 0 {
        let one = seq![Seq::<Seq<char>>::empty()];
        assert(one.drop_last() =~= Seq::<Seq<Seq<char>>>::empty());
        assert(pieces_of(one.drop_last()) == Seq::<Seq<char>>::empty());
        assert(pieces_of(one) == pieces_of(one.drop_last()) + one.last());
        assert(pieces_of(one) =~= Seq::<Seq<char>>::empty());
        assert(items.map_values(|x: (Seq<char>, nat)| x.0) =~= Seq::<Seq<char>>::empty());
    } else {
        let init = items.drop_last();
        law_paginate_keeps_pieces(init);
        lemma_paginate(init);
        let (pages, h) = paginate(init);
        let (html, est) = items.last();
        let f = |x: (Seq<char>, nat)| x.0;
        assert(items.map_values(f) =~= init.map_values(f).push(html));
        if pages.last().len() > 0 && h + est > PAGE_CONTENT_LIMIT {
            let np = pages.push(seq![html]);
            assert(np.drop_last() =~= pages);
            assert(pieces_of(np) =~= pieces_of(pages) + seq![html]);
            assert forall|k: int| 0 <= k < np.len() implies #[trigger] np[k].len() > 0 by {
                if k < pages.len() {
                    assert(np[k] == pages[k]);
                    if init.len() == 0 {
                        assert(pages =~= seq![Seq::<Seq<char>>::empty()]);
                    }
                }
            }
        } else {
            let np = pages.update(pages.len() - 1, pages.last().push(html));
            assert(np.drop_last() =~= pages.drop_last());
            assert(pieces_of(pages) == pieces_of(pages.drop_last()) + pages.last());
            assert(pieces_of(np) =~= pieces_of(pages) + seq![html]);
            assert forall|k: int| 0 <= k < np.len() implies #[trigger] np[k].len() > 0 by {
                if k < pages.len() - 1 {
                    assert(np[k] == pages[k]);
                }
            }
        }
    }
}

/// A chunk height that fits `limit`, or that of a chunk holding just one of the lines.
pub open spec fn chunk_fits(h: nat, lines: Seq<QuoteLineV>, limit: nat) -> bool {
    h <= limit || exists|i: int| 0 <= i < lines.len() && h == 32 + quote_line_html(#[trigger] lines[i]).1
}

proof fn lemma_chunk_fits_prefix(h: nat, lines: Seq<QuoteLineV>, limit: nat)
    requires
        lines.len() > 0,
        chunk_fits(h, lines.drop_last(), limit),
    ensures
        chunk_fits(h, lines, limit),
{
    if h > limit {
        let i = choose|i: int| 0 <= i < lines.drop_last().len() && h == 32 + quote_line_html(#[trigger] lines.drop_last()[i]).1;
        assert(lines.drop_last()[i] == lines[i]);
    }
}

proof fn lemma_chunk_state_fits(lines: Seq<QuoteLineV>, limit: nat)
    ensures
        forall|k: int| 0 <= k < chunk_state(lines, limit).0.len() ==> chunk_fits(
            (#[trigger] chunk_state(lines, limit).0[k]).1,
            lines,
            limit,
        ),
        chunk_state(lines, limit).2 ==> chunk_fits(chunk_state(lines, limit).3, lines, limit),
        !chunk_state(lines, limit).2 ==> lines.len() == 0,
    decreases lines.len(),
{
    if lines.len() > 0 {
        let init = lines.drop_last();
        lemma_chunk_state_fits(init, limit);
        let (chunks, cur, filled, h) = chunk_state(init, limit);
        let (html, lh) = quote_line_html(lines.last());
        let n = lines.len() - 1;
        assert(lines[n] == lines.last());
        assert forall|k: int| 0 <= k < chunks.len() implies chunk_fits(#[trigger] chunks[k].1, lines, limit) by {
            lemma_chunk_fits_prefix(chunks[k].1, lines, limit);
        }
        if filled && h + lh > limit {
            let c2 = chunks.push(("<blockquote>"@ + cur + "</blockquote>"@, h));
            lemma_chunk_fits_prefix(h, lines, limit);
            assert forall|k: int| 0 <= k < c2.len() implies chunk_fits(#[trigger] c2[k].1, lines, limit) by {
                if k < chunks.len() {
                    assert(c2[k] == chunks[k]);
                }
            }
            assert(chunk_fits(32 + lh, lines, limit));
        } else {
            if !filled {
                assert(chunk_fits(32 + lh, lines, limit));
            }
        }
    }
}

/// Cutting a block quote into pieces for `limit`-point pages: every piece is at most
/// `limit` points high, unless it holds a single line that is taller on its own.
pub proof fn law_quote_chunks_fit(lines: Seq<QuoteLineV>, limit: nat)
    requires
        limit >= 32,
    ensures
        quote_chunks(lines, limit).len() >= 1,
        forall|k: int| 0 <= k < quote_chunks(lines, limit).len() ==> chunk_fits(
            (#[trigger] quote_chunks(lines, limit)[k]).1,
            lines,
            limit,
        ),
{
    lemma_chunk_state_fits(lines, limit);
    let (chunks, cur, filled, h) = chunk_state(lines, limit);
    if filled {
        let all = chunks.push(("<blockquote>"@ + cur + "</blockquote>"@, h));
        assert forall|k: int| 0 <= k < all.len() implies chunk_fits(#[trigger] all[k].1, lines, limit) by {
            if k < chunks.len() {
                assert(all[k] == chunks[k]);
            }
        }
    }
}

/// The height used on each page that [`paginate`] lays out.
pub open spec fn page_heights(items: Seq<(Seq<char>, nat)>) -> Seq<nat>
    decreases items.len(),
{
    if items.len() == 0 {
        seq![0nat]
    } else {
        let (pages, h) = paginate(items.drop_last());
        let hs = page_heights(items.drop_last());
        let (html, est) = items.last();
        if pages.last().len() > 0 && h + est > PAGE_CONTENT_LIMIT {
            hs.push(est)
        } else {
            hs.update(hs.len() - 1, hs.last() + est)
        }
    }
}

/// Laying pieces out on pages: each page takes at most [`PAGE_CONTENT_LIMIT`] points,
/// unless it holds a single piece that is taller on its own.
pub proof fn law_pages_fit(items: Seq<(Seq<char>, nat)>)
    ensures
        page_heights(items).len() == paginate(items).0.len(),
        page_heights(items).last() == paginate(items).1,
        forall|k: int| 0 <= k < page_heights(items).len() ==> #[trigger] page_heights(items)[k] <= PAGE_CONTENT_LIMIT
            || paginate(items).0[k].len() == 1,
    decreases items.len(),
{
    if items.len() > 0 {
        let init = items.drop_last();
        law_pages_fit(init);
        lemma_paginate(init);
        let (pages, h) = paginate(init);
        let hs = page_heights(init);
        let (html, est) = items.last();
        if pages.last().len() > 0 && h + est > PAGE_CONTENT_LIMIT {
            let np = pages.push(seq![html]);
            let nh = hs.push(est);
            assert forall|k: int| 0 <= k < nh.len() implies #[trigger] nh[k] <= PAGE_CONTENT_LIMIT || np[k].len() == 1 by {
                if k < hs.len() {
                    assert(nh[k] == hs[k] && np[k] == pages[k]);
                }
            }
        } else {
            let last = pages.len() - 1;
            let np = pages.update(last, pages.last().push(html));
            let nh = hs.update(last, hs.last() + est);
            assert forall|k: int| 0 <= k < nh.len() implies #[trigger] nh[k] <= PAGE_CONTENT_LIMIT || np[k].len() == 1 by {
                if k < last {
                    assert(nh[k] == hs[k] && np[k] == pages[k]);
                } else if pages.last().len() == 0 {
                    assert(np[k].len() == 1);
                }
            }
        }
    }
}

/// Where pages break: laying out one piece more opens a new page exactly when the current
/// page already holds something and the piece would take its height past
/// [`PAGE_CONTENT_LIMIT`]; otherwise the piece joins the current page.
pub proof fn law_page_break_rule(items: Seq<(Seq<char>, nat)>, j: int)
    requires
        0 <= j < items.len(),
    ensures
        ({
            let (pages, h) = paginate(items.take(j));
            let (next, _) = paginate(items.take(j + 1));
            let opens = pages.last().len() > 0 && h + items[j].1 > PAGE_CONTENT_LIMIT;
            &&& h == page_heights(items.take(j)).last()
            &&& opens ==> next == pages.push(seq![items[j].0])
            &&& !opens ==> next == pages.update(pages.len() - 1, pages.last().push(items[j].0))
        }),
{
    law_pages_fit(items.take(j));
    assert(items.take(j + 1).drop_last() =~= items.take(j));
    assert(items.take(j + 1).last() == items[j]);
}

/// A heading of level `k` is an `h<k>` element for `k` from 1 to 3, an `h4` element for any
/// other level, around the HTML of its text; it is estimated at 56 points for level 1 and 40
/// otherwise.
pub proof fn law_heading_html(level: usize, spans: Seq<SpanV>, source: crate::layout::BlockSource, mermaid: Option<(Seq<u8>, u32)>)
    ensures
        ({
            let d = if 1 <= level <= 3 { crate::text::digit_char(level as nat) } else { '4' };
            let tag = seq!['h', d];
            let (html, h) = block_html(BlockV::Heading { level, spans, source }, mermaid);
            &&& html == seq!['<'] + tag + seq!['>'] + spans_html(spans) + seq!['<', '/'] + tag + seq!['>']
            &&& h == if level == 1 { 56nat } else { 40nat }
        }),
{
    reveal_strlit("h1");
    reveal_strlit("h2");
    reveal_strlit("h3");
    reveal_strlit("h4");
    reveal_strlit("<");
    reveal_strlit(">");
    reveal_strlit("</");
    let d = if 1 <= level <= 3 { crate::text::digit_char(level as nat) } else { '4' };
    assert(heading_tag(level) =~= seq!['h', d]);
    let (html, h) = block_html(BlockV::Heading { level, spans, source }, mermaid);
    assert(html =~= seq!['<'] + seq!['h', d] + seq!['>'] + spans_html(spans) + seq!['<', '/'] + seq!['h', d] + seq!['>']);
}

} // verus!
