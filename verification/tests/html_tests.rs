use minipdf::blocks::{BlockquoteLine, MarkdownBlock, ThematicBreakStyle};
use minipdf::html::{
    base64_encode, build_preview_html, escape_html, mermaid_preview_fallback_html, mermaid_preview_height,
    mermaid_preview_image_html, mermaid_sources, render_block_to_html, render_blockquote_html_chunks,
    render_spans_html, render_table_html, MermaidImage,
};
use minipdf::layout::BlockSource;
use minipdf::spans::{InlineSpan, TextStyle};

fn plain(text: &str) -> InlineSpan {
    InlineSpan { text: text.to_string(), style: TextStyle::default() }
}

#[test]
fn html_preview_includes_print_page_rules() {
    let html = build_preview_html(
        &vec![MarkdownBlock::Paragraph { spans: vec![plain("hello")], source: BlockSource::single(1) }],
        &vec![],
    );
    assert!(html.contains("@page { size: A4; margin: 0; }"), "{html}");
    assert!(html.contains("break-after: page"), "{html}");
    assert!(html.contains("page-break-after: always"), "{html}");
}

#[test]
fn html_preview_constrains_mermaid_images_and_fallbacks() {
    let html = build_preview_html(
        &vec![MarkdownBlock::Paragraph { spans: vec![plain("hello")], source: BlockSource::single(1) }],
        &vec![],
    );
    assert!(html.contains(".mermaid-frame"), "{html}");
    assert!(html.contains("max-height: 260pt"), "{html}");
    assert!(html.contains("page-break-inside: avoid"), "{html}");
    assert!(html.contains("break-inside: avoid"), "{html}");

    let image_html = mermaid_preview_image_html("Zm9vYmFy");
    assert!(image_html.contains("mermaid-frame"), "{image_html}");
    assert!(image_html.contains("data:image/png;base64,Zm9vYmFy"), "{image_html}");

    let fallback_html = mermaid_preview_fallback_html();
    assert!(fallback_html.contains("Mermaid diagram preview unavailable"), "{fallback_html}");
    assert!(!fallback_html.contains("<pre><code>"), "{fallback_html}");
}

#[test]
fn mermaid_fallback_is_short_and_not_a_code_block() {
    let html = mermaid_preview_fallback_html();
    assert!(html.contains("Mermaid diagram preview unavailable"), "{html}");
    assert!(html.contains("Mermaid CLI を確認してください。"), "{html}");
    assert!(!html.contains("<pre><code>"), "{html}");
}

#[test]
fn html_text_is_escaped() {
    assert_eq!(escape_html("a<b>&\"c'"), "a&lt;b&gt;&amp;&quot;c&#39;");
}

#[test]
fn styled_spans_nest_in_a_fixed_order() {
    let spans = vec![
        InlineSpan {
            text: "x\ny".to_string(),
            style: TextStyle { bold: true, italic: true, code: false, link: true, math: false },
        },
        plain("<z>"),
    ];
    assert_eq!(
        render_spans_html(&spans),
        "<em><strong><span class=\"link\">x<br />y</span></strong></em>&lt;z&gt;"
    );
}

#[test]
fn tables_render_rows_and_cells() {
    let rows = vec![vec![vec![plain("a")], vec![plain("b")]], vec![vec![plain("1")], vec![]]];
    assert_eq!(
        render_table_html(&rows),
        "<table><tbody><tr><td>a</td><td>b</td></tr><tr><td>1</td><td></td></tr></tbody></table>"
    );
}

#[test]
fn block_heights_are_estimated() {
    let p = MarkdownBlock::Paragraph { spans: vec![plain("a"), plain("b")], source: BlockSource::single(1) };
    assert_eq!(render_block_to_html(&p, None), ("<p>ab</p>".to_string(), 56));
    let spacer = MarkdownBlock::Spacer { lines: 3, source: BlockSource::single(2) };
    assert_eq!(
        render_block_to_html(&spacer, None),
        ("<div class=\"blank-line-spacer\" style=\"height:42pt\"></div>".to_string(), 42)
    );
    let item = MarkdownBlock::OrderedListItem { n: 7, indent: 1, spans: vec![plain("x")], source: BlockSource::single(1) };
    assert_eq!(
        render_block_to_html(&item, None),
        ("<ol start=\"7\" style=\"margin-left:2em\"><li>x</li></ol>".to_string(), 28)
    );
    let hr = MarkdownBlock::ThematicBreak { style: ThematicBreakStyle::Asterisk, source: BlockSource::single(1) };
    assert_eq!(render_block_to_html(&hr, None), ("<hr class=\"hr-asterisk\" />".to_string(), 18));
    let code = MarkdownBlock::CodeBlock {
        lang: "rust".to_string(),
        code: "a\nb\n".to_string(),
        source: BlockSource::single(1),
    };
    assert_eq!(render_block_to_html(&code, None), ("<pre><code>a\nb\n</code></pre>".to_string(), 68));
}

#[test]
fn mermaid_blocks_use_the_rendered_image_or_the_fallback() {
    let block = MarkdownBlock::CodeBlock {
        lang: "mermaid".to_string(),
        code: "graph TD; A-->B".to_string(),
        source: BlockSource::single(1),
    };
    let img = MermaidImage { png: b"foobar".to_vec(), height: 50 };
    let (html, h) = render_block_to_html(&block, Some(&img));
    assert!(html.contains("data:image/png;base64,Zm9vYmFy"), "{html}");
    assert_eq!(h, 120);
    let (html, h) = render_block_to_html(&block, None);
    assert_eq!(html, mermaid_preview_fallback_html());
    assert_eq!(h, 96);
    assert_eq!(mermaid_sources(&vec![block]), vec![Some("graph TD; A-->B".to_string())]);
}

#[test]
fn mermaid_heights_are_clamped() {
    assert_eq!(mermaid_preview_height(0), 120);
    assert_eq!(mermaid_preview_height(150), 170);
    assert_eq!(mermaid_preview_height(1000), 260);
}

#[test]
fn base64_matches_the_standard_alphabet() {
    assert_eq!(base64_encode(&b"foobar".to_vec()), "Zm9vYmFy");
    assert_eq!(base64_encode(&b"fo".to_vec()), "Zm8=");
    assert_eq!(base64_encode(&b"f".to_vec()), "Zg==");
    assert_eq!(base64_encode(&vec![0xfb, 0xff]), "+/8=");
}

#[test]
fn long_block_quotes_are_cut_into_page_sized_chunks() {
    let lines: Vec<BlockquoteLine> = (0..40).map(|i| BlockquoteLine::Text(vec![plain(&format!("line {i}"))])).collect();
    let chunks = render_blockquote_html_chunks(&lines, 732);
    assert_eq!(chunks.len(), 2);
    assert_eq!(chunks[0].1, 32 + 31 * 22);
    assert_eq!(chunks[1].1, 32 + 9 * 22);
    let empty = render_blockquote_html_chunks(&vec![], 732);
    assert_eq!(empty, vec![("<blockquote></blockquote>".to_string(), 32)]);
}

#[test]
fn blocks_past_the_page_limit_start_a_new_page() {
    let blocks: Vec<MarkdownBlock> = (0..20)
        .map(|_| MarkdownBlock::Paragraph { spans: vec![plain("p")], source: BlockSource::single(1) })
        .collect();
    let html = build_preview_html(&blocks, &vec![]);
    assert_eq!(html.matches("<section class=\"page\">").count(), 2);
    let one = build_preview_html(&vec![], &vec![]);
    assert_eq!(one.matches("<section class=\"page\">").count(), 1);
}

#[test]
fn a_quote_line_taller_than_the_page_gets_a_chunk_of_its_own() {
    let lines = vec![
        BlockquoteLine::DisplayMath("x".to_string()),
        BlockquoteLine::DisplayMath("y".to_string()),
    ];
    let chunks = render_blockquote_html_chunks(&lines, 40);
    assert_eq!(chunks.len(), 2);
    assert_eq!(chunks[0].1, 32 + 34);
    assert_eq!(chunks[1].1, 32 + 34);
    assert!(chunks[0].0.starts_with("<blockquote>") && chunks[0].0.ends_with("</blockquote>"));
}
