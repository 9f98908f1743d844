use minipdf::ast::{parse_commonmark_xml, NodeTag};
use minipdf::blocks::{parse_markdown_blocks, BlockquoteLine, MarkdownBlock, MAX_SPACER_LINES};
use minipdf::spans::InlineSpan;

fn plain_text(spans: &[InlineSpan]) -> String {
    spans.iter().map(|s| s.text.as_str()).collect()
}

#[allow(dead_code)]
fn blockquote_plain_text(lines: &[BlockquoteLine]) -> String {
    let mut out = String::new();
    for (idx, line) in lines.iter().enumerate() {
        if idx > 0 {
            out.push('\n');
        }
        match line {
            BlockquoteLine::Text(spans) => out.push_str(&plain_text(spans)),
            BlockquoteLine::DisplayMath(expr) => out.push_str(expr),
            BlockquoteLine::CodeBlock { code } => out.push_str(code),
        }
    }
    out
}

#[test]
fn parse_ordered_list_separate_blocks() {
    let md = "1. first\n2. second\n";
    let b = parse_markdown_blocks(md);
    assert_eq!(b.len(), 2);
    match (&b[0], &b[1]) {
        (
            MarkdownBlock::OrderedListItem { n: 1, indent: 0, spans: a, .. },
            MarkdownBlock::OrderedListItem { n: 2, indent: 0, spans: b, .. },
        ) => {
            assert_eq!(plain_text(a), "first");
            assert_eq!(plain_text(b), "second");
        }
        _ => panic!("unexpected blocks: {b:?}"),
    }
}

#[test]
fn parse_table_rows() {
    let md = "| A | B |\n| --- | --- |\n| 1 | 2 |\n";
    let b = parse_markdown_blocks(md);
    assert_eq!(b.len(), 1);
    match &b[0] {
        MarkdownBlock::Table { rows, .. } => assert!(rows.len() >= 2, "rows={:?}", rows),
        _ => panic!("expected table"),
    }
}

#[test]
fn bold_and_inline_code_in_paragraph() {
    let md = "Hello **world** and `code`.\n";
    let b = parse_markdown_blocks(md);
    match &b[0] {
        MarkdownBlock::Paragraph { spans, .. } => {
            assert!(spans.iter().any(|s| s.style.bold && s.text.contains("world")), "{spans:?}");
            assert!(spans.iter().any(|s| s.style.code && s.text == "code"), "{spans:?}");
        }
        _ => panic!("expected paragraph: {b:?}"),
    }
}

#[test]
fn paragraph_soft_break_becomes_newline() {
    let md = "line one\nline two\n";
    let b = parse_markdown_blocks(md);
    match &b[0] {
        MarkdownBlock::Paragraph { spans, .. } => {
            let t = plain_text(spans);
            assert!(t.contains('\n'), "expected single newline in paragraph to stay as line break, got {t:?}");
        }
        _ => panic!("expected paragraph: {b:?}"),
    }
}

#[test]
fn spacer_block_clamps_excess_blank_lines() {
    let moderate = "first paragraph\n\n\n\n\n\nsecond paragraph\n";
    let blocks = parse_markdown_blocks(moderate);
    let spacer_lines = blocks.iter().find_map(|block| match block {
        MarkdownBlock::Spacer { lines, .. } => Some(*lines),
        _ => None,
    });
    assert_eq!(spacer_lines, Some(5), "{blocks:?}");

    let mut huge = String::from("first paragraph\n");
    huge.extend(std::iter::repeat_n('\n', 60));
    huge.push_str("second paragraph\n");
    let blocks = parse_markdown_blocks(&huge);
    let spacer_lines = blocks.iter().find_map(|block| match block {
        MarkdownBlock::Spacer { lines, .. } => Some(*lines),
        _ => None,
    });
    assert_eq!(spacer_lines, Some(MAX_SPACER_LINES), "{blocks:?}");
}

#[test]
fn unclosed_mermaid_fence_stops_before_following_heading() {
    let md = "```mermaid\nflowchart TD\n    A -->\n\n## after\n";
    let blocks = parse_markdown_blocks(md);
    assert!(
        matches!(&blocks[0], MarkdownBlock::CodeBlock { lang, .. } if lang == "mermaid"),
        "{blocks:?}"
    );
    assert!(
        blocks.iter().any(|block| matches!(
            block,
            MarkdownBlock::Heading { level: 2, spans, .. } if plain_text(spans).contains("after")
        )),
        "{blocks:?}"
    );
}

#[test]
fn inline_math_spans_are_detected() {
    let md = "インライン数式 $E = mc^2$ を確認します。\n";
    let blocks = parse_markdown_blocks(md);
    assert_eq!(blocks.len(), 1, "{blocks:?}");
    match &blocks[0] {
        MarkdownBlock::Paragraph { spans, .. } => {
            assert!(spans.iter().any(|s| s.style.math), "{spans:?}");
            let text = plain_text(spans);
            assert!(text.contains("E = mc^2"), "{text}");
            assert!(!text.contains('$'), "{text}");
        }
        other => panic!("unexpected block: {other:?}"),
    }
}

#[test]
fn paragraph_hard_break_is_preserved_for_windows_newlines() {
    let md = "line one  \r\nline two\r\n";
    let b = parse_markdown_blocks(md);
    match &b[0] {
        MarkdownBlock::Paragraph { spans, .. } => {
            let t = plain_text(spans);
            assert!(t.contains('\n'), "expected Windows newline hard break to stay as line break, got {t:?}");
            assert!(t.contains("line one"), "expected first line to survive, got {t:?}");
            assert!(t.contains("line two"), "expected second line to survive, got {t:?}");
        }
        _ => panic!("expected paragraph: {b:?}"),
    }
}

#[test]
fn intro_cjk_soft_break_before_list_stays_single_paragraph() {
    let md = "# Title\n\nこのファイルは、Markdownレンダラーが各種Markdown構文を正し\nく描画できるか確認するためのテスト用Markdownです。\n\n確認対象:\n\n- CommonMark\n";
    let blocks = parse_markdown_blocks(md);
    let intro = blocks.iter().find_map(|block| {
        if let MarkdownBlock::Paragraph { spans, source } = block {
            let text = plain_text(spans);
            if text.contains("正し") && text.contains("く描画") {
                return Some((spans.clone(), *source));
            }
            None
        } else {
            None
        }
    });
    let (spans, source) = intro.expect("expected one intro paragraph with a soft break");
    let text = plain_text(&spans);
    assert!(text.contains('\n'), "expected soft break newline, got {text:?}");
    assert!(source.end_line > source.start_line, "expected multi-line source range");
    let layout_lines = minipdf::layout::layout_spans_lines_with_source(&spans, 90, source);
    assert!(layout_lines.len() >= 2, "expected wrapped/soft-break layout lines, got {}", layout_lines.len());
}

#[test]
fn intro_cjk_blank_line_between_halves_splits_into_separate_paragraphs() {
    let md = "# Title\n\nこのファイルは、Markdownレンダラーが各種Markdown構文を正し\n\nく描画できるか確認するためのテスト用Markdownです。\n\n確認対象:\n\n- CommonMark\n";
    let blocks = parse_markdown_blocks(md);
    let intro_paras: Vec<_> = blocks
        .iter()
        .filter_map(|block| {
            if let MarkdownBlock::Paragraph { spans, .. } = block {
                let text = plain_text(spans);
                if text.contains("正し") || text.contains("く描画") {
                    Some(text)
                } else {
                    None
                }
            } else {
                None
            }
        })
        .collect();
    assert_eq!(intro_paras.len(), 2, "expected blank line to split intro into two paragraphs, got {intro_paras:?}");
    assert!(blocks.iter().any(|block| matches!(block, MarkdownBlock::Spacer { .. })), "expected spacer between split paragraphs");
}

#[test]
fn paragraph_soft_breaks_survive_ascii_and_cjk_input() {
    let md = "ASCII input\nnext line\n\n半角入力\n次の行\n";
    let b = parse_markdown_blocks(md);
    assert_eq!(b.len(), 3, "{b:?}");
    match (&b[0], &b[1], &b[2]) {
        (
            MarkdownBlock::Paragraph { spans: first, .. },
            MarkdownBlock::Spacer { lines: 1, .. },
            MarkdownBlock::Paragraph { spans: second, .. },
        ) => {
            let first_text = plain_text(first);
            let second_text = plain_text(second);
            assert!(first_text.contains('\n'), "expected ASCII paragraph to preserve line break, got {first_text:?}");
            assert!(second_text.contains('\n'), "expected CJK paragraph to preserve line break, got {second_text:?}");
        }
        _ => panic!("expected paragraph, spacer, paragraph blocks: {b:?}"),
    }
}

#[test]
fn nested_bullet_list_is_flattened_with_indent() {
    let md = "- a\n- b\n  - nested\n";
    let b = parse_markdown_blocks(md);
    assert_eq!(b.len(), 3, "{b:?}");
    match (&b[0], &b[1], &b[2]) {
        (
            MarkdownBlock::ListItem { indent: 0, spans: a, .. },
            MarkdownBlock::ListItem { indent: 0, spans: b, .. },
            MarkdownBlock::ListItem { indent: 1, spans: n, .. },
        ) => {
            assert!(plain_text(a).contains('a'));
            assert!(plain_text(b).contains('b'));
            assert!(plain_text(n).contains("nested"));
        }
        _ => panic!("unexpected blocks: {b:?}"),
    }
}

#[test]
fn thematic_break_emits_block() {
    let md = "before\n\n---\n\nafter\n";
    let b = parse_markdown_blocks(md);
    assert!(b.iter().any(|x| matches!(x, MarkdownBlock::ThematicBreak { .. })), "{b:?}");
}

#[test]
fn blank_lines_between_top_level_blocks_emit_spacers() {
    let md = "first paragraph\n\n\nsecond paragraph\n";
    let blocks = parse_markdown_blocks(md);
    assert!(blocks.iter().any(|block| matches!(block, MarkdownBlock::Spacer { lines, .. } if *lines >= 1)), "{blocks:?}");
}

#[test]
fn blank_lines_after_thematic_break_before_heading_emit_spacer() {
    let md = "---\n  \n \n\n## 1. 見出し\n";
    let blocks = parse_markdown_blocks(md);
    let spacer = blocks.iter().find_map(|block| match block {
        MarkdownBlock::Spacer { lines, source } => Some((*lines, *source)),
        _ => None,
    });
    assert!(spacer.map(|(lines, _)| lines >= 3).unwrap_or(false), "expected blank lines after --- before heading, got {blocks:?}");
    let order: Vec<_> = blocks
        .iter()
        .map(|block| match block {
            MarkdownBlock::ThematicBreak { .. } => "hr",
            MarkdownBlock::Spacer { .. } => "spacer",
            MarkdownBlock::Heading { .. } => "heading",
            _ => "other",
        })
        .collect();
    assert_eq!(order, vec!["hr", "spacer", "heading"], "{blocks:?}");
}

#[test]
fn blank_lines_between_list_items_emit_spacer() {
    let md = "- first item\n\n\n- second item\n";
    let blocks = parse_markdown_blocks(md);
    assert!(blocks.iter().any(|block| matches!(block, MarkdownBlock::Spacer { lines, .. } if *lines >= 2)), "{blocks:?}");
    let order: Vec<_> = blocks
        .iter()
        .map(|block| match block {
            MarkdownBlock::ListItem { spans, .. } => plain_text(spans),
            MarkdownBlock::Spacer { .. } => "<spacer>".to_string(),
            _ => "?".to_string(),
        })
        .collect();
    assert_eq!(order, vec!["first item", "<spacer>", "second item"], "{blocks:?}");
}

#[test]
fn parenthesized_math_lines_are_normalized_to_display_math() {
    let md = "これは `\\(...\\)` 形式です。\n\n\\( E = mc^2 \\)\n";
    let blocks = parse_markdown_blocks(md);
    assert_eq!(blocks.len(), 3, "{blocks:?}");
    match &blocks[0] {
        MarkdownBlock::Paragraph { spans, .. } => {
            let text = plain_text(spans);
            assert!(text.contains("これは"), "{text}");
            assert!(spans.iter().any(|s| s.style.code), "{spans:?}");
        }
        other => panic!("unexpected block: {other:?}"),
    }
    assert!(matches!(&blocks[1], MarkdownBlock::Spacer { lines: 1, .. }), "{blocks:?}");
    match &blocks[2] {
        MarkdownBlock::DisplayMath { expr, .. } => assert!(expr.contains("E = mc^2"), "{expr}"),
        other => panic!("unexpected block: {other:?}"),
    }
}

#[test]
fn blockquote_long_text_wraps_into_multiple_lines() {
    let md = format!("> {}\n", "this is a long blockquote line that should wrap because it would otherwise overflow the frame by a large margin");
    let blocks = parse_markdown_blocks(&md);
    assert_eq!(blocks.len(), 1, "{blocks:?}");
    match &blocks[0] {
        MarkdownBlock::Blockquote { lines, .. } => {
            assert!(lines.len() > 1, "expected long blockquote text to wrap into multiple lines: {lines:?}");
        }
        other => panic!("unexpected block: {other:?}"),
    }
}

#[test]
fn blockquote_paragraphs_collapse_into_one_block() {
    let md = "> one\n>\n> two\n> > nested\n";
    let blocks = parse_markdown_blocks(md);
    assert_eq!(blocks.len(), 1, "{blocks:?}");
    match &blocks[0] {
        MarkdownBlock::Blockquote { lines, .. } => {
            let text = blockquote_plain_text(lines);
            assert!(text.contains("one"), "{text}");
            assert!(text.contains("two"), "{text}");
            assert!(text.contains('>'), "{text}");
        }
        other => panic!("unexpected block: {other:?}"),
    }
}

#[test]
fn nested_blockquote_levels_insert_line_breaks() {
    let md = "> Level 1\n>\n> > Level 2\n> > > Level 3\n";
    let blocks = parse_markdown_blocks(md);
    assert_eq!(blocks.len(), 1, "{blocks:?}");
    match &blocks[0] {
        MarkdownBlock::Blockquote { lines, .. } => {
            let text = blockquote_plain_text(lines);
            assert!(text.contains("Level 1"), "{text}");
            assert!(text.contains("Level 2"), "{text}");
            assert!(text.contains("Level 3"), "{text}");
            assert!(text.contains('\n'), "{text:?}");
        }
        other => panic!("unexpected block: {other:?}"),
    }
}

#[test]
fn thematic_break_variants_are_all_parsed_as_breaks() {
    let blocks = parse_markdown_blocks("---\n***\n___\n");
    assert_eq!(blocks.len(), 3, "{blocks:?}");
    assert!(blocks.iter().all(|block| matches!(block, MarkdownBlock::ThematicBreak { .. })), "{blocks:?}");
    let html = minipdf::html::build_preview_html(&blocks, &vec![]);
    assert_eq!(html.matches("class=\"hr-hyphen\"").count(), 1, "{html}");
    assert_eq!(html.matches("class=\"hr-asterisk\"").count(), 1, "{html}");
    assert_eq!(html.matches("class=\"hr-underscore\"").count(), 1, "{html}");
}

#[test]
fn blockquote_display_math_is_preserved_as_a_separate_line() {
    let md = "> intro\n>\n> $$\n> x = y + z\n> $$\n>\n> outro\n";
    let blocks = parse_markdown_blocks(md);
    assert_eq!(blocks.len(), 1, "{blocks:?}");
    match &blocks[0] {
        MarkdownBlock::Blockquote { lines, .. } => {
            assert!(
                lines.iter().any(|line| matches!(line, BlockquoteLine::DisplayMath(expr) if expr.contains("x = y + z"))),
                "{lines:?}"
            );
            let text = blockquote_plain_text(lines);
            assert!(text.contains("intro"), "{text}");
            assert!(text.contains("outro"), "{text}");
        }
        other => panic!("unexpected block: {other:?}"),
    }
}

#[test]
fn blockquote_lists_and_code_become_quoted_lines() {
    let md = "> 1. one\n> - two\n>\n> ```\n> code\n> ```\n";
    let blocks = parse_markdown_blocks(md);
    match &blocks[0] {
        MarkdownBlock::Blockquote { lines, .. } => {
            let text = blockquote_plain_text(lines);
            assert!(text.contains("1. one"), "{text}");
            assert!(text.contains("• two"), "{text}");
            assert!(lines.iter().any(|l| matches!(l, BlockquoteLine::CodeBlock { code } if code == "code")), "{lines:?}");
        }
        other => panic!("unexpected block: {other:?}"),
    }
}

#[test]
fn headings_code_and_math_blocks_are_recognised() {
    let md = "# Top\n\n```Rust\nfn main() {}\n```\n\n$$\nE = mc^2\n$$\n\n\\[\na + b\n\\]\n";
    let blocks = parse_markdown_blocks(md);
    assert!(matches!(&blocks[0], MarkdownBlock::Heading { level: 1, spans, .. } if plain_text(spans) == "Top"), "{blocks:?}");
    assert!(blocks.iter().any(|b| matches!(b, MarkdownBlock::CodeBlock { lang, code, .. } if lang == "rust" && code == "fn main() {}\n")), "{blocks:?}");
    let maths: Vec<_> = blocks
        .iter()
        .filter_map(|b| match b {
            MarkdownBlock::DisplayMath { expr, .. } => Some(expr.clone()),
            _ => None,
        })
        .collect();
    assert_eq!(maths, vec!["E = mc^2".to_string(), "a + b".to_string()], "{blocks:?}");
}

#[test]
fn empty_markdown_gives_no_blocks() {
    assert!(parse_markdown_blocks("").is_empty());
    assert!(parse_markdown_blocks("\n\n\n").is_empty());
}

#[test]
fn code_fence_info_strings_with_quotes_are_kept_whole() {
    let cases = [
        ("```x\" math_style=\"display\nbody\n```\n", "x\" math_style=\"display"),
        ("```Js\" xml:space=\"preserve\">\nbody\n```\n", "js\" xml:space=\"preserve\">"),
        ("```math\nbody\n```\n", "math"),
        ("```math\" math_style=\"display\nbody\n```\n", "math\" math_style=\"display"),
    ];
    for (md, want) in cases {
        let blocks = parse_markdown_blocks(md);
        assert_eq!(blocks.len(), 1, "{blocks:?}");
        match &blocks[0] {
            MarkdownBlock::CodeBlock { lang, code, .. } => {
                assert_eq!(lang, want);
                assert_eq!(code, "body\n");
            }
            MarkdownBlock::DisplayMath { .. } if want == "math" => {}
            other => panic!("unexpected block: {other:?}"),
        }
    }
}

#[test]
fn commonmark_xml_is_read_into_a_tree() {
    let xml = "<?xml version=\"1.0\" encoding=\"UTF-8\"?>\n<!DOCTYPE document SYSTEM \"CommonMark.dtd\">\n<document sourcepos=\"1:1-5:3\" xmlns=\"http://commonmark.org/xml/1.0\">\n  <paragraph sourcepos=\"1:1-1:9\">\n    <text sourcepos=\"1:1-1:9\" xml:space=\"preserve\">a &amp; &lt;b&gt;</text>\n  </paragraph>\n  <code_block sourcepos=\"3:1-5:3\" info=\"x\" y\" xml:space=\"preserve\">q &quot;r&quot;\n</code_block>\n</document>\n";
    let doc = parse_commonmark_xml(xml).expect("well-formed tree");
    assert_eq!(doc.tag, NodeTag::Document);
    assert_eq!(doc.children.len(), 2);
    let para = &doc.children[0];
    assert_eq!(para.tag, NodeTag::Paragraph);
    assert_eq!((para.start_line, para.end_line), (1, 1));
    assert_eq!(para.children[0].tag, NodeTag::Text);
    assert_eq!(para.children[0].text.iter().collect::<String>(), "a & <b>");
    let code = &doc.children[1];
    assert_eq!(code.tag, NodeTag::CodeBlock);
    assert_eq!(code.info.iter().collect::<String>(), "x\" y");
    assert_eq!(code.text.iter().collect::<String>(), "q \"r\"\n");
    assert_eq!((code.start_line, code.end_line), (3, 5));
    assert!(parse_commonmark_xml("<paragraph></paragraph>").is_none());
    assert!(parse_commonmark_xml("<document sourcepos=\"1:1-1:1\">").is_none());
}
