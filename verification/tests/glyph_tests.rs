use minipdf::blocks::{parse_markdown_blocks, MarkdownBlock};
use minipdf::glyphs::{
    ascii_only, font_for_grapheme, grapheme_has_emoji, graphemes, is_potential_bold_face, pick_font,
    should_fake_italic, should_fake_italic_grapheme, should_raster_faux_italic, text_has_emoji, FaceFlags,
    FontChoice,
};
use minipdf::spans::{InlineSpan, TextStyle};

fn plain_text(spans: &[InlineSpan]) -> String {
    spans.iter().map(|s| s.text.as_str()).collect()
}

fn italic() -> TextStyle {
    TextStyle { italic: true, ..TextStyle::default() }
}

fn custom_faces() -> FaceFlags {
    FaceFlags { has_custom_bold: true, has_custom_bold_italic: true, has_emoji_font: false, has_body_path: true }
}

fn standard_faces() -> FaceFlags {
    FaceFlags { has_custom_bold: false, has_custom_bold_italic: false, has_emoji_font: false, has_body_path: false }
}

#[test]
fn emoji_detection_matches_common_symbols() {
    assert!(text_has_emoji("😀"), "expected grinning face to be detected");
    assert!(text_has_emoji("日本語 🚀"), "expected mixed text with emoji to be detected");
    assert!(grapheme_has_emoji("⚠️"), "expected warning sign with variation selector");
    assert!(grapheme_has_emoji("🧪"), "expected test tube emoji to be detected");
    assert!(!text_has_emoji("日本語"), "expected plain Japanese text to stay non-emoji");
}

#[test]
fn links_are_marked_and_italic_japanese_requests_fake_slant() {
    let md = "これは [OpenAI](https://openai.com) と *日本語* の確認です。\n";
    let blocks = parse_markdown_blocks(md);
    assert_eq!(blocks.len(), 1, "{blocks:?}");
    match &blocks[0] {
        MarkdownBlock::Paragraph { spans, .. } => {
            assert!(spans.iter().any(|s| s.style.link), "{spans:?}");
            assert!(spans.iter().any(|s| should_fake_italic(s.style, &s.text)), "{spans:?}");
        }
        other => panic!("unexpected block: {other:?}"),
    }
}

#[test]
fn japanese_italic_uses_body_font_for_faux_slant() {
    let face = custom_faces();
    assert_eq!(pick_font(face, italic(), "日本語"), FontChoice::Body);
    let bold_italic = TextStyle { italic: true, bold: true, ..TextStyle::default() };
    assert_eq!(pick_font(face, bold_italic, "日本語"), FontChoice::BodyBold);
}

#[test]
fn japanese_inline_emphasis_sample_marks_all_three_styles() {
    let md = "通常文の中に **太字**、*斜体*、***太字斜体*** を含めます。\n";
    let blocks = parse_markdown_blocks(md);
    assert_eq!(blocks.len(), 1, "{blocks:?}");
    match &blocks[0] {
        MarkdownBlock::Paragraph { spans, .. } => {
            assert!(spans.iter().any(|s| s.text == "太字" && s.style.bold && !s.style.italic), "{spans:?}");
            assert!(spans.iter().any(|s| s.text == "斜体" && !s.style.bold && s.style.italic), "{spans:?}");
            assert!(spans.iter().any(|s| s.text == "太字斜体" && s.style.bold && s.style.italic), "{spans:?}");
            assert!(plain_text(spans).contains("を含めます。"), "{spans:?}");
        }
        other => panic!("unexpected block: {other:?}"),
    }
}

#[test]
fn japanese_non_emoji_italic_requests_full_span_raster_slant() {
    let face = custom_faces();
    let bold_italic = TextStyle { bold: true, italic: true, ..TextStyle::default() };
    assert!(should_raster_faux_italic(face, italic(), "斜体"));
    assert!(should_raster_faux_italic(face, bold_italic, "太字斜体"));
    assert!(!should_raster_faux_italic(face, italic(), "ABC"));
    assert!(!should_raster_faux_italic(face, italic(), "斜体😀"));
}

#[test]
fn mixed_emoji_text_still_requests_fake_italic_for_japanese_graphemes() {
    let style = italic();
    assert!(should_fake_italic_grapheme(style, "日本語"), "Japanese graphemes in a mixed emoji span should still be slanted");
    assert!(!should_fake_italic_grapheme(style, "😀"), "emoji graphemes should be rasterized instead of slanted");
    assert!(!should_fake_italic_grapheme(style, "ABC"), "ASCII text should keep the normal italic font path");
}

#[test]
fn faces_follow_style_and_script() {
    let std_faces = standard_faces();
    let code = TextStyle { code: true, ..TextStyle::default() };
    let math = TextStyle { math: true, ..TextStyle::default() };
    let bold = TextStyle { bold: true, ..TextStyle::default() };
    let bold_italic = TextStyle { bold: true, italic: true, ..TextStyle::default() };
    assert_eq!(pick_font(std_faces, code, "let x"), FontChoice::Courier);
    assert_eq!(pick_font(std_faces, code, "変数"), FontChoice::Body);
    assert_eq!(pick_font(std_faces, math, "x^2"), FontChoice::TimesItalic);
    assert_eq!(pick_font(std_faces, bold, "ABC"), FontChoice::HelveticaBold);
    assert_eq!(pick_font(std_faces, bold_italic, "ABC"), FontChoice::HelveticaBoldOblique);
    assert_eq!(pick_font(std_faces, italic(), "ABC"), FontChoice::BodyItalic);
    let with_emoji = FaceFlags { has_emoji_font: true, ..std_faces };
    assert_eq!(font_for_grapheme(with_emoji, TextStyle::default(), "😀"), FontChoice::Emoji);
    assert_eq!(font_for_grapheme(std_faces, TextStyle::default(), "😀"), FontChoice::Body);
    assert_eq!(font_for_grapheme(with_emoji, code, "😀"), FontChoice::Body);
    assert!(is_potential_bold_face(std_faces, bold, "太字"));
    assert!(!is_potential_bold_face(custom_faces(), bold, "太字"));
    assert!(!is_potential_bold_face(std_faces, bold, "bold"));
}

#[test]
fn graphemes_cover_the_text() {
    let gs = graphemes("a\r\nb🇷🇺🇸🇹");
    assert_eq!(gs, vec!["a", "\r\n", "b", "🇷🇺", "🇸🇹"]);
    assert!(ascii_only("plain text"));
    assert!(!ascii_only("ü"));
}
