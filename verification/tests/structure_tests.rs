use minipdf::fonts::{
    default_font_files, get_available_fonts, get_font_dir, get_font_path, is_font_available, rescan_fonts,
    FontRegistry,
};
use minipdf::logger::{log_error, log_error_str, log_operation_complete, log_operation_start, LogLevel};
use minipdf::pdf_structure::{
    add_page, delete_page, find_element, image_format_from_name, text_line_count, reorder_pages, ImageFormat, Page, PageEditError, PdfMetadata, PdfStructure,
};
use minipdf::preview::{record_code_block_source_lines, MarkdownPreviewResult, PreviewLayoutState};
use minipdf::layout::BlockSource;

fn doc(n: u32) -> PdfStructure<&'static str> {
    let names = ["a", "b", "c", "d"];
    PdfStructure {
        pages: (0..n)
            .map(|i| Page { page_number: i + 1, source_page_number: Some(i + 1), content: names[i as usize] })
            .collect(),
        metadata: PdfMetadata::default(),
        file_path: "/test/path.pdf".to_string(),
    }
}

fn contents(pdf: &PdfStructure<&'static str>) -> Vec<&'static str> {
    pdf.pages.iter().map(|p| p.content).collect()
}

fn numbers(pdf: &PdfStructure<&'static str>) -> Vec<u32> {
    pdf.pages.iter().map(|p| p.page_number).collect()
}

#[test]
fn test_add_page() {
    let updated = add_page(doc(1), 2, "new", true).expect("add_page should succeed");
    assert_eq!(updated.pages.len(), 2);
    assert_eq!(updated.pages[1].page_number, 2);
    assert_eq!(updated.pages[1].source_page_number, None);
}

#[test]
fn test_delete_page() {
    let updated = delete_page(doc(2), 1).expect("delete_page should succeed");
    assert_eq!(updated.pages.len(), 1);
    assert_eq!(updated.pages[0].page_number, 1);
    assert_eq!(updated.pages[0].content, "b");
}

#[test]
fn test_reorder_pages() {
    let updated = reorder_pages(doc(2), 1, 2).expect("reorder_pages should succeed");
    assert_eq!(updated.pages[0].page_number, 1);
    assert_eq!(updated.pages[1].page_number, 2);
}

#[test]
fn page_operations_refuse_bad_numbers() {
    assert_eq!(add_page(doc(2), 0, "x", true).err(), Some(PageEditError::InvalidPageNumber(0)));
    assert_eq!(add_page(doc(2), 4, "x", true).err(), Some(PageEditError::InvalidPageNumber(4)));
    assert_eq!(add_page(doc(2), 3, "x", false).err(), Some(PageEditError::InvalidPageSize));
    assert_eq!(delete_page(doc(2), 3).err(), Some(PageEditError::InvalidPageNumber(3)));
    assert_eq!(delete_page(doc(1), 1).err(), Some(PageEditError::LastPage));
    assert_eq!(reorder_pages(doc(2), 0, 1).err(), Some(PageEditError::InvalidPageIndex(0, 1)));
    assert_eq!(reorder_pages(doc(2), 1, 3).err(), Some(PageEditError::InvalidPageIndex(1, 3)));
}

#[test]
fn pages_move_and_keep_their_numbering() {
    let moved_up = reorder_pages(doc(4), 1, 3).unwrap();
    assert_eq!(contents(&moved_up), vec!["b", "a", "c", "d"]);
    assert_eq!(numbers(&moved_up), vec![1, 2, 3, 4]);
    let moved_down = reorder_pages(doc(4), 4, 2).unwrap();
    assert_eq!(contents(&moved_down), vec!["a", "d", "b", "c"]);
    let same = reorder_pages(doc(3), 2, 2).unwrap();
    assert_eq!(contents(&same), vec!["a", "b", "c"]);
    let inserted = add_page(doc(3), 2, "n", true).unwrap();
    assert_eq!(contents(&inserted), vec!["a", "n", "b", "c"]);
    assert_eq!(numbers(&inserted), vec![1, 2, 3, 4]);
}

#[test]
fn page_numbers_are_validated_and_renumbered() {
    let mut pdf = doc(3);
    pdf.pages[1].page_number = 7;
    assert_eq!(
        pdf.validate_page_numbers(),
        Err("ページ番号が不正です: 期待値 2, 実際の値 7".to_string())
    );
    pdf.renumber_pages();
    assert_eq!(pdf.validate_page_numbers(), Ok(()));
    assert_eq!(doc(0).validate_page_numbers(), Ok(()));
}

#[test]
fn metadata_defaults_to_empty() {
    let m = PdfMetadata::default();
    assert!(m.title.is_none() && m.author.is_none() && m.modification_date.is_none());
    assert_ne!(ImageFormat::Jpeg, ImageFormat::Png);
}

#[test]
fn font_registry_maps_names_to_paths() {
    let mut reg = FontRegistry::new("/app/fonts".to_string());
    assert_eq!(get_font_dir(&reg), "/app/fonts");
    assert!(!is_font_available(&reg, "NotoSansJP"));
    reg.register_font("NotoSansJP".to_string(), "/a.ttf".to_string());
    reg.register_font("NotoSansJP".to_string(), "/b.ttf".to_string());
    reg.register_font("Emoji".to_string(), "/e.ttf".to_string());
    assert_eq!(get_font_path(&reg, "NotoSansJP"), Some("/b.ttf".to_string()));
    assert!(is_font_available(&reg, "Emoji"));
    let mut names = get_available_fonts(&reg);
    names.sort();
    assert_eq!(names, vec!["Emoji".to_string(), "NotoSansJP".to_string()]);
}

#[test]
fn default_fonts_and_fallbacks_are_registered() {
    let files = default_font_files();
    assert_eq!(files[0], ("NotoSansJP".to_string(), "NotoSansJP-Regular.ttf".to_string()));
    let mut reg = FontRegistry::new("fonts".to_string());
    reg.initialize_default_fonts(
        vec![None, Some("/f/NotoSansJP-Bold.ttf".to_string()), None],
        Some("/sys/sans.ttf".to_string()),
        None,
    );
    assert_eq!(get_font_path(&reg, "NotoSansJP"), Some("/sys/sans.ttf".to_string()));
    assert_eq!(get_font_path(&reg, "NotoSansJP-Bold"), Some("/f/NotoSansJP-Bold.ttf".to_string()));
    assert_eq!(get_font_path(&reg, "NotoSerifJP"), None);
    assert!(!is_font_available(&reg, "Emoji"));
}

#[test]
fn fonts_added_while_running_are_found_by_a_rescan() {
    let mut reg = FontRegistry::new("fonts".to_string());
    reg.initialize_default_fonts(vec![Some("/f/NotoSansJP-Regular.ttf".to_string()), None, None], None, None);
    assert!(!is_font_available(&reg, "NotoSerifJP"));
    rescan_fonts(
        &mut reg,
        vec![
            Some("/f/NotoSansJP-Regular.ttf".to_string()),
            None,
            Some("/f/NotoSerifJP-Regular.ttf".to_string()),
        ],
        None,
        Some("/sys/emoji.ttf".to_string()),
    );
    assert!(is_font_available(&reg, "NotoSerifJP"));
    assert_eq!(get_font_path(&reg, "NotoSerifJP"), Some("/f/NotoSerifJP-Regular.ttf".to_string()));
    assert_eq!(get_font_path(&reg, "NotoSansJP"), Some("/f/NotoSansJP-Regular.ttf".to_string()));
    assert!(!is_font_available(&reg, "NotoSansJP-Bold"));
    assert_eq!(get_font_path(&reg, "Emoji"), Some("/sys/emoji.ttf".to_string()));
    let mut names = get_available_fonts(&reg);
    names.sort();
    assert_eq!(names, vec!["Emoji".to_string(), "NotoSansJP".to_string(), "NotoSerifJP".to_string()]);
}

#[test]
fn log_records_carry_level_and_message() {
    let r = log_error_str("save", "disk full");
    assert_eq!((r.level, r.message.as_str()), (LogLevel::Error, "save failed: disk full"));
    let rs = log_error("load", "bad file", Some("io"));
    assert_eq!(rs.len(), 2);
    assert_eq!(rs[1].message, "  Caused by: io");
    assert_eq!(log_error("load", "bad file", None).len(), 1);
    let s = log_operation_start("render", Some("3 pages"));
    assert_eq!((s.level, s.message.as_str()), (LogLevel::Info, "render started: 3 pages"));
    let c = log_operation_complete("render", None);
    assert_eq!((c.level, c.message.as_str()), (LogLevel::Debug, "render completed"));
}

#[test]
fn layout_state_maps_lines_to_pages() {
    let mut st = PreviewLayoutState::new(0);
    assert_eq!(st.line_pages, vec![1]);
    let mut st5 = PreviewLayoutState::new(5);
    st5.page_index = 2;
    st5.record_source(BlockSource { start_line: 2, end_line: 3 });
    assert_eq!(st5.line_pages, vec![1, 2, 2, 1, 1]);
    st5.page_index = 3;
    st5.record_line(9);
    st5.record_line(0);
    assert_eq!(st5.line_pages, vec![3, 2, 2, 1, 1]);
    st5.page_index = 4;
    record_code_block_source_lines(&mut st5, BlockSource { start_line: 4, end_line: 5 }, 3);
    assert_eq!(st5.line_pages, vec![3, 2, 2, 4, 4]);
    st.record_line(1);
    let result = MarkdownPreviewResult { file_path: "/tmp/x.pdf".to_string(), line_page_map: st.line_pages.clone() };
    assert_eq!(result.line_page_map, vec![1]);
}

#[test]
fn image_format_names_are_matched_without_case() {
    assert_eq!(image_format_from_name("png"), Some(ImageFormat::Png));
    assert_eq!(image_format_from_name("PNG"), Some(ImageFormat::Png));
    assert_eq!(image_format_from_name("Jpeg"), Some(ImageFormat::Jpeg));
    assert_eq!(image_format_from_name("jpg"), Some(ImageFormat::Jpeg));
    assert_eq!(image_format_from_name("gif"), None);
    assert_eq!(image_format_from_name(""), None);
    assert_eq!(image_format_from_name("png "), None);
}

#[test]
fn elements_are_found_by_id_page_by_page() {
    let ids = vec![
        vec!["a".to_string(), "b".to_string()],
        vec![],
        vec!["c".to_string(), "b".to_string()],
    ];
    assert_eq!(find_element(&ids, "b"), Some((0, 1)));
    assert_eq!(find_element(&ids, "c"), Some((2, 0)));
    assert_eq!(find_element(&ids, "z"), None);
    assert_eq!(find_element(&vec![], "a"), None);
}

#[test]
fn lines_are_counted_as_str_lines_counts_them() {
    for s in ["", "a", "a\n", "a\nb", "\n\n", "a\n\nb\n", "x\r\ny"] {
        assert_eq!(text_line_count(s), s.lines().count(), "{s:?}");
    }
}
