use minipdf::dialog::save_dialog_preset;

#[test]
fn test_placeholder() {}

#[test]
fn test_save_dialog_preset_for_markdown() {
    let preset = save_dialog_preset("markdown");
    assert_eq!(preset.file_name, "output.md");
    assert_eq!(preset.filter_label, "Markdown");
    assert_eq!(preset.filter_extensions, &["md"]);
}

#[test]
fn test_save_dialog_preset_defaults_to_pdf() {
    let preset = save_dialog_preset("pdf");
    assert_eq!(preset.file_name, "output.pdf");
    assert_eq!(preset.filter_label, "PDF");
    assert_eq!(preset.filter_extensions, &["pdf"]);
}
