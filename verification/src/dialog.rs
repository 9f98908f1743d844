//! What the save dialog offers for each kind of file.
use vstd::prelude::*;

use crate::ast::eq_lit;
use crate::text::chars_of;

verus! {

/// The suggested file name and the file-type filter of a save dialog.
#[derive(Clone, Copy, Debug)]
pub struct SaveDialogPreset {
    pub file_name: &'static str,
    pub filter_label: &'static str,
    pub filter_extensions: &'static [&'static str],
}

/// The dialog for saving markdown (`target` is `"markdown"`): `output.md` under a
/// Markdown filter of `md`; for any other target, `output.pdf` under a PDF filter of `pdf`.
pub fn save_dialog_preset(target: &str) -> (p: SaveDialogPreset)
    ensures
        target@ == "markdown"@ ==> p.file_name@ == "output.md"@ && p.filter_label@ == "Markdown"@
            && p.filter_extensions@.len() == 1 && p.filter_extensions@[0]@ == "md"@,
        target@ != "markdown"@ ==> p.file_name@ == "output.pdf"@ && p.filter_label@ == "PDF"@
            && p.filter_extensions@.len() == 1 && p.filter_extensions@[0]@ == "pdf"@,
{
    if eq_lit(&chars_of(target), "markdown") {
        SaveDialogPreset { file_name: "output.md", filter_label: "Markdown", filter_extensions: &["md"] }
    } else {
        SaveDialogPreset { file_name: "output.pdf", filter_label: "PDF", filter_extensions: &["pdf"] }
    }
}

} // verus!
