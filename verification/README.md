# minipdf

The logic of a markdown-to-PDF previewer and light PDF editor, verified with Verus.

- `src/` — the verified library: markdown preprocessing and parsing into preview blocks
  (`preprocess`, `ast`, `inline`, `spans`, `blocks`), line breaking (`layout`), the
  line-to-page map of a preview (`preview`), the HTML preview (`html`), the text fallback
  for formulas (`math`), face choice and emoji detection (`glyphs`), the font registry
  (`fonts`), page editing (`pdf_structure`), the command line (`cli`), log records
  (`logger`) and save-dialog presets (`dialog`). Each public function states its result
  exactly; the `law_*` proof functions state what holds across calls.
- `tests/` — tests of the library on concrete values.
- `app/` — the program around it: the command-line renderer, PDF drawing with
  oxidize-pdf (floating-point geometry), font files, mermaid and KaTeX child processes,
  PDF loading and writing, and the editor commands.
