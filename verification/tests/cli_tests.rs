use minipdf::cli::{default_output_path, parse_args, usage};

fn args(list: &[&str]) -> Vec<String> {
    list.iter().map(|s| s.to_string()).collect()
}

#[test]
fn parse_args_supports_explicit_output_path() {
    let (input, output) = parse_args(&args(&["input.md", "--output", "out.pdf"])).expect("args should parse");
    assert_eq!(input, "input.md");
    assert_eq!(output, "out.pdf");
}

#[test]
fn parse_args_defaults_output_path_from_input_stem() {
    let (input, output) = parse_args(&args(&["fixtures/check.md"])).expect("args should parse");
    assert_eq!(input, "fixtures/check.md");
    assert_eq!(output, "fixtures/check.preview.pdf");
}

#[test]
fn positional_output_and_short_option_are_accepted() {
    assert_eq!(parse_args(&args(&["a.md", "b.pdf"])), Ok(("a.md".to_string(), "b.pdf".to_string())));
    assert_eq!(parse_args(&args(&["-o", "x.pdf", "a.md"])), Ok(("a.md".to_string(), "x.pdf".to_string())));
}

#[test]
fn argument_errors_carry_the_usage() {
    assert_eq!(parse_args(&args(&["--help"])), Err(usage()));
    assert_eq!(parse_args(&args(&[])), Err(usage()));
    assert_eq!(parse_args(&args(&["a.md", "-o"])), Err(usage()));
    assert_eq!(
        parse_args(&args(&["-x"])),
        Err(format!("不明なオプションです: -x\n\n{}", usage()))
    );
    assert_eq!(
        parse_args(&args(&["a.md", "b.pdf", "c.pdf"])),
        Err(format!("引数が多すぎます。\n\n{}", usage()))
    );
    assert!(usage().starts_with("Usage:\n  markdown_preview_cli <input.md> [output.pdf]"));
}

#[test]
fn default_output_path_replaces_the_extension() {
    assert_eq!(default_output_path("notes.md"), "notes.preview.pdf");
    assert_eq!(default_output_path("dir/readme"), "dir/readme.preview.pdf");
}

