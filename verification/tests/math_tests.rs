use minipdf::math::{
    format_cases_environment, format_math_expression, normalize_math_for_katex, replace_frac_notation,
    simplify_math_line, split_math_rows, try_format_math_expression,
};

#[test]
fn display_math_expression_is_simplified() {
    let lines = format_math_expression(
        "\\sum_{i=1}^{n} i = \\frac{n(n+1)}{2}\n\\int_{-\\infty}^{\\infty} e^{-x^2} dx = \\sqrt{\\pi}",
    );
    let joined = lines.join("\n");
    assert!(joined.contains('∑'), "{joined}");
    assert!(joined.contains('∫'), "{joined}");
    assert!(joined.contains('∞'), "{joined}");
    assert!(joined.contains('√'), "{joined}");
    assert!(!joined.contains("\\frac"), "{joined}");
    assert!(!joined.contains("\\sum"), "{joined}");
}

#[test]
fn vector_norm_notation_is_preserved_in_fallback_math() {
    let lines = format_math_expression("\\|\\mathbf{x}\\|_2 = \\sqrt{x_1^2 + x_2^2 + x_3^2}");
    let joined = lines.join("\n");
    assert!(joined.contains('‖'), "{joined}");
    assert!(joined.contains('₂'), "{joined}");
    assert!(joined.contains('√'), "{joined}");
    assert!(!joined.contains("\\|"), "{joined}");
    assert!(!joined.contains("\\mathbf"), "{joined}");
}

#[test]
fn norm_delimiters_are_normalized_for_katex_rendering() {
    let normalized = normalize_math_for_katex("\\left\\|\\mathbf{x}\\right\\|_2 + \\lVert y \\rVert");
    assert!(normalized.contains('‖'), "{normalized}");
    assert!(!normalized.contains("\\left"), "{normalized}");
    assert!(!normalized.contains("\\right"), "{normalized}");
    assert!(!normalized.contains("\\|"), "{normalized}");
    assert!(!normalized.contains("\\lVert"), "{normalized}");
    assert!(!normalized.contains("\\rVert"), "{normalized}");
}

#[test]
fn matrix_math_environment_is_compacted() {
    let lines = format_math_expression(
        "A =\n\\begin{bmatrix}\n1 & 2 & 3 \\\\\n4 & 5 & 6 \\\\\n7 & 8 & 9\n\\end{bmatrix}",
    );
    let joined = lines.join("\n");
    assert!(joined.contains("A ="), "{joined}");
    assert!(joined.contains('['), "{joined}");
    assert!(joined.contains(']'), "{joined}");
    assert!(!joined.contains("\\begin"), "{joined}");
    assert!(!joined.contains("\\end"), "{joined}");
}

#[test]
fn matrix_rows_are_laid_out_exactly() {
    let lines = format_math_expression(
        "A =\n\\begin{bmatrix}\n1 & 2 & 3 \\\\\n4 & 5 & 6 \\\\\n7 & 8 & 9\n\\end{bmatrix}",
    );
    assert_eq!(lines, vec!["A =", "[ 1  2  3", "  4  5  6", "  7  8  9 ]"]);
}

#[test]
fn pmatrix_uses_parentheses() {
    let lines = format_math_expression("\\begin{pmatrix} a & b \\\\ c & d \\end{pmatrix}");
    assert_eq!(lines, vec!["( a  b", "  c  d )"]);
}

#[test]
fn cases_environment_is_laid_out_in_braces() {
    let lines = format_cases_environment("f(x) = \\begin{cases} 1 & x > 0 \\\\ 0 & x \\le 0 \\end{cases}")
        .expect("cases should be found");
    assert_eq!(lines, vec!["f(x) =", "{", "  1 x > 0", "  0 x ≤ 0", "}"]);
    assert_eq!(format_cases_environment("x + y"), None);
}

#[test]
fn simple_lines_are_rewritten_exactly() {
    assert_eq!(simplify_math_line("x^2 + y_1"), "x² + y₁");
    assert_eq!(simplify_math_line("\\frac{a}{b}"), "(a)/(b)");
    assert_eq!(simplify_math_line("  \\alpha   \\cdot  \\beta  "), "α · β");
    assert_eq!(simplify_math_line("e^{i\\pi}"), "eⁱπ");
    assert_eq!(replace_frac_notation("1 + \\frac{x}{y}"), "1 + (x)/(y)");
}

#[test]
fn blank_math_gives_one_empty_line() {
    assert_eq!(format_math_expression("   "), vec![String::new()]);
}

#[test]
fn open_script_group_at_the_end_cannot_be_formatted() {
    assert_eq!(try_format_math_expression("x^{"), None);
    assert!(try_format_math_expression("x^{2}").is_some());
}

#[test]
fn math_rows_are_split_and_trimmed() {
    assert_eq!(split_math_rows(" a \\\\ \\\\ b "), vec!["a".to_string(), "b".to_string()]);
}

#[test]
fn katex_normalisation_is_exact() {
    assert_eq!(normalize_math_for_katex("\\left\\| x \\right\\| + \\lvert y \\rvert"), "‖ x ‖ + | y |");
}
