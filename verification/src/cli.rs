//! The command line of the markdown preview tool: `<input.md> [output.pdf]` or
//! `<input.md> --output <output.pdf>`.
use vstd::prelude::*;

use crate::text::{chars_of, extend_vec, string_of};

verus! {

/// The help text.
pub open spec fn usage_text() -> Seq<char> {
    "Usage:\n  markdown_preview_cli <input.md> [output.pdf]\n  markdown_preview_cli <input.md> --output <output.pdf>\n\nOptions:\n  -o, --output <path>  出力先PDFを指定する\n  -h, --help           このヘルプを表示する"@
}

/// The help text (see [`usage_text`]).
pub fn usage() -> (r: String)
    ensures
        r@ == usage_text(),
{
    String::from_str(
        "Usage:\n  markdown_preview_cli <input.md> [output.pdf]\n  markdown_preview_cli <input.md> --output <output.pdf>\n\nOptions:\n  -o, --output <path>  出力先PDFを指定する\n  -h, --help           このヘルプを表示する",
    )
}

/// The error for an option that is not known.
pub open spec fn unknown_option_message(arg: Seq<char>) -> Seq<char> {
    "不明なオプションです: "@ + arg + "\n\n"@ + usage_text()
}

/// The error for a third file argument.
pub open spec fn too_many_message() -> Seq<char> {
    "引数が多すぎます。"@ + "\n\n"@ + usage_text()
}

/// Reading the arguments from `i` on, the input and output seen so far: the input and the
/// output, if one was given, or the error message.
pub open spec fn parse_from(
    args: Seq<Seq<char>>,
    i: int,
    input: Option<Seq<char>>,
    output: Option<Seq<char>>,
) -> Result<(Seq<char>, Option<Seq<char>>), Seq<char>>
    decreases args.len() - i,
{
    if i < 0 || i >= args.len() {
        match input {
            Some(inp) => Ok((inp, output)),
            None => Err(usage_text()),
        }
    } else {
        let a = args[i];
        if a == "-h"@ || a == "--help"@ {
            Err(usage_text())
        } else if a == "-o"@ || a == "--output"@ {
            if i + 1 < args.len() {
                parse_from(args, i + 2, input, Some(args[i + 1]))
            } else {
                Err(usage_text())
            }
        } else if a.len() > 0 && a[0] == '-' {
            Err(unknown_option_message(a))
        } else if input is None {
            parse_from(args, i + 1, Some(a), output)
        } else if output is None {
            parse_from(args, i + 1, input, Some(a))
        } else {
            Err(too_many_message())
        }
    }
}

/// The file stem of a path as `Path::file_stem` finds it.
pub uninterp spec fn file_stem_of(path: Seq<char>) -> Option<Seq<char>>;

/// A path with its file name replaced as `PathBuf::set_file_name` does it.
pub uninterp spec fn with_file_name_of(path: Seq<char>, name: Seq<char>) -> Seq<char>;

/// A path with its extension replaced as `PathBuf::set_extension` does it.
pub uninterp spec fn with_extension_of(path: Seq<char>, ext: Seq<char>) -> Seq<char>;

/// `Path::file_stem`: the file name without its extension. The result depends on the
/// path alone and is named [`file_stem_of`]; how the name is split is not stated.
#[verifier::external_body]
fn path_file_stem(path: &str) -> (r: Option<String>)
    ensures
        match r {
            Some(s) => file_stem_of(path@) == Some(s@),
            None => file_stem_of(path@) is None,
        },
{
    std::path::Path::new(path).file_stem().map(|s| s.to_string_lossy().to_string())
}

/// `PathBuf::set_file_name`: the path with its last component replaced by `name`. The
/// result is named [`with_file_name_of`].
#[verifier::external_body]
fn path_with_file_name(path: &str, name: &str) -> (r: String)
    ensures
        r@ == with_file_name_of(path@, name@),
{
    let mut p = std::path::PathBuf::from(path);
    p.set_file_name(name);
    p.to_string_lossy().to_string()
}

/// `PathBuf::set_extension`: the path with its extension replaced by `ext`. The result is
/// named [`with_extension_of`]. The call panics when `ext` holds a path separator, which
/// `requires` rules out (`/`, and `\\` as Windows reads it).
#[verifier::external_body]
fn path_with_extension(path: &str, ext: &str) -> (r: String)
    requires
        !ext@.contains('/'),
        !ext@.contains('\\'),
    ensures
        r@ == with_extension_of(path@, ext@),
{
    let mut p = std::path::PathBuf::from(path);
    p.set_extension(ext);
    p.to_string_lossy().to_string()
}

/// The output path for an input with no output given: the input's stem (`preview` when it
/// has none) with the extension `preview.pdf`, beside the input.
pub open spec fn default_output(input: Seq<char>) -> Seq<char> {
    let stem = match file_stem_of(input) {
        Some(s) => s,
        None => "preview"@,
    };
    with_extension_of(with_file_name_of(input, stem), "preview.pdf"@)
}

/// The output path for an input with no output given (see [`default_output`]).
pub fn default_output_path(input_path: &str) -> (r: String)
    ensures
        r@ == default_output(input_path@),
{
    let stem = match path_file_stem(input_path) {
        Some(s) => s,
        None => String::from_str("preview"),
    };
    let named = path_with_file_name(input_path, stem.as_str());
    proof {
        reveal_strlit("preview.pdf");
    }
    path_with_extension(named.as_str(), "preview.pdf")
}

fn is_lit(v: &Vec<char>, lit: &str) -> (b: bool)
    ensures
        b == (v@ == lit@),
{
    crate::ast::eq_lit(v, lit)
}

fn message_with_usage(lead: &str, arg: &Vec<char>) -> (r: String)
    ensures
        r@ == lead@ + arg@ + "\n\n"@ + usage_text(),
{
    let mut v = chars_of(lead);
    extend_vec(&mut v, arg);
    extend_vec(&mut v, &chars_of("\n\n"));
    extend_vec(&mut v, &chars_of(usage().as_str()));
    string_of(&v)
}

/// Reads the arguments (after the program name): the input path and the output path,
/// which defaults to [`default_output`] of the input. Errors: the help text for
/// `-h`/`--help`, for `-o`/`--output` without a value and when no input is given; a
/// message for an unknown option or a third file.
pub fn parse_args(args: &Vec<String>) -> (r: Result<(String, String), String>)
    ensures
        match parse_from(crate::text::strings_view(args@), 0, None, None) {
            Ok((inp, out)) => r matches Ok((i, o)) && i@ == inp && o@ == match out {
                Some(x) => x,
                None => default_output(inp),
            },
            Err(m) => r matches Err(e) && e@ == m,
        },
{
    let ghost av = crate::text::strings_view(args@);
    let mut input: Option<Vec<char>> = None;
    let mut output: Option<Vec<char>> = None;
    let mut i: usize = 0;
    while i < args.len()
        invariant
            i <= args.len(),
            av == crate::text::strings_view(args@),
            parse_from(av, i as int, match input {
                Some(v) => Some(v@),
                None => None,
            }, match output {
                Some(v) => Some(v@),
                None => None,
            }) == parse_from(av, 0, None, None),
        decreases args.len() - i,
    {
        let a = chars_of(args[i].as_str());
        assert(a@ == av[i as int]);
        if is_lit(&a, "-h") || is_lit(&a, "--help") {
            return Err(usage());
        } else if is_lit(&a, "-o") || is_lit(&a, "--output") {
            if i + 1 < args.len() {
                let next = chars_of(args[i + 1].as_str());
                assert(next@ == av[i + 1]);
                output = Some(next);
                i += 2;
            } else {
                return Err(usage());
            }
        } else if a.len() > 0 && a[0] == '-' {
            let m = message_with_usage("不明なオプションです: ", &a);
            return Err(m);
        } else if input.is_none() {
            input = Some(a);
            i += 1;
        } else if output.is_none() {
            output = Some(a);
            i += 1;
        } else {
            let empty: Vec<char> = Vec::new();
            let m = message_with_usage("引数が多すぎます。", &empty);
            assert("引数が多すぎます。"@ + empty@ =~= "引数が多すぎます。"@);
            return Err(m);
        }
    }
    match input {
        Some(inp) => {
            let inp_s = string_of(&inp);
            let out_s = match output {
                Some(o) => string_of(&o),
                None => default_output_path(inp_s.as_str()),
            };
            Ok((inp_s, out_s))
        },
        None => Err(usage()),
    }
}

/// An argument that is not an option: empty, or not starting with `-`.
pub open spec fn positional(a: Seq<char>) -> bool {
    a.len() == 0 || a[0] != '-'
}

proof fn lemma_option_words()
    ensures
        !positional("-h"@),
        !positional("--help"@),
        !positional("-o"@),
        !positional("--output"@),
        "-o"@ != "-h"@,
        "-o"@ != "--help"@,
        "--output"@ != "-h"@,
        "--output"@ != "--help"@,
        "--output"@ != "-o"@,
{
    reveal_strlit("-h");
    reveal_strlit("--help");
    reveal_strlit("-o");
    reveal_strlit("--output");
    assert("-o"@[1] != "-h"@[1]);
    assert("-o"@.len() != "--help"@.len());
    assert("--output"@.len() != "-h"@.len());
    assert("--output"@.len() != "--help"@.len());
    assert("--output"@.len() != "-o"@.len());
}

/// How the arguments are read: no argument asks for the help text, as does `-h` or `--help`
/// first; an unknown option first is refused; one file is the input (the output is then
/// defaulted), two files are input and output, `-o`/`--output` names the output before or
/// after the input, and a third file is refused.
pub proof fn law_parse_args(a: Seq<char>, b: Seq<char>, c: Seq<char>, rest: Seq<Seq<char>>)
    ensures
        parse_from(Seq::empty(), 0, None, None) == Err::<(Seq<char>, Option<Seq<char>>), Seq<char>>(usage_text()),
        parse_from(seq!["-h"@] + rest, 0, None, None) == Err::<(Seq<char>, Option<Seq<char>>), Seq<char>>(usage_text()),
        parse_from(seq!["--help"@] + rest, 0, None, None) == Err::<(Seq<char>, Option<Seq<char>>), Seq<char>>(
            usage_text(),
        ),
        !positional(a) && a != "-h"@ && a != "--help"@ && a != "-o"@ && a != "--output"@ ==> parse_from(
            seq![a] + rest,
            0,
            None,
            None,
        ) == Err::<(Seq<char>, Option<Seq<char>>), Seq<char>>(unknown_option_message(a)),
        positional(a) ==> parse_from(seq![a], 0, None, None) == Ok::<(Seq<char>, Option<Seq<char>>), Seq<char>>(
            (a, None),
        ),
        positional(a) && positional(b) ==> parse_from(seq![a, b], 0, None, None) == Ok::<
            (Seq<char>, Option<Seq<char>>),
            Seq<char>,
        >((a, Some(b))),
        positional(a) ==> parse_from(seq![a, "-o"@, b], 0, None, None) == Ok::<(Seq<char>, Option<Seq<char>>), Seq<char>>(
            (a, Some(b)),
        ),
        positional(a) ==> parse_from(seq!["--output"@, b, a], 0, None, None) == Ok::<
            (Seq<char>, Option<Seq<char>>),
            Seq<char>,
        >((a, Some(b))),
        positional(a) && positional(b) && positional(c) ==> parse_from(seq![a, b, c], 0, None, None) == Err::<
            (Seq<char>, Option<Seq<char>>),
            Seq<char>,
        >(too_many_message()),
{
    lemma_option_words();
    reveal_with_fuel(parse_from, 5);
    assert((seq!["-h"@] + rest)[0] == "-h"@);
    assert((seq!["--help"@] + rest)[0] == "--help"@);
    assert((seq![a] + rest)[0] == a);
    if positional(a) {
        assert(a != "-h"@ && a != "--help"@ && a != "-o"@ && a != "--output"@);
        if positional(b) {
            assert(b != "-h"@ && b != "--help"@ && b != "-o"@ && b != "--output"@);
            if positional(c) {
                assert(c != "-h"@ && c != "--help"@ && c != "-o"@ && c != "--output"@);
                assert(seq![a, b, c][2] == c);
            }
        }
        let s3 = seq!["--output"@, b, a];
        assert(s3[0] == "--output"@ && s3[1] == b && s3[2] == a);
        let s2 = seq![a, "-o"@, b];
        assert(s2[1] == "-o"@ && s2[2] == b);
    }
}

proof fn lemma_parse_prefix(args: Seq<Seq<char>>, extra: Seq<Seq<char>>, i: int, input: Option<Seq<char>>, output: Option<Seq<char>>)
    requires
        0 <= i,
        parse_from(args, i, input, output) is Err,
        parse_from(args, i, input, output)->Err_0 != usage_text(),
    ensures
        parse_from(args + extra, i, input, output) == parse_from(args, i, input, output),
    decreases args.len() - i,
{
    if i < args.len() {
        let a = args[i];
        assert((args + extra)[i] == a);
        if a == "-h"@ || a == "--help"@ {
        } else if a == "-o"@ || a == "--output"@ {
            if i + 1 < args.len() {
                assert((args + extra)[i + 1] == args[i + 1]);
                lemma_parse_prefix(args, extra, i + 2, input, Some(args[i + 1]));
            }
        } else if a.len() > 0 && a[0] == '-' {
        } else if input is None {
            lemma_parse_from_prefix_step(args, extra, i, input, output);
        } else if output is None {
            lemma_parse_from_prefix_step(args, extra, i, input, output);
        }
    }
}

proof fn lemma_parse_from_prefix_step(args: Seq<Seq<char>>, extra: Seq<Seq<char>>, i: int, input: Option<Seq<char>>, output: Option<Seq<char>>)
    requires
        0 <= i < args.len(),
        parse_from(args, i, input, output) is Err,
        parse_from(args, i, input, output)->Err_0 != usage_text(),
        positional(args[i]),
        input is None || output is None,
    ensures
        parse_from(args + extra, i, input, output) == parse_from(args, i, input, output),
    decreases args.len() - i, 0int,
{
    let a = args[i];
    assert((args + extra)[i] == a);
    lemma_option_words();
    if input is None {
        lemma_parse_prefix(args, extra, i + 1, Some(a), output);
    } else {
        lemma_parse_prefix(args, extra, i + 1, input, Some(a));
    }
}

proof fn lemma_parse_results(args: Seq<Seq<char>>, i: int, input: Option<Seq<char>>, output: Option<Seq<char>>)
    requires
        0 <= i,
        input matches Some(x) ==> args.contains(x) && positional(x),
        output matches Some(y) ==> args.contains(y),
    ensures
        match parse_from(args, i, input, output) {
            Ok((a, o)) => args.contains(a) && positional(a) && (o matches Some(y) ==> args.contains(y)),
            Err(m) => m == usage_text() || m == too_many_message() || exists|k: int|
                0 <= k < args.len() && !positional(#[trigger] args[k]) && m == unknown_option_message(args[k]),
        },
    decreases args.len() - i,
{
    if i < args.len() {
        let a = args[i];
        assert(args.contains(a));
        if a == "-h"@ || a == "--help"@ {
        } else if a == "-o"@ || a == "--output"@ {
            if i + 1 < args.len() {
                assert(args.contains(args[i + 1]));
                lemma_parse_results(args, i + 2, input, Some(args[i + 1]));
            }
        } else if a.len() > 0 && a[0] == '-' {
            assert(!positional(args[i]));
        } else if input is None {
            lemma_parse_results(args, i + 1, Some(a), output);
        } else if output is None {
            lemma_parse_results(args, i + 1, input, Some(a));
        }
    }
}

/// How any argument list is read, scanning from the left:
/// - the first problem decides: an error other than the bare help text (an unknown option,
///   a third file) stays the same whatever arguments follow;
/// - every error is the help text, the "too many" message or the unknown-option message of
///   one of the arguments, and each of them ends with the help text;
/// - on success the input is one of the arguments and not an option, and the output, when
///   given, is one of the arguments;
/// - with no option at all: nothing is the help text, one file is the input (output
///   defaulted), two are input and output, three or more are refused.
pub proof fn law_parse_args_scan(args: Seq<Seq<char>>, extra: Seq<Seq<char>>, arg: Seq<char>)
    ensures
        parse_from(args, 0, None, None) matches Err(m) && m != usage_text() ==> parse_from(args + extra, 0, None, None)
            == parse_from(args, 0, None, None),
        match parse_from(args, 0, None, None) {
            Ok((a, o)) => args.contains(a) && positional(a) && (o matches Some(y) ==> args.contains(y)),
            Err(m) => m == usage_text() || m == too_many_message() || exists|k: int|
                0 <= k < args.len() && !positional(#[trigger] args[k]) && m == unknown_option_message(args[k]),
        },
        unknown_option_message(arg).subrange(
            unknown_option_message(arg).len() - usage_text().len(),
            unknown_option_message(arg).len() as int,
        ) == usage_text(),
        too_many_message().subrange(too_many_message().len() - usage_text().len(), too_many_message().len() as int)
            == usage_text(),
        (forall|k: int| 0 <= k < args.len() ==> positional(#[trigger] args[k])) ==> {
            &&& args.len() == 0 ==> parse_from(args, 0, None, None) == Err::<(Seq<char>, Option<Seq<char>>), Seq<char>>(
                usage_text(),
            )
            &&& args.len() == 1 ==> parse_from(args, 0, None, None) == Ok::<(Seq<char>, Option<Seq<char>>), Seq<char>>(
                (args[0], None),
            )
            &&& args.len() == 2 ==> parse_from(args, 0, None, None) == Ok::<(Seq<char>, Option<Seq<char>>), Seq<char>>(
                (args[0], Some(args[1])),
            )
            &&& args.len() >= 3 ==> parse_from(args, 0, None, None) == Err::<(Seq<char>, Option<Seq<char>>), Seq<char>>(
                too_many_message(),
            )
        },
{
    if parse_from(args, 0, None, None) is Err && parse_from(args, 0, None, None)->Err_0 != usage_text() {
        lemma_parse_prefix(args, extra, 0, None, None);
    }
    lemma_parse_results(args, 0, None, None);
    let u = unknown_option_message(arg);
    assert(u.subrange(u.len() - usage_text().len(), u.len() as int) =~= usage_text());
    let t = too_many_message();
    assert(t.subrange(t.len() - usage_text().len(), t.len() as int) =~= usage_text());
    if forall|k: int| 0 <= k < args.len() ==> positional(#[trigger] args[k]) {
        lemma_option_words();
        reveal_with_fuel(parse_from, 4);
        if args.len() >= 1 {
            let a0 = args[0];
            assert(positional(a0));
            assert(a0 != "-h"@ && a0 != "--help"@ && a0 != "-o"@ && a0 != "--output"@);
        }
        if args.len() >= 2 {
            let a1 = args[1];
            assert(positional(a1));
            assert(a1 != "-h"@ && a1 != "--help"@ && a1 != "-o"@ && a1 != "--output"@);
        }
        if args.len() >= 3 {
            let a2 = args[2];
            assert(positional(a2));
            assert(a2 != "-h"@ && a2 != "--help"@ && a2 != "-o"@ && a2 != "--output"@);
        }
    }
}

} // verus!
