//! Line breaking by display width: plain text, code lines and styled runs.
use vstd::prelude::*;

use crate::spans::{
    copy_span, law_merged_runs, law_push_span_appends_text, lemma_spans_view_push,
    merge_adjacent_spans, merged, push_chars, push_span, spans_text, spans_view, InlineSpan, SpanV,
    TextStyle,
};
use crate::text::{chars_of, lines_view, string_of, strings_view};

verus! {

/// Columns that a character takes: 2 for wide East Asian characters, 1 otherwise.
pub open spec fn char_width(c: char) -> nat {
    if c == '\u{3000}' || ('\u{1100}' <= c && c <= '\u{115F}') || ('\u{2E80}' <= c && c
        <= '\u{3247}') || ('\u{3250}' <= c && c <= '\u{4DBF}') || ('\u{4E00}' <= c && c
        <= '\u{9FFF}') || ('\u{A960}' <= c && c <= '\u{A97C}') || ('\u{AC00}' <= c && c
        <= '\u{D7A3}') || ('\u{F900}' <= c && c <= '\u{FAFF}') || ('\u{FE10}' <= c && c
        <= '\u{FE19}') || ('\u{FE30}' <= c && c <= '\u{FE6B}') || ('\u{FF01}' <= c && c
        <= '\u{FF60}') || ('\u{FFE0}' <= c && c <= '\u{FFE6}') {
        2
    } else {
        1
    }
}

/// Columns that a character takes (see [`char_width`]).
pub fn char_display_width(ch: char) -> (w: usize)
    ensures
        w == char_width(ch),
{
    if ch == '\u{3000}' || ('\u{1100}' <= ch && ch <= '\u{115F}') || ('\u{2E80}' <= ch && ch
        <= '\u{3247}') || ('\u{3250}' <= ch && ch <= '\u{4DBF}') || ('\u{4E00}' <= ch && ch
        <= '\u{9FFF}') || ('\u{A960}' <= ch && ch <= '\u{A97C}') || ('\u{AC00}' <= ch && ch
        <= '\u{D7A3}') || ('\u{F900}' <= ch && ch <= '\u{FAFF}') || ('\u{FE10}' <= ch && ch
        <= '\u{FE19}') || ('\u{FE30}' <= ch && ch <= '\u{FE6B}') || ('\u{FF01}' <= ch && ch
        <= '\u{FF60}') || ('\u{FFE0}' <= ch && ch <= '\u{FFE6}') {
        2
    } else {
        1
    }
}

/// `a + b`, held at `usize::MAX`.
pub open spec fn sat_add(a: nat, b: nat) -> nat {
    if a + b > usize::MAX {
        usize::MAX as nat
    } else {
        a + b
    }
}

/// Columns that a text takes (held at `usize::MAX`).
pub open spec fn text_width(s: Seq<char>) -> nat
    decreases s.len(),
{
    if s.len() == 0 {
        0
    } else {
        sat_add(text_width(s.drop_last()), char_width(s.last()))
    }
}

pub fn width_of_chars(s: &Vec<char>) -> (w: usize)
    ensures
        w == text_width(s@),
{
    let mut w: usize = 0;
    let mut i: usize = 0;
    while i < s.len()
        invariant
            i <= s.len(),
            w == text_width(s@.take(i as int)),
        decreases s.len() - i,
    {
        assert(s@.take(i + 1).drop_last() == s@.take(i as int));
        w = w.saturating_add(char_display_width(s[i]));
        i += 1;
    }
    assert(s@.take(s.len() as int) == s@);
    w
}

/// Columns that a text takes (see [`text_width`]).
pub fn unicode_display_width(s: &str) -> (w: usize)
    ensures
        w == text_width(s@),
{
    width_of_chars(&chars_of(s))
}

/// Columns reserved for an inline math expression: its width, and at least 4.
pub open spec fn math_width(expr: Seq<char>) -> nat {
    if text_width(expr) < 4 {
        4
    } else {
        text_width(expr)
    }
}

pub fn math_display_width(expr: &str) -> (w: usize)
    ensures
        w == math_width(expr@),
{
    let base = unicode_display_width(expr);
    if base < 4 {
        4
    } else {
        base
    }
}

// ---------------------------------------------------------------------------------------
// Splitting on a character.
/// `str::split(c)`: the pieces between occurrences of `c` (one empty piece for empty text).
pub open spec fn split_on(s: Seq<char>, c: char) -> Seq<Seq<char>>
    decreases s.len(),
{
    if s.len() == 0 {
        seq![Seq::empty()]
    } else {
        let prev = split_on(s.drop_last(), c);
        if s.last() == c {
            prev.push(Seq::empty())
        } else {
            prev.update(prev.len() - 1, prev.last().push(s.last()))
        }
    }
}

pub proof fn lemma_split_on_nonempty(s: Seq<char>, c: char)
    ensures
        split_on(s, c).len() >= 1,
    decreases s.len(),
{
    if s.len() > 0 {
        lemma_split_on_nonempty(s.drop_last(), c);
    }
}

pub fn split_on_exec(s: &Vec<char>, c: char) -> (r: Vec<Vec<char>>)
    ensures
        lines_view(r@) == split_on(s@, c),
        r.len() >= 1,
{
    let mut r: Vec<Vec<char>> = Vec::new();
    let mut cur: Vec<char> = Vec::new();
    let mut i: usize = 0;
    assert(s@.take(0) =~= Seq::<char>::empty());
    while i < s.len()
        invariant
            i <= s.len(),
            lines_view(r@).push(cur@) == split_on(s@.take(i as int), c),
        decreases s.len() - i,
    {
        assert(s@.take(i + 1).drop_last() == s@.take(i as int));
        assert(s@.take(i + 1).last() == s@[i as int]);
        let ghost prev = lines_view(r@).push(cur@);
        if s[i] == c {
            let mut done: Vec<char> = Vec::new();
            std::mem::swap(&mut done, &mut cur);
            r.push(done);
            assert(lines_view(r@) =~= prev);
            assert(lines_view(r@).push(cur@) =~= prev.push(Seq::empty()));
        } else {
            cur.push(s[i]);
            assert(lines_view(r@).push(cur@) =~= prev.update(prev.len() - 1, prev.last().push(s@[i as int])));
        }
        i += 1;
    }
    assert(s@.take(s.len() as int) == s@);
    let ghost before = lines_view(r@);
    r.push(cur);
    assert(lines_view(r@) =~= before.push(r@.last()@));
    r
}

// ---------------------------------------------------------------------------------------
// Wrapping plain text.
/// Lines of one paragraph broken so that no line grows past `max` columns unless it holds
/// a single character: the finished lines, the open line and its width.
pub open spec fn wrap_state(s: Seq<char>, max: nat) -> (Seq<Seq<char>>, Seq<char>, nat)
    decreases s.len(),
{
    if s.len() == 0 {
        (Seq::empty(), Seq::empty(), 0)
    } else {
        let (lines, cur, w) = wrap_state(s.drop_last(), max);
        let ch = s.last();
        let cw = char_width(ch);
        if w + cw > max && cur.len() > 0 {
            (lines.push(cur), seq![ch], cw)
        } else {
            (lines, cur.push(ch), w + cw)
        }
    }
}

pub open spec fn wrap_paragraph(s: Seq<char>, max: nat) -> Seq<Seq<char>> {
    let (lines, cur, _) = wrap_state(s, max);
    lines.push(cur)
}

pub proof fn lemma_wrap_state_width(s: Seq<char>, max: nat)
    ensures
        wrap_state(s, max).2 <= if max > 2 {
            max
        } else {
            2
        },
        wrap_state(s, max).1.len() == 0 ==> wrap_state(s, max).2 == 0,
    decreases s.len(),
{
    if s.len() > 0 {
        lemma_wrap_state_width(s.drop_last(), max);
    }
}

/// The wrapped lines of all paragraphs, paragraph after paragraph.
pub open spec fn wrap_all(paras: Seq<Seq<char>>, max: nat) -> Seq<Seq<char>>
    decreases paras.len(),
{
    if paras.len() == 0 {
        Seq::empty()
    } else {
        wrap_all(paras.drop_last(), max) + wrap_paragraph(paras.last(), max)
    }
}

/// `text` broken into lines at each `\n` and wherever the next character would pass `max`
/// columns.
pub open spec fn wrapped_text(text: Seq<char>, max: nat) -> Seq<Seq<char>> {
    if text.len() == 0 {
        seq![Seq::empty()]
    } else {
        wrap_all(split_on(text, '\n'), max)
    }
}

fn wrap_paragraph_exec(s: &Vec<char>, max: usize) -> (r: Vec<Vec<char>>)
    ensures
        lines_view(r@) == wrap_paragraph(s@, max as nat),
{
    let mut lines: Vec<Vec<char>> = Vec::new();
    let mut cur: Vec<char> = Vec::new();
    let mut w: usize = 0;
    let mut i: usize = 0;
    assert(s@.take(0) =~= Seq::<char>::empty());
    while i < s.len()
        invariant
            i <= s.len(),
            wrap_state(s@.take(i as int), max as nat) == (lines_view(lines@), cur@, w as nat),
        decreases s.len() - i,
    {
        proof {
            lemma_wrap_state_width(s@.take(i as int), max as nat);
        }
        assert(s@.take(i + 1).drop_last() == s@.take(i as int));
        assert(s@.take(i + 1).last() == s@[i as int]);
        let ch = s[i];
        let cw = char_display_width(ch);
        let over = cw > max || w > max - cw;
        if over && cur.len() > 0 {
            let ghost before = lines_view(lines@);
            let mut done: Vec<char> = Vec::new();
            std::mem::swap(&mut done, &mut cur);
            lines.push(done);
            assert(lines_view(lines@) =~= before.push(lines@.last()@));
            cur.push(ch);
            assert(cur@ =~= seq![ch]);
            w = cw;
        } else {
            cur.push(ch);
            w = w + cw;
        }
        i += 1;
    }
    assert(s@.take(s.len() as int) == s@);
    let ghost before = lines_view(lines@);
    lines.push(cur);
    assert(lines_view(lines@) =~= before.push(lines@.last()@));
    lines
}

/// Breaks text into lines of at most `max_display_width` columns (see [`wrapped_text`]).
pub fn wrap_text(text: &str, max_display_width: usize) -> (r: Vec<String>)
    ensures
        strings_view(r@) == wrapped_text(text@, max_display_width as nat),
        text@.len() == 0 ==> strings_view(r@) == seq![Seq::<char>::empty()],
        text@.len() > 0 ==> strings_view(r@) == wrap_all(split_on(text@, '\n'), max_display_width as nat),
        r@.len() >= split_on(text@, '\n').len(),
        crate::text::joined(strings_view(r@)) == crate::text::joined(split_on(text@, '\n')),
        forall|i: int| 0 <= i < r@.len() ==> text_width(#[trigger] strings_view(r@)[i]) <= max_display_width
            || strings_view(r@)[i].len() == 1,
{
    proof {
        law_wrapped_text(text@, max_display_width as nat);
        lemma_wrapped_text_count(text@, max_display_width as nat);
    }
    let chars = chars_of(text);
    if chars.len() == 0 {
        let mut r: Vec<String> = Vec::new();
        r.push(String::new());
        assert(strings_view(r@) =~= seq![Seq::<char>::empty()]);
        return r;
    }
    let paras = split_on_exec(&chars, '\n');
    let mut r: Vec<String> = Vec::new();
    let mut i: usize = 0;
    assert(lines_view(paras@).take(0) =~= Seq::<Seq<char>>::empty());
    while i < paras.len()
        invariant
            i <= paras.len(),
            strings_view(r@) == wrap_all(lines_view(paras@).take(i as int), max_display_width as nat),
        decreases paras.len() - i,
    {
        let lines = wrap_paragraph_exec(&paras[i], max_display_width);
        let ghost before = strings_view(r@);
        let mut k: usize = 0;
        while k < lines.len()
            invariant
                k <= lines.len(),
                strings_view(r@) == before + lines_view(lines@).take(k as int),
            decreases lines.len() - k,
        {
            let ghost prev = strings_view(r@);
            r.push(string_of(&lines[k]));
            assert(strings_view(r@) =~= prev.push(lines_view(lines@)[k as int]));
            assert(lines_view(lines@).take(k + 1) =~= lines_view(lines@).take(k as int).push(
                lines_view(lines@)[k as int],
            ));
            k += 1;
        }
        assert(lines_view(lines@).take(lines.len() as int) == lines_view(lines@));
        assert(lines_view(paras@).take(i + 1).drop_last() == lines_view(paras@).take(i as int));
        assert(lines_view(paras@).take(i + 1).last() == lines_view(paras@)[i as int]);
        i += 1;
    }
    assert(lines_view(paras@).take(paras.len() as int) == lines_view(paras@));
    r
}

// ---------------------------------------------------------------------------------------
// Wrapping code.
/// `s` without its trailing `\n` characters.
pub open spec fn trim_newlines_end(s: Seq<char>) -> Seq<char>
    decreases s.len(),
{
    if s.len() > 0 && s.last() == '\n' {
        trim_newlines_end(s.drop_last())
    } else {
        s
    }
}

pub fn trim_newlines_end_exec(s: &Vec<char>) -> (r: Vec<char>)
    ensures
        r@ == trim_newlines_end(s@),
{
    let mut n = s.len();
    assert(s@.take(n as int) == s@);
    while n > 0 && s[n - 1] == '\n'
        invariant
            n <= s.len(),
            trim_newlines_end(s@) == trim_newlines_end(s@.take(n as int)),
        decreases n,
    {
        assert(s@.take(n as int).drop_last() == s@.take(n - 1));
        n -= 1;
    }
    crate::text::slice_vec(s, 0, n)
}

/// A code line broken into pieces of at most `max` characters.
pub open spec fn code_state(s: Seq<char>, max: nat) -> (Seq<Seq<char>>, Seq<char>)
    decreases s.len(),
{
    if s.len() == 0 {
        (Seq::empty(), Seq::empty())
    } else {
        let (lines, cur) = code_state(s.drop_last(), max);
        if cur.len() >= max && cur.len() > 0 {
            (lines.push(cur), seq![s.last()])
        } else {
            (lines, cur.push(s.last()))
        }
    }
}

pub open spec fn code_pieces(s: Seq<char>, max: nat) -> Seq<Seq<char>> {
    let (lines, cur) = code_state(s, max);
    lines.push(cur)
}

/// The pieces of each line (see [`code_pieces`]), line after line.
pub open spec fn code_all(lines: Seq<Seq<char>>, max: nat) -> Seq<Seq<char>>
    decreases lines.len(),
{
    if lines.len() == 0 {
        Seq::empty()
    } else {
        code_all(lines.drop_last(), max) + code_pieces(lines.last(), max)
    }
}

/// The lines of a code block (trailing newlines dropped), each broken every `max`
/// characters.
pub open spec fn wrapped_code(code: Seq<char>, max: nat) -> Seq<Seq<char>> {
    code_all(split_on(trim_newlines_end(code), '\n'), max)
}

fn code_pieces_exec(s: &Vec<char>, max: usize) -> (r: Vec<Vec<char>>)
    ensures
        lines_view(r@) == code_pieces(s@, max as nat),
{
    let mut lines: Vec<Vec<char>> = Vec::new();
    let mut cur: Vec<char> = Vec::new();
    let mut i: usize = 0;
    assert(s@.take(0) =~= Seq::<char>::empty());
    while i < s.len()
        invariant
            i <= s.len(),
            code_state(s@.take(i as int), max as nat) == (lines_view(lines@), cur@),
        decreases s.len() - i,
    {
        assert(s@.take(i + 1).drop_last() == s@.take(i as int));
        assert(s@.take(i + 1).last() == s@[i as int]);
        if cur.len() >= max && cur.len() > 0 {
            let ghost before = lines_view(lines@);
            let mut done: Vec<char> = Vec::new();
            std::mem::swap(&mut done, &mut cur);
            lines.push(done);
            assert(lines_view(lines@) =~= before.push(lines@.last()@));
            cur.push(s[i]);
            assert(cur@ =~= seq![s@[i as int]]);
        } else {
            cur.push(s[i]);
        }
        i += 1;
    }
    assert(s@.take(s.len() as int) == s@);
    let ghost before = lines_view(lines@);
    lines.push(cur);
    assert(lines_view(lines@) =~= before.push(lines@.last()@));
    lines
}

/// The lines of a code block broken every `max_chars` characters (see [`wrapped_code`]).
pub fn wrap_code_lines(code: &str, max_chars: usize) -> (r: Vec<String>)
    ensures
        strings_view(r@) == wrapped_code(code@, max_chars as nat),
        strings_view(r@) == code_all(split_on(trim_newlines_end(code@), '\n'), max_chars as nat),
        r@.len() >= split_on(trim_newlines_end(code@), '\n').len(),
        crate::text::joined(strings_view(r@)) == crate::text::joined(split_on(trim_newlines_end(code@), '\n')),
        max_chars >= 1 ==> forall|i: int| 0 <= i < r@.len() ==> (#[trigger] strings_view(r@)[i]).len() <= max_chars,
{
    proof {
        lemma_code_all_count(split_on(trim_newlines_end(code@), '\n'), max_chars as nat);
        if max_chars >= 1 {
            law_wrapped_code(code@, max_chars as nat);
        } else {
            lemma_code_all_joined(split_on(trim_newlines_end(code@), '\n'));
        }
    }
    let chars = chars_of(code);
    let trimmed = trim_newlines_end_exec(&chars);
    let raws = split_on_exec(&trimmed, '\n');
    let mut r: Vec<String> = Vec::new();
    let mut i: usize = 0;
    assert(lines_view(raws@).take(0) =~= Seq::<Seq<char>>::empty());
    while i < raws.len()
        invariant
            i <= raws.len(),
            strings_view(r@) == code_all(lines_view(raws@).take(i as int), max_chars as nat),
        decreases raws.len() - i,
    {
        let lines = code_pieces_exec(&raws[i], max_chars);
        let ghost before = strings_view(r@);
        let mut k: usize = 0;
        while k < lines.len()
            invariant
                k <= lines.len(),
                strings_view(r@) == before + lines_view(lines@).take(k as int),
            decreases lines.len() - k,
        {
            let ghost prev = strings_view(r@);
            r.push(string_of(&lines[k]));
            assert(strings_view(r@) =~= prev.push(lines_view(lines@)[k as int]));
            assert(lines_view(lines@).take(k + 1) =~= lines_view(lines@).take(k as int).push(
                lines_view(lines@)[k as int],
            ));
            k += 1;
        }
        assert(lines_view(lines@).take(lines.len() as int) == lines_view(lines@));
        assert(lines_view(raws@).take(i + 1).drop_last() == lines_view(raws@).take(i as int));
        assert(lines_view(raws@).take(i + 1).last() == lines_view(raws@)[i as int]);
        i += 1;
    }
    assert(lines_view(raws@).take(raws.len() as int) == lines_view(raws@));
    r
}

} // verus!

verus! {

/// A line of laid-out runs and the source line it comes from.
#[derive(Debug)]
pub struct LayoutLine {
    pub spans: Vec<InlineSpan>,
    pub source_line: u32,
}

pub struct LineV {
    pub spans: Seq<SpanV>,
    pub source_line: u32,
}

impl View for LayoutLine {
    type V = LineV;

    open spec fn view(&self) -> LineV {
        LineV { spans: spans_view(self.spans@), source_line: self.source_line }
    }
}

pub open spec fn layout_lines_view(v: Seq<LayoutLine>) -> Seq<LineV> {
    v.map_values(|x: LayoutLine| x@)
}

/// The unit that line breaking works on.
pub enum LayoutToken {
    Break,
    Char(char, TextStyle),
    Math(String, TextStyle),
}

pub enum TokenV {
    Break,
    Char(char, TextStyle),
    Math(Seq<char>, TextStyle),
}

pub open spec fn token_view(t: LayoutToken) -> TokenV {
    match t {
        LayoutToken::Break => TokenV::Break,
        LayoutToken::Char(c, s) => TokenV::Char(c, s),
        LayoutToken::Math(e, s) => TokenV::Math(e@, s),
    }
}

pub open spec fn tokens_view(v: Seq<LayoutToken>) -> Seq<TokenV> {
    v.map_values(|t: LayoutToken| token_view(t))
}

pub proof fn lemma_tokens_view_push(s: Seq<LayoutToken>, x: LayoutToken)
    ensures
        tokens_view(s.push(x)) == tokens_view(s).push(token_view(x)),
{
    assert(tokens_view(s.push(x)) =~= tokens_view(s).push(token_view(x)));
}

pub open spec fn char_token(c: char, st: TextStyle) -> TokenV {
    if c == '\n' || c == '\r' {
        TokenV::Break
    } else {
        TokenV::Char(c, st)
    }
}

/// The tokens of one run: the whole run for math, one per character otherwise (a line
/// feed or carriage return being a break).
pub open spec fn span_tokens(s: SpanV) -> Seq<TokenV> {
    if s.style.math {
        seq![TokenV::Math(s.text, s.style)]
    } else {
        s.text.map_values(|c: char| char_token(c, s.style))
    }
}

pub open spec fn tokens_of(spans: Seq<SpanV>) -> Seq<TokenV>
    decreases spans.len(),
{
    if spans.len() == 0 {
        Seq::empty()
    } else {
        tokens_of(spans.drop_last()) + span_tokens(spans.last())
    }
}

/// The tokens of a sequence of runs.
pub fn flatten_spans(spans: &Vec<InlineSpan>) -> (r: Vec<LayoutToken>)
    ensures
        tokens_view(r@) == tokens_of(spans_view(spans@)),
{
    let mut r: Vec<LayoutToken> = Vec::new();
    let mut i: usize = 0;
    assert(spans_view(spans@).take(0) =~= Seq::<SpanV>::empty());
    assert(tokens_view(r@) =~= Seq::<TokenV>::empty());
    while i < spans.len()
        invariant
            i <= spans.len(),
            tokens_view(r@) == tokens_of(spans_view(spans@).take(i as int)),
        decreases spans.len() - i,
    {
        let ghost before = tokens_view(r@);
        let s = &spans[i];
        let ghost sv = s@;
        if s.style.math {
            r.push(LayoutToken::Math(s.text.clone(), s.style));
            assert(tokens_view(r@) =~= before + span_tokens(sv));
        } else {
            let cs = chars_of(s.text.as_str());
            let mut k: usize = 0;
            while k < cs.len()
                invariant
                    k <= cs.len(),
                    cs@ == sv.text,
                    !sv.style.math,
                    s.style == sv.style,
                    tokens_view(r@) == before + span_tokens(sv).take(k as int),
                decreases cs.len() - k,
            {
                let ghost prev = tokens_view(r@);
                let c = cs[k];
                let tok = if c == '\n' || c == '\r' {
                    LayoutToken::Break
                } else {
                    LayoutToken::Char(c, s.style)
                };
                assert(token_view(tok) == char_token(c, sv.style));
                let ghost rv = r@;
                let ghost tk = tok;
                r.push(tok);
                proof {
                    lemma_tokens_view_push(rv, tk);
                }
                assert(span_tokens(sv).take(k + 1) =~= span_tokens(sv).take(k as int).push(
                    char_token(c, sv.style),
                ));
                k += 1;
            }
            assert(span_tokens(sv).take(cs.len() as int) =~= span_tokens(sv));
        }
        assert(spans_view(spans@).take(i + 1).drop_last() =~= spans_view(spans@).take(i as int));
        assert(spans_view(spans@).take(i + 1).last() == sv);
        i += 1;
    }
    assert(spans_view(spans@).take(spans.len() as int) =~= spans_view(spans@));
    r
}

/// Runs made of `(text, style)` pairs, appended one after the other.
pub open spec fn push_pairs(cur: Seq<(Seq<char>, TextStyle)>) -> Seq<SpanV>
    decreases cur.len(),
{
    if cur.len() == 0 {
        Seq::empty()
    } else {
        push_span(push_pairs(cur.drop_last()), cur.last().0, cur.last().1)
    }
}

/// The state of line breaking: finished lines, the open line as `(text, style)` pairs, its
/// width and the source line it belongs to.
pub struct LayState {
    pub lines: Seq<LineV>,
    pub cur: Seq<(Seq<char>, TextStyle)>,
    pub width: nat,
    pub src: u32,
}

/// The finished lines with the open line closed (when it holds anything).
pub open spec fn flushed(st: LayState) -> Seq<LineV> {
    if st.cur.len() == 0 {
        st.lines
    } else {
        st.lines.push(LineV { spans: merged(push_pairs(st.cur)), source_line: st.src })
    }
}

/// Closes the open line when a token `w` columns wide would pass `max`.
pub open spec fn make_room(st: LayState, w: nat, max: nat) -> LayState {
    if sat_add(st.width, w) > max && st.width > 0 {
        LayState { lines: flushed(st), cur: Seq::empty(), width: 0, ..st }
    } else {
        st
    }
}

pub open spec fn lay_step(st: LayState, tok: TokenV, max: nat, end_line: u32) -> LayState {
    match tok {
        TokenV::Break => LayState {
            lines: flushed(st),
            cur: Seq::empty(),
            width: 0,
            src: if st.src < end_line {
                (st.src + 1) as u32
            } else {
                st.src
            },
        },
        TokenV::Char(ch, s) => {
            let st1 = make_room(st, char_width(ch), max);
            let cur = if st1.cur.len() > 0 && st1.cur.last().1 == s {
                st1.cur.update(st1.cur.len() - 1, (st1.cur.last().0.push(ch), s))
            } else {
                st1.cur.push((seq![ch], s))
            };
            LayState { cur, width: sat_add(st1.width, char_width(ch)), ..st1 }
        },
        TokenV::Math(e, s) => {
            let st1 = make_room(st, math_width(e), max);
            LayState { cur: st1.cur.push((e, s)), width: sat_add(st1.width, math_width(e)), ..st1 }
        },
    }
}

pub open spec fn lay_fold(toks: Seq<TokenV>, max: nat, start: u32, end_line: u32) -> LayState
    decreases toks.len(),
{
    if toks.len() == 0 {
        LayState { lines: Seq::empty(), cur: Seq::empty(), width: 0, src: start }
    } else {
        lay_step(lay_fold(toks.drop_last(), max, start, end_line), toks.last(), max, end_line)
    }
}

/// Runs broken into lines of at most `max` columns (a token wider than that gets a line of
/// its own), each line tagged with its source line: the source line starts at
/// `source.start_line` and moves on at each break, but not past `source.end_line`. Text
/// with no lines gives one empty line.
pub open spec fn layout_lines(spans: Seq<SpanV>, max: nat, source: BlockSource) -> Seq<LineV> {
    let toks = tokens_of(spans);
    let fin = flushed(lay_fold(toks, max, source.start_line, source.end_line));
    if toks.len() == 0 || fin.len() == 0 {
        seq![LineV { spans: Seq::empty(), source_line: source.start_line }]
    } else {
        fin
    }
}

/// The lines of the source that a block comes from (1-based, both ends included).
#[derive(Debug, Clone, Copy, PartialEq, Eq, Structural)]
pub struct BlockSource {
    pub start_line: u32,
    pub end_line: u32,
}

impl BlockSource {
    pub fn single(line: u32) -> (r: Self)
        ensures
            r.start_line == line,
            r.end_line == line,
    {
        Self { start_line: line, end_line: line }
    }
}

pub open spec fn pairs_view(v: Seq<(Vec<char>, TextStyle)>) -> Seq<(Seq<char>, TextStyle)> {
    v.map_values(|p: (Vec<char>, TextStyle)| (p.0@, p.1))
}

fn flush_line(
    cur: &mut Vec<(Vec<char>, TextStyle)>,
    lines: &mut Vec<LayoutLine>,
    src: u32,
    Ghost(width): Ghost<nat>,
)
    ensures
        layout_lines_view(final(lines)@) == flushed(
            LayState {
                lines: layout_lines_view(old(lines)@),
                cur: pairs_view(old(cur)@),
                width,
                src,
            },
        ),
        final(cur)@.len() == 0,
{
    if cur.len() == 0 {
        return;
    }
    let mut out: Vec<InlineSpan> = Vec::new();
    let mut i: usize = 0;
    let ghost cv = pairs_view(cur@);
    assert(spans_view(out@) =~= push_pairs(cv.take(0)));
    while i < cur.len()
        invariant
            i <= cur.len(),
            cv == pairs_view(cur@),
            spans_view(out@) == push_pairs(cv.take(i as int)),
        decreases cur.len() - i,
    {
        assert(cv.take(i + 1).drop_last() =~= cv.take(i as int));
        assert(cv.take(i + 1).last() == cv[i as int]);
        push_chars(&mut out, &cur[i].0, cur[i].1);
        i += 1;
    }
    assert(cv.take(cur.len() as int) =~= cv);
    merge_adjacent_spans(&mut out);
    let ghost before = layout_lines_view(lines@);
    lines.push(LayoutLine { spans: out, source_line: src });
    assert(layout_lines_view(lines@) =~= before.push(lines@.last()@));
    cur.clear();
}

/// Breaks runs into lines of at most `max_cols` columns (see [`layout_lines`]).
pub fn layout_spans_lines_with_source(
    spans: &Vec<InlineSpan>,
    max_cols: usize,
    source: BlockSource,
) -> (r: Vec<LayoutLine>)
    ensures
        layout_lines_view(r@) == layout_lines(spans_view(spans@), max_cols as nat, source),
        r@.len() >= 1,
        lines_text(layout_lines_view(r@)) == drawn_text(spans_view(spans@)),
        forall|k: int| 0 <= k < r@.len() ==> source.start_line <= (#[trigger] layout_lines_view(r@)[k]).source_line,
        source.start_line <= source.end_line ==> forall|k: int| 0 <= k < r@.len() ==> (#[trigger] layout_lines_view(
            r@,
        )[k]).source_line <= source.end_line,
        forall|k: int| 0 <= k < r@.len() - 1 ==> (#[trigger] layout_lines_view(r@)[k]).source_line <= layout_lines_view(
            r@,
        )[k + 1].source_line,
        forall|k: int| 0 <= k < r@.len() ==> line_tidy(#[trigger] layout_lines_view(r@)[k]),
        forall|k: int| 0 <= k < r@.len() ==> line_fits(#[trigger] layout_lines_view(r@)[k], max_cols as nat),
{
    proof {
        law_layout_lines(spans_view(spans@), max_cols as nat, source);
        law_layout_fits(spans_view(spans@), max_cols as nat, source);
    }
    let flat = flatten_spans(spans);
    let ghost toks = tokens_view(flat@);
    if flat.len() == 0 {
        let mut r: Vec<LayoutLine> = Vec::new();
        r.push(LayoutLine { spans: Vec::new(), source_line: source.start_line });
        assert(spans_view(r@[0].spans@) =~= Seq::<SpanV>::empty());
        assert(layout_lines_view(r@) =~= layout_lines(spans_view(spans@), max_cols as nat, source));
        return r;
    }
    let mut lines: Vec<LayoutLine> = Vec::new();
    let mut cur: Vec<(Vec<char>, TextStyle)> = Vec::new();
    let mut width: usize = 0;
    let mut src: u32 = source.start_line;
    let mut i: usize = 0;
    assert(layout_lines_view(lines@) =~= Seq::<LineV>::empty());
    assert(pairs_view(cur@) =~= Seq::<(Seq<char>, TextStyle)>::empty());
    assert(toks.take(0) =~= Seq::<TokenV>::empty());
    while i < flat.len()
        invariant
            i <= flat.len(),
            toks == tokens_view(flat@),
            lay_fold(toks.take(i as int), max_cols as nat, source.start_line, source.end_line)
                == (LayState {
                lines: layout_lines_view(lines@),
                cur: pairs_view(cur@),
                width: width as nat,
                src,
            }),
        decreases flat.len() - i,
    {
        assert(toks.take(i + 1).drop_last() =~= toks.take(i as int));
        assert(toks.take(i + 1).last() == token_view(flat@[i as int]));
        let ghost st = LayState {
            lines: layout_lines_view(lines@),
            cur: pairs_view(cur@),
            width: width as nat,
            src,
        };
        match &flat[i] {
            LayoutToken::Break => {
                flush_line(&mut cur, &mut lines, src, Ghost(width as nat));
                assert(pairs_view(cur@) =~= Seq::<(Seq<char>, TextStyle)>::empty());
                width = 0;
                if src < source.end_line {
                    src = src + 1;
                }
            },
            LayoutToken::Char(ch, st_c) => {
                let w = char_display_width(*ch);
                if width.saturating_add(w) > max_cols && width > 0 {
                    flush_line(&mut cur, &mut lines, src, Ghost(width as nat));
                    assert(pairs_view(cur@) =~= Seq::<(Seq<char>, TextStyle)>::empty());
                    width = 0;
                }
                let ghost st1 = make_room(st, char_width(*ch), max_cols as nat);
                assert(st1.cur == pairs_view(cur@));
                let n = cur.len();
                if n > 0 && cur[n - 1].1 == *st_c {
                    let ghost before = pairs_view(cur@);
                    let mut last = cur.pop().unwrap();
                    last.0.push(*ch);
                    cur.push(last);
                    assert(pairs_view(cur@) =~= before.update(
                        before.len() - 1,
                        (before.last().0.push(*ch), *st_c),
                    ));
                } else {
                    let ghost before = pairs_view(cur@);
                    let mut piece: Vec<char> = Vec::new();
                    piece.push(*ch);
                    cur.push((piece, *st_c));
                    assert(pairs_view(cur@) =~= before.push((seq![*ch], *st_c)));
                }
                width = width.saturating_add(w);
            },
            LayoutToken::Math(expr, st_m) => {
                let w = math_display_width(expr.as_str());
                if width.saturating_add(w) > max_cols && width > 0 {
                    flush_line(&mut cur, &mut lines, src, Ghost(width as nat));
                    assert(pairs_view(cur@) =~= Seq::<(Seq<char>, TextStyle)>::empty());
                    width = 0;
                }
                let ghost before = pairs_view(cur@);
                cur.push((chars_of(expr.as_str()), *st_m));
                assert(pairs_view(cur@) =~= before.push((expr@, *st_m)));
                width = width.saturating_add(w);
            },
        }
        i += 1;
    }
    assert(toks.take(flat.len() as int) =~= toks);
    flush_line(&mut cur, &mut lines, src, Ghost(width as nat));
    if lines.len() == 0 {
        lines.push(LayoutLine { spans: Vec::new(), source_line: source.start_line });
        assert(spans_view(lines@[0].spans@) =~= Seq::<SpanV>::empty());
        assert(layout_lines_view(lines@) =~= seq![
            LineV { spans: Seq::empty(), source_line: source.start_line },
        ]);
    }
    lines
}

/// The spans of each laid-out line (see [`layout_lines`]).
pub fn layout_spans_lines(spans: &Vec<InlineSpan>, max_cols: usize) -> (r: Vec<Vec<InlineSpan>>)
    ensures
        r@.len() == layout_lines(spans_view(spans@), max_cols as nat, BlockSource { start_line: 1, end_line: 1 }).len(),
        forall|i: int|
            0 <= i < r@.len() ==> spans_view(#[trigger] r@[i]@) == layout_lines(
                spans_view(spans@),
                max_cols as nat,
                BlockSource { start_line: 1, end_line: 1 },
            )[i].spans,
{
    let lines = layout_spans_lines_with_source(spans, max_cols, BlockSource::single(1));
    let mut r: Vec<Vec<InlineSpan>> = Vec::new();
    let mut i: usize = 0;
    while i < lines.len()
        invariant
            i <= lines.len(),
            r@.len() == i,
            layout_lines_view(lines@) == layout_lines(
                spans_view(spans@),
                max_cols as nat,
                BlockSource { start_line: 1, end_line: 1 },
            ),
            forall|k: int| 0 <= k < i ==> spans_view(#[trigger] r@[k]@) == lines@[k]@.spans,
        decreases lines.len() - i,
    {
        r.push(crate::spans::copy_spans(&lines[i].spans));
        i += 1;
    }
    r
}

} // verus!

verus! {

pub proof fn lemma_text_width_sum(s: Seq<char>, w: nat)
    requires
        w == width_sum(s),
    ensures
        text_width(s) == if w > usize::MAX { usize::MAX as nat } else { w },
    decreases s.len(),
{
    if s.len() > 0 {
        lemma_text_width_sum(s.drop_last(), width_sum(s.drop_last()));
    }
}

/// Columns that a text takes, without any bound.
/// The columns of a text, counted in full (see [`char_width`]).
pub open spec fn width_sum(s: Seq<char>) -> nat
    decreases s.len(),
{
    if s.len() == 0 {
        0
    } else {
        width_sum(s.drop_last()) + char_width(s.last())
    }
}

proof fn lemma_wrap_state(s: Seq<char>, max: nat)
    ensures
        ({
            let (lines, cur, w) = wrap_state(s, max);
            &&& forall|i: int| 0 <= i < lines.len() ==> text_width(#[trigger] lines[i]) <= max || lines[i].len() == 1
            &&& w == width_sum(cur)
            &&& w <= max || cur.len() <= 1
            &&& crate::text::joined(lines) + cur == s
        }),
    decreases s.len(),
{
    if s.len() == 0 {
        assert(crate::text::joined(Seq::<Seq<char>>::empty()) + Seq::<char>::empty() =~= s);
    } else {
        lemma_wrap_state(s.drop_last(), max);
        let (lines, cur, w) = wrap_state(s.drop_last(), max);
        let ch = s.last();
        let cw = char_width(ch);
        if w + cw > max && cur.len() > 0 {
            lemma_text_width_sum(cur, w);
            let nl = lines.push(cur);
            assert forall|i: int| 0 <= i < nl.len() implies text_width(#[trigger] nl[i]) <= max || nl[i].len() == 1 by {
                if i < lines.len() {
                    assert(nl[i] == lines[i]);
                }
            }
            assert(nl.drop_last() =~= lines);
            assert(seq![ch].drop_last() =~= Seq::<char>::empty());
            assert(width_sum(Seq::<char>::empty()) == 0);
            assert(seq![ch].last() == ch);
            assert(width_sum(seq![ch]) == width_sum(seq![ch].drop_last()) + char_width(ch));
            assert(width_sum(seq![ch]) == cw);
            assert(wrap_state(s, max) == (nl, seq![ch], cw));
            assert(crate::text::joined(nl) + seq![ch] =~= (crate::text::joined(lines) + cur) + seq![ch]);
            assert(s.drop_last().push(ch) =~= s);
        } else {
            assert(cur.push(ch).drop_last() =~= cur);
            assert(width_sum(cur.push(ch)) == w + cw);
            assert(wrap_state(s, max) == (lines, cur.push(ch), w + cw));
            assert(crate::text::joined(lines) + cur.push(ch) =~= (crate::text::joined(lines) + cur).push(ch));
            assert(s.drop_last().push(ch) =~= s);
        }
    }
}

/// Wrapping a paragraph keeps its text, and no line is wider than `max` columns unless it
/// is a single character.
proof fn lemma_wrap_greedy(s: Seq<char>, max: nat)
    ensures
        ({
            let (lines, cur, w) = wrap_state(s, max);
            &&& s.len() > 0 ==> cur.len() > 0
            &&& forall|i: int| 0 <= i < lines.len() ==> (#[trigger] lines[i]).len() > 0 && width_sum(lines[i])
                + char_width(lines.push(cur)[i + 1][0]) > max
        }),
    decreases s.len(),
{
    if s.len() > 0 {
        lemma_wrap_greedy(s.drop_last(), max);
        lemma_wrap_state(s.drop_last(), max);
        let (lines, cur, w) = wrap_state(s.drop_last(), max);
        let ch = s.last();
        let cw = char_width(ch);
        if w + cw > max && cur.len() > 0 {
            let l2 = lines.push(cur);
            let c2 = seq![ch];
            assert forall|i: int| 0 <= i < l2.len() implies (#[trigger] l2[i]).len() > 0 && width_sum(l2[i])
                + char_width(l2.push(c2)[i + 1][0]) > max by {
                if i < lines.len() {
                    assert(l2[i] == lines[i]);
                    assert(l2.push(c2)[i + 1] == lines.push(cur)[i + 1]);
                } else {
                    assert(l2.push(c2)[i + 1] == c2);
                }
            }
        } else {
            let c2 = cur.push(ch);
            assert forall|i: int| 0 <= i < lines.len() implies (#[trigger] lines[i]).len() > 0 && width_sum(lines[i])
                + char_width(lines.push(c2)[i + 1][0]) > max by {
                if i + 1 < lines.len() {
                    assert(lines.push(c2)[i + 1] == lines.push(cur)[i + 1]);
                } else {
                    assert(lines.push(c2)[i + 1] == c2);
                    assert(lines.push(cur)[i + 1] == cur);
                    assert(c2[0] == cur[0]);
                }
            }
        }
    }
}

/// Wrapping a paragraph keeps its text; no line is wider than `max` columns unless it is a
/// single character; and the breaks are greedy: every line but the last is not empty and
/// would pass `max` with the first character of the next line added (widths counted in
/// full, see [`width_sum`]).
pub proof fn law_wrap_paragraph(s: Seq<char>, max: nat)
    ensures
        crate::text::joined(wrap_paragraph(s, max)) == s,
        forall|i: int| 0 <= i < wrap_paragraph(s, max).len() ==> text_width(#[trigger] wrap_paragraph(s, max)[i]) <= max
            || wrap_paragraph(s, max)[i].len() == 1,
        forall|i: int| 0 <= i < wrap_paragraph(s, max).len() - 1 ==> (#[trigger] wrap_paragraph(s, max)[i]).len() > 0
            && width_sum(wrap_paragraph(s, max)[i]) + char_width(wrap_paragraph(s, max)[i + 1][0]) > max,
{
    lemma_wrap_state(s, max);
    lemma_wrap_greedy(s, max);
    let (lines, cur, w) = wrap_state(s, max);
    let r = lines.push(cur);
    assert(r.drop_last() =~= lines);
    lemma_text_width_sum(cur, w);
    assert forall|i: int| 0 <= i < r.len() implies text_width(#[trigger] r[i]) <= max || r[i].len() == 1 by {
        if i < lines.len() {
            assert(r[i] == lines[i]);
        } else if cur.len() == 0 {
            assert(text_width(cur) == 0);
        }
    }
    assert forall|i: int| 0 <= i < r.len() - 1 implies (#[trigger] r[i]).len() > 0 && width_sum(r[i]) + char_width(
        r[i + 1][0],
    ) > max by {
        assert(r[i] == lines[i]);
    }
}

} // verus!

verus! {

/// What a token draws: its character, its math expression, nothing for a break.
pub open spec fn token_text(t: TokenV) -> Seq<char> {
    match t {
        TokenV::Break => Seq::empty(),
        TokenV::Char(c, _) => seq![c],
        TokenV::Math(e, _) => e,
    }
}

/// What tokens draw, one after the other.
pub open spec fn tokens_text(toks: Seq<TokenV>) -> Seq<char>
    decreases toks.len(),
{
    if toks.len() == 0 {
        Seq::empty()
    } else {
        tokens_text(toks.drop_last()) + token_text(toks.last())
    }
}

/// The text of laid-out lines, one line after the other.
pub open spec fn lines_text(lines: Seq<LineV>) -> Seq<char>
    decreases lines.len(),
{
    if lines.len() == 0 {
        Seq::empty()
    } else {
        lines_text(lines.drop_last()) + spans_text(lines.last().spans)
    }
}

/// The text of `(text, style)` pairs, one after the other.
pub open spec fn pairs_text(cur: Seq<(Seq<char>, TextStyle)>) -> Seq<char>
    decreases cur.len(),
{
    if cur.len() == 0 {
        Seq::empty()
    } else {
        pairs_text(cur.drop_last()) + cur.last().0
    }
}

/// A text without its line feeds and carriage returns.
pub open spec fn drop_breaks(s: Seq<char>) -> Seq<char>
    decreases s.len(),
{
    if s.len() == 0 {
        Seq::empty()
    } else if s.last() == '\n' || s.last() == '\r' {
        drop_breaks(s.drop_last())
    } else {
        drop_breaks(s.drop_last()).push(s.last())
    }
}

/// What a run draws: a math run its whole text, any other run its text without line feeds
/// and carriage returns.
pub open spec fn drawn_run_text(s: SpanV) -> Seq<char> {
    if s.style.math {
        s.text
    } else {
        drop_breaks(s.text)
    }
}

/// What runs draw, one after the other.
pub open spec fn drawn_text(spans: Seq<SpanV>) -> Seq<char>
    decreases spans.len(),
{
    if spans.len() == 0 {
        Seq::empty()
    } else {
        drawn_text(spans.drop_last()) + drawn_run_text(spans.last())
    }
}

proof fn lemma_tokens_text_append(a: Seq<TokenV>, b: Seq<TokenV>)
    ensures
        tokens_text(a + b) == tokens_text(a) + tokens_text(b),
    decreases b.len(),
{
    if b.len() == 0 {
        assert(a + b =~= a);
        assert(tokens_text(a) + tokens_text(b) =~= tokens_text(a));
    } else {
        lemma_tokens_text_append(a, b.drop_last());
        assert((a + b).drop_last() =~= a + b.drop_last());
        assert((a + b).last() == b.last());
        assert(tokens_text(a) + tokens_text(b.drop_last()) + token_text(b.last()) =~= tokens_text(a)
            + (tokens_text(b.drop_last()) + token_text(b.last())));
    }
}

proof fn lemma_char_tokens_text(text: Seq<char>, st: TextStyle)
    ensures
        tokens_text(text.map_values(|c: char| char_token(c, st))) == drop_breaks(text),
    decreases text.len(),
{
    let f = |c: char| char_token(c, st);
    if text.len() == 0 {
        assert(text.map_values(f) =~= Seq::<TokenV>::empty());
    } else {
        lemma_char_tokens_text(text.drop_last(), st);
        assert(text.map_values(f).drop_last() =~= text.drop_last().map_values(f));
        assert(text.map_values(f).last() == char_token(text.last(), st));
        let d = drop_breaks(text.drop_last());
        if text.last() == '\n' || text.last() == '\r' {
            assert(d + Seq::<char>::empty() =~= d);
        } else {
            assert(d + seq![text.last()] =~= d.push(text.last()));
        }
    }
}

proof fn lemma_tokens_of_text(spans: Seq<SpanV>)
    ensures
        tokens_text(tokens_of(spans)) == drawn_text(spans),
    decreases spans.len(),
{
    if spans.len() > 0 {
        let x = spans.last();
        let a = tokens_of(spans.drop_last());
        let b = span_tokens(x);
        lemma_tokens_of_text(spans.drop_last());
        lemma_tokens_text_append(a, b);
        assert(tokens_of(spans) == a + b);
        if x.style.math {
            let t = seq![TokenV::Math(x.text, x.style)];
            assert(b =~= t);
            assert(t.drop_last() =~= Seq::<TokenV>::empty());
            assert(tokens_text(t.drop_last()) =~= Seq::<char>::empty());
            assert(token_text(t.last()) == x.text);
            assert(Seq::<char>::empty() + x.text =~= x.text);
            assert(tokens_text(b) == drawn_run_text(x));
        } else {
            lemma_char_tokens_text(x.text, x.style);
            assert(b =~= x.text.map_values(|c: char| char_token(c, x.style)));
            assert(tokens_text(b) == drawn_run_text(x));
        }
    } else {
        assert(tokens_of(spans) =~= Seq::<TokenV>::empty());
    }
}

proof fn lemma_push_pairs_text(cur: Seq<(Seq<char>, TextStyle)>)
    ensures
        spans_text(push_pairs(cur)) == pairs_text(cur),
    decreases cur.len(),
{
    if cur.len() > 0 {
        lemma_push_pairs_text(cur.drop_last());
        law_push_span_appends_text(push_pairs(cur.drop_last()), cur.last().0, cur.last().1);
    }
}

proof fn lemma_flushed_text(st: LayState)
    ensures
        lines_text(flushed(st)) == lines_text(st.lines) + pairs_text(st.cur),
{
    if st.cur.len() == 0 {
        assert(lines_text(st.lines) + pairs_text(st.cur) =~= lines_text(st.lines));
    } else {
        let l = LineV { spans: merged(push_pairs(st.cur)), source_line: st.src };
        assert(st.lines.push(l).drop_last() =~= st.lines);
        law_merged_runs(push_pairs(st.cur));
        lemma_push_pairs_text(st.cur);
    }
}

proof fn lemma_make_room_text(st: LayState, w: nat, max: nat)
    ensures
        lines_text(make_room(st, w, max).lines) + pairs_text(make_room(st, w, max).cur) == lines_text(st.lines)
            + pairs_text(st.cur),
{
    lemma_flushed_text(st);
    let e = Seq::<(Seq<char>, TextStyle)>::empty();
    assert(pairs_text(e) == Seq::<char>::empty());
    assert(lines_text(flushed(st)) + pairs_text(e) =~= lines_text(flushed(st)));
}

proof fn lemma_lay_fold_text(toks: Seq<TokenV>, max: nat, start: u32, end_line: u32)
    ensures
        lines_text(lay_fold(toks, max, start, end_line).lines) + pairs_text(lay_fold(toks, max, start, end_line).cur)
            == tokens_text(toks),
    decreases toks.len(),
{
    if toks.len() == 0 {
        assert(lines_text(Seq::<LineV>::empty()) + pairs_text(Seq::<(Seq<char>, TextStyle)>::empty()) =~= Seq::<
            char,
        >::empty());
    } else {
        lemma_lay_fold_text(toks.drop_last(), max, start, end_line);
        let prev = lay_fold(toks.drop_last(), max, start, end_line);
        let before = lines_text(prev.lines) + pairs_text(prev.cur);
        match toks.last() {
            TokenV::Break => {
                lemma_flushed_text(prev);
                assert(lines_text(flushed(prev)) + pairs_text(Seq::<(Seq<char>, TextStyle)>::empty()) =~= before
                    + token_text(toks.last()));
            },
            TokenV::Char(ch, s) => {
                let st1 = make_room(prev, char_width(ch), max);
                lemma_make_room_text(prev, char_width(ch), max);
                let lt = lines_text(st1.lines);
                if st1.cur.len() > 0 && st1.cur.last().1 == s {
                    let last = st1.cur.last();
                    let c2 = st1.cur.update(st1.cur.len() - 1, (last.0.push(ch), s));
                    assert(c2.drop_last() =~= st1.cur.drop_last());
                    assert(pairs_text(c2) == pairs_text(st1.cur.drop_last()) + last.0.push(ch));
                    assert(lt + pairs_text(c2) =~= lt + (pairs_text(st1.cur.drop_last()) + last.0) + seq![ch]);
                } else {
                    let c2 = st1.cur.push((seq![ch], s));
                    assert(c2.drop_last() =~= st1.cur);
                    assert(lt + pairs_text(c2) =~= lt + pairs_text(st1.cur) + seq![ch]);
                }
            },
            TokenV::Math(e, s) => {
                let st1 = make_room(prev, math_width(e), max);
                lemma_make_room_text(prev, math_width(e), max);
                let lt = lines_text(st1.lines);
                let c2 = st1.cur.push((e, s));
                assert(c2.drop_last() =~= st1.cur);
                assert(lt + pairs_text(c2) =~= lt + pairs_text(st1.cur) + e);
            },
        }
    }
}

/// Breaking runs into lines keeps their text: read one line after the other, the lines
/// draw exactly what the runs draw, line breaks left out.
pub proof fn law_layout_keeps_text(spans: Seq<SpanV>, max: nat, source: BlockSource)
    ensures
        lines_text(layout_lines(spans, max, source)) == drawn_text(spans),
{
    lemma_tokens_of_text(spans);
    let toks = tokens_of(spans);
    let st = lay_fold(toks, max, source.start_line, source.end_line);
    lemma_lay_fold_text(toks, max, source.start_line, source.end_line);
    lemma_flushed_text(st);
    let fin = flushed(st);
    if toks.len() == 0 || fin.len() == 0 {
        let one = seq![LineV { spans: Seq::empty(), source_line: source.start_line }];
        assert(one.drop_last() =~= Seq::<LineV>::empty());
        assert(spans_text(one.last().spans) =~= Seq::<char>::empty());
        assert(lines_text(one.drop_last()) =~= Seq::<char>::empty());
        assert(lines_text(one) =~= Seq::<char>::empty());
    }
}

proof fn lemma_code_state(s: Seq<char>, max: nat)
    requires
        max >= 1,
    ensures
        crate::text::joined(code_state(s, max).0) + code_state(s, max).1 == s,
        code_state(s, max).1.len() <= max,
        s.len() > 0 ==> code_state(s, max).1.len() >= 1,
        forall|i: int| 0 <= i < code_state(s, max).0.len() ==> (#[trigger] code_state(s, max).0[i]).len() == max,
    decreases s.len(),
{
    if s.len() > 0 {
        lemma_code_state(s.drop_last(), max);
        let (lines, cur) = code_state(s.drop_last(), max);
        if cur.len() >= max && cur.len() > 0 {
            let l2 = lines.push(cur);
            assert(l2.drop_last() =~= lines);
            assert(crate::text::joined(l2) == crate::text::joined(lines) + cur);
            assert(crate::text::joined(l2) + seq![s.last()] =~= s.drop_last().push(s.last()));
            assert(s.drop_last().push(s.last()) =~= s);
            assert forall|i: int| 0 <= i < l2.len() implies (#[trigger] l2[i]).len() == max by {
                if i < lines.len() {
                    assert(l2[i] == lines[i]);
                }
            }
        } else {
            assert(crate::text::joined(lines) + cur.push(s.last()) =~= s.drop_last().push(s.last()));
            assert(s.drop_last().push(s.last()) =~= s);
        }
    }
}

/// Breaking a code line keeps its text, and no piece is longer than `max` characters.
proof fn lemma_code_state_nonempty(s: Seq<char>, max: nat)
    ensures
        forall|i: int| 0 <= i < code_state(s, max).0.len() ==> (#[trigger] code_state(s, max).0[i]).len() > 0
            && code_state(s, max).0[i].len() <= if max >= 1 { max } else { 1 },
        s.len() > 0 ==> code_state(s, max).1.len() > 0,
        code_state(s, max).1.len() <= if max >= 1 { max } else { 1 },
        s.len() == 0 ==> code_state(s, max).0.len() == 0 && code_state(s, max).1.len() == 0,
    decreases s.len(),
{
    if s.len() > 0 {
        lemma_code_state_nonempty(s.drop_last(), max);
        let (lines, cur) = code_state(s.drop_last(), max);
        if cur.len() >= max && cur.len() > 0 {
            let l2 = lines.push(cur);
            assert forall|i: int| 0 <= i < l2.len() implies (#[trigger] l2[i]).len() > 0 && l2[i].len() <= if max
                >= 1 { max } else { 1 } by {
                if i < lines.len() {
                    assert(l2[i] == lines[i]);
                }
            }
        }
    }
}

/// Breaking a code line keeps its text: an empty line gives one empty piece, any other line
/// pieces of 1 to `max` characters (1 when `max` is 0).
pub proof fn law_code_pieces(s: Seq<char>, max: nat)
    ensures
        crate::text::joined(code_pieces(s, max)) == s,
        s.len() == 0 ==> code_pieces(s, max) == seq![Seq::<char>::empty()],
        s.len() > 0 ==> forall|i: int| 0 <= i < code_pieces(s, max).len() ==> 1 <= (#[trigger] code_pieces(s, max)[i]).len()
            <= if max >= 1 { max } else { 1 },
{
    lemma_code_state_nonempty(s, max);
    if max >= 1 {
        lemma_code_state(s, max);
    } else {
        lemma_code_state_joined(s);
    }
    let (lines, cur) = code_state(s, max);
    let r = lines.push(cur);
    assert(r.drop_last() =~= lines);
    if s.len() == 0 {
        assert(r =~= seq![Seq::<char>::empty()]);
    }
    assert forall|i: int| 0 <= i < r.len() && s.len() > 0 implies 1 <= (#[trigger] r[i]).len() <= if max >= 1 {
        max
    } else {
        1
    } by {
        if i < lines.len() {
            assert(r[i] == lines[i]);
        }
    }
}

proof fn lemma_joined_append(a: Seq<Seq<char>>, b: Seq<Seq<char>>)
    ensures
        crate::text::joined(a + b) == crate::text::joined(a) + crate::text::joined(b),
    decreases b.len(),
{
    if b.len() == 0 {
        assert(a + b =~= a);
        assert(crate::text::joined(a) + crate::text::joined(b) =~= crate::text::joined(a));
    } else {
        lemma_joined_append(a, b.drop_last());
        assert((a + b).drop_last() =~= a + b.drop_last());
        assert(crate::text::joined(a) + crate::text::joined(b.drop_last()) + b.last() =~= crate::text::joined(a)
            + (crate::text::joined(b.drop_last()) + b.last()));
    }
}

proof fn lemma_code_all(lines: Seq<Seq<char>>, max: nat)
    requires
        max >= 1,
    ensures
        crate::text::joined(code_all(lines, max)) == crate::text::joined(lines),
        forall|i: int| 0 <= i < code_all(lines, max).len() ==> (#[trigger] code_all(lines, max)[i]).len() <= max,
    decreases lines.len(),
{
    if lines.len() > 0 {
        lemma_code_all(lines.drop_last(), max);
        law_code_pieces(lines.last(), max);
        let a = code_all(lines.drop_last(), max);
        let b = code_pieces(lines.last(), max);
        lemma_joined_append(a, b);
        assert forall|i: int| 0 <= i < (a + b).len() implies (#[trigger] (a + b)[i]).len() <= max by {
            if i < a.len() {
                assert((a + b)[i] == a[i]);
            } else {
                assert((a + b)[i] == b[i - a.len()]);
            }
        }
    }
}

/// Breaking the lines of a code block keeps all their characters, in order, and no piece
/// is longer than `max` characters.
pub proof fn law_wrapped_code(code: Seq<char>, max: nat)
    requires
        max >= 1,
    ensures
        crate::text::joined(wrapped_code(code, max)) == crate::text::joined(split_on(trim_newlines_end(code), '\n')),
        forall|i: int| 0 <= i < wrapped_code(code, max).len() ==> (#[trigger] wrapped_code(code, max)[i]).len() <= max,
{
    lemma_code_all(split_on(trim_newlines_end(code), '\n'), max);
}

proof fn lemma_wrap_all(paras: Seq<Seq<char>>, max: nat)
    ensures
        crate::text::joined(wrap_all(paras, max)) == crate::text::joined(paras),
        forall|i: int| 0 <= i < wrap_all(paras, max).len() ==> text_width(#[trigger] wrap_all(paras, max)[i]) <= max
            || wrap_all(paras, max)[i].len() == 1,
    decreases paras.len(),
{
    if paras.len() > 0 {
        lemma_wrap_all(paras.drop_last(), max);
        law_wrap_paragraph(paras.last(), max);
        let a = wrap_all(paras.drop_last(), max);
        let b = wrap_paragraph(paras.last(), max);
        lemma_joined_append(a, b);
        assert forall|i: int| 0 <= i < (a + b).len() implies text_width(#[trigger] (a + b)[i]) <= max || (a
            + b)[i].len() == 1 by {
            if i < a.len() {
                assert((a + b)[i] == a[i]);
            } else {
                assert((a + b)[i] == b[i - a.len()]);
            }
        }
    }
}

/// Wrapping a text keeps its characters but the line feeds, in order, and no line is wider
/// than `max` columns unless it is a single character.
pub proof fn law_wrapped_text(text: Seq<char>, max: nat)
    ensures
        crate::text::joined(wrapped_text(text, max)) == crate::text::joined(split_on(text, '\n')),
        forall|i: int| 0 <= i < wrapped_text(text, max).len() ==> text_width(#[trigger] wrapped_text(text, max)[i])
            <= max || wrapped_text(text, max)[i].len() == 1,
{
    if text.len() == 0 {
        let one = seq![Seq::<char>::empty()];
        assert(one.drop_last() =~= Seq::<Seq<char>>::empty());
        assert(crate::text::joined(one.drop_last()) =~= Seq::<char>::empty());
        assert(crate::text::joined(one) == crate::text::joined(one.drop_last()) + one.last());
        assert(crate::text::joined(one) =~= Seq::<char>::empty());
        assert(text_width(one[0]) == 0);
        assert(split_on(text, '\n') =~= one);
    } else {
        lemma_wrap_all(split_on(text, '\n'), max);
    }
}

/// No two neighbouring runs of a line share a style.
pub open spec fn line_tidy(l: LineV) -> bool {
    forall|i: int| 0 <= i < l.spans.len() - 1 ==> #[trigger] l.spans[i].style != l.spans[i + 1].style
}

/// Lines from `start` on, in order of their source lines, each within `start..=top`.
pub open spec fn lines_ordered(lines: Seq<LineV>, start: u32, top: u32) -> bool {
    &&& forall|k: int| 0 <= k < lines.len() ==> start <= (#[trigger] lines[k]).source_line <= top
    &&& forall|k: int| 0 <= k < lines.len() - 1 ==> (#[trigger] lines[k]).source_line <= lines[k + 1].source_line
    &&& forall|k: int| 0 <= k < lines.len() ==> line_tidy(#[trigger] lines[k])
}

proof fn lemma_flushed_ordered(st: LayState, start: u32)
    requires
        start <= st.src,
        lines_ordered(st.lines, start, st.src),
    ensures
        lines_ordered(flushed(st), start, st.src),
{
    if st.cur.len() > 0 {
        let l = LineV { spans: merged(push_pairs(st.cur)), source_line: st.src };
        let ls = st.lines.push(l);
        law_merged_runs(push_pairs(st.cur));
        assert(line_tidy(l));
        assert forall|k: int| 0 <= k < ls.len() implies start <= (#[trigger] ls[k]).source_line <= st.src && line_tidy(ls[k]) by {
            if k < st.lines.len() {
                assert(ls[k] == st.lines[k]);
            }
        }
        assert forall|k: int| 0 <= k < ls.len() - 1 implies (#[trigger] ls[k]).source_line <= ls[k + 1].source_line by {
            assert(ls[k] == st.lines[k]);
            if k + 1 < st.lines.len() {
                assert(ls[k + 1] == st.lines[k + 1]);
            }
        }
    }
}

proof fn lemma_lines_ordered_raise(lines: Seq<LineV>, start: u32, top: u32, top2: u32)
    requires
        lines_ordered(lines, start, top),
        top <= top2,
    ensures
        lines_ordered(lines, start, top2),
{
    assert forall|k: int| 0 <= k < lines.len() implies start <= (#[trigger] lines[k]).source_line <= top2 by {
        assert(start <= lines[k].source_line <= top);
    }
}

proof fn lemma_lay_fold_ordered(toks: Seq<TokenV>, max: nat, start: u32, end_line: u32)
    ensures
        start <= lay_fold(toks, max, start, end_line).src,
        start <= end_line ==> lay_fold(toks, max, start, end_line).src <= end_line,
        lines_ordered(lay_fold(toks, max, start, end_line).lines, start, lay_fold(toks, max, start, end_line).src),
    decreases toks.len(),
{
    if toks.len() > 0 {
        lemma_lay_fold_ordered(toks.drop_last(), max, start, end_line);
        let prev = lay_fold(toks.drop_last(), max, start, end_line);
        lemma_flushed_ordered(prev, start);
        match toks.last() {
            TokenV::Break => {
                let src2: u32 = if prev.src < end_line { (prev.src + 1) as u32 } else { prev.src };
                lemma_lines_ordered_raise(flushed(prev), start, prev.src, src2);
            },
            _ => {},
        }
    }
}

/// Breaking runs into lines gives at least one line; the lines keep the text (see
/// [`law_layout_keeps_text`]); their source lines start at the block's first line, never go
/// down and, for a block whose range is not empty, stay within it; and no line holds two
/// neighbouring runs in one style.
#[verifier::rlimit(50)]
pub proof fn law_layout_lines(spans: Seq<SpanV>, max: nat, source: BlockSource)
    ensures
        layout_lines(spans, max, source).len() >= 1,
        lines_text(layout_lines(spans, max, source)) == drawn_text(spans),
        forall|k: int| 0 <= k < layout_lines(spans, max, source).len() ==> source.start_line
            <= (#[trigger] layout_lines(spans, max, source)[k]).source_line,
        source.start_line <= source.end_line ==> forall|k: int| 0 <= k < layout_lines(spans, max, source).len()
            ==> (#[trigger] layout_lines(spans, max, source)[k]).source_line <= source.end_line,
        forall|k: int| 0 <= k < layout_lines(spans, max, source).len() - 1 ==> (#[trigger] layout_lines(spans, max, source)[k]).source_line
            <= layout_lines(spans, max, source)[k + 1].source_line,
        forall|k: int| 0 <= k < layout_lines(spans, max, source).len() ==> line_tidy(#[trigger] layout_lines(spans, max, source)[k]),
{
    law_layout_keeps_text(spans, max, source);
    let toks = tokens_of(spans);
    let st = lay_fold(toks, max, source.start_line, source.end_line);
    lemma_lay_fold_ordered(toks, max, source.start_line, source.end_line);
    lemma_flushed_ordered(st, source.start_line);
    let fin = flushed(st);
    let r = layout_lines(spans, max, source);
    if toks.len() == 0 || fin.len() == 0 {
        assert(r.len() == 1);
        assert(line_tidy(r[0]));
    } else {
        assert(r == fin);
        assert forall|k: int| 0 <= k < r.len() implies (#[trigger] r[k]).source_line <= st.src by {
            assert(lines_ordered(fin, source.start_line, st.src));
        }
    }
}

proof fn lemma_wrapped_text_count(text: Seq<char>, max: nat)
    ensures
        wrapped_text(text, max).len() >= split_on(text, '\n').len(),
{
    if text.len() == 0 {
        assert(split_on(text, '\n') =~= seq![Seq::<char>::empty()]);
    } else {
        lemma_wrap_all_count(split_on(text, '\n'), max);
    }
}

proof fn lemma_wrap_all_count(paras: Seq<Seq<char>>, max: nat)
    ensures
        wrap_all(paras, max).len() >= paras.len(),
    decreases paras.len(),
{
    if paras.len() > 0 {
        lemma_wrap_all_count(paras.drop_last(), max);
    }
}

proof fn lemma_code_all_count(lines: Seq<Seq<char>>, max: nat)
    ensures
        code_all(lines, max).len() >= lines.len(),
    decreases lines.len(),
{
    if lines.len() > 0 {
        lemma_code_all_count(lines.drop_last(), max);
    }
}

proof fn lemma_code_state_joined(s: Seq<char>)
    ensures
        crate::text::joined(code_state(s, 0).0) + code_state(s, 0).1 == s,
    decreases s.len(),
{
    if s.len() > 0 {
        lemma_code_state_joined(s.drop_last());
        let (lines, cur) = code_state(s.drop_last(), 0);
        if cur.len() > 0 {
            let l2 = lines.push(cur);
            assert(l2.drop_last() =~= lines);
            assert(crate::text::joined(l2) + seq![s.last()] =~= s);
        } else {
            assert(crate::text::joined(lines) + cur.push(s.last()) =~= s);
        }
    }
}

proof fn lemma_code_all_joined(lines: Seq<Seq<char>>)
    ensures
        crate::text::joined(code_all(lines, 0)) == crate::text::joined(lines),
    decreases lines.len(),
{
    if lines.len() > 0 {
        lemma_code_all_joined(lines.drop_last());
        let (ls, cur) = code_state(lines.last(), 0);
        lemma_code_state_joined(lines.last());
        let p = ls.push(cur);
        assert(p.drop_last() =~= ls);
        lemma_joined_append(code_all(lines.drop_last(), 0), p);
        assert(crate::text::joined(code_all(lines.drop_last(), 0)) + (crate::text::joined(ls) + cur) =~= crate::text::joined(
            lines.drop_last(),
        ) + lines.last());
    }
}

/// Columns that a run takes: a math run its [`math_width`], any other run its text width.
pub open spec fn run_width(r: SpanV) -> nat {
    if r.style.math {
        math_width(r.text)
    } else {
        text_width(r.text)
    }
}

/// Columns that a line of runs takes (held at `usize::MAX`).
pub open spec fn runs_width(rs: Seq<SpanV>) -> nat
    decreases rs.len(),
{
    if rs.len() == 0 {
        0
    } else {
        sat_add(runs_width(rs.drop_last()), run_width(rs.last()))
    }
}

/// A line within `max` columns, or one holding a single run that is math or one character.
pub open spec fn line_fits(l: LineV, max: nat) -> bool {
    runs_width(l.spans) <= max || (l.spans.len() == 1 && (l.spans[0].style.math || l.spans[0].text.len() == 1))
}

pub open spec fn pair_width(p: (Seq<char>, TextStyle)) -> nat {
    run_width(SpanV { text: p.0, style: p.1 })
}

pub open spec fn pairs_width(cur: Seq<(Seq<char>, TextStyle)>) -> nat
    decreases cur.len(),
{
    if cur.len() == 0 {
        0
    } else {
        sat_add(pairs_width(cur.drop_last()), pair_width(cur.last()))
    }
}

pub open spec fn single_pair(cur: Seq<(Seq<char>, TextStyle)>) -> bool {
    cur.len() == 1 && (cur[0].1.math || cur[0].0.len() == 1)
}

/// Character tokens carry a style that is not math, math tokens the math style.
pub open spec fn chars_plain(toks: Seq<TokenV>) -> bool {
    forall|i: int| 0 <= i < toks.len() ==> match #[trigger] toks[i] {
        TokenV::Char(_, s) => !s.math,
        TokenV::Math(_, s) => s.math,
        TokenV::Break => true,
    }
}

proof fn lemma_sat_assoc(a: nat, b: nat, c: nat)
    ensures
        sat_add(sat_add(a, b), c) == sat_add(a, sat_add(b, c)),
        sat_add(a, b) == sat_add(b, a),
{
}

proof fn lemma_sat_mono(a: nat, b: nat, a2: nat, b2: nat)
    requires
        a <= a2,
        b <= b2,
    ensures
        sat_add(a, b) <= sat_add(a2, b2),
{
}

proof fn lemma_text_width_append(a: Seq<char>, b: Seq<char>)
    ensures
        text_width(a + b) == sat_add(text_width(a), text_width(b)),
    decreases b.len(),
{
    if b.len() == 0 {
        assert(a + b =~= a);
    } else {
        lemma_text_width_append(a, b.drop_last());
        assert((a + b).drop_last() =~= a + b.drop_last());
        assert((a + b).last() == b.last());
        lemma_sat_assoc(text_width(a), text_width(b.drop_last()), char_width(b.last()));
    }
}

proof fn lemma_text_width_bound(a: Seq<char>)
    ensures
        text_width(a) <= usize::MAX,
    decreases a.len(),
{
    if a.len() > 0 {
        lemma_text_width_bound(a.drop_last());
    }
}

/// Joining two runs of one style takes no more columns than the two apart.
proof fn lemma_join_width(a: Seq<char>, b: Seq<char>, st: TextStyle)
    ensures
        run_width(SpanV { text: a + b, style: st }) <= sat_add(
            run_width(SpanV { text: a, style: st }),
            run_width(SpanV { text: b, style: st }),
        ),
{
    lemma_text_width_append(a, b);
    lemma_text_width_bound(a + b);
    if st.math {
        lemma_sat_mono(text_width(a), text_width(b), math_width(a), math_width(b));
    }
}

proof fn lemma_runs_width_update(rs: Seq<SpanV>, x: SpanV)
    requires
        rs.len() > 0,
    ensures
        runs_width(rs.update(rs.len() - 1, x)) == sat_add(runs_width(rs.drop_last()), run_width(x)),
{
    assert(rs.update(rs.len() - 1, x).drop_last() =~= rs.drop_last());
}

proof fn lemma_push_span_width(out: Seq<SpanV>, t: Seq<char>, st: TextStyle)
    ensures
        runs_width(push_span(out, t, st)) <= sat_add(runs_width(out), run_width(SpanV { text: t, style: st })),
{
    if t.len() == 0 {
    } else if out.len() > 0 && out.last().style == st {
        let l = out.last();
        lemma_runs_width_update(out, SpanV { text: l.text + t, style: st });
        lemma_join_width(l.text, t, st);
        assert(run_width(l) == run_width(SpanV { text: l.text, style: st }));
        lemma_sat_mono(
            runs_width(out.drop_last()),
            run_width(SpanV { text: l.text + t, style: st }),
            runs_width(out.drop_last()),
            sat_add(run_width(l), run_width(SpanV { text: t, style: st })),
        );
        lemma_sat_assoc(runs_width(out.drop_last()), run_width(l), run_width(SpanV { text: t, style: st }));
    } else {
        assert(out.push(SpanV { text: t, style: st }).drop_last() =~= out);
    }
}

proof fn lemma_push_pairs_width(cur: Seq<(Seq<char>, TextStyle)>)
    ensures
        runs_width(push_pairs(cur)) <= pairs_width(cur),
    decreases cur.len(),
{
    if cur.len() > 0 {
        lemma_push_pairs_width(cur.drop_last());
        lemma_push_span_width(push_pairs(cur.drop_last()), cur.last().0, cur.last().1);
        lemma_sat_mono(
            runs_width(push_pairs(cur.drop_last())),
            pair_width(cur.last()),
            pairs_width(cur.drop_last()),
            pair_width(cur.last()),
        );
    }
}

proof fn lemma_merged_width(rs: Seq<SpanV>)
    ensures
        runs_width(merged(rs)) <= runs_width(rs),
    decreases rs.len(),
{
    if rs.len() > 0 {
        lemma_merged_width(rs.drop_last());
        let m = merged(rs.drop_last());
        let x = rs.last();
        if m.len() > 0 && m.last().style == x.style {
            lemma_runs_width_update(m, SpanV { text: m.last().text + x.text, style: x.style });
            lemma_join_width(m.last().text, x.text, x.style);
            assert(run_width(m.last()) == run_width(SpanV { text: m.last().text, style: x.style }));
            assert(run_width(x) == run_width(SpanV { text: x.text, style: x.style }));
            lemma_sat_mono(
                runs_width(m.drop_last()),
                run_width(SpanV { text: m.last().text + x.text, style: x.style }),
                runs_width(m.drop_last()),
                sat_add(run_width(m.last()), run_width(x)),
            );
            lemma_sat_assoc(runs_width(m.drop_last()), run_width(m.last()), run_width(x));
            lemma_sat_mono(runs_width(m), run_width(x), runs_width(rs.drop_last()), run_width(x));
        } else {
            assert(m.push(x).drop_last() =~= m);
            lemma_sat_mono(runs_width(m), run_width(x), runs_width(rs.drop_last()), run_width(x));
        }
    }
}

/// The state of line breaking keeps its open line's width, and that width is within `max`
/// unless the open line holds one math run or one character.
pub open spec fn lay_fits(st: LayState, max: nat) -> bool {
    &&& st.width == pairs_width(st.cur)
    &&& (st.cur.len() == 0 <==> st.width == 0)
    &&& st.width <= max || single_pair(st.cur)
    &&& forall|k: int| 0 <= k < st.lines.len() ==> line_fits(#[trigger] st.lines[k], max)
    &&& forall|k: int| 0 <= k < st.cur.len() ==> !(#[trigger] st.cur[k]).1.math ==> st.cur[k].0.len() > 0
}

proof fn lemma_flushed_fits(st: LayState, max: nat)
    requires
        lay_fits(st, max),
    ensures
        forall|k: int| 0 <= k < flushed(st).len() ==> line_fits(#[trigger] flushed(st)[k], max),
{
    if st.cur.len() > 0 {
        let sp = merged(push_pairs(st.cur));
        let l = LineV { spans: sp, source_line: st.src };
        lemma_push_pairs_width(st.cur);
        lemma_merged_width(push_pairs(st.cur));
        if !(st.width <= max) {
            let p = st.cur[0];
            assert(st.cur.drop_last() =~= Seq::<(Seq<char>, TextStyle)>::empty());
            assert(push_pairs(st.cur.drop_last()) == Seq::<SpanV>::empty());
            assert(st.cur.last() == p);
            assert(push_pairs(st.cur) == push_span(Seq::<SpanV>::empty(), p.0, p.1));
            if p.0.len() > 0 {
                let one = seq![SpanV { text: p.0, style: p.1 }];
                assert(push_pairs(st.cur) =~= one);
                assert(one.drop_last() =~= Seq::<SpanV>::empty());
                assert(merged(one.drop_last()) =~= Seq::<SpanV>::empty());
                assert(merged(one) =~= one);
            } else {
                assert(push_pairs(st.cur) =~= Seq::<SpanV>::empty());
                assert(runs_width(sp) == 0);
            }
        }
        assert(line_fits(l, max));
        let ls = st.lines.push(l);
        assert forall|k: int| 0 <= k < ls.len() implies line_fits(#[trigger] ls[k], max) by {
            if k < st.lines.len() {
                assert(ls[k] == st.lines[k]);
            }
        }
    }
}

proof fn lemma_char_width_pos(c: char)
    ensures
        1 <= char_width(c) <= 2,
{
}

#[verifier::rlimit(60)]
proof fn lemma_lay_fold_fits(toks: Seq<TokenV>, max: nat, start: u32, end_line: u32)
    requires
        chars_plain(toks),
    ensures
        lay_fits(lay_fold(toks, max, start, end_line), max),
    decreases toks.len(),
{
    let e = Seq::<(Seq<char>, TextStyle)>::empty();
    if toks.len() == 0 {
        assert(pairs_width(e) == 0);
    } else {
        let init = toks.drop_last();
        assert forall|i: int| 0 <= i < init.len() implies match #[trigger] init[i] {
            TokenV::Char(_, s) => !s.math,
            TokenV::Math(_, s) => s.math,
            TokenV::Break => true,
        } by {
            assert(init[i] == toks[i]);
        }
        lemma_lay_fold_fits(init, max, start, end_line);
        let prev = lay_fold(init, max, start, end_line);
        lemma_flushed_fits(prev, max);
        assert(pairs_width(e) == 0);
        let last = toks.len() - 1;
        assert(toks.last() == toks[last]);
        match toks.last() {
            TokenV::Break => {},
            TokenV::Char(ch, s) => {
                assert(!s.math);
                lemma_char_width_pos(ch);
                let w = char_width(ch);
                let st1 = make_room(prev, w, max);
                assert(lay_fits(st1, max)) by {
                    if sat_add(prev.width, w) > max && prev.width > 0 {
                        assert(st1.lines == flushed(prev));
                    }
                }
                let nw = sat_add(st1.width, w);
                if st1.cur.len() > 0 && st1.cur.last().1 == s {
                    let lp = st1.cur.last();
                    let c2 = st1.cur.update(st1.cur.len() - 1, (lp.0.push(ch), s));
                    assert(c2.drop_last() =~= st1.cur.drop_last());
                    assert(lp.0.push(ch).drop_last() =~= lp.0);
                    assert(pair_width(c2.last()) == sat_add(pair_width(lp), w));
                    lemma_sat_assoc(pairs_width(st1.cur.drop_last()), pair_width(lp), w);
                    assert(pairs_width(c2) == nw);
                    assert(st1.width > 0);
                    assert(sat_add(st1.width, w) <= max) by {
                        if sat_add(prev.width, w) > max && prev.width > 0 {
                        } else {
                            assert(st1 == prev);
                        }
                    }
                    assert forall|k: int| 0 <= k < c2.len() implies !(#[trigger] c2[k]).1.math ==> c2[k].0.len() > 0 by {
                        if k < c2.len() - 1 {
                            assert(c2[k] == st1.cur[k]);
                        }
                    }
                } else {
                    let c2 = st1.cur.push((seq![ch], s));
                    assert(c2.drop_last() =~= st1.cur);
                    assert(seq![ch].drop_last() =~= Seq::<char>::empty());
                    assert(text_width(seq![ch].drop_last()) == 0);
                    assert(seq![ch].last() == ch);
                    assert(text_width(seq![ch]) == w);
                    assert(pair_width((seq![ch], s)) == w);
                    if st1.width > 0 {
                        assert(sat_add(st1.width, w) <= max) by {
                            if sat_add(prev.width, w) > max && prev.width > 0 {
                            } else {
                                assert(st1 == prev);
                            }
                        }
                    } else {
                        assert(st1.cur.len() == 0);
                        assert(c2 =~= seq![(seq![ch], s)]);
                    }
                    assert forall|k: int| 0 <= k < c2.len() implies !(#[trigger] c2[k]).1.math ==> c2[k].0.len() > 0 by {
                        if k < c2.len() - 1 {
                            assert(c2[k] == st1.cur[k]);
                        }
                    }
                }
            },
            TokenV::Math(ex, s) => {
                let w = math_width(ex);
                let st1 = make_room(prev, w, max);
                assert(lay_fits(st1, max)) by {
                    if sat_add(prev.width, w) > max && prev.width > 0 {
                        assert(st1.lines == flushed(prev));
                    }
                }
                let c2 = st1.cur.push((ex, s));
                assert(c2.drop_last() =~= st1.cur);
                assert(s.math);
                assert(pair_width((ex, s)) == w);
                if st1.width > 0 {
                    assert(sat_add(st1.width, w) <= max) by {
                        if sat_add(prev.width, w) > max && prev.width > 0 {
                        } else {
                            assert(st1 == prev);
                        }
                    }
                } else {
                    assert(st1.cur.len() == 0);
                    assert(c2 =~= seq![(ex, s)]);
                }
                assert forall|k: int| 0 <= k < c2.len() implies !(#[trigger] c2[k]).1.math ==> c2[k].0.len() > 0 by {
                    if k < c2.len() - 1 {
                        assert(c2[k] == st1.cur[k]);
                    }
                }
            },
        }
    }
}

proof fn lemma_tokens_styled(spans: Seq<SpanV>)
    ensures
        chars_plain(tokens_of(spans)),
    decreases spans.len(),
{
    if spans.len() > 0 {
        lemma_tokens_styled(spans.drop_last());
        let a = tokens_of(spans.drop_last());
        let b = span_tokens(spans.last());
        let x = spans.last();
        assert(tokens_of(spans) == a + b);
        assert forall|i: int| 0 <= i < (a + b).len() implies match #[trigger] (a + b)[i] {
            TokenV::Char(_, s) => !s.math,
            TokenV::Math(_, s) => s.math,
            TokenV::Break => true,
        } by {
            if i < a.len() {
                assert((a + b)[i] == a[i]);
            } else {
                assert((a + b)[i] == b[i - a.len()]);
                if !x.style.math {
                    assert(b[i - a.len()] == char_token(x.text[i - a.len()], x.style));
                }
            }
        }
    }
}

/// Breaking runs into lines keeps each line within `max` columns (a math run counted by
/// [`math_width`], other text by its display width), unless the line holds a single run
/// that is one math expression or one character.
pub proof fn law_layout_fits(spans: Seq<SpanV>, max: nat, source: BlockSource)
    ensures
        forall|k: int| 0 <= k < layout_lines(spans, max, source).len() ==> line_fits(
            #[trigger] layout_lines(spans, max, source)[k],
            max,
        ),
{
    let toks = tokens_of(spans);
    lemma_tokens_styled(spans);
    lemma_lay_fold_fits(toks, max, source.start_line, source.end_line);
    let st = lay_fold(toks, max, source.start_line, source.end_line);
    lemma_flushed_fits(st, max);
    let r = layout_lines(spans, max, source);
    let fin = flushed(st);
    if toks.len() == 0 || fin.len() == 0 {
        assert(runs_width(r[0].spans) == 0);
    }
}


/// Columns of a text, summed without a cap.
pub open spec fn chars_cols(s: Seq<char>) -> nat
    decreases s.len(),
{
    if s.len() == 0 {
        0
    } else {
        chars_cols(s.drop_last()) + char_width(s.last())
    }
}

/// Columns of one run: its math width for math, its display width otherwise.
pub open spec fn span_cols(s: SpanV) -> nat {
    if s.style.math {
        math_width(s.text)
    } else {
        chars_cols(s.text)
    }
}

/// Columns of a sequence of runs, summed without a cap.
pub open spec fn spans_cols(spans: Seq<SpanV>) -> nat
    decreases spans.len(),
{
    if spans.len() == 0 {
        0
    } else {
        spans_cols(spans.drop_last()) + span_cols(spans.last())
    }
}

/// No run other than a math run holds a line feed or a carriage return.
pub open spec fn no_line_breaks(spans: Seq<SpanV>) -> bool {
    forall|i: int, j: int|
        0 <= i < spans.len() && !spans[i].style.math && 0 <= j < spans[i].text.len() ==> (
        #[trigger] spans[i].text[j] != '\n' && spans[i].text[j] != '\r')
}

pub open spec fn token_cols(t: TokenV) -> nat {
    match t {
        TokenV::Break => 0,
        TokenV::Char(c, _) => char_width(c),
        TokenV::Math(e, _) => math_width(e),
    }
}

pub open spec fn tokens_cols(toks: Seq<TokenV>) -> nat
    decreases toks.len(),
{
    if toks.len() == 0 {
        0
    } else {
        tokens_cols(toks.drop_last()) + token_cols(toks.last())
    }
}

proof fn lemma_tokens_cols_append(a: Seq<TokenV>, b: Seq<TokenV>)
    ensures
        tokens_cols(a + b) == tokens_cols(a) + tokens_cols(b),
    decreases b.len(),
{
    if b.len() == 0 {
        assert(a + b =~= a);
    } else {
        lemma_tokens_cols_append(a, b.drop_last());
        assert((a + b).drop_last() =~= a + b.drop_last());
        assert((a + b).last() == b.last());
    }
}

spec fn char_tokens(text: Seq<char>, st: TextStyle) -> Seq<TokenV> {
    text.map_values(|c: char| char_token(c, st))
}

proof fn lemma_char_tokens_cols(text: Seq<char>, st: TextStyle)
    requires
        forall|j: int| 0 <= j < text.len() ==> #[trigger] text[j] != '\n' && text[j] != '\r',
    ensures
        tokens_cols(char_tokens(text, st)) == chars_cols(text),
        forall|j: int| 0 <= j < text.len() ==> !(#[trigger] char_tokens(text, st)[j] is Break),
    decreases text.len(),
{
    let m = char_tokens(text, st);
    if text.len() > 0 {
        let t = text.drop_last();
        assert forall|j: int| 0 <= j < t.len() implies #[trigger] t[j] != '\n' && t[j] != '\r' by {
            assert(t[j] == text[j]);
        }
        lemma_char_tokens_cols(t, st);
        assert(m.drop_last() =~= char_tokens(t, st));
        assert(m.last() == char_token(text.last(), st));
    }
    assert forall|j: int| 0 <= j < text.len() implies !(#[trigger] m[j] is Break) by {
        assert(m[j] == char_token(text[j], st));
    }
}

proof fn lemma_tokens_of_cols(spans: Seq<SpanV>)
    requires
        no_line_breaks(spans),
    ensures
        tokens_cols(tokens_of(spans)) == spans_cols(spans),
        forall|i: int| 0 <= i < tokens_of(spans).len() ==> !(#[trigger] tokens_of(spans)[i] is Break),
    decreases spans.len(),
{
    if spans.len() > 0 {
        let d = spans.drop_last();
        assert forall|i: int, j: int|
            0 <= i < d.len() && !d[i].style.math && 0 <= j < d[i].text.len() implies (
            #[trigger] d[i].text[j] != '\n' && d[i].text[j] != '\r') by {
            assert(d[i] == spans[i]);
        }
        lemma_tokens_of_cols(d);
        let x = spans.last();
        let a = tokens_of(d);
        let b = span_tokens(x);
        lemma_tokens_cols_append(a, b);
        if x.style.math {
            assert(b =~= seq![TokenV::Math(x.text, x.style)]);
            assert(b.drop_last() =~= Seq::<TokenV>::empty());
            assert(tokens_cols(Seq::<TokenV>::empty()) == 0);
            assert(b.last() == TokenV::Math(x.text, x.style));
            assert(tokens_cols(b) == math_width(x.text));
        } else {
            assert forall|j: int| 0 <= j < x.text.len() implies #[trigger] x.text[j] != '\n'
                && x.text[j] != '\r' by {
                assert(spans[spans.len() - 1] == x);
            }
            lemma_char_tokens_cols(x.text, x.style);
            assert(b == char_tokens(x.text, x.style));
        }
        assert forall|i: int| 0 <= i < (a + b).len() implies !(#[trigger] (a + b)[i] is Break) by {
            if i < a.len() {
                assert((a + b)[i] == a[i]);
            } else {
                assert((a + b)[i] == b[i - a.len()]);
            }
        }
    }
}

proof fn lemma_lay_fold_one_line(toks: Seq<TokenV>, max: nat, start: u32, end_line: u32)
    requires
        forall|i: int| 0 <= i < toks.len() ==> !(#[trigger] toks[i] is Break),
        tokens_cols(toks) <= max,
    ensures
        lay_fold(toks, max, start, end_line).lines.len() == 0,
        lay_fold(toks, max, start, end_line).src == start,
        lay_fold(toks, max, start, end_line).width <= tokens_cols(toks),
        toks.len() > 0 ==> lay_fold(toks, max, start, end_line).cur.len() > 0,
    decreases toks.len(),
{
    if toks.len() > 0 {
        let d = toks.drop_last();
        assert forall|i: int| 0 <= i < d.len() implies !(#[trigger] d[i] is Break) by {
            assert(d[i] == toks[i]);
        }
        lemma_lay_fold_one_line(d, max, start, end_line);
        let st = lay_fold(d, max, start, end_line);
        let t = toks.last();
        assert(!(toks[toks.len() - 1] is Break));
        assert(sat_add(st.width, token_cols(t)) <= st.width + token_cols(t));
    }
}

/// Greedy breaking: runs with no line break whose widths add up to at most `max` columns
/// stay on one line, tagged with the block's first source line.
pub proof fn law_fitting_text_one_line(spans: Seq<SpanV>, max: nat, source: BlockSource)
    requires
        no_line_breaks(spans),
        spans_cols(spans) <= max,
    ensures
        layout_lines(spans, max, source).len() == 1,
        layout_lines(spans, max, source)[0].source_line == source.start_line,
{
    let toks = tokens_of(spans);
    lemma_tokens_of_cols(spans);
    lemma_lay_fold_one_line(toks, max, source.start_line, source.end_line);
}

/// Line breaking carried on from state `st` over `toks`.
spec fn lay_from(st: LayState, toks: Seq<TokenV>, max: nat, end_line: u32) -> LayState
    decreases toks.len(),
{
    if toks.len() == 0 {
        st
    } else {
        lay_step(lay_from(st, toks.drop_last(), max, end_line), toks.last(), max, end_line)
    }
}

proof fn lemma_lay_fold_split(a: Seq<TokenV>, b: Seq<TokenV>, max: nat, start: u32, end_line: u32)
    ensures
        lay_fold(a + b, max, start, end_line) == lay_from(lay_fold(a, max, start, end_line), b, max, end_line),
    decreases b.len(),
{
    if b.len() == 0 {
        assert(a + b =~= a);
    } else {
        lemma_lay_fold_split(a, b.drop_last(), max, start, end_line);
        assert((a + b).drop_last() =~= a + b.drop_last());
        assert((a + b).last() == b.last());
    }
}

proof fn lemma_tokens_of_append(a: Seq<SpanV>, b: Seq<SpanV>)
    ensures
        tokens_of(a + b) == tokens_of(a) + tokens_of(b),
    decreases b.len(),
{
    if b.len() == 0 {
        assert(a + b =~= a);
        assert(tokens_of(a) + tokens_of(b) =~= tokens_of(a));
    } else {
        lemma_tokens_of_append(a, b.drop_last());
        assert((a + b).drop_last() =~= a + b.drop_last());
        assert((a + b).last() == b.last());
        assert(tokens_of(a) + tokens_of(b.drop_last()) + span_tokens(b.last()) =~= tokens_of(a) + (
        tokens_of(b.drop_last()) + span_tokens(b.last())));
    }
}

proof fn lemma_lay_from_one_line(st: LayState, toks: Seq<TokenV>, max: nat, end_line: u32)
    requires
        forall|i: int| 0 <= i < toks.len() ==> !(#[trigger] toks[i] is Break),
        st.width + tokens_cols(toks) <= max,
    ensures
        lay_from(st, toks, max, end_line).lines == st.lines,
        lay_from(st, toks, max, end_line).src == st.src,
        lay_from(st, toks, max, end_line).width <= st.width + tokens_cols(toks),
        toks.len() > 0 ==> lay_from(st, toks, max, end_line).cur.len() > 0,
    decreases toks.len(),
{
    if toks.len() > 0 {
        let d = toks.drop_last();
        assert forall|i: int| 0 <= i < d.len() implies !(#[trigger] d[i] is Break) by {
            assert(d[i] == toks[i]);
        }
        lemma_lay_from_one_line(st, d, max, end_line);
        let st1 = lay_from(st, d, max, end_line);
        let t = toks.last();
        assert(!(toks[toks.len() - 1] is Break));
        assert(sat_add(st1.width, token_cols(t)) <= st1.width + token_cols(t));
    }
}

/// A line feed ends a line: runs that fit in `max` columns, a line feed, then more runs
/// that fit, give exactly two lines, the second on the next source line (but not past
/// the block's last line).
pub proof fn law_line_feed_starts_next_line(
    p: Seq<SpanV>,
    q: Seq<SpanV>,
    style: TextStyle,
    max: nat,
    source: BlockSource,
)
    requires
        !style.math,
        no_line_breaks(p),
        no_line_breaks(q),
        0 < spans_cols(p) <= max,
        0 < spans_cols(q) <= max,
    ensures
        layout_lines(p + seq![SpanV { text: seq!['\n'], style }] + q, max, source).len() == 2,
        layout_lines(p + seq![SpanV { text: seq!['\n'], style }] + q, max, source)[0].source_line
            == source.start_line,
        layout_lines(p + seq![SpanV { text: seq!['\n'], style }] + q, max, source)[1].source_line
            == if source.start_line < source.end_line {
            source.start_line + 1
        } else {
            source.start_line as int
        },
{
    let brk = SpanV { text: seq!['\n'], style };
    let spans = p + seq![brk] + q;
    lemma_tokens_of_append(p + seq![brk], q);
    lemma_tokens_of_append(p, seq![brk]);
    assert(seq![brk].drop_last() =~= Seq::<SpanV>::empty());
    assert(span_tokens(brk) =~= seq![TokenV::Break]);
    assert(tokens_of(Seq::<SpanV>::empty()) =~= Seq::<TokenV>::empty());
    assert(seq![brk].last() == brk);
    assert(tokens_of(seq![brk]) =~= seq![TokenV::Break]);
    let tp = tokens_of(p);
    let tq = tokens_of(q);
    let toks = tokens_of(spans);
    assert(toks == tp + seq![TokenV::Break] + tq);
    lemma_tokens_of_cols(p);
    lemma_tokens_of_cols(q);
    assert(tp.len() > 0);
    assert(tq.len() > 0);
    let start = source.start_line;
    let end_line = source.end_line;
    lemma_lay_fold_one_line(tp, max, start, end_line);
    let sa = lay_fold(tp, max, start, end_line);
    let tb = tp + seq![TokenV::Break];
    assert(tb.drop_last() =~= tp);
    assert(tb.last() == TokenV::Break);
    let sb = lay_fold(tb, max, start, end_line);
    assert(sb == lay_step(sa, TokenV::Break, max, end_line));
    assert(sb.lines.len() == 1);
    assert(sb.lines[0].source_line == start);
    assert(sb.width == 0);
    lemma_lay_fold_split(tb, tq, max, start, end_line);
    assert(toks == tb + tq);
    lemma_lay_from_one_line(sb, tq, max, end_line);
    let fin = flushed(lay_fold(toks, max, start, end_line));
    assert(fin.len() == 2);
    assert(layout_lines(spans, max, source) == fin);
}

} // verus!
