//! Styled runs of inline text.
use vstd::prelude::*;

use crate::text::{
    chars_of, find, find_from_vec, lemma_find_from, slice_vec, string_of, trim, trim_vec,
};

verus! {

/// How an inline run is drawn.
#[derive(Clone, Copy, Debug, PartialEq, Eq, Structural)]
pub struct TextStyle {
    pub bold: bool,
    pub italic: bool,
    pub code: bool,
    pub link: bool,
    pub math: bool,
}

/// The style with every attribute off.
pub open spec fn plain_style() -> TextStyle {
    TextStyle { bold: false, italic: false, code: false, link: false, math: false }
}

impl Default for TextStyle {
    fn default() -> (s: Self)
        ensures
            s == plain_style(),
    {
        TextStyle { bold: false, italic: false, code: false, link: false, math: false }
    }
}

/// A run of text in one style.
#[derive(Clone, Debug)]
pub struct InlineSpan {
    pub text: String,
    pub style: TextStyle,
}

/// The model of a run: its characters and style.
pub struct SpanV {
    pub text: Seq<char>,
    pub style: TextStyle,
}

impl View for InlineSpan {
    type V = SpanV;

    open spec fn view(&self) -> SpanV {
        SpanV { text: self.text@, style: self.style }
    }
}

pub open spec fn spans_view(s: Seq<InlineSpan>) -> Seq<SpanV> {
    s.map_values(|x: InlineSpan| x@)
}

/// The text of a sequence of runs, run after run.
pub open spec fn spans_text(s: Seq<SpanV>) -> Seq<char>
    decreases s.len(),
{
    if s.len() == 0 {
        Seq::empty()
    } else {
        spans_text(s.drop_last()) + s.last().text
    }
}

/// Appends `text` in `style`: nothing for empty text, joined to the last run when that run
/// has the same style, a new run otherwise.
pub open spec fn push_span(out: Seq<SpanV>, text: Seq<char>, style: TextStyle) -> Seq<SpanV> {
    if text.len() == 0 {
        out
    } else if out.len() > 0 && out.last().style == style {
        out.update(out.len() - 1, SpanV { text: out.last().text + text, style })
    } else {
        out.push(SpanV { text, style })
    }
}

pub proof fn lemma_spans_view_push(s: Seq<InlineSpan>, x: InlineSpan)
    ensures
        spans_view(s.push(x)) == spans_view(s).push(x@),
{
    assert(spans_view(s.push(x)) =~= spans_view(s).push(x@));
}

/// A copy of a run.
pub fn copy_span(x: &InlineSpan) -> (r: InlineSpan)
    ensures
        r@ == x@,
{
    InlineSpan { text: x.text.clone(), style: x.style }
}

/// A copy of a sequence of runs.
pub fn copy_spans(v: &Vec<InlineSpan>) -> (r: Vec<InlineSpan>)
    ensures
        spans_view(r@) == spans_view(v@),
{
    let mut r: Vec<InlineSpan> = Vec::new();
    let mut i: usize = 0;
    while i < v.len()
        invariant
            i <= v.len(),
            spans_view(r@) == spans_view(v@).take(i as int),
        decreases v.len() - i,
    {
        let ghost before = r@;
        r.push(copy_span(&v[i]));
        proof {
            lemma_spans_view_push(before, r@.last());
            assert(spans_view(v@).take(i + 1) =~= spans_view(v@).take(i as int).push(v@[i as int]@));
        }
        i += 1;
    }
    assert(spans_view(v@).take(v.len() as int) =~= spans_view(v@));
    r
}

impl InlineSpan {
    /// Appends `text` in `style` to `out` (see [`push_span`]).
    pub fn push(out: &mut Vec<InlineSpan>, text: &str, style: TextStyle)
        ensures
            spans_view(final(out)@) == push_span(spans_view(old(out)@), text@, style),
    {
        if text.is_empty() {
            return;
        }
        let n = out.len();
        if n > 0 && out[n - 1].style == style {
            let ghost before = out@;
            let mut last = out.pop().unwrap();
            let ghost old_last = last@;
            last.text.append(text);
            out.push(last);
            proof {
                assert(before.drop_last() == out@.drop_last());
                assert(spans_view(out@) =~= spans_view(before).update(
                    before.len() - 1,
                    SpanV { text: old_last.text + text@, style },
                ));
            }
        } else {
            let ghost before = out@;
            let span = InlineSpan { text: String::from_str(text), style };
            out.push(span);
            proof {
                lemma_spans_view_push(before, out@.last());
            }
        }
    }
}

/// Appends the characters `text` in `style` (see [`push_span`]).
pub fn push_chars(out: &mut Vec<InlineSpan>, text: &Vec<char>, style: TextStyle)
    ensures
        spans_view(final(out)@) == push_span(spans_view(old(out)@), text@, style),
{
    let s = string_of(text);
    InlineSpan::push(out, s.as_str(), style);
}

/// Joins neighbouring runs of the same style, left to right.
pub open spec fn merged(s: Seq<SpanV>) -> Seq<SpanV>
    decreases s.len(),
{
    if s.len() == 0 {
        s
    } else {
        let m = merged(s.drop_last());
        if m.len() > 0 && m.last().style == s.last().style {
            m.update(m.len() - 1, SpanV { text: m.last().text + s.last().text, style: s.last().style })
        } else {
            m.push(s.last())
        }
    }
}

/// Joins neighbouring runs that share a style.
pub fn merge_adjacent_spans(spans: &mut Vec<InlineSpan>)
    ensures
        spans_view(final(spans)@) == merged(spans_view(old(spans)@)),
        spans_text(spans_view(final(spans)@)) == spans_text(spans_view(old(spans)@)),
        forall|i: int|
            0 <= i < final(spans)@.len() - 1 ==> #[trigger] final(spans)@[i].style != final(spans)@[i + 1].style,
        merged(spans_view(final(spans)@)) == spans_view(final(spans)@),
{
    let mut out: Vec<InlineSpan> = Vec::new();
    let mut i: usize = 0;
    let ghost orig = spans_view(spans@);
    assert(orig.take(0) =~= Seq::<SpanV>::empty());
    while i < spans.len()
        invariant
            i <= spans.len(),
            orig == spans_view(spans@),
            spans_view(out@) == merged(orig.take(i as int)),
        decreases spans.len() - i,
    {
        let ghost before = out@;
        let x = copy_span(&spans[i]);
        assert(orig.take(i + 1).drop_last() =~= orig.take(i as int));
        assert(orig.take(i + 1).last() == x@);
        let n = out.len();
        if n > 0 && out[n - 1].style == x.style {
            let mut last = out.pop().unwrap();
            let ghost old_last = last@;
            last.text.append(x.text.as_str());
            out.push(last);
            proof {
                assert(before.drop_last() == out@.drop_last());
                assert(spans_view(out@) =~= spans_view(before).update(
                    before.len() - 1,
                    SpanV { text: old_last.text + x@.text, style: x@.style },
                ));
            }
        } else {
            out.push(x);
            proof {
                lemma_spans_view_push(before, out@.last());
            }
        }
        i += 1;
    }
    assert(orig.take(spans.len() as int) =~= orig);
    proof {
        law_merged_runs(orig);
        law_merged_fixed(merged(orig));
        assert forall|i: int| 0 <= i < out@.len() - 1 implies #[trigger] out@[i].style != out@[i + 1].style by {
            assert(spans_view(out@)[i] == out@[i]@);
            assert(spans_view(out@)[i + 1] == out@[i + 1]@);
            assert(merged(orig)[i].style != merged(orig)[i + 1].style);
        }
    }
    *spans = out;
}

/// The math delimiter that opens at the first `$` of `rest`: `Some((i, true))` when it is
/// `$$`, `Some((i, false))` when it is a single `$`.
pub open spec fn next_math_delimiter(rest: Seq<char>) -> Option<(int, bool)> {
    match find(rest, seq!['$']) {
        Some(i) => Some((i, i + 1 < rest.len() && rest[i + 1] == '$')),
        None => None,
    }
}

/// Appends `text`, with each `$...$` or `$$...$$` part (trimmed, when not empty) as a math
/// run and the rest in the inherited style. A delimiter that is never closed is kept as
/// text.
pub open spec fn text_with_math(out: Seq<SpanV>, rest: Seq<char>, st: TextStyle) -> Seq<SpanV>
    decreases rest.len(),
{
    if rest.len() == 0 {
        out
    } else {
        match next_math_delimiter(rest) {
            None => push_span(out, rest, st),
            Some((pos, display)) => {
                let out1 = if pos > 0 {
                    push_span(out, rest.take(pos), st)
                } else {
                    out
                };
                let after = rest.skip(pos);
                let open = if display {
                    2int
                } else {
                    1int
                };
                let close = if display {
                    seq!['$', '$']
                } else {
                    seq!['$']
                };
                match find(after.skip(open), close) {
                    Some(end) => {
                        let expr = trim(after.subrange(open, open + end));
                        let out2 = if expr.len() > 0 {
                            push_span(out1, expr, TextStyle { math: true, ..st })
                        } else {
                            out1
                        };
                        if 0 <= pos && 0 <= end && pos + open + end + close.len() <= rest.len() {
                            text_with_math(out2, after.skip(open + end + close.len()), st)
                        } else {
                            out2
                        }
                    },
                    None => push_span(out1, after, st),
                }
            },
        }
    }
}

/// Appends `text` to `out`, splitting out `$` math (see [`text_with_math`]).
pub fn push_text_with_math(out: &mut Vec<InlineSpan>, text: &Vec<char>, inherited: TextStyle)
    ensures
        spans_view(final(out)@) == text_with_math(spans_view(old(out)@), text@, inherited),
{
    let dollar = vec!['$'];
    let dollars = vec!['$', '$'];
    let mut i: usize = 0;
    assert(text@.skip(0) == text@);
    while i < text.len()
        invariant
            i <= text.len(),
            dollar@ == seq!['$'],
            dollars@ == seq!['$', '$'],
            text_with_math(spans_view(old(out)@), text@, inherited) == text_with_math(
                spans_view(out@),
                text@.skip(i as int),
                inherited,
            ),
        decreases text.len() - i,
    {
        let ghost rest = text@.skip(i as int);
        let pos = match find_from_vec(text, &dollar, i) {
            None => {
                proof {
                    lemma_find_from(text@, dollar@, i as int);
                    lemma_find_shift_none(text@, dollar@, i as int);
                }
                let r = slice_vec(text, i, text.len());
                push_chars(out, &r, inherited);
                assert(text_with_math(spans_view(out@), text@.skip(text.len() as int), inherited)
                    == spans_view(out@));
                i = text.len();
                continue;
            },
            Some(p) => p,
        };
        proof {
            lemma_find_from(text@, dollar@, i as int);
            lemma_find_shift_some(text@, dollar@, i as int, pos as int);
        }
        let display = pos + 1 < text.len() && text[pos + 1] == '$';
        if pos > i {
            let pre = slice_vec(text, i, pos);
            assert(pre@ == rest.take(pos - i));
            push_chars(out, &pre, inherited);
        }
        let ghost after = rest.skip(pos - i);
        assert(after == text@.skip(pos as int));
        let open: usize = if display {
            2
        } else {
            1
        };
        let close = if display {
            &dollars
        } else {
            &dollar
        };
        match find_from_vec(text, close, pos + open) {
            Some(e) => {
                proof {
                    lemma_find_from(text@, close@, (pos + open) as int);
                    lemma_find_shift_some(text@, close@, (pos + open) as int, e as int);
                    assert(after.skip(open as int) == text@.skip(pos + open));
                }
                let end = e - (pos + open);
                let inner = slice_vec(text, pos + open, e);
                assert(inner@ == after.subrange(open as int, open + end));
                let expr = trim_vec(&inner);
                if expr.len() > 0 {
                    push_chars(out, &expr, TextStyle { math: true, ..inherited });
                }
                assert(after.skip(open + end + close@.len()) == text@.skip(e + close@.len()));
                i = e + close.len();
            },
            None => {
                proof {
                    lemma_find_from(text@, close@, (pos + open) as int);
                    lemma_find_shift_none(text@, close@, (pos + open) as int);
                    assert(after.skip(open as int) == text@.skip(pos + open));
                }
                let r = slice_vec(text, pos, text.len());
                push_chars(out, &r, inherited);
                assert(text_with_math(spans_view(out@), text@.skip(text.len() as int), inherited)
                    == spans_view(out@));
                i = text.len();
            },
        }
    }
}

proof fn lemma_find_shift(s: Seq<char>, p: Seq<char>, from: int, k: int)
    requires
        0 <= from <= s.len(),
        0 <= k,
    ensures
        crate::text::find_from(s, p, from + k) == match crate::text::find_from(
            s.skip(from),
            p,
            k,
        ) {
            Some(j) => Some(j + from),
            None => None,
        },
    decreases s.len() - from - k,
{
    let t = s.skip(from);
    if from + k + p.len() <= s.len() {
        assert(s.subrange(from + k, from + k + p.len()) =~= t.subrange(k, k + p.len()));
    }
    if from + k + p.len() > s.len() {
    } else if crate::text::occurs_at(s, p, from + k) || from + k >= s.len() {
    } else {
        lemma_find_shift(s, p, from, k + 1);
    }
}

proof fn lemma_find_shift_some(s: Seq<char>, p: Seq<char>, from: int, j: int)
    requires
        0 <= from <= s.len(),
        crate::text::find_from(s, p, from) == Some(j),
    ensures
        find(s.skip(from), p) == Some(j - from),
{
    lemma_find_shift(s, p, from, 0);
}

proof fn lemma_find_shift_none(s: Seq<char>, p: Seq<char>, from: int)
    requires
        0 <= from <= s.len(),
        crate::text::find_from(s, p, from) is None,
    ensures
        find(s.skip(from), p) is None,
{
    lemma_find_shift(s, p, from, 0);
}

} // verus!

verus! {

pub proof fn lemma_spans_text_last(s: Seq<SpanV>, x: SpanV)
    requires
        s.len() > 0,
    ensures
        spans_text(s.update(s.len() - 1, x)) == spans_text(s.drop_last()) + x.text,
{
    assert(s.update(s.len() - 1, x).drop_last() =~= s.drop_last());
}

/// Appending text in a style adds exactly that text after the text of the runs.
pub proof fn law_push_span_appends_text(out: Seq<SpanV>, text: Seq<char>, style: TextStyle)
    ensures
        spans_text(push_span(out, text, style)) == spans_text(out) + text,
{
    if text.len() == 0 {
        assert(spans_text(out) + text =~= spans_text(out));
    } else if out.len() > 0 && out.last().style == style {
        lemma_spans_text_last(out, SpanV { text: out.last().text + text, style });
        assert(spans_text(out) == spans_text(out.drop_last()) + out.last().text);
        assert(spans_text(out.drop_last()) + (out.last().text + text) =~= spans_text(out) + text);
    } else {
        assert(out.push(SpanV { text, style }).drop_last() =~= out);
    }
}

/// Joining neighbouring runs keeps the text, and leaves no two neighbours in one style.
pub proof fn law_merged_runs(s: Seq<SpanV>)
    ensures
        spans_text(merged(s)) == spans_text(s),
        forall|i: int| 0 <= i < merged(s).len() - 1 ==> #[trigger] merged(s)[i].style != merged(s)[i + 1].style,
        merged(s).len() <= s.len(),
    decreases s.len(),
{
    if s.len() > 0 {
        law_merged_runs(s.drop_last());
        let m = merged(s.drop_last());
        let x = s.last();
        if m.len() > 0 && m.last().style == x.style {
            let y = SpanV { text: m.last().text + x.text, style: x.style };
            lemma_spans_text_last(m, y);
            assert(spans_text(m) == spans_text(m.drop_last()) + m.last().text);
            assert(spans_text(m.drop_last()) + (m.last().text + x.text) =~= spans_text(m) + x.text);
            let r = m.update(m.len() - 1, y);
            assert forall|i: int| 0 <= i < r.len() - 1 implies #[trigger] r[i].style != r[i + 1].style by {
                assert(r[i] == m[i]);
                if i + 1 < m.len() - 1 {
                    assert(r[i + 1] == m[i + 1]);
                } else {
                    assert(r[i + 1].style == m[i + 1].style);
                }
            }
        } else {
            assert(m.push(x).drop_last() =~= m);
            let r = m.push(x);
            assert forall|i: int| 0 <= i < r.len() - 1 implies #[trigger] r[i].style != r[i + 1].style by {
                assert(r[i] == m[i]);
                if i + 1 < m.len() {
                    assert(r[i + 1] == m[i + 1]);
                }
            }
        }
    }
}

/// Runs with no two neighbours in one style are left as they are by joining: joining a
/// second time changes nothing.
pub proof fn law_merged_fixed(s: Seq<SpanV>)
    requires
        forall|i: int| 0 <= i < s.len() - 1 ==> #[trigger] s[i].style != s[i + 1].style,
    ensures
        merged(s) == s,
    decreases s.len(),
{
    if s.len() > 0 {
        let init = s.drop_last();
        assert forall|i: int| 0 <= i < init.len() - 1 implies #[trigger] init[i].style != init[i + 1].style by {
            assert(init[i] == s[i] && init[i + 1] == s[i + 1]);
        }
        law_merged_fixed(init);
        if init.len() > 0 {
            assert(s[s.len() - 2].style != s[s.len() - 1].style);
        }
        assert(init.push(s.last()) =~= s);
    }
}

} // verus!
