//! Rewrites applied to markdown text before it is parsed.
use vstd::prelude::*;

use crate::layout::{lemma_split_on_nonempty, split_on, split_on_exec};
use crate::text::{
    chars_of, extend_vec, lines_view, replace_all, replace_vec, slice_vec, starts_with,
    starts_with_vec, string_of, trim, trim_start, trim_start_vec, trim_vec,
};

verus! {

/// A line without the carriage return that ends it.
pub open spec fn strip_cr(l: Seq<char>) -> Seq<char> {
    if l.len() > 0 && l.last() == '\r' {
        l.drop_last()
    } else {
        l
    }
}

/// `str::lines`: the lines of `s`, split at `\n` (a `\r` before it dropped), without an
/// empty line after a final line feed.
pub open spec fn lines_of(s: Seq<char>) -> Seq<Seq<char>> {
    let p = split_on(s, '\n');
    let n = p.len();
    Seq::new(
        if p.last().len() == 0 {
            (n - 1) as nat
        } else {
            n
        },
        |i: int|
            if i < n - 1 {
                strip_cr(p[i])
            } else {
                p[i]
            },
    )
}

pub fn lines_exec(s: &Vec<char>) -> (r: Vec<Vec<char>>)
    ensures
        lines_view(r@) == lines_of(s@),
{
    let p = split_on_exec(s, '\n');
    proof {
        lemma_split_on_nonempty(s@, '\n');
    }
    let ghost pv = lines_view(p@);
    let n = p.len();
    let count = if p[n - 1].len() == 0 {
        n - 1
    } else {
        n
    };
    let mut r: Vec<Vec<char>> = Vec::new();
    let mut i: usize = 0;
    while i < count
        invariant
            i <= count <= n,
            n == p.len(),
            pv == lines_view(p@),
            pv == split_on(s@, '\n'),
            count == lines_of(s@).len(),
            lines_view(r@) == lines_of(s@).take(i as int),
        decreases count - i,
    {
        let l = &p[i];
        let piece = if i < n - 1 && l.len() > 0 && l[l.len() - 1] == '\r' {
            slice_vec(l, 0, l.len() - 1)
        } else {
            slice_vec(l, 0, l.len())
        };
        assert(piece@ == lines_of(s@)[i as int]) by {
            assert(pv[i as int] == l@);
            if i < n - 1 && l.len() > 0 && l@.last() == '\r' {
                assert(l@.subrange(0, l@.len() - 1) == l@.drop_last());
            }
        }
        let ghost before = lines_view(r@);
        r.push(piece);
        assert(lines_view(r@) =~= before.push(piece@));
        assert(lines_of(s@).take(i + 1) =~= lines_of(s@).take(i as int).push(lines_of(s@)[i as int]));
        i += 1;
    }
    assert(lines_of(s@).take(count as int) =~= lines_of(s@));
    r
}

/// The lines joined with `sep` between them.
pub open spec fn join(ls: Seq<Seq<char>>, sep: Seq<char>) -> Seq<char>
    decreases ls.len(),
{
    if ls.len() == 0 {
        Seq::empty()
    } else if ls.len() == 1 {
        ls[0]
    } else {
        join(ls.drop_last(), sep) + sep + ls.last()
    }
}

pub fn join_exec(ls: &Vec<Vec<char>>, sep: &Vec<char>) -> (r: Vec<char>)
    ensures
        r@ == join(lines_view(ls@), sep@),
{
    let mut r: Vec<char> = Vec::new();
    let mut i: usize = 0;
    let ghost lv = lines_view(ls@);
    assert(lv.take(0) =~= Seq::<Seq<char>>::empty());
    while i < ls.len()
        invariant
            i <= ls.len(),
            lv == lines_view(ls@),
            r@ == join(lv.take(i as int), sep@),
        decreases ls.len() - i,
    {
        assert(lv.take(i + 1).drop_last() =~= lv.take(i as int));
        assert(lv.take(i + 1).last() == ls@[i as int]@);
        if i > 0 {
            extend_vec(&mut r, sep);
        } else {
            assert(lv.take(1) =~= seq![ls@[0]@]);
            assert(r@ + ls@[0]@ =~= ls@[0]@);
        }
        extend_vec(&mut r, &ls[i]);
        i += 1;
    }
    assert(lv.take(ls.len() as int) =~= lv);
    r
}

/// Markdown with `\r\n` and lone `\r` turned into `\n`.
pub open spec fn normalized_newlines(s: Seq<char>) -> Seq<char> {
    replace_all(replace_all(s, seq!['\r', '\n'], seq!['\n']), seq!['\r'], seq!['\n'])
}

pub fn normalize_newlines_vec(s: &Vec<char>) -> (r: Vec<char>)
    ensures
        r@ == normalized_newlines(s@),
{
    let crlf = vec!['\r', '\n'];
    let lf = vec!['\n'];
    let cr = vec!['\r'];
    let a = replace_vec(s, &crlf, &lf);
    assert(crlf@ =~= seq!['\r', '\n'] && lf@ =~= seq!['\n'] && cr@ =~= seq!['\r']);
    replace_vec(&a, &cr, &lf)
}

/// Replaces Windows (`\r\n`) and old Mac (`\r`) line endings by `\n`.
pub fn normalize_markdown_newlines(markdown: &str) -> (r: String)
    ensures
        r@ == normalized_newlines(markdown@),
{
    let s = chars_of(markdown);
    string_of(&normalize_newlines_vec(&s))
}

/// Whether a line (after leading whitespace) starts an ATX heading: one to six `#`
/// followed by a space.
pub open spec fn is_heading_line(line: Seq<char>) -> bool {
    let t = trim_start(line);
    exists|k: int| 1 <= k <= 6 && #[trigger] starts_with(t, hashes(k).push(' '))
}

/// `k` hash signs.
pub open spec fn hashes(k: int) -> Seq<char> {
    Seq::new(k as nat, |i: int| '#')
}

/// Whether a line starts an ATX heading (see [`is_heading_line`]).
pub fn is_markdown_heading_line(line: &Vec<char>) -> (b: bool)
    ensures
        b == is_heading_line(line@),
{
    let t = trim_start_vec(line);
    let mut k: usize = 1;
    let mut pat: Vec<char> = vec!['#', ' '];
    assert(pat@ =~= hashes(1).push(' '));
    while k <= 6
        invariant
            1 <= k <= 7,
            pat@ == hashes(k as int).push(' '),
            t@ == trim_start(line@),
            forall|j: int| 1 <= j < k ==> !#[trigger] starts_with(t@, hashes(j).push(' ')),
        decreases 7 - k,
    {
        if starts_with_vec(&t, &pat) {
            return true;
        }
        pat.pop();
        pat.push('#');
        pat.push(' ');
        assert(pat@ =~= hashes(k + 1).push(' '));
        k += 1;
    }
    false
}

} // verus!

verus! {

pub open spec fn dollars() -> Seq<char> {
    seq!['$', '$']
}

/// The first `j >= from` whose line, trimmed, is `\]` (or the number of lines).
pub open spec fn bracket_close(ls: Seq<Seq<char>>, from: int) -> int
    decreases ls.len() - from,
{
    if from < 0 || from >= ls.len() {
        ls.len() as int
    } else if trim(ls[from]) == seq!['\\', ']'] {
        from
    } else {
        bracket_close(ls, from + 1)
    }
}

/// The expression of a line of the form `\( expr \)`, trimmed (`None` for other lines).
pub open spec fn paren_math(t: Seq<char>) -> Option<Seq<char>> {
    if t.len() >= 4 && t.take(2) == seq!['\\', '('] && t.skip(t.len() - 2) == seq!['\\', ')'] {
        Some(trim(t.subrange(2, t.len() - 2)))
    } else {
        None
    }
}

/// The lines from `i` on, with `\( expr \)` lines and `\[` ... `\]` groups of lines
/// rewritten as `$$` / expr / `$$` (when the expression is not empty).
pub open spec fn math_lines_from(ls: Seq<Seq<char>>, i: int) -> Seq<Seq<char>>
    decreases ls.len() - i, 
{
    if i < 0 || i >= ls.len() {
        Seq::empty()
    } else {
        let t = trim(ls[i]);
        match paren_math(t) {
            Some(expr) if expr.len() > 0 => seq![dollars(), expr, dollars()] + math_lines_from(ls, i + 1),
            _ => {
                if t == seq!['\\', '['] {
                    let j = bracket_close(ls, i + 1);
                    let expr = trim(join(ls.subrange(i + 1, j), seq!['\n']));
                    if i < j < ls.len() && expr.len() > 0 {
                        seq![dollars(), expr, dollars()] + math_lines_from(ls, j + 1)
                    } else {
                        seq![ls[i]] + math_lines_from(ls, i + 1)
                    }
                } else {
                    seq![ls[i]] + math_lines_from(ls, i + 1)
                }
            },
        }
    }
}

/// Markdown with `\( ... \)` and `\[ ... \]` display math rewritten to `$$` blocks.
pub open spec fn normalized_math_delimiters(s: Seq<char>) -> Seq<char> {
    join(math_lines_from(lines_of(s), 0), seq!['\n'])
}

pub proof fn lemma_bracket_close(ls: Seq<Seq<char>>, from: int)
    requires
        0 <= from,
    ensures
        from <= bracket_close(ls, from) || bracket_close(ls, from) == ls.len(),
        bracket_close(ls, from) <= ls.len() || from > ls.len(),
        bracket_close(ls, from) < ls.len() ==> trim(ls[bracket_close(ls, from)]) == seq!['\\', ']'],
        forall|k: int| from <= k < bracket_close(ls, from) ==> trim(#[trigger] ls[k]) != seq!['\\', ']'],
    decreases ls.len() - from,
{
    if from < ls.len() && trim(ls[from]) != seq!['\\', ']'] {
        lemma_bracket_close(ls, from + 1);
    }
}

fn lit_vec(s: &str) -> (v: Vec<char>)
    ensures
        v@ == s@,
{
    chars_of(s)
}

fn paren_math_exec(t: &Vec<char>) -> (r: Option<Vec<char>>)
    ensures
        r matches Some(e) ==> paren_math(t@) == Some(e@),
        r is None ==> paren_math(t@) is None,
{
    let n = t.len();
    if n >= 4 && t[0] == '\\' && t[1] == '(' && t[n - 2] == '\\' && t[n - 1] == ')' {
        assert(t@.take(2) =~= seq!['\\', '(']);
        assert(t@.skip(n - 2) =~= seq!['\\', ')']);
        let inner = slice_vec(t, 2, n - 2);
        Some(trim_vec(&inner))
    } else {
        assert(!(n >= 4 && t@.take(2) == seq!['\\', '('] && t@.skip(n - 2) == seq!['\\', ')'])) by {
            if n >= 4 && t@.take(2) == seq!['\\', '('] && t@.skip(n - 2) == seq!['\\', ')'] {
                assert(t@.take(2)[0] == t@[0] && t@.take(2)[1] == t@[1]);
                assert(t@.skip(n - 2)[0] == t@[n - 2] && t@.skip(n - 2)[1] == t@[n - 1]);
            }
        }
        None
    }
}

fn is_two(t: &Vec<char>, a: char, b: char) -> (r: bool)
    ensures
        r == (t@ == seq![a, b]),
{
    if t.len() == 2 && t[0] == a && t[1] == b {
        assert(t@ =~= seq![a, b]);
        true
    } else {
        proof {
            if t@ == seq![a, b] {
                assert(t@[0] == a && t@[1] == b);
            }
        }
        false
    }
}

fn push_line(out: &mut Vec<Vec<char>>, l: Vec<char>)
    ensures
        lines_view(final(out)@) == lines_view(old(out)@).push(l@),
{
    let ghost before = lines_view(out@);
    out.push(l);
    assert(lines_view(out@) =~= before.push(out@.last()@));
}

fn copy_lines(ls: &Vec<Vec<char>>, from: usize, to: usize) -> (r: Vec<Vec<char>>)
    requires
        from <= to <= ls.len(),
    ensures
        lines_view(r@) == lines_view(ls@).subrange(from as int, to as int),
{
    let mut r: Vec<Vec<char>> = Vec::new();
    let mut k = from;
    while k < to
        invariant
            from <= k <= to <= ls.len(),
            lines_view(r@) == lines_view(ls@).subrange(from as int, k as int),
        decreases to - k,
    {
        push_line(&mut r, slice_vec(&ls[k], 0, ls[k].len()));
        assert(ls@[k as int]@.subrange(0, ls@[k as int]@.len() as int) =~= ls@[k as int]@);
        assert(lines_view(ls@).subrange(from as int, k + 1) =~= lines_view(ls@).subrange(
            from as int,
            k as int,
        ).push(ls@[k as int]@));
        k += 1;
    }
    r
}

fn bracket_close_exec(ls: &Vec<Vec<char>>, from: usize) -> (j: usize)
    requires
        from <= ls.len(),
    ensures
        j as int == bracket_close(lines_view(ls@), from as int),
{
    let ghost lv = lines_view(ls@);
    let mut j = from;
    while j < ls.len()
        invariant
            from <= j <= ls.len(),
            lv == lines_view(ls@),
            bracket_close(lv, from as int) == bracket_close(lv, j as int),
        decreases ls.len() - j,
    {
        let tj = trim_vec(&ls[j]);
        if is_two(&tj, '\\', ']') {
            return j;
        }
        j += 1;
    }
    j
}

fn math_lines_exec(ls: &Vec<Vec<char>>) -> (r: Vec<Vec<char>>)
    ensures
        lines_view(r@) == math_lines_from(lines_view(ls@), 0),
{
    let ghost lv = lines_view(ls@);
    let mut out: Vec<Vec<char>> = Vec::new();
    let mut i: usize = 0;
    assert(lines_view(out@) =~= Seq::<Seq<char>>::empty());
    while i < ls.len()
        invariant
            i <= ls.len(),
            lv == lines_view(ls@),
            lines_view(out@) + math_lines_from(lv, i as int) == math_lines_from(lv, 0),
        decreases ls.len() - i,
    {
        let ghost before = lines_view(out@);
        let ghost i0 = i as int;
        let t = trim_vec(&ls[i]);
        assert(t@ == trim(lv[i as int]));
        let ghost rest = math_lines_from(lv, i0);
        let pm = paren_math_exec(&t);
        let mut handled = false;
        if let Some(expr) = pm {
            if expr.len() > 0 {
                let ghost e = expr@;
                push_line(&mut out, vec!['$', '$']);
                push_line(&mut out, expr);
                push_line(&mut out, vec!['$', '$']);
                assert(lines_view(out@) =~= before + seq![dollars(), e, dollars()]);
                assert(rest == seq![dollars(), e, dollars()] + math_lines_from(lv, i0 + 1));
                assert(before + (seq![dollars(), e, dollars()] + math_lines_from(lv, i0 + 1)) =~= (
                before + seq![dollars(), e, dollars()]) + math_lines_from(lv, i0 + 1));
                i += 1;
                handled = true;
            }
        }
        if !handled {
            if is_two(&t, '\\', '[') {
                let j = bracket_close_exec(ls, i + 1);
                proof {
                    lemma_bracket_close(lv, i + 1);
                }
                let body = copy_lines(ls, i + 1, j);
                let nl = vec!['\n'];
                let joined = join_exec(&body, &nl);
                assert(nl@ =~= seq!['\n']);
                let expr = trim_vec(&joined);
                if j < ls.len() && expr.len() > 0 {
                    let ghost e = expr@;
                    push_line(&mut out, vec!['$', '$']);
                    push_line(&mut out, expr);
                    push_line(&mut out, vec!['$', '$']);
                    assert(lines_view(out@) =~= before + seq![dollars(), e, dollars()]);
                    assert(rest == seq![dollars(), e, dollars()] + math_lines_from(lv, j + 1));
                    assert(before + (seq![dollars(), e, dollars()] + math_lines_from(lv, j + 1))
                        =~= (before + seq![dollars(), e, dollars()]) + math_lines_from(
                        lv,
                        j + 1,
                    ));
                    i = j + 1;
                } else {
                    push_line(&mut out, slice_vec(&ls[i], 0, ls[i].len()));
                    assert(ls@[i0]@.subrange(0, ls@[i0]@.len() as int) =~= ls@[i0]@);
                    assert(rest == seq![lv[i0]] + math_lines_from(lv, i0 + 1));
                    assert(before + (seq![lv[i as int]] + math_lines_from(lv, i + 1)) =~= before.push(
                        lv[i as int],
                    ) + math_lines_from(lv, i + 1));
                    i += 1;
                }
            } else {
                push_line(&mut out, slice_vec(&ls[i], 0, ls[i].len()));
                assert(ls@[i0]@.subrange(0, ls@[i0]@.len() as int) =~= ls@[i0]@);
                assert(rest == seq![lv[i0]] + math_lines_from(lv, i0 + 1));
                assert(before + (seq![lv[i as int]] + math_lines_from(lv, i + 1)) =~= before.push(
                    lv[i as int],
                ) + math_lines_from(lv, i + 1));
                i += 1;
            }
        }
    }
    assert(lines_view(out@) + Seq::<Seq<char>>::empty() =~= lines_view(out@));
    out
}

/// Rewrites `\( ... \)` and `\[ ... \]` display math into `$$` blocks (see
/// [`normalized_math_delimiters`]).
pub fn normalize_markdown_math_delimiters(markdown: &Vec<char>) -> (r: Vec<char>)
    ensures
        r@ == normalized_math_delimiters(markdown@),
{
    let ls = lines_exec(markdown);
    let out = math_lines_exec(&ls);
    let nl = vec!['\n'];
    assert(nl@ =~= seq!['\n']);
    join_exec(&out, &nl)
}

} // verus!

verus! {

/// A code fence: three backticks.
pub open spec fn fence() -> Seq<char> {
    seq!['`', '`', '`']
}

/// The opening of a mermaid code fence.
pub open spec fn mermaid_open() -> Seq<char> {
    seq!['`', '`', '`', 'm', 'e', 'r', 'm', 'a', 'i', 'd']
}

/// The lines from `i` on, outside a mermaid fence, with each unclosed mermaid fence closed.
pub open spec fn fenced_lines_from(ls: Seq<Seq<char>>, i: int) -> Seq<Seq<char>>
    decreases ls.len() - i, 0int,
{
    if i < 0 || i >= ls.len() {
        Seq::empty()
    } else if starts_with(trim_start(ls[i]), mermaid_open()) {
        seq![ls[i]] + fenced_body_from(ls, i + 1)
    } else {
        seq![ls[i]] + fenced_lines_from(ls, i + 1)
    }
}

/// The lines from `i` on, inside a mermaid fence: the fence ends at a line that is "```" after
/// its leading whitespace; a heading line, or the end of the text, closes it first.
pub open spec fn fenced_body_from(ls: Seq<Seq<char>>, i: int) -> Seq<Seq<char>>
    decreases ls.len() - i, 1int,
{
    if i < 0 || i >= ls.len() {
        seq![fence()]
    } else if trim_start(ls[i]) == fence() {
        seq![ls[i]] + fenced_lines_from(ls, i + 1)
    } else if is_heading_line(ls[i]) {
        seq![fence()] + fenced_lines_from(ls, i)
    } else {
        seq![ls[i]] + fenced_body_from(ls, i + 1)
    }
}

/// Markdown whose unclosed mermaid fences are closed before the next heading or at the end.
pub open spec fn normalized_mermaid_fences(s: Seq<char>) -> Seq<char> {
    join(fenced_lines_from(lines_of(s), 0), seq!['\n'])
}

spec fn fenced_state(lv: Seq<Seq<char>>, i: int, in_fence: bool) -> Seq<Seq<char>> {
    if in_fence {
        fenced_body_from(lv, i)
    } else {
        fenced_lines_from(lv, i)
    }
}

/// Closes mermaid code fences that are left open (see [`normalized_mermaid_fences`]).
pub fn normalize_unclosed_mermaid_fences(markdown: &Vec<char>) -> (r: Vec<char>)
    ensures
        r@ == normalized_mermaid_fences(markdown@),
{
    let ls = lines_exec(markdown);
    let ghost lv = lines_view(ls@);
    let open_pat = vec!['`', '`', '`', 'm', 'e', 'r', 'm', 'a', 'i', 'd'];
    assert(open_pat@ =~= mermaid_open());
    let mut out: Vec<Vec<char>> = Vec::new();
    let mut i: usize = 0;
    let mut in_fence = false;
    let n = ls.len();
    assert(lines_view(out@) =~= Seq::<Seq<char>>::empty());
    while i < n
        invariant
            i <= n == ls.len(),
            lv == lines_view(ls@),
            open_pat@ == mermaid_open(),
            lines_view(out@) + fenced_state(lv, i as int, in_fence) == fenced_lines_from(lv, 0),
        decreases 2 * (n - i) + (if in_fence { 1int } else { 0int }),
    {
        let ghost before = lines_view(out@);
        let ghost i0 = i as int;
        let t = trim_start_vec(&ls[i]);
        let line = slice_vec(&ls[i], 0, ls[i].len());
        assert(line@ =~= lv[i0]);
        if !in_fence {
            let opens = starts_with_vec(&t, &open_pat);
            assert(fenced_state(lv, i0, false) == seq![lv[i0]] + fenced_state(lv, i0 + 1, opens));
            push_line(&mut out, line);
            assert(before + (seq![lv[i0]] + fenced_state(lv, i0 + 1, opens)) =~= before.push(lv[i0])
                + fenced_state(lv, i0 + 1, opens));
            in_fence = opens;
            i += 1;
        } else if is_fence_line(&t) {
            assert(fenced_state(lv, i0, true) == seq![lv[i0]] + fenced_state(lv, i0 + 1, false));
            push_line(&mut out, line);
            assert(before + (seq![lv[i0]] + fenced_state(lv, i0 + 1, false)) =~= before.push(lv[i0])
                + fenced_state(lv, i0 + 1, false));
            in_fence = false;
            i += 1;
        } else if is_markdown_heading_line(&ls[i]) {
            assert(fenced_state(lv, i0, true) == seq![fence()] + fenced_state(lv, i0, false));
            push_line(&mut out, vec!['`', '`', '`']);
            assert(before + (seq![fence()] + fenced_state(lv, i0, false)) =~= lines_view(out@)
                + fenced_state(lv, i0, false));
            in_fence = false;
        } else {
            assert(fenced_state(lv, i0, true) == seq![lv[i0]] + fenced_state(lv, i0 + 1, true));
            push_line(&mut out, line);
            assert(before + (seq![lv[i0]] + fenced_state(lv, i0 + 1, true)) =~= before.push(lv[i0])
                + fenced_state(lv, i0 + 1, true));
            i += 1;
        }
    }
    if in_fence {
        let ghost before = lines_view(out@);
        push_line(&mut out, vec!['`', '`', '`']);
        assert(lines_view(out@) =~= before + fenced_state(lv, n as int, true));
    } else {
        assert(lines_view(out@) =~= lines_view(out@) + fenced_state(lv, n as int, false));
    }
    let nl = vec!['\n'];
    assert(nl@ =~= seq!['\n']);
    join_exec(&out, &nl)
}

fn is_fence_line(t: &Vec<char>) -> (b: bool)
    ensures
        b == (t@ == fence()),
{
    if t.len() == 3 && t[0] == '`' && t[1] == '`' && t[2] == '`' {
        assert(t@ =~= fence());
        true
    } else {
        proof {
            if t@ == fence() {
                assert(t@[0] == '`' && t@[1] == '`' && t@[2] == '`');
            }
        }
        false
    }
}

} // verus!

verus! {

/// After line endings are normalised no carriage return is left, and normalising again
/// changes nothing.
pub proof fn law_normalized_newlines(s: Seq<char>)
    ensures
        !normalized_newlines(s).contains('\r'),
        normalized_newlines(normalized_newlines(s)) == normalized_newlines(s),
{
    let a = replace_all(s, seq!['\r', '\n'], seq!['\n']);
    let n = normalized_newlines(s);
    assert(!seq!['\n'].contains('\r'));
    crate::text::lemma_replace_removes(a, '\r', seq!['\n']);
    crate::text::lemma_replace_absent_pattern(n, seq!['\r', '\n'], seq!['\n']);
    crate::text::lemma_replace_absent_pattern(n, seq!['\r'], seq!['\n']);
}

} // verus!
