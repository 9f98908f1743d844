//! Math shown without a renderer: LaTeX rewritten into plain Unicode text, one line per
//! row of a matrix or case split; and the delimiters normalised before math is handed to
//! KaTeX.
use vstd::prelude::*;

use crate::preprocess::{join, lines_of};
use crate::text::{find, is_space, lemma_find_from, occurs_at, replace_all, starts_with, trim};

verus! {

/// The rewrites applied, in order, to a line of math shown as text.
pub open spec fn math_rules() -> Seq<(Seq<char>, Seq<char>)> {
    seq![
        (seq!['\\', 'd', 'i', 's', 'p', 'l', 'a', 'y', 's', 't', 'y', 'l', 'e'], Seq::<char>::empty()),
        (seq!['\\', 'l', 'e', 'f', 't'], Seq::<char>::empty()),
        (seq!['\\', 'r', 'i', 'g', 'h', 't'], Seq::<char>::empty()),
        (seq!['\\', 'l', 'V', 'e', 'r', 't'], seq!['‖']),
        (seq!['\\', 'r', 'V', 'e', 'r', 't'], seq!['‖']),
        (seq!['\\', 'l', 'v', 'e', 'r', 't'], seq!['|']),
        (seq!['\\', 'r', 'v', 'e', 'r', 't'], seq!['|']),
        (seq!['\\', '|'], seq!['‖']),
        (seq!['\\', 'v', 'e', 'r', 't'], seq!['|']),
        (seq!['\\', 'c', 'd', 'o', 't'], seq!['·']),
        (seq!['\\', 't', 'i', 'm', 'e', 's'], seq!['×']),
        (seq!['\\', 's', 'u', 'm'], seq!['∑']),
        (seq!['\\', 'i', 'n', 't'], seq!['∫']),
        (seq!['\\', 's', 'q', 'r', 't'], seq!['√']),
        (seq!['\\', 'i', 'n', 'f', 't', 'y'], seq!['∞']),
        (seq!['\\', 'n', 'a', 'b', 'l', 'a'], seq!['∇']),
        (seq!['\\', 'p', 'i'], seq!['π']),
        (seq!['\\', 'a', 'l', 'p', 'h', 'a'], seq!['α']),
        (seq!['\\', 'b', 'e', 't', 'a'], seq!['β']),
        (seq!['\\', 'g', 'a', 'm', 'm', 'a'], seq!['γ']),
        (seq!['\\', 'r', 'h', 'o'], seq!['ρ']),
        (seq!['\\', 'v', 'a', 'r', 'e', 'p', 's', 'i', 'l', 'o', 'n'], seq!['ε']),
        (seq!['\\', 'l', 'e'], seq!['≤']),
        (seq!['\\', 'g', 'e'], seq!['≥']),
        (seq!['\\', 'n', 'e', 'q'], seq!['≠']),
        (seq!['\\', 'm', 'i', 'd'], seq!['|']),
        (seq!['\\', 't', 'o'], seq!['→']),
        (seq!['\\', 'm', 'a', 't', 'h', 'r', 'm'], Seq::<char>::empty()),
        (seq!['\\', 'm', 'a', 't', 'h', 'b', 'f'], Seq::<char>::empty()),
        (seq!['\\', 't', 'e', 'x', 't'], Seq::<char>::empty()),
        (seq!['\\', ','], seq![' ']),
        (seq!['\\', 'q', 'u', 'a', 'd'], seq![' ', ' ']),
    ]
}

/// The rewrites applied, in order, to math handed to KaTeX.
pub open spec fn katex_rules() -> Seq<(Seq<char>, Seq<char>)> {
    seq![
        (seq!['\\', 'l', 'e', 'f', 't', '\\', 'l', 'V', 'e', 'r', 't'], seq!['‖']),
        (seq!['\\', 'r', 'i', 'g', 'h', 't', '\\', 'r', 'V', 'e', 'r', 't'], seq!['‖']),
        (seq!['\\', 'l', 'e', 'f', 't', '\\', '|'], seq!['‖']),
        (seq!['\\', 'r', 'i', 'g', 'h', 't', '\\', '|'], seq!['‖']),
        (seq!['\\', 'l', 'V', 'e', 'r', 't'], seq!['‖']),
        (seq!['\\', 'r', 'V', 'e', 'r', 't'], seq!['‖']),
        (seq!['\\', 'V', 'e', 'r', 't'], seq!['‖']),
        (seq!['\\', 'l', 'v', 'e', 'r', 't'], seq!['|']),
        (seq!['\\', 'r', 'v', 'e', 'r', 't'], seq!['|']),
        (seq!['\\', 'v', 'e', 'r', 't'], seq!['|']),
        (seq!['\\', '|'], seq!['‖']),
    ]
}

pub open spec fn rules_view(v: Seq<(Vec<char>, Vec<char>)>) -> Seq<(Seq<char>, Seq<char>)> {
    v.map_values(|p: (Vec<char>, Vec<char>)| (p.0@, p.1@))
}

/// `s` with each rule's pattern replaced by its text, rule after rule.
pub open spec fn apply_rules(s: Seq<char>, rules: Seq<(Seq<char>, Seq<char>)>) -> Seq<char>
    decreases rules.len(),
{
    if rules.len() == 0 {
        s
    } else {
        apply_rules(replace_all(s, rules[0].0, rules[0].1), rules.drop_first())
    }
}

pub proof fn lemma_replace_len(s: Seq<char>, p: Seq<char>, r: Seq<char>)
    requires
        r.len() <= p.len(),
    ensures
        replace_all(s, p, r).len() <= s.len(),
    decreases s.len(),
{
    if s.len() > 0 {
        if p.len() > 0 && crate::text::starts_with(s, p) {
            lemma_replace_len(s.skip(p.len() as int), p, r);
        } else {
            lemma_replace_len(s.drop_first(), p, r);
        }
    }
}

pub proof fn lemma_apply_rules_len(s: Seq<char>, rules: Seq<(Seq<char>, Seq<char>)>)
    requires
        forall|k: int| 0 <= k < rules.len() ==> #[trigger] rules[k].1.len() <= rules[k].0.len(),
    ensures
        apply_rules(s, rules).len() <= s.len(),
    decreases rules.len(),
{
    if rules.len() > 0 {
        lemma_replace_len(s, rules[0].0, rules[0].1);
        let rest = rules.drop_first();
        assert forall|k: int| 0 <= k < rest.len() implies #[trigger] rest[k].1.len() <= rest[k].0.len() by {
            assert(rest[k] == rules[k + 1]);
        }
        lemma_apply_rules_len(replace_all(s, rules[0].0, rules[0].1), rest);
    }
}

pub proof fn lemma_math_rules_shrink()
    ensures
        forall|k: int| 0 <= k < math_rules().len() ==> #[trigger] math_rules()[k].1.len() <= math_rules()[k].0.len(),
{
    let t = math_rules();
    assert(t[0].1.len() <= t[0].0.len());
    assert(t[1].1.len() <= t[1].0.len());
    assert(t[2].1.len() <= t[2].0.len());
    assert(t[3].1.len() <= t[3].0.len());
    assert(t[4].1.len() <= t[4].0.len());
    assert(t[5].1.len() <= t[5].0.len());
    assert(t[6].1.len() <= t[6].0.len());
    assert(t[7].1.len() <= t[7].0.len());
    assert(t[8].1.len() <= t[8].0.len());
    assert(t[9].1.len() <= t[9].0.len());
    assert(t[10].1.len() <= t[10].0.len());
    assert(t[11].1.len() <= t[11].0.len());
    assert(t[12].1.len() <= t[12].0.len());
    assert(t[13].1.len() <= t[13].0.len());
    assert(t[14].1.len() <= t[14].0.len());
    assert(t[15].1.len() <= t[15].0.len());
    assert(t[16].1.len() <= t[16].0.len());
    assert(t[17].1.len() <= t[17].0.len());
    assert(t[18].1.len() <= t[18].0.len());
    assert(t[19].1.len() <= t[19].0.len());
    assert(t[20].1.len() <= t[20].0.len());
    assert(t[21].1.len() <= t[21].0.len());
    assert(t[22].1.len() <= t[22].0.len());
    assert(t[23].1.len() <= t[23].0.len());
    assert(t[24].1.len() <= t[24].0.len());
    assert(t[25].1.len() <= t[25].0.len());
    assert(t[26].1.len() <= t[26].0.len());
    assert(t[27].1.len() <= t[27].0.len());
    assert(t[28].1.len() <= t[28].0.len());
    assert(t[29].1.len() <= t[29].0.len());
    assert(t[30].1.len() <= t[30].0.len());
    assert(t[31].1.len() <= t[31].0.len());
}


} // verus!

verus! {

/// Scans for the first `{ ... }` group from `i`, `depth` groups being open and the first
/// having its text start at `start`: the start of the text and the index of the brace
/// that closes it. `None` when a `}` comes first or the group is never closed.
pub open spec fn brace_scan(s: Seq<char>, i: int, depth: nat, start: Option<int>) -> Option<(int, int)>
    decreases s.len() - i,
{
    if i < 0 || i >= s.len() {
        None
    } else if s[i] == '{' {
        brace_scan(
            s,
            i + 1,
            depth + 1,
            if start is None {
                Some(i + 1)
            } else {
                start
            },
        )
    } else if s[i] == '}' {
        if depth == 0 {
            None
        } else if depth == 1 {
            match start {
                Some(st) => Some((st, i)),
                None => None,
            }
        } else {
            brace_scan(s, i + 1, (depth - 1) as nat, start)
        }
    } else {
        brace_scan(s, i + 1, depth, start)
    }
}

pub proof fn lemma_brace_scan(s: Seq<char>, i: int, depth: nat, start: Option<int>)
    requires
        0 <= i,
        start matches Some(x) ==> 0 < x <= i,
        depth > 0 <==> start is Some,
    ensures
        brace_scan(s, i, depth, start) matches Some((st, e)) ==> 0 < st <= e < s.len() && (
        start matches Some(x) ==> st == x) && (start is None ==> st > i),
    decreases s.len() - i,
{
    if 0 <= i < s.len() {
        if s[i] == '{' {
            lemma_brace_scan(s, i + 1, depth + 1, if start is None { Some(i + 1) } else { start });
        } else if s[i] == '}' {
            if depth > 1 {
                lemma_brace_scan(s, i + 1, (depth - 1) as nat, start);
            }
        } else {
            lemma_brace_scan(s, i + 1, depth, start);
        }
    }
}

/// The text of the first `{ ... }` group of `s` (anything before its `{` skipped) and what
/// follows its closing brace.
pub open spec fn take_braced(s: Seq<char>) -> Option<(Seq<char>, Seq<char>)> {
    match brace_scan(s, 0, 0, None) {
        Some((st, e)) => Some((s.subrange(st, e), s.skip(e + 1))),
        None => None,
    }
}

pub proof fn lemma_take_braced(s: Seq<char>)
    ensures
        take_braced(s) matches Some((a, b)) ==> a.len() < s.len() && b.len() < s.len(),
{
    lemma_brace_scan(s, 0, 0, None);
}

/// The opening of a fraction.
pub open spec fn frac_open() -> Seq<char> {
    seq!['\\', 'f', 'r', 'a', 'c', '{']
}

/// `s` with each `\frac{num}{den}` written `(num)/(den)`, both parts simplified; a
/// `\frac{` without two groups is kept (and its brace seen again). `None` when a part
/// cannot be simplified.
pub open spec fn frac_from(rest: Seq<char>) -> Option<Seq<char>>
    decreases rest.len(), 0int,
{
    proof {
        lemma_find_from(rest, frac_open(), 0);
    }
    match find(rest, frac_open()) {
        None => Some(rest),
        Some(pos) => {
            let head = rest.take(pos);
            let after = rest.skip(pos + 5);
            let kept = match frac_from(after) {
                Some(t) => Some(head + frac_open() + t),
                None => None,
            };
            proof {
                lemma_take_braced(after);
            }
            match take_braced(after) {
                Some((num, after_num)) => {
                    proof {
                        lemma_take_braced(after_num);
                    }
                    match take_braced(after_num) {
                        Some((den, after_den)) => match (
                            simplified(num),
                            simplified(den),
                            frac_from(after_den),
                        ) {
                            (Some(a), Some(b), Some(t)) => Some(
                                head + seq!['('] + a + seq![')', '/', '('] + b + seq![')'] + t,
                            ),
                            _ => None,
                        },
                        None => kept,
                    }
                },
                None => kept,
            }
        },
    }
}

/// Where a `{ ... }` group whose text starts at `i` ends (just after its closing brace),
/// or the end of `cs` when it is not closed.
pub open spec fn group_end(cs: Seq<char>, i: int, depth: nat) -> int
    decreases cs.len() - i,
{
    if i < 0 || i >= cs.len() || depth == 0 {
        i
    } else if cs[i] == '{' {
        group_end(cs, i + 1, depth + 1)
    } else if cs[i] == '}' {
        group_end(cs, i + 1, (depth - 1) as nat)
    } else {
        group_end(cs, i + 1, depth)
    }
}

pub proof fn lemma_group_end(cs: Seq<char>, i: int, depth: nat)
    requires
        0 <= i,
    ensures
        i <= group_end(cs, i, depth),
        group_end(cs, i, depth) <= cs.len() || group_end(cs, i, depth) == i,
        i < cs.len() && depth > 0 ==> i < group_end(cs, i, depth),
    decreases cs.len() - i,
{
    if 0 <= i < cs.len() && depth > 0 {
        if cs[i] == '{' {
            lemma_group_end(cs, i + 1, depth + 1);
        } else if cs[i] == '}' {
            lemma_group_end(cs, i + 1, (depth - 1) as nat);
        } else {
            lemma_group_end(cs, i + 1, depth);
        }
    }
}

/// The superscript form of a character, where Unicode has one.
pub open spec fn super_script(c: char) -> char {
    if c == '0' { '⁰' } else if c == '1' { '¹' } else if c == '2' { '²' } else if c == '3' { '³' }
    else if c == '4' { '⁴' } else if c == '5' { '⁵' } else if c == '6' { '⁶' } else if c == '7' { '⁷' }
    else if c == '8' { '⁸' } else if c == '9' { '⁹' } else if c == '+' { '⁺' } else if c == '-' { '⁻' }
    else if c == '=' { '⁼' } else if c == '(' { '⁽' } else if c == ')' { '⁾' } else if c == 'n' { 'ⁿ' }
    else if c == 'i' { 'ⁱ' } else { c }
}

/// The subscript form of a character, where Unicode has one.
pub open spec fn sub_script(c: char) -> char {
    if c == '0' { '₀' } else if c == '1' { '₁' } else if c == '2' { '₂' } else if c == '3' { '₃' }
    else if c == '4' { '₄' } else if c == '5' { '₅' } else if c == '6' { '₆' } else if c == '7' { '₇' }
    else if c == '8' { '₈' } else if c == '9' { '₉' } else if c == '+' { '₊' } else if c == '-' { '₋' }
    else if c == '=' { '₌' } else if c == '(' { '₍' } else if c == ')' { '₎' } else if c == 'a' { 'ₐ' }
    else if c == 'e' { 'ₑ' } else if c == 'h' { 'ₕ' } else if c == 'i' { 'ᵢ' } else if c == 'j' { 'ⱼ' }
    else if c == 'k' { 'ₖ' } else if c == 'l' { 'ₗ' } else if c == 'm' { 'ₘ' } else if c == 'n' { 'ₙ' }
    else if c == 'o' { 'ₒ' } else if c == 'p' { 'ₚ' } else if c == 'r' { 'ᵣ' } else if c == 's' { 'ₛ' }
    else if c == 't' { 'ₜ' } else if c == 'u' { 'ᵤ' } else if c == 'v' { 'ᵥ' } else if c == 'x' { 'ₓ' }
    else { c }
}

pub open spec fn script_chars(t: Seq<char>, sup: bool) -> Seq<char> {
    t.map_values(|c: char| if sup { super_script(c) } else { sub_script(c) })
}

/// `cs` from `i` on with each `^x` / `_x` (or `^{...}` / `_{...}`) written in superscript
/// or subscript characters; a final `^` or `_` is dropped with what follows it. `None`
/// when a `^{` or `_{` ends the text.
pub open spec fn scripts_from(cs: Seq<char>, i: int) -> Option<Seq<char>>
    decreases cs.len() - i,
{
    if i < 0 || i >= cs.len() {
        Some(Seq::empty())
    } else if cs[i] == '^' || cs[i] == '_' {
        let sup = cs[i] == '^';
        let j = i + 1;
        if j >= cs.len() {
            Some(Seq::empty())
        } else if cs[j] == '{' {
            if j + 1 >= cs.len() {
                None
            } else {
                let k = group_end(cs, j + 1, 1);
                proof {
                    lemma_group_end(cs, j + 1, 1);
                }
                match scripts_from(cs, k) {
                    Some(t) => Some(script_chars(cs.subrange(j + 1, k - 1), sup) + t),
                    None => None,
                }
            }
        } else {
            match scripts_from(cs, j + 1) {
                Some(t) => Some(seq![if sup { super_script(cs[j]) } else { sub_script(cs[j]) }] + t),
                None => None,
            }
        }
    } else {
        match scripts_from(cs, i + 1) {
            Some(t) => Some(seq![cs[i]] + t),
            None => None,
        }
    }
}

/// The text after a prefix `s` is read: the words so far, single spaces between them, and
/// whether a space is owed before the next word.
pub open spec fn ws_state(s: Seq<char>) -> (Seq<char>, bool)
    decreases s.len(),
{
    if s.len() == 0 {
        (Seq::empty(), false)
    } else {
        let (o, p) = ws_state(s.drop_last());
        let c = s.last();
        if is_space(c) {
            (o, o.len() > 0)
        } else if p {
            (o.push(' ').push(c), false)
        } else {
            (o.push(c), false)
        }
    }
}

/// The words of `s` joined by single spaces (`split_whitespace` then `join(" ")`).
pub open spec fn collapse_ws(s: Seq<char>) -> Seq<char> {
    ws_state(s).0
}

/// A line of math as text: the rewrites of [`math_rules`], fractions, scripts, then
/// braces dropped and whitespace collapsed. `None` when the original text cannot be read
/// (a `^{` or `_{` left open at the end).
pub open spec fn simplified(line: Seq<char>) -> Option<Seq<char>>
    decreases line.len(), 1int,
{
    let s1 = apply_rules(line, math_rules());
    proof {
        lemma_math_rules_shrink();
        lemma_apply_rules_len(line, math_rules());
    }
    match frac_from(s1) {
        Some(s2) => match scripts_from(s2, 0) {
            Some(s3) => Some(
                collapse_ws(replace_all(replace_all(s3, seq!['{'], Seq::empty()), seq!['}'], Seq::empty())),
            ),
            None => None,
        },
        None => None,
    }
}

} // verus!

verus! {

fn math_rules_vec() -> (v: Vec<(Vec<char>, Vec<char>)>)
    ensures
        rules_view(v@) == math_rules(),
{
    let mut v: Vec<(Vec<char>, Vec<char>)> = Vec::new();
    let ghost t = math_rules();
    let p = vec!['\\', 'd', 'i', 's', 'p', 'l', 'a', 'y', 's', 't', 'y', 'l', 'e'];
    let r: Vec<char> = Vec::new();
    assert(p@ =~= seq!['\\', 'd', 'i', 's', 'p', 'l', 'a', 'y', 's', 't', 'y', 'l', 'e'] && r@ =~= Seq::<char>::empty());
    assert(t[0] == (p@, r@));
    v.push((p, r));
    assert(rules_view(v@) =~= t.take(1));
    let p = vec!['\\', 'l', 'e', 'f', 't'];
    let r: Vec<char> = Vec::new();
    assert(p@ =~= seq!['\\', 'l', 'e', 'f', 't'] && r@ =~= Seq::<char>::empty());
    assert(t[1] == (p@, r@));
    v.push((p, r));
    assert(rules_view(v@) =~= t.take(2));
    let p = vec!['\\', 'r', 'i', 'g', 'h', 't'];
    let r: Vec<char> = Vec::new();
    assert(p@ =~= seq!['\\', 'r', 'i', 'g', 'h', 't'] && r@ =~= Seq::<char>::empty());
    assert(t[2] == (p@, r@));
    v.push((p, r));
    assert(rules_view(v@) =~= t.take(3));
    let p = vec!['\\', 'l', 'V', 'e', 'r', 't'];
    let r: Vec<char> = vec!['‖'];
    assert(p@ =~= seq!['\\', 'l', 'V', 'e', 'r', 't'] && r@ =~= seq!['‖']);
    assert(t[3] == (p@, r@));
    v.push((p, r));
    assert(rules_view(v@) =~= t.take(4));
    let p = vec!['\\', 'r', 'V', 'e', 'r', 't'];
    let r: Vec<char> = vec!['‖'];
    assert(p@ =~= seq!['\\', 'r', 'V', 'e', 'r', 't'] && r@ =~= seq!['‖']);
    assert(t[4] == (p@, r@));
    v.push((p, r));
    assert(rules_view(v@) =~= t.take(5));
    let p = vec!['\\', 'l', 'v', 'e', 'r', 't'];
    let r: Vec<char> = vec!['|'];
    assert(p@ =~= seq!['\\', 'l', 'v', 'e', 'r', 't'] && r@ =~= seq!['|']);
    assert(t[5] == (p@, r@));
    v.push((p, r));
    assert(rules_view(v@) =~= t.take(6));
    let p = vec!['\\', 'r', 'v', 'e', 'r', 't'];
    let r: Vec<char> = vec!['|'];
    assert(p@ =~= seq!['\\', 'r', 'v', 'e', 'r', 't'] && r@ =~= seq!['|']);
    assert(t[6] == (p@, r@));
    v.push((p, r));
    assert(rules_view(v@) =~= t.take(7));
    let p = vec!['\\', '|'];
    let r: Vec<char> = vec!['‖'];
    assert(p@ =~= seq!['\\', '|'] && r@ =~= seq!['‖']);
    assert(t[7] == (p@, r@));
    v.push((p, r));
    assert(rules_view(v@) =~= t.take(8));
    let p = vec!['\\', 'v', 'e', 'r', 't'];
    let r: Vec<char> = vec!['|'];
    assert(p@ =~= seq!['\\', 'v', 'e', 'r', 't'] && r@ =~= seq!['|']);
    assert(t[8] == (p@, r@));
    v.push((p, r));
    assert(rules_view(v@) =~= t.take(9));
    let p = vec!['\\', 'c', 'd', 'o', 't'];
    let r: Vec<char> = vec!['·'];
    assert(p@ =~= seq!['\\', 'c', 'd', 'o', 't'] && r@ =~= seq!['·']);
    assert(t[9] == (p@, r@));
    v.push((p, r));
    assert(rules_view(v@) =~= t.take(10));
    let p = vec!['\\', 't', 'i', 'm', 'e', 's'];
    let r: Vec<char> = vec!['×'];
    assert(p@ =~= seq!['\\', 't', 'i', 'm', 'e', 's'] && r@ =~= seq!['×']);
    assert(t[10] == (p@, r@));
    v.push((p, r));
    assert(rules_view(v@) =~= t.take(11));
    let p = vec!['\\', 's', 'u', 'm'];
    let r: Vec<char> = vec!['∑'];
    assert(p@ =~= seq!['\\', 's', 'u', 'm'] && r@ =~= seq!['∑']);
    assert(t[11] == (p@, r@));
    v.push((p, r));
    assert(rules_view(v@) =~= t.take(12));
    let p = vec!['\\', 'i', 'n', 't'];
    let r: Vec<char> = vec!['∫'];
    assert(p@ =~= seq!['\\', 'i', 'n', 't'] && r@ =~= seq!['∫']);
    assert(t[12] == (p@, r@));
    v.push((p, r));
    assert(rules_view(v@) =~= t.take(13));
    let p = vec!['\\', 's', 'q', 'r', 't'];
    let r: Vec<char> = vec!['√'];
    assert(p@ =~= seq!['\\', 's', 'q', 'r', 't'] && r@ =~= seq!['√']);
    assert(t[13] == (p@, r@));
    v.push((p, r));
    assert(rules_view(v@) =~= t.take(14));
    let p = vec!['\\', 'i', 'n', 'f', 't', 'y'];
    let r: Vec<char> = vec!['∞'];
    assert(p@ =~= seq!['\\', 'i', 'n', 'f', 't', 'y'] && r@ =~= seq!['∞']);
    assert(t[14] == (p@, r@));
    v.push((p, r));
    assert(rules_view(v@) =~= t.take(15));
    let p = vec!['\\', 'n', 'a', 'b', 'l', 'a'];
    let r: Vec<char> = vec!['∇'];
    assert(p@ =~= seq!['\\', 'n', 'a', 'b', 'l', 'a'] && r@ =~= seq!['∇']);
    assert(t[15] == (p@, r@));
    v.push((p, r));
    assert(rules_view(v@) =~= t.take(16));
    let p = vec!['\\', 'p', 'i'];
    let r: Vec<char> = vec!['π'];
    assert(p@ =~= seq!['\\', 'p', 'i'] && r@ =~= seq!['π']);
    assert(t[16] == (p@, r@));
    v.push((p, r));
    assert(rules_view(v@) =~= t.take(17));
    let p = vec!['\\', 'a', 'l', 'p', 'h', 'a'];
    let r: Vec<char> = vec!['α'];
    assert(p@ =~= seq!['\\', 'a', 'l', 'p', 'h', 'a'] && r@ =~= seq!['α']);
    assert(t[17] == (p@, r@));
    v.push((p, r));
    assert(rules_view(v@) =~= t.take(18));
    let p = vec!['\\', 'b', 'e', 't', 'a'];
    let r: Vec<char> = vec!['β'];
    assert(p@ =~= seq!['\\', 'b', 'e', 't', 'a'] && r@ =~= seq!['β']);
    assert(t[18] == (p@, r@));
    v.push((p, r));
    assert(rules_view(v@) =~= t.take(19));
    let p = vec!['\\', 'g', 'a', 'm', 'm', 'a'];
    let r: Vec<char> = vec!['γ'];
    assert(p@ =~= seq!['\\', 'g', 'a', 'm', 'm', 'a'] && r@ =~= seq!['γ']);
    assert(t[19] == (p@, r@));
    v.push((p, r));
    assert(rules_view(v@) =~= t.take(20));
    let p = vec!['\\', 'r', 'h', 'o'];
    let r: Vec<char> = vec!['ρ'];
    assert(p@ =~= seq!['\\', 'r', 'h', 'o'] && r@ =~= seq!['ρ']);
    assert(t[20] == (p@, r@));
    v.push((p, r));
    assert(rules_view(v@) =~= t.take(21));
    let p = vec!['\\', 'v', 'a', 'r', 'e', 'p', 's', 'i', 'l', 'o', 'n'];
    let r: Vec<char> = vec!['ε'];
    assert(p@ =~= seq!['\\', 'v', 'a', 'r', 'e', 'p', 's', 'i', 'l', 'o', 'n'] && r@ =~= seq!['ε']);
    assert(t[21] == (p@, r@));
    v.push((p, r));
    assert(rules_view(v@) =~= t.take(22));
    let p = vec!['\\', 'l', 'e'];
    let r: Vec<char> = vec!['≤'];
    assert(p@ =~= seq!['\\', 'l', 'e'] && r@ =~= seq!['≤']);
    assert(t[22] == (p@, r@));
    v.push((p, r));
    assert(rules_view(v@) =~= t.take(23));
    let p = vec!['\\', 'g', 'e'];
    let r: Vec<char> = vec!['≥'];
    assert(p@ =~= seq!['\\', 'g', 'e'] && r@ =~= seq!['≥']);
    assert(t[23] == (p@, r@));
    v.push((p, r));
    assert(rules_view(v@) =~= t.take(24));
    let p = vec!['\\', 'n', 'e', 'q'];
    let r: Vec<char> = vec!['≠'];
    assert(p@ =~= seq!['\\', 'n', 'e', 'q'] && r@ =~= seq!['≠']);
    assert(t[24] == (p@, r@));
    v.push((p, r));
    assert(rules_view(v@) =~= t.take(25));
    let p = vec!['\\', 'm', 'i', 'd'];
    let r: Vec<char> = vec!['|'];
    assert(p@ =~= seq!['\\', 'm', 'i', 'd'] && r@ =~= seq!['|']);
    assert(t[25] == (p@, r@));
    v.push((p, r));
    assert(rules_view(v@) =~= t.take(26));
    let p = vec!['\\', 't', 'o'];
    let r: Vec<char> = vec!['→'];
    assert(p@ =~= seq!['\\', 't', 'o'] && r@ =~= seq!['→']);
    assert(t[26] == (p@, r@));
    v.push((p, r));
    assert(rules_view(v@) =~= t.take(27));
    let p = vec!['\\', 'm', 'a', 't', 'h', 'r', 'm'];
    let r: Vec<char> = Vec::new();
    assert(p@ =~= seq!['\\', 'm', 'a', 't', 'h', 'r', 'm'] && r@ =~= Seq::<char>::empty());
    assert(t[27] == (p@, r@));
    v.push((p, r));
    assert(rules_view(v@) =~= t.take(28));
    let p = vec!['\\', 'm', 'a', 't', 'h', 'b', 'f'];
    let r: Vec<char> = Vec::new();
    assert(p@ =~= seq!['\\', 'm', 'a', 't', 'h', 'b', 'f'] && r@ =~= Seq::<char>::empty());
    assert(t[28] == (p@, r@));
    v.push((p, r));
    assert(rules_view(v@) =~= t.take(29));
    let p = vec!['\\', 't', 'e', 'x', 't'];
    let r: Vec<char> = Vec::new();
    assert(p@ =~= seq!['\\', 't', 'e', 'x', 't'] && r@ =~= Seq::<char>::empty());
    assert(t[29] == (p@, r@));
    v.push((p, r));
    assert(rules_view(v@) =~= t.take(30));
    let p = vec!['\\', ','];
    let r: Vec<char> = vec![' '];
    assert(p@ =~= seq!['\\', ','] && r@ =~= seq![' ']);
    assert(t[30] == (p@, r@));
    v.push((p, r));
    assert(rules_view(v@) =~= t.take(31));
    let p = vec!['\\', 'q', 'u', 'a', 'd'];
    let r: Vec<char> = vec![' ', ' '];
    assert(p@ =~= seq!['\\', 'q', 'u', 'a', 'd'] && r@ =~= seq![' ', ' ']);
    assert(t[31] == (p@, r@));
    v.push((p, r));
    assert(rules_view(v@) =~= t.take(32));
    assert(t.take(32) =~= t);
    v
}

fn katex_rules_vec() -> (v: Vec<(Vec<char>, Vec<char>)>)
    ensures
        rules_view(v@) == katex_rules(),
{
    let mut v: Vec<(Vec<char>, Vec<char>)> = Vec::new();
    let ghost t = katex_rules();
    let p = vec!['\\', 'l', 'e', 'f', 't', '\\', 'l', 'V', 'e', 'r', 't'];
    let r: Vec<char> = vec!['‖'];
    assert(p@ =~= seq!['\\', 'l', 'e', 'f', 't', '\\', 'l', 'V', 'e', 'r', 't'] && r@ =~= seq!['‖']);
    assert(t[0] == (p@, r@));
    v.push((p, r));
    assert(rules_view(v@) =~= t.take(1));
    let p = vec!['\\', 'r', 'i', 'g', 'h', 't', '\\', 'r', 'V', 'e', 'r', 't'];
    let r: Vec<char> = vec!['‖'];
    assert(p@ =~= seq!['\\', 'r', 'i', 'g', 'h', 't', '\\', 'r', 'V', 'e', 'r', 't'] && r@ =~= seq!['‖']);
    assert(t[1] == (p@, r@));
    v.push((p, r));
    assert(rules_view(v@) =~= t.take(2));
    let p = vec!['\\', 'l', 'e', 'f', 't', '\\', '|'];
    let r: Vec<char> = vec!['‖'];
    assert(p@ =~= seq!['\\', 'l', 'e', 'f', 't', '\\', '|'] && r@ =~= seq!['‖']);
    assert(t[2] == (p@, r@));
    v.push((p, r));
    assert(rules_view(v@) =~= t.take(3));
    let p = vec!['\\', 'r', 'i', 'g', 'h', 't', '\\', '|'];
    let r: Vec<char> = vec!['‖'];
    assert(p@ =~= seq!['\\', 'r', 'i', 'g', 'h', 't', '\\', '|'] && r@ =~= seq!['‖']);
    assert(t[3] == (p@, r@));
    v.push((p, r));
    assert(rules_view(v@) =~= t.take(4));
    let p = vec!['\\', 'l', 'V', 'e', 'r', 't'];
    let r: Vec<char> = vec!['‖'];
    assert(p@ =~= seq!['\\', 'l', 'V', 'e', 'r', 't'] && r@ =~= seq!['‖']);
    assert(t[4] == (p@, r@));
    v.push((p, r));
    assert(rules_view(v@) =~= t.take(5));
    let p = vec!['\\', 'r', 'V', 'e', 'r', 't'];
    let r: Vec<char> = vec!['‖'];
    assert(p@ =~= seq!['\\', 'r', 'V', 'e', 'r', 't'] && r@ =~= seq!['‖']);
    assert(t[5] == (p@, r@));
    v.push((p, r));
    assert(rules_view(v@) =~= t.take(6));
    let p = vec!['\\', 'V', 'e', 'r', 't'];
    let r: Vec<char> = vec!['‖'];
    assert(p@ =~= seq!['\\', 'V', 'e', 'r', 't'] && r@ =~= seq!['‖']);
    assert(t[6] == (p@, r@));
    v.push((p, r));
    assert(rules_view(v@) =~= t.take(7));
    let p = vec!['\\', 'l', 'v', 'e', 'r', 't'];
    let r: Vec<char> = vec!['|'];
    assert(p@ =~= seq!['\\', 'l', 'v', 'e', 'r', 't'] && r@ =~= seq!['|']);
    assert(t[7] == (p@, r@));
    v.push((p, r));
    assert(rules_view(v@) =~= t.take(8));
    let p = vec!['\\', 'r', 'v', 'e', 'r', 't'];
    let r: Vec<char> = vec!['|'];
    assert(p@ =~= seq!['\\', 'r', 'v', 'e', 'r', 't'] && r@ =~= seq!['|']);
    assert(t[8] == (p@, r@));
    v.push((p, r));
    assert(rules_view(v@) =~= t.take(9));
    let p = vec!['\\', 'v', 'e', 'r', 't'];
    let r: Vec<char> = vec!['|'];
    assert(p@ =~= seq!['\\', 'v', 'e', 'r', 't'] && r@ =~= seq!['|']);
    assert(t[9] == (p@, r@));
    v.push((p, r));
    assert(rules_view(v@) =~= t.take(10));
    let p = vec!['\\', '|'];
    let r: Vec<char> = vec!['‖'];
    assert(p@ =~= seq!['\\', '|'] && r@ =~= seq!['‖']);
    assert(t[10] == (p@, r@));
    v.push((p, r));
    assert(rules_view(v@) =~= t.take(11));
    assert(t.take(11) =~= t);
    v
}

/// `s` with each rule applied in turn (see [`apply_rules`]).
pub fn apply_rules_vec(s: &Vec<char>, rules: &Vec<(Vec<char>, Vec<char>)>) -> (r: Vec<char>)
    ensures
        r@ == apply_rules(s@, rules_view(rules@)),
{
    let ghost rv = rules_view(rules@);
    let mut cur = crate::text::slice_vec(s, 0, s.len());
    assert(s@.subrange(0, s@.len() as int) =~= s@);
    let mut i: usize = 0;
    assert(rv.skip(0) =~= rv);
    while i < rules.len()
        invariant
            i <= rules.len(),
            rv == rules_view(rules@),
            apply_rules(cur@, rv.skip(i as int)) == apply_rules(s@, rv),
        decreases rules.len() - i,
    {
        let ghost rest = rv.skip(i as int);
        assert(rest[0] == (rules@[i as int].0@, rules@[i as int].1@));
        assert(rest.drop_first() =~= rv.skip(i + 1));
        cur = crate::text::replace_vec(&cur, &rules[i].0, &rules[i].1);
        i += 1;
    }
    assert(rv.skip(rules.len() as int) =~= Seq::<(Seq<char>, Seq<char>)>::empty());
    cur
}

/// The first `{ ... }` group of `s` and what follows it (see [`take_braced`]).
fn take_braced_exec(s: &Vec<char>) -> (r: Option<(Vec<char>, Vec<char>)>)
    ensures
        r matches Some((a, b)) ==> take_braced(s@) == Some((a@, b@)),
        r is None ==> take_braced(s@) is None,
{
    let mut depth: usize = 0;
    let mut start: Option<usize> = None;
    let mut i: usize = 0;
    while i < s.len()
        invariant
            i <= s.len(),
            depth <= i,
            depth > 0 <==> start is Some,
            start matches Some(x) ==> 0 < x <= i,
            brace_scan(s@, i as int, depth as nat, match start {
                Some(x) => Some(x as int),
                None => None,
            }) == brace_scan(s@, 0, 0, None),
        decreases s.len() - i,
    {
        let c = s[i];
        if c == '{' {
            depth += 1;
            if start.is_none() {
                start = Some(i + 1);
            }
        } else if c == '}' {
            if depth == 0 {
                return None;
            }
            if depth == 1 {
                proof {
                    lemma_brace_scan(s@, 0, 0, None);
                }
                match start {
                    Some(st) => {
                        return Some((crate::text::slice_vec(s, st, i), crate::text::slice_vec(s, i + 1, s.len())));
                    },
                    None => {
                        return None;
                    },
                }
            }
            depth -= 1;
        }
        i += 1;
    }
    None
}

fn frac_open_vec() -> (v: Vec<char>)
    ensures
        v@ == frac_open(),
{
    let v = vec!['\\', 'f', 'r', 'a', 'c', '{'];
    assert(v@ =~= frac_open());
    v
}

/// Fractions rewritten (see [`frac_from`]).
fn frac_exec(rest: &Vec<char>) -> (r: Option<Vec<char>>)
    ensures
        r matches Some(t) ==> frac_from(rest@) == Some(t@),
        r is None ==> frac_from(rest@) is None,
    decreases rest@.len(), 0int,
{
    proof {
        lemma_find_from(rest@, frac_open(), 0);
    }
    let pat = frac_open_vec();
    match crate::text::find_from_vec(rest, &pat, 0) {
        None => Some(crate::text::slice_vec(rest, 0, rest.len())),
        Some(pos) => {
            assert(rest@.subrange(0, rest@.len() as int) =~= rest@);
            assert(occurs_at(rest@, frac_open(), pos as int));
            let head = crate::text::slice_vec(rest, 0, pos);
            let after = crate::text::slice_vec(rest, pos + 5, rest.len());
            assert(head@ =~= rest@.take(pos as int));
            assert(after@ =~= rest@.skip(pos + 5));
            proof {
                lemma_take_braced(after@);
            }
            let mut parts: Option<(Vec<char>, Vec<char>, Vec<char>)> = None;
            if let Some((num, after_num)) = take_braced_exec(&after) {
                proof {
                    lemma_take_braced(after_num@);
                }
                if let Some((den, after_den)) = take_braced_exec(&after_num) {
                    parts = Some((num, den, after_den));
                }
            }
            match parts {
                Some((num, den, after_den)) => {
                    let a = simplify_exec(&num);
                    let b = simplify_exec(&den);
                    let t = frac_exec(&after_den);
                    match (a, b, t) {
                        (Some(a), Some(b), Some(t)) => {
                            let mut out = head;
                            out.push('(');
                            crate::text::extend_vec(&mut out, &a);
                            out.push(')');
                            out.push('/');
                            out.push('(');
                            crate::text::extend_vec(&mut out, &b);
                            out.push(')');
                            crate::text::extend_vec(&mut out, &t);
                            assert(out@ =~= rest@.take(pos as int) + seq!['('] + a@ + seq![')', '/', '('] + b@ + seq![')'] + t@);
                            Some(out)
                        },
                        _ => None,
                    }
                },
                None => {
                    match frac_exec(&after) {
                        Some(t) => {
                            let mut out = head;
                            crate::text::extend_vec(&mut out, &pat);
                            crate::text::extend_vec(&mut out, &t);
                            assert(out@ =~= rest@.take(pos as int) + frac_open() + t@);
                            Some(out)
                        },
                        None => None,
                    }
                },
            }
        },
    }
}

fn script_char_exec(c: char, sup: bool) -> (r: char)
    ensures
        r == (if sup { super_script(c) } else { sub_script(c) }),
{
    if sup {
        match c {
            '0' => '⁰', '1' => '¹', '2' => '²', '3' => '³', '4' => '⁴', '5' => '⁵', '6' => '⁶',
            '7' => '⁷', '8' => '⁸', '9' => '⁹', '+' => '⁺', '-' => '⁻', '=' => '⁼', '(' => '⁽',
            ')' => '⁾', 'n' => 'ⁿ', 'i' => 'ⁱ', _ => c,
        }
    } else {
        match c {
            '0' => '₀', '1' => '₁', '2' => '₂', '3' => '₃', '4' => '₄', '5' => '₅', '6' => '₆',
            '7' => '₇', '8' => '₈', '9' => '₉', '+' => '₊', '-' => '₋', '=' => '₌', '(' => '₍',
            ')' => '₎', 'a' => 'ₐ', 'e' => 'ₑ', 'h' => 'ₕ', 'i' => 'ᵢ', 'j' => 'ⱼ', 'k' => 'ₖ',
            'l' => 'ₗ', 'm' => 'ₘ', 'n' => 'ₙ', 'o' => 'ₒ', 'p' => 'ₚ', 'r' => 'ᵣ', 's' => 'ₛ',
            't' => 'ₜ', 'u' => 'ᵤ', 'v' => 'ᵥ', 'x' => 'ₓ', _ => c,
        }
    }
}

fn group_end_exec(cs: &Vec<char>, i0: usize) -> (k: usize)
    requires
        i0 >= 1,
    ensures
        k as int == group_end(cs@, i0 as int, 1),
{
    let mut depth: usize = 1;
    let mut i = i0;
    while i < cs.len() && depth > 0
        invariant
            1 <= i0 <= i,
            depth <= i - i0 + 1,
            group_end(cs@, i as int, depth as nat) == group_end(cs@, i0 as int, 1),
        decreases cs.len() - i,
    {
        if cs[i] == '{' {
            depth += 1;
        } else if cs[i] == '}' {
            depth -= 1;
        }
        i += 1;
    }
    i
}

/// Scripts written in Unicode (see [`scripts_from`]).
fn scripts_exec(cs: &Vec<char>) -> (r: Option<Vec<char>>)
    ensures
        r matches Some(t) ==> scripts_from(cs@, 0) == Some(t@),
        r is None ==> scripts_from(cs@, 0) is None,
{
    let mut out: Vec<char> = Vec::new();
    let mut i: usize = 0;
    while i < cs.len()
        invariant
            i <= cs.len(),
            scripts_from(cs@, 0) == match scripts_from(cs@, i as int) {
                Some(t) => Some(out@ + t),
                None => None,
            },
        decreases cs.len() - i,
    {
        let ghost before = out@;
        let ghost i0 = i as int;
        let c = cs[i];
        if c == '^' || c == '_' {
            let sup = c == '^';
            let j = i + 1;
            if j >= cs.len() {
                assert(out@ + Seq::<char>::empty() =~= out@);
                return Some(out);
            }
            if cs[j] == '{' {
                if j + 1 >= cs.len() {
                    return None;
                }
                let k = group_end_exec(cs, j + 1);
                proof {
                    lemma_group_end(cs@, j + 1, 1);
                }
                let mut k2: usize = j + 1;
                while k2 < k - 1
                    invariant
                        j + 1 <= k2 <= k - 1,
                        k <= cs.len(),
                        out@ == before + script_chars(cs@.subrange(j + 1, k2 as int), sup),
                    decreases k - 1 - k2,
                {
                    out.push(script_char_exec(cs[k2], sup));
                    assert(script_chars(cs@.subrange(j + 1, k2 + 1), sup) =~= script_chars(cs@.subrange(j + 1, k2 as int), sup).push(if sup { super_script(cs@[k2 as int]) } else { sub_script(cs@[k2 as int]) }));
                    k2 += 1;
                }
                assert(scripts_from(cs@, i0) == match scripts_from(cs@, k as int) {
                    Some(t) => Some(script_chars(cs@.subrange(j + 1, k - 1), sup) + t),
                    None => None,
                });
                proof {
                    if let Some(t) = scripts_from(cs@, k as int) {
                        assert(before + (script_chars(cs@.subrange(j + 1, k - 1), sup) + t) =~= out@ + t);
                    }
                }
                i = k;
            } else {
                let m = script_char_exec(cs[j], sup);
                out.push(m);
                proof {
                    if let Some(t) = scripts_from(cs@, j + 1) {
                        assert(before + (seq![m] + t) =~= out@ + t);
                    }
                }
                i = j + 1;
            }
        } else {
            out.push(c);
            proof {
                if let Some(t) = scripts_from(cs@, i0 + 1) {
                    assert(before + (seq![c] + t) =~= out@ + t);
                }
            }
            i += 1;
        }
    }
    assert(out@ + Seq::<char>::empty() =~= out@);
    Some(out)
}

/// Words joined by single spaces (see [`collapse_ws`]).
fn collapse_ws_exec(s: &Vec<char>) -> (r: Vec<char>)
    ensures
        r@ == collapse_ws(s@),
{
    let mut out: Vec<char> = Vec::new();
    let mut pending = false;
    let mut i: usize = 0;
    while i < s.len()
        invariant
            i <= s.len(),
            ws_state(s@.take(i as int)) == (out@, pending),
        decreases s.len() - i,
    {
        assert(s@.take(i + 1).drop_last() =~= s@.take(i as int));
        let c = s[i];
        if crate::text::is_space_char(c) {
            pending = out.len() > 0;
        } else {
            if pending {
                out.push(' ');
            }
            out.push(c);
            pending = false;
        }
        i += 1;
    }
    assert(s@.take(s.len() as int) =~= s@);
    out
}

/// A line of math as text (see [`simplified`]).
fn simplify_exec(line: &Vec<char>) -> (r: Option<Vec<char>>)
    ensures
        r matches Some(t) ==> simplified(line@) == Some(t@),
        r is None ==> simplified(line@) is None,
    decreases line@.len(), 1int,
{
    let rules = math_rules_vec();
    let s1 = apply_rules_vec(line, &rules);
    proof {
        lemma_math_rules_shrink();
        lemma_apply_rules_len(line@, math_rules());
    }
    let s2 = match frac_exec(&s1) {
        Some(t) => t,
        None => {
            return None;
        },
    };
    let s3 = match scripts_exec(&s2) {
        Some(t) => t,
        None => {
            return None;
        },
    };
    let open = vec!['{'];
    let close = vec!['}'];
    let empty: Vec<char> = Vec::new();
    assert(open@ =~= seq!['{'] && close@ =~= seq!['}'] && empty@ =~= Seq::<char>::empty());
    let s4 = crate::text::replace_vec(&s3, &open, &empty);
    let s5 = crate::text::replace_vec(&s4, &close, &empty);
    Some(collapse_ws_exec(&s5))
}

} // verus!

verus! {

/// `str::split` by a non-empty text: the pieces between the (non-overlapping, leftmost)
/// occurrences of `p`.
pub open spec fn split_str(s: Seq<char>, p: Seq<char>) -> Seq<Seq<char>>
    decreases s.len(),
{
    if p.len() == 0 {
        seq![s]
    } else {
        proof {
            lemma_find_from(s, p, 0);
        }
        match find(s, p) {
            Some(i) => seq![s.take(i)] + split_str(s.skip(i + p.len()), p),
            None => seq![s],
        }
    }
}

/// The pieces trimmed, blank ones dropped.
pub open spec fn trimmed_nonempty(parts: Seq<Seq<char>>) -> Seq<Seq<char>>
    decreases parts.len(),
{
    if parts.len() == 0 {
        Seq::empty()
    } else {
        let r = trimmed_nonempty(parts.drop_last());
        let t = trim(parts.last());
        if t.len() > 0 {
            r.push(t)
        } else {
            r
        }
    }
}

/// The rows of a matrix or case body: split at `\\`, trimmed, blank rows dropped.
pub open spec fn math_rows(body: Seq<char>) -> Seq<Seq<char>> {
    trimmed_nonempty(split_str(body, seq!['\\', '\\']))
}

/// The last position of `p` in `s` at or before `to`.
pub open spec fn rfind_from(s: Seq<char>, p: Seq<char>, to: int) -> Option<int>
    decreases to + 1,
{
    if to < 0 {
        None
    } else if occurs_at(s, p, to) {
        Some(to)
    } else {
        rfind_from(s, p, to - 1)
    }
}

/// `str::rfind`: the position of the last occurrence of `p` in `s`.
pub open spec fn rfind(s: Seq<char>, p: Seq<char>) -> Option<int> {
    rfind_from(s, p, s.len() - p.len())
}

/// Each piece simplified after trimming, empty results dropped; `None` when a piece
/// cannot be simplified.
pub open spec fn simplified_pieces(parts: Seq<Seq<char>>) -> Option<Seq<Seq<char>>>
    decreases parts.len(),
{
    if parts.len() == 0 {
        Some(Seq::empty())
    } else {
        match (simplified_pieces(parts.drop_last()), simplified(trim(parts.last()))) {
            (Some(r), Some(t)) => Some(
                if t.len() > 0 {
                    r.push(t)
                } else {
                    r
                },
            ),
            _ => None,
        }
    }
}

/// The line for the text before an environment: none when it is blank.
pub open spec fn prefix_lines(prefix: Seq<char>) -> Option<Seq<Seq<char>>> {
    if prefix.len() == 0 {
        Some(Seq::empty())
    } else {
        match simplified(prefix) {
            Some(l) => Some(seq![l]),
            None => None,
        }
    }
}

/// The cells of a matrix row, simplified, joined by two spaces.
pub open spec fn row_text(row: Seq<char>) -> Option<Seq<char>> {
    match simplified_pieces(split_str(row, seq!['&'])) {
        Some(cells) => Some(join(cells, seq![' ', ' '])),
        None => None,
    }
}

/// The lines of a matrix's rows from `idx` on: the first after `open`, the last followed
/// by `close`, the others indented.
pub open spec fn matrix_lines(rows: Seq<Seq<char>>, idx: int, open: Seq<char>, close: Seq<char>) -> Option<
    Seq<Seq<char>>,
>
    decreases rows.len() - idx,
{
    if idx < 0 || idx >= rows.len() {
        Some(Seq::empty())
    } else {
        match (row_text(rows[idx]), matrix_lines(rows, idx + 1, open, close)) {
            (Some(t), Some(rest)) => Some(
                seq![
                    if idx == 0 {
                        open + seq![' '] + t
                    } else if idx + 1 == rows.len() {
                        seq![' ', ' '] + t + seq![' '] + close
                    } else {
                        seq![' ', ' '] + t
                    },
                ] + rest,
            ),
            _ => None,
        }
    }
}

/// `\begin{name}`.
pub open spec fn begin_tag(name: Seq<char>) -> Seq<char> {
    seq!['\\', 'b', 'e', 'g', 'i', 'n', '{'] + name + seq!['}']
}

/// `\end{name}`.
pub open spec fn end_tag(name: Seq<char>) -> Seq<char> {
    seq!['\\', 'e', 'n', 'd', '{'] + name + seq!['}']
}

/// Where an environment sits in `expr`: the text before it and its body, both trimmed,
/// when `\begin{name}` comes before the last `\end{name}`.
pub open spec fn env_parts(expr: Seq<char>, name: Seq<char>) -> Option<(Seq<char>, Seq<char>)> {
    match (find(expr, begin_tag(name)), rfind(expr, end_tag(name))) {
        (Some(start), Some(finish)) => if finish <= start {
            None
        } else {
            Some(
                (
                    trim(expr.take(start)),
                    trim(expr.subrange(start + begin_tag(name).len(), finish)),
                ),
            )
        },
        _ => None,
    }
}

/// A matrix environment laid out as lines (`None` when there is none, or it has no rows;
/// `Some(None)` when a part cannot be simplified).
pub open spec fn matrix_env(expr: Seq<char>, name: Seq<char>, open: Seq<char>, close: Seq<char>) -> Option<
    Option<Seq<Seq<char>>>,
> {
    match env_parts(expr, name) {
        Some((prefix, body)) => {
            let rows = math_rows(body);
            if rows.len() == 0 {
                None
            } else {
                Some(
                    match (prefix_lines(prefix), matrix_lines(rows, 0, open, close)) {
                        (Some(a), Some(b)) => Some(a + b),
                        _ => None,
                    },
                )
            }
        },
        None => None,
    }
}

/// The case lines of `rows`: each simplified with `&` read as a space, indented.
pub open spec fn case_lines(rows: Seq<Seq<char>>) -> Option<Seq<Seq<char>>>
    decreases rows.len(),
{
    if rows.len() == 0 {
        Some(Seq::empty())
    } else {
        match (case_lines(rows.drop_last()), simplified(replace_all(rows.last(), seq!['&'], seq![' ']))) {
            (Some(r), Some(t)) => Some(r.push(seq![' ', ' '] + t)),
            _ => None,
        }
    }
}

/// A `cases` environment laid out as lines between `{` and `}` (`None` and `Some(None)` as
/// for [`matrix_env`]).
pub open spec fn cases_env(expr: Seq<char>) -> Option<Option<Seq<Seq<char>>>> {
    match env_parts(expr, seq!['c', 'a', 's', 'e', 's']) {
        Some((prefix, body)) => {
            let rows = math_rows(body);
            if rows.len() == 0 {
                None
            } else {
                Some(
                    match (prefix_lines(prefix), case_lines(rows)) {
                        (Some(a), Some(b)) => Some(a + seq![seq!['{']] + b + seq![seq!['}']]),
                        _ => None,
                    },
                )
            }
        },
        None => None,
    }
}

/// Display math written as lines of text: a `bmatrix` in brackets, a `pmatrix` in
/// parentheses, `cases` in braces, otherwise each non-blank line simplified (the whole
/// expression simplified when no line is left). A blank expression gives one empty line.
/// `None` when a part cannot be simplified.
pub open spec fn formatted_math(expr: Seq<char>) -> Option<Seq<Seq<char>>> {
    let t = trim(expr);
    if t.len() == 0 {
        Some(seq![Seq::empty()])
    } else {
        match matrix_env(t, seq!['b', 'm', 'a', 't', 'r', 'i', 'x'], seq!['['], seq![']']) {
            Some(r) => r,
            None => match matrix_env(t, seq!['p', 'm', 'a', 't', 'r', 'i', 'x'], seq!['('], seq![')']) {
                Some(r) => r,
                None => match cases_env(t) {
                    Some(r) => r,
                    None => match simplified_pieces(lines_of(t)) {
                        Some(ls) => if ls.len() > 0 {
                            Some(ls)
                        } else {
                            match simplified(t) {
                                Some(l) => Some(seq![l]),
                                None => None,
                            }
                        },
                        None => None,
                    },
                },
            },
        }
    }
}

/// Math for KaTeX: norm and absolute-value delimiters written as `‖` and `|`.
pub open spec fn katex_math(expr: Seq<char>) -> Seq<char> {
    apply_rules(expr, katex_rules())
}

} // verus!

verus! {

fn split_str_exec(s: &Vec<char>, p: &Vec<char>) -> (r: Vec<Vec<char>>)
    ensures
        crate::text::lines_view(r@) == split_str(s@, p@),
    decreases s@.len(),
{
    let mut r: Vec<Vec<char>> = Vec::new();
    if p.len() == 0 {
        r.push(crate::text::slice_vec(s, 0, s.len()));
        assert(s@.subrange(0, s@.len() as int) =~= s@);
        assert(crate::text::lines_view(r@) =~= seq![s@]);
        return r;
    }
    proof {
        lemma_find_from(s@, p@, 0);
    }
    match crate::text::find_from_vec(s, p, 0) {
        Some(i) => {
            assert(occurs_at(s@, p@, i as int));
            assert(i + p@.len() <= s@.len());
            let head = crate::text::slice_vec(s, 0, i);
            let plen = p.len();
            assert(i + plen <= s.len());
            let tail = crate::text::slice_vec(s, i + plen, s.len());
            assert(head@ =~= s@.take(i as int));
            assert(tail@ =~= s@.skip(i + p@.len()));
            let rest = split_str_exec(&tail, p);
            r.push(head);
            let mut k: usize = 0;
            while k < rest.len()
                invariant
                    k <= rest.len(),
                    crate::text::lines_view(r@) == seq![s@.take(i as int)] + crate::text::lines_view(rest@).take(k as int),
                decreases rest.len() - k,
            {
                let ghost before = crate::text::lines_view(r@);
                let piece = crate::text::slice_vec(&rest[k], 0, rest[k].len());
                assert(piece@ =~= rest@[k as int]@);
                r.push(piece);
                assert(crate::text::lines_view(r@) =~= before.push(rest@[k as int]@));
                assert(crate::text::lines_view(r@) =~= seq![s@.take(i as int)] + crate::text::lines_view(rest@).take(k + 1));
                k += 1;
            }
            assert(crate::text::lines_view(rest@).take(rest.len() as int) =~= crate::text::lines_view(rest@));
            r
        },
        None => {
            r.push(crate::text::slice_vec(s, 0, s.len()));
            assert(s@.subrange(0, s@.len() as int) =~= s@);
            assert(crate::text::lines_view(r@) =~= seq![s@]);
            r
        },
    }
}

fn trimmed_nonempty_exec(parts: &Vec<Vec<char>>) -> (r: Vec<Vec<char>>)
    ensures
        crate::text::lines_view(r@) == trimmed_nonempty(crate::text::lines_view(parts@)),
{
    let ghost pv = crate::text::lines_view(parts@);
    let mut r: Vec<Vec<char>> = Vec::new();
    let mut i: usize = 0;
    assert(crate::text::lines_view(r@) =~= trimmed_nonempty(pv.take(0)));
    while i < parts.len()
        invariant
            i <= parts.len(),
            pv == crate::text::lines_view(parts@),
            crate::text::lines_view(r@) == trimmed_nonempty(pv.take(i as int)),
        decreases parts.len() - i,
    {
        assert(pv.take(i + 1).drop_last() =~= pv.take(i as int));
        let t = crate::text::trim_vec(&parts[i]);
        if t.len() > 0 {
            let ghost before = crate::text::lines_view(r@);
            r.push(t);
            assert(crate::text::lines_view(r@) =~= before.push(r@.last()@));
        }
        i += 1;
    }
    assert(pv.take(parts.len() as int) =~= pv);
    r
}

/// The rows of a matrix or case body (see [`math_rows`]).
pub fn split_math_rows(body: &str) -> (r: Vec<String>)
    ensures
        crate::text::strings_view(r@) == math_rows(body@),
{
    let sep = vec!['\\', '\\'];
    assert(sep@ =~= seq!['\\', '\\']);
    let parts = split_str_exec(&crate::text::chars_of(body), &sep);
    let rows = trimmed_nonempty_exec(&parts);
    to_strings(&rows)
}

/// The lines as strings.
pub fn to_strings(v: &Vec<Vec<char>>) -> (r: Vec<String>)
    ensures
        crate::text::strings_view(r@) == crate::text::lines_view(v@),
{
    let mut r: Vec<String> = Vec::new();
    let mut i: usize = 0;
    while i < v.len()
        invariant
            i <= v.len(),
            crate::text::strings_view(r@) == crate::text::lines_view(v@).take(i as int),
        decreases v.len() - i,
    {
        let ghost before = crate::text::strings_view(r@);
        r.push(crate::text::string_of(&v[i]));
        assert(crate::text::strings_view(r@) =~= before.push(v@[i as int]@));
        assert(crate::text::lines_view(v@).take(i + 1) =~= crate::text::lines_view(v@).take(i as int).push(v@[i as int]@));
        i += 1;
    }
    assert(crate::text::lines_view(v@).take(v.len() as int) =~= crate::text::lines_view(v@));
    r
}

fn rfind_exec(s: &Vec<char>, p: &Vec<char>) -> (r: Option<usize>)
    ensures
        r matches Some(i) ==> rfind(s@, p@) == Some(i as int),
        r is None ==> rfind(s@, p@) is None,
{
    if p.len() > s.len() {
        return None;
    }
    let mut to: usize = s.len() - p.len();
    loop
        invariant
            to <= s.len() - p.len(),
            rfind(s@, p@) == rfind_from(s@, p@, to as int),
        decreases to,
    {
        if crate::text::occurs_at_exec(s, p, to) {
            return Some(to);
        }
        if to == 0 {
            assert(rfind_from(s@, p@, -1) is None);
            return None;
        }
        to -= 1;
    }
}

fn simplified_pieces_exec(parts: &Vec<Vec<char>>) -> (r: Option<Vec<Vec<char>>>)
    ensures
        r matches Some(v) ==> simplified_pieces(crate::text::lines_view(parts@)) == Some(crate::text::lines_view(v@)),
        r is None ==> simplified_pieces(crate::text::lines_view(parts@)) is None,
{
    let ghost pv = crate::text::lines_view(parts@);
    let mut r: Vec<Vec<char>> = Vec::new();
    let mut i: usize = 0;
    assert(pv.take(0) =~= Seq::<Seq<char>>::empty());
    assert(crate::text::lines_view(r@) =~= Seq::<Seq<char>>::empty());
    while i < parts.len()
        invariant
            i <= parts.len(),
            pv == crate::text::lines_view(parts@),
            simplified_pieces(pv.take(i as int)) == Some(crate::text::lines_view(r@)),
        decreases parts.len() - i,
    {
        assert(pv.take(i + 1).drop_last() =~= pv.take(i as int));
        let t = crate::text::trim_vec(&parts[i]);
        match simplify_exec(&t) {
            Some(l) => {
                if l.len() > 0 {
                    let ghost before = crate::text::lines_view(r@);
                    r.push(l);
                    assert(crate::text::lines_view(r@) =~= before.push(r@.last()@));
                }
            },
            None => {
                proof {
                    lemma_pieces_fail(pv, i as int);
                }
                return None;
            },
        }
        i += 1;
    }
    assert(pv.take(parts.len() as int) =~= pv);
    Some(r)
}

/// A piece that cannot be simplified makes every longer prefix fail.
pub proof fn lemma_pieces_fail(pv: Seq<Seq<char>>, i: int)
    requires
        0 <= i < pv.len(),
        simplified(trim(pv[i])) is None,
    ensures
        simplified_pieces(pv) is None,
    decreases pv.len(),
{
    if i < pv.len() - 1 {
        lemma_pieces_fail(pv.drop_last(), i);
    }
}

fn prefix_lines_exec(prefix: &Vec<char>) -> (r: Option<Vec<Vec<char>>>)
    ensures
        r matches Some(v) ==> prefix_lines(prefix@) == Some(crate::text::lines_view(v@)),
        r is None ==> prefix_lines(prefix@) is None,
{
    let mut r: Vec<Vec<char>> = Vec::new();
    if prefix.len() == 0 {
        assert(crate::text::lines_view(r@) =~= Seq::<Seq<char>>::empty());
        return Some(r);
    }
    match simplify_exec(prefix) {
        Some(l) => {
            r.push(l);
            assert(crate::text::lines_view(r@) =~= seq![r@[0]@]);
            Some(r)
        },
        None => None,
    }
}

fn row_text_exec(row: &Vec<char>) -> (r: Option<Vec<char>>)
    ensures
        r matches Some(t) ==> row_text(row@) == Some(t@),
        r is None ==> row_text(row@) is None,
{
    let amp = vec!['&'];
    assert(amp@ =~= seq!['&']);
    let cells = split_str_exec(row, &amp);
    match simplified_pieces_exec(&cells) {
        Some(c) => {
            let sep = vec![' ', ' '];
            assert(sep@ =~= seq![' ', ' ']);
            Some(crate::preprocess::join_exec(&c, &sep))
        },
        None => None,
    }
}

} // verus!

verus! {

/// An environment name without a backslash.
pub open spec fn plain_name(name: Seq<char>) -> bool {
    forall|k: int| 0 <= k < name.len() ==> name[k] != '\\'
}

/// The last `\end{name}` starts after the first `\begin{name}` but inside it: cutting out
/// the body between them is then impossible (the text handling panics there).
pub open spec fn env_tags_overlap(expr: Seq<char>, name: Seq<char>) -> bool {
    match (find(expr, begin_tag(name)), rfind(expr, end_tag(name))) {
        (Some(start), Some(finish)) => start < finish && finish < start + begin_tag(name).len(),
        _ => false,
    }
}

/// For a name without a backslash the tags never overlap.
pub proof fn lemma_plain_no_overlap(expr: Seq<char>, name: Seq<char>)
    requires
        plain_name(name),
    ensures
        !env_tags_overlap(expr, name),
{
    lemma_find_from(expr, begin_tag(name), 0);
    lemma_rfind(expr, end_tag(name), expr.len() - end_tag(name).len());
    match (find(expr, begin_tag(name)), rfind(expr, end_tag(name))) {
        (Some(start), Some(finish)) => {
            if start < finish {
                lemma_end_after_begin(expr, name, start, finish);
            }
        },
        _ => {},
    }
}

/// The last `\end{name}` after the first `\begin{name}` starts after the whole begin tag.
pub proof fn lemma_end_after_begin(e: Seq<char>, name: Seq<char>, start: int, finish: int)
    requires
        plain_name(name),
        occurs_at(e, begin_tag(name), start),
        occurs_at(e, end_tag(name), finish),
        start < finish,
    ensures
        start + begin_tag(name).len() <= finish,
{
    let b = begin_tag(name);
    let d = finish - start;
    if d < b.len() {
        assert(e.subrange(finish, finish + end_tag(name).len())[0] == e[finish]);
        assert(end_tag(name)[0] == '\\');
        assert(e.subrange(start, start + b.len())[d] == e[finish]);
        if d < 7 {
            assert(b[d] != '\\');
        } else if d < 7 + name.len() {
            assert(b[d] == name[d - 7]);
        } else {
            assert(b[d] == '}');
        }
    }
}

fn tag_vec(lead: &Vec<char>, name: &Vec<char>) -> (v: Vec<char>)
    ensures
        v@ == lead@ + name@ + seq!['}'],
{
    let mut v = crate::text::slice_vec(lead, 0, lead.len());
    crate::text::extend_vec(&mut v, name);
    v.push('}');
    assert(v@ =~= lead@ + name@ + seq!['}']);
    v
}

fn env_parts_exec(expr: &Vec<char>, name: &Vec<char>) -> (r: Option<(Vec<char>, Vec<char>)>)
    requires
        !env_tags_overlap(expr@, name@),
    ensures
        r matches Some((a, b)) ==> env_parts(expr@, name@) == Some((a@, b@)),
        r is None ==> env_parts(expr@, name@) is None,
{
    let bl = vec!['\\', 'b', 'e', 'g', 'i', 'n', '{'];
    let el = vec!['\\', 'e', 'n', 'd', '{'];
    let begin = tag_vec(&bl, name);
    let end = tag_vec(&el, name);
    assert(begin@ =~= begin_tag(name@));
    assert(end@ =~= end_tag(name@));
    proof {
        lemma_find_from(expr@, begin@, 0);
    }
    let start = match crate::text::find_from_vec(expr, &begin, 0) {
        Some(i) => i,
        None => {
            return None;
        },
    };
    let finish = match rfind_exec(expr, &end) {
        Some(i) => i,
        None => {
            return None;
        },
    };
    proof {
        lemma_rfind(expr@, end@, expr@.len() - end@.len());
    }
    if finish <= start {
        return None;
    }
    assert(start + begin@.len() <= finish);
    let before = crate::text::slice_vec(expr, 0, start);
    let body = crate::text::slice_vec(expr, start + begin.len(), finish);
    assert(before@ =~= expr@.take(start as int));
    Some((crate::text::trim_vec(&before), crate::text::trim_vec(&body)))
}

pub proof fn lemma_rfind(s: Seq<char>, p: Seq<char>, to: int)
    ensures
        rfind_from(s, p, to) matches Some(i) ==> 0 <= i <= to && occurs_at(s, p, i),
    decreases to + 1,
{
    if to >= 0 && !occurs_at(s, p, to) {
        lemma_rfind(s, p, to - 1);
    }
}

fn matrix_lines_exec(rows: &Vec<Vec<char>>, open: char, close: char) -> (r: Option<Vec<Vec<char>>>)
    ensures
        r matches Some(v) ==> matrix_lines(crate::text::lines_view(rows@), 0, seq![open], seq![close]) == Some(crate::text::lines_view(v@)),
        r is None ==> matrix_lines(crate::text::lines_view(rows@), 0, seq![open], seq![close]) is None,
{
    let ghost rv = crate::text::lines_view(rows@);
    let mut out: Vec<Vec<char>> = Vec::new();
    let mut i: usize = 0;
    assert(crate::text::lines_view(out@) =~= Seq::<Seq<char>>::empty());
    while i < rows.len()
        invariant
            i <= rows.len(),
            rv == crate::text::lines_view(rows@),
            matrix_lines(rv, 0, seq![open], seq![close]) == match matrix_lines(rv, i as int, seq![open], seq![close]) {
                Some(rest) => Some(crate::text::lines_view(out@) + rest),
                None => None,
            },
        decreases rows.len() - i,
    {
        let ghost before = crate::text::lines_view(out@);
        match row_text_exec(&rows[i]) {
            Some(t) => {
                let mut line: Vec<char> = Vec::new();
                if i == 0 {
                    line.push(open);
                    line.push(' ');
                    crate::text::extend_vec(&mut line, &t);
                    assert(line@ =~= seq![open] + seq![' '] + t@);
                } else if i + 1 == rows.len() {
                    line.push(' ');
                    line.push(' ');
                    crate::text::extend_vec(&mut line, &t);
                    line.push(' ');
                    line.push(close);
                    assert(line@ =~= seq![' ', ' '] + t@ + seq![' '] + seq![close]);
                } else {
                    line.push(' ');
                    line.push(' ');
                    crate::text::extend_vec(&mut line, &t);
                    assert(line@ =~= seq![' ', ' '] + t@);
                }
                let ghost l = line@;
                out.push(line);
                assert(crate::text::lines_view(out@) =~= before.push(l));
                proof {
                    if let Some(rest) = matrix_lines(rv, i + 1, seq![open], seq![close]) {
                        assert(before + (seq![l] + rest) =~= before.push(l) + rest);
                    }
                }
            },
            None => {
                return None;
            },
        }
        i += 1;
    }
    assert(crate::text::lines_view(out@) + Seq::<Seq<char>>::empty() =~= crate::text::lines_view(out@));
    Some(out)
}

fn append_lines(out: &mut Vec<Vec<char>>, src: Vec<Vec<char>>)
    ensures
        crate::text::lines_view(final(out)@) == crate::text::lines_view(old(out)@) + crate::text::lines_view(src@),
{
    let mut i: usize = 0;
    while i < src.len()
        invariant
            i <= src.len(),
            crate::text::lines_view(out@) == crate::text::lines_view(old(out)@) + crate::text::lines_view(src@).take(i as int),
        decreases src.len() - i,
    {
        let ghost before = crate::text::lines_view(out@);
        let piece = crate::text::slice_vec(&src[i], 0, src[i].len());
        assert(piece@ =~= src@[i as int]@);
        out.push(piece);
        assert(crate::text::lines_view(out@) =~= before.push(src@[i as int]@));
        assert(crate::text::lines_view(src@).take(i + 1) =~= crate::text::lines_view(src@).take(i as int).push(src@[i as int]@));
        i += 1;
    }
    assert(crate::text::lines_view(src@).take(src.len() as int) =~= crate::text::lines_view(src@));
}

fn matrix_env_exec(expr: &Vec<char>, name: &Vec<char>, open: char, close: char) -> (r: Option<Option<Vec<Vec<char>>>>)
    requires
        !env_tags_overlap(expr@, name@),
    ensures
        r matches Some(Some(v)) ==> matrix_env(expr@, name@, seq![open], seq![close]) == Some(Some(crate::text::lines_view(v@))),
        r matches Some(None) ==> matrix_env(expr@, name@, seq![open], seq![close]) == Some(None::<Seq<Seq<char>>>),
        r is None ==> matrix_env(expr@, name@, seq![open], seq![close]) is None,
{
    let (prefix, body) = match env_parts_exec(expr, name) {
        Some(p) => p,
        None => {
            return None;
        },
    };
    let sep = vec!['\\', '\\'];
    assert(sep@ =~= seq!['\\', '\\']);
    let rows = trimmed_nonempty_exec(&split_str_exec(&body, &sep));
    if rows.len() == 0 {
        return None;
    }
    let a = prefix_lines_exec(&prefix);
    let b = matrix_lines_exec(&rows, open, close);
    match (a, b) {
        (Some(mut a), Some(b)) => {
            append_lines(&mut a, b);
            Some(Some(a))
        },
        _ => Some(None),
    }
}

fn case_lines_exec(rows: &Vec<Vec<char>>) -> (r: Option<Vec<Vec<char>>>)
    ensures
        r matches Some(v) ==> case_lines(crate::text::lines_view(rows@)) == Some(crate::text::lines_view(v@)),
        r is None ==> case_lines(crate::text::lines_view(rows@)) is None,
{
    let ghost rv = crate::text::lines_view(rows@);
    let mut out: Vec<Vec<char>> = Vec::new();
    let mut i: usize = 0;
    assert(rv.take(0) =~= Seq::<Seq<char>>::empty());
    assert(crate::text::lines_view(out@) =~= Seq::<Seq<char>>::empty());
    let amp = vec!['&'];
    let sp = vec![' '];
    assert(amp@ =~= seq!['&'] && sp@ =~= seq![' ']);
    while i < rows.len()
        invariant
            i <= rows.len(),
            rv == crate::text::lines_view(rows@),
            amp@ == seq!['&'],
            sp@ == seq![' '],
            case_lines(rv.take(i as int)) == Some(crate::text::lines_view(out@)),
        decreases rows.len() - i,
    {
        assert(rv.take(i + 1).drop_last() =~= rv.take(i as int));
        let replaced = crate::text::replace_vec(&rows[i], &amp, &sp);
        match simplify_exec(&replaced) {
            Some(t) => {
                let ghost before = crate::text::lines_view(out@);
                let mut line = vec![' ', ' '];
                crate::text::extend_vec(&mut line, &t);
                assert(line@ =~= seq![' ', ' '] + t@);
                let ghost l = line@;
                out.push(line);
                assert(crate::text::lines_view(out@) =~= before.push(l));
            },
            None => {
                proof {
                    lemma_case_lines_fail(rv, i as int);
                }
                return None;
            },
        }
        i += 1;
    }
    assert(rv.take(rows.len() as int) =~= rv);
    Some(out)
}

pub proof fn lemma_case_lines_fail(rv: Seq<Seq<char>>, i: int)
    requires
        0 <= i < rv.len(),
        simplified(replace_all(rv[i], seq!['&'], seq![' '])) is None,
    ensures
        case_lines(rv) is None,
    decreases rv.len(),
{
    if i < rv.len() - 1 {
        lemma_case_lines_fail(rv.drop_last(), i);
    }
}

fn cases_env_exec(expr: &Vec<char>) -> (r: Option<Option<Vec<Vec<char>>>>)
    ensures
        r matches Some(Some(v)) ==> cases_env(expr@) == Some(Some(crate::text::lines_view(v@))),
        r matches Some(None) ==> cases_env(expr@) == Some(None::<Seq<Seq<char>>>),
        r is None ==> cases_env(expr@) is None,
{
    let name = vec!['c', 'a', 's', 'e', 's'];
    assert(name@ =~= seq!['c', 'a', 's', 'e', 's']);
    proof {
        lemma_plain_no_overlap(expr@, name@);
    }
    let (prefix, body) = match env_parts_exec(expr, &name) {
        Some(p) => p,
        None => {
            return None;
        },
    };
    let sep = vec!['\\', '\\'];
    assert(sep@ =~= seq!['\\', '\\']);
    let rows = trimmed_nonempty_exec(&split_str_exec(&body, &sep));
    if rows.len() == 0 {
        return None;
    }
    let a = prefix_lines_exec(&prefix);
    let b = case_lines_exec(&rows);
    match (a, b) {
        (Some(mut a), Some(b)) => {
            let ghost av = crate::text::lines_view(a@);
            let ghost bv = crate::text::lines_view(b@);
            let lb = vec!['{'];
            let rb = vec!['}'];
            assert(lb@ =~= seq!['{'] && rb@ =~= seq!['}']);
            a.push(lb);
            assert(crate::text::lines_view(a@) =~= av + seq![seq!['{']]);
            append_lines(&mut a, b);
            let ghost a2 = crate::text::lines_view(a@);
            a.push(rb);
            assert(crate::text::lines_view(a@) =~= a2.push(seq!['}']));
            assert(crate::text::lines_view(a@) =~= av + seq![seq!['{']] + bv + seq![seq!['}']]);
            Some(Some(a))
        },
        _ => Some(None),
    }
}

} // verus!

verus! {

/// Display math as lines of text (see [`formatted_math`]); `None` exactly where
/// [`formatted_math`] is.
pub fn try_format_math_expression(expr: &str) -> (r: Option<Vec<String>>)
    ensures
        r matches Some(v) ==> formatted_math(expr@) == Some(crate::text::strings_view(v@)),
        r is None ==> formatted_math(expr@) is None,
{
    let t = crate::text::trim_vec(&crate::text::chars_of(expr));
    if t.len() == 0 {
        let mut r: Vec<String> = Vec::new();
        r.push(String::new());
        assert(crate::text::strings_view(r@) =~= seq![Seq::<char>::empty()]);
        return Some(r);
    }
    let bm = vec!['b', 'm', 'a', 't', 'r', 'i', 'x'];
    let pm = vec!['p', 'm', 'a', 't', 'r', 'i', 'x'];
    assert(bm@ =~= seq!['b', 'm', 'a', 't', 'r', 'i', 'x']);
    assert(pm@ =~= seq!['p', 'm', 'a', 't', 'r', 'i', 'x']);
    proof {
        lemma_plain_no_overlap(t@, bm@);
        lemma_plain_no_overlap(t@, pm@);
    }
    let lines = match matrix_env_exec(&t, &bm, '[', ']') {
        Some(r) => r,
        None => match matrix_env_exec(&t, &pm, '(', ')') {
            Some(r) => r,
            None => match cases_env_exec(&t) {
                Some(r) => r,
                None => {
                    let ls = crate::preprocess::lines_exec(&t);
                    match simplified_pieces_exec(&ls) {
                        Some(v) => {
                            if v.len() > 0 {
                                Some(v)
                            } else {
                                match simplify_exec(&t) {
                                    Some(l) => {
                                        let mut one: Vec<Vec<char>> = Vec::new();
                                        one.push(l);
                                        assert(crate::text::lines_view(one@) =~= seq![one@[0]@]);
                                        Some(one)
                                    },
                                    None => None,
                                }
                            }
                        },
                        None => None,
                    }
                },
            },
        },
    };
    match lines {
        Some(v) => Some(to_strings(&v)),
        None => None,
    }
}

/// Display math as lines of text (see [`formatted_math`]), for expressions that can be
/// read.
pub fn format_math_expression(expr: &str) -> (r: Vec<String>)
    requires
        formatted_math(expr@) is Some,
    ensures
        formatted_math(expr@) == Some(crate::text::strings_view(r@)),
{
    match try_format_math_expression(expr) {
        Some(v) => v,
        None => Vec::new(),
    }
}

fn name_vec(name: &str) -> (v: Vec<char>)
    ensures
        v@ == name@,
{
    crate::text::chars_of(name)
}

/// A matrix environment `name` of `expr` laid out as lines between `open` and `close`
/// (see [`matrix_env`]).
pub fn format_math_environment(expr: &str, env_name: &str, open: char, close: char) -> (r: Option<Vec<String>>)
    requires
        !env_tags_overlap(expr@, env_name@),
        !(matrix_env(expr@, env_name@, seq![open], seq![close]) matches Some(None)),
    ensures
        r matches Some(v) ==> matrix_env(expr@, env_name@, seq![open], seq![close]) == Some(Some(crate::text::strings_view(v@))),
        r is None ==> matrix_env(expr@, env_name@, seq![open], seq![close]) is None,
{
    let e = crate::text::chars_of(expr);
    let n = name_vec(env_name);
    match matrix_env_exec(&e, &n, open, close) {
        Some(Some(v)) => Some(to_strings(&v)),
        _ => None,
    }
}

/// A `cases` environment of `expr` laid out as lines (see [`cases_env`]).
pub fn format_cases_environment(expr: &str) -> (r: Option<Vec<String>>)
    requires
        !(cases_env(expr@) matches Some(None)),
    ensures
        r matches Some(v) ==> cases_env(expr@) == Some(Some(crate::text::strings_view(v@))),
        r is None ==> cases_env(expr@) is None,
{
    match cases_env_exec(&crate::text::chars_of(expr)) {
        Some(Some(v)) => Some(to_strings(&v)),
        _ => None,
    }
}

/// A line of math as text (see [`simplified`]), for lines that can be read.
pub fn simplify_math_line(line: &str) -> (r: String)
    requires
        simplified(line@) is Some,
    ensures
        simplified(line@) == Some(r@),
{
    match simplify_exec(&crate::text::chars_of(line)) {
        Some(t) => crate::text::string_of(&t),
        None => String::new(),
    }
}

/// Fractions written `(num)/(den)` (see [`frac_from`]), for text whose parts can be read.
pub fn replace_frac_notation(input: &str) -> (r: String)
    requires
        frac_from(input@) is Some,
    ensures
        frac_from(input@) == Some(r@),
{
    match frac_exec(&crate::text::chars_of(input)) {
        Some(t) => crate::text::string_of(&t),
        None => String::new(),
    }
}

/// Math with its norm and absolute-value delimiters normalised for KaTeX (see
/// [`katex_math`]).
pub fn normalize_math_for_katex(expr: &str) -> (r: String)
    ensures
        r@ == katex_math(expr@),
{
    let rules = katex_rules_vec();
    crate::text::string_of(&apply_rules_vec(&crate::text::chars_of(expr), &rules))
}

} // verus!

verus! {

/// Whitespace appears only as single spaces between other characters.
pub open spec fn tidy_spacing(t: Seq<char>) -> bool {
    forall|i: int|
        0 <= i < t.len() && is_space(#[trigger] t[i]) ==> t[i] == ' ' && 0 < i && i + 1 < t.len()
            && !is_space(t[i - 1]) && !is_space(t[i + 1])
}

proof fn lemma_ws_state(s: Seq<char>)
    ensures
        tidy_spacing(ws_state(s).0),
        ws_state(s).0.len() > 0 ==> !is_space(ws_state(s).0.last()),
        ws_state(s).1 ==> ws_state(s).0.len() > 0,
        forall|i: int| 0 <= i < ws_state(s).0.len() && !is_space(#[trigger] ws_state(s).0[i]) ==> s.contains(ws_state(s).0[i]),
    decreases s.len(),
{
    if s.len() > 0 {
        lemma_ws_state(s.drop_last());
        let (o, p) = ws_state(s.drop_last());
        let c = s.last();
        assert(s[s.len() - 1] == c);
        assert forall|x: char| s.drop_last().contains(x) implies s.contains(x) by {
            let k = choose|k: int| 0 <= k < s.drop_last().len() && s.drop_last()[k] == x;
            assert(s[k] == x);
        }
        if is_space(c) {
        } else if p {
            let o2 = o.push(' ').push(c);
            assert forall|i: int| 0 <= i < o2.len() && is_space(#[trigger] o2[i]) implies o2[i] == ' ' && 0 < i && i + 1 < o2.len()
                && !is_space(o2[i - 1]) && !is_space(o2[i + 1]) by {
                if i < o.len() {
                    assert(o2[i] == o[i]);
                    assert(i != o.len() - 1);
                    assert(o2[i - 1] == o[i - 1]);
                    assert(o2[i + 1] == o[i + 1]);
                } else if i == o.len() {
                    assert(o2[i - 1] == o.last());
                    assert(o2[i + 1] == c);
                }
            }
            assert forall|i: int| 0 <= i < o2.len() && !is_space(#[trigger] o2[i]) implies s.contains(o2[i]) by {
                if i < o.len() {
                    assert(o2[i] == o[i]);
                    assert(s.drop_last().contains(o[i]));
                } else if i == o.len() + 1 {
                    assert(o2[i] == c);
                }
            }
        } else {
            let o2 = o.push(c);
            assert forall|i: int| 0 <= i < o2.len() && is_space(#[trigger] o2[i]) implies o2[i] == ' ' && 0 < i && i + 1 < o2.len()
                && !is_space(o2[i - 1]) && !is_space(o2[i + 1]) by {
                assert(o2[i] == o[i]);
                assert(i != o.len() - 1);
                assert(o2[i - 1] == o[i - 1]);
                assert(o2[i + 1] == o[i + 1]);
            }
            assert forall|i: int| 0 <= i < o2.len() && !is_space(#[trigger] o2[i]) implies s.contains(o2[i]) by {
                if i < o.len() {
                    assert(o2[i] == o[i]);
                    assert(s.drop_last().contains(o[i]));
                }
            }
        }
    }
}

/// A simplified line of math has no braces left, and its whitespace is single spaces
/// between other characters.
pub proof fn law_simplified_is_tidy(line: Seq<char>)
    ensures
        simplified(line) matches Some(t) ==> !t.contains('{') && !t.contains('}') && tidy_spacing(t),
{
    if let Some(t) = simplified(line) {
        let s1 = apply_rules(line, math_rules());
        let s2 = frac_from(s1).unwrap();
        let s3 = scripts_from(s2, 0).unwrap();
        let x1 = replace_all(s3, seq!['{'], Seq::empty());
        let x = replace_all(x1, seq!['}'], Seq::empty());
        assert(t == collapse_ws(x));
        assert(!Seq::<char>::empty().contains('{') && !Seq::<char>::empty().contains('}'));
        crate::text::lemma_replace_removes(s3, '{', Seq::empty());
        crate::text::lemma_replace_keeps_absent(x1, seq!['}'], Seq::empty(), '{');
        crate::text::lemma_replace_removes(x1, '}', Seq::empty());
        lemma_ws_state(x);
        assert forall|i: int| 0 <= i < t.len() implies t[i] != '{' && t[i] != '}' by {
            if !is_space(t[i]) {
                assert(x.contains(t[i]));
            }
        }
    }
}


/// An ASCII letter.
pub open spec fn ascii_letter(c: char) -> bool {
    ('a' <= c && c <= 'z') || ('A' <= c && c <= 'Z')
}

/// `s` holds no `ch`.
pub open spec fn lacks(s: Seq<char>, ch: char) -> bool {
    forall|i: int| 0 <= i < s.len() ==> #[trigger] s[i] != ch
}

/// Math text that the rewrites leave as it is: no backslash, brace, `^` or `_`.
pub open spec fn plain_math(s: Seq<char>) -> bool {
    lacks(s, '\\') && lacks(s, '{') && lacks(s, '}') && lacks(s, '^') && lacks(s, '_')
}

/// LaTeX commands and what each becomes when math is shown as text: a Unicode symbol,
/// spaces, or nothing (for commands that only style or size what follows).
pub open spec fn command_rewrites() -> Seq<(Seq<char>, Seq<char>)> {
    seq![
        (seq!['\\', 'd', 'i', 's', 'p', 'l', 'a', 'y', 's', 't', 'y', 'l', 'e'], Seq::<char>::empty()),
        (seq!['\\', 'l', 'e', 'f', 't'], Seq::<char>::empty()),
        (seq!['\\', 'r', 'i', 'g', 'h', 't'], Seq::<char>::empty()),
        (seq!['\\', 'l', 'V', 'e', 'r', 't'], seq!['‖']),
        (seq!['\\', 'r', 'V', 'e', 'r', 't'], seq!['‖']),
        (seq!['\\', 'l', 'v', 'e', 'r', 't'], seq!['|']),
        (seq!['\\', 'r', 'v', 'e', 'r', 't'], seq!['|']),
        (seq!['\\', '|'], seq!['‖']),
        (seq!['\\', 'v', 'e', 'r', 't'], seq!['|']),
        (seq!['\\', 'c', 'd', 'o', 't'], seq!['·']),
        (seq!['\\', 't', 'i', 'm', 'e', 's'], seq!['×']),
        (seq!['\\', 's', 'u', 'm'], seq!['∑']),
        (seq!['\\', 'i', 'n', 't'], seq!['∫']),
        (seq!['\\', 's', 'q', 'r', 't'], seq!['√']),
        (seq!['\\', 'i', 'n', 'f', 't', 'y'], seq!['∞']),
        (seq!['\\', 'n', 'a', 'b', 'l', 'a'], seq!['∇']),
        (seq!['\\', 'p', 'i'], seq!['π']),
        (seq!['\\', 'a', 'l', 'p', 'h', 'a'], seq!['α']),
        (seq!['\\', 'b', 'e', 't', 'a'], seq!['β']),
        (seq!['\\', 'g', 'a', 'm', 'm', 'a'], seq!['γ']),
        (seq!['\\', 'r', 'h', 'o'], seq!['ρ']),
        (seq!['\\', 'v', 'a', 'r', 'e', 'p', 's', 'i', 'l', 'o', 'n'], seq!['ε']),
        (seq!['\\', 'l', 'e'], seq!['≤']),
        (seq!['\\', 'g', 'e'], seq!['≥']),
        (seq!['\\', 'n', 'e', 'q'], seq!['≠']),
        (seq!['\\', 'm', 'i', 'd'], seq!['|']),
        (seq!['\\', 't', 'o'], seq!['→']),
        (seq!['\\', 'm', 'a', 't', 'h', 'r', 'm'], Seq::<char>::empty()),
        (seq!['\\', 'm', 'a', 't', 'h', 'b', 'f'], Seq::<char>::empty()),
        (seq!['\\', 't', 'e', 'x', 't'], Seq::<char>::empty()),
        (seq!['\\', ','], seq![' ']),
        (seq!['\\', 'q', 'u', 'a', 'd'], seq![' ', ' ']),
    ]
}

/// `p` from index `i` on is a prefix of `c` from `i` on.
spec fn prefix_from(p: Seq<char>, c: Seq<char>, i: nat) -> bool
    decreases p.len() - i,
{
    if i >= p.len() {
        true
    } else if i >= c.len() {
        false
    } else {
        p[i as int] == c[i as int] && prefix_from(p, c, i + 1)
    }
}

/// The first rule from `i` on whose pattern is a prefix of `c`, provided every rule before
/// it that is longer than `c` goes on with a letter where `c` ends.
spec fn first_rule(c: Seq<char>, rules: Seq<(Seq<char>, Seq<char>)>, i: nat) -> Option<nat>
    decreases rules.len() - i,
{
    if i >= rules.len() {
        None
    } else if prefix_from(rules[i as int].0, c, 0) {
        Some(i)
    } else if rules[i as int].0.len() > c.len() && !ascii_letter(rules[i as int].0[c.len() as int]) {
        None
    } else {
        first_rule(c, rules, i + 1)
    }
}

/// No backslash in `c` from index `i` on.
spec fn no_backslash_from(c: Seq<char>, i: nat) -> bool
    decreases c.len() - i,
{
    if i >= c.len() {
        true
    } else {
        c[i as int] != '\\' && no_backslash_from(c, i + 1)
    }
}

/// Every pattern from index `i` on starts with a backslash.
spec fn backslash_patterns(rules: Seq<(Seq<char>, Seq<char>)>, i: nat) -> bool
    decreases rules.len() - i,
{
    if i >= rules.len() {
        true
    } else {
        rules[i as int].0.len() > 0 && rules[i as int].0[0] == '\\' && backslash_patterns(rules, i + 1)
    }
}

/// No backslash, brace, `^` or `_` in `s` from index `i` on.
spec fn plain_from(s: Seq<char>, i: nat) -> bool
    decreases s.len() - i,
{
    if i >= s.len() {
        true
    } else {
        let ch = s[i as int];
        ch != '\\' && ch != '{' && ch != '}' && ch != '^' && ch != '_' && plain_from(s, i + 1)
    }
}

/// Entry `k` of [`command_rewrites`] is a rule of [`math_rules`] that no earlier rule hides.
spec fn rewrite_entry_ok(k: int) -> bool {
    let c = command_rewrites()[k].0;
    let t = command_rewrites()[k].1;
    &&& c.len() >= 2
    &&& c[0] == '\\'
    &&& no_backslash_from(c, 1)
    &&& plain_from(t, 0)
    &&& first_rule(c, math_rules(), 0) matches Some(j) && math_rules()[j as int] == (c, t)
}

spec fn rewrite_entries_ok(n: nat) -> bool
    decreases n,
{
    n == 0 || (rewrite_entries_ok((n - 1) as nat) && rewrite_entry_ok(n - 1))
}

#[verifier::rlimit(50)]
proof fn lemma_rewrite_table()
    ensures
        rewrite_entries_ok(command_rewrites().len()),
        backslash_patterns(math_rules(), 0),
{
    reveal_with_fuel(rewrite_entries_ok, 33);
    reveal_with_fuel(first_rule, 33);
    reveal_with_fuel(prefix_from, 14);
    reveal_with_fuel(no_backslash_from, 14);
    reveal_with_fuel(plain_from, 3);
    reveal_with_fuel(backslash_patterns, 33);
    assert(command_rewrites().len() == 32);
    assert(rewrite_entries_ok(32));
    assert(backslash_patterns(math_rules(), 0));
}

proof fn lemma_rewrite_entries(n: nat, k: int)
    requires
        rewrite_entries_ok(n),
        0 <= k < n,
    ensures
        rewrite_entry_ok(k),
    decreases n,
{
    if k < n - 1 {
        lemma_rewrite_entries((n - 1) as nat, k);
    }
}

proof fn lemma_plain_from(s: Seq<char>, i: nat)
    requires
        plain_from(s, i),
    ensures
        forall|m: int| i <= m < s.len() ==> {
            let ch = #[trigger] s[m];
            ch != '\\' && ch != '{' && ch != '}' && ch != '^' && ch != '_'
        },
    decreases s.len() - i,
{
    if i < s.len() {
        lemma_plain_from(s, i + 1);
    }
}

proof fn lemma_first_rule(c: Seq<char>, rules: Seq<(Seq<char>, Seq<char>)>, i: nat)
    ensures
        first_rule(c, rules, i) matches Some(j) ==> {
            &&& i <= j < rules.len()
            &&& forall|m: int|
                i <= m < j ==> !prefix_from(#[trigger] rules[m].0, c, 0) && (rules[m].0.len() > c.len()
                    ==> ascii_letter(rules[m].0[c.len() as int]))
        },
    decreases rules.len() - i,
{
    if i < rules.len() && !prefix_from(rules[i as int].0, c, 0) && !(rules[i as int].0.len() > c.len()
        && !ascii_letter(rules[i as int].0[c.len() as int])) {
        lemma_first_rule(c, rules, i + 1);
    }
}

proof fn lemma_backslash_patterns(rules: Seq<(Seq<char>, Seq<char>)>, i: nat)
    requires
        backslash_patterns(rules, i),
    ensures
        forall|m: int| i <= m < rules.len() ==> (#[trigger] rules[m]).0.len() > 0 && rules[m].0[0] == '\\',
    decreases rules.len() - i,
{
    if i < rules.len() {
        lemma_backslash_patterns(rules, i + 1);
    }
}

proof fn lemma_no_backslash_from(c: Seq<char>, i: nat)
    requires
        no_backslash_from(c, i),
    ensures
        forall|m: int| i <= m < c.len() ==> #[trigger] c[m] != '\\',
    decreases c.len() - i,
{
    if i < c.len() {
        lemma_no_backslash_from(c, i + 1);
    }
}

proof fn lemma_prefix_from(p: Seq<char>, c: Seq<char>, i: nat)
    requires
        p.len() <= c.len(),
        forall|m: int| i <= m < p.len() ==> #[trigger] p[m] == c[m],
    ensures
        prefix_from(p, c, i),
    decreases p.len() - i,
{
    if i < p.len() {
        lemma_prefix_from(p, c, i + 1);
    }
}

/// Replacing a pattern whose first character does not occur changes nothing.
proof fn lemma_replace_absent(s: Seq<char>, p: Seq<char>, r: Seq<char>)
    requires
        p.len() > 0,
        lacks(s, p[0]),
    ensures
        replace_all(s, p, r) == s,
    decreases s.len(),
{
    if s.len() > 0 {
        if starts_with(s, p) {
            assert(s.take(p.len() as int)[0] == s[0]);
        }
        let t = s.drop_first();
        assert forall|i: int| 0 <= i < t.len() implies #[trigger] t[i] != p[0] by {
            assert(t[i] == s[i + 1]);
        }
        lemma_replace_absent(t, p, r);
        assert(seq![s[0]] + t =~= s);
    }
}

/// A head that holds no first character of the pattern is kept as it is.
proof fn lemma_replace_after(x: Seq<char>, t: Seq<char>, p: Seq<char>, r: Seq<char>)
    requires
        p.len() > 0,
        lacks(x, p[0]),
    ensures
        replace_all(x + t, p, r) == x + replace_all(t, p, r),
    decreases x.len(),
{
    if x.len() > 0 {
        let s = x + t;
        if starts_with(s, p) {
            assert(s.take(p.len() as int)[0] == s[0]);
        }
        let x2 = x.drop_first();
        assert forall|i: int| 0 <= i < x2.len() implies #[trigger] x2[i] != p[0] by {
            assert(x2[i] == x[i + 1]);
        }
        lemma_replace_after(x2, t, p, r);
        assert(s.drop_first() =~= x2 + t);
        assert(seq![x[0]] + (x2 + replace_all(t, p, r)) =~= x + replace_all(t, p, r));
    }
}

/// Rules whose patterns all start with a backslash leave text without one unchanged.
proof fn lemma_apply_plain(s: Seq<char>, rules: Seq<(Seq<char>, Seq<char>)>)
    requires
        lacks(s, '\\'),
        forall|m: int| 0 <= m < rules.len() ==> (#[trigger] rules[m]).0.len() > 0 && rules[m].0[0] == '\\',
    ensures
        apply_rules(s, rules) == s,
    decreases rules.len(),
{
    if rules.len() > 0 {
        assert(rules[0].0.len() > 0 && rules[0].0[0] == '\\');
        lemma_replace_absent(s, rules[0].0, rules[0].1);
        let rest = rules.drop_first();
        assert forall|m: int| 0 <= m < rest.len() implies (#[trigger] rest[m]).0.len() > 0 && rest[m].0[0] == '\\' by {
            assert(rest[m] == rules[m + 1]);
        }
        lemma_apply_plain(s, rest);
    }
}

/// A command followed by a non-letter does not start with a pattern that is no prefix of
/// it and that goes on with a letter where the command ends.
proof fn lemma_not_starts(c: Seq<char>, y: Seq<char>, p: Seq<char>)
    requires
        !prefix_from(p, c, 0),
        p.len() > c.len() ==> ascii_letter(p[c.len() as int]),
        y.len() == 0 || !ascii_letter(y[0]),
    ensures
        !starts_with(c + y, p),
{
    let s = c + y;
    if starts_with(s, p) {
        assert forall|m: int| 0 <= m < p.len() implies #[trigger] s[m] == p[m] by {
            assert(s.take(p.len() as int)[m] == s[m]);
        }
        if p.len() > c.len() {
            assert(s[c.len() as int] == y[0]);
            assert(s[c.len() as int] == p[c.len() as int]);
        } else {
            assert forall|m: int| 0 <= m < p.len() implies #[trigger] p[m] == c[m] by {
                assert(s[m] == c[m]);
            }
            lemma_prefix_from(p, c, 0);
        }
    }
}

/// Applying the rules to `x + c + y`, where rule `j` rewrites `c` to `r` and no earlier
/// rule matches there, gives `x + r + y`.
proof fn lemma_apply_command(
    x: Seq<char>,
    c: Seq<char>,
    y: Seq<char>,
    r: Seq<char>,
    rules: Seq<(Seq<char>, Seq<char>)>,
    j: int,
)
    requires
        lacks(x, '\\'),
        lacks(y, '\\'),
        lacks(r, '\\'),
        c.len() > 0,
        c[0] == '\\',
        lacks(c.drop_first(), '\\'),
        y.len() == 0 || !ascii_letter(y[0]),
        0 <= j < rules.len(),
        rules[j] == (c, r),
        forall|m: int|
            0 <= m < j ==> !prefix_from(#[trigger] rules[m].0, c, 0) && (rules[m].0.len() > c.len()
                ==> ascii_letter(rules[m].0[c.len() as int])),
        forall|m: int| 0 <= m < rules.len() ==> (#[trigger] rules[m]).0.len() > 0 && rules[m].0[0] == '\\',
    ensures
        apply_rules(x + c + y, rules) == x + r + y,
    decreases rules.len(),
{
    let p = rules[0].0;
    let r0 = rules[0].1;
    let rest = rules.drop_first();
    assert(rules[0].0.len() > 0 && rules[0].0[0] == '\\');
    assert forall|m: int| 0 <= m < rest.len() implies (#[trigger] rest[m]).0.len() > 0 && rest[m].0[0] == '\\' by {
        assert(rest[m] == rules[m + 1]);
    }
    assert(x + c + y =~= x + (c + y));
    lemma_replace_after(x, c + y, p, r0);
    if j == 0 {
        assert(starts_with(c + y, c)) by {
            assert((c + y).take(c.len() as int) =~= c);
        }
        assert((c + y).skip(c.len() as int) =~= y);
        assert(y.len() == 0 || y[0] != c[0]);
        lemma_replace_absent(y, c, r);
        assert(replace_all(c + y, c, r) == r + y);
        assert(x + (r + y) =~= x + r + y);
        let s1 = x + r + y;
        assert forall|i: int| 0 <= i < s1.len() implies #[trigger] s1[i] != '\\' by {
            if i < x.len() {
            } else if i < x.len() + r.len() {
                assert(s1[i] == r[i - x.len()]);
            } else {
                assert(s1[i] == y[i - x.len() - r.len()]);
            }
        }
        lemma_apply_plain(s1, rest);
    } else {
        lemma_not_starts(c, y, p);
        let t = (c + y).drop_first();
        assert(t =~= c.drop_first() + y);
        assert forall|i: int| 0 <= i < t.len() implies #[trigger] t[i] != '\\' by {
            if i < c.drop_first().len() {
                assert(t[i] == c.drop_first()[i]);
            } else {
                assert(t[i] == y[i - c.drop_first().len()]);
            }
        }
        lemma_replace_absent(t, p, r0);
        assert(seq![(c + y)[0]] + t =~= c + y);
        assert(replace_all(c + y, p, r0) == c + y);
        assert(x + (c + y) =~= x + c + y);
        assert forall|m: int| 0 <= m < j - 1 implies !prefix_from(#[trigger] rest[m].0, c, 0) && (rest[m].0.len()
            > c.len() ==> ascii_letter(rest[m].0[c.len() as int])) by {
            assert(rest[m] == rules[m + 1]);
        }
        assert(rest[j - 1] == rules[j]);
        lemma_apply_command(x, c, y, r, rest, j - 1);
    }
}

/// Scripts leave text without `^` or `_` as it is.
proof fn lemma_scripts_plain(cs: Seq<char>, i: int)
    requires
        0 <= i <= cs.len(),
        lacks(cs, '^'),
        lacks(cs, '_'),
    ensures
        scripts_from(cs, i) == Some(cs.skip(i)),
    decreases cs.len() - i,
{
    if i < cs.len() {
        lemma_scripts_plain(cs, i + 1);
        assert(seq![cs[i]] + cs.skip(i + 1) =~= cs.skip(i));
    } else {
        assert(cs.skip(i) =~= Seq::<char>::empty());
    }
}

/// Math shown as text rewrites each LaTeX command of [`command_rewrites`] as its pair
/// says: between plain text (no backslash, brace, `^` or `_`), with no letter right after
/// the command, the line reads as the text around it with the rewrite in the command's
/// place, words joined by single spaces.
pub proof fn law_math_command_rewrites(x: Seq<char>, y: Seq<char>, k: int)
    requires
        plain_math(x),
        plain_math(y),
        0 <= k < command_rewrites().len(),
        y.len() == 0 || !ascii_letter(y[0]),
    ensures
        simplified(x + command_rewrites()[k].0 + y) == Some(
            collapse_ws(x + command_rewrites()[k].1 + y),
        ),
{
    lemma_rewrite_table();
    lemma_rewrite_entries(command_rewrites().len(), k);
    let c = command_rewrites()[k].0;
    let t = command_rewrites()[k].1;
    let rules = math_rules();
    lemma_first_rule(c, rules, 0);
    let j = first_rule(c, rules, 0)->0;
    lemma_backslash_patterns(rules, 0);
    lemma_no_backslash_from(c, 1);
    lemma_plain_from(t, 0);
    assert forall|i: int| 0 <= i < c.drop_first().len() implies #[trigger] c.drop_first()[i] != '\\' by {
        assert(c.drop_first()[i] == c[i + 1]);
    }
    lemma_apply_command(x, c, y, t, rules, j as int);
    let s1 = x + t + y;
    assert(apply_rules(x + c + y, rules) == s1);
    assert(plain_math(s1)) by {
        assert forall|i: int| 0 <= i < s1.len() implies {
            let ch = #[trigger] s1[i];
            ch != '\\' && ch != '{' && ch != '}' && ch != '^' && ch != '_'
        } by {
            if i < x.len() {
                assert(s1[i] == x[i]);
            } else if i < x.len() + t.len() {
                assert(s1[i] == t[i - x.len()]);
            } else {
                assert(s1[i] == y[i - x.len() - t.len()]);
            }
        }
    }
    lemma_find_from(s1, frac_open(), 0);
    if find(s1, frac_open()) is Some {
        let i = find(s1, frac_open())->0;
        assert(s1.subrange(i, i + 6)[0] == s1[i]);
    }
    assert(frac_from(s1) == Some(s1));
    lemma_scripts_plain(s1, 0);
    assert(s1.skip(0) =~= s1);
    lemma_replace_absent(s1, seq!['{'], Seq::empty());
    lemma_replace_absent(s1, seq!['}'], Seq::empty());
}

} // verus!
