//! The CommonMark syntax tree that the block builder walks.
//!
//! comrak parses the markdown and prints its tree in the CommonMark XML form; this module
//! reads that text back into [`MdNode`] values.
use vstd::prelude::*;

use crate::text::starts_with;

verus! {

/// The comrak options used for every parse: source positions, GFM tables, strikethrough,
/// autolinks, task lists, tag filtering and `$`/code math.
pub uninterp spec fn commonmark_xml_of(markdown: Seq<char>) -> Seq<char>;

/// Parses `markdown` with comrak (`comrak::markdown_to_commonmark_xml`) and returns the
/// tree printed as CommonMark XML. The text depends on the markdown alone: the options are
/// fixed in the body. Nothing about the shape of the XML is claimed here; the reader below
/// checks it and rejects text that does not have it.
#[verifier::external_body]
fn commonmark_xml(markdown: &str) -> (xml: String)
    ensures
        xml@ == commonmark_xml_of(markdown@),
{
    let mut options = comrak::Options::default();
    options.render.sourcepos = true;
    options.extension.strikethrough = true;
    options.extension.table = true;
    options.extension.tagfilter = true;
    options.extension.autolink = true;
    options.extension.tasklist = true;
    options.extension.math_dollars = true;
    options.extension.math_code = true;
    comrak::markdown_to_commonmark_xml(markdown, &options)
}

/// The kind of a syntax-tree node.
#[derive(Clone, Copy, Debug, PartialEq, Eq, Structural)]
pub enum NodeTag {
    Document,
    FrontMatter,
    BlockQuote,
    MultilineBlockQuote,
    List,
    Item,
    CodeBlock,
    HtmlBlock,
    Paragraph,
    Heading,
    ThematicBreak,
    Table,
    TableRow,
    TableCell,
    Text,
    TaskItem,
    SoftBreak,
    LineBreak,
    Code,
    HtmlInline,
    Raw,
    Emph,
    Strong,
    Strikethrough,
    Link,
    WikiLink,
    Image,
    FootnoteReference,
    Superscript,
    Subscript,
    Escaped,
    Underline,
    Math,
    Other,
}

/// A node of the syntax tree.
///
/// `flag` is the list's "ordered", the math node's "display" or the task item's "checked";
/// `number` is the heading level or the ordered list's start; `text` is the literal of a text,
/// code, HTML, raw, math or code-block node, or the destination of an image; `info` is the
/// info string of a code block.
pub struct MdNode {
    pub tag: NodeTag,
    pub flag: bool,
    pub number: u32,
    pub text: Vec<char>,
    pub info: Vec<char>,
    pub start_line: u32,
    pub end_line: u32,
    pub children: Vec<MdNode>,
}

/// The mathematical model of a node.
pub struct NodeV {
    pub tag: NodeTag,
    pub flag: bool,
    pub number: u32,
    pub text: Seq<char>,
    pub info: Seq<char>,
    pub start_line: u32,
    pub end_line: u32,
    pub children: Seq<NodeV>,
}

pub open spec fn node_view(n: MdNode) -> NodeV
    decreases n,
{
    NodeV {
        tag: n.tag,
        flag: n.flag,
        number: n.number,
        text: n.text@,
        info: n.info@,
        start_line: n.start_line,
        end_line: n.end_line,
        children: nodes_view(n.children@),
    }
}

pub open spec fn nodes_view(ns: Seq<MdNode>) -> Seq<NodeV>
    decreases ns,
{
    if ns.len() == 0 {
        Seq::empty()
    } else {
        seq![node_view(ns[0])] + nodes_view(ns.drop_first())
    }
}

impl View for MdNode {
    type V = NodeV;

    open spec fn view(&self) -> NodeV {
        node_view(*self)
    }
}

pub proof fn lemma_nodes_view(ns: Seq<MdNode>)
    ensures
        nodes_view(ns).len() == ns.len(),
        forall|i: int| 0 <= i < ns.len() ==> #[trigger] nodes_view(ns)[i] == node_view(ns[i]),
    decreases ns.len(),
{
    if ns.len() > 0 {
        lemma_nodes_view(ns.drop_first());
        assert forall|i: int| 0 <= i < ns.len() implies #[trigger] nodes_view(ns)[i] == node_view(
            ns[i],
        ) by {
            if i > 0 {
                assert(ns.drop_first()[i - 1] == ns[i]);
            }
        }
    }
}

pub proof fn lemma_nodes_view_push(ns: Seq<MdNode>, n: MdNode)
    ensures
        nodes_view(ns.push(n)) == nodes_view(ns).push(node_view(n)),
{
    lemma_nodes_view(ns);
    lemma_nodes_view(ns.push(n));
    assert(nodes_view(ns.push(n)) =~= nodes_view(ns).push(node_view(n)));
}

// ---------------------------------------------------------------------------------------
// Reading the XML text.
pub open spec fn is_xml_space(c: char) -> bool {
    c == ' ' || c == '\n' || c == '\t' || c == '\r'
}

/// First position at or after `p` that is not XML whitespace.
pub open spec fn skip_space(s: Seq<char>, p: int) -> int
    decreases s.len() - p,
{
    if 0 <= p < s.len() && is_xml_space(s[p]) {
        skip_space(s, p + 1)
    } else {
        p
    }
}

pub open spec fn ends_name(c: char) -> bool {
    c == ' ' || c == '>' || c == '/' || c == '\n' || c == '='
}

/// End of the name that starts at `p`.
pub open spec fn name_end(s: Seq<char>, p: int) -> int
    decreases s.len() - p,
{
    if 0 <= p < s.len() && !ends_name(s[p]) {
        name_end(s, p + 1)
    } else {
        p
    }
}

/// First position at or after `p` holding `c` (or the end of `s`).
pub open spec fn char_pos(s: Seq<char>, p: int, c: char) -> int
    decreases s.len() - p,
{
    if 0 <= p < s.len() && s[p] != c {
        char_pos(s, p + 1, c)
    } else {
        p
    }
}

pub proof fn lemma_skip_space(s: Seq<char>, p: int)
    requires
        0 <= p <= s.len(),
    ensures
        p <= skip_space(s, p) <= s.len(),
    decreases s.len() - p,
{
    if 0 <= p < s.len() && is_xml_space(s[p]) {
        lemma_skip_space(s, p + 1);
    }
}

pub proof fn lemma_name_end(s: Seq<char>, p: int)
    requires
        0 <= p <= s.len(),
    ensures
        p <= name_end(s, p) <= s.len(),
    decreases s.len() - p,
{
    if 0 <= p < s.len() && !ends_name(s[p]) {
        lemma_name_end(s, p + 1);
    }
}

pub proof fn lemma_char_pos(s: Seq<char>, p: int, c: char)
    requires
        0 <= p <= s.len(),
    ensures
        p <= char_pos(s, p, c) <= s.len(),
        char_pos(s, p, c) < s.len() ==> s[char_pos(s, p, c)] == c,
        forall|k: int| p <= k < char_pos(s, p, c) ==> s[k] != c,
    decreases s.len() - p,
{
    if 0 <= p < s.len() && s[p] != c {
        lemma_char_pos(s, p + 1, c);
    }
}

fn skip_space_exec(s: &Vec<char>, p: usize) -> (r: usize)
    requires
        p <= s.len(),
    ensures
        r == skip_space(s@, p as int),
        p <= r <= s.len(),
{
    let mut i = p;
    while i < s.len() && (s[i] == ' ' || s[i] == '\n' || s[i] == '\t' || s[i] == '\r')
        invariant
            p <= i <= s.len(),
            skip_space(s@, p as int) == skip_space(s@, i as int),
        decreases s.len() - i,
    {
        i += 1;
    }
    i
}

fn name_end_exec(s: &Vec<char>, p: usize) -> (r: usize)
    requires
        p <= s.len(),
    ensures
        r == name_end(s@, p as int),
        p <= r <= s.len(),
{
    let mut i = p;
    while i < s.len() && !(s[i] == ' ' || s[i] == '>' || s[i] == '/' || s[i] == '\n' || s[i]
        == '=')
        invariant
            p <= i <= s.len(),
            name_end(s@, p as int) == name_end(s@, i as int),
        decreases s.len() - i,
    {
        i += 1;
    }
    i
}

fn char_pos_exec(s: &Vec<char>, p: usize, c: char) -> (r: usize)
    requires
        p <= s.len(),
    ensures
        r == char_pos(s@, p as int, c),
        p <= r <= s.len(),
{
    let mut i = p;
    while i < s.len() && s[i] != c
        invariant
            p <= i <= s.len(),
            char_pos(s@, p as int, c) == char_pos(s@, i as int, c),
        decreases s.len() - i,
    {
        i += 1;
    }
    i
}

pub open spec fn ent_quot() -> Seq<char> {
    seq!['&', 'q', 'u', 'o', 't', ';']
}

pub open spec fn ent_amp() -> Seq<char> {
    seq!['&', 'a', 'm', 'p', ';']
}

pub open spec fn ent_lt() -> Seq<char> {
    seq!['&', 'l', 't', ';']
}

pub open spec fn ent_gt() -> Seq<char> {
    seq!['&', 'g', 't', ';']
}

/// Replaces the entities `&quot;`, `&amp;`, `&lt;` and `&gt;` by the characters they stand
/// for.
pub open spec fn unescape(s: Seq<char>) -> Seq<char>
    decreases s.len(),
{
    if s.len() == 0 {
        Seq::empty()
    } else if starts_with(s, ent_quot()) {
        seq!['"'] + unescape(s.skip(6))
    } else if starts_with(s, ent_amp()) {
        seq!['&'] + unescape(s.skip(5))
    } else if starts_with(s, ent_lt()) {
        seq!['<'] + unescape(s.skip(4))
    } else if starts_with(s, ent_gt()) {
        seq!['>'] + unescape(s.skip(4))
    } else {
        seq![s[0]] + unescape(s.drop_first())
    }
}

fn entity_at(s: &Vec<char>, i: usize) -> (r: (char, usize))
    requires
        i < s.len(),
    ensures
        ({
            let rest = s@.skip(i as int);
            if starts_with(rest, ent_quot()) {
                r == ('"', 6usize)
            } else if starts_with(rest, ent_amp()) {
                r == ('&', 5usize)
            } else if starts_with(rest, ent_lt()) {
                r == ('<', 4usize)
            } else if starts_with(rest, ent_gt()) {
                r == ('>', 4usize)
            } else {
                r == (s@[i as int], 1usize)
            }
        }),
{
    let ghost rest = s@.skip(i as int);
    let n = s.len() - i;
    if s[i] != '&' {
        assert(!starts_with(rest, ent_quot()) && !starts_with(rest, ent_amp()) && !starts_with(
            rest,
            ent_lt(),
        ) && !starts_with(rest, ent_gt())) by {
            assert(rest[0] == s@[i as int]);
            if starts_with(rest, ent_quot()) {
                assert(rest.take(6)[0] == rest[0]);
            }
            if starts_with(rest, ent_amp()) {
                assert(rest.take(5)[0] == rest[0]);
            }
            if starts_with(rest, ent_lt()) {
                assert(rest.take(4)[0] == rest[0]);
            }
            if starts_with(rest, ent_gt()) {
                assert(rest.take(4)[0] == rest[0]);
            }
        }
        return (s[i], 1);
    }
    if n >= 6 && s[i + 1] == 'q' && s[i + 2] == 'u' && s[i + 3] == 'o' && s[i + 4] == 't' && s[i
        + 5] == ';' {
        assert(rest.take(6) =~= ent_quot());
        return ('"', 6);
    }
    assert(!starts_with(rest, ent_quot())) by {
        if starts_with(rest, ent_quot()) {
            assert(rest.take(6)[1] == rest[1] && rest.take(6)[2] == rest[2] && rest.take(6)[3]
                == rest[3] && rest.take(6)[4] == rest[4] && rest.take(6)[5] == rest[5]);
        }
    }
    if n >= 5 && s[i + 1] == 'a' && s[i + 2] == 'm' && s[i + 3] == 'p' && s[i + 4] == ';' {
        assert(rest.take(5) =~= ent_amp());
        return ('&', 5);
    }
    assert(!starts_with(rest, ent_amp())) by {
        if starts_with(rest, ent_amp()) {
            assert(rest.take(5)[1] == rest[1] && rest.take(5)[2] == rest[2] && rest.take(5)[3]
                == rest[3] && rest.take(5)[4] == rest[4]);
        }
    }
    if n >= 4 && s[i + 1] == 'l' && s[i + 2] == 't' && s[i + 3] == ';' {
        assert(rest.take(4) =~= ent_lt());
        return ('<', 4);
    }
    assert(!starts_with(rest, ent_lt())) by {
        if starts_with(rest, ent_lt()) {
            assert(rest.take(4)[1] == rest[1] && rest.take(4)[2] == rest[2] && rest.take(4)[3]
                == rest[3]);
        }
    }
    if n >= 4 && s[i + 1] == 'g' && s[i + 2] == 't' && s[i + 3] == ';' {
        assert(rest.take(4) =~= ent_gt());
        return ('>', 4);
    }
    assert(!starts_with(rest, ent_gt())) by {
        if starts_with(rest, ent_gt()) {
            assert(rest.take(4)[1] == rest[1] && rest.take(4)[2] == rest[2] && rest.take(4)[3]
                == rest[3]);
        }
    }
    (s[i], 1)
}

pub fn unescape_vec(s: &Vec<char>) -> (r: Vec<char>)
    ensures
        r@ == unescape(s@),
{
    let mut r: Vec<char> = Vec::new();
    let mut i: usize = 0;
    assert(s@.skip(0) == s@);
    while i < s.len()
        invariant
            i <= s.len(),
            r@ + unescape(s@.skip(i as int)) == unescape(s@),
        decreases s.len() - i,
    {
        let ghost rest = s@.skip(i as int);
        let ghost before = r@;
        let (c, k) = entity_at(s, i);
        assert(k as int <= rest.len());
        assert(rest.skip(k as int) =~= s@.skip(i + k));
        assert(unescape(rest) == seq![c] + unescape(rest.skip(k as int))) by {
            if k == 1 {
                assert(rest[0] == s@[i as int]);
                assert(rest.skip(1) == rest.drop_first());
            }
        }
        r.push(c);
        assert(before + (seq![c] + unescape(s@.skip(i + k))) == before.push(c) + unescape(
            s@.skip(i + k),
        ));
        i += k;
    }
    assert(s@.skip(s.len() as int) =~= Seq::<char>::empty());
    assert(r@ + Seq::<char>::empty() == r@);
    r
}

} // verus!

verus! {

/// `v` equals the text `lit`.
pub fn eq_lit(v: &Vec<char>, lit: &str) -> (b: bool)
    ensures
        b == (v@ == lit@),
{
    let l = crate::text::chars_of(lit);
    if v.len() != l.len() {
        assert(v@.len() != lit@.len());
        return false;
    }
    let mut i: usize = 0;
    while i < v.len()
        invariant
            v.len() == l.len(),
            l@ == lit@,
            i <= v.len(),
            forall|j: int| 0 <= j < i ==> v@[j] == l@[j],
        decreases v.len() - i,
    {
        if v[i] != l[i] {
            assert(v@[i as int] != lit@[i as int]);
            return false;
        }
        i += 1;
    }
    assert(v@ =~= l@);
    true
}

/// The kind of node that the XML element `name` stands for.
pub open spec fn tag_of(name: Seq<char>) -> NodeTag {
    if name == "document"@ { NodeTag::Document }
    else if name == "frontmatter"@ { NodeTag::FrontMatter }
    else if name == "block_quote"@ { NodeTag::BlockQuote }
    else if name == "multiline_block_quote"@ { NodeTag::MultilineBlockQuote }
    else if name == "list"@ { NodeTag::List }
    else if name == "item"@ { NodeTag::Item }
    else if name == "code_block"@ { NodeTag::CodeBlock }
    else if name == "html_block"@ { NodeTag::HtmlBlock }
    else if name == "paragraph"@ { NodeTag::Paragraph }
    else if name == "heading"@ { NodeTag::Heading }
    else if name == "thematic_break"@ { NodeTag::ThematicBreak }
    else if name == "table"@ { NodeTag::Table }
    else if name == "table_row"@ { NodeTag::TableRow }
    else if name == "table_cell"@ { NodeTag::TableCell }
    else if name == "text"@ { NodeTag::Text }
    else if name == "taskitem"@ { NodeTag::TaskItem }
    else if name == "softbreak"@ { NodeTag::SoftBreak }
    else if name == "linebreak"@ { NodeTag::LineBreak }
    else if name == "code"@ { NodeTag::Code }
    else if name == "html_inline"@ { NodeTag::HtmlInline }
    else if name == "raw"@ { NodeTag::Raw }
    else if name == "emph"@ { NodeTag::Emph }
    else if name == "strong"@ { NodeTag::Strong }
    else if name == "strikethrough"@ { NodeTag::Strikethrough }
    else if name == "link"@ { NodeTag::Link }
    else if name == "wikilink"@ { NodeTag::WikiLink }
    else if name == "image"@ { NodeTag::Image }
    else if name == "footnote_reference"@ { NodeTag::FootnoteReference }
    else if name == "superscript"@ { NodeTag::Superscript }
    else if name == "subscript"@ { NodeTag::Subscript }
    else if name == "escaped"@ { NodeTag::Escaped }
    else if name == "underline"@ { NodeTag::Underline }
    else if name == "math"@ { NodeTag::Math }
    else { NodeTag::Other }
}

fn tag_of_exec(name: &Vec<char>) -> (t: NodeTag)
    ensures
        t == tag_of(name@),
{
    if eq_lit(name, "document") { NodeTag::Document }
    else if eq_lit(name, "frontmatter") { NodeTag::FrontMatter }
    else if eq_lit(name, "block_quote") { NodeTag::BlockQuote }
    else if eq_lit(name, "multiline_block_quote") { NodeTag::MultilineBlockQuote }
    else if eq_lit(name, "list") { NodeTag::List }
    else if eq_lit(name, "item") { NodeTag::Item }
    else if eq_lit(name, "code_block") { NodeTag::CodeBlock }
    else if eq_lit(name, "html_block") { NodeTag::HtmlBlock }
    else if eq_lit(name, "paragraph") { NodeTag::Paragraph }
    else if eq_lit(name, "heading") { NodeTag::Heading }
    else if eq_lit(name, "thematic_break") { NodeTag::ThematicBreak }
    else if eq_lit(name, "table") { NodeTag::Table }
    else if eq_lit(name, "table_row") { NodeTag::TableRow }
    else if eq_lit(name, "table_cell") { NodeTag::TableCell }
    else if eq_lit(name, "text") { NodeTag::Text }
    else if eq_lit(name, "taskitem") { NodeTag::TaskItem }
    else if eq_lit(name, "softbreak") { NodeTag::SoftBreak }
    else if eq_lit(name, "linebreak") { NodeTag::LineBreak }
    else if eq_lit(name, "code") { NodeTag::Code }
    else if eq_lit(name, "html_inline") { NodeTag::HtmlInline }
    else if eq_lit(name, "raw") { NodeTag::Raw }
    else if eq_lit(name, "emph") { NodeTag::Emph }
    else if eq_lit(name, "strong") { NodeTag::Strong }
    else if eq_lit(name, "strikethrough") { NodeTag::Strikethrough }
    else if eq_lit(name, "link") { NodeTag::Link }
    else if eq_lit(name, "wikilink") { NodeTag::WikiLink }
    else if eq_lit(name, "image") { NodeTag::Image }
    else if eq_lit(name, "footnote_reference") { NodeTag::FootnoteReference }
    else if eq_lit(name, "superscript") { NodeTag::Superscript }
    else if eq_lit(name, "subscript") { NodeTag::Subscript }
    else if eq_lit(name, "escaped") { NodeTag::Escaped }
    else if eq_lit(name, "underline") { NodeTag::Underline }
    else if eq_lit(name, "math") { NodeTag::Math }
    else { NodeTag::Other }
}

/// Value of the decimal digits at the start of `s` (0 when there are none).
pub open spec fn digits_value(s: Seq<char>, acc: nat) -> nat
    decreases s.len(),
{
    if s.len() > 0 && '0' <= s[0] && s[0] <= '9' {
        digits_value(s.drop_first(), acc * 10 + (s[0] as nat - '0' as nat) as nat)
    } else {
        acc
    }
}

/// The number at the start of `s`, held to the range of `u32`.
pub open spec fn leading_u32(s: Seq<char>) -> u32 {
    let v = digits_value(s, 0);
    if v > u32::MAX as nat { u32::MAX } else { v as u32 }
}

fn leading_u32_exec(s: &Vec<char>) -> (r: u32)
    ensures
        r == leading_u32(s@),
{
    let mut i: usize = 0;
    let mut acc: u64 = 0;
    let mut big = false;
    assert(s@.skip(0) == s@);
    while i < s.len() && '0' <= s[i] && s[i] <= '9'
        invariant
            i <= s.len(),
            !big ==> acc <= u32::MAX && digits_value(s@, 0) == digits_value(s@.skip(i as int), acc as nat),
            big ==> digits_value(s@, 0) > u32::MAX as nat,
        decreases s.len() - i,
    {
        proof {
            lemma_digits_value_grows(s@.skip(i as int), acc as nat);
            assert(s@.skip(i as int).drop_first() == s@.skip(i + 1));
        }
        if !big {
            let d = (s[i] as u32 - '0' as u32) as u64;
            let next = acc * 10 + d;
            proof {
                lemma_digits_value_grows(s@.skip(i + 1), next as nat);
            }
            if next > u32::MAX as u64 {
                big = true;
            } else {
                acc = next;
            }
        }
        i += 1;
    }
    if big {
        u32::MAX
    } else {
        acc as u32
    }
}

proof fn lemma_digits_value_grows(s: Seq<char>, acc: nat)
    ensures
        digits_value(s, acc) >= acc,
    decreases s.len(),
{
    if s.len() > 0 && '0' <= s[0] && s[0] <= '9' {
        lemma_digits_value_grows(s.drop_first(), acc * 10 + (s[0] as nat - '0' as nat) as nat);
    }
}

/// The value of the first attribute called `name`.
pub open spec fn attr_value(attrs: Seq<(Seq<char>, Seq<char>)>, name: Seq<char>) -> Option<
    Seq<char>,
>
    decreases attrs.len(),
{
    if attrs.len() == 0 {
        None
    } else if attrs[0].0 == name {
        Some(attrs[0].1)
    } else {
        attr_value(attrs.drop_first(), name)
    }
}

pub open spec fn attrs_view(attrs: Seq<(Vec<char>, Vec<char>)>) -> Seq<(Seq<char>, Seq<char>)> {
    attrs.map_values(|a: (Vec<char>, Vec<char>)| (a.0@, a.1@))
}

fn attr_value_exec(attrs: &Vec<(Vec<char>, Vec<char>)>, name: &str) -> (r: Option<Vec<char>>)
    ensures
        r matches Some(v) ==> attr_value(attrs_view(attrs@), name@) == Some(v@),
        r is None ==> attr_value(attrs_view(attrs@), name@) is None,
{
    let mut i: usize = 0;
    assert(attrs_view(attrs@).skip(0) == attrs_view(attrs@));
    while i < attrs.len()
        invariant
            i <= attrs.len(),
            attr_value(attrs_view(attrs@), name@) == attr_value(
                attrs_view(attrs@).skip(i as int),
                name@,
            ),
        decreases attrs.len() - i,
    {
        assert(attrs_view(attrs@).skip(i as int).drop_first() == attrs_view(attrs@).skip(i + 1));
        if eq_lit(&attrs[i].0, name) {
            return Some(clone_chars(&attrs[i].1));
        }
        i += 1;
    }
    None
}

pub fn clone_chars(v: &Vec<char>) -> (r: Vec<char>)
    ensures
        r@ == v@,
{
    crate::text::slice_vec(v, 0, v.len())
}

/// The tail that follows a code block's info string: `" xml:space="preserve">`.
pub open spec fn preserve_tail() -> Seq<char> {
    seq!['"', ' ', 'x', 'm', 'l', ':', 's', 'p', 'a', 'c', 'e', '=', '"', 'p', 'r', 'e', 's', 'e', 'r', 'v', 'e', '"', '>']
}

/// What a display-math code block writes between its info string and the tail.
pub open spec fn math_style_tail() -> Seq<char> {
    seq!['"', ' ', 'm', 'a', 't', 'h', '_', 's', 't', 'y', 'l', 'e', '=', '"', 'd', 'i', 's', 'p', 'l', 'a', 'y']
}

/// The last position in `from..to` at which `preserve_tail()` starts and ends by `to`.
pub open spec fn last_tail(s: Seq<char>, from: int, to: int) -> Option<int>
    decreases to - from,
{
    if to - from < preserve_tail().len() {
        None
    } else if crate::text::occurs_at(s, preserve_tail(), to - preserve_tail().len()) {
        Some(to - preserve_tail().len())
    } else {
        last_tail(s, from, to - 1)
    }
}

/// Index of the quote that closes the value of attribute `name` opened at `vs`. The info
/// string of a code block is printed without escaping and holds no line feed, while the
/// text that follows the tag on its line is escaped and holds no quote: the value runs to
/// the last tail on the tag's line.
pub open spec fn value_end(s: Seq<char>, name: Seq<char>, vs: int) -> int {
    if name == "info"@ {
        match last_tail(s, vs, char_pos(s, vs, '\n')) {
            Some(j) => j,
            None => s.len() as int,
        }
    } else {
        char_pos(s, vs, '"')
    }
}

/// The value of an attribute as printed between `vs` and `ve`. For a code block whose info
/// string is `math` the printer adds `" math_style="display` to it, so the value read is
/// then `math" math_style="display`, the same as for that info string itself; the block
/// builder tells the two apart from the fence line.
pub open spec fn value_text(s: Seq<char>, name: Seq<char>, vs: int, ve: int) -> Seq<char> {
    s.subrange(vs, ve)
}

/// Reads the attributes of a tag from `q` up to and including the `>` or `/>` that ends it:
/// the attributes, the position after the tag, and whether the tag closes itself.
pub open spec fn parse_attrs(s: Seq<char>, q: int) -> Option<
    (Seq<(Seq<char>, Seq<char>)>, int, bool),
>
    decreases s.len() - q,
{
    let q1 = skip_space(s, q);
    if q < 0 || q1 < q || q1 >= s.len() {
        None
    } else if s[q1] == '>' {
        Some((Seq::empty(), q1 + 1, false))
    } else if s[q1] == '/' {
        if q1 + 1 < s.len() && s[q1 + 1] == '>' {
            Some((Seq::empty(), q1 + 2, true))
        } else {
            None
        }
    } else {
        let ne = name_end(s, q1);
        if ne <= q1 || s.len() - ne <= 1 || s[ne] != '=' || s[ne + 1] != '"' {
            None
        } else {
            let name = s.subrange(q1, ne);
            let vs = ne + 2;
            let ve = value_end(s, name, vs);
            if ve < vs || ve >= s.len() {
                None
            } else {
                match parse_attrs(s, ve + 1) {
                    Some((rest, e, sc)) => Some(
                        (seq![(name, value_text(s, name, vs, ve))] + rest, e, sc),
                    ),
                    None => None,
                }
            }
        }
    }
}

/// `s` holds the closing tag `</name>` at `r`.
pub open spec fn closes_at(s: Seq<char>, r: int, name: Seq<char>) -> bool {
    &&& 0 <= r
    &&& r + name.len() + 3 <= s.len()
    &&& s[r] == '<'
    &&& s[r + 1] == '/'
    &&& s.subrange(r + 2, r + 2 + name.len()) == name
    &&& s[r + 2 + name.len()] == '>'
}

/// The node that an element with this name, these attributes, literal and children
/// stands for.
pub open spec fn build_node(
    name: Seq<char>,
    attrs: Seq<(Seq<char>, Seq<char>)>,
    literal: Seq<char>,
    children: Seq<NodeV>,
) -> NodeV {
    let tag = tag_of(name);
    let sourcepos = match attr_value(attrs, "sourcepos"@) {
        Some(v) => v,
        None => Seq::empty(),
    };
    let dash = char_pos(sourcepos, 0, '-');
    NodeV {
        tag,
        flag: if tag == NodeTag::List {
            attr_value(attrs, "type"@) == Some("ordered"@)
        } else if tag == NodeTag::Math {
            attr_value(attrs, "math_style"@) == Some("display"@)
        } else if tag == NodeTag::TaskItem {
            attr_value(attrs, "completed"@) == Some("true"@)
        } else {
            false
        },
        number: if tag == NodeTag::Heading {
            match attr_value(attrs, "level"@) {
                Some(v) => leading_u32(v),
                None => 0,
            }
        } else if tag == NodeTag::List {
            match attr_value(attrs, "start"@) {
                Some(v) => leading_u32(v),
                None => 0,
            }
        } else {
            0
        },
        text: if tag == NodeTag::Image {
            match attr_value(attrs, "destination"@) {
                Some(v) => unescape(v),
                None => Seq::empty(),
            }
        } else {
            literal
        },
        info: if tag == NodeTag::CodeBlock {
            match attr_value(attrs, "info"@) {
                Some(v) => v,
                None => Seq::empty(),
            }
        } else {
            Seq::empty()
        },
        start_line: leading_u32(sourcepos),
        end_line: if dash < sourcepos.len() {
            leading_u32(sourcepos.skip(dash + 1))
        } else {
            0
        },
        children,
    }
}

/// Reads the element that starts at `p` (after whitespace): the node and the position
/// after its closing tag.
pub open spec fn parse_element(s: Seq<char>, p: int) -> Option<(NodeV, int)>
    decreases s.len() - p, 1int,
{
    let p1 = skip_space(s, p);
    if p < 0 || p1 < p || p1 >= s.len() || s[p1] != '<' {
        None
    } else {
        let n1 = name_end(s, p1 + 1);
        if n1 <= p1 + 1 || n1 > s.len() {
            None
        } else {
            let name = s.subrange(p1 + 1, n1);
            match parse_attrs(s, n1) {
                None => None,
                Some((attrs, q, self_closing)) => {
                    if q <= p || q > s.len() {
                        None
                    } else if self_closing {
                        Some((build_node(name, attrs, Seq::empty(), Seq::empty()), q))
                    } else if attr_value(attrs, "xml:space"@) == Some("preserve"@) {
                        let r = char_pos(s, q, '<');
                        if closes_at(s, r, name) {
                            Some(
                                (
                                    build_node(
                                        name,
                                        attrs,
                                        unescape(s.subrange(q, r)),
                                        Seq::empty(),
                                    ),
                                    r + name.len() + 3,
                                ),
                            )
                        } else {
                            None
                        }
                    } else {
                        match parse_children(s, q, name) {
                            Some((kids, e)) => Some(
                                (build_node(name, attrs, Seq::empty(), kids), e),
                            ),
                            None => None,
                        }
                    }
                },
            }
        }
    }
}

/// Reads the children of element `name` from `c` up to and including its closing tag.
pub open spec fn parse_children(s: Seq<char>, c: int, name: Seq<char>) -> Option<
    (Seq<NodeV>, int),
>
    decreases s.len() - c, 2int,
{
    let c1 = skip_space(s, c);
    if c < 0 || c1 < c || c1 > s.len() {
        None
    } else if closes_at(s, c1, name) {
        Some((Seq::empty(), c1 + name.len() + 3))
    } else {
        match parse_element(s, c1) {
            Some((n, c2)) => {
                if c2 <= c || c2 > s.len() {
                    None
                } else {
                    match parse_children(s, c2, name) {
                        Some((rest, e)) => Some((seq![n] + rest, e)),
                        None => None,
                    }
                }
            },
            None => None,
        }
    }
}

/// The tree that the XML text holds: the `document` element it contains.
pub open spec fn parse_tree(s: Seq<char>) -> Option<NodeV> {
    match crate::text::find(s, "<document"@) {
        Some(i) => match parse_element(s, i) {
            Some((n, _)) => Some(n),
            None => None,
        },
        None => None,
    }
}

/// The syntax tree comrak builds for `markdown`.
pub open spec fn markdown_tree(markdown: Seq<char>) -> Option<NodeV> {
    parse_tree(commonmark_xml_of(markdown))
}

} // verus!

verus! {

fn preserve_tail_vec() -> (v: Vec<char>)
    ensures
        v@ == preserve_tail(),
{
    let v = vec!['"', ' ', 'x', 'm', 'l', ':', 's', 'p', 'a', 'c', 'e', '=', '"', 'p', 'r', 'e', 's', 'e', 'r', 'v', 'e', '"', '>'];
    assert(v@ =~= preserve_tail());
    v
}

pub fn math_style_tail_vec() -> (v: Vec<char>)
    ensures
        v@ == math_style_tail(),
{
    let v = vec!['"', ' ', 'm', 'a', 't', 'h', '_', 's', 't', 'y', 'l', 'e', '=', '"', 'd', 'i', 's', 'p', 'l', 'a', 'y'];
    assert(v@ =~= math_style_tail());
    v
}

fn last_tail_exec(s: &Vec<char>, from: usize, to: usize) -> (r: Option<usize>)
    requires
        from <= to <= s.len(),
    ensures
        r matches Some(j) ==> last_tail(s@, from as int, to as int) == Some(j as int) && from <= j && j + 23 <= to,
        r is None ==> last_tail(s@, from as int, to as int) is None,
{
    let tail = preserve_tail_vec();
    let mut t = to;
    while t - from >= tail.len()
        invariant
            from <= t <= to <= s.len(),
            tail@ == preserve_tail(),
            tail.len() == 23,
            last_tail(s@, from as int, to as int) == last_tail(s@, from as int, t as int),
        decreases t,
    {
        if crate::text::occurs_at_exec(s, &tail, t - tail.len()) {
            return Some(t - tail.len());
        }
        t -= 1;
    }
    None
}

fn value_end_exec(s: &Vec<char>, name: &Vec<char>, vs: usize) -> (r: usize)
    requires
        vs <= s.len(),
    ensures
        r as int == value_end(s@, name@, vs as int),
        r <= s.len(),
{
    if eq_lit(name, "info") {
        let le = char_pos_exec(s, vs, '\n');
        match last_tail_exec(s, vs, le) {
            Some(j) => j,
            None => s.len(),
        }
    } else {
        char_pos_exec(s, vs, '"')
    }
}

fn value_text_exec(s: &Vec<char>, name: &Vec<char>, vs: usize, ve: usize) -> (r: Vec<char>)
    requires
        vs <= ve <= s.len(),
    ensures
        r@ == value_text(s@, name@, vs as int, ve as int),
{
    crate::text::slice_vec(s, vs, ve)
}

pub open spec fn prepend_attrs(
    acc: Seq<(Seq<char>, Seq<char>)>,
    o: Option<(Seq<(Seq<char>, Seq<char>)>, int, bool)>,
) -> Option<(Seq<(Seq<char>, Seq<char>)>, int, bool)> {
    match o {
        Some((rest, e, sc)) => Some((acc + rest, e, sc)),
        None => None,
    }
}

fn parse_attrs_exec(s: &Vec<char>, q0: usize) -> (r: Option<(Vec<(Vec<char>, Vec<char>)>, usize, bool)>)
    requires
        q0 <= s.len(),
    ensures
        r matches Some((a, e, sc)) ==> parse_attrs(s@, q0 as int) == Some(
            (attrs_view(a@), e as int, sc),
        ) && e <= s.len(),
        r is None ==> parse_attrs(s@, q0 as int) is None,
{
    let mut acc: Vec<(Vec<char>, Vec<char>)> = Vec::new();
    let mut q = q0;
    assert(attrs_view(acc@) =~= Seq::<(Seq<char>, Seq<char>)>::empty());
    loop
        invariant
            q0 <= q <= s.len(),
            parse_attrs(s@, q0 as int) == prepend_attrs(attrs_view(acc@), parse_attrs(s@, q as int)),
        decreases s.len() - q,
    {
        let ghost before = acc@;
        let q1 = skip_space_exec(s, q);
        if q1 >= s.len() {
            return None;
        }
        if s[q1] == '>' {
            assert(attrs_view(acc@) + Seq::<(Seq<char>, Seq<char>)>::empty() == attrs_view(acc@));
            return Some((acc, q1 + 1, false));
        }
        if s[q1] == '/' {
            if q1 + 1 < s.len() && s[q1 + 1] == '>' {
                assert(attrs_view(acc@) + Seq::<(Seq<char>, Seq<char>)>::empty() == attrs_view(
                    acc@,
                ));
                return Some((acc, q1 + 2, true));
            }
            return None;
        }
        let ne = name_end_exec(s, q1);
        if ne <= q1 || s.len() - ne <= 1 || s[ne] != '=' || s[ne + 1] != '"' {
            return None;
        }
        let name = crate::text::slice_vec(s, q1, ne);
        let vs = ne + 2;
        let ve = value_end_exec(s, &name, vs);
        if ve < vs || ve >= s.len() {
            return None;
        }
        let value = value_text_exec(s, &name, vs, ve);
        let ghost item = (name@, value@);
        acc.push((name, value));
        proof {
            assert(attrs_view(acc@) =~= attrs_view(before).push(item));
            assert(attrs_view(before).push(item) =~= attrs_view(before) + seq![item]);
            match parse_attrs(s@, ve + 1) {
                Some((rest, e, sc)) => {
                    assert(attrs_view(before) + (seq![item] + rest) == (attrs_view(before)
                        + seq![item]) + rest);
                },
                None => {},
            }
        }
        q = ve + 1;
    }
}

fn build_node_exec(
    name: &Vec<char>,
    attrs: &Vec<(Vec<char>, Vec<char>)>,
    literal: Vec<char>,
    children: Vec<MdNode>,
) -> (n: MdNode)
    ensures
        n@ == build_node(name@, attrs_view(attrs@), literal@, nodes_view(children@)),
{
    let tag = tag_of_exec(name);
    let sourcepos = match attr_value_exec(attrs, "sourcepos") {
        Some(v) => v,
        None => Vec::new(),
    };
    let dash = char_pos_exec(&sourcepos, 0, '-');
    let flag = if tag == NodeTag::List {
        match attr_value_exec(attrs, "type") {
            Some(v) => eq_lit(&v, "ordered"),
            None => false,
        }
    } else if tag == NodeTag::Math {
        match attr_value_exec(attrs, "math_style") {
            Some(v) => eq_lit(&v, "display"),
            None => false,
        }
    } else if tag == NodeTag::TaskItem {
        match attr_value_exec(attrs, "completed") {
            Some(v) => eq_lit(&v, "true"),
            None => false,
        }
    } else {
        false
    };
    let number = if tag == NodeTag::Heading {
        match attr_value_exec(attrs, "level") {
            Some(v) => leading_u32_exec(&v),
            None => 0,
        }
    } else if tag == NodeTag::List {
        match attr_value_exec(attrs, "start") {
            Some(v) => leading_u32_exec(&v),
            None => 0,
        }
    } else {
        0
    };
    let text = if tag == NodeTag::Image {
        match attr_value_exec(attrs, "destination") {
            Some(v) => unescape_vec(&v),
            None => Vec::new(),
        }
    } else {
        literal
    };
    let info = if tag == NodeTag::CodeBlock {
        match attr_value_exec(attrs, "info") {
            Some(v) => v,
            None => Vec::new(),
        }
    } else {
        Vec::new()
    };
    let start_line = leading_u32_exec(&sourcepos);
    let end_line = if dash < sourcepos.len() {
        let tail = crate::text::slice_vec(&sourcepos, dash + 1, sourcepos.len());
        assert(tail@ == sourcepos@.skip(dash + 1));
        leading_u32_exec(&tail)
    } else {
        0
    };
    let ghost kids = children@;
    let n = MdNode { tag, flag, number, text, info, start_line, end_line, children };
    assert(n@.children == nodes_view(kids));
    n
}

pub open spec fn prepend_nodes(acc: Seq<NodeV>, o: Option<(Seq<NodeV>, int)>) -> Option<
    (Seq<NodeV>, int),
> {
    match o {
        Some((rest, e)) => Some((acc + rest, e)),
        None => None,
    }
}

fn closes_at_exec(s: &Vec<char>, r: usize, name: &Vec<char>) -> (b: bool)
    ensures
        b == closes_at(s@, r as int, name@),
{
    if r > s.len() || name.len() > s.len() - r || 3 > s.len() - r - name.len() {
        return false;
    }
    if s[r] != '<' || s[r + 1] != '/' || s[r + 2 + name.len()] != '>' {
        return false;
    }
    let b = crate::text::occurs_at_exec(s, name, r + 2);
    b
}

fn parse_element_exec(s: &Vec<char>, p: usize) -> (r: Option<(MdNode, usize)>)
    requires
        p <= s.len(),
    ensures
        r matches Some((n, e)) ==> parse_element(s@, p as int) == Some((n@, e as int)) && e
            <= s.len(),
        r is None ==> parse_element(s@, p as int) is None,
    decreases s.len() - p,
{
    let p1 = skip_space_exec(s, p);
    if p1 >= s.len() || s[p1] != '<' {
        return None;
    }
    let n1 = name_end_exec(s, p1 + 1);
    if n1 <= p1 + 1 {
        return None;
    }
    let name = crate::text::slice_vec(s, p1 + 1, n1);
    let (attrs, q, self_closing) = match parse_attrs_exec(s, n1) {
        None => return None,
        Some(t) => t,
    };
    if q <= p {
        return None;
    }
    if self_closing {
        let n = build_node_exec(&name, &attrs, Vec::new(), Vec::new());
        assert(nodes_view(Seq::<MdNode>::empty()) == Seq::<NodeV>::empty());
        return Some((n, q));
    }
    let is_preserve = match attr_value_exec(&attrs, "xml:space") {
        Some(v) => eq_lit(&v, "preserve"),
        None => false,
    };
    if is_preserve {
        let r = char_pos_exec(s, q, '<');
        if closes_at_exec(s, r, &name) {
            let raw = crate::text::slice_vec(s, q, r);
            let lit = unescape_vec(&raw);
            let n = build_node_exec(&name, &attrs, lit, Vec::new());
            assert(nodes_view(Seq::<MdNode>::empty()) == Seq::<NodeV>::empty());
            return Some((n, r + name.len() + 3));
        }
        return None;
    }
    // children, up to the closing tag
    let mut kids: Vec<MdNode> = Vec::new();
    let mut c = q;
    assert(nodes_view(kids@) =~= Seq::<NodeV>::empty());
    let ghost av = attrs_view(attrs@);
    assert(parse_element(s@, p as int) == match parse_children(s@, q as int, name@) {
        Some((ks, e)) => Some((build_node(name@, av, Seq::empty(), ks), e)),
        None => None,
    });
    loop
        invariant
            p < q <= c <= s.len(),
            av == attrs_view(attrs@),
            parse_element(s@, p as int) == match parse_children(s@, q as int, name@) {
                Some((ks, e)) => Some((build_node(name@, av, Seq::empty(), ks), e)),
                None => None,
            },
            parse_children(s@, q as int, name@) == prepend_nodes(
                nodes_view(kids@),
                parse_children(s@, c as int, name@),
            ),
        decreases s.len() - c,
    {
        let c1 = skip_space_exec(s, c);
        if closes_at_exec(s, c1, &name) {
            let ghost kv = nodes_view(kids@);
            let n = build_node_exec(&name, &attrs, Vec::new(), kids);
            assert(kv + Seq::<NodeV>::empty() == kv);
            return Some((n, c1 + name.len() + 3));
        }
        match parse_element_exec(s, c1) {
            Some((child, c2)) => {
                if c2 <= c {
                    return None;
                }
                let ghost before = kids@;
                let ghost cv = child@;
                kids.push(child);
                proof {
                    lemma_nodes_view_push(before, child);
                    match parse_children(s@, c2 as int, name@) {
                        Some((rest, e)) => {
                            assert(nodes_view(before) + (seq![cv] + rest) == nodes_view(
                                before,
                            ).push(cv) + rest);
                        },
                        None => {},
                    }
                }
                c = c2;
            },
            None => return None,
        }
    }
}

/// The syntax tree of `markdown`, read from comrak's XML print of it.
/// Reads a syntax tree printed as CommonMark XML: the `document` element from its first
/// `<document` tag (see [`parse_tree`]); `None` when the text does not have that form.
pub fn parse_commonmark_xml(xml: &str) -> (r: Option<MdNode>)
    ensures
        r matches Some(n) ==> parse_tree(xml@) == Some(n@),
        r is None ==> parse_tree(xml@) is None,
{
    let s = crate::text::chars_of(xml);
    let pat = crate::text::chars_of("<document");
    match crate::text::find_from_vec(&s, &pat, 0) {
        Some(i) => {
            proof {
                crate::text::lemma_find_from(s@, pat@, 0);
            }
            match parse_element_exec(&s, i) {
                Some((n, _)) => Some(n),
                None => None,
            }
        },
        None => None,
    }
}

pub fn markdown_tree_exec(markdown: &str) -> (r: Option<MdNode>)
    ensures
        r matches Some(n) ==> markdown_tree(markdown@) == Some(n@),
        r is None ==> markdown_tree(markdown@) is None,
{
    let xml_text = commonmark_xml(markdown);
    parse_commonmark_xml(xml_text.as_str())
}

} // verus!
