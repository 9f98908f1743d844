//! Inline content of paragraphs, headings, list items and table cells.
use vstd::prelude::*;

use crate::ast::{lemma_nodes_view, node_view, nodes_view, MdNode, NodeTag, NodeV};
use crate::spans::{
    merge_adjacent_spans, merged, push_chars, push_span, push_text_with_math, spans_view,
    text_with_math, InlineSpan, TextStyle,
};

verus! {

/// The prefix of the label written for an image.
pub open spec fn image_open() -> Seq<char> {
    seq!['[', '画', '像', ':', ' ']
}

/// The text of the direct `Text` children of a node.
pub open spec fn direct_text(nodes: Seq<NodeV>) -> Seq<char>
    decreases nodes.len(),
{
    if nodes.len() == 0 {
        Seq::empty()
    } else {
        (if nodes[0].tag == NodeTag::Text {
            nodes[0].text
        } else {
            Seq::empty()
        }) + direct_text(nodes.drop_first())
    }
}

/// The label written for an image: its alt text, or its destination when there is none.
pub open spec fn image_label(n: NodeV) -> Seq<char> {
    let alt = direct_text(n.children);
    image_open() + (if alt.len() == 0 {
        n.text
    } else {
        alt
    }) + seq![']']
}

/// The runs that an inline node adds after `out`, in the inherited style `st`.
pub open spec fn collect_inline(n: NodeV, st: TextStyle, out: Seq<SpanV>) -> Seq<SpanV>
    decreases n,
{
    match n.tag {
        NodeTag::Text => text_with_math(out, n.text, st),
        NodeTag::SoftBreak | NodeTag::LineBreak => push_span(out, seq!['\n'], st),
        NodeTag::Math => push_span(out, n.text, TextStyle { math: true, ..st }),
        NodeTag::Code => push_span(
            out,
            n.text,
            TextStyle { bold: false, italic: false, code: true, link: st.link, math: st.math },
        ),
        NodeTag::Strong => collect_inline_list(
            n.children,
            TextStyle { bold: true, italic: st.italic, code: false, link: st.link, math: st.math },
            out,
        ),
        NodeTag::Emph => collect_inline_list(
            n.children,
            TextStyle { bold: st.bold, italic: true, code: false, link: st.link, math: st.math },
            out,
        ),
        NodeTag::Link | NodeTag::WikiLink => collect_inline_list(
            n.children,
            TextStyle { link: true, ..st },
            out,
        ),
        NodeTag::Image => push_span(out, image_label(n), st),
        NodeTag::HtmlInline | NodeTag::Raw => push_span(out, n.text, st),
        NodeTag::TaskItem => push_span(
            out,
            if n.flag {
                seq!['☑', ' ']
            } else {
                seq!['☐', ' ']
            },
            st,
        ),
        NodeTag::FootnoteReference | NodeTag::Superscript | NodeTag::Subscript => out,
        _ => collect_inline_list(n.children, st, out),
    }
}

/// The runs that a sequence of inline nodes adds after `out`.
pub open spec fn collect_inline_list(ns: Seq<NodeV>, st: TextStyle, out: Seq<SpanV>) -> Seq<
    SpanV,
>
    decreases ns,
{
    if ns.len() == 0 {
        out
    } else {
        collect_inline_list(ns.drop_first(), st, collect_inline(ns[0], st, out))
    }
}

/// The runs of a paragraph (or heading): its inline children, neighbours of one style
/// joined.
pub open spec fn paragraph_spans(p: NodeV) -> Seq<SpanV> {
    merged(collect_inline_list(p.children, crate::spans::plain_style(), Seq::empty()))
}

/// The first child paragraph of an item.
pub open spec fn first_paragraph(ns: Seq<NodeV>) -> Option<NodeV>
    decreases ns.len(),
{
    if ns.len() == 0 {
        None
    } else if ns[0].tag == NodeTag::Paragraph {
        Some(ns[0])
    } else {
        first_paragraph(ns.drop_first())
    }
}

/// The runs of a list item: those of its first paragraph, or of all its children when it
/// has none.
pub open spec fn item_spans(item: NodeV) -> Seq<SpanV> {
    match first_paragraph(item.children) {
        Some(p) => paragraph_spans(p),
        None => merged(
            collect_inline_list(item.children, crate::spans::plain_style(), Seq::empty()),
        ),
    }
}

use crate::spans::SpanV;

fn push_lit(out: &mut Vec<InlineSpan>, text: &str, style: TextStyle)
    ensures
        spans_view(final(out)@) == push_span(spans_view(old(out)@), text@, style),
{
    InlineSpan::push(out, text, style);
}

fn direct_text_exec(n: &MdNode) -> (r: Vec<char>)
    ensures
        r@ == direct_text(n@.children),
{
    let mut r: Vec<char> = Vec::new();
    let mut i: usize = 0;
    proof {
        lemma_nodes_view(n.children@);
        lemma_direct_text_split(n@.children, 0);
    }
    while i < n.children.len()
        invariant
            i <= n.children.len(),
            n@.children.len() == n.children@.len(),
            forall|k: int| 0 <= k < n.children.len() ==> #[trigger] n@.children[k] == node_view(
                n.children@[k],
            ),
            r@ + direct_text(n@.children.skip(i as int)) == direct_text(n@.children),
        decreases n.children.len() - i,
    {
        let ghost rest = n@.children.skip(i as int);
        assert(rest[0] == n@.children[i as int]);
        assert(rest.drop_first() == n@.children.skip(i + 1));
        if n.children[i].tag == NodeTag::Text {
            let ghost before = r@;
            crate::text::extend_vec(&mut r, &n.children[i].text);
            assert(before + (n.children@[i as int].text@ + direct_text(n@.children.skip(i + 1)))
                == (before + n.children@[i as int].text@) + direct_text(n@.children.skip(i + 1)));
        } else {
            assert(Seq::<char>::empty() + direct_text(n@.children.skip(i + 1)) == direct_text(
                n@.children.skip(i + 1),
            ));
        }
        i += 1;
    }
    assert(n@.children.skip(n.children.len() as int) =~= Seq::<NodeV>::empty());
    assert(r@ + Seq::<char>::empty() == r@);
    r
}

proof fn lemma_direct_text_split(ns: Seq<NodeV>, i: int)
    requires
        i == 0,
    ensures
        ns.skip(i) == ns,
{
}

fn push_image_label(out: &mut Vec<InlineSpan>, n: &MdNode, st: TextStyle)
    requires
        n@.tag == NodeTag::Image,
    ensures
        spans_view(final(out)@) == push_span(spans_view(old(out)@), image_label(n@), st),
{
    let alt = direct_text_exec(n);
    let mut label = vec!['[', '画', '像', ':', ' '];
    assert(label@ =~= image_open());
    if alt.len() == 0 {
        crate::text::extend_vec(&mut label, &n.text);
    } else {
        crate::text::extend_vec(&mut label, &alt);
    }
    label.push(']');
    assert(label@ =~= image_label(n@));
    push_chars(out, &label, st);
}

/// Appends the runs of an inline node (see [`collect_inline`]).
pub fn collect_inline_spans(n: &MdNode, inherited: TextStyle, out: &mut Vec<InlineSpan>)
    ensures
        spans_view(final(out)@) == collect_inline(n@, inherited, spans_view(old(out)@)),
    decreases n,
{
    proof {
        lemma_nodes_view(n.children@);
    }
    match n.tag {
        NodeTag::Text => push_text_with_math(out, &n.text, inherited),
        NodeTag::SoftBreak | NodeTag::LineBreak => push_lit(out, "\n", inherited),
        NodeTag::Math => push_chars(out, &n.text, TextStyle { math: true, ..inherited }),
        NodeTag::Code => push_chars(
            out,
            &n.text,
            TextStyle {
                bold: false,
                italic: false,
                code: true,
                link: inherited.link,
                math: inherited.math,
            },
        ),
        NodeTag::Strong => collect_children(
            n,
            TextStyle {
                bold: true,
                italic: inherited.italic,
                code: false,
                link: inherited.link,
                math: inherited.math,
            },
            out,
        ),
        NodeTag::Emph => collect_children(
            n,
            TextStyle {
                bold: inherited.bold,
                italic: true,
                code: false,
                link: inherited.link,
                math: inherited.math,
            },
            out,
        ),
        NodeTag::Link | NodeTag::WikiLink => collect_children(
            n,
            TextStyle { link: true, ..inherited },
            out,
        ),
        NodeTag::Image => push_image_label(out, n, inherited),
        NodeTag::HtmlInline | NodeTag::Raw => push_chars(out, &n.text, inherited),
        NodeTag::TaskItem => {
            if n.flag {
                push_lit(out, "☑ ", inherited);
            } else {
                push_lit(out, "☐ ", inherited);
            }
            proof {
                reveal_strlit("☑ ");
                reveal_strlit("☐ ");
                assert("☑ "@ =~= seq!['☑', ' ']);
                assert("☐ "@ =~= seq!['☐', ' ']);
            }
        },
        NodeTag::FootnoteReference | NodeTag::Superscript | NodeTag::Subscript => {},
        _ => collect_children(n, inherited, out),
    }
    proof {
        reveal_strlit("\n");
        assert("\n"@ =~= seq!['\n']);
    }
}

/// Appends the runs of all children of `n`.
pub fn collect_children(n: &MdNode, st: TextStyle, out: &mut Vec<InlineSpan>)
    ensures
        spans_view(final(out)@) == collect_inline_list(n@.children, st, spans_view(old(out)@)),
    decreases n, 0nat,
{
    let mut i: usize = 0;
    proof {
        lemma_nodes_view(n.children@);
    }
    assert(n@.children.skip(0) == n@.children);
    while i < n.children.len()
        invariant
            i <= n.children.len(),
            n@.children.len() == n.children@.len(),
            forall|k: int| 0 <= k < n.children.len() ==> #[trigger] n@.children[k] == node_view(
                n.children@[k],
            ),
            collect_inline_list(n@.children, st, spans_view(old(out)@)) == collect_inline_list(
                n@.children.skip(i as int),
                st,
                spans_view(out@),
            ),
        decreases n.children.len() - i,
    {
        let ghost rest = n@.children.skip(i as int);
        assert(rest[0] == n@.children[i as int]);
        assert(rest.drop_first() == n@.children.skip(i + 1));
        collect_inline_spans(&n.children[i], st, out);
        i += 1;
    }
    assert(n@.children.skip(n.children.len() as int) =~= Seq::<NodeV>::empty());
}

/// The runs of a paragraph or heading node.
pub fn paragraph_spans_exec(p: &MdNode) -> (r: Vec<InlineSpan>)
    ensures
        spans_view(r@) == paragraph_spans(p@),
{
    let mut out: Vec<InlineSpan> = Vec::new();
    assert(spans_view(out@) =~= Seq::<SpanV>::empty());
    collect_children(p, TextStyle::default(), &mut out);
    merge_adjacent_spans(&mut out);
    out
}

/// The runs of a list item.
pub fn item_first_paragraph_spans(item: &MdNode) -> (r: Vec<InlineSpan>)
    ensures
        spans_view(r@) == item_spans(item@),
{
    let mut i: usize = 0;
    proof {
        lemma_nodes_view(item.children@);
    }
    assert(item@.children.skip(0) == item@.children);
    while i < item.children.len()
        invariant
            i <= item.children.len(),
            item@.children.len() == item.children@.len(),
            forall|k: int| 0 <= k < item.children.len() ==> #[trigger] item@.children[k]
                == node_view(item.children@[k]),
            first_paragraph(item@.children) == first_paragraph(item@.children.skip(i as int)),
        decreases item.children.len() - i,
    {
        let ghost rest = item@.children.skip(i as int);
        assert(rest[0] == item@.children[i as int]);
        assert(rest.drop_first() == item@.children.skip(i + 1));
        if item.children[i].tag == NodeTag::Paragraph {
            return paragraph_spans_exec(&item.children[i]);
        }
        i += 1;
    }
    assert(item@.children.skip(item.children.len() as int) =~= Seq::<NodeV>::empty());
    let mut out: Vec<InlineSpan> = Vec::new();
    assert(spans_view(out@) =~= Seq::<SpanV>::empty());
    collect_children(item, TextStyle::default(), &mut out);
    merge_adjacent_spans(&mut out);
    out
}

} // verus!
