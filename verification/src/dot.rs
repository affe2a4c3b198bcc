//! A whole graph as a drawing in the DOT language.
use std::collections::HashSet;
use vstd::prelude::*;

use crate::label::{escape_label, escaped, wrap_label, wrapped};
use crate::model::{Edge, EdgeView, Node, NodeView};
use crate::text::{decimal, push_decimal};

verus! {

/// A font that comes with macOS and has all CJK characters. Older versions of
/// Graphviz do not find Helvetica or PingFang SC and draw empty boxes.
pub const FONT: &'static str = "STHeiti";

/// The width of node labels in characters, a CJK character counting as one.
pub const WRAP_WIDTH: usize = 16;

/// The label of a node with the text `s`.
pub open spec fn node_label(s: Seq<char>) -> Seq<char> {
    wrapped(s, WRAP_WIDTH as nat)
}

/// The first lines of a drawing: what the graph is called, and the style of
/// its nodes. The name is already escaped.
pub open spec fn opening(name: Seq<char>) -> Seq<char> {
    "digraph \""@ + name + "\" {\n"@ + "  rankdir=LR;\n"@
        + "  graph [splines=true, overlap=false, bgcolor=\"#fafafa\"];\n"@
        + "  node  [shape=box, style=\"rounded,filled\", fillcolor=\"#ffffff\", color=\"#888888\", fontname=\""@
        + FONT@ + "\", fontsize=11];\n"@
}

/// Appends the first lines of a drawing.
pub(crate) fn push_opening(out: &mut String, name: &str)
    ensures
        final(out)@ == old(out)@ + opening(name@),
{
    let ghost before = out@;
    out.push_str("digraph \"");
    out.push_str(name);
    out.push_str("\" {\n");
    out.push_str("  rankdir=LR;\n");
    out.push_str("  graph [splines=true, overlap=false, bgcolor=\"#fafafa\"];\n");
    out.push_str(
        "  node  [shape=box, style=\"rounded,filled\", fillcolor=\"#ffffff\", color=\"#888888\", fontname=\"",
    );
    out.push_str(FONT);
    out.push_str("\", fontsize=11];\n");
    assert(out@ =~= before + opening(name@));
}

/// The line that draws node `n`, with more attributes after the usual ones.
pub open spec fn node_line(n: NodeView, more: Seq<char>) -> Seq<char> {
    "  n"@ + decimal(n.id as int) + " [label=\""@ + node_label(n.content) + "\", tooltip=\""@
        + escaped(n.content) + "\""@ + more + "];\n"@
}

/// Appends the line that draws node `n`.
pub(crate) fn push_node_line(out: &mut String, n: &Node, more: &str)
    ensures
        final(out)@ == old(out)@ + node_line(n@, more@),
{
    let ghost before = out@;
    out.push_str("  n");
    push_decimal(out, n.id);
    out.push_str(" [label=\"");
    out.push_str(wrap_label(n.content.as_str(), WRAP_WIDTH).as_str());
    out.push_str("\", tooltip=\"");
    out.push_str(escape_label(n.content.as_str()).as_str());
    out.push_str("\"");
    out.push_str(more);
    out.push_str("];\n");
    assert(out@ =~= before + node_line(n@, more@));
}

/// The line that draws a node of the graph.
pub open spec fn plain_node_line() -> spec_fn(NodeView) -> Seq<char> {
    |n: NodeView| node_line(n, ""@)
}

/// The style of all edges.
pub open spec fn edge_style() -> Seq<char> {
    "  edge  [color=\"#888888\", fontname=\""@ + FONT@ + "\", fontsize=10];\n\n"@
}

/// The line that draws the root: a node for the graph itself, with its name.
pub open spec fn root_line(graph_name: Seq<char>) -> Seq<char> {
    "  graph_root [label=\""@ + node_label(graph_name)
        + "\", shape=ellipse, fillcolor=\"#e8eef9\", color=\"#3a73e8\", fontsize=13];\n"@
}

/// Whether node `id` is a reply.
pub open spec fn is_reply(edges: Seq<EdgeView>, id: i64) -> bool {
    exists|i: int|
        0 <= i < edges.len() && (#[trigger] edges[i]).kind == "reply"@ && edges[i].to_node_id == id
}

/// Whether a node is no reply.
pub open spec fn is_top_level(edges: Seq<EdgeView>) -> spec_fn(NodeView) -> bool {
    |n: NodeView| !is_reply(edges, n.id)
}

/// The line that links the root to a node.
pub open spec fn root_link() -> spec_fn(NodeView) -> Seq<char> {
    |n: NodeView|
        "  graph_root -> n"@ + decimal(n.id as int)
            + " [arrowhead=vee, color=\"#3a73e8\", penwidth=1.4];\n"@
}

/// How edges of the given kind differ from the usual style.
pub open spec fn kind_style(kind: Seq<char>) -> Seq<char> {
    if kind == "ref"@ {
        ", style=dashed, color=\"#cc5555\", constraint=false"@
    } else {
        seq![]
    }
}

/// The attribute for the label of an edge, if it has one.
pub open spec fn label_attribute(label: Seq<char>) -> Seq<char> {
    if label.len() == 0 {
        seq![]
    } else {
        ", label=\""@ + escaped(label) + "\""@
    }
}

/// The start of the line that draws an arrow from one node to another.
pub open spec fn arrow(tail: i64, head: i64) -> Seq<char> {
    "  n"@ + decimal(tail as int) + " -> n"@ + decimal(head as int) + " [arrowhead=vee"@
}

/// The line that draws an edge of the graph.
pub open spec fn edge_line() -> spec_fn(EdgeView) -> Seq<char> {
    |e: EdgeView|
        arrow(e.from_node_id, e.to_node_id) + kind_style(e.kind) + label_attribute(e.label)
            + "];\n"@
}

/// The drawing of a graph: the root, the nodes in their order, a link from
/// the root to each node that is no reply, and the edges in their order.
pub open spec fn dot_text(
    graph_name: Seq<char>,
    nodes: Seq<NodeView>,
    edges: Seq<EdgeView>,
) -> Seq<char> {
    opening(escaped(graph_name)) + edge_style() + root_line(graph_name) + nodes.flat_map(
        plain_node_line(),
    ) + "\n"@ + nodes.filter(is_top_level(edges)).flat_map(root_link()) + edges.flat_map(
        edge_line(),
    ) + "}\n"@
}

/// The nodes that are replies.
fn reply_ids(edges: &[Edge]) -> (ids: HashSet<i64>)
    ensures
        forall|id: i64| #[trigger] ids@.contains(id) <==> is_reply(edges.deep_view(), id),
{
    broadcast use vstd::std_specs::hash::group_hash_axioms;

    let ghost es = edges.deep_view();
    let mut ids: HashSet<i64> = HashSet::new();
    let mut k: usize = 0;
    while k < edges.len()
        invariant
            k <= edges.len(),
            es == edges.deep_view(),
            forall|id: i64| #[trigger]
                ids@.contains(id) <==> exists|i: int|
                    0 <= i < k && (#[trigger] es[i]).kind == "reply"@ && es[i].to_node_id == id,
        decreases edges.len() - k,
    {
        let e = &edges[k];
        assert(es[k as int] == e@);
        if *e.kind.as_str() == *"reply" {
            ids.insert(e.to_node_id);
        }
        k += 1;
    }
    ids
}

/// Appends the start of the line that draws an arrow.
pub(crate) fn push_arrow(out: &mut String, tail: i64, head: i64)
    ensures
        final(out)@ == old(out)@ + arrow(tail, head),
{
    let ghost before = out@;
    out.push_str("  n");
    push_decimal(out, tail);
    out.push_str(" -> n");
    push_decimal(out, head);
    out.push_str(" [arrowhead=vee");
    assert(out@ =~= before + arrow(tail, head));
}

fn push_edge_line(out: &mut String, e: &Edge)
    ensures
        final(out)@ == old(out)@ + edge_line()(e@),
{
    let ghost before = out@;
    push_arrow(out, e.from_node_id, e.to_node_id);
    if *e.kind.as_str() == *"ref" {
        out.push_str(", style=dashed, color=\"#cc5555\", constraint=false");
    }
    if !e.label.as_str().is_empty() {
        out.push_str(", label=\"");
        out.push_str(escape_label(e.label.as_str()).as_str());
        out.push_str("\"");
    }
    out.push_str("];\n");
    assert(out@ =~= before + edge_line()(e@));
}

fn push_root_link(out: &mut String, n: &Node)
    ensures
        final(out)@ == old(out)@ + root_link()(n@),
{
    let ghost before = out@;
    out.push_str("  graph_root -> n");
    push_decimal(out, n.id);
    out.push_str(" [arrowhead=vee, color=\"#3a73e8\", penwidth=1.4];\n");
    assert(out@ =~= before + root_link()(n@));
}

fn push_root_links(out: &mut String, nodes: &[Node], edges: &[Edge])
    ensures
        final(out)@ == old(out)@ + nodes.deep_view().filter(
            is_top_level(edges.deep_view()),
        ).flat_map(root_link()),
{
    broadcast use vstd::std_specs::hash::group_hash_axioms;

    let ghost before = out@;
    let ghost ns = nodes.deep_view();
    let ghost top = is_top_level(edges.deep_view());
    let replies = reply_ids(edges);
    let mut k: usize = 0;
    proof {
        ns.take(0).lemma_filter_len(top);
        assert(ns.take(0).filter(top) =~= Seq::empty());
        crate::seqs::lemma_flat_map_empty(root_link());
        assert(out@ =~= before + ns.take(0).filter(top).flat_map(root_link()));
    }
    while k < nodes.len()
        invariant
            k <= nodes.len(),
            ns == nodes.deep_view(),
            top == is_top_level(edges.deep_view()),
            forall|id: i64| #[trigger] replies@.contains(id) <==> is_reply(edges.deep_view(), id),
            out@ == before + ns.take(k as int).filter(top).flat_map(root_link()),
        decreases nodes.len() - k,
    {
        let n = &nodes[k];
        let ghost done = ns.take(k as int);
        proof {
            assert(ns.take(k + 1) =~= done.push(n@));
            done.lemma_filter_push(n@, top);
            done.filter(top).lemma_flat_map_push(root_link(), n@);
        }
        if !replies.contains(&n.id) {
            push_root_link(out, n);
        }
        assert(out@ =~= before + ns.take(k + 1).filter(top).flat_map(root_link()));
        k += 1;
    }
    assert(ns.take(nodes.len() as int) =~= ns);
}

fn push_node_lines(out: &mut String, nodes: &[Node])
    ensures
        final(out)@ == old(out)@ + nodes.deep_view().flat_map(plain_node_line()),
{
    let ghost before = out@;
    let ghost ns = nodes.deep_view();
    let mut k: usize = 0;
    proof {
        assert(ns.take(0) =~= Seq::empty());
        crate::seqs::lemma_flat_map_empty(plain_node_line());
        assert(out@ =~= before + ns.take(0).flat_map(plain_node_line()));
    }
    while k < nodes.len()
        invariant
            k <= nodes.len(),
            ns == nodes.deep_view(),
            out@ == before + ns.take(k as int).flat_map(plain_node_line()),
        decreases nodes.len() - k,
    {
        proof {
            ns.lemma_flat_map_take_append(plain_node_line(), k as int);
        }
        push_node_line(out, &nodes[k], "");
        assert(out@ =~= before + ns.take(k + 1).flat_map(plain_node_line()));
        k += 1;
    }
    assert(ns.take(nodes.len() as int) =~= ns);
}

fn push_edge_lines(out: &mut String, edges: &[Edge])
    ensures
        final(out)@ == old(out)@ + edges.deep_view().flat_map(edge_line()),
{
    let ghost before = out@;
    let ghost es = edges.deep_view();
    let mut k: usize = 0;
    proof {
        assert(es.take(0) =~= Seq::empty());
        crate::seqs::lemma_flat_map_empty(edge_line());
        assert(out@ =~= before + es.take(0).flat_map(edge_line()));
    }
    while k < edges.len()
        invariant
            k <= edges.len(),
            es == edges.deep_view(),
            out@ == before + es.take(k as int).flat_map(edge_line()),
        decreases edges.len() - k,
    {
        proof {
            es.lemma_flat_map_take_append(edge_line(), k as int);
        }
        push_edge_line(out, &edges[k]);
        assert(out@ =~= before + es.take(k + 1).flat_map(edge_line()));
        k += 1;
    }
    assert(es.take(edges.len() as int) =~= es);
}

/// Draws a graph in the DOT language.
///
/// Besides its nodes and edges the drawing has a root node with the name of
/// the graph, linked to every node that is no reply to another.
pub fn render_dot(graph_name: &str, nodes: &[Node], edges: &[Edge]) -> (out: String)
    ensures
        out@ == dot_text(graph_name@, nodes.deep_view(), edges.deep_view()),
{
    let mut out = String::new();
    push_opening(&mut out, escape_label(graph_name).as_str());
    out.push_str("  edge  [color=\"#888888\", fontname=\"");
    out.push_str(FONT);
    out.push_str("\", fontsize=10];\n\n");
    out.push_str("  graph_root [label=\"");
    out.push_str(wrap_label(graph_name, WRAP_WIDTH).as_str());
    out.push_str(
        "\", shape=ellipse, fillcolor=\"#e8eef9\", color=\"#3a73e8\", fontsize=13];\n",
    );
    assert(out@ =~= opening(escaped(graph_name@)) + edge_style() + root_line(graph_name@));
    push_node_lines(&mut out, nodes);
    out.push_str("\n");
    push_root_links(&mut out, nodes, edges);
    push_edge_lines(&mut out, edges);
    out.push_str("}\n");
    out
}

/// Every node of a graph is either linked to the root of its drawing, or the
/// reply at the end of a reply edge, and not both.
pub proof fn law_every_node_has_its_place(
    nodes: Seq<NodeView>,
    edges: Seq<EdgeView>,
    n: NodeView,
)
    requires
        nodes.contains(n),
    ensures
        nodes.filter(is_top_level(edges)).contains(n) <==> !is_reply(edges, n.id),
{
    let top = is_top_level(edges);
    let kept = nodes.filter(top);
    let i = choose|i: int| 0 <= i < nodes.len() && nodes[i] == n;
    if top(n) {
        nodes.lemma_filter_contains(top, i);
    }
    if kept.contains(n) {
        let k = choose|k: int| 0 <= k < kept.len() && kept[k] == n;
        nodes.lemma_filter_pred(top, k);
    }
}

/// Nodes with different ids have different names in a drawing.
pub proof fn law_node_names_differ(a: i64, b: i64)
    requires
        "n"@ + decimal(a as int) == "n"@ + decimal(b as int),
    ensures
        a == b,
{
    let n = "n"@.len() as int;
    assert(("n"@ + decimal(a as int)).skip(n) =~= decimal(a as int));
    assert(("n"@ + decimal(b as int)).skip(n) =~= decimal(b as int));
    crate::text::law_decimals_differ(a as int, b as int);
}

} // verus!
