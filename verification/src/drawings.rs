//! What drawings show: every node, every edge and every step of a path, each
//! on a line of its own, and nothing else.
use vstd::prelude::*;

use crate::color::{law_colors_are_hexadecimal, path_color};
use crate::dot::{
    arrow, dot_text, edge_line, edge_style, is_reply, is_top_level, node_label, node_line, opening,
    plain_node_line, root_line, root_link,
};
use crate::label::{escaped, wrapped};
use crate::label_laws::{is_quotable, law_escaped_text_is_quotable, law_labels_are_quotable};
use crate::model::{EdgeView, HitView, NodeView, StepView};
use crate::paths_dot::{
    all_nodes, end_style, first_with_id, lemma_first_with_id, nodes_of, path_lines,
    path_node_line, paths_text, search_ends, step_label, step_line, step_lines,
};
use crate::seqs;
use crate::text::{decimal, digits, law_decimals_are_read_back};

verus! {

/// How many lines end among the first `n` characters of `t`.
pub open spec fn line_ends_in(t: Seq<char>, n: nat) -> nat
    decreases n,
{
    if n == 0 {
        0
    } else {
        line_ends_in(t, (n - 1) as nat) + if t[n - 1] == '\n' {
            1nat
        } else {
            0
        }
    }
}

/// How many lines the text has, each with a line break behind it.
pub open spec fn line_ends(t: Seq<char>) -> nat {
    line_ends_in(t, t.len())
}

proof fn lemma_line_ends_in_add(a: Seq<char>, b: Seq<char>, n: nat)
    requires
        n <= a.len() + b.len(),
    ensures
        n <= a.len() ==> line_ends_in(a + b, n) == line_ends_in(a, n),
        n >= a.len() ==> line_ends_in(a + b, n) == line_ends_in(a, a.len()) + line_ends_in(
            b,
            (n - a.len()) as nat,
        ),
    decreases n,
{
    if n > 0 {
        lemma_line_ends_in_add(a, b, (n - 1) as nat);
    }
}

broadcast proof fn lemma_line_ends_add(a: Seq<char>, b: Seq<char>)
    ensures
        #[trigger] line_ends(a + b) == line_ends(a) + line_ends(b),
{
    lemma_line_ends_in_add(a, b, (a + b).len());
}

proof fn lemma_no_line_ends(t: Seq<char>, n: nat)
    requires
        n <= t.len(),
        forall|i: int| 0 <= i < t.len() ==> #[trigger] t[i] != '\n',
    ensures
        line_ends_in(t, n) == 0,
    decreases n,
{
    if n > 0 {
        lemma_no_line_ends(t, (n - 1) as nat);
    }
}

proof fn lemma_quotable_is_one_line(t: Seq<char>)
    requires
        is_quotable(t),
    ensures
        forall|i: int| 0 <= i < t.len() ==> #[trigger] t[i] != '\n',
        line_ends(t) == 0,
    decreases t.len(),
{
    if t.len() > 0 {
        let k: int = if t[0] == '\\' {
            2
        } else {
            1
        };
        lemma_quotable_is_one_line(t.skip(k));
        assert forall|i: int| 0 <= i < t.len() implies #[trigger] t[i] != '\n' by {
            if i >= k {
                assert(t.skip(k)[i - k] != '\n');
            }
        }
    }
    lemma_no_line_ends(t, t.len());
}

proof fn lemma_escaped_is_one_line(s: Seq<char>)
    ensures
        line_ends(escaped(s)) == 0,
{
    law_escaped_text_is_quotable(s);
    lemma_quotable_is_one_line(escaped(s));
}

proof fn lemma_label_is_one_line(s: Seq<char>)
    ensures
        line_ends(node_label(s)) == 0,
{
    law_labels_are_quotable(s, 16);
    lemma_quotable_is_one_line(node_label(s));
}

proof fn lemma_decimal_is_one_line(n: int)
    ensures
        line_ends(decimal(n)) == 0,
{
    let t = decimal(n);
    law_decimals_are_read_back(n);
    assert forall|i: int| 0 <= i < t.len() implies #[trigger] t[i] != '\n' by {
        if n < 0 && i > 0 {
            assert(t.skip(1)[i - 1] == t[i]);
        }
    }
    lemma_no_line_ends(t, t.len());
}

proof fn lemma_opening_lines(name: Seq<char>)
    ensures
        line_ends(opening(name)) == 4 + line_ends(name),
{
    broadcast use lemma_line_ends_add;

    lemma_opening_words();
    lemma_graph_style_lines();
    lemma_node_style_lines();
}

proof fn lemma_opening_words()
    ensures
        line_ends("digraph \""@) == 0,
        line_ends("\" {\n"@) == 1,
        line_ends("  rankdir=LR;\n"@) == 1,
        line_ends("STHeiti"@) == 0,
        line_ends("\", fontsize=11];\n"@) == 1,
        line_ends("paths · "@) == 0,
{
    reveal_strlit("digraph \"");
    reveal_strlit("\" {\n");
    reveal_strlit("  rankdir=LR;\n");
    reveal_strlit("STHeiti");
    reveal_strlit("\", fontsize=11];\n");
    reveal_strlit("paths · ");
    reveal_with_fuel(line_ends_in, 19);
}

proof fn lemma_graph_style_lines()
    ensures
        line_ends("  graph [splines=true, overlap=false, bgcolor=\"#fafafa\"];\n"@) == 1,
{
    reveal_strlit("  graph [splines=true, overlap=false, bgcolor=\"#fafafa\"];\n");
    reveal_with_fuel(line_ends_in, 60);
}

proof fn lemma_node_style_lines()
    ensures
        line_ends("  node  [shape=box, style=\"rounded,filled\", fillcolor=\"#ffffff\", color=\"#888888\", fontname=\""@) == 0,
{
    reveal_strlit("  node  [shape=box, style=\"rounded,filled\", fillcolor=\"#ffffff\", color=\"#888888\", fontname=\"");
    let t = "  node  [shape=box, style=\"rounded,filled\", fillcolor=\"#ffffff\", color=\"#888888\", fontname=\""@;
    assert(line_ends_in(t, 31) == 0) by {
        reveal_with_fuel(line_ends_in, 32);
    }
    assert(line_ends_in(t, 62) == 0) by {
        reveal_with_fuel(line_ends_in, 32);
    }
    reveal_with_fuel(line_ends_in, 33);
}

proof fn lemma_edge_style_words()
    ensures
        line_ends("  edge  [color=\"#888888\", fontname=\""@) == 0,
        line_ends("STHeiti"@) == 0,
        line_ends("\", fontsize=10];\n\n"@) == 2,
        line_ends("  edge  [fontname=\""@) == 0,
        line_ends("\", fontsize=10, penwidth=2];\n\n"@) == 2,
{
    reveal_strlit("  edge  [color=\"#888888\", fontname=\"");
    reveal_strlit("STHeiti");
    reveal_strlit("\", fontsize=10];\n\n");
    reveal_strlit("  edge  [fontname=\"");
    reveal_strlit("\", fontsize=10, penwidth=2];\n\n");
    reveal_with_fuel(line_ends_in, 38);
}

proof fn lemma_root_words()
    ensures
        line_ends("  graph_root [label=\""@) == 0,
        line_ends("\", shape=ellipse, fillcolor=\"#e8eef9\", color=\"#3a73e8\", fontsize=13];\n"@) == 1,
{
    reveal_strlit("  graph_root [label=\"");
    reveal_strlit("\", shape=ellipse, fillcolor=\"#e8eef9\", color=\"#3a73e8\", fontsize=13];\n");
    reveal_with_fuel(line_ends_in, 72);
}

proof fn lemma_link_words()
    ensures
        line_ends("  graph_root -> n"@) == 0,
        line_ends(" [arrowhead=vee, color=\"#3a73e8\", penwidth=1.4];\n"@) == 1,
{
    reveal_strlit("  graph_root -> n");
    reveal_strlit(" [arrowhead=vee, color=\"#3a73e8\", penwidth=1.4];\n");
    reveal_with_fuel(line_ends_in, 51);
}

proof fn lemma_head_lines(graph_name: Seq<char>)
    ensures
        line_ends(edge_style()) == 2,
        line_ends(root_line(graph_name)) == 1,
{
    broadcast use lemma_line_ends_add;

    lemma_edge_style_words();
    lemma_root_words();
    lemma_label_is_one_line(graph_name);
}

proof fn lemma_node_lines(n: NodeView, more: Seq<char>)
    ensures
        line_ends(node_line(n, more)) == 1 + line_ends(more),
{
    broadcast use lemma_line_ends_add;

    lemma_node_words();
    lemma_decimal_is_one_line(n.id as int);
    lemma_label_is_one_line(n.content);
    lemma_escaped_is_one_line(n.content);
}

proof fn lemma_node_words()
    ensures
        line_ends("  n"@) == 0,
        line_ends(" [label=\""@) == 0,
        line_ends("\", tooltip=\""@) == 0,
        line_ends("\""@) == 0,
        line_ends("];\n"@) == 1,
        line_ends(" -> n"@) == 0,
        line_ends(" [arrowhead=vee"@) == 0,
{
    reveal_strlit("  n");
    reveal_strlit(" [label=\"");
    reveal_strlit("\", tooltip=\"");
    reveal_strlit("\"");
    reveal_strlit("];\n");
    reveal_strlit(" -> n");
    reveal_strlit(" [arrowhead=vee");
    reveal_with_fuel(line_ends_in, 16);
}

proof fn lemma_link_lines(n: NodeView)
    ensures
        line_ends(root_link()(n)) == 1,
{
    broadcast use lemma_line_ends_add;

    lemma_link_words();
    lemma_decimal_is_one_line(n.id as int);
}

proof fn lemma_arrow_lines(tail: i64, head: i64)
    ensures
        line_ends(arrow(tail, head)) == 0,
{
    broadcast use lemma_line_ends_add;

    lemma_node_words();
    lemma_decimal_is_one_line(tail as int);
    lemma_decimal_is_one_line(head as int);
}

proof fn lemma_edge_words()
    ensures
        line_ends(", style=dashed, color=\"#cc5555\", constraint=false"@) == 0,
        line_ends(", label=\""@) == 0,
        line_ends("\""@) == 0,
        line_ends("];\n"@) == 1,
        line_ends(Seq::<char>::empty()) == 0,
{
    reveal_strlit(", style=dashed, color=\"#cc5555\", constraint=false");
    reveal_strlit(", label=\"");
    reveal_strlit("\"");
    reveal_strlit("];\n");
    reveal_with_fuel(line_ends_in, 51);
}

proof fn lemma_edge_lines(e: EdgeView)
    ensures
        line_ends(edge_line()(e)) == 1,
{
    broadcast use lemma_line_ends_add;

    lemma_edge_words();
    lemma_arrow_lines(e.from_node_id, e.to_node_id);
    lemma_escaped_is_one_line(e.label);
}

proof fn lemma_lines_of_all<A>(s: Seq<A>, f: spec_fn(A) -> Seq<char>)
    requires
        forall|x: A| line_ends(#[trigger] f(x)) == 1,
    ensures
        line_ends(s.flat_map(f)) == s.len(),
    decreases s.len(),
{
    if s.len() == 0 {
        seqs::lemma_flat_map_empty(f);
        assert(s =~= Seq::empty());
    } else {
        let init = s.drop_last();
        lemma_lines_of_all(init, f);
        init.lemma_flat_map_push(f, s.last());
        assert(init.push(s.last()) =~= s);
        lemma_line_ends_add(init.flat_map(f), f(s.last()));
    }
}

/// The drawing of a graph has a line for each node, one for each edge, one
/// for each node that no reply edge leads to, and nine others.
pub proof fn law_lines_of_a_drawing(
    graph_name: Seq<char>,
    nodes: Seq<NodeView>,
    edges: Seq<EdgeView>,
)
    ensures
        line_ends(dot_text(graph_name, nodes, edges)) == 9 + nodes.len() + edges.len()
            + nodes.filter(
            |n: NodeView|
                !exists|i: int|
                    0 <= i < edges.len() && (#[trigger] edges[i]).kind == "reply"@
                        && edges[i].to_node_id == n.id,
        ).len(),
{
    broadcast use lemma_line_ends_add;

    let top = |n: NodeView|
        !exists|i: int|
            0 <= i < edges.len() && (#[trigger] edges[i]).kind == "reply"@ && edges[i].to_node_id
                == n.id;
    assert(top =~= is_top_level(edges));
    lemma_opening_lines(escaped(graph_name));
    lemma_escaped_is_one_line(graph_name);
    lemma_head_lines(graph_name);
    lemma_line_of_each();
    lemma_lines_of_all(nodes, plain_node_line());
    lemma_lines_of_all(nodes.filter(top), root_link());
    lemma_lines_of_all(edges, edge_line());
    lemma_last_words();
}

/// The drawing of a graph without nodes and edges.
pub proof fn law_drawing_of_an_empty_graph(graph_name: Seq<char>)
    ensures
        dot_text(graph_name, seq![], seq![]) == "digraph \""@ + escaped(graph_name) + "\" {\n"@
            + "  rankdir=LR;\n"@
            + "  graph [splines=true, overlap=false, bgcolor=\"#fafafa\"];\n"@
            + "  node  [shape=box, style=\"rounded,filled\", fillcolor=\"#ffffff\", color=\"#888888\", fontname=\""@
            + "STHeiti"@ + "\", fontsize=11];\n"@ + "  edge  [color=\"#888888\", fontname=\""@
            + "STHeiti"@ + "\", fontsize=10];\n\n"@ + "  graph_root [label=\""@ + wrapped(
            graph_name,
            16,
        ) + "\", shape=ellipse, fillcolor=\"#e8eef9\", color=\"#3a73e8\", fontsize=13];\n"@ + "\n"@
            + "}\n"@,
{
    let none = Seq::<NodeView>::empty();
    seqs::lemma_flat_map_empty(plain_node_line());
    seqs::lemma_flat_map_empty(root_link());
    seqs::lemma_flat_map_empty(edge_line());
    none.lemma_filter_len(is_top_level(seq![]));
    assert(none.filter(is_top_level(seq![])) =~= none);
    assert(Seq::<NodeView>::empty() =~= seq![]);
    assert(Seq::<EdgeView>::empty() =~= seq![]);
    assert(dot_text(graph_name, seq![], seq![]) =~= "digraph \""@ + escaped(graph_name)
        + "\" {\n"@ + "  rankdir=LR;\n"@
        + "  graph [splines=true, overlap=false, bgcolor=\"#fafafa\"];\n"@
        + "  node  [shape=box, style=\"rounded,filled\", fillcolor=\"#ffffff\", color=\"#888888\", fontname=\""@
        + "STHeiti"@ + "\", fontsize=11];\n"@ + "  edge  [color=\"#888888\", fontname=\""@
        + "STHeiti"@ + "\", fontsize=10];\n\n"@ + "  graph_root [label=\""@ + wrapped(
        graph_name,
        16,
    ) + "\", shape=ellipse, fillcolor=\"#e8eef9\", color=\"#3a73e8\", fontsize=13];\n"@ + "\n"@
        + "}\n"@);
}

proof fn lemma_edge_line(e: EdgeView)
    ensures
        edge_line()(e) == "  n"@ + decimal(e.from_node_id as int) + " -> n"@ + decimal(
            e.to_node_id as int,
        ) + " [arrowhead=vee"@ + (if e.kind == "ref"@ {
            ", style=dashed, color=\"#cc5555\", constraint=false"@
        } else {
            seq![]
        }) + (if e.label.len() == 0 {
            seq![]
        } else {
            ", label=\""@ + escaped(e.label) + "\""@
        }) + "];\n"@,
{
}

proof fn lemma_top_level_push(nodes: Seq<NodeView>, edges: Seq<EdgeView>, e: EdgeView)
    requires
        e.kind == "reply"@ ==> forall|k: int|
            0 <= k < nodes.len() && (#[trigger] nodes[k]).id == e.to_node_id ==> exists|i: int|
                0 <= i < edges.len() && (#[trigger] edges[i]).kind == "reply"@
                    && edges[i].to_node_id == e.to_node_id,
    ensures
        nodes.filter(is_top_level(edges.push(e))) == nodes.filter(is_top_level(edges)),
{
    let (f, g) = (is_top_level(edges), is_top_level(edges.push(e)));
    let all = edges.push(e);
    assert forall|k: int| 0 <= k < nodes.len() implies f(#[trigger] nodes[k]) == g(nodes[k]) by {
        let id = nodes[k].id;
        if is_reply(edges, id) {
            let i = choose|i: int|
                0 <= i < edges.len() && (#[trigger] edges[i]).kind == "reply"@
                    && edges[i].to_node_id == id;
            assert(all[i] == edges[i]);
        }
        if is_reply(all, id) {
            let i = choose|i: int|
                0 <= i < all.len() && (#[trigger] all[i]).kind == "reply"@ && all[i].to_node_id
                    == id;
            if i < edges.len() {
                assert(all[i] == edges[i]);
            }
        }
    }
    seqs::lemma_filter_agrees(nodes, f, g);
}

proof fn lemma_closing(t: Seq<char>, head: Seq<char>)
    requires
        t == head + "}\n"@,
    ensures
        t.len() >= 2,
        t.take(t.len() - 2) == head,
        t.skip(t.len() - 2) == "}\n"@,
{
    reveal_strlit("}\n");
    assert(t.take(t.len() - 2) =~= head);
    assert(t.skip(t.len() - 2) =~= "}\n"@);
}

/// One more edge is one more line at the end of the drawing. The line has an
/// arrow from the one node to the other; it is dashed and red and leaves the
/// ranks alone if and only if the edge is a reference; and it has the label of
/// the edge, if there is one. An edge that makes a node a reply also takes
/// away the link from the root to that node, and is left out here.
pub proof fn law_one_more_edge(
    graph_name: Seq<char>,
    nodes: Seq<NodeView>,
    edges: Seq<EdgeView>,
    e: EdgeView,
)
    requires
        e.kind == "reply"@ ==> forall|k: int|
            0 <= k < nodes.len() && (#[trigger] nodes[k]).id == e.to_node_id ==> exists|i: int|
                0 <= i < edges.len() && (#[trigger] edges[i]).kind == "reply"@
                    && edges[i].to_node_id == e.to_node_id,
    ensures
        dot_text(graph_name, nodes, edges.push(e)) == dot_text(graph_name, nodes, edges).take(
            dot_text(graph_name, nodes, edges).len() - 2,
        ) + ("  n"@ + decimal(e.from_node_id as int) + " -> n"@ + decimal(e.to_node_id as int)
            + " [arrowhead=vee"@ + (if e.kind == "ref"@ {
            ", style=dashed, color=\"#cc5555\", constraint=false"@
        } else {
            seq![]
        }) + (if e.label.len() == 0 {
            seq![]
        } else {
            ", label=\""@ + escaped(e.label) + "\""@
        }) + "];\n"@) + "}\n"@,
        dot_text(graph_name, nodes, edges).skip(dot_text(graph_name, nodes, edges).len() - 2)
            == "}\n"@,
{
    let t = dot_text(graph_name, nodes, edges);
    let above = opening(escaped(graph_name)) + edge_style() + root_line(graph_name)
        + nodes.flat_map(plain_node_line()) + "\n"@ + nodes.filter(is_top_level(edges)).flat_map(
        root_link(),
    );
    lemma_top_level_push(nodes, edges, e);
    edges.lemma_flat_map_push(edge_line(), e);
    lemma_closing(t, above + edges.flat_map(edge_line()));
    lemma_edge_line(e);
    assert(dot_text(graph_name, nodes, edges.push(e)) =~= above + edges.flat_map(edge_line())
        + edge_line()(e) + "}\n"@);
}

/// Every edge has a line in the drawing: an arrow from the one node to the
/// other, and right behind it what marks a reference, if and only if the edge
/// is one, whatever its label.
pub proof fn law_every_edge_is_drawn(
    graph_name: Seq<char>,
    nodes: Seq<NodeView>,
    edges: Seq<EdgeView>,
    i: int,
) -> (around: (Seq<char>, Seq<char>))
    requires
        0 <= i < edges.len(),
    ensures
        around.0 + ("  n"@ + decimal(edges[i].from_node_id as int) + " -> n"@ + decimal(
                edges[i].to_node_id as int,
            ) + " [arrowhead=vee"@ + (if edges[i].kind == "ref"@ {
                ", style=dashed, color=\"#cc5555\", constraint=false"@
            } else {
                seq![]
            }) + (if edges[i].label.len() == 0 {
                seq![]
            } else {
                ", label=\""@ + escaped(edges[i].label) + "\""@
            }) + "];\n"@) + around.1 == dot_text(graph_name, nodes, edges),
{
    let above = opening(escaped(graph_name)) + edge_style() + root_line(graph_name)
        + nodes.flat_map(plain_node_line()) + "\n"@ + nodes.filter(is_top_level(edges)).flat_map(
        root_link(),
    );
    let done = edges.take(i).flat_map(edge_line());
    let line = edge_line()(edges[i]);
    seqs::lemma_flat_map_split(edges, edge_line(), i);
    let after = choose|after: Seq<char>| #[trigger]
        (done + line + after) == edges.flat_map(edge_line());
    lemma_edge_line(edges[i]);
    assert((above + done) + line + (after + "}\n"@) =~= dot_text(graph_name, nodes, edges));
    (above + done, after + "}\n"@)
}

proof fn lemma_plain_node_line(n: NodeView)
    ensures
        plain_node_line()(n) == "  n"@ + decimal(n.id as int) + " [label=\""@ + wrapped(
            n.content,
            16,
        ) + "\", tooltip=\""@ + escaped(n.content) + "\""@ + "];\n"@,
{
    reveal_strlit("");
    let head = "  n"@ + decimal(n.id as int) + " [label=\""@ + wrapped(n.content, 16)
        + "\", tooltip=\""@ + escaped(n.content) + "\""@;
    assert(head + ""@ =~= head);
}

proof fn lemma_last_of_lines<A>(s: Seq<A>, f: spec_fn(A) -> Seq<char>, above: Seq<char>)
    requires
        above.len() > 0,
        above.last() == '\n',
        forall|x: A| (#[trigger] f(x)).len() > 0 && f(x).last() == '\n',
    ensures
        (above + s.flat_map(f)).last() == '\n',
        (above + s.flat_map(f)).len() > 0,
    decreases s.len(),
{
    if s.len() == 0 {
        seqs::lemma_flat_map_empty(f);
        assert(s =~= Seq::empty());
        assert(above + s.flat_map(f) =~= above);
    } else {
        let init = s.drop_last();
        init.lemma_flat_map_push(f, s.last());
        assert(init.push(s.last()) =~= s);
        assert((above + s.flat_map(f)).last() == f(s.last()).last());
    }
}

/// One more node is one more line behind the lines of the other nodes, with
/// its label and its text, and, unless a reply edge leads to it, one more link
/// from the root behind the other links. Nothing else changes.
pub proof fn law_one_more_node(
    graph_name: Seq<char>,
    nodes: Seq<NodeView>,
    edges: Seq<EdgeView>,
    n: NodeView,
) -> (parts: (Seq<char>, Seq<char>, Seq<char>))
    ensures
        dot_text(graph_name, nodes, edges) == parts.0 + parts.1 + parts.2,
        parts.0.len() > 0 && parts.0.last() == '\n',
        line_ends(parts.0) == 7 + nodes.len(),
        parts.1.len() > 0 && parts.1.last() == '\n',
        line_ends(parts.2) == 1 + edges.len(),
        dot_text(graph_name, nodes.push(n), edges) == parts.0 + ("  n"@ + decimal(n.id as int)
            + " [label=\""@ + wrapped(n.content, 16) + "\", tooltip=\""@ + escaped(n.content)
            + "\""@ + "];\n"@) + parts.1 + (if exists|i: int|
            0 <= i < edges.len() && (#[trigger] edges[i]).kind == "reply"@ && edges[i].to_node_id
                == n.id {
            seq![]
        } else {
            "  graph_root -> n"@ + decimal(n.id as int)
                + " [arrowhead=vee, color=\"#3a73e8\", penwidth=1.4];\n"@
        }) + parts.2,
{
    let parts = (
        down_to_nodes(graph_name, nodes),
        down_to_links(nodes, edges),
        edges.flat_map(edge_line()) + "}\n"@,
    );
    lemma_push_node(graph_name, nodes, edges, n);
    lemma_parts(graph_name, nodes, edges);
    lemma_part_lines(graph_name, nodes, edges);
    lemma_plain_node_line(n);
    parts
}

/// The lines of a drawing down to the last node.
spec fn down_to_nodes(graph_name: Seq<char>, nodes: Seq<NodeView>) -> Seq<char> {
    opening(escaped(graph_name)) + edge_style() + root_line(graph_name) + nodes.flat_map(
        plain_node_line(),
    )
}

/// The lines below them, down to the last link from the root.
spec fn down_to_links(nodes: Seq<NodeView>, edges: Seq<EdgeView>) -> Seq<char> {
    "\n"@ + nodes.filter(is_top_level(edges)).flat_map(root_link())
}

proof fn lemma_parts(graph_name: Seq<char>, nodes: Seq<NodeView>, edges: Seq<EdgeView>)
    ensures
        dot_text(graph_name, nodes, edges) == down_to_nodes(graph_name, nodes) + down_to_links(
            nodes,
            edges,
        ) + (edges.flat_map(edge_line()) + "}\n"@),
{
    assert(dot_text(graph_name, nodes, edges) =~= down_to_nodes(graph_name, nodes)
        + down_to_links(nodes, edges) + (edges.flat_map(edge_line()) + "}\n"@));
}

proof fn lemma_push_node(
    graph_name: Seq<char>,
    nodes: Seq<NodeView>,
    edges: Seq<EdgeView>,
    n: NodeView,
)
    ensures
        dot_text(graph_name, nodes.push(n), edges) == down_to_nodes(graph_name, nodes)
            + plain_node_line()(n) + down_to_links(nodes, edges) + (if is_reply(edges, n.id) {
            seq![]
        } else {
            root_link()(n)
        }) + (edges.flat_map(edge_line()) + "}\n"@),
{
    let top = is_top_level(edges);
    let more = nodes.push(n);
    nodes.lemma_flat_map_push(plain_node_line(), n);
    nodes.lemma_filter_push(n, top);
    nodes.filter(top).lemma_flat_map_push(root_link(), n);
    lemma_parts(graph_name, more, edges);
    assert(down_to_nodes(graph_name, more) =~= down_to_nodes(graph_name, nodes)
        + plain_node_line()(n));
    assert(down_to_links(more, edges) =~= down_to_links(nodes, edges) + (if is_reply(
        edges,
        n.id,
    ) {
        seq![]
    } else {
        root_link()(n)
    }));
    let (a, b, c) = (
        down_to_nodes(graph_name, more),
        down_to_links(nodes, edges),
        edges.flat_map(edge_line()) + "}\n"@,
    );
    let d = if is_reply(edges, n.id) {
        seq![]
    } else {
        root_link()(n)
    };
    assert(a + (b + d) + c =~= a + b + d + c);
}

proof fn lemma_part_lines(graph_name: Seq<char>, nodes: Seq<NodeView>, edges: Seq<EdgeView>)
    ensures
        down_to_nodes(graph_name, nodes).len() > 0,
        down_to_nodes(graph_name, nodes).last() == '\n',
        line_ends(down_to_nodes(graph_name, nodes)) == 7 + nodes.len(),
        down_to_links(nodes, edges).len() > 0,
        down_to_links(nodes, edges).last() == '\n',
        line_ends(edges.flat_map(edge_line()) + "}\n"@) == 1 + edges.len(),
{
    broadcast use lemma_line_ends_add;

    let head = opening(escaped(graph_name)) + edge_style() + root_line(graph_name);
    lemma_opening_lines(escaped(graph_name));
    lemma_escaped_is_one_line(graph_name);
    lemma_head_lines(graph_name);
    lemma_line_of_each();
    lemma_lines_of_all(nodes, plain_node_line());
    lemma_lines_of_all(edges, edge_line());
    lemma_last_words();
    lemma_head_ends(graph_name);
    lemma_lines_end();
    lemma_last_of_lines(nodes, plain_node_line(), head);
    lemma_last_of_lines(nodes.filter(is_top_level(edges)), root_link(), "\n"@);
}

proof fn lemma_line_of_each()
    ensures
        forall|n: NodeView| line_ends(#[trigger] plain_node_line()(n)) == 1,
        forall|n: NodeView| line_ends(#[trigger] root_link()(n)) == 1,
        forall|e: EdgeView| line_ends(#[trigger] edge_line()(e)) == 1,
{
    assert forall|n: NodeView| line_ends(#[trigger] plain_node_line()(n)) == 1 by {
        reveal_strlit("");
        lemma_node_lines(n, ""@);
    }
    assert forall|n: NodeView| line_ends(#[trigger] root_link()(n)) == 1 by {
        lemma_link_lines(n);
    }
    assert forall|e: EdgeView| line_ends(#[trigger] edge_line()(e)) == 1 by {
        lemma_edge_lines(e);
    }
}

proof fn lemma_last_words()
    ensures
        line_ends("\n"@) == 1,
        line_ends("}\n"@) == 1,
        "\n"@.len() == 1,
        "\n"@.last() == '\n',
{
    reveal_strlit("\n");
    reveal_strlit("}\n");
    reveal_with_fuel(line_ends_in, 4);
}

proof fn lemma_head_ends(graph_name: Seq<char>)
    ensures
        root_line(graph_name).len() > 0,
        root_line(graph_name).last() == '\n',
{
    reveal_strlit("\", shape=ellipse, fillcolor=\"#e8eef9\", color=\"#3a73e8\", fontsize=13];\n");
}

proof fn lemma_lines_end()
    ensures
        forall|n: NodeView|
            (#[trigger] plain_node_line()(n)).len() > 0 && plain_node_line()(n).last() == '\n',
        forall|n: NodeView|
            (#[trigger] root_link()(n)).len() > 0 && root_link()(n).last() == '\n',
{
    reveal_strlit("];\n");
    reveal_strlit(" [arrowhead=vee, color=\"#3a73e8\", penwidth=1.4];\n");
}

/// How many steps the paths have together.
pub open spec fn steps_in_all(paths: Seq<HitView>) -> nat
    decreases paths.len(),
{
    if paths.len() == 0 {
        0
    } else {
        steps_in_all(paths.drop_last()) + paths.last().steps.len()
    }
}

/// The lines of a drawing of paths down to the last node.
spec fn down_to_path_nodes(
    graph_name: Seq<char>,
    paths: Seq<HitView>,
    order: Seq<i64>,
) -> Seq<char> {
    opening("paths · "@ + escaped(graph_name)) + "  edge  [fontname=\""@ + "STHeiti"@
        + "\", fontsize=10, penwidth=2];\n\n"@ + order.flat_map(path_node_line(paths))
}

proof fn lemma_path_parts(graph_name: Seq<char>, paths: Seq<HitView>, order: Seq<i64>)
    ensures
        paths_text(graph_name, paths, order) == down_to_path_nodes(graph_name, paths, order)
            + "\n"@ + path_lines(paths, paths.len()) + "}\n"@,
{
}

proof fn lemma_path_lines_agree(a: Seq<HitView>, b: Seq<HitView>, n: nat)
    requires
        n <= a.len(),
        n <= b.len(),
        forall|i: int| 0 <= i < n ==> #[trigger] a[i] == b[i],
    ensures
        path_lines(a, n) == path_lines(b, n),
    decreases n,
{
    if n > 0 {
        assert(a[n - 1] == b[n - 1]);
        lemma_path_lines_agree(a, b, (n - 1) as nat);
    }
}

proof fn lemma_step_lines_agree(i: nat, a: HitView, b: HitView, n: nat)
    requires
        a.nodes == b.nodes,
        forall|k: int| 0 <= k < n ==> #[trigger] a.steps[k] == b.steps[k],
    ensures
        step_lines(i, a, n) == step_lines(i, b, n),
    decreases n,
{
    if n > 0 {
        assert(a.steps[n - 1] == b.steps[n - 1]);
        lemma_step_lines_agree(i, a, b, (n - 1) as nat);
    }
}

proof fn lemma_same_nodes_on_paths(a: Seq<HitView>, b: Seq<HitView>)
    requires
        a.len() == b.len(),
        forall|i: int| 0 <= i < a.len() ==> (#[trigger] a[i]).nodes == b[i].nodes,
    ensures
        path_node_line(a) == path_node_line(b),
{
    lemma_same_all_nodes(a, b);
    if a.len() > 0 {
        assert(a[0].nodes == b[0].nodes);
    }
    assert(search_ends(a) == search_ends(b));
    assert(path_node_line(a) =~= path_node_line(b));
}

proof fn lemma_same_all_nodes(a: Seq<HitView>, b: Seq<HitView>)
    requires
        a.len() == b.len(),
        forall|i: int| 0 <= i < a.len() ==> (#[trigger] a[i]).nodes == b[i].nodes,
    ensures
        all_nodes(a) == all_nodes(b),
{
    assert(a.map_values(nodes_of()) =~= b.map_values(nodes_of()));
}

proof fn lemma_step_line(p: nat, from: i64, to: i64, step: StepView)
    ensures
        step_line(p, from, to, step) == ("  n"@ + decimal((if step.reversed {
            to
        } else {
            from
        }) as int) + " -> n"@ + decimal((if step.reversed {
            from
        } else {
            to
        }) as int) + " [arrowhead=vee"@ + ", color=\""@ + path_color(p) + "\""@ + (if step.kind
            == "ref"@ {
            ", style=dashed"@
        } else {
            seq![]
        }) + ", label=\""@ + escaped(if step.label.len() == 0 {
            "p"@ + digits(p + 1)
        } else {
            "p"@ + digits(p + 1) + " · "@ + step.label
        }) + "\"];\n"@),
{
}

/// One more step of the last path is one more line at the end of the drawing:
/// an arrow in the color of the path, in the direction of the edge that the
/// step goes along, with the number of the path and the label of the step.
pub proof fn law_one_more_step(
    graph_name: Seq<char>,
    paths: Seq<HitView>,
    nodes: Seq<NodeView>,
    steps: Seq<StepView>,
    step: StepView,
    order: Seq<i64>,
)
    requires
        steps.len() + 1 < nodes.len(),
    ensures
        ({
            let t = paths_text(graph_name, paths.push(HitView { nodes, steps }), order);
            let k = steps.len() as int;
            &&& t.len() >= 2
            &&& t.skip(t.len() - 2) == "}\n"@
            &&& paths_text(
                graph_name,
                paths.push(HitView { nodes, steps: steps.push(step) }),
                order,
            ) == t.take(t.len() - 2) + ("  n"@ + decimal((if step.reversed {
            nodes[k + 1].id
        } else {
            nodes[k].id
        }) as int) + " -> n"@ + decimal((if step.reversed {
            nodes[k].id
        } else {
            nodes[k + 1].id
        }) as int) + " [arrowhead=vee"@ + ", color=\""@ + path_color(paths.len()) + "\""@ + (if step.kind
            == "ref"@ {
            ", style=dashed"@
        } else {
            seq![]
        }) + ", label=\""@ + escaped(if step.label.len() == 0 {
            "p"@ + digits(paths.len() + 1)
        } else {
            "p"@ + digits(paths.len() + 1) + " · "@ + step.label
        }) + "\"];\n"@) + "}\n"@
        }),
{
    let (hit, longer) = (HitView { nodes, steps }, HitView { nodes, steps: steps.push(step) });
    let (a, b) = (paths.push(hit), paths.push(longer));
    let n = paths.len();
    let k = steps.len();
    let t = paths_text(graph_name, a, order);
    let line = step_line(n, nodes[k as int].id, nodes[k as int + 1].id, step);
    lemma_path_parts(graph_name, a, order);
    lemma_path_parts(graph_name, b, order);
    assert forall|i: int| 0 <= i < a.len() implies (#[trigger] a[i]).nodes == b[i].nodes by {}
    lemma_same_nodes_on_paths(a, b);
    lemma_path_lines_agree(a, b, n);
    lemma_step_lines_agree(n, hit, longer, k);
    let above = down_to_path_nodes(graph_name, a, order) + "\n"@;
    assert(path_lines(a, a.len()) == path_lines(a, n) + step_lines(n, hit, k));
    assert(path_lines(b, b.len()) == path_lines(b, n) + step_lines(n, longer, k + 1));
    assert(step_lines(n, longer, k + 1) == step_lines(n, longer, k) + line);
    lemma_closing(t, above + path_lines(a, a.len()));
    lemma_step_line(n, nodes[k as int].id, nodes[k as int + 1].id, step);
    assert(above + (path_lines(a, n) + (step_lines(n, hit, k) + line)) + "}\n"@ =~= above + (
    path_lines(a, n) + step_lines(n, hit, k)) + line + "}\n"@);
}

proof fn lemma_first_of_two(a: Seq<NodeView>, b: Seq<NodeView>, id: i64)
    ensures
        first_with_id(a + b, id) == match first_with_id(a, id) {
            Some(n) => Some(n),
            None => first_with_id(b, id),
        },
    decreases b.len(),
{
    if b.len() == 0 {
        assert(a + b =~= a);
    } else {
        lemma_first_of_two(a, b.drop_last(), id);
        assert((a + b).drop_last() =~= a + b.drop_last());
    }
}

proof fn lemma_first_at(nodes: Seq<NodeView>, k: int)
    requires
        0 <= k < nodes.len(),
        forall|j: int| 0 <= j < k ==> (#[trigger] nodes[j]).id != nodes[k].id,
    ensures
        first_with_id(nodes, nodes[k].id) == Some(nodes[k]),
    decreases nodes.len(),
{
    let init = nodes.drop_last();
    let id = nodes[k].id;
    if k < init.len() {
        assert forall|j: int| 0 <= j < k implies (#[trigger] init[j]).id != init[k].id by {
            assert(nodes[j].id != nodes[k].id);
        }
        lemma_first_at(init, k);
    } else {
        assert forall|j: int| 0 <= j < init.len() implies (#[trigger] init[j]).id != id by {
            assert(nodes[j].id != id);
        }
        lemma_first_with_id(init, id);
    }
}

/// Whether the `k`-th node of the `p`-th path is the first on the paths with
/// its id.
pub open spec fn comes_first(paths: Seq<HitView>, p: int, k: int) -> bool {
    &&& 0 <= p < paths.len()
    &&& 0 <= k < paths[p].nodes.len()
    &&& forall|q: int, j: int|
        0 <= q <= p && 0 <= j < paths[q].nodes.len() && (q < p || j < k) ==> (
        #[trigger] paths[q].nodes[j]).id != paths[p].nodes[k].id
}

proof fn lemma_comes_first(paths: Seq<HitView>, p: int, k: int)
    requires
        comes_first(paths, p, k),
    ensures
        first_with_id(all_nodes(paths), paths[p].nodes[k].id) == Some(paths[p].nodes[k]),
{
    let f = nodes_of();
    let id = paths[p].nodes[k].id;
    let before = all_nodes(paths.take(p));
    let here = paths[p].nodes;
    seqs::lemma_flat_map_split(paths, f, p);
    let after = choose|after: Seq<NodeView>| #[trigger]
        (paths.take(p).flat_map(f) + f(paths[p]) + after) == paths.flat_map(f);
    lemma_first_with_id(before, id);
    if first_with_id(before, id) is Some {
        let i = choose|i: int| 0 <= i < before.len() && (#[trigger] before[i]).id == id;
        let n = before[i];
        assert(before.contains(n));
        seqs::lemma_flat_map_contains(paths.take(p), f, n);
        let q = choose|q: int| 0 <= q < p && f(#[trigger] paths.take(p)[q]).contains(n);
        let there = paths[q].nodes;
        assert(there.contains(n));
        let j = choose|j: int| 0 <= j < there.len() && there[j] == n;
        assert(paths[q].nodes[j].id == id);
    }
    assert forall|j: int| 0 <= j < k implies (#[trigger] here[j]).id != here[k].id by {
        assert(paths[p].nodes[j].id != id);
    }
    lemma_first_at(here, k);
    lemma_first_of_two(before, here, id);
    lemma_first_of_two(before + here, after, id);
}

/// A path without steps adds nothing to the drawing, as long as no more nodes
/// are drawn.
pub proof fn law_path_without_steps(
    graph_name: Seq<char>,
    paths: Seq<HitView>,
    nodes: Seq<NodeView>,
    order: Seq<i64>,
)
    requires
        forall|i: int|
            0 <= i < order.len() ==> exists|p: int, k: int|
                #![trigger paths[p].nodes[k]]
                0 <= p < paths.len() && 0 <= k < paths[p].nodes.len() && paths[p].nodes[k].id
                    == #[trigger] order[i],
    ensures
        paths_text(graph_name, paths.push(HitView { nodes, steps: seq![] }), order) == paths_text(
            graph_name,
            paths,
            order,
        ),
{
    let hit = HitView { nodes, steps: seq![] };
    let more = paths.push(hit);
    let (f, g) = (path_node_line(paths), path_node_line(more));
    assert forall|i: int| 0 <= i < order.len() implies f(#[trigger] order[i]) == g(order[i]) by {
        let id = order[i];
        let (p, k) = choose|p: int, k: int|
            #![trigger paths[p].nodes[k]]
            0 <= p < paths.len() && 0 <= k < paths[p].nodes.len() && paths[p].nodes[k].id == id;
        let n = paths[p].nodes[k];
        assert(nodes_of()(paths[p]).contains(n));
        seqs::lemma_flat_map_contains(paths, nodes_of(), n);
        let j = choose|j: int| 0 <= j < all_nodes(paths).len() && all_nodes(paths)[j] == n;
        assert(all_nodes(paths)[j].id == id);
        lemma_first_with_id(all_nodes(paths), id);
        paths.lemma_flat_map_push(nodes_of(), hit);
        lemma_first_of_two(all_nodes(paths), nodes, id);
        assert(more[0] == paths[0]);
    }
    seqs::lemma_flat_map_agrees(order, f, g);
    lemma_path_lines_agree(paths, more, paths.len());
    assert(step_lines(paths.len(), hit, 0) =~= seq![]);
    assert(path_lines(more, more.len()) =~= path_lines(paths, paths.len()));
}

/// The drawing of no paths.
pub proof fn law_drawing_of_no_paths(graph_name: Seq<char>)
    ensures
        paths_text(graph_name, seq![], seq![]) == "digraph \""@ + ("paths · "@ + escaped(
            graph_name,
        )) + "\" {\n"@ + "  rankdir=LR;\n"@
            + "  graph [splines=true, overlap=false, bgcolor=\"#fafafa\"];\n"@
            + "  node  [shape=box, style=\"rounded,filled\", fillcolor=\"#ffffff\", color=\"#888888\", fontname=\""@
            + "STHeiti"@ + "\", fontsize=11];\n"@ + "  edge  [fontname=\""@ + "STHeiti"@
            + "\", fontsize=10, penwidth=2];\n\n"@ + "\n"@ + "}\n"@,
{
    let none = Seq::<HitView>::empty();
    seqs::lemma_flat_map_empty(path_node_line(none));
    assert(Seq::<HitView>::empty() =~= seq![]);
    assert(Seq::<i64>::empty() =~= seq![]);
    let head = opening("paths · "@ + escaped(graph_name)) + "  edge  [fontname=\""@ + "STHeiti"@
        + "\", fontsize=10, penwidth=2];\n\n"@;
    assert(head + Seq::<char>::empty() =~= head);
    assert(head + "\n"@ + Seq::<char>::empty() =~= head + "\n"@);
}

proof fn lemma_path_node_lines(paths: Seq<HitView>, id: i64)
    ensures
        line_ends(path_node_line(paths)(id)) == 1,
        path_node_line(paths)(id).len() > 0,
        path_node_line(paths)(id).last() == '\n',
{
    let more = end_style(search_ends(paths), id);
    lemma_end_style_words();
    lemma_node_lines(first_with_id(all_nodes(paths), id)->0, more);
    reveal_strlit("];\n");
}

proof fn lemma_end_style_words()
    ensures
        line_ends(", color=\"#1f2330\", penwidth=2.5, fillcolor=\"#fff8e0\""@) == 0,
        line_ends(""@) == 0,
{
    reveal_strlit(", color=\"#1f2330\", penwidth=2.5, fillcolor=\"#fff8e0\"");
    reveal_strlit("");
    reveal_with_fuel(line_ends_in, 54);
}

proof fn lemma_path_head_lines(graph_name: Seq<char>, paths: Seq<HitView>, order: Seq<i64>)
    ensures
        line_ends(down_to_path_nodes(graph_name, paths, order)) == 6 + order.len(),
        down_to_path_nodes(graph_name, paths, order).len() > 0,
        down_to_path_nodes(graph_name, paths, order).last() == '\n',
{
    broadcast use lemma_line_ends_add;

    let head = opening("paths · "@ + escaped(graph_name)) + "  edge  [fontname=\""@ + "STHeiti"@
        + "\", fontsize=10, penwidth=2];\n\n"@;
    lemma_opening_lines("paths · "@ + escaped(graph_name));
    lemma_opening_words();
    lemma_escaped_is_one_line(graph_name);
    lemma_edge_style_words();
    assert forall|id: i64|
        line_ends(#[trigger] path_node_line(paths)(id)) == 1 && path_node_line(paths)(id).len() > 0
            && path_node_line(paths)(id).last() == '\n' by {
        lemma_path_node_lines(paths, id);
    }
    lemma_lines_of_all(order, path_node_line(paths));
    reveal_strlit("\", fontsize=10, penwidth=2];\n\n");
    lemma_last_of_lines(order, path_node_line(paths), head);
}

/// One more node in the drawing of paths is one more line behind those of the
/// other nodes, with the label and the text of the first node on the paths
/// that has its id. It stands out if and only if the first path starts or ends
/// there. Nothing else changes.
pub proof fn law_one_more_node_on_paths(
    graph_name: Seq<char>,
    paths: Seq<HitView>,
    order: Seq<i64>,
    p: int,
    k: int,
) -> (parts: (Seq<char>, Seq<char>))
    requires
        comes_first(paths, p, k),
    ensures
        ({
            let n = paths[p].nodes[k];
            let first = paths[0].nodes;
            &&& paths_text(graph_name, paths, order) == parts.0 + parts.1
            &&& parts.0.len() > 0 && parts.0.last() == '\n'
            &&& line_ends(parts.0) == 6 + order.len()
            &&& paths_text(graph_name, paths, order.push(n.id)) == parts.0 + ("  n"@ + decimal(
                n.id as int,
            ) + " [label=\""@ + wrapped(n.content, 16) + "\", tooltip=\""@ + escaped(n.content)
                + "\""@ + (if first.len() > 0 && (n.id == first.first().id || n.id
                == first.last().id) || first.len() == 0 && n.id == -1 {
                ", color=\"#1f2330\", penwidth=2.5, fillcolor=\"#fff8e0\""@
            } else {
                ""@
            }) + "];\n"@) + parts.1
        }),
{
    let n = paths[p].nodes[k];
    let f = path_node_line(paths);
    let a = down_to_path_nodes(graph_name, paths, order);
    let b = "\n"@ + path_lines(paths, paths.len()) + "}\n"@;
    lemma_comes_first(paths, p, k);
    lemma_path_head_lines(graph_name, paths, order);
    order.lemma_flat_map_push(f, n.id);
    assert(paths_text(graph_name, paths, order) =~= a + b);
    assert(paths_text(graph_name, paths, order.push(n.id)) =~= a + f(n.id) + b);
    (a, b)
}

proof fn lemma_color_is_one_line(i: nat)
    ensures
        line_ends(path_color(i)) == 0,
{
    law_colors_are_hexadecimal(i);
    lemma_no_line_ends(path_color(i), path_color(i).len());
}

proof fn lemma_step_words()
    ensures
        line_ends(", color=\""@) == 0,
        line_ends(", style=dashed"@) == 0,
        line_ends(", label=\""@) == 0,
        line_ends("\""@) == 0,
        line_ends("\"];\n"@) == 1,
        line_ends(Seq::<char>::empty()) == 0,
{
    reveal_strlit(", color=\"");
    reveal_strlit(", style=dashed");
    reveal_strlit(", label=\"");
    reveal_strlit("\"");
    reveal_strlit("\"];\n");
    reveal_with_fuel(line_ends_in, 16);
}

proof fn lemma_step_line_lines(i: nat, from: i64, to: i64, step: StepView)
    ensures
        line_ends(step_line(i, from, to, step)) == 1,
{
    broadcast use lemma_line_ends_add;

    lemma_step_words();
    lemma_arrow_lines(from, to);
    lemma_arrow_lines(to, from);
    lemma_color_is_one_line(i);
    lemma_escaped_is_one_line(step_label(i, step.label));
}

proof fn lemma_step_lines_lines(i: nat, hit: HitView, n: nat)
    ensures
        line_ends(step_lines(i, hit, n)) == n,
    decreases n,
{
    broadcast use lemma_line_ends_add;

    if n > 0 {
        lemma_step_lines_lines(i, hit, (n - 1) as nat);
        lemma_step_line_lines(i, hit.nodes[n - 1].id, hit.nodes[n as int].id, hit.steps[n - 1]);
    }
}

proof fn lemma_path_lines_lines(paths: Seq<HitView>, n: nat)
    requires
        n <= paths.len(),
    ensures
        line_ends(path_lines(paths, n)) == steps_in_all(paths.take(n as int)),
    decreases n,
{
    broadcast use lemma_line_ends_add;

    if n > 0 {
        let m = (n - 1) as nat;
        lemma_path_lines_lines(paths, m);
        lemma_step_lines_lines(m, paths[m as int], paths[m as int].steps.len());
        assert(paths.take(n as int).drop_last() =~= paths.take(m as int));
    }
}

/// The drawing of paths has a line for each node that is drawn, one for each
/// step of each path, and eight others.
pub proof fn law_lines_of_a_drawing_of_paths(
    graph_name: Seq<char>,
    paths: Seq<HitView>,
    order: Seq<i64>,
)
    ensures
        line_ends(paths_text(graph_name, paths, order)) == 8 + order.len() + steps_in_all(paths),
{
    broadcast use lemma_line_ends_add;

    lemma_path_parts(graph_name, paths, order);
    lemma_path_head_lines(graph_name, paths, order);
    lemma_path_lines_lines(paths, paths.len());
    assert(paths.take(paths.len() as int) =~= paths);
    lemma_last_words();
}

proof fn lemma_step_lines_split(i: nat, hit: HitView, n: nat, k: int) -> (after: Seq<char>)
    requires
        0 <= k < n,
    ensures
        step_lines(i, hit, n) == step_lines(i, hit, k as nat) + step_line(
            i,
            hit.nodes[k].id,
            hit.nodes[k + 1].id,
            hit.steps[k],
        ) + after,
    decreases n,
{
    let m = (n - 1) as nat;
    let here = step_lines(i, hit, k as nat) + step_line(
        i,
        hit.nodes[k].id,
        hit.nodes[k + 1].id,
        hit.steps[k],
    );
    if k == m {
        assert(here + Seq::<char>::empty() =~= here);
        seq![]
    } else {
        let after = lemma_step_lines_split(i, hit, m, k);
        let line = step_line(i, hit.nodes[m as int].id, hit.nodes[n as int].id, hit.steps[m as int]);
        assert(here + after + line =~= here + (after + line));
        after + line
    }
}

proof fn lemma_path_lines_split(paths: Seq<HitView>, n: nat, p: int) -> (after: Seq<char>)
    requires
        0 <= p < n,
    ensures
        path_lines(paths, n) == path_lines(paths, p as nat) + step_lines(
            p as nat,
            paths[p],
            paths[p].steps.len(),
        ) + after,
    decreases n,
{
    let m = (n - 1) as nat;
    let here = path_lines(paths, p as nat) + step_lines(p as nat, paths[p], paths[p].steps.len());
    if p == m {
        assert(here + Seq::<char>::empty() =~= here);
        seq![]
    } else {
        let after = lemma_path_lines_split(paths, m, p);
        let lines = step_lines(m, paths[m as int], paths[m as int].steps.len());
        assert(here + after + lines =~= here + (after + lines));
        after + lines
    }
}

/// Every step of every path has a line in the drawing: an arrow between the
/// nodes before and behind it, in the color of its path.
pub proof fn law_every_step_is_drawn(
    graph_name: Seq<char>,
    paths: Seq<HitView>,
    order: Seq<i64>,
    p: int,
    k: int,
) -> (around: (Seq<char>, Seq<char>))
    requires
        0 <= p < paths.len(),
        0 <= k < paths[p].steps.len() < paths[p].nodes.len(),
    ensures
        ({
            let step = paths[p].steps[k];
            let from = paths[p].nodes[k].id;
            let to = paths[p].nodes[k + 1].id;
            around.0 + ("  n"@ + decimal((if step.reversed {
            to
        } else {
            from
        }) as int) + " -> n"@ + decimal((if step.reversed {
            from
        } else {
            to
        }) as int) + " [arrowhead=vee"@ + ", color=\""@ + path_color((p as nat)) + "\""@ + (if step.kind
            == "ref"@ {
            ", style=dashed"@
        } else {
            seq![]
        }) + ", label=\""@ + escaped(if step.label.len() == 0 {
            "p"@ + digits((p as nat) + 1)
        } else {
            "p"@ + digits((p as nat) + 1) + " · "@ + step.label
        }) + "\"];\n"@) + around.1 == paths_text(graph_name, paths, order)
        }),
{
    let hit = paths[p];
    lemma_step_line(p as nat, hit.nodes[k].id, hit.nodes[k + 1].id, hit.steps[k]);
    lemma_step_in_drawing(graph_name, paths, order, p, k)
}

proof fn lemma_regroup(
    a: Seq<char>,
    b: Seq<char>,
    c: Seq<char>,
    line: Seq<char>,
    d: Seq<char>,
    e: Seq<char>,
    f: Seq<char>,
)
    ensures
        a + (b + (c + line + d) + e) + f == (a + b + c) + line + (d + e + f),
{
    assert(a + (b + (c + line + d) + e) + f =~= (a + b + c) + line + (d + e + f));
}

proof fn lemma_step_in_drawing(
    graph_name: Seq<char>,
    paths: Seq<HitView>,
    order: Seq<i64>,
    p: int,
    k: int,
) -> (around: (Seq<char>, Seq<char>))
    requires
        0 <= p < paths.len(),
        0 <= k < paths[p].steps.len(),
    ensures
        around.0 + step_line(
            p as nat,
            paths[p].nodes[k].id,
            paths[p].nodes[k + 1].id,
            paths[p].steps[k],
        ) + around.1 == paths_text(graph_name, paths, order),
{
    let hit = paths[p];
    let i = p as nat;
    let above = down_to_path_nodes(graph_name, paths, order) + "\n"@;
    let before = path_lines(paths, i);
    let done = step_lines(i, hit, k as nat);
    let line = step_line(i, hit.nodes[k].id, hit.nodes[k + 1].id, hit.steps[k]);
    let below = lemma_path_lines_split(paths, paths.len(), p);
    let after = lemma_step_lines_split(i, hit, hit.steps.len(), k);
    lemma_path_parts(graph_name, paths, order);
    lemma_regroup(above, before, done, line, after, below, "}\n"@);
    (above + before + done, after + below + "}\n"@)
}

} // verus!
