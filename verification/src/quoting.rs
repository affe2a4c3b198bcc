//! What holds of the quotes in a drawing: whatever the text in it, every
//! quoted string is closed.
use vstd::prelude::*;

use crate::color::{law_colors_are_hexadecimal, path_color};
use crate::dot::{
    WRAP_WIDTH, arrow, dot_text, edge_line, edge_style, is_top_level, node_label, node_line,
    opening, plain_node_line, root_line, root_link,
};
use crate::label::escaped;
use crate::label_laws::{
    is_quotable, law_escaped_text_is_quotable, law_labels_are_quotable, lemma_quotable_add,
};
use crate::model::{EdgeView, HitView, NodeView, StepView};
use crate::paths_dot::{
    all_nodes, end_style, first_with_id, path_lines, path_node_line, paths_text,
    search_ends, step_label, step_line, step_lines,
};
use crate::seqs;
use crate::text::{decimal, digit, digits};

verus! {

/// Where a reader of a drawing is: outside of the quoted strings, inside of
/// one, or inside of one just after a backslash.
pub enum Place {
    Outside,
    Inside,
    Escape,
}

/// Where the character `c` takes a reader.
pub open spec fn step(p: Place, c: char) -> Place {
    match p {
        Place::Outside => if c == '"' {
            Place::Inside
        } else {
            Place::Outside
        },
        Place::Inside => if c == '"' {
            Place::Outside
        } else if c == '\\' {
            Place::Escape
        } else {
            Place::Inside
        },
        Place::Escape => Place::Inside,
    }
}

/// Where the first `n` characters of `t` take a reader.
pub open spec fn place_at(p: Place, t: Seq<char>, n: nat) -> Place
    decreases n,
{
    if n == 0 {
        p
    } else {
        step(place_at(p, t, (n - 1) as nat), t[n - 1])
    }
}

/// Where the text `t` takes a reader.
pub open spec fn place_after(p: Place, t: Seq<char>) -> Place {
    place_at(p, t, t.len())
}

/// Whether the text `t` takes a reader from outside of the quoted strings to
/// outside of them: it closes every string that it opens.
pub open spec fn is_closed(t: Seq<char>) -> bool {
    place_after(Place::Outside, t) == Place::Outside
}

proof fn lemma_place_at_add(p: Place, a: Seq<char>, b: Seq<char>, n: nat)
    requires
        n <= a.len() + b.len(),
    ensures
        place_at(p, a + b, n) == if n <= a.len() {
            place_at(p, a, n)
        } else {
            place_at(place_after(p, a), b, (n - a.len()) as nat)
        },
    decreases n,
{
    if n > 0 {
        lemma_place_at_add(p, a, b, (n - 1) as nat);
    }
}

broadcast proof fn lemma_place_after_add(p: Place, a: Seq<char>, b: Seq<char>)
    ensures
        #[trigger] place_after(p, a + b) == place_after(place_after(p, a), b),
{
    lemma_place_at_add(p, a, b, (a + b).len());
}

proof fn lemma_plain(t: Seq<char>, n: nat)
    requires
        n <= t.len(),
        forall|i: int| 0 <= i < t.len() ==> #[trigger] t[i] != '"',
    ensures
        place_at(Place::Outside, t, n) == Place::Outside,
    decreases n,
{
    if n > 0 {
        lemma_plain(t, (n - 1) as nat);
    }
}

proof fn lemma_quotable(t: Seq<char>)
    requires
        is_quotable(t),
    ensures
        place_after(Place::Inside, t) == Place::Inside,
    decreases t.len(),
{
    if t.len() > 0 {
        let k: int = if t[0] == '\\' {
            2
        } else {
            1
        };
        let head = t.take(k);
        let rest = t.skip(k);
        assert(t =~= head + rest);
        lemma_place_after_add(Place::Inside, head, rest);
        lemma_quotable(rest);
        reveal_with_fuel(place_at, 3);
    }
}

proof fn lemma_digits_are_plain(n: nat)
    ensures
        forall|i: int| 0 <= i < digits(n).len() ==> #[trigger] digits(n)[i] != '"',
    decreases n,
{
    assert(digit(n % 10) as int == 48 + n % 10);
    if n < 10 {
        assert(digits(n) == seq![digit(n)]);
    } else {
        let init = digits(n / 10);
        lemma_digits_are_plain(n / 10);
        assert forall|i: int| 0 <= i < digits(n).len() implies #[trigger] digits(n)[i] != '"' by {
            if i < init.len() {
                assert(init[i] != '"');
            }
        }
    }
}

proof fn lemma_decimal(n: int)
    ensures
        is_closed(decimal(n)),
{
    if n < 0 {
        lemma_digits_are_plain((-n) as nat);
    } else {
        lemma_digits_are_plain(n as nat);
    }
    lemma_plain(decimal(n), decimal(n).len());
}

proof fn lemma_unescaped(t: Seq<char>, n: nat)
    requires
        n <= t.len(),
        forall|i: int| 0 <= i < t.len() ==> #[trigger] t[i] != '"' && t[i] != '\\',
    ensures
        place_at(Place::Inside, t, n) == Place::Inside,
    decreases n,
{
    if n > 0 {
        lemma_unescaped(t, (n - 1) as nat);
    }
}

proof fn lemma_color(i: nat)
    ensures
        place_after(Place::Inside, path_color(i)) == Place::Inside,
{
    law_colors_are_hexadecimal(i);
    lemma_unescaped(path_color(i), path_color(i).len());
}

proof fn lemma_opening_words()
    ensures
        place_after(Place::Outside, "digraph \""@) == Place::Inside,
        place_after(Place::Inside, "\" {\n"@) == Place::Outside,
        place_after(Place::Outside, "  rankdir=LR;\n"@) == Place::Outside,
        place_after(Place::Inside, "STHeiti"@) == Place::Inside,
        place_after(Place::Inside, "\", fontsize=11];\n"@) == Place::Outside,
        place_after(Place::Inside, "paths · "@) == Place::Inside,
{
    reveal_strlit("digraph \"");
    reveal_strlit("\" {\n");
    reveal_strlit("  rankdir=LR;\n");
    reveal_strlit("STHeiti");
    reveal_strlit("\", fontsize=11];\n");
    reveal_strlit("paths · ");
    reveal_with_fuel(place_at, 19);
}

proof fn lemma_graph_style()
    ensures
        place_after(Place::Outside, "  graph [splines=true, overlap=false, bgcolor=\"#fafafa\"];\n"@) == Place::Outside,
{
    reveal_strlit("  graph [splines=true, overlap=false, bgcolor=\"#fafafa\"];\n");
    reveal_with_fuel(place_at, 60);
}

proof fn lemma_node_style()
    ensures
        place_after(Place::Outside, "  node  [shape=box, style=\"rounded,filled\", fillcolor=\"#ffffff\", color=\"#888888\", fontname=\""@) == Place::Inside,
{
    reveal_strlit("  node  [shape=box, style=\"rounded,filled\", fillcolor=\"#ffffff\", color=\"#888888\", fontname=\"");
    reveal_with_fuel(place_at, 94);
}

proof fn lemma_edge_style_words()
    ensures
        place_after(Place::Outside, "  edge  [color=\"#888888\", fontname=\""@) == Place::Inside,
        place_after(Place::Inside, "\", fontsize=10];\n\n"@) == Place::Outside,
        place_after(Place::Outside, "  edge  [fontname=\""@) == Place::Inside,
        place_after(Place::Inside, "\", fontsize=10, penwidth=2];\n\n"@) == Place::Outside,
{
    reveal_strlit("  edge  [color=\"#888888\", fontname=\"");
    reveal_strlit("\", fontsize=10];\n\n");
    reveal_strlit("  edge  [fontname=\"");
    reveal_strlit("\", fontsize=10, penwidth=2];\n\n");
    reveal_with_fuel(place_at, 38);
}

proof fn lemma_node_words()
    ensures
        place_after(Place::Outside, "  n"@) == Place::Outside,
        place_after(Place::Outside, " [label=\""@) == Place::Inside,
        place_after(Place::Inside, "\", tooltip=\""@) == Place::Inside,
        place_after(Place::Inside, "\""@) == Place::Outside,
        place_after(Place::Outside, "];\n"@) == Place::Outside,
        place_after(Place::Outside, ""@) == Place::Outside,
{
    reveal_strlit("  n");
    reveal_strlit(" [label=\"");
    reveal_strlit("\", tooltip=\"");
    reveal_strlit("\"");
    reveal_strlit("];\n");
    reveal_strlit("");
    reveal_with_fuel(place_at, 14);
}

proof fn lemma_end_style_words()
    ensures
        place_after(Place::Outside, ", color=\"#1f2330\", penwidth=2.5, fillcolor=\"#fff8e0\""@) == Place::Outside,
{
    reveal_strlit(", color=\"#1f2330\", penwidth=2.5, fillcolor=\"#fff8e0\"");
    reveal_with_fuel(place_at, 54);
}

proof fn lemma_root_words()
    ensures
        place_after(Place::Outside, "  graph_root [label=\""@) == Place::Inside,
        place_after(Place::Inside, "\", shape=ellipse, fillcolor=\"#e8eef9\", color=\"#3a73e8\", fontsize=13];\n"@) == Place::Outside,
{
    reveal_strlit("  graph_root [label=\"");
    reveal_strlit("\", shape=ellipse, fillcolor=\"#e8eef9\", color=\"#3a73e8\", fontsize=13];\n");
    reveal_with_fuel(place_at, 72);
}

proof fn lemma_link_words()
    ensures
        place_after(Place::Outside, "  graph_root -> n"@) == Place::Outside,
        place_after(Place::Outside, " [arrowhead=vee, color=\"#3a73e8\", penwidth=1.4];\n"@) == Place::Outside,
{
    reveal_strlit("  graph_root -> n");
    reveal_strlit(" [arrowhead=vee, color=\"#3a73e8\", penwidth=1.4];\n");
    reveal_with_fuel(place_at, 51);
}

proof fn lemma_edge_words()
    ensures
        place_after(Place::Outside, " -> n"@) == Place::Outside,
        place_after(Place::Outside, " [arrowhead=vee"@) == Place::Outside,
        place_after(Place::Outside, ", style=dashed, color=\"#cc5555\", constraint=false"@) == Place::Outside,
        place_after(Place::Outside, ", label=\""@) == Place::Inside,
{
    reveal_strlit(" -> n");
    reveal_strlit(" [arrowhead=vee");
    reveal_strlit(", style=dashed, color=\"#cc5555\", constraint=false");
    reveal_strlit(", label=\"");
    reveal_with_fuel(place_at, 51);
}

proof fn lemma_step_words()
    ensures
        place_after(Place::Outside, ", color=\""@) == Place::Inside,
        place_after(Place::Outside, ", style=dashed"@) == Place::Outside,
        place_after(Place::Inside, "\"];\n"@) == Place::Outside,
{
    reveal_strlit(", color=\"");
    reveal_strlit(", style=dashed");
    reveal_strlit("\"];\n");
    reveal_with_fuel(place_at, 16);
}

proof fn lemma_last_words()
    ensures
        place_after(Place::Outside, "\n"@) == Place::Outside,
        place_after(Place::Outside, "}\n"@) == Place::Outside,
{
    reveal_strlit("\n");
    reveal_strlit("}\n");
    reveal_with_fuel(place_at, 4);
}

proof fn lemma_lines<A>(s: Seq<A>, f: spec_fn(A) -> Seq<char>)
    requires
        forall|x: A| is_closed(#[trigger] f(x)),
    ensures
        is_closed(s.flat_map(f)),
    decreases s.len(),
{
    if s.len() == 0 {
        seqs::lemma_flat_map_empty(f);
        assert(s =~= Seq::empty());
    } else {
        let init = s.drop_last();
        lemma_lines(init, f);
        init.lemma_flat_map_push(f, s.last());
        assert(init.push(s.last()) =~= s);
        lemma_place_after_add(Place::Outside, init.flat_map(f), f(s.last()));
    }
}

proof fn lemma_opening(name: Seq<char>)
    requires
        is_quotable(name),
    ensures
        is_closed(opening(name)),
{
    broadcast use lemma_place_after_add;

    lemma_opening_words();
    lemma_graph_style();
    lemma_node_style();
    lemma_quotable(name);
}

proof fn lemma_edge_style()
    ensures
        is_closed(edge_style()),
{
    broadcast use lemma_place_after_add;

    lemma_opening_words();
    lemma_edge_style_words();
}

proof fn lemma_node_label(s: Seq<char>)
    ensures
        place_after(Place::Inside, node_label(s)) == Place::Inside,
        place_after(Place::Inside, escaped(s)) == Place::Inside,
{
    law_labels_are_quotable(s, WRAP_WIDTH as nat);
    lemma_quotable(node_label(s));
    law_escaped_text_is_quotable(s);
    lemma_quotable(escaped(s));
}

proof fn lemma_node_line(n: NodeView, more: Seq<char>)
    requires
        is_closed(more),
    ensures
        is_closed(node_line(n, more)),
{
    broadcast use lemma_place_after_add;

    lemma_node_words();
    lemma_decimal(n.id as int);
    lemma_node_label(n.content);
}

proof fn lemma_root_line(graph_name: Seq<char>)
    ensures
        is_closed(root_line(graph_name)),
{
    broadcast use lemma_place_after_add;

    lemma_root_words();
    lemma_node_label(graph_name);
}

proof fn lemma_root_link(n: NodeView)
    ensures
        is_closed(root_link()(n)),
{
    broadcast use lemma_place_after_add;

    lemma_link_words();
    lemma_decimal(n.id as int);
}

proof fn lemma_arrow(tail: i64, head: i64)
    ensures
        is_closed(arrow(tail, head)),
{
    broadcast use lemma_place_after_add;

    lemma_node_words();
    lemma_edge_words();
    lemma_decimal(tail as int);
    lemma_decimal(head as int);
}

proof fn lemma_edge_line(e: EdgeView)
    ensures
        is_closed(edge_line()(e)),
{
    broadcast use lemma_place_after_add;

    lemma_node_words();
    lemma_edge_words();
    lemma_arrow(e.from_node_id, e.to_node_id);
    lemma_node_label(e.label);
}

/// The drawing of a graph closes every string that it opens, whatever the
/// name of the graph, the text of its nodes and the labels of its edges.
pub proof fn law_drawings_of_graphs_are_closed(
    graph_name: Seq<char>,
    nodes: Seq<NodeView>,
    edges: Seq<EdgeView>,
)
    ensures
        is_closed(dot_text(graph_name, nodes, edges)),
{
    broadcast use lemma_place_after_add;

    law_escaped_text_is_quotable(graph_name);
    lemma_opening(escaped(graph_name));
    lemma_edge_style();
    lemma_root_line(graph_name);
    lemma_last_words();
    lemma_node_words();
    assert forall|n: NodeView| is_closed(#[trigger] plain_node_line()(n)) by {
        lemma_node_line(n, ""@);
    }
    lemma_lines(nodes, plain_node_line());
    assert forall|n: NodeView| is_closed(#[trigger] root_link()(n)) by {
        lemma_root_link(n);
    }
    lemma_lines(nodes.filter(is_top_level(edges)), root_link());
    assert forall|e: EdgeView| is_closed(#[trigger] edge_line()(e)) by {
        lemma_edge_line(e);
    }
    lemma_lines(edges, edge_line());
}

proof fn lemma_step_line(i: nat, from: i64, to: i64, step: StepView)
    ensures
        is_closed(step_line(i, from, to, step)),
{
    broadcast use lemma_place_after_add;

    lemma_node_words();
    lemma_edge_words();
    lemma_step_words();
    lemma_arrow(from, to);
    lemma_arrow(to, from);
    lemma_node_label(step_label(i, step.label));
    lemma_color(i);
}

proof fn lemma_step_lines(i: nat, hit: HitView, n: nat)
    ensures
        is_closed(step_lines(i, hit, n)),
    decreases n,
{
    broadcast use lemma_place_after_add;

    if n > 0 {
        lemma_step_lines(i, hit, (n - 1) as nat);
        lemma_step_line(i, hit.nodes[n - 1].id, hit.nodes[n as int].id, hit.steps[n - 1]);
    }
}

proof fn lemma_path_lines(paths: Seq<HitView>, n: nat)
    ensures
        is_closed(path_lines(paths, n)),
    decreases n,
{
    broadcast use lemma_place_after_add;

    if n > 0 {
        lemma_path_lines(paths, (n - 1) as nat);
        lemma_step_lines((n - 1) as nat, paths[n - 1], paths[n - 1].steps.len());
    }
}

/// The drawing of paths closes every string that it opens, whatever the name
/// of the graph, the text of its nodes and the labels of the steps.
pub proof fn law_drawings_of_paths_are_closed(
    graph_name: Seq<char>,
    paths: Seq<HitView>,
    order: Seq<i64>,
)
    ensures
        is_closed(paths_text(graph_name, paths, order)),
{
    broadcast use lemma_place_after_add;

    let name = "paths · "@ + escaped(graph_name);
    law_escaped_text_is_quotable(graph_name);
    lemma_quotable_prefix();
    lemma_quotable_add("paths · "@, escaped(graph_name));
    lemma_opening(name);
    lemma_opening_words();
    lemma_edge_style_words();
    lemma_last_words();
    lemma_node_words();
    lemma_end_style_words();
    assert forall|id: i64| is_closed(#[trigger] path_node_line(paths)(id)) by {
        lemma_node_line(
            first_with_id(all_nodes(paths), id)->0,
            end_style(search_ends(paths), id),
        );
    }
    lemma_lines(order, path_node_line(paths));
    lemma_path_lines(paths, paths.len());
}

proof fn lemma_quotable_prefix()
    ensures
        is_quotable("paths · "@),
{
    reveal_strlit("paths · ");
    reveal_with_fuel(is_quotable, 10);
}

} // verus!
