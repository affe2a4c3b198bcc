//! The paths that a search found, as a drawing in the DOT language.
use std::collections::HashMap;
use vstd::prelude::*;

use crate::color::{path_color, push_color};
use crate::dot::{
    FONT, arrow, edge_line, kind_style, label_attribute, node_line, opening, push_arrow,
    push_node_line, push_opening,
};
use crate::label::{escape_label, escaped};
use crate::model::{EdgeView, HitView, Node, NodeView, PathHit, PathStep, StepView};
use crate::search::{HopView, found_paths};
use crate::seqs;
use crate::text::{digits, push_digits};
use crate::walk::{goes_along, law_found_paths_are_paths};

verus! {

/// Whether the path has the nodes that its steps lead between.
pub open spec fn has_ends(hit: HitView) -> bool {
    hit.steps.len() == 0 || hit.steps.len() < hit.nodes.len()
}

/// Whether all paths have the nodes that their steps lead between.
pub open spec fn all_have_ends(paths: Seq<HitView>) -> bool {
    forall|i: int| 0 <= i < paths.len() ==> has_ends(#[trigger] paths[i])
}

/// The nodes of a path.
pub open spec fn nodes_of() -> spec_fn(HitView) -> Seq<NodeView> {
    |hit: HitView| hit.nodes
}

/// The nodes of all paths, path by path.
pub open spec fn all_nodes(paths: Seq<HitView>) -> Seq<NodeView> {
    paths.flat_map(nodes_of())
}

/// The first of the nodes that has the given id.
pub open spec fn first_with_id(nodes: Seq<NodeView>, id: i64) -> Option<NodeView>
    decreases nodes.len(),
{
    if nodes.len() == 0 {
        None
    } else {
        match first_with_id(nodes.drop_last(), id) {
            Some(n) => Some(n),
            None => if nodes.last().id == id {
                Some(nodes.last())
            } else {
                None
            },
        }
    }
}

/// Whether the ids are those of the nodes of the paths, in some order, none
/// of them twice.
pub open spec fn is_node_order(paths: Seq<HitView>, order: Seq<i64>) -> bool {
    &&& order.no_duplicates()
    &&& forall|id: i64| #[trigger]
        order.contains(id) <==> first_with_id(all_nodes(paths), id) is Some
}

/// The ids of the two nodes that the search went between: the ends of the
/// first path, and `-1` if there is none.
pub open spec fn search_ends(paths: Seq<HitView>) -> (i64, i64) {
    if paths.len() == 0 || paths[0].nodes.len() == 0 {
        (-1i64, -1i64)
    } else {
        (paths[0].nodes.first().id, paths[0].nodes.last().id)
    }
}

/// How the nodes that the search went between are drawn.
pub open spec fn end_style(ends: (i64, i64), id: i64) -> Seq<char> {
    if id == ends.0 || id == ends.1 {
        ", color=\"#1f2330\", penwidth=2.5, fillcolor=\"#fff8e0\""@
    } else {
        ""@
    }
}

/// The line that draws the node with the given id.
pub open spec fn path_node_line(paths: Seq<HitView>) -> spec_fn(i64) -> Seq<char> {
    |id: i64|
        node_line(first_with_id(all_nodes(paths), id)->0, end_style(search_ends(paths), id))
}

/// The label of a step of the `i`-th path: the number of the path, counted
/// from one, and the label of the step if it has one.
pub open spec fn step_label(i: nat, label: Seq<char>) -> Seq<char> {
    if label.len() == 0 {
        "p"@ + digits(i + 1)
    } else {
        "p"@ + digits(i + 1) + " · "@ + label
    }
}

/// How steps of the given kind differ from the usual style.
pub open spec fn step_style(kind: Seq<char>) -> Seq<char> {
    if kind == "ref"@ {
        ", style=dashed"@
    } else {
        seq![]
    }
}

/// The line that draws a step of the `i`-th path from one node to the next:
/// an arrow, in the direction of the edge that the step goes along.
pub open spec fn step_line(i: nat, from: i64, to: i64, step: StepView) -> Seq<char> {
    let (tail, head) = if step.reversed {
        (to, from)
    } else {
        (from, to)
    };
    arrow(tail, head) + ", color=\""@ + path_color(i) + "\""@ + step_style(step.kind)
        + ", label=\""@ + escaped(step_label(i, step.label)) + "\"];\n"@
}

/// The lines that draw the first `n` steps of the `i`-th path.
pub open spec fn step_lines(i: nat, hit: HitView, n: nat) -> Seq<char>
    decreases n,
{
    if n == 0 {
        seq![]
    } else {
        step_lines(i, hit, (n - 1) as nat) + step_line(
            i,
            hit.nodes[n - 1].id,
            hit.nodes[n as int].id,
            hit.steps[n - 1],
        )
    }
}

/// The lines that draw the steps of the first `n` paths.
pub open spec fn path_lines(paths: Seq<HitView>, n: nat) -> Seq<char>
    decreases n,
{
    if n == 0 {
        seq![]
    } else {
        let i = (n - 1) as nat;
        path_lines(paths, i) + step_lines(i, paths[i as int], paths[i as int].steps.len())
    }
}

/// The drawing of the paths, with the nodes in the given order.
pub open spec fn paths_text(
    graph_name: Seq<char>,
    paths: Seq<HitView>,
    order: Seq<i64>,
) -> Seq<char> {
    opening("paths · "@ + escaped(graph_name)) + "  edge  [fontname=\""@ + FONT@
        + "\", fontsize=10, penwidth=2];\n\n"@ + order.flat_map(path_node_line(paths)) + "\n"@
        + path_lines(paths, paths.len()) + "}\n"@
}

/// What the table `by_id` holds for node `id`.
spec fn tabled(by_id: Map<i64, &Node>, id: i64) -> Option<NodeView> {
    if by_id.contains_key(id) {
        Some(by_id[id]@)
    } else {
        None
    }
}

/// The first node with each id.
fn first_nodes<'a>(paths: &'a [PathHit]) -> (by_id: HashMap<i64, &'a Node>)
    ensures
        forall|id: i64| #[trigger]
            tabled(by_id@, id) == first_with_id(all_nodes(paths.deep_view()), id),
{
    broadcast use vstd::std_specs::hash::group_hash_axioms;

    let ghost hits = paths.deep_view();
    let mut by_id: HashMap<i64, &'a Node> = HashMap::new();
    let mut p: usize = 0;
    proof {
        assert(hits.take(0) =~= Seq::empty());
        seqs::lemma_flat_map_empty(nodes_of());
    }
    while p < paths.len()
        invariant
            p <= paths.len(),
            hits == paths.deep_view(),
            forall|id: i64| #[trigger]
                tabled(by_id@, id) == first_with_id(all_nodes(hits.take(p as int)), id),
        decreases paths.len() - p,
    {
        let nodes = &paths[p].nodes;
        let ghost ns = nodes.deep_view();
        let ghost done = all_nodes(hits.take(p as int));
        let mut k: usize = 0;
        proof {
            assert(ns.take(0) =~= Seq::empty());
            assert(done + ns.take(0) =~= done);
        }
        while k < nodes.len()
            invariant
                k <= nodes.len(),
                ns == nodes.deep_view(),
                forall|id: i64| #[trigger]
                    tabled(by_id@, id) == first_with_id(done + ns.take(k as int), id),
            decreases nodes.len() - k,
        {
            let n = &nodes[k];
            let ghost before = by_id@;
            by_id.entry(n.id).or_insert(n);
            proof {
                let next = done + ns.take(k + 1);
                assert(next.drop_last() =~= done + ns.take(k as int));
                assert(next.last() == n@);
                assert forall|id: i64| #[trigger] tabled(by_id@, id) == first_with_id(next, id) by {
                    assert(tabled(before, id) == first_with_id(done + ns.take(k as int), id));
                }
            }
            k += 1;
        }
        proof {
            assert(ns.take(nodes.len() as int) =~= ns);
            hits.lemma_flat_map_take_append(nodes_of(), p as int);
            assert(all_nodes(hits.take(p + 1)) =~= done + ns);
        }
        p += 1;
    }
    assert(hits.take(paths.len() as int) =~= hits);
    by_id
}

#[verifier::rlimit(40)]
fn push_step_line(out: &mut String, i: usize, from: i64, to: i64, step: &PathStep)
    requires
        i < usize::MAX,
    ensures
        final(out)@ == old(out)@ + step_line(i as nat, from, to, step@),
{
    let ghost before = out@;
    if step.reversed {
        push_arrow(out, to, from);
    } else {
        push_arrow(out, from, to);
    }
    let ghost tip = out@;
    out.push_str(", color=\"");
    push_color(out, i);
    out.push_str("\"");
    assert(out@ == tip + ", color=\""@ + path_color(i as nat) + "\""@);
    if *step.kind.as_str() == *"ref" {
        out.push_str(", style=dashed");
    }
    let mut label = String::new();
    label.push_str("p");
    push_digits(&mut label, (i + 1) as u64);
    if !step.label.as_str().is_empty() {
        label.push_str(" · ");
        label.push_str(step.label.as_str());
    }
    assert(label@ =~= step_label(i as nat, step.label@));
    out.push_str(", label=\"");
    out.push_str(escape_label(label.as_str()).as_str());
    out.push_str("\"];\n");
    assert(out@ =~= before + step_line(i as nat, from, to, step@));
}

fn push_path_lines(out: &mut String, paths: &[PathHit])
    requires
        all_have_ends(paths.deep_view()),
    ensures
        final(out)@ == old(out)@ + path_lines(paths.deep_view(), paths.len() as nat),
{
    let ghost start = out@;
    let ghost hits = paths.deep_view();
    let mut p: usize = 0;
    assert(out@ =~= start + path_lines(hits, 0));
    while p < paths.len()
        invariant
            p <= paths.len(),
            hits == paths.deep_view(),
            all_have_ends(hits),
            out@ == start + path_lines(hits, p as nat),
        decreases paths.len() - p,
    {
        let hit = &paths[p];
        let ghost before = out@;
        let mut k: usize = 0;
        assert(hits[p as int] == hit@);
        assert(has_ends(hit@));
        assert(out@ =~= before + step_lines(p as nat, hit@, 0));
        while k < hit.steps.len()
            invariant
                k <= hit.steps.len(),
                p < usize::MAX,
                has_ends(hit@),
                out@ == before + step_lines(p as nat, hit@, k as nat),
            decreases hit.steps.len() - k,
        {
            push_step_line(out, p, hit.nodes[k].id, hit.nodes[k + 1].id, &hit.steps[k]);
            assert(out@ =~= before + step_lines(p as nat, hit@, (k + 1) as nat));
            k += 1;
        }
        assert(out@ =~= start + path_lines(hits, (p + 1) as nat));
        p += 1;
    }
}

fn search_end_ids(paths: &[PathHit]) -> (ends: (i64, i64))
    ensures
        ends == search_ends(paths.deep_view()),
{
    if paths.len() == 0 || paths[0].nodes.len() == 0 {
        return (-1, -1);
    }
    let nodes = &paths[0].nodes;
    let ghost ns = nodes.deep_view();
    assert(paths.deep_view()[0].nodes == ns);
    (nodes[0].id, nodes[nodes.len() - 1].id)
}

fn render_with(
    graph_name: &str,
    paths: &[PathHit],
    by_id: &HashMap<i64, &Node>,
    order: &[i64],
) -> (out: String)
    requires
        all_have_ends(paths.deep_view()),
        forall|id: i64| #[trigger]
            tabled(by_id@, id) == first_with_id(all_nodes(paths.deep_view()), id),
        forall|i: int|
            0 <= i < order.len() ==> first_with_id(
                all_nodes(paths.deep_view()),
                #[trigger] order@[i],
            ) is Some,
    ensures
        out@ == paths_text(graph_name@, paths.deep_view(), order@),
{
    broadcast use vstd::std_specs::hash::group_hash_axioms;

    let ghost hits = paths.deep_view();
    let ghost line = path_node_line(hits);
    let ends: (i64, i64) = search_end_ids(paths);
    let mut out = String::new();
    let mut name = String::new();
    name.push_str("paths · ");
    name.push_str(escape_label(graph_name).as_str());
    assert(name@ =~= "paths · "@ + escaped(graph_name@));
    push_opening(&mut out, name.as_str());
    out.push_str("  edge  [fontname=\"");
    out.push_str(FONT);
    out.push_str("\", fontsize=10, penwidth=2];\n\n");
    let ghost head = opening("paths · "@ + escaped(graph_name@)) + "  edge  [fontname=\""@ + FONT@
        + "\", fontsize=10, penwidth=2];\n\n"@;
    let mut k: usize = 0;
    proof {
        assert(out@ =~= head);
        assert(order@.take(0) =~= Seq::empty());
        seqs::lemma_flat_map_empty(line);
        assert(out@ =~= head + order@.take(0).flat_map(line));
    }
    while k < order.len()
        invariant
            k <= order.len(),
            hits == paths.deep_view(),
            line == path_node_line(hits),
            ends == search_ends(hits),
            forall|id: i64| #[trigger] tabled(by_id@, id) == first_with_id(all_nodes(hits), id),
            forall|i: int|
                0 <= i < order.len() ==> first_with_id(
                    all_nodes(hits),
                    #[trigger] order@[i],
                ) is Some,
            out@ == head + order@.take(k as int).flat_map(line),
        decreases order.len() - k,
    {
        let id: i64 = order[k];
        proof {
            order@.lemma_flat_map_take_append(line, k as int);
            assert(order@[k as int] == id);
            assert(tabled(by_id@, id) is Some);
        }
        if let Some(n) = by_id.get(&id) {
            let more = if id == ends.0 || id == ends.1 {
                ", color=\"#1f2330\", penwidth=2.5, fillcolor=\"#fff8e0\""
            } else {
                ""
            };
            push_node_line(&mut out, *n, more);
            assert(out@ =~= head + order@.take(k + 1).flat_map(line));
        }
        k += 1;
    }
    assert(order@.take(order.len() as int) =~= order@);
    out.push_str("\n");
    push_path_lines(&mut out, paths);
    out.push_str("}\n");
    out
}

/// Draws the paths that a search found, the nodes in the order of the given
/// ids.
pub fn render_paths_dot_in_order(graph_name: &str, paths: &[PathHit], order: &[i64]) -> (out:
    String)
    requires
        all_have_ends(paths.deep_view()),
        is_node_order(paths.deep_view(), order@),
    ensures
        out@ == paths_text(graph_name@, paths.deep_view(), order@),
{
    let by_id = first_nodes(paths);
    proof {
        assert forall|i: int| 0 <= i < order.len() implies first_with_id(
            all_nodes(paths.deep_view()),
            #[trigger] order@[i],
        ) is Some by {
            assert(order@.contains(order@[i]));
        }
    }
    render_with(graph_name, paths, &by_id, order)
}

/// Draws the paths that a search found: only the nodes and edges on them, and
/// each path in a color of its own, as long as there are colors.
///
/// The two nodes that the search went between stand out. An edge that several
/// paths go along is drawn once for each of them, so that each color shows.
/// The nodes come in no particular order.
pub fn render_paths_dot(graph_name: &str, paths: &[PathHit]) -> (out: String)
    requires
        all_have_ends(paths.deep_view()),
    ensures
        exists|order: Seq<i64>| #[trigger]
            is_node_order(paths.deep_view(), order) && out@ == paths_text(
                graph_name@,
                paths.deep_view(),
                order,
            ),
{
    broadcast use vstd::std_specs::hash::group_hash_axioms;

    let by_id = first_nodes(paths);
    let mut order: Vec<i64> = Vec::new();
    for id in it: by_id.keys()
        invariant
            it.seq().unref().to_set() == by_id@.dom(),
            it.seq().no_duplicates(),
            order@ == it.seq().unref().take(it.index()),
            it.index() == it.seq().len() ==> order@ == it.seq().unref(),
    {
        order.push(*id);
    }
    proof {
        assert(order@.to_set() == by_id@.dom());
        assert forall|id: i64| #[trigger] order@.contains(id) <==> first_with_id(
            all_nodes(paths.deep_view()),
            id,
        ) is Some by {
            assert(order@.to_set().contains(id) <==> order@.contains(id));
            assert(tabled(by_id@, id) == first_with_id(all_nodes(paths.deep_view()), id));
        }
        assert(is_node_order(paths.deep_view(), order@));
        assert forall|i: int| 0 <= i < order.len() implies first_with_id(
            all_nodes(paths.deep_view()),
            #[trigger] order@[i],
        ) is Some by {
            assert(order@.contains(order@[i]));
        }
    }
    render_with(graph_name, paths, &by_id, order.as_slice())
}

pub(crate) proof fn lemma_first_with_id(nodes: Seq<NodeView>, id: i64)
    ensures
        first_with_id(nodes, id) is Some <==> exists|i: int|
            0 <= i < nodes.len() && (#[trigger] nodes[i]).id == id,
    decreases nodes.len(),
{
    if nodes.len() > 0 {
        let init = nodes.drop_last();
        lemma_first_with_id(init, id);
        if exists|i: int| 0 <= i < init.len() && (#[trigger] init[i]).id == id {
            let i = choose|i: int| 0 <= i < init.len() && (#[trigger] init[i]).id == id;
            assert(nodes[i].id == id);
        }
        if nodes.last().id == id {
            assert(nodes[nodes.len() - 1].id == id);
        }
        if exists|i: int| 0 <= i < nodes.len() && (#[trigger] nodes[i]).id == id {
            let i = choose|i: int| 0 <= i < nodes.len() && (#[trigger] nodes[i]).id == id;
            if i < init.len() {
                assert(init[i].id == id);
            }
        }
    }
}

/// A drawing of paths shows the nodes that are on one of them, each once, and
/// no others.
pub proof fn law_drawn_nodes_are_on_the_paths(paths: Seq<HitView>, order: Seq<i64>, id: i64)
    requires
        is_node_order(paths, order),
    ensures
        order.no_duplicates(),
        order.contains(id) <==> exists|p: int, k: int|
            #![trigger paths[p].nodes[k]]
            0 <= p < paths.len() && 0 <= k < paths[p].nodes.len() && paths[p].nodes[k].id == id,
{
    lemma_on_the_paths(paths, id);
}

proof fn lemma_on_the_paths(paths: Seq<HitView>, id: i64)
    ensures
        first_with_id(all_nodes(paths), id) is Some <==> exists|p: int, k: int|
            #![trigger paths[p].nodes[k]]
            0 <= p < paths.len() && 0 <= k < paths[p].nodes.len() && paths[p].nodes[k].id == id,
{
    let all = all_nodes(paths);
    let f = nodes_of();
    lemma_first_with_id(all, id);
    if first_with_id(all, id) is Some {
        let i = choose|i: int| 0 <= i < all.len() && (#[trigger] all[i]).id == id;
        let n = all[i];
        assert(all.contains(n));
        seqs::lemma_flat_map_contains(paths, f, n);
        let p = choose|p: int| 0 <= p < paths.len() && f(#[trigger] paths[p]).contains(n);
        let on_path = paths[p].nodes;
        assert(on_path.contains(n));
        let k = choose|k: int| 0 <= k < on_path.len() && on_path[k] == n;
        assert(paths[p].nodes[k].id == id);
    }
    if exists|p: int, k: int|
        #![trigger paths[p].nodes[k]]
        0 <= p < paths.len() && 0 <= k < paths[p].nodes.len() && paths[p].nodes[k].id == id {
        let (p, k) = choose|p: int, k: int|
            #![trigger paths[p].nodes[k]]
            0 <= p < paths.len() && 0 <= k < paths[p].nodes.len() && paths[p].nodes[k].id == id;
        let n = paths[p].nodes[k];
        assert(f(paths[p]).contains(n));
        seqs::lemma_flat_map_contains(paths, f, n);
        let i = choose|i: int| 0 <= i < all.len() && all[i] == n;
        assert(all[i].id == id);
    }
}

/// The nodes on the paths can be drawn in any order, each once.
pub proof fn law_nodes_can_be_drawn_in_any_order(paths: Seq<HitView>, order: Seq<i64>)
    requires
        order.no_duplicates(),
        forall|id: i64| #[trigger]
            order.contains(id) <==> exists|p: int, k: int|
                #![trigger paths[p].nodes[k]]
                0 <= p < paths.len() && 0 <= k < paths[p].nodes.len() && paths[p].nodes[k].id
                    == id,
    ensures
        is_node_order(paths, order),
{
    assert forall|id: i64| #[trigger] order.contains(id) <==> first_with_id(
        all_nodes(paths),
        id,
    ) is Some by {
        lemma_on_the_paths(paths, id);
    }
}

/// Paths can be drawn if each of their steps leads from one of their nodes to
/// another.
pub proof fn law_paths_with_ends_can_be_drawn(paths: Seq<HitView>)
    requires
        forall|p: int|
            0 <= p < paths.len() ==> (#[trigger] paths[p]).steps.len() == 0
                || paths[p].steps.len() < paths[p].nodes.len(),
    ensures
        all_have_ends(paths),
{
}

/// A step of a path is drawn as the same arrow as the edge that it goes
/// along, whichever way it goes along it.
pub proof fn law_steps_are_drawn_like_their_edges(
    i: nat,
    e: EdgeView,
    from: i64,
    to: i64,
    step: StepView,
)
    requires
        goes_along(e, from, (HopView { to, step })),
    ensures
        arrow(e.from_node_id, e.to_node_id).is_prefix_of(edge_line()(e)),
        arrow(e.from_node_id, e.to_node_id).is_prefix_of(step_line(i, from, to, step)),
{
    let a = arrow(e.from_node_id, e.to_node_id);
    assert(edge_line()(e) =~= a + (kind_style(e.kind) + label_attribute(e.label) + "];\n"@));
    assert(step_line(i, from, to, step) =~= a + (", color=\""@ + path_color(i) + "\""@ + step_style(
        step.kind,
    ) + ", label=\""@ + escaped(step_label(i, step.label)) + "\"];\n"@));
}

/// The paths that a search finds can be drawn.
pub proof fn law_found_paths_can_be_drawn(
    nodes: Seq<NodeView>,
    edges: Seq<EdgeView>,
    start: NodeView,
    end: NodeView,
    max_paths: nat,
)
    ensures
        all_have_ends(found_paths(nodes, edges, start, end, max_paths)),
{
    let found = found_paths(nodes, edges, start, end, max_paths);
    assert forall|i: int| 0 <= i < found.len() implies has_ends(#[trigger] found[i]) by {
        law_found_paths_are_paths(nodes, edges, start, end, max_paths, i);
    }
}

} // verus!
