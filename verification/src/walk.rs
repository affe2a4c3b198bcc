//! What holds of the paths that a search finds: they are the shortest walks
//! along the edges of the graph, each edge taken as open in both directions.
use vstd::prelude::*;

use crate::model::{EdgeView, HitView, NodeView, StepView};
use crate::search::{
    HopView, MAX_DEPTH, appended, arrivals, arrives, backward_hop, end_of, extensions, first_n,
    forward_hop, found_paths, hit_along, hops, hops_along, ids_along, is_fresh, joins, known_nodes,
    node_with_id, open_edges, path_cap, shortest_from, shortest_trails, simple_trails, visits,
};

verus! {

/// Whether each of the hops `t` leaves the node that the one before it leads
/// to, the first of them leaving `start`.
pub open spec fn is_walk(edges: Seq<EdgeView>, start: i64, t: Seq<HopView>) -> bool {
    forall|i: int|
        0 <= i < t.len() ==> hops(edges, end_of(start, t.take(i))).contains(#[trigger] t[i])
}

/// Whether the hops `t` are a walk from `start` to `end`.
pub open spec fn is_walk_to(edges: Seq<EdgeView>, start: i64, end: i64, t: Seq<HopView>) -> bool {
    is_walk(edges, start, t) && end_of(start, t) == end
}

/// Whether the hops `t` come by no node twice.
pub open spec fn is_simple(start: i64, t: Seq<HopView>) -> bool {
    ids_along(start, t).no_duplicates()
}

proof fn lemma_visits(start: i64, t: Seq<HopView>, id: i64)
    ensures
        visits(start, t, id) <==> ids_along(start, t).contains(id),
{
    let ids = ids_along(start, t);
    if visits(start, t, id) {
        if start == id {
            assert(ids[0] == id);
        } else {
            let i = choose|i: int| 0 <= i < t.len() && (#[trigger] t[i]).to == id;
            assert(ids[i + 1] == id);
        }
    }
    if ids.contains(id) {
        let i = choose|i: int| 0 <= i < ids.len() && ids[i] == id;
        if i > 0 {
            assert(t[i - 1].to == id);
        }
    }
}

pub(crate) proof fn lemma_walk_push(edges: Seq<EdgeView>, start: i64, t: Seq<HopView>, h: HopView)
    ensures
        is_walk(edges, start, t.push(h)) <==> is_walk(edges, start, t) && hops(
            edges,
            end_of(start, t),
        ).contains(h),
        is_simple(start, t.push(h)) <==> is_simple(start, t) && !visits(start, t, h.to),
{
    let u = t.push(h);
    assert(u.take(t.len() as int) =~= t);
    assert(u[t.len() as int] == h);
    assert forall|i: int| 0 <= i < t.len() implies u.take(i) == #[trigger] t.take(i) by {
        assert(u.take(i) =~= t.take(i));
    }
    if is_walk(edges, start, u) {
        assert forall|i: int| 0 <= i < t.len() implies hops(edges, end_of(start, t.take(i))).contains(
            #[trigger] t[i],
        ) by {
            assert(u[i] == t[i]);
            assert(u.take(i) == t.take(i));
        }
    }
    if is_walk(edges, start, t) && hops(edges, end_of(start, t)).contains(h) {
        assert forall|i: int| 0 <= i < u.len() implies hops(edges, end_of(start, u.take(i))).contains(
            #[trigger] u[i],
        ) by {
            if i < t.len() {
                assert(u[i] == t[i]);
                assert(u.take(i) == t.take(i));
            }
        }
    }
    let ids = ids_along(start, t);
    let uids = ids_along(start, u);
    assert(uids =~= ids.push(h.to));
    lemma_visits(start, t, h.to);
    if is_simple(start, u) {
        assert forall|i: int, j: int| 0 <= i < ids.len() && 0 <= j < ids.len() && i
            != j implies ids[i] != ids[j] by {
            assert(uids[i] != uids[j]);
        }
        if ids.contains(h.to) {
            let i = choose|i: int| 0 <= i < ids.len() && ids[i] == h.to;
            assert(uids[i] == uids[ids.len() as int]);
        }
    }
    if is_simple(start, t) && !visits(start, t, h.to) {
        assert forall|i: int, j: int| 0 <= i < uids.len() && 0 <= j < uids.len() && i
            != j implies uids[i] != uids[j] by {
            if i == ids.len() {
                assert(ids.contains(ids[j]));
            } else if j == ids.len() {
                assert(ids.contains(ids[i]));
            }
        }
    }
}

pub(crate) proof fn lemma_extensions(edges: Seq<EdgeView>, start: i64, u: Seq<HopView>, t: Seq<HopView>)
    ensures
        extensions(edges, start)(u).contains(t) <==> {
            &&& t.len() == u.len() + 1
            &&& t == u.push(t.last())
            &&& hops(edges, end_of(start, u)).contains(t.last())
            &&& !visits(start, u, t.last().to)
        },
{
    let ways = hops(edges, end_of(start, u));
    let fresh = is_fresh(start, u);
    let kept = ways.filter(fresh);
    let ext = kept.map_values(appended(u));
    assert(extensions(edges, start)(u) == ext);
    if ext.contains(t) {
        let k = choose|k: int| 0 <= k < ext.len() && ext[k] == t;
        let h = kept[k];
        assert(t == u.push(h));
        assert(kept.contains(h));
        ways.lemma_filter_pred(fresh, k);
        ways.lemma_filter_contains_rev(fresh, h);
    }
    if t.len() == u.len() + 1 && t == u.push(t.last()) && ways.contains(t.last()) && !visits(
        start,
        u,
        t.last().to,
    ) {
        let h = t.last();
        let k = choose|k: int| 0 <= k < ways.len() && ways[k] == h;
        assert(fresh(ways[k]));
        ways.lemma_filter_contains(fresh, k);
        assert(kept.contains(h));
        let j = choose|j: int| 0 <= j < kept.len() && kept[j] == h;
        assert(ext[j] == t);
    }
}

/// The trails of `n` hops that the search goes by are exactly the walks of
/// `n` hops that come by no node twice.
pub proof fn law_trails_are_simple_walks(
    edges: Seq<EdgeView>,
    start: i64,
    n: nat,
    t: Seq<HopView>,
)
    ensures
        simple_trails(edges, start, n).contains(t) <==> t.len() == n && is_walk(edges, start, t)
            && is_simple(start, t),
    decreases n,
{
    if n == 0 {
        let none: Seq<HopView> = seq![];
        assert(simple_trails(edges, start, 0)[0] == none);
        if t.len() == 0 {
            assert(t =~= none);
        }
    } else {
        let m = (n - 1) as nat;
        let prev = simple_trails(edges, start, m);
        let f = extensions(edges, start);
        crate::seqs::lemma_flat_map_contains(prev, f, t);
        if simple_trails(edges, start, n).contains(t) {
            let j = choose|j: int| 0 <= j < prev.len() && f(#[trigger] prev[j]).contains(t);
            let u = prev[j];
            assert(prev.contains(u));
            law_trails_are_simple_walks(edges, start, m, u);
            lemma_extensions(edges, start, u, t);
            lemma_walk_push(edges, start, u, t.last());
        }
        if t.len() == n && is_walk(edges, start, t) && is_simple(start, t) {
            let u = t.drop_last();
            assert(t =~= u.push(t.last()));
            lemma_walk_push(edges, start, u, t.last());
            law_trails_are_simple_walks(edges, start, m, u);
            lemma_extensions(edges, start, u, t);
            let j = choose|j: int| 0 <= j < prev.len() && prev[j] == u;
            assert(f(prev[j]).contains(t));
        }
    }
}

/// The walk `t` without the hops between its `i`-th and its `j`-th node.
spec fn cut(t: Seq<HopView>, i: int, j: int) -> Seq<HopView> {
    t.take(i) + t.skip(j)
}

proof fn lemma_cut(edges: Seq<EdgeView>, start: i64, t: Seq<HopView>, i: int, j: int)
    requires
        is_walk(edges, start, t),
        0 <= i < j <= t.len(),
        ids_along(start, t)[i] == ids_along(start, t)[j],
    ensures
        is_walk(edges, start, cut(t, i, j)),
        end_of(start, cut(t, i, j)) == end_of(start, t),
        cut(t, i, j).len() < t.len(),
{
    let c = cut(t, i, j);
    let ids = ids_along(start, t);
    assert forall|k: int| 0 <= k <= t.len() implies ids[k] == end_of(start, #[trigger] t.take(k)) by {
        if k > 0 {
            assert(t.take(k).last() == t[k - 1]);
        }
    }
    assert(t.take(t.len() as int) =~= t);
    assert forall|k: int| 0 <= k < c.len() implies hops(edges, end_of(start, c.take(k))).contains(
        #[trigger] c[k],
    ) by {
        if k < i {
            assert(c.take(k) =~= t.take(k));
            assert(c[k] == t[k]);
        } else if k == i {
            assert(c.take(k) =~= t.take(i));
            assert(c[k] == t[j]);
            assert(end_of(start, t.take(i)) == end_of(start, t.take(j)));
        } else {
            let m = k - i + j;
            assert(c[k] == t[m]);
            assert(c.take(k).last() == t[m - 1]);
            assert(t.take(m).last() == t[m - 1]);
        }
    }
    if j < t.len() {
        assert(c.last() == t.last());
    } else {
        assert(c =~= t.take(i));
    }
}

proof fn lemma_repeated_node(start: i64, t: Seq<HopView>) -> (p: (int, int))
    requires
        !is_simple(start, t),
    ensures
        0 <= p.0 < p.1 <= t.len(),
        ids_along(start, t)[p.0] == ids_along(start, t)[p.1],
{
    let ids = ids_along(start, t);
    let (i, j) = choose|i: int, j: int|
        0 <= i < ids.len() && 0 <= j < ids.len() && i != j && ids[i] == ids[j];
    if i < j {
        (i, j)
    } else {
        (j, i)
    }
}

/// A walk that comes by a node twice can be cut short: there is a walk to the
/// same end that does not, and it is no longer.
proof fn lemma_shorten(edges: Seq<EdgeView>, start: i64, t: Seq<HopView>) -> (u: Seq<HopView>)
    requires
        is_walk(edges, start, t),
    ensures
        is_walk(edges, start, u),
        is_simple(start, u),
        end_of(start, u) == end_of(start, t),
        u.len() <= t.len(),
        u.len() == t.len() ==> u == t,
    decreases t.len(),
{
    if is_simple(start, t) {
        t
    } else {
        let p = lemma_repeated_node(start, t);
        lemma_cut(edges, start, t, p.0, p.1);
        lemma_shorten(edges, start, cut(t, p.0, p.1))
    }
}

pub(crate) proof fn lemma_arrivals(edges: Seq<EdgeView>, start: i64, end: i64, n: nat, t: Seq<HopView>)
    ensures
        arrivals(edges, start, end, n).contains(t) <==> t.len() == n && is_walk_to(
            edges,
            start,
            end,
            t,
        ) && is_simple(start, t),
{
    let all = simple_trails(edges, start, n);
    let pred = arrives(start, end);
    let some = arrivals(edges, start, end, n);
    law_trails_are_simple_walks(edges, start, n, t);
    if some.contains(t) {
        let k = choose|k: int| 0 <= k < some.len() && some[k] == t;
        all.lemma_filter_pred(pred, k);
        all.lemma_filter_contains_rev(pred, t);
    }
    if all.contains(t) && end_of(start, t) == end {
        let k = choose|k: int| 0 <= k < all.len() && all[k] == t;
        all.lemma_filter_contains(pred, k);
    }
}

/// How far the shortest trails of at least `n` hops go.
pub(crate) proof fn lemma_shortest(edges: Seq<EdgeView>, start: i64, end: i64, n: nat) -> (l: nat)
    ensures
        n <= l,
        shortest_from(edges, start, end, n).len() > 0 ==> l < MAX_DEPTH && shortest_from(
            edges,
            start,
            end,
            n,
        ) == arrivals(edges, start, end, l),
        shortest_from(edges, start, end, n).len() == 0 ==> l >= MAX_DEPTH,
        forall|k: nat| n <= k < l ==> (#[trigger] arrivals(edges, start, end, k)).len() == 0,
    decreases MAX_DEPTH - n,
{
    if n >= MAX_DEPTH {
        n
    } else if arrivals(edges, start, end, n).len() > 0 {
        n
    } else {
        lemma_shortest(edges, start, end, n + 1)
    }
}

proof fn lemma_walk_bounds_shortest(
    edges: Seq<EdgeView>,
    start: i64,
    end: i64,
    l: nat,
    w: Seq<HopView>,
)
    requires
        is_walk_to(edges, start, end, w),
        forall|k: nat| k < l ==> (#[trigger] arrivals(edges, start, end, k)).len() == 0,
    ensures
        l <= w.len(),
        l == w.len() ==> arrivals(edges, start, end, l).contains(w),
{
    let u = lemma_shorten(edges, start, w);
    lemma_arrivals(edges, start, end, u.len(), u);
    let some = arrivals(edges, start, end, u.len());
    assert(some.contains(u));
}

/// Whether hop `h` out of node `id` goes along edge `e`: with its arrow, or
/// against it if the step says so.
pub open spec fn goes_along(e: EdgeView, id: i64, h: HopView) -> bool {
    &&& h.step.kind == e.kind
    &&& h.step.label == e.label
    &&& if h.step.reversed {
        e.to_node_id == id && e.from_node_id == h.to
    } else {
        e.from_node_id == id && e.to_node_id == h.to
    }
}

/// Whether hop `h` out of node `id` goes along one of the edges.
pub open spec fn goes_along_one_of(edges: Seq<EdgeView>, id: i64, h: HopView) -> bool {
    exists|i: int| 0 <= i < edges.len() && goes_along(#[trigger] edges[i], id, h)
}

pub(crate) proof fn lemma_hops_along(e: EdgeView, id: i64, h: HopView)
    ensures
        hops_along(e, id).contains(h) <==> goes_along(e, id, h),
{
    let ways = hops_along(e, id);
    if goes_along(e, id, h) {
        if h.step.reversed {
            assert(h == backward_hop(e));
            assert(ways[ways.len() - 1] == h);
        } else {
            assert(h == forward_hop(e));
            assert(ways[0] == h);
        }
    }
}

/// The hops out of a node go along the edges that start or end there, and
/// each such edge can be walked from either end.
pub proof fn law_hops_go_along_edges(edges: Seq<EdgeView>, id: i64, h: HopView)
    ensures
        hops(edges, id).contains(h) <==> goes_along_one_of(edges, id, h),
    decreases edges.len(),
{
    if edges.len() > 0 {
        let init = edges.drop_last();
        law_hops_go_along_edges(init, id, h);
        lemma_hops_along(edges.last(), id, h);
        vstd::seq_lib::lemma_seq_concat_contains_all_elements(
            hops(init, id),
            hops_along(edges.last(), id),
            h,
        );
        if hops(init, id).contains(h) {
            let i = choose|i: int| 0 <= i < init.len() && goes_along(#[trigger] init[i], id, h);
            assert(goes_along(edges[i], id, h));
        }
        if goes_along(edges.last(), id, h) {
            assert(goes_along(edges[edges.len() - 1], id, h));
        }
        if exists|i: int| 0 <= i < edges.len() && goes_along(#[trigger] edges[i], id, h) {
            let i = choose|i: int| 0 <= i < edges.len() && goes_along(#[trigger] edges[i], id, h);
            if i < init.len() {
                assert(goes_along(init[i], id, h));
            }
        }
    }
}

/// The same hop, taken the other way: from the node that it leads to, to the
/// node `id` that it leaves.
pub open spec fn hop_back(id: i64, h: HopView) -> HopView {
    HopView {
        to: id,
        step: StepView { kind: h.step.kind, reversed: !h.step.reversed, label: h.step.label },
    }
}

/// The walk `t` from `start`, taken the other way.
pub open spec fn walk_back(start: i64, t: Seq<HopView>) -> Seq<HopView> {
    Seq::new(
        t.len(),
        |k: int| hop_back(ids_along(start, t)[t.len() - 1 - k], t[t.len() - 1 - k]),
    )
}

proof fn lemma_hop_back(edges: Seq<EdgeView>, id: i64, h: HopView)
    requires
        hops(edges, id).contains(h),
    ensures
        hops(edges, h.to).contains(hop_back(id, h)),
{
    law_hops_go_along_edges(edges, id, h);
    law_hops_go_along_edges(edges, h.to, hop_back(id, h));
    let i = choose|i: int| 0 <= i < edges.len() && goes_along(#[trigger] edges[i], id, h);
    assert(goes_along(edges[i], h.to, hop_back(id, h)));
}

pub(crate) proof fn lemma_ids_along(start: i64, t: Seq<HopView>, k: int)
    requires
        0 <= k <= t.len(),
    ensures
        ids_along(start, t)[k] == end_of(start, t.take(k)),
{
    if k > 0 {
        assert(t.take(k).last() == t[k - 1]);
    }
}

/// Each walk can be taken the other way, each of its steps then going the
/// other way along its edge.
pub proof fn law_walks_go_both_ways(
    edges: Seq<EdgeView>,
    start: i64,
    end: i64,
    t: Seq<HopView>,
)
    requires
        is_walk_to(edges, start, end, t),
    ensures
        is_walk_to(edges, end, start, walk_back(start, t)),
        walk_back(start, t).len() == t.len(),
{
    let n = t.len() as int;
    let ids = ids_along(start, t);
    let back = walk_back(start, t);
    lemma_ids_along(start, t, n);
    assert(t.take(n) =~= t);
    assert forall|k: int| 0 <= k < n implies hops(edges, end_of(end, back.take(k))).contains(
        #[trigger] back[k],
    ) by {
        let i = n - 1 - k;
        lemma_ids_along(start, t, i);
        assert(hops(edges, ids[i]).contains(t[i]));
        lemma_hop_back(edges, ids[i], t[i]);
        if k > 0 {
            assert(back.take(k).last() == back[k - 1]);
        }
    }
    if n > 0 {
        assert(back.last() == back[n - 1]);
    }
}

/// A search knows of the nodes at its two ends, of the listed nodes, and of
/// no others.
pub proof fn law_known_nodes(nodes: Seq<NodeView>, start: NodeView, end: NodeView, id: i64)
    ensures
        node_with_id(known_nodes(nodes, start, end), id) is Some <==> id == start.id || id == end.id
            || node_with_id(nodes, id) is Some,
        node_with_id(nodes, id) is Some ==> node_with_id(known_nodes(nodes, start, end), id)
            == node_with_id(nodes, id),
    decreases nodes.len(),
{
    let known = known_nodes(nodes, start, end);
    if nodes.len() == 0 {
        reveal_with_fuel(node_with_id, 3);
        assert(known.drop_last() =~= seq![end]);
        assert(seq![end].drop_last() =~= seq![]);
    } else {
        law_known_nodes(nodes.drop_last(), start, end, id);
        assert(known.drop_last() =~= known_nodes(nodes.drop_last(), start, end));
    }
}

/// A trail that a search finds comes only by nodes that it knows of.
pub(crate) proof fn lemma_trails_stay_in_graph(
    nodes: Seq<NodeView>,
    edges: Seq<EdgeView>,
    start: NodeView,
    end: NodeView,
    t: Seq<HopView>,
    k: int,
)
    requires
        shortest_trails(open_edges(nodes, edges, start, end), start.id, end.id).contains(t),
        0 <= k <= t.len(),
    ensures
        node_with_id(known_nodes(nodes, start, end), ids_along(start.id, t)[k]) is Some,
{
    let g = open_edges(nodes, edges, start, end);
    lemma_found_trail(g, start.id, end.id, t);
    lemma_walk_stays_in_graph(nodes, edges, start, end, t, k);
}

proof fn lemma_walk_stays_in_graph(
    nodes: Seq<NodeView>,
    edges: Seq<EdgeView>,
    start: NodeView,
    end: NodeView,
    t: Seq<HopView>,
    k: int,
)
    requires
        is_walk(open_edges(nodes, edges, start, end), start.id, t),
        0 <= k <= t.len(),
    ensures
        node_with_id(known_nodes(nodes, start, end), ids_along(start.id, t)[k]) is Some,
{
    let g = open_edges(nodes, edges, start, end);
    let known = known_nodes(nodes, start, end);
    let ids = ids_along(start.id, t);
    law_known_nodes(nodes, start, end, start.id);
    if k > 0 {
        let h = t[k - 1];
        lemma_ids_along(start.id, t, k - 1);
        law_hops_go_along_edges(g, ids[k - 1], h);
        let j = choose|j: int| 0 <= j < g.len() && goes_along(#[trigger] g[j], ids[k - 1], h);
        edges.lemma_filter_pred(joins(known), j);
    }
}

pub(crate) proof fn lemma_found_trail(g: Seq<EdgeView>, start: i64, end: i64, t: Seq<HopView>)
    requires
        shortest_trails(g, start, end).contains(t),
    ensures
        is_walk_to(g, start, end, t),
        is_simple(start, t),
        t.len() < MAX_DEPTH,
{
    let l = lemma_shortest(g, start, end, 0);
    lemma_arrivals(g, start, end, l, t);
}

/// Each path that a search finds follows a walk from the one node to the
/// other along the edges between known nodes, which comes by no node twice
/// and by at most `MAX_DEPTH` nodes.
pub proof fn law_found_paths_are_simple_walks(
    nodes: Seq<NodeView>,
    edges: Seq<EdgeView>,
    start: NodeView,
    end: NodeView,
    max_paths: nat,
    i: int,
) -> (t: Seq<HopView>)
    requires
        0 <= i < found_paths(nodes, edges, start, end, max_paths).len(),
    ensures
        is_walk_to(open_edges(nodes, edges, start, end), start.id, end.id, t),
        is_simple(start.id, t),
        t.len() < MAX_DEPTH,
        found_paths(nodes, edges, start, end, max_paths)[i] == hit_along(
            known_nodes(nodes, start, end),
            start.id,
            t,
        ),
{
    let g = open_edges(nodes, edges, start, end);
    let all = shortest_trails(g, start.id, end.id);
    let t = all[i];
    assert(all.contains(t));
    lemma_found_trail(g, start.id, end.id, t);
    t
}

/// No walk between the two nodes takes fewer steps than a path that a search
/// finds.
pub proof fn law_no_walk_is_shorter(
    nodes: Seq<NodeView>,
    edges: Seq<EdgeView>,
    start: NodeView,
    end: NodeView,
    max_paths: nat,
    i: int,
    w: Seq<HopView>,
)
    requires
        0 <= i < found_paths(nodes, edges, start, end, max_paths).len(),
        is_walk_to(open_edges(nodes, edges, start, end), start.id, end.id, w),
    ensures
        found_paths(nodes, edges, start, end, max_paths)[i].steps.len() <= w.len(),
{
    let g = open_edges(nodes, edges, start, end);
    let all = shortest_trails(g, start.id, end.id);
    let l = lemma_shortest(g, start.id, end.id, 0);
    let t = all[i];
    assert(arrivals(g, start.id, end.id, l).contains(t));
    lemma_arrivals(g, start.id, end.id, l, t);
    lemma_walk_bounds_shortest(g, start.id, end.id, l, w);
}

/// A search finds a path whenever a walk of at most `MAX_DEPTH` nodes leads
/// from the one node to the other.
pub proof fn law_connected_nodes_are_found(
    nodes: Seq<NodeView>,
    edges: Seq<EdgeView>,
    start: NodeView,
    end: NodeView,
    max_paths: nat,
    w: Seq<HopView>,
)
    requires
        is_walk_to(open_edges(nodes, edges, start, end), start.id, end.id, w),
        w.len() < MAX_DEPTH,
    ensures
        found_paths(nodes, edges, start, end, max_paths).len() > 0,
{
    let g = open_edges(nodes, edges, start, end);
    let l = lemma_shortest(g, start.id, end.id, 0);
    lemma_walk_bounds_shortest(g, start.id, end.id, l, w);
}

/// A search that hands out fewer paths than it was asked for has found every
/// shortest walk.
pub proof fn law_every_shortest_walk_is_found(
    nodes: Seq<NodeView>,
    edges: Seq<EdgeView>,
    start: NodeView,
    end: NodeView,
    max_paths: nat,
    w: Seq<HopView>,
)
    requires
        0 < found_paths(nodes, edges, start, end, max_paths).len() < path_cap(max_paths),
        is_walk_to(open_edges(nodes, edges, start, end), start.id, end.id, w),
        w.len() == found_paths(nodes, edges, start, end, max_paths)[0].steps.len(),
    ensures
        found_paths(nodes, edges, start, end, max_paths).contains(
            hit_along(known_nodes(nodes, start, end), start.id, w),
        ),
{
    let g = open_edges(nodes, edges, start, end);
    let all = shortest_trails(g, start.id, end.id);
    let found = found_paths(nodes, edges, start, end, max_paths);
    let l = lemma_shortest(g, start.id, end.id, 0);
    assert(arrivals(g, start.id, end.id, l).contains(all[0]));
    lemma_arrivals(g, start.id, end.id, l, all[0]);
    assert(found[0].steps.len() == all[0].len());
    lemma_walk_bounds_shortest(g, start.id, end.id, l, w);
    let k = choose|k: int| 0 <= k < all.len() && all[k] == w;
    assert(found[k] == hit_along(known_nodes(nodes, start, end), start.id, w));
}

/// A search hands out at most as many paths as it was asked for, except that
/// it hands out one if it was asked for none; and asking for more paths only
/// adds paths at the end.
pub proof fn law_max_paths_cuts_off(
    nodes: Seq<NodeView>,
    edges: Seq<EdgeView>,
    start: NodeView,
    end: NodeView,
    fewer: nat,
    more: nat,
)
    requires
        fewer <= more,
    ensures
        found_paths(nodes, edges, start, end, fewer).len() <= path_cap(fewer),
        found_paths(nodes, edges, start, end, fewer) == first_n(
            found_paths(nodes, edges, start, end, more),
            path_cap(fewer),
        ),
{
    assert(found_paths(nodes, edges, start, end, fewer) =~= first_n(
        found_paths(nodes, edges, start, end, more),
        path_cap(fewer),
    ));
}

/// From a node to itself there is one path, without steps.
pub proof fn law_path_to_itself(
    nodes: Seq<NodeView>,
    edges: Seq<EdgeView>,
    start: NodeView,
    end: NodeView,
    max_paths: nat,
)
    requires
        start.id == end.id,
    ensures
        found_paths(nodes, edges, start, end, max_paths) == seq![
            hit_along(known_nodes(nodes, start, end), start.id, seq![]),
        ],
{
    let id = start.id;
    let g = open_edges(nodes, edges, start, end);
    let none: Seq<HopView> = seq![];
    let found = arrivals(g, id, id, 0);
    lemma_arrivals(g, id, id, 0, none);
    simple_trails(g, id, 0).lemma_filter_len(arrives(id, id));
    assert(is_simple(id, none));
    assert(found.contains(none));
    assert(found =~= seq![none]);
    assert(found_paths(nodes, edges, start, end, max_paths) =~= seq![
        hit_along(known_nodes(nodes, start, end), id, none),
    ]);
}

/// A search goes along the same edges in both directions.
pub(crate) proof fn lemma_same_edges(
    nodes: Seq<NodeView>,
    edges: Seq<EdgeView>,
    start: NodeView,
    end: NodeView,
)
    ensures
        open_edges(nodes, edges, end, start) == open_edges(nodes, edges, start, end),
{
    let there = joins(known_nodes(nodes, start, end));
    let back = joins(known_nodes(nodes, end, start));
    assert forall|e: EdgeView| #[trigger] there(e) == back(e) by {
        law_known_nodes(nodes, start, end, e.from_node_id);
        law_known_nodes(nodes, start, end, e.to_node_id);
        law_known_nodes(nodes, end, start, e.from_node_id);
        law_known_nodes(nodes, end, start, e.to_node_id);
    }
    assert(there =~= back);
}

/// A search finds a path from one node to another if and only if it finds one
/// back, and the two are of the same length.
pub proof fn law_search_is_undirected(
    nodes: Seq<NodeView>,
    edges: Seq<EdgeView>,
    start: NodeView,
    end: NodeView,
    max_paths: nat,
)
    ensures
        found_paths(nodes, edges, start, end, max_paths).len() > 0 <==> found_paths(
            nodes,
            edges,
            end,
            start,
            max_paths,
        ).len() > 0,
        found_paths(nodes, edges, start, end, max_paths).len() > 0 ==> found_paths(
            nodes,
            edges,
            start,
            end,
            max_paths,
        )[0].steps.len() == found_paths(nodes, edges, end, start, max_paths)[0].steps.len(),
{
    lemma_same_edges(nodes, edges, start, end);
    lemma_way_back(nodes, edges, start, end, max_paths);
    lemma_way_back(nodes, edges, end, start, max_paths);
}

proof fn lemma_way_back(
    nodes: Seq<NodeView>,
    edges: Seq<EdgeView>,
    start: NodeView,
    end: NodeView,
    max_paths: nat,
)
    requires
        open_edges(nodes, edges, end, start) == open_edges(nodes, edges, start, end),
    ensures
        found_paths(nodes, edges, start, end, max_paths).len() > 0 ==> {
            &&& found_paths(nodes, edges, end, start, max_paths).len() > 0
            &&& found_paths(nodes, edges, end, start, max_paths)[0].steps.len() <= found_paths(
                nodes,
                edges,
                start,
                end,
                max_paths,
            )[0].steps.len()
        },
{
    let g = open_edges(nodes, edges, start, end);
    if found_paths(nodes, edges, start, end, max_paths).len() > 0 {
        let t = law_found_paths_are_simple_walks(nodes, edges, start, end, max_paths, 0);
        law_walks_go_both_ways(g, start.id, end.id, t);
        let back = walk_back(start.id, t);
        law_connected_nodes_are_found(nodes, edges, end, start, max_paths, back);
        law_no_walk_is_shorter(nodes, edges, end, start, max_paths, 0, back);
    }
}

/// Whether `nodes` lists the nodes at both ends of every edge.
pub open spec fn lists_ends(nodes: Seq<NodeView>, edges: Seq<EdgeView>) -> bool {
    forall|i: int|
        0 <= i < edges.len() ==> {
            &&& node_with_id(nodes, (#[trigger] edges[i]).from_node_id) is Some
            &&& node_with_id(nodes, edges[i].to_node_id) is Some
        }
}

/// In a graph that lists the nodes at both ends of its edges, a search goes
/// along all of them.
pub proof fn law_listed_graphs_are_searched_whole(
    nodes: Seq<NodeView>,
    edges: Seq<EdgeView>,
    start: NodeView,
    end: NodeView,
)
    requires
        lists_ends(known_nodes(nodes, start, end), edges),
    ensures
        open_edges(nodes, edges, start, end) == edges,
    decreases edges.len(),
{
    let keep = joins(known_nodes(nodes, start, end));
    reveal(Seq::filter);
    if edges.len() > 0 {
        let init = edges.drop_last();
        assert forall|i: int| 0 <= i < init.len() implies {
            &&& node_with_id(known_nodes(nodes, start, end), (#[trigger] init[i]).from_node_id)
                is Some
            &&& node_with_id(known_nodes(nodes, start, end), init[i].to_node_id) is Some
        } by {
            assert(init[i] == edges[i]);
        }
        law_listed_graphs_are_searched_whole(nodes, init, start, end);
        assert(keep(edges[edges.len() - 1]));
        assert(edges.filter(keep) =~= edges);
    }
}

/// Whether `hit` is a path from node `start` to node `end` along `edges`:
/// each step goes along an edge between the two nodes that it stands between,
/// against its arrow if it says so, and no node comes twice.
pub open spec fn is_path(edges: Seq<EdgeView>, start: i64, end: i64, hit: HitView) -> bool {
    &&& hit.nodes.len() == hit.steps.len() + 1
    &&& hit.nodes.first().id == start
    &&& hit.nodes.last().id == end
    &&& forall|i: int|
        0 <= i < hit.steps.len() ==> goes_along_one_of(
            edges,
            hit.nodes[i].id,
            HopView { to: hit.nodes[i + 1].id, step: #[trigger] hit.steps[i] },
        )
    &&& forall|i: int, j: int|
        0 <= i < j < hit.nodes.len() ==> (#[trigger] hit.nodes[i]).id != (
        #[trigger] hit.nodes[j]).id
}

pub(crate) proof fn lemma_node_with_id(nodes: Seq<NodeView>, id: i64)
    ensures
        node_with_id(nodes, id) matches Some(node) ==> node.id == id && nodes.contains(node),
    decreases nodes.len(),
{
    if nodes.len() > 0 {
        if nodes.last().id == id {
            assert(nodes[nodes.len() - 1] == nodes.last());
        } else {
            lemma_node_with_id(nodes.drop_last(), id);
            if let Some(node) = node_with_id(nodes.drop_last(), id) {
                let i = choose|i: int|
                    0 <= i < nodes.drop_last().len() && nodes.drop_last()[i] == node;
                assert(nodes[i] == node);
            }
        }
    }
}

/// What a search finds are paths: they have one node more than steps, lead
/// from the one node to the other, go along edges of the graph, and tell of
/// each step in which direction it goes along its edge.
pub proof fn law_found_paths_are_paths(
    nodes: Seq<NodeView>,
    edges: Seq<EdgeView>,
    start: NodeView,
    end: NodeView,
    max_paths: nat,
    i: int,
)
    requires
        0 <= i < found_paths(nodes, edges, start, end, max_paths).len(),
    ensures
        is_path(edges, start.id, end.id, found_paths(nodes, edges, start, end, max_paths)[i]),
{
    let g = open_edges(nodes, edges, start, end);
    let known = known_nodes(nodes, start, end);
    let hit = found_paths(nodes, edges, start, end, max_paths)[i];
    let t = law_found_paths_are_simple_walks(nodes, edges, start, end, max_paths, i);
    let ids = ids_along(start.id, t);
    assert forall|j: int| 0 <= j < ids.len() implies (#[trigger] hit.nodes[j]).id == ids[j] by {
        lemma_walk_stays_in_graph(nodes, edges, start, end, t, j);
        lemma_node_with_id(known, ids[j]);
    }
    lemma_ids_along(start.id, t, t.len() as int);
    assert(t.take(t.len() as int) =~= t);
    assert(hit.nodes[0].id == start.id);
    assert(hit.nodes[t.len() as int].id == end.id);
    assert forall|j: int| 0 <= j < hit.steps.len() implies goes_along_one_of(
        edges,
        hit.nodes[j].id,
        HopView { to: hit.nodes[j + 1].id, step: #[trigger] hit.steps[j] },
    ) by {
        let h = t[j];
        lemma_ids_along(start.id, t, j);
        law_hops_go_along_edges(g, ids[j], h);
        let m = choose|m: int| 0 <= m < g.len() && goes_along(#[trigger] g[m], ids[j], h);
        assert(g.contains(g[m]));
        edges.lemma_filter_contains_rev(joins(known), g[m]);
        let k = choose|k: int| 0 <= k < edges.len() && edges[k] == g[m];
        assert(hit.nodes[j].id == ids[j]);
        assert(hit.nodes[j + 1].id == ids[j + 1]);
        assert(goes_along(edges[k], ids[j], h));
    }
    assert forall|j: int, k: int| 0 <= j < k < hit.nodes.len() implies (
    #[trigger] hit.nodes[j]).id != (#[trigger] hit.nodes[k]).id by {
        assert(ids[j] != ids[k]);
    }
}

} // verus!
