//! The search for the shortest paths between two nodes of a graph.
use std::collections::{HashMap, VecDeque};
use vstd::prelude::*;

use crate::model::{Edge, EdgeView, HitView, Node, NodeView, PathHit, PathStep, StepView};
use crate::routes::{have_first_routes, law_first_routes_are_found};
use crate::seqs;
use crate::walk;

verus! {

/// A way out of a node: the node that it leads to, and the step taken.
struct Hop {
    to: i64,
    step: PathStep,
}

/// A way out of a node, in contracts.
pub struct HopView {
    pub to: i64,
    pub step: StepView,
}

impl View for Hop {
    type V = HopView;

    closed spec fn view(&self) -> HopView {
        HopView { to: self.to, step: self.step@ }
    }
}

impl DeepView for Hop {
    type V = HopView;

    closed spec fn deep_view(&self) -> HopView {
        self@
    }
}

impl Clone for Hop {
    fn clone(&self) -> (res: Self)
        ensures
            res@ == self@,
    {
        Hop { to: self.to, step: self.step.clone() }
    }
}

/// The way along edge `e`, in the direction of its arrow.
pub open spec fn forward_hop(e: EdgeView) -> HopView {
    HopView {
        to: e.to_node_id,
        step: StepView { kind: e.kind, reversed: false, label: e.label },
    }
}

/// The way along edge `e`, against its arrow.
pub open spec fn backward_hop(e: EdgeView) -> HopView {
    HopView {
        to: e.from_node_id,
        step: StepView { kind: e.kind, reversed: true, label: e.label },
    }
}

/// The ways out of node `id` that edge `e` gives.
pub open spec fn hops_along(e: EdgeView, id: i64) -> Seq<HopView> {
    (if e.from_node_id == id { seq![forward_hop(e)] } else { seq![] }) + (if e.to_node_id == id {
        seq![backward_hop(e)]
    } else {
        seq![]
    })
}

/// The ways out of node `id`, in the order of the edges.
pub open spec fn hops(edges: Seq<EdgeView>, id: i64) -> Seq<HopView>
    decreases edges.len(),
{
    if edges.len() == 0 {
        seq![]
    } else {
        hops(edges.drop_last(), id) + hops_along(edges.last(), id)
    }
}

/// The most nodes that a path may have for the search to find it.
pub const MAX_DEPTH: usize = 64;

/// The node where the trail that leaves `start` by the hops `t` ends.
pub open spec fn end_of(start: i64, t: Seq<HopView>) -> i64 {
    if t.len() == 0 {
        start
    } else {
        t.last().to
    }
}

/// Whether the trail that leaves `start` by the hops `t` comes by node `id`.
pub open spec fn visits(start: i64, t: Seq<HopView>, id: i64) -> bool {
    start == id || exists|i: int| 0 <= i < t.len() && (#[trigger] t[i]).to == id
}

/// The hops to nodes that the trail `t` does not come by.
pub open spec fn is_fresh(start: i64, t: Seq<HopView>) -> spec_fn(HopView) -> bool {
    |h: HopView| !visits(start, t, h.to)
}

/// The trails that go on from `t`.
pub open spec fn appended(t: Seq<HopView>) -> spec_fn(HopView) -> Seq<HopView> {
    |h: HopView| t.push(h)
}

/// The trails that go one hop further than a given one, to a node that it
/// does not come by.
pub open spec fn extensions(edges: Seq<EdgeView>, start: i64) -> spec_fn(Seq<HopView>) -> Seq<
    Seq<HopView>,
> {
    |t: Seq<HopView>|
        hops(edges, end_of(start, t)).filter(is_fresh(start, t)).map_values(appended(t))
}

/// The trails of `n` hops that leave `start` and come by no node twice, in
/// the order of their first hops, then of their second, and so on.
pub open spec fn simple_trails(edges: Seq<EdgeView>, start: i64, n: nat) -> Seq<Seq<HopView>>
    decreases n,
{
    if n == 0 {
        seq![seq![]]
    } else {
        simple_trails(edges, start, (n - 1) as nat).flat_map(extensions(edges, start))
    }
}

/// Whether a trail that leaves `start` ends at `end`.
pub open spec fn arrives(start: i64, end: i64) -> spec_fn(Seq<HopView>) -> bool {
    |t: Seq<HopView>| end_of(start, t) == end
}

/// The trails of `n` hops from `start` to `end`.
pub open spec fn arrivals(edges: Seq<EdgeView>, start: i64, end: i64, n: nat) -> Seq<
    Seq<HopView>,
> {
    simple_trails(edges, start, n).filter(arrives(start, end))
}

/// Of the trails from `start` to `end` with at least `n` hops, the shortest.
pub open spec fn shortest_from(edges: Seq<EdgeView>, start: i64, end: i64, n: nat) -> Seq<
    Seq<HopView>,
>
    decreases MAX_DEPTH - n,
{
    if n >= MAX_DEPTH {
        seq![]
    } else if arrivals(edges, start, end, n).len() > 0 {
        arrivals(edges, start, end, n)
    } else {
        shortest_from(edges, start, end, n + 1)
    }
}

/// The shortest trails from `start` to `end`, none if they have more than
/// `MAX_DEPTH` nodes.
pub open spec fn shortest_trails(edges: Seq<EdgeView>, start: i64, end: i64) -> Seq<
    Seq<HopView>,
> {
    shortest_from(edges, start, end, 0)
}

/// How many paths a search for at most `max_paths` hands out: at least one.
pub open spec fn path_cap(max_paths: nat) -> nat {
    if max_paths == 0 {
        1
    } else {
        max_paths
    }
}

/// The first `n` items of `s`, or all of them if it has fewer.
pub open spec fn first_n<A>(s: Seq<A>, n: nat) -> Seq<A> {
    if s.len() <= n {
        s
    } else {
        s.take(n as int)
    }
}

/// The ids of the nodes that the trail `t` from `start` comes by, in order.
pub open spec fn ids_along(start: i64, t: Seq<HopView>) -> Seq<i64> {
    seq![start] + t.map_values(|h: HopView| h.to)
}

/// The node with the given id: the last one, if `nodes` lists several.
pub open spec fn node_with_id(nodes: Seq<NodeView>, id: i64) -> Option<NodeView>
    decreases nodes.len(),
{
    if nodes.len() == 0 {
        None
    } else if nodes.last().id == id {
        Some(nodes.last())
    } else {
        node_with_id(nodes.drop_last(), id)
    }
}

/// The nodes that a search from `start` to `end` knows of: those that are
/// listed, and the two themselves.
pub open spec fn known_nodes(nodes: Seq<NodeView>, start: NodeView, end: NodeView) -> Seq<
    NodeView,
> {
    seq![end, start] + nodes
}

/// Whether an edge leads from one of the nodes to another of them.
pub open spec fn joins(nodes: Seq<NodeView>) -> spec_fn(EdgeView) -> bool {
    |e: EdgeView|
        node_with_id(nodes, e.from_node_id) is Some && node_with_id(nodes, e.to_node_id) is Some
}

/// The edges that a search from `start` to `end` goes along: those between
/// nodes that it knows of.
pub open spec fn open_edges(
    nodes: Seq<NodeView>,
    edges: Seq<EdgeView>,
    start: NodeView,
    end: NodeView,
) -> Seq<EdgeView> {
    edges.filter(joins(known_nodes(nodes, start, end)))
}

/// The node with a given id, which is one of `nodes`.
pub open spec fn node_of(nodes: Seq<NodeView>) -> spec_fn(i64) -> NodeView {
    |id: i64| node_with_id(nodes, id)->0
}

/// The step of a hop.
pub open spec fn step_of() -> spec_fn(HopView) -> StepView {
    |h: HopView| h.step
}

/// The path that the trail `t` from `start` takes, between nodes of `nodes`.
pub open spec fn hit_along(nodes: Seq<NodeView>, start: i64, t: Seq<HopView>) -> HitView {
    HitView {
        nodes: ids_along(start, t).map_values(node_of(nodes)),
        steps: t.map_values(step_of()),
    }
}

/// The path that a trail from `start` takes.
pub open spec fn as_hit(nodes: Seq<NodeView>, start: i64) -> spec_fn(Seq<HopView>) -> HitView {
    |t: Seq<HopView>| hit_along(nodes, start, t)
}

/// The paths that a search from node `start` to node `end` hands out.
pub open spec fn found_paths(
    nodes: Seq<NodeView>,
    edges: Seq<EdgeView>,
    start: NodeView,
    end: NodeView,
    max_paths: nat,
) -> Seq<HitView> {
    first_n(
        shortest_trails(open_edges(nodes, edges, start, end), start.id, end.id),
        path_cap(max_paths),
    ).map_values(as_hit(known_nodes(nodes, start, end), start.id))
}

/// The trails that the search queues when it takes `t` from the queue.
spec fn expansion(edges: Seq<EdgeView>, start: i64, end: i64) -> spec_fn(Seq<HopView>) -> Seq<
    Seq<HopView>,
> {
    |t: Seq<HopView>|
        if end_of(start, t) == end || t.len() + 1 >= MAX_DEPTH {
            seq![]
        } else {
            extensions(edges, start)(t)
        }
}

/// The trails of `n` hops that the search queues, in that order.
spec fn queued(edges: Seq<EdgeView>, start: i64, end: i64, n: nat) -> Seq<Seq<HopView>>
    decreases n,
{
    if n == 0 {
        seq![seq![]]
    } else {
        queued(edges, start, end, (n - 1) as nat).flat_map(expansion(edges, start, end))
    }
}

proof fn lemma_queued_len(edges: Seq<EdgeView>, start: i64, end: i64, n: nat)
    ensures
        forall|i: int|
            0 <= i < queued(edges, start, end, n).len() ==> (#[trigger] queued(
                edges,
                start,
                end,
                n,
            )[i]).len() == n,
        n >= MAX_DEPTH ==> queued(edges, start, end, n).len() == 0,
    decreases n,
{
    if n > 0 {
        let m = (n - 1) as nat;
        let prev = queued(edges, start, end, m);
        let f = expansion(edges, start, end);
        lemma_queued_len(edges, start, end, m);
        let q = queued(edges, start, end, n);
        assert forall|i: int| 0 <= i < q.len() implies (#[trigger] q[i]).len() == n && n
            < MAX_DEPTH by {
            let x = q[i];
            assert(q.contains(x));
            seqs::lemma_flat_map_contains(prev, f, x);
            let j = choose|j: int| 0 <= j < prev.len() && f(#[trigger] prev[j]).contains(x);
            let t = prev[j];
            let k = f(t).index_of(x);
            assert(f(t)[k] == x);
            assert(t.len() == m);
        }
        if n >= MAX_DEPTH && q.len() > 0 {
            assert(q[0].len() == n);
        }
    }
}

/// Until the search has come to `end`, it queues every simple trail.
proof fn lemma_queued_all(edges: Seq<EdgeView>, start: i64, end: i64, n: nat)
    requires
        n < MAX_DEPTH,
        forall|k: nat|
            k < n ==> (#[trigger] queued(edges, start, end, k)).filter(arrives(start, end)).len()
                == 0,
    ensures
        queued(edges, start, end, n) == simple_trails(edges, start, n),
    decreases n,
{
    if n > 0 {
        let m = (n - 1) as nat;
        lemma_queued_all(edges, start, end, m);
        lemma_queued_len(edges, start, end, m);
        let prev = queued(edges, start, end, m);
        let pred = arrives(start, end);
        assert(prev.filter(pred).len() == 0);
        let f = expansion(edges, start, end);
        let g = extensions(edges, start);
        assert forall|i: int| 0 <= i < prev.len() implies f(#[trigger] prev[i]) == g(prev[i]) by {
            if pred(prev[i]) {
                prev.lemma_filter_contains(pred, i);
                assert(prev.filter(pred).contains(prev[i]));
                assert(false);
            }
        }
        assert(prev.map_values(f) =~= prev.map_values(g));
    }
}

/// The trails to `end` among the first `i` that the search takes from the
/// queue with `n` hops.
spec fn seen(edges: Seq<EdgeView>, start: i64, end: i64, n: nat, i: int) -> Seq<Seq<HopView>> {
    queued(edges, start, end, n).take(i).filter(arrives(start, end))
}

/// The search has not come to `end` on a trail of fewer than `n` hops.
spec fn not_yet_there(edges: Seq<EdgeView>, start: i64, end: i64, n: nat) -> bool {
    forall|k: nat|
        k < n ==> (#[trigger] queued(edges, start, end, k)).filter(arrives(start, end)).len() == 0
}

/// The state of the search once it has taken all trails of fewer than `n`
/// hops from the queue, and the first `i` of those with `n` hops.
spec fn search_state(
    edges: Seq<EdgeView>,
    start: i64,
    end: i64,
    n: nat,
    i: int,
    queue: Seq<Seq<HopView>>,
    shortest: Option<usize>,
    hits: Seq<Seq<HopView>>,
) -> bool {
    let level = queued(edges, start, end, n);
    &&& 0 <= i <= level.len()
    &&& n < MAX_DEPTH
    &&& queue == level.skip(i) + level.take(i).flat_map(expansion(edges, start, end))
    &&& match shortest {
        None => {
            &&& not_yet_there(edges, start, end, n)
            &&& seen(edges, start, end, n, i).len() == 0
            &&& hits.len() == 0
        },
        Some(l) => {
            &&& l <= n
            &&& not_yet_there(edges, start, end, l as nat)
            &&& hits.len() > 0
            &&& hits == if l == n {
                seen(edges, start, end, n, i)
            } else {
                queued(edges, start, end, l as nat).filter(arrives(start, end))
            }
        },
    }
}

proof fn lemma_shortest_from(edges: Seq<EdgeView>, start: i64, end: i64, l: nat, k: nat)
    requires
        k <= l <= MAX_DEPTH,
        not_yet_there(edges, start, end, l),
    ensures
        shortest_from(edges, start, end, k) == shortest_from(edges, start, end, l),
    decreases l - k,
{
    if k < l {
        lemma_queued_all(edges, start, end, k);
        assert(queued(edges, start, end, k).filter(arrives(start, end)).len() == 0);
        lemma_shortest_from(edges, start, end, l, k + 1);
    }
}

/// What the search has found once it has taken all trails of `l` hops, the
/// shortest that come to `end`.
proof fn lemma_found(edges: Seq<EdgeView>, start: i64, end: i64, l: nat)
    requires
        l < MAX_DEPTH,
        not_yet_there(edges, start, end, l),
        queued(edges, start, end, l).filter(arrives(start, end)).len() > 0,
    ensures
        shortest_trails(edges, start, end) == queued(edges, start, end, l).filter(
            arrives(start, end),
        ),
{
    lemma_shortest_from(edges, start, end, l, 0);
    lemma_queued_all(edges, start, end, l);
}

proof fn lemma_no_longer_trails(edges: Seq<EdgeView>, start: i64, n: nat, m: nat)
    requires
        simple_trails(edges, start, n).len() == 0,
        n <= m,
    ensures
        simple_trails(edges, start, m).len() == 0,
    decreases m,
{
    if n < m {
        lemma_no_longer_trails(edges, start, n, (m - 1) as nat);
        assert(simple_trails(edges, start, (m - 1) as nat) =~= Seq::empty());
        seqs::lemma_flat_map_empty(extensions(edges, start));
    }
}

proof fn lemma_shortest_from_empty(edges: Seq<EdgeView>, start: i64, end: i64, n: nat)
    requires
        simple_trails(edges, start, n).len() == 0,
    ensures
        shortest_from(edges, start, end, n).len() == 0,
    decreases MAX_DEPTH - n,
{
    if n < MAX_DEPTH {
        simple_trails(edges, start, n).lemma_filter_len(arrives(start, end));
        lemma_no_longer_trails(edges, start, n, n + 1);
        lemma_shortest_from_empty(edges, start, end, n + 1);
    }
}

/// What the search has found once the queue is empty and it has not come to
/// `end`.
proof fn lemma_none_found(edges: Seq<EdgeView>, start: i64, end: i64, n: nat)
    requires
        n < MAX_DEPTH,
        not_yet_there(edges, start, end, n),
        queued(edges, start, end, n).filter(arrives(start, end)).len() == 0,
        queued(edges, start, end, n + 1).len() == 0,
    ensures
        shortest_trails(edges, start, end).len() == 0,
{
    assert(not_yet_there(edges, start, end, n + 1));
    lemma_shortest_from(edges, start, end, n + 1, 0);
    if n + 1 < MAX_DEPTH {
        lemma_queued_all(edges, start, end, n + 1);
        lemma_shortest_from_empty(edges, start, end, n + 1);
    }
}

/// What the table `by_id` holds for node `id`.
spec fn tabled(by_id: Map<i64, &Node>, id: i64) -> Option<NodeView> {
    if by_id.contains_key(id) {
        Some(by_id[id]@)
    } else {
        None
    }
}

/// Whether the table `by_id` holds the node with each id.
spec fn is_table(by_id: Map<i64, &Node>, nodes: Seq<NodeView>) -> bool {
    forall|id: i64| #[trigger] tabled(by_id, id) == node_with_id(nodes, id)
}

proof fn lemma_table_insert(by_id: Map<i64, &Node>, nodes: Seq<NodeView>, node: &Node)
    requires
        is_table(by_id, nodes),
    ensures
        is_table(by_id.insert(node.id, node), nodes.push(node@)),
{
    assert(nodes.push(node@).drop_last() =~= nodes);
    assert forall|id: i64| #[trigger]
        tabled(by_id.insert(node.id, node), id) == node_with_id(nodes.push(node@), id) by {
        assert(tabled(by_id, id) == node_with_id(nodes, id));
    }
}

/// The nodes that a search knows of, by their ids.
fn nodes_by_id<'a>(nodes: &'a [Node], start: &'a Node, end: &'a Node) -> (by_id: HashMap<
    i64,
    &'a Node,
>)
    ensures
        is_table(by_id@, known_nodes(nodes.deep_view(), start@, end@)),
{
    broadcast use vstd::std_specs::hash::group_hash_axioms;

    let ghost ns = nodes.deep_view();
    let mut by_id: HashMap<i64, &'a Node> = HashMap::new();
    proof {
        lemma_table_insert(by_id@, seq![], end);
        lemma_table_insert(by_id@.insert(end.id, end), seq![].push(end@), start);
        assert(seq![].push(end@).push(start@) =~= seq![end@, start@] + ns.take(0));
    }
    by_id.insert(end.id, end);
    by_id.insert(start.id, start);
    let mut k: usize = 0;
    while k < nodes.len()
        invariant
            k <= nodes.len(),
            ns == nodes.deep_view(),
            is_table(by_id@, seq![end@, start@] + ns.take(k as int)),
        decreases nodes.len() - k,
    {
        let node = &nodes[k];
        proof {
            let done = seq![end@, start@] + ns.take(k as int);
            lemma_table_insert(by_id@, done, node);
            assert(done.push(node@) =~= seq![end@, start@] + ns.take(k + 1));
        }
        by_id.insert(node.id, node);
        k += 1;
    }
    assert(ns.take(nodes.len() as int) =~= ns);
    by_id
}

/// What the adjacency table `adj` says of node `id`.
spec fn listed(adj: Map<i64, Vec<Hop>>, id: i64) -> Seq<HopView> {
    if adj.contains_key(id) {
        adj[id].deep_view()
    } else {
        seq![]
    }
}

/// Whether the adjacency table `adj` says which ways lead out of each node.
spec fn is_adjacency(adj: Map<i64, Vec<Hop>>, edges: Seq<EdgeView>) -> bool {
    forall|id: i64| #[trigger] listed(adj, id) == hops(edges, id)
}

/// The ways out of each node along the edges between the nodes of `by_id`.
fn adjacency(edges: &[Edge], by_id: &HashMap<i64, &Node>, Ghost(nodes): Ghost<Seq<NodeView>>) -> (adj:
    HashMap<i64, Vec<Hop>>)
    requires
        is_table(by_id@, nodes),
    ensures
        is_adjacency(adj@, edges.deep_view().filter(joins(nodes))),
{
    broadcast use vstd::std_specs::hash::group_hash_axioms;

    let ghost es = edges.deep_view();
    let ghost keep = joins(nodes);
    let mut adj: HashMap<i64, Vec<Hop>> = HashMap::new();
    let mut k: usize = 0;
    proof {
        es.take(0).lemma_filter_len(keep);
        assert(es.take(0).filter(keep) =~= seq![]);
    }
    while k < edges.len()
        invariant
            k <= edges.len(),
            es == edges.deep_view(),
            keep == joins(nodes),
            is_table(by_id@, nodes),
            is_adjacency(adj@, es.take(k as int).filter(keep)),
        decreases edges.len() - k,
    {
        let e = &edges[k];
        let ghost done = es.take(k as int);
        proof {
            assert(es.take(k + 1) =~= done.push(e@));
            done.lemma_filter_push(e@, keep);
            assert(tabled(by_id@, e.from_node_id) == node_with_id(nodes, e.from_node_id));
            assert(tabled(by_id@, e.to_node_id) == node_with_id(nodes, e.to_node_id));
        }
        if by_id.contains_key(&e.from_node_id) && by_id.contains_key(&e.to_node_id) {
            let ghost before = adj@;
            let fwd = Hop {
                to: e.to_node_id,
                step: PathStep { kind: e.kind.clone(), reversed: false, label: e.label.clone() },
            };
            adj.entry(e.from_node_id).or_insert(Vec::new()).push(fwd);
            let ghost mid = adj@;
            let back = Hop {
                to: e.from_node_id,
                step: PathStep { kind: e.kind.clone(), reversed: true, label: e.label.clone() },
            };
            adj.entry(e.to_node_id).or_insert(Vec::new()).push(back);
            proof {
                let kept = done.filter(keep);
                assert(kept.push(e@).drop_last() =~= kept);
                assert forall|id: i64| #[trigger]
                    listed(adj@, id) == hops(kept.push(e@), id) by {
                    assert(listed(before, id) == hops(kept, id));
                    assert(listed(mid, id) =~= listed(before, id) + (if e.from_node_id == id {
                        seq![forward_hop(e@)]
                    } else {
                        seq![]
                    }));
                    assert(listed(adj@, id) =~= listed(before, id) + hops_along(e@, id));
                }
            }
        }
        k += 1;
    }
    assert(es.take(edges.len() as int) =~= es);
    adj
}

fn visits_node(start: i64, t: &Vec<Hop>, id: i64) -> (res: bool)
    ensures
        res == visits(start, t.deep_view(), id),
{
    if start == id {
        return true;
    }
    let mut i: usize = 0;
    while i < t.len()
        invariant
            i <= t.len(),
            forall|j: int| 0 <= j < i ==> (#[trigger] t.deep_view()[j]).to != id,
        decreases t.len() - i,
    {
        if t[i].to == id {
            assert(t.deep_view()[i as int].to == id);
            return true;
        }
        i += 1;
    }
    false
}

/// Queues the trails that go on from `t` by one of the hops `ways` to a node
/// that `t` does not come by.
fn queue_extensions(queue: &mut VecDeque<Vec<Hop>>, start: i64, t: &Vec<Hop>, ways: &Vec<Hop>)
    ensures
        final(queue).deep_view() == old(queue).deep_view() + ways.deep_view().filter(
            is_fresh(start, t.deep_view()),
        ).map_values(appended(t.deep_view())),
{
    let ghost fresh = is_fresh(start, t.deep_view());
    let ghost app = appended(t.deep_view());
    let ghost before = queue.deep_view();
    let mut i: usize = 0;
    proof {
        assert(ways.deep_view().take(0) =~= seq![]);
        assert(queue.deep_view() =~= before + ways.deep_view().take(0).filter(fresh).map_values(
            app,
        ));
    }
    while i < ways.len()
        invariant
            i <= ways.len(),
            fresh == is_fresh(start, t.deep_view()),
            app == appended(t.deep_view()),
            queue.deep_view() == before + ways.deep_view().take(i as int).filter(
                fresh,
            ).map_values(app),
        decreases ways.len() - i,
    {
        let way = &ways[i];
        let ghost old_queue = queue.deep_view();
        let ghost done = ways.deep_view().take(i as int);
        proof {
            assert(ways.deep_view().take(i + 1) =~= done.push(way@));
            done.lemma_filter_push(way@, fresh);
        }
        if !visits_node(start, t, way.to) {
            let mut next: Vec<Hop> = t.clone();
            assert(next.deep_view() =~= t.deep_view());
            next.push(way.clone());
            assert(next.deep_view() =~= t.deep_view().push(way@));
            queue.push_back(next);
            proof {
                assert(queue.deep_view() =~= old_queue.push(app(way@)));
                assert(ways.deep_view().take(i + 1).filter(fresh).map_values(app)
                    =~= done.filter(fresh).map_values(app).push(app(way@)));
            }
        }
        i += 1;
    }
    proof {
        assert(ways.deep_view().take(ways.len() as int) =~= ways.deep_view());
    }
}

/// Searches breadth-first from `start` for the shortest trails to `end`.
fn search_trails(
    adj: &HashMap<i64, Vec<Hop>>,
    start: i64,
    end: i64,
    max_paths: usize,
    Ghost(es): Ghost<Seq<EdgeView>>,
) -> (found: Vec<Vec<Hop>>)
    requires
        is_adjacency(adj@, es),
    ensures
        found.deep_view() == first_n(
            shortest_trails(es, start, end),
            path_cap(max_paths as nat),
        ),
{
    broadcast use vstd::std_specs::hash::group_hash_axioms;

    let ghost exp = expansion(es, start, end);
    let ghost pred = arrives(start, end);
    let mut queue: VecDeque<Vec<Hop>> = VecDeque::new();
    queue.push_back(Vec::new());
    let mut hits: Vec<Vec<Hop>> = Vec::new();
    let mut shortest: Option<usize> = None;
    let ghost mut n: nat = 0;
    let ghost mut i: int = 0;
    proof {
        let level = queued(es, start, end, 0);
        assert(queue.deep_view()[0] =~= Seq::<HopView>::empty());
        assert(level.take(0) =~= Seq::<Seq<HopView>>::empty());
        seqs::lemma_flat_map_empty(exp);
        assert(queue.deep_view() =~= level.skip(0) + level.take(0).flat_map(exp));
    }
    loop
        invariant
            exp == expansion(es, start, end),
            pred == arrives(start, end),
            is_adjacency(adj@, es),
            search_state(
                es,
                start,
                end,
                n,
                i,
                queue.deep_view(),
                shortest,
                hits.deep_view(),
            ),
            hits.len() > 0 ==> hits.len() < max_paths,
        decreases MAX_DEPTH - n, queued(es, start, end, n).len() - i,
    {
        let ghost before = queue.deep_view();
        let ghost level0 = queued(es, start, end, n);
        let trail = match queue.pop_front() {
            Some(trail) => trail,
            None => {
                proof {
                    assert(before.len() == level0.skip(i).len() + level0.take(i).flat_map(
                        exp,
                    ).len());
                    assert(i == level0.len());
                    assert(level0.take(i) =~= level0);
                    assert(queued(es, start, end, n + 1) =~= level0.flat_map(exp));
                    match shortest {
                        None => lemma_none_found(es, start, end, n),
                        Some(l) => lemma_found(es, start, end, l as nat),
                    }
                    assert(hits.deep_view() =~= first_n(
                        shortest_trails(es, start, end),
                        path_cap(max_paths as nat),
                    ));
                }
                return hits;
            },
        };
        assert(queue.deep_view() =~= before.skip(1));
        assert(trail.deep_view() == before[0]);
        proof {
            if i == level0.len() {
                // The last trail of this length is done: go on to the next.
                assert(level0.take(i) =~= level0);
                assert(level0.skip(i) =~= Seq::<Seq<HopView>>::empty());
                let level = queued(es, start, end, n + 1);
                assert(before =~= level);
                lemma_queued_len(es, start, end, n + 1);
                assert(level.take(0) =~= Seq::<Seq<HopView>>::empty());
                seqs::lemma_flat_map_empty(exp);
                assert(before =~= level.skip(0) + level.take(0).flat_map(exp));
                assert(seen(es, start, end, n, i) == level0.filter(pred));
                assert(seen(es, start, end, n + 1, 0).len() == 0);
                n = n + 1;
                i = 0;
            }
        }
        let ghost level = queued(es, start, end, n);
        proof {
            lemma_queued_len(es, start, end, n);
            assert(level.skip(i)[0] == level[i]);
            assert(trail.deep_view() == level[i]);
            assert(level.take(i + 1) =~= level.take(i).push(level[i]));
            level.take(i).lemma_flat_map_push(exp, level[i]);
            level.take(i).lemma_filter_push(level[i], pred);
            assert(queue.deep_view() =~= level.skip(i + 1) + level.take(i).flat_map(exp));
        }
        let cur: i64 = if trail.len() == 0 {
            start
        } else {
            trail[trail.len() - 1].to
        };
        assert(cur == end_of(start, trail.deep_view()));
        if cur == end {
            match shortest {
                None => {
                    shortest = Some(trail.len());
                },
                Some(l) => {
                    if trail.len() > l {
                        proof {
                            lemma_found(es, start, end, l as nat);
                            assert(hits.deep_view() =~= first_n(
                                shortest_trails(es, start, end),
                                path_cap(max_paths as nat),
                            ));
                        }
                        return hits;
                    }
                },
            }
            let ghost old_hits = hits.deep_view();
            let ghost t = trail.deep_view();
            hits.push(trail);
            proof {
                assert(hits.deep_view() =~= old_hits.push(t));
                assert(exp(t) =~= seq![]);
                assert(hits.deep_view() =~= seen(es, start, end, n, i + 1));
            }
            if hits.len() >= max_paths {
                proof {
                    Seq::filter_distributes_over_add(level.take(i + 1), level.skip(i + 1), pred);
                    assert(level =~= level.take(i + 1) + level.skip(i + 1));
                    lemma_found(es, start, end, n);
                    assert(hits.deep_view() =~= first_n(
                        shortest_trails(es, start, end),
                        path_cap(max_paths as nat),
                    ));
                }
                return hits;
            }
        } else if trail.len() + 1 < MAX_DEPTH {
            match adj.get(&cur) {
                Some(ways) => {
                    assert(listed(adj@, cur) == hops(es, cur));
                    queue_extensions(&mut queue, start, &trail, ways);
                },
                None => {
                    assert(listed(adj@, cur) == hops(es, cur));
                    assert(exp(trail.deep_view()) =~= seq![]);
                },
            }
        }
        proof {
            assert(queue.deep_view() =~= level.skip(i + 1) + level.take(i + 1).flat_map(exp));
            i = i + 1;
        }
    }
}

/// Turns the trail `trail` from `start` into a path.
fn path_along(
    by_id: &HashMap<i64, &Node>,
    start: i64,
    trail: &Vec<Hop>,
    Ghost(nodes): Ghost<Seq<NodeView>>,
) -> (hit: PathHit)
    requires
        is_table(by_id@, nodes),
        forall|i: int|
            0 <= i < ids_along(start, trail.deep_view()).len() ==> node_with_id(
                nodes,
                #[trigger] ids_along(start, trail.deep_view())[i],
            ) is Some,
    ensures
        hit@ == hit_along(nodes, start, trail.deep_view()),
{
    broadcast use vstd::std_specs::hash::group_hash_axioms;

    let ghost t = trail.deep_view();
    let ghost ids = ids_along(start, t);
    let mut path_nodes: Vec<Node> = Vec::new();
    let mut steps: Vec<PathStep> = Vec::new();
    proof {
        assert(node_with_id(nodes, ids[0]) is Some);
        assert(tabled(by_id@, start) is Some);
    }
    if let Some(node) = by_id.get(&start) {
        path_nodes.push((*node).clone());
    }
    proof {
        assert(path_nodes.deep_view() =~= ids.take(1).map_values(node_of(nodes)));
        assert(steps.deep_view() =~= t.take(0).map_values(step_of()));
    }
    let mut k: usize = 0;
    while k < trail.len()
        invariant
            k <= trail.len(),
            t == trail.deep_view(),
            ids == ids_along(start, t),
            is_table(by_id@, nodes),
            forall|i: int|
                0 <= i < ids.len() ==> node_with_id(nodes, #[trigger] ids[i]) is Some,
            path_nodes.deep_view() == ids.take(k + 1).map_values(node_of(nodes)),
            steps.deep_view() == t.take(k as int).map_values(step_of()),
        decreases trail.len() - k,
    {
        let hop = &trail[k];
        let ghost old_nodes = path_nodes.deep_view();
        let ghost old_steps = steps.deep_view();
        proof {
            assert(ids[k + 1] == hop.to);
            assert(tabled(by_id@, hop.to) is Some);
        }
        if let Some(node) = by_id.get(&hop.to) {
            let copy = (*node).clone();
            path_nodes.push(copy);
            assert(path_nodes.deep_view() =~= old_nodes.push(copy@));
        }
        let step = hop.step.clone();
        steps.push(step);
        proof {
            assert(path_nodes.deep_view() =~= ids.take(k + 2).map_values(node_of(nodes)));
            assert(steps.deep_view() =~= old_steps.push(step@));
            assert(steps.deep_view() =~= t.take(k + 1).map_values(step_of()));
        }
        k += 1;
    }
    proof {
        assert(ids.take(ids.len() as int) =~= ids);
        assert(t.take(t.len() as int) =~= t);
    }
    PathHit { nodes: path_nodes, steps }
}

/// Why a search could not start.
#[derive(Debug)]
pub enum PathError {
    /// No node has the app id to start from.
    FromNotFound(String),
    /// No node has the app id to go to.
    ToNotFound(String),
}

impl PathError {
    /// The error in words.
    pub fn message(&self) -> (out: String)
        ensures
            out@ == match *self {
                PathError::FromNotFound(id) => "from app_id not found: "@ + id@,
                PathError::ToNotFound(id) => "to app_id not found: "@ + id@,
            },
    {
        let mut out = String::new();
        match self {
            PathError::FromNotFound(id) => {
                out.push_str("from app_id not found: ");
                out.push_str(id.as_str());
            },
            PathError::ToNotFound(id) => {
                out.push_str("to app_id not found: ");
                out.push_str(id.as_str());
            },
        }
        out
    }
}

/// Finds the shortest paths between two nodes of a graph.
///
/// `start` and `end` are the nodes with the app ids `from_app_id` and
/// `to_app_id`, if there are such; `nodes` and `edges` are those of the whole
/// graph. Edges are walked in both directions, and each step tells whether it
/// goes against the arrow of its edge. Without this a leaf reply could never
/// find its ancestor, because reply edges point from parent to child only.
///
/// A path has one node more than it has steps. So the search keeps to the
/// listed nodes, `start` and `end`: an edge to or from any other node is
/// passed over.
///
/// The shortest paths of at most 64 nodes are handed out, in the order of the
/// edges that they go along, as many as `max_paths`, but at least one.
pub fn find_paths(
    start: Option<&Node>,
    end: Option<&Node>,
    nodes: &[Node],
    edges: &[Edge],
    from_app_id: &str,
    to_app_id: &str,
    max_paths: usize,
) -> (res: Result<Vec<PathHit>, PathError>)
    ensures
        match res {
            Err(PathError::FromNotFound(id)) => start is None && id@ == from_app_id@,
            Err(PathError::ToNotFound(id)) => start is Some && end is None && id@ == to_app_id@,
            Ok(hits) => start is Some && end is Some && hits.deep_view() == found_paths(
                nodes.deep_view(),
                edges.deep_view(),
                start->0@,
                end->0@,
                max_paths as nat,
            ),
        },
        res is Ok ==> forall|i: int|
            0 <= i < res->Ok_0.deep_view().len() ==> (
            #[trigger] res->Ok_0.deep_view()[i]).steps.len() + 1
                == res->Ok_0.deep_view()[i].nodes.len(),
        res is Ok ==> have_first_routes(
            nodes.deep_view(),
            edges.deep_view(),
            start->0@,
            end->0@,
            max_paths as nat,
            res->Ok_0.deep_view(),
        ),
{
    let start: &Node = match start {
        Some(node) => node,
        None => {
            return Err(PathError::FromNotFound(from_app_id.to_owned()));
        },
    };
    let end: &Node = match end {
        Some(node) => node,
        None => {
            return Err(PathError::ToNotFound(to_app_id.to_owned()));
        },
    };
    let ghost known = known_nodes(nodes.deep_view(), start@, end@);
    let ghost es = edges.deep_view().filter(joins(known));
    let by_id = nodes_by_id(nodes, start, end);
    let adj = adjacency(edges, &by_id, Ghost(known));
    let trails = search_trails(&adj, start.id, end.id, max_paths, Ghost(es));
    let ghost ts = trails.deep_view();
    proof {
        assert forall|i: int, k: int|
            0 <= i < ts.len() && 0 <= k < ids_along(start.id, ts[i]).len() implies node_with_id(
            known,
            #[trigger] ids_along(start.id, ts[i])[k],
        ) is Some by {
            assert(shortest_trails(es, start.id, end.id)[i] == ts[i]);
            walk::lemma_trails_stay_in_graph(
                nodes.deep_view(),
                edges.deep_view(),
                start@,
                end@,
                ts[i],
                k,
            );
        }
    }
    let mut hits: Vec<PathHit> = Vec::new();
    let mut i: usize = 0;
    while i < trails.len()
        invariant
            i <= trails.len(),
            ts == trails.deep_view(),
            is_table(by_id@, known),
            forall|i: int, k: int|
                0 <= i < ts.len() && 0 <= k < ids_along(start.id, ts[i]).len() ==> node_with_id(
                    known,
                    #[trigger] ids_along(start.id, ts[i])[k],
                ) is Some,
            hits.deep_view() == ts.take(i as int).map_values(as_hit(known, start.id)),
        decreases trails.len() - i,
    {
        let ghost old_hits = hits.deep_view();
        assert(ts[i as int] == trails[i as int].deep_view());
        let hit = path_along(&by_id, start.id, &trails[i], Ghost(known));
        hits.push(hit);
        proof {
            assert(hits.deep_view() =~= old_hits.push(hit@));
            assert(hits.deep_view() =~= ts.take(i + 1).map_values(as_hit(known, start.id)));
        }
        i += 1;
    }
    assert(ts.take(ts.len() as int) =~= ts);
    proof {
        let routes = law_first_routes_are_found(
            nodes.deep_view(),
            edges.deep_view(),
            start@,
            end@,
            max_paths as nat,
        );
    }
    Ok(hits)
}

} // verus!
