//! What a search finds on the way back: the same paths, turned round.
use vstd::prelude::*;
use vstd::seq_lib::{to_multiset_build, to_multiset_contains, to_multiset_len, to_multiset_remove};

use crate::model::{EdgeView, HitView, NodeView, StepView};
use crate::search::{
    HopView, MAX_DEPTH, appended, arrivals, arrives, as_hit, backward_hop, end_of, extensions,
    forward_hop, found_paths, hit_along, hops, hops_along, ids_along, is_fresh, known_nodes, node_with_id, open_edges,
    path_cap, shortest_from, shortest_trails, simple_trails,
};
use crate::seqs;
use crate::walk::{
    goes_along, hop_back, is_simple, is_walk, is_walk_to, law_walks_go_both_ways, lemma_arrivals,
    lemma_extensions, lemma_found_trail, lemma_ids_along, lemma_same_edges, lemma_walk_push,
    walk_back,
};

verus! {

/// How often `x` comes in `s`.
spec fn times<A>(s: Seq<A>, x: A) -> nat {
    s.to_multiset().count(x)
}

proof fn lemma_times_push<A>(s: Seq<A>, y: A, x: A)
    ensures
        times(s.push(y), x) == times(s, x) + if y == x {
            1nat
        } else {
            0
        },
{
    broadcast use vstd::multiset::group_multiset_axioms;

    to_multiset_build(s, y);
}

proof fn lemma_times_empty<A>(x: A)
    ensures
        times(Seq::<A>::empty(), x) == 0,
{
    to_multiset_contains(Seq::<A>::empty(), x);
}

proof fn lemma_times_add<A>(a: Seq<A>, b: Seq<A>, x: A)
    ensures
        times(a + b, x) == times(a, x) + times(b, x),
    decreases b.len(),
{
    if b.len() == 0 {
        assert(b =~= Seq::empty());
        assert(a + b =~= a);
        lemma_times_empty(x);
    } else {
        let init = b.drop_last();
        lemma_times_add(a, init, x);
        assert(b =~= init.push(b.last()));
        assert(a + b =~= (a + init).push(b.last()));
        lemma_times_push(init, b.last(), x);
        lemma_times_push(a + init, b.last(), x);
    }
}

proof fn lemma_times_filter<A>(s: Seq<A>, keep: spec_fn(A) -> bool, x: A)
    ensures
        times(s.filter(keep), x) == if keep(x) {
            times(s, x)
        } else {
            0
        },
    decreases s.len(),
{
    if s.len() == 0 {
        s.lemma_filter_len(keep);
        assert(s.filter(keep) =~= s);
        assert(s =~= Seq::empty());
        lemma_times_empty(x);
    } else {
        let init = s.drop_last();
        lemma_times_filter(init, keep, x);
        init.lemma_filter_push(s.last(), keep);
        assert(s =~= init.push(s.last()));
        lemma_times_push(init, s.last(), x);
        lemma_times_push(init.filter(keep), s.last(), x);
    }
}

proof fn lemma_times_map<A, B>(s: Seq<A>, f: spec_fn(A) -> B, x: A)
    requires
        forall|i: int| 0 <= i < s.len() && f(#[trigger] s[i]) == f(x) ==> s[i] == x,
    ensures
        times(s.map_values(f), f(x)) == times(s, x),
    decreases s.len(),
{
    if s.len() == 0 {
        assert(s =~= Seq::empty());
        assert(s.map_values(f) =~= Seq::empty());
        lemma_times_empty(x);
        lemma_times_empty(f(x));
    } else {
        let init = s.drop_last();
        assert forall|i: int| 0 <= i < init.len() && f(#[trigger] init[i]) == f(x) implies init[i]
            == x by {
            assert(init[i] == s[i]);
        }
        lemma_times_map(init, f, x);
        assert(s[s.len() - 1] == s.last());
        assert(s =~= init.push(s.last()));
        assert(s.map_values(f) =~= init.map_values(f).push(f(s.last())));
        lemma_times_push(init, s.last(), x);
        lemma_times_push(init.map_values(f), f(s.last()), f(x));
    }
}

proof fn lemma_times_flat_map<A, B>(s: Seq<A>, f: spec_fn(A) -> Seq<B>, u: A, x: B)
    requires
        forall|v: A| v != u ==> !(#[trigger] f(v)).contains(x),
    ensures
        times(s.flat_map(f), x) == times(s, u) * times(f(u), x),
    decreases s.len(),
{
    if s.len() == 0 {
        seqs::lemma_flat_map_empty(f);
        assert(s =~= Seq::empty());
        lemma_times_empty(x);
        lemma_times_empty(u);
        assert(0 * times(f(u), x) == 0) by (nonlinear_arith);
    } else {
        let init = s.drop_last();
        let last = s.last();
        lemma_times_flat_map(init, f, u, x);
        init.lemma_flat_map_push(f, last);
        assert(s =~= init.push(last));
        lemma_times_add(init.flat_map(f), f(last), x);
        lemma_times_push(init, last, u);
        let (m, k) = (times(init, u), times(f(u), x));
        if last == u {
            assert((m + 1) * k == m * k + k) by (nonlinear_arith);
        } else {
            to_multiset_contains(f(last), x);
        }
    }
}

proof fn lemma_map_multiset<A, B>(s: Seq<A>, t: Seq<A>, f: spec_fn(A) -> B)
    requires
        s.to_multiset() == t.to_multiset(),
    ensures
        s.map_values(f).to_multiset() == t.map_values(f).to_multiset(),
    decreases s.len(),
{
    broadcast use vstd::multiset::group_multiset_axioms;

    to_multiset_len(s);
    to_multiset_len(t);
    if s.len() == 0 {
        assert(s =~= t);
    } else {
        let init = s.drop_last();
        let x = s.last();
        assert(s =~= init.push(x));
        to_multiset_build(init, x);
        to_multiset_contains(t, x);
        assert(t.to_multiset().count(x) > 0);
        let i = choose|i: int| 0 <= i < t.len() && t[i] == x;
        to_multiset_remove(t, i);
        assert(t.remove(i).to_multiset() =~= init.to_multiset());
        lemma_map_multiset(init, t.remove(i), f);
        assert(t.map_values(f).remove(i) =~= t.remove(i).map_values(f));
        to_multiset_remove(t.map_values(f), i);
        to_multiset_contains(t.map_values(f), f(x));
        assert(t.map_values(f)[i] == f(x));
        assert(s.map_values(f) =~= init.map_values(f).push(f(x)));
        to_multiset_build(init.map_values(f), f(x));
        assert(t.map_values(f).to_multiset() =~= s.map_values(f).to_multiset());
    }
}

proof fn lemma_hops_along_times(e: EdgeView, id: i64, h: HopView)
    ensures
        times(hops_along(e, id), h) == if goes_along(e, id, h) {
            1nat
        } else {
            0
        },
{
    let none = Seq::<HopView>::empty();
    let forward = forward_hop(e);
    let backward = backward_hop(e);
    lemma_times_empty(h);
    lemma_times_push(none, forward, h);
    lemma_times_push(none, backward, h);
    lemma_times_push(none.push(forward), backward, h);
    if e.from_node_id == id && e.to_node_id == id {
        assert(hops_along(e, id) =~= none.push(forward).push(backward));
    } else if e.from_node_id == id {
        assert(hops_along(e, id) =~= none.push(forward));
    } else if e.to_node_id == id {
        assert(hops_along(e, id) =~= none.push(backward));
    } else {
        assert(hops_along(e, id) =~= none);
    }
    if goes_along(e, id, h) {
        assert(h == forward || h == backward);
    }
}

/// There are as many ways back as there are ways there.
proof fn lemma_hop_back_times(edges: Seq<EdgeView>, id: i64, h: HopView)
    ensures
        times(hops(edges, h.to), hop_back(id, h)) == times(hops(edges, id), h),
    decreases edges.len(),
{
    let back = hop_back(id, h);
    if edges.len() == 0 {
        lemma_times_empty(h);
        lemma_times_empty(back);
        assert(hops(edges, id) =~= Seq::empty());
        assert(hops(edges, h.to) =~= Seq::empty());
    } else {
        let init = edges.drop_last();
        let e = edges.last();
        lemma_hop_back_times(init, id, h);
        lemma_times_add(hops(init, id), hops_along(e, id), h);
        lemma_times_add(hops(init, h.to), hops_along(e, h.to), back);
        lemma_hops_along_times(e, id, h);
        lemma_hops_along_times(e, h.to, back);
    }
}

/// How many ways there are to take the hops `t` from `start`: edges of one
/// kind and label between the same nodes give as many.
spec fn ways(edges: Seq<EdgeView>, start: i64, t: Seq<HopView>) -> nat
    decreases t.len(),
{
    if t.len() == 0 {
        1
    } else {
        ways(edges, start, t.drop_last()) * times(
            hops(edges, end_of(start, t.drop_last())),
            t.last(),
        )
    }
}

proof fn lemma_trail_times(edges: Seq<EdgeView>, start: i64, t: Seq<HopView>)
    requires
        is_walk(edges, start, t),
        is_simple(start, t),
    ensures
        times(simple_trails(edges, start, t.len()), t) == ways(edges, start, t),
    decreases t.len(),
{
    if t.len() == 0 {
        let none: Seq<HopView> = seq![];
        assert(t =~= none);
        assert(simple_trails(edges, start, 0) =~= Seq::empty().push(none));
        lemma_times_empty(none);
        lemma_times_push(Seq::empty(), none, none);
    } else {
        let u = t.drop_last();
        let h = t.last();
        let f = extensions(edges, start);
        let prev = simple_trails(edges, start, u.len());
        let out = hops(edges, end_of(start, u));
        let fresh = is_fresh(start, u);
        assert(t =~= u.push(h));
        lemma_walk_push(edges, start, u, h);
        lemma_trail_times(edges, start, u);
        assert forall|v: Seq<HopView>| v != u implies !(#[trigger] f(v)).contains(t) by {
            lemma_extensions(edges, start, v, t);
            assert(v.push(h).drop_last() =~= v);
        }
        lemma_times_flat_map(prev, f, u, t);
        let g = appended(u);
        assert forall|i: int| 0 <= i < out.filter(fresh).len() && g(
            #[trigger] out.filter(fresh)[i],
        ) == g(h) implies out.filter(fresh)[i] == h by {
            assert(g(out.filter(fresh)[i]).last() == g(h).last());
        }
        lemma_times_map(out.filter(fresh), g, h);
        lemma_times_filter(out, fresh, h);
        assert(f(u) == out.filter(fresh).map_values(g));
        assert(times(f(u), t) == times(out, h));
        assert(simple_trails(edges, start, t.len()) == prev.flat_map(f));
    }
}

proof fn lemma_ways_prepend(edges: Seq<EdgeView>, start: i64, h: HopView, t: Seq<HopView>)
    ensures
        ways(edges, start, seq![h] + t) == times(hops(edges, start), h) * ways(edges, h.to, t),
    decreases t.len(),
{
    let all = seq![h] + t;
    if t.len() == 0 {
        assert(all.drop_last() =~= seq![]);
        assert(ways(edges, start, all.drop_last()) == 1);
        let m = times(hops(edges, start), h);
        assert(1 * m == m * 1) by (nonlinear_arith);
    } else {
        let u = t.drop_last();
        lemma_ways_prepend(edges, start, h, u);
        assert(all.drop_last() =~= seq![h] + u);
        assert(all.last() == t.last());
        if u.len() > 0 {
            assert((seq![h] + u).last() == u.last());
        }
        let (a, b, c) = (
            times(hops(edges, start), h),
            ways(edges, h.to, u),
            times(hops(edges, end_of(h.to, u)), t.last()),
        );
        assert((a * b) * c == a * (b * c)) by (nonlinear_arith);
    }
}

proof fn lemma_ways_back(edges: Seq<EdgeView>, start: i64, t: Seq<HopView>)
    ensures
        ways(edges, end_of(start, t), walk_back(start, t)) == ways(edges, start, t),
    decreases t.len(),
{
    if t.len() > 0 {
        let u = t.drop_last();
        let h = t.last();
        let at = end_of(start, u);
        let back = hop_back(at, h);
        lemma_ids_along(start, t, u.len() as int);
        assert(t.take(u.len() as int) =~= u);
        assert forall|k: int| 0 <= k < u.len() implies ids_along(start, t)[k] == #[trigger] ids_along(
            start,
            u,
        )[k] by {
            if k > 0 {
                assert(t[k - 1] == u[k - 1]);
            }
        }
        assert(walk_back(start, t) =~= seq![back] + walk_back(start, u));
        lemma_ways_back(edges, start, u);
        lemma_ways_prepend(edges, h.to, back, walk_back(start, u));
        lemma_hop_back_times(edges, at, h);
        let (a, b) = (ways(edges, start, u), times(hops(edges, at), h));
        assert(a * b == b * a) by (nonlinear_arith);
    }
}

proof fn lemma_back_and_forth(start: i64, t: Seq<HopView>)
    ensures
        walk_back(end_of(start, t), walk_back(start, t)) == t,
        ids_along(end_of(start, t), walk_back(start, t)) == ids_along(start, t).reverse(),
        is_simple(start, t) ==> is_simple(end_of(start, t), walk_back(start, t)),
{
    let n = t.len() as int;
    let end = end_of(start, t);
    let back = walk_back(start, t);
    let ids = ids_along(start, t);
    let ids_back = ids_along(end, back);
    assert forall|k: int| 0 <= k <= n implies #[trigger] ids_back[k] == ids[n - k] by {
        if k > 0 {
            assert(ids_back[k] == back[k - 1].to);
        } else if n > 0 {
            assert(ids[n] == t[n - 1].to);
        }
    }
    assert(ids_back =~= ids.reverse());
    let forth = walk_back(end, back);
    assert forall|k: int| 0 <= k < n implies #[trigger] forth[k] == t[k] by {
        assert(back[n - 1 - k] == hop_back(ids[k], t[k]));
        assert(ids_back[n - 1 - k] == ids[k + 1]);
        assert(ids[k + 1] == t[k].to);
        assert(forth[k] == hop_back(ids[k + 1], hop_back(ids[k], t[k])));
    }
    assert(forth =~= t);
    if is_simple(start, t) {
        assert forall|i: int, j: int| 0 <= i < ids_back.len() && 0 <= j < ids_back.len() && i
            != j implies ids_back[i] != ids_back[j] by {
            assert(ids[n - i] != ids[n - j]);
        }
    }
}

/// Whether `t` is one of the trails of `n` hops from `start` to `end`.
spec fn is_arrival(edges: Seq<EdgeView>, start: i64, end: i64, n: nat, t: Seq<HopView>) -> bool {
    t.len() == n && is_walk_to(edges, start, end, t) && is_simple(start, t)
}

proof fn lemma_arrival_back(
    edges: Seq<EdgeView>,
    start: i64,
    end: i64,
    n: nat,
    t: Seq<HopView>,
)
    requires
        is_arrival(edges, start, end, n, t),
    ensures
        is_arrival(edges, end, start, n, walk_back(start, t)),
        walk_back(end, walk_back(start, t)) == t,
{
    law_walks_go_both_ways(edges, start, end, t);
    lemma_back_and_forth(start, t);
}

proof fn lemma_arrival_times(edges: Seq<EdgeView>, start: i64, end: i64, n: nat, t: Seq<HopView>)
    ensures
        times(arrivals(edges, start, end, n), t) == if is_arrival(edges, start, end, n, t) {
            ways(edges, start, t)
        } else {
            0
        },
{
    lemma_arrivals(edges, start, end, n, t);
    to_multiset_contains(arrivals(edges, start, end, n), t);
    if is_arrival(edges, start, end, n, t) {
        lemma_trail_times(edges, start, t);
        lemma_times_filter(simple_trails(edges, start, n), arrives(start, end), t);
    }
}

/// A trail from `start`, taken the other way.
spec fn backwards(start: i64) -> spec_fn(Seq<HopView>) -> Seq<HopView> {
    |t: Seq<HopView>| walk_back(start, t)
}

proof fn lemma_arrivals_back(edges: Seq<EdgeView>, start: i64, end: i64, n: nat)
    ensures
        arrivals(edges, end, start, n).to_multiset() == arrivals(edges, start, end, n).map_values(
            backwards(start),
        ).to_multiset(),
{
    broadcast use vstd::multiset::group_multiset_axioms;

    let f = backwards(start);
    let there = arrivals(edges, start, end, n);
    let turned = there.map_values(f);
    assert forall|u: Seq<HopView>| #[trigger]
        arrivals(edges, end, start, n).to_multiset().count(u) == turned.to_multiset().count(u) by {
        lemma_arrival_times(edges, end, start, n, u);
        if is_arrival(edges, end, start, n, u) {
            let t = walk_back(end, u);
            lemma_arrival_back(edges, end, start, n, u);
            assert(f(t) == u);
            assert forall|i: int| 0 <= i < there.len() && f(#[trigger] there[i]) == f(
                t,
            ) implies there[i] == t by {
                assert(there.contains(there[i]));
                lemma_arrivals(edges, start, end, n, there[i]);
                lemma_arrival_back(edges, start, end, n, there[i]);
            }
            lemma_times_map(there, f, t);
            lemma_arrival_times(edges, start, end, n, t);
            lemma_ways_back(edges, end, u);
        } else {
            to_multiset_contains(turned, u);
            if turned.contains(u) {
                let i = choose|i: int| 0 <= i < turned.len() && turned[i] == u;
                assert(there.contains(there[i]));
                lemma_arrivals(edges, start, end, n, there[i]);
                lemma_arrival_back(edges, start, end, n, there[i]);
            }
        }
    }
    assert(arrivals(edges, end, start, n).to_multiset() =~= turned.to_multiset());
}

proof fn lemma_shortest_back(edges: Seq<EdgeView>, start: i64, end: i64, n: nat)
    ensures
        shortest_from(edges, end, start, n).to_multiset() == shortest_from(
            edges,
            start,
            end,
            n,
        ).map_values(backwards(start)).to_multiset(),
        shortest_from(edges, end, start, n).len() == shortest_from(edges, start, end, n).len(),
    decreases MAX_DEPTH - n,
{
    let f = backwards(start);
    if n >= MAX_DEPTH {
        assert(shortest_from(edges, start, end, n).map_values(f) =~= seq![]);
    } else {
        lemma_arrivals_back(edges, start, end, n);
        to_multiset_len(arrivals(edges, end, start, n));
        to_multiset_len(arrivals(edges, start, end, n).map_values(f));
        if arrivals(edges, start, end, n).len() == 0 {
            lemma_shortest_back(edges, start, end, n + 1);
        }
    }
}

proof fn lemma_same_nodes(nodes: Seq<NodeView>, start: NodeView, end: NodeView, id: i64)
    requires
        start.id == end.id ==> start == end,
    ensures
        node_with_id(known_nodes(nodes, end, start), id) == node_with_id(
            known_nodes(nodes, start, end),
            id,
        ),
    decreases nodes.len(),
{
    let there = known_nodes(nodes, start, end);
    let back = known_nodes(nodes, end, start);
    if nodes.len() == 0 {
        reveal_with_fuel(node_with_id, 4);
        assert(there.drop_last() =~= seq![end]);
        assert(back.drop_last() =~= seq![start]);
        assert(there.drop_last().drop_last() =~= seq![]);
        assert(back.drop_last().drop_last() =~= seq![]);
    } else {
        let init = nodes.drop_last();
        lemma_same_nodes(init, start, end, id);
        assert(there.drop_last() =~= known_nodes(init, start, end));
        assert(back.drop_last() =~= known_nodes(init, end, start));
    }
}

/// A step, taken the other way.
pub open spec fn step_back() -> spec_fn(StepView) -> StepView {
    |s: StepView| StepView { kind: s.kind, reversed: !s.reversed, label: s.label }
}

/// A path, taken the other way.
pub open spec fn turned() -> spec_fn(HitView) -> HitView {
    |hit: HitView|
        HitView { nodes: hit.nodes.reverse(), steps: hit.steps.reverse().map_values(step_back()) }
}

proof fn lemma_turned(
    nodes: Seq<NodeView>,
    start: NodeView,
    end: NodeView,
    t: Seq<HopView>,
)
    requires
        start.id == end.id ==> start == end,
        end_of(start.id, t) == end.id,
    ensures
        turned()(hit_along(known_nodes(nodes, start, end), start.id, t)) == hit_along(
            known_nodes(nodes, end, start),
            end.id,
            walk_back(start.id, t),
        ),
{
    let there = known_nodes(nodes, start, end);
    let back = known_nodes(nodes, end, start);
    let hit = hit_along(there, start.id, t);
    let way = walk_back(start.id, t);
    let other = hit_along(back, end.id, way);
    lemma_back_and_forth(start.id, t);
    assert forall|k: int| 0 <= k < hit.nodes.len() implies hit.nodes.reverse()[k]
        == #[trigger] other.nodes[k] by {
        let id = ids_along(end.id, way)[k];
        lemma_same_nodes(nodes, start, end, id);
    }
    assert(hit.nodes.reverse() =~= other.nodes);
    assert(hit.steps.reverse().map_values(step_back()) =~= other.steps);
}

/// A search the other way finds the same paths turned round, if there are
/// fewer of them than it was asked for: each of them as often, with its nodes
/// and steps in the opposite order, and each step taken the other way.
pub proof fn law_paths_back_are_the_paths_turned_round(
    nodes: Seq<NodeView>,
    edges: Seq<EdgeView>,
    start: NodeView,
    end: NodeView,
    max_paths: nat,
)
    requires
        start.id == end.id ==> start == end,
        found_paths(nodes, edges, start, end, max_paths).len() < path_cap(max_paths),
    ensures
        found_paths(nodes, edges, end, start, max_paths).to_multiset() == found_paths(
            nodes,
            edges,
            start,
            end,
            max_paths,
        ).map_values(turned()).to_multiset(),
        found_paths(nodes, edges, end, start, max_paths).len() == found_paths(
            nodes,
            edges,
            start,
            end,
            max_paths,
        ).len(),
{
    let g = open_edges(nodes, edges, start, end);
    let there = shortest_trails(g, start.id, end.id);
    let back = shortest_trails(g, end.id, start.id);
    let f = backwards(start.id);
    let to_hit = as_hit(known_nodes(nodes, end, start), end.id);
    let found = found_paths(nodes, edges, start, end, max_paths);
    lemma_same_edges(nodes, edges, start, end);
    lemma_shortest_back(g, start.id, end.id, 0);
    assert(found_paths(nodes, edges, end, start, max_paths) == back.map_values(to_hit));
    lemma_map_multiset(back, there.map_values(f), to_hit);
    assert forall|i: int| 0 <= i < there.len() implies turned()(#[trigger] found[i]) == to_hit(
        f(there[i]),
    ) by {
        assert(there.contains(there[i]));
        lemma_found_trail(g, start.id, end.id, there[i]);
        lemma_turned(nodes, start, end, there[i]);
    }
    assert(found.map_values(turned()) =~= there.map_values(f).map_values(to_hit));
}

} // verus!
