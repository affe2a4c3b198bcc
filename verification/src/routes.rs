//! Which paths a search hands out, and in which order: each goes along edges
//! of the graph, and so has a route, the positions of those edges in the list
//! of all edges. The paths with the shortest routes are found, the first ones
//! first.
use vstd::prelude::*;

use crate::model::{EdgeView, HitView, NodeView};
use crate::search::{
    HopView, arrivals, arrives, as_hit, end_of, extensions, found_paths, hops, hops_along,
    ids_along, is_fresh, joins, known_nodes, node_with_id, open_edges, shortest_trails,
    simple_trails, visits,
};
use crate::seqs;
use crate::walk::{
    goes_along, is_simple, law_known_nodes, lemma_hops_along, lemma_ids_along,
    lemma_node_with_id, lemma_shortest, lemma_walk_push,
};

verus! {

/// Whether `n` is the node that a search from `start` to `end` takes for its
/// id: the last listed node with that id, or else one of the two ends.
pub open spec fn stands_for_its_id(
    nodes: Seq<NodeView>,
    start: NodeView,
    end: NodeView,
    n: NodeView,
) -> bool {
    ||| exists|i: int|
        0 <= i < nodes.len() && #[trigger] nodes[i] == n && forall|j: int|
            i < j < nodes.len() ==> (#[trigger] nodes[j]).id != n.id
    ||| (forall|j: int| 0 <= j < nodes.len() ==> (#[trigger] nodes[j]).id != n.id) && (n == start
        || n == end && n.id != start.id)
}

/// Whether `hit` is the path from `start` to `end` along the edges at the
/// positions `route`: its nodes are those that the edges lead between, none
/// of them twice, and its steps say how each edge is walked.
pub open spec fn is_route(
    nodes: Seq<NodeView>,
    edges: Seq<EdgeView>,
    start: NodeView,
    end: NodeView,
    route: Seq<int>,
    hit: HitView,
) -> bool {
    &&& hit.steps.len() == route.len()
    &&& hit.nodes.len() == route.len() + 1
    &&& hit.nodes.first().id == start.id
    &&& hit.nodes.last().id == end.id
    &&& forall|j: int|
        0 <= j < hit.nodes.len() ==> stands_for_its_id(nodes, start, end, #[trigger] hit.nodes[j])
    &&& forall|j: int|
        0 <= j < route.len() ==> 0 <= #[trigger] route[j] < edges.len() && goes_along(
            edges[route[j]],
            hit.nodes[j].id,
            HopView { to: hit.nodes[j + 1].id, step: hit.steps[j] },
        )
    &&& forall|i: int, j: int|
        0 <= i < j < hit.nodes.len() ==> (#[trigger] hit.nodes[i]).id != (
        #[trigger] hit.nodes[j]).id
}

/// Whether route `a` comes before route `b`: at the first edge where they
/// part, it goes along the earlier one.
pub open spec fn comes_before(a: Seq<int>, b: Seq<int>) -> bool {
    exists|k: int|
        0 <= k < a.len() && k < b.len() && #[trigger] a[k] < b[k] && forall|i: int|
            0 <= i < k ==> #[trigger] a[i] == b[i]
}

/// A hop with the position of the edge that it goes along.
spec fn mark(i: int) -> spec_fn(HopView) -> (HopView, int) {
    |h: HopView| (h, i)
}

spec fn hop_part() -> spec_fn((HopView, int)) -> HopView {
    |m: (HopView, int)| m.0
}

/// The ways out of node `id` along the kept edges, with their positions.
spec fn marked_hops(edges: Seq<EdgeView>, keep: spec_fn(EdgeView) -> bool, id: i64) -> Seq<
    (HopView, int),
>
    decreases edges.len(),
{
    if edges.len() == 0 {
        seq![]
    } else {
        marked_hops(edges.drop_last(), keep, id) + (if keep(edges.last()) {
            hops_along(edges.last(), id).map_values(mark(edges.len() - 1))
        } else {
            seq![]
        })
    }
}

proof fn lemma_marked_hops(edges: Seq<EdgeView>, keep: spec_fn(EdgeView) -> bool, id: i64)
    ensures
        hops(edges.filter(keep), id) == marked_hops(edges, keep, id).map_values(hop_part()),
    decreases edges.len(),
{
    if edges.len() == 0 {
        edges.lemma_filter_len(keep);
        assert(edges.filter(keep) =~= seq![]);
        assert(marked_hops(edges, keep, id).map_values(hop_part()) =~= seq![]);
    } else {
        let init = edges.drop_last();
        let e = edges.last();
        lemma_marked_hops(init, keep, id);
        init.lemma_filter_push(e, keep);
        assert(edges =~= init.push(e));
        if keep(e) {
            assert(edges.filter(keep).drop_last() =~= init.filter(keep));
        }
        assert(marked_hops(edges, keep, id).map_values(hop_part()) =~= hops(
            edges.filter(keep),
            id,
        ));
    }
}

proof fn lemma_marked_hops_contain(
    edges: Seq<EdgeView>,
    keep: spec_fn(EdgeView) -> bool,
    id: i64,
    h: HopView,
    i: int,
)
    ensures
        marked_hops(edges, keep, id).contains((h, i)) <==> 0 <= i < edges.len() && keep(edges[i])
            && goes_along(edges[i], id, h),
    decreases edges.len(),
{
    if edges.len() > 0 {
        let init = edges.drop_last();
        let e = edges.last();
        let n = edges.len() - 1;
        let some = hops_along(e, id);
        let added = if keep(e) {
            some.map_values(mark(n))
        } else {
            seq![]
        };
        lemma_marked_hops_contain(init, keep, id, h, i);
        lemma_hops_along(e, id, h);
        vstd::seq_lib::lemma_seq_concat_contains_all_elements(
            marked_hops(init, keep, id),
            added,
            (h, i),
        );
        if added.contains((h, i)) {
            let k = choose|k: int| 0 <= k < added.len() && added[k] == (h, i);
            assert(some[k] == h);
        }
        if i == n && keep(e) && some.contains(h) {
            let k = choose|k: int| 0 <= k < some.len() && some[k] == h;
            assert(added[k] == (h, i));
        }
    }
}

proof fn lemma_marks_increase(
    edges: Seq<EdgeView>,
    keep: spec_fn(EdgeView) -> bool,
    id: i64,
    fresh: spec_fn((HopView, int)) -> bool,
)
    requires
        forall|m: (HopView, int)| #[trigger] fresh(m) ==> m.0.to != id,
    ensures
        forall|i: int, j: int|
            0 <= i < j < marked_hops(edges, keep, id).filter(fresh).len() ==> (
            #[trigger] marked_hops(edges, keep, id).filter(fresh)[i]).1 < (
            #[trigger] marked_hops(edges, keep, id).filter(fresh)[j]).1,
        forall|i: int|
            0 <= i < marked_hops(edges, keep, id).filter(fresh).len() ==> (
            #[trigger] marked_hops(edges, keep, id).filter(fresh)[i]).1 < edges.len(),
    decreases edges.len(),
{
    let all = marked_hops(edges, keep, id);
    if edges.len() == 0 {
        all.lemma_filter_len(fresh);
    } else {
        let init = edges.drop_last();
        let e = edges.last();
        let n = edges.len() - 1;
        let before = marked_hops(init, keep, id);
        let added = if keep(e) {
            hops_along(e, id).map_values(mark(n))
        } else {
            seq![]
        };
        lemma_marks_increase(init, keep, id, fresh);
        Seq::filter_distributes_over_add(before, added, fresh);
        let kept = added.filter(fresh);
        assert forall|i: int| 0 <= i < kept.len() implies (#[trigger] kept[i]).1 == n by {
            added.lemma_filter_pred(fresh, i);
            assert(kept.contains(kept[i]));
            added.lemma_filter_contains_rev(fresh, kept[i]);
            let k = choose|k: int| 0 <= k < added.len() && added[k] == kept[i];
        }
        added.lemma_filter_len(fresh);
        if added.len() >= 2 {
            assert(e.from_node_id == id && e.to_node_id == id);
            if kept.len() > 0 {
                added.lemma_filter_pred(fresh, 0);
                assert(kept.contains(kept[0]));
                added.lemma_filter_contains_rev(fresh, kept[0]);
                let k = choose|k: int| 0 <= k < added.len() && added[k] == kept[0];
                assert(added[k].0.to == id);
            }
        }
        assert(kept.len() <= 1);
        let old_kept = before.filter(fresh);
        assert(all.filter(fresh) =~= old_kept + kept);
        assert forall|i: int| 0 <= i < all.filter(fresh).len() implies (
        #[trigger] all.filter(fresh)[i]).1 < edges.len() by {
            if i < old_kept.len() {
                assert(old_kept[i].1 < init.len());
            } else {
                assert(kept[i - old_kept.len()].1 == n);
            }
        }
        assert forall|i: int, j: int| 0 <= i < j < all.filter(fresh).len() implies (
        #[trigger] all.filter(fresh)[i]).1 < (#[trigger] all.filter(fresh)[j]).1 by {
            assert(old_kept[i].1 < init.len());
            if j < old_kept.len() {
                assert(old_kept[i].1 < old_kept[j].1);
            } else {
                assert(kept[j - old_kept.len()].1 == n);
            }
        }
    }
}

spec fn fresh_mark(start: i64, t: Seq<HopView>) -> spec_fn((HopView, int)) -> bool {
    |m: (HopView, int)| is_fresh(start, t)(m.0)
}

spec fn marked_on(t: Seq<HopView>, r: Seq<int>) -> spec_fn((HopView, int)) -> (
    Seq<HopView>,
    Seq<int>,
) {
    |m: (HopView, int)| (t.push(m.0), r.push(m.1))
}

/// The trails one hop further than a given one, with their routes.
spec fn marked_extensions(
    edges: Seq<EdgeView>,
    keep: spec_fn(EdgeView) -> bool,
    start: i64,
) -> spec_fn((Seq<HopView>, Seq<int>)) -> Seq<(Seq<HopView>, Seq<int>)> {
    |s: (Seq<HopView>, Seq<int>)|
        marked_hops(edges, keep, end_of(start, s.0)).filter(fresh_mark(start, s.0)).map_values(
            marked_on(s.0, s.1),
        )
}

/// The trails of `n` hops along the kept edges, with their routes.
spec fn marked_trails(
    edges: Seq<EdgeView>,
    keep: spec_fn(EdgeView) -> bool,
    start: i64,
    n: nat,
) -> Seq<(Seq<HopView>, Seq<int>)>
    decreases n,
{
    if n == 0 {
        seq![(seq![], seq![])]
    } else {
        marked_trails(edges, keep, start, (n - 1) as nat).flat_map(
            marked_extensions(edges, keep, start),
        )
    }
}

spec fn trail_part() -> spec_fn((Seq<HopView>, Seq<int>)) -> Seq<HopView> {
    |s: (Seq<HopView>, Seq<int>)| s.0
}

proof fn lemma_filter_of_parts<A, B>(
    s: Seq<A>,
    part: spec_fn(A) -> B,
    keep: spec_fn(B) -> bool,
    keep_whole: spec_fn(A) -> bool,
)
    requires
        forall|x: A| #[trigger] keep_whole(x) == keep(part(x)),
    ensures
        s.map_values(part).filter(keep) == s.filter(keep_whole).map_values(part),
    decreases s.len(),
{
    if s.len() == 0 {
        s.lemma_filter_len(keep_whole);
        s.map_values(part).lemma_filter_len(keep);
        assert(s.map_values(part).filter(keep) =~= s.filter(keep_whole).map_values(part));
    } else {
        let init = s.drop_last();
        let x = s.last();
        lemma_filter_of_parts(init, part, keep, keep_whole);
        assert(s =~= init.push(x));
        assert(s.map_values(part) =~= init.map_values(part).push(part(x)));
        init.lemma_filter_push(x, keep_whole);
        init.map_values(part).lemma_filter_push(part(x), keep);
        assert(keep_whole(x) == keep(part(x)));
        assert(s.map_values(part).filter(keep) =~= s.filter(keep_whole).map_values(part));
    }
}

proof fn lemma_flat_map_of_parts<A, B>(
    s: Seq<A>,
    part: spec_fn(A) -> B,
    f: spec_fn(B) -> Seq<B>,
    f_whole: spec_fn(A) -> Seq<A>,
)
    requires
        forall|x: A| (#[trigger] f_whole(x)).map_values(part) == f(part(x)),
    ensures
        s.map_values(part).flat_map(f) == s.flat_map(f_whole).map_values(part),
    decreases s.len(),
{
    if s.len() == 0 {
        seqs::lemma_flat_map_empty(f);
        seqs::lemma_flat_map_empty(f_whole);
        assert(s =~= Seq::empty());
        assert(s.map_values(part) =~= Seq::empty());
        assert(s.flat_map(f_whole).map_values(part) =~= Seq::empty());
    } else {
        let init = s.drop_last();
        let x = s.last();
        lemma_flat_map_of_parts(init, part, f, f_whole);
        assert(s =~= init.push(x));
        assert(s.map_values(part) =~= init.map_values(part).push(part(x)));
        init.lemma_flat_map_push(f_whole, x);
        init.map_values(part).lemma_flat_map_push(f, part(x));
        assert(f_whole(x).map_values(part) == f(part(x)));
        assert(s.flat_map(f_whole).map_values(part) =~= init.flat_map(f_whole).map_values(part)
            + f_whole(x).map_values(part));
    }
}

proof fn lemma_marked_extensions(
    edges: Seq<EdgeView>,
    keep: spec_fn(EdgeView) -> bool,
    start: i64,
    s: (Seq<HopView>, Seq<int>),
)
    ensures
        marked_extensions(edges, keep, start)(s).map_values(trail_part()) == extensions(
            edges.filter(keep),
            start,
        )(s.0),
{
    let id = end_of(start, s.0);
    let marked = marked_hops(edges, keep, id);
    let fresh = is_fresh(start, s.0);
    let fresh_whole = fresh_mark(start, s.0);
    lemma_marked_hops(edges, keep, id);
    lemma_filter_of_parts(marked, hop_part(), fresh, fresh_whole);
    assert(marked_extensions(edges, keep, start)(s).map_values(trail_part()) =~= extensions(
        edges.filter(keep),
        start,
    )(s.0));
}

proof fn lemma_marked_trails(
    edges: Seq<EdgeView>,
    keep: spec_fn(EdgeView) -> bool,
    start: i64,
    n: nat,
)
    ensures
        simple_trails(edges.filter(keep), start, n) == marked_trails(
            edges,
            keep,
            start,
            n,
        ).map_values(trail_part()),
    decreases n,
{
    if n == 0 {
        assert(simple_trails(edges.filter(keep), start, n) =~= marked_trails(
            edges,
            keep,
            start,
            n,
        ).map_values(trail_part()));
    } else {
        let m = (n - 1) as nat;
        let f = extensions(edges.filter(keep), start);
        let f_whole = marked_extensions(edges, keep, start);
        lemma_marked_trails(edges, keep, start, m);
        assert forall|s: (Seq<HopView>, Seq<int>)|
            (#[trigger] f_whole(s)).map_values(trail_part()) == f(trail_part()(s)) by {
            lemma_marked_extensions(edges, keep, start, s);
        }
        lemma_flat_map_of_parts(marked_trails(edges, keep, start, m), trail_part(), f, f_whole);
    }
}

proof fn lemma_marked_extension(
    edges: Seq<EdgeView>,
    keep: spec_fn(EdgeView) -> bool,
    start: i64,
    s: (Seq<HopView>, Seq<int>),
    u: (Seq<HopView>, Seq<int>),
)
    ensures
        marked_extensions(edges, keep, start)(s).contains(u) <==> {
            &&& u.0.len() == s.0.len() + 1
            &&& u.1.len() == s.1.len() + 1
            &&& u.0 == s.0.push(u.0.last())
            &&& u.1 == s.1.push(u.1.last())
            &&& marked_hops(edges, keep, end_of(start, s.0)).contains((u.0.last(), u.1.last()))
            &&& !visits(start, s.0, u.0.last().to)
        },
{
    let all = marked_hops(edges, keep, end_of(start, s.0));
    let fresh = fresh_mark(start, s.0);
    let kept = all.filter(fresh);
    let ext = kept.map_values(marked_on(s.0, s.1));
    let m = (u.0.last(), u.1.last());
    assert(marked_extensions(edges, keep, start)(s) == ext);
    if ext.contains(u) {
        let k = choose|k: int| 0 <= k < ext.len() && ext[k] == u;
        assert(u == marked_on(s.0, s.1)(kept[k]));
        assert(kept[k] == m);
        assert(kept.contains(m));
        all.lemma_filter_pred(fresh, k);
        all.lemma_filter_contains_rev(fresh, m);
    }
    if u.0.len() == s.0.len() + 1 && u.1.len() == s.1.len() + 1 && u.0 == s.0.push(m.0) && u.1
        == s.1.push(m.1) && all.contains(m) && !visits(start, s.0, m.0.to) {
        let k = choose|k: int| 0 <= k < all.len() && all[k] == m;
        assert(fresh(all[k]));
        all.lemma_filter_contains(fresh, k);
        let j = choose|j: int| 0 <= j < kept.len() && kept[j] == m;
        assert(ext[j] == u);
    }
}

/// Whether `r` is the route of trail `t`, along kept edges.
spec fn has_route(
    edges: Seq<EdgeView>,
    keep: spec_fn(EdgeView) -> bool,
    start: i64,
    t: Seq<HopView>,
    r: Seq<int>,
) -> bool {
    &&& t.len() == r.len()
    &&& forall|j: int|
        0 <= j < r.len() ==> 0 <= #[trigger] r[j] < edges.len() && keep(edges[r[j]]) && goes_along(
            edges[r[j]],
            ids_along(start, t)[j],
            t[j],
        )
}

proof fn lemma_route_push(
    edges: Seq<EdgeView>,
    keep: spec_fn(EdgeView) -> bool,
    start: i64,
    t: Seq<HopView>,
    r: Seq<int>,
    h: HopView,
    i: int,
)
    requires
        t.len() == r.len(),
    ensures
        has_route(edges, keep, start, t.push(h), r.push(i)) <==> has_route(
            edges,
            keep,
            start,
            t,
            r,
        ) && marked_hops(edges, keep, end_of(start, t)).contains((h, i)),
{
    let n = t.len() as int;
    let (u, q) = (t.push(h), r.push(i));
    lemma_marked_hops_contain(edges, keep, end_of(start, t), h, i);
    assert(u.take(n) =~= t);
    lemma_ids_along(start, u, n);
    assert(ids_along(start, u) =~= ids_along(start, t).push(h.to));
    assert(q[n] == i && u[n] == h);
    if has_route(edges, keep, start, u, q) {
        assert forall|j: int| 0 <= j < n implies 0 <= #[trigger] r[j] < edges.len() && keep(
            edges[r[j]],
        ) && goes_along(edges[r[j]], ids_along(start, t)[j], t[j]) by {
            assert(q[j] == r[j]);
        }
    }
    if has_route(edges, keep, start, t, r) && marked_hops(edges, keep, end_of(start, t)).contains(
        (h, i),
    ) {
        assert forall|j: int| 0 <= j < q.len() implies 0 <= #[trigger] q[j] < edges.len() && keep(
            edges[q[j]],
        ) && goes_along(edges[q[j]], ids_along(start, u)[j], u[j]) by {
            if j < n {
                assert(q[j] == r[j]);
            }
        }
    }
}

proof fn lemma_marked_trail(
    edges: Seq<EdgeView>,
    keep: spec_fn(EdgeView) -> bool,
    start: i64,
    n: nat,
    t: Seq<HopView>,
    r: Seq<int>,
)
    ensures
        marked_trails(edges, keep, start, n).contains((t, r)) <==> t.len() == n && is_simple(
            start,
            t,
        ) && has_route(edges, keep, start, t, r),
    decreases n,
{
    let none: (Seq<HopView>, Seq<int>) = (seq![], seq![]);
    let all = marked_trails(edges, keep, start, n);
    if n == 0 {
        assert(all[0] == none);
        if t.len() == 0 && r.len() == 0 {
            assert(t =~= none.0);
            assert(r =~= none.1);
        }
        if all.contains((t, r)) {
            assert(is_simple(start, t));
        }
    } else {
        let m = (n - 1) as nat;
        let prev = marked_trails(edges, keep, start, m);
        let f = marked_extensions(edges, keep, start);
        let g = edges.filter(keep);
        seqs::lemma_flat_map_contains(prev, f, (t, r));
        if all.contains((t, r)) {
            let k = choose|k: int| 0 <= k < prev.len() && f(#[trigger] prev[k]).contains((t, r));
            let s = prev[k];
            assert(prev.contains(s));
            assert(s == (s.0, s.1));
            lemma_marked_trail(edges, keep, start, m, s.0, s.1);
            lemma_marked_extension(edges, keep, start, s, (t, r));
            lemma_walk_push(g, start, s.0, t.last());
            lemma_route_push(edges, keep, start, s.0, s.1, t.last(), r.last());
        }
        if t.len() == n && is_simple(start, t) && has_route(edges, keep, start, t, r) {
            let s = (t.drop_last(), r.drop_last());
            assert(t =~= s.0.push(t.last()));
            assert(r =~= s.1.push(r.last()));
            lemma_walk_push(g, start, s.0, t.last());
            lemma_route_push(edges, keep, start, s.0, s.1, t.last(), r.last());
            lemma_marked_trail(edges, keep, start, m, s.0, s.1);
            lemma_marked_extension(edges, keep, start, s, (t, r));
            let k = choose|k: int| 0 <= k < prev.len() && prev[k] == s;
            assert(f(prev[k]).contains((t, r)));
        }
    }
}

/// Whether the routes come one before the other.
spec fn in_order(s: Seq<(Seq<HopView>, Seq<int>)>) -> bool {
    forall|i: int, j: int|
        0 <= i < j < s.len() ==> comes_before((#[trigger] s[i]).1, (#[trigger] s[j]).1)
}

proof fn lemma_comes_before_push(a: Seq<int>, b: Seq<int>, x: int, y: int)
    ensures
        comes_before(a, b) ==> comes_before(a.push(x), b.push(y)),
        a == b && x < y ==> comes_before(a.push(x), b.push(y)),
{
    let (c, d) = (a.push(x), b.push(y));
    if comes_before(a, b) {
        let k = choose|k: int|
            0 <= k < a.len() && k < b.len() && #[trigger] a[k] < b[k] && forall|i: int|
                0 <= i < k ==> #[trigger] a[i] == b[i];
        assert(c[k] < d[k]);
        assert forall|i: int| 0 <= i < k implies #[trigger] c[i] == d[i] by {
            assert(a[i] == b[i]);
        }
    }
    if a == b && x < y {
        assert(c[a.len() as int] < d[a.len() as int]);
    }
}

proof fn lemma_extensions_in_order(
    edges: Seq<EdgeView>,
    keep: spec_fn(EdgeView) -> bool,
    start: i64,
    s: (Seq<HopView>, Seq<int>),
)
    ensures
        in_order(marked_extensions(edges, keep, start)(s)),
{
    let id = end_of(start, s.0);
    let fresh = fresh_mark(start, s.0);
    let kept = marked_hops(edges, keep, id).filter(fresh);
    let ext = marked_extensions(edges, keep, start)(s);
    assert(visits(start, s.0, id)) by {
        if s.0.len() > 0 {
            assert(s.0[s.0.len() - 1].to == id);
        }
    }
    lemma_marks_increase(edges, keep, id, fresh);
    assert forall|i: int, j: int| 0 <= i < j < ext.len() implies comes_before(
        (#[trigger] ext[i]).1,
        (#[trigger] ext[j]).1,
    ) by {
        assert(kept[i].1 < kept[j].1);
        lemma_comes_before_push(s.1, s.1, kept[i].1, kept[j].1);
    }
}

proof fn lemma_flat_map_in_order(
    edges: Seq<EdgeView>,
    keep: spec_fn(EdgeView) -> bool,
    start: i64,
    s: Seq<(Seq<HopView>, Seq<int>)>,
)
    requires
        in_order(s),
    ensures
        in_order(s.flat_map(marked_extensions(edges, keep, start))),
    decreases s.len(),
{
    let f = marked_extensions(edges, keep, start);
    if s.len() == 0 {
        seqs::lemma_flat_map_empty(f);
        assert(s =~= Seq::empty());
    } else {
        let init = s.drop_last();
        let last = s.last();
        assert forall|i: int, j: int| 0 <= i < j < init.len() implies comes_before(
            (#[trigger] init[i]).1,
            (#[trigger] init[j]).1,
        ) by {
            assert(comes_before(s[i].1, s[j].1));
        }
        lemma_flat_map_in_order(edges, keep, start, init);
        lemma_extensions_in_order(edges, keep, start, last);
        init.lemma_flat_map_push(f, last);
        assert(s =~= init.push(last));
        let (a, b) = (init.flat_map(f), f(last));
        let all = s.flat_map(f);
        assert(all == a + b);
        assert forall|i: int, j: int| 0 <= i < j < all.len() implies comes_before(
            (#[trigger] all[i]).1,
            (#[trigger] all[j]).1,
        ) by {
            if j < a.len() {
                assert(comes_before(a[i].1, a[j].1));
            } else if i >= a.len() {
                assert(comes_before(b[i - a.len()].1, b[j - a.len()].1));
            } else {
                let (x, y) = (a[i], b[j - a.len()]);
                assert(a.contains(x));
                assert(b.contains(y));
                seqs::lemma_flat_map_contains(init, f, x);
                let k = choose|k: int| 0 <= k < init.len() && f(#[trigger] init[k]).contains(x);
                assert(comes_before(s[k].1, s[s.len() - 1].1));
                lemma_marked_extension(edges, keep, start, init[k], x);
                lemma_marked_extension(edges, keep, start, last, y);
                lemma_comes_before_push(init[k].1, last.1, x.1.last(), y.1.last());
            }
        }
    }
}

proof fn lemma_trails_in_order(
    edges: Seq<EdgeView>,
    keep: spec_fn(EdgeView) -> bool,
    start: i64,
    n: nat,
)
    ensures
        in_order(marked_trails(edges, keep, start, n)),
    decreases n,
{
    if n > 0 {
        lemma_trails_in_order(edges, keep, start, (n - 1) as nat);
        lemma_flat_map_in_order(
            edges,
            keep,
            start,
            marked_trails(edges, keep, start, (n - 1) as nat),
        );
    }
}

proof fn lemma_filter_in_order(
    s: Seq<(Seq<HopView>, Seq<int>)>,
    keep: spec_fn((Seq<HopView>, Seq<int>)) -> bool,
)
    requires
        in_order(s),
    ensures
        in_order(s.filter(keep)),
    decreases s.len(),
{
    if s.len() == 0 {
        s.lemma_filter_len(keep);
    } else {
        let init = s.drop_last();
        let last = s.last();
        assert forall|i: int, j: int| 0 <= i < j < init.len() implies comes_before(
            (#[trigger] init[i]).1,
            (#[trigger] init[j]).1,
        ) by {
            assert(comes_before(s[i].1, s[j].1));
        }
        lemma_filter_in_order(init, keep);
        init.lemma_filter_push(last, keep);
        assert(s =~= init.push(last));
        let kept = init.filter(keep);
        let all = s.filter(keep);
        assert forall|i: int, j: int| 0 <= i < j < all.len() implies comes_before(
            (#[trigger] all[i]).1,
            (#[trigger] all[j]).1,
        ) by {
            if j < kept.len() {
                assert(comes_before(kept[i].1, kept[j].1));
            } else {
                assert(kept.contains(kept[i]));
                init.lemma_filter_contains_rev(keep, kept[i]);
                let k = choose|k: int| 0 <= k < init.len() && init[k] == kept[i];
                assert(comes_before(s[k].1, s[s.len() - 1].1));
            }
        }
    }
}

spec fn marked_arrives(start: i64, end: i64) -> spec_fn((Seq<HopView>, Seq<int>)) -> bool {
    |s: (Seq<HopView>, Seq<int>)| arrives(start, end)(s.0)
}

/// The trails of `n` hops from `start` to `end`, with their routes.
spec fn marked_arrivals(
    edges: Seq<EdgeView>,
    keep: spec_fn(EdgeView) -> bool,
    start: i64,
    end: i64,
    n: nat,
) -> Seq<(Seq<HopView>, Seq<int>)> {
    marked_trails(edges, keep, start, n).filter(marked_arrives(start, end))
}

proof fn lemma_marked_arrivals(
    edges: Seq<EdgeView>,
    keep: spec_fn(EdgeView) -> bool,
    start: i64,
    end: i64,
    n: nat,
)
    ensures
        arrivals(edges.filter(keep), start, end, n) == marked_arrivals(
            edges,
            keep,
            start,
            end,
            n,
        ).map_values(trail_part()),
        in_order(marked_arrivals(edges, keep, start, end, n)),
{
    let all = marked_trails(edges, keep, start, n);
    lemma_marked_trails(edges, keep, start, n);
    lemma_trails_in_order(edges, keep, start, n);
    lemma_filter_of_parts(all, trail_part(), arrives(start, end), marked_arrives(start, end));
    lemma_filter_in_order(all, marked_arrives(start, end));
}

proof fn lemma_marked_arrival(
    edges: Seq<EdgeView>,
    keep: spec_fn(EdgeView) -> bool,
    start: i64,
    end: i64,
    n: nat,
    t: Seq<HopView>,
    r: Seq<int>,
)
    ensures
        marked_arrivals(edges, keep, start, end, n).contains((t, r)) <==> {
            &&& t.len() == n
            &&& is_simple(start, t)
            &&& has_route(edges, keep, start, t, r)
            &&& end_of(start, t) == end
        },
{
    let all = marked_trails(edges, keep, start, n);
    let pred = marked_arrives(start, end);
    let some = marked_arrivals(edges, keep, start, end, n);
    lemma_marked_trail(edges, keep, start, n, t, r);
    if some.contains((t, r)) {
        let k = choose|k: int| 0 <= k < some.len() && some[k] == (t, r);
        all.lemma_filter_pred(pred, k);
        all.lemma_filter_contains_rev(pred, (t, r));
    }
    if all.contains((t, r)) && end_of(start, t) == end {
        let k = choose|k: int| 0 <= k < all.len() && all[k] == (t, r);
        assert(pred(all[k]));
        all.lemma_filter_contains(pred, k);
    }
}

proof fn lemma_stands_for(nodes: Seq<NodeView>, start: NodeView, end: NodeView, n: NodeView)
    ensures
        stands_for_its_id(nodes, start, end, n) <==> node_with_id(
            known_nodes(nodes, start, end),
            n.id,
        ) == Some(n),
    decreases nodes.len(),
{
    let known = known_nodes(nodes, start, end);
    if nodes.len() == 0 {
        reveal_with_fuel(node_with_id, 4);
        assert(known.drop_last() =~= seq![end]);
        assert(seq![end].drop_last() =~= seq![]);
    } else {
        let init = nodes.drop_last();
        let last = nodes[nodes.len() - 1];
        lemma_stands_for(init, start, end, n);
        assert(known.drop_last() =~= known_nodes(init, start, end));
        assert(known.last() == last);
        if last.id != n.id {
            lemma_stands_for_last(nodes, start, end, n);
        } else if last == n {
            assert(nodes[nodes.len() - 1] == n);
        } else if stands_for_its_id(nodes, start, end, n) {
            let i = choose|i: int|
                0 <= i < nodes.len() && #[trigger] nodes[i] == n && forall|j: int|
                    i < j < nodes.len() ==> (#[trigger] nodes[j]).id != n.id;
            assert(nodes[nodes.len() - 1].id == n.id);
        }
    }
}

proof fn lemma_stands_for_last(nodes: Seq<NodeView>, start: NodeView, end: NodeView, n: NodeView)
    requires
        nodes.len() > 0,
        nodes.last().id != n.id,
    ensures
        stands_for_its_id(nodes, start, end, n) <==> stands_for_its_id(
            nodes.drop_last(),
            start,
            end,
            n,
        ),
{
    let init = nodes.drop_last();
    if exists|i: int|
        0 <= i < nodes.len() && #[trigger] nodes[i] == n && forall|j: int|
            i < j < nodes.len() ==> (#[trigger] nodes[j]).id != n.id {
        let i = choose|i: int|
            0 <= i < nodes.len() && #[trigger] nodes[i] == n && forall|j: int|
                i < j < nodes.len() ==> (#[trigger] nodes[j]).id != n.id;
        assert(init[i] == n);
        assert forall|j: int| i < j < init.len() implies (#[trigger] init[j]).id != n.id by {
            assert(nodes[j].id != n.id);
        }
    }
    if exists|i: int|
        0 <= i < init.len() && #[trigger] init[i] == n && forall|j: int|
            i < j < init.len() ==> (#[trigger] init[j]).id != n.id {
        let i = choose|i: int|
            0 <= i < init.len() && #[trigger] init[i] == n && forall|j: int|
                i < j < init.len() ==> (#[trigger] init[j]).id != n.id;
        assert(nodes[i] == n);
        assert forall|j: int| i < j < nodes.len() implies (#[trigger] nodes[j]).id != n.id by {
            if j < init.len() {
                assert(init[j].id != n.id);
            }
        }
    }
    if forall|j: int| 0 <= j < nodes.len() ==> (#[trigger] nodes[j]).id != n.id {
        assert forall|j: int| 0 <= j < init.len() implies (#[trigger] init[j]).id != n.id by {
            assert(nodes[j].id != n.id);
        }
    }
    if forall|j: int| 0 <= j < init.len() ==> (#[trigger] init[j]).id != n.id {
        assert forall|j: int| 0 <= j < nodes.len() implies (#[trigger] nodes[j]).id != n.id by {
            if j < init.len() {
                assert(init[j].id != n.id);
            }
        }
    }
}

/// The trail that a path follows.
spec fn trail_of(hit: HitView) -> Seq<HopView> {
    Seq::new(
        hit.steps.len(),
        |j: int| HopView { to: hit.nodes[j + 1].id, step: hit.steps[j] },
    )
}

/// A path with a route is one that the search comes by.
proof fn lemma_route_to_trail(
    nodes: Seq<NodeView>,
    edges: Seq<EdgeView>,
    start: NodeView,
    end: NodeView,
    r: Seq<int>,
    hit: HitView,
)
    requires
        is_route(nodes, edges, start, end, r, hit),
    ensures
        marked_arrivals(
            edges,
            joins(known_nodes(nodes, start, end)),
            start.id,
            end.id,
            r.len(),
        ).contains((trail_of(hit), r)),
        hit == as_hit(known_nodes(nodes, start, end), start.id)(trail_of(hit)),
{
    let known = known_nodes(nodes, start, end);
    let keep = joins(known);
    let t = trail_of(hit);
    let ids = ids_along(start.id, t);
    assert forall|j: int| 0 <= j < ids.len() implies #[trigger] ids[j] == hit.nodes[j].id by {
        if j > 0 {
            assert(t[j - 1].to == hit.nodes[j].id);
        }
    }
    assert forall|j: int| 0 <= j < hit.nodes.len() implies node_with_id(
        known,
        (#[trigger] hit.nodes[j]).id,
    ) == Some(hit.nodes[j]) by {
        lemma_stands_for(nodes, start, end, hit.nodes[j]);
    }
    assert forall|j: int| 0 <= j < r.len() implies 0 <= #[trigger] r[j] < edges.len() && keep(
        edges[r[j]],
    ) && goes_along(edges[r[j]], ids[j], t[j]) by {
        assert(ids[j] == hit.nodes[j].id);
        assert(node_with_id(known, hit.nodes[j].id) == Some(hit.nodes[j]));
        assert(node_with_id(known, hit.nodes[j + 1].id) == Some(hit.nodes[j + 1]));
    }
    assert forall|i: int, j: int| 0 <= i < ids.len() && 0 <= j < ids.len() && i != j implies ids[i]
        != ids[j] by {
        assert(ids[i] == hit.nodes[i].id);
        assert(ids[j] == hit.nodes[j].id);
    }
    lemma_ids_along(start.id, t, t.len() as int);
    assert(t.take(t.len() as int) =~= t);
    assert(ids[t.len() as int] == hit.nodes[t.len() as int].id);
    lemma_marked_arrival(edges, keep, start.id, end.id, r.len(), t, r);
    let other = as_hit(known, start.id)(t);
    assert(other.nodes =~= hit.nodes);
    assert(other.steps =~= hit.steps);
}

/// A trail that the search comes by gives a path with that route.
proof fn lemma_trail_to_route(
    nodes: Seq<NodeView>,
    edges: Seq<EdgeView>,
    start: NodeView,
    end: NodeView,
    t: Seq<HopView>,
    r: Seq<int>,
)
    requires
        marked_arrivals(
            edges,
            joins(known_nodes(nodes, start, end)),
            start.id,
            end.id,
            t.len(),
        ).contains((t, r)),
    ensures
        is_route(
            nodes,
            edges,
            start,
            end,
            r,
            as_hit(known_nodes(nodes, start, end), start.id)(t),
        ),
{
    let known = known_nodes(nodes, start, end);
    let keep = joins(known);
    let hit = as_hit(known, start.id)(t);
    let ids = ids_along(start.id, t);
    lemma_marked_arrival(edges, keep, start.id, end.id, t.len(), t, r);
    assert forall|j: int| 0 <= j < ids.len() implies node_with_id(known, #[trigger] ids[j])
        is Some by {
        if j == 0 {
            law_known_nodes(nodes, start, end, start.id);
        } else {
            assert(keep(edges[r[j - 1]]));
            assert(ids[j] == t[j - 1].to);
        }
    }
    assert forall|j: int| 0 <= j < hit.nodes.len() implies (#[trigger] hit.nodes[j]).id == ids[j]
        && stands_for_its_id(nodes, start, end, hit.nodes[j]) by {
        assert(node_with_id(known, ids[j]) is Some);
        lemma_node_with_id(known, ids[j]);
        lemma_stands_for(nodes, start, end, hit.nodes[j]);
    }
    assert forall|j: int| 0 <= j < r.len() implies 0 <= #[trigger] r[j] < edges.len()
        && goes_along(
        edges[r[j]],
        hit.nodes[j].id,
        HopView { to: hit.nodes[j + 1].id, step: hit.steps[j] },
    ) by {
        assert(hit.nodes[j].id == ids[j]);
        assert(hit.nodes[j + 1].id == ids[j + 1]);
        assert(ids[j + 1] == t[j].to);
        assert(hit.steps[j] == t[j].step);
        assert(HopView { to: hit.nodes[j + 1].id, step: hit.steps[j] } == t[j]);
    }
    lemma_ids_along(start.id, t, t.len() as int);
    assert(t.take(t.len() as int) =~= t);
    assert(hit.nodes[0].id == ids[0]);
    assert(hit.nodes[t.len() as int].id == ids[t.len() as int]);
    assert forall|i: int, j: int| 0 <= i < j < hit.nodes.len() implies (
    #[trigger] hit.nodes[i]).id != (#[trigger] hit.nodes[j]).id by {
        assert(ids[i] != ids[j]);
    }
}

/// Whether `routes` are the routes that the paths `found` by a search for at
/// most `max_paths` go along.
///
/// Each path goes along its route. The routes come one before the other, so
/// that none is taken twice. No route from `start` to `end` is shorter, and a
/// route of at most 64 nodes is found if there is one. A route that is as
/// short and not taken comes after all that are, and there is one only if as
/// many paths as were asked for are found, or one if none was asked for.
pub open spec fn are_first_routes(
    nodes: Seq<NodeView>,
    edges: Seq<EdgeView>,
    start: NodeView,
    end: NodeView,
    max_paths: nat,
    found: Seq<HitView>,
    routes: Seq<Seq<int>>,
) -> bool {
    &&& routes.len() == found.len()
    &&& found.len() <= max_paths || found.len() == 1
    &&& forall|i: int|
        0 <= i < found.len() ==> is_route(nodes, edges, start, end, #[trigger] routes[i], found[i])
            && routes[i].len() < 64
    &&& forall|i: int, j: int|
        0 <= i < j < routes.len() ==> comes_before(#[trigger] routes[i], #[trigger] routes[j])
    &&& forall|r: Seq<int>, hit: HitView| #[trigger]
        is_route(nodes, edges, start, end, r, hit) ==> {
            &&& r.len() < 64 ==> found.len() > 0
            &&& forall|i: int| 0 <= i < routes.len() ==> (#[trigger] routes[i]).len() <= r.len()
            &&& found.len() > 0 && r.len() == routes[0].len() ==> {
                ||| exists|i: int|
                    0 <= i < routes.len() && #[trigger] routes[i] == r && found[i] == hit
                ||| found.len() >= max_paths && forall|i: int|
                    0 <= i < routes.len() ==> comes_before(#[trigger] routes[i], r)
            }
        }
}

/// Whether the paths `found` by a search for at most `max_paths` are those
/// with the first of the shortest routes, in that order.
pub open spec fn have_first_routes(
    nodes: Seq<NodeView>,
    edges: Seq<EdgeView>,
    start: NodeView,
    end: NodeView,
    max_paths: nat,
    found: Seq<HitView>,
) -> bool {
    exists|routes: Seq<Seq<int>>| #[trigger]
        are_first_routes(nodes, edges, start, end, max_paths, found, routes)
}

proof fn lemma_other_route(
    nodes: Seq<NodeView>,
    edges: Seq<EdgeView>,
    start: NodeView,
    end: NodeView,
    max_paths: nat,
    l: nat,
    routes: Seq<Seq<int>>,
    r: Seq<int>,
    hit: HitView,
)
    requires
        is_route(nodes, edges, start, end, r, hit),
        ({
            let g = open_edges(nodes, edges, start, end);
            let all = shortest_trails(g, start.id, end.id);
            let keep = joins(known_nodes(nodes, start, end));
            let marked = marked_arrivals(edges, keep, start.id, end.id, l);
            &&& all.len() > 0 ==> l < 64 && all == arrivals(g, start.id, end.id, l)
            &&& all.len() == 0 ==> l >= 64
            &&& forall|k: nat| k < l ==> (#[trigger] arrivals(g, start.id, end.id, k)).len() == 0
            &&& routes.len() == found_paths(nodes, edges, start, end, max_paths).len()
            &&& forall|i: int| 0 <= i < routes.len() ==> #[trigger] routes[i] == marked[i].1
            &&& forall|i: int| 0 <= i < routes.len() ==> (#[trigger] routes[i]).len() == l
        }),
    ensures
        ({
            let found = found_paths(nodes, edges, start, end, max_paths);
            &&& r.len() < 64 ==> found.len() > 0
            &&& forall|i: int| 0 <= i < routes.len() ==> (#[trigger] routes[i]).len() <= r.len()
            &&& found.len() > 0 && r.len() == routes[0].len() ==> {
                ||| exists|i: int|
                    0 <= i < routes.len() && #[trigger] routes[i] == r && found[i] == hit
                ||| found.len() >= max_paths && forall|i: int|
                    0 <= i < routes.len() ==> comes_before(#[trigger] routes[i], r)
            }
        }),
{
    let g = open_edges(nodes, edges, start, end);
    let known = known_nodes(nodes, start, end);
    let keep = joins(known);
    let found = found_paths(nodes, edges, start, end, max_paths);
    let all = shortest_trails(g, start.id, end.id);
    let n = r.len();
    let t = trail_of(hit);
    lemma_route_to_trail(nodes, edges, start, end, r, hit);
    lemma_marked_arrivals(edges, keep, start.id, end.id, n);
    let some = marked_arrivals(edges, keep, start.id, end.id, n);
    let m = choose|m: int| 0 <= m < some.len() && some[m] == (t, r);
    assert(arrivals(g, start.id, end.id, n).len() > 0);
    assert(l <= n);
    if n < 64 {
        assert(all.len() > 0);
    }
    if found.len() > 0 && n == routes[0].len() {
        assert(all == arrivals(g, start.id, end.id, n));
        assert(all[m] == t);
        if m < routes.len() {
            assert(routes[m] == r);
            assert(found[m] == hit);
        } else {
            assert(found.len() >= max_paths);
            assert forall|i: int| 0 <= i < routes.len() implies comes_before(
                #[trigger] routes[i],
                r,
            ) by {
                assert(comes_before(some[i].1, some[m].1));
            }
        }
    }
}

/// A search hands out the paths with the shortest routes, the first routes
/// first, as many as it was asked for.
pub proof fn law_first_routes_are_found(
    nodes: Seq<NodeView>,
    edges: Seq<EdgeView>,
    start: NodeView,
    end: NodeView,
    max_paths: nat,
) -> (routes: Seq<Seq<int>>)
    ensures
        are_first_routes(
            nodes,
            edges,
            start,
            end,
            max_paths,
            found_paths(nodes, edges, start, end, max_paths),
            routes,
        ),
        have_first_routes(
            nodes,
            edges,
            start,
            end,
            max_paths,
            found_paths(nodes, edges, start, end, max_paths),
        ),
{
    let g = open_edges(nodes, edges, start, end);
    let known = known_nodes(nodes, start, end);
    let keep = joins(known);
    let found = found_paths(nodes, edges, start, end, max_paths);
    let all = shortest_trails(g, start.id, end.id);
    let l = lemma_shortest(g, start.id, end.id, 0);
    let marked = marked_arrivals(edges, keep, start.id, end.id, l);
    lemma_marked_arrivals(edges, keep, start.id, end.id, l);
    let routes = Seq::new(found.len(), |i: int| marked[i].1);
    assert forall|i: int| 0 <= i < found.len() implies is_route(
        nodes,
        edges,
        start,
        end,
        #[trigger] routes[i],
        found[i],
    ) && routes[i].len() == l by {
        let s = marked[i];
        assert(s == (s.0, s.1));
        assert(marked.contains(s));
        lemma_marked_arrival(edges, keep, start.id, end.id, l, s.0, s.1);
        lemma_trail_to_route(nodes, edges, start, end, s.0, s.1);
        assert(all[i] == s.0);
    }
    assert forall|i: int, j: int| 0 <= i < j < routes.len() implies comes_before(
        #[trigger] routes[i],
        #[trigger] routes[j],
    ) by {
        assert(comes_before(marked[i].1, marked[j].1));
    }
    assert forall|r: Seq<int>, hit: HitView| #[trigger]
        is_route(nodes, edges, start, end, r, hit) implies {
        &&& r.len() < 64 ==> found.len() > 0
        &&& forall|i: int| 0 <= i < routes.len() ==> (#[trigger] routes[i]).len() <= r.len()
        &&& found.len() > 0 && r.len() == routes[0].len() ==> {
            ||| exists|i: int|
                0 <= i < routes.len() && #[trigger] routes[i] == r && found[i] == hit
            ||| found.len() >= max_paths && forall|i: int|
                0 <= i < routes.len() ==> comes_before(#[trigger] routes[i], r)
        }
    } by {
        lemma_other_route(nodes, edges, start, end, max_paths, l, routes, r, hit);
    }
    assert(are_first_routes(nodes, edges, start, end, max_paths, found, routes));
    routes
}

/// A search that hands out fewer paths than it was asked for has found every
/// path that is as short as those.
pub proof fn law_fewer_paths_are_all_paths(
    nodes: Seq<NodeView>,
    edges: Seq<EdgeView>,
    start: NodeView,
    end: NodeView,
    max_paths: nat,
    route: Seq<int>,
    hit: HitView,
)
    requires
        is_route(nodes, edges, start, end, route, hit),
        0 < found_paths(nodes, edges, start, end, max_paths).len() < max_paths,
        hit.steps.len() == found_paths(nodes, edges, start, end, max_paths)[0].steps.len(),
    ensures
        found_paths(nodes, edges, start, end, max_paths).contains(hit),
{
    let found = found_paths(nodes, edges, start, end, max_paths);
    let routes = law_first_routes_are_found(nodes, edges, start, end, max_paths);
    assert(is_route(nodes, edges, start, end, routes[0], found[0]));
    assert(is_route(nodes, edges, start, end, route, hit));
    let i = choose|i: int| 0 <= i < routes.len() && #[trigger] routes[i] == route && found[i] == hit;
    assert(found[i] == hit);
}

} // verus!
