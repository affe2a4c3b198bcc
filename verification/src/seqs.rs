//! Facts about sequences.
use vstd::prelude::*;

verus! {

pub(crate) proof fn lemma_flat_map_contains<A, B>(s: Seq<A>, f: spec_fn(A) -> Seq<B>, x: B)
    ensures
        s.flat_map(f).contains(x) <==> exists|i: int| 0 <= i < s.len() && f(#[trigger] s[i]).contains(x),
    decreases s.len(),
{
    if s.len() == 0 {
        assert(s.map_values(f) =~= Seq::<Seq<B>>::empty());
        assert(s.flat_map(f) =~= Seq::<B>::empty());
    } else {
        let init = s.drop_last();
        lemma_flat_map_contains(init, f, x);
        init.lemma_flat_map_push(f, s.last());
        assert(init.push(s.last()) =~= s);
        vstd::seq_lib::lemma_seq_concat_contains_all_elements(init.flat_map(f), f(s.last()), x);
        if init.flat_map(f).contains(x) {
            let i = choose|i: int| 0 <= i < init.len() && f(#[trigger] init[i]).contains(x);
            assert(f(s[i]).contains(x));
        }
        if f(s.last()).contains(x) {
            assert(f(s[s.len() - 1]).contains(x));
        }
        if exists|i: int| 0 <= i < s.len() && f(#[trigger] s[i]).contains(x) {
            let i = choose|i: int| 0 <= i < s.len() && f(#[trigger] s[i]).contains(x);
            if i < init.len() {
                assert(f(init[i]).contains(x));
            }
        }
    }
}

pub(crate) proof fn lemma_flat_map_empty<A, B>(f: spec_fn(A) -> Seq<B>)
    ensures
        Seq::<A>::empty().flat_map(f) == Seq::<B>::empty(),
{
    assert(Seq::<A>::empty().map_values(f) =~= Seq::<Seq<B>>::empty());
    assert(Seq::<A>::empty().flat_map(f) =~= Seq::<B>::empty());
}

pub(crate) proof fn lemma_filter_agrees<A>(
    s: Seq<A>,
    f: spec_fn(A) -> bool,
    g: spec_fn(A) -> bool,
)
    requires
        forall|i: int| 0 <= i < s.len() ==> f(#[trigger] s[i]) == g(s[i]),
    ensures
        s.filter(f) == s.filter(g),
    decreases s.len(),
{
    if s.len() == 0 {
        s.lemma_filter_len(f);
        s.lemma_filter_len(g);
        assert(s.filter(f) =~= s.filter(g));
    } else {
        let init = s.drop_last();
        assert forall|i: int| 0 <= i < init.len() implies f(#[trigger] init[i]) == g(init[i]) by {
            assert(init[i] == s[i]);
        }
        lemma_filter_agrees(init, f, g);
        init.lemma_filter_push(s.last(), f);
        init.lemma_filter_push(s.last(), g);
        assert(init.push(s.last()) =~= s);
        assert(f(s[s.len() - 1]) == g(s[s.len() - 1]));
    }
}

pub(crate) proof fn lemma_flat_map_agrees<A, B>(
    s: Seq<A>,
    f: spec_fn(A) -> Seq<B>,
    g: spec_fn(A) -> Seq<B>,
)
    requires
        forall|i: int| 0 <= i < s.len() ==> f(#[trigger] s[i]) == g(s[i]),
    ensures
        s.flat_map(f) == s.flat_map(g),
{
    assert(s.map_values(f) =~= s.map_values(g));
}

/// What `f` makes of the `i`-th item stands behind what it makes of the items
/// before it.
pub(crate) proof fn lemma_flat_map_split<A, B>(s: Seq<A>, f: spec_fn(A) -> Seq<B>, i: int)
    requires
        0 <= i < s.len(),
    ensures
        exists|after: Seq<B>| #[trigger]
            (s.take(i).flat_map(f) + f(s[i]) + after) == s.flat_map(f),
    decreases s.len(),
{
    let init = s.drop_last();
    let last = s.last();
    init.lemma_flat_map_push(f, last);
    assert(init.push(last) =~= s);
    let before = s.take(i).flat_map(f) + f(s[i]);
    if i == init.len() {
        assert(s.take(i) =~= init);
        assert(before + Seq::<B>::empty() =~= s.flat_map(f));
    } else {
        lemma_flat_map_split(init, f, i);
        assert(init.take(i) =~= s.take(i));
        let after = choose|after: Seq<B>| #[trigger]
            (init.take(i).flat_map(f) + f(init[i]) + after) == init.flat_map(f);
        assert(before + (after + f(last)) =~= s.flat_map(f));
    }
}

} // verus!
