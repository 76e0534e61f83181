use vstd::prelude::*;
use crate::model::{
    least_from, not_self_pointing, not_touching, shift_edge, within, GraphView,
};

verus! {

/// What `least_from` returns lies in `from..=n`; below `n` it satisfies
/// `p`, and nothing before it does.
pub proof fn lemma_least_from(p: spec_fn(int) -> bool, from: int, n: int)
    requires
        from <= n,
    ensures
        from <= least_from(p, from, n) <= n,
        least_from(p, from, n) < n ==> p(least_from(p, from, n)),
        forall|j: int| from <= j < least_from(p, from, n) ==> !#[trigger] p(j),
    decreases n - from,
{
    if from < n && !p(from) {
        lemma_least_from(p, from + 1, n);
    }
}

/// A candidate that satisfies `p` (or is `n`) with nothing before it that
/// does is what `least_from` returns.
pub proof fn lemma_least_from_is(p: spec_fn(int) -> bool, from: int, n: int, r: int)
    requires
        from <= r <= n,
        r < n ==> p(r),
        forall|j: int| from <= j < r ==> !#[trigger] p(j),
    ensures
        least_from(p, from, n) == r,
    decreases n - from,
{
    if from < r {
        lemma_least_from_is(p, from + 1, n, r);
    }
}

/// What a filter keeps: every element that is kept satisfies the test and
/// comes from the sequence, and every element of the sequence that
/// satisfies the test is kept.
pub proof fn lemma_filter_elements<A>(s: Seq<A>, p: spec_fn(A) -> bool)
    ensures
        s.filter(p).len() <= s.len(),
        forall|i: int|
            0 <= i < s.filter(p).len() ==> p(#[trigger] s.filter(p)[i]) && s.contains(
                s.filter(p)[i],
            ),
        forall|i: int| 0 <= i < s.len() && p(s[i]) ==> s.filter(p).contains(#[trigger] s[i]),
{
    broadcast use vstd::seq_lib::group_filter_ensures;

    assert forall|i: int| 0 <= i < s.filter(p).len() implies s.contains(
        #[trigger] s.filter(p)[i],
    ) by {
        assert(s.filter(p).contains(s.filter(p)[i]));
        s.lemma_filter_contains_rev(p, s.filter(p)[i]);
    }
}

/// Dropping the edges that point outside the slots leaves a consistent
/// graph.
pub proof fn lemma_without_dangling_consistent(g: GraphView)
    ensures
        g.without_dangling().consistent(),
        g.consistent() ==> g.without_dangling() == g,
{
    let n = g.nodes.len() as int;
    lemma_filter_elements(g.edges, within(n));
    if g.consistent() {
        lemma_filter_all(g.edges, within(n));
    }
}

/// A filter whose test every element passes changes nothing.
pub proof fn lemma_filter_all<A>(s: Seq<A>, p: spec_fn(A) -> bool)
    requires
        forall|i: int| 0 <= i < s.len() ==> p(#[trigger] s[i]),
    ensures
        s.filter(p) == s,
    decreases s.len(),
{
    reveal(Seq::filter);
    if s.len() > 0 {
        lemma_filter_all(s.drop_last(), p);
        assert(s.drop_last().push(s.last()) =~= s);
    }
}

/// Removing the self-loops of a consistent graph leaves a consistent
/// graph.
pub proof fn lemma_without_self_loops_consistent(g: GraphView)
    requires
        g.consistent(),
    ensures
        g.without_self_loops().consistent(),
{
    let kept = g.edges.filter(not_self_pointing());
    lemma_filter_elements(g.edges, not_self_pointing());
    assert forall|i: int| 0 <= i < kept.len() implies g.has_slot((#[trigger] kept[i]).0)
        && g.has_slot(kept[i].1) by {
        assert(g.edges.contains(kept[i]));
        let j = choose|j: int| 0 <= j < g.edges.len() && g.edges[j] == kept[i];
        assert(g.has_slot(g.edges[j].0));
    }
}

/// Removing a node of a consistent graph leaves a consistent graph.
pub proof fn lemma_remove_consistent(g: GraphView, s: int)
    requires
        g.consistent(),
        g.has_slot(s),
    ensures
        g.remove(s).consistent(),
{
    let kept = g.edges.filter(not_touching(s));
    lemma_filter_elements(g.edges, not_touching(s));
    let r = g.remove(s);
    assert forall|i: int| 0 <= i < r.edges.len() implies r.has_slot((#[trigger] r.edges[i]).0)
        && r.has_slot(r.edges[i].1) by {
        assert(r.edges[i] == shift_edge(s)(kept[i]));
        assert(g.edges.contains(kept[i]));
        let j = choose|j: int| 0 <= j < g.edges.len() && g.edges[j] == kept[i];
        assert(g.has_slot(g.edges[j].0));
    }
}

} // verus!
