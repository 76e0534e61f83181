use vstd::prelude::*;
use crate::lemmas::lemma_filter_all;
use crate::model::{
    avoiding, close_up, close_up_slot, gone_below, node_at, not_touching, shift_edge, slots,
    staying, GraphView,
};

verus! {

/// Where no slot below `x` is gone, none is counted.
pub proof fn lemma_gone_below_none(gone: Set<int>, x: int)
    requires
        forall|t: int| 0 <= t < x ==> !gone.contains(t),
    ensures
        gone_below(gone, x) == 0,
    decreases x,
{
    if x > 0 {
        lemma_gone_below_none(gone, x - 1);
    }
}

/// One more removed slot `x` counts once for every slot above it.
pub proof fn lemma_gone_below_insert(gone: Set<int>, x: int, y: int)
    requires
        0 <= x,
        !gone.contains(x),
    ensures
        gone_below(gone.insert(x), y) == gone_below(gone, y) + if x < y {
            1int
        } else {
            0int
        },
    decreases y,
{
    if y > 0 {
        lemma_gone_below_insert(gone, x, y - 1);
    }
}

/// Renumbering keeps the order of slots.
pub proof fn lemma_close_up_monotone(gone: Set<int>, a: int, b: int)
    requires
        a <= b,
    ensures
        close_up_slot(gone, a) <= close_up_slot(gone, b),
    decreases b - a,
{
    if a < b {
        lemma_close_up_monotone(gone, a, b - 1);
    }
}

/// Renumbering keeps a slot that stays strictly below every later slot.
pub proof fn lemma_close_up_strict(gone: Set<int>, a: int, b: int)
    requires
        a < b,
        !gone.contains(a),
    ensures
        close_up_slot(gone, a) < close_up_slot(gone, b),
{
    lemma_close_up_monotone(gone, a + 1, b);
}

/// As many slots stay as are not gone.
pub proof fn lemma_staying_len(gone: Set<int>, n: int)
    requires
        0 <= n,
    ensures
        slots(n).filter(staying(gone)).len() == close_up_slot(gone, n),
    decreases n,
{
    reveal(Seq::filter);
    if n > 0 {
        lemma_staying_len(gone, n - 1);
        assert(slots(n).drop_last() =~= slots(n - 1));
    }
}

/// A slot that stays stands, among those that stay, at its renumbered
/// place.
pub proof fn lemma_staying_index(gone: Set<int>, n: int, x: int)
    requires
        0 <= x < n,
        !gone.contains(x),
    ensures
        0 <= close_up_slot(gone, x) < slots(n).filter(staying(gone)).len(),
        slots(n).filter(staying(gone))[close_up_slot(gone, x)] == x,
    decreases n,
{
    reveal(Seq::filter);
    assert(slots(n).drop_last() =~= slots(n - 1));
    lemma_staying_len(gone, n - 1);
    lemma_close_up_monotone(gone, 0, x);
    if x < n - 1 {
        lemma_staying_index(gone, n - 1, x);
    }
}

/// The `k`-th of the slots that stay is a slot of the graph that is not
/// gone, and `k` is its renumbered place.
pub proof fn lemma_staying_at(gone: Set<int>, n: int, k: int)
    requires
        0 <= n,
        0 <= k < slots(n).filter(staying(gone)).len(),
    ensures
        0 <= slots(n).filter(staying(gone))[k] < n,
        !gone.contains(slots(n).filter(staying(gone))[k]),
        close_up_slot(gone, slots(n).filter(staying(gone))[k]) == k,
    decreases n,
{
    reveal(Seq::filter);
    if n > 0 {
        assert(slots(n).drop_last() =~= slots(n - 1));
        lemma_staying_len(gone, n - 1);
        if k < slots(n - 1).filter(staying(gone)).len() {
            lemma_staying_at(gone, n - 1, k);
        }
    }
}

/// With one more slot `x` gone, the slots that stay are those that stayed
/// before, less `x`.
pub proof fn lemma_staying_insert(gone: Set<int>, n: int, x: int)
    requires
        0 <= n,
        0 <= x,
        !gone.contains(x),
    ensures
        slots(n).filter(staying(gone.insert(x))) == if x < n {
            slots(n).filter(staying(gone)).remove(close_up_slot(gone, x))
        } else {
            slots(n).filter(staying(gone))
        },
    decreases n,
{
    reveal(Seq::filter);
    if n > 0 {
        assert(slots(n).drop_last() =~= slots(n - 1));
        lemma_staying_insert(gone, n - 1, x);
        lemma_staying_len(gone, n - 1);
        let more = gone.insert(x);
        let before = slots(n - 1).filter(staying(gone));
        let k = close_up_slot(gone, x);
        if x == n - 1 {
            assert(before.push(x).remove(k) =~= before);
        } else if x < n - 1 {
            lemma_staying_index(gone, n - 1, x);
            if !gone.contains(n - 1) {
                assert(before.remove(k).push(n - 1) =~= before.push(n - 1).remove(k));
            }
        }
    }
}

/// A filter and a renumbering, followed by a second filter and a second
/// renumbering, are one filter and one renumbering.
pub proof fn lemma_filter_map_fuse<A, B, C>(
    s: Seq<A>,
    p1: spec_fn(A) -> bool,
    f1: spec_fn(A) -> B,
    p2: spec_fn(B) -> bool,
    f2: spec_fn(B) -> C,
    p3: spec_fn(A) -> bool,
    f3: spec_fn(A) -> C,
)
    requires
        forall|i: int|
            0 <= i < s.len() ==> (p3(#[trigger] s[i]) <==> p1(s[i]) && p2(f1(s[i]))),
        forall|i: int| 0 <= i < s.len() && p3(#[trigger] s[i]) ==> f3(s[i]) == f2(f1(s[i])),
    ensures
        s.filter(p1).map_values(f1).filter(p2).map_values(f2) == s.filter(p3).map_values(f3),
    decreases s.len(),
{
    reveal(Seq::filter);
    if s.len() == 0 {
        assert(s.filter(p1).map_values(f1).filter(p2).map_values(f2) =~= s.filter(p3).map_values(
            f3,
        ));
    } else {
        let t = s.drop_last();
        let a = s.last();
        assert forall|i: int| 0 <= i < t.len() implies (p3(#[trigger] t[i]) <==> p1(t[i]) && p2(
            f1(t[i]),
        )) by {
            assert(t[i] == s[i]);
        }
        assert forall|i: int| 0 <= i < t.len() && p3(#[trigger] t[i]) implies f3(t[i]) == f2(
            f1(t[i]),
        ) by {
            assert(t[i] == s[i]);
        }
        lemma_filter_map_fuse(t, p1, f1, p2, f2, p3, f3);
        assert(a == s[s.len() - 1]);
        let u = t.filter(p1).map_values(f1);
        if p1(a) {
            assert(s.filter(p1).map_values(f1) =~= u.push(f1(a)));
            u.lemma_filter_push(f1(a), p2);
            if p2(f1(a)) {
                assert(u.filter(p2).push(f1(a)).map_values(f2) =~= u.filter(p2).map_values(
                    f2,
                ).push(f2(f1(a))));
                assert(t.filter(p3).push(a).map_values(f3) =~= t.filter(p3).map_values(f3).push(
                    f3(a),
                ));
            }
        }
    }
}

/// Removing one more node: the graph without the slots in `gone`, less
/// the node that was at slot `x`, is the graph without `gone` and `x`.
pub proof fn lemma_without_remove(g: GraphView, gone: Set<int>, x: int)
    requires
        g.has_slot(x),
        !gone.contains(x),
    ensures
        g.without(gone).remove(close_up_slot(gone, x)) == g.without(gone.insert(x)),
{
    let n = g.nodes.len() as int;
    let k = close_up_slot(gone, x);
    let more = gone.insert(x);
    let stay = slots(n).filter(staying(gone));
    lemma_staying_insert(gone, n, x);
    lemma_staying_index(gone, n, x);
    assert(stay.remove(k).map_values(node_at(g.nodes)) =~= stay.map_values(
        node_at(g.nodes),
    ).remove(k));
    assert forall|i: int| 0 <= i < g.edges.len() implies (avoiding(more)(#[trigger] g.edges[i])
        <==> avoiding(gone)(g.edges[i]) && not_touching(k)(close_up(gone)(g.edges[i]))) by {
        let e = g.edges[i];
        lemma_close_up_apart(gone, x, e.0);
        lemma_close_up_apart(gone, x, e.1);
    }
    assert forall|i: int| 0 <= i < g.edges.len() && avoiding(more)(
        #[trigger] g.edges[i],
    ) implies close_up(more)(g.edges[i]) == shift_edge(k)(close_up(gone)(g.edges[i])) by {
        let e = g.edges[i];
        lemma_close_up_apart(gone, x, e.0);
        lemma_close_up_apart(gone, x, e.1);
        lemma_gone_below_insert(gone, x, e.0);
        lemma_gone_below_insert(gone, x, e.1);
    }
    lemma_filter_map_fuse(
        g.edges,
        avoiding(gone),
        close_up(gone),
        not_touching(k),
        shift_edge(k),
        avoiding(more),
        close_up(more),
    );
}

/// Two slots that stay are renumbered in their order: apart where they
/// differ, and the later one to the larger number.
pub proof fn lemma_close_up_apart(gone: Set<int>, x: int, y: int)
    requires
        !gone.contains(x),
    ensures
        !gone.contains(y) && y != x ==> close_up_slot(gone, y) != close_up_slot(gone, x),
        y > x <==> close_up_slot(gone, y) > close_up_slot(gone, x),
        y == x ==> close_up_slot(gone, y) == close_up_slot(gone, x),
{
    if y > x {
        lemma_close_up_strict(gone, x, y);
    } else {
        lemma_close_up_monotone(gone, y, x);
        if y < x && !gone.contains(y) {
            lemma_close_up_strict(gone, y, x);
        }
    }
}

/// Removing no node changes nothing.
pub proof fn lemma_without_nothing(g: GraphView)
    ensures
        g.without(Set::empty()) == g,
{
    let none = Set::<int>::empty();
    let n = g.nodes.len() as int;
    lemma_filter_all(slots(n), staying(none));
    assert(slots(n).map_values(node_at(g.nodes)) =~= g.nodes);
    lemma_filter_all(g.edges, avoiding(none));
    assert forall|i: int| 0 <= i < g.edges.len() implies close_up(none)(#[trigger] g.edges[i])
        == g.edges[i] by {
        lemma_gone_below_none(none, g.edges[i].0);
        lemma_gone_below_none(none, g.edges[i].1);
    }
    assert(g.edges.map_values(close_up(none)) =~= g.edges);
}

} // verus!
