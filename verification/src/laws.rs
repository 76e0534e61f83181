use vstd::prelude::*;
use crate::lemmas::{
    lemma_filter_all, lemma_filter_elements, lemma_least_from, lemma_least_from_is,
    lemma_remove_consistent, lemma_without_dangling_consistent,
};
use crate::model::{
    avoiding, close_up, close_up_slot, named, node_at, not_self_pointing, not_touching,
    shift_edge, shift_slot, slots, staying, swap_edge, within, GraphView,
};
use crate::order::{
    ascending, dedup_of, edge_before, lemma_filter_map_ascending, lemma_sorted_unique_is,
};
use crate::subgraph::{
    lemma_close_up_apart, lemma_close_up_strict, lemma_gone_below_none, lemma_staying_at,
    lemma_staying_index, lemma_staying_len, lemma_without_nothing, lemma_without_remove,
};

verus! {

/// Looking a package up twice gives the same slot both times: after the
/// first lookup the package is found at that slot, a second lookup changes
/// nothing, and the two together add at most one node.
pub proof fn find_or_add_is_idempotent(g: GraphView, name: Seq<char>, ver: Seq<char>)
    ensures
        g.with_dep(name, ver).slot_for(name, ver) == g.slot_for(name, ver),
        g.with_dep(name, ver).find(name, ver) == Some(g.slot_for(name, ver)),
        g.with_dep(name, ver).with_dep(name, ver) == g.with_dep(name, ver),
        g.nodes.len() <= g.with_dep(name, ver).nodes.len() <= g.nodes.len() + 1,
        g.with_dep(name, ver).edges == g.edges,
{
    let n = g.nodes.len() as int;
    let once = g.with_dep(name, ver);
    lemma_least_from(g.holds(name, ver), 0, n);
    if g.find(name, ver) is None {
        assert forall|j: int| 0 <= j < n implies !#[trigger] once.holds(name, ver)(j) by {
            assert(!g.holds(name, ver)(j));
            assert(once.nodes[j] == g.nodes[j]);
        }
        lemma_least_from_is(once.holds(name, ver), 0, n + 1, n);
    }
}

/// A child is added under the slot that a lookup gives: the new edge is
/// the last one, it ends at that slot, and the earlier edges stay.
pub proof fn add_child_appends_one_edge(g: GraphView, parent: int, name: Seq<char>, ver: Seq<char>)
    ensures
        g.with_child(parent, name, ver).nodes == g.with_dep(name, ver).nodes,
        g.with_child(parent, name, ver).edges == g.edges.push((parent, g.slot_for(name, ver))),
        g.consistent() && g.has_slot(parent) ==> g.with_child(parent, name, ver).consistent(),
{
    let n = g.nodes.len() as int;
    lemma_least_from(g.holds(name, ver), 0, n);
    let h = g.with_child(parent, name, ver);
    if g.consistent() && g.has_slot(parent) {
        assert forall|i: int| 0 <= i < h.edges.len() implies h.has_slot((#[trigger] h.edges[i]).0)
            && h.has_slot(h.edges[i].1) by {
            if i < g.edges.len() {
                assert(h.edges[i] == g.edges[i]);
                assert(g.has_slot(g.edges[i].0));
            }
        }
    }
}

/// Edge `e` is an edge of `g` that does not touch slot `s`, with its ends
/// renumbered by "one less where above `s`".
pub open spec fn renumbered_from(g: GraphView, s: int, e: (int, int)) -> bool {
    exists|j: int|
        0 <= j < g.edges.len() && (#[trigger] g.edges[j]).0 != s && g.edges[j].1 != s && e == (
            shift_slot(g.edges[j].0, s),
            shift_slot(g.edges[j].1, s),
        )
}

/// After a node is removed, every edge of the result is an earlier edge
/// with neither end at the removed slot, its ends renumbered by "one less
/// where above the slot"; and every such earlier edge is in the result.
pub proof fn remove_renumbers_the_edges_that_stay(g: GraphView, s: int)
    ensures
        forall|k: int|
            0 <= k < g.remove(s).edges.len() ==> renumbered_from(
                g,
                s,
                #[trigger] g.remove(s).edges[k],
            ),
        forall|j: int|
            0 <= j < g.edges.len() && (#[trigger] g.edges[j]).0 != s && g.edges[j].1 != s
                ==> g.remove(s).edges.contains(
                (shift_slot(g.edges[j].0, s), shift_slot(g.edges[j].1, s)),
            ),
{
    let kept = g.edges.filter(not_touching(s));
    let r = g.remove(s);
    lemma_filter_elements(g.edges, not_touching(s));
    assert forall|k: int| 0 <= k < r.edges.len() implies renumbered_from(
        g,
        s,
        #[trigger] r.edges[k],
    ) by {
        assert(r.edges[k] == shift_edge(s)(kept[k]));
        assert(g.edges.contains(kept[k]));
        let j = choose|j: int| 0 <= j < g.edges.len() && g.edges[j] == kept[k];
        assert(not_touching(s)(kept[k]));
        assert(g.edges[j].0 != s && g.edges[j].1 != s);
    }
    assert forall|j: int|
        0 <= j < g.edges.len() && (#[trigger] g.edges[j]).0 != s && g.edges[j].1
            != s implies r.edges.contains(
        (shift_slot(g.edges[j].0, s), shift_slot(g.edges[j].1, s)),
    ) by {
        assert(not_touching(s)(g.edges[j]));
        assert(kept.contains(g.edges[j]));
        let k = choose|k: int| 0 <= k < kept.len() && kept[k] == g.edges[j];
        assert(r.edges[k] == shift_edge(s)(kept[k]));
    }
}

/// Removing a node of a consistent graph leaves one node less, the other
/// nodes in their order, and no edge with an end at or beyond the new
/// number of nodes.
pub proof fn remove_keeps_the_graph_consistent(g: GraphView, s: int)
    requires
        g.consistent(),
        g.has_slot(s),
    ensures
        g.remove(s).nodes.len() == g.nodes.len() - 1,
        forall|i: int| 0 <= i < s ==> g.remove(s).nodes[i] == g.nodes[i],
        forall|i: int| s <= i < g.nodes.len() - 1 ==> g.remove(s).nodes[i] == g.nodes[i + 1],
        g.remove(s).consistent(),
        forall|k: int|
            0 <= k < g.remove(s).edges.len() ==> 0 <= (#[trigger] g.remove(s).edges[k]).0
                < g.nodes.len() - 1 && 0 <= g.remove(s).edges[k].1 < g.nodes.len() - 1,
{
    lemma_remove_consistent(g, s);
    let r = g.remove(s);
    assert forall|k: int| 0 <= k < r.edges.len() implies 0 <= (#[trigger] r.edges[k]).0
        < g.nodes.len() - 1 && 0 <= r.edges[k].1 < g.nodes.len() - 1 by {
        assert(r.has_slot(r.edges[k].0));
    }
}

/// Pruning the orphans of a consistent graph leaves a consistent graph in
/// which every slot is in use, and which pruning leaves as it is.
pub proof fn pruned_is_a_fixpoint(g: GraphView)
    requires
        g.consistent(),
    ensures
        g.pruned().consistent(),
        g.pruned().no_orphans(),
        g.pruned().pruned() == g.pruned(),
        g.pruned().nodes.len() <= g.nodes.len(),
    decreases g.nodes.len(),
{
    let n = g.nodes.len() as int;
    let s = g.first_orphan();
    lemma_least_from(g.unused(), 0, n);
    if 0 <= s < n {
        lemma_remove_consistent(g, s);
        pruned_is_a_fixpoint(g.remove(s));
    } else {
        assert forall|t: int| g.has_slot(t) implies g.used(t) by {
            assert(!g.unused()(t));
        }
    }
}

/// After orphans are removed, every node is the root or the child of an
/// edge that stayed, no edge points outside the graph, and removing
/// orphans once more changes nothing.
pub proof fn remove_orphans_reaches_a_fixpoint(g: GraphView)
    ensures
        g.without_dangling().pruned().no_orphans(),
        g.without_dangling().pruned().consistent(),
        g.without_dangling().pruned().without_dangling().pruned() == g.without_dangling().pruned(),
{
    lemma_without_dangling_consistent(g);
    pruned_is_a_fixpoint(g.without_dangling());
    lemma_without_dangling_consistent(g.without_dangling().pruned());
}

/// After self-loops are removed, no edge has equal ends, every edge with
/// two different ends is still there, and removing self-loops once more
/// changes nothing.
pub proof fn remove_self_pointing_removes_all_loops(g: GraphView)
    ensures
        forall|i: int|
            0 <= i < g.without_self_loops().edges.len() ==> (
            #[trigger] g.without_self_loops().edges[i]).0 != g.without_self_loops().edges[i].1,
        forall|i: int|
            0 <= i < g.edges.len() && (#[trigger] g.edges[i]).0 != g.edges[i].1
                ==> g.without_self_loops().edges.contains(g.edges[i]),
        forall|i: int|
            0 <= i < g.without_self_loops().edges.len() ==> g.edges.contains(
                #[trigger] g.without_self_loops().edges[i],
            ),
        g.without_self_loops().nodes == g.nodes,
        g.without_self_loops().without_self_loops() == g.without_self_loops(),
{
    let kept = g.edges.filter(not_self_pointing());
    lemma_filter_elements(g.edges, not_self_pointing());
    assert forall|i: int| 0 <= i < kept.len() implies not_self_pointing()(#[trigger] kept[i]) by {}
    lemma_filter_all(kept, not_self_pointing());
    assert forall|i: int|
        0 <= i < g.edges.len() && (#[trigger] g.edges[i]).0 != g.edges[i].1 implies kept.contains(
        g.edges[i],
    ) by {
        assert(not_self_pointing()(g.edges[i]));
    }
}

/// For every list of edges there is a list that holds the same edges,
/// each once, in ascending order.
pub proof fn lemma_dedup_exists(s: Seq<(int, int)>) -> (r: Seq<(int, int)>)
    ensures
        dedup_of(r, s),
    decreases s.len(),
{
    if s.len() == 0 {
        let r = Seq::<(int, int)>::empty();
        assert(r.to_set() =~= s.to_set());
        r
    } else {
        let t = s.drop_last();
        let x = s.last();
        let r0 = lemma_dedup_exists(t);
        assert(s =~= t.push(x));
        assert forall|e: (int, int)| s.contains(e) <==> (t.contains(e) || e == x) by {
            if s.contains(e) {
                let i = choose|i: int| 0 <= i < s.len() && s[i] == e;
                if i < t.len() {
                    assert(t[i] == e);
                }
            }
            if t.contains(e) {
                let i = choose|i: int| 0 <= i < t.len() && t[i] == e;
                assert(s[i] == e);
            }
            if e == x {
                assert(s[s.len() - 1] == e);
            }
        }
        assert forall|e: (int, int)| r0.contains(e) <==> t.contains(e) by {
            assert(r0.to_set().contains(e) <==> t.to_set().contains(e));
        }
        if r0.contains(x) {
            assert(r0.to_set() =~= s.to_set());
            r0
        } else {
            let later = |i: int| !edge_before(r0[i], x);
            let k = crate::model::least_from(later, 0, r0.len() as int);
            lemma_least_from(later, 0, r0.len() as int);
            let r = r0.insert(k, x);
            assert forall|i: int, j: int| 0 <= i < j < r.len() implies edge_before(
                #[trigger] r[i],
                #[trigger] r[j],
            ) by {
                if j < k {
                    assert(edge_before(r0[i], r0[j]));
                } else if j == k {
                    assert(!later(i));
                } else if i < k {
                    assert(edge_before(r0[i], r0[j - 1]));
                } else if i == k {
                    assert(later(k));
                    assert(r0.contains(r0[k]));
                    if k < j - 1 {
                        assert(edge_before(r0[k], r0[j - 1]));
                    }
                } else {
                    assert(edge_before(r0[i - 1], r0[j - 1]));
                }
            }
            assert forall|e: (int, int)| r.contains(e) <==> (r0.contains(e) || e == x) by {
                if r.contains(e) {
                    let i = choose|i: int| 0 <= i < r.len() && r[i] == e;
                    if i < k {
                        assert(r0[i] == e);
                    } else if i > k {
                        assert(r0[i - 1] == e);
                    }
                }
                if r0.contains(e) {
                    let i = choose|i: int| 0 <= i < r0.len() && r0[i] == e;
                    if i < k {
                        assert(r[i] == e);
                    } else {
                        assert(r[i + 1] == e);
                    }
                }
                if e == x {
                    assert(r[k] == e);
                }
            }
            assert(r.to_set() =~= s.to_set());
            r
        }
    }
}

/// After duplicates are collapsed, no two edges are equal, the edges are
/// in ascending order, the set of edges is what it was, and collapsing
/// once more changes nothing.
pub proof fn dedup_keeps_each_edge_once(g: GraphView)
    ensures
        g.deduped().edges.no_duplicates(),
        ascending(g.deduped().edges),
        g.deduped().edges.to_set() == g.edges.to_set(),
        g.deduped().nodes == g.nodes,
        g.deduped().deduped() == g.deduped(),
{
    let r = lemma_dedup_exists(g.edges);
    lemma_sorted_unique_is(g.edges, r);
    lemma_sorted_unique_is(r, r);
    assert forall|i: int, j: int| 0 <= i < r.len() && 0 <= j < r.len() && i != j implies r[i]
        != r[j] by {
        if i < j {
            assert(edge_before(r[i], r[j]));
        } else {
            assert(edge_before(r[j], r[i]));
        }
    }
}

/// Choosing a root that the graph holds puts it at slot 0, where a lookup
/// finds it, and only exchanges two nodes.
pub proof fn set_root_puts_the_package_first(g: GraphView, name: Seq<char>, ver: Seq<char>)
    requires
        g.find(name, ver) is Some,
    ensures
        g.with_root(g.find(name, ver)->0).nodes[0].is(name, ver),
        g.with_root(g.find(name, ver)->0).find(name, ver) == Some(0int),
        g.with_root(g.find(name, ver)->0).nodes.len() == g.nodes.len(),
        g.with_root(g.find(name, ver)->0).nodes[g.find(name, ver)->0] == g.nodes[0],
        forall|i: int|
            0 < i < g.nodes.len() && i != g.find(name, ver)->0 ==> g.with_root(
                g.find(name, ver)->0,
            ).nodes[i] == g.nodes[i],
{
    let n = g.nodes.len() as int;
    let r = g.find(name, ver)->0;
    lemma_least_from(g.holds(name, ver), 0, n);
    let h = g.with_root(r);
    assert(g.holds(name, ver)(r));
    lemma_least_from_is(h.holds(name, ver), 0, n, 0);
}

/// Choosing a root in a consistent graph leaves every relationship as it
/// was: each edge still joins the same two nodes, so the multiset of
/// relationships is unchanged, and the graph stays consistent.
pub proof fn set_root_keeps_the_relationships(g: GraphView, r: int)
    requires
        g.consistent(),
        g.has_slot(r),
    ensures
        g.with_root(r).relations() == g.relations(),
        g.with_root(r).relations().to_multiset() == g.relations().to_multiset(),
        g.with_root(r).consistent(),
{
    let h = g.with_root(r);
    assert forall|i: int| 0 <= i < h.edges.len() implies h.has_slot((#[trigger] h.edges[i]).0)
        && h.has_slot(h.edges[i].1) by {
        assert(h.edges[i] == swap_edge(r)(g.edges[i]));
        assert(g.has_slot(g.edges[i].0));
    }
    assert forall|i: int| 0 <= i < g.edges.len() implies h.relations()[i] == g.relations()[i] by {
        assert(h.edges[i] == swap_edge(r)(g.edges[i]));
        assert(g.has_slot(g.edges[i].0));
    }
    assert(h.relations() =~= g.relations());
}

/// Removing one node is removing the set that holds its slot alone.
pub proof fn remove_is_without_one(g: GraphView, s: int)
    requires
        g.has_slot(s),
    ensures
        g.remove(s) == g.without(Set::empty().insert(s)),
{
    let none = Set::<int>::empty();
    lemma_without_nothing(g);
    lemma_gone_below_none(none, s);
    lemma_without_remove(g, none, s);
}

/// Removing a set of nodes from a consistent graph leaves a consistent
/// graph, with as many nodes less as slots of the graph are in the set.
pub proof fn without_keeps_the_graph_consistent(g: GraphView, gone: Set<int>)
    requires
        g.consistent(),
    ensures
        g.without(gone).consistent(),
        g.without(gone).nodes.len() == close_up_slot(gone, g.nodes.len() as int),
{
    let n = g.nodes.len() as int;
    let h = g.without(gone);
    let kept = g.edges.filter(avoiding(gone));
    lemma_staying_len(gone, n);
    lemma_filter_elements(g.edges, avoiding(gone));
    assert forall|i: int| 0 <= i < h.edges.len() implies h.has_slot((#[trigger] h.edges[i]).0)
        && h.has_slot(h.edges[i].1) by {
        assert(h.edges[i] == close_up(gone)(kept[i]));
        assert(g.edges.contains(kept[i]));
        let j = choose|j: int| 0 <= j < g.edges.len() && g.edges[j] == kept[i];
        assert(g.has_slot(g.edges[j].0));
        assert(avoiding(gone)(kept[i]));
        lemma_staying_index(gone, n, kept[i].0);
        lemma_staying_index(gone, n, kept[i].1);
    }
}

/// The nodes that stay are those of the graph that are not removed, in
/// their order.
proof fn lemma_retained_nodes(g: GraphView, keep: spec_fn(Seq<char>) -> bool, k: int)
    requires
        0 <= k <= g.nodes.len(),
    ensures
        slots(k).filter(staying(g.unimportant(keep))).map_values(node_at(g.nodes))
            == g.nodes.take(k).filter(named(keep)),
    decreases k,
{
    reveal(Seq::filter);
    let gone = g.unimportant(keep);
    if k == 0 {
        assert(slots(k).filter(staying(gone)).map_values(node_at(g.nodes)) =~= g.nodes.take(
            k,
        ).filter(named(keep)));
    } else {
        lemma_retained_nodes(g, keep, k - 1);
        assert(slots(k).drop_last() =~= slots(k - 1));
        assert(g.nodes.take(k).drop_last() =~= g.nodes.take(k - 1));
        let before = slots(k - 1).filter(staying(gone));
        if keep(g.nodes[k - 1].name) {
            assert(before.push(k - 1).map_values(node_at(g.nodes)) =~= before.map_values(
                node_at(g.nodes),
            ).push(g.nodes[k - 1]));
        }
    }
}

/// The importance filter leaves the nodes whose names it keeps, in their
/// order, and no others.
pub proof fn retained_keeps_the_named_nodes(g: GraphView, keep: spec_fn(Seq<char>) -> bool)
    ensures
        g.retained(keep).nodes == g.nodes.filter(named(keep)),
        forall|i: int|
            0 <= i < g.retained(keep).nodes.len() ==> keep(
                (#[trigger] g.retained(keep).nodes[i]).name,
            ),
        g.consistent() ==> g.retained(keep).consistent(),
{
    lemma_retained_nodes(g, keep, g.nodes.len() as int);
    assert(g.nodes.take(g.nodes.len() as int) =~= g.nodes);
    lemma_filter_elements(g.nodes, named(keep));
    assert forall|i: int| 0 <= i < g.retained(keep).nodes.len() implies keep(
        (#[trigger] g.retained(keep).nodes[i]).name,
    ) by {
        assert(named(keep)(g.nodes.filter(named(keep))[i]));
    }
    if g.consistent() {
        without_keeps_the_graph_consistent(g, g.unimportant(keep));
    }
}

/// The root of a graph that has one survives pruning.
proof fn lemma_root_survives(g: GraphView)
    requires
        g.has_slot(0),
    ensures
        g.survivors().contains(0),
{
    let root = Set::<int>::empty().insert(0);
    assert(g.supports_itself(root));
    assert(root.contains(0));
}

/// Pruning a graph from which doomed nodes are gone already removes the
/// rest of them, and nothing else.
proof fn lemma_pruned_from(g: GraphView, gone: Set<int>)
    requires
        g.consistent(),
        forall|s: int| gone.contains(s) ==> g.doomed().contains(s),
    ensures
        g.without(gone).pruned() == g.without(g.doomed()),
    decreases g.without(gone).nodes.len(),
{
    let n = g.nodes.len() as int;
    let h = g.without(gone);
    let stay = slots(n).filter(staying(gone));
    let kept = g.edges.filter(avoiding(gone));
    let s1 = h.first_orphan();
    without_keeps_the_graph_consistent(g, gone);
    lemma_staying_len(gone, n);
    lemma_filter_elements(g.edges, avoiding(gone));
    lemma_least_from(h.unused(), 0, h.nodes.len() as int);
    if n > 0 {
        lemma_root_survives(g);
    }
    if 0 <= s1 < h.nodes.len() {
        let x = stay[s1];
        lemma_staying_at(gone, n, s1);
        assert(h.unused()(s1));
        assert(!h.used(s1));
        assert(!g.survivors().contains(x)) by {
            if g.survivors().contains(x) {
                let keep = choose|keep: Set<int>| g.supports_itself(keep) && keep.contains(x);
                lemma_gone_below_none(gone, 0);
                assert(x != 0);
                let i = choose|i: int|
                    0 <= i < g.edges.len() && (#[trigger] g.edges[i]).1 == x && keep.contains(
                        g.edges[i].0,
                    );
                let parent = g.edges[i].0;
                assert(g.survivors().contains(parent));
                assert(!gone.contains(parent));
                assert(avoiding(gone)(g.edges[i]));
                assert(kept.contains(g.edges[i]));
                let k = choose|k: int| 0 <= k < kept.len() && kept[k] == g.edges[i];
                assert(h.edges[k] == close_up(gone)(kept[k]));
                assert(h.edges[k].1 == s1);
                assert(false);
            }
        }
        let more = gone.insert(x);
        lemma_without_remove(g, gone, x);
        lemma_pruned_from(g, more);
    } else {
        assert forall|s: int| h.has_slot(s) implies h.used(s) by {
            assert(!h.unused()(s));
        }
        let left = Set::new(|s: int| g.has_slot(s) && !gone.contains(s));
        assert forall|s: int| left.contains(s) implies g.has_slot(s) && (s == 0 || exists|i: int|
            0 <= i < g.edges.len() && (#[trigger] g.edges[i]).1 == s && left.contains(
                g.edges[i].0,
            )) by {
            if s != 0 {
                lemma_staying_index(gone, n, s);
                lemma_close_up_strict(gone, 0, s);
                lemma_gone_below_none(gone, 0);
                let s2 = close_up_slot(gone, s);
                assert(h.has_slot(s2));
                assert(h.used(s2));
                let k = choose|k: int| 0 <= k < h.edges.len() && (#[trigger] h.edges[k]).1 == s2;
                assert(h.edges[k] == close_up(gone)(kept[k]));
                assert(avoiding(gone)(kept[k]));
                assert(g.edges.contains(kept[k]));
                let i = choose|i: int| 0 <= i < g.edges.len() && g.edges[i] == kept[k];
                lemma_close_up_apart(gone, s, kept[k].1);
                assert(g.edges[i].1 == s);
                assert(g.has_slot(g.edges[i].0));
                assert(left.contains(g.edges[i].0));
            }
        }
        assert(g.supports_itself(left));
        assert forall|s: int| g.doomed().contains(s) implies gone.contains(s) by {
            if !gone.contains(s) {
                assert(left.contains(s));
                assert(g.survivors().contains(s));
            }
        }
        assert(gone =~= g.doomed());
    }
}

/// What pruning leaves of a consistent graph: the largest set of nodes in
/// which every node is the root or the child of an edge from a node of the
/// set. The nodes outside it are removed together with the edges that
/// touch them, and the others keep their order.
pub proof fn pruned_leaves_the_survivors(g: GraphView)
    requires
        g.consistent(),
    ensures
        g.pruned() == g.without(g.doomed()),
        g.supports_itself(g.survivors()),
        forall|keep: Set<int>| g.supports_itself(keep) ==> keep.subset_of(g.survivors()),
{
    lemma_without_nothing(g);
    lemma_pruned_from(g, Set::empty());
    assert forall|s: int| g.survivors().contains(s) implies g.has_slot(s) && (s == 0 || exists|
        i: int,
    |
        0 <= i < g.edges.len() && (#[trigger] g.edges[i]).1 == s && g.survivors().contains(
            g.edges[i].0,
        )) by {
        let keep = choose|keep: Set<int>| g.supports_itself(keep) && keep.contains(s);
        if s != 0 {
            let i = choose|i: int|
                0 <= i < g.edges.len() && (#[trigger] g.edges[i]).1 == s && keep.contains(
                    g.edges[i].0,
                );
            assert(g.survivors().contains(g.edges[i].0));
        }
    }
}

/// Removing a set of nodes keeps ascending edges ascending, and makes no
/// edge point to itself that did not before.
pub proof fn without_keeps_the_edges_tidy(g: GraphView, gone: Set<int>)
    ensures
        ascending(g.edges) ==> ascending(g.without(gone).edges),
        g.no_self_loops() ==> g.without(gone).no_self_loops(),
{
    let kept = g.edges.filter(avoiding(gone));
    let h = g.without(gone);
    lemma_filter_elements(g.edges, avoiding(gone));
    if ascending(g.edges) {
        assert forall|i: int, j: int|
            #![trigger g.edges[i], g.edges[j]]
            0 <= i < j < g.edges.len() && avoiding(gone)(g.edges[i]) && avoiding(gone)(
                g.edges[j],
            ) implies edge_before(close_up(gone)(g.edges[i]), close_up(gone)(g.edges[j])) by {
            let a = g.edges[i];
            let b = g.edges[j];
            assert(edge_before(a, b));
            lemma_close_up_apart(gone, a.0, b.0);
            lemma_close_up_apart(gone, a.1, b.1);
        }
        lemma_filter_map_ascending(g.edges, avoiding(gone), close_up(gone));
    }
    if g.no_self_loops() {
        assert forall|i: int| 0 <= i < h.edges.len() implies (#[trigger] h.edges[i]).0
            != h.edges[i].1 by {
            assert(h.edges[i] == close_up(gone)(kept[i]));
            assert(avoiding(gone)(kept[i]));
            assert(g.edges.contains(kept[i]));
            let j = choose|j: int| 0 <= j < g.edges.len() && g.edges[j] == kept[i];
            assert(g.edges[j].0 != g.edges[j].1);
            lemma_close_up_apart(gone, kept[i].0, kept[i].1);
        }
    }
}

/// Pruning keeps ascending edges ascending.
proof fn lemma_pruned_ascending(g: GraphView)
    requires
        ascending(g.edges),
    ensures
        ascending(g.pruned().edges),
    decreases g.nodes.len(),
{
    let n = g.nodes.len() as int;
    let s = g.first_orphan();
    if 0 <= s < n {
        remove_is_without_one(g, s);
        without_keeps_the_edges_tidy(g, Set::empty().insert(s));
        lemma_pruned_ascending(g.remove(s));
    }
}

/// Dropping edges keeps ascending edges ascending.
proof fn lemma_filter_ascending(s: Seq<(int, int)>, p: spec_fn((int, int)) -> bool)
    requires
        ascending(s),
    ensures
        ascending(s.filter(p)),
{
    let same = |e: (int, int)| e;
    assert forall|i: int, j: int|
        #![trigger s[i], s[j]]
        0 <= i < j < s.len() && p(s[i]) && p(s[j]) implies edge_before(same(s[i]), same(s[j])) by {
        assert(edge_before(s[i], s[j]));
    }
    lemma_filter_map_ascending(s, p, same);
    assert(s.filter(p).map_values(same) =~= s.filter(p));
}

/// A finalized graph is consistent, its edges are in ascending order, so
/// that no two are equal, and none points from a slot to itself. Where a
/// filter was given, it keeps the name of every node that is left.
pub proof fn finalized_is_tidy(g: GraphView, keep: Option<spec_fn(Seq<char>) -> bool>)
    ensures
        g.finalized(keep).consistent(),
        ascending(g.finalized(keep).edges),
        g.finalized(keep).edges.no_duplicates(),
        g.finalized(keep).no_self_loops(),
        keep matches Some(k) ==> forall|i: int|
            0 <= i < g.finalized(keep).nodes.len() ==> k(
                (#[trigger] g.finalized(keep).nodes[i]).name,
            ),
{
    dedup_keeps_each_edge_once(g);
    let a = g.deduped();
    let b = a.without_dangling();
    lemma_filter_ascending(a.edges, within(a.nodes.len() as int));
    lemma_without_dangling_consistent(a);
    let c = b.pruned();
    pruned_is_a_fixpoint(b);
    lemma_pruned_ascending(b);
    let d = c.without_self_loops();
    lemma_filter_ascending(c.edges, not_self_pointing());
    remove_self_pointing_removes_all_loops(c);
    crate::lemmas::lemma_without_self_loops_consistent(c);
    let f = g.finalized(keep);
    match keep {
        Some(k) => {
            retained_keeps_the_named_nodes(d, k);
            without_keeps_the_edges_tidy(d, d.unimportant(k));
        },
        None => {},
    }
    assert forall|i: int, j: int| 0 <= i < f.edges.len() && 0 <= j < f.edges.len() && i
        != j implies f.edges[i] != f.edges[j] by {
        if i < j {
            assert(edge_before(f.edges[i], f.edges[j]));
        } else {
            assert(edge_before(f.edges[j], f.edges[i]));
        }
    }
}

} // verus!
