use vstd::prelude::*;
use crate::config::ConfigView;
use crate::dep::{DepKind, DepView};
use crate::order::sorted_unique;

verus! {

/// The least `i` with `from <= i < n` and `p(i)`, or `n` where there is none.
pub open spec fn least_from(p: spec_fn(int) -> bool, from: int, n: int) -> int
    decreases n - from,
{
    if from >= n {
        n
    } else if p(from) {
        from
    } else {
        least_from(p, from + 1, n)
    }
}

/// The slot that `x` names once the node at slot `s` is gone.
pub open spec fn shift_slot(x: int, s: int) -> int {
    if x > s {
        x - 1
    } else {
        x
    }
}

/// The slot that `x` names once slots 0 and `r` have changed places.
pub open spec fn swap_slot(x: int, r: int) -> int {
    if x == 0 {
        r
    } else if x == r {
        0
    } else {
        x
    }
}

/// Edges that neither start nor end at slot `s`.
pub open spec fn not_touching(s: int) -> spec_fn((int, int)) -> bool {
    |e: (int, int)| e.0 != s && e.1 != s
}

/// Renumbers both ends of an edge after the removal of slot `s`.
pub open spec fn shift_edge(s: int) -> spec_fn((int, int)) -> (int, int) {
    |e: (int, int)| (shift_slot(e.0, s), shift_slot(e.1, s))
}

/// Renumbers both ends of an edge after slots 0 and `r` changed places.
pub open spec fn swap_edge(r: int) -> spec_fn((int, int)) -> (int, int) {
    |e: (int, int)| (swap_slot(e.0, r), swap_slot(e.1, r))
}

/// Edges whose two ends differ.
pub open spec fn not_self_pointing() -> spec_fn((int, int)) -> bool {
    |e: (int, int)| e.0 != e.1
}

/// Edges whose two ends are both slots of a graph with `n` nodes.
pub open spec fn within(n: int) -> spec_fn((int, int)) -> bool {
    |e: (int, int)| 0 <= e.0 < n && 0 <= e.1 < n
}

/// The slots of a graph with `n` nodes, in order.
pub open spec fn slots(n: int) -> Seq<int> {
    Seq::new(n as nat, |i: int| i)
}

/// How many of the slots below `x` are in `gone`.
pub open spec fn gone_below(gone: Set<int>, x: int) -> int
    decreases x,
{
    if x <= 0 {
        0
    } else {
        gone_below(gone, x - 1) + if gone.contains(x - 1) {
            1int
        } else {
            0int
        }
    }
}

/// The slot that `x` names once the nodes at the slots in `gone` are gone:
/// `x` less the number of removed slots below it.
pub open spec fn close_up_slot(gone: Set<int>, x: int) -> int {
    x - gone_below(gone, x)
}

/// Slots that are not in `gone`.
pub open spec fn staying(gone: Set<int>) -> spec_fn(int) -> bool {
    |s: int| !gone.contains(s)
}

/// Edges with no end in `gone`.
pub open spec fn avoiding(gone: Set<int>) -> spec_fn((int, int)) -> bool {
    |e: (int, int)| !gone.contains(e.0) && !gone.contains(e.1)
}

/// Renumbers both ends of an edge after the removal of the slots in `gone`.
pub open spec fn close_up(gone: Set<int>) -> spec_fn((int, int)) -> (int, int) {
    |e: (int, int)| (close_up_slot(gone, e.0), close_up_slot(gone, e.1))
}

/// Nodes whose package name `keep` accepts.
pub open spec fn named(keep: spec_fn(Seq<char>) -> bool) -> spec_fn(DepView) -> bool {
    |d: DepView| keep(d.name)
}

/// The node at a slot.
pub open spec fn node_at(nodes: Seq<DepView>) -> spec_fn(int) -> DepView {
    |s: int| nodes[s]
}

/// The mathematical model of a dependency graph: the nodes in slot order,
/// the edges as pairs of slots in the order they are stored, and the
/// rendering configuration.
pub struct GraphView {
    pub nodes: Seq<DepView>,
    pub edges: Seq<(int, int)>,
    pub cfg: ConfigView,
}

impl GraphView {
    /// Whether `s` is a slot of the graph.
    pub open spec fn has_slot(self, s: int) -> bool {
        0 <= s < self.nodes.len()
    }

    /// Every edge joins two slots of the graph.
    pub open spec fn consistent(self) -> bool {
        forall|i: int|
            0 <= i < self.edges.len() ==> self.has_slot((#[trigger] self.edges[i]).0)
                && self.has_slot(self.edges[i].1)
    }

    /// The predicate "slot `i` holds package `name` at version `ver`".
    pub open spec fn holds(self, name: Seq<char>, ver: Seq<char>) -> spec_fn(int) -> bool {
        |i: int| self.has_slot(i) && self.nodes[i].is(name, ver)
    }

    /// The first slot that holds `name` at `ver`, if there is one.
    pub open spec fn find(self, name: Seq<char>, ver: Seq<char>) -> Option<int> {
        let i = least_from(self.holds(name, ver), 0, self.nodes.len() as int);
        if i < self.nodes.len() {
            Some(i)
        } else {
            None
        }
    }

    /// The slot at which `name` at `ver` is found, or will be appended.
    pub open spec fn slot_for(self, name: Seq<char>, ver: Seq<char>) -> int {
        least_from(self.holds(name, ver), 0, self.nodes.len() as int)
    }

    /// The graph once `name` at `ver` is known to it: unchanged where it is
    /// found, else with a new normal dependency in a new last slot.
    pub open spec fn with_dep(self, name: Seq<char>, ver: Seq<char>) -> GraphView {
        if self.find(name, ver) is Some {
            self
        } else {
            GraphView {
                nodes: self.nodes.push(DepView { name, ver, kind: DepKind::Normal }),
                ..self
            }
        }
    }

    /// The graph once `parent` depends on `name` at `ver`: the child is
    /// looked up or appended, and the edge to it is appended.
    pub open spec fn with_child(self, parent: int, name: Seq<char>, ver: Seq<char>) -> GraphView {
        let g = self.with_dep(name, ver);
        GraphView { edges: g.edges.push((parent, self.slot_for(name, ver))), ..g }
    }

    /// The graph without the node at slot `s`: the edges that touch `s` are
    /// gone, and every end above `s` is one less.
    pub open spec fn remove(self, s: int) -> GraphView {
        GraphView {
            nodes: self.nodes.remove(s),
            edges: self.edges.filter(not_touching(s)).map_values(shift_edge(s)),
            ..self
        }
    }

    /// The graph with the nodes at slots 0 and `r` exchanged, and the ends
    /// of every edge following them.
    pub open spec fn with_root(self, r: int) -> GraphView {
        GraphView {
            nodes: self.nodes.update(0, self.nodes[r]).update(r, self.nodes[0]),
            edges: self.edges.map_values(swap_edge(r)),
            ..self
        }
    }

    /// For each edge, the two nodes it joins: the relationships that the
    /// edges stand for, whatever the slots are called.
    pub open spec fn relations(self) -> Seq<(DepView, DepView)> {
        Seq::new(self.edges.len(), |i: int| (self.nodes[self.edges[i].0], self.nodes[self.edges[i].1]))
    }

    /// The graph without the edges that point outside its slots.
    pub open spec fn without_dangling(self) -> GraphView {
        GraphView { edges: self.edges.filter(within(self.nodes.len() as int)), ..self }
    }

    /// Slot `s` is in use: it is the root, or some edge ends at it.
    pub open spec fn used(self, s: int) -> bool {
        s == 0 || exists|i: int| 0 <= i < self.edges.len() && (#[trigger] self.edges[i]).1 == s
    }

    /// The predicate "slot `s` is not in use".
    pub open spec fn unused(self) -> spec_fn(int) -> bool {
        |s: int| !self.used(s)
    }

    /// The first slot that is not in use, or the number of nodes where every
    /// slot is in use.
    pub open spec fn first_orphan(self) -> int {
        least_from(self.unused(), 0, self.nodes.len() as int)
    }

    /// Every slot is in use.
    pub open spec fn no_orphans(self) -> bool {
        forall|s: int| self.has_slot(s) ==> self.used(s)
    }

    /// Every slot in `keep` is a slot of the graph, and is the root or the
    /// child of an edge whose parent is in `keep` too.
    pub open spec fn supports_itself(self, keep: Set<int>) -> bool {
        forall|s: int|
            keep.contains(s) ==> self.has_slot(s) && (s == 0 || exists|i: int|
                0 <= i < self.edges.len() && (#[trigger] self.edges[i]).1 == s && keep.contains(
                    self.edges[i].0,
                ))
    }

    /// The slots that pruning leaves: those that belong to some set of
    /// slots that supports itself.
    pub open spec fn survivors(self) -> Set<int> {
        Set::new(|s: int| exists|keep: Set<int>| self.supports_itself(keep) && keep.contains(s))
    }

    /// The slots that pruning removes: those of the graph that are no
    /// survivors.
    pub open spec fn doomed(self) -> Set<int> {
        Set::new(|s: int| self.has_slot(s) && !self.survivors().contains(s))
    }

    /// The graph after orphans were removed one at a time, the first unused
    /// slot each time, until every slot is in use. No edge ends at an unused
    /// slot, so the edges that go with it are those that start there.
    pub open spec fn pruned(self) -> GraphView
        decreases self.nodes.len(),
    {
        let s = self.first_orphan();
        if 0 <= s < self.nodes.len() {
            self.remove(s).pruned()
        } else {
            self
        }
    }

    /// The graph without the nodes at the slots in `gone`: the other nodes
    /// keep their order, the edges that touch a removed node are gone, and
    /// every end is renumbered to where its node now stands.
    pub open spec fn without(self, gone: Set<int>) -> GraphView {
        GraphView {
            nodes: slots(self.nodes.len() as int).filter(staying(gone)).map_values(
                node_at(self.nodes),
            ),
            edges: self.edges.filter(avoiding(gone)).map_values(close_up(gone)),
            ..self
        }
    }

    /// The slots whose package name `keep` does not accept.
    pub open spec fn unimportant(self, keep: spec_fn(Seq<char>) -> bool) -> Set<int> {
        Set::new(|s: int| self.has_slot(s) && !keep(self.nodes[s].name))
    }

    /// The graph without the nodes whose package name `keep` does not
    /// accept.
    pub open spec fn retained(self, keep: spec_fn(Seq<char>) -> bool) -> GraphView {
        self.without(self.unimportant(keep))
    }

    /// The graph with its edges in ascending order, each once.
    pub open spec fn deduped(self) -> GraphView {
        GraphView { edges: sorted_unique(self.edges), ..self }
    }

    /// The graph as it is rendered: duplicate edges collapsed, dangling
    /// edges dropped and orphans pruned, self-loops removed, and then,
    /// where a filter is given, only the nodes whose names it keeps.
    pub open spec fn finalized(self, keep: Option<spec_fn(Seq<char>) -> bool>) -> GraphView {
        let tidy = self.deduped().without_dangling().pruned().without_self_loops();
        match keep {
            Some(k) => tidy.retained(k),
            None => tidy,
        }
    }

    /// No edge points from a slot to itself.
    pub open spec fn no_self_loops(self) -> bool {
        forall|i: int| 0 <= i < self.edges.len() ==> (#[trigger] self.edges[i]).0 != self.edges[i].1
    }

    /// The graph without the edges that point from a slot to itself.
    pub open spec fn without_self_loops(self) -> GraphView {
        GraphView { edges: self.edges.filter(not_self_pointing()), ..self }
    }
}

} // verus!
