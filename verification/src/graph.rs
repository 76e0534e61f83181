use vstd::prelude::*;
use vstd::string::*;
use crate::config::Config;
use crate::dep::{DepKind, DepView, ResolvedDep};
use crate::importance::Importance;
use crate::laws::pruned_leaves_the_survivors;
use crate::lemmas::{
    lemma_least_from, lemma_least_from_is, lemma_remove_consistent,
    lemma_without_dangling_consistent, lemma_without_self_loops_consistent,
};
use crate::model::{
    close_up_slot, not_self_pointing, not_touching, shift_edge, slots, staying, swap_edge,
    within, GraphView,
};
use crate::order::{dedup_of, sort_dedup};
use crate::subgraph::{
    lemma_gone_below_none, lemma_staying_index, lemma_without_nothing, lemma_without_remove,
};
use crate::text::{edge_label, edge_text, push_decimal};

verus! {

/// A slot: the position of a node in the graph's node sequence.
pub type Nd = usize;

/// A directed edge from the parent slot to the child slot.
#[derive(Debug, PartialEq, Eq, PartialOrd, Ord, Copy, Clone, Structural)]
pub struct Ed(pub Nd, pub Nd);

impl View for Ed {
    type V = (int, int);

    open spec fn view(&self) -> (int, int) {
        (self.0 as int, self.1 as int)
    }
}

impl Ed {
    /// Appends the edge to `out`, written as `N<parent> -> N<child>`.
    pub fn fmt(&self, out: &mut String)
        ensures
            final(out)@ == old(out)@ + edge_text(self@),
    {
        let Ed(il, ir) = *self;
        out.append("N");
        push_decimal(out, il);
        out.append(" -> N");
        push_decimal(out, ir);
        assert(out@ =~= old(out)@ + edge_text(self@));
    }

    /// Appends the label of the edge to `out`, up to the end of its line.
    /// The fragment after the empty caption is chosen by the kinds of the
    /// two nodes that the edge joins in `dg`.
    pub fn label(&self, out: &mut String, dg: &DepGraph)
        requires
            dg@.has_slot(self@.0),
            dg@.has_slot(self@.1),
        ensures
            final(out)@ == old(out)@ + edge_label(
                dg@.cfg,
                dg@.nodes[self@.0].kind,
                dg@.nodes[self@.1].kind,
            ),
    {
        let parent = dg.nodes[self.0].kind();
        let child = dg.nodes[self.1].kind();
        out.append("[label=\"\"");
        match (parent, child) {
            (DepKind::Build, DepKind::Build) => out.append(dg.cfg.build_lines),
            (DepKind::Build, DepKind::Dev) => out.append(dg.cfg.dev_lines),
            (DepKind::Build, DepKind::Optional) => out.append(dg.cfg.optional_lines),
            (DepKind::Optional, DepKind::Build) => out.append(dg.cfg.optional_lines),
            (DepKind::Optional, DepKind::Dev) => out.append(dg.cfg.optional_lines),
            (DepKind::Optional, DepKind::Optional) => out.append(dg.cfg.optional_lines),
            (DepKind::Dev, DepKind::Build) => out.append(dg.cfg.dev_lines),
            (DepKind::Dev, DepKind::Dev) => out.append(dg.cfg.dev_lines),
            (DepKind::Dev, DepKind::Optional) => out.append(dg.cfg.optional_lines),
            _ => {},
        }
        out.append("];\n");
        assert(out@ =~= old(out)@ + edge_label(
            dg@.cfg,
            dg@.nodes[self@.0].kind,
            dg@.nodes[self@.1].kind,
        ));
    }
}

/// The nodes of a graph as the model sees them.
pub open spec fn node_views(nodes: Seq<ResolvedDep>) -> Seq<DepView> {
    nodes.map_values(|d: ResolvedDep| d@)
}

/// The edges of a graph as the model sees them.
pub open spec fn edge_views(edges: Seq<Ed>) -> Seq<(int, int)> {
    edges.map_values(|e: Ed| e@)
}

/// A test by which edges are kept or dropped.
enum Keep {
    /// Keeps the edges that neither start nor end at the slot.
    NotTouching(usize),
    /// Keeps the edges whose two ends are below the bound.
    Within(usize),
    /// Keeps the edges whose two ends differ.
    NotSelfPointing,
}

impl Keep {
    /// The test as a predicate on the model's edges.
    spec fn pred(self) -> spec_fn((int, int)) -> bool {
        match self {
            Keep::NotTouching(s) => not_touching(s as int),
            Keep::Within(n) => within(n as int),
            Keep::NotSelfPointing => not_self_pointing(),
        }
    }

    /// Whether the test keeps `e`.
    fn admits(&self, e: Ed) -> (r: bool)
        ensures
            r == self.pred()(e@),
    {
        match self {
            Keep::NotTouching(s) => e.0 != *s && e.1 != *s,
            Keep::Within(n) => e.0 < *n && e.1 < *n,
            Keep::NotSelfPointing => e.0 != e.1,
        }
    }
}

/// Whether slot `s` is the root or the child of one of the first `upto`
/// edges.
spec fn marked(edges: Seq<(int, int)>, upto: int, s: int) -> bool {
    s == 0 || exists|k: int| 0 <= k < upto && (#[trigger] edges[k]).1 == s
}

/// The filter as the model sees it: the predicate on names, if there is a
/// filter.
pub open spec fn keep_of(filter: Option<&Importance>) -> Option<spec_fn(Seq<char>) -> bool> {
    match filter {
        Some(f) => Some(f.keeps()),
        None => None,
    }
}

/// The slots from `from` on whose package name `keep` does not accept.
spec fn unimportant_from(g: GraphView, keep: spec_fn(Seq<char>) -> bool, from: int) -> Set<int> {
    Set::new(|s: int| from <= s && g.has_slot(s) && !keep(g.nodes[s].name))
}

/// A dependency graph: the nodes in slot order, the edges between slots,
/// and the configuration that the graph is rendered with.
#[derive(Debug)]
pub struct DepGraph<'c, 'o> where 'o: 'c {
    pub nodes: Vec<ResolvedDep>,
    pub edges: Vec<Ed>,
    pub cfg: &'c Config<'o>,
}

impl<'c, 'o> View for DepGraph<'c, 'o> {
    type V = GraphView;

    open spec fn view(&self) -> GraphView {
        GraphView {
            nodes: node_views(self.nodes@),
            edges: edge_views(self.edges@),
            cfg: self.cfg@,
        }
    }
}

impl<'c, 'o> DepGraph<'c, 'o> {
    /// An empty graph that will be rendered with `cfg`.
    pub fn new(cfg: &'c Config<'o>) -> (dg: Self)
        ensures
            dg@ == (GraphView { nodes: Seq::empty(), edges: Seq::empty(), cfg: cfg@ }),
    {
        let dg = DepGraph { nodes: Vec::new(), edges: Vec::new(), cfg };
        assert(dg@.nodes =~= Seq::empty());
        assert(dg@.edges =~= Seq::empty());
        dg
    }

    /// Records that the node at slot `parent` depends on `dep_name` at
    /// `dep_ver`, and returns the child's slot. The child is appended where
    /// the graph does not know it yet.
    pub fn add_child(&mut self, parent: usize, dep_name: &str, dep_ver: &str) -> (idr: usize)
        ensures
            final(self)@ == old(self)@.with_child(parent as int, dep_name@, dep_ver@),
            idr == old(self)@.slot_for(dep_name@, dep_ver@),
    {
        let idr: usize = self.find_or_add(dep_name, dep_ver);
        self.edges.push(Ed(parent, idr));
        assert(self@.edges =~= old(self)@.edges.push((parent as int, idr as int)));
        idr
    }

    /// The node at slot `id`, if there is one.
    pub fn get(&self, id: usize) -> (r: Option<&ResolvedDep>)
        ensures
            r is Some <==> self@.has_slot(id as int),
            r matches Some(d) ==> *d == self.nodes[id as int] && d@ == self@.nodes[id as int],
    {
        if id < self.nodes.len() {
            return Some(&self.nodes[id]);
        }
        None
    }

    /// Removes the node at slot `id` with every edge that touches it, and
    /// renumbers the slots above `id` in the edges that stay.
    pub fn remove(&mut self, id: usize)
        requires
            id < old(self).nodes.len(),
        ensures
            final(self)@ == old(self)@.remove(id as int),
    {
        self.nodes.remove(id);
        assert(self@.nodes =~= old(self)@.nodes.remove(id as int));
        self.retain_edges(Keep::NotTouching(id));
        self.shift_edges_after_node(id);
    }

    /// Drops the edges that `keep` does not admit; the others stay in
    /// their order.
    fn retain_edges(&mut self, keep: Keep)
        ensures
            final(self)@ == (GraphView {
                edges: old(self)@.edges.filter(keep.pred()),
                ..old(self)@
            }),
    {
        let mut kept: Vec<Ed> = Vec::new();
        let mut i: usize = 0;
        while i < self.edges.len()
            invariant
                i <= self.edges.len(),
                edge_views(kept@) == edge_views(self.edges@.take(i as int)).filter(keep.pred()),
            decreases self.edges.len() - i,
        {
            let e = self.edges[i];
            proof {
                let seen = self.edges@.take(i as int);
                assert(self.edges@.take(i + 1) =~= seen.push(e));
                assert(edge_views(seen.push(e)) =~= edge_views(seen).push(e@));
                edge_views(seen).lemma_filter_push(e@, keep.pred());
            }
            if keep.admits(e) {
                kept.push(e);
                assert(edge_views(kept@) =~= edge_views(kept@.drop_last()).push(e@));
            }
            i += 1;
        }
        assert(self.edges@.take(i as int) =~= self.edges@);
        self.edges = kept;
    }

    /// Renumbers the edges after the node at slot `id` has gone: every end
    /// above `id` becomes one less.
    fn shift_edges_after_node(&mut self, id: usize)
        ensures
            final(self)@ == (GraphView {
                edges: old(self)@.edges.map_values(shift_edge(id as int)),
                ..old(self)@
            }),
    {
        let mut i: usize = 0;
        while i < self.edges.len()
            invariant
                i <= self.edges.len(),
                self.edges.len() == old(self).edges.len(),
                self.nodes == old(self).nodes,
                self.cfg == old(self).cfg,
                forall|k: int|
                    0 <= k < i ==> (#[trigger] self.edges[k])@ == shift_edge(id as int)(
                        old(self).edges[k]@,
                    ),
                forall|k: int| i <= k < self.edges.len() ==> self.edges[k] == old(self).edges[k],
            decreases self.edges.len() - i,
        {
            let Ed(idl, idr) = self.edges[i];
            let l: usize = if idl > id { idl - 1 } else { idl };
            let r: usize = if idr > id { idr - 1 } else { idr };
            self.edges.set(i, Ed(l, r));
            i += 1;
        }
        assert(self@.edges =~= old(self)@.edges.map_values(shift_edge(id as int)));
    }

    /// Drops the edges that point outside the graph, then removes unused
    /// nodes one at a time, the first unused slot each time, until every
    /// node is the root or the child of some edge. What is left are the
    /// survivors: the largest set of nodes in which every node is the root
    /// or has a parent in the set.
    pub fn remove_orphans(&mut self)
        ensures
            final(self)@ == old(self)@.without_dangling().pruned(),
            final(self)@ == old(self)@.without_dangling().without(
                old(self)@.without_dangling().doomed(),
            ),
            final(self)@.consistent(),
            final(self)@.no_orphans(),
    {
        let len: usize = self.nodes.len();
        self.retain_edges(Keep::Within(len));
        proof {
            lemma_without_dangling_consistent(old(self)@);
            pruned_leaves_the_survivors(old(self)@.without_dangling());
        }
        loop
            invariant
                self@.consistent(),
                self@.pruned() == old(self)@.without_dangling().pruned(),
            ensures
                self@ == old(self)@.without_dangling().pruned(),
                self@.consistent(),
                self@.no_orphans(),
            decreases self@.nodes.len(),
        {
            match self.first_unused() {
                Some(id) => {
                    proof {
                        lemma_remove_consistent(self@, id as int);
                    }
                    self.remove(id);
                },
                None => {
                    proof {
                        let g = self@;
                        lemma_least_from(g.unused(), 0, g.nodes.len() as int);
                        assert forall|s: int| g.has_slot(s) implies g.used(s) by {
                            assert(!g.unused()(s));
                        }
                    }
                    break ;
                },
            }
        }
    }

    /// Marks the root and the child of every edge as used, and returns the
    /// first slot that is left unused.
    fn first_unused(&self) -> (r: Option<usize>)
        requires
            self@.consistent(),
        ensures
            r matches Some(id) ==> id < self.nodes.len() && id == self@.first_orphan(),
            r is None ==> self@.first_orphan() == self.nodes.len(),
    {
        let n: usize = self.nodes.len();
        if n == 0 {
            return None;
        }
        let ghost ev = self@.edges;
        let mut used: Vec<bool> = vec![false; n];
        used.set(0, true);
        let mut i: usize = 0;
        while i < self.edges.len()
            invariant
                i <= self.edges.len(),
                n == self.nodes.len(),
                ev == self@.edges,
                self@.consistent(),
                used.len() == n,
                forall|s: int| 0 <= s < n ==> (#[trigger] used[s] <==> marked(ev, i as int, s)),
            decreases self.edges.len() - i,
        {
            let idr: usize = self.edges[i].1;
            assert(ev[i as int] == self.edges[i as int]@);
            assert(self@.has_slot(ev[i as int].1));
            let ghost before = used@;
            used.set(idr, true);
            assert forall|s: int| 0 <= s < n implies (#[trigger] used[s] <==> marked(
                ev,
                i + 1,
                s,
            )) by {
                assert(before[s] <==> marked(ev, i as int, s));
                if marked(ev, i + 1, s) && s != 0 {
                    let k = choose|k: int| 0 <= k < i + 1 && (#[trigger] ev[k]).1 == s;
                    if k < i {
                        assert(marked(ev, i as int, s));
                    }
                }
            }
            i += 1;
        }
        let ghost p = self@.unused();
        assert forall|s: int| 0 <= s < n implies (#[trigger] used[s] <==> !p(s)) by {
            assert(used[s] <==> marked(ev, self.edges.len() as int, s));
        }
        let mut id: usize = 0;
        while id < n
            invariant
                id <= n,
                n == self.nodes.len(),
                used.len() == n,
                p == self@.unused(),
                forall|s: int| 0 <= s < n ==> (#[trigger] used[s] <==> !p(s)),
                forall|s: int| 0 <= s < id ==> !#[trigger] p(s),
            decreases n - id,
        {
            if !used[id] {
                proof {
                    lemma_least_from_is(p, 0, n as int, id as int);
                }
                return Some(id);
            }
            assert(!p(id as int));
            id += 1;
        }
        proof {
            lemma_least_from_is(p, 0, n as int, n as int);
        }
        None
    }

    /// Removes every edge that points from a slot to itself.
    pub fn remove_self_pointing(&mut self)
        ensures
            final(self)@ == old(self)@.without_self_loops(),
    {
        self.retain_edges(Keep::NotSelfPointing);
    }

    /// Makes the node that holds `name` at version `ver` the root: it
    /// changes places with the node at slot 0, and the edges follow.
    /// Returns `false`, and changes nothing, where no node holds them.
    pub fn set_root(&mut self, name: &str, ver: &str) -> (ok: bool)
        ensures
            ok == old(self)@.find(name@, ver@) is Some,
            ok ==> final(self)@ == old(self)@.with_root(old(self)@.find(name@, ver@)->0),
            !ok ==> final(self)@ == old(self)@,
    {
        let root_id: usize = if let Some(i) = self.find(name, ver) {
            i
        } else {
            return false;
        };
        if root_id == 0 {
            assert(self@.nodes =~= old(self)@.with_root(0).nodes);
            assert(self@.edges =~= old(self)@.with_root(0).edges);
            return true;
        }
        let found = self.nodes.remove(root_id);
        let first = self.nodes.remove(0);
        self.nodes.insert(0, found);
        self.nodes.insert(root_id, first);
        assert(self@.nodes =~= old(self)@.with_root(root_id as int).nodes);

        let mut i: usize = 0;
        while i < self.edges.len()
            invariant
                i <= self.edges.len(),
                self.edges.len() == old(self).edges.len(),
                self@.nodes == old(self)@.with_root(root_id as int).nodes,
                self.cfg == old(self).cfg,
                forall|k: int|
                    0 <= k < i ==> (#[trigger] self.edges[k])@ == swap_edge(root_id as int)(
                        old(self).edges[k]@,
                    ),
                forall|k: int| i <= k < self.edges.len() ==> self.edges[k] == old(self).edges[k],
            decreases self.edges.len() - i,
        {
            let Ed(idl, idr) = self.edges[i];
            let l: usize = if idl == 0 { root_id } else if idl == root_id { 0 } else { idl };
            let r: usize = if idr == 0 { root_id } else if idr == root_id { 0 } else { idr };
            self.edges.set(i, Ed(l, r));
            i += 1;
        }
        assert(self@.edges =~= old(self)@.with_root(root_id as int).edges);
        true
    }

    /// Sorts the edges by parent and child, and drops every edge that
    /// repeats an earlier one.
    pub fn dedup_edges(&mut self)
        ensures
            final(self)@ == old(self)@.deduped(),
            final(self)@.nodes == old(self)@.nodes,
            dedup_of(final(self)@.edges, old(self)@.edges),
    {
        self.edges = sort_dedup(&self.edges);
    }

    /// Removes every node whose name `filter` does not keep, with the
    /// edges that touch it, one node at a time from the highest slot down.
    pub fn retain_important(&mut self, filter: &Importance)
        ensures
            final(self)@ == old(self)@.retained(filter.keeps()),
            old(self)@.consistent() ==> final(self)@.consistent(),
    {
        let ghost g0 = self@;
        let ghost keep = filter.keeps();
        let ghost n = self.nodes.len() as int;
        let mut i: usize = self.nodes.len();
        proof {
            lemma_without_nothing(g0);
            assert(unimportant_from(g0, keep, n) =~= Set::empty());
        }
        while i > 0
            invariant
                i <= n,
                n == g0.nodes.len(),
                keep == filter.keeps(),
                self@ == g0.without(unimportant_from(g0, keep, i as int)),
                g0.consistent() ==> self@.consistent(),
            decreases i,
        {
            i -= 1;
            let ghost gone = unimportant_from(g0, keep, i + 1);
            proof {
                lemma_gone_below_none(gone, i as int);
                lemma_staying_index(gone, n, i as int);
                assert(close_up_slot(gone, i as int) == i);
                assert(self@.nodes.len() == slots(n).filter(staying(gone)).len());
                assert(self@.nodes.len() == self.nodes.len());
                assert(self@.nodes[i as int] == g0.nodes[i as int]);
                assert(self@.nodes[i as int] == self.nodes[i as int]@);
            }
            if !filter.is_important(self.nodes[i].name.as_str()) {
                proof {
                    lemma_without_remove(g0, gone, i as int);
                    assert(gone.insert(i as int) =~= unimportant_from(g0, keep, i as int));
                    if g0.consistent() {
                        lemma_remove_consistent(self@, i as int);
                    }
                }
                self.remove(i);
            } else {
                assert(gone =~= unimportant_from(g0, keep, i as int));
            }
        }
        assert(unimportant_from(g0, keep, 0) =~= g0.unimportant(keep));
    }

    /// Makes the graph ready to be rendered: collapses duplicate edges,
    /// prunes orphans, removes self-loops and, where a filter is given,
    /// removes the nodes that it does not keep.
    pub fn finalize(&mut self, filter: Option<&Importance>)
        ensures
            final(self)@ == old(self)@.finalized(keep_of(filter)),
            final(self)@.consistent(),
    {
        self.dedup_edges();
        self.remove_orphans();
        proof {
            lemma_without_self_loops_consistent(self@);
        }
        self.remove_self_pointing();
        if let Some(f) = filter {
            self.retain_important(f);
        }
    }

    /// Appends the graph to `output` as a `digraph`: a line for each node
    /// in slot order, then a line for each edge.
    pub fn emit(&self, output: &mut String)
        requires
            self@.consistent(),
        ensures
            final(output)@ == old(output)@ + self@.text(),
    {
        let ghost g = self@;
        let ghost start = output@;
        output.append("digraph dependencies {\n");
        let ghost head = output@;
        let mut i: usize = 0;
        while i < self.nodes.len()
            invariant
                i <= self.nodes.len(),
                g == self@,
                output@ == head + g.node_lines(i as int),
            decreases self.nodes.len() - i,
        {
            let ghost before = output@;
            output.append("\tN");
            push_decimal(output, i);
            self.nodes[i].label(output);
            assert(self.nodes[i as int]@ == g.nodes[i as int]);
            assert(output@ =~= before + g.node_line(i as int));
            assert(output@ =~= head + g.node_lines(i + 1));
            i += 1;
        }
        let ghost mid = output@;
        let mut k: usize = 0;
        while k < self.edges.len()
            invariant
                k <= self.edges.len(),
                g == self@,
                g.consistent(),
                output@ == mid + g.edge_lines(k as int),
            decreases self.edges.len() - k,
        {
            let ghost before = output@;
            let ed = self.edges[k];
            assert(g.edges[k as int] == ed@);
            assert(g.has_slot(g.edges[k as int].0));
            output.append("\t");
            ed.fmt(output);
            ed.label(output, self);
            assert(output@ =~= before + g.edge_line(k as int));
            assert(output@ =~= mid + g.edge_lines(k + 1));
            k += 1;
        }
        output.append("}\n");
        assert(output@ =~= start + g.text());
    }

    /// Finalizes the graph and appends it to `output` as a `digraph`. With
    /// `filter` the nodes that it does not keep are left out.
    pub fn render_to(self, output: &mut String, filter: Option<&Importance>)
        ensures
            final(output)@ == old(output)@ + self@.finalized(keep_of(filter)).text(),
    {
        let mut dg = self;
        dg.finalize(filter);
        dg.emit(output);
    }

    /// The first slot that holds `name` at version `ver`, if there is one.
    pub fn find(&self, name: &str, ver: &str) -> (r: Option<usize>)
        ensures
            r is Some <==> self@.find(name@, ver@) is Some,
            r matches Some(i) ==> self@.find(name@, ver@) == Some(i as int),
            r matches Some(i) ==> self@.has_slot(i as int) && self@.nodes[i as int].is(name@, ver@)
                && forall|j: int| 0 <= j < i ==> !(#[trigger] self@.nodes[j]).is(name@, ver@),
            r is None ==> forall|j: int|
                0 <= j < self.nodes.len() ==> !(#[trigger] self@.nodes[j]).is(name@, ver@),
    {
        let n = name.to_owned();
        let v = ver.to_owned();
        let ghost p = self@.holds(name@, ver@);
        let mut i: usize = 0;
        while i < self.nodes.len()
            invariant
                i <= self.nodes.len(),
                n@ == name@,
                v@ == ver@,
                p == self@.holds(name@, ver@),
                forall|j: int| 0 <= j < i ==> !(#[trigger] self@.nodes[j]).is(name@, ver@),
            decreases self.nodes.len() - i,
        {
            if self.nodes[i].is(&n, &v) {
                proof {
                    assert forall|j: int| 0 <= j < i implies !#[trigger] p(j) by {
                        assert(!self@.nodes[j].is(name@, ver@));
                    }
                    lemma_least_from_is(p, 0, self.nodes.len() as int, i as int);
                }
                return Some(i);
            }
            i += 1;
        }
        proof {
            assert forall|j: int| 0 <= j < i implies !#[trigger] p(j) by {
                assert(!self@.nodes[j].is(name@, ver@));
            }
            lemma_least_from_is(p, 0, self.nodes.len() as int, self.nodes.len() as int);
        }
        None
    }

    /// The slot that holds `name` at version `ver`. Where no slot does, a
    /// normal dependency is appended and its new slot returned.
    pub fn find_or_add(&mut self, name: &str, ver: &str) -> (id: usize)
        ensures
            final(self)@ == old(self)@.with_dep(name@, ver@),
            id == old(self)@.slot_for(name@, ver@),
            final(self)@.find(name@, ver@) == Some(id as int),
    {
        if let Some(i) = self.find(name, ver) {
            return i;
        }
        self.nodes.push(ResolvedDep::new(name.to_owned(), ver.to_owned()));
        proof {
            let last = old(self).nodes.len() as int;
            assert(self@.nodes =~= old(self)@.nodes.push(self@.nodes[last]));
            lemma_least_from(old(self)@.holds(name@, ver@), 0, last);
            lemma_least_from_is(self@.holds(name@, ver@), 0, last + 1, last);
        }
        self.nodes.len() - 1
    }
}

} // verus!
