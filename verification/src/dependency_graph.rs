//! An arena-based directed dependency graph over stable integer handles,
//! with a depth-first, cycle-detecting topological ordering.
//!
//! Nodes are appended to an arena and never removed; each node keeps the
//! index of its most recently inserted outgoing edge, and every edge keeps
//! the index of the edge inserted before it, forming a singly-linked
//! adjacency list per node (most recently added edge first).
use vstd::prelude::*;

verus! {

broadcast use vstd::seq_lib::group_seq_lib_default, vstd::set_lib::group_set_lib_default, vstd::set::group_set_axioms;

pub type NodeIndex = usize;

pub(crate) struct EdgeData {
    pub(crate) target: usize,
    pub(crate) next_outgoing_edge: Option<usize>,
}

/// A directed graph over opaque payloads; handles are dense indices,
/// assigned in insertion order and never invalidated.
pub struct DependencyGraph<T> {
    pub(crate) nodes: Vec<T>,
    pub(crate) firsts: Vec<Option<usize>>,
    pub(crate) edges: Vec<EdgeData>,
}

/// Rank of an edge-list cursor: one past the edge index, zero for the end.
pub(crate) open spec fn edge_rank(e: Option<usize>) -> nat {
    match e {
        None => 0nat,
        Some(k) => k as nat + 1,
    }
}

/// Every edge only links to an edge inserted strictly before it, so each
/// adjacency chain is finite.
pub(crate) open spec fn edges_linked(edges: Seq<EdgeData>) -> bool {
    forall|k: int|
        0 <= k < edges.len() ==> edge_rank((#[trigger] edges[k]).next_outgoing_edge) <= k
}

/// The sequence of targets reachable from cursor `e` along the chain,
/// most recently inserted edge first.
pub(crate) open spec fn adj_from(edges: Seq<EdgeData>, e: Option<usize>) -> Seq<usize>
    decreases edge_rank(e),
    when edges_linked(edges) && edge_rank(e) <= edges.len()
{
    match e {
        None => Seq::empty(),
        Some(k) => seq![edges[k as int].target].add(
            adj_from(edges, edges[k as int].next_outgoing_edge),
        ),
    }
}

/// Appending a fresh edge does not change chains that start at older edges.
pub(crate) proof fn lemma_adj_from_push(edges: Seq<EdgeData>, x: EdgeData, e: Option<usize>)
    requires
        edges_linked(edges),
        edge_rank(e) <= edges.len(),
        edge_rank(x.next_outgoing_edge) <= edges.len(),
    ensures
        adj_from(edges.push(x), e) == adj_from(edges, e),
    decreases edge_rank(e),
{
    assert(edges_linked(edges.push(x)));
    match e {
        None => {
            assert(adj_from(edges.push(x), e) =~= adj_from(edges, e));
        },
        Some(k) => {
            lemma_adj_from_push(edges, x, edges[k as int].next_outgoing_edge);
            assert(edges.push(x)[k as int] == edges[k as int]);
        },
    }
}

/// Every target on an adjacency chain is a valid node handle.
pub(crate) proof fn lemma_adj_from_targets(edges: Seq<EdgeData>, e: Option<usize>, n: nat)
    requires
        edges_linked(edges),
        edge_rank(e) <= edges.len(),
        forall|k: int| 0 <= k < edges.len() ==> (#[trigger] edges[k]).target < n,
    ensures
        forall|j: int|
            0 <= j < adj_from(edges, e).len() ==> (#[trigger] adj_from(edges, e)[j]) < n,
    decreases edge_rank(e),
{
    match e {
        None => {},
        Some(k) => {
            let rest = adj_from(edges, edges[k as int].next_outgoing_edge);
            lemma_adj_from_targets(edges, edges[k as int].next_outgoing_edge, n);
            assert forall|j: int| 0 <= j < adj_from(edges, e).len() implies (#[trigger] adj_from(
                edges,
                e,
            )[j]) < n by {
                if j == 0 {
                    assert(adj_from(edges, e)[0] == edges[k as int].target);
                } else {
                    assert(adj_from(edges, e)[j] == rest[j - 1]);
                }
            }
        },
    }
}

impl<T> DependencyGraph<T> {
    /// Number of nodes inserted so far; handles are exactly `0 .. node_count()`.
    pub closed spec fn node_count(self) -> nat {
        self.nodes@.len()
    }

    /// Number of edges inserted so far.
    pub closed spec fn edge_count(self) -> nat {
        self.edges@.len()
    }

    /// The payloads in handle order.
    pub closed spec fn payloads(self) -> Seq<T> {
        self.nodes@
    }

    /// There is one payload per handle.
    pub proof fn lemma_payloads_len(self)
        ensures
            self.payloads().len() == self.node_count(),
    {
    }

    /// Internal well-formedness: the adjacency arena is consistent.
    pub closed spec fn wf(self) -> bool {
        &&& self.firsts@.len() == self.nodes@.len()
        &&& edges_linked(self.edges@)
        &&& forall|k: int|
            0 <= k < self.edges@.len() ==> (#[trigger] self.edges@[k]).target < self.nodes@.len()
        &&& forall|i: int|
            0 <= i < self.firsts@.len() ==> edge_rank(#[trigger] self.firsts@[i])
                <= self.edges@.len()
    }

    /// The immediate dependency targets of `u`, most recently added first.
    pub closed spec fn deps_of(self, u: usize) -> Seq<usize> {
        adj_from(self.edges@, self.firsts@[u as int])
    }

    pub open spec fn valid_handle(self, u: usize) -> bool {
        u < self.node_count()
    }

    pub open spec fn has_edge(self, u: usize, v: usize) -> bool {
        self.valid_handle(u) && self.deps_of(u).contains(v)
    }

    /// All dependency targets of a valid handle are valid handles.
    pub proof fn lemma_deps_valid(self, u: usize)
        requires
            self.wf(),
            self.valid_handle(u),
        ensures
            forall|j: int|
                0 <= j < self.deps_of(u).len() ==> (#[trigger] self.deps_of(u)[j])
                    < self.node_count(),
    {
        lemma_adj_from_targets(self.edges@, self.firsts@[u as int], self.node_count());
    }

    pub fn new() -> (r: Self)
        ensures
            r.wf(),
            r.node_count() == 0,
            r.edge_count() == 0,
    {
        DependencyGraph { nodes: Vec::new(), firsts: Vec::new(), edges: Vec::new() }
    }

    /// Appends a node; never fails; the fresh handle equals the previous
    /// node count, and no adjacency list changes.
    pub fn add_node(&mut self, data: T) -> (r: NodeIndex)
        requires
            old(self).wf(),
        ensures
            final(self).wf(),
            r == old(self).node_count(),
            final(self).node_count() == old(self).node_count() + 1,
            final(self).edge_count() == old(self).edge_count(),
            final(self).payloads() == old(self).payloads().push(data),
            final(self).deps_of(r) == Seq::<usize>::empty(),
            forall|u: usize|
                u < old(self).node_count() ==> final(self).deps_of(u) == old(self).deps_of(u),
    {
        let index = self.nodes.len();
        self.nodes.push(data);
        self.firsts.push(None);
        index
    }

    /// Returns the payload behind a handle, or `None` when the handle is out
    /// of range; never panics.
    pub fn get(&self, index: NodeIndex) -> (r: Option<&T>)
        ensures
            index < self.node_count() ==> r == Some(&self.payloads()[index as int]),
            index >= self.node_count() ==> r is None,
    {
        if index < self.nodes.len() {
            Some(&self.nodes[index])
        } else {
            None
        }
    }

    /// Appends the edge `source -> target` at the front of `source`'s
    /// adjacency list when both handles are valid, and reports
    /// `InvalidHandle` (leaving the graph unchanged) otherwise.
    pub fn add_dependency(&mut self, source: NodeIndex, target: NodeIndex) -> (r: Result<
        (),
        GraphError,
    >)
        requires
            old(self).wf(),
        ensures
            final(self).wf(),
            final(self).node_count() == old(self).node_count(),
            final(self).payloads() == old(self).payloads(),
            source < old(self).node_count() && target < old(self).node_count() ==> {
                &&& r is Ok
                &&& final(self).edge_count() == old(self).edge_count() + 1
                &&& final(self).deps_of(source) == seq![target].add(old(self).deps_of(source))
                &&& forall|u: usize|
                    u < old(self).node_count() && u != source ==> final(self).deps_of(u) == old(
                        self,
                    ).deps_of(u)
            },
            !(source < old(self).node_count() && target < old(self).node_count()) ==> {
                &&& r == Err::<(), GraphError>(GraphError::InvalidHandle)
                &&& *final(self) == *old(self)
            },
    {
        if source >= self.nodes.len() || target >= self.nodes.len() {
            return Err(GraphError::InvalidHandle);
        }
        let index = self.edges.len();
        let first = self.firsts[source];
        self.edges.push(EdgeData { target, next_outgoing_edge: first });
        self.firsts[source] = Some(index);
        proof {
            let old_edges = old(self).edges@;
            let x = EdgeData { target, next_outgoing_edge: old(self).firsts@[source as int] };
            assert forall|u: usize| u < old(self).node_count() && u != source implies self.deps_of(
                u,
            ) == old(self).deps_of(u) by {
                lemma_adj_from_push(old_edges, x, old(self).firsts@[u as int]);
            }
            lemma_adj_from_push(old_edges, x, old(self).firsts@[source as int]);
        }
        Ok(())
    }

    /// A restartable cursor over the immediate dependencies of `index`,
    /// most recently added edge first.
    pub fn dependencies<'a>(&'a self, index: NodeIndex) -> (r: Dependencies<'a, T>)
        requires
            self.wf(),
            self.valid_handle(index),
        ensures
            r.wf(),
            r.the_graph() == *self,
            r.remaining() == self.deps_of(index),
    {
        Dependencies { graph: self, current_edge_index: self.firsts[index] }
    }

    /// The immediate dependencies of `index`, collected into a vector in
    /// iteration order.
    pub fn dependency_vec(&self, index: NodeIndex) -> (v: Vec<NodeIndex>)
        requires
            self.wf(),
            self.valid_handle(index),
        ensures
            v@ == self.deps_of(index),
    {
        let mut v: Vec<usize> = Vec::new();
        let mut current: Option<usize> = self.firsts[index];
        proof {
            assert(v@ + adj_from(self.edges@, current) =~= self.deps_of(index));
        }
        loop
            invariant
                self.wf(),
                edge_rank(current) <= self.edges@.len(),
                v@ + adj_from(self.edges@, current) == self.deps_of(index),
            ensures
                current is None,
                v@ + adj_from(self.edges@, current) == self.deps_of(index),
            decreases edge_rank(current),
        {
            match current {
                None => {
                    break ;
                },
                Some(k) => {
                    proof {
                        let t = self.edges@[k as int].target;
                        let rest = adj_from(self.edges@, self.edges@[k as int].next_outgoing_edge);
                        assert(v@.push(t) + rest =~= v@ + (seq![t] + rest));
                    }
                    v.push(self.edges[k].target);
                    current = self.edges[k].next_outgoing_edge;
                },
            }
        }
        proof {
            assert(current is None);
            assert(adj_from(self.edges@, current) =~= Seq::<usize>::empty());
            assert(v@ + Seq::<usize>::empty() =~= v@);
        }
        v
    }
}

/// Misuse of the graph API: a handle that does not name a node.
#[derive(Debug, PartialEq, Eq, Structural)]
pub enum GraphError {
    InvalidHandle,
}

/// Cursor over the outgoing edges of one node.
pub struct Dependencies<'graph, T> {
    pub(crate) graph: &'graph DependencyGraph<T>,
    pub(crate) current_edge_index: Option<usize>,
}

impl<'graph, T> Dependencies<'graph, T> {
    pub closed spec fn wf(self) -> bool {
        &&& self.graph.wf()
        &&& edge_rank(self.current_edge_index) <= self.graph.edges@.len()
    }

    /// The graph this cursor walks.
    pub closed spec fn the_graph(self) -> DependencyGraph<T> {
        *self.graph
    }

    /// The targets this cursor has yet to produce.
    pub closed spec fn remaining(self) -> Seq<usize> {
        adj_from(self.graph.edges@, self.current_edge_index)
    }

    /// Produces the next dependency target, or `None` at the end of the
    /// adjacency list.
    pub fn next(&mut self) -> (r: Option<NodeIndex>)
        requires
            old(self).wf(),
        ensures
            final(self).wf(),
            final(self).the_graph() == old(self).the_graph(),
            match r {
                None => old(self).remaining().len() == 0 && final(self).remaining() == old(
                    self,
                ).remaining(),
                Some(v) => {
                    &&& old(self).remaining().len() > 0
                    &&& v == old(self).remaining()[0]
                    &&& final(self).remaining() == old(self).remaining().drop_first()
                    &&& v < final(self).the_graph().node_count()
                },
            },
    {
        match self.current_edge_index {
            None => None,
            Some(index) => {
                let edge = &self.graph.edges[index];
                self.current_edge_index = edge.next_outgoing_edge;
                Some(edge.target)
            },
        }
    }
}

// ---------------------------------------------------------------------------
// Topological ordering
// ---------------------------------------------------------------------------

use vstd::set_lib::set_int_range;
use vstd::set_lib::lemma_int_range;
use vstd::set_lib::lemma_len_subset;

/// Failure of the ordering: the graph admits no topological order.
#[derive(Debug, PartialEq, Eq, Structural)]
pub enum TopologicalError {
    ContainsCycle,
}

/// The set of valid node handles, as mathematical integers.
pub(crate) open spec fn node_range<T>(g: DependencyGraph<T>) -> Set<int> {
    set_int_range(0, g.node_count() as int)
}

/// The indices at which a mark vector is set.
pub(crate) open spec fn trues(s: Seq<bool>) -> Set<int> {
    Set::new(|i: int| 0 <= i < s.len() && s[i])
}

pub(crate) proof fn lemma_trues_bounds(s: Seq<bool>)
    ensures
        trues(s).subset_of(set_int_range(0, s.len() as int)),
        trues(s).finite(),
        trues(s).len() <= s.len(),
{
    lemma_int_range(0, s.len() as int);
    lemma_len_subset(trues(s), set_int_range(0, s.len() as int));
}

/// A sequence of handles, as a set of mathematical integers.
pub(crate) open spec fn int_set_of(s: Seq<usize>) -> Set<int> {
    s.map_values(|y: usize| y as int).to_set()
}

pub(crate) proof fn lemma_int_set_contains(s: Seq<usize>, x: usize)
    ensures
        int_set_of(s).contains(x as int) <==> s.contains(x),
{
    let m = s.map_values(|y: usize| y as int);
    if s.contains(x) {
        let j = choose|j: int| 0 <= j < s.len() && s[j] == x;
        assert(m[j] == x as int);
        assert(m.contains(x as int));
    }
    if m.contains(x as int) {
        let j = choose|j: int| 0 <= j < m.len() && m[j] == x as int;
        assert(s[j] == x);
    }
}

pub(crate) proof fn lemma_int_set_push(s: Seq<usize>, x: usize)
    ensures
        int_set_of(s.push(x)) == int_set_of(s).insert(x as int),
{
    let m = s.push(x).map_values(|y: usize| y as int);
    let m0 = s.map_values(|y: usize| y as int);
    assert(m =~= m0.push(x as int));
    assert forall|a: int| int_set_of(s.push(x)).contains(a) implies int_set_of(s).insert(
        x as int,
    ).contains(a) by {
        let j = choose|j: int| 0 <= j < m.len() && m[j] == a;
        if j < m0.len() {
            assert(m0[j] == a);
            assert(m0.contains(a));
        }
    }
    assert forall|a: int| int_set_of(s).insert(x as int).contains(a) implies int_set_of(
        s.push(x),
    ).contains(a) by {
        if a == x as int {
            assert(m[s.len() as int] == a);
            assert(m.contains(a));
        } else {
            let j = choose|j: int| 0 <= j < m0.len() && m0[j] == a;
            assert(m[j] == a);
            assert(m.contains(a));
        }
    }
    assert(int_set_of(s.push(x)) =~= int_set_of(s).insert(x as int));
}

/// One node of the depth-first search: skip it when fully processed, report
/// a cycle when it is on the current recursion path, and otherwise process
/// its dependencies and then emit it.  `None` means a cycle was found.
pub(crate) open spec fn visit_node_spec<T>(
    g: DependencyGraph<T>,
    u: int,
    visiting: Set<int>,
    visited: Set<int>,
    ordered: Seq<usize>,
) -> Option<(Set<int>, Seq<usize>)>
    decreases g.node_count() - visiting.len(), 0int, 0int,
    when g.wf() && visiting.finite() && visiting.subset_of(node_range(g)) && 0 <= u
        < g.node_count()
    via visit_node_spec_decreases::<T>
{
    if visited.contains(u) {
        Some((visited, ordered))
    } else if visiting.contains(u) {
        None
    } else {
        match visit_deps_spec(
            g,
            g.deps_of(u as usize),
            visiting.insert(u),
            visited,
            ordered,
        ) {
            None => None,
            Some((vd, ord)) => Some((vd.insert(u), ord.push(u as usize))),
        }
    }
}

#[via_fn]
proof fn visit_node_spec_decreases<T>(
    g: DependencyGraph<T>,
    u: int,
    visiting: Set<int>,
    visited: Set<int>,
    ordered: Seq<usize>,
) {
    lemma_int_range(0, g.node_count() as int);
    lemma_len_subset(visiting, node_range(g));
    if !visited.contains(u) && !visiting.contains(u) {
        g.lemma_deps_valid(u as usize);
        assert(visiting.insert(u).len() == visiting.len() + 1);
        lemma_len_subset(visiting.insert(u), node_range(g));
    }
}

/// The dependency loop of the search: process each target in order,
/// threading the visited set and the output through.
pub(crate) open spec fn visit_deps_spec<T>(
    g: DependencyGraph<T>,
    deps: Seq<usize>,
    visiting: Set<int>,
    visited: Set<int>,
    ordered: Seq<usize>,
) -> Option<(Set<int>, Seq<usize>)>
    decreases g.node_count() - visiting.len(), 1int, deps.len(),
    when g.wf() && visiting.finite() && visiting.subset_of(node_range(g)) && (forall|j: int|
        0 <= j < deps.len() ==> (#[trigger] deps[j]) < g.node_count())
    via visit_deps_spec_decreases::<T>
{
    if deps.len() == 0 {
        Some((visited, ordered))
    } else {
        match visit_node_spec(g, deps[0] as int, visiting, visited, ordered) {
            None => None,
            Some((vd, ord)) => visit_deps_spec(g, deps.drop_first(), visiting, vd, ord),
        }
    }
}

#[via_fn]
proof fn visit_deps_spec_decreases<T>(
    g: DependencyGraph<T>,
    deps: Seq<usize>,
    visiting: Set<int>,
    visited: Set<int>,
    ordered: Seq<usize>,
) {
    lemma_int_range(0, g.node_count() as int);
    lemma_len_subset(visiting, node_range(g));
    if deps.len() > 0 {
        assert(forall|j: int|
            0 <= j < deps.drop_first().len() ==> (#[trigger] deps.drop_first()[j]) < g.node_count());
    }
}

/// The whole search: take every handle in ascending order as a root.
pub(crate) open spec fn topo_from_spec<T>(
    g: DependencyGraph<T>,
    i: int,
    visited: Set<int>,
    ordered: Seq<usize>,
) -> Option<Seq<usize>>
    decreases g.node_count() - i,
    when g.wf() && 0 <= i
{
    if i >= g.node_count() {
        Some(ordered)
    } else {
        match visit_node_spec(g, i, Set::empty(), visited, ordered) {
            None => None,
            Some((vd, ord)) => topo_from_spec(g, i + 1, vd, ord),
        }
    }
}

/// The one topological ordering this library produces for a graph, or
/// `None` when the graph contains a cycle.  `topological` computes exactly
/// this value, so repeated calls on one graph agree.
pub closed spec fn topological_spec<T>(g: DependencyGraph<T>) -> Option<Seq<usize>> {
    topo_from_spec(g, 0, Set::empty(), Seq::empty())
}

fn false_vec(n: usize) -> (v: Vec<bool>)
    ensures
        v@.len() == n,
        forall|i: int| 0 <= i < n ==> !(#[trigger] v@[i]),
{
    let mut v: Vec<bool> = Vec::new();
    while v.len() < n
        invariant
            v@.len() <= n,
            forall|i: int| 0 <= i < v@.len() ==> !(#[trigger] v@[i]),
        decreases n - v@.len(),
    {
        v.push(false);
    }
    v
}

/// The depth-first visit of one node, mirroring `visit_node_spec`.
fn visit<T>(
    graph: &DependencyGraph<T>,
    u: usize,
    visited: &mut Vec<bool>,
    visiting: &mut Vec<bool>,
    ordered: &mut Vec<usize>,
    Ghost(vis0): Ghost<Set<int>>,
) -> (r: Result<(), TopologicalError>)
    requires
        graph.wf(),
        u < graph.node_count(),
        old(visited)@.len() == graph.node_count(),
        old(visiting)@.len() == graph.node_count(),
        vis0 == trues(old(visiting)@),
    ensures
        final(visited)@.len() == graph.node_count(),
        final(visiting)@.len() == graph.node_count(),
        match r {
            Ok(_) => {
                &&& final(visiting)@ == old(visiting)@
                &&& visit_node_spec(
                    *graph,
                    u as int,
                    trues(old(visiting)@),
                    trues(old(visited)@),
                    old(ordered)@,
                ) == Some((trues(final(visited)@), final(ordered)@))
            },
            Err(e) => {
                &&& e == TopologicalError::ContainsCycle
                &&& visit_node_spec(
                    *graph,
                    u as int,
                    trues(old(visiting)@),
                    trues(old(visited)@),
                    old(ordered)@,
                ) == None::<(Set<int>, Seq<usize>)>
            },
        },
    decreases graph.node_count() - vis0.len(),
{
    proof {
        lemma_trues_bounds(old(visiting)@);
    }
    if visited[u] {
        return Ok(());
    }
    if visiting[u] {
        return Err(TopologicalError::ContainsCycle);
    }
    let ghost pre_visited = trues(visited@);
    let ghost pre_ordered = ordered@;
    visiting.set(u, true);
    let ghost vis1 = vis0.insert(u as int);
    proof {
        assert(trues(visiting@) =~= vis1);
        lemma_trues_bounds(visiting@);
        assert(vis1.len() == vis0.len() + 1);
    }
    let deps = graph.dependency_vec(u);
    proof {
        graph.lemma_deps_valid(u);
        assert(deps@.skip(0) =~= deps@);
    }
    let mut k: usize = 0;
    while k < deps.len()
        invariant
            graph.wf(),
            u < graph.node_count(),
            deps@ == graph.deps_of(u),
            forall|j: int| 0 <= j < deps@.len() ==> (#[trigger] deps@[j]) < graph.node_count(),
            k <= deps.len(),
            visited@.len() == graph.node_count(),
            visiting@.len() == graph.node_count(),
            visiting@ == old(visiting)@.update(u as int, true),
            !old(visiting)@[u as int],
            !old(visited)@[u as int],
            vis0 == trues(old(visiting)@),
            vis0.finite(),
            vis0.subset_of(node_range(*graph)),
            vis1 == vis0.insert(u as int),
            trues(visiting@) == vis1,
            vis1.len() == vis0.len() + 1,
            vis1.len() <= graph.node_count(),
            visit_deps_spec(*graph, deps@.skip(k as int), vis1, trues(visited@), ordered@)
                == visit_deps_spec(*graph, deps@, vis1, pre_visited, pre_ordered),
            pre_visited == trues(old(visited)@),
            pre_ordered == old(ordered)@,
        decreases deps@.len() - k,
    {
        let d = deps[k];
        let ghost mid_visited = trues(visited@);
        let ghost mid_ordered = ordered@;
        proof {
            lemma_trues_bounds(visiting@);
        }
        match visit(graph, d, visited, visiting, ordered, Ghost(vis1)) {
            Err(e) => {
                proof {
                    assert(deps@.skip(k as int)[0] == d);
                    assert(visit_deps_spec(*graph, deps@.skip(k as int), vis1, mid_visited,
                        mid_ordered) == None::<(Set<int>, Seq<usize>)>);
                    assert(visit_deps_spec(*graph, deps@, vis1, pre_visited, pre_ordered)
                        == None::<(Set<int>, Seq<usize>)>);
                    assert(!pre_visited.contains(u as int));
                    assert(!vis0.contains(u as int));
                    assert(visit_node_spec(*graph, u as int, vis0, pre_visited, pre_ordered)
                        == None::<(Set<int>, Seq<usize>)>);
                }
                return Err(e);
            },
            Ok(()) => {
                proof {
                    assert(deps@.skip(k as int)[0] == d);
                    assert(deps@.skip(k as int).drop_first() =~= deps@.skip(k as int + 1));
                    assert(visit_deps_spec(*graph, deps@.skip(k as int), vis1, mid_visited,
                        mid_ordered) == visit_deps_spec(*graph, deps@.skip(k as int + 1), vis1,
                        trues(visited@), ordered@));
                }
                k += 1;
            },
        }
    }
    proof {
        assert(deps@.skip(deps@.len() as int) =~= Seq::<usize>::empty());
        assert(visit_deps_spec(*graph, deps@, vis1, pre_visited, pre_ordered) == Some(
            (trues(visited@), ordered@),
        ));
    }
    let ghost deps_visited = trues(visited@);
    let ghost deps_ordered = ordered@;
    visiting.set(u, false);
    visited.set(u, true);
    ordered.push(u);
    proof {
        assert(visiting@ =~= old(visiting)@);
        assert(trues(visited@) =~= deps_visited.insert(u as int));
        assert(ordered@ == deps_ordered.push(u));
        assert(!pre_visited.contains(u as int));
        assert(!vis0.contains(u as int));
        assert(visit_node_spec(*graph, u as int, vis0, pre_visited, pre_ordered) == Some(
            (trues(visited@), ordered@),
        ));
    }
    Ok(())
}

/// Topological ordering by depth-first search with three-colour marking.
///
/// On success the result lists every node exactly once, with each node's
/// dependencies strictly before it; on a cycle it fails with
/// `ContainsCycle` and returns no partial result.  The result is pinned to
/// `topological_spec`, a function of the graph alone, so the ordering is
/// deterministic.
pub fn topological<T>(graph: &DependencyGraph<T>) -> (r: Result<Vec<NodeIndex>, TopologicalError>)
    requires
        graph.wf(),
    ensures
        match r {
            Ok(v) => topological_spec(*graph) == Some(v@),
            Err(e) => {
                &&& topological_spec(*graph) == None::<Seq<usize>>
                &&& e == TopologicalError::ContainsCycle
            },
        },
{
    let n = graph.nodes.len();
    let mut visited: Vec<bool> = false_vec(n);
    let mut visiting: Vec<bool> = false_vec(n);
    let mut ordered: Vec<usize> = Vec::new();
    proof {
        assert(trues(visited@) =~= Set::<int>::empty());
        assert(trues(visiting@) =~= Set::<int>::empty());
    }
    let mut i: usize = 0;
    while i < n
        invariant
            graph.wf(),
            n == graph.node_count(),
            i <= n,
            visited@.len() == n,
            visiting@.len() == n,
            trues(visiting@) == Set::<int>::empty(),
            topo_from_spec(*graph, i as int, trues(visited@), ordered@) == topological_spec(
                *graph,
            ),
        decreases n - i,
    {
        let ghost mid_visited = trues(visited@);
        let ghost mid_ordered = ordered@;
        match visit(graph, i, &mut visited, &mut visiting, &mut ordered, Ghost(Set::empty())) {
            Err(e) => {
                proof {
                    assert(topo_from_spec(*graph, i as int, mid_visited, mid_ordered)
                        == None::<Seq<usize>>);
                }
                return Err(e);
            },
            Ok(()) => {
                proof {
                    assert(topo_from_spec(*graph, i as int, mid_visited, mid_ordered)
                        == topo_from_spec(*graph, i as int + 1, trues(visited@), ordered@));
                }
                i += 1;
            },
        }
    }
    Ok(ordered)
}

// ---------------------------------------------------------------------------
// Laws of the ordering
// ---------------------------------------------------------------------------

impl<T> DependencyGraph<T> {
    /// A nonempty closed walk along edges of this graph.
    pub open spec fn is_cycle(self, c: Seq<usize>) -> bool {
        &&& c.len() > 0
        &&& forall|i: int| 0 <= i < c.len() - 1 ==> self.has_edge(#[trigger] c[i], c[i + 1])
        &&& self.has_edge(c[c.len() - 1], c[0])
    }
}

/// The invariant the search maintains over its visited set and its output:
/// the output has no duplicates, names valid handles, carries exactly the
/// visited set, and already lists each emitted node after its dependencies.
pub(crate) open spec fn topo_inv<T>(
    g: DependencyGraph<T>,
    visited: Set<int>,
    ordered: Seq<usize>,
) -> bool {
    &&& ordered.no_duplicates()
    &&& forall|j: int| 0 <= j < ordered.len() ==> (#[trigger] ordered[j]) < g.node_count()
    &&& visited == int_set_of(ordered)
    &&& forall|j: int, d: usize|
        0 <= j < ordered.len() && #[trigger] g.deps_of(ordered[j]).contains(d) ==> exists|k: int|
            0 <= k < j && ordered[k] == d
}

pub(crate) proof fn lemma_node_count_bound<T>(g: DependencyGraph<T>)
    ensures
        g.node_count() <= usize::MAX,
{
    vstd::std_specs::vec::axiom_spec_len(&g.nodes);
}

pub(crate) proof fn lemma_visit_node_ok<T>(
    g: DependencyGraph<T>,
    u: int,
    visiting: Set<int>,
    visited: Set<int>,
    ordered: Seq<usize>,
)
    requires
        g.wf(),
        0 <= u < g.node_count(),
        visiting.finite(),
        visiting.subset_of(node_range(g)),
        topo_inv(g, visited, ordered),
    ensures
        match visit_node_spec(g, u, visiting, visited, ordered) {
            None => true,
            Some((vd, ord)) => {
                &&& topo_inv(g, vd, ord)
                &&& visited.subset_of(vd)
                &&& vd.contains(u)
                &&& forall|x: int| vd.contains(x) && visiting.contains(x) ==> visited.contains(x)
            },
        },
    decreases g.node_count() - visiting.len(), 0int, 0int,
{
    lemma_node_count_bound(g);
    lemma_int_range(0, g.node_count() as int);
    lemma_len_subset(visiting, node_range(g));
    if visited.contains(u) {
    } else if visiting.contains(u) {
    } else {
        g.lemma_deps_valid(u as usize);
        assert(visiting.insert(u).len() == visiting.len() + 1);
        lemma_len_subset(visiting.insert(u), node_range(g));
        lemma_visit_deps_ok(g, g.deps_of(u as usize), visiting.insert(u), visited, ordered);
        match visit_deps_spec(g, g.deps_of(u as usize), visiting.insert(u), visited, ordered) {
            None => {},
            Some((vd1, ord1)) => {
                assert(!vd1.contains(u)) by {
                    if vd1.contains(u) {
                        assert(visiting.insert(u).contains(u));
                        assert(visited.contains(u));
                    }
                }
                lemma_int_set_contains(ord1, u as usize);
                assert((u as usize) as int == u);
                assert(!ord1.contains(u as usize));
                lemma_int_set_push(ord1, u as usize);
                let ord = ord1.push(u as usize);
                assert(ord.no_duplicates()) by {
                    assert forall|i: int, j: int|
                        0 <= i < ord.len() && 0 <= j < ord.len() && i != j implies ord[i]
                        != ord[j] by {
                        if i < ord1.len() && j < ord1.len() {
                            assert(ord[i] == ord1[i] && ord[j] == ord1[j]);
                        } else if i == ord1.len() {
                            assert(ord[j] == ord1[j]);
                            if ord[j] == u as usize {
                                assert(ord1.contains(u as usize));
                            }
                        } else {
                            assert(ord[i] == ord1[i]);
                            if ord[i] == u as usize {
                                assert(ord1.contains(u as usize));
                            }
                        }
                    }
                }
                assert forall|j: int, d: usize|
                    0 <= j < ord.len() && #[trigger] g.deps_of(ord[j]).contains(d) implies exists|
                    k: int,
                |
                    0 <= k < j && ord[k] == d by {
                    if j < ord1.len() {
                        assert(ord[j] == ord1[j]);
                        let k = choose|k: int| 0 <= k < j && ord1[k] == d;
                        assert(ord[k] == d);
                    } else {
                        assert(ord[j] == u as usize);
                        let jd = choose|jd: int|
                            0 <= jd < g.deps_of(u as usize).len() && (#[trigger] g.deps_of(
                                u as usize,
                            )[jd]) == d;
                        assert(vd1.contains(g.deps_of(u as usize)[jd] as int));
                        lemma_int_set_contains(ord1, d);
                        assert(ord1.contains(d));
                        let k = choose|k: int| 0 <= k < ord1.len() && ord1[k] == d;
                        assert(ord[k] == d);
                    }
                }
            },
        }
    }
}

pub(crate) proof fn lemma_visit_deps_ok<T>(
    g: DependencyGraph<T>,
    deps: Seq<usize>,
    visiting: Set<int>,
    visited: Set<int>,
    ordered: Seq<usize>,
)
    requires
        g.wf(),
        visiting.finite(),
        visiting.subset_of(node_range(g)),
        forall|j: int| 0 <= j < deps.len() ==> (#[trigger] deps[j]) < g.node_count(),
        topo_inv(g, visited, ordered),
    ensures
        match visit_deps_spec(g, deps, visiting, visited, ordered) {
            None => true,
            Some((vd, ord)) => {
                &&& topo_inv(g, vd, ord)
                &&& visited.subset_of(vd)
                &&& forall|j: int| 0 <= j < deps.len() ==> vd.contains(#[trigger] deps[j] as int)
                &&& forall|x: int| vd.contains(x) && visiting.contains(x) ==> visited.contains(x)
            },
        },
    decreases g.node_count() - visiting.len(), 1int, deps.len(),
{
    lemma_int_range(0, g.node_count() as int);
    lemma_len_subset(visiting, node_range(g));
    if deps.len() == 0 {
    } else {
        lemma_visit_node_ok(g, deps[0] as int, visiting, visited, ordered);
        match visit_node_spec(g, deps[0] as int, visiting, visited, ordered) {
            None => {},
            Some((vd0, ord0)) => {
                lemma_visit_deps_ok(g, deps.drop_first(), visiting, vd0, ord0);
                match visit_deps_spec(g, deps.drop_first(), visiting, vd0, ord0) {
                    None => {},
                    Some((vd, ord)) => {
                        assert forall|j: int| 0 <= j < deps.len() implies vd.contains(
                            #[trigger] deps[j] as int,
                        ) by {
                            if j == 0 {
                                assert(vd0.contains(deps[0] as int));
                            } else {
                                assert(deps.drop_first()[j - 1] == deps[j]);
                            }
                        }
                    },
                }
            },
        }
    }
}

pub(crate) proof fn lemma_topo_from_ok<T>(
    g: DependencyGraph<T>,
    i: int,
    visited: Set<int>,
    ordered: Seq<usize>,
)
    requires
        g.wf(),
        0 <= i,
        topo_inv(g, visited, ordered),
        forall|v: int| 0 <= v < i ==> visited.contains(v),
    ensures
        match topo_from_spec(g, i, visited, ordered) {
            None => true,
            Some(order) => {
                &&& topo_inv(g, int_set_of(order), order)
                &&& forall|v: int| 0 <= v < g.node_count() ==> int_set_of(order).contains(v)
            },
        },
    decreases g.node_count() - i,
{
    if i >= g.node_count() {
    } else {
        lemma_visit_node_ok(g, i, Set::empty(), visited, ordered);
        match visit_node_spec(g, i, Set::empty(), visited, ordered) {
            None => {},
            Some((vd, ord)) => {
                lemma_topo_from_ok(g, i + 1, vd, ord);
            },
        }
    }
}

/// Dependency-before-dependent: an ordering this library returns lists every
/// node exactly once, and for every edge `u -> v` the target `v` stands
/// strictly before `u`.
pub proof fn lemma_topological_orders_dependencies<T>(g: DependencyGraph<T>, order: Seq<usize>)
    requires
        g.wf(),
        topological_spec(g) == Some(order),
    ensures
        order.len() == g.node_count(),
        order.no_duplicates(),
        forall|j: int| 0 <= j < order.len() ==> (#[trigger] order[j]) < g.node_count(),
        forall|v: usize| v < g.node_count() ==> order.contains(v),
        forall|j: int, d: usize|
            0 <= j < order.len() && #[trigger] g.deps_of(order[j]).contains(d) ==> exists|k: int|
                0 <= k < j && order[k] == d,
{
    assert(topo_inv(g, Set::<int>::empty(), Seq::<usize>::empty())) by {
        assert(int_set_of(Seq::<usize>::empty()) =~= Set::<int>::empty());
    }
    lemma_topo_from_ok(g, 0, Set::empty(), Seq::empty());
    assert forall|v: usize| v < g.node_count() implies order.contains(v) by {
        assert(int_set_of(order).contains(v as int));
        lemma_int_set_contains(order, v);
    }
    lemma_node_count_bound(g);
    let m = order.map_values(|y: usize| y as int);
    assert(int_set_of(order) =~= node_range(g)) by {
        assert forall|a: int| int_set_of(order).contains(a) implies node_range(g).contains(a) by {
            let j = choose|j: int| 0 <= j < m.len() && m[j] == a;
            assert(order[j] < g.node_count());
        }
        assert forall|a: int| node_range(g).contains(a) implies int_set_of(order).contains(a) by {
            assert(order.contains(a as usize));
            lemma_int_set_contains(order, a as usize);
        }
    }
    lemma_int_range(0, g.node_count() as int);
    assert(m.no_duplicates()) by {
        assert forall|i: int, j: int|
            0 <= i < m.len() && 0 <= j < m.len() && i != j implies m[i] != m[j] by {
            assert(m[i] == order[i] as int && m[j] == order[j] as int);
        }
    }
    m.unique_seq_to_set();
    assert(order.len() == g.node_count());
}

pub(crate) proof fn lemma_visit_node_none_cycle<T>(
    g: DependencyGraph<T>,
    u: int,
    visiting: Set<int>,
    visited: Set<int>,
    ordered: Seq<usize>,
    stack: Seq<usize>,
)
    requires
        g.wf(),
        0 <= u < g.node_count(),
        visiting.finite(),
        visiting.subset_of(node_range(g)),
        visiting == int_set_of(stack),
        forall|i: int| 0 <= i < stack.len() - 1 ==> g.has_edge(#[trigger] stack[i], stack[i + 1]),
        stack.len() > 0 ==> g.has_edge(stack[stack.len() - 1], u as usize),
        visit_node_spec(g, u, visiting, visited, ordered) == None::<(Set<int>, Seq<usize>)>,
    ensures
        exists|c: Seq<usize>| g.is_cycle(c),
    decreases g.node_count() - visiting.len(), 0int, 0int,
{
    lemma_node_count_bound(g);
    lemma_int_range(0, g.node_count() as int);
    lemma_len_subset(visiting, node_range(g));
    if visited.contains(u) {
        assert(false);
    } else if visiting.contains(u) {
        lemma_int_set_contains(stack, u as usize);
        assert(stack.contains(u as usize));
        let k = choose|k: int| 0 <= k < stack.len() && stack[k] == u as usize;
        let c = stack.subrange(k, stack.len() as int);
        assert(c.len() > 0);
        assert forall|i: int| 0 <= i < c.len() - 1 implies g.has_edge(
            #[trigger] c[i],
            c[i + 1],
        ) by {
            assert(c[i] == stack[k + i]);
            assert(c[i + 1] == stack[k + i + 1]);
        }
        assert(c[c.len() - 1] == stack[stack.len() - 1]);
        assert(c[0] == u as usize);
        assert(g.is_cycle(c));
    } else {
        g.lemma_deps_valid(u as usize);
        assert(visiting.insert(u).len() == visiting.len() + 1);
        lemma_len_subset(visiting.insert(u), node_range(g));
        lemma_int_set_push(stack, u as usize);
        assert((u as usize) as int == u);
        let st2 = stack.push(u as usize);
        assert forall|i: int| 0 <= i < st2.len() - 1 implies g.has_edge(
            #[trigger] st2[i],
            st2[i + 1],
        ) by {
            if i < stack.len() - 1 {
                assert(st2[i] == stack[i] && st2[i + 1] == stack[i + 1]);
            } else {
                assert(st2[i] == stack[stack.len() - 1] && st2[i + 1] == u as usize);
            }
        }
        assert forall|j: int| 0 <= j < g.deps_of(u as usize).len() implies g.has_edge(
            st2[st2.len() - 1],
            #[trigger] g.deps_of(u as usize)[j],
        ) by {
            assert(st2[st2.len() - 1] == u as usize);
            assert(g.deps_of(u as usize).contains(g.deps_of(u as usize)[j]));
        }
        lemma_visit_deps_none_cycle(
            g,
            g.deps_of(u as usize),
            visiting.insert(u),
            visited,
            ordered,
            st2,
        );
    }
}

pub(crate) proof fn lemma_visit_deps_none_cycle<T>(
    g: DependencyGraph<T>,
    deps: Seq<usize>,
    visiting: Set<int>,
    visited: Set<int>,
    ordered: Seq<usize>,
    stack: Seq<usize>,
)
    requires
        g.wf(),
        visiting.finite(),
        visiting.subset_of(node_range(g)),
        forall|j: int| 0 <= j < deps.len() ==> (#[trigger] deps[j]) < g.node_count(),
        visiting == int_set_of(stack),
        stack.len() > 0,
        forall|i: int| 0 <= i < stack.len() - 1 ==> g.has_edge(#[trigger] stack[i], stack[i + 1]),
        forall|j: int|
            0 <= j < deps.len() ==> g.has_edge(stack[stack.len() - 1], #[trigger] deps[j]),
        visit_deps_spec(g, deps, visiting, visited, ordered) == None::<(Set<int>, Seq<usize>)>,
    ensures
        exists|c: Seq<usize>| g.is_cycle(c),
    decreases g.node_count() - visiting.len(), 1int, deps.len(),
{
    lemma_int_range(0, g.node_count() as int);
    lemma_len_subset(visiting, node_range(g));
    if deps.len() == 0 {
        assert(false);
    } else {
        match visit_node_spec(g, deps[0] as int, visiting, visited, ordered) {
            None => {
                lemma_visit_node_none_cycle(g, deps[0] as int, visiting, visited, ordered, stack);
            },
            Some((vd, ord)) => {
                assert(forall|j: int|
                    0 <= j < deps.drop_first().len() ==> (#[trigger] deps.drop_first()[j])
                        == deps[j + 1]);
                lemma_visit_deps_none_cycle(g, deps.drop_first(), visiting, vd, ord, stack);
            },
        }
    }
}

pub(crate) proof fn lemma_topo_from_none_cycle<T>(
    g: DependencyGraph<T>,
    i: int,
    visited: Set<int>,
    ordered: Seq<usize>,
)
    requires
        g.wf(),
        0 <= i,
        topo_from_spec(g, i, visited, ordered) == None::<Seq<usize>>,
    ensures
        exists|c: Seq<usize>| g.is_cycle(c),
    decreases g.node_count() - i,
{
    assert(i < g.node_count());
    match visit_node_spec(g, i, Set::empty(), visited, ordered) {
        None => {
            assert(int_set_of(Seq::<usize>::empty()) =~= Set::<int>::empty());
            lemma_visit_node_none_cycle(g, i, Set::empty(), visited, ordered, Seq::empty());
        },
        Some((vd, ord)) => {
            lemma_topo_from_none_cycle(g, i + 1, vd, ord);
        },
    }
}

/// A failed ordering really does witness a directed cycle in the graph.
pub proof fn lemma_topological_none_implies_cycle<T>(g: DependencyGraph<T>)
    requires
        g.wf(),
        topological_spec(g) == None::<Seq<usize>>,
    ensures
        exists|c: Seq<usize>| g.is_cycle(c),
{
    lemma_topo_from_none_cycle(g, 0, Set::empty(), Seq::empty());
}

/// The position of a handle in an ordering.
pub(crate) open spec fn pos_of(order: Seq<usize>, x: usize) -> int {
    choose|k: int| 0 <= k < order.len() && order[k] == x
}

pub(crate) proof fn lemma_edge_pos<T>(g: DependencyGraph<T>, order: Seq<usize>, u: usize, v: usize)
    requires
        g.wf(),
        order.no_duplicates(),
        forall|w: usize| w < g.node_count() ==> order.contains(w),
        forall|j: int, d: usize|
            0 <= j < order.len() && #[trigger] g.deps_of(order[j]).contains(d) ==> exists|k: int|
                0 <= k < j && order[k] == d,
        g.has_edge(u, v),
    ensures
        order.contains(u),
        order.contains(v),
        pos_of(order, v) < pos_of(order, u),
        0 <= pos_of(order, u) < order.len(),
        0 <= pos_of(order, v) < order.len(),
{
    assert(order.contains(u));
    let j = pos_of(order, u);
    assert(0 <= j < order.len() && order[j] == u);
    assert(g.deps_of(order[j]).contains(v));
    let k = choose|k: int| 0 <= k < j && order[k] == v;
    assert(order.contains(v));
    let kv = pos_of(order, v);
    assert(0 <= kv < order.len() && order[kv] == v);
    assert(kv == k);
}

pub(crate) proof fn lemma_cycle_positions<T>(
    g: DependencyGraph<T>,
    order: Seq<usize>,
    c: Seq<usize>,
    i: int,
)
    requires
        g.wf(),
        order.no_duplicates(),
        forall|w: usize| w < g.node_count() ==> order.contains(w),
        forall|j: int, d: usize|
            0 <= j < order.len() && #[trigger] g.deps_of(order[j]).contains(d) ==> exists|k: int|
                0 <= k < j && order[k] == d,
        forall|t: int| 0 <= t < c.len() - 1 ==> g.has_edge(#[trigger] c[t], c[t + 1]),
        0 <= i < c.len(),
    ensures
        pos_of(order, c[i]) <= pos_of(order, c[0]) - i,
    decreases i,
{
    if i == 0 {
    } else {
        lemma_cycle_positions(g, order, c, i - 1);
        lemma_edge_pos(g, order, c[i - 1], c[i]);
    }
}

/// A graph for which the ordering succeeds has no directed cycle.
pub proof fn lemma_topological_some_implies_acyclic<T>(g: DependencyGraph<T>, order: Seq<usize>)
    requires
        g.wf(),
        topological_spec(g) == Some(order),
    ensures
        forall|c: Seq<usize>| !g.is_cycle(c),
{
    lemma_topological_orders_dependencies(g, order);
    assert forall|c: Seq<usize>| !g.is_cycle(c) by {
        if g.is_cycle(c) {
            let last = c.len() - 1;
            lemma_cycle_positions(g, order, c, last);
            lemma_edge_pos(g, order, c[last as int], c[0]);
            assert(false);
        }
    }
}

/// The ordering succeeds exactly on acyclic graphs.
pub proof fn lemma_topological_succeeds_iff_acyclic<T>(g: DependencyGraph<T>)
    requires
        g.wf(),
    ensures
        (topological_spec(g) is Some) <==> (forall|c: Seq<usize>| !g.is_cycle(c)),
{
    match topological_spec(g) {
        Some(order) => {
            lemma_topological_some_implies_acyclic(g, order);
        },
        None => {
            lemma_topological_none_implies_cycle(g);
        },
    }
}

} // verus!
