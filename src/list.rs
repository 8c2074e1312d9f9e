//! A directed weighted graph stored as adjacency lists, addressed through `NodeIndex` values.
//! Nodes are never removed, so a `NodeIndex` handed out by `add_node` stays valid.
use vstd::prelude::*;
use vstd::set_lib::*;
use crate::engine::{dijkstra, graph_of, shortest_distances, targets_in_range};

verus! {

/// Identifies a node of a graph: its position in the graph's lists.
#[derive(Copy, Clone, PartialEq, Eq, Hash, Debug, Structural)]
pub struct NodeIndex {
    pub index: usize,
}

/// An edge from `start` to `end` of weight `weight`.
#[derive(Copy, Clone, PartialEq, Eq, Debug, Structural)]
pub struct Edge {
    pub weight: usize,
    pub start: NodeIndex,
    pub end: NodeIndex,
}

/// Identifies an edge of a graph, as handed out by `add_edge` and `get_neighbors`.
#[derive(Copy, Clone, PartialEq, Eq, Debug, Structural)]
pub struct EdgeIndex {
    pub edge: Edge,
}

pub struct Graph<T> {
    adjacency_list: Vec<Vec<Edge>>,
    vertices: Vec<T>,
}

impl<T> Graph<T> {
    /// The nodes' data; node `i` is entry `i`.
    pub closed spec fn node_seq(&self) -> Seq<T> {
        self.vertices@
    }

    /// The edges out of node `u`, in the order they were added.
    pub closed spec fn out_edges(&self, u: int) -> Seq<Edge> {
        self.adjacency_list@[u]@
    }

    /// The graph as weighted adjacency sequences: `(end, weight)` for each edge.
    pub open spec fn weighted(&self) -> Seq<Seq<(usize, usize)>> {
        Seq::new(
            self.node_seq().len(),
            |u: int| self.out_edges(u).map_values(|e: Edge| (e.end.index, e.weight)),
        )
    }

    /// One list per node; each edge leaves the node whose list holds it and ends at a node.
    pub closed spec fn wf(&self) -> bool {
        &&& self.adjacency_list@.len() == self.vertices@.len()
        &&& forall|u: int, k: int|
            0 <= u < self.adjacency_list@.len() && 0 <= k < self.adjacency_list@[u]@.len() ==> {
                &&& (#[trigger] self.adjacency_list@[u]@[k]).start.index == u
                &&& self.adjacency_list@[u]@[k].end.index < self.vertices@.len()
            }
    }

    /// Creates a graph with no nodes.
    pub fn new() -> (g: Self)
        ensures
            g.wf(),
            g.node_seq() == Seq::<T>::empty(),
    {
        Graph { adjacency_list: Vec::new(), vertices: Vec::new() }
    }

    /// Adds a node with data `data` and returns its index.
    pub fn add_node(&mut self, data: T) -> (i: NodeIndex)
        requires
            old(self).wf(),
        ensures
            final(self).wf(),
            i.index == old(self).node_seq().len(),
            final(self).node_seq() == old(self).node_seq().push(data),
            forall|u: int| 0 <= u < old(self).node_seq().len() ==> #[trigger] final(self).out_edges(u) == old(self).out_edges(u),
            final(self).out_edges(i.index as int) == Seq::<Edge>::empty(),
    {
        self.vertices.push(data);
        self.adjacency_list.push(Vec::new());
        NodeIndex { index: self.vertices.len() - 1 }
    }

    /// Adds a directed edge from `a` to `b` with weight `w`.
    pub fn add_edge(&mut self, a: NodeIndex, b: NodeIndex, w: usize) -> (e: EdgeIndex)
        requires
            old(self).wf(),
            a.index < old(self).node_seq().len(),
            b.index < old(self).node_seq().len(),
        ensures
            final(self).wf(),
            e.edge == (Edge { weight: w, start: a, end: b }),
            final(self).node_seq() == old(self).node_seq(),
            final(self).out_edges(a.index as int) == old(self).out_edges(a.index as int).push(e.edge),
            forall|u: int|
                0 <= u < old(self).node_seq().len() && u != a.index ==> #[trigger] final(self).out_edges(u) == old(self).out_edges(u),
    {
        let ghost pre = *self;
        let edge = Edge { weight: w, start: a, end: b };
        let mut row: Vec<Edge> = Vec::new();
        self.adjacency_list.set_and_swap(a.index, &mut row);
        row.push(edge);
        self.adjacency_list.set_and_swap(a.index, &mut row);
        proof {
            assert forall|u: int, k: int|
                0 <= u < self.adjacency_list@.len() && 0 <= k < self.adjacency_list@[u]@.len() implies {
                    &&& (#[trigger] self.adjacency_list@[u]@[k]).start.index == u
                    &&& self.adjacency_list@[u]@[k].end.index < self.vertices@.len()
                } by {
                if u != a.index || k < pre.adjacency_list@[u]@.len() {
                    assert(self.adjacency_list@[u]@[k] == pre.adjacency_list@[u]@[k]);
                }
            }
        }
        EdgeIndex { edge }
    }

    /// The edges going out of `node`.
    pub fn get_neighbors(&self, node: NodeIndex) -> (v: Vec<EdgeIndex>)
        requires
            self.wf(),
            node.index < self.node_seq().len(),
        ensures
            v@.len() == self.out_edges(node.index as int).len(),
            forall|k: int| 0 <= k < v@.len() ==> (#[trigger] v@[k]).edge == self.out_edges(node.index as int)[k],
    {
        let row = &self.adjacency_list[node.index];
        let mut v: Vec<EdgeIndex> = Vec::new();
        let mut k: usize = 0;
        while k < row.len()
            invariant
                k <= row@.len(),
                v@.len() == k,
                forall|j: int| 0 <= j < k ==> (#[trigger] v@[j]).edge == row@[j],
            decreases row@.len() - k,
        {
            v.push(EdgeIndex { edge: row[k] });
            k = k + 1;
        }
        v
    }

    /// The indices of all nodes, in increasing order.
    pub fn get_all_nodes(&self) -> (v: Vec<NodeIndex>)
        ensures
            v@.len() == self.node_seq().len(),
            forall|k: int| 0 <= k < v@.len() ==> (#[trigger] v@[k]).index == k,
    {
        let mut v: Vec<NodeIndex> = Vec::new();
        let mut x: usize = 0;
        while x < self.vertices.len()
            invariant
                x <= self.vertices@.len(),
                v@.len() == x,
                forall|k: int| 0 <= k < x ==> (#[trigger] v@[k]).index == k,
            decreases self.vertices@.len() - x,
        {
            v.push(NodeIndex { index: x });
            x = x + 1;
        }
        v
    }

    fn weighted_lists(&self) -> (adj: Vec<Vec<(usize, usize)>>)
        requires
            self.wf(),
        ensures
            graph_of(adj@) == self.weighted(),
            targets_in_range(graph_of(adj@)),
            adj@.len() == self.vertices@.len(),
    {
        let mut adj: Vec<Vec<(usize, usize)>> = Vec::new();
        let mut u: usize = 0;
        while u < self.adjacency_list.len()
            invariant
                self.wf(),
                u <= self.adjacency_list@.len(),
                adj@.len() == u,
                forall|x: int| 0 <= x < u ==> (#[trigger] adj@[x])@ == self.weighted()[x],
            decreases self.adjacency_list@.len() - u,
        {
            let row = &self.adjacency_list[u];
            let mut out: Vec<(usize, usize)> = Vec::new();
            let mut k: usize = 0;
            while k < row.len()
                invariant
                    self.wf(),
                    u < self.adjacency_list@.len(),
                    row@ == self.adjacency_list@[u as int]@,
                    k <= row@.len(),
                    out@ == row@.subrange(0, k as int).map_values(|e: Edge| (e.end.index, e.weight)),
                decreases row@.len() - k,
            {
                let e = row[k];
                out.push((e.end.index, e.weight));
                k = k + 1;
                assert(out@ =~= row@.subrange(0, k as int).map_values(|e: Edge| (e.end.index, e.weight)));
            }
            assert(row@.subrange(0, k as int) =~= row@);
            adj.push(out);
            u = u + 1;
        }
        assert(graph_of(adj@) =~= self.weighted());
        adj
    }
}

/// The length of a shortest path from `a` to `b`, or `usize::MAX` when there is none; sums
/// that would pass `usize::MAX` stop there.
pub fn djikstra<T>(g: &Graph<T>, a: NodeIndex, b: NodeIndex) -> (d: usize)
    requires
        g.wf(),
        a.index < g.node_seq().len(),
        b.index < g.node_seq().len(),
    ensures
        exists|dist: Seq<usize>| shortest_distances(g.weighted(), a.index as int, dist) && d == dist[b.index as int],
{
    let adj = g.weighted_lists();
    let dist = dijkstra(&adj, a.index);
    dist[b.index]
}

/// `order` lists every node once, and each edge leads from a node to one listed later.
pub open spec fn is_topo_order(g: Seq<Seq<(usize, usize)>>, order: Seq<usize>) -> bool {
    &&& order.len() == g.len()
    &&& forall|i: int| 0 <= i < order.len() ==> (#[trigger] order[i]) < g.len()
    &&& forall|i: int, j: int| 0 <= i < j < order.len() ==> order[i] != order[j]
    &&& forall|v: int| 0 <= v < g.len() ==> #[trigger] order.contains(v as usize)
    &&& forall|i: int, j: int, k: int|
        0 <= i < order.len() && 0 <= j < order.len() && 0 <= k < g[order[i] as int].len() && order[j]
            == (#[trigger] g[order[i] as int][k]).0 && #[trigger] order[j] == order[j] ==> i < j
}

/// Every node of the nonempty set `s` has an edge coming in from a node of `s`: the edges
/// inside `s` contain a cycle.
pub open spec fn closed_under_predecessors(g: Seq<Seq<(usize, usize)>>, s: Set<int>) -> bool {
    &&& exists|v: int| #[trigger] s.contains(v)
    &&& forall|v: int| #[trigger] s.contains(v) ==> 0 <= v < g.len()
    &&& forall|v: int|
        #[trigger] s.contains(v) ==> exists|u: int, k: int|
            s.contains(u) && 0 <= u < g.len() && 0 <= k < g[u].len() && (#[trigger] g[u][k]).0 == v
}

/// A graph in which some nonempty set of nodes each have a predecessor inside the set has
/// no topological order.
pub proof fn lemma_cycle_blocks_order(g: Seq<Seq<(usize, usize)>>, s: Set<int>, order: Seq<usize>)
    requires
        closed_under_predecessors(g, s),
    ensures
        !is_topo_order(g, order),
{
    if is_topo_order(g, order) {
        lemma_no_early_member(g, s, order, order.len() as int - 1);
        let v = choose|v: int| #[trigger] s.contains(v);
        assert(order.contains(v as usize));
        let j = choose|j: int| 0 <= j < order.len() && order[j] == v as usize;
        assert(!s.contains(order[j] as int));
    }
}

/// Under a topological order, no position up to `i` holds a member of such a set.
proof fn lemma_no_early_member(g: Seq<Seq<(usize, usize)>>, s: Set<int>, order: Seq<usize>, i: int)
    requires
        closed_under_predecessors(g, s),
        is_topo_order(g, order),
        i < order.len(),
    ensures
        forall|j: int| 0 <= j <= i ==> !s.contains(#[trigger] order[j] as int),
    decreases i + 1,
{
    if i >= 0 {
        lemma_no_early_member(g, s, order, i - 1);
        if s.contains(order[i] as int) {
            let v = order[i] as int;
            let (u, k) = choose|u: int, k: int|
                s.contains(u) && 0 <= u < g.len() && 0 <= k < g[u].len() && (#[trigger] g[u][k]).0 == v;
            assert(order.contains(u as usize));
            let ju = choose|ju: int| 0 <= ju < order.len() && order[ju] == u as usize;
            assert(order[i] == g[order[ju] as int][k].0);
            assert(ju < i);
            assert(!s.contains(order[ju] as int));
        }
    }
}

/// Whether some edge from a node not yet `removed` ends at `v`.
fn has_incoming(adj: &Vec<Vec<(usize, usize)>>, removed: &Vec<bool>, v: usize) -> (r: bool)
    requires
        removed@.len() == adj@.len(),
    ensures
        r <==> exists|u: int, k: int|
            0 <= u < adj@.len() && !removed@[u] && 0 <= k < adj@[u]@.len() && (#[trigger] graph_of(adj@)[u][k]).0 == v,
{
    let ghost g = graph_of(adj@);
    let mut u: usize = 0;
    while u < adj.len()
        invariant
            g == graph_of(adj@),
            removed@.len() == adj@.len(),
            u <= adj@.len(),
            forall|x: int, k: int| 0 <= x < u && !removed@[x] && 0 <= k < adj@[x]@.len() ==> (#[trigger] g[x][k]).0 != v,
        decreases adj@.len() - u,
    {
        if !removed[u] {
            let mut k: usize = 0;
            while k < adj[u].len()
                invariant
                    g == graph_of(adj@),
                    removed@.len() == adj@.len(),
                    u < adj@.len(),
                    !removed@[u as int],
                    k <= adj@[u as int]@.len(),
                    forall|x: int, kk: int| 0 <= x < u && !removed@[x] && 0 <= kk < adj@[x]@.len() ==> (#[trigger] g[x][kk]).0 != v,
                    forall|kk: int| 0 <= kk < k ==> (#[trigger] g[u as int][kk]).0 != v,
                decreases adj@[u as int]@.len() - k,
            {
                if adj[u][k].0 == v {
                    assert(g[u as int][k as int].0 == v);
                    return true;
                }
                k = k + 1;
            }
        }
        u = u + 1;
    }
    false
}

/// The first node that is not `removed` and that no edge from a node not `removed` enters.
fn first_source(adj: &Vec<Vec<(usize, usize)>>, removed: &Vec<bool>) -> (r: Option<usize>)
    requires
        removed@.len() == adj@.len(),
    ensures
        r matches Some(v) ==> v < adj@.len() && !removed@[v as int] && !exists|u: int, k: int|
            0 <= u < adj@.len() && !removed@[u] && 0 <= k < adj@[u]@.len() && (#[trigger] graph_of(adj@)[u][k]).0 == v,
        r is None ==> forall|x: int| 0 <= x < adj@.len() && !(#[trigger] removed@[x]) ==> exists|u: int, k: int|
            0 <= u < adj@.len() && !removed@[u] && 0 <= k < adj@[u]@.len() && (#[trigger] graph_of(adj@)[u][k]).0 == x,
{
    let n = adj.len();
    let mut v: usize = 0;
    while v < n
        invariant
            n == adj@.len(),
            removed@.len() == n,
            v <= n,
            forall|x: int| 0 <= x < v && !(#[trigger] removed@[x]) ==> exists|u: int, k: int|
                0 <= u < n && !removed@[u] && 0 <= k < adj@[u]@.len() && (#[trigger] graph_of(adj@)[u][k]).0 == x,
        decreases n - v,
    {
        if !removed[v] && !has_incoming(adj, removed, v) {
            return Some(v);
        }
        v = v + 1;
    }
    None
}

/// The nodes that are not `removed`, when each is entered by an edge from another of them.
pub open spec fn remaining(gw: Seq<Seq<(usize, usize)>>, removed: Seq<bool>) -> Set<int> {
    Set::new(|x: int| 0 <= x < gw.len() && !removed[x])
}

/// When every node that is not `removed` is entered by an edge from such a node, and some
/// node is not `removed`, those nodes witness a cycle.
proof fn lemma_stuck(gw: Seq<Seq<(usize, usize)>>, removed: Seq<bool>)
    requires
        removed.len() == gw.len(),
        exists|x: int| 0 <= x < gw.len() && !#[trigger] removed[x],
        forall|x: int| 0 <= x < gw.len() && !(#[trigger] removed[x]) ==> exists|u: int, k: int|
            0 <= u < gw.len() && !removed[u] && 0 <= k < gw[u].len() && (#[trigger] gw[u][k]).0 == x,
    ensures
        closed_under_predecessors(gw, remaining(gw, removed)),
{
    let rest = remaining(gw, removed);
    let x0 = choose|x: int| 0 <= x < gw.len() && !#[trigger] removed[x];
    assert(rest.contains(x0));
    assert forall|x: int| #[trigger] rest.contains(x) implies exists|u: int, k: int|
        rest.contains(u) && 0 <= u < gw.len() && 0 <= k < gw[u].len() && (#[trigger] gw[u][k]).0 == x by {
        assert(!removed[x]);
        let (u, k) = choose|u: int, k: int| 0 <= u < gw.len() && !removed[u] && 0 <= k < gw[u].len() && (#[trigger] gw[u][k]).0 == x;
        assert(rest.contains(u));
    }
}

/// A topological order of the nodes, or `None` when the edges contain a cycle. Repeatedly
/// takes the first remaining node that no edge from a remaining node enters.
pub fn topo_sort<T>(g: &Graph<T>) -> (r: Option<Vec<NodeIndex>>)
    requires
        g.wf(),
    ensures
        r matches Some(order) ==> is_topo_order(g.weighted(), order@.map_values(|x: NodeIndex| x.index)),
        r is None ==> exists|s: Set<int>| #[trigger] closed_under_predecessors(g.weighted(), s),
        r is None ==> forall|order: Seq<usize>| !is_topo_order(g.weighted(), order),
{
    let adj = g.weighted_lists();
    let ghost gw = graph_of(adj@);
    let n = adj.len();
    let mut removed: Vec<bool> = Vec::new();
    let mut i: usize = 0;
    while i < n
        invariant
            i <= n,
            removed@.len() == i,
            forall|x: int| 0 <= x < i ==> !#[trigger] removed@[x],
        decreases n - i,
    {
        removed.push(false);
        i = i + 1;
    }
    let mut order: Vec<NodeIndex> = Vec::new();
    let ghost mut pos: Seq<int> = Seq::new(n as nat, |x: int| 0);
    let ghost mut taken: Set<int> = Set::empty();
    proof {
        lemma_int_range(0, n as int);
    }
    while order.len() < n
        invariant
            gw == graph_of(adj@),
            gw == g.weighted(),
            targets_in_range(gw),
            n == adj@.len(),
            removed@.len() == n,
            pos.len() == n,
            order@.len() <= n,
            set_int_range(0, n as int).finite(),
            set_int_range(0, n as int).len() == n,
            taken.finite(),
            taken.len() == order@.len(),
            taken.subset_of(set_int_range(0, n as int)),
            forall|x: int| 0 <= x < n ==> (#[trigger] removed@[x] <==> taken.contains(x)),
            forall|j: int| 0 <= j < order@.len() ==> (#[trigger] order@[j]).index < n && removed@[order@[j].index as int] && pos[order@[j].index as int] == j,
            forall|x: int| 0 <= x < n && #[trigger] removed@[x] ==> 0 <= pos[x] < order@.len() && order@[pos[x]].index == x,
            forall|u: int, k: int|
                0 <= u < n && 0 <= k < gw[u].len() && removed@[(#[trigger] gw[u][k]).0 as int] ==> removed@[u] && pos[u] < pos[gw[u][k].0 as int],
        decreases n - order@.len(),
    {
        let v = match first_source(&adj, &removed) {
            Some(v) => v,
            None => {
                proof {
                    if forall|x: int| 0 <= x < n ==> #[trigger] removed@[x] {
                        assert forall|x: int| set_int_range(0, n as int).contains(x) implies taken.contains(x) by {
                            assert(removed@[x]);
                        }
                        lemma_len_subset(set_int_range(0, n as int), taken);
                    }
                    lemma_stuck(gw, removed@);
                    assert forall|o: Seq<usize>| !is_topo_order(g.weighted(), o) by {
                        lemma_cycle_blocks_order(gw, remaining(gw, removed@), o);
                    }
                }
                return None;
            },
        };
        proof {
            assert(!taken.contains(v as int));
            lemma_len_subset(taken.insert(v as int), set_int_range(0, n as int));
            taken = taken.insert(v as int);
            pos = pos.update(v as int, order@.len() as int);
        }
        let ghost ob = order@;
        let ghost rb = removed@;
        removed.set(v, true);
        order.push(NodeIndex { index: v });
        proof {
            assert forall|u: int, k: int|
                0 <= u < n && 0 <= k < gw[u].len() && removed@[(#[trigger] gw[u][k]).0 as int] implies removed@[u] && pos[u] < pos[gw[u][k].0 as int] by {
                let w = gw[u][k].0 as int;
                if w == v {
                    if !rb[u] {
                        assert(gw[u][k].0 == v);
                        assert(exists|uu: int, kk: int| 0 <= uu < adj@.len() && !rb[uu] && 0 <= kk < adj@[uu]@.len() && (#[trigger] graph_of(adj@)[uu][kk]).0 == v);
                    }
                } else {
                    assert(rb[w]);
                }
            }
            assert forall|j: int| 0 <= j < order@.len() implies (#[trigger] order@[j]).index < n && removed@[order@[j].index as int] && pos[order@[j].index as int] == j by {
                if j < ob.len() {
                    assert(order@[j] == ob[j]);
                }
            }
            assert forall|x: int| 0 <= x < n && #[trigger] removed@[x] implies 0 <= pos[x] < order@.len() && order@[pos[x]].index == x by {
                if x != v {
                    assert(rb[x]);
                }
            }
            assert forall|x: int| 0 <= x < n implies (#[trigger] removed@[x] <==> taken.contains(x)) by {
                if x != v {
                    assert(removed@[x] == rb[x]);
                }
            }
        }
    }
    proof {
        let ord = order@.map_values(|x: NodeIndex| x.index);
        assert forall|j: int| 0 <= j < ord.len() implies (#[trigger] ord[j]) < gw.len() by {
            assert(order@[j].index < n);
        }
        assert forall|a: int, b: int| 0 <= a < b < ord.len() implies ord[a] != ord[b] by {
            assert(pos[order@[a].index as int] == a);
            assert(pos[order@[b].index as int] == b);
        }
        assert(taken.subset_of(set_int_range(0, n as int)));
        lemma_subset_equality(taken, set_int_range(0, n as int));
        assert forall|x: int| 0 <= x < gw.len() implies #[trigger] ord.contains(x as usize) by {
            assert(taken.contains(x));
            assert(removed@[x]);
            let j = pos[x];
            assert(ord[j] == x as usize);
        }
        assert forall|a: int, b: int, k: int|
            0 <= a < ord.len() && 0 <= b < ord.len() && 0 <= k < gw[ord[a] as int].len() && ord[b]
                == (#[trigger] gw[ord[a] as int][k]).0 && #[trigger] ord[b] == ord[b] implies a < b by {
            let u = ord[a] as int;
            assert(order@[a].index == u);
            assert(removed@[ord[b] as int]);
            assert(pos[u] == a);
            assert(pos[ord[b] as int] == b);
        }
    }
    Some(order)
}

} // verus!
