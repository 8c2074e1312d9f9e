//! A graph whose nodes are numbered from 0 in the order they are added, directed or not;
//! each node maps each neighbour to the edge that leads there.
use vstd::prelude::*;
use crate::engine::{prim as grow_tree, grown_tree, graph_of, targets_in_range};

verus! {

/// Draws a random `usize`. Relies on `rand::random::<usize>`; nothing is known of the value.
#[verifier::external_body]
fn random_usize() -> (r: usize) {
    rand::random::<usize>()
}

/// An edge from `start` to `end` of weight `w`. An undirected edge is stored once per
/// direction, both copies with the endpoints as they were given.
#[derive(Clone, Copy, Debug)]
pub struct Edge<E> {
    pub start: usize,
    pub end: usize,
    pub w: E,
}

pub struct Graph<N, E> {
    adj: Vec<Vec<(usize, Edge<E>)>>,
    nodes: Vec<N>,
    edges: Vec<Edge<E>>,
    directed: bool,
    next_index: usize,
}

impl<N, E: Copy> Graph<N, E> {
    /// The nodes' data; node `i` is entry `i`.
    pub closed spec fn node_seq(&self) -> Seq<N> {
        self.nodes@
    }

    /// Whether `add_edge` also adds the reverse direction.
    pub closed spec fn is_directed(&self) -> bool {
        self.directed
    }

    /// The edges in the order `add_edge` received them.
    pub closed spec fn edge_seq(&self) -> Seq<Edge<E>> {
        self.edges@
    }

    /// The entries of node `u`'s neighbour map, in the order they were made.
    pub closed spec fn row(&self, u: int) -> Seq<(usize, Edge<E>)> {
        self.adj@[u]@
    }

    /// The edge stored from `u` towards `v`, if any.
    pub closed spec fn edge_to(&self, u: int, v: int) -> Option<Edge<E>> {
        if exists|k: int| 0 <= k < self.adj@[u]@.len() && (#[trigger] self.adj@[u]@[k]).0 == v {
            let k = choose|k: int| 0 <= k < self.adj@[u]@.len() && (#[trigger] self.adj@[u]@[k]).0 == v;
            Some(self.adj@[u]@[k].1)
        } else {
            None
        }
    }

    /// One neighbour map per node, neighbours inside the graph and each listed once.
    pub closed spec fn wf(&self) -> bool {
        &&& self.adj@.len() == self.nodes@.len()
        &&& self.next_index == self.nodes@.len()
        &&& forall|u: int, k: int|
            0 <= u < self.adj@.len() && 0 <= k < self.adj@[u]@.len() ==> (#[trigger] self.adj@[u]@[k]).0
                < self.nodes@.len()
        &&& forall|u: int, k1: int, k2: int|
            0 <= u < self.adj@.len() && 0 <= k1 < k2 < self.adj@[u]@.len() ==> (#[trigger] self.adj@[u]@[k1]).0
                != (#[trigger] self.adj@[u]@[k2]).0
    }

    /// Creates an empty graph; `d` says whether it is directed.
    pub fn new(d: bool) -> (g: Self)
        ensures
            g.wf(),
            g.node_seq() == Seq::<N>::empty(),
            g.edge_seq() == Seq::<Edge<E>>::empty(),
            g.is_directed() == d,
    {
        Graph { adj: Vec::new(), nodes: Vec::new(), edges: Vec::new(), directed: d, next_index: 0 }
    }

    /// The number of nodes.
    pub fn num_nodes(&self) -> (n: usize)
        requires
            self.wf(),
        ensures
            n == self.node_seq().len(),
    {
        self.nodes.len()
    }

    /// The position in `adj[u]` of neighbour `v`, if it is listed.
    fn find(&self, u: usize, v: usize) -> (r: Option<usize>)
        requires
            self.wf(),
            u < self.nodes@.len(),
        ensures
            match r {
                Some(k) => k < self.adj@[u as int]@.len() && self.adj@[u as int]@[k as int].0 == v
                    && self.edge_to(u as int, v as int) == Some(self.adj@[u as int]@[k as int].1),
                None => self.edge_to(u as int, v as int) is None,
            },
    {
        let row = &self.adj[u];
        let mut k: usize = 0;
        while k < row.len()
            invariant
                self.wf(),
                u < self.nodes@.len(),
                row@ == self.adj@[u as int]@,
                k <= row@.len(),
                forall|j: int| 0 <= j < k ==> (#[trigger] row@[j]).0 != v,
            decreases row@.len() - k,
        {
            if row[k].0 == v {
                proof {
                    let c = choose|c: int| 0 <= c < self.adj@[u as int]@.len() && (#[trigger] self.adj@[u as int]@[c]).0 == v;
                    if c != k {
                        if c < k {
                            assert(row@[c].0 != v);
                        } else {
                            assert(self.adj@[u as int]@[k as int].0 != self.adj@[u as int]@[c].0);
                        }
                    }
                }
                return Some(k);
            }
            k = k + 1;
        }
        None
    }

    /// Stores `e` as the edge from `u` towards `v`, replacing an earlier one.
    fn link(&mut self, u: usize, v: usize, e: Edge<E>)
        requires
            old(self).wf(),
            u < old(self).nodes@.len(),
            v < old(self).nodes@.len(),
        ensures
            final(self).wf(),
            final(self).nodes@ == old(self).nodes@,
            final(self).edges@ == old(self).edges@,
            final(self).directed == old(self).directed,
            final(self).next_index == old(self).next_index,
            final(self).edge_to(u as int, v as int) == Some(e),
            forall|a: int, b: int|
                0 <= a < old(self).nodes@.len() && (a != u || b != v) ==> #[trigger] final(self).edge_to(a, b)
                    == old(self).edge_to(a, b),
            final(self).adj@[u as int]@.len() == old(self).adj@[u as int]@.len() + (if old(self).edge_to(u as int, v as int) is None {
                1int
            } else {
                0int
            }),
            forall|x: int| 0 <= x < old(self).nodes@.len() && x != u ==> #[trigger] final(self).adj@[x] == old(self).adj@[x],
    {
        let ghost pre = *self;
        let found = self.find(u, v);
        let mut r: Vec<(usize, Edge<E>)> = Vec::new();
        self.adj.set_and_swap(u, &mut r);
        let ghost old_row = r@;
        match found {
            Some(k) => {
                r.set(k, (v, e));
            },
            None => {
                r.push((v, e));
            },
        }
        self.adj.set_and_swap(u, &mut r);
        proof {
            let nr = self.adj@[u as int]@;
            assert(forall|x: int| 0 <= x < pre.nodes@.len() && x != u ==> #[trigger] self.adj@[x] == pre.adj@[x]);
            assert forall|a: int, k1: int, k2: int|
                0 <= a < self.adj@.len() && 0 <= k1 < k2 < self.adj@[a]@.len() implies (#[trigger] self.adj@[a]@[k1]).0
                    != (#[trigger] self.adj@[a]@[k2]).0 by {
                if a == u {
                    if let Some(k) = found {
                        if k1 != k && k2 != k {
                            assert(old_row[k1] == nr[k1]);
                            assert(old_row[k2] == nr[k2]);
                        } else if k1 == k {
                            assert(old_row[k2] == nr[k2]);
                            assert(old_row[k1].0 != old_row[k2].0);
                        } else {
                            assert(old_row[k1] == nr[k1]);
                            assert(old_row[k1].0 != old_row[k2].0);
                        }
                    } else {
                        if k2 == old_row.len() {
                            assert(old_row[k1] == nr[k1]);
                            assert(old_row[k1].0 != v);
                        } else {
                            assert(old_row[k1] == nr[k1]);
                            assert(old_row[k2] == nr[k2]);
                        }
                    }
                }
            }
            let kv = match found {
                Some(k) => k as int,
                None => old_row.len() as int,
            };
            assert(nr[kv] == (v, e));
            assert(self.edge_to(u as int, v as int) == Some(e)) by {
                let c = choose|c: int| 0 <= c < nr.len() && (#[trigger] nr[c]).0 == v;
                if c != kv {
                    if c < kv {
                        assert(nr[c].0 != nr[kv].0);
                    } else {
                        assert(nr[kv].0 != nr[c].0);
                    }
                }
            }
            assert forall|a: int, b: int|
                0 <= a < pre.nodes@.len() && (a != u || b != v) implies #[trigger] self.edge_to(a, b)
                    == pre.edge_to(a, b) by {
                if a == u {
                    assert forall|k: int| 0 <= k < nr.len() && nr[k].0 == b implies k < old_row.len() && old_row[k] == nr[k] by {
                        if k == kv {
                            assert(nr[k].0 == v);
                        }
                    }
                    if exists|k: int| 0 <= k < old_row.len() && (#[trigger] old_row[k]).0 == b {
                        let k = choose|k: int| 0 <= k < old_row.len() && (#[trigger] old_row[k]).0 == b;
                        assert(k != kv);
                        assert(nr[k] == old_row[k]);
                    }
                }
            }
        }
    }

    /// The index the next added node gets: the first one not in use.
    fn get_next_index(&self) -> (i: usize)
        ensures
            i == self.node_seq().len(),
    {
        self.nodes.len()
    }

    /// Adds a node with data `data` and returns its index.
    pub fn add_node(&mut self, data: N) -> (i: usize)
        requires
            old(self).wf(),
        ensures
            final(self).wf(),
            i == old(self).node_seq().len(),
            final(self).node_seq() == old(self).node_seq().push(data),
            final(self).edge_seq() == old(self).edge_seq(),
            final(self).is_directed() == old(self).is_directed(),
            forall|u: int, v: int|
                0 <= u < old(self).node_seq().len() ==> #[trigger] final(self).edge_to(u, v) == old(self).edge_to(u, v),
            forall|v: int| #[trigger] final(self).edge_to(i as int, v) is None,
            final(self).row(i as int).len() == 0,
            forall|u: int| 0 <= u < old(self).node_seq().len() ==> #[trigger] final(self).row(u) == old(self).row(u),
    {
        let ghost pre = *self;
        let index = self.next_index;
        self.nodes.push(data);
        self.adj.push(Vec::new());
        proof {
            assert forall|u: int, v: int|
                0 <= u < pre.nodes@.len() implies #[trigger] self.edge_to(u, v) == pre.edge_to(u, v) by {
                assert(self.adj@[u] == pre.adj@[u]);
            }
            assert forall|u: int| 0 <= u < pre.nodes@.len() implies #[trigger] self.row(u) == pre.row(u) by {
                assert(self.adj@[u] == pre.adj@[u]);
            }
        }
        self.next_index = self.get_next_index();
        index
    }

    /// Adds an edge of weight `weight` from `start` to `end`, and in an undirected graph
    /// also from `end` to `start`; an earlier edge between them in that direction is replaced.
    pub fn add_edge(&mut self, start: usize, end: usize, weight: E)
        requires
            old(self).wf(),
            start < old(self).node_seq().len(),
            end < old(self).node_seq().len(),
        ensures
            final(self).wf(),
            final(self).node_seq() == old(self).node_seq(),
            final(self).is_directed() == old(self).is_directed(),
            final(self).edge_seq() == old(self).edge_seq().push(Edge { start, end, w: weight }),
            final(self).edge_to(start as int, end as int) == Some(Edge { start, end, w: weight }),
            !old(self).is_directed() ==> final(self).edge_to(end as int, start as int) == Some(Edge { start, end, w: weight }),
            forall|a: int, b: int|
                0 <= a < old(self).node_seq().len() && (a != start || b != end) && (old(self).is_directed() || a != end || b != start)
                    ==> #[trigger] final(self).edge_to(a, b) == old(self).edge_to(a, b),
            forall|a: int|
                0 <= a < old(self).node_seq().len() ==> #[trigger] final(self).row(a).len() == old(self).row(a).len() + (if a
                    == start && old(self).edge_to(start as int, end as int) is None {
                    1int
                } else {
                    0int
                }) + (if !old(self).is_directed() && start != end && a == end && old(self).edge_to(end as int, start as int)
                    is None {
                    1int
                } else {
                    0int
                }),
    {
        let ghost pre = *self;
        let e = Edge { start: start, end: end, w: weight };
        self.link(start, end, e);
        let ghost one = *self;
        if !self.directed {
            self.link(end, start, e);
        }
        let ghost two = *self;
        self.edges.push(e);
        proof {
            assert(self.adj@ == two.adj@);
            assert forall|a: int|
                0 <= a < pre.nodes@.len() implies #[trigger] self.row(a).len() == pre.row(a).len() + (if a == start
                    && pre.edge_to(start as int, end as int) is None {
                    1int
                } else {
                    0int
                }) + (if !pre.directed && start != end && a == end && pre.edge_to(end as int, start as int) is None {
                    1int
                } else {
                    0int
                }) by {
                if !pre.directed && start != end {
                    assert(one.edge_to(end as int, start as int) == pre.edge_to(end as int, start as int));
                }
            }
            assert forall|a: int, b: int|
                0 <= a < pre.nodes@.len() && (a != start || b != end) && (pre.directed || a != end || b != start)
                    implies #[trigger] self.edge_to(a, b) == pre.edge_to(a, b) by {
                assert(self.edge_to(a, b) == two.edge_to(a, b));
                assert(one.edge_to(a, b) == pre.edge_to(a, b));
            }
            assert(self.edge_to(start as int, end as int) == two.edge_to(start as int, end as int));
            if !pre.directed {
                assert(self.edge_to(end as int, start as int) == two.edge_to(end as int, start as int));
                if start != end {
                    assert(two.edge_to(start as int, end as int) == one.edge_to(start as int, end as int));
                }
            }
        }
    }

    /// The data of node `node_index`.
    pub fn get_node_data(&self, node_index: usize) -> (r: &N)
        requires
            node_index < self.node_seq().len(),
        ensures
            *r == self.node_seq()[node_index as int],
    {
        &self.nodes[node_index]
    }

    /// Whether an edge is stored from `start` towards `end`.
    pub fn has_edge(&self, start: usize, end: usize) -> (r: bool)
        requires
            self.wf(),
            start < self.node_seq().len(),
        ensures
            r == self.edge_to(start as int, end as int) is Some,
    {
        self.find(start, end).is_some()
    }

    /// The weight of the edge stored from `start` towards `end`, which must exist.
    pub fn get_edge_weight(&self, start: usize, end: usize) -> (w: E)
        requires
            self.wf(),
            start < self.node_seq().len(),
            self.edge_to(start as int, end as int) is Some,
        ensures
            w == self.edge_to(start as int, end as int)->Some_0.w,
    {
        let k = self.find(start, end).unwrap();
        self.adj[start][k].1.w
    }

    /// The nodes' data, by index.
    pub fn get_nodes(&self) -> (r: &Vec<N>)
        ensures
            r@ == self.node_seq(),
    {
        &self.nodes
    }

    /// The edges in the order they were added.
    pub fn get_edges(&self) -> (r: &Vec<Edge<E>>)
        ensures
            r@ == self.edge_seq(),
    {
        &self.edges
    }

    /// The neighbour map of `node_index`: each neighbour with the edge stored towards it.
    pub fn get_neighbors(&self, node_index: usize) -> (r: &Vec<(usize, Edge<E>)>)
        requires
            self.wf(),
            node_index < self.node_seq().len(),
        ensures
            r@ == self.row(node_index as int),
            forall|k: int| 0 <= k < r@.len() ==> self.edge_to(node_index as int, (#[trigger] r@[k]).0 as int) == Some(r@[k].1),
            forall|v: int| #[trigger] self.edge_to(node_index as int, v) is Some ==> exists|k: int| 0 <= k < r@.len() && r@[k].0 == v,
    {
        let r = &self.adj[node_index];
        proof {
            assert forall|k: int| 0 <= k < r@.len() implies self.edge_to(node_index as int, (#[trigger] r@[k]).0 as int) == Some(r@[k].1) by {
                let v = r@[k].0 as int;
                let c = choose|c: int| 0 <= c < r@.len() && (#[trigger] r@[c]).0 == v;
                if c != k {
                    if c < k {
                        assert(r@[c].0 != r@[k].0);
                    } else {
                        assert(r@[k].0 != r@[c].0);
                    }
                }
            }
        }
        r
    }

    /// A node picked at random.
    pub fn random_node(&self) -> (r: usize)
        requires
            self.wf(),
            self.node_seq().len() > 0,
        ensures
            r < self.node_seq().len(),
    {
        random_usize() % self.nodes.len()
    }

    /// How many entries all neighbour maps hold together.
    pub open spec fn entry_count(&self) -> nat {
        entries(Seq::new(self.node_seq().len(), |u: int| self.row(u).len()), self.node_seq().len() as int)
    }

    /// The number of entries in all neighbour maps (at most `usize::MAX`), halved in an
    /// undirected graph, where each edge is stored in both directions.
    pub fn num_edges(&self) -> (n: usize)
        requires
            self.wf(),
        ensures
            self.is_directed() ==> n == capped(self.entry_count()),
            !self.is_directed() ==> n == capped(self.entry_count()) / 2,
    {
        let ghost lens = self.adj@.map_values(|r: Vec<(usize, Edge<E>)>| r@.len());
        let mut length: usize = 0;
        let mut u: usize = 0;
        while u < self.adj.len()
            invariant
                lens == self.adj@.map_values(|r: Vec<(usize, Edge<E>)>| r@.len()),
                u <= self.adj@.len(),
                length == capped(entries(lens, u as int)),
            decreases self.adj@.len() - u,
        {
            let l = self.adj[u].len();
            assert(lens[u as int] == l);
            length = if l > usize::MAX - length { usize::MAX } else { length + l };
            u = u + 1;
        }
        assert(lens =~= Seq::new(self.node_seq().len(), |u: int| self.row(u).len()));
        if !self.directed {
            length = length / 2;
        }
        length
    }
}

/// `x`, or `usize::MAX` where `x` is larger.
pub open spec fn capped(x: nat) -> nat {
    if x > usize::MAX { usize::MAX as nat } else { x }
}

/// The number of entries in the first `k` neighbour maps, given their lengths.
pub open spec fn entries(lens: Seq<nat>, k: int) -> nat
    decreases k,
{
    if k <= 0 {
        0
    } else {
        entries(lens, k - 1) + lens[k - 1]
    }
}

impl<N> Graph<N, usize> {
    /// The graph with each stored edge read as a weighted edge: entry `u` lists the pairs
    /// `(v, w)` of `u`'s neighbour map, by increasing `v`.
    pub open spec fn weighted(&self) -> Seq<Seq<(usize, usize)>> {
        Seq::new(self.node_seq().len(), |u: int| self.weighted_row(u, self.node_seq().len() as int))
    }

    /// The pairs `(v, w)` of the edges stored from `u` towards the nodes `v` below `k`.
    pub open spec fn weighted_row(&self, u: int, k: int) -> Seq<(usize, usize)>
        decreases k,
    {
        if k <= 0 {
            Seq::empty()
        } else {
            let r = self.weighted_row(u, k - 1);
            match self.edge_to(u, k - 1) {
                Some(e) => r.push(((k - 1) as usize, e.w)),
                None => r,
            }
        }
    }

    /// Every entry of a weighted row names a node below `k` towards which an edge is stored.
    proof fn lemma_row_entries(&self, u: int, k: int)
        ensures
            forall|j: int|
                0 <= j < self.weighted_row(u, k).len() ==> (#[trigger] self.weighted_row(u, k)[j]).0 < k
                    && self.edge_to(u, self.weighted_row(u, k)[j].0 as int) is Some,
        decreases k,
    {
        if k > 0 {
            self.lemma_row_entries(u, k - 1);
        }
    }

    fn weighted_lists(&self) -> (adj: Vec<Vec<(usize, usize)>>)
        requires
            self.wf(),
        ensures
            graph_of(adj@) == self.weighted(),
            targets_in_range(graph_of(adj@)),
            adj@.len() == self.nodes@.len(),
    {
        let n = self.nodes.len();
        let mut adj: Vec<Vec<(usize, usize)>> = Vec::new();
        let mut u: usize = 0;
        while u < n
            invariant
                self.wf(),
                n == self.nodes@.len(),
                u <= n,
                adj@.len() == u,
                forall|x: int| 0 <= x < u ==> (#[trigger] adj@[x])@ == self.weighted()[x],
            decreases n - u,
        {
            let mut out: Vec<(usize, usize)> = Vec::new();
            let mut v: usize = 0;
            while v < n
                invariant
                    self.wf(),
                    n == self.nodes@.len(),
                    u < n,
                    v <= n,
                    out@ == self.weighted_row(u as int, v as int),
                decreases n - v,
            {
                match self.find(u, v) {
                    Some(k) => {
                        out.push((v, self.adj[u][k].1.w));
                    },
                    None => {},
                }
                v = v + 1;
            }
            adj.push(out);
            u = u + 1;
        }
        assert(graph_of(adj@) =~= self.weighted());
        assert forall|x: int, k: int|
            0 <= x < graph_of(adj@).len() && 0 <= k < graph_of(adj@)[x].len() implies (#[trigger] graph_of(adj@)[x][k]).0
                < graph_of(adj@).len() by {
            self.lemma_row_entries(x, n as int);
        }
        adj
    }
}

/// `tree` lists, by increasing child `vs[i]`, the stored edge from the parent of each vertex
/// that has one in `parent`, a tree that Prim's algorithm grew from `root`.
pub open spec fn prim_listing<N>(
    g: Graph<N, usize>,
    root: int,
    parent: Seq<Option<usize>>,
    vs: Seq<int>,
    tree: Seq<Edge<usize>>,
) -> bool {
    &&& 0 <= root < g.node_seq().len()
    &&& grown_tree(g.weighted(), root, parent)
    &&& vs.len() == tree.len()
    &&& forall|i: int|
        0 <= i < vs.len() ==> {
            &&& 0 <= #[trigger] vs[i] < g.node_seq().len()
            &&& parent[vs[i]] is Some
            &&& g.edge_to(parent[vs[i]]->Some_0 as int, vs[i]) == Some(tree[i])
        }
    &&& forall|a: int, b: int| 0 <= a < b < vs.len() ==> vs[a] < vs[b]
    &&& forall|v: int| 0 <= v < g.node_seq().len() && (#[trigger] parent[v]) is Some ==> vs.contains(v)
}

/// Prim's algorithm from a node picked at random: the stored edges that join each other
/// reached node to its parent in the tree, by increasing node index.
pub fn prim<N>(g: &Graph<N, usize>) -> (tree: Vec<Edge<usize>>)
    requires
        g.wf(),
    ensures
        g.node_seq().len() == 0 ==> tree@.len() == 0,
        g.node_seq().len() > 0 ==> exists|root: int, parent: Seq<Option<usize>>, vs: Seq<int>|
            #[trigger] prim_listing(*g, root, parent, vs, tree@),
{
    let n = g.nodes.len();
    if n == 0 {
        return Vec::new();
    }
    let root = g.random_node();
    let adj = g.weighted_lists();
    let parent = grow_tree(&adj, root);
    let mut tree: Vec<Edge<usize>> = Vec::new();
    let ghost mut vs: Seq<int> = Seq::empty();
    let mut v: usize = 0;
    while v < n
        invariant
            g.wf(),
            n == g.nodes@.len(),
            root < n,
            parent@.len() == n,
            grown_tree(g.weighted(), root as int, parent@),
            v <= n,
            vs.len() == tree@.len(),
            forall|i: int|
                0 <= i < vs.len() ==> {
                    &&& 0 <= #[trigger] vs[i] < v
                    &&& parent@[vs[i]] is Some
                    &&& g.edge_to(parent@[vs[i]]->Some_0 as int, vs[i]) == Some(tree@[i])
                },
            forall|a: int, b: int| 0 <= a < b < vs.len() ==> vs[a] < vs[b],
            forall|x: int| 0 <= x < v && (#[trigger] parent@[x]) is Some ==> vs.contains(x),
        decreases n - v,
    {
        match parent[v] {
            Some(p) => {
                proof {
                    let k = choose|k: int| 0 <= k < g.weighted()[p as int].len() && (#[trigger] g.weighted()[p as int][k]).0 == v;
                    g.lemma_row_entries(p as int, n as int);
                    assert(g.weighted()[p as int][k] == g.weighted_row(p as int, n as int)[k]);
                    assert(g.edge_to(p as int, v as int) is Some);
                }
                let k = g.find(p, v).unwrap();
                let e = g.adj[p][k].1;
                let ghost vb = vs;
                tree.push(e);
                proof {
                    vs = vs.push(v as int);
                    assert forall|x: int| 0 <= x < v + 1 && (#[trigger] parent@[x]) is Some implies vs.contains(x) by {
                        if x < v {
                            let c = choose|c: int| 0 <= c < vb.len() && vb[c] == x;
                            assert(vs[c] == x);
                        } else {
                            assert(vs[vb.len() as int] == x);
                        }
                    }
                }
            },
            None => {
                proof {
                    assert forall|x: int| 0 <= x < v + 1 && (#[trigger] parent@[x]) is Some implies vs.contains(x) by {}
                }
            },
        }
        v = v + 1;
    }
    assert(prim_listing(*g, root as int, parent@, vs, tree@));
    tree
}

} // verus!
