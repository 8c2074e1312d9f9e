//! A graph whose edges carry data stored in one list: each vertex maps each neighbour to the
//! index of the edge's data.
use vstd::prelude::*;
use crate::engine::{prim, grown_tree, graph_of, targets_in_range};

verus! {

pub struct Graph<V, E> {
    vertices: Vec<V>,
    edges: Vec<Vec<(usize, usize)>>,
    /// The data of every edge, in the order the edges were added.
    pub edge_data: Vec<E>,
}

impl<V, E> Graph<V, E> {
    /// The vertices' data; vertex `i` is entry `i`.
    pub closed spec fn vertex_seq(&self) -> Seq<V> {
        self.vertices@
    }

    /// The data of every edge, in the order the edges were added.
    pub closed spec fn edge_seq(&self) -> Seq<E> {
        self.edge_data@
    }

    /// The index into `edge_data` of the edge from `u` to `v`, if there is one.
    pub closed spec fn edge_index(&self, u: int, v: int) -> Option<int> {
        if exists|k: int| 0 <= k < self.edges@[u]@.len() && (#[trigger] self.edges@[u]@[k]).0 == v {
            let k = choose|k: int| 0 <= k < self.edges@[u]@.len() && (#[trigger] self.edges@[u]@[k]).0 == v;
            Some(self.edges@[u]@[k].1 as int)
        } else {
            None
        }
    }

    /// One neighbour list per vertex, neighbours inside the graph and listed once each, and
    /// edge indices inside `edge_data`.
    pub closed spec fn wf(&self) -> bool {
        &&& self.edges@.len() == self.vertices@.len()
        &&& forall|u: int, k: int|
            0 <= u < self.edges@.len() && 0 <= k < self.edges@[u]@.len() ==> {
                &&& (#[trigger] self.edges@[u]@[k]).0 < self.vertices@.len()
                &&& self.edges@[u]@[k].1 < self.edge_seq().len()
            }
        &&& forall|u: int, k1: int, k2: int|
            0 <= u < self.edges@.len() && 0 <= k1 < k2 < self.edges@[u]@.len() ==> (#[trigger] self.edges@[u]@[k1]).0
                != (#[trigger] self.edges@[u]@[k2]).0
    }

    /// Creates a graph with no vertex and no edge.
    pub fn new() -> (g: Self)
        ensures
            g.wf(),
            g.vertex_seq() == Seq::<V>::empty(),
            g.edge_seq() == Seq::<E>::empty(),
    {
        Graph { vertices: Vec::new(), edges: Vec::new(), edge_data: Vec::new() }
    }

    /// Adds a vertex without edges and returns its index.
    pub fn add_vertex(&mut self, vertex: V) -> (i: usize)
        requires
            old(self).wf(),
        ensures
            final(self).wf(),
            i == old(self).vertex_seq().len(),
            final(self).vertex_seq() == old(self).vertex_seq().push(vertex),
            final(self).edge_seq() == old(self).edge_seq(),
            forall|u: int, v: int|
                0 <= u < old(self).vertex_seq().len() ==> #[trigger] final(self).edge_index(u, v) == old(self).edge_index(u, v),
            forall|v: int| #[trigger] final(self).edge_index(i as int, v) is None,
    {
        let ghost pre = *self;
        self.vertices.push(vertex);
        self.edges.push(Vec::new());
        proof {
            assert forall|u: int, v: int|
                0 <= u < pre.vertices@.len() implies #[trigger] self.edge_index(u, v) == pre.edge_index(u, v) by {
                assert(self.edges@[u] == pre.edges@[u]);
            }
        }
        self.vertices.len() - 1
    }

    /// The position in `edges[u]` of neighbour `v`, if it is listed.
    fn find(&self, u: usize, v: usize) -> (r: Option<usize>)
        requires
            self.wf(),
            u < self.vertices@.len(),
        ensures
            match r {
                Some(k) => k < self.edges@[u as int]@.len() && self.edges@[u as int]@[k as int].0 == v
                    && self.edge_index(u as int, v as int) == Some(self.edges@[u as int]@[k as int].1 as int),
                None => self.edge_index(u as int, v as int) is None,
            },
    {
        let row = &self.edges[u];
        let mut k: usize = 0;
        while k < row.len()
            invariant
                self.wf(),
                u < self.vertices@.len(),
                row@ == self.edges@[u as int]@,
                k <= row@.len(),
                forall|j: int| 0 <= j < k ==> (#[trigger] row@[j]).0 != v,
            decreases row@.len() - k,
        {
            if row[k].0 == v {
                proof {
                    let c = choose|c: int| 0 <= c < self.edges@[u as int]@.len() && (#[trigger] self.edges@[u as int]@[c]).0 == v;
                    if c != k {
                        if c < k {
                            assert(row@[c].0 != v);
                        } else {
                            assert(self.edges@[u as int]@[k as int].0 != self.edges@[u as int]@[c].0);
                        }
                    }
                }
                return Some(k);
            }
            k = k + 1;
        }
        None
    }

    /// Points the edge from `u` to `v` at edge index `e`, replacing an earlier one.
    fn link(&mut self, u: usize, v: usize, e: usize)
        requires
            old(self).wf(),
            u < old(self).vertices@.len(),
            v < old(self).vertices@.len(),
            e < old(self).edge_seq().len(),
        ensures
            final(self).wf(),
            final(self).vertices@ == old(self).vertices@,
            final(self).edge_seq() == old(self).edge_seq(),
            final(self).edge_index(u as int, v as int) == Some(e as int),
            forall|a: int, b: int|
                0 <= a < old(self).vertices@.len() && (a != u || b != v) ==> #[trigger] final(self).edge_index(a, b)
                    == old(self).edge_index(a, b),
    {
        let ghost pre = *self;
        let found = self.find(u, v);
        let mut row: Vec<usize> = Vec::new();
        let mut r: Vec<(usize, usize)> = Vec::new();
        self.edges.set_and_swap(u, &mut r);
        let ghost old_row = r@;
        match found {
            Some(k) => {
                r.set(k, (v, e));
            },
            None => {
                r.push((v, e));
            },
        }
        self.edges.set_and_swap(u, &mut r);
        proof {
            let nr = self.edges@[u as int]@;
            assert(forall|x: int| 0 <= x < pre.vertices@.len() && x != u ==> #[trigger] self.edges@[x] == pre.edges@[x]);
            assert forall|a: int, k1: int, k2: int|
                0 <= a < self.edges@.len() && 0 <= k1 < k2 < self.edges@[a]@.len() implies (#[trigger] self.edges@[a]@[k1]).0
                    != (#[trigger] self.edges@[a]@[k2]).0 by {
                if a == u {
                    if let Some(k) = found {
                        if k1 != k && k2 != k {
                            assert(old_row[k1] == nr[k1]);
                            assert(old_row[k2] == nr[k2]);
                        } else if k1 == k {
                            assert(old_row[k2] == nr[k2]);
                            assert(old_row[k1].0 != old_row[k2].0);
                        } else {
                            assert(old_row[k1] == nr[k1]);
                            assert(old_row[k1].0 != old_row[k2].0);
                        }
                    } else {
                        if k2 == old_row.len() {
                            assert(old_row[k1] == nr[k1]);
                            assert(old_row[k1].0 != v);
                        } else {
                            assert(old_row[k1] == nr[k1]);
                            assert(old_row[k2] == nr[k2]);
                        }
                    }
                }
            }
            let kv = match found {
                Some(k) => k as int,
                None => old_row.len() as int,
            };
            assert(nr[kv] == (v, e));
            assert(self.edge_index(u as int, v as int) == Some(e as int)) by {
                let c = choose|c: int| 0 <= c < nr.len() && (#[trigger] nr[c]).0 == v;
                if c != kv {
                    if c < kv {
                        assert(nr[c].0 != nr[kv].0);
                    } else {
                        assert(nr[kv].0 != nr[c].0);
                    }
                }
            }
            assert forall|a: int, b: int|
                0 <= a < pre.vertices@.len() && (a != u || b != v) implies #[trigger] self.edge_index(a, b)
                    == pre.edge_index(a, b) by {
                if a == u {
                    assert forall|k: int| 0 <= k < nr.len() && nr[k].0 == b implies k < old_row.len() && old_row[k] == nr[k] by {
                        if k == kv {
                            assert(nr[k].0 == v);
                        }
                    }
                    if exists|k: int| 0 <= k < old_row.len() && (#[trigger] old_row[k]).0 == b {
                        let k = choose|k: int| 0 <= k < old_row.len() && (#[trigger] old_row[k]).0 == b;
                        assert(k != kv);
                        assert(nr[k] == old_row[k]);
                    }
                }
            }
        }
    }

    /// Adds a directed edge from `u` to `v` whose data is `data`; an earlier edge from `u` to
    /// `v` is replaced, its data kept in `edge_data`.
    pub fn add_dir_edge(&mut self, data: E, u: usize, v: usize)
        requires
            old(self).wf(),
            u < old(self).vertex_seq().len(),
            v < old(self).vertex_seq().len(),
        ensures
            final(self).wf(),
            final(self).vertex_seq() == old(self).vertex_seq(),
            final(self).edge_seq() == old(self).edge_seq().push(data),
            final(self).edge_index(u as int, v as int) == Some(old(self).edge_seq().len() as int),
            forall|a: int, b: int|
                0 <= a < old(self).vertex_seq().len() && (a != u || b != v) ==> #[trigger] final(self).edge_index(a, b)
                    == old(self).edge_index(a, b),
    {
        let ghost pre = *self;
        let e = self.edge_data.len();
        self.edge_data.push(data);
        proof {
            assert forall|a: int, b: int| 0 <= a < pre.vertices@.len() implies #[trigger] self.edge_index(a, b) == pre.edge_index(a, b) by {
                assert(self.edges@[a] == pre.edges@[a]);
            }
        }
        self.link(u, v, e);
    }

    /// Adds an undirected edge between `u` and `v` whose data is `data`: both directions
    /// share one entry of `edge_data`.
    pub fn add_edge(&mut self, data: E, u: usize, v: usize)
        requires
            old(self).wf(),
            u < old(self).vertex_seq().len(),
            v < old(self).vertex_seq().len(),
        ensures
            final(self).wf(),
            final(self).vertex_seq() == old(self).vertex_seq(),
            final(self).edge_seq() == old(self).edge_seq().push(data),
            final(self).edge_index(u as int, v as int) == Some(old(self).edge_seq().len() as int),
            final(self).edge_index(v as int, u as int) == Some(old(self).edge_seq().len() as int),
            forall|a: int, b: int|
                0 <= a < old(self).vertex_seq().len() && (a != u || b != v) && (a != v || b != u)
                    ==> #[trigger] final(self).edge_index(a, b) == old(self).edge_index(a, b),
    {
        let ghost pre = *self;
        let e = self.edge_data.len();
        self.edge_data.push(data);
        proof {
            assert forall|a: int, b: int| 0 <= a < pre.vertices@.len() implies #[trigger] self.edge_index(a, b) == pre.edge_index(a, b) by {
                assert(self.edges@[a] == pre.edges@[a]);
            }
        }
        self.link(u, v, e);
        self.link(v, u, e);
    }

    /// The vertices' data.
    pub fn get_vertices(&self) -> (r: &Vec<V>)
        ensures
            r@ == self.vertex_seq(),
    {
        &self.vertices
    }

    /// The data of vertex `v`.
    pub fn get_vertex(&self, v: usize) -> (r: &V)
        requires
            v < self.vertex_seq().len(),
        ensures
            *r == self.vertex_seq()[v as int],
    {
        &self.vertices[v]
    }

    /// The index into `edge_data` of the edge from `u` to `v`.
    pub fn get_edge_ind(&self, u: usize, v: usize) -> (r: Option<usize>)
        requires
            self.wf(),
            u < self.vertex_seq().len(),
        ensures
            r matches Some(e) ==> self.edge_index(u as int, v as int) == Some(e as int),
            r is None <==> self.edge_index(u as int, v as int) is None,
    {
        match self.find(u, v) {
            Some(k) => Some(self.edges[u][k].1),
            None => None,
        }
    }

    /// The data of the edge from `u` to `v`.
    pub fn get_edge(&self, u: usize, v: usize) -> (r: Option<&E>)
        requires
            self.wf(),
            u < self.vertex_seq().len(),
        ensures
            r matches Some(d) ==> exists|e: int| self.edge_index(u as int, v as int) == Some(e) && *d == self.edge_seq()[e],
            r is None <==> self.edge_index(u as int, v as int) is None,
    {
        match self.find(u, v) {
            Some(k) => Some(&self.edge_data[self.edges[u][k].1]),
            None => None,
        }
    }

    /// The vertices that an edge from `u` reaches, each once.
    pub fn get_neighbors(&self, u: usize) -> (r: Vec<usize>)
        requires
            self.wf(),
            u < self.vertex_seq().len(),
        ensures
            forall|v: int| r@.contains(v as usize) && 0 <= v <= usize::MAX <==> #[trigger] self.edge_index(u as int, v) is Some,
            forall|a: int, b: int| 0 <= a < b < r@.len() ==> r@[a] != r@[b],
    {
        let row = &self.edges[u];
        let mut r: Vec<usize> = Vec::new();
        let mut k: usize = 0;
        while k < row.len()
            invariant
                self.wf(),
                u < self.vertices@.len(),
                row@ == self.edges@[u as int]@,
                k <= row@.len(),
                r@.len() == k,
                forall|j: int| 0 <= j < k ==> #[trigger] r@[j] == row@[j].0,
            decreases row@.len() - k,
        {
            r.push(row[k].0);
            k = k + 1;
        }
        proof {
            assert forall|v: int| r@.contains(v as usize) && 0 <= v <= usize::MAX <==> #[trigger] self.edge_index(u as int, v) is Some by {
                if self.edge_index(u as int, v) is Some {
                    let c = choose|c: int| 0 <= c < row@.len() && (#[trigger] row@[c]).0 == v;
                    assert(r@[c] == v as usize);
                }
                if r@.contains(v as usize) && 0 <= v <= usize::MAX {
                    let c = choose|c: int| 0 <= c < r@.len() && r@[c] == v as usize;
                    assert(row@[c].0 == v);
                }
            }
            assert forall|a: int, b: int| 0 <= a < b < r@.len() implies r@[a] != r@[b] by {
                assert(row@[a].0 != row@[b].0);
            }
        }
        r
    }
}

impl<V> Graph<V, usize> {
    /// The graph with each edge's data read as its weight: entry `u` lists the pairs
    /// `(v, w)` of the edges out of `u`, by increasing `v`.
    pub open spec fn weighted(&self) -> Seq<Seq<(usize, usize)>> {
        Seq::new(self.vertex_seq().len(), |u: int| self.weighted_row(u, self.vertex_seq().len() as int))
    }

    /// The pairs `(v, w)` of the edges from `u` to the vertices `v` below `k`.
    pub open spec fn weighted_row(&self, u: int, k: int) -> Seq<(usize, usize)>
        decreases k,
    {
        if k <= 0 {
            Seq::empty()
        } else {
            let r = self.weighted_row(u, k - 1);
            match self.edge_index(u, k - 1) {
                Some(e) => r.push(((k - 1) as usize, self.edge_seq()[e])),
                None => r,
            }
        }
    }

    /// Every entry of a weighted row names a vertex below `k` that an edge from `u` reaches.
    proof fn lemma_row_entries(&self, u: int, k: int)
        ensures
            forall|j: int|
                0 <= j < self.weighted_row(u, k).len() ==> (#[trigger] self.weighted_row(u, k)[j]).0 < k
                    && self.edge_index(u, self.weighted_row(u, k)[j].0 as int) is Some,
        decreases k,
    {
        if k > 0 {
            self.lemma_row_entries(u, k - 1);
        }
    }

    /// The weighted adjacency lists, built for the shortest-path and tree algorithms.
    fn weighted_lists(&self) -> (adj: Vec<Vec<(usize, usize)>>)
        requires
            self.wf(),
        ensures
            graph_of(adj@) == self.weighted(),
            targets_in_range(graph_of(adj@)),
            adj@.len() == self.vertices@.len(),
    {
        let n = self.vertices.len();
        let mut adj: Vec<Vec<(usize, usize)>> = Vec::new();
        let mut u: usize = 0;
        while u < n
            invariant
                self.wf(),
                n == self.vertices@.len(),
                u <= n,
                adj@.len() == u,
                forall|x: int| 0 <= x < u ==> (#[trigger] adj@[x])@ == self.weighted()[x],
            decreases n - u,
        {
            let mut out: Vec<(usize, usize)> = Vec::new();
            let mut v: usize = 0;
            while v < n
                invariant
                    self.wf(),
                    n == self.vertices@.len(),
                    u < n,
                    v <= n,
                    out@ == self.weighted_row(u as int, v as int),
                decreases n - v,
            {
                match self.get_edge_ind(u, v) {
                    Some(e) => {
                        assert(e < self.edge_data@.len()) by {
                            let c = choose|c: int| 0 <= c < self.edges@[u as int]@.len() && (#[trigger] self.edges@[u as int]@[c]).0 == v;
                        }
                        out.push((v, self.edge_data[e]));
                    },
                    None => {},
                }
                v = v + 1;
            }
            adj.push(out);
            u = u + 1;
        }
        assert(graph_of(adj@) =~= self.weighted());
        assert forall|x: int, k: int|
            0 <= x < graph_of(adj@).len() && 0 <= k < graph_of(adj@)[x].len() implies (#[trigger] graph_of(adj@)[x][k]).0
                < graph_of(adj@).len() by {
            self.lemma_row_entries(x, n as int);
        }
        adj
    }
}

/// A minimum spanning tree by Prim's algorithm, grown from vertex 0 over the edges' weights:
/// the indices into `edge_data` of the tree's edges, in increasing order.
pub fn mst<V>(g: Graph<V, usize>) -> (tree: Vec<usize>)
    requires
        g.wf(),
    ensures
        forall|a: int, b: int| 0 <= a < b < tree@.len() ==> tree@[a] < tree@[b],
        g.vertex_seq().len() == 0 ==> tree@.len() == 0,
        g.vertex_seq().len() > 0 ==> exists|parent: Seq<Option<usize>>| {
            &&& grown_tree(g.weighted(), 0, parent)
            &&& forall|i: usize|
                #[trigger] tree@.contains(i) <==> exists|v: int|
                    0 <= v < parent.len() && (#[trigger] parent[v]) is Some && g.edge_index(
                        parent[v]->Some_0 as int,
                        v,
                    ) == Some(i as int)
        },
{
    let n = g.vertices.len();
    if n == 0 {
        return Vec::new();
    }
    let adj = g.weighted_lists();
    let parent = prim(&adj, 0);
    let m = g.edge_data.len();
    let mut used: Vec<bool> = Vec::new();
    let mut i: usize = 0;
    while i < m
        invariant
            i <= m,
            used@.len() == i,
            forall|j: int| 0 <= j < i ==> !#[trigger] used@[j],
        decreases m - i,
    {
        used.push(false);
        i = i + 1;
    }
    let mut v: usize = 0;
    while v < n
        invariant
            g.wf(),
            n == g.vertices@.len(),
            m == g.edge_data@.len(),
            parent@.len() == n,
            grown_tree(g.weighted(), 0, parent@),
            v <= n,
            used@.len() == m,
            forall|j: int|
                0 <= j < m ==> (#[trigger] used@[j] <==> exists|x: int|
                    0 <= x < v && (#[trigger] parent@[x]) is Some && g.edge_index(parent@[x]->Some_0 as int, x) == Some(j)),
        decreases n - v,
    {
        match parent[v] {
            Some(p) => {
                proof {
                    let k = choose|k: int| 0 <= k < g.weighted()[p as int].len() && (#[trigger] g.weighted()[p as int][k]).0 == v;
                    g.lemma_row_entries(p as int, n as int);
                    assert(g.weighted()[p as int][k] == g.weighted_row(p as int, n as int)[k]);
                    assert(g.edge_index(p as int, v as int) is Some);
                }
                match g.get_edge_ind(p, v) {
                    Some(e) => {
                        proof {
                            assert(g.edges@[p as int]@.len() > 0);
                        }
                        let ghost before = used@;
                        assert(e < m) by {
                            let c = choose|c: int| 0 <= c < g.edges@[p as int]@.len() && (#[trigger] g.edges@[p as int]@[c]).0 == v;
                        }
                        used.set(e, true);
                        proof {
                            assert forall|j: int|
                                0 <= j < m implies (#[trigger] used@[j] <==> exists|x: int|
                                    0 <= x < v + 1 && (#[trigger] parent@[x]) is Some && g.edge_index(parent@[x]->Some_0 as int, x) == Some(j)) by {
                                if j != e {
                                    assert(before[j] == used@[j]);
                                    if exists|x: int| 0 <= x < v + 1 && (#[trigger] parent@[x]) is Some && g.edge_index(parent@[x]->Some_0 as int, x) == Some(j) {
                                        let x = choose|x: int| 0 <= x < v + 1 && (#[trigger] parent@[x]) is Some && g.edge_index(parent@[x]->Some_0 as int, x) == Some(j);
                                        assert(x != v);
                                    }
                                }
                            }
                        }
                    },
                    None => {},
                }
            },
            None => {
                proof {
                    assert forall|j: int|
                        0 <= j < m implies (#[trigger] used@[j] <==> exists|x: int|
                            0 <= x < v + 1 && (#[trigger] parent@[x]) is Some && g.edge_index(parent@[x]->Some_0 as int, x) == Some(j)) by {
                        if exists|x: int| 0 <= x < v + 1 && (#[trigger] parent@[x]) is Some && g.edge_index(parent@[x]->Some_0 as int, x) == Some(j) {
                            let x = choose|x: int| 0 <= x < v + 1 && (#[trigger] parent@[x]) is Some && g.edge_index(parent@[x]->Some_0 as int, x) == Some(j);
                            assert(x != v);
                        }
                    }
                }
            },
        }
        v = v + 1;
    }
    let mut tree: Vec<usize> = Vec::new();
    let mut j: usize = 0;
    while j < m
        invariant
            j <= m,
            used@.len() == m,
            forall|a: int, b: int| 0 <= a < b < tree@.len() ==> tree@[a] < tree@[b],
            forall|a: int| 0 <= a < tree@.len() ==> #[trigger] tree@[a] < j,
            forall|i: usize| i < j ==> (#[trigger] tree@.contains(i) <==> used@[i as int]),
            forall|i: usize| #[trigger] tree@.contains(i) ==> i < j,
        decreases m - j,
    {
        let ghost before = tree@;
        if used[j] {
            tree.push(j);
        }
        proof {
            assert forall|i: usize| i < j + 1 implies (#[trigger] tree@.contains(i) <==> used@[i as int]) by {
                if i < j {
                    if tree@.contains(i) && !before.contains(i) {
                        let c = choose|c: int| 0 <= c < tree@.len() && tree@[c] == i;
                        assert(c == before.len());
                    }
                    if before.contains(i) {
                        let c = choose|c: int| 0 <= c < before.len() && before[c] == i;
                        assert(tree@[c] == i);
                    }
                } else if used@[i as int] {
                    assert(tree@[before.len() as int] == i);
                } else if tree@.contains(i) {
                    let c = choose|c: int| 0 <= c < tree@.len() && tree@[c] == i;
                    assert(c < before.len());
                    assert(before.contains(i));
                }
            }
            assert forall|i: usize| #[trigger] tree@.contains(i) implies i < j + 1 by {
                let c = choose|c: int| 0 <= c < tree@.len() && tree@[c] == i;
                if c < before.len() {
                    assert(before.contains(i));
                }
            }
        }
        j = j + 1;
    }
    proof {
        assert forall|i: usize|
            #[trigger] tree@.contains(i) <==> exists|x: int|
                0 <= x < parent@.len() && (#[trigger] parent@[x]) is Some && g.edge_index(parent@[x]->Some_0 as int, x) == Some(i as int) by {
            if exists|x: int| 0 <= x < parent@.len() && (#[trigger] parent@[x]) is Some && g.edge_index(parent@[x]->Some_0 as int, x) == Some(i as int) {
                let x = choose|x: int| 0 <= x < parent@.len() && (#[trigger] parent@[x]) is Some && g.edge_index(parent@[x]->Some_0 as int, x) == Some(i as int);
                let p = parent@[x]->Some_0 as int;
                let c = choose|c: int| 0 <= c < g.edges@[p]@.len() && (#[trigger] g.edges@[p]@[c]).0 == x;
                assert(i < m);
                assert(used@[i as int]);
            }
            if tree@.contains(i) {
                assert(i < m);
                assert(used@[i as int]);
            }
        }
    }
    tree
}

} // verus!
