//! A directed graph backed by an adjacency matrix: entry `(u, v)` holds the weight of the
//! edge from `u` to `v`, if there is one. Vertex indices run from 0 to `size() - 1`;
//! `remove_vertex` shifts the indices above the removed one down by one.
use vstd::prelude::*;
use vstd::set_lib::*;

verus! {

pub struct Graph<V, E> {
    matrix: Vec<Vec<Option<E>>>,
    vertices: Vec<V>,
    size: usize,
}

/// The vertices of a graph, handed out one at a time in increasing order.
pub struct Vertices {
    next: usize,
    end: usize,
}

/// The edges of a graph as `(from, to)` pairs, handed out one at a time, row by row.
pub struct Edges {
    items: Vec<(usize, usize)>,
    at: usize,
}

impl<V, E> Graph<V, E> {
    /// The vertices' data; vertex `i` is entry `i`.
    pub closed spec fn vertex_seq(&self) -> Seq<V> {
        self.vertices@
    }

    /// The weight of the edge from `u` to `v`, if there is one.
    pub closed spec fn edge(&self, u: int, v: int) -> Option<E> {
        self.matrix@[u]@[v]
    }

    /// The matrix is square, one row and one column per vertex.
    pub closed spec fn wf(&self) -> bool {
        &&& self.size == self.vertices@.len()
        &&& self.matrix@.len() == self.size
        &&& forall|u: int| 0 <= u < self.size ==> (#[trigger] self.matrix@[u])@.len() == self.size
    }

    /// Creates a graph with no vertices.
    pub fn new() -> (g: Self)
        ensures
            g.wf(),
            g.vertex_seq() == Seq::<V>::empty(),
    {
        Graph { matrix: Vec::new(), vertices: Vec::new(), size: 0 }
    }

    /// The number of vertices.
    pub fn size(&self) -> (n: usize)
        requires
            self.wf(),
        ensures
            n == self.vertex_seq().len(),
    {
        self.size
    }

    /// Adds a vertex without edges and returns its index. Existing indices stay valid.
    pub fn add_vertex(&mut self, data: V) -> (i: usize)
        requires
            old(self).wf(),
            old(self).vertex_seq().len() < usize::MAX,
        ensures
            final(self).wf(),
            i == old(self).vertex_seq().len(),
            final(self).vertex_seq() == old(self).vertex_seq().push(data),
            forall|u: int, v: int|
                0 <= u < i && 0 <= v < i ==> #[trigger] final(self).edge(u, v) == old(self).edge(u, v),
            forall|u: int| 0 <= u <= i ==> #[trigger] final(self).edge(u, i as int) is None && final(self).edge(i as int, u) is None,
    {
        let ghost pre = *self;
        self.size = self.size + 1;
        let mut u: usize = 0;
        while u < self.matrix.len()
            invariant
                pre.wf(),
                self.size == pre.size + 1,
                self.vertices@ == pre.vertices@,
                self.matrix@.len() == pre.size,
                u <= pre.size,
                forall|x: int| 0 <= x < u ==> (#[trigger] self.matrix@[x])@ == pre.matrix@[x]@.push(None),
                forall|x: int| u <= x < pre.size ==> #[trigger] self.matrix@[x] == pre.matrix@[x],
            decreases pre.size - u,
        {
            let mut row: Vec<Option<E>> = Vec::new();
            self.matrix.set_and_swap(u, &mut row);
            row.push(None);
            self.matrix.set_and_swap(u, &mut row);
            u = u + 1;
        }
        let mut row: Vec<Option<E>> = Vec::new();
        let mut k: usize = 0;
        while k < self.size
            invariant
                pre.wf(),
                self.size == pre.size + 1,
                self.vertices@ == pre.vertices@,
                self.matrix@.len() == pre.size,
                forall|x: int| 0 <= x < pre.size ==> (#[trigger] self.matrix@[x])@ == pre.matrix@[x]@.push(None),
                k <= self.size,
                row@.len() == k,
                forall|x: int| 0 <= x < k ==> #[trigger] row@[x] is None,
            decreases self.size - k,
        {
            row.push(None);
            k = k + 1;
        }
        self.vertices.push(data);
        self.matrix.push(row);
        self.size - 1
    }

    /// Adds an edge from `from` to `to` with weight `weight`, replacing an earlier one.
    pub fn add_edge(&mut self, from: usize, to: usize, weight: E)
        requires
            old(self).wf(),
            from < old(self).vertex_seq().len(),
            to < old(self).vertex_seq().len(),
        ensures
            final(self).wf(),
            final(self).vertex_seq() == old(self).vertex_seq(),
            final(self).edge(from as int, to as int) == Some(weight),
            forall|u: int, v: int|
                0 <= u < old(self).vertex_seq().len() && 0 <= v < old(self).vertex_seq().len() && (u != from || v != to)
                    ==> #[trigger] final(self).edge(u, v) == old(self).edge(u, v),
    {
        let mut row: Vec<Option<E>> = Vec::new();
        self.matrix.set_and_swap(from, &mut row);
        row.set(to, Some(weight));
        self.matrix.set_and_swap(from, &mut row);
    }

    /// Whether there is an edge from `from` to `to`. A vertex has no edge to itself unless
    /// one was added.
    pub fn has_edge(&self, from: usize, to: usize) -> (r: bool)
        requires
            self.wf(),
            from < self.vertex_seq().len(),
            to < self.vertex_seq().len(),
        ensures
            r == self.edge(from as int, to as int) is Some,
    {
        self.matrix[from][to].is_some()
    }

    /// The data of vertex `index`.
    pub fn vertex_data(&self, index: usize) -> (r: &V)
        requires
            index < self.vertex_seq().len(),
        ensures
            *r == self.vertex_seq()[index as int],
    {
        &self.vertices[index]
    }

    /// The weight of the edge from `from` to `to`, which must exist.
    pub fn weight(&self, from: usize, to: usize) -> (r: &E)
        requires
            self.wf(),
            from < self.vertex_seq().len(),
            to < self.vertex_seq().len(),
            self.edge(from as int, to as int) is Some,
        ensures
            self.edge(from as int, to as int) == Some(*r),
    {
        self.matrix[from][to].as_ref().unwrap()
    }

    /// The vertices, in increasing order.
    pub fn vertices(&self) -> (it: Vertices)
        requires
            self.wf(),
        ensures
            it.remaining() == Seq::new(self.vertex_seq().len(), |i: int| i as usize),
    {
        Vertices::new(self)
    }

    /// The edges, row by row: `(from, to)` for each entry of the matrix that holds a weight,
    /// each once, in increasing order of `(from, to)`.
    pub fn edges(&self) -> (it: Edges)
        requires
            self.wf(),
        ensures
            forall|u: int, v: int|
                0 <= u < self.vertex_seq().len() && 0 <= v < self.vertex_seq().len() ==> (#[trigger] self.edge(u, v) is Some
                    <==> it.remaining().contains((u as usize, v as usize))),
            forall|k: int| 0 <= k < it.remaining().len() ==> (#[trigger] it.remaining()[k]).0 < self.vertex_seq().len()
                && it.remaining()[k].1 < self.vertex_seq().len(),
            forall|a: int, b: int|
                0 <= a < b < it.remaining().len() ==> it.remaining()[a].0 < it.remaining()[b].0 || (it.remaining()[a].0
                    == it.remaining()[b].0 && it.remaining()[a].1 < it.remaining()[b].1),
    {
        Edges::new(self)
    }

    /// Removes vertex `index` with all its edges and returns its data. The vertices above it
    /// move down by one.
    pub fn remove_vertex(&mut self, index: usize) -> (data: V)
        requires
            old(self).wf(),
            index < old(self).vertex_seq().len(),
        ensures
            final(self).wf(),
            data == old(self).vertex_seq()[index as int],
            final(self).vertex_seq() == old(self).vertex_seq().remove(index as int),
            forall|u: int, v: int|
                0 <= u < final(self).vertex_seq().len() && 0 <= v < final(self).vertex_seq().len() ==> #[trigger] final(self).edge(u, v)
                    == old(self).edge(if u < index { u } else { u + 1 }, if v < index { v } else { v + 1 }),
    {
        let ghost pre = *self;
        let _ = self.matrix.remove(index);
        let mut u: usize = 0;
        while u < self.matrix.len()
            invariant
                pre.wf(),
                index < pre.size,
                self.size == pre.size,
                self.vertices@ == pre.vertices@,
                self.matrix@.len() == pre.size - 1,
                u <= self.matrix@.len(),
                forall|x: int| 0 <= x < u ==> (#[trigger] self.matrix@[x])@ == pre.matrix@[if x < index { x } else { x + 1 }]@.remove(index as int),
                forall|x: int| u <= x < pre.size - 1 ==> #[trigger] self.matrix@[x] == pre.matrix@[if x < index { x } else { x + 1 }],
            decreases self.matrix@.len() - u,
        {
            let mut row: Vec<Option<E>> = Vec::new();
            self.matrix.set_and_swap(u, &mut row);
            let _ = row.remove(index);
            self.matrix.set_and_swap(u, &mut row);
            u = u + 1;
        }
        self.size = self.size - 1;
        self.vertices.remove(index)
    }

    /// Removes the edge from `from` to `to`, which must exist, and returns its weight.
    pub fn remove_edge(&mut self, from: usize, to: usize) -> (w: E)
        requires
            old(self).wf(),
            from < old(self).vertex_seq().len(),
            to < old(self).vertex_seq().len(),
            old(self).edge(from as int, to as int) is Some,
        ensures
            final(self).wf(),
            final(self).vertex_seq() == old(self).vertex_seq(),
            old(self).edge(from as int, to as int) == Some(w),
            final(self).edge(from as int, to as int) is None,
            forall|u: int, v: int|
                0 <= u < old(self).vertex_seq().len() && 0 <= v < old(self).vertex_seq().len() && (u != from || v != to)
                    ==> #[trigger] final(self).edge(u, v) == old(self).edge(u, v),
    {
        let mut row: Vec<Option<E>> = Vec::new();
        self.matrix.set_and_swap(from, &mut row);
        let mut cell: Option<E> = None;
        row.set_and_swap(to, &mut cell);
        self.matrix.set_and_swap(from, &mut row);
        cell.unwrap()
    }
}

impl<V, E: Copy> Graph<V, E> {
    /// Adds the edges `(from, to)` and `(to, from)`, both with weight `weight`.
    pub fn add_bidi_edge(&mut self, from: usize, to: usize, weight: E)
        requires
            old(self).wf(),
            from < old(self).vertex_seq().len(),
            to < old(self).vertex_seq().len(),
        ensures
            final(self).wf(),
            final(self).vertex_seq() == old(self).vertex_seq(),
            final(self).edge(from as int, to as int) == Some(weight),
            final(self).edge(to as int, from as int) == Some(weight),
            forall|u: int, v: int|
                0 <= u < old(self).vertex_seq().len() && 0 <= v < old(self).vertex_seq().len() && (u != from || v != to) && (u
                    != to || v != from) ==> #[trigger] final(self).edge(u, v) == old(self).edge(u, v),
    {
        self.add_edge(from, to, weight);
        self.add_edge(to, from, weight);
    }
}

impl Vertices {
    /// What is left to hand out.
    pub closed spec fn remaining(&self) -> Seq<usize> {
        Seq::new((if self.next <= self.end { self.end - self.next } else { 0 }) as nat, |i: int| (self.next + i) as usize)
    }

    fn new<V, E>(graph: &Graph<V, E>) -> (it: Vertices)
        requires
            graph.wf(),
        ensures
            it.remaining() == Seq::new(graph.vertex_seq().len(), |i: int| i as usize),
    {
        let it = Vertices { next: 0, end: graph.size };
        assert(it.remaining() =~= Seq::new(graph.vertex_seq().len(), |i: int| i as usize));
        it
    }

    /// The next vertex, or `None` when all have been handed out.
    pub fn next(&mut self) -> (r: Option<usize>)
        ensures
            old(self).remaining().len() == 0 ==> r is None && final(self).remaining() == old(self).remaining(),
            old(self).remaining().len() > 0 ==> r == Some(old(self).remaining()[0]) && final(self).remaining()
                == old(self).remaining().drop_first(),
    {
        if self.next < self.end {
            let v = self.next;
            self.next = self.next + 1;
            assert(self.remaining() =~= old(self).remaining().drop_first());
            Some(v)
        } else {
            None
        }
    }
}

impl Edges {
    /// What is left to hand out.
    pub closed spec fn remaining(&self) -> Seq<(usize, usize)> {
        if self.at <= self.items@.len() {
            self.items@.subrange(self.at as int, self.items@.len() as int)
        } else {
            Seq::empty()
        }
    }

    fn new<V, E>(graph: &Graph<V, E>) -> (it: Edges)
        requires
            graph.wf(),
        ensures
            forall|u: int, v: int|
                0 <= u < graph.vertex_seq().len() && 0 <= v < graph.vertex_seq().len() ==> (#[trigger] graph.edge(u, v) is Some
                    <==> it.remaining().contains((u as usize, v as usize))),
            forall|k: int| 0 <= k < it.remaining().len() ==> (#[trigger] it.remaining()[k]).0 < graph.vertex_seq().len()
                && it.remaining()[k].1 < graph.vertex_seq().len(),
            forall|a: int, b: int|
                0 <= a < b < it.remaining().len() ==> it.remaining()[a].0 < it.remaining()[b].0 || (it.remaining()[a].0
                    == it.remaining()[b].0 && it.remaining()[a].1 < it.remaining()[b].1),
    {
        let n = graph.size;
        let mut edges: Vec<(usize, usize)> = Vec::new();
        let mut from: usize = 0;
        while from < n
            invariant
                graph.wf(),
                n == graph.size,
                from <= n,
                forall|k: int| 0 <= k < edges@.len() ==> (#[trigger] edges@[k]).0 < from && edges@[k].1 < n,
                forall|a: int, b: int| 0 <= a < b < edges@.len() ==> (edges@[a].0 < edges@[b].0 || (edges@[a].0 == edges@[b].0 && edges@[a].1 < edges@[b].1)),
                forall|u: int, v: int|
                    0 <= u < from && 0 <= v < n ==> (#[trigger] graph.edge(u, v) is Some <==> edges@.contains((u as usize, v as usize))),
            decreases n - from,
        {
            let mut to: usize = 0;
            let ghost start = edges@.len();
            while to < n
                invariant
                    graph.wf(),
                    n == graph.size,
                    from < n,
                    to <= n,
                    start <= edges@.len(),
                    forall|k: int| 0 <= k < start ==> (#[trigger] edges@[k]).0 < from && edges@[k].1 < n,
                    forall|k: int| start <= k < edges@.len() ==> (#[trigger] edges@[k]).0 == from && edges@[k].1 < to,
                    forall|a: int, b: int| 0 <= a < b < edges@.len() ==> (edges@[a].0 < edges@[b].0 || (edges@[a].0 == edges@[b].0 && edges@[a].1 < edges@[b].1)),
                    forall|u: int, v: int|
                        0 <= u < from && 0 <= v < n ==> (#[trigger] graph.edge(u, v) is Some <==> edges@.contains((u as usize, v as usize))),
                    forall|v: int|
                        0 <= v < to ==> (#[trigger] graph.edge(from as int, v) is Some <==> edges@.contains((from, v as usize))),
                decreases n - to,
            {
                let ghost before = edges@;
                if graph.matrix[from][to].is_some() {
                    edges.push((from, to));
                }
                proof {
                    assert forall|u: int, v: int|
                        0 <= u < from && 0 <= v < n implies (#[trigger] graph.edge(u, v) is Some <==> edges@.contains((u as usize, v as usize))) by {
                        if edges@.contains((u as usize, v as usize)) && !before.contains((u as usize, v as usize)) {
                            let c = choose|c: int| 0 <= c < edges@.len() && edges@[c] == (u as usize, v as usize);
                            assert(c == before.len());
                        }
                        if before.contains((u as usize, v as usize)) {
                            let c = choose|c: int| 0 <= c < before.len() && before[c] == (u as usize, v as usize);
                            assert(edges@[c] == before[c]);
                        }
                    }
                    assert forall|v: int|
                        0 <= v < to + 1 implies (#[trigger] graph.edge(from as int, v) is Some <==> edges@.contains((from, v as usize))) by {
                        if edges@.contains((from, v as usize)) && !before.contains((from, v as usize)) {
                            let c = choose|c: int| 0 <= c < edges@.len() && edges@[c] == (from, v as usize);
                            assert(c == before.len());
                        }
                        if before.contains((from, v as usize)) {
                            let c = choose|c: int| 0 <= c < before.len() && before[c] == (from, v as usize);
                            assert(edges@[c] == before[c]);
                        }
                        if v == to && graph.edge(from as int, v) is Some {
                            assert(edges@[before.len() as int] == (from, v as usize));
                        }
                        if v == to && edges@.contains((from, v as usize)) && before.contains((from, v as usize)) {
                            let c = choose|c: int| 0 <= c < before.len() && before[c] == (from, v as usize);
                            if c >= start {
                                assert(before[c].1 < to);
                            } else {
                                assert(before[c].0 < from);
                            }
                        }
                    }
                }
                to = to + 1;
            }
            from = from + 1;
        }
        let it = Edges { items: edges, at: 0 };
        assert(it.remaining() =~= edges@);
        it
    }

    /// The next edge, or `None` when all have been handed out.
    pub fn next(&mut self) -> (r: Option<(usize, usize)>)
        ensures
            old(self).remaining().len() == 0 ==> r is None && final(self).remaining() == old(self).remaining(),
            old(self).remaining().len() > 0 ==> r == Some(old(self).remaining()[0]) && final(self).remaining()
                == old(self).remaining().drop_first(),
    {
        if self.at < self.items.len() {
            let e = self.items[self.at];
            self.at = self.at + 1;
            assert(self.remaining() =~= old(self).remaining().drop_first());
            Some(e)
        } else {
            None
        }
    }
}

/// The vertices that the first `i` edges of `tree` have joined to vertex 0.
pub open spec fn grown(tree: Seq<(usize, usize, usize)>, i: int) -> Set<int>
    decreases i,
{
    if i <= 0 {
        set![0]
    } else {
        grown(tree, i - 1).insert(tree[i - 1].0 as int).insert(tree[i - 1].1 as int)
    }
}

/// Exactly one end of the edge from `from` to `to` lies in `vs`.
pub open spec fn crosses(vs: Set<int>, from: int, to: int) -> bool {
    vs.contains(from) != vs.contains(to)
}

/// Each edge of `tree` is an edge of `g` with its weight, joins one new vertex to those the
/// edges before it had reached from vertex 0, and is a lightest edge, in either direction,
/// with exactly one end among those vertices.
pub open spec fn grown_from_zero<V>(g: Graph<V, usize>, tree: Seq<(usize, usize, usize)>) -> bool {
    forall|i: int|
        0 <= i < tree.len() ==> {
            &&& (#[trigger] tree[i]).0 < g.vertex_seq().len()
            &&& tree[i].1 < g.vertex_seq().len()
            &&& g.edge(tree[i].0 as int, tree[i].1 as int) == Some(tree[i].2)
            &&& crosses(grown(tree, i), tree[i].0 as int, tree[i].1 as int)
            &&& forall|u: int, v: int|
                0 <= u < g.vertex_seq().len() && 0 <= v < g.vertex_seq().len() && (#[trigger] g.edge(u, v)) is Some && crosses(
                    grown(tree, i),
                    u,
                    v,
                ) ==> tree[i].2 <= g.edge(u, v)->Some_0
        }
}

/// `s` holds vertex 0 but not every vertex, and no edge joins it to the rest, in either
/// direction.
pub open spec fn splits<V>(g: Graph<V, usize>, s: Set<int>) -> bool {
    &&& s.contains(0)
    &&& exists|v: int| 0 <= v < g.vertex_seq().len() && !#[trigger] s.contains(v)
    &&& forall|u: int, v: int|
        0 <= u < g.vertex_seq().len() && 0 <= v < g.vertex_seq().len() && (#[trigger] g.edge(u, v)) is Some
            ==> !crosses(s, u, v)
}

/// Whether an edge from `from` to `to` would add a vertex to the tree whose vertices are
/// marked in `vs`: exactly one of its ends is marked.
fn will_expand_tree(vs: &Vec<bool>, from: usize, to: usize) -> (r: bool)
    requires
        from < vs@.len(),
        to < vs@.len(),
    ensures
        r == (vs@[from as int] != vs@[to as int]),
{
    (vs[from] || vs[to]) && !(vs[from] && vs[to])
}

/// The lightest edge with exactly one end marked in `inside`, the first in row order among
/// equal weights; `None` when no edge has that shape.
fn lightest_crossing<V>(g: &Graph<V, usize>, inside: &Vec<bool>) -> (best: Option<(usize, usize, usize)>)
    requires
        g.wf(),
        inside@.len() == g.vertex_seq().len(),
    ensures
        best matches Some(b) ==> b.0 < inside@.len() && b.1 < inside@.len() && g.edge(b.0 as int, b.1 as int) == Some(b.2)
            && inside@[b.0 as int] != inside@[b.1 as int],
        best is None ==> forall|u: int, v: int|
            0 <= u < inside@.len() && 0 <= v < inside@.len() && (#[trigger] g.edge(u, v)) is Some ==> inside@[u] == inside@[v],
        best matches Some(b) ==> forall|u: int, v: int|
            0 <= u < inside@.len() && 0 <= v < inside@.len() && (#[trigger] g.edge(u, v)) is Some && inside@[u] != inside@[v]
                ==> b.2 <= g.edge(u, v)->Some_0,
{
    let n = g.size;
    let mut best: Option<(usize, usize, usize)> = None;
    let mut from: usize = 0;
    while from < n
        invariant
            g.wf(),
            n == g.vertex_seq().len(),
            inside@.len() == n,
            from <= n,
            best matches Some(b) ==> b.0 < n && b.1 < n && g.edge(b.0 as int, b.1 as int) == Some(b.2) && inside@[b.0 as int] != inside@[b.1 as int],
            forall|u: int, v: int|
                0 <= u < from && 0 <= v < n && (#[trigger] g.edge(u, v)) is Some && inside@[u] != inside@[v] ==> (best matches Some(b)
                    && b.2 <= g.edge(u, v)->Some_0),
        decreases n - from,
    {
        let mut to: usize = 0;
        while to < n
            invariant
                g.wf(),
                n == g.vertex_seq().len(),
                inside@.len() == n,
                from < n,
                to <= n,
                best matches Some(b) ==> b.0 < n && b.1 < n && g.edge(b.0 as int, b.1 as int) == Some(b.2) && inside@[b.0 as int] != inside@[b.1 as int],
                forall|u: int, v: int|
                    0 <= u < from && 0 <= v < n && (#[trigger] g.edge(u, v)) is Some && inside@[u] != inside@[v] ==> (best matches Some(b)
                        && b.2 <= g.edge(u, v)->Some_0),
                forall|v: int|
                    0 <= v < to && (#[trigger] g.edge(from as int, v)) is Some && inside@[from as int] != inside@[v] ==> (best matches Some(b)
                        && b.2 <= g.edge(from as int, v)->Some_0),
            decreases n - to,
        {
            match g.matrix[from][to] {
                Some(w) => {
                    if will_expand_tree(inside, from, to) {
                        let better = match best {
                            None => true,
                            Some(b) => w < b.2,
                        };
                        if better {
                            best = Some((from, to, w));
                        }
                    }
                },
                None => {},
            }
            to = to + 1;
        }
        from = from + 1;
    }
    best
}

/// Prim's algorithm on the graph read as undirected, from vertex 0: each step takes the
/// lightest edge with exactly one end in the tree (the first such in row order among equal
/// weights). Returns the tree's edges as `(from, to, weight)`, or `None` when some vertex
/// cannot be reached.
pub fn prim<V>(g: &Graph<V, usize>) -> (r: Option<Vec<(usize, usize, usize)>>)
    requires
        g.wf(),
    ensures
        g.vertex_seq().len() == 0 ==> (r matches Some(t) && t@.len() == 0),
        g.vertex_seq().len() > 0 ==> (r matches Some(t) ==> t@.len() == g.vertex_seq().len() - 1 && grown_from_zero(*g, t@)
            && grown(t@, t@.len() as int) == set_int_range(0, g.vertex_seq().len() as int)),
        r is None ==> exists|s: Set<int>| #[trigger] splits(*g, s),
{
    let n = g.size;
    let mut tree: Vec<(usize, usize, usize)> = Vec::new();
    if n == 0 {
        return Some(tree);
    }
    let mut inside: Vec<bool> = Vec::new();
    let mut i: usize = 0;
    while i < n
        invariant
            i <= n,
            inside@.len() == i,
            forall|x: int| 0 <= x < i ==> #[trigger] inside@[x] == (x == 0),
        decreases n - i,
    {
        inside.push(i == 0);
        i = i + 1;
    }
    let mut count: usize = 1;
    proof {
        lemma_int_range(0, n as int);
        assert(grown(tree@, 0) =~= set![0]);
        assert(set![0int].len() == 1);
    }
    loop
        invariant
            g.wf(),
            n == g.vertex_seq().len(),
            n > 0,
            inside@.len() == n,
            1 <= count <= n,
            tree@.len() == count - 1,
            set_int_range(0, n as int).finite(),
            set_int_range(0, n as int).len() == n,
            grown(tree@, tree@.len() as int).finite(),
            grown(tree@, tree@.len() as int).len() == count,
            grown(tree@, tree@.len() as int).subset_of(set_int_range(0, n as int)),
            forall|x: int| 0 <= x < n ==> (#[trigger] inside@[x] <==> grown(tree@, tree@.len() as int).contains(x)),
            grown_from_zero(*g, tree@),
        ensures
            tree@.len() == count - 1,
            grown_from_zero(*g, tree@),
            grown(tree@, tree@.len() as int).finite(),
            grown(tree@, tree@.len() as int).len() == count,
            grown(tree@, tree@.len() as int).subset_of(set_int_range(0, n as int)),
            count < n ==> splits(*g, grown(tree@, tree@.len() as int)),
            count <= n,
        decreases n - count,
    {
        let ghost gr = grown(tree@, tree@.len() as int);
        let best = lightest_crossing(g, &inside);
        proof {
            assert(forall|x: int| 0 <= x < n ==> (#[trigger] inside@[x] <==> gr.contains(x)));
        }
        match best {
            None => {
                proof {
                    if count < n {
                        if forall|v: int| 0 <= v < n ==> #[trigger] gr.contains(v) {
                            assert(set_int_range(0, n as int).subset_of(gr));
                            lemma_len_subset(set_int_range(0, n as int), gr);
                        }
                        lemma_grown_has_zero(tree@, tree@.len() as int);
                        assert forall|u: int, v: int|
                            0 <= u < n && 0 <= v < n && (#[trigger] g.edge(u, v)) is Some implies !crosses(gr, u, v) by {
                            assert(inside@[u] == inside@[v]);
                        }
                        assert(splits(*g, gr));
                    }
                }
                break;
            },
            Some((f, t, w)) => {
                let ghost tb = tree@;
                inside.set(f, true);
                inside.set(t, true);
                tree.push((f, t, w));
                proof {
                    lemma_grow_step(*g, tb, (f, t, w));
                    assert(tree@ == tb.push((f, t, w)));
                    let ng = grown(tree@, tree@.len() as int);
                    lemma_len_subset(ng, set_int_range(0, n as int));
                    assert forall|x: int| 0 <= x < n implies (#[trigger] inside@[x] <==> ng.contains(x)) by {}
                }
                count = count + 1;
            },
        }
    }
    if count == n {
        proof {
            lemma_subset_equality(grown(tree@, tree@.len() as int), set_int_range(0, n as int));
        }
        Some(tree)
    } else {
        None
    }
}

/// Adding an edge that crosses out of the grown set keeps the tree grown from vertex 0 and
/// adds exactly its new end to the grown set.
proof fn lemma_grow_step<V>(g: Graph<V, usize>, tb: Seq<(usize, usize, usize)>, e: (usize, usize, usize))
    requires
        grown_from_zero(g, tb),
        grown(tb, tb.len() as int).finite(),
        e.0 < g.vertex_seq().len(),
        e.1 < g.vertex_seq().len(),
        g.edge(e.0 as int, e.1 as int) == Some(e.2),
        crosses(grown(tb, tb.len() as int), e.0 as int, e.1 as int),
        forall|u: int, v: int|
            0 <= u < g.vertex_seq().len() && 0 <= v < g.vertex_seq().len() && (#[trigger] g.edge(u, v)) is Some && crosses(
                grown(tb, tb.len() as int),
                u,
                v,
            ) ==> e.2 <= g.edge(u, v)->Some_0,
    ensures
        grown_from_zero(g, tb.push(e)),
        grown(tb.push(e), tb.len() + 1int) == grown(tb, tb.len() as int).insert(
            if grown(tb, tb.len() as int).contains(e.0 as int) { e.1 as int } else { e.0 as int },
        ),
        grown(tb.push(e), tb.len() + 1int).finite(),
        grown(tb.push(e), tb.len() + 1int).len() == grown(tb, tb.len() as int).len() + 1,
{
    let tree = tb.push(e);
    lemma_grown_prefix(tree, tb);
    let gr = grown(tb, tb.len() as int);
    let new_v = if gr.contains(e.0 as int) { e.1 as int } else { e.0 as int };
    assert(grown(tree, tb.len() as int) == gr);
    assert(tree[tb.len() as int] == e);
    assert(grown(tree, tree.len() as int) == grown(tree, tb.len() as int).insert(e.0 as int).insert(e.1 as int));
    assert(grown(tree, tree.len() as int) =~= gr.insert(new_v));
    assert forall|i: int| 0 <= i < tree.len() implies {
        &&& (#[trigger] tree[i]).0 < g.vertex_seq().len()
        &&& tree[i].1 < g.vertex_seq().len()
        &&& g.edge(tree[i].0 as int, tree[i].1 as int) == Some(tree[i].2)
        &&& crosses(grown(tree, i), tree[i].0 as int, tree[i].1 as int)
        &&& forall|u: int, v: int|
            0 <= u < g.vertex_seq().len() && 0 <= v < g.vertex_seq().len() && (#[trigger] g.edge(u, v)) is Some && crosses(
                grown(tree, i),
                u,
                v,
            ) ==> tree[i].2 <= g.edge(u, v)->Some_0
    } by {
        if i < tb.len() {
            assert(tree[i] == tb[i]);
        }
    }
}

/// Vertex 0 is always among the grown vertices.
proof fn lemma_grown_has_zero(tree: Seq<(usize, usize, usize)>, i: int)
    ensures
        grown(tree, i).contains(0),
    decreases i,
{
    if i > 0 {
        lemma_grown_has_zero(tree, i - 1);
    }
}

/// The grown sets of a tree's prefixes do not depend on the edges after them.
proof fn lemma_grown_prefix(tree: Seq<(usize, usize, usize)>, pre: Seq<(usize, usize, usize)>)
    requires
        pre.len() <= tree.len(),
        forall|i: int| 0 <= i < pre.len() ==> #[trigger] pre[i] == tree[i],
    ensures
        forall|i: int| 0 <= i <= pre.len() ==> #[trigger] grown(tree, i) == grown(pre, i),
{
    assert forall|i: int| 0 <= i <= pre.len() implies #[trigger] grown(tree, i) == grown(pre, i) by {
        lemma_grown_prefix_at(tree, pre, i);
    }
}

proof fn lemma_grown_prefix_at(tree: Seq<(usize, usize, usize)>, pre: Seq<(usize, usize, usize)>, i: int)
    requires
        0 <= i <= pre.len() <= tree.len(),
        forall|j: int| 0 <= j < pre.len() ==> #[trigger] pre[j] == tree[j],
    ensures
        grown(tree, i) == grown(pre, i),
    decreases i,
{
    if i > 0 {
        lemma_grown_prefix_at(tree, pre, i - 1);
        assert(pre[i - 1] == tree[i - 1]);
    }
}

/// `w` is a walk in `g` of at least one edge: consecutive vertices are joined by edges.
pub open spec fn is_walk<V>(g: Graph<V, isize>, w: Seq<int>) -> bool {
    &&& w.len() >= 2
    &&& forall|t: int| 0 <= t < w.len() ==> 0 <= #[trigger] w[t] < g.vertex_seq().len()
    &&& forall|t: int| 0 <= t < w.len() - 1 ==> (#[trigger] g.edge(w[t], w[t + 1])) is Some
}

/// The distances and first steps that `floyd_warshall` found, with the weights they came
/// from.
pub struct ShortestPaths {
    weights: Vec<Vec<Option<isize>>>,
    dist: Vec<Vec<Option<isize>>>,
    next: Vec<Vec<Option<usize>>>,
}

impl ShortestPaths {
    /// The distance matrix.
    pub closed spec fn dist_matrix(&self) -> Seq<Seq<Option<isize>>> {
        self.dist@.map_values(|r: Vec<Option<isize>>| r@)
    }

    /// The weight matrix of the graph the paths were computed on.
    pub closed spec fn weight_matrix(&self) -> Seq<Seq<Option<isize>>> {
        self.weights@.map_values(|r: Vec<Option<isize>>| r@)
    }

    /// All matrices are square of one size, and each recorded first step leaves along an edge.
    pub closed spec fn wf(&self) -> bool {
        let n = self.weights@.len();
        &&& self.dist@.len() == n
        &&& self.next@.len() == n
        &&& forall|i: int| 0 <= i < n ==> (#[trigger] self.weights@[i])@.len() == n
        &&& forall|i: int| 0 <= i < n ==> (#[trigger] self.dist@[i])@.len() == n
        &&& forall|i: int| 0 <= i < n ==> (#[trigger] self.next@[i])@.len() == n
        &&& forall|i: int, j: int|
            0 <= i < n && 0 <= j < n && (#[trigger] self.next@[i]@[j]) is Some ==> {
                let x = self.next@[i]@[j]->Some_0 as int;
                0 <= x < n && self.weights@[i]@[x] is Some
            }
    }

    /// Whether a path from `from` to `to` was found.
    pub fn is_path(&self, from: usize, to: usize) -> (r: bool)
        requires
            self.wf(),
            from < self.weight_matrix().len(),
            to < self.weight_matrix().len(),
        ensures
            r == self.dist_matrix()[from as int][to as int] is Some,
    {
        assert(self.dist_matrix()[from as int] == self.dist@[from as int]@);
        self.dist[from][to].is_some()
    }

    /// The sum of the weights along the shortest path found from `from` to `to`.
    pub fn path_distance(&self, from: usize, to: usize) -> (r: Option<isize>)
        requires
            self.wf(),
            from < self.weight_matrix().len(),
            to < self.weight_matrix().len(),
        ensures
            r == self.dist_matrix()[from as int][to as int],
    {
        assert(self.dist_matrix()[from as int] == self.dist@[from as int]@);
        self.dist[from][to]
    }

    /// The edges `(u, v, weight)` of the path found from `from` to `to`, in order; empty when
    /// there is none. Each edge starts where the previous one ended, the first at `from`.
    /// At most as many edges as there are vertices are followed.
    pub fn path(&self, from: usize, to: usize) -> (path: Vec<(usize, usize, isize)>)
        requires
            self.wf(),
            from < self.weight_matrix().len(),
            to < self.weight_matrix().len(),
        ensures
            path@.len() > 0 ==> path@[0].0 == from,
            forall|k: int| 0 < k < path@.len() ==> (#[trigger] path@[k]).0 == path@[k - 1].1,
            forall|k: int|
                0 <= k < path@.len() ==> (#[trigger] path@[k]).0 < self.weight_matrix().len() && path@[k].1
                    < self.weight_matrix().len() && self.weight_matrix()[path@[k].0 as int][path@[k].1 as int] == Some(path@[k].2),
    {
        let n = self.weights.len();
        let mut path: Vec<(usize, usize, isize)> = Vec::new();
        let mut src = from;
        let mut steps: usize = 0;
        while steps < n
            invariant
                self.wf(),
                n == self.weights@.len(),
                src < n,
                to < n,
                path@.len() > 0 ==> path@[0].0 == from,
                path@.len() > 0 ==> path@[path@.len() - 1].1 == src,
                path@.len() == 0 ==> src == from,
                forall|k: int| 0 < k < path@.len() ==> (#[trigger] path@[k]).0 == path@[k - 1].1,
                forall|k: int|
                    0 <= k < path@.len() ==> (#[trigger] path@[k]).0 < n && path@[k].1 < n
                        && self.weights@[path@[k].0 as int]@[path@[k].1 as int] == Some(path@[k].2),
            decreases n - steps,
        {
            match self.next[src][to] {
                None => {
                    break;
                },
                Some(nxt) => {
                    let weight = self.weights[src][nxt].unwrap();
                    path.push((src, nxt, weight));
                    src = nxt;
                    if src == to {
                        break;
                    }
                },
            }
            steps = steps + 1;
        }
        proof {
            assert forall|k: int|
                0 <= k < path@.len() implies (#[trigger] path@[k]).0 < self.weight_matrix().len() && path@[k].1
                    < self.weight_matrix().len() && self.weight_matrix()[path@[k].0 as int][path@[k].1 as int] == Some(path@[k].2) by {
                assert(self.weight_matrix()[path@[k].0 as int] == self.weights@[path@[k].0 as int]@);
            }
        }
        path
    }

    /// The distance matrix: entry `(u, v)` is the distance found from `u` to `v`, or `None`.
    pub fn to_distance_matrix(self) -> (m: Vec<Vec<Option<isize>>>)
        ensures
            m@.map_values(|r: Vec<Option<isize>>| r@) == self.dist_matrix(),
    {
        self.dist
    }
}

/// The sum of two known distances, held within `isize`; unknown when either is.
fn plus(a: Option<isize>, b: Option<isize>) -> (r: Option<isize>)
    ensures
        r is Some <==> a is Some && b is Some,
        r matches Some(s) ==> s == sat(a->Some_0 + b->Some_0),
{
    match (a, b) {
        (Some(a), Some(b)) => {
            if b > 0 && a > isize::MAX - b {
                Some(isize::MAX)
            } else if b < 0 && a < isize::MIN - b {
                Some(isize::MIN)
            } else {
                Some(a + b)
            }
        },
        (_, _) => None,
    }
}

/// `x` held within the range of `isize`.
pub open spec fn sat(x: int) -> int {
    if x > isize::MAX { isize::MAX as int } else if x < isize::MIN { isize::MIN as int } else { x }
}

/// Whether distance `a` is worse than `b`: an unknown distance is worse than any known one.
fn greater(a: Option<isize>, b: Option<isize>) -> (r: bool)
    ensures
        r == match (a, b) {
            (Some(x), Some(y)) => x > y,
            (None, Some(_)) => true,
            (_, None) => false,
        },
{
    match (a, b) {
        (Some(a), Some(b)) => a > b,
        (None, Some(_)) => true,
        (_, None) => false,
    }
}

/// What holds of the matrices while `floyd_warshall` runs: they are `n` by `n`; a recorded
/// first step leaves along an edge; a distance is known exactly where a first step is; each
/// known distance from `i` to `j` has a walk from `i` to `j` behind it; and every edge's
/// distance is known and no larger than its weight.
spec fn fw_ok<V>(
    g: Graph<V, isize>,
    dist: Seq<Vec<Option<isize>>>,
    next: Seq<Vec<Option<usize>>>,
    walks: Seq<Seq<Seq<int>>>,
) -> bool {
    let n = g.vertex_seq().len() as int;
    &&& dist.len() == n
    &&& next.len() == n
    &&& walks.len() == n
    &&& forall|i: int| 0 <= i < n ==> (#[trigger] dist[i])@.len() == n
    &&& forall|i: int| 0 <= i < n ==> (#[trigger] next[i])@.len() == n
    &&& forall|i: int| 0 <= i < n ==> (#[trigger] walks[i]).len() == n
    &&& forall|i: int, j: int|
        0 <= i < n && 0 <= j < n ==> ((#[trigger] dist[i]@[j]) is Some <==> next[i]@[j] is Some)
    &&& forall|i: int, j: int|
        0 <= i < n && 0 <= j < n && (#[trigger] next[i]@[j]) is Some ==> {
            let x = next[i]@[j]->Some_0 as int;
            0 <= x < n && g.edge(i, x) is Some
        }
    &&& forall|i: int, j: int|
        0 <= i < n && 0 <= j < n && (#[trigger] dist[i]@[j]) is Some ==> {
            let w = walks[i][j];
            is_walk(g, w) && w[0] == i && w.last() == j
        }
    &&& forall|i: int, j: int|
        0 <= i < n && 0 <= j < n && (#[trigger] g.edge(i, j)) is Some ==> {
            &&& dist[i]@[j] is Some
            &&& dist[i]@[j]->Some_0 <= g.edge(i, j)->Some_0
        }
}

/// Joining a walk from `i` to `k` and one from `k` to `j` gives a walk from `i` to `j`.
proof fn lemma_join_walks<V>(g: Graph<V, isize>, a: Seq<int>, b: Seq<int>)
    requires
        is_walk(g, a),
        is_walk(g, b),
        a.last() == b[0],
    ensures
        is_walk(g, a + b.drop_first()),
        (a + b.drop_first())[0] == a[0],
        (a + b.drop_first()).last() == b.last(),
{
    let w = a + b.drop_first();
    assert forall|t: int| 0 <= t < w.len() implies 0 <= #[trigger] w[t] < g.vertex_seq().len() by {
        if t >= a.len() {
            assert(w[t] == b[t - a.len() + 1]);
        }
    }
    assert forall|t: int| 0 <= t < w.len() - 1 implies (#[trigger] g.edge(w[t], w[t + 1])) is Some by {
        if t < a.len() - 1 {
            assert(w[t] == a[t] && w[t + 1] == a[t + 1]);
        } else if t == a.len() - 1 {
            assert(w[t] == b[0] && w[t + 1] == b[1]);
        } else {
            assert(w[t] == b[t - a.len() + 1] && w[t + 1] == b[t - a.len() + 2]);
        }
    }
}

/// One step of Floyd-Warshall: routes the path from `i` to `j` through `k` where that is
/// shorter, or where no path from `i` to `j` was known.
#[verifier::rlimit(80)]
fn relax<V>(
    g: &Graph<V, isize>,
    dist: &mut Vec<Vec<Option<isize>>>,
    next: &mut Vec<Vec<Option<usize>>>,
    walks: Ghost<Seq<Seq<Seq<int>>>>,
    i: usize,
    j: usize,
    k: usize,
) -> (nw: Ghost<Seq<Seq<Seq<int>>>>)
    requires
        g.wf(),
        fw_ok(*g, old(dist)@, old(next)@, walks@),
        i < g.vertex_seq().len(),
        j < g.vertex_seq().len(),
        k < g.vertex_seq().len(),
    ensures
        fw_ok(*g, final(dist)@, final(next)@, nw@),
{
    let n = g.size;
    let ghost walks = walks@;
    let through = plus(dist[i][k], dist[k][j]);
    if greater(dist[i][j], through) {
        let ghost d0 = dist@;
        let ghost n0 = next@;
        let step = next[i][k];
        let mut row: Vec<Option<isize>> = Vec::new();
        dist.set_and_swap(i, &mut row);
        row.set(j, through);
        dist.set_and_swap(i, &mut row);
        let mut nrow: Vec<Option<usize>> = Vec::new();
        next.set_and_swap(i, &mut nrow);
        nrow.set(j, step);
        next.set_and_swap(i, &mut nrow);
        let ghost joined = walks[i as int][k as int] + walks[k as int][j as int].drop_first();
        let ghost nw = walks.update(i as int, walks[i as int].update(j as int, joined));
        proof {
            lemma_join_walks(*g, walks[i as int][k as int], walks[k as int][j as int]);
            assert forall|x: int| 0 <= x < n implies (#[trigger] dist@[x])@.len() == n by {
                assert(x == i || dist@[x] == d0[x]);
            }
            assert forall|x: int| 0 <= x < n implies (#[trigger] next@[x])@.len() == n by {
                assert(x == i || next@[x] == n0[x]);
            }
            assert forall|x: int| 0 <= x < n implies (#[trigger] nw[x]).len() == n by {}
            assert forall|x: int, y: int|
                0 <= x < n && 0 <= y < n implies ((#[trigger] dist@[x]@[y]) is Some <==> next@[x]@[y] is Some) by {
                if x != i || y != j {
                    assert(dist@[x]@[y] == d0[x]@[y]);
                    assert(next@[x]@[y] == n0[x]@[y]);
                }
            }
            assert forall|x: int, y: int|
                0 <= x < n && 0 <= y < n && (#[trigger] next@[x]@[y]) is Some implies {
                    let s = next@[x]@[y]->Some_0 as int;
                    0 <= s < n && g.edge(x, s) is Some
                } by {
                if x != i || y != j {
                    assert(next@[x]@[y] == n0[x]@[y]);
                } else {
                    assert(d0[i as int]@[k as int] is Some);
                    assert(n0[i as int]@[k as int] is Some);
                }
            }
            assert forall|x: int, y: int|
                0 <= x < n && 0 <= y < n && (#[trigger] dist@[x]@[y]) is Some implies {
                    let w = nw[x][y];
                    is_walk(*g, w) && w[0] == x && w.last() == y
                } by {
                if x != i || y != j {
                    assert(dist@[x]@[y] == d0[x]@[y]);
                    assert(nw[x][y] == walks[x][y]);
                } else {
                    assert(d0[i as int]@[k as int] is Some);
                    assert(d0[k as int]@[j as int] is Some);
                }
            }
            assert forall|x: int, y: int|
                0 <= x < n && 0 <= y < n && (#[trigger] g.edge(x, y)) is Some implies {
                    &&& dist@[x]@[y] is Some
                    &&& dist@[x]@[y]->Some_0 <= g.edge(x, y)->Some_0
                } by {
                if x != i || y != j {
                    assert(dist@[x]@[y] == d0[x]@[y]);
                } else {
                    assert(d0[x]@[y] is Some);
                }
            }
        }
        Ghost(nw)
    } else {
        Ghost(walks)
    }
}

/// Computes shortest paths between every pair of vertices with the Floyd-Warshall
/// algorithm; sums are held within `isize`. A path needs at least one edge, so no vertex has
/// a path to itself. With a negative cycle the results may be wrong.
pub fn floyd_warshall<V>(g: &Graph<V, isize>) -> (sp: ShortestPaths)
    requires
        g.wf(),
    ensures
        sp.wf(),
        sp.weight_matrix().len() == g.vertex_seq().len(),
        sp.dist_matrix().len() == g.vertex_seq().len(),
        forall|i: int, j: int|
            0 <= i < g.vertex_seq().len() && 0 <= j < g.vertex_seq().len() ==> #[trigger] sp.weight_matrix()[i][j] == g.edge(i, j),
        forall|i: int| 0 <= i < g.vertex_seq().len() ==> #[trigger] sp.dist_matrix()[i][i] is None,
        forall|i: int, j: int|
            0 <= i < g.vertex_seq().len() && 0 <= j < g.vertex_seq().len() && i != j && (#[trigger] g.edge(i, j)) is Some
                ==> sp.dist_matrix()[i][j] is Some && sp.dist_matrix()[i][j]->Some_0 <= g.edge(i, j)->Some_0,
        forall|i: int, j: int|
            0 <= i < g.vertex_seq().len() && 0 <= j < g.vertex_seq().len() && (#[trigger] sp.dist_matrix()[i][j]) is Some
                ==> exists|w: Seq<int>| is_walk(*g, w) && w[0] == i && w.last() == j,
{
    let n = g.size;
    let mut weights: Vec<Vec<Option<isize>>> = Vec::new();
    let mut dist: Vec<Vec<Option<isize>>> = Vec::new();
    let mut next: Vec<Vec<Option<usize>>> = Vec::new();
    let ghost mut walks: Seq<Seq<Seq<int>>> = Seq::empty();
    let mut i: usize = 0;
    while i < n
        invariant
            g.wf(),
            n == g.vertex_seq().len(),
            i <= n,
            weights@.len() == i,
            dist@.len() == i,
            next@.len() == i,
            walks.len() == i,
            forall|x: int| 0 <= x < i ==> (#[trigger] weights@[x])@.len() == n && dist@[x]@.len() == n && next@[x]@.len() == n && walks[x].len() == n,
            forall|x: int, y: int| 0 <= x < i && 0 <= y < n ==> #[trigger] weights@[x]@[y] == g.edge(x, y) && dist@[x]@[y] == g.edge(x, y),
            forall|x: int, y: int| 0 <= x < i && 0 <= y < n ==> #[trigger] next@[x]@[y] == if g.edge(x, y) is Some { Some(y as usize) } else { None },
            forall|x: int, y: int| 0 <= x < i && 0 <= y < n ==> #[trigger] walks[x][y] == seq![x, y],
        decreases n - i,
    {
        let mut wrow: Vec<Option<isize>> = Vec::new();
        let mut nrow: Vec<Option<usize>> = Vec::new();
        let mut j: usize = 0;
        while j < n
            invariant
                g.wf(),
                n == g.vertex_seq().len(),
                i < n,
                j <= n,
                wrow@.len() == j,
                nrow@.len() == j,
                forall|y: int| 0 <= y < j ==> #[trigger] wrow@[y] == g.edge(i as int, y),
                forall|y: int| 0 <= y < j ==> #[trigger] nrow@[y] == if g.edge(i as int, y) is Some { Some(y as usize) } else { None },
            decreases n - j,
        {
            let c = g.matrix[i][j];
            wrow.push(c);
            nrow.push(if c.is_some() { Some(j) } else { None });
            j = j + 1;
        }
        let mut drow: Vec<Option<isize>> = Vec::new();
        let mut y: usize = 0;
        while y < n
            invariant
                y <= n,
                wrow@.len() == n,
                drow@.len() == y,
                forall|z: int| 0 <= z < y ==> #[trigger] drow@[z] == wrow@[z],
            decreases n - y,
        {
            drow.push(wrow[y]);
            y = y + 1;
        }
        assert(drow@ =~= wrow@);
        weights.push(wrow);
        dist.push(drow);
        next.push(nrow);
        proof {
            walks = walks.push(Seq::new(n as nat, |y: int| seq![i as int, y]));
        }
        i = i + 1;
    }
    proof {
        assert forall|x: int, y: int|
            0 <= x < n && 0 <= y < n && (#[trigger] dist@[x]@[y]) is Some implies {
                let w = walks[x][y];
                is_walk(*g, w) && w[0] == x && w.last() == y
            } by {
            let w = walks[x][y];
            assert(w == seq![x, y]);
            assert(w[0] == x && w[1] == y);
            assert(weights@[x]@[y] == g.edge(x, y) && dist@[x]@[y] == g.edge(x, y));
            assert(g.edge(w[0], w[1]) is Some);
            assert forall|t: int| 0 <= t < w.len() implies 0 <= #[trigger] w[t] < g.vertex_seq().len() by {}
            assert forall|t: int| 0 <= t < w.len() - 1 implies (#[trigger] g.edge(w[t], w[t + 1])) is Some by {
                assert(t == 0);
            }
        }
        assert forall|x: int, y: int|
            0 <= x < n && 0 <= y < n implies ((#[trigger] dist@[x]@[y]) is Some <==> next@[x]@[y] is Some) by {
            assert(weights@[x]@[y] == g.edge(x, y) && dist@[x]@[y] == g.edge(x, y));
        }
        assert forall|x: int, y: int|
            0 <= x < n && 0 <= y < n && (#[trigger] next@[x]@[y]) is Some implies {
                let s = next@[x]@[y]->Some_0 as int;
                0 <= s < n && g.edge(x, s) is Some
            } by {
            assert(next@[x]@[y] == if g.edge(x, y) is Some { Some(y as usize) } else { None });
            assert(g.edge(x, y) is Some);
            assert(next@[x]@[y]->Some_0 as int == y);
        }
        assert forall|x: int, y: int|
            0 <= x < n && 0 <= y < n && (#[trigger] g.edge(x, y)) is Some implies {
                &&& dist@[x]@[y] is Some
                &&& dist@[x]@[y]->Some_0 <= g.edge(x, y)->Some_0
            } by {
            assert(weights@[x]@[y] == g.edge(x, y) && dist@[x]@[y] == g.edge(x, y));
        }
        assert forall|x: int| 0 <= x < n implies (#[trigger] dist@[x])@.len() == n && next@[x]@.len() == n && walks[x].len() == n by {
            assert(weights@[x]@.len() == n);
        }
        assert forall|x: int| 0 <= x < n implies (#[trigger] next@[x])@.len() == n by {
            assert(weights@[x]@.len() == n);
        }
        assert forall|x: int| 0 <= x < n implies (#[trigger] walks[x]).len() == n by {
            assert(weights@[x]@.len() == n);
        }
        assert(fw_ok(*g, dist@, next@, walks));
        assert(holds_weights(*g, weights@));
    }
    let mut k: usize = 0;
    while k < n
        invariant
            g.wf(),
            n == g.vertex_seq().len(),
            k <= n,
            fw_ok(*g, dist@, next@, walks),
            holds_weights(*g, weights@),
        decreases n - k,
    {
        let mut i: usize = 0;
        while i < n
            invariant
                g.wf(),
                n == g.vertex_seq().len(),
                k < n,
                i <= n,
                fw_ok(*g, dist@, next@, walks),
                holds_weights(*g, weights@),
            decreases n - i,
        {
            let mut j: usize = 0;
            while j < n
                invariant
                    g.wf(),
                    n == g.vertex_seq().len(),
                    k < n,
                    i < n,
                    j <= n,
                    fw_ok(*g, dist@, next@, walks),
                    holds_weights(*g, weights@),
                decreases n - j,
            {
                let nw = relax(g, &mut dist, &mut next, Ghost(walks), i, j, k);
                proof {
                    walks = nw@;
                }
                j = j + 1;
            }
            i = i + 1;
        }
        k = k + 1;
    }
    let mut i: usize = 0;
    while i < n
        invariant
            g.wf(),
            n == g.vertex_seq().len(),
            i <= n,
            holds_weights(*g, weights@),
            dist@.len() == n,
            next@.len() == n,
            walks.len() == n,
            forall|x: int| 0 <= x < n ==> (#[trigger] dist@[x])@.len() == n,
            forall|x: int| 0 <= x < n ==> (#[trigger] next@[x])@.len() == n,
            forall|x: int, y: int|
                0 <= x < n && 0 <= y < n && (#[trigger] next@[x]@[y]) is Some ==> {
                    let s = next@[x]@[y]->Some_0 as int;
                    0 <= s < n && g.edge(x, s) is Some
                },
            forall|x: int, y: int|
                0 <= x < n && 0 <= y < n && (#[trigger] dist@[x]@[y]) is Some ==> {
                    let w = walks[x][y];
                    is_walk(*g, w) && w[0] == x && w.last() == y
                },
            forall|x: int| 0 <= x < i ==> (#[trigger] dist@[x])@[x] is None,
            forall|x: int, y: int|
                0 <= x < n && 0 <= y < n && x != y && (#[trigger] g.edge(x, y)) is Some ==> dist@[x]@[y] is Some
                    && dist@[x]@[y]->Some_0 <= g.edge(x, y)->Some_0,
        decreases n - i,
    {
        let ghost d0 = dist@;
        let ghost n0 = next@;
        let mut row: Vec<Option<isize>> = Vec::new();
        dist.set_and_swap(i, &mut row);
        row.set(i, None);
        dist.set_and_swap(i, &mut row);
        let mut nrow: Vec<Option<usize>> = Vec::new();
        next.set_and_swap(i, &mut nrow);
        nrow.set(i, None);
        next.set_and_swap(i, &mut nrow);
        proof {
            assert forall|x: int| 0 <= x < n implies (#[trigger] dist@[x])@.len() == n by {
                assert(x == i || dist@[x] == d0[x]);
            }
            assert forall|x: int| 0 <= x < n implies (#[trigger] next@[x])@.len() == n by {
                assert(x == i || next@[x] == n0[x]);
            }
            assert forall|x: int, y: int|
                0 <= x < n && 0 <= y < n && (#[trigger] next@[x]@[y]) is Some implies {
                    let s = next@[x]@[y]->Some_0 as int;
                    0 <= s < n && g.edge(x, s) is Some
                } by {
                assert(next@[x]@[y] == n0[x]@[y]);
            }
            assert forall|x: int, y: int|
                0 <= x < n && 0 <= y < n && (#[trigger] dist@[x]@[y]) is Some implies {
                    let w = walks[x][y];
                    is_walk(*g, w) && w[0] == x && w.last() == y
                } by {
                assert(dist@[x]@[y] == d0[x]@[y]);
            }
            assert forall|x: int| 0 <= x < i + 1 implies (#[trigger] dist@[x])@[x] is None by {
                if x != i {
                    assert(dist@[x] == d0[x]);
                }
            }
            assert forall|x: int, y: int|
                0 <= x < n && 0 <= y < n && x != y && (#[trigger] g.edge(x, y)) is Some implies dist@[x]@[y] is Some
                    && dist@[x]@[y]->Some_0 <= g.edge(x, y)->Some_0 by {
                assert(dist@[x]@[y] == d0[x]@[y]);
            }
        }
        i = i + 1;
    }
    let sp = ShortestPaths { weights, dist, next };
    proof {
        assert(sp.weight_matrix().len() == n);
        assert forall|x: int, y: int| 0 <= x < n && 0 <= y < n implies #[trigger] sp.weight_matrix()[x][y] == g.edge(x, y) by {
            assert(sp.weight_matrix()[x] == sp.weights@[x]@);
        }
        assert forall|x: int, y: int|
            0 <= x < n && 0 <= y < n && (#[trigger] sp.next@[x]@[y]) is Some implies {
                let s = sp.next@[x]@[y]->Some_0 as int;
                0 <= s < n && sp.weights@[x]@[s] is Some
            } by {
            let s = sp.next@[x]@[y]->Some_0 as int;
            assert(sp.weights@[x]@[s] == g.edge(x, s));
        }
        assert forall|x: int| 0 <= x < n implies #[trigger] sp.dist_matrix()[x][x] is None by {
            assert(sp.dist_matrix()[x] == sp.dist@[x]@);
        }
        assert forall|x: int, y: int|
            0 <= x < n && 0 <= y < n && x != y && (#[trigger] g.edge(x, y)) is Some implies sp.dist_matrix()[x][y] is Some
                && sp.dist_matrix()[x][y]->Some_0 <= g.edge(x, y)->Some_0 by {
            assert(sp.dist_matrix()[x] == sp.dist@[x]@);
        }
        assert forall|x: int, y: int|
            0 <= x < n && 0 <= y < n && (#[trigger] sp.dist_matrix()[x][y]) is Some implies exists|w: Seq<int>|
                is_walk(*g, w) && w[0] == x && w.last() == y by {
            assert(sp.dist_matrix()[x] == sp.dist@[x]@);
            assert(is_walk(*g, walks[x][y]));
        }
    }
    sp
}

/// `weights` is the graph's weight matrix.
spec fn holds_weights<V>(g: Graph<V, isize>, weights: Seq<Vec<Option<isize>>>) -> bool {
    &&& weights.len() == g.vertex_seq().len()
    &&& forall|x: int| 0 <= x < weights.len() ==> (#[trigger] weights[x])@.len() == weights.len()
    &&& forall|x: int, y: int| 0 <= x < weights.len() && 0 <= y < weights.len() ==> #[trigger] weights[x]@[y] == g.edge(x, y)
}

} // verus!
