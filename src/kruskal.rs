//! Kruskal's algorithm on the adjacency-matrix graph, with the union-find structure of the
//! `union_find` crate keeping track of which vertices the chosen edges have joined.
use vstd::prelude::*;
use union_find::{QuickFindUf, UnionBySize, UnionFind};
use crate::matrix::Graph;

verus! {

#[verifier::external_type_specification]
#[verifier::external_body]
#[verifier::reject_recursive_types(V)]
pub struct ExQuickFindUf<V>(QuickFindUf<V>);

#[verifier::external_type_specification]
#[verifier::external_body]
pub struct ExUnionBySize(UnionBySize);

/// The root key of each key's set: entry `k` is the key that `find(k)` returns.
pub uninterp spec fn uf_roots(uf: QuickFindUf<UnionBySize>) -> Seq<nat>;

/// Relies on `UnionFind::new` for `QuickFindUf`: it inserts `len` sets, key `k` alone in
/// set `k`, so every key is its own root.
#[verifier::external_body]
fn uf_new(len: usize) -> (uf: QuickFindUf<UnionBySize>)
    ensures
        uf_roots(uf).len() == len,
        forall|k: int| 0 <= k < len ==> #[trigger] uf_roots(uf)[k] == k,
{
    <QuickFindUf<UnionBySize> as UnionFind<UnionBySize>>::new(len)
}

/// Relies on `QuickFindUf::union`: when the roots of the two keys differ, every key whose
/// root is either of them takes one of the two as its root, and the call returns `true`;
/// otherwise nothing changes and it returns `false`. Keys out of range make it panic.
#[verifier::external_body]
fn uf_union(uf: &mut QuickFindUf<UnionBySize>, key0: usize, key1: usize) -> (r: bool)
    requires
        key0 < uf_roots(*old(uf)).len(),
        key1 < uf_roots(*old(uf)).len(),
    ensures
        r == (uf_roots(*old(uf))[key0 as int] != uf_roots(*old(uf))[key1 as int]),
        uf_roots(*final(uf)).len() == uf_roots(*old(uf)).len(),
        uf_roots(*final(uf))[key0 as int] == uf_roots(*old(uf))[key0 as int] || uf_roots(*final(uf))[key0 as int]
            == uf_roots(*old(uf))[key1 as int],
        forall|x: int|
            0 <= x < uf_roots(*old(uf)).len() ==> #[trigger] uf_roots(*final(uf))[x] == if uf_roots(*old(uf))[x]
                == uf_roots(*old(uf))[key0 as int] || uf_roots(*old(uf))[x] == uf_roots(*old(uf))[key1 as int] {
                uf_roots(*final(uf))[key0 as int]
            } else {
                uf_roots(*old(uf))[x]
            },
{
    uf.union(key0, key1)
}

/// The label of vertex `x` after the first `i` edges of `tree` have each merged the label
/// class of their second end into that of their first.
pub open spec fn merged(tree: Seq<(usize, usize, usize)>, i: int, x: int) -> int
    decreases i,
{
    if i <= 0 {
        x
    } else {
        let e = tree[i - 1];
        if merged(tree, i - 1, x) == merged(tree, i - 1, e.1 as int) {
            merged(tree, i - 1, e.0 as int)
        } else {
            merged(tree, i - 1, x)
        }
    }
}

/// The first `j` edges of `tree` weigh at most `w` each, and together join `u` and `v`.
/// Some prefix of `tree` of edges no heavier than edge `c` joins the ends of `c`.
pub open spec fn joined_lightly(tree: Seq<(usize, usize, usize)>, c: (usize, usize, usize)) -> bool {
    exists|j: int| #[trigger] light_join(tree, j, c.0 as int, c.1 as int, c.2 as int)
}

pub open spec fn light_join(tree: Seq<(usize, usize, usize)>, j: int, u: int, v: int, w: int) -> bool {
    &&& 0 <= j <= tree.len()
    &&& forall|t: int| 0 <= t < j ==> #[trigger] tree[t].2 <= w
    &&& merged(tree, j, u) == merged(tree, j, v)
}

/// The chosen edges form a spanning forest of `g` read as undirected: each is an edge of
/// `g` with its weight, each joins two vertices that the edges before it had not joined,
/// and together they join the two ends of every edge of `g`.
pub open spec fn spanning_forest<V>(g: Graph<V, usize>, tree: Seq<(usize, usize, usize)>) -> bool {
    &&& forall|i: int|
        0 <= i < tree.len() ==> {
            &&& (#[trigger] tree[i]).0 < g.vertex_seq().len()
            &&& tree[i].1 < g.vertex_seq().len()
            &&& g.edge(tree[i].0 as int, tree[i].1 as int) == Some(tree[i].2)
            &&& merged(tree, i, tree[i].0 as int) != merged(tree, i, tree[i].1 as int)
        }
    &&& forall|u: int, v: int|
        0 <= u < g.vertex_seq().len() && 0 <= v < g.vertex_seq().len() && (#[trigger] g.edge(u, v)) is Some
            ==> merged(tree, tree.len() as int, u) == merged(tree, tree.len() as int, v)
}

/// Every edge of `g` as `(from, to, weight)`, ordered by weight.
fn sorted_edges<V>(g: &Graph<V, usize>) -> (edges: Vec<(usize, usize, usize)>)
    requires
        g.wf(),
    ensures
        forall|a: int, b: int| 0 <= a < b < edges@.len() ==> edges@[a].2 <= edges@[b].2,
        forall|k: int|
            0 <= k < edges@.len() ==> (#[trigger] edges@[k]).0 < g.vertex_seq().len() && edges@[k].1 < g.vertex_seq().len()
                && g.edge(edges@[k].0 as int, edges@[k].1 as int) == Some(edges@[k].2),
        forall|u: int, v: int|
            0 <= u < g.vertex_seq().len() && 0 <= v < g.vertex_seq().len() && (#[trigger] g.edge(u, v)) is Some
                ==> edges@.contains((u as usize, v as usize, g.edge(u, v)->Some_0)),
{
    let n = g.size();
    let mut edges: Vec<(usize, usize, usize)> = Vec::new();
    let mut u: usize = 0;
    while u < n
        invariant
            g.wf(),
            n == g.vertex_seq().len(),
            u <= n,
            forall|a: int, b: int| 0 <= a < b < edges@.len() ==> edges@[a].2 <= edges@[b].2,
            forall|k: int|
                0 <= k < edges@.len() ==> (#[trigger] edges@[k]).0 < n && edges@[k].1 < n
                    && g.edge(edges@[k].0 as int, edges@[k].1 as int) == Some(edges@[k].2),
            forall|x: int, y: int|
                0 <= x < u && 0 <= y < n && (#[trigger] g.edge(x, y)) is Some
                    ==> edges@.contains((x as usize, y as usize, g.edge(x, y)->Some_0)),
        decreases n - u,
    {
        let mut v: usize = 0;
        while v < n
            invariant
                g.wf(),
                n == g.vertex_seq().len(),
                u < n,
                v <= n,
                forall|a: int, b: int| 0 <= a < b < edges@.len() ==> edges@[a].2 <= edges@[b].2,
                forall|k: int|
                    0 <= k < edges@.len() ==> (#[trigger] edges@[k]).0 < n && edges@[k].1 < n
                        && g.edge(edges@[k].0 as int, edges@[k].1 as int) == Some(edges@[k].2),
                forall|x: int, y: int|
                    0 <= x < u && 0 <= y < n && (#[trigger] g.edge(x, y)) is Some
                        ==> edges@.contains((x as usize, y as usize, g.edge(x, y)->Some_0)),
                forall|y: int|
                    0 <= y < v && (#[trigger] g.edge(u as int, y)) is Some
                        ==> edges@.contains((u, y as usize, g.edge(u as int, y)->Some_0)),
            decreases n - v,
        {
            if g.has_edge(u, v) {
                let w = *g.weight(u, v);
                let e = (u, v, w);
                let mut p: usize = 0;
                while p < edges.len() && edges[p].2 <= w
                    invariant
                        p <= edges@.len(),
                        forall|k: int| 0 <= k < p ==> (#[trigger] edges@[k]).2 <= w,
                    decreases edges@.len() - p,
                {
                    p = p + 1;
                }
                let ghost before = edges@;
                edges.insert(p, e);
                proof {
                    assert(edges@ == before.insert(p as int, e));
                    assert forall|a: int, b: int| 0 <= a < b < edges@.len() implies edges@[a].2 <= edges@[b].2 by {
                        if b < p {
                        } else if b == p {
                            assert(a < p);
                            assert(before[a].2 <= w);
                        } else if a < p {
                            assert(edges@[b] == before[b - 1]);
                            if b - 1 >= p {
                                assert(before[p as int].2 > w || p == before.len());
                                assert(before[a].2 <= w);
                            }
                        } else if a == p {
                            assert(edges@[b] == before[b - 1]);
                            assert(before[p as int].2 > w);
                            assert(before[p as int].2 <= before[b - 1].2 || b - 1 == p);
                        } else {
                            assert(edges@[a] == before[a - 1]);
                            assert(edges@[b] == before[b - 1]);
                        }
                    }
                    assert forall|k: int|
                        0 <= k < edges@.len() implies (#[trigger] edges@[k]).0 < n && edges@[k].1 < n
                            && g.edge(edges@[k].0 as int, edges@[k].1 as int) == Some(edges@[k].2) by {
                        if k < p {
                            assert(edges@[k] == before[k]);
                        } else if k > p {
                            assert(edges@[k] == before[k - 1]);
                        }
                    }
                    assert forall|c: (usize, usize, usize)| before.contains(c) implies edges@.contains(c) by {
                        let k = choose|k: int| 0 <= k < before.len() && before[k] == c;
                        if k < p {
                            assert(edges@[k] == c);
                        } else {
                            assert(edges@[k + 1] == c);
                        }
                    }
                    assert(edges@[p as int] == e);
                }
            }
            v = v + 1;
        }
        u = u + 1;
    }
    edges
}

/// A minimum spanning forest by Kruskal's algorithm, reading the graph as undirected: the
/// edges in order of weight, each kept when its ends lie in different sets of the
/// union-find structure, which it then unites. The chosen edges come in non-decreasing
/// weight, and the ends of every edge of weight `w` are joined by chosen edges that each
/// weigh at most `w`.
pub fn kruskal<V>(g: &Graph<V, usize>) -> (tree: Vec<(usize, usize, usize)>)
    requires
        g.wf(),
    ensures
        spanning_forest(*g, tree@),
        forall|a: int, b: int| 0 <= a < b < tree@.len() ==> tree@[a].2 <= tree@[b].2,
        forall|u: int, v: int|
            0 <= u < g.vertex_seq().len() && 0 <= v < g.vertex_seq().len() && (#[trigger] g.edge(u, v)) is Some
                ==> exists|j: int| #[trigger] light_join(tree@, j, u, v, g.edge(u, v)->Some_0 as int),
{
    let n = g.size();
    let edges = sorted_edges(g);
    let mut uf = uf_new(n);
    let mut tree: Vec<(usize, usize, usize)> = Vec::new();
    let mut i: usize = 0;
    while i < edges.len()
        invariant
            g.wf(),
            n == g.vertex_seq().len(),
            i <= edges@.len(),
            forall|k: int|
                0 <= k < edges@.len() ==> (#[trigger] edges@[k]).0 < n && edges@[k].1 < n
                    && g.edge(edges@[k].0 as int, edges@[k].1 as int) == Some(edges@[k].2),
            uf_roots(uf).len() == n,
            forall|x: int, y: int|
                0 <= x < n && 0 <= y < n ==> (uf_roots(uf)[x] == uf_roots(uf)[y] <==> merged(tree@, tree@.len() as int, x)
                    == merged(tree@, tree@.len() as int, y)),
            forall|k: int|
                0 <= k < tree@.len() ==> {
                    &&& (#[trigger] tree@[k]).0 < n
                    &&& tree@[k].1 < n
                    &&& g.edge(tree@[k].0 as int, tree@[k].1 as int) == Some(tree@[k].2)
                    &&& merged(tree@, k, tree@[k].0 as int) != merged(tree@, k, tree@[k].1 as int)
                },
            forall|k: int|
                0 <= k < i ==> merged(tree@, tree@.len() as int, (#[trigger] edges@[k]).0 as int) == merged(
                    tree@,
                    tree@.len() as int,
                    edges@[k].1 as int,
                ),
            forall|a: int, b: int| 0 <= a < b < edges@.len() ==> edges@[a].2 <= edges@[b].2,
            forall|a: int, b: int| 0 <= a < b < tree@.len() ==> tree@[a].2 <= tree@[b].2,
            forall|t: int| 0 <= t < tree@.len() && i < edges@.len() ==> #[trigger] tree@[t].2 <= edges@[i as int].2,
            forall|k: int|
                0 <= k < i ==> joined_lightly(tree@, #[trigger] edges@[k]),
        decreases edges@.len() - i,
    {
        let e = edges[i];
        let ghost r0 = uf_roots(uf);
        let ghost tb = tree@;
        let ghost len = tb.len() as int;
        if uf_union(&mut uf, e.0, e.1) {
            tree.push(e);
            proof {
                lemma_merged_prefix(tree@, tb);
                let nr = uf_roots(uf);
                assert forall|x: int, y: int|
                    0 <= x < n && 0 <= y < n implies (nr[x] == nr[y] <==> merged(tree@, len + 1, x) == merged(tree@, len + 1, y)) by {
                    assert(merged(tree@, len, x) == merged(tb, len, x));
                    assert(merged(tree@, len, y) == merged(tb, len, y));
                    assert(merged(tree@, len, e.0 as int) == merged(tb, len, e.0 as int));
                    assert(merged(tree@, len, e.1 as int) == merged(tb, len, e.1 as int));
                    assert(nr[x] == nr[y] <==> merged(tree@, len + 1, x) == merged(tree@, len + 1, y)) by {
                        let a = e.0 as int;
                        let b = e.1 as int;
                        assert(r0[x] == r0[a] <==> merged(tb, len, x) == merged(tb, len, a));
                        assert(r0[x] == r0[b] <==> merged(tb, len, x) == merged(tb, len, b));
                        assert(r0[y] == r0[a] <==> merged(tb, len, y) == merged(tb, len, a));
                        assert(r0[y] == r0[b] <==> merged(tb, len, y) == merged(tb, len, b));
                        assert(r0[x] == r0[y] <==> merged(tb, len, x) == merged(tb, len, y));
                        assert(r0[a] != r0[b]);
                    }
                }
                assert forall|k: int|
                    0 <= k < tree@.len() implies {
                        &&& (#[trigger] tree@[k]).0 < n
                        &&& tree@[k].1 < n
                        &&& g.edge(tree@[k].0 as int, tree@[k].1 as int) == Some(tree@[k].2)
                        &&& merged(tree@, k, tree@[k].0 as int) != merged(tree@, k, tree@[k].1 as int)
                    } by {
                    if k < len {
                        assert(tree@[k] == tb[k]);
                        assert(merged(tree@, k, tb[k].0 as int) == merged(tb, k, tb[k].0 as int));
                        assert(merged(tree@, k, tb[k].1 as int) == merged(tb, k, tb[k].1 as int));
                    } else {
                        assert(tree@[k] == e);
                        assert(merged(tree@, len, e.0 as int) == merged(tb, len, e.0 as int));
                        assert(merged(tree@, len, e.1 as int) == merged(tb, len, e.1 as int));
                    }
                }
                assert forall|k: int|
                    0 <= k < i + 1 implies merged(tree@, tree@.len() as int, (#[trigger] edges@[k]).0 as int) == merged(
                        tree@,
                        tree@.len() as int,
                        edges@[k].1 as int,
                    ) by {
                    let c = edges@[k];
                    assert(merged(tree@, len, c.0 as int) == merged(tb, len, c.0 as int));
                    assert(merged(tree@, len, c.1 as int) == merged(tb, len, c.1 as int));
                    assert(merged(tree@, len, e.1 as int) == merged(tb, len, e.1 as int));
                    assert(merged(tree@, len, e.0 as int) == merged(tb, len, e.0 as int));
                }
            }
        } else {
            proof {
                let nr = uf_roots(uf);
                assert forall|x: int| 0 <= x < n implies #[trigger] nr[x] == r0[x] by {}
                assert(r0[e.0 as int] == r0[e.1 as int]);
            }
        }
        proof {
            assert(merged(tree@, tree@.len() as int, (edges@[i as int]).0 as int) == merged(tree@, tree@.len() as int, edges@[i as int].1 as int));
            lemma_kruskal_step(edges@, tb, tree@, i as int);
        }
        i = i + 1;
    }
    proof {
        assert forall|u: int, v: int|
            0 <= u < g.vertex_seq().len() && 0 <= v < g.vertex_seq().len() && (#[trigger] g.edge(u, v)) is Some
                implies exists|j: int| #[trigger] light_join(tree@, j, u, v, g.edge(u, v)->Some_0 as int) by {
            let c = (u as usize, v as usize, g.edge(u, v)->Some_0);
            assert(edges@.contains(c));
            let k = choose|k: int| 0 <= k < edges@.len() && edges@[k] == c;
            assert(edges@[k] == c);
        }
        assert forall|u: int, v: int|
            0 <= u < g.vertex_seq().len() && 0 <= v < g.vertex_seq().len() && (#[trigger] g.edge(u, v)) is Some
                implies merged(tree@, tree@.len() as int, u) == merged(tree@, tree@.len() as int, v) by {
            let c = (u as usize, v as usize, g.edge(u, v)->Some_0);
            assert(edges@.contains(c));
            let k = choose|k: int| 0 <= k < edges@.len() && edges@[k] == c;
            assert(edges@[k] == c);
        }
    }
    tree
}

/// After edge `i` of the sorted `edges` is handled (kept or not), the chosen edges stay in
/// weight order, weigh no more than the next edge, and join the ends of edges `0..=i` with
/// edges no heavier than each.
proof fn lemma_kruskal_step(
    edges: Seq<(usize, usize, usize)>,
    tb: Seq<(usize, usize, usize)>,
    tree: Seq<(usize, usize, usize)>,
    i: int,
)
    requires
        0 <= i < edges.len(),
        tree == tb || tree == tb.push(edges[i]),
        forall|a: int, b: int| 0 <= a < b < edges.len() ==> edges[a].2 <= edges[b].2,
        forall|a: int, b: int| 0 <= a < b < tb.len() ==> tb[a].2 <= tb[b].2,
        forall|t: int| 0 <= t < tb.len() ==> #[trigger] tb[t].2 <= edges[i].2,
        forall|k: int|
            0 <= k < i ==> joined_lightly(tb, #[trigger] edges[k]),
        merged(tree, tree.len() as int, edges[i].0 as int) == merged(tree, tree.len() as int, edges[i].1 as int),
    ensures
        forall|a: int, b: int| 0 <= a < b < tree.len() ==> tree[a].2 <= tree[b].2,
        forall|t: int| 0 <= t < tree.len() && i + 1 < edges.len() ==> #[trigger] tree[t].2 <= edges[i + 1].2,
        forall|k: int|
            0 <= k < i + 1 ==> joined_lightly(tree, #[trigger] edges[k]),
{
    let len2 = tree.len() as int;
    lemma_merged_prefix(tree, tb);
    assert forall|a: int, b: int| 0 <= a < b < tree.len() implies tree[a].2 <= tree[b].2 by {
        if b == tb.len() {
            assert(tb[a].2 <= edges[i].2);
        }
    }
    assert forall|t: int| 0 <= t < tree.len() && i + 1 < edges.len() implies #[trigger] tree[t].2 <= edges[i + 1].2 by {
        assert(edges[i].2 <= edges[i + 1].2);
        if t < tb.len() {
            assert(tb[t].2 <= edges[i].2);
        }
    }
    assert forall|k: int|
        0 <= k < i + 1 implies joined_lightly(tree, #[trigger] edges[k]) by {
        let c = edges[k];
        if k < i {
            assert(joined_lightly(tb, edges[k]));
            let j = choose|j: int| #[trigger] light_join(tb, j, c.0 as int, c.1 as int, c.2 as int);
            assert forall|t: int| 0 <= t < j implies #[trigger] tree[t].2 <= c.2 by {
                assert(tree[t] == tb[t]);
            }
            assert(merged(tree, j, c.0 as int) == merged(tb, j, c.0 as int));
            assert(merged(tree, j, c.1 as int) == merged(tb, j, c.1 as int));
            assert(light_join(tree, j, c.0 as int, c.1 as int, c.2 as int));
            assert(joined_lightly(tree, c));
        } else {
            assert forall|t: int| 0 <= t < len2 implies #[trigger] tree[t].2 <= c.2 by {
                if t < tb.len() {
                    assert(tb[t].2 <= edges[i].2);
                }
            }
            assert(light_join(tree, len2, c.0 as int, c.1 as int, c.2 as int));
            assert(joined_lightly(tree, c));
        }
    }
}

/// The labels after a prefix of the edges do not depend on the edges after it.
proof fn lemma_merged_prefix(tree: Seq<(usize, usize, usize)>, pre: Seq<(usize, usize, usize)>)
    requires
        pre.len() <= tree.len(),
        forall|i: int| 0 <= i < pre.len() ==> #[trigger] pre[i] == tree[i],
    ensures
        forall|i: int, x: int| 0 <= i <= pre.len() ==> #[trigger] merged(tree, i, x) == merged(pre, i, x),
{
    assert forall|i: int, x: int| 0 <= i <= pre.len() implies #[trigger] merged(tree, i, x) == merged(pre, i, x) by {
        lemma_merged_prefix_at(tree, pre, i, x);
    }
}

proof fn lemma_merged_prefix_at(tree: Seq<(usize, usize, usize)>, pre: Seq<(usize, usize, usize)>, i: int, x: int)
    requires
        0 <= i <= pre.len() <= tree.len(),
        forall|j: int| 0 <= j < pre.len() ==> #[trigger] pre[j] == tree[j],
    ensures
        merged(tree, i, x) == merged(pre, i, x),
    decreases i, 0int,
{
    if i > 0 {
        let e = tree[i - 1];
        assert(pre[i - 1] == e);
        lemma_merged_prefix_at(tree, pre, i - 1, x);
        lemma_merged_prefix_at(tree, pre, i - 1, e.0 as int);
        lemma_merged_prefix_at(tree, pre, i - 1, e.1 as int);
    }
}

} // verus!
