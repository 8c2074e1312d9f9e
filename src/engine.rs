//! Single-source shortest paths (Dijkstra) and a spanning tree (Prim), both driven by the
//! addressable pairing heap, over a graph given as adjacency lists.
//!
//! Vertices are `0..n`; `adjacency[u]` lists the pairs `(v, w)`: an edge from `u` to `v` of
//! weight `w`.
use vstd::prelude::*;
use vstd::set_lib::*;
use crate::pairing_heap::{Handle, PairingHeap, is_min_entry};

verus! {

/// The distance reported for a vertex that cannot be reached; larger than any finite sum the
/// engine stores.
pub const UNREACHABLE: usize = usize::MAX;

/// The adjacency lists as sequences.
pub open spec fn graph_of(adj: Seq<Vec<(usize, usize)>>) -> Seq<Seq<(usize, usize)>> {
    adj.map_values(|l: Vec<(usize, usize)>| l@)
}

/// Every edge ends at a vertex of the graph.
pub open spec fn targets_in_range(g: Seq<Seq<(usize, usize)>>) -> bool {
    forall|u: int, k: int|
        0 <= u < g.len() && 0 <= k < g[u].len() ==> (#[trigger] g[u][k]).0 < g.len()
}

/// Where a walk from `src` ends. A walk is a sequence of steps `(u, k)`: take the `k`-th edge
/// out of `u`.
pub open spec fn walk_end(g: Seq<Seq<(usize, usize)>>, src: int, w: Seq<(int, int)>) -> int {
    if w.len() == 0 {
        src
    } else {
        g[w.last().0][w.last().1].0 as int
    }
}

/// Each step of `w` leaves the vertex where the previous steps ended, along an existing edge.
pub open spec fn is_walk(g: Seq<Seq<(usize, usize)>>, src: int, w: Seq<(int, int)>) -> bool
    decreases w.len(),
{
    if w.len() == 0 {
        true
    } else {
        let (u, k) = w.last();
        &&& is_walk(g, src, w.drop_last())
        &&& u == walk_end(g, src, w.drop_last())
        &&& 0 <= u < g.len()
        &&& 0 <= k < g[u].len()
    }
}

/// The sum of the weights of the edges that `w` takes.
pub open spec fn walk_len(g: Seq<Seq<(usize, usize)>>, w: Seq<(int, int)>) -> int
    decreases w.len(),
{
    if w.len() == 0 {
        0
    } else {
        walk_len(g, w.drop_last()) + g[w.last().0][w.last().1].1
    }
}

/// `d` holds shortest distances from `src`: `d[src]` is 0, no edge out of a reached vertex
/// can shorten the distance of its target, and every finite distance is the length of a walk
/// from `src`. Vertices that no walk reaches keep `UNREACHABLE`.
pub open spec fn shortest_distances(g: Seq<Seq<(usize, usize)>>, src: int, d: Seq<usize>) -> bool {
    &&& d.len() == g.len()
    &&& d[src] == 0
    &&& forall|u: int, k: int|
        0 <= u < g.len() && 0 <= k < g[u].len() && d[u] < UNREACHABLE ==> d[(#[trigger] g[u][k]).0 as int]
            <= d[u] + g[u][k].1
    &&& forall|v: int|
        0 <= v < g.len() && #[trigger] d[v] < UNREACHABLE ==> exists|w: Seq<(int, int)>|
            is_walk(g, src, w) && walk_end(g, src, w) == v && walk_len(g, w) == d[v]
}

/// Distances that meet `shortest_distances` are never longer than a walk: for every walk
/// from `src`, the distance of its end is at most its length.
pub proof fn lemma_no_shorter_walk(g: Seq<Seq<(usize, usize)>>, src: int, d: Seq<usize>, w: Seq<(int, int)>)
    requires
        0 <= src < g.len(),
        targets_in_range(g),
        shortest_distances(g, src, d),
        is_walk(g, src, w),
    ensures
        d[walk_end(g, src, w)] <= walk_len(g, w),
    decreases w.len(),
{
    if w.len() > 0 {
        let (u, k) = w.last();
        lemma_no_shorter_walk(g, src, d, w.drop_last());
        let v = g[u][k].0 as int;
        assert(v < g.len());
        if d[u] < UNREACHABLE {
            assert(d[v] <= d[u] + g[u][k].1);
        } else {
            assert(d[v] <= UNREACHABLE);
        }
    }
}

/// `shortest_distances` pins the distances down: two sequences that both meet it are equal.
pub proof fn lemma_distances_unique(g: Seq<Seq<(usize, usize)>>, src: int, d1: Seq<usize>, d2: Seq<usize>)
    requires
        0 <= src < g.len(),
        targets_in_range(g),
        shortest_distances(g, src, d1),
        shortest_distances(g, src, d2),
    ensures
        d1 == d2,
{
    assert forall|v: int| 0 <= v < g.len() implies d1[v] == d2[v] by {
        if d1[v] < UNREACHABLE {
            let w = choose|w: Seq<(int, int)>| is_walk(g, src, w) && walk_end(g, src, w) == v && walk_len(g, w) == d1[v];
            lemma_no_shorter_walk(g, src, d2, w);
        }
        if d2[v] < UNREACHABLE {
            let w = choose|w: Seq<(int, int)>| is_walk(g, src, w) && walk_end(g, src, w) == v && walk_len(g, w) == d2[v];
            lemma_no_shorter_walk(g, src, d1, w);
        }
    }
    assert(d1 =~= d2);
}

/// A vertex that no walk from `src` reaches keeps the `UNREACHABLE` distance.
pub proof fn lemma_unreached_is_unreachable(g: Seq<Seq<(usize, usize)>>, src: int, d: Seq<usize>, v: int)
    requires
        shortest_distances(g, src, d),
        0 <= v < g.len(),
        forall|w: Seq<(int, int)>| is_walk(g, src, w) ==> walk_end(g, src, w) != v,
    ensures
        d[v] == UNREACHABLE,
{
    if d[v] < UNREACHABLE {
        let w = choose|w: Seq<(int, int)>| is_walk(g, src, w) && walk_end(g, src, w) == v && walk_len(g, w) == d[v];
        assert(walk_end(g, src, w) != v);
    }
}

/// Extending a walk by one more edge out of its end gives a walk, one edge longer.
proof fn lemma_walk_push(g: Seq<Seq<(usize, usize)>>, src: int, w: Seq<(int, int)>, u: int, k: int)
    requires
        is_walk(g, src, w),
        walk_end(g, src, w) == u,
        0 <= u < g.len(),
        0 <= k < g[u].len(),
    ensures
        is_walk(g, src, w.push((u, k))),
        walk_end(g, src, w.push((u, k))) == g[u][k].0,
        walk_len(g, w.push((u, k))) == walk_len(g, w) + g[u][k].1,
{
    assert(w.push((u, k)).drop_last() =~= w);
}

/// Runs Dijkstra's algorithm from `src` with the pairing heap. Relaxation adds with
/// saturation, so a vertex at `UNREACHABLE` never makes a finite offer.
pub fn dijkstra(adj: &Vec<Vec<(usize, usize)>>, src: usize) -> (d: Vec<usize>)
    requires
        src < adj@.len(),
        targets_in_range(graph_of(adj@)),
    ensures
        shortest_distances(graph_of(adj@), src as int, d@),
{
    let ghost g = graph_of(adj@);
    let n = adj.len();
    let mut heap: PairingHeap<usize> = PairingHeap::new();
    let mut handles: Vec<Handle> = Vec::new();
    let mut dist: Vec<usize> = Vec::new();
    let mut done: Vec<bool> = Vec::new();
    let ghost mut paths: Seq<Seq<(int, int)>> = Seq::empty();
    let mut v: usize = 0;
    while v < n
        invariant
            n == adj@.len(),
            src < n,
            v <= n,
            heap.wf(),
            heap.slots() == v,
            handles@.len() == v,
            dist@.len() == v,
            done@.len() == v,
            paths.len() == v,
            forall|x: int| 0 <= x < v ==> #[trigger] handles@[x].heap_id() == heap.id() && handles@[x].slot() == x,
            forall|x: nat| #[trigger] heap@.contains_key(x) <==> x < v,
            forall|x: nat| #[trigger] heap@.contains_key(x) ==> heap@[x] == (dist@[x as int], x as usize),
            forall|x: int| 0 <= x < v ==> !#[trigger] done@[x],
            forall|x: int| 0 <= x < v ==> #[trigger] dist@[x] == if x == src { 0 } else { UNREACHABLE },
            forall|x: int| 0 <= x < v && x == src ==> #[trigger] paths[x] == Seq::<(int, int)>::empty(),
        decreases n - v,
    {
        let key = if v == src { 0 } else { UNREACHABLE };
        let h = heap.insert(key, v);
        handles.push(h);
        dist.push(key);
        done.push(false);
        proof {
            paths = paths.push(Seq::empty());
        }
        v = v + 1;
    }
    let ghost mut settled: Set<int> = Set::empty();
    let mut count: usize = 0;
    proof {
        lemma_int_range(0, n as int);
    }
    loop
        invariant
            n == adj@.len(),
            g == graph_of(adj@),
            targets_in_range(g),
            src < n,
            heap.wf(),
            handles@.len() == n,
            dist@.len() == n,
            done@.len() == n,
            paths.len() == n,
            set_int_range(0, n as int).finite(),
            set_int_range(0, n as int).len() == n,
            settled.finite(),
            settled.len() == count,
            settled.subset_of(set_int_range(0, n as int)),
            forall|x: int| 0 <= x < n ==> (#[trigger] done@[x] <==> settled.contains(x)),
            forall|x: int| 0 <= x < n ==> #[trigger] handles@[x].heap_id() == heap.id() && handles@[x].slot() == x,
            forall|x: nat| #[trigger] heap@.contains_key(x) <==> x < n && !done@[x as int],
            forall|x: nat| #[trigger] heap@.contains_key(x) ==> heap@[x] == (dist@[x as int], x as usize),
            dist@[src as int] == 0,
            forall|s: int, t: int|
                0 <= s < n && 0 <= t < n && #[trigger] done@[s] && !#[trigger] done@[t] ==> dist@[s] <= dist@[t],
            forall|u: int, k: int|
                0 <= u < n && 0 <= k < g[u].len() && done@[u] && dist@[u] < UNREACHABLE ==> dist@[(#[trigger] g[u][k]).0 as int]
                    <= dist@[u] + g[u][k].1,
            forall|x: int|
                0 <= x < n && #[trigger] dist@[x] < UNREACHABLE ==> is_walk(g, src as int, paths[x])
                    && walk_end(g, src as int, paths[x]) == x && walk_len(g, paths[x]) == dist@[x],
        ensures
            heap@ == Map::<nat, (usize, usize)>::empty(),
        decreases n - count,
    {
        let ghost pre_heap = heap;
        let popped = heap.delete_min();
        let u = match popped {
            None => {
                break;
            },
            Some((_, u)) => u,
        };
        let ghost pre_dist = dist@;
        let ghost pre_done = done@;
        proof {
            let i = choose|i: nat| #[trigger] is_min_entry(pre_heap@, i) && pre_heap@[i].1 == u && heap@ == pre_heap@.remove(i);
            assert(pre_heap@.contains_key(i));
            assert(i == u as nat);
            assert(!done@[u as int]);
            assert(pre_heap@[i] == (dist@[u as int], u));
            assert forall|t: int| 0 <= t < n && !done@[t] implies dist@[u as int] <= #[trigger] dist@[t] by {
                assert(pre_heap@.contains_key(t as nat));
                assert(pre_heap@[t as nat] == (dist@[t], t as usize));
                assert(pre_heap@[i].0 <= pre_heap@[t as nat].0);
            }
            assert(!settled.contains(u as int));
            lemma_len_subset(settled.insert(u as int), set_int_range(0, n as int));
            settled = settled.insert(u as int);
        }
        done.set(u, true);
        count = count + 1;
        let du = dist[u];
        let mut k: usize = 0;
        while k < adj[u].len()
            invariant
                n == adj@.len(),
                g == graph_of(adj@),
                targets_in_range(g),
                src < n,
                u < n,
                heap.wf(),
                handles@.len() == n,
                dist@.len() == n,
                done@.len() == n,
                paths.len() == n,
                k <= g[u as int].len(),
                pre_done.len() == n,
                pre_dist.len() == n,
                done@ == pre_done.update(u as int, true),
                !pre_done[u as int],
                du == dist@[u as int],
                du == pre_dist[u as int],
                forall|x: int| 0 <= x < n ==> #[trigger] handles@[x].heap_id() == heap.id() && handles@[x].slot() == x,
                forall|x: nat| #[trigger] heap@.contains_key(x) <==> x < n && !done@[x as int],
                forall|x: nat| #[trigger] heap@.contains_key(x) ==> heap@[x] == (dist@[x as int], x as usize),
                dist@[src as int] == 0,
                forall|x: int| 0 <= x < n ==> #[trigger] dist@[x] <= pre_dist[x],
                forall|x: int| 0 <= x < n && done@[x] ==> #[trigger] dist@[x] == pre_dist[x],
                forall|x: int| 0 <= x < n && !done@[x] ==> du <= #[trigger] dist@[x],
                forall|s: int, t: int|
                    0 <= s < n && 0 <= t < n && #[trigger] pre_done[s] && !#[trigger] pre_done[t] ==> pre_dist[s] <= pre_dist[t],
                forall|s: int, kk: int|
                    0 <= s < n && 0 <= kk < g[s].len() && pre_done[s] && pre_dist[s] < UNREACHABLE ==> pre_dist[(#[trigger] g[s][kk]).0 as int]
                        <= pre_dist[s] + g[s][kk].1,
                forall|kk: int|
                    0 <= kk < k && du < UNREACHABLE ==> dist@[(#[trigger] g[u as int][kk]).0 as int] <= du + g[u as int][kk].1,
                forall|x: int|
                    0 <= x < n && #[trigger] dist@[x] < UNREACHABLE ==> is_walk(g, src as int, paths[x])
                        && walk_end(g, src as int, paths[x]) == x && walk_len(g, paths[x]) == dist@[x],
            decreases g[u as int].len() - k,
        {
            let (t, w) = adj[u][k];
            let ghost d0 = dist@;
            assert(g[u as int][k as int] == (t, w));
            if done[t] && t != u {
                assert(pre_done[t as int]);
                assert(pre_dist[t as int] <= pre_dist[u as int]);
            }
            if !done[t] {
                let nd = if w > UNREACHABLE - du { UNREACHABLE } else { du + w };
                if nd < dist[t] {
                    let ghost before = dist@;
                    let ghost hb = heap@;
                    proof {
                        assert(heap@.contains_key(t as nat));
                        assert(handles@[t as int].heap_id() == heap.id());
                        assert(handles@[t as int].slot() == t);
                        assert(heap@[t as nat].0 == dist@[t as int]);
                    }
                    heap.update_key(&handles[t], nd);
                    dist.set(t, nd);
                    proof {
                        lemma_walk_push(g, src as int, paths[u as int], u as int, k as int);
                        paths = paths.update(t as int, paths[u as int].push((u as int, k as int)));
                        assert forall|x: nat| #[trigger] heap@.contains_key(x) implies heap@[x] == (dist@[x as int], x as usize) by {
                            assert(hb.contains_key(x));
                            if x != t {
                                assert(hb[x] == heap@[x]);
                                assert(before[x as int] == dist@[x as int]);
                            }
                        }
                    }
                }
            }
            proof {
                assert forall|kk: int|
                    0 <= kk < k + 1 && du < UNREACHABLE implies dist@[(#[trigger] g[u as int][kk]).0 as int] <= du + g[u as int][kk].1 by {
                    if kk < k {
                        let x = g[u as int][kk].0 as int;
                        assert(d0[x] <= du + g[u as int][kk].1);
                    }
                }
            }
            k = k + 1;
        }
        proof {
            assert forall|s: int, t: int|
                0 <= s < n && 0 <= t < n && #[trigger] done@[s] && !#[trigger] done@[t] implies dist@[s] <= dist@[t] by {
                if s != u {
                    assert(pre_done[s]);
                    assert(!pre_done[t]);
                }
            }
            assert forall|s: int, kk: int|
                0 <= s < n && 0 <= kk < g[s].len() && done@[s] && dist@[s] < UNREACHABLE implies dist@[(#[trigger] g[s][kk]).0 as int]
                    <= dist@[s] + g[s][kk].1 by {
                if s != u {
                    assert(pre_done[s]);
                    let t = g[s][kk].0 as int;
                    assert(dist@[t] <= pre_dist[t]);
                }
            }
            assert forall|x: int| 0 <= x < n implies (#[trigger] done@[x] <==> settled.contains(x)) by {
                if x != u {
                    assert(done@[x] == pre_done[x]);
                }
            }
        }
    }
    proof {
        assert forall|x: int| 0 <= x < n implies #[trigger] done@[x] by {
            assert(!heap@.contains_key(x as nat));
        }
    }
    dist
}

/// Whether `v` belongs to the tree grown from `root`.
pub open spec fn in_tree(root: int, parent: Seq<Option<usize>>, v: int) -> bool {
    v == root || parent[v] is Some
}

/// The vertices joined the tree one at a time in the order `ord`, each through an edge of weight `key` from
/// its parent, which joined before it; and that edge was a lightest one from the tree at the
/// time: no edge from a vertex that joined earlier into a vertex that joined no earlier
/// weighs less.
pub open spec fn greedy_order(
    g: Seq<Seq<(usize, usize)>>,
    root: int,
    parent: Seq<Option<usize>>,
    ord: Seq<int>,
    key: Seq<int>,
) -> bool {
    &&& ord.len() == g.len()
    &&& key.len() == g.len()
    &&& forall|a: int, b: int|
        #![trigger in_tree(root, parent, a), in_tree(root, parent, b)]
        0 <= a < g.len() && 0 <= b < g.len() && a != b && in_tree(root, parent, a) && in_tree(root, parent, b) ==> ord[a]
            != ord[b]
    &&& forall|v: int|
        0 <= v < g.len() && (#[trigger] parent[v]) is Some ==> {
            let p = parent[v]->Some_0 as int;
            &&& ord[p] < ord[v]
            &&& exists|k: int| 0 <= k < g[p].len() && (#[trigger] g[p][k]).0 == v && g[p][k].1 == key[v]
        }
    &&& forall|v: int, u: int, k: int|
        0 <= v < g.len() && (#[trigger] parent[v]) is Some && 0 <= u < g.len() && in_tree(root, parent, u) && ord[u]
            < ord[v] && 0 <= k < g[u].len() && ord[(#[trigger] g[u][k]).0 as int] >= ord[v] ==> key[v] <= g[u][k].1
}

/// `parent` is a tree grown from `root` along edges of `g`: the root has no parent, each
/// parent link follows an edge into the child, the vertices joined in an order that Prim's
/// greedy rule allows, and no edge of finite weight leaves the tree. Vertices outside the
/// tree have no parent.
pub open spec fn grown_tree(g: Seq<Seq<(usize, usize)>>, root: int, parent: Seq<Option<usize>>) -> bool {
    &&& parent.len() == g.len()
    &&& parent[root] is None
    &&& forall|v: int|
        0 <= v < g.len() && (#[trigger] parent[v]) is Some ==> {
            let p = parent[v]->Some_0 as int;
            &&& 0 <= p < g.len()
            &&& exists|k: int| 0 <= k < g[p].len() && (#[trigger] g[p][k]).0 == v
        }
    &&& exists|ord: Seq<int>, key: Seq<int>| #[trigger] greedy_order(g, root, parent, ord, key)
    &&& forall|u: int, k: int|
        0 <= u < g.len() && 0 <= k < g[u].len() && in_tree(root, parent, u) && (#[trigger] g[u][k]).1
            < UNREACHABLE ==> in_tree(root, parent, g[u][k].0 as int)
}

/// Runs Prim's algorithm from `root` with the pairing heap: a key is the weight of the
/// cheapest known edge into the tree. A vertex that leaves the heap at `UNREACHABLE` lies
/// outside the root's component and offers no edge.
pub fn prim(adj: &Vec<Vec<(usize, usize)>>, root: usize) -> (parent: Vec<Option<usize>>)
    requires
        root < adj@.len(),
        targets_in_range(graph_of(adj@)),
    ensures
        grown_tree(graph_of(adj@), root as int, parent@),
{
    let ghost g = graph_of(adj@);
    let n = adj.len();
    let mut heap: PairingHeap<usize> = PairingHeap::new();
    let mut handles: Vec<Handle> = Vec::new();
    let mut key: Vec<usize> = Vec::new();
    let mut done: Vec<bool> = Vec::new();
    let mut parent: Vec<Option<usize>> = Vec::new();
    let mut v: usize = 0;
    while v < n
        invariant
            n == adj@.len(),
            root < n,
            v <= n,
            heap.wf(),
            heap.slots() == v,
            handles@.len() == v,
            key@.len() == v,
            done@.len() == v,
            parent@.len() == v,
            forall|x: int| 0 <= x < v ==> #[trigger] handles@[x].heap_id() == heap.id() && handles@[x].slot() == x,
            forall|x: nat| #[trigger] heap@.contains_key(x) <==> x < v,
            forall|x: nat| #[trigger] heap@.contains_key(x) ==> heap@[x] == (key@[x as int], x as usize),
            forall|x: int| 0 <= x < v ==> !#[trigger] done@[x],
            forall|x: int| 0 <= x < v ==> #[trigger] parent@[x] is None,
            forall|x: int| 0 <= x < v ==> #[trigger] key@[x] == if x == root { 0 } else { UNREACHABLE },
        decreases n - v,
    {
        let k = if v == root { 0 } else { UNREACHABLE };
        let h = heap.insert(k, v);
        handles.push(h);
        key.push(k);
        done.push(false);
        parent.push(None);
        v = v + 1;
    }
    let ghost mut settled: Set<int> = Set::empty();
    let ghost mut ord: Seq<int> = Seq::new(n as nat, |i: int| n as int);
    let mut count: usize = 0;
    proof {
        lemma_int_range(0, n as int);
        assert forall|x: int| 0 <= x < n implies #[trigger] handles@[x].heap_id() == heap.id() && handles@[x].slot() == x by {}
        assert forall|x: int| 0 <= x < n implies (#[trigger] key@[x] < UNREACHABLE <==> in_tree(root as int, parent@, x)) by {}
        assert forall|x: int| 0 <= x < n implies (#[trigger] done@[x] ==> ord[x] < count) && (!done@[x] ==> ord[x] == n) by {}
    }
    loop
        invariant
            n == adj@.len(),
            g == graph_of(adj@),
            targets_in_range(g),
            root < n,
            heap.wf(),
            handles@.len() == n,
            key@.len() == n,
            done@.len() == n,
            parent@.len() == n,
            ord.len() == n,
            count <= n,
            set_int_range(0, n as int).finite(),
            set_int_range(0, n as int).len() == n,
            settled.finite(),
            settled.len() == count,
            settled.subset_of(set_int_range(0, n as int)),
            forall|x: int| 0 <= x < n ==> (#[trigger] done@[x] <==> settled.contains(x)),
            forall|x: int| 0 <= x < n ==> #[trigger] handles@[x].heap_id() == heap.id() && handles@[x].slot() == x,
            forall|x: nat| #[trigger] heap@.contains_key(x) <==> x < n && !done@[x as int],
            forall|x: nat| #[trigger] heap@.contains_key(x) ==> heap@[x] == (key@[x as int], x as usize),
            parent@[root as int] is None,
            key@[root as int] == 0,
            forall|x: int| 0 <= x < n ==> (#[trigger] key@[x] < UNREACHABLE <==> in_tree(root as int, parent@, x)),
            forall|x: int| 0 <= x < n ==> (#[trigger] done@[x] ==> ord[x] < count) && (!done@[x] ==> ord[x] == n),
            forall|x: int, y: int|
                #![trigger done@[x], done@[y]]
                0 <= x < n && 0 <= y < n && x != y && done@[x] && done@[y] ==> ord[x] != ord[y],
            forall|x: int|
                0 <= x < n && (#[trigger] parent@[x]) is Some ==> {
                    let p = parent@[x]->Some_0 as int;
                    &&& 0 <= p < n
                    &&& done@[p]
                    &&& ord[p] < ord[x]
                    &&& exists|k: int| 0 <= k < g[p].len() && (#[trigger] g[p][k]).0 == x && g[p][k].1 == key@[x]
                },
            forall|s: int, t: int|
                0 <= s < n && 0 <= t < n && #[trigger] done@[s] && !in_tree(root as int, parent@, s) && !#[trigger] done@[t]
                    ==> !in_tree(root as int, parent@, t),
            count > 0 ==> done@[root as int] && ord[root as int] == 0,
            count == 0 ==> forall|x: int| 0 <= x < n && x != root ==> #[trigger] key@[x] == UNREACHABLE,
            forall|u: int, k: int|
                0 <= u < n && 0 <= k < g[u].len() && done@[u] && in_tree(root as int, parent@, u) && !done@[(#[trigger] g[u][k]).0 as int]
                    && g[u][k].0 != root ==> key@[g[u][k].0 as int] <= g[u][k].1,
            forall|v: int, u: int, k: int|
                0 <= v < n && done@[v] && (#[trigger] parent@[v]) is Some && 0 <= u < n && done@[u] && in_tree(root as int, parent@, u)
                    && ord[u] < ord[v] && 0 <= k < g[u].len() && ord[(#[trigger] g[u][k]).0 as int] >= ord[v] ==> key@[v] <= g[u][k].1,
            forall|u: int, k: int|
                0 <= u < n && 0 <= k < g[u].len() && done@[u] && in_tree(root as int, parent@, u) && (#[trigger] g[u][k]).1
                    < UNREACHABLE ==> in_tree(root as int, parent@, g[u][k].0 as int),
        ensures
            heap@ == Map::<nat, (usize, usize)>::empty(),
        decreases n - count,
    {
        let ghost pre_heap = heap;
        let popped = heap.delete_min();
        let u = match popped {
            None => {
                break;
            },
            Some((_, u)) => u,
        };
        let ghost pre_key = key@;
        let ghost pre_done = done@;
        let ghost pre_parent = parent@;
        let ghost pre_ord = ord;
        let ghost pre_count = count as int;
        proof {
            let i = choose|i: nat| #[trigger] is_min_entry(pre_heap@, i) && pre_heap@[i].1 == u && heap@ == pre_heap@.remove(i);
            assert(pre_heap@.contains_key(i));
            assert(i == u as nat);
            assert(!done@[u as int]);
            assert(pre_heap@[i] == (key@[u as int], u));
            assert forall|t: int| 0 <= t < n && !done@[t] implies key@[u as int] <= #[trigger] key@[t] by {
                assert(pre_heap@.contains_key(t as nat));
                assert(pre_heap@[t as nat] == (key@[t], t as usize));
                assert(pre_heap@[i].0 <= pre_heap@[t as nat].0);
            }
            assert(!settled.contains(u as int));
            lemma_len_subset(settled.insert(u as int), set_int_range(0, n as int));
            settled = settled.insert(u as int);
            ord = ord.update(u as int, count as int);
        }
        done.set(u, true);
        count = count + 1;
        let ku = key[u];
        proof {
            assert forall|x: int| 0 <= x < n implies (#[trigger] done@[x] ==> ord[x] < count) && (!done@[x] ==> ord[x] == n) by {
                if x != u {
                    assert(done@[x] == pre_done[x]);
                }
            }
            assert forall|x: int, y: int|
                #![trigger done@[x], done@[y]]
                0 <= x < n && 0 <= y < n && x != y && done@[x] && done@[y] implies ord[x] != ord[y] by {
                if x != u {
                    assert(pre_done[x]);
                }
                if y != u {
                    assert(pre_done[y]);
                }
            }
            assert forall|x: int|
                0 <= x < n && (#[trigger] parent@[x]) is Some implies {
                    let p = parent@[x]->Some_0 as int;
                    &&& 0 <= p < n
                    &&& done@[p]
                    &&& ord[p] < ord[x]
                    &&& exists|k: int| 0 <= k < g[p].len() && (#[trigger] g[p][k]).0 == x && g[p][k].1 == key@[x]
                } by {
                let p = parent@[x]->Some_0 as int;
                assert(pre_done[p]);
                assert(p != u);
            }
            if pre_count == 0 && u != root {
                assert(key@[u as int] == UNREACHABLE);
                assert(!pre_done[root as int]) by {
                    assert(!settled.remove(u as int).contains(root as int));
                }
                assert(key@[u as int] <= key@[root as int]);
            }
            assert(done@[root as int] && ord[root as int] == 0);
            assert forall|x: int, kk: int|
                0 <= x < n && 0 <= kk < g[x].len() && pre_done[x] && in_tree(root as int, parent@, x) && !done@[(#[trigger] g[x][kk]).0 as int]
                    && g[x][kk].0 != root implies key@[g[x][kk].0 as int] <= g[x][kk].1 by {
                let y = g[x][kk].0 as int;
                assert(y != u);
                assert(!pre_done[y]);
            }
            assert forall|v: int, x: int, kk: int|
                0 <= v < n && done@[v] && (#[trigger] parent@[v]) is Some && 0 <= x < n && done@[x] && in_tree(root as int, parent@, x)
                    && ord[x] < ord[v] && 0 <= kk < g[x].len() && ord[(#[trigger] g[x][kk]).0 as int] >= ord[v] implies key@[v] <= g[x][kk].1 by {
                let y = g[x][kk].0 as int;
                assert(y < n);
                if v == u {
                    assert(x != u);
                    assert(pre_done[x]);
                    assert(pre_done[root as int]);
                    if y != u {
                        assert(ord[y] == pre_ord[y]);
                        assert(!pre_done[y]);
                        assert(key@[y] <= g[x][kk].1);
                        assert(key@[u as int] <= key@[y]);
                    }
                } else {
                    assert(pre_done[v]);
                    assert(x != u);
                    assert(pre_done[x]);
                    if y != u {
                        assert(ord[y] == pre_ord[y]);
                    } else {
                        assert(pre_ord[y] == n);
                    }
                }
            }
        }
        if ku < UNREACHABLE {
            let mut k: usize = 0;
            while k < adj[u].len()
                invariant
                    n == adj@.len(),
                    g == graph_of(adj@),
                    targets_in_range(g),
                    root < n,
                    u < n,
                    heap.wf(),
                    handles@.len() == n,
                    key@.len() == n,
                    done@.len() == n,
                    parent@.len() == n,
                    ord.len() == n,
                    pre_done.len() == n,
                    pre_key.len() == n,
                    pre_parent.len() == n,
                    k <= g[u as int].len(),
                    done@ == pre_done.update(u as int, true),
                    !pre_done[u as int],
                    ku < UNREACHABLE,
                    ku == key@[u as int],
                    in_tree(root as int, parent@, u as int),
                    ord[u as int] == count - 1,
                    count <= n,
                    forall|x: int| 0 <= x < n ==> #[trigger] handles@[x].heap_id() == heap.id() && handles@[x].slot() == x,
                    forall|x: nat| #[trigger] heap@.contains_key(x) <==> x < n && !done@[x as int],
                    forall|x: nat| #[trigger] heap@.contains_key(x) ==> heap@[x] == (key@[x as int], x as usize),
                    parent@[root as int] is None,
                    key@[root as int] == 0,
                    forall|x: int| 0 <= x < n ==> (#[trigger] key@[x] < UNREACHABLE <==> in_tree(root as int, parent@, x)),
                    forall|x: int| 0 <= x < n ==> (#[trigger] done@[x] ==> ord[x] < count) && (!done@[x] ==> ord[x] == n),
                    forall|x: int, y: int|
                        #![trigger done@[x], done@[y]]
                        0 <= x < n && 0 <= y < n && x != y && done@[x] && done@[y] ==> ord[x] != ord[y],
                    forall|x: int| 0 <= x < n && done@[x] ==> #[trigger] parent@[x] == pre_parent[x],
                    forall|x: int| 0 <= x < n && in_tree(root as int, pre_parent, x) ==> #[trigger] in_tree(root as int, parent@, x),
                    forall|x: int|
                        0 <= x < n && (#[trigger] parent@[x]) is Some ==> {
                            let p = parent@[x]->Some_0 as int;
                            &&& 0 <= p < n
                            &&& done@[p]
                            &&& ord[p] < ord[x]
                            &&& exists|kk: int| 0 <= kk < g[p].len() && (#[trigger] g[p][kk]).0 == x && g[p][kk].1 == key@[x]
                        },
                    count > 0,
                    done@[root as int] && ord[root as int] == 0,
                    forall|v: int| 0 <= v < n && done@[v] ==> #[trigger] key@[v] == pre_key[v],
                    forall|x: int, kk: int|
                        0 <= x < n && 0 <= kk < g[x].len() && pre_done[x] && in_tree(root as int, parent@, x) && !done@[(#[trigger] g[x][kk]).0 as int]
                            && g[x][kk].0 != root ==> key@[g[x][kk].0 as int] <= g[x][kk].1,
                    forall|kk: int|
                        0 <= kk < k && !done@[(#[trigger] g[u as int][kk]).0 as int] && g[u as int][kk].0 != root
                            ==> key@[g[u as int][kk].0 as int] <= g[u as int][kk].1,
                    forall|v: int, x: int, kk: int|
                        0 <= v < n && done@[v] && (#[trigger] parent@[v]) is Some && 0 <= x < n && done@[x] && in_tree(root as int, parent@, x)
                            && ord[x] < ord[v] && 0 <= kk < g[x].len() && ord[(#[trigger] g[x][kk]).0 as int] >= ord[v] ==> key@[v] <= g[x][kk].1,
                    forall|kk: int|
                        0 <= kk < k && (#[trigger] g[u as int][kk]).1 < UNREACHABLE ==> in_tree(root as int, parent@, g[u as int][kk].0 as int),
                    forall|s: int, t: int|
                        0 <= s < n && 0 <= t < n && #[trigger] pre_done[s] && !in_tree(root as int, pre_parent, s) && !#[trigger] pre_done[t]
                            ==> !in_tree(root as int, pre_parent, t),
                decreases g[u as int].len() - k,
            {
                let (t, w) = adj[u][k];
                let ghost p0 = parent@;
                let ghost key_before = key@;
                assert(g[u as int][k as int] == (t, w));
                if done[t] && t != u {
                    assert(pre_done[t as int]);
                    assert(in_tree(root as int, pre_parent, u as int));
                    assert(in_tree(root as int, pre_parent, t as int));
                }
                if !done[t] && t != root && w < key[t] {
                    let ghost hb = heap@;
                    proof {
                        assert(heap@.contains_key(t as nat));
                        assert(handles@[t as int].heap_id() == heap.id());
                        assert(handles@[t as int].slot() == t);
                        assert(heap@[t as nat].0 == key@[t as int]);
                    }
                    heap.update_key(&handles[t], w);
                    let ghost kb = key@;
                    key.set(t, w);
                    parent.set(t, Some(u));
                    proof {
                        assert forall|x: nat| #[trigger] heap@.contains_key(x) implies heap@[x] == (key@[x as int], x as usize) by {
                            assert(hb.contains_key(x));
                            if x != t {
                                assert(hb[x] == heap@[x]);
                                assert(kb[x as int] == key@[x as int]);
                            }
                        }
                        assert forall|x: int| 0 <= x < n implies (#[trigger] key@[x] < UNREACHABLE <==> in_tree(root as int, parent@, x)) by {
                            if x != t {
                                assert(kb[x] == key@[x]);
                                assert(p0[x] == parent@[x]);
                            }
                        }
                        assert forall|x: int|
                            0 <= x < n && (#[trigger] parent@[x]) is Some implies {
                                let p = parent@[x]->Some_0 as int;
                                &&& 0 <= p < n
                                &&& done@[p]
                                &&& ord[p] < ord[x]
                                &&& exists|kk: int| 0 <= kk < g[p].len() && (#[trigger] g[p][kk]).0 == x && g[p][kk].1 == key@[x]
                            } by {
                            if x == t {
                                assert(g[u as int][k as int].0 == x);
                            } else {
                                assert(p0[x] == parent@[x]);
                                assert(kb[x] == key@[x]);
                            }
                        }
                        assert forall|v: int| 0 <= v < n && done@[v] implies #[trigger] key@[v] == pre_key[v] by {
                            assert(kb[v] == key@[v]);
                        }
                        assert forall|x: int, kk: int|
                            0 <= x < n && 0 <= kk < g[x].len() && pre_done[x] && in_tree(root as int, parent@, x) && !done@[(#[trigger] g[x][kk]).0 as int]
                                && g[x][kk].0 != root implies key@[g[x][kk].0 as int] <= g[x][kk].1 by {
                            assert(done@[x]);
                            assert(p0[x] == parent@[x]);
                            let y = g[x][kk].0 as int;
                            assert(kb[y] <= g[x][kk].1);
                        }
                        assert forall|kk: int|
                            0 <= kk < k && !done@[(#[trigger] g[u as int][kk]).0 as int] && g[u as int][kk].0 != root
                                implies key@[g[u as int][kk].0 as int] <= g[u as int][kk].1 by {
                            let y = g[u as int][kk].0 as int;
                            assert(kb[y] <= g[u as int][kk].1);
                        }
                        assert forall|v: int, x: int, kk: int|
                            0 <= v < n && done@[v] && (#[trigger] parent@[v]) is Some && 0 <= x < n && done@[x] && in_tree(root as int, parent@, x)
                                && ord[x] < ord[v] && 0 <= kk < g[x].len() && ord[(#[trigger] g[x][kk]).0 as int] >= ord[v] implies key@[v] <= g[x][kk].1 by {
                            assert(p0[v] == parent@[v]);
                            assert(p0[x] == parent@[x]);
                            assert(kb[v] == key@[v]);
                        }
                        assert forall|x: int| 0 <= x < n && in_tree(root as int, pre_parent, x) implies #[trigger] in_tree(root as int, parent@, x) by {
                            assert(in_tree(root as int, p0, x));
                            if x != t {
                                assert(p0[x] == parent@[x]);
                            }
                        }
                    }
                }
                proof {
                    assert forall|kk: int|
                        0 <= kk < k + 1 && !done@[(#[trigger] g[u as int][kk]).0 as int] && g[u as int][kk].0 != root
                            implies key@[g[u as int][kk].0 as int] <= g[u as int][kk].1 by {
                        if kk < k {
                            let y = g[u as int][kk].0 as int;
                            assert(key@[y] <= key_before[y]);
                        }
                    }
                    assert forall|kk: int|
                        0 <= kk < k + 1 && (#[trigger] g[u as int][kk]).1 < UNREACHABLE implies in_tree(root as int, parent@, g[u as int][kk].0 as int) by {
                        let x = g[u as int][kk].0 as int;
                        if kk < k {
                            assert(in_tree(root as int, p0, x));
                            assert(p0[x] is Some ==> parent@[x] is Some);
                        } else {
                            assert(key@[x] < UNREACHABLE || done@[x] || x == root);
                        }
                    }
                }
                k = k + 1;
            }
        }
        proof {
            assert forall|x: int, kk: int|
                0 <= x < n && 0 <= kk < g[x].len() && done@[x] && in_tree(root as int, parent@, x) && !done@[(#[trigger] g[x][kk]).0 as int]
                    && g[x][kk].0 != root implies key@[g[x][kk].0 as int] <= g[x][kk].1 by {
                if x != u {
                    assert(pre_done[x]);
                } else {
                    assert(ku < UNREACHABLE);
                }
            }
        }
        proof {
            assert forall|s: int, t: int|
                0 <= s < n && 0 <= t < n && #[trigger] done@[s] && !in_tree(root as int, parent@, s) && !#[trigger] done@[t]
                    implies !in_tree(root as int, parent@, t) by {
                assert(!pre_done[t]);
                if ku < UNREACHABLE {
                    if s != u {
                        assert(pre_done[s]);
                        assert(!in_tree(root as int, pre_parent, s));
                        assert(!in_tree(root as int, pre_parent, u as int));
                        assert(parent@[u as int] == pre_parent[u as int]);
                        assert(false);
                    }
                } else {
                    assert(key@[u as int] <= key@[t]);
                }
            }
            assert forall|v: int, k: int|
                0 <= v < n && 0 <= k < g[v].len() && done@[v] && in_tree(root as int, parent@, v) && (#[trigger] g[v][k]).1
                    < UNREACHABLE implies in_tree(root as int, parent@, g[v][k].0 as int) by {
                if v != u {
                    assert(pre_done[v]);
                    assert(parent@[v] == pre_parent[v]);
                    assert(in_tree(root as int, pre_parent, v));
                    let x = g[v][k].0 as int;
                    assert(in_tree(root as int, pre_parent, x));
                }
            }
        }
    }
    proof {
        assert forall|x: int| 0 <= x < n implies #[trigger] done@[x] by {
            assert(!heap@.contains_key(x as nat));
        }
        let keys = key@.map_values(|x: usize| x as int);
        assert forall|v: int|
            0 <= v < g.len() && (#[trigger] parent@[v]) is Some implies {
                let p = parent@[v]->Some_0 as int;
                &&& ord[p] < ord[v]
                &&& exists|k: int| 0 <= k < g[p].len() && (#[trigger] g[p][k]).0 == v && g[p][k].1 == keys[v]
            } by {
            let p = parent@[v]->Some_0 as int;
            let k = choose|k: int| 0 <= k < g[p].len() && (#[trigger] g[p][k]).0 == v && g[p][k].1 == key@[v];
            assert(g[p][k].1 == keys[v]);
        }
        assert forall|v: int, u: int, k: int|
            0 <= v < g.len() && (#[trigger] parent@[v]) is Some && 0 <= u < g.len() && in_tree(root as int, parent@, u) && ord[u]
                < ord[v] && 0 <= k < g[u].len() && ord[(#[trigger] g[u][k]).0 as int] >= ord[v] implies keys[v] <= g[u][k].1 by {
            assert(done@[v] && done@[u]);
        }
        assert forall|a: int, b: int|
            #![trigger in_tree(root as int, parent@, a), in_tree(root as int, parent@, b)]
            0 <= a < g.len() && 0 <= b < g.len() && a != b && in_tree(root as int, parent@, a) && in_tree(root as int, parent@, b)
                implies ord[a] != ord[b] by {
            assert(done@[a] && done@[b]);
        }
        assert(greedy_order(g, root as int, parent@, ord, keys));
        assert(grown_tree(g, root as int, parent@));
    }
    parent
}

/// `lists[v]` holds the parent of `v`, or nothing where `v` has none.
pub open spec fn parent_lists(parent: Seq<Option<usize>>, lists: Seq<Vec<usize>>) -> bool {
    &&& lists.len() == parent.len()
    &&& forall|v: int|
        0 <= v < parent.len() ==> (#[trigger] lists[v])@ == match parent[v] {
            Some(p) => seq![p],
            None => Seq::<usize>::empty(),
        }
}

/// Shortest paths and a spanning tree over a fixed graph, with the results cached: the
/// distances once per source, the tree once.
pub struct GraphEngine {
    adj: Vec<Vec<(usize, usize)>>,
    dist_cache: Vec<Option<Vec<usize>>>,
    tree: Option<Vec<Option<usize>>>,
}

impl GraphEngine {
    /// The graph, as adjacency sequences.
    pub closed spec fn graph(&self) -> Seq<Seq<(usize, usize)>> {
        graph_of(self.adj@)
    }

    /// Every edge ends inside the graph, and every cached result is correct for it.
    pub closed spec fn wf(&self) -> bool {
        &&& targets_in_range(self.graph())
        &&& self.dist_cache@.len() == self.adj@.len()
        &&& forall|s: int|
            0 <= s < self.adj@.len() && (#[trigger] self.dist_cache@[s]) is Some ==> shortest_distances(
                self.graph(),
                s,
                self.dist_cache@[s]->Some_0@,
            )
        &&& self.tree is Some ==> self.adj@.len() > 0 && grown_tree(self.graph(), 0, self.tree->Some_0@)
    }

    /// Builds an engine over `adjacency`: vertex `u`'s edges are the pairs `(v, w)` of
    /// `adjacency[u]`. Nothing is computed yet.
    pub fn new(adjacency: Vec<Vec<(usize, usize)>>) -> (e: Self)
        requires
            targets_in_range(graph_of(adjacency@)),
        ensures
            e.wf(),
            e.graph() == graph_of(adjacency@),
    {
        let mut dist_cache: Vec<Option<Vec<usize>>> = Vec::new();
        let mut i: usize = 0;
        while i < adjacency.len()
            invariant
                i <= adjacency@.len(),
                dist_cache@.len() == i,
                forall|s: int| 0 <= s < i ==> #[trigger] dist_cache@[s] is None,
            decreases adjacency@.len() - i,
        {
            dist_cache.push(None);
            i = i + 1;
        }
        GraphEngine { adj: adjacency, dist_cache, tree: None }
    }

    /// The length of a shortest path from `src` to `dst`, or `UNREACHABLE`. The first query
    /// from a source runs Dijkstra's algorithm and keeps all its distances.
    pub fn shortest_path_len(&mut self, src: usize, dst: usize) -> (d: usize)
        requires
            old(self).wf(),
            src < old(self).graph().len(),
            dst < old(self).graph().len(),
        ensures
            final(self).wf(),
            final(self).graph() == old(self).graph(),
            exists|dist: Seq<usize>|
                shortest_distances(old(self).graph(), src as int, dist) && d == dist[dst as int],
    {
        match &self.dist_cache[src] {
            Some(dist) => {
                return dist[dst];
            },
            None => {},
        }
        let dist = dijkstra(&self.adj, src);
        let d = dist[dst];
        let ghost dv = dist@;
        let ghost pre = self.dist_cache@;
        self.dist_cache.set(src, Some(dist));
        proof {
            assert forall|s: int|
                0 <= s < self.adj@.len() && (#[trigger] self.dist_cache@[s]) is Some implies shortest_distances(
                    self.graph(),
                    s,
                    self.dist_cache@[s]->Some_0@,
                ) by {
                if s != src {
                    assert(pre[s] == self.dist_cache@[s]);
                }
            }
        }
        d
    }

    /// The spanning tree that Prim's algorithm grows from vertex 0: entry `v` holds the
    /// parent of `v`, and is empty for the root and for vertices outside its component. An
    /// empty graph gives an empty tree. The tree is computed once.
    pub fn spanning_tree(&mut self) -> (t: Vec<Vec<usize>>)
        requires
            old(self).wf(),
        ensures
            final(self).wf(),
            final(self).graph() == old(self).graph(),
            old(self).graph().len() == 0 ==> t@.len() == 0,
            old(self).graph().len() > 0 ==> exists|parent: Seq<Option<usize>>|
                grown_tree(old(self).graph(), 0, parent) && parent_lists(parent, t@),
    {
        if self.adj.len() == 0 {
            return Vec::new();
        }
        if self.tree.is_none() {
            let parent = prim(&self.adj, 0);
            self.tree = Some(parent);
        }
        assert(self.tree is Some);
        match &self.tree {
            Some(parent) => {
                let mut t: Vec<Vec<usize>> = Vec::new();
                let mut v: usize = 0;
                while v < parent.len()
                    invariant
                        v <= parent@.len(),
                        t@.len() == v,
                        forall|x: int|
                            0 <= x < v ==> (#[trigger] t@[x])@ == match parent@[x] {
                                Some(p) => seq![p],
                                None => Seq::<usize>::empty(),
                            },
                    decreases parent@.len() - v,
                {
                    let mut l: Vec<usize> = Vec::new();
                    match parent[v] {
                        Some(p) => {
                            l.push(p);
                        },
                        None => {},
                    }
                    assert(l@ == match parent@[v as int] {
                        Some(p) => seq![p],
                        None => Seq::<usize>::empty(),
                    });
                    t.push(l);
                    v = v + 1;
                }
                assert(parent_lists(parent@, t@));
                assert(grown_tree(self.graph(), 0, parent@));
                t
            },
            None => Vec::new(),
        }
    }
}

} // verus!
