//! An addressable min pairing heap stored in an arena.
//!
//! Every element lives in a slot of the arena; links between elements (parent, children,
//! position among the siblings) are slot indices. A slot is never reused: once its element
//! has been removed it stays empty, so a stale `Handle` is always recognised.
use vstd::prelude::*;

verus! {

/// Draws the identity of a new heap. Relies on `rand::random::<u64>`; nothing is known of the
/// value it returns.
#[verifier::external_body]
fn fresh_heap_id() -> (r: u64) {
    rand::random::<u64>()
}

/// Why `try_update_key` refused a handle or a key.
#[derive(Debug, Clone, Copy, PartialEq, Eq, Structural)]
pub enum KeyError {
    /// The handle was issued by another heap.
    ForeignHandle,
    /// The element that the handle names has already been removed.
    Removed,
    /// The new key is greater than the current one; keys may only decrease.
    KeyIncrease,
}

/// A capability that names one element of one heap, handed out by `insert`.
pub struct Handle {
    heap: u64,
    slot: usize,
}

impl Handle {
    /// The identity of the heap that issued this handle.
    pub closed spec fn heap_id(&self) -> u64 {
        self.heap
    }

    /// The arena slot of the element that this handle names.
    pub closed spec fn slot(&self) -> nat {
        self.slot as nat
    }
}

/// Whether slot `i` of `m` holds an element whose key is the least of all keys in `m`.
pub open spec fn is_min_entry<V>(m: Map<nat, (usize, V)>, i: nat) -> bool {
    &&& m.contains_key(i)
    &&& forall|j: nat| m.contains_key(j) ==> m[i].0 <= #[trigger] m[j].0
}

/// The entries of `m` moved up by `n` slots.
pub open spec fn shifted<V>(m: Map<nat, (usize, V)>, n: nat) -> Map<nat, (usize, V)> {
    Map::new(|i: nat| i >= n && m.contains_key((i - n) as nat), |i: nat| m[(i - n) as nat])
}

/// Draining a heap gives its keys in non-decreasing order: after `delete_min` has removed a
/// least entry `i`, the least entry `j` of what is left has a key no smaller than `i`'s.
pub proof fn lemma_extraction_sorted<V>(m: Map<nat, (usize, V)>, i: nat, j: nat)
    requires
        is_min_entry(m, i),
        is_min_entry(m.remove(i), j),
    ensures
        m[i].0 <= m.remove(i)[j].0,
{
    assert(m.contains_key(j));
    assert(m.remove(i)[j] == m[j]);
}

spec fn shift_link(o: Option<usize>, n: nat) -> Option<usize> {
    match o {
        Some(q) => Some((q + n) as usize),
        None => None,
    }
}

/// A min-heap of `(key, value)` elements that hands out a `Handle` for each element, so that
/// its key can later be lowered. When two trees whose roots have equal keys are linked, the
/// first one's root stays on top: an inserted element goes below a root of equal key.
pub struct PairingHeap<V> {
    id: u64,
    keys: Vec<usize>,
    values: Vec<Option<V>>,
    parent: Vec<Option<usize>>,
    pos: Vec<usize>,
    kids: Vec<Vec<usize>>,
    root: Option<usize>,
    rank: Ghost<Seq<nat>>,
    cap: Ghost<nat>,
}

impl<V> View for PairingHeap<V> {
    type V = Map<nat, (usize, V)>;

    /// The live elements, by slot: each slot maps to its key and value.
    closed spec fn view(&self) -> Map<nat, (usize, V)> {
        Map::new(
            |i: nat| self.live(i as int),
            |i: nat| (self.keys@[i as int], self.values@[i as int]->Some_0),
        )
    }
}

impl<V> PairingHeap<V> {
    /// The identity of this heap, fixed when it is created.
    pub closed spec fn id(&self) -> u64 {
        self.id
    }

    /// How many slots the arena has handed out; the next `insert` uses this slot.
    pub closed spec fn slots(&self) -> nat {
        self.keys@.len()
    }

    spec fn len_all(&self) -> int {
        self.keys@.len() as int
    }

    spec fn live(&self, i: int) -> bool {
        0 <= i < self.values@.len() && self.values@[i] is Some
    }

    spec fn sizes_ok(&self) -> bool {
        &&& self.keys@.len() <= usize::MAX
        &&& self.values@.len() == self.keys@.len()
        &&& self.parent@.len() == self.keys@.len()
        &&& self.pos@.len() == self.keys@.len()
        &&& self.kids@.len() == self.keys@.len()
        &&& self.rank@.len() == self.keys@.len()
    }

    /// Links are consistent: a linked child points back to its parent and sits at its recorded
    /// position, a parent's key never exceeds its child's, and ranks grow towards the roots.
    spec fn forest(&self) -> bool {
        &&& self.sizes_ok()
        &&& forall|i: int|
            #![trigger self.parent@[i]]
            0 <= i < self.len_all() && self.live(i) && self.parent@[i] is Some ==> {
                let p = self.parent@[i]->Some_0 as int;
                &&& 0 <= p < self.len_all()
                &&& self.live(p)
                &&& self.keys@[p] <= self.keys@[i]
                &&& self.rank@[p] > self.rank@[i]
                &&& self.pos@[i] < self.kids@[p]@.len()
                &&& self.kids@[p]@[self.pos@[i] as int] == i
            }
        &&& forall|i: int, j: int|
            #![trigger self.kids@[i]@[j]]
            0 <= i < self.len_all() && self.live(i) && 0 <= j < self.kids@[i]@.len() ==> {
                let c = self.kids@[i]@[j] as int;
                &&& 0 <= c < self.len_all()
                &&& self.live(c)
                &&& self.parent@[c] == Some(i as usize)
                &&& self.pos@[c] == j
            }
        &&& forall|i: int| 0 <= i < self.len_all() ==> #[trigger] self.rank@[i] < self.cap@
    }

    /// The arena is one heap-ordered tree whose root is `root` (every element's key is at least
    /// its parent's, see `forest`), or holds no element.
    pub closed spec fn wf(&self) -> bool {
        &&& self.forest()
        &&& match self.root {
            None => forall|i: int| 0 <= i < self.len_all() ==> !#[trigger] self.live(i),
            Some(r) => {
                &&& 0 <= r < self.len_all()
                &&& self.live(r as int)
                &&& self.parent@[r as int] is None
                &&& forall|i: int|
                    0 <= i < self.len_all() && #[trigger] self.live(i) && i != r
                        ==> self.parent@[i] is Some
            },
        }
    }

    /// In a forest where `r` is the only element without a parent, no key is below `r`'s.
    proof fn lemma_root_is_min(&self, r: int, i: int)
        requires
            self.forest(),
            0 <= r < self.len_all(),
            self.live(r),
            forall|k: int| 0 <= k < self.len_all() && #[trigger] self.live(k) && k != r
                ==> self.parent@[k] is Some,
            0 <= i < self.len_all(),
            self.live(i),
        ensures
            self.keys@[r] <= self.keys@[i],
        decreases self.cap@ - self.rank@[i],
    {
        if i != r {
            let p = self.parent@[i]->Some_0 as int;
            assert(self.rank@[p] < self.cap@);
            self.lemma_root_is_min(r, p);
        }
    }

    /// Following parent links from a live element ends at a live element without a parent.
    proof fn lemma_top(&self, x: int) -> (y: int)
        requires
            self.forest(),
            0 <= x < self.len_all(),
            self.live(x),
        ensures
            0 <= y < self.len_all(),
            self.live(y),
            self.parent@[y] is None,
        decreases self.cap@ - self.rank@[x],
    {
        if self.parent@[x] is Some {
            let p = self.parent@[x]->Some_0 as int;
            assert(self.rank@[p] < self.cap@);
            self.lemma_top(p)
        } else {
            x
        }
    }

    /// Creates an empty heap with a fresh identity. The identity is a random 64-bit number,
    /// not drawn from a process-wide counter: two heaps share one only by a chance of about
    /// one in 2^64, and a handle from one of them would then not be detected as foreign by
    /// the other.
    pub fn new() -> (h: Self)
        ensures
            h.wf(),
            h@ == Map::<nat, (usize, V)>::empty(),
            h.slots() == 0,
    {
        let h = PairingHeap {
            id: fresh_heap_id(),
            keys: Vec::new(),
            values: Vec::new(),
            parent: Vec::new(),
            pos: Vec::new(),
            kids: Vec::new(),
            root: None,
            rank: Ghost(Seq::empty()),
            cap: Ghost(0),
        };
        assert(h@ =~= Map::<nat, (usize, V)>::empty());
        h
    }

    /// Makes the root with the larger key a child of the other one; on equal keys `b` goes
    /// below `a`. Returns the root that is left.
    fn link(&mut self, a: usize, b: usize) -> (w: usize)
        requires
            old(self).forest(),
            a < old(self).len_all(),
            b < old(self).len_all(),
            a != b,
            old(self).live(a as int),
            old(self).live(b as int),
            old(self).parent@[a as int] is None,
            old(self).parent@[b as int] is None,
        ensures
            final(self).forest(),
            w == (if old(self).keys@[b as int] < old(self).keys@[a as int] { b } else { a }),
            final(self).keys@ == old(self).keys@,
            final(self).values@ == old(self).values@,
            final(self).id == old(self).id,
            final(self).root == old(self).root,
            final(self).parent@[w as int] is None,
            final(self).parent@[(if w == a { b } else { a }) as int] == Some(w),
            forall|i: int|
                0 <= i < old(self).len_all() && i != (if w == a { b } else { a })
                    ==> final(self).parent@[i] == old(self).parent@[i],
    {
        let ghost pre = *self;
        let (w, l) = if self.keys[b] < self.keys[a] {
            (b, a)
        } else {
            (a, b)
        };
        let mut ks: Vec<usize> = Vec::new();
        self.kids.set_and_swap(w, &mut ks);
        let p = ks.len();
        ks.push(l);
        self.kids.set_and_swap(w, &mut ks);
        self.pos.set(l, p);
        self.parent.set(l, Some(w));
        let ghost nr: nat = if pre.rank@[w as int] > pre.rank@[l as int] {
            pre.rank@[w as int]
        } else {
            pre.rank@[l as int] + 1
        };
        self.rank = Ghost(pre.rank@.update(w as int, nr));
        self.cap = Ghost(if nr < pre.cap@ { pre.cap@ } else { nr + 1 });
        proof {
            assert(self.kids@[w as int]@ == pre.kids@[w as int]@.push(l));
            assert forall|i: int|
                #![trigger self.parent@[i]]
                0 <= i < self.len_all() && self.live(i) && self.parent@[i] is Some implies {
                    let q = self.parent@[i]->Some_0 as int;
                    &&& 0 <= q < self.len_all()
                    &&& self.live(q)
                    &&& self.keys@[q] <= self.keys@[i]
                    &&& self.rank@[q] > self.rank@[i]
                    &&& self.pos@[i] < self.kids@[q]@.len()
                    &&& self.kids@[q]@[self.pos@[i] as int] == i
                } by {
                if i != l {
                    let q = pre.parent@[i]->Some_0 as int;
                    assert(pre.parent@[i] is Some);
                    assert(pre.kids@[q]@[pre.pos@[i] as int] == i);
                }
            }
            assert forall|i: int, j: int|
                #![trigger self.kids@[i]@[j]]
                0 <= i < self.len_all() && self.live(i) && 0 <= j < self.kids@[i]@.len() implies {
                    let c = self.kids@[i]@[j] as int;
                    &&& 0 <= c < self.len_all()
                    &&& self.live(c)
                    &&& self.parent@[c] == Some(i as usize)
                    &&& self.pos@[c] == j
                } by {
                if i != w || j != p {
                    assert(pre.kids@[i]@[j] == self.kids@[i]@[j]);
                    let c = pre.kids@[i]@[j] as int;
                    assert(pre.parent@[c] == Some(i as usize));
                }
            }
            assert forall|i: int| 0 <= i < self.len_all() implies #[trigger] self.rank@[i]
                < self.cap@ by {
                assert(pre.rank@[i] < pre.cap@);
            }
        }
        w
    }

    /// Adds an element and returns the handle that names it.
    pub fn insert(&mut self, key: usize, value: V) -> (h: Handle)
        requires
            old(self).wf(),
            old(self).slots() < usize::MAX,
        ensures
            final(self).wf(),
            final(self).id() == old(self).id(),
            final(self).slots() == old(self).slots() + 1,
            h.heap_id() == old(self).id(),
            h.slot() == old(self).slots(),
            !old(self)@.contains_key(h.slot()),
            final(self)@ == old(self)@.insert(h.slot(), (key, value)),
    {
        let ghost pre = *self;
        let i = self.keys.len();
        self.keys.push(key);
        self.values.push(Some(value));
        self.parent.push(None);
        self.pos.push(0);
        self.kids.push(Vec::new());
        self.rank = Ghost(pre.rank@.push(0));
        self.cap = Ghost(pre.cap@ + 1);
        proof {
            assert forall|k: int|
                #![trigger self.parent@[k]]
                0 <= k < self.len_all() && self.live(k) && self.parent@[k] is Some implies {
                    let q = self.parent@[k]->Some_0 as int;
                    &&& 0 <= q < self.len_all()
                    &&& self.live(q)
                    &&& self.keys@[q] <= self.keys@[k]
                    &&& self.rank@[q] > self.rank@[k]
                    &&& self.pos@[k] < self.kids@[q]@.len()
                    &&& self.kids@[q]@[self.pos@[k] as int] == k
                } by {
                assert(pre.parent@[k] is Some);
            }
            assert forall|a: int, j: int|
                #![trigger self.kids@[a]@[j]]
                0 <= a < self.len_all() && self.live(a) && 0 <= j < self.kids@[a]@.len() implies {
                    let c = self.kids@[a]@[j] as int;
                    &&& 0 <= c < self.len_all()
                    &&& self.live(c)
                    &&& self.parent@[c] == Some(a as usize)
                    &&& self.pos@[c] == j
                } by {
                assert(pre.kids@[a]@[j] == self.kids@[a]@[j]);
            }
            assert forall|k: int| 0 <= k < self.len_all() implies #[trigger] self.rank@[k]
                < self.cap@ by {
                if k < pre.len_all() {
                    assert(pre.rank@[k] < pre.cap@);
                }
            }
        }
        let ghost mid = *self;
        match self.root {
            None => {
                self.root = Some(i);
                assert forall|k: int|
                    0 <= k < self.len_all() && #[trigger] self.live(k) && k != i implies self.parent@[k] is Some by {
                    assert(!pre.live(k));
                }
            },
            Some(r) => {
                let w = self.link(r, i);
                self.root = Some(w);
                assert forall|k: int|
                    0 <= k < self.len_all() && #[trigger] self.live(k) && k != w implies self.parent@[k] is Some by {
                    if k != r && k != i {
                        assert(pre.live(k));
                        assert(mid.parent@[k] == pre.parent@[k]);
                    }
                }
            },
        }
        proof {
            assert(!pre@.contains_key(i as nat));
            assert(self@ =~= pre@.insert(i as nat, (key, value)));
        }
        Handle { heap: self.id, slot: i }
    }

    /// Two-pass pairing: links the roots of `list` pairwise from the left, then folds the
    /// winners together from the right. Returns the one root that is left.
    fn merge_pairs(&mut self, list: Vec<usize>) -> (w: usize)
        requires
            old(self).forest(),
            list@.len() > 0,
            forall|a: int, b: int| 0 <= a < b < list@.len() ==> list@[a] != list@[b],
            forall|k: int|
                0 <= k < list@.len() ==> {
                    let x = #[trigger] list@[k] as int;
                    &&& 0 <= x < old(self).len_all()
                    &&& old(self).live(x)
                    &&& old(self).parent@[x] is None
                },
            forall|x: int|
                0 <= x < old(self).len_all() && #[trigger] old(self).live(x) && old(self).parent@[x] is None
                    ==> list@.contains(x as usize),
        ensures
            final(self).forest(),
            final(self).keys@ == old(self).keys@,
            final(self).values@ == old(self).values@,
            final(self).id == old(self).id,
            final(self).root == old(self).root,
            w < final(self).len_all(),
            final(self).live(w as int),
            final(self).parent@[w as int] is None,
            forall|x: int|
                0 <= x < final(self).len_all() && #[trigger] final(self).live(x) && x != w
                    ==> final(self).parent@[x] is Some,
    {
        let ghost pre = *self;
        let mut firsts: Vec<usize> = Vec::new();
        let mut i: usize = 0;
        assert(list@.subrange(0, list@.len() as int) =~= list@);
        while i + 1 < list.len()
            invariant
                self.forest(),
                self.keys@ == pre.keys@,
                self.values@ == pre.values@,
                self.id == pre.id,
                self.root == pre.root,
                i <= list@.len(),
                i % 2 == 0,
                firsts@.len() == i / 2,
                forall|a: int, b: int| 0 <= a < b < list@.len() ==> list@[a] != list@[b],
                forall|k: int|
                    0 <= k < list@.len() ==> {
                        let x = #[trigger] list@[k] as int;
                        &&& 0 <= x < pre.len_all()
                        &&& pre.live(x)
                    },
                forall|k: int|
                    0 <= k < firsts@.len() ==> #[trigger] firsts@[k] == list@[2 * k] || (2 * k + 1
                        < list@.len() && firsts@[k] == list@[2 * k + 1]),
                forall|k: int| 0 <= k < firsts@.len() ==> self.parent@[#[trigger] firsts@[k] as int] is None,
                forall|k: int| i <= k < list@.len() ==> self.parent@[#[trigger] list@[k] as int] is None,
                forall|x: int|
                    0 <= x < self.len_all() && #[trigger] self.live(x) && self.parent@[x] is None
                        ==> firsts@.contains(x as usize) || list@.subrange(i as int, list@.len() as int).contains(x as usize),
            decreases list@.len() - i,
        {
            let ghost before = *self;
            let ghost fb = firsts@;
            let a = list[i];
            let b = list[i + 1];
            let w = self.link(a, b);
            firsts.push(w);
            let ghost l = if w == a { b } else { a };
            assert forall|k: int| 0 <= k < firsts@.len() implies self.parent@[#[trigger] firsts@[k] as int] is None by {
                if k < fb.len() {
                    assert(firsts@[k] == fb[k]);
                    assert(fb[k] != l);
                }
            }
            assert forall|k: int| i + 2 <= k < list@.len() implies self.parent@[#[trigger] list@[k] as int] is None by {
                assert(list@[k] != l);
            }
            assert forall|x: int|
                0 <= x < self.len_all() && #[trigger] self.live(x) && self.parent@[x] is None
                    implies firsts@.contains(x as usize) || list@.subrange(i + 2, list@.len() as int).contains(x as usize) by {
                assert(before.parent@[x] == self.parent@[x]);
                assert(before.live(x));
                if fb.contains(x as usize) {
                    let k = choose|k: int| 0 <= k < fb.len() && fb[k] == x as usize;
                    assert(firsts@[k] == x as usize);
                } else {
                    let sub = list@.subrange(i as int, list@.len() as int);
                    assert(sub.contains(x as usize));
                    let k = choose|k: int| 0 <= k < sub.len() && sub[k] == x as usize;
                    assert(sub[k] == list@[i + k]);
                    if k >= 2 {
                        assert(list@.subrange(i + 2, list@.len() as int)[k - 2] == x as usize);
                    } else {
                        assert(self.parent@[l as int] is Some);
                        if k == 0 {
                            assert(list@[i as int] == a);
                        } else {
                            assert(list@[i + 1] == b);
                        }
                        assert(x == a || x == b);
                        assert(x == w);
                        assert(firsts@[fb.len() as int] == x as usize);
                    }
                }
            }
            i = i + 2;
        }
        if i < list.len() {
            let ghost fb = firsts@;
            firsts.push(list[i]);
            assert forall|x: int|
                0 <= x < self.len_all() && #[trigger] self.live(x) && self.parent@[x] is None
                    implies firsts@.contains(x as usize) by {
                if fb.contains(x as usize) {
                    let k = choose|k: int| 0 <= k < fb.len() && fb[k] == x as usize;
                    assert(firsts@[k] == x as usize);
                } else {
                    let sub = list@.subrange(i as int, list@.len() as int);
                    let k = choose|k: int| 0 <= k < sub.len() && sub[k] == x as usize;
                    assert(k == 0);
                    assert(firsts@[fb.len() as int] == x as usize);
                }
            }
        } else {
            assert forall|x: int|
                0 <= x < self.len_all() && #[trigger] self.live(x) && self.parent@[x] is None
                    implies firsts@.contains(x as usize) by {
                if !firsts@.contains(x as usize) {
                    let sub = list@.subrange(i as int, list@.len() as int);
                    assert(sub.len() == 0);
                }
            }
        }
        let mut j: usize = firsts.len() - 1;
        let mut acc: usize = firsts[j];
        let ghost mut ka: int = j as int;
        assert forall|k: int| 0 <= k < firsts@.len() implies #[trigger] firsts@[k] < self.len_all()
            && self.live(firsts@[k] as int) by {
            if firsts@[k] == list@[2 * k] {
                assert(pre.live(list@[2 * k] as int));
            } else {
                assert(pre.live(list@[2 * k + 1] as int));
            }
        }
        assert forall|a: int, b: int| 0 <= a < b < firsts@.len() implies firsts@[a] != firsts@[b] by {
            let ia = if firsts@[a] == list@[2 * a] { 2 * a } else { 2 * a + 1 };
            let ib = if firsts@[b] == list@[2 * b] { 2 * b } else { 2 * b + 1 };
            assert(list@[ia] != list@[ib]);
        }
        assert forall|x: int|
            0 <= x < self.len_all() && #[trigger] self.live(x) && self.parent@[x] is None
                implies x == acc || firsts@.subrange(0, j as int).contains(x as usize) by {
            assert(firsts@.contains(x as usize));
            let k = choose|k: int| 0 <= k < firsts@.len() && firsts@[k] == x as usize;
            if k < j {
                assert(firsts@.subrange(0, j as int)[k] == x as usize);
            }
        }
        while j > 0
            invariant
                self.forest(),
                self.keys@ == pre.keys@,
                self.values@ == pre.values@,
                self.id == pre.id,
                self.root == pre.root,
                0 <= j < firsts@.len(),
                j <= ka < firsts@.len(),
                acc == firsts@[ka],
                forall|a: int, b: int| 0 <= a < b < list@.len() ==> list@[a] != list@[b],
                forall|k: int|
                    0 <= k < list@.len() ==> {
                        let x = #[trigger] list@[k] as int;
                        &&& 0 <= x < pre.len_all()
                        &&& pre.live(x)
                    },
                forall|k: int|
                    0 <= k < firsts@.len() ==> #[trigger] firsts@[k] == list@[2 * k] || (2 * k + 1
                        < list@.len() && firsts@[k] == list@[2 * k + 1]),
                forall|a: int, b: int| 0 <= a < b < firsts@.len() ==> firsts@[a] != firsts@[b],
                forall|k: int|
                    0 <= k < firsts@.len() ==> #[trigger] firsts@[k] < self.len_all() && self.live(
                        firsts@[k] as int,
                    ),
                forall|k: int| 0 <= k < j ==> self.parent@[#[trigger] firsts@[k] as int] is None,
                self.parent@[acc as int] is None,
                forall|x: int|
                    0 <= x < self.len_all() && #[trigger] self.live(x) && self.parent@[x] is None
                        ==> x == acc || firsts@.subrange(0, j as int).contains(x as usize),
            decreases j,
        {
            let ghost before = *self;
            j = j - 1;
            let f = firsts[j];
            assert(f != acc);
            let ghost accb = acc;
            acc = self.link(f, acc);
            proof {
                ka = if acc == f { j as int } else { ka };
                let l = if acc == f { accb } else { f };
                assert forall|k: int| 0 <= k < j implies self.parent@[#[trigger] firsts@[k] as int] is None by {
                    assert(firsts@[k] != firsts@[j as int]);
                    assert(firsts@[k] != firsts@[ka]);
                }
                assert forall|x: int|
                    0 <= x < self.len_all() && #[trigger] self.live(x) && self.parent@[x] is None
                        implies x == acc || firsts@.subrange(0, j as int).contains(x as usize) by {
                    assert(before.parent@[x] == self.parent@[x]);
                    assert(before.live(x));
                    if x != accb {
                        let sub = firsts@.subrange(0, j as int + 1);
                        let k = choose|k: int| 0 <= k < sub.len() && sub[k] == x as usize;
                        if k < j {
                            assert(firsts@.subrange(0, j as int)[k] == x as usize);
                        }
                    }
                }
            }
        }
        assert forall|x: int|
            0 <= x < self.len_all() && #[trigger] self.live(x) && x != acc implies self.parent@[x] is Some by {
            if self.parent@[x] is None {
                assert(firsts@.subrange(0, 0).len() == 0);
            }
        }
        proof {
            let k0 = if firsts@[ka] == list@[2 * ka] { 2 * ka } else { 2 * ka + 1 };
            assert(list@[k0] == acc);
        }
        acc
    }

    /// Removes the element with the least key and returns its key and value, or returns
    /// `None` when the heap is empty.
    pub fn delete_min(&mut self) -> (r: Option<(usize, V)>)
        requires
            old(self).wf(),
        ensures
            final(self).wf(),
            final(self).id() == old(self).id(),
            final(self).slots() == old(self).slots(),
            r is None <==> old(self)@ == Map::<nat, (usize, V)>::empty(),
            r is None ==> final(self)@ == old(self)@,
            r matches Some((k, v)) ==> exists|i: nat|
                #[trigger] is_min_entry(old(self)@, i) && old(self)@[i] == (k, v) && final(self)@
                    == old(self)@.remove(i),
    {
        let ghost pre = *self;
        match self.root {
            None => {
                assert(self@ =~= Map::<nat, (usize, V)>::empty());
                None
            },
            Some(r) => {
                proof {
                    assert(pre@.contains_key(r as nat));
                    assert forall|j: nat| pre@.contains_key(j) implies pre@[r as nat].0
                        <= #[trigger] pre@[j].0 by {
                        pre.lemma_root_is_min(r as int, j as int);
                    }
                    assert(is_min_entry(pre@, r as nat));
                }
                let mut ks: Vec<usize> = Vec::new();
                self.kids.set_and_swap(r, &mut ks);
                let mut val: Option<V> = None;
                self.values.set_and_swap(r, &mut val);
                let mut t: usize = 0;
                while t < ks.len()
                    invariant
                        ks@ == pre.kids@[r as int]@,
                        t <= ks@.len(),
                        self.keys@ == pre.keys@,
                        self.values@ == pre.values@.update(r as int, None),
                        self.kids@.len() == pre.kids@.len(),
                        forall|x: int| 0 <= x < pre.len_all() && x != r ==> #[trigger] self.kids@[x] == pre.kids@[x],
                        self.kids@[r as int]@ == Seq::<usize>::empty(),
                        self.pos@ == pre.pos@,
                        self.rank@ == pre.rank@,
                        self.cap@ == pre.cap@,
                        self.id == pre.id,
                        self.root == pre.root,
                        self.parent@.len() == pre.parent@.len(),
                        pre.wf(),
                        pre.root == Some(r),
                        forall|x: int|
                            0 <= x < pre.len_all() ==> #[trigger] self.parent@[x] == if pre.live(x)
                                && pre.parent@[x] == Some(r) && pre.pos@[x] < t {
                                None
                            } else {
                                pre.parent@[x]
                            },
                    decreases ks@.len() - t,
                {
                    let c = ks[t];
                    assert(pre.kids@[r as int]@[t as int] == c);
                    self.parent.set(c, None);
                    t = t + 1;
                }
                proof {
                    assert(self.kids@[r as int]@ == Seq::<usize>::empty());
                    assert forall|i: int|
                        #![trigger self.parent@[i]]
                        0 <= i < self.len_all() && self.live(i) && self.parent@[i] is Some implies {
                            let q = self.parent@[i]->Some_0 as int;
                            &&& 0 <= q < self.len_all()
                            &&& self.live(q)
                            &&& self.keys@[q] <= self.keys@[i]
                            &&& self.rank@[q] > self.rank@[i]
                            &&& self.pos@[i] < self.kids@[q]@.len()
                            &&& self.kids@[q]@[self.pos@[i] as int] == i
                        } by {
                        assert(pre.parent@[i] is Some);
                        let q = pre.parent@[i]->Some_0 as int;
                        if q == r {
                            assert(pre.kids@[q]@[pre.pos@[i] as int] == i);
                        }
                    }
                    assert forall|a: int, j: int|
                        #![trigger self.kids@[a]@[j]]
                        0 <= a < self.len_all() && self.live(a) && 0 <= j < self.kids@[a]@.len() implies {
                            let c = self.kids@[a]@[j] as int;
                            &&& 0 <= c < self.len_all()
                            &&& self.live(c)
                            &&& self.parent@[c] == Some(a as usize)
                            &&& self.pos@[c] == j
                        } by {
                        assert(a != r);
                        assert(pre.kids@[a]@[j] == self.kids@[a]@[j]);
                        let c = pre.kids@[a]@[j] as int;
                        assert(pre.parent@[c] == Some(a as usize));
                        assert((a as usize) != r);
                        assert(pre.parent@[c] != Some(r));
                        assert(self.parent@[c] == pre.parent@[c]);
                    }
                    assert forall|k: int| 0 <= k < self.len_all() implies #[trigger] self.rank@[k]
                        < self.cap@ by {
                        assert(pre.rank@[k] < pre.cap@);
                    }
                    assert(self.forest());
                }
                if ks.len() == 0 {
                    self.root = None;
                    assert forall|x: int| 0 <= x < self.len_all() implies !#[trigger] self.live(x) by {
                        if self.live(x) {
                            let y = self.lemma_top(x);
                            assert(self.parent@[y] is None);
                            assert(y != r);
                            assert(pre.live(y));
                            assert(pre.parent@[y] is Some);
                            assert(pre.parent@[y] == Some(r));
                            assert(pre.kids@[r as int]@[pre.pos@[y] as int] == y);
                        }
                    }
                } else {
                    proof {
                        assert forall|a: int, b: int| 0 <= a < b < ks@.len() implies ks@[a] != ks@[b] by {
                            assert(pre.kids@[r as int]@[a] == ks@[a]);
                            assert(pre.kids@[r as int]@[b] == ks@[b]);
                        }
                        assert forall|k: int| 0 <= k < ks@.len() implies {
                            let x = #[trigger] ks@[k] as int;
                            &&& 0 <= x < self.len_all()
                            &&& self.live(x)
                            &&& self.parent@[x] is None
                        } by {
                            assert(pre.kids@[r as int]@[k] == ks@[k]);
                        }
                        assert forall|x: int|
                            0 <= x < self.len_all() && #[trigger] self.live(x) && self.parent@[x] is None
                                implies ks@.contains(x as usize) by {
                            assert(x != r);
                            assert(pre.live(x));
                            assert(pre.parent@[x] is Some);
                            let k = pre.pos@[x] as int;
                            assert(pre.kids@[r as int]@[k] == x);
                            assert(ks@[k] == x as usize);
                        }
                    }
                    let w = self.merge_pairs(ks);
                    let ghost mid = *self;
                    self.root = Some(w);
                    assert forall|i: int|
                        0 <= i < self.len_all() && #[trigger] self.live(i) && i != w
                            implies self.parent@[i] is Some by {
                        assert(mid.live(i));
                    }
                }
                proof {
                    assert(self@ =~= pre@.remove(r as nat));
                }
                let key = self.keys[r];
                match val {
                    Some(v) => Some((key, v)),
                    None => None,
                }
            },
        }
    }

    /// Detaches element `c` from its parent's child list.
    fn orphan(&mut self, c: usize)
        requires
            old(self).forest(),
            c < old(self).len_all(),
            old(self).live(c as int),
            old(self).parent@[c as int] is Some,
        ensures
            final(self).forest(),
            final(self).keys@ == old(self).keys@,
            final(self).values@ == old(self).values@,
            final(self).id == old(self).id,
            final(self).root == old(self).root,
            final(self).parent@[c as int] is None,
            forall|i: int|
                0 <= i < old(self).len_all() && i != c ==> final(self).parent@[i] == old(self).parent@[i],
    {
        let ghost pre = *self;
        let p = match self.parent[c] {
            Some(p) => p,
            None => c,
        };
        let k = self.pos[c];
        let mut ks: Vec<usize> = Vec::new();
        self.kids.set_and_swap(p, &mut ks);
        let ghost oks = ks@;
        let ghost last = (oks.len() - 1) as int;
        ks.swap_remove(k);
        if k < ks.len() {
            let m = ks[k];
            self.pos.set(m, k);
        }
        self.kids.set_and_swap(p, &mut ks);
        self.parent.set(c, None);
        proof {
            assert(oks[k as int] == c);
            assert(self.kids@[p as int]@ == oks.update(k as int, oks[last]).drop_last());
            assert forall|i: int|
                #![trigger self.parent@[i]]
                0 <= i < self.len_all() && self.live(i) && self.parent@[i] is Some implies {
                    let q = self.parent@[i]->Some_0 as int;
                    &&& 0 <= q < self.len_all()
                    &&& self.live(q)
                    &&& self.keys@[q] <= self.keys@[i]
                    &&& self.rank@[q] > self.rank@[i]
                    &&& self.pos@[i] < self.kids@[q]@.len()
                    &&& self.kids@[q]@[self.pos@[i] as int] == i
                } by {
                assert(pre.parent@[i] is Some);
                let q = pre.parent@[i]->Some_0 as int;
                assert(pre.kids@[q]@[pre.pos@[i] as int] == i);
                if q == p {
                    assert(pre.pos@[i] != k);
                    if pre.pos@[i] == last {
                        assert(self.pos@[i] == k);
                    } else {
                        assert(self.pos@[i] == pre.pos@[i]);
                    }
                } else if k < last {
                    let m = oks[last] as int;
                    assert(pre.parent@[m] == Some(p));
                    if i == m {
                        assert(false);
                    }
                }
            }
            assert forall|a: int, j: int|
                #![trigger self.kids@[a]@[j]]
                0 <= a < self.len_all() && self.live(a) && 0 <= j < self.kids@[a]@.len() implies {
                    let x = self.kids@[a]@[j] as int;
                    &&& 0 <= x < self.len_all()
                    &&& self.live(x)
                    &&& self.parent@[x] == Some(a as usize)
                    &&& self.pos@[x] == j
                } by {
                if a == p {
                    if j == k {
                        let m = oks[last] as int;
                        assert(pre.kids@[a]@[last] == m);
                        assert(pre.parent@[m] == Some(p));
                        assert(m != c);
                    } else {
                        assert(pre.kids@[a]@[j] == self.kids@[a]@[j]);
                        let x = pre.kids@[a]@[j] as int;
                        assert(pre.parent@[x] == Some(a as usize));
                        assert(x != c);
                        if k < last {
                            assert(x != oks[last]);
                        }
                    }
                } else {
                    assert(pre.kids@[a]@[j] == self.kids@[a]@[j]);
                    let x = pre.kids@[a]@[j] as int;
                    assert(pre.parent@[x] == Some(a as usize));
                    assert(x != c);
                    if k < last {
                        let m = oks[last] as int;
                        assert(pre.kids@[p as int]@[last] == m);
                        assert(pre.parent@[m] == Some(p));
                        assert(x != m);
                    }
                }
            }
            assert forall|i: int| 0 <= i < self.len_all() implies #[trigger] self.rank@[i]
                < self.cap@ by {
                assert(pre.rank@[i] < pre.cap@);
            }
        }
    }

    /// Lowers the key of the element that `handle` names to `new_key`.
    pub fn update_key(&mut self, handle: &Handle, new_key: usize)
        requires
            old(self).wf(),
            handle.heap_id() == old(self).id(),
            old(self)@.contains_key(handle.slot()),
            new_key <= old(self)@[handle.slot()].0,
        ensures
            final(self).wf(),
            final(self).id() == old(self).id(),
            final(self).slots() == old(self).slots(),
            final(self)@ == old(self)@.insert(handle.slot(), (new_key, old(self)@[handle.slot()].1)),
    {
        let ghost pre = *self;
        let i = handle.slot;
        assert(self.live(i as int));
        let r = match self.root {
            Some(r) => r,
            None => i,
        };
        if r == i {
            self.keys.set(i, new_key);
            proof {
                assert forall|x: int|
                    #![trigger self.parent@[x]]
                    0 <= x < self.len_all() && self.live(x) && self.parent@[x] is Some implies {
                        let q = self.parent@[x]->Some_0 as int;
                        &&& 0 <= q < self.len_all()
                        &&& self.live(q)
                        &&& self.keys@[q] <= self.keys@[x]
                        &&& self.rank@[q] > self.rank@[x]
                        &&& self.pos@[x] < self.kids@[q]@.len()
                        &&& self.kids@[q]@[self.pos@[x] as int] == x
                    } by {
                    assert(pre.parent@[x] is Some);
                }
                assert forall|a: int, j: int|
                    #![trigger self.kids@[a]@[j]]
                    0 <= a < self.len_all() && self.live(a) && 0 <= j < self.kids@[a]@.len() implies {
                        let x = self.kids@[a]@[j] as int;
                        &&& 0 <= x < self.len_all()
                        &&& self.live(x)
                        &&& self.parent@[x] == Some(a as usize)
                        &&& self.pos@[x] == j
                    } by {
                    assert(pre.kids@[a]@[j] == self.kids@[a]@[j]);
                }
                assert forall|x: int| 0 <= x < self.len_all() implies #[trigger] self.rank@[x]
                    < self.cap@ by {
                    assert(pre.rank@[x] < pre.cap@);
                }
                assert forall|x: int|
                    0 <= x < self.len_all() && #[trigger] self.live(x) && x != r implies self.parent@[x] is Some by {
                    assert(pre.live(x));
                }
            }
        } else {
            self.orphan(i);
            let ghost mid = *self;
            self.keys.set(i, new_key);
            proof {
                assert forall|x: int|
                    #![trigger self.parent@[x]]
                    0 <= x < self.len_all() && self.live(x) && self.parent@[x] is Some implies {
                        let q = self.parent@[x]->Some_0 as int;
                        &&& 0 <= q < self.len_all()
                        &&& self.live(q)
                        &&& self.keys@[q] <= self.keys@[x]
                        &&& self.rank@[q] > self.rank@[x]
                        &&& self.pos@[x] < self.kids@[q]@.len()
                        &&& self.kids@[q]@[self.pos@[x] as int] == x
                    } by {
                    assert(mid.parent@[x] is Some);
                    assert(mid.live(x));
                }
                assert forall|a: int, j: int|
                    #![trigger self.kids@[a]@[j]]
                    0 <= a < self.len_all() && self.live(a) && 0 <= j < self.kids@[a]@.len() implies {
                        let x = self.kids@[a]@[j] as int;
                        &&& 0 <= x < self.len_all()
                        &&& self.live(x)
                        &&& self.parent@[x] == Some(a as usize)
                        &&& self.pos@[x] == j
                    } by {
                    assert(mid.kids@[a]@[j] == self.kids@[a]@[j]);
                    assert(mid.live(a));
                }
                assert forall|x: int| 0 <= x < self.len_all() implies #[trigger] self.rank@[x]
                    < self.cap@ by {
                    assert(mid.rank@[x] < mid.cap@);
                }
            }
            let w = self.link(r, i);
            let ghost fin = *self;
            self.root = Some(w);
            proof {
                assert forall|x: int|
                    0 <= x < self.len_all() && #[trigger] self.live(x) && x != w implies self.parent@[x] is Some by {
                    assert(fin.live(x));
                    assert(pre.live(x));
                    if x != r && x != i {
                        assert(pre.parent@[x] is Some);
                        assert(mid.parent@[x] == pre.parent@[x]);
                    }
                }
            }
        }
        proof {
            assert(self@ =~= pre@.insert(i as nat, (new_key, pre@[i as nat].1)));
        }
    }

    /// Checks `handle` and `new_key`, then lowers the key as `update_key` does. On an error
    /// the heap is left as it was.
    pub fn try_update_key(&mut self, handle: &Handle, new_key: usize) -> (r: Result<(), KeyError>)
        requires
            old(self).wf(),
        ensures
            final(self).wf(),
            final(self).id() == old(self).id(),
            final(self).slots() == old(self).slots(),
            handle.heap_id() != old(self).id() ==> r == Err::<(), KeyError>(KeyError::ForeignHandle),
            handle.heap_id() == old(self).id() && !old(self)@.contains_key(handle.slot()) ==> r == Err::<
                (),
                KeyError,
            >(KeyError::Removed),
            handle.heap_id() == old(self).id() && old(self)@.contains_key(handle.slot()) && new_key
                > old(self)@[handle.slot()].0 ==> r == Err::<(), KeyError>(KeyError::KeyIncrease),
            r is Err ==> final(self)@ == old(self)@,
            r is Ok ==> final(self)@ == old(self)@.insert(
                handle.slot(),
                (new_key, old(self)@[handle.slot()].1),
            ),
            r is Ok <==> (handle.heap_id() == old(self).id() && old(self)@.contains_key(handle.slot())
                && new_key <= old(self)@[handle.slot()].0),
    {
        if handle.heap != self.id {
            return Err(KeyError::ForeignHandle);
        }
        let i = handle.slot;
        if i >= self.keys.len() || self.values[i].is_none() {
            assert(!self@.contains_key(i as nat));
            return Err(KeyError::Removed);
        }
        assert(self@.contains_key(i as nat));
        if new_key > self.keys[i] {
            return Err(KeyError::KeyIncrease);
        }
        self.update_key(handle, new_key);
        Ok(())
    }

    /// Creates a heap that holds the one element `(key, value)`.
    pub fn with_single_entry(key: usize, value: V) -> (h: Self)
        ensures
            h.wf(),
            h.slots() == 1,
            h@ == Map::<nat, (usize, V)>::empty().insert(0, (key, value)),
    {
        let mut h = Self::new();
        let _ = h.insert(key, value);
        h
    }

    /// Slot `z` of `self` holds what slot `z - n` of `o` held, with every link moved up by `n`.
    spec fn copied_from(&self, o: &Self, n: int, z: int) -> bool {
        &&& self.keys@[z] == o.keys@[z - n]
        &&& self.values@[z] == o.values@[z - n]
        &&& self.pos@[z] == o.pos@[z - n]
        &&& o.live(z - n) ==> self.parent@[z] == shift_link(o.parent@[z - n], n as nat)
        &&& o.live(z - n) ==> self.kids@[z]@ == o.kids@[z - n]@.map_values(|c: usize| (c + n) as usize)
    }

    /// Slot `x` of `self` is as slot `x` of `o`.
    spec fn kept_from(&self, o: &Self, x: int) -> bool {
        &&& self.keys@[x] == o.keys@[x]
        &&& self.values@[x] == o.values@[x]
        &&& self.parent@[x] == o.parent@[x]
        &&& self.pos@[x] == o.pos@[x]
        &&& self.kids@[x] == o.kids@[x]
    }

    /// Appends to the arena a copy of slot `t` of `other`, with its links moved up by `n`; the
    /// value is taken out of `other`.
    fn copy_slot(&mut self, other: &mut Self, t: usize, n: usize)
        requires
            old(other).wf_copy_source(t, n),
            old(self).keys@.len() == n + t,
            old(self).parent@.len() == n + t,
            old(self).kids@.len() == n + t,
        ensures
            final(self).keys@ == old(self).keys@.push(old(other).keys@[t as int]),
            final(self).values@ == old(self).values@.push(old(other).values@[t as int]),
            final(self).pos@ == old(self).pos@.push(old(other).pos@[t as int]),
            final(self).parent@.len() == old(self).parent@.len() + 1,
            final(self).kids@.len() == old(self).kids@.len() + 1,
            forall|x: int| 0 <= x < old(self).parent@.len() ==> final(self).parent@[x] == old(self).parent@[x],
            forall|x: int| 0 <= x < old(self).kids@.len() ==> final(self).kids@[x] == old(self).kids@[x],
            old(other).live(t as int) ==> final(self).parent@[n + t] == shift_link(old(other).parent@[t as int], n as nat),
            old(other).live(t as int) ==> final(self).kids@[n + t]@ == old(other).kids@[t as int]@.map_values(|c: usize| (c + n) as usize),
            final(self).id == old(self).id,
            final(self).root == old(self).root,
            final(self).rank == old(self).rank,
            final(self).cap == old(self).cap,
            final(other).keys@ == old(other).keys@,
            final(other).parent@ == old(other).parent@,
            final(other).pos@ == old(other).pos@,
            final(other).kids@ == old(other).kids@,
            final(other).rank == old(other).rank,
            final(other).cap == old(other).cap,
            final(other).values@ == old(other).values@.update(t as int, None),
    {
        let key = other.keys[t];
        let mut v: Option<V> = None;
        other.values.set_and_swap(t, &mut v);
        let mut par: Option<usize> = None;
        let mut nk: Vec<usize> = Vec::new();
        if v.is_some() {
            match other.parent[t] {
                Some(q) => {
                    par = Some(q + n);
                },
                None => {},
            }
            let mut u: usize = 0;
            while u < other.kids[t].len()
                invariant
                    old(other).live(t as int),
                    other.kids@ == old(other).kids@,
                    other.kids@.len() == old(other).keys@.len(),
                    old(other).wf_copy_source(t, n),
                    u <= other.kids@[t as int]@.len(),
                    nk@ == other.kids@[t as int]@.subrange(0, u as int).map_values(
                        |c: usize| (c + n) as usize,
                    ),
                decreases other.kids@[t as int]@.len() - u,
            {
                let c = other.kids[t][u];
                assert(old(other).kids@[t as int]@[u as int] == c);
                nk.push(c + n);
                u = u + 1;
                assert(nk@ =~= other.kids@[t as int]@.subrange(0, u as int).map_values(
                    |c: usize| (c + n) as usize,
                ));
            }
            assert(other.kids@[t as int]@.subrange(0, u as int) =~= other.kids@[t as int]@);
        }
        self.keys.push(key);
        self.values.push(v);
        self.parent.push(par);
        self.pos.push(other.pos[t]);
        self.kids.push(nk);
    }

    /// Slot `t` may be copied with its links moved up by `n`: they stay below `usize::MAX`.
    spec fn wf_copy_source(&self, t: usize, n: usize) -> bool {
        &&& self.sizes_ok()
        &&& t < self.len_all()
        &&& n + self.len_all() <= usize::MAX
        &&& self.live(t as int) ==> match self.parent@[t as int] {
            Some(q) => q < self.len_all(),
            None => true,
        }
        &&& self.live(t as int) ==> forall|j: int|
            0 <= j < self.kids@[t as int]@.len() ==> #[trigger] self.kids@[t as int]@[j] < self.len_all()
    }

    /// Moves every element of `other` into this heap. The element in slot `s` of `other` lands
    /// in slot `s + self.slots()`; handles issued by `other` carry `other`'s identity, not
    /// this heap's.
    #[verifier::rlimit(50)]
    pub fn merge(&mut self, other: PairingHeap<V>)
        requires
            old(self).wf(),
            other.wf(),
            old(self).slots() + other.slots() <= usize::MAX,
        ensures
            final(self).wf(),
            final(self).id() == old(self).id(),
            final(self).slots() == old(self).slots() + other.slots(),
            final(self)@ == old(self)@.union_prefer_right(shifted(other@, old(self).slots())),
    {
        let ghost pre = *self;
        let ghost opre = other;
        let oroot = other.root;
        let mut other = other;
        let n = self.keys.len();
        let m = other.keys.len();
        let mut t: usize = 0;
        while t < m
            invariant
                pre.wf(),
                opre.wf(),
                n == pre.len_all(),
                m == opre.len_all(),
                n + m <= usize::MAX,
                t <= m,
                self.id == pre.id,
                self.root == pre.root,
                self.rank == pre.rank,
                self.cap == pre.cap,
                self.keys@.len() == n + t,
                self.values@.len() == n + t,
                self.parent@.len() == n + t,
                self.pos@.len() == n + t,
                self.kids@.len() == n + t,
                other.keys@ == opre.keys@,
                other.parent@ == opre.parent@,
                other.pos@ == opre.pos@,
                other.kids@ == opre.kids@,
                other.rank == opre.rank,
                other.cap == opre.cap,
                other.values@.len() == m,
                forall|x: int| t <= x < m ==> #[trigger] other.values@[x] == opre.values@[x],
                forall|x: int| 0 <= x < n ==> #[trigger] self.kept_from(&pre, x),
                forall|z: int| n <= z < n + t ==> #[trigger] self.copied_from(&opre, n as int, z),
            decreases m - t,
        {
            let ghost bs = *self;
            proof {
                assert(opre.live(t as int) ==> other.live(t as int));
                if other.live(t as int) {
                    assert(opre.live(t as int));
                    if opre.parent@[t as int] is Some {
                        let q = opre.parent@[t as int]->Some_0;
                    }
                    assert forall|j: int| 0 <= j < other.kids@[t as int]@.len() implies #[trigger] other.kids@[t as int]@[j] < other.len_all() by {
                        assert(opre.kids@[t as int]@[j] == other.kids@[t as int]@[j]);
                    }
                }
            }
            self.copy_slot(&mut other, t, n);
            proof {
                assert forall|x: int| 0 <= x < n implies #[trigger] self.kept_from(&pre, x) by {
                    assert(bs.kept_from(&pre, x));
                }
                assert forall|z: int| n <= z < n + t + 1 implies #[trigger] self.copied_from(&opre, n as int, z) by {
                    if z < n + t {
                        assert(bs.copied_from(&opre, n as int, z));
                    }
                }
            }
            t = t + 1;
        }
        let ghost aft = *self;
        self.rank = Ghost(pre.rank@ + opre.rank@);
        self.cap = Ghost(if pre.cap@ < opre.cap@ { opre.cap@ } else { pre.cap@ });
        proof {
            assert forall|x: int| 0 <= x < n implies #[trigger] self.kept_from(&pre, x) by {
                assert(aft.kept_from(&pre, x));
            }
            assert forall|z: int| n <= z < n + m implies #[trigger] self.copied_from(&opre, n as int, z) by {
                assert(aft.copied_from(&opre, n as int, z));
            }
            self.lemma_appended_forest(&pre, &opre, n as int);
        }
        let ghost joined = *self;
        proof {
            assert forall|x: int| 0 <= x < joined.len_all() && #[trigger] joined.live(x) implies
                (x < n && pre.live(x) && joined.parent@[x] == pre.parent@[x]) || (x >= n && opre.live(x - n)
                    && joined.parent@[x] == shift_link(opre.parent@[x - n], n as nat)) by {
                if x < n {
                    assert(joined.kept_from(&pre, x));
                } else {
                    assert(joined.copied_from(&opre, n as int, x));
                }
            }
        }
        match oroot {
            None => {
                match self.root {
                    Some(r1) => {
                        assert(joined.kept_from(&pre, r1 as int));
                        assert forall|x: int|
                            0 <= x < self.len_all() && #[trigger] self.live(x) && x != r1
                                implies self.parent@[x] is Some by {
                            assert(joined.live(x));
                        }
                    },
                    None => {
                        assert forall|x: int| 0 <= x < self.len_all() implies !#[trigger] self.live(x) by {
                            assert(joined.live(x) == self.live(x));
                        }
                    },
                }
                assert(self.wf());
            },
            Some(r2) => {
                assert(joined.copied_from(&opre, n as int, r2 + n));
                match self.root {
                    None => {
                        self.root = Some(r2 + n);
                        assert forall|x: int|
                            0 <= x < self.len_all() && #[trigger] self.live(x) && x != r2 + n
                                implies self.parent@[x] is Some by {
                            assert(joined.live(x));
                            if x >= n {
                                assert(x - n != r2);
                            }
                        }
                        assert(self.wf());
                    },
                    Some(r1) => {
                        assert(joined.kept_from(&pre, r1 as int));
                        let w = self.link(r1, r2 + n);
                        let ghost linked = *self;
                        self.root = Some(w);
                        assert forall|x: int|
                            0 <= x < self.len_all() && #[trigger] self.live(x) && x != w
                                implies self.parent@[x] is Some by {
                            assert(linked.live(x));
                            assert(joined.live(x));
                            if x != r1 && x != r2 + n {
                                assert(linked.parent@[x] == joined.parent@[x]);
                                if x >= n {
                                    assert(x - n != r2);
                                }
                            }
                        }
                        assert(self.wf());
                    },
                }
            },
        }
        proof {
            let target = pre@.union_prefer_right(shifted(opre@, n as nat));
            assert forall|k: nat| #[trigger] self@.contains_key(k) == target.contains_key(k) by {
                if k < n {
                    assert(joined.kept_from(&pre, k as int));
                } else if k < n + m {
                    assert(joined.copied_from(&opre, n as int, k as int));
                }
            }
            assert forall|k: nat| #[trigger] self@.contains_key(k) implies self@[k] == target[k] by {
                if k < n {
                    assert(joined.kept_from(&pre, k as int));
                } else {
                    assert(joined.copied_from(&opre, n as int, k as int));
                }
            }
            assert(self@ =~= target);
        }
    }

    /// Appending a forest, with its links moved up past the end of another, keeps a forest.
    proof fn lemma_appended_forest(&self, pre: &Self, opre: &Self, n: int)
        requires
            pre.forest(),
            opre.forest(),
            n == pre.len_all(),
            self.sizes_ok(),
            self.len_all() == n + opre.len_all(),
            self.rank@ == pre.rank@ + opre.rank@,
            self.cap@ == (if pre.cap@ < opre.cap@ { opre.cap@ } else { pre.cap@ }),
            forall|x: int| 0 <= x < n ==> #[trigger] self.kept_from(pre, x),
            forall|z: int| n <= z < self.len_all() ==> #[trigger] self.copied_from(opre, n, z),
        ensures
            self.forest(),
    {
        assert forall|i: int|
            #![trigger self.parent@[i]]
            0 <= i < self.len_all() && self.live(i) && self.parent@[i] is Some implies {
                let q = self.parent@[i]->Some_0 as int;
                &&& 0 <= q < self.len_all()
                &&& self.live(q)
                &&& self.keys@[q] <= self.keys@[i]
                &&& self.rank@[q] > self.rank@[i]
                &&& self.pos@[i] < self.kids@[q]@.len()
                &&& self.kids@[q]@[self.pos@[i] as int] == i
            } by {
            if i < n {
                assert(self.kept_from(pre, i));
                assert(pre.live(i));
                assert(pre.parent@[i] is Some);
                let q = pre.parent@[i]->Some_0 as int;
                assert(self.kept_from(pre, q));
            } else {
                assert(self.copied_from(opre, n, i));
                assert(opre.live(i - n));
                assert(opre.parent@[i - n] is Some);
                let q = opre.parent@[i - n]->Some_0 as int;
                assert(self.copied_from(opre, n, q + n));
                assert(opre.kids@[q]@[opre.pos@[i - n] as int] == i - n);
            }
        }
        assert forall|a: int, j: int|
            #![trigger self.kids@[a]@[j]]
            0 <= a < self.len_all() && self.live(a) && 0 <= j < self.kids@[a]@.len() implies {
                let c = self.kids@[a]@[j] as int;
                &&& 0 <= c < self.len_all()
                &&& self.live(c)
                &&& self.parent@[c] == Some(a as usize)
                &&& self.pos@[c] == j
            } by {
            if a < n {
                assert(self.kept_from(pre, a));
                assert(pre.live(a));
                let c = pre.kids@[a]@[j] as int;
                assert(pre.parent@[c] == Some(a as usize));
                assert(self.kept_from(pre, c));
            } else {
                assert(self.copied_from(opre, n, a));
                assert(opre.live(a - n));
                let c = opre.kids@[a - n]@[j] as int;
                assert(opre.parent@[c] == Some((a - n) as usize));
                assert(self.copied_from(opre, n, c + n));
            }
        }
        assert forall|i: int| 0 <= i < self.len_all() implies #[trigger] self.rank@[i] < self.cap@ by {
            if i < n {
                assert(pre.rank@[i] < pre.cap@);
            } else {
                assert(opre.rank@[i - n] < opre.cap@);
            }
        }
    }

    /// Whether the heap holds no element.
    pub fn is_empty(&self) -> (r: bool)
        requires
            self.wf(),
        ensures
            r == (self@ == Map::<nat, (usize, V)>::empty()),
    {
        proof {
            if let Some(rt) = self.root {
                assert(self@.contains_key(rt as nat));
            } else {
                assert(self@ =~= Map::<nat, (usize, V)>::empty());
            }
        }
        self.root.is_none()
    }

    /// The element with the least key, or `None` when the heap is empty.
    pub fn find_min(&self) -> (r: Option<(&usize, &V)>)
        requires
            self.wf(),
        ensures
            r is None <==> self@ == Map::<nat, (usize, V)>::empty(),
            r matches Some((k, v)) ==> exists|i: nat|
                #[trigger] is_min_entry(self@, i) && self@[i] == (*k, *v),
    {
        match self.root {
            None => {
                assert(self@ =~= Map::<nat, (usize, V)>::empty());
                None
            },
            Some(r) => {
                proof {
                    assert(self@.contains_key(r as nat));
                    assert forall|j: nat| self@.contains_key(j) implies self@[r as nat].0
                        <= #[trigger] self@[j].0 by {
                        self.lemma_root_is_min(r as int, j as int);
                    }
                    assert(is_min_entry(self@, r as nat));
                }
                match &self.values[r] {
                    Some(v) => Some((&self.keys[r], v)),
                    None => None,
                }
            },
        }
    }
}

} // verus!
