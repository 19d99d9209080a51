//! A Fibonacci heap: a mergeable min-priority queue with stable handles,
//! constant-time insert and meld, and handle-based decrease-key and delete.
//!
//! Nodes live in an arena addressed by stable indices; parent and child
//! links are indices, so a node can be reached from its parent, its
//! children and an outside handle without aliased pointers. A ghost map
//! holds, for every live node, its chain of ancestors up to a root; the
//! chain's keys never increase on the way up, which is the heap order.

use vstd::prelude::*;
use vstd::multiset::Multiset;

verus! {

broadcast use vstd::multiset::group_multiset_axioms;

/// Errors reported by the heap operations.
#[derive(Clone, Copy, Debug, PartialEq, Eq, Structural)]
pub enum HeapError {
    /// `find_min` or `delete_min` was called on a heap with no nodes.
    EmptyHeap,
    /// `decrease_key` was asked for a change that would increase the key or
    /// take it below zero.
    InvalidDelta,
    /// The handle's node has already been removed from the heap.
    StaleHandle,
}

/// A stable reference to a heap node. It stays usable across every heap
/// operation until the node itself is removed.
#[derive(Clone, Copy, Debug, PartialEq, Eq, Structural)]
pub struct FibEntry {
    idx: usize,
}

impl FibEntry {
    /// The arena slot this handle points at.
    pub closed spec fn id(self) -> int {
        self.idx as int
    }

    /// The same handle moved up by `off` slots. After `a.meld(b)`, a handle
    /// obtained from `b` refers to its old node inside `a` once rebased by
    /// the value `a.num_nodes()` had just before the meld.
    pub fn rebase(self, off: usize) -> (r: FibEntry)
        requires
            self.id() + off <= usize::MAX,
        ensures
            r.id() == self.id() + off,
    {
        FibEntry { idx: self.idx + off }
    }
}

/// One arena slot: a tree node, or the remains of a removed one.
struct FibNode<V> {
    live: bool,
    key: u64,
    value: Option<V>,
    parent: Option<usize>,
    children: Vec<usize>,
    marked: bool,
}

/// The multiset contribution of one slot: its key if the slot is live.
spec fn key_contrib<V>(nd: FibNode<V>) -> Multiset<u64> {
    if nd.live {
        Multiset::singleton(nd.key)
    } else {
        Multiset::empty()
    }
}

/// The multiset of keys of the live slots of `s`.
spec fn keys_of<V>(s: Seq<FibNode<V>>) -> Multiset<u64>
    decreases s.len(),
{
    if s.len() == 0 {
        Multiset::empty()
    } else {
        keys_of(s.drop_last()).add(key_contrib(s.last()))
    }
}

/// Appending a slot adds its contribution.
proof fn lemma_keys_push<V>(s: Seq<FibNode<V>>, nd: FibNode<V>)
    ensures
        keys_of(s.push(nd)) == keys_of(s).add(key_contrib(nd)),
{
    assert(s.push(nd).drop_last() =~= s);
    assert(s.push(nd).last() == nd);
}

/// Replacing one slot exchanges its contribution.
proof fn lemma_keys_update<V>(s: Seq<FibNode<V>>, i: int, nd: FibNode<V>)
    requires
        0 <= i < s.len(),
    ensures
        keys_of(s.update(i, nd)).add(key_contrib(s[i])) == keys_of(s).add(key_contrib(nd)),
    decreases s.len(),
{
    let t = s.update(i, nd);
    assert(t.len() == s.len());
    if i == s.len() - 1 {
        assert(t.drop_last() =~= s.drop_last());
        assert(t.last() == nd);
        assert(s.last() == s[i]);
        let d = keys_of(s.drop_last());
        assert(keys_of(t) == d.add(key_contrib(nd)));
        assert(keys_of(s) == d.add(key_contrib(s[i])));
        assert forall|v: u64|
            keys_of(t).add(key_contrib(s[i])).count(v) == keys_of(s).add(key_contrib(nd)).count(
                v,
            ) by {
            assert(keys_of(t).add(key_contrib(s[i])).count(v) == d.count(v) + key_contrib(
                nd,
            ).count(v) + key_contrib(s[i]).count(v));
            assert(keys_of(s).add(key_contrib(nd)).count(v) == d.count(v) + key_contrib(
                s[i],
            ).count(v) + key_contrib(nd).count(v));
        }
        assert(keys_of(t).add(key_contrib(s[i])) =~= keys_of(s).add(key_contrib(nd)));
    } else {
        assert(t.drop_last() =~= s.drop_last().update(i, nd));
        assert(t.last() == s.last());
        lemma_keys_update(s.drop_last(), i, nd);
        assert(s.drop_last()[i] == s[i]);
        let a = keys_of(s.drop_last().update(i, nd));
        let b = keys_of(s.drop_last());
        assert(keys_of(t) == a.add(key_contrib(s.last())));
        assert(keys_of(s) == b.add(key_contrib(s.last())));
        assert(a.add(key_contrib(s[i])) == b.add(key_contrib(nd)));
        assert forall|v: u64|
            keys_of(t).add(key_contrib(s[i])).count(v) == keys_of(s).add(key_contrib(nd)).count(
                v,
            ) by {
            assert(keys_of(t).count(v) == a.count(v) + key_contrib(s.last()).count(v));
            assert(keys_of(s).count(v) == b.count(v) + key_contrib(s.last()).count(v));
            assert(a.add(key_contrib(s[i])).count(v) == b.add(key_contrib(nd)).count(v));
            assert(a.count(v) + key_contrib(s[i]).count(v) == b.count(v) + key_contrib(nd).count(
                v,
            ));
        }
        assert(keys_of(t).add(key_contrib(s[i])) =~= keys_of(s).add(key_contrib(nd)));
    }
}

/// Replacing a slot with one of the same liveness and key keeps the keys.
proof fn lemma_keys_update_same<V>(s: Seq<FibNode<V>>, i: int, nd: FibNode<V>)
    requires
        0 <= i < s.len(),
        key_contrib(nd) == key_contrib(s[i]),
    ensures
        keys_of(s.update(i, nd)) == keys_of(s),
{
    lemma_keys_update(s, i, nd);
    let c = key_contrib(s[i]);
    assert forall|v: u64| keys_of(s.update(i, nd)).count(v) == keys_of(s).count(v) by {
        assert(keys_of(s.update(i, nd)).add(c).count(v) == keys_of(s).add(key_contrib(nd)).count(
            v,
        ));
    }
    assert(keys_of(s.update(i, nd)) =~= keys_of(s));
}

/// A key has a positive count exactly when some live slot holds it.
proof fn lemma_keys_of_count<V>(s: Seq<FibNode<V>>, k: u64)
    ensures
        keys_of(s).count(k) > 0 <==> exists|i: int| 0 <= i < s.len() && (#[trigger] s[i]).live
            && s[i].key == k,
    decreases s.len(),
{
    if s.len() > 0 {
        lemma_keys_of_count(s.drop_last(), k);
        if keys_of(s).count(k) > 0 {
            if keys_of(s.drop_last()).count(k) > 0 {
                let i = choose|i: int|
                    0 <= i < s.drop_last().len() && (#[trigger] s.drop_last()[i]).live
                        && s.drop_last()[i].key == k;
                assert(s[i].live && s[i].key == k);
            } else {
                assert(s[s.len() - 1].live && s[s.len() - 1].key == k);
            }
        }
        if exists|i: int| 0 <= i < s.len() && (#[trigger] s[i]).live && s[i].key == k {
            let i = choose|i: int| 0 <= i < s.len() && (#[trigger] s[i]).live && s[i].key == k;
            if i < s.len() - 1 {
                assert(s.drop_last()[i].live && s.drop_last()[i].key == k);
            }
        }
    }
}


/// Removing one position from a duplicate-free sequence.
proof fn lemma_remove_seq<A>(s: Seq<A>, pos: int)
    requires
        0 <= pos < s.len(),
        s.no_duplicates(),
    ensures
        s.remove(pos).no_duplicates(),
        !s.remove(pos).contains(s[pos]),
        forall|y: A|
            #![trigger s.remove(pos).contains(y)]
            s.remove(pos).contains(y) <==> (s.contains(y) && y != s[pos]),
{
    let t = s.remove(pos);
    assert forall|j1: int, j2: int| 0 <= j1 < j2 < t.len() implies t[j1] != t[j2] by {
        let i1: int = if j1 < pos { j1 } else { j1 + 1 };
        let i2: int = if j2 < pos { j2 } else { j2 + 1 };
        assert(t[j1] == s[i1]);
        assert(t[j2] == s[i2]);
    }
    if t.contains(s[pos]) {
        let j = choose|j: int| 0 <= j < t.len() && t[j] == s[pos];
        let i: int = if j < pos { j } else { j + 1 };
        assert(s[i] == s[pos]);
    }
    assert forall|y: A| #![trigger t.contains(y)] t.contains(y) <==> (s.contains(y) && y
        != s[pos]) by {
        if t.contains(y) {
            let j = choose|j: int| 0 <= j < t.len() && t[j] == y;
            let i: int = if j < pos { j } else { j + 1 };
            assert(s[i] == y);
        }
        if s.contains(y) && y != s[pos] {
            let i = choose|i: int| 0 <= i < s.len() && s[i] == y;
            let j: int = if i < pos { i } else { i - 1 };
            assert(t[j] == y);
        }
    }
}

/// A slice of a duplicate-free sequence keeps both properties.
proof fn lemma_subrange_props<A>(q: Seq<A>, a: int, b: int)
    requires
        0 <= a <= b <= q.len(),
        q.no_duplicates(),
    ensures
        q.subrange(a, b).no_duplicates(),
        forall|y: A|
            #![trigger q.subrange(a, b).contains(y)]
            q.subrange(a, b).contains(y) ==> q.contains(y),
{
    let t = q.subrange(a, b);
    assert forall|j1: int, j2: int| 0 <= j1 < j2 < t.len() implies t[j1] != t[j2] by {
        assert(t[j1] == q[a + j1]);
        assert(t[j2] == q[a + j2]);
    }
    assert forall|y: A| #![trigger t.contains(y)] t.contains(y) implies q.contains(y) by {
        let j = choose|j: int| 0 <= j < t.len() && t[j] == y;
        assert(q[a + j] == y);
    }
}

/// A Fibonacci heap over keys `u64` with payloads `V`.
pub struct FHeap<V> {
    nodes: Vec<FibNode<V>>,
    roots: Vec<usize>,
    paths: Ghost<Map<int, Seq<usize>>>,
}

impl<V> FHeap<V> {
    /// Number of arena slots ever created, dead ones included.
    pub closed spec fn node_count(self) -> int {
        self.nodes@.len() as int
    }

    /// The slot `i` holds a node that is still in the heap.
    pub closed spec fn live(self, i: int) -> bool {
        0 <= i < self.nodes@.len() && self.nodes@[i].live
    }

    /// The key stored at slot `i`.
    pub closed spec fn key_at(self, i: int) -> u64 {
        self.nodes@[i].key
    }

    /// The payload stored at slot `i`.
    pub closed spec fn value_at(self, i: int) -> V {
        self.nodes@[i].value->Some_0
    }

    /// The parent link of slot `i`.
    pub closed spec fn parent_of(self, i: int) -> Option<usize> {
        self.nodes@[i].parent
    }

    /// The child list of slot `i`.
    pub closed spec fn children_of(self, i: int) -> Seq<usize> {
        self.nodes@[i].children@
    }

    /// The rank of slot `i`: how many children it has.
    pub closed spec fn rank_of(self, i: int) -> int {
        self.children_of(i).len() as int
    }

    /// The marked flag of slot `i`.
    pub closed spec fn marked_at(self, i: int) -> bool {
        self.nodes@[i].marked
    }

    /// Slot `i` is a live node without a parent.
    pub open spec fn is_root(self, i: int) -> bool {
        self.live(i) && self.parent_of(i) is None
    }

    /// How many trees the forest has.
    pub closed spec fn root_count(self) -> int {
        self.roots@.len() as int
    }

    /// The slot of the root at position `j` of the forest.
    pub closed spec fn root_at(self, j: int) -> int {
        self.roots@[j] as int
    }

    /// The slot of the minimum node; meaningful only in a nonempty heap.
    pub open spec fn min_idx(self) -> int {
        self.root_at(0)
    }

    /// The handle `h` refers to a node that is still in the heap.
    pub open spec fn valid(self, h: FibEntry) -> bool {
        self.live(h.id())
    }

    /// The multiset of the keys of all live nodes.
    pub closed spec fn keys(self) -> Multiset<u64> {
        keys_of(self.nodes@)
    }

    /// No two trees of the forest have the same rank.
    pub open spec fn distinct_ranks(self) -> bool {
        forall|j1: int, j2: int|
            #![trigger self.root_at(j1), self.root_at(j2)]
            0 <= j1 < j2 < self.root_count() ==> self.rank_of(self.root_at(j1)) != self.rank_of(
                self.root_at(j2),
            )
    }

    /// The forest list holds exactly the live parentless nodes, each once.
    spec fn inv_roots(self) -> bool {
        &&& forall|j: int|
            #![trigger self.root_at(j)]
            0 <= j < self.root_count() ==> self.is_root(self.root_at(j))
        &&& self.roots@.no_duplicates()
        &&& forall|i: int|
            #![trigger self.live(i)]
            self.live(i) && self.parent_of(i) is None ==> self.roots@.contains(i as usize)
    }

    /// Parent and child links agree, keys obey heap order along links,
    /// live nodes carry a payload, and roots are never marked.
    spec fn inv_nodes(self) -> bool {
        &&& forall|i: int| #![trigger self.live(i)] self.live(i) ==> self.nodes@[i].value is Some
        &&& forall|i: int|
            #![trigger self.parent_of(i)]
            self.live(i) && self.parent_of(i) is Some ==> {
                let p = self.parent_of(i)->Some_0 as int;
                &&& self.live(p)
                &&& self.children_of(p).contains(i as usize)
                &&& self.key_at(p) <= self.key_at(i)
            }
        &&& forall|p: int, jc: int|
            #![trigger self.children_of(p)[jc]]
            self.live(p) && 0 <= jc < self.children_of(p).len() ==> {
                let c = self.children_of(p)[jc] as int;
                &&& self.live(c)
                &&& self.parent_of(c) == Some(p as usize)
            }
        &&& forall|p: int|
            #![trigger self.children_of(p)]
            self.live(p) ==> self.children_of(p).no_duplicates()
        &&& forall|i: int| #![trigger self.live(i)] self.live(i) && self.parent_of(i) is None ==> !self.marked_at(i)
    }

    /// `q` is a well-formed ancestor chain for slot `i`: it starts at `i`,
    /// steps through parent links, ends at a root, and its keys never
    /// increase on the way up.
    spec fn path_ok(self, i: int, q: Seq<usize>) -> bool {
        &&& q.len() >= 1
        &&& q[0] as int == i
        &&& q.no_duplicates()
        &&& forall|j: int| #![trigger q[j]] 0 <= j < q.len() ==> self.live(q[j] as int)
        &&& forall|j: int|
            #![trigger q[j]]
            0 <= j < q.len() - 1 ==> self.parent_of(q[j] as int) == Some(q[j + 1])
        &&& self.parent_of(q.last() as int) is None
        &&& forall|j1: int, j2: int|
            #![trigger q[j1], q[j2]]
            0 <= j1 <= j2 < q.len() ==> self.key_at(q[j2] as int) <= self.key_at(q[j1] as int)
    }

    /// Every live node has a well-formed ancestor chain, and the chain of a
    /// child extends its parent's chain.
    spec fn inv_paths(self) -> bool {
        let pm = self.paths@;
        &&& forall|i: int| #![trigger pm.dom().contains(i)] pm.dom().contains(i) <==> self.live(i)
        &&& forall|i: int|
            #![trigger pm[i]]
            self.live(i) ==> {
                &&& self.path_ok(i, pm[i])
                &&& (self.parent_of(i) is Some ==> pm[i].len() >= 2 && pm[i].drop_first()
                    == pm[self.parent_of(i)->Some_0 as int])
                &&& (self.parent_of(i) is None ==> pm[i].len() == 1)
            }
    }

    /// The first tree of the forest carries the smallest root key.
    spec fn min_front(self) -> bool {
        self.root_count() > 0 ==> forall|j: int|
            #![trigger self.root_at(j)]
            0 <= j < self.root_count() ==> self.key_at(self.min_idx()) <= self.key_at(
                self.root_at(j),
            )
    }

    /// All structural invariants except the position of the minimum.
    spec fn wf0(self) -> bool {
        self.inv_roots() && self.inv_nodes() && self.inv_paths()
    }

    /// The heap invariant: link structure, heap order, mark discipline, and
    /// the minimum root standing first in the forest.
    pub closed spec fn wf(self) -> bool {
        self.wf0() && self.min_front()
    }

    /// A live slot lies below the slot count.
    pub proof fn lemma_live_in_bounds(self, i: int)
        requires
            self.live(i),
        ensures
            0 <= i < self.node_count(),
    {
    }

    /// In a well-formed heap a live node guarantees a nonempty forest.
    pub proof fn lemma_live_has_root(self, i: int)
        requires
            self.wf(),
            self.live(i),
        ensures
            self.root_count() > 0,
    {
        let q = self.paths@[i];
        assert(self.path_ok(i, q));
        let r = q[q.len() - 1];
        assert(q.last() == r);
        assert(self.live(r as int) && self.parent_of(r as int) is None);
        assert(self.roots@.contains(r));
        let j = choose|j: int| 0 <= j < self.roots@.len() && self.roots@[j] == r;
    }

    /// The forest is nonempty exactly when the heap holds a key.
    pub proof fn lemma_nonempty_has_root(self)
        requires
            self.wf(),
        ensures
            self.root_count() > 0 <==> self.keys().len() > 0,
    {
        if self.root_count() > 0 {
            self.lemma_min_front_smallest();
            assert(self.keys().count(self.key_at(self.min_idx())) > 0);
        }
        if self.keys().len() > 0 {
            let k = self.keys().choose();
            assert(self.keys().count(k) > 0);
            self.lemma_keys_are_live_keys(k);
            let i = choose|i: int| #![trigger self.live(i)] self.live(i) && self.key_at(i) == k;
            self.lemma_live_has_root(i);
        }
    }

    /// Roots are never marked.
    pub proof fn lemma_roots_unmarked(self)
        requires
            self.wf(),
        ensures
            forall|i: int| #![trigger self.is_root(i)] self.is_root(i) ==> !self.marked_at(i),
    {
        assert forall|i: int| #![trigger self.is_root(i)] self.is_root(i) implies !self.marked_at(
            i,
        ) by {
            assert(self.live(i) && self.parent_of(i) is None);
        }
    }

    /// Heap order, stated over the public view: a node's key is at least its
    /// parent's.
    pub proof fn lemma_heap_order(self)
        requires
            self.wf(),
        ensures
            forall|i: int|
                #![trigger self.parent_of(i)]
                self.live(i) && self.parent_of(i) is Some ==> self.live(
                    self.parent_of(i)->Some_0 as int,
                ) && self.key_at(self.parent_of(i)->Some_0 as int) <= self.key_at(i),
    {
    }

    /// In a nonempty heap the first root is live, parentless, and carries a
    /// key no larger than any live key.
    pub proof fn lemma_min_front_smallest(self)
        requires
            self.wf(),
            self.root_count() > 0,
        ensures
            self.is_root(self.min_idx()),
            self.keys().contains(self.key_at(self.min_idx())),
            forall|i: int|
                #![trigger self.live(i)]
                self.live(i) ==> self.key_at(self.min_idx()) <= self.key_at(i),
    {
        assert(self.is_root(self.min_idx()));
        assert forall|i: int| #![trigger self.live(i)] self.live(i) implies self.key_at(
            self.min_idx(),
        ) <= self.key_at(i) by {
            let q = self.paths@[i];
            assert(self.path_ok(i, q));
            let r = q[q.len() - 1];
            assert(q.last() == r);
            assert(self.live(r as int) && self.parent_of(r as int) is None);
            assert(self.key_at(r as int) <= self.key_at(q[0] as int));
            assert(self.roots@.contains(r));
            let j = choose|j: int| 0 <= j < self.roots@.len() && self.roots@[j] == r;
            assert(self.root_at(j) == r as int);
            assert(self.key_at(self.min_idx()) <= self.key_at(self.root_at(j)));
        }
        let m = self.min_idx();
        lemma_keys_of_count(self.nodes@, self.key_at(m));
        assert(self.nodes@[m].live && self.nodes@[m].key == self.key_at(m));
    }

    /// A key is in the heap exactly when some live node carries it.
    pub proof fn lemma_keys_are_live_keys(self, k: u64)
        ensures
            self.keys().contains(k) <==> exists|i: int|
                #![trigger self.live(i)]
                self.live(i) && self.key_at(i) == k,
    {
        lemma_keys_of_count(self.nodes@, k);
        if exists|i: int| 0 <= i < self.nodes@.len() && (#[trigger] self.nodes@[i]).live
            && self.nodes@[i].key == k {
            let i = choose|i: int|
                0 <= i < self.nodes@.len() && (#[trigger] self.nodes@[i]).live && self.nodes@[i].key
                    == k;
            assert(self.live(i) && self.key_at(i) == k);
        }
        if exists|i: int| #![trigger self.live(i)] self.live(i) && self.key_at(i) == k {
            let i = choose|i: int| #![trigger self.live(i)] self.live(i) && self.key_at(i) == k;
            assert(0 <= i < self.nodes@.len() && self.nodes@[i].live && self.nodes@[i].key == k);
        }
    }

    /// An empty heap: no nodes, no trees.
    pub fn new() -> (h: FHeap<V>)
        ensures
            h.wf(),
            h.keys() == Multiset::<u64>::empty(),
            h.root_count() == 0,
            h.node_count() == 0,
    {
        let h = FHeap { nodes: Vec::new(), roots: Vec::new(), paths: Ghost(Map::empty()) };
        proof {
            assert(h.keys() =~= Multiset::<u64>::empty());
        }
        h
    }

    /// Creates a fresh singleton tree holding `k` and `val`, splices it into
    /// the forest, and hands back a stable handle to it.
    pub fn insert(&mut self, k: u64, val: V) -> (h: FibEntry)
        requires
            old(self).wf(),
        ensures
            final(self).wf(),
            final(self).keys() == old(self).keys().insert(k),
            h.id() == old(self).node_count(),
            final(self).node_count() == old(self).node_count() + 1,
            final(self).root_count() == old(self).root_count() + 1,
            final(self).valid(h),
            final(self).is_root(h.id()),
            !final(self).marked_at(h.id()),
            final(self).key_at(h.id()) == k,
            final(self).value_at(h.id()) == val,
            final(self).rank_of(h.id()) == 0,
            forall|i: int| i != h.id() ==> (final(self).live(i) <==> old(self).live(i)),
            forall|i: int|
                #![trigger old(self).live(i)]
                old(self).live(i) ==> final(self).live(i) && final(self).key_at(i)
                    == old(self).key_at(i) && final(self).value_at(i) == old(self).value_at(i)
                    && final(self).parent_of(i) == old(self).parent_of(i)
                    && final(self).children_of(i) == old(self).children_of(i)
                    && final(self).marked_at(i) == old(self).marked_at(i),
    {
        let idx = self.nodes.len();
        let ghost old_nodes = self.nodes@;
        let node = FibNode {
            live: true,
            key: k,
            value: Some(val),
            parent: None,
            children: Vec::new(),
            marked: false,
        };
        proof {
            lemma_keys_push(self.nodes@, node);
        }
        self.nodes.push(node);
        proof {
            self.paths = Ghost(self.paths@.insert(idx as int, seq![idx]));
        }
        if self.roots.len() == 0 {
            self.roots.push(idx);
        } else {
            let front = self.roots[0];
            proof {
                assert(old(self).is_root(old(self).root_at(0)));
            }
            if k < self.nodes[front].key {
                self.roots.insert(0, idx);
            } else {
                self.roots.push(idx);
            }
        }
        proof {
            let s = *self;
            let prev = *old(self);
            assert(s.keys() =~= prev.keys().insert(k));
            assert forall|i: int| #![trigger s.live(i)] s.live(i) implies s.path_ok(
                i,
                s.paths@[i],
            ) && (s.parent_of(i) is Some ==> s.paths@[i].len() >= 2 && s.paths@[i].drop_first()
                == s.paths@[s.parent_of(i)->Some_0 as int]) && (s.parent_of(i) is None
                ==> s.paths@[i].len() == 1) by {
                if i < idx {
                    assert(prev.live(i));
                    assert(s.paths@[i] == prev.paths@[i]);
                    assert(prev.path_ok(i, prev.paths@[i]));
                    let q = prev.paths@[i];
                    assert forall|j: int| #![trigger q[j]] 0 <= j < q.len() implies s.live(
                        q[j] as int,
                    ) && s.nodes@[q[j] as int] == prev.nodes@[q[j] as int] by {
                        assert(prev.live(q[j] as int));
                    }
                    assert(s.path_ok(i, q));
                    if s.parent_of(i) is Some {
                        assert(prev.paths@[i].drop_first() == prev.paths@[prev.parent_of(
                            i,
                        )->Some_0 as int]);
                    }
                } else {
                    assert(i == idx);
                    assert(s.paths@[i] == seq![idx]);
                    assert(s.path_ok(i, seq![idx]));
                }
            }
            assert forall|i: int|
                #![trigger s.paths@.dom().contains(i)]
                s.paths@.dom().contains(i) <==> s.live(i) by {
                if i != idx {
                    assert(s.paths@.dom().contains(i) <==> prev.paths@.dom().contains(i));
                    assert(prev.paths@.dom().contains(i) <==> prev.live(i));
                }
            }
            assert(s.inv_paths());
            assert forall|i: int| #![trigger s.live(i)] s.live(i) implies s.nodes@[i].value
                is Some by {
                if i < idx {
                    assert(prev.live(i));
                }
            }
            assert forall|i: int|
                #![trigger s.parent_of(i)]
                s.live(i) && s.parent_of(i) is Some implies {
                let p = s.parent_of(i)->Some_0 as int;
                &&& s.live(p)
                &&& s.children_of(p).contains(i as usize)
                &&& s.key_at(p) <= s.key_at(i)
            } by {
                if i < idx {
                    assert(prev.live(i));
                    assert(prev.parent_of(i) == s.parent_of(i));
                    let p = s.parent_of(i)->Some_0 as int;
                    assert(prev.live(p));
                    assert(prev.children_of(p) == s.children_of(p));
                }
            }
            assert forall|p: int, jc: int|
                #![trigger s.children_of(p)[jc]]
                s.live(p) && 0 <= jc < s.children_of(p).len() implies {
                let c = s.children_of(p)[jc] as int;
                &&& s.live(c)
                &&& s.parent_of(c) == Some(p as usize)
            } by {
                if p < idx {
                    assert(prev.live(p));
                    assert(prev.children_of(p)[jc] == s.children_of(p)[jc]);
                    let c = s.children_of(p)[jc] as int;
                    assert(prev.live(c));
                    assert(prev.parent_of(c) == Some(p as usize));
                }
            }
            assert forall|p: int| #![trigger s.children_of(p)] s.live(p) implies s.children_of(
                p,
            ).no_duplicates() by {
                if p < idx {
                    assert(prev.live(p));
                    assert(prev.children_of(p) == s.children_of(p));
                }
            }
            assert forall|i: int|
                #![trigger s.live(i)]
                s.live(i) && s.parent_of(i) is None implies !s.marked_at(i) by {
                if i < idx {
                    assert(prev.live(i));
                }
            }
            assert(s.inv_nodes());
            assert(s.roots@.no_duplicates()) by {
                if prev.roots@.len() > 0 && k < prev.key_at(prev.root_at(0)) {
                    assert(s.roots@ == seq![idx].add(prev.roots@));
                    assert forall|j1: int, j2: int|
                        0 <= j1 < j2 < s.roots@.len() implies s.roots@[j1] != s.roots@[j2] by {
                        if j1 == 0 {
                            assert(s.roots@[j2] == prev.roots@[j2 - 1]);
                            assert(prev.is_root(prev.root_at(j2 - 1)));
                        } else {
                            assert(s.roots@[j1] == prev.roots@[j1 - 1]);
                            assert(s.roots@[j2] == prev.roots@[j2 - 1]);
                        }
                    }
                } else {
                    assert(s.roots@ == prev.roots@.push(idx));
                    assert forall|j1: int, j2: int|
                        0 <= j1 < j2 < s.roots@.len() implies s.roots@[j1] != s.roots@[j2] by {
                        if j2 == s.roots@.len() - 1 {
                            assert(s.roots@[j1] == prev.roots@[j1]);
                            assert(prev.is_root(prev.root_at(j1)));
                        }
                    }
                }
            }
            assert(s.inv_roots()) by {
                assert forall|j: int| #![trigger s.root_at(j)] 0 <= j < s.root_count() implies s.is_root(
                    s.root_at(j),
                ) by {
                    if prev.roots@.len() > 0 && k < prev.key_at(prev.root_at(0)) {
                        if j == 0 {
                            assert(s.root_at(j) == idx);
                        } else {
                            assert(s.root_at(j) == prev.root_at(j - 1));
                            assert(prev.is_root(prev.root_at(j - 1)));
                        }
                    } else {
                        if j < prev.roots@.len() {
                            assert(s.root_at(j) == prev.root_at(j));
                            assert(prev.is_root(prev.root_at(j)));
                        } else {
                            assert(s.root_at(j) == idx);
                        }
                    }
                }
                assert forall|i: int|
                    #![trigger s.live(i)]
                    s.live(i) && s.parent_of(i) is None implies s.roots@.contains(i as usize) by {
                    if i < idx {
                        assert(prev.roots@.contains(i as usize));
                        let j = choose|j: int|
                            0 <= j < prev.roots@.len() && prev.roots@[j] == i as usize;
                        if prev.roots@.len() > 0 && k < prev.key_at(prev.root_at(0)) {
                            assert(s.roots@[j + 1] == i as usize);
                        } else {
                            assert(s.roots@[j] == i as usize);
                        }
                    } else {
                        if prev.roots@.len() > 0 && k < prev.key_at(prev.root_at(0)) {
                            assert(s.roots@[0] == idx);
                        } else {
                            assert(s.roots@[s.roots@.len() - 1] == idx);
                        }
                    }
                }
            }
            assert(s.min_front()) by {
                if prev.roots@.len() == 0 {
                    assert(s.root_at(0) == idx);
                } else if k < prev.key_at(prev.root_at(0)) {
                    assert(s.root_at(0) == idx);
                    assert forall|j: int|
                        #![trigger s.root_at(j)]
                        0 <= j < s.root_count() implies s.key_at(s.min_idx()) <= s.key_at(
                        s.root_at(j),
                    ) by {
                        if j > 0 {
                            assert(s.root_at(j) == prev.root_at(j - 1));
                            assert(prev.key_at(prev.min_idx()) <= prev.key_at(prev.root_at(j - 1)));
                        }
                    }
                } else {
                    assert(s.root_at(0) == prev.root_at(0));
                    assert forall|j: int|
                        #![trigger s.root_at(j)]
                        0 <= j < s.root_count() implies s.key_at(s.min_idx()) <= s.key_at(
                        s.root_at(j),
                    ) by {
                        if j < s.root_count() - 1 || !(prev.roots@.len() > 0) {
                            assert(s.root_at(j) == prev.root_at(j));
                        } else {
                            assert(s.root_at(j) == idx);
                        }
                    }
                }
            }
        }
        FibEntry { idx }
    }


    /// The ghost path map after node `x` has been made a root: every chain
    /// through `x` is truncated right after it.
    spec fn cut_paths(pm: Map<int, Seq<usize>>, x: usize) -> Map<int, Seq<usize>> {
        Map::new(
            |i: int| pm.dom().contains(i),
            |i: int|
                if pm[i].contains(x) {
                    pm[i].subrange(0, pm[i].index_of(x) + 1)
                } else {
                    pm[i]
                },
        )
    }

    /// `s` is `prev` after node `x` was detached from its parent `p`, which
    /// held it at child position `pos`.
    spec fn cut_shape(prev: Self, s: Self, x: usize, p: usize, pos: int) -> bool {
        &&& prev.wf()
        &&& prev.live(x as int)
        &&& prev.parent_of(x as int) == Some(p)
        &&& prev.live(p as int)
        &&& 0 <= pos < prev.children_of(p as int).len()
        &&& prev.children_of(p as int)[pos] == x
        &&& prev.nodes@.len() <= usize::MAX
        &&& s.nodes@.len() == prev.nodes@.len()
        &&& forall|i: int|
            #![trigger s.nodes@[i]]
            0 <= i < s.nodes@.len() && i != p as int && i != x as int ==> s.nodes@[i]
                == prev.nodes@[i]
        &&& s.children_of(p as int) == prev.children_of(p as int).remove(pos)
        &&& s.nodes@[p as int].live == prev.nodes@[p as int].live
        &&& s.nodes@[p as int].key == prev.nodes@[p as int].key
        &&& s.nodes@[p as int].value == prev.nodes@[p as int].value
        &&& s.nodes@[p as int].parent == prev.nodes@[p as int].parent
        &&& s.nodes@[p as int].marked == prev.nodes@[p as int].marked
        &&& s.nodes@[x as int].live == prev.nodes@[x as int].live
        &&& s.nodes@[x as int].key == prev.nodes@[x as int].key
        &&& s.nodes@[x as int].value == prev.nodes@[x as int].value
        &&& s.nodes@[x as int].parent is None
        &&& s.nodes@[x as int].marked == false
        &&& s.nodes@[x as int].children@ == prev.nodes@[x as int].children@
        &&& s.roots@ == prev.roots@.push(x)
        &&& s.paths@ == Self::cut_paths(prev.paths@, x)
    }

    /// Basic consequences of a cut: `x` and `p` differ and liveness, keys and
    /// values are untouched.
    proof fn lemma_cut_frame(prev: Self, s: Self, x: usize, p: usize, pos: int)
        requires
            Self::cut_shape(prev, s, x, p, pos),
        ensures
            x != p,
            forall|i: int| s.live(i) <==> prev.live(i),
            forall|i: int|
                #![trigger prev.live(i)]
                prev.live(i) ==> s.key_at(i) == prev.key_at(i) && s.value_at(i) == prev.value_at(i),
            forall|i: int|
                #![trigger prev.live(i)]
                prev.live(i) && i != x as int ==> s.parent_of(i) == prev.parent_of(i)
                    && s.marked_at(i) == prev.marked_at(i),
            forall|i: int|
                #![trigger prev.live(i)]
                prev.live(i) && i != p as int ==> s.children_of(i) == prev.children_of(i),
    {
        let qx = prev.paths@[x as int];
        assert(prev.path_ok(x as int, qx));
        assert(qx[0] == x);
        assert(qx.len() >= 2 && qx.drop_first() == prev.paths@[p as int]);
        assert(qx[1] == prev.paths@[p as int][0]);
        assert(prev.path_ok(p as int, prev.paths@[p as int]));
        assert(qx[1] == p);
        assert(x != p);
        assert forall|i: int| s.live(i) <==> prev.live(i) by {
            assert(forall|i: int|
                0 <= i < s.nodes@.len() ==> (#[trigger] s.nodes@[i]).live == prev.nodes@[i].live);
        }
    }

    /// After a cut the node invariants still hold.
    proof fn lemma_cut_nodes(prev: Self, s: Self, x: usize, p: usize, pos: int)
        requires
            Self::cut_shape(prev, s, x, p, pos),
        ensures
            s.inv_nodes(),
    {
        Self::lemma_cut_frame(prev, s, x, p, pos);
        let chs = prev.children_of(p as int);
        lemma_remove_seq(chs, pos);
        assert forall|i: int| #![trigger s.live(i)] s.live(i) implies s.nodes@[i].value is Some by {
            assert(prev.live(i));
        }
        assert forall|i: int|
            #![trigger s.parent_of(i)]
            s.live(i) && s.parent_of(i) is Some implies {
            let pi = s.parent_of(i)->Some_0 as int;
            &&& s.live(pi)
            &&& s.children_of(pi).contains(i as usize)
            &&& s.key_at(pi) <= s.key_at(i)
        } by {
            assert(i != x as int);
            assert(prev.live(i) && prev.parent_of(i) == s.parent_of(i));
            let pi = s.parent_of(i)->Some_0 as int;
            assert(prev.live(pi) && prev.children_of(pi).contains(i as usize));
            assert(prev.key_at(pi) <= prev.key_at(i));
            if pi == p as int {
                assert(i as usize != x);
                assert(s.children_of(pi).contains(i as usize));
            } else {
                assert(s.children_of(pi) == prev.children_of(pi));
            }
        }
        assert forall|pp: int, jc: int|
            #![trigger s.children_of(pp)[jc]]
            s.live(pp) && 0 <= jc < s.children_of(pp).len() implies {
            let c = s.children_of(pp)[jc] as int;
            &&& s.live(c)
            &&& s.parent_of(c) == Some(pp as usize)
        } by {
            assert(prev.live(pp));
            let c = s.children_of(pp)[jc] as int;
            if pp == p as int {
                assert(s.children_of(pp).contains(s.children_of(pp)[jc]));
                assert(chs.contains(c as usize) && c as usize != x);
                let jo = choose|jo: int| 0 <= jo < chs.len() && chs[jo] == c as usize;
                assert(prev.children_of(p as int)[jo] == c as usize);
                assert(prev.live(c) && prev.parent_of(c) == Some(p as usize));
                assert(c != x as int);
            } else {
                assert(s.children_of(pp) == prev.children_of(pp));
                assert(prev.children_of(pp)[jc] == s.children_of(pp)[jc]);
                assert(prev.live(c) && prev.parent_of(c) == Some(pp as usize));
                assert(c != x as int) by {
                    if c == x as int {
                        assert(prev.parent_of(x as int) == Some(pp as usize));
                        assert(pp == p as int);
                    }
                }
            }
        }
        assert forall|pp: int| #![trigger s.children_of(pp)] s.live(pp) implies s.children_of(
            pp,
        ).no_duplicates() by {
            assert(prev.live(pp));
            if pp != p as int {
                assert(s.children_of(pp) == prev.children_of(pp));
            }
        }
        assert forall|i: int|
            #![trigger s.live(i)]
            s.live(i) && s.parent_of(i) is None implies !s.marked_at(i) by {
            assert(prev.live(i));
            if i != x as int {
                assert(prev.parent_of(i) is None);
            }
        }
    }

    /// After a cut the forest list is still exact and the minimum stays in
    /// front.
    proof fn lemma_cut_roots(prev: Self, s: Self, x: usize, p: usize, pos: int)
        requires
            Self::cut_shape(prev, s, x, p, pos),
        ensures
            s.inv_roots(),
            s.min_front(),
            s.root_count() > 0,
            s.root_at(0) == prev.root_at(0),
    {
        Self::lemma_cut_frame(prev, s, x, p, pos);
        assert(prev.root_count() > 0) by {
            let q = prev.paths@[x as int];
            assert(prev.path_ok(x as int, q));
            let r = q[q.len() - 1];
            assert(q.last() == r);
            assert(prev.live(r as int) && prev.parent_of(r as int) is None);
            assert(prev.roots@.contains(r));
            let j = choose|j: int| 0 <= j < prev.roots@.len() && prev.roots@[j] == r;
        }
        prev.lemma_min_front_smallest();
        assert(!prev.roots@.contains(x)) by {
            if prev.roots@.contains(x) {
                let j = choose|j: int| 0 <= j < prev.roots@.len() && prev.roots@[j] == x;
                assert(prev.is_root(prev.root_at(j)));
            }
        }
        assert(s.roots@.no_duplicates()) by {
            assert forall|j1: int, j2: int|
                0 <= j1 < j2 < s.roots@.len() implies s.roots@[j1] != s.roots@[j2] by {
                if j2 == s.roots@.len() - 1 {
                    assert(s.roots@[j1] == prev.roots@[j1]);
                    assert(prev.roots@.contains(prev.roots@[j1]));
                }
            }
        }
        assert forall|j: int| #![trigger s.root_at(j)] 0 <= j < s.root_count() implies s.is_root(
            s.root_at(j),
        ) by {
            if j < s.root_count() - 1 {
                assert(s.root_at(j) == prev.root_at(j));
                assert(prev.is_root(prev.root_at(j)));
                assert(prev.root_at(j) != x as int);
            } else {
                assert(s.root_at(j) == x as int);
            }
        }
        assert forall|i: int|
            #![trigger s.live(i)]
            s.live(i) && s.parent_of(i) is None implies s.roots@.contains(i as usize) by {
            if i != x as int {
                assert(prev.live(i) && prev.parent_of(i) is None);
                assert(prev.roots@.contains(i as usize));
                let j = choose|j: int| 0 <= j < prev.roots@.len() && prev.roots@[j] == i as usize;
                assert(s.roots@[j] == i as usize);
            } else {
                assert(s.roots@[s.roots@.len() - 1] == x);
            }
        }
        assert forall|j: int| #![trigger s.root_at(j)] 0 <= j < s.root_count() implies s.key_at(
            s.min_idx(),
        ) <= s.key_at(s.root_at(j)) by {
            assert(s.root_at(0) == prev.root_at(0));
            if j < s.root_count() - 1 {
                assert(s.root_at(j) == prev.root_at(j));
                assert(prev.key_at(prev.min_idx()) <= prev.key_at(prev.root_at(j)));
            } else {
                assert(s.root_at(j) == x as int);
                assert(prev.key_at(prev.min_idx()) <= prev.key_at(x as int));
            }
        }
    }

    /// After a cut every ancestor chain is again well formed: chains through
    /// `x` now stop at `x`, all others are untouched.
    #[verifier::rlimit(100)]
    proof fn lemma_cut_paths_ok(prev: Self, s: Self, x: usize, p: usize, pos: int)
        requires
            Self::cut_shape(prev, s, x, p, pos),
        ensures
            s.inv_paths(),
            s.paths@[x as int] == seq![x],
            s.paths@[p as int] == prev.paths@[x as int].drop_first(),
    {
        Self::lemma_cut_frame(prev, s, x, p, pos);
        let pm = prev.paths@;
        let pmn = s.paths@;
        let qx = pm[x as int];
        assert(prev.path_ok(x as int, qx));
        assert(qx[0] == x);
        assert(qx.len() >= 2 && qx.drop_first() == pm[p as int]);
        assert(qx.no_duplicates());
        assert(qx.index_of(x) == 0) by {
            let ix = qx.index_of(x);
            assert(qx.contains(x)) by {
                assert(qx[0] == x);
            }
            assert(0 <= ix < qx.len() && qx[ix] == x);
            if ix != 0 {
                assert(qx[0] == qx[ix]);
            }
        }
        assert(pmn[x as int] == seq![x]) by {
            assert(qx.subrange(0, 1) =~= seq![x]);
        }
        assert(!pm[p as int].contains(x)) by {
            if pm[p as int].contains(x) {
                let j = choose|j: int| 0 <= j < pm[p as int].len() && pm[p as int][j] == x;
                assert(qx.drop_first()[j] == x);
                assert(qx[j + 1] == x);
                assert(qx[0] == qx[j + 1]);
            }
        }
        assert(pmn[p as int] == pm[p as int]);
        assert forall|i: int|
            #![trigger pmn.dom().contains(i)]
            pmn.dom().contains(i) <==> s.live(i) by {
            assert(pmn.dom().contains(i) <==> pm.dom().contains(i));
            assert(pm.dom().contains(i) <==> prev.live(i));
        }
        assert forall|i: int| #![trigger pmn[i]] s.live(i) implies {
            &&& s.path_ok(i, pmn[i])
            &&& (s.parent_of(i) is Some ==> pmn[i].len() >= 2 && pmn[i].drop_first() == pmn[s.parent_of(
                i,
            )->Some_0 as int])
            &&& (s.parent_of(i) is None ==> pmn[i].len() == 1)
        } by {
            assert(prev.live(i));
            let q = pm[i];
            assert(prev.path_ok(i, q));
            if q.contains(x) {
                let ix = q.index_of(x);
                assert(0 <= ix < q.len() && q[ix] == x);
                let qn = q.subrange(0, ix + 1);
                assert(pmn[i] == qn);
                lemma_subrange_props(q, 0, ix + 1);
                assert(qn[0] == q[0]);
                assert forall|j: int| #![trigger qn[j]] 0 <= j < qn.len() implies s.live(
                    qn[j] as int,
                ) by {
                    assert(qn[j] == q[j]);
                    assert(prev.live(q[j] as int));
                }
                assert forall|j: int|
                    #![trigger qn[j]]
                    0 <= j < qn.len() - 1 implies s.parent_of(qn[j] as int) == Some(qn[j + 1]) by {
                    assert(qn[j] == q[j] && qn[j + 1] == q[j + 1]);
                    assert(prev.parent_of(q[j] as int) == Some(q[j + 1]));
                    assert(q[j] != x) by {
                        if q[j] == x {
                            assert(q[j] == q[ix]);
                        }
                    }
                    assert(q[j] as int != x as int && q[j] as int != p as int ==> s.nodes@[q[j] as int]
                        == prev.nodes@[q[j] as int]);
                }
                assert(qn.last() == x);
                assert(s.parent_of(qn.last() as int) is None);
                assert forall|j1: int, j2: int|
                    #![trigger qn[j1], qn[j2]]
                    0 <= j1 <= j2 < qn.len() implies s.key_at(qn[j2] as int) <= s.key_at(
                    qn[j1] as int,
                ) by {
                    assert(qn[j1] == q[j1] && qn[j2] == q[j2]);
                    assert(prev.key_at(q[j2] as int) <= prev.key_at(q[j1] as int));
                    assert(prev.live(q[j1] as int) && prev.live(q[j2] as int));
                }
                assert(s.path_ok(i, qn));
                if i == x as int {
                    assert(ix == 0) by {
                        if ix != 0 {
                            assert(q[0] == x);
                            assert(q[0] == q[ix]);
                        }
                    }
                    assert(s.parent_of(i) is None);
                    assert(qn.len() == 1);
                } else {
                    assert(ix != 0) by {
                        if ix == 0 {
                            assert(q[0] == x);
                            assert(q[0] as int == i);
                        }
                    }
                    assert(s.parent_of(i) == prev.parent_of(i));
                    assert(prev.parent_of(i) is Some) by {
                        if prev.parent_of(i) is None {
                            assert(q.len() == 1);
                            let jx = choose|jx: int| 0 <= jx < q.len() && q[jx] == x;
                            assert(jx == 0);
                            assert(q[0] as int == i);
                        }
                    }
                    let pi = prev.parent_of(i)->Some_0 as int;
                    assert(q.drop_first() == pm[pi]);
                    assert(pm[pi].contains(x)) by {
                        assert(q.drop_first()[ix - 1] == q[ix]);
                    }
                    let iy = pm[pi].index_of(x);
                    assert(0 <= iy < pm[pi].len() && pm[pi][iy] == x);
                    assert(iy == ix - 1) by {
                        assert(q[iy + 1] == pm[pi][iy]);
                        if iy + 1 != ix {
                            assert(q[iy + 1] == q[ix]);
                        }
                    }
                    assert(pmn[pi] == pm[pi].subrange(0, ix));
                    assert(qn.drop_first() =~= pm[pi].subrange(0, ix)) by {
                        assert forall|j: int|
                            0 <= j < qn.len() - 1 implies qn.drop_first()[j] == pm[pi].subrange(
                            0,
                            ix,
                        )[j] by {
                            assert(qn.drop_first()[j] == qn[j + 1]);
                            assert(qn[j + 1] == q[j + 1]);
                            assert(pm[pi].subrange(0, ix)[j] == pm[pi][j]);
                            assert(pm[pi][j] == q.drop_first()[j]);
                        }
                    }
                    assert(qn.len() >= 2);
                }
            } else {
                assert(pmn[i] == q);
                assert(i != x as int) by {
                    if i == x as int {
                        assert(q[0] == x);
                        assert(q.contains(x)) by {
                            assert(q[0] == x);
                        }
                    }
                }
                assert forall|j: int| #![trigger q[j]] 0 <= j < q.len() implies s.live(q[j] as int)
                    && s.key_at(q[j] as int) == prev.key_at(q[j] as int) && s.parent_of(
                    q[j] as int,
                ) == prev.parent_of(q[j] as int) by {
                    assert(prev.live(q[j] as int));
                    assert(q[j] != x) by {
                        if q[j] == x {
                            assert(q.contains(x));
                        }
                    }
                    assert(q[j] as int != x as int);
                }
                assert forall|j: int|
                    #![trigger q[j]]
                    0 <= j < q.len() - 1 implies s.parent_of(q[j] as int) == Some(q[j + 1]) by {
                    assert(prev.parent_of(q[j] as int) == Some(q[j + 1]));
                }
                assert forall|j1: int, j2: int|
                    #![trigger q[j1], q[j2]]
                    0 <= j1 <= j2 < q.len() implies s.key_at(q[j2] as int) <= s.key_at(
                    q[j1] as int,
                ) by {
                    assert(prev.key_at(q[j2] as int) <= prev.key_at(q[j1] as int));
                }
                assert(s.parent_of(q.last() as int) is None) by {
                    assert(prev.parent_of(q.last() as int) is None);
                    assert(q[q.len() - 1] == q.last());
                }
                assert(s.path_ok(i, q));
                if s.parent_of(i) is Some {
                    assert(prev.parent_of(i) == s.parent_of(i));
                    let pi = s.parent_of(i)->Some_0 as int;
                    assert(q.drop_first() == pm[pi]);
                    assert(!pm[pi].contains(x)) by {
                        if pm[pi].contains(x) {
                            let j = choose|j: int| 0 <= j < pm[pi].len() && pm[pi][j] == x;
                            assert(q[j + 1] == pm[pi][j]);
                            assert(q.contains(x)) by {
                                assert(q[j + 1] == x);
                            }
                        }
                    }
                    assert(pmn[pi] == pm[pi]);
                } else {
                    assert(q.len() == 1);
                }
            }
        }
        assert(s.inv_paths());
    }

    /// Detaches `x` from its parent `p`: removes it from `p`'s child list,
    /// clears its mark, and appends it to the forest as a new root.
    fn cut(&mut self, x: usize, p: usize)
        requires
            old(self).wf(),
            old(self).live(x as int),
            old(self).parent_of(x as int) == Some(p),
        ensures
            final(self).wf(),
            final(self).node_count() == old(self).node_count(),
            final(self).keys() == old(self).keys(),
            forall|i: int| final(self).live(i) <==> old(self).live(i),
            forall|i: int|
                #![trigger old(self).live(i)]
                old(self).live(i) ==> final(self).key_at(i) == old(self).key_at(i)
                    && final(self).value_at(i) == old(self).value_at(i),
            forall|i: int|
                #![trigger old(self).live(i)]
                old(self).live(i) && i != x as int ==> final(self).parent_of(i)
                    == old(self).parent_of(i) && final(self).marked_at(i) == old(self).marked_at(i),
            forall|i: int|
                #![trigger old(self).live(i)]
                old(self).live(i) && i != p as int ==> final(self).children_of(i)
                    == old(self).children_of(i),
            x != p,
            final(self).parent_of(x as int) is None,
            !final(self).marked_at(x as int),
            final(self).rank_of(p as int) == old(self).rank_of(p as int) - 1,
            final(self).children_of(p as int) == old(self).children_of(p as int).remove(
                old(self).children_of(p as int).index_of(x),
            ),
            final(self).roots@ == old(self).roots@.push(x),
            final(self).root_at(0) == old(self).root_at(0),
            final(self).root_count() == old(self).root_count() + 1,
            final(self).paths@[x as int] == seq![x],
            final(self).paths@[p as int] == old(self).paths@[x as int].drop_first(),
    {
        let total = self.nodes.len();
        proof {
            assert(old(self).live(p as int));
            assert(old(self).children_of(p as int).contains(x));
        }
        let ghost prev = *old(self);
        // position of x among p's children
        let mut pos: usize = 0;
        let cl = self.nodes[p].children.len();
        let ghost chs = self.nodes@[p as int].children@;
        proof {
            let j = choose|j: int| 0 <= j < chs.len() && chs[j] == x;
            assert(pos <= j < chs.len());
        }
        while self.nodes[p].children[pos] != x
            invariant
                *self == prev,
                prev.live(p as int),
                chs == prev.children_of(p as int),
                chs.len() == cl,
                0 <= pos < chs.len(),
                exists|j: int| pos <= j < chs.len() && chs[j] == x,
            decreases chs.len() - pos,
        {
            pos += 1;
            proof {
                let j = choose|j: int| pos - 1 <= j < chs.len() && chs[j] == x;
                assert(pos <= j < chs.len());
            }
        }
        proof {
            assert(chs[pos as int] == x);
            assert(chs.no_duplicates());
            assert(chs.index_of(x) == pos as int) by {
                let ix = chs.index_of(x);
                assert(chs.contains(x));
                assert(0 <= ix < chs.len() && chs[ix] == x);
                if ix != pos as int {
                    assert(chs[ix] == chs[pos as int]);
                }
            }
        }
        let pnode = &mut self.nodes[p];
        pnode.children.remove(pos);
        let ghost mid1 = *self;
        proof {
            lemma_keys_update_same(prev.nodes@, p as int, mid1.nodes@[p as int]);
        }
        let xnode = &mut self.nodes[x];
        xnode.parent = None;
        xnode.marked = false;
        let ghost mid2 = *self;
        proof {
            lemma_keys_update_same(mid1.nodes@, x as int, mid2.nodes@[x as int]);
        }
        self.roots.push(x);
        proof {
            self.paths = Ghost(Self::cut_paths(prev.paths@, x));
        }
        proof {
            let s = *self;
            assert(s.nodes@.len() == total && prev.nodes@.len() == total);
            assert(s.keys() == prev.keys());
            assert(x != p) by {
                let qx = prev.paths@[x as int];
                assert(prev.path_ok(x as int, qx));
                assert(qx.len() >= 2 && qx.drop_first() == prev.paths@[p as int]);
                assert(qx.drop_first()[0] == prev.paths@[p as int][0]);
                assert(prev.path_ok(p as int, prev.paths@[p as int]));
                assert(qx[1] == p);
                assert(qx[0] == x);
            }
            assert(Self::cut_shape(prev, s, x, p, pos as int));
            Self::lemma_cut_frame(prev, s, x, p, pos as int);
            Self::lemma_cut_nodes(prev, s, x, p, pos as int);
            Self::lemma_cut_roots(prev, s, x, p, pos as int);
            Self::lemma_cut_paths_ok(prev, s, x, p, pos as int);
        }
    }



    /// A heap with the same node arena and the same ghost chains satisfies
    /// the node and chain invariants, whatever became of the forest list.
    proof fn lemma_same_nodes_paths(prev: Self, s: Self)
        requires
            prev.inv_nodes(),
            prev.inv_paths(),
            s.nodes@ == prev.nodes@,
            s.paths@ == prev.paths@,
        ensures
            s.inv_nodes(),
            s.inv_paths(),
    {
        assert(forall|i: int| s.live(i) <==> prev.live(i));
        assert forall|i: int| #![trigger s.live(i)] s.live(i) implies s.nodes@[i].value is Some by {
            assert(prev.live(i));
        }
        assert forall|i: int|
            #![trigger s.parent_of(i)]
            s.live(i) && s.parent_of(i) is Some implies {
            let p = s.parent_of(i)->Some_0 as int;
            &&& s.live(p)
            &&& s.children_of(p).contains(i as usize)
            &&& s.key_at(p) <= s.key_at(i)
        } by {
            assert(prev.live(i) && prev.parent_of(i) == s.parent_of(i));
            let p = s.parent_of(i)->Some_0 as int;
            assert(prev.live(p) && prev.children_of(p).contains(i as usize));
            assert(s.children_of(p) == prev.children_of(p));
        }
        assert forall|p: int, jc: int|
            #![trigger s.children_of(p)[jc]]
            s.live(p) && 0 <= jc < s.children_of(p).len() implies {
            let c = s.children_of(p)[jc] as int;
            &&& s.live(c)
            &&& s.parent_of(c) == Some(p as usize)
        } by {
            assert(prev.live(p));
            assert(s.children_of(p) == prev.children_of(p));
            assert(prev.children_of(p)[jc] == s.children_of(p)[jc]);
            let c = s.children_of(p)[jc] as int;
            assert(prev.live(c) && prev.parent_of(c) == Some(p as usize));
        }
        assert forall|p: int| #![trigger s.children_of(p)] s.live(p) implies s.children_of(
            p,
        ).no_duplicates() by {
            assert(prev.live(p));
            assert(s.children_of(p) == prev.children_of(p));
        }
        assert forall|i: int|
            #![trigger s.live(i)]
            s.live(i) && s.parent_of(i) is None implies !s.marked_at(i) by {
            assert(prev.live(i) && prev.parent_of(i) is None);
            assert(!prev.marked_at(i));
        }
        assert forall|i: int|
            #![trigger s.paths@.dom().contains(i)]
            s.paths@.dom().contains(i) <==> s.live(i) by {
            assert(prev.paths@.dom().contains(i) <==> prev.live(i));
        }
        assert forall|i: int| #![trigger s.paths@[i]] s.live(i) implies {
            &&& s.path_ok(i, s.paths@[i])
            &&& (s.parent_of(i) is Some ==> s.paths@[i].len() >= 2 && s.paths@[i].drop_first()
                == s.paths@[s.parent_of(i)->Some_0 as int])
            &&& (s.parent_of(i) is None ==> s.paths@[i].len() == 1)
        } by {
            assert(prev.live(i));
            let q = prev.paths@[i];
            assert(prev.path_ok(i, q));
            assert(s.paths@[i] == q);
            assert forall|j: int| #![trigger q[j]] 0 <= j < q.len() implies s.live(q[j] as int)
                && s.key_at(q[j] as int) == prev.key_at(q[j] as int) && s.parent_of(q[j] as int)
                == prev.parent_of(q[j] as int) by {
                assert(prev.live(q[j] as int));
            }
            assert(s.parent_of(q.last() as int) is None) by {
                assert(q[q.len() - 1] == q.last());
            }
            assert forall|j1: int, j2: int|
                #![trigger q[j1], q[j2]]
                0 <= j1 <= j2 < q.len() implies s.key_at(q[j2] as int) <= s.key_at(
                q[j1] as int,
            ) by {
                assert(prev.key_at(q[j2] as int) <= prev.key_at(q[j1] as int));
            }
            assert(s.path_ok(i, q));
        }
    }

    /// A heap whose nodes kept their links, keys and liveness, and whose
    /// roots are unmarked, is still well formed.
    proof fn lemma_same_shape_wf(prev: Self, s: Self)
        requires
            prev.wf(),
            s.nodes@.len() == prev.nodes@.len(),
            s.roots@ == prev.roots@,
            s.paths@ == prev.paths@,
            forall|i: int|
                #![trigger s.nodes@[i]]
                0 <= i < s.nodes@.len() ==> s.nodes@[i].live == prev.nodes@[i].live
                    && s.nodes@[i].key == prev.nodes@[i].key && s.nodes@[i].value
                    == prev.nodes@[i].value && s.nodes@[i].parent == prev.nodes@[i].parent
                    && s.nodes@[i].children@ == prev.nodes@[i].children@,
            forall|i: int|
                #![trigger s.nodes@[i]]
                0 <= i < s.nodes@.len() && s.nodes@[i].live && s.nodes@[i].parent is None
                    ==> !s.nodes@[i].marked,
        ensures
            s.wf(),
    {
        assert(forall|i: int| s.live(i) <==> prev.live(i));
        assert forall|i: int| #![trigger s.live(i)] s.live(i) implies s.nodes@[i].value is Some by {
            assert(prev.live(i));
        }
        assert forall|i: int|
            #![trigger s.parent_of(i)]
            s.live(i) && s.parent_of(i) is Some implies {
            let p = s.parent_of(i)->Some_0 as int;
            &&& s.live(p)
            &&& s.children_of(p).contains(i as usize)
            &&& s.key_at(p) <= s.key_at(i)
        } by {
            assert(prev.live(i) && prev.parent_of(i) == s.parent_of(i));
            let p = s.parent_of(i)->Some_0 as int;
            assert(prev.live(p) && prev.children_of(p).contains(i as usize));
            assert(s.children_of(p) == prev.children_of(p));
        }
        assert forall|p: int, jc: int|
            #![trigger s.children_of(p)[jc]]
            s.live(p) && 0 <= jc < s.children_of(p).len() implies {
            let c = s.children_of(p)[jc] as int;
            &&& s.live(c)
            &&& s.parent_of(c) == Some(p as usize)
        } by {
            assert(prev.live(p));
            assert(s.children_of(p) == prev.children_of(p));
            assert(prev.children_of(p)[jc] == s.children_of(p)[jc]);
            let c = s.children_of(p)[jc] as int;
            assert(prev.live(c) && prev.parent_of(c) == Some(p as usize));
        }
        assert forall|p: int| #![trigger s.children_of(p)] s.live(p) implies s.children_of(
            p,
        ).no_duplicates() by {
            assert(prev.live(p));
            assert(s.children_of(p) == prev.children_of(p));
        }
        assert forall|j: int| #![trigger s.root_at(j)] 0 <= j < s.root_count() implies s.is_root(
            s.root_at(j),
        ) by {
            assert(prev.is_root(prev.root_at(j)));
        }
        assert forall|i: int|
            #![trigger s.live(i)]
            s.live(i) && s.parent_of(i) is None implies s.roots@.contains(i as usize) by {
            assert(prev.live(i) && prev.parent_of(i) is None);
        }
        assert forall|i: int|
            #![trigger s.paths@.dom().contains(i)]
            s.paths@.dom().contains(i) <==> s.live(i) by {
            assert(prev.paths@.dom().contains(i) <==> prev.live(i));
        }
        assert forall|i: int| #![trigger s.paths@[i]] s.live(i) implies {
            &&& s.path_ok(i, s.paths@[i])
            &&& (s.parent_of(i) is Some ==> s.paths@[i].len() >= 2 && s.paths@[i].drop_first()
                == s.paths@[s.parent_of(i)->Some_0 as int])
            &&& (s.parent_of(i) is None ==> s.paths@[i].len() == 1)
        } by {
            assert(prev.live(i));
            let q = prev.paths@[i];
            assert(prev.path_ok(i, q));
            assert(s.paths@[i] == q);
            assert forall|j: int| #![trigger q[j]] 0 <= j < q.len() implies s.live(q[j] as int)
                && s.key_at(q[j] as int) == prev.key_at(q[j] as int) && s.parent_of(q[j] as int)
                == prev.parent_of(q[j] as int) by {
                assert(prev.live(q[j] as int));
            }
            assert(s.parent_of(q.last() as int) is None) by {
                assert(q[q.len() - 1] == q.last());
            }
            assert forall|j1: int, j2: int|
                #![trigger q[j1], q[j2]]
                0 <= j1 <= j2 < q.len() implies s.key_at(q[j2] as int) <= s.key_at(
                q[j1] as int,
            ) by {
                assert(prev.key_at(q[j2] as int) <= prev.key_at(q[j1] as int));
            }
            assert(s.path_ok(i, q));
        }
        assert forall|j: int| #![trigger s.root_at(j)] 0 <= j < s.root_count() implies s.key_at(
            s.min_idx(),
        ) <= s.key_at(s.root_at(j)) by {
            assert(prev.key_at(prev.min_idx()) <= prev.key_at(prev.root_at(j)));
            assert(prev.is_root(prev.root_at(j)) && prev.is_root(prev.root_at(0)));
        }
    }

    /// Walks up the ancestor chain of `start`: an unmarked non-root is
    /// marked and the walk stops; a marked one is cut to the forest and the
    /// walk goes on. Roots are never marked. Nodes off the chain of `start`
    /// keep their links and marks.
    fn cascade_walk(&mut self, start: usize)
        requires
            old(self).wf(),
            old(self).live(start as int),
        ensures
            final(self).wf(),
            final(self).node_count() == old(self).node_count(),
            final(self).keys() == old(self).keys(),
            forall|i: int| final(self).live(i) <==> old(self).live(i),
            forall|i: int|
                #![trigger old(self).live(i)]
                old(self).live(i) ==> final(self).key_at(i) == old(self).key_at(i)
                    && final(self).value_at(i) == old(self).value_at(i),
            forall|i: int|
                #![trigger old(self).live(i)]
                old(self).live(i) && old(self).parent_of(i) is None ==> final(self).parent_of(i)
                    is None,
            old(self).root_count() > 0 ==> final(self).root_count() > 0 && final(self).root_at(0)
                == old(self).root_at(0),
            final(self).root_count() >= old(self).root_count(),
            forall|i: int|
                #![trigger old(self).live(i)]
                old(self).live(i) && !old(self).paths@[start as int].contains(i as usize) ==> final(self).parent_of(i) == old(self).parent_of(i)
                    && final(self).children_of(i) == old(self).children_of(i)
                    && final(self).marked_at(i) == old(self).marked_at(i),
    {
        let ghost prev = *old(self);
        let ghost chain0 = prev.paths@[start as int];
        let mut cur = start;
        proof {
            assert forall|j: int|
                0 <= j < self.paths@[cur as int].len() implies chain0.contains(
                #[trigger] self.paths@[cur as int][j],
            ) by {}
        }
        loop
            invariant
                self.wf(),
                self.live(cur as int),
                self.node_count() == prev.node_count(),
                self.keys() == prev.keys(),
                forall|i: int| self.live(i) <==> prev.live(i),
                forall|i: int|
                    #![trigger prev.live(i)]
                    prev.live(i) ==> self.key_at(i) == prev.key_at(i) && self.value_at(i)
                        == prev.value_at(i),
                forall|i: int|
                    #![trigger prev.live(i)]
                    prev.live(i) && prev.parent_of(i) is None ==> self.parent_of(i) is None,
                prev.root_count() > 0 ==> self.root_count() > 0 && self.root_at(0) == prev.root_at(
                    0,
                ),
                self.root_count() >= prev.root_count(),
                forall|j: int|
                    0 <= j < self.paths@[cur as int].len() ==> chain0.contains(
                        #[trigger] self.paths@[cur as int][j],
                    ),
                forall|i: int|
                    #![trigger prev.live(i)]
                    prev.live(i) && !chain0.contains(i as usize) ==> self.parent_of(i)
                        == prev.parent_of(i) && self.children_of(i) == prev.children_of(i)
                        && self.marked_at(i) == prev.marked_at(i),
            decreases self.paths@[cur as int].len(),
        {
            let par = self.nodes[cur].parent;
            match par {
                None => {
                    break ;
                },
                Some(pp) => {
                    proof {
                        assert(chain0.contains(cur)) by {
                            assert(self.path_ok(cur as int, self.paths@[cur as int]));
                            assert(self.paths@[cur as int][0] == cur);
                        }
                    }
                    if !self.nodes[cur].marked {
                        let ghost before = *self;
                        let cn = &mut self.nodes[cur];
                        cn.marked = true;
                        proof {
                            lemma_keys_update_same(before.nodes@, cur as int, self.nodes@[cur as int]);
                            assert forall|i: int|
                                0 <= i < self.nodes@.len() && (#[trigger] self.nodes@[i]).live
                                    && self.nodes@[i].parent is None implies !self.nodes@[i].marked by {
                                if i != cur as int {
                                    assert(self.nodes@[i] == before.nodes@[i]);
                                    assert(before.live(i) && before.parent_of(i) is None);
                                    assert(!before.marked_at(i));
                                } else {
                                    assert(self.nodes@[i].parent == Some(pp));
                                }
                            }
                            Self::lemma_same_shape_wf(before, *self);
                            assert(forall|i: int| self.live(i) <==> before.live(i));
                        }
                        break ;
                    } else {
                        proof {
                            assert(self.live(pp as int)) by {
                                assert(self.parent_of(cur as int) is Some);
                            }
                            assert(self.paths@[cur as int].len() >= 2);
                            assert(self.paths@[cur as int].drop_first() == self.paths@[pp as int]);
                            assert(chain0.contains(pp)) by {
                                assert(self.paths@[cur as int][1] == self.paths@[pp as int][0]);
                                assert(self.path_ok(pp as int, self.paths@[pp as int]));
                            }
                        }
                        let ghost len_pp = self.paths@[pp as int].len();
                        let ghost before = *self;
                        self.cut(cur, pp);
                        proof {
                            assert(self.paths@[pp as int].len() == len_pp);
                            assert(self.paths@[pp as int] == before.paths@[cur as int].drop_first());
                            assert forall|j: int|
                                0 <= j < self.paths@[pp as int].len() implies chain0.contains(
                                #[trigger] self.paths@[pp as int][j],
                            ) by {
                                assert(self.paths@[pp as int][j] == before.paths@[cur as int][j
                                    + 1]);
                            }
                        }
                        cur = pp;
                    }
                },
            }
        }
    }

    /// Reacts to `p` having just lost a child: nothing for a root; an
    /// unmarked non-root is marked; a marked non-root is cut to the forest,
    /// unmarked, and the cut cascades through its own marked ancestors.
    fn cascade(&mut self, p: usize)
        requires
            old(self).wf(),
            old(self).live(p as int),
        ensures
            final(self).wf(),
            final(self).node_count() == old(self).node_count(),
            final(self).keys() == old(self).keys(),
            forall|i: int| final(self).live(i) <==> old(self).live(i),
            forall|i: int|
                #![trigger old(self).live(i)]
                old(self).live(i) ==> final(self).key_at(i) == old(self).key_at(i)
                    && final(self).value_at(i) == old(self).value_at(i),
            forall|i: int|
                #![trigger old(self).live(i)]
                old(self).live(i) && old(self).parent_of(i) is None ==> final(self).parent_of(i)
                    is None,
            old(self).root_count() > 0 ==> final(self).root_count() > 0 && final(self).root_at(0)
                == old(self).root_at(0),
            final(self).root_count() >= old(self).root_count(),
            final(self).children_of(p as int) == old(self).children_of(p as int),
            forall|i: int|
                #![trigger old(self).live(i)]
                old(self).live(i) && !old(self).paths@[p as int].contains(i as usize) ==> final(self).parent_of(i) == old(self).parent_of(i)
                    && final(self).children_of(i) == old(self).children_of(i)
                    && final(self).marked_at(i) == old(self).marked_at(i),
            old(self).parent_of(p as int) is None ==> *final(self) == *old(self),
            old(self).parent_of(p as int) is Some && !old(self).marked_at(p as int)
                ==> final(self).marked_at(p as int) && final(self).parent_of(p as int)
                    == old(self).parent_of(p as int) && final(self).root_count() == old(
                    self,
                ).root_count(),
            old(self).parent_of(p as int) is Some && old(self).marked_at(p as int)
                ==> final(self).parent_of(p as int) is None && !final(self).marked_at(p as int)
                    && final(self).root_count() > old(self).root_count(),
    {
        let ghost prev = *old(self);
        let par = self.nodes[p].parent;
        match par {
            None => {
            },
            Some(pp) => {
                if !self.nodes[p].marked {
                    let ghost before = *self;
                    let cn = &mut self.nodes[p];
                    cn.marked = true;
                    proof {
                        lemma_keys_update_same(before.nodes@, p as int, self.nodes@[p as int]);
                        assert forall|i: int|
                            0 <= i < self.nodes@.len() && (#[trigger] self.nodes@[i]).live
                                && self.nodes@[i].parent is None implies !self.nodes@[i].marked by {
                            if i != p as int {
                                assert(self.nodes@[i] == before.nodes@[i]);
                                assert(before.live(i) && before.parent_of(i) is None);
                                assert(!before.marked_at(i));
                            } else {
                                assert(self.nodes@[i].parent == Some(pp));
                            }
                        }
                        Self::lemma_same_shape_wf(before, *self);
                        assert(forall|i: int| self.live(i) <==> before.live(i));
                    }
                } else {
                    proof {
                        assert(self.live(pp as int)) by {
                            assert(self.parent_of(p as int) is Some);
                        }
                        assert(prev.paths@[p as int].len() >= 2);
                        assert(prev.paths@[p as int].drop_first() == prev.paths@[pp as int]);
                        assert(prev.paths@[p as int].no_duplicates()) by {
                            assert(prev.path_ok(p as int, prev.paths@[p as int]));
                        }
                    }
                    let ghost s1: Self;
                    self.cut(p, pp);
                    proof {
                        s1 = *self;
                        // the walk's chain is p's old chain minus p itself
                        assert(s1.paths@[pp as int] == prev.paths@[p as int].drop_first());
                        assert(!s1.paths@[pp as int].contains(p)) by {
                            if s1.paths@[pp as int].contains(p) {
                                let j = choose|j: int|
                                    0 <= j < s1.paths@[pp as int].len() && s1.paths@[pp as int][j]
                                        == p;
                                assert(prev.paths@[p as int][j + 1] == p);
                                assert(prev.paths@[p as int][0] == p);
                            }
                        }
                    }
                    self.cascade_walk(pp);
                    proof {
                        // p was left a root by the cut and the walk kept it so
                        assert(self.parent_of(p as int) is None);
                        assert(!self.marked_at(p as int));
                        assert(self.children_of(p as int) == s1.children_of(p as int));
                        assert forall|i: int|
                            #![trigger prev.live(i)]
                            prev.live(i) && !prev.paths@[p as int].contains(i as usize) implies self.parent_of(
                            i,
                        ) == prev.parent_of(i) && self.children_of(i) == prev.children_of(i)
                            && self.marked_at(i) == prev.marked_at(i) by {
                            assert(i != p as int) by {
                                assert(prev.paths@[p as int][0] == p);
                            }
                            assert(i != pp as int) by {
                                assert(prev.paths@[p as int][1] == pp) by {
                                    assert(prev.paths@[p as int].drop_first()[0]
                                        == prev.paths@[pp as int][0]);
                                    assert(prev.path_ok(pp as int, prev.paths@[pp as int]));
                                }
                            }
                            assert(s1.parent_of(i) == prev.parent_of(i) && s1.children_of(i)
                                == prev.children_of(i) && s1.marked_at(i) == prev.marked_at(i));
                            assert(s1.live(i));
                            assert(!s1.paths@[pp as int].contains(i as usize)) by {
                                if s1.paths@[pp as int].contains(i as usize) {
                                    let j = choose|j: int|
                                        0 <= j < s1.paths@[pp as int].len()
                                            && s1.paths@[pp as int][j] == i as usize;
                                    assert(prev.paths@[p as int][j + 1] == i as usize);
                                    assert(prev.paths@[p as int].contains(i as usize));
                                }
                            }
                        }
                    }
                }
            },
        }
    }

    /// Moves the root at `pos`, which carries a smallest root key, to the
    /// front of the forest by swapping it with the first root.
    fn promote_root(&mut self, pos: usize)
        requires
            old(self).wf0(),
            0 <= pos < old(self).root_count(),
            forall|j: int|
                #![trigger old(self).root_at(j)]
                0 <= j < old(self).root_count() ==> old(self).key_at(old(self).root_at(pos as int))
                    <= old(self).key_at(old(self).root_at(j)),
        ensures
            final(self).wf(),
            final(self).nodes@ == old(self).nodes@,
            final(self).paths@ == old(self).paths@,
            final(self).root_count() == old(self).root_count(),
            final(self).roots@ == old(self).roots@.update(0, old(self).roots@[pos as int]).update(
                pos as int,
                old(self).roots@[0],
            ),
            old(self).distinct_ranks() ==> final(self).distinct_ranks(),
            final(self).keys() == old(self).keys(),
    {
        let ghost prev = *old(self);
        let a = self.roots[0];
        let b = self.roots[pos];
        self.roots[0] = b;
        self.roots[pos] = a;
        proof {
            let s = *self;
            assert(s.roots@ == prev.roots@.update(0, b).update(pos as int, a));
            let sigma = |j: int| if j == 0 { pos as int } else if j == pos as int { 0int } else { j };
            assert forall|j: int| 0 <= j < s.roots@.len() implies s.roots@[j] == prev.roots@[sigma(
                j,
            )] && 0 <= sigma(j) < prev.roots@.len() by {}
            assert(s.roots@.no_duplicates()) by {
                assert forall|j1: int, j2: int|
                    0 <= j1 < j2 < s.roots@.len() implies s.roots@[j1] != s.roots@[j2] by {
                    assert(s.roots@[j1] == prev.roots@[sigma(j1)]);
                    assert(s.roots@[j2] == prev.roots@[sigma(j2)]);
                }
            }
            assert forall|j: int| #![trigger s.root_at(j)] 0 <= j < s.root_count() implies s.is_root(
                s.root_at(j),
            ) by {
                assert(s.roots@[j] == prev.roots@[sigma(j)]);
                assert(prev.is_root(prev.root_at(sigma(j))));
            }
            assert forall|i: int|
                #![trigger s.live(i)]
                s.live(i) && s.parent_of(i) is None implies s.roots@.contains(i as usize) by {
                assert(prev.live(i) && prev.parent_of(i) is None);
                assert(prev.roots@.contains(i as usize));
                let jo = choose|jo: int| 0 <= jo < prev.roots@.len() && prev.roots@[jo] == i as usize;
                let jn: int = if jo == 0 { pos as int } else if jo == pos as int { 0int } else { jo };
                assert(s.roots@[jn] == i as usize);
            }
            assert(s.inv_roots());
            Self::lemma_same_nodes_paths(prev, s);
            assert forall|j: int| #![trigger s.root_at(j)] 0 <= j < s.root_count() implies s.key_at(
                s.min_idx(),
            ) <= s.key_at(s.root_at(j)) by {
                assert(s.root_at(0) == prev.root_at(pos as int));
                assert(s.roots@[j] == prev.roots@[sigma(j)]);
                assert(prev.key_at(prev.root_at(pos as int)) <= prev.key_at(
                    prev.root_at(sigma(j)),
                ));
            }
            assert(s.min_front());
            if prev.distinct_ranks() {
                assert forall|j1: int, j2: int|
                    #![trigger s.root_at(j1), s.root_at(j2)]
                    0 <= j1 < j2 < s.root_count() implies s.rank_of(s.root_at(j1)) != s.rank_of(
                    s.root_at(j2),
                ) by {
                    assert(s.roots@[j1] == prev.roots@[sigma(j1)]);
                    assert(s.roots@[j2] == prev.roots@[sigma(j2)]);
                    assert(prev.rank_of(prev.root_at(sigma(j1))) != prev.rank_of(
                        prev.root_at(sigma(j2)),
                    ));
                }
            }
        }
    }

    /// Gives the root `x` the smaller key `newk` and, when it now carries the
    /// smallest key, moves it to the front of the forest.
    fn set_root_key(&mut self, x: usize, newk: u64)
        requires
            old(self).wf(),
            old(self).is_root(x as int),
            newk <= old(self).key_at(x as int),
        ensures
            final(self).wf(),
            final(self).node_count() == old(self).node_count(),
            final(self).key_at(x as int) == newk,
            final(self).is_root(x as int),
            final(self).keys() == old(self).keys().remove(old(self).key_at(x as int)).insert(newk),
            forall|i: int| final(self).live(i) <==> old(self).live(i),
            forall|i: int|
                #![trigger old(self).live(i)]
                old(self).live(i) && i != x as int ==> final(self).key_at(i) == old(self).key_at(i),
            forall|i: int|
                #![trigger old(self).live(i)]
                old(self).live(i) ==> final(self).value_at(i) == old(self).value_at(i)
                    && final(self).parent_of(i) == old(self).parent_of(i) && final(self).marked_at(
                    i,
                ) == old(self).marked_at(i) && final(self).children_of(i) == old(self).children_of(
                    i,
                ),
            final(self).root_count() == old(self).root_count(),
    {
        let ghost prev = *old(self);
        let ghost oldk = prev.key_at(x as int);
        let xn = &mut self.nodes[x];
        xn.key = newk;
        let ghost mid = *self;
        proof {
            lemma_keys_update(prev.nodes@, x as int, mid.nodes@[x as int]);
            assert(key_contrib(prev.nodes@[x as int]) == Multiset::singleton(oldk));
            assert(key_contrib(mid.nodes@[x as int]) == Multiset::singleton(newk));
            assert(prev.keys().contains(oldk)) by {
                lemma_keys_of_count(prev.nodes@, oldk);
                assert(prev.nodes@[x as int].live && prev.nodes@[x as int].key == oldk);
            }
            assert forall|v: u64|
                mid.keys().count(v) == prev.keys().remove(oldk).insert(newk).count(v) by {
                assert(mid.keys().add(Multiset::singleton(oldk)).count(v) == prev.keys().add(
                    Multiset::singleton(newk),
                ).count(v));
            }
            assert(mid.keys() =~= prev.keys().remove(oldk).insert(newk));
            Self::lemma_root_key_decrease(prev, mid, x, newk);
        }
        // keep the smallest key in front
        proof {
            assert(mid.root_count() > 0) by {
                assert(prev.roots@.contains(x));
                let j = choose|j: int| 0 <= j < prev.roots@.len() && prev.roots@[j] == x;
            }
        }
        let front = self.roots[0];
        proof {
            assert(mid.is_root(mid.root_at(0)));
        }
        if newk < self.nodes[front].key {
            // x is now strictly smallest among the roots; find it and swap it
            // to the front
            let mut pos: usize = 0;
            let rl = self.roots.len();
            proof {
                assert(mid.roots@.contains(x));
                let j = choose|j: int| 0 <= j < mid.roots@.len() && mid.roots@[j] == x;
                assert(pos <= j < mid.roots@.len());
            }
            while self.roots[pos] != x
                invariant
                    *self == mid,
                    mid.roots@.len() == rl,
                    0 <= pos < mid.roots@.len(),
                    exists|j: int| pos <= j < mid.roots@.len() && mid.roots@[j] == x,
                decreases mid.roots@.len() - pos,
            {
                pos += 1;
                proof {
                    let j = choose|j: int| pos - 1 <= j < mid.roots@.len() && mid.roots@[j] == x;
                    assert(pos <= j < mid.roots@.len());
                }
            }
            proof {
                assert(mid.roots@[pos as int] == x);
                assert forall|j: int|
                    #![trigger mid.root_at(j)]
                    0 <= j < mid.root_count() implies mid.key_at(mid.root_at(pos as int))
                    <= mid.key_at(mid.root_at(j)) by {
                    assert(mid.root_at(pos as int) == x as int);
                    if mid.root_at(j) != x as int {
                        assert(mid.key_at(mid.root_at(j)) == prev.key_at(prev.root_at(j)));
                        assert(prev.key_at(prev.root_at(0)) <= prev.key_at(prev.root_at(j)));
                        assert(prev.root_at(0) != x as int ==> prev.key_at(prev.root_at(0))
                            == mid.key_at(mid.root_at(0)));
                    }
                }
            }
            self.promote_root(pos);
        } else {
            proof {
                let s = *self;
                assert forall|j: int|
                    #![trigger s.root_at(j)]
                    0 <= j < s.root_count() implies s.key_at(s.min_idx()) <= s.key_at(
                    s.root_at(j),
                ) by {
                    assert(prev.is_root(prev.root_at(j)));
                    if s.root_at(0) == x as int {
                        assert(prev.key_at(prev.root_at(0)) == oldk);
                        if s.root_at(j) == x as int {
                        } else {
                            assert(s.key_at(s.root_at(j)) == prev.key_at(prev.root_at(j)));
                            assert(prev.key_at(prev.root_at(0)) <= prev.key_at(prev.root_at(j)));
                        }
                    } else {
                        assert(s.key_at(s.min_idx()) == prev.key_at(prev.root_at(0)));
                        if s.root_at(j) == x as int {
                            assert(s.key_at(s.root_at(j)) == newk);
                        } else {
                            assert(s.key_at(s.root_at(j)) == prev.key_at(prev.root_at(j)));
                        }
                    }
                }
                assert(s.min_front());
                assert(s.wf());
            }
        }
    }

    /// A heap in which only the key of the root `x` was lowered still meets
    /// every invariant except possibly the position of the minimum.
    proof fn lemma_root_key_decrease(prev: Self, s: Self, x: usize, newk: u64)
        requires
            prev.wf(),
            prev.is_root(x as int),
            newk <= prev.key_at(x as int),
            s.nodes@.len() == prev.nodes@.len(),
            s.roots@ == prev.roots@,
            s.paths@ == prev.paths@,
            s.nodes@ == prev.nodes@.update(
                x as int,
                FibNode {
                    key: newk,
                    ..prev.nodes@[x as int]
                },
            ),
        ensures
            s.wf0(),
    {
        assert(forall|i: int| s.live(i) <==> prev.live(i));
        assert(forall|i: int|
            0 <= i < s.nodes@.len() && i != x as int ==> s.nodes@[i] == prev.nodes@[i]);
        assert forall|i: int| #![trigger s.live(i)] s.live(i) implies s.nodes@[i].value is Some by {
            assert(prev.live(i));
        }
        assert forall|i: int|
            #![trigger s.parent_of(i)]
            s.live(i) && s.parent_of(i) is Some implies {
            let p = s.parent_of(i)->Some_0 as int;
            &&& s.live(p)
            &&& s.children_of(p).contains(i as usize)
            &&& s.key_at(p) <= s.key_at(i)
        } by {
            assert(prev.live(i) && prev.parent_of(i) == s.parent_of(i));
            assert(i != x as int);
            let p = s.parent_of(i)->Some_0 as int;
            assert(prev.live(p) && prev.children_of(p).contains(i as usize));
            assert(prev.key_at(p) <= prev.key_at(i));
            assert(s.children_of(p) == prev.children_of(p));
            if p == x as int {
                assert(s.key_at(p) == newk && newk <= prev.key_at(p));
            }
        }
        assert forall|p: int, jc: int|
            #![trigger s.children_of(p)[jc]]
            s.live(p) && 0 <= jc < s.children_of(p).len() implies {
            let c = s.children_of(p)[jc] as int;
            &&& s.live(c)
            &&& s.parent_of(c) == Some(p as usize)
        } by {
            assert(prev.live(p));
            assert(s.children_of(p) == prev.children_of(p));
            assert(prev.children_of(p)[jc] == s.children_of(p)[jc]);
            let c = s.children_of(p)[jc] as int;
            assert(prev.live(c) && prev.parent_of(c) == Some(p as usize));
        }
        assert forall|p: int| #![trigger s.children_of(p)] s.live(p) implies s.children_of(
            p,
        ).no_duplicates() by {
            assert(prev.live(p));
            assert(s.children_of(p) == prev.children_of(p));
        }
        assert forall|i: int|
            #![trigger s.live(i)]
            s.live(i) && s.parent_of(i) is None implies !s.marked_at(i) by {
            assert(prev.live(i) && prev.parent_of(i) is None);
        }
        assert forall|j: int| #![trigger s.root_at(j)] 0 <= j < s.root_count() implies s.is_root(
            s.root_at(j),
        ) by {
            assert(prev.is_root(prev.root_at(j)));
        }
        assert forall|i: int|
            #![trigger s.live(i)]
            s.live(i) && s.parent_of(i) is None implies s.roots@.contains(i as usize) by {
            assert(prev.live(i) && prev.parent_of(i) is None);
        }
        assert(s.inv_roots());
        assert forall|i: int|
            #![trigger s.paths@.dom().contains(i)]
            s.paths@.dom().contains(i) <==> s.live(i) by {
            assert(prev.paths@.dom().contains(i) <==> prev.live(i));
        }
        assert forall|i: int| #![trigger s.paths@[i]] s.live(i) implies {
            &&& s.path_ok(i, s.paths@[i])
            &&& (s.parent_of(i) is Some ==> s.paths@[i].len() >= 2 && s.paths@[i].drop_first()
                == s.paths@[s.parent_of(i)->Some_0 as int])
            &&& (s.parent_of(i) is None ==> s.paths@[i].len() == 1)
        } by {
            assert(prev.live(i));
            let q = prev.paths@[i];
            assert(prev.path_ok(i, q));
            assert(s.paths@[i] == q);
            assert forall|j: int| #![trigger q[j]] 0 <= j < q.len() implies s.live(q[j] as int)
                && s.parent_of(q[j] as int) == prev.parent_of(q[j] as int) by {
                assert(prev.live(q[j] as int));
            }
            assert(s.parent_of(q.last() as int) is None) by {
                assert(q[q.len() - 1] == q.last());
            }
            // x can only stand at the end of a chain, so lowering its key
            // keeps the keys non-increasing toward the root
            assert forall|j: int|
                #![trigger q[j]]
                0 <= j < q.len() && q[j] == x implies j == q.len() - 1 by {
                if j < q.len() - 1 {
                    assert(prev.parent_of(q[j] as int) == Some(q[j + 1]));
                }
            }
            assert forall|j1: int, j2: int|
                #![trigger q[j1], q[j2]]
                0 <= j1 <= j2 < q.len() implies s.key_at(q[j2] as int) <= s.key_at(
                q[j1] as int,
            ) by {
                assert(prev.key_at(q[j2] as int) <= prev.key_at(q[j1] as int));
                if q[j1] == x {
                    assert(j1 == q.len() - 1);
                    assert(j2 == q.len() - 1);
                }
            }
            assert(s.path_ok(i, q));
        }
        assert(s.inv_paths());
    }

    /// Lowers the key of the node behind `h` by `delta` and repairs the heap:
    /// a non-root is cut to the forest and the cut cascades through marked
    /// ancestors. Rejected without change when the handle is stale or `delta`
    /// exceeds the key.
    pub fn decrease_key(&mut self, h: FibEntry, delta: u64) -> (r: Result<(), HeapError>)
        requires
            old(self).wf(),
        ensures
            final(self).wf(),
            !old(self).valid(h) ==> r == Err::<(), HeapError>(HeapError::StaleHandle)
                && *final(self) == *old(self),
            old(self).valid(h) && delta > old(self).key_at(h.id()) ==> r == Err::<
                (),
                HeapError,
            >(HeapError::InvalidDelta) && *final(self) == *old(self),
            old(self).valid(h) && delta <= old(self).key_at(h.id()) ==> {
                &&& r == Ok::<(), HeapError>(())
                &&& final(self).key_at(h.id()) == old(self).key_at(h.id()) - delta
                &&& final(self).is_root(h.id())
                &&& !final(self).marked_at(h.id())
                &&& final(self).keys() == old(self).keys().remove(old(self).key_at(h.id())).insert(
                    (old(self).key_at(h.id()) - delta) as u64,
                )
                &&& forall|i: int| final(self).live(i) <==> old(self).live(i)
                &&& forall|i: int|
                    #![trigger old(self).live(i)]
                    old(self).live(i) && i != h.id() ==> final(self).key_at(i) == old(self).key_at(
                        i,
                    )
                &&& forall|i: int|
                    #![trigger old(self).live(i)]
                    old(self).live(i) ==> final(self).value_at(i) == old(self).value_at(i)
                &&& final(self).node_count() == old(self).node_count()
                &&& final(self).root_count() >= old(self).root_count()
                &&& final(self).children_of(h.id()) == old(self).children_of(h.id())
                &&& (old(self).parent_of(h.id()) is None ==> final(self).root_count() == old(
                    self,
                ).root_count() && forall|i: int|
                    #![trigger old(self).live(i)]
                    old(self).live(i) && i != h.id() ==> final(self).parent_of(i)
                        == old(self).parent_of(i) && final(self).children_of(i)
                        == old(self).children_of(i) && final(self).marked_at(i)
                        == old(self).marked_at(i))
                &&& (old(self).parent_of(h.id()) is Some ==> {
                    let p = old(self).parent_of(h.id())->Some_0 as int;
                    &&& final(self).rank_of(p) == old(self).rank_of(p) - 1
                    &&& (old(self).parent_of(p) is None ==> final(self).parent_of(p) is None
                        && !final(self).marked_at(p))
                    &&& (old(self).parent_of(p) is Some && !old(self).marked_at(p)
                        ==> final(self).marked_at(p) && final(self).parent_of(p)
                            == old(self).parent_of(p))
                    &&& (old(self).marked_at(p) ==> final(self).parent_of(p) is None
                        && !final(self).marked_at(p))
                })
            },
    {
        if h.idx >= self.nodes.len() {
            return Err(HeapError::StaleHandle);
        }
        if !self.nodes[h.idx].live {
            return Err(HeapError::StaleHandle);
        }
        let k = self.nodes[h.idx].key;
        if delta > k {
            return Err(HeapError::InvalidDelta);
        }
        let ghost prev = *old(self);
        let par = self.nodes[h.idx].parent;
        match par {
            Some(p) => {
                self.cut(h.idx, p);
                let ghost s1 = *self;
                proof {
                    // the node itself does not lie on its former parent's chain
                    assert(s1.paths@[p as int] == prev.paths@[h.id()].drop_first());
                    assert(prev.paths@[h.id()].no_duplicates() && prev.paths@[h.id()][0]
                        == h.idx) by {
                        assert(prev.path_ok(h.id(), prev.paths@[h.id()]));
                    }
                    assert(!s1.paths@[p as int].contains(h.idx)) by {
                        if s1.paths@[p as int].contains(h.idx) {
                            let j = choose|j: int|
                                0 <= j < s1.paths@[p as int].len() && s1.paths@[p as int][j]
                                    == h.idx;
                            assert(prev.paths@[h.id()][j + 1] == h.idx);
                        }
                    }
                    assert(s1.live(h.id()));
                }
                self.cascade(p);
                proof {
                    assert(self.children_of(h.id()) == s1.children_of(h.id()));
                    assert(self.parent_of(h.id()) is None);
                    assert(!self.marked_at(h.id()));
                    assert(self.rank_of(p as int) == prev.rank_of(p as int) - 1) by {
                        assert(self.children_of(p as int) == s1.children_of(p as int));
                    }
                    assert(s1.marked_at(p as int) == prev.marked_at(p as int));
                    assert(s1.parent_of(p as int) == prev.parent_of(p as int));
                }
            },
            None => {
            },
        }
        proof {
            assert(self.is_root(h.id()));
        }
        self.set_root_key(h.idx, k - delta);
        proof {
            assert(!self.marked_at(h.id())) by {
                assert(self.live(h.id()) && self.parent_of(h.id()) is None);
            }
        }
        Ok(())
    }


    /// Removes the childless root at forest position `pos` and releases its
    /// slot, handing back its key and payload.
    #[verifier::rlimit(100)]
    fn kill_root(&mut self, pos: usize) -> (kv: (u64, V))
        requires
            old(self).wf(),
            0 <= pos < old(self).root_count(),
            old(self).rank_of(old(self).root_at(pos as int)) == 0,
        ensures
            final(self).wf0(),
            pos > 0 ==> final(self).wf() && final(self).root_at(0) == old(self).root_at(0),
            kv.0 == old(self).key_at(old(self).root_at(pos as int)),
            kv.1 == old(self).value_at(old(self).root_at(pos as int)),
            final(self).keys() == old(self).keys().remove(kv.0),
            !final(self).live(old(self).root_at(pos as int)),
            forall|i: int|
                i != old(self).root_at(pos as int) ==> (final(self).live(i) <==> old(self).live(
                    i,
                )),
            forall|i: int|
                #![trigger old(self).live(i)]
                old(self).live(i) && i != old(self).root_at(pos as int) ==> final(self).key_at(i)
                    == old(self).key_at(i) && final(self).value_at(i) == old(self).value_at(i)
                    && final(self).parent_of(i) == old(self).parent_of(i)
                    && final(self).children_of(i) == old(self).children_of(i)
                    && final(self).marked_at(i) == old(self).marked_at(i),
            final(self).roots@ == old(self).roots@.remove(pos as int),
            final(self).node_count() == old(self).node_count(),
    {
        let ghost prev = *old(self);
        let total = self.nodes.len();
        proof {
            assert(prev.is_root(prev.root_at(pos as int)));
        }
        let m = self.roots[pos];
        self.roots.remove(pos);
        let k = self.nodes[m].key;
        proof {
            assert(prev.nodes@[m as int].value is Some) by {
                assert(prev.live(m as int));
            }
        }
        let mn = &mut self.nodes[m];
        mn.live = false;
        let vo = mn.value.take();
        let v = vo.unwrap();
        proof {
            self.paths = Ghost(self.paths@.remove(m as int));
        }
        proof {
            let s = *self;
            assert(s.nodes@.len() == total && prev.nodes@.len() == total);
            assert(s.nodes@[m as int].live == false);
            assert(forall|i: int|
                0 <= i < s.nodes@.len() && i != m as int ==> s.nodes@[i] == prev.nodes@[i]);
            lemma_keys_update(prev.nodes@, m as int, s.nodes@[m as int]);
            assert(key_contrib(prev.nodes@[m as int]) == Multiset::singleton(k));
            assert(key_contrib(s.nodes@[m as int]) == Multiset::<u64>::empty());
            assert(prev.keys().contains(k)) by {
                lemma_keys_of_count(prev.nodes@, k);
                assert(prev.nodes@[m as int].live && prev.nodes@[m as int].key == k);
            }
            assert forall|w: u64| s.keys().count(w) == prev.keys().remove(k).count(w) by {
                assert(s.keys().add(Multiset::singleton(k)).count(w) == prev.keys().add(
                    Multiset::<u64>::empty(),
                ).count(w));
            }
            assert(s.keys() =~= prev.keys().remove(k));
            // no live node points at m
            assert forall|i: int| #![trigger s.live(i)] s.live(i) implies i != m as int
                && prev.live(i) && s.nodes@[i] == prev.nodes@[i] && (prev.parent_of(i) is Some
                ==> prev.parent_of(i)->Some_0 != m) by {
                if prev.parent_of(i) is Some && prev.parent_of(i)->Some_0 == m {
                    assert(prev.children_of(m as int).contains(i as usize));
                }
            }
            // invariants on nodes
            assert forall|i: int| #![trigger s.live(i)] s.live(i) implies s.nodes@[i].value
                is Some by {
                assert(prev.live(i));
            }
            assert forall|i: int|
                #![trigger s.parent_of(i)]
                s.live(i) && s.parent_of(i) is Some implies {
                let p = s.parent_of(i)->Some_0 as int;
                &&& s.live(p)
                &&& s.children_of(p).contains(i as usize)
                &&& s.key_at(p) <= s.key_at(i)
            } by {
                assert(prev.live(i) && prev.parent_of(i) == s.parent_of(i));
                let p = s.parent_of(i)->Some_0 as int;
                assert(p != m as int);
                assert(prev.live(p) && prev.children_of(p).contains(i as usize));
                assert(s.children_of(p) == prev.children_of(p));
            }
            assert forall|p: int, jc: int|
                #![trigger s.children_of(p)[jc]]
                s.live(p) && 0 <= jc < s.children_of(p).len() implies {
                let c = s.children_of(p)[jc] as int;
                &&& s.live(c)
                &&& s.parent_of(c) == Some(p as usize)
            } by {
                assert(prev.live(p));
                assert(s.children_of(p) == prev.children_of(p));
                assert(prev.children_of(p)[jc] == s.children_of(p)[jc]);
                let c = s.children_of(p)[jc] as int;
                assert(prev.live(c) && prev.parent_of(c) == Some(p as usize));
                assert(c != m as int) by {
                    if c == m as int {
                        assert(prev.parent_of(m as int) is None);
                    }
                }
            }
            assert forall|p: int| #![trigger s.children_of(p)] s.live(p) implies s.children_of(
                p,
            ).no_duplicates() by {
                assert(prev.live(p));
                assert(s.children_of(p) == prev.children_of(p));
            }
            assert forall|i: int|
                #![trigger s.live(i)]
                s.live(i) && s.parent_of(i) is None implies !s.marked_at(i) by {
                assert(prev.live(i) && prev.parent_of(i) is None);
                assert(!prev.marked_at(i));
            }
            assert(s.inv_nodes());
            // forest list
            lemma_remove_seq(prev.roots@, pos as int);
            assert forall|j: int| #![trigger s.root_at(j)] 0 <= j < s.root_count() implies s.is_root(
                s.root_at(j),
            ) by {
                let jo: int = if j < pos { j } else { j + 1 };
                assert(s.roots@[j] == prev.roots@[jo]);
                assert(prev.is_root(prev.root_at(jo)));
                assert(prev.roots@[jo] != m) by {
                    if prev.roots@[jo] == m {
                        assert(prev.roots@[jo] == prev.roots@[pos as int]);
                    }
                }
            }
            assert forall|i: int|
                #![trigger s.live(i)]
                s.live(i) && s.parent_of(i) is None implies s.roots@.contains(i as usize) by {
                assert(prev.live(i) && prev.parent_of(i) is None);
                assert(prev.roots@.contains(i as usize));
                assert(i as usize != m);
                assert(s.roots@.contains(i as usize));
            }
            assert(s.inv_roots());
            // ghost chains: no chain runs through the childless root m
            assert forall|i: int| #![trigger s.paths@[i]] s.live(i) implies !prev.paths@[i].contains(
                m,
            ) && s.paths@[i] == prev.paths@[i] by {
                assert(prev.live(i));
                let q = prev.paths@[i];
                assert(prev.path_ok(i, q));
                if q.contains(m) {
                    let j = choose|j: int| 0 <= j < q.len() && q[j] == m;
                    if j < q.len() - 1 {
                        assert(prev.parent_of(q[j] as int) == Some(q[j + 1]));
                        assert(prev.parent_of(m as int) is None);
                    } else {
                        if q.len() >= 2 {
                            assert(prev.parent_of(q[q.len() - 2] as int) == Some(q[q.len() - 1]));
                            assert(prev.children_of(m as int).contains(q[q.len() - 2]));
                        } else {
                            assert(q[0] as int == i);
                        }
                    }
                }
            }
            assert forall|i: int|
                #![trigger s.paths@.dom().contains(i)]
                s.paths@.dom().contains(i) <==> s.live(i) by {
                assert(prev.paths@.dom().contains(i) <==> prev.live(i));
            }
            assert forall|i: int| #![trigger s.paths@[i]] s.live(i) implies {
                &&& s.path_ok(i, s.paths@[i])
                &&& (s.parent_of(i) is Some ==> s.paths@[i].len() >= 2 && s.paths@[i].drop_first()
                    == s.paths@[s.parent_of(i)->Some_0 as int])
                &&& (s.parent_of(i) is None ==> s.paths@[i].len() == 1)
            } by {
                assert(prev.live(i));
                let q = prev.paths@[i];
                assert(prev.path_ok(i, q));
                assert(s.paths@[i] == q);
                assert(!q.contains(m));
                assert forall|j: int| #![trigger q[j]] 0 <= j < q.len() implies s.live(q[j] as int)
                    && s.key_at(q[j] as int) == prev.key_at(q[j] as int) && s.parent_of(
                    q[j] as int,
                ) == prev.parent_of(q[j] as int) by {
                    assert(prev.live(q[j] as int));
                    assert(q[j] != m) by {
                        if q[j] == m {
                            assert(q.contains(m));
                        }
                    }
                }
                assert(s.parent_of(q.last() as int) is None) by {
                    assert(q[q.len() - 1] == q.last());
                }
                assert forall|j1: int, j2: int|
                    #![trigger q[j1], q[j2]]
                    0 <= j1 <= j2 < q.len() implies s.key_at(q[j2] as int) <= s.key_at(
                    q[j1] as int,
                ) by {
                    assert(prev.key_at(q[j2] as int) <= prev.key_at(q[j1] as int));
                }
                assert(s.path_ok(i, q));
                if s.parent_of(i) is Some {
                    let pi = s.parent_of(i)->Some_0 as int;
                    assert(prev.paths@[i].drop_first() == prev.paths@[pi]);
                    assert(s.live(pi));
                    assert(s.paths@[pi] == prev.paths@[pi]);
                }
            }
            assert(s.inv_paths());
            if pos > 0 {
                assert forall|j: int|
                    #![trigger s.root_at(j)]
                    0 <= j < s.root_count() implies s.key_at(s.min_idx()) <= s.key_at(
                    s.root_at(j),
                ) by {
                    assert(s.roots@[0] == prev.roots@[0]);
                    let jo: int = if j < pos { j } else { j + 1 };
                    assert(s.roots@[j] == prev.roots@[jo]);
                    assert(prev.key_at(prev.min_idx()) <= prev.key_at(prev.root_at(jo)));
                }
            }
        }
        (k, v)
    }


    /// The ghost path map after root `b` was linked under root `a`: chains
    /// ending at `b` continue to `a`.
    spec fn link_paths(pm: Map<int, Seq<usize>>, b: usize, a: usize) -> Map<int, Seq<usize>> {
        Map::new(
            |i: int| pm.dom().contains(i),
            |i: int|
                if pm[i].len() > 0 && pm[i][pm[i].len() - 1] == b {
                    pm[i].push(a)
                } else {
                    pm[i]
                },
        )
    }

    /// `s` is `prev` after the root `b` was linked as a child of the root
    /// `a`, whose key is no larger.
    spec fn link_shape(prev: Self, s: Self, a: usize, b: usize, bpos: int) -> bool {
        &&& prev.wf0()
        &&& prev.is_root(a as int)
        &&& prev.is_root(b as int)
        &&& a != b
        &&& prev.key_at(a as int) <= prev.key_at(b as int)
        &&& 0 <= bpos < prev.roots@.len()
        &&& prev.roots@[bpos] == b
        &&& prev.nodes@.len() <= usize::MAX
        &&& s.nodes@.len() == prev.nodes@.len()
        &&& forall|i: int|
            #![trigger s.nodes@[i]]
            0 <= i < s.nodes@.len() && i != a as int && i != b as int ==> s.nodes@[i]
                == prev.nodes@[i]
        &&& s.children_of(a as int) == prev.children_of(a as int).push(b)
        &&& s.nodes@[a as int].live == prev.nodes@[a as int].live
        &&& s.nodes@[a as int].key == prev.nodes@[a as int].key
        &&& s.nodes@[a as int].value == prev.nodes@[a as int].value
        &&& s.nodes@[a as int].parent == prev.nodes@[a as int].parent
        &&& s.nodes@[a as int].marked == prev.nodes@[a as int].marked
        &&& s.nodes@[b as int].live == prev.nodes@[b as int].live
        &&& s.nodes@[b as int].key == prev.nodes@[b as int].key
        &&& s.nodes@[b as int].value == prev.nodes@[b as int].value
        &&& s.nodes@[b as int].parent == Some(a)
        &&& s.nodes@[b as int].marked == false
        &&& s.nodes@[b as int].children@ == prev.nodes@[b as int].children@
        &&& s.roots@ == prev.roots@.remove(bpos)
        &&& s.paths@ == Self::link_paths(prev.paths@, b, a)
    }

    /// After a link the node invariants still hold.
    proof fn lemma_link_nodes(prev: Self, s: Self, a: usize, b: usize, bpos: int)
        requires
            Self::link_shape(prev, s, a, b, bpos),
        ensures
            s.inv_nodes(),
            forall|i: int| s.live(i) <==> prev.live(i),
    {
        assert forall|i: int| s.live(i) <==> prev.live(i) by {
            assert(forall|i: int|
                0 <= i < s.nodes@.len() ==> (#[trigger] s.nodes@[i]).live == prev.nodes@[i].live);
        }
        assert(!prev.children_of(a as int).contains(b)) by {
            if prev.children_of(a as int).contains(b) {
                let j = choose|j: int|
                    0 <= j < prev.children_of(a as int).len() && prev.children_of(a as int)[j] == b;
                assert(prev.parent_of(b as int) == Some(a));
            }
        }
        assert forall|i: int| #![trigger s.live(i)] s.live(i) implies s.nodes@[i].value is Some by {
            assert(prev.live(i));
        }
        assert forall|i: int|
            #![trigger s.parent_of(i)]
            s.live(i) && s.parent_of(i) is Some implies {
            let p = s.parent_of(i)->Some_0 as int;
            &&& s.live(p)
            &&& s.children_of(p).contains(i as usize)
            &&& s.key_at(p) <= s.key_at(i)
        } by {
            assert(prev.live(i));
            if i == b as int {
                assert(s.parent_of(i) == Some(a));
                assert(s.children_of(a as int)[s.children_of(a as int).len() - 1] == b);
                assert(s.children_of(a as int).contains(b));
            } else {
                assert(prev.parent_of(i) == s.parent_of(i));
                let p = s.parent_of(i)->Some_0 as int;
                assert(prev.live(p) && prev.children_of(p).contains(i as usize));
                assert(prev.key_at(p) <= prev.key_at(i));
                if p == a as int {
                    let jo = choose|jo: int|
                        0 <= jo < prev.children_of(p).len() && prev.children_of(p)[jo] == i as usize;
                    assert(s.children_of(p)[jo] == i as usize);
                    assert(s.children_of(p).contains(i as usize));
                } else {
                    assert(s.children_of(p) == prev.children_of(p));
                }
            }
        }
        assert forall|p: int, jc: int|
            #![trigger s.children_of(p)[jc]]
            s.live(p) && 0 <= jc < s.children_of(p).len() implies {
            let c = s.children_of(p)[jc] as int;
            &&& s.live(c)
            &&& s.parent_of(c) == Some(p as usize)
        } by {
            assert(prev.live(p));
            let c = s.children_of(p)[jc] as int;
            if p == a as int {
                if jc == s.children_of(p).len() - 1 {
                    assert(s.children_of(p)[jc] == b);
                } else {
                    assert(s.children_of(p)[jc] == prev.children_of(p)[jc]);
                    assert(prev.live(c) && prev.parent_of(c) == Some(p as usize));
                    assert(c != b as int) by {
                        if c == b as int {
                            assert(prev.parent_of(b as int) is None);
                        }
                    }
                }
            } else {
                assert(s.children_of(p) == prev.children_of(p));
                assert(s.children_of(p)[jc] == prev.children_of(p)[jc]);
                assert(prev.live(c) && prev.parent_of(c) == Some(p as usize));
                assert(c != b as int) by {
                    if c == b as int {
                        assert(prev.parent_of(b as int) is None);
                    }
                }
            }
        }
        assert forall|p: int| #![trigger s.children_of(p)] s.live(p) implies s.children_of(
            p,
        ).no_duplicates() by {
            assert(prev.live(p));
            if p == a as int {
                assert forall|j1: int, j2: int|
                    0 <= j1 < j2 < s.children_of(p).len() implies s.children_of(p)[j1]
                    != s.children_of(p)[j2] by {
                    if j2 == s.children_of(p).len() - 1 {
                        assert(s.children_of(p)[j1] == prev.children_of(p)[j1]);
                        assert(prev.children_of(p).contains(prev.children_of(p)[j1]));
                    } else {
                        assert(s.children_of(p)[j1] == prev.children_of(p)[j1]);
                        assert(s.children_of(p)[j2] == prev.children_of(p)[j2]);
                    }
                }
            } else {
                assert(s.children_of(p) == prev.children_of(p));
            }
        }
        assert forall|i: int|
            #![trigger s.live(i)]
            s.live(i) && s.parent_of(i) is None implies !s.marked_at(i) by {
            assert(prev.live(i));
            if i != b as int {
                assert(prev.parent_of(i) is None);
                assert(!prev.marked_at(i));
            }
        }
    }

    /// After a link the forest list is still exact.
    proof fn lemma_link_roots_inv(prev: Self, s: Self, a: usize, b: usize, bpos: int)
        requires
            Self::link_shape(prev, s, a, b, bpos),
        ensures
            s.inv_roots(),
    {
        Self::lemma_link_nodes(prev, s, a, b, bpos);
        lemma_remove_seq(prev.roots@, bpos);
        assert forall|j: int| #![trigger s.root_at(j)] 0 <= j < s.root_count() implies s.is_root(
            s.root_at(j),
        ) by {
            let jo: int = if j < bpos { j } else { j + 1 };
            assert(s.roots@[j] == prev.roots@[jo]);
            assert(prev.is_root(prev.root_at(jo)));
            assert(prev.roots@[jo] != b) by {
                if prev.roots@[jo] == b {
                    assert(prev.roots@[jo] == prev.roots@[bpos]);
                }
            }
        }
        assert forall|i: int|
            #![trigger s.live(i)]
            s.live(i) && s.parent_of(i) is None implies s.roots@.contains(i as usize) by {
            assert(prev.live(i));
            assert(i != b as int);
            assert(prev.parent_of(i) is None);
            assert(prev.roots@.contains(i as usize));
            assert(i as usize != b) by {
                if i as usize == b {
                    assert(prev.parent_of(b as int) is None);
                }
            }
            assert(s.roots@.contains(i as usize));
        }
    }

    /// After a link every ancestor chain is again well formed: chains ending
    /// at `b` gained the new parent `a` at their end.
    #[verifier::rlimit(100)]
    proof fn lemma_link_paths_ok(prev: Self, s: Self, a: usize, b: usize, bpos: int)
        requires
            Self::link_shape(prev, s, a, b, bpos),
        ensures
            s.inv_paths(),
    {
        Self::lemma_link_nodes(prev, s, a, b, bpos);
        let pm = prev.paths@;
        let pmn = s.paths@;
        assert(prev.path_ok(a as int, pm[a as int]));
        assert(pm[a as int].len() == 1 && pm[a as int][0] == a);
        assert(prev.path_ok(b as int, pm[b as int]));
        assert(pm[b as int].len() == 1 && pm[b as int][0] == b);
        assert forall|i: int|
            #![trigger pmn.dom().contains(i)]
            pmn.dom().contains(i) <==> s.live(i) by {
            assert(pm.dom().contains(i) <==> prev.live(i));
        }
        assert forall|i: int| #![trigger pmn[i]] s.live(i) implies {
            &&& s.path_ok(i, pmn[i])
            &&& (s.parent_of(i) is Some ==> pmn[i].len() >= 2 && pmn[i].drop_first() == pmn[s.parent_of(
                i,
            )->Some_0 as int])
            &&& (s.parent_of(i) is None ==> pmn[i].len() == 1)
        } by {
            assert(prev.live(i));
            let q = pm[i];
            assert(prev.path_ok(i, q));
            // b, as a root, can only stand at the very end of a chain
            assert forall|j: int|
                #![trigger q[j]]
                0 <= j < q.len() && q[j] == b implies j == q.len() - 1 by {
                if j < q.len() - 1 {
                    assert(prev.parent_of(q[j] as int) == Some(q[j + 1]));
                    assert(prev.parent_of(b as int) is None);
                }
            }
            assert forall|j: int|
                #![trigger q[j]]
                0 <= j < q.len() && q[j] == a implies j == q.len() - 1 by {
                if j < q.len() - 1 {
                    assert(prev.parent_of(q[j] as int) == Some(q[j + 1]));
                    assert(prev.parent_of(a as int) is None);
                }
            }
            if q[q.len() - 1] == b {
                let qn = q.push(a);
                assert(pmn[i] == qn);
                assert(qn[0] == q[0]);
                assert(qn.no_duplicates()) by {
                    assert(!q.contains(a)) by {
                        if q.contains(a) {
                            let j = choose|j: int| 0 <= j < q.len() && q[j] == a;
                            assert(j == q.len() - 1);
                            assert(q[j] == b);
                        }
                    }
                    assert forall|j1: int, j2: int|
                        0 <= j1 < j2 < qn.len() implies qn[j1] != qn[j2] by {
                        if j2 == qn.len() - 1 {
                            assert(qn[j1] == q[j1]);
                            assert(q.contains(q[j1]));
                        } else {
                            assert(qn[j1] == q[j1] && qn[j2] == q[j2]);
                        }
                    }
                }
                assert forall|j: int| #![trigger qn[j]] 0 <= j < qn.len() implies s.live(
                    qn[j] as int,
                ) by {
                    if j < qn.len() - 1 {
                        assert(qn[j] == q[j]);
                        assert(prev.live(q[j] as int));
                    } else {
                        assert(qn[j] == a);
                    }
                }
                assert forall|j: int|
                    #![trigger qn[j]]
                    0 <= j < qn.len() - 1 implies s.parent_of(qn[j] as int) == Some(qn[j + 1]) by {
                    if j < qn.len() - 2 {
                        assert(qn[j] == q[j] && qn[j + 1] == q[j + 1]);
                        assert(prev.parent_of(q[j] as int) == Some(q[j + 1]));
                        assert(q[j] != b && q[j] != a);
                    } else {
                        assert(qn[j] == b && qn[j + 1] == a);
                        assert(s.parent_of(b as int) == Some(a));
                    }
                }
                assert(qn[qn.len() - 1] == a);
                assert(qn.last() == a);
                assert(s.parent_of(a as int) is None);
                assert forall|j1: int, j2: int|
                    #![trigger qn[j1], qn[j2]]
                    0 <= j1 <= j2 < qn.len() implies s.key_at(qn[j2] as int) <= s.key_at(
                    qn[j1] as int,
                ) by {
                    if j2 < qn.len() - 1 {
                        assert(qn[j1] == q[j1] && qn[j2] == q[j2]);
                        assert(prev.key_at(q[j2] as int) <= prev.key_at(q[j1] as int));
                    } else if j1 < qn.len() - 1 {
                        assert(qn[j1] == q[j1] && qn[j2] == a);
                        assert(prev.key_at(q[q.len() - 1] as int) <= prev.key_at(q[j1] as int));
                        assert(prev.key_at(b as int) <= prev.key_at(q[j1] as int));
                        assert(s.key_at(a as int) == prev.key_at(a as int));
                        assert(prev.key_at(a as int) <= prev.key_at(b as int));
                    }
                }
                assert(s.path_ok(i, qn));
                if i == b as int {
                    assert(q.len() == 1);
                    assert(qn.len() == 2);
                    assert(s.parent_of(i) == Some(a));
                    assert(qn.drop_first() =~= pm[a as int]);
                    assert(pmn[a as int] == pm[a as int]) by {
                        assert(pm[a as int][pm[a as int].len() - 1] == a);
                    }
                } else {
                    assert(q.len() >= 2) by {
                        if q.len() == 1 {
                            assert(q[0] as int == i);
                            assert(q[0] == b);
                        }
                    }
                    assert(prev.parent_of(i) is Some) by {
                        if prev.parent_of(i) is None {
                            assert(q.len() == 1);
                        }
                    }
                    assert(s.parent_of(i) == prev.parent_of(i)) by {
                        assert(i != b as int);
                        assert(i != a as int || true);
                        if i == a as int {
                            assert(prev.parent_of(a as int) is None);
                            assert(q.len() == 1);
                        }
                    }
                    let pi = prev.parent_of(i)->Some_0 as int;
                    assert(q.drop_first() == pm[pi]);
                    assert(pm[pi][pm[pi].len() - 1] == b) by {
                        assert(q.drop_first()[q.len() - 2] == q[q.len() - 1]);
                    }
                    assert(pmn[pi] == pm[pi].push(a));
                    assert(qn.drop_first() =~= pm[pi].push(a)) by {
                        assert forall|j: int|
                            0 <= j < qn.len() - 1 implies qn.drop_first()[j] == pm[pi].push(
                            a,
                        )[j] by {
                            assert(qn.drop_first()[j] == qn[j + 1]);
                            if j < qn.len() - 2 {
                                assert(qn[j + 1] == q[j + 1]);
                                assert(pm[pi].push(a)[j] == pm[pi][j]);
                                assert(pm[pi][j] == q.drop_first()[j]);
                            } else {
                                assert(qn[j + 1] == a);
                                assert(pm[pi].push(a)[j] == a);
                            }
                        }
                    }
                    assert(qn.len() >= 2);
                }
            } else {
                assert(pmn[i] == q);
                assert(!q.contains(b)) by {
                    if q.contains(b) {
                        let j = choose|j: int| 0 <= j < q.len() && q[j] == b;
                        assert(j == q.len() - 1);
                    }
                }
                assert forall|j: int| #![trigger q[j]] 0 <= j < q.len() implies s.live(q[j] as int)
                    && s.key_at(q[j] as int) == prev.key_at(q[j] as int) && s.parent_of(
                    q[j] as int,
                ) == prev.parent_of(q[j] as int) by {
                    assert(prev.live(q[j] as int));
                    assert(q[j] != b) by {
                        if q[j] == b {
                            assert(q.contains(b));
                        }
                    }
                }
                assert forall|j: int|
                    #![trigger q[j]]
                    0 <= j < q.len() - 1 implies s.parent_of(q[j] as int) == Some(q[j + 1]) by {
                    assert(prev.parent_of(q[j] as int) == Some(q[j + 1]));
                }
                assert forall|j1: int, j2: int|
                    #![trigger q[j1], q[j2]]
                    0 <= j1 <= j2 < q.len() implies s.key_at(q[j2] as int) <= s.key_at(
                    q[j1] as int,
                ) by {
                    assert(prev.key_at(q[j2] as int) <= prev.key_at(q[j1] as int));
                }
                assert(s.parent_of(q.last() as int) is None) by {
                    assert(q[q.len() - 1] == q.last());
                    assert(prev.parent_of(q.last() as int) is None);
                }
                assert(s.path_ok(i, q));
                if s.parent_of(i) is Some {
                    assert(i != b as int) by {
                        if i == b as int {
                            assert(q[0] == b);
                            assert(q[q.len() - 1] == b) by {
                                if q.len() >= 2 {
                                    assert(prev.parent_of(q[0] as int) == Some(q[1]));
                                    assert(prev.parent_of(b as int) is None);
                                }
                            }
                        }
                    }
                    assert(s.parent_of(i) == prev.parent_of(i));
                    let pi = s.parent_of(i)->Some_0 as int;
                    assert(q.drop_first() == pm[pi]);
                    assert(pm[pi][pm[pi].len() - 1] != b) by {
                        assert(q.drop_first()[q.len() - 2] == q[q.len() - 1]);
                    }
                    assert(pmn[pi] == pm[pi]);
                } else {
                    assert(q.len() == 1);
                }
            }
        }
    }

    /// Links the root at forest position `bpos` under the root at `apos`,
    /// whose key is no larger: the loser leaves the forest, loses its mark,
    /// and becomes one more child of the winner.
    fn link_roots(&mut self, apos: usize, bpos: usize)
        requires
            old(self).wf0(),
            0 <= apos < old(self).root_count(),
            0 <= bpos < old(self).root_count(),
            apos != bpos,
            old(self).key_at(old(self).root_at(apos as int)) <= old(self).key_at(
                old(self).root_at(bpos as int),
            ),
        ensures
            final(self).wf0(),
            final(self).keys() == old(self).keys(),
            final(self).node_count() == old(self).node_count(),
            forall|i: int| final(self).live(i) <==> old(self).live(i),
            forall|i: int|
                #![trigger old(self).live(i)]
                old(self).live(i) ==> final(self).key_at(i) == old(self).key_at(i)
                    && final(self).value_at(i) == old(self).value_at(i),
            final(self).roots@ == old(self).roots@.remove(bpos as int),
            final(self).rank_of(old(self).root_at(apos as int)) == old(self).rank_of(
                old(self).root_at(apos as int),
            ) + 1,
            !final(self).marked_at(old(self).root_at(bpos as int)),
            forall|i: int|
                #![trigger old(self).live(i)]
                old(self).live(i) && i != old(self).root_at(apos as int)
                    ==> final(self).children_of(i) == old(self).children_of(i),
    {
        let ghost prev = *old(self);
        let total = self.nodes.len();
        let a = self.roots[apos];
        let b = self.roots[bpos];
        proof {
            assert(prev.is_root(a as int));
            assert(prev.is_root(b as int));
            assert(a != b) by {
                if a == b {
                    assert(prev.roots@[apos as int] == prev.roots@[bpos as int]);
                }
            }
        }
        let bn = &mut self.nodes[b];
        bn.marked = false;
        bn.parent = Some(a);
        let ghost mid1 = *self;
        proof {
            lemma_keys_update_same(prev.nodes@, b as int, mid1.nodes@[b as int]);
        }
        let an = &mut self.nodes[a];
        an.children.push(b);
        let ghost mid2 = *self;
        proof {
            lemma_keys_update_same(mid1.nodes@, a as int, mid2.nodes@[a as int]);
        }
        self.roots.remove(bpos);
        proof {
            self.paths = Ghost(Self::link_paths(prev.paths@, b, a));
        }
        proof {
            let s = *self;
            assert(s.nodes@.len() == total && prev.nodes@.len() == total);
            assert(s.keys() == prev.keys());
            assert(Self::link_shape(prev, s, a, b, bpos as int));
            Self::lemma_link_nodes(prev, s, a, b, bpos as int);
            Self::lemma_link_roots_inv(prev, s, a, b, bpos as int);
            Self::lemma_link_paths_ok(prev, s, a, b, bpos as int);
        }
    }

    /// Two distinct forest positions whose trees have the same rank, if any
    /// pair exists.
    fn find_equal_rank_pair(&self) -> (r: Option<(usize, usize)>)
        requires
            self.wf0(),
        ensures
            match r {
                None => self.distinct_ranks(),
                Some((ai, bi)) => 0 <= ai < bi < self.root_count() && self.rank_of(
                    self.root_at(ai as int),
                ) == self.rank_of(self.root_at(bi as int)),
            },
    {
        let n = self.roots.len();
        let mut i: usize = 0;
        while i < n
            invariant
                self.wf0(),
                n == self.root_count(),
                0 <= i <= n,
                forall|j1: int, j2: int|
                    #![trigger self.root_at(j1), self.root_at(j2)]
                    0 <= j1 < j2 < n && j1 < i ==> self.rank_of(self.root_at(j1)) != self.rank_of(
                        self.root_at(j2),
                    ),
            decreases n - i,
        {
            proof {
                assert(self.is_root(self.root_at(i as int)));
            }
            let ri = self.roots[i];
            let rank_i = self.nodes[ri].children.len();
            let mut j: usize = i + 1;
            while j < n
                invariant
                    self.wf0(),
                    n == self.root_count(),
                    0 <= i < n,
                    i < j <= n,
                    ri == self.roots@[i as int],
                    rank_i == self.rank_of(self.root_at(i as int)),
                    forall|j2: int|
                        #![trigger self.root_at(j2)]
                        i < j2 < j ==> self.rank_of(self.root_at(i as int)) != self.rank_of(
                            self.root_at(j2),
                        ),
                decreases n - j,
            {
                proof {
                    assert(self.is_root(self.root_at(j as int)));
                }
                let rj = self.roots[j];
                if self.nodes[rj].children.len() == rank_i {
                    return Some((i, j));
                }
                j += 1;
            }
            i += 1;
        }
        None
    }


    /// Links roots of equal rank until no two trees share a rank.
    fn consolidate(&mut self)
        requires
            old(self).wf0(),
        ensures
            final(self).wf0(),
            final(self).distinct_ranks(),
            final(self).root_count() <= old(self).root_count(),
            final(self).keys() == old(self).keys(),
            final(self).node_count() == old(self).node_count(),
            forall|i: int| final(self).live(i) <==> old(self).live(i),
            forall|i: int|
                #![trigger old(self).live(i)]
                old(self).live(i) ==> final(self).key_at(i) == old(self).key_at(i)
                    && final(self).value_at(i) == old(self).value_at(i),
    {
        let ghost prev = *old(self);
        loop
            invariant
                self.wf0(),
                self.root_count() <= prev.root_count(),
                self.keys() == prev.keys(),
                self.node_count() == prev.node_count(),
                forall|i: int| self.live(i) <==> prev.live(i),
                forall|i: int|
                    #![trigger prev.live(i)]
                    prev.live(i) ==> self.key_at(i) == prev.key_at(i) && self.value_at(i)
                        == prev.value_at(i),
            ensures
                self.wf0(),
                self.distinct_ranks(),
                self.root_count() <= prev.root_count(),
                self.keys() == prev.keys(),
                self.node_count() == prev.node_count(),
                forall|i: int| self.live(i) <==> prev.live(i),
                forall|i: int|
                    #![trigger prev.live(i)]
                    prev.live(i) ==> self.key_at(i) == prev.key_at(i) && self.value_at(i)
                        == prev.value_at(i),
            decreases self.roots@.len(),
        {
            let pr = self.find_equal_rank_pair();
            match pr {
                None => {
                    break ;
                },
                Some((ai, bi)) => {
                    proof {
                        assert(self.is_root(self.root_at(ai as int)));
                        assert(self.is_root(self.root_at(bi as int)));
                    }
                    let a = self.roots[ai];
                    let b = self.roots[bi];
                    if self.nodes[a].key <= self.nodes[b].key {
                        self.link_roots(ai, bi);
                    } else {
                        self.link_roots(bi, ai);
                    }
                },
            }
        }
    }

    /// Finds the smallest root key and brings that tree to the front.
    fn rescan_min(&mut self)
        requires
            old(self).wf0(),
            old(self).root_count() > 0,
        ensures
            final(self).wf(),
            final(self).keys() == old(self).keys(),
            final(self).node_count() == old(self).node_count(),
            final(self).root_count() == old(self).root_count(),
            forall|i: int| final(self).live(i) <==> old(self).live(i),
            forall|i: int|
                #![trigger old(self).live(i)]
                old(self).live(i) ==> final(self).key_at(i) == old(self).key_at(i)
                    && final(self).value_at(i) == old(self).value_at(i),
            old(self).distinct_ranks() ==> final(self).distinct_ranks(),
    {
        let ghost prev = *old(self);
        let n = self.roots.len();
        let mut best: usize = 0;
        let mut j: usize = 1;
        proof {
            assert(self.is_root(self.root_at(0)));
        }
        while j < n
            invariant
                *self == prev,
                self.wf0(),
                n == self.root_count(),
                0 <= best < n,
                1 <= j <= n,
                forall|j2: int|
                    #![trigger self.root_at(j2)]
                    0 <= j2 < j ==> self.key_at(self.root_at(best as int)) <= self.key_at(
                        self.root_at(j2),
                    ),
            decreases n - j,
        {
            proof {
                assert(self.is_root(self.root_at(j as int)));
                assert(self.is_root(self.root_at(best as int)));
            }
            let rj = self.roots[j];
            let rb = self.roots[best];
            if self.nodes[rj].key < self.nodes[rb].key {
                best = j;
            }
            j += 1;
        }
        self.promote_root(best);
        proof {
            assert(forall|i: int| self.live(i) <==> prev.live(i));
        }
    }

    /// Removes and returns the minimum key with its payload, or `EmptyHeap`
    /// on an empty heap. The extracted node's children join the forest, and
    /// roots of equal rank are linked until all ranks differ.
    pub fn delete_min(&mut self) -> (r: Result<(u64, V), HeapError>)
        requires
            old(self).wf(),
        ensures
            final(self).wf(),
            old(self).root_count() == 0 ==> r == Err::<(u64, V), HeapError>(HeapError::EmptyHeap)
                && *final(self) == *old(self),
            old(self).root_count() > 0 ==> {
                &&& r is Ok
                &&& r->Ok_0.0 == old(self).key_at(old(self).min_idx())
                &&& r->Ok_0.1 == old(self).value_at(old(self).min_idx())
                &&& old(self).keys().contains(r->Ok_0.0)
                &&& forall|k2: u64| old(self).keys().contains(k2) ==> r->Ok_0.0 <= k2
                &&& final(self).keys() == old(self).keys().remove(r->Ok_0.0)
                &&& !final(self).live(old(self).min_idx())
                &&& forall|i: int|
                    i != old(self).min_idx() ==> (final(self).live(i) <==> old(self).live(i))
                &&& forall|i: int|
                    #![trigger old(self).live(i)]
                    old(self).live(i) && i != old(self).min_idx() ==> final(self).key_at(i) == old(
                        self,
                    ).key_at(i) && final(self).value_at(i) == old(self).value_at(i)
                &&& final(self).distinct_ranks()
                &&& final(self).node_count() == old(self).node_count()
                &&& final(self).keys().len() == old(self).keys().len() - 1
                &&& final(self).root_count() <= old(self).root_count() + old(self).rank_of(
                    old(self).min_idx(),
                ) - 1
            },
    {
        if self.roots.len() == 0 {
            return Err(HeapError::EmptyHeap);
        }
        let ghost prev = *old(self);
        proof {
            prev.lemma_min_front_smallest();
            assert forall|k2: u64| prev.keys().contains(k2) implies prev.key_at(
                prev.min_idx(),
            ) <= k2 by {
                prev.lemma_keys_are_live_keys(k2);
                let i = choose|i: int| #![trigger prev.live(i)] prev.live(i) && prev.key_at(i) == k2;
                assert(prev.key_at(prev.min_idx()) <= prev.key_at(i));
            }
        }
        let m = self.roots[0];
        let ghost ch0 = prev.children_of(m as int);
        // the minimum's children become roots
        while self.nodes[m].children.len() > 0
            invariant
                self.wf(),
                self.live(m as int),
                self.root_count() > 0,
                self.root_at(0) == m as int,
                m as int == prev.min_idx(),
                (m as int) < self.node_count(),
                self.keys() == prev.keys(),
                self.node_count() == prev.node_count(),
                self.children_of(m as int).len() <= ch0.len(),
                self.children_of(m as int) == ch0.take(self.children_of(m as int).len() as int),
                self.root_count() == prev.root_count() + ch0.len() - self.children_of(
                    m as int,
                ).len(),
                forall|i: int| self.live(i) <==> prev.live(i),
                forall|i: int|
                    #![trigger prev.live(i)]
                    prev.live(i) ==> self.key_at(i) == prev.key_at(i) && self.value_at(i)
                        == prev.value_at(i),
            decreases self.nodes@[m as int].children@.len(),
        {
            let ghost chb = self.children_of(m as int);
            let clen = self.nodes[m].children.len();
            let c = self.nodes[m].children[clen - 1];
            proof {
                assert(self.children_of(m as int)[clen - 1] == c);
                assert(self.live(c as int) && self.parent_of(c as int) == Some(m));
                assert(chb.no_duplicates());
                assert(chb.index_of(c) == clen - 1) by {
                    let ix = chb.index_of(c);
                    assert(chb.contains(c)) by {
                        assert(chb[clen - 1] == c);
                    }
                    assert(0 <= ix < chb.len() && chb[ix] == c);
                    if ix != clen - 1 {
                        assert(chb[ix] == chb[clen - 1]);
                    }
                }
            }
            self.cut(c, m);
            proof {
                assert(self.children_of(m as int) =~= chb.take(clen - 1));
                assert forall|j: int| 0 <= j < clen implies chb[j] == ch0[j] by {
                    assert(chb[j] == ch0.take(clen as int)[j]);
                }
                assert(self.children_of(m as int) =~= ch0.take(clen - 1));
            }
        }
        let (k, v) = self.kill_root(0);
        self.consolidate();
        if self.roots.len() > 0 {
            self.rescan_min();
        } else {
            proof {
                assert(self.min_front());
            }
        }
        proof {
            assert(self.distinct_ranks()) by {
                if self.root_count() == 0 {
                }
            }
            assert(self.keys().len() == prev.keys().len() - 1) by {
                assert(prev.keys().contains(k));
                assert(prev.keys() =~= self.keys().insert(k));
                assert(prev.keys().len() == self.keys().len() + 1);
            }
        }
        Ok((k, v))
    }


    /// Removes the node behind `h` and returns its key and payload, or
    /// `StaleHandle` without change when the node is already gone. The
    /// removed node's children stay in the heap; its key leaves the key
    /// multiset exactly once.
    pub fn delete(&mut self, h: FibEntry) -> (r: Result<(u64, V), HeapError>)
        requires
            old(self).wf(),
        ensures
            final(self).wf(),
            !old(self).valid(h) ==> r == Err::<(u64, V), HeapError>(HeapError::StaleHandle)
                && *final(self) == *old(self),
            old(self).valid(h) ==> {
                &&& r is Ok
                &&& r->Ok_0.0 == old(self).key_at(h.id())
                &&& r->Ok_0.1 == old(self).value_at(h.id())
                &&& final(self).keys() == old(self).keys().remove(old(self).key_at(h.id()))
                &&& !final(self).live(h.id())
                &&& forall|i: int|
                    i != h.id() ==> (final(self).live(i) <==> old(self).live(i))
                &&& forall|i: int|
                    #![trigger old(self).live(i)]
                    old(self).live(i) && i != h.id() ==> final(self).key_at(i) == old(self).key_at(
                        i,
                    ) && final(self).value_at(i) == old(self).value_at(i)
                &&& final(self).node_count() == old(self).node_count()
                &&& final(self).keys().len() == old(self).keys().len() - 1
                &&& (h.id() == old(self).min_idx() ==> final(self).distinct_ranks())
                &&& (old(self).parent_of(h.id()) is None && h.id() != old(self).min_idx()
                    ==> final(self).root_count() == old(self).root_count() + old(self).rank_of(
                    h.id(),
                ) - 1)
                &&& (old(self).parent_of(h.id()) is Some ==> final(self).root_count() >= old(
                    self,
                ).root_count() + old(self).rank_of(h.id()))
                &&& (h.id() != old(self).min_idx() ==> forall|c: usize|
                    #![trigger old(self).children_of(h.id()).contains(c)]
                    old(self).children_of(h.id()).contains(c) ==> final(self).is_root(c as int))
            },
    {
        if h.idx >= self.nodes.len() {
            return Err(HeapError::StaleHandle);
        }
        if !self.nodes[h.idx].live {
            return Err(HeapError::StaleHandle);
        }
        let ghost prev = *old(self);
        proof {
            prev.lemma_live_has_root(h.id());
        }
        let front = self.roots[0];
        if front == h.idx {
            proof {
                assert(prev.min_idx() == h.id());
            }
            let r = self.delete_min();
            return r;
        }
        let par = self.nodes[h.idx].parent;
        match par {
            Some(p) => {
                self.cut(h.idx, p);
                let ghost s1 = *self;
                proof {
                    assert(s1.paths@[p as int] == prev.paths@[h.id()].drop_first());
                    assert(prev.paths@[h.id()].no_duplicates() && prev.paths@[h.id()][0]
                        == h.idx) by {
                        assert(prev.path_ok(h.id(), prev.paths@[h.id()]));
                    }
                    assert(!s1.paths@[p as int].contains(h.idx)) by {
                        if s1.paths@[p as int].contains(h.idx) {
                            let j = choose|j: int|
                                0 <= j < s1.paths@[p as int].len() && s1.paths@[p as int][j]
                                    == h.idx;
                            assert(prev.paths@[h.id()][j + 1] == h.idx);
                        }
                    }
                }
                self.cascade(p);
                proof {
                    assert(self.children_of(h.id()) == prev.children_of(h.id()));
                    assert(self.root_count() >= prev.root_count() + 1);
                }
            },
            None => {
            },
        }
        proof {
            assert(self.is_root(h.id()));
            assert(self.root_at(0) == front as int);
            assert(self.children_of(h.id()) == prev.children_of(h.id()));
        }
        let ghost base = *self;
        let ghost ch0 = base.children_of(h.id());
        proof {
            assert forall|j: int| 0 <= j < ch0.len() implies ch0[j] != h.idx && base.live(
                ch0[j] as int,
            ) by {
                assert(base.children_of(h.id())[j] == ch0[j]);
                assert(base.parent_of(ch0[j] as int) == Some(h.idx));
                if ch0[j] == h.idx {
                    assert(base.parent_of(h.id()) is None);
                }
            }
        }
        // the node's children become roots
        while self.nodes[h.idx].children.len() > 0
            invariant
                self.wf(),
                self.live(h.id()),
                self.parent_of(h.id()) is None,
                (h.idx as int) < self.node_count(),
                self.root_count() > 0,
                self.root_at(0) == front as int,
                front != h.idx,
                self.keys() == prev.keys(),
                self.node_count() == prev.node_count(),
                self.children_of(h.id()).len() <= ch0.len(),
                self.children_of(h.id()) == ch0.take(self.children_of(h.id()).len() as int),
                self.root_count() == base.root_count() + ch0.len() - self.children_of(
                    h.id(),
                ).len(),
                forall|j: int|
                    self.children_of(h.id()).len() <= j < ch0.len() ==> self.is_root(
                        #[trigger] ch0[j] as int,
                    ),
                forall|i: int| self.live(i) <==> prev.live(i),
                forall|i: int|
                    #![trigger prev.live(i)]
                    prev.live(i) ==> self.key_at(i) == prev.key_at(i) && self.value_at(i)
                        == prev.value_at(i),
            decreases self.nodes@[h.idx as int].children@.len(),
        {
            let ghost chb = self.children_of(h.id());
            let clen = self.nodes[h.idx].children.len();
            let c = self.nodes[h.idx].children[clen - 1];
            proof {
                assert(self.children_of(h.id())[clen - 1] == c);
                assert(self.live(c as int) && self.parent_of(c as int) == Some(h.idx));
                assert(chb.no_duplicates());
                assert(chb.index_of(c) == clen - 1) by {
                    let ix = chb.index_of(c);
                    assert(chb.contains(c)) by {
                        assert(chb[clen - 1] == c);
                    }
                    assert(0 <= ix < chb.len() && chb[ix] == c);
                    if ix != clen - 1 {
                        assert(chb[ix] == chb[clen - 1]);
                    }
                }
            }
            self.cut(c, h.idx);
            proof {
                assert(self.children_of(h.id()) =~= chb.take(clen - 1));
                assert forall|j: int| 0 <= j < clen implies chb[j] == ch0[j] by {
                    assert(chb[j] == ch0.take(clen as int)[j]);
                }
                assert(self.children_of(h.id()) =~= ch0.take(clen - 1));
                assert(c == ch0[clen - 1]);
            }
        }
        // locate the node in the forest; it cannot be in front
        let rl = self.roots.len();
        let mut pos: usize = 0;
        proof {
            assert(self.roots@.contains(h.idx));
            let j = choose|j: int| 0 <= j < self.roots@.len() && self.roots@[j] == h.idx;
            assert(pos <= j < self.roots@.len());
        }
        let ghost snap = *self;
        while self.roots[pos] != h.idx
            invariant
                *self == snap,
                snap.roots@.len() == rl,
                0 <= pos < snap.roots@.len(),
                exists|j: int| pos <= j < snap.roots@.len() && snap.roots@[j] == h.idx,
            decreases snap.roots@.len() - pos,
        {
            pos += 1;
            proof {
                let j = choose|j: int| pos - 1 <= j < snap.roots@.len() && snap.roots@[j] == h.idx;
                assert(pos <= j < snap.roots@.len());
            }
        }
        proof {
            assert(self.roots@[pos as int] == h.idx);
            assert(pos != 0) by {
                assert(self.root_at(0) == front as int);
            }
            assert(self.root_at(pos as int) == h.id());
        }
        let ghost before_kill = *self;
        let (k, v) = self.kill_root(pos);
        proof {
            assert(self.keys().len() == prev.keys().len() - 1) by {
                assert(k == prev.key_at(h.id()));
                prev.lemma_keys_are_live_keys(k);
                assert(prev.live(h.id()) && prev.key_at(h.id()) == k);
                assert(prev.keys().contains(k));
                assert(prev.keys() =~= self.keys().insert(k));
                assert(prev.keys().len() == self.keys().len() + 1);
            }
            assert forall|c: usize|
                #![trigger prev.children_of(h.id()).contains(c)]
                prev.children_of(h.id()).contains(c) implies self.is_root(c as int) by {
                let j = choose|j: int| 0 <= j < ch0.len() && ch0[j] == c;
                assert(before_kill.is_root(ch0[j] as int));
                assert(c != h.idx);
                assert(self.live(c as int) <==> before_kill.live(c as int));
                assert(self.parent_of(c as int) == before_kill.parent_of(c as int));
            }
            assert(self.root_count() == base.root_count() + ch0.len() - 1);
        }
        Ok((k, v))
    }


    /// The arena `s` extends `prev` by the slots of `on`, every index moved
    /// up by `off`; dead donated slots are reduced to empty remains.
    spec fn meld_shifted(prev: Self, on: Seq<FibNode<V>>, s: Self, off: int) -> bool {
        &&& s.nodes@.len() == off + on.len()
        &&& prev.nodes@.len() == off
        &&& forall|i: int|
            #![trigger s.nodes@[i]]
            0 <= i < off ==> s.nodes@[i] == prev.nodes@[i]
        &&& forall|u: int|
            #![trigger on[u]]
            0 <= u < on.len() ==> {
                let nd = s.nodes@[off + u];
                let od = on[u];
                &&& nd.live == od.live
                &&& (od.live ==> {
                    &&& nd.key == od.key
                    &&& nd.value == od.value
                    &&& nd.marked == od.marked
                    &&& (od.parent is None ==> nd.parent is None)
                    &&& (od.parent is Some ==> nd.parent == Some(
                        (od.parent->Some_0 + off) as usize,
                    ))
                    &&& nd.children@ == od.children@.map_values(|c: usize| (c + off) as usize)
                })
            }
    }

    /// After a meld: liveness, keys, values and the parent links of the
    /// combined arena.
    #[verifier::rlimit(100)]
    proof fn lemma_meld_nodes_a(prev: Self, o: Self, s: Self, off: int)
        requires
            prev.inv_nodes(),
            o.inv_nodes(),
            off + o.nodes@.len() <= usize::MAX,
            Self::meld_shifted(prev, o.nodes@, s, off),
        ensures
            forall|i: int| 0 <= i < off ==> (s.live(i) <==> prev.live(i)),
            forall|i: int| off <= i < s.nodes@.len() ==> (s.live(i) <==> o.live(i - off)),
            forall|i: int| #![trigger s.live(i)] s.live(i) && i >= off ==> s.key_at(i) == o.key_at(
                i - off,
            ) && s.value_at(i) == o.value_at(i - off),
            forall|i: int| #![trigger s.live(i)] s.live(i) ==> s.nodes@[i].value is Some,
            forall|i: int|
                #![trigger s.parent_of(i)]
                s.live(i) && s.parent_of(i) is Some ==> {
                    let p = s.parent_of(i)->Some_0 as int;
                    &&& s.live(p)
                    &&& s.children_of(p).contains(i as usize)
                    &&& s.key_at(p) <= s.key_at(i)
                },
            forall|i: int|
                #![trigger s.live(i)]
                s.live(i) && s.parent_of(i) is None ==> !s.marked_at(i),
    {
        assert(forall|i: int| 0 <= i < off ==> (s.live(i) <==> prev.live(i)));
        assert forall|i: int| off <= i < s.nodes@.len() implies (s.live(i) <==> o.live(
            i - off,
        )) by {
            assert(o.nodes@[i - off] == o.nodes@[i - off]);
        }
        assert forall|i: int| #![trigger s.live(i)] s.live(i) && i >= off implies s.key_at(i)
            == o.key_at(i - off) && s.value_at(i) == o.value_at(i - off) by {
            assert(o.live(i - off));
        }
        assert forall|i: int| #![trigger s.live(i)] s.live(i) implies s.nodes@[i].value is Some by {
            if i < off {
                assert(prev.live(i));
            } else {
                assert(o.live(i - off));
            }
        }
        assert forall|i: int|
            #![trigger s.parent_of(i)]
            s.live(i) && s.parent_of(i) is Some implies {
            let p = s.parent_of(i)->Some_0 as int;
            &&& s.live(p)
            &&& s.children_of(p).contains(i as usize)
            &&& s.key_at(p) <= s.key_at(i)
        } by {
            if i < off {
                assert(prev.live(i) && prev.parent_of(i) == s.parent_of(i));
                let p = s.parent_of(i)->Some_0 as int;
                assert(prev.live(p) && prev.children_of(p).contains(i as usize));
                assert(p < off);
                assert(s.children_of(p) == prev.children_of(p));
                assert(prev.key_at(p) <= prev.key_at(i));
            } else {
                let u = i - off;
                assert(o.live(u));
                assert(o.parent_of(u) is Some);
                let op = o.parent_of(u)->Some_0 as int;
                assert(o.live(op) && o.children_of(op).contains(u as usize));
                assert(o.key_at(op) <= o.key_at(u));
                let p = s.parent_of(i)->Some_0 as int;
                assert(p == op + off);
                assert(s.live(p));
                assert(s.children_of(p) == o.children_of(op).map_values(
                    |c: usize| (c + off) as usize,
                ));
                let jo = choose|jo: int|
                    0 <= jo < o.children_of(op).len() && o.children_of(op)[jo] == u as usize;
                assert(s.children_of(p)[jo] == (u + off) as usize);
                assert(s.children_of(p)[jo] == i as usize);
                assert(s.children_of(p).contains(i as usize));
            }
        }
        assert forall|i: int|
            #![trigger s.live(i)]
            s.live(i) && s.parent_of(i) is None implies !s.marked_at(i) by {
            if i < off {
                assert(prev.live(i) && prev.parent_of(i) is None);
                assert(!prev.marked_at(i));
            } else {
                let u = i - off;
                assert(o.live(u));
                assert(o.parent_of(u) is None) by {
                    if o.parent_of(u) is Some {
                        assert(s.parent_of(i) is Some);
                    }
                }
                assert(!o.marked_at(u));
            }
        }
    }

    /// After a meld: the child lists of the combined arena.
    #[verifier::rlimit(100)]
    proof fn lemma_meld_nodes_b(prev: Self, o: Self, s: Self, off: int)
        requires
            prev.inv_nodes(),
            o.inv_nodes(),
            off + o.nodes@.len() <= usize::MAX,
            Self::meld_shifted(prev, o.nodes@, s, off),
        ensures
            forall|p: int, jc: int|
                #![trigger s.children_of(p)[jc]]
                s.live(p) && 0 <= jc < s.children_of(p).len() ==> {
                    let c = s.children_of(p)[jc] as int;
                    &&& s.live(c)
                    &&& s.parent_of(c) == Some(p as usize)
                },
            forall|p: int| #![trigger s.children_of(p)] s.live(p) ==> s.children_of(
                p,
            ).no_duplicates(),
    {
        assert forall|p: int, jc: int|
            #![trigger s.children_of(p)[jc]]
            s.live(p) && 0 <= jc < s.children_of(p).len() implies {
            let c = s.children_of(p)[jc] as int;
            &&& s.live(c)
            &&& s.parent_of(c) == Some(p as usize)
        } by {
            if p < off {
                assert(prev.live(p));
                assert(s.children_of(p) == prev.children_of(p));
                assert(prev.children_of(p)[jc] == s.children_of(p)[jc]);
                let c = s.children_of(p)[jc] as int;
                assert(prev.live(c) && prev.parent_of(c) == Some(p as usize));
                assert(c < off);
            } else {
                let up = p - off;
                assert(o.live(up)) by {
                    assert(o.nodes@[up] == o.nodes@[up]);
                }
                assert(s.children_of(p) == o.children_of(up).map_values(
                    |c: usize| (c + off) as usize,
                ));
                let oc = o.children_of(up)[jc];
                assert(o.children_of(up).contains(oc));
                assert(o.live(oc as int) && o.parent_of(oc as int) == Some(up as usize));
                assert(s.children_of(p)[jc] == (oc + off) as usize);
                let c = s.children_of(p)[jc] as int;
                assert(c == oc + off);
                assert(s.live(c));
                assert(s.parent_of(c) == Some((up + off) as usize));
            }
        }
        assert forall|p: int| #![trigger s.children_of(p)] s.live(p) implies s.children_of(
            p,
        ).no_duplicates() by {
            if p < off {
                assert(prev.live(p));
                assert(s.children_of(p) == prev.children_of(p));
            } else {
                let up = p - off;
                assert(o.live(up)) by {
                    assert(o.nodes@[up] == o.nodes@[up]);
                }
                assert(s.children_of(p) == o.children_of(up).map_values(
                    |c: usize| (c + off) as usize,
                ));
                assert forall|j1: int, j2: int|
                    0 <= j1 < j2 < s.children_of(p).len() implies s.children_of(p)[j1]
                    != s.children_of(p)[j2] by {
                    let c1 = o.children_of(up)[j1];
                    let c2 = o.children_of(up)[j2];
                    assert(o.children_of(up).contains(c1));
                    assert(o.children_of(up).contains(c2));
                    assert(o.live(c1 as int) && o.live(c2 as int));
                    assert(c1 != c2);
                    assert(s.children_of(p)[j1] == (c1 + off) as usize);
                    assert(s.children_of(p)[j2] == (c2 + off) as usize);
                }
            }
        }
    }

    /// After a meld: the forest list is exact and the smaller minimum stands
    /// in front. `receiver_first` says whose roots come first.
    #[verifier::rlimit(100)]
    proof fn lemma_meld_roots(prev: Self, o: Self, s: Self, off: int, receiver_first: bool)
        requires
            prev.inv_nodes(),
            prev.inv_roots(),
            prev.min_front(),
            o.inv_nodes(),
            o.inv_roots(),
            o.min_front(),
            off + o.nodes@.len() <= usize::MAX,
            Self::meld_shifted(prev, o.nodes@, s, off),
            receiver_first ==> s.roots@ == prev.roots@ + o.roots@.map_values(
                |r: usize| (r + off) as usize,
            ),
            !receiver_first ==> s.roots@ == o.roots@.map_values(|r: usize| (r + off) as usize)
                + prev.roots@,
            receiver_first ==> (o.roots@.len() == 0 || (prev.roots@.len() > 0 && prev.key_at(
                prev.min_idx(),
            ) <= o.key_at(o.min_idx()))),
            !receiver_first ==> (prev.roots@.len() == 0 || (o.roots@.len() > 0 && o.key_at(
                o.min_idx(),
            ) < prev.key_at(prev.min_idx()))),
        ensures
            s.inv_roots(),
            s.min_front(),
    {
        Self::lemma_meld_nodes_a(prev, o, s, off);
        let sh = o.roots@.map_values(|r: usize| (r + off) as usize);
        assert(sh.len() == o.roots@.len());
        assert forall|j: int| #![trigger sh[j]] 0 <= j < sh.len() implies sh[j] == (o.roots@[j]
            + off) as usize && s.is_root(sh[j] as int) && s.key_at(sh[j] as int) == o.key_at(
            o.root_at(j),
        ) by {
            assert(o.is_root(o.root_at(j)));
            assert(s.live(o.roots@[j] + off));
            assert(s.parent_of(o.roots@[j] + off) is None) by {
                assert(o.nodes@[o.roots@[j] as int].parent is None);
            }
        }
        assert forall|j: int| #![trigger s.roots@[j]] 0 <= j < s.roots@.len() implies s.is_root(
            s.roots@[j] as int,
        ) by {
            if receiver_first {
                if j < prev.roots@.len() {
                    assert(s.roots@[j] == prev.roots@[j]);
                    assert(prev.is_root(prev.root_at(j)));
                } else {
                    assert(s.roots@[j] == sh[j - prev.roots@.len()]);
                }
            } else {
                if j < sh.len() {
                    assert(s.roots@[j] == sh[j]);
                } else {
                    assert(s.roots@[j] == prev.roots@[j - sh.len()]);
                    assert(prev.is_root(prev.root_at(j - sh.len())));
                }
            }
        }
        assert(s.roots@.no_duplicates()) by {
            assert forall|j1: int, j2: int|
                0 <= j1 < j2 < s.roots@.len() implies s.roots@[j1] != s.roots@[j2] by {
                let (lo, hi): (Seq<usize>, Seq<usize>) = if receiver_first {
                    (prev.roots@, sh)
                } else {
                    (sh, prev.roots@)
                };
                assert(s.roots@ == lo + hi);
                if j1 < lo.len() && j2 < lo.len() {
                    assert(s.roots@[j1] == lo[j1] && s.roots@[j2] == lo[j2]);
                    if receiver_first {
                    } else {
                        assert(o.roots@[j1] != o.roots@[j2]);
                    }
                } else if j1 >= lo.len() && j2 >= lo.len() {
                    assert(s.roots@[j1] == hi[j1 - lo.len()] && s.roots@[j2] == hi[j2 - lo.len()]);
                    if receiver_first {
                        assert(o.roots@[j1 - lo.len()] != o.roots@[j2 - lo.len()]);
                    } else {
                    }
                } else {
                    assert(s.roots@[j1] == lo[j1] && s.roots@[j2] == hi[j2 - lo.len()]);
                    let (pr, shr): (usize, usize) = if receiver_first {
                        (lo[j1], hi[j2 - lo.len()])
                    } else {
                        (hi[j2 - lo.len()], lo[j1])
                    };
                    assert(prev.roots@.contains(pr)) by {
                        if receiver_first {
                            assert(prev.roots@[j1] == pr);
                        } else {
                            assert(prev.roots@[j2 - lo.len()] == pr);
                        }
                    }
                    assert(prev.is_root(pr as int)) by {
                        let jp = choose|jp: int|
                            0 <= jp < prev.roots@.len() && prev.roots@[jp] == pr;
                        assert(prev.root_at(jp) == pr as int);
                    }
                    assert((pr as int) < off);
                    assert(shr as int >= off) by {
                        if receiver_first {
                            assert(hi[j2 - lo.len()] == sh[j2 - lo.len()]);
                        } else {
                            assert(lo[j1] == sh[j1]);
                        }
                    }
                }
            }
        }
        assert forall|i: int|
            #![trigger s.live(i)]
            s.live(i) && s.parent_of(i) is None implies s.roots@.contains(i as usize) by {
            if i < off {
                assert(prev.live(i));
                assert(prev.parent_of(i) is None) by {
                    assert(s.nodes@[i] == prev.nodes@[i]);
                }
                assert(prev.roots@.contains(i as usize));
                let jo = choose|jo: int| 0 <= jo < prev.roots@.len() && prev.roots@[jo] == i as usize;
                if receiver_first {
                    assert(s.roots@[jo] == i as usize);
                } else {
                    assert(s.roots@[jo + sh.len()] == i as usize);
                }
            } else {
                let u = i - off;
                assert(o.live(u));
                assert(o.parent_of(u) is None) by {
                    if o.parent_of(u) is Some {
                        assert(s.parent_of(i) is Some);
                    }
                }
                assert(o.roots@.contains(u as usize));
                let jo = choose|jo: int| 0 <= jo < o.roots@.len() && o.roots@[jo] == u as usize;
                assert(sh[jo] == (u + off) as usize);
                if receiver_first {
                    assert(s.roots@[jo + prev.roots@.len()] == (u + off) as usize);
                } else {
                    assert(s.roots@[jo] == (u + off) as usize);
                }
                assert((u + off) as usize == i as usize);
            }
        }
        assert(s.inv_roots());
        assert forall|j: int| #![trigger s.root_at(j)] 0 <= j < s.root_count() implies s.key_at(
            s.min_idx(),
        ) <= s.key_at(s.root_at(j)) by {
            if receiver_first {
                if s.root_count() > 0 {
                    if prev.roots@.len() > 0 {
                        assert(s.roots@[0] == prev.roots@[0]);
                        assert(s.key_at(s.min_idx()) == prev.key_at(prev.min_idx()));
                        if j < prev.roots@.len() {
                            assert(s.roots@[j] == prev.roots@[j]);
                            assert(prev.key_at(prev.min_idx()) <= prev.key_at(prev.root_at(j)));
                        } else {
                            assert(s.roots@[j] == sh[j - prev.roots@.len()]);
                            assert(s.key_at(s.root_at(j)) == o.key_at(o.root_at(
                                j - prev.roots@.len(),
                            )));
                            assert(o.key_at(o.min_idx()) <= o.key_at(o.root_at(
                                j - prev.roots@.len(),
                            )));
                        }
                    } else {
                        assert(sh.len() == 0);
                    }
                }
            } else {
                if prev.roots@.len() == 0 {
                    assert(s.roots@[j] == sh[j]);
                    assert(s.roots@[0] == sh[0]);
                    assert(s.key_at(s.min_idx()) == o.key_at(o.min_idx()));
                    assert(s.key_at(s.root_at(j)) == o.key_at(o.root_at(j)));
                    assert(o.key_at(o.min_idx()) <= o.key_at(o.root_at(j)));
                } else {
                    assert(s.roots@[0] == sh[0]);
                    assert(s.key_at(s.min_idx()) == o.key_at(o.min_idx()));
                    if j < sh.len() {
                        assert(s.roots@[j] == sh[j]);
                        assert(s.key_at(s.root_at(j)) == o.key_at(o.root_at(j)));
                        assert(o.key_at(o.min_idx()) <= o.key_at(o.root_at(j)));
                    } else {
                        assert(s.roots@[j] == prev.roots@[j - sh.len()]);
                        assert(s.key_at(s.root_at(j)) == prev.key_at(prev.root_at(j - sh.len())));
                        assert(prev.key_at(prev.min_idx()) <= prev.key_at(
                            prev.root_at(j - sh.len()),
                        ));
                        assert(o.key_at(o.min_idx()) < prev.key_at(prev.min_idx()));
                    }
                }
            }
        }
    }

    /// After a meld the receiver's ancestor chains are untouched and still
    /// well formed.
    #[verifier::rlimit(100)]
    proof fn lemma_meld_paths_receiver(prev: Self, o: Self, s: Self, off: int)
        requires
            prev.inv_paths(),
            off + o.nodes@.len() <= usize::MAX,
            Self::meld_shifted(prev, o.nodes@, s, off),
            s.paths@ == Map::<int, Seq<usize>>::new(
                |i: int| (0 <= i < off && prev.paths@.dom().contains(i)) || (off <= i
                    && o.paths@.dom().contains(i - off)),
                |i: int|
                    if i < off {
                        prev.paths@[i]
                    } else {
                        o.paths@[i - off].map_values(|c: usize| (c + off) as usize)
                    },
            ),
        ensures
            forall|i: int|
                #![trigger s.paths@[i]]
                s.live(i) && i < off ==> {
                    &&& s.path_ok(i, s.paths@[i])
                    &&& (s.parent_of(i) is Some ==> s.paths@[i].len() >= 2
                        && s.paths@[i].drop_first() == s.paths@[s.parent_of(i)->Some_0 as int])
                    &&& (s.parent_of(i) is None ==> s.paths@[i].len() == 1)
                },
    {
        let pmn = s.paths@;
        assert forall|i: int| #![trigger pmn[i]] s.live(i) && i < off implies {
            &&& s.path_ok(i, pmn[i])
            &&& (s.parent_of(i) is Some ==> pmn[i].len() >= 2 && pmn[i].drop_first() == pmn[s.parent_of(
                i,
            )->Some_0 as int])
            &&& (s.parent_of(i) is None ==> pmn[i].len() == 1)
        } by {
            assert(prev.live(i));
            let q = prev.paths@[i];
            assert(prev.path_ok(i, q));
            assert(pmn[i] == q);
            assert forall|j: int| #![trigger q[j]] 0 <= j < q.len() implies s.live(q[j] as int)
                && s.nodes@[q[j] as int] == prev.nodes@[q[j] as int] by {
                assert(prev.live(q[j] as int));
            }
            assert(s.parent_of(q.last() as int) is None) by {
                assert(q[q.len() - 1] == q.last());
            }
            assert forall|j1: int, j2: int|
                #![trigger q[j1], q[j2]]
                0 <= j1 <= j2 < q.len() implies s.key_at(q[j2] as int) <= s.key_at(
                q[j1] as int,
            ) by {
                assert(prev.key_at(q[j2] as int) <= prev.key_at(q[j1] as int));
            }
            assert(s.path_ok(i, q));
            if s.parent_of(i) is Some {
                assert(prev.parent_of(i) == s.parent_of(i));
                let pi = s.parent_of(i)->Some_0 as int;
                assert(q.drop_first() == prev.paths@[pi]);
                assert(prev.live(pi) && pi < off);
                assert(pmn[pi] == prev.paths@[pi]);
            }
        }
    }

    /// After a meld, the elements of one donated chain, shifted by `off`,
    /// mirror the original chain's liveness, keys and links.
    #[verifier::rlimit(100)]
    proof fn lemma_meld_donated_seq(prev: Self, o: Self, s: Self, off: int, i: int)
        requires
            o.inv_paths(),
            off + o.nodes@.len() <= usize::MAX,
            Self::meld_shifted(prev, o.nodes@, s, off),
            s.live(i),
            i >= off,
            s.paths@[i] == o.paths@[i - off].map_values(|c: usize| (c + off) as usize),
        ensures
            o.live(i - off),
            s.paths@[i].len() == o.paths@[i - off].len(),
            forall|j: int|
                #![trigger s.paths@[i][j]]
                0 <= j < o.paths@[i - off].len() ==> s.paths@[i][j] as int == o.paths@[i - off][j]
                    + off && s.live(s.paths@[i][j] as int) && o.live(o.paths@[i - off][j] as int)
                    && s.key_at(s.paths@[i][j] as int) == o.key_at(o.paths@[i - off][j] as int),
            forall|j: int|
                #![trigger s.paths@[i][j]]
                0 <= j < o.paths@[i - off].len() - 1 ==> s.parent_of(s.paths@[i][j] as int) == Some(
                    s.paths@[i][j + 1],
                ),
            s.parent_of(s.paths@[i][o.paths@[i - off].len() - 1] as int) is None,
    {
        let u = i - off;
        assert(o.nodes@[u] == o.nodes@[u]);
        assert(o.live(u));
        let oq = o.paths@[u];
        assert(o.path_ok(u, oq));
        let q = s.paths@[i];
        assert(q.len() == oq.len());
        assert forall|j: int| #![trigger q[j]] 0 <= j < oq.len() implies q[j] as int == oq[j] + off
            && s.live(q[j] as int) && o.live(oq[j] as int) && s.key_at(q[j] as int) == o.key_at(
            oq[j] as int,
        ) by {
            assert(o.live(oq[j] as int));
            assert(o.nodes@[oq[j] as int] == o.nodes@[oq[j] as int]);
        }
        assert forall|j: int|
            #![trigger q[j]]
            0 <= j < oq.len() - 1 implies s.parent_of(q[j] as int) == Some(q[j + 1]) by {
            assert(o.parent_of(oq[j] as int) == Some(oq[j + 1]));
            assert(o.nodes@[oq[j] as int] == o.nodes@[oq[j] as int]);
            assert(s.parent_of(oq[j] + off) == Some((oq[j + 1] + off) as usize));
        }
        assert(s.parent_of(q[oq.len() - 1] as int) is None) by {
            assert(oq[oq.len() - 1] == oq.last());
            assert(o.parent_of(oq.last() as int) is None);
            assert(o.nodes@[oq.last() as int] == o.nodes@[oq.last() as int]);
        }
    }

    /// After a meld, one donated ancestor chain, shifted by `off`, is well
    /// formed.
    #[verifier::rlimit(100)]
    proof fn lemma_meld_path_donated_one(prev: Self, o: Self, s: Self, off: int, i: int)
        requires
            o.inv_paths(),
            off + o.nodes@.len() <= usize::MAX,
            Self::meld_shifted(prev, o.nodes@, s, off),
            s.live(i),
            i >= off,
            s.paths@[i] == o.paths@[i - off].map_values(|c: usize| (c + off) as usize),
            o.parent_of(i - off) is Some ==> s.paths@[o.parent_of(i - off)->Some_0 + off]
                == o.paths@[o.parent_of(i - off)->Some_0 as int].map_values(
                |c: usize| (c + off) as usize,
            ),
        ensures
            s.path_ok(i, s.paths@[i]),
            s.parent_of(i) is Some ==> s.paths@[i].len() >= 2 && s.paths@[i].drop_first()
                == s.paths@[s.parent_of(i)->Some_0 as int],
            s.parent_of(i) is None ==> s.paths@[i].len() == 1,
    {
        Self::lemma_meld_donated_seq(prev, o, s, off, i);
        let u = i - off;
        let oq = o.paths@[u];
        assert(o.path_ok(u, oq));
        let q = s.paths@[i];
        assert(q[0] as int == i);
        assert(q.no_duplicates()) by {
            assert forall|j1: int, j2: int| 0 <= j1 < j2 < q.len() implies q[j1] != q[j2] by {
                assert(oq[j1] != oq[j2]);
            }
        }
        assert forall|j1: int, j2: int|
            #![trigger q[j1], q[j2]]
            0 <= j1 <= j2 < q.len() implies s.key_at(q[j2] as int) <= s.key_at(q[j1] as int) by {
            assert(o.key_at(oq[j2] as int) <= o.key_at(oq[j1] as int));
        }
        assert(q[q.len() - 1] == q.last());
        assert(s.path_ok(i, q));
        if o.parent_of(u) is Some {
            assert(s.parent_of(i) is Some) by {
                assert(o.nodes@[u] == o.nodes@[u]);
            }
            let opi = o.parent_of(u)->Some_0 as int;
            let pi = s.parent_of(i)->Some_0 as int;
            assert(pi == opi + off) by {
                assert(o.nodes@[u] == o.nodes@[u]);
            }
            assert(oq.len() >= 2 && oq.drop_first() == o.paths@[opi]);
            assert(s.paths@[pi] == o.paths@[opi].map_values(|c: usize| (c + off) as usize));
            assert(q.drop_first() =~= o.paths@[opi].map_values(|c: usize| (c + off) as usize)) by {
                assert forall|j: int|
                    0 <= j < q.len() - 1 implies q.drop_first()[j] == o.paths@[opi].map_values(
                    |c: usize| (c + off) as usize,
                )[j] by {
                    assert(q.drop_first()[j] == q[j + 1]);
                    assert(q[j + 1] as int == oq[j + 1] + off);
                    assert(o.paths@[opi][j] == oq.drop_first()[j]);
                }
            }
        } else {
            assert(s.parent_of(i) is None) by {
                assert(o.nodes@[u] == o.nodes@[u]);
            }
            assert(oq.len() == 1);
        }
    }

    /// After a meld the donated ancestor chains, shifted by `off`, are well
    /// formed.
    proof fn lemma_meld_paths_donated(prev: Self, o: Self, s: Self, off: int)
        requires
            o.inv_paths(),
            off + o.nodes@.len() <= usize::MAX,
            Self::meld_shifted(prev, o.nodes@, s, off),
            s.paths@ == Map::<int, Seq<usize>>::new(
                |i: int| (0 <= i < off && prev.paths@.dom().contains(i)) || (off <= i
                    && o.paths@.dom().contains(i - off)),
                |i: int|
                    if i < off {
                        prev.paths@[i]
                    } else {
                        o.paths@[i - off].map_values(|c: usize| (c + off) as usize)
                    },
            ),
        ensures
            forall|i: int|
                #![trigger s.paths@[i]]
                s.live(i) && i >= off ==> {
                    &&& s.path_ok(i, s.paths@[i])
                    &&& (s.parent_of(i) is Some ==> s.paths@[i].len() >= 2
                        && s.paths@[i].drop_first() == s.paths@[s.parent_of(i)->Some_0 as int])
                    &&& (s.parent_of(i) is None ==> s.paths@[i].len() == 1)
                },
    {
        assert forall|i: int| #![trigger s.paths@[i]] s.live(i) && i >= off implies {
            &&& s.path_ok(i, s.paths@[i])
            &&& (s.parent_of(i) is Some ==> s.paths@[i].len() >= 2 && s.paths@[i].drop_first()
                == s.paths@[s.parent_of(i)->Some_0 as int])
            &&& (s.parent_of(i) is None ==> s.paths@[i].len() == 1)
        } by {
            let u = i - off;
            assert(o.live(u)) by {
                assert(o.nodes@[u] == o.nodes@[u]);
            }
            assert(o.paths@.dom().contains(u));
            assert(s.paths@[i] == o.paths@[u].map_values(|c: usize| (c + off) as usize));
            if o.parent_of(u) is Some {
                let opi = o.parent_of(u)->Some_0 as int;
                assert(o.live(opi)) by {
                    assert(o.path_ok(u, o.paths@[u]));
                    assert(o.paths@[u].len() >= 2 && o.paths@[u].drop_first() == o.paths@[opi]);
                    assert(o.paths@[u][1] == o.paths@[opi][0]);
                    assert(o.path_ok(opi, o.paths@[opi]));
                }
                assert(o.paths@.dom().contains(opi));
                assert(s.paths@[opi + off] == o.paths@[opi].map_values(
                    |c: usize| (c + off) as usize,
                ));
            }
            Self::lemma_meld_path_donated_one(prev, o, s, off, i);
        }
    }

    /// After a meld every ancestor chain of the combined heap is well formed.
    proof fn lemma_meld_paths(prev: Self, o: Self, s: Self, off: int)
        requires
            prev.inv_paths(),
            o.inv_paths(),
            off + o.nodes@.len() <= usize::MAX,
            Self::meld_shifted(prev, o.nodes@, s, off),
            s.paths@ == Map::<int, Seq<usize>>::new(
                |i: int| (0 <= i < off && prev.paths@.dom().contains(i)) || (off <= i
                    && o.paths@.dom().contains(i - off)),
                |i: int|
                    if i < off {
                        prev.paths@[i]
                    } else {
                        o.paths@[i - off].map_values(|c: usize| (c + off) as usize)
                    },
            ),
        ensures
            s.inv_paths(),
    {
        Self::lemma_meld_paths_receiver(prev, o, s, off);
        Self::lemma_meld_paths_donated(prev, o, s, off);
        let pmn = s.paths@;
        assert forall|i: int|
            #![trigger pmn.dom().contains(i)]
            pmn.dom().contains(i) <==> s.live(i) by {
            if 0 <= i < off {
                assert(prev.paths@.dom().contains(i) <==> prev.live(i));
                assert(s.nodes@[i] == prev.nodes@[i]);
            } else if off <= i < s.nodes@.len() {
                assert(o.paths@.dom().contains(i - off) <==> o.live(i - off));
                assert(o.nodes@[i - off] == o.nodes@[i - off]);
            } else if i >= s.nodes@.len() {
                assert(!(off <= i && o.paths@.dom().contains(i - off))) by {
                    if o.paths@.dom().contains(i - off) {
                        assert(o.live(i - off));
                    }
                }
            }
        }
        assert forall|i: int| #![trigger pmn[i]] s.live(i) implies {
            &&& s.path_ok(i, pmn[i])
            &&& (s.parent_of(i) is Some ==> pmn[i].len() >= 2 && pmn[i].drop_first() == pmn[s.parent_of(
                i,
            )->Some_0 as int])
            &&& (s.parent_of(i) is None ==> pmn[i].len() == 1)
        } by {
            if i < off {
            } else {
            }
        }
    }

    /// Splices another heap into this one: the donated trees join the
    /// forest, and the smaller of the two minimums stands in front, the
    /// receiver's on a tie. A handle into the donated heap refers to its old
    /// node once rebased: take `off = self.num_nodes()` before the call, and
    /// use `h.rebase(off)` afterwards; handles into the receiver need no
    /// change.
    pub fn meld(&mut self, other: FHeap<V>)
        requires
            old(self).wf(),
            other.wf(),
            old(self).node_count() + other.node_count() <= usize::MAX,
        ensures
            final(self).wf(),
            final(self).keys() == old(self).keys().add(other.keys()),
            final(self).node_count() == old(self).node_count() + other.node_count(),
            final(self).root_count() == old(self).root_count() + other.root_count(),
            forall|i: int|
                0 <= i < old(self).node_count() ==> (final(self).live(i) <==> old(self).live(i)),
            forall|i: int|
                #![trigger old(self).live(i)]
                old(self).live(i) ==> final(self).key_at(i) == old(self).key_at(i)
                    && final(self).value_at(i) == old(self).value_at(i),
            forall|i: int|
                #![trigger other.live(i)]
                other.live(i) ==> final(self).live(i + old(self).node_count())
                    && final(self).key_at(i + old(self).node_count()) == other.key_at(i)
                    && final(self).value_at(i + old(self).node_count()) == other.value_at(i),
            old(self).root_count() > 0 && other.root_count() == 0 ==> final(self).min_idx()
                == old(self).min_idx(),
            old(self).root_count() == 0 && other.root_count() > 0 ==> final(self).min_idx()
                == other.min_idx() + old(self).node_count(),
            old(self).root_count() > 0 && other.root_count() > 0 ==> final(self).min_idx() == (
            if other.key_at(other.min_idx()) < old(self).key_at(old(self).min_idx()) {
                other.min_idx() + old(self).node_count()
            } else {
                old(self).min_idx()
            }),
    {
        let ghost prev = *old(self);
        let ghost o = other;
        let off = self.nodes.len();
        let FHeap { nodes: mut other_nodes, roots: other_roots, paths: _other_paths } = other;
        let n2 = other_nodes.len();
        let ghost on0 = other_nodes@;
        // move the donated slots over, shifting their links by `off`
        let mut t: usize = 0;
        while t < n2
            invariant
                prev.wf(),
                o.wf(),
                on0 == o.nodes@,
                off == prev.nodes@.len(),
                n2 == on0.len(),
                off + n2 <= usize::MAX,
                0 <= t <= n2,
                other_nodes@ == on0.subrange(t as int, n2 as int),
                self.roots@ == prev.roots@,
                self.paths@ == prev.paths@,
                self.nodes@.len() == off + t,
                forall|i: int| #![trigger self.nodes@[i]] 0 <= i < off ==> self.nodes@[i]
                    == prev.nodes@[i],
                forall|u: int|
                    #![trigger on0[u]]
                    0 <= u < t ==> {
                        let nd = self.nodes@[off + u];
                        let od = on0[u];
                        &&& nd.live == od.live
                        &&& (od.live ==> {
                            &&& nd.key == od.key
                            &&& nd.value == od.value
                            &&& nd.marked == od.marked
                            &&& (od.parent is None ==> nd.parent is None)
                            &&& (od.parent is Some ==> nd.parent == Some(
                                (od.parent->Some_0 + off) as usize,
                            ))
                            &&& nd.children@ == od.children@.map_values(
                                |c: usize| (c + off) as usize,
                            )
                        })
                    },
                keys_of(self.nodes@) == prev.keys().add(keys_of(on0.subrange(0, t as int))),
            decreases n2 - t,
        {
            let mut nd = other_nodes.remove(0);
            proof {
                assert(on0.subrange(t as int, n2 as int)[0] == on0[t as int]);
                assert(nd == on0[t as int]);
                assert(other_nodes@ =~= on0.subrange(t as int + 1, n2 as int));
            }
            if nd.live {
                proof {
                    assert(o.live(t as int));
                }
                match nd.parent {
                    Some(p) => {
                        proof {
                            assert(o.parent_of(t as int) == Some(p));
                            assert(o.live(p as int));
                        }
                        nd.parent = Some(p + off);
                    },
                    None => {
                    },
                }
                let cl = nd.children.len();
                let mut ci: usize = 0;
                while ci < cl
                    invariant
                        o.wf(),
                        o.live(t as int),
                        on0 == o.nodes@,
                        (t as int) < on0.len(),
                        off + on0.len() <= usize::MAX,
                        cl == o.children_of(t as int).len(),
                        nd.children@.len() == cl,
                        nd.live == on0[t as int].live,
                        nd.key == on0[t as int].key,
                        nd.value == on0[t as int].value,
                        nd.marked == on0[t as int].marked,
                        on0[t as int].parent is None ==> nd.parent is None,
                        on0[t as int].parent is Some ==> nd.parent == Some(
                            (on0[t as int].parent->Some_0 + off) as usize,
                        ),
                        0 <= ci <= cl,
                        forall|jc: int|
                            #![trigger nd.children@[jc]]
                            0 <= jc < ci ==> nd.children@[jc] == (o.children_of(t as int)[jc]
                                + off) as usize,
                        forall|jc: int|
                            #![trigger nd.children@[jc]]
                            ci <= jc < cl ==> nd.children@[jc] == o.children_of(t as int)[jc],
                    decreases cl - ci,
                {
                    let cv = nd.children[ci];
                    proof {
                        assert(o.children_of(t as int)[ci as int] == cv);
                        assert(o.children_of(t as int).contains(cv));
                        assert(o.live(cv as int));
                    }
                    nd.children[ci] = cv + off;
                    ci += 1;
                }
                proof {
                    assert(nd.children@ =~= o.children_of(t as int).map_values(
                        |c: usize| (c + off) as usize,
                    ));
                }
            } else {
                nd = FibNode {
                    live: false,
                    key: 0,
                    value: None,
                    parent: None,
                    children: Vec::new(),
                    marked: false,
                };
            }
            proof {
                lemma_keys_push(self.nodes@, nd);
                assert(nd.live == on0[t as int].live);
                if on0[t as int].live {
                    assert(nd.key == on0[t as int].key);
                }
                assert(key_contrib(nd) == key_contrib(on0[t as int]));
                assert(on0.subrange(0, t as int + 1).drop_last() =~= on0.subrange(0, t as int));
                assert(on0.subrange(0, t as int + 1).last() == on0[t as int]);
                assert(keys_of(on0.subrange(0, t as int + 1)) == keys_of(
                    on0.subrange(0, t as int),
                ).add(key_contrib(on0[t as int])));
            }
            let ghost nd_snap = nd;
            self.nodes.push(nd);
            proof {
                assert(self.nodes@[off + t as int] == nd_snap);
                assert forall|v: u64|
                    keys_of(self.nodes@).count(v) == prev.keys().add(
                        keys_of(on0.subrange(0, t as int + 1)),
                    ).count(v) by {}
                assert(keys_of(self.nodes@) =~= prev.keys().add(
                    keys_of(on0.subrange(0, t as int + 1)),
                ));
                assert forall|u: int| #![trigger on0[u]] 0 <= u < t + 1 implies {
                    let ndx = self.nodes@[off + u];
                    let od = on0[u];
                    &&& ndx.live == od.live
                    &&& (od.live ==> {
                        &&& ndx.key == od.key
                        &&& ndx.value == od.value
                        &&& ndx.marked == od.marked
                        &&& (od.parent is None ==> ndx.parent is None)
                        &&& (od.parent is Some ==> ndx.parent == Some(
                            (od.parent->Some_0 + off) as usize,
                        ))
                        &&& ndx.children@ == od.children@.map_values(|c: usize| (c + off) as usize)
                    })
                } by {
                    if u == t as int {
                        assert(self.nodes@[off + u] == nd_snap);
                    }
                }
            }
            t += 1;
        }
        proof {
            assert(on0.subrange(0, n2 as int) =~= on0);
            assert(keys_of(self.nodes@) == prev.keys().add(o.keys()));
            assert(Self::meld_shifted(prev, on0, FHeap {
                nodes: self.nodes,
                roots: self.roots,
                paths: self.paths,
            }, off as int));
        }
        // shift the donated forest list
        let orl = other_roots.len();
        let mut oroots: Vec<usize> = Vec::new();
        let mut ri: usize = 0;
        while ri < orl
            invariant
                o.wf(),
                on0 == o.nodes@,
                other_roots@ == o.roots@,
                orl == o.roots@.len(),
                off + on0.len() <= usize::MAX,
                0 <= ri <= orl,
                oroots@.len() == ri,
                forall|j: int|
                    #![trigger oroots@[j]]
                    0 <= j < ri ==> oroots@[j] == (o.roots@[j] + off) as usize,
            decreases orl - ri,
        {
            let rv = other_roots[ri];
            proof {
                assert(o.is_root(o.root_at(ri as int)));
            }
            oroots.push(rv + off);
            ri += 1;
        }
        // splice, keeping the smaller minimum in front
        let ghost shifted = o.roots@.map_values(|r: usize| (r + off) as usize);
        proof {
            assert(oroots@ =~= shifted);
        }
        let ghost receiver_first: bool;
        if self.roots.len() == 0 {
            self.roots = oroots;
            proof {
                receiver_first = false;
                assert(self.roots@ =~= shifted + prev.roots@);
            }
        } else if orl == 0 {
            proof {
                receiver_first = true;
                assert(shifted.len() == 0);
                assert(self.roots@ =~= prev.roots@ + shifted);
            }
        } else {
            proof {
                assert(prev.is_root(prev.root_at(0)));
                assert(o.is_root(o.root_at(0)));
                assert(self.nodes@[prev.roots@[0] as int] == prev.nodes@[prev.roots@[0] as int]);
                assert(oroots@[0] == (o.roots@[0] + off) as usize);
            }
            let a = self.roots[0];
            let b = oroots[0];
            proof {
                assert(a as int == prev.min_idx());
                assert(b as int == o.min_idx() + off);
                assert(self.nodes@[b as int].key == o.key_at(o.min_idx()));
            }
            if self.nodes[a].key <= self.nodes[b].key {
                self.roots.append(&mut oroots);
                proof {
                    receiver_first = true;
                    assert(self.roots@ == prev.roots@ + shifted);
                }
            } else {
                oroots.append(&mut self.roots);
                self.roots = oroots;
                proof {
                    receiver_first = false;
                    assert(self.roots@ == shifted + prev.roots@);
                }
            }
        }
        proof {
            self.paths = Ghost(
                Map::<int, Seq<usize>>::new(
                    |i: int| (0 <= i < off && prev.paths@.dom().contains(i)) || (off <= i
                        && o.paths@.dom().contains(i - off)),
                    |i: int|
                        if i < off {
                            prev.paths@[i]
                        } else {
                            o.paths@[i - off].map_values(|c: usize| (c + off) as usize)
                        },
                ),
            );
        }
        proof {
            let s = *self;
            assert(Self::meld_shifted(prev, on0, s, off as int));
            Self::lemma_meld_nodes_a(prev, o, s, off as int);
            Self::lemma_meld_nodes_b(prev, o, s, off as int);
            assert(s.inv_nodes());
            Self::lemma_meld_roots(prev, o, s, off as int, receiver_first);
            Self::lemma_meld_paths(prev, o, s, off as int);
            assert(s.wf());
            assert(s.keys() == prev.keys().add(o.keys()));
            assert forall|i: int| #![trigger o.live(i)] o.live(i) implies s.live(i + off)
                && s.key_at(i + off) == o.key_at(i) && s.value_at(i + off) == o.value_at(i) by {
                assert(s.live(i + off) <==> o.live(i));
            }
            if prev.roots@.len() > 0 && o.roots@.len() > 0 {
                if o.key_at(o.min_idx()) < prev.key_at(prev.min_idx()) {
                    assert(!receiver_first);
                    assert(s.roots@[0] == (o.roots@[0] + off) as usize);
                    assert(o.is_root(o.root_at(0)));
                } else {
                    assert(receiver_first);
                    assert(s.roots@[0] == prev.roots@[0]);
                }
            } else if prev.roots@.len() > 0 {
                assert(receiver_first);
                assert(s.roots@[0] == prev.roots@[0]);
            } else if o.roots@.len() > 0 {
                assert(!receiver_first);
                assert(s.roots@[0] == (o.roots@[0] + off) as usize);
                assert(o.is_root(o.root_at(0)));
            }
        }
    }


    /// How many arena slots the heap has ever created; the offset by which
    /// a donated handle must be rebased after a meld into this heap.
    pub fn num_nodes(&self) -> (n: usize)
        ensures
            n as int == self.node_count(),
    {
        self.nodes.len()
    }

    /// How many trees the forest currently has.
    pub fn num_roots(&self) -> (n: usize)
        ensures
            n as int == self.root_count(),
    {
        self.roots.len()
    }

    /// The key of the node behind `h`, or `StaleHandle`.
    pub fn key(&self, h: FibEntry) -> (r: Result<u64, HeapError>)
        requires
            self.wf(),
        ensures
            self.valid(h) ==> r == Ok::<u64, HeapError>(self.key_at(h.id())),
            !self.valid(h) ==> r == Err::<u64, HeapError>(HeapError::StaleHandle),
    {
        if h.idx >= self.nodes.len() {
            return Err(HeapError::StaleHandle);
        }
        if !self.nodes[h.idx].live {
            return Err(HeapError::StaleHandle);
        }
        Ok(self.nodes[h.idx].key)
    }

    /// A borrow of the payload of the node behind `h`, or `StaleHandle`.
    pub fn value(&self, h: FibEntry) -> (r: Result<&V, HeapError>)
        requires
            self.wf(),
        ensures
            self.valid(h) ==> r is Ok && *r->Ok_0 == self.value_at(h.id()),
            !self.valid(h) ==> r == Err::<&V, HeapError>(HeapError::StaleHandle),
    {
        if h.idx >= self.nodes.len() {
            return Err(HeapError::StaleHandle);
        }
        if !self.nodes[h.idx].live {
            return Err(HeapError::StaleHandle);
        }
        proof {
            assert(self.live(h.id()));
        }
        Ok(self.nodes[h.idx].value.as_ref().unwrap())
    }

    /// Whether the node behind `h` is marked, or `StaleHandle`.
    pub fn mark(&self, h: FibEntry) -> (r: Result<bool, HeapError>)
        requires
            self.wf(),
        ensures
            self.valid(h) ==> r == Ok::<bool, HeapError>(self.marked_at(h.id())),
            !self.valid(h) ==> r == Err::<bool, HeapError>(HeapError::StaleHandle),
    {
        if h.idx >= self.nodes.len() {
            return Err(HeapError::StaleHandle);
        }
        if !self.nodes[h.idx].live {
            return Err(HeapError::StaleHandle);
        }
        Ok(self.nodes[h.idx].marked)
    }

    /// A handle to the parent of the node behind `h`, `None` for a root, or
    /// `StaleHandle`.
    pub fn parent(&self, h: FibEntry) -> (r: Result<Option<FibEntry>, HeapError>)
        requires
            self.wf(),
        ensures
            !self.valid(h) ==> r == Err::<Option<FibEntry>, HeapError>(HeapError::StaleHandle),
            self.valid(h) ==> {
                &&& r is Ok
                &&& (self.parent_of(h.id()) is None <==> r->Ok_0 is None)
                &&& (self.parent_of(h.id()) is Some ==> r->Ok_0 is Some && r->Ok_0->Some_0.id()
                    == self.parent_of(h.id())->Some_0 as int && self.valid(r->Ok_0->Some_0))
            },
    {
        if h.idx >= self.nodes.len() {
            return Err(HeapError::StaleHandle);
        }
        if !self.nodes[h.idx].live {
            return Err(HeapError::StaleHandle);
        }
        match self.nodes[h.idx].parent {
            None => Ok(None),
            Some(p) => {
                proof {
                    assert(self.live(p as int)) by {
                        assert(self.parent_of(h.id()) is Some);
                    }
                }
                Ok(Some(FibEntry { idx: p }))
            },
        }
    }

    /// The rank of the node behind `h` (how many children it has), or
    /// `StaleHandle`.
    pub fn rank(&self, h: FibEntry) -> (r: Result<usize, HeapError>)
        requires
            self.wf(),
        ensures
            self.valid(h) ==> r is Ok && r->Ok_0 as int == self.rank_of(h.id()),
            !self.valid(h) ==> r == Err::<usize, HeapError>(HeapError::StaleHandle),
    {
        if h.idx >= self.nodes.len() {
            return Err(HeapError::StaleHandle);
        }
        if !self.nodes[h.idx].live {
            return Err(HeapError::StaleHandle);
        }
        Ok(self.nodes[h.idx].children.len())
    }

    /// A copy of the minimum key with a borrow of its payload, or `EmptyHeap`
    /// when the heap has no nodes. The returned key is a smallest element of
    /// the key multiset.
    pub fn find_min(&self) -> (r: Result<(u64, &V), HeapError>)
        requires
            self.wf(),
        ensures
            self.root_count() == 0 ==> r == Err::<(u64, &V), HeapError>(HeapError::EmptyHeap),
            self.root_count() > 0 ==> {
                &&& r is Ok
                &&& r->Ok_0.0 == self.key_at(self.min_idx())
                &&& *r->Ok_0.1 == self.value_at(self.min_idx())
                &&& self.keys().contains(r->Ok_0.0)
                &&& forall|k2: u64| self.keys().contains(k2) ==> r->Ok_0.0 <= k2
            },
    {
        if self.roots.len() == 0 {
            Err(HeapError::EmptyHeap)
        } else {
            let m = self.roots[0];
            proof {
                self.lemma_min_front_smallest();
                assert forall|k2: u64| self.keys().contains(k2) implies self.key_at(
                    self.min_idx(),
                ) <= k2 by {
                    self.lemma_keys_are_live_keys(k2);
                    let i = choose|i: int|
                        #![trigger self.live(i)]
                        self.live(i) && self.key_at(i) == k2;
                    assert(self.key_at(self.min_idx()) <= self.key_at(i));
                }
            }
            proof {
                assert(self.live(m as int));
            }
            let k = self.nodes[m].key;
            let v = self.nodes[m].value.as_ref().unwrap();
            Ok((k, v))
        }
    }
}




} // verus!
