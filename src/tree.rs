//! An arena-backed tree of constraints addressed by stable keys.
//!
//! Each slot of the arena carries a version that is bumped whenever its node
//! is removed, so a key of a removed node never addresses a later node that
//! reuses the slot.
use crate::geometry::Constraint;
use vstd::prelude::*;

verus! {

/// An opaque, stable handle to a node of a [`Tree`].
#[derive(Debug, Clone, Copy, PartialEq, Eq, Structural, Hash)]
pub struct ConstraintKey {
    index: usize,
    version: u64,
}

impl ConstraintKey {
    /// The arena slot that the key addresses.
    pub closed spec fn slot(self) -> int {
        self.index as int
    }

    /// The arena slot that the key addresses.
    pub fn slot_index(self) -> (r: usize)
        ensures
            r == self.slot(),
    {
        self.index
    }
}

/// A node: its constraint, its parent and its children in order.
#[derive(Debug, Clone, PartialEq)]
pub struct Node {
    pub value: Constraint,
    pub parent_key: Option<ConstraintKey>,
    pub child_keys: Vec<ConstraintKey>,
}

#[derive(Debug, Clone)]
struct Slot {
    version: u64,
    node: Option<Node>,
}

/// A single-rooted tree of constraints.
#[derive(Clone)]
pub struct Tree {
    slots: Vec<Slot>,
    free: Vec<usize>,
    root: Option<ConstraintKey>,
    depths: Ghost<Map<ConstraintKey, nat>>,
    depth_bound: Ghost<nat>,
}

/// `order` holds the keys of `current`, each once, perhaps in another order.
pub open spec fn permutes(order: Seq<ConstraintKey>, current: Seq<ConstraintKey>) -> bool {
    &&& order.len() == current.len()
    &&& order.no_duplicates()
    &&& forall|x: ConstraintKey| order.contains(x) <==> current.contains(x)
}

impl Tree {
    /// Whether `k` addresses a node of the tree.
    pub closed spec fn live(&self, k: ConstraintKey) -> bool {
        &&& k.index < self.slots@.len()
        &&& self.slots@[k.index as int].node is Some
        &&& self.slots@[k.index as int].version == k.version
    }

    /// The node that `k` addresses (meaningful where `live(k)`).
    pub closed spec fn node(&self, k: ConstraintKey) -> Node {
        self.slots@[k.index as int].node->Some_0
    }

    /// Distance of a node from the root.
    pub closed spec fn depth(&self, k: ConstraintKey) -> nat {
        self.depths@[k]
    }

    /// A bound that every depth stays under.
    pub closed spec fn depth_bound(&self) -> nat {
        self.depth_bound@
    }

    /// The root, if the tree has one.
    pub closed spec fn root_spec(&self) -> Option<ConstraintKey> {
        self.root
    }

    /// The parent of `k`.
    pub open spec fn parent_of(&self, k: ConstraintKey) -> Option<ConstraintKey> {
        self.node(k).parent_key
    }

    /// The children of `k`, in order.
    pub open spec fn children_of(&self, k: ConstraintKey) -> Seq<ConstraintKey> {
        self.node(k).child_keys@
    }

    /// The constraint that `k` holds.
    pub open spec fn value_of(&self, k: ConstraintKey) -> Constraint {
        self.node(k).value
    }

    /// The links between nodes agree, and depths grow by one from parent to child.
    pub open spec fn links_wf(&self) -> bool {
        &&& match self.root_spec() {
            None => forall|k: ConstraintKey| !self.live(k),
            Some(r) => self.live(r) && self.parent_of(r) is None && self.depth(r) == 0,
        }
        &&& forall|k: ConstraintKey|
            #![trigger self.live(k)]
            self.live(k) ==> {
                &&& self.parent_of(k) is None ==> self.root_spec() == Some(k)
                &&& self.depth(k) < self.depth_bound()
                &&& self.children_of(k).no_duplicates()
            }
        &&& forall|k: ConstraintKey, p: ConstraintKey|
            #![trigger self.live(k), self.parent_of(k), self.live(p)]
            self.live(k) && self.parent_of(k) == Some(p) ==> {
                &&& self.live(p)
                &&& self.children_of(p).contains(k)
                &&& self.depth(k) == self.depth(p) + 1
            }
        &&& forall|p: ConstraintKey, i: int|
            #![trigger self.live(p), self.children_of(p)[i]]
            self.live(p) && 0 <= i < self.children_of(p).len() ==> {
                &&& self.live(self.children_of(p)[i])
                &&& self.parent_of(self.children_of(p)[i]) == Some(p)
            }
    }

    /// Every free slot is empty and in range, listed once, with a version
    /// that can still move on.
    pub closed spec fn slots_wf(&self) -> bool {
        &&& self.free@.no_duplicates()
        &&& forall|i: int|
            0 <= i < self.free@.len() ==> {
                &&& #[trigger] self.free@[i] < self.slots@.len()
                &&& self.slots@[self.free@[i] as int].node is None
                &&& self.slots@[self.free@[i] as int].version < u64::MAX
            }
    }

    /// The tree is well formed.
    pub open spec fn wf(&self) -> bool {
        self.slots_wf() && self.links_wf()
    }

    /// Whether `x` lies in the subtree rooted at `a` (`a` included).
    pub open spec fn in_subtree(&self, x: ConstraintKey, a: ConstraintKey) -> bool
        decreases self.depth(x),
    {
        self.live(x) && (x == a || match self.parent_of(x) {
            Some(p) => self.depth(p) < self.depth(x) && self.in_subtree(p, a),
            None => false,
        })
    }

    /// Every other node is as it was.
    pub open spec fn same_node(&self, other: &Tree, k: ConstraintKey) -> bool {
        &&& self.live(k) == other.live(k)
        &&& self.live(k) ==> self.node(k) == other.node(k) && self.depth(k) == other.depth(k)
    }

    /// The number of slots of the arena.
    pub closed spec fn slot_count(&self) -> int {
        self.slots@.len() as int
    }

    /// The key that addresses slot `j` now.
    pub closed spec fn key_at(&self, j: int) -> ConstraintKey {
        ConstraintKey { index: j as usize, version: self.slots@[j].version }
    }

    /// The number of slots of the arena.
    pub fn slot_len(&self) -> (r: usize)
        ensures
            r == self.slot_count(),
    {
        self.slots.len()
    }

    /// A key of the tree addresses its own slot.
    pub proof fn lemma_slot(&self, x: ConstraintKey)
        requires
            self.live(x),
        ensures
            0 <= x.slot() < self.slot_count(),
            self.key_at(x.slot()) == x,
    {
    }

    /// Two children of one node have disjoint subtrees.
    pub proof fn lemma_disjoint(&self, x: ConstraintKey, a: ConstraintKey, b: ConstraintKey)
        requires
            self.wf(),
            self.in_subtree(x, a),
            self.in_subtree(x, b),
            self.depth(a) == self.depth(b),
        ensures
            a == b,
        decreases self.depth(x),
    {
        self.lemma_subtree_depth(x, a);
        self.lemma_subtree_depth(x, b);
        if x != a && x != b {
            let p = self.parent_of(x)->Some_0;
            self.lemma_disjoint(p, a, b);
        }
    }

    /// A node strictly below `p` lies below one of `p`'s children.
    pub proof fn lemma_below_child(&self, x: ConstraintKey, p: ConstraintKey)
        requires
            self.wf(),
            self.in_subtree(x, p),
            x != p,
        ensures
            exists|i: int|
                0 <= i < self.children_of(p).len() && self.in_subtree(
                    x,
                    #[trigger] self.children_of(p)[i],
                ),
        decreases self.depth(x),
    {
        let q = self.parent_of(x)->Some_0;
        self.lemma_subtree_depth(x, p);
        assert(self.live(x) && self.parent_of(x) == Some(q));
        assert(self.live(q));
        if q == p {
            assert(self.children_of(p).contains(x));
            let i = choose|i: int| 0 <= i < self.children_of(p).len() && self.children_of(p)[i] == x;
            assert(self.in_subtree(x, self.children_of(p)[i]));
        } else {
            self.lemma_below_child(q, p);
            let i = choose|i: int|
                0 <= i < self.children_of(p).len() && self.in_subtree(q, #[trigger] self.children_of(p)[i]);
            assert(self.in_subtree(x, self.children_of(p)[i]));
        }
    }

    /// The subtree of a child lies strictly below the parent.
    pub proof fn lemma_child_subtree(&self, x: ConstraintKey, c: ConstraintKey, p: ConstraintKey)
        requires
            self.wf(),
            self.live(c),
            self.parent_of(c) == Some(p),
            self.in_subtree(x, c),
        ensures
            self.in_subtree(x, p),
            x != p,
        decreases self.depth(x),
    {
        assert(self.live(p));
        assert(self.depth(c) == self.depth(p) + 1);
        assert(self.in_subtree(p, p));
        self.lemma_subtree_depth(x, c);
        if x != c {
            let q = self.parent_of(x)->Some_0;
            assert(self.live(x) && self.parent_of(x) == Some(q));
            assert(self.live(q));
            self.lemma_child_subtree(q, c, p);
        }
    }

    /// An empty tree.
    pub fn new() -> (r: Tree)
        ensures
            r.wf(),
            r.root_spec() is None,
            forall|k: ConstraintKey| !r.live(k),
    {
        Tree {
            slots: Vec::new(),
            free: Vec::new(),
            root: None,
            depths: Ghost(Map::empty()),
            depth_bound: Ghost(1),
        }
    }

    /// An empty tree with room for `capacity` nodes.
    pub fn with_capacity(capacity: usize) -> (r: Tree)
        ensures
            r.wf(),
            r.root_spec() is None,
            forall|k: ConstraintKey| !r.live(k),
    {
        Tree {
            slots: Vec::with_capacity(capacity),
            free: Vec::new(),
            root: None,
            depths: Ghost(Map::empty()),
            depth_bound: Ghost(1),
        }
    }

    /// Whether the tree has no nodes.
    pub fn is_empty(&self) -> (r: bool)
        requires
            self.wf(),
        ensures
            r == (self.root_spec() is None),
            r <==> forall|k: ConstraintKey| !self.live(k),
    {
        self.root.is_none()
    }

    /// Whether `k` addresses a node of the tree.
    pub fn contains(&self, k: ConstraintKey) -> (r: bool)
        ensures
            r == self.live(k),
    {
        k.index < self.slots.len() && self.slots[k.index].node.is_some()
            && self.slots[k.index].version == k.version
    }

    /// The key of the root, if there is one.
    pub fn root_key(&self) -> (r: Option<ConstraintKey>)
        ensures
            r == self.root_spec(),
    {
        self.root
    }

    /// The node that `k` addresses, if any.
    pub fn get(&self, k: ConstraintKey) -> (r: Option<&Node>)
        ensures
            r == (if self.live(k) {
                Some(&self.node(k))
            } else {
                None
            }),
    {
        if self.contains(k) {
            self.slots[k.index].node.as_ref()
        } else {
            None
        }
    }

    /// Every node is in the subtree of the root.
    pub proof fn lemma_root_covers(&self, x: ConstraintKey)
        requires
            self.wf(),
            self.live(x),
        ensures
            self.root_spec() is Some,
            self.in_subtree(x, self.root_spec()->Some_0),
        decreases self.depth(x),
    {
        let r = self.root_spec()->Some_0;
        if x != r {
            let p = self.parent_of(x)->Some_0;
            assert(self.parent_of(x) is Some);
            assert(self.live(p));
            self.lemma_root_covers(p);
        }
    }

    /// A node lies no higher than the root of any subtree that holds it.
    pub proof fn lemma_subtree_depth(&self, x: ConstraintKey, a: ConstraintKey)
        requires
            self.wf(),
            self.in_subtree(x, a),
        ensures
            self.depth(a) <= self.depth(x),
            self.live(a),
            self.depth(a) == self.depth(x) ==> x == a,
        decreases self.depth(x),
    {
        if x != a {
            let p = self.parent_of(x)->Some_0;
            self.lemma_subtree_depth(p, a);
        }
    }

    /// Exec check of [`Tree::in_subtree`]: walks up from `x`.
    pub fn is_within(&self, x: ConstraintKey, a: ConstraintKey) -> (r: bool)
        requires
            self.wf(),
        ensures
            r == self.in_subtree(x, a),
    {
        if !self.contains(x) {
            return false;
        }
        let mut cur = x;
        loop
            invariant
                self.wf(),
                self.live(cur),
                self.in_subtree(x, a) == self.in_subtree(cur, a),
            decreases self.depth(cur),
        {
            if cur == a {
                return true;
            }
            match self.slots[cur.index].node.as_ref().unwrap().parent_key {
                None => {
                    return false;
                },
                Some(p) => {
                    assert(self.live(p));
                    cur = p;
                },
            }
        }
    }

    /// Takes the node out of slot `i`.
    fn take_node(&mut self, i: usize) -> (n: Node)
        requires
            i < old(self).slots@.len(),
            old(self).slots@[i as int].node is Some,
        ensures
            n == old(self).slots@[i as int].node->Some_0,
            final(self).slots@ == old(self).slots@.update(
                i as int,
                Slot { version: old(self).slots@[i as int].version, node: None },
            ),
            final(self).free == old(self).free,
            final(self).root == old(self).root,
            final(self).depths == old(self).depths,
            final(self).depth_bound == old(self).depth_bound,
    {
        self.slots[i].node.take().unwrap()
    }

    /// Puts a node into slot `i`.
    fn put_node(&mut self, i: usize, n: Node)
        requires
            i < old(self).slots@.len(),
        ensures
            final(self).slots@ == old(self).slots@.update(
                i as int,
                Slot { version: old(self).slots@[i as int].version, node: Some(n) },
            ),
            final(self).free == old(self).free,
            final(self).root == old(self).root,
            final(self).depths == old(self).depths,
            final(self).depth_bound == old(self).depth_bound,
    {
        self.slots[i].node = Some(n);
    }

    /// Empties slot `i`; its version moves on, so that keys to it go stale.
    fn release(&mut self, i: usize)
        requires
            old(self).slots_wf(),
            i < old(self).slots@.len(),
            old(self).slots@[i as int].node is Some,
        ensures
            final(self).slots_wf(),
            final(self).slots@.len() == old(self).slots@.len(),
            final(self).slots@[i as int].node is None,
            forall|j: int| 0 <= j < final(self).slots@.len() && j != i
                ==> final(self).slots@[j] == old(self).slots@[j],
            final(self).root == old(self).root,
            final(self).depths == old(self).depths,
            final(self).depth_bound == old(self).depth_bound,
    {
        let ghost pre = *self;
        let version = self.slots[i].version;
        if version < u64::MAX - 1 {
            self.slots.set(i, Slot { version: version + 1, node: None });
            assert(!self.free@.contains(i)) by {
                if self.free@.contains(i) {
                    let j = choose|j: int| 0 <= j < self.free@.len() && self.free@[j] == i;
                    assert(self.free@[j] < self.slots@.len());
                }
            }
            self.free.push(i);
        } else {
            self.slots.set(i, Slot { version, node: None });
        }
        assert forall|j: int| 0 <= j < self.free@.len() implies {
            &&& #[trigger] self.free@[j] < self.slots@.len()
            &&& self.slots@[self.free@[j] as int].node is None
            &&& self.slots@[self.free@[j] as int].version < u64::MAX
        } by {
            if j < pre.free@.len() {
                assert(pre.free@[j] < pre.slots@.len());
                assert(pre.free@[j] != i);
                assert(self.free@[j] == pre.free@[j]);
            }
        }
    }

    /// Stores `n` in a free slot and hands out its key.
    fn allocate(&mut self, n: Node) -> (k: ConstraintKey)
        requires
            old(self).slots_wf(),
        ensures
            final(self).slots_wf(),
            !old(self).live(k),
            final(self).live(k),
            final(self).node(k) == n,
            forall|x: ConstraintKey| x != k ==> #[trigger] final(self).live(x) == old(self).live(x),
            forall|x: ConstraintKey|
                x != k && old(self).live(x) ==> #[trigger] final(self).node(x) == old(self).node(x),
            final(self).root == old(self).root,
            final(self).depths == old(self).depths,
            final(self).depth_bound == old(self).depth_bound,
    {
        match self.free.pop() {
            Some(i) => {
                assert(old(self).free@[old(self).free@.len() - 1] == i);
                let version = self.slots[i].version;
                self.put_node(i, n);
                let k = ConstraintKey { index: i, version };
                assert forall|j: int| 0 <= j < self.free@.len() implies {
                    &&& #[trigger] self.free@[j] < self.slots@.len()
                    &&& self.slots@[self.free@[j] as int].node is None
                    &&& self.slots@[self.free@[j] as int].version < u64::MAX
                } by {
                    assert(self.free@[j] == old(self).free@[j]);
                    assert(old(self).free@[j] != i);
                }
                k
            },
            None => {
                let i = self.slots.len();
                self.slots.push(Slot { version: 0, node: Some(n) });
                ConstraintKey { index: i, version: 0 }
            },
        }
    }

    /// Removes every node; keys handed out before go stale.
    pub fn clear(&mut self)
        requires
            old(self).wf(),
        ensures
            final(self).wf(),
            final(self).root_spec() is None,
            forall|k: ConstraintKey| !final(self).live(k),
    {
        let n = self.slots.len();
        let mut i: usize = 0;
        while i < n
            invariant
                self.slots_wf(),
                self.slots@.len() == n,
                i <= n,
                forall|j: int| 0 <= j < i ==> (#[trigger] self.slots@[j]).node is None,
            decreases n - i,
        {
            if self.slots[i].node.is_some() {
                self.release(i);
            }
            i += 1;
        }
        self.root = None;
        self.depth_bound = Ghost(1);
        assert forall|k: ConstraintKey| !self.live(k) by {
            if k.index < n {
                assert(self.slots@[k.index as int].node is None);
            }
        }
    }

    /// Replaces the whole tree by a single root holding `value`.
    pub fn insert_root_with_capacity(&mut self, value: Constraint, capacity: usize) -> (k:
        ConstraintKey)
        requires
            old(self).wf(),
        ensures
            final(self).wf(),
            final(self).root_spec() == Some(k),
            forall|x: ConstraintKey| #[trigger] final(self).live(x) <==> x == k,
            final(self).value_of(k) == value,
            final(self).parent_of(k) is None,
            final(self).children_of(k) == Seq::<ConstraintKey>::empty(),
    {
        self.clear();
        let ghost cleared = *self;
        let k = self.allocate(
            Node { value, parent_key: None, child_keys: Vec::with_capacity(capacity) },
        );
        let ghost allocated = *self;
        self.root = Some(k);
        self.depths = Ghost(self.depths@.insert(k, 0));
        self.depth_bound = Ghost(1);
        proof {
            assert forall|x: ConstraintKey| #[trigger] self.live(x) <==> x == k by {
                assert(self.live(x) == allocated.live(x));
                if x != k {
                    assert(allocated.live(x) == cleared.live(x));
                    assert(!cleared.live(x));
                }
            }
            assert(self.node(k) == allocated.node(k));
            assert(self.slots_wf());
            assert(self.depth(k) == 0);
            assert(self.children_of(k).len() == 0);
            assert forall|x: ConstraintKey, q: ConstraintKey|
                #![trigger self.live(x), self.parent_of(x), self.live(q)]
                self.live(x) && self.parent_of(x) == Some(q) implies {
                    &&& self.live(q)
                    &&& self.children_of(q).contains(x)
                    &&& self.depth(x) == self.depth(q) + 1
                } by {
                assert(x == k);
            }
            assert forall|x: ConstraintKey| #![trigger self.live(x)] self.live(x) implies {
                &&& self.parent_of(x) is None ==> self.root_spec() == Some(x)
                &&& self.depth(x) < self.depth_bound()
                &&& self.children_of(x).no_duplicates()
            } by {
                assert(x == k);
            }
            assert(self.links_wf());
            assert(self.children_of(k) =~= Seq::<ConstraintKey>::empty());
        }
        k
    }

    /// Adds a leaf holding `value` as the last child of `parent`.
    pub fn insert_with_capacity(
        &mut self,
        value: Constraint,
        parent: ConstraintKey,
        capacity: usize,
    ) -> (r: Option<ConstraintKey>)
        requires
            old(self).wf(),
        ensures
            final(self).wf(),
            final(self).root_spec() == old(self).root_spec(),
            r is Some <==> old(self).live(parent),
            r is None ==> *final(self) == *old(self),
            r matches Some(k) ==> {
                &&& !old(self).live(k)
                &&& final(self).live(k)
                &&& final(self).value_of(k) == value
                &&& final(self).parent_of(k) == Some(parent)
                &&& final(self).children_of(k) == Seq::<ConstraintKey>::empty()
                &&& final(self).children_of(parent) == old(self).children_of(parent).push(k)
                &&& final(self).value_of(parent) == old(self).value_of(parent)
                &&& final(self).parent_of(parent) == old(self).parent_of(parent)
                &&& forall|x: ConstraintKey|
                    x != k && x != parent ==> #[trigger] final(self).same_node(old(self), x)
                &&& forall|x: ConstraintKey| x != k ==> #[trigger] final(self).live(x) == old(self).live(x)
            },
    {
        if !self.contains(parent) {
            return None;
        }
        let ghost pre = *self;
        let k = self.allocate(
            Node { value, parent_key: Some(parent), child_keys: Vec::with_capacity(capacity) },
        );
        let ghost s1 = *self;
        assert(parent != k);
        assert(self.live(parent));
        assert(s1.node(parent) == pre.node(parent));
        let mut p = self.take_node(parent.index);
        p.child_keys.push(k);
        self.put_node(parent.index, p);
        let ghost s2 = *self;
        assert(self.node(parent) == p);
        assert forall|x: ConstraintKey| x.index != parent.index && s1.live(x) implies #[trigger] s2.node(x) == s1.node(x) by {}
        assert forall|x: ConstraintKey| #[trigger] s2.live(x) == s1.live(x) by {
            if x.index == parent.index {
                assert(s2.slots@[x.index as int].version == s1.slots@[x.index as int].version);
            }
        }
        let ghost d: nat = pre.depth(parent) + 1;
        self.depths = Ghost(self.depths@.insert(k, d));
        self.depth_bound = Ghost(
            if d + 1 > self.depth_bound@ {
                (d + 1) as nat
            } else {
                self.depth_bound@
            },
        );
        proof {
            assert(self.live(parent));
            assert forall|x: ConstraintKey| x != k && x != parent implies #[trigger] self.same_node(&pre, x) by {
                assert(self.live(x) == s2.live(x));
                assert(s2.live(x) == s1.live(x));
                assert(s1.live(x) == pre.live(x));
                if self.live(x) {
                    assert(x.index != parent.index);
                    assert(s2.node(x) == s1.node(x));
                    assert(self.node(x) == s2.node(x));
                }
            }
            assert(self.node(parent).child_keys@ == pre.children_of(parent).push(k));
            assert(self.children_of(parent).no_duplicates()) by {
                assert(!pre.children_of(parent).contains(k)) by {
                    if pre.children_of(parent).contains(k) {
                        let i = choose|i: int| 0 <= i < pre.children_of(parent).len() && pre.children_of(parent)[i] == k;
                        assert(pre.live(pre.children_of(parent)[i]));
                    }
                }
            }
            assert forall|x: ConstraintKey| #[trigger] self.live(x) == (pre.live(x) || x == k) by {
                assert(self.live(x) == s2.live(x));
                if x != k {
                    assert(s2.live(x) == s1.live(x));
                    assert(s1.live(x) == pre.live(x));
                }
            }
            assert forall|x: ConstraintKey| pre.live(x) && x != parent implies #[trigger] self.node(x) == pre.node(x) by {
                assert(self.same_node(&pre, x));
            }
            assert(self.parent_of(parent) == pre.parent_of(parent));
            assert(self.value_of(parent) == pre.value_of(parent));
            assert forall|x: ConstraintKey| x != k implies #[trigger] self.depth(x) == pre.depth(x) by {}
            assert forall|x: ConstraintKey, q: ConstraintKey|
                #![trigger self.live(x), self.parent_of(x), self.live(q)]
                self.live(x) && self.parent_of(x) == Some(q) implies {
                    &&& self.live(q)
                    &&& self.children_of(q).contains(x)
                    &&& self.depth(x) == self.depth(q) + 1
                } by {
                if x == k {
                    assert(self.children_of(parent)[self.children_of(parent).len() - 1] == k);
                } else {
                    assert(pre.live(x));
                    assert(pre.parent_of(x) == Some(q));
                    assert(pre.live(q));
                    assert(q != k);
                    if q == parent {
                        assert(pre.children_of(parent).contains(x));
                        let i = choose|i: int| 0 <= i < pre.children_of(parent).len() && pre.children_of(parent)[i] == x;
                        assert(self.children_of(parent)[i] == x);
                    } else {
                        assert(self.node(q) == pre.node(q));
                    }
                }
            }
            assert forall|q: ConstraintKey, i: int|
                #![trigger self.live(q), self.children_of(q)[i]]
                self.live(q) && 0 <= i < self.children_of(q).len() implies {
                    &&& self.live(self.children_of(q)[i])
                    &&& self.parent_of(self.children_of(q)[i]) == Some(q)
                } by {
                if q != k {
                    assert(pre.live(q));
                    if q == parent && i == self.children_of(q).len() - 1 {
                    } else {
                        if q != parent {
                            assert(self.node(q) == pre.node(q));
                        }
                        assert(self.children_of(q)[i] == pre.children_of(q)[i]);
                        let c = pre.children_of(q)[i];
                        assert(pre.live(c));
                        assert(pre.parent_of(c) == Some(q));
                        assert(c != k);
                        if c != parent {
                            assert(self.node(c) == pre.node(c));
                        }
                    }
                } else {
                    assert(self.children_of(k) =~= Seq::<ConstraintKey>::empty());
                }
            }
            assert forall|x: ConstraintKey| #![trigger self.live(x)] self.live(x) implies {
                &&& self.parent_of(x) is None ==> self.root_spec() == Some(x)
                &&& self.depth(x) < self.depth_bound()
                &&& self.children_of(x).no_duplicates()
            } by {
                if x != k && x != parent {
                    assert(self.node(x) == pre.node(x));
                }
                if x == k {
                    assert(self.children_of(k) =~= Seq::<ConstraintKey>::empty());
                }
            }
            assert(self.links_wf());
        }
        Some(k)
    }

    /// Replaces the value of `k`, handing back the old one.
    pub fn set(&mut self, k: ConstraintKey, value: Constraint) -> (r: Option<Constraint>)
        requires
            old(self).wf(),
        ensures
            final(self).wf(),
            final(self).root_spec() == old(self).root_spec(),
            r is Some <==> old(self).live(k),
            r is None ==> *final(self) == *old(self),
            r matches Some(v) ==> {
                &&& v == old(self).value_of(k)
                &&& final(self).live(k)
                &&& final(self).value_of(k) == value
                &&& final(self).parent_of(k) == old(self).parent_of(k)
                &&& final(self).children_of(k) == old(self).children_of(k)
                &&& final(self).depth(k) == old(self).depth(k)
                &&& forall|x: ConstraintKey| x != k ==> #[trigger] final(self).same_node(old(self), x)
            },
    {
        if !self.contains(k) {
            return None;
        }
        let ghost pre = *self;
        let mut n = self.take_node(k.index);
        let old_value = n.value;
        n.value = value;
        self.put_node(k.index, n);
        proof {
            assert forall|x: ConstraintKey| x != k implies #[trigger] self.same_node(&pre, x) by {
                if self.live(x) || pre.live(x) {
                    assert(x.index != k.index);
                }
            }
            assert(self.live(k));
            assert forall|x: ConstraintKey| #[trigger] self.live(x) == pre.live(x) by {
                if x != k {
                    assert(self.same_node(&pre, x));
                }
            }
            assert forall|x: ConstraintKey| #![trigger self.node(x)] self.live(x) ==> self.parent_of(x) == pre.parent_of(x) && self.children_of(x) == pre.children_of(x) by {
                if x != k {
                    assert(self.same_node(&pre, x));
                }
            }
        }
        Some(old_value)
    }

    /// Takes `k` out of the children of the node in slot `pi`.
    fn detach(&mut self, pi: usize, k: ConstraintKey)
        requires
            pi < old(self).slots@.len(),
            old(self).slots@[pi as int].node is Some,
            old(self).slots@[pi as int].node->Some_0.child_keys@.contains(k),
            old(self).slots@[pi as int].node->Some_0.child_keys@.no_duplicates(),
        ensures
            final(self).slots@.len() == old(self).slots@.len(),
            forall|j: int|
                0 <= j < old(self).slots@.len() && j != pi ==> #[trigger] final(self).slots@[j]
                    == old(self).slots@[j],
            final(self).slots@[pi as int].version == old(self).slots@[pi as int].version,
            final(self).slots@[pi as int].node is Some,
            final(self).slots@[pi as int].node->Some_0.value == old(
                self,
            ).slots@[pi as int].node->Some_0.value,
            final(self).slots@[pi as int].node->Some_0.parent_key == old(
                self,
            ).slots@[pi as int].node->Some_0.parent_key,
            final(self).slots@[pi as int].node->Some_0.child_keys@.no_duplicates(),
            forall|x: ConstraintKey|
                #[trigger] final(self).slots@[pi as int].node->Some_0.child_keys@.contains(x) <==> (
                old(self).slots@[pi as int].node->Some_0.child_keys@.contains(x) && x != k),
            final(self).slots@[pi as int].node->Some_0.child_keys@ == old(
                self,
            ).slots@[pi as int].node->Some_0.child_keys@.remove_value(k),
            final(self).free == old(self).free,
            final(self).root == old(self).root,
            final(self).depths == old(self).depths,
            final(self).depth_bound == old(self).depth_bound,
    {
        let mut n = self.take_node(pi);
        let ghost before = n.child_keys@;
        let mut idx: usize = 0;
        while idx < n.child_keys.len() && n.child_keys[idx] != k
            invariant
                n.child_keys@ == before,
                before.contains(k),
                idx <= before.len(),
                forall|j: int| 0 <= j < idx ==> before[j] != k,
            decreases before.len() - idx,
        {
            idx = idx + 1;
        }
        proof {
            if idx == before.len() {
                let j = choose|j: int| 0 <= j < before.len() && before[j] == k;
                assert(before[j] != k);
            }
            before.remove_ensures(idx as int);
            before.index_of_first_ensures(k);
            assert(before.index_of_first(k) == Some(idx as int)) by {
                let f = before.index_of_first(k)->Some_0;
                assert(before[f] == k);
                if f != idx as int {
                    assert(before.no_duplicates());
                }
            }
        }
        n.child_keys.remove(idx);
        proof {
            let after = n.child_keys@;
            assert forall|x: ConstraintKey| #[trigger] after.contains(x) <==> (before.contains(x) && x != k) by {
                if after.contains(x) {
                    let j = choose|j: int| 0 <= j < after.len() && after[j] == x;
                    if j < idx {
                        assert(before[j] == x);
                    } else {
                        assert(before[j + 1] == x);
                    }
                }
                if before.contains(x) && x != k {
                    let j = choose|j: int| 0 <= j < before.len() && before[j] == x;
                    if j < idx {
                        assert(after[j] == x);
                    } else {
                        assert(j != idx);
                        assert(after[j - 1] == x);
                    }
                }
            }
            assert(after.no_duplicates()) by {
                assert forall|a: int, b: int| 0 <= a < after.len() && 0 <= b < after.len() && a != b
                    implies after[a] != after[b] by {
                    let a0 = if a < idx { a } else { a + 1 };
                    let b0 = if b < idx { b } else { b + 1 };
                    assert(after[a] == before[a0]);
                    assert(after[b] == before[b0]);
                }
            }
        }
        self.put_node(pi, n);
    }

    /// Removes `k` with its whole subtree, handing back `k`'s value.
    pub fn remove(&mut self, k: ConstraintKey) -> (r: Option<Constraint>)
        requires
            old(self).wf(),
        ensures
            final(self).wf(),
            r is Some <==> old(self).live(k),
            r is None ==> *final(self) == *old(self),
            r matches Some(v) ==> {
                &&& v == old(self).value_of(k)
                &&& forall|x: ConstraintKey|
                    #[trigger] final(self).live(x) == (old(self).live(x) && !old(self).in_subtree(
                        x,
                        k,
                    ))
                &&& forall|x: ConstraintKey|
                    #![trigger final(self).node(x)]
                    final(self).live(x) ==> {
                        &&& final(self).value_of(x) == old(self).value_of(x)
                        &&& final(self).parent_of(x) == old(self).parent_of(x)
                        &&& final(self).children_of(x) == if old(self).parent_of(k) == Some(x) {
                            old(self).children_of(x).remove_value(k)
                        } else {
                            old(self).children_of(x)
                        }
                    }
                &&& final(self).root_spec() == if old(self).root_spec() == Some(k) {
                    None
                } else {
                    old(self).root_spec()
                }
            },
    {
        if !self.contains(k) {
            return None;
        }
        let ghost pre = *self;
        let value = self.slots[k.index].node.as_ref().unwrap().value;
        let parent = self.slots[k.index].node.as_ref().unwrap().parent_key;
        let n = self.slots.len();
        let mut doomed: Vec<bool> = Vec::with_capacity(n);
        let mut i: usize = 0;
        while i < n
            invariant
                *self == pre,
                self.wf(),
                n == self.slots@.len(),
                i <= n,
                doomed@.len() == i,
                forall|j: int|
                    0 <= j < i ==> #[trigger] doomed@[j] == pre.in_subtree(pre.key_at(j), k),
            decreases n - i,
        {
            let key = ConstraintKey { index: i, version: self.slots[i].version };
            let hit = self.is_within(key, k);
            doomed.push(hit);
            i = i + 1;
        }
        match parent {
            Some(p) => {
                assert(self.links_wf());
                assert(self.live(k));
                assert(self.parent_of(k) == Some(p));
                assert(self.live(p));
                assert(self.children_of(p).contains(k));
                self.detach(p.index, k);
            },
            None => {},
        }
        let ghost mid = *self;
        proof {
            assert forall|j: int| 0 <= j < n && #[trigger] doomed@[j] implies mid.slots@[j].node is Some by {
                assert(pre.live(pre.key_at(j)));
                if let Some(p) = parent {
                    if j != p.index as int {
                        assert(mid.slots@[j] == pre.slots@[j]);
                    }
                } else {
                    assert(mid.slots@[j] == pre.slots@[j]);
                }
            }
        }
        i = 0;
        while i < n
            invariant
                mid.slots@.len() == n,
                forall|j: int| 0 <= j < n && #[trigger] doomed@[j] ==> mid.slots@[j].node is Some,
                self.slots_wf(),
                n == self.slots@.len(),
                i <= n,
                doomed@.len() == n,
                forall|j: int|
                    0 <= j < n ==> if j < i && doomed@[j] {
                        (#[trigger] self.slots@[j]).node is None
                    } else {
                        self.slots@[j] == mid.slots@[j]
                    },
                self.root == mid.root,
                self.depths == mid.depths,
                self.depth_bound == mid.depth_bound,
            decreases n - i,
        {
            if doomed[i] {
                self.release(i);
            }
            i = i + 1;
        }
        if self.root == Some(k) {
            self.root = None;
        }
        proof {
            assert forall|x: ConstraintKey| #[trigger] self.live(x) == (pre.live(x) && !pre.in_subtree(x, k)) by {
                if x.index < n {
                    let j = x.index as int;
                    if pre.live(x) {
                        assert(pre.key_at(j) == x);
                    }
                    if !doomed@[j] {
                        assert(self.slots@[j] == mid.slots@[j]);
                    }
                }
            }
            assert forall|x: ConstraintKey| #![trigger self.node(x)] self.live(x) implies {
                &&& self.value_of(x) == pre.value_of(x)
                &&& self.parent_of(x) == pre.parent_of(x)
                &&& self.children_of(x) == if pre.parent_of(k) == Some(x) {
                    pre.children_of(x).remove_value(k)
                } else {
                    pre.children_of(x)
                }
            } by {
                let j = x.index as int;
                assert(pre.live(x));
                assert(pre.key_at(j) == x);
                assert(!doomed@[j]);
                assert(self.slots@[j] == mid.slots@[j]);
            }
            assert(self.root_spec() == if pre.root_spec() == Some(k) {
                None
            } else {
                pre.root_spec()
            });
            assert forall|x: ConstraintKey|
                self.live(x) && pre.parent_of(k) == Some(x) implies (#[trigger] self.children_of(x)).no_duplicates()
                    && forall|y: ConstraintKey| #[trigger] self.children_of(x).contains(y) <==> (pre.children_of(x).contains(y) && y != k) by {
                let j = x.index as int;
                assert(pre.live(x));
                assert(pre.key_at(j) == x);
                assert(!doomed@[j]);
                assert(self.slots@[j] == mid.slots@[j]);
                assert(parent == Some(x));
            }
            self.lemma_removal_wf(pre, k);
        }
        Some(value)
    }

    proof fn lemma_removal_wf(&self, pre: Tree, k: ConstraintKey)
        requires
            pre.wf(),
            pre.live(k),
            self.slots_wf(),
            self.depths == pre.depths,
            self.depth_bound == pre.depth_bound,
            forall|x: ConstraintKey| #[trigger] self.live(x) == (pre.live(x) && !pre.in_subtree(x, k)),
            forall|x: ConstraintKey|
                #![trigger self.node(x)]
                self.live(x) ==> {
                    &&& self.value_of(x) == pre.value_of(x)
                    &&& self.parent_of(x) == pre.parent_of(x)
                    &&& self.children_of(x) == if pre.parent_of(k) == Some(x) {
                        pre.children_of(x).remove_value(k)
                    } else {
                        pre.children_of(x)
                    }
                },
            forall|x: ConstraintKey|
                self.live(x) && pre.parent_of(k) == Some(x) ==> (#[trigger] self.children_of(x)).no_duplicates()
                    && forall|y: ConstraintKey| #[trigger] self.children_of(x).contains(y) <==> (pre.children_of(x).contains(y) && y != k),
            self.root_spec() == if pre.root_spec() == Some(k) {
                None
            } else {
                pre.root_spec()
            },
        ensures
            self.wf(),
    {
        assert(pre.in_subtree(k, k));
        match pre.root_spec() {
            Some(r) => {
                if r == k {
                    assert forall|x: ConstraintKey| !self.live(x) by {
                        if pre.live(x) {
                            pre.lemma_root_covers(x);
                        }
                    }
                } else {
                    assert(!pre.in_subtree(r, k));
                    assert(self.live(r));
                    assert(self.parent_of(r) == pre.parent_of(r));
                }
            },
            None => {
                assert forall|x: ConstraintKey| !self.live(x) by {
                    assert(!pre.live(x));
                }
            },
        }
        assert forall|x: ConstraintKey| #![trigger self.live(x)] self.live(x) implies {
            &&& self.parent_of(x) is None ==> self.root_spec() == Some(x)
            &&& self.depth(x) < self.depth_bound()
            &&& self.children_of(x).no_duplicates()
        } by {
            assert(self.parent_of(x) == pre.parent_of(x));
            assert(pre.live(x));
            if pre.parent_of(k) != Some(x) {
                assert(self.children_of(x) == pre.children_of(x));
            }
            if pre.parent_of(x) is None {
                assert(pre.root_spec() == Some(x));
                assert(x != k);
            }
        }
        assert forall|x: ConstraintKey, q: ConstraintKey|
            #![trigger self.live(x), self.parent_of(x), self.live(q)]
            self.live(x) && self.parent_of(x) == Some(q) implies {
                &&& self.live(q)
                &&& self.children_of(q).contains(x)
                &&& self.depth(x) == self.depth(q) + 1
            } by {
            assert(self.parent_of(x) == pre.parent_of(x));
            assert(pre.live(x));
            assert(pre.live(q) && pre.children_of(q).contains(x) && pre.depth(x) == pre.depth(q) + 1);
            if pre.in_subtree(q, k) {
                assert(pre.in_subtree(x, k));
            }
            assert(self.live(q));
            assert(self.value_of(q) == pre.value_of(q));
            assert(x != k);
            if pre.parent_of(k) != Some(q) {
                assert(self.children_of(q) == pre.children_of(q));
            }
        }
        assert forall|q: ConstraintKey, i: int|
            #![trigger self.live(q), self.children_of(q)[i]]
            self.live(q) && 0 <= i < self.children_of(q).len() implies {
                &&& self.live(self.children_of(q)[i])
                &&& self.parent_of(self.children_of(q)[i]) == Some(q)
            } by {
            let c = self.children_of(q)[i];
            assert(self.children_of(q).contains(c));
            assert(self.value_of(q) == pre.value_of(q));
            assert(pre.live(q));
            if pre.parent_of(k) != Some(q) {
                assert(self.children_of(q) == pre.children_of(q));
            }
            assert(pre.children_of(q).contains(c));
            let j = choose|j: int| 0 <= j < pre.children_of(q).len() && pre.children_of(q)[j] == c;
            assert(pre.live(c) && pre.parent_of(c) == Some(q));
            if pre.in_subtree(c, k) {
                if c != k {
                    assert(pre.in_subtree(q, k));
                }
            }
            assert(self.live(c));
            assert(self.value_of(c) == pre.value_of(c));
        }
    }

    /// Whether `v` holds `x`.
    fn holds(v: &Vec<ConstraintKey>, x: ConstraintKey) -> (r: bool)
        ensures
            r == v@.contains(x),
    {
        let mut i: usize = 0;
        while i < v.len()
            invariant
                i <= v@.len(),
                forall|j: int| 0 <= j < i ==> v@[j] != x,
            decreases v@.len() - i,
        {
            if v[i] == x {
                return true;
            }
            i = i + 1;
        }
        false
    }

    /// Whether `order` is a rearrangement of `current`.
    fn is_rearrangement(order: &Vec<ConstraintKey>, current: &Vec<ConstraintKey>) -> (r: bool)
        ensures
            r == permutes(order@, current@),
    {
        if order.len() != current.len() {
            return false;
        }
        let mut i: usize = 0;
        while i < order.len()
            invariant
                i <= order@.len(),
                forall|a: int, b: int| 0 <= a < b < i ==> order@[a] != order@[b],
                forall|a: int| 0 <= a < i ==> current@.contains(#[trigger] order@[a]),
            decreases order@.len() - i,
        {
            if !Self::holds(current, order[i]) {
                return false;
            }
            let mut j: usize = 0;
            while j < i
                invariant
                    j <= i < order@.len(),
                    forall|a: int| 0 <= a < j ==> order@[a] != order@[i as int],
                decreases i - j,
            {
                if order[j] == order[i] {
                    return false;
                }
                j = j + 1;
            }
            i = i + 1;
        }
        let mut i: usize = 0;
        while i < current.len()
            invariant
                i <= current@.len(),
                forall|a: int| 0 <= a < i ==> order@.contains(#[trigger] current@[a]),
            decreases current@.len() - i,
        {
            if !Self::holds(order, current[i]) {
                return false;
            }
            i = i + 1;
        }
        proof {
            assert forall|x: ConstraintKey| order@.contains(x) <==> current@.contains(x) by {
                if current@.contains(x) {
                    let a = choose|a: int| 0 <= a < current@.len() && current@[a] == x;
                    assert(order@.contains(current@[a]));
                }
                if order@.contains(x) {
                    let a = choose|a: int| 0 <= a < order@.len() && order@[a] == x;
                    assert(current@.contains(order@[a]));
                }
            }
        }
        true
    }

    /// Gives `k`'s children the order `order`, which must hold the same keys.
    pub fn reorder_children(&mut self, k: ConstraintKey, order: Vec<ConstraintKey>) -> (r: bool)
        requires
            old(self).wf(),
        ensures
            final(self).wf(),
            r == (old(self).live(k) && permutes(order@, old(self).children_of(k))),
            !r ==> *final(self) == *old(self),
            r ==> {
                &&& final(self).live(k)
                &&& final(self).children_of(k) == order@
                &&& final(self).value_of(k) == old(self).value_of(k)
                &&& final(self).parent_of(k) == old(self).parent_of(k)
                &&& final(self).depth(k) == old(self).depth(k)
                &&& forall|x: ConstraintKey| x != k ==> #[trigger] final(self).same_node(old(self), x)
            },
    {
        if !self.contains(k) {
            return false;
        }
        let fits = Self::is_rearrangement(&order, &self.slots[k.index].node.as_ref().unwrap().child_keys);
        if !fits {
            return false;
        }
        let ghost pre = *self;
        let mut n = self.take_node(k.index);
        n.child_keys = order;
        self.put_node(k.index, n);
        proof {
            assert forall|x: ConstraintKey| x != k implies #[trigger] self.same_node(&pre, x) by {
                if self.live(x) || pre.live(x) {
                    assert(x.index != k.index);
                }
            }
            assert(self.live(k));
            assert forall|x: ConstraintKey| #[trigger] self.live(x) == pre.live(x) by {
                if x != k {
                    assert(self.same_node(&pre, x));
                }
            }
            assert forall|x: ConstraintKey| #![trigger self.node(x)] self.live(x) ==> self.parent_of(x) == pre.parent_of(x) && self.value_of(x) == pre.value_of(x) && (x != k ==> self.children_of(x) == pre.children_of(x)) by {
                if x != k {
                    assert(self.same_node(&pre, x));
                }
            }
            assert forall|x: ConstraintKey, q: ConstraintKey|
                #![trigger self.live(x), self.parent_of(x), self.live(q)]
                self.live(x) && self.parent_of(x) == Some(q) implies {
                    &&& self.live(q)
                    &&& self.children_of(q).contains(x)
                    &&& self.depth(x) == self.depth(q) + 1
                } by {
                assert(self.parent_of(x) == pre.parent_of(x));
                assert(pre.live(q));
                assert(self.value_of(q) == pre.value_of(q));
            }
            assert forall|q: ConstraintKey, i: int|
                #![trigger self.live(q), self.children_of(q)[i]]
                self.live(q) && 0 <= i < self.children_of(q).len() implies {
                    &&& self.live(self.children_of(q)[i])
                    &&& self.parent_of(self.children_of(q)[i]) == Some(q)
                } by {
                let c = self.children_of(q)[i];
                assert(self.value_of(q) == pre.value_of(q));
                assert(pre.children_of(q).contains(c));
                let j = choose|j: int| 0 <= j < pre.children_of(q).len() && pre.children_of(q)[j] == c;
                assert(pre.live(c) && pre.parent_of(c) == Some(q));
                assert(self.value_of(c) == pre.value_of(c));
            }
        }
        true
    }

    /// The children of `x` once `k` has moved to the end of `np`'s children.
    pub open spec fn children_after_move(&self, x: ConstraintKey, k: ConstraintKey, np: ConstraintKey) -> Seq<ConstraintKey> {
        let base = if self.parent_of(k) == Some(x) {
            self.children_of(x).remove_value(k)
        } else {
            self.children_of(x)
        };
        if x == np {
            base.push(k)
        } else {
            base
        }
    }

    /// Moves `k`, with its subtree, to the end of `np`'s children; refused if
    /// either is not in the tree or `np` lies in `k`'s subtree.
    pub fn rebase(&mut self, k: ConstraintKey, np: ConstraintKey) -> (r: bool)
        requires
            old(self).wf(),
        ensures
            final(self).wf(),
            r == (old(self).live(k) && old(self).live(np) && !old(self).in_subtree(np, k)),
            !r ==> *final(self) == *old(self),
            r ==> {
                &&& forall|x: ConstraintKey| #[trigger] final(self).live(x) == old(self).live(x)
                &&& final(self).root_spec() == old(self).root_spec()
                &&& forall|x: ConstraintKey|
                    #![trigger final(self).node(x)]
                    final(self).live(x) ==> {
                        &&& final(self).value_of(x) == old(self).value_of(x)
                        &&& final(self).parent_of(x) == if x == k {
                            Some(np)
                        } else {
                            old(self).parent_of(x)
                        }
                        &&& final(self).children_of(x) == old(self).children_after_move(x, k, np)
                    }
            },
    {
        if !self.contains(k) || !self.contains(np) {
            return false;
        }
        if self.is_within(np, k) {
            return false;
        }
        let ghost pre = *self;
        let p0 = match self.slots[k.index].node.as_ref().unwrap().parent_key {
            Some(p0) => p0,
            None => {
                proof {
                    assert(self.live(k));
                    assert(self.root_spec() == Some(k));
                    self.lemma_root_covers(np);
                }
                return false;
            },
        };
        proof {
            assert(self.links_wf());
            assert(self.live(k));
            assert(self.parent_of(k) == Some(p0));
            assert(self.live(p0));
            assert(self.children_of(p0).contains(k));
            assert(pre.in_subtree(k, k));
            assert(np != k);
        }
        self.detach(p0.index, k);
        let ghost s1 = *self;
        let mut moved_to = self.take_node(np.index);
        moved_to.child_keys.push(k);
        self.put_node(np.index, moved_to);
        let ghost s2 = *self;
        let mut moved = self.take_node(k.index);
        moved.parent_key = Some(np);
        self.put_node(k.index, moved);
        let ghost delta: int = pre.depth(np) + 1 - pre.depth(k);
        self.depths = Ghost(
            Map::new(
                |x: ConstraintKey| true,
                |x: ConstraintKey|
                    if pre.in_subtree(x, k) {
                        (pre.depth(x) + delta) as nat
                    } else {
                        pre.depth(x)
                    },
            ),
        );
        self.depth_bound = Ghost((pre.depth_bound() + pre.depth(np) + 1) as nat);
        proof {
            assert forall|x: ConstraintKey| #[trigger] self.live(x) == pre.live(x) by {
                if x.index < pre.slots@.len() {
                    let j = x.index as int;
                    assert(self.slots@[j].version == pre.slots@[j].version);
                    assert(self.slots@[j].node is Some <==> pre.slots@[j].node is Some);
                }
            }
            assert forall|x: ConstraintKey|
                #![trigger self.node(x)]
                self.live(x) implies {
                    &&& self.value_of(x) == pre.value_of(x)
                    &&& self.parent_of(x) == if x == k {
                        Some(np)
                    } else {
                        pre.parent_of(x)
                    }
                    &&& self.children_of(x) == pre.children_after_move(x, k, np)
                } by {
                assert(pre.live(x));
                let j = x.index as int;
                if x != k && x != np && x != p0 {
                    assert(x.index != k.index && x.index != np.index && x.index != p0.index);
                    assert(self.slots@[j] == pre.slots@[j]);
                }
                if x == p0 && x != np {
                    assert(x.index != np.index && x.index != k.index);
                    assert(self.slots@[j] == s1.slots@[j]);
                }
                if x == np {
                    assert(x.index != k.index);
                    assert(self.slots@[j] == s2.slots@[j]);
                    if np != p0 {
                        assert(np.index != p0.index);
                        assert(s1.slots@[j] == pre.slots@[j]);
                    }
                }
                if x == k {
                    assert(k.index != np.index && k.index != p0.index);
                    assert(s2.slots@[j] == pre.slots@[j]);
                    assert(pre.parent_of(k) != Some(k));
                }
            }
            assert forall|x: ConstraintKey| self.live(x) implies (#[trigger] self.children_of(x)).no_duplicates()
                && forall|y: ConstraintKey| #[trigger] self.children_of(x).contains(y) <==> ((pre.children_of(x).contains(y) && y != k) || (x == np && y == k)) by {
                assert(self.children_of(x) == pre.children_after_move(x, k, np));
                assert(pre.live(x));
                let base = if pre.parent_of(k) == Some(x) {
                    pre.children_of(x).remove_value(k)
                } else {
                    pre.children_of(x)
                };
                if x == p0 {
                    assert(base == s1.slots@[p0.index as int].node->Some_0.child_keys@);
                    assert(pre.slots@[p0.index as int].node->Some_0.child_keys@ == pre.children_of(p0));
                }
                assert(base.no_duplicates());
                assert(forall|y: ConstraintKey| #[trigger] base.contains(y) <==> (pre.children_of(x).contains(y) && y != k)) by {
                    if x != p0 {
                        assert forall|y: ConstraintKey| #[trigger] base.contains(y) implies y != k by {
                            if y == k {
                                let i = choose|i: int| 0 <= i < pre.children_of(x).len() && pre.children_of(x)[i] == k;
                                assert(pre.parent_of(pre.children_of(x)[i]) == Some(x));
                            }
                        }
                    }
                }
                if x == np {
                    let pushed = base.push(k);
                    assert(!base.contains(k));
                    assert(pushed.no_duplicates()) by {
                        assert forall|a: int, b: int| 0 <= a < pushed.len() && 0 <= b < pushed.len() && a != b
                            implies pushed[a] != pushed[b] by {
                            if a == base.len() as int {
                                assert(base.contains(pushed[b]));
                            } else if b == base.len() as int {
                                assert(base.contains(pushed[a]));
                            }
                        }
                    }
                    assert forall|y: ConstraintKey| #[trigger] pushed.contains(y) <==> (base.contains(y) || y == k) by {
                        if pushed.contains(y) && y != k {
                            let i = choose|i: int| 0 <= i < pushed.len() && pushed[i] == y;
                            assert(base[i] == y);
                        }
                        if base.contains(y) {
                            let i = choose|i: int| 0 <= i < base.len() && base[i] == y;
                            assert(pushed[i] == y);
                        }
                        if y == k {
                            assert(pushed[base.len() as int] == k);
                        }
                    }
                }
            }
            assert forall|x: ConstraintKey|
                #[trigger] self.depth(x) == if pre.in_subtree(x, k) {
                    pre.depth(x) + pre.depth(np) + 1 - pre.depth(k)
                } else {
                    pre.depth(x) as int
                } by {
                if pre.in_subtree(x, k) {
                    pre.lemma_subtree_depth(x, k);
                }
            }
            self.lemma_move_wf(pre, k, np);
        }
        true
    }

    proof fn lemma_move_wf(&self, pre: Tree, k: ConstraintKey, np: ConstraintKey)
        requires
            pre.wf(),
            pre.live(k),
            pre.live(np),
            !pre.in_subtree(np, k),
            pre.parent_of(k) is Some,
            self.slots_wf(),
            self.root_spec() == pre.root_spec(),
            self.depth_bound() == pre.depth_bound() + pre.depth(np) + 1,
            forall|x: ConstraintKey|
                #[trigger] self.depth(x) == if pre.in_subtree(x, k) {
                    pre.depth(x) + pre.depth(np) + 1 - pre.depth(k)
                } else {
                    pre.depth(x) as int
                },
            forall|x: ConstraintKey| #[trigger] self.live(x) == pre.live(x),
            forall|x: ConstraintKey|
                #![trigger self.node(x)]
                self.live(x) ==> {
                    &&& self.value_of(x) == pre.value_of(x)
                    &&& self.parent_of(x) == if x == k {
                        Some(np)
                    } else {
                        pre.parent_of(x)
                    }
                },
            forall|x: ConstraintKey| self.live(x) ==> (#[trigger] self.children_of(x)).no_duplicates()
                && forall|y: ConstraintKey| #[trigger] self.children_of(x).contains(y) <==> ((pre.children_of(x).contains(y) && y != k) || (x == np && y == k)),
        ensures
            self.wf(),
    {
        assert(pre.in_subtree(k, k));
        let r = pre.root_spec()->Some_0;
        assert(pre.root_spec() is Some) by {
            pre.lemma_root_covers(k);
        }
        assert(self.live(r));
        assert(self.parent_of(r) == pre.parent_of(r));
        assert(r != k);
        assert(!pre.in_subtree(r, k));
        assert(self.depth(r) == 0);
        assert forall|x: ConstraintKey| #![trigger self.live(x)] self.live(x) implies {
            &&& self.parent_of(x) is None ==> self.root_spec() == Some(x)
            &&& self.depth(x) < self.depth_bound()
            &&& self.children_of(x).no_duplicates()
        } by {
            assert(self.parent_of(x) == if x == k { Some(np) } else { pre.parent_of(x) });
            assert(pre.live(x));
            if pre.in_subtree(x, k) {
                pre.lemma_subtree_depth(x, k);
            }
            assert(self.depth(x) == if pre.in_subtree(x, k) {
                pre.depth(x) + pre.depth(np) + 1 - pre.depth(k)
            } else {
                pre.depth(x) as int
            });
        }
        assert forall|x: ConstraintKey, q: ConstraintKey|
            #![trigger self.live(x), self.parent_of(x), self.live(q)]
            self.live(x) && self.parent_of(x) == Some(q) implies {
                &&& self.live(q)
                &&& self.children_of(q).contains(x)
                &&& self.depth(x) == self.depth(q) + 1
            } by {
            assert(self.parent_of(x) == if x == k { Some(np) } else { pre.parent_of(x) });
            assert(pre.live(x));
            assert(self.depth(x) == if pre.in_subtree(x, k) {
                pre.depth(x) + pre.depth(np) + 1 - pre.depth(k)
            } else {
                pre.depth(x) as int
            });
            assert(self.depth(q) == if pre.in_subtree(q, k) {
                pre.depth(q) + pre.depth(np) + 1 - pre.depth(k)
            } else {
                pre.depth(q) as int
            });
            if x == k {
                assert(q == np);
                assert(self.live(np));
                assert(self.children_of(np).contains(k));
            } else {
                assert(pre.parent_of(x) == Some(q));
                assert(pre.live(q) && pre.children_of(q).contains(x) && pre.depth(x) == pre.depth(q) + 1);
                assert(self.live(q));
                assert(self.children_of(q).contains(x));
                assert(pre.in_subtree(x, k) == pre.in_subtree(q, k));
            }
        }
        assert forall|q: ConstraintKey, i: int|
            #![trigger self.live(q), self.children_of(q)[i]]
            self.live(q) && 0 <= i < self.children_of(q).len() implies {
                &&& self.live(self.children_of(q)[i])
                &&& self.parent_of(self.children_of(q)[i]) == Some(q)
            } by {
            let c = self.children_of(q)[i];
            assert(self.children_of(q).contains(c));
            assert(pre.live(q));
            if pre.children_of(q).contains(c) && c != k {
                let j = choose|j: int| 0 <= j < pre.children_of(q).len() && pre.children_of(q)[j] == c;
                assert(pre.live(c) && pre.parent_of(c) == Some(q));
                assert(self.live(c));
                assert(self.parent_of(c) == pre.parent_of(c));
            } else {
                assert(q == np && c == k);
                assert(self.live(k));
                assert(self.parent_of(k) == Some(np));
            }
        }
    }
}

} // verus!
