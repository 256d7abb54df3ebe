//! The facade: the constraint tree, the solved frames and the dirty flag that
//! guards them.
use crate::frames::{frame_of, solve_tree};
use crate::geometry::{absolute_fill_spec, Constraint, Direction, Fill, FillType, Frame};
use crate::tree::{ConstraintKey, Node, Tree};
use vstd::prelude::*;

verus! {

/// Whether a root may hold `fill`: read against a vertical flow, both axes
/// must scale.
pub open spec fn valid_root_fill(fill: Fill) -> bool {
    absolute_fill_spec(fill, Direction::Vertical).0 is Scale && absolute_fill_spec(
        fill,
        Direction::Vertical,
    ).1 is Scale
}

/// A tree of constraints, with frames solved on demand.
#[derive(Clone)]
pub struct Solver {
    constraint_tree: Tree,
    frames: Vec<Frame>,
    is_dirty: bool,
    lengths: Ghost<(int, int)>,
}

impl Solver {
    /// The tree of constraints.
    pub closed spec fn tree(&self) -> Tree {
        self.constraint_tree
    }

    /// Whether the tree changed since the last solve.
    pub closed spec fn dirty(&self) -> bool {
        self.is_dirty
    }

    /// The lengths of the last solve.
    pub closed spec fn solved_lengths(&self) -> (int, int) {
        self.lengths@
    }

    /// What [`Solver::get_frame`] gives for `k`.
    pub open spec fn frame_spec(&self, k: ConstraintKey) -> Option<Frame> {
        if self.tree().live(k) && !self.dirty() {
            Some(frame_of(&self.tree(), k, self.solved_lengths().0, self.solved_lengths().1))
        } else {
            None
        }
    }

    /// The solver's invariant: a well-formed tree, and while it is clean and
    /// not empty, one solved frame for each of its nodes.
    pub closed spec fn wf(&self) -> bool {
        &&& self.constraint_tree.wf()
        &&& !self.is_dirty && self.constraint_tree.root_spec() is Some ==> {
            &&& self.frames@.len() == self.constraint_tree.slot_count()
            &&& forall|k: ConstraintKey|
                self.constraint_tree.live(k) ==> #[trigger] self.frames@[k.slot()] == frame_of(
                    &self.constraint_tree,
                    k,
                    self.lengths@.0,
                    self.lengths@.1,
                )
        }
    }

    /// A well-formed solver holds a well-formed tree.
    pub proof fn lemma_tree_wf(&self)
        requires
            self.wf(),
        ensures
            self.tree().wf(),
    {
    }

    /// An empty solver.
    pub fn new() -> (r: Solver)
        ensures
            r.wf(),
            !r.dirty(),
            r.tree().root_spec() is None,
            forall|k: ConstraintKey| !r.tree().live(k),
    {
        Solver {
            constraint_tree: Tree::new(),
            frames: Vec::new(),
            is_dirty: false,
            lengths: Ghost((0, 0)),
        }
    }

    /// An empty solver with room for `capacity` nodes.
    pub fn with_capacity(capacity: usize) -> (r: Solver)
        ensures
            r.wf(),
            !r.dirty(),
            r.tree().root_spec() is None,
            forall|k: ConstraintKey| !r.tree().live(k),
    {
        Solver {
            constraint_tree: Tree::with_capacity(capacity),
            frames: Vec::with_capacity(capacity),
            is_dirty: false,
            lengths: Ghost((0, 0)),
        }
    }

    /// Whether the tree has no nodes.
    pub fn is_empty(&self) -> (r: bool)
        requires
            self.wf(),
        ensures
            r == (self.tree().root_spec() is None),
            r <==> forall|k: ConstraintKey| !self.tree().live(k),
    {
        self.constraint_tree.is_empty()
    }

    /// Whether the tree changed since the last solve.
    pub fn is_dirty(&self) -> (r: bool)
        ensures
            r == self.dirty(),
    {
        self.is_dirty
    }

    /// Whether `constraint_key` addresses a node of the tree.
    pub fn contains(&self, constraint_key: ConstraintKey) -> (r: bool)
        ensures
            r == self.tree().live(constraint_key),
    {
        self.constraint_tree.contains(constraint_key)
    }

    /// Makes a single node holding `constraint` the whole tree; refused,
    /// with the tree left as it was, unless both axes of its fill scale.
    pub fn insert_root(&mut self, constraint: Constraint) -> (r: Option<ConstraintKey>)
        requires
            old(self).wf(),
        ensures
            final(self).wf(),
            r is Some <==> valid_root_fill(constraint.fill),
            r is None ==> *final(self) == *old(self),
            r matches Some(k) ==> {
                &&& final(self).dirty()
                &&& final(self).tree().root_spec() == Some(k)
                &&& forall|x: ConstraintKey| #[trigger] final(self).tree().live(x) <==> x == k
                &&& final(self).tree().value_of(k) == constraint
                &&& final(self).tree().parent_of(k) is None
                &&& final(self).tree().children_of(k) == Seq::<ConstraintKey>::empty()
            },
    {
        self.insert_root_with_capacity(constraint, 0)
    }

    /// As [`Solver::insert_root`], with room for `capacity` children.
    pub fn insert_root_with_capacity(&mut self, constraint: Constraint, capacity: usize) -> (r:
        Option<ConstraintKey>)
        requires
            old(self).wf(),
        ensures
            final(self).wf(),
            r is Some <==> valid_root_fill(constraint.fill),
            r is None ==> *final(self) == *old(self),
            r matches Some(k) ==> {
                &&& final(self).dirty()
                &&& final(self).tree().root_spec() == Some(k)
                &&& forall|x: ConstraintKey| #[trigger] final(self).tree().live(x) <==> x == k
                &&& final(self).tree().value_of(k) == constraint
                &&& final(self).tree().parent_of(k) is None
                &&& final(self).tree().children_of(k) == Seq::<ConstraintKey>::empty()
            },
    {
        let (x, y) = constraint.fill.to_absolute_fill(Direction::Vertical);
        let both_scale = match (x, y) {
            (FillType::Scale(_), FillType::Scale(_)) => true,
            _ => false,
        };
        if !both_scale {
            return None;
        }
        let key = self.constraint_tree.insert_root_with_capacity(constraint, capacity);
        self.is_dirty = true;
        Some(key)
    }

    /// Adds a leaf holding `constraint` as the last child of `parent`;
    /// `None`, with the tree left as it was, if `parent` is not in the tree.
    pub fn insert(&mut self, constraint: Constraint, parent_constraint_key: ConstraintKey) -> (r:
        Option<ConstraintKey>)
        requires
            old(self).wf(),
        ensures
            final(self).wf(),
            r is Some <==> old(self).tree().live(parent_constraint_key),
            r is None ==> *final(self) == *old(self),
            r matches Some(k) ==> {
                &&& final(self).dirty()
                &&& !old(self).tree().live(k)
                &&& final(self).tree().live(k)
                &&& final(self).tree().value_of(k) == constraint
                &&& final(self).tree().parent_of(k) == Some(parent_constraint_key)
                &&& final(self).tree().children_of(k) == Seq::<ConstraintKey>::empty()
                &&& final(self).tree().children_of(parent_constraint_key) == old(
                    self,
                ).tree().children_of(parent_constraint_key).push(k)
                &&& forall|x: ConstraintKey|
                    x != k ==> #[trigger] final(self).tree().live(x) == old(self).tree().live(x)
                &&& forall|x: ConstraintKey|
                    x != k && x != parent_constraint_key ==> #[trigger] final(self).tree().same_node(
                        &old(self).tree(),
                        x,
                    )
                &&& final(self).tree().value_of(parent_constraint_key) == old(self).tree().value_of(
                    parent_constraint_key,
                )
                &&& final(self).tree().root_spec() == old(self).tree().root_spec()
            },
    {
        self.insert_with_capacity(constraint, parent_constraint_key, 0)
    }

    /// As [`Solver::insert`], with room for `capacity` children.
    pub fn insert_with_capacity(
        &mut self,
        constraint: Constraint,
        parent_constraint_key: ConstraintKey,
        capacity: usize,
    ) -> (r: Option<ConstraintKey>)
        requires
            old(self).wf(),
        ensures
            final(self).wf(),
            r is Some <==> old(self).tree().live(parent_constraint_key),
            r is None ==> *final(self) == *old(self),
            r matches Some(k) ==> {
                &&& final(self).dirty()
                &&& !old(self).tree().live(k)
                &&& final(self).tree().live(k)
                &&& final(self).tree().value_of(k) == constraint
                &&& final(self).tree().parent_of(k) == Some(parent_constraint_key)
                &&& final(self).tree().children_of(k) == Seq::<ConstraintKey>::empty()
                &&& final(self).tree().children_of(parent_constraint_key) == old(
                    self,
                ).tree().children_of(parent_constraint_key).push(k)
                &&& forall|x: ConstraintKey|
                    x != k ==> #[trigger] final(self).tree().live(x) == old(self).tree().live(x)
                &&& forall|x: ConstraintKey|
                    x != k && x != parent_constraint_key ==> #[trigger] final(self).tree().same_node(
                        &old(self).tree(),
                        x,
                    )
                &&& final(self).tree().value_of(parent_constraint_key) == old(self).tree().value_of(
                    parent_constraint_key,
                )
                &&& final(self).tree().root_spec() == old(self).tree().root_spec()
            },
    {
        let key = self.constraint_tree.insert_with_capacity(
            constraint,
            parent_constraint_key,
            capacity,
        );
        if key.is_some() {
            self.is_dirty = true;
        }
        key
    }

    /// Removes `constraint_key` with its whole subtree, handing back its
    /// constraint; `None`, with the tree left as it was, if it is not in the
    /// tree. `size_hint`, the expected size of the subtree, needs no storage
    /// here: the arena keeps freed slots for reuse.
    pub fn remove(&mut self, constraint_key: ConstraintKey, size_hint: Option<usize>) -> (r:
        Option<Constraint>)
        requires
            old(self).wf(),
        ensures
            final(self).wf(),
            r is Some <==> old(self).tree().live(constraint_key),
            r is None ==> *final(self) == *old(self),
            r matches Some(v) ==> {
                &&& v == old(self).tree().value_of(constraint_key)
                &&& final(self).dirty()
                &&& forall|x: ConstraintKey| #[trigger]
                    final(self).tree().live(x) == (old(self).tree().live(x) && !old(
                        self,
                    ).tree().in_subtree(x, constraint_key))
                &&& final(self).tree().root_spec() == if old(self).tree().root_spec() == Some(
                    constraint_key,
                ) {
                    None
                } else {
                    old(self).tree().root_spec()
                }
            },
    {
        let old_value = self.constraint_tree.remove(constraint_key);
        if old_value.is_some() {
            self.is_dirty = true;
        }
        old_value
    }

    /// Replaces the constraint of `constraint_key`, handing back the old one;
    /// `None`, with the tree left as it was, if it is not in the tree.
    pub fn set(&mut self, constraint_key: ConstraintKey, new_constraint: Constraint) -> (r: Option<
        Constraint,
    >)
        requires
            old(self).wf(),
        ensures
            final(self).wf(),
            r is Some <==> old(self).tree().live(constraint_key),
            r is None ==> *final(self) == *old(self),
            r matches Some(v) ==> {
                &&& v == old(self).tree().value_of(constraint_key)
                &&& final(self).dirty()
                &&& final(self).tree().live(constraint_key)
                &&& final(self).tree().value_of(constraint_key) == new_constraint
                &&& final(self).tree().children_of(constraint_key) == old(self).tree().children_of(
                    constraint_key,
                )
                &&& forall|x: ConstraintKey|
                    x != constraint_key ==> #[trigger] final(self).tree().same_node(
                        &old(self).tree(),
                        x,
                    )
            },
    {
        let old_constraint = self.constraint_tree.set(constraint_key, new_constraint);
        if old_constraint.is_some() {
            self.is_dirty = true;
        }
        old_constraint
    }

    /// Reorders the children of `constraint_key` as `get_reordered` says, given
    /// their current order; refused, with the tree left as it was, if the key
    /// is not in the tree or the new order does not hold the same keys.
    pub fn reorder_children<F>(&mut self, constraint_key: ConstraintKey, get_reordered_constraint_keys: F) -> (r: bool) where
        F: FnOnce(&Vec<ConstraintKey>) -> Vec<ConstraintKey>,

        requires
            old(self).wf(),
            forall|keys: &Vec<ConstraintKey>| get_reordered_constraint_keys.requires((keys,)),
        ensures
            final(self).wf(),
            !old(self).tree().live(constraint_key) ==> !r,
            !r ==> *final(self) == *old(self),
            old(self).tree().live(constraint_key) ==> exists|order: Vec<ConstraintKey>|
                #![trigger get_reordered_constraint_keys.ensures((&old(self).tree().node(constraint_key).child_keys,), order)]
                get_reordered_constraint_keys.ensures((&old(self).tree().node(constraint_key).child_keys,), order)
                    && r == crate::tree::permutes(order@, old(self).tree().children_of(constraint_key))
                    && (r ==> final(self).tree().children_of(constraint_key) == order@),
            r ==> {
                &&& final(self).dirty()
                &&& final(self).tree().live(constraint_key)
                &&& final(self).tree().value_of(constraint_key) == old(self).tree().value_of(constraint_key)
                &&& forall|x: ConstraintKey|
                    x != constraint_key ==> #[trigger] final(self).tree().same_node(
                        &old(self).tree(),
                        x,
                    )
            },
    {
        let order = match self.constraint_tree.get(constraint_key) {
            Some(node) => get_reordered_constraint_keys(&node.child_keys),
            None => {
                return false;
            },
        };
        let did_reorder = self.constraint_tree.reorder_children(constraint_key, order);
        if did_reorder {
            self.is_dirty = true;
        }
        did_reorder
    }

    /// Moves `constraint_key`, with its subtree, to the end of the children of
    /// `new_parent_constraint_key`; refused, with the tree left as it was, if
    /// either key is not in the tree or the move would put a node below itself.
    pub fn rebase(&mut self, constraint_key: ConstraintKey, new_parent_constraint_key: ConstraintKey) -> (r: bool)
        requires
            old(self).wf(),
        ensures
            final(self).wf(),
            r == (old(self).tree().live(constraint_key) && old(self).tree().live(new_parent_constraint_key)
                && !old(self).tree().in_subtree(new_parent_constraint_key, constraint_key)),
            !r ==> *final(self) == *old(self),
            r ==> {
                &&& final(self).dirty()
                &&& forall|x: ConstraintKey| #[trigger] final(self).tree().live(x) == old(self).tree().live(x)
                &&& final(self).tree().parent_of(constraint_key) == Some(new_parent_constraint_key)
                &&& forall|x: ConstraintKey|
                    #![trigger final(self).tree().node(x)]
                    final(self).tree().live(x) ==> {
                        &&& final(self).tree().value_of(x) == old(self).tree().value_of(x)
                        &&& x != constraint_key ==> final(self).tree().parent_of(x) == old(self).tree().parent_of(x)
                        &&& final(self).tree().children_of(x) == old(self).tree().children_after_move(
                            x,
                            constraint_key,
                            new_parent_constraint_key,
                        )
                    }
            },
    {
        let did_rebase = self.constraint_tree.rebase(constraint_key, new_parent_constraint_key);
        if did_rebase {
            self.is_dirty = true;
        }
        did_rebase
    }

    /// Empties the tree; the solver is then clean, with no frames.
    pub fn clear(&mut self)
        requires
            old(self).wf(),
        ensures
            final(self).wf(),
            !final(self).dirty(),
            final(self).tree().root_spec() is None,
            forall|k: ConstraintKey| !final(self).tree().live(k),
    {
        self.constraint_tree.clear();
        self.frames = Vec::new();
        self.is_dirty = false;
    }

    /// The key of the root, if there is one.
    pub fn root_constraint_key(&self) -> (r: Option<ConstraintKey>)
        ensures
            r == self.tree().root_spec(),
    {
        self.constraint_tree.root_key()
    }

    /// The root's key and node, if there is a root.
    pub fn root_constraint_key_value(&self) -> (r: Option<(ConstraintKey, &Node)>)
        requires
            self.wf(),
        ensures
            r matches Some(p) ==> self.tree().root_spec() == Some(p.0) && *p.1 == self.tree().node(
                p.0,
            ),
            r is None <==> self.tree().root_spec() is None,
    {
        match self.constraint_tree.root_key() {
            Some(key) => match self.constraint_tree.get(key) {
                Some(node) => Some((key, node)),
                None => None,
            },
            None => None,
        }
    }

    /// The node of `constraint_key`: its constraint and its children in order.
    pub fn get(&self, constraint_key: ConstraintKey) -> (r: Option<&Node>)
        ensures
            r == (if self.tree().live(constraint_key) {
                Some(&self.tree().node(constraint_key))
            } else {
                None
            }),
    {
        self.constraint_tree.get(constraint_key)
    }

    /// The solved frame of `constraint_key`; `None` if it is not in the tree
    /// or the tree changed since the last solve.
    pub fn get_frame(&self, constraint_key: ConstraintKey) -> (r: Option<Frame>)
        requires
            self.wf(),
        ensures
            r == self.frame_spec(constraint_key),
    {
        if !self.constraint_tree.contains(constraint_key) || self.is_dirty {
            return None;
        }
        proof {
            self.constraint_tree.lemma_slot(constraint_key);
        }
        Some(self.frames[constraint_key.slot_index()])
    }

    /// Solves the tree for a viewport of `length_x` by `length_y`, unless
    /// nothing changed since the last solve.
    pub fn solve(&mut self, length_x: u64, length_y: u64)
        requires
            old(self).wf(),
        ensures
            final(self).wf(),
            solve_spec(*old(self), *final(self), length_x, length_y),
    {
        if !self.is_dirty {
            return;
        }
        if self.constraint_tree.is_empty() {
            self.is_dirty = false;
            return;
        }
        self.frames = solve_tree(&self.constraint_tree, length_x, length_y);
        self.lengths = Ghost((length_x as int, length_y as int));
        self.is_dirty = false;
    }
}

/// What [`Solver::solve`] does: nothing on a clean solver; otherwise the tree
/// stays as it was, the solver is clean, and a non-empty tree holds the
/// frames solved for the given lengths.
pub open spec fn solve_spec(pre: Solver, post: Solver, length_x: u64, length_y: u64) -> bool {
    &&& !pre.dirty() ==> post == pre
    &&& pre.dirty() ==> {
        &&& post.tree() == pre.tree()
        &&& !post.dirty()
        &&& pre.tree().root_spec() is Some ==> post.solved_lengths() == (
            length_x as int,
            length_y as int,
        )
    }
}

impl Default for Solver {
    fn default() -> (r: Solver)
        ensures
            r.wf(),
            !r.dirty(),
            r.tree().root_spec() is None,
    {
        Solver::new()
    }
}

/// Solving twice with the same lengths and nothing changed in between gives
/// the same frames, and the solver is clean after the first solve.
pub proof fn solving_twice_is_idempotent(
    first: Solver,
    second: Solver,
    third: Solver,
    length_x: u64,
    length_y: u64,
)
    requires
        solve_spec(first, second, length_x, length_y),
        solve_spec(second, third, length_x, length_y),
    ensures
        !second.dirty(),
        third == second,
        forall|k: ConstraintKey| #[trigger] third.frame_spec(k) == second.frame_spec(k),
{
}

/// Solving a clean solver changes nothing, whatever the lengths.
pub proof fn solving_clean_tree_changes_nothing(
    before: Solver,
    after: Solver,
    length_x: u64,
    length_y: u64,
)
    requires
        !before.dirty(),
        solve_spec(before, after, length_x, length_y),
    ensures
        after == before,
        forall|k: ConstraintKey| #[trigger] after.frame_spec(k) == before.frame_spec(k),
{
}

/// Solving an empty tree gives no frame for any key.
pub proof fn empty_tree_has_no_frames(
    before: Solver,
    after: Solver,
    length_x: u64,
    length_y: u64,
)
    requires
        before.wf(),
        before.tree().root_spec() is None,
        solve_spec(before, after, length_x, length_y),
    ensures
        !after.dirty(),
        forall|k: ConstraintKey| #[trigger] after.frame_spec(k) is None,
{
    assert forall|k: ConstraintKey| #[trigger] after.frame_spec(k) is None by {
        assert(!before.tree().live(k));
    }
}

} // verus!
