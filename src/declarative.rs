//! A plain nested description of a tree, for building one in a single
//! expression and for reading solved frames back as one value.
use crate::geometry::{Constraint, Frame};
use crate::solver::{valid_root_fill, Solver};
use crate::tree::ConstraintKey;
use vstd::prelude::*;

verus! {

/// A value with its children, in order.
#[derive(Default, Debug, PartialEq, Eq)]
pub struct DeclarativeNode<V> {
    pub value: V,
    pub children: Vec<DeclarativeNode<V>>,
}

/// Inserts `declarative_nodes`, with their descendants, as the last children
/// of `parent_constraint_key`, in order.
pub fn insert_nodes(
    solver: &mut Solver,
    declarative_nodes: &Vec<DeclarativeNode<Constraint>>,
    parent_constraint_key: ConstraintKey,
)
    requires
        old(solver).wf(),
        old(solver).tree().live(parent_constraint_key),
    ensures
        final(solver).wf(),
        final(solver).tree().live(parent_constraint_key),
        final(solver).tree().value_of(parent_constraint_key) == old(solver).tree().value_of(
            parent_constraint_key,
        ),
        final(solver).tree().children_of(parent_constraint_key).len() == old(solver).tree().children_of(parent_constraint_key).len() + declarative_nodes@.len(),
        final(solver).tree().root_spec() == old(solver).tree().root_spec(),
        forall|x: ConstraintKey|
            old(solver).tree().live(x) && x != parent_constraint_key ==> #[trigger] final(solver).tree().live(x) && final(solver).tree().node(x) == old(solver).tree().node(x),
        declarative_nodes@.len() > 0 ==> final(solver).dirty(),
        declarative_nodes@.len() == 0 ==> *final(solver) == *old(solver),
    decreases declarative_nodes,
{
    let mut i: usize = 0;
    while i < declarative_nodes.len()
        invariant
            solver.wf(),
            solver.tree().live(parent_constraint_key),
            solver.tree().value_of(parent_constraint_key) == old(solver).tree().value_of(
                parent_constraint_key,
            ),
            solver.tree().children_of(parent_constraint_key).len() == old(solver).tree().children_of(
                parent_constraint_key,
            ).len() + i,
            solver.tree().root_spec() == old(solver).tree().root_spec(),
            forall|x: ConstraintKey|
                old(solver).tree().live(x) && x != parent_constraint_key ==> #[trigger] solver.tree().live(
                    x,
                ) && solver.tree().node(x) == old(solver).tree().node(x),
            i > 0 ==> solver.dirty(),
            i == 0 ==> *solver == *old(solver),
            i <= declarative_nodes@.len(),
        decreases declarative_nodes@.len() - i,
    {
        let declarative_node = &declarative_nodes[i];
        let ghost before = *solver;
        let key = solver.insert(declarative_node.value, parent_constraint_key).unwrap();
        let ghost between = *solver;
        proof {
            vstd::std_specs::vec::axiom_vec_index_decreases(*declarative_nodes, i as int);
            assert forall|x: ConstraintKey| old(solver).tree().live(x) && x != parent_constraint_key
                implies #[trigger] between.tree().live(x) && between.tree().node(x) == old(solver).tree().node(x) by {
                assert(before.tree().live(x));
                assert(x != key);
                assert(between.tree().same_node(&before.tree(), x));
            }
        }
        insert_nodes(solver, &declarative_node.children, key);
        proof {
            assert(between.tree().live(parent_constraint_key));
            assert(parent_constraint_key != key);
            assert(solver.tree().live(parent_constraint_key));
            assert(solver.tree().node(parent_constraint_key) == between.tree().node(parent_constraint_key));
            assert forall|x: ConstraintKey| old(solver).tree().live(x) && x != parent_constraint_key
                implies #[trigger] solver.tree().live(x) && solver.tree().node(x) == old(solver).tree().node(x) by {
                assert(before.tree().live(x));
                assert(before.tree().node(x) == old(solver).tree().node(x));
                assert(x != key);
                assert(between.tree().same_node(&before.tree(), x));
                assert(between.tree().live(x) && between.tree().node(x) == old(solver).tree().node(x));
                assert(solver.tree().live(x));
                assert(solver.tree().node(x) == between.tree().node(x));
            }
        }
        i = i + 1;
    }
}

/// A solver holding the tree that `declarative_node` describes; `None` if
/// its root's fill does not scale on both axes. With no description, an
/// empty solver.
pub fn make_solver(declarative_node: Option<&DeclarativeNode<Constraint>>) -> (r: Option<Solver>)
    ensures
        declarative_node is None ==> (r matches Some(s) && s.wf() && !s.dirty()
            && s.tree().root_spec() is None),
        declarative_node matches Some(d) ==> {
            &&& r is Some <==> valid_root_fill(d.value.fill)
            &&& r matches Some(s) ==> {
                &&& s.wf()
                &&& s.dirty()
                &&& (s.tree().root_spec() matches Some(k) && s.tree().value_of(k) == d.value
                    && s.tree().children_of(k).len() == d.children@.len())
            }
        },
{
    match declarative_node {
        None => Some(Solver::new()),
        Some(declarative_node) => {
            let mut solver = Solver::new();
            match solver.insert_root(declarative_node.value) {
                None => None,
                Some(root_constraint_key) => {
                    insert_nodes(&mut solver, &declarative_node.children, root_constraint_key);
                    Some(solver)
                },
            }
        },
    }
}

/// The solved frames of the subtree of `constraint_key`, in the shape of the
/// tree.
fn frame_node(solver: &Solver, constraint_key: ConstraintKey) -> (r: DeclarativeNode<Frame>)
    requires
        solver.wf(),
        !solver.dirty(),
        solver.tree().live(constraint_key),
    ensures
        Some(r.value) == solver.frame_spec(constraint_key),
        r.children@.len() == solver.tree().children_of(constraint_key).len(),
    decreases solver.tree().depth_bound() - solver.tree().depth(constraint_key),
{
    proof {
        solver.lemma_tree_wf();
    }
    let value = solver.get_frame(constraint_key).unwrap();
    let node = solver.get(constraint_key).unwrap();
    let mut children: Vec<DeclarativeNode<Frame>> = Vec::new();
    let mut i: usize = 0;
    while i < node.child_keys.len()
        invariant
            solver.wf(),
            solver.tree().wf(),
            !solver.dirty(),
            solver.tree().live(constraint_key),
            node.child_keys@ == solver.tree().children_of(constraint_key),
            children@.len() == i,
            i <= node.child_keys@.len(),
        decreases node.child_keys@.len() - i,
    {
        let child = node.child_keys[i];
        proof {
            assert(solver.tree().live(child) && solver.tree().parent_of(child) == Some(constraint_key));
        }
        children.push(frame_node(solver, child));
        i = i + 1;
    }
    DeclarativeNode { value, children }
}

/// The solved frames of the whole tree, in its shape; `None` if the tree is
/// empty or changed since the last solve.
pub fn make_frame_tree(solver: &Solver) -> (r: Option<DeclarativeNode<Frame>>)
    requires
        solver.wf(),
    ensures
        r is None <==> (solver.tree().root_spec() is None || solver.dirty()),
        r matches Some(d) ==> {
            &&& (solver.tree().root_spec() matches Some(k) && Some(d.value) == solver.frame_spec(k)
                && d.children@.len() == solver.tree().children_of(k).len())
        },
{
    proof {
        solver.lemma_tree_wf();
    }
    match solver.root_constraint_key() {
        None => None,
        Some(root_constraint_key) => {
            if solver.is_dirty() {
                None
            } else {
                Some(frame_node(solver, root_constraint_key))
            }
        },
    }
}

} // verus!
