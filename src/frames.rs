//! The walk of the layout solver over the whole tree: the root's frame, then
//! each node's children within that node's content rectangle.
use crate::geometry::{
    absolute_fill_spec, content_frame_spec, generate_content_frame, Constraint, Direction,
    FillType, Frame,
};
use crate::layout::{child_frame, fueled, layout_children};
use crate::tree::{ConstraintKey, Tree};
use vstd::prelude::*;

verus! {

/// The length of the root along one axis: a weight of zero gives zero,
/// anything else the full length that the tree is solved for.
pub open spec fn root_length(rule: FillType, length: int) -> int {
    match rule {
        FillType::Scale(w) => if w == 0 {
            0
        } else {
            length
        },
        _ => length,
    }
}

/// The frame of a root holding `value`, for a solve with the given lengths.
/// The root has no parent, so its fill is read against a vertical flow.
pub open spec fn root_frame(value: Constraint, length_x: int, length_y: int) -> Frame {
    let fills = absolute_fill_spec(value.fill, Direction::Vertical);
    Frame {
        offset_x: 0,
        length_x: root_length(fills.0, length_x) as u64,
        offset_y: 0,
        length_y: root_length(fills.1, length_y) as u64,
    }
}

/// The frame of node `k` after a solve with the given lengths: the root's
/// frame, or the frame that `k`'s parent gives it among its siblings.
pub open spec fn frame_of(t: &Tree, k: ConstraintKey, length_x: int, length_y: int) -> Frame
    decreases t.depth(k),
{
    match t.parent_of(k) {
        None => root_frame(t.value_of(k), length_x, length_y),
        Some(p) => if t.depth(p) < t.depth(k) {
            let outer = frame_of(t, p, length_x, length_y);
            let parent = t.value_of(p);
            let area = content_frame_spec(
                parent.content.padding,
                outer.length_x as int,
                outer.length_y as int,
            );
            let siblings = t.children_of(p);
            child_frame(
                t,
                siblings,
                siblings.index_of(k),
                parent.content,
                area,
                (t.depth_bound() - t.depth(k)) as nat,
            )
        } else {
            Frame { offset_x: 0, length_x: 0, offset_y: 0, length_y: 0 }
        },
    }
}

/// `x` lies strictly below `p`.
pub open spec fn below(t: &Tree, x: ConstraintKey, p: ConstraintKey) -> bool {
    t.in_subtree(x, p) && x != p
}

/// Frames, one per slot of the tree's arena, that hold the solved frame of
/// every node strictly below `p`.
fn solve_subtree(
    tree: &Tree,
    frames: &mut Vec<Frame>,
    p: ConstraintKey,
    length_x: Ghost<int>,
    length_y: Ghost<int>,
)
    requires
        tree.wf(),
        tree.live(p),
        old(frames)@.len() == tree.slot_count(),
        old(frames)@[p.slot()] == frame_of(tree, p, length_x@, length_y@),
    ensures
        final(frames)@.len() == old(frames)@.len(),
        forall|x: ConstraintKey|
            #![trigger below(tree, x, p)]
            tree.live(x) && below(tree, x, p) ==> final(frames)@[x.slot()] == frame_of(
                tree,
                x,
                length_x@,
                length_y@,
            ),
        forall|j: int|
            0 <= j < old(frames)@.len() && !below(tree, tree.key_at(j), p)
                ==> #[trigger] final(frames)@[j] == old(frames)@[j],
    decreases tree.depth_bound() - tree.depth(p),
{
    proof {
        tree.lemma_slot(p);
    }
    let node = tree.get(p).unwrap();
    let outer = frames[p.slot_index()];
    let area = generate_content_frame(node.value.content.padding, outer.length_x, outer.length_y);
    let ghost fuel: nat = (tree.depth_bound() - tree.depth(p) - 1) as nat;
    let children = &node.child_keys;
    proof {
        assert forall|i: int| 0 <= i < children@.len() implies tree.live(#[trigger] children@[i])
            && tree.depth(children@[i]) + fuel >= tree.depth_bound() by {
            let c = children@[i];
            assert(tree.live(c) && tree.parent_of(c) == Some(p));
        }
        assert(fueled(tree, children@, fuel));
    }
    let computed = layout_children(tree, children, node.value.content, area, Ghost(fuel));
    let ghost start = *frames;
    let mut i: usize = 0;
    while i < children.len()
        invariant
            tree.wf(),
            tree.live(p),
            children@ == tree.children_of(p),
            computed@.len() == children@.len(),
            forall|j: int|
                0 <= j < children@.len() ==> #[trigger] computed@[j] == child_frame(
                    tree,
                    children@,
                    j,
                    node.value.content,
                    area,
                    fuel,
                ),
            node.value == tree.value_of(p),
            area == content_frame_spec(
                node.value.content.padding,
                frame_of(tree, p, length_x@, length_y@).length_x as int,
                frame_of(tree, p, length_x@, length_y@).length_y as int,
            ),
            fuel == tree.depth_bound() - tree.depth(p) - 1,
            i <= children@.len(),
            frames@.len() == start@.len(),
            start@.len() == tree.slot_count(),
            forall|x: ConstraintKey|
                #![trigger below(tree, x, p)]
                tree.live(x) && below(tree, x, p) && (exists|j: int|
                    0 <= j < i && #[trigger] tree.in_subtree(x, children@[j]))
                    ==> frames@[x.slot()] == frame_of(tree, x, length_x@, length_y@),
            forall|j: int|
                0 <= j < start@.len() && !(exists|k: int|
                    0 <= k < i && #[trigger] tree.in_subtree(tree.key_at(j), children@[k]))
                    ==> #[trigger] frames@[j] == start@[j],
        decreases children@.len() - i,
    {
        let c = children[i];
        proof {
            assert(tree.live(c) && tree.parent_of(c) == Some(p));
            tree.lemma_slot(c);
            assert(children@.index_of(c) == i) by {
                assert(children@[i as int] == c);
                assert(children@.no_duplicates());
                let j = children@.index_of(c);
                assert(children@.contains(c));
                assert(0 <= j < children@.len() && children@[j] == c);
            }
            assert(tree.depth(c) == tree.depth(p) + 1);
            assert(computed@[i as int] == frame_of(tree, c, length_x@, length_y@));
        }
        let ghost before = *frames;
        frames.set(c.slot_index(), computed[i]);
        let ghost mid = *frames;
        solve_subtree(tree, frames, c, length_x, length_y);
        proof {
            let ii = i as int;
            assert forall|x: ConstraintKey|
                #![trigger below(tree, x, p)]
                tree.live(x) && below(tree, x, p) && (exists|j: int|
                    0 <= j < ii + 1 && #[trigger] tree.in_subtree(x, children@[j]))
                    implies frames@[x.slot()] == frame_of(tree, x, length_x@, length_y@) by {
                let j = choose|j: int| 0 <= j < ii + 1 && #[trigger] tree.in_subtree(x, children@[j]);
                tree.lemma_slot(x);
                let cj = children@[j];
                assert(tree.live(cj) && tree.parent_of(cj) == Some(p));
                if j < ii {
                    if tree.in_subtree(x, c) {
                        tree.lemma_disjoint(x, c, cj);
                    }
                    assert(!below(tree, x, c));
                    assert(x != c) by {
                        if x == c {
                            tree.lemma_disjoint(x, c, cj);
                        }
                    }
                    assert(frames@[x.slot()] == mid[x.slot()]);
                    assert(mid[x.slot()] == before[x.slot()]);
                } else if x == c {
                    assert(!below(tree, c, c));
                    assert(frames@[x.slot()] == mid[x.slot()]);
                } else {
                    assert(below(tree, x, c));
                }
            }
            assert forall|j: int|
                0 <= j < start@.len() && !(exists|k: int|
                    0 <= k < ii + 1 && #[trigger] tree.in_subtree(tree.key_at(j), children@[k]))
                    implies #[trigger] frames@[j] == start@[j] by {
                let y = tree.key_at(j);
                assert(!tree.in_subtree(y, children@[ii]));
                assert(!below(tree, y, c));
                assert(frames@[j] == mid[j]);
                if j == c.slot() {
                    assert(tree.in_subtree(c, children@[ii]));
                }
                assert(mid[j] == before[j]);
                assert(!(exists|k: int| 0 <= k < ii && #[trigger] tree.in_subtree(tree.key_at(j), children@[k]))) by {
                    if exists|k: int| 0 <= k < ii && #[trigger] tree.in_subtree(tree.key_at(j), children@[k]) {
                        let k = choose|k: int| 0 <= k < ii && #[trigger] tree.in_subtree(tree.key_at(j), children@[k]);
                        assert(0 <= k < ii + 1 && tree.in_subtree(tree.key_at(j), children@[k]));
                    }
                }
            }
        }
        i = i + 1;
    }
    proof {
        assert forall|x: ConstraintKey| #![trigger below(tree, x, p)] tree.live(x) && below(tree, x, p)
            implies frames@[x.slot()] == frame_of(tree, x, length_x@, length_y@) by {
            tree.lemma_below_child(x, p);
        }
        assert forall|j: int|
            0 <= j < start@.len() && !below(tree, tree.key_at(j), p)
                implies #[trigger] frames@[j] == start@[j] by {
            let y = tree.key_at(j);
            if exists|k: int| 0 <= k < children@.len() && #[trigger] tree.in_subtree(y, children@[k]) {
                let k = choose|k: int| 0 <= k < children@.len() && #[trigger] tree.in_subtree(y, children@[k]);
                let ck = children@[k];
                assert(tree.live(ck) && tree.parent_of(ck) == Some(p));
                tree.lemma_child_subtree(y, ck, p);
            }
        }
    }
}

/// The length of the root along one axis, as [`root_length`] states it.
fn resolve_root_length(rule: FillType, length: u64) -> (r: u64)
    ensures
        r == root_length(rule, length as int),
{
    match rule {
        FillType::Scale(w) => if w == 0 {
            0
        } else {
            length
        },
        _ => length,
    }
}

/// Solves a non-empty tree for the given lengths: one frame per slot of the
/// tree's arena, holding the solved frame of the node in that slot.
pub fn solve_tree(tree: &Tree, length_x: u64, length_y: u64) -> (r: Vec<Frame>)
    requires
        tree.wf(),
        tree.root_spec() is Some,
    ensures
        r@.len() == tree.slot_count(),
        forall|x: ConstraintKey|
            tree.live(x) ==> #[trigger] r@[x.slot()] == frame_of(
                tree,
                x,
                length_x as int,
                length_y as int,
            ),
{
    let n = tree.slot_len();
    let mut frames: Vec<Frame> = Vec::with_capacity(n);
    let mut i: usize = 0;
    while i < n
        invariant
            frames@.len() == i,
            i <= n,
        decreases n - i,
    {
        frames.push(Frame { offset_x: 0, length_x: 0, offset_y: 0, length_y: 0 });
        i = i + 1;
    }
    let root = tree.root_key().unwrap();
    proof {
        tree.lemma_slot(root);
    }
    let node = tree.get(root).unwrap();
    let (fill_x, fill_y) = node.value.fill.to_absolute_fill(Direction::Vertical);
    let frame = Frame {
        offset_x: 0,
        length_x: resolve_root_length(fill_x, length_x),
        offset_y: 0,
        length_y: resolve_root_length(fill_y, length_y),
    };
    frames.set(root.slot_index(), frame);
    solve_subtree(tree, &mut frames, root, Ghost(length_x as int), Ghost(length_y as int));
    proof {
        assert forall|x: ConstraintKey| tree.live(x) implies #[trigger] frames@[x.slot()] == frame_of(
            tree,
            x,
            length_x as int,
            length_y as int,
        ) by {
            tree.lemma_root_covers(x);
            if x == root {
                assert(!below(tree, tree.key_at(root.slot()), root));
            } else {
                assert(below(tree, x, root));
            }
        }
    }
    frames
}

} // verus!
