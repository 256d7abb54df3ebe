use stretchbox::declarative::{make_frame_tree, make_solver};
use stretchbox::{
    Align, Constraint, ConstraintKey, DeclarativeNode, Direction, Fill, FillType, Frame, Padding,
    Solver,
};

fn node(value: Constraint, children: Vec<DeclarativeNode<Constraint>>) -> DeclarativeNode<Constraint> {
    DeclarativeNode { value, children }
}

fn frame(offset_x: u64, length_x: u64, offset_y: u64, length_y: u64) -> Frame {
    Frame { offset_x, length_x, offset_y, length_y }
}

fn relative(main: FillType, cross: FillType) -> Constraint {
    Constraint { fill: Fill::Relative { main, cross }, ..Default::default() }
}

fn leaf(value: Frame) -> DeclarativeNode<Frame> {
    DeclarativeNode { value, children: vec![] }
}

#[test]
fn test_solver_with_empty_tree() {
    let mut solver = make_solver(None).unwrap();

    solver.solve(10, 10);

    let actual_frame_tree = make_frame_tree(&solver);
    let expected_frame_tree = None;
    assert_eq!(actual_frame_tree, expected_frame_tree);
}

#[test]
fn test_solver_with_invalid_root_constraint() {
    let solver = make_solver(Some(&node(
        Constraint {
            fill: Fill::Absolute { x: FillType::Exact(10), y: FillType::Scale(1) },
            ..Default::default()
        },
        vec![],
    )));

    assert!(solver.is_none());
}

#[test]
fn test_solver_with_single_element_tree() {
    let mut solver = make_solver(Some(&node(Constraint::default(), vec![]))).unwrap();

    solver.solve(10, 10);

    let actual_frame_tree = make_frame_tree(&solver);
    let expected_frame_tree = Some(leaf(frame(0, 10, 0, 10)));
    assert_eq!(actual_frame_tree, expected_frame_tree);
}

#[test]
fn single_default_child_covers_its_root() {
    let mut solver =
        make_solver(Some(&node(Constraint::default(), vec![node(Constraint::default(), vec![])])))
            .unwrap();

    solver.solve(10, 10);

    let expected = DeclarativeNode {
        value: frame(0, 10, 0, 10),
        children: vec![leaf(frame(0, 10, 0, 10))],
    };
    assert_eq!(make_frame_tree(&solver), Some(expected));
}

#[test]
fn exact_takes_what_is_left_before_scale_and_minimize() {
    let mut root = Constraint::default();
    root.content.padding = Padding { left: 0, right: 0, top: 1, bottom: 1 };
    let children = vec![
        node(relative(FillType::Scale(1), FillType::Scale(1)), vec![]),
        node(relative(FillType::Exact(10), FillType::Scale(1)), vec![]),
        node(relative(FillType::Minimize, FillType::Scale(1)), vec![]),
    ];
    let mut solver = make_solver(Some(&node(root, children))).unwrap();

    solver.solve(5, 12);

    let expected = DeclarativeNode {
        value: frame(0, 5, 0, 12),
        children: vec![
            leaf(frame(0, 5, 1, 0)),
            leaf(frame(0, 5, 1, 10)),
            leaf(frame(0, 5, 11, 0)),
        ],
    };
    let actual = make_frame_tree(&solver).unwrap();
    let total: u64 = actual.children.iter().map(|child| child.value.length_y).sum();
    assert_eq!(total, 10);
    assert_eq!(actual, expected);
}

#[test]
fn zero_weight_scale_gets_no_length() {
    let mut solver = make_solver(Some(&node(
        Constraint::default(),
        vec![
            node(relative(FillType::Scale(0), FillType::Scale(0)), vec![]),
            node(relative(FillType::Scale(2), FillType::Scale(1)), vec![]),
        ],
    )))
    .unwrap();

    solver.solve(40, 30);

    let expected = DeclarativeNode {
        value: frame(0, 40, 0, 30),
        children: vec![leaf(frame(0, 0, 0, 0)), leaf(frame(0, 40, 0, 30))],
    };
    assert_eq!(make_frame_tree(&solver), Some(expected));
}

#[test]
fn zero_weight_root_axis_is_empty() {
    let root = Constraint {
        fill: Fill::Absolute { x: FillType::Scale(0), y: FillType::Scale(3) },
        ..Default::default()
    };
    let mut solver = make_solver(Some(&node(root, vec![]))).unwrap();

    solver.solve(40, 30);

    assert_eq!(make_frame_tree(&solver), Some(leaf(frame(0, 0, 0, 30))));
}

#[test]
fn rounding_remainder_goes_to_the_first_weights() {
    let mut solver = make_solver(Some(&node(
        Constraint::default(),
        vec![
            node(Constraint::default(), vec![]),
            node(Constraint::default(), vec![]),
            node(Constraint::default(), vec![]),
        ],
    )))
    .unwrap();

    solver.solve(7, 10);

    let expected = DeclarativeNode {
        value: frame(0, 7, 0, 10),
        children: vec![
            leaf(frame(0, 7, 0, 4)),
            leaf(frame(0, 7, 4, 3)),
            leaf(frame(0, 7, 7, 3)),
        ],
    };
    assert_eq!(make_frame_tree(&solver), Some(expected));
}

#[test]
fn weights_share_in_proportion() {
    let mut solver = make_solver(Some(&node(
        Constraint::default(),
        vec![
            node(relative(FillType::Scale(1), FillType::Scale(1)), vec![]),
            node(relative(FillType::Scale(3), FillType::Scale(1)), vec![]),
        ],
    )))
    .unwrap();

    solver.solve(8, 100);

    let expected = DeclarativeNode {
        value: frame(0, 8, 0, 100),
        children: vec![leaf(frame(0, 8, 0, 25)), leaf(frame(0, 8, 25, 75))],
    };
    assert_eq!(make_frame_tree(&solver), Some(expected));
}

#[test]
fn horizontal_flow_places_the_gap_by_alignment() {
    let mut root = Constraint::default();
    root.content.direction = Direction::Horizontal;
    root.content.align_main = Align::Middle;
    root.content.align_cross = Align::End;
    let child = |length| Constraint {
        fill: Fill::Absolute { x: FillType::Exact(length), y: FillType::Exact(3) },
        ..Default::default()
    };
    let mut solver =
        make_solver(Some(&node(root, vec![node(child(4), vec![]), node(child(2), vec![])])))
            .unwrap();

    solver.solve(10, 10);

    let expected = DeclarativeNode {
        value: frame(0, 10, 0, 10),
        children: vec![leaf(frame(2, 4, 7, 3)), leaf(frame(6, 2, 7, 3))],
    };
    assert_eq!(make_frame_tree(&solver), Some(expected));
}

#[test]
fn end_alignment_puts_the_whole_gap_first() {
    let mut root = Constraint::default();
    root.content.align_main = Align::End;
    root.content.align_cross = Align::Middle;
    let mut solver = make_solver(Some(&node(
        root,
        vec![node(relative(FillType::Exact(4), FillType::Exact(5)), vec![])],
    )))
    .unwrap();

    solver.solve(10, 10);

    let expected = DeclarativeNode {
        value: frame(0, 10, 0, 10),
        children: vec![leaf(frame(2, 5, 6, 4))],
    };
    assert_eq!(make_frame_tree(&solver), Some(expected));
}

#[test]
fn minimize_shrinks_to_its_children() {
    let mut root = Constraint::default();
    root.content.direction = Direction::Horizontal;
    let mut shrinking = relative(FillType::Minimize, FillType::Scale(1));
    shrinking.content.direction = Direction::Horizontal;
    let mut solver = make_solver(Some(&node(
        root,
        vec![node(
            shrinking,
            vec![
                node(relative(FillType::Exact(20), FillType::Scale(1)), vec![]),
                node(relative(FillType::Exact(30), FillType::Scale(1)), vec![]),
            ],
        )],
    )))
    .unwrap();

    solver.solve(100, 50);

    let expected = DeclarativeNode {
        value: frame(0, 100, 0, 50),
        children: vec![DeclarativeNode {
            value: frame(0, 50, 0, 50),
            children: vec![leaf(frame(0, 20, 0, 50)), leaf(frame(20, 30, 0, 50))],
        }],
    };
    assert_eq!(make_frame_tree(&solver), Some(expected));
}

#[test]
fn minimize_counts_padding_of_its_children() {
    let mut shrinking = relative(FillType::Minimize, FillType::Minimize);
    shrinking.content.direction = Direction::Horizontal;
    let mut padded = Constraint {
        fill: Fill::Absolute { x: FillType::Exact(10), y: FillType::Exact(4) },
        ..Default::default()
    };
    padded.content.padding = Padding { left: 1, right: 2, top: 3, bottom: 0 };
    let mut solver = make_solver(Some(&node(
        Constraint::default(),
        vec![node(shrinking, vec![node(padded, vec![])])],
    )))
    .unwrap();

    solver.solve(100, 100);

    let tree = make_frame_tree(&solver).unwrap();
    assert_eq!(tree.children[0].value, frame(0, 13, 0, 7));
}

#[test]
fn padding_larger_than_the_frame_leaves_no_room() {
    let mut root = Constraint::default();
    root.content.padding = Padding { left: 30, right: 30, top: 2, bottom: 3 };
    let mut solver =
        make_solver(Some(&node(root, vec![node(Constraint::default(), vec![])]))).unwrap();

    solver.solve(20, 10);

    let tree = make_frame_tree(&solver).unwrap();
    assert_eq!(tree.children[0].value, frame(20, 0, 2, 5));
}

#[test]
fn solving_twice_gives_the_same_frames() {
    let mut solver =
        make_solver(Some(&node(Constraint::default(), vec![node(Constraint::default(), vec![])])))
            .unwrap();

    solver.solve(30, 20);
    assert!(!solver.is_dirty());
    let first = make_frame_tree(&solver);
    solver.solve(30, 20);
    assert!(!solver.is_dirty());
    assert_eq!(make_frame_tree(&solver), first);
}

#[test]
fn solving_a_clean_tree_changes_nothing() {
    let mut solver = make_solver(Some(&node(Constraint::default(), vec![]))).unwrap();

    solver.solve(30, 20);
    let first = make_frame_tree(&solver);
    solver.solve(99, 99);

    assert_eq!(make_frame_tree(&solver), first);
    assert_eq!(first, Some(leaf(frame(0, 30, 0, 20))));
}

#[test]
fn empty_tree_has_no_frames() {
    let mut solver = Solver::default();
    let key = solver.insert_root(Constraint::default()).unwrap();
    solver.remove(key, None);
    assert!(solver.is_dirty());

    solver.solve(10, 10);

    assert!(!solver.is_dirty());
    assert!(solver.is_empty());
    assert_eq!(solver.get_frame(key), None);
    assert_eq!(solver.root_constraint_key(), None);
}

#[test]
fn removal_takes_the_whole_subtree() {
    let mut solver = Solver::default();
    let root = solver.insert_root(Constraint::default()).unwrap();
    let child = solver.insert(Constraint::default(), root).unwrap();
    let grandchild = solver.insert(Constraint::default(), child).unwrap();
    let sibling = solver.insert(Constraint::default(), root).unwrap();
    solver.solve(10, 10);

    assert_eq!(solver.remove(child, None), Some(Constraint::default()));

    assert!(solver.is_dirty());
    assert!(!solver.contains(child));
    assert!(!solver.contains(grandchild));
    assert!(solver.contains(root));
    assert!(solver.contains(sibling));
    assert_eq!(solver.get(root).unwrap().child_keys, vec![sibling]);
    assert_eq!(solver.get_frame(sibling), None);

    assert!(solver.remove(root, None).is_some());
    assert!(solver.is_empty());
    assert!(solver.is_dirty());
    assert!(!solver.contains(sibling));
}

#[test]
fn unknown_keys_are_reported_absent() {
    let mut solver = Solver::default();
    let root = solver.insert_root(Constraint::default()).unwrap();
    let child = solver.insert(Constraint::default(), root).unwrap();
    solver.remove(child, None);
    solver.solve(10, 10);

    assert_eq!(solver.insert(Constraint::default(), child), None);
    assert_eq!(solver.remove(child, None), None);
    assert_eq!(solver.set(child, Constraint::default()), None);
    assert!(solver.get(child).is_none());
    assert_eq!(solver.get_frame(child), None);
    assert!(!solver.is_dirty());
}

#[test]
fn keys_of_removed_nodes_stay_stale() {
    let mut solver = Solver::default();
    let root = solver.insert_root(Constraint::default()).unwrap();
    let child = solver.insert(Constraint::default(), root).unwrap();
    solver.remove(child, None);
    let other = solver.insert(Constraint::default(), root).unwrap();

    assert_ne!(child, other);
    assert!(!solver.contains(child));
    assert!(solver.contains(other));

    solver.clear();
    let new_root = solver.insert_root(Constraint::default()).unwrap();
    assert!(!solver.contains(root));
    assert!(!solver.contains(other));
    assert!(solver.contains(new_root));
}

#[test]
fn set_replaces_the_value_and_marks_dirty() {
    let mut solver = Solver::default();
    let root = solver.insert_root(Constraint::default()).unwrap();
    let child = solver.insert(Constraint::default(), root).unwrap();
    solver.solve(10, 10);
    assert_eq!(solver.get_frame(child), Some(frame(0, 10, 0, 10)));

    let exact = relative(FillType::Exact(4), FillType::Scale(1));
    assert_eq!(solver.set(child, exact), Some(Constraint::default()));
    assert!(solver.is_dirty());
    assert_eq!(solver.get_frame(child), None);

    solver.solve(10, 10);
    assert_eq!(solver.get_frame(child), Some(frame(0, 10, 0, 4)));
}

#[test]
fn second_root_replaces_the_tree() {
    let mut solver = Solver::default();
    let first = solver.insert_root(Constraint::default()).unwrap();
    let second = solver.insert_root(Constraint::default()).unwrap();

    assert!(!solver.contains(first));
    assert_eq!(solver.root_constraint_key(), Some(second));
    let (key, node) = solver.root_constraint_key_value().unwrap();
    assert_eq!(key, second);
    assert!(node.child_keys.is_empty());
}

#[test]
fn clear_empties_and_cleans() {
    let mut solver = Solver::with_capacity(4);
    let root = solver.insert_root(Constraint::default()).unwrap();
    solver.insert(Constraint::default(), root).unwrap();

    solver.clear();

    assert!(solver.is_empty());
    assert!(!solver.is_dirty());
    assert_eq!(solver.get_frame(root), None);
}

#[test]
fn relative_root_fill_is_read_against_a_vertical_flow() {
    let root = Constraint {
        fill: Fill::Relative { main: FillType::Scale(1), cross: FillType::Scale(0) },
        ..Default::default()
    };
    let mut solver = make_solver(Some(&node(root, vec![]))).unwrap();

    solver.solve(10, 20);

    assert_eq!(make_frame_tree(&solver), Some(leaf(frame(0, 0, 0, 20))));
}

#[test]
fn rebase_moves_a_subtree() {
    let mut solver = Solver::default();
    let root = solver.insert_root(Constraint::default()).unwrap();
    let a = solver.insert(Constraint::default(), root).unwrap();
    let b = solver.insert(Constraint::default(), root).unwrap();
    let c = solver.insert(Constraint::default(), b).unwrap();
    solver.solve(10, 10);

    assert!(solver.rebase(c, a));

    assert!(solver.is_dirty());
    assert_eq!(solver.get(a).unwrap().child_keys, vec![c]);
    assert!(solver.get(b).unwrap().child_keys.is_empty());
    assert_eq!(solver.get(c).unwrap().parent_key, Some(a));

    solver.solve(10, 10);
    assert_eq!(solver.get_frame(a), Some(frame(0, 10, 0, 5)));
    assert_eq!(solver.get_frame(c), Some(frame(0, 10, 0, 5)));
    assert_eq!(solver.get_frame(b), Some(frame(0, 10, 5, 5)));
}

#[test]
fn rebase_refuses_cycles_and_unknown_keys() {
    let mut solver = Solver::default();
    let root = solver.insert_root(Constraint::default()).unwrap();
    let a = solver.insert(Constraint::default(), root).unwrap();
    let b = solver.insert(Constraint::default(), a).unwrap();
    let gone = solver.insert(Constraint::default(), root).unwrap();
    solver.remove(gone, None);
    solver.solve(10, 10);

    assert!(!solver.rebase(a, b));
    assert!(!solver.rebase(a, a));
    assert!(!solver.rebase(root, b));
    assert!(!solver.rebase(gone, root));
    assert!(!solver.rebase(b, gone));
    assert!(!solver.is_dirty());
    assert_eq!(solver.get(b).unwrap().parent_key, Some(a));
}

#[test]
fn rebase_under_the_same_parent_moves_to_the_end() {
    let mut solver = Solver::default();
    let root = solver.insert_root(Constraint::default()).unwrap();
    let a = solver.insert(Constraint::default(), root).unwrap();
    let b = solver.insert(Constraint::default(), root).unwrap();

    assert!(solver.rebase(a, root));

    assert_eq!(solver.get(root).unwrap().child_keys, vec![b, a]);
}

#[test]
fn reorder_children_takes_a_permutation() {
    let mut solver = Solver::default();
    let root = solver.insert_root(Constraint::default()).unwrap();
    let a = solver.insert(relative(FillType::Exact(1), FillType::Scale(1)), root).unwrap();
    let b = solver.insert(relative(FillType::Exact(2), FillType::Scale(1)), root).unwrap();
    let c = solver.insert(relative(FillType::Exact(3), FillType::Scale(1)), root).unwrap();
    solver.solve(10, 10);

    assert!(solver.reorder_children(root, |keys: &Vec<ConstraintKey>| keys.iter().rev().cloned().collect()));

    assert!(solver.is_dirty());
    assert_eq!(solver.get(root).unwrap().child_keys, vec![c, b, a]);
    solver.solve(10, 10);
    assert_eq!(solver.get_frame(c), Some(frame(0, 10, 0, 3)));
    assert_eq!(solver.get_frame(b), Some(frame(0, 10, 3, 2)));
    assert_eq!(solver.get_frame(a), Some(frame(0, 10, 5, 1)));
}

#[test]
fn reorder_children_refuses_other_key_sets() {
    let mut solver = Solver::default();
    let root = solver.insert_root(Constraint::default()).unwrap();
    let a = solver.insert(Constraint::default(), root).unwrap();
    let b = solver.insert(Constraint::default(), root).unwrap();
    solver.solve(10, 10);

    assert!(!solver.reorder_children(root, |keys: &Vec<ConstraintKey>| vec![keys[0]]));
    assert!(!solver.reorder_children(root, |_: &Vec<ConstraintKey>| vec![a, a]));
    assert!(!solver.reorder_children(root, |_: &Vec<ConstraintKey>| vec![a, root]));
    assert!(!solver.is_dirty());
    assert!(solver.reorder_children(b, |keys: &Vec<ConstraintKey>| keys.clone()));
    solver.remove(b, None);
    assert!(!solver.reorder_children(b, |keys: &Vec<ConstraintKey>| keys.clone()));

    assert_eq!(solver.get(root).unwrap().child_keys, vec![a]);
}
