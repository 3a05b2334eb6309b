use kiss3d::scene::graph::SceneTree;

/// root
/// ├── a
/// │   └── c
/// └── b
fn sample() -> (SceneTree, usize, usize, usize, usize) {
    let mut t = SceneTree::new();
    let root = t.add_node();
    let a = t.add_group(root);
    let b = t.add_group(root);
    let c = t.add_group(a);
    (t, root, a, b, c)
}

#[test]
fn scene_tree_links_parents_and_children() {
    let (t, root, a, b, c) = sample();
    assert_eq!(t.len(), 4);
    assert!(t.is_root(root));
    assert!(!t.is_root(a));
    assert_eq!(t.parent(c), Some(a));
    assert_eq!(t.parent(root), None);
    assert_eq!(t.children(root), &vec![a, b]);
    assert_eq!(t.children(a), &vec![c]);
    assert!(t.children(b).is_empty());
}

#[test]
fn scene_tree_walks_depth_first() {
    let (t, root, a, b, c) = sample();
    assert_eq!(t.subtree_nodes(root), vec![root, a, c, b]);
    assert_eq!(t.subtree_nodes(a), vec![a, c]);
    assert_eq!(t.visible_nodes(root), vec![root, a, c, b]);
}

#[test]
fn scene_tree_hidden_node_hides_subtree() {
    let (mut t, root, a, b, _c) = sample();
    t.set_visible(a, false);
    assert!(!t.is_visible(a));
    assert_eq!(t.visible_nodes(root), vec![root, b]);
    assert_eq!(t.subtree_nodes(root).len(), 4);
    t.set_visible(root, false);
    assert!(t.visible_nodes(root).is_empty());
}

#[test]
fn scene_tree_remove_swaps_in_last_child() {
    let mut t = SceneTree::new();
    let root = t.add_node();
    let a = t.add_group(root);
    let b = t.add_group(root);
    let d = t.add_group(root);
    t.remove(a);
    assert!(t.is_root(a));
    assert_eq!(t.children(root), &vec![d, b]);
    t.add_child(root, a);
    assert_eq!(t.children(root), &vec![d, b, a]);
    assert_eq!(t.parent(a), Some(root));
}

#[test]
fn scene_tree_detached_subtree_stays_whole() {
    let (mut t, root, a, b, c) = sample();
    t.detach(a);
    assert_eq!(t.subtree_nodes(root), vec![root, b]);
    assert_eq!(t.subtree_nodes(a), vec![a, c]);
    // Removing a root changes nothing.
    t.remove(root);
    assert_eq!(t.children(root), &vec![b]);
}

#[test]
fn scene_tree_remove_right_after_add_restores_children() {
    let (mut t, root, a, b, _c) = sample();
    let e = t.add_node();
    t.add_child(root, e);
    assert_eq!(t.children(root), &vec![a, b, e]);
    t.remove(e);
    assert_eq!(t.children(root), &vec![a, b]);
    assert!(t.is_root(e));
}

#[test]
fn scene_tree_transform_bookkeeping() {
    let (mut t, root, a, b, c) = sample();
    // New nodes are out of date; the first propagation recomputes them all.
    assert!(!t.is_up_to_date(c));
    assert_eq!(t.propagate(root, false), vec![root, a, c, b]);
    assert!(t.is_up_to_date(c));
    assert!(t.propagate(root, false).is_empty());

    // Moving `a` invalidates it and its subtree only.
    t.invalidate(a);
    assert!(!t.is_up_to_date(a));
    assert!(!t.is_up_to_date(c));
    assert!(t.is_up_to_date(b));
    assert!(t.is_up_to_date(root));

    // Reading the world transform of `c` recomputes `a` then `c`.
    assert_eq!(t.update(c), vec![a, c]);
    assert!(t.is_up_to_date(a));
    assert!(t.update(c).is_empty());
}

#[test]
fn scene_tree_invalidate_stops_at_stale_child() {
    let (mut t, root, a, _b, c) = sample();
    t.propagate(root, false);
    let e = t.add_node();
    assert_eq!(t.propagate(e, false), vec![e]);
    t.invalidate(c);
    t.add_child(c, e);
    t.invalidate(a);
    assert!(!t.is_up_to_date(a));
    assert!(!t.is_up_to_date(c));
    // `c` was already out of date, so the descent stopped there.
    assert!(t.is_up_to_date(e));
    assert_eq!(t.update(e), Vec::<usize>::new());
    assert_eq!(t.update(c), vec![a, c]);
}

#[test]
fn scene_tree_visible_propagation_skips_hidden() {
    let (mut t, root, a, b, c) = sample();
    t.set_visible(a, false);
    assert_eq!(t.propagate(root, true), vec![root, b]);
    assert!(!t.is_up_to_date(a));
    assert!(!t.is_up_to_date(c));
    assert_eq!(t.update(c), vec![a, c]);
}

#[test]
fn scene_tree_added_subtree_walks_last() {
    let (mut t, root, a, b, c) = sample();
    let e = t.add_node();
    let f = t.add_group(e);
    let before = t.subtree_nodes(root);
    assert_eq!(before, vec![root, a, c, b]);
    t.add_child(root, e);
    let mut expected = before.clone();
    expected.extend(vec![e, f]);
    assert_eq!(t.subtree_nodes(root), expected);
    assert_eq!(t.subtree_nodes(e), vec![e, f]);
}
