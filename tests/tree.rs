use kubefs::tree::{Arena, NodeId};

fn ids(v: &[NodeId]) -> Vec<u64> {
    v.iter().map(|n| n.get()).collect()
}

#[test]
fn add_hands_out_fresh_nonzero_ids() {
    let mut arena: Arena<&str> = Arena::new();
    let a = arena.add("a", None);
    let b = arena.add("b", Some(a));
    let c = arena.add("c", Some(a));
    assert_eq!(ids(&[a, b, c]), vec![1, 2, 3]);
    assert_eq!(arena.get(&a).unwrap().payload, "a");
    assert_eq!(arena.get(&b).unwrap().payload, "b");
    assert_eq!(arena.get(&c).unwrap().payload, "c");
    assert_eq!(ids(&arena.get(&a).unwrap().children_ids), vec![2, 3]);
    assert_eq!(arena.get(&b).unwrap().parent_id, Some(a));
}

#[test]
fn add_under_missing_parent_stands_unlinked() {
    let mut arena: Arena<u32> = Arena::new();
    let root = arena.add(0, None);
    let orphan = arena.add(7, Some(NodeId::new(42)));
    assert!(arena.contains(&orphan));
    assert_eq!(arena.get(&orphan).unwrap().parent_id, None);
    assert!(arena.get_children(&root).unwrap().is_empty());
}

#[test]
fn get_children_of_missing_node_is_none() {
    let mut arena: Arena<u32> = Arena::new();
    let root = arena.add(0, None);
    assert!(arena.get_children(&NodeId::new(9)).is_none());
    assert!(arena.get(&NodeId::new(9)).is_none());
    assert!(!arena.contains(&NodeId::new(9)));
    assert_eq!(arena.get_children(&root).unwrap().len(), 0);
}

fn sample() -> (Arena<u32>, Vec<NodeId>) {
    // 1
    // ├── 2
    // │   ├── 4
    // │   └── 5
    // │       └── 7
    // └── 3
    //     └── 6
    let mut arena = Arena::new();
    let n1 = arena.add(1, None);
    let n2 = arena.add(2, Some(n1));
    let n3 = arena.add(3, Some(n1));
    let n4 = arena.add(4, Some(n2));
    let n5 = arena.add(5, Some(n2));
    let n6 = arena.add(6, Some(n3));
    let n7 = arena.add(7, Some(n5));
    (arena, vec![n1, n2, n3, n4, n5, n6, n7])
}

#[test]
fn tree_walk_dfs_is_pre_order() {
    let (arena, n) = sample();
    let walk = arena.tree_walk_dfs(&n[0]).unwrap();
    assert_eq!(ids(&walk), vec![1, 2, 4, 5, 7, 3, 6]);
    let again = arena.tree_walk_dfs(&n[0]).unwrap();
    assert_eq!(ids(&walk), ids(&again));
    assert_eq!(ids(&arena.tree_walk_dfs(&n[1]).unwrap()), vec![2, 4, 5, 7]);
    assert!(arena.tree_walk_dfs(&NodeId::new(99)).is_none());
}

#[test]
fn delete_node_removes_the_whole_subtree_only() {
    let (mut arena, n) = sample();
    let removed = arena.delete_node(n[1]).unwrap();
    assert_eq!(ids(&removed), vec![2, 4, 5, 7]);
    for id in [2u64, 4, 5, 7] {
        assert!(!arena.contains(&NodeId::new(id)));
    }
    for id in [1u64, 3, 6] {
        assert!(arena.contains(&NodeId::new(id)));
    }
    assert_eq!(ids(&arena.get(&n[0]).unwrap().children_ids), vec![3]);
    assert_eq!(ids(&arena.get(&n[2]).unwrap().children_ids), vec![6]);
    assert_eq!(ids(&arena.tree_walk_dfs(&n[0]).unwrap()), vec![1, 3, 6]);
}

#[test]
fn delete_node_of_missing_node_is_none() {
    let (mut arena, n) = sample();
    assert!(arena.delete_node(NodeId::new(50)).is_none());
    assert_eq!(arena.tree_walk_dfs(&n[0]).unwrap().len(), 7);
}

#[test]
fn ids_are_not_reused_after_deletion() {
    let (mut arena, n) = sample();
    arena.delete_node(n[6]).unwrap();
    let fresh = arena.add(8, Some(n[4]));
    assert_eq!(fresh.get(), 8);
    assert!(!arena.contains(&NodeId::new(7)));
}
