use scoped_vec::tree::seq_has;
use scoped_vec::tree::Tree;

#[test]
fn tree_flatten_order() {
    let mut t: Tree<i32> = Tree::new();
    assert!(t.push_at(&vec![], 1));
    assert_eq!(t.scope_at(&vec![]), Some(0));
    assert!(t.push_at(&vec![0], 2));
    assert_eq!(t.scope_at(&vec![0]), Some(0));
    assert!(t.push_at(&vec![0, 0], 3));
    assert_eq!(t.scope_at(&vec![]), Some(1));
    assert!(t.push_at(&vec![1], 4));
    assert!(t.push_at(&vec![], 5));

    assert_eq!(t.flatten(), vec![1, 5, 2, 3, 4]);
}

#[test]
fn tree_empty_flatten() {
    let t: Tree<i32> = Tree::new();
    assert_eq!(t.flatten(), Vec::<i32>::new());
}

#[test]
fn tree_subtree_views() {
    let mut t: Tree<i32> = Tree::new();
    assert!(t.push_at(&vec![], 3));
    assert_eq!(t.scope_at(&vec![]), Some(0));
    assert!(t.push_at(&vec![0], 4));
    assert_eq!(t.scope_at(&vec![0]), Some(0));
    assert!(t.push_at(&vec![0, 0], 5));

    let sub = t.into_subtree(&vec![0]).unwrap();
    assert_eq!(sub.flatten(), vec![4, 5]);
}

#[test]
fn tree_invalid_paths() {
    let mut t: Tree<i32> = Tree::new();
    assert!(!t.push_at(&vec![0], 1));
    assert_eq!(t.scope_at(&vec![3]), None);
    assert_eq!(t.flatten(), Vec::<i32>::new());

    let mut t: Tree<i32> = Tree::new();
    assert_eq!(t.scope_at(&vec![]), Some(0));
    assert!(t.clone().into_subtree(&vec![1]).is_none());
    assert!(t.into_subtree(&vec![0]).is_some());
}

#[test]
fn tree_second_scope_index() {
    let mut t: Tree<i32> = Tree::new();
    assert_eq!(t.scope_at(&vec![]), Some(0));
    assert_eq!(t.scope_at(&vec![]), Some(1));
    assert_eq!(t.scope_at(&vec![1]), Some(0));
    assert!(t.push_at(&vec![1, 0], 7));
    assert_eq!(t.flatten(), vec![7]);
}

#[test]
fn seq_has_finds_matches() {
    let v = vec![2, 4, 6];
    assert!(seq_has(&v, &4));
    assert!(!seq_has(&v, &5));
    let empty: Vec<i32> = Vec::new();
    assert!(!seq_has(&empty, &0));
}
