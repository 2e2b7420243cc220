use scoped_vec::ScopedVec;

#[test]
fn unscoped_standard() {
    let mut root = ScopedVec::new();
    root.push(3);
    let mut iter = root.iter();
    assert_eq!(iter.next(), Some(3));
    assert_eq!(iter.next(), None);
}

#[test]
fn scoped_cant_read_root() {
    let mut root = ScopedVec::new();
    root.push(3);

    let scoped = root.scope();
    let mut iter = scoped.iter();
    assert_eq!(iter.next(), None);
}

#[test]
fn root_can_read_scoped() {
    let mut root = ScopedVec::new();
    root.push(3);

    let mut scoped = root.scope();
    scoped.push(4);

    let mut iter = root.iter();
    assert_eq!(iter.next(), Some(3));
    assert_eq!(iter.next(), Some(4));
    assert_eq!(iter.next(), None);
}

#[test]
fn root_can_read_nested_scoped() {
    let mut root = ScopedVec::new();
    root.push(3);

    let mut scoped = root.scope();
    scoped.push(4);

    let mut nested_scoped = scoped.scope();
    nested_scoped.push(5);

    let mut iter = root.iter();
    assert_eq!(iter.next(), Some(3));
    assert_eq!(iter.next(), Some(4));
    assert_eq!(iter.next(), Some(5));
    assert_eq!(iter.next(), None);
}

#[test]
fn scoped_can_read_nested_scoped() {
    let mut root = ScopedVec::new();
    root.push(3);

    let mut scoped = root.scope();
    scoped.push(4);

    let mut nested_scoped = scoped.scope();
    nested_scoped.push(5);

    let mut iter = scoped.iter();
    assert_eq!(iter.next(), Some(4));
    assert_eq!(iter.next(), Some(5));
    assert_eq!(iter.next(), None);
}

#[test]
fn nested_scoped_cant_read_backwards() {
    let mut root = ScopedVec::new();
    root.push(3);

    let mut scoped = root.scope();
    scoped.push(4);

    let mut nested_scoped = scoped.scope();
    nested_scoped.push(5);

    let mut iter = nested_scoped.iter();
    assert_eq!(iter.next(), Some(5));
    assert_eq!(iter.next(), None);
}

#[test]
fn can_drop_scopes() {
    let mut root = ScopedVec::new();
    root.push(3);

    let mut scoped = root.scope();
    scoped.push(4);

    drop(root);

    let mut nested_scoped = scoped.scope();
    nested_scoped.push(5);

    {
        let mut iter = scoped.iter();
        assert_eq!(iter.next(), Some(4));
        assert_eq!(iter.next(), Some(5));
        assert_eq!(iter.next(), None);
    }

    drop(scoped);

    {
        let mut iter = nested_scoped.iter();
        assert_eq!(iter.next(), Some(5));
        assert_eq!(iter.next(), None);
    }
}

#[test]
fn diverged_scopes_can_be_read() {
    let mut root = ScopedVec::new();
    root.push(3);

    let mut scoped = root.scope();
    scoped.push(4);

    let mut nested_scoped1 = scoped.scope();
    nested_scoped1.push(5);

    let mut nested_scoped2 = scoped.scope();
    nested_scoped2.push(6);

    let mut iter = root.iter();
    assert_eq!(iter.next(), Some(3));
    assert_eq!(iter.next(), Some(4));
    assert_eq!(iter.next(), Some(5));
    assert_eq!(iter.next(), Some(6));
    assert_eq!(iter.next(), None);
}

#[test]
fn diverged_adjacent_scopes_cant_interact() {
    let mut root = ScopedVec::new();
    root.push(3);

    let mut scoped1 = root.scope();
    scoped1.push(4);

    let mut scoped2 = root.scope();
    scoped2.push(5);

    let mut iter = scoped1.iter();
    assert_eq!(iter.next(), Some(4));
    assert_eq!(iter.next(), None);

    let mut iter = scoped2.iter();
    assert_eq!(iter.next(), Some(5));
    assert_eq!(iter.next(), None);
}

#[test]
fn nested_then_second_scope() {
    let mut root = ScopedVec::new();
    root.push(3);

    {
        let mut scope1 = root.scope();
        scope1.push(4);
        {
            let mut scope1_scope1 = scope1.scope();
            scope1_scope1.push(5);
        }

        let mut iter = scope1.iter();
        assert_eq!(iter.next(), Some(4));
        assert_eq!(iter.next(), Some(5));
        assert_eq!(iter.next(), None);
    }

    {
        let mut scope2 = root.scope();
        scope2.push(6);
    }

    let mut iter = root.iter();
    assert_eq!(iter.next(), Some(3));
    assert_eq!(iter.next(), Some(4));
    assert_eq!(iter.next(), Some(5));
    assert_eq!(iter.next(), Some(6));
    assert_eq!(iter.next(), None);
}

#[test]
fn empty_scope_then_push() {
    let mut root = ScopedVec::new();
    root.push(3);

    let mut scoped = root.scope();
    {
        let mut iter = scoped.iter();
        assert_eq!(iter.next(), None);
    }

    scoped.push(4);
    {
        let mut iter = scoped.iter();
        assert_eq!(iter.next(), Some(4));
        assert_eq!(iter.next(), None);
    }

    let fresh: ScopedVec<i32> = ScopedVec::new();
    let mut iter = fresh.iter();
    assert_eq!(iter.next(), None);
}

#[test]
fn diverged_scopes_isolated_views() {
    let mut root = ScopedVec::new();
    root.push(3);

    let mut a = root.scope();
    a.push(4);

    let mut a1 = a.scope();
    a1.push(5);

    let mut a2 = a.scope();
    a2.push(6);

    let mut iter = root.iter();
    assert_eq!(iter.next(), Some(3));
    assert_eq!(iter.next(), Some(4));
    assert_eq!(iter.next(), Some(5));
    assert_eq!(iter.next(), Some(6));
    assert_eq!(iter.next(), None);

    let mut iter = a1.iter();
    assert_eq!(iter.next(), Some(5));
    assert_eq!(iter.next(), None);

    let mut iter = a2.iter();
    assert_eq!(iter.next(), Some(6));
    assert_eq!(iter.next(), None);
}

#[test]
fn clone_aliases_same_scope() {
    let mut root = ScopedVec::new();
    root.push(1);

    let mut alias = root.clone();
    alias.push(2);
    root.push(3);

    let mut iter = root.iter();
    assert_eq!(iter.next(), Some(1));
    assert_eq!(iter.next(), Some(2));
    assert_eq!(iter.next(), Some(3));
    assert_eq!(iter.next(), None);

    let mut iter = alias.iter();
    assert_eq!(iter.next(), Some(1));
    assert_eq!(iter.next(), Some(2));
    assert_eq!(iter.next(), Some(3));
    assert_eq!(iter.next(), None);

    let mut scoped = root.scope();
    let mut scoped_alias = scoped.clone();
    scoped_alias.push(4);
    let mut iter = scoped.iter();
    assert_eq!(iter.next(), Some(4));
    assert_eq!(iter.next(), None);
}

#[test]
fn activity_elsewhere_invisible() {
    let mut root = ScopedVec::new();
    let mut child = root.scope();
    child.push(1);

    let mut sibling = root.scope();
    sibling.push(9);
    root.push(8);
    let mut other = root.scope();
    other.push(7);

    let mut iter = child.iter();
    assert_eq!(iter.next(), Some(1));
    assert_eq!(iter.next(), None);
}

#[test]
fn contains_matches_traversal() {
    let mut root = ScopedVec::new();
    root.push(3);

    let mut scoped = root.scope();
    scoped.push(4);

    assert!(root.contains(&3).0);
    assert!(root.contains(&4).0);
    assert!(!root.contains(&5).0);
    assert!(scoped.contains(&4).0);
    assert!(!scoped.contains(&3).0);

    let mut yielded = Vec::new();
    let mut iter = root.iter();
    while let Some(x) = iter.next() {
        yielded.push(x);
    }
    for x in [0, 1, 2, 3, 4, 5, 6] {
        assert_eq!(root.contains(&x).0, yielded.contains(&x));
    }
}
