//! The laws of the structure, proved over the ghost model.
//!
//! Every statement here is about [`TreeView`] values, the model that the
//! contracts of [`crate::tree::Tree`]'s operations speak of: what a push
//! or a divergence at one node does to the visible sequence of every node
//! of the tree.

use vstd::prelude::*;
use vstd::std_specs::cmp::PartialEqSpec;

use crate::tree::after_push;
use crate::tree::after_scope;
use crate::tree::empty_view;
use crate::tree::has_match;
use crate::tree::subtree;
use crate::tree::valid_path;
use crate::tree::vis_list;
use crate::tree::visible;
use crate::tree::TreeView;

verus! {

/// Visibility law: the visible sequence of a node is its own elements, in
/// insertion order, followed by each child's visible sequence, in creation
/// order, recursively.
pub proof fn lemma_visible_law<T>(v: TreeView<T>)
    ensures
        visible(v) == v.elems + vis_list(v.kids),
        vis_list(Seq::<TreeView<T>>::empty()) == Seq::<T>::empty(),
        forall|s: Seq<TreeView<T>>| s.len() > 0 ==> #[trigger] vis_list(s) == visible(s[0])
            + vis_list(s.subrange(1, s.len() as int)),
{
}

/// Inserting into the left part of a concatenation inserts into the whole.
proof fn lemma_insert_concat_left<T>(a: Seq<T>, b: Seq<T>, k: int, x: T)
    requires
        0 <= k <= a.len(),
    ensures
        a.insert(k, x) + b == (a + b).insert(k, x),
{
    assert(a.insert(k, x) + b =~= (a + b).insert(k, x));
}

/// Inserting into the right part of a concatenation inserts into the whole,
/// past the left part.
proof fn lemma_insert_concat_right<T>(a: Seq<T>, b: Seq<T>, k: int, x: T)
    requires
        0 <= k <= b.len(),
    ensures
        a + b.insert(k, x) == (a + b).insert(a.len() + k, x),
{
    assert(a + b.insert(k, x) =~= (a + b).insert(a.len() + k, x));
}

/// Replacing one node of a list by a node whose visible sequence has one
/// element inserted, inserts that element into the list's concatenated
/// visible sequence.
proof fn lemma_vis_list_update<T>(s: Seq<TreeView<T>>, i: int, c: TreeView<T>, k: int, x: T)
    requires
        0 <= i < s.len(),
        0 <= k <= visible(s[i]).len(),
        visible(c) == visible(s[i]).insert(k, x),
    ensures
        exists|m: int|
            0 <= m <= vis_list(s).len() && vis_list(s.update(i, c)) == vis_list(s).insert(m, x),
    decreases i,
{
    let u = s.update(i, c);
    let tail = s.subrange(1, s.len() as int);
    if i == 0 {
        assert(u.subrange(1, u.len() as int) =~= tail);
        lemma_insert_concat_left(visible(s[0]), vis_list(tail), k, x);
        assert(vis_list(u) == vis_list(s).insert(k, x));
    } else {
        assert(u.subrange(1, u.len() as int) =~= tail.update(i - 1, c));
        assert(tail[i - 1] == s[i]);
        lemma_vis_list_update(tail, i - 1, c, k, x);
        let m = choose|m: int|
            0 <= m <= vis_list(tail).len() && vis_list(tail.update(i - 1, c)) == vis_list(
                tail,
            ).insert(m, x);
        lemma_insert_concat_right(visible(s[0]), vis_list(tail), m, x);
        assert(vis_list(u) == vis_list(s).insert(visible(s[0]).len() + m, x));
    }
}

/// Pushing at the node that `p` leads to inserts the pushed element at one
/// position of the tree's visible sequence, and changes nothing else of it.
pub proof fn lemma_push_inserts<T>(v: TreeView<T>, p: Seq<usize>, x: T)
    requires
        valid_path(v, p),
    ensures
        exists|k: int|
            0 <= k <= visible(v).len() && visible(after_push(v, p, x)) == visible(v).insert(k, x),
    decreases p.len(),
{
    if p.len() == 0 {
        let a = after_push(v, p, x);
        assert(a.elems =~= v.elems.insert(v.elems.len() as int, x));
        lemma_insert_concat_left(v.elems, vis_list(v.kids), v.elems.len() as int, x);
        assert(visible(a) == visible(v).insert(v.elems.len() as int, x));
    } else {
        let i = p[0] as int;
        let p1 = p.subrange(1, p.len() as int);
        lemma_push_inserts(v.kids[i], p1, x);
        let k = choose|k: int|
            0 <= k <= visible(v.kids[i]).len() && visible(after_push(v.kids[i], p1, x)) == visible(
                v.kids[i],
            ).insert(k, x);
        lemma_vis_list_update(v.kids, i, after_push(v.kids[i], p1, x), k, x);
        let m = choose|m: int|
            0 <= m <= vis_list(v.kids).len() && vis_list(
                v.kids.update(i, after_push(v.kids[i], p1, x)),
            ) == vis_list(v.kids).insert(m, x);
        lemma_insert_concat_right(v.elems, vis_list(v.kids), m, x);
        assert(visible(after_push(v, p, x)) == visible(v).insert(v.elems.len() + m, x));
    }
}

/// Below a prefix `q` of the push path, the push commutes with taking the
/// subtree: what happens at `p` in the whole tree happens at the rest of
/// `p` in the subtree at `q`.
pub proof fn lemma_subtree_after_push<T>(v: TreeView<T>, p: Seq<usize>, q: Seq<usize>, x: T)
    requires
        valid_path(v, p),
        q.is_prefix_of(p),
    ensures
        valid_path(v, q),
        valid_path(subtree(v, q), p.subrange(q.len() as int, p.len() as int)),
        valid_path(after_push(v, p, x), q),
        subtree(after_push(v, p, x), q) == after_push(
            subtree(v, q),
            p.subrange(q.len() as int, p.len() as int),
            x,
        ),
    decreases q.len(),
{
    if q.len() == 0 {
        assert(p.subrange(0, p.len() as int) =~= p);
    } else {
        assert(q[0] == p[0]);
        let i = p[0] as int;
        let p1 = p.subrange(1, p.len() as int);
        let q1 = q.subrange(1, q.len() as int);
        assert(q1.is_prefix_of(p1)) by {
            assert(forall|j: int| 0 <= j < q1.len() ==> q1[j] == q[j + 1] && p1[j] == p[j + 1]);
            assert(q1 =~= p1.subrange(0, q1.len() as int));
        }
        lemma_subtree_after_push(v.kids[i], p1, q1, x);
        assert(p1.subrange(q1.len() as int, p1.len() as int) =~= p.subrange(
            q.len() as int,
            p.len() as int,
        ));
        let a = after_push(v, p, x);
        assert(a.kids[i] == after_push(v.kids[i], p1, x));
        assert(subtree(a, q) == subtree(a.kids[i], q1));
    }
}

/// Pushing at `p` leaves every node outside the path to `p` exactly as it
/// was: any valid path `q` that is not a prefix of `p` still leads to the
/// same subtree, with the same visible sequence.  In particular a push to
/// a node is never seen from its children (upward isolation) nor from any
/// sibling branch (sibling isolation).
pub proof fn lemma_push_isolated<T>(v: TreeView<T>, p: Seq<usize>, q: Seq<usize>, x: T)
    requires
        valid_path(v, p),
        valid_path(v, q),
        !q.is_prefix_of(p),
    ensures
        valid_path(after_push(v, p, x), q),
        subtree(after_push(v, p, x), q) == subtree(v, q),
    decreases q.len(),
{
    let a = after_push(v, p, x);
    if q.len() == 0 {
        assert(q =~= p.subrange(0, 0));
        assert(false);
    } else {
        let qi = q[0] as int;
        let q1 = q.subrange(1, q.len() as int);
        if p.len() == 0 {
            assert(a.kids == v.kids);
            assert(subtree(a, q) == subtree(a.kids[qi], q1));
        } else {
            let pi = p[0] as int;
            let p1 = p.subrange(1, p.len() as int);
            if qi != pi {
                assert(a.kids[qi] == v.kids[qi]);
                assert(subtree(a, q) == subtree(a.kids[qi], q1));
            } else {
                assert(!q1.is_prefix_of(p1)) by {
                    if q1.is_prefix_of(p1) {
                        assert forall|j: int| 0 <= j < q.len() implies q[j] == p.subrange(
                            0,
                            q.len() as int,
                        )[j] by {
                            if j > 0 {
                                assert(q[j] == q1[j - 1]);
                                assert(q1[j - 1] == p1.subrange(0, q1.len() as int)[j - 1]);
                                assert(p1[j - 1] == p[j]);
                            }
                        }
                        assert(q =~= p.subrange(0, q.len() as int));
                    }
                }
                lemma_push_isolated(v.kids[pi], p1, q1, x);
                assert(a.kids[qi] == after_push(v.kids[pi], p1, x));
                assert(subtree(a, q) == subtree(a.kids[qi], q1));
            }
        }
    }
}

/// Downward visibility: a push at `p` is seen from `p` itself and from
/// every ancestor of `p` — each prefix `q` of `p` still leads to a node
/// whose visible sequence is the old one with exactly the pushed element
/// inserted, so it now yields that element too, and still yields
/// everything it yielded before.
pub proof fn lemma_push_seen_by_ancestors<T>(v: TreeView<T>, p: Seq<usize>, q: Seq<usize>, x: T)
    requires
        valid_path(v, p),
        q.is_prefix_of(p),
    ensures
        valid_path(after_push(v, p, x), q),
        exists|k: int|
            0 <= k <= visible(subtree(v, q)).len() && visible(subtree(after_push(v, p, x), q))
                == visible(subtree(v, q)).insert(k, x),
        visible(subtree(after_push(v, p, x), q)).contains(x),
    decreases q.len(),
{
    lemma_subtree_after_push(v, p, q, x);
    let rest = p.subrange(q.len() as int, p.len() as int);
    lemma_push_inserts(subtree(v, q), rest, x);
    let k = choose|k: int|
        0 <= k <= visible(subtree(v, q)).len() && visible(after_push(subtree(v, q), rest, x))
            == visible(subtree(v, q)).insert(k, x);
    visible(subtree(v, q)).insert_ensures(k, x);
    assert(visible(subtree(after_push(v, p, x), q))[k] == x);
}

/// Replacing one node of a list by a node with the same visible sequence
/// keeps the list's concatenated visible sequence.
proof fn lemma_vis_list_update_same<T>(s: Seq<TreeView<T>>, i: int, c: TreeView<T>)
    requires
        0 <= i < s.len(),
        visible(c) == visible(s[i]),
    ensures
        vis_list(s.update(i, c)) == vis_list(s),
    decreases i,
{
    let u = s.update(i, c);
    let tail = s.subrange(1, s.len() as int);
    if i == 0 {
        assert(u.subrange(1, u.len() as int) =~= tail);
    } else {
        assert(u.subrange(1, u.len() as int) =~= tail.update(i - 1, c));
        assert(tail[i - 1] == s[i]);
        lemma_vis_list_update_same(tail, i - 1, c);
    }
}

/// Appending a node with an empty visible sequence to a list keeps the
/// list's concatenated visible sequence.
proof fn lemma_vis_list_push_empty<T>(s: Seq<TreeView<T>>)
    ensures
        vis_list(s.push(empty_view::<T>())) == vis_list(s),
    decreases s.len(),
{
    let u = s.push(empty_view::<T>());
    assert(visible(empty_view::<T>()) =~= Seq::<T>::empty());
    if s.len() == 0 {
        assert(u.subrange(1, u.len() as int) =~= Seq::<TreeView<T>>::empty());
        assert(vis_list(u) =~= Seq::<T>::empty());
    } else {
        assert(u.subrange(1, u.len() as int) =~= s.subrange(1, s.len() as int).push(
            empty_view::<T>(),
        ));
        lemma_vis_list_push_empty(s.subrange(1, s.len() as int));
    }
}

/// Diverging never changes what anybody sees: after a new empty scope is
/// created at `p`, the visible sequence of the whole tree is unchanged.
pub proof fn lemma_scope_preserves_visible<T>(v: TreeView<T>, p: Seq<usize>)
    requires
        valid_path(v, p),
    ensures
        visible(after_scope(v, p)) == visible(v),
    decreases p.len(),
{
    if p.len() == 0 {
        lemma_vis_list_push_empty(v.kids);
    } else {
        let i = p[0] as int;
        let p1 = p.subrange(1, p.len() as int);
        lemma_scope_preserves_visible(v.kids[i], p1);
        lemma_vis_list_update_same(v.kids, i, after_scope(v.kids[i], p1));
    }
}

/// Below a prefix `q` of the divergence path, the divergence commutes with
/// taking the subtree: what happens at `p` in the whole tree happens at
/// the rest of `p` in the subtree at `q`.
pub proof fn lemma_subtree_after_scope<T>(v: TreeView<T>, p: Seq<usize>, q: Seq<usize>)
    requires
        valid_path(v, p),
        q.is_prefix_of(p),
    ensures
        valid_path(v, q),
        valid_path(subtree(v, q), p.subrange(q.len() as int, p.len() as int)),
        valid_path(after_scope(v, p), q),
        subtree(after_scope(v, p), q) == after_scope(
            subtree(v, q),
            p.subrange(q.len() as int, p.len() as int),
        ),
    decreases q.len(),
{
    if q.len() == 0 {
        assert(p.subrange(0, p.len() as int) =~= p);
    } else {
        assert(q[0] == p[0]);
        let i = p[0] as int;
        let p1 = p.subrange(1, p.len() as int);
        let q1 = q.subrange(1, q.len() as int);
        assert(q1.is_prefix_of(p1)) by {
            assert(forall|j: int| 0 <= j < q1.len() ==> q1[j] == q[j + 1] && p1[j] == p[j + 1]);
            assert(q1 =~= p1.subrange(0, q1.len() as int));
        }
        lemma_subtree_after_scope(v.kids[i], p1, q1);
        assert(p1.subrange(q1.len() as int, p1.len() as int) =~= p.subrange(
            q.len() as int,
            p.len() as int,
        ));
        let a = after_scope(v, p);
        assert(a.kids[i] == after_scope(v.kids[i], p1));
        assert(subtree(a, q) == subtree(a.kids[i], q1));
    }
}

/// Diverging at `p` changes what no node sees: the node at `p`, and every
/// ancestor of it, keeps exactly its old visible sequence.
pub proof fn lemma_scope_invisible_to_ancestors<T>(v: TreeView<T>, p: Seq<usize>, q: Seq<usize>)
    requires
        valid_path(v, p),
        q.is_prefix_of(p),
    ensures
        valid_path(after_scope(v, p), q),
        visible(subtree(after_scope(v, p), q)) == visible(subtree(v, q)),
{
    lemma_subtree_after_scope(v, p, q);
    lemma_scope_preserves_visible(subtree(v, q), p.subrange(q.len() as int, p.len() as int));
}

/// Diverging at `p` leaves every node outside the path to `p` exactly as
/// it was: any valid path `q` that is not a prefix of `p` still leads to
/// the same subtree.
pub proof fn lemma_scope_isolated<T>(v: TreeView<T>, p: Seq<usize>, q: Seq<usize>)
    requires
        valid_path(v, p),
        valid_path(v, q),
        !q.is_prefix_of(p),
    ensures
        valid_path(after_scope(v, p), q),
        subtree(after_scope(v, p), q) == subtree(v, q),
    decreases q.len(),
{
    let a = after_scope(v, p);
    if q.len() == 0 {
        assert(q =~= p.subrange(0, 0));
        assert(false);
    } else {
        let qi = q[0] as int;
        let q1 = q.subrange(1, q.len() as int);
        if p.len() == 0 {
            assert(a.kids[qi] == v.kids[qi]);
            assert(subtree(a, q) == subtree(a.kids[qi], q1));
        } else {
            let pi = p[0] as int;
            let p1 = p.subrange(1, p.len() as int);
            if qi != pi {
                assert(a.kids[qi] == v.kids[qi]);
                assert(subtree(a, q) == subtree(a.kids[qi], q1));
            } else {
                assert(!q1.is_prefix_of(p1)) by {
                    if q1.is_prefix_of(p1) {
                        assert forall|j: int| 0 <= j < q.len() implies q[j] == p.subrange(
                            0,
                            q.len() as int,
                        )[j] by {
                            if j > 0 {
                                assert(q[j] == q1[j - 1]);
                                assert(q1[j - 1] == p1.subrange(0, q1.len() as int)[j - 1]);
                                assert(p1[j - 1] == p[j]);
                            }
                        }
                        assert(q =~= p.subrange(0, q.len() as int));
                    }
                }
                lemma_scope_isolated(v.kids[pi], p1, q1);
                assert(a.kids[qi] == after_scope(v.kids[pi], p1));
                assert(subtree(a, q) == subtree(a.kids[qi], q1));
            }
        }
    }
}

/// The scope created at `p` is reachable as the last child of the node at
/// `p`, and starts with nothing visible.
pub proof fn lemma_scope_new_child<T>(v: TreeView<T>, p: Seq<usize>, i: usize)
    requires
        valid_path(v, p),
        i == subtree(v, p).kids.len(),
    ensures
        valid_path(after_scope(v, p), p.push(i)),
        subtree(after_scope(v, p), p.push(i)) == empty_view::<T>(),
        visible(subtree(after_scope(v, p), p.push(i))) == Seq::<T>::empty(),
    decreases p.len(),
{
    assert(visible(empty_view::<T>()) =~= Seq::<T>::empty());
    let a = after_scope(v, p);
    let q = p.push(i);
    if p.len() == 0 {
        assert(q.len() == 1);
        assert(q[0] == i);
        assert(q.subrange(1, q.len() as int) =~= Seq::<usize>::empty());
        assert(a.kids[i as int] == empty_view::<T>());
        assert(subtree(a, q) == subtree(a.kids[i as int], q.subrange(1, q.len() as int)));
        assert(i < a.kids.len());
        assert(valid_path(empty_view::<T>(), q.subrange(1, q.len() as int)));
        assert(valid_path(a, q));
    } else {
        let pi = p[0] as int;
        let p1 = p.subrange(1, p.len() as int);
        lemma_scope_new_child(v.kids[pi], p1, i);
        assert(q[0] == p[0]);
        assert(q.subrange(1, q.len() as int) =~= p1.push(i));
        assert(a.kids[pi] == after_scope(v.kids[pi], p1));
        assert(subtree(a, q) == subtree(a.kids[pi], p1.push(i)));
    }
}

/// A handle's traversal is local to its subtree: neither a push nor a
/// divergence at any path that does not lead through the node at `c`
/// changes what a traversal starting at `c` yields.  So a subtree keeps
/// its visible sequence whatever happens to the rest of the tree — the
/// surviving half of what a still-held child handle relies on once every
/// handle to its ancestors is gone; that the subtree itself survives those
/// drops rests on the cell's reference counting, outside these contracts.
pub proof fn lemma_traversal_unaffected_elsewhere<T>(
    v: TreeView<T>,
    op: Seq<usize>,
    c: Seq<usize>,
    x: T,
)
    requires
        valid_path(v, op),
        valid_path(v, c),
        !c.is_prefix_of(op),
    ensures
        visible(subtree(after_push(v, op, x), c)) == visible(subtree(v, c)),
        visible(subtree(after_scope(v, op), c)) == visible(subtree(v, c)),
{
    lemma_push_isolated(v, op, c, x);
    lemma_scope_isolated(v, op, c);
}

/// Membership consistency: whenever equality on `T` behaves as equality of
/// values, a match search over a node's visible sequence answers exactly
/// whether the value occurs in that sequence — that is, whether a
/// traversal of the node yields an equal element.
pub proof fn lemma_membership_consistency<T: PartialEq>(v: TreeView<T>, x: T)
    requires
        forall|a: T, b: T| #[trigger] a.eq_spec(&b) <==> a == b,
    ensures
        has_match(visible(v), x) <==> visible(v).contains(x),
{
    let s = visible(v);
    if has_match(s, x) {
        let j = choose|j: int| 0 <= j < s.len() && #[trigger] s[j].eq_spec(&x);
        assert(s[j] == x);
    }
    if s.contains(x) {
        let j = choose|j: int| 0 <= j < s.len() && s[j] == x;
        assert(s[j].eq_spec(&x));
    }
}

} // verus!
