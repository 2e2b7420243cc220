//! A tree-structured, append-only sequence container.
//!
//! A root sequence may be diverged into any number of child scopes, each of
//! which may diverge further.  Every node owns its own append-only list of
//! elements; traversing a handle yields the node's own elements followed by
//! the elements of every descendant, in creation order, and never the
//! elements of ancestors or siblings.
//!
//! A [`ScopedVec`] is a shared handle to one node: clones of a handle, and
//! the handle a parent keeps of each child, all address the same node, so a
//! push through any alias is seen by every traversal that starts at the
//! node or above it.  The tree itself lives in one reference-counted,
//! reader/writer-locked cell (see `shared`), and every handle addresses its
//! node by the path of child indices leading down from the cell's root.
//! Since nodes are only ever appended, never removed, a path stays valid
//! for as long as any handle holds the cell.
//!
//! The verified model of the structure is [`tree::Tree`] and its ghost
//! value [`tree::TreeView`]: what `push`, `scope` and traversal do to a
//! tree, and what a traversal yields, is stated and proved there, and the
//! laws relating them are proved in [`laws`].  The cell itself is shared
//! mutable state, which the verifier cannot track across calls, so each
//! handle operation names the cell contents it worked on: mutating
//! operations run the verified tree operation in place while the cell's
//! writer lock is held — so concurrent appends are serialized, never lost —
//! and return a ghost trace of the tree they found and what they made of
//! it; reading operations copy the tree out under the reader lock and
//! carry a ghost snapshot their result is proved against.

use std::sync::Arc;
use std::sync::RwLock;
use vstd::prelude::*;
use vstd::std_specs::cmp::PartialEqSpec;

pub mod laws;
mod shared;
pub mod tree;

use crate::tree::after_push;
use crate::tree::empty_view;
use crate::tree::has_match;
use crate::tree::subtree;
use crate::tree::valid_path;
use crate::tree::visible;
use crate::tree::Tree;
use crate::tree::TreeView;

verus! {

/// A handle to one scope of a tree of append-only sequences.
///
/// Cloning a `ScopedVec` yields another handle to the same scope, not a
/// copy: a value pushed through either is seen when traversing the other,
/// and when traversing any handle above them.
#[verifier::reject_recursive_types(T)]
pub struct ScopedVec<T: Clone> {
    cell: Arc<RwLock<Tree<T>>>,
    path: Vec<usize>,
    init: Ghost<TreeView<T>>,
}

impl<T: Clone> ScopedVec<T> {
    /// The path of child indices from the root of this handle's cell down
    /// to the node this handle addresses.
    pub closed spec fn spec_path(&self) -> Seq<usize> {
        self.path@
    }

    /// The tree value this handle's cell was created holding.
    pub closed spec fn initial_contents(&self) -> TreeView<T> {
        self.init@
    }

    /// Whether this handle addresses the root node of its cell's tree.
    pub closed spec fn is_root_handle(&self) -> bool {
        self.path@.len() == 0
    }

    /// Whether two handles hold the same cell value and address the same
    /// node of it.
    pub closed spec fn same_scope(&self, other: &Self) -> bool {
        self.cell == other.cell && self.path@ == other.path@
    }

    /// Whether `self` addresses, in the same cell, a direct child of the
    /// node that `parent` addresses.
    pub closed spec fn is_child_of(&self, parent: &Self) -> bool {
        self.cell == parent.cell && exists|i: usize| self.path@ == parent.path@.push(i)
    }

    /// A fresh root handle to a new, empty tree of its own.
    pub fn new() -> (r: Self)
        ensures
            r.is_root_handle(),
            r.initial_contents() == empty_view::<T>(),
    {
        let t = Tree::new();
        let ghost t0 = t@;
        ScopedVec { cell: Arc::new(shared::new_lock(t)), path: Vec::new(), init: Ghost(t0) }
    }

    /// Diverge this handle's scope: create a fresh, empty child node under
    /// it, in place under the cell's writer lock, and return a handle to
    /// the child.
    ///
    /// The child starts empty; what is pushed through the returned handle
    /// is seen by traversals of this handle and of its ancestors, and by
    /// nobody else.  For a root handle the divergence cannot fail: the
    /// empty path leads to a node in every tree.  For a deeper handle it
    /// fails only if the cell no longer contains the handle's node — which
    /// cannot happen through this interface, since nodes are never
    /// removed — and then a fresh detached root is returned instead.
    pub fn scope(&mut self) -> (r: ScopedVec<T>)
        ensures
            final(self).same_scope(old(self)),
            r.is_child_of(final(self)) || r.is_root_handle(),
            old(self).is_root_handle() ==> r.is_child_of(final(self)),
    {
        let mut g = shared::lock_write(&self.cell);
        let t = shared::guard_mut(&mut g);
        let ghost seen = t@;
        let r = t.scope_at(&self.path);
        match r {
            Some(i) => {
                let mut p = clone_path(&self.path);
                p.push(i);
                let child = ScopedVec {
                    cell: shared::share(&self.cell),
                    path: p,
                    init: self.init,
                };
                proof {
                    assert(child.path@ == self.path@.push(i));
                }
                child
            },
            None => {
                proof {
                    if self.path@.len() == 0 {
                        assert(valid_path(seen, self.path@));
                    }
                }
                ScopedVec::new()
            },
        }
    }

    /// Append `val` to this handle's own scope, in place under the cell's
    /// writer lock.
    ///
    /// The value becomes the last element of the node's own list, visible
    /// to traversals of this handle and of every handle above it.  The
    /// returned ghost trace names the tree the cell held when the lock was
    /// granted and, when the handle's path led to a node of it — which it
    /// always does through this interface — the tree the cell holds on
    /// release: the old one with exactly `val` appended at the path.
    pub fn push(&mut self, val: T) -> (trace: Ghost<(TreeView<T>, Option<TreeView<T>>)>)
        ensures
            final(self).same_scope(old(self)),
            valid_path(trace@.0, old(self).spec_path()) <==> trace@.1 is Some,
            trace@.1 matches Some(w) ==> w == after_push(trace@.0, old(self).spec_path(), val),
    {
        let mut g = shared::lock_write(&self.cell);
        let t = shared::guard_mut(&mut g);
        let ghost seen = t@;
        let ok = t.push_at(&self.path, val);
        if ok {
            Ghost((seen, Some(t@)))
        } else {
            Ghost((seen, None))
        }
    }

    /// Traverse this handle's scope: the node's own elements in push
    /// order, then each child's traversal, in scope-creation order.
    ///
    /// The traversal works on a snapshot of the tree taken under the
    /// cell's reader lock when `iter` is called; writes made through other
    /// handles after that are not observed.  The iterator carries that
    /// snapshot as its ghost [`ScopedVecIterator::snapshot`], and yields
    /// exactly the visible sequence of the snapshot's node at this
    /// handle's path — everything below that node, nothing of its
    /// ancestors or siblings.
    pub fn iter(&self) -> (it: ScopedVecIterator<T>)
        ensures
            valid_path(it.snapshot(), self.spec_path()) ==> it@ == visible(
                subtree(it.snapshot(), self.spec_path()),
            ),
            !valid_path(it.snapshot(), self.spec_path()) ==> it@ == Seq::<T>::empty(),
    {
        let t = shared::read_copy(&self.cell);
        let ghost seen = t@;
        match t.into_subtree(&self.path) {
            Some(sub) => ScopedVecIterator { rest: sub.flatten(), snap: Ghost(seen) },
            None => {
                let it = ScopedVecIterator { rest: Vec::new(), snap: Ghost(seen) };
                proof {
                    assert(it@ =~= Seq::<T>::empty());
                }
                it
            },
        }
    }
}

impl<T: Clone + PartialEq> ScopedVec<T> {
    /// Whether `val` equals some element that a traversal of this handle,
    /// started now, would yield.
    ///
    /// Computed on the same kind of snapshot a traversal takes, returned
    /// here as the ghost half of the result: whenever equality on `T`
    /// keeps its contract, the answer is exactly whether the visible
    /// sequence of the snapshot's node at this handle's path holds a
    /// matching element.
    pub fn contains(&self, val: &T) -> (res: (bool, Ghost<TreeView<T>>))
        ensures
            !valid_path(res.1@, self.spec_path()) ==> res.0 == false,
            T::obeys_eq_spec() && valid_path(res.1@, self.spec_path()) ==> res.0 == has_match(
                visible(subtree(res.1@, self.spec_path())),
                *val,
            ),
    {
        let t = shared::read_copy(&self.cell);
        let ghost seen = t@;
        match t.into_subtree(&self.path) {
            Some(sub) => {
                let items = sub.flatten();
                (tree::seq_has(&items, val), Ghost(seen))
            },
            None => (false, Ghost(seen)),
        }
    }
}

impl<T: Clone> Clone for ScopedVec<T> {
    /// Another handle to the same scope, sharing the same cell: a push
    /// through the clone is seen when traversing the original, and the
    /// other way round.
    fn clone(&self) -> (r: Self)
        ensures
            r.same_scope(self),
            r.initial_contents() == self.initial_contents(),
    {
        ScopedVec { cell: shared::share(&self.cell), path: clone_path(&self.path), init: self.init }
    }
}

/// An owned copy of a path of child indices.
fn clone_path(p: &Vec<usize>) -> (r: Vec<usize>)
    ensures
        r@ == p@,
{
    let mut r: Vec<usize> = Vec::new();
    let mut i: usize = 0;
    while i < p.len()
        invariant
            i <= p@.len(),
            r@ == p@.subrange(0, i as int),
        decreases p@.len() - i,
    {
        r.push(p[i]);
        proof {
            assert(r@ =~= p@.subrange(0, i as int + 1));
        }
        i = i + 1;
    }
    proof {
        assert(p@.subrange(0, p@.len() as int) =~= p@);
    }
    r
}

/// A traversal of one scope: the visible sequence, at the starting
/// handle's node, of a snapshot of the shared tree, yielded front to back.
///
/// The view of an iterator is the sequence of elements it has yet to
/// yield; [`ScopedVecIterator::snapshot`] is the whole tree the snapshot
/// was taken of.
pub struct ScopedVecIterator<T> {
    rest: Vec<T>,
    snap: Ghost<TreeView<T>>,
}

impl<T> View for ScopedVecIterator<T> {
    type V = Seq<T>;

    closed spec fn view(&self) -> Seq<T> {
        self.rest@
    }
}

impl<T> ScopedVecIterator<T> {
    /// The tree the shared cell held when this traversal snapshotted it.
    pub closed spec fn snapshot(&self) -> TreeView<T> {
        self.snap@
    }

    /// The next element of the traversal, or `None` once it is exhausted.
    pub fn next(&mut self) -> (r: Option<T>)
        ensures
            old(self)@.len() == 0 ==> r is None && final(self)@ == old(self)@,
            old(self)@.len() > 0 ==> r == Some(old(self)@[0]) && final(self)@ == old(
                self,
            )@.drop_first(),
            final(self).snapshot() == old(self).snapshot(),
    {
        if self.rest.len() == 0 {
            None
        } else {
            let x = self.rest.remove(0);
            proof {
                assert(self.rest@ =~= old(self).rest@.drop_first());
            }
            Some(x)
        }
    }
}

} // verus!
