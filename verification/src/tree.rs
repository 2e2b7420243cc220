//! The owned tree of append-only element lists.
//!
//! A `Tree` is one node of the structure: its own elements, in insertion
//! order, and its child nodes, in creation order.  Everything a traversal
//! can observe is captured by the ghost model `TreeView` and the spec
//! function [`visible`]: a node's own elements followed by the visible
//! sequence of each child, recursively.
//!
//! Nodes inside a tree are addressed by paths: a path is the sequence of
//! child indices leading from the tree's root down to a node.

use vstd::prelude::*;
use vstd::std_specs::cmp::PartialEqSpec;

verus! {

broadcast use
    vstd::std_specs::vec::axiom_vec_index_decreases,
    vstd::std_specs::vec::axiom_vec_decreases_to_view,
    vstd::seq::axiom_seq_index_decreases,
    vstd::seq::axiom_seq_subrange_decreases;

/// The mathematical value of one node: its own elements and the values of
/// its children, in creation order.
#[verifier::ext_equal]
pub struct TreeView<T> {
    pub elems: Seq<T>,
    pub kids: Seq<TreeView<T>>,
}

/// The value of a node with no elements and no children.
pub open spec fn empty_view<T>() -> TreeView<T> {
    TreeView { elems: Seq::empty(), kids: Seq::empty() }
}

/// The visible sequence of a node: its own elements, in insertion order,
/// followed by the visible sequence of each child, in creation order.
pub open spec fn visible<T>(v: TreeView<T>) -> Seq<T>
    decreases v,
{
    v.elems + vis_list(v.kids)
}

/// The concatenation of the visible sequences of a list of nodes.
pub open spec fn vis_list<T>(s: Seq<TreeView<T>>) -> Seq<T>
    decreases s,
{
    if s.len() == 0 {
        Seq::empty()
    } else {
        visible(s[0]) + vis_list(s.subrange(1, s.len() as int))
    }
}

/// Whether `p` leads from the root of `v` to a node of `v`.
pub open spec fn valid_path<T>(v: TreeView<T>, p: Seq<usize>) -> bool
    decreases p.len(),
{
    p.len() == 0 || (p[0] < v.kids.len() && valid_path(
        v.kids[p[0] as int],
        p.subrange(1, p.len() as int),
    ))
}

/// The node of `v` that `p` leads to.
pub open spec fn subtree<T>(v: TreeView<T>, p: Seq<usize>) -> TreeView<T>
    decreases p.len(),
{
    if p.len() == 0 {
        v
    } else {
        subtree(v.kids[p[0] as int], p.subrange(1, p.len() as int))
    }
}

/// The tree after appending `x` to the elements of the node at `p`.
pub open spec fn after_push<T>(v: TreeView<T>, p: Seq<usize>, x: T) -> TreeView<T>
    decreases p.len(),
{
    if p.len() == 0 {
        TreeView { elems: v.elems.push(x), kids: v.kids }
    } else {
        TreeView {
            elems: v.elems,
            kids: v.kids.update(
                p[0] as int,
                after_push(v.kids[p[0] as int], p.subrange(1, p.len() as int), x),
            ),
        }
    }
}

/// The tree after appending a fresh empty child to the node at `p`.
pub open spec fn after_scope<T>(v: TreeView<T>, p: Seq<usize>) -> TreeView<T>
    decreases p.len(),
{
    if p.len() == 0 {
        TreeView { elems: v.elems, kids: v.kids.push(empty_view()) }
    } else {
        TreeView {
            elems: v.elems,
            kids: v.kids.update(
                p[0] as int,
                after_scope(v.kids[p[0] as int], p.subrange(1, p.len() as int)),
            ),
        }
    }
}

/// Whether some element of `s` compares equal to `x` under `eq`.
pub open spec fn has_match<T: PartialEq>(s: Seq<T>, x: T) -> bool {
    exists|j: int| 0 <= j < s.len() && #[trigger] s[j].eq_spec(&x)
}

/// One node of the tree: an append-only list of elements and an
/// append-only list of children.
pub struct Tree<T> {
    elems: Vec<T>,
    children: Vec<Tree<T>>,
}

impl<T: Clone> Clone for Tree<T> {
    fn clone(&self) -> (res: Self)
        decreases *self,
    {
        let elems = self.elems.clone();
        let mut children: Vec<Tree<T>> = Vec::new();
        let mut i: usize = 0;
        while i < self.children.len()
            decreases self.children.len() - i,
        {
            children.push(self.children[i].clone());
            i = i + 1;
        }
        Tree { elems, children }
    }
}

/// The model of a tree: the views of its elements and of its children.
pub closed spec fn tree_view<T>(t: Tree<T>) -> TreeView<T>
    decreases t,
{
    TreeView { elems: t.elems@, kids: kids_view(t.children@) }
}

/// The models of a list of trees.
pub closed spec fn kids_view<T>(s: Seq<Tree<T>>) -> Seq<TreeView<T>>
    decreases s,
{
    if s.len() == 0 {
        Seq::empty()
    } else {
        seq![tree_view(s[0])] + kids_view(s.subrange(1, s.len() as int))
    }
}

/// `kids_view` maps each tree of a list to its model, position by position.
pub broadcast proof fn lemma_kids_view<T>(s: Seq<Tree<T>>)
    ensures
        (#[trigger] kids_view(s)).len() == s.len(),
        forall|i: int| 0 <= i < s.len() ==> kids_view(s)[i] == tree_view(s[i]),
    decreases s.len(),
{
    if s.len() > 0 {
        let rest = s.subrange(1, s.len() as int);
        lemma_kids_view(rest);
        assert forall|i: int| 0 <= i < s.len() implies kids_view(s)[i] == tree_view(s[i]) by {
            if i > 0 {
                assert(rest[i - 1] == s[i]);
            }
        }
    }
}

impl<T> View for Tree<T> {
    type V = TreeView<T>;

    closed spec fn view(&self) -> TreeView<T> {
        tree_view(*self)
    }
}

impl<T> Tree<T> {
    /// A fresh node with no elements and no children.
    pub fn new() -> (t: Self)
        ensures
            t@ == empty_view::<T>(),
    {
        let t = Tree { elems: Vec::new(), children: Vec::new() };
        proof {
            assert(t@.elems =~= Seq::<T>::empty());
            assert(t@.kids =~= Seq::<TreeView<T>>::empty());
            assert(t@ =~= empty_view::<T>());
        }
        t
    }

    /// Append `x` to the elements of the node that `path` leads to.
    /// Returns `false`, and leaves the tree unchanged, when `path` leads
    /// nowhere.
    pub fn push_at(&mut self, path: &Vec<usize>, x: T) -> (ok: bool)
        ensures
            ok == valid_path(old(self)@, path@),
            ok ==> final(self)@ == after_push(old(self)@, path@, x),
            !ok ==> final(self)@ == old(self)@,
    {
        proof {
            assert(path@.subrange(0, path@.len() as int) =~= path@);
        }
        self.push_rec(path, 0, x)
    }

    fn push_rec(&mut self, path: &Vec<usize>, pos: usize, x: T) -> (ok: bool)
        requires
            pos <= path@.len(),
        ensures
            ok == valid_path(old(self)@, path@.subrange(pos as int, path@.len() as int)),
            ok ==> final(self)@ == after_push(
                old(self)@,
                path@.subrange(pos as int, path@.len() as int),
                x,
            ),
            !ok ==> final(self)@ == old(self)@,
        decreases path@.len() - pos,
    {
        let ghost p = path@.subrange(pos as int, path@.len() as int);
        if pos == path.len() {
            self.elems.push(x);
            proof {
                assert(self@ =~= after_push(old(self)@, p, x));
            }
            true
        } else {
            let idx = path[pos];
            proof {
                broadcast use lemma_kids_view;

                assert(p[0] == idx);
                assert(self@.kids == kids_view(self.children@));
            }
            if idx >= self.children.len() {
                proof {
                    assert(!valid_path(self@, p));
                }
                false
            } else {
                let mut c = self.children.remove(idx);
                let ghost c0 = c@;
                let ok = c.push_rec(path, pos + 1, x);
                self.children.insert(idx, c);
                proof {
                    broadcast use lemma_kids_view;

                    let p1 = path@.subrange(pos as int + 1, path@.len() as int);
                    assert(p.subrange(1, p.len() as int) =~= p1);
                    assert(old(self)@.kids == kids_view(old(self).children@));
                    assert(self@.kids == kids_view(self.children@));
                    assert(self.children@ =~= old(self).children@.update(idx as int, c));
                    assert(c0 == tree_view(old(self).children@[idx as int]));
                    assert(c0 == old(self)@.kids[idx as int]);
                    assert(self@.kids =~= old(self)@.kids.update(idx as int, c@));
                    if ok {
                        assert(self@ =~= after_push(old(self)@, p, x));
                    } else {
                        assert(self@.kids =~= old(self)@.kids);
                        assert(self@ =~= old(self)@);
                    }
                }
                ok
            }
        }
    }

    /// Create a fresh empty child of the node that `path` leads to, and
    /// return its index in that node's list of children.  Returns `None`,
    /// and leaves the tree unchanged, when `path` leads nowhere.
    pub fn scope_at(&mut self, path: &Vec<usize>) -> (r: Option<usize>)
        ensures
            r is Some <==> valid_path(old(self)@, path@),
            r matches Some(i) ==> i == subtree(old(self)@, path@).kids.len() && final(self)@
                == after_scope(old(self)@, path@),
            r is None ==> final(self)@ == old(self)@,
    {
        proof {
            assert(path@.subrange(0, path@.len() as int) =~= path@);
        }
        self.scope_rec(path, 0)
    }

    fn scope_rec(&mut self, path: &Vec<usize>, pos: usize) -> (r: Option<usize>)
        requires
            pos <= path@.len(),
        ensures
            r is Some <==> valid_path(old(self)@, path@.subrange(pos as int, path@.len() as int)),
            r matches Some(i) ==> i == subtree(
                old(self)@,
                path@.subrange(pos as int, path@.len() as int),
            ).kids.len() && final(self)@ == after_scope(
                old(self)@,
                path@.subrange(pos as int, path@.len() as int),
            ),
            r is None ==> final(self)@ == old(self)@,
        decreases path@.len() - pos,
    {
        let ghost p = path@.subrange(pos as int, path@.len() as int);
        if pos == path.len() {
            let i = self.children.len();
            let c = Tree::new();
            let ghost cv = c@;
            self.children.push(c);
            proof {
                broadcast use lemma_kids_view;

                assert(old(self)@.kids == kids_view(old(self).children@));
                assert(self@.kids == kids_view(self.children@));
                assert(self.children@.len() == old(self).children@.len() + 1);
                assert forall|j: int| 0 <= j < self.children@.len() implies #[trigger] self@.kids[j]
                    == old(self)@.kids.push(empty_view())[j] by {
                    if j < old(self).children@.len() {
                        assert(self.children@[j] == old(self).children@[j]);
                    } else {
                        assert(self@.kids[j] == cv);
                    }
                }
                assert(self@.kids =~= old(self)@.kids.push(empty_view()));
                assert(i == old(self)@.kids.len());
                assert(self@ =~= after_scope(old(self)@, p));
            }
            Some(i)
        } else {
            let idx = path[pos];
            proof {
                broadcast use lemma_kids_view;

                assert(p[0] == idx);
                assert(self@.kids == kids_view(self.children@));
            }
            if idx >= self.children.len() {
                proof {
                    assert(!valid_path(self@, p));
                }
                None
            } else {
                let mut c = self.children.remove(idx);
                let ghost c0 = c@;
                let r = c.scope_rec(path, pos + 1);
                self.children.insert(idx, c);
                proof {
                    broadcast use lemma_kids_view;

                    let p1 = path@.subrange(pos as int + 1, path@.len() as int);
                    assert(p.subrange(1, p.len() as int) =~= p1);
                    assert(old(self)@.kids == kids_view(old(self).children@));
                    assert(self@.kids == kids_view(self.children@));
                    assert(self.children@ =~= old(self).children@.update(idx as int, c));
                    assert(c0 == tree_view(old(self).children@[idx as int]));
                    assert(c0 == old(self)@.kids[idx as int]);
                    assert(self@.kids =~= old(self)@.kids.update(idx as int, c@));
                    if r is Some {
                        assert(self@ =~= after_scope(old(self)@, p));
                    } else {
                        assert(self@.kids =~= old(self)@.kids);
                        assert(self@ =~= old(self)@);
                    }
                }
                r
            }
        }
    }

    /// Give up the whole tree for the node that `path` leads to, with
    /// everything below it.  Returns `None` when `path` leads nowhere.
    pub fn into_subtree(self, path: &Vec<usize>) -> (r: Option<Tree<T>>)
        ensures
            r is Some <==> valid_path(self@, path@),
            r matches Some(t) ==> t@ == subtree(self@, path@),
    {
        proof {
            assert(path@.subrange(0, path@.len() as int) =~= path@);
        }
        self.into_subtree_rec(path, 0)
    }

    fn into_subtree_rec(self, path: &Vec<usize>, pos: usize) -> (r: Option<Tree<T>>)
        requires
            pos <= path@.len(),
        ensures
            r is Some <==> valid_path(self@, path@.subrange(pos as int, path@.len() as int)),
            r matches Some(t) ==> t@ == subtree(
                self@,
                path@.subrange(pos as int, path@.len() as int),
            ),
        decreases path@.len() - pos,
    {
        let ghost v0 = self@;
        let ghost s0 = self.children@;
        let ghost p = path@.subrange(pos as int, path@.len() as int);
        if pos == path.len() {
            Some(self)
        } else {
            let idx = path[pos];
            proof {
                broadcast use lemma_kids_view;

                assert(p[0] == idx);
                assert(v0.kids == kids_view(s0));
            }
            if idx >= self.children.len() {
                proof {
                    assert(!valid_path(v0, p));
                }
                None
            } else {
                let mut s = self;
                let c = s.children.remove(idx);
                proof {
                    broadcast use lemma_kids_view;

                    let p1 = path@.subrange(pos as int + 1, path@.len() as int);
                    assert(p.subrange(1, p.len() as int) =~= p1);
                    assert(c@ == tree_view(s0[idx as int]));
                    assert(c@ == v0.kids[idx as int]);
                }
                c.into_subtree_rec(path, pos + 1)
            }
        }
    }

    /// The visible sequence of this tree, as one owned list: the node's own
    /// elements, then each child's visible sequence, in creation order.
    pub fn flatten(self) -> (r: Vec<T>)
        ensures
            r@ == visible(self@),
        decreases self,
    {
        let ghost v0 = self@;
        let Tree { elems, children } = self;
        let mut out = elems;
        let mut rest = flatten_list(children);
        out.append(&mut rest);
        proof {
            assert(out@ == v0.elems + vis_list(v0.kids));
        }
        out
    }
}

/// The concatenated visible sequences of a list of trees, as one owned list.
fn flatten_list<T>(s: Vec<Tree<T>>) -> (r: Vec<T>)
    ensures
        r@ == vis_list(kids_view(s@)),
    decreases s@,
{
    let mut s = s;
    if s.len() == 0 {
        proof {
            broadcast use lemma_kids_view;

            assert(vis_list(kids_view(s@)) =~= Seq::<T>::empty());
        }
        Vec::new()
    } else {
        let ghost s0 = s@;
        let c = s.remove(0);
        let mut out = c.flatten();
        let mut rest = flatten_list(s);
        out.append(&mut rest);
        proof {
            broadcast use lemma_kids_view;

            assert(s@ =~= s0.subrange(1, s0.len() as int));
            assert(kids_view(s0)[0] == c@);
            assert(kids_view(s0).subrange(1, kids_view(s0).len() as int) =~= kids_view(
                s0.subrange(1, s0.len() as int),
            ));
        }
        out
    }
}

/// Whether `x` compares equal, under `eq`, to some element of `v`.
pub fn seq_has<T: PartialEq>(v: &Vec<T>, x: &T) -> (r: bool)
    ensures
        T::obeys_eq_spec() ==> r == has_match(v@, *x),
{
    let mut i: usize = 0;
    while i < v.len()
        invariant
            i <= v@.len(),
            T::obeys_eq_spec() ==> !has_match(v@.subrange(0, i as int), *x),
        decreases v@.len() - i,
    {
        if v[i].eq(x) {
            proof {
                if T::obeys_eq_spec() {
                    assert(v@[i as int].eq_spec(x));
                }
            }
            return true;
        }
        proof {
            if T::obeys_eq_spec() {
                assert forall|j: int| 0 <= j < i + 1 implies !(#[trigger] v@.subrange(
                    0,
                    i as int + 1,
                )[j].eq_spec(x)) by {
                    if j < i {
                        assert(v@.subrange(0, i as int)[j] == v@.subrange(0, i as int + 1)[j]);
                    } else {
                        assert(v@.subrange(0, i as int + 1)[j] == v@[i as int]);
                    }
                }
            }
        }
        i = i + 1;
    }
    proof {
        assert(v@.subrange(0, v@.len() as int) =~= v@);
    }
    false
}

} // verus!
