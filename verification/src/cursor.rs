//! Positions in a tree that move apart from the tree's own: the read-only
//! cursor, the writing cursor and the position marker.

use crate::iter::{
    ChildIterator, ChildIteratorMut, LazyTreeIterator, LazyTreeIteratorMut, Walk,
};
use crate::laws::{lemma_child_elem_keeps_shape, lemma_elem_keeps_shape};
use crate::node::{
    descend, descend_mut, lemma_path_drop_last, lemma_path_push, lemma_put, lemma_view_unfold, Node,
};
use crate::tree::{Tree, TreeView};
use crate::traverse::{collect_refs, gather_mut, targets, targets_mut};
use vstd::prelude::*;

verus! {

/// A read-only position in a tree that moves on its own. Any number of them
/// can explore the same tree while nothing changes it.
pub struct Cursor<'a, T> {
    pub(crate) root: &'a Node<T>,
    pub(crate) path: Vec<usize>,
}

impl<'a, T> View for Cursor<'a, T> {
    type V = TreeView<T>;

    open(crate) spec fn view(&self) -> TreeView<T> {
        TreeView { root: Some(self.root@), path: self.path@ }
    }
}

impl<'a, T> Cursor<'a, T> {
    /// The node under the cursor.
    pub(crate) fn node(&self) -> (node: &'a Node<T>)
        requires
            self@.live(),
        ensures
            node@ == self@.current(),
    {
        descend(self.root, &self.path)
    }

    /// The element of the node under the cursor.
    pub fn peek(&self) -> (el: &'a T)
        requires
            self@.live(),
        ensures
            *el == self@.current().elem,
    {
        let node = self.node();
        proof {
            lemma_view_unfold(*node);
        }
        &node.elem
    }

    /// The element of the child at `index` of the node under the cursor.
    pub fn peek_child(&self, index: usize) -> (el: &'a T)
        requires
            self@.live(),
            index < self@.current().childs.len(),
        ensures
            *el == self@.current().childs[index as int].elem,
    {
        let node = self.node();
        proof {
            lemma_view_unfold(*node);
            lemma_view_unfold(node.childs@[index as int]);
        }
        &node.childs[index].elem
    }

    /// Moves the cursor to the child at `index`.
    pub fn navigate_to(&mut self, index: usize)
        requires
            old(self)@.live(),
            index < old(self)@.current().childs.len(),
        ensures
            final(self)@ == old(self)@.navigate_to(index),
            final(self)@.current() == old(self)@.current().childs[index as int],
            final(self)@.live(),
    {
        proof {
            lemma_path_push(self@.root.unwrap(), self@.path, index);
        }
        self.path.push(index);
    }

    /// Moves the cursor to the father of the node under it.
    pub fn ascend(&mut self)
        requires
            old(self)@.live(),
            old(self)@.path.len() > 0,
        ensures
            final(self)@ == old(self)@.ascend(),
            final(self)@.live(),
            old(self)@.path.last() < final(self)@.current().childs.len(),
            final(self)@.current().childs[old(self)@.path.last() as int] == old(self)@.current(),
    {
        proof {
            lemma_path_drop_last(self@.root.unwrap(), self@.path);
        }
        self.path.pop();
    }

    /// Whether the node under the cursor has a father.
    pub fn has_father(&self) -> (b: bool)
        ensures
            b == (self@.path.len() > 0),
    {
        self.path.len() > 0
    }

    /// The number of children of the node under the cursor.
    pub fn childs_len(&self) -> (n: usize)
        requires
            self@.live(),
        ensures
            n == self@.current().childs.len(),
    {
        let node = self.node();
        proof {
            lemma_view_unfold(*node);
        }
        node.childs.len()
    }

    /// The elements of the direct children of the node under the cursor, in
    /// sibling order, one at a time.
    pub fn iter_childs(&self) -> (it: ChildIterator<'a, T>)
        requires
            self@.live(),
        ensures
            it.wf(),
            it.remaining() == self@.current().child_elems(),
    {
        let node = self.node();
        let it = ChildIterator { node, i: 0, len: node.childs.len() };
        proof {
            assert(it.remaining() =~= self@.current().child_elems());
        }
        it
    }

    /// The elements of the subtree under the cursor, depth first, one at a
    /// time and without a list of them being made.
    pub fn lazyiter(&self) -> (it: LazyTreeIterator<'a, T>)
        requires
            self@.live(),
        ensures
            it@ == Walk::start(self@),
            it@.wf(),
            it@.remaining() == self@.preorder(),
    {
        LazyTreeIterator::start(Cursor { root: self.root, path: self.path.clone() })
    }

    /// References to the elements of the subtree under the cursor, depth
    /// first.
    pub fn iter(&self) -> (out: Vec<&'a T>)
        requires
            self@.live(),
        ensures
            targets(out@) == self@.preorder(),
    {
        collect_refs(self.node())
    }
}

/// The one writing position in a tree: while it lives nothing else can look
/// at the tree. Its fields are public so that a contract can speak of the
/// tree that the cursor leaves behind when it is dropped, `final(c.root)@`.
pub struct CursorMut<'a, T> {
    pub root: &'a mut Node<T>,
    pub path: Vec<usize>,
}

impl<'a, T> View for CursorMut<'a, T> {
    type V = TreeView<T>;

    open(crate) spec fn view(&self) -> TreeView<T> {
        TreeView { root: Some(self.root@), path: self.path@ }
    }
}

impl<'a, T> CursorMut<'a, T> {
    /// The node under the cursor.
    fn node(&self) -> (node: &Node<T>)
        requires
            self@.live(),
        ensures
            node@ == self@.current(),
    {
        descend(&*self.root, &self.path)
    }

    /// The node under the cursor, borrowed for writing.
    fn node_mut(&mut self) -> (node: &mut Node<T>)
        requires
            old(self)@.live(),
        ensures
            node@ == old(self)@.current(),
            final(self)@ == old(self)@.with_current(final(node)@),
            final(self)@.current() == final(node)@,
            final(self)@.live(),
            *final(final(self).root) == *final(old(self).root),
    {
        let ghost root = self@.root.unwrap();
        let node = descend_mut(self.root, &self.path);
        proof {
            lemma_put(root, self.path@, final(node)@);
        }
        node
    }

    /// The element of the node under the cursor.
    pub fn peek(&self) -> (el: &T)
        requires
            self@.live(),
        ensures
            *el == self@.current().elem,
    {
        let node = self.node();
        proof {
            lemma_view_unfold(*node);
        }
        &node.elem
    }

    /// The element of the node under the cursor, borrowed for writing: the
    /// tree afterwards differs from the tree before in that element alone.
    pub fn peek_mut(&mut self) -> (el: &mut T)
        requires
            old(self)@.live(),
        ensures
            *el == old(self)@.current().elem,
            final(self)@ == old(self)@.with_elem(*final(el)),
            final(self)@.current() == old(self)@.current().with_elem(*final(el)),
            final(self)@.live(),
            *final(final(self).root) == *final(old(self).root),
    {
        let node = self.node_mut();
        let ghost before = *node;
        let ghost after = *final(node);
        proof {
            lemma_view_unfold(before);
            lemma_view_unfold(after);
        }
        let el = &mut node.elem;
        proof {
            assert(after.childs == before.childs);
            assert(after@.childs =~= before@.childs);
        }
        el
    }

    /// The element of the child at `index` of the node under the cursor.
    pub fn peek_child(&self, index: usize) -> (el: &T)
        requires
            self@.live(),
            index < self@.current().childs.len(),
        ensures
            *el == self@.current().childs[index as int].elem,
    {
        let node = self.node();
        proof {
            lemma_view_unfold(*node);
            lemma_view_unfold(node.childs@[index as int]);
        }
        &node.childs[index].elem
    }

    /// The element of the child at `index` of the node under the cursor,
    /// borrowed for writing: the tree afterwards differs in that element
    /// alone.
    pub fn peek_child_mut(&mut self, index: usize) -> (el: &mut T)
        requires
            old(self)@.live(),
            index < old(self)@.current().childs.len(),
        ensures
            *el == old(self)@.current().childs[index as int].elem,
            final(self)@ == old(self)@.with_child_elem(index, *final(el)),
            final(self)@.current() == old(self)@.current().with_child_elem(index, *final(el)),
            final(self)@.live(),
            *final(final(self).root) == *final(old(self).root),
    {
        let node = self.node_mut();
        child_elem_mut(node, index)
    }

    /// Moves the cursor to the child at `index`.
    pub fn navigate_to(&mut self, index: usize)
        requires
            old(self)@.live(),
            index < old(self)@.current().childs.len(),
        ensures
            final(self)@ == old(self)@.navigate_to(index),
            final(self)@.current() == old(self)@.current().childs[index as int],
            final(self)@.live(),
            *final(final(self).root) == *final(old(self).root),
    {
        proof {
            lemma_path_push(self@.root.unwrap(), self@.path, index);
        }
        self.path.push(index);
    }

    /// Moves the cursor to the father of the node under it.
    pub fn ascend(&mut self)
        requires
            old(self)@.live(),
            old(self)@.path.len() > 0,
        ensures
            final(self)@ == old(self)@.ascend(),
            final(self)@.live(),
            old(self)@.path.last() < final(self)@.current().childs.len(),
            final(self)@.current().childs[old(self)@.path.last() as int] == old(self)@.current(),
            *final(final(self).root) == *final(old(self).root),
    {
        proof {
            lemma_path_drop_last(self@.root.unwrap(), self@.path);
        }
        self.path.pop();
    }

    /// Whether the node under the cursor has a father.
    pub fn has_father(&self) -> (b: bool)
        ensures
            b == (self@.path.len() > 0),
    {
        self.path.len() > 0
    }

    /// The number of children of the node under the cursor.
    pub fn childs_len(&self) -> (n: usize)
        requires
            self@.live(),
        ensures
            n == self@.current().childs.len(),
    {
        let node = self.node();
        proof {
            lemma_view_unfold(*node);
        }
        node.childs.len()
    }

    /// The elements of the direct children of the node under the cursor, in
    /// sibling order, one at a time.
    pub fn iter_childs(&self) -> (it: ChildIterator<'_, T>)
        requires
            self@.live(),
        ensures
            it.wf(),
            it.remaining() == self@.current().child_elems(),
    {
        let node = self.node();
        let it = ChildIterator { node, i: 0, len: node.childs.len() };
        proof {
            assert(it.remaining() =~= self@.current().child_elems());
        }
        it
    }

    /// Writing references to the elements of the subtree under the cursor,
    /// depth first. The tree afterwards has the shape it had, and holds at
    /// each place of that subtree what the reference for it was left pointing
    /// to.
    pub fn iter_mut(&mut self) -> (out: Vec<&mut T>)
        requires
            old(self)@.live(),
        ensures
            targets_mut(out@) == old(self)@.preorder(),
            final(self)@.live(),
            final(self)@ == old(self)@.with_current(final(self)@.current()),
            final(self)@.current().same_shape(old(self)@.current()),
            final(self)@.current().preorder().len() == out@.len(),
            forall|i: int|
                0 <= i < out@.len() ==> final(self)@.current().preorder()[i] == *final(
                    #[trigger] out@[i]
                ),
            *final(final(self).root) == *final(old(self).root),
    {
        let mut out: Vec<&mut T> = Vec::new();
        let ghost root = self@.root.unwrap();
        let ghost path = self@.path;
        let node = self.node_mut();
        let ghost before = node@;
        let ghost after = final(node)@;
        gather_mut(node, &mut out);
        proof {
            lemma_put(root, path, after);
            assert forall|i: int| 0 <= i < out@.len() implies *out@[i] == before.preorder()[i] by {
                assert(out@[0 + i] == out@[i]);
            }
            assert(targets_mut(out@) =~= before.preorder());
            assert forall|i: int| 0 <= i < out@.len() implies after.preorder()[i] == *final(
                #[trigger] out@[i]
            ) by {
                assert(out@[0 + i] == out@[i]);
            }
        }
        out
    }

    /// The elements of the direct children of the node under the cursor, in
    /// sibling order, lent for writing one at a time. What the iterator
    /// leaves of that node when it is dropped is the node afterwards.
    pub fn iter_childs_mut(&mut self) -> (it: ChildIteratorMut<'_, T>)
        requires
            old(self)@.live(),
        ensures
            it.wf(),
            it.i == 0,
            it.node@ == old(self)@.current(),
            it.remaining() == old(self)@.current().child_elems(),
            final(self)@ == old(self)@.with_current(final(it.node)@),
            *final(final(self).root) == *final(old(self).root),
    {
        let node = self.node_mut();
        proof {
            lemma_view_unfold(*node);
        }
        let len = node.childs.len();
        let it = ChildIteratorMut { node, i: 0, len };
        proof {
            assert(it.remaining() =~= it.node@.child_elems());
        }
        it
    }

    /// The elements of the subtree under the cursor, depth first, lent for
    /// writing one at a time. What the iterator leaves of the tree when it is
    /// dropped is what the cursor sees afterwards; the cursor stays where it
    /// is.
    pub fn lazyiter_mut(&mut self) -> (it: LazyTreeIteratorMut<'_, T>)
        requires
            old(self)@.live(),
        ensures
            it@ == Walk::start(old(self)@),
            it@.wf(),
            it@.remaining() == old(self)@.preorder(),
            final(self)@ == (TreeView {
                root: Some(final(it.cursor.root)@),
                path: old(self)@.path,
            }),
            *final(final(self).root) == *final(old(self).root),
    {
        let path = self.path.clone();
        LazyTreeIteratorMut::start(CursorMut { root: &mut *self.root, path })
    }

    /// References to the elements of the subtree under the cursor, depth
    /// first.
    pub fn iter(&self) -> (out: Vec<&T>)
        requires
            self@.live(),
        ensures
            targets(out@) == self@.preorder(),
    {
        collect_refs(self.node())
    }

    /// The elements of the subtree under the cursor, depth first, one at a
    /// time and without a list of them being made.
    pub fn lazyiter(&self) -> (it: LazyTreeIterator<'_, T>)
        requires
            self@.live(),
        ensures
            it@ == Walk::start(self@),
            it@.wf(),
            it@.remaining() == self@.preorder(),
    {
        LazyTreeIterator::start(Cursor { root: &*self.root, path: self.path.clone() })
    }
}

/// The element of the child at `index` of `node`, borrowed for writing.
pub(crate) fn child_elem_mut<T>(node: &mut Node<T>, index: usize) -> (el: &mut T)
    requires
        index < old(node)@.childs.len(),
    ensures
        *el == old(node)@.childs[index as int].elem,
        final(node)@ == old(node)@.with_child_elem(index, *final(el)),
{
    let ghost before = *node;
    let ghost after = *final(node);
    proof {
        lemma_view_unfold(before);
        lemma_view_unfold(after);
    }
    let child = &mut node.childs[index];
    let ghost child_before = *child;
    let ghost child_after = *final(child);
    proof {
        lemma_view_unfold(child_before);
        lemma_view_unfold(child_after);
    }
    let el = &mut child.elem;
    proof {
        assert(child_after.childs == child_before.childs);
        assert(child_after@.childs =~= child_before@.childs);
        assert(child_after@ == child_before@.with_elem(*final(el)));
        assert(after.childs@ == before.childs@.update(index as int, child_after));
        assert(after@.childs =~= before@.childs.update(index as int, child_after@));
    }
    el
}

/// A position marker that does not borrow the tree it was made for: any
/// number of them can be kept while the tree is read and written, and each
/// operation is handed the tree. Nothing keeps a marker in step with the
/// tree. That it still names a node of the tree it is used with is for the
/// caller to see to, at every call.
pub struct UnsafeCursor {
    pub(crate) path: Vec<usize>,
}

impl View for UnsafeCursor {
    type V = Seq<usize>;

    open(crate) spec fn view(&self) -> Seq<usize> {
        self.path@
    }
}

impl UnsafeCursor {
    /// The marker names a node of `tree`.
    pub open spec fn fits<T>(&self, tree: TreeView<T>) -> bool {
        tree.at_path(self@).live()
    }

    /// The element of the marked node.
    pub fn peek<'t, T>(&self, tree: &'t Tree<T>) -> (el: &'t T)
        requires
            self.fits(tree@),
        ensures
            *el == tree@.at_path(self@).current().elem,
    {
        let node = tree.node_at(&self.path);
        proof {
            lemma_view_unfold(*node);
        }
        &node.elem
    }

    /// The element of the marked node, borrowed for writing: the tree
    /// afterwards differs from the tree before in that element alone.
    pub fn peek_mut<'t, T>(&self, tree: &'t mut Tree<T>) -> (el: &'t mut T)
        requires
            self.fits(old(tree)@),
        ensures
            *el == old(tree)@.at_path(self@).current().elem,
            final(tree)@ == old(tree)@.at_path(self@).with_elem(*final(el)).at_path(
                old(tree)@.path,
            ),
            final(tree)@.at_path(self@).current() == old(tree)@.at_path(self@).current().with_elem(
                *final(el),
            ),
            forall|path: Seq<usize>| #[trigger]
                final(tree)@.at_path(path).live() == old(tree)@.at_path(path).live(),
    {
        let ghost seen = tree@.at_path(self@);
        let ghost whole = tree@;
        let node = tree.node_at_mut(&self.path);
        let ghost before = *node;
        let ghost after = *final(node);
        proof {
            lemma_view_unfold(before);
            lemma_view_unfold(after);
        }
        let el = &mut node.elem;
        proof {
            assert(after.childs == before.childs);
            assert(after@.childs =~= before@.childs);
            let left = seen.with_elem(*final(el));
            lemma_elem_keeps_shape(seen, *final(el));
            assert forall|path: Seq<usize>| #[trigger]
                left.at_path(whole.path).at_path(path).live() == whole.at_path(path).live() by {
                assert(left.at_path(whole.path).at_path(path) == left.at_path(path));
                assert(whole.at_path(path) == seen.at_path(path));
            }
        }
        el
    }

    /// The element of the child at `index` of the marked node.
    pub fn peek_child<'t, T>(&self, tree: &'t Tree<T>, index: usize) -> (el: &'t T)
        requires
            self.fits(tree@),
            index < tree@.at_path(self@).current().childs.len(),
        ensures
            *el == tree@.at_path(self@).current().childs[index as int].elem,
    {
        let node = tree.node_at(&self.path);
        proof {
            lemma_view_unfold(*node);
            lemma_view_unfold(node.childs@[index as int]);
        }
        &node.childs[index].elem
    }

    /// The element of the child at `index` of the marked node, borrowed for
    /// writing: the tree afterwards differs in that element alone.
    pub fn peek_child_mut<'t, T>(&self, tree: &'t mut Tree<T>, index: usize) -> (el: &'t mut T)
        requires
            self.fits(old(tree)@),
            index < old(tree)@.at_path(self@).current().childs.len(),
        ensures
            *el == old(tree)@.at_path(self@).current().childs[index as int].elem,
            final(tree)@ == old(tree)@.at_path(self@).with_child_elem(index, *final(el)).at_path(
                old(tree)@.path,
            ),
            final(tree)@.at_path(self@).current() == old(tree)@.at_path(
                self@,
            ).current().with_child_elem(index, *final(el)),
            forall|path: Seq<usize>| #[trigger]
                final(tree)@.at_path(path).live() == old(tree)@.at_path(path).live(),
    {
        let ghost seen = tree@.at_path(self@);
        let ghost whole = tree@;
        let node = tree.node_at_mut(&self.path);
        let el = child_elem_mut(node, index);
        proof {
            let left = seen.with_child_elem(index, *final(el));
            lemma_child_elem_keeps_shape(seen, index, *final(el));
            assert forall|path: Seq<usize>| #[trigger]
                left.at_path(whole.path).at_path(path).live() == whole.at_path(path).live() by {
                assert(left.at_path(whole.path).at_path(path) == left.at_path(path));
                assert(whole.at_path(path) == seen.at_path(path));
            }
        }
        el
    }

    /// Moves the marker to the child at `index` of the marked node.
    pub fn navigate_to<T>(&mut self, tree: &Tree<T>, index: usize)
        requires
            old(self).fits(tree@),
            index < tree@.at_path(old(self)@).current().childs.len(),
        ensures
            final(self)@ == old(self)@.push(index),
            final(self).fits(tree@),
            tree@.at_path(final(self)@).current() == tree@.at_path(
                old(self)@,
            ).current().childs[index as int],
    {
        proof {
            lemma_path_push(tree@.root.unwrap(), self@, index);
        }
        self.path.push(index);
    }

    /// Moves the marker to the father of the marked node. A marker that
    /// named a node of a tree names one afterwards: see
    /// `TreeView::lemma_father`.
    pub fn ascend(&mut self)
        requires
            old(self)@.len() > 0,
        ensures
            final(self)@ == old(self)@.drop_last(),
    {
        self.path.pop();
    }

    /// Whether the marked node has a father.
    pub fn has_father(&self) -> (b: bool)
        ensures
            b == (self@.len() > 0),
    {
        self.path.len() > 0
    }

    /// The number of children of the marked node.
    pub fn childs_len<T>(&self, tree: &Tree<T>) -> (n: usize)
        requires
            self.fits(tree@),
        ensures
            n == tree@.at_path(self@).current().childs.len(),
    {
        let node = tree.node_at(&self.path);
        proof {
            lemma_view_unfold(*node);
        }
        node.childs.len()
    }

    /// The elements of the direct children of the marked node, in sibling
    /// order, one at a time.
    pub fn iter_childs<'t, T>(&self, tree: &'t Tree<T>) -> (it: ChildIterator<'t, T>)
        requires
            self.fits(tree@),
        ensures
            it.wf(),
            it.remaining() == tree@.at_path(self@).current().child_elems(),
    {
        let node = tree.node_at(&self.path);
        let it = ChildIterator { node, i: 0, len: node.childs.len() };
        proof {
            assert(it.remaining() =~= tree@.at_path(self@).current().child_elems());
        }
        it
    }
}

} // verus!
