//! The tree with its current position, and the operations relative to it.

use crate::cursor::{child_elem_mut, Cursor, CursorMut, UnsafeCursor};
use crate::iter::{
    ChildIterator, ChildIteratorMut, LazyTreeIterator, LazyTreeIteratorMut, Walk,
};
use crate::node::{
    descend, descend_mut, lemma_cloned_paths, lemma_path_drop_last, lemma_path_push, lemma_put,
    lemma_view_unfold, Node, Shape,
};
use crate::traverse::{clone_node, collect, collect_refs, gather_mut, targets, targets_mut};
use vstd::prelude::*;

verus! {

/// What a tree, or a cursor into one, stands for: the whole tree, if there is
/// one, and the child indices that lead from its root to the current position.
pub struct TreeView<T> {
    pub root: Option<Shape<T>>,
    pub path: Seq<usize>,
}

impl<T> TreeView<T> {
    /// The current position names a node of the tree; an empty tree has none.
    pub open spec fn wf(self) -> bool {
        match self.root {
            Some(r) => r.has_path(self.path),
            None => self.path.len() == 0,
        }
    }

    /// There is a tree and the current position is a node of it.
    pub open spec fn live(self) -> bool {
        self.root.is_some() && self.wf()
    }

    /// The subtree at the current position.
    pub open spec fn current(self) -> Shape<T> {
        self.root.unwrap().at(self.path)
    }

    /// The same position in the tree whose subtree there is `sub`.
    pub open spec fn with_current(self, sub: Shape<T>) -> TreeView<T> {
        TreeView { root: Some(self.root.unwrap().put(self.path, sub)), path: self.path }
    }

    /// The same position in the tree whose current node has lost its child
    /// at `index`, with all below it.
    pub open spec fn without_child(self, index: usize) -> TreeView<T> {
        self.with_current(self.current().with_childs(self.current().childs.remove(index as int)))
    }

    /// The elements of the subtree at the current position, depth first; none
    /// where there is no tree.
    pub open spec fn preorder(self) -> Seq<T> {
        if self.root.is_some() {
            self.current().preorder()
        } else {
            Seq::empty()
        }
    }

    /// After `Tree::navigate_to`: the position at the child at `index`.
    pub open spec fn navigate_to(self, index: usize) -> TreeView<T> {
        self.at_path(self.path.push(index))
    }

    /// After `Tree::ascend`: the position at the father.
    pub open spec fn ascend(self) -> TreeView<T> {
        self.at_path(self.path.drop_last())
    }

    /// After `Tree::go_to_root`: the position at the root.
    pub open spec fn go_to_root(self) -> TreeView<T> {
        self.at_path(Seq::empty())
    }

    /// After `Tree::push`: `el` is a new last child of the current node.
    pub open spec fn push(self, el: T) -> TreeView<T> {
        self.with_current(self.current().with_childs(self.current().childs.push(Shape::leaf(el))))
    }

    /// After `Tree::push_iter`: the elements of `elems` are new last
    /// children of the current node, in order.
    pub open spec fn push_iter(self, elems: Seq<T>) -> TreeView<T> {
        self.with_current(
            self.current().with_childs(self.current().childs + Shape::leaves(elems)),
        )
    }

    /// After `Tree::insert`: `el` is the child at `index` of the current
    /// node, before the children that stood there and after.
    pub open spec fn insert(self, index: usize, el: T) -> TreeView<T> {
        self.graft(index, Shape::leaf(el))
    }

    /// After `Tree::join`: the tree `sub` is the child at `index` of the
    /// current node, before the children that stood there and after.
    pub open spec fn graft(self, index: usize, sub: Shape<T>) -> TreeView<T> {
        self.with_current(
            self.current().with_childs(self.current().childs.insert(index as int, sub)),
        )
    }

    /// What `Tree::split` returns: the child at `index` as a tree of its own.
    pub open spec fn child_tree(self, index: usize) -> TreeView<T> {
        TreeView { root: Some(self.current().childs[index as int]), path: Seq::empty() }
    }

    /// The tree with the current node's element replaced by `el`.
    pub open spec fn with_elem(self, el: T) -> TreeView<T> {
        self.with_current(self.current().with_elem(el))
    }

    /// The tree with the element of the current node's child at `index`
    /// replaced by `el`.
    pub open spec fn with_child_elem(self, index: usize, el: T) -> TreeView<T> {
        self.with_current(self.current().with_child_elem(index, el))
    }

    /// The tree of the single element `el`, positioned at it.
    pub open spec fn single(el: T) -> TreeView<T> {
        TreeView { root: Some(Shape::leaf(el)), path: Seq::empty() }
    }

    /// No tree.
    pub open spec fn empty() -> TreeView<T> {
        TreeView { root: None, path: Seq::empty() }
    }

    /// The same tree seen from another position.
    pub open spec fn at_path(self, path: Seq<usize>) -> TreeView<T> {
        TreeView { root: self.root, path }
    }
}

impl<T> TreeView<T> {
    /// A position below the root has a father: the path cut by one names a
    /// node, and the node at the position is that node's child at the index
    /// that was cut off.
    pub proof fn lemma_father(self)
        requires
            self.live(),
            self.path.len() > 0,
        ensures
            self.at_path(self.path.drop_last()).live(),
            self.path.last() < self.at_path(self.path.drop_last()).current().childs.len(),
            self.at_path(self.path.drop_last()).current().childs[self.path.last() as int]
                == self.current(),
    {
        lemma_path_drop_last(self.root.unwrap(), self.path);
    }
}

/// A tree of elements with one movable current position, relative to which
/// every operation is defined. The tree owns its nodes: the root, and each
/// node its children. The current position is kept as the child indices that
/// lead to it from the root, so that moving it touches no node.
pub struct Tree<T> {
    pub(crate) root: Option<Node<T>>,
    pub(crate) path: Vec<usize>,
}

impl<T> View for Tree<T> {
    type V = TreeView<T>;

    open(crate) spec fn view(&self) -> TreeView<T> {
        TreeView {
            root: match self.root {
                Some(n) => Some(n@),
                None => None,
            },
            path: self.path@,
        }
    }
}

impl<T> Tree<T> {
    /// The tree of the single element `el`, positioned at it.
    pub fn from_element(el: T) -> (tree: Self)
        ensures
            tree@ == TreeView::single(el),
            tree@.live(),
    {
        let node = Node { elem: el, childs: Vec::new() };
        proof {
            lemma_view_unfold(node);
            assert(node@.childs =~= Seq::empty());
        }
        Tree { root: Some(node), path: Vec::new() }
    }

    /// Whether the tree holds no node.
    pub fn is_empty(&self) -> (b: bool)
        ensures
            b == self@.root.is_none(),
    {
        self.root.is_none()
    }

    /// The current node.
    fn current_ref(&self) -> (node: &Node<T>)
        requires
            self@.live(),
        ensures
            node@ == self@.current(),
    {
        match &self.root {
            Some(r) => descend(r, &self.path),
            None => unreached(),
        }
    }

    /// The current node, borrowed for writing.
    fn current_mut(&mut self) -> (node: &mut Node<T>)
        requires
            old(self)@.live(),
        ensures
            node@ == old(self)@.current(),
            final(self)@ == old(self)@.with_current(final(node)@),
            final(self)@.current() == final(node)@,
            final(self)@.live(),
    {
        let ghost root = self@.root.unwrap();
        let path = &self.path;
        match &mut self.root {
            Some(r) => {
                let node = descend_mut(r, path);
                proof {
                    lemma_put(root, path@, final(node)@);
                }
                node
            },
            None => unreached(),
        }
    }

    /// Appends `el` as the last child of the current node.
    pub fn push(&mut self, el: T)
        requires
            old(self)@.live(),
        ensures
            final(self)@ == old(self)@.push(el),
            final(self)@.current() == old(self)@.current().with_childs(
                old(self)@.current().childs.push(Shape::leaf(el)),
            ),
            final(self)@.live(),
    {
        let node = self.current_mut();
        let ghost before = *node;
        let leaf = Node { elem: el, childs: Vec::new() };
        proof {
            lemma_view_unfold(leaf);
            assert(leaf@.childs =~= Seq::empty());
        }
        node.childs.push(leaf);
        proof {
            lemma_view_unfold(before);
            lemma_view_unfold(*node);
            assert(node@.childs =~= before@.childs.push(Shape::leaf(el)));
        }
    }

    /// Appends each element of `iter`, in order, as a new last child of the
    /// current node.
    pub fn push_iter(&mut self, iter: Vec<T>)
        requires
            old(self)@.live(),
        ensures
            final(self)@ == old(self)@.push_iter(iter@),
            final(self)@.current() == old(self)@.current().with_childs(
                old(self)@.current().childs + Shape::leaves(iter@),
            ),
            final(self)@.live(),
    {
        let node = self.current_mut();
        let ghost before = *node;
        proof {
            lemma_view_unfold(before);
            assert(node@.childs =~= before@.childs + Shape::leaves(iter@.take(0)));
        }
        for el in it: iter
            invariant
                node.elem == before.elem,
                it.seq() == iter@,
                node@.childs == before@.childs + Shape::leaves(iter@.take(it.index() as int)),
        {
            let ghost prev = *node;
            let leaf = Node { elem: el, childs: Vec::new() };
            proof {
                lemma_view_unfold(leaf);
                assert(leaf@.childs =~= Seq::empty());
                lemma_view_unfold(prev);
            }
            node.childs.push(leaf);
            proof {
                lemma_view_unfold(*node);
                let k = it.index() as int;
                assert(0 <= k < iter@.len());
                assert(el == iter@[k]);
                assert(node@.childs =~= prev@.childs.push(Shape::leaf(el)));
                assert(Shape::leaves(iter@.take(k + 1)) =~= Shape::leaves(iter@.take(k)).push(
                    Shape::leaf(el),
                ));
                assert(node@.childs =~= before@.childs + Shape::leaves(iter@.take(k + 1)));
            }
        }
        proof {
            assert(iter@.take(iter@.len() as int) =~= iter@);
            lemma_view_unfold(*node);
        }
    }

    /// Inserts `el` as the child at `index` of the current node; the children
    /// that stood at `index` and after it move one place to the right.
    pub fn insert(&mut self, index: usize, el: T)
        requires
            old(self)@.live(),
            index <= old(self)@.current().childs.len(),
        ensures
            final(self)@ == old(self)@.insert(index, el),
            final(self)@.current() == old(self)@.current().with_childs(
                old(self)@.current().childs.insert(index as int, Shape::leaf(el)),
            ),
            final(self)@.live(),
    {
        let node = self.current_mut();
        let ghost before = *node;
        let leaf = Node { elem: el, childs: Vec::new() };
        proof {
            lemma_view_unfold(leaf);
            assert(leaf@.childs =~= Seq::empty());
            lemma_view_unfold(before);
        }
        node.childs.insert(index, leaf);
        proof {
            lemma_view_unfold(*node);
            assert(node@.childs =~= before@.childs.insert(index as int, Shape::leaf(el)));
        }
    }

    /// Moves the current position to its child at `index`.
    pub fn navigate_to(&mut self, index: usize)
        requires
            old(self)@.live(),
            index < old(self)@.current().childs.len(),
        ensures
            final(self)@ == old(self)@.navigate_to(index),
            final(self)@.current() == old(self)@.current().childs[index as int],
            final(self)@.live(),
    {
        proof {
            lemma_path_push(self@.root.unwrap(), self@.path, index);
        }
        self.path.push(index);
    }

    /// Moves the current position to its father.
    pub fn ascend(&mut self)
        requires
            old(self)@.live(),
            old(self)@.path.len() > 0,
        ensures
            final(self)@ == old(self)@.ascend(),
            final(self)@.live(),
            final(self)@.current().childs[old(self)@.path.last() as int] == old(self)@.current(),
            old(self)@.path.last() < final(self)@.current().childs.len(),
    {
        proof {
            lemma_path_drop_last(self@.root.unwrap(), self@.path);
        }
        self.path.pop();
    }

    /// Whether the current node has a father: false at the root, and false on
    /// an empty tree.
    pub fn has_father(&self) -> (b: bool)
        ensures
            b == (self@.root.is_some() && self@.path.len() > 0),
    {
        self.root.is_some() && self.path.len() > 0
    }

    /// Moves the current position to the root.
    pub fn go_to_root(&mut self)
        requires
            old(self)@.live(),
        ensures
            final(self)@ == old(self)@.go_to_root(),
            final(self)@.current() == old(self)@.root.unwrap(),
            final(self)@.live(),
    {
        self.path.clear();
    }

    /// The element of the current node.
    pub fn peek(&self) -> (el: &T)
        requires
            self@.live(),
        ensures
            *el == self@.current().elem,
    {
        let node = self.current_ref();
        proof {
            lemma_view_unfold(*node);
        }
        &node.elem
    }

    /// The element of the current node, borrowed for writing: the tree
    /// afterwards differs from the tree before in that element alone.
    pub fn peek_mut(&mut self) -> (el: &mut T)
        requires
            old(self)@.live(),
        ensures
            *el == old(self)@.current().elem,
            final(self)@ == old(self)@.with_elem(*final(el)),
            final(self)@.current() == old(self)@.current().with_elem(*final(el)),
            final(self)@.live(),
    {
        let node = self.current_mut();
        let ghost before = *node;
        let ghost after = *final(node);
        proof {
            lemma_view_unfold(before);
            lemma_view_unfold(after);
        }
        let el = &mut node.elem;
        proof {
            assert(after.childs == before.childs);
            assert(after@.childs =~= before@.childs);
        }
        el
    }

    /// The element of the child at `index` of the current node.
    pub fn peek_child(&self, index: usize) -> (el: &T)
        requires
            self@.live(),
            index < self@.current().childs.len(),
        ensures
            *el == self@.current().childs[index as int].elem,
    {
        let node = self.current_ref();
        proof {
            lemma_view_unfold(*node);
            lemma_view_unfold(node.childs@[index as int]);
        }
        &node.childs[index].elem
    }

    /// The element of the child at `index` of the current node, borrowed for
    /// writing: the tree afterwards differs in that element alone.
    pub fn peek_child_mut(&mut self, index: usize) -> (el: &mut T)
        requires
            old(self)@.live(),
            index < old(self)@.current().childs.len(),
        ensures
            *el == old(self)@.current().childs[index as int].elem,
            final(self)@ == old(self)@.with_child_elem(index, *final(el)),
            final(self)@.current() == old(self)@.current().with_child_elem(index, *final(el)),
            final(self)@.live(),
    {
        let node = self.current_mut();
        child_elem_mut(node, index)
    }

    /// The number of children of the current node.
    pub fn childs_len(&self) -> (n: usize)
        requires
            self@.live(),
        ensures
            n == self@.current().childs.len(),
    {
        let node = self.current_ref();
        proof {
            lemma_view_unfold(*node);
        }
        node.childs.len()
    }

    /// Moves the whole of `other` under the current node, as its child at
    /// `index`; wherever `other` was positioned, all of it comes.
    pub fn join(&mut self, other: Tree<T>, index: usize)
        requires
            old(self)@.live(),
            other@.live(),
            index <= old(self)@.current().childs.len(),
        ensures
            final(self)@ == old(self)@.graft(index, other@.root.unwrap()),
            final(self)@.current() == old(self)@.current().with_childs(
                old(self)@.current().childs.insert(index as int, other@.root.unwrap()),
            ),
            final(self)@.live(),
    {
        let node = self.current_mut();
        let ghost before = *node;
        proof {
            lemma_view_unfold(before);
        }
        match other.root {
            Some(r) => {
                node.childs.insert(index, r);
                proof {
                    lemma_view_unfold(*node);
                    assert(node@.childs =~= before@.childs.insert(index as int, r@));
                }
            },
            None => {},
        }
    }

    /// Takes the child at `index` of the current node, with all below it, out
    /// of the tree and returns it as a tree of its own, positioned at its root.
    pub fn split(&mut self, index: usize) -> (part: Tree<T>)
        requires
            old(self)@.live(),
            index < old(self)@.current().childs.len(),
        ensures
            part@ == old(self)@.child_tree(index),
            part@.live(),
            final(self)@ == old(self)@.without_child(index),
            final(self)@.current() == old(self)@.current().with_childs(
                old(self)@.current().childs.remove(index as int),
            ),
            final(self)@.live(),
    {
        let node = self.current_mut();
        let ghost before = *node;
        proof {
            lemma_view_unfold(before);
        }
        let r = node.childs.remove(index);
        proof {
            lemma_view_unfold(*node);
            assert(node@.childs =~= before@.childs.remove(index as int));
        }
        Tree { root: Some(r), path: Vec::new() }
    }

    /// Moves the elements of the subtree at the current position out of the
    /// tree, depth first. At the root this leaves the tree empty; below the
    /// root the subtree is cut off and the current position moves to what was
    /// its father.
    pub fn into_vec(&mut self) -> (out: Vec<T>)
        requires
            old(self)@.live(),
        ensures
            out@ == old(self)@.current().preorder(),
            old(self)@.path.len() == 0 ==> final(self)@ == TreeView::<T>::empty(),
            old(self)@.path.len() > 0 ==> {
                &&& final(self)@ == old(self)@.ascend().without_child(old(self)@.path.last())
                &&& final(self)@.live()
                &&& final(self)@.current() == old(self)@.ascend().current().with_childs(
                    old(self)@.ascend().current().childs.remove(old(self)@.path.last() as int),
                )
            },
            final(self)@.wf(),
    {
        if self.path.len() == 0 {
            let r = self.root.take().unwrap();
            assert(self.path@ =~= Seq::<usize>::empty());
            collect(r)
        } else {
            proof {
                lemma_path_drop_last(self@.root.unwrap(), self@.path);
            }
            let index = self.path.pop().unwrap();
            let part = self.split(index);
            collect(part.root.unwrap())
        }
    }

    /// References to the elements of the subtree at the current position,
    /// depth first; none on an empty tree.
    pub fn iter(&self) -> (out: Vec<&T>)
        requires
            self@.wf(),
        ensures
            targets(out@) == self@.preorder(),
    {
        if self.root.is_none() {
            let out: Vec<&T> = Vec::new();
            assert(targets(out@) =~= Seq::<T>::empty());
            out
        } else {
            collect_refs(self.current_ref())
        }
    }

    /// A read-only cursor at the current position.
    pub fn cursor(&self) -> (c: Cursor<'_, T>)
        requires
            self@.live(),
        ensures
            c@ == self@,
    {
        match &self.root {
            Some(r) => Cursor { root: r, path: self.path.clone() },
            None => unreached(),
        }
    }

    /// A read-only cursor at the root.
    pub fn cursor_root(&self) -> (c: Cursor<'_, T>)
        requires
            self@.live(),
        ensures
            c@ == self@.go_to_root(),
            c@.live(),
    {
        match &self.root {
            Some(r) => Cursor { root: r, path: Vec::new() },
            None => unreached(),
        }
    }

    /// The writing cursor at the current position. What it leaves of the
    /// tree when it is dropped is the tree afterwards; the tree's own
    /// position stays.
    pub fn cursor_mut(&mut self) -> (c: CursorMut<'_, T>)
        requires
            old(self)@.live(),
        ensures
            c@ == old(self)@,
            final(self)@ == (TreeView { root: Some(final(c.root)@), path: old(self)@.path }),
    {
        let path = self.path.clone();
        match &mut self.root {
            Some(r) => CursorMut { root: r, path },
            None => unreached(),
        }
    }

    /// The writing cursor at the root.
    pub fn cursor_root_mut(&mut self) -> (c: CursorMut<'_, T>)
        requires
            old(self)@.live(),
        ensures
            c@ == old(self)@.go_to_root(),
            c@.live(),
            final(self)@ == (TreeView { root: Some(final(c.root)@), path: old(self)@.path }),
    {
        match &mut self.root {
            Some(r) => CursorMut { root: r, path: Vec::new() },
            None => unreached(),
        }
    }

    /// The elements of the direct children of the current node, in sibling
    /// order, one at a time.
    pub fn iter_childs(&self) -> (it: ChildIterator<'_, T>)
        requires
            self@.live(),
        ensures
            it.wf(),
            it.remaining() == self@.current().child_elems(),
    {
        let node = self.current_ref();
        let it = ChildIterator { node, i: 0, len: node.childs.len() };
        proof {
            assert(it.remaining() =~= self@.current().child_elems());
        }
        it
    }

    /// The elements of the subtree at the current position, depth first, one
    /// at a time and without a list of them being made.
    pub fn lazyiter(&self) -> (it: LazyTreeIterator<'_, T>)
        requires
            self@.live(),
        ensures
            it@ == Walk::start(self@),
            it@.wf(),
            it@.remaining() == self@.preorder(),
    {
        LazyTreeIterator::start(self.cursor())
    }

    /// Writing references to the elements of the subtree at the current
    /// position, depth first; none on an empty tree. The tree afterwards has
    /// the shape it had, and holds at each place of that subtree what the
    /// reference for it was left pointing to.
    pub fn iter_mut(&mut self) -> (out: Vec<&mut T>)
        requires
            old(self)@.wf(),
        ensures
            targets_mut(out@) == old(self)@.preorder(),
            old(self)@.root.is_none() ==> final(self)@ == old(self)@,
            old(self)@.root.is_some() ==> {
                &&& final(self)@.live()
                &&& final(self)@ == old(self)@.with_current(final(self)@.current())
                &&& final(self)@.current().same_shape(old(self)@.current())
                &&& final(self)@.current().preorder().len() == out@.len()
                &&& forall|i: int|
                    0 <= i < out@.len() ==> final(self)@.current().preorder()[i] == *final(
                        #[trigger] out@[i]
                    )
            },
    {
        let mut out: Vec<&mut T> = Vec::new();
        if self.root.is_none() {
            assert(targets_mut(out@) =~= Seq::<T>::empty());
        } else {
            let ghost root = self@.root.unwrap();
            let ghost path = self@.path;
            let node = self.current_mut();
            let ghost before = node@;
            let ghost after = final(node)@;
            gather_mut(node, &mut out);
            proof {
                lemma_put(root, path, after);
                assert forall|i: int| 0 <= i < out@.len() implies *out@[i]
                    == before.preorder()[i] by {
                    assert(out@[0 + i] == out@[i]);
                }
                assert(targets_mut(out@) =~= before.preorder());
                assert forall|i: int| 0 <= i < out@.len() implies after.preorder()[i] == *final(
                    #[trigger] out@[i]
                ) by {
                    assert(out@[0 + i] == out@[i]);
                }
            }
        }
        out
    }

    /// The elements of the direct children of the current node, in sibling
    /// order, lent for writing one at a time. What the iterator leaves of the
    /// current node when it is dropped is the current node afterwards.
    pub fn iter_childs_mut(&mut self) -> (it: ChildIteratorMut<'_, T>)
        requires
            old(self)@.live(),
        ensures
            it.wf(),
            it.i == 0,
            it.node@ == old(self)@.current(),
            it.remaining() == old(self)@.current().child_elems(),
            final(self)@ == old(self)@.with_current(final(it.node)@),
    {
        let node = self.current_mut();
        proof {
            lemma_view_unfold(*node);
        }
        let len = node.childs.len();
        let it = ChildIteratorMut { node, i: 0, len };
        proof {
            assert(it.remaining() =~= it.node@.child_elems());
        }
        it
    }

    /// The elements of the subtree at the current position, depth first,
    /// lent for writing one at a time. What the iterator leaves of the tree
    /// when it is dropped is the tree afterwards; the tree's own position
    /// stays.
    pub fn lazyiter_mut(&mut self) -> (it: LazyTreeIteratorMut<'_, T>)
        requires
            old(self)@.live(),
        ensures
            it@ == Walk::start(old(self)@),
            it@.wf(),
            it@.remaining() == old(self)@.preorder(),
            final(self)@ == (TreeView {
                root: Some(final(it.cursor.root)@),
                path: old(self)@.path,
            }),
    {
        LazyTreeIteratorMut::start(self.cursor_mut())
    }

    /// The node that `path` names, from the root.
    pub(crate) fn node_at(&self, path: &Vec<usize>) -> (node: &Node<T>)
        requires
            self@.at_path(path@).live(),
        ensures
            node@ == self@.at_path(path@).current(),
    {
        match &self.root {
            Some(r) => descend(r, path),
            None => unreached(),
        }
    }

    /// The node that `path` names, from the root, borrowed for writing; the
    /// tree's own position stays.
    pub(crate) fn node_at_mut(&mut self, path: &Vec<usize>) -> (node: &mut Node<T>)
        requires
            old(self)@.at_path(path@).live(),
        ensures
            node@ == old(self)@.at_path(path@).current(),
            final(self)@ == old(self)@.at_path(path@).with_current(final(node)@).at_path(
                old(self)@.path,
            ),
            final(self)@.at_path(path@).current() == final(node)@,
    {
        let ghost root = self@.root.unwrap();
        match &mut self.root {
            Some(r) => {
                let node = descend_mut(r, path);
                proof {
                    lemma_put(root, path@, final(node)@);
                }
                node
            },
            None => unreached(),
        }
    }

    /// A position marker at the current position that does not borrow the
    /// tree.
    pub fn unsafe_cursor(&self) -> (c: UnsafeCursor)
        requires
            self@.live(),
        ensures
            c@ == self@.path,
    {
        UnsafeCursor { path: self.path.clone() }
    }

    /// A position marker at the root that does not borrow the tree.
    pub fn unsafe_cursor_root(&self) -> (c: UnsafeCursor)
        requires
            self@.live(),
        ensures
            c@ == Seq::<usize>::empty(),
    {
        UnsafeCursor { path: Vec::new() }
    }
}

impl<T> Default for Tree<T> {
    /// The empty tree.
    fn default() -> (tree: Self)
        ensures
            tree@ == TreeView::<T>::empty(),
    {
        Tree { root: None, path: Vec::new() }
    }
}

impl<T: Clone> Clone for Tree<T> {
    /// A tree of the same shape whose elements are clones of this tree's, at
    /// the same position; of an empty tree, an empty tree.
    fn clone(&self) -> (twin: Self)
        ensures
            twin@.path == self@.path,
            twin@.root.is_some() == self@.root.is_some(),
            self@.root.is_some() ==> self@.root.unwrap().cloned_as(twin@.root.unwrap()),
            self@.wf() ==> twin@.wf(),
            self@.live() ==> self@.current().cloned_as(twin@.current()),
    {
        let root = match &self.root {
            Some(r) => Some(clone_node(r)),
            None => None,
        };
        let twin = Tree { root, path: self.path.clone() };
        proof {
            if self@.root.is_some() {
                lemma_cloned_paths(self@.root.unwrap(), twin@.root.unwrap(), self@.path);
            }
        }
        twin
    }
}

} // verus!
