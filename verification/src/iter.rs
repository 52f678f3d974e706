//! Walks over the children of a node and, depth first, over a subtree, one
//! element at a time.

use crate::cursor::{child_elem_mut, Cursor, CursorMut};
use crate::laws::{lemma_elem_keeps_shape, lemma_same_shape_bounded};
use crate::node::{
    descend_mut, lemma_node_bounded, lemma_path_drop_last, lemma_path_push, lemma_put,
    lemma_put_below, lemma_view_unfold, Node, Shape,
};
use crate::tree::TreeView;
use crate::traverse::targets;
use vstd::prelude::*;

verus! {

/// Walks over the elements of the direct children of one node, in sibling
/// order.
pub struct ChildIterator<'a, T> {
    pub(crate) node: &'a Node<T>,
    pub(crate) i: usize,
    pub(crate) len: usize,
}

impl<'a, T> ChildIterator<'a, T> {
    /// The iterator stands inside the child list it was made for.
    pub open(crate) spec fn wf(&self) -> bool {
        self.i <= self.len == self.node.childs@.len()
    }

    /// The elements still to come.
    pub open(crate) spec fn remaining(&self) -> Seq<T> {
        self.node@.child_elems().skip(self.i as int)
    }

    /// The next child's element, or `None` when all were given.
    pub fn next(&mut self) -> (item: Option<&'a T>)
        requires
            old(self).wf(),
        ensures
            final(self).wf(),
            match item {
                Some(el) => old(self).remaining().len() > 0 && *el == old(self).remaining()[0]
                    && final(self).remaining() == old(self).remaining().skip(1),
                None => old(self).remaining().len() == 0 && final(self).remaining().len() == 0,
            },
    {
        proof {
            lemma_view_unfold(*self.node);
        }
        if self.i < self.len {
            proof {
                lemma_view_unfold(self.node.childs@[self.i as int]);
            }
            let node: &'a Node<T> = self.node;
            let item = &node.childs[self.i].elem;
            self.i += 1;
            proof {
                assert(self.remaining() =~= old(self).remaining().skip(1));
            }
            Some(item)
        } else {
            None
        }
    }

    /// All the elements still to come, in order.
    pub fn collect(self) -> (out: Vec<&'a T>)
        requires
            self.wf(),
        ensures
            targets(out@) == self.remaining(),
    {
        let mut it = self;
        let ghost all = it.remaining();
        let mut out: Vec<&'a T> = Vec::new();
        proof {
            assert(targets(out@) + it.remaining() =~= all);
        }
        loop
            invariant
                it.wf(),
                all == self.remaining(),
                targets(out@) + it.remaining() == all,
            decreases it.remaining().len(),
        {
            let ghost rest = it.remaining();
            let ghost got = out@;
            match it.next() {
                Some(el) => {
                    out.push(el);
                    proof {
                        assert(targets(out@) =~= targets(got).push(rest[0]));
                        assert(targets(out@) + it.remaining() =~= targets(got) + rest);
                    }
                },
                None => {
                    proof {
                        assert(targets(out@) =~= targets(out@) + rest);
                    }
                    return out;
                },
            }
        }
    }
}

impl<T> Shape<T> {
    /// The elements of this tree that come, depth first, after the whole
    /// subtree at `rel`.
    pub open spec fn after(self, rel: Seq<usize>) -> Seq<T>
        decreases rel.len(),
    {
        if rel.len() == 0 {
            Seq::empty()
        } else {
            self.at(rel.drop_last()).preorder_from(rel.last() + 1) + self.after(rel.drop_last())
        }
    }
}

/// The state of a depth-first walk over one subtree of a tree: where the
/// walk stands, and for each level between the root of the walked subtree and
/// that position the index of the next child to go down into. The last index
/// belongs to the position itself; 0 there says that the node at the position
/// has not been given yet.
pub struct Walk<T> {
    pub at: TreeView<T>,
    pub idx: Seq<usize>,
}

impl<T> Walk<T> {
    /// How many steps above the position the root of the walked subtree lies.
    pub open spec fn depth(self) -> int {
        self.idx.len() - 1
    }

    /// Where the walked subtree's root lies in the position's path.
    pub open spec fn base_len(self) -> int {
        self.at.path.len() - self.depth()
    }

    /// The walked subtree.
    pub open spec fn base(self) -> Shape<T> {
        self.at.root.unwrap().at(self.at.path.take(self.base_len()))
    }

    /// The position's path below the walked subtree's root.
    pub open spec fn rel(self) -> Seq<usize> {
        self.at.path.skip(self.base_len())
    }

    /// The position is in the tree and the indices agree with it.
    pub open spec fn wf(self) -> bool {
        &&& self.at.live()
        &&& self.at.root.unwrap().bounded()
        &&& self.idx.len() <= self.at.path.len() + 1
        &&& self.idx.len() > 0 ==> {
            &&& self.idx.last() <= self.at.current().childs.len()
            &&& forall|j: int| 0 <= j < self.depth() ==> #[trigger] self.idx[j] == self.rel()[j] + 1
        }
    }

    /// The elements still to come, in the order in which they come.
    pub open spec fn remaining(self) -> Seq<T> {
        if self.idx.len() == 0 {
            Seq::empty()
        } else if self.idx.last() == 0 {
            self.at.current().preorder() + self.base().after(self.rel())
        } else {
            self.at.current().preorder_from(self.idx.last() as int) + self.base().after(self.rel())
        }
    }

    /// The walk that starts at `at` and covers the subtree there.
    pub open spec fn start(at: TreeView<T>) -> Walk<T> {
        Walk { at, idx: seq![0usize] }
    }

    /// The state after leaving the position for its father, or for nothing
    /// when the position is the tree's root.
    pub open spec fn up(self) -> Walk<T> {
        Walk {
            at: if self.at.path.len() > 0 {
                self.at.ascend()
            } else {
                self.at
            },
            idx: self.idx.drop_last(),
        }
    }

    /// The state after going down into the child that the last index names.
    pub open spec fn down(self) -> Walk<T> {
        Walk {
            at: self.at.navigate_to(self.idx.last()),
            idx: self.idx.update(self.depth(), (self.idx.last() + 1) as usize).push(0),
        }
    }

    /// The same state in the tree whose element at the position is `el`.
    pub open spec fn with_elem(self, el: T) -> Walk<T> {
        Walk { at: self.at.with_elem(el), idx: self.idx }
    }

    /// The state in which the next element is given: reached by leaving the
    /// nodes that are done and going down into the next child that is not.
    /// Nothing is given on the way. A state whose last index is 0 is there
    /// already, and so is one without indices, which has nothing to give.
    pub open spec fn settle(self) -> Walk<T>
        decreases self.idx.len(),
    {
        if self.idx.len() == 0 || self.idx.last() == 0 {
            self
        } else if self.idx.last() < self.at.current().childs.len() {
            self.down()
        } else {
            self.up().settle()
        }
    }

    /// The state after the element at the position was given: at the first
    /// child, or, from a node without children, back at the father.
    pub open spec fn advance(self) -> Walk<T> {
        if self.at.current().childs.len() == 0 {
            self.up()
        } else {
            self.down()
        }
    }

    /// The path, from the tree's root, of the node whose element comes next.
    pub open spec fn next_path(self) -> Seq<usize> {
        self.settle().at.path
    }

    /// A fresh walk is well formed and has the whole subtree to give.
    pub proof fn lemma_start(at: TreeView<T>)
        requires
            at.live(),
            at.root.unwrap().bounded(),
        ensures
            Walk::start(at).wf(),
            Walk::start(at).remaining() == at.preorder(),
            Walk::start(at).settle() == Walk::start(at),
    {
        let w = Walk::start(at);
        assert(w.rel() =~= Seq::<usize>::empty());
        assert(w.remaining() =~= at.preorder());
    }

    /// Leaving a node that is done: the walk goes on with what comes after
    /// it.
    pub proof fn lemma_up(self)
        requires
            self.wf(),
            self.idx.len() > 0,
        ensures
            self.up().wf(),
            self.up().remaining() == self.base().after(self.rel()),
    {
        let root = self.at.root.unwrap();
        let path = self.at.path;
        let d = self.base_len();
        let after = self.up();
        if self.idx.len() == 1 {
            assert(self.rel() =~= Seq::<usize>::empty());
            if path.len() > 0 {
                lemma_path_drop_last(root, path);
            }
        } else {
            let rel = self.rel();
            lemma_path_drop_last(root, path);
            assert(after.base_len() == d);
            assert(after.at.path.take(d) =~= path.take(d));
            assert(after.rel() =~= rel.drop_last());
            assert(path.drop_last() =~= path.take(d) + rel.drop_last());
            lemma_put_below(root, path.take(d), rel.drop_last(), root);
            assert(after.idx.last() == self.idx[self.depth() - 1]);
            assert(rel.last() == path.last());
            assert(after.remaining() =~= self.base().after(rel));
        }
    }

    /// Going down into the child that the last index names: the walk goes on
    /// with that child's subtree, then the later children, then what comes
    /// after the node.
    pub proof fn lemma_down(self)
        requires
            self.wf(),
            self.idx.len() > 0,
            self.idx.last() < self.at.current().childs.len(),
        ensures
            self.down().wf(),
            self.down().remaining() == self.at.current().preorder_from(self.idx.last() as int)
                + self.base().after(self.rel()),
    {
        let root = self.at.root.unwrap();
        let path = self.at.path;
        let d = self.base_len();
        let rel = self.rel();
        let k = self.idx.last();
        let cur = self.at.current();
        let after = self.down();
        assert(root.at(path).childs.len() <= usize::MAX);
        lemma_path_push(root, path, k);
        assert(after.base_len() == d);
        assert(after.at.path.take(d) =~= path.take(d));
        assert(after.rel() =~= rel.push(k));
        assert(after.rel().drop_last() =~= rel);
        assert forall|j: int| 0 <= j < after.depth() implies #[trigger] after.idx[j]
            == after.rel()[j] + 1 by {
            if j < self.depth() {
                assert(self.idx[j] == rel[j] + 1);
            }
        }
        assert(path =~= path.take(d) + rel);
        lemma_put_below(root, path.take(d), rel, root);
        assert(self.base().at(rel) == cur);
        assert(cur.preorder_from(k as int) == cur.childs[k as int].preorder() + cur.preorder_from(
            k + 1,
        ));
        assert(after.base().after(after.rel()) == cur.preorder_from(k + 1) + self.base().after(
            rel,
        ));
        assert(after.remaining() =~= cur.preorder_from(k as int) + self.base().after(rel));
    }

    /// Settling gives nothing and changes nothing in the tree; where elements
    /// are still to come, the settled state stands at the node whose element
    /// is the next of them.
    pub proof fn lemma_settle(self)
        requires
            self.wf(),
        ensures
            self.settle().wf(),
            self.settle().at.root == self.at.root,
            self.settle().remaining() == self.remaining(),
            self.settle().idx.len() == 0 || self.settle().idx.last() == 0,
            self.remaining().len() > 0 ==> self.settle().idx.len() > 0 && self.remaining()[0]
                == self.settle().at.current().elem,
            self.remaining().len() == 0 ==> self.settle().idx.len() == 0,
        decreases self.idx.len(),
    {
        if self.idx.len() == 0 {
        } else {
            let cur = self.at.current();
            let top = self.idx.last();
            if top == 0 {
            } else if top < cur.childs.len() {
                self.lemma_down();
                assert(self.down().idx.last() == 0);
            } else {
                assert(cur.preorder_from(top as int) =~= Seq::<T>::empty());
                self.lemma_up();
                assert(self.up().remaining() =~= self.remaining());
                self.up().lemma_settle();
            }
        }
    }

    /// Writing another element into the node that comes next changes that
    /// one element of what is still to come, and nothing else of the walk.
    pub proof fn lemma_with_elem(self, el: T)
        requires
            self.wf(),
            self.idx.len() > 0,
            self.idx.last() == 0,
        ensures
            self.with_elem(el).wf(),
            self.remaining().len() > 0,
            self.remaining()[0] == self.at.current().elem,
            self.with_elem(el).remaining() == seq![el] + self.remaining().skip(1),
            self.with_elem(el).at.current() == self.at.current().with_elem(el),
    {
        let root = self.at.root.unwrap();
        let path = self.at.path;
        let d = self.base_len();
        let rel = self.rel();
        let cur = self.at.current();
        let next = cur.with_elem(el);
        let after = self.with_elem(el);
        lemma_elem_keeps_shape(self.at, el);
        lemma_same_shape_bounded(after.at.root.unwrap(), root);
        lemma_put(root, path, next);
        assert(path =~= path.take(d) + rel);
        lemma_put_below(root, path.take(d), rel, next);
        lemma_put(root, path.take(d), self.base().put(rel, next));
        assert(after.base() == self.base().put(rel, next));
        assert(rel + Seq::<usize>::empty() =~= rel);
        lemma_after_put(self.base(), rel, Seq::empty(), next);
        lemma_preorder_from_same(cur, next, 0);
        assert(after.remaining() =~= seq![el] + self.remaining().skip(1));
    }
}

/// The elements under the children from `k` on depend on those children
/// alone.
pub proof fn lemma_preorder_from_same<T>(a: Shape<T>, b: Shape<T>, k: int)
    requires
        0 <= k,
        a.childs.len() == b.childs.len(),
        forall|j: int| k <= j < a.childs.len() ==> a.childs[j] == b.childs[j],
    ensures
        a.preorder_from(k) == b.preorder_from(k),
    decreases a.childs.len() - k,
{
    if k < a.childs.len() {
        lemma_preorder_from_same(a, b, k + 1);
    }
}

/// What comes after the subtree at `rel` does not depend on anything in that
/// subtree.
pub proof fn lemma_after_put<T>(b: Shape<T>, rel: Seq<usize>, ext: Seq<usize>, sub: Shape<T>)
    requires
        b.has_path(rel + ext),
    ensures
        b.put(rel + ext, sub).after(rel) == b.after(rel),
    decreases rel.len(),
{
    if rel.len() > 0 {
        let head = rel.drop_last();
        let last = rel.last();
        let tail = seq![last] + ext;
        assert(rel + ext =~= head + tail);
        lemma_after_put(b, head, tail, sub);
        lemma_put_below(b, head, tail, sub);
        lemma_put(b, head, b.at(head).put(tail, sub));
        let father = b.at(head);
        assert(tail[0] == last);
        assert(father.put(tail, sub).childs.len() == father.childs.len());
        lemma_preorder_from_same(father.put(tail, sub), father, last + 1);
    }
}

/// Walks depth first over the subtree that its cursor stood at when it was
/// made, giving one element at a time and keeping no list of them.
pub struct LazyTreeIterator<'a, T> {
    pub(crate) cursor: Cursor<'a, T>,
    pub(crate) idx_list: Vec<usize>,
}

impl<'a, T> View for LazyTreeIterator<'a, T> {
    type V = Walk<T>;

    open(crate) spec fn view(&self) -> Walk<T> {
        Walk { at: self.cursor@, idx: self.idx_list@ }
    }
}

impl<'a, T> LazyTreeIterator<'a, T> {
    /// A walk over the subtree under `cursor`.
    pub(crate) fn start(cursor: Cursor<'a, T>) -> (it: Self)
        requires
            cursor@.live(),
        ensures
            it@ == Walk::start(cursor@),
            it@.wf(),
            it@.remaining() == cursor@.preorder(),
    {
        let mut idx_list: Vec<usize> = Vec::new();
        idx_list.push(0);
        proof {
            lemma_node_bounded(*cursor.root);
            Walk::lemma_start(cursor@);
            assert(idx_list@ =~= seq![0usize]);
        }
        LazyTreeIterator { cursor, idx_list }
    }

    /// The next element of the walk, or `None` when all were given.
    pub fn next(&mut self) -> (item: Option<&'a T>)
        requires
            old(self)@.wf(),
        ensures
            final(self)@.wf(),
            final(self)@.at.root == old(self)@.at.root,
            match item {
                Some(el) => {
                    &&& old(self)@.remaining().len() > 0
                    &&& *el == old(self)@.remaining()[0]
                    &&& final(self)@.remaining() == old(self)@.remaining().skip(1)
                    &&& final(self)@ == old(self)@.settle().advance()
                },
                None => {
                    &&& old(self)@.remaining().len() == 0
                    &&& final(self)@ == old(self)@.settle()
                    &&& final(self)@.idx.len() == 0
                },
            },
    {
        loop
            invariant
                self@.wf(),
                self@.at.root == old(self)@.at.root,
                self@.remaining() == old(self)@.remaining(),
                self@.settle() == old(self)@.settle(),
            decreases
                    (if self.idx_list@.len() > 0 && self.idx_list@.last() != 0 {
                        2 * self.idx_list@.len() + 1
                    } else {
                        0
                    }),
        {
            if self.idx_list.len() == 0 {
                return None;
            }
            let ghost before = self@;
            let n = self.cursor.childs_len();
            let last = self.idx_list.len() - 1;
            let top = self.idx_list[last];
            if n == 0 {
                let res = self.cursor.peek();
                if self.cursor.has_father() {
                    self.cursor.ascend();
                }
                self.idx_list.pop();
                proof {
                    let cur = before.at.current();
                    assert(cur.preorder_from(0) =~= Seq::<T>::empty());
                    assert(cur.preorder() =~= seq![cur.elem]);
                    before.lemma_up();
                    assert(self@ == before.up());
                    assert(self@.remaining() =~= before.remaining().skip(1));
                }
                return Some(res);
            } else if top == 0 {
                let res = self.cursor.peek();
                self.cursor.navigate_to(0);
                self.idx_list.set(last, 1);
                self.idx_list.push(0);
                proof {
                    before.lemma_down();
                    assert(self@ == before.down());
                    assert(self@.remaining() =~= before.remaining().skip(1));
                }
                return Some(res);
            } else if top < n {
                self.cursor.navigate_to(top);
                self.idx_list.set(last, top + 1);
                self.idx_list.push(0);
                proof {
                    before.lemma_down();
                    assert(self@ == before.down());
                }
            } else {
                self.idx_list.pop();
                if self.cursor.has_father() {
                    self.cursor.ascend();
                }
                proof {
                    let cur = before.at.current();
                    assert(cur.preorder_from(top as int) =~= Seq::<T>::empty());
                    before.lemma_up();
                    assert(self@ == before.up());
                    assert(self@.remaining() =~= before.remaining());
                }
            }
        }
    }

    /// All the elements still to come, in order.
    pub fn collect(self) -> (out: Vec<&'a T>)
        requires
            self@.wf(),
        ensures
            targets(out@) == self@.remaining(),
    {
        let mut it = self;
        let ghost all = it@.remaining();
        let mut out: Vec<&'a T> = Vec::new();
        proof {
            assert(targets(out@) + it@.remaining() =~= all);
        }
        loop
            invariant
                it@.wf(),
                all == self@.remaining(),
                targets(out@) + it@.remaining() == all,
            decreases it@.remaining().len(),
        {
            let ghost rest = it@.remaining();
            let ghost got = out@;
            match it.next() {
                Some(el) => {
                    out.push(el);
                    proof {
                        assert(targets(out@) =~= targets(got).push(rest[0]));
                        assert(targets(out@) + it@.remaining() =~= targets(got) + rest);
                    }
                },
                None => {
                    proof {
                        assert(targets(out@) =~= targets(out@) + rest);
                    }
                    return out;
                },
            }
        }
    }
}

/// Walks over the elements of the direct children of one node, in sibling
/// order, and lends each for writing. Its fields are public so that a
/// contract can speak of the node that it leaves behind, `final(it.node)@`.
pub struct ChildIteratorMut<'a, T> {
    pub node: &'a mut Node<T>,
    pub i: usize,
    pub len: usize,
}

impl<'a, T> ChildIteratorMut<'a, T> {
    /// The iterator stands inside the child list it was made for.
    pub open spec fn wf(&self) -> bool {
        self.i <= self.len == self.node@.childs.len()
    }

    /// The elements still to come.
    pub open spec fn remaining(&self) -> Seq<T> {
        self.node@.child_elems().skip(self.i as int)
    }

    /// The next child's element, lent for writing until the next call, or
    /// `None` when all were given. What is written shows in that child alone.
    pub fn next(&mut self) -> (item: Option<&mut T>)
        requires
            old(self).wf(),
        ensures
            final(self).wf(),
            *final(final(self).node) == *final(old(self).node),
            match item {
                Some(el) => {
                    &&& old(self).remaining().len() > 0
                    &&& *el == old(self).remaining()[0]
                    &&& final(self).i == old(self).i + 1
                    &&& final(self).node@ == old(self).node@.with_child_elem(
                        old(self).i,
                        *final(el),
                    )
                    &&& final(self).remaining() == old(self).remaining().skip(1)
                },
                None => {
                    &&& old(self).remaining().len() == 0
                    &&& final(self).node@ == old(self).node@
                    &&& final(self).i == old(self).i
                },
            },
    {
        if self.i < self.len {
            let i = self.i;
            let ghost before = self.node@;
            self.i += 1;
            let el = child_elem_mut(self.node, i);
            proof {
                let after = before.with_child_elem(i, *final(el));
                assert(after.child_elems().skip(i + 1) =~= before.child_elems().skip(i as int).skip(
                    1,
                ));
            }
            Some(el)
        } else {
            None
        }
    }
}

/// Walks depth first over the subtree that its cursor stood at when it was
/// made and lends one element at a time for writing, keeping no list of
/// them. Its fields are public so that a contract can speak of the tree that
/// it leaves behind, `final(it.cursor.root)@`.
pub struct LazyTreeIteratorMut<'a, T> {
    pub cursor: CursorMut<'a, T>,
    pub idx_list: Vec<usize>,
}

impl<'a, T> View for LazyTreeIteratorMut<'a, T> {
    type V = Walk<T>;

    open spec fn view(&self) -> Walk<T> {
        Walk { at: self.cursor@, idx: self.idx_list@ }
    }
}

impl<'a, T> LazyTreeIteratorMut<'a, T> {
    /// A walk over the subtree under `cursor`.
    pub(crate) fn start(cursor: CursorMut<'a, T>) -> (it: Self)
        requires
            cursor@.live(),
        ensures
            it@ == Walk::start(cursor@),
            it@.wf(),
            it@.remaining() == cursor@.preorder(),
            it.cursor == cursor,
    {
        let mut idx_list: Vec<usize> = Vec::new();
        idx_list.push(0);
        proof {
            lemma_node_bounded(*cursor.root);
            Walk::lemma_start(cursor@);
            assert(idx_list@ =~= seq![0usize]);
        }
        LazyTreeIteratorMut { cursor, idx_list }
    }

    /// The next element of the walk, lent for writing until the next call,
    /// or `None` when all were given. What is written shows in the node that
    /// was next and nowhere else.
    pub fn next(&mut self) -> (item: Option<&mut T>)
        requires
            old(self)@.wf(),
        ensures
            final(self)@.wf(),
            *final(final(self).cursor.root) == *final(old(self).cursor.root),
            match item {
                Some(el) => {
                    &&& old(self)@.remaining().len() > 0
                    &&& *el == old(self)@.remaining()[0]
                    &&& final(self)@.remaining() == old(self)@.remaining().skip(1)
                    &&& old(self)@.at.at_path(old(self)@.next_path()).live()
                    &&& final(self)@.at.root == old(self)@.at.at_path(
                        old(self)@.next_path(),
                    ).with_elem(*final(el)).root
                    &&& final(self)@ == old(self)@.settle().with_elem(*final(el)).advance()
                },
                None => {
                    &&& old(self)@.remaining().len() == 0
                    &&& final(self)@ == old(self)@.settle()
                    &&& final(self)@.idx.len() == 0
                },
            },
    {
        loop
            invariant
                self@.wf(),
                self@.at.root == old(self)@.at.root,
                self@.remaining() == old(self)@.remaining(),
                self@.settle() == old(self)@.settle(),
                *final(self.cursor.root) == *final(old(self).cursor.root),
            decreases
                    (if self.idx_list@.len() > 0 && self.idx_list@.last() != 0 {
                        2 * self.idx_list@.len() + 1
                    } else {
                        0
                    }),
        {
            if self.idx_list.len() == 0 {
                return None;
            }
            let ghost before = self@;
            let n = self.cursor.childs_len();
            let last = self.idx_list.len() - 1;
            let top = self.idx_list[last];
            if top == 0 {
                let node = descend_mut(self.cursor.root, &self.cursor.path);
                let ghost node_before = *node;
                let ghost node_after = *final(node);
                proof {
                    lemma_view_unfold(node_before);
                    lemma_view_unfold(node_after);
                }
                let el = &mut node.elem;
                if n == 0 {
                    if self.cursor.path.len() > 0 {
                        self.cursor.path.pop();
                    }
                    self.idx_list.pop();
                } else {
                    self.cursor.path.push(0);
                    self.idx_list.set(last, 1);
                    self.idx_list.push(0);
                }
                proof {
                    let x = *final(el);
                    assert(node_after.childs == node_before.childs);
                    assert(node_after@.childs =~= node_before@.childs);
                    assert(node_after@ == node_before@.with_elem(x));
                    before.lemma_with_elem(x);
                    let mid = before.with_elem(x);
                    let cur = mid.at.current();
                    if n == 0 {
                        assert(cur.preorder_from(0) =~= Seq::<T>::empty());
                        assert(cur.preorder() =~= seq![cur.elem]);
                        mid.lemma_up();
                        assert(mid.up().remaining() =~= mid.remaining().skip(1));
                        assert(mid.remaining().skip(1) =~= before.remaining().skip(1));
                    } else {
                        mid.lemma_down();
                        assert(mid.down().remaining() =~= mid.remaining().skip(1));
                        assert(mid.remaining().skip(1) =~= before.remaining().skip(1));
                    }
                }
                return Some(el);
            } else if top < n {
                self.cursor.navigate_to(top);
                self.idx_list.set(last, top + 1);
                self.idx_list.push(0);
                proof {
                    before.lemma_down();
                    assert(self@ == before.down());
                }
            } else {
                self.idx_list.pop();
                if self.cursor.has_father() {
                    self.cursor.ascend();
                }
                proof {
                    let cur = before.at.current();
                    assert(cur.preorder_from(top as int) =~= Seq::<T>::empty());
                    before.lemma_up();
                    assert(self@ == before.up());
                    assert(self@.remaining() =~= before.remaining());
                }
            }
        }
    }
}

} // verus!
