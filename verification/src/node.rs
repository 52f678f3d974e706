//! The tree as a mathematical value, the nodes that store it, and what holds
//! of paths into it.

use vstd::prelude::*;

verus! {

/// A tree as a mathematical value: an element and the ordered sequence of the
/// subtrees below it.
pub struct Shape<T> {
    pub elem: T,
    pub childs: Seq<Shape<T>>,
}

/// One vertex of the stored tree: its element and the children it owns, in
/// sibling order.
pub struct Node<T> {
    pub(crate) elem: T,
    pub(crate) childs: Vec<Node<T>>,
}

impl<T> Shape<T> {
    /// The tree of one node.
    pub open spec fn leaf(el: T) -> Shape<T> {
        Shape { elem: el, childs: Seq::empty() }
    }

    /// One-node trees of the elements of `elems`, in the same order.
    pub open spec fn leaves(elems: Seq<T>) -> Seq<Shape<T>> {
        Seq::new(elems.len(), |i: int| Shape::leaf(elems[i]))
    }

    /// This node with another element and the same children.
    pub open spec fn with_elem(self, el: T) -> Shape<T> {
        Shape { elem: el, childs: self.childs }
    }

    /// This node with other children and the same element.
    pub open spec fn with_childs(self, childs: Seq<Shape<T>>) -> Shape<T> {
        Shape { elem: self.elem, childs }
    }

    /// This node with the element of its child at `index` replaced by `el`.
    pub open spec fn with_child_elem(self, index: usize, el: T) -> Shape<T> {
        self.with_childs(self.childs.update(index as int, self.childs[index as int].with_elem(el)))
    }

    /// The elements of the direct children, in sibling order.
    pub open spec fn child_elems(self) -> Seq<T> {
        Seq::new(self.childs.len(), |i: int| self.childs[i].elem)
    }

    /// The depth-first sequence of the elements: the element first, then
    /// each child's subtree, left to right.
    pub open spec fn preorder(self) -> Seq<T>
        decreases self, 1nat, 0nat,
    {
        seq![self.elem] + self.preorder_from(0)
    }

    /// The depth-first sequence of the subtrees under children `k`, `k + 1`, ...
    pub open spec fn preorder_from(self, k: int) -> Seq<T>
        decreases self, 0nat, self.childs.len() - k,
    {
        if 0 <= k < self.childs.len() {
            self.childs[k].preorder() + self.preorder_from(k + 1)
        } else {
            Seq::empty()
        }
    }

    /// Whether `path`, read as child indices from this node down, names a node.
    pub open spec fn has_path(self, path: Seq<usize>) -> bool
        decreases path.len(),
    {
        path.len() == 0 || (path[0] < self.childs.len() && self.childs[path[0] as int].has_path(
            path.skip(1),
        ))
    }

    /// No node has more children than a machine can count.
    pub open spec fn bounded(self) -> bool {
        forall|path: Seq<usize>|
            self.has_path(path) ==> (#[trigger] self.at(path)).childs.len() <= usize::MAX
    }

    /// The subtree that `path` leads to.
    pub open spec fn at(self, path: Seq<usize>) -> Shape<T>
        decreases path.len(),
    {
        if path.len() == 0 {
            self
        } else {
            self.childs[path[0] as int].at(path.skip(1))
        }
    }

    /// This tree with the subtree at `path` replaced by `sub`.
    pub open spec fn put(self, path: Seq<usize>, sub: Shape<T>) -> Shape<T>
        decreases path.len(),
    {
        if path.len() == 0 {
            sub
        } else {
            Shape {
                elem: self.elem,
                childs: self.childs.update(
                    path[0] as int,
                    self.childs[path[0] as int].put(path.skip(1), sub),
                ),
            }
        }
    }
}

impl<T> Shape<T> {
    /// `other` has this tree's shape: at each place as many children.
    pub open spec fn same_shape(self, other: Shape<T>) -> bool
        decreases self,
    {
        &&& self.childs.len() == other.childs.len()
        &&& forall|i: int|
            0 <= i < self.childs.len() ==> (#[trigger] self.childs[i]).same_shape(other.childs[i])
    }
}

impl<T: Clone> Shape<T> {
    /// `other` has this tree's shape and each of its elements is a clone of
    /// the element at the same place in this tree.
    pub open spec fn cloned_as(self, other: Shape<T>) -> bool
        decreases self,
    {
        &&& cloned(self.elem, other.elem)
        &&& self.childs.len() == other.childs.len()
        &&& forall|i: int|
            0 <= i < self.childs.len() ==> (#[trigger] self.childs[i]).cloned_as(other.childs[i])
    }
}

impl<T> Node<T> {
    /// The tree below this node as a mathematical value.
    pub open(crate) spec fn shape(self) -> Shape<T>
        decreases self, 1nat, 0nat,
    {
        Shape { elem: self.elem, childs: self.shapes(self.childs@.len()) }
    }

    /// The values of the first `k` children.
    pub open(crate) spec fn shapes(self, k: nat) -> Seq<Shape<T>>
        decreases self, 0nat, k,
    {
        if 0 < k <= self.childs@.len() {
            self.shapes((k - 1) as nat).push(self.childs@[k - 1].shape())
        } else {
            Seq::empty()
        }
    }
}

impl<T> View for Node<T> {
    type V = Shape<T>;

    open(crate) spec fn view(&self) -> Shape<T> {
        self.shape()
    }
}

proof fn lemma_shapes<T>(n: Node<T>, k: nat)
    requires
        k <= n.childs@.len(),
    ensures
        n.shapes(k).len() == k,
        forall|i: int| 0 <= i < k ==> #[trigger] n.shapes(k)[i] == n.childs@[i]@,
    decreases k,
{
    if k > 0 {
        lemma_shapes(n, (k - 1) as nat);
    }
}

/// What the view of a node is made of.
pub(crate) proof fn lemma_view_unfold<T>(n: Node<T>)
    ensures
        n@.elem == n.elem,
        n@.childs.len() == n.childs@.len(),
        forall|i: int| 0 <= i < n.childs@.len() ==> #[trigger] n@.childs[i] == n.childs@[i]@,
{
    lemma_shapes(n, n.childs@.len());
}

/// A stored tree has no node with more children than a machine can count.
pub(crate) proof fn lemma_node_bounded<T>(n: Node<T>)
    ensures
        n@.bounded(),
{
    assert forall|path: Seq<usize>| n@.has_path(path) implies (#[trigger] n@.at(
        path,
    )).childs.len() <= usize::MAX by {
        lemma_node_bounded_at(n, path);
    }
}

proof fn lemma_node_bounded_at<T>(n: Node<T>, path: Seq<usize>)
    requires
        n@.has_path(path),
    ensures
        n@.at(path).childs.len() <= usize::MAX,
    decreases path.len(),
{
    lemma_view_unfold(n);
    if path.len() > 0 {
        lemma_node_bounded_at(n.childs@[path[0] as int], path.skip(1));
    } else {
        assert(n.childs@.len() == n.childs.len());
    }
}

/// Following `path` and then one more index is following the longer path.
pub proof fn lemma_path_push<T>(r: Shape<T>, path: Seq<usize>, i: usize)
    requires
        r.has_path(path),
    ensures
        r.has_path(path.push(i)) <==> i < r.at(path).childs.len(),
        r.at(path.push(i)) == r.at(path).childs[i as int],
    decreases path.len(),
{
    if path.len() == 0 {
        let none = Seq::<usize>::empty();
        assert(path.push(i).skip(1) =~= none);
        assert(path.push(i)[0] == i);
        assert(r.childs[i as int].has_path(none));
        assert(r.childs[i as int].at(none) == r.childs[i as int]);
        assert(r.at(path) == r);
    } else {
        assert(path.push(i).skip(1) =~= path.skip(1).push(i));
        assert(path.push(i)[0] == path[0]);
        lemma_path_push(r.childs[path[0] as int], path.skip(1), i);
    }
}

/// A path that names a node names its father when cut by one.
pub proof fn lemma_path_drop_last<T>(r: Shape<T>, path: Seq<usize>)
    requires
        r.has_path(path),
        path.len() > 0,
    ensures
        r.has_path(path.drop_last()),
        path.last() < r.at(path.drop_last()).childs.len(),
        r.at(path) == r.at(path.drop_last()).childs[path.last() as int],
    decreases path.len(),
{
    if path.len() == 1 {
        let none = Seq::<usize>::empty();
        assert(path.drop_last() =~= none);
        assert(path.skip(1) =~= none);
        assert(r.at(none) == r);
        assert(r.childs[path[0] as int].at(none) == r.childs[path[0] as int]);
    } else {
        assert(path.drop_last().skip(1) =~= path.skip(1).drop_last());
        assert(path.drop_last()[0] == path[0]);
        lemma_path_drop_last(r.childs[path[0] as int], path.skip(1));
    }
}

/// Replacing the subtree at `path` puts `sub` there, keeps the paths that run
/// through it, and changes nothing when `sub` is what was there.
pub proof fn lemma_put<T>(r: Shape<T>, path: Seq<usize>, sub: Shape<T>)
    requires
        r.has_path(path),
    ensures
        r.put(path, sub).has_path(path),
        r.put(path, sub).at(path) == sub,
        r.put(path, r.at(path)) == r,
        forall|next: Shape<T>| #[trigger] r.put(path, sub).put(path, next) == r.put(path, next),
    decreases path.len(),
{
    if path.len() > 0 {
        let i = path[0] as int;
        lemma_put(r.childs[i], path.skip(1), sub);
        assert(r.childs.update(i, r.childs[i]) =~= r.childs);
        assert forall|next: Shape<T>| #[trigger]
            r.put(path, sub).put(path, next) == r.put(path, next) by {
            let mid = r.childs[i].put(path.skip(1), sub);
            assert(r.childs.update(i, mid).update(i, mid.put(path.skip(1), next))
                =~= r.childs.update(i, r.childs[i].put(path.skip(1), next)));
        }
    }
}

/// A shorter path into a tree still names a node after the subtree at a
/// longer path was replaced, and the replacement shows below it.
pub proof fn lemma_put_below<T>(r: Shape<T>, head: Seq<usize>, tail: Seq<usize>, sub: Shape<T>)
    requires
        r.has_path(head + tail),
    ensures
        r.has_path(head),
        r.at(head).has_path(tail),
        r.at(head + tail) == r.at(head).at(tail),
        r.put(head + tail, sub) == r.put(head, r.at(head).put(tail, sub)),
    decreases head.len(),
{
    if head.len() == 0 {
        assert(head + tail =~= tail);
    } else {
        assert((head + tail).skip(1) =~= head.skip(1) + tail);
        assert((head + tail)[0] == head[0]);
        lemma_put_below(r.childs[head[0] as int], head.skip(1), tail, sub);
    }
}

/// A clone has the paths of the tree it was made from, and at each path a
/// clone of what is there.
pub proof fn lemma_cloned_paths<T: Clone>(a: Shape<T>, b: Shape<T>, path: Seq<usize>)
    requires
        a.cloned_as(b),
    ensures
        a.has_path(path) == b.has_path(path),
        a.has_path(path) ==> a.at(path).cloned_as(b.at(path)),
    decreases path.len(),
{
    if path.len() > 0 && path[0] < a.childs.len() {
        assert(a.childs[path[0] as int].cloned_as(b.childs[path[0] as int]));
        lemma_cloned_paths(a.childs[path[0] as int], b.childs[path[0] as int], path.skip(1));
    }
}

/// The node that `path` leads to below `node`.
pub(crate) fn descend<'a, T>(node: &'a Node<T>, path: &Vec<usize>) -> (r: &'a Node<T>)
    requires
        node@.has_path(path@),
    ensures
        r@ == node@.at(path@),
{
    let mut cur = node;
    let mut k: usize = 0;
    proof {
        assert(path@.skip(0) =~= path@);
    }
    while k < path.len()
        invariant
            k <= path@.len(),
            cur@.has_path(path@.skip(k as int)),
            cur@.at(path@.skip(k as int)) == node@.at(path@),
        decreases path@.len() - k,
    {
        let i = path[k];
        proof {
            let rest = path@.skip(k as int);
            assert(rest[0] == i);
            assert(rest.skip(1) =~= path@.skip(k + 1));
            lemma_view_unfold(*cur);
        }
        cur = &cur.childs[i];
        k += 1;
    }
    cur
}

/// The same node, borrowed for writing: what the caller leaves there is what
/// the tree holds at `path` afterwards.
pub(crate) fn descend_mut<'a, T>(node: &'a mut Node<T>, path: &Vec<usize>) -> (r: &'a mut Node<T>)
    requires
        old(node)@.has_path(path@),
    ensures
        r@ == old(node)@.at(path@),
        final(node)@ == old(node)@.put(path@, final(r)@),
{
    let ghost start = node@;
    let ghost left = final(node)@;
    let mut cur = node;
    let mut k: usize = 0;
    proof {
        assert(path@.take(0) =~= Seq::<usize>::empty());
        assert(path@.skip(0) =~= path@);
    }
    while k < path.len()
        invariant
            k <= path@.len(),
            start.has_path(path@),
            start.has_path(path@.take(k as int)),
            cur@ == start.at(path@.take(k as int)),
            cur@.has_path(path@.skip(k as int)),
            cur@.at(path@.skip(k as int)) == start.at(path@),
            left == start.put(path@.take(k as int), final(cur)@),
        decreases path@.len() - k,
    {
        let i = path[k];
        let ghost done = path@.take(k as int);
        let ghost before = *cur;
        let ghost after = *final(cur);
        proof {
            let rest = path@.skip(k as int);
            assert(rest[0] == i);
            assert(rest.skip(1) =~= path@.skip(k + 1));
            lemma_view_unfold(before);
            lemma_view_unfold(after);
        }
        let child = &mut cur.childs[i];
        proof {
            let next = final(child)@;
            let step = seq![i];
            assert(after.childs@ == before.childs@.update(i as int, *final(child)));
            assert(after@.childs =~= before@.childs.update(i as int, next));
            assert(step.skip(1) =~= Seq::<usize>::empty());
            assert(before@.childs[i as int].put(step.skip(1), next) == next);
            assert(after@ == before@.put(step, next));
            assert(done + step =~= path@.take(k + 1));
            assert(done.push(i) =~= done + step);
            assert(i < before@.childs.len());
            lemma_path_push(start, done, i);
            lemma_put_below(start, done, step, next);
        }
        cur = child;
        k += 1;
    }
    proof {
        assert(path@.take(k as int) =~= path@);
    }
    cur
}

} // verus!
