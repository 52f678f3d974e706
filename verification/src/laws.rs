//! What holds between the operations on a tree, stated over the tree as a
//! mathematical value.

use crate::node::{lemma_path_drop_last, lemma_path_push, lemma_put, Shape};
use crate::tree::TreeView;
use vstd::prelude::*;

verus! {

/// Going down to a child and up again leads back to the same position, in
/// the same tree, with the same element there.
pub proof fn lemma_navigate_then_ascend<T>(t: TreeView<T>, index: usize)
    requires
        t.live(),
        index < t.current().childs.len(),
    ensures
        t.navigate_to(index).live(),
        t.navigate_to(index).path.len() > 0,
        t.navigate_to(index).current() == t.current().childs[index as int],
        t.navigate_to(index).ascend() == t,
        t.navigate_to(index).ascend().current().elem == t.current().elem,
{
    lemma_path_push(t.root.unwrap(), t.path, index);
    assert(t.path.push(index).drop_last() =~= t.path);
}

/// After a push the current node has one child more, and going down to the
/// last child leads to a node without children that holds the pushed element.
pub proof fn lemma_push_then_navigate<T>(t: TreeView<T>, el: T, last: usize)
    requires
        t.live(),
        last == t.current().childs.len(),
    ensures
        t.push(el).live(),
        t.push(el).current().elem == t.current().elem,
        t.push(el).current().childs.len() == last + 1,
        forall|j: int| 0 <= j < last ==> t.push(el).current().childs[j] == t.current().childs[j],
        t.push(el).navigate_to(last).live(),
        t.push(el).navigate_to(last).current() == Shape::leaf(el),
{
    let grown = t.current().with_childs(t.current().childs.push(Shape::leaf(el)));
    lemma_put(t.root.unwrap(), t.path, grown);
    lemma_path_push(t.push(el).root.unwrap(), t.path, last);
}

/// Pushing a sequence of elements is pushing them one after the other.
pub proof fn lemma_push_iter_is_pushes<T>(t: TreeView<T>, elems: Seq<T>, el: T)
    requires
        t.live(),
    ensures
        t.push_iter(Seq::empty()) == t,
        t.push_iter(elems).live(),
        t.push_iter(elems.push(el)) == t.push_iter(elems).push(el),
{
    let cur = t.current();
    let root = t.root.unwrap();
    lemma_put(root, t.path, cur);
    assert(cur.childs + Shape::leaves(Seq::<T>::empty()) =~= cur.childs);
    let grown = cur.with_childs(cur.childs + Shape::leaves(elems));
    lemma_put(root, t.path, grown);
    assert(cur.childs + Shape::leaves(elems.push(el)) =~= grown.childs.push(Shape::leaf(el)));
}

/// An insert at `index` puts the new element there, in a node without
/// children, leaves the children before `index` where they were and moves
/// each child from `index` on one place to the right.
pub proof fn lemma_insert_shifts<T>(t: TreeView<T>, index: usize, el: T)
    requires
        t.live(),
        index <= t.current().childs.len(),
    ensures
        t.insert(index, el).live(),
        t.insert(index, el).current().elem == t.current().elem,
        t.insert(index, el).current().childs.len() == t.current().childs.len() + 1,
        t.insert(index, el).current().childs[index as int] == Shape::leaf(el),
        forall|j: int|
            0 <= j < index ==> t.insert(index, el).current().childs[j] == t.current().childs[j],
        forall|j: int|
            index <= j < t.current().childs.len() ==> t.insert(index, el).current().childs[j + 1]
                == t.current().childs[j],
{
    let grown = t.current().with_childs(t.current().childs.insert(index as int, Shape::leaf(el)));
    lemma_put(t.root.unwrap(), t.path, grown);
}

/// Splitting a child off and joining it back at the same index gives the
/// tree that was there before, so the same elements in the same order.
pub proof fn lemma_split_then_join<T>(t: TreeView<T>, index: usize)
    requires
        t.live(),
        index < t.current().childs.len(),
    ensures
        t.child_tree(index).live(),
        t.without_child(index).live(),
        index <= t.without_child(index).current().childs.len(),
        t.without_child(index).graft(index, t.child_tree(index).root.unwrap()) == t,
        t.without_child(index).graft(
            index,
            t.child_tree(index).root.unwrap(),
        ).go_to_root().preorder() == t.go_to_root().preorder(),
{
    let cur = t.current();
    let less = cur.with_childs(cur.childs.remove(index as int));
    lemma_put(t.root.unwrap(), t.path, less);
    assert(less.childs.insert(index as int, cur.childs[index as int]) =~= cur.childs);
    assert(less.with_childs(less.childs.insert(index as int, cur.childs[index as int])) == cur);
}

/// Joining a tree in at `index` makes its root the child there, and going
/// down to it shows the joined tree whole.
pub proof fn lemma_join_then_navigate<T>(t: TreeView<T>, index: usize, other: Shape<T>)
    requires
        t.live(),
        index <= t.current().childs.len(),
    ensures
        t.graft(index, other).live(),
        t.graft(index, other).navigate_to(index).live(),
        t.graft(index, other).navigate_to(index).current() == other,
{
    let grown = t.current().with_childs(t.current().childs.insert(index as int, other));
    lemma_put(t.root.unwrap(), t.path, grown);
    lemma_path_push(t.graft(index, other).root.unwrap(), t.path, index);
}

/// Replacing the subtree at `path` changes no node above it but in the one
/// child that leads to it: at each step `k` of the path the element is the
/// same, there are as many children, and every other child is the same.
pub proof fn lemma_put_elsewhere<T>(r: Shape<T>, path: Seq<usize>, sub: Shape<T>, k: int)
    requires
        r.has_path(path),
        0 <= k < path.len(),
    ensures
        r.put(path, sub).at(path.take(k)).elem == r.at(path.take(k)).elem,
        r.put(path, sub).at(path.take(k)).childs.len() == r.at(path.take(k)).childs.len(),
        forall|j: int|
            0 <= j < r.at(path.take(k)).childs.len() && j != path[k] ==> r.put(path, sub).at(
                path.take(k),
            ).childs[j] == r.at(path.take(k)).childs[j],
    decreases k,
{
    if k == 0 {
        assert(path.take(0) =~= Seq::<usize>::empty());
    } else {
        let head = path.take(k);
        assert(head[0] == path[0]);
        assert(head.skip(1) =~= path.skip(1).take(k - 1));
        lemma_put_elsewhere(r.childs[path[0] as int], path.skip(1), sub, k - 1);
    }
}

/// Cutting off the subtree at a position below the root, as `into_vec` does
/// there, leaves the position at the father, which keeps its element and its
/// other children in their order.
pub proof fn lemma_cut_below_root<T>(t: TreeView<T>)
    requires
        t.live(),
        t.path.len() > 0,
    ensures
        t.ascend().live(),
        t.path.last() < t.ascend().current().childs.len(),
        t.ascend().without_child(t.path.last()).live(),
        t.ascend().without_child(t.path.last()).path == t.path.drop_last(),
        t.ascend().without_child(t.path.last()).current().elem == t.ascend().current().elem,
        t.ascend().without_child(t.path.last()).current().childs
            == t.ascend().current().childs.remove(t.path.last() as int),
{
    lemma_path_drop_last(t.root.unwrap(), t.path);
    let father = t.ascend().current();
    lemma_put(
        t.root.unwrap(),
        t.path.drop_last(),
        father.with_childs(father.childs.remove(t.path.last() as int)),
    );
}

/// A clone holds as many elements as the tree it was made from, and each, in
/// depth-first order, is a clone of the element at the same place there.
pub proof fn lemma_clone_preorder<T: Clone>(a: Shape<T>, b: Shape<T>)
    requires
        a.cloned_as(b),
    ensures
        a.preorder().len() == b.preorder().len(),
        forall|i: int| 0 <= i < a.preorder().len() ==> cloned(a.preorder()[i], b.preorder()[i]),
    decreases a, 1nat, 0nat,
{
    lemma_clone_preorder_from(a, b, 0);
}

/// The same of the subtrees under the children from `k` on.
pub proof fn lemma_clone_preorder_from<T: Clone>(a: Shape<T>, b: Shape<T>, k: int)
    requires
        a.cloned_as(b),
        0 <= k,
    ensures
        a.preorder_from(k).len() == b.preorder_from(k).len(),
        forall|i: int|
            0 <= i < a.preorder_from(k).len() ==> cloned(
                a.preorder_from(k)[i],
                b.preorder_from(k)[i],
            ),
    decreases a, 0nat, a.childs.len() - k,
{
    if k < a.childs.len() {
        assert(a.childs[k].cloned_as(b.childs[k]));
        lemma_clone_preorder(a.childs[k], b.childs[k]);
        lemma_clone_preorder_from(a, b, k + 1);
    }
}

/// Where a clone of an element always equals the element, a clone of a tree
/// equals the tree, so both give the same elements in the same order.
pub proof fn lemma_clone_equal<T: Clone>(a: Shape<T>, b: Shape<T>)
    requires
        a.cloned_as(b),
        forall|x: T, y: T| cloned(x, y) ==> x == y,
    ensures
        a == b,
        a.preorder() == b.preorder(),
    decreases a,
{
    assert forall|i: int| 0 <= i < a.childs.len() implies a.childs[i] == b.childs[i] by {
        assert(a.childs[i].cloned_as(b.childs[i]));
        lemma_clone_equal(a.childs[i], b.childs[i]);
    }
    assert(a.childs =~= b.childs);
}

/// Every tree has its own shape.
pub proof fn lemma_same_shape_refl<T>(a: Shape<T>)
    ensures
        a.same_shape(a),
    decreases a,
{
    assert forall|i: int| 0 <= i < a.childs.len() implies (#[trigger] a.childs[i]).same_shape(
        a.childs[i],
    ) by {
        lemma_same_shape_refl(a.childs[i]);
    }
}

/// Trees of one shape have the same paths, and at each path subtrees of one
/// shape.
pub proof fn lemma_same_shape_paths<T>(a: Shape<T>, b: Shape<T>, path: Seq<usize>)
    requires
        a.same_shape(b),
    ensures
        a.has_path(path) == b.has_path(path),
        a.has_path(path) ==> a.at(path).same_shape(b.at(path)),
    decreases path.len(),
{
    if path.len() > 0 && path[0] < a.childs.len() {
        assert(a.childs[path[0] as int].same_shape(b.childs[path[0] as int]));
        lemma_same_shape_paths(a.childs[path[0] as int], b.childs[path[0] as int], path.skip(1));
    }
}

/// Trees of one shape hold equally many elements.
pub proof fn lemma_same_shape_len<T>(a: Shape<T>, b: Shape<T>)
    requires
        a.same_shape(b),
    ensures
        a.preorder().len() == b.preorder().len(),
    decreases a, 1nat, 0nat,
{
    lemma_same_shape_len_from(a, b, 0);
}

/// The same of the subtrees under the children from `k` on.
pub proof fn lemma_same_shape_len_from<T>(a: Shape<T>, b: Shape<T>, k: int)
    requires
        a.same_shape(b),
        0 <= k,
    ensures
        a.preorder_from(k).len() == b.preorder_from(k).len(),
    decreases a, 0nat, a.childs.len() - k,
{
    if k < a.childs.len() {
        assert(a.childs[k].same_shape(b.childs[k]));
        lemma_same_shape_len(a.childs[k], b.childs[k]);
        lemma_same_shape_len_from(a, b, k + 1);
    }
}

/// A tree is known by its shape and the depth-first sequence of its
/// elements: trees of one shape that give the same sequence are equal.
pub proof fn lemma_shape_and_preorder<T>(a: Shape<T>, b: Shape<T>)
    requires
        a.same_shape(b),
        a.preorder() == b.preorder(),
    ensures
        a == b,
    decreases a, 1nat, 0nat,
{
    assert(a.preorder()[0] == a.elem);
    assert(b.preorder()[0] == b.elem);
    assert(a.preorder_from(0) =~= a.preorder().skip(1));
    assert(b.preorder_from(0) =~= b.preorder().skip(1));
    lemma_shape_and_preorder_from(a, b, 0);
    assert(a.childs =~= b.childs);
}

/// The same of the children from `k` on.
pub proof fn lemma_shape_and_preorder_from<T>(a: Shape<T>, b: Shape<T>, k: int)
    requires
        a.same_shape(b),
        0 <= k,
        a.preorder_from(k) == b.preorder_from(k),
    ensures
        forall|j: int| k <= j < a.childs.len() ==> a.childs[j] == b.childs[j],
    decreases a, 0nat, a.childs.len() - k,
{
    if k < a.childs.len() {
        let x = a.childs[k];
        let y = b.childs[k];
        assert(x.same_shape(y));
        lemma_same_shape_len(x, y);
        let n = x.preorder().len() as int;
        assert(a.preorder_from(k) == x.preorder() + a.preorder_from(k + 1));
        assert(b.preorder_from(k) == y.preorder() + b.preorder_from(k + 1));
        assert(x.preorder() =~= a.preorder_from(k).take(n));
        assert(y.preorder() =~= b.preorder_from(k).take(n));
        assert(a.preorder_from(k + 1) =~= a.preorder_from(k).skip(n));
        assert(b.preorder_from(k + 1) =~= b.preorder_from(k).skip(n));
        lemma_shape_and_preorder(x, y);
        lemma_shape_and_preorder_from(a, b, k + 1);
    }
}

/// Of two trees of one shape, both or neither have a node with more
/// children than a machine can count.
pub proof fn lemma_same_shape_bounded<T>(a: Shape<T>, b: Shape<T>)
    requires
        a.same_shape(b),
        b.bounded(),
    ensures
        a.bounded(),
{
    assert forall|path: Seq<usize>| a.has_path(path) implies (#[trigger] a.at(
        path,
    )).childs.len() <= usize::MAX by {
        lemma_same_shape_paths(a, b, path);
        assert(b.at(path).childs.len() <= usize::MAX);
    }
}

/// Replacing a subtree by one of its shape keeps the shape of the whole.
pub proof fn lemma_put_same_shape<T>(r: Shape<T>, path: Seq<usize>, sub: Shape<T>)
    requires
        r.has_path(path),
        sub.same_shape(r.at(path)),
    ensures
        r.put(path, sub).same_shape(r),
    decreases path.len(),
{
    if path.len() > 0 {
        let i = path[0] as int;
        lemma_put_same_shape(r.childs[i], path.skip(1), sub);
        assert forall|j: int| 0 <= j < r.childs.len() implies (#[trigger] r.put(
            path,
            sub,
        ).childs[j]).same_shape(r.childs[j]) by {
            if j != i {
                lemma_same_shape_refl(r.childs[j]);
            }
        }
    }
}

/// Writing another element into one node keeps the shape of the tree, so
/// every position that named a node still names one.
pub proof fn lemma_elem_keeps_shape<T>(t: TreeView<T>, el: T)
    requires
        t.live(),
    ensures
        t.with_elem(el).root.unwrap().same_shape(t.root.unwrap()),
        forall|path: Seq<usize>| #[trigger]
            t.with_elem(el).at_path(path).live() == t.at_path(path).live(),
{
    let sub = t.current().with_elem(el);
    assert(sub.same_shape(t.current())) by {
        lemma_same_shape_refl(t.current());
    }
    lemma_put_same_shape(t.root.unwrap(), t.path, sub);
    assert forall|path: Seq<usize>| #[trigger]
        t.with_elem(el).at_path(path).live() == t.at_path(path).live() by {
        lemma_same_shape_paths(t.with_elem(el).root.unwrap(), t.root.unwrap(), path);
    }
}

/// The same of writing another element into a child of the current node.
pub proof fn lemma_child_elem_keeps_shape<T>(t: TreeView<T>, index: usize, el: T)
    requires
        t.live(),
        index < t.current().childs.len(),
    ensures
        t.with_child_elem(index, el).root.unwrap().same_shape(t.root.unwrap()),
        forall|path: Seq<usize>| #[trigger]
            t.with_child_elem(index, el).at_path(path).live() == t.at_path(path).live(),
{
    let cur = t.current();
    let sub = cur.with_child_elem(index, el);
    assert(sub.same_shape(cur)) by {
        lemma_same_shape_refl(cur);
        lemma_same_shape_refl(cur.childs[index as int]);
        assert(cur.childs[index as int].with_elem(el).same_shape(cur.childs[index as int]));
        assert forall|j: int| 0 <= j < sub.childs.len() implies (
        #[trigger] sub.childs[j]).same_shape(cur.childs[j]) by {
            if j != index {
                lemma_same_shape_refl(cur.childs[j]);
            }
        }
    }
    lemma_put_same_shape(t.root.unwrap(), t.path, sub);
    assert forall|path: Seq<usize>| #[trigger]
        t.with_child_elem(index, el).at_path(path).live() == t.at_path(path).live() by {
        lemma_same_shape_paths(t.with_child_elem(index, el).root.unwrap(), t.root.unwrap(), path);
    }
}

} // verus!
