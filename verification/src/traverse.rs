//! Passes over a whole subtree at once: collecting its elements or
//! references to them, and copying it.

use crate::node::{lemma_view_unfold, Node, Shape};
use vstd::prelude::*;

verus! {

/// The elements that a sequence of references points to.
pub open spec fn targets<T>(refs: Seq<&T>) -> Seq<T> {
    Seq::new(refs.len(), |i: int| *refs[i])
}

/// The elements still to come from a stack of subtrees: the top of the stack,
/// which is its last entry, is walked first.
spec fn pending<T>(stack: Seq<Shape<T>>) -> Seq<T>
    decreases stack.len(),
{
    if stack.len() == 0 {
        Seq::empty()
    } else {
        stack.last().preorder() + pending(stack.drop_last())
    }
}

spec fn shapes_of<T>(stack: Seq<Node<T>>) -> Seq<Shape<T>> {
    Seq::new(stack.len(), |i: int| stack[i]@)
}

spec fn shapes_of_refs<T>(stack: Seq<&Node<T>>) -> Seq<Shape<T>> {
    Seq::new(stack.len(), |i: int| stack[i]@)
}

proof fn lemma_pending_push<T>(stack: Seq<Shape<T>>, top: Shape<T>)
    ensures
        pending(stack.push(top)) == top.preorder() + pending(stack),
{
    assert(stack.push(top).drop_last() =~= stack);
}

/// The references to the elements of the subtree under `node`, depth first:
/// a node before its children, the children from left to right.
pub(crate) fn collect_refs<'a, T>(node: &'a Node<T>) -> (out: Vec<&'a T>)
    ensures
        targets(out@) == node@.preorder(),
{
    let mut out: Vec<&'a T> = Vec::new();
    let mut stack: Vec<&'a Node<T>> = Vec::new();
    stack.push(node);
    proof {
        lemma_pending_push(Seq::<Shape<T>>::empty(), node@);
        assert(shapes_of_refs(stack@) =~= Seq::<Shape<T>>::empty().push(node@));
        assert(targets(out@) + pending(shapes_of_refs(stack@)) =~= node@.preorder());
    }
    while stack.len() > 0
        invariant
            targets(out@) + pending(shapes_of_refs(stack@)) == node@.preorder(),
        decreases pending(shapes_of_refs(stack@)).len(),
    {
        let ghost out_before = out@;
        let ghost stack_before = stack@;
        let n = stack.pop().unwrap();
        let ghost base = shapes_of_refs(stack@);
        proof {
            assert(shapes_of_refs(stack_before).last() == n@);
            assert(shapes_of_refs(stack_before).drop_last() =~= base);
            lemma_view_unfold(*n);
        }
        out.push(&n.elem);
        proof {
            assert(targets(out@) =~= targets(out_before).push(n@.elem));
        }
        let mut k = n.childs.len();
        while k > 0
            invariant
                k <= n.childs@.len(),
                n@.childs.len() == n.childs@.len(),
                pending(shapes_of_refs(stack@)) == n@.preorder_from(k as int) + pending(base),
            decreases k,
        {
            k -= 1;
            let ghost before = stack@;
            stack.push(&n.childs[k]);
            proof {
                lemma_view_unfold(*n);
                assert(shapes_of_refs(stack@) =~= shapes_of_refs(before).push(n@.childs[k as int]));
                lemma_pending_push(shapes_of_refs(before), n@.childs[k as int]);
                assert(n@.preorder_from(k as int) == n@.childs[k as int].preorder()
                    + n@.preorder_from(k + 1));
                assert(pending(shapes_of_refs(stack@)) =~= n@.preorder_from(k as int) + pending(
                    base,
                ));
            }
        }
        proof {
            assert(targets(out@) + pending(shapes_of_refs(stack@)) =~= targets(out_before) + (
            n@.preorder() + pending(base)));
        }
    }
    proof {
        assert(targets(out@) =~= targets(out@) + pending(shapes_of_refs(stack@)));
    }
    out
}

/// The elements of the subtree under `node`, moved out of it depth first: a
/// node before its children, the children from left to right.
pub(crate) fn collect<T>(node: Node<T>) -> (out: Vec<T>)
    ensures
        out@ == node@.preorder(),
{
    let mut out: Vec<T> = Vec::new();
    let mut stack: Vec<Node<T>> = Vec::new();
    stack.push(node);
    proof {
        lemma_pending_push(Seq::<Shape<T>>::empty(), node@);
        assert(shapes_of(stack@) =~= Seq::<Shape<T>>::empty().push(node@));
        assert(out@ + pending(shapes_of(stack@)) =~= node@.preorder());
    }
    while stack.len() > 0
        invariant
            out@ + pending(shapes_of(stack@)) == node@.preorder(),
        decreases pending(shapes_of(stack@)).len(),
    {
        let ghost out_before = out@;
        let ghost stack_before = stack@;
        let n = stack.pop().unwrap();
        let ghost base = shapes_of(stack@);
        let ghost whole = n@;
        proof {
            assert(shapes_of(stack_before).last() == n@);
            assert(shapes_of(stack_before).drop_last() =~= base);
            lemma_view_unfold(n);
        }
        let ghost all = n.childs@;
        let Node { elem, mut childs } = n;
        out.push(elem);
        while childs.len() > 0
            invariant
                childs@.len() <= all.len(),
                childs@ == all.take(childs@.len() as int),
                whole.childs.len() == all.len(),
                forall|i: int| 0 <= i < all.len() ==> whole.childs[i] == #[trigger] all[i]@,
                pending(shapes_of(stack@)) == whole.preorder_from(childs@.len() as int) + pending(
                    base,
                ),
            decreases childs@.len(),
        {
            let ghost before = stack@;
            let ghost k = childs@.len() - 1;
            let c = childs.pop().unwrap();
            stack.push(c);
            proof {
                assert(childs@ =~= all.take(k));
                assert(c == all[k]);
                assert(shapes_of(stack@) =~= shapes_of(before).push(whole.childs[k]));
                lemma_pending_push(shapes_of(before), whole.childs[k]);
                assert(whole.preorder_from(k) == whole.childs[k].preorder() + whole.preorder_from(
                    k + 1,
                ));
                assert(pending(shapes_of(stack@)) =~= whole.preorder_from(k) + pending(base));
            }
        }
        proof {
            assert(out@ + pending(shapes_of(stack@)) =~= out_before + (whole.preorder() + pending(
                base,
            )));
        }
    }
    proof {
        assert(out@ =~= out@ + pending(shapes_of(stack@)));
    }
    out
}

/// A copy of the subtree under `node`, each element cloned.
pub(crate) fn clone_node<T: Clone>(node: &Node<T>) -> (twin: Node<T>)
    ensures
        node@.cloned_as(twin@),
    decreases node,
{
    let mut childs: Vec<Node<T>> = Vec::new();
    let mut i: usize = 0;
    while i < node.childs.len()
        invariant
            i <= node.childs@.len(),
            childs@.len() == i,
            forall|j: int| 0 <= j < i ==> (#[trigger] node.childs@[j])@.cloned_as(childs@[j]@),
        decreases node.childs@.len() - i,
    {
        let c = clone_node(&node.childs[i]);
        childs.push(c);
        i += 1;
    }
    let twin = Node { elem: node.elem.clone(), childs };
    proof {
        lemma_view_unfold(*node);
        lemma_view_unfold(twin);
        assert forall|j: int| 0 <= j < node@.childs.len() implies (
        #[trigger] node@.childs[j]).cloned_as(twin@.childs[j]) by {
            assert(node.childs@[j]@.cloned_as(childs@[j]@));
        }
    }
    twin
}

/// The elements that a sequence of writing references points to.
pub open spec fn targets_mut<T>(refs: Seq<&mut T>) -> Seq<T> {
    Seq::new(refs.len(), |i: int| *refs[i])
}

/// The depth-first sequence of the subtrees under the first `k` of `childs`.
spec fn forest_upto<T>(childs: Seq<Shape<T>>, k: int) -> Seq<T>
    decreases k,
{
    if 0 < k <= childs.len() {
        forest_upto(childs, k - 1) + childs[k - 1].preorder()
    } else {
        Seq::empty()
    }
}

proof fn lemma_forest_upto_prefix<T>(a: Seq<Shape<T>>, b: Seq<Shape<T>>, k: int)
    requires
        0 <= k <= a.len(),
        k <= b.len(),
        forall|j: int| 0 <= j < k ==> a[j] == b[j],
    ensures
        forest_upto(a, k) == forest_upto(b, k),
    decreases k,
{
    if k > 0 {
        lemma_forest_upto_prefix(a, b, k - 1);
    }
}

proof fn lemma_forest_split<T>(s: Shape<T>, k: int)
    requires
        0 <= k <= s.childs.len(),
    ensures
        forest_upto(s.childs, k) + s.preorder_from(k) == s.preorder_from(0),
    decreases k,
{
    if k > 0 {
        lemma_forest_split(s, k - 1);
        assert(forest_upto(s.childs, k) + s.preorder_from(k) =~= forest_upto(s.childs, k - 1)
            + s.preorder_from(k - 1));
    } else {
        assert(forest_upto(s.childs, k) + s.preorder_from(k) =~= s.preorder_from(0));
    }
}

/// Appends to `out` writing references to the elements of the subtree under
/// `node`, depth first.
pub(crate) fn gather_mut<'a, T>(node: &'a mut Node<T>, out: &mut Vec<&'a mut T>)
    ensures
        final(out)@.len() == old(out)@.len() + old(node)@.preorder().len(),
        forall|i: int| 0 <= i < old(out)@.len() ==> final(out)@[i] == old(out)@[i],
        forall|i: int|
            #![trigger final(out)@[old(out)@.len() + i]]
            0 <= i < old(node)@.preorder().len() ==> *final(out)@[old(out)@.len() + i] == old(
                node,
            )@.preorder()[i],
        final(node)@.same_shape(old(node)@),
        final(node)@.preorder().len() == old(node)@.preorder().len(),
        forall|i: int|
            #![trigger final(out)@[old(out)@.len() + i]]
            0 <= i < old(node)@.preorder().len() ==> final(node)@.preorder()[i] == *final(
                final(out)@[old(out)@.len() + i]
            ),
    decreases *old(node),
{
    let ghost before = *node;
    let ghost after = *final(node);
    let ghost start = out@.len();
    let ghost out0 = out@;
    let el = &mut node.elem;
    let childs = &mut node.childs;
    out.push(el);
    let mut rest: &'a mut [Node<T>] = childs.as_mut_slice();
    let ghost k: int = 0;
    proof {
        lemma_view_unfold(before);
        assert(after.childs@.skip(0) =~= after.childs@);
        assert(before.childs@.skip(0) =~= before.childs@);
    }
    while rest.len() > 0
        invariant
            before == *old(node),
            0 <= k <= before.childs@.len(),
            k + rest@.len() == before.childs@.len(),
            before@.childs.len() == before.childs@.len(),
            forall|j: int| 0 <= j < before.childs@.len() ==> before@.childs[j] == (
            #[trigger] before.childs@[j])@,
            rest@ == before.childs@.skip(k),
            k <= after.childs@.len(),
            after.childs@.skip(k) == final(rest)@,
            forall|j: int|
                0 <= j < k ==> (#[trigger] after.childs@[j])@.same_shape(before.childs@[j]@),
            out@.len() == start + 1 + forest_upto(before@.childs, k).len(),
            forest_upto(shapes_of(after.childs@.take(k)), k).len() == forest_upto(
                before@.childs,
                k,
            ).len(),
            forall|i: int| 0 <= i < start ==> out@[i] == out0[i],
            *out@[start as int] == before.elem,
            *final(out@[start as int]) == after.elem,
            forall|i: int|
                #![trigger out@[start + 1 + i]]
                0 <= i < forest_upto(before@.childs, k).len() ==> *out@[start + 1 + i]
                    == forest_upto(before@.childs, k)[i] && *final(out@[start + 1 + i])
                    == forest_upto(shapes_of(after.childs@.take(k)), k)[i],
        decreases before.childs@.len() - k,
    {
        let ghost out1 = out@;
        let ghost rest_fin = final(rest)@;
        let cur = rest;
        let (first, tail) = cur.split_at_mut(1);
        let ghost first_fin = final(first)@;
        let child = first.first_mut().unwrap();
        let ghost child0 = *child;
        let ghost child_fin = *final(child);
        proof {
            assert(child0 == before.childs@[k]);
            assert(first_fin =~= seq![child_fin]);
            assert(rest_fin == first_fin + final(tail)@);
            assert(after.childs@.skip(k).len() >= 1);
            assert(after.childs@[k] == after.childs@.skip(k)[0]);
            assert(after.childs@[k] == child_fin);
            assert(after.childs@.skip(k + 1) =~= after.childs@.skip(k).skip(1));
            assert((first_fin + final(tail)@).skip(1) =~= final(tail)@);
            assert(after.childs@.skip(k + 1) =~= final(tail)@);
            assert(decreases_to!(before => before.childs));
            assert(decreases_to!(before.childs => before.childs@[k]));
            assert(decreases_to!(before => child0));
        }
        gather_mut(child, out);
        proof {
            let olds = before@.childs;
            let news = shapes_of(after.childs@.take(k + 1));
            let prev = shapes_of(after.childs@.take(k));
            assert(news[k] == child_fin@);
            assert(olds[k] == child0@);
            lemma_forest_upto_prefix(news, prev, k);
            assert(forest_upto(news, k + 1) == forest_upto(news, k) + child_fin@.preorder());
            assert(forest_upto(olds, k + 1) == forest_upto(olds, k) + child0@.preorder());
            let base = forest_upto(olds, k).len();
            assert forall|i: int|
                #![trigger out@[start + 1 + i]]
                0 <= i < forest_upto(olds, k + 1).len() implies *out@[start + 1 + i] == forest_upto(
                olds,
                k + 1,
            )[i] && *final(out@[start + 1 + i]) == forest_upto(news, k + 1)[i] by {
                if i < base {
                    assert(out@[start + 1 + i] == out1[start + 1 + i]);
                } else {
                    assert(out@[out1.len() + (i - base)] == out@[start + 1 + i]);
                }
            }
            k = k + 1;
        }
        rest = tail;
    }
    proof {
        lemma_view_unfold(after);
        assert(after.childs@.take(k) =~= after.childs@);
        assert(shapes_of(after.childs@) =~= after@.childs);
        lemma_forest_split(before@, k);
        lemma_forest_split(after@, k);
        assert(before@.preorder_from(k) =~= Seq::<T>::empty());
        assert(after@.preorder_from(k) =~= Seq::<T>::empty());
        assert(forest_upto(before@.childs, k) =~= before@.preorder_from(0));
        assert(forest_upto(after@.childs, k) =~= after@.preorder_from(0));
        assert forall|i: int|
            #![trigger out@[start + i]]
            0 <= i < before@.preorder().len() implies *out@[start + i] == before@.preorder()[i]
            && after@.preorder()[i] == *final(out@[start + i]) by {
            if i > 0 {
                assert(out@[start + 1 + (i - 1)] == out@[start + i]);
            }
        }
    }
}

} // verus!
