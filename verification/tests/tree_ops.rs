use libtree::Tree;

fn childs_of(tree: &Tree<i32>) -> Vec<i32> {
    tree.iter_childs().collect().into_iter().copied().collect()
}

fn lazy_of(tree: &Tree<i32>) -> Vec<i32> {
    tree.lazyiter().collect().into_iter().copied().collect()
}

fn sample() -> Tree<i32> {
    let mut tree = Tree::from_element(0);
    tree.push_iter(vec![1, 2, 3]);
    tree.navigate_to(1);
    tree.push_iter(vec![9, 8]);
    tree.ascend();
    tree.navigate_to(0);
    tree.push_iter(vec![9, 10]);
    tree.navigate_to(0);
    tree.push(15);
    tree.go_to_root();
    tree
}

#[test]
fn peek() {
    let mut tree = Tree::from_element(4);
    assert_eq!(tree.peek(), &4);
    assert_eq!(tree.peek_mut(), &mut 4);
}

#[test]
fn move_to_no_panic() {
    let mut tree = Tree::from_element(3);
    tree.push(5);
    tree.push(-1);
    tree.navigate_to(1);
    assert_eq!(tree.peek(), &-1);
}

#[test]
fn move_up() {
    let mut tree = Tree::from_element(20);
    tree.push(1);
    tree.navigate_to(0);
    tree.ascend();
    assert_eq!(tree.peek(), &20);
}

#[test]
fn move_to_root() {
    let mut tree = Tree::from_element(10);
    tree.push(1);
    tree.navigate_to(0);
    tree.push(15);
    tree.navigate_to(0);
    tree.go_to_root();
    assert_eq!(tree.peek(), &10);
}

#[test]
fn push() {
    let mut tree = Tree::from_element(10);
    tree.push(2);
    tree.push(3);
    tree.push(4);
    let vec: Vec<&i32> = tree.iter_childs().collect();
    assert_eq!(vec, vec![&2, &3, &4]);
}

#[test]
fn insert() {
    let mut tree = Tree::from_element(10);
    tree.push(1);
    tree.push(3);
    tree.insert(1, 2);
    assert_eq!(tree.iter_childs().collect(), vec![&1, &2, &3]);
}

#[test]
fn iter_mutchilds() {
    let mut tree = Tree::from_element(10);
    tree.push_iter(vec![1, 2, 3]);
    let mut seen = Vec::new();
    let mut it = tree.iter_childs_mut();
    while let Some(el) = it.next() {
        seen.push(*el);
        *el += 10;
    }
    assert_eq!(seen, vec![1, 2, 3]);
    assert_eq!(childs_of(&tree), vec![11, 12, 13]);
    assert_eq!(tree.peek(), &10);
}

#[test]
fn join() {
    let mut tree1 = Tree::from_element(0);
    let mut tree2 = Tree::from_element(1);
    tree2.push_iter(vec![2, 3]);
    tree1.join(tree2, 0);
    tree1.navigate_to(0);
    assert_eq!(tree1.peek(), &1);
    assert_eq!(tree1.iter_childs().collect(), vec![&2, &3]);
}

#[test]
fn join_takes_the_whole_donor() {
    let mut tree1 = Tree::from_element(0);
    tree1.push_iter(vec![1, 2, 3]);
    let mut tree2 = Tree::from_element(4);
    tree2.push_iter(vec![5, 6]);
    tree2.navigate_to(1);
    tree1.join(tree2, 1);
    assert_eq!(childs_of(&tree1), vec![1, 4, 2, 3]);
    tree1.navigate_to(1);
    assert_eq!(childs_of(&tree1), vec![5, 6]);
    tree1.go_to_root();
    assert_eq!(tree1.iter(), vec![&0, &1, &4, &5, &6, &2, &3]);
}

#[test]
fn split() {
    let mut tree = Tree::from_element(0);
    tree.push_iter(vec![1, 2]);
    tree.navigate_to(1);
    tree.push_iter(vec![3, 4]);
    tree.ascend();
    let split_tree = tree.split(1);
    assert!(!split_tree.has_father());
    assert_eq!(split_tree.peek(), &2);
    assert_eq!(split_tree.iter_childs().collect(), vec![&3, &4]);

    std::mem::drop(tree);
    assert_eq!(split_tree.peek(), &2);
}

#[test]
fn split_leaves_the_rest() {
    let mut tree = Tree::from_element(0);
    tree.push_iter(vec![1, 2, 3]);
    let part = tree.split(1);
    assert_eq!(part.iter(), vec![&2]);
    assert_eq!(tree.childs_len(), 2);
    assert_eq!(childs_of(&tree), vec![1, 3]);
}

#[test]
fn split_then_join_restores() {
    let mut tree = sample();
    let before: Vec<i32> = tree.iter().into_iter().copied().collect();
    let part = tree.split(0);
    assert_eq!(part.iter(), vec![&1, &9, &15, &10]);
    assert_eq!(tree.iter(), vec![&0, &2, &9, &8, &3]);
    tree.join(part, 0);
    let after: Vec<i32> = tree.iter().into_iter().copied().collect();
    assert_eq!(before, after);
    assert_eq!(after, vec![0, 1, 9, 15, 10, 2, 9, 8, 3]);
}

#[test]
fn clone() {
    let mut tree = Tree::from_element(0);
    tree.push_iter(vec![1, 2, 3]);
    tree.navigate_to(0);
    tree.push_iter(vec![4, 5]);
    tree.ascend();
    tree.navigate_to(1);
    tree.push_iter(vec![6, 7, 8]);
    tree.ascend();
    tree.navigate_to(2);
    tree.push(9);
    tree.navigate_to(0);
    tree.push_iter(vec![1, 2, 3]);

    let mut clone = tree.clone();
    std::mem::drop(tree);

    assert_eq!(clone.peek(), &9);
    assert_eq!(clone.iter_childs().collect(), vec![&1, &2, &3]);
    clone.ascend();
    clone.ascend();
    clone.navigate_to(1);
    assert_eq!(clone.iter_childs().collect(), vec![&6, &7, &8]);
    clone.go_to_root();
    assert_eq!(clone.peek(), &0);
    assert_eq!(clone.iter_childs().collect(), vec![&1, &2, &3]);
}

#[test]
fn clone_is_deep() {
    let mut tree = sample();
    tree.navigate_to(1);
    let mut twin = tree.clone();
    twin.go_to_root();
    tree.go_to_root();
    assert_eq!(tree.iter(), twin.iter());
    *twin.peek_mut() = 100;
    *twin.peek_child_mut(0) = 200;
    twin.navigate_to(2);
    twin.push(300);
    twin.go_to_root();
    assert_eq!(twin.iter(), vec![&100, &200, &9, &15, &10, &2, &9, &8, &3, &300]);
    assert_eq!(tree.iter(), vec![&0, &1, &9, &15, &10, &2, &9, &8, &3]);
}

#[test]
fn clone_of_empty_is_empty() {
    let tree: Tree<i32> = Tree::default();
    let twin = tree.clone();
    assert!(twin.is_empty());
}

#[test]
fn memory_leak() {
    let mut tree = Tree::from_element(vec![1, 2, 3]);
    tree.push(vec![4, 5, 6]);
}

#[test]
fn into_vec() {
    let mut tree = Tree::from_element(0);
    tree.push_iter(vec![1, 2, 3]);
    tree.navigate_to(1);
    tree.push_iter(vec![9, 8]);
    tree.ascend();
    tree.navigate_to(0);
    tree.push_iter(vec![9, 10]);
    tree.navigate_to(0);
    tree.push(15);
    tree.go_to_root();
    tree.navigate_to(0);
    let vec = tree.into_vec();
    assert_eq!(vec, vec![1, 9, 15, 10]);
    assert_eq!(tree.peek(), &0);
    tree.navigate_to(0);
    assert_eq!(tree.peek(), &2);
    tree.navigate_to(1);
    assert_eq!(tree.peek(), &8)
}

#[test]
fn into_vec_below_root_keeps_the_rest() {
    let mut tree = Tree::from_element(0);
    tree.push_iter(vec![1, 2, 3]);
    tree.navigate_to(0);
    tree.push_iter(vec![9, 10]);
    tree.navigate_to(0);
    tree.push(15);
    tree.go_to_root();
    tree.navigate_to(0);
    assert_eq!(tree.into_vec(), vec![1, 9, 15, 10]);
    assert_eq!(tree.peek(), &0);
    assert!(!tree.has_father());
    assert_eq!(tree.iter(), vec![&0, &2, &3]);
}

#[test]
fn into_vec_at_root_empties() {
    let mut tree = Tree::from_element([0, 0]);
    tree.push_iter(vec![[1, 2], [3, 4]]);
    assert_eq!(tree.into_vec(), vec![[0, 0], [1, 2], [3, 4]]);
    assert!(tree.is_empty());
    assert!(!tree.has_father());
    assert!(tree.iter().is_empty());
}

#[test]
fn default_is_empty() {
    let tree: Tree<i32> = Tree::default();
    assert!(tree.is_empty());
    assert!(!tree.has_father());
    assert!(tree.iter().is_empty());
}

#[test]
fn is_empty() {
    let mut tree = Tree::from_element(10);
    assert!(!tree.is_empty());
    tree.push_iter(vec![1, 2, 3]);
    tree.into_vec();
    assert!(tree.is_empty());
}

#[test]
fn has_father() {
    let mut tree = Tree::from_element(10);
    assert_eq!(tree.has_father(), false);
    tree.push(10);
    tree.navigate_to(0);
    assert_eq!(tree.has_father(), true);
}

#[test]
fn push_iter_then_navigate() {
    let mut tree = Tree::from_element(0);
    tree.push_iter(vec![1, 2, 3]);
    assert_eq!(tree.childs_len(), 3);
    tree.navigate_to(2);
    assert_eq!(tree.peek(), &3);
    assert_eq!(tree.childs_len(), 0);
}

#[test]
fn push_then_navigate_to_last() {
    let mut tree = Tree::from_element(0);
    tree.push_iter(vec![1, 2]);
    tree.push(7);
    let last = tree.childs_len() - 1;
    tree.navigate_to(last);
    assert_eq!(tree.peek(), &7);
}

#[test]
fn navigate_then_ascend_restores() {
    let mut tree = sample();
    tree.navigate_to(1);
    let before: Vec<i32> = tree.iter().into_iter().copied().collect();
    tree.navigate_to(0);
    assert_eq!(tree.peek(), &9);
    tree.ascend();
    assert_eq!(tree.peek(), &2);
    let after: Vec<i32> = tree.iter().into_iter().copied().collect();
    assert_eq!(before, after);
}

#[test]
fn insert_shifts_later_children() {
    let mut tree = Tree::from_element(0);
    tree.push_iter(vec![1, 3]);
    tree.insert(1, 2);
    assert_eq!(tree.peek_child(0), &1);
    assert_eq!(tree.peek_child(1), &2);
    assert_eq!(tree.peek_child(2), &3);
    tree.insert(0, -1);
    tree.insert(4, 4);
    assert_eq!(childs_of(&tree), vec![-1, 1, 2, 3, 4]);
    tree.navigate_to(1);
    assert_eq!(tree.peek(), &1);
}

#[test]
fn peek_child() {
    let mut tree = Tree::from_element(0);
    tree.push_iter(vec![1, 2, 3]);
    assert_eq!(tree.peek_child(2), &3);
    assert_eq!(tree.peek_child_mut(2), &mut 3);
    *tree.peek_child_mut(1) = 20;
    assert_eq!(childs_of(&tree), vec![1, 20, 3]);
    assert_eq!(tree.peek(), &0);
}

#[test]
fn peek_mut_writes_one_element() {
    let mut tree = sample();
    tree.navigate_to(1);
    *tree.peek_mut() = 22;
    tree.go_to_root();
    assert_eq!(tree.iter(), vec![&0, &1, &9, &15, &10, &22, &9, &8, &3]);
}

#[test]
fn iter_from_root_after_push_below() {
    let mut tree = Tree::from_element(0);
    tree.push_iter(vec![1, 2, 3]);
    tree.navigate_to(1);
    tree.push(4);
    tree.ascend();
    assert_eq!(tree.iter(), vec![&0, &1, &2, &4, &3]);
}

#[test]
fn iter_walks_the_current_subtree() {
    let mut tree = sample();
    tree.navigate_to(0);
    assert_eq!(tree.iter(), vec![&1, &9, &15, &10]);
    tree.navigate_to(1);
    assert_eq!(tree.iter(), vec![&10]);
}

#[test]
fn lazyiter() {
    let mut tree = Tree::from_element(0);
    tree.push_iter(vec![1, 2, 3]);
    tree.navigate_to(1);
    tree.push_iter(vec![9, 8]);
    tree.ascend();
    tree.navigate_to(0);
    tree.push_iter(vec![9, 10]);
    tree.navigate_to(0);
    tree.push(15);
    tree.go_to_root();
    assert_eq!(
        tree.lazyiter().collect(),
        vec![&0, &1, &9, &15, &10, &2, &9, &8, &3]
    );
    tree.navigate_to(1);
    assert_eq!(tree.lazyiter().collect(), vec![&2, &9, &8]);
}

#[test]
fn lazyiter_step_by_step() {
    let mut tree = Tree::from_element(0);
    tree.push_iter(vec![1, 2]);
    let mut it = tree.lazyiter();
    assert_eq!(it.next(), Some(&0));
    assert_eq!(it.next(), Some(&1));
    assert_eq!(it.next(), Some(&2));
    assert_eq!(it.next(), None);
    assert_eq!(it.next(), None);
}

#[test]
fn lazyiter_single_node() {
    let tree = Tree::from_element(7);
    assert_eq!(tree.lazyiter().collect(), vec![&7]);
    assert_eq!(tree.iter(), vec![&7]);
    let mut below = Tree::from_element(0);
    below.push(1);
    below.navigate_to(0);
    assert_eq!(below.lazyiter().collect(), vec![&1]);
}

#[test]
fn lazyiter_agrees_with_iter() {
    let mut tree = sample();
    assert_eq!(tree.lazyiter().collect(), tree.iter());
    tree.navigate_to(0);
    assert_eq!(tree.lazyiter().collect(), tree.iter());
    tree.navigate_to(0);
    assert_eq!(tree.lazyiter().collect(), tree.iter());
    tree.navigate_to(0);
    assert_eq!(tree.lazyiter().collect(), tree.iter());
    let mut chain = Tree::from_element(0);
    chain.push(1);
    chain.navigate_to(0);
    chain.push(2);
    chain.navigate_to(0);
    chain.push(3);
    chain.go_to_root();
    assert_eq!(chain.lazyiter().collect(), vec![&0, &1, &2, &3]);
    assert_eq!(chain.iter(), vec![&0, &1, &2, &3]);
}

#[test]
fn lazyiter_mut() {
    let mut tree = Tree::from_element(0);
    tree.push_iter(vec![1, 2, 3]);
    tree.navigate_to(1);
    tree.push_iter(vec![9, 8]);
    tree.ascend();
    tree.navigate_to(0);
    tree.push_iter(vec![9, 10]);
    tree.navigate_to(0);
    tree.push(15);
    tree.go_to_root();
    let mut seen = Vec::new();
    let mut it = tree.lazyiter_mut();
    while let Some(el) = it.next() {
        seen.push(*el);
    }
    assert_eq!(seen, vec![0, 1, 9, 15, 10, 2, 9, 8, 3]);

    let mut it = tree.lazyiter_mut();
    while let Some(el) = it.next() {
        *el += 1
    }
    assert_eq!(
        tree.lazyiter().collect(),
        vec![&1, &2, &10, &16, &11, &3, &10, &9, &4]
    );

    tree.navigate_to(1);
    let mut it = tree.lazyiter_mut();
    while let Some(el) = it.next() {
        *el += 10;
    }
    tree.go_to_root();

    assert_eq!(tree.into_vec(), [1, 2, 10, 16, 11, 13, 20, 19, 4]);
}

#[test]
fn lazyiter_mut_keeps_the_position() {
    let mut tree = sample();
    tree.navigate_to(0);
    let mut it = tree.lazyiter_mut();
    while let Some(el) = it.next() {
        *el *= 2;
    }
    assert_eq!(tree.peek(), &2);
    assert_eq!(lazy_of(&tree), vec![2, 18, 30, 20]);
    tree.go_to_root();
    assert_eq!(lazy_of(&tree), vec![0, 2, 18, 30, 20, 2, 9, 8, 3]);
}

#[test]
fn iter_mut_gives_every_element_for_writing() {
    let mut tree = Tree::from_element(0);
    tree.push_iter(vec![1, 2, 3]);
    tree.navigate_to(1);
    tree.push(4);
    tree.ascend();
    assert_eq!(
        tree.iter_mut(),
        vec![&mut 0, &mut 1, &mut 2, &mut 4, &mut 3]
    );
    for el in tree.iter_mut() {
        *el *= 10;
    }
    assert_eq!(tree.iter(), vec![&0, &10, &20, &40, &30]);
    tree.navigate_to(1);
    let mut refs = tree.iter_mut();
    let last = refs.pop().unwrap();
    let first = refs.pop().unwrap();
    assert!(refs.is_empty());
    std::mem::swap(first, last);
    assert_eq!(tree.peek(), &40);
    tree.go_to_root();
    assert_eq!(tree.iter(), vec![&0, &10, &40, &20, &30]);
}

#[test]
fn iter_mut_on_empty_tree_is_empty() {
    let mut tree: Tree<i32> = Tree::default();
    assert!(tree.iter_mut().is_empty());
    assert!(tree.is_empty());
}

#[test]
fn single_node_has_no_child_to_move_to() {
    let tree = Tree::from_element(0);
    assert_eq!(tree.childs_len(), 0);
    assert!(tree.iter_childs().collect().is_empty());
    assert!(!tree.has_father());
}

#[test]
fn deep_chain_is_walked_without_recursion() {
    let depth = 3000;
    let mut tree = Tree::from_element(0usize);
    for level in 1..=depth {
        tree.push(level);
        tree.navigate_to(0);
    }
    assert_eq!(tree.peek(), &depth);
    tree.go_to_root();
    let eager = tree.iter();
    assert_eq!(eager.len(), depth + 1);
    assert_eq!(*eager[depth], depth);
    assert_eq!(tree.lazyiter().collect(), eager);
    let all = tree.into_vec();
    assert_eq!(all.len(), depth + 1);
    assert_eq!(all[0], 0);
    assert_eq!(all[depth], depth);
    assert!(tree.is_empty());
}

#[test]
fn wide_node_keeps_sibling_order() {
    let mut tree = Tree::from_element(-1);
    tree.push_iter((0..100).collect());
    assert_eq!(tree.childs_len(), 100);
    let got: Vec<i32> = tree.iter_childs().collect().into_iter().copied().collect();
    assert_eq!(got, (0..100).collect::<Vec<i32>>());
    let part = tree.split(50);
    assert_eq!(part.peek(), &50);
    assert_eq!(tree.peek_child(50), &51);
    assert_eq!(tree.childs_len(), 99);
}
