use libtree::Tree;

fn sample() -> Tree<i32> {
    let mut tree = Tree::from_element(0);
    tree.push_iter(vec![1, 2, 3]);
    tree.navigate_to(1);
    tree.push_iter(vec![9, 8]);
    tree.ascend();
    tree.navigate_to(0);
    tree.push_iter(vec![9, 10]);
    tree.navigate_to(0);
    tree.push(15);
    tree.go_to_root();
    tree
}

#[test]
fn unsafe_cursor1() {
    let mut tree = sample();
    let mut cursor1 = tree.unsafe_cursor();
    cursor1.navigate_to(&tree, 0);
    let mut cursor2 = tree.unsafe_cursor();
    cursor2.navigate_to(&tree, 1);
    cursor2.navigate_to(&tree, 1);
    *cursor1.peek_mut(&mut tree) += 1;
    *cursor2.peek_mut(&mut tree) += 2;
    assert_eq!(
        tree.lazyiter().collect(),
        vec![&0, &2, &9, &15, &10, &2, &9, &10, &3]
    );
    *cursor1.peek_mut(&mut tree) -= 10;
    assert_eq!(
        tree.lazyiter().collect(),
        vec![&0, &-8, &9, &15, &10, &2, &9, &10, &3]
    );
}

#[test]
fn unsafe_cursor2() {
    let mut tree = Tree::from_element(vec![1, 2, 3]);
    tree.push_iter(vec![vec![4], vec![5, 6, 7, 8]]);
    let mut cursor1 = tree.unsafe_cursor();
    cursor1.navigate_to(&tree, 0);
    let mut cursor2 = tree.unsafe_cursor();
    cursor2.navigate_to(&tree, 1);
    cursor2.peek_mut(&mut tree).push(9);
    cursor1.peek_mut(&mut tree).pop();
    assert_eq!(
        tree.iter(),
        vec![&vec![1, 2, 3], &vec![], &vec![5, 6, 7, 8, 9]]
    );
    {
        let vec = cursor2.peek_mut(&mut tree);
        while !vec.is_empty() {
            vec.pop();
        }
    }

    assert_eq!(tree.iter(), vec![&vec![1, 2, 3], &vec![], &vec![]]);
}

#[test]
fn unsafe_cursor_moves_and_reads() {
    let mut tree = sample();
    tree.navigate_to(0);
    let at_root = tree.unsafe_cursor_root();
    assert!(!at_root.has_father());
    assert_eq!(at_root.peek(&tree), &0);
    assert_eq!(at_root.childs_len(&tree), 3);
    assert_eq!(at_root.peek_child(&tree, 2), &3);
    let mut cursor = tree.unsafe_cursor();
    assert!(cursor.has_father());
    assert_eq!(cursor.peek(&tree), &1);
    assert_eq!(cursor.iter_childs(&tree).collect(), vec![&9, &10]);
    *cursor.peek_child_mut(&mut tree, 1) = 11;
    assert_eq!(cursor.iter_childs(&tree).collect(), vec![&9, &11]);
    cursor.ascend();
    assert_eq!(cursor.peek(&tree), &0);
    assert_eq!(tree.peek(), &1);
}

#[test]
fn cursors_explore_side_by_side() {
    let mut tree = Tree::from_element(10);
    tree.push_iter(vec![1, 2, 3]);
    tree.navigate_to(1);
    let cursor1 = tree.cursor();
    let mut cursor2 = tree.cursor_root();
    assert_eq!(cursor1.peek(), &2);
    assert_eq!(cursor2.peek(), &10);
    cursor2.navigate_to(2);
    assert_eq!(cursor2.peek(), &3);
    assert_eq!(cursor1.peek(), &2);
    assert_eq!(tree.peek(), &2);
}

#[test]
fn cursor_reads() {
    let tree = sample();
    let mut cursor = tree.cursor();
    assert!(!cursor.has_father());
    assert_eq!(cursor.childs_len(), 3);
    assert_eq!(cursor.peek_child(1), &2);
    assert_eq!(cursor.iter_childs().collect(), vec![&1, &2, &3]);
    cursor.navigate_to(0);
    assert!(cursor.has_father());
    assert_eq!(cursor.peek(), &1);
    assert_eq!(cursor.iter(), vec![&1, &9, &15, &10]);
    assert_eq!(cursor.lazyiter().collect(), vec![&1, &9, &15, &10]);
    cursor.navigate_to(0);
    assert_eq!(cursor.peek(), &9);
    cursor.ascend();
    cursor.ascend();
    assert_eq!(cursor.peek(), &0);
    assert_eq!(
        cursor.lazyiter().collect(),
        vec![&0, &1, &9, &15, &10, &2, &9, &8, &3]
    );
}

#[test]
fn cursor_root_starts_at_the_root() {
    let mut tree = Tree::from_element(3);
    tree.push(10);
    tree.navigate_to(0);
    let cursor = tree.cursor_root();
    assert_eq!(cursor.peek(), &3);
    assert_eq!(tree.cursor().peek(), &10);
}

#[test]
fn cursor_mut_writes() {
    let mut tree = Tree::from_element(10);
    tree.push_iter(vec![1, 2, 3]);
    {
        let mut cursor = tree.cursor_mut();
        let ref_el = cursor.peek_mut();
        assert_eq!(ref_el, &mut 10);
        *ref_el = 15;
        cursor.navigate_to(0);
        assert_eq!(cursor.peek(), &1);
        *cursor.peek_mut() = 11;
        assert!(cursor.has_father());
        cursor.ascend();
        assert_eq!(cursor.childs_len(), 3);
        assert_eq!(cursor.peek_child(2), &3);
        *cursor.peek_child_mut(2) = 13;
        assert_eq!(cursor.iter_childs().collect(), vec![&11, &2, &13]);
        assert_eq!(cursor.iter(), vec![&15, &11, &2, &13]);
        assert_eq!(cursor.lazyiter().collect(), vec![&15, &11, &2, &13]);
    }
    assert_eq!(tree.iter(), vec![&15, &11, &2, &13]);
    assert_eq!(tree.peek(), &15);
}

#[test]
fn cursor_mut_leaves_the_tree_position() {
    let mut tree = sample();
    tree.navigate_to(1);
    {
        let mut cursor = tree.cursor_root_mut();
        assert_eq!(cursor.peek(), &0);
        cursor.navigate_to(0);
        cursor.navigate_to(1);
        *cursor.peek_mut() = 100;
    }
    assert_eq!(tree.peek(), &2);
    tree.go_to_root();
    assert_eq!(tree.iter(), vec![&0, &1, &9, &15, &100, &2, &9, &8, &3]);
}

#[test]
fn cursor_mut_iterates_for_writing() {
    let mut tree = sample();
    {
        let mut cursor = tree.cursor_mut();
        cursor.navigate_to(0);
        let mut seen = Vec::new();
        let mut it = cursor.lazyiter_mut();
        while let Some(el) = it.next() {
            seen.push(*el);
            *el += 1;
        }
        assert_eq!(seen, vec![1, 9, 15, 10]);
        assert_eq!(cursor.peek(), &2);
        let mut it = cursor.iter_childs_mut();
        while let Some(el) = it.next() {
            *el = 0;
        }
        assert_eq!(cursor.iter(), vec![&2, &0, &16, &0]);
    }
    assert_eq!(tree.iter(), vec![&0, &2, &0, &16, &0, &2, &9, &8, &3]);
}

#[test]
fn cursor_mut_iter_mut() {
    let mut tree = Tree::from_element(0);
    tree.push_iter(vec![1, 2, 3]);
    tree.navigate_to(1);
    tree.push(4);
    {
        let mut cursor = tree.cursor_mut();
        assert_eq!(cursor.iter_mut(), vec![&mut 2, &mut 4]);
        for el in cursor.iter_mut() {
            *el += 1;
        }
        assert_eq!(cursor.iter(), vec![&3, &5]);
    }
    tree.go_to_root();
    assert_eq!(tree.iter(), vec![&0, &1, &3, &5, &3]);
}
