use gray_tree::binary_tree::iter::LevelOrderIter;
use gray_tree::binary_tree::Node;
use gray_tree::error::Error;
use std::cell::RefCell;

/// The example tree `1{2{4, 5{8,_}}, 3{6{_,9}, 7}}`.
fn example_tree() -> Node<i32> {
    let left = {
        let left = Node::builder().data(4).build().unwrap();
        let right = {
            let left = Node::new(8);
            Node::builder().data(5).left(left).build().unwrap()
        };
        Node::builder().data(2).left(left).right(right).build().unwrap()
    };
    let right = {
        let left = {
            let right = Node::new(9);
            Node::builder().data(6).right(right).build().unwrap()
        };
        let right = Node::new(7);
        Node::builder().data(3).left(left).right(right).build().unwrap()
    };
    Node::builder().data(1).left(left).right(right).build().unwrap()
}

#[test]
fn leaf_has_no_children() {
    let n = Node::new(7);
    assert_eq!(*n.data(), 7);
    assert!(n.left().is_none());
    assert!(n.right().is_none());
}

#[test]
fn boxed_keeps_the_node() {
    let b = Node::new(3).boxed();
    assert_eq!(*b.data(), 3);
}

#[test]
fn builder_collects_all_fields() {
    let n = Node::builder()
        .data(10)
        .left(Node::new(20))
        .right(Node::new(30))
        .build()
        .unwrap();
    assert_eq!(*n.data(), 10);
    assert_eq!(*n.left().unwrap().data(), 20);
    assert_eq!(*n.right().unwrap().data(), 30);
}

#[test]
fn builder_overwrites_silently() {
    let n = Node::builder().data(1).data(2).build().unwrap();
    assert_eq!(*n.data(), 2);
}

#[test]
fn builder_without_data_fails() {
    let r = Node::builder().left(Node::new(1)).build();
    assert!(matches!(r, Err(Error::MissingDataField)));
}

#[test]
fn builder_data_alone_suffices() {
    let n = Node::<u8>::builder().data(5).build().unwrap();
    assert_eq!(*n.data(), 5);
    assert!(n.left().is_none());
}

#[test]
fn error_message_text() {
    assert_eq!(Error::MissingDataField.message(), "missing data field");
}

fn collect_pre_order(n: &Node<i32>, out: &mut Vec<i32>) {
    out.push(*n.data());
    if let Some(l) = n.left() {
        collect_pre_order(l, out);
    }
    if let Some(r) = n.right() {
        collect_pre_order(r, out);
    }
}

#[test]
fn pre_order_map_identity_round_trip() {
    let tree = example_tree();
    let order = RefCell::new(Vec::new());
    let mapped = tree.pre_order_map(|x| {
        order.borrow_mut().push(x);
        x
    });
    assert_eq!(*order.borrow(), vec![1, 2, 4, 5, 8, 3, 6, 9, 7]);
    let mut values = Vec::new();
    collect_pre_order(&mapped, &mut values);
    assert_eq!(values, vec![1, 2, 4, 5, 8, 3, 6, 9, 7]);
}

#[test]
fn post_order_map_visits_bottom_up() {
    let tree = example_tree();
    let order = RefCell::new(Vec::new());
    let _ = tree.post_order_map(|x| {
        order.borrow_mut().push(x);
        x
    });
    assert_eq!(*order.borrow(), vec![4, 8, 5, 2, 9, 6, 7, 3, 1]);
}

#[test]
fn mid_order_map_visits_in_order() {
    let tree = example_tree();
    let order = RefCell::new(Vec::new());
    let _ = tree.mid_order_map(|x| {
        order.borrow_mut().push(x);
        x
    });
    assert_eq!(*order.borrow(), vec![4, 2, 8, 5, 1, 6, 9, 3, 7]);
}

#[test]
fn maps_change_the_element_type() {
    let tree = Node::builder()
        .data(1)
        .left(Node::new(2))
        .right(Node::new(3))
        .build()
        .unwrap();
    let mapped = tree.pre_order_map(|x: i32| format!("<{}>", x));
    assert_eq!(mapped.data(), "<1>");
    assert_eq!(mapped.left().unwrap().data(), "<2>");
    assert_eq!(mapped.right().unwrap().data(), "<3>");
}

#[test]
fn two_maps_compose() {
    let tree = example_tree();
    let once = example_tree().post_order_map(|x| (x * 2) + 1);
    let twice = tree.post_order_map(|x| x * 2).post_order_map(|x| x + 1);
    let mut a = Vec::new();
    let mut b = Vec::new();
    collect_pre_order(&once, &mut a);
    collect_pre_order(&twice, &mut b);
    assert_eq!(a, b);
}

#[test]
fn level_order_iter_of_example() {
    let tree = example_tree();
    let mut iter = tree.level_order_iter();
    let mut got = Vec::new();
    while let Some((level, data)) = iter.next() {
        got.push((level, *data));
    }
    assert_eq!(
        got,
        vec![
            (0, 1),
            (1, 2),
            (1, 3),
            (2, 4),
            (2, 5),
            (2, 6),
            (2, 7),
            (3, 8),
            (3, 9)
        ]
    );
}

#[test]
fn level_order_iter_single_leaf() {
    let leaf = Node::new(42);
    let mut iter = leaf.level_order_iter();
    assert_eq!(iter.level(), 0);
    assert_eq!(iter.next().map(|(l, d)| (l, *d)), Some((0, 42)));
    assert_eq!(iter.level(), 1);
    assert!(iter.next().is_none());
    assert!(iter.next().is_none());
}

#[test]
fn level_reports_the_depth_of_the_next_item() {
    let tree = example_tree();
    let mut iter = tree.level_order_iter();
    assert_eq!(iter.level(), 0);
    let _ = iter.next();
    assert_eq!(iter.level(), 1);
    let _ = iter.next();
    assert_eq!(iter.level(), 1);
    let _ = iter.next();
    assert_eq!(iter.level(), 2);
}

#[test]
fn level_order_iter_of_complete_tree() {
    // the complete tree of height 2: seven nodes
    let tree = Node::builder()
        .data(1)
        .left(
            Node::builder()
                .data(2)
                .left(Node::new(4))
                .right(Node::new(5))
                .build()
                .unwrap(),
        )
        .right(
            Node::builder()
                .data(3)
                .left(Node::new(6))
                .right(Node::new(7))
                .build()
                .unwrap(),
        )
        .build()
        .unwrap();
    let mut iter = tree.level_order_iter();
    let mut depths = Vec::new();
    while let Some((level, _)) = iter.next() {
        depths.push(level);
    }
    assert_eq!(depths.len(), 7);
    assert_eq!(depths.iter().copied().max(), Some(2));
    assert_eq!(depths.iter().filter(|d| **d == 0).count(), 1);
    assert_eq!(depths.iter().filter(|d| **d == 1).count(), 2);
    assert_eq!(depths.iter().filter(|d| **d == 2).count(), 4);
}

#[test]
fn iter_new_walks_from_the_given_root() {
    let tree = example_tree();
    let sub = tree.left().unwrap();
    let mut iter = LevelOrderIter::new(sub);
    let mut got = Vec::new();
    while let Some((level, data)) = iter.next() {
        got.push((level, *data));
    }
    assert_eq!(got, vec![(0, 2), (1, 4), (1, 5), (2, 8)]);
}

#[test]
fn render_example_tree_line_structure() {
    let tree = example_tree();
    let s = tree.render_with(|v: &i32| format!("{}", v));
    let lines: Vec<&str> = s.lines().collect();
    // four data lines, and 4 + 2 + 1 connector lines between them
    assert_eq!(lines.len(), 11);
    assert_eq!(lines[0].trim(), "1");
    assert_eq!(lines[5].split_whitespace().collect::<Vec<_>>(), vec!["2", "3"]);
    assert_eq!(
        lines[8].split_whitespace().collect::<Vec<_>>(),
        vec!["4", "5", "6", "7"]
    );
    assert_eq!(
        lines[10].split_whitespace().collect::<Vec<_>>(),
        vec!["8", "9"]
    );
}

#[test]
fn render_single_leaf() {
    let leaf = Node::new(42);
    let s = leaf.render_with(|v: &i32| format!("{}", v));
    assert_eq!(s.lines().count(), 1);
    assert!(!s.contains('/'));
    assert!(!s.contains('\\'));
    assert_eq!(s.trim_end(), "42");
}

#[test]
fn render_two_levels() {
    let tree = Node::builder()
        .data(1)
        .left(Node::new(2))
        .right(Node::new(3))
        .build()
        .unwrap();
    let s = tree.render_with(|v: &i32| format!("{}", v));
    assert_eq!(s, " 1   \n/ \\ \n2 3 \n");
}

#[test]
fn render_pads_to_the_widest_element() {
    let tree = Node::builder()
        .data(1)
        .left(Node::new(222))
        .right(Node::new(3))
        .build()
        .unwrap();
    let s = tree.render_with(|v: &i32| format!("{}", v));
    // every column is three characters wide: the width of "222"
    let lines: Vec<&str> = s.lines().collect();
    assert_eq!(lines.len(), 3);
    assert!(lines[2].starts_with("222"));
    assert!(lines[0].contains('1'));
    assert!(lines[1].contains('/') && lines[1].contains('\\'));
}

#[test]
fn render_keeps_blanks_for_absent_children() {
    // 1 with only a right child must still reserve the left column
    let tree = Node::builder().data(1).right(Node::new(3)).build().unwrap();
    let s = tree.render_with(|v: &i32| format!("{}", v));
    let lines: Vec<&str> = s.lines().collect();
    assert_eq!(lines.len(), 3);
    assert!(!lines[1].contains('/'));
    assert!(lines[1].contains('\\'));
    assert!(lines[2].starts_with(' '));
    assert!(lines[2].contains('3'));
}
