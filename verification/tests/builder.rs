use tracing_span_tree::{span_tree, Data, Node, SpanTree};

fn names(nodes: &Vec<Node>) -> Vec<String> {
    nodes.iter().map(|n| n.name().to_string()).collect()
}

fn every_count_is_one(node: &Node) -> bool {
    node.count() == 1 && node.children().iter().all(every_count_is_one)
}

#[test]
fn a_new_builder_has_no_scope_open_and_does_not_aggregate() {
    let tree = span_tree();
    assert!(!tree.is_aggregating());
    assert!(!tree.is_open(1));
    let tree = SpanTree::default();
    assert!(!tree.is_aggregating());
    assert!(!tree.is_open(1));
}

#[test]
fn aggregate_sets_the_choice_and_keeps_the_scopes() {
    let mut tree = span_tree();
    tree.on_new_span(7, 0);
    let tree = tree.aggregate(true);
    assert!(tree.is_aggregating());
    assert!(tree.is_open(7));
    let tree = tree.aggregate(false);
    assert!(!tree.is_aggregating());
    assert!(tree.is_open(7));
}

#[test]
fn a_scope_is_open_from_entering_to_leaving() {
    let mut tree = span_tree();
    assert!(!tree.is_open(1));
    tree.on_new_span(1, 10);
    assert!(tree.is_open(1));
    assert!(!tree.is_open(2));
    let root = tree.on_close(1, "only".to_string(), None, 25).unwrap();
    assert!(!tree.is_open(1));
    assert_eq!(root, Node::new("only".to_string(), 15, Vec::new()));
}

#[test]
fn a_scope_with_a_parent_is_not_handed_back() {
    let mut tree = span_tree();
    tree.on_new_span(1, 0);
    tree.on_new_span(2, 1);
    assert!(tree.on_close(2, "child".to_string(), Some(1), 4).is_none());
    assert!(tree.is_open(1));
    assert!(!tree.is_open(2));
    let root = tree.on_close(1, "parent".to_string(), None, 9).unwrap();
    assert_eq!(
        root,
        Node::new(
            "parent".to_string(),
            9,
            vec![Node::new("child".to_string(), 3, Vec::new())]
        )
    );
}

#[test]
fn the_tree_mirrors_the_nesting_of_the_scopes() {
    let mut tree = span_tree();
    tree.on_new_span(1, 0);
    tree.on_new_span(2, 1);
    tree.on_new_span(3, 2);
    tree.on_close(3, "c".to_string(), Some(2), 3);
    tree.on_new_span(4, 4);
    tree.on_close(4, "d".to_string(), Some(2), 6);
    tree.on_close(2, "b".to_string(), Some(1), 7);
    tree.on_new_span(5, 8);
    tree.on_close(5, "e".to_string(), Some(1), 11);
    let root = tree.on_close(1, "a".to_string(), None, 12).unwrap();
    assert_eq!(
        root,
        Node::new(
            "a".to_string(),
            12,
            vec![
                Node::new(
                    "b".to_string(),
                    6,
                    vec![
                        Node::new("c".to_string(), 1, Vec::new()),
                        Node::new("d".to_string(), 2, Vec::new()),
                    ]
                ),
                Node::new("e".to_string(), 3, Vec::new()),
            ]
        )
    );
    assert!(every_count_is_one(&root));
}

#[test]
fn children_stand_in_the_order_in_which_they_closed() {
    let mut tree = span_tree();
    tree.on_new_span(1, 0);
    tree.on_new_span(2, 1);
    tree.on_new_span(3, 2);
    tree.on_close(3, "fast".to_string(), Some(1), 3);
    tree.on_close(2, "slow".to_string(), Some(1), 10);
    let root = tree.on_close(1, "parent".to_string(), None, 11).unwrap();
    assert_eq!(names(root.children()), vec!["fast", "slow"]);
    assert_eq!(root.children()[0].duration(), 1);
    assert_eq!(root.children()[1].duration(), 9);
}

#[test]
fn two_roots_are_built_side_by_side() {
    let mut tree = span_tree();
    tree.on_new_span(1, 0);
    tree.on_new_span(2, 0);
    tree.on_new_span(3, 1);
    tree.on_new_span(4, 1);
    tree.on_close(3, "under one".to_string(), Some(1), 2);
    tree.on_close(4, "under two".to_string(), Some(2), 3);
    let one = tree.on_close(1, "one".to_string(), None, 4).unwrap();
    let two = tree.on_close(2, "two".to_string(), None, 5).unwrap();
    assert_eq!(names(one.children()), vec!["under one"]);
    assert_eq!(names(two.children()), vec!["under two"]);
}

#[test]
fn an_identity_can_be_used_again_once_its_scope_has_closed() {
    let mut tree = span_tree();
    tree.on_new_span(1, 0);
    tree.on_new_span(2, 0);
    tree.on_close(2, "first".to_string(), Some(1), 1);
    tree.on_new_span(2, 5);
    tree.on_close(2, "second".to_string(), Some(1), 8);
    let root = tree.on_close(1, "root".to_string(), None, 9).unwrap();
    assert_eq!(names(root.children()), vec!["first", "second"]);
    assert_eq!(root.children()[1].duration(), 3);
    assert!(root.children()[1].children().is_empty());
}

#[test]
fn time_that_runs_backwards_counts_as_none() {
    let mut tree = span_tree();
    tree.on_new_span(1, 100);
    let root = tree.on_close(1, "odd".to_string(), None, 40).unwrap();
    assert_eq!(root.duration(), 0);
    assert_eq!(Data::new(7).into_node("n".to_string(), 7).duration(), 0);
    assert_eq!(Data::new(7).into_node("n".to_string(), 6).duration(), 0);
    assert_eq!(Data::new(7).into_node("n".to_string(), u64::MAX).duration(), u64::MAX - 7);
}

#[test]
fn data_becomes_a_node_for_one_scope() {
    let node = Data::new(5).into_node("scope".to_string(), 12);
    assert_eq!(node, Node::new("scope".to_string(), 7, Vec::new()));
    assert_eq!(node.count(), 1);
}

#[test]
fn finish_renders_as_the_builder_is_set() {
    let two = || {
        Node::new(
            "root".to_string(),
            5_000,
            vec![
                Node::new("b".to_string(), 2_000, Vec::new()),
                Node::new("a".to_string(), 1_000, Vec::new()),
                Node::new("b".to_string(), 1_500, Vec::new()),
            ],
        )
    };
    let mut root = two();
    let lines = span_tree().finish(&mut root, false).unwrap();
    assert_eq!(
        lines,
        vec![" 5.00µs   root", "   2.00µs   b", "   1.00µs   a", "   1.50µs   b", ""]
    );
    assert_eq!(root, two());
    let mut root = two();
    let lines = span_tree().aggregate(true).finish(&mut root, false).unwrap();
    assert_eq!(lines, vec![" 5.00µs   root", "   1.00µs   a", "   3.50µs   2      b", ""]);
    assert_eq!(names(root.children()), vec!["a", "b"]);
}

#[test]
fn finish_refuses_to_aggregate_beyond_the_limits() {
    let big = || {
        Node::new(
            "root".to_string(),
            0,
            vec![
                Node::new("a".to_string(), u64::MAX, Vec::new()),
                Node::new("a".to_string(), 1, Vec::new()),
            ],
        )
    };
    let mut root = big();
    assert!(span_tree().aggregate(true).finish(&mut root, false).is_none());
    assert_eq!(root, big());
    let mut root = big();
    let lines = span_tree().finish(&mut root, false).unwrap();
    assert_eq!(lines.len(), 4);
    assert_eq!(root, big());
}
