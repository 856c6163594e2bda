use tracing_span_tree::Node;

fn leaf(name: &str, duration: u64) -> Node {
    Node::new(name.to_string(), duration, Vec::new())
}

fn node(name: &str, duration: u64, children: Vec<Node>) -> Node {
    Node::new(name.to_string(), duration, children)
}

fn names(nodes: &Vec<Node>) -> Vec<String> {
    nodes.iter().map(|n| n.name().to_string()).collect()
}

fn count_sum(nodes: &Vec<Node>) -> u64 {
    nodes.iter().map(|n| n.count() as u64).sum()
}

fn duration_sum(nodes: &Vec<Node>) -> u64 {
    nodes.iter().map(|n| n.duration()).sum()
}

fn no_two_children_share_a_name(node: &Node) -> bool {
    let children = node.children();
    for i in 0..children.len() {
        for j in i + 1..children.len() {
            if children[i].name() == children[j].name() {
                return false;
            }
        }
    }
    children.iter().all(no_two_children_share_a_name)
}

/// root → two `middle`, each with one `leaf`.
fn two_middles() -> Node {
    node(
        "root",
        10,
        vec![node("middle", 3, vec![leaf("leaf", 1)]), node("middle", 4, vec![leaf("leaf", 2)])],
    )
}

#[test]
fn two_middles_collapse_into_one() {
    let mut root = two_middles();
    root.aggregate();
    assert_eq!(root.name(), "root");
    assert_eq!(root.count(), 1);
    assert_eq!(root.duration(), 10);
    assert_eq!(root.children().len(), 1);
    let middle = &root.children()[0];
    assert_eq!(middle.name(), "middle");
    assert_eq!(middle.count(), 2);
    assert_eq!(middle.duration(), 7);
    assert_eq!(middle.children().len(), 1);
    let below = &middle.children()[0];
    assert_eq!(below.name(), "leaf");
    assert_eq!(below.count(), 2);
    assert_eq!(below.duration(), 3);
    assert!(below.children().is_empty());
}

#[test]
fn a_node_without_children_is_left_alone() {
    let mut root = leaf("root", 5);
    root.aggregate();
    assert_eq!(root, leaf("root", 5));
}

#[test]
fn a_single_child_is_left_alone() {
    let mut root = node("root", 5, vec![node("only", 4, vec![leaf("below", 3)])]);
    root.aggregate();
    assert_eq!(root, node("root", 5, vec![node("only", 4, vec![leaf("below", 3)])]));
}

#[test]
fn children_come_out_sorted_by_name() {
    let mut root = node("root", 9, vec![leaf("pear", 1), leaf("apple", 2), leaf("fig", 3)]);
    root.aggregate();
    assert_eq!(names(root.children()), vec!["apple", "fig", "pear"]);
    assert_eq!(root, node("root", 9, vec![leaf("apple", 2), leaf("fig", 3), leaf("pear", 1)]));
}

#[test]
fn names_are_ordered_by_code_point() {
    let mut root = node(
        "root",
        0,
        vec![leaf("b", 1), leaf("ab", 2), leaf("a", 3), leaf("B", 4), leaf("é", 5), leaf("", 6)],
    );
    root.aggregate();
    assert_eq!(names(root.children()), vec!["", "B", "a", "ab", "b", "é"]);
}

#[test]
fn three_siblings_merge_in_their_order() {
    let mut root = node(
        "root",
        0,
        vec![
            node("same", 1, vec![leaf("c", 10)]),
            leaf("other", 2),
            node("same", 4, vec![leaf("a", 20)]),
            node("same", 8, vec![leaf("b", 30), leaf("a", 40)]),
        ],
    );
    root.aggregate();
    assert_eq!(names(root.children()), vec!["other", "same"]);
    let same = &root.children()[1];
    assert_eq!(same.count(), 3);
    assert_eq!(same.duration(), 13);
    assert_eq!(names(same.children()), vec!["a", "b", "c"]);
    assert_eq!(same.children()[0].count(), 2);
    assert_eq!(same.children()[0].duration(), 60);
    assert_eq!(same.children()[1].count(), 1);
    assert_eq!(same.children()[1].duration(), 30);
    assert_eq!(same.children()[2].count(), 1);
    assert_eq!(same.children()[2].duration(), 10);
}

#[test]
fn merging_reaches_every_depth() {
    let mut root = node(
        "root",
        0,
        vec![
            node("a", 1, vec![node("b", 1, vec![leaf("c", 1)])]),
            node("a", 2, vec![node("b", 2, vec![leaf("c", 2), leaf("c", 3)])]),
        ],
    );
    root.aggregate();
    let a = &root.children()[0];
    assert_eq!((a.name(), a.count(), a.duration(), a.children().len()), ("a", 2, 3, 1));
    let b = &a.children()[0];
    assert_eq!((b.name(), b.count(), b.duration(), b.children().len()), ("b", 2, 3, 1));
    let c = &b.children()[0];
    assert_eq!((c.name(), c.count(), c.duration(), c.children().len()), ("c", 3, 6, 0));
}

#[test]
fn counts_and_durations_are_conserved() {
    let mut root = node(
        "root",
        100,
        vec![
            node("x", 5, vec![leaf("p", 1), leaf("q", 2)]),
            leaf("y", 7),
            node("x", 11, vec![leaf("q", 3)]),
            leaf("y", 13),
            leaf("z", 17),
        ],
    );
    let count_before = count_sum(root.children());
    let duration_before = duration_sum(root.children());
    root.aggregate();
    assert_eq!(count_before, 5);
    assert_eq!(duration_before, 53);
    assert_eq!(count_sum(root.children()), 5);
    assert_eq!(duration_sum(root.children()), 53);
    let x = &root.children()[0];
    assert_eq!(x.name(), "x");
    assert_eq!(count_sum(x.children()), 3);
    assert_eq!(duration_sum(x.children()), 6);
}

#[test]
fn no_two_children_share_a_name_afterwards() {
    let mut root = node(
        "root",
        0,
        vec![
            node("x", 5, vec![leaf("p", 1), leaf("q", 2), leaf("p", 1)]),
            node("y", 7, vec![leaf("p", 1), leaf("p", 2)]),
            node("x", 11, vec![leaf("q", 3)]),
        ],
    );
    assert!(!no_two_children_share_a_name(&root));
    root.aggregate();
    assert!(no_two_children_share_a_name(&root));
}

#[test]
fn aggregating_twice_changes_nothing_more() {
    let mut once = two_middles();
    once.aggregate();
    let mut twice = two_middles();
    twice.aggregate();
    twice.aggregate();
    assert_eq!(once, twice);
}

#[test]
fn merge_into_adds_up_and_appends() {
    let mut other = node("same", 4, vec![leaf("first", 1)]);
    let this = node("same", 6, vec![leaf("second", 2), leaf("third", 3)]);
    this.merge_into(&mut other);
    assert_eq!(other.name(), "same");
    assert_eq!(other.count(), 2);
    assert_eq!(other.duration(), 10);
    assert_eq!(names(other.children()), vec!["first", "second", "third"]);
}

#[test]
fn a_new_node_stands_for_one_scope() {
    let made = node("made", 42, vec![leaf("below", 7)]);
    assert_eq!(made.name(), "made");
    assert_eq!(made.count(), 1);
    assert_eq!(made.duration(), 42);
    assert_eq!(made.children().len(), 1);
    assert_eq!(made.children()[0], leaf("below", 7));
}

#[test]
fn limits_are_those_of_the_totals_below_the_root() {
    let fits = node("root", u64::MAX, vec![leaf("a", u64::MAX - 1), leaf("b", 1)]);
    assert!(fits.within_limits());
    let too_long = node("root", 0, vec![leaf("a", u64::MAX), leaf("b", 1)]);
    assert!(!too_long.within_limits());
    let deep = node("root", 0, vec![node("a", u64::MAX, vec![leaf("b", 1)])]);
    assert!(!deep.within_limits());
}
