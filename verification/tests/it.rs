use tracing_span_tree::{span_tree, Node, SpanTree};

const MILLI: u64 = 1_000_000;

/// Replays what a program does that enters `top_level`, and inside it four
/// times `middle`, which takes as many milliseconds as its number says and,
/// where that number is even, enters a `leaf` of one millisecond.
fn top_level(tree: &mut SpanTree) -> Node {
    let mut now = 0;
    let mut next_id = 1;
    let top = next_id;
    next_id += 1;
    tree.on_new_span(top, now);
    for i in 0..4u64 {
        let middle = next_id;
        next_id += 1;
        tree.on_new_span(middle, now);
        now += i * MILLI;
        if i % 2 == 0 {
            let leaf = next_id;
            next_id += 1;
            tree.on_new_span(leaf, now);
            now += MILLI;
            assert!(tree.on_close(leaf, "leaf".to_string(), Some(middle), now).is_none());
        }
        assert!(tree.on_close(middle, "middle".to_string(), Some(top), now).is_none());
    }
    tree.on_close(top, "top_level".to_string(), None, now).unwrap()
}

#[test]
fn not_aggregated() {
    let mut tree = span_tree();
    let mut root = top_level(&mut tree);
    let lines = tree.finish(&mut root, false).unwrap();
    assert_eq!(
        lines,
        vec![
            " 8.00ms   top_level",
            "   1.00ms   middle",
            "     1.00ms   leaf",
            "   1.00ms   middle",
            "   3.00ms   middle",
            "     1.00ms   leaf",
            "   3.00ms   middle",
            "",
        ]
    );
}

#[test]
fn aggregated() {
    let mut tree = span_tree().aggregate(true);
    let mut root = top_level(&mut tree);
    let lines = tree.finish(&mut root, false).unwrap();
    assert_eq!(
        lines,
        vec![
            " 8.00ms   top_level",
            "   8.00ms   4      middle",
            "     2.00ms   2      leaf",
            "",
        ]
    );
}
