use tracing_span_tree::{format_line, Node};

fn leaf(name: &str, duration: u64) -> Node {
    Node::new(name.to_string(), duration, Vec::new())
}

fn node(name: &str, duration: u64, children: Vec<Node>) -> Node {
    Node::new(name.to_string(), duration, children)
}

fn indentation(line: &str) -> usize {
    line.len() - line.trim_start_matches(' ').len()
}

/// root → two `middle`, each with one `leaf`.
fn two_middles() -> Node {
    node(
        "root",
        10_000_000,
        vec![
            node("middle", 3_000_000, vec![leaf("leaf", 1_000_000)]),
            node("middle", 4_000_000, vec![leaf("leaf", 2_000_000)]),
        ],
    )
}

#[test]
fn a_leaf_renders_as_one_line_and_an_empty_one() {
    let node = leaf("top", 8_370_000);
    let lines = node.render(false);
    assert_eq!(lines, vec![" 8.37ms   top".to_string(), String::new()]);
}

#[test]
fn unaggregated_tree_renders_a_line_for_each_scope() {
    let lines = two_middles().render(false);
    assert_eq!(
        lines,
        vec![
            " 10.00ms  root",
            "   3.00ms   middle",
            "     1.00ms   leaf",
            "   4.00ms   middle",
            "     2.00ms   leaf",
            "",
        ]
    );
    assert_eq!(indentation(&lines[0]), 1);
    assert_eq!(indentation(&lines[1]), 3);
    assert_eq!(indentation(&lines[2]), 5);
    assert_eq!(indentation(&lines[3]), 3);
    assert_eq!(indentation(&lines[4]), 5);
    assert!(indentation(&lines[1]) > indentation(&lines[0]));
    assert!(indentation(&lines[2]) > indentation(&lines[1]));
    assert_eq!(lines[5], "");
}

#[test]
fn aggregated_tree_renders_the_merged_scopes_with_their_counts() {
    let mut root = two_middles();
    let lines = root.print(true, false);
    assert_eq!(
        lines,
        vec![" 10.00ms  root", "   7.00ms   2      middle", "     3.00ms   2      leaf", ""]
    );
    assert_eq!(root.children().len(), 1);
    assert_eq!(root.children()[0].count(), 2);
    assert_eq!(root.children()[0].duration(), 7_000_000);
    assert_eq!(root.children()[0].children().len(), 1);
    assert_eq!(root.children()[0].children()[0].count(), 2);
}

#[test]
fn print_without_aggregation_leaves_the_tree_as_it_is() {
    let mut root = two_middles();
    let lines = root.print(false, false);
    assert_eq!(lines, two_middles().render(false));
    assert_eq!(root, two_middles());
}

#[test]
fn the_count_column_is_blank_for_a_count_of_one() {
    assert_eq!(format_line(0, "1.00ms", 1, "name", false), " 1.00ms   name");
    assert_eq!(format_line(0, "1.00ms", 0, "name", false), " 1.00ms   name");
}

#[test]
fn the_count_column_shows_a_count_above_one() {
    assert_eq!(format_line(0, "1.00ms", 2, "name", false), " 1.00ms   2      name");
    assert_eq!(format_line(0, "1.00ms", 10, "name", false), " 1.00ms   10     name");
    assert_eq!(format_line(0, "1.00ms", 123456, "name", false), " 1.00ms   123456 name");
    assert_eq!(format_line(0, "1.00ms", 1234567, "name", false), " 1.00ms   1234567 name");
    assert_eq!(
        format_line(0, "1.00ms", u32::MAX, "name", false),
        " 1.00ms   4294967295 name"
    );
}

#[test]
fn each_level_indents_by_two_spaces() {
    assert_eq!(format_line(1, "1.00ms", 1, "name", false), "   1.00ms   name");
    assert_eq!(format_line(2, "1.00ms", 1, "name", false), "     1.00ms   name");
    assert_eq!(format_line(5, "1.00ms", 3, "name", false), "           1.00ms   3      name");
}

#[test]
fn the_duration_column_is_nine_wide_or_as_wide_as_it_takes() {
    assert_eq!(format_line(0, "", 1, "n", false), "          n");
    assert_eq!(format_line(0, "1s", 1, "n", false), " 1s       n");
    assert_eq!(format_line(0, "1.00µs", 1, "n", false), " 1.00µs   n");
    assert_eq!(format_line(0, "12.00ms", 1, "n", false), " 12.00ms  n");
    assert_eq!(format_line(0, "123.00ms", 1, "n", false), " 123.00ms  n");
}

#[test]
fn a_styled_name_is_set_in_bold() {
    assert_eq!(
        format_line(0, "1.00ms", 1, "name", true),
        " 1.00ms   \u{1b}[1mname\u{1b}[0m"
    );
    let lines = leaf("top", 1_000_000).render(true);
    assert_eq!(lines, vec![" 1.00ms   \u{1b}[1mtop\u{1b}[0m", ""]);
}

#[test]
fn durations_are_shown_in_the_unit_of_their_size() {
    assert_eq!(leaf("n", 0).render(false)[0], " 0.00ns   n");
    assert_eq!(leaf("n", 999).render(false)[0], " 999.00ns  n");
    assert_eq!(leaf("n", 1_500).render(false)[0], " 1.50µs   n");
    assert_eq!(leaf("n", 8_374_999).render(false)[0], " 8.37ms   n");
    assert_eq!(leaf("n", 1_234_567_890).render(false)[0], " 1.23s    n");
    assert_eq!(leaf("n", 61_000_000_000).render(false)[0], " 61.00s   n");
}

#[test]
fn children_are_rendered_in_the_order_they_stand_in() {
    let root = node("root", 3, vec![leaf("zeta", 2), leaf("alpha", 1)]);
    assert_eq!(
        root.render(false),
        vec![" 3.00ns   root", "   2.00ns   zeta", "   1.00ns   alpha", ""]
    );
}
