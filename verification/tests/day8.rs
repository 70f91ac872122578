use advent2018::day8::{self, Node};

const TREE: &str = "2 3 0 3 10 11 12 1 1 0 1 99 2 1 1 2";

#[test]
fn day8_sum_of_metadata() {
    let (answer, root) = day8::part1(TREE).unwrap();
    assert_eq!(answer, "138");
    assert_eq!(root.child_nodes.len(), 2);
    assert_eq!(root.metadata, vec![1, 1, 2]);
    assert_eq!(root.child_nodes[0].metadata, vec![10, 11, 12]);
    assert_eq!(root.child_nodes[1].child_nodes[0].metadata, vec![99]);
    assert_eq!(day8::sum_metadata(&root), Some(138));
}

#[test]
fn day8_value_of_the_root() {
    let (_, root) = day8::part1(TREE).unwrap();
    assert_eq!(day8::value(&root.child_nodes[0]), Some(33));
    assert_eq!(day8::value(&root.child_nodes[1]), Some(0));
    assert_eq!(day8::part2(TREE, root), Some("66".to_string()));
}

#[test]
fn day8_numbers_with_white_space_and_a_rest() {
    let (answer, _) = day8::part1("0 2 5 7\n then anything").unwrap();
    assert_eq!(answer, "12");
    let (answer, _) = day8::part1("0 1 4\n").unwrap();
    assert_eq!(answer, "4");
}

#[test]
fn day8_rejected_inputs() {
    assert!(day8::part1("").is_none());
    assert!(day8::part1("1 1 0 1").is_none());
    assert!(day8::part1("0 2 5").is_none());
    assert!(day8::part1("0 1 x").is_none());
    assert!(day8::part1("0  1 4").is_none());
}

#[test]
fn day8_entry_zero_names_no_child() {
    let leaf = Node { child_nodes: vec![], metadata: vec![0, 3] };
    assert_eq!(day8::value(&leaf), Some(3));
    let root = Node { child_nodes: vec![leaf], metadata: vec![1, 0] };
    assert_eq!(day8::value(&root), None);
    assert_eq!(day8::part2("", root), None);
}

#[test]
fn day8_sums_that_do_not_fit() {
    let node = Node { child_nodes: vec![], metadata: vec![usize::MAX, 1] };
    assert_eq!(day8::sum_metadata(&node), None);
    assert_eq!(day8::value(&node), None);
}
