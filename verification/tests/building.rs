use treeify::{build_from_input, make_trees, FileTree};

fn node(name: &str, childs: Vec<FileTree>) -> FileTree {
    FileTree { name: name.to_string(), childs }
}

fn records(lines: &[&str]) -> Vec<String> {
    lines.iter().map(|s| s.to_string()).collect()
}

fn test_single_tree_creation(lines: &[&str], expected_tree: FileTree) {
    let trees = make_trees(&records(lines));
    assert_eq!(1, trees.len());
    assert_eq!(expected_tree, trees[0]);
}

#[test]
fn test_tree_creation1() {
    let lines = ["a", "a/b", "a/b/c/d", "a/b/e"];
    let e = node("e", vec![]);
    let d = node("d", vec![]);
    let c = node("c", vec![d]);
    let b = node("b", vec![c, e]);
    let expected_tree = node("a", vec![b]);

    test_single_tree_creation(&lines, expected_tree);
}

#[test]
fn test_tree_creation2() {
    let lines = ["a", "a/b/e", "a/b", "a/b/c/d"];
    let e = node("e", vec![]);
    let d = node("d", vec![]);
    let c = node("c", vec![d]);
    let b = node("b", vec![e, c]);
    let expected_tree = node("a", vec![b]);

    test_single_tree_creation(&lines, expected_tree);
}

#[test]
fn test_trees_creation() {
    let lines = ["a", "a/b", "c/d"];
    let d = node("d", vec![]);
    let c = node("c", vec![d]);
    let b = node("b", vec![]);
    let a = node("a", vec![b]);

    let trees = make_trees(&records(&lines));
    assert_eq!(2, trees.len());
    assert_eq!(a, trees[0]);
    assert_eq!(c, trees[1]);
}

#[test]
fn test_duplicate_record_adds_nothing() {
    let once = make_trees(&records(&["a/b"]));
    let twice = make_trees(&records(&["a/b", "a/b"]));
    assert_eq!(once, twice);
}

#[test]
fn test_empty_record_contributes_nothing() {
    let trees = make_trees(&records(&["", "a", ""]));
    assert_eq!(vec![node("a", vec![])], trees);
}

#[test]
fn test_repeated_separator_makes_empty_segment() {
    let trees = make_trees(&records(&["x//y"]));
    let expected = node("x", vec![node("", vec![node("y", vec![])])]);
    assert_eq!(vec![expected], trees);
}

#[test]
fn test_delimiter_modes_build_same_forest() {
    let by_lines = build_from_input(&b"a/b\nc\na/d".to_vec(), false);
    let by_nulls = build_from_input(&b"a/b\0c\0a/d".to_vec(), true);
    assert_eq!(by_lines, by_nulls);

    let expected_a = node("a", vec![node("b", vec![]), node("d", vec![])]);
    let expected_c = node("c", vec![]);
    assert_eq!(vec![expected_a, expected_c], by_lines);
}

#[test]
fn test_trailing_delimiter_is_ignored() {
    let plain = build_from_input(&b"a\nb".to_vec(), false);
    let trailing = build_from_input(&b"a\nb\n".to_vec(), false);
    assert_eq!(plain, trailing);
}

#[test]
fn test_empty_input_builds_empty_forest() {
    let forest = build_from_input(&Vec::new(), false);
    assert_eq!(0, forest.len());
    let forest = build_from_input(&Vec::new(), true);
    assert_eq!(0, forest.len());
}

#[test]
fn test_invalid_bytes_become_replacement_marker() {
    let forest = build_from_input(&b"a\xff".to_vec(), false);
    assert_eq!(vec![node("a\u{fffd}", vec![])], forest);
}
