use treeify::{build_from_input, make_trees, print_line, render_trees, FileTree};

fn node(name: &str, childs: Vec<FileTree>) -> FileTree {
    FileTree { name: name.to_string(), childs }
}

#[test]
fn test_print_line() {
    let name = "abc\ndef";

    let output1 = print_line(&vec![], name);
    assert_eq!("abc?def\n", output1);

    let output2 = print_line(&vec![true, false, true], name);
    assert_eq!("    │   └── abc?def\n", output2);

    let output3 = print_line(&vec![true, false, false], name);
    assert_eq!("    │   ├── abc?def\n", output3);
}

#[test]
fn test_root_line_is_name_and_break_only() {
    let line = print_line(&vec![], "root");
    assert_eq!("root\n", line);
}

#[test]
fn test_control_characters_never_split_a_line() {
    let line = print_line(&vec![false], "a\nb\tc\u{7f}d");
    assert_eq!("├── a?b?c?d\n", line);
    assert_eq!(1, line.matches('\n').count());
}

#[test]
fn test_render_whole_forest() {
    let records: Vec<String> = ["a", "a/b", "a/b/c/d", "a/b/e", "f"]
        .iter()
        .map(|s| s.to_string())
        .collect();
    let forest = make_trees(&records);
    let lines = render_trees(&forest);
    let expected = vec![
        "a\n",
        "└── b\n",
        "    ├── c\n",
        "    │   └── d\n",
        "    └── e\n",
        "f\n",
    ];
    assert_eq!(expected, lines);
}

#[test]
fn test_render_sibling_guides() {
    let records: Vec<String> = ["a/b/c", "a/d"].iter().map(|s| s.to_string()).collect();
    let forest = make_trees(&records);
    let lines = render_trees(&forest);
    let expected = vec!["a\n", "├── b\n", "│   └── c\n", "└── d\n"];
    assert_eq!(expected, lines);
}

#[test]
fn test_delimiter_modes_render_same_lines() {
    let by_lines = render_trees(&build_from_input(&b"a/b\nc".to_vec(), false));
    let by_nulls = render_trees(&build_from_input(&b"a/b\0c".to_vec(), true));
    assert_eq!(by_lines, by_nulls);
}

#[test]
fn test_empty_input_renders_zero_lines() {
    let forest = build_from_input(&Vec::new(), false);
    let lines = render_trees(&forest);
    assert_eq!(0, lines.len());
}

#[test]
fn test_single_node_render() {
    let forest = vec![node("only", vec![])];
    let lines = render_trees(&forest);
    assert_eq!(vec!["only\n"], lines);
}
