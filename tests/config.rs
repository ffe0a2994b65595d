use erdtree::{
    icon_from_file_type, parse, parse_config, select_icon, Aggregator, FileKind, Node, Order, Style,
    TreeError,
};

#[test]
fn config_drops_comments_and_splits_words() {
    let text = "# comment\n--level 2\n   # indented comment\n-s size  --icons\n\n";
    assert_eq!(parse(text), vec!["--level", "2", "-s", "size", "--icons"]);
}

#[test]
fn config_handles_crlf_tabs_and_missing_newline() {
    let text = "-H\r\n\t-n\t3\r\n--dirs-first";
    assert_eq!(parse_config(text), vec!["-H", "-n", "3", "--dirs-first"]);
    assert!(parse("").is_empty());
    assert!(parse("\u{a0}# unicode space before the hash").is_empty());
    assert_eq!(parse("a#b # not a comment"), vec!["a#b", "#", "not", "a", "comment"]);
}

#[test]
fn file_type_icons() {
    assert_eq!(icon_from_file_type(FileKind::Dir), Some("\u{f413}"));
    assert_eq!(icon_from_file_type(FileKind::Symlink), Some("\u{f482}"));
    assert_eq!(icon_from_file_type(FileKind::File), None);
}

#[test]
fn icon_selection_falls_back_in_order() {
    assert_eq!(select_icon(Some("E"), Some(FileKind::Dir), Some("N")), "E");
    assert_eq!(select_icon(None, Some(FileKind::Dir), Some("N")), "\u{f413}");
    assert_eq!(select_icon(None, Some(FileKind::File), Some("N")), "N");
    assert_eq!(select_icon(None, None, None), "\u{f15b}");
}

fn entry(parts: &[&str], kind: FileKind, size: Option<u64>) -> Node {
    let p: Vec<String> = parts.iter().map(|s| s.to_string()).collect();
    Node::new(
        p.len() - 1,
        size,
        Vec::new(),
        p.last().cloned().unwrap(),
        Some(kind),
        None,
        p,
        None,
        Style::plain(),
        None,
        Style::plain(),
    )
}

#[test]
fn aggregator_builds_tree_from_pushed_entries() {
    let mut agg = Aggregator::new();
    agg.push(entry(&["r", "b"], FileKind::File, Some(2))).unwrap();
    agg.push(entry(&["r", "a"], FileKind::File, Some(3))).unwrap();
    agg.push(entry(&["r"], FileKind::Dir, None)).unwrap();
    let tree = agg.into_tree(Order::Name, false, None).unwrap();
    assert_eq!(tree.root().file_size(), Some(5));
    let names: Vec<&str> = tree.root().children().iter().map(|n| n.file_name()).collect();
    assert_eq!(names, vec!["a", "b"]);
}

#[test]
fn aggregator_without_root_fails() {
    let mut agg = Aggregator::new();
    agg.push(entry(&["r", "b"], FileKind::File, Some(2))).unwrap();
    assert!(matches!(agg.into_tree(Order::Name, false, None), Err(TreeError::MissingRoot)));
}
