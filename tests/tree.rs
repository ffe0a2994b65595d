use erdtree::{
    aggregate, entry_size, format_size, get_default_icon, get_link_theme, get_tree_theme, init_plain, node_line,
    sort_nodes, Aggregator, Clargs, DiskUsage, FileKind, Node, Order, SizeLocation, Style, Tree,
    TreeError, UPRT, VT, VTRT,
};

fn path(parts: &[&str]) -> Vec<String> {
    parts.iter().map(|p| p.to_string()).collect()
}

fn entry(parts: &[&str], kind: FileKind, size: Option<u64>) -> Node {
    let p = path(parts);
    let name = p.last().cloned().unwrap_or_default();
    Node::new(
        p.len() - 1,
        size,
        Vec::new(),
        name,
        Some(kind),
        None,
        p,
        None,
        Style::plain(),
        None,
        Style::plain(),
    )
}

fn dir(parts: &[&str]) -> Node {
    entry(parts, FileKind::Dir, None)
}

fn file(parts: &[&str], size: u64) -> Node {
    entry(parts, FileKind::File, Some(size))
}

fn render(tree: &Tree) -> Vec<String> {
    let themes = init_plain();
    tree.render(get_tree_theme(&themes), SizeLocation::Right, 2)
}

fn scenario_entries() -> Vec<Node> {
    vec![
        dir(&["r"]),
        file(&["r", "a.txt"], 10),
        dir(&["r", "sub"]),
        file(&["r", "sub", "b.txt"], 20),
    ]
}

fn names(nodes: &[Node]) -> Vec<String> {
    nodes.iter().map(|n| n.file_name().to_string()).collect()
}

#[test]
fn nested_sizes_render_in_name_order() {
    let tree = Tree::new(scenario_entries(), Order::Name, false, None).unwrap();
    assert_eq!(tree.root().file_size(), Some(30));
    assert_eq!(
        render(&tree),
        vec![
            "r (30 B)".to_string(),
            "\u{251C}\u{2500} a.txt (10 B)".to_string(),
            "\u{2514}\u{2500} sub (20 B)".to_string(),
            "   \u{2514}\u{2500} b.txt (20 B)".to_string(),
        ]
    );
}

#[test]
fn empty_directory_pruned_or_shown_without_size() {
    let entries = || vec![dir(&["r"]), dir(&["r", "empty"])];
    let mut pruned = Tree::new(entries(), Order::Name, false, None).unwrap();
    pruned.root.prune_directories();
    assert_eq!(render(&pruned), vec!["r ".to_string()]);

    let kept = Tree::new(entries(), Order::Name, false, None).unwrap();
    assert_eq!(render(&kept), vec!["r ".to_string(), "\u{2514}\u{2500} empty ".to_string()]);
    assert_eq!(kept.root().children()[0].file_size(), None);
}

#[test]
fn symlink_renders_both_names_styled() {
    let mut link = file(&["r", "link"], 5);
    link.style = Style { prefix: "\x1b[36m".to_string(), suffix: "\x1b[0m".to_string() };
    link.symlink_target = Some("target.txt".to_string());
    link.symlink_target_style = Style { prefix: "\x1b[32m".to_string(), suffix: "\x1b[0m".to_string() };
    let tree = Tree::new(vec![dir(&["r"]), link], Order::Name, false, None).unwrap();
    let lines = render(&tree);
    assert_eq!(lines[1], "\u{2514}\u{2500} \x1b[36mlink\x1b[0m -> \x1b[32mtarget.txt\x1b[0m (5 B)");
    assert_eq!(tree.root().file_size(), Some(5));
    assert!(tree.root().children()[0].is_symlink());
}

#[test]
fn arrival_order_does_not_change_the_tree() {
    let forward = Tree::new(scenario_entries(), Order::Name, false, None).unwrap();
    let mut reversed_entries = scenario_entries();
    reversed_entries.reverse();
    let backward = Tree::new(reversed_entries, Order::Name, false, None).unwrap();
    let shuffled = vec![
        file(&["r", "sub", "b.txt"], 20),
        dir(&["r", "sub"]),
        dir(&["r"]),
        file(&["r", "a.txt"], 10),
    ];
    let third = Tree::new(shuffled, Order::Name, false, None).unwrap();
    assert_eq!(render(&forward), render(&backward));
    assert_eq!(render(&forward), render(&third));
}

#[test]
fn directory_size_is_sum_of_children() {
    let entries = vec![
        dir(&["r"]),
        dir(&["r", "d"]),
        file(&["r", "d", "x"], 7),
        file(&["r", "d", "y"], 8),
        dir(&["r", "e"]),
        file(&["r", "e", "z"], 0),
        file(&["r", "w"], 1),
    ];
    let tree = Tree::new(entries, Order::Name, false, None).unwrap();
    let root = tree.root();
    assert_eq!(root.file_size(), Some(16));
    let kids = root.children();
    assert_eq!(names(kids), vec!["d", "e", "w"]);
    assert_eq!(kids[0].file_size(), Some(15));
    assert_eq!(kids[1].file_size(), None);
}

#[test]
fn children_sit_one_level_below_parents() {
    let tree = Tree::new(scenario_entries(), Order::Name, false, None).unwrap();
    let root = tree.root();
    assert_eq!(root.depth, 0);
    for child in root.children() {
        assert_eq!(child.depth, 1);
        for grandchild in child.children() {
            assert_eq!(grandchild.depth, 2);
        }
    }
}

#[test]
fn sorting_by_name_twice_changes_nothing() {
    let nodes = vec![file(&["r", "c"], 1), file(&["r", "a"], 2), file(&["r", "b"], 3)];
    let once = sort_nodes(nodes, Order::Name, false);
    assert_eq!(names(&once), vec!["a", "b", "c"]);
    let twice = sort_nodes(once, Order::Name, false);
    assert_eq!(names(&twice), vec!["a", "b", "c"]);
}

#[test]
fn ascending_reversed_is_descending() {
    let nodes = || vec![file(&["r", "m"], 5), file(&["r", "s"], 1), file(&["r", "l"], 9)];
    let mut asc = names(&sort_nodes(nodes(), Order::Size, false));
    asc.reverse();
    let desc = names(&sort_nodes(nodes(), Order::SizeRev, false));
    assert_eq!(asc, desc);
    assert_eq!(desc, vec!["l", "m", "s"]);
}

#[test]
fn sort_is_stable_for_equal_sizes() {
    let nodes = vec![file(&["r", "b"], 3), file(&["r", "a"], 3), file(&["r", "c"], 1)];
    let sorted = sort_nodes(nodes, Order::Size, false);
    assert_eq!(names(&sorted), vec!["c", "b", "a"]);
}

#[test]
fn unsorted_keeps_arrival_order() {
    let nodes = vec![dir(&["r", "z"]), file(&["r", "b"], 3), file(&["r", "a"], 1)];
    let kept = sort_nodes(nodes, Order::Unsorted, true);
    assert_eq!(names(&kept), vec!["z", "b", "a"]);
}

#[test]
fn directories_come_first() {
    let nodes = vec![file(&["r", "a"], 100), dir(&["r", "z"]), file(&["r", "b"], 1), dir(&["r", "y"])];
    let by_name = sort_nodes(nodes, Order::Name, true);
    assert_eq!(names(&by_name), vec!["y", "z", "a", "b"]);
    let nodes = vec![file(&["r", "a"], 100), dir(&["r", "z"]), file(&["r", "b"], 1)];
    let by_size = sort_nodes(nodes, Order::SizeRev, true);
    assert_eq!(names(&by_size), vec!["z", "a", "b"]);
}

#[test]
fn pruning_removes_nested_empty_directories_only() {
    let entries = vec![
        dir(&["r"]),
        dir(&["r", "a"]),
        dir(&["r", "a", "b"]),
        dir(&["r", "c"]),
        file(&["r", "c", "f"], 3),
        dir(&["r", "c", "e"]),
        file(&["r", "g"], 0),
    ];
    let mut tree = Tree::new(entries, Order::Name, false, None).unwrap();
    tree.root.prune_directories();
    let root = tree.root();
    assert_eq!(names(root.children()), vec!["c", "g"]);
    assert_eq!(names(root.children()[0].children()), vec!["f"]);
    assert!(root.children()[0].has_children());
}

#[test]
fn level_caps_rendering_but_not_sizes() {
    let full = Tree::new(scenario_entries(), Order::Name, false, None).unwrap();
    let capped = Tree::new(scenario_entries(), Order::Name, false, Some(1)).unwrap();
    let top = Tree::new(scenario_entries(), Order::Name, false, Some(0)).unwrap();
    assert_eq!(capped.root().file_size(), full.root().file_size());
    assert_eq!(
        render(&capped),
        vec![
            "r (30 B)".to_string(),
            "\u{251C}\u{2500} a.txt (10 B)".to_string(),
            "\u{2514}\u{2500} sub (20 B)".to_string(),
        ]
    );
    assert_eq!(render(&top), vec!["r (30 B)".to_string()]);
    assert_eq!(render(&full).len(), 4);
}

#[test]
fn missing_root_is_reported() {
    let r = Tree::new(vec![file(&["r", "a"], 1)], Order::Name, false, None);
    assert!(matches!(r, Err(TreeError::MissingRoot)));
    let empty = Tree::new(Vec::new(), Order::Name, false, None);
    assert!(matches!(empty, Err(TreeError::MissingRoot)));
}

#[test]
fn entry_without_parent_is_reported() {
    let orphan = Node::new(
        1,
        Some(1),
        Vec::new(),
        "x".to_string(),
        Some(FileKind::File),
        None,
        Vec::new(),
        None,
        Style::plain(),
        None,
        Style::plain(),
    );
    let r = Tree::new(vec![dir(&["r"]), orphan], Order::Name, false, None);
    assert!(matches!(r, Err(TreeError::ExpectedParent)));
}

#[test]
fn aggregator_collects_children_under_parent_paths() {
    let mut agg = Aggregator::new();
    assert!(agg.push(file(&["r", "d", "x"], 2)).is_ok());
    assert!(agg.push(dir(&["r"])).is_ok());
    assert!(agg.push(dir(&["r", "d"])).is_ok());
    let (root, mut branches) = agg.finish().unwrap();
    assert_eq!(root.file_name(), "r");
    let under_d = branches.take(&path(&["r", "d"]));
    assert_eq!(names(&under_d), vec!["x"]);
    let under_r = branches.take(&path(&["r"]));
    assert_eq!(names(&under_r), vec!["d"]);
    assert!(branches.take(&path(&["r", "d"])).is_empty());
}

#[test]
fn aggregate_refuses_stream_without_root() {
    assert!(matches!(aggregate(vec![dir(&["r", "d"])]), Err(TreeError::MissingRoot)));
}

#[test]
fn sizes_format_in_binary_units() {
    assert_eq!(format_size(0, 2), "0 B");
    assert_eq!(format_size(1023, 2), "1023 B");
    assert_eq!(format_size(1024, 2), "1.00 KiB");
    assert_eq!(format_size(1536, 2), "1.50 KiB");
    assert_eq!(format_size(1535, 0), "1 KiB");
    assert_eq!(format_size(1024 * 1024 * 3 / 2, 1), "1.5 MiB");
    assert_eq!(format_size(1126, 3), "1.100 KiB");
    assert_eq!(format_size(u64::MAX, 2), "16.00 EiB");
    assert_eq!(format_size(1100, 30), "1.074218750000000000 KiB");
}

#[test]
fn size_locations_place_sizes() {
    assert_eq!(SizeLocation::Right.format(10, 2), "(10 B)");
    assert_eq!(SizeLocation::Left.format(10, 2), "       10 B");
    assert_eq!(SizeLocation::Right.default_string(2), "");
    assert_eq!(SizeLocation::Left.default_string(2), "           ");
    let n = file(&["r", "a"], 10);
    assert_eq!(node_line(&n, "> ", SizeLocation::Left, 0), "     10 B > a");
}

#[test]
fn icons_go_before_names() {
    let mut n = file(&["r", "a.rs"], 10);
    n.icon = Some("*".to_string());
    assert_eq!(node_line(&n, "", SizeLocation::Right, 2), "* a.rs (10 B)");
    assert_eq!(get_default_icon(), (66, "\u{f15b}"));
}

#[test]
fn plain_themes_hold_box_drawing() {
    let themes = init_plain();
    assert_eq!(get_tree_theme(&themes).vt, VT);
    assert_eq!(get_tree_theme(&themes).uprt, UPRT);
    assert_eq!(get_link_theme(&themes).vtrt, VTRT);
}

fn clargs() -> Clargs {
    Clargs {
        dir: None,
        disk_usage: DiskUsage::Logical,
        glob: vec!["*.rs".to_string()],
        iglob: vec!["*.MD".to_string()],
        glob_case_insensitive: false,
        hidden: false,
        ignore_git: true,
        icons: false,
        ignore_git_ignore: false,
        level: Some(3),
        scale: 2,
        sort: Order::Size,
        dirs_first: true,
        prune: false,
        flat: false,
        follow_links: false,
        threads: 4,
    }
}

#[test]
fn clargs_getters_and_globs() {
    let c = clargs();
    assert_eq!(c.dir(), ".");
    assert_eq!(c.sort(), Order::Size);
    assert!(c.dirs_first());
    assert_eq!(*c.disk_usage(), DiskUsage::Logical);
    assert_eq!(c.level(), Some(3));
    assert_eq!(
        c.override_globs(),
        vec![
            ("!.git/**/*".to_string(), false),
            ("*.rs".to_string(), false),
            ("*.MD".to_string(), true),
        ]
    );
    let mut d = clargs();
    d.dir = Some("/tmp".to_string());
    assert_eq!(d.dir(), "/tmp");
}

#[test]
fn flat_report_lists_paths_with_sizes() {
    let tree = Tree::new(scenario_entries(), Order::Name, false, None).unwrap();
    assert_eq!(
        tree.render_flat(2),
        vec![
            "       30 B r".to_string(),
            "       10 B a.txt".to_string(),
            "       20 B sub".to_string(),
            "       20 B sub/b.txt".to_string(),
        ]
    );
    let capped = Tree::new(scenario_entries(), Order::Name, false, Some(1)).unwrap();
    assert_eq!(capped.render_flat(0).len(), 3);
}

#[test]
fn file_root_keeps_its_size() {
    let tree = Tree::new(vec![entry(&["f.txt"], FileKind::File, Some(10))], Order::Name, false, None).unwrap();
    assert_eq!(tree.root().file_size(), Some(10));
    assert_eq!(render(&tree), vec!["f.txt (10 B)".to_string()]);
}

#[test]
fn entry_sizes_follow_kind_and_disk_usage() {
    assert_eq!(entry_size(Some(FileKind::File), DiskUsage::Logical, 10, 8), Some(10));
    assert_eq!(entry_size(Some(FileKind::File), DiskUsage::Physical, 10, 8), Some(4096));
    assert_eq!(entry_size(Some(FileKind::Symlink), DiskUsage::Logical, 10, 0), Some(10));
    assert_eq!(entry_size(Some(FileKind::Dir), DiskUsage::Logical, 4096, 8), None);
    assert_eq!(entry_size(None, DiskUsage::Logical, 1, 1), None);
    assert_eq!(entry_size(Some(FileKind::File), DiskUsage::Physical, 0, u64::MAX), Some(u64::MAX));
}

#[test]
fn flat_report_shows_icons() {
    let mut n = file(&["r", "a.rs"], 10);
    n.icon = Some("*".to_string());
    let tree = Tree::new(vec![dir(&["r"]), n], Order::Name, false, None).unwrap();
    assert_eq!(tree.render_flat(0)[1], "     10 B * a.rs");
}
