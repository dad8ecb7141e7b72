use dirtree::tree::{
    format_entry, is_visible, listing_positions, name_less, print_dir_structure, push_indent,
    render_tree, root_line, Node,
};

fn file(name: &str) -> Node {
    Node { name: name.to_string(), key: name.as_bytes().to_vec(), children: None }
}

fn dir(name: &str, children: Vec<Node>) -> Node {
    Node { name: name.to_string(), key: name.as_bytes().to_vec(), children: Some(children) }
}

#[test]
fn empty_directory_prints_root_only() {
    let lines = render_tree(".", None, &Vec::new(), true, false);
    assert_eq!(lines, vec![".".to_string()]);
}

#[test]
fn sorted_files_get_connectors() {
    let nodes = vec![file("b.txt"), file("a.txt")];
    let lines = render_tree(".", None, &nodes, true, false);
    assert_eq!(lines, vec![".", "├── a.txt", "└── b.txt"]);
}

#[test]
fn hidden_entry_left_out_by_default() {
    let nodes = vec![file(".hidden"), file("visible.txt")];
    let lines = render_tree(".", None, &nodes, true, false);
    assert_eq!(lines, vec![".", "└── visible.txt"]);
}

#[test]
fn hidden_entries_shown_at_every_depth() {
    let nodes = vec![dir(".config", vec![file(".secret"), file("x")]), file("a")];
    let hidden_off = render_tree(".", None, &nodes, true, false);
    assert_eq!(hidden_off, vec![".", "└── a"]);
    let hidden_on = render_tree(".", None, &nodes, true, true);
    assert_eq!(hidden_on, vec![".", "├── .config", "│   ├── .secret", "│   └── x", "└── a"]);
}

#[test]
fn nested_prefixes_use_units_of_four() {
    let nodes = vec![
        dir("src", vec![file("main.rs"), dir("util", vec![file("io.rs")])]),
        dir("tests", vec![file("t.rs")]),
    ];
    let lines = render_tree(".", None, &nodes, true, false);
    assert_eq!(
        lines,
        vec![
            ".",
            "├── src",
            "│   ├── main.rs",
            "│   └── util",
            "│       └── io.rs",
            "└── tests",
            "    └── t.rs",
        ]
    );
    // A line at depth D carries 4 * D characters before its connector.
    let io_line: Vec<char> = lines[4].chars().collect();
    assert_eq!(io_line[8], '└');
}

#[test]
fn one_last_connector_per_directory() {
    let nodes = vec![file("c"), file("a"), file("b"), file("d")];
    let lines = render_tree(".", None, &nodes, true, false);
    let lasts = lines.iter().filter(|l| l.starts_with("└──")).count();
    let others = lines.iter().filter(|l| l.starts_with("├──")).count();
    assert_eq!(lasts, 1);
    assert_eq!(others, 3);
    assert_eq!(lines[4], "└── d");
}

#[test]
fn unsorted_keeps_listing_order() {
    let nodes = vec![file("zeta"), file("alpha"), file("mid")];
    let lines = render_tree(".", None, &nodes, false, false);
    assert_eq!(lines, vec![".", "├── zeta", "├── alpha", "└── mid"]);
}

#[test]
fn sorting_is_by_bytes() {
    let nodes = vec![file("b"), file("B"), file("a"), file("ab"), file("é")];
    let lines = render_tree(".", None, &nodes, true, false);
    assert_eq!(lines, vec![".", "├── B", "├── a", "├── ab", "├── b", "└── é"]);
}

#[test]
fn sorting_uses_raw_name_bytes() {
    // A name holding the byte 0x80 is shown with a replacement character,
    // yet sorts by its raw byte, before the two-byte encoding of 'é'.
    let raw = Node { name: "\u{FFFD}".to_string(), key: vec![0x80], children: None };
    let nodes = vec![file("é"), raw];
    let lines = render_tree(".", None, &nodes, true, false);
    assert_eq!(lines, vec![".", "├── \u{FFFD}", "└── é"]);
}

#[test]
fn equal_names_keep_listing_order() {
    let nodes = vec![dir("x", vec![file("first")]), file("x")];
    let lines = render_tree(".", None, &nodes, true, false);
    assert_eq!(lines, vec![".", "├── x", "│   └── first", "└── x"]);
}

#[test]
fn unreadable_directory_has_no_lines() {
    let nodes = vec![dir("locked", Vec::new()), file("z")];
    let lines = render_tree(".", None, &nodes, true, false);
    assert_eq!(lines, vec![".", "├── locked", "└── z"]);
}

#[test]
fn root_line_choices() {
    assert_eq!(root_line(".", Some("/home/u".to_string())), ".");
    assert_eq!(root_line("docs", Some("/home/u/docs".to_string())), "/home/u/docs");
    assert_eq!(root_line("docs", None), "docs");
    assert_eq!(root_line("./", Some("/home/u".to_string())), "/home/u");
}

#[test]
fn render_tree_uses_canonical_root() {
    let lines = render_tree("docs", Some("/srv/docs".to_string()), &vec![file("a")], true, false);
    assert_eq!(lines, vec!["/srv/docs", "└── a"]);
}

#[test]
fn prefix_is_restored_after_subtree() {
    let nodes = vec![dir("d", vec![dir("e", vec![file("f")])])];
    let mut prefix = "│   ".to_string();
    let mut out = vec!["keep".to_string()];
    print_dir_structure(&nodes, &mut prefix, true, false, &mut out);
    assert_eq!(prefix, "│   ");
    assert_eq!(out, vec!["keep", "│   └── d", "│       └── e", "│           └── f"]);
}

#[test]
fn entry_line_format() {
    assert_eq!(format_entry("│   ", false, "x"), "│   ├── x");
    assert_eq!(format_entry("", true, "y"), "└── y");
}

#[test]
fn indent_units() {
    let mut p = String::new();
    push_indent(&mut p, false);
    push_indent(&mut p, true);
    assert_eq!(p, "│       ");
    assert_eq!(p.chars().count(), 8);
}

#[test]
fn visibility_rule() {
    assert!(!is_visible(b".git", false));
    assert!(is_visible(b".git", true));
    assert!(is_visible(b"git", false));
    assert!(is_visible(b"", false));
}

#[test]
fn name_order() {
    assert!(name_less(b"B", b"a"));
    assert!(name_less(b"a", b"ab"));
    assert!(!name_less(b"ab", b"a"));
    assert!(!name_less(b"a", b"a"));
    assert!(name_less("z".as_bytes(), "é".as_bytes()));
    assert!(name_less(&[0x80], "é".as_bytes()));
}

#[test]
fn positions_filter_then_sort() {
    let nodes = vec![file("c"), file(".h"), file("a"), file("b")];
    assert_eq!(listing_positions(&nodes, false, true), vec![2, 3, 0]);
    assert_eq!(listing_positions(&nodes, true, true), vec![1, 2, 3, 0]);
    assert_eq!(listing_positions(&nodes, false, false), vec![0, 2, 3]);
}

#[test]
fn every_entry_shown_once_with_hidden_on() {
    let nodes = vec![
        dir(".a", vec![file(".b"), dir("c", vec![file(".d")])]),
        file("e"),
        dir("f", Vec::new()),
    ];
    let lines = render_tree(".", None, &nodes, true, true);
    // The root line, then one line for each of the six entries.
    assert_eq!(lines.len(), 7);
    for name in [".a", ".b", "c", ".d", "e", "f"] {
        let hits = lines.iter().filter(|l| l.ends_with(&format!(" {}", name))).count();
        assert_eq!(hits, 1);
    }
}
