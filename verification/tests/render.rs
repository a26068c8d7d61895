use projdoc::fs_model::FileEntry;
use projdoc::tree::Directory;
use projdoc::tree::build_directory_tree;
use projdoc::tree::directory_tree_to_string;
use projdoc::tree::generate_tree;
use projdoc::tree::relative_to;

fn comps(parts: &[&str]) -> Vec<String> {
    parts.iter().map(|s| s.to_string()).collect()
}

fn entry(parts: &[&str], content: &str) -> FileEntry {
    FileEntry { path: comps(parts), content: content.to_string() }
}

#[test]
fn root_level_files_then_subdir() {
    // Files sorted first, the lone subdirectory last with the closing
    // connector, and its file indented one blank unit below it.
    let entries = vec![
        entry(&["a.txt"], ""),
        entry(&["z.txt"], ""),
        entry(&["sub", "m.txt"], ""),
    ];
    let root = comps(&[]);
    let tree = generate_tree("proj", &entries, &root);
    assert_eq!(tree, "├── a.txt\n├── z.txt\n└── sub\n    └── m.txt\n");
}

#[test]
fn deterministic_across_input_orders() {
    let one = vec![
        entry(&["z.txt"], ""),
        entry(&["sub", "m.txt"], ""),
        entry(&["a.txt"], ""),
        entry(&["sub", "b.txt"], ""),
    ];
    let two = vec![
        entry(&["sub", "b.txt"], ""),
        entry(&["a.txt"], ""),
        entry(&["z.txt"], ""),
        entry(&["sub", "m.txt"], ""),
    ];
    let root = comps(&[]);
    let first = generate_tree("proj", &one, &root);
    let second = generate_tree("proj", &two, &root);
    assert_eq!(first, second);
    assert_eq!(first, "├── a.txt\n├── z.txt\n└── sub\n    ├── b.txt\n    └── m.txt\n");
}

#[test]
fn one_closing_connector_per_level() {
    let entries = vec![
        entry(&["a"], ""),
        entry(&["b"], ""),
        entry(&["d1", "x"], ""),
        entry(&["d2", "y"], ""),
    ];
    let root = comps(&[]);
    let tree = generate_tree("proj", &entries, &root);
    // Root level: four children, exactly one closing connector.
    let root_lines: Vec<&str> = tree.lines().filter(|l| !l.starts_with(' ') && !l.starts_with('│')).collect();
    assert_eq!(root_lines.len(), 4);
    assert_eq!(root_lines.iter().filter(|l| l.starts_with("└── ")).count(), 1);
    assert_eq!(root_lines.iter().filter(|l| l.starts_with("├── ")).count(), 3);
    assert_eq!(tree, "├── a\n├── b\n├── d1\n│   └── x\n└── d2\n    └── y\n");
}

#[test]
fn indent_alternates_with_ancestor_status() {
    // d1 is not the last sibling, so below it the bar unit continues;
    // d2 is last, so below it the blank unit is used.
    let entries = vec![
        entry(&["d1", "deep", "x"], ""),
        entry(&["d2", "deep", "y"], ""),
    ];
    let root = comps(&[]);
    let tree = generate_tree("proj", &entries, &root);
    assert_eq!(
        tree,
        "├── d1\n│   └── deep\n│       └── x\n└── d2\n    └── deep\n        └── y\n"
    );
}

#[test]
fn duplicate_relative_path_prints_twice() {
    let entries = vec![entry(&["a.txt"], ""), entry(&["a.txt"], "")];
    let root = comps(&[]);
    let tree = generate_tree("proj", &entries, &root);
    assert_eq!(tree, "├── a.txt\n└── a.txt\n");
}

#[test]
fn non_root_node_rendering() {
    let mut d = Directory::new("node".to_string());
    d.add_file("f".to_string());
    let out = directory_tree_to_string(&d, "", true, false);
    assert_eq!(out, "└── node\n    └── f\n");
    let out2 = directory_tree_to_string(&d, "", false, false);
    assert_eq!(out2, "├── node\n│   └── f\n");
}

#[test]
fn build_strips_root_prefix() {
    let entries = vec![entry(&["base", "proj", "src", "m.rs"], "")];
    let root = comps(&["base", "proj"]);
    let tree = generate_tree("proj", &entries, &root);
    assert_eq!(tree, "└── src\n    └── m.rs\n");
}

#[test]
fn foreign_prefix_kept_whole() {
    let rel = relative_to(&comps(&["other", "place", "f"]), &comps(&["base"]));
    assert_eq!(rel, comps(&["other", "place", "f"]));
    let rel2 = relative_to(&comps(&["base", "f"]), &comps(&["base"]));
    assert_eq!(rel2, comps(&["f"]));
}

#[test]
fn empty_entry_list_renders_nothing() {
    let entries: Vec<FileEntry> = Vec::new();
    let root = comps(&[]);
    let tree = generate_tree("proj", &entries, &root);
    assert_eq!(tree, "");
}

#[test]
fn build_directory_tree_sorts_children() {
    let entries = vec![
        entry(&["zz", "f"], ""),
        entry(&["aa", "g"], ""),
        entry(&["m.txt"], ""),
    ];
    let root = comps(&[]);
    let built = build_directory_tree(&entries, &root);
    assert_eq!(built.files, vec!["m.txt".to_string()]);
    assert_eq!(built.subdirectories.len(), 2);
    assert_eq!(built.subdirectories[0].name, "aa");
    assert_eq!(built.subdirectories[1].name, "zz");
}
