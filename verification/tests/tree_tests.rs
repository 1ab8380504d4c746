use mdr::tree::{build_tree, filter_files, first_visit, node_rank, sort_tree, Rank, TreeNode};

fn strings(v: &[&str]) -> Vec<String> {
    v.iter().map(|s| s.to_string()).collect()
}

fn leaf(name: &str, path: &str) -> TreeNode {
    TreeNode { name: name.to_string(), path: path.to_string(), is_dir: false, children: Vec::new() }
}

fn names(nodes: &[TreeNode]) -> Vec<String> {
    nodes.iter().map(|n| n.name.clone()).collect()
}

#[test]
fn tree_puts_folders_first_and_sorts_names() {
    let files = strings(&["/r/b.md", "/r/Z/x.md", "/r/a.md", "/other/z.md", "/r/C.md"]);
    let tree = build_tree(&files, "/r");
    assert_eq!(names(&tree), strings(&["Z", "a.md", "b.md", "C.md"]));
    assert!(tree[0].is_dir);
    assert_eq!(tree[0].path, "/r/Z");
    assert_eq!(names(&tree[0].children), strings(&["x.md"]));
    assert_eq!(tree[0].children[0].path, "/r/Z/x.md");
    assert!(!tree[0].children[0].is_dir);
    assert_eq!(tree[1].path, "/r/a.md");
}

#[test]
fn tree_merges_shared_folders() {
    let files = strings(&["/r/d/e/2.md", "/r/d/1.md", "/r/d/e/1.md"]);
    let tree = build_tree(&files, "/r");
    assert_eq!(names(&tree), strings(&["d"]));
    let d = &tree[0];
    assert_eq!(names(&d.children), strings(&["e", "1.md"]));
    assert_eq!(names(&d.children[0].children), strings(&["1.md", "2.md"]));
    assert_eq!(d.children[0].path, "/r/d/e");
}

#[test]
fn tree_sort_is_stable_for_equal_names() {
    let files = strings(&["/r/A.md", "/r/a.md", "/r/B.md"]);
    let tree = build_tree(&files, "/r");
    assert_eq!(names(&tree), strings(&["A.md", "a.md", "B.md"]));
    let files = strings(&["/r/a.md", "/r/A.md"]);
    let tree = build_tree(&files, "/r");
    assert_eq!(names(&tree), strings(&["a.md", "A.md"]));
}

#[test]
fn tree_of_no_files_is_empty() {
    assert!(build_tree(&Vec::new(), "/r").is_empty());
    assert!(build_tree(&strings(&["/elsewhere/a.md"]), "/r").is_empty());
}

#[test]
fn file_and_folder_of_same_name_are_separate() {
    let files = strings(&["/r/x", "/r/x/y.md"]);
    let tree = build_tree(&files, "/r");
    assert_eq!(tree.len(), 2);
    assert!(tree[0].is_dir);
    assert!(!tree[1].is_dir);
}

#[test]
fn sort_orders_by_lowercase_code_points() {
    let nodes = vec![leaf("b", "b"), leaf("_", "_"), leaf("B", "B"), leaf("a", "a")];
    let sorted = sort_tree(nodes);
    assert_eq!(names(&sorted), strings(&["_", "a", "b", "B"]));
}

#[test]
fn rank_of_entries() {
    let dir = TreeNode { name: "z".to_string(), path: "z".to_string(), is_dir: true, children: Vec::new() };
    assert_eq!(node_rank(&dir, &leaf("a", "a")), Rank::Before);
    assert_eq!(node_rank(&leaf("a", "a"), &dir), Rank::After);
    assert_eq!(node_rank(&leaf("a", "a"), &leaf("A", "A")), Rank::Same);
    assert_eq!(node_rank(&leaf("ab", "ab"), &leaf("a", "a")), Rank::After);
}

#[test]
fn filter_is_case_insensitive_substring() {
    let files = strings(&["/r/ReadMe.md", "/r/docs/guide.md", "/r/readme2.md"]);
    assert_eq!(filter_files(&files, "READ"), strings(&["/r/ReadMe.md", "/r/readme2.md"]));
    assert_eq!(filter_files(&files, "docs/"), strings(&["/r/docs/guide.md"]));
    assert!(filter_files(&files, "zzz").is_empty());
}

#[test]
fn folders_are_visited_once() {
    let mut seen: Vec<Vec<u8>> = Vec::new();
    assert!(first_visit(&mut seen, b"/r".to_vec()));
    assert!(first_visit(&mut seen, b"/r/a".to_vec()));
    assert!(!first_visit(&mut seen, b"/r".to_vec()));
    assert_eq!(seen, vec![b"/r".to_vec(), b"/r/a".to_vec()]);
}
