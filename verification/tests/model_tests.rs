use resub::filter::FilterSpec;
use resub::model::{walk_tree, walk_tree_driven, TreeEntry, TreeNode};
use resub::walker::{EntryKind, FsEntry, Step, Walker};

fn strings(v: &[&str]) -> Vec<String> {
    v.iter().map(|s| s.to_string()).collect()
}

fn dir(path: &str, name: &str, children: Vec<TreeEntry>) -> TreeEntry {
    TreeEntry { path: path.to_string(), name: name.to_string(), node: TreeNode::Dir(children) }
}

fn file(path: &str, name: &str) -> TreeEntry {
    TreeEntry { path: path.to_string(), name: name.to_string(), node: TreeNode::File }
}

fn other(path: &str, name: &str) -> TreeEntry {
    TreeEntry { path: path.to_string(), name: name.to_string(), node: TreeNode::Other }
}

fn sample_tree() -> TreeEntry {
    dir(
        "src",
        "src",
        vec![
            file("src/a.swift", "a.swift"),
            dir("src/private", "private", vec![file("src/private/b.swift", "b.swift")]),
            dir(
                "src/sub",
                "sub",
                vec![
                    file("src/sub/c.swift", "c.swift"),
                    other("src/sub/link.swift", "link.swift"),
                    dir("src/sub/private", "private", vec![file("src/sub/private/d.swift", "d.swift")]),
                ],
            ),
            file("src/notes.md", "notes.md"),
        ],
    )
}

fn swift_filter() -> FilterSpec {
    FilterSpec {
        included_extensions: strings(&["swift"]),
        excluded_names: strings(&["private"]),
    }
}

/// Answers each of the walker's directory requests from the in-memory
/// tree, as the filesystem driver would.
fn drive_walker(root: &TreeEntry, f: &FilterSpec) -> Vec<String> {
    fn find<'a>(t: &'a TreeEntry, path: &str) -> Option<&'a TreeEntry> {
        if t.path == path {
            return Some(t);
        }
        if let TreeNode::Dir(children) = &t.node {
            for c in children {
                if let Some(hit) = find(c, path) {
                    return Some(hit);
                }
            }
        }
        None
    }
    let mut w = Walker::new(root.path.clone());
    loop {
        match w.step() {
            Step::Done => break,
            Step::Progress => {}
            Step::NeedDir(d) => {
                let mut entries = Vec::new();
                if let Some(TreeEntry { node: TreeNode::Dir(children), .. }) = find(root, &d) {
                    for c in children {
                        let kind = match c.node {
                            TreeNode::Dir(_) => EntryKind::Directory,
                            TreeNode::File => EntryKind::File,
                            TreeNode::Other => EntryKind::Other,
                        };
                        entries.push(FsEntry { path: c.path.clone(), name: c.name.clone(), kind });
                    }
                }
                w.on_entries(entries, f);
            }
        }
    }
    w.into_paths()
}

#[test]
fn tree_walk_selects_depth_first_and_prunes_excluded() {
    let paths = walk_tree(&sample_tree(), &swift_filter());
    assert_eq!(paths, vec!["src/a.swift".to_string(), "src/sub/c.swift".to_string()]);
}

#[test]
fn walker_and_tree_walk_agree() {
    let tree = sample_tree();
    let f = swift_filter();
    assert_eq!(drive_walker(&tree, &f), walk_tree(&tree, &f));
    assert_eq!(walk_tree_driven(&tree, &f), walk_tree(&tree, &f));
}

#[test]
fn driven_walk_of_a_file_root_is_empty() {
    let f = swift_filter();
    assert!(walk_tree_driven(&file("a.swift", "a.swift"), &f).is_empty());
}

#[test]
fn removing_the_excluded_subtree_changes_nothing() {
    let f = swift_filter();
    let full = walk_tree(&sample_tree(), &f);
    let pruned = dir(
        "src",
        "src",
        vec![
            file("src/a.swift", "a.swift"),
            dir(
                "src/sub",
                "sub",
                vec![
                    file("src/sub/c.swift", "c.swift"),
                    other("src/sub/link.swift", "link.swift"),
                ],
            ),
            file("src/notes.md", "notes.md"),
        ],
    );
    assert_eq!(walk_tree(&pruned, &f), full);
}

#[test]
fn empty_tree_walks_to_nothing() {
    let tree = dir("root", "root", Vec::new());
    assert!(walk_tree(&tree, &swift_filter()).is_empty());
}
