use target_cleaner::{clean_node, has_src_entry, Node};

fn dir(name: &str, children: Vec<Node>) -> Node {
    Node { name: String::from(name), is_dir: true, children }
}

fn file(name: &str) -> Node {
    Node { name: String::from(name), is_dir: false, children: Vec::new() }
}

fn same_tree(a: &Node, b: &Node) -> bool {
    a.name == b.name && a.is_dir == b.is_dir && a.children.len() == b.children.len()
        && a.children.iter().zip(b.children.iter()).all(|(x, y)| same_tree(x, y))
}

#[test]
fn src_entry_is_found_among_siblings() {
    assert!(has_src_entry(&vec![file("a.txt"), dir("src", vec![])]));
    assert!(has_src_entry(&vec![file("src")]));
    assert!(!has_src_entry(&vec![dir("target", vec![]), file("srcs")]));
    assert!(!has_src_entry(&Vec::new()));
}

#[test]
fn target_beside_src_is_removed() {
    // root/pkg/src/, root/pkg/target/ -> root/pkg/target/ is removed.
    let root = dir(
        "root",
        vec![dir("pkg", vec![dir("src", vec![file("main.rs")]), dir("target", vec![file("out")])])],
    );
    let cleaned = clean_node(&root);
    assert_eq!(cleaned.name, "root");
    assert_eq!(cleaned.children.len(), 1);
    let pkg = &cleaned.children[0];
    assert_eq!(pkg.name, "pkg");
    assert_eq!(pkg.children.len(), 1);
    assert_eq!(pkg.children[0].name, "src");
    assert_eq!(pkg.children[0].children.len(), 1);
}

#[test]
fn target_without_src_remains() {
    // root/pkg/target/ only -> everything stays.
    let root = dir("root", vec![dir("pkg", vec![dir("target", vec![file("out")])])]);
    let cleaned = clean_node(&root);
    assert!(same_tree(&cleaned, &root));
}

#[test]
fn removed_target_takes_its_whole_subtree_along() {
    // root/a/src/, root/a/target/file.txt, root/a/target/nested/target/:
    // only root/a/target/ is judged; what was nested inside it goes with it.
    let root = dir(
        "root",
        vec![dir(
            "a",
            vec![
                dir("src", vec![]),
                dir("target", vec![file("file.txt"), dir("nested", vec![dir("target", vec![])])]),
            ],
        )],
    );
    let cleaned = clean_node(&root);
    let a = &cleaned.children[0];
    assert_eq!(a.name, "a");
    assert_eq!(a.children.len(), 1);
    assert_eq!(a.children[0].name, "src");
}

#[test]
fn nested_pairs_inside_kept_target_are_still_cleaned() {
    // A target directory without a src sibling stays, but a src/target pair
    // inside it is judged on its own.
    let root = dir(
        "root",
        vec![dir("target", vec![dir("src", vec![]), dir("target", vec![file("junk")])])],
    );
    let cleaned = clean_node(&root);
    assert_eq!(cleaned.children.len(), 1);
    let outer = &cleaned.children[0];
    assert_eq!(outer.name, "target");
    assert_eq!(outer.children.len(), 1);
    assert_eq!(outer.children[0].name, "src");
}

#[test]
fn a_file_named_src_also_qualifies_the_sibling_target() {
    // Existence, not kind, is what the guard tests: a plain file named src
    // lets the target beside it be removed.
    let root = dir("pkg", vec![file("src"), dir("target", vec![])]);
    let cleaned = clean_node(&root);
    assert_eq!(cleaned.children.len(), 1);
    assert_eq!(cleaned.children[0].name, "src");
    assert!(!cleaned.children[0].is_dir);
}

#[test]
fn src_nested_inside_target_does_not_protect_it() {
    // A src directory inside the target itself is no sibling: the target
    // stays only because its own parent has no src entry.
    let root = dir("root", vec![dir("target", vec![dir("src", vec![])])]);
    let cleaned = clean_node(&root);
    assert!(same_tree(&cleaned, &root));
}

#[test]
fn a_file_named_target_is_never_removed() {
    let root = dir("pkg", vec![dir("src", vec![]), file("target")]);
    let cleaned = clean_node(&root);
    assert_eq!(cleaned.children.len(), 2);
    assert_eq!(cleaned.children[1].name, "target");
    assert!(!cleaned.children[1].is_dir);
}

#[test]
fn second_run_changes_nothing() {
    let root = dir(
        "root",
        vec![
            dir("pkg", vec![dir("src", vec![]), dir("target", vec![file("out")])]),
            dir("other", vec![dir("target", vec![file("kept")])]),
        ],
    );
    let once = clean_node(&root);
    let twice = clean_node(&once);
    assert!(same_tree(&twice, &once));
}

#[test]
fn deep_pairs_are_found() {
    let root = dir(
        "root",
        vec![dir(
            "w1",
            vec![dir("w2", vec![dir("w3", vec![dir("src", vec![]), dir("target", vec![])])])],
        )],
    );
    let cleaned = clean_node(&root);
    let w3 = &cleaned.children[0].children[0].children[0];
    assert_eq!(w3.name, "w3");
    assert_eq!(w3.children.len(), 1);
    assert_eq!(w3.children[0].name, "src");
}
