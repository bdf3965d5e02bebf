use project_scaffold::tree::{snapshot_dirs, snapshot_full, DirEntry};

fn dir(name: &str, path: &str, children: Vec<DirEntry>) -> DirEntry {
    DirEntry { name: name.to_string(), path: path.to_string(), children, is_directory: true }
}

fn file(name: &str, path: &str) -> DirEntry {
    DirEntry {
        name: name.to_string(),
        path: path.to_string(),
        children: Vec::new(),
        is_directory: false,
    }
}

fn child_names(e: &DirEntry) -> Vec<String> {
    e.children.iter().map(|c| c.name.clone()).collect()
}

#[test]
fn snapshot_orders_directories_then_files() {
    let raw = dir(
        "root",
        "/root",
        vec![
            dir("b", "/root/b", Vec::new()),
            dir("a", "/root/a", Vec::new()),
            file("z", "/root/z"),
            file("y", "/root/y"),
        ],
    );
    let dirs_only = snapshot_dirs(&raw);
    assert_eq!(child_names(&dirs_only), vec!["a", "b"]);
    let with_files = snapshot_full(&raw);
    assert_eq!(child_names(&with_files), vec!["a", "b", "y", "z"]);
}

#[test]
fn snapshot_sorts_recursively() {
    let raw = dir(
        "top",
        "/top",
        vec![dir(
            "m",
            "/top/m",
            vec![
                dir("beta", "/top/m/beta", Vec::new()),
                dir("alpha", "/top/m/alpha", Vec::new()),
            ],
        )],
    );
    let s = snapshot_dirs(&raw);
    assert_eq!(child_names(&s.children[0]), vec!["alpha", "beta"]);
}

#[test]
fn snapshot_drops_files_in_dirs_only_variant() {
    let raw = dir(
        "r",
        "/r",
        vec![dir("sub", "/r/sub", vec![file("inner.txt", "/r/sub/inner.txt")])],
    );
    let s = snapshot_dirs(&raw);
    assert_eq!(s.children.len(), 1);
    assert!(s.children[0].children.is_empty());
    let f = snapshot_full(&raw);
    assert_eq!(f.children[0].children.len(), 1);
    assert_eq!(f.children[0].children[0].name, "inner.txt");
    assert!(!f.children[0].children[0].is_directory);
}

#[test]
fn snapshot_preserves_name_path_and_kind() {
    let raw = dir("keep", "/x/keep", vec![file("f", "/x/keep/f")]);
    let s = snapshot_full(&raw);
    assert_eq!(s.name, "keep");
    assert_eq!(s.path, "/x/keep");
    assert!(s.is_directory);
}

#[test]
fn snapshot_of_file_is_leaf() {
    let raw = file("only", "/only");
    let s = snapshot_full(&raw);
    assert_eq!(s.name, "only");
    assert!(!s.is_directory);
    assert!(s.children.is_empty());
}

#[test]
fn snapshot_orders_names_case_sensitively() {
    let raw = dir(
        "r",
        "/r",
        vec![
            dir("apple", "/r/apple", Vec::new()),
            dir("Banana", "/r/Banana", Vec::new()),
        ],
    );
    // Uppercase letters sort before lowercase ones by scalar value.
    let s = snapshot_dirs(&raw);
    assert_eq!(child_names(&s), vec!["Banana", "apple"]);
}
