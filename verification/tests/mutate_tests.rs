use project_scaffold::mutate::{
    ensure_renameable, find_matching_folders, locate_project_root, plan_rename,
    validate_mutation_target, FsError,
};
use project_scaffold::tree::DirEntry;

fn dir(name: &str, path: &str, children: Vec<DirEntry>) -> DirEntry {
    DirEntry { name: name.to_string(), path: path.to_string(), children, is_directory: true }
}

fn file(name: &str, path: &str) -> DirEntry {
    DirEntry {
        name: name.to_string(),
        path: path.to_string(),
        children: Vec::new(),
        is_directory: false,
    }
}

/// A project root holding two folders named `global` at different depths.
fn sample_project() -> DirEntry {
    dir(
        "ABC_123",
        "T:/proj/ABC_123",
        vec![dir(
            "maya",
            "T:/proj/ABC_123/maya",
            vec![
                dir(
                    "scenes",
                    "T:/proj/ABC_123/maya/scenes",
                    vec![dir("global", "T:/proj/ABC_123/maya/scenes/global", Vec::new())],
                ),
                dir(
                    "scripts",
                    "T:/proj/ABC_123/maya/scripts",
                    vec![dir("global", "T:/proj/ABC_123/maya/scripts/global", Vec::new())],
                ),
            ],
        )],
    )
}

#[test]
fn renaming_project_root_fails() {
    let r = validate_mutation_target("T:/proj/ABC_123");
    match r {
        Err(FsError::ProtectedRoot) => {}
        _ => panic!("expected the protected-root validation error"),
    }
}

#[test]
fn root_pattern_rejected_regardless_of_depth() {
    let r = validate_mutation_target("/deep/below/things/XYZ_999");
    assert!(matches!(r, Err(FsError::ProtectedRoot)));
}

#[test]
fn empty_path_is_invalid() {
    assert!(matches!(validate_mutation_target(""), Err(FsError::InvalidPath)));
    assert!(matches!(validate_mutation_target("///"), Err(FsError::InvalidPath)));
}

#[test]
fn validation_cleans_and_extracts_target() {
    let t = validate_mutation_target("/x/ABC_123/maya/maya").unwrap();
    assert_eq!(t.cleaned, "x/ABC_123/maya");
    assert_eq!(t.target_name, "maya");
}

#[test]
fn rename_of_folder_with_files_fails() {
    let entries = vec![dir("sub", "p/sub", Vec::new()), file("notes.txt", "p/notes.txt")];
    assert!(matches!(ensure_renameable(&entries), Err(FsError::ContainsFiles)));
}

#[test]
fn rename_of_folder_with_only_directories_is_allowed() {
    let entries = vec![dir("a", "p/a", Vec::new()), dir("b", "p/b", Vec::new())];
    assert!(ensure_renameable(&entries).is_ok());
    let empty: Vec<DirEntry> = Vec::new();
    assert!(ensure_renameable(&empty).is_ok());
}

#[test]
fn project_root_location() {
    assert_eq!(
        locate_project_root("T:/proj/ABC_123/maya").unwrap(),
        "T:/proj/ABC_123"
    );
    assert!(matches!(locate_project_root("a/b/c"), Err(FsError::RootNotFound)));
}

#[test]
fn matching_folders_found_at_every_depth() {
    let root = sample_project();
    let ms = find_matching_folders(&root, "global");
    assert_eq!(
        ms,
        vec![
            "T:/proj/ABC_123/maya/scenes/global".to_string(),
            "T:/proj/ABC_123/maya/scripts/global".to_string(),
        ]
    );
}

#[test]
fn matching_ignores_files_and_root_itself() {
    let root = dir(
        "same",
        "/same",
        vec![file("same", "/same/same"), dir("other", "/same/other", Vec::new())],
    );
    let ms = find_matching_folders(&root, "same");
    assert!(ms.is_empty());
}

#[test]
fn renaming_one_global_renames_both() {
    let root = sample_project();
    let plan = plan_rename(&root, "global", "shared");
    assert!(plan.conflict.is_none());
    assert_eq!(plan.steps.len(), 2);
    assert_eq!(plan.steps[0].from, "T:/proj/ABC_123/maya/scenes/global");
    assert_eq!(plan.steps[0].to, "T:/proj/ABC_123/maya/scenes/shared");
    assert_eq!(plan.steps[1].from, "T:/proj/ABC_123/maya/scripts/global");
    assert_eq!(plan.steps[1].to, "T:/proj/ABC_123/maya/scripts/shared");
}

#[test]
fn rename_stops_at_existing_destination() {
    let mut root = sample_project();
    // Put a folder named `shared` beside the second match only.
    root.children[0].children[1]
        .children
        .push(dir("shared", "T:/proj/ABC_123/maya/scripts/shared", Vec::new()));
    let plan = plan_rename(&root, "global", "shared");
    assert_eq!(plan.conflict.as_deref(), Some("T:/proj/ABC_123/maya/scripts/shared"));
    // The first match is still renamed; the batch stops at the conflict.
    assert_eq!(plan.steps.len(), 1);
    assert_eq!(plan.steps[0].from, "T:/proj/ABC_123/maya/scenes/global");
}

#[test]
fn rename_to_same_name_conflicts_immediately() {
    let root = sample_project();
    let plan = plan_rename(&root, "global", "global");
    assert_eq!(plan.conflict.as_deref(), Some("T:/proj/ABC_123/maya/scenes/global"));
    assert!(plan.steps.is_empty());
}

#[test]
fn matching_includes_nested_same_name_folders() {
    let root = dir(
        "AAA_111",
        "AAA_111",
        vec![dir(
            "global",
            "AAA_111/global",
            vec![dir("global", "AAA_111/global/global", Vec::new())],
        )],
    );
    let ms = find_matching_folders(&root, "global");
    // The outer folder is listed before its nested namesake.
    assert_eq!(ms, vec!["AAA_111/global".to_string(), "AAA_111/global/global".to_string()]);
}

#[test]
fn error_messages() {
    assert_eq!(FsError::ProtectedRoot.message(), "Cannot modify project root folder");
    assert_eq!(
        FsError::ContainsFiles.message(),
        "Folder contains files. Please ensure folder is empty before renaming."
    );
    assert_eq!(FsError::RootNotFound.message(), "Could not find project root");
    assert_eq!(FsError::InvalidPath.message(), "Could not get folder name");
    assert_eq!(
        FsError::DestinationExists("a/b".to_string()).message(),
        "Destination already exists: a/b"
    );
}
