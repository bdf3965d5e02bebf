use project_scaffold::structure::{
    copy_error_message, default_directories, folder_created_message, plan_structure,
    project_directory, BaseFile, BuildStep, ProjectConfig, ProjectTemplate,
};

fn config(base: &str) -> ProjectConfig {
    ProjectConfig {
        project_ref: "0123".to_string(),
        artist_ref: "ART".to_string(),
        base_path: base.to_string(),
        template_path: None,
    }
}

#[test]
fn project_directory_is_derived_and_normalized() {
    assert_eq!(project_directory(&config("/projects/")), "/projects/ART_0123");
    assert_eq!(project_directory(&config("C:\\proj\\")), "C:/proj/ART_0123");
}

#[test]
fn default_plan_creates_exactly_the_default_set() {
    let cfg = config("/projects");
    let plan = plan_structure(&cfg, None);
    assert_eq!(plan.project_dir, "/projects/ART_0123");
    assert_eq!(plan.message, "Project structure created at /projects/ART_0123");
    let defaults = default_directories();
    assert_eq!(plan.steps.len(), defaults.len());
    for (step, d) in plan.steps.iter().zip(defaults.iter()) {
        match step {
            BuildStep::MakeDir { path } => {
                assert_eq!(path, &format!("/projects/ART_0123/{}", d));
            }
            BuildStep::CopyFile { .. } => panic!("no file copies without a template"),
        }
    }
}

#[test]
fn default_set_contents() {
    let d = default_directories();
    assert_eq!(d.len(), 24);
    assert_eq!(d[0], "adobe");
    assert!(d.contains(&"maya/scenes/global".to_string()));
    assert!(d.contains(&"maya/scripts/global".to_string()));
    assert!(d.contains(&"maya/Time Editor".to_string()));
    assert!(d.contains(&"zbrush".to_string()));
}

#[test]
fn replanning_same_config_gives_same_plan() {
    let cfg = config("/projects");
    let first = plan_structure(&cfg, None);
    let second = plan_structure(&cfg, None);
    assert_eq!(first.project_dir, second.project_dir);
    assert_eq!(first.message, second.message);
    assert_eq!(first.steps.len(), second.steps.len());
    for (a, b) in first.steps.iter().zip(second.steps.iter()) {
        match (a, b) {
            (BuildStep::MakeDir { path: p }, BuildStep::MakeDir { path: q }) => assert_eq!(p, q),
            _ => panic!("unexpected step kind"),
        }
    }
}

#[test]
fn template_plan_orders_directories_before_copies() {
    let cfg = config("/projects");
    let template = ProjectTemplate {
        name: "t".to_string(),
        description: "".to_string(),
        directories: vec!["shots".to_string(), "shots/ref".to_string()],
        base_files: vec![BaseFile {
            source: "/seed/readme.md".to_string(),
            destination: "shots/readme.md".to_string(),
        }],
    };
    let plan = plan_structure(&cfg, Some(&template));
    assert_eq!(plan.steps.len(), 4);
    match &plan.steps[0] {
        BuildStep::MakeDir { path } => assert_eq!(path, "/projects/ART_0123/shots"),
        _ => panic!("expected a directory step"),
    }
    match &plan.steps[1] {
        BuildStep::MakeDir { path } => assert_eq!(path, "/projects/ART_0123/shots/ref"),
        _ => panic!("expected a directory step"),
    }
    match &plan.steps[2] {
        BuildStep::MakeDir { path } => assert_eq!(path, "/projects/ART_0123/shots"),
        _ => panic!("expected the copy's parent directory step"),
    }
    match &plan.steps[3] {
        BuildStep::CopyFile { source, destination } => {
            assert_eq!(source, "/seed/readme.md");
            assert_eq!(destination, "/projects/ART_0123/shots/readme.md");
        }
        _ => panic!("expected the copy step"),
    }
}

#[test]
fn messages_name_their_paths() {
    assert_eq!(
        copy_error_message("/a/src.txt", "/b/dst.txt", "No such file"),
        "Failed to copy file from /a/src.txt to /b/dst.txt: No such file"
    );
    assert_eq!(
        folder_created_message("/projects/new"),
        "Directory created successfully at /projects/new"
    );
}
