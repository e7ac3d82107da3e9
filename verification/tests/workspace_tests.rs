use carb::config::{Config, Version};
use carb::error::DSMError;
use carb::package_json::PackageJson;
use carb::project::{DirEntry, DiscoveryError, FsSnapshot, Project, Workspace};

fn manifest(
    name: Option<&str>,
    workspaces: Option<Vec<&str>>,
    dependencies: Option<Vec<(&str, &str)>>,
) -> PackageJson {
    PackageJson {
        name: name.map(|s| s.to_string()),
        private: None,
        version: Some("1.0.0".to_string()),
        scripts: None,
        workspaces: workspaces.map(|v| v.into_iter().map(|s| s.to_string()).collect()),
        dependencies: dependencies
            .map(|v| v.into_iter().map(|(k, w)| (k.to_string(), w.to_string())).collect()),
        dev_dependencies: None,
        peer_dependencies: None,
    }
}

fn dir(path: &str, manifest: Option<Result<PackageJson, String>>, matches: Vec<&str>) -> DirEntry {
    DirEntry {
        path: path.to_string(),
        manifest,
        workspace_matches: matches.into_iter().map(|s| s.to_string()).collect(),
    }
}

fn scenario_fs() -> FsSnapshot {
    FsSnapshot {
        dirs: vec![
            dir(
                "project",
                Some(Ok(manifest(Some("root"), Some(vec!["packages/*"]), None))),
                vec!["project/packages/ui", "project/packages/core"],
            ),
            dir(
                "project/packages/ui",
                Some(Ok(manifest(Some("ui"), None, Some(vec![("core", "^1.0.0")])))),
                vec![],
            ),
            dir(
                "project/packages/core",
                Some(Ok(manifest(Some("core"), None, None))),
                vec![],
            ),
        ],
    }
}

#[test]
fn workspace_discovery_from_nested_directory() {
    let fs = scenario_fs();
    let ancestors = vec![
        "project/packages/ui".to_string(),
        "project/packages".to_string(),
        "project".to_string(),
    ];
    let project = Project::find(&fs, &ancestors).unwrap();
    assert_eq!(project.directory, "project");
    assert_eq!(project.workspace.package_json.name.as_deref(), Some("root"));
    assert_eq!(project.workspace.workspaces.len(), 2);
    assert_eq!(project.workspace.workspaces[0].directory, "project/packages/ui");
    assert_eq!(project.workspace.workspaces[1].directory, "project/packages/core");
}

#[test]
fn resolve_order_puts_dependencies_first() {
    let fs = scenario_fs();
    let root = Workspace::load(&fs, &"project".to_string()).unwrap();
    let order = carb::project::resolve_order(&root).unwrap();
    let names: Vec<&str> = order.iter().map(|p| p.name.as_str()).collect();
    assert_eq!(names, vec!["root", "core", "ui"]);
    assert_eq!(order[1].directory, "project/packages/core");
}

#[test]
fn parse_error_aborts_discovery() {
    let fs = FsSnapshot {
        dirs: vec![
            dir(
                "proj",
                Some(Ok(manifest(Some("root"), Some(vec!["pkg/*"]), None))),
                vec!["proj/pkg/bad"],
            ),
            dir(
                "proj/pkg/bad",
                Some(Err("expected value at line 1".to_string())),
                vec![],
            ),
        ],
    };
    let result = Workspace::load(&fs, &"proj".to_string());
    match result {
        Err(DiscoveryError::ManifestParseError { path }) => assert_eq!(path, "proj/pkg/bad"),
        other => panic!("expected a manifest parse error, got {:?}", other),
    }
}

#[test]
fn discovery_is_idempotent() {
    let fs = scenario_fs();
    let first = Workspace::load(&fs, &"project".to_string()).unwrap();
    let second = Workspace::load(&fs, &"project".to_string()).unwrap();
    assert_eq!(format!("{:?}", first), format!("{:?}", second));
}

#[test]
fn duplicate_matches_are_deduplicated() {
    let fs = FsSnapshot {
        dirs: vec![
            dir(
                "proj",
                Some(Ok(manifest(Some("root"), Some(vec!["a/*", "*/sub"]), None))),
                vec!["proj/a", "proj/a", "proj/a"],
            ),
            dir("proj/a", Some(Ok(manifest(Some("a"), None, None))), vec![]),
        ],
    };
    let root = Workspace::load(&fs, &"proj".to_string()).unwrap();
    assert_eq!(root.workspaces.len(), 1);
    assert_eq!(root.workspaces[0].directory, "proj/a");
}

#[test]
fn matches_without_manifest_are_skipped() {
    let fs = FsSnapshot {
        dirs: vec![
            dir(
                "proj",
                Some(Ok(manifest(Some("root"), Some(vec!["*"]), None))),
                vec!["proj/no_manifest", "proj/pkg"],
            ),
            dir("proj/no_manifest", None, vec![]),
            dir("proj/pkg", Some(Ok(manifest(Some("pkg"), None, None))), vec![]),
        ],
    };
    let root = Workspace::load(&fs, &"proj".to_string()).unwrap();
    assert_eq!(root.workspaces.len(), 1);
    assert_eq!(root.workspaces[0].directory, "proj/pkg");
}

#[test]
fn self_referential_match_fails_fast() {
    let fs = FsSnapshot {
        dirs: vec![dir(
            "proj",
            Some(Ok(manifest(Some("root"), Some(vec!["**"]), None))),
            vec!["proj"],
        )],
    };
    let result = Workspace::load(&fs, &"proj".to_string());
    match result {
        Err(DiscoveryError::SelfReferentialMatch { path }) => assert_eq!(path, "proj"),
        other => panic!("expected a self-referential match error, got {:?}", other),
    }
}

#[test]
fn no_manifest_found_reports_searched_path() {
    let fs = FsSnapshot { dirs: vec![dir("a/b", None, vec![])] };
    let ancestors = vec!["a/b".to_string(), "a".to_string()];
    match Project::find(&fs, &ancestors) {
        Err(DiscoveryError::NoManifestFound { searched }) => assert_eq!(searched, "a/b"),
        other => panic!("expected no manifest to be found, got {:?}", other),
    }
}

#[test]
fn find_selects_outermost_ancestor_with_manifest() {
    let fs = FsSnapshot {
        dirs: vec![
            dir("outer", Some(Ok(manifest(Some("outer"), None, None))), vec![]),
            dir("outer/inner", Some(Ok(manifest(Some("inner"), None, None))), vec![]),
        ],
    };
    let ancestors = vec!["outer/inner".to_string(), "outer".to_string()];
    let project = Project::find(&fs, &ancestors).unwrap();
    assert_eq!(project.directory, "outer");
    assert_eq!(project.workspace.package_json.name.as_deref(), Some("outer"));
}

#[test]
fn missing_root_manifest_is_reported() {
    let fs = FsSnapshot { dirs: vec![dir("proj", None, vec![])] };
    match Workspace::load(&fs, &"proj".to_string()) {
        Err(DiscoveryError::MissingManifest { path }) => assert_eq!(path, "proj"),
        other => panic!("expected a missing manifest error, got {:?}", other),
    }
}

#[test]
fn unnamed_packages_stay_out_of_the_order() {
    let fs = FsSnapshot {
        dirs: vec![
            dir(
                "proj",
                Some(Ok(manifest(None, Some(vec!["*"]), None))),
                vec!["proj/a"],
            ),
            dir("proj/a", Some(Ok(manifest(Some("a"), None, None))), vec![]),
        ],
    };
    let root = Workspace::load(&fs, &"proj".to_string()).unwrap();
    let order = carb::project::resolve_order(&root).unwrap();
    let names: Vec<&str> = order.iter().map(|p| p.name.as_str()).collect();
    assert_eq!(names, vec!["a"]);
}

#[test]
fn external_dependencies_are_ignored_by_the_graph() {
    let fs = FsSnapshot {
        dirs: vec![
            dir(
                "proj",
                Some(Ok(manifest(
                    Some("root"),
                    Some(vec!["*"]),
                    Some(vec![("left_pad", "^1.0.0")]),
                ))),
                vec!["proj/a"],
            ),
            dir("proj/a", Some(Ok(manifest(Some("a"), None, None))), vec![]),
        ],
    };
    let root = Workspace::load(&fs, &"proj".to_string()).unwrap();
    let order = carb::project::resolve_order(&root).unwrap();
    assert_eq!(order.len(), 2);
}

#[test]
fn dependency_names_follow_map_order() {
    let m = PackageJson {
        name: Some("p".to_string()),
        private: None,
        version: None,
        scripts: None,
        workspaces: None,
        dependencies: Some(vec![("a".to_string(), "1".to_string())]),
        dev_dependencies: Some(vec![("b".to_string(), "2".to_string())]),
        peer_dependencies: Some(vec![("c".to_string(), "3".to_string())]),
    };
    let names = m.dependency_names();
    assert_eq!(names, vec!["a".to_string(), "b".to_string(), "c".to_string()]);
}

#[test]
fn config_path_and_default() {
    assert_eq!(Config::get_config_path("/home/me/proj"), "/home/me/proj/.carb/config.yml");
    let config = Config::default();
    assert_eq!(config, Config { version: Version::Prerelease });
}

#[test]
fn dsm_error_carries_its_message() {
    let err = DSMError::IOError("file not found".to_string());
    assert_eq!(err.message(), "file not found");
}

#[test]
fn should_work() {
    let root_manifest = PackageJson {
        name: Some("root".to_string()),
        private: None,
        version: Some("0.0.0".to_string()),
        scripts: None,
        workspaces: Some(vec!["packages/*".to_string()]),
        dependencies: None,
        dev_dependencies: None,
        peer_dependencies: None,
    };
    let components_manifest = PackageJson {
        name: Some("components".to_string()),
        private: None,
        version: Some("1.0.0".to_string()),
        scripts: None,
        workspaces: None,
        dependencies: None,
        dev_dependencies: None,
        peer_dependencies: None,
    };
    let react_manifest = PackageJson {
        name: Some("react".to_string()),
        private: None,
        version: Some("2.0.0".to_string()),
        scripts: None,
        workspaces: None,
        dependencies: None,
        dev_dependencies: None,
        peer_dependencies: None,
    };
    let fs = FsSnapshot {
        dirs: vec![
            dir(
                "project",
                Some(Ok(root_manifest)),
                vec!["project/packages/components", "project/packages/react"],
            ),
            dir("project/packages", None, vec![]),
            dir("project/packages/components", Some(Ok(components_manifest)), vec![]),
            dir("project/packages/react", Some(Ok(react_manifest)), vec![]),
        ],
    };
    let ancestors = vec![
        "project/packages/react".to_string(),
        "project/packages".to_string(),
        "project".to_string(),
    ];
    let project = Project::find(&fs, &ancestors).unwrap();
    println!("{:?}", project);
    assert_eq!(project.directory, "project");
    assert_eq!(project.workspace.workspaces.len(), 2);
}

#[test]
fn resolve_order_is_repeatable() {
    let fs = scenario_fs();
    let root = Workspace::load(&fs, &"project".to_string()).unwrap();
    let first: Vec<String> =
        carb::project::resolve_order(&root).unwrap().into_iter().map(|p| p.name).collect();
    let second: Vec<String> =
        carb::project::resolve_order(&root).unwrap().into_iter().map(|p| p.name).collect();
    assert_eq!(first, second);
}
