use std::collections::HashSet;

use edlint_config::find_config::CONFIG_NAMES;
use edlint_config::{find_config, ConfigError};

fn files(paths: &[&str]) -> HashSet<String> {
    paths.iter().map(|p| p.to_string()).collect()
}

#[test]
fn test_find_config() {
    let crate_root = "/work/packages/config/src/fixtures/project-root";
    let existing = files(&["/work/packages/config/src/fixtures/project-root/.edlintrc.yaml"]);
    let config_path = find_config(crate_root, |p: &str| existing.contains(p)).unwrap();
    assert_eq!(
        config_path,
        "/work/packages/config/src/fixtures/project-root/.edlintrc.yaml",
        "Config find file in the project root"
    );
}

#[test]
fn test_find_config_not_found() {
    let crate_root = "/work/packages/config/src/fixtures";
    let existing = files(&["/work/packages/config/src/fixtures/project-root/.edlintrc.yaml"]);
    let config_path = find_config(crate_root, |p: &str| existing.contains(p));
    assert!(config_path.is_err(), "Config not found in the root");
    assert!(matches!(config_path, Err(ConfigError::ConfigNotFound)));
}

#[test]
fn test_find_config_in_parent_dir() {
    let crate_root = "/work/packages/config/src/fixtures/project-root/subdir";
    let existing = files(&["/work/packages/config/src/fixtures/project-root/.edlintrc.yaml"]);
    let config_path = find_config(crate_root, |p: &str| existing.contains(p)).unwrap();
    assert_eq!(
        config_path,
        "/work/packages/config/src/fixtures/project-root/.edlintrc.yaml",
        "Config found in the parent dir"
    );
}

#[test]
fn find_config_prefers_names_in_order() {
    let existing = files(&["/p/.edlintrc.yml", "/p/.edlintrc", "/p/.edlintrc.json"]);
    let config_path = find_config("/p", |p: &str| existing.contains(p)).unwrap();
    assert_eq!(config_path, "/p/.edlintrc.json");
    let existing = files(&["/p/.edlintrc.yml", "/p/.edlintrc.yaml"]);
    let config_path = find_config("/p", |p: &str| existing.contains(p)).unwrap();
    assert_eq!(config_path, "/p/.edlintrc.yaml");
}

#[test]
fn find_config_nearest_directory_wins() {
    let existing = files(&["/a/.edlintrc.json", "/a/b/.edlintrc.yml"]);
    let config_path = find_config("/a/b/c", |p: &str| existing.contains(p)).unwrap();
    assert_eq!(config_path, "/a/b/.edlintrc.yml");
}

#[test]
fn find_config_reaches_the_root() {
    let existing = files(&["/.edlintrc"]);
    let config_path = find_config("/a/b", |p: &str| existing.contains(p)).unwrap();
    assert_eq!(config_path, "/.edlintrc");
}

#[test]
fn find_config_probes_every_name_up_to_the_root() {
    let probed = std::cell::RefCell::new(Vec::new());
    let res = find_config("/a/b", |p: &str| {
        probed.borrow_mut().push(p.to_string());
        false
    });
    assert!(matches!(res, Err(ConfigError::ConfigNotFound)));
    let mut expected = Vec::new();
    for dir in ["/a/b/", "/a/", "/"] {
        for name in CONFIG_NAMES {
            expected.push(format!("{}{}", dir, name));
        }
    }
    assert_eq!(*probed.borrow(), expected);
}

#[test]
fn find_config_relative_directory() {
    let existing = files(&["project/.edlintrc.json"]);
    let config_path = find_config("project/sub", |p: &str| existing.contains(p)).unwrap();
    assert_eq!(config_path, "project/.edlintrc.json");
    let existing = files(&[".edlintrc.yaml"]);
    let config_path = find_config("project", |p: &str| existing.contains(p)).unwrap();
    assert_eq!(config_path, ".edlintrc.yaml");
}
