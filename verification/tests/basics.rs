use proj::catalog::Catalog;
use proj::config::{default_categories, Config};
use proj::listing::format_sorted;
use proj::order::sorted_unique;
use proj::url::repo_name_from_url;

#[test]
fn test_repo_name_from_url_ssh() {
    assert_eq!(repo_name_from_url("git@github.com:user/my-repo.git"), "my-repo");
}

#[test]
fn test_repo_name_from_url_https() {
    assert_eq!(repo_name_from_url("https://github.com/user/my-repo.git"), "my-repo");
}

#[test]
fn test_repo_name_from_url_no_git_suffix() {
    assert_eq!(repo_name_from_url("git@github.com:user/my-repo"), "my-repo");
}

#[test]
fn test_repo_name_from_url_trailing_slash() {
    assert_eq!(repo_name_from_url("https://github.com/user/repo/"), "repo");
}

#[test]
fn test_config_default_rm_to() {
    let cfg = Config::default();
    assert_eq!(cfg.rm_to, "removed");
}

#[test]
fn test_config_default_init_to() {
    let cfg = Config::default();
    assert_eq!(cfg.init_to, "develop");
}

#[test]
fn test_config_default_clone_to() {
    let cfg = Config::default();
    assert_eq!(cfg.clone_to, "uncategorized");
}

#[test]
fn test_config_default_project_dir() {
    let cfg = Config::default();
    assert_eq!(cfg.project_dir, "~/Project");
}

#[test]
fn test_config_default_use_fzf() {
    let cfg = Config::default();
    assert!(!cfg.use_fzf);
}

#[test]
fn test_is_category_visible_all_visible_when_empty() {
    let cfg = Config {
        visible_categories: vec![],
        ..Config::default()
    };
    assert!(cfg.is_category_visible("anything"));
}

#[test]
fn test_is_category_visible_matches() {
    let cfg = Config {
        visible_categories: vec!["stable".into(), "develop".into()],
        ..Config::default()
    };
    assert!(cfg.is_category_visible("stable"));
    assert!(cfg.is_category_visible("develop"));
    assert!(!cfg.is_category_visible("archived"));
}

#[test]
fn test_format_sorted_order() {
    let mut projects = Catalog::new();
    projects.insert("z-project".into(), "stable".into());
    projects.insert("a-project".into(), "develop".into());
    projects.insert("m-project".into(), "stable".into());

    let out = format_sorted(&projects);
    let lines: Vec<&str> = out.trim().split('\n').collect();

    // Should be sorted by category then name
    assert_eq!(lines[0], "a-project: develop");
    assert_eq!(lines[1], "m-project: stable");
    assert_eq!(lines[2], "z-project: stable");
}

#[test]
fn test_known_categories_includes_config_values() {
    // The categories and settings written on first run.
    let cfg = Config::default();
    let cats = sorted_unique(&default_categories());
    assert!(cats.contains(&cfg.rm_to));
    assert!(cats.contains(&cfg.init_to));
    assert!(cats.contains(&cfg.clone_to));
}
