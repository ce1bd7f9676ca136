use proj::catalog::Catalog;
use proj::commands::{
    check_categories, locate_project, mark_removed, move_many, move_project, prune, rename_project,
    new_project_step, target_category, GoError, MoveError, NewProjectStep, RenameError, RenameStep,
    Step,
};
use proj::config::{
    bool_text, default_categories, default_visible_categories, describe_config, plan_migration,
    Config, RootShape, SettingsDoc,
};
use proj::listing::{list_projects, ListOptions, Listing};
use proj::order::sorted_unique;
use proj::paths::{config_file_in, display_path_with, expand_tilde_with};
use proj::render::{decimal_text, plain_lines, Line, Style};
use proj::search::{find_lowered, find_projects, text_contains};
use proj::sync::{project_dirs, sync_catalog, DirEntry};
use proj::text::{join_texts, lex_less, same_text};
use proj::url::repo_name_from_url;
use proj::yaml::{catalog_from_yaml, catalog_to_yaml, categories_from_yaml, categories_to_yaml, parse_catalog};
use proj::yaml_value::{settings_doc_of, settings_migration, Yaml};

fn s(x: &str) -> String {
    x.to_string()
}

fn strings(xs: &[&str]) -> Vec<String> {
    xs.iter().map(|x| x.to_string()).collect()
}

fn catalog(pairs: &[(&str, &str)]) -> Catalog {
    let mut c = Catalog::new();
    for (n, k) in pairs {
        c.insert(s(n), s(k));
    }
    c
}

fn pairs(c: &Catalog) -> Vec<(String, String)> {
    c.to_pairs()
}

fn text(lines: &Vec<Line>) -> Vec<String> {
    plain_lines(lines)
}

#[test]
fn catalog_keeps_names_sorted_and_unique() {
    let mut c = catalog(&[("zeta", "a"), ("alpha", "b"), ("mid", "c")]);
    c.insert(s("alpha"), s("d"));
    assert_eq!(
        pairs(&c),
        vec![(s("alpha"), s("d")), (s("mid"), s("c")), (s("zeta"), s("a"))]
    );
    assert_eq!(c.len(), 3);
    assert!(c.contains_key("mid"));
    assert!(!c.contains_key("nope"));
    assert_eq!(c.get("zeta"), Some(&s("a")));
    assert_eq!(c.remove("mid"), Some(s("c")));
    assert_eq!(c.remove("mid"), None);
    assert_eq!(c.len(), 2);
}

#[test]
fn catalog_read_after_write() {
    let mut c = Catalog::new();
    c.insert(s("p"), s("develop"));
    assert_eq!(c.get("p"), Some(&s("develop")));
    c.insert(s("p"), s("stable"));
    assert_eq!(c.get("p"), Some(&s("stable")));
}

#[test]
fn text_order_is_by_characters() {
    assert!(lex_less("a", "b"));
    assert!(lex_less("ab", "abc"));
    assert!(!lex_less("abc", "ab"));
    assert!(!lex_less("x", "x"));
    assert!(lex_less("Z", "a"));
    assert!(same_text("ü", "ü"));
    assert!(!same_text("a", "ab"));
}

#[test]
fn join_and_decimal() {
    assert_eq!(join_texts(&strings(&["a", "b", "c"]), ", "), "a, b, c");
    assert_eq!(join_texts(&strings(&[]), ", "), "");
    assert_eq!(decimal_text(0), "0");
    assert_eq!(decimal_text(7), "7");
    assert_eq!(decimal_text(1205), "1205");
}

#[test]
fn repo_names() {
    assert_eq!(repo_name_from_url("x.git.git"), "x");
    assert_eq!(repo_name_from_url("plain"), "plain");
    assert_eq!(repo_name_from_url("https://h/u/r.git/"), "r.git");
    assert_eq!(repo_name_from_url("a///"), "a");
    assert_eq!(repo_name_from_url(""), "");
}

#[test]
fn defaults() {
    assert_eq!(default_visible_categories(), strings(&["develop", "stable", "uncategorized"]));
    assert_eq!(
        default_categories(),
        strings(&["develop", "stable", "uncategorized", "dormant", "archived", "removed"])
    );
    let c = Config::default();
    assert_eq!(c.sync_new_to, "uncategorized");
    assert_eq!(c.sync_missing_to, "removed");
    assert!(!c.no_git);
    assert_eq!(bool_text(true), "true");
}

#[test]
fn sorted_unique_dedups() {
    assert_eq!(sorted_unique(&strings(&["b", "a", "b", "c", "a"])), strings(&["a", "b", "c"]));
}

#[test]
fn project_dirs_skip_hidden_and_files() {
    let entries = vec![
        DirEntry { name: s("blog"), is_dir: true },
        DirEntry { name: s(".git"), is_dir: true },
        DirEntry { name: s("notes.txt"), is_dir: false },
        DirEntry { name: s("api"), is_dir: true },
    ];
    assert_eq!(project_dirs(&entries), strings(&["blog", "api"]));
}

#[test]
fn sync_adds_new_and_marks_missing() {
    let cfg = Config::default();
    let mut c = catalog(&[("keep", "stable"), ("gone", "develop"), ("old", "removed")]);
    let report = sync_catalog(&mut c, &strings(&["keep", "fresh", "fresh"]), &cfg);
    assert_eq!(report.added, strings(&["fresh"]));
    assert_eq!(report.missing, strings(&["gone"]));
    assert_eq!(
        pairs(&c),
        vec![
            (s("fresh"), s("uncategorized")),
            (s("gone"), s("removed")),
            (s("keep"), s("stable")),
            (s("old"), s("removed")),
        ]
    );
    // A second sync against the same directories changes nothing.
    let before = pairs(&c);
    let again = sync_catalog(&mut c, &strings(&["keep", "fresh"]), &cfg);
    assert!(again.added.is_empty());
    assert!(again.missing.is_empty());
    assert_eq!(pairs(&c), before);
}

#[test]
fn move_project_cases() {
    let reg = default_categories();
    let mut c = catalog(&[("p", "develop")]);
    assert_eq!(move_project(&mut c, "q", "stable", &reg, "removed", None), Err(MoveError::NotFound));
    assert_eq!(move_project(&mut c, "p", "nope", &reg, "removed", None), Err(MoveError::Unregistered));
    assert_eq!(move_project(&mut c, "p", "stable", &reg, "removed", None), Ok(Step::CheckDisk));
    assert_eq!(c.get("p"), Some(&s("develop")));
    assert_eq!(
        move_project(&mut c, "p", "stable", &reg, "removed", Some(false)),
        Err(MoveError::MissingDirectory)
    );
    assert_eq!(move_project(&mut c, "p", "stable", &reg, "removed", Some(true)), Ok(Step::Done));
    assert_eq!(c.get("p"), Some(&s("stable")));
    assert_eq!(move_project(&mut c, "p", "removed", &reg, "removed", None), Ok(Step::Done));
    assert_eq!(c.get("p"), Some(&s("removed")));
}

#[test]
fn rename_cases() {
    let mut c = catalog(&[("a", "develop"), ("b", "stable")]);
    assert_eq!(rename_project(&mut c, "x", "y", None), Err(RenameError::NotFound));
    assert_eq!(rename_project(&mut c, "a", "b", None), Err(RenameError::AlreadyRegistered));
    assert_eq!(rename_project(&mut c, "a", "c", None), Ok(RenameStep::CheckDisk));
    assert_eq!(rename_project(&mut c, "a", "c", Some((true, true))), Err(RenameError::ExistsOnDisk));
    assert_eq!(
        rename_project(&mut c, "a", "c", Some((true, false))),
        Ok(RenameStep::Renamed { move_directory: true })
    );
    assert_eq!(pairs(&c), vec![(s("b"), s("stable")), (s("c"), s("develop"))]);
    assert_eq!(
        rename_project(&mut c, "c", "d", Some((false, true))),
        Ok(RenameStep::Renamed { move_directory: false })
    );
    assert_eq!(c.get("d"), Some(&s("develop")));
}

#[test]
fn move_many_cases() {
    let reg = default_categories();
    let mut c = catalog(&[("a", "develop"), ("b", "develop"), ("c", "develop")]);
    let names = strings(&["a", "zz", "b"]);
    assert_eq!(
        move_many(&mut c, "nope", &names, &reg, "removed", None).map(|r| r.is_some()),
        Err(MoveError::Unregistered)
    );
    assert_eq!(move_many(&mut c, "stable", &names, &reg, "removed", None).map(|r| r.is_some()), Ok(false));
    let flags = vec![true, false, false];
    let res = move_many(&mut c, "stable", &names, &reg, "removed", Some(&flags)).unwrap().unwrap();
    assert_eq!(res, vec![Ok(()), Err(MoveError::NotFound), Err(MoveError::MissingDirectory)]);
    assert_eq!(
        pairs(&c),
        vec![(s("a"), s("stable")), (s("b"), s("develop")), (s("c"), s("develop"))]
    );
    // To the removal category no directory is needed.
    let res = move_many(&mut c, "removed", &names, &reg, "removed", None).unwrap().unwrap();
    assert_eq!(res, vec![Ok(()), Err(MoveError::NotFound), Ok(())]);
    assert_eq!(c.get("b"), Some(&s("removed")));
}

#[test]
fn mark_removed_cases() {
    let mut c = catalog(&[("a", "develop"), ("b", "stable")]);
    let found = mark_removed(&mut c, &strings(&["a", "x"]), "removed");
    assert_eq!(found, vec![true, false]);
    assert_eq!(pairs(&c), vec![(s("a"), s("removed")), (s("b"), s("stable"))]);
}

#[test]
fn prune_cases() {
    let mut c = catalog(&[("a", "removed"), ("b", "removed"), ("c", "stable"), ("d", "removed")]);
    let pruned = prune(&mut c, "removed", &strings(&["b", "c"]));
    assert_eq!(pruned, strings(&["a", "d"]));
    assert_eq!(pairs(&c), vec![(s("b"), s("removed")), (s("c"), s("stable"))]);
    let none = prune(&mut c, "removed", &strings(&["b"]));
    assert!(none.is_empty());
}

#[test]
fn remove_then_prune_forgets() {
    let mut c = catalog(&[("old", "develop"), ("kept", "stable")]);
    mark_removed(&mut c, &strings(&["old"]), "removed");
    prune(&mut c, "removed", &strings(&["kept"]));
    assert_eq!(pairs(&c), vec![(s("kept"), s("stable"))]);
}

#[test]
fn target_category_cases() {
    let reg = default_categories();
    assert_eq!(target_category(None, "develop", &reg), Ok(s("develop")));
    assert_eq!(target_category(Some("stable"), "develop", &reg), Ok(s("stable")));
    assert_eq!(target_category(Some("nope"), "develop", &reg), Err(s("nope")));
}

#[test]
fn check_categories_cases() {
    let reg = default_categories();
    let good = catalog(&[("a", "develop"), ("b", "stable")]);
    assert_eq!(check_categories(&good, &reg), Ok(()));
    let bad = catalog(&[("z", "weird"), ("b", "bogus"), ("a", "develop")]);
    assert_eq!(check_categories(&bad, &reg), Err((s("b"), s("bogus"))));
}

#[test]
fn locate_cases() {
    let c = catalog(&[("a", "develop")]);
    assert_eq!(locate_project(&c, "x", None), Err(GoError::NotFound));
    assert_eq!(locate_project(&c, "a", None), Ok(Step::CheckDisk));
    assert_eq!(locate_project(&c, "a", Some(false)), Err(GoError::MissingDirectory));
    assert_eq!(locate_project(&c, "a", Some(true)), Ok(Step::Done));
}

fn opts(names: bool, flat: bool, cats: bool, all: bool) -> ListOptions {
    ListOptions { names, flat, cats, all }
}

fn listed(cfg: &Config, c: &Catalog, o: &ListOptions, filter: Option<&str>, on_disk: &[&str]) -> Vec<String> {
    match list_projects(cfg, c, o, filter, &strings(on_disk)) {
        Listing::NoProjects => vec![s("<none>")],
        Listing::Lines(ls) => text(&ls),
    }
}

#[test]
fn list_empty_catalog() {
    let cfg = Config::default();
    assert_eq!(listed(&cfg, &Catalog::new(), &opts(false, false, false, false), None, &[]), vec![s("<none>")]);
}

#[test]
fn list_names_and_flat() {
    let cfg = Config::default();
    let c = catalog(&[("web", "stable"), ("api", "develop"), ("junk", "archived")]);
    assert_eq!(listed(&cfg, &c, &opts(true, false, false, false), None, &[]), strings(&["api", "web"]));
    assert_eq!(
        listed(&cfg, &c, &opts(true, false, false, true), None, &[]),
        strings(&["api", "junk", "web"])
    );
    assert_eq!(
        listed(&cfg, &c, &opts(false, true, false, true), None, &[]),
        strings(&["archived/junk", "develop/api", "stable/web"])
    );
    assert_eq!(
        listed(&cfg, &c, &opts(false, true, false, false), Some("archived"), &[]),
        strings(&["archived/junk"])
    );
}

#[test]
fn list_tree_default() {
    let cfg = Config::default();
    let c = catalog(&[("web", "stable"), ("api", "develop"), ("cli", "develop"), ("junk", "archived")]);
    let out = listed(&cfg, &c, &opts(false, false, false, false), None, &["api", "web"]);
    assert_eq!(
        out,
        strings(&[
            "proj",
            "├── develop",
            "│   ├── api",
            "│   └── cli  (missing)",
            "├── stable",
            "│   └── web",
            "└── uncategorized",
        ])
    );
}

#[test]
fn list_tree_counts_and_all() {
    let cfg = Config::default();
    let c = catalog(&[("web", "stable"), ("api", "develop"), ("junk", "archived")]);
    let out = listed(&cfg, &c, &opts(false, false, true, true), None, &[]);
    assert_eq!(
        out,
        strings(&[
            "proj",
            "├── archived (1)",
            "├── develop (1)",
            "├── removed (0)",
            "├── stable (1)",
            "└── uncategorized (0)",
        ])
    );
}

#[test]
fn list_single_category() {
    let cfg = Config::default();
    let c = catalog(&[("web", "stable"), ("api", "develop"), ("cli", "develop")]);
    let out = listed(&cfg, &c, &opts(false, false, false, false), Some("develop"), &["api", "cli"]);
    assert_eq!(out, strings(&["develop", "├── api", "└── cli"]));
    let counts = listed(&cfg, &c, &opts(false, false, true, false), Some("develop"), &[]);
    assert_eq!(counts, strings(&["develop (2)"]));
    let none = listed(&cfg, &c, &opts(false, false, false, false), Some("archived"), &[]);
    assert_eq!(none, strings(&["No projects in category 'archived'"]));
}

#[test]
fn list_category_argument_overrides_visibility() {
    let cfg = Config::default();
    let c = catalog(&[("old", "archived")]);
    let out = listed(&cfg, &c, &opts(false, false, false, false), Some("archived"), &["old"]);
    assert_eq!(out, strings(&["archived", "└── old"]));
    let hidden = listed(&cfg, &c, &opts(false, false, false, false), None, &["old"]);
    assert!(!hidden.iter().any(|l| l.contains("archived")));
}

#[test]
fn list_styles() {
    let cfg = Config::default();
    let c = catalog(&[("api", "develop")]);
    match list_projects(&cfg, &c, &opts(false, false, false, false), Some("develop"), &vec![]) {
        Listing::Lines(ls) => {
            assert_eq!(ls[0][0].style, Style::Category);
            assert_eq!(ls[1].len(), 3);
            assert_eq!(ls[1][2].style, Style::Dim);
            assert_eq!(ls[1][2].text, "(missing)");
        }
        Listing::NoProjects => panic!("expected lines"),
    }
}

#[test]
fn find_is_case_insensitive() {
    let c = catalog(&[("My-Repo", "stable"), ("other", "develop"), ("repository", "develop")]);
    let out = text(&find_projects(&c, "REPO", &strings(&["My-Repo", "repository"])));
    assert_eq!(
        out,
        strings(&["Search Terms: REPO", "├── develop", "│   └── repository", "└── stable", "    └── My-Repo"])
    );
    let none = text(&find_projects(&c, "zzz", &vec![]));
    assert_eq!(none, strings(&["Search Terms: zzz", "  No results found."]));
}

#[test]
fn substring_search() {
    assert!(text_contains("hello", "ell"));
    assert!(text_contains("hello", ""));
    assert!(!text_contains("he", "hello"));
    assert!(!text_contains("hello", "elo"));
}

#[test]
fn describe_config_lines() {
    let cfg = Config::default();
    let lines = describe_config(&cfg, &strings(&["develop", "stable"]));
    assert_eq!(
        lines,
        strings(&[
            "rm_to:           removed",
            "init_to:         develop",
            "clone_to:        uncategorized",
            "sync_new_to:     uncategorized",
            "sync_missing_to: removed",
            "use_fzf:         false",
            "no_git:          false",
            "project_dir:     ~/Project",
            "visible_categories: [develop, stable, uncategorized]",
            "categories:        [develop, stable]",
        ])
    );
    let bare = Config { visible_categories: vec![], ..Config::default() };
    assert_eq!(describe_config(&bare, &vec![]).len(), 8);
}

#[test]
fn migration_from_old_flags() {
    let doc = SettingsDoc {
        shape: RootShape::Mapping,
        cat_visible: Some(Some(vec![
            (Some(s("develop")), Some(true)),
            (Some(s("archived")), Some(false)),
            (None, Some(true)),
            (Some(s("stable")), None),
        ])),
        has_visible_categories: false,
    };
    let p = plan_migration(&doc);
    assert_eq!(p.set_visible, Some(strings(&["develop", ""])));
    assert!(p.drop_cat_visible);
    assert!(p.migrated);
}

#[test]
fn migration_cases() {
    let missing = SettingsDoc { shape: RootShape::Null, cat_visible: None, has_visible_categories: false };
    let p = plan_migration(&missing);
    assert_eq!(p.set_visible, Some(default_visible_categories()));
    assert!(!p.drop_cat_visible);
    assert!(p.migrated);
    let current = SettingsDoc { shape: RootShape::Mapping, cat_visible: None, has_visible_categories: true };
    let p = plan_migration(&current);
    assert_eq!(p.set_visible, None);
    assert!(!p.migrated);
    let none_on = SettingsDoc {
        shape: RootShape::Mapping,
        cat_visible: Some(Some(vec![(Some(s("x")), Some(false))])),
        has_visible_categories: true,
    };
    let p = plan_migration(&none_on);
    assert_eq!(p.set_visible, None);
    assert!(p.drop_cat_visible);
    assert!(p.migrated);
    let not_map = SettingsDoc { shape: RootShape::Mapping, cat_visible: Some(None), has_visible_categories: false };
    let p = plan_migration(&not_map);
    assert_eq!(p.set_visible, Some(default_visible_categories()));
    assert!(p.drop_cat_visible);
}

#[test]
fn settings_migration_from_text() {
    let old = "rm_to: removed\ncat_visible:\n  develop: true\n  archived: false\n  7: true\n";
    let p = settings_migration(old).unwrap();
    assert_eq!(p.set_visible, Some(strings(&["develop", ""])));
    assert!(p.drop_cat_visible);
    assert!(p.migrated);

    let empty = settings_migration("").unwrap();
    assert_eq!(empty.set_visible, Some(default_visible_categories()));
    assert!(!empty.drop_cat_visible);
    assert!(empty.migrated);

    let broken = settings_migration("rm_to: [unclosed\n").unwrap();
    assert_eq!(broken.set_visible, Some(default_visible_categories()));
    assert!(broken.migrated);

    let odd_flags = settings_migration("cat_visible: yes\nvisible_categories: []\n").unwrap();
    assert_eq!(odd_flags.set_visible, None);
    assert!(odd_flags.drop_cat_visible);
    assert!(odd_flags.migrated);

    assert!(settings_migration("- develop\n- stable\n").is_none());
    assert!(settings_migration("just text\n").is_none());
}

#[test]
fn settings_read_from_tagged_roots() {
    let tagged = settings_migration("!cfg {visible_categories: [develop]}\n").unwrap();
    assert_eq!(tagged.set_visible, None);
    assert!(!tagged.migrated);
    let tagged_null = Yaml::Tagged(s("!x"), Box::new(Yaml::Null));
    assert_eq!(settings_doc_of(&tagged_null).shape, RootShape::Other);
    let flags = Yaml::Mapping(vec![
        (Yaml::Str(s("cat_visible")), Yaml::Mapping(vec![
            (Yaml::Tagged(s("!k"), Box::new(Yaml::Str(s("stable")))), Yaml::Bool(true)),
            (Yaml::Number(s("3")), Yaml::Str(s("yes"))),
        ])),
        (Yaml::Tagged(s("!t"), Box::new(Yaml::Str(s("visible_categories")))), Yaml::Null),
    ]);
    let d = settings_doc_of(&flags);
    assert_eq!(d.shape, RootShape::Mapping);
    assert_eq!(d.cat_visible, Some(Some(vec![(Some(s("stable")), Some(true)), (None, None)])));
    assert!(!d.has_visible_categories);
}

#[test]
fn settings_migrated_once_stay_put() {
    let first = settings_migration("cat_visible:\n  stable: true\n").unwrap();
    assert_eq!(first.set_visible, Some(strings(&["stable"])));
    let again = settings_migration("visible_categories:\n- stable\n").unwrap();
    assert_eq!(again.set_visible, None);
    assert!(!again.drop_cat_visible);
    assert!(!again.migrated);
}

#[test]
fn tilde_paths() {
    assert_eq!(expand_tilde_with("~/Project", Some("/home/u")), "/home/u/Project");
    assert_eq!(expand_tilde_with("~", Some("/home/u")), "/home/u");
    assert_eq!(expand_tilde_with("~x", Some("/home/u")), "~x");
    assert_eq!(expand_tilde_with("/abs", Some("/home/u")), "/abs");
    assert_eq!(expand_tilde_with("~/p", None), "~/p");
    assert_eq!(display_path_with("/home/u/Project", Some("/home/u"), true), "~/Project/");
    assert_eq!(display_path_with("/home/u/f.txt", Some("/home/u"), false), "~/f.txt");
    assert_eq!(display_path_with("/srv/x", Some("/home/u"), true), "/srv/x");
    assert_eq!(display_path_with("/home/user/x", Some("/home/u"), true), "/home/user/x");
}

#[test]
fn yaml_catalog_round_trip() {
    let c = catalog(&[("web", "stable"), ("api", "develop")]);
    let text = catalog_to_yaml(&c).unwrap();
    assert_eq!(text, "api: develop\nweb: stable\n");
    let back = catalog_from_yaml(&text);
    assert_eq!(pairs(&back), pairs(&c));
    assert_eq!(pairs(&catalog_from_yaml("not: [valid")), vec![]);
    assert!(parse_catalog("- a\n- b\n").is_err());
    assert_eq!(pairs(&catalog_from_yaml("b: x\na: y\n")), vec![(s("a"), s("y")), (s("b"), s("x"))]);
}

#[test]
fn yaml_categories() {
    let cats = default_categories();
    let text = categories_to_yaml(&cats).unwrap();
    assert_eq!(categories_from_yaml(&text), cats);
    assert!(categories_from_yaml("a: b").is_empty());
}

#[test]
fn config_file_locations() {
    assert_eq!(
        config_file_in(Some("/home/u/.cfg"), Some("/home/u"), "config.yaml"),
        Some(s("/home/u/.cfg/proj/config.yaml"))
    );
    assert_eq!(
        config_file_in(None, Some("/home/u"), "projects.yaml"),
        Some(s("/home/u/.config/proj/projects.yaml"))
    );
    assert_eq!(config_file_in(None, None, "config.yaml"), None);
}

#[test]
fn new_project_steps() {
    assert_eq!(new_project_step(true, false, None), NewProjectStep::AlreadyExists);
    assert_eq!(new_project_step(true, true, Some(true)), NewProjectStep::AlreadyExists);
    assert_eq!(new_project_step(false, true, None), NewProjectStep::WithoutGit { warn: false });
    assert_eq!(new_project_step(false, false, None), NewProjectStep::CheckGit);
    assert_eq!(new_project_step(false, false, Some(true)), NewProjectStep::WithGit);
    assert_eq!(new_project_step(false, false, Some(false)), NewProjectStep::WithoutGit { warn: true });
}

#[test]
fn find_on_given_lowercase_forms() {
    let c = catalog(&[("Alpha", "develop"), ("beta", "stable")]);
    let lowered = strings(&["ALPHA-lc", "beta"]);
    let out = text(&find_lowered(&c, "Q", "lc", &lowered, &strings(&["Alpha"])));
    assert_eq!(out, strings(&["Search Terms: Q", "└── develop", "    └── Alpha"]));
    let none = text(&find_lowered(&c, "Q", "gamma", &lowered, &vec![]));
    assert_eq!(none, strings(&["Search Terms: Q", "  No results found."]));
}
