use sentrux::aliases::{
    apply_alias_transform, apply_path_alias, build_dir_replacement, collect_manifest_path_aliases,
    keep_first_aliases, load_path_aliases, parse_path_alias_config, path_alias_rules, plan_manifest_reads,
    plan_path_alias_reads, resolve_manifest_path, resolve_project_alias, try_load_project_aliases,
    DirEntry, PathAlias,
};
use sentrux::profile::{ConfigRead, ConfigSource, ResolverConfig};

fn config() -> ResolverConfig {
    ResolverConfig {
        module_prefix_file: String::new(),
        module_prefix_directive: String::new(),
        module_prefix_format: String::new(),
        module_prefix_json_paths: Vec::new(),
        namespace_separator: String::new(),
        alias_file: String::new(),
        alias_field: String::new(),
        alias_entry_point: String::new(),
        alias_transform: String::new(),
        source_root: String::new(),
        path_alias_file: String::new(),
        path_alias_field: String::new(),
        path_alias_base_url: String::new(),
    }
}

fn typescript() -> ResolverConfig {
    let mut c = config();
    c.alias_file = "package.json".to_string();
    c.alias_field = "name".to_string();
    c.path_alias_file = "tsconfig.json".to_string();
    c.path_alias_field = "compilerOptions.paths".to_string();
    c.path_alias_base_url = "compilerOptions.baseUrl".to_string();
    c
}

fn rust() -> ResolverConfig {
    let mut c = config();
    c.alias_file = "Cargo.toml".to_string();
    c.alias_field = "package.name".to_string();
    c.alias_transform = "hyphen_to_underscore".to_string();
    c.source_root = "src".to_string();
    c
}

fn alias(prefix: &str, replacements: &[&str]) -> PathAlias {
    PathAlias {
        prefix: prefix.to_string(),
        replacements: replacements.iter().map(|s| s.to_string()).collect(),
    }
}

fn found(s: &str) -> Option<String> {
    Some(s.to_string())
}

#[test]
fn a_prefix_is_replaced() {
    let aliases = vec![alias("@company/shared/", &["packages/shared/", "other/"])];
    assert_eq!(
        apply_path_alias("@company/shared/utils", &aliases),
        found("packages/shared/utils")
    );
    assert_eq!(apply_path_alias("@company/sharedutils", &aliases), None);
}

#[test]
fn a_whole_name_means_the_directory() {
    let aliases = vec![alias("@company/shared/", &["packages/shared/"])];
    assert_eq!(apply_path_alias("@company/shared", &aliases), found("packages/shared"));
    let root = vec![alias("own/", &[""])];
    assert_eq!(apply_path_alias("own", &root), None);
    assert_eq!(apply_path_alias("own/x", &root), found("x"));
}

#[test]
fn aliases_without_replacements_say_nothing() {
    let aliases = vec![alias("a/", &[]), alias("a/", &["b/"])];
    assert_eq!(apply_path_alias("a/x", &aliases), found("b/x"));
    assert_eq!(apply_path_alias("a", &aliases), found("b"));
}

#[test]
fn longer_aliases_are_tried_first() {
    let content = r#"{"compilerOptions":{"paths":{"@/*":["src/*"],"@/lib/*":["lib/*"],"*":["x"]}}}"#;
    let rules =
        parse_path_alias_config(content, "compilerOptions.paths", "compilerOptions.baseUrl")
            .unwrap();
    assert_eq!(rules, vec![alias("@/lib/", &["lib/"]), alias("@/", &["src/"])]);
    assert_eq!(apply_path_alias("@/lib/a", &rules), found("lib/a"));
    assert_eq!(apply_path_alias("@/a", &rules), found("src/a"));
}

#[test]
fn the_base_url_goes_before_replacements() {
    let content = r#"{"compilerOptions":{"baseUrl":"app/","paths":{"@/*":["./src/*",7]}}}"#;
    let rules =
        parse_path_alias_config(content, "compilerOptions.paths", "compilerOptions.baseUrl");
    assert_eq!(rules, Some(vec![alias("@/", &["app/src/"])]));
    let plain = parse_path_alias_config(content, "compilerOptions.paths", "");
    assert_eq!(plain, Some(vec![alias("@/", &["./src/"])]));
}

#[test]
fn no_aliases_is_nothing() {
    assert_eq!(parse_path_alias_config("{", "paths", ""), None);
    assert_eq!(parse_path_alias_config(r#"{"paths":1}"#, "paths", ""), None);
    assert_eq!(parse_path_alias_config(r#"{"paths":{"@/*":"x"}}"#, "paths", ""), None);
    assert_eq!(parse_path_alias_config(r#"{"paths":{"@/*":[]}}"#, "paths", ""), None);
    assert_eq!(path_alias_rules(&None, "paths", ""), None);
}

#[test]
fn a_project_takes_its_first_file_of_aliases() {
    let c = typescript();
    let one = r#"{"compilerOptions":{"paths":{"@/*":["one/*"]}}}"#;
    let two = r#"{"compilerOptions":{"paths":{"@/*":["two/*"]}}}"#;
    let source = |dir: &'static str, content: Option<&str>| ConfigSource {
        read: ConfigRead { project_dir: dir, config: &c },
        content: content.map(|s| s.to_string()),
    };
    assert_eq!(try_load_project_aliases(&source("a", None)), None);
    assert_eq!(
        try_load_project_aliases(&source("a", Some(one))),
        Some(vec![alias("@/", &["one/"])])
    );
    let sources = vec![
        source("a", Some("{}")),
        source("a", Some(one)),
        source("b", None),
        source("a", Some(two)),
    ];
    let table = load_path_aliases(&sources);
    assert_eq!(table.get("a"), Some(&vec![alias("@/", &["one/"])]));
    assert!(table.get("b").is_none());
}

#[test]
fn the_first_aliases_found_are_kept() {
    let found = vec![
        ("a".to_string(), None),
        ("a".to_string(), Some(vec![alias("@/", &["one/"])])),
        ("b".to_string(), Some(vec![])),
        ("a".to_string(), Some(vec![alias("@/", &["two/"])])),
    ];
    let table = keep_first_aliases(found);
    assert_eq!(table.get("a"), Some(&vec![alias("@/", &["one/"])]));
    assert_eq!(table.get("b"), Some(&vec![]));
    assert_eq!(table.len(), 2);
}

#[test]
fn reads_are_planned_plugin_by_plugin() {
    let roots = vec!["".to_string(), "p".to_string()];
    let profiles = vec![rust(), typescript(), config()];
    let paths: Vec<(&str, &str)> = plan_path_alias_reads(&roots, &profiles)
        .iter()
        .map(|r| (r.project_dir, r.config.path_alias_file.as_str()))
        .collect();
    assert_eq!(paths, vec![("", "tsconfig.json"), ("p", "tsconfig.json")]);
    let manifests: Vec<(&str, &str)> = plan_manifest_reads(&roots, &profiles)
        .iter()
        .map(|r| (r.project_dir, r.config.alias_file.as_str()))
        .collect();
    assert_eq!(
        manifests,
        vec![("", "Cargo.toml"), ("p", "Cargo.toml"), ("", "package.json"), ("p", "package.json")]
    );
}

#[test]
fn names_are_transformed() {
    assert_eq!(apply_alias_transform("my-crate-x", "hyphen_to_underscore"), "my_crate_x");
    assert_eq!(apply_alias_transform("my-crate", ""), "my-crate");
    assert_eq!(apply_alias_transform("my-crate", "upper"), "my-crate");
}

#[test]
fn directories_of_packages() {
    assert_eq!(build_dir_replacement("", ""), "");
    assert_eq!(build_dir_replacement("p", ""), "p/");
    assert_eq!(build_dir_replacement("", "src"), "src/");
    assert_eq!(build_dir_replacement("p", "src"), "p/src/");
}

#[test]
fn manifests_are_found_by_name_or_pattern() {
    let entry = |name: &str, is_file: bool| DirEntry { name: name.to_string(), is_file };
    let entries = vec![entry("d.csproj", false), entry("x.txt", true), entry("a.csproj", true)];
    assert_eq!(resolve_manifest_path("*.csproj", &entries, false), found("a.csproj"));
    assert_eq!(resolve_manifest_path("*.fsproj", &entries, true), None);
    assert_eq!(resolve_manifest_path("Cargo.toml", &entries, true), found("Cargo.toml"));
    assert_eq!(resolve_manifest_path("Cargo.toml", &entries, false), None);
}

#[test]
fn a_manifest_names_its_directory() {
    let c = rust();
    let content = found("[package]\nname = \"my-core\"\n");
    assert_eq!(
        resolve_project_alias("core", &c, &content),
        Some(alias("my_core/", &["core/src/"]))
    );
    assert_eq!(resolve_project_alias("core", &c, &None), None);
    assert_eq!(resolve_project_alias("core", &c, &found("[package]\nname = \"\"\n")), None);
    assert_eq!(resolve_project_alias("core", &c, &found("[workspace]\n")), None);
}

#[test]
fn a_project_is_named_once() {
    let r = rust();
    let t = typescript();
    let sources = vec![
        ConfigSource {
            read: ConfigRead { project_dir: "core", config: &r },
            content: found("[package]\nname = \"core\"\n"),
        },
        ConfigSource { read: ConfigRead { project_dir: "web", config: &r }, content: None },
        ConfigSource {
            read: ConfigRead { project_dir: "core", config: &t },
            content: found(r#"{"name":"second"}"#),
        },
        ConfigSource {
            read: ConfigRead { project_dir: "web", config: &t },
            content: found(r#"{"name":"@company/web"}"#),
        },
    ];
    assert_eq!(
        collect_manifest_path_aliases(&sources),
        vec![alias("@company/web/", &["web/"]), alias("core/", &["core/src/"])]
    );
}
