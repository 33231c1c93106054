use sentrux::document::Node;
use sentrux::manifest::split_json_path;
use sentrux::prefixes::{
    collect_module_prefixes, extract_json_prefix_map, extract_module_name_generic, join_dir,
    json_prefix_map, place_prefixes, plan_prefix_reads, read_prefixes,
};
use sentrux::profile::{ConfigRead, ConfigSource, ResolverConfig};

fn config() -> ResolverConfig {
    ResolverConfig {
        module_prefix_file: String::new(),
        module_prefix_directive: String::new(),
        module_prefix_format: String::new(),
        module_prefix_json_paths: Vec::new(),
        namespace_separator: String::new(),
        alias_file: String::new(),
        alias_field: String::new(),
        alias_entry_point: String::new(),
        alias_transform: String::new(),
        source_root: String::new(),
        path_alias_file: String::new(),
        path_alias_field: String::new(),
        path_alias_base_url: String::new(),
    }
}

fn go() -> ResolverConfig {
    let mut c = config();
    c.module_prefix_file = "go.mod".to_string();
    c.module_prefix_directive = "module".to_string();
    c
}

fn php() -> ResolverConfig {
    let mut c = config();
    c.module_prefix_file = "composer.json".to_string();
    c.module_prefix_format = "json_map".to_string();
    c.module_prefix_json_paths = vec!["autoload.psr-4".to_string()];
    c.namespace_separator = "\\".to_string();
    c
}

fn pair(a: &str, b: &str) -> (String, String) {
    (a.to_string(), b.to_string())
}

#[test]
fn json_prefix_map_psr4_basic() {
    // Typical composer.json PSR-4 autoload
    let content = r#"{"autoload":{"psr-4":{"App\\":"src/"}}}"#;
    let paths = vec!["autoload.psr-4".to_string()];
    let result = extract_json_prefix_map(content, &paths, "\\");
    assert_eq!(result, vec![("App".to_string(), "src".to_string())]);
}

#[test]
fn json_prefix_map_multiple_namespaces() {
    let content = r#"{
            "autoload": {
                "psr-4": {
                    "App\\": "src/",
                    "Database\\Factories\\": "database/factories/",
                    "Database\\Seeders\\": "database/seeders/"
                }
            }
        }"#;
    let paths = vec!["autoload.psr-4".to_string()];
    let result = extract_json_prefix_map(content, &paths, "\\");
    assert_eq!(result.len(), 3);
    assert!(result.contains(&("App".to_string(), "src".to_string())));
    assert!(result.contains(&("Database/Factories".to_string(), "database/factories".to_string())));
    assert!(result.contains(&("Database/Seeders".to_string(), "database/seeders".to_string())));
}

#[test]
fn json_prefix_map_with_dev_autoload() {
    let content = r#"{
            "autoload": {"psr-4": {"App\\": "src/"}},
            "autoload-dev": {"psr-4": {"Tests\\": "tests/"}}
        }"#;
    let paths = vec!["autoload.psr-4".to_string(), "autoload-dev.psr-4".to_string()];
    let result = extract_json_prefix_map(content, &paths, "\\");
    assert_eq!(result.len(), 2);
    assert!(result.contains(&("App".to_string(), "src".to_string())));
    assert!(result.contains(&("Tests".to_string(), "tests".to_string())));
}

#[test]
fn json_prefix_map_array_dirs() {
    // PSR-4 allows array of directories for a single namespace
    let content = r#"{"autoload":{"psr-4":{"App\\":["src/","lib/"]}}}"#;
    let paths = vec!["autoload.psr-4".to_string()];
    let result = extract_json_prefix_map(content, &paths, "\\");
    assert_eq!(result.len(), 2);
    assert!(result.contains(&("App".to_string(), "src".to_string())));
    assert!(result.contains(&("App".to_string(), "lib".to_string())));
}

#[test]
fn json_prefix_map_invalid_json() {
    let content = "not json at all";
    let paths = vec!["autoload.psr-4".to_string()];
    let result = extract_json_prefix_map(content, &paths, "\\");
    assert!(result.is_empty());
}

#[test]
fn json_prefix_map_missing_path() {
    let content = r#"{"autoload":{}}"#;
    let paths = vec!["autoload.psr-4".to_string()];
    let result = extract_json_prefix_map(content, &paths, "\\");
    assert!(result.is_empty());
}

#[test]
fn json_prefix_map_empty_namespace_sep() {
    // No separator conversion — namespace prefix kept as-is
    let content = r#"{"autoload":{"psr-4":{"App\\":"src/"}}}"#;
    let paths = vec!["autoload.psr-4".to_string()];
    let result = extract_json_prefix_map(content, &paths, "");
    // With empty sep, the backslash stays in the prefix
    assert_eq!(result.len(), 1);
    assert_eq!(result[0].0, "App\\");
    assert_eq!(result[0].1, "src");
}

#[test]
fn split_json_path_basic() {
    assert_eq!(split_json_path("autoload.psr-4"), vec!["autoload", "psr-4"]);
    assert_eq!(split_json_path("compilerOptions.paths"), vec!["compilerOptions", "paths"]);
    assert_eq!(split_json_path("name"), vec!["name"]);
}

#[test]
fn split_json_path_keeps_empty_segments() {
    assert_eq!(split_json_path(""), vec![""]);
    assert_eq!(split_json_path("a..b."), vec!["a", "", "b", ""]);
}

#[test]
fn json_prefix_map_skips_what_is_no_directory() {
    let content = r#"{"m":{"A":1,"B":["x/",2,"y"],"\\":"root/","C":"c//"}}"#;
    let paths = vec!["m".to_string()];
    let result = extract_json_prefix_map(content, &paths, "\\");
    assert_eq!(result, vec![pair("B", "x"), pair("B", "y"), pair("C", "c")]);
}

#[test]
fn json_prefix_map_of_a_given_document() {
    let inner = Node::Table(vec![(Node::Text("N::".to_string()), Node::Text("n/".to_string()))]);
    let document = Some(Node::Table(vec![(Node::Text("map".to_string()), inner)]));
    let result = json_prefix_map(&document, &vec!["map".to_string()], "::");
    assert_eq!(result, vec![pair("N", "n")]);
    assert!(json_prefix_map(&None, &vec!["map".to_string()], "::").is_empty());
}

#[test]
fn module_name_is_the_first_word_after_the_directive() {
    assert_eq!(
        extract_module_name_generic("// c\nmodule  github.com/u/r // x\n", "module"),
        Some("github.com/u/r".to_string())
    );
    assert_eq!(
        extract_module_name_generic("module \n  module second\n", "module"),
        Some("second".to_string())
    );
    assert_eq!(extract_module_name_generic("go 1.22\n", "module"), None);
}

#[test]
fn prefix_reads_are_planned_root_by_root() {
    let roots = vec!["".to_string(), "svc".to_string()];
    let mut no_directive = config();
    no_directive.module_prefix_file = "x.mod".to_string();
    let profiles = vec![go(), no_directive, config(), php()];
    let reads = plan_prefix_reads(&roots, &profiles);
    let got: Vec<(&str, &str)> = reads
        .iter()
        .map(|r| (r.project_dir, r.config.module_prefix_file.as_str()))
        .collect();
    assert_eq!(
        got,
        vec![
            ("", "go.mod"),
            ("", "composer.json"),
            ("svc", "go.mod"),
            ("svc", "composer.json"),
        ]
    );
}

#[test]
fn directories_of_maps_start_from_the_project() {
    assert_eq!(join_dir("", "src"), "src");
    assert_eq!(join_dir("svc", "src"), "svc/src");
    assert_eq!(place_prefixes("svc", &vec![pair("A", "x")]), vec![pair("A", "svc/x")]);
    let c = php();
    let content = r#"{"autoload":{"psr-4":{"App\\":"src/"}}}"#;
    assert_eq!(read_prefixes("svc", &c, content), vec![pair("App", "svc/src")]);
    assert_eq!(read_prefixes("", &c, content), vec![pair("App", "src")]);
    assert_eq!(read_prefixes("svc", &go(), "module m\n"), vec![pair("m", "svc")]);
    assert!(read_prefixes("svc", &config(), "module m\n").is_empty());
}

#[test]
fn longer_module_prefixes_come_first() {
    let g = go();
    let p = php();
    let sources = vec![
        ConfigSource {
            read: ConfigRead { project_dir: "a", config: &g },
            content: Some("module ab\n".to_string()),
        },
        ConfigSource { read: ConfigRead { project_dir: "gone", config: &g }, content: None },
        ConfigSource {
            read: ConfigRead { project_dir: "b", config: &p },
            content: Some(r#"{"autoload":{"psr-4":{"App\\X\\":"x/","Q\\":"q"}}}"#.to_string()),
        },
        ConfigSource {
            read: ConfigRead { project_dir: "c", config: &g },
            content: Some("module cd\n".to_string()),
        },
    ];
    assert_eq!(
        collect_module_prefixes(&sources),
        vec![pair("App/X", "b/x"), pair("ab", "a"), pair("cd", "c"), pair("Q", "b/q")]
    );
}
