use sentrux::aliases::PathAlias;
use sentrux::imports::{
    candidate_specifiers, clean_specifier, collect_known_files, list_known_files,
    prepare_resolution, resolve_file_imports, resolve_module_import, resolve_path_imports_ref,
    resolve_single_specifier, resolve_tier2_imports, sorted_extensions, wanted_specifiers,
    ImportingFile, Lookup, Resolution, ResolutionSources, ResolutionStats, ResolveEnv,
};
use sentrux::modules::{
    add_module_suffixes, build_module_suffix_index, dir_package_exts, entry_project_dir,
    extract_manifest_alias, inject_manifest_name_aliases, is_entry_file, plan_alias_reads,
    AliasRead, AliasSource, LangPackages, ModuleFile, SuffixIndex,
};
use sentrux::profile::{ConfigRead, ConfigSource, ResolverConfig};
use sentrux::table::{NameSet, Table};
use sentrux::types::{FileNode, ImportEdge, StructuralAnalysis};

fn config() -> ResolverConfig {
    ResolverConfig {
        module_prefix_file: String::new(),
        module_prefix_directive: String::new(),
        module_prefix_format: String::new(),
        module_prefix_json_paths: Vec::new(),
        namespace_separator: String::new(),
        alias_file: "Cargo.toml".to_string(),
        alias_field: "package.name".to_string(),
        alias_entry_point: "src/lib.rs".to_string(),
        alias_transform: "hyphen_to_underscore".to_string(),
        source_root: "src".to_string(),
        path_alias_file: String::new(),
        path_alias_field: String::new(),
        path_alias_base_url: String::new(),
    }
}

fn file(path: &str, imports: &[&str]) -> FileNode {
    FileNode {
        path: path.to_string(),
        is_dir: false,
        lang: "rust".to_string(),
        sa: Some(StructuralAnalysis {
            functions: None,
            cls: None,
            imp: Some(imports.iter().map(|s| s.to_string()).collect()),
            co: None,
        }),
    }
}

fn nowhere() -> Lookup {
    Lookup {
        relative: None,
        joined: String::new(),
        from_root: String::new(),
        suffix: None,
        dir_name: None,
        root_name: None,
    }
}

fn named(path: &str) -> Lookup {
    let mut l = nowhere();
    l.dir_name = Some(path.to_string());
    l
}

fn names(list: &[&str]) -> NameSet {
    let mut set = NameSet::new();
    for n in list {
        set.insert(n);
    }
    set
}

fn env() -> ResolveEnv {
    ResolveEnv {
        known_files: NameSet::new(),
        project_map: Table::new(),
        suffix_index: SuffixIndex {
            index: Table::new(),
            manifest_name_aliases: Table::new(),
            module_prefixes: Vec::new(),
        },
        path_aliases: Table::new(),
    }
}

fn rule(prefix: &str, to: &str) -> PathAlias {
    PathAlias { prefix: prefix.to_string(), replacements: vec![to.to_string()] }
}

fn edge(from: &str, to: &str) -> ImportEdge {
    ImportEdge { from_file: from.to_string(), to_file: to.to_string() }
}

fn found(s: &str) -> Option<String> {
    Some(s.to_string())
}

// Suffix index

#[test]
fn a_module_path_has_every_suffix() {
    let mut index: Table<Vec<String>> = Table::new();
    add_module_suffixes(&mut index, "a/b/c", "a/b/c.py");
    for key in ["a/b/c", "b/c", "c"] {
        assert_eq!(index.get(key), Some(&vec!["a/b/c.py".to_string()]));
    }
    assert_eq!(index.len(), 3);
    add_module_suffixes(&mut index, "x//c/", "f");
    assert_eq!(index.get("c/"), Some(&vec!["f".to_string()]));
    assert_eq!(index.get("/c/"), Some(&vec!["f".to_string()]));
    assert!(index.get("").is_none());
    add_module_suffixes(&mut index, "z/c", "z/c.py");
    assert_eq!(index.get("c"), Some(&vec!["a/b/c.py".to_string(), "z/c.py".to_string()]));
}

#[test]
fn directories_of_packages_are_indexed() {
    let langs = vec![
        LangPackages { directory_is_package: true, extensions: vec!["go".to_string()] },
        LangPackages { directory_is_package: false, extensions: vec!["py".to_string()] },
    ];
    assert_eq!(dir_package_exts(&langs), vec!["go".to_string()]);
    let files = vec![
        ModuleFile {
            path: "internal/config/load.go".to_string(),
            module: "internal/config/load".to_string(),
        },
        ModuleFile { path: "pkg/util.py".to_string(), module: "pkg/util".to_string() },
        ModuleFile { path: "main.go".to_string(), module: "main".to_string() },
        ModuleFile { path: "none.go".to_string(), module: String::new() },
    ];
    let c = config();
    let sources = vec![AliasSource {
        read: AliasRead { file_path: "core/src/lib.rs", config: &c },
        manifest_name: "Cargo.toml".to_string(),
        content: found("[package]\nname = \"my-core\"\n"),
    }];
    let index = build_module_suffix_index(&files, &langs, &Vec::new(), &sources);
    let load = vec!["internal/config/load.go".to_string()];
    assert_eq!(index.index.get("internal/config"), Some(&load));
    assert_eq!(index.index.get("config"), Some(&load));
    assert_eq!(index.index.get("load"), Some(&load));
    assert!(index.index.get("pkg").is_none());
    assert_eq!(index.index.get("main"), Some(&vec!["main.go".to_string()]));
    assert_eq!(
        index.manifest_name_aliases.get("my_core"),
        Some(&vec!["core/src/lib.rs".to_string()])
    );
    assert!(index.module_prefixes.is_empty());
}

#[test]
fn entry_files_are_told_by_their_ending() {
    assert!(is_entry_file("core/src/lib.rs", "src/lib.rs"));
    assert!(is_entry_file("xsrc/lib.rs", "src/lib.rs"));
    assert!(!is_entry_file("core/lib.rs", "src/lib.rs"));
    assert!(!is_entry_file("core/xlib.rs", "lib.rs"));
    assert_eq!(entry_project_dir("core/src/lib.rs", "src/lib.rs"), "core");
    assert_eq!(entry_project_dir("src/lib.rs", "src/lib.rs"), "");
    assert_eq!(entry_project_dir("other.rs", "src/lib.rs"), "");
}

#[test]
fn entry_files_are_planned() {
    let known = vec!["a/src/lib.rs".to_string(), "a/x.rs".to_string(), "src/lib.rs".to_string()];
    let mut without = config();
    without.alias_field = String::new();
    let profiles = vec![without, config()];
    let files: Vec<&str> = plan_alias_reads(&known, &profiles).iter().map(|r| r.file_path).collect();
    assert_eq!(files, vec!["a/src/lib.rs", "src/lib.rs"]);
}

#[test]
fn manifests_name_entry_files() {
    let c = config();
    let source = |file_path: &'static str, content: Option<String>| AliasSource {
        read: AliasRead { file_path, config: &c },
        manifest_name: "Cargo.toml".to_string(),
        content,
    };
    let toml = found("[package]\nname = \"a-b\"\n");
    assert_eq!(extract_manifest_alias(&source("f", toml.clone())), found("a_b"));
    assert_eq!(extract_manifest_alias(&source("f", None)), None);
    assert_eq!(extract_manifest_alias(&source("f", found("[package]\nname = \"\"\n"))), None);
    let sources = vec![source("one", toml.clone()), source("two", toml), source("three", None)];
    let index = inject_manifest_name_aliases(&sources);
    assert_eq!(index.get("a_b"), Some(&vec!["one".to_string(), "two".to_string()]));
    assert_eq!(index.len(), 1);
}

// One specifier

#[test]
fn specifiers_are_cleaned() {
    assert_eq!(clean_specifier("././a/b"), "a/b");
    assert_eq!(clean_specifier("/a"), "a");
    assert_eq!(clean_specifier(".//a"), "a");
    assert_eq!(clean_specifier("../a"), "../a");
}

#[test]
fn strategies_are_tried_in_order() {
    let known = names(&["dir/x.h", "x.h"]);
    let mut aliases: Table<Vec<String>> = Table::new();
    aliases.append("pkg", "pkg/lib.rs");
    aliases.append("twice", "one");
    aliases.append("twice", "two");
    let all = || Lookup {
        relative: found("relative"),
        joined: "dir/x.h".to_string(),
        from_root: "x.h".to_string(),
        suffix: found("suffix"),
        dir_name: found("dir_name"),
        root_name: found("root_name"),
    };
    let resolve = |spec: &str, l: Lookup| resolve_module_import(spec, &known, &aliases, &l);
    assert_eq!(resolve("", all()), None);
    assert_eq!(resolve("./x", all()), found("relative"));
    assert_eq!(resolve("a/x", all()), found("dir/x.h"));
    let mut l = all();
    l.joined = "gone".to_string();
    assert_eq!(resolve("a/x", l), found("x.h"));
    let unknown = || {
        let mut l = all();
        l.joined = "gone".to_string();
        l.from_root = "gone".to_string();
        l
    };
    assert_eq!(resolve("a/x", unknown()), found("suffix"));
    assert_eq!(resolve("ax", unknown()), found("dir_name"));
    let mut l = unknown();
    l.suffix = None;
    assert_eq!(resolve("a/x", l), found("dir_name"));
    let mut l = unknown();
    l.dir_name = None;
    assert_eq!(resolve("ax", l), found("root_name"));
    assert_eq!(resolve("pkg", nowhere()), found("pkg/lib.rs"));
    assert_eq!(resolve("twice", nowhere()), None);
    assert_eq!(resolve("other", nowhere()), None);
    let mut l = nowhere();
    l.dir_name = found("beside");
    assert_eq!(resolve(".x", l), None);
}

#[test]
fn outcomes_are_counted() {
    let env = env();
    let mut lookups: Table<Lookup> = Table::new();
    lookups.insert("b".to_string(), named("b.rs"));
    lookups.insert("a".to_string(), named("a.rs"));
    lookups.insert("<stdio.h>".to_string(), named("stdio.h"));
    lookups.insert("c".to_string(), nowhere());
    let mut stats = ResolutionStats::new();
    assert_eq!(stats, ResolutionStats { resolved_count: 0, unresolved_count: 0 });
    let e = resolve_single_specifier("b", "a.rs", &env, &lookups, &mut stats);
    assert_eq!(e, Some(edge("a.rs", "b.rs")));
    assert_eq!(resolve_single_specifier("a", "a.rs", &env, &lookups, &mut stats), None);
    assert_eq!(resolve_single_specifier("<stdio.h>", "a.rs", &env, &lookups, &mut stats), None);
    assert_eq!(stats, ResolutionStats { resolved_count: 1, unresolved_count: 0 });
    assert_eq!(resolve_single_specifier("c", "a.rs", &env, &lookups, &mut stats), None);
    assert_eq!(resolve_single_specifier("unseen", "a.rs", &env, &lookups, &mut stats), None);
    assert_eq!(stats, ResolutionStats { resolved_count: 1, unresolved_count: 2 });
}

#[test]
fn imports_stay_within_a_project() {
    let mut env = env();
    for (path, project) in [("web/a.ts", "web"), ("web/b.ts", "web"), ("api/c.ts", "api")] {
        env.project_map.insert(path.to_string(), project.to_string());
    }
    let mut lookups: Table<Lookup> = Table::new();
    lookups.insert("b".to_string(), named("web/b.ts"));
    lookups.insert("c".to_string(), named("api/c.ts"));
    lookups.insert("d".to_string(), named("loose.ts"));
    let mut stats = ResolutionStats::new();
    let mut resolve =
        |s: &str| resolve_single_specifier(s, "web/a.ts", &env, &lookups, &mut stats);
    assert_eq!(resolve("b"), Some(edge("web/a.ts", "web/b.ts")));
    assert_eq!(resolve("c"), None);
    assert_eq!(resolve("d"), None);
    assert_eq!(stats, ResolutionStats { resolved_count: 1, unresolved_count: 0 });
    let f = file("web/a.ts", &["c", "b"]);
    let r = resolve_file_imports(&ImportingFile { file: &f, lookups: &lookups }, &env);
    assert_eq!(r.edges, vec![edge("web/a.ts", "web/b.ts")]);
}

#[test]
fn an_alias_into_another_project_is_passed_over() {
    let mut env = env();
    for (path, project) in [("web/a.ts", "web"), ("web/x.ts", "web"), ("api/x.ts", "api")] {
        env.project_map.insert(path.to_string(), project.to_string());
    }
    env.path_aliases.insert(String::new(), vec![rule("@/", "api/")]);
    let mut lookups: Table<Lookup> = Table::new();
    lookups.insert("api/x".to_string(), named("api/x.ts"));
    lookups.insert("@/x".to_string(), named("web/x.ts"));
    let f = file("web/a.ts", &["@/x"]);
    let r = resolve_file_imports(&ImportingFile { file: &f, lookups: &lookups }, &env);
    assert_eq!(r.edges, vec![edge("web/a.ts", "web/x.ts")]);
    assert_eq!(r.stats, ResolutionStats { resolved_count: 1, unresolved_count: 0 });
}

#[test]
fn imports_lead_to_known_files() {
    let files = vec![
        file("a.rs", &["./b", "x/c", "core", "gone"]),
        file("b.rs", &[]),
        file("x/c.rs", &[]),
        file("core/src/lib.rs", &[]),
    ];
    let mut env = env();
    env.known_files = collect_known_files(&files);
    env.suffix_index
        .manifest_name_aliases
        .insert("core".to_string(), vec!["core/src/lib.rs".to_string()]);
    let mut relative = nowhere();
    relative.relative = Some("b.rs".to_string());
    let mut suffix = nowhere();
    suffix.suffix = Some("x/c.rs".to_string());
    let mut table: Table<Lookup> = Table::new();
    table.insert("./b".to_string(), relative);
    table.insert("x/c".to_string(), suffix);
    table.insert("core".to_string(), nowhere());
    table.insert("gone".to_string(), nowhere());
    let lookups = vec![table];
    let edges = resolve_path_imports_ref(&files, &Some(Resolution { env: &env, lookups: &lookups }));
    assert_eq!(
        edges,
        vec![edge("a.rs", "b.rs"), edge("a.rs", "x/c.rs"), edge("a.rs", "core/src/lib.rs")]
    );
    assert!(edges.iter().all(|e| env.known_files.contains(&e.to_file)));
}

#[test]
fn known_files_are_listed_once() {
    let mut dir = file("d", &[]);
    dir.is_dir = true;
    let files = vec![file("b", &[]), dir, file("a", &[]), file("b", &[])];
    assert_eq!(list_known_files(&files), vec!["b", "a"]);
}

#[test]
fn counts_wrap_around() {
    let mut a = ResolutionStats { resolved_count: usize::MAX, unresolved_count: 3 };
    a.merge(&ResolutionStats { resolved_count: 2, unresolved_count: 4 });
    assert_eq!(a, ResolutionStats { resolved_count: 1, unresolved_count: 7 });
}

// Files

#[test]
fn aliases_go_before_the_specifier_itself() {
    let mut env = env();
    env.project_map.insert("web/a.ts".to_string(), "web".to_string());
    env.path_aliases.insert("web".to_string(), vec![rule("@/", "web/src/")]);
    env.path_aliases.insert(String::new(), vec![rule("@/", "root/")]);
    assert_eq!(
        candidate_specifiers("@/x", "web/a.ts", &env),
        vec!["web/src/x".to_string(), "root/x".to_string(), "@/x".to_string()]
    );
    assert_eq!(
        candidate_specifiers("@/x", "other.ts", &env),
        vec!["root/x".to_string(), "root/x".to_string(), "@/x".to_string()]
    );
    assert_eq!(candidate_specifiers("y", "web/a.ts", &env), vec!["y".to_string()]);
    let f = file("web/a.ts", &["@/x", "y"]);
    assert_eq!(wanted_specifiers(&f, &env), vec!["web/src/x", "root/x", "@/x", "y"]);
    let mut dir = file("web", &["y"]);
    dir.is_dir = true;
    assert!(wanted_specifiers(&dir, &env).is_empty());
}

#[test]
fn aliases_are_hints() {
    let mut env = env();
    env.path_aliases.insert(String::new(), vec![rule("@/", "root/")]);
    let f = file("a.ts", &["@/x", "@/y"]);
    let mut lookups: Table<Lookup> = Table::new();
    lookups.insert("root/x".to_string(), named("root/x.ts"));
    lookups.insert("@/x".to_string(), named("never.ts"));
    lookups.insert("@/y".to_string(), named("own.ts"));
    let r = resolve_file_imports(&ImportingFile { file: &f, lookups: &lookups }, &env);
    assert_eq!(r.edges, vec![edge("a.ts", "root/x.ts"), edge("a.ts", "own.ts")]);
    assert_eq!(r.stats, ResolutionStats { resolved_count: 2, unresolved_count: 2 });
}

#[test]
fn edges_come_in_the_order_of_files() {
    let env = env();
    let mut files: Vec<FileNode> = Vec::new();
    let mut lookups: Vec<Table<Lookup>> = Vec::new();
    let mut expected: Vec<ImportEdge> = Vec::new();
    for i in 0..200 {
        let path = format!("f{i}.rs");
        let to = format!("g{i}.rs");
        files.push(file(&path, &["x", "missing"]));
        let mut table: Table<Lookup> = Table::new();
        table.insert("x".to_string(), named(&to));
        lookups.push(table);
        expected.push(edge(&path, &to));
    }
    files.push(file("late.rs", &["x"]));
    let mut dir = file("dir", &["x"]);
    dir.is_dir = true;
    files.push(dir);
    let r = resolve_tier2_imports(&files, &env, &lookups);
    assert_eq!(r.edges, expected);
    assert_eq!(r.stats, ResolutionStats { resolved_count: 200, unresolved_count: 201 });
}

#[test]
fn only_wanted_lookups_matter() {
    let env = env();
    let f = file("a.rs", &["b"]);
    let mut few: Table<Lookup> = Table::new();
    few.insert("b".to_string(), named("b.rs"));
    let mut many: Table<Lookup> = Table::new();
    many.insert("c".to_string(), named("c.rs"));
    many.insert("b".to_string(), named("b.rs"));
    let one = resolve_file_imports(&ImportingFile { file: &f, lookups: &few }, &env);
    let two = resolve_file_imports(&ImportingFile { file: &f, lookups: &many }, &env);
    assert_eq!(one.edges, two.edges);
    assert_eq!(one.stats, two.stats);
}

#[test]
fn without_a_root_nothing_is_resolved() {
    let files = vec![file("a.rs", &["b"])];
    assert!(resolve_path_imports_ref(&files, &None).is_empty());
}

#[test]
fn a_scan_is_prepared_from_what_was_read() {
    let c = config();
    let mut dir = file("core", &[]);
    dir.is_dir = true;
    let files = vec![dir, file("core/src/lib.rs", &[]), file("app.rs", &["my_core/x", "my_core"])];
    let known = collect_known_files(&files);
    assert!(known.contains("app.rs"));
    assert!(!known.contains("core"));
    let content = found("[package]\nname = \"my-core\"\n");
    let sources = ResolutionSources {
        modules: vec![ModuleFile {
            path: "core/src/lib.rs".to_string(),
            module: "core/src".to_string(),
        }],
        langs: Vec::new(),
        prefix_sources: Vec::new(),
        entry_sources: vec![AliasSource {
            read: AliasRead { file_path: "core/src/lib.rs", config: &c },
            manifest_name: "Cargo.toml".to_string(),
            content: content.clone(),
        }],
        alias_sources: Vec::new(),
        manifest_sources: vec![ConfigSource {
            read: ConfigRead { project_dir: "core", config: &c },
            content,
        }],
    };
    let mut projects: Table<String> = Table::new();
    projects.insert("app.rs".to_string(), String::new());
    let env = prepare_resolution(&files, projects, &sources);
    assert!(env.known_files.contains("core/src/lib.rs"));
    assert_eq!(env.path_aliases.get(""), Some(&vec![rule("my_core/", "core/src/")]));
    assert_eq!(env.suffix_index.index.get("src"), Some(&vec!["core/src/lib.rs".to_string()]));
    assert_eq!(
        wanted_specifiers(&files[2], &env),
        vec!["core/src/x", "core/src/x", "my_core/x", "core/src", "core/src", "my_core"]
    );
    let mut table: Table<Lookup> = Table::new();
    table.insert("core/src/x".to_string(), named("core/src/x.rs"));
    table.insert("my_core".to_string(), nowhere());
    let lookups = vec![Table::new(), Table::new(), table];
    let resolution = Some(Resolution { env: &env, lookups: &lookups });
    assert_eq!(
        resolve_path_imports_ref(&files, &resolution),
        vec![edge("app.rs", "core/src/x.rs"), edge("app.rs", "core/src/lib.rs")]
    );
}

#[test]
fn manifest_aliases_follow_declared_ones() {
    let mut c = config();
    c.path_alias_file = "tsconfig.json".to_string();
    c.path_alias_field = "paths".to_string();
    let sources = ResolutionSources {
        modules: Vec::new(),
        langs: Vec::new(),
        prefix_sources: Vec::new(),
        entry_sources: Vec::new(),
        alias_sources: vec![ConfigSource {
            read: ConfigRead { project_dir: "", config: &c },
            content: found(r#"{"paths":{"@/*":["src/*"]}}"#),
        }],
        manifest_sources: vec![ConfigSource {
            read: ConfigRead { project_dir: "core", config: &c },
            content: found("[package]\nname = \"a-much-longer-name\"\n"),
        }],
    };
    let env = prepare_resolution(&Vec::new(), Table::new(), &sources);
    assert_eq!(
        env.path_aliases.get(""),
        Some(&vec![rule("@/", "src/"), rule("a_much_longer_name/", "core/src/")])
    );
}

#[test]
fn extensions_are_sorted() {
    let exts: Vec<String> = ["ts", "go", "tsx", "c", "Z"].iter().map(|s| s.to_string()).collect();
    assert_eq!(sorted_extensions(exts), vec!["Z", "c", "go", "ts", "tsx"]);
}
