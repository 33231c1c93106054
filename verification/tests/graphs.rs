use sentrux::graph::{
    build_graphs, build_import_target_index, build_lookup_maps, collect_class_inherit_edges,
    collect_entry_points, compute_call_edges, compute_inherit_edges, dedup_import_edges,
    file_call_edges, file_inherit_edges, index_file_symbols, is_valid_inherit_target,
    resolve_call_targets, CallLookup, GraphBuilder, GraphResult, InheritLookup,
};
use sentrux::imports::{Lookup, Resolution, ResolveEnv};
use sentrux::modules::SuffixIndex;
use sentrux::table::{NameSet, Table};
use sentrux::types::{
    CallEdge, ClassInfo, FileNode, FuncInfo, ImportEdge, InheritEdge, StructuralAnalysis,
};

fn texts(list: &[&str]) -> Option<Vec<String>> {
    if list.is_empty() {
        None
    } else {
        Some(list.iter().map(|s| s.to_string()).collect())
    }
}

fn file(path: &str, lang: &str) -> FileNode {
    FileNode {
        path: path.to_string(),
        is_dir: false,
        lang: lang.to_string(),
        sa: Some(StructuralAnalysis { functions: None, cls: None, imp: None, co: None }),
    }
}

fn with_func(mut f: FileNode, name: &str, calls: &[&str]) -> FileNode {
    let sa = f.sa.as_mut().unwrap();
    let func = FuncInfo { n: name.to_string(), co: texts(calls) };
    sa.functions.get_or_insert_with(Vec::new).push(func);
    f
}

fn with_class(mut f: FileNode, name: &str, bases: &[&str]) -> FileNode {
    let sa = f.sa.as_mut().unwrap();
    let cls = ClassInfo { n: name.to_string(), b: texts(bases) };
    sa.cls.get_or_insert_with(Vec::new).push(cls);
    f
}

fn with_loose(mut f: FileNode, calls: &[&str]) -> FileNode {
    f.sa.as_mut().unwrap().co = texts(calls);
    f
}

fn with_imports(mut f: FileNode, imports: &[&str]) -> FileNode {
    f.sa.as_mut().unwrap().imp = texts(imports);
    f
}

fn import(from: &str, to: &str) -> ImportEdge {
    ImportEdge { from_file: from.to_string(), to_file: to.to_string() }
}

fn call(from: &str, func: &str, to: &str, name: &str) -> CallEdge {
    CallEdge {
        from_file: from.to_string(),
        from_func: func.to_string(),
        to_file: to.to_string(),
        to_func: name.to_string(),
    }
}

fn inherit(child: &str, class: &str, parent: &str, base: &str) -> InheritEdge {
    InheritEdge {
        child_file: child.to_string(),
        child_class: class.to_string(),
        parent_file: parent.to_string(),
        parent_class: base.to_string(),
    }
}

fn strings(list: &[&str]) -> Vec<String> {
    list.iter().map(|s| s.to_string()).collect()
}

#[test]
fn symbols_are_indexed_once_per_definition() {
    let f = with_func(with_func(with_class(file("a.py", "python"), "C", &[]), "f", &[]), "f", &[]);
    let mut funcs: Table<Vec<String>> = Table::new();
    let mut classes: Table<Vec<String>> = Table::new();
    index_file_symbols(&f, &mut funcs, &mut classes);
    assert_eq!(funcs.get("f"), Some(&strings(&["a.py", "a.py"])));
    assert_eq!(classes.get("C"), Some(&strings(&["a.py"])));
}

#[test]
fn lookup_maps_leave_directories_out() {
    let mut dir = with_func(file("d", "python"), "f", &[]);
    dir.is_dir = true;
    let files = vec![dir, with_func(file("a.py", "python"), "f", &[]), file("a.py", "py2")];
    let maps = build_lookup_maps(&files);
    assert_eq!(maps.lang_map.get("a.py"), Some(&"py2".to_string()));
    assert!(maps.lang_map.get("d").is_none());
    assert_eq!(maps.func_map.get("f"), Some(&strings(&["a.py"])));
    assert_eq!(maps.class_map.len(), 0);
}

#[test]
fn imports_are_indexed_by_file() {
    let edges = vec![import("a", "b"), import("a", "c"), import("b", "a")];
    let index = build_import_target_index(&edges);
    assert!(index.get("a").unwrap().contains("b"));
    assert!(index.get("a").unwrap().contains("c"));
    assert!(!index.get("a").unwrap().contains("a"));
    assert!(index.get("b").unwrap().contains("a"));
    assert!(index.get("c").is_none());
}

#[test]
fn repeated_imports_are_dropped() {
    let mut edges = vec![
        import("a", "b"),
        import("b", "a"),
        import("a", "b"),
        import("a", "c"),
        import("b", "a"),
    ];
    dedup_import_edges(&mut edges);
    let once = vec![import("a", "b"), import("b", "a"), import("a", "c")];
    assert_eq!(edges, once);
    dedup_import_edges(&mut edges);
    assert_eq!(edges, once);
}

#[test]
fn calls_reach_imported_files_of_the_same_language() {
    let mut funcs: Table<Vec<String>> = Table::new();
    for f in ["a.py", "b.py", "c.js", "d.py"] {
        funcs.append("go", f);
    }
    let mut langs: Table<String> = Table::new();
    for (f, l) in [("a.py", "python"), ("b.py", "python"), ("c.js", "js"), ("d.py", "python")] {
        langs.insert(f.to_string(), l.to_string());
    }
    let mut imported = NameSet::new();
    imported.insert("b.py");
    imported.insert("c.js");
    let resolve = |name: &str, imported: Option<&NameSet>, max: usize, implicit: bool| {
        resolve_call_targets(name, "a.py", "python", &funcs, &langs, imported, max, implicit)
    };
    assert_eq!(resolve("go", Some(&imported), 5, false), strings(&["b.py"]));
    assert_eq!(resolve("go", Some(&imported), 0, false), strings(&[]));
    assert_eq!(resolve("go", None, 5, false), strings(&[]));
    assert_eq!(resolve("go", None, 5, true), strings(&["b.py", "d.py"]));
    assert_eq!(resolve("go", None, 1, true), strings(&[]));
    assert_eq!(resolve("stop", Some(&imported), 5, true), strings(&[]));
}

#[test]
fn types_are_found_where_no_function_is() {
    let a = with_loose(with_func(file("a.py", "python"), "main", &["run", "Thing"]), &["run"]);
    let b = with_class(with_func(file("b.py", "python"), "run", &[]), "Thing", &[]);
    let files = vec![a, b];
    let maps = build_lookup_maps(&files);
    let targets = build_import_target_index(&vec![import("a.py", "b.py")]);
    let implicit = NameSet::new();
    let lk = CallLookup {
        maps: &maps,
        import_targets: &targets,
        implicit_langs: &implicit,
        max_call_targets: 5,
    };
    assert_eq!(
        file_call_edges(&files[0], &lk),
        vec![
            call("a.py", "main", "b.py", "run"),
            call("a.py", "main", "b.py", "Thing"),
            call("a.py", "", "b.py", "run"),
        ]
    );
    assert_eq!(
        compute_call_edges(&files, &lk),
        vec![
            call("a.py", "", "b.py", "run"),
            call("a.py", "main", "b.py", "Thing"),
            call("a.py", "main", "b.py", "run"),
        ]
    );
}

#[test]
fn edges_do_not_depend_on_the_order_of_files() {
    let make = || {
        vec![
            with_func(file("a.py", "python"), "x", &["y", "z"]),
            with_func(file("b.py", "python"), "y", &["x"]),
            with_func(file("c.py", "python"), "z", &["x", "y"]),
        ]
    };
    let files = make();
    let mut turned = make();
    turned.reverse();
    let maps = build_lookup_maps(&files);
    let targets: Table<NameSet> = Table::new();
    let mut implicit = NameSet::new();
    implicit.insert("python");
    let lk = CallLookup {
        maps: &maps,
        import_targets: &targets,
        implicit_langs: &implicit,
        max_call_targets: 5,
    };
    let edges = compute_call_edges(&files, &lk);
    assert_eq!(edges.len(), 5);
    assert_eq!(edges, compute_call_edges(&turned, &lk));
}

#[test]
fn files_without_a_language_call_nothing() {
    let files = vec![
        with_func(file("a", ""), "x", &["y"]),
        with_func(file("b", ""), "y", &["x"]),
    ];
    let maps = build_lookup_maps(&files);
    let targets = build_import_target_index(&vec![import("a", "b")]);
    let implicit = NameSet::new();
    let lk = CallLookup {
        maps: &maps,
        import_targets: &targets,
        implicit_langs: &implicit,
        max_call_targets: 5,
    };
    assert!(compute_call_edges(&files, &lk).is_empty());
}

#[test]
fn parents_must_be_imported() {
    let mut langs: Table<String> = Table::new();
    langs.insert("a.py".to_string(), "python".to_string());
    langs.insert("b.py".to_string(), "python".to_string());
    langs.insert("c.js".to_string(), "js".to_string());
    let mut imported = NameSet::new();
    for f in ["a.py", "b.py", "c.js"] {
        imported.insert(f);
    }
    let valid = |parent: &str, imported: Option<&NameSet>| {
        is_valid_inherit_target(parent, "a.py", "python", &langs, imported)
    };
    assert!(valid("b.py", Some(&imported)));
    assert!(!valid("a.py", Some(&imported)));
    assert!(!valid("c.js", Some(&imported)));
    assert!(!valid("b.py", None));
}

#[test]
fn bases_are_looked_up_by_name() {
    let child = with_class(file("a.py", "python"), "Child", &["Base", "Gone", "Mixin"]);
    let child = with_class(child, "Plain", &[]);
    let base = with_class(with_class(file("b.py", "python"), "Base", &[]), "Mixin", &[]);
    let other = with_class(file("c.py", "python"), "Base", &[]);
    let files = vec![child, base, other];
    let maps = build_lookup_maps(&files);
    let targets = build_import_target_index(&vec![import("a.py", "b.py"), import("a.py", "c.py")]);
    let lk = InheritLookup {
        file_path: "a.py",
        src_lang: "python",
        lang_map: &maps.lang_map,
        class_map: &maps.class_map,
        imported_files: targets.get("a.py"),
    };
    let expected = vec![
        inherit("a.py", "Child", "b.py", "Base"),
        inherit("a.py", "Child", "c.py", "Base"),
        inherit("a.py", "Child", "b.py", "Mixin"),
    ];
    let mut edges: Vec<InheritEdge> = Vec::new();
    let classes = files[0].sa.as_ref().unwrap().cls.as_ref().unwrap();
    collect_class_inherit_edges(&lk, &classes[0], &mut edges);
    assert_eq!(edges, expected);
    collect_class_inherit_edges(&lk, &classes[1], &mut edges);
    assert_eq!(edges.len(), 3);
    assert_eq!(
        file_inherit_edges(&files[0], &maps.lang_map, &maps.class_map, &targets),
        expected
    );
    assert_eq!(
        compute_inherit_edges(&files, &maps.lang_map, &maps.class_map, &targets),
        vec![
            inherit("a.py", "Child", "b.py", "Base"),
            inherit("a.py", "Child", "b.py", "Mixin"),
            inherit("a.py", "Child", "c.py", "Base"),
        ]
    );
}

fn detect(file: &FileNode) -> Vec<String> {
    if file.path.ends_with("main.py") {
        vec![file.path.clone(), format!("{}!", file.path)]
    } else {
        Vec::new()
    }
}

fn depth(edges: &Vec<ImportEdge>, points: &Vec<String>) -> Table<u32> {
    let mut table: Table<u32> = Table::new();
    table.insert("edges".to_string(), edges.len() as u32);
    table.insert("points".to_string(), points.len() as u32);
    table
}

#[test]
fn entry_points_come_from_files() {
    let mut dir = file("main.py", "python");
    dir.is_dir = true;
    let files = vec![dir, file("a.py", "python"), file("x/main.py", "python")];
    assert_eq!(collect_entry_points(&files, &detect), vec!["x/main.py", "x/main.py!"]);
}

fn env() -> ResolveEnv {
    ResolveEnv {
        known_files: NameSet::new(),
        project_map: Table::new(),
        suffix_index: SuffixIndex {
            index: Table::new(),
            manifest_name_aliases: Table::new(),
            module_prefixes: Vec::new(),
        },
        path_aliases: Table::new(),
    }
}

fn sample() -> Vec<FileNode> {
    let main = with_func(file("main.py", "python"), "main", &["helper"]);
    let main = with_imports(with_class(main, "App", &["Base"]), &["util", "utils"]);
    let util = with_class(with_func(file("util.py", "python"), "helper", &[]), "Base", &[]);
    vec![main, util]
}

#[test]
fn graphs_are_built_together() {
    let files = sample();
    let env = env();
    let found = |path: &str| Lookup {
        relative: None,
        joined: String::new(),
        from_root: String::new(),
        suffix: None,
        dir_name: Some(path.to_string()),
        root_name: None,
    };
    let mut table: Table<Lookup> = Table::new();
    table.insert("util".to_string(), found("util.py"));
    table.insert("utils".to_string(), found("util.py"));
    let lookups = vec![table];
    let resolution = Some(Resolution { env: &env, lookups: &lookups });
    let implicit = NameSet::new();
    let r = build_graphs(&files, &resolution, &implicit, 5, &detect, &depth);
    assert_eq!(r.import_edges, vec![import("main.py", "util.py")]);
    assert_eq!(r.call_edges, vec![call("main.py", "main", "util.py", "helper")]);
    assert_eq!(r.inherit_edges, vec![inherit("main.py", "App", "util.py", "Base")]);
    assert_eq!(r.entry_points, vec!["main.py", "main.py!"]);
    assert_eq!(r.exec_depth.get("edges"), Some(&1));
    assert_eq!(r.exec_depth.get("points"), Some(&2));
}

#[test]
fn without_a_root_there_are_no_imports() {
    let files = sample();
    let none = NameSet::new();
    let r = build_graphs(&files, &None, &none, 5, &detect, &depth);
    assert!(r.import_edges.is_empty());
    assert!(r.call_edges.is_empty());
    assert!(r.inherit_edges.is_empty());
    let mut implicit = NameSet::new();
    implicit.insert("python");
    let r = build_graphs(&files, &None, &implicit, 5, &detect, &depth);
    assert_eq!(r.call_edges, vec![call("main.py", "main", "util.py", "helper")]);
    assert!(r.inherit_edges.is_empty());
}

struct Plain;

impl GraphBuilder<String> for Plain {
    fn build(
        &self,
        files: &Vec<FileNode>,
        resolution: &Option<Resolution>,
        max_call_targets: usize,
    ) -> GraphResult<String> {
        let implicit = NameSet::new();
        build_graphs(files, resolution, &implicit, max_call_targets, &detect, &depth)
    }
}

#[test]
fn graph_builders_can_be_swapped() {
    let r = Plain.build(&sample(), &None, 5);
    assert_eq!(r.entry_points.len(), 2);
}
