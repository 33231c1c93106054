use sentrux::projects::{
    answered_walk, backfill_cache, build_project_map, detect_project_root_cached, dir_of,
    dirs_above, next_probe, place_file, unique_roots, Ancestor, DirWalk,
};
use sentrux::table::Table;
use sentrux::types::FileNode;

fn file(path: &str) -> FileNode {
    FileNode { path: path.to_string(), is_dir: false, lang: String::new(), sa: None }
}

fn level(rel: &str, has_manifest: bool) -> Ancestor {
    Ancestor { rel: rel.to_string(), has_manifest }
}

fn walk(dir: &str, chain: Vec<Ancestor>) -> DirWalk {
    DirWalk { dir: dir.to_string(), chain }
}

#[test]
fn directories_above_a_file() {
    assert_eq!(dirs_above("a/b/c.rs"), vec!["a/b", "a", ""]);
    assert_eq!(dirs_above("c.rs"), vec![""]);
    assert_eq!(dirs_above(""), vec![""]);
    assert_eq!(dirs_above("a//b/./c.rs"), vec!["a//b", "a", ""]);
    assert_eq!(dirs_above("a/b/"), vec!["a", ""]);
    assert_eq!(dirs_above("./a/b.rs"), vec!["./a", ".", ""]);
    assert_eq!(dir_of("a/b/c.rs"), "a/b");
    assert_eq!(dir_of("c.rs"), "");
}

#[test]
fn directories_are_those_of_the_path_type() {
    let paths = [
        "a/b/c.rs", "c.rs", "a//b//c", "a/./b", "a/b/", "a/b/.", "./x", ".", "..", "../x/y",
        "a/../b", "a/.hidden/b", "a./b", "a/b/./.", "a/b//./c/",
    ];
    for path in paths {
        let above: Vec<String> = std::path::Path::new(path)
            .ancestors()
            .skip(1)
            .map(|d| d.to_string_lossy().to_string())
            .collect();
        assert_eq!(dirs_above(path), above, "{path}");
    }
}

#[test]
fn visited_directories_are_remembered() {
    let mut cache: Table<String> = Table::new();
    cache.insert("a".to_string(), "old".to_string());
    backfill_cache(&mut cache, &vec!["a".to_string(), "b".to_string()], "root");
    assert_eq!(cache.get("a"), Some(&"root".to_string()));
    assert_eq!(cache.get("b"), Some(&"root".to_string()));
    assert_eq!(cache.len(), 2);
}

#[test]
fn the_nearest_manifest_is_the_root() {
    let mut cache: Table<String> = Table::new();
    let chain = vec![level("a/b/c", false), level("a/b", true), level("a", true), level("", false)];
    assert_eq!(detect_project_root_cached(&chain, &mut cache), "a/b");
    assert_eq!(cache.get("a/b/c"), Some(&"a/b".to_string()));
    assert_eq!(cache.get("a/b"), Some(&"a/b".to_string()));
    assert!(cache.get("a").is_none());
}

#[test]
fn a_remembered_directory_ends_the_walk() {
    let mut cache: Table<String> = Table::new();
    cache.insert("a".to_string(), "known".to_string());
    let chain = vec![level("a/b", false), level("a", true), level("", true)];
    assert_eq!(detect_project_root_cached(&chain, &mut cache), "known");
    assert_eq!(cache.get("a/b"), Some(&"known".to_string()));
}

#[test]
fn without_a_manifest_everything_is_one_project() {
    let mut cache: Table<String> = Table::new();
    let chain = vec![level("x/y", false), level("x", false), level("", false)];
    assert_eq!(detect_project_root_cached(&chain, &mut cache), "");
    assert_eq!(cache.get("x"), Some(&String::new()));
    assert_eq!(cache.get(""), Some(&String::new()));
}

#[test]
fn files_belong_to_the_nearest_manifest() {
    let mut dir = file("web");
    dir.is_dir = true;
    let files = vec![file("web/src/a.ts"), dir, file("web/src/b.ts"), file("tool.py")];
    let chain = || vec![level("web/src", false), level("web", true), level("", false)];
    let walks = vec![
        walk("web/src", chain()),
        walk("", vec![level("", false)]),
        walk("web/src", chain()),
        walk("", vec![level("", false)]),
    ];
    let map = build_project_map(&files, &walks);
    assert_eq!(map.len(), 3);
    assert_eq!(map.get("web/src/a.ts"), Some(&"web".to_string()));
    assert_eq!(map.get("web/src/b.ts"), Some(&"web".to_string()));
    assert_eq!(map.get("tool.py"), Some(&String::new()));
    assert!(map.get("web").is_none());
    assert_eq!(unique_roots(&map), vec!["web".to_string(), String::new()]);
}

fn walk_from(path: &str, manifests: &[&str]) -> DirWalk {
    let dirs = dirs_above(path);
    let answered: Vec<bool> = dirs.iter().map(|d| manifests.contains(&d.as_str())).collect();
    answered_walk(dir_of(path), &dirs, &answered)
}

#[test]
fn the_order_of_files_does_not_matter() {
    let manifests = ["web", "web/lib/core", ""];
    let mut paths = vec!["web/lib/core/x/a.ts", "web/lib/b.ts", "web/c.ts", "d.py", "web/c.ts"];
    let mut maps: Vec<Vec<(String, String)>> = Vec::new();
    for _ in 0..paths.len() {
        let files: Vec<FileNode> = paths.iter().map(|p| file(p)).collect();
        let walks: Vec<DirWalk> = paths.iter().map(|p| walk_from(p, &manifests)).collect();
        let map = build_project_map(&files, &walks);
        assert_eq!(map.len(), 4);
        let mut found: Vec<(String, String)> = paths
            .iter()
            .map(|p| (p.to_string(), map.get(p).unwrap().clone()))
            .collect();
        found.sort();
        maps.push(found);
        paths.rotate_left(1);
        paths.swap(0, 2);
    }
    let expected: Vec<(String, String)> = [
        ("d.py", ""),
        ("web/c.ts", "web"),
        ("web/c.ts", "web"),
        ("web/lib/b.ts", "web"),
        ("web/lib/core/x/a.ts", "web/lib/core"),
    ]
    .iter()
    .map(|(p, r)| (p.to_string(), r.to_string()))
    .collect();
    for map in maps {
        assert_eq!(map, expected);
    }
}

#[test]
fn walks_are_probed_until_they_are_settled() {
    let dirs: Vec<String> = ["a/b/c", "a/b", "a", ""].iter().map(|s| s.to_string()).collect();
    let mut cache: Table<String> = Table::new();
    assert_eq!(next_probe(&dirs, &vec![], &cache), Some(0));
    assert_eq!(next_probe(&dirs, &vec![false], &cache), Some(1));
    assert_eq!(next_probe(&dirs, &vec![false, true], &cache), None);
    assert_eq!(next_probe(&dirs, &vec![false, false, false, false], &cache), None);
    cache.insert("a".to_string(), "a".to_string());
    assert_eq!(next_probe(&dirs, &vec![false], &cache), Some(1));
    assert_eq!(next_probe(&dirs, &vec![false, false], &cache), None);
    cache.insert("a/b/c".to_string(), "a".to_string());
    assert_eq!(next_probe(&dirs, &vec![], &cache), None);
}

#[test]
fn remembered_directories_are_not_probed() {
    let manifests = ["web"];
    let files = vec![file("web/src/x/a.ts"), file("web/src/b.ts"), file("web/src/y/c.ts")];
    let dirs = [vec!["web/src/x", "web/src", "web", ""], vec!["web/src", "web", ""], vec![
        "web/src/y", "web/src", "web", "",
    ]];
    let mut cache: Table<String> = Table::new();
    let mut map: Table<String> = Table::new();
    let mut probed: Vec<String> = Vec::new();
    let mut full: Vec<DirWalk> = Vec::new();
    for (f, list) in files.iter().zip(dirs.iter()) {
        let list: Vec<String> = list.iter().map(|s| s.to_string()).collect();
        let mut answered: Vec<bool> = Vec::new();
        while let Some(i) = next_probe(&list, &answered, &cache) {
            probed.push(list[i].clone());
            answered.push(manifests.contains(&list[i].as_str()));
        }
        let used = answered_walk(&list[0], &list, &answered);
        place_file(f, &used, &mut cache, &mut map);
        let all: Vec<bool> = list.iter().map(|d| manifests.contains(&d.as_str())).collect();
        full.push(answered_walk(&list[0], &list, &all));
    }
    assert_eq!(probed, vec!["web/src/x", "web/src", "web", "web/src/y"]);
    let throughout = build_project_map(&files, &full);
    for f in &files {
        assert_eq!(map.get(&f.path), Some(&"web".to_string()));
        assert_eq!(map.get(&f.path), throughout.get(&f.path));
    }
}

#[test]
fn unanswered_directories_have_no_manifest() {
    let dirs = vec!["a".to_string(), String::new()];
    let w = answered_walk("a", &dirs, &vec![true]);
    assert_eq!(w, walk("a", vec![level("a", true), level("", false)]));
}
