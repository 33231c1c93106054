use sentrux::cli::PluginWork;
use sentrux::gui::{
    backend_attempts, gui_next, initial_path, probe_available_backends, resolved_path, run_gui,
    Adapters, Backend, GuiStep,
};
use sentrux::plugins::{
    download_and_extract_plugin, embedded_version, ensure_grammars_installed, grammars_downloaded,
    locate_plugin, platform_key, plugin_add, plugin_add_standard, plugin_init, plugin_list,
    plugin_remove, plugin_validate, EmbeddedPlugin, FailedPlugin, FetchStep, LoadedPlugin,
    PluginManifest, PluginPlace, PluginStep, QueryCheck,
};
use sentrux::report::{Exit, Line};

fn out(s: &str) -> Line {
    Line::Out(s.to_string())
}

fn note(s: &str) -> Line {
    Line::Note(s.to_string())
}

fn strings(list: &[&str]) -> Vec<String> {
    list.iter().map(|s| s.to_string()).collect()
}

fn found(s: &str) -> Option<String> {
    Some(s.to_string())
}

fn embedded(name: &str, toml: &str, grammar_present: bool) -> EmbeddedPlugin {
    EmbeddedPlugin { name: name.to_string(), toml: toml.to_string(), grammar_present }
}

// Plugins

#[test]
fn no_plugins_are_listed() {
    assert_eq!(
        plugin_list(&None, &Vec::new(), &Vec::new()),
        vec![
            out("Plugin directory: (none)"),
            out("No plugins installed."),
            out("\nInstall a plugin by placing it in ~/.sentrux/plugins/<name>/"),
        ]
    );
}

#[test]
fn plugins_and_failures_are_listed() {
    let loaded = vec![LoadedPlugin {
        name: "ts".to_string(),
        version: "1.2".to_string(),
        extensions: strings(&["ts", "tsx"]),
        display_name: "TypeScript".to_string(),
    }];
    let errors = vec![FailedPlugin { plugin_dir: "/p/x".to_string(), error: "bad".to_string() }];
    assert_eq!(
        plugin_list(&found("/p"), &loaded, &errors),
        vec![
            out("Plugin directory: /p"),
            out("  ts v1.2 [ts, tsx] — TypeScript"),
            out("  (error) /p/x — bad"),
        ]
    );
    assert_eq!(plugin_list(&found("/p"), &Vec::new(), &errors).len(), 2);
}

#[test]
fn plugins_have_a_place() {
    let place = |exists: bool| Some(PluginPlace { display: "/p/go".to_string(), exists });
    let stop = |lines: Vec<Line>| PluginStep::Stop(Exit { lines, code: 1 });
    for work in [PluginWork::Init, PluginWork::Add, PluginWork::Remove] {
        assert_eq!(
            locate_plugin("go", work, &None),
            stop(vec![note("Cannot determine home directory")])
        );
    }
    assert_eq!(
        locate_plugin("go", PluginWork::Init, &place(true)),
        stop(vec![note("Plugin directory already exists: /p/go")])
    );
    assert_eq!(locate_plugin("go", PluginWork::Init, &place(false)), PluginStep::Proceed);
    assert_eq!(
        locate_plugin("go", PluginWork::Add, &place(true)),
        stop(vec![
            note("Plugin 'go' already installed at /p/go"),
            note("Remove it first: sentrux plugin remove go"),
        ])
    );
    assert_eq!(locate_plugin("go", PluginWork::Add, &place(false)), PluginStep::Proceed);
    assert_eq!(
        locate_plugin("go", PluginWork::Remove, &place(false)),
        stop(vec![note("Plugin 'go' not installed.")])
    );
    assert_eq!(locate_plugin("go", PluginWork::Remove, &place(true)), PluginStep::Proceed);
    assert_eq!(plugin_remove("go"), vec![out("Removed plugin 'go'")]);
    assert_eq!(
        plugin_add_standard(),
        vec![out("Done. All plugins synced from embedded data.")]
    );
}

#[test]
fn new_plugins_have_templates() {
    let new = plugin_init("zig", "/p/zig", "linux-x64.so");
    let parsed = sentrux::document::parse_toml(&new.description).unwrap();
    let plugin = parsed.get("plugin").unwrap();
    assert_eq!(plugin.get("name").unwrap().as_text(), Some(&"zig".to_string()));
    assert_eq!(plugin.get("display_name").unwrap().as_text(), Some(&"zig".to_string()));
    assert_eq!(plugin.get("version").unwrap().as_text(), Some(&"0.1.0".to_string()));
    let grammar = parsed.get("grammar").unwrap();
    assert!(grammar.get("source").unwrap().as_text().unwrap().ends_with("/tree-sitter-zig"));
    assert!(new.queries.contains("@import.path — import statements\n"));
    assert_eq!(new.lines[0], out("Created plugin template at /p/zig"));
    assert_eq!(
        new.lines[3],
        out(
            "  2. Build the grammar: tree-sitter generate && cc -shared -o grammars/linux-x64.so src/parser.c"
        )
    );
    assert_eq!(new.lines[5], out("  4. Test: sentrux plugin validate /p/zig"));
}

#[test]
fn plugins_are_validated() {
    let manifest = || PluginManifest {
        name: "go".to_string(),
        version: "1".to_string(),
        extensions: strings(&["go"]),
        capabilities: strings(&["functions", "imports"]),
    };
    let head = Line::Part("Validating d... ".to_string());
    assert_eq!(
        plugin_validate("d", &Ok(manifest()), &QueryCheck::Valid, "g.so", true),
        Exit {
            lines: vec![
                head,
                out("plugin.toml OK"),
                out("  name: go"),
                out("  version: 1"),
                out("  extensions: [go]"),
                out("  capabilities: [functions, imports]"),
                out("  queries/tags.scm: OK (captures valid)"),
                out("  grammars/g.so: OK"),
            ],
            code: 0,
        }
    );
    let bad = plugin_validate(
        "d",
        &Ok(manifest()),
        &QueryCheck::Invalid("e".to_string()),
        "g.so",
        false,
    );
    assert_eq!(bad.code, 0);
    assert_eq!(bad.lines[6], out("  queries/tags.scm: FAIL — e"));
    assert_eq!(bad.lines[7], out("  grammars/g.so: MISSING — build the grammar first"));
    let gone = QueryCheck::Missing("e".to_string());
    assert_eq!(
        plugin_validate("d", &Ok(manifest()), &gone, "g.so", true).lines[6],
        out("  queries/tags.scm: MISSING — e")
    );
    let failed = plugin_validate("d", &Err("no".to_string()), &QueryCheck::Valid, "g.so", true);
    assert_eq!(failed.code, 1);
    assert_eq!(failed.lines[1], out("FAIL — no"));
}

#[test]
fn versions_are_found_in_descriptions() {
    let plugins = vec![
        embedded("go", "name = \"go\"\nversion = \"1.4.0\" # \"x\"\nversion = \"2\"\n", true),
        embedded("bare", "version = 3\nversion = \"4\"\n", true),
        embedded("none", " version = \"1\"\n", true),
        embedded("go", "version = \"9\"\n", true),
    ];
    assert_eq!(embedded_version(&plugins, "go"), found("1.4.0"));
    assert_eq!(embedded_version(&plugins, "bare"), None);
    assert_eq!(embedded_version(&plugins, "none"), None);
    assert_eq!(embedded_version(&plugins, "missing"), None);
}

#[test]
fn platforms_are_named_by_grammar_files() {
    assert_eq!(platform_key("darwin-arm64.dylib"), "darwin-arm64");
    assert_eq!(platform_key("a.b.so"), "a.b");
    assert_eq!(platform_key("plain"), "plain");
}

#[test]
fn plugins_are_fetched_by_version() {
    let plugins = vec![embedded("go", "version = \"1.4.0\"\n", false)];
    let url =
        "https://github.com/sentrux/plugins/releases/download/go-v1.4.0/go-linux-x86_64.tar.gz";
    assert_eq!(
        plugin_add("go", "linux-x86_64.so", &plugins),
        FetchStep::Download {
            url: url.to_string(),
            archive: "go.tar.gz".to_string(),
            lines: vec![
                out("Downloading go plugin for linux-x86_64..."),
                out(&format!("  {url}")),
            ],
        }
    );
    assert_eq!(
        plugin_add("nope", "linux-x86_64.so", &plugins),
        FetchStep::Stop(Exit {
            lines: vec![note(
                "Plugin 'nope' not found in embedded data. Is it a valid plugin name?"
            )],
            code: 1,
        })
    );
}

#[test]
fn installing_may_fail() {
    assert_eq!(
        download_and_extract_plugin("go", "/p/go", true, true),
        Exit { lines: vec![out("Installed go to /p/go")], code: 0 }
    );
    assert_eq!(
        download_and_extract_plugin("go", "/p/go", true, false),
        Exit { lines: vec![note("Failed to extract plugin archive")], code: 1 }
    );
    assert_eq!(
        download_and_extract_plugin("go", "/p/go", false, false),
        Exit {
            lines: vec![
                note("Failed to download plugin 'go'."),
                note("Check available plugins: https://github.com/sentrux/plugins/releases"),
            ],
            code: 1,
        }
    );
}

#[test]
fn grammars_are_fetched_where_one_is_missing() {
    let plugins = |present: bool| {
        vec![
            embedded("json", "[plugin]\n", false),
            embedded("go", "[plugin]\n[grammar]\n", present),
            embedded("c", "[grammar]\n", true),
        ]
    };
    let fetch = |skip: bool, has_dir: bool, present: bool| {
        ensure_grammars_installed(skip, has_dir, "linux-x64.so", "0.5.1", &plugins(present))
    };
    assert_eq!(fetch(true, true, false), None);
    assert_eq!(fetch(false, false, false), None);
    assert_eq!(fetch(false, true, true), None);
    let plan = fetch(false, true, false).unwrap();
    let url =
        "https://github.com/sentrux/sentrux/releases/download/v0.5.1/grammars-linux-x64.tar.gz";
    assert_eq!(plan.url, url);
    assert_eq!(plan.lines.len(), 4);
    assert_eq!(plan.lines[1], note("  Downloading language grammars for v0.5.1..."));
    assert_eq!(
        plan.lines[3],
        Line::NotePart("  [░░░░░░░░░░░░░░░░░░░░░░░░░░░░░░]   0%".to_string())
    );
    assert_eq!(
        grammars_downloaded(true, true, url, &plugins(true)),
        vec![note("  2 language grammars ready."), note("")]
    );
    assert_eq!(
        grammars_downloaded(true, false, url, &plugins(true)),
        vec![note("  Failed to extract grammars archive."), note("")]
    );
    assert_eq!(
        grammars_downloaded(false, false, url, &plugins(true)),
        vec![
            note("  Download failed. Check your network and try again."),
            note(&format!("  URL: {url}")),
            note(""),
        ]
    );
}

// Window

#[test]
fn backends_with_adapters_are_tried() {
    let a = Adapters { primary_gl: 2, gl_only: 0, primary: 1 };
    assert_eq!(probe_available_backends(a), vec![Backend::PrimaryGl, Backend::Primary]);
    let none = Adapters { primary_gl: 0, gl_only: 0, primary: 0 };
    assert!(probe_available_backends(none).is_empty());
    let all = Adapters { primary_gl: 1, gl_only: 1, primary: 1 };
    assert_eq!(
        backend_attempts(false, probe_available_backends(all)),
        vec![Backend::PrimaryGl, Backend::GlOnly, Backend::Primary]
    );
    assert_eq!(backend_attempts(true, Vec::new()), vec![Backend::Chosen]);
}

#[test]
fn the_window_falls_back_after_all_attempts() {
    assert_eq!(run_gui(0), GuiStep::Fallback);
    assert_eq!(run_gui(2), GuiStep::Try(0));
    assert_eq!(gui_next(0, 2, false), GuiStep::Try(1));
    assert_eq!(gui_next(1, 2, false), GuiStep::Fallback);
    assert_eq!(gui_next(0, 2, true), GuiStep::Finished);
}

#[test]
fn the_window_opens_directories() {
    assert_eq!(resolved_path(found("a"), found("/x/a")), found("/x/a"));
    assert_eq!(resolved_path(found("a"), None), found("a"));
    assert_eq!(resolved_path(None, found("/x")), None);
    assert_eq!(initial_path(found("/x/a"), true), found("/x/a"));
    assert_eq!(initial_path(found("/x/a"), false), None);
}
