//! Language plugins: listing, creating, checking, installing and removing.

use vstd::prelude::*;

use crate::cli::PluginWork;
use crate::report::{
    cat, cat3, cat4, cat5, join, joined, note, out, Ended, Exit, Line, Said,
};
use crate::text::{
    contains, cut_last, decimal, decimal_of, law_cut_at_the_last_separator,
    law_split_at_every_separator, lemma_tail_span, lines, lines_of, occurs, pieces, rsplit_once,
    same, split, starts_with, CharClass,
};

verus! {

// ---------------------------------------------------------------------------
// Listing
// ---------------------------------------------------------------------------

/// A plugin that is installed.
#[derive(Debug, PartialEq, Eq)]
pub struct LoadedPlugin {
    /// Its name.
    pub name: String,
    /// Its version.
    pub version: String,
    /// The extensions of its files.
    pub extensions: Vec<String>,
    /// The name that is shown.
    pub display_name: String,
}

/// A plugin that could not be loaded.
#[derive(Debug, PartialEq, Eq)]
pub struct FailedPlugin {
    /// Its directory.
    pub plugin_dir: String,
    /// What is wrong.
    pub error: String,
}

/// What is said of a plugin.
pub open spec fn plugin_line(p: LoadedPlugin) -> Said {
    Said::Out(
        "  "@ + p.name@ + " v"@ + p.version@ + " ["@ + joined(p.extensions.deep_view(), ", "@)
            + "] — "@ + p.display_name@,
    )
}

/// What is said of a plugin that could not be loaded.
pub open spec fn failure_line(e: FailedPlugin) -> Said {
    Said::Out("  (error) "@ + e.plugin_dir@ + " — "@ + e.error@)
}

/// The list of plugins: the directory, then the plugins, then the failures.
pub open spec fn plugin_listing(
    dir: Option<Seq<char>>,
    loaded: Seq<LoadedPlugin>,
    errors: Seq<FailedPlugin>,
) -> Seq<Said> {
    let head = Said::Out(
        "Plugin directory: "@ + match dir {
            Some(d) => d,
            None => "(none)"@,
        },
    );
    if loaded.len() == 0 && errors.len() == 0 {
        seq![
            head,
            Said::Out("No plugins installed."@),
            Said::Out("\nInstall a plugin by placing it in ~/.sentrux/plugins/<name>/"@),
        ]
    } else {
        seq![head] + Seq::new(loaded.len(), |i: int| plugin_line(loaded[i])) + Seq::new(
            errors.len(),
            |i: int| failure_line(errors[i]),
        )
    }
}

/// Tells what a plugin is.
fn tell_plugin(p: &LoadedPlugin) -> (r: Line)
    ensures
        r.deep_view() == plugin_line(*p),
{
    let mut s = cat4("  ", &p.name, " v", &p.version);
    s.append(" [");
    s.append(&join(&p.extensions, ", "));
    s.append("] — ");
    s.append(&p.display_name);
    Line::Out(s)
}

/// Lists the plugins that are installed.
pub fn plugin_list(
    dir: &Option<String>,
    loaded: &Vec<LoadedPlugin>,
    errors: &Vec<FailedPlugin>,
) -> (r: Vec<Line>)
    ensures
        r.deep_view() == plugin_listing(dir.deep_view(), loaded@, errors@),
{
    let head = match dir {
        Some(d) => cat("Plugin directory: ", d),
        None => cat("Plugin directory: ", "(none)"),
    };
    let ghost said = Said::Out(head@);
    if loaded.len() == 0 && errors.len() == 0 {
        let all = vec![
            Line::Out(head),
            out("No plugins installed."),
            out("\nInstall a plugin by placing it in ~/.sentrux/plugins/<name>/"),
        ];
        assert(all.deep_view() =~= plugin_listing(dir.deep_view(), loaded@, errors@));
        return all;
    }
    let ghost some = Seq::new(loaded@.len(), |i: int| plugin_line(loaded@[i]));
    let ghost bad = Seq::new(errors@.len(), |i: int| failure_line(errors@[i]));
    let mut all = vec![Line::Out(head)];
    let mut i: usize = 0;
    assert(all.deep_view() =~= seq![said] + some.take(0));
    while i < loaded.len()
        invariant
            i <= loaded@.len(),
            some == Seq::new(loaded@.len(), |i: int| plugin_line(loaded@[i])),
            all.deep_view() == seq![said] + some.take(i as int),
        decreases loaded@.len() - i,
    {
        let ghost was = all.deep_view();
        all.push(tell_plugin(&loaded[i]));
        assert(all.deep_view() =~= was.push(some[i as int]));
        assert(all.deep_view() =~= seq![said] + some.take(i + 1));
        i += 1;
    }
    assert(some.take(i as int) =~= some);
    let mut j: usize = 0;
    assert(all.deep_view() =~= seq![said] + some + bad.take(0));
    while j < errors.len()
        invariant
            j <= errors@.len(),
            bad == Seq::new(errors@.len(), |i: int| failure_line(errors@[i])),
            all.deep_view() == seq![said] + some + bad.take(j as int),
        decreases errors@.len() - j,
    {
        let ghost was = all.deep_view();
        let e = &errors[j];
        all.push(Line::Out(cat4("  (error) ", &e.plugin_dir, " — ", &e.error)));
        assert(all.deep_view() =~= was.push(bad[j as int]));
        assert(all.deep_view() =~= seq![said] + some + bad.take(j + 1));
        j += 1;
    }
    assert(bad.take(j as int) =~= bad);
    all
}

// ---------------------------------------------------------------------------
// The place of a plugin
// ---------------------------------------------------------------------------

/// Where a plugin has its place.
#[derive(Debug, PartialEq, Eq)]
pub struct PluginPlace {
    /// The directory, as it is shown.
    pub display: String,
    /// Whether it is there.
    pub exists: bool,
}

/// How work on a named plugin begins.
#[derive(Debug, PartialEq, Eq)]
pub enum PluginStep {
    /// It ends at once.
    Stop(Exit),
    /// It goes on.
    Proceed,
}

/// What a [`PluginStep`] holds.
pub enum PluginStart {
    Stop(Ended),
    Proceed,
}

impl DeepView for PluginStep {
    type V = PluginStart;

    open spec fn deep_view(&self) -> PluginStart {
        match self {
            PluginStep::Stop(exit) => PluginStart::Stop(exit.deep_view()),
            PluginStep::Proceed => PluginStart::Proceed,
        }
    }
}

/// How work on a plugin begins. A new plugin, or one to install, must not be
/// there yet; one to remove must be. Without a home directory there is no place
/// for plugins.
pub open spec fn plugin_start(
    name: Seq<char>,
    work: PluginWork,
    place: Option<PluginPlace>,
) -> PluginStart {
    match place {
        None => PluginStart::Stop(
            Ended { lines: seq![Said::Note("Cannot determine home directory"@)], code: 1 },
        ),
        Some(p) => match work {
            PluginWork::Init if p.exists => PluginStart::Stop(
                Ended {
                    lines: seq![Said::Note("Plugin directory already exists: "@ + p.display@)],
                    code: 1,
                },
            ),
            PluginWork::Add if p.exists => PluginStart::Stop(
                Ended {
                    lines: seq![
                        Said::Note(
                            "Plugin '"@ + name + "' already installed at "@ + p.display@,
                        ),
                        Said::Note("Remove it first: sentrux plugin remove "@ + name),
                    ],
                    code: 1,
                },
            ),
            PluginWork::Remove if !p.exists => PluginStart::Stop(
                Ended { lines: seq![Said::Note("Plugin '"@ + name + "' not installed."@)], code: 1 },
            ),
            _ => PluginStart::Proceed,
        },
    }
}

/// Ends with lines and a failure.
fn stop(all: Vec<Line>) -> (r: PluginStep)
    ensures
        r.deep_view() == PluginStart::Stop(Ended { lines: all.deep_view(), code: 1 }),
{
    PluginStep::Stop(Exit { lines: all, code: 1 })
}

/// Begins work on a plugin, once its place is known.
pub fn locate_plugin(name: &str, work: PluginWork, place: &Option<PluginPlace>) -> (r: PluginStep)
    ensures
        r.deep_view() == plugin_start(name@, work, *place),
{
    let p = match place {
        Some(p) => p,
        None => {
            let all = vec![note("Cannot determine home directory")];
            assert(all.deep_view() =~= seq![Said::Note("Cannot determine home directory"@)]);
            return stop(all);
        }
    };
    match work {
        PluginWork::Init => {
            if p.exists {
                let all = vec![Line::Note(cat("Plugin directory already exists: ", &p.display))];
                assert(all.deep_view() =~= seq![
                    Said::Note("Plugin directory already exists: "@ + p.display@),
                ]);
                return stop(all);
            }
        }
        PluginWork::Add => {
            if p.exists {
                let all = vec![
                    Line::Note(cat4("Plugin '", name, "' already installed at ", &p.display)),
                    Line::Note(cat("Remove it first: sentrux plugin remove ", name)),
                ];
                assert(all.deep_view() =~= seq![
                    Said::Note("Plugin '"@ + name@ + "' already installed at "@ + p.display@),
                    Said::Note("Remove it first: sentrux plugin remove "@ + name@),
                ]);
                return stop(all);
            }
        }
        PluginWork::Remove => {
            if !p.exists {
                let all = vec![Line::Note(cat3("Plugin '", name, "' not installed."))];
                assert(all.deep_view() =~= seq![
                    Said::Note("Plugin '"@ + name@ + "' not installed."@),
                ]);
                return stop(all);
            }
        }
    }
    PluginStep::Proceed
}

// ---------------------------------------------------------------------------
// Creating
// ---------------------------------------------------------------------------

/// The description of a new plugin.
pub open spec fn template(name: Seq<char>) -> Seq<char> {
    "[plugin]\nname = \""@ + name + "\"\ndisplay_name = \""@ + name
        + "\"\nversion = \"0.1.0\"\nextensions = [\"TODO\"]\nmin_sentrux_version = \"0.1.3\"\n\n[plugin.metadata]\nauthor = \"\"\ndescription = \"\"\n\n[grammar]\nsource = \"https://github.com/TODO/tree-sitter-"@
        + name
        + "\"\nref = \"main\"\nabi_version = 14\n\n[queries]\ncapabilities = [\"functions\", \"classes\", \"imports\"]\n\n[checksums]\n"@
}

/// The queries of a new plugin.
pub open spec fn query_template() -> Seq<char> {
    ";; TODO: Write tree-sitter queries for this language\n;;\n;; Required captures:\n;;   @func.def / @func.name — function definitions\n;;   @class.def / @class.name — class definitions\n;;   @import.path — import statements\n;;   @call.name — function calls (optional)\n"@
}

/// What is said of a new plugin.
pub open spec fn created(place: Seq<char>, grammar: Seq<char>) -> Seq<Said> {
    seq![
        Said::Out("Created plugin template at "@ + place),
        Said::Out("\nNext steps:"@),
        Said::Out("  1. Edit plugin.toml — set extensions, grammar source"@),
        Said::Out(
            "  2. Build the grammar: tree-sitter generate && cc -shared -o grammars/"@ + grammar
                + " src/parser.c"@,
        ),
        Said::Out("  3. Write queries/tags.scm"@),
        Said::Out("  4. Test: sentrux plugin validate "@ + place),
    ]
}

/// A new plugin: what to write, and what to say.
#[derive(Debug, PartialEq, Eq)]
pub struct NewPlugin {
    /// The content of `plugin.toml`.
    pub description: String,
    /// The content of `queries/tags.scm`.
    pub queries: String,
    /// What is said when they are written.
    pub lines: Vec<Line>,
}

/// Makes up a new plugin of a name.
pub fn plugin_init(name: &str, place: &str, grammar: &str) -> (r: NewPlugin)
    ensures
        r.description@ == template(name@),
        r.queries@ == query_template(),
        r.lines.deep_view() == created(place@, grammar@),
{
    let mut description = cat4("[plugin]\nname = \"", name, "\"\ndisplay_name = \"", name);
    description.append(
        "\"\nversion = \"0.1.0\"\nextensions = [\"TODO\"]\nmin_sentrux_version = \"0.1.3\"\n\n[plugin.metadata]\nauthor = \"\"\ndescription = \"\"\n\n[grammar]\nsource = \"https://github.com/TODO/tree-sitter-",
    );
    description.append(name);
    description.append(
        "\"\nref = \"main\"\nabi_version = 14\n\n[queries]\ncapabilities = [\"functions\", \"classes\", \"imports\"]\n\n[checksums]\n",
    );
    let queries =
        ";; TODO: Write tree-sitter queries for this language\n;;\n;; Required captures:\n;;   @func.def / @func.name — function definitions\n;;   @class.def / @class.name — class definitions\n;;   @import.path — import statements\n;;   @call.name — function calls (optional)\n".to_owned();
    let all = vec![
        Line::Out(cat("Created plugin template at ", place)),
        out("\nNext steps:"),
        out("  1. Edit plugin.toml — set extensions, grammar source"),
        Line::Out(
            cat3(
                "  2. Build the grammar: tree-sitter generate && cc -shared -o grammars/",
                grammar,
                " src/parser.c",
            ),
        ),
        out("  3. Write queries/tags.scm"),
        Line::Out(cat("  4. Test: sentrux plugin validate ", place)),
    ];
    assert(all.deep_view() =~= created(place@, grammar@));
    NewPlugin { description, queries, lines: all }
}

// ---------------------------------------------------------------------------
// Checking
// ---------------------------------------------------------------------------

/// What the description of a plugin says.
#[derive(Debug, PartialEq, Eq)]
pub struct PluginManifest {
    /// Its name.
    pub name: String,
    /// Its version.
    pub version: String,
    /// The extensions of its files.
    pub extensions: Vec<String>,
    /// What its queries can find.
    pub capabilities: Vec<String>,
}

/// What the queries of a plugin are like.
#[derive(Debug, PartialEq, Eq)]
pub enum QueryCheck {
    /// Their captures are valid.
    Valid,
    /// They are not, for this reason.
    Invalid(String),
    /// They cannot be read, for this reason.
    Missing(String),
}

/// What is said of the queries of a plugin.
pub open spec fn query_line(query: QueryCheck) -> Said {
    match query {
        QueryCheck::Valid => Said::Out("  queries/tags.scm: OK (captures valid)"@),
        QueryCheck::Invalid(e) => Said::Out("  queries/tags.scm: FAIL — "@ + e@),
        QueryCheck::Missing(e) => Said::Out("  queries/tags.scm: MISSING — "@ + e@),
    }
}

/// What is said of the grammar of a plugin.
pub open spec fn grammar_line(grammar: Seq<char>, exists: bool) -> Said {
    if exists {
        Said::Out("  grammars/"@ + grammar + ": OK"@)
    } else {
        Said::Out("  grammars/"@ + grammar + ": MISSING — build the grammar first"@)
    }
}

/// How checking a plugin ends. It fails exactly where the description cannot
/// be loaded; queries and grammars that are wrong are told only.
pub open spec fn validated(
    dir: Seq<char>,
    manifest: Result<PluginManifest, String>,
    query: QueryCheck,
    grammar: Seq<char>,
    grammar_exists: bool,
) -> Ended {
    let head = Said::Part("Validating "@ + dir + "... "@);
    match manifest {
        Ok(m) => Ended {
            lines: seq![
                head,
                Said::Out("plugin.toml OK"@),
                Said::Out("  name: "@ + m.name@),
                Said::Out("  version: "@ + m.version@),
                Said::Out("  extensions: ["@ + joined(m.extensions.deep_view(), ", "@) + "]"@),
                Said::Out("  capabilities: ["@ + joined(m.capabilities.deep_view(), ", "@) + "]"@),
                query_line(query),
                grammar_line(grammar, grammar_exists),
            ],
            code: 0,
        },
        Err(e) => Ended { lines: seq![head, Said::Out("FAIL — "@ + e@)], code: 1 },
    }
}

/// Tells what a plugin directory is like.
pub fn plugin_validate(
    dir: &str,
    manifest: &Result<PluginManifest, String>,
    query: &QueryCheck,
    grammar: &str,
    grammar_exists: bool,
) -> (r: Exit)
    ensures
        r.deep_view() == validated(dir@, *manifest, *query, grammar@, grammar_exists),
{
    let ghost end = validated(dir@, *manifest, *query, grammar@, grammar_exists);
    let head = Line::Part(cat3("Validating ", dir, "... "));
    match manifest {
        Ok(m) => {
            let query_told = match query {
                QueryCheck::Valid => out("  queries/tags.scm: OK (captures valid)"),
                QueryCheck::Invalid(e) => Line::Out(cat("  queries/tags.scm: FAIL — ", e)),
                QueryCheck::Missing(e) => Line::Out(cat("  queries/tags.scm: MISSING — ", e)),
            };
            let grammar_told = if grammar_exists {
                Line::Out(cat3("  grammars/", grammar, ": OK"))
            } else {
                Line::Out(cat3("  grammars/", grammar, ": MISSING — build the grammar first"))
            };
            let all = vec![
                head,
                out("plugin.toml OK"),
                Line::Out(cat("  name: ", &m.name)),
                Line::Out(cat("  version: ", &m.version)),
                Line::Out(cat3("  extensions: [", &join(&m.extensions, ", "), "]")),
                Line::Out(cat3("  capabilities: [", &join(&m.capabilities, ", "), "]")),
                query_told,
                grammar_told,
            ];
            assert(all.deep_view() =~= end.lines);
            Exit { lines: all, code: 0 }
        }
        Err(e) => {
            let all = vec![head, Line::Out(cat("FAIL — ", e))];
            assert(all.deep_view() =~= end.lines);
            Exit { lines: all, code: 1 }
        }
    }
}

// ---------------------------------------------------------------------------
// Installing
// ---------------------------------------------------------------------------

/// A plugin whose description is built into the program.
#[derive(Debug, PartialEq, Eq)]
pub struct EmbeddedPlugin {
    /// Its name.
    pub name: String,
    /// Its description.
    pub toml: String,
    /// Whether its grammar is installed.
    pub grammar_present: bool,
}

/// The platform that a grammar file is for: its name without the extension.
pub open spec fn platform_of(grammar: Seq<char>) -> Seq<char> {
    match cut_last(grammar, CharClass::Only('.')) {
        Some((key, _)) => key,
        None => grammar,
    }
}

/// Finds the platform that a grammar file is for.
pub fn platform_key<'a>(grammar: &'a str) -> (r: &'a str)
    ensures
        r@ == platform_of(grammar@),
{
    match rsplit_once(grammar, CharClass::Only('.')) {
        Some((key, _ext)) => key,
        None => grammar,
    }
}

/// The first line that begins with `version`: what stands in its first quotes.
pub open spec fn declared_version(all: Seq<Seq<char>>) -> Option<Seq<char>>
    decreases all.len(),
{
    if all.len() == 0 {
        None
    } else if "version"@.is_prefix_of(all[0]) {
        let parts = pieces(all[0], CharClass::Only('"'));
        if parts.len() > 1 {
            Some(parts[1])
        } else {
            None
        }
    } else {
        declared_version(all.skip(1))
    }
}

/// The version of the first embedded plugin of a name.
pub open spec fn version_of(plugins: Seq<EmbeddedPlugin>, name: Seq<char>) -> Option<Seq<char>>
    decreases plugins.len(),
{
    if plugins.len() == 0 {
        None
    } else if plugins[0].name@ == name {
        declared_version(lines_of(plugins[0].toml@))
    } else {
        version_of(plugins.skip(1), name)
    }
}

/// Finds the version that a description declares.
fn find_version(toml: &str) -> (r: Option<String>)
    ensures
        r.deep_view() == declared_version(lines_of(toml@)),
{
    let all = lines(toml);
    let ghost views = all.deep_view();
    let mut i: usize = 0;
    assert(views.skip(0) =~= views);
    while i < all.len()
        invariant
            i <= all@.len(),
            views == all.deep_view(),
            views == lines_of(toml@),
            declared_version(views.skip(i as int)) == declared_version(views),
        decreases all@.len() - i,
    {
        assert(views.skip(i as int)[0] == all@[i as int]@);
        assert(views.skip(i as int).skip(1) =~= views.skip(i + 1));
        if starts_with(&all[i], "version") {
            let parts = split(&all[i], CharClass::Only('"'));
            assert(parts.deep_view() == pieces(all@[i as int]@, CharClass::Only('"')));
            if parts.len() > 1 {
                return Some(parts[1].clone());
            }
            return None;
        }
        i += 1;
    }
    None
}

/// Finds the version of an embedded plugin.
pub fn embedded_version(plugins: &Vec<EmbeddedPlugin>, name: &str) -> (r: Option<String>)
    ensures
        r.deep_view() == version_of(plugins@, name@),
{
    let mut i: usize = 0;
    assert(plugins@.skip(0) =~= plugins@);
    while i < plugins.len()
        invariant
            i <= plugins@.len(),
            version_of(plugins@.skip(i as int), name@) == version_of(plugins@, name@),
        decreases plugins@.len() - i,
    {
        assert(plugins@.skip(i as int)[0] == plugins@[i as int]);
        assert(plugins@.skip(i as int).skip(1) =~= plugins@.skip(i + 1));
        if same(&plugins[i].name, name) {
            return find_version(&plugins[i].toml);
        }
        i += 1;
    }
    None
}

/// The archive of a plugin on the plugin registry.
pub open spec fn plugin_url(name: Seq<char>, version: Seq<char>, platform: Seq<char>) -> Seq<char> {
    "https://github.com/sentrux/plugins/releases/download/"@ + name + "-v"@ + version + "/"@ + name
        + "-"@ + platform + ".tar.gz"@
}

/// How installing a plugin goes on.
#[derive(Debug, PartialEq, Eq)]
pub enum FetchStep {
    /// It ends at once.
    Stop(Exit),
    /// The archive at an address is downloaded, under a name, after these
    /// lines are written.
    Download {
        /// The address.
        url: String,
        /// The name of the archive.
        archive: String,
        /// The lines.
        lines: Vec<Line>,
    },
}

/// What a [`FetchStep`] holds.
pub enum Fetching {
    Stop(Ended),
    Download(Seq<char>, Seq<char>, Seq<Said>),
}

impl DeepView for FetchStep {
    type V = Fetching;

    open spec fn deep_view(&self) -> Fetching {
        match self {
            FetchStep::Stop(exit) => Fetching::Stop(exit.deep_view()),
            FetchStep::Download { url, archive, lines } => Fetching::Download(
                url@,
                archive@,
                lines.deep_view(),
            ),
        }
    }
}

/// How installing a plugin goes on: a name that is not embedded is refused.
pub open spec fn fetching(
    name: Seq<char>,
    grammar: Seq<char>,
    plugins: Seq<EmbeddedPlugin>,
) -> Fetching {
    match version_of(plugins, name) {
        Some(version) => {
            let platform = platform_of(grammar);
            let url = plugin_url(name, version, platform);
            Fetching::Download(
                url,
                name + ".tar.gz"@,
                seq![
                    Said::Out("Downloading "@ + name + " plugin for "@ + platform + "..."@),
                    Said::Out("  "@ + url),
                ],
            )
        },
        None => Fetching::Stop(
            Ended {
                lines: seq![
                    Said::Note(
                        "Plugin '"@ + name
                            + "' not found in embedded data. Is it a valid plugin name?"@,
                    ),
                ],
                code: 1,
            },
        ),
    }
}

/// Decides what is downloaded to install a plugin.
pub fn plugin_add(name: &str, grammar: &str, plugins: &Vec<EmbeddedPlugin>) -> (r: FetchStep)
    ensures
        r.deep_view() == fetching(name@, grammar@, plugins@),
{
    let version = match embedded_version(plugins, name) {
        Some(version) => version,
        None => {
            let all = vec![
                Line::Note(
                    cat3(
                        "Plugin '",
                        name,
                        "' not found in embedded data. Is it a valid plugin name?",
                    ),
                ),
            ];
            assert(all.deep_view() =~= seq![
                Said::Note(
                    "Plugin '"@ + name@
                        + "' not found in embedded data. Is it a valid plugin name?"@,
                ),
            ]);
            return FetchStep::Stop(Exit { lines: all, code: 1 });
        }
    };
    let platform = platform_key(grammar);
    let mut url = cat5(
        "https://github.com/sentrux/plugins/releases/download/",
        name,
        "-v",
        &version,
        "/",
    );
    url.append(name);
    url.append("-");
    url.append(platform);
    url.append(".tar.gz");
    let all = vec![
        Line::Out(cat5("Downloading ", name, " plugin for ", platform, "...")),
        Line::Out(cat("  ", &url)),
    ];
    assert(all.deep_view() =~= seq![
        Said::Out("Downloading "@ + name@ + " plugin for "@ + platform@ + "..."@),
        Said::Out("  "@ + url@),
    ]);
    FetchStep::Download { url, archive: cat(name, ".tar.gz"), lines: all }
}

/// How installing a plugin ends.
pub open spec fn installed(
    name: Seq<char>,
    place: Seq<char>,
    downloaded: bool,
    extracted: bool,
) -> Ended {
    if downloaded && extracted {
        Ended { lines: seq![Said::Out("Installed "@ + name + " to "@ + place)], code: 0 }
    } else if downloaded {
        Ended { lines: seq![Said::Note("Failed to extract plugin archive"@)], code: 1 }
    } else {
        Ended {
            lines: seq![
                Said::Note("Failed to download plugin '"@ + name + "'."@),
                Said::Note(
                    "Check available plugins: https://github.com/sentrux/plugins/releases"@,
                ),
            ],
            code: 1,
        }
    }
}

/// Ends installing a plugin, by whether its archive was downloaded, and if so
/// whether it was extracted.
pub fn download_and_extract_plugin(
    name: &str,
    place: &str,
    downloaded: bool,
    extracted: bool,
) -> (r: Exit)
    ensures
        r.deep_view() == installed(name@, place@, downloaded, extracted),
{
    let ghost end = installed(name@, place@, downloaded, extracted);
    if downloaded && extracted {
        let all = vec![Line::Out(cat4("Installed ", name, " to ", place))];
        assert(all.deep_view() =~= end.lines);
        Exit { lines: all, code: 0 }
    } else if downloaded {
        let all = vec![note("Failed to extract plugin archive")];
        assert(all.deep_view() =~= end.lines);
        Exit { lines: all, code: 1 }
    } else {
        let all = vec![
            Line::Note(cat3("Failed to download plugin '", name, "'.")),
            note("Check available plugins: https://github.com/sentrux/plugins/releases"),
        ];
        assert(all.deep_view() =~= end.lines);
        Exit { lines: all, code: 1 }
    }
}

/// Tells that a plugin was removed.
pub fn plugin_remove(name: &str) -> (r: Vec<Line>)
    ensures
        r.deep_view() == seq![Said::Out("Removed plugin '"@ + name@ + "'"@)],
{
    let all = vec![Line::Out(cat3("Removed plugin '", name, "'"))];
    assert(all.deep_view() =~= seq![Said::Out("Removed plugin '"@ + name@ + "'"@)]);
    all
}

/// Tells that all embedded plugins were written.
pub fn plugin_add_standard() -> (r: Vec<Line>)
    ensures
        r.deep_view() == seq![Said::Out("Done. All plugins synced from embedded data."@)],
{
    let all = vec![out("Done. All plugins synced from embedded data.")];
    assert(all.deep_view() =~= seq![Said::Out("Done. All plugins synced from embedded data."@)]);
    all
}

// ---------------------------------------------------------------------------
// Grammars
// ---------------------------------------------------------------------------

/// Whether a plugin asks for a grammar that is not installed.
pub open spec fn lacks_grammar(p: EmbeddedPlugin) -> bool {
    occurs(p.toml@, "[grammar]"@) && !p.grammar_present
}

/// Whether any plugin lacks its grammar.
fn any_missing(plugins: &Vec<EmbeddedPlugin>) -> (r: bool)
    ensures
        r == exists|i: int| 0 <= i < plugins@.len() && lacks_grammar(#[trigger] plugins@[i]),
{
    let mut i: usize = 0;
    while i < plugins.len()
        invariant
            i <= plugins@.len(),
            forall|k: int| 0 <= k < i ==> !lacks_grammar(#[trigger] plugins@[k]),
        decreases plugins@.len() - i,
    {
        let p = &plugins[i];
        if contains(&p.toml, "[grammar]") && !p.grammar_present {
            assert(lacks_grammar(plugins@[i as int]));
            return true;
        }
        i += 1;
    }
    false
}

/// A download of all grammars.
#[derive(Debug, PartialEq, Eq)]
pub struct GrammarPlan {
    /// Where the archive lies.
    pub url: String,
    /// What is said before it is downloaded.
    pub lines: Vec<Line>,
}

/// What a [`GrammarPlan`] holds.
pub struct GrammarFetch {
    pub url: Seq<char>,
    pub lines: Seq<Said>,
}

impl DeepView for GrammarPlan {
    type V = GrammarFetch;

    open spec fn deep_view(&self) -> GrammarFetch {
        GrammarFetch { url: self.url@, lines: self.lines.deep_view() }
    }
}

/// The archive of all grammars of a release.
pub open spec fn grammars_url(version: Seq<char>, platform: Seq<char>) -> Seq<char> {
    "https://github.com/sentrux/sentrux/releases/download/v"@ + version + "/grammars-"@ + platform
        + ".tar.gz"@
}

/// The download of all grammars: one archive, and only where some grammar is
/// missing and nobody asked to skip it.
pub open spec fn grammar_fetch(
    skip: bool,
    has_dir: bool,
    grammar: Seq<char>,
    version: Seq<char>,
    plugins: Seq<EmbeddedPlugin>,
) -> Option<GrammarFetch> {
    if !skip && has_dir && exists|i: int|
        0 <= i < plugins.len() && lacks_grammar(#[trigger] plugins[i]) {
        Some(
            GrammarFetch {
                url: grammars_url(version, platform_of(grammar)),
                lines: seq![
                    Said::Note(""@),
                    Said::Note("  Downloading language grammars for v"@ + version + "..."@),
                    Said::Note("  (one-time download, ~30MB)"@),
                    Said::NotePart("  [░░░░░░░░░░░░░░░░░░░░░░░░░░░░░░]   0%"@),
                ],
            },
        )
    } else {
        None
    }
}

/// Decides whether the grammars are downloaded, and from where.
pub fn ensure_grammars_installed(
    skip: bool,
    has_dir: bool,
    grammar: &str,
    version: &str,
    plugins: &Vec<EmbeddedPlugin>,
) -> (r: Option<GrammarPlan>)
    ensures
        r.deep_view() == grammar_fetch(skip, has_dir, grammar@, version@, plugins@),
{
    if skip || !has_dir || !any_missing(plugins) {
        return None;
    }
    let platform = platform_key(grammar);
    let url = cat5(
        "https://github.com/sentrux/sentrux/releases/download/v",
        version,
        "/grammars-",
        platform,
        ".tar.gz",
    );
    let all = vec![
        note(""),
        Line::Note(cat3("  Downloading language grammars for v", version, "...")),
        note("  (one-time download, ~30MB)"),
        Line::NotePart("  [░░░░░░░░░░░░░░░░░░░░░░░░░░░░░░]   0%".to_owned()),
    ];
    assert(all.deep_view() =~= seq![
        Said::Note(""@),
        Said::Note("  Downloading language grammars for v"@ + version@ + "..."@),
        Said::Note("  (one-time download, ~30MB)"@),
        Said::NotePart("  [░░░░░░░░░░░░░░░░░░░░░░░░░░░░░░]   0%"@),
    ]);
    Some(GrammarPlan { url, lines: all })
}

/// How many plugins have their grammars.
pub open spec fn present_count(plugins: Seq<EmbeddedPlugin>) -> nat
    decreases plugins.len(),
{
    if plugins.len() == 0 {
        0
    } else {
        present_count(plugins.drop_last()) + if plugins.last().grammar_present {
            1nat
        } else {
            0nat
        }
    }
}

/// Counts the plugins that have their grammars.
fn count_present(plugins: &Vec<EmbeddedPlugin>) -> (r: usize)
    ensures
        r == present_count(plugins@),
{
    let mut n: usize = 0;
    let mut i: usize = 0;
    assert(plugins@.take(0) =~= Seq::<EmbeddedPlugin>::empty());
    while i < plugins.len()
        invariant
            i <= plugins@.len(),
            n <= i,
            n == present_count(plugins@.take(i as int)),
        decreases plugins@.len() - i,
    {
        assert(plugins@.take(i + 1).drop_last() =~= plugins@.take(i as int));
        if plugins[i].grammar_present {
            n += 1;
        }
        i += 1;
    }
    assert(plugins@.take(i as int) =~= plugins@);
    n
}

/// What is said once the grammars were downloaded, or not.
pub open spec fn grammars_told(
    downloaded: bool,
    extracted: bool,
    url: Seq<char>,
    plugins: Seq<EmbeddedPlugin>,
) -> Seq<Said> {
    (if !downloaded {
        seq![
            Said::Note("  Download failed. Check your network and try again."@),
            Said::Note("  URL: "@ + url),
        ]
    } else if !extracted {
        seq![Said::Note("  Failed to extract grammars archive."@)]
    } else {
        seq![
            Said::Note("  "@ + decimal_of(present_count(plugins)) + " language grammars ready."@),
        ]
    }).push(Said::Note(""@))
}

/// Tells what became of the grammars.
pub fn grammars_downloaded(
    downloaded: bool,
    extracted: bool,
    url: &str,
    plugins: &Vec<EmbeddedPlugin>,
) -> (r: Vec<Line>)
    ensures
        r.deep_view() == grammars_told(downloaded, extracted, url@, plugins@),
{
    let mut all: Vec<Line> = Vec::new();
    if !downloaded {
        all.push(note("  Download failed. Check your network and try again."));
        all.push(Line::Note(cat("  URL: ", url)));
    } else if !extracted {
        all.push(note("  Failed to extract grammars archive."));
    } else {
        let n = decimal(count_present(plugins) as u64);
        all.push(Line::Note(cat3("  ", &n, " language grammars ready.")));
    }
    all.push(note(""));
    assert(all.deep_view() =~= grammars_told(downloaded, extracted, url@, plugins@));
    all
}

// ---------------------------------------------------------------------------
// Laws
// ---------------------------------------------------------------------------

/// Every plugin is listed, and every failure behind them, each on a line of its
/// own under the line of the directory.
pub proof fn law_every_plugin_is_listed(
    dir: Option<Seq<char>>,
    loaded: Seq<LoadedPlugin>,
    errors: Seq<FailedPlugin>,
    i: int,
)
    ensures
        ({
            let all = plugin_listing(dir, loaded, errors);
            &&& dir is Some ==> all[0] == Said::Out("Plugin directory: "@ + dir->Some_0)
            &&& dir is None ==> all[0] == Said::Out("Plugin directory: "@ + "(none)"@)
            &&& loaded.len() + errors.len() > 0 ==> all.len() == 1 + loaded.len() + errors.len()
            &&& 0 <= i < loaded.len() ==> all[1 + i] == Said::Out(
                "  "@ + loaded[i].name@ + " v"@ + loaded[i].version@ + " ["@ + joined(
                    loaded[i].extensions.deep_view(),
                    ", "@,
                ) + "] — "@ + loaded[i].display_name@,
            )
            &&& 0 <= i < errors.len() ==> all[1 + loaded.len() + i] == Said::Out(
                "  (error) "@ + errors[i].plugin_dir@ + " — "@ + errors[i].error@,
            )
            &&& loaded.len() + errors.len() == 0 ==> all.len() == 3 && all[1] == Said::Out(
                "No plugins installed."@,
            )
        }),
{
}

/// Work goes on exactly where the plugin has a place and is there, or not, as
/// the work wants it. Otherwise the command fails, and says so on the standard
/// error.
pub proof fn law_work_goes_on_where_it_can(
    name: Seq<char>,
    work: PluginWork,
    place: Option<PluginPlace>,
)
    ensures
        ({
            let s = plugin_start(name, work, place);
            &&& s is Proceed <==> place is Some && (place->Some_0.exists <==> work is Remove)
            &&& s is Stop ==> s->Stop_0.code == 1 && s->Stop_0.lines.len() > 0
            &&& s is Stop ==> forall|i: int|
                0 <= i < s->Stop_0.lines.len() ==> (#[trigger] s->Stop_0.lines[i]) is Note
            &&& place is None ==> s->Stop_0.lines[0] == Said::Note(
                "Cannot determine home directory"@,
            )
            &&& place is Some && place->Some_0.exists && work is Init ==> s->Stop_0.lines[0]
                == Said::Note("Plugin directory already exists: "@ + place->Some_0.display@)
            &&& place is Some && place->Some_0.exists && work is Add ==> s->Stop_0.lines[0]
                == Said::Note(
                "Plugin '"@ + name + "' already installed at "@ + place->Some_0.display@,
            ) && s->Stop_0.lines[1] == Said::Note(
                "Remove it first: sentrux plugin remove "@ + name,
            )
            &&& place is Some && !place->Some_0.exists && work is Remove ==> s->Stop_0.lines[0]
                == Said::Note("Plugin '"@ + name + "' not installed."@)
        }),
{
}

/// The description of a new plugin bears its name: as its name, as the name that
/// is shown, and in the address of its grammar. The rest is the same for all.
pub proof fn law_descriptions_bear_the_name(a: Seq<char>, b: Seq<char>)
    ensures
        exists|p: Seq<char>, q: Seq<char>, r: Seq<char>, t: Seq<char>|
            {
                &&& template(a) == #[trigger] (p + a + q + a + r + a + t)
                &&& template(b) == p + b + q + b + r + b + t
                &&& p == "[plugin]\nname = \""@
                &&& q == "\"\ndisplay_name = \""@
            },
{
    let p = "[plugin]\nname = \""@;
    let q = "\"\ndisplay_name = \""@;
    let r =
        "\"\nversion = \"0.1.0\"\nextensions = [\"TODO\"]\nmin_sentrux_version = \"0.1.3\"\n\n[plugin.metadata]\nauthor = \"\"\ndescription = \"\"\n\n[grammar]\nsource = \"https://github.com/TODO/tree-sitter-"@;
    let t =
        "\"\nref = \"main\"\nabi_version = 14\n\n[queries]\ncapabilities = [\"functions\", \"classes\", \"imports\"]\n\n[checksums]\n"@;
    assert(template(a) == p + a + q + a + r + a + t);
    assert(template(b) == p + b + q + b + r + b + t);
}

/// Of a new plugin it is told where it lies, how its grammar is built and how it
/// is checked.
pub proof fn law_new_plugins_are_told(place: Seq<char>, grammar: Seq<char>)
    ensures
        created(place, grammar).len() == 6,
        created(place, grammar)[0] == Said::Out("Created plugin template at "@ + place),
        created(place, grammar)[3] == Said::Out(
            "  2. Build the grammar: tree-sitter generate && cc -shared -o grammars/"@ + grammar
                + " src/parser.c"@,
        ),
        created(place, grammar).last() == Said::Out("  4. Test: sentrux plugin validate "@ + place),
{
}

/// Checking succeeds exactly where the description could be loaded. Then it
/// tells the name, the version, all extensions and all capabilities, and what
/// the queries and the grammar are like; otherwise it tells what is wrong.
pub proof fn law_checking_goes_by_the_description(
    dir: Seq<char>,
    manifest: Result<PluginManifest, String>,
    query: QueryCheck,
    grammar: Seq<char>,
    grammar_exists: bool,
)
    ensures
        ({
            let end = validated(dir, manifest, query, grammar, grammar_exists);
            &&& end.code == 0 <==> manifest is Ok
            &&& end.code == 1 <==> manifest is Err
            &&& end.lines[0] == Said::Part("Validating "@ + dir + "... "@)
            &&& manifest is Err ==> end.lines.len() == 2 && end.lines[1] == Said::Out(
                "FAIL — "@ + manifest->Err_0@,
            )
            &&& manifest is Ok ==> {
                let m = manifest->Ok_0;
                &&& end.lines.len() == 8
                &&& end.lines[2] == Said::Out("  name: "@ + m.name@)
                &&& end.lines[3] == Said::Out("  version: "@ + m.version@)
                &&& end.lines[4] == Said::Out(
                    "  extensions: ["@ + joined(m.extensions.deep_view(), ", "@) + "]"@,
                )
                &&& end.lines[5] == Said::Out(
                    "  capabilities: ["@ + joined(m.capabilities.deep_view(), ", "@) + "]"@,
                )
                &&& query is Valid ==> end.lines[6] == Said::Out(
                    "  queries/tags.scm: OK (captures valid)"@,
                )
                &&& query is Invalid ==> end.lines[6] == Said::Out(
                    "  queries/tags.scm: FAIL — "@ + query->Invalid_0@,
                )
                &&& query is Missing ==> end.lines[6] == Said::Out(
                    "  queries/tags.scm: MISSING — "@ + query->Missing_0@,
                )
                &&& grammar_exists ==> end.lines[7] == Said::Out("  grammars/"@ + grammar + ": OK"@)
                &&& !grammar_exists ==> end.lines[7] == Said::Out(
                    "  grammars/"@ + grammar + ": MISSING — build the grammar first"@,
                )
            }
        }),
{
}

/// The platform of a grammar file is its name up to the last dot.
pub proof fn law_platform_of_a_grammar(key: Seq<char>, ext: Seq<char>)
    requires
        !ext.contains('.'),
    ensures
        platform_of(key + seq!['.'] + ext) == key,
        platform_of(ext) == ext,
{
    let dot = CharClass::Only('.');
    let whole = key + seq!['.'] + ext;
    assert forall|i: int| whole.len() - ext.len() <= i < whole.len() implies !dot.holds(
        #[trigger] whole[i],
    ) by {
        let k = i - (key.len() + 1);
        assert(whole[i] == ext[k]);
        assert(ext.contains(ext[k]));
    }
    lemma_tail_span(whole, dot, ext.len() as int);
    assert(cut_last(whole, dot)->Some_0.0 =~= key);
    law_cut_at_the_last_separator(ext, dot);
    if cut_last(ext, dot) is Some {
        let a = cut_last(ext, dot)->Some_0.0;
        assert(ext[a.len() as int] == '.');
        assert(ext.contains('.'));
    }
}

/// The first line that begins with `version` declares it: the version is what
/// stands in the first quotes of that line, closed or not. Without such a line, or without
/// quotes in it, none is declared.
pub proof fn law_first_version_line_counts(
    all: Seq<Seq<char>>,
    i: int,
    before: Seq<char>,
    version: Seq<char>,
    rest: Seq<char>,
)
    requires
        0 <= i <= all.len(),
        forall|k: int| 0 <= k < i ==> !"version"@.is_prefix_of(#[trigger] all[k]),
        !before.contains('"'),
        !version.contains('"'),
    ensures
        i == all.len() ==> declared_version(all) is None,
        i < all.len() && "version"@.is_prefix_of(all[i]) && all[i] == before ==> declared_version(
            all,
        ) is None,
        i < all.len() && "version"@.is_prefix_of(all[i]) && all[i] == before + seq!['"'] + (version
            + seq!['"'] + rest) ==> declared_version(all) == Some(version),
        i < all.len() && "version"@.is_prefix_of(all[i]) && all[i] == before + seq!['"'] + version
            ==> declared_version(all) == Some(version),
    decreases all.len(),
{
    let quote = CharClass::Only('"');
    if i > 0 {
        let tail = all.skip(1);
        assert(!"version"@.is_prefix_of(all[0]));
        assert forall|k: int| 0 <= k < i - 1 implies !"version"@.is_prefix_of(
            #[trigger] tail[k],
        ) by {
            assert(tail[k] == all[k + 1]);
        }
        law_first_version_line_counts(tail, i - 1, before, version, rest);
        if i < all.len() {
            assert(tail[i - 1] == all[i]);
        }
    } else {
        assert forall|k: int| 0 <= k < before.len() implies !quote.holds(#[trigger] before[k]) by {
            assert(before.contains(before[k]));
        }
        assert forall|k: int| 0 <= k < version.len() implies !quote.holds(#[trigger] version[k]) by {
            assert(version.contains(version[k]));
        }
        law_split_at_every_separator(before, '"', version + seq!['"'] + rest, quote);
        law_split_at_every_separator(before, '"', version, quote);
        law_split_at_every_separator(version, '"', rest, quote);
    }
}

/// The first embedded plugin of a name gives its version; a name that none of
/// them bears has none.
pub proof fn law_version_of_a_plugin(plugins: Seq<EmbeddedPlugin>, name: Seq<char>, i: int)
    requires
        0 <= i <= plugins.len(),
        forall|k: int| 0 <= k < i ==> (#[trigger] plugins[k]).name@ != name,
    ensures
        i == plugins.len() ==> version_of(plugins, name) is None,
        i < plugins.len() && plugins[i].name@ == name ==> version_of(plugins, name)
            == declared_version(lines_of(plugins[i].toml@)),
    decreases plugins.len(),
{
    if i > 0 {
        let tail = plugins.skip(1);
        assert(plugins[0].name@ != name);
        assert forall|k: int| 0 <= k < i - 1 implies (#[trigger] tail[k]).name@ != name by {
            assert(tail[k] == plugins[k + 1]);
        }
        law_version_of_a_plugin(tail, name, i - 1);
        if i < plugins.len() {
            assert(tail[i - 1] == plugins[i]);
        }
    }
}

/// A plugin is downloaded exactly where its version is known: its archive for
/// the platform of the grammar, from the release of that version, and under its
/// name. Any other name is refused.
pub proof fn law_known_plugins_are_downloaded(
    name: Seq<char>,
    grammar: Seq<char>,
    plugins: Seq<EmbeddedPlugin>,
)
    ensures
        ({
            let f = fetching(name, grammar, plugins);
            let version = version_of(plugins, name);
            &&& f is Download <==> version is Some
            &&& f is Stop ==> f->Stop_0.code == 1 && f->Stop_0.lines == seq![
                Said::Note(
                    "Plugin '"@ + name
                        + "' not found in embedded data. Is it a valid plugin name?"@,
                ),
            ]
            &&& f is Download ==> {
                let url = "https://github.com/sentrux/plugins/releases/download/"@ + name + "-v"@
                    + version->Some_0 + "/"@ + name + "-"@ + platform_of(grammar) + ".tar.gz"@;
                &&& f->Download_0 == url
                &&& f->Download_1 == name + ".tar.gz"@
                &&& f->Download_2 == seq![
                    Said::Out(
                        "Downloading "@ + name + " plugin for "@ + platform_of(grammar) + "..."@,
                    ),
                    Said::Out("  "@ + url),
                ]
            }
        }),
{
}

/// Installing succeeds exactly where the archive was downloaded and extracted;
/// each failure is told for what it is.
pub proof fn law_installing_takes_both_steps(
    name: Seq<char>,
    place: Seq<char>,
    downloaded: bool,
    extracted: bool,
)
    ensures
        ({
            let end = installed(name, place, downloaded, extracted);
            &&& end.code == 0 <==> downloaded && extracted
            &&& end.code == 0 || end.code == 1
            &&& end.code == 0 ==> end.lines == seq![
                Said::Out("Installed "@ + name + " to "@ + place),
            ]
            &&& downloaded && !extracted ==> end.lines == seq![
                Said::Note("Failed to extract plugin archive"@),
            ]
            &&& !downloaded ==> end.lines.len() == 2 && end.lines[0] == Said::Note(
                "Failed to download plugin '"@ + name + "'."@,
            )
        }),
{
}

/// The grammars are downloaded exactly where some plugin asks for one that is
/// not installed, there is a place for them and nobody asked to skip it. They
/// come in the archive of the release, for the platform.
pub proof fn law_missing_grammars_are_downloaded(
    skip: bool,
    has_dir: bool,
    grammar: Seq<char>,
    version: Seq<char>,
    plugins: Seq<EmbeddedPlugin>,
)
    ensures
        ({
            let f = grammar_fetch(skip, has_dir, grammar, version, plugins);
            &&& f is Some <==> !skip && has_dir && exists|i: int|
                0 <= i < plugins.len() && !(#[trigger] plugins[i]).grammar_present && occurs(
                    plugins[i].toml@,
                    "[grammar]"@,
                )
            &&& f is Some ==> f->Some_0.url
                == "https://github.com/sentrux/sentrux/releases/download/v"@ + version
                + "/grammars-"@ + platform_of(grammar) + ".tar.gz"@
            &&& f is Some ==> f->Some_0.lines.len() == 4 && f->Some_0.lines[1] == Said::Note(
                "  Downloading language grammars for v"@ + version + "..."@,
            )
        }),
{
    if exists|i: int|
        0 <= i < plugins.len() && !(#[trigger] plugins[i]).grammar_present && occurs(
            plugins[i].toml@,
            "[grammar]"@,
        ) {
        let i = choose|i: int|
            0 <= i < plugins.len() && !(#[trigger] plugins[i]).grammar_present && occurs(
                plugins[i].toml@,
                "[grammar]"@,
            );
        assert(lacks_grammar(plugins[i]));
    }
    if exists|i: int| 0 <= i < plugins.len() && lacks_grammar(#[trigger] plugins[i]) {
        let i = choose|i: int| 0 <= i < plugins.len() && lacks_grammar(#[trigger] plugins[i]);
        assert(!plugins[i].grammar_present);
    }
}

/// As many grammars are ready as plugins have theirs.
pub proof fn law_present_grammars_are_counted(plugins: Seq<EmbeddedPlugin>)
    ensures
        present_count(plugins) == plugins.filter(|p: EmbeddedPlugin| p.grammar_present).len(),
    decreases plugins.len(),
{
    reveal(Seq::filter);
    if plugins.len() > 0 {
        law_present_grammars_are_counted(plugins.drop_last());
    }
}

/// What became of the grammars is told, and an empty line behind it: the number
/// of those that are ready where both steps worked, and otherwise the step that
/// did not.
pub proof fn law_what_became_of_the_grammars(
    downloaded: bool,
    extracted: bool,
    url: Seq<char>,
    plugins: Seq<EmbeddedPlugin>,
)
    ensures
        ({
            let told = grammars_told(downloaded, extracted, url, plugins);
            let ready = plugins.filter(|p: EmbeddedPlugin| p.grammar_present).len();
            &&& told.last() == Said::Note(""@)
            &&& !downloaded ==> told.drop_last() == seq![
                Said::Note("  Download failed. Check your network and try again."@),
                Said::Note("  URL: "@ + url),
            ]
            &&& downloaded && !extracted ==> told.drop_last() == seq![
                Said::Note("  Failed to extract grammars archive."@),
            ]
            &&& downloaded && extracted ==> told.drop_last() == seq![
                Said::Note("  "@ + decimal_of(ready) + " language grammars ready."@),
            ]
        }),
{
    law_present_grammars_are_counted(plugins);
    let told = grammars_told(downloaded, extracted, url, plugins);
    assert(told.drop_last() =~= told.take(told.len() - 1));
    if !downloaded {
        assert(told.drop_last() =~= seq![
            Said::Note("  Download failed. Check your network and try again."@),
            Said::Note("  URL: "@ + url),
        ]);
    } else if !extracted {
        assert(told.drop_last() =~= seq![Said::Note("  Failed to extract grammars archive."@)]);
    } else {
        assert(told.drop_last() =~= seq![
            Said::Note("  "@ + decimal_of(present_count(plugins)) + " language grammars ready."@),
        ]);
    }
}

} // verus!
