//! What a language plugin says about resolving imports.

use vstd::prelude::*;

use crate::lists::{
    concat_map, lemma_concat_map_add, lemma_concat_map_member, lemma_concat_map_one,
    lemma_concat_map_step,
};

verus! {

/// The resolver section of a language plugin. An empty text leaves a setting
/// out.
#[derive(Debug, PartialEq, Eq)]
pub struct ResolverConfig {
    /// The file that maps module paths to directories, such as `go.mod`.
    pub module_prefix_file: String,
    /// The word before the module path in that file, such as `module`.
    pub module_prefix_directive: String,
    /// The format of that file: `json_map`, or anything else for lines.
    pub module_prefix_format: String,
    /// Where a `json_map` file holds its mappings.
    pub module_prefix_json_paths: Vec<String>,
    /// What separates namespaces in such mappings.
    pub namespace_separator: String,
    /// The manifest that names the package, by name or as `*.ext`.
    pub alias_file: String,
    /// The field of the manifest that holds the name.
    pub alias_field: String,
    /// The file that an import of the package name stands for.
    pub alias_entry_point: String,
    /// How the name is rewritten, such as `hyphen_to_underscore`.
    pub alias_transform: String,
    /// The directory of a package that holds its sources.
    pub source_root: String,
    /// The file that declares path aliases, such as `tsconfig.json`.
    pub path_alias_file: String,
    /// Where that file holds its aliases.
    pub path_alias_field: String,
    /// Where that file holds the directory that aliases start from.
    pub path_alias_base_url: String,
}

/// A file to read: one that a plugin names, in the directory of a project.
pub struct ConfigRead<'a> {
    /// The root of the project.
    pub project_dir: &'a str,
    /// The plugin.
    pub config: &'a ResolverConfig,
}

impl<'a> DeepView for ConfigRead<'a> {
    type V = (Seq<char>, ResolverConfig);

    open spec fn deep_view(&self) -> (Seq<char>, ResolverConfig) {
        (self.project_dir@, *self.config)
    }
}

/// A file that a plugin names, with its content if there is such a file.
pub struct ConfigSource<'a> {
    /// Which file it is.
    pub read: ConfigRead<'a>,
    /// What it holds.
    pub content: Option<String>,
}

/// The plugins of `profiles` that `wanted` holds of, each in every project:
/// plugin by plugin.
pub open spec fn reads_of(
    roots: Seq<Seq<char>>,
    wanted: spec_fn(ResolverConfig) -> bool,
) -> spec_fn(ResolverConfig) -> Seq<(Seq<char>, ResolverConfig)> {
    |config: ResolverConfig|
        if wanted(config) {
            Seq::new(roots.len(), |i: int| (roots[i], config))
        } else {
            Seq::empty()
        }
}

/// Appends a plugin's reads in every project.
fn append_reads<'a>(
    roots: &'a Vec<String>,
    config: &'a ResolverConfig,
    out: &mut Vec<ConfigRead<'a>>,
)
    ensures
        final(out).deep_view() == old(out).deep_view() + Seq::new(
            roots.deep_view().len(),
            |i: int| (roots.deep_view()[i], *config),
        ),
{
    let ghost start = out.deep_view();
    let ghost views = roots.deep_view();
    let ghost added = Seq::new(views.len(), |i: int| (views[i], *config));
    let mut i: usize = 0;
    assert(out.deep_view() =~= start + added.take(0));
    while i < roots.len()
        invariant
            i <= roots@.len(),
            views == roots.deep_view(),
            added == Seq::new(views.len(), |i: int| (views[i], *config)),
            out.deep_view() == start + added.take(i as int),
        decreases roots@.len() - i,
    {
        let ghost was = out.deep_view();
        let read = ConfigRead { project_dir: &roots[i], config };
        assert(read.deep_view() == added[i as int]);
        out.push(read);
        assert(out.deep_view() =~= was.push(added[i as int]));
        assert(out.deep_view() =~= start + added.take(i + 1));
        i += 1;
    }
    assert(added.take(i as int) =~= added);
}

/// Lists the reads of the plugins that `is_wanted` keeps, each in every
/// project: plugin by plugin.
pub(crate) fn plan_reads<'a, F: Fn(&ResolverConfig) -> bool>(
    roots: &'a Vec<String>,
    profiles: &'a Vec<ResolverConfig>,
    is_wanted: F,
    Ghost(wanted): Ghost<spec_fn(ResolverConfig) -> bool>,
) -> (r: Vec<ConfigRead<'a>>)
    requires
        forall|c: &ResolverConfig| #[trigger] call_requires(is_wanted, (c,)),
        forall|c: &ResolverConfig, b: bool| #[trigger]
            call_ensures(is_wanted, (c,), b) ==> b == wanted(*c),
    ensures
        r.deep_view() == concat_map(profiles@, reads_of(roots.deep_view(), wanted)),
{
    let ghost f = reads_of(roots.deep_view(), wanted);
    let mut out: Vec<ConfigRead<'a>> = Vec::new();
    let mut i: usize = 0;
    assert(out.deep_view() =~= concat_map(profiles@.take(0), f));
    while i < profiles.len()
        invariant
            i <= profiles@.len(),
            forall|c: &ResolverConfig| #[trigger] call_requires(is_wanted, (c,)),
            forall|c: &ResolverConfig, b: bool| #[trigger]
                call_ensures(is_wanted, (c,), b) ==> b == wanted(*c),
            f == reads_of(roots.deep_view(), wanted),
            out.deep_view() == concat_map(profiles@.take(i as int), f),
        decreases profiles@.len() - i,
    {
        let config = &profiles[i];
        let ghost before = out.deep_view();
        proof {
            lemma_concat_map_step(profiles@, f, i as int);
        }
        if is_wanted(config) {
            append_reads(roots, config, &mut out);
        } else {
            assert(out.deep_view() =~= before + f(*config));
        }
        i += 1;
    }
    assert(profiles@.take(i as int) =~= profiles@);
    out
}

/// A wanted plugin is read in every project, and no other plugin is read.
pub proof fn law_every_wanted_plugin_is_read(
    roots: Seq<Seq<char>>,
    profiles: Seq<ResolverConfig>,
    wanted: spec_fn(ResolverConfig) -> bool,
    read: (Seq<char>, ResolverConfig),
)
    ensures
        concat_map(profiles, reads_of(roots, wanted)).contains(read) <==> roots.contains(read.0)
            && profiles.contains(read.1) && wanted(read.1),
{
    let f = reads_of(roots, wanted);
    lemma_concat_map_member(profiles, f, read);
    if concat_map(profiles, f).contains(read) {
        let i = choose|i: int| 0 <= i < profiles.len() && f(#[trigger] profiles[i]).contains(read);
        let part = f(profiles[i]);
        let k = choose|k: int| 0 <= k < part.len() && part[k] == read;
        assert(roots[k] == read.0);
    }
    if roots.contains(read.0) && profiles.contains(read.1) && wanted(read.1) {
        let i = choose|i: int| 0 <= i < profiles.len() && profiles[i] == read.1;
        let k = choose|k: int| 0 <= k < roots.len() && roots[k] == read.0;
        assert(f(profiles[i])[k] == read);
    }
}

/// Reads come plugin by plugin, and for each plugin project by project.
pub proof fn law_reads_come_plugin_by_plugin(
    roots: Seq<Seq<char>>,
    a: Seq<ResolverConfig>,
    config: ResolverConfig,
    b: Seq<ResolverConfig>,
    wanted: spec_fn(ResolverConfig) -> bool,
)
    ensures
        concat_map(a + b, reads_of(roots, wanted)) == concat_map(a, reads_of(roots, wanted))
            + concat_map(b, reads_of(roots, wanted)),
        wanted(config) ==> concat_map(seq![config], reads_of(roots, wanted)) == Seq::new(
            roots.len(),
            |i: int| (roots[i], config),
        ),
{
    lemma_concat_map_add(a, b, reads_of(roots, wanted));
    lemma_concat_map_one(config, reads_of(roots, wanted));
}

} // verus!
