//! Path aliases: specifiers that stand for directories of the scan.

use vstd::prelude::*;

use crate::document::{
    descend, json_text, parse_json, text_value, tree_of, untagged, Node, Tree,
};
use crate::lists::{concat_map, lemma_concat_map_member, lemma_concat_map_step};
use crate::manifest::{at_path, extract_name_from_manifest, name_in_manifest, navigate_json};
use crate::profile::{
    law_every_wanted_plugin_is_read, plan_reads, reads_of, ConfigRead, ConfigSource,
    ResolverConfig,
};
use crate::sorting::{lemma_sorted, order, sorted, stable_sort, Ranked};
use crate::table::{NameSet, Table};
use crate::text::{
    byte_len, ends_with, law_leading_copies_are_taken_off, law_split_at_every_separator,
    law_trim_end, measure, pieces, replace, replaced, same, starts_with, strip_prefix, trim_end,
    trim_end_of, trim_prefix, trim_prefix_of, trim_start, trim_start_of, CharClass,
};

verus! {

/// The slash that separates the steps of a path.
pub open spec fn slash() -> CharClass {
    CharClass::Only('/')
}

/// A prefix of specifiers, and what may stand in its place.
#[derive(Debug, PartialEq, Eq)]
pub struct PathAlias {
    /// The prefix.
    pub prefix: String,
    /// The replacements; the first one counts.
    pub replacements: Vec<String>,
}

/// What a [`PathAlias`] holds.
pub struct AliasRule {
    pub prefix: Seq<char>,
    pub replacements: Seq<Seq<char>>,
}

impl DeepView for PathAlias {
    type V = AliasRule;

    open spec fn deep_view(&self) -> AliasRule {
        AliasRule { prefix: self.prefix@, replacements: self.replacements.deep_view() }
    }
}

/// Aliases are ordered by the length of the prefix, longest first.
impl Ranked for PathAlias {
    open spec fn le(a: AliasRule, b: AliasRule) -> bool {
        byte_len(b.prefix) <= byte_len(a.prefix)
    }

    proof fn le_total(a: AliasRule, b: AliasRule) {
    }

    proof fn le_transitive(a: AliasRule, b: AliasRule, c: AliasRule) {
    }

    fn is_le(&self, other: &Self) -> (r: bool) {
        measure(&other.prefix) <= measure(&self.prefix)
    }
}

// ---------------------------------------------------------------------------
// Substitution
// ---------------------------------------------------------------------------

/// What an alias makes of a specifier. A specifier that begins with the prefix
/// has it replaced; the prefix itself, without slashes at its end, stands for
/// the directory. An alias of the root directory says nothing of its own name.
pub open spec fn substitute(specifier: Seq<char>, alias: AliasRule) -> Option<Seq<char>> {
    if alias.replacements.len() == 0 {
        None
    } else if alias.prefix.is_prefix_of(specifier) {
        Some(alias.replacements[0] + specifier.skip(alias.prefix.len() as int))
    } else {
        let dir = trim_end_of(alias.replacements[0], slash());
        if specifier == trim_end_of(alias.prefix, slash()) && dir.len() > 0 {
            Some(dir)
        } else {
            None
        }
    }
}

/// What the first alias that applies makes of a specifier.
pub open spec fn aliased(specifier: Seq<char>, aliases: Seq<AliasRule>) -> Option<Seq<char>>
    decreases aliases.len(),
{
    if aliases.len() == 0 {
        None
    } else {
        match substitute(specifier, aliases[0]) {
            Some(found) => Some(found),
            None => aliased(specifier, aliases.skip(1)),
        }
    }
}

/// Applies the first alias that matches a specifier.
pub fn apply_path_alias(specifier: &str, aliases: &Vec<PathAlias>) -> (r: Option<String>)
    ensures
        r.deep_view() == aliased(specifier@, aliases.deep_view()),
{
    let ghost all = aliases.deep_view();
    let mut i: usize = 0;
    assert(all.skip(0) =~= all);
    while i < aliases.len()
        invariant
            i <= aliases@.len(),
            all == aliases.deep_view(),
            aliased(specifier@, all.skip(i as int)) == aliased(specifier@, all),
        decreases aliases@.len() - i,
    {
        let alias = &aliases[i];
        assert(all.skip(i as int)[0] == alias.deep_view());
        assert(all.skip(i as int).skip(1) =~= all.skip(i + 1));
        if alias.replacements.len() > 0 {
            let replacement = &alias.replacements[0];
            match strip_prefix(specifier, &alias.prefix) {
                Some(remainder) => {
                    let mut out = replacement.clone();
                    out.append(remainder);
                    return Some(out);
                }
                None => {
                    if same(specifier, trim_end(&alias.prefix, CharClass::Only('/'))) {
                        let dir = trim_end(replacement, CharClass::Only('/'));
                        if !dir.is_empty() {
                            return Some(dir.to_owned());
                        }
                    }
                }
            }
        }
        i += 1;
    }
    None
}

// ---------------------------------------------------------------------------
// Aliases declared in a configuration file
// ---------------------------------------------------------------------------

/// The directory that declared aliases start from; `.` where none is given.
pub open spec fn base_url(root: Tree, path: Seq<char>) -> Seq<char> {
    if path.len() == 0 {
        "."@
    } else {
        match at_path(root, path) {
            Some(found) => match text_value(found) {
                Some(s) => s,
                None => "."@,
            },
            None => "."@,
        }
    }
}

/// A declared replacement, from the root of the project.
pub open spec fn rebased(target: Seq<char>, base: Seq<char>) -> Seq<char> {
    let stripped = trim_end_of(target, CharClass::Only('*'));
    if base == "."@ {
        stripped
    } else {
        trim_end_of(base, slash()) + "/"@ + trim_prefix_of(stripped, "./"@)
    }
}

/// The replacements that a list of targets declares.
pub open spec fn replacements_in(items: Seq<Tree>, base: Seq<char>) -> Seq<Seq<char>>
    decreases items.len(),
{
    if items.len() == 0 {
        Seq::empty()
    } else {
        let head = replacements_in(items.drop_last(), base);
        match text_value(items.last()) {
            Some(s) => head.push(rebased(s, base)),
            None => head,
        }
    }
}

/// The alias that one entry declares, if it declares one.
pub open spec fn entry_alias(base: Seq<char>) -> spec_fn((Tree, Tree)) -> Seq<AliasRule> {
    |entry: (Tree, Tree)|
        match (entry.0, entry.1) {
            (Tree::Text(pattern), Tree::List(items)) => {
                let prefix = trim_end_of(pattern, CharClass::Only('*'));
                let replacements = replacements_in(items, base);
                if prefix.len() == 0 || replacements.len() == 0 {
                    Seq::empty()
                } else {
                    seq![AliasRule { prefix, replacements }]
                }
            },
            _ => Seq::empty(),
        }
}

/// The aliases that a configuration document declares.
pub open spec fn declared_aliases(
    document: Option<Tree>,
    field_path: Seq<char>,
    base_url_path: Seq<char>,
) -> Seq<AliasRule> {
    match document {
        Some(root) => match at_path(root, field_path) {
            Some(Tree::Table(entries)) => concat_map(
                entries,
                entry_alias(base_url(root, base_url_path)),
            ),
            _ => Seq::empty(),
        },
        None => Seq::empty(),
    }
}

/// The aliases of a document in the order in which they are tried; none if
/// it declares none.
pub open spec fn tried_aliases(declared: Seq<AliasRule>) -> Option<Seq<AliasRule>> {
    if declared.len() == 0 {
        None
    } else {
        Some(sorted(declared, order::<PathAlias>()))
    }
}

/// Writes a declared replacement from the root of the project.
fn rebase(target: &str, base: &str) -> (r: String)
    ensures
        r@ == rebased(target@, base@),
{
    let stripped = trim_end(target, CharClass::Only('*'));
    if same(base, ".") {
        stripped.to_owned()
    } else {
        let mut out = trim_end(base, CharClass::Only('/')).to_owned();
        out.append("/");
        out.append(trim_prefix(stripped, "./"));
        out
    }
}

/// Reads the replacements that a list of targets declares.
fn read_replacements(items: &Vec<Node>, base: &str) -> (r: Vec<String>)
    ensures
        r.deep_view() == replacements_in(tree_of(Node::List(*items))->List_0, base@),
{
    let ghost all = tree_of(Node::List(*items))->List_0;
    let mut out: Vec<String> = Vec::new();
    let mut i: usize = 0;
    assert(out.deep_view() =~= replacements_in(all.take(0), base@));
    while i < items.len()
        invariant
            i <= items@.len(),
            all.len() == items@.len(),
            forall|k: int| 0 <= k < all.len() ==> all[k] == tree_of(#[trigger] items@[k]),
            out.deep_view() == replacements_in(all.take(i as int), base@),
        decreases items@.len() - i,
    {
        let ghost before = out.deep_view();
        assert(all.take(i + 1).drop_last() =~= all.take(i as int));
        assert(all.take(i + 1).last() == tree_of(items@[i as int]));
        if let Some(s) = items[i].as_text() {
            let target = rebase(s, base);
            out.push(target);
            assert(out.deep_view() =~= before.push(target@));
        }
        i += 1;
    }
    assert(all.take(i as int) =~= all);
    out
}

/// Reads the directory that declared aliases start from.
fn read_base_url<'a>(root: &'a Node, path: &str) -> (r: &'a str)
    ensures
        r@ == base_url(root@, path@),
{
    if !path.is_empty() {
        if let Some(found) = navigate_json(root, path) {
            if let Some(s) = found.as_text() {
                return s;
            }
        }
    }
    "."
}

/// Reads the aliases that a configuration document declares, the longest
/// prefix first.
pub fn path_alias_rules(document: &Option<Node>, field_path: &str, base_url_path: &str) -> (r: Option<
    Vec<PathAlias>,
>)
    ensures
        r.deep_view() == tried_aliases(
            declared_aliases(document.deep_view(), field_path@, base_url_path@),
        ),
{
    let root = match document {
        Some(root) => root,
        None => {
            return None;
        }
    };
    let base = read_base_url(root, base_url_path);
    let found = match navigate_json(root, field_path) {
        Some(found) => found,
        None => {
            return None;
        }
    };
    let entries = match found {
        Node::Table(entries) => entries,
        _ => {
            return None;
        }
    };
    let ghost all = found@->Table_0;
    let ghost f = entry_alias(base@);
    let mut aliases: Vec<PathAlias> = Vec::new();
    let mut i: usize = 0;
    assert(aliases.deep_view() =~= concat_map(all.take(0), f));
    while i < entries.len()
        invariant
            i <= entries@.len(),
            *found == Node::Table(*entries),
            all == found@->Table_0,
            f == entry_alias(base@),
            aliases.deep_view() == concat_map(all.take(i as int), f),
        decreases entries@.len() - i,
    {
        let ghost before = aliases.deep_view();
        let ghost added = f(all[i as int]);
        assert(all[i as int] == (tree_of(entries@[i as int].0), tree_of(entries@[i as int].1)));
        proof {
            lemma_concat_map_step(all, f, i as int);
        }
        let mut pushed = false;
        if let Node::Text(pattern) = &entries[i].0 {
            let prefix = trim_end(pattern, CharClass::Only('*'));
            if !prefix.is_empty() {
                if let Node::List(items) = &entries[i].1 {
                    let replacements = read_replacements(items, base);
                    if !replacements.is_empty() {
                        let alias = PathAlias { prefix: prefix.to_owned(), replacements };
                        let ghost view = alias.deep_view();
                        aliases.push(alias);
                        pushed = true;
                        assert(added =~= seq![view]);
                        assert(aliases.deep_view() =~= before + added);
                    }
                }
            }
        }
        if !pushed {
            assert(added =~= Seq::<AliasRule>::empty());
            assert(aliases.deep_view() =~= before + added);
        }
        i += 1;
    }
    assert(all.take(i as int) =~= all);
    if aliases.is_empty() {
        None
    } else {
        Some(stable_sort(aliases))
    }
}

/// Parses a JSON configuration and extracts its path aliases.
pub fn parse_path_alias_config(content: &str, field_path: &str, base_url_path: &str) -> (r: Option<
    Vec<PathAlias>,
>)
    ensures
        r.deep_view() == tried_aliases(
            declared_aliases(json_text(content@), field_path@, base_url_path@),
        ),
{
    path_alias_rules(&parse_json(content), field_path, base_url_path)
}

/// Whether a plugin declares path aliases in a file.
pub open spec fn has_path_aliases() -> spec_fn(ResolverConfig) -> bool {
    |config: ResolverConfig|
        config.path_alias_file@.len() > 0 && config.path_alias_field@.len() > 0
}

/// Lists the files of path aliases to read, plugin by plugin.
pub fn plan_path_alias_reads<'a>(
    roots: &'a Vec<String>,
    profiles: &'a Vec<ResolverConfig>,
) -> (r: Vec<ConfigRead<'a>>)
    ensures
        r.deep_view() == concat_map(profiles@, reads_of(roots.deep_view(), has_path_aliases())),
{
    let is_wanted = |config: &ResolverConfig| -> (b: bool)
        ensures
            b == has_path_aliases()(*config),
        {
            !config.path_alias_file.as_str().is_empty()
                && !config.path_alias_field.as_str().is_empty()
        };
    plan_reads(roots, profiles, is_wanted, Ghost(has_path_aliases()))
}

/// The aliases of a file of path aliases, in the order in which they are
/// tried; none where there is no such file.
pub open spec fn source_aliases(source: ConfigSource) -> Option<Seq<AliasRule>> {
    match source.content {
        Some(content) => tried_aliases(
            declared_aliases(
                json_text(content@),
                source.read.config.path_alias_field@,
                source.read.config.path_alias_base_url@,
            ),
        ),
        None => None,
    }
}

/// What each project has: the first of what was found for it.
pub open spec fn first_found(found: Seq<(Seq<char>, Option<Seq<AliasRule>>)>) -> Map<
    Seq<char>,
    Seq<AliasRule>,
>
    decreases found.len(),
{
    if found.len() == 0 {
        Map::empty()
    } else {
        let m = first_found(found.drop_last());
        let (dir, rules) = found.last();
        match rules {
            Some(list) => if m.contains_key(dir) {
                m
            } else {
                m.insert(dir, list)
            },
            None => m,
        }
    }
}

/// Each file of path aliases: its project, with the aliases that it declares.
pub open spec fn declared_by(sources: Seq<ConfigSource>) -> Seq<
    (Seq<char>, Option<Seq<AliasRule>>),
> {
    Seq::new(
        sources.len(),
        |i: int| (sources[i].read.project_dir@, source_aliases(sources[i])),
    )
}

/// The aliases of each project: those of its first file that declares any.
pub open spec fn aliases_by_project(sources: Seq<ConfigSource>) -> Map<Seq<char>, Seq<AliasRule>> {
    first_found(declared_by(sources))
}

/// Loads the path aliases of one project out of a file's content.
pub fn try_load_project_aliases(source: &ConfigSource) -> (r: Option<Vec<PathAlias>>)
    ensures
        r.deep_view() == source_aliases(*source),
{
    match &source.content {
        Some(content) => parse_path_alias_config(
            content,
            &source.read.config.path_alias_field,
            &source.read.config.path_alias_base_url,
        ),
        None => None,
    }
}

/// Keeps for each project the first aliases that were found for it.
pub fn keep_first_aliases(found: Vec<(String, Option<Vec<PathAlias>>)>) -> (r: Table<
    Vec<PathAlias>,
>)
    ensures
        r.wf(),
        r.deep_view() == first_found(found.deep_view()),
{
    let ghost given = found@;
    let ghost all = found.deep_view();
    let mut result: Table<Vec<PathAlias>> = Table::new();
    assert(result.deep_view() =~= first_found(all.take(0)));
    for item in it: found
        invariant
            it.seq() == given,
            all.len() == given.len(),
            forall|k: int| 0 <= k < all.len() ==> all[k] == (#[trigger] given[k]).deep_view(),
            result.wf(),
            result.deep_view() == first_found(all.take(it.index())),
    {
        let ghost i = it.index();
        let ghost before = result.deep_view();
        assert(item == given[i]);
        assert(all.take(i + 1).drop_last() =~= all.take(i));
        assert(all.take(i + 1).last() == item.deep_view());
        let dir = item.0;
        if let Some(list) = item.1 {
            if !result.contains_key(&dir) {
                let ghost rules = list.deep_view();
                let ghost key = dir@;
                result.insert(dir, list);
                assert(result.deep_view() =~= before.insert(key, rules));
            }
        }
    }
    assert(all.take(all.len() as int) =~= all);
    result
}

/// Loads the path aliases of every project. A project takes the aliases of
/// its first file that declares any.
pub fn load_path_aliases(sources: &Vec<ConfigSource>) -> (r: Table<Vec<PathAlias>>)
    ensures
        r.wf(),
        r.deep_view() == aliases_by_project(sources@),
{
    let ghost all = declared_by(sources@);
    let mut found: Vec<(String, Option<Vec<PathAlias>>)> = Vec::new();
    let mut i: usize = 0;
    assert(found.deep_view() =~= all.take(0));
    while i < sources.len()
        invariant
            i <= sources@.len(),
            all == declared_by(sources@),
            found.deep_view() == all.take(i as int),
        decreases sources@.len() - i,
    {
        let source = &sources[i];
        let ghost before = found.deep_view();
        let item = (source.read.project_dir.to_owned(), try_load_project_aliases(source));
        assert(item.deep_view() == all[i as int]);
        found.push(item);
        assert(found.deep_view() =~= before.push(all[i as int]));
        assert(found.deep_view() =~= all.take(i + 1));
        i += 1;
    }
    assert(all.take(i as int) =~= all);
    keep_first_aliases(found)
}

// ---------------------------------------------------------------------------
// Aliases out of package names
// ---------------------------------------------------------------------------

/// A package name as importers write it.
pub open spec fn transformed(name: Seq<char>, transform: Seq<char>) -> Seq<char> {
    if transform == "hyphen_to_underscore"@ {
        replaced(name, "-"@, "_"@)
    } else {
        name
    }
}

/// Rewrites a package name as importers write it.
pub fn apply_alias_transform(name: &str, transform: &str) -> (r: String)
    ensures
        r@ == transformed(name@, transform@),
{
    if same(transform, "hyphen_to_underscore") {
        proof {
            reveal_strlit("-");
        }
        replace(name, "-", "_")
    } else {
        name.to_owned()
    }
}

/// The directory of a package's sources, with a slash behind each step.
pub open spec fn source_dir(project_dir: Seq<char>, source_root: Seq<char>) -> Seq<char> {
    let base = if project_dir.len() == 0 {
        Seq::empty()
    } else {
        project_dir + "/"@
    };
    if source_root.len() == 0 {
        base
    } else {
        base + source_root + "/"@
    }
}

/// Builds the directory that stands for a package.
pub fn build_dir_replacement(project_dir: &str, source_root: &str) -> (r: String)
    ensures
        r@ == source_dir(project_dir@, source_root@),
{
    let mut out = String::new();
    if !project_dir.is_empty() {
        out.append(project_dir);
        out.append("/");
        assert(out@ =~= project_dir@ + "/"@);
    }
    if !source_root.is_empty() {
        out.append(source_root);
        out.append("/");
    }
    out
}

/// An entry of a directory.
#[derive(Debug, PartialEq, Eq)]
pub struct DirEntry {
    /// Its name.
    pub name: String,
    /// Whether it is a file.
    pub is_file: bool,
}

/// The first file whose name ends with `ext`.
pub open spec fn first_file(entries: Seq<DirEntry>, ext: Seq<char>) -> Option<Seq<char>>
    decreases entries.len(),
{
    if entries.len() == 0 {
        None
    } else if ext.is_suffix_of(entries[0].name@) && entries[0].is_file {
        Some(entries[0].name@)
    } else {
        first_file(entries.skip(1), ext)
    }
}

/// The manifest that `filename` means in a directory: the first match of a
/// pattern like `*.csproj`, or the very file where it exists.
pub open spec fn manifest_in(
    filename: Seq<char>,
    entries: Seq<DirEntry>,
    exists: bool,
) -> Option<Seq<char>> {
    if "*"@.is_prefix_of(filename) {
        first_file(entries, trim_start_of(filename, CharClass::Only('*')))
    } else if exists {
        Some(filename)
    } else {
        None
    }
}

/// Resolves the name of a manifest to a file of its directory. `entries` are
/// the entries of the directory, which only a pattern needs; `exists` tells
/// whether there is a file of exactly that name.
pub fn resolve_manifest_path(filename: &str, entries: &Vec<DirEntry>, exists: bool) -> (r: Option<
    String,
>)
    ensures
        r.deep_view() == manifest_in(filename@, entries@, exists),
{
    if starts_with(filename, "*") {
        let ext = trim_start(filename, CharClass::Only('*'));
        let mut i: usize = 0;
        assert(entries@.skip(0) =~= entries@);
        while i < entries.len()
            invariant
                i <= entries@.len(),
                first_file(entries@.skip(i as int), ext@) == first_file(entries@, ext@),
                "*"@.is_prefix_of(filename@),
                ext@ == trim_start_of(filename@, CharClass::Only('*')),
            decreases entries@.len() - i,
        {
            assert(entries@.skip(i as int).skip(1) =~= entries@.skip(i + 1));
            if ends_with(&entries[i].name, ext) && entries[i].is_file {
                return Some(entries[i].name.clone());
            }
            i += 1;
        }
        None
    } else if exists {
        Some(filename.to_owned())
    } else {
        None
    }
}

/// The alias of a project out of the content of its manifest.
pub open spec fn project_alias(
    project_dir: Seq<char>,
    config: ResolverConfig,
    content: Option<Seq<char>>,
) -> Option<AliasRule> {
    match content {
        Some(text) => match name_in_manifest(text, config.alias_field@, config.alias_file@) {
            Some(name) => if name.len() == 0 {
                None
            } else {
                Some(
                    AliasRule {
                        prefix: transformed(name, config.alias_transform@) + "/"@,
                        replacements: seq![source_dir(project_dir, config.source_root@)],
                    },
                )
            },
            None => None,
        },
        None => None,
    }
}

/// Makes an alias of a project's package name. The directory of the manifest
/// is the package: an import of the name means the files of that directory.
pub fn resolve_project_alias(
    project_dir: &str,
    config: &ResolverConfig,
    content: &Option<String>,
) -> (r: Option<PathAlias>)
    ensures
        r.deep_view() == project_alias(project_dir@, *config, content.deep_view()),
{
    let text = match content {
        Some(text) => text,
        None => {
            return None;
        }
    };
    let name = match extract_name_from_manifest(text, &config.alias_field, &config.alias_file) {
        Some(name) => name,
        None => {
            return None;
        }
    };
    if name.as_str().is_empty() {
        return None;
    }
    let mut prefix = apply_alias_transform(&name, &config.alias_transform);
    prefix.append("/");
    let mut replacements: Vec<String> = Vec::new();
    let dir = build_dir_replacement(project_dir, &config.source_root);
    let ghost view = dir@;
    replacements.push(dir);
    assert(replacements.deep_view() =~= seq![view]);
    Some(PathAlias { prefix, replacements })
}

/// Whether a plugin names packages by a manifest.
pub open spec fn has_manifest_names() -> spec_fn(ResolverConfig) -> bool {
    |config: ResolverConfig| config.alias_file@.len() > 0 && config.alias_field@.len() > 0
}

/// Lists the manifests to read for package names, plugin by plugin.
pub fn plan_manifest_reads<'a>(
    roots: &'a Vec<String>,
    profiles: &'a Vec<ResolverConfig>,
) -> (r: Vec<ConfigRead<'a>>)
    ensures
        r.deep_view() == concat_map(profiles@, reads_of(roots.deep_view(), has_manifest_names())),
{
    let is_wanted = |config: &ResolverConfig| -> (b: bool)
        ensures
            b == has_manifest_names()(*config),
        {
            !config.alias_file.as_str().is_empty() && !config.alias_field.as_str().is_empty()
        };
    plan_reads(roots, profiles, is_wanted, Ghost(has_manifest_names()))
}

/// The aliases of package names that manifests give, and the projects that
/// they come from. A project gives one alias: that of its first manifest
/// with a name.
pub open spec fn named_projects(sources: Seq<ConfigSource>) -> (Seq<AliasRule>, Set<Seq<char>>)
    decreases sources.len(),
{
    if sources.len() == 0 {
        (Seq::empty(), Set::empty())
    } else {
        let (aliases, seen) = named_projects(sources.drop_last());
        let source = sources.last();
        let dir = source.read.project_dir@;
        let alias = project_alias(dir, *source.read.config, source.content.deep_view());
        match alias {
            Some(rule) => if seen.contains(dir) {
                (aliases, seen)
            } else {
                (aliases.push(rule), seen.insert(dir))
            },
            None => (aliases, seen),
        }
    }
}

/// Builds the aliases of package names out of all manifests, the longest
/// prefix first.
pub fn collect_manifest_path_aliases(sources: &Vec<ConfigSource>) -> (r: Vec<PathAlias>)
    ensures
        r.deep_view() == sorted(named_projects(sources@).0, order::<PathAlias>()),
{
    let mut aliases: Vec<PathAlias> = Vec::new();
    let mut seen_dirs = NameSet::new();
    let mut i: usize = 0;
    assert(aliases.deep_view() =~= named_projects(sources@.take(0)).0);
    while i < sources.len()
        invariant
            i <= sources@.len(),
            aliases.deep_view() == named_projects(sources@.take(i as int)).0,
            seen_dirs@ == named_projects(sources@.take(i as int)).1,
        decreases sources@.len() - i,
    {
        let source = &sources[i];
        let ghost before = aliases.deep_view();
        assert(sources@.take(i + 1).drop_last() =~= sources@.take(i as int));
        if !seen_dirs.contains(source.read.project_dir) {
            if let Some(alias) = resolve_project_alias(
                source.read.project_dir,
                source.read.config,
                &source.content,
            ) {
                let ghost view = alias.deep_view();
                aliases.push(alias);
                assert(aliases.deep_view() =~= before.push(view));
                seen_dirs.insert(source.read.project_dir);
            }
        }
        i += 1;
    }
    assert(sources@.take(i as int) =~= sources@);
    stable_sort(aliases)
}

// ---------------------------------------------------------------------------
// Laws
// ---------------------------------------------------------------------------

/// The result of trying aliases is that of the first one that applies.
proof fn lemma_first_alias(specifier: Seq<char>, rules: Seq<AliasRule>) -> (i: int)
    ensures
        0 <= i <= rules.len(),
        forall|k: int| 0 <= k < i ==> substitute(specifier, #[trigger] rules[k]) is None,
        i < rules.len() ==> substitute(specifier, rules[i]) is Some && aliased(specifier, rules)
            == substitute(specifier, rules[i]),
        i == rules.len() ==> aliased(specifier, rules) is None,
    decreases rules.len(),
{
    if rules.len() == 0 || substitute(specifier, rules[0]) is Some {
        0
    } else {
        let rest = rules.skip(1);
        let n = lemma_first_alias(specifier, rest);
        assert forall|k: int| 0 <= k < n + 1 implies substitute(
            specifier,
            #[trigger] rules[k],
        ) is None by {
            if k > 0 {
                assert(rest[k - 1] == rules[k]);
            }
        }
        n + 1
    }
}

/// Of the aliases that apply to a specifier, one with the longest prefix is
/// taken; where one applies, one is taken.
pub proof fn law_longest_alias_is_taken(specifier: Seq<char>, declared: Seq<AliasRule>)
    ensures
        match aliased(specifier, sorted(declared, order::<PathAlias>())) {
            Some(result) => exists|i: int|
                {
                    &&& 0 <= i < declared.len()
                    &&& substitute(specifier, #[trigger] declared[i]) == Some(result)
                    &&& forall|j: int|
                        0 <= j < declared.len() && substitute(
                            specifier,
                            #[trigger] declared[j],
                        ) is Some ==> byte_len(declared[j].prefix) <= byte_len(declared[i].prefix)
                },
            None => forall|j: int|
                0 <= j < declared.len() ==> substitute(specifier, #[trigger] declared[j]) is None,
        },
{
    let rules = sorted(declared, order::<PathAlias>());
    let le = order::<PathAlias>();
    lemma_sorted::<PathAlias>(declared);
    let n = lemma_first_alias(specifier, rules);
    if n < rules.len() {
        assert(rules.contains(rules[n]));
        assert(declared.contains(rules[n]));
        let i = choose|i: int| 0 <= i < declared.len() && declared[i] == rules[n];
        assert forall|j: int|
            0 <= j < declared.len() && substitute(
                specifier,
                #[trigger] declared[j],
            ) is Some implies byte_len(declared[j].prefix) <= byte_len(declared[i].prefix) by {
            assert(declared.contains(declared[j]));
            assert(rules.contains(declared[j]));
            let k = choose|k: int| 0 <= k < rules.len() && rules[k] == declared[j];
            if k < n {
                assert(substitute(specifier, rules[k]) is None);
            } else if k > n {
                assert(le(rules[n], rules[k]));
            }
        }
        assert(substitute(specifier, declared[i]) == aliased(specifier, rules));
    } else {
        assert forall|j: int| 0 <= j < declared.len() implies substitute(
            specifier,
            #[trigger] declared[j],
        ) is None by {
            assert(declared.contains(declared[j]));
            assert(rules.contains(declared[j]));
            let k = choose|k: int| 0 <= k < rules.len() && rules[k] == declared[j];
            assert(substitute(specifier, rules[k]) is None);
        }
    }
}

/// A project gives one alias of its package name at most.
pub proof fn law_project_is_named_once(sources: Seq<ConfigSource>)
    ensures
        named_projects(sources).1.finite(),
        named_projects(sources).0.len() == named_projects(sources).1.len(),
    decreases sources.len(),
{
    if sources.len() > 0 {
        law_project_is_named_once(sources.drop_last());
    }
}

/// A declared replacement is the base URL without the slashes at its end, one
/// slash, and the target without the stars at its end and without leading
/// `./`; nothing else of the two is lost.
pub proof fn law_replacement_joins_base_and_target(target: Seq<char>, base: Seq<char>)
    requires
        base != seq!['.'],
    ensures
        exists|n: int, i: int, m: int|
            {
                &&& 0 <= n <= base.len()
                &&& 0 <= i <= m <= target.len()
                &&& rebased(target, base) == #[trigger] base.take(n) + seq!['/']
                    + #[trigger] target.subrange(i, m)
                &&& forall|k: int| n <= k < base.len() ==> #[trigger] base[k] == '/'
                &&& n > 0 ==> base[n - 1] != '/'
                &&& forall|k: int| m <= k < target.len() ==> #[trigger] target[k] == '*'
                &&& m > 0 ==> target[m - 1] != '*'
                &&& i % 2 == 0
                &&& forall|k: int|
                    0 <= k < i ==> #[trigger] target[k] == (if k % 2 == 0 {
                        '.'
                    } else {
                        '/'
                    })
                &&& !(i + 1 < m && target[i] == '.' && target[i + 1] == '/')
            },
{
    let star = CharClass::Only('*');
    let stripped = trim_end_of(target, star);
    let b = trim_end_of(base, slash());
    let rest = trim_prefix_of(stripped, "./"@);
    reveal_strlit("./");
    reveal_strlit("/");
    reveal_strlit(".");
    assert("."@ =~= seq!['.']);
    assert("/"@ =~= seq!['/']);
    law_trim_end(target, star);
    law_trim_end(base, slash());
    lemma_dot_steps(stripped);
    let n = b.len() as int;
    let m = stripped.len() as int;
    let i = m - rest.len();
    assert(b =~= base.take(n));
    assert(stripped =~= target.take(m));
    assert(rest =~= target.subrange(i, m));
    assert(rebased(target, base) =~= base.take(n) + seq!['/'] + target.subrange(i, m));
    assert forall|k: int| n <= k < base.len() implies #[trigger] base[k] == '/' by {
        assert(slash().holds(base[k]));
    }
    assert forall|k: int| m <= k < target.len() implies #[trigger] target[k] == '*' by {
        assert(star.holds(target[k]));
    }
    if n > 0 {
        assert(b.last() == base[n - 1]);
    }
    if m > 0 {
        assert(stripped.last() == target[m - 1]);
    }
    assert forall|k: int| 0 <= k < i implies #[trigger] target[k] == (if k % 2 == 0 {
        '.'
    } else {
        '/'
    }) by {
        assert(stripped[k] == target[k]);
    }
    if i + 1 < m && target[i] == '.' && target[i + 1] == '/' {
        assert(rest[0] == '.' && rest[1] == '/');
        assert(rest.subrange(0, 2) =~= "./"@);
    }
}

/// Leading steps of `./` are taken off by twos.
proof fn lemma_dot_steps(s: Seq<char>)
    ensures
        ({
            let r = trim_prefix_of(s, "./"@);
            let i = s.len() - r.len();
            &&& r.is_suffix_of(s)
            &&& i >= 0
            &&& i % 2 == 0
            &&& !"./"@.is_prefix_of(r)
            &&& forall|k: int|
                0 <= k < i ==> #[trigger] s[k] == (if k % 2 == 0 {
                    '.'
                } else {
                    '/'
                })
        }),
    decreases s.len(),
{
    reveal_strlit("./");
    let p = "./"@;
    let r = trim_prefix_of(s, p);
    law_leading_copies_are_taken_off(s, p);
    if p.is_prefix_of(s) {
        let d = s.skip(2);
        lemma_dot_steps(d);
        assert(s.subrange(0, 2) == p);
        assert(s[0] == s.subrange(0, 2)[0] && s[1] == s.subrange(0, 2)[1]);
        let i = s.len() - r.len();
        assert forall|k: int| 0 <= k < i implies #[trigger] s[k] == (if k % 2 == 0 {
            '.'
        } else {
            '/'
        }) by {
            if k >= 2 {
                assert(d[k - 2] == s[k]);
            }
        }
    }
}

/// A base URL with and without a slash at its end gives the same replacement,
/// and the steps of a replacement are those of the base URL, then those of the
/// target. From the base URL `.` a target is taken as it is, without its stars.
pub proof fn law_replacement_has_the_steps_of_both(target: Seq<char>, base: Seq<char>)
    ensures
        base != seq!['.'] ==> rebased(target, base.push('/')) == rebased(target, base),
        base != seq!['.'] ==> pieces(rebased(target, base), slash()) == pieces(
            trim_end_of(base, slash()),
            slash(),
        ) + pieces(
            trim_prefix_of(trim_end_of(target, CharClass::Only('*')), seq!['.', '/']),
            slash(),
        ),
        rebased(target, seq!['.']) == trim_end_of(target, CharClass::Only('*')),
{
    reveal_strlit("./");
    reveal_strlit("/");
    reveal_strlit(".");
    assert("."@ =~= seq!['.']);
    assert("/"@ =~= seq!['/']);
    assert("./"@ =~= seq!['.', '/']);
    if base != seq!['.'] {
        let more = base.push('/');
        assert(more.drop_last() =~= base);
        assert(more.last() == '/');
        assert(more != seq!['.']) by {
            if more == seq!['.'] {
                assert(more.last() == seq!['.'].last());
            }
        }
        law_split_at_every_separator(
            trim_end_of(base, slash()),
            '/',
            trim_prefix_of(trim_end_of(target, CharClass::Only('*')), "./"@),
            slash(),
        );
    }
}

/// An alias puts its first replacement in the place of its prefix: whatever
/// follows the prefix is kept as it is.
pub proof fn law_alias_replaces_its_prefix(alias: AliasRule, rest: Seq<char>)
    requires
        alias.replacements.len() > 0,
    ensures
        substitute(alias.prefix + rest, alias) == Some(alias.replacements[0] + rest),
{
    let specifier = alias.prefix + rest;
    assert(specifier.subrange(0, alias.prefix.len() as int) =~= alias.prefix);
    assert(specifier.skip(alias.prefix.len() as int) =~= rest);
}

/// An alias whose prefix ends with slashes stands for its directory by its bare
/// name too: the name gives the directory without slashes at its end, unless
/// the directory is the root.
pub proof fn law_alias_name_stands_for_its_directory(
    name: Seq<char>,
    dir: Seq<char>,
    alias: AliasRule,
)
    requires
        alias.prefix == name.push('/'),
        name.len() == 0 || name.last() != '/',
        dir.len() == 0 || dir.last() != '/',
        alias.replacements.len() > 0,
        alias.replacements[0] == dir || alias.replacements[0] == dir.push('/'),
    ensures
        dir.len() > 0 ==> substitute(name, alias) == Some(dir),
        dir.len() == 0 ==> substitute(name, alias) is None,
{
    assert(!alias.prefix.is_prefix_of(name));
    assert(alias.prefix.drop_last() =~= name);
    assert(alias.prefix.last() == '/');
    assert(trim_end_of(name, slash()) == name);
    assert(trim_end_of(alias.prefix, slash()) == name);
    assert(trim_end_of(dir, slash()) == dir);
    if alias.replacements[0] == dir.push('/') {
        assert(dir.push('/').drop_last() =~= dir);
        assert(dir.push('/').last() == '/');
        assert(trim_end_of(dir.push('/'), slash()) == dir);
    }
}

/// An alias says nothing of a specifier that neither begins with its prefix nor
/// is its prefix without the slashes at its end, and an alias without
/// replacements says nothing at all. Replacements after the first do not count.
pub proof fn law_alias_applies_to_nothing_else(
    specifier: Seq<char>,
    alias: AliasRule,
    other: AliasRule,
)
    ensures
        alias.replacements.len() == 0 ==> substitute(specifier, alias) is None,
        substitute(specifier, alias) is Some ==> alias.prefix.is_prefix_of(specifier) || (
        specifier.is_prefix_of(alias.prefix) && forall|k: int|
            specifier.len() <= k < alias.prefix.len() ==> #[trigger] alias.prefix[k] == '/'),
        alias.prefix == other.prefix && alias.replacements.len() > 0 && other.replacements.len() > 0
            && alias.replacements[0] == other.replacements[0] ==> substitute(specifier, alias)
            == substitute(specifier, other),
{
    law_trim_end(alias.prefix, slash());
    if substitute(specifier, alias) is Some && !alias.prefix.is_prefix_of(specifier) {
        assert(specifier == trim_end_of(alias.prefix, slash()));
        assert forall|k: int| specifier.len() <= k < alias.prefix.len() implies
            #[trigger] alias.prefix[k] == '/' by {
            assert(slash().holds(alias.prefix[k]));
        }
    }
}

/// Aliases are tried one after the other, and the first that applies counts.
pub proof fn law_aliases_are_tried_in_order(
    specifier: Seq<char>,
    a: Seq<AliasRule>,
    rule: AliasRule,
    b: Seq<AliasRule>,
)
    ensures
        aliased(specifier, Seq::empty()) is None,
        aliased(specifier, seq![rule]) == substitute(specifier, rule),
        aliased(specifier, a + b) == (if aliased(specifier, a) is Some {
            aliased(specifier, a)
        } else {
            aliased(specifier, b)
        }),
    decreases a.len(),
{
    assert(aliased(specifier, seq![rule].skip(1)) is None);
    if a.len() == 0 {
        assert(a + b =~= b);
    } else {
        assert((a + b).skip(1) =~= a.skip(1) + b);
        assert((a + b)[0] == a[0]);
        law_aliases_are_tried_in_order(specifier, a.skip(1), rule, b);
    }
}

/// The base URL is the text that its path leads to; where there is no path, or
/// it leads to no text, it is `.`.
pub proof fn law_base_url(root: Tree, path: Seq<char>)
    ensures
        path.len() == 0 ==> base_url(root, path) == "."@,
        path.len() > 0 ==> base_url(root, path) == (match descend(
            root,
            pieces(path, CharClass::Only('.')),
        ) {
            Some(found) => match untagged(found) {
                Tree::Text(s) => s,
                _ => "."@,
            },
            None => "."@,
        }),
{
}

/// Every text of a list of targets gives a replacement, in the order of the
/// list, and nothing else does.
pub proof fn law_every_target_is_a_replacement(
    a: Seq<Tree>,
    item: Tree,
    b: Seq<Tree>,
    base: Seq<char>,
)
    ensures
        replacements_in(Seq::empty(), base) == Seq::<Seq<char>>::empty(),
        replacements_in(seq![item], base) == (match untagged(item) {
            Tree::Text(s) => seq![rebased(s, base)],
            _ => Seq::empty(),
        }),
        replacements_in(a + b, base) == replacements_in(a, base) + replacements_in(b, base),
    decreases b.len(),
{
    assert(seq![item].drop_last() =~= Seq::<Tree>::empty());
    assert(replacements_in(seq![item].drop_last(), base) =~= Seq::<Seq<char>>::empty());
    assert(replacements_in(seq![item], base) =~= (match untagged(item) {
        Tree::Text(s) => seq![rebased(s, base)],
        _ => Seq::empty(),
    }));
    if b.len() == 0 {
        assert(a + b =~= a);
        assert(replacements_in(a, base) + replacements_in(b, base) =~= replacements_in(a, base));
    } else {
        law_every_target_is_a_replacement(a, item, b.drop_last(), base);
        assert((a + b).drop_last() =~= a + b.drop_last());
        assert((a + b).last() == b.last());
        assert(replacements_in(a + b, base) =~= replacements_in(a, base) + replacements_in(b, base));
    }
}

/// Each entry of the declared table that maps a pattern to a list of targets is
/// an alias: its prefix is the pattern without the stars at its end, and its
/// replacements are those of its targets. An entry with an empty prefix or
/// without a target is none.
pub proof fn law_every_declared_alias_is_read(
    root: Tree,
    field_path: Seq<char>,
    base_url_path: Seq<char>,
    entries: Seq<(Tree, Tree)>,
    k: int,
    pattern: Seq<char>,
    items: Seq<Tree>,
)
    requires
        descend(root, pieces(field_path, CharClass::Only('.'))) == Some(Tree::Table(entries)),
        0 <= k < entries.len(),
        entries[k] == (Tree::Text(pattern), Tree::List(items)),
        exists|i: int| 0 <= i < pattern.len() && #[trigger] pattern[i] != '*',
        exists|i: int| 0 <= i < items.len() && untagged(#[trigger] items[i]) is Text,
    ensures
        ({
            let rule = AliasRule {
                prefix: trim_end_of(pattern, CharClass::Only('*')),
                replacements: replacements_in(items, base_url(root, base_url_path)),
            };
            let declared = declared_aliases(Some(root), field_path, base_url_path);
            &&& declared.contains(rule)
            &&& tried_aliases(declared) matches Some(list) && list.contains(rule)
        }),
{
    let star = CharClass::Only('*');
    let base = base_url(root, base_url_path);
    let f = entry_alias(base);
    let declared = declared_aliases(Some(root), field_path, base_url_path);
    let prefix = trim_end_of(pattern, star);
    let replacements = replacements_in(items, base);
    let rule = AliasRule { prefix, replacements };
    law_trim_end(pattern, star);
    let i = choose|i: int| 0 <= i < pattern.len() && #[trigger] pattern[i] != '*';
    if prefix.len() == 0 {
        assert(star.holds(pattern[i]));
    }
    let j = choose|j: int| 0 <= j < items.len() && untagged(#[trigger] items[j]) is Text;
    let a = items.take(j);
    let b = items.skip(j + 1);
    assert(items =~= a + (seq![items[j]] + b));
    law_every_target_is_a_replacement(a, items[j], seq![items[j]] + b, base);
    law_every_target_is_a_replacement(seq![items[j]], items[j], b, base);
    assert(f(entries[k]) =~= seq![rule]);
    assert(f(entries[k])[0] == rule);
    assert(f(entries[k]).contains(rule));
    lemma_concat_map_member(entries, f, rule);
    assert(declared == concat_map(entries, f));
    lemma_sorted::<PathAlias>(declared);
}

/// Every alias of a configuration comes from an entry that declares it, and the
/// aliases are tried in the order of their length, longest prefix first.
pub proof fn law_no_alias_is_made_up(
    root: Tree,
    field_path: Seq<char>,
    base_url_path: Seq<char>,
    list: Seq<AliasRule>,
    rule: AliasRule,
)
    requires
        tried_aliases(declared_aliases(Some(root), field_path, base_url_path)) == Some(list),
        list.contains(rule),
    ensures
        rule.prefix.len() > 0,
        rule.prefix.last() != '*',
        rule.replacements.len() > 0,
        descend(root, pieces(field_path, CharClass::Only('.'))) matches Some(Tree::Table(entries))
            && exists|k: int|
            {
                &&& 0 <= k < entries.len()
                &&& (#[trigger] entries[k]).0 is Text
                &&& entries[k].1 is List
                &&& rule.prefix == trim_end_of(entries[k].0->Text_0, CharClass::Only('*'))
                &&& rule.replacements == replacements_in(
                    entries[k].1->List_0,
                    base_url(root, base_url_path),
                )
            },
        forall|i: int, j: int|
            0 <= i < j < list.len() ==> byte_len((#[trigger] list[j]).prefix) <= byte_len(
                (#[trigger] list[i]).prefix,
            ),
{
    let declared = declared_aliases(Some(root), field_path, base_url_path);
    lemma_sorted::<PathAlias>(declared);
    let le = order::<PathAlias>();
    assert forall|i: int, j: int| 0 <= i < j < list.len() implies byte_len(
        (#[trigger] list[j]).prefix,
    ) <= byte_len((#[trigger] list[i]).prefix) by {
        assert(le(list[i], list[j]));
    }
    let entries = at_path(root, field_path)->Some_0->Table_0;
    let f = entry_alias(base_url(root, base_url_path));
    assert(declared.contains(rule));
    lemma_concat_map_member(entries, f, rule);
    let k = choose|k: int| 0 <= k < entries.len() && f(#[trigger] entries[k]).contains(rule);
    let pattern = entries[k].0->Text_0;
    law_trim_end(pattern, CharClass::Only('*'));
}

/// A configuration that is no document, or that has no table at the given path,
/// declares no aliases.
pub proof fn law_no_table_no_aliases(
    document: Option<Tree>,
    field_path: Seq<char>,
    base_url_path: Seq<char>,
)
    ensures
        !(document matches Some(root) && descend(root, pieces(field_path, CharClass::Only('.')))
            matches Some(Tree::Table(_))) ==> tried_aliases(
            declared_aliases(document, field_path, base_url_path),
        ) is None,
        tried_aliases(Seq::empty()) is None,
{
}

/// A project has the aliases of its first file that declares any, and none
/// where no file of it does.
pub proof fn law_first_declaring_file_counts(sources: Seq<ConfigSource>, dir: Seq<char>)
    ensures
        match aliases_by_project(sources).contains_key(dir) {
            true => exists|i: int|
                {
                    &&& 0 <= i < sources.len()
                    &&& (#[trigger] sources[i]).read.project_dir@ == dir
                    &&& source_aliases(sources[i]) == Some(aliases_by_project(sources)[dir])
                    &&& forall|j: int|
                        0 <= j < i && (#[trigger] sources[j]).read.project_dir@ == dir
                            ==> source_aliases(sources[j]) is None
                },
            false => forall|j: int|
                0 <= j < sources.len() && (#[trigger] sources[j]).read.project_dir@ == dir
                    ==> source_aliases(sources[j]) is None,
        },
    decreases sources.len(),
{
    let m = aliases_by_project(sources);
    if sources.len() > 0 {
        let d = sources.drop_last();
        let n = sources.len() - 1;
        assert(declared_by(sources).drop_last() =~= declared_by(d));
        assert(declared_by(sources).last() == (sources[n].read.project_dir@, source_aliases(
            sources[n],
        )));
        law_first_declaring_file_counts(d, dir);
        let before = aliases_by_project(d);
        if before.contains_key(dir) {
            let i = choose|i: int|
                {
                    &&& 0 <= i < d.len()
                    &&& (#[trigger] d[i]).read.project_dir@ == dir
                    &&& source_aliases(d[i]) == Some(before[dir])
                    &&& forall|j: int|
                        0 <= j < i && (#[trigger] d[j]).read.project_dir@ == dir
                            ==> source_aliases(d[j]) is None
                };
            assert(sources[i] == d[i]);
            assert forall|j: int|
                0 <= j < i && (#[trigger] sources[j]).read.project_dir@ == dir implies source_aliases(
                sources[j],
            ) is None by {
                assert(d[j] == sources[j]);
            }
            assert(m.contains_key(dir) && m[dir] == before[dir]);
        } else {
            assert forall|j: int|
                0 <= j < n && (#[trigger] sources[j]).read.project_dir@ == dir implies source_aliases(
                sources[j],
            ) is None by {
                assert(d[j] == sources[j]);
            }
            if m.contains_key(dir) {
                assert(sources[n].read.project_dir@ == dir);
                assert(source_aliases(sources[n]) == Some(m[dir]));
            }
        }
    }
}

/// A file that could not be read declares no aliases; one that could be read
/// declares what its plugin's fields lead to in its JSON.
pub proof fn law_aliases_of_a_file(source: ConfigSource)
    ensures
        source.content is None ==> source_aliases(source) is None,
        source.content matches Some(content) ==> source_aliases(source) == tried_aliases(
            declared_aliases(
                json_text(content@),
                source.read.config.path_alias_field@,
                source.read.config.path_alias_base_url@,
            ),
        ),
{
}

/// Importers write underscores for the hyphens of a package name where the
/// plugin says so, and the name as it is otherwise.
pub proof fn law_names_are_transformed(name: Seq<char>, transform: Seq<char>)
    ensures
        transformed(name, transform).len() == name.len(),
        forall|i: int|
            0 <= i < name.len() ==> #[trigger] transformed(name, transform)[i] == (if transform
                == "hyphen_to_underscore"@ && name[i] == '-' {
                '_'
            } else {
                name[i]
            }),
{
    if transform == "hyphen_to_underscore"@ {
        lemma_hyphens(name);
    }
}

/// Hyphens are replaced one by one.
proof fn lemma_hyphens(name: Seq<char>)
    ensures
        replaced(name, "-"@, "_"@).len() == name.len(),
        forall|i: int|
            0 <= i < name.len() ==> #[trigger] replaced(name, "-"@, "_"@)[i] == (if name[i] == '-' {
                '_'
            } else {
                name[i]
            }),
    decreases name.len(),
{
    reveal_strlit("-");
    reveal_strlit("_");
    if name.len() > 0 {
        let d = name.skip(1);
        lemma_hyphens(d);
        assert(name.subrange(0, 1) =~= seq![name[0]]);
        assert("-"@ =~= seq!['-']);
        assert("-"@.is_prefix_of(name) <==> name[0] == '-') by {
            if name[0] == '-' {
                assert(name.subrange(0, 1) =~= "-"@);
            }
            if "-"@.is_prefix_of(name) {
                assert(name.subrange(0, 1)[0] == "-"@[0]);
            }
        }
        let r = replaced(name, "-"@, "_"@);
        assert forall|i: int| 0 <= i < name.len() implies #[trigger] r[i] == (if name[i] == '-' {
            '_'
        } else {
            name[i]
        }) by {
            if i > 0 {
                assert(d[i - 1] == name[i]);
                assert(r[i] == replaced(d, "-"@, "_"@)[i - 1]);
            }
        }
    }
}

/// The directory of a package's sources is the project's directory and the root
/// of the sources, each with one slash behind it; what is empty is left out.
pub proof fn law_source_directory(project_dir: Seq<char>, source_root: Seq<char>)
    ensures
        source_dir(project_dir, source_root) == source_dir(project_dir, Seq::empty()) + source_dir(
            Seq::empty(),
            source_root,
        ),
        source_dir(Seq::empty(), Seq::empty()) == Seq::<char>::empty(),
        project_dir.len() > 0 ==> source_dir(project_dir, Seq::empty()) == project_dir.push('/'),
        source_root.len() > 0 ==> source_dir(Seq::empty(), source_root) == source_root.push('/'),
{
    reveal_strlit("/");
    assert("/"@ =~= seq!['/']);
    assert(project_dir + "/"@ =~= project_dir.push('/'));
    assert(source_root + "/"@ =~= source_root.push('/'));
    assert(Seq::<char>::empty() + source_root + "/"@ =~= source_root.push('/'));
    assert(source_dir(project_dir, source_root) =~= source_dir(project_dir, Seq::empty())
        + source_dir(Seq::empty(), source_root));
}

/// A pattern like `*.csproj` means the first file of the directory whose name
/// ends with what follows the stars; any other name means itself, where there
/// is such a file.
pub proof fn law_manifest_of_a_directory(
    filename: Seq<char>,
    entries: Seq<DirEntry>,
    exists: bool,
)
    ensures
        filename.len() == 0 || filename[0] != '*' ==> manifest_in(filename, entries, exists) == (
        if exists {
            Some(filename)
        } else {
            None
        }),
        filename.len() > 0 && filename[0] == '*' ==> ({
            let ext = trim_start_of(filename, CharClass::Only('*'));
            match manifest_in(filename, entries, exists) {
                Some(name) => exists|i: int|
                    {
                        &&& 0 <= i < entries.len()
                        &&& (#[trigger] entries[i]).name@ == name
                        &&& entries[i].is_file
                        &&& ext.is_suffix_of(name)
                        &&& forall|j: int|
                            0 <= j < i ==> !((#[trigger] entries[j]).is_file && ext.is_suffix_of(
                                entries[j].name@,
                            ))
                    },
                None => forall|j: int|
                    0 <= j < entries.len() ==> !((#[trigger] entries[j]).is_file
                        && ext.is_suffix_of(entries[j].name@)),
            }
        }),
{
    reveal_strlit("*");
    assert("*"@ =~= seq!['*']);
    if filename.len() > 0 {
        assert(filename.subrange(0, 1) =~= seq![filename[0]]);
        if filename[0] == '*' {
            assert(filename.subrange(0, 1) =~= "*"@);
        } else if "*"@.is_prefix_of(filename) {
            assert(filename.subrange(0, 1)[0] == "*"@[0]);
        }
    }
    lemma_first_file(entries, trim_start_of(filename, CharClass::Only('*')));
}

/// The first file of a directory whose name ends with a text.
proof fn lemma_first_file(entries: Seq<DirEntry>, ext: Seq<char>)
    ensures
        match first_file(entries, ext) {
            Some(name) => exists|i: int|
                {
                    &&& 0 <= i < entries.len()
                    &&& (#[trigger] entries[i]).name@ == name
                    &&& entries[i].is_file
                    &&& ext.is_suffix_of(name)
                    &&& forall|j: int|
                        0 <= j < i ==> !((#[trigger] entries[j]).is_file && ext.is_suffix_of(
                            entries[j].name@,
                        ))
                },
            None => forall|j: int|
                0 <= j < entries.len() ==> !((#[trigger] entries[j]).is_file && ext.is_suffix_of(
                    entries[j].name@,
                )),
        },
    decreases entries.len(),
{
    if entries.len() > 0 {
        if ext.is_suffix_of(entries[0].name@) && entries[0].is_file {
            assert(entries[0].name@ == first_file(entries, ext)->Some_0);
        } else {
            let rest = entries.skip(1);
            lemma_first_file(rest, ext);
            match first_file(rest, ext) {
                Some(name) => {
                    let i = choose|i: int|
                        {
                            &&& 0 <= i < rest.len()
                            &&& (#[trigger] rest[i]).name@ == name
                            &&& rest[i].is_file
                            &&& ext.is_suffix_of(name)
                            &&& forall|j: int|
                                0 <= j < i ==> !((#[trigger] rest[j]).is_file && ext.is_suffix_of(
                                    rest[j].name@,
                                ))
                        };
                    assert(entries[i + 1] == rest[i]);
                    assert forall|j: int| 0 <= j < i + 1 implies !((#[trigger] entries[j]).is_file
                        && ext.is_suffix_of(entries[j].name@)) by {
                        if j > 0 {
                            assert(rest[j - 1] == entries[j]);
                        }
                    }
                },
                None => {
                    assert forall|j: int| 0 <= j < entries.len() implies !((
                    #[trigger] entries[j]).is_file && ext.is_suffix_of(entries[j].name@)) by {
                        if j > 0 {
                            assert(rest[j - 1] == entries[j]);
                        }
                    }
                },
            }
        }
    }
}

/// A manifest with a package name makes an alias: an import of the name, a
/// slash and more means the same more below the directory of the package's
/// sources. Without a name there is no alias.
pub proof fn law_package_name_means_its_sources(
    project_dir: Seq<char>,
    config: ResolverConfig,
    content: Option<Seq<char>>,
    rest: Seq<char>,
)
    ensures
        match content {
            Some(text) => match name_in_manifest(text, config.alias_field@, config.alias_file@) {
                Some(name) if name.len() > 0 => project_alias(project_dir, config, content) matches Some(
                    rule,
                ) && rule.prefix == transformed(name, config.alias_transform@).push('/')
                    && substitute(
                    transformed(name, config.alias_transform@) + seq!['/'] + rest,
                    rule,
                ) == Some(source_dir(project_dir, config.source_root@) + rest),
                _ => project_alias(project_dir, config, content) is None,
            },
            None => project_alias(project_dir, config, content) is None,
        },
{
    reveal_strlit("/");
    assert("/"@ =~= seq!['/']);
    match project_alias(project_dir, config, content) {
        Some(rule) => {
            let name = name_in_manifest(
                content->Some_0,
                config.alias_field@,
                config.alias_file@,
            )->Some_0;
            let t = transformed(name, config.alias_transform@);
            assert(t + "/"@ =~= t.push('/'));
            assert(t + seq!['/'] + rest =~= rule.prefix + rest);
            law_alias_replaces_its_prefix(rule, rest);
        },
        None => {},
    }
}

/// Each project is named by its first manifest with a name, and by no other:
/// the alias of such a manifest is there, and every alias is of such a one.
pub proof fn law_first_named_manifest_counts(sources: Seq<ConfigSource>)
    ensures
        forall|i: int|
            #![trigger sources[i]]
            0 <= i < sources.len() ==> (match project_alias(
                sources[i].read.project_dir@,
                *sources[i].read.config,
                sources[i].content.deep_view(),
            ) {
                Some(rule) => (forall|j: int|
                    0 <= j < i && (#[trigger] sources[j]).read.project_dir@
                        == sources[i].read.project_dir@ ==> project_alias(
                        sources[j].read.project_dir@,
                        *sources[j].read.config,
                        sources[j].content.deep_view(),
                    ) is None) ==> named_projects(sources).0.contains(rule),
                None => true,
            }),
        forall|rule: AliasRule| #[trigger]
            named_projects(sources).0.contains(rule) ==> exists|i: int|
                {
                    &&& 0 <= i < sources.len()
                    &&& project_alias(
                        (#[trigger] sources[i]).read.project_dir@,
                        *sources[i].read.config,
                        sources[i].content.deep_view(),
                    ) == Some(rule)
                    &&& forall|j: int|
                        0 <= j < i && (#[trigger] sources[j]).read.project_dir@
                            == sources[i].read.project_dir@ ==> project_alias(
                            sources[j].read.project_dir@,
                            *sources[j].read.config,
                            sources[j].content.deep_view(),
                        ) is None
                },
{
    lemma_named_projects(sources);
}

/// The alias that a source gives.
spec fn alias_of(source: ConfigSource) -> Option<AliasRule> {
    project_alias(source.read.project_dir@, *source.read.config, source.content.deep_view())
}

/// What naming projects has reached: which were named, and by which source.
proof fn lemma_named_projects(sources: Seq<ConfigSource>)
    ensures
        forall|dir: Seq<char>| #[trigger]
            named_projects(sources).1.contains(dir) <==> exists|i: int|
                0 <= i < sources.len() && (#[trigger] sources[i]).read.project_dir@ == dir
                    && alias_of(sources[i]) is Some,
        forall|i: int|
            0 <= i < sources.len() && alias_of(#[trigger] sources[i]) is Some && (forall|j: int|
                0 <= j < i && (#[trigger] sources[j]).read.project_dir@
                    == sources[i].read.project_dir@ ==> alias_of(sources[j]) is None)
                ==> named_projects(sources).0.contains(alias_of(sources[i])->Some_0),
        forall|rule: AliasRule| #[trigger]
            named_projects(sources).0.contains(rule) ==> exists|i: int|
                {
                    &&& 0 <= i < sources.len()
                    &&& alias_of(#[trigger] sources[i]) == Some(rule)
                    &&& forall|j: int|
                        0 <= j < i && (#[trigger] sources[j]).read.project_dir@
                            == sources[i].read.project_dir@ ==> alias_of(sources[j]) is None
                },
    decreases sources.len(),
{
    if sources.len() > 0 {
        let d = sources.drop_last();
        let n = sources.len() - 1;
        let last = sources[n];
        let dir = last.read.project_dir@;
        lemma_named_projects(d);
        let (aliases, seen) = named_projects(d);
        let (all, now) = named_projects(sources);
        assert forall|x: Seq<char>| #[trigger] now.contains(x) <==> exists|i: int|
            0 <= i < sources.len() && (#[trigger] sources[i]).read.project_dir@ == x && alias_of(
                sources[i],
            ) is Some by {
            if seen.contains(x) {
                let i = choose|i: int|
                    0 <= i < d.len() && (#[trigger] d[i]).read.project_dir@ == x && alias_of(
                        d[i],
                    ) is Some;
                assert(sources[i] == d[i]);
            }
            if exists|i: int|
                0 <= i < sources.len() && (#[trigger] sources[i]).read.project_dir@ == x && alias_of(
                    sources[i],
                ) is Some {
                let i = choose|i: int|
                    0 <= i < sources.len() && (#[trigger] sources[i]).read.project_dir@ == x
                        && alias_of(sources[i]) is Some;
                if i < n {
                    assert(d[i] == sources[i]);
                    assert(seen.contains(x));
                }
            }
        }
        assert forall|r: AliasRule| aliases.contains(r) implies #[trigger] all.contains(r) by {
            let k = choose|k: int| 0 <= k < aliases.len() && aliases[k] == r;
            assert(all[k] == r);
        }
        assert forall|i: int|
            0 <= i < sources.len() && alias_of(#[trigger] sources[i]) is Some && (forall|j: int|
                0 <= j < i && (#[trigger] sources[j]).read.project_dir@
                    == sources[i].read.project_dir@ ==> alias_of(sources[j]) is None) implies
            all.contains(alias_of(sources[i])->Some_0) by {
            if i < n {
                assert(d[i] == sources[i]);
                assert forall|j: int|
                    0 <= j < i && (#[trigger] d[j]).read.project_dir@ == d[i].read.project_dir@
                    implies alias_of(d[j]) is None by {
                    assert(sources[j] == d[j]);
                }
                assert(aliases.contains(alias_of(d[i])->Some_0));
            } else {
                if seen.contains(dir) {
                    let k = choose|k: int|
                        0 <= k < d.len() && (#[trigger] d[k]).read.project_dir@ == dir && alias_of(
                            d[k],
                        ) is Some;
                    assert(sources[k] == d[k]);
                }
                assert(all[aliases.len() as int] == alias_of(last)->Some_0);
            }
        }
        assert forall|r: AliasRule| #[trigger] all.contains(r) implies exists|i: int|
            {
                &&& 0 <= i < sources.len()
                &&& alias_of(#[trigger] sources[i]) == Some(r)
                &&& forall|j: int|
                    0 <= j < i && (#[trigger] sources[j]).read.project_dir@
                        == sources[i].read.project_dir@ ==> alias_of(sources[j]) is None
            } by {
            let k = choose|k: int| 0 <= k < all.len() && all[k] == r;
            if k < aliases.len() {
                assert(aliases[k] == r);
                assert(aliases.contains(r));
                let i = choose|i: int|
                    {
                        &&& 0 <= i < d.len()
                        &&& alias_of(#[trigger] d[i]) == Some(r)
                        &&& forall|j: int|
                            0 <= j < i && (#[trigger] d[j]).read.project_dir@
                                == d[i].read.project_dir@ ==> alias_of(d[j]) is None
                    };
                assert(sources[i] == d[i]);
                assert forall|j: int|
                    0 <= j < i && (#[trigger] sources[j]).read.project_dir@
                        == sources[i].read.project_dir@ implies alias_of(sources[j]) is None by {
                    assert(d[j] == sources[j]);
                }
            } else {
                assert(alias_of(sources[n]) == Some(r));
                assert forall|j: int|
                    0 <= j < n && (#[trigger] sources[j]).read.project_dir@
                        == sources[n].read.project_dir@ implies alias_of(sources[j]) is None by {
                    assert(d[j] == sources[j]);
                    if alias_of(d[j]) is Some {
                        assert(seen.contains(dir));
                    }
                }
            }
        }
    }
}

/// Configurations are read in every project, for every plugin that names the
/// file and the field, and for no other.
pub proof fn law_alias_reads_are_planned(
    roots: Seq<Seq<char>>,
    profiles: Seq<ResolverConfig>,
    read: (Seq<char>, ResolverConfig),
)
    ensures
        concat_map(profiles, reads_of(roots, has_path_aliases())).contains(read) <==> {
            &&& roots.contains(read.0)
            &&& profiles.contains(read.1)
            &&& read.1.path_alias_file@.len() > 0
            &&& read.1.path_alias_field@.len() > 0
        },
        concat_map(profiles, reads_of(roots, has_manifest_names())).contains(read) <==> {
            &&& roots.contains(read.0)
            &&& profiles.contains(read.1)
            &&& read.1.alias_file@.len() > 0
            &&& read.1.alias_field@.len() > 0
        },
{
    law_every_wanted_plugin_is_read(roots, profiles, has_path_aliases(), read);
    law_every_wanted_plugin_is_read(roots, profiles, has_manifest_names(), read);
}

} // verus!
