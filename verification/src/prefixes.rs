//! Module prefixes: which directory a module path or a namespace stands for.

use vstd::prelude::*;

use crate::document::{json_text, parse_json, text_value, tree_of, Node, Tree};
use crate::lists::{
    concat_map, lemma_concat_map_member, lemma_concat_map_step, lemma_filter_empty,
    lemma_filter_step,
};
use crate::manifest::{at_path, navigate_json};
use crate::profile::{ConfigRead, ConfigSource, ResolverConfig};
use crate::sorting::{
    is_stable_sort, lemma_filter_keeps, lemma_filter_member, lemma_sorted, order, sorted,
    stable_sort, Ranked,
};
use crate::text::{
    after_prefix, before, byte_len, first_piece, law_prefix_is_put_back, law_trim_end, lines,
    lines_of, measure, replace, replaced, same, strip_prefix, trim, trim_end, trim_end_of, trim_of,
    CharClass,
};

verus! {

// ---------------------------------------------------------------------------
// Directive lines
// ---------------------------------------------------------------------------

/// The module path of a line that begins with the directive.
pub open spec fn line_module(line: Seq<char>, directive: Seq<char>) -> Option<Seq<char>> {
    match after_prefix(trim_of(line, CharClass::White), directive) {
        Some(rest) => {
            let rest = trim_of(rest, CharClass::White);
            if rest.len() == 0 {
                None
            } else {
                Some(first_piece(rest, CharClass::White))
            }
        },
        None => None,
    }
}

/// The module path of the first line that has one.
pub open spec fn module_name(all: Seq<Seq<char>>, directive: Seq<char>) -> Option<Seq<char>>
    decreases all.len(),
{
    if all.len() == 0 {
        None
    } else {
        match line_module(all[0], directive) {
            Some(found) => Some(found),
            None => module_name(all.skip(1), directive),
        }
    }
}

/// Extracts a module path by a directive word: `<directive> <path>` on the
/// first line that has both.
pub fn extract_module_name_generic(content: &str, directive: &str) -> (r: Option<String>)
    ensures
        r.deep_view() == module_name(lines_of(content@), directive@),
{
    let all = lines(content);
    let ghost views = all.deep_view();
    let mut i: usize = 0;
    assert(views.skip(0) =~= views);
    while i < all.len()
        invariant
            i <= all@.len(),
            views == all.deep_view(),
            views == lines_of(content@),
            module_name(views.skip(i as int), directive@) == module_name(views, directive@),
        decreases all@.len() - i,
    {
        assert(views.skip(i as int)[0] == all@[i as int]@);
        assert(views.skip(i as int).skip(1) =~= views.skip(i + 1));
        if let Some(rest) = strip_prefix(trim(&all[i], CharClass::White), directive) {
            let rest = trim(rest, CharClass::White);
            if !rest.is_empty() {
                return Some(before(rest, CharClass::White).to_owned());
            }
        }
        i += 1;
    }
    None
}

// ---------------------------------------------------------------------------
// Mappings in JSON
// ---------------------------------------------------------------------------

/// A namespace prefix as a path: separators become slashes, and none is left
/// at the end.
pub open spec fn normalized(ns: Seq<char>, sep: Seq<char>) -> Seq<char> {
    trim_end_of(
        if sep.len() > 0 {
            replaced(ns, sep, "/"@)
        } else {
            ns
        },
        CharClass::Only('/'),
    )
}

/// The strings of a list, without slashes at their end.
pub open spec fn list_dirs(items: Seq<Tree>) -> Seq<Seq<char>>
    decreases items.len(),
{
    if items.len() == 0 {
        Seq::empty()
    } else {
        let head = list_dirs(items.drop_last());
        match text_value(items.last()) {
            Some(s) => head.push(trim_end_of(s, CharClass::Only('/'))),
            None => head,
        }
    }
}

/// The directories of a mapping: one string, or a list of them.
pub open spec fn mapped_dirs(value: Tree) -> Seq<Seq<char>> {
    match value {
        Tree::Text(s) => seq![trim_end_of(s, CharClass::Only('/'))],
        Tree::List(items) => list_dirs(items),
        _ => Seq::empty(),
    }
}

/// The prefixes that one entry maps to directories.
pub open spec fn entry_prefixes(sep: Seq<char>) -> spec_fn((Tree, Tree)) -> Seq<
    (Seq<char>, Seq<char>),
> {
    |entry: (Tree, Tree)|
        match entry.0 {
            Tree::Text(ns) => {
                let prefix = normalized(ns, sep);
                let dirs = mapped_dirs(entry.1);
                if prefix.len() == 0 {
                    Seq::empty()
                } else {
                    Seq::new(dirs.len(), |i: int| (prefix, dirs[i]))
                }
            },
            _ => Seq::empty(),
        }
}

/// The prefixes that the table at one path maps.
pub open spec fn path_prefixes(root: Tree, sep: Seq<char>) -> spec_fn(Seq<char>) -> Seq<
    (Seq<char>, Seq<char>),
> {
    |path: Seq<char>|
        match at_path(root, path) {
            Some(Tree::Table(entries)) => concat_map(entries, entry_prefixes(sep)),
            _ => Seq::empty(),
        }
}

/// The prefixes that a document maps, path by path.
pub open spec fn document_prefixes(
    document: Option<Tree>,
    paths: Seq<Seq<char>>,
    sep: Seq<char>,
) -> Seq<(Seq<char>, Seq<char>)> {
    match document {
        Some(root) => concat_map(paths, path_prefixes(root, sep)),
        None => Seq::empty(),
    }
}

/// Writes a namespace prefix as a path.
fn normalize_prefix(ns: &str, sep: &str) -> (r: String)
    ensures
        r@ == normalized(ns@, sep@),
{
    if sep.is_empty() {
        trim_end(ns, CharClass::Only('/')).to_owned()
    } else {
        let slashed = replace(ns, sep, "/");
        trim_end(&slashed, CharClass::Only('/')).to_owned()
    }
}

/// Reads the directories of a mapping.
fn read_dirs(value: &Node) -> (r: Vec<String>)
    ensures
        r.deep_view() == mapped_dirs(value@),
{
    let mut out: Vec<String> = Vec::new();
    match value {
        Node::Text(s) => {
            out.push(trim_end(s, CharClass::Only('/')).to_owned());
            assert(out.deep_view() =~= mapped_dirs(value@));
        }
        Node::List(items) => {
            let ghost all = value@->List_0;
            let mut i: usize = 0;
            assert(out.deep_view() =~= list_dirs(all.take(0)));
            while i < items.len()
                invariant
                    i <= items@.len(),
                    all.len() == items@.len(),
                    forall|k: int| 0 <= k < all.len() ==> all[k] == tree_of(#[trigger] items@[k]),
                    out.deep_view() == list_dirs(all.take(i as int)),
                decreases items@.len() - i,
            {
                let ghost before = out.deep_view();
                assert(all.take(i + 1).drop_last() =~= all.take(i as int));
                assert(all.take(i + 1).last() == tree_of(items@[i as int]));
                if let Some(s) = items[i].as_text() {
                    let dir = trim_end(s, CharClass::Only('/')).to_owned();
                    out.push(dir);
                    assert(out.deep_view() =~= before.push(dir@));
                }
                i += 1;
            }
            assert(all.take(i as int) =~= all);
        }
        _ => {
            assert(out.deep_view() =~= Seq::<Seq<char>>::empty());
        }
    }
    out
}

/// Appends the prefixes of one table.
fn read_table(entries: &Vec<(Node, Node)>, sep: &str, prefixes: &mut Vec<(String, String)>)
    ensures
        final(prefixes).deep_view() == old(prefixes).deep_view() + concat_map(
            tree_of(Node::Table(*entries))->Table_0,
            entry_prefixes(sep@),
        ),
{
    let ghost all = tree_of(Node::Table(*entries))->Table_0;
    let ghost f = entry_prefixes(sep@);
    let ghost start = prefixes.deep_view();
    let mut i: usize = 0;
    assert(prefixes.deep_view() =~= start + concat_map(all.take(0), f));
    while i < entries.len()
        invariant
            i <= entries@.len(),
            all == tree_of(Node::Table(*entries))->Table_0,
            f == entry_prefixes(sep@),
            prefixes.deep_view() == start + concat_map(all.take(i as int), f),
        decreases entries@.len() - i,
    {
        let ghost before = prefixes.deep_view();
        let ghost added = f(all[i as int]);
        assert(all[i as int] == (tree_of(entries@[i as int].0), tree_of(entries@[i as int].1)));
        proof {
            lemma_concat_map_step(all, f, i as int);
        }
        assert(prefixes.deep_view() =~= before + added.take(0));
        if let Node::Text(ns) = &entries[i].0 {
            let prefix = normalize_prefix(ns, sep);
            if !prefix.as_str().is_empty() {
                let dirs = read_dirs(&entries[i].1);
                let ghost views = dirs.deep_view();
                let mut j: usize = 0;
                while j < dirs.len()
                    invariant
                        j <= dirs@.len(),
                        views == dirs.deep_view(),
                        added == Seq::new(views.len(), |i: int| (prefix@, views[i])),
                        prefixes.deep_view() == before + added.take(j as int),
                    decreases dirs@.len() - j,
                {
                    let ghost was = prefixes.deep_view();
                    let pair = (prefix.clone(), dirs[j].clone());
                    assert(pair.deep_view() == added[j as int]);
                    prefixes.push(pair);
                    assert(prefixes.deep_view() =~= was.push(added[j as int]));
                    assert(prefixes.deep_view() =~= before + added.take(j + 1));
                    j += 1;
                }
                assert(prefixes.deep_view() =~= before + added);
            } else {
                assert(prefixes.deep_view() =~= before + added);
            }
        } else {
            assert(prefixes.deep_view() =~= before + added);
        }
        assert(prefixes.deep_view() =~= start + concat_map(all.take(i + 1), f));
        i += 1;
    }
    assert(all.take(i as int) =~= all);
}

/// Reads the mappings from prefixes to directories out of a parsed document.
pub fn json_prefix_map(document: &Option<Node>, json_paths: &Vec<String>, namespace_sep: &str) -> (r:
    Vec<(String, String)>)
    ensures
        r.deep_view() == document_prefixes(
            document.deep_view(),
            json_paths.deep_view(),
            namespace_sep@,
        ),
{
    let mut prefixes: Vec<(String, String)> = Vec::new();
    let root = match document {
        Some(root) => root,
        None => {
            assert(prefixes.deep_view() =~= Seq::<(Seq<char>, Seq<char>)>::empty());
            return prefixes;
        }
    };
    let ghost paths = json_paths.deep_view();
    let ghost f = path_prefixes(root@, namespace_sep@);
    let mut i: usize = 0;
    assert(prefixes.deep_view() =~= concat_map(paths.take(0), f));
    while i < json_paths.len()
        invariant
            i <= json_paths@.len(),
            paths == json_paths.deep_view(),
            f == path_prefixes(root@, namespace_sep@),
            prefixes.deep_view() == concat_map(paths.take(i as int), f),
        decreases json_paths@.len() - i,
    {
        let ghost before = prefixes.deep_view();
        proof {
            lemma_concat_map_step(paths, f, i as int);
        }
        let mut done = false;
        if let Some(found) = navigate_json(root, &json_paths[i]) {
            if let Node::Table(entries) = found {
                read_table(entries, namespace_sep, &mut prefixes);
                done = true;
            }
        }
        if !done {
            assert(f(paths[i as int]) =~= Seq::<(Seq<char>, Seq<char>)>::empty());
            assert(prefixes.deep_view() =~= before + f(paths[i as int]));
        }
        i += 1;
    }
    assert(paths.take(i as int) =~= paths);
    prefixes
}

/// Extracts the mappings from prefixes to directories out of a JSON manifest.
/// Each path leads to an object whose keys are namespace prefixes and whose
/// values are directories. A text that is no JSON has none.
pub fn extract_json_prefix_map(content: &str, json_paths: &Vec<String>, namespace_sep: &str) -> (r:
    Vec<(String, String)>)
    ensures
        r.deep_view() == document_prefixes(
            json_text(content@),
            json_paths.deep_view(),
            namespace_sep@,
        ),
{
    json_prefix_map(&parse_json(content), json_paths, namespace_sep)
}

// ---------------------------------------------------------------------------
// Prefix files of all projects
// ---------------------------------------------------------------------------

/// Whether a plugin maps a JSON object.
pub open spec fn maps_json(config: ResolverConfig) -> bool {
    config.module_prefix_format@ == "json_map"@ && config.module_prefix_json_paths@.len() > 0
}

/// Whether a plugin has a prefix file and a way to read it.
pub open spec fn has_prefix_file() -> spec_fn(ResolverConfig) -> bool {
    |config: ResolverConfig|
        config.module_prefix_file@.len() > 0 && (config.module_prefix_directive@.len() > 0
            || maps_json(config))
}

/// The prefix files of one project, plugin by plugin.
pub open spec fn reads_in(profiles: Seq<ResolverConfig>) -> spec_fn(Seq<char>) -> Seq<
    (Seq<char>, ResolverConfig),
> {
    |root: Seq<char>|
        {
            let configs = profiles.filter(has_prefix_file());
            Seq::new(configs.len(), |i: int| (root, configs[i]))
        }
}

/// Whether a plugin maps a JSON object.
fn is_json_map(config: &ResolverConfig) -> (r: bool)
    ensures
        r == maps_json(*config),
{
    same(&config.module_prefix_format, "json_map") && !config.module_prefix_json_paths.is_empty()
}

/// The plugins with a prefix file.
fn prefix_configs<'a>(profiles: &'a Vec<ResolverConfig>) -> (r: Vec<&'a ResolverConfig>)
    ensures
        r@.len() == profiles@.filter(has_prefix_file()).len(),
        forall|i: int|
            0 <= i < r@.len() ==> *(#[trigger] r@[i]) == profiles@.filter(has_prefix_file())[i],
{
    let ghost pred = has_prefix_file();
    let mut out: Vec<&'a ResolverConfig> = Vec::new();
    let mut i: usize = 0;
    proof {
        lemma_filter_empty(profiles@, pred);
    }
    while i < profiles.len()
        invariant
            i <= profiles@.len(),
            pred == has_prefix_file(),
            out@.len() == profiles@.take(i as int).filter(pred).len(),
            forall|k: int|
                0 <= k < out@.len() ==> *(#[trigger] out@[k]) == profiles@.take(i as int).filter(
                    pred,
                )[k],
        decreases profiles@.len() - i,
    {
        let config = &profiles[i];
        proof {
            lemma_filter_step(profiles@, pred, i as int);
        }
        if !config.module_prefix_file.as_str().is_empty() && (
        !config.module_prefix_directive.as_str().is_empty() || is_json_map(config)) {
            out.push(config);
        }
        i += 1;
    }
    assert(profiles@.take(i as int) =~= profiles@);
    out
}

/// Lists the prefix files to read: those of every plugin, in every project.
pub fn plan_prefix_reads<'a>(roots: &'a Vec<String>, profiles: &'a Vec<ResolverConfig>) -> (r: Vec<
    ConfigRead<'a>,
>)
    ensures
        r.deep_view() == concat_map(roots.deep_view(), reads_in(profiles@)),
{
    let configs = prefix_configs(profiles);
    let ghost views = roots.deep_view();
    let ghost f = reads_in(profiles@);
    let ghost chosen = profiles@.filter(has_prefix_file());
    let mut out: Vec<ConfigRead<'a>> = Vec::new();
    let mut i: usize = 0;
    assert(out.deep_view() =~= concat_map(views.take(0), f));
    while i < roots.len()
        invariant
            i <= roots@.len(),
            views == roots.deep_view(),
            f == reads_in(profiles@),
            chosen == profiles@.filter(has_prefix_file()),
            configs@.len() == chosen.len(),
            forall|k: int| 0 <= k < configs@.len() ==> *(#[trigger] configs@[k]) == chosen[k],
            out.deep_view() == concat_map(views.take(i as int), f),
        decreases roots@.len() - i,
    {
        let ghost before = out.deep_view();
        let ghost added = f(views[i as int]);
        proof {
            lemma_concat_map_step(views, f, i as int);
        }
        assert(out.deep_view() =~= before + added.take(0));
        let mut j: usize = 0;
        while j < configs.len()
            invariant
                i < roots@.len(),
                j <= configs@.len(),
                views == roots.deep_view(),
                chosen == profiles@.filter(has_prefix_file()),
                configs@.len() == chosen.len(),
                forall|k: int| 0 <= k < configs@.len() ==> *(#[trigger] configs@[k]) == chosen[k],
                added == Seq::new(chosen.len(), |k: int| (views[i as int], chosen[k])),
                out.deep_view() == before + added.take(j as int),
            decreases configs@.len() - j,
        {
            let ghost was = out.deep_view();
            let read = ConfigRead { project_dir: &roots[i], config: configs[j] };
            assert(read.deep_view() == added[j as int]);
            out.push(read);
            assert(out.deep_view() =~= was.push(added[j as int]));
            assert(out.deep_view() =~= before + added.take(j + 1));
            j += 1;
        }
        assert(out.deep_view() =~= before + added);
        i += 1;
    }
    assert(views.take(i as int) =~= views);
    out
}

/// A directory of a project, from the root of the scan.
pub open spec fn within(project_dir: Seq<char>, dir: Seq<char>) -> Seq<char> {
    if project_dir.len() == 0 {
        dir
    } else {
        project_dir + "/"@ + dir
    }
}

/// Prefixes whose directories start from the root of the scan.
pub open spec fn placed_prefixes(
    project_dir: Seq<char>,
    maps: Seq<(Seq<char>, Seq<char>)>,
) -> Seq<(Seq<char>, Seq<char>)> {
    Seq::new(maps.len(), |i: int| (maps[i].0, within(project_dir, maps[i].1)))
}

/// The prefixes that the content of a prefix file declares.
pub open spec fn content_prefixes(
    project_dir: Seq<char>,
    config: ResolverConfig,
    content: Seq<char>,
) -> Seq<(Seq<char>, Seq<char>)> {
    if maps_json(config) {
        let maps = document_prefixes(
            json_text(content),
            config.module_prefix_json_paths.deep_view(),
            config.namespace_separator@,
        );
        placed_prefixes(project_dir, maps)
    } else if config.module_prefix_directive@.len() > 0 {
        match module_name(lines_of(content), config.module_prefix_directive@) {
            Some(name) => seq![(name, project_dir)],
            None => Seq::empty(),
        }
    } else {
        Seq::empty()
    }
}

/// The prefixes of a prefix file; one that could not be read has none.
pub open spec fn source_prefixes<'a>() -> spec_fn(ConfigSource<'a>) -> Seq<
    (Seq<char>, Seq<char>),
> {
    |source: ConfigSource<'a>|
        match source.content {
            Some(content) => content_prefixes(
                source.read.project_dir@,
                *source.read.config,
                content@,
            ),
            None => Seq::empty(),
        }
}

/// A directory of a project, from the root of the scan.
pub fn join_dir(project_dir: &str, dir: &str) -> (r: String)
    ensures
        r@ == within(project_dir@, dir@),
{
    if project_dir.is_empty() {
        dir.to_owned()
    } else {
        let mut full = project_dir.to_owned();
        full.append("/");
        full.append(dir);
        full
    }
}

/// Lets the directories of prefixes start from the root of the scan.
pub fn place_prefixes(project_dir: &str, maps: &Vec<(String, String)>) -> (r: Vec<
    (String, String),
>)
    ensures
        r.deep_view() == placed_prefixes(project_dir@, maps.deep_view()),
{
    let ghost views = maps.deep_view();
    let ghost wanted = placed_prefixes(project_dir@, views);
    let mut out: Vec<(String, String)> = Vec::new();
    let mut i: usize = 0;
    assert(out.deep_view() =~= wanted.take(0));
    while i < maps.len()
        invariant
            i <= maps@.len(),
            views == maps.deep_view(),
            wanted == placed_prefixes(project_dir@, views),
            out.deep_view() == wanted.take(i as int),
        decreases maps@.len() - i,
    {
        let ghost was = out.deep_view();
        let pair = (maps[i].0.clone(), join_dir(project_dir, &maps[i].1));
        assert(views[i as int] == maps@[i as int].deep_view());
        assert(pair.deep_view() == wanted[i as int]);
        out.push(pair);
        assert(out.deep_view() =~= was.push(wanted[i as int]));
        assert(out.deep_view() =~= wanted.take(i + 1));
        i += 1;
    }
    assert(wanted.take(i as int) =~= wanted);
    out
}

/// Reads the prefixes out of the content of a prefix file.
pub fn read_prefixes(project_dir: &str, config: &ResolverConfig, content: &str) -> (r: Vec<
    (String, String),
>)
    ensures
        r.deep_view() == content_prefixes(project_dir@, *config, content@),
{
    let mut out: Vec<(String, String)> = Vec::new();
    assert(out.deep_view() =~= Seq::<(Seq<char>, Seq<char>)>::empty());
    if is_json_map(config) {
        let maps = extract_json_prefix_map(
            content,
            &config.module_prefix_json_paths,
            &config.namespace_separator,
        );
        out = place_prefixes(project_dir, &maps);
    } else if !config.module_prefix_directive.as_str().is_empty() {
        if let Some(name) = extract_module_name_generic(content, &config.module_prefix_directive) {
            let pair = (name, project_dir.to_owned());
            let ghost view = pair.deep_view();
            out.push(pair);
            assert(out.deep_view() =~= seq![view]);
        }
    }
    out
}

/// Prefixes are ordered by the length of the module path, longest first.
impl Ranked for (String, String) {
    open spec fn le(a: (Seq<char>, Seq<char>), b: (Seq<char>, Seq<char>)) -> bool {
        byte_len(b.0) <= byte_len(a.0)
    }

    proof fn le_total(a: (Seq<char>, Seq<char>), b: (Seq<char>, Seq<char>)) {
    }

    proof fn le_transitive(
        a: (Seq<char>, Seq<char>),
        b: (Seq<char>, Seq<char>),
        c: (Seq<char>, Seq<char>),
    ) {
    }

    fn is_le(&self, other: &Self) -> (r: bool) {
        measure(&other.0) <= measure(&self.0)
    }
}

/// Collects the module prefixes of all projects, the longest module path
/// first, so that a more specific one is met before a shorter one.
pub fn collect_module_prefixes(sources: &Vec<ConfigSource>) -> (r: Vec<(String, String)>)
    ensures
        is_stable_sort(
            concat_map(sources@, source_prefixes()),
            r.deep_view(),
            order::<(String, String)>(),
        ),
        r.deep_view() == sorted(
            concat_map(sources@, source_prefixes()),
            order::<(String, String)>(),
        ),
{
    let ghost f = source_prefixes();
    let mut prefixes: Vec<(String, String)> = Vec::new();
    let mut i: usize = 0;
    assert(prefixes.deep_view() =~= concat_map(sources@.take(0), f));
    while i < sources.len()
        invariant
            i <= sources@.len(),
            f == source_prefixes(),
            prefixes.deep_view() == concat_map(sources@.take(i as int), f),
        decreases sources@.len() - i,
    {
        let source = &sources[i];
        let ghost before = prefixes.deep_view();
        proof {
            lemma_concat_map_step(sources@, f, i as int);
        }
        match &source.content {
            Some(content) => {
                let mut found = read_prefixes(
                    source.read.project_dir,
                    source.read.config,
                    content,
                );
                let ghost added = found.deep_view();
                prefixes.append(&mut found);
                assert(prefixes.deep_view() =~= before + added);
            }
            None => {
                assert(prefixes.deep_view() =~= before + f(*source));
            }
        }
        i += 1;
    }
    assert(sources@.take(i as int) =~= sources@);
    stable_sort(prefixes)
}

// ---------------------------------------------------------------------------
// Laws
// ---------------------------------------------------------------------------

/// Longer module prefixes come before shorter ones, so that matching takes the
/// more specific one; none is lost and none is added.
pub proof fn law_longer_prefixes_come_first(declared: Seq<(Seq<char>, Seq<char>)>)
    ensures
        ({
            let all = sorted(declared, order::<(String, String)>());
            &&& forall|i: int, j: int|
                0 <= i < j < all.len() ==> byte_len((#[trigger] all[j]).0) <= byte_len(
                    (#[trigger] all[i]).0,
                )
            &&& forall|p: (Seq<char>, Seq<char>)| #[trigger]
                all.contains(p) <==> declared.contains(p)
        }),
{
    let all = sorted(declared, order::<(String, String)>());
    let le = order::<(String, String)>();
    lemma_sorted::<(String, String)>(declared);
    assert forall|i: int, j: int| 0 <= i < j < all.len() implies byte_len((#[trigger] all[j]).0)
        <= byte_len((#[trigger] all[i]).0) by {
        assert(le(all[i], all[j]));
    }
}

/// Trimming leaves nothing of the class at the end.
proof fn lemma_trimmed(s: Seq<char>, class: CharClass)
    ensures
        trim_end_of(s, class).len() > 0 ==> !class.holds(trim_end_of(s, class).last()),
    decreases s.len(),
{
    if s.len() > 0 && class.holds(s.last()) {
        lemma_trimmed(s.drop_last(), class);
    }
}

/// The directories of a list end without slashes.
proof fn lemma_list_dirs(items: Seq<Tree>, dir: Seq<char>)
    requires
        list_dirs(items).contains(dir),
    ensures
        dir.len() > 0 ==> dir.last() != '/',
    decreases items.len(),
{
    if items.len() > 0 {
        let head = list_dirs(items.drop_last());
        let all = list_dirs(items);
        let k = choose|k: int| 0 <= k < all.len() && all[k] == dir;
        if k < head.len() {
            assert(head[k] == dir);
            lemma_list_dirs(items.drop_last(), dir);
        } else {
            match text_value(items.last()) {
                Some(s) => lemma_trimmed(s, CharClass::Only('/')),
                None => {},
            }
        }
    }
}

/// A mapped prefix is not empty, and neither it nor its directory ends with a
/// slash.
pub proof fn law_mapped_prefixes_are_clean(
    document: Option<Tree>,
    paths: Seq<Seq<char>>,
    sep: Seq<char>,
    p: (Seq<char>, Seq<char>),
)
    requires
        document_prefixes(document, paths, sep).contains(p),
    ensures
        p.0.len() > 0,
        p.0.last() != '/',
        p.1.len() > 0 ==> p.1.last() != '/',
{
    let slash = CharClass::Only('/');
    let root = document->Some_0;
    let f = path_prefixes(root, sep);
    lemma_concat_map_member(paths, f, p);
    let i = choose|i: int| 0 <= i < paths.len() && f(#[trigger] paths[i]).contains(p);
    let entries = at_path(root, paths[i])->Some_0->Table_0;
    let g = entry_prefixes(sep);
    lemma_concat_map_member(entries, g, p);
    let k = choose|k: int| 0 <= k < entries.len() && g(#[trigger] entries[k]).contains(p);
    let entry = entries[k];
    let ns = entry.0->Text_0;
    let part = g(entry);
    let n = choose|n: int| 0 <= n < part.len() && part[n] == p;
    assert(p.0 == normalized(ns, sep));
    let raw = if sep.len() > 0 {
        replaced(ns, sep, "/"@)
    } else {
        ns
    };
    lemma_trimmed(raw, slash);
    assert(p.1 == mapped_dirs(entry.1)[n]);
    match entry.1 {
        Tree::Text(s) => lemma_trimmed(s, slash),
        Tree::List(items) => {
            assert(list_dirs(items)[n] == p.1);
            lemma_list_dirs(items, p.1);
        },
        _ => {},
    }
}

/// A line declares a module path where, trimmed, it is the directive and
/// something that is not blank: the path is the first word of that.
pub proof fn law_directive_lines(line: Seq<char>, directive: Seq<char>, path: Seq<char>)
    ensures
        line_module(line, directive) == Some(path) <==> exists|rest: Seq<char>|
            {
                &&& trim_of(line, CharClass::White) == directive + rest
                &&& (#[trigger] trim_of(rest, CharClass::White)).len() > 0
                &&& path == first_piece(trim_of(rest, CharClass::White), CharClass::White)
            },
{
    let t = trim_of(line, CharClass::White);
    if line_module(line, directive) == Some(path) {
        let rest = after_prefix(t, directive)->Some_0;
        law_prefix_is_put_back(t, directive, rest);
        assert(trim_of(rest, CharClass::White).len() > 0);
    }
    if exists|rest: Seq<char>|
        {
            &&& t == directive + rest
            &&& (#[trigger] trim_of(rest, CharClass::White)).len() > 0
            &&& path == first_piece(trim_of(rest, CharClass::White), CharClass::White)
        } {
        let rest = choose|rest: Seq<char>|
            {
                &&& t == directive + rest
                &&& (#[trigger] trim_of(rest, CharClass::White)).len() > 0
                &&& path == first_piece(trim_of(rest, CharClass::White), CharClass::White)
            };
        law_prefix_is_put_back(t, directive, rest);
    }
}

/// The first line that declares a module path counts.
pub proof fn law_first_directive_line_counts(all: Seq<Seq<char>>, directive: Seq<char>)
    ensures
        match module_name(all, directive) {
            Some(path) => exists|i: int|
                {
                    &&& 0 <= i < all.len()
                    &&& line_module(#[trigger] all[i], directive) == Some(path)
                    &&& forall|j: int|
                        0 <= j < i ==> line_module(#[trigger] all[j], directive) is None
                },
            None => forall|j: int|
                0 <= j < all.len() ==> line_module(#[trigger] all[j], directive) is None,
        },
    decreases all.len(),
{
    if all.len() > 0 {
        if line_module(all[0], directive) is Some {
            assert(line_module(all[0], directive) == module_name(all, directive));
        } else {
            let rest = all.skip(1);
            law_first_directive_line_counts(rest, directive);
            if module_name(rest, directive) is Some {
                let i = choose|i: int|
                    {
                        &&& 0 <= i < rest.len()
                        &&& line_module(#[trigger] rest[i], directive) == module_name(
                            rest,
                            directive,
                        )
                        &&& forall|j: int|
                            0 <= j < i ==> line_module(#[trigger] rest[j], directive) is None
                    };
                assert(all[i + 1] == rest[i]);
                assert forall|j: int| 0 <= j < i + 1 implies line_module(
                    #[trigger] all[j],
                    directive,
                ) is None by {
                    if j > 0 {
                        assert(rest[j - 1] == all[j]);
                    }
                }
            } else {
                assert forall|j: int| 0 <= j < all.len() implies line_module(
                    #[trigger] all[j],
                    directive,
                ) is None by {
                    if j > 0 {
                        assert(rest[j - 1] == all[j]);
                    }
                }
            }
        }
    }
}

/// A namespace is written with slashes for its separators, and without the
/// slashes that it then ends with. Without a separator it is left as it is, but
/// for those.
pub proof fn law_namespaces_are_written_as_paths(ns: Seq<char>, sep: Seq<char>)
    ensures
        ({
            let path = normalized(ns, sep);
            let whole = if sep.len() > 0 {
                replaced(ns, sep, seq!['/'])
            } else {
                ns
            };
            &&& path.is_prefix_of(whole)
            &&& path.len() > 0 ==> path.last() != '/'
            &&& forall|i: int| path.len() <= i < whole.len() ==> #[trigger] whole[i] == '/'
        }),
{
    reveal_strlit("/");
    assert("/"@ =~= seq!['/']);
    let whole = if sep.len() > 0 {
        replaced(ns, sep, seq!['/'])
    } else {
        ns
    };
    law_trim_end(whole, CharClass::Only('/'));
    assert forall|i: int| normalized(ns, sep).len() <= i < whole.len() implies #[trigger] whole[i]
        == '/' by {
        assert(CharClass::Only('/').holds(whole[i]));
    }
}

/// A mapping names one directory, or each string of a list, without the slashes
/// at its end. Whatever else it holds names none.
pub proof fn law_every_mapped_directory_is_read(items: Seq<Tree>, x: Tree, s: Seq<char>)
    ensures
        mapped_dirs(Tree::List(Seq::empty())).len() == 0,
        mapped_dirs(Tree::List(items.push(x))) == (if text_value(x) is Some {
            mapped_dirs(Tree::List(items)) + mapped_dirs(Tree::Text(text_value(x)->Some_0))
        } else {
            mapped_dirs(Tree::List(items))
        }),
        mapped_dirs(Tree::Text(s)).len() == 1,
        ({
            let dir = mapped_dirs(Tree::Text(s))[0];
            &&& dir.is_prefix_of(s)
            &&& dir.len() > 0 ==> dir.last() != '/'
            &&& forall|i: int| dir.len() <= i < s.len() ==> #[trigger] s[i] == '/'
        }),
        !(x is Text) && !(x is List) ==> mapped_dirs(x).len() == 0,
{
    let more = items.push(x);
    assert(more.drop_last() =~= items);
    assert(more.last() == x);
    law_trim_end(s, CharClass::Only('/'));
    assert forall|i: int| mapped_dirs(Tree::Text(s))[0].len() <= i < s.len() implies #[trigger] s[i]
        == '/' by {
        assert(CharClass::Only('/').holds(s[i]));
    }
    if text_value(x) is Some {
        assert(mapped_dirs(Tree::List(more)) =~= mapped_dirs(Tree::List(items)) + mapped_dirs(
            Tree::Text(text_value(x)->Some_0),
        ));
    }
}

/// A document maps every directory of every namespace of every table that a
/// path leads to, and nothing else.
pub proof fn law_every_mapping_is_read(
    root: Tree,
    paths: Seq<Seq<char>>,
    sep: Seq<char>,
    prefix: Seq<char>,
    dir: Seq<char>,
)
    ensures
        document_prefixes(Some(root), paths, sep).contains((prefix, dir)) <==> exists|
            i: int,
            k: int,
        |
            {
                &&& 0 <= i < paths.len()
                &&& at_path(root, paths[i]) is Some
                &&& at_path(root, paths[i])->Some_0 is Table
                &&& 0 <= k < at_path(root, paths[i])->Some_0->Table_0.len()
                &&& (#[trigger] at_path(root, paths[i])->Some_0->Table_0[k]).0 is Text
                &&& prefix == normalized(
                    at_path(root, paths[i])->Some_0->Table_0[k].0->Text_0,
                    sep,
                )
                &&& prefix.len() > 0
                &&& mapped_dirs(at_path(root, paths[i])->Some_0->Table_0[k].1).contains(dir)
            },
        document_prefixes(None, paths, sep).len() == 0,
{
    let p = (prefix, dir);
    let f = path_prefixes(root, sep);
    let g = entry_prefixes(sep);
    lemma_concat_map_member(paths, f, p);
    if document_prefixes(Some(root), paths, sep).contains(p) {
        let i = choose|i: int| 0 <= i < paths.len() && f(#[trigger] paths[i]).contains(p);
        let entries = at_path(root, paths[i])->Some_0->Table_0;
        lemma_concat_map_member(entries, g, p);
        let k = choose|k: int| 0 <= k < entries.len() && g(#[trigger] entries[k]).contains(p);
        let part = g(entries[k]);
        let n = choose|n: int| 0 <= n < part.len() && part[n] == p;
        assert(mapped_dirs(entries[k].1)[n] == dir);
        assert(at_path(root, paths[i])->Some_0->Table_0[k].0 is Text);
    }
    if exists|i: int, k: int|
        {
            &&& 0 <= i < paths.len()
            &&& at_path(root, paths[i]) is Some
            &&& at_path(root, paths[i])->Some_0 is Table
            &&& 0 <= k < at_path(root, paths[i])->Some_0->Table_0.len()
            &&& (#[trigger] at_path(root, paths[i])->Some_0->Table_0[k]).0 is Text
            &&& prefix == normalized(at_path(root, paths[i])->Some_0->Table_0[k].0->Text_0, sep)
            &&& prefix.len() > 0
            &&& mapped_dirs(at_path(root, paths[i])->Some_0->Table_0[k].1).contains(dir)
        } {
        let (i, k) = choose|i: int, k: int|
            {
                &&& 0 <= i < paths.len()
                &&& at_path(root, paths[i]) is Some
                &&& at_path(root, paths[i])->Some_0 is Table
                &&& 0 <= k < at_path(root, paths[i])->Some_0->Table_0.len()
                &&& (#[trigger] at_path(root, paths[i])->Some_0->Table_0[k]).0 is Text
                &&& prefix == normalized(
                    at_path(root, paths[i])->Some_0->Table_0[k].0->Text_0,
                    sep,
                )
                &&& prefix.len() > 0
                &&& mapped_dirs(at_path(root, paths[i])->Some_0->Table_0[k].1).contains(dir)
            };
        let entries = at_path(root, paths[i])->Some_0->Table_0;
        let dirs = mapped_dirs(entries[k].1);
        let n = choose|n: int| 0 <= n < dirs.len() && dirs[n] == dir;
        assert(g(entries[k])[n] == p);
        lemma_concat_map_member(entries, g, p);
        assert(f(paths[i]).contains(p));
    }
}

/// As many prefixes come from a table as its named mappings hold directories.
pub proof fn law_mappings_are_read_one_by_one(
    sep: Seq<char>,
    entries: Seq<(Tree, Tree)>,
    ns: Seq<char>,
    value: Tree,
)
    ensures
        concat_map(entries.push((Tree::Text(ns), value)), entry_prefixes(sep)).len() == concat_map(
            entries,
            entry_prefixes(sep),
        ).len() + (if normalized(ns, sep).len() > 0 {
            mapped_dirs(value).len()
        } else {
            0
        }),
{
    let more = entries.push((Tree::Text(ns), value));
    assert(more.drop_last() =~= entries);
    assert(more.last() == (Tree::Text(ns), value));
}

/// A directory of a project is the project's directory, a slash and the
/// directory; that of the root project is the directory itself.
pub proof fn law_directories_of_projects(project_dir: Seq<char>, dir: Seq<char>)
    ensures
        within(Seq::empty(), dir) == dir,
        project_dir.len() > 0 ==> within(project_dir, dir) == project_dir + seq!['/'] + dir,
{
    reveal_strlit("/");
    assert("/"@ =~= seq!['/']);
}

/// Placing prefixes keeps each of them, in its place, and puts its directory
/// below that of the project.
pub proof fn law_prefixes_are_placed(
    project_dir: Seq<char>,
    maps: Seq<(Seq<char>, Seq<char>)>,
    i: int,
)
    requires
        0 <= i < maps.len(),
    ensures
        placed_prefixes(project_dir, maps).len() == maps.len(),
        placed_prefixes(project_dir, maps)[i].0 == maps[i].0,
        placed_prefixes(project_dir, maps)[i].1 == (if project_dir.len() == 0 {
            maps[i].1
        } else {
            project_dir + seq!['/'] + maps[i].1
        }),
{
    law_directories_of_projects(project_dir, maps[i].1);
}

/// What a prefix file declares. A JSON map gives all of its mappings. Any other
/// file gives the module path of its directive, for the project's directory.
pub proof fn law_prefix_file(
    project_dir: Seq<char>,
    config: ResolverConfig,
    content: Seq<char>,
    i: int,
)
    ensures
        ({
            let found = content_prefixes(project_dir, config, content);
            let maps = document_prefixes(
                json_text(content),
                config.module_prefix_json_paths.deep_view(),
                config.namespace_separator@,
            );
            let json = config.module_prefix_format@ == "json_map"@
                && config.module_prefix_json_paths@.len() > 0;
            let name = module_name(lines_of(content), config.module_prefix_directive@);
            &&& json ==> found.len() == maps.len() && (0 <= i < maps.len() ==> found[i]
                == placed_prefixes(project_dir, maps)[i])
            &&& !json && config.module_prefix_directive@.len() > 0 && name is Some ==> found.len()
                == 1 && found[0].1 == project_dir && Some(found[0].0) == name
            &&& !json && (config.module_prefix_directive@.len() == 0 || name is None)
                ==> found.len() == 0
        }),
{
}

/// The prefixes of all files that could be read are collected, and no others.
pub proof fn law_every_prefix_file_counts(
    sources: Seq<ConfigSource>,
    p: (Seq<char>, Seq<char>),
)
    ensures
        concat_map(sources, source_prefixes()).contains(p) <==> exists|i: int|
            {
                &&& 0 <= i < sources.len()
                &&& (#[trigger] sources[i]).content is Some
                &&& content_prefixes(
                    sources[i].read.project_dir@,
                    *sources[i].read.config,
                    sources[i].content->Some_0@,
                ).contains(p)
            },
{
    let f = source_prefixes();
    lemma_concat_map_member(sources, f, p);
    if concat_map(sources, f).contains(p) {
        let i = choose|i: int| 0 <= i < sources.len() && f(#[trigger] sources[i]).contains(p);
        assert(sources[i].content is Some);
    }
    if exists|i: int|
        {
            &&& 0 <= i < sources.len()
            &&& (#[trigger] sources[i]).content is Some
            &&& content_prefixes(
                sources[i].read.project_dir@,
                *sources[i].read.config,
                sources[i].content->Some_0@,
            ).contains(p)
        } {
        let i = choose|i: int|
            {
                &&& 0 <= i < sources.len()
                &&& (#[trigger] sources[i]).content is Some
                &&& content_prefixes(
                    sources[i].read.project_dir@,
                    *sources[i].read.config,
                    sources[i].content->Some_0@,
                ).contains(p)
            };
        assert(f(sources[i]).contains(p));
    }
}

/// Prefix files are read in every project, for every plugin that has one and a
/// way to read it, and for no other plugin.
pub proof fn law_every_prefix_file_is_read(
    roots: Seq<Seq<char>>,
    profiles: Seq<ResolverConfig>,
    root: Seq<char>,
    config: ResolverConfig,
)
    ensures
        concat_map(roots, reads_in(profiles)).contains((root, config)) <==> {
            &&& roots.contains(root)
            &&& profiles.contains(config)
            &&& config.module_prefix_file@.len() > 0
            &&& config.module_prefix_directive@.len() > 0 || (config.module_prefix_format@
                == "json_map"@ && config.module_prefix_json_paths@.len() > 0)
        },
{
    let f = reads_in(profiles);
    let pred = has_prefix_file();
    let read = (root, config);
    let configs = profiles.filter(pred);
    lemma_concat_map_member(roots, f, read);
    if concat_map(roots, f).contains(read) {
        let i = choose|i: int| 0 <= i < roots.len() && f(#[trigger] roots[i]).contains(read);
        let part = f(roots[i]);
        let k = choose|k: int| 0 <= k < part.len() && part[k] == read;
        lemma_filter_member(profiles, pred, k);
    }
    if roots.contains(root) && profiles.contains(config) && pred(config) {
        let k = choose|k: int| 0 <= k < profiles.len() && profiles[k] == config;
        lemma_filter_keeps(profiles, pred, k);
        let n = choose|n: int| 0 <= n < configs.len() && configs[n] == config;
        let i = choose|i: int| 0 <= i < roots.len() && roots[i] == root;
        assert(f(roots[i])[n] == read);
    }
}

} // verus!
