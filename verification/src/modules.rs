//! The suffix index: every way in which a module path may be cut short.

use vstd::prelude::*;

use crate::aliases::{apply_alias_transform, slash, transformed};
use crate::lists::{concat_map, lemma_concat_map_member, lemma_concat_map_step};
use crate::manifest::{extract_name_from_manifest, name_in_manifest};
use crate::prefixes::{collect_module_prefixes, source_prefixes};
use crate::profile::{ConfigSource, ResolverConfig};
use crate::sorting::{order, sorted};
use crate::table::{entries, index_names, law_names_are_counted, with_entry, Table};
use crate::text::{
    after_last, before_suffix, cut_last, ends_with, find, last_piece,
    law_cut_at_the_last_separator, law_first_and_last_piece, law_suffix_is_put_back,
    lemma_tail_span, rsplit_once, same, span, strip_suffix, trim_end, trim_end_of, CharClass,
};

verus! {

// ---------------------------------------------------------------------------
// Suffixes of module paths
// ---------------------------------------------------------------------------

/// A module path and what is left of it behind each slash, longest first;
/// empty rests are left out. `a/b/c` has `a/b/c`, `b/c` and `c`.
pub open spec fn suffixes(path: Seq<char>) -> Seq<Seq<char>>
    decreases path.len(),
{
    let n = span(path, slash());
    let own = if path.len() > 0 {
        seq![path]
    } else {
        Seq::empty()
    };
    if n >= path.len() {
        own
    } else {
        own + suffixes(path.skip(n as int + 1))
    }
}

/// Adding names in two goes is adding them in one.
proof fn lemma_index_names_add(
    m: Map<Seq<char>, Seq<Seq<char>>>,
    a: Seq<Seq<char>>,
    b: Seq<Seq<char>>,
    path: Seq<char>,
)
    ensures
        index_names(index_names(m, a, path), b, path) == index_names(m, a + b, path),
    decreases b.len(),
{
    if b.len() == 0 {
        assert(a + b =~= a);
    } else {
        lemma_index_names_add(m, a, b.drop_last(), path);
        assert((a + b).drop_last() =~= a + b.drop_last());
        assert((a + b).last() == b.last());
    }
}

/// Adds every suffix of a module path to the index, pointing to the file.
pub fn add_module_suffixes(index: &mut Table<Vec<String>>, module: &str, file_path: &str)
    requires
        old(index).wf(),
    ensures
        final(index).wf(),
        final(index).deep_view() == index_names(
            old(index).deep_view(),
            suffixes(module@),
            file_path@,
        ),
{
    let ghost start = index.deep_view();
    let ghost done = Seq::<Seq<char>>::empty();
    let mut rest = module;
    assert(done + suffixes(rest@) =~= suffixes(module@));
    loop
        invariant
            index.wf(),
            start == old(index).deep_view(),
            index.deep_view() == index_names(start, done, file_path@),
            done + suffixes(rest@) == suffixes(module@),
        decreases rest@.len(),
    {
        let n = find(rest, CharClass::Only('/'));
        let len = rest.unicode_len();
        let ghost now = done;
        if len > 0 {
            index.append(rest, file_path);
            proof {
                assert(done.push(rest@).drop_last() =~= done);
                done = done.push(rest@);
            }
        }
        if n >= len {
            assert(done =~= now + suffixes(rest@));
            return ;
        }
        let next = rest.substring_char(n + 1, len);
        assert(next@ =~= rest@.skip(n as int + 1));
        assert(done + suffixes(next@) =~= now + suffixes(rest@));
        rest = next;
    }
}

/// A known file with the module path that importers know it by.
#[derive(Debug, PartialEq, Eq)]
pub struct ModuleFile {
    /// The path of the file.
    pub path: String,
    /// Its module path; empty if it has none.
    pub module: String,
}

/// The directory of a module, where any file of its language in a directory
/// makes up one package.
pub open spec fn package_dir(file: ModuleFile, dir_pkg_exts: Seq<Seq<char>>) -> Seq<char> {
    match cut_last(file.module@, slash()) {
        Some((parent, _)) => if dir_pkg_exts.contains(
            last_piece(file.path@, CharClass::Only('.')),
        ) {
            parent
        } else {
            Seq::empty()
        },
        None => Seq::empty(),
    }
}

/// The keys under which a file is indexed.
pub open spec fn module_keys(file: ModuleFile, dir_pkg_exts: Seq<Seq<char>>) -> Seq<Seq<char>> {
    suffixes(file.module@) + suffixes(package_dir(file, dir_pkg_exts))
}

/// The suffix index of all files.
pub open spec fn suffix_map(files: Seq<ModuleFile>, dir_pkg_exts: Seq<Seq<char>>) -> Map<
    Seq<char>,
    Seq<Seq<char>>,
>
    decreases files.len(),
{
    if files.len() == 0 {
        Map::empty()
    } else {
        index_names(
            suffix_map(files.drop_last(), dir_pkg_exts),
            module_keys(files.last(), dir_pkg_exts),
            files.last().path@,
        )
    }
}

/// Whether a list of texts holds a text.
fn holds(list: &Vec<String>, wanted: &str) -> (r: bool)
    ensures
        r == list.deep_view().contains(wanted@),
{
    let mut i: usize = 0;
    while i < list.len()
        invariant
            i <= list@.len(),
            forall|k: int| 0 <= k < i ==> #[trigger] list.deep_view()[k] != wanted@,
        decreases list@.len() - i,
    {
        if same(&list[i], wanted) {
            assert(list.deep_view()[i as int] == wanted@);
            return true;
        }
        i += 1;
    }
    false
}

/// Maps every suffix of every file's module path to that file.
fn index_modules(files: &Vec<ModuleFile>, dir_pkg_exts: &Vec<String>) -> (r: Table<Vec<String>>)
    ensures
        r.wf(),
        r.deep_view() == suffix_map(files@, dir_pkg_exts.deep_view()),
{
    let mut index: Table<Vec<String>> = Table::new();
    let ghost exts = dir_pkg_exts.deep_view();
    let mut i: usize = 0;
    assert(index.deep_view() =~= Map::<Seq<char>, Seq<Seq<char>>>::empty());
    while i < files.len()
        invariant
            i <= files@.len(),
            exts == dir_pkg_exts.deep_view(),
            index.wf(),
            index.deep_view() == suffix_map(files@.take(i as int), exts),
        decreases files@.len() - i,
    {
        let file = &files[i];
        let ghost before = index.deep_view();
        assert(files@.take(i + 1).drop_last() =~= files@.take(i as int));
        assert(files@.take(i + 1).last() == *file);
        let ghost own = suffixes(file.module@);
        let ghost parent_keys = suffixes(package_dir(*file, exts));
        add_module_suffixes(&mut index, &file.module, &file.path);
        proof {
            lemma_index_names_add(before, own, parent_keys, file.path@);
        }
        let mut parent: &str = "";
        proof {
            reveal_strlit("");
            assert(""@ =~= Seq::<char>::empty());
        }
        if holds(dir_pkg_exts, after_last(&file.path, CharClass::Only('.'))) {
            if let Some((dir, _rest)) = rsplit_once(&file.module, CharClass::Only('/')) {
                parent = dir;
            }
        }
        assert(parent@ == package_dir(*file, exts));
        add_module_suffixes(&mut index, parent, &file.path);
        i += 1;
    }
    assert(files@.take(i as int) =~= files@);
    index
}

// ---------------------------------------------------------------------------
// Entry files of packages
// ---------------------------------------------------------------------------

/// Whether a file is the entry file of a package: it ends with the entry
/// point, and the last step of the two is the same.
pub open spec fn is_entry(file_path: Seq<char>, entry_point: Seq<char>) -> bool {
    &&& last_piece(file_path, slash()) == last_piece(entry_point, slash())
    &&& entry_point.is_suffix_of(file_path)
}

/// Whether a file is the entry file of a package.
pub fn is_entry_file(file_path: &str, entry_point: &str) -> (r: bool)
    ensures
        r == is_entry(file_path@, entry_point@),
{
    let class = CharClass::Only('/');
    same(after_last(file_path, class), after_last(entry_point, class)) && ends_with(
        file_path,
        entry_point,
    )
}

/// The directory of the package whose entry file is given.
pub open spec fn entry_project(file_path: Seq<char>, entry_point: Seq<char>) -> Seq<char> {
    match before_suffix(file_path, entry_point) {
        Some(dir) => trim_end_of(dir, slash()),
        None => Seq::empty(),
    }
}

/// Finds the directory of the package whose entry file is given; the manifest
/// of the package lies there.
pub fn entry_project_dir<'a>(file_path: &'a str, entry_point: &str) -> (r: &'a str)
    ensures
        r@ == entry_project(file_path@, entry_point@),
{
    match strip_suffix(file_path, entry_point) {
        Some(dir) => trim_end(dir, CharClass::Only('/')),
        None => {
            proof {
                reveal_strlit("");
                assert(""@ =~= Seq::<char>::empty());
            }
            ""
        }
    }
}

/// An entry file whose package name is to be read.
pub struct AliasRead<'a> {
    /// The entry file.
    pub file_path: &'a str,
    /// The plugin that says how packages are named.
    pub config: &'a ResolverConfig,
}

impl<'a> DeepView for AliasRead<'a> {
    type V = (Seq<char>, ResolverConfig);

    open spec fn deep_view(&self) -> (Seq<char>, ResolverConfig) {
        (self.file_path@, *self.config)
    }
}

/// Whether a plugin names packages and says what their entry file is.
pub open spec fn names_entries(config: ResolverConfig) -> bool {
    config.alias_file@.len() > 0 && config.alias_field@.len() > 0 && config.alias_entry_point@.len()
        > 0
}

/// The entry files of a plugin among the known files.
pub open spec fn entries_of(files: Seq<Seq<char>>) -> spec_fn(ResolverConfig) -> Seq<
    (Seq<char>, ResolverConfig),
> {
    |config: ResolverConfig|
        if names_entries(config) {
            concat_map(files, entry_read(config))
        } else {
            Seq::empty()
        }
}

/// A known file as an entry file, if it is one.
pub open spec fn entry_read(config: ResolverConfig) -> spec_fn(Seq<char>) -> Seq<
    (Seq<char>, ResolverConfig),
> {
    |file: Seq<char>|
        if is_entry(file, config.alias_entry_point@) {
            seq![(file, config)]
        } else {
            Seq::empty()
        }
}

/// Lists the entry files whose package names are to be read, plugin by plugin.
pub fn plan_alias_reads<'a>(
    known_files: &'a Vec<String>,
    profiles: &'a Vec<ResolverConfig>,
) -> (r: Vec<AliasRead<'a>>)
    ensures
        r.deep_view() == concat_map(profiles@, entries_of(known_files.deep_view())),
{
    let ghost files = known_files.deep_view();
    let ghost f = entries_of(files);
    let mut out: Vec<AliasRead<'a>> = Vec::new();
    let mut i: usize = 0;
    assert(out.deep_view() =~= concat_map(profiles@.take(0), f));
    while i < profiles.len()
        invariant
            i <= profiles@.len(),
            files == known_files.deep_view(),
            f == entries_of(files),
            out.deep_view() == concat_map(profiles@.take(i as int), f),
        decreases profiles@.len() - i,
    {
        let config = &profiles[i];
        let ghost before = out.deep_view();
        proof {
            lemma_concat_map_step(profiles@, f, i as int);
        }
        if !config.alias_file.as_str().is_empty() && !config.alias_field.as_str().is_empty()
            && !config.alias_entry_point.as_str().is_empty() {
            let ghost g = entry_read(*config);
            let mut j: usize = 0;
            assert(out.deep_view() =~= before + concat_map(files.take(0), g));
            while j < known_files.len()
                invariant
                    j <= known_files@.len(),
                    files == known_files.deep_view(),
                    g == entry_read(*config),
                    out.deep_view() == before + concat_map(files.take(j as int), g),
                decreases known_files@.len() - j,
            {
                let ghost was = out.deep_view();
                let file_path = &known_files[j];
                proof {
                    lemma_concat_map_step(files, g, j as int);
                }
                if is_entry_file(file_path, &config.alias_entry_point) {
                    out.push(AliasRead { file_path, config });
                    assert(out.deep_view() =~= was.push((file_path@, *config)));
                }
                assert(out.deep_view() =~= was + g(file_path@));
                assert(out.deep_view() =~= before + concat_map(files.take(j + 1), g));
                j += 1;
            }
            assert(files.take(j as int) =~= files);
        } else {
            assert(out.deep_view() =~= before + f(*config));
        }
        i += 1;
    }
    assert(profiles@.take(i as int) =~= profiles@);
    out
}

/// An entry file with the manifest of its package.
pub struct AliasSource<'a> {
    /// The entry file.
    pub read: AliasRead<'a>,
    /// The file name of the manifest, which tells its format.
    pub manifest_name: String,
    /// The content of the manifest, if it could be read.
    pub content: Option<String>,
}

/// The package name that an entry file stands for.
pub open spec fn entry_alias(source: AliasSource) -> Option<Seq<char>> {
    match source.content {
        Some(content) => match name_in_manifest(
            content@,
            source.read.config.alias_field@,
            source.manifest_name@,
        ) {
            Some(name) => {
                let alias = transformed(name, source.read.config.alias_transform@);
                if alias.len() == 0 {
                    None
                } else {
                    Some(alias)
                }
            },
            None => None,
        },
        None => None,
    }
}

/// The index from package names to entry files.
pub open spec fn alias_map(sources: Seq<AliasSource>) -> Map<Seq<char>, Seq<Seq<char>>>
    decreases sources.len(),
{
    if sources.len() == 0 {
        Map::empty()
    } else {
        let m = alias_map(sources.drop_last());
        match entry_alias(sources.last()) {
            Some(alias) => with_entry(m, alias, sources.last().read.file_path@),
            None => m,
        }
    }
}

/// Extracts the package name that an entry file stands for.
pub fn extract_manifest_alias(source: &AliasSource) -> (r: Option<String>)
    ensures
        r.deep_view() == entry_alias(*source),
{
    let content = match &source.content {
        Some(content) => content,
        None => {
            return None;
        }
    };
    match extract_name_from_manifest(
        content,
        &source.read.config.alias_field,
        &source.manifest_name,
    ) {
        Some(name) => {
            let alias = apply_alias_transform(&name, &source.read.config.alias_transform);
            if alias.as_str().is_empty() {
                None
            } else {
                Some(alias)
            }
        }
        None => None,
    }
}

/// Indexes entry files by the names of their packages, so that an import of
/// the bare name finds the file.
pub fn inject_manifest_name_aliases(sources: &Vec<AliasSource>) -> (r: Table<Vec<String>>)
    ensures
        r.wf(),
        r.deep_view() == alias_map(sources@),
{
    let mut index: Table<Vec<String>> = Table::new();
    let mut i: usize = 0;
    assert(index.deep_view() =~= Map::<Seq<char>, Seq<Seq<char>>>::empty());
    while i < sources.len()
        invariant
            i <= sources@.len(),
            index.wf(),
            index.deep_view() == alias_map(sources@.take(i as int)),
        decreases sources@.len() - i,
    {
        let source = &sources[i];
        assert(sources@.take(i + 1).drop_last() =~= sources@.take(i as int));
        if let Some(alias) = extract_manifest_alias(source) {
            index.append(&alias, source.read.file_path);
        }
        i += 1;
    }
    assert(sources@.take(i as int) =~= sources@);
    index
}

// ---------------------------------------------------------------------------
// The whole index
// ---------------------------------------------------------------------------

/// The suffix index with what belongs to it.
pub struct SuffixIndex {
    /// The files under each suffix of their module paths.
    pub index: Table<Vec<String>>,
    /// The entry files under each package name.
    pub manifest_name_aliases: Table<Vec<String>>,
    /// The directory of each module prefix, the longest prefix first.
    pub module_prefixes: Vec<(String, String)>,
}

impl SuffixIndex {
    /// The tables are well formed.
    pub open spec fn wf(&self) -> bool {
        self.index.wf() && self.manifest_name_aliases.wf()
    }
}

/// A language as the suffix index sees it.
#[derive(Debug, PartialEq, Eq)]
pub struct LangPackages {
    /// Whether the files of a directory make up one package.
    pub directory_is_package: bool,
    /// The extensions of its files.
    pub extensions: Vec<String>,
}

/// The extensions of a language whose directories are packages.
pub open spec fn package_exts() -> spec_fn(LangPackages) -> Seq<Seq<char>> {
    |lang: LangPackages|
        if lang.directory_is_package {
            lang.extensions.deep_view()
        } else {
            Seq::empty()
        }
}

/// Lists the extensions of the languages whose directories are packages.
pub fn dir_package_exts(langs: &Vec<LangPackages>) -> (r: Vec<String>)
    ensures
        r.deep_view() == concat_map(langs@, package_exts()),
{
    let ghost f = package_exts();
    let mut out: Vec<String> = Vec::new();
    let mut i: usize = 0;
    assert(out.deep_view() =~= concat_map(langs@.take(0), f));
    while i < langs.len()
        invariant
            i <= langs@.len(),
            f == package_exts(),
            out.deep_view() == concat_map(langs@.take(i as int), f),
        decreases langs@.len() - i,
    {
        let lang = &langs[i];
        let ghost before = out.deep_view();
        proof {
            lemma_concat_map_step(langs@, f, i as int);
        }
        if lang.directory_is_package {
            let ghost added = lang.extensions.deep_view();
            let mut j: usize = 0;
            assert(out.deep_view() =~= before + added.take(0));
            while j < lang.extensions.len()
                invariant
                    j <= lang.extensions@.len(),
                    added == lang.extensions.deep_view(),
                    out.deep_view() == before + added.take(j as int),
                decreases lang.extensions@.len() - j,
            {
                let ghost was = out.deep_view();
                out.push(lang.extensions[j].clone());
                assert(out.deep_view() =~= was.push(added[j as int]));
                assert(out.deep_view() =~= before + added.take(j + 1));
                j += 1;
            }
            assert(added.take(j as int) =~= added);
        } else {
            assert(out.deep_view() =~= before + f(*lang));
        }
        i += 1;
    }
    assert(langs@.take(i as int) =~= langs@);
    out
}

/// Builds the suffix index: every suffix of every file's module path, the
/// directories of packages, the module prefixes and the package names.
pub fn build_module_suffix_index(
    files: &Vec<ModuleFile>,
    langs: &Vec<LangPackages>,
    prefix_sources: &Vec<ConfigSource>,
    alias_sources: &Vec<AliasSource>,
) -> (r: SuffixIndex)
    ensures
        r.wf(),
        r.index.deep_view() == suffix_map(files@, concat_map(langs@, package_exts())),
        r.manifest_name_aliases.deep_view() == alias_map(alias_sources@),
        r.module_prefixes.deep_view() == sorted(
            concat_map(prefix_sources@, source_prefixes()),
            order::<(String, String)>(),
        ),
{
    let dir_pkg_exts = dir_package_exts(langs);
    SuffixIndex {
        index: index_modules(files, &dir_pkg_exts),
        manifest_name_aliases: inject_manifest_name_aliases(alias_sources),
        module_prefixes: collect_module_prefixes(prefix_sources),
    }
}

// ---------------------------------------------------------------------------
// Laws
// ---------------------------------------------------------------------------

/// The suffixes of a module path are the path itself and what follows each of
/// its slashes, but for empty rests.
pub proof fn law_suffixes_follow_slashes(path: Seq<char>, s: Seq<char>)
    ensures
        suffixes(path).contains(s) <==> s.len() > 0 && (s == path || exists|i: int|
            0 <= i < path.len() && #[trigger] path[i] == '/' && s == path.skip(i + 1)),
    decreases path.len(),
{
    let n = span(path, slash()) as int;
    let all = suffixes(path);
    lemma_first_slash(path);
    if n >= path.len() {
        if path.len() > 0 {
            assert(all[0] == path);
        }
    } else {
        let rest = path.skip(n + 1);
        let own = seq![path];
        let more = suffixes(rest);
        law_suffixes_follow_slashes(rest, s);
        assert(all == own + more);
        if all.contains(s) {
            let k = choose|k: int| 0 <= k < all.len() && all[k] == s;
            if k > 0 {
                assert(more[k - 1] == s);
                assert(more.contains(s));
                if s == rest {
                    assert(path[n] == '/');
                } else {
                    let i = choose|i: int|
                        0 <= i < rest.len() && #[trigger] rest[i] == '/' && s == rest.skip(i + 1);
                    assert(path[n + 1 + i] == '/');
                    assert(rest.skip(i + 1) =~= path.skip(n + 1 + i + 1));
                }
            }
        }
        if s.len() > 0 && s == path {
            assert(all[0] == s);
        }
        if s.len() > 0 && exists|i: int|
            0 <= i < path.len() && #[trigger] path[i] == '/' && s == path.skip(i + 1) {
            let i = choose|i: int|
                0 <= i < path.len() && #[trigger] path[i] == '/' && s == path.skip(i + 1);
            if i > n {
                assert(rest[i - n - 1] == '/');
                assert(rest.skip(i - n - 1 + 1) =~= path.skip(i + 1));
            }
            assert(more.contains(s));
            let k = choose|k: int| 0 <= k < more.len() && more[k] == s;
            assert(all[k + 1] == s);
        }
    }
}

/// Package names are only read for entry files among the known ones.
pub proof fn law_entry_files_are_known(
    known_files: Seq<Seq<char>>,
    profiles: Seq<ResolverConfig>,
    read: (Seq<char>, ResolverConfig),
)
    requires
        concat_map(profiles, entries_of(known_files)).contains(read),
    ensures
        known_files.contains(read.0),
        profiles.contains(read.1),
        names_entries(read.1),
        is_entry(read.0, read.1.alias_entry_point@),
{
    let f = entries_of(known_files);
    lemma_concat_map_member(profiles, f, read);
    let i = choose|i: int| 0 <= i < profiles.len() && f(#[trigger] profiles[i]).contains(read);
    let g = entry_read(profiles[i]);
    lemma_concat_map_member(known_files, g, read);
    let k = choose|k: int|
        0 <= k < known_files.len() && g(#[trigger] known_files[k]).contains(read);
    assert(is_entry(known_files[k], profiles[i].alias_entry_point@));
}

/// Where the first slash of a text stands.
proof fn lemma_first_slash(s: Seq<char>)
    ensures
        span(s, slash()) <= s.len(),
        forall|i: int| 0 <= i < span(s, slash()) ==> #[trigger] s[i] != '/',
        span(s, slash()) < s.len() ==> s[span(s, slash()) as int] == '/',
    decreases s.len(),
{
    if s.len() > 0 && s[0] != '/' {
        lemma_first_slash(s.skip(1));
        assert forall|i: int| 0 <= i < span(s, slash()) implies #[trigger] s[i] != '/' by {
            if i > 0 {
                assert(s.skip(1)[i - 1] == s[i]);
            }
        }
    }
}

/// What an index holds after names were added for a path.
proof fn lemma_index_names_holds(
    m: Map<Seq<char>, Seq<Seq<char>>>,
    names: Seq<Seq<char>>,
    path: Seq<char>,
    key: Seq<char>,
    p: Seq<char>,
)
    ensures
        entries(index_names(m, names, path), key).contains(p) <==> entries(m, key).contains(p) || (p
            == path && names.contains(key)),
    decreases names.len(),
{
    if names.len() > 0 {
        let d = names.drop_last();
        let before = index_names(m, d, path);
        let had = entries(before, key);
        lemma_index_names_holds(m, d, path, key, p);
        if names.contains(key) {
            let k = choose|k: int| 0 <= k < names.len() && names[k] == key;
            if k < d.len() {
                assert(d[k] == key);
            }
        }
        if d.contains(key) {
            let k = choose|k: int| 0 <= k < d.len() && d[k] == key;
            assert(names[k] == key);
        }
        if names.last() == key {
            let now = had.push(path);
            assert(names[names.len() - 1] == key);
            assert(entries(index_names(m, names, path), key) == now);
            if had.contains(p) {
                let k = choose|k: int| 0 <= k < had.len() && had[k] == p;
                assert(now[k] == p);
            }
            if p == path {
                assert(now[had.len() as int] == p);
            }
            if now.contains(p) {
                let k = choose|k: int| 0 <= k < now.len() && now[k] == p;
                if k < had.len() {
                    assert(had[k] == p);
                }
            }
        }
    }
}

/// The index holds a file under a key exactly where the key is a suffix of
/// the file's module path, or of its directory where directories are packages.
pub proof fn law_index_finds_files_by_suffix(
    files: Seq<ModuleFile>,
    dir_pkg_exts: Seq<Seq<char>>,
    key: Seq<char>,
    path: Seq<char>,
)
    ensures
        entries(suffix_map(files, dir_pkg_exts), key).contains(path) <==> exists|i: int|
            0 <= i < files.len() && (#[trigger] files[i]).path@ == path && (suffixes(
                files[i].module@,
            ).contains(key) || suffixes(package_dir(files[i], dir_pkg_exts)).contains(key)),
    decreases files.len(),
{
    if files.len() > 0 {
        let d = files.drop_last();
        let file = files.last();
        let keys = module_keys(file, dir_pkg_exts);
        let a = suffixes(file.module@);
        let b = suffixes(package_dir(file, dir_pkg_exts));
        law_index_finds_files_by_suffix(d, dir_pkg_exts, key, path);
        lemma_index_names_holds(suffix_map(d, dir_pkg_exts), keys, file.path@, key, path);
        assert(keys.contains(key) <==> a.contains(key) || b.contains(key)) by {
            if a.contains(key) {
                let k = choose|k: int| 0 <= k < a.len() && a[k] == key;
                assert(keys[k] == key);
            }
            if b.contains(key) {
                let k = choose|k: int| 0 <= k < b.len() && b[k] == key;
                assert(keys[a.len() + k] == key);
            }
            if keys.contains(key) {
                let k = choose|k: int| 0 <= k < keys.len() && keys[k] == key;
                if k < a.len() {
                    assert(a[k] == key);
                } else {
                    assert(b[k - a.len()] == key);
                }
            }
        }
        if path == file.path@ && keys.contains(key) {
            assert(files[files.len() - 1].path@ == path);
        }
        if entries(suffix_map(d, dir_pkg_exts), key).contains(path) {
            let i = choose|i: int|
                0 <= i < d.len() && (#[trigger] d[i]).path@ == path && (suffixes(
                    d[i].module@,
                ).contains(key) || suffixes(package_dir(d[i], dir_pkg_exts)).contains(key));
            assert(files[i] == d[i]);
        }
        if exists|i: int|
            0 <= i < files.len() && (#[trigger] files[i]).path@ == path && (suffixes(
                files[i].module@,
            ).contains(key) || suffixes(package_dir(files[i], dir_pkg_exts)).contains(key)) {
            let i = choose|i: int|
                0 <= i < files.len() && (#[trigger] files[i]).path@ == path && (suffixes(
                    files[i].module@,
                ).contains(key) || suffixes(package_dir(files[i], dir_pkg_exts)).contains(key));
            if i < d.len() {
                assert(d[i] == files[i]);
            }
        }
    }
}

/// Longer suffixes come before shorter ones, so that none comes twice.
pub proof fn law_longer_suffixes_come_first(path: Seq<char>)
    ensures
        forall|i: int, j: int|
            0 <= i < j < suffixes(path).len() ==> (#[trigger] suffixes(path)[j]).len() < (
            #[trigger] suffixes(path)[i]).len(),
        forall|i: int|
            0 <= i < suffixes(path).len() ==> (#[trigger] suffixes(path)[i]).len() <= path.len(),
    decreases path.len(),
{
    let n = span(path, slash()) as int;
    if n < path.len() {
        let rest = path.skip(n + 1);
        let more = suffixes(rest);
        let all = suffixes(path);
        law_longer_suffixes_come_first(rest);
        assert(all =~= seq![path] + more);
        assert forall|i: int, j: int| 0 <= i < j < all.len() implies (#[trigger] all[j]).len() < (
        #[trigger] all[i]).len() by {
            assert(all[j] == more[j - 1]);
            if i > 0 {
                assert(all[i] == more[i - 1]);
            }
        }
        assert forall|i: int| 0 <= i < all.len() implies (#[trigger] all[i]).len()
            <= path.len() by {
            if i > 0 {
                assert(all[i] == more[i - 1]);
            }
        }
    }
}

/// How often a text is among others that are all different.
proof fn lemma_once(names: Seq<Seq<char>>, key: Seq<char>)
    requires
        names.no_duplicates(),
    ensures
        names.filter(|n: Seq<char>| n == key).len() == (if names.contains(key) {
            1nat
        } else {
            0nat
        }),
    decreases names.len(),
{
    reveal(Seq::filter);
    if names.len() > 0 {
        let d = names.drop_last();
        assert(d.no_duplicates());
        lemma_once(d, key);
        if d.contains(key) {
            let k = choose|k: int| 0 <= k < d.len() && d[k] == key;
            assert(names[k] == key);
            assert(names[names.len() - 1] != key);
        }
        if names.contains(key) {
            let k = choose|k: int| 0 <= k < names.len() && names[k] == key;
            if k < d.len() {
                assert(d[k] == key);
            }
        }
        if names.last() == key {
            assert(names[names.len() - 1] == key);
        }
    }
}

/// A file is indexed once under each suffix of its module path, and once more
/// under each suffix of its package directory, behind the files before it.
pub proof fn law_files_are_indexed_one_by_one(
    files: Seq<ModuleFile>,
    file: ModuleFile,
    dir_pkg_exts: Seq<Seq<char>>,
    key: Seq<char>,
)
    ensures
        ({
            let before = entries(suffix_map(files, dir_pkg_exts), key);
            let after = entries(suffix_map(files.push(file), dir_pkg_exts), key);
            &&& before.is_prefix_of(after)
            &&& after.len() == before.len() + (if suffixes(file.module@).contains(key) {
                1int
            } else {
                0
            }) + (if suffixes(package_dir(file, dir_pkg_exts)).contains(key) {
                1int
            } else {
                0
            })
            &&& forall|k: int| before.len() <= k < after.len() ==> #[trigger] after[k] == file.path@
        }),
{
    let m = suffix_map(files, dir_pkg_exts);
    let a = suffixes(file.module@);
    let b = suffixes(package_dir(file, dir_pkg_exts));
    let p = file.path@;
    let more = files.push(file);
    assert(more.drop_last() =~= files);
    assert(more.last() == file);
    law_longer_suffixes_come_first(file.module@);
    law_longer_suffixes_come_first(package_dir(file, dir_pkg_exts));
    assert(a.no_duplicates());
    assert(b.no_duplicates());
    lemma_once(a, key);
    lemma_once(b, key);
    lemma_index_names_add(m, a, b, p);
    law_names_are_counted(m, a, p, key);
    law_names_are_counted(index_names(m, a, p), b, p, key);
    lemma_added_paths(m, a + b, p, key);
    let before = entries(m, key);
    let after = entries(suffix_map(more, dir_pkg_exts), key);
    law_names_are_counted(m, a + b, p, key);
    assert(after == entries(index_names(m, a + b, p), key));
}

/// What is added to an index for a path is that path.
proof fn lemma_added_paths(
    m: Map<Seq<char>, Seq<Seq<char>>>,
    names: Seq<Seq<char>>,
    path: Seq<char>,
    key: Seq<char>,
)
    ensures
        entries(m, key).len() <= entries(index_names(m, names, path), key).len(),
        forall|k: int|
            entries(m, key).len() <= k < entries(index_names(m, names, path), key).len()
                ==> #[trigger] entries(index_names(m, names, path), key)[k] == path,
    decreases names.len(),
{
    if names.len() > 0 {
        lemma_added_paths(m, names.drop_last(), path, key);
    }
}

/// The package directory of a file: where its extension is that of a language
/// whose directories are packages, what stands before the last slash of its
/// module path.
pub proof fn law_package_directory(
    file: ModuleFile,
    dir_pkg_exts: Seq<Seq<char>>,
    parent: Seq<char>,
    name: Seq<char>,
    stem: Seq<char>,
    ext: Seq<char>,
)
    requires
        file.path@ == stem + seq!['.'] + ext || file.path@ == ext,
        !ext.contains('.'),
        !name.contains('/'),
    ensures
        file.module@ == parent + seq!['/'] + name && dir_pkg_exts.contains(ext) ==> package_dir(
            file,
            dir_pkg_exts,
        ) == parent,
        file.module@ == name || !dir_pkg_exts.contains(ext) ==> package_dir(
            file,
            dir_pkg_exts,
        ).len() == 0,
{
    let dot = CharClass::Only('.');
    let path = file.path@;
    let module = file.module@;
    assert forall|i: int| path.len() - ext.len() <= i < path.len() implies !dot.holds(
        #[trigger] path[i],
    ) by {
        let k = i - (path.len() - ext.len());
        assert(path[i] == ext[k]);
        assert(ext.contains(ext[k]));
    }
    lemma_tail_span(path, dot, ext.len() as int);
    assert(last_piece(path, dot) =~= ext);
    if module == parent + seq!['/'] + name {
        assert forall|i: int| module.len() - name.len() <= i < module.len() implies !slash().holds(
            #[trigger] module[i],
        ) by {
            let k = i - (parent.len() + 1);
            assert(module[i] == name[k]);
            assert(name.contains(name[k]));
        }
        lemma_tail_span(module, slash(), name.len() as int);
        assert(cut_last(module, slash())->Some_0.0 =~= parent);
    } else if module == name {
        law_cut_at_the_last_separator(module, slash());
        if cut_last(module, slash()) is Some {
            let a = cut_last(module, slash())->Some_0.0;
            assert(name[a.len() as int] == '/');
            assert(name.contains('/'));
        }
    }
}

/// An entry file ends with the entry point, at the start of a step: where the
/// entry point has one step, nothing or a slash stands before it.
pub proof fn law_entry_files_end_with_the_entry_point(file: Seq<char>, entry: Seq<char>)
    ensures
        is_entry(file, entry) <==> entry.is_suffix_of(file) && (entry.contains('/') || file.len()
            == entry.len() || file[file.len() - entry.len() - 1] == '/'),
{
    law_first_and_last_piece(file, slash());
    law_first_and_last_piece(entry, slash());
    let a = last_piece(file, slash());
    let b = last_piece(entry, slash());
    if entry.is_suffix_of(file) {
        let d = file.len() - entry.len();
        assert forall|i: int| 0 <= i < entry.len() implies entry[i] == #[trigger] file[d + i] by {
            assert(file.subrange(d, file.len() as int)[i] == entry[i]);
        }
        if entry.contains('/') {
            let i = choose|i: int| 0 <= i < entry.len() && entry[i] == '/';
            assert(file[d + i] == '/');
            if b.len() == entry.len() {
                assert(b[i] == entry[i]);
            }
            let k = file.len() - b.len();
            assert forall|j: int| k <= j < file.len() implies !slash().holds(
                #[trigger] file[j],
            ) by {
                assert(b[j - k] == entry[j - d]);
                assert(file[d + (j - d)] == entry[j - d]);
            }
            assert(file[d + (entry.len() - b.len() - 1)] == entry[entry.len() - b.len() - 1]);
            lemma_tail_span(file, slash(), b.len() as int);
            assert(a =~= b);
        } else {
            if b.len() < entry.len() {
                assert(entry.contains(entry[entry.len() - b.len() - 1]));
            }
            assert(b =~= entry);
            if file.len() == entry.len() {
                assert(file =~= entry);
            } else if file[d - 1] == '/' {
                assert forall|j: int| d <= j < file.len() implies !slash().holds(
                    #[trigger] file[j],
                ) by {
                    assert(file[d + (j - d)] == entry[j - d]);
                    assert(entry.contains(entry[j - d]));
                }
                lemma_tail_span(file, slash(), entry.len() as int);
                assert(a =~= entry);
            }
        }
    }
}

/// The package of an entry file lies in the directory that the entry point is
/// below.
pub proof fn law_package_of_an_entry_file(dir: Seq<char>, entry: Seq<char>)
    requires
        dir.len() == 0 || dir.last() != '/',
    ensures
        entry_project(dir + seq!['/'] + entry, entry) == dir,
        entry_project(dir + entry, entry) == dir,
{
    let a = dir + seq!['/'] + entry;
    let b = dir + entry;
    law_suffix_is_put_back(a, entry, dir + seq!['/']);
    law_suffix_is_put_back(b, entry, dir);
    assert((dir + seq!['/']).drop_last() =~= dir);
    assert(trim_end_of(dir, slash()) == dir);
}

/// Package names are read for every known entry file of every plugin that says
/// where names stand and what entry files are, and for no other file.
pub proof fn law_every_entry_file_is_read(
    known_files: Seq<Seq<char>>,
    profiles: Seq<ResolverConfig>,
    file: Seq<char>,
    config: ResolverConfig,
)
    ensures
        concat_map(profiles, entries_of(known_files)).contains((file, config)) <==> {
            &&& known_files.contains(file)
            &&& profiles.contains(config)
            &&& config.alias_file@.len() > 0
            &&& config.alias_field@.len() > 0
            &&& config.alias_entry_point@.len() > 0
            &&& is_entry(file, config.alias_entry_point@)
        },
{
    let f = entries_of(known_files);
    let read = (file, config);
    lemma_concat_map_member(profiles, f, read);
    if concat_map(profiles, f).contains(read) {
        law_entry_files_are_known(known_files, profiles, read);
    }
    if known_files.contains(file) && profiles.contains(config) && names_entries(config) && is_entry(
        file,
        config.alias_entry_point@,
    ) {
        let g = entry_read(config);
        let k = choose|k: int| 0 <= k < known_files.len() && known_files[k] == file;
        assert(g(known_files[k])[0] == read);
        lemma_concat_map_member(known_files, g, read);
        let i = choose|i: int| 0 <= i < profiles.len() && profiles[i] == config;
        assert(f(profiles[i]).contains(read));
    }
}

/// An entry file stands for the name in its manifest, transformed as the plugin
/// says, unless nothing is left of it.
pub proof fn law_entry_file_stands_for_its_package(source: AliasSource, name: Seq<char>)
    ensures
        entry_alias(source) == Some(name) <==> {
            &&& name.len() > 0
            &&& source.content is Some
            &&& exists|found: Seq<char>|
                {
                    &&& name_in_manifest(
                        source.content->Some_0@,
                        source.read.config.alias_field@,
                        source.manifest_name@,
                    ) == Some(found)
                    &&& name == #[trigger] transformed(found, source.read.config.alias_transform@)
                }
        },
{
    if source.content is Some {
        let found = name_in_manifest(
            source.content->Some_0@,
            source.read.config.alias_field@,
            source.manifest_name@,
        );
        if found is Some {
            let t = transformed(found->Some_0, source.read.config.alias_transform@);
            assert(name == t || name != t);
        }
    }
}

/// A name is indexed with the entry files of all packages that bear it, in the
/// order in which they were read.
pub proof fn law_packages_are_indexed_by_name(sources: Seq<AliasSource>, name: Seq<char>)
    ensures
        ({
            let bearers = sources.filter(|s: AliasSource| entry_alias(s) == Some(name));
            let found = entries(alias_map(sources), name);
            &&& found.len() == bearers.len()
            &&& forall|i: int|
                0 <= i < found.len() ==> #[trigger] found[i] == bearers[i].read.file_path@
        }),
    decreases sources.len(),
{
    reveal(Seq::filter);
    if sources.len() > 0 {
        law_packages_are_indexed_by_name(sources.drop_last(), name);
    }
}

/// The extensions of packages are those of all languages whose directories are
/// packages.
pub proof fn law_extensions_of_packages(langs: Seq<LangPackages>, ext: Seq<char>)
    ensures
        concat_map(langs, package_exts()).contains(ext) <==> exists|i: int|
            {
                &&& 0 <= i < langs.len()
                &&& (#[trigger] langs[i]).directory_is_package
                &&& langs[i].extensions.deep_view().contains(ext)
            },
{
    let f = package_exts();
    lemma_concat_map_member(langs, f, ext);
    if exists|i: int|
        {
            &&& 0 <= i < langs.len()
            &&& (#[trigger] langs[i]).directory_is_package
            &&& langs[i].extensions.deep_view().contains(ext)
        } {
        let i = choose|i: int|
            {
                &&& 0 <= i < langs.len()
                &&& (#[trigger] langs[i]).directory_is_package
                &&& langs[i].extensions.deep_view().contains(ext)
            };
        assert(f(langs[i]).contains(ext));
    }
    if concat_map(langs, f).contains(ext) {
        let i = choose|i: int| 0 <= i < langs.len() && f(#[trigger] langs[i]).contains(ext);
        assert(langs[i].directory_is_package);
    }
}

} // verus!
