//! Import resolution: from the specifiers of a file to the files they mean.

use vstd::prelude::*;

use crate::aliases::{
    aliased, aliases_by_project, apply_path_alias, collect_manifest_path_aliases,
    load_path_aliases, named_projects, AliasRule, PathAlias,
};
use crate::lists::{
    concat_map, first_occurrences, lemma_concat_map_add, lemma_concat_map_agree,
    lemma_concat_map_member, lemma_concat_map_one, lemma_concat_map_step, lemma_first_occurrences,
};
use crate::modules::{
    alias_map, build_module_suffix_index, entry_alias, law_packages_are_indexed_by_name,
    package_exts, suffix_map, AliasSource, LangPackages, ModuleFile, SuffixIndex,
};
use crate::parallel::par_map;
use crate::prefixes::source_prefixes;
use crate::profile::ConfigSource;
use crate::sorting::{lemma_sorted, order, sorted, stable_sort, Ranked};
use crate::table::{entries, NameSet, Table};
use crate::text::{
    contains, is_le, law_leading_copies_are_taken_off, law_trim_start, lemma_text_le_total, lemma_text_le_transitive, occurs, same,
    text_le, trim_prefix, trim_prefix_of, trim_start, trim_start_of, CharClass,
};
use crate::types::{imports_of, FileNode, ImportArc, ImportEdge};

verus! {

// ---------------------------------------------------------------------------
// One specifier
// ---------------------------------------------------------------------------

/// What the directory tree holds for a specifier, seen from one file.
#[derive(Debug, PartialEq, Eq)]
pub struct Lookup {
    /// Where the leading dots of the specifier lead, from the file's directory.
    pub relative: Option<String>,
    /// The cleaned specifier as a path below the file's directory.
    pub joined: String,
    /// The cleaned specifier as a path below the root of the scan.
    pub from_root: String,
    /// The file that the suffix index gives for the specifier.
    pub suffix: Option<String>,
    /// The file of that name in the file's directory.
    pub dir_name: Option<String>,
    /// The file of that name at the root of the scan.
    pub root_name: Option<String>,
}

/// What a [`Lookup`] holds.
pub struct Finding {
    pub relative: Option<Seq<char>>,
    pub joined: Seq<char>,
    pub from_root: Seq<char>,
    pub suffix: Option<Seq<char>>,
    pub dir_name: Option<Seq<char>>,
    pub root_name: Option<Seq<char>>,
}

impl DeepView for Lookup {
    type V = Finding;

    open spec fn deep_view(&self) -> Finding {
        Finding {
            relative: self.relative.deep_view(),
            joined: self.joined@,
            from_root: self.from_root@,
            suffix: self.suffix.deep_view(),
            dir_name: self.dir_name.deep_view(),
            root_name: self.root_name.deep_view(),
        }
    }
}

/// A specifier without what merely says that it is a path.
pub open spec fn cleaned(specifier: Seq<char>) -> Seq<char> {
    trim_start_of(trim_prefix_of(specifier, "./"@), CharClass::Only('/'))
}

/// Takes off a specifier what merely says that it is a path: steps of `./`,
/// then slashes.
pub fn clean_specifier<'a>(specifier: &'a str) -> (r: &'a str)
    ensures
        r@ == cleaned(specifier@),
{
    proof {
        reveal_strlit("./");
    }
    trim_start(trim_prefix(specifier, "./"), CharClass::Only('/'))
}

/// The one file that a package name stands for. A name that several packages
/// bear stands for none.
pub open spec fn only_candidate(
    aliases: Map<Seq<char>, Seq<Seq<char>>>,
    specifier: Seq<char>,
) -> Option<Seq<char>> {
    let candidates = entries(aliases, specifier);
    if candidates.len() == 1 {
        Some(candidates[0])
    } else {
        None
    }
}

/// The file that a specifier means. Leading dots start from the importing
/// file. Otherwise a path to a known file counts first, then the suffix index
/// (for specifiers of several steps only), then a name beside the importing
/// file, a name at the root, and last the name of a package.
pub open spec fn module_target(
    specifier: Seq<char>,
    known: Set<Seq<char>>,
    aliases: Map<Seq<char>, Seq<Seq<char>>>,
    found: Finding,
) -> Option<Seq<char>> {
    if specifier.len() == 0 {
        None
    } else if specifier[0] == '.' {
        found.relative
    } else if known.contains(found.joined) {
        Some(found.joined)
    } else if known.contains(found.from_root) {
        Some(found.from_root)
    } else if specifier.contains('/') && found.suffix is Some {
        found.suffix
    } else if found.dir_name is Some {
        found.dir_name
    } else if found.root_name is Some {
        found.root_name
    } else {
        only_candidate(aliases, specifier)
    }
}

/// Copies a text that may be missing.
fn copied(text: &Option<String>) -> (r: Option<String>)
    ensures
        r.deep_view() == text.deep_view(),
{
    match text {
        Some(t) => Some(t.clone()),
        None => None,
    }
}

/// Whether a text holds a slash.
fn has_slash(s: &str) -> (r: bool)
    ensures
        r == s@.contains('/'),
{
    let r = contains(s, "/");
    proof {
        reveal_strlit("/");
        let p = "/"@;
        if r {
            let i = choose|i: int|
                0 <= i && i + p.len() <= s@.len() && #[trigger] s@.subrange(i, i + p.len()) == p;
            assert(s@.subrange(i, i + p.len())[0] == p[0]);
            assert(s@[i] == '/');
        }
        if s@.contains('/') {
            let i = choose|i: int| 0 <= i < s@.len() && s@[i] == '/';
            assert(s@.subrange(i, i + p.len()) =~= p);
            assert(occurs(s@, p));
        }
    }
    r
}

/// Whether a text begins with a character.
fn begins_with(s: &str, c: char) -> (r: bool)
    ensures
        r == (s@.len() > 0 && s@[0] == c),
{
    if s.unicode_len() == 0 {
        false
    } else {
        s.get_char(0) == c
    }
}

/// Resolves a specifier to the file it means.
pub fn resolve_module_import(
    specifier: &str,
    known_files: &NameSet,
    manifest_name_aliases: &Table<Vec<String>>,
    lookup: &Lookup,
) -> (r: Option<String>)
    requires
        manifest_name_aliases.wf(),
    ensures
        r.deep_view() == module_target(
            specifier@,
            known_files@,
            manifest_name_aliases.deep_view(),
            lookup.deep_view(),
        ),
{
    if specifier.is_empty() {
        return None;
    }
    if begins_with(specifier, '.') {
        return copied(&lookup.relative);
    }
    if known_files.contains(&lookup.joined) {
        return Some(lookup.joined.clone());
    }
    if known_files.contains(&lookup.from_root) {
        return Some(lookup.from_root.clone());
    }
    if has_slash(specifier) && lookup.suffix.is_some() {
        return copied(&lookup.suffix);
    }
    if lookup.dir_name.is_some() {
        return copied(&lookup.dir_name);
    }
    if lookup.root_name.is_some() {
        return copied(&lookup.root_name);
    }
    match manifest_name_aliases.get(specifier) {
        Some(candidates) => {
            if candidates.len() == 1 {
                Some(candidates[0].clone())
            } else {
                None
            }
        }
        None => None,
    }
}

// ---------------------------------------------------------------------------
// Counting
// ---------------------------------------------------------------------------

/// How many specifiers were resolved, and how many were not. The counts wrap
/// around.
#[derive(Debug, PartialEq, Eq)]
pub struct ResolutionStats {
    /// Specifiers that mean another file of the project.
    pub resolved_count: usize,
    /// Specifiers that mean no known file.
    pub unresolved_count: usize,
}

/// What became of a specifier.
pub enum Outcome {
    /// It names a system header, which is no file of the scan.
    Skipped,
    /// It means the importing file itself.
    Itself,
    /// It means a file of another project.
    Foreign,
    /// It means no known file.
    Missing,
    /// It means another file of the same project.
    Found(Seq<char>),
}

/// How many of the outcomes are found files.
pub open spec fn count_found(outs: Seq<Outcome>) -> nat
    decreases outs.len(),
{
    if outs.len() == 0 {
        0
    } else {
        count_found(outs.drop_last()) + if outs.last() is Found {
            1nat
        } else {
            0nat
        }
    }
}

/// How many of the outcomes are missing.
pub open spec fn count_missing(outs: Seq<Outcome>) -> nat
    decreases outs.len(),
{
    if outs.len() == 0 {
        0
    } else {
        count_missing(outs.drop_last()) + if outs.last() is Missing {
            1nat
        } else {
            0nat
        }
    }
}

/// A count as a machine number holds it.
pub open spec fn wrapped(n: nat) -> nat {
    n % ((usize::MAX + 1) as nat)
}

impl ResolutionStats {
    /// The counts are those of the outcomes.
    pub open spec fn counts(&self, outs: Seq<Outcome>) -> bool {
        &&& self.resolved_count == wrapped(count_found(outs))
        &&& self.unresolved_count == wrapped(count_missing(outs))
    }

    /// Counts that have seen nothing yet.
    pub fn new() -> (r: Self)
        ensures
            r.resolved_count == 0,
            r.unresolved_count == 0,
            r.counts(Seq::empty()),
    {
        proof {
            lemma_wrapped_small(0);
        }
        ResolutionStats { resolved_count: 0, unresolved_count: 0 }
    }

    /// Adds other counts to these.
    pub fn merge(&mut self, other: &ResolutionStats)
        ensures
            final(self).resolved_count == wrapped(
                (old(self).resolved_count + other.resolved_count) as nat,
            ),
            final(self).unresolved_count == wrapped(
                (old(self).unresolved_count + other.unresolved_count) as nat,
            ),
            forall|a: Seq<Outcome>, b: Seq<Outcome>|
                #![trigger a + b]
                old(self).counts(a) && other.counts(b) ==> final(self).counts(a + b),
    {
        proof {
            lemma_wrapping_add(self.resolved_count, other.resolved_count);
            lemma_wrapping_add(self.unresolved_count, other.unresolved_count);
        }
        self.resolved_count = self.resolved_count.wrapping_add(other.resolved_count);
        self.unresolved_count = self.unresolved_count.wrapping_add(other.unresolved_count);
        proof {
            assert forall|a: Seq<Outcome>, b: Seq<Outcome>|
                #![trigger a + b]
                old(self).counts(a) && other.counts(b) implies self.counts(a + b) by {
                lemma_count_add(a, b);
                lemma_wrapped_add(count_found(a), count_found(b));
                lemma_wrapped_add(count_missing(a), count_missing(b));
            }
        }
    }
}

/// Adding wrapped counts and wrapping the sum is wrapping the sum.
proof fn lemma_wrapped_add(a: nat, b: nat)
    ensures
        wrapped(wrapped(a) + wrapped(b)) == wrapped(a + b),
{
    vstd::arithmetic::div_mod::lemma_add_mod_noop(a as int, b as int, usize::MAX + 1);
}

/// What adding machine numbers gives.
proof fn lemma_wrapping_add(x: usize, y: usize)
    ensures
        x.wrapping_add(y) == wrapped((x + y) as nat),
{
    let m = usize::MAX + 1;
    if x + y < m {
        lemma_wrapped_small((x + y) as nat);
    } else {
        vstd::arithmetic::div_mod::lemma_fundamental_div_mod_converse(x + y, m, 1, x + y - m);
    }
}

/// Counts of two sequences add up.
proof fn lemma_count_add(a: Seq<Outcome>, b: Seq<Outcome>)
    ensures
        count_found(a + b) == count_found(a) + count_found(b),
        count_missing(a + b) == count_missing(a) + count_missing(b),
    decreases b.len(),
{
    if b.len() == 0 {
        assert(a + b =~= a);
    } else {
        lemma_count_add(a, b.drop_last());
        assert((a + b).drop_last() =~= a + b.drop_last());
        assert((a + b).last() == b.last());
    }
}

/// A count that fits is not changed.
proof fn lemma_wrapped_small(n: nat)
    requires
        n <= usize::MAX,
    ensures
        wrapped(n) == n,
{
    vstd::arithmetic::div_mod::lemma_small_mod(n, (usize::MAX + 1) as nat);
}

// ---------------------------------------------------------------------------
// The specifiers of a file
// ---------------------------------------------------------------------------

/// What resolution knows of the whole scan.
pub struct ResolveEnv {
    /// The paths of all files.
    pub known_files: NameSet,
    /// The project that each file belongs to.
    pub project_map: Table<String>,
    /// The suffix index with the names of packages.
    pub suffix_index: SuffixIndex,
    /// The aliases of each project; those of the whole scan stand under the
    /// empty name.
    pub path_aliases: Table<Vec<PathAlias>>,
}

/// What a [`ResolveEnv`] says on resolving a specifier.
pub struct Setting {
    pub known: Set<Seq<char>>,
    pub projects: Map<Seq<char>, Seq<char>>,
    pub packages: Map<Seq<char>, Seq<Seq<char>>>,
    pub rules: Map<Seq<char>, Seq<AliasRule>>,
}

impl View for ResolveEnv {
    type V = Setting;

    open spec fn view(&self) -> Setting {
        Setting {
            known: self.known_files@,
            projects: self.project_map.deep_view(),
            packages: self.suffix_index.manifest_name_aliases.deep_view(),
            rules: self.path_aliases.deep_view(),
        }
    }
}

impl ResolveEnv {
    /// The tables are well formed.
    pub open spec fn wf(&self) -> bool {
        self.project_map.wf() && self.suffix_index.wf() && self.path_aliases.wf()
    }
}

impl Setting {
    /// The project of a file; the empty name if it has none.
    pub open spec fn project_of(self, path: Seq<char>) -> Seq<char> {
        if self.projects.contains_key(path) {
            self.projects[path]
        } else {
            Seq::empty()
        }
    }

    /// What a specifier may stand for, in the order of trying: what an alias
    /// of the file's project makes of it, what an alias of the whole scan makes
    /// of it, and the specifier itself.
    pub open spec fn candidates(self, path: Seq<char>, specifier: Seq<char>) -> Seq<Seq<char>> {
        listed(aliased(specifier, entries(self.rules, self.project_of(path)))) + listed(
            aliased(specifier, entries(self.rules, Seq::empty())),
        ) + seq![specifier]
    }

    /// What becomes of a specifier in a file, given what the directory tree
    /// holds for each specifier. Imports only resolve within a project.
    pub open spec fn outcome(
        self,
        path: Seq<char>,
        lookups: Map<Seq<char>, Finding>,
    ) -> spec_fn(Seq<char>) -> Outcome {
        |specifier: Seq<char>|
            if specifier.len() > 0 && specifier[0] == '<' {
                Outcome::Skipped
            } else if !lookups.contains_key(specifier) {
                Outcome::Missing
            } else {
                match module_target(specifier, self.known, self.packages, lookups[specifier]) {
                    Some(target) => if target == path {
                        Outcome::Itself
                    } else if self.project_of(target) != self.project_of(path) {
                        Outcome::Foreign
                    } else {
                        Outcome::Found(target)
                    },
                    None => Outcome::Missing,
                }
            }
    }

    /// What becomes of the candidates of an import.
    pub open spec fn import_attempts(
        self,
        path: Seq<char>,
        lookups: Map<Seq<char>, Finding>,
    ) -> spec_fn(Seq<char>) -> Seq<Outcome> {
        |specifier: Seq<char>|
            attempts(self.candidates(path, specifier), self.outcome(path, lookups))
    }

    /// What becomes of the imports of a file. A directory has none.
    pub open spec fn file_attempts(self, file: FileNode, lookups: Map<Seq<char>, Finding>) -> Seq<
        Outcome,
    > {
        if file.is_dir {
            Seq::empty()
        } else {
            concat_map(imports_of(file), self.import_attempts(file.path@, lookups))
        }
    }
}

/// A list of the one item, or of none.
pub open spec fn listed<A>(item: Option<A>) -> Seq<A> {
    match item {
        Some(x) => seq![x],
        None => Seq::empty(),
    }
}

/// The outcomes of trying candidates until one of them is found.
pub open spec fn attempts(
    candidates: Seq<Seq<char>>,
    outcome: spec_fn(Seq<char>) -> Outcome,
) -> Seq<Outcome>
    decreases candidates.len(),
{
    if candidates.len() == 0 {
        Seq::empty()
    } else if outcome(candidates[0]) is Found {
        seq![outcome(candidates[0])]
    } else {
        seq![outcome(candidates[0])] + attempts(candidates.skip(1), outcome)
    }
}

/// The edges of a file that an outcome gives.
pub open spec fn arcs_from(path: Seq<char>) -> spec_fn(Outcome) -> Seq<ImportArc> {
    |out: Outcome|
        match out {
            Outcome::Found(target) => seq![ImportArc { from_file: path, to_file: target }],
            _ => Seq::empty(),
        }
}

/// The project of a file; the empty name if it has none.
fn project_of<'a>(env: &'a ResolveEnv, path: &str) -> (r: &'a str)
    requires
        env.wf(),
    ensures
        r@ == env@.project_of(path@),
{
    match env.project_map.get(path) {
        Some(p) => p,
        None => {
            proof {
                reveal_strlit("");
                assert(""@ =~= Seq::<char>::empty());
            }
            ""
        }
    }
}

/// Finds out what becomes of one specifier of a file, and counts it. A
/// specifier that means another file of the same project gives an edge. One
/// that means the file itself, or a file of another project, gives none and is
/// not counted.
pub fn resolve_single_specifier(
    specifier: &str,
    file_path: &str,
    env: &ResolveEnv,
    lookups: &Table<Lookup>,
    stats: &mut ResolutionStats,
) -> (r: Option<ImportEdge>)
    requires
        env.wf(),
        lookups.wf(),
    ensures
        ({
            let out = env@.outcome(file_path@, lookups.deep_view())(specifier@);
            &&& listed(r.deep_view()) == arcs_from(file_path@)(out)
            &&& final(stats).resolved_count == wrapped(
                old(stats).resolved_count as nat + count_found(seq![out]),
            )
            &&& final(stats).unresolved_count == wrapped(
                old(stats).unresolved_count as nat + count_missing(seq![out]),
            )
            &&& forall|done: Seq<Outcome>|
                #![trigger done.push(out)]
                old(stats).counts(done) ==> final(stats).counts(done.push(out))
        }),
{
    let ghost out = env@.outcome(file_path@, lookups.deep_view())(specifier@);
    let mut seen = ResolutionStats::new();
    let mut edge: Option<ImportEdge> = None;
    if !begins_with(specifier, '<') {
        let resolved = match lookups.get(specifier) {
            Some(lookup) => resolve_module_import(
                specifier,
                &env.known_files,
                &env.suffix_index.manifest_name_aliases,
                lookup,
            ),
            None => None,
        };
        match resolved {
            Some(target) => {
                if !same(&target, file_path) && same(
                    project_of(env, &target),
                    project_of(env, file_path),
                ) {
                    seen.resolved_count = 1;
                    edge = Some(ImportEdge { from_file: file_path.to_owned(), to_file: target });
                }
            }
            None => {
                seen.unresolved_count = 1;
            }
        }
    }
    proof {
        assert(seq![out].drop_last() =~= Seq::<Outcome>::empty());
        assert(count_found(seq![out]) == if out is Found {
            1nat
        } else {
            0nat
        });
        assert(count_missing(seq![out]) == if out is Missing {
            1nat
        } else {
            0nat
        });
        lemma_wrapped_small(count_found(seq![out]));
        lemma_wrapped_small(count_missing(seq![out]));
        assert(seen.counts(seq![out]));
        assert forall|done: Seq<Outcome>| #[trigger] done.push(out) == done + seq![out] by {
            assert(done.push(out) =~= done + seq![out]);
        }
    }
    stats.merge(&seen);
    edge
}

/// Lists what a specifier of a file may stand for, in the order of trying.
pub fn candidate_specifiers(specifier: &str, file_path: &str, env: &ResolveEnv) -> (r: Vec<String>)
    requires
        env.wf(),
    ensures
        r.deep_view() == env@.candidates(file_path@, specifier@),
{
    let mut out: Vec<String> = Vec::new();
    proof {
        reveal_strlit("");
        assert(""@ =~= Seq::<char>::empty());
        assert(out.deep_view() =~= Seq::<Seq<char>>::empty());
    }
    let project = project_of(env, file_path);
    let by_project = try_aliases(specifier, env.path_aliases.get(project));
    let by_root = try_aliases(specifier, env.path_aliases.get(""));
    let ghost a = listed(by_project.deep_view());
    let ghost b = listed(by_root.deep_view());
    if let Some(s) = by_project {
        out.push(s);
    }
    assert(out.deep_view() =~= a);
    if let Some(s) = by_root {
        out.push(s);
    }
    assert(out.deep_view() =~= a + b);
    out.push(specifier.to_owned());
    assert(out.deep_view() =~= a + b + seq![specifier@]);
    out
}

/// Applies the aliases, if there are any.
fn try_aliases(specifier: &str, aliases: Option<&Vec<PathAlias>>) -> (r: Option<String>)
    ensures
        r.deep_view() == aliased(
            specifier@,
            match aliases {
                Some(list) => list.deep_view(),
                None => Seq::empty(),
            },
        ),
{
    match aliases {
        Some(list) => apply_path_alias(specifier, list),
        None => None,
    }
}

/// All that the imports of a file may stand for.
pub open spec fn wanted(st: Setting, file: FileNode) -> Seq<Seq<char>> {
    if file.is_dir {
        Seq::empty()
    } else {
        concat_map(imports_of(file), |s: Seq<char>| st.candidates(file.path@, s))
    }
}

/// Lists all that the imports of a file may stand for. These are the
/// specifiers that have to be looked up before the file is resolved.
pub fn wanted_specifiers(file: &FileNode, env: &ResolveEnv) -> (r: Vec<String>)
    requires
        env.wf(),
    ensures
        r.deep_view() == wanted(env@, *file),
{
    let mut out: Vec<String> = Vec::new();
    let ghost all = imports_of(*file);
    let ghost f = |s: Seq<char>| env@.candidates(file.path@, s);
    assert(out.deep_view() =~= Seq::<Seq<char>>::empty());
    assert(out.deep_view() =~= concat_map(all.take(0), f));
    if file.is_dir {
        return out;
    }
    if let Some(sa) = &file.sa {
        if let Some(imports) = &sa.imp {
            let mut i: usize = 0;
            while i < imports.len()
                invariant
                    i <= imports@.len(),
                    all == imports.deep_view(),
                    env.wf(),
                    f == |s: Seq<char>| env@.candidates(file.path@, s),
                    out.deep_view() == concat_map(all.take(i as int), f),
                decreases imports@.len() - i,
            {
                let ghost before = out.deep_view();
                let mut more = candidate_specifiers(&imports[i], &file.path, env);
                let ghost added = more.deep_view();
                out.append(&mut more);
                assert(out.deep_view() =~= before + added);
                proof {
                    lemma_concat_map_step(all, f, i as int);
                }
                i += 1;
            }
        }
    }
    assert(all.take(all.len() as int) =~= all);
    out
}

/// Tries what an import may stand for until one candidate is another file of
/// the project.
fn resolve_import(
    specifier: &str,
    file_path: &str,
    env: &ResolveEnv,
    lookups: &Table<Lookup>,
    edges: &mut Vec<ImportEdge>,
    stats: &mut ResolutionStats,
)
    requires
        env.wf(),
        lookups.wf(),
    ensures
        ({
            let outs = env@.import_attempts(file_path@, lookups.deep_view())(specifier@);
            &&& final(edges).deep_view() == old(edges).deep_view() + concat_map(
                outs,
                arcs_from(file_path@),
            )
            &&& forall|done: Seq<Outcome>|
                #![trigger done + outs]
                old(stats).counts(done) ==> final(stats).counts(done + outs)
        }),
{
    let ghost f = env@.outcome(file_path@, lookups.deep_view());
    let ghost arcs = arcs_from(file_path@);
    let candidates = candidate_specifiers(specifier, file_path, env);
    let ghost all = candidates.deep_view();
    let ghost outs = attempts(all, f);
    let ghost tried = Seq::<Outcome>::empty();
    let mut i: usize = 0;
    proof {
        assert(all.skip(0) =~= all);
        assert(tried + attempts(all, f) =~= outs);
        assert forall|done: Seq<Outcome>| #[trigger] (done + tried) == done by {
            assert(done + tried =~= done);
        }
    }
    while i < candidates.len()
        invariant
            i <= candidates@.len(),
            all == candidates.deep_view(),
            env.wf(),
            lookups.wf(),
            f == env@.outcome(file_path@, lookups.deep_view()),
            arcs == arcs_from(file_path@),
            outs == env@.import_attempts(file_path@, lookups.deep_view())(specifier@),
            outs == tried + attempts(all.skip(i as int), f),
            concat_map(tried, arcs).len() == 0,
            edges.deep_view() == old(edges).deep_view(),
            forall|done: Seq<Outcome>|
                #![trigger done + tried]
                old(stats).counts(done) ==> stats.counts(done + tried),
        decreases candidates@.len() - i,
    {
        let ghost before = *stats;
        let ghost had = tried;
        let ghost out = f(all[i as int]);
        let found = resolve_single_specifier(&candidates[i], file_path, env, lookups, stats);
        proof {
            assert(all.skip(i as int)[0] == all[i as int]);
            assert(all.skip(i as int).skip(1) =~= all.skip(i + 1));
            tried = had.push(out);
            assert(had.push(out) =~= had + seq![out]);
            lemma_concat_map_add(had, seq![out], arcs);
            lemma_concat_map_one(out, arcs);
            assert(concat_map(tried, arcs) =~= arcs(out));
            assert forall|done: Seq<Outcome>|
                #![trigger done + tried]
                old(stats).counts(done) implies stats.counts(done + tried) by {
                assert(before.counts(done + had));
                assert(stats.counts((done + had).push(out)));
                assert((done + had).push(out) =~= done + tried);
            }
        }
        if let Some(edge) = found {
            let ghost arc = edge.deep_view();
            edges.push(edge);
            proof {
                assert(listed(Some(arc)) =~= arcs(out));
                assert(outs =~= tried);
                assert(edges.deep_view() =~= old(edges).deep_view().push(arc));
                assert(edges.deep_view() =~= old(edges).deep_view() + concat_map(outs, arcs));
            }
            return ;
        }
        proof {
            assert(arcs(out).len() == 0);
            assert(!(out is Found));
            assert(outs =~= tried + attempts(all.skip(i + 1), f));
        }
        i += 1;
    }
    proof {
        assert(outs =~= tried);
        assert(edges.deep_view() =~= old(edges).deep_view() + concat_map(outs, arcs));
    }
}

/// The edges of a file, and the counts of its specifiers.
pub struct FileImports {
    /// The edges.
    pub edges: Vec<ImportEdge>,
    /// The counts.
    pub stats: ResolutionStats,
}

/// A file with what the directory tree holds for its specifiers.
pub struct ImportingFile<'a> {
    /// The file.
    pub file: &'a FileNode,
    /// What the directory tree holds for each wanted specifier.
    pub lookups: &'a Table<Lookup>,
}

impl<'a> DeepView for ImportingFile<'a> {
    type V = (FileNode, Map<Seq<char>, Finding>);

    open spec fn deep_view(&self) -> (FileNode, Map<Seq<char>, Finding>) {
        (*self.file, self.lookups.deep_view())
    }
}

/// Resolves the imports of one file.
pub fn resolve_file_imports(source: &ImportingFile, env: &ResolveEnv) -> (r: FileImports)
    requires
        env.wf(),
        source.lookups.wf(),
    ensures
        ({
            let outs = env@.file_attempts(*source.file, source.lookups.deep_view());
            &&& r.edges.deep_view() == concat_map(outs, arcs_from(source.file.path@))
            &&& r.stats.counts(outs)
        }),
{
    let file = source.file;
    let ghost path = file.path@;
    let ghost f = env@.import_attempts(path, source.lookups.deep_view());
    let ghost arcs = arcs_from(path);
    let mut edges: Vec<ImportEdge> = Vec::new();
    let mut stats = ResolutionStats::new();
    assert(edges.deep_view() =~= concat_map(Seq::<Outcome>::empty(), arcs));
    if file.is_dir {
        return FileImports { edges, stats };
    }
    let ghost all = imports_of(*file);
    assert(concat_map(all.take(0), f) =~= Seq::<Outcome>::empty());
    if let Some(sa) = &file.sa {
        if let Some(imports) = &sa.imp {
            let mut i: usize = 0;
            while i < imports.len()
                invariant
                    i <= imports@.len(),
                    all == imports.deep_view(),
                    env.wf(),
                    source.lookups.wf(),
                    path == file.path@,
                    f == env@.import_attempts(path, source.lookups.deep_view()),
                    arcs == arcs_from(path),
                    edges.deep_view() == concat_map(concat_map(all.take(i as int), f), arcs),
                    stats.counts(concat_map(all.take(i as int), f)),
                decreases imports@.len() - i,
            {
                let ghost done = concat_map(all.take(i as int), f);
                let ghost outs = f(all[i as int]);
                resolve_import(
                    &imports[i],
                    &file.path,
                    env,
                    source.lookups,
                    &mut edges,
                    &mut stats,
                );
                proof {
                    lemma_concat_map_step(all, f, i as int);
                    lemma_concat_map_add(done, outs, arcs);
                    assert(stats.counts(done + outs));
                }
                i += 1;
            }
        }
    }
    assert(all.take(all.len() as int) =~= all);
    FileImports { edges, stats }
}

// ---------------------------------------------------------------------------
// All files
// ---------------------------------------------------------------------------

/// Each file with what the directory tree holds for its specifiers. A file
/// beyond the end of the lookups has none.
pub open spec fn importing(files: Seq<FileNode>, lookups: Seq<Table<Lookup>>) -> Seq<
    (FileNode, Map<Seq<char>, Finding>),
> {
    Seq::new(
        files.len(),
        |i: int|
            (
                files[i],
                if i < lookups.len() {
                    lookups[i].deep_view()
                } else {
                    Map::empty()
                },
            ),
    )
}

/// What becomes of the imports of a file.
pub open spec fn source_attempts(st: Setting) -> spec_fn(
    (FileNode, Map<Seq<char>, Finding>),
) -> Seq<Outcome> {
    |source: (FileNode, Map<Seq<char>, Finding>)| st.file_attempts(source.0, source.1)
}

/// The import edges of a file.
pub open spec fn source_arcs(st: Setting) -> spec_fn(
    (FileNode, Map<Seq<char>, Finding>),
) -> Seq<ImportArc> {
    |source: (FileNode, Map<Seq<char>, Finding>)|
        concat_map(st.file_attempts(source.0, source.1), arcs_from(source.0.path@))
}

/// Pairs each file with its lookups.
fn pair_up<'a>(
    files: &'a Vec<FileNode>,
    lookups: &'a Vec<Table<Lookup>>,
    none: &'a Table<Lookup>,
) -> (r: Vec<ImportingFile<'a>>)
    requires
        none.wf(),
        none@ == Map::<Seq<char>, Lookup>::empty(),
        forall|i: int| 0 <= i < lookups@.len() ==> (#[trigger] lookups@[i]).wf(),
    ensures
        r.deep_view() == importing(files@, lookups@),
        forall|i: int| 0 <= i < r@.len() ==> (#[trigger] r@[i]).lookups.wf(),
{
    let ghost all = importing(files@, lookups@);
    let mut out: Vec<ImportingFile<'a>> = Vec::new();
    let mut i: usize = 0;
    assert(none.deep_view() =~= Map::<Seq<char>, Finding>::empty());
    assert(out.deep_view() =~= all.take(0));
    while i < files.len()
        invariant
            i <= files@.len(),
            all == importing(files@, lookups@),
            none.wf(),
            none.deep_view() == Map::<Seq<char>, Finding>::empty(),
            forall|i: int| 0 <= i < lookups@.len() ==> (#[trigger] lookups@[i]).wf(),
            forall|i: int| 0 <= i < out@.len() ==> (#[trigger] out@[i]).lookups.wf(),
            out.deep_view() == all.take(i as int),
        decreases files@.len() - i,
    {
        let ghost before = out.deep_view();
        let found = if i < lookups.len() {
            &lookups[i]
        } else {
            none
        };
        out.push(ImportingFile { file: &files[i], lookups: found });
        assert(out.deep_view() =~= before.push(all[i as int]));
        assert(out.deep_view() =~= all.take(i + 1));
        i += 1;
    }
    assert(all.take(i as int) =~= all);
    out
}

/// Resolves the imports of all files, file by file on whatever thread. The
/// edges come in the order of the files, and of the imports in each.
pub fn resolve_tier2_imports(
    files: &Vec<FileNode>,
    env: &ResolveEnv,
    lookups: &Vec<Table<Lookup>>,
) -> (r: FileImports)
    requires
        env.wf(),
        forall|i: int| 0 <= i < lookups@.len() ==> (#[trigger] lookups@[i]).wf(),
    ensures
        r.edges.deep_view() == concat_map(importing(files@, lookups@), source_arcs(env@)),
        r.stats.counts(concat_map(importing(files@, lookups@), source_attempts(env@))),
{
    let none: Table<Lookup> = Table::new();
    let sources = pair_up(files, lookups, &none);
    let ghost all = sources.deep_view();
    let ghost f = source_attempts(env@);
    let ghost g = source_arcs(env@);
    let work = |source: &ImportingFile| -> (part: FileImports)
        requires
            source.lookups.wf(),
        ensures
            part.edges.deep_view() == g(source.deep_view()),
            part.stats.counts(f(source.deep_view())),
        {
            resolve_file_imports(source, env)
        };
    let parts = par_map(&sources, work);
    let ghost made = parts@;
    proof {
        assert forall|i: int| 0 <= i < all.len() implies (#[trigger] made[i]).edges.deep_view() == g(
            all[i],
        ) && made[i].stats.counts(f(all[i])) by {
            assert(sources@[i].deep_view() == all[i]);
        }
    }
    let mut edges: Vec<ImportEdge> = Vec::new();
    let mut stats = ResolutionStats::new();
    assert(edges.deep_view() =~= concat_map(all.take(0), g));
    assert(concat_map(all.take(0), f) =~= Seq::<Outcome>::empty());
    for part in it: parts
        invariant
            it.seq() == made,
            made.len() == all.len(),
            forall|i: int|
                0 <= i < all.len() ==> (#[trigger] made[i]).edges.deep_view() == g(all[i])
                    && made[i].stats.counts(f(all[i])),
            edges.deep_view() == concat_map(all.take(it.index()), g),
            stats.counts(concat_map(all.take(it.index()), f)),
    {
        let ghost i = it.index();
        let ghost before = edges.deep_view();
        let ghost done = concat_map(all.take(i), f);
        assert(part == made[i]);
        let ghost added = part.edges.deep_view();
        stats.merge(&part.stats);
        let mut more = part.edges;
        edges.append(&mut more);
        proof {
            assert(edges.deep_view() =~= before + added);
            lemma_concat_map_step(all, f, i);
            lemma_concat_map_step(all, g, i);
            assert(stats.counts(done + f(all[i])));
        }
    }
    assert(all.take(all.len() as int) =~= all);
    FileImports { edges, stats }
}

/// The paths of the files that are no directories.
pub open spec fn known_paths(files: Seq<FileNode>) -> Set<Seq<char>> {
    Set::new(
        |p: Seq<char>|
            exists|i: int|
                0 <= i < files.len() && !(#[trigger] files[i]).is_dir && files[i].path@ == p,
    )
}

/// Collects the paths of the files that are no directories.
pub fn collect_known_files(files: &Vec<FileNode>) -> (r: NameSet)
    ensures
        r@ == known_paths(files@),
{
    let mut known = NameSet::new();
    let mut i: usize = 0;
    assert(known@ =~= known_paths(files@.take(0)));
    while i < files.len()
        invariant
            i <= files@.len(),
            known@ == known_paths(files@.take(i as int)),
        decreases files@.len() - i,
    {
        let file = &files[i];
        let ghost before = known@;
        let ghost done = files@.take(i as int);
        let ghost more = files@.take(i + 1);
        if !file.is_dir {
            known.insert(&file.path);
        }
        proof {
            assert forall|p: Seq<char>| known@.contains(p) <==> known_paths(more).contains(p) by {
                if before.contains(p) {
                    let k = choose|k: int|
                        0 <= k < done.len() && !(#[trigger] done[k]).is_dir && done[k].path@ == p;
                    assert(more[k].path@ == p);
                }
                if known_paths(more).contains(p) {
                    let k = choose|k: int|
                        0 <= k < more.len() && !(#[trigger] more[k]).is_dir && more[k].path@ == p;
                    if k < done.len() {
                        assert(done[k].path@ == p);
                    }
                }
                if !file.is_dir && file.path@ == p {
                    assert(more[i as int].path@ == p);
                }
            }
            assert(known@ =~= known_paths(more));
        }
        i += 1;
    }
    assert(files@.take(i as int) =~= files@);
    known
}

/// The path of a file as a list; a directory gives none.
pub open spec fn file_path() -> spec_fn(FileNode) -> Seq<Seq<char>> {
    |file: FileNode|
        if file.is_dir {
            Seq::empty()
        } else {
            seq![file.path@]
        }
}

/// Lists the paths of the files that are no directories, each once.
pub fn list_known_files(files: &Vec<FileNode>) -> (r: Vec<String>)
    ensures
        r.deep_view() == first_occurrences(concat_map(files@, file_path())),
{
    let ghost f = file_path();
    let mut seen = NameSet::new();
    let mut out: Vec<String> = Vec::new();
    let mut i: usize = 0;
    let ghost paths = Seq::<Seq<char>>::empty();
    assert(concat_map(files@.take(0), f) =~= paths);
    assert(out.deep_view() =~= first_occurrences(paths));
    while i < files.len()
        invariant
            i <= files@.len(),
            f == file_path(),
            paths == concat_map(files@.take(i as int), f),
            forall|p: Seq<char>| #[trigger] seen@.contains(p) <==> paths.contains(p),
            out.deep_view() == first_occurrences(paths),
        decreases files@.len() - i,
    {
        let file = &files[i];
        let ghost was = paths;
        let ghost before = out.deep_view();
        proof {
            lemma_concat_map_step(files@, f, i as int);
            paths = concat_map(files@.take(i + 1), f);
        }
        if !file.is_dir {
            let ghost p = file.path@;
            proof {
                assert(paths =~= was.push(p));
                assert(paths.drop_last() =~= was);
                assert forall|q: Seq<char>| #[trigger] paths.contains(q) <==> was.contains(q) || q
                    == p by {
                    if was.contains(q) {
                        let k = choose|k: int| 0 <= k < was.len() && was[k] == q;
                        assert(paths[k] == q);
                    }
                    if q == p {
                        assert(paths[was.len() as int] == q);
                    }
                }
            }
            if seen.insert(&file.path) {
                out.push(file.path.clone());
                assert(out.deep_view() =~= before.push(p));
            }
        } else {
            assert(paths =~= was);
        }
        i += 1;
    }
    assert(files@.take(i as int) =~= files@);
    out
}

/// Texts are ordered character by character.
impl Ranked for String {
    open spec fn le(a: Seq<char>, b: Seq<char>) -> bool {
        text_le(a, b)
    }

    proof fn le_total(a: Seq<char>, b: Seq<char>) {
        lemma_text_le_total(a, b);
    }

    proof fn le_transitive(a: Seq<char>, b: Seq<char>, c: Seq<char>) {
        lemma_text_le_transitive(a, b, c);
    }

    fn is_le(&self, other: &Self) -> (r: bool) {
        is_le(self, other)
    }
}

/// Puts the extensions of all languages in the order in which they are tried.
pub fn sorted_extensions(exts: Vec<String>) -> (r: Vec<String>)
    ensures
        r.deep_view() == sorted(exts.deep_view(), order::<String>()),
{
    stable_sort(exts)
}

/// What was read for the resolution of a scan.
pub struct ResolutionSources<'a> {
    /// Each known file with its module path.
    pub modules: Vec<ModuleFile>,
    /// The languages.
    pub langs: Vec<LangPackages>,
    /// The files of module prefixes.
    pub prefix_sources: Vec<ConfigSource<'a>>,
    /// The entry files with the manifests of their packages.
    pub entry_sources: Vec<AliasSource<'a>>,
    /// The files of path aliases.
    pub alias_sources: Vec<ConfigSource<'a>>,
    /// The manifests of the projects.
    pub manifest_sources: Vec<ConfigSource<'a>>,
}

/// Aliases of each project, with more of them for the whole scan.
pub open spec fn with_root_rules(
    rules: Map<Seq<char>, Seq<AliasRule>>,
    more: Seq<AliasRule>,
) -> Map<Seq<char>, Seq<AliasRule>> {
    if more.len() == 0 {
        rules
    } else {
        rules.insert(Seq::empty(), entries(rules, Seq::empty()) + more)
    }
}

/// Gathers all that resolution needs to know of a scan. Aliases come from two
/// places: the files of path aliases, for their projects, and the manifests,
/// for the whole scan.
pub fn prepare_resolution(
    files: &Vec<FileNode>,
    project_map: Table<String>,
    sources: &ResolutionSources,
) -> (r: ResolveEnv)
    requires
        project_map.wf(),
    ensures
        r.wf(),
        r.known_files@ == known_paths(files@),
        r.project_map == project_map,
        r.suffix_index.index.deep_view() == suffix_map(
            sources.modules@,
            concat_map(sources.langs@, package_exts()),
        ),
        r.suffix_index.manifest_name_aliases.deep_view() == alias_map(sources.entry_sources@),
        r.suffix_index.module_prefixes.deep_view() == sorted(
            concat_map(sources.prefix_sources@, source_prefixes()),
            order::<(String, String)>(),
        ),
        r.path_aliases.deep_view() == with_root_rules(
            aliases_by_project(sources.alias_sources@),
            sorted(named_projects(sources.manifest_sources@).0, order::<PathAlias>()),
        ),
{
    let known_files = collect_known_files(files);
    let suffix_index = build_module_suffix_index(
        &sources.modules,
        &sources.langs,
        &sources.prefix_sources,
        &sources.entry_sources,
    );
    let mut path_aliases = load_path_aliases(&sources.alias_sources);
    let manifest_aliases = collect_manifest_path_aliases(&sources.manifest_sources);
    if manifest_aliases.len() > 0 {
        proof {
            reveal_strlit("");
            assert(""@ =~= Seq::<char>::empty());
        }
        path_aliases.extend("", manifest_aliases);
    }
    ResolveEnv { known_files, project_map, suffix_index, path_aliases }
}

/// A scan that is ready for resolution.
pub struct Resolution<'a> {
    /// What is known of the whole scan.
    pub env: &'a ResolveEnv,
    /// What the directory tree holds for the specifiers of each file.
    pub lookups: &'a Vec<Table<Lookup>>,
}

impl<'a> Resolution<'a> {
    /// The tables are well formed.
    pub open spec fn wf(&self) -> bool {
        &&& self.env.wf()
        &&& forall|i: int| 0 <= i < self.lookups@.len() ==> (#[trigger] self.lookups@[i]).wf()
    }
}

/// The import edges of a scan. Without a root to scan there are none.
pub open spec fn import_arcs(files: Seq<FileNode>, resolution: Option<Resolution>) -> Seq<
    ImportArc,
> {
    match resolution {
        Some(res) => concat_map(importing(files, res.lookups@), source_arcs(res.env@)),
        None => Seq::empty(),
    }
}

/// Resolves the imports of all files, for all languages alike.
pub fn resolve_path_imports_ref(files: &Vec<FileNode>, resolution: &Option<Resolution>) -> (r: Vec<
    ImportEdge,
>)
    requires
        resolution matches Some(res) ==> res.wf(),
    ensures
        r.deep_view() == import_arcs(files@, *resolution),
{
    match resolution {
        Some(res) => resolve_tier2_imports(files, res.env, res.lookups).edges,
        None => {
            let none: Vec<ImportEdge> = Vec::new();
            assert(none.deep_view() =~= Seq::<ImportArc>::empty());
            none
        }
    }
}

// ---------------------------------------------------------------------------
// Laws
// ---------------------------------------------------------------------------

/// An import edge leads from a file of the scan to another file of the same
/// project, which one of the specifiers that its imports may stand for means.
pub proof fn law_imports_stay_within_a_project(
    files: Seq<FileNode>,
    resolution: Resolution,
    e: ImportArc,
)
    requires
        import_arcs(files, Some(resolution)).contains(e),
    ensures
        e.to_file != e.from_file,
        resolution.env@.project_of(e.to_file) == resolution.env@.project_of(e.from_file),
        exists|i: int, specifier: Seq<char>|
            #![trigger files[i], wanted(resolution.env@, files[i]).contains(specifier)]
            {
                &&& 0 <= i < files.len()
                &&& !files[i].is_dir
                &&& files[i].path@ == e.from_file
                &&& wanted(resolution.env@, files[i]).contains(specifier)
                &&& resolution.env@.outcome(
                    e.from_file,
                    importing(files, resolution.lookups@)[i].1,
                )(specifier) == Outcome::Found(e.to_file)
            },
{
    let st = resolution.env@;
    let all = importing(files, resolution.lookups@);
    let g = source_arcs(st);
    lemma_concat_map_member(all, g, e);
    let i = choose|i: int| 0 <= i < all.len() && g(#[trigger] all[i]).contains(e);
    let file = files[i];
    let lookups = all[i].1;
    let path = file.path@;
    let outs = st.file_attempts(file, lookups);
    let arcs = arcs_from(path);
    lemma_concat_map_member(outs, arcs, e);
    let k = choose|k: int| 0 <= k < outs.len() && arcs(#[trigger] outs[k]).contains(e);
    let out = outs[k];
    assert(out is Found);
    assert(arcs(out)[0] == e);
    let imports = imports_of(file);
    let f = st.import_attempts(path, lookups);
    assert(outs.contains(out));
    lemma_concat_map_member(imports, f, out);
    let m = choose|m: int| 0 <= m < imports.len() && f(#[trigger] imports[m]).contains(out);
    let candidates = st.candidates(path, imports[m]);
    let outcome = st.outcome(path, lookups);
    lemma_attempts_member(candidates, outcome, out);
    let n = choose|n: int| 0 <= n < candidates.len() && outcome(#[trigger] candidates[n]) == out;
    let specifier = candidates[n];
    let h = |s: Seq<char>| st.candidates(path, s);
    assert(h(imports[m]).contains(specifier));
    lemma_concat_map_member(imports, h, specifier);
    assert(wanted(st, files[i]).contains(specifier));
}

/// Whether all that the directory tree holds for a specifier are known files.
pub open spec fn finds_known(known: Set<Seq<char>>, found: Finding) -> bool {
    &&& found.relative matches Some(p) ==> known.contains(p)
    &&& found.suffix matches Some(p) ==> known.contains(p)
    &&& found.dir_name matches Some(p) ==> known.contains(p)
    &&& found.root_name matches Some(p) ==> known.contains(p)
}

/// Whether all that package names stand for are known files.
pub open spec fn packages_known(
    known: Set<Seq<char>>,
    packages: Map<Seq<char>, Seq<Seq<char>>>,
) -> bool {
    forall|name: Seq<char>, p: Seq<char>| #[trigger]
        entries(packages, name).contains(p) ==> known.contains(p)
}

/// Whether lookups, and the names of packages, lead to known files only.
pub open spec fn leads_to_known(st: Setting, lookups: Map<Seq<char>, Finding>) -> bool {
    &&& packages_known(st.known, st.packages)
    &&& forall|s: Seq<char>| #[trigger]
        lookups.contains_key(s) ==> finds_known(st.known, lookups[s])
}

/// Where lookups and the names of packages lead to known files only, every
/// import edge ends in a known file.
pub proof fn law_imports_lead_to_known_files(
    files: Seq<FileNode>,
    resolution: Resolution,
    e: ImportArc,
)
    requires
        import_arcs(files, Some(resolution)).contains(e),
        forall|i: int|
            0 <= i < resolution.lookups@.len() ==> leads_to_known(
                resolution.env@,
                (#[trigger] resolution.lookups@[i]).deep_view(),
            ),
    ensures
        resolution.env@.known.contains(e.to_file),
{
    let st = resolution.env@;
    let all = importing(files, resolution.lookups@);
    law_imports_stay_within_a_project(files, resolution, e);
    let (i, specifier) = choose|i: int, specifier: Seq<char>|
        #![trigger files[i], wanted(st, files[i]).contains(specifier)]
        {
            &&& 0 <= i < files.len()
            &&& !files[i].is_dir
            &&& files[i].path@ == e.from_file
            &&& wanted(st, files[i]).contains(specifier)
            &&& st.outcome(e.from_file, all[i].1)(specifier) == Outcome::Found(e.to_file)
        };
    let lookups = all[i].1;
    assert(lookups.contains_key(specifier));
    assert(i < resolution.lookups@.len());
    assert(leads_to_known(st, resolution.lookups@[i].deep_view()));
    let named = entries(st.packages, specifier);
    assert(module_target(specifier, st.known, st.packages, lookups[specifier]) == Some(e.to_file));
    if named.len() == 1 {
        assert(named.contains(named[0]));
    }
}

/// The listed files are the known ones, each of them once.
pub proof fn law_listed_files_are_the_known_ones(files: Seq<FileNode>)
    ensures
        first_occurrences(concat_map(files, file_path())).no_duplicates(),
        forall|p: Seq<char>| #[trigger]
            first_occurrences(concat_map(files, file_path())).contains(p) <==> known_paths(
                files,
            ).contains(p),
{
    let f = file_path();
    let paths = concat_map(files, f);
    lemma_first_occurrences(paths);
    assert forall|p: Seq<char>| #[trigger]
        first_occurrences(paths).contains(p) <==> known_paths(files).contains(p) by {
        lemma_concat_map_member(files, f, p);
        if paths.contains(p) {
            let i = choose|i: int| 0 <= i < files.len() && f(#[trigger] files[i]).contains(p);
            assert(!files[i].is_dir && files[i].path@ == p);
        }
        if known_paths(files).contains(p) {
            let i = choose|i: int|
                0 <= i < files.len() && !(#[trigger] files[i]).is_dir && files[i].path@ == p;
            assert(f(files[i])[0] == p);
        }
    }
}

/// Package names stand for known files, where they were read for entry files
/// among the known ones.
pub proof fn law_packages_stand_for_known_files(known: Set<Seq<char>>, sources: Seq<AliasSource>)
    requires
        forall|i: int|
            0 <= i < sources.len() ==> known.contains((#[trigger] sources[i]).read.file_path@),
    ensures
        packages_known(known, alias_map(sources)),
    decreases sources.len(),
{
    let m = alias_map(sources);
    if sources.len() > 0 {
        let d = sources.drop_last();
        let before = alias_map(d);
        let path = sources.last().read.file_path@;
        assert(known.contains(sources[sources.len() - 1].read.file_path@));
        assert forall|i: int| 0 <= i < d.len() implies known.contains(
            (#[trigger] d[i]).read.file_path@,
        ) by {
            assert(d[i] == sources[i]);
        }
        law_packages_stand_for_known_files(known, d);
        assert forall|name: Seq<char>, p: Seq<char>| #[trigger]
            entries(m, name).contains(p) implies known.contains(p) by {
            let now = entries(m, name);
            let had = entries(before, name);
            let k = choose|k: int| 0 <= k < now.len() && now[k] == p;
            if k < had.len() {
                assert(had[k] == p);
                assert(had.contains(p));
            } else {
                assert(p == path);
            }
        }
    }
}

/// Each attempt is the outcome of a candidate.
proof fn lemma_attempts_member(
    candidates: Seq<Seq<char>>,
    outcome: spec_fn(Seq<char>) -> Outcome,
    out: Outcome,
)
    requires
        attempts(candidates, outcome).contains(out),
    ensures
        exists|n: int| 0 <= n < candidates.len() && outcome(#[trigger] candidates[n]) == out,
    decreases candidates.len(),
{
    let all = attempts(candidates, outcome);
    let k = choose|k: int| 0 <= k < all.len() && all[k] == out;
    if candidates.len() > 0 {
        if k == 0 {
            assert(outcome(candidates[0]) == out);
        } else {
            let rest = candidates.skip(1);
            assert(attempts(rest, outcome)[k - 1] == out);
            lemma_attempts_member(rest, outcome, out);
            let n = choose|n: int| 0 <= n < rest.len() && outcome(#[trigger] rest[n]) == out;
            assert(candidates[n + 1] == rest[n]);
        }
    }
}

/// Trying candidates gives one edge if one of them means another file of the
/// project, and none otherwise.
proof fn lemma_attempts_arcs(
    path: Seq<char>,
    candidates: Seq<Seq<char>>,
    outcome: spec_fn(Seq<char>) -> Outcome,
)
    ensures
        concat_map(attempts(candidates, outcome), arcs_from(path)).len() == (if exists|n: int|
            0 <= n < candidates.len() && outcome(#[trigger] candidates[n]) is Found {
            1nat
        } else {
            0nat
        }),
    decreases candidates.len(),
{
    let arcs = arcs_from(path);
    if candidates.len() > 0 {
        let out = outcome(candidates[0]);
        let rest = candidates.skip(1);
        lemma_concat_map_one(out, arcs);
        if out is Found {
            assert(outcome(candidates[0]) is Found);
        } else {
            lemma_attempts_arcs(path, rest, outcome);
            lemma_concat_map_add(seq![out], attempts(rest, outcome), arcs);
            assert(arcs(out).len() == 0);
            if exists|n: int|
                0 <= n < candidates.len() && outcome(#[trigger] candidates[n]) is Found {
                let n = choose|n: int|
                    0 <= n < candidates.len() && outcome(#[trigger] candidates[n]) is Found;
                assert(rest[n - 1] == candidates[n]);
            }
            if exists|n: int| 0 <= n < rest.len() && outcome(#[trigger] rest[n]) is Found {
                let n = choose|n: int| 0 <= n < rest.len() && outcome(#[trigger] rest[n]) is Found;
                assert(candidates[n + 1] == rest[n]);
            }
        }
    }
}

/// An import gives at most one edge. Aliases are hints: an import whose
/// specifier means another file of the project as it stands gives an edge,
/// whatever the aliases make of it.
pub proof fn law_aliases_are_hints(
    st: Setting,
    path: Seq<char>,
    lookups: Map<Seq<char>, Finding>,
    specifier: Seq<char>,
)
    ensures
        ({
            let arcs = concat_map(st.import_attempts(path, lookups)(specifier), arcs_from(path));
            &&& arcs.len() <= 1
            &&& st.outcome(path, lookups)(specifier) is Found ==> arcs.len() == 1
        }),
{
    let candidates = st.candidates(path, specifier);
    lemma_attempts_arcs(path, candidates, st.outcome(path, lookups));
    assert(candidates[candidates.len() - 1] == specifier);
}

/// Outcomes that agree on the candidates give the same attempts.
proof fn lemma_attempts_agree(
    candidates: Seq<Seq<char>>,
    f: spec_fn(Seq<char>) -> Outcome,
    g: spec_fn(Seq<char>) -> Outcome,
)
    requires
        forall|n: int| 0 <= n < candidates.len() ==> f(#[trigger] candidates[n]) == g(candidates[n]),
    ensures
        attempts(candidates, f) == attempts(candidates, g),
    decreases candidates.len(),
{
    if candidates.len() > 0 {
        let rest = candidates.skip(1);
        assert(f(candidates[0]) == g(candidates[0]));
        assert forall|n: int| 0 <= n < rest.len() implies f(#[trigger] rest[n]) == g(rest[n]) by {
            assert(rest[n] == candidates[n + 1]);
        }
        lemma_attempts_agree(rest, f, g);
    }
}

/// Resolving a file needs the lookups of the wanted specifiers and no others.
pub proof fn law_wanted_specifiers_suffice(
    st: Setting,
    file: FileNode,
    a: Map<Seq<char>, Finding>,
    b: Map<Seq<char>, Finding>,
)
    requires
        forall|s: Seq<char>| #[trigger]
            wanted(st, file).contains(s) ==> a.contains_key(s) == b.contains_key(s) && (
            a.contains_key(s) ==> a[s] == b[s]),
    ensures
        st.file_attempts(file, a) == st.file_attempts(file, b),
{
    if !file.is_dir {
        let path = file.path@;
        let imports = imports_of(file);
        let f = st.import_attempts(path, a);
        let g = st.import_attempts(path, b);
        let h = |s: Seq<char>| st.candidates(path, s);
        assert forall|i: int| 0 <= i < imports.len() implies f(#[trigger] imports[i]) == g(
            imports[i],
        ) by {
            let candidates = st.candidates(path, imports[i]);
            let x = st.outcome(path, a);
            let y = st.outcome(path, b);
            assert forall|n: int| 0 <= n < candidates.len() implies x(#[trigger] candidates[n]) == y(
                candidates[n],
            ) by {
                let s = candidates[n];
                assert(h(imports[i]).contains(s));
                lemma_concat_map_member(imports, h, s);
                assert(wanted(st, file).contains(s));
            }
            lemma_attempts_agree(candidates, x, y);
        }
        lemma_concat_map_agree(imports, f, g);
    }
}

/// A specifier of one step never goes by the suffix index.
pub proof fn law_one_step_ignores_the_suffix_index(
    specifier: Seq<char>,
    known: Set<Seq<char>>,
    aliases: Map<Seq<char>, Seq<Seq<char>>>,
    found: Finding,
    suffix: Option<Seq<char>>,
)
    requires
        !specifier.contains('/'),
    ensures
        module_target(specifier, known, aliases, found) == module_target(
            specifier,
            known,
            aliases,
            Finding { suffix, ..found },
        ),
{
}

/// Where nothing is found for a specifier but packages of that name, it means
/// the entry file of the one package that bears it, whether or not the name
/// holds a slash. A name that several packages bear, or none, means no file.
pub proof fn law_package_name_means_its_entry_file(
    specifier: Seq<char>,
    known: Set<Seq<char>>,
    aliases: Map<Seq<char>, Seq<Seq<char>>>,
    found: Finding,
)
    requires
        specifier.len() > 0,
        specifier[0] != '.',
        !known.contains(found.joined),
        !known.contains(found.from_root),
        specifier.contains('/') ==> found.suffix is None,
        found.dir_name is None,
        found.root_name is None,
    ensures
        forall|entry: Seq<char>|
            module_target(specifier, known, aliases, found) == Some(entry)
                <==> aliases.contains_key(specifier) && #[trigger] seq![entry]
                == aliases[specifier],
{
    if aliases.contains_key(specifier) && aliases[specifier].len() == 1 {
        assert(aliases[specifier] =~= seq![aliases[specifier][0]]);
    }
    assert forall|entry: Seq<char>|
        module_target(specifier, known, aliases, found) == Some(entry) <==> aliases.contains_key(
            specifier,
        ) && #[trigger] seq![entry] == aliases[specifier] by {
        assert(seq![entry][0] == entry);
    }
}

/// What is found counts in order: for leading dots only where they lead; for
/// others the path below the file's directory, the path below the root, the
/// suffix index where the specifier holds a slash, the name beside the file and
/// the name at the root.
pub proof fn law_findings_count_in_order(
    specifier: Seq<char>,
    known: Set<Seq<char>>,
    aliases: Map<Seq<char>, Seq<Seq<char>>>,
    found: Finding,
)
    ensures
        ({
            let t = module_target(specifier, known, aliases, found);
            let by_suffix = specifier.contains('/') && found.suffix is Some;
            let is_path = known.contains(found.joined) || known.contains(found.from_root);
            &&& specifier.len() == 0 ==> t is None
            &&& specifier.len() > 0 && specifier[0] == '.' ==> t == found.relative
            &&& specifier.len() > 0 && specifier[0] != '.' ==> {
                &&& known.contains(found.joined) ==> t == Some(found.joined)
                &&& !known.contains(found.joined) && known.contains(found.from_root) ==> t == Some(
                    found.from_root,
                )
                &&& !is_path && by_suffix ==> t == found.suffix
                &&& !is_path && !by_suffix && found.dir_name is Some ==> t == found.dir_name
                &&& !is_path && !by_suffix && found.dir_name is None && found.root_name is Some
                    ==> t == found.root_name
            }
        }),
{
}

/// Leading steps of `./` are taken off a specifier, and then the slashes that it
/// begins with. A specifier that begins with neither is left as it is.
pub proof fn law_cleaned_specifiers(specifier: Seq<char>)
    ensures
        cleaned("./"@ + specifier) == cleaned(specifier),
        !"./"@.is_prefix_of(specifier) ==> cleaned(specifier) == trim_start_of(
            specifier,
            CharClass::Only('/'),
        ),
        specifier.len() == 0 || (specifier[0] != '/' && !"./"@.is_prefix_of(specifier))
            ==> cleaned(specifier) == specifier,
        cleaned(specifier).len() > 0 ==> cleaned(specifier)[0] != '/',
{
    reveal_strlit("./");
    law_trim_start(trim_prefix_of(specifier, "./"@), CharClass::Only('/'));
    law_leading_copies_are_taken_off(specifier, "./"@);
}

/// What becomes of a specifier. A system header is skipped. Any other one that
/// means no file is missing, and one that means the importing file, or a file
/// of another project, gives nothing. All others are found.
pub proof fn law_what_becomes_of_a_specifier(
    st: Setting,
    path: Seq<char>,
    lookups: Map<Seq<char>, Finding>,
    specifier: Seq<char>,
    target: Seq<char>,
)
    ensures
        ({
            let out = st.outcome(path, lookups)(specifier);
            let header = specifier.len() > 0 && specifier[0] == '<';
            let means = if lookups.contains_key(specifier) {
                module_target(specifier, st.known, st.packages, lookups[specifier])
            } else {
                None
            };
            let alike = {
                ||| !st.projects.contains_key(target) && !st.projects.contains_key(path)
                ||| st.projects.contains_key(target) && st.projects.contains_key(path)
                    && st.projects[target] == st.projects[path]
                ||| st.projects.contains_key(target) && !st.projects.contains_key(path)
                    && st.projects[target].len() == 0
                ||| !st.projects.contains_key(target) && st.projects.contains_key(path)
                    && st.projects[path].len() == 0
            };
            &&& out is Skipped <==> header
            &&& out is Missing <==> !header && means is None
            &&& out == Outcome::Found(target) <==> !header && means == Some(target) && target != path
                && alike
            &&& means == Some(target) && !header ==> (out is Itself <==> target == path) && (
            out is Foreign <==> target != path && !alike)
        }),
{
    if st.projects.contains_key(target) && st.projects[target].len() == 0 {
        assert(st.projects[target] =~= Seq::<char>::empty());
    }
    if st.projects.contains_key(path) && st.projects[path].len() == 0 {
        assert(st.projects[path] =~= Seq::<char>::empty());
    }
}

/// What a specifier may stand for: the specifier comes last; before it what
/// the aliases of the scan make of it, and first what those of the file's
/// project do.
pub proof fn law_candidates_of_a_specifier(st: Setting, path: Seq<char>, specifier: Seq<char>)
    ensures
        ({
            let c = st.candidates(path, specifier);
            let project = if st.projects.contains_key(path) {
                st.projects[path]
            } else {
                Seq::empty()
            };
            let own = if st.rules.contains_key(project) {
                aliased(specifier, st.rules[project])
            } else {
                None
            };
            let shared = if st.rules.contains_key(Seq::<char>::empty()) {
                aliased(specifier, st.rules[Seq::<char>::empty()])
            } else {
                None
            };
            &&& c.len() == 1 + (if own is Some {
                1int
            } else {
                0
            }) + (if shared is Some {
                1int
            } else {
                0
            })
            &&& c.last() == specifier
            &&& own is Some ==> Some(c[0]) == own
            &&& shared is Some ==> Some(c[c.len() - 2]) == shared
        }),
{
    assert(aliased(specifier, Seq::<AliasRule>::empty()) is None);
}

/// Candidates are tried in order until one of them is found, and no further:
/// each of the others before it is an attempt too.
pub proof fn law_candidates_are_tried_until_found(
    candidates: Seq<Seq<char>>,
    outcome: spec_fn(Seq<char>) -> Outcome,
)
    ensures
        ({
            let a = attempts(candidates, outcome);
            &&& a.len() <= candidates.len()
            &&& forall|n: int| 0 <= n < a.len() ==> #[trigger] a[n] == outcome(candidates[n])
            &&& forall|n: int| 0 <= n < a.len() - 1 ==> !((#[trigger] a[n]) is Found)
            &&& a.len() < candidates.len() ==> a.len() > 0 && a.last() is Found
        }),
    decreases candidates.len(),
{
    if candidates.len() > 0 && !(outcome(candidates[0]) is Found) {
        let rest = candidates.skip(1);
        let a = attempts(candidates, outcome);
        let b = attempts(rest, outcome);
        law_candidates_are_tried_until_found(rest, outcome);
        assert forall|n: int| 0 <= n < a.len() implies #[trigger] a[n] == outcome(
            candidates[n],
        ) by {
            if n > 0 {
                assert(a[n] == b[n - 1]);
                assert(rest[n - 1] == candidates[n]);
            }
        }
        assert forall|n: int| 0 <= n < a.len() - 1 implies !((#[trigger] a[n]) is Found) by {
            if n > 0 {
                assert(a[n] == b[n - 1]);
            }
        }
        if b.len() > 0 {
            assert(a.last() == b.last());
        }
    }
}

/// Every import is followed: for each import of each file that is no directory,
/// the first candidate that means another file of the project gives an edge to
/// that file.
pub proof fn law_every_import_is_followed(
    files: Seq<FileNode>,
    resolution: Resolution,
    i: int,
    k: int,
    n: int,
    target: Seq<char>,
)
    requires
        0 <= i < files.len(),
        i < resolution.lookups@.len(),
        !files[i].is_dir,
        files[i].sa is Some,
        files[i].sa->Some_0.imp is Some,
        0 <= k < files[i].sa->Some_0.imp->Some_0@.len(),
        ({
            let st = resolution.env@;
            let path = files[i].path@;
            let c = st.candidates(path, files[i].sa->Some_0.imp->Some_0@[k]@);
            let outcome = st.outcome(path, resolution.lookups@[i].deep_view());
            &&& 0 <= n < c.len()
            &&& outcome(c[n]) == Outcome::Found(target)
            &&& forall|m: int| 0 <= m < n ==> !(outcome(#[trigger] c[m]) is Found)
        }),
    ensures
        import_arcs(files, Some(resolution)).contains(
            ImportArc { from_file: files[i].path@, to_file: target },
        ),
{
    let st = resolution.env@;
    let path = files[i].path@;
    let lookups = resolution.lookups@[i].deep_view();
    let all = importing(files, resolution.lookups@);
    let imports = imports_of(files[i]);
    let specifier = imports[k];
    let c = st.candidates(path, specifier);
    let outcome = st.outcome(path, lookups);
    let e = ImportArc { from_file: path, to_file: target };
    let a = attempts(c, outcome);
    assert(specifier == files[i].sa->Some_0.imp->Some_0@[k]@);
    law_candidates_are_tried_until_found(c, outcome);
    if a.len() <= n {
        assert(a.last() == a[a.len() - 1]);
        assert(outcome(c[a.len() - 1]) is Found);
    }
    assert(a[n] == Outcome::Found(target));
    let f = st.import_attempts(path, lookups);
    assert(f(imports[k]) == a);
    assert(f(imports[k]).contains(Outcome::Found(target)));
    lemma_concat_map_member(imports, f, Outcome::Found(target));
    let outs = st.file_attempts(files[i], lookups);
    let m = choose|m: int| 0 <= m < outs.len() && outs[m] == Outcome::Found(target);
    let arcs = arcs_from(path);
    assert(arcs(outs[m])[0] == e);
    lemma_concat_map_member(outs, arcs, e);
    let g = source_arcs(st);
    assert(all[i] == (files[i], lookups));
    assert(g(all[i]).contains(e));
    lemma_concat_map_member(all, g, e);
}

/// The attempts of a file are those of each of its imports, one import after
/// the other: nothing is left uncounted.
pub proof fn law_imports_are_tried_one_by_one(
    st: Setting,
    lookups: Map<Seq<char>, Finding>,
    whole: FileNode,
    first: FileNode,
    last: FileNode,
)
    requires
        !whole.is_dir && !first.is_dir && !last.is_dir,
        first.path@ == whole.path@,
        last.path@ == whole.path@,
        whole.sa is Some && first.sa is Some && last.sa is Some,
        whole.sa->Some_0.imp is Some,
        first.sa->Some_0.imp is Some,
        last.sa->Some_0.imp is Some,
        last.sa->Some_0.imp->Some_0@.len() == 1,
        whole.sa->Some_0.imp->Some_0@ == first.sa->Some_0.imp->Some_0@
            + last.sa->Some_0.imp->Some_0@,
    ensures
        st.file_attempts(whole, lookups) == st.file_attempts(first, lookups) + attempts(
            st.candidates(whole.path@, last.sa->Some_0.imp->Some_0@[0]@),
            st.outcome(whole.path@, lookups),
        ),
{
    let f = st.import_attempts(whole.path@, lookups);
    let a = imports_of(first);
    let b = imports_of(last);
    assert(imports_of(whole) =~= a + b);
    assert(b =~= seq![last.sa->Some_0.imp->Some_0@[0]@]);
    lemma_concat_map_add(a, b, f);
    lemma_concat_map_one(b[0], f);
}

/// A directory has no imports, and neither has a file without any.
pub proof fn law_no_imports_no_attempts(
    st: Setting,
    lookups: Map<Seq<char>, Finding>,
    file: FileNode,
)
    requires
        file.is_dir || file.sa is None || file.sa->Some_0.imp is None
            || file.sa->Some_0.imp->Some_0@.len() == 0,
    ensures
        st.file_attempts(file, lookups) == Seq::<Outcome>::empty(),
{
    assert(st.file_attempts(file, lookups) =~= Seq::<Outcome>::empty());
}

/// The counts tell how many outcomes are found, and how many are missing. Each
/// found one gives an edge, and nothing else does.
pub proof fn law_counts_tell_the_outcomes(outs: Seq<Outcome>, path: Seq<char>)
    ensures
        count_found(outs) == outs.filter(|o: Outcome| o is Found).len(),
        count_missing(outs) == outs.filter(|o: Outcome| o is Missing).len(),
        concat_map(outs, arcs_from(path)).len() == outs.filter(|o: Outcome| o is Found).len(),
        forall|n: nat| n <= usize::MAX ==> #[trigger] wrapped(n) == n,
        forall|n: nat| #[trigger] wrapped((n + usize::MAX + 1) as nat) == wrapped(n),
    decreases outs.len(),
{
    reveal(Seq::filter);
    assert forall|n: nat| n <= usize::MAX implies #[trigger] wrapped(n) == n by {
        lemma_wrapped_small(n);
    }
    assert forall|n: nat| #[trigger] wrapped((n + usize::MAX + 1) as nat) == wrapped(n) by {
        vstd::arithmetic::div_mod::lemma_mod_add_multiples_vanish(n as int, usize::MAX + 1);
    }
    if outs.len() > 0 {
        law_counts_tell_the_outcomes(outs.drop_last(), path);
        lemma_concat_map_add(outs.drop_last(), seq![outs.last()], arcs_from(path));
        lemma_concat_map_one(outs.last(), arcs_from(path));
        assert(outs =~= outs.drop_last() + seq![outs.last()]);
    }
}

/// The attempts, and the edges, of a scan are those of its files, one file
/// after the other, each with its own lookups.
pub proof fn law_files_are_resolved_one_by_one(
    st: Setting,
    files: Seq<FileNode>,
    lookups: Seq<Table<Lookup>>,
    file: FileNode,
    found: Table<Lookup>,
)
    requires
        lookups.len() == files.len(),
    ensures
        ({
            let before = importing(files, lookups);
            let after = importing(files.push(file), lookups.push(found));
            let outs = st.file_attempts(file, found.deep_view());
            &&& concat_map(after, source_attempts(st)) == concat_map(before, source_attempts(st))
                + outs
            &&& concat_map(after, source_arcs(st)) == concat_map(before, source_arcs(st))
                + concat_map(outs, arcs_from(file.path@))
        }),
        concat_map(
            importing(Seq::<FileNode>::empty(), Seq::<Table<Lookup>>::empty()),
            source_attempts(st),
        ).len() == 0,
{
    let before = importing(files, lookups);
    let after = importing(files.push(file), lookups.push(found));
    assert(after =~= before.push((file, found.deep_view())));
    assert(after.drop_last() =~= before);
    assert(after.last() == (file, found.deep_view()));
    let none = importing(Seq::<FileNode>::empty(), Seq::<Table<Lookup>>::empty());
    assert(none.len() == 0);
}

/// All candidates of all imports of a file are wanted, and nothing else.
pub proof fn law_all_candidates_are_wanted(st: Setting, file: FileNode, s: Seq<char>)
    ensures
        wanted(st, file).contains(s) <==> {
            &&& !file.is_dir
            &&& file.sa is Some
            &&& file.sa->Some_0.imp is Some
            &&& exists|k: int|
                {
                    &&& 0 <= k < file.sa->Some_0.imp->Some_0@.len()
                    &&& st.candidates(
                        file.path@,
                        (#[trigger] file.sa->Some_0.imp->Some_0@[k])@,
                    ).contains(s)
                }
        },
{
    let imports = imports_of(file);
    let h = |x: Seq<char>| st.candidates(file.path@, x);
    lemma_concat_map_member(imports, h, s);
    if wanted(st, file).contains(s) {
        let k = choose|k: int| 0 <= k < imports.len() && h(#[trigger] imports[k]).contains(s);
        assert(imports[k] == file.sa->Some_0.imp->Some_0@[k]@);
    }
    if !file.is_dir && file.sa is Some && file.sa->Some_0.imp is Some && exists|k: int|
        {
            &&& 0 <= k < file.sa->Some_0.imp->Some_0@.len()
            &&& st.candidates(
                file.path@,
                (#[trigger] file.sa->Some_0.imp->Some_0@[k])@,
            ).contains(s)
        } {
        let k = choose|k: int|
            {
                &&& 0 <= k < file.sa->Some_0.imp->Some_0@.len()
                &&& st.candidates(
                    file.path@,
                    (#[trigger] file.sa->Some_0.imp->Some_0@[k])@,
                ).contains(s)
            };
        assert(imports[k] == file.sa->Some_0.imp->Some_0@[k]@);
        assert(h(imports[k]).contains(s));
    }
}

/// A path is known exactly where it is that of a file which is no directory.
pub proof fn law_known_files(files: Seq<FileNode>, p: Seq<char>)
    ensures
        known_paths(files).contains(p) <==> exists|i: int|
            0 <= i < files.len() && !(#[trigger] files[i]).is_dir && files[i].path@ == p,
{
}

/// Files are listed in the order of the scan: a file more adds its path at the
/// end, unless it is a directory or its path is known already.
pub proof fn law_files_are_listed_in_order(files: Seq<FileNode>, file: FileNode)
    ensures
        ({
            let before = first_occurrences(concat_map(files, file_path()));
            let after = first_occurrences(concat_map(files.push(file), file_path()));
            if file.is_dir || known_paths(files).contains(file.path@) {
                after == before
            } else {
                after == before.push(file.path@)
            }
        }),
{
    let f = file_path();
    let more = files.push(file);
    assert(more.drop_last() =~= files);
    assert(more.last() == file);
    let paths = concat_map(files, f);
    law_listed_files_are_the_known_ones(files);
    lemma_first_occurrences(paths);
    assert(first_occurrences(paths).contains(file.path@) <==> known_paths(files).contains(
        file.path@,
    ));
    if file.is_dir {
        assert(concat_map(more, f) =~= paths);
    } else {
        assert(concat_map(more, f) =~= paths.push(file.path@));
        assert(concat_map(more, f).drop_last() =~= paths);
    }
}

/// Aliases for the whole scan are added behind those that it has, and leave
/// those of all projects as they are.
pub proof fn law_aliases_of_the_scan_are_added(
    rules: Map<Seq<char>, Seq<AliasRule>>,
    more: Seq<AliasRule>,
    project: Seq<char>,
)
    ensures
        ({
            let r = with_root_rules(rules, more);
            let had = if rules.contains_key(Seq::<char>::empty()) {
                rules[Seq::<char>::empty()]
            } else {
                Seq::empty()
            };
            &&& project.len() > 0 ==> r.contains_key(project) == rules.contains_key(project) && (
            rules.contains_key(project) ==> r[project] == rules[project])
            &&& (if r.contains_key(Seq::<char>::empty()) {
                r[Seq::<char>::empty()]
            } else {
                Seq::empty()
            }) == had + more
        }),
{
    let e = Seq::<char>::empty();
    if more.len() == 0 {
        assert(more =~= Seq::<AliasRule>::empty());
        assert(entries(rules, e) + more =~= entries(rules, e));
    }
}

/// Extensions come in the order of their characters, each as often as before.
pub proof fn law_extensions_come_in_order(exts: Seq<Seq<char>>)
    ensures
        ({
            let r = sorted(exts, order::<String>());
            &&& r.to_multiset() == exts.to_multiset()
            &&& forall|i: int, j: int|
                0 <= i < j < r.len() ==> text_le(#[trigger] r[i], #[trigger] r[j])
        }),
{
    lemma_sorted::<String>(exts);
    let r = sorted(exts, order::<String>());
    let le = order::<String>();
    assert forall|i: int, j: int| 0 <= i < j < r.len() implies text_le(
        #[trigger] r[i],
        #[trigger] r[j],
    ) by {
        assert(le(r[i], r[j]));
    }
}

/// Where nothing else is found for a name, and exactly one of the packages that
/// were read bears it, the name means the entry file of that package.
pub proof fn law_only_package_of_a_name_is_meant(
    specifier: Seq<char>,
    known: Set<Seq<char>>,
    sources: Seq<AliasSource>,
    found: Finding,
    i: int,
)
    requires
        specifier.len() > 0,
        specifier[0] != '.',
        !known.contains(found.joined),
        !known.contains(found.from_root),
        specifier.contains('/') ==> found.suffix is None,
        found.dir_name is None,
        found.root_name is None,
        0 <= i < sources.len(),
        entry_alias(sources[i]) == Some(specifier),
        forall|k: int|
            0 <= k < sources.len() && k != i ==> entry_alias(#[trigger] sources[k]) != Some(
                specifier,
            ),
    ensures
        module_target(specifier, known, alias_map(sources), found) == Some(
            sources[i].read.file_path@,
        ),
{
    law_packages_are_indexed_by_name(sources, specifier);
    lemma_only_one_kept(sources, |s: AliasSource| entry_alias(s) == Some(specifier), i);
}

/// A filter that holds of one item keeps that item alone.
proof fn lemma_only_one_kept<A>(s: Seq<A>, pred: spec_fn(A) -> bool, i: int)
    requires
        0 <= i < s.len(),
        pred(s[i]),
        forall|k: int| 0 <= k < s.len() && k != i ==> !pred(#[trigger] s[k]),
    ensures
        s.filter(pred) == seq![s[i]],
    decreases s.len(),
{
    reveal(Seq::filter);
    let d = s.drop_last();
    if i < d.len() {
        assert(d[i] == s[i]);
        assert forall|k: int| 0 <= k < d.len() && k != i implies !pred(#[trigger] d[k]) by {
            assert(d[k] == s[k]);
        }
        lemma_only_one_kept(d, pred, i);
        assert(!pred(s[s.len() - 1]));
    } else {
        assert forall|k: int| 0 <= k < d.len() implies !pred(#[trigger] d[k]) by {
            assert(d[k] == s[k]);
        }
        lemma_none_kept(d, pred);
        assert(s.filter(pred) =~= seq![s[i]]);
    }
}

/// A filter that holds of no item keeps none.
proof fn lemma_none_kept<A>(s: Seq<A>, pred: spec_fn(A) -> bool)
    requires
        forall|k: int| 0 <= k < s.len() ==> !pred(#[trigger] s[k]),
    ensures
        s.filter(pred) == Seq::<A>::empty(),
    decreases s.len(),
{
    reveal(Seq::filter);
    if s.len() > 0 {
        let d = s.drop_last();
        assert forall|k: int| 0 <= k < d.len() implies !pred(#[trigger] d[k]) by {
            assert(d[k] == s[k]);
        }
        lemma_none_kept(d, pred);
        assert(!pred(s[s.len() - 1]));
    }
}

/// Each file is resolved with its own lookups, and a file beyond the end of them
/// with none. Without a root to scan there are no import edges.
pub proof fn law_lookups_belong_to_their_files(
    files: Seq<FileNode>,
    lookups: Seq<Table<Lookup>>,
    i: int,
    s: Seq<char>,
)
    requires
        0 <= i < files.len(),
    ensures
        importing(files, lookups).len() == files.len(),
        importing(files, lookups)[i].0 == files[i],
        i < lookups.len() ==> importing(files, lookups)[i].1 == lookups[i].deep_view(),
        i >= lookups.len() ==> !importing(files, lookups)[i].1.contains_key(s),
        import_arcs(files, None).len() == 0,
{
}

} // verus!
