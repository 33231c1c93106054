//! Which project each file belongs to.
//!
//! A directory with a manifest is the root of a project. A file belongs to the
//! nearest root above it; where there is none, everything is one project,
//! whose root is written as the empty text.

use vstd::prelude::*;

use crate::imports::known_paths;
use crate::lists::{first_occurrences, lemma_first_occurrences};
use crate::table::{NameSet, Table};
use crate::text::{
    chars_of, cut_last, law_cut_at_the_last_separator, lemma_tail_span, rsplit_once, CharClass,
};
use crate::types::FileNode;

verus! {

// ---------------------------------------------------------------------------
// Directories above a file
// ---------------------------------------------------------------------------

/// A path without the slashes, and the steps of `.`, that it ends with.
pub open spec fn without_end(path: Seq<char>) -> Seq<char>
    decreases path.len(),
{
    let n = path.len() as int;
    if n > 0 && path[n - 1] == '/' {
        without_end(path.take(n - 1))
    } else if n > 1 && path[n - 1] == '.' && path[n - 2] == '/' {
        without_end(path.take(n - 2))
    } else {
        path
    }
}

/// The directory that a relative path lies in; the empty text for a path of one
/// step.
pub open spec fn parent_dir(path: Seq<char>) -> Seq<char> {
    match cut_last(without_end(path), CharClass::Only('/')) {
        Some((dir, _)) => without_end(dir),
        None => Seq::empty(),
    }
}

/// Nothing is added to a path that loses its end.
proof fn lemma_without_end_is_no_longer(path: Seq<char>)
    ensures
        without_end(path).len() <= path.len(),
    decreases path.len(),
{
    let n = path.len() as int;
    if n > 0 && path[n - 1] == '/' {
        lemma_without_end_is_no_longer(path.take(n - 1));
    } else if n > 1 && path[n - 1] == '.' && path[n - 2] == '/' {
        lemma_without_end_is_no_longer(path.take(n - 2));
    }
}

/// A directory has a shorter path than what lies in it.
pub proof fn lemma_parent_dir_is_shorter(path: Seq<char>)
    requires
        path.len() > 0,
    ensures
        parent_dir(path).len() < path.len(),
{
    lemma_without_end_is_no_longer(path);
    match cut_last(without_end(path), CharClass::Only('/')) {
        Some((dir, _)) => lemma_without_end_is_no_longer(dir),
        None => {},
    }
}

/// The directories from one of them up to the root of the scan, which is the
/// empty text.
pub open spec fn upward(dir: Seq<char>) -> Seq<Seq<char>>
    decreases dir.len(),
{
    if dir.len() == 0 {
        seq![dir]
    } else {
        proof {
            lemma_parent_dir_is_shorter(dir);
        }
        seq![dir] + upward(parent_dir(dir))
    }
}

/// The directories above a file: the one it lies in first, the root of the scan
/// last.
pub open spec fn ancestors(path: Seq<char>) -> Seq<Seq<char>> {
    upward(parent_dir(path))
}

/// Takes off a path the slashes, and the steps of `.`, that it ends with.
fn cut_end<'a>(path: &'a str) -> (r: &'a str)
    ensures
        r@ == without_end(path@),
{
    let v = chars_of(path);
    let mut n: usize = v.len();
    assert(v@.take(n as int) =~= v@);
    loop
        invariant
            n <= v.len(),
            v@ == path@,
            without_end(v@.take(n as int)) == without_end(v@),
        decreases n,
    {
        let ghost rest = v@.take(n as int);
        if n > 0 && v[n - 1] == '/' {
            assert(rest.take(n - 1) =~= v@.take(n - 1));
            n -= 1;
        } else if n > 1 && v[n - 1] == '.' && v[n - 2] == '/' {
            assert(rest.take(n - 2) =~= v@.take(n - 2));
            n -= 2;
        } else {
            let r = path.substring_char(0, n);
            assert(r@ =~= rest);
            return r;
        }
    }
}

/// Finds the directory that a relative path lies in.
pub fn dir_of<'a>(path: &'a str) -> (r: &'a str)
    ensures
        r@ == parent_dir(path@),
{
    match rsplit_once(cut_end(path), CharClass::Only('/')) {
        Some((dir, _)) => cut_end(dir),
        None => {
            proof {
                reveal_strlit("");
                assert(""@ =~= Seq::<char>::empty());
            }
            ""
        }
    }
}

/// Lists the directories above a file, from the one it lies in up to the root
/// of the scan.
pub fn dirs_above(path: &str) -> (r: Vec<String>)
    ensures
        r.deep_view() == ancestors(path@),
{
    let ghost all = ancestors(path@);
    let mut out: Vec<String> = Vec::new();
    let mut dir = dir_of(path);
    assert(out.deep_view() + upward(dir@) =~= all);
    loop
        invariant
            all == ancestors(path@),
            out.deep_view() + upward(dir@) == all,
        decreases dir@.len(),
    {
        let ghost before = out.deep_view();
        out.push(dir.to_owned());
        assert(out.deep_view() =~= before.push(dir@));
        if dir.is_empty() {
            assert(out.deep_view() =~= all);
            return out;
        }
        proof {
            lemma_parent_dir_is_shorter(dir@);
        }
        let next = dir_of(dir);
        assert(out.deep_view() + upward(next@) =~= before + upward(dir@));
        dir = next;
    }
}

/// The directories above a file lead up to the root of the scan: each is the
/// directory that the one before it lies in, and the last one, and no other, is
/// the root.
pub proof fn law_ancestors_lead_to_the_root(path: Seq<char>)
    ensures
        ancestors(path).len() > 0,
        ancestors(path)[0] == parent_dir(path),
        ancestors(path).last().len() == 0,
        forall|i: int|
            0 <= i < ancestors(path).len() - 1 ==> (#[trigger] ancestors(path)[i]).len() > 0
                && ancestors(path)[i + 1] == parent_dir(ancestors(path)[i]),
{
    lemma_upward(parent_dir(path));
}

/// The steps upward from a directory.
proof fn lemma_upward(dir: Seq<char>)
    ensures
        upward(dir).len() > 0,
        upward(dir)[0] == dir,
        upward(dir).last().len() == 0,
        forall|i: int|
            0 <= i < upward(dir).len() - 1 ==> (#[trigger] upward(dir)[i]).len() > 0 && upward(
                dir,
            )[i + 1] == parent_dir(upward(dir)[i]),
    decreases dir.len(),
{
    if dir.len() > 0 {
        lemma_parent_dir_is_shorter(dir);
        let up = upward(parent_dir(dir));
        let all = upward(dir);
        lemma_upward(parent_dir(dir));
        assert(all == seq![dir] + up);
        assert(all.last() == up.last());
        assert forall|i: int| 0 <= i < all.len() - 1 implies (#[trigger] all[i]).len() > 0 && all[i
            + 1] == parent_dir(all[i]) by {
            if i > 0 {
                assert(all[i] == up[i - 1]);
            }
        }
    }
}

/// Going on from a directory that was reached is going up from it.
proof fn lemma_upward_from(dir: Seq<char>, i: int)
    requires
        0 <= i < upward(dir).len(),
    ensures
        upward(dir).skip(i) == upward(upward(dir)[i]),
    decreases dir.len(),
{
    if i == 0 {
        assert(upward(dir).skip(0) =~= upward(dir));
        assert(upward(dir)[0] == dir);
    } else {
        lemma_parent_dir_is_shorter(dir);
        lemma_upward_from(parent_dir(dir), i - 1);
        assert(upward(dir).skip(i) =~= upward(parent_dir(dir)).skip(i - 1));
    }
}

// ---------------------------------------------------------------------------
// Walking up
// ---------------------------------------------------------------------------

/// A directory between a file and the root of the scan.
#[derive(Debug, PartialEq, Eq)]
pub struct Ancestor {
    /// The directory, relative to the root of the scan.
    pub rel: String,
    /// Whether it holds a manifest.
    pub has_manifest: bool,
}

/// What an [`Ancestor`] holds.
pub struct Level {
    pub rel: Seq<char>,
    pub has_manifest: bool,
}

impl DeepView for Ancestor {
    type V = Level;

    open spec fn deep_view(&self) -> Level {
        Level { rel: self.rel@, has_manifest: self.has_manifest }
    }
}

/// The directories above a file: from its own up to the root of the scan.
#[derive(Debug, PartialEq, Eq)]
pub struct DirWalk {
    /// The directory of the file.
    pub dir: String,
    /// The directories walked, its own first.
    pub chain: Vec<Ancestor>,
}

/// A map with `value` set for each of `keys`.
pub open spec fn backfilled(
    m: Map<Seq<char>, Seq<char>>,
    keys: Seq<Seq<char>>,
    value: Seq<char>,
) -> Map<Seq<char>, Seq<char>> {
    Map::new(
        |k: Seq<char>| m.contains_key(k) || keys.contains(k),
        |k: Seq<char>|
            if keys.contains(k) {
                value
            } else {
                m[k]
            },
    )
}

/// Remembers the found root for every directory that was visited.
pub fn backfill_cache(cache: &mut Table<String>, visited: &Vec<String>, result: &str)
    requires
        old(cache).wf(),
    ensures
        final(cache).wf(),
        final(cache).deep_view() == backfilled(
            old(cache).deep_view(),
            visited.deep_view(),
            result@,
        ),
{
    let ghost start = cache.deep_view();
    let ghost keys = visited.deep_view();
    let mut i: usize = 0;
    assert(cache.deep_view() =~= backfilled(start, keys.take(0), result@));
    while i < visited.len()
        invariant
            i <= visited@.len(),
            keys == visited.deep_view(),
            cache.wf(),
            cache.deep_view() == backfilled(start, keys.take(i as int), result@),
        decreases visited@.len() - i,
    {
        let ghost before = cache.deep_view();
        cache.insert(visited[i].clone(), result.to_owned());
        proof {
            let done = keys.take(i as int);
            let more = keys.take(i + 1);
            assert(more =~= done.push(keys[i as int]));
            assert forall|k: Seq<char>| #[trigger]
                more.contains(k) <==> done.contains(k) || k == keys[i as int] by {
                if done.contains(k) {
                    let j = choose|j: int| 0 <= j < done.len() && done[j] == k;
                    assert(more[j] == k);
                }
                if k == keys[i as int] {
                    assert(more[i as int] == k);
                }
            }
            assert(cache.deep_view() =~= before.insert(keys[i as int], result@));
            assert(cache.deep_view() =~= backfilled(start, more, result@));
        }
        i += 1;
    }
    assert(keys.take(i as int) =~= keys);
}

/// How far up a walk goes: to the first directory that is remembered or has a
/// manifest, or past the last one.
pub open spec fn stop_at(chain: Seq<Level>, cache: Map<Seq<char>, Seq<char>>) -> nat
    decreases chain.len(),
{
    if chain.len() == 0 || cache.contains_key(chain[0].rel) || chain[0].has_manifest {
        0
    } else {
        1 + stop_at(chain.skip(1), cache)
    }
}

/// The root that a walk finds.
pub open spec fn found_root(chain: Seq<Level>, cache: Map<Seq<char>, Seq<char>>) -> Seq<char> {
    let n = stop_at(chain, cache) as int;
    if n >= chain.len() {
        Seq::empty()
    } else if cache.contains_key(chain[n].rel) {
        cache[chain[n].rel]
    } else {
        chain[n].rel
    }
}

/// The directories of a walk.
pub open spec fn dirs_of(chain: Seq<Level>) -> Seq<Seq<char>> {
    Seq::new(chain.len(), |i: int| chain[i].rel)
}

/// How many directories a walk learns the root of: those below where it
/// stopped, and that one too unless it was remembered already.
pub open spec fn learned(chain: Seq<Level>, cache: Map<Seq<char>, Seq<char>>) -> nat {
    let n = stop_at(chain, cache);
    if n >= chain.len() || cache.contains_key(chain[n as int].rel) {
        n
    } else {
        n + 1
    }
}

/// What is remembered after a walk.
pub open spec fn cache_after(chain: Seq<Level>, cache: Map<Seq<char>, Seq<char>>) -> Map<
    Seq<char>,
    Seq<char>,
> {
    backfilled(cache, dirs_of(chain).take(learned(chain, cache) as int), found_root(chain, cache))
}

/// The position at which a walk stops.
proof fn lemma_stop_at(chain: Seq<Level>, cache: Map<Seq<char>, Seq<char>>, n: int)
    requires
        0 <= n <= chain.len(),
        forall|k: int|
            0 <= k < n ==> !cache.contains_key((#[trigger] chain[k]).rel)
                && !chain[k].has_manifest,
        n == chain.len() || cache.contains_key(chain[n].rel) || chain[n].has_manifest,
    ensures
        stop_at(chain, cache) == n,
    decreases chain.len(),
{
    if n > 0 {
        assert(!cache.contains_key(chain[0].rel));
        assert forall|k: int| 0 <= k < n - 1 implies !cache.contains_key(
            (#[trigger] chain.skip(1)[k]).rel,
        ) && !chain.skip(1)[k].has_manifest by {
            assert(chain.skip(1)[k] == chain[k + 1]);
        }
        lemma_stop_at(chain.skip(1), cache, n - 1);
    }
}

/// Finds the project of a file by walking up to the nearest manifest. Every
/// directory on the way is remembered, so that the files beside and below
/// need no walk of their own.
pub fn detect_project_root_cached(chain: &Vec<Ancestor>, cache: &mut Table<String>) -> (r: String)
    requires
        old(cache).wf(),
    ensures
        final(cache).wf(),
        r@ == found_root(chain.deep_view(), old(cache).deep_view()),
        final(cache).deep_view() == cache_after(chain.deep_view(), old(cache).deep_view()),
{
    let ghost levels = chain.deep_view();
    let ghost start = cache.deep_view();
    let mut visited: Vec<String> = Vec::new();
    let mut i: usize = 0;
    assert(visited.deep_view() =~= dirs_of(levels).take(0));
    while i < chain.len()
        invariant
            i <= chain@.len(),
            levels == chain.deep_view(),
            cache.wf(),
            *cache == *old(cache),
            start == cache.deep_view(),
            visited.deep_view() == dirs_of(levels).take(i as int),
            forall|k: int|
                0 <= k < i ==> !start.contains_key((#[trigger] levels[k]).rel)
                    && !levels[k].has_manifest,
        decreases chain@.len() - i,
    {
        let level = &chain[i];
        assert(levels[i as int] == level.deep_view());
        let hit = match cache.get(&level.rel) {
            Some(cached) => Some(cached.clone()),
            None => None,
        };
        if let Some(result) = hit {
            proof {
                lemma_stop_at(levels, start, i as int);
            }
            backfill_cache(cache, &visited, &result);
            return result;
        }
        let ghost before = visited.deep_view();
        visited.push(level.rel.clone());
        assert(visited.deep_view() =~= before.push(level.rel@));
        assert(visited.deep_view() =~= dirs_of(levels).take(i + 1));
        if level.has_manifest {
            proof {
                lemma_stop_at(levels, start, i as int);
            }
            backfill_cache(cache, &visited, &level.rel);
            return level.rel.clone();
        }
        i += 1;
    }
    proof {
        lemma_stop_at(levels, start, i as int);
        reveal_strlit("");
        assert(""@ =~= Seq::<char>::empty());
    }
    backfill_cache(cache, &visited, "");
    String::new()
}

/// What building the project map has reached: the remembered directories and
/// the root of each file.
pub struct Placement {
    pub cache: Map<Seq<char>, Seq<char>>,
    pub roots: Map<Seq<char>, Seq<char>>,
}

/// The root of a file, given what is remembered.
pub open spec fn root_for(walk: DirWalk, cache: Map<Seq<char>, Seq<char>>) -> Seq<char> {
    if cache.contains_key(walk.dir@) {
        cache[walk.dir@]
    } else {
        found_root(walk.chain.deep_view(), cache)
    }
}

/// The state after placing one file more. A directory is not placed.
pub open spec fn place(before: Placement, file: FileNode, walk: DirWalk) -> Placement {
    if file.is_dir {
        before
    } else {
        Placement {
            cache: if before.cache.contains_key(walk.dir@) {
                before.cache
            } else {
                cache_after(walk.chain.deep_view(), before.cache)
            },
            roots: before.roots.insert(file.path@, root_for(walk, before.cache)),
        }
    }
}

/// The state after placing the files one by one.
pub open spec fn placed(files: Seq<FileNode>, walks: Seq<DirWalk>) -> Placement
    decreases files.len(),
{
    if files.len() == 0 || walks.len() == 0 {
        Placement { cache: Map::empty(), roots: Map::empty() }
    } else {
        place(placed(files.drop_last(), walks.drop_last()), files.last(), walks.last())
    }
}

/// Places one file more: finds the root of its project, and remembers the
/// directories on the way.
pub fn place_file(
    file: &FileNode,
    walk: &DirWalk,
    cache: &mut Table<String>,
    project_map: &mut Table<String>,
)
    requires
        old(cache).wf(),
        old(project_map).wf(),
    ensures
        final(cache).wf(),
        final(project_map).wf(),
        ({
            let before = Placement {
                cache: old(cache).deep_view(),
                roots: old(project_map).deep_view(),
            };
            let after = place(before, *file, *walk);
            &&& final(cache).deep_view() == after.cache
            &&& final(project_map).deep_view() == after.roots
        }),
{
    if file.is_dir {
        return ;
    }
    let hit = match cache.get(&walk.dir) {
        Some(cached) => Some(cached.clone()),
        None => None,
    };
    let project_root = match hit {
        Some(cached) => cached,
        None => detect_project_root_cached(&walk.chain, cache),
    };
    let ghost before = project_map.deep_view();
    let ghost root = project_root@;
    project_map.insert(file.path.clone(), project_root);
    assert(project_map.deep_view() =~= before.insert(file.path@, root));
}

/// Builds the map from each file to the root of its project. `walks` holds
/// the directories above each file.
pub fn build_project_map(files: &Vec<FileNode>, walks: &Vec<DirWalk>) -> (r: Table<String>)
    requires
        files@.len() == walks@.len(),
    ensures
        r.wf(),
        r.deep_view() == placed(files@, walks@).roots,
{
    let mut dir_cache: Table<String> = Table::new();
    let mut project_map: Table<String> = Table::new();
    let mut i: usize = 0;
    assert(dir_cache.deep_view() =~= Map::<Seq<char>, Seq<char>>::empty());
    assert(project_map.deep_view() =~= Map::<Seq<char>, Seq<char>>::empty());
    while i < files.len()
        invariant
            i <= files@.len(),
            files@.len() == walks@.len(),
            dir_cache.wf(),
            project_map.wf(),
            dir_cache.deep_view() == placed(files@.take(i as int), walks@.take(i as int)).cache,
            project_map.deep_view() == placed(files@.take(i as int), walks@.take(i as int)).roots,
        decreases files@.len() - i,
    {
        assert(files@.take(i + 1).drop_last() =~= files@.take(i as int));
        assert(walks@.take(i + 1).drop_last() =~= walks@.take(i as int));
        place_file(&files[i], &walks[i], &mut dir_cache, &mut project_map);
        i += 1;
    }
    assert(files@.take(i as int) =~= files@);
    assert(walks@.take(i as int) =~= walks@);
    project_map
}

// ---------------------------------------------------------------------------
// Looking for manifests
// ---------------------------------------------------------------------------

/// Which directory of a walk is looked into next, after some of them were
/// answered: none once a directory is remembered, has a manifest or is the
/// last.
pub open spec fn probe(
    dirs: Seq<Seq<char>>,
    answered: Seq<bool>,
    cache: Map<Seq<char>, Seq<char>>,
) -> Option<int> {
    let n = answered.len() as int;
    if n >= dirs.len() || answered.contains(true) || exists|k: int|
        0 <= k <= n && cache.contains_key(#[trigger] dirs[k]) {
        None
    } else {
        Some(n)
    }
}

/// Decides which directory of a walk is looked into for a manifest next. A
/// directory that is remembered is never looked into, nor one above it.
pub fn next_probe(
    dirs: &Vec<String>,
    answered: &Vec<bool>,
    cache: &Table<String>,
) -> (r: Option<usize>)
    requires
        cache.wf(),
        answered@.len() <= dirs@.len(),
    ensures
        match r {
            Some(i) => probe(dirs.deep_view(), answered@, cache.deep_view()) == Some(i as int),
            None => probe(dirs.deep_view(), answered@, cache.deep_view()) is None,
        },
        r matches Some(i) ==> {
            &&& i == answered@.len()
            &&& i < dirs@.len()
            &&& !cache.deep_view().contains_key(dirs.deep_view()[i as int])
        },
{
    let ghost all = dirs.deep_view();
    let n = answered.len();
    if n >= dirs.len() {
        return None;
    }
    let mut i: usize = 0;
    while i < n
        invariant
            i <= n,
            n == answered@.len(),
            n < dirs@.len(),
            all == dirs.deep_view(),
            cache.wf(),
            forall|k: int| 0 <= k < i ==> !cache.deep_view().contains_key(#[trigger] all[k]),
            forall|k: int| 0 <= k < i ==> !(#[trigger] answered@[k]),
        decreases n - i,
    {
        assert(all[i as int] == dirs@[i as int]@);
        if answered[i] {
            assert(answered@[i as int]);
            return None;
        }
        if cache.contains_key(&dirs[i]) {
            return None;
        }
        i += 1;
    }
    assert(all[n as int] == dirs@[n as int]@);
    if cache.contains_key(&dirs[n]) {
        return None;
    }
    Some(n)
}

/// A walk as far as it was answered; directories that were not looked into
/// count as having no manifest.
pub open spec fn filled(dirs: Seq<Seq<char>>, answered: Seq<bool>) -> Seq<Level> {
    Seq::new(
        dirs.len(),
        |i: int| Level { rel: dirs[i], has_manifest: i < answered.len() && answered[i] },
    )
}

/// Makes a walk of the answers.
pub fn answered_walk(dir: &str, dirs: &Vec<String>, answered: &Vec<bool>) -> (r: DirWalk)
    ensures
        r.dir@ == dir@,
        r.chain.deep_view() == filled(dirs.deep_view(), answered@),
{
    let ghost all = filled(dirs.deep_view(), answered@);
    let mut chain: Vec<Ancestor> = Vec::new();
    let mut i: usize = 0;
    assert(chain.deep_view() =~= all.take(0));
    while i < dirs.len()
        invariant
            i <= dirs@.len(),
            all == filled(dirs.deep_view(), answered@),
            chain.deep_view() == all.take(i as int),
        decreases dirs@.len() - i,
    {
        let ghost was = chain.deep_view();
        let level = Ancestor {
            rel: dirs[i].clone(),
            has_manifest: i < answered.len() && answered[i],
        };
        assert(level.deep_view() == all[i as int]);
        chain.push(level);
        assert(chain.deep_view() =~= was.push(all[i as int]));
        assert(chain.deep_view() =~= all.take(i + 1));
        i += 1;
    }
    assert(all.take(i as int) =~= all);
    DirWalk { dir: dir.to_owned(), chain }
}

/// The roots of a project map, file by file.
pub open spec fn root_list(project_map: Table<String>) -> Seq<Seq<char>> {
    Seq::new(
        project_map.order().len(),
        |i: int| project_map.deep_view()[project_map.order()[i]],
    )
}

/// The roots of a project map, each once, as they first come.
pub fn unique_roots(project_map: &Table<String>) -> (r: Vec<String>)
    requires
        project_map.wf(),
    ensures
        r.deep_view() == first_occurrences(root_list(*project_map)),
{
    let ghost all = root_list(*project_map);
    let mut seen = NameSet::new();
    let mut out: Vec<String> = Vec::new();
    let mut i: usize = 0;
    assert(out.deep_view() =~= first_occurrences(all.take(0)));
    while i < project_map.len()
        invariant
            i <= project_map.order().len(),
            project_map.wf(),
            all == root_list(*project_map),
            forall|k: Seq<char>| #[trigger] seen@.contains(k) <==> all.take(i as int).contains(k),
            out.deep_view() == first_occurrences(all.take(i as int)),
        decreases project_map.order().len() - i,
    {
        let root = project_map.value_at(i);
        assert(all[i as int] == root@);
        let fresh = seen.insert(root);
        proof {
            let done = all.take(i as int);
            let more = all.take(i + 1);
            assert(more =~= done.push(root@));
            assert(more.drop_last() =~= done);
            assert forall|k: Seq<char>| #[trigger] seen@.contains(k) <==> more.contains(k) by {
                if done.contains(k) {
                    let j = choose|j: int| 0 <= j < done.len() && done[j] == k;
                    assert(more[j] == k);
                }
                if k == root@ {
                    assert(more[i as int] == k);
                }
            }
        }
        let ghost before = out.deep_view();
        if fresh {
            out.push(root.clone());
            assert(out.deep_view() =~= before.push(root@));
        }
        i += 1;
    }
    assert(all.take(i as int) =~= all);
    out
}

// ---------------------------------------------------------------------------
// Caching changes nothing
// ---------------------------------------------------------------------------

/// The nearest directory with a manifest, or the empty text.
pub open spec fn nearest(chain: Seq<Level>) -> Seq<char>
    decreases chain.len(),
{
    if chain.len() == 0 {
        Seq::empty()
    } else if chain[0].has_manifest {
        chain[0].rel
    } else {
        nearest(chain.skip(1))
    }
}

/// The walks are of one file system: where two of them meet, they go on alike;
/// and each begins in the directory of its file.
pub open spec fn coherent(walks: Seq<DirWalk>) -> bool {
    &&& forall|a: int, b: int, i: int, j: int|
        0 <= a < walks.len() && 0 <= b < walks.len() && 0 <= i < walks[a].chain@.len() && 0 <= j
            < walks[b].chain@.len() && #[trigger] walks[a].chain.deep_view()[i].rel
            == #[trigger] walks[b].chain.deep_view()[j].rel ==> walks[a].chain.deep_view().skip(i)
            == walks[b].chain.deep_view().skip(j)
    &&& forall|a: int|
        0 <= a < walks.len() ==> (#[trigger] walks[a]).chain@.len() > 0
            && walks[a].chain.deep_view()[0].rel == walks[a].dir@
}

/// Everything remembered is the nearest manifest above the directory.
pub open spec fn remembers_nearest(cache: Map<Seq<char>, Seq<char>>, walks: Seq<DirWalk>) -> bool {
    forall|a: int, i: int|
        0 <= a < walks.len() && 0 <= i < walks[a].chain@.len() && cache.contains_key(
            (#[trigger] walks[a].chain.deep_view()[i]).rel,
        ) ==> cache[walks[a].chain.deep_view()[i].rel] == nearest(
            walks[a].chain.deep_view().skip(i),
        )
}

/// Where nothing on the way has a manifest, the nearest one lies further up.
proof fn lemma_nearest_skip(chain: Seq<Level>, i: int, n: int)
    requires
        0 <= i <= n <= chain.len(),
        forall|k: int| i <= k < n ==> !(#[trigger] chain[k]).has_manifest,
    ensures
        nearest(chain.skip(i)) == nearest(chain.skip(n)),
    decreases n - i,
{
    if i < n {
        assert(!chain[i].has_manifest);
        assert(chain.skip(i)[0] == chain[i]);
        assert(chain.skip(i).skip(1) =~= chain.skip(i + 1));
        lemma_nearest_skip(chain, i + 1, n);
    }
}

/// Nothing before the stop is remembered or has a manifest.
proof fn lemma_before_stop(chain: Seq<Level>, cache: Map<Seq<char>, Seq<char>>)
    ensures
        stop_at(chain, cache) <= chain.len(),
        forall|k: int|
            0 <= k < stop_at(chain, cache) ==> !cache.contains_key((#[trigger] chain[k]).rel)
                && !chain[k].has_manifest,
        stop_at(chain, cache) < chain.len() ==> (cache.contains_key(
            chain[stop_at(chain, cache) as int].rel,
        ) || chain[stop_at(chain, cache) as int].has_manifest),
    decreases chain.len(),
{
    if chain.len() > 0 && !cache.contains_key(chain[0].rel) && !chain[0].has_manifest {
        lemma_before_stop(chain.skip(1), cache);
        let n = stop_at(chain, cache);
        assert forall|k: int| 0 <= k < n implies !cache.contains_key((#[trigger] chain[k]).rel)
            && !chain[k].has_manifest by {
            if k > 0 {
                assert(chain.skip(1)[k - 1] == chain[k]);
            }
        }
        if n < chain.len() {
            assert(chain.skip(1)[n - 1] == chain[n as int]);
        }
    }
}

/// One walk with a truthful memory finds the nearest manifest and keeps the
/// memory truthful.
proof fn lemma_walk_truthful(
    walks: Seq<DirWalk>,
    w: int,
    cache: Map<Seq<char>, Seq<char>>,
)
    requires
        coherent(walks),
        0 <= w < walks.len(),
        remembers_nearest(cache, walks),
    ensures
        found_root(walks[w].chain.deep_view(), cache) == nearest(walks[w].chain.deep_view()),
        remembers_nearest(cache_after(walks[w].chain.deep_view(), cache), walks),
{
    let chain = walks[w].chain.deep_view();
    let n = stop_at(chain, cache) as int;
    let root = found_root(chain, cache);
    lemma_before_stop(chain, cache);
    assert forall|i: int| 0 <= i <= n && i < chain.len() implies nearest(#[trigger] chain.skip(i))
        == root by {
        lemma_nearest_skip(chain, i, n);
        if n < chain.len() {
            assert(chain.skip(n)[0] == chain[n]);
            if cache.contains_key(chain[n].rel) {
                assert(walks[w].chain.deep_view()[n].rel == chain[n].rel);
            }
        } else {
            assert(chain.skip(n).len() == 0);
        }
    }
    assert(chain.len() > 0) by {
        assert(walks[w].chain@.len() > 0);
    }
    assert(chain.skip(0) =~= chain);
    let after = cache_after(chain, cache);
    let dirs = dirs_of(chain).take(learned(chain, cache) as int);
    assert forall|a: int, i: int|
        0 <= a < walks.len() && 0 <= i < walks[a].chain@.len() && after.contains_key(
            (#[trigger] walks[a].chain.deep_view()[i]).rel,
        ) implies after[walks[a].chain.deep_view()[i].rel] == nearest(
        walks[a].chain.deep_view().skip(i),
    ) by {
        let d = walks[a].chain.deep_view()[i].rel;
        if dirs.contains(d) {
            let j = choose|j: int| 0 <= j < dirs.len() && dirs[j] == d;
            assert(walks[w].chain.deep_view()[j].rel == d);
            assert(walks[a].chain.deep_view().skip(i) == chain.skip(j));
        } else {
            assert(cache.contains_key(d));
        }
    }
}

/// Caching never changes the answer: over one file system, every file is
/// placed in the project of the nearest manifest above it. Where a path comes
/// twice, its last walk counts.
pub proof fn law_files_belong_to_nearest_manifest(files: Seq<FileNode>, walks: Seq<DirWalk>)
    requires
        files.len() == walks.len(),
        coherent(walks),
    ensures
        forall|i: int|
            0 <= i < files.len() && !(#[trigger] files[i]).is_dir && (forall|j: int|
                i < j < files.len() ==> (#[trigger] files[j]).is_dir || files[j].path@
                    != files[i].path@) ==> {
                &&& placed(files, walks).roots.contains_key(files[i].path@)
                &&& placed(files, walks).roots[files[i].path@] == nearest(
                    walks[i].chain.deep_view(),
                )
            },
{
    assert(files.take(files.len() as int) =~= files);
    assert(walks.take(walks.len() as int) =~= walks);
    lemma_placed(files, walks, files.len() as int);
}

/// The law for the first `n` files, with the memory that they leave.
proof fn lemma_placed(files: Seq<FileNode>, walks: Seq<DirWalk>, n: int)
    requires
        files.len() == walks.len(),
        coherent(walks),
        0 <= n <= files.len(),
    ensures
        remembers_nearest(placed(files.take(n), walks.take(n)).cache, walks),
        forall|i: int|
            0 <= i < n && !(#[trigger] files[i]).is_dir && (forall|j: int|
                i < j < n ==> (#[trigger] files[j]).is_dir || files[j].path@ != files[i].path@)
                ==> {
                &&& placed(files.take(n), walks.take(n)).roots.contains_key(files[i].path@)
                &&& placed(files.take(n), walks.take(n)).roots[files[i].path@] == nearest(
                    walks[i].chain.deep_view(),
                )
            },
    decreases n,
{
    if n > 0 {
        lemma_placed(files, walks, n - 1);
        let before = placed(files.take(n - 1), walks.take(n - 1));
        let after = placed(files.take(n), walks.take(n));
        assert(files.take(n).drop_last() =~= files.take(n - 1));
        assert(walks.take(n).drop_last() =~= walks.take(n - 1));
        let file = files[n - 1];
        let walk = walks[n - 1];
        assert(files.take(n).last() == file);
        assert(walks.take(n).last() == walk);
        if !file.is_dir {
            lemma_walk_truthful(walks, n - 1, before.cache);
            let chain = walk.chain.deep_view();
            assert(chain[0].rel == walk.dir@);
            assert(chain.skip(0) =~= chain);
            if before.cache.contains_key(walk.dir@) {
                assert(before.cache.contains_key(walks[n - 1].chain.deep_view()[0].rel));
            }
            assert(root_for(walk, before.cache) == nearest(chain));
            assert(after.roots == before.roots.insert(file.path@, nearest(chain)));
        }
        assert forall|i: int|
            0 <= i < n && !(#[trigger] files[i]).is_dir && (forall|j: int|
                i < j < n ==> (#[trigger] files[j]).is_dir || files[j].path@ != files[i].path@)
            implies {
            &&& after.roots.contains_key(files[i].path@)
            &&& after.roots[files[i].path@] == nearest(walks[i].chain.deep_view())
        } by {
            if i < n - 1 {
                assert(files[n - 1].is_dir || files[n - 1].path@ != files[i].path@);
                assert forall|j: int| i < j < n - 1 implies (#[trigger] files[j]).is_dir
                    || files[j].path@ != files[i].path@ by {}
            }
        }
    }
}

/// Exactly the files that are no directories are placed.
pub proof fn law_exactly_the_files_are_placed(files: Seq<FileNode>, walks: Seq<DirWalk>)
    requires
        files.len() == walks.len(),
    ensures
        placed(files, walks).roots.dom() == known_paths(files),
    decreases files.len(),
{
    let known = known_paths(files);
    if files.len() == 0 {
        assert(placed(files, walks).roots.dom() =~= known);
    } else {
        let d = files.drop_last();
        let file = files.last();
        law_exactly_the_files_are_placed(d, walks.drop_last());
        assert forall|p: Seq<char>| known.contains(p) <==> known_paths(d).contains(p) || (
        !file.is_dir && file.path@ == p) by {
            if known.contains(p) {
                let i = choose|i: int|
                    0 <= i < files.len() && !(#[trigger] files[i]).is_dir && files[i].path@ == p;
                if i < d.len() {
                    assert(d[i].path@ == p);
                }
            }
            if known_paths(d).contains(p) {
                let i = choose|i: int|
                    0 <= i < d.len() && !(#[trigger] d[i]).is_dir && d[i].path@ == p;
                assert(files[i].path@ == p);
            }
            if !file.is_dir && file.path@ == p {
                assert(files[files.len() - 1].path@ == p);
            }
        }
        assert(placed(files, walks).roots.dom() =~= known);
    }
}

/// Files of the same path have the same nearest manifest.
pub open spec fn agree_on_paths(files: Seq<FileNode>, walks: Seq<DirWalk>) -> bool {
    forall|i: int, j: int|
        0 <= i < files.len() && 0 <= j < files.len() && !(#[trigger] files[i]).is_dir && !(
        #[trigger] files[j]).is_dir && files[i].path@ == files[j].path@ ==> nearest(
            walks[i].chain.deep_view(),
        ) == nearest(walks[j].chain.deep_view())
}

/// The last file of a path.
proof fn lemma_last_of_path(files: Seq<FileNode>, p: Seq<char>) -> (k: int)
    requires
        known_paths(files).contains(p),
    ensures
        0 <= k < files.len(),
        !files[k].is_dir,
        files[k].path@ == p,
        forall|j: int| k < j < files.len() ==> (#[trigger] files[j]).is_dir || files[j].path@ != p,
    decreases files.len(),
{
    let i = choose|i: int|
        0 <= i < files.len() && !(#[trigger] files[i]).is_dir && files[i].path@ == p;
    let n = files.len() - 1;
    if !files[n].is_dir && files[n].path@ == p {
        n
    } else {
        let d = files.drop_last();
        assert(d[i].path@ == p);
        let k = lemma_last_of_path(d, p);
        assert(files[k] == d[k]);
        assert forall|j: int| k < j < files.len() implies (#[trigger] files[j]).is_dir
            || files[j].path@ != p by {
            if j < n {
                assert(d[j] == files[j]);
            }
        }
        k
    }
}

/// Each file with its walk.
pub open spec fn paired(files: Seq<FileNode>, walks: Seq<DirWalk>) -> Seq<(FileNode, DirWalk)> {
    Seq::new(files.len(), |i: int| (files[i], walks[i]))
}

/// The order of the files does not matter: over one file system, reordering
/// them together with their walks places each of them in the same project.
pub proof fn law_order_of_files_does_not_matter(
    files: Seq<FileNode>,
    walks: Seq<DirWalk>,
    other_files: Seq<FileNode>,
    other_walks: Seq<DirWalk>,
)
    requires
        files.len() == walks.len(),
        other_files.len() == other_walks.len(),
        coherent(walks),
        agree_on_paths(files, walks),
        paired(files, walks).to_multiset() == paired(other_files, other_walks).to_multiset(),
    ensures
        placed(files, walks).roots == placed(other_files, other_walks).roots,
{
    let a = paired(files, walks);
    let b = paired(other_files, other_walks);
    a.to_multiset_ensures();
    b.to_multiset_ensures();
    assert forall|i: int| 0 <= i < b.len() implies a.contains(#[trigger] b[i]) by {
        assert(b.contains(b[i]));
        assert(b.to_multiset().count(b[i]) > 0);
        assert(a.to_multiset().count(b[i]) > 0);
    }
    assert forall|i: int| 0 <= i < a.len() implies b.contains(#[trigger] a[i]) by {
        assert(a.contains(a[i]));
        assert(a.to_multiset().count(a[i]) > 0);
        assert(b.to_multiset().count(a[i]) > 0);
    }
    lemma_coherent_part(walks, other_walks, a, b);
    let here = placed(files, walks).roots;
    let there = placed(other_files, other_walks).roots;
    law_exactly_the_files_are_placed(files, walks);
    law_exactly_the_files_are_placed(other_files, other_walks);
    law_files_belong_to_nearest_manifest(files, walks);
    law_files_belong_to_nearest_manifest(other_files, other_walks);
    assert forall|p: Seq<char>| here.dom().contains(p) <==> there.dom().contains(p) by {
        if known_paths(files).contains(p) {
            let i = lemma_last_of_path(files, p);
            assert(b.contains(a[i]));
            let j = choose|j: int| 0 <= j < b.len() && b[j] == a[i];
            assert(other_files[j] == files[i]);
        }
        if known_paths(other_files).contains(p) {
            let j = lemma_last_of_path(other_files, p);
            assert(a.contains(b[j]));
            let i = choose|i: int| 0 <= i < a.len() && a[i] == b[j];
            assert(files[i] == other_files[j]);
        }
    }
    assert forall|p: Seq<char>| here.dom().contains(p) implies #[trigger] here[p] == there[p] by {
        let i = lemma_last_of_path(files, p);
        let j = lemma_last_of_path(other_files, p);
        assert(here[p] == nearest(walks[i].chain.deep_view()));
        assert(there[p] == nearest(other_walks[j].chain.deep_view()));
        assert(a.contains(b[j]));
        let k = choose|k: int| 0 <= k < a.len() && a[k] == b[j];
        assert(files[k] == other_files[j] && walks[k] == other_walks[j]);
        assert(!files[i].is_dir && !files[k].is_dir);
    }
    assert(here =~= there);
}

/// Walks among coherent ones are coherent.
proof fn lemma_coherent_part(
    walks: Seq<DirWalk>,
    part: Seq<DirWalk>,
    a: Seq<(FileNode, DirWalk)>,
    b: Seq<(FileNode, DirWalk)>,
)
    requires
        coherent(walks),
        a.len() == walks.len(),
        b.len() == part.len(),
        forall|i: int| 0 <= i < a.len() ==> (#[trigger] a[i]).1 == walks[i],
        forall|i: int| 0 <= i < b.len() ==> (#[trigger] b[i]).1 == part[i],
        forall|i: int| 0 <= i < b.len() ==> a.contains(#[trigger] b[i]),
    ensures
        coherent(part),
{
    assert forall|n: int| 0 <= n < part.len() implies exists|m: int|
        0 <= m < walks.len() && walks[m] == #[trigger] part[n] by {
        assert(a.contains(b[n]));
        let m = choose|m: int| 0 <= m < a.len() && a[m] == b[n];
        assert(walks[m] == part[n]);
    }
    assert forall|x: int, y: int, i: int, j: int|
        0 <= x < part.len() && 0 <= y < part.len() && 0 <= i < part[x].chain@.len() && 0 <= j
            < part[y].chain@.len() && #[trigger] part[x].chain.deep_view()[i].rel
            == #[trigger] part[y].chain.deep_view()[j].rel implies part[x].chain.deep_view().skip(i)
        == part[y].chain.deep_view().skip(j) by {
        let u = choose|m: int| 0 <= m < walks.len() && walks[m] == part[x];
        let v = choose|m: int| 0 <= m < walks.len() && walks[m] == part[y];
        assert(walks[u].chain.deep_view()[i].rel == walks[v].chain.deep_view()[j].rel);
    }
    assert forall|x: int| 0 <= x < part.len() implies (#[trigger] part[x]).chain@.len() > 0
        && part[x].chain.deep_view()[0].rel == part[x].dir@ by {
        let u = choose|m: int| 0 <= m < walks.len() && walks[m] == part[x];
        assert(walks[u].chain@.len() > 0);
    }
}

/// Directories, each with whether it holds a manifest.
pub open spec fn levels(dirs: Seq<Seq<char>>, holds: spec_fn(Seq<char>) -> bool) -> Seq<Level> {
    Seq::new(dirs.len(), |i: int| Level { rel: dirs[i], has_manifest: holds(dirs[i]) })
}

/// The root of the project that a path lies in, given which directories hold a
/// manifest: the nearest of them above the path, or the empty text.
pub open spec fn project_root(path: Seq<char>, holds: spec_fn(Seq<char>) -> bool) -> Seq<char> {
    nearest(levels(ancestors(path), holds))
}

/// Whether a walk goes up from a file, past every directory above it.
pub open spec fn walks_up(
    file: FileNode,
    walk: DirWalk,
    holds: spec_fn(Seq<char>) -> bool,
) -> bool {
    &&& walk.dir@ == parent_dir(file.path@)
    &&& walk.chain.deep_view() == levels(ancestors(file.path@), holds)
}

/// Everything remembered is the nearest manifest upward.
pub open spec fn remembers_upward(
    cache: Map<Seq<char>, Seq<char>>,
    holds: spec_fn(Seq<char>) -> bool,
) -> bool {
    forall|d: Seq<char>| #[trigger]
        cache.contains_key(d) ==> cache[d] == nearest(levels(upward(d), holds))
}

/// A walk up from a directory with a truthful memory finds the nearest manifest
/// and keeps the memory truthful.
proof fn lemma_upward_truthful(
    walk: DirWalk,
    cache: Map<Seq<char>, Seq<char>>,
    holds: spec_fn(Seq<char>) -> bool,
)
    requires
        walk.chain.deep_view() == levels(upward(walk.dir@), holds),
        remembers_upward(cache, holds),
    ensures
        root_for(walk, cache) == nearest(walk.chain.deep_view()),
        remembers_upward(cache_after(walk.chain.deep_view(), cache), holds),
{
    let up = upward(walk.dir@);
    let chain = walk.chain.deep_view();
    let one = seq![walk];
    lemma_upward(walk.dir@);
    assert forall|i: int| 0 <= i < chain.len() implies #[trigger] chain.skip(i) == levels(
        upward(chain[i].rel),
        holds,
    ) by {
        lemma_upward_from(walk.dir@, i);
        assert(chain.skip(i) =~= levels(up.skip(i), holds));
    }
    assert(coherent(one)) by {
        assert forall|a: int, b: int, i: int, j: int|
            0 <= a < one.len() && 0 <= b < one.len() && 0 <= i < one[a].chain@.len() && 0 <= j
                < one[b].chain@.len() && #[trigger] one[a].chain.deep_view()[i].rel
                == #[trigger] one[b].chain.deep_view()[j].rel implies one[a].chain.deep_view().skip(
            i,
        ) == one[b].chain.deep_view().skip(j) by {
            assert(chain.skip(i) == chain.skip(j));
        }
    }
    assert(remembers_nearest(cache, one)) by {
        assert forall|a: int, i: int|
            0 <= a < one.len() && 0 <= i < one[a].chain@.len() && cache.contains_key(
                (#[trigger] one[a].chain.deep_view()[i]).rel,
            ) implies cache[one[a].chain.deep_view()[i].rel] == nearest(
            one[a].chain.deep_view().skip(i),
        ) by {
            assert(chain.skip(i) == levels(upward(chain[i].rel), holds));
        }
    }
    lemma_walk_truthful(one, 0, cache);
    assert(one[0] == walk);
    let after = cache_after(chain, cache);
    let dirs = dirs_of(chain).take(learned(chain, cache) as int);
    lemma_before_stop(chain, cache);
    assert forall|d: Seq<char>| #[trigger] after.contains_key(d) implies after[d] == nearest(
        levels(upward(d), holds),
    ) by {
        if dirs.contains(d) {
            let j = choose|j: int| 0 <= j < dirs.len() && dirs[j] == d;
            assert(one[0].chain.deep_view()[j].rel == d);
            assert(chain.skip(j) == levels(upward(chain[j].rel), holds));
        } else {
            assert(cache.contains_key(d));
        }
    }
}

/// Where every file has its walk up, the project map is settled by the paths of
/// the files and the directories that hold a manifest: each file lies in the
/// project of the nearest manifest above it, and the files of one directory in
/// one project.
pub proof fn law_paths_settle_the_projects(
    files: Seq<FileNode>,
    walks: Seq<DirWalk>,
    holds: spec_fn(Seq<char>) -> bool,
)
    requires
        files.len() == walks.len(),
        forall|i: int|
            0 <= i < files.len() && !(#[trigger] files[i]).is_dir ==> walks_up(
                files[i],
                walks[i],
                holds,
            ),
    ensures
        placed(files, walks).roots == Map::new(
            |p: Seq<char>| known_paths(files).contains(p),
            |p: Seq<char>| project_root(p, holds),
        ),
        forall|p: Seq<char>, q: Seq<char>|
            #![trigger known_paths(files).contains(p), known_paths(files).contains(q)]
            known_paths(files).contains(p) && known_paths(files).contains(q) && parent_dir(p)
                == parent_dir(q) ==> placed(files, walks).roots[p] == placed(files, walks).roots[q],
{
    law_exactly_the_files_are_placed(files, walks);
    lemma_settled(files, walks, holds);
    let roots = placed(files, walks).roots;
    assert(roots =~= Map::new(
        |p: Seq<char>| known_paths(files).contains(p),
        |p: Seq<char>| project_root(p, holds),
    ));
}

/// What is placed, and what is remembered, goes by the paths alone.
proof fn lemma_settled(
    files: Seq<FileNode>,
    walks: Seq<DirWalk>,
    holds: spec_fn(Seq<char>) -> bool,
)
    requires
        files.len() == walks.len(),
        forall|i: int|
            0 <= i < files.len() && !(#[trigger] files[i]).is_dir ==> walks_up(
                files[i],
                walks[i],
                holds,
            ),
    ensures
        remembers_upward(placed(files, walks).cache, holds),
        forall|p: Seq<char>| #[trigger]
            placed(files, walks).roots.contains_key(p) ==> placed(files, walks).roots[p]
                == project_root(p, holds),
    decreases files.len(),
{
    if files.len() > 0 {
        let d = files.drop_last();
        let w = walks.drop_last();
        assert forall|i: int| 0 <= i < d.len() && !(#[trigger] d[i]).is_dir implies walks_up(
            d[i],
            w[i],
            holds,
        ) by {
            assert(!files[i].is_dir);
        }
        lemma_settled(d, w, holds);
        let file = files[files.len() - 1];
        if !file.is_dir {
            assert(walks_up(file, walks[files.len() - 1], holds));
            lemma_upward_truthful(walks.last(), placed(d, w).cache, holds);
        }
    }
}

/// Answers are those of a walk that was looked into throughout.
pub open spec fn truthful(answered: Seq<bool>, full: Seq<Level>) -> bool {
    &&& answered.len() <= full.len()
    &&& forall|i: int|
        0 <= i < answered.len() ==> #[trigger] answered[i] == full[i].has_manifest
}

/// Looking no further than [`next_probe`] asks finds the same root as looking
/// into every directory, and remembers the same.
pub proof fn law_probes_suffice(
    full: Seq<Level>,
    answered: Seq<bool>,
    cache: Map<Seq<char>, Seq<char>>,
)
    requires
        truthful(answered, full),
        probe(dirs_of(full), answered, cache) is None,
    ensures
        found_root(filled(dirs_of(full), answered), cache) == found_root(full, cache),
        cache_after(filled(dirs_of(full), answered), cache) == cache_after(full, cache),
{
    let dirs = dirs_of(full);
    let part = filled(dirs, answered);
    let n = stop_at(full, cache) as int;
    lemma_before_stop(full, cache);
    assert forall|k: int| 0 <= k < n implies !cache.contains_key((#[trigger] part[k]).rel)
        && !part[k].has_manifest by {
        assert(!cache.contains_key(full[k].rel) && !full[k].has_manifest);
    }
    if n < full.len() && !cache.contains_key(full[n].rel) {
        assert(n < answered.len()) by {
            if answered.contains(true) {
                let k = choose|k: int| 0 <= k < answered.len() && answered[k] == true;
                assert(full[k].has_manifest);
                if k < n {
                    assert(!full[k].has_manifest);
                }
            } else if answered.len() < dirs.len() {
                let k = choose|k: int|
                    0 <= k <= answered.len() && cache.contains_key(#[trigger] dirs[k]);
                if k < n {
                    assert(!cache.contains_key(full[k].rel));
                }
                assert(dirs[n] == full[n].rel);
            }
        }
        assert(answered[n] == full[n].has_manifest);
    }
    lemma_stop_at(part, cache, n);
    assert(dirs_of(part) =~= dirs);
    if n < full.len() {
        assert(part[n].rel == full[n].rel);
    }
}

/// Whether a walk was answered far enough for what is remembered.
pub open spec fn answered_enough(
    used: DirWalk,
    full: DirWalk,
    answered: Seq<bool>,
    cache: Map<Seq<char>, Seq<char>>,
) -> bool {
    let levels = full.chain.deep_view();
    &&& used.dir@ == full.dir@
    &&& cache.contains_key(full.dir@) || {
        &&& truthful(answered, levels)
        &&& used.chain.deep_view() == filled(dirs_of(levels), answered)
        &&& probe(dirs_of(levels), answered, cache) is None
    }
}

/// Files are placed the same whether each walk is looked into throughout or no
/// further than [`next_probe`] asks.
pub proof fn law_probing_less_places_files_the_same(
    files: Seq<FileNode>,
    full: Seq<DirWalk>,
    used: Seq<DirWalk>,
    answers: Seq<Seq<bool>>,
)
    requires
        files.len() == full.len() == used.len() == answers.len(),
        forall|n: int|
            0 <= n < files.len() && !(#[trigger] files[n]).is_dir ==> answered_enough(
                used[n],
                full[n],
                answers[n],
                placed(files.take(n), full.take(n)).cache,
            ),
    ensures
        placed(files, used) == placed(files, full),
    decreases files.len(),
{
    if files.len() > 0 {
        let m = files.len() - 1;
        let fs = files.drop_last();
        let fu = full.drop_last();
        assert forall|n: int|
            0 <= n < fs.len() && !(#[trigger] fs[n]).is_dir implies answered_enough(
            used.drop_last()[n],
            fu[n],
            answers.drop_last()[n],
            placed(fs.take(n), fu.take(n)).cache,
        ) by {
            assert(!files[n].is_dir);
            assert(fs.take(n) =~= files.take(n));
            assert(fu.take(n) =~= full.take(n));
        }
        law_probing_less_places_files_the_same(fs, fu, used.drop_last(), answers.drop_last());
        let cache = placed(fs, fu).cache;
        if !files[m].is_dir {
            assert(files.take(m) =~= fs);
            assert(full.take(m) =~= fu);
            if !cache.contains_key(full[m].dir@) {
                law_probes_suffice(full[m].chain.deep_view(), answers[m], cache);
            }
        }
    }
}

/// Slashes, and steps of `.`, count for nothing at the end of a path; any other
/// path is left as it is.
pub proof fn law_ends_of_paths(path: Seq<char>)
    ensures
        without_end(path + seq!['/']) == without_end(path),
        without_end(path + seq!['/', '.']) == without_end(path),
        path.len() == 0 || (path.last() != '/' && !(path.len() > 1 && path.last() == '.'
            && path[path.len() - 2] == '/')) ==> without_end(path) == path,
{
    let a = path + seq!['/'];
    let b = path + seq!['/', '.'];
    assert(a.take(a.len() - 1) =~= path);
    assert(b.take(b.len() - 2) =~= path);
}

/// The directory of a path is what stands before its last step, without what it
/// ends with itself; a path of one step lies in the root of the scan. What a path
/// ends with makes no difference.
pub proof fn law_directory_of_a_path(dir: Seq<char>, name: Seq<char>, path: Seq<char>)
    requires
        !name.contains('/'),
    ensures
        name.len() > 0 && name != seq!['.'] ==> parent_dir(dir + seq!['/'] + name) == without_end(
            dir,
        ),
        parent_dir(name).len() == 0,
        parent_dir(path + seq!['/']) == parent_dir(path),
        parent_dir(path + seq!['/', '.']) == parent_dir(path),
{
    let slash = CharClass::Only('/');
    law_ends_of_paths(path);
    if name.len() > 0 && name != seq!['.'] {
        let whole = dir + seq!['/'] + name;
        let n = whole.len() as int;
        assert(whole[n - 1] == name.last());
        assert(name.contains(name.last())) by {
            assert(name[name.len() - 1] == name.last());
        }
        if name.len() == 1 {
            assert(name =~= seq![name[0]]);
        } else {
            assert(whole[n - 2] == name[name.len() - 2]);
            assert(name.contains(name[name.len() - 2]));
        }
        assert(without_end(whole) == whole);
        assert forall|i: int| n - name.len() <= i < n implies !slash.holds(
            #[trigger] whole[i],
        ) by {
            let k = i - (dir.len() + 1);
            assert(whole[i] == name[k]);
            assert(name.contains(name[k]));
        }
        lemma_tail_span(whole, slash, name.len() as int);
        assert(cut_last(whole, slash)->Some_0.0 =~= dir);
    }
    if name.len() > 0 {
        assert(name.contains(name[name.len() - 1]));
        if name.len() > 1 {
            assert(name.contains(name[name.len() - 2]));
        }
    }
    assert(without_end(name) == name);
    law_cut_at_the_last_separator(name, slash);
    if cut_last(name, slash) is Some {
        let a = cut_last(name, slash)->Some_0.0;
        assert(name[a.len() as int] == '/');
        assert(name.contains('/'));
    }
}

/// The nearest manifest is that of the first directory which has one; where none
/// has, everything is one project.
pub proof fn law_nearest_manifest(chain: Seq<Level>, i: int)
    requires
        0 <= i <= chain.len(),
        forall|k: int| 0 <= k < i ==> !(#[trigger] chain[k]).has_manifest,
    ensures
        i < chain.len() && chain[i].has_manifest ==> nearest(chain) == chain[i].rel,
        i == chain.len() ==> nearest(chain).len() == 0,
{
    lemma_nearest_skip(chain, 0, i);
    assert(chain.skip(0) =~= chain);
    if i < chain.len() {
        assert(chain.skip(i)[0] == chain[i]);
    } else {
        assert(chain.skip(i).len() == 0);
    }
}

/// Backfilling sets the value of each key, and of no other.
pub proof fn law_visited_directories_are_remembered(
    m: Map<Seq<char>, Seq<char>>,
    keys: Seq<Seq<char>>,
    value: Seq<char>,
    k: Seq<char>,
)
    ensures
        keys.contains(k) ==> backfilled(m, keys, value).contains_key(k) && backfilled(
            m,
            keys,
            value,
        )[k] == value,
        !keys.contains(k) ==> backfilled(m, keys, value).contains_key(k) == m.contains_key(k),
        !keys.contains(k) && m.contains_key(k) ==> backfilled(m, keys, value)[k] == m[k],
{
}

/// A walk ends at the first directory that is remembered, or has a manifest. It
/// finds what is remembered there, or that directory; without any it finds the
/// root of the scan. What it finds is remembered for every directory up to where
/// it ended, and nothing else changes.
pub proof fn law_walks_end_at_the_first_known_root(
    chain: Seq<Level>,
    cache: Map<Seq<char>, Seq<char>>,
    n: int,
    d: Seq<char>,
)
    requires
        0 <= n <= chain.len(),
        forall|k: int|
            0 <= k < n ==> !cache.contains_key((#[trigger] chain[k]).rel)
                && !chain[k].has_manifest,
        n == chain.len() || cache.contains_key(chain[n].rel) || chain[n].has_manifest,
    ensures
        n == chain.len() ==> found_root(chain, cache).len() == 0,
        n < chain.len() && cache.contains_key(chain[n].rel) ==> found_root(chain, cache)
            == cache[chain[n].rel],
        n < chain.len() && !cache.contains_key(chain[n].rel) ==> found_root(chain, cache)
            == chain[n].rel,
        (exists|k: int| 0 <= k < n && (#[trigger] chain[k]).rel == d) || (n < chain.len()
            && chain[n].rel == d && !cache.contains_key(d)) ==> cache_after(
            chain,
            cache,
        ).contains_key(d) && cache_after(chain, cache)[d] == found_root(chain, cache),
        !(exists|k: int| 0 <= k < n && (#[trigger] chain[k]).rel == d) && !(n < chain.len()
            && chain[n].rel == d && !cache.contains_key(d)) ==> cache_after(
            chain,
            cache,
        ).contains_key(d) == cache.contains_key(d) && (cache.contains_key(d) ==> cache_after(
            chain,
            cache,
        )[d] == cache[d]),
{
    lemma_stop_at(chain, cache, n);
    let dirs = dirs_of(chain).take(learned(chain, cache) as int);
    if exists|k: int| 0 <= k < n && (#[trigger] chain[k]).rel == d {
        let k = choose|k: int| 0 <= k < n && (#[trigger] chain[k]).rel == d;
        assert(dirs[k] == d);
    }
    if n < chain.len() && chain[n].rel == d && !cache.contains_key(d) {
        assert(dirs[n] == d);
    }
    if dirs.contains(d) {
        let k = choose|k: int| 0 <= k < dirs.len() && dirs[k] == d;
        assert(chain[k].rel == d);
    }
}

/// Placing a file gives it the root that is remembered for its directory, or
/// else the one that its walk finds. Nothing is placed for a directory, and
/// other files keep their places.
pub proof fn law_placing_a_file(before: Placement, file: FileNode, walk: DirWalk, p: Seq<char>)
    ensures
        ({
            let after = place(before, file, walk);
            let known = before.cache.contains_key(walk.dir@);
            &&& file.is_dir ==> after == before
            &&& !file.is_dir ==> after.roots.contains_key(file.path@)
            &&& !file.is_dir && known ==> after.roots[file.path@] == before.cache[walk.dir@]
                && after.cache == before.cache
            &&& !file.is_dir && !known ==> after.roots[file.path@] == found_root(
                walk.chain.deep_view(),
                before.cache,
            ) && after.cache == cache_after(walk.chain.deep_view(), before.cache)
            &&& p != file.path@ ==> after.roots.contains_key(p) == before.roots.contains_key(p) && (
            before.roots.contains_key(p) ==> after.roots[p] == before.roots[p])
        }),
{
}

/// A directory is looked into only where none below it is remembered or has a
/// manifest, it is not remembered itself, and it is the next one.
pub proof fn law_what_is_looked_into(
    dirs: Seq<Seq<char>>,
    answered: Seq<bool>,
    cache: Map<Seq<char>, Seq<char>>,
    i: int,
)
    ensures
        probe(dirs, answered, cache) == Some(i) <==> {
            &&& i == answered.len()
            &&& i < dirs.len()
            &&& forall|k: int| 0 <= k < i ==> !(#[trigger] answered[k])
            &&& forall|k: int| 0 <= k <= i ==> !cache.contains_key(#[trigger] dirs[k])
        },
{
    if answered.contains(true) {
        let k = choose|k: int| 0 <= k < answered.len() && answered[k] == true;
        assert(answered[k]);
    }
}

/// A walk holds every directory, with what was answered for it.
pub proof fn law_answers_make_up_a_walk(dirs: Seq<Seq<char>>, answered: Seq<bool>, i: int)
    requires
        0 <= i < dirs.len(),
    ensures
        filled(dirs, answered).len() == dirs.len(),
        filled(dirs, answered)[i].rel == dirs[i],
        filled(dirs, answered)[i].has_manifest <==> i < answered.len() && answered[i],
{
}

/// The roots of a project map are what its files map to, each of them once.
pub proof fn law_roots_of_a_project_map(project_map: Table<String>, root: Seq<char>)
    requires
        project_map.wf(),
    ensures
        first_occurrences(root_list(project_map)).no_duplicates(),
        first_occurrences(root_list(project_map)).contains(root) <==> exists|p: Seq<char>|
            #[trigger] project_map.deep_view().contains_key(p) && project_map.deep_view()[p]
                == root,
{
    let all = root_list(project_map);
    let keys = project_map.order();
    project_map.lemma_order();
    lemma_first_occurrences(all);
    if all.contains(root) {
        let i = choose|i: int| 0 <= i < all.len() && all[i] == root;
        assert(keys.contains(keys[i]));
        assert(project_map.deep_view().contains_key(keys[i]));
    }
    if exists|p: Seq<char>| #[trigger]
        project_map.deep_view().contains_key(p) && project_map.deep_view()[p] == root {
        let p = choose|p: Seq<char>| #[trigger]
            project_map.deep_view().contains_key(p) && project_map.deep_view()[p] == root;
        assert(keys.contains(p));
        let i = choose|i: int| 0 <= i < keys.len() && keys[i] == p;
        assert(all[i] == root);
    }
}

} // verus!
