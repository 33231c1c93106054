//! Cross-file dependency graphs: import, call and inheritance edges.

use vstd::prelude::*;

use crate::imports::{import_arcs, resolve_path_imports_ref, Resolution};
use crate::lists::{
    chain_all, concat_map, first_occurrences, lemma_concat_map_add, lemma_concat_map_any_order,
    lemma_concat_map_member, lemma_concat_map_one, lemma_concat_map_step, lemma_concat_parts,
    lemma_filter_empty, lemma_filter_step, lemma_first_occurrences, lemma_first_occurrences_fixed,
};
use crate::parallel::par_map;
use crate::sorting::{
    lemma_filter_keeps, lemma_filter_member, lemma_sorted, lemma_sorted_any_order, order, sorted,
    stable_sort, Ranked,
};
use crate::table::{
    entries, index_names, law_names_are_counted, law_names_are_indexed, members, NameSet, Table,
};
use crate::text::{same, text_le};
use crate::types::{
    call_row, classes_of, functions_of, inherit_row, law_order_of_rows,
    lemma_row_le_antisymmetric, texts, CallArc, CallEdge, ClassInfo, FileNode, FuncInfo, ImportArc,
    ImportEdge, InheritArc, InheritEdge,
};

verus! {

// ---------------------------------------------------------------------------
// Lookup maps
// ---------------------------------------------------------------------------

/// Where each file's language, and each name's definitions, are found.
pub struct LookupMaps {
    /// The language of each file.
    pub lang_map: Table<String>,
    /// The files that define a function of a given name, once per definition.
    pub func_map: Table<Vec<String>>,
    /// The files that define a class of a given name, once per definition.
    pub class_map: Table<Vec<String>>,
}

impl LookupMaps {
    /// The three tables are well formed.
    pub open spec fn wf(&self) -> bool {
        &&& self.lang_map.wf()
        &&& self.func_map.wf()
        &&& self.class_map.wf()
    }
}

/// The names of the functions of a file, in order.
pub open spec fn func_names(file: FileNode) -> Seq<Seq<char>> {
    Seq::new(functions_of(file).len(), |i: int| functions_of(file)[i].n@)
}

/// The names of the classes of a file, in order.
pub open spec fn class_names(file: FileNode) -> Seq<Seq<char>> {
    Seq::new(classes_of(file).len(), |i: int| classes_of(file)[i].n@)
}

/// The language of each file that is no directory; of two files with one path
/// the later counts.
pub open spec fn lang_index(files: Seq<FileNode>) -> Map<Seq<char>, Seq<char>>
    decreases files.len(),
{
    if files.len() == 0 {
        Map::empty()
    } else {
        let m = lang_index(files.drop_last());
        let file = files.last();
        if file.is_dir {
            m
        } else {
            m.insert(file.path@, file.lang@)
        }
    }
}

/// The files that define each function name.
pub open spec fn func_index(files: Seq<FileNode>) -> Map<Seq<char>, Seq<Seq<char>>>
    decreases files.len(),
{
    if files.len() == 0 {
        Map::empty()
    } else {
        let m = func_index(files.drop_last());
        let file = files.last();
        if file.is_dir {
            m
        } else {
            index_names(m, func_names(file), file.path@)
        }
    }
}

/// The files that define each class name.
pub open spec fn class_index(files: Seq<FileNode>) -> Map<Seq<char>, Seq<Seq<char>>>
    decreases files.len(),
{
    if files.len() == 0 {
        Map::empty()
    } else {
        let m = class_index(files.drop_last());
        let file = files.last();
        if file.is_dir {
            m
        } else {
            index_names(m, class_names(file), file.path@)
        }
    }
}

/// Indexes the functions and classes of a file.
pub fn index_file_symbols(
    file: &FileNode,
    func_map: &mut Table<Vec<String>>,
    class_map: &mut Table<Vec<String>>,
)
    requires
        old(func_map).wf(),
        old(class_map).wf(),
    ensures
        final(func_map).wf(),
        final(class_map).wf(),
        final(func_map).deep_view() == index_names(
            old(func_map).deep_view(),
            func_names(*file),
            file.path@,
        ),
        final(class_map).deep_view() == index_names(
            old(class_map).deep_view(),
            class_names(*file),
            file.path@,
        ),
{
    let sa = match &file.sa {
        Some(sa) => sa,
        None => {
            return ;
        }
    };
    if let Some(fns) = &sa.functions {
        let ghost names = func_names(*file);
        let ghost start = func_map.deep_view();
        let mut i: usize = 0;
        assert(names.take(0) =~= Seq::<Seq<char>>::empty());
        while i < fns.len()
            invariant
                i <= fns@.len(),
                names.len() == fns@.len(),
                forall|k: int| 0 <= k < names.len() ==> names[k] == (#[trigger] fns@[k]).n@,
                func_map.wf(),
                func_map.deep_view() == index_names(start, names.take(i as int), file.path@),
            decreases fns@.len() - i,
        {
            func_map.append(&fns[i].n, &file.path);
            assert(names.take(i + 1).drop_last() =~= names.take(i as int));
            i += 1;
        }
        assert(names.take(i as int) =~= names);
    }
    if let Some(classes) = &sa.cls {
        let ghost names = class_names(*file);
        let ghost start = class_map.deep_view();
        let mut i: usize = 0;
        assert(names.take(0) =~= Seq::<Seq<char>>::empty());
        while i < classes.len()
            invariant
                i <= classes@.len(),
                names.len() == classes@.len(),
                forall|k: int| 0 <= k < names.len() ==> names[k] == (#[trigger] classes@[k]).n@,
                class_map.wf(),
                class_map.deep_view() == index_names(start, names.take(i as int), file.path@),
            decreases classes@.len() - i,
        {
            class_map.append(&classes[i].n, &file.path);
            assert(names.take(i + 1).drop_last() =~= names.take(i as int));
            i += 1;
        }
        assert(names.take(i as int) =~= names);
    }
}

/// Builds the lookup maps for languages, functions and classes.
pub fn build_lookup_maps(files: &Vec<FileNode>) -> (r: LookupMaps)
    ensures
        r.wf(),
        r.lang_map.deep_view() == lang_index(files@),
        r.func_map.deep_view() == func_index(files@),
        r.class_map.deep_view() == class_index(files@),
{
    let mut lang_map: Table<String> = Table::new();
    let mut func_map: Table<Vec<String>> = Table::new();
    let mut class_map: Table<Vec<String>> = Table::new();
    let mut i: usize = 0;
    assert(lang_map.deep_view() =~= Map::<Seq<char>, Seq<char>>::empty());
    assert(func_map.deep_view() =~= Map::<Seq<char>, Seq<Seq<char>>>::empty());
    assert(class_map.deep_view() =~= Map::<Seq<char>, Seq<Seq<char>>>::empty());
    while i < files.len()
        invariant
            i <= files@.len(),
            lang_map.wf(),
            func_map.wf(),
            class_map.wf(),
            lang_map.deep_view() == lang_index(files@.take(i as int)),
            func_map.deep_view() == func_index(files@.take(i as int)),
            class_map.deep_view() == class_index(files@.take(i as int)),
        decreases files@.len() - i,
    {
        let file = &files[i];
        assert(files@.take(i + 1).drop_last() =~= files@.take(i as int));
        if !file.is_dir {
            let ghost before = lang_map.deep_view();
            lang_map.insert(file.path.clone(), file.lang.clone());
            assert(lang_map.deep_view() =~= before.insert(file.path@, file.lang@));
            index_file_symbols(file, &mut func_map, &mut class_map);
        }
        i += 1;
    }
    assert(files@.take(i as int) =~= files@);
    LookupMaps { lang_map, func_map, class_map }
}

// ---------------------------------------------------------------------------
// Import edges
// ---------------------------------------------------------------------------

/// Whether the edges lead from `from` to `to`.
pub open spec fn has_import(edges: Seq<ImportArc>, from: Seq<char>, to: Seq<char>) -> bool {
    edges.contains(ImportArc { from_file: from, to_file: to })
}

/// The index from each importing file to the files it imports.
pub open spec fn import_index(edges: Seq<ImportArc>) -> Map<Seq<char>, Set<Seq<char>>> {
    Map::new(
        |from: Seq<char>|
            exists|i: int| 0 <= i < edges.len() && (#[trigger] edges[i]).from_file == from,
        |from: Seq<char>| Set::new(|to: Seq<char>| has_import(edges, from, to)),
    )
}

/// One edge more adds its target to the set of its importing file.
proof fn lemma_import_index_step(edges: Seq<ImportArc>, e: ImportArc)
    ensures
        import_index(edges.push(e)) == import_index(edges).insert(
            e.from_file,
            members(import_index(edges), e.from_file).insert(e.to_file),
        ),
{
    let more = edges.push(e);
    let old_index = import_index(edges);
    let new_index = import_index(more);
    let want = old_index.insert(
        e.from_file,
        members(old_index, e.from_file).insert(e.to_file),
    );
    assert forall|from: Seq<char>| new_index.contains_key(from) <==> want.contains_key(from) by {
        if old_index.contains_key(from) {
            let k = choose|k: int| 0 <= k < edges.len() && (#[trigger] edges[k]).from_file == from;
            assert(more[k].from_file == from);
        }
        if e.from_file == from {
            assert(more[edges.len() as int].from_file == from);
        }
        if new_index.contains_key(from) {
            let k = choose|k: int| 0 <= k < more.len() && (#[trigger] more[k]).from_file == from;
            if k < edges.len() {
                assert(edges[k].from_file == from);
            }
        }
    }
    assert forall|from: Seq<char>| new_index.contains_key(from) implies #[trigger] new_index[from]
        == want[from] by {
        assert forall|to: Seq<char>| new_index[from].contains(to) <==> want[from].contains(to) by {
            lemma_has_import_step(edges, e, from, to);
            if has_import(edges, from, to) {
                let arc = ImportArc { from_file: from, to_file: to };
                let k = choose|k: int| 0 <= k < edges.len() && edges[k] == arc;
                assert(edges[k].from_file == from);
            }
        }
        assert(new_index[from] =~= want[from]);
    }
    assert(new_index =~= want);
}

/// One edge more leads to one target more.
proof fn lemma_has_import_step(
    edges: Seq<ImportArc>,
    e: ImportArc,
    from: Seq<char>,
    to: Seq<char>,
)
    ensures
        has_import(edges.push(e), from, to) <==> has_import(edges, from, to) || (e.from_file == from
            && e.to_file == to),
{
    let more = edges.push(e);
    let arc = ImportArc { from_file: from, to_file: to };
    if has_import(more, from, to) {
        let k = choose|k: int| 0 <= k < more.len() && more[k] == arc;
        if k < edges.len() {
            assert(edges[k] == arc);
        }
    }
    if has_import(edges, from, to) {
        let k = choose|k: int| 0 <= k < edges.len() && edges[k] == arc;
        assert(more[k] == arc);
    }
    if arc == e {
        assert(more[edges.len() as int] == arc);
    }
}

/// Builds the index from each importing file to the files it imports.
pub fn build_import_target_index(import_edges: &Vec<ImportEdge>) -> (r: Table<NameSet>)
    ensures
        r.wf(),
        r.deep_view() == import_index(import_edges.deep_view()),
{
    let mut m: Table<NameSet> = Table::new();
    let ghost all = import_edges.deep_view();
    let mut i: usize = 0;
    assert(m.deep_view() =~= import_index(all.take(0)));
    while i < import_edges.len()
        invariant
            i <= import_edges@.len(),
            all == import_edges.deep_view(),
            m.wf(),
            m.deep_view() == import_index(all.take(i as int)),
        decreases import_edges@.len() - i,
    {
        let edge = &import_edges[i];
        m.add(&edge.from_file, &edge.to_file);
        proof {
            assert(all.take(i + 1) =~= all.take(i as int).push(all[i as int]));
            lemma_import_index_step(all.take(i as int), all[i as int]);
        }
        i += 1;
    }
    assert(all.take(i as int) =~= all);
    m
}

/// Drops import edges that already stood earlier: two specifiers can resolve
/// to the same target.
pub fn dedup_import_edges(import_edges: &mut Vec<ImportEdge>)
    ensures
        final(import_edges).deep_view() == first_occurrences(old(import_edges).deep_view()),
{
    let ghost all = import_edges.deep_view();
    let mut given: Vec<ImportEdge> = Vec::new();
    std::mem::swap(&mut given, import_edges);
    let ghost given_seq = given@;
    let mut seen: Table<NameSet> = Table::new();
    let mut kept: Vec<ImportEdge> = Vec::new();
    assert(seen.deep_view() =~= Map::<Seq<char>, Set<Seq<char>>>::empty());
    assert(kept.deep_view() =~= first_occurrences(all.take(0)));
    for edge in it: given
        invariant
            it.seq() == given_seq,
            all.len() == given_seq.len(),
            forall|k: int| 0 <= k < all.len() ==> all[k] == (#[trigger] given_seq[k]).deep_view(),
            seen.wf(),
            forall|from: Seq<char>, to: Seq<char>| #[trigger]
                members(seen.deep_view(), from).contains(to) <==> has_import(
                    all.take(it.index()),
                    from,
                    to,
                ),
            kept.deep_view() == first_occurrences(all.take(it.index())),
    {
        let ghost i = it.index();
        let ghost done = all.take(i);
        let ghost more = all.take(i + 1);
        let ghost before = seen.deep_view();
        let ghost kept_before = kept.deep_view();
        let ghost e = all[i];
        let fresh = seen.add(&edge.from_file, &edge.to_file);
        proof {
            assert(more =~= done.push(e));
            assert(more.drop_last() =~= done);
            assert(e == ImportArc { from_file: edge.from_file@, to_file: edge.to_file@ });
            assert(fresh == !has_import(done, e.from_file, e.to_file)) by {
                assert(members(before, e.from_file).contains(e.to_file) <==> has_import(
                    done,
                    e.from_file,
                    e.to_file,
                ));
            }
            assert forall|from: Seq<char>, to: Seq<char>| #[trigger]
                members(seen.deep_view(), from).contains(to) <==> has_import(more, from, to) by {
                assert(members(before, from).contains(to) <==> has_import(done, from, to));
                lemma_has_import_step(done, e, from, to);
            }
        }
        if fresh {
            kept.push(edge);
            assert(kept.deep_view() =~= kept_before.push(e));
        }
    }
    assert(all.take(all.len() as int) =~= all);
    *import_edges = kept;
}

// ---------------------------------------------------------------------------
// Call edges
// ---------------------------------------------------------------------------

/// The language of a file; none counts as the empty text.
pub open spec fn lang_or_empty(langs: Map<Seq<char>, Seq<char>>, path: Seq<char>) -> Seq<char> {
    if langs.contains_key(path) {
        langs[path]
    } else {
        Seq::empty()
    }
}

/// Whether a file is in what another imports.
pub open spec fn imported(targets: Option<Set<Seq<char>>>, path: Seq<char>) -> bool {
    targets matches Some(set) && set.contains(path)
}

/// The files that a call from `file_path` may reach: another file of the same
/// language that the caller imports, or any such file where modules see each
/// other implicitly.
pub open spec fn reachable(
    file_path: Seq<char>,
    src_lang: Seq<char>,
    langs: Map<Seq<char>, Seq<char>>,
    targets: Option<Set<Seq<char>>>,
    implicit: bool,
) -> spec_fn(Seq<char>) -> bool {
    |t: Seq<char>|
        t != file_path && lang_or_empty(langs, t) == src_lang && (implicit || imported(targets, t))
}

/// What a name resolves to: the reachable files that define it, or nothing
/// when there are more of them than allowed.
pub open spec fn call_targets(
    defs: Seq<Seq<char>>,
    reach: spec_fn(Seq<char>) -> bool,
    max_call_targets: nat,
) -> Seq<Seq<char>> {
    let found = defs.filter(reach);
    if found.len() <= max_call_targets {
        found
    } else {
        Seq::empty()
    }
}

/// The language of a file, empty if it is not known.
fn lang_of<'a>(lang_map: &'a Table<String>, path: &str) -> (r: &'a str)
    requires
        lang_map.wf(),
    ensures
        r@ == lang_or_empty(lang_map.deep_view(), path@),
{
    match lang_map.get(path) {
        Some(lang) => lang,
        None => {
            proof {
                reveal_strlit("");
            }
            assert(""@ =~= Seq::<char>::empty());
            ""
        }
    }
}

/// Resolves a call to the files that may define it.
pub fn resolve_call_targets(
    call_name: &str,
    file_path: &str,
    src_lang: &str,
    func_map: &Table<Vec<String>>,
    lang_map: &Table<String>,
    imported_files: Option<&NameSet>,
    max_call_targets: usize,
    implicit_module: bool,
) -> (r: Vec<String>)
    requires
        func_map.wf(),
        lang_map.wf(),
    ensures
        r.deep_view() == call_targets(
            entries(func_map.deep_view(), call_name@),
            reachable(
                file_path@,
                src_lang@,
                lang_map.deep_view(),
                imported_files.deep_view(),
                implicit_module,
            ),
            max_call_targets as nat,
        ),
{
    let ghost reach = reachable(
        file_path@,
        src_lang@,
        lang_map.deep_view(),
        imported_files.deep_view(),
        implicit_module,
    );
    let targets = match func_map.get(call_name) {
        Some(t) => t,
        None => {
            let none: Vec<String> = Vec::new();
            proof {
                lemma_filter_empty(Seq::<Seq<char>>::empty(), reach);
                assert(Seq::<Seq<char>>::empty().take(0) =~= Seq::<Seq<char>>::empty());
                assert(none.deep_view() =~= Seq::<Seq<char>>::empty());
            }
            return none;
        }
    };
    let ghost defs = targets.deep_view();
    let mut found: Vec<String> = Vec::new();
    let mut i: usize = 0;
    proof {
        lemma_filter_empty(defs, reach);
        assert(found.deep_view() =~= Seq::<Seq<char>>::empty());
    }
    while i < targets.len()
        invariant
            i <= targets@.len(),
            defs == targets.deep_view(),
            lang_map.wf(),
            reach == reachable(
                file_path@,
                src_lang@,
                lang_map.deep_view(),
                imported_files.deep_view(),
                implicit_module,
            ),
            found.deep_view() == defs.take(i as int).filter(reach),
        decreases targets@.len() - i,
    {
        let t = &targets[i];
        let known = implicit_module || match imported_files {
            Some(imp) => imp.contains(t),
            None => false,
        };
        let keep = !same(t, file_path) && same(lang_of(lang_map, t), src_lang) && known;
        assert(keep == reach(defs[i as int]));
        proof {
            lemma_filter_step(defs, reach, i as int);
        }
        let ghost before = found.deep_view();
        if keep {
            found.push(t.clone());
            assert(found.deep_view() =~= before.push(t@));
        }
        i += 1;
    }
    assert(defs.take(i as int) =~= defs);
    if found.len() <= max_call_targets {
        found
    } else {
        let none: Vec<String> = Vec::new();
        assert(none.deep_view() =~= Seq::<Seq<char>>::empty());
        none
    }
}

/// What resolving the calls of a file takes.
pub struct CallLookup<'a> {
    /// Languages and definitions.
    pub maps: &'a LookupMaps,
    /// The files that each file imports.
    pub import_targets: &'a Table<NameSet>,
    /// The languages whose files see each other without an import.
    pub implicit_langs: &'a NameSet,
    /// How many files a name may resolve to before it says nothing.
    pub max_call_targets: usize,
}

/// What a [`CallLookup`] holds.
pub struct CallFrame {
    pub langs: Map<Seq<char>, Seq<char>>,
    pub funcs: Map<Seq<char>, Seq<Seq<char>>>,
    pub classes: Map<Seq<char>, Seq<Seq<char>>>,
    pub import_targets: Map<Seq<char>, Set<Seq<char>>>,
    pub implicit_langs: Set<Seq<char>>,
    pub max_call_targets: nat,
}

impl<'a> View for CallLookup<'a> {
    type V = CallFrame;

    open spec fn view(&self) -> CallFrame {
        CallFrame {
            langs: self.maps.lang_map.deep_view(),
            funcs: self.maps.func_map.deep_view(),
            classes: self.maps.class_map.deep_view(),
            import_targets: self.import_targets.deep_view(),
            implicit_langs: self.implicit_langs@,
            max_call_targets: self.max_call_targets as nat,
        }
    }
}

impl<'a> CallLookup<'a> {
    /// The tables are well formed.
    pub open spec fn wf(&self) -> bool {
        self.maps.wf() && self.import_targets.wf()
    }
}

/// The files that a file imports, if it imports any.
pub open spec fn targets_of(
    import_targets: Map<Seq<char>, Set<Seq<char>>>,
    path: Seq<char>,
) -> Option<Set<Seq<char>>> {
    if import_targets.contains_key(path) {
        Some(import_targets[path])
    } else {
        None
    }
}

/// The calls of one function: its name with each name that it calls.
pub open spec fn func_calls() -> spec_fn(FuncInfo) -> Seq<(Seq<char>, Seq<char>)> {
    |f: FuncInfo| Seq::new(texts(f.co).len(), |i: int| (f.n@, texts(f.co)[i]))
}

/// The calls of a file: those of its functions, then those outside of any.
pub open spec fn calls_in(file: FileNode) -> Seq<(Seq<char>, Seq<char>)> {
    let loose = match file.sa {
        Some(sa) => texts(sa.co),
        None => Seq::empty(),
    };
    concat_map(functions_of(file), func_calls()) + Seq::new(
        loose.len(),
        |i: int| (Seq::<char>::empty(), loose[i]),
    )
}

/// The files that a call from `file` resolves to: by the functions of that
/// name, or by the classes where no function is found.
pub open spec fn resolved_call(fr: CallFrame, file: FileNode, name: Seq<char>) -> Seq<Seq<char>> {
    let src_lang = lang_or_empty(fr.langs, file.path@);
    let reach = reachable(
        file.path@,
        src_lang,
        fr.langs,
        targets_of(fr.import_targets, file.path@),
        fr.implicit_langs.contains(src_lang),
    );
    let by_func = call_targets(
        entries(fr.funcs, name),
        reach,
        fr.max_call_targets,
    );
    if by_func.len() > 0 {
        by_func
    } else {
        call_targets(
            entries(fr.classes, name),
            reach,
            fr.max_call_targets,
        )
    }
}

/// The edges of one call.
pub open spec fn call_arcs(fr: CallFrame, file: FileNode) -> spec_fn(
    (Seq<char>, Seq<char>),
) -> Seq<CallArc> {
    |call: (Seq<char>, Seq<char>)|
        {
            let targets = resolved_call(fr, file, call.1);
            Seq::new(
                targets.len(),
                |i: int|
                    CallArc {
                        from_file: file.path@,
                        from_func: call.0,
                        to_file: targets[i],
                        to_func: call.1,
                    },
            )
        }
}

/// The call edges that leave a file. A directory has none, and neither has a
/// file without a language.
pub open spec fn file_call_arcs(fr: CallFrame) -> spec_fn(FileNode) -> Seq<CallArc> {
    |file: FileNode|
        if file.is_dir || lang_or_empty(fr.langs, file.path@).len() == 0 {
            Seq::empty()
        } else {
            concat_map(calls_in(file), call_arcs(fr, file))
        }
}

/// Lists the calls of a file.
fn list_calls<'a>(file: &'a FileNode) -> (r: Vec<(&'a str, &'a str)>)
    ensures
        r.deep_view() == calls_in(*file),
{
    let mut out: Vec<(&'a str, &'a str)> = Vec::new();
    let ghost all = functions_of(*file);
    let ghost f = func_calls();
    assert(out.deep_view() =~= concat_map(all.take(0), f));
    let sa = match &file.sa {
        Some(sa) => sa,
        None => {
            assert(all.take(0) =~= all);
            assert(out.deep_view() =~= calls_in(*file));
            return out;
        }
    };
    if let Some(fns) = &sa.functions {
        let mut i: usize = 0;
        while i < fns.len()
            invariant
                i <= fns@.len(),
                all == fns@,
                f == func_calls(),
                out.deep_view() == concat_map(all.take(i as int), f),
            decreases fns@.len() - i,
        {
            let func = &fns[i];
            let ghost before = out.deep_view();
            let ghost names = texts(func.co);
            let ghost added = f(*func);
            assert(added.take(0) =~= Seq::<(Seq<char>, Seq<char>)>::empty());
            assert(out.deep_view() =~= before + added.take(0));
            if let Some(co) = &func.co {
                let mut j: usize = 0;
                while j < co.len()
                    invariant
                        j <= co@.len(),
                        names == co.deep_view(),
                        added.len() == names.len(),
                        forall|k: int|
                            0 <= k < added.len() ==> #[trigger] added[k] == (func.n@, names[k]),
                        out.deep_view() == before + added.take(j as int),
                    decreases co@.len() - j,
                {
                    let ghost was = out.deep_view();
                    out.push((&func.n, &co[j]));
                    assert(out.deep_view() =~= was.push(added[j as int]));
                    assert(out.deep_view() =~= before + added.take(j + 1));
                    j += 1;
                }
            }
            assert(out.deep_view() =~= before + added);
            proof {
                lemma_concat_map_step(all, f, i as int);
            }
            i += 1;
        }
    }
    assert(all.take(all.len() as int) =~= all);
    let ghost before = out.deep_view();
    let ghost loose = texts(sa.co);
    let ghost added = Seq::new(loose.len(), |i: int| (Seq::<char>::empty(), loose[i]));
    assert(out.deep_view() =~= before + added.take(0));
    if let Some(co) = &sa.co {
        let mut j: usize = 0;
        while j < co.len()
            invariant
                j <= co@.len(),
                loose == co.deep_view(),
                added == Seq::new(loose.len(), |i: int| (Seq::<char>::empty(), loose[i])),
                out.deep_view() == before + added.take(j as int),
            decreases co@.len() - j,
        {
            let ghost was = out.deep_view();
            proof {
                reveal_strlit("");
            }
            assert(""@ =~= Seq::<char>::empty());
            out.push(("", &co[j]));
            assert(out.deep_view() =~= was.push(added[j as int]));
            assert(out.deep_view() =~= before + added.take(j + 1));
            j += 1;
        }
    }
    assert(out.deep_view() =~= before + added);
    out
}

/// Computes the call edges that leave a file.
pub fn file_call_edges(file: &FileNode, lk: &CallLookup) -> (r: Vec<CallEdge>)
    requires
        lk.wf(),
    ensures
        r.deep_view() == file_call_arcs(lk@)(*file),
{
    let mut edges: Vec<CallEdge> = Vec::new();
    let src_lang = lang_of(&lk.maps.lang_map, &file.path);
    assert(edges.deep_view() =~= Seq::<CallArc>::empty());
    if file.is_dir || src_lang.is_empty() {
        return edges;
    }
    let imported_files = lk.import_targets.get(&file.path);
    let implicit = lk.implicit_langs.contains(src_lang);
    let calls = list_calls(file);
    let ghost all = calls.deep_view();
    let ghost f = call_arcs(lk@, *file);
    let mut i: usize = 0;
    assert(edges.deep_view() =~= concat_map(all.take(0), f));
    while i < calls.len()
        invariant
            i <= calls@.len(),
            lk.wf(),
            all == calls.deep_view(),
            f == call_arcs(lk@, *file),
            src_lang@ == lang_or_empty(lk.maps.lang_map.deep_view(), file.path@),
            implicit == lk.implicit_langs@.contains(src_lang@),
            imported_files.deep_view() == targets_of(lk.import_targets.deep_view(), file.path@),
            edges.deep_view() == concat_map(all.take(i as int), f),
        decreases calls@.len() - i,
    {
        let from_func = calls[i].0;
        let call_name = calls[i].1;
        let mut targets = resolve_call_targets(
            call_name,
            &file.path,
            src_lang,
            &lk.maps.func_map,
            &lk.maps.lang_map,
            imported_files,
            lk.max_call_targets,
            implicit,
        );
        let ghost by_func = targets.deep_view();
        if targets.is_empty() {
            targets =
            resolve_call_targets(
                call_name,
                &file.path,
                src_lang,
                &lk.maps.class_map,
                &lk.maps.lang_map,
                imported_files,
                lk.max_call_targets,
                implicit,
            );
        }
        let ghost found = targets.deep_view();
        let ghost before = edges.deep_view();
        let ghost added = f((from_func@, call_name@));
        assert(all[i as int] == (from_func@, call_name@));
        assert(found == resolved_call(lk@, *file, call_name@));
        assert(edges.deep_view() =~= before + added.take(0));
        let mut j: usize = 0;
        while j < targets.len()
            invariant
                j <= targets@.len(),
                found == targets.deep_view(),
                found == resolved_call(lk@, *file, call_name@),
                f == call_arcs(lk@, *file),
                added == f((from_func@, call_name@)),
                edges.deep_view() == before + added.take(j as int),
            decreases targets@.len() - j,
        {
            let ghost was = edges.deep_view();
            let edge = CallEdge {
                from_file: file.path.clone(),
                from_func: from_func.to_owned(),
                to_file: targets[j].clone(),
                to_func: call_name.to_owned(),
            };
            assert(edge.deep_view() == added[j as int]);
            edges.push(edge);
            assert(edges.deep_view() =~= was.push(added[j as int]));
            assert(edges.deep_view() =~= before + added.take(j + 1));
            j += 1;
        }
        assert(edges.deep_view() =~= before + added);
        proof {
            lemma_concat_map_step(all, f, i as int);
        }
        i += 1;
    }
    assert(all.take(i as int) =~= all);
    edges
}

/// Computes the call edges between files. An edge is drawn only where the
/// caller imports the callee, or where its language imports implicitly. The
/// edges come sorted, in whatever order the files were worked on.
pub fn compute_call_edges(files: &Vec<FileNode>, lk: &CallLookup) -> (r: Vec<CallEdge>)
    requires
        lk.wf(),
    ensures
        r.deep_view() == sorted(
            concat_map(files@, file_call_arcs(lk@)),
            order::<CallEdge>(),
        ),
{
    let work = |file: &FileNode| -> (part: Vec<CallEdge>)
        ensures
            part.deep_view() == file_call_arcs(lk@)(*file),
        {
            file_call_edges(file, lk)
        };
    let parts = par_map(files, work);
    proof {
        let f = file_call_arcs(lk@);
        assert forall|i: int| 0 <= i < files@.len() implies #[trigger] parts.deep_view()[i] == f(
            files@[i],
        ) by {
            assert(parts@[i].deep_view() == f(files@[i]));
        }
        lemma_concat_parts(files@, f, parts.deep_view());
    }
    stable_sort(chain_all(parts))
}

// ---------------------------------------------------------------------------
// Inheritance edges
// ---------------------------------------------------------------------------

/// The files whose classes a class of `child_path` may extend: another file of
/// the same language that the child's file imports.
pub open spec fn inheritable(
    child_path: Seq<char>,
    src_lang: Seq<char>,
    langs: Map<Seq<char>, Seq<char>>,
    targets: Option<Set<Seq<char>>>,
) -> spec_fn(Seq<char>) -> bool {
    |t: Seq<char>|
        t != child_path && lang_or_empty(langs, t) == src_lang && imported(targets, t)
}

/// Checks that a parent file may be extended: a different file, of the same
/// language, imported by the child's file.
pub fn is_valid_inherit_target(
    parent_file: &str,
    child_path: &str,
    src_lang: &str,
    lang_map: &Table<String>,
    imported_files: Option<&NameSet>,
) -> (r: bool)
    requires
        lang_map.wf(),
    ensures
        r == inheritable(
            child_path@,
            src_lang@,
            lang_map.deep_view(),
            imported_files.deep_view(),
        )(parent_file@),
{
    let known = match imported_files {
        Some(imp) => imp.contains(parent_file),
        None => false,
    };
    !same(parent_file, child_path) && same(lang_of(lang_map, parent_file), src_lang) && known
}

/// What resolving the base classes of a file takes.
pub struct InheritLookup<'a> {
    /// The file of the classes.
    pub file_path: &'a str,
    /// Its language.
    pub src_lang: &'a str,
    /// The language of each file.
    pub lang_map: &'a Table<String>,
    /// The files that define each class name.
    pub class_map: &'a Table<Vec<String>>,
    /// The files that the file imports.
    pub imported_files: Option<&'a NameSet>,
}

/// What an [`InheritLookup`] holds.
pub struct InheritFrame {
    pub file_path: Seq<char>,
    pub src_lang: Seq<char>,
    pub langs: Map<Seq<char>, Seq<char>>,
    pub classes: Map<Seq<char>, Seq<Seq<char>>>,
    pub targets: Option<Set<Seq<char>>>,
}

impl<'a> View for InheritLookup<'a> {
    type V = InheritFrame;

    open spec fn view(&self) -> InheritFrame {
        InheritFrame {
            file_path: self.file_path@,
            src_lang: self.src_lang@,
            langs: self.lang_map.deep_view(),
            classes: self.class_map.deep_view(),
            targets: self.imported_files.deep_view(),
        }
    }
}

impl<'a> InheritLookup<'a> {
    /// The tables are well formed.
    pub open spec fn wf(&self) -> bool {
        self.lang_map.wf() && self.class_map.wf()
    }
}

impl InheritFrame {
    /// The files that a class of the frame's file may extend.
    pub open spec fn valid(self) -> spec_fn(Seq<char>) -> bool {
        inheritable(self.file_path, self.src_lang, self.langs, self.targets)
    }
}

/// The edges of a class to the files that define one of its bases.
pub open spec fn base_arcs(fr: InheritFrame, child: Seq<char>) -> spec_fn(Seq<char>) -> Seq<
    InheritArc,
> {
    |base: Seq<char>|
        {
            let parents = entries(fr.classes, base).filter(fr.valid());
            Seq::new(
                parents.len(),
                |i: int|
                    InheritArc {
                        child_file: fr.file_path,
                        child_class: child,
                        parent_file: parents[i],
                        parent_class: base,
                    },
            )
        }
}

/// The inheritance edges of a class, base by base.
pub open spec fn class_arcs(fr: InheritFrame) -> spec_fn(ClassInfo) -> Seq<InheritArc> {
    |cls: ClassInfo| concat_map(texts(cls.b), base_arcs(fr, cls.n@))
}

/// Collects the inheritance edges of one class.
pub fn collect_class_inherit_edges(
    lk: &InheritLookup,
    cls: &ClassInfo,
    edges: &mut Vec<InheritEdge>,
)
    requires
        lk.wf(),
    ensures
        final(edges).deep_view() == old(edges).deep_view() + class_arcs(lk@)(*cls),
{
    let ghost start = edges.deep_view();
    let ghost f = base_arcs(lk@, cls.n@);
    let bases = match &cls.b {
        Some(b) => b,
        None => {
            assert(class_arcs(lk@)(*cls) =~= Seq::<InheritArc>::empty());
            assert(edges.deep_view() =~= start + class_arcs(lk@)(*cls));
            return ;
        }
    };
    let ghost all = bases.deep_view();
    let ghost valid = lk@.valid();
    let mut i: usize = 0;
    assert(edges.deep_view() =~= start + concat_map(all.take(0), f));
    while i < bases.len()
        invariant
            i <= bases@.len(),
            lk.wf(),
            all == bases.deep_view(),
            f == base_arcs(lk@, cls.n@),
            valid == lk@.valid(),
            edges.deep_view() == start + concat_map(all.take(i as int), f),
        decreases bases@.len() - i,
    {
        let base_name = &bases[i];
        let ghost before = edges.deep_view();
        let ghost added = f(base_name@);
        let ghost defs = entries(lk.class_map.deep_view(), base_name@);
        proof {
            lemma_filter_empty(defs, valid);
            lemma_concat_map_step(all, f, i as int);
        }
        let mut count: Ghost<int> = Ghost(0);
        assert(edges.deep_view() =~= before + added.take(0));
        if let Some(parents) = lk.class_map.get(base_name) {
            let mut j: usize = 0;
            while j < parents.len()
                invariant
                    j <= parents@.len(),
                    lk.wf(),
                    defs == parents.deep_view(),
                    f == base_arcs(lk@, cls.n@),
                    added == f(base_name@),
                    defs == entries(lk.class_map.deep_view(), base_name@),
                    valid == lk@.valid(),
                    count@ == defs.take(j as int).filter(valid).len(),
                    count@ <= added.len(),
                    edges.deep_view() == before + added.take(count@),
                decreases parents@.len() - j,
            {
                let parent_file = &parents[j];
                proof {
                    lemma_filter_step(defs, valid, j as int);
                    lemma_filter_prefix(defs, valid, j + 1);
                }
                if is_valid_inherit_target(
                    parent_file,
                    lk.file_path,
                    lk.src_lang,
                    lk.lang_map,
                    lk.imported_files,
                ) {
                    let ghost was = edges.deep_view();
                    let edge = InheritEdge {
                        child_file: lk.file_path.to_owned(),
                        child_class: cls.n.clone(),
                        parent_file: parent_file.clone(),
                        parent_class: base_name.clone(),
                    };
                    proof {
                        let some = defs.take(j + 1).filter(valid);
                        let whole = defs.filter(valid);
                        assert(some[count@] == parent_file@);
                        assert(whole.subrange(0, some.len() as int)[count@] == whole[count@]);
                        assert(edge.deep_view() == added[count@]);
                    }
                    edges.push(edge);
                    assert(edges.deep_view() =~= was.push(added[count@]));
                    assert(edges.deep_view() =~= before + added.take(count@ + 1));
                    proof {
                        count@ = count@ + 1;
                    }
                }
                j += 1;
            }
            assert(defs.take(j as int) =~= defs);
        } else {
            assert(defs.take(0) =~= defs);
        }
        assert(added.take(count@) =~= added);
        assert(edges.deep_view() =~= start + concat_map(all.take(i + 1), f));
        i += 1;
    }
    assert(all.take(i as int) =~= all);
}

/// Filtering a prefix gives a prefix of what filtering the whole gives.
proof fn lemma_filter_prefix<A>(s: Seq<A>, pred: spec_fn(A) -> bool, n: int)
    requires
        0 <= n <= s.len(),
    ensures
        s.take(n).filter(pred).is_prefix_of(s.filter(pred)),
{
    assert(s =~= s.take(n) + s.skip(n));
    Seq::filter_distributes_over_add(s.take(n), s.skip(n), pred);
}

/// The frame in which the classes of a file are resolved.
pub open spec fn frame_of(
    langs: Map<Seq<char>, Seq<char>>,
    classes: Map<Seq<char>, Seq<Seq<char>>>,
    import_targets: Map<Seq<char>, Set<Seq<char>>>,
    path: Seq<char>,
) -> InheritFrame {
    InheritFrame {
        file_path: path,
        src_lang: lang_or_empty(langs, path),
        langs,
        classes,
        targets: targets_of(import_targets, path),
    }
}

/// The inheritance edges that leave a file. A directory has none, and neither
/// has a file without a language.
pub open spec fn file_inherit_arcs(
    langs: Map<Seq<char>, Seq<char>>,
    classes: Map<Seq<char>, Seq<Seq<char>>>,
    import_targets: Map<Seq<char>, Set<Seq<char>>>,
) -> spec_fn(FileNode) -> Seq<InheritArc> {
    |file: FileNode|
        if file.is_dir || lang_or_empty(langs, file.path@).len() == 0 {
            Seq::empty()
        } else {
            concat_map(
                classes_of(file),
                class_arcs(frame_of(langs, classes, import_targets, file.path@)),
            )
        }
}

/// Computes the inheritance edges that leave a file.
pub fn file_inherit_edges(
    file: &FileNode,
    lang_map: &Table<String>,
    class_map: &Table<Vec<String>>,
    import_targets: &Table<NameSet>,
) -> (r: Vec<InheritEdge>)
    requires
        lang_map.wf(),
        class_map.wf(),
        import_targets.wf(),
    ensures
        r.deep_view() == file_inherit_arcs(
            lang_map.deep_view(),
            class_map.deep_view(),
            import_targets.deep_view(),
        )(*file),
{
    let mut edges: Vec<InheritEdge> = Vec::new();
    assert(edges.deep_view() =~= Seq::<InheritArc>::empty());
    let src_lang = lang_of(lang_map, &file.path);
    if file.is_dir || src_lang.is_empty() {
        return edges;
    }
    let lk = InheritLookup {
        file_path: &file.path,
        src_lang,
        lang_map,
        class_map,
        imported_files: import_targets.get(&file.path),
    };
    let ghost fr = frame_of(
        lang_map.deep_view(),
        class_map.deep_view(),
        import_targets.deep_view(),
        file.path@,
    );
    assert(lk@ == fr);
    let ghost all = classes_of(*file);
    let ghost f = class_arcs(fr);
    assert(edges.deep_view() =~= concat_map(all.take(0), f));
    if let Some(sa) = &file.sa {
        if let Some(classes) = &sa.cls {
            let mut i: usize = 0;
            while i < classes.len()
                invariant
                    i <= classes@.len(),
                    all == classes@,
                    lk.wf(),
                    lk@ == fr,
                    f == class_arcs(fr),
                    edges.deep_view() == concat_map(all.take(i as int), f),
                decreases classes@.len() - i,
            {
                collect_class_inherit_edges(&lk, &classes[i], &mut edges);
                proof {
                    lemma_concat_map_step(all, f, i as int);
                }
                i += 1;
            }
        }
    }
    assert(all.take(all.len() as int) =~= all);
    edges
}

/// Computes the inheritance edges between files. An edge is drawn only where
/// the child's file imports the parent's. The edges come sorted, in whatever
/// order the files were worked on.
pub fn compute_inherit_edges(
    files: &Vec<FileNode>,
    lang_map: &Table<String>,
    class_map: &Table<Vec<String>>,
    import_targets: &Table<NameSet>,
) -> (r: Vec<InheritEdge>)
    requires
        lang_map.wf(),
        class_map.wf(),
        import_targets.wf(),
    ensures
        r.deep_view() == sorted(
            concat_map(
                files@,
                file_inherit_arcs(
                    lang_map.deep_view(),
                    class_map.deep_view(),
                    import_targets.deep_view(),
                ),
            ),
            order::<InheritEdge>(),
        ),
{
    let ghost f = file_inherit_arcs(
        lang_map.deep_view(),
        class_map.deep_view(),
        import_targets.deep_view(),
    );
    let work = |file: &FileNode| -> (part: Vec<InheritEdge>)
        ensures
            part.deep_view() == f(*file),
        {
            file_inherit_edges(file, lang_map, class_map, import_targets)
        };
    let parts = par_map(files, work);
    proof {
        assert forall|i: int| 0 <= i < files@.len() implies #[trigger] parts.deep_view()[i] == f(
            files@[i],
        ) by {
            assert(parts@[i].deep_view() == f(files@[i]));
        }
        lemma_concat_parts(files@, f, parts.deep_view());
    }
    stable_sort(chain_all(parts))
}

// ---------------------------------------------------------------------------
// Entry points
// ---------------------------------------------------------------------------

/// `out` is what `detect` found in the files that are no directories, in order.
pub open spec fn detected<E, D: Fn(&FileNode) -> Vec<E>>(
    files: Seq<FileNode>,
    detect: D,
    out: Seq<E>,
) -> bool
    decreases files.len(),
{
    if files.len() == 0 {
        out.len() == 0
    } else if files.last().is_dir {
        detected(files.drop_last(), detect, out)
    } else {
        exists|found: Vec<E>|
            {
                &&& #[trigger] call_ensures(detect, (&files.last(),), found)
                &&& found@.is_suffix_of(out)
                &&& detected(files.drop_last(), detect, out.take(out.len() - found@.len()))
            }
    }
}

/// One file more adds what `detect` found in it.
proof fn lemma_detected_step<E, D: Fn(&FileNode) -> Vec<E>>(
    files: Seq<FileNode>,
    detect: D,
    head: Seq<E>,
    found: Vec<E>,
)
    requires
        files.len() > 0,
        !files.last().is_dir,
        detected(files.drop_last(), detect, head),
        call_ensures(detect, (&files.last(),), found),
    ensures
        detected(files, detect, head + found@),
{
    let out = head + found@;
    assert(out.take(out.len() - found@.len()) =~= head);
    assert(out.subrange(out.len() - found@.len(), out.len() as int) =~= found@);
}

/// Collects the entry points of all files that are no directories.
pub fn collect_entry_points<E, D: Fn(&FileNode) -> Vec<E>>(files: &Vec<FileNode>, detect: &D) -> (r:
    Vec<E>)
    requires
        forall|i: int|
            0 <= i < files@.len() && !(#[trigger] files@[i]).is_dir ==> call_requires(
                *detect,
                (&files@[i],),
            ),
    ensures
        detected(files@, *detect, r@),
{
    let mut entry_points: Vec<E> = Vec::new();
    let mut i: usize = 0;
    while i < files.len()
        invariant
            i <= files@.len(),
            forall|i: int|
                0 <= i < files@.len() && !(#[trigger] files@[i]).is_dir ==> call_requires(
                    *detect,
                    (&files@[i],),
                ),
            detected(files@.take(i as int), *detect, entry_points@),
        decreases files@.len() - i,
    {
        let file = &files[i];
        let ghost head = entry_points@;
        assert(files@.take(i + 1).drop_last() =~= files@.take(i as int));
        assert(files@.take(i + 1).last() == *file);
        if !file.is_dir {
            let mut found = detect(file);
            let ghost given = found;
            entry_points.append(&mut found);
            proof {
                lemma_detected_step(files@.take(i + 1), *detect, head, given);
            }
        }
        i += 1;
    }
    assert(files@.take(i as int) =~= files@);
    entry_points
}

// ---------------------------------------------------------------------------
// The graphs of a scan
// ---------------------------------------------------------------------------

/// The dependency graphs of a scan, with its entry points.
pub struct GraphResult<E> {
    /// Which file imports which.
    pub import_edges: Vec<ImportEdge>,
    /// Which function calls which, between files.
    pub call_edges: Vec<CallEdge>,
    /// Which class extends which, between files.
    pub inherit_edges: Vec<InheritEdge>,
    /// Where the program is entered.
    pub entry_points: Vec<E>,
    /// How far each file is from an entry point.
    pub exec_depth: Table<u32>,
}

/// Builds dependency graphs out of parsed files. Other ways of building them
/// can stand in for [`build_graphs`].
pub trait GraphBuilder<E> {
    /// Builds the graphs of a scan.
    fn build(
        &self,
        files: &Vec<FileNode>,
        resolution: &Option<Resolution>,
        max_call_targets: usize,
    ) -> (r: GraphResult<E>);
}

/// The frame in which the calls of a scan are resolved.
pub open spec fn scan_calls(
    files: Seq<FileNode>,
    imports: Seq<ImportArc>,
    implicit_langs: Set<Seq<char>>,
    max_call_targets: nat,
) -> CallFrame {
    CallFrame {
        langs: lang_index(files),
        funcs: func_index(files),
        classes: class_index(files),
        import_targets: import_index(imports),
        implicit_langs,
        max_call_targets,
    }
}

/// The inheritance edges that leave a file of a scan.
pub open spec fn scan_inherits(files: Seq<FileNode>, imports: Seq<ImportArc>) -> spec_fn(
    FileNode,
) -> Seq<InheritArc> {
    file_inherit_arcs(lang_index(files), class_index(files), import_index(imports))
}

/// Builds the import, call and inheritance graphs of a scan, finds its entry
/// points with `detect` and measures the distance from them with `depth`.
/// Without a root to scan there are no import edges.
pub fn build_graphs<
    E,
    D: Fn(&FileNode) -> Vec<E>,
    X: Fn(&Vec<ImportEdge>, &Vec<E>) -> Table<u32>,
>(
    files: &Vec<FileNode>,
    resolution: &Option<Resolution>,
    implicit_langs: &NameSet,
    max_call_targets: usize,
    detect: &D,
    depth: &X,
) -> (r: GraphResult<E>)
    requires
        resolution matches Some(res) ==> res.wf(),
        forall|i: int|
            0 <= i < files@.len() && !(#[trigger] files@[i]).is_dir ==> call_requires(
                *detect,
                (&files@[i],),
            ),
        forall|edges: &Vec<ImportEdge>, points: &Vec<E>| #[trigger]
            call_requires(*depth, (edges, points)),
    ensures
        r.import_edges.deep_view() == first_occurrences(import_arcs(files@, *resolution)),
        r.call_edges.deep_view() == sorted(
            concat_map(
                files@,
                file_call_arcs(
                    scan_calls(
                        files@,
                        r.import_edges.deep_view(),
                        implicit_langs@,
                        max_call_targets as nat,
                    ),
                ),
            ),
            order::<CallEdge>(),
        ),
        r.inherit_edges.deep_view() == sorted(
            concat_map(files@, scan_inherits(files@, r.import_edges.deep_view())),
            order::<InheritEdge>(),
        ),
        detected(files@, *detect, r.entry_points@),
        call_ensures(*depth, (&r.import_edges, &r.entry_points), r.exec_depth),
{
    let maps = build_lookup_maps(files);
    let mut import_edges = resolve_path_imports_ref(files, resolution);
    dedup_import_edges(&mut import_edges);
    let import_targets = build_import_target_index(&import_edges);
    let lk = CallLookup {
        maps: &maps,
        import_targets: &import_targets,
        implicit_langs,
        max_call_targets,
    };
    let call_edges = compute_call_edges(files, &lk);
    let inherit_edges = compute_inherit_edges(
        files,
        &maps.lang_map,
        &maps.class_map,
        &import_targets,
    );
    let entry_points = collect_entry_points(files, detect);
    let exec_depth = depth(&import_edges, &entry_points);
    GraphResult { import_edges, call_edges, inherit_edges, entry_points, exec_depth }
}

// ---------------------------------------------------------------------------
// Laws
// ---------------------------------------------------------------------------

/// Dropping repeated import edges loses no edge, leaves each once, and does
/// nothing the second time.
pub proof fn law_dedup_keeps_each_edge_once(edges: Seq<ImportArc>)
    ensures
        first_occurrences(edges).no_duplicates(),
        forall|e: ImportArc| #[trigger] first_occurrences(edges).contains(e) <==> edges.contains(e),
        first_occurrences(first_occurrences(edges)) == first_occurrences(edges),
{
    lemma_first_occurrences(edges);
    lemma_first_occurrences_fixed(first_occurrences(edges));
}

/// The index of imports tells exactly what the edges tell.
pub proof fn law_index_tells_what_edges_tell(
    edges: Seq<ImportArc>,
    from: Seq<char>,
    to: Seq<char>,
)
    ensures
        members(import_index(edges), from).contains(to) <==> has_import(edges, from, to),
{
    if has_import(edges, from, to) {
        let arc = ImportArc { from_file: from, to_file: to };
        let k = choose|k: int| 0 <= k < edges.len() && edges[k] == arc;
        assert(edges[k].from_file == from);
    }
}

/// A name resolves to as many files as allowed, or to none.
pub proof fn law_calls_reach_few_files(fr: CallFrame, file: FileNode, name: Seq<char>)
    ensures
        resolved_call(fr, file, name).len() <= fr.max_call_targets,
{
}

/// What a call resolves to is another file of the same language, which the
/// caller imports unless the language imports implicitly.
proof fn lemma_resolved_call(fr: CallFrame, file: FileNode, name: Seq<char>, to: Seq<char>)
    requires
        resolved_call(fr, file, name).contains(to),
    ensures
        to != file.path@,
        lang_or_empty(fr.langs, to) == lang_or_empty(fr.langs, file.path@),
        fr.implicit_langs.contains(lang_or_empty(fr.langs, file.path@)) || members(
            fr.import_targets,
            file.path@,
        ).contains(to),
{
    let src_lang = lang_or_empty(fr.langs, file.path@);
    let reach = reachable(
        file.path@,
        src_lang,
        fr.langs,
        targets_of(fr.import_targets, file.path@),
        fr.implicit_langs.contains(src_lang),
    );
    let funcs = entries(fr.funcs, name);
    let classes = entries(fr.classes, name);
    let found = resolved_call(fr, file, name);
    let i = choose|i: int| 0 <= i < found.len() && found[i] == to;
    if call_targets(funcs, reach, fr.max_call_targets).len() > 0 {
        lemma_filter_member(funcs, reach, i);
    } else {
        lemma_filter_member(classes, reach, i);
    }
    assert(reach(to));
}

/// A call edge leads from a file of the scan to another file of the same
/// language, which the caller imports unless the language imports implicitly.
pub proof fn law_calls_follow_imports(
    files: Seq<FileNode>,
    imports: Seq<ImportArc>,
    implicit_langs: Set<Seq<char>>,
    max_call_targets: nat,
    e: CallArc,
)
    requires
        sorted(
            concat_map(
                files,
                file_call_arcs(scan_calls(files, imports, implicit_langs, max_call_targets)),
            ),
            order::<CallEdge>(),
        ).contains(e),
    ensures
        exists|i: int|
            0 <= i < files.len() && !(#[trigger] files[i]).is_dir && files[i].path@ == e.from_file,
        e.to_file != e.from_file,
        lang_or_empty(lang_index(files), e.from_file).len() > 0,
        lang_or_empty(lang_index(files), e.to_file) == lang_or_empty(
            lang_index(files),
            e.from_file,
        ),
        implicit_langs.contains(lang_or_empty(lang_index(files), e.from_file)) || has_import(
            imports,
            e.from_file,
            e.to_file,
        ),
{
    let fr = scan_calls(files, imports, implicit_langs, max_call_targets);
    let f = file_call_arcs(fr);
    lemma_sorted::<CallEdge>(concat_map(files, f));
    lemma_concat_map_member(files, f, e);
    let i = choose|i: int| 0 <= i < files.len() && f(#[trigger] files[i]).contains(e);
    let file = files[i];
    let calls = calls_in(file);
    let g = call_arcs(fr, file);
    assert(!file.is_dir);
    lemma_concat_map_member(calls, g, e);
    let k = choose|k: int| 0 <= k < calls.len() && g(#[trigger] calls[k]).contains(e);
    let targets = resolved_call(fr, file, calls[k].1);
    let part = g(calls[k]);
    let n = choose|n: int| 0 <= n < part.len() && part[n] == e;
    assert(targets[n] == e.to_file);
    lemma_resolved_call(fr, file, calls[k].1, e.to_file);
    law_index_tells_what_edges_tell(imports, e.from_file, e.to_file);
}

/// An inheritance edge leads from a file of the scan to another file of the
/// same language, which the child's file imports.
pub proof fn law_inheritance_follows_imports(
    files: Seq<FileNode>,
    imports: Seq<ImportArc>,
    e: InheritArc,
)
    requires
        sorted(
            concat_map(files, scan_inherits(files, imports)),
            order::<InheritEdge>(),
        ).contains(e),
    ensures
        exists|i: int|
            0 <= i < files.len() && !(#[trigger] files[i]).is_dir && files[i].path@ == e.child_file,
        e.parent_file != e.child_file,
        lang_or_empty(lang_index(files), e.child_file).len() > 0,
        lang_or_empty(lang_index(files), e.parent_file) == lang_or_empty(
            lang_index(files),
            e.child_file,
        ),
        has_import(imports, e.child_file, e.parent_file),
{
    let f = scan_inherits(files, imports);
    lemma_sorted::<InheritEdge>(concat_map(files, f));
    lemma_concat_map_member(files, f, e);
    let i = choose|i: int| 0 <= i < files.len() && f(#[trigger] files[i]).contains(e);
    let file = files[i];
    let fr = frame_of(lang_index(files), class_index(files), import_index(imports), file.path@);
    let classes = classes_of(file);
    let g = class_arcs(fr);
    assert(!file.is_dir);
    lemma_concat_map_member(classes, g, e);
    let k = choose|k: int| 0 <= k < classes.len() && g(#[trigger] classes[k]).contains(e);
    let bases = texts(classes[k].b);
    let h = base_arcs(fr, classes[k].n@);
    lemma_concat_map_member(bases, h, e);
    let m = choose|m: int| 0 <= m < bases.len() && h(#[trigger] bases[m]).contains(e);
    let part = h(bases[m]);
    let n = choose|n: int| 0 <= n < part.len() && part[n] == e;
    let defs = entries(fr.classes, bases[m]);
    lemma_filter_member(defs, fr.valid(), n);
    assert(fr.valid()(e.parent_file));
    law_index_tells_what_edges_tell(imports, e.child_file, e.parent_file);
}

/// Without a root to scan there are no import edges, and so no inheritance
/// edges; calls are found in the languages that import implicitly alone.
pub proof fn law_without_root_nothing_is_imported(
    files: Seq<FileNode>,
    implicit_langs: Set<Seq<char>>,
    max_call_targets: nat,
)
    ensures
        ({
            let imports = first_occurrences(import_arcs(files, None));
            &&& imports.len() == 0
            &&& sorted(
                concat_map(files, scan_inherits(files, imports)),
                order::<InheritEdge>(),
            ).len() == 0
            &&& forall|e: CallArc| #[trigger]
                sorted(
                    concat_map(
                        files,
                        file_call_arcs(
                            scan_calls(files, imports, implicit_langs, max_call_targets),
                        ),
                    ),
                    order::<CallEdge>(),
                ).contains(e) ==> implicit_langs.contains(
                    lang_or_empty(lang_index(files), e.from_file),
                )
        }),
{
    let imports = first_occurrences(import_arcs(files, None));
    let inherits = sorted(
        concat_map(files, scan_inherits(files, imports)),
        order::<InheritEdge>(),
    );
    if inherits.len() > 0 {
        assert(inherits.contains(inherits[0]));
        law_inheritance_follows_imports(files, imports, inherits[0]);
    }
    let calls = sorted(
        concat_map(
            files,
            file_call_arcs(scan_calls(files, imports, implicit_langs, max_call_targets)),
        ),
        order::<CallEdge>(),
    );
    assert forall|e: CallArc| #[trigger] calls.contains(e) implies implicit_langs.contains(
        lang_or_empty(lang_index(files), e.from_file),
    ) by {
        law_calls_follow_imports(files, imports, implicit_langs, max_call_targets, e);
    }
}

/// Call and inheritance edges come out the same in whatever order the files
/// are worked on.
pub proof fn law_edges_ignore_the_order_of_work(
    a: Seq<FileNode>,
    b: Seq<FileNode>,
    calls: CallFrame,
    langs: Map<Seq<char>, Seq<char>>,
    classes: Map<Seq<char>, Seq<Seq<char>>>,
    import_targets: Map<Seq<char>, Set<Seq<char>>>,
)
    requires
        a.to_multiset() == b.to_multiset(),
    ensures
        sorted(concat_map(a, file_call_arcs(calls)), order::<CallEdge>()) == sorted(
            concat_map(b, file_call_arcs(calls)),
            order::<CallEdge>(),
        ),
        sorted(
            concat_map(a, file_inherit_arcs(langs, classes, import_targets)),
            order::<InheritEdge>(),
        ) == sorted(
            concat_map(b, file_inherit_arcs(langs, classes, import_targets)),
            order::<InheritEdge>(),
        ),
{
    let f = file_call_arcs(calls);
    let g = file_inherit_arcs(langs, classes, import_targets);
    lemma_concat_map_any_order(a, b, f);
    lemma_concat_map_any_order(a, b, g);
    assert forall|x: CallArc, y: CallArc| #[trigger] CallEdge::le(x, y) && #[trigger] CallEdge::le(
        y,
        x,
    ) implies x == y by {
        lemma_row_le_antisymmetric(call_row(x), call_row(y));
        assert(call_row(x)[0] == call_row(y)[0] && call_row(x)[1] == call_row(y)[1]);
        assert(call_row(x)[2] == call_row(y)[2] && call_row(x)[3] == call_row(y)[3]);
    }
    assert forall|x: InheritArc, y: InheritArc| #[trigger] InheritEdge::le(x, y)
        && #[trigger] InheritEdge::le(y, x) implies x == y by {
        lemma_row_le_antisymmetric(inherit_row(x), inherit_row(y));
        assert(inherit_row(x)[0] == inherit_row(y)[0] && inherit_row(x)[1] == inherit_row(y)[1]);
        assert(inherit_row(x)[2] == inherit_row(y)[2] && inherit_row(x)[3] == inherit_row(y)[3]);
    }
    lemma_sorted_any_order::<CallEdge>(concat_map(a, f), concat_map(b, f));
    lemma_sorted_any_order::<InheritEdge>(concat_map(a, g), concat_map(b, g));
}

/// The language of a path is that of the last file of that path which is no
/// directory; other paths have none.
pub proof fn law_language_of_a_path(files: Seq<FileNode>, p: Seq<char>)
    ensures
        match lang_index(files).contains_key(p) {
            true => exists|i: int|
                {
                    &&& 0 <= i < files.len()
                    &&& !(#[trigger] files[i]).is_dir
                    &&& files[i].path@ == p
                    &&& files[i].lang@ == lang_index(files)[p]
                    &&& forall|j: int|
                        i < j < files.len() ==> (#[trigger] files[j]).is_dir || files[j].path@ != p
                },
            false => forall|j: int|
                0 <= j < files.len() ==> (#[trigger] files[j]).is_dir || files[j].path@ != p,
        },
    decreases files.len(),
{
    if files.len() > 0 {
        let d = files.drop_last();
        let n = files.len() - 1;
        law_language_of_a_path(d, p);
        if !files[n].is_dir && files[n].path@ == p {
            assert(files[n].lang@ == lang_index(files)[p]);
        } else if lang_index(d).contains_key(p) {
            let i = choose|i: int|
                {
                    &&& 0 <= i < d.len()
                    &&& !(#[trigger] d[i]).is_dir
                    &&& d[i].path@ == p
                    &&& d[i].lang@ == lang_index(d)[p]
                    &&& forall|j: int|
                        i < j < d.len() ==> (#[trigger] d[j]).is_dir || d[j].path@ != p
                };
            assert(files[i] == d[i]);
            assert forall|j: int| i < j < files.len() implies (#[trigger] files[j]).is_dir
                || files[j].path@ != p by {
                if j < n {
                    assert(d[j] == files[j]);
                }
            }
        } else {
            assert forall|j: int| 0 <= j < files.len() implies (#[trigger] files[j]).is_dir
                || files[j].path@ != p by {
                if j < n {
                    assert(d[j] == files[j]);
                }
            }
        }
    }
}

/// Whether a file defines a function of a name.
pub open spec fn has_function(file: FileNode, name: Seq<char>) -> bool {
    &&& !file.is_dir
    &&& file.sa matches Some(sa)
    &&& sa.functions matches Some(fns)
    &&& exists|n: int| 0 <= n < fns@.len() && (#[trigger] fns@[n]).n@ == name
}

/// Whether a file defines a class of a name.
pub open spec fn has_class(file: FileNode, name: Seq<char>) -> bool {
    &&& !file.is_dir
    &&& file.sa matches Some(sa)
    &&& sa.cls matches Some(classes)
    &&& exists|n: int| 0 <= n < classes@.len() && (#[trigger] classes@[n]).n@ == name
}

/// A name is indexed under exactly the files that define a function, or a
/// class, of that name.
pub proof fn law_definitions_are_indexed(files: Seq<FileNode>, name: Seq<char>, p: Seq<char>)
    ensures
        entries(func_index(files), name).contains(p) <==> exists|i: int|
            0 <= i < files.len() && has_function(#[trigger] files[i], name) && files[i].path@ == p,
        entries(class_index(files), name).contains(p) <==> exists|i: int|
            0 <= i < files.len() && has_class(#[trigger] files[i], name) && files[i].path@ == p,
    decreases files.len(),
{
    if files.len() > 0 {
        let d = files.drop_last();
        let n = files.len() - 1;
        let file = files[n];
        law_definitions_are_indexed(d, name, p);
        lemma_func_names(file, name);
        lemma_class_names(file, name);
        if !file.is_dir {
            law_names_are_indexed(func_index(d), func_names(file), file.path@, name, p);
            law_names_are_indexed(class_index(d), class_names(file), file.path@, name, p);
        }
        if exists|i: int|
            0 <= i < d.len() && has_function(#[trigger] d[i], name) && d[i].path@ == p {
            let i = choose|i: int|
                0 <= i < d.len() && has_function(#[trigger] d[i], name) && d[i].path@ == p;
            assert(files[i] == d[i]);
        }
        if exists|i: int| 0 <= i < d.len() && has_class(#[trigger] d[i], name) && d[i].path@ == p {
            let i = choose|i: int|
                0 <= i < d.len() && has_class(#[trigger] d[i], name) && d[i].path@ == p;
            assert(files[i] == d[i]);
        }
        if exists|i: int|
            0 <= i < files.len() && has_function(#[trigger] files[i], name) && files[i].path@ == p {
            let i = choose|i: int|
                0 <= i < files.len() && has_function(#[trigger] files[i], name) && files[i].path@
                    == p;
            if i < n {
                assert(d[i] == files[i]);
            }
        }
        if exists|i: int|
            0 <= i < files.len() && has_class(#[trigger] files[i], name) && files[i].path@ == p {
            let i = choose|i: int|
                0 <= i < files.len() && has_class(#[trigger] files[i], name) && files[i].path@ == p;
            if i < n {
                assert(d[i] == files[i]);
            }
        }
    }
}

/// The function names of a file are those of its functions.
proof fn lemma_func_names(file: FileNode, name: Seq<char>)
    ensures
        !file.is_dir ==> (func_names(file).contains(name) <==> has_function(file, name)),
{
    let names = func_names(file);
    if names.contains(name) {
        let k = choose|k: int| 0 <= k < names.len() && names[k] == name;
        assert(functions_of(file)[k].n@ == name);
    }
    if has_function(file, name) {
        let fns = file.sa->Some_0.functions->Some_0;
        let k = choose|k: int| 0 <= k < fns@.len() && (#[trigger] fns@[k]).n@ == name;
        assert(names[k] == name);
    }
}

/// The class names of a file are those of its classes.
proof fn lemma_class_names(file: FileNode, name: Seq<char>)
    ensures
        !file.is_dir ==> (class_names(file).contains(name) <==> has_class(file, name)),
{
    let names = class_names(file);
    if names.contains(name) {
        let k = choose|k: int| 0 <= k < names.len() && names[k] == name;
        assert(classes_of(file)[k].n@ == name);
    }
    if has_class(file, name) {
        let classes = file.sa->Some_0.cls->Some_0;
        let k = choose|k: int| 0 <= k < classes@.len() && (#[trigger] classes@[k]).n@ == name;
        assert(names[k] == name);
    }
}

/// A file is indexed once for each of its definitions of a name, so that each
/// counts where definitions are limited.
pub proof fn law_each_definition_counts(files: Seq<FileNode>, file: FileNode, name: Seq<char>)
    ensures
        entries(func_index(files.push(file)), name).len() == entries(func_index(files), name).len()
            + (if file.is_dir || file.sa is None || file.sa->Some_0.functions is None {
            0
        } else {
            file.sa->Some_0.functions->Some_0@.filter(|f: FuncInfo| f.n@ == name).len()
        }),
        entries(class_index(files.push(file)), name).len() == entries(
            class_index(files),
            name,
        ).len() + (if file.is_dir || file.sa is None || file.sa->Some_0.cls is None {
            0
        } else {
            file.sa->Some_0.cls->Some_0@.filter(|c: ClassInfo| c.n@ == name).len()
        }),
{
    let more = files.push(file);
    assert(more.drop_last() =~= files);
    assert(more.last() == file);
    if !file.is_dir {
        law_names_are_counted(func_index(files), func_names(file), file.path@, name);
        law_names_are_counted(class_index(files), class_names(file), file.path@, name);
        let is_name = |n: Seq<char>| n == name;
        if file.sa is Some && file.sa->Some_0.functions is Some {
            let fns = file.sa->Some_0.functions->Some_0@;
            let p = |f: FuncInfo| f.n@ == name;
            lemma_filter_lengths(fns, func_names(file), p, is_name);
        } else {
            reveal(Seq::filter);
            assert(func_names(file) =~= Seq::<Seq<char>>::empty());
        }
        if file.sa is Some && file.sa->Some_0.cls is Some {
            let classes = file.sa->Some_0.cls->Some_0@;
            let p = |c: ClassInfo| c.n@ == name;
            lemma_filter_lengths(classes, class_names(file), p, is_name);
        } else {
            reveal(Seq::filter);
            assert(class_names(file) =~= Seq::<Seq<char>>::empty());
        }
    }
}

/// As many items are kept where the same positions are.
proof fn lemma_filter_lengths<A, B>(
    a: Seq<A>,
    b: Seq<B>,
    p: spec_fn(A) -> bool,
    q: spec_fn(B) -> bool,
)
    requires
        a.len() == b.len(),
        forall|i: int| 0 <= i < a.len() ==> p(#[trigger] a[i]) == q(b[i]),
    ensures
        a.filter(p).len() == b.filter(q).len(),
    decreases a.len(),
{
    reveal(Seq::filter);
    if a.len() > 0 {
        let c = a.drop_last();
        let d = b.drop_last();
        assert forall|i: int| 0 <= i < c.len() implies p(#[trigger] c[i]) == q(d[i]) by {
            assert(c[i] == a[i]);
        }
        lemma_filter_lengths(c, d, p, q);
        assert(p(a[a.len() - 1]) == q(b[b.len() - 1]));
    }
}

/// Whether a function of a file calls a name; outside of any function, where
/// `from` is empty, whether the file calls it.
pub open spec fn calls_name(file: FileNode, from: Seq<char>, name: Seq<char>) -> bool {
    file.sa matches Some(sa) && {
        ||| sa.functions matches Some(fns) && exists|j: int, k: int|
            {
                &&& 0 <= j < fns@.len()
                &&& fns@[j].n@ == from
                &&& fns@[j].co is Some
                &&& 0 <= k < fns@[j].co->Some_0@.len()
                &&& (#[trigger] fns@[j].co->Some_0@[k])@ == name
            }
        ||| sa.co matches Some(co) && from.len() == 0 && exists|k: int|
            0 <= k < co@.len() && (#[trigger] co@[k])@ == name
    }
}

/// The calls that are listed for a file are those that it makes.
proof fn lemma_listed_calls(file: FileNode, from: Seq<char>, name: Seq<char>)
    ensures
        calls_in(file).contains((from, name)) <==> calls_name(file, from, name),
{
    let fns = functions_of(file);
    let f = func_calls();
    let call = (from, name);
    let all = calls_in(file);
    let loose = match file.sa {
        Some(sa) => texts(sa.co),
        None => Seq::empty(),
    };
    let tail = Seq::new(loose.len(), |i: int| (Seq::<char>::empty(), loose[i]));
    let head = concat_map(fns, f);
    assert(all == head + tail);
    lemma_concat_map_member(fns, f, call);
    if all.contains(call) {
        let i = choose|i: int| 0 <= i < all.len() && all[i] == call;
        if i < head.len() {
            assert(head[i] == call);
            assert(head.contains(call));
            let j = choose|j: int| 0 <= j < fns.len() && f(#[trigger] fns[j]).contains(call);
            let part = f(fns[j]);
            let k = choose|k: int| 0 <= k < part.len() && part[k] == call;
            assert(fns[j].co->Some_0@[k]@ == name);
        } else {
            let k = i - head.len();
            assert(tail[k] == call);
            assert(file.sa->Some_0.co->Some_0@[k]@ == name);
            assert(from =~= Seq::<char>::empty());
        }
    }
    if calls_name(file, from, name) {
        let sa = file.sa->Some_0;
        if sa.functions is Some && exists|j: int, k: int|
            {
                &&& 0 <= j < fns.len()
                &&& fns[j].n@ == from
                &&& fns[j].co is Some
                &&& 0 <= k < fns[j].co->Some_0@.len()
                &&& (#[trigger] fns[j].co->Some_0@[k])@ == name
            } {
            let (j, k) = choose|j: int, k: int|
                {
                    &&& 0 <= j < fns.len()
                    &&& fns[j].n@ == from
                    &&& fns[j].co is Some
                    &&& 0 <= k < fns[j].co->Some_0@.len()
                    &&& (#[trigger] fns[j].co->Some_0@[k])@ == name
                };
            assert(f(fns[j])[k] == call);
            assert(head.contains(call));
            let i = choose|i: int| 0 <= i < head.len() && head[i] == call;
            assert(all[i] == call);
        } else {
            let co = sa.co->Some_0;
            let k = choose|k: int| 0 <= k < co@.len() && (#[trigger] co@[k])@ == name;
            assert(from =~= Seq::<char>::empty());
            assert(tail[k] == call);
            assert(all[head.len() + k] == call);
        }
    }
}

/// The files that a call may lead to: other files of the same language, which
/// the caller imports unless its language imports implicitly.
pub open spec fn callable(fr: CallFrame, path: Seq<char>) -> spec_fn(Seq<char>) -> bool {
    |t: Seq<char>|
        {
            &&& t != path
            &&& fr.langs.contains_key(t)
            &&& fr.langs[t] == fr.langs[path]
            &&& fr.implicit_langs.contains(fr.langs[path]) || (fr.import_targets.contains_key(path)
                && fr.import_targets[path].contains(t))
        }
}

/// Whether a call of a name from a file leads to another: to each file that
/// defines such a function and may be called, unless there are none or more of
/// them than allowed; then to each that defines such a class, unless there are
/// more of them than allowed.
pub open spec fn call_leads_to(
    fr: CallFrame,
    path: Seq<char>,
    name: Seq<char>,
    t: Seq<char>,
) -> bool {
    let funcs = entries(fr.funcs, name).filter(callable(fr, path));
    let classes = entries(fr.classes, name).filter(callable(fr, path));
    if 0 < funcs.len() <= fr.max_call_targets {
        funcs.contains(t)
    } else {
        classes.len() <= fr.max_call_targets && classes.contains(t)
    }
}

/// What a call resolves to, for a file that has a language.
proof fn lemma_call_leads_to(fr: CallFrame, file: FileNode, name: Seq<char>, t: Seq<char>)
    requires
        fr.langs.contains_key(file.path@),
        fr.langs[file.path@].len() > 0,
    ensures
        resolved_call(fr, file, name).contains(t) <==> call_leads_to(fr, file.path@, name, t),
{
    let path = file.path@;
    let src_lang = lang_or_empty(fr.langs, path);
    let reach = reachable(
        path,
        src_lang,
        fr.langs,
        targets_of(fr.import_targets, path),
        fr.implicit_langs.contains(src_lang),
    );
    assert(reach =~= callable(fr, path));
}

/// The call edges are exactly those that the calls of the files ask for: from
/// each file that has a language and is no directory, for each name that one of
/// its functions calls or that it calls outside of any, to each file that the
/// call leads to.
pub proof fn law_call_edges_are_complete(files: Seq<FileNode>, fr: CallFrame, e: CallArc)
    ensures
        sorted(concat_map(files, file_call_arcs(fr)), order::<CallEdge>()).contains(e)
            <==> exists|i: int|
            {
                &&& 0 <= i < files.len()
                &&& !(#[trigger] files[i]).is_dir
                &&& files[i].path@ == e.from_file
                &&& fr.langs.contains_key(e.from_file) && fr.langs[e.from_file].len() > 0
                &&& calls_name(files[i], e.from_func, e.to_func)
                &&& call_leads_to(fr, e.from_file, e.to_func, e.to_file)
            },
{
    let f = file_call_arcs(fr);
    let call = (e.from_func, e.to_func);
    lemma_sorted::<CallEdge>(concat_map(files, f));
    lemma_concat_map_member(files, f, e);
    assert forall|i: int| 0 <= i < files.len() implies (f(#[trigger] files[i]).contains(e) <==> {
        &&& !files[i].is_dir
        &&& files[i].path@ == e.from_file
        &&& fr.langs.contains_key(e.from_file) && fr.langs[e.from_file].len() > 0
        &&& calls_name(files[i], e.from_func, e.to_func)
        &&& call_leads_to(fr, e.from_file, e.to_func, e.to_file)
    }) by {
        let file = files[i];
        let calls = calls_in(file);
        let g = call_arcs(fr, file);
        lemma_concat_map_member(calls, g, e);
        lemma_listed_calls(file, e.from_func, e.to_func);
        let has_lang = fr.langs.contains_key(file.path@) && fr.langs[file.path@].len() > 0;
        if has_lang {
            lemma_call_leads_to(fr, file, e.to_func, e.to_file);
        }
        if f(file).contains(e) {
            assert(has_lang);
            let k = choose|k: int| 0 <= k < calls.len() && g(#[trigger] calls[k]).contains(e);
            let part = g(calls[k]);
            let n = choose|n: int| 0 <= n < part.len() && part[n] == e;
            assert(calls[k] == call);
            assert(resolved_call(fr, file, e.to_func)[n] == e.to_file);
        }
        if !file.is_dir && has_lang && file.path@ == e.from_file && calls_name(
            file,
            e.from_func,
            e.to_func,
        ) && call_leads_to(fr, e.from_file, e.to_func, e.to_file) {
            let k = choose|k: int| 0 <= k < calls.len() && calls[k] == call;
            let targets = resolved_call(fr, file, e.to_func);
            let n = choose|n: int| 0 <= n < targets.len() && targets[n] == e.to_file;
            assert(g(calls[k])[n] == e);
        }
    }
    if exists|i: int|
        {
            &&& 0 <= i < files.len()
            &&& !(#[trigger] files[i]).is_dir
            &&& files[i].path@ == e.from_file
            &&& fr.langs.contains_key(e.from_file) && fr.langs[e.from_file].len() > 0
            &&& calls_name(files[i], e.from_func, e.to_func)
            &&& call_leads_to(fr, e.from_file, e.to_func, e.to_file)
        } {
        let i = choose|i: int|
            {
                &&& 0 <= i < files.len()
                &&& !(#[trigger] files[i]).is_dir
                &&& files[i].path@ == e.from_file
                &&& fr.langs.contains_key(e.from_file) && fr.langs[e.from_file].len() > 0
                &&& calls_name(files[i], e.from_func, e.to_func)
                &&& call_leads_to(fr, e.from_file, e.to_func, e.to_file)
            };
        assert(f(files[i]).contains(e));
    }
}

/// In a scan every call is followed: where a function of a file calls a name,
/// and at most the allowed number of files that it may call define a function
/// of that name, there is an edge to each of them.
pub proof fn law_every_call_is_followed(
    files: Seq<FileNode>,
    imports: Seq<ImportArc>,
    implicit_langs: Set<Seq<char>>,
    max_call_targets: nat,
    i: int,
    j: int,
    k: int,
    m: int,
)
    requires
        0 <= i < files.len(),
        0 <= m < files.len(),
        !files[i].is_dir,
        files[i].sa is Some,
        files[i].sa->Some_0.functions is Some,
        0 <= j < files[i].sa->Some_0.functions->Some_0@.len(),
        files[i].sa->Some_0.functions->Some_0@[j].co is Some,
        0 <= k < files[i].sa->Some_0.functions->Some_0@[j].co->Some_0@.len(),
        ({
            let path = files[i].path@;
            let name = files[i].sa->Some_0.functions->Some_0@[j].co->Some_0@[k]@;
            let t = files[m].path@;
            let langs = lang_index(files);
            let arc = ImportArc { from_file: path, to_file: t };
            &&& langs.contains_key(path) && langs[path].len() > 0
            &&& has_function(files[m], name)
            &&& t != path
            &&& langs[t] == langs[path]
            &&& implicit_langs.contains(langs[path]) || imports.contains(arc)
            &&& entries(func_index(files), name).filter(
                |u: Seq<char>|
                    {
                        &&& u != path
                        &&& langs.contains_key(u) && langs[u] == langs[path]
                        &&& implicit_langs.contains(langs[path]) || imports.contains(
                            ImportArc { from_file: path, to_file: u },
                        )
                    },
            ).len() <= max_call_targets
        }),
    ensures
        ({
            let func = files[i].sa->Some_0.functions->Some_0@[j];
            sorted(
                concat_map(
                    files,
                    file_call_arcs(scan_calls(files, imports, implicit_langs, max_call_targets)),
                ),
                order::<CallEdge>(),
            ).contains(
                CallArc {
                    from_file: files[i].path@,
                    from_func: func.n@,
                    to_file: files[m].path@,
                    to_func: func.co->Some_0@[k]@,
                },
            )
        }),
{
    let fr = scan_calls(files, imports, implicit_langs, max_call_targets);
    let func = files[i].sa->Some_0.functions->Some_0@[j];
    let path = files[i].path@;
    let name = func.co->Some_0@[k]@;
    let t = files[m].path@;
    let langs = lang_index(files);
    let e = CallArc { from_file: path, from_func: func.n@, to_file: t, to_func: name };
    let reach = |u: Seq<char>|
        {
            &&& u != path
            &&& langs.contains_key(u) && langs[u] == langs[path]
            &&& implicit_langs.contains(langs[path]) || imports.contains(
                ImportArc { from_file: path, to_file: u },
            )
        };
    assert forall|u: Seq<char>| #[trigger] reach(u) == callable(fr, path)(u) by {
        law_index_tells_what_edges_tell(imports, path, u);
    }
    assert(reach =~= callable(fr, path));
    let defs = entries(func_index(files), name);
    law_definitions_are_indexed(files, name, t);
    law_language_of_a_path(files, t);
    assert(defs.contains(t));
    let n = choose|n: int| 0 <= n < defs.len() && defs[n] == t;
    assert(reach(defs[n]));
    lemma_filter_keeps(defs, reach, n);
    assert(files[i].sa->Some_0.functions->Some_0@[j].co->Some_0@[k]@ == name);
    law_call_edges_are_complete(files, fr, e);
    assert(calls_name(files[i], e.from_func, e.to_func));
    assert(call_leads_to(fr, path, name, t));
}

/// Each call is drawn by itself: the edges of a file are those of its first
/// calls, then those of the others, so that a name that is called twice is
/// drawn twice.
pub proof fn law_calls_are_drawn_one_by_one(
    fr: CallFrame,
    whole: FileNode,
    first: FileNode,
    second: FileNode,
)
    requires
        first.path@ == whole.path@,
        second.path@ == whole.path@,
        !whole.is_dir && !first.is_dir && !second.is_dir,
        whole.sa is Some && first.sa is Some && second.sa is Some,
        whole.sa->Some_0.functions is Some,
        first.sa->Some_0.functions is Some,
        second.sa->Some_0.functions is Some,
        whole.sa->Some_0.functions->Some_0@ == first.sa->Some_0.functions->Some_0@
            + second.sa->Some_0.functions->Some_0@,
        first.sa->Some_0.co is None,
        whole.sa->Some_0.co == second.sa->Some_0.co,
    ensures
        file_call_arcs(fr)(whole) == file_call_arcs(fr)(first) + file_call_arcs(fr)(second),
{
    let a = functions_of(first);
    let b = functions_of(second);
    let f = func_calls();
    lemma_concat_map_add(a, b, f);
    assert(functions_of(whole) == a + b);
    assert(calls_in(whole) =~= calls_in(first) + calls_in(second));
    let g = call_arcs(fr, whole);
    assert(call_arcs(fr, first) =~= g);
    assert(call_arcs(fr, second) =~= g);
    lemma_concat_map_add(calls_in(first), calls_in(second), g);
    assert(file_call_arcs(fr)(whole) =~= file_call_arcs(fr)(first) + file_call_arcs(fr)(second));
}

/// The edges of a file whose one function makes one call: one for each
/// definition that the call leads to.
pub proof fn law_edges_of_one_call(fr: CallFrame, file: FileNode, func: FuncInfo, name: Seq<char>)
    requires
        !file.is_dir,
        file.sa is Some,
        file.sa->Some_0.functions is Some,
        file.sa->Some_0.functions->Some_0@ == seq![func],
        file.sa->Some_0.co is None,
        func.co is Some,
        func.co->Some_0.deep_view() == seq![name],
        fr.langs.contains_key(file.path@),
        fr.langs[file.path@].len() > 0,
    ensures
        ({
            let funcs = entries(fr.funcs, name).filter(callable(fr, file.path@));
            let classes = entries(fr.classes, name).filter(callable(fr, file.path@));
            let n = if 0 < funcs.len() <= fr.max_call_targets {
                funcs.len()
            } else if classes.len() <= fr.max_call_targets {
                classes.len()
            } else {
                0
            };
            file_call_arcs(fr)(file).len() == n
        }),
{
    let f = func_calls();
    let g = call_arcs(fr, file);
    let call = (func.n@, name);
    let path = file.path@;
    let src_lang = lang_or_empty(fr.langs, path);
    let reach = reachable(
        path,
        src_lang,
        fr.langs,
        targets_of(fr.import_targets, path),
        fr.implicit_langs.contains(src_lang),
    );
    assert(reach =~= callable(fr, path));
    lemma_concat_map_one(func, f);
    assert(f(func) =~= seq![call]);
    assert(calls_in(file) =~= seq![call]);
    lemma_concat_map_one(call, g);
}

/// Whether a class of a file names a base.
pub open spec fn names_base(file: FileNode, child: Seq<char>, base: Seq<char>) -> bool {
    file.sa matches Some(sa) && sa.cls matches Some(classes) && exists|j: int, k: int|
        {
            &&& 0 <= j < classes@.len()
            &&& classes@[j].n@ == child
            &&& classes@[j].b is Some
            &&& 0 <= k < classes@[j].b->Some_0@.len()
            &&& (#[trigger] classes@[j].b->Some_0@[k])@ == base
        }
}

/// The inheritance edges are exactly those that the classes of the files ask
/// for: from each file that has a language and is no directory, for each base
/// that one of its classes names, to each other file of the same language that
/// it imports and that defines a class of that name.
pub proof fn law_inheritance_edges_are_complete(
    files: Seq<FileNode>,
    langs: Map<Seq<char>, Seq<char>>,
    classes: Map<Seq<char>, Seq<Seq<char>>>,
    import_targets: Map<Seq<char>, Set<Seq<char>>>,
    e: InheritArc,
)
    ensures
        sorted(
            concat_map(files, file_inherit_arcs(langs, classes, import_targets)),
            order::<InheritEdge>(),
        ).contains(e) <==> {
            &&& exists|i: int|
                {
                    &&& 0 <= i < files.len()
                    &&& !(#[trigger] files[i]).is_dir
                    &&& files[i].path@ == e.child_file
                    &&& names_base(files[i], e.child_class, e.parent_class)
                }
            &&& langs.contains_key(e.child_file) && langs[e.child_file].len() > 0
            &&& classes.contains_key(e.parent_class) && classes[e.parent_class].contains(
                e.parent_file,
            )
            &&& e.parent_file != e.child_file
            &&& langs.contains_key(e.parent_file) && langs[e.parent_file] == langs[e.child_file]
            &&& import_targets.contains_key(e.child_file) && import_targets[e.child_file].contains(
                e.parent_file,
            )
        },
{
    let f = file_inherit_arcs(langs, classes, import_targets);
    lemma_sorted::<InheritEdge>(concat_map(files, f));
    lemma_concat_map_member(files, f, e);
    assert forall|i: int| 0 <= i < files.len() implies (f(#[trigger] files[i]).contains(e) <==> {
        &&& !files[i].is_dir
        &&& files[i].path@ == e.child_file
        &&& names_base(files[i], e.child_class, e.parent_class)
        &&& langs.contains_key(e.child_file) && langs[e.child_file].len() > 0
        &&& classes.contains_key(e.parent_class) && classes[e.parent_class].contains(e.parent_file)
        &&& e.parent_file != e.child_file
        &&& langs.contains_key(e.parent_file) && langs[e.parent_file] == langs[e.child_file]
        &&& import_targets.contains_key(e.child_file) && import_targets[e.child_file].contains(
            e.parent_file,
        )
    }) by {
        lemma_file_inherits(files[i], langs, classes, import_targets, e);
    }
    if exists|i: int|
        {
            &&& 0 <= i < files.len()
            &&& !(#[trigger] files[i]).is_dir
            &&& files[i].path@ == e.child_file
            &&& names_base(files[i], e.child_class, e.parent_class)
        } {
        let i = choose|i: int|
            {
                &&& 0 <= i < files.len()
                &&& !(#[trigger] files[i]).is_dir
                &&& files[i].path@ == e.child_file
                &&& names_base(files[i], e.child_class, e.parent_class)
            };
        assert(f(files[i]).contains(e) || !(f(files[i]).contains(e)));
    }
}

/// The inheritance edges of one file.
proof fn lemma_file_inherits(
    file: FileNode,
    langs: Map<Seq<char>, Seq<char>>,
    classes: Map<Seq<char>, Seq<Seq<char>>>,
    import_targets: Map<Seq<char>, Set<Seq<char>>>,
    e: InheritArc,
)
    ensures
        file_inherit_arcs(langs, classes, import_targets)(file).contains(e) <==> {
            &&& !file.is_dir
            &&& file.path@ == e.child_file
            &&& names_base(file, e.child_class, e.parent_class)
            &&& langs.contains_key(e.child_file) && langs[e.child_file].len() > 0
            &&& classes.contains_key(e.parent_class) && classes[e.parent_class].contains(
                e.parent_file,
            )
            &&& e.parent_file != e.child_file
            &&& langs.contains_key(e.parent_file) && langs[e.parent_file] == langs[e.child_file]
            &&& import_targets.contains_key(e.child_file) && import_targets[e.child_file].contains(
                e.parent_file,
            )
        },
{
    let f = file_inherit_arcs(langs, classes, import_targets);
    let fr = frame_of(langs, classes, import_targets, file.path@);
    let all = classes_of(file);
    let g = class_arcs(fr);
    lemma_concat_map_member(all, g, e);
    if f(file).contains(e) {
        let j = choose|j: int| 0 <= j < all.len() && g(#[trigger] all[j]).contains(e);
        let bases = texts(all[j].b);
        let h = base_arcs(fr, all[j].n@);
        lemma_concat_map_member(bases, h, e);
        let k = choose|k: int| 0 <= k < bases.len() && h(#[trigger] bases[k]).contains(e);
        let part = h(bases[k]);
        let n = choose|n: int| 0 <= n < part.len() && part[n] == e;
        let defs = entries(fr.classes, bases[k]);
        lemma_filter_member(defs, fr.valid(), n);
        assert(defs.filter(fr.valid())[n] == e.parent_file);
        assert(file.sa->Some_0.cls->Some_0@[j].b->Some_0@[k]@ == e.parent_class);
        assert(fr.valid()(e.parent_file));
    }
    if !file.is_dir && file.path@ == e.child_file && names_base(file, e.child_class, e.parent_class)
        && langs.contains_key(e.child_file) && langs[e.child_file].len() > 0
        && classes.contains_key(e.parent_class) && classes[e.parent_class].contains(e.parent_file)
        && e.parent_file != e.child_file && langs.contains_key(e.parent_file)
        && langs[e.parent_file] == langs[e.child_file] && import_targets.contains_key(e.child_file)
        && import_targets[e.child_file].contains(e.parent_file) {
        let cls = file.sa->Some_0.cls->Some_0;
        let (j, k) = choose|j: int, k: int|
            {
                &&& 0 <= j < cls@.len()
                &&& cls@[j].n@ == e.child_class
                &&& cls@[j].b is Some
                &&& 0 <= k < cls@[j].b->Some_0@.len()
                &&& (#[trigger] cls@[j].b->Some_0@[k])@ == e.parent_class
            };
        assert(all[j] == cls@[j]);
        let bases = texts(all[j].b);
        let h = base_arcs(fr, all[j].n@);
        assert(bases[k] == e.parent_class);
        let defs = entries(fr.classes, bases[k]);
        let d = choose|d: int| 0 <= d < defs.len() && defs[d] == e.parent_file;
        assert(fr.valid()(defs[d]));
        lemma_filter_keeps(defs, fr.valid(), d);
        let parents = defs.filter(fr.valid());
        let n = choose|n: int| 0 <= n < parents.len() && parents[n] == e.parent_file;
        assert(h(bases[k])[n] == e);
        lemma_concat_map_member(bases, h, e);
        assert(g(all[j]).contains(e));
    }
}

/// In a scan every base is followed: where a class of a file names a base, and
/// another file of the same language that it imports defines a class of that
/// name, there is an edge to it.
pub proof fn law_every_base_is_followed(
    files: Seq<FileNode>,
    imports: Seq<ImportArc>,
    i: int,
    j: int,
    k: int,
    m: int,
)
    requires
        0 <= i < files.len(),
        0 <= m < files.len(),
        !files[i].is_dir,
        files[i].sa is Some,
        files[i].sa->Some_0.cls is Some,
        0 <= j < files[i].sa->Some_0.cls->Some_0@.len(),
        files[i].sa->Some_0.cls->Some_0@[j].b is Some,
        0 <= k < files[i].sa->Some_0.cls->Some_0@[j].b->Some_0@.len(),
        ({
            let path = files[i].path@;
            let base = files[i].sa->Some_0.cls->Some_0@[j].b->Some_0@[k]@;
            let t = files[m].path@;
            let langs = lang_index(files);
            &&& langs.contains_key(path) && langs[path].len() > 0
            &&& has_class(files[m], base)
            &&& t != path
            &&& langs[t] == langs[path]
            &&& imports.contains(ImportArc { from_file: path, to_file: t })
        }),
    ensures
        ({
            let class = files[i].sa->Some_0.cls->Some_0@[j];
            sorted(
                concat_map(files, scan_inherits(files, imports)),
                order::<InheritEdge>(),
            ).contains(
                InheritArc {
                    child_file: files[i].path@,
                    child_class: class.n@,
                    parent_file: files[m].path@,
                    parent_class: class.b->Some_0@[k]@,
                },
            )
        }),
{
    let class = files[i].sa->Some_0.cls->Some_0@[j];
    let path = files[i].path@;
    let t = files[m].path@;
    let base = class.b->Some_0@[k]@;
    let e = InheritArc {
        child_file: path,
        child_class: class.n@,
        parent_file: t,
        parent_class: base,
    };
    law_definitions_are_indexed(files, base, t);
    law_language_of_a_path(files, t);
    law_index_tells_what_edges_tell(imports, path, t);
    assert(files[i].sa->Some_0.cls->Some_0@[j].b->Some_0@[k]@ == base);
    assert(names_base(files[i], e.child_class, e.parent_class));
    law_inheritance_edges_are_complete(
        files,
        lang_index(files),
        class_index(files),
        import_index(imports),
        e,
    );
}

/// The bases of a file's classes are drawn class by class, and each of them by
/// itself.
pub proof fn law_bases_are_drawn_one_by_one(
    langs: Map<Seq<char>, Seq<char>>,
    classes: Map<Seq<char>, Seq<Seq<char>>>,
    import_targets: Map<Seq<char>, Set<Seq<char>>>,
    whole: FileNode,
    first: FileNode,
    second: FileNode,
)
    requires
        first.path@ == whole.path@,
        second.path@ == whole.path@,
        !whole.is_dir && !first.is_dir && !second.is_dir,
        whole.sa is Some && first.sa is Some && second.sa is Some,
        whole.sa->Some_0.cls is Some,
        first.sa->Some_0.cls is Some,
        second.sa->Some_0.cls is Some,
        whole.sa->Some_0.cls->Some_0@ == first.sa->Some_0.cls->Some_0@
            + second.sa->Some_0.cls->Some_0@,
    ensures
        ({
            let f = file_inherit_arcs(langs, classes, import_targets);
            f(whole) == f(first) + f(second)
        }),
{
    let f = file_inherit_arcs(langs, classes, import_targets);
    let g = class_arcs(frame_of(langs, classes, import_targets, whole.path@));
    lemma_concat_map_add(classes_of(first), classes_of(second), g);
    assert(f(whole) =~= f(first) + f(second));
}

/// Call edges come in the order of the calling file, the calling function, the
/// called file and the called name, inheritance edges likewise. Sorting neither
/// loses nor adds an edge.
pub proof fn law_edges_come_in_order(calls: Seq<CallArc>, inherits: Seq<InheritArc>)
    ensures
        ({
            let r = sorted(calls, order::<CallEdge>());
            &&& r.to_multiset() == calls.to_multiset()
            &&& forall|i: int, j: int|
                #![trigger r[i], r[j]]
                0 <= i < j < r.len() ==> {
                    ||| r[i].from_file != r[j].from_file && text_le(r[i].from_file, r[j].from_file)
                    ||| r[i].from_file == r[j].from_file && r[i].from_func != r[j].from_func
                        && text_le(r[i].from_func, r[j].from_func)
                    ||| r[i].from_file == r[j].from_file && r[i].from_func == r[j].from_func
                        && r[i].to_file != r[j].to_file && text_le(r[i].to_file, r[j].to_file)
                    ||| r[i].from_file == r[j].from_file && r[i].from_func == r[j].from_func
                        && r[i].to_file == r[j].to_file && text_le(r[i].to_func, r[j].to_func)
                }
        }),
        ({
            let r = sorted(inherits, order::<InheritEdge>());
            &&& r.to_multiset() == inherits.to_multiset()
            &&& forall|i: int, j: int|
                #![trigger r[i], r[j]]
                0 <= i < j < r.len() ==> {
                    ||| r[i].child_file != r[j].child_file && text_le(
                        r[i].child_file,
                        r[j].child_file,
                    )
                    ||| r[i].child_file == r[j].child_file && r[i].child_class != r[j].child_class
                        && text_le(r[i].child_class, r[j].child_class)
                    ||| r[i].child_file == r[j].child_file && r[i].child_class == r[j].child_class
                        && r[i].parent_file != r[j].parent_file && text_le(
                        r[i].parent_file,
                        r[j].parent_file,
                    )
                    ||| r[i].child_file == r[j].child_file && r[i].child_class == r[j].child_class
                        && r[i].parent_file == r[j].parent_file && text_le(
                        r[i].parent_class,
                        r[j].parent_class,
                    )
                }
        }),
{
    lemma_sorted::<CallEdge>(calls);
    lemma_sorted::<InheritEdge>(inherits);
    let c = sorted(calls, order::<CallEdge>());
    let le = order::<CallEdge>();
    assert forall|i: int, j: int|
        #![trigger c[i], c[j]]
        0 <= i < j < c.len() implies {
        ||| c[i].from_file != c[j].from_file && text_le(c[i].from_file, c[j].from_file)
        ||| c[i].from_file == c[j].from_file && c[i].from_func != c[j].from_func && text_le(
            c[i].from_func,
            c[j].from_func,
        )
        ||| c[i].from_file == c[j].from_file && c[i].from_func == c[j].from_func && c[i].to_file
            != c[j].to_file && text_le(c[i].to_file, c[j].to_file)
        ||| c[i].from_file == c[j].from_file && c[i].from_func == c[j].from_func && c[i].to_file
            == c[j].to_file && text_le(c[i].to_func, c[j].to_func)
    } by {
        assert(le(c[i], c[j]));
        law_order_of_rows(
            c[i].from_file,
            c[i].from_func,
            c[i].to_file,
            c[i].to_func,
            c[j].from_file,
            c[j].from_func,
            c[j].to_file,
            c[j].to_func,
        );
    }
    let h = sorted(inherits, order::<InheritEdge>());
    let le2 = order::<InheritEdge>();
    assert forall|i: int, j: int|
        #![trigger h[i], h[j]]
        0 <= i < j < h.len() implies {
        ||| h[i].child_file != h[j].child_file && text_le(h[i].child_file, h[j].child_file)
        ||| h[i].child_file == h[j].child_file && h[i].child_class != h[j].child_class && text_le(
            h[i].child_class,
            h[j].child_class,
        )
        ||| h[i].child_file == h[j].child_file && h[i].child_class == h[j].child_class
            && h[i].parent_file != h[j].parent_file && text_le(h[i].parent_file, h[j].parent_file)
        ||| h[i].child_file == h[j].child_file && h[i].child_class == h[j].child_class
            && h[i].parent_file == h[j].parent_file && text_le(h[i].parent_class, h[j].parent_class)
    } by {
        assert(le2(h[i], h[j]));
        law_order_of_rows(
            h[i].child_file,
            h[i].child_class,
            h[i].parent_file,
            h[i].parent_class,
            h[j].child_file,
            h[j].child_class,
            h[j].parent_file,
            h[j].parent_class,
        );
    }
}

/// The frame of a scan holds what the files and the import edges tell.
pub proof fn law_frame_of_a_scan(
    files: Seq<FileNode>,
    imports: Seq<ImportArc>,
    implicit_langs: Set<Seq<char>>,
    max_call_targets: nat,
)
    ensures
        ({
            let fr = scan_calls(files, imports, implicit_langs, max_call_targets);
            &&& fr.langs == lang_index(files)
            &&& fr.funcs == func_index(files)
            &&& fr.classes == class_index(files)
            &&& fr.import_targets == import_index(imports)
            &&& fr.implicit_langs == implicit_langs
            &&& fr.max_call_targets == max_call_targets
        }),
        scan_inherits(files, imports) == file_inherit_arcs(
            lang_index(files),
            class_index(files),
            import_index(imports),
        ),
{
}

/// The index of imports holds each importing file with the set of the files
/// that it imports.
pub proof fn law_imports_are_indexed(edges: Seq<ImportArc>, from: Seq<char>, to: Seq<char>)
    ensures
        import_index(edges).contains_key(from) <==> exists|i: int|
            0 <= i < edges.len() && (#[trigger] edges[i]).from_file == from,
        import_index(edges).contains_key(from) ==> (import_index(edges)[from].contains(to)
            <==> edges.contains(ImportArc { from_file: from, to_file: to })),
{
}

/// Entry points are looked for in every file that is no directory, and come in
/// the order of the files.
pub proof fn law_entry_points_of_every_file<E, D: Fn(&FileNode) -> Vec<E>>(
    files: Seq<FileNode>,
    detect: D,
    out: Seq<E>,
    found_in: spec_fn(FileNode) -> Seq<E>,
)
    requires
        detected(files, detect, out),
        forall|file: FileNode, found: Vec<E>| #[trigger]
            call_ensures(detect, (&file,), found) ==> found@ == found_in(file),
    ensures
        out == concat_map(
            files,
            |file: FileNode|
                if file.is_dir {
                    Seq::empty()
                } else {
                    found_in(file)
                },
        ),
    decreases files.len(),
{
    let f = |file: FileNode|
        if file.is_dir {
            Seq::empty()
        } else {
            found_in(file)
        };
    if files.len() == 0 {
        assert(out =~= concat_map(files, f));
    } else if files.last().is_dir {
        law_entry_points_of_every_file(files.drop_last(), detect, out, found_in);
        assert(out =~= concat_map(files, f));
    } else {
        let found = choose|found: Vec<E>|
            {
                &&& #[trigger] call_ensures(detect, (&files.last(),), found)
                &&& found@.is_suffix_of(out)
                &&& detected(files.drop_last(), detect, out.take(out.len() - found@.len()))
            };
        let head = out.take(out.len() - found@.len());
        law_entry_points_of_every_file(files.drop_last(), detect, head, found_in);
        assert(out.subrange(out.len() - found@.len(), out.len() as int) == found@);
        assert(out =~= head + found@);
    }
}

/// A call may lead to another file of the caller's language, where the caller
/// imports it or modules see each other implicitly. A file without a language
/// counts as one whose language is the empty text. A class may extend those that
/// its file imports.
pub proof fn law_what_may_be_reached(
    path: Seq<char>,
    src_lang: Seq<char>,
    langs: Map<Seq<char>, Seq<char>>,
    targets: Option<Set<Seq<char>>>,
    implicit: bool,
    t: Seq<char>,
)
    ensures
        ({
            let alike = if langs.contains_key(t) {
                langs[t] == src_lang
            } else {
                src_lang.len() == 0
            };
            let imports = targets is Some && targets->Some_0.contains(t);
            &&& reachable(path, src_lang, langs, targets, implicit)(t) <==> t != path && alike && (
            implicit || imports)
            &&& inheritable(path, src_lang, langs, targets)(t) <==> t != path && alike && imports
        }),
{
    if src_lang.len() == 0 {
        assert(src_lang =~= Seq::<char>::empty());
    }
}

/// All definitions that may be reached are targets, in order, unless there are
/// more of them than allowed; then there are none.
pub proof fn law_targets_are_limited(
    defs: Seq<Seq<char>>,
    reach: spec_fn(Seq<char>) -> bool,
    max_call_targets: nat,
)
    ensures
        defs.filter(reach).len() <= max_call_targets ==> call_targets(defs, reach, max_call_targets)
            == defs.filter(reach),
        defs.filter(reach).len() > max_call_targets ==> call_targets(
            defs,
            reach,
            max_call_targets,
        ).len() == 0,
{
}

/// The bases of a class are drawn one after the other; each gives an edge to
/// every file that defines it and may be extended.
pub proof fn law_bases_of_a_class(
    fr: InheritFrame,
    whole: ClassInfo,
    first: ClassInfo,
    last: ClassInfo,
    i: int,
)
    requires
        first.n@ == whole.n@,
        last.n@ == whole.n@,
        whole.b is Some && first.b is Some && last.b is Some,
        last.b->Some_0@.len() == 1,
        whole.b->Some_0@ == first.b->Some_0@ + last.b->Some_0@,
    ensures
        ({
            let base = last.b->Some_0@[0]@;
            let parents = entries(fr.classes, base).filter(
                inheritable(fr.file_path, fr.src_lang, fr.langs, fr.targets),
            );
            let before = class_arcs(fr)(first);
            let all = class_arcs(fr)(whole);
            &&& before.is_prefix_of(all)
            &&& all.len() == before.len() + parents.len()
            &&& 0 <= i < parents.len() ==> all[before.len() + i] == InheritArc {
                child_file: fr.file_path,
                child_class: whole.n@,
                parent_file: parents[i],
                parent_class: base,
            }
        }),
{
    let f = base_arcs(fr, whole.n@);
    let a = texts(first.b);
    let b = texts(last.b);
    assert(texts(whole.b) =~= a + b);
    assert(b =~= seq![last.b->Some_0@[0]@]);
    lemma_concat_map_add(a, b, f);
    lemma_concat_map_one(b[0], f);
    let before = class_arcs(fr)(first);
    let all = class_arcs(fr)(whole);
    assert(all.subrange(0, before.len() as int) =~= before);
}

/// The calls outside of any function are drawn one by one too, behind those of
/// the functions.
pub proof fn law_loose_calls_are_drawn_one_by_one(
    fr: CallFrame,
    whole: FileNode,
    first: FileNode,
    second: FileNode,
)
    requires
        first.path@ == whole.path@,
        second.path@ == whole.path@,
        !whole.is_dir && !first.is_dir && !second.is_dir,
        whole.sa is Some && first.sa is Some && second.sa is Some,
        whole.sa->Some_0.functions == first.sa->Some_0.functions,
        second.sa->Some_0.functions is None,
        whole.sa->Some_0.co is Some,
        first.sa->Some_0.co is Some,
        second.sa->Some_0.co is Some,
        whole.sa->Some_0.co->Some_0@ == first.sa->Some_0.co->Some_0@
            + second.sa->Some_0.co->Some_0@,
    ensures
        file_call_arcs(fr)(whole) == file_call_arcs(fr)(first) + file_call_arcs(fr)(second),
{
    assert(functions_of(second) =~= Seq::<FuncInfo>::empty());
    assert(calls_in(whole) =~= calls_in(first) + calls_in(second));
    let g = call_arcs(fr, whole);
    assert(call_arcs(fr, first) =~= g);
    assert(call_arcs(fr, second) =~= g);
    lemma_concat_map_add(calls_in(first), calls_in(second), g);
    assert(file_call_arcs(fr)(whole) =~= file_call_arcs(fr)(first) + file_call_arcs(fr)(second));
}

} // verus!
