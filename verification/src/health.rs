//! The health report: quality scores, the weakest of their causes, and what
//! to look at.

use vstd::prelude::*;

use crate::document::{
    as_json, child, descend, json_pretty, law_first_entry_of_a_key_counts,
    law_keys_are_followed_in_order, tree_of, write_json, Node, Tree,
};
use crate::quality::{
    failed_scan, no_directory, refuse_path, scan_failed, Begun, ScanStep,
};
use crate::report::{out, Ended, Exit, Line, Said};
use crate::text::{decimal, decimal_of};

verus! {

// ---------------------------------------------------------------------------
// Root causes
// ---------------------------------------------------------------------------

/// A value for each root cause of quality.
#[derive(Debug, PartialEq, Eq)]
pub struct RootCauses<T> {
    /// How well the graph falls into modules.
    pub modularity: T,
    /// How free of cycles it is.
    pub acyclicity: T,
    /// How short its chains are.
    pub depth: T,
    /// How evenly complexity is spread.
    pub equality: T,
    /// How little of the code is redundant.
    pub redundancy: T,
}

/// The names of the root causes, in the order of reporting.
pub open spec fn cause_names() -> Seq<Seq<char>> {
    seq!["modularity"@, "acyclicity"@, "depth"@, "equality"@, "redundancy"@]
}

/// The ranks of the root causes, in the order of reporting.
pub open spec fn cause_ranks(ranks: RootCauses<i64>) -> Seq<int> {
    seq![
        ranks.modularity as int,
        ranks.acyclicity as int,
        ranks.depth as int,
        ranks.equality as int,
        ranks.redundancy as int,
    ]
}

/// The position of the first minimum.
pub open spec fn first_min(s: Seq<int>) -> int
    recommends
        s.len() > 0,
    decreases s.len(),
{
    if s.len() <= 1 {
        0
    } else {
        let k = first_min(s.drop_last());
        if s.last() < s[k] {
            s.len() - 1
        } else {
            k
        }
    }
}

/// The weakest root cause, where improvement should start. Causes are compared
/// by ranks, integers that are ordered as the scores are; of equally weak ones
/// the first is taken.
pub fn bottleneck(ranks: &RootCauses<i64>) -> (r: &'static str)
    ensures
        r@ == cause_names()[first_min(cause_ranks(*ranks))],
{
    let mut least: i64 = ranks.modularity;
    let mut name = "modularity";
    let ghost all = cause_ranks(*ranks);
    proof {
        reveal_with_fuel(first_min, 5);
        assert(all.take(1).drop_last() =~= all.take(0));
        assert(all.take(2).drop_last() =~= all.take(1));
        assert(all.take(3).drop_last() =~= all.take(2));
        assert(all.take(4).drop_last() =~= all.take(3));
        assert(all.take(5).drop_last() =~= all.take(4));
        assert(all.take(5) =~= all);
    }
    assert(first_min(all.take(1)) == 0);
    if ranks.acyclicity < least {
        least = ranks.acyclicity;
        name = "acyclicity";
    }
    assert(name@ == cause_names()[first_min(all.take(2))]);
    assert(least == all[first_min(all.take(2))]);
    if ranks.depth < least {
        least = ranks.depth;
        name = "depth";
    }
    assert(name@ == cause_names()[first_min(all.take(3))]);
    assert(least == all[first_min(all.take(3))]);
    if ranks.equality < least {
        least = ranks.equality;
        name = "equality";
    }
    assert(name@ == cause_names()[first_min(all.take(4))]);
    assert(least == all[first_min(all.take(4))]);
    if ranks.redundancy < least {
        name = "redundancy";
    }
    name
}

/// The first minimum is a minimum, and nothing before it is as small.
pub proof fn law_bottleneck_is_the_first_minimum(s: Seq<int>)
    requires
        s.len() > 0,
    ensures
        0 <= first_min(s) < s.len(),
        forall|i: int| 0 <= i < s.len() ==> s[first_min(s)] <= #[trigger] s[i],
        forall|i: int| 0 <= i < first_min(s) ==> s[first_min(s)] < #[trigger] s[i],
    decreases s.len(),
{
    if s.len() > 1 {
        let d = s.drop_last();
        law_bottleneck_is_the_first_minimum(d);
        let k = first_min(d);
        assert(d[k] == s[k]);
        assert forall|i: int| 0 <= i < s.len() implies s[first_min(s)] <= #[trigger] s[i] by {
            if i < d.len() {
                assert(d[k] <= d[i]);
            }
        }
        assert forall|i: int| 0 <= i < first_min(s) implies s[first_min(s)] < #[trigger] s[i] by {
            if s.last() < s[k] {
                assert(d[k] <= d[i]);
            } else {
                assert(d[k] < d[i]);
            }
        }
    }
}

// ---------------------------------------------------------------------------
// Documents
// ---------------------------------------------------------------------------

/// An entry of a table.
pub open spec fn field(key: Seq<char>, value: Tree) -> (Tree, Tree) {
    (Tree::Text(key), value)
}

/// A count as a document holds it.
pub open spec fn count(n: nat) -> Tree {
    Tree::Number(decimal_of(n))
}

/// Makes an entry of a table.
fn entry(key: &str, value: Node) -> (r: (Node, Node))
    ensures
        (tree_of(r.0), tree_of(r.1)) == field(key@, tree_of(value)),
{
    (Node::Text(key.to_owned()), value)
}

/// Makes a node of a count.
fn count_node(n: u64) -> (r: Node)
    ensures
        tree_of(r) == count(n as nat),
{
    Node::Number(decimal(n))
}

/// Makes a node of a text.
fn text_node(s: &str) -> (r: Node)
    ensures
        tree_of(r) == Tree::Text(s@),
{
    Node::Text(s.to_owned())
}

/// Makes a node of a number as it is written.
fn number_node(s: &str) -> (r: Node)
    ensures
        tree_of(r) == Tree::Number(s@),
{
    Node::Number(s.to_owned())
}

/// The entries of a table as trees.
pub open spec fn rows(entries: Seq<(Node, Node)>) -> Seq<(Tree, Tree)> {
    Seq::new(entries.len(), |i: int| (tree_of(entries[i].0), tree_of(entries[i].1)))
}

/// The items of a list as trees.
pub open spec fn items(nodes: Seq<Node>) -> Seq<Tree> {
    Seq::new(nodes.len(), |i: int| tree_of(nodes[i]))
}

/// Makes a table of its entries.
fn table_node(entries: Vec<(Node, Node)>) -> (r: Node)
    ensures
        tree_of(r) == Tree::Table(rows(entries@)),
{
    let r = Node::Table(entries);
    assert(tree_of(r)->Table_0 =~= rows(entries@));
    r
}

/// Makes a list of its items.
fn list_node(nodes: Vec<Node>) -> (r: Node)
    ensures
        tree_of(r) == Tree::List(items(nodes@)),
{
    let r = Node::List(nodes);
    assert(tree_of(r)->List_0 =~= items(nodes@));
    r
}

// ---------------------------------------------------------------------------
// Diagnostics
// ---------------------------------------------------------------------------

/// A figure of a file.
#[derive(Debug, PartialEq, Eq)]
pub struct FileMetric {
    /// The file.
    pub path: String,
    /// The figure.
    pub value: u64,
}

/// A figure of a function.
#[derive(Debug, PartialEq, Eq)]
pub struct FuncMetric {
    /// The file of the function.
    pub file: String,
    /// The function.
    pub func: String,
    /// The figure.
    pub value: u64,
}

/// How unstable a file is.
#[derive(Debug, PartialEq, Eq)]
pub struct Instability {
    /// The file.
    pub path: String,
    /// The instability, as it is written.
    pub instability: String,
    /// How many files depend on it.
    pub fan_in: u64,
    /// How many files it depends on.
    pub fan_out: u64,
}

/// What to look at, cause by cause.
#[derive(Debug, PartialEq, Eq)]
pub struct Diagnostics {
    pub god_files: Vec<FileMetric>,
    pub hotspot_files: Vec<FileMetric>,
    pub most_unstable: Vec<Instability>,
    pub cycles: Vec<Vec<String>>,
    pub max_depth: u64,
    pub complex_functions: Vec<FuncMetric>,
    pub cog_complex_functions: Vec<FuncMetric>,
    pub long_functions: Vec<FuncMetric>,
    pub long_files: Vec<FileMetric>,
    pub high_param_functions: Vec<FuncMetric>,
    pub dead_functions: Vec<FuncMetric>,
    pub duplicate_groups: Vec<Vec<FuncMetric>>,
}

/// The figure of a file, under a key of its own.
pub open spec fn file_item(key: Seq<char>) -> spec_fn(FileMetric) -> Tree {
    |m: FileMetric|
        Tree::Table(seq![field("path"@, Tree::Text(m.path@)), field(key, count(m.value as nat))])
}

/// The figure of a function, under a key of its own.
pub open spec fn func_item(key: Seq<char>) -> spec_fn(FuncMetric) -> Tree {
    |m: FuncMetric|
        Tree::Table(
            seq![
                field("file"@, Tree::Text(m.file@)),
                field("func"@, Tree::Text(m.func@)),
                field(key, count(m.value as nat)),
            ],
        )
}

/// The instability of a file.
pub open spec fn unstable_item() -> spec_fn(Instability) -> Tree {
    |m: Instability|
        Tree::Table(
            seq![
                field("path"@, Tree::Text(m.path@)),
                field("instability"@, Tree::Number(m.instability@)),
                field("fan_in"@, count(m.fan_in as nat)),
                field("fan_out"@, count(m.fan_out as nat)),
            ],
        )
}

/// A text as a document holds it.
pub open spec fn text_item() -> spec_fn(String) -> Tree {
    |t: String| Tree::Text(t@)
}

/// The files of a cycle.
pub open spec fn cycle_item() -> spec_fn(Vec<String>) -> Tree {
    |cycle: Vec<String>| first_items(cycle@, cycle@.len(), text_item())
}

/// A group of functions with the same body.
pub open spec fn group_item() -> spec_fn(Vec<FuncMetric>) -> Tree {
    |group: Vec<FuncMetric>|
        Tree::Table(
            seq![
                field("instances"@, first_items(group@, group@.len(), func_item("lines"@))),
            ],
        )
}

/// A list of the first `limit` items.
pub open spec fn first_items<T>(s: Seq<T>, limit: nat, f: spec_fn(T) -> Tree) -> Tree {
    Tree::List(Seq::new(if s.len() <= limit { s.len() } else { limit }, |i: int| f(s[i])))
}

/// Makes a list of the first `limit` items, with a function that makes each.
fn list_first<T, F: Fn(&T) -> Node>(
    s: &Vec<T>,
    limit: usize,
    make: F,
    Ghost(f): Ghost<spec_fn(T) -> Tree>,
) -> (r: Node)
    requires
        forall|x: &T| #[trigger] call_requires(make, (x,)),
        forall|x: &T, n: Node| #[trigger] call_ensures(make, (x,), n) ==> tree_of(n) == f(*x),
    ensures
        tree_of(r) == first_items(s@, limit as nat, f),
{
    let mut nodes: Vec<Node> = Vec::new();
    let mut i: usize = 0;
    while i < s.len() && i < limit
        invariant
            i <= s@.len(),
            i <= limit,
            forall|x: &T| #[trigger] call_requires(make, (x,)),
            forall|x: &T, n: Node| #[trigger] call_ensures(make, (x,), n) ==> tree_of(n) == f(*x),
            nodes@.len() == i,
            forall|k: int| 0 <= k < i ==> tree_of(#[trigger] nodes@[k]) == f(s@[k]),
        decreases s@.len() - i,
    {
        let node = make(&s[i]);
        nodes.push(node);
        i += 1;
    }
    assert(items(nodes@) =~= first_items(s@, limit as nat, f)->List_0);
    list_node(nodes)
}

/// Makes a list of figures of files.
fn file_list(s: &Vec<FileMetric>, limit: usize, key: &str) -> (r: Node)
    ensures
        tree_of(r) == first_items(s@, limit as nat, file_item(key@)),
{
    let make = |m: &FileMetric| -> (n: Node)
        ensures
            tree_of(n) == file_item(key@)(*m),
        {
            let entries = vec![
                entry("path", text_node(&m.path)),
                entry(key, count_node(m.value)),
            ];
            assert(rows(entries@) =~= seq![
                field("path"@, Tree::Text(m.path@)),
                field(key@, count(m.value as nat)),
            ]);
            table_node(entries)
        };
    list_first(s, limit, make, Ghost(file_item(key@)))
}

/// Makes a list of figures of functions.
fn func_list(s: &Vec<FuncMetric>, limit: usize, key: &str) -> (r: Node)
    ensures
        tree_of(r) == first_items(s@, limit as nat, func_item(key@)),
{
    let make = |m: &FuncMetric| -> (n: Node)
        ensures
            tree_of(n) == func_item(key@)(*m),
        {
            let entries = vec![
                entry("file", text_node(&m.file)),
                entry("func", text_node(&m.func)),
                entry(key, count_node(m.value)),
            ];
            assert(rows(entries@) =~= seq![
                field("file"@, Tree::Text(m.file@)),
                field("func"@, Tree::Text(m.func@)),
                field(key@, count(m.value as nat)),
            ]);
            table_node(entries)
        };
    list_first(s, limit, make, Ghost(func_item(key@)))
}

/// Makes a list of unstable files.
fn unstable_list(s: &Vec<Instability>, limit: usize) -> (r: Node)
    ensures
        tree_of(r) == first_items(s@, limit as nat, unstable_item()),
{
    let make = |m: &Instability| -> (n: Node)
        ensures
            tree_of(n) == unstable_item()(*m),
        {
            let entries = vec![
                entry("path", text_node(&m.path)),
                entry("instability", number_node(&m.instability)),
                entry("fan_in", count_node(m.fan_in)),
                entry("fan_out", count_node(m.fan_out)),
            ];
            assert(rows(entries@) =~= seq![
                field("path"@, Tree::Text(m.path@)),
                field("instability"@, Tree::Number(m.instability@)),
                field("fan_in"@, count(m.fan_in as nat)),
                field("fan_out"@, count(m.fan_out as nat)),
            ]);
            table_node(entries)
        };
    list_first(s, limit, make, Ghost(unstable_item()))
}

/// Makes a list of texts.
fn text_list(s: &Vec<String>) -> (r: Node)
    ensures
        tree_of(r) == first_items(s@, s@.len(), text_item()),
{
    let make = |t: &String| -> (n: Node)
        ensures
            tree_of(n) == text_item()(*t),
        {
            text_node(t)
        };
    list_first(s, s.len(), make, Ghost(text_item()))
}

/// Makes a list of cycles.
fn cycle_list(s: &Vec<Vec<String>>) -> (r: Node)
    ensures
        tree_of(r) == first_items(s@, s@.len(), cycle_item()),
{
    let make = |cycle: &Vec<String>| -> (n: Node)
        ensures
            tree_of(n) == cycle_item()(*cycle),
        {
            text_list(cycle)
        };
    list_first(s, s.len(), make, Ghost(cycle_item()))
}

/// Makes a list of groups of functions with the same body.
fn group_list(s: &Vec<Vec<FuncMetric>>, limit: usize) -> (r: Node)
    ensures
        tree_of(r) == first_items(s@, limit as nat, group_item()),
{
    let make = |group: &Vec<FuncMetric>| -> (n: Node)
        ensures
            tree_of(n) == group_item()(*group),
        {
            let entries = vec![entry("instances", func_list(group, group.len(), "lines"))];
            assert(rows(entries@) =~= seq![
                field("instances"@, first_items(group@, group@.len(), func_item("lines"@))),
            ]);
            table_node(entries)
        };
    list_first(s, limit, make, Ghost(group_item()))
}

/// What to look at for modularity: all god files and hotspots, and the ten
/// most unstable files.
pub open spec fn modularity_tree(d: Diagnostics) -> Tree {
    Tree::Table(
        seq![
            field(
                "god_files"@,
                first_items(d.god_files@, d.god_files@.len(), file_item("fan_out"@)),
            ),
            field(
                "hotspot_files"@,
                first_items(d.hotspot_files@, d.hotspot_files@.len(), file_item("fan_in"@)),
            ),
            field("most_unstable"@, first_items(d.most_unstable@, 10, unstable_item())),
        ],
    )
}

/// What to look at for equality: the first few of each kind of outlier.
pub open spec fn equality_tree(d: Diagnostics) -> Tree {
    Tree::Table(
        seq![
            field("complex_functions"@, first_items(d.complex_functions@, 20, func_item("cc"@))),
            field(
                "cog_complex_functions"@,
                first_items(d.cog_complex_functions@, 20, func_item("cog"@)),
            ),
            field("long_functions"@, first_items(d.long_functions@, 20, func_item("lines"@))),
            field("large_files"@, first_items(d.long_files@, 10, file_item("lines"@))),
            field(
                "high_param_functions"@,
                first_items(d.high_param_functions@, 20, func_item("params"@)),
            ),
        ],
    )
}

/// What to look at for redundancy: the first few dead and duplicate functions.
pub open spec fn redundancy_tree(d: Diagnostics) -> Tree {
    Tree::Table(
        seq![
            field("dead_functions"@, first_items(d.dead_functions@, 50, func_item("lines"@))),
            field("duplicate_groups"@, first_items(d.duplicate_groups@, 20, group_item())),
        ],
    )
}

/// What to look at, cause by cause.
pub open spec fn diagnostics_tree(d: Diagnostics) -> Tree {
    Tree::Table(
        seq![
            field("modularity"@, modularity_tree(d)),
            field(
                "acyclicity"@,
                Tree::Table(
                    seq![field("cycles"@, first_items(d.cycles@, d.cycles@.len(), cycle_item()))],
                ),
            ),
            field("depth"@, Tree::Table(seq![field("max_depth"@, count(d.max_depth as nat))])),
            field("equality"@, equality_tree(d)),
            field("redundancy"@, redundancy_tree(d)),
        ],
    )
}

/// Tells what to look at for modularity.
fn tell_modularity(d: &Diagnostics) -> (r: Node)
    ensures
        tree_of(r) == modularity_tree(*d),
{
    let entries = vec![
        entry("god_files", file_list(&d.god_files, d.god_files.len(), "fan_out")),
        entry("hotspot_files", file_list(&d.hotspot_files, d.hotspot_files.len(), "fan_in")),
        entry("most_unstable", unstable_list(&d.most_unstable, 10)),
    ];
    assert(rows(entries@) =~= modularity_tree(*d)->Table_0);
    table_node(entries)
}

/// Tells what to look at for equality.
fn tell_equality(d: &Diagnostics) -> (r: Node)
    ensures
        tree_of(r) == equality_tree(*d),
{
    let entries = vec![
        entry("complex_functions", func_list(&d.complex_functions, 20, "cc")),
        entry("cog_complex_functions", func_list(&d.cog_complex_functions, 20, "cog")),
        entry("long_functions", func_list(&d.long_functions, 20, "lines")),
        entry("large_files", file_list(&d.long_files, 10, "lines")),
        entry("high_param_functions", func_list(&d.high_param_functions, 20, "params")),
    ];
    assert(rows(entries@) =~= equality_tree(*d)->Table_0);
    table_node(entries)
}

/// Tells what to look at for redundancy.
fn tell_redundancy(d: &Diagnostics) -> (r: Node)
    ensures
        tree_of(r) == redundancy_tree(*d),
{
    let entries = vec![
        entry("dead_functions", func_list(&d.dead_functions, 50, "lines")),
        entry("duplicate_groups", group_list(&d.duplicate_groups, 20)),
    ];
    assert(rows(entries@) =~= redundancy_tree(*d)->Table_0);
    table_node(entries)
}

/// Makes a table of one entry.
fn single(key: &str, value: Node) -> (r: Node)
    ensures
        tree_of(r) == Tree::Table(seq![field(key@, tree_of(value))]),
{
    let ghost tree = tree_of(value);
    let entries = vec![entry(key, value)];
    assert(rows(entries@) =~= seq![field(key@, tree)]);
    table_node(entries)
}

/// Tells what to look at.
pub fn diagnostics_node(d: &Diagnostics) -> (r: Node)
    ensures
        tree_of(r) == diagnostics_tree(*d),
{
    let entries = vec![
        entry("modularity", tell_modularity(d)),
        entry("acyclicity", single("cycles", cycle_list(&d.cycles))),
        entry("depth", single("max_depth", count_node(d.max_depth))),
        entry("equality", tell_equality(d)),
        entry("redundancy", tell_redundancy(d)),
    ];
    assert(rows(entries@) =~= diagnostics_tree(*d)->Table_0);
    table_node(entries)
}

// ---------------------------------------------------------------------------
// The report
// ---------------------------------------------------------------------------

/// The figures of a health report. Scores are in ten thousandths, and raw
/// values stand as they are written.
#[derive(Debug, PartialEq, Eq)]
pub struct HealthFigures {
    /// The quality signal.
    pub quality_signal: u32,
    /// The ranks by which scores are compared.
    pub ranks: RootCauses<i64>,
    /// The scores.
    pub scores: RootCauses<u32>,
    /// The raw values.
    pub raw: RootCauses<String>,
    /// How many import edges there are.
    pub total_import_edges: u64,
    /// How many of them lead from one module to another.
    pub cross_module_edges: u64,
}

/// The score of a root cause, with its raw value.
pub open spec fn cause_tree(score: nat, raw: Seq<char>) -> Tree {
    Tree::Table(seq![field("score"@, count(score)), field("raw"@, Tree::Number(raw))])
}

/// The scores of all root causes.
pub open spec fn causes_tree(f: HealthFigures) -> Tree {
    Tree::Table(
        seq![
            field("modularity"@, cause_tree(f.scores.modularity as nat, f.raw.modularity@)),
            field("acyclicity"@, cause_tree(f.scores.acyclicity as nat, f.raw.acyclicity@)),
            field("depth"@, cause_tree(f.scores.depth as nat, f.raw.depth@)),
            field("equality"@, cause_tree(f.scores.equality as nat, f.raw.equality@)),
            field("redundancy"@, cause_tree(f.scores.redundancy as nat, f.raw.redundancy@)),
        ],
    )
}

/// The health report: the figures, and where they are available the
/// diagnostics.
pub open spec fn health_tree(f: HealthFigures, diagnostics: Option<Diagnostics>) -> Tree {
    let figures = seq![
        field("quality_signal"@, count(f.quality_signal as nat)),
        field("bottleneck"@, Tree::Text(cause_names()[first_min(cause_ranks(f.ranks))])),
        field("root_causes"@, causes_tree(f)),
        field("total_import_edges"@, count(f.total_import_edges as nat)),
        field("cross_module_edges"@, count(f.cross_module_edges as nat)),
    ];
    Tree::Table(
        match diagnostics {
            Some(d) => figures.push(field("diagnostics"@, diagnostics_tree(d))),
            None => figures,
        },
    )
}

/// Tells the score of a root cause, with its raw value.
fn tell_cause(score: u32, raw: &str) -> (r: Node)
    ensures
        tree_of(r) == cause_tree(score as nat, raw@),
{
    let entries = vec![entry("score", count_node(score as u64)), entry("raw", number_node(raw))];
    assert(rows(entries@) =~= cause_tree(score as nat, raw@)->Table_0);
    table_node(entries)
}

/// Tells the scores of all root causes.
fn tell_causes(f: &HealthFigures) -> (r: Node)
    ensures
        tree_of(r) == causes_tree(*f),
{
    let entries = vec![
        entry("modularity", tell_cause(f.scores.modularity, &f.raw.modularity)),
        entry("acyclicity", tell_cause(f.scores.acyclicity, &f.raw.acyclicity)),
        entry("depth", tell_cause(f.scores.depth, &f.raw.depth)),
        entry("equality", tell_cause(f.scores.equality, &f.raw.equality)),
        entry("redundancy", tell_cause(f.scores.redundancy, &f.raw.redundancy)),
    ];
    assert(rows(entries@) =~= causes_tree(*f)->Table_0);
    table_node(entries)
}

/// Writes the health report as a document.
pub fn health_report(f: &HealthFigures, diagnostics: &Option<Diagnostics>) -> (r: Node)
    ensures
        tree_of(r) == health_tree(*f, *diagnostics),
{
    let mut entries = vec![
        entry("quality_signal", count_node(f.quality_signal as u64)),
        entry("bottleneck", text_node(bottleneck(&f.ranks))),
        entry("root_causes", tell_causes(f)),
        entry("total_import_edges", count_node(f.total_import_edges)),
        entry("cross_module_edges", count_node(f.cross_module_edges)),
    ];
    if let Some(d) = diagnostics {
        entries.push(entry("diagnostics", diagnostics_node(d)));
    }
    assert(rows(entries@) =~= health_tree(*f, *diagnostics)->Table_0);
    table_node(entries)
}

/// How a health report begins: it takes a directory, and says nothing before
/// the scan.
pub open spec fn health_start(path: Seq<char>, is_dir: bool) -> Begun {
    if is_dir {
        Begun::Scan(Seq::empty())
    } else {
        Begun::Stop(no_directory(path))
    }
}

/// Begins a health report.
pub fn run_health(path: &str, is_dir: bool) -> (r: ScanStep)
    ensures
        r.deep_view() == health_start(path@, is_dir),
{
    if is_dir {
        let lines: Vec<Line> = Vec::new();
        assert(lines.deep_view() =~= Seq::<Said>::empty());
        ScanStep::Scan(lines)
    } else {
        ScanStep::Stop(refuse_path(path))
    }
}

/// How a health report ends, by the report as JSON text or by the error of the
/// scan.
pub open spec fn health_ended(scanned: Result<Seq<char>, Seq<char>>) -> Ended {
    match scanned {
        Ok(json) => Ended { lines: seq![Said::Out(json)], code: 0 },
        Err(e) => failed_scan(e),
    }
}

/// Ends a health report. One that is finished is a success, however low its
/// scores are.
pub fn finish_health(scanned: &Result<String, String>) -> (r: Exit)
    ensures
        r.deep_view() == health_ended(
            match *scanned {
                Ok(json) => Ok(json@),
                Err(e) => Err(e@),
            },
        ),
{
    match scanned {
        Ok(json) => {
            let lines = vec![out(json)];
            assert(lines.deep_view() =~= seq![Said::Out(json@)]);
            Exit { lines, code: 0 }
        }
        Err(e) => scan_failed(e),
    }
}

/// The text that a health report is printed as.
pub open spec fn health_text(f: HealthFigures, diagnostics: Option<Diagnostics>) -> Seq<char> {
    json_pretty(as_json(health_tree(f, diagnostics)))
}

/// Ends a health report of a scan that worked: prints it as JSON.
pub fn print_health(f: &HealthFigures, diagnostics: &Option<Diagnostics>) -> (r: Exit)
    ensures
        r.deep_view() == health_ended(Ok(health_text(*f, *diagnostics))),
{
    finish_health(&Ok(write_json(&health_report(f, diagnostics))))
}

/// A health report from its beginning to its end.
pub open spec fn health_run(
    path: Seq<char>,
    is_dir: bool,
    scanned: Result<Seq<char>, Seq<char>>,
) -> Ended {
    match health_start(path, is_dir) {
        Begun::Stop(end) => end,
        Begun::Scan(lines) => {
            let end = health_ended(scanned);
            Ended { lines: lines + end.lines, code: end.code }
        },
    }
}

/// A health report succeeds exactly where the path is a directory and the scan
/// works; then it prints the report and nothing else. Otherwise it ends with
/// code 1, and prints nothing on the standard output.
pub proof fn law_health_succeeds_where_the_scan_does(
    path: Seq<char>,
    is_dir: bool,
    scanned: Result<Seq<char>, Seq<char>>,
)
    ensures
        ({
            let end = health_run(path, is_dir, scanned);
            &&& end.code == 0 <==> is_dir && scanned is Ok
            &&& end.code == 0 || end.code == 1
            &&& end.code == 0 ==> end.lines == seq![Said::Out(scanned->Ok_0)]
            &&& end.code == 1 ==> forall|i: int|
                0 <= i < end.lines.len() ==> (#[trigger] end.lines[i]) is Note
        }),
{
    let end = health_run(path, is_dir, scanned);
    if is_dir && scanned is Ok {
        assert(end.lines =~= seq![Said::Out(scanned->Ok_0)]);
    }
}

// ---------------------------------------------------------------------------
// Laws
// ---------------------------------------------------------------------------

/// Looks a field up by its place: where no entry before it has its key, it is
/// what the key leads to.
proof fn lemma_field_at(t: Tree, key: Seq<char>, i: int)
    requires
        t is Table,
        0 <= i < t->Table_0.len(),
        t->Table_0[i].0 == Tree::Text(key),
        forall|k: int| 0 <= k < i ==> (#[trigger] t->Table_0[k]).0 != Tree::Text(key),
    ensures
        child(t, key) == Some(t->Table_0[i].1),
{
    law_first_entry_of_a_key_counts(t, key, i);
}

/// A list holds its first items, each in its place, up to the limit.
pub proof fn law_lists_hold_the_first_items<T>(
    s: Seq<T>,
    limit: nat,
    f: spec_fn(T) -> Tree,
    i: int,
)
    ensures
        first_items(s, limit, f) is List,
        first_items(s, limit, f)->List_0.len() <= limit,
        s.len() <= limit ==> first_items(s, limit, f)->List_0.len() == s.len(),
        s.len() > limit ==> first_items(s, limit, f)->List_0.len() == limit,
        0 <= i < first_items(s, limit, f)->List_0.len() ==> first_items(s, limit, f)->List_0[i]
            == f(s[i]),
{
}

/// The figure of a file is told with its path.
pub proof fn law_figures_of_files(m: FileMetric, key: Seq<char>)
    requires
        key != "path"@,
    ensures
        child(file_item(key)(m), "path"@) == Some(Tree::Text(m.path@)),
        child(file_item(key)(m), key) == Some(Tree::Number(decimal_of(m.value as nat))),
{
    let t = file_item(key)(m);
    lemma_field_at(t, "path"@, 0);
    lemma_field_at(t, key, 1);
}

/// The figure of a function is told with its file and its name.
pub proof fn law_figures_of_functions(m: FuncMetric, key: Seq<char>)
    requires
        key != "file"@,
        key != "func"@,
    ensures
        child(func_item(key)(m), "file"@) == Some(Tree::Text(m.file@)),
        child(func_item(key)(m), "func"@) == Some(Tree::Text(m.func@)),
        child(func_item(key)(m), key) == Some(Tree::Number(decimal_of(m.value as nat))),
{
    reveal_strlit("file");
    reveal_strlit("func");
    assert("file"@[1] != "func"@[1]);
    let t = func_item(key)(m);
    lemma_field_at(t, "file"@, 0);
    lemma_field_at(t, "func"@, 1);
    lemma_field_at(t, key, 2);
}

/// The instability of a file is told with its path and how many files depend on
/// it, and it on them.
pub proof fn law_figures_of_unstable_files(m: Instability)
    ensures
        child(unstable_item()(m), "path"@) == Some(Tree::Text(m.path@)),
        child(unstable_item()(m), "instability"@) == Some(Tree::Number(m.instability@)),
        child(unstable_item()(m), "fan_in"@) == Some(Tree::Number(decimal_of(m.fan_in as nat))),
        child(unstable_item()(m), "fan_out"@) == Some(Tree::Number(decimal_of(m.fan_out as nat))),
{
    reveal_strlit("path");
    reveal_strlit("instability");
    reveal_strlit("fan_in");
    reveal_strlit("fan_out");
    let t = unstable_item()(m);
    assert("path"@.len() == 4 && "instability"@.len() == 11 && "fan_in"@.len() == 6
        && "fan_out"@.len() == 7);
    lemma_field_at(t, "path"@, 0);
    lemma_field_at(t, "instability"@, 1);
    lemma_field_at(t, "fan_in"@, 2);
    lemma_field_at(t, "fan_out"@, 3);
}

/// A cycle is told with all of its files, in order, and a group of duplicates
/// with all of its functions.
pub proof fn law_cycles_and_groups_are_told_whole(
    cycle: Vec<String>,
    group: Vec<FuncMetric>,
    i: int,
)
    ensures
        cycle_item()(cycle) is List,
        cycle_item()(cycle)->List_0.len() == cycle@.len(),
        0 <= i < cycle@.len() ==> cycle_item()(cycle)->List_0[i] == Tree::Text(cycle@[i]@),
        child(group_item()(group), "instances"@) is Some,
        child(group_item()(group), "instances"@)->Some_0 is List,
        child(group_item()(group), "instances"@)->Some_0->List_0.len() == group@.len(),
        0 <= i < group@.len() ==> child(group_item()(group), "instances"@)->Some_0->List_0[i]
            == func_item("lines"@)(group@[i]),
{
    lemma_field_at(group_item()(group), "instances"@, 0);
}

/// Modularity is told by all god files and all hotspots, and by the ten most
/// unstable files.
pub proof fn law_modularity_is_told(d: Diagnostics)
    ensures
        child(modularity_tree(d), "god_files"@) == Some(
            first_items(d.god_files@, d.god_files@.len(), file_item("fan_out"@)),
        ),
        child(modularity_tree(d), "hotspot_files"@) == Some(
            first_items(d.hotspot_files@, d.hotspot_files@.len(), file_item("fan_in"@)),
        ),
        child(modularity_tree(d), "most_unstable"@) == Some(
            first_items(d.most_unstable@, 10, unstable_item()),
        ),
{
    reveal_strlit("god_files");
    reveal_strlit("hotspot_files");
    reveal_strlit("most_unstable");
    let t = modularity_tree(d);
    assert("god_files"@[0] == 'g' && "hotspot_files"@[0] == 'h' && "most_unstable"@[0] == 'm');
    lemma_field_at(t, "god_files"@, 0);
    lemma_field_at(t, "hotspot_files"@, 1);
    lemma_field_at(t, "most_unstable"@, 2);
}

/// Equality is told by the first of each kind of outlier: twenty functions, or
/// ten files.
pub proof fn law_equality_is_told(d: Diagnostics)
    ensures
        child(equality_tree(d), "complex_functions"@) == Some(
            first_items(d.complex_functions@, 20, func_item("cc"@)),
        ),
        child(equality_tree(d), "cog_complex_functions"@) == Some(
            first_items(d.cog_complex_functions@, 20, func_item("cog"@)),
        ),
        child(equality_tree(d), "long_functions"@) == Some(
            first_items(d.long_functions@, 20, func_item("lines"@)),
        ),
        child(equality_tree(d), "large_files"@) == Some(
            first_items(d.long_files@, 10, file_item("lines"@)),
        ),
        child(equality_tree(d), "high_param_functions"@) == Some(
            first_items(d.high_param_functions@, 20, func_item("params"@)),
        ),
{
    reveal_strlit("complex_functions");
    reveal_strlit("cog_complex_functions");
    reveal_strlit("long_functions");
    reveal_strlit("large_files");
    reveal_strlit("high_param_functions");
    let t = equality_tree(d);
    assert("complex_functions"@.len() == 17 && "cog_complex_functions"@.len() == 21
        && "long_functions"@.len() == 14 && "large_files"@.len() == 11
        && "high_param_functions"@.len() == 20);
    lemma_field_at(t, "complex_functions"@, 0);
    lemma_field_at(t, "cog_complex_functions"@, 1);
    lemma_field_at(t, "long_functions"@, 2);
    lemma_field_at(t, "large_files"@, 3);
    lemma_field_at(t, "high_param_functions"@, 4);
}

/// Redundancy is told by the first fifty dead functions, and the first twenty
/// groups of duplicates.
pub proof fn law_redundancy_is_told(d: Diagnostics)
    ensures
        child(redundancy_tree(d), "dead_functions"@) == Some(
            first_items(d.dead_functions@, 50, func_item("lines"@)),
        ),
        child(redundancy_tree(d), "duplicate_groups"@) == Some(
            first_items(d.duplicate_groups@, 20, group_item()),
        ),
{
    reveal_strlit("dead_functions");
    reveal_strlit("duplicate_groups");
    let t = redundancy_tree(d);
    assert("dead_functions"@.len() == 14 && "duplicate_groups"@.len() == 16);
    lemma_field_at(t, "dead_functions"@, 0);
    lemma_field_at(t, "duplicate_groups"@, 1);
}

/// The names of the root causes are all different.
proof fn lemma_causes_differ()
    ensures
        forall|i: int, j: int|
            0 <= i < j < 5 ==> #[trigger] cause_names()[i] != #[trigger] cause_names()[j],
{
    reveal_strlit("modularity");
    reveal_strlit("acyclicity");
    reveal_strlit("depth");
    reveal_strlit("equality");
    reveal_strlit("redundancy");
    assert("modularity"@[0] == 'm' && "acyclicity"@[0] == 'a' && "depth"@[0] == 'd'
        && "equality"@[0] == 'e' && "redundancy"@[0] == 'r');
    let names = cause_names();
    assert forall|i: int, j: int| 0 <= i < j < 5 implies #[trigger] names[i]
        != #[trigger] names[j] by {
        assert(names[i][0] != names[j][0]);
    }
}

/// The diagnostics have a field for each root cause. Acyclicity is told by all
/// cycles, and depth by the longest chain.
pub proof fn law_diagnostics_are_told_by_cause(d: Diagnostics)
    ensures
        child(diagnostics_tree(d), "modularity"@) == Some(modularity_tree(d)),
        descend(diagnostics_tree(d), seq!["acyclicity"@, "cycles"@]) == Some(
            first_items(d.cycles@, d.cycles@.len(), cycle_item()),
        ),
        descend(diagnostics_tree(d), seq!["depth"@, "max_depth"@]) == Some(
            Tree::Number(decimal_of(d.max_depth as nat)),
        ),
        child(diagnostics_tree(d), "equality"@) == Some(equality_tree(d)),
        child(diagnostics_tree(d), "redundancy"@) == Some(redundancy_tree(d)),
{
    lemma_causes_differ();
    let t = diagnostics_tree(d);
    let names = cause_names();
    assert forall|i: int| 0 <= i < 5 implies (#[trigger] t->Table_0[i]).0 == Tree::Text(
        names[i],
    ) by {}
    lemma_field_at(t, names[0], 0);
    lemma_field_at(t, names[1], 1);
    lemma_field_at(t, names[2], 2);
    lemma_field_at(t, names[3], 3);
    lemma_field_at(t, names[4], 4);
    let a = t->Table_0[1].1;
    let b = t->Table_0[2].1;
    lemma_field_at(a, "cycles"@, 0);
    lemma_field_at(b, "max_depth"@, 0);
    lemma_two_keys(t, "acyclicity"@, "cycles"@);
    lemma_two_keys(t, "depth"@, "max_depth"@);
}

/// Two keys are followed one after the other.
proof fn lemma_two_keys(t: Tree, a: Seq<char>, b: Seq<char>)
    requires
        child(t, a) is Some,
    ensures
        descend(t, seq![a, b]) == child(child(t, a)->Some_0, b),
{
    law_keys_are_followed_in_order(t, a, seq![a], seq![b]);
    law_keys_are_followed_in_order(child(t, a)->Some_0, b, seq![a], seq![b]);
    assert(seq![a] + seq![b] =~= seq![a, b]);
}

/// Each root cause is reported with its own score and its own raw value.
pub proof fn law_causes_are_reported(f: HealthFigures)
    ensures
        child(causes_tree(f), "modularity"@) == Some(
            cause_tree(f.scores.modularity as nat, f.raw.modularity@),
        ),
        child(causes_tree(f), "acyclicity"@) == Some(
            cause_tree(f.scores.acyclicity as nat, f.raw.acyclicity@),
        ),
        child(causes_tree(f), "depth"@) == Some(cause_tree(f.scores.depth as nat, f.raw.depth@)),
        child(causes_tree(f), "equality"@) == Some(
            cause_tree(f.scores.equality as nat, f.raw.equality@),
        ),
        child(causes_tree(f), "redundancy"@) == Some(
            cause_tree(f.scores.redundancy as nat, f.raw.redundancy@),
        ),
{
    lemma_causes_differ();
    let t = causes_tree(f);
    let names = cause_names();
    assert forall|i: int| 0 <= i < 5 implies (#[trigger] t->Table_0[i]).0 == Tree::Text(
        names[i],
    ) by {}
    lemma_field_at(t, names[0], 0);
    lemma_field_at(t, names[1], 1);
    lemma_field_at(t, names[2], 2);
    lemma_field_at(t, names[3], 3);
    lemma_field_at(t, names[4], 4);
}

/// A root cause is reported by its score, in digits, and its raw value as it is
/// written.
pub proof fn law_score_and_raw_value(score: nat, raw: Seq<char>)
    ensures
        child(cause_tree(score, raw), "score"@) == Some(Tree::Number(decimal_of(score))),
        child(cause_tree(score, raw), "raw"@) == Some(Tree::Number(raw)),
{
    reveal_strlit("score");
    reveal_strlit("raw");
    assert("score"@.len() == 5 && "raw"@.len() == 3);
    let t = cause_tree(score, raw);
    lemma_field_at(t, "score"@, 0);
    lemma_field_at(t, "raw"@, 1);
}

/// The report tells the quality signal, the bottleneck, the root causes and the
/// counts of edges, and the diagnostics exactly where there are any.
pub proof fn law_what_a_health_report_tells(f: HealthFigures, diagnostics: Option<Diagnostics>)
    ensures
        ({
            let t = health_tree(f, diagnostics);
            &&& child(t, "quality_signal"@) == Some(
                Tree::Number(decimal_of(f.quality_signal as nat)),
            )
            &&& child(t, "bottleneck"@) is Some && child(t, "bottleneck"@)->Some_0 is Text
            &&& child(t, "root_causes"@) == Some(causes_tree(f))
            &&& child(t, "total_import_edges"@) == Some(
                Tree::Number(decimal_of(f.total_import_edges as nat)),
            )
            &&& child(t, "cross_module_edges"@) == Some(
                Tree::Number(decimal_of(f.cross_module_edges as nat)),
            )
            &&& diagnostics is Some ==> child(t, "diagnostics"@) == Some(
                diagnostics_tree(diagnostics->Some_0),
            )
            &&& diagnostics is None ==> child(t, "diagnostics"@) is None
        }),
{
    reveal_strlit("quality_signal");
    reveal_strlit("bottleneck");
    reveal_strlit("root_causes");
    reveal_strlit("total_import_edges");
    reveal_strlit("cross_module_edges");
    reveal_strlit("diagnostics");
    assert("quality_signal"@[0] == 'q' && "bottleneck"@[0] == 'b' && "root_causes"@[0] == 'r'
        && "total_import_edges"@[0] == 't' && "cross_module_edges"@[0] == 'c'
        && "diagnostics"@[0] == 'd');
    let t = health_tree(f, diagnostics);
    lemma_field_at(t, "quality_signal"@, 0);
    lemma_field_at(t, "bottleneck"@, 1);
    lemma_field_at(t, "root_causes"@, 2);
    lemma_field_at(t, "total_import_edges"@, 3);
    lemma_field_at(t, "cross_module_edges"@, 4);
    if diagnostics is Some {
        lemma_field_at(t, "diagnostics"@, 5);
    } else {
        law_first_entry_of_a_key_counts(t, "diagnostics"@, 0);
    }
}

/// The bottleneck is a root cause whose rank no other one is below; of equal
/// ones it is the first.
pub proof fn law_bottleneck_is_the_weakest_cause(f: HealthFigures, diagnostics: Option<Diagnostics>)
    ensures
        ({
            let b = child(health_tree(f, diagnostics), "bottleneck"@)->Some_0->Text_0;
            let r = f.ranks;
            &&& b == "modularity"@ <==> r.modularity <= r.acyclicity && r.modularity <= r.depth
                && r.modularity <= r.equality && r.modularity <= r.redundancy
            &&& b == "acyclicity"@ <==> r.acyclicity < r.modularity && r.acyclicity <= r.depth
                && r.acyclicity <= r.equality && r.acyclicity <= r.redundancy
            &&& b == "depth"@ <==> r.depth < r.modularity && r.depth < r.acyclicity && r.depth
                <= r.equality && r.depth <= r.redundancy
            &&& b == "equality"@ <==> r.equality < r.modularity && r.equality < r.acyclicity
                && r.equality < r.depth && r.equality <= r.redundancy
            &&& b == "redundancy"@ <==> r.redundancy < r.modularity && r.redundancy < r.acyclicity
                && r.redundancy < r.depth && r.redundancy < r.equality
        }),
{
    let all = cause_ranks(f.ranks);
    let names = cause_names();
    let k = first_min(all);
    law_bottleneck_is_the_first_minimum(all);
    lemma_causes_differ();
    law_what_a_health_report_tells(f, diagnostics);
    reveal_strlit("quality_signal");
    reveal_strlit("bottleneck");
    assert("quality_signal"@[0] == 'q' && "bottleneck"@[0] == 'b');
    lemma_field_at(health_tree(f, diagnostics), "bottleneck"@, 1);
    assert(all[k] <= all[0] && all[k] <= all[1] && all[k] <= all[2] && all[k] <= all[3] && all[k]
        <= all[4]);
    assert(names[0] == "modularity"@ && names[1] == "acyclicity"@ && names[2] == "depth"@
        && names[3] == "equality"@ && names[4] == "redundancy"@);
}

/// Only a directory is scanned for a health report, without a word before; any
/// other path is refused.
pub proof fn law_health_reports_take_directories(path: Seq<char>, is_dir: bool)
    ensures
        is_dir ==> health_start(path, is_dir) == Begun::Scan(Seq::empty()),
        !is_dir ==> health_start(path, is_dir) == Begun::Stop(no_directory(path)),
{
}

} // verus!
