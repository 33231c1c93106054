//! Documents: one tree type for JSON, TOML and YAML.

use vstd::prelude::*;

use crate::sorting::{lemma_sorted, order, sorted, stable_sort, Ranked};
use crate::table::NameSet;
use crate::text::{
    is_le, law_split_at_every_separator, lemma_text_le_total, lemma_text_le_transitive, pieces,
    same, text_le, CharClass,
};

verus! {

/// A value of a document.
#[derive(Debug, PartialEq, Eq)]
pub enum Node {
    /// Nothing.
    Null,
    /// A truth value.
    Bool(bool),
    /// A number or a date, as it is written.
    Number(String),
    /// A string.
    Text(String),
    /// A list of values.
    List(Vec<Node>),
    /// Keys and their values, in the order of the document's map.
    Table(Vec<(Node, Node)>),
    /// A value behind a tag; only YAML has them.
    Tagged(Box<Node>),
}

/// What a [`Node`] holds.
#[verifier::ext_equal]
pub enum Tree {
    /// Nothing.
    Null,
    /// A truth value.
    Bool(bool),
    /// A number or a date, as it is written.
    Number(Seq<char>),
    /// A string.
    Text(Seq<char>),
    /// A list of values.
    List(Seq<Tree>),
    /// Keys and their values.
    Table(Seq<(Tree, Tree)>),
    /// A value behind a tag.
    Tagged(Box<Tree>),
}

impl View for Node {
    type V = Tree;

    open spec fn view(&self) -> Tree {
        tree_of(*self)
    }
}

impl DeepView for Node {
    type V = Tree;

    open spec fn deep_view(&self) -> Tree {
        tree_of(*self)
    }
}

/// The tree of a node.
pub open spec fn tree_of(node: Node) -> Tree
    decreases node,
{
    match node {
        Node::Null => Tree::Null,
        Node::Bool(b) => Tree::Bool(b),
        Node::Number(s) => Tree::Number(s@),
        Node::Text(s) => Tree::Text(s@),
        Node::List(items) => Tree::List(
            Seq::new(
                items@.len(),
                |i: int|
                    if 0 <= i < items@.len() {
                        tree_of(items@[i])
                    } else {
                        arbitrary()
                    },
            ),
        ),
        Node::Table(items) => Tree::Table(
            Seq::new(
                items@.len(),
                |i: int|
                    if 0 <= i < items@.len() {
                        (tree_of(items@[i].0), tree_of(items@[i].1))
                    } else {
                        arbitrary()
                    },
            ),
        ),
        Node::Tagged(inner) => Tree::Tagged(Box::new(tree_of(*inner))),
    }
}

// ---------------------------------------------------------------------------
// Reading a tree
// ---------------------------------------------------------------------------

/// The value behind any tags.
pub open spec fn untagged(t: Tree) -> Tree
    decreases t,
{
    match t {
        Tree::Tagged(inner) => untagged(*inner),
        _ => t,
    }
}

/// The value of the first entry under the text `key`.
pub open spec fn lookup(entries: Seq<(Tree, Tree)>, key: Seq<char>) -> Option<Tree>
    decreases entries.len(),
{
    if entries.len() == 0 {
        None
    } else if entries[0].0 == Tree::Text(key) {
        Some(entries[0].1)
    } else {
        lookup(entries.skip(1), key)
    }
}

/// The value under `key`; only a table has one.
pub open spec fn child(t: Tree, key: Seq<char>) -> Option<Tree> {
    match untagged(t) {
        Tree::Table(entries) => lookup(entries, key),
        _ => None,
    }
}

/// The string that a value is, if it is one.
pub open spec fn text_value(t: Tree) -> Option<Seq<char>> {
    match untagged(t) {
        Tree::Text(s) => Some(s),
        _ => None,
    }
}

/// The value that a path of keys leads to.
pub open spec fn descend(t: Tree, keys: Seq<Seq<char>>) -> Option<Tree>
    decreases keys.len(),
{
    if keys.len() == 0 {
        Some(t)
    } else {
        match child(t, keys[0]) {
            Some(next) => descend(next, keys.skip(1)),
            None => None,
        }
    }
}

/// The keys of a path whose steps are separated by dots.
pub open spec fn path_keys(path: Seq<char>) -> Seq<Seq<char>> {
    pieces(path, CharClass::Only('.'))
}

impl Node {
    /// The node behind any tags.
    pub fn untag(&self) -> (r: &Node)
        ensures
            r@ == untagged(self@),
            !(r is Tagged),
        decreases self@,
    {
        match self {
            Node::Tagged(inner) => inner.untag(),
            _ => self,
        }
    }

    /// The string that the node is.
    pub fn as_text(&self) -> (r: Option<&String>)
        ensures
            r.deep_view() == text_value(self@),
    {
        match self.untag() {
            Node::Text(s) => Some(s),
            _ => None,
        }
    }

    /// The node under `key`.
    pub fn get(&self, key: &str) -> (r: Option<&Node>)
        ensures
            r.deep_view() == child(self@, key@),
    {
        let node = self.untag();
        match node {
            Node::Table(entries) => {
                let ghost all = node@->Table_0;
                let mut i: usize = 0;
                assert(all.skip(0) =~= all);
                while i < entries.len()
                    invariant
                        i <= entries@.len(),
                        *node == Node::Table(*entries),
                        node@ == Tree::Table(all),
                        node@ == untagged(self@),
                        lookup(all.skip(i as int), key@) == lookup(all, key@),
                    decreases entries@.len() - i,
                {
                    let found = match &entries[i].0 {
                        Node::Text(s) => same(s, key),
                        _ => false,
                    };
                    assert(all[i as int] == (tree_of(entries@[i as int].0), tree_of(
                        entries@[i as int].1,
                    )));
                    if found {
                        return Some(&entries[i].1);
                    }
                    assert(all.skip(i as int).skip(1) =~= all.skip(i + 1));
                    i += 1;
                }
                None
            }
            _ => None,
        }
    }

    /// The node that a path of keys leads to.
    pub fn walk(&self, keys: &Vec<String>) -> (r: Option<&Node>)
        ensures
            r.deep_view() == descend(self@, keys.deep_view()),
    {
        let ghost all = keys.deep_view();
        let mut current = self;
        let mut i: usize = 0;
        assert(all.skip(0) =~= all);
        while i < keys.len()
            invariant
                i <= keys@.len(),
                all == keys.deep_view(),
                descend(current@, all.skip(i as int)) == descend(self@, all),
            decreases keys@.len() - i,
        {
            assert(all.skip(i as int).skip(1) =~= all.skip(i + 1));
            match current.get(&keys[i]) {
                Some(next) => {
                    current = next;
                }
                None => {
                    return None;
                }
            }
            i += 1;
        }
        Some(current)
    }
}

// ---------------------------------------------------------------------------
// Parsing
// ---------------------------------------------------------------------------

/// One level of an outside document value, its parts still unopened.
enum Layer<T> {
    Null,
    Bool(bool),
    Number(String),
    Text(String),
    List(Vec<T>),
    Record(Vec<(String, T)>),
    Mapping(Vec<(T, T)>),
    Tagged(T),
}

/// The tree of a level, given the trees of its parts.
spec fn layer_tree<T>(layer: Layer<T>, tree: spec_fn(T) -> Tree) -> Tree {
    match layer {
        Layer::Null => Tree::Null,
        Layer::Bool(b) => Tree::Bool(b),
        Layer::Number(s) => Tree::Number(s@),
        Layer::Text(s) => Tree::Text(s@),
        Layer::List(items) => Tree::List(items@.map_values(tree)),
        Layer::Record(items) => Tree::Table(
            items@.map_values(|e: (String, T)| (Tree::Text(e.0@), tree(e.1))),
        ),
        Layer::Mapping(items) => Tree::Table(
            items@.map_values(|e: (T, T)| (tree(e.0), tree(e.1))),
        ),
        Layer::Tagged(inner) => Tree::Tagged(Box::new(tree(inner))),
    }
}

/// The items of a list are smaller than the list.
proof fn lemma_list_item(t: Tree, i: int)
    requires
        t is List,
        0 <= i < t->List_0.len(),
    ensures
        decreases_to!(t => t->List_0[i]),
{
    assert(decreases_to!(t => t->List_0));
    assert(decreases_to!(t->List_0 => t->List_0[i]));
}

/// The keys and values of a table are smaller than the table.
proof fn lemma_table_entry(t: Tree, i: int)
    requires
        t is Table,
        0 <= i < t->Table_0.len(),
    ensures
        decreases_to!(t => t->Table_0[i].0),
        decreases_to!(t => t->Table_0[i].1),
{
    assert(decreases_to!(t => t->Table_0));
    assert(decreases_to!(t->Table_0 => t->Table_0[i]));
    assert(decreases_to!(t->Table_0[i] => t->Table_0[i].0));
    assert(decreases_to!(t->Table_0[i] => t->Table_0[i].1));
}

/// A tagged value is larger than what it tags.
proof fn lemma_tagged(t: Tree)
    requires
        t is Tagged,
    ensures
        decreases_to!(t => *t->Tagged_0),
{
    assert(decreases_to!(t => t->Tagged_0));
}

/// Opens an outside document value level by level.
fn build<T, F: Fn(T) -> Layer<T>>(value: T, open: &F, Ghost(tree): Ghost<spec_fn(T) -> Tree>) -> (r:
    Node)
    requires
        forall|v: T| #[trigger] call_requires(*open, (v,)),
        forall|v: T, l: Layer<T>| #[trigger]
            call_ensures(*open, (v,), l) ==> layer_tree(l, tree) == tree(v),
    ensures
        r@ == tree(value),
    decreases tree(value),
{
    let layer = open(value);
    match layer {
        Layer::Null => Node::Null,
        Layer::Bool(b) => Node::Bool(b),
        Layer::Number(s) => Node::Number(s),
        Layer::Text(s) => Node::Text(s),
        Layer::List(items) => {
            let ghost all = items@;
            let ghost trees = all.map_values(tree);
            let mut out: Vec<Node> = Vec::new();
            for item in it: items
                invariant
                    it.seq() == all,
                    trees == all.map_values(tree),
                    tree(value) == Tree::List(trees),
                    forall|v: T| #[trigger] call_requires(*open, (v,)),
                    forall|v: T, l: Layer<T>| #[trigger]
                        call_ensures(*open, (v,), l) ==> layer_tree(l, tree) == tree(v),
                    out@.len() == it.index(),
                    forall|k: int| 0 <= k < out@.len() ==> tree_of(#[trigger] out@[k]) == trees[k],
            {
                proof {
                    lemma_list_item(tree(value), it.index());
                }
                out.push(build(item, open, Ghost(tree)));
            }
            let r = Node::List(out);
            assert(r@->List_0 =~= trees);
            r
        }
        Layer::Record(items) => {
            let ghost all = items@;
            let ghost trees = all.map_values(|e: (String, T)| (Tree::Text(e.0@), tree(e.1)));
            let mut out: Vec<(Node, Node)> = Vec::new();
            for item in it: items
                invariant
                    it.seq() == all,
                    trees == all.map_values(|e: (String, T)| (Tree::Text(e.0@), tree(e.1))),
                    tree(value) == Tree::Table(trees),
                    forall|v: T| #[trigger] call_requires(*open, (v,)),
                    forall|v: T, l: Layer<T>| #[trigger]
                        call_ensures(*open, (v,), l) ==> layer_tree(l, tree) == tree(v),
                    out@.len() == it.index(),
                    forall|k: int|
                        0 <= k < out@.len() ==> (
                        tree_of((#[trigger] out@[k]).0),
                        tree_of(out@[k].1),
                        ) == trees[k],
            {
                proof {
                    lemma_table_entry(tree(value), it.index());
                }
                let key = Node::Text(item.0);
                out.push((key, build(item.1, open, Ghost(tree))));
            }
            let r = Node::Table(out);
            assert(r@->Table_0 =~= trees);
            r
        }
        Layer::Mapping(items) => {
            let ghost all = items@;
            let ghost trees = all.map_values(|e: (T, T)| (tree(e.0), tree(e.1)));
            let mut out: Vec<(Node, Node)> = Vec::new();
            for item in it: items
                invariant
                    it.seq() == all,
                    trees == all.map_values(|e: (T, T)| (tree(e.0), tree(e.1))),
                    tree(value) == Tree::Table(trees),
                    forall|v: T| #[trigger] call_requires(*open, (v,)),
                    forall|v: T, l: Layer<T>| #[trigger]
                        call_ensures(*open, (v,), l) ==> layer_tree(l, tree) == tree(v),
                    out@.len() == it.index(),
                    forall|k: int|
                        0 <= k < out@.len() ==> (
                        tree_of((#[trigger] out@[k]).0),
                        tree_of(out@[k].1),
                        ) == trees[k],
            {
                proof {
                    lemma_table_entry(tree(value), it.index());
                }
                let key = build(item.0, open, Ghost(tree));
                out.push((key, build(item.1, open, Ghost(tree))));
            }
            let r = Node::Table(out);
            assert(r@->Table_0 =~= trees);
            r
        }
        Layer::Tagged(inner) => {
            proof {
                lemma_tagged(tree(value));
            }
            Node::Tagged(Box::new(build(inner, open, Ghost(tree))))
        }
    }
}

/// `serde_json::Value`, a parsed JSON document.
#[verifier::external_type_specification]
#[verifier::external_body]
pub struct ExJsonValue(serde_json::Value);

/// `toml::Value`, a parsed TOML document.
#[verifier::external_type_specification]
#[verifier::external_body]
pub struct ExTomlValue(toml::Value);

/// `serde_yaml::Value`, a parsed YAML document.
#[verifier::external_type_specification]
#[verifier::external_body]
pub struct ExYamlValue(serde_yaml::Value);

/// What a parsed JSON document holds.
pub uninterp spec fn json_tree(value: serde_json::Value) -> Tree;

/// What a parsed TOML document holds.
pub uninterp spec fn toml_tree(value: toml::Value) -> Tree;

/// What a parsed YAML document holds.
pub uninterp spec fn yaml_tree(value: serde_yaml::Value) -> Tree;

/// The document that a JSON text stands for; none if the text is no JSON.
pub uninterp spec fn json_text(content: Seq<char>) -> Option<Tree>;

/// The document that a TOML text stands for; none if the text is no TOML.
pub uninterp spec fn toml_text(content: Seq<char>) -> Option<Tree>;

/// The document that a YAML text stands for; none if the text is no YAML.
pub uninterp spec fn yaml_text(content: Seq<char>) -> Option<Tree>;

/// `serde_json::from_str`, read into a `serde_json::Value`. The outcome
/// depends on the text alone; [`json_text`] names it.
#[verifier::external_body]
fn json_from_str(content: &str) -> (r: Option<serde_json::Value>)
    ensures
        match r {
            Some(v) => json_text(content@) == Some(json_tree(v)),
            None => json_text(content@) is None,
        },
{
    serde_json::from_str(content).ok()
}

/// Takes a `serde_json::Value` apart by its variant. The parts make up the
/// tree of the whole; an object lists its entries as its map walks them.
#[verifier::external_body]
fn json_layer(value: serde_json::Value) -> (r: Layer<serde_json::Value>)
    ensures
        layer_tree(r, |v: serde_json::Value| json_tree(v)) == json_tree(value),
{
    match value {
        serde_json::Value::Null => Layer::Null,
        serde_json::Value::Bool(b) => Layer::Bool(b),
        serde_json::Value::Number(n) => Layer::Number(n.to_string()),
        serde_json::Value::String(s) => Layer::Text(s),
        serde_json::Value::Array(items) => Layer::List(items),
        serde_json::Value::Object(map) => Layer::Record(map.into_iter().collect()),
    }
}

/// `toml::Value` by its `FromStr`, which reads a whole document. The outcome
/// depends on the text alone; [`toml_text`] names it.
#[verifier::external_body]
fn toml_from_str(content: &str) -> (r: Option<toml::Value>)
    ensures
        match r {
            Some(v) => toml_text(content@) == Some(toml_tree(v)),
            None => toml_text(content@) is None,
        },
{
    content.parse().ok()
}

/// Takes a `toml::Value` apart by its variant. The parts make up the tree of
/// the whole; a table lists its entries as its map walks them, and numbers
/// and dates are kept as they print.
#[verifier::external_body]
fn toml_layer(value: toml::Value) -> (r: Layer<toml::Value>)
    ensures
        layer_tree(r, |v: toml::Value| toml_tree(v)) == toml_tree(value),
{
    match value {
        toml::Value::String(s) => Layer::Text(s),
        toml::Value::Integer(n) => Layer::Number(n.to_string()),
        toml::Value::Float(x) => Layer::Number(x.to_string()),
        toml::Value::Boolean(b) => Layer::Bool(b),
        toml::Value::Datetime(d) => Layer::Number(d.to_string()),
        toml::Value::Array(items) => Layer::List(items),
        toml::Value::Table(map) => Layer::Record(map.into_iter().collect()),
    }
}

/// `serde_yaml::from_str`, read into a `serde_yaml::Value`. The outcome
/// depends on the text alone; [`yaml_text`] names it.
#[verifier::external_body]
fn yaml_from_str(content: &str) -> (r: Option<serde_yaml::Value>)
    ensures
        match r {
            Some(v) => yaml_text(content@) == Some(yaml_tree(v)),
            None => yaml_text(content@) is None,
        },
{
    serde_yaml::from_str(content).ok()
}

/// Takes a `serde_yaml::Value` apart by its variant. The parts make up the
/// tree of the whole; a mapping lists its entries as it walks them.
#[verifier::external_body]
fn yaml_layer(value: serde_yaml::Value) -> (r: Layer<serde_yaml::Value>)
    ensures
        layer_tree(r, |v: serde_yaml::Value| yaml_tree(v)) == yaml_tree(value),
{
    match value {
        serde_yaml::Value::Null => Layer::Null,
        serde_yaml::Value::Bool(b) => Layer::Bool(b),
        serde_yaml::Value::Number(n) => Layer::Number(n.to_string()),
        serde_yaml::Value::String(s) => Layer::Text(s),
        serde_yaml::Value::Sequence(items) => Layer::List(items),
        serde_yaml::Value::Mapping(map) => Layer::Mapping(map.into_iter().collect()),
        serde_yaml::Value::Tagged(tagged) => Layer::Tagged(tagged.value),
    }
}

/// Parses a JSON text.
pub fn parse_json(content: &str) -> (r: Option<Node>)
    ensures
        r.deep_view() == json_text(content@),
{
    match json_from_str(content) {
        Some(v) => Some(build(v, &json_layer, Ghost(|v: serde_json::Value| json_tree(v)))),
        None => None,
    }
}

/// Parses a TOML text.
pub fn parse_toml(content: &str) -> (r: Option<Node>)
    ensures
        r.deep_view() == toml_text(content@),
{
    match toml_from_str(content) {
        Some(v) => Some(build(v, &toml_layer, Ghost(|v: toml::Value| toml_tree(v)))),
        None => None,
    }
}

/// Parses a YAML text.
pub fn parse_yaml(content: &str) -> (r: Option<Node>)
    ensures
        r.deep_view() == yaml_text(content@),
{
    match yaml_from_str(content) {
        Some(v) => Some(build(v, &yaml_layer, Ghost(|v: serde_yaml::Value| yaml_tree(v)))),
        None => None,
    }
}

// ---------------------------------------------------------------------------
// Writing
// ---------------------------------------------------------------------------

/// The text of a JSON document, indented.
pub uninterp spec fn json_pretty(tree: Tree) -> Seq<char>;

/// Whether a level can be part of a JSON value as it stands: a number is read
/// from its text instead, and the keys of an object ascend.
spec fn writable(layer: Layer<serde_json::Value>) -> bool {
    match layer {
        Layer::Null => true,
        Layer::Bool(_) => true,
        Layer::Text(_) => true,
        Layer::List(_) => true,
        Layer::Record(items) => forall|i: int, j: int|
            0 <= i < j < items@.len() ==> (#[trigger] items@[i]).0@ != (#[trigger] items@[j]).0@
                && text_le(items@[i].0@, items@[j].0@),
        _ => false,
    }
}

/// Puts a `serde_json::Value` together by its variant. Its tree is made up of
/// the parts; the map of an object walks keys that come in ascending order, and
/// each once, as they came.
#[verifier::external_body]
fn json_value(layer: Layer<serde_json::Value>) -> (r: serde_json::Value)
    requires
        writable(layer),
    ensures
        json_tree(r) == layer_tree(layer, |v: serde_json::Value| json_tree(v)),
{
    match layer {
        Layer::Bool(b) => serde_json::Value::Bool(b),
        Layer::Text(s) => serde_json::Value::String(s),
        Layer::List(items) => serde_json::Value::Array(items),
        Layer::Record(items) => serde_json::Value::Object(items.into_iter().collect()),
        _ => serde_json::Value::Null,
    }
}

/// `serde_json::to_string_pretty` on a `serde_json::Value`, which always
/// succeeds. The text depends on what the value holds and on nothing else;
/// [`json_pretty`] names it.
#[verifier::external_body]
fn json_to_string_pretty(value: &serde_json::Value) -> (r: String)
    ensures
        r@ == json_pretty(json_tree(*value)),
{
    serde_json::to_string_pretty(value).unwrap()
}

/// A member of an object.
struct Member {
    key: String,
    value: serde_json::Value,
}

impl DeepView for Member {
    type V = (Seq<char>, Tree);

    closed spec fn deep_view(&self) -> (Seq<char>, Tree) {
        (self.key@, json_tree(self.value))
    }
}

/// Members are ordered by their keys.
impl Ranked for Member {
    open spec fn le(a: (Seq<char>, Tree), b: (Seq<char>, Tree)) -> bool {
        text_le(a.0, b.0)
    }

    proof fn le_total(a: (Seq<char>, Tree), b: (Seq<char>, Tree)) {
        lemma_text_le_total(a.0, b.0);
    }

    proof fn le_transitive(a: (Seq<char>, Tree), b: (Seq<char>, Tree), c: (Seq<char>, Tree)) {
        lemma_text_le_transitive(a.0, b.0, c.0);
    }

    fn is_le(&self, other: &Self) -> (r: bool) {
        is_le(&self.key, &other.key)
    }
}

/// The order of the members of an object: by their keys.
pub open spec fn by_key() -> spec_fn((Seq<char>, Tree), (Seq<char>, Tree)) -> bool {
    |a: (Seq<char>, Tree), b: (Seq<char>, Tree)| text_le(a.0, b.0)
}

/// Whether one of the members has the key.
pub open spec fn has_key(members: Seq<(Seq<char>, Tree)>, key: Seq<char>) -> bool {
    exists|i: int| 0 <= i < members.len() && (#[trigger] members[i]).0 == key
}

/// The members of an object that a table stands for: its entries under texts,
/// the first of each.
pub open spec fn members(entries: Seq<(Tree, Tree)>) -> Seq<(Seq<char>, Tree)>
    decreases entries.len(),
{
    if entries.len() == 0 {
        Seq::empty()
    } else {
        let before = members(entries.drop_last());
        match entries.last().0 {
            Tree::Text(key) => if has_key(before, key) {
                before
            } else {
                before.push((key, entries.last().1))
            },
            _ => before,
        }
    }
}

/// Members as the entries of a table.
pub open spec fn member_rows(members: Seq<(Seq<char>, Tree)>) -> Seq<(Tree, Tree)> {
    Seq::new(members.len(), |i: int| (Tree::Text(members[i].0), members[i].1))
}

/// A number as JSON has it. What is written like no number of JSON, such as an
/// infinite one, is null.
pub open spec fn json_number(text: Seq<char>) -> Tree {
    match json_text(text) {
        Some(t) => t,
        None => Tree::Null,
    }
}

/// A document as JSON has it: without tags, the members of each object in the
/// order of their keys.
pub open spec fn as_json(t: Tree) -> Tree
    decreases t,
{
    match t {
        Tree::Number(s) => json_number(s),
        Tree::List(items) => Tree::List(
            Seq::new(
                items.len(),
                |i: int|
                    if 0 <= i < items.len() {
                        as_json(items[i])
                    } else {
                        arbitrary()
                    },
            ),
        ),
        Tree::Table(entries) => Tree::Table(
            member_rows(sorted(members(json_rows(entries)), by_key())),
        ),
        Tree::Tagged(inner) => as_json(*inner),
        _ => t,
    }
}

/// The entries of a table, their values as JSON has them.
pub open spec fn json_rows(entries: Seq<(Tree, Tree)>) -> Seq<(Tree, Tree)>
    decreases entries,
{
    Seq::new(
        entries.len(),
        |i: int|
            if 0 <= i < entries.len() {
                (entries[i].0, as_json(entries[i].1))
            } else {
                arbitrary()
            },
    )
}

/// No two members have the same key.
proof fn lemma_members_differ(entries: Seq<(Tree, Tree)>)
    ensures
        forall|i: int, j: int|
            0 <= i < j < members(entries).len() ==> (#[trigger] members(entries)[i]).0 != (
            #[trigger] members(entries)[j]).0,
    decreases entries.len(),
{
    if entries.len() > 0 {
        lemma_members_differ(entries.drop_last());
        let before = members(entries.drop_last());
        let all = members(entries);
        assert forall|i: int, j: int| 0 <= i < j < all.len() implies (#[trigger] all[i]).0 != (
        #[trigger] all[j]).0 by {
            assert(all[i] == before[i]);
            if j < before.len() {
                assert(all[j] == before[j]);
            }
        }
    }
}

/// Members that are put in order have ascending keys.
proof fn lemma_members_ascend(entries: Seq<(Tree, Tree)>)
    ensures
        ({
            let all = sorted(members(entries), order::<Member>());
            forall|i: int, j: int|
                0 <= i < j < all.len() ==> (#[trigger] all[i]).0 != (#[trigger] all[j]).0
                    && text_le(all[i].0, all[j].0)
        }),
{
    let given = members(entries);
    let le = order::<Member>();
    let all = sorted(given, le);
    lemma_sorted::<Member>(given);
    lemma_members_differ(entries);
    given.lemma_multiset_has_no_duplicates();
    all.lemma_multiset_has_no_duplicates_conv();
    assert forall|i: int, j: int| 0 <= i < j < all.len() implies (#[trigger] all[i]).0 != (
    #[trigger] all[j]).0 && text_le(all[i].0, all[j].0) by {
        assert(le(all[i], all[j]));
        assert(all.contains(all[i]) && all.contains(all[j]));
        let a = choose|a: int| 0 <= a < given.len() && given[a] == all[i];
        let b = choose|b: int| 0 <= b < given.len() && given[b] == all[j];
        if a < b {
            assert(given[a].0 != given[b].0);
        } else if b < a {
            assert(given[b].0 != given[a].0);
        }
    }
}

/// Makes an object of its members.
fn object_of(members: Vec<Member>, Ghost(entries): Ghost<Seq<(Tree, Tree)>>) -> (r:
    serde_json::Value)
    requires
        members.deep_view() == self::members(entries),
    ensures
        json_tree(r) == Tree::Table(member_rows(sorted(self::members(entries), by_key()))),
{
    let ghost given = members.deep_view();
    let ordered = stable_sort(members);
    let ghost all = ordered.deep_view();
    let ghost made = ordered@;
    proof {
        assert(order::<Member>() =~= by_key());
        lemma_members_ascend(entries);
    }
    let mut items: Vec<(String, serde_json::Value)> = Vec::new();
    for member in it: ordered
        invariant
            it.seq() == made,
            made.len() == all.len(),
            forall|k: int| 0 <= k < made.len() ==> (#[trigger] made[k]).deep_view() == all[k],
            items@.len() == it.index(),
            forall|k: int|
                0 <= k < items@.len() ==> (#[trigger] items@[k]).0@ == all[k].0 && json_tree(
                    items@[k].1,
                ) == all[k].1,
    {
        assert(member.deep_view() == all[it.index()]);
        items.push((member.key, member.value));
    }
    let layer = Layer::Record(items);
    proof {
        assert forall|i: int, j: int| 0 <= i < j < items@.len() implies (#[trigger] items@[i]).0@
            != (#[trigger] items@[j]).0@ && text_le(items@[i].0@, items@[j].0@) by {
            assert(all[i].0 != all[j].0 && text_le(all[i].0, all[j].0));
        }
        assert(layer_tree(layer, |v: serde_json::Value| json_tree(v))->Table_0 =~= member_rows(
            all,
        ));
    }
    json_value(layer)
}

/// Makes a JSON value of a document.
fn to_json(node: &Node) -> (r: serde_json::Value)
    ensures
        json_tree(r) == as_json(node@),
    decreases node@,
{
    match node {
        Node::Null => json_value(Layer::Null),
        Node::Bool(b) => json_value(Layer::Bool(*b)),
        Node::Number(s) => match json_from_str(s) {
            Some(v) => v,
            None => json_value(Layer::Null),
        },
        Node::Text(s) => json_value(Layer::Text(s.clone())),
        Node::List(items) => {
            let ghost trees = node@->List_0;
            let mut out: Vec<serde_json::Value> = Vec::new();
            let mut i: usize = 0;
            while i < items.len()
                invariant
                    i <= items@.len(),
                    *node == Node::List(*items),
                    node@ == Tree::List(trees),
                    trees.len() == items@.len(),
                    forall|k: int|
                        0 <= k < trees.len() ==> #[trigger] trees[k] == tree_of(items@[k]),
                    out@.len() == i,
                    forall|k: int|
                        0 <= k < i ==> json_tree(#[trigger] out@[k]) == as_json(trees[k]),
                decreases items@.len() - i,
            {
                proof {
                    lemma_list_item(node@, i as int);
                }
                assert(trees[i as int] == items@[i as int]@);
                let value = to_json(&items[i]);
                out.push(value);
                i += 1;
            }
            let layer = Layer::List(out);
            assert(layer_tree(layer, |v: serde_json::Value| json_tree(v))->List_0 =~= as_json(
                node@,
            )->List_0);
            json_value(layer)
        }
        Node::Table(entries) => {
            let ghost rows = node@->Table_0;
            let ghost shaped = json_rows(rows);
            let mut seen = NameSet::new();
            let mut out: Vec<Member> = Vec::new();
            let mut i: usize = 0;
            assert(out.deep_view() =~= members(shaped.take(0)));
            while i < entries.len()
                invariant
                    i <= entries@.len(),
                    *node == Node::Table(*entries),
                    node@ == Tree::Table(rows),
                    rows.len() == entries@.len(),
                    shaped.len() == rows.len(),
                    forall|k: int|
                        0 <= k < rows.len() ==> #[trigger] rows[k] == (
                            tree_of(entries@[k].0),
                            tree_of(entries@[k].1),
                        ),
                    forall|k: int|
                        0 <= k < rows.len() ==> #[trigger] shaped[k] == (
                            rows[k].0,
                            as_json(rows[k].1),
                        ),
                    out.deep_view() == members(shaped.take(i as int)),
                    forall|key: Seq<char>| #[trigger]
                        seen@.contains(key) <==> has_key(out.deep_view(), key),
                decreases entries@.len() - i,
            {
                let ghost before = out.deep_view();
                proof {
                    lemma_table_entry(node@, i as int);
                    assert(rows[i as int] == (
                        tree_of(entries@[i as int].0),
                        tree_of(entries@[i as int].1),
                    ));
                    assert(shaped.take(i + 1).drop_last() =~= shaped.take(i as int));
                    assert(shaped.take(i + 1).last() == shaped[i as int]);
                }
                if let Node::Text(key) = &entries[i].0 {
                    if seen.insert(key) {
                        let value = to_json(&entries[i].1);
                        let member = Member { key: key.clone(), value };
                        let ghost m = member.deep_view();
                        out.push(member);
                        proof {
                            let now = out.deep_view();
                            assert(now =~= before.push(m));
                            assert forall|k: Seq<char>| #[trigger]
                                seen@.contains(k) <==> has_key(now, k) by {
                                if has_key(before, k) {
                                    let j = choose|j: int|
                                        0 <= j < before.len() && (#[trigger] before[j]).0 == k;
                                    assert(now[j].0 == k);
                                }
                                if k == key@ {
                                    assert(now[before.len() as int].0 == k);
                                }
                                if has_key(now, k) {
                                    let j = choose|j: int|
                                        0 <= j < now.len() && (#[trigger] now[j]).0 == k;
                                    if j < before.len() {
                                        assert(before[j].0 == k);
                                    }
                                }
                            }
                        }
                    }
                }
                i += 1;
            }
            assert(shaped.take(i as int) =~= shaped);
            object_of(out, Ghost(shaped))
        }
        Node::Tagged(inner) => {
            proof {
                lemma_tagged(node@);
            }
            to_json(inner)
        }
    }
}

/// Writes a document as JSON text, indented.
pub fn write_json(node: &Node) -> (r: String)
    ensures
        r@ == json_pretty(as_json(node@)),
{
    json_to_string_pretty(&to_json(node))
}

/// Looking up a key in a list with one entry more.
proof fn lemma_lookup_push(entries: Seq<(Tree, Tree)>, e: (Tree, Tree), key: Seq<char>)
    ensures
        lookup(entries.push(e), key) == (match lookup(entries, key) {
            Some(v) => Some(v),
            None => if e.0 == Tree::Text(key) {
                Some(e.1)
            } else {
                None
            },
        }),
    decreases entries.len(),
{
    let all = entries.push(e);
    if entries.len() > 0 {
        assert(all.skip(1) =~= entries.skip(1).push(e));
        assert(all[0] == entries[0]);
        lemma_lookup_push(entries.skip(1), e, key);
    } else {
        assert(all[0] == e);
        assert(lookup(all.skip(1), key) is None);
    }
}

/// The members are what can be looked up.
proof fn lemma_members_hold(entries: Seq<(Tree, Tree)>, key: Seq<char>)
    ensures
        match lookup(entries, key) {
            Some(v) => members(entries).contains((key, v)),
            None => !has_key(members(entries), key),
        },
    decreases entries.len(),
{
    if entries.len() > 0 {
        let d = entries.drop_last();
        let before = members(d);
        let all = members(entries);
        lemma_members_hold(d, key);
        lemma_lookup_push(d, entries.last(), key);
        assert(d.push(entries.last()) =~= entries);
        match lookup(d, key) {
            Some(v) => {
                let i = choose|i: int| 0 <= i < before.len() && before[i] == (key, v);
                assert(all[i] == (key, v));
            },
            None => {
                if entries.last().0 == Tree::Text(key) {
                    assert(all[before.len() as int] == (key, entries.last().1));
                } else if has_key(all, key) {
                    let i = choose|i: int| 0 <= i < all.len() && (#[trigger] all[i]).0 == key;
                    if i < before.len() {
                        assert(before[i].0 == key);
                    }
                }
            },
        }
    }
}

/// Looking up a key among members that have different keys.
proof fn lemma_lookup_rows(list: Seq<(Seq<char>, Tree)>, key: Seq<char>)
    requires
        forall|i: int, j: int|
            0 <= i < j < list.len() ==> (#[trigger] list[i]).0 != (#[trigger] list[j]).0,
    ensures
        forall|v: Tree| #[trigger]
            list.contains((key, v)) ==> lookup(member_rows(list), key) == Some(v),
        !has_key(list, key) ==> lookup(member_rows(list), key) is None,
    decreases list.len(),
{
    if list.len() > 0 {
        let d = list.drop_last();
        let e = list.last();
        lemma_lookup_rows(d, key);
        lemma_lookup_push(member_rows(d), (Tree::Text(e.0), e.1), key);
        assert(member_rows(d).push((Tree::Text(e.0), e.1)) =~= member_rows(list));
        if !has_key(list, key) {
            assert(list[list.len() - 1].0 != key);
            if has_key(d, key) {
                let i = choose|i: int| 0 <= i < d.len() && (#[trigger] d[i]).0 == key;
                assert(list[i].0 == key);
            }
        }
        assert forall|v: Tree| #[trigger] list.contains((key, v)) implies lookup(
            member_rows(list),
            key,
        ) == Some(v) by {
            let i = choose|i: int| 0 <= i < list.len() && list[i] == (key, v);
            if i < d.len() {
                assert(d[i] == (key, v));
                assert(d.contains((key, v)));
            } else if has_key(d, key) {
                let j = choose|j: int| 0 <= j < d.len() && (#[trigger] d[j]).0 == key;
                assert(list[j].0 != list[i].0);
            }
        }
    }
}

/// The value under a key of entries whose values were made JSON.
proof fn lemma_lookup_json_rows(entries: Seq<(Tree, Tree)>, key: Seq<char>)
    ensures
        lookup(json_rows(entries), key) == (match lookup(entries, key) {
            Some(v) => Some(as_json(v)),
            None => None,
        }),
    decreases entries.len(),
{
    if entries.len() > 0 {
        lemma_lookup_json_rows(entries.skip(1), key);
        assert(json_rows(entries).skip(1) =~= json_rows(entries.skip(1)));
    }
}

/// A table as JSON has the same fields, their values as JSON has them.
pub proof fn law_json_keeps_the_fields(t: Tree, key: Seq<char>)
    requires
        untagged(t) is Table,
    ensures
        child(as_json(t), key) == (match child(t, key) {
            Some(v) => Some(as_json(v)),
            None => None,
        }),
    decreases t,
{
    if t is Tagged {
        lemma_tagged(t);
        law_json_keeps_the_fields(*t->Tagged_0, key);
    } else {
        let entries = t->Table_0;
        let rows = json_rows(entries);
        let given = members(rows);
        let all = sorted(given, by_key());
        lemma_lookup_json_rows(entries, key);
        lemma_members_hold(rows, key);
        assert(order::<Member>() =~= by_key());
        lemma_sorted::<Member>(given);
        lemma_members_ascend(rows);
        lemma_lookup_rows(all, key);
        match lookup(rows, key) {
            Some(v) => {
                assert(all.contains((key, v)));
            },
            None => {
                if has_key(all, key) {
                    let i = choose|i: int| 0 <= i < all.len() && (#[trigger] all[i]).0 == key;
                    assert(all.contains(all[i]));
                    let j = choose|j: int| 0 <= j < given.len() && given[j] == all[i];
                    assert(given[j].0 == key);
                }
            },
        }
    }
}

/// Tags are seen through: a tagged value has the text, and the fields, of what
/// it tags.
pub proof fn law_tags_are_seen_through(inner: Tree, key: Seq<char>)
    ensures
        text_value(Tree::Tagged(Box::new(inner))) == text_value(inner),
        child(Tree::Tagged(Box::new(inner)), key) == child(inner, key),
        as_json(Tree::Tagged(Box::new(inner))) == as_json(inner),
        untagged(Tree::Tagged(Box::new(inner))) == untagged(inner),
        !(inner is Tagged) ==> untagged(inner) == inner,
{
}

/// A string is the text that it holds. Nothing else is a text, but for what a
/// tag stands before.
pub proof fn law_text_values(t: Tree)
    ensures
        t is Text ==> text_value(t) == Some(t->Text_0),
        !(t is Text) && !(t is Tagged) ==> text_value(t) is None,
{
}

/// The first entry under a text is the field of that name. What is no table has
/// no fields.
pub proof fn law_first_entry_of_a_key_counts(t: Tree, key: Seq<char>, i: int)
    ensures
        !(t is Table) && !(t is Tagged) ==> child(t, key) is None,
        t is Table && 0 <= i < t->Table_0.len() && t->Table_0[i].0 == Tree::Text(key) && (forall|
            k: int,
        |
            0 <= k < i ==> (#[trigger] t->Table_0[k]).0 != Tree::Text(key)) ==> child(t, key)
            == Some(t->Table_0[i].1),
        t is Table && (forall|k: int|
            0 <= k < t->Table_0.len() ==> (#[trigger] t->Table_0[k]).0 != Tree::Text(key)) ==> child(
            t,
            key,
        ) is None,
{
    if t is Table {
        let entries = t->Table_0;
        if 0 <= i < entries.len() && entries[i].0 == Tree::Text(key) && (forall|k: int|
            0 <= k < i ==> (#[trigger] entries[k]).0 != Tree::Text(key)) {
            lemma_lookup_first(entries, key, i);
        }
        if forall|k: int|
            0 <= k < entries.len() ==> (#[trigger] entries[k]).0 != Tree::Text(key) {
            lemma_lookup_first(entries, key, entries.len() as int);
        }
    }
}

/// The entry that a lookup finds.
proof fn lemma_lookup_first(entries: Seq<(Tree, Tree)>, key: Seq<char>, i: int)
    requires
        0 <= i <= entries.len(),
        forall|k: int| 0 <= k < i ==> (#[trigger] entries[k]).0 != Tree::Text(key),
    ensures
        i == entries.len() ==> lookup(entries, key) is None,
        i < entries.len() && entries[i].0 == Tree::Text(key) ==> lookup(entries, key) == Some(
            entries[i].1,
        ),
    decreases entries.len(),
{
    if i > 0 {
        let rest = entries.skip(1);
        assert(entries[0].0 != Tree::Text(key));
        assert forall|k: int| 0 <= k < i - 1 implies (#[trigger] rest[k]).0 != Tree::Text(key) by {
            assert(rest[k] == entries[k + 1]);
        }
        lemma_lookup_first(rest, key, i - 1);
        if i < entries.len() {
            assert(rest[i - 1] == entries[i]);
        }
    }
}

/// Keys are followed one after the other: no key stays where it is, one key
/// leads to the field of that name, and more keys go on from where the first
/// ones lead.
pub proof fn law_keys_are_followed_in_order(
    t: Tree,
    key: Seq<char>,
    first: Seq<Seq<char>>,
    rest: Seq<Seq<char>>,
)
    ensures
        descend(t, Seq::empty()) == Some(t),
        descend(t, seq![key]) == child(t, key),
        descend(t, first + rest) == (match descend(t, first) {
            Some(next) => descend(next, rest),
            None => None,
        }),
    decreases first.len(),
{
    let one = seq![key];
    assert(one.skip(1) =~= Seq::<Seq<char>>::empty());
    assert(one[0] == key);
    match child(t, key) {
        Some(next) => {
            assert(descend(next, one.skip(1)) == Some(next));
        },
        None => {},
    }
    if first.len() == 0 {
        assert(first + rest =~= rest);
    } else {
        let all = first + rest;
        assert(all[0] == first[0]);
        assert(all.skip(1) =~= first.skip(1) + rest);
        match child(t, first[0]) {
            Some(next) => law_keys_are_followed_in_order(next, key, first.skip(1), rest),
            None => {},
        }
    }
}

/// A path has the keys before a dot, and then those behind it; without a dot it
/// is one key.
pub proof fn law_keys_of_a_path(a: Seq<char>, b: Seq<char>)
    ensures
        path_keys(a + seq!['.'] + b) == path_keys(a) + path_keys(b),
        !a.contains('.') ==> path_keys(a) == seq![a],
{
    law_split_at_every_separator(a, '.', b, CharClass::Only('.'));
    if !a.contains('.') {
        assert forall|i: int| 0 <= i < a.len() implies !CharClass::Only('.').holds(
            #[trigger] a[i],
        ) by {
            assert(a.contains(a[i]));
        }
    }
}

/// Texts, truth values and nothing are the same in JSON. A number is what JSON
/// reads it as, or nothing. A list has all of its items, in their places.
pub proof fn law_json_keeps_plain_values(t: Tree, i: int)
    ensures
        t is Text || t is Bool || t is Null ==> as_json(t) == t,
        t is Number && json_text(t->Number_0) is Some ==> Some(as_json(t)) == json_text(
            t->Number_0,
        ),
        t is Number && json_text(t->Number_0) is None ==> as_json(t) is Null,
        t is List ==> as_json(t) is List && as_json(t)->List_0.len() == t->List_0.len(),
        t is List && 0 <= i < t->List_0.len() ==> as_json(t)->List_0[i] == as_json(t->List_0[i]),
{
}

/// The members of an object stand under texts, in the order of their keys, each
/// once.
pub proof fn law_json_objects_are_ordered(t: Tree, i: int, j: int)
    requires
        t is Table,
    ensures
        as_json(t) is Table,
        0 <= i < as_json(t)->Table_0.len() ==> as_json(t)->Table_0[i].0 is Text,
        0 <= i < j < as_json(t)->Table_0.len() ==> {
            let a = as_json(t)->Table_0[i].0->Text_0;
            let b = as_json(t)->Table_0[j].0->Text_0;
            a != b && text_le(a, b)
        },
{
    let rows = json_rows(t->Table_0);
    assert(order::<Member>() =~= by_key());
    lemma_members_ascend(rows);
    let all = sorted(members(rows), by_key());
    if 0 <= i < j < as_json(t)->Table_0.len() {
        assert(all[i].0 != all[j].0);
    }
}

/// A node holds what is in it.
pub proof fn law_nodes_hold_their_parts(node: Node, i: int)
    ensures
        node is Null ==> node@ is Null,
        node is Bool ==> node@ == Tree::Bool(node->Bool_0),
        node is Number ==> node@ == Tree::Number(node->Number_0@),
        node is Text ==> node@ == Tree::Text(node->Text_0@),
        node is List ==> node@ is List && node@->List_0.len() == node->List_0@.len(),
        node is List && 0 <= i < node->List_0@.len() ==> node@->List_0[i] == node->List_0@[i]@,
        node is Table ==> node@ is Table && node@->Table_0.len() == node->Table_0@.len(),
        node is Table && 0 <= i < node->Table_0@.len() ==> node@->Table_0[i] == (
            node->Table_0@[i].0@,
            node->Table_0@[i].1@,
        ),
        node is Tagged ==> node@ is Tagged && *node@->Tagged_0 == node->Tagged_0@,
{
}

} // verus!
