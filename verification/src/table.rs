//! Maps and sets keyed by text. A table remembers the order in which its
//! keys came, so that walking it gives the same result every time.

use vstd::hash_map::StringHashMap;
use vstd::hash_set::StringHashSet;
use vstd::prelude::*;

verus! {

/// A map from text to values, walked in the order of insertion.
pub struct Table<V> {
    keys: Vec<String>,
    values: Vec<V>,
    slots: StringHashMap<usize>,
}

impl<V> View for Table<V> {
    type V = Map<Seq<char>, V>;

    closed spec fn view(&self) -> Map<Seq<char>, V> {
        Map::new(
            |k: Seq<char>| self.slots@.contains_key(k),
            |k: Seq<char>| self.values@[self.slots@[k] as int],
        )
    }
}

impl<V: DeepView> DeepView for Table<V> {
    type V = Map<Seq<char>, V::V>;

    open spec fn deep_view(&self) -> Map<Seq<char>, V::V> {
        Map::new(|k: Seq<char>| self@.contains_key(k), |k: Seq<char>| self@[k].deep_view())
    }
}

impl<V> Table<V> {
    /// The keys and the slots agree: each key has the one slot it stands in.
    pub closed spec fn wf(&self) -> bool {
        &&& self.keys@.len() == self.values@.len()
        &&& forall|k: Seq<char>| #[trigger]
            self.slots@.contains_key(k) ==> {
                &&& self.slots@[k] < self.keys@.len()
                &&& self.keys@[self.slots@[k] as int]@ == k
            }
        &&& forall|i: int|
            0 <= i < self.keys@.len() ==> {
                &&& self.slots@.contains_key(#[trigger] self.keys@[i]@)
                &&& self.slots@[self.keys@[i]@] == i
            }
    }

    /// The keys in the order in which they came.
    pub closed spec fn order(&self) -> Seq<Seq<char>> {
        self.keys.deep_view()
    }

    /// The keys come each once, and are the keys of the map.
    pub proof fn lemma_order(&self)
        requires
            self.wf(),
        ensures
            self.order().no_duplicates(),
            forall|k: Seq<char>| self@.contains_key(k) <==> #[trigger] self.order().contains(k),
    {
        assert forall|i: int, j: int|
            0 <= i < self.order().len() && 0 <= j < self.order().len() && i != j implies self.order()[i]
            != self.order()[j] by {
            assert(self.slots@[self.keys@[i]@] == i);
            assert(self.slots@[self.keys@[j]@] == j);
        }
        assert forall|k: Seq<char>| self@.contains_key(k) <==> #[trigger] self.order().contains(
            k,
        ) by {
            if self@.contains_key(k) {
                assert(self.order()[self.slots@[k] as int] == k);
            }
            if self.order().contains(k) {
                let i = choose|i: int| 0 <= i < self.order().len() && self.order()[i] == k;
                assert(self.keys@[i]@ == k);
            }
        }
    }

    /// An empty table.
    pub fn new() -> (r: Self)
        ensures
            r.wf(),
            r@ == Map::<Seq<char>, V>::empty(),
            r.order() == Seq::<Seq<char>>::empty(),
    {
        let r = Table { keys: Vec::new(), values: Vec::new(), slots: StringHashMap::new() };
        assert(r@ =~= Map::<Seq<char>, V>::empty());
        assert(r.order() =~= Seq::<Seq<char>>::empty());
        r
    }

    /// How many keys the table holds.
    pub fn len(&self) -> (n: usize)
        requires
            self.wf(),
        ensures
            n == self.order().len(),
    {
        self.keys.len()
    }

    /// Whether the table holds `key`.
    pub fn contains_key(&self, key: &str) -> (r: bool)
        requires
            self.wf(),
        ensures
            r == self@.contains_key(key@),
    {
        self.slots.contains_key(key)
    }

    /// The value of `key`.
    pub fn get(&self, key: &str) -> (r: Option<&V>)
        requires
            self.wf(),
        ensures
            match r {
                Some(v) => self@.contains_key(key@) && *v == self@[key@],
                None => !self@.contains_key(key@),
            },
    {
        match self.slots.get(key) {
            Some(i) => Some(&self.values[*i]),
            None => None,
        }
    }

    /// The value of the key that came `i`-th.
    pub fn value_at(&self, i: usize) -> (r: &V)
        requires
            self.wf(),
            i < self.order().len(),
        ensures
            self@.contains_key(self.order()[i as int]),
            *r == self@[self.order()[i as int]],
    {
        assert(self.slots@.contains_key(self.keys@[i as int]@));
        &self.values[i]
    }

    /// Sets the value of `key`. A new key comes after the others, a key that
    /// is already there keeps its place.
    pub fn insert(&mut self, key: String, value: V)
        requires
            old(self).wf(),
        ensures
            final(self).wf(),
            final(self)@ == old(self)@.insert(key@, value),
            final(self).order() == (if old(self)@.contains_key(key@) {
                old(self).order()
            } else {
                old(self).order().push(key@)
            }),
    {
        let found = match self.slots.get(key.as_str()) {
            Some(i) => Some(*i),
            None => None,
        };
        match found {
            Some(i) => {
                self.values[i] = value;
                assert(self@ =~= old(self)@.insert(key@, value));
            }
            None => {
                let n = self.keys.len();
                let slot_key = key.clone();
                self.keys.push(key);
                self.values.push(value);
                self.slots.insert(slot_key, n);
                proof {
                    assert(self.order() =~= old(self).order().push(key@));
                    assert forall|k: Seq<char>| #[trigger] self.slots@.contains_key(k) implies {
                        &&& self.slots@[k] < self.keys@.len()
                        &&& self.keys@[self.slots@[k] as int]@ == k
                    } by {
                        if k != key@ {
                            assert(old(self).slots@.contains_key(k));
                        }
                    }
                    assert forall|i: int| 0 <= i < self.keys@.len() implies {
                        &&& self.slots@.contains_key(#[trigger] self.keys@[i]@)
                        &&& self.slots@[self.keys@[i]@] == i
                    } by {
                        if i < n {
                            assert(old(self).keys@[i] == self.keys@[i]);
                            assert(old(self).slots@.contains_key(old(self).keys@[i]@));
                        }
                    }
                    assert(self@ =~= old(self)@.insert(key@, value));
                }
            }
        }
    }
}

/// What a multimap holds for `key`; nothing counts as the empty sequence.
pub open spec fn entries<A>(m: Map<Seq<char>, Seq<A>>, key: Seq<char>) -> Seq<A> {
    if m.contains_key(key) {
        m[key]
    } else {
        Seq::empty()
    }
}

/// A multimap with one item more for `key`.
pub open spec fn with_entry<A>(m: Map<Seq<char>, Seq<A>>, key: Seq<char>, item: A) -> Map<
    Seq<char>,
    Seq<A>,
> {
    m.insert(key, entries(m, key).push(item))
}

/// An index with `path` added under each of `names`.
pub open spec fn index_names(
    m: Map<Seq<char>, Seq<Seq<char>>>,
    names: Seq<Seq<char>>,
    path: Seq<char>,
) -> Map<Seq<char>, Seq<Seq<char>>>
    decreases names.len(),
{
    if names.len() == 0 {
        m
    } else {
        with_entry(index_names(m, names.drop_last(), path), names.last(), path)
    }
}

impl Table<Vec<String>> {
    /// Appends `item` to what `key` holds.
    pub fn append(&mut self, key: &str, item: &str)
        requires
            old(self).wf(),
        ensures
            final(self).wf(),
            final(self).deep_view() == with_entry(old(self).deep_view(), key@, item@),
    {
        let ghost before = self.deep_view();
        let found = match self.slots.get(key) {
            Some(i) => Some(*i),
            None => None,
        };
        match found {
            Some(i) => {
                let ghost had = self.values@[i as int].deep_view();
                self.values[i].push(item.to_owned());
                assert(self.values@[i as int].deep_view() =~= had.push(item@));
                assert(self.deep_view() =~= with_entry(before, key@, item@));
            }
            None => {
                let mut fresh: Vec<String> = Vec::new();
                fresh.push(item.to_owned());
                assert(fresh.deep_view() =~= Seq::<Seq<char>>::empty().push(item@));
                self.insert(key.to_owned(), fresh);
                assert(self.deep_view() =~= with_entry(before, key@, item@));
            }
        }
    }
}

impl<T: DeepView> Table<Vec<T>> {
    /// Appends `items` to what `key` holds.
    pub fn extend(&mut self, key: &str, items: Vec<T>)
        requires
            old(self).wf(),
        ensures
            final(self).wf(),
            final(self).deep_view() == old(self).deep_view().insert(
                key@,
                entries(old(self).deep_view(), key@) + items.deep_view(),
            ),
    {
        let ghost before = self.deep_view();
        let ghost added = items.deep_view();
        let mut items = items;
        let found = match self.slots.get(key) {
            Some(i) => Some(*i),
            None => None,
        };
        match found {
            Some(i) => {
                let ghost had = self.values@[i as int].deep_view();
                self.values[i].append(&mut items);
                assert(self.values@[i as int].deep_view() =~= had + added);
                assert(self.deep_view() =~= before.insert(key@, entries(before, key@) + added));
            }
            None => {
                self.insert(key.to_owned(), items);
                assert(entries(before, key@) + added =~= added);
                assert(self.deep_view() =~= before.insert(key@, entries(before, key@) + added));
            }
        }
    }
}

/// A set of texts.
pub struct NameSet {
    names: StringHashSet,
}

impl View for NameSet {
    type V = Set<Seq<char>>;

    closed spec fn view(&self) -> Set<Seq<char>> {
        self.names@
    }
}

impl DeepView for NameSet {
    type V = Set<Seq<char>>;

    open spec fn deep_view(&self) -> Set<Seq<char>> {
        self@
    }
}

impl NameSet {
    /// An empty set.
    pub fn new() -> (r: Self)
        ensures
            r@ == Set::<Seq<char>>::empty(),
    {
        NameSet { names: StringHashSet::new() }
    }

    /// Adds a text; tells whether it was new.
    pub fn insert(&mut self, name: &str) -> (fresh: bool)
        ensures
            final(self)@ == old(self)@.insert(name@),
            fresh == !old(self)@.contains(name@),
    {
        self.names.insert(name.to_owned())
    }

    /// Whether the set holds the text.
    pub fn contains(&self, name: &str) -> (r: bool)
        ensures
            r == self@.contains(name@),
    {
        self.names.contains(name)
    }
}

/// What an index of sets holds for `key`; nothing counts as the empty set.
pub open spec fn members<A>(m: Map<Seq<char>, Set<A>>, key: Seq<char>) -> Set<A> {
    if m.contains_key(key) {
        m[key]
    } else {
        Set::empty()
    }
}

impl Table<NameSet> {
    /// Adds `item` to the set of `key`; tells whether it was new there.
    pub fn add(&mut self, key: &str, item: &str) -> (fresh: bool)
        requires
            old(self).wf(),
        ensures
            final(self).wf(),
            final(self).deep_view() == old(self).deep_view().insert(
                key@,
                members(old(self).deep_view(), key@).insert(item@),
            ),
            fresh == !members(old(self).deep_view(), key@).contains(item@),
    {
        let ghost before = self.deep_view();
        let found = match self.slots.get(key) {
            Some(i) => Some(*i),
            None => None,
        };
        match found {
            Some(i) => {
                let fresh = self.values[i].insert(item);
                assert(self.deep_view() =~= before.insert(
                    key@,
                    members(before, key@).insert(item@),
                ));
                fresh
            }
            None => {
                let mut one = NameSet::new();
                let fresh = one.insert(item);
                self.insert(key.to_owned(), one);
                assert(self.deep_view() =~= before.insert(
                    key@,
                    members(before, key@).insert(item@),
                ));
                fresh
            }
        }
    }
}

/// What an index holds for a key after names were added for a path: what it
/// held, and the path where the key is one of the names.
pub proof fn law_names_are_indexed(
    m: Map<Seq<char>, Seq<Seq<char>>>,
    names: Seq<Seq<char>>,
    path: Seq<char>,
    key: Seq<char>,
    p: Seq<char>,
)
    ensures
        entries(index_names(m, names, path), key).contains(p) <==> entries(m, key).contains(p) || (p
            == path && names.contains(key)),
    decreases names.len(),
{
    if names.len() > 0 {
        let d = names.drop_last();
        let had = entries(index_names(m, d, path), key);
        law_names_are_indexed(m, d, path, key, p);
        if names.contains(key) {
            let k = choose|k: int| 0 <= k < names.len() && names[k] == key;
            if k < d.len() {
                assert(d[k] == key);
            }
        }
        if d.contains(key) {
            let k = choose|k: int| 0 <= k < d.len() && d[k] == key;
            assert(names[k] == key);
        }
        if names.last() == key {
            let now = had.push(path);
            assert(names[names.len() - 1] == key);
            assert(entries(index_names(m, names, path), key) == now);
            if had.contains(p) {
                let k = choose|k: int| 0 <= k < had.len() && had[k] == p;
                assert(now[k] == p);
            }
            if p == path {
                assert(now[had.len() as int] == p);
            }
            if now.contains(p) {
                let k = choose|k: int| 0 <= k < now.len() && now[k] == p;
                if k < had.len() {
                    assert(had[k] == p);
                }
            }
        }
    }
}

/// A path is added once for each time that the key is among the names, behind
/// what the index held.
pub proof fn law_names_are_counted(
    m: Map<Seq<char>, Seq<Seq<char>>>,
    names: Seq<Seq<char>>,
    path: Seq<char>,
    key: Seq<char>,
)
    ensures
        entries(index_names(m, names, path), key).len() == entries(m, key).len() + names.filter(
            |n: Seq<char>| n == key,
        ).len(),
        entries(m, key).is_prefix_of(entries(index_names(m, names, path), key)),
    decreases names.len(),
{
    reveal(Seq::filter);
    let had = entries(m, key);
    let now = entries(index_names(m, names, path), key);
    if names.len() > 0 {
        let between = entries(index_names(m, names.drop_last(), path), key);
        law_names_are_counted(m, names.drop_last(), path, key);
        assert(between.subrange(0, had.len() as int) == had);
        assert(now.subrange(0, had.len() as int) =~= had);
    } else {
        assert(now.subrange(0, had.len() as int) =~= had);
    }
}

/// A multimap with one item more holds it behind what the key held, and holds
/// for other keys what it held.
pub proof fn law_entries_are_appended<A>(
    m: Map<Seq<char>, Seq<A>>,
    key: Seq<char>,
    item: A,
    other: Seq<char>,
)
    ensures
        entries(with_entry(m, key, item), key) == entries(m, key).push(item),
        other != key ==> entries(with_entry(m, key, item), other) == entries(m, other),
        entries(m, key) == (if m.contains_key(key) {
            m[key]
        } else {
            Seq::empty()
        }),
{
}

/// What an index of sets holds for a key.
pub proof fn law_members<A>(m: Map<Seq<char>, Set<A>>, key: Seq<char>, x: A)
    ensures
        members(m, key).contains(x) <==> m.contains_key(key) && m[key].contains(x),
{
}

} // verus!
