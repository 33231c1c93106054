//! Sequences built out of sequences.

use vstd::prelude::*;
use vstd::seq_lib::*;

verus! {

/// The items that `f` gives for each item of `s`, in order.
pub open spec fn concat_map<A, B>(s: Seq<A>, f: spec_fn(A) -> Seq<B>) -> Seq<B>
    decreases s.len(),
{
    if s.len() == 0 {
        Seq::empty()
    } else {
        concat_map(s.drop_last(), f) + f(s.last())
    }
}

/// One item more adds what `f` gives for it.
pub proof fn lemma_concat_map_step<A, B>(s: Seq<A>, f: spec_fn(A) -> Seq<B>, i: int)
    requires
        0 <= i < s.len(),
    ensures
        concat_map(s.take(i + 1), f) == concat_map(s.take(i), f) + f(s[i]),
{
    assert(s.take(i + 1).drop_last() =~= s.take(i));
}

/// Two functions that agree on the items of `s` give the same.
pub proof fn lemma_concat_map_agree<A, B>(
    s: Seq<A>,
    f: spec_fn(A) -> Seq<B>,
    g: spec_fn(A) -> Seq<B>,
)
    requires
        forall|i: int| 0 <= i < s.len() ==> f(#[trigger] s[i]) == g(s[i]),
    ensures
        concat_map(s, f) == concat_map(s, g),
    decreases s.len(),
{
    if s.len() > 0 {
        let d = s.drop_last();
        assert forall|i: int| 0 <= i < d.len() implies f(#[trigger] d[i]) == g(d[i]) by {
            assert(d[i] == s[i]);
        }
        lemma_concat_map_agree(d, f, g);
        assert(f(s[s.len() - 1]) == g(s[s.len() - 1]));
    }
}

/// What a concatenation holds comes from one of its parts.
pub proof fn lemma_concat_map_member<A, B>(s: Seq<A>, f: spec_fn(A) -> Seq<B>, x: B)
    ensures
        concat_map(s, f).contains(x) <==> exists|i: int|
            0 <= i < s.len() && f(#[trigger] s[i]).contains(x),
    decreases s.len(),
{
    if s.len() > 0 {
        let d = s.drop_last();
        let all = concat_map(s, f);
        let head = concat_map(d, f);
        let tail = f(s.last());
        lemma_concat_map_member(d, f, x);
        if all.contains(x) {
            let k = choose|k: int| 0 <= k < all.len() && all[k] == x;
            if k < head.len() {
                assert(head[k] == x);
                let i = choose|i: int| 0 <= i < d.len() && f(#[trigger] d[i]).contains(x);
                assert(f(s[i]).contains(x));
            } else {
                assert(tail[k - head.len()] == x);
                assert(f(s[s.len() - 1]).contains(x));
            }
        }
        if exists|i: int| 0 <= i < s.len() && f(#[trigger] s[i]).contains(x) {
            let i = choose|i: int| 0 <= i < s.len() && f(#[trigger] s[i]).contains(x);
            if i < d.len() {
                assert(f(d[i]).contains(x));
                let k = choose|k: int| 0 <= k < head.len() && head[k] == x;
                assert(all[k] == x);
            } else {
                let k = choose|k: int| 0 <= k < tail.len() && tail[k] == x;
                assert(all[head.len() + k] == x);
            }
        }
    }
}

/// Joining two lists and mapping the whole is mapping each.
pub proof fn lemma_concat_map_add<A, B>(a: Seq<A>, b: Seq<A>, f: spec_fn(A) -> Seq<B>)
    ensures
        concat_map(a + b, f) == concat_map(a, f) + concat_map(b, f),
    decreases b.len(),
{
    if b.len() == 0 {
        assert(a + b =~= a);
        assert(concat_map(a, f) + concat_map(b, f) =~= concat_map(a, f));
    } else {
        lemma_concat_map_add(a, b.drop_last(), f);
        assert((a + b).drop_last() =~= a + b.drop_last());
        assert((a + b).last() == b.last());
        assert(concat_map(a + b, f) =~= concat_map(a, f) + concat_map(b, f));
    }
}

/// One item gives what the function gives for it.
pub proof fn lemma_concat_map_one<A, B>(x: A, f: spec_fn(A) -> Seq<B>)
    ensures
        concat_map(seq![x], f) == f(x),
{
    assert(seq![x].drop_last() =~= Seq::<A>::empty());
    assert(concat_map(seq![x].drop_last(), f) =~= Seq::<B>::empty());
    assert(concat_map(seq![x], f) =~= f(x));
}

/// What a concatenation holds, and how often, does not depend on the order of
/// its parts.
pub proof fn lemma_concat_map_any_order<A, B>(a: Seq<A>, b: Seq<A>, f: spec_fn(A) -> Seq<B>)
    requires
        a.to_multiset() == b.to_multiset(),
    ensures
        concat_map(a, f).to_multiset() == concat_map(b, f).to_multiset(),
    decreases a.len(),
{
    broadcast use vstd::multiset::group_multiset_axioms;

    a.to_multiset_ensures();
    b.to_multiset_ensures();
    if a.len() == 0 {
        assert(a =~= b);
    } else {
        let x = a.last();
        assert(a.contains(x)) by {
            assert(a[a.len() - 1] == x);
        }
        assert(b.contains(x)) by {
            assert(a.to_multiset().count(x) > 0);
            assert(b.to_multiset().count(x) > 0);
        }
        let k = choose|k: int| 0 <= k < b.len() && b[k] == x;
        let head = b.take(k);
        let tail = b.skip(k + 1);
        let rest = b.remove(k);
        assert(rest =~= head + tail);
        assert(b =~= head + seq![x] + tail);
        assert(a.drop_last() =~= a.remove(a.len() - 1));
        assert(a.drop_last().to_multiset() =~= rest.to_multiset());
        lemma_concat_map_any_order(a.drop_last(), rest, f);
        lemma_concat_map_add(head + seq![x], tail, f);
        lemma_concat_map_add(head, seq![x], f);
        lemma_concat_map_add(head, tail, f);
        lemma_concat_map_one(x, f);
        let h = concat_map(head, f);
        let t = concat_map(tail, f);
        let m = f(x);
        lemma_multiset_commutative(concat_map(a.drop_last(), f), m);
        lemma_multiset_commutative(h + m, t);
        lemma_multiset_commutative(h, m);
        lemma_multiset_commutative(h, t);
        assert(concat_map(b, f).to_multiset() =~= concat_map(a, f).to_multiset());
    }
}

/// Joins vectors into one.
pub fn chain_all<T: DeepView>(parts: Vec<Vec<T>>) -> (r: Vec<T>)
    ensures
        r.deep_view() == concat_map(parts.deep_view(), |p: Seq<T::V>| p),
{
    let ghost all = parts@;
    let ghost views = parts.deep_view();
    let ghost f = |p: Seq<T::V>| p;
    let mut out: Vec<T> = Vec::new();
    assert(views.take(0) =~= Seq::<Seq<T::V>>::empty());
    assert(out.deep_view() =~= concat_map(views.take(0), f));
    for part in it: parts
        invariant
            it.seq() == all,
            views.len() == all.len(),
            forall|i: int| 0 <= i < all.len() ==> views[i] == #[trigger] all[i].deep_view(),
            out.deep_view() == concat_map(views.take(it.index()), f),
            f == |p: Seq<T::V>| p,
    {
        let mut part = part;
        let ghost before = out.deep_view();
        let ghost added = part.deep_view();
        out.append(&mut part);
        assert(out.deep_view() =~= before + added);
        proof {
            lemma_concat_map_step(views, f, it.index());
        }
    }
    assert(views.take(views.len() as int) =~= views);
    out
}

/// Joining the parts that `f` gives is the concatenation of `f`.
pub proof fn lemma_concat_parts<A, B>(s: Seq<A>, f: spec_fn(A) -> Seq<B>, parts: Seq<Seq<B>>)
    requires
        parts.len() == s.len(),
        forall|i: int| 0 <= i < s.len() ==> #[trigger] parts[i] == f(s[i]),
    ensures
        concat_map(parts, |p: Seq<B>| p) == concat_map(s, f),
    decreases s.len(),
{
    if s.len() > 0 {
        let d = parts.drop_last();
        assert forall|i: int| 0 <= i < s.drop_last().len() implies #[trigger] d[i] == f(
            s.drop_last()[i],
        ) by {
            assert(d[i] == parts[i]);
        }
        lemma_concat_parts(s.drop_last(), f, d);
        assert(parts[s.len() - 1] == f(s[s.len() - 1]));
    }
}

/// The items of `s` without those that stood earlier.
pub open spec fn first_occurrences<A>(s: Seq<A>) -> Seq<A>
    decreases s.len(),
{
    if s.len() == 0 {
        s
    } else {
        let head = first_occurrences(s.drop_last());
        if s.drop_last().contains(s.last()) {
            head
        } else {
            head.push(s.last())
        }
    }
}

/// First occurrences are the items of `s`, each of them once.
pub proof fn lemma_first_occurrences<A>(s: Seq<A>)
    ensures
        first_occurrences(s).no_duplicates(),
        forall|x: A| #[trigger] first_occurrences(s).contains(x) <==> s.contains(x),
    decreases s.len(),
{
    if s.len() > 0 {
        let d = s.drop_last();
        let head = first_occurrences(d);
        let all = first_occurrences(s);
        lemma_first_occurrences(d);
        assert forall|x: A| #[trigger] all.contains(x) <==> s.contains(x) by {
            if s.contains(x) {
                let k = choose|k: int| 0 <= k < s.len() && s[k] == x;
                if k < d.len() {
                    assert(d[k] == x);
                    assert(head.contains(x));
                    let j = choose|j: int| 0 <= j < head.len() && head[j] == x;
                    assert(all[j] == x);
                } else if d.contains(x) {
                    assert(head.contains(x));
                } else {
                    assert(all[head.len() as int] == x);
                }
            }
            if all.contains(x) {
                let j = choose|j: int| 0 <= j < all.len() && all[j] == x;
                if j < head.len() {
                    assert(head[j] == x);
                    assert(head.contains(x));
                    let k = choose|k: int| 0 <= k < d.len() && d[k] == x;
                    assert(s[k] == x);
                } else {
                    assert(s[s.len() - 1] == x);
                }
            }
        }
        assert(all.no_duplicates()) by {
            if !d.contains(s.last()) {
                assert(!head.contains(s.last()));
            }
        }
    }
}

/// A sequence without repetitions is its own first occurrences.
pub proof fn lemma_first_occurrences_fixed<A>(s: Seq<A>)
    requires
        s.no_duplicates(),
    ensures
        first_occurrences(s) == s,
    decreases s.len(),
{
    if s.len() > 0 {
        let d = s.drop_last();
        assert(d.no_duplicates());
        lemma_first_occurrences_fixed(d);
        assert(!d.contains(s.last())) by {
            if d.contains(s.last()) {
                let k = choose|k: int| 0 <= k < d.len() && d[k] == s.last();
                assert(s[k] == s[s.len() - 1]);
            }
        }
        assert(d.push(s.last()) =~= s);
    }
}

/// One item more is kept by a filter or not.
pub proof fn lemma_filter_step<A>(s: Seq<A>, pred: spec_fn(A) -> bool, i: int)
    requires
        0 <= i < s.len(),
    ensures
        s.take(i + 1).filter(pred) == (if pred(s[i]) {
            s.take(i).filter(pred).push(s[i])
        } else {
            s.take(i).filter(pred)
        }),
{
    reveal(Seq::filter);
    assert(s.take(i + 1).drop_last() =~= s.take(i));
}

/// Nothing is kept of nothing.
pub proof fn lemma_filter_empty<A>(s: Seq<A>, pred: spec_fn(A) -> bool)
    ensures
        s.take(0).filter(pred) == Seq::<A>::empty(),
{
    reveal(Seq::filter);
    assert(s.take(0).filter(pred) =~= Seq::<A>::empty());
}

/// Of one item more, a repetition is left out, and anything else comes last.
pub proof fn law_first_occurrences_keep_their_order<A>(s: Seq<A>, x: A)
    ensures
        first_occurrences(s.push(x)) == (if s.contains(x) {
            first_occurrences(s)
        } else {
            first_occurrences(s).push(x)
        }),
        first_occurrences(Seq::<A>::empty()) == Seq::<A>::empty(),
{
    assert(s.push(x).drop_last() =~= s);
}

/// Every item of every part is in the concatenation, at the place that the
/// parts before it leave to it.
pub proof fn law_parts_follow_each_other<A, B>(s: Seq<A>, f: spec_fn(A) -> Seq<B>, i: int, k: int)
    requires
        0 <= i < s.len(),
        0 <= k < f(s[i]).len(),
    ensures
        concat_map(s.take(i), f).len() + k < concat_map(s, f).len(),
        concat_map(s, f)[concat_map(s.take(i), f).len() + k] == f(s[i])[k],
{
    let head = s.take(i);
    let tail = s.skip(i + 1);
    assert(s =~= head + seq![s[i]] + tail);
    lemma_concat_map_add(head + seq![s[i]], tail, f);
    lemma_concat_map_add(head, seq![s[i]], f);
    lemma_concat_map_one(s[i], f);
}

} // verus!
