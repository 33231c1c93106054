//! A stable merge sort over the views of its items.

use vstd::prelude::*;
use vstd::relations::*;
use vstd::seq_lib::*;

verus! {

/// Items that are kept in order by what their views hold.
pub trait Ranked: DeepView + Sized {
    /// Whether `a` may stand before `b`.
    spec fn le(a: Self::V, b: Self::V) -> bool;

    /// Any two items are ordered one way or the other.
    proof fn le_total(a: Self::V, b: Self::V)
        ensures
            Self::le(a, b) || Self::le(b, a),
    ;

    /// The order is transitive.
    proof fn le_transitive(a: Self::V, b: Self::V, c: Self::V)
        requires
            Self::le(a, b),
            Self::le(b, c),
        ensures
            Self::le(a, c),
    ;

    /// Whether `self` may stand before `other`.
    fn is_le(&self, other: &Self) -> (r: bool)
        ensures
            r == Self::le(self.deep_view(), other.deep_view()),
    ;
}

/// The order of an item type as a relation.
pub open spec fn order<T: Ranked>() -> spec_fn(T::V, T::V) -> bool {
    |a: T::V, b: T::V| T::le(a, b)
}

/// The items that are ordered both before and after `x`.
pub open spec fn tied<V>(le: spec_fn(V, V) -> bool, x: V) -> spec_fn(V) -> bool {
    |y: V| le(x, y) && le(y, x)
}

/// `output` holds the items of `input` in order, and items that tie stand as
/// they stood in `input`.
pub open spec fn is_stable_sort<V>(input: Seq<V>, output: Seq<V>, le: spec_fn(V, V) -> bool) -> bool {
    &&& output.to_multiset() == input.to_multiset()
    &&& sorted_by(output, le)
    &&& forall|x: V| #[trigger] output.filter(tied(le, x)) == input.filter(tied(le, x))
}

/// What a merge of `a0` and `b0` has reached: `a` and `b` are still to be
/// merged and `o`, which follows both, is done.
spec fn merging<V>(
    a0: Seq<V>,
    b0: Seq<V>,
    a: Seq<V>,
    b: Seq<V>,
    o: Seq<V>,
    le: spec_fn(V, V) -> bool,
) -> bool {
    &&& sorted_by(a, le)
    &&& sorted_by(b, le)
    &&& sorted_by(o, le)
    &&& forall|i: int, j: int|
        0 <= i < a.len() && 0 <= j < o.len() ==> le(#[trigger] a[i], #[trigger] o[j])
    &&& forall|i: int, j: int|
        0 <= i < b.len() && 0 <= j < o.len() ==> le(#[trigger] b[i], #[trigger] o[j])
    &&& (a + b + o).to_multiset() == (a0 + b0).to_multiset()
    &&& forall|x: V|
        a.filter(#[trigger] tied(le, x)) + b.filter(tied(le, x)) + o.filter(tied(le, x)) == (a0
            + b0).filter(tied(le, x))
}

/// Filtering a sequence with one item more in front.
proof fn lemma_filter_front<V>(x: V, s: Seq<V>, pred: spec_fn(V) -> bool)
    ensures
        (seq![x] + s).filter(pred) == (if pred(x) {
            seq![x] + s.filter(pred)
        } else {
            s.filter(pred)
        }),
{
    reveal(Seq::filter);
    Seq::filter_distributes_over_add(seq![x], s, pred);
    assert(seq![x].drop_last() =~= Seq::<V>::empty());
    assert(Seq::<V>::empty().filter(pred) =~= Seq::<V>::empty());
    if pred(x) {
        assert(seq![x].filter(pred) =~= seq![x]);
    } else {
        assert(seq![x].filter(pred) =~= Seq::<V>::empty());
        assert(Seq::<V>::empty() + s.filter(pred) =~= s.filter(pred));
    }
}

/// The last item of `b` may be taken when `a` has nothing greater.
proof fn lemma_take_right<V>(
    a0: Seq<V>,
    b0: Seq<V>,
    a: Seq<V>,
    b: Seq<V>,
    o: Seq<V>,
    le: spec_fn(V, V) -> bool,
)
    requires
        merging(a0, b0, a, b, o, le),
        transitive(le),
        b.len() > 0,
        a.len() == 0 || le(a.last(), b.last()),
    ensures
        merging(a0, b0, a, b.drop_last(), seq![b.last()] + o, le),
{
    let b1 = b.drop_last();
    let o1 = seq![b.last()] + o;
    assert(a + b1 + o1 =~= a + b + o);
    assert forall|i: int, j: int| 0 <= i < a.len() && 0 <= j < o1.len() implies le(
        #[trigger] a[i],
        #[trigger] o1[j],
    ) by {
        if j == 0 {
            if i < a.len() - 1 {
                assert(le(a[i], a.last()));
            }
        } else {
            assert(o1[j] == o[j - 1]);
        }
    }
    assert forall|i: int, j: int| 0 <= i < b1.len() && 0 <= j < o1.len() implies le(
        #[trigger] b1[i],
        #[trigger] o1[j],
    ) by {
        assert(b1[i] == b[i]);
        if j > 0 {
            assert(o1[j] == o[j - 1]);
        }
    }
    assert(sorted_by(o1, le)) by {
        assert forall|i: int, j: int| 0 <= i < j < o1.len() implies #[trigger] le(o1[i], o1[j]) by {
            if i == 0 {
                assert(o1[j] == o[j - 1]);
                assert(le(b[b.len() - 1], o[j - 1]));
            } else {
                assert(le(o[i - 1], o[j - 1]));
            }
        }
    }
    assert forall|x: V|
        a.filter(#[trigger] tied(le, x)) + b1.filter(tied(le, x)) + o1.filter(tied(le, x)) == (a0
            + b0).filter(tied(le, x)) by {
        let t = tied(le, x);
        lemma_filter_front(b.last(), o, t);
        assert(b.filter(t) == (if t(b.last()) {
            b1.filter(t).push(b.last())
        } else {
            b1.filter(t)
        })) by {
            reveal(Seq::filter);
        }
        assert(a.filter(t) + b1.filter(t) + o1.filter(t) =~= a.filter(t) + b.filter(t) + o.filter(
            t,
        ));
    }
}

/// The last item of `a` may be taken when everything in `b` is less.
proof fn lemma_take_left<V>(
    a0: Seq<V>,
    b0: Seq<V>,
    a: Seq<V>,
    b: Seq<V>,
    o: Seq<V>,
    le: spec_fn(V, V) -> bool,
)
    requires
        merging(a0, b0, a, b, o, le),
        transitive(le),
        strongly_connected(le),
        a.len() > 0,
        b.len() == 0 || !le(a.last(), b.last()),
    ensures
        merging(a0, b0, a.drop_last(), b, seq![a.last()] + o, le),
{
    let a1 = a.drop_last();
    let o1 = seq![a.last()] + o;
    assert((a1 + b + o1).to_multiset() == (a + b + o).to_multiset()) by {
        broadcast use lemma_multiset_commutative;
        broadcast use vstd::multiset::group_multiset_axioms;

        let x = seq![a.last()];
        assert(a =~= a1 + x);
        assert(a1 + b + o1 =~= (a1 + b) + (x + o));
        assert(a + b + o =~= ((a1 + x) + b) + o);
        assert((a1 + b + o1).to_multiset() =~= a1.to_multiset().add(b.to_multiset()).add(
            x.to_multiset().add(o.to_multiset()),
        ));
        assert((a + b + o).to_multiset() =~= a1.to_multiset().add(x.to_multiset()).add(
            b.to_multiset(),
        ).add(o.to_multiset()));
        assert((a1 + b + o1).to_multiset() =~= (a + b + o).to_multiset());
    }
    assert forall|i: int, j: int| 0 <= i < a1.len() && 0 <= j < o1.len() implies le(
        #[trigger] a1[i],
        #[trigger] o1[j],
    ) by {
        assert(a1[i] == a[i]);
        if j > 0 {
            assert(o1[j] == o[j - 1]);
        }
    }
    assert forall|i: int| 0 <= i < b.len() implies le(#[trigger] b[i], a.last()) && !le(
        a.last(),
        b[i],
    ) by {
        assert(le(b.last(), a.last()));
        if i < b.len() - 1 {
            assert(le(b[i], b.last()));
        }
    }
    assert forall|i: int, j: int| 0 <= i < b.len() && 0 <= j < o1.len() implies le(
        #[trigger] b[i],
        #[trigger] o1[j],
    ) by {
        if j > 0 {
            assert(o1[j] == o[j - 1]);
        }
    }
    assert(sorted_by(o1, le)) by {
        assert forall|i: int, j: int| 0 <= i < j < o1.len() implies #[trigger] le(o1[i], o1[j]) by {
            if i == 0 {
                assert(o1[j] == o[j - 1]);
                assert(le(a[a.len() - 1], o[j - 1]));
            } else {
                assert(le(o[i - 1], o[j - 1]));
            }
        }
    }
    assert forall|x: V|
        a1.filter(#[trigger] tied(le, x)) + b.filter(tied(le, x)) + o1.filter(tied(le, x)) == (a0
            + b0).filter(tied(le, x)) by {
        let t = tied(le, x);
        lemma_filter_front(a.last(), o, t);
        assert(a.filter(t) == (if t(a.last()) {
            a1.filter(t).push(a.last())
        } else {
            a1.filter(t)
        })) by {
            reveal(Seq::filter);
        }
        if t(a.last()) {
            if b.filter(t).len() > 0 {
                b.lemma_filter_pred(t, 0);
                let y = b.filter(t)[0];
                lemma_filter_member(b, t, 0);
                let k = choose|k: int| 0 <= k < b.len() && b[k] == y;
                assert(le(a.last(), b[k]));
                assert(false);
            }
            assert(b.filter(t) =~= Seq::<V>::empty());
        }
        assert(a1.filter(t) + b.filter(t) + o1.filter(t) =~= a.filter(t) + b.filter(t) + o.filter(
            t,
        ));
    }
}

/// What a predicate holds of is kept.
pub proof fn lemma_filter_keeps<A>(s: Seq<A>, pred: spec_fn(A) -> bool, i: int)
    requires
        0 <= i < s.len(),
        pred(s[i]),
    ensures
        s.filter(pred).contains(s[i]),
        s.filter(pred).len() > 0,
    decreases s.len(),
{
    reveal(Seq::filter);
    let d = s.drop_last();
    if i < d.len() {
        lemma_filter_keeps(d, pred, i);
        assert(d[i] == s[i]);
        let k = choose|k: int| 0 <= k < d.filter(pred).len() && d.filter(pred)[k] == s[i];
        assert(s.filter(pred)[k] == s[i]);
    } else {
        assert(s.filter(pred)[d.filter(pred).len() as int] == s[i]);
    }
}

/// What a filter keeps stood in the sequence.
pub proof fn lemma_filter_member<V>(s: Seq<V>, pred: spec_fn(V) -> bool, i: int)
    requires
        0 <= i < s.filter(pred).len(),
    ensures
        s.contains(s.filter(pred)[i]),
        pred(s.filter(pred)[i]),
    decreases s.len(),
{
    reveal(Seq::filter);
    if s.len() > 0 {
        let d = s.drop_last();
        if i < d.filter(pred).len() {
            lemma_filter_member(d, pred, i);
            let k = choose|k: int| 0 <= k < d.len() && d[k] == d.filter(pred)[i];
            assert(s[k] == d[k]);
        } else {
            assert(s[s.len() - 1] == s.filter(pred)[i]);
        }
    }
}

/// Puts the items of a vector in the opposite order.
fn reversed<T: DeepView>(v: Vec<T>) -> (r: Vec<T>)
    ensures
        r.deep_view() == v.deep_view().reverse(),
{
    let ghost start = v.deep_view();
    let mut v = v;
    let mut r: Vec<T> = Vec::new();
    while v.len() > 0
        invariant
            v.deep_view().len() + r.deep_view().len() == start.len(),
            v.deep_view() == start.take(v.deep_view().len() as int),
            r.deep_view() =~= start.skip(v.deep_view().len() as int).reverse(),
        decreases v@.len(),
    {
        let ghost before = v.deep_view();
        let ghost done = r.deep_view();
        if let Some(x) = v.pop() {
            r.push(x);
            assert(v.deep_view() =~= before.drop_last());
            assert(r.deep_view() =~= done.push(before.last()));
        }
    }
    assert(start.skip(0) =~= start);
    r
}

/// Merges two ordered vectors; of tied items those of `left` come first.
fn merge<T: Ranked>(left: Vec<T>, right: Vec<T>) -> (r: Vec<T>)
    requires
        sorted_by(left.deep_view(), order::<T>()),
        sorted_by(right.deep_view(), order::<T>()),
    ensures
        is_stable_sort(left.deep_view() + right.deep_view(), r.deep_view(), order::<T>()),
{
    let ghost le = order::<T>();
    let ghost a0 = left.deep_view();
    let ghost b0 = right.deep_view();
    proof {
        lemma_order::<T>();
    }
    let mut a = left;
    let mut b = right;
    let mut out: Vec<T> = Vec::new();
    proof {
        let o = out.deep_view().reverse();
        assert(o =~= Seq::<T::V>::empty());
        assert(a0 + b0 + o =~= a0 + b0);
        assert forall|x: T::V|
            a0.filter(#[trigger] tied(le, x)) + b0.filter(tied(le, x)) + o.filter(tied(le, x)) == (
            a0 + b0).filter(tied(le, x)) by {
            reveal(Seq::filter);
            Seq::filter_distributes_over_add(a0, b0, tied(le, x));
            assert(o.filter(tied(le, x)) =~= Seq::<T::V>::empty());
            assert(a0.filter(tied(le, x)) + b0.filter(tied(le, x)) + o.filter(tied(le, x))
                =~= a0.filter(tied(le, x)) + b0.filter(tied(le, x)));
        }
    }
    while a.len() > 0 || b.len() > 0
        invariant
            le == order::<T>(),
            transitive(le),
            strongly_connected(le),
            merging(a0, b0, a.deep_view(), b.deep_view(), out.deep_view().reverse(), le),
        decreases a@.len() + b@.len(),
    {
        let ghost av = a.deep_view();
        let ghost bv = b.deep_view();
        let ghost ov = out.deep_view();
        let take_right = b.len() > 0 && (a.len() == 0 || a[a.len() - 1].is_le(&b[b.len() - 1]));
        if take_right {
            proof {
                lemma_take_right(a0, b0, av, bv, ov.reverse(), le);
            }
            if let Some(x) = b.pop() {
                out.push(x);
                assert(b.deep_view() =~= bv.drop_last());
                assert(out.deep_view().reverse() =~= seq![bv.last()] + ov.reverse());
            }
        } else {
            proof {
                lemma_take_left(a0, b0, av, bv, ov.reverse(), le);
            }
            if let Some(x) = a.pop() {
                out.push(x);
                assert(a.deep_view() =~= av.drop_last());
                assert(out.deep_view().reverse() =~= seq![av.last()] + ov.reverse());
            }
        }
    }
    let ghost o = out.deep_view().reverse();
    let r = reversed(out);
    proof {
        assert(a.deep_view() + b.deep_view() + o =~= o);
        assert forall|x: T::V| #[trigger] o.filter(tied(le, x)) == (a0 + b0).filter(
            tied(le, x),
        ) by {
            reveal(Seq::filter);
            let t = tied(le, x);
            assert(a.deep_view().filter(t) + b.deep_view().filter(t) + o.filter(t) == (a0
                + b0).filter(t));
            assert(a.deep_view().filter(t) =~= Seq::<T::V>::empty());
            assert(b.deep_view().filter(t) =~= Seq::<T::V>::empty());
            assert(a.deep_view().filter(t) + b.deep_view().filter(t) + o.filter(t) =~= o.filter(t));
        }
    }
    r
}

/// The order of an item type is a total preorder.
pub proof fn lemma_order<T: Ranked>()
    ensures
        transitive(order::<T>()),
        strongly_connected(order::<T>()),
{
    let le = order::<T>();
    assert forall|a: T::V, b: T::V, c: T::V| #[trigger] le(a, b) && #[trigger] le(b, c) implies le(
        a,
        c,
    ) by {
        T::le_transitive(a, b, c);
    }
    assert forall|a: T::V, b: T::V| #[trigger] le(a, b) || #[trigger] le(b, a) by {
        T::le_total(a, b);
    }
}

/// The last item of a filtered sequence, where the filter keeps the last item.
proof fn lemma_filter_last<V>(s: Seq<V>, pred: spec_fn(V) -> bool)
    requires
        s.len() > 0,
    ensures
        pred(s.last()) ==> s.filter(pred) == s.drop_last().filter(pred).push(s.last()),
        !pred(s.last()) ==> s.filter(pred) == s.drop_last().filter(pred),
{
    reveal(Seq::filter);
}

/// A stable sort has one result: two sequences that are both in order, with
/// the same items and the same order among tied items, are equal.
pub proof fn lemma_stable_sort_unique<V>(p: Seq<V>, q: Seq<V>, le: spec_fn(V, V) -> bool)
    requires
        transitive(le),
        strongly_connected(le),
        p.to_multiset() == q.to_multiset(),
        sorted_by(p, le),
        sorted_by(q, le),
        forall|x: V| #[trigger] p.filter(tied(le, x)) == q.filter(tied(le, x)),
    ensures
        p == q,
    decreases p.len(),
{
    broadcast use vstd::multiset::group_multiset_axioms;

    p.to_multiset_ensures();
    q.to_multiset_ensures();
    assert(p.len() == q.len());
    if p.len() == 0 {
        assert(p =~= q);
    } else {
        let a = p.last();
        let b = q.last();
        assert(p[p.len() - 1] == a);
        assert(q[q.len() - 1] == b);
        assert(le(a, a));
        assert(le(b, b));
        assert(p.contains(b)) by {
            assert(q.contains(b));
            assert(p.to_multiset().count(b) > 0);
        }
        assert(q.contains(a)) by {
            assert(p.contains(a));
            assert(q.to_multiset().count(a) > 0);
        }
        let i = choose|i: int| 0 <= i < p.len() && p[i] == b;
        let j = choose|j: int| 0 <= j < q.len() && q[j] == a;
        assert(le(b, a)) by {
            if i < p.len() - 1 {
                assert(le(p[i], p[p.len() - 1]));
            }
        }
        assert(le(a, b)) by {
            if j < q.len() - 1 {
                assert(le(q[j], q[q.len() - 1]));
            }
        }
        let t = tied(le, a);
        assert(t(a) && t(b));
        lemma_filter_last(p, t);
        lemma_filter_last(q, t);
        assert(p.filter(t) == q.filter(t));
        assert(p.filter(t).last() == a);
        assert(q.filter(t).last() == b);
        assert(a == b);
        let p1 = p.drop_last();
        let q1 = q.drop_last();
        assert(p =~= p1.push(a));
        assert(q =~= q1.push(a));
        assert(p1.to_multiset() =~= q1.to_multiset()) by {
            p1.to_multiset_ensures();
            q1.to_multiset_ensures();
            assert(p.to_multiset() =~= p1.to_multiset().insert(a));
            assert(q.to_multiset() =~= q1.to_multiset().insert(a));
            assert forall|v: V| p1.to_multiset().count(v) == q1.to_multiset().count(v) by {
                let one = vstd::multiset::Multiset::singleton(a);
                assert(p1.to_multiset().insert(a).count(v) == p1.to_multiset().count(v)
                    + one.count(v));
                assert(q1.to_multiset().insert(a).count(v) == q1.to_multiset().count(v)
                    + one.count(v));
            }
        }
        assert forall|x: V| #[trigger] p1.filter(tied(le, x)) == q1.filter(tied(le, x)) by {
            let u = tied(le, x);
            lemma_filter_last(p, u);
            lemma_filter_last(q, u);
            assert(p.filter(u) == q.filter(u));
            if u(a) {
                assert(p1.filter(u) =~= p.filter(u).drop_last());
                assert(q1.filter(u) =~= q.filter(u).drop_last());
            }
        }
        lemma_stable_sort_unique(p1, q1, le);
    }
}

/// The stable sort of a sequence.
pub open spec fn sorted<V>(input: Seq<V>, le: spec_fn(V, V) -> bool) -> Seq<V> {
    choose|output: Seq<V>| is_stable_sort(input, output, le)
}

/// How many items of an ordered sequence may stand before `x`.
spec fn upper<V>(o: Seq<V>, x: V, le: spec_fn(V, V) -> bool) -> nat
    decreases o.len(),
{
    if o.len() == 0 {
        0
    } else if le(o.last(), x) {
        o.len()
    } else {
        upper(o.drop_last(), x, le)
    }
}

/// The items up to `upper` may stand before `x`, the others may not.
proof fn lemma_upper<V>(o: Seq<V>, x: V, le: spec_fn(V, V) -> bool)
    requires
        transitive(le),
        strongly_connected(le),
        sorted_by(o, le),
    ensures
        upper(o, x, le) <= o.len(),
        forall|i: int| 0 <= i < upper(o, x, le) ==> le(#[trigger] o[i], x),
        forall|i: int| upper(o, x, le) <= i < o.len() ==> !le(#[trigger] o[i], x),
    decreases o.len(),
{
    if o.len() > 0 {
        let d = o.drop_last();
        if le(o.last(), x) {
            assert forall|i: int| 0 <= i < o.len() implies le(#[trigger] o[i], x) by {
                if i < o.len() - 1 {
                    assert(le(o[i], o[o.len() - 1]));
                }
            }
        } else {
            assert forall|i: int, j: int| 0 <= i < j < d.len() implies #[trigger] le(d[i], d[j]) by {
                assert(le(o[i], o[j]));
            }
            lemma_upper(d, x, le);
            assert forall|i: int| 0 <= i < upper(o, x, le) implies le(#[trigger] o[i], x) by {
                assert(d[i] == o[i]);
            }
            assert forall|i: int| upper(o, x, le) <= i < o.len() implies !le(
                #[trigger] o[i],
                x,
            ) by {
                if i < d.len() {
                    assert(d[i] == o[i]);
                }
            }
        }
    }
}

/// Putting one item more into its place keeps a stable sort.
proof fn lemma_insert_sorted<V>(
    input: Seq<V>,
    o: Seq<V>,
    x: V,
    le: spec_fn(V, V) -> bool,
) -> (r: Seq<V>)
    requires
        transitive(le),
        strongly_connected(le),
        is_stable_sort(input, o, le),
    ensures
        is_stable_sort(input.push(x), r, le),
{
    broadcast use vstd::multiset::group_multiset_axioms;

    lemma_upper(o, x, le);
    let p = upper(o, x, le) as int;
    let a = o.take(p);
    let b = o.skip(p);
    let r = o.insert(p, x);
    assert(r =~= a.push(x) + b);
    assert(o =~= a + b);
    assert forall|i: int, j: int| 0 <= i < j < r.len() implies #[trigger] le(r[i], r[j]) by {
        let i0 = if i < p {
            i
        } else {
            i - 1
        };
        let j0 = if j < p {
            j
        } else {
            j - 1
        };
        if i == p {
            assert(r[j] == o[j - 1]);
            assert(!le(o[j - 1], x));
            assert(le(x, o[j - 1]) || le(o[j - 1], x));
        } else if j == p {
            assert(r[i] == o[i]);
        } else {
            assert(r[i] == o[i0] && r[j] == o[j0]);
            assert(le(o[i0], o[j0]));
        }
    }
    assert(r.to_multiset() =~= input.push(x).to_multiset()) by {
        input.to_multiset_ensures();
        to_multiset_insert(o, p, x);
        o.to_multiset_ensures();
    }
    assert forall|y: V| #[trigger] r.filter(tied(le, y)) == input.push(x).filter(tied(le, y)) by {
        let t = tied(le, y);
        let more = input.push(x);
        assert(more.drop_last() =~= input);
        lemma_filter_last(more, t);
        Seq::filter_distributes_over_add(a.push(x), b, t);
        Seq::filter_distributes_over_add(a, b, t);
        assert(a.push(x).drop_last() =~= a);
        lemma_filter_last(a.push(x), t);
        assert(o.filter(t) == input.filter(t));
        if t(x) {
            assert(b.filter(t).len() == 0) by {
                if b.filter(t).len() > 0 {
                    lemma_filter_member(b, t, 0);
                    let z = b.filter(t)[0];
                    let k = choose|k: int| 0 <= k < b.len() && b[k] == z;
                    assert(o[p + k] == z);
                    assert(le(z, y) && le(y, x));
                    assert(le(z, x));
                }
            }
            assert(r.filter(t) =~= a.filter(t).push(x));
            assert(o.filter(t) =~= a.filter(t));
        } else {
            assert(r.filter(t) =~= a.filter(t) + b.filter(t));
        }
    }
    r
}

/// Every sequence has a stable sort.
proof fn lemma_sort_exists<V>(input: Seq<V>, le: spec_fn(V, V) -> bool) -> (r: Seq<V>)
    requires
        transitive(le),
        strongly_connected(le),
    ensures
        is_stable_sort(input, r, le),
    decreases input.len(),
{
    if input.len() == 0 {
        input
    } else {
        let o = lemma_sort_exists(input.drop_last(), le);
        assert(input.drop_last().push(input.last()) =~= input);
        lemma_insert_sorted(input.drop_last(), o, input.last(), le)
    }
}

/// The stable sort of a sequence is one, and holds the items of the sequence.
pub proof fn lemma_sorted<T: Ranked>(input: Seq<T::V>)
    ensures
        is_stable_sort(input, sorted(input, order::<T>()), order::<T>()),
        forall|x: T::V| #[trigger]
            sorted(input, order::<T>()).contains(x) <==> input.contains(x),
{
    let le = order::<T>();
    lemma_order::<T>();
    let r = lemma_sort_exists(input, le);
    let out = sorted(input, le);
    assert(is_stable_sort(input, r, le));
    assert(is_stable_sort(input, out, le));
    assert forall|x: T::V| #[trigger] out.contains(x) <==> input.contains(x) by {
        out.to_multiset_ensures();
        input.to_multiset_ensures();
        assert(out.to_multiset().count(x) > 0 <==> out.contains(x));
        assert(input.to_multiset().count(x) > 0 <==> input.contains(x));
    }
}

/// Where no two different items tie, sorting does not depend on the order in
/// which the items came.
pub proof fn lemma_sorted_any_order<T: Ranked>(a: Seq<T::V>, b: Seq<T::V>)
    requires
        a.to_multiset() == b.to_multiset(),
        forall|x: T::V, y: T::V| #[trigger] T::le(x, y) && #[trigger] T::le(y, x) ==> x == y,
    ensures
        sorted(a, order::<T>()) == sorted(b, order::<T>()),
{
    let le = order::<T>();
    lemma_order::<T>();
    lemma_sorted::<T>(a);
    lemma_sorted::<T>(b);
    assert forall|x: T::V, y: T::V| #[trigger] le(x, y) && #[trigger] le(y, x) implies x == y by {
        assert(T::le(x, y) && T::le(y, x));
    }
    assert(total_ordering(le)) by {
        assert(antisymmetric(le));
        assert forall|x: T::V| #[trigger] le(x, x) by {
            assert(le(x, x) || le(x, x));
        }
    }
    lemma_sorted_unique(sorted(a, le), sorted(b, le), le);
}

/// Sorts a vector; items that tie keep their order.
pub fn stable_sort<T: Ranked>(v: Vec<T>) -> (r: Vec<T>)
    ensures
        is_stable_sort(v.deep_view(), r.deep_view(), order::<T>()),
        r.deep_view() == sorted(v.deep_view(), order::<T>()),
{
    let ghost input = v.deep_view();
    let r = merge_sort(v);
    proof {
        lemma_order::<T>();
        let out = sorted(input, order::<T>());
        assert(is_stable_sort(input, out, order::<T>()));
        lemma_stable_sort_unique(r.deep_view(), out, order::<T>());
    }
    r
}

/// Sorts by halves.
fn merge_sort<T: Ranked>(v: Vec<T>) -> (r: Vec<T>)
    ensures
        is_stable_sort(v.deep_view(), r.deep_view(), order::<T>()),
    decreases v@.len(),
{
    let mut left = v;
    let n = left.len();
    if n <= 1 {
        return left;
    }
    let ghost all = left.deep_view();
    let ghost le = order::<T>();
    let right = left.split_off(n / 2);
    let ghost lv = left.deep_view();
    let ghost rv = right.deep_view();
    assert(lv + rv =~= all);
    let left = merge_sort(left);
    let right = merge_sort(right);
    let r = merge(left, right);
    proof {
        let ls = left.deep_view();
        let rs = right.deep_view();
        assert((ls + rs).to_multiset() == all.to_multiset()) by {
            broadcast use lemma_multiset_commutative;

        }
        assert forall|x: T::V| #[trigger] r.deep_view().filter(tied(le, x)) == all.filter(
            tied(le, x),
        ) by {
            Seq::filter_distributes_over_add(ls, rs, tied(le, x));
            Seq::filter_distributes_over_add(lv, rv, tied(le, x));
            assert(ls.filter(tied(le, x)) == lv.filter(tied(le, x)));
            assert(rs.filter(tied(le, x)) == rv.filter(tied(le, x)));
        }
    }
    r
}

/// Sorting keeps every item, puts smaller ones first, and leaves items that tie
/// as they stood.
pub proof fn law_sorting_is_stable<T: Ranked>(input: Seq<T::V>, x: T::V)
    ensures
        ({
            let r = sorted(input, order::<T>());
            let ties = |y: T::V| T::le(x, y) && T::le(y, x);
            &&& r.len() == input.len()
            &&& r.to_multiset() == input.to_multiset()
            &&& forall|i: int, j: int|
                0 <= i < j < r.len() ==> T::le(#[trigger] r[i], #[trigger] r[j])
            &&& r.filter(ties) == input.filter(ties)
        }),
{
    lemma_sorted::<T>(input);
    let le = order::<T>();
    let r = sorted(input, le);
    let ties = |y: T::V| T::le(x, y) && T::le(y, x);
    assert(tied(le, x) =~= ties);
    assert(r.filter(tied(le, x)) == input.filter(tied(le, x)));
    r.to_multiset_ensures();
    input.to_multiset_ensures();
    assert forall|i: int, j: int| 0 <= i < j < r.len() implies T::le(
        #[trigger] r[i],
        #[trigger] r[j],
    ) by {
        assert(le(r[i], r[j]));
    }
}

} // verus!
