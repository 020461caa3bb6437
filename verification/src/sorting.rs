//! Stable insertion sort over any total preorder.
//!
//! The feed's stages are ordered by a priority comparator that ranks some
//! stages equal without them being equal values, so the sort is specified
//! as a stable one: `spec_sort_le` inserts every element after the
//! elements it compares equal to, which pins the result down completely.

use vstd::prelude::*;

verus! {

/// A total preorder that a type can be sorted by.
///
/// `le_spec` must be total and transitive; the two proof obligations make
/// every implementor show that.
pub trait SpecOrdered: Sized {
    /// The ordering relation.
    spec fn le_spec(self, other: Self) -> bool;

    /// Totality of the relation.
    proof fn lemma_le_total(a: Self, b: Self)
        ensures
            a.le_spec(b) || b.le_spec(a),
    ;

    /// Transitivity of the relation.
    proof fn lemma_le_trans(a: Self, b: Self, c: Self)
        requires
            a.le_spec(b),
            b.le_spec(c),
        ensures
            a.le_spec(c),
    ;
}

/// A sortable type: its preorder with an executable comparison.
pub trait OrderedBy: SpecOrdered {
    /// Executable comparison, equal to the relation.
    fn le(&self, other: &Self) -> (r: bool)
        ensures
            r == self.le_spec(*other),
    ;
}

/// A sequence sorted weakly by the relation.
pub open spec fn spec_sorted_le<T: SpecOrdered>(s: Seq<T>) -> bool {
    forall|i: int, j: int| 0 <= i < j < s.len() ==> #[trigger] s[i].le_spec(#[trigger] s[j])
}

/// Stable insertion of `x` into a sorted sequence: `x` goes in front of
/// the first element that is not `le` it, hence after every element it
/// compares equal to.
pub open spec fn spec_insert_le<T: SpecOrdered>(s: Seq<T>, x: T) -> Seq<T>
    decreases s.len(),
{
    if s.len() == 0 {
        seq![x]
    } else if !s[0].le_spec(x) {
        seq![x] + s
    } else {
        seq![s[0]] + spec_insert_le(s.drop_first(), x)
    }
}

/// Stable insertion sort: elements are inserted left to right.
pub open spec fn spec_sort_le<T: SpecOrdered>(s: Seq<T>) -> Seq<T>
    decreases s.len(),
{
    if s.len() == 0 {
        Seq::empty()
    } else {
        spec_insert_le(spec_sort_le(s.drop_last()), s.last())
    }
}

/// Inserting into a sorted sequence keeps it sorted and adds exactly the
/// new element to the multiset of elements.
pub proof fn lemma_insert_le_sorted<T: SpecOrdered>(s: Seq<T>, x: T)
    requires
        spec_sorted_le(s),
    ensures
        spec_sorted_le(spec_insert_le(s, x)),
        spec_insert_le(s, x).to_multiset() == s.to_multiset().insert(x),
        spec_insert_le(s, x).len() == s.len() + 1,
    decreases s.len(),
{
    broadcast use vstd::seq_lib::group_to_multiset_ensures;
    broadcast use vstd::seq_lib::to_multiset_insert;
    broadcast use vstd::multiset::group_multiset_axioms;

    if s.len() == 0 {
        assert(seq![x] =~= Seq::<T>::empty().push(x));
        assert(spec_insert_le(s, x).to_multiset() =~= s.to_multiset().insert(x));
    } else if !s[0].le_spec(x) {
        T::lemma_le_total(s[0], x);
        let r = seq![x] + s;
        assert forall|i: int, j: int| 0 <= i < j < r.len() implies #[trigger] r[i].le_spec(
            #[trigger] r[j],
        ) by {
            if i == 0 {
                if j == 1 {
                } else {
                    T::lemma_le_trans(x, s[0], s[j - 1]);
                }
            }
        }
        assert(r.drop_first() =~= s);
        assert(r =~= s.insert(0, x));
        assert(s.insert(0, x).to_multiset() =~= s.to_multiset().insert(x));
    } else {
        lemma_insert_le_sorted(s.drop_first(), x);
        let rest = spec_insert_le(s.drop_first(), x);
        let r = seq![s[0]] + rest;
        assert(r.drop_first() =~= rest);
        assert forall|i: int, j: int| 0 <= i < j < r.len() implies #[trigger] r[i].le_spec(
            #[trigger] r[j],
        ) by {
            if i == 0 {
                // rest holds the old tail elements and x, all of which s[0]
                // precedes
                assert(rest.to_multiset().contains(rest[j - 1]));
                assert(s.drop_first().to_multiset().insert(x).contains(rest[j - 1]));
                if rest[j - 1] == x {
                } else {
                    assert(s.drop_first().to_multiset().contains(rest[j - 1]));
                    let k = choose|k: int|
                        0 <= k < s.drop_first().len() && s.drop_first()[k] == rest[j - 1];
                    assert(s[k + 1] == rest[j - 1]);
                }
            }
        }
        assert(r =~= rest.insert(0, s[0]));
        assert(rest.insert(0, s[0]).to_multiset() =~= rest.to_multiset().insert(s[0]));
        assert(s.drop_first().insert(0, s[0]) =~= s);
        assert(s.drop_first().insert(0, s[0]).to_multiset() =~= s.drop_first().to_multiset().insert(
            s[0],
        ));
        assert(r.to_multiset() =~= s.to_multiset().insert(x));
    }
}

/// The sort of a sequence is sorted and keeps the multiset of elements.
pub proof fn lemma_sort_le_ensures<T: SpecOrdered>(s: Seq<T>)
    ensures
        spec_sorted_le(spec_sort_le(s)),
        spec_sort_le(s).to_multiset() == s.to_multiset(),
        spec_sort_le(s).len() == s.len(),
    decreases s.len(),
{
    broadcast use vstd::seq_lib::group_to_multiset_ensures;

    if s.len() == 0 {
        assert(spec_sort_le(s).to_multiset() =~= s.to_multiset());
    } else {
        lemma_sort_le_ensures(s.drop_last());
        lemma_insert_le_sorted(spec_sort_le(s.drop_last()), s.last());
        assert(s.drop_last().push(s.last()) =~= s);
        assert(s.drop_last().to_multiset().insert(s.last()) =~= s.drop_last().push(
            s.last(),
        ).to_multiset());
    }
}

/// Splices the insertion point into the take/skip form that the executable
/// insertion uses: if every element before `k` is `le` the new element and
/// the element at `k` (when there is one) is not, the insertion lands at
/// exactly position `k`.
pub proof fn lemma_insert_le_at<T: SpecOrdered>(s: Seq<T>, x: T, k: int)
    requires
        0 <= k <= s.len(),
        forall|i: int| 0 <= i < k ==> #[trigger] s[i].le_spec(x),
        k < s.len() ==> !s[k].le_spec(x),
    ensures
        spec_insert_le(s, x) == s.take(k) + seq![x] + s.skip(k),
    decreases s.len(),
{
    if s.len() == 0 {
        assert(spec_insert_le(s, x) =~= s.take(k) + seq![x] + s.skip(k));
    } else if k == 0 {
        assert(spec_insert_le(s, x) =~= s.take(0) + seq![x] + s.skip(0));
    } else {
        lemma_insert_le_at(s.drop_first(), x, k - 1);
        assert(s.drop_first().take(k - 1) =~= s.take(k).drop_first());
        assert(s.drop_first().skip(k - 1) =~= s.skip(k));
        assert(spec_insert_le(s, x) =~= s.take(k) + seq![x] + s.skip(k));
    }
}

/// Inserts `x` into the sorted vector `out`, keeping it sorted, exactly as
/// `spec_insert_le` describes.
pub fn insert_le<T: OrderedBy>(out: &mut Vec<T>, x: T)
    requires
        spec_sorted_le(old(out)@),
    ensures
        final(out)@ == spec_insert_le(old(out)@, x),
        final(out)@.len() == old(out)@.len() + 1,
        spec_sorted_le(final(out)@),
{
    let mut k: usize = 0;
    while k < out.len() && out[k].le(&x)
        invariant
            k <= out@.len(),
            forall|i: int| 0 <= i < k ==> #[trigger] out@[i].le_spec(x),
            spec_sorted_le(out@),
        decreases out@.len() - k,
    {
        k = k + 1;
    }
    proof {
        lemma_insert_le_at(out@, x, k as int);
        lemma_insert_le_sorted(out@, x);
    }
    out.insert(k, x);
    proof {
        assert(out@ =~= old(out)@.take(k as int) + seq![x] + old(out)@.skip(k as int));
    }
}

/// Sorts a vector by the type's relation, stably: the result is exactly
/// the `spec_sort_le` of the input.
pub fn insertion_sort<T: OrderedBy>(input: Vec<T>) -> (r: Vec<T>)
    ensures
        r@ == spec_sort_le(input@),
        spec_sorted_le(r@),
{
    let ghost full = input@;
    let mut rest = input;
    let mut out: Vec<T> = Vec::new();
    proof {
        assert(spec_sort_le(full.take(0)) =~= Seq::<T>::empty());
        assert(rest@ =~= full.skip(0));
    }
    while rest.len() > 0
        invariant
            out@.len() + rest@.len() == full.len(),
            rest@ == full.skip(out@.len() as int),
            out@ == spec_sort_le(full.take(out@.len() as int)),
            spec_sorted_le(out@),
        decreases rest@.len(),
    {
        let ghost i = out@.len() as int;
        let x = rest.remove(0);
        proof {
            assert(x == full[i]);
            assert(rest@ =~= full.skip(i + 1));
        }
        insert_le(&mut out, x);
        proof {
            assert(full.take(i + 1).drop_last() =~= full.take(i));
            assert(full.take(i + 1).last() == full[i]);
        }
    }
    proof {
        assert(full.take(full.len() as int) =~= full);
    }
    out
}

/// Two sorted sequences with the same elements are the same sequence, as
/// long as no two distinct elements among them compare equal both ways.
pub proof fn lemma_sorted_unique_le<T: SpecOrdered>(x: Seq<T>, y: Seq<T>)
    requires
        spec_sorted_le(x),
        spec_sorted_le(y),
        x.to_multiset() == y.to_multiset(),
        forall|a: T, b: T|
            x.contains(a) && x.contains(b) && #[trigger] a.le_spec(b) && #[trigger] b.le_spec(a)
                ==> a == b,
    ensures
        x == y,
    decreases x.len(),
{
    broadcast use vstd::seq_lib::group_to_multiset_ensures;
    broadcast use vstd::multiset::group_multiset_axioms;

    if x.len() == 0 || y.len() == 0 {
        x.to_multiset_ensures();
        y.to_multiset_ensures();
        assert(x.len() == x.to_multiset().len());
        assert(y.len() == y.to_multiset().len());
        assert(x =~= y);
    } else {
        assert(y.contains(y[0]));
        assert(y.to_multiset().contains(y[0]));
        assert(x.to_multiset().contains(y[0]));
        assert(x.contains(y[0]));
        assert(x.contains(x[0]));
        let i = choose|i: int| 0 <= i < x.len() && x[i] == y[0];
        assert(x[0].le_spec(y[0])) by {
            if i > 0 {
                assert(x[0].le_spec(x[i]));
            } else {
                T::lemma_le_total(x[0], y[0]);
                if !x[0].le_spec(y[0]) {
                    assert(y[0].le_spec(x[0]));
                }
            }
        }
        assert(x.to_multiset().contains(x[0]));
        assert(y.to_multiset().contains(x[0]));
        assert(y.contains(x[0]));
        let j = choose|j: int| 0 <= j < y.len() && y[j] == x[0];
        assert(y[0].le_spec(x[0])) by {
            if j > 0 {
                assert(y[0].le_spec(y[j]));
            } else {
                T::lemma_le_total(x[0], y[0]);
            }
        }
        assert(x[0] == y[0]);
        assert(x.drop_first() =~= x.remove(0));
        assert(y.drop_first() =~= y.remove(0));
        assert(x.drop_first().to_multiset() =~= x.to_multiset().remove(x[0]));
        assert(y.drop_first().to_multiset() =~= y.to_multiset().remove(y[0]));
        assert forall|a: T, b: T|
            x.drop_first().contains(a) && x.drop_first().contains(b) && #[trigger] a.le_spec(b)
                && #[trigger] b.le_spec(a) implies a == b by {
            let ia = choose|k: int| 0 <= k < x.drop_first().len() && x.drop_first()[k] == a;
            let ib = choose|k: int| 0 <= k < x.drop_first().len() && x.drop_first()[k] == b;
            assert(x[ia + 1] == a);
            assert(x[ib + 1] == b);
            assert(x.contains(a));
            assert(x.contains(b));
        }
        lemma_sorted_unique_le(x.drop_first(), y.drop_first());
        assert(x.drop_first().len() == y.drop_first().len());
        assert(x.len() == y.len());
        assert forall|k: int| 0 <= k < x.len() implies x[k] == y[k] by {
            if k > 0 {
                assert(x.drop_first()[k - 1] == y.drop_first()[k - 1]);
            }
        }
        assert(x =~= y);
    }
}

/// The element views of a sequence.
pub open spec fn views_of<T: DeepView>(s: Seq<T>) -> Seq<T::V> {
    s.map_values(|t: T| t.deep_view())
}

/// Inserting commutes with taking views, when the order on the values is
/// the order on their views.
pub proof fn lemma_insert_le_views<T: SpecOrdered + DeepView>(s: Seq<T>, x: T)
    where T::V: SpecOrdered
    requires
        forall|a: T, b: T| #[trigger] a.le_spec(b) == a.deep_view().le_spec(b.deep_view()),
    ensures
        views_of(spec_insert_le(s, x)) == spec_insert_le(views_of(s), x.deep_view()),
    decreases s.len(),
{
    if s.len() == 0 {
        assert(views_of(spec_insert_le(s, x)) =~= spec_insert_le(views_of(s), x.deep_view()));
    } else if !s[0].le_spec(x) {
        assert(views_of(s)[0] == s[0].deep_view());
        assert(views_of(seq![x] + s) =~= seq![x.deep_view()] + views_of(s));
    } else {
        lemma_insert_le_views(s.drop_first(), x);
        assert(views_of(s)[0] == s[0].deep_view());
        assert(views_of(s.drop_first()) =~= views_of(s).drop_first());
        assert(views_of(seq![s[0]] + spec_insert_le(s.drop_first(), x)) =~= seq![s[0].deep_view()]
            + views_of(spec_insert_le(s.drop_first(), x)));
    }
}

/// Sorting commutes with taking views, when the order on the values is the
/// order on their views.
pub proof fn lemma_sort_le_views<T: SpecOrdered + DeepView>(s: Seq<T>)
    where T::V: SpecOrdered
    requires
        forall|a: T, b: T| #[trigger] a.le_spec(b) == a.deep_view().le_spec(b.deep_view()),
    ensures
        views_of(spec_sort_le(s)) == spec_sort_le(views_of(s)),
    decreases s.len(),
{
    if s.len() == 0 {
        assert(views_of(spec_sort_le(s)) =~= spec_sort_le(views_of(s)));
    } else {
        lemma_sort_le_views(s.drop_last());
        lemma_insert_le_views(spec_sort_le(s.drop_last()), s.last());
        assert(views_of(s.drop_last()) =~= views_of(s).drop_last());
        assert(views_of(s).last() == s.last().deep_view());
    }
}

} // verus!
