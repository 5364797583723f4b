use vstd::prelude::*;

verus! {

/// `x` put into `sorted` after every element that it does not come before: one step of a
/// stable insertion sort under the strict order `less`.
pub open spec fn insert_by<T>(sorted: Seq<T>, x: T, less: spec_fn(T, T) -> bool) -> Seq<T>
    decreases sorted.len(),
{
    if sorted.len() == 0 {
        seq![x]
    } else if less(x, sorted.last()) {
        insert_by(sorted.drop_last(), x, less).push(sorted.last())
    } else {
        sorted.push(x)
    }
}

/// The stable sort of `s` under the strict order `less`: elements that neither comes before the
/// other keep their order.
pub open spec fn sort_by<T>(s: Seq<T>, less: spec_fn(T, T) -> bool) -> Seq<T>
    decreases s.len(),
{
    if s.len() == 0 {
        Seq::empty()
    } else {
        insert_by(sort_by(s.drop_last(), less), s.last(), less)
    }
}

/// Inserting after the last element that `x` does not come before, where all later elements
/// come after `x`, is what `insert_by` does.
pub proof fn lemma_insert_by_position<T>(sorted: Seq<T>, x: T, less: spec_fn(T, T) -> bool, k: int)
    requires
        0 <= k <= sorted.len(),
        forall|j: int| k <= j < sorted.len() ==> less(x, #[trigger] sorted[j]),
        k == 0 || !less(x, sorted[k - 1]),
    ensures
        insert_by(sorted, x, less) == sorted.take(k).push(x) + sorted.skip(k),
    decreases sorted.len() - k,
{
    if sorted.len() == 0 {
        assert(sorted.take(k).push(x) + sorted.skip(k) =~= seq![x]);
    } else if k == sorted.len() {
        assert(!less(x, sorted.last()));
        assert(sorted.take(k).push(x) + sorted.skip(k) =~= sorted.push(x));
    } else {
        assert(less(x, sorted.last()));
        let d = sorted.drop_last();
        assert forall|j: int| k <= j < d.len() implies less(x, #[trigger] d[j]) by {
            assert(d[j] == sorted[j]);
        }
        if k > 0 {
            assert(d[k - 1] == sorted[k - 1]);
        }
        lemma_insert_by_position(d, x, less, k);
        assert(d.take(k).push(x) + d.skip(k) + seq![sorted.last()] =~= sorted.take(k).push(x) + sorted.skip(k));
    }
}

} // verus!

verus! {

/// No element of `s` comes, under `less`, before an element that precedes it.
pub open spec fn sorted_by<T>(s: Seq<T>, less: spec_fn(T, T) -> bool) -> bool {
    forall|i: int, j: int| 0 <= i < j < s.len() ==> !less(#[trigger] s[j], #[trigger] s[i])
}

/// `less` is a strict weak order: asymmetric, and "does not come before" is transitive.
pub open spec fn strict_weak_order<T>(less: spec_fn(T, T) -> bool) -> bool {
    &&& forall|a: T, b: T| #[trigger] less(a, b) ==> !less(b, a)
    &&& forall|a: T, b: T, c: T| !#[trigger] less(a, b) && !#[trigger] less(b, c) ==> !less(a, c)
}

pub proof fn lemma_insert_by_multiset<T>(sorted: Seq<T>, x: T, less: spec_fn(T, T) -> bool)
    ensures
        insert_by(sorted, x, less).to_multiset() == sorted.to_multiset().insert(x),
    decreases sorted.len(),
{
    broadcast use vstd::seq_lib::group_to_multiset_ensures;
    broadcast use vstd::multiset::group_multiset_axioms;

    if sorted.len() == 0 {
        assert(seq![x] =~= Seq::<T>::empty().push(x));
    } else if less(x, sorted.last()) {
        lemma_insert_by_multiset(sorted.drop_last(), x, less);
        assert(sorted =~= sorted.drop_last().push(sorted.last()));
        assert(insert_by(sorted, x, less).to_multiset() =~= sorted.to_multiset().insert(x));
    }
}

/// Sorting keeps exactly the elements it was given, each as often.
pub proof fn law_sort_by_is_permutation<T>(s: Seq<T>, less: spec_fn(T, T) -> bool)
    ensures
        sort_by(s, less).to_multiset() == s.to_multiset(),
    decreases s.len(),
{
    broadcast use vstd::seq_lib::group_to_multiset_ensures;

    if s.len() > 0 {
        law_sort_by_is_permutation(s.drop_last(), less);
        lemma_insert_by_multiset(sort_by(s.drop_last(), less), s.last(), less);
        assert(s =~= s.drop_last().push(s.last()));
    }
}

proof fn lemma_insert_by_len<T>(sorted: Seq<T>, x: T, less: spec_fn(T, T) -> bool)
    ensures
        insert_by(sorted, x, less).len() == sorted.len() + 1,
    decreases sorted.len(),
{
    if sorted.len() > 0 && less(x, sorted.last()) {
        lemma_insert_by_len(sorted.drop_last(), x, less);
    }
}

proof fn lemma_insert_by_elements<T>(sorted: Seq<T>, x: T, less: spec_fn(T, T) -> bool, i: int)
    requires
        0 <= i < sorted.len() + 1,
    ensures
        insert_by(sorted, x, less).len() == sorted.len() + 1,
        insert_by(sorted, x, less)[i] == x || sorted.contains(insert_by(sorted, x, less)[i]),
    decreases sorted.len(),
{
    lemma_insert_by_len(sorted, x, less);
    if sorted.len() > 0 && less(x, sorted.last()) {
        lemma_insert_by_len(sorted.drop_last(), x, less);
        let d = sorted.drop_last();
        if i < sorted.len() {
            lemma_insert_by_elements(d, x, less, i);
            if insert_by(d, x, less)[i] != x {
                let k = choose|k: int| 0 <= k < d.len() && d[k] == insert_by(d, x, less)[i];
                assert(sorted[k] == d[k]);
            }
        } else {
            lemma_insert_by_elements(d, x, less, 0);
            assert(sorted[sorted.len() - 1] == sorted.last());
        }
    } else if sorted.len() > 0 {
        if i < sorted.len() {
            assert(sorted.push(x)[i] == sorted[i]);
        }
    }
}

proof fn lemma_insert_by_sorted<T>(sorted: Seq<T>, x: T, less: spec_fn(T, T) -> bool)
    requires
        strict_weak_order(less),
        sorted_by(sorted, less),
    ensures
        sorted_by(insert_by(sorted, x, less), less),
    decreases sorted.len(),
{
    if sorted.len() == 0 {
    } else if less(x, sorted.last()) {
        let d = sorted.drop_last();
        let last = sorted.last();
        assert(sorted_by(d, less));
        lemma_insert_by_sorted(d, x, less);
        let r = insert_by(sorted, x, less);
        let inner = insert_by(d, x, less);
        lemma_insert_by_len(d, x, less);
        assert forall|i: int, j: int| 0 <= i < j < r.len() implies !less(#[trigger] r[j], #[trigger] r[i]) by {
            if j < r.len() - 1 {
                assert(r[i] == inner[i] && r[j] == inner[j]);
            } else {
                assert(r[j] == last);
                assert(r[i] == inner[i]);
                lemma_insert_by_elements(d, x, less, i);
                if inner[i] == x {
                } else {
                    let k = choose|k: int| 0 <= k < d.len() && d[k] == inner[i];
                    assert(sorted[k] == d[k]);
                    assert(!less(sorted[sorted.len() - 1], sorted[k]));
                }
            }
        }
    } else {
        let r = sorted.push(x);
        assert forall|i: int, j: int| 0 <= i < j < r.len() implies !less(#[trigger] r[j], #[trigger] r[i]) by {
            if j < sorted.len() {
                assert(r[i] == sorted[i] && r[j] == sorted[j]);
            } else {
                assert(r[j] == x);
                assert(r[i] == sorted[i]);
                if i < sorted.len() - 1 {
                    assert(!less(sorted[sorted.len() - 1], sorted[i]));
                }
                assert(!less(x, sorted.last()));
            }
        }
    }
}

/// Under a strict weak order, sorting yields a sorted sequence.
pub proof fn law_sort_by_is_sorted<T>(s: Seq<T>, less: spec_fn(T, T) -> bool)
    requires
        strict_weak_order(less),
    ensures
        sorted_by(sort_by(s, less), less),
    decreases s.len(),
{
    if s.len() > 0 {
        law_sort_by_is_sorted(s.drop_last(), less);
        lemma_insert_by_sorted(sort_by(s.drop_last(), less), s.last(), less);
    }
}

} // verus!
