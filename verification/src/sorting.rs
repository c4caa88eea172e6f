//! Insertion sort, at the specification level: the single ordering backbone
//! for the ranked merge, the nearest-neighbor list and the star-count sort.

use vstd::prelude::*;

verus! {

use vstd::multiset::Multiset;

/// `x` placed into `s` directly before the first element that `x` must not
/// follow under `le`.
pub open spec fn insert_sorted<T>(x: T, s: Seq<T>, le: spec_fn(T, T) -> bool) -> Seq<T>
    decreases s.len(),
{
    if s.len() == 0 {
        seq![x]
    } else if le(x, s[0]) {
        seq![x] + s
    } else {
        seq![s[0]] + insert_sorted(x, s.drop_first(), le)
    }
}

/// The sequence sorted by repeated insertion, keeping exactly the same
/// elements.
pub open spec fn sort_by_ins<T>(s: Seq<T>, le: spec_fn(T, T) -> bool) -> Seq<T>
    decreases s.len(),
{
    if s.len() == 0 {
        Seq::empty()
    } else {
        insert_sorted(s.last(), sort_by_ins(s.drop_last(), le), le)
    }
}

/// Every element comes no later than each element after it.
pub open spec fn sorted_by<T>(s: Seq<T>, le: spec_fn(T, T) -> bool) -> bool {
    forall|i: int, j: int| 0 <= i < j < s.len() ==> le(s[i], s[j])
}

/// Where the scan of a sorted sequence stops, the insertion is a splice at
/// that position.
pub proof fn lemma_insert_sorted_splice<T>(x: T, s: Seq<T>, le: spec_fn(T, T) -> bool, j: int)
    requires
        0 <= j <= s.len(),
        forall|k: int| 0 <= k < j ==> !le(x, s[k]),
        j < s.len() ==> le(x, s[j]),
    ensures
        insert_sorted(x, s, le) == s.insert(j, x),
    decreases s.len(),
{
    if s.len() == 0 {
        assert(insert_sorted(x, s, le) =~= s.insert(0, x));
    } else if j == 0 {
        assert(insert_sorted(x, s, le) =~= s.insert(0, x));
    } else {
        assert(!le(x, s[0]));
        assert(forall|k: int| 0 <= k < j - 1 ==> s.drop_first()[k] == s[k + 1]);
        lemma_insert_sorted_splice(x, s.drop_first(), le, j - 1);
        assert(insert_sorted(x, s, le) =~= s.insert(j, x));
    }
}

/// Inserting into a sorted sequence keeps it sorted and adds the element to
/// its contents.
pub proof fn lemma_insert_sorted_props<T>(x: T, s: Seq<T>, le: spec_fn(T, T) -> bool)
    requires
        sorted_by(s, le),
        forall|a: T, b: T| #[trigger] le(a, b) || #[trigger] le(b, a),
        forall|a: T, b: T, c: T| #[trigger] le(a, b) && #[trigger] le(b, c) ==> le(a, c),
    ensures
        sorted_by(insert_sorted(x, s, le), le),
        insert_sorted(x, s, le).to_multiset() == s.to_multiset().insert(x),
    decreases s.len(),
{
    broadcast use vstd::seq_lib::group_to_multiset_ensures;

    let r = insert_sorted(x, s, le);
    if s.len() == 0 {
        assert(r =~= seq![x]);
        assert(seq![x].to_multiset() == s.to_multiset().insert(x)) by {
            assert(seq![x].drop_first() =~= Seq::<T>::empty());
            assert(seq![x] =~= Seq::<T>::empty().push(x));
        }
    } else if le(x, s[0]) {
        assert(r =~= s.insert(0, x));
        assert forall|i: int, j: int| 0 <= i < j < r.len() implies le(r[i], r[j]) by {
            if i == 0 {
                assert(le(x, s[0]));
                if j > 1 {
                    assert(le(s[0], s[j - 1]));
                }
            }
        }
        assert(r =~= seq![x] + s);
        assert((seq![x] + s).to_multiset() == s.to_multiset().insert(x)) by {
            vstd::seq_lib::lemma_multiset_commutative(seq![x], s);
            assert(seq![x].to_multiset() == Multiset::<T>::empty().insert(x)) by {
                assert(seq![x] =~= Seq::<T>::empty().push(x));
            }
        }
    } else {
        assert(sorted_by(s.drop_first(), le)) by {
            assert(forall|k: int|
                0 <= k < s.drop_first().len() ==> s.drop_first()[k] == s[k + 1]);
        }
        lemma_insert_sorted_props(x, s.drop_first(), le);
        let ri = insert_sorted(x, s.drop_first(), le);
        assert(r =~= seq![s[0]] + ri);
        assert forall|i: int, j: int| 0 <= i < j < r.len() implies le(r[i], r[j]) by {
            if i == 0 {
                let e = r[j];
                assert(ri[j - 1] == e);
                assert(ri.to_multiset().contains(e));
                if e == x {
                    assert(le(s[0], x));
                } else {
                    assert(s.drop_first().to_multiset().contains(e));
                    let idx = choose|idx: int|
                        0 <= idx < s.drop_first().len() && s.drop_first()[idx] == e;
                    assert(le(s[0], s[idx + 1]));
                }
            } else {
                assert(le(ri[i - 1], ri[j - 1]));
            }
        }
        assert(r.to_multiset() == s.to_multiset().insert(x)) by {
            vstd::seq_lib::lemma_multiset_commutative(seq![s[0]], ri);
            vstd::seq_lib::lemma_multiset_commutative(seq![s[0]], s.drop_first());
            assert(seq![s[0]] + s.drop_first() =~= s);
            assert(r =~= seq![s[0]] + ri);
        }
    }
}

/// The insertion sort of a sequence is sorted and keeps exactly its
/// elements.
pub proof fn lemma_sort_by_ins_props<T>(s: Seq<T>, le: spec_fn(T, T) -> bool)
    requires
        forall|a: T, b: T| #[trigger] le(a, b) || #[trigger] le(b, a),
        forall|a: T, b: T, c: T| #[trigger] le(a, b) && #[trigger] le(b, c) ==> le(a, c),
    ensures
        sorted_by(sort_by_ins(s, le), le),
        sort_by_ins(s, le).to_multiset() == s.to_multiset(),
        sort_by_ins(s, le).len() == s.len(),
    decreases s.len(),
{
    broadcast use vstd::seq_lib::group_to_multiset_ensures;

    if s.len() == 0 {
        assert(sort_by_ins(s, le) =~= Seq::<T>::empty());
    } else {
        lemma_sort_by_ins_props(s.drop_last(), le);
        lemma_insert_sorted_props(s.last(), sort_by_ins(s.drop_last(), le), le);
        assert(s.drop_last().push(s.last()) =~= s);
        assert(s.drop_last().push(s.last()).to_multiset() == s.drop_last().to_multiset().insert(
            s.last(),
        ));
        assert(sort_by_ins(s, le).to_multiset().len() == s.to_multiset().len());
    }
}

} // verus!
