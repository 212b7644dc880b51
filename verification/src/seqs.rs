//! Sequence-of-buckets helpers: concatenating a sequence of buckets into the
//! sequence of all entries, and the lemmas the container needs about it.

use vstd::prelude::*;

verus! {

/// The entries of all buckets, in bucket order then intra-bucket order.
pub open spec fn flat<T>(bs: Seq<Seq<T>>) -> Seq<T>
    decreases bs.len(),
{
    if bs.len() == 0 {
        Seq::empty()
    } else {
        bs.first() + flat(bs.drop_first())
    }
}

/// The total number of entries over all buckets.
pub open spec fn sum_lens<T>(bs: Seq<Seq<T>>) -> nat
    decreases bs.len(),
{
    if bs.len() == 0 {
        0
    } else {
        bs.first().len() + sum_lens(bs.drop_first())
    }
}

/// Flattening yields exactly `sum_lens` entries.
pub proof fn lemma_flat_len<T>(bs: Seq<Seq<T>>)
    ensures
        flat(bs).len() == sum_lens(bs),
    decreases bs.len(),
{
    if bs.len() > 0 {
        lemma_flat_len(bs.drop_first());
    }
}

/// Replacing one bucket changes the total length by the difference of the
/// bucket lengths.
pub proof fn lemma_sum_lens_update<T>(bs: Seq<Seq<T>>, i: int, b: Seq<T>)
    requires
        0 <= i < bs.len(),
    ensures
        sum_lens(bs.update(i, b)) + bs[i].len() == sum_lens(bs) + b.len(),
    decreases bs.len(),
{
    if i == 0 {
        assert(bs.update(0, b).drop_first() =~= bs.drop_first());
    } else {
        assert(bs.update(i, b).drop_first() =~= bs.drop_first().update(i - 1, b));
        lemma_sum_lens_update(bs.drop_first(), i - 1, b);
    }
}

/// A sequence of empty buckets holds no entries.
pub proof fn lemma_sum_lens_all_empty<T>(bs: Seq<Seq<T>>)
    requires
        forall|i: int| 0 <= i < bs.len() ==> (#[trigger] bs[i]).len() == 0,
    ensures
        sum_lens(bs) == 0,
    decreases bs.len(),
{
    if bs.len() > 0 {
        assert(forall|i: int|
            0 <= i < bs.drop_first().len() ==> (#[trigger] bs.drop_first()[i]).len() == 0);
        lemma_sum_lens_all_empty(bs.drop_first());
    }
}

/// An entry occurs in the flattened sequence exactly when some bucket
/// contains it.
pub proof fn lemma_flat_contains<T>(bs: Seq<Seq<T>>, e: T)
    ensures
        flat(bs).contains(e) <==> exists|i: int| 0 <= i < bs.len() && bs[i].contains(e),
    decreases bs.len(),
{
    if bs.len() > 0 {
        lemma_flat_contains(bs.drop_first(), e);
        if flat(bs).contains(e) {
            if bs.first().contains(e) {
                assert(bs[0].contains(e));
            } else {
                assert(flat(bs.drop_first()).contains(e)) by {
                    let idx = choose|idx: int| 0 <= idx < flat(bs).len() && flat(bs)[idx] == e;
                    assert(flat(bs.drop_first())[idx - bs.first().len()] == e);
                }
                let i = choose|i: int|
                    0 <= i < bs.drop_first().len() && bs.drop_first()[i].contains(e);
                assert(bs[i + 1].contains(e));
            }
        }
        if exists|i: int| 0 <= i < bs.len() && bs[i].contains(e) {
            let i = choose|i: int| 0 <= i < bs.len() && bs[i].contains(e);
            if i == 0 {
                let j = choose|j: int| 0 <= j < bs[0].len() && bs[0][j] == e;
                assert(flat(bs)[j] == e);
            } else {
                assert(bs.drop_first()[i - 1].contains(e));
                let idx = choose|idx: int|
                    0 <= idx < flat(bs.drop_first()).len() && flat(bs.drop_first())[idx] == e;
                assert(flat(bs)[bs.first().len() + idx] == e);
            }
        }
    }
}

/// The flattened sequence ends with the last bucket.
pub proof fn lemma_flat_drop_last<T>(bs: Seq<Seq<T>>)
    requires
        bs.len() > 0,
    ensures
        flat(bs) == flat(bs.drop_last()) + bs.last(),
    decreases bs.len(),
{
    if bs.len() == 1 {
        assert(bs.drop_first().len() == 0);
        assert(bs.drop_last().len() == 0);
        assert(flat(bs) =~= flat(bs.drop_last()) + bs.last());
    } else {
        lemma_flat_drop_last(bs.drop_first());
        assert(bs.drop_first().drop_last() =~= bs.drop_last().drop_first());
        assert(bs.drop_first().last() == bs.last());
        assert(flat(bs) =~= flat(bs.drop_last()) + bs.last()) by {
            assert(flat(bs) == bs.first() + (flat(bs.drop_first().drop_last())
                + bs.last()));
            assert(flat(bs.drop_last()) == bs.first() + flat(bs.drop_last().drop_first()));
        }
    }
}

/// Replacing bucket `i` by the same bucket with one more entry adds that
/// entry to the multiset of all entries.
pub proof fn lemma_flat_update_push_multiset<T>(bs: Seq<Seq<T>>, i: int, e: T)
    requires
        0 <= i < bs.len(),
    ensures
        flat(bs.update(i, bs[i].push(e))).to_multiset() == flat(bs).to_multiset().insert(e),
    decreases bs.len(),
{
    broadcast use vstd::seq_lib::lemma_multiset_commutative;
    broadcast use vstd::seq_lib::group_to_multiset_ensures;

    let bs2 = bs.update(i, bs[i].push(e));
    if i == 0 {
        assert(bs2.drop_first() =~= bs.drop_first());
        assert(flat(bs2).to_multiset() =~= flat(bs).to_multiset().insert(e)) by {
            assert(flat(bs2) == bs.first().push(e) + flat(bs.drop_first()));
            assert(bs.first().push(e).to_multiset() == bs.first().to_multiset().insert(e));
        }
    } else {
        assert(bs2.drop_first() =~= bs.drop_first().update(i - 1, bs.drop_first()[i - 1].push(e)));
        lemma_flat_update_push_multiset(bs.drop_first(), i - 1, e);
        assert(flat(bs2).to_multiset() =~= flat(bs).to_multiset().insert(e)) by {
            assert(flat(bs2) == bs.first() + flat(bs2.drop_first()));
        }
    }
}

} // verus!
