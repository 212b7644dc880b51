//! The chained hash map itself: a growable array of buckets, each bucket a
//! vector of key-value pairs, together with a read-only iterator.

use vstd::prelude::*;
use vstd::multiset::Multiset;
use crate::keys::HashKey;
use crate::model::{
    distinct_models, lemma_flat_models_no_dup, lemma_map_of_dom, lemma_map_of_len,
    lemma_map_of_value, lemma_same_entries_same_map, lemma_unplaced_entry_fresh, map_of, models_of,
};
use crate::seqs::{
    flat, lemma_flat_contains, lemma_flat_drop_last, lemma_flat_len,
    lemma_flat_update_push_multiset, lemma_sum_lens_all_empty, lemma_sum_lens_update,
};

verus! {

/// Whether `n` is a power of two.
pub open spec fn is_pow2(n: int) -> bool
    decreases n,
{
    if n <= 0 {
        false
    } else if n == 1 {
        true
    } else {
        n % 2 == 0 && is_pow2(n / 2)
    }
}

/// The bucket a hash value selects among `n` buckets.
pub open spec fn slot_of(h: u64, n: int) -> int
    recommends
        n > 0,
{
    (h as int) % n
}

/// A map from keys to values, implemented by hashing with separate
/// chaining.  The bucket array starts empty, is allocated on the first
/// insertion, and doubles whenever the load factor passes 3/4.
pub struct HashMap<K, V> {
    buckets: Vec<Vec<(K, V)>>,
    items: usize,
}

impl<K: HashKey, V> View for HashMap<K, V> {
    type V = Map<<K as HashKey>::Model, V>;

    closed spec fn view(&self) -> Map<<K as HashKey>::Model, V> {
        map_of(flat(self.bviews()))
    }
}

/// The views of a sequence of bucket vectors.
spec fn views_of<K, V>(bs: Seq<Vec<(K, V)>>) -> Seq<Seq<(K, V)>> {
    bs.map_values(|b: Vec<(K, V)>| b@)
}

impl<K: HashKey, V> HashMap<K, V> {
    /// The buckets as mathematical sequences.
    spec fn bviews(self) -> Seq<Seq<(K, V)>> {
        views_of(self.buckets@)
    }

    /// All stored entries, in bucket order then intra-bucket order.
    pub closed spec fn entries(self) -> Seq<(K, V)> {
        flat(self.bviews())
    }

    /// The number of buckets.
    pub closed spec fn num_buckets(self) -> nat {
        self.buckets@.len()
    }

    /// Well-formedness: the entry count is exact; the bucket count is zero
    /// or a power of two; the load factor stays within one entry of 3/4;
    /// every entry sits in the bucket its hash selects; and no key model
    /// occurs twice.
    pub closed spec fn wf(self) -> bool {
        let bs = self.bviews();
        let n = bs.len() as int;
        &&& self.items == flat(bs).len()
        &&& (n == 0 || is_pow2(n))
        &&& 4 * flat(bs).len() <= 3 * n + 4
        &&& forall|i: int, j: int|
            0 <= i < n && 0 <= j < bs[i].len() ==> slot_of(
                (#[trigger] bs[i][j]).0.key_hash(),
                n,
            ) == i
        &&& distinct_models(bs)
    }

    /// Returns an empty map with no buckets; nothing is allocated yet.
    pub fn new() -> (m: Self)
        ensures
            m.wf(),
            m@ == Map::<<K as HashKey>::Model, V>::empty(),
            m.num_buckets() == 0,
    {
        let m = HashMap { buckets: Vec::new(), items: 0 };
        proof {
            assert(m.bviews() =~= Seq::<Seq<(K, V)>>::empty());
        }
        m
    }

    /// The number of entries.
    pub fn len(&self) -> (n: usize)
        requires
            self.wf(),
        ensures
            n == self@.len(),
    {
        proof {
            self.lemma_count();
        }
        self.items
    }

    /// Whether the map holds no entry.
    pub fn is_empty(&self) -> (b: bool)
        requires
            self.wf(),
        ensures
            b == (self@.len() == 0),
    {
        proof {
            self.lemma_count();
        }
        self.items == 0
    }

    /// The entry count equals the size of the abstract map.
    proof fn lemma_count(self)
        requires
            self.wf(),
        ensures
            self@.len() == self.items,
            self@.dom().finite(),
    {
        lemma_flat_models_no_dup(self.bviews());
        lemma_map_of_len(flat(self.bviews()));
    }

    /// The bucket this key belongs to.
    fn bucket_index(&self, key: &K) -> (i: usize)
        requires
            self.buckets@.len() > 0,
        ensures
            i < self.buckets@.len(),
            i as int == slot_of(key.key_hash(), self.buckets@.len() as int),
    {
        let h = key.hash_code();
        let n = self.buckets.len();
        (h % (n as u64)) as usize
    }

    /// The entry at a valid position is in the abstract map.
    proof fn lemma_entry_in_view(self, i: int, j: int)
        requires
            self.wf(),
            0 <= i < self.bviews().len(),
            0 <= j < self.bviews()[i].len(),
        ensures
            self@.contains_key(self.bviews()[i][j].0.model()),
            self@[self.bviews()[i][j].0.model()] == self.bviews()[i][j].1,
    {
        let bs = self.bviews();
        let e = bs[i][j];
        lemma_flat_models_no_dup(bs);
        assert(bs[i].contains(e));
        lemma_flat_contains(bs, e);
        let idx = choose|idx: int| 0 <= idx < flat(bs).len() && flat(bs)[idx] == e;
        lemma_map_of_value(flat(bs), idx);
    }

    /// A key whose model misses every entry of its own bucket is absent
    /// from the abstract map.
    proof fn lemma_absent(self, key: &K, i: int)
        requires
            self.wf(),
            self.bviews().len() > 0,
            i == slot_of(key.key_hash(), self.bviews().len() as int),
            forall|j: int|
                0 <= j < self.bviews()[i].len() ==> (#[trigger] self.bviews()[i][j]).0.model()
                    != key.model(),
        ensures
            !self@.contains_key(key.model()),
    {
        let bs = self.bviews();
        lemma_map_of_dom(flat(bs));
        if self@.contains_key(key.model()) {
            let ms = models_of(flat(bs));
            let idx = choose|idx: int| 0 <= idx < ms.len() && ms[idx] == key.model();
            let e = flat(bs)[idx];
            assert(e.0.model() == key.model());
            assert(flat(bs).contains(e));
            lemma_flat_contains(bs, e);
            let i2 = choose|i2: int| 0 <= i2 < bs.len() && bs[i2].contains(e);
            let j2 = choose|j2: int| 0 <= j2 < bs[i2].len() && bs[i2][j2] == e;
            e.0.lemma_model_determines_hash(key);
            assert(slot_of(e.0.key_hash(), bs.len() as int) == i2);
            assert(bs[i][j2].0.model() != key.model());
        }
    }

    /// With no buckets, the map is empty.
    proof fn lemma_no_buckets_empty(self)
        requires
            self.bviews().len() == 0,
        ensures
            self@ == Map::<<K as HashKey>::Model, V>::empty(),
            forall|m: <K as HashKey>::Model| !self@.contains_key(m),
    {
        assert(self@ =~= Map::<<K as HashKey>::Model, V>::empty());
    }

    /// Replaces the bucket array by one of twice as many buckets (one
    /// bucket when there was none) and rehashes every entry into it.
    fn resize(&mut self)
        requires
            old(self).wf(),
            2 * old(self).buckets@.len() <= usize::MAX,
        ensures
            final(self).wf(),
            final(self)@ == old(self)@,
            final(self).items == old(self).items,
            final(self).buckets@.len() as int == (if old(self).buckets@.len() == 0 {
                1int
            } else {
                2 * old(self).buckets@.len() as int
            }),
    {
        broadcast use vstd::multiset::group_multiset_axioms;
        broadcast use vstd::seq_lib::group_to_multiset_ensures;
        broadcast use vstd::seq_lib::lemma_multiset_commutative;

        let ghost orig = old(self).bviews();
        proof {
            lemma_flat_models_no_dup(orig);
            lemma_flat_len(orig);
        }
        let n = self.buckets.len();
        let target: usize = if n == 0 { 1 } else { 2 * n };
        let mut new_buckets: Vec<Vec<(K, V)>> = Vec::new();
        while new_buckets.len() < target
            invariant
                new_buckets@.len() <= target,
                forall|t: int| 0 <= t < new_buckets@.len() ==> (#[trigger] new_buckets@[t])@.len()
                    == 0,
            decreases target - new_buckets@.len(),
        {
            new_buckets.push(Vec::new());
        }
        proof {
            lemma_sum_lens_all_empty(views_of(new_buckets@));
            lemma_flat_len(views_of(new_buckets@));
            assert(flat(views_of(new_buckets@)).to_multiset() =~= Multiset::<(K, V)>::empty());
            assert(flat(views_of(self.buckets@)).to_multiset().add(
                flat(views_of(new_buckets@)).to_multiset(),
            ) =~= flat(orig).to_multiset());
        }
        while self.buckets.len() > 0
            invariant
                self.items == old(self).items,
                target > 0,
                target as int == (if orig.len() == 0 { 1int } else { 2 * orig.len() as int }),
                new_buckets@.len() == target,
                forall|i: int, j: int|
                    0 <= i < target && 0 <= j < views_of(new_buckets@)[i].len() ==> slot_of(
                        (#[trigger] views_of(new_buckets@)[i][j]).0.key_hash(),
                        target as int,
                    ) == i,
                distinct_models(views_of(new_buckets@)),
                flat(views_of(self.buckets@)).to_multiset().add(
                    flat(views_of(new_buckets@)).to_multiset(),
                ) == flat(orig).to_multiset(),
                models_of(flat(orig)).no_duplicates(),
            decreases self.buckets@.len(),
        {
            let ghost bs_before = self.buckets@;
            let mut b = self.buckets.pop().unwrap();
            proof {
                broadcast use vstd::multiset::group_multiset_axioms;
                broadcast use vstd::seq_lib::group_to_multiset_ensures;
                broadcast use vstd::seq_lib::lemma_multiset_commutative;

                assert(views_of(bs_before).drop_last() =~= views_of(self.buckets@));
                assert(views_of(bs_before).last() == b@);
                lemma_flat_drop_last(views_of(bs_before));
                assert(flat(views_of(bs_before)).to_multiset() == flat(
                    views_of(self.buckets@),
                ).to_multiset().add(b@.to_multiset()));
            }
            while b.len() > 0
                invariant
                    new_buckets@.len() == target,
                    target > 0,
                    forall|i: int, j: int|
                        0 <= i < target && 0 <= j < views_of(new_buckets@)[i].len() ==> slot_of(
                            (#[trigger] views_of(new_buckets@)[i][j]).0.key_hash(),
                            target as int,
                        ) == i,
                    distinct_models(views_of(new_buckets@)),
                    flat(views_of(self.buckets@)).to_multiset().add(b@.to_multiset()).add(
                        flat(views_of(new_buckets@)).to_multiset(),
                    ) == flat(orig).to_multiset(),
                    models_of(flat(orig)).no_duplicates(),
                decreases b@.len(),
            {
                let ghost b_before = b@;
                let ghost nb_before = views_of(new_buckets@);
                let e = b.pop().unwrap();
                let h = e.0.hash_code();
                let idx = (h % (target as u64)) as usize;
                proof {
                    broadcast use vstd::multiset::group_multiset_axioms;
                    broadcast use vstd::seq_lib::group_to_multiset_ensures;
                    broadcast use vstd::seq_lib::lemma_multiset_commutative;

                    assert(b@.push(e) =~= b_before);
                    assert(b@.push(e).to_multiset() == b@.to_multiset().insert(e));
                    assert(b_before.to_multiset() == b@.to_multiset().insert(e));
                    let rest = flat(views_of(self.buckets@)).to_multiset().add(b@.to_multiset());
                    assert(rest.insert(e).add(flat(nb_before).to_multiset()) =~= flat(
                        views_of(self.buckets@),
                    ).to_multiset().add(b_before.to_multiset()).add(
                        flat(nb_before).to_multiset(),
                    ));
                    lemma_unplaced_entry_fresh(flat(orig), rest, nb_before, e);
                }
                new_buckets[idx].push(e);
                proof {
                    let nb_now = views_of(new_buckets@);
                    assert(nb_now =~= nb_before.update(idx as int, nb_before[idx as int].push(e)));
                    lemma_flat_update_push_multiset(nb_before, idx as int, e);
                    assert(flat(views_of(self.buckets@)).to_multiset().add(b@.to_multiset()).add(
                        flat(nb_now).to_multiset(),
                    ) =~= flat(orig).to_multiset());
                    assert forall|i: int, j: int|
                        0 <= i < target && 0 <= j < nb_now[i].len() implies slot_of(
                        (#[trigger] nb_now[i][j]).0.key_hash(),
                        target as int,
                    ) == i by {
                        if i == idx as int && j == nb_before[i].len() {
                            assert(nb_now[i][j] == e);
                        } else {
                            assert(nb_now[i][j] == nb_before[i][j]);
                        }
                    }
                    assert forall|i1: int, j1: int, i2: int, j2: int|
                        0 <= i1 < nb_now.len() && 0 <= j1 < nb_now[i1].len() && 0 <= i2
                            < nb_now.len() && 0 <= j2 < nb_now[i2].len() && (i1 != i2 || j1
                            != j2) implies (#[trigger] nb_now[i1][j1]).0.model() != (#[trigger]
                    nb_now[i2][j2]).0.model() by {
                        let fresh1 = i1 == idx as int && j1 == nb_before[i1].len();
                        let fresh2 = i2 == idx as int && j2 == nb_before[i2].len();
                        if fresh1 && !fresh2 {
                            assert(nb_now[i2][j2] == nb_before[i2][j2]);
                        } else if !fresh1 && fresh2 {
                            assert(nb_now[i1][j1] == nb_before[i1][j1]);
                        } else if !fresh1 && !fresh2 {
                            assert(nb_now[i1][j1] == nb_before[i1][j1]);
                            assert(nb_now[i2][j2] == nb_before[i2][j2]);
                        }
                    }
                }
            }
            proof {
                broadcast use vstd::multiset::group_multiset_axioms;
                broadcast use vstd::seq_lib::group_to_multiset_ensures;

                assert(b@ =~= Seq::<(K, V)>::empty());
                assert(b@.to_multiset().len() == 0);
                assert(b@.to_multiset() =~= Multiset::<(K, V)>::empty());
            }
        }
        let ghost nb_final = views_of(new_buckets@);
        self.buckets = new_buckets;
        proof {
            assert(flat(views_of(Seq::<Vec<(K, V)>>::empty())).to_multiset() =~= Multiset::<
                (K, V),
            >::empty());
            assert(flat(nb_final).to_multiset() =~= flat(orig).to_multiset());
            assert(self.bviews() == nb_final);
            lemma_flat_models_no_dup(nb_final);
            lemma_same_entries_same_map(flat(nb_final), flat(orig));
            assert(flat(nb_final).len() == flat(orig).len()) by {
                assert(flat(nb_final).to_multiset().len() == flat(orig).to_multiset().len());
            }
            assert(is_pow2(target as int)) by {
                if n > 0 {
                    assert((2 * n as int) % 2 == 0);
                    assert((2 * n as int) / 2 == n as int);
                }
            }
        }
    }

    /// A key hashing to slot `i` can collide only with entries of bucket `i`.
    proof fn lemma_only_in_slot(self, key: &K, i: int)
        requires
            self.wf(),
            self.bviews().len() > 0,
            i == slot_of(key.key_hash(), self.bviews().len() as int),
        ensures
            forall|i2: int, j2: int|
                0 <= i2 < self.bviews().len() && 0 <= j2 < self.bviews()[i2].len() && i2 != i
                    ==> (#[trigger] self.bviews()[i2][j2]).0.model() != key.model(),
    {
        let bs = self.bviews();
        assert forall|i2: int, j2: int|
            0 <= i2 < bs.len() && 0 <= j2 < bs[i2].len() && i2 != i implies (#[trigger]
        bs[i2][j2]).0.model() != key.model() by {
            bs[i2][j2].0.lemma_model_determines_hash(key);
        }
    }

    /// Appending an entry with a fresh key model to its own bucket keeps the
    /// structure well formed and inserts the pair into the abstract map.
    proof fn lemma_insert_new_entry(pre: Self, post: Self, key: K, value: V, i: int)
        requires
            pre.wf(),
            pre.bviews().len() > 0,
            0 <= i < pre.bviews().len(),
            i == slot_of(key.key_hash(), pre.bviews().len() as int),
            forall|j: int|
                0 <= j < pre.bviews()[i].len() ==> (#[trigger] pre.bviews()[i][j]).0.model()
                    != key.model(),
            post.bviews() == pre.bviews().update(i, pre.bviews()[i].push((key, value))),
            post.items == pre.items + 1,
            4 * (pre.items + 1) <= 3 * pre.bviews().len() + 4,
        ensures
            post.wf(),
            post@ == pre@.insert(key.model(), value),
    {
        let bs = pre.bviews();
        let bs2 = post.bviews();
        let n = bs.len() as int;
        let m = key.model();
        let jnew = bs[i].len() as int;
        lemma_flat_len(bs);
        lemma_flat_len(bs2);
        lemma_sum_lens_update(bs, i, bs[i].push((key, value)));
        assert(flat(bs2).len() == flat(bs).len() + 1);
        pre.lemma_only_in_slot(&key, i);
        assert forall|i2: int, j2: int|
            0 <= i2 < n && 0 <= j2 < bs2[i2].len() implies slot_of(
            (#[trigger] bs2[i2][j2]).0.key_hash(),
            n,
        ) == i2 by {
            if i2 == i && j2 == jnew {
                assert(bs2[i2][j2] == (key, value));
            } else {
                assert(bs2[i2][j2] == bs[i2][j2]);
            }
        }
        assert forall|i1: int, j1: int, i2: int, j2: int|
            0 <= i1 < bs2.len() && 0 <= j1 < bs2[i1].len() && 0 <= i2 < bs2.len() && 0 <= j2
                < bs2[i2].len() && (i1 != i2 || j1 != j2) implies (#[trigger]
        bs2[i1][j1]).0.model() != (#[trigger] bs2[i2][j2]).0.model() by {
            let fresh1 = i1 == i && j1 == jnew;
            let fresh2 = i2 == i && j2 == jnew;
            if fresh1 && !fresh2 {
                assert(bs2[i2][j2] == bs[i2][j2]);
            } else if !fresh1 && fresh2 {
                assert(bs2[i1][j1] == bs[i1][j1]);
            } else if !fresh1 && !fresh2 {
                assert(bs2[i1][j1] == bs[i1][j1]);
                assert(bs2[i2][j2] == bs[i2][j2]);
            }
        }
        assert(post.wf());
        lemma_map_of_dom(flat(bs));
        lemma_map_of_dom(flat(bs2));
        assert(bs2[i][jnew] == (key, value));
        assert forall|m2: <K as HashKey>::Model| #[trigger]
            post@.contains_key(m2) <==> pre@.insert(m, value).contains_key(m2) by {
            if post@.contains_key(m2) {
                let ms2 = models_of(flat(bs2));
                let idx = choose|idx: int| 0 <= idx < ms2.len() && ms2[idx] == m2;
                let e = flat(bs2)[idx];
                assert(e.0.model() == m2);
                assert(flat(bs2).contains(e));
                lemma_flat_contains(bs2, e);
                let i2 = choose|i2: int| 0 <= i2 < bs2.len() && bs2[i2].contains(e);
                let j2 = choose|j2: int| 0 <= j2 < bs2[i2].len() && bs2[i2][j2] == e;
                if i2 == i && j2 == jnew {
                    assert(m2 == m);
                } else {
                    assert(e == bs[i2][j2]);
                    assert(bs[i2].contains(e));
                    lemma_flat_contains(bs, e);
                    let t = choose|t: int| 0 <= t < flat(bs).len() && flat(bs)[t] == e;
                    assert(models_of(flat(bs))[t] == m2);
                }
            }
            if pre@.insert(m, value).contains_key(m2) {
                if m2 == m {
                    assert(bs2[i].contains((key, value)));
                    lemma_flat_contains(bs2, (key, value));
                    let t = choose|t: int|
                        0 <= t < flat(bs2).len() && flat(bs2)[t] == (key, value);
                    assert(models_of(flat(bs2))[t] == m2);
                } else {
                    let ms = models_of(flat(bs));
                    let idx = choose|idx: int| 0 <= idx < ms.len() && ms[idx] == m2;
                    let e = flat(bs)[idx];
                    assert(flat(bs).contains(e));
                    lemma_flat_contains(bs, e);
                    let i2 = choose|i2: int| 0 <= i2 < bs.len() && bs[i2].contains(e);
                    let j2 = choose|j2: int| 0 <= j2 < bs[i2].len() && bs[i2][j2] == e;
                    assert(bs2[i2][j2] == e);
                    assert(bs2[i2].contains(e));
                    lemma_flat_contains(bs2, e);
                    let t = choose|t: int| 0 <= t < flat(bs2).len() && flat(bs2)[t] == e;
                    assert(models_of(flat(bs2))[t] == m2);
                }
            }
        }
        assert forall|m2: <K as HashKey>::Model|
            post@.contains_key(m2) implies #[trigger] post@[m2] == pre@.insert(m, value)[m2] by {
            if m2 == m {
                post.lemma_entry_in_view(i, jnew);
            } else {
                let ms = models_of(flat(bs));
                let idx = choose|idx: int| 0 <= idx < ms.len() && ms[idx] == m2;
                let e = flat(bs)[idx];
                assert(flat(bs).contains(e));
                lemma_flat_contains(bs, e);
                let i2 = choose|i2: int| 0 <= i2 < bs.len() && bs[i2].contains(e);
                let j2 = choose|j2: int| 0 <= j2 < bs[i2].len() && bs[i2][j2] == e;
                pre.lemma_entry_in_view(i2, j2);
                assert(bs2[i2][j2] == e);
                post.lemma_entry_in_view(i2, j2);
            }
        }
        assert(post@ =~= pre@.insert(m, value));
    }

    /// Swapping the matching entry out of its bucket and appending the new
    /// pair keeps the structure well formed and overwrites the key's value
    /// in the abstract map.
    proof fn lemma_replace_entry(pre: Self, post: Self, key: K, value: V, i: int, j: int)
        requires
            pre.wf(),
            pre.bviews().len() > 0,
            0 <= i < pre.bviews().len(),
            i == slot_of(key.key_hash(), pre.bviews().len() as int),
            0 <= j < pre.bviews()[i].len(),
            pre.bviews()[i][j].0.model() == key.model(),
            post.bviews() == pre.bviews().update(
                i,
                pre.bviews()[i].update(j, pre.bviews()[i].last()).drop_last().push((key, value)),
            ),
            post.items == pre.items,
        ensures
            post.wf(),
            post@ == pre@.insert(key.model(), value),
    {
        let bs = pre.bviews();
        let bs2 = post.bviews();
        let n = bs.len() as int;
        let m = key.model();
        let b = bs[i];
        let len = b.len() as int;
        let b2 = b.update(j, b.last()).drop_last().push((key, value));
        assert(b2.len() == len);
        assert(forall|t: int| 0 <= t < len - 1 && t != j ==> b2[t] == b[t]);
        assert(j < len - 1 ==> b2[j] == b[len - 1]);
        assert(b2[len - 1] == (key, value));
        lemma_flat_len(bs);
        lemma_flat_len(bs2);
        lemma_sum_lens_update(bs, i, b2);
        assert(flat(bs2).len() == flat(bs).len());
        pre.lemma_only_in_slot(&key, i);
        // every entry of the new bucket except the appended pair is an old
        // entry of the same bucket at a position other than j
        assert forall|t: int| 0 <= t < len - 1 implies (exists|t0: int|
            0 <= t0 < len && t0 != j && b[t0] == #[trigger] b2[t]) by {
            if t == j {
                assert(b[len - 1] == b2[t] && len - 1 != j);
            } else {
                assert(b[t] == b2[t] && t != j);
            }
        }
        assert forall|i2: int, j2: int|
            0 <= i2 < n && 0 <= j2 < bs2[i2].len() implies slot_of(
            (#[trigger] bs2[i2][j2]).0.key_hash(),
            n,
        ) == i2 by {
            if i2 == i {
                if j2 == len - 1 {
                    assert(bs2[i2][j2] == (key, value));
                } else {
                    let t0 = choose|t0: int| 0 <= t0 < len && t0 != j && b[t0] == b2[j2];
                    assert(bs[i][t0] == bs2[i2][j2]);
                }
            } else {
                assert(bs2[i2][j2] == bs[i2][j2]);
            }
        }
        assert forall|i1: int, j1: int, i2: int, j2: int|
            0 <= i1 < bs2.len() && 0 <= j1 < bs2[i1].len() && 0 <= i2 < bs2.len() && 0 <= j2
                < bs2[i2].len() && (i1 != i2 || j1 != j2) implies (#[trigger]
        bs2[i1][j1]).0.model() != (#[trigger] bs2[i2][j2]).0.model() by {
            let fresh1 = i1 == i && j1 == len - 1;
            let fresh2 = i2 == i && j2 == len - 1;
            if fresh1 && !fresh2 {
                // the other entry is an old entry at a position other than (i, j)
                if i2 == i {
                    let t0 = choose|t0: int| 0 <= t0 < len && t0 != j && b[t0] == b2[j2];
                    assert(bs[i][t0].0.model() != bs[i][j].0.model());
                } else {
                    assert(bs2[i2][j2] == bs[i2][j2]);
                }
            } else if !fresh1 && fresh2 {
                if i1 == i {
                    let t0 = choose|t0: int| 0 <= t0 < len && t0 != j && b[t0] == b2[j1];
                    assert(bs[i][t0].0.model() != bs[i][j].0.model());
                } else {
                    assert(bs2[i1][j1] == bs[i1][j1]);
                }
            } else if !fresh1 && !fresh2 {
                let e1 = bs2[i1][j1];
                let e2 = bs2[i2][j2];
                let p1 = if i1 == i {
                    choose|t0: int| 0 <= t0 < len && t0 != j && b[t0] == b2[j1]
                } else {
                    j1
                };
                let p2 = if i2 == i {
                    choose|t0: int| 0 <= t0 < len && t0 != j && b[t0] == b2[j2]
                } else {
                    j2
                };
                assert(e1 == bs[i1][p1]);
                assert(e2 == bs[i2][p2]);
                if i1 == i2 && p1 == p2 {
                    // two new positions holding the same old entry: impossible
                    // unless the positions coincide
                    if i1 == i {
                        assert(b2[j1] == b[p1] && b2[j2] == b[p1]);
                        if j1 == j {
                            assert(b[p1] == b[len - 1]);
                            assert(p1 == len - 1);
                            assert(b2[j2] == b[len - 1]);
                            if j2 != j {
                                assert(b[j2] == b[len - 1]);
                            }
                        } else if j2 == j {
                            assert(b[p1] == b[len - 1]);
                            assert(p1 == len - 1);
                            if j1 != j {
                                assert(b[j1] == b[len - 1]);
                            }
                        }
                        assert(false);
                    }
                }
            }
        }
        assert(post.wf());
        lemma_map_of_dom(flat(bs));
        lemma_map_of_dom(flat(bs2));
        assert forall|m2: <K as HashKey>::Model| #[trigger]
            post@.contains_key(m2) <==> pre@.insert(m, value).contains_key(m2) by {
            if post@.contains_key(m2) {
                let ms2 = models_of(flat(bs2));
                let idx = choose|idx: int| 0 <= idx < ms2.len() && ms2[idx] == m2;
                let e = flat(bs2)[idx];
                assert(flat(bs2).contains(e));
                lemma_flat_contains(bs2, e);
                let i2 = choose|i2: int| 0 <= i2 < bs2.len() && bs2[i2].contains(e);
                let j2 = choose|j2: int| 0 <= j2 < bs2[i2].len() && bs2[i2][j2] == e;
                if i2 == i && j2 == len - 1 {
                    assert(m2 == m);
                } else {
                    let p2 = if i2 == i {
                        choose|t0: int| 0 <= t0 < len && t0 != j && b[t0] == b2[j2]
                    } else {
                        j2
                    };
                    assert(e == bs[i2][p2]);
                    assert(bs[i2].contains(e));
                    lemma_flat_contains(bs, e);
                    let t = choose|t: int| 0 <= t < flat(bs).len() && flat(bs)[t] == e;
                    assert(models_of(flat(bs))[t] == m2);
                }
            }
            if pre@.insert(m, value).contains_key(m2) {
                if m2 == m {
                    assert(bs2[i][len - 1] == (key, value));
                    assert(bs2[i].contains((key, value)));
                    lemma_flat_contains(bs2, (key, value));
                    let t = choose|t: int|
                        0 <= t < flat(bs2).len() && flat(bs2)[t] == (key, value);
                    assert(models_of(flat(bs2))[t] == m2);
                } else {
                    let ms = models_of(flat(bs));
                    let idx = choose|idx: int| 0 <= idx < ms.len() && ms[idx] == m2;
                    let e = flat(bs)[idx];
                    assert(flat(bs).contains(e));
                    lemma_flat_contains(bs, e);
                    let i2 = choose|i2: int| 0 <= i2 < bs.len() && bs[i2].contains(e);
                    let j2 = choose|j2: int| 0 <= j2 < bs[i2].len() && bs[i2][j2] == e;
                    // the old position survives somewhere in the new layout
                    if i2 != i {
                        assert(bs2[i2][j2] == e);
                        assert(bs2[i2].contains(e));
                    } else {
                        assert(j2 != j);
                        if j2 == len - 1 {
                            assert(j < len - 1);
                            assert(b2[j] == e);
                            assert(bs2[i].contains(e));
                        } else {
                            assert(b2[j2] == e);
                            assert(bs2[i].contains(e));
                        }
                    }
                    lemma_flat_contains(bs2, e);
                    let t = choose|t: int| 0 <= t < flat(bs2).len() && flat(bs2)[t] == e;
                    assert(models_of(flat(bs2))[t] == m2);
                }
            }
        }
        assert forall|m2: <K as HashKey>::Model|
            post@.contains_key(m2) implies #[trigger] post@[m2] == pre@.insert(m, value)[m2] by {
            if m2 == m {
                post.lemma_entry_in_view(i, len - 1);
            } else {
                let ms = models_of(flat(bs));
                let idx = choose|idx: int| 0 <= idx < ms.len() && ms[idx] == m2;
                let e = flat(bs)[idx];
                assert(flat(bs).contains(e));
                lemma_flat_contains(bs, e);
                let i2 = choose|i2: int| 0 <= i2 < bs.len() && bs[i2].contains(e);
                let j2 = choose|j2: int| 0 <= j2 < bs[i2].len() && bs[i2][j2] == e;
                pre.lemma_entry_in_view(i2, j2);
                if i2 != i {
                    post.lemma_entry_in_view(i2, j2);
                } else {
                    assert(j2 != j);
                    if j2 == len - 1 {
                        assert(j < len - 1);
                        assert(b2[j] == e);
                        post.lemma_entry_in_view(i, j);
                    } else {
                        assert(b2[j2] == e);
                        post.lemma_entry_in_view(i, j2);
                    }
                }
            }
        }
        assert(post@ =~= pre@.insert(m, value));
    }

    /// Swapping the matching entry out of its bucket and dropping it keeps
    /// the structure well formed and removes the key from the abstract map.
    proof fn lemma_remove_entry(pre: Self, post: Self, key: &K, i: int, j: int)
        requires
            pre.wf(),
            pre.bviews().len() > 0,
            0 <= i < pre.bviews().len(),
            i == slot_of(key.key_hash(), pre.bviews().len() as int),
            0 <= j < pre.bviews()[i].len(),
            pre.bviews()[i][j].0.model() == key.model(),
            post.bviews() == pre.bviews().update(
                i,
                pre.bviews()[i].update(j, pre.bviews()[i].last()).drop_last(),
            ),
            post.items + 1 == pre.items,
        ensures
            post.wf(),
            post@ == pre@.remove(key.model()),
    {
        let bs = pre.bviews();
        let bs2 = post.bviews();
        let n = bs.len() as int;
        let m = key.model();
        let b = bs[i];
        let len = b.len() as int;
        let b2 = b.update(j, b.last()).drop_last();
        assert(b2.len() == len - 1);
        lemma_flat_len(bs);
        lemma_flat_len(bs2);
        lemma_sum_lens_update(bs, i, b2);
        assert(flat(bs2).len() + 1 == flat(bs).len());
        // every entry of the shrunken bucket is an old entry of the same
        // bucket at a position other than j
        assert forall|t: int| 0 <= t < len - 1 implies (exists|t0: int|
            0 <= t0 < len && t0 != j && b[t0] == #[trigger] b2[t]) by {
            if t == j {
                assert(b[len - 1] == b2[t] && len - 1 != j);
            } else {
                assert(b[t] == b2[t] && t != j);
            }
        }
        assert forall|i2: int, j2: int|
            0 <= i2 < n && 0 <= j2 < bs2[i2].len() implies slot_of(
            (#[trigger] bs2[i2][j2]).0.key_hash(),
            n,
        ) == i2 by {
            if i2 == i {
                let t0 = choose|t0: int| 0 <= t0 < len && t0 != j && b[t0] == b2[j2];
                assert(bs[i][t0] == bs2[i2][j2]);
            } else {
                assert(bs2[i2][j2] == bs[i2][j2]);
            }
        }
        assert forall|i1: int, j1: int, i2: int, j2: int|
            0 <= i1 < bs2.len() && 0 <= j1 < bs2[i1].len() && 0 <= i2 < bs2.len() && 0 <= j2
                < bs2[i2].len() && (i1 != i2 || j1 != j2) implies (#[trigger]
        bs2[i1][j1]).0.model() != (#[trigger] bs2[i2][j2]).0.model() by {
            let p1 = if i1 == i {
                choose|t0: int| 0 <= t0 < len && t0 != j && b[t0] == b2[j1]
            } else {
                j1
            };
            let p2 = if i2 == i {
                choose|t0: int| 0 <= t0 < len && t0 != j && b[t0] == b2[j2]
            } else {
                j2
            };
            assert(bs2[i1][j1] == bs[i1][p1]);
            assert(bs2[i2][j2] == bs[i2][p2]);
            if i1 == i2 && p1 == p2 {
                if i1 == i {
                    assert(b2[j1] == b[p1] && b2[j2] == b[p1]);
                    if j1 == j {
                        assert(p1 == len - 1);
                        if j2 != j {
                            assert(b[j2] == b[len - 1]);
                        }
                    } else if j2 == j {
                        assert(p1 == len - 1);
                        if j1 != j {
                            assert(b[j1] == b[len - 1]);
                        }
                    }
                    assert(false);
                }
            }
        }
        assert(post.wf());
        lemma_map_of_dom(flat(bs));
        lemma_map_of_dom(flat(bs2));
        assert forall|m2: <K as HashKey>::Model| #[trigger]
            post@.contains_key(m2) <==> pre@.remove(m).contains_key(m2) by {
            if post@.contains_key(m2) {
                let ms2 = models_of(flat(bs2));
                let idx = choose|idx: int| 0 <= idx < ms2.len() && ms2[idx] == m2;
                let e = flat(bs2)[idx];
                assert(flat(bs2).contains(e));
                lemma_flat_contains(bs2, e);
                let i2 = choose|i2: int| 0 <= i2 < bs2.len() && bs2[i2].contains(e);
                let j2 = choose|j2: int| 0 <= j2 < bs2[i2].len() && bs2[i2][j2] == e;
                let p2 = if i2 == i {
                    choose|t0: int| 0 <= t0 < len && t0 != j && b[t0] == b2[j2]
                } else {
                    j2
                };
                assert(e == bs[i2][p2]);
                assert(bs[i2].contains(e));
                lemma_flat_contains(bs, e);
                let t = choose|t: int| 0 <= t < flat(bs).len() && flat(bs)[t] == e;
                assert(models_of(flat(bs))[t] == m2);
                // the removed model is gone: position (i2, p2) differs from (i, j)
                assert(m2 != m) by {
                    if i2 == i {
                        assert(bs[i][p2].0.model() != bs[i][j].0.model());
                    } else {
                        assert(bs[i2][p2].0.model() != bs[i][j].0.model());
                    }
                }
            }
            if pre@.remove(m).contains_key(m2) {
                assert(m2 != m);
                let ms = models_of(flat(bs));
                let idx = choose|idx: int| 0 <= idx < ms.len() && ms[idx] == m2;
                let e = flat(bs)[idx];
                assert(flat(bs).contains(e));
                lemma_flat_contains(bs, e);
                let i2 = choose|i2: int| 0 <= i2 < bs.len() && bs[i2].contains(e);
                let j2 = choose|j2: int| 0 <= j2 < bs[i2].len() && bs[i2][j2] == e;
                if i2 != i {
                    assert(bs2[i2][j2] == e);
                    assert(bs2[i2].contains(e));
                } else {
                    assert(j2 != j);
                    if j2 == len - 1 {
                        assert(j < len - 1);
                        assert(b2[j] == e);
                        assert(bs2[i].contains(e));
                    } else {
                        assert(b2[j2] == e);
                        assert(bs2[i].contains(e));
                    }
                }
                lemma_flat_contains(bs2, e);
                let t = choose|t: int| 0 <= t < flat(bs2).len() && flat(bs2)[t] == e;
                assert(models_of(flat(bs2))[t] == m2);
            }
        }
        assert forall|m2: <K as HashKey>::Model|
            post@.contains_key(m2) implies #[trigger] post@[m2] == pre@.remove(m)[m2] by {
            let ms = models_of(flat(bs));
            let idx = choose|idx: int| 0 <= idx < ms.len() && ms[idx] == m2;
            let e = flat(bs)[idx];
            assert(flat(bs).contains(e));
            lemma_flat_contains(bs, e);
            let i2 = choose|i2: int| 0 <= i2 < bs.len() && bs[i2].contains(e);
            let j2 = choose|j2: int| 0 <= j2 < bs[i2].len() && bs[i2][j2] == e;
            pre.lemma_entry_in_view(i2, j2);
            if i2 != i {
                post.lemma_entry_in_view(i2, j2);
            } else {
                assert(j2 != j) by {
                    assert(m2 != m);
                }
                if j2 == len - 1 {
                    assert(j < len - 1);
                    assert(b2[j] == e);
                    post.lemma_entry_in_view(i, j);
                } else {
                    assert(b2[j2] == e);
                    post.lemma_entry_in_view(i, j2);
                }
            }
        }
        assert(post@ =~= pre@.remove(m));
    }

    /// Inserts the pair, growing the bucket array first when it is empty or
    /// past the load factor; returns the value previously stored under the
    /// key, if any.
    pub fn insert(&mut self, key: K, value: V) -> (prev: Option<V>)
        requires
            old(self).wf(),
            old(self)@.len() < usize::MAX as nat / 4,
        ensures
            final(self).wf(),
            final(self)@ == old(self)@.insert(key.model(), value),
            prev == (if old(self)@.contains_key(key.model()) {
                Some(old(self)@[key.model()])
            } else {
                None::<V>
            }),
            old(self)@.contains_key(key.model()) ==> final(self)@.len() == old(self)@.len(),
            !old(self)@.contains_key(key.model()) ==> final(self)@.len() == old(self)@.len() + 1,
            is_pow2(final(self).num_buckets() as int),
            4 * final(self)@.len() <= 3 * final(self).num_buckets() + 4,
    {
        proof {
            self.lemma_count();
        }
        let n0 = self.buckets.len();
        if n0 == 0 || 4 * (self.items as u128) > 3 * (n0 as u128) {
            proof {
                assert(2 * n0 <= usize::MAX) by {
                    if n0 > 0 {
                        assert(3 * n0 < 4 * self.items);
                        assert(4 * self.items <= usize::MAX - 4);
                    }
                }
            }
            self.resize();
        }
        let ghost mid = *self;
        proof {
            assert(4 * (mid.items + 1) <= 3 * mid.bviews().len() + 4) by {
                if n0 == 0 {
                    assert(old(self).bviews().len() == 0);
                    assert(flat(old(self).bviews()).len() == 0);
                    assert(mid.items == 0);
                } else if 4 * old(self).items > 3 * n0 {
                    // the array was doubled; the old load bound gives room
                    assert(mid.bviews().len() == 2 * n0);
                    if n0 == 1 {
                        assert(4 * old(self).items <= 7);
                    }
                } else {
                    assert(4 * mid.items <= 3 * mid.bviews().len());
                }
            }
        }
        let i = self.bucket_index(&key);
        match find_in_bucket(&self.buckets[i], &key) {
            Some(j) => {
                proof {
                    self.lemma_entry_in_view(i as int, j as int);
                }
                let pair = self.buckets[i].swap_remove(j);
                self.buckets[i].push((key, value));
                proof {
                    assert(self.bviews() =~= mid.bviews().update(
                        i as int,
                        mid.bviews()[i as int].update(
                            j as int,
                            mid.bviews()[i as int].last(),
                        ).drop_last().push((key, value)),
                    ));
                    Self::lemma_replace_entry(mid, *self, key, value, i as int, j as int);
                    mid.lemma_count();
                    self.lemma_count();
                }
                Some(pair.1)
            },
            None => {
                proof {
                    self.lemma_absent(&key, i as int);
                }
                self.buckets[i].push((key, value));
                self.items = self.items + 1;
                proof {
                    assert(self.bviews() =~= mid.bviews().update(
                        i as int,
                        mid.bviews()[i as int].push((key, value)),
                    ));
                    Self::lemma_insert_new_entry(mid, *self, key, value, i as int);
                    mid.lemma_count();
                    self.lemma_count();
                }
                None
            },
        }
    }

    /// Removes the key's entry and returns its value, if present.  The
    /// bucket array never shrinks.
    pub fn remove(&mut self, key: &K) -> (removed: Option<V>)
        requires
            old(self).wf(),
        ensures
            final(self).wf(),
            final(self)@ == old(self)@.remove(key.model()),
            removed == (if old(self)@.contains_key(key.model()) {
                Some(old(self)@[key.model()])
            } else {
                None::<V>
            }),
            old(self)@.contains_key(key.model()) ==> final(self)@.len() == old(self)@.len() - 1,
            !old(self)@.contains_key(key.model()) ==> final(self)@ == old(self)@,
            final(self).num_buckets() == old(self).num_buckets(),
    {
        if self.buckets.len() == 0 {
            proof {
                self.lemma_no_buckets_empty();
                assert(self@.remove(key.model()) =~= self@);
            }
            return None;
        }
        let i = self.bucket_index(key);
        match find_in_bucket(&self.buckets[i], key) {
            Some(j) => {
                proof {
                    self.lemma_entry_in_view(i as int, j as int);
                    // at least one entry exists, so the count is positive
                    assert(self.items >= 1) by {
                        lemma_flat_len(self.bviews());
                        let e = self.bviews()[i as int][j as int];
                        assert(self.bviews()[i as int].contains(e));
                        lemma_flat_contains(self.bviews(), e);
                    }
                }
                let ghost pre = *self;
                let pair = self.buckets[i].swap_remove(j);
                self.items = self.items - 1;
                proof {
                    assert(self.bviews() =~= pre.bviews().update(
                        i as int,
                        pre.bviews()[i as int].update(
                            j as int,
                            pre.bviews()[i as int].last(),
                        ).drop_last(),
                    ));
                    Self::lemma_remove_entry(pre, *self, key, i as int, j as int);
                    pre.lemma_count();
                    self.lemma_count();
                }
                Some(pair.1)
            },
            None => {
                proof {
                    self.lemma_absent(key, i as int);
                    assert(self@.remove(key.model()) =~= self@);
                }
                None
            },
        }
    }

    /// Looks the key up and returns a reference to its value, if present.
    pub fn get<'a>(&'a self, key: &K) -> (r: Option<&'a V>)
        requires
            self.wf(),
        ensures
            match r {
                Some(v) => self@.contains_key(key.model()) && *v == self@[key.model()],
                None => !self@.contains_key(key.model()),
            },
    {
        if self.buckets.len() == 0 {
            proof {
                self.lemma_no_buckets_empty();
            }
            return None;
        }
        let i = self.bucket_index(key);
        match find_in_bucket(&self.buckets[i], key) {
            Some(j) => {
                proof {
                    self.lemma_entry_in_view(i as int, j as int);
                }
                Some(&self.buckets[i][j].1)
            },
            None => {
                proof {
                    self.lemma_absent(key, i as int);
                }
                None
            },
        }
    }

    /// Whether the key is present.
    pub fn contains_key(&self, key: &K) -> (b: bool)
        requires
            self.wf(),
        ensures
            b == self@.contains_key(key.model()),
    {
        self.get(key).is_some()
    }

    /// A fresh iterator over the current entries.  The map must not be
    /// mutated while the iterator is alive; the borrow enforces that.
    pub fn iter<'a>(&'a self) -> (it: Iter<'a, K, V>)
        ensures
            it.wf_iter(),
            it.source() == *self,
            it.remaining() == self.entries(),
    {
        let it = Iter { map: self, bucket: 0, at: 0 };
        proof {
            let bs = self.bviews();
            if bs.len() == 0 {
                assert(it.remaining() =~= self.entries());
            } else {
                assert(bs.skip(1) =~= bs.drop_first());
                assert(bs[0].skip(0) =~= bs[0]);
                assert(it.remaining() =~= self.entries());
            }
        }
        it
    }

    /// A full traversal is complete and exact: the stored entries are
    /// precisely the pairs of the abstract map, each key model once.
    pub proof fn lemma_entries_cover_view(self)
        requires
            self.wf(),
        ensures
            self.entries().len() == self@.len(),
            forall|t: int|
                0 <= t < self.entries().len() ==> self@.contains_key(
                    (#[trigger] self.entries()[t]).0.model(),
                ) && self@[self.entries()[t].0.model()] == self.entries()[t].1,
            forall|m: <K as HashKey>::Model|
                self@.contains_key(m) ==> exists|t: int|
                    0 <= t < self.entries().len() && (#[trigger] self.entries()[t]).0.model() == m,
            models_of(self.entries()).no_duplicates(),
    {
        let es = self.entries();
        lemma_flat_models_no_dup(self.bviews());
        lemma_map_of_len(es);
        lemma_map_of_dom(es);
        assert forall|t: int| 0 <= t < es.len() implies self@.contains_key(
            (#[trigger] es[t]).0.model(),
        ) && self@[es[t].0.model()] == es[t].1 by {
            lemma_map_of_value(es, t);
        }
        assert forall|m: <K as HashKey>::Model| self@.contains_key(m) implies exists|t: int|
            0 <= t < es.len() && (#[trigger] es[t]).0.model() == m by {
            let t = choose|t: int| 0 <= t < models_of(es).len() && models_of(es)[t] == m;
            assert(es[t].0.model() == m);
        }
    }
}

/// A read-only cursor over a map's entries: the current bucket and the
/// current position inside it.
pub struct Iter<'a, K, V> {
    map: &'a HashMap<K, V>,
    bucket: usize,
    at: usize,
}

impl<'a, K: HashKey, V> Iter<'a, K, V> {
    /// The map being traversed.
    pub closed spec fn source(self) -> HashMap<K, V> {
        *self.map
    }

    /// The cursor points at an entry or just past the end.
    pub closed spec fn wf_iter(self) -> bool {
        let bs = self.map.bviews();
        &&& self.bucket <= bs.len()
        &&& (self.bucket < bs.len() ==> self.at <= bs[self.bucket as int].len())
    }

    /// The entries not yet yielded.
    pub closed spec fn remaining(self) -> Seq<(K, V)> {
        let bs = self.map.bviews();
        if self.bucket >= bs.len() {
            Seq::empty()
        } else {
            bs[self.bucket as int].skip(self.at as int) + flat(bs.skip(self.bucket as int + 1))
        }
    }

    /// Yields the next entry: the first of the remaining ones, or nothing
    /// once all entries have been seen.
    pub fn next(&mut self) -> (r: Option<(&'a K, &'a V)>)
        requires
            old(self).wf_iter(),
        ensures
            final(self).wf_iter(),
            final(self).source() == old(self).source(),
            match r {
                Some(p) => old(self).remaining().len() > 0 && (*p.0, *p.1) == old(
                    self,
                ).remaining()[0] && final(self).remaining() == old(self).remaining().drop_first(),
                None => old(self).remaining().len() == 0 && final(self).remaining().len() == 0,
            },
    {
        loop
            invariant
                self.wf_iter(),
                self.map == old(self).map,
                self.remaining() == old(self).remaining(),
            decreases self.map.buckets@.len() - self.bucket,
        {
            let m: &'a HashMap<K, V> = self.map;
            if self.bucket >= m.buckets.len() {
                return None;
            }
            let b: &'a Vec<(K, V)> = &m.buckets[self.bucket];
            let ghost bs = m.bviews();
            let ghost bk = self.bucket as int;
            if self.at < b.len() {
                let ghost rem = self.remaining();
                let k: &'a K = &b[self.at].0;
                let v: &'a V = &b[self.at].1;
                let ghost a = self.at as int;
                self.at = self.at + 1;
                proof {
                    assert(rem[0] == bs[bk][a]);
                    assert(self.remaining() =~= rem.drop_first()) by {
                        assert(bs[bk].skip(a + 1) =~= bs[bk].skip(a).drop_first());
                    }
                }
                return Some((k, v));
            } else {
                let ghost rem = self.remaining();
                self.bucket = self.bucket + 1;
                self.at = 0;
                proof {
                    assert(self.remaining() =~= rem) by {
                        assert(bs[bk].skip(bs[bk].len() as int) =~= Seq::<(K, V)>::empty());
                        if bk + 1 < bs.len() {
                            let s = bs.skip(bk + 1);
                            assert(s.drop_first() =~= bs.skip(bk + 2));
                            assert(s.first() == bs[bk + 1]);
                            assert(bs[bk + 1].skip(0) =~= bs[bk + 1]);
                        } else {
                            assert(bs.skip(bk + 1).len() == 0);
                        }
                    }
                }
            }
        }
    }
}

/// The position of the entry whose key model matches, if any.
fn find_in_bucket<K: HashKey, V>(bucket: &Vec<(K, V)>, key: &K) -> (r: Option<usize>)
    ensures
        match r {
            Some(j) => j < bucket@.len() && bucket@[j as int].0.model() == key.model(),
            None => forall|j: int|
                0 <= j < bucket@.len() ==> (#[trigger] bucket@[j]).0.model() != key.model(),
        },
{
    let mut j: usize = 0;
    while j < bucket.len()
        invariant
            j <= bucket@.len(),
            forall|t: int| 0 <= t < j ==> (#[trigger] bucket@[t]).0.model() != key.model(),
        decreases bucket@.len() - j,
    {
        if bucket[j].0.key_eq(key) {
            return Some(j);
        }
        j = j + 1;
    }
    None
}

} // verus!
