//! The mathematical model of the container: the finite `Map` that a
//! sequence of entries denotes, and the lemmas connecting entry sequences,
//! bucket layouts and that map.

use vstd::prelude::*;
use vstd::multiset::Multiset;
use crate::keys::HashKey;
use crate::seqs::{flat, lemma_flat_contains};

verus! {

/// The models of the keys of an entry sequence, position by position.
pub open spec fn models_of<K: HashKey, V>(es: Seq<(K, V)>) -> Seq<K::Model> {
    es.map_values(|e: (K, V)| e.0.model())
}

/// The map an entry sequence denotes; a later entry for the same key wins.
pub open spec fn map_of<K: HashKey, V>(es: Seq<(K, V)>) -> Map<K::Model, V>
    decreases es.len(),
{
    if es.len() == 0 {
        Map::empty()
    } else {
        map_of(es.drop_last()).insert(es.last().0.model(), es.last().1)
    }
}

/// No two entries, in the same bucket or in different ones, share a key model.
pub open spec fn distinct_models<K: HashKey, V>(bs: Seq<Seq<(K, V)>>) -> bool {
    forall|i1: int, j1: int, i2: int, j2: int|
        0 <= i1 < bs.len() && 0 <= j1 < bs[i1].len() && 0 <= i2 < bs.len() && 0 <= j2
            < bs[i2].len() && (i1 != i2 || j1 != j2) ==> (#[trigger] bs[i1][j1]).0.model() != (
        #[trigger] bs[i2][j2]).0.model()
}

/// A key model is in the denoted map exactly when some entry carries it.
pub proof fn lemma_map_of_dom<K: HashKey, V>(es: Seq<(K, V)>)
    ensures
        forall|m: <K as HashKey>::Model| #[trigger]
            map_of(es).contains_key(m) <==> models_of(es).contains(m),
        map_of(es).dom().finite(),
    decreases es.len(),
{
    if es.len() == 0 {
        assert(forall|m: <K as HashKey>::Model| !models_of(es).contains(m));
    } else {
        lemma_map_of_dom(es.drop_last());
        assert(models_of(es.drop_last()) =~= models_of(es).drop_last());
        assert forall|m: <K as HashKey>::Model| #[trigger]
            map_of(es).contains_key(m) <==> models_of(es).contains(m) by {
            if map_of(es).contains_key(m) {
                if m == es.last().0.model() {
                    assert(models_of(es)[es.len() - 1] == m);
                } else {
                    let idx = choose|idx: int|
                        0 <= idx < models_of(es.drop_last()).len() && models_of(es.drop_last())[idx]
                            == m;
                    assert(models_of(es)[idx] == m);
                }
            }
            if models_of(es).contains(m) {
                let idx = choose|idx: int|
                    0 <= idx < models_of(es).len() && models_of(es)[idx] == m;
                if idx < es.len() - 1 {
                    assert(models_of(es.drop_last())[idx] == m);
                }
            }
        }
    }
}

/// In a sequence whose key models are pairwise distinct, the entry at any
/// position gives the denoted map's value for its key model.
pub proof fn lemma_map_of_value<K: HashKey, V>(es: Seq<(K, V)>, idx: int)
    requires
        models_of(es).no_duplicates(),
        0 <= idx < es.len(),
    ensures
        map_of(es).contains_key(es[idx].0.model()),
        map_of(es)[es[idx].0.model()] == es[idx].1,
    decreases es.len(),
{
    let m = es[idx].0.model();
    if idx == es.len() - 1 {
        assert(map_of(es)[m] == es.last().1);
    } else {
        assert(models_of(es.drop_last()) =~= models_of(es).drop_last());
        assert(models_of(es.drop_last()).no_duplicates()) by {
            assert(forall|t: int| 0 <= t < es.len() - 1 ==> models_of(es).drop_last()[t]
                == models_of(es)[t]);
        }
        lemma_map_of_value(es.drop_last(), idx);
        assert(models_of(es)[idx] != models_of(es)[es.len() - 1]);
        assert(es.drop_last()[idx] == es[idx]);
    }
}

/// With pairwise distinct key models, the denoted map has exactly one entry
/// per position.
pub proof fn lemma_map_of_len<K: HashKey, V>(es: Seq<(K, V)>)
    requires
        models_of(es).no_duplicates(),
    ensures
        map_of(es).len() == es.len(),
        map_of(es).dom().finite(),
    decreases es.len(),
{
    broadcast use vstd::set::group_set_axioms;

    if es.len() == 0 {
    } else {
        assert(models_of(es.drop_last()) =~= models_of(es).drop_last());
        assert(models_of(es.drop_last()).no_duplicates()) by {
            assert(forall|t: int| 0 <= t < es.len() - 1 ==> models_of(es).drop_last()[t]
                == models_of(es)[t]);
        }
        lemma_map_of_len(es.drop_last());
        lemma_map_of_dom(es.drop_last());
        let m = es.last().0.model();
        assert(!models_of(es.drop_last()).contains(m)) by {
            if models_of(es.drop_last()).contains(m) {
                let t = choose|t: int|
                    0 <= t < models_of(es.drop_last()).len() && models_of(es.drop_last())[t] == m;
                assert(models_of(es)[t] == models_of(es)[es.len() - 1]);
            }
        }
        assert(!map_of(es.drop_last()).contains_key(m));
        assert(map_of(es).dom() =~= map_of(es.drop_last()).dom().insert(m));
    }
}

/// Entries whose key models are pairwise distinct are themselves pairwise
/// distinct.
pub proof fn lemma_distinct_models_distinct_entries<K: HashKey, V>(es: Seq<(K, V)>)
    requires
        models_of(es).no_duplicates(),
    ensures
        es.no_duplicates(),
{
    assert forall|i: int, j: int| 0 <= i < es.len() && 0 <= j < es.len() && i != j implies es[i]
        != es[j] by {
        assert(models_of(es)[i] != models_of(es)[j]);
    }
}

/// A bucket layout without repeated key models flattens to an entry sequence
/// without repeated key models.
pub proof fn lemma_flat_models_no_dup<K: HashKey, V>(bs: Seq<Seq<(K, V)>>)
    requires
        distinct_models(bs),
    ensures
        models_of(flat(bs)).no_duplicates(),
    decreases bs.len(),
{
    if bs.len() > 0 {
        let rest = bs.drop_first();
        assert(distinct_models(rest)) by {
            assert forall|i1: int, j1: int, i2: int, j2: int|
                0 <= i1 < rest.len() && 0 <= j1 < rest[i1].len() && 0 <= i2 < rest.len() && 0 <= j2
                    < rest[i2].len() && (i1 != i2 || j1 != j2) implies (#[trigger]
            rest[i1][j1]).0.model() != (#[trigger] rest[i2][j2]).0.model() by {
                assert(rest[i1][j1] == bs[i1 + 1][j1]);
                assert(rest[i2][j2] == bs[i2 + 1][j2]);
            }
        }
        lemma_flat_models_no_dup(rest);
        let a = models_of(bs.first());
        let b = models_of(flat(rest));
        assert(a.no_duplicates()) by {
            assert forall|j1: int, j2: int|
                0 <= j1 < a.len() && 0 <= j2 < a.len() && j1 != j2 implies a[j1] != a[j2] by {
                assert(bs[0][j1].0.model() != bs[0][j2].0.model());
            }
        }
        assert forall|p: int, q: int| 0 <= p < a.len() && 0 <= q < b.len() implies a[p] != b[q] by {
            let e = flat(rest)[q];
            assert(flat(rest).contains(e));
            lemma_flat_contains(rest, e);
            let i = choose|i: int| 0 <= i < rest.len() && rest[i].contains(e);
            let j = choose|j: int| 0 <= j < rest[i].len() && rest[i][j] == e;
            assert(bs[i + 1][j] == e);
            assert(bs[0][p].0.model() != bs[i + 1][j].0.model());
        }
        vstd::seq_lib::lemma_no_dup_in_concat(a, b);
        assert(models_of(flat(bs)) =~= a + b);
    }
}

/// Two entry sequences with the same entries, each free of repeated key
/// models, denote the same map.
pub proof fn lemma_same_entries_same_map<K: HashKey, V>(es1: Seq<(K, V)>, es2: Seq<(K, V)>)
    requires
        es1.to_multiset() == es2.to_multiset(),
        models_of(es1).no_duplicates(),
        models_of(es2).no_duplicates(),
    ensures
        map_of(es1) == map_of(es2),
{
    broadcast use vstd::seq_lib::group_to_multiset_ensures;

    lemma_map_of_dom(es1);
    lemma_map_of_dom(es2);
    assert forall|m: <K as HashKey>::Model| #[trigger]
        map_of(es1).contains_key(m) <==> map_of(es2).contains_key(m) by {
        if models_of(es1).contains(m) {
            let idx = choose|idx: int| 0 <= idx < es1.len() && models_of(es1)[idx] == m;
            assert(es1.contains(es1[idx]));
            assert(es1.to_multiset().count(es1[idx]) > 0);
            assert(es2.to_multiset().count(es1[idx]) > 0);
            assert(es2.contains(es1[idx]));
            let idx2 = choose|idx2: int| 0 <= idx2 < es2.len() && es2[idx2] == es1[idx];
            assert(models_of(es2)[idx2] == m);
        }
        if models_of(es2).contains(m) {
            let idx = choose|idx: int| 0 <= idx < es2.len() && models_of(es2)[idx] == m;
            assert(es2.contains(es2[idx]));
            assert(es2.to_multiset().count(es2[idx]) > 0);
            assert(es1.to_multiset().count(es2[idx]) > 0);
            assert(es1.contains(es2[idx]));
            let idx1 = choose|idx1: int| 0 <= idx1 < es1.len() && es1[idx1] == es2[idx];
            assert(models_of(es1)[idx1] == m);
        }
    }
    assert forall|m: <K as HashKey>::Model|
        map_of(es1).contains_key(m) implies #[trigger] map_of(es1)[m] == map_of(es2)[m] by {
        let idx = choose|idx: int| 0 <= idx < es1.len() && models_of(es1)[idx] == m;
        assert(es1[idx].0.model() == m);
        lemma_map_of_value(es1, idx);
        assert(es1.contains(es1[idx]));
        assert(es1.to_multiset().count(es1[idx]) > 0);
        assert(es2.to_multiset().count(es1[idx]) > 0);
        assert(es2.contains(es1[idx]));
        let idx2 = choose|idx2: int| 0 <= idx2 < es2.len() && es2[idx2] == es1[idx];
        lemma_map_of_value(es2, idx2);
    }
    assert(map_of(es1) =~= map_of(es2));
}

/// While entries of a well-formed layout are being redistributed, an entry
/// not yet placed has a key model different from everything placed so far.
pub proof fn lemma_unplaced_entry_fresh<K: HashKey, V>(
    orig: Seq<(K, V)>,
    rest: Multiset<(K, V)>,
    nb: Seq<Seq<(K, V)>>,
    e: (K, V),
)
    requires
        models_of(orig).no_duplicates(),
        rest.insert(e).add(flat(nb).to_multiset()) == orig.to_multiset(),
    ensures
        forall|i: int, j: int|
            0 <= i < nb.len() && 0 <= j < nb[i].len() ==> (#[trigger] nb[i][j]).0.model()
                != e.0.model(),
{
    broadcast use vstd::seq_lib::group_to_multiset_ensures;

    lemma_distinct_models_distinct_entries(orig);
    orig.lemma_multiset_has_no_duplicates();
    assert forall|i: int, j: int|
        0 <= i < nb.len() && 0 <= j < nb[i].len() implies (#[trigger] nb[i][j]).0.model()
        != e.0.model() by {
        let e2 = nb[i][j];
        assert(nb[i].contains(e2));
        lemma_flat_contains(nb, e2);
        assert(flat(nb).contains(e2));
        assert(flat(nb).to_multiset().count(e2) > 0);
        assert(orig.to_multiset().count(e) >= rest.insert(e).count(e));
        if e2 == e {
            assert(orig.to_multiset().count(e) >= 2);
            assert(orig.to_multiset().contains(e));
            assert(orig.contains(e));
        } else if e2.0.model() == e.0.model() {
            assert(orig.to_multiset().count(e2) > 0);
            assert(orig.contains(e2));
            assert(orig.to_multiset().count(e) > 0);
            assert(orig.contains(e));
            let p1 = choose|p: int| 0 <= p < orig.len() && orig[p] == e;
            let p2 = choose|p: int| 0 <= p < orig.len() && orig[p] == e2;
            assert(models_of(orig)[p1] == models_of(orig)[p2]);
        }
    }
}

} // verus!
