//! Laws of the container, stated over the abstract map that the operations'
//! contracts speak of.  `insert` ensures the view becomes `view.insert(model,
//! value)`, `remove` ensures it becomes `view.remove(model)`, and `len`
//! returns the view's size, so each law below transfers to any run of calls.

use vstd::prelude::*;
use crate::keys::HashKey;
use crate::model::models_of;

verus! {

/// The map reached from `m0` by performing the given insertions in order.
pub open spec fn insert_all<K: HashKey, V>(
    m0: Map<<K as HashKey>::Model, V>,
    ops: Seq<(K, V)>,
) -> Map<<K as HashKey>::Model, V>
    decreases ops.len(),
{
    if ops.len() == 0 {
        m0
    } else {
        insert_all(m0, ops.drop_last()).insert(ops.last().0.model(), ops.last().1)
    }
}

/// After any sequence of insertions into an empty map, the size equals the
/// number of distinct keys inserted.
pub proof fn lemma_len_counts_distinct_keys<K: HashKey, V>(ops: Seq<(K, V)>)
    ensures
        insert_all(Map::<<K as HashKey>::Model, V>::empty(), ops).len() == models_of(
            ops,
        ).to_set().len(),
{
    lemma_insert_all_dom::<K, V>(ops);
}

/// The keys of the map built by a sequence of insertions are exactly the
/// models of the inserted keys.
proof fn lemma_insert_all_dom<K: HashKey, V>(ops: Seq<(K, V)>)
    ensures
        insert_all(Map::<<K as HashKey>::Model, V>::empty(), ops).dom() == models_of(
            ops,
        ).to_set(),
    decreases ops.len(),
{
    broadcast use vstd::set::group_set_axioms;

    let built = insert_all(Map::<<K as HashKey>::Model, V>::empty(), ops);
    if ops.len() == 0 {
        assert(built.dom() =~= models_of(ops).to_set());
    } else {
        let dl = ops.drop_last();
        lemma_insert_all_dom::<K, V>(dl);
        let m = ops.last().0.model();
        assert(models_of(dl) =~= models_of(ops).drop_last());
        assert forall|x: <K as HashKey>::Model| #[trigger]
            built.dom().contains(x) <==> models_of(ops).to_set().contains(x) by {
            if built.dom().contains(x) {
                if x == m {
                    assert(models_of(ops)[ops.len() - 1] == x);
                    assert(models_of(ops).contains(x));
                } else {
                    assert(models_of(dl).contains(x));
                    let t = choose|t: int| 0 <= t < models_of(dl).len() && models_of(dl)[t] == x;
                    assert(models_of(ops)[t] == x);
                    assert(models_of(ops).contains(x));
                }
            }
            if models_of(ops).contains(x) {
                let t = choose|t: int| 0 <= t < models_of(ops).len() && models_of(ops)[t] == x;
                if t < ops.len() - 1 {
                    assert(models_of(dl)[t] == x);
                    assert(models_of(dl).contains(x));
                }
            }
        }
        assert(built.dom() =~= models_of(ops).to_set());
    }
}

/// After inserting key `k` with value `v`, looking `k` up yields `v`.
pub proof fn lemma_insert_then_get<K: HashKey, V>(m: Map<<K as HashKey>::Model, V>, k: K, v: V)
    ensures
        m.insert(k.model(), v).contains_key(k.model()),
        m.insert(k.model(), v)[k.model()] == v,
{
}

/// Removing a key clears it: afterwards the key is absent, and removing it
/// again changes nothing, so a second removal finds nothing.
pub proof fn lemma_remove_clears<K: HashKey, V>(m: Map<<K as HashKey>::Model, V>, k: K)
    ensures
        !m.remove(k.model()).contains_key(k.model()),
        m.remove(k.model()).remove(k.model()) == m.remove(k.model()),
{
    assert(m.remove(k.model()).remove(k.model()) =~= m.remove(k.model()));
}

} // verus!
