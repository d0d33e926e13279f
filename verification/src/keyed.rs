//! Maps keyed by text, kept as parallel sequences of distinct keys and
//! their values.

use vstd::prelude::*;

verus! {

/// No key occurs twice.
pub open spec fn distinct_keys(ks: Seq<Seq<char>>) -> bool {
    forall|i: int, j: int| 0 <= i < j < ks.len() ==> ks[i] != ks[j]
}

/// The map that inserting each `(ks[i], vs[i])` in order builds.
pub open spec fn map_of<V>(ks: Seq<Seq<char>>, vs: Seq<V>) -> Map<Seq<char>, V>
    decreases ks.len(),
{
    if ks.len() == 0 || vs.len() == 0 {
        Map::empty()
    } else {
        map_of(ks.drop_last(), vs.drop_last()).insert(ks.last(), vs.last())
    }
}

/// With distinct keys, `map_of` holds exactly the keys, each with its value.
pub proof fn lemma_map_of<V>(ks: Seq<Seq<char>>, vs: Seq<V>)
    requires
        ks.len() == vs.len(),
        distinct_keys(ks),
    ensures
        forall|k: Seq<char>| #[trigger] map_of(ks, vs).dom().contains(k) <==> ks.contains(k),
        forall|i: int| 0 <= i < ks.len() ==> #[trigger] map_of(ks, vs)[ks[i]] == vs[i],
        map_of(ks, vs).dom().finite(),
        map_of(ks, vs).dom().len() == ks.len(),
    decreases ks.len(),
{
    if ks.len() > 0 {
        let dk = ks.drop_last();
        let dv = vs.drop_last();
        lemma_map_of(dk, dv);
        assert forall|k: Seq<char>| #[trigger] map_of(ks, vs).dom().contains(k) <==> ks.contains(
            k,
        ) by {
            if ks.contains(k) {
                let i = choose|i: int| 0 <= i < ks.len() && ks[i] == k;
                if i < ks.len() - 1 {
                    assert(dk[i] == k);
                }
            }
            if dk.contains(k) {
                let i = choose|i: int| 0 <= i < dk.len() && dk[i] == k;
                assert(ks[i] == k);
            }
        }
        assert forall|i: int| 0 <= i < ks.len() implies #[trigger] map_of(ks, vs)[ks[i]]
            == vs[i] by {
            if i < ks.len() - 1 {
                assert(dk[i] == ks[i]);
                assert(ks[i] != ks.last());
            }
        }
        assert(!dk.contains(ks.last())) by {
            if dk.contains(ks.last()) {
                let i = choose|i: int| 0 <= i < dk.len() && dk[i] == ks.last();
                assert(ks[i] == ks[ks.len() - 1]);
            }
        }
    }
}

/// Changing the value at a key's position is an insert at that key.
pub proof fn lemma_map_of_update<V>(ks: Seq<Seq<char>>, vs: Seq<V>, i: int, v: V)
    requires
        ks.len() == vs.len(),
        distinct_keys(ks),
        0 <= i < ks.len(),
    ensures
        map_of(ks, vs.update(i, v)) == map_of(ks, vs).insert(ks[i], v),
{
    lemma_map_of(ks, vs);
    lemma_map_of(ks, vs.update(i, v));
    assert forall|k: Seq<char>| #[trigger] map_of(ks, vs.update(i, v)).dom().contains(k)
        implies map_of(ks, vs.update(i, v))[k] == map_of(ks, vs).insert(ks[i], v)[k] by {
        let j = choose|j: int| 0 <= j < ks.len() && ks[j] == k;
        assert(map_of(ks, vs.update(i, v))[ks[j]] == vs.update(i, v)[j]);
    }
    assert(map_of(ks, vs.update(i, v)) =~= map_of(ks, vs).insert(ks[i], v));
}

/// Dropping a key's position is a removal of that key.
pub proof fn lemma_map_of_remove<V>(ks: Seq<Seq<char>>, vs: Seq<V>, i: int)
    requires
        ks.len() == vs.len(),
        distinct_keys(ks),
        0 <= i < ks.len(),
    ensures
        distinct_keys(ks.remove(i)),
        map_of(ks.remove(i), vs.remove(i)) == map_of(ks, vs).remove(ks[i]),
{
    let rk = ks.remove(i);
    let rv = vs.remove(i);
    assert forall|a: int, b: int| 0 <= a < b < rk.len() implies rk[a] != rk[b] by {
        let a2 = if a < i { a } else { a + 1 };
        let b2 = if b < i { b } else { b + 1 };
        assert(rk[a] == ks[a2]);
        assert(rk[b] == ks[b2]);
    }
    lemma_map_of(ks, vs);
    lemma_map_of(rk, rv);
    assert forall|k: Seq<char>| #[trigger] map_of(rk, rv).dom().contains(k) <==> map_of(
        ks,
        vs,
    ).remove(ks[i]).dom().contains(k) by {
        if rk.contains(k) {
            let j = choose|j: int| 0 <= j < rk.len() && rk[j] == k;
            let j2 = if j < i { j } else { j + 1 };
            assert(ks[j2] == k);
        }
        if ks.contains(k) && k != ks[i] {
            let j = choose|j: int| 0 <= j < ks.len() && ks[j] == k;
            if j < i {
                assert(rk[j] == k);
            } else {
                assert(rk[j - 1] == k);
            }
        }
    }
    assert forall|k: Seq<char>| #[trigger] map_of(rk, rv).dom().contains(k) implies map_of(
        rk,
        rv,
    )[k] == map_of(ks, vs).remove(ks[i])[k] by {
        let j = choose|j: int| 0 <= j < rk.len() && rk[j] == k;
        let j2 = if j < i { j } else { j + 1 };
        assert(rk[j] == ks[j2]);
        assert(rv[j] == vs[j2]);
        assert(map_of(rk, rv)[rk[j]] == rv[j]);
        assert(map_of(ks, vs)[ks[j2]] == vs[j2]);
    }
    assert(map_of(rk, rv) =~= map_of(ks, vs).remove(ks[i]));
}

/// Appending a new key is an insert.
pub proof fn lemma_map_of_push<V>(ks: Seq<Seq<char>>, vs: Seq<V>, k: Seq<char>, v: V)
    requires
        ks.len() == vs.len(),
        distinct_keys(ks),
        !ks.contains(k),
    ensures
        distinct_keys(ks.push(k)),
        map_of(ks.push(k), vs.push(v)) == map_of(ks, vs).insert(k, v),
{
    let pk = ks.push(k);
    assert forall|a: int, b: int| 0 <= a < b < pk.len() implies pk[a] != pk[b] by {
        if b == ks.len() {
            assert(pk[a] == ks[a]);
        }
    }
    assert(pk.drop_last() =~= ks);
    assert(vs.push(v).drop_last() =~= vs);
}

} // verus!
