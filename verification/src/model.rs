//! The mathematical model of the container: an ordered sequence of key-value
//! entries, together with the finite map it denotes. The engine's contracts
//! speak of both: the sequence fixes the traversal order, the map fixes the
//! point operations.
use vstd::prelude::*;

verus! {

/// The keys of the entry sequence are strictly ascending.
pub open spec fn sorted<V>(s: Seq<(u64, V)>) -> bool {
    forall|i: int, j: int| 0 <= i < j < s.len() ==> s[i].0 < s[j].0
}

/// No key appears twice in the entry sequence.
pub open spec fn distinct_keys<V>(s: Seq<(u64, V)>) -> bool {
    forall|i: int, j: int| 0 <= i < j < s.len() ==> s[i].0 != s[j].0
}

/// Some entry of the sequence carries this key.
pub open spec fn has_key<V>(s: Seq<(u64, V)>, k: u64) -> bool {
    exists|i: int| 0 <= i < s.len() && s[i].0 == k
}

/// The position of the entry carrying this key.
pub open spec fn index_of_key<V>(s: Seq<(u64, V)>, k: u64) -> int {
    choose|i: int| 0 <= i < s.len() && s[i].0 == k
}

/// The number of entries whose key is below `k`: where a fresh key `k` goes.
pub open spec fn insert_position<V>(s: Seq<(u64, V)>, k: u64) -> int
    decreases s.len(),
{
    if s.len() == 0 {
        0
    } else if s.last().0 < k {
        s.len() as int
    } else {
        insert_position(s.drop_last(), k)
    }
}

/// A boundary that splits a sorted sequence into keys below `k` and keys at
/// or above `k` is the insert position.
pub proof fn lemma_insert_position_unique<V>(s: Seq<(u64, V)>, k: u64, j: int)
    requires
        sorted(s),
        0 <= j <= s.len(),
        forall|i: int| 0 <= i < j ==> s[i].0 < k,
        forall|i: int| j <= i < s.len() ==> s[i].0 >= k,
    ensures
        insert_position(s, k) == j,
{
    lemma_insert_position(s, k);
    let ip = insert_position(s, k);
    if ip < j {
        assert(s[ip].0 < k);
        assert(s[ip].0 >= k);
    }
    if ip > j {
        assert(s[j].0 >= k);
        assert(s[j].0 < k);
    }
}

/// The finite map an entry sequence denotes; a later entry wins the key.
pub open spec fn map_of<V>(s: Seq<(u64, V)>) -> Map<u64, V>
    decreases s.len(),
{
    if s.len() == 0 {
        Map::empty()
    } else {
        map_of(s.drop_last()).insert(s.last().0, s.last().1)
    }
}

pub proof fn lemma_sorted_distinct<V>(s: Seq<(u64, V)>)
    requires
        sorted(s),
    ensures
        distinct_keys(s),
{
}

/// The map holds a key exactly when some entry carries it.
pub proof fn lemma_map_of_contains<V>(s: Seq<(u64, V)>)
    ensures
        forall|k: u64| map_of(s).contains_key(k) <==> has_key(s, k),
    decreases s.len(),
{
    if s.len() > 0 {
        lemma_map_of_contains(s.drop_last());
        assert forall|k: u64| map_of(s).contains_key(k) <==> has_key(s, k) by {
            if has_key(s, k) {
                let i = choose|i: int| 0 <= i < s.len() && s[i].0 == k;
                if i < s.len() - 1 {
                    assert(s.drop_last()[i].0 == k);
                    assert(has_key(s.drop_last(), k));
                }
            }
            if map_of(s).contains_key(k) {
                if k != s.last().0 {
                    assert(map_of(s.drop_last()).contains_key(k));
                    assert(has_key(s.drop_last(), k));
                    let i = choose|i: int| 0 <= i < s.drop_last().len() && s.drop_last()[i].0 == k;
                    assert(s[i].0 == k);
                }
            }
        }
    }
}

/// Each entry of a duplicate-free sequence is bound in the map.
pub proof fn lemma_map_of_at<V>(s: Seq<(u64, V)>, i: int)
    requires
        distinct_keys(s),
        0 <= i < s.len(),
    ensures
        map_of(s).contains_key(s[i].0),
        map_of(s)[s[i].0] == s[i].1,
    decreases s.len(),
{
    if i < s.len() - 1 {
        lemma_map_of_at(s.drop_last(), i);
        assert(s.drop_last()[i] == s[i]);
        assert(s.last().0 != s[i].0);
    }
}

/// Replacing the value of entry `i` inserts its key anew in the map.
pub proof fn lemma_map_of_update<V>(s: Seq<(u64, V)>, i: int, v: V)
    requires
        distinct_keys(s),
        0 <= i < s.len(),
    ensures
        map_of(s.update(i, (s[i].0, v))) == map_of(s).insert(s[i].0, v),
    decreases s.len(),
{
    let t = s.update(i, (s[i].0, v));
    if i == s.len() - 1 {
        assert(t.drop_last() =~= s.drop_last());
        assert(map_of(t) =~= map_of(s).insert(s[i].0, v));
    } else {
        lemma_map_of_update(s.drop_last(), i, v);
        assert(t.drop_last() =~= s.drop_last().update(i, (s[i].0, v)));
        assert(s.last().0 != s[i].0);
        assert(map_of(t) =~= map_of(s).insert(s[i].0, v));
    }
}

/// Splicing a fresh key into the sequence inserts it in the map.
pub proof fn lemma_map_of_insert<V>(s: Seq<(u64, V)>, i: int, k: u64, v: V)
    requires
        !has_key(s, k),
        0 <= i <= s.len(),
    ensures
        map_of(s.insert(i, (k, v))) == map_of(s).insert(k, v),
    decreases s.len(),
{
    let t = s.insert(i, (k, v));
    if i == s.len() {
        assert(t.drop_last() =~= s);
        assert(map_of(t) == map_of(s).insert(k, v));
    } else {
        assert(forall|j: int| 0 <= j < s.len() - 1 ==> s.drop_last()[j] == s[j]);
        assert(!has_key(s.drop_last(), k));
        lemma_map_of_insert(s.drop_last(), i, k, v);
        assert(t.drop_last() =~= s.drop_last().insert(i, (k, v)));
        assert(t.last() == s.last());
        assert(s.last().0 != k) by {
            assert(s[s.len() - 1].0 == s.last().0);
        }
        assert(map_of(t) =~= map_of(s).insert(k, v));
    }
}

/// Cutting entry `i` out of a duplicate-free sequence removes its key.
pub proof fn lemma_map_of_remove<V>(s: Seq<(u64, V)>, i: int)
    requires
        distinct_keys(s),
        0 <= i < s.len(),
    ensures
        map_of(s.remove(i)) == map_of(s).remove(s[i].0),
    decreases s.len(),
{
    let t = s.remove(i);
    if i == s.len() - 1 {
        assert(t =~= s.drop_last());
        lemma_map_of_contains(s.drop_last());
        assert(!has_key(s.drop_last(), s[i].0));
        assert(map_of(t) =~= map_of(s).remove(s[i].0));
    } else {
        lemma_map_of_remove(s.drop_last(), i);
        assert(t.drop_last() =~= s.drop_last().remove(i));
        assert(t.last() == s.last());
        assert(s.drop_last()[i] == s[i]);
        assert(s.last().0 != s[i].0);
        assert(map_of(t) =~= map_of(s).remove(s[i].0));
    }
}

/// A duplicate-free sequence denotes a map with one binding per entry.
pub proof fn lemma_map_of_len<V>(s: Seq<(u64, V)>)
    requires
        distinct_keys(s),
    ensures
        map_of(s).dom().finite(),
        map_of(s).dom().len() == s.len(),
    decreases s.len(),
{
    if s.len() > 0 {
        assert(forall|i: int| 0 <= i < s.len() - 1 ==> s.drop_last()[i] == s[i]);
        lemma_map_of_len(s.drop_last());
        lemma_map_of_contains(s.drop_last());
        assert(!has_key(s.drop_last(), s.last().0)) by {
            if has_key(s.drop_last(), s.last().0) {
                let i = choose|i: int|
                    0 <= i < s.drop_last().len() && s.drop_last()[i].0 == s.last().0;
                assert(s[i].0 == s[s.len() - 1].0);
            }
        }
    }
}

/// Law: binding a key twice keeps only the later value — the second insert
/// replaces the first binding and grows nothing.
pub proof fn lemma_insert_same_key<V>(m: Map<u64, V>, k: u64, v1: V, v2: V)
    ensures
        m.insert(k, v1).insert(k, v2) == m.insert(k, v2),
        m.insert(k, v1).contains_key(k),
        m.insert(k, v1)[k] == v1,
        m.insert(k, v1).dom() == m.insert(k, v2).dom(),
{
    assert(m.insert(k, v1).insert(k, v2) =~= m.insert(k, v2));
    assert(m.insert(k, v1).dom() =~= m.insert(k, v2).dom());
}

/// In a sorted sequence, keys below `k` sit exactly below `insert_position`.
pub proof fn lemma_insert_position<V>(s: Seq<(u64, V)>, k: u64)
    requires
        sorted(s),
    ensures
        0 <= insert_position(s, k) <= s.len(),
        forall|i: int| 0 <= i < insert_position(s, k) ==> s[i].0 < k,
        forall|i: int| insert_position(s, k) <= i < s.len() ==> s[i].0 >= k,
    decreases s.len(),
{
    if s.len() > 0 && s.last().0 >= k {
        assert(forall|i: int, j: int|
            0 <= i < j < s.drop_last().len() ==> s.drop_last()[i].0 < s.drop_last()[j].0);
        lemma_insert_position(s.drop_last(), k);
        assert(forall|i: int| 0 <= i < s.len() - 1 ==> s[i] == s.drop_last()[i]);
        assert forall|i: int| insert_position(s, k) <= i < s.len() implies s[i].0 >= k by {
            if i < s.len() - 1 {
                assert(s.drop_last()[i].0 >= k);
            }
        }
    }
}

} // verus!
