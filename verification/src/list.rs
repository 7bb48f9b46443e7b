//! The core engine: a skip list over an arena of nodes.
//!
//! Every node lives in one slot of a growable vector; slot 0 is the head
//! sentinel, which carries no payload and whose tower spans every level.
//! Links between nodes are slot indices, so the arena owns every node and no
//! link can dangle. A ghost sequence `ord` records the slots of the live
//! nodes in ascending key order; well-formedness ties every forward link at
//! every level to that order: a node's link at level `l` names exactly the
//! next live node whose tower reaches `l`.
use vstd::prelude::*;

use crate::data::Data;
use crate::gen_level::{DefaultGenerator, LevelGenerator};
use crate::model::{map_of, sorted, distinct_keys};
use crate::node::Node;
use crate::MAX_LEVEL;

verus! {

/// The slot held at extended position `p`: position 0 is the head sentinel,
/// position `p >= 1` is the `p`-th live node in key order.
pub(crate) open spec fn slot_of(ord: Seq<int>, p: int) -> int {
    if p == 0 {
        0
    } else {
        ord[p - 1]
    }
}

/// How many extended positions there are: the head plus every live node.
pub(crate) open spec fn pos_count(ord: Seq<int>) -> int {
    ord.len() as int + 1
}

pub(crate) open spec fn node_at<V>(nodes: Seq<Node<V>>, ord: Seq<int>, p: int) -> Node<V> {
    nodes[slot_of(ord, p)]
}

/// The height of the tower at position `p`.
pub(crate) open spec fn tower_of<V>(nodes: Seq<Node<V>>, ord: Seq<int>, p: int) -> int {
    node_at(nodes, ord, p).forward@.len() as int
}

/// Whether the tower at position `p` reaches `level`.
pub(crate) open spec fn on_level<V>(nodes: Seq<Node<V>>, ord: Seq<int>, p: int, level: int) -> bool {
    level < tower_of(nodes, ord, p)
}

pub(crate) open spec fn key_at<V>(nodes: Seq<Node<V>>, ord: Seq<int>, p: int) -> u64 {
    node_at(nodes, ord, p).data.unwrap().key
}

pub(crate) open spec fn val_at<V>(nodes: Seq<Node<V>>, ord: Seq<int>, p: int) -> V {
    node_at(nodes, ord, p).data.unwrap().value
}

/// The forward link of position `p` at `level`.
pub(crate) open spec fn fwd_at<V>(nodes: Seq<Node<V>>, ord: Seq<int>, p: int, level: int) -> Option<
    usize,
> {
    node_at(nodes, ord, p).forward@[level]
}

/// Position `q` is the first position after `p` whose tower reaches `level`.
pub(crate) open spec fn is_next_on_level<V>(
    nodes: Seq<Node<V>>,
    ord: Seq<int>,
    p: int,
    q: int,
    level: int,
) -> bool {
    &&& p < q < pos_count(ord)
    &&& on_level(nodes, ord, q, level)
    &&& forall|r: int| p < r < q ==> !on_level(nodes, ord, r, level)
}

/// The link of position `p` at `level` names exactly the next position on
/// that level, or nothing when no such position remains.
pub(crate) open spec fn link_ok<V>(nodes: Seq<Node<V>>, ord: Seq<int>, p: int, level: int) -> bool {
    match fwd_at(nodes, ord, p, level) {
        None => forall|q: int| p < q < pos_count(ord) ==> !on_level(nodes, ord, q, level),
        Some(m) => exists|q: int|
            is_next_on_level(nodes, ord, p, q, level) && slot_of(ord, q) == m as int,
    }
}

pub(crate) open spec fn links_ok<V>(nodes: Seq<Node<V>>, ord: Seq<int>) -> bool {
    forall|p: int, level: int|
        0 <= p < pos_count(ord) && 0 <= level < tower_of(nodes, ord, p) ==> #[trigger] link_ok(
            nodes,
            ord,
            p,
            level,
        )
}

/// Every position names a valid arena slot: the head is payload-free with a
/// full tower, and each live node carries a payload and a tower of height
/// `1..=MAX_LEVEL`.
pub(crate) open spec fn slots_ok<V>(nodes: Seq<Node<V>>, ord: Seq<int>) -> bool {
    &&& 1 <= nodes.len()
    &&& nodes[0].data is None
    &&& nodes[0].forward@.len() == MAX_LEVEL
    &&& forall|p: int| 1 <= p < pos_count(ord) ==> 1 <= #[trigger] slot_of(ord, p) < nodes.len()
    &&& forall|p: int| 1 <= p < pos_count(ord) ==> (#[trigger] node_at(nodes, ord, p)).data is Some
    &&& forall|p: int|
        1 <= p < pos_count(ord) ==> 1 <= #[trigger] tower_of(nodes, ord, p) <= MAX_LEVEL as int
}

/// The live keys strictly ascend along the order.
pub(crate) open spec fn keys_ascending<V>(nodes: Seq<Node<V>>, ord: Seq<int>) -> bool {
    forall|p: int, q: int|
        1 <= p < q < pos_count(ord) ==> #[trigger] key_at(nodes, ord, p) < #[trigger] key_at(
            nodes,
            ord,
            q,
        )
}

pub(crate) open spec fn state_ok<V>(nodes: Seq<Node<V>>, ord: Seq<int>) -> bool {
    &&& slots_ok(nodes, ord)
    &&& keys_ascending(nodes, ord)
    &&& links_ok(nodes, ord)
}

/// Recycled slots name valid arena entries, hold no payload, and never repeat.
pub(crate) open spec fn free_ok<V>(nodes: Seq<Node<V>>, free: Seq<usize>) -> bool {
    &&& forall|i: int| 0 <= i < free.len() ==> 1 <= #[trigger] free[i] < nodes.len()
    &&& forall|i: int| 0 <= i < free.len() ==> nodes[#[trigger] free[i] as int].data is None
    &&& forall|i: int, j: int|
        0 <= i < j < free.len() ==> #[trigger] free[i] != #[trigger] free[j]
}

/// Distinct positions occupy distinct arena slots.
pub(crate) proof fn lemma_slot_distinct<V>(nodes: Seq<Node<V>>, ord: Seq<int>)
    requires
        slots_ok(nodes, ord),
        keys_ascending(nodes, ord),
    ensures
        forall|p: int, q: int|
            0 <= p < q < pos_count(ord) ==> #[trigger] slot_of(ord, p) != #[trigger] slot_of(
                ord,
                q,
            ),
{
    assert forall|p: int, q: int|
        0 <= p < q < pos_count(ord) implies #[trigger] slot_of(ord, p) != #[trigger] slot_of(
        ord,
        q,
    ) by {
        if slot_of(ord, p) == slot_of(ord, q) {
            if p == 0 {
                assert(1 <= slot_of(ord, q));
            } else {
                assert(key_at(nodes, ord, p) < key_at(nodes, ord, q));
                assert(node_at(nodes, ord, p) == node_at(nodes, ord, q));
            }
        }
    }
}

/// There are strictly fewer live nodes than arena slots.
pub(crate) proof fn lemma_ord_len_bound<V>(nodes: Seq<Node<V>>, ord: Seq<int>)
    requires
        slots_ok(nodes, ord),
        keys_ascending(nodes, ord),
    ensures
        ord.len() < nodes.len(),
{
    lemma_slot_distinct(nodes, ord);
    assert forall|i: int, j: int| 0 <= i < j < ord.len() implies ord[i] != ord[j] by {
        assert(slot_of(ord, i + 1) != slot_of(ord, j + 1));
    }
    assert(ord.no_duplicates());
    ord.unique_seq_to_set();
    let rng = vstd::set_lib::set_int_range(1, nodes.len() as int);
    assert(ord.to_set().subset_of(rng)) by {
        assert forall|x: int| ord.to_set().contains(x) implies rng.contains(x) by {
            let i = choose|i: int| 0 <= i < ord.len() && ord[i] == x;
            assert(slot_of(ord, i + 1) == x);
            assert(1 <= slot_of(ord, i + 1) < nodes.len());
        }
    }
    vstd::set_lib::lemma_int_range(1, nodes.len() as int);
    vstd::set_lib::lemma_len_subset(ord.to_set(), rng);
}

/// Link consistency carries over to an arena that presents the same towers
/// and the same links at every position and level.
pub(crate) proof fn lemma_links_same_shape<V>(
    nodes: Seq<Node<V>>,
    nodes2: Seq<Node<V>>,
    ord: Seq<int>,
)
    requires
        links_ok(nodes, ord),
        forall|p: int|
            0 <= p < pos_count(ord) ==> #[trigger] tower_of(nodes2, ord, p) == tower_of(
                nodes,
                ord,
                p,
            ),
        forall|p: int, l: int|
            0 <= p < pos_count(ord) && 0 <= l < tower_of(nodes, ord, p) ==> #[trigger] fwd_at(
                nodes2,
                ord,
                p,
                l,
            ) == fwd_at(nodes, ord, p, l),
    ensures
        links_ok(nodes2, ord),
{
    assert forall|p: int, level: int|
        0 <= p < pos_count(ord) && 0 <= level < tower_of(nodes2, ord, p) implies #[trigger] link_ok(
        nodes2,
        ord,
        p,
        level,
    ) by {
        assert(link_ok(nodes, ord, p, level));
        assert(fwd_at(nodes2, ord, p, level) == fwd_at(nodes, ord, p, level));
        match fwd_at(nodes, ord, p, level) {
            None => {
                assert forall|q: int| p < q < pos_count(ord) implies !on_level(
                    nodes2,
                    ord,
                    q,
                    level,
                ) by {
                    assert(!on_level(nodes, ord, q, level));
                }
            },
            Some(m) => {
                let q = choose|q: int|
                    is_next_on_level(nodes, ord, p, q, level) && slot_of(ord, q) == m as int;
                assert(is_next_on_level(nodes, ord, p, q, level));
                assert(on_level(nodes2, ord, q, level));
                assert forall|r: int| p < r < q implies !on_level(nodes2, ord, r, level) by {
                    assert(!on_level(nodes, ord, r, level));
                }
                assert(is_next_on_level(nodes2, ord, p, q, level) && slot_of(ord, q) == m as int);
            },
        }
    }
}

/// Position `p` is a valid predecessor for `key` at `level`: it is on the
/// level, its key (if any) is below `key`, and every later position on the
/// level carries a key at or above `key`.
pub(crate) open spec fn located_at<V>(
    nodes: Seq<Node<V>>,
    ord: Seq<int>,
    key: u64,
    preds: Seq<usize>,
    ppos: Seq<int>,
    level: int,
) -> bool {
    let p = ppos[level];
    &&& 0 <= p < pos_count(ord)
    &&& slot_of(ord, p) == preds[level] as int
    &&& on_level(nodes, ord, p, level)
    &&& p == 0 || key_at(nodes, ord, p) < key
    &&& forall|q: int|
        p < q < pos_count(ord) && #[trigger] on_level(nodes, ord, q, level) ==> key_at(
            nodes,
            ord,
            q,
        ) >= key
}

/// The result of the leveled search: one valid predecessor per level.
pub(crate) open spec fn located<V>(
    nodes: Seq<Node<V>>,
    ord: Seq<int>,
    key: u64,
    preds: Seq<usize>,
    ppos: Seq<int>,
) -> bool {
    &&& preds.len() == MAX_LEVEL
    &&& ppos.len() == MAX_LEVEL
    &&& forall|level: int|
        0 <= level < MAX_LEVEL as int ==> #[trigger] located_at(nodes, ord, key, preds, ppos, level)
}

/// Rewriting one live node's value in place leaves the whole structure well
/// formed and every other entry untouched.
pub(crate) proof fn lemma_value_update<V>(
    nodes0: Seq<Node<V>>,
    nodes1: Seq<Node<V>>,
    ord: Seq<int>,
    qs: int,
    m: usize,
    key: u64,
    val: V,
)
    requires
        state_ok(nodes0, ord),
        keys_ascending(nodes0, ord),
        1 <= qs < pos_count(ord),
        slot_of(ord, qs) == m as int,
        key_at(nodes0, ord, qs) == key,
        nodes1 == nodes0.update(
            m as int,
            Node { data: Some(Data { key, value: val }), forward: nodes0[m as int].forward },
        ),
    ensures
        state_ok(nodes1, ord),
        forall|p: int|
            1 <= p < pos_count(ord) ==> #[trigger] key_at(nodes1, ord, p) == key_at(nodes0, ord, p),
        forall|p: int|
            1 <= p < pos_count(ord) && p != qs ==> #[trigger] val_at(nodes1, ord, p) == val_at(
                nodes0,
                ord,
                p,
            ),
        val_at(nodes1, ord, qs) == val,
        forall|t: int|
            0 <= t < nodes0.len() && nodes0[t].data is None ==> (#[trigger] nodes1[t]).data
                is None,
{
    lemma_slot_distinct(nodes0, ord);
    assert(1 <= m as int && (m as int) < nodes0.len());
    assert forall|p: int| 0 <= p < pos_count(ord) implies #[trigger] tower_of(nodes1, ord, p)
        == tower_of(nodes0, ord, p) by {
        if p >= 1 {
            assert(1 <= slot_of(ord, p) < nodes0.len());
        }
        assert(node_at(nodes1, ord, p).forward == node_at(nodes0, ord, p).forward);
    }
    assert forall|p: int, l: int|
        0 <= p < pos_count(ord) && 0 <= l < tower_of(nodes0, ord, p) implies #[trigger] fwd_at(
        nodes1,
        ord,
        p,
        l,
    ) == fwd_at(nodes0, ord, p, l) by {
        if p >= 1 {
            assert(1 <= slot_of(ord, p) < nodes0.len());
        }
        assert(node_at(nodes1, ord, p).forward == node_at(nodes0, ord, p).forward);
    }
    lemma_links_same_shape(nodes0, nodes1, ord);
    assert forall|p: int| 1 <= p < pos_count(ord) implies (#[trigger] node_at(
        nodes1,
        ord,
        p,
    )).data is Some by {
        assert(1 <= slot_of(ord, p) < nodes0.len());
        if p != qs {
            assert(slot_of(ord, p) != slot_of(ord, qs));
            assert(node_at(nodes1, ord, p) == node_at(nodes0, ord, p));
        } else {
            assert(nodes1[m as int].data == Some(Data { key, value: val }));
        }
    }
    assert forall|p: int| 1 <= p < pos_count(ord) implies #[trigger] key_at(nodes1, ord, p)
        == key_at(nodes0, ord, p) by {
        assert(1 <= slot_of(ord, p) < nodes0.len());
        if p != qs {
            assert(slot_of(ord, p) != slot_of(ord, qs));
            assert(node_at(nodes1, ord, p) == node_at(nodes0, ord, p));
        } else {
            assert(nodes1[m as int].data == Some(Data { key, value: val }));
        }
    }
    assert forall|p: int| 1 <= p < pos_count(ord) && p != qs implies #[trigger] val_at(
        nodes1,
        ord,
        p,
    ) == val_at(nodes0, ord, p) by {
        assert(1 <= slot_of(ord, p) < nodes0.len());
        assert(slot_of(ord, p) != slot_of(ord, qs));
        assert(node_at(nodes1, ord, p) == node_at(nodes0, ord, p));
    }
    assert(nodes1.len() == nodes0.len());
    assert(nodes1[0] == nodes0[0]);
    assert forall|p: int| 1 <= p < pos_count(ord) implies 1 <= #[trigger] slot_of(ord, p)
        < nodes1.len() && 1 <= #[trigger] tower_of(nodes1, ord, p) <= MAX_LEVEL as int by {
        assert(tower_of(nodes1, ord, p) == tower_of(nodes0, ord, p));
    }
    assert(slots_ok(nodes1, ord));
    assert(keys_ascending(nodes1, ord));
}

/// After a fresh node is spliced in behind every level's predecessor, the
/// whole structure is well formed again for the order extended with it.
///
/// `alloc` is the arena right after allocating the node in slot `s`; `cur`
/// is the arena after the splice, characterized pointwise: at each level
/// below `h`, the new node took over its predecessor's old link and the
/// predecessor now links to the new node; every other link is untouched.
#[verifier::rlimit(100)]
proof fn lemma_insert_links<V>(
    alloc: Seq<Node<V>>,
    cur: Seq<Node<V>>,
    ord0: Seq<int>,
    key: u64,
    preds: Seq<usize>,
    ppos: Seq<int>,
    pj: int,
    s: usize,
    h: int,
)
    requires
        state_ok(alloc, ord0),
        located(alloc, ord0, key, preds, ppos),
        forall|q: int| 1 <= q < pos_count(ord0) ==> #[trigger] key_at(alloc, ord0, q) != key,
        pj == ppos[0],
        1 <= s < alloc.len(),
        alloc[s as int].data is Some,
        alloc[s as int].data.unwrap().key == key,
        alloc[s as int].forward@.len() == h,
        1 <= h <= MAX_LEVEL as int,
        forall|p: int| 1 <= p < pos_count(ord0) ==> #[trigger] slot_of(ord0, p) != s as int,
        cur.len() == alloc.len(),
        forall|t: int|
            0 <= t < alloc.len() ==> (#[trigger] cur[t]).data == alloc[t].data
                && cur[t].forward@.len() == alloc[t].forward@.len(),
        forall|t: int, l2: int|
            0 <= t < alloc.len() && 0 <= l2 < alloc[t].forward@.len() ==> #[trigger] cur[t].forward@[l2]
                == (if t == s as int && l2 < h {
                    fwd_at(alloc, ord0, ppos[l2], l2)
                } else if l2 < h && t == preds[l2] as int {
                    Some(s)
                } else {
                    alloc[t].forward@[l2]
                }),
    ensures
        state_ok(cur, ord0.insert(pj, s as int)),
{
    let ord1 = ord0.insert(pj, s as int);
    let np = pj + 1;
    let n0 = pos_count(ord0);
    let n1 = pos_count(ord1);
    assert(located_at(alloc, ord0, key, preds, ppos, 0));
    assert(0 <= pj < n0);
    ord0.insert_ensures(pj, s as int);
    assert(n1 == n0 + 1);
    lemma_slot_distinct(alloc, ord0);

    // How positions map across the splice.
    assert forall|p: int| 0 <= p < np implies #[trigger] slot_of(ord1, p) == slot_of(ord0, p) by {}
    assert(slot_of(ord1, np) == s as int);
    assert forall|p: int| np < p < n1 implies #[trigger] slot_of(ord1, p) == slot_of(
        ord0,
        p - 1,
    ) by {}

    // Towers, payloads and keys across the splice.
    assert forall|p: int| 0 <= p < n1 && p != np implies {
        let po = if p < np {
            p
        } else {
            p - 1
        };
        &&& #[trigger] node_at(cur, ord1, p).data == node_at(alloc, ord0, po).data
        &&& tower_of(cur, ord1, p) == tower_of(alloc, ord0, po)
    } by {
        let po = if p < np {
            p
        } else {
            p - 1
        };
        assert(slot_of(ord1, p) == slot_of(ord0, po));
        if po == 0 {
            assert(slot_of(ord0, po) == 0);
        } else {
            assert(1 <= slot_of(ord0, po) < alloc.len());
        }
    }
    assert(node_at(cur, ord1, np) == cur[s as int]);
    assert(tower_of(cur, ord1, np) == h);
    assert(key_at(cur, ord1, np) == key);

    // Every level's predecessor sits at or before the level-0 predecessor.
    assert forall|level: int, po: int|
        0 <= level < MAX_LEVEL as int && 0 <= po <= pj && #[trigger] on_level(
            alloc,
            ord0,
            po,
            level,
        ) implies po <= ppos[level] by {
        assert(located_at(alloc, ord0, key, preds, ppos, level));
        if po > ppos[level] {
            assert(key_at(alloc, ord0, po) >= key);
            if po < pj {
                assert(key_at(alloc, ord0, po) < key_at(alloc, ord0, pj));
                assert(key_at(alloc, ord0, pj) < key);
            } else {
                assert(key_at(alloc, ord0, pj) < key);
            }
            assert(false);
        }
    }

    // Keys at or before the level-0 predecessor lie below `key`; keys past
    // it lie above.
    assert forall|po: int| 1 <= po <= pj implies #[trigger] key_at(alloc, ord0, po) < key by {
        if po < pj {
            assert(key_at(alloc, ord0, po) < key_at(alloc, ord0, pj));
        }
        assert(key_at(alloc, ord0, pj) < key);
    }
    assert forall|q: int| pj < q < n0 implies #[trigger] key_at(alloc, ord0, q) > key by {
        assert(on_level(alloc, ord0, q, 0));
        assert(located_at(alloc, ord0, key, preds, ppos, 0));
        assert(key_at(alloc, ord0, q) >= key);
    }

    // Well-formed slots for the extended order.
    assert forall|p: int| 1 <= p < n1 implies 1 <= #[trigger] slot_of(ord1, p) < cur.len()
        && (#[trigger] node_at(cur, ord1, p)).data is Some && 1 <= #[trigger] tower_of(cur, ord1, p)
        <= MAX_LEVEL as int by {
        if p != np {
            let po = if p < np {
                p
            } else {
                p - 1
            };
            assert(slot_of(ord1, p) == slot_of(ord0, po));
            assert(1 <= slot_of(ord0, po) < alloc.len());
        }
    }
    assert(slots_ok(cur, ord1));

    // Keys still ascend along the extended order.
    assert forall|p: int, q: int|
        1 <= p < q < n1 implies #[trigger] key_at(cur, ord1, p) < #[trigger] key_at(
        cur,
        ord1,
        q,
    ) by {
        let po = if p < np {
            p
        } else {
            p - 1
        };
        let qo = if q < np {
            q
        } else {
            q - 1
        };
        if p == np {
            assert(key_at(cur, ord1, q) == key_at(alloc, ord0, qo));
        } else if q == np {
            assert(key_at(cur, ord1, p) == key_at(alloc, ord0, po));
        } else {
            assert(key_at(cur, ord1, p) == key_at(alloc, ord0, po));
            assert(key_at(cur, ord1, q) == key_at(alloc, ord0, qo));
        }
    }
    assert(keys_ascending(cur, ord1));

    // The links of the extended order are consistent at every level.
    assert forall|p: int, level: int|
        0 <= p < n1 && 0 <= level < tower_of(cur, ord1, p) implies #[trigger] link_ok(
        cur,
        ord1,
        p,
        level,
    ) by {
        assert(located_at(alloc, ord0, key, preds, ppos, level));
        let pl = ppos[level];
        assert(0 <= pl <= pj);
        if p == np {
            // The fresh node: it took over its predecessor's old link.
            assert(fwd_at(cur, ord1, np, level) == fwd_at(alloc, ord0, pl, level));
            assert(link_ok(alloc, ord0, pl, level));
            match fwd_at(alloc, ord0, pl, level) {
                None => {
                    assert forall|q: int| np < q < n1 implies !on_level(cur, ord1, q, level) by {
                        assert(!on_level(alloc, ord0, q - 1, level));
                    }
                },
                Some(m) => {
                    let q0 = choose|q0: int|
                        is_next_on_level(alloc, ord0, pl, q0, level) && slot_of(ord0, q0)
                            == m as int;
                    assert(is_next_on_level(alloc, ord0, pl, q0, level));
                    assert(q0 > pj) by {
                        if q0 <= pj {
                            assert(on_level(alloc, ord0, q0, level));
                            assert(q0 <= ppos[level]);
                        }
                    }
                    assert forall|r: int| np < r < q0 + 1 implies !on_level(cur, ord1, r, level) by {
                        assert(!on_level(alloc, ord0, r - 1, level));
                    }
                    assert(is_next_on_level(cur, ord1, np, q0 + 1, level) && slot_of(ord1, q0 + 1)
                        == m as int);
                },
            }
        } else {
            let po = if p < np {
                p
            } else {
                p - 1
            };
            assert(tower_of(cur, ord1, p) == tower_of(alloc, ord0, po));
            assert(on_level(alloc, ord0, po, level));
            assert(link_ok(alloc, ord0, po, level));
            if level < h && po == pl {
                // The spliced predecessor now links to the fresh node.
                assert(slot_of(ord0, po) == preds[level] as int);
                assert(fwd_at(cur, ord1, p, level) == Some(s));
                assert(p == po);
                assert forall|r: int| p < r < np implies !on_level(cur, ord1, r, level) by {
                    assert(on_level(cur, ord1, r, level) == on_level(alloc, ord0, r, level));
                    if on_level(alloc, ord0, r, level) {
                        assert(r <= ppos[level]);
                    }
                }
                assert(on_level(cur, ord1, np, level));
                assert(is_next_on_level(cur, ord1, p, np, level) && slot_of(ord1, np) == s as int);
            } else {
                // An untouched link.
                assert(slot_of(ord1, p) == slot_of(ord0, po));
                if po != pl {
                    assert(slot_of(ord0, po) != slot_of(ord0, pl));
                    assert(preds[level] as int == slot_of(ord0, pl));
                }
                assert(fwd_at(cur, ord1, p, level) == fwd_at(alloc, ord0, po, level));
                match fwd_at(alloc, ord0, po, level) {
                    None => {
                        assert forall|q: int| p < q < n1 implies !on_level(cur, ord1, q, level) by {
                            if q == np {
                                if level < h {
                                    // the predecessor chain would have to
                                    // pass through `po`
                                    assert(po <= pj);
                                    assert(po <= pl);
                                    if po < pl {
                                        assert(on_level(alloc, ord0, pl, level));
                                        assert(false);
                                    }
                                    assert(false);
                                }
                                assert(!on_level(cur, ord1, np, level));
                            } else {
                                let qo = if q < np {
                                    q
                                } else {
                                    q - 1
                                };
                                assert(!on_level(alloc, ord0, qo, level));
                            }
                        }
                    },
                    Some(m) => {
                        let q0 = choose|q0: int|
                            is_next_on_level(alloc, ord0, po, q0, level) && slot_of(ord0, q0)
                                == m as int;
                        assert(is_next_on_level(alloc, ord0, po, q0, level));
                        let q1 = if q0 <= pj {
                            q0
                        } else {
                            q0 + 1
                        };
                        assert(slot_of(ord1, q1) == m as int);
                        assert(on_level(cur, ord1, q1, level));
                        assert(p < q1);
                        assert forall|r: int| p < r < q1 implies !on_level(cur, ord1, r, level) by {
                            if r == np {
                                if level < h {
                                    // a link may not straddle the fresh node
                                    assert(po <= pj);
                                    assert(pj < q0);
                                    assert(po <= pl);
                                    if po < pl {
                                        assert(pl <= pj);
                                        assert(on_level(alloc, ord0, pl, level));
                                        assert(po < pl && pl < q0);
                                        assert(false);
                                    }
                                    assert(false);
                                }
                                assert(!on_level(cur, ord1, np, level));
                            } else {
                                let ro = if r < np {
                                    r
                                } else {
                                    r - 1
                                };
                                assert(po < ro < q0);
                                assert(!on_level(alloc, ord0, ro, level));
                            }
                        }
                        assert(is_next_on_level(cur, ord1, p, q1, level) && slot_of(ord1, q1)
                            == m as int);
                    },
                }
            }
        }
    }
    assert(links_ok(cur, ord1));
}

/// After the doomed node's predecessors take over its links level by level,
/// the whole structure is well formed again for the order without it.
///
/// `nodes0` is the arena before the unlinking; `cur` is the arena after it,
/// characterized pointwise: at each level below the doomed node's height
/// `hd`, that level's predecessor now holds the doomed node's old link;
/// every other link is untouched, and only the doomed slot's payload may
/// have changed.
#[verifier::rlimit(100)]
proof fn lemma_remove_links<V>(
    nodes0: Seq<Node<V>>,
    cur: Seq<Node<V>>,
    ord0: Seq<int>,
    key: u64,
    preds: Seq<usize>,
    ppos: Seq<int>,
    pj: int,
    del: usize,
    hd: int,
)
    requires
        state_ok(nodes0, ord0),
        located(nodes0, ord0, key, preds, ppos),
        pj == ppos[0],
        0 <= pj && pj + 1 < pos_count(ord0),
        slot_of(ord0, pj + 1) == del as int,
        key_at(nodes0, ord0, pj + 1) == key,
        hd == tower_of(nodes0, ord0, pj + 1),
        cur.len() == nodes0.len(),
        forall|t: int|
            0 <= t < nodes0.len() && t != del as int ==> (#[trigger] cur[t]).data == nodes0[t].data,
        forall|t: int|
            0 <= t < nodes0.len() ==> (#[trigger] cur[t]).forward@.len()
                == nodes0[t].forward@.len(),
        forall|t: int, l2: int|
            0 <= t < nodes0.len() && 0 <= l2 < nodes0[t].forward@.len() ==> #[trigger] cur[t].forward@[l2]
                == (if l2 < hd && t == preds[l2] as int {
                    fwd_at(nodes0, ord0, pj + 1, l2)
                } else {
                    nodes0[t].forward@[l2]
                }),
    ensures
        state_ok(cur, ord0.remove(pj)),
{
    let dq = pj + 1;
    let ord1 = ord0.remove(pj);
    let n0 = pos_count(ord0);
    let n1 = pos_count(ord1);
    assert(located_at(nodes0, ord0, key, preds, ppos, 0));
    ord0.remove_ensures(pj);
    assert(n1 == n0 - 1);
    lemma_slot_distinct(nodes0, ord0);

    // How positions map across the unlinking.
    assert forall|p: int| 0 <= p < dq implies #[trigger] slot_of(ord1, p) == slot_of(ord0, p) by {}
    assert forall|p: int| dq <= p < n1 implies #[trigger] slot_of(ord1, p) == slot_of(
        ord0,
        p + 1,
    ) by {}

    // Towers and payloads across the unlinking.
    assert forall|p: int| 0 <= p < n1 implies {
        let po = if p < dq {
            p
        } else {
            p + 1
        };
        &&& #[trigger] node_at(cur, ord1, p).data == node_at(nodes0, ord0, po).data
        &&& tower_of(cur, ord1, p) == tower_of(nodes0, ord0, po)
    } by {
        let po = if p < dq {
            p
        } else {
            p + 1
        };
        assert(slot_of(ord1, p) == slot_of(ord0, po));
        if po >= 1 {
            assert(1 <= slot_of(ord0, po) < nodes0.len());
            assert(slot_of(ord0, po) != slot_of(ord0, dq));
        }
    }

    // Every level's predecessor sits at or before the level-0 predecessor.
    assert forall|level: int, po: int|
        0 <= level < MAX_LEVEL as int && 0 <= po <= pj && #[trigger] on_level(
            nodes0,
            ord0,
            po,
            level,
        ) implies po <= ppos[level] by {
        assert(located_at(nodes0, ord0, key, preds, ppos, level));
        if po > ppos[level] {
            assert(key_at(nodes0, ord0, po) >= key);
            if po < pj {
                assert(key_at(nodes0, ord0, po) < key_at(nodes0, ord0, pj));
                assert(key_at(nodes0, ord0, pj) < key_at(nodes0, ord0, dq));
            } else {
                assert(key_at(nodes0, ord0, pj) < key_at(nodes0, ord0, dq));
            }
            assert(false);
        }
    }
    assert forall|level: int, r: int|
        0 <= level < MAX_LEVEL as int && ppos[level] < r <= pj implies !on_level(
        nodes0,
        ord0,
        r,
        level,
    ) by {
        assert(located_at(nodes0, ord0, key, preds, ppos, level));
        if on_level(nodes0, ord0, r, level) {
            assert(r <= ppos[level]);
        }
    }

    // Well-formed slots and ascending keys for the shortened order.
    assert forall|p: int| 1 <= p < n1 implies 1 <= #[trigger] slot_of(ord1, p) < cur.len() && (
    #[trigger] node_at(cur, ord1, p)).data is Some && 1 <= #[trigger] tower_of(cur, ord1, p)
        <= MAX_LEVEL as int by {
        let po = if p < dq {
            p
        } else {
            p + 1
        };
        assert(slot_of(ord1, p) == slot_of(ord0, po));
        assert(1 <= slot_of(ord0, po) < nodes0.len());
    }
    assert(1 <= del as int && (del as int) < nodes0.len());
    assert(cur[0].data == nodes0[0].data);
    assert(cur[0].forward@.len() == nodes0[0].forward@.len());
    assert(slots_ok(cur, ord1));
    assert forall|p: int, q: int|
        1 <= p < q < n1 implies #[trigger] key_at(cur, ord1, p) < #[trigger] key_at(
        cur,
        ord1,
        q,
    ) by {
        let po = if p < dq {
            p
        } else {
            p + 1
        };
        let qo = if q < dq {
            q
        } else {
            q + 1
        };
        assert(key_at(cur, ord1, p) == key_at(nodes0, ord0, po));
        assert(key_at(cur, ord1, q) == key_at(nodes0, ord0, qo));
    }
    assert(keys_ascending(cur, ord1));

    // The links of the shortened order are consistent at every level.
    assert forall|p: int, level: int|
        0 <= p < n1 && 0 <= level < tower_of(cur, ord1, p) implies #[trigger] link_ok(
        cur,
        ord1,
        p,
        level,
    ) by {
        assert(located_at(nodes0, ord0, key, preds, ppos, level));
        let pl = ppos[level];
        assert(0 <= pl <= pj);
        let po = if p < dq {
            p
        } else {
            p + 1
        };
        assert(on_level(nodes0, ord0, po, level));
        assert(slot_of(ord1, p) == slot_of(ord0, po));
        if level < hd && po == pl {
            // The fixed predecessor: it holds the doomed node's old link.
            assert(slot_of(ord0, po) == preds[level] as int);
            assert(p == po);
            assert(fwd_at(cur, ord1, p, level) == fwd_at(nodes0, ord0, dq, level));
            assert(on_level(nodes0, ord0, dq, level));
            assert(link_ok(nodes0, ord0, dq, level));
            match fwd_at(nodes0, ord0, dq, level) {
                None => {
                    assert forall|q: int| p < q < n1 implies !on_level(cur, ord1, q, level) by {
                        let qo = if q < dq {
                            q
                        } else {
                            q + 1
                        };
                        if qo <= pj {
                            assert(!on_level(nodes0, ord0, qo, level));
                        } else {
                            assert(qo > dq);
                            assert(!on_level(nodes0, ord0, qo, level));
                        }
                        assert(on_level(cur, ord1, q, level) == on_level(nodes0, ord0, qo, level));
                    }
                },
                Some(m) => {
                    let q0 = choose|q0: int|
                        is_next_on_level(nodes0, ord0, dq, q0, level) && slot_of(ord0, q0)
                            == m as int;
                    assert(is_next_on_level(nodes0, ord0, dq, q0, level));
                    let q1 = q0 - 1;
                    assert(slot_of(ord1, q1) == m as int);
                    assert(on_level(cur, ord1, q1, level));
                    assert forall|r: int| p < r < q1 implies !on_level(cur, ord1, r, level) by {
                        let ro = if r < dq {
                            r
                        } else {
                            r + 1
                        };
                        if ro <= pj {
                            assert(!on_level(nodes0, ord0, ro, level));
                        } else {
                            assert(dq < ro < q0);
                            assert(!on_level(nodes0, ord0, ro, level));
                        }
                        assert(on_level(cur, ord1, r, level) == on_level(nodes0, ord0, ro, level));
                    }
                    assert(is_next_on_level(cur, ord1, p, q1, level) && slot_of(ord1, q1)
                        == m as int);
                },
            }
        } else {
            // An untouched link.
            if po != pl {
                assert(slot_of(ord0, po) != slot_of(ord0, pl));
                assert(preds[level] as int == slot_of(ord0, pl));
            }
            assert(fwd_at(cur, ord1, p, level) == fwd_at(nodes0, ord0, po, level));
            assert(link_ok(nodes0, ord0, po, level));
            match fwd_at(nodes0, ord0, po, level) {
                None => {
                    assert forall|q: int| p < q < n1 implies !on_level(cur, ord1, q, level) by {
                        let qo = if q < dq {
                            q
                        } else {
                            q + 1
                        };
                        assert(po < qo);
                        assert(!on_level(nodes0, ord0, qo, level));
                        assert(on_level(cur, ord1, q, level) == on_level(nodes0, ord0, qo, level));
                    }
                },
                Some(m) => {
                    let q0 = choose|q0: int|
                        is_next_on_level(nodes0, ord0, po, q0, level) && slot_of(ord0, q0)
                            == m as int;
                    assert(is_next_on_level(nodes0, ord0, po, q0, level));
                    assert(q0 != dq) by {
                        if q0 == dq {
                            // then `po` would be that level's predecessor
                            assert(on_level(nodes0, ord0, dq, level));
                            assert(level < hd);
                            assert(po <= pj);
                            assert(po <= pl);
                            if po < pl {
                                assert(pl <= pj && pj < dq);
                                assert(on_level(nodes0, ord0, pl, level));
                                assert(po < pl && pl < q0);
                                assert(false);
                            }
                            assert(po == pl);
                            assert(false);
                        }
                    }
                    let q1 = if q0 < dq {
                        q0
                    } else {
                        q0 - 1
                    };
                    assert(slot_of(ord1, q1) == m as int);
                    assert(on_level(cur, ord1, q1, level));
                    assert(p < q1);
                    assert forall|r: int| p < r < q1 implies !on_level(cur, ord1, r, level) by {
                        let ro = if r < dq {
                            r
                        } else {
                            r + 1
                        };
                        assert(po < ro < q0);
                        assert(!on_level(nodes0, ord0, ro, level));
                        assert(on_level(cur, ord1, r, level) == on_level(nodes0, ord0, ro, level));
                    }
                    assert(is_next_on_level(cur, ord1, p, q1, level) && slot_of(ord1, q1)
                        == m as int);
                },
            }
        }
    }
    assert(links_ok(cur, ord1));
}

/// An ordered map from `u64` keys to values, with expected-logarithmic
/// search, insertion and removal.
pub struct SkipList<V, G = DefaultGenerator> where G: LevelGenerator {
    /// The arena; slot 0 is the head sentinel.
    pub(crate) nodes: Vec<Node<V>>,
    /// Slots of removed nodes, kept for reuse.
    pub(crate) free: Vec<usize>,
    /// The number of live entries.
    pub(crate) len: usize,
    /// The tower-height sampling policy.
    pub(crate) gen: G,
    /// The slots of the live nodes in ascending key order.
    pub(crate) ord: Ghost<Seq<int>>,
}

impl<V, G: LevelGenerator> SkipList<V, G> {
    /// Every level's links are consistent with the single ascending order of
    /// the live nodes, and bookkeeping matches that order.
    pub open(crate) spec fn wf(&self) -> bool {
        &&& state_ok(self.nodes@, self.ord@)
        &&& self.len == self.ord@.len()
        &&& free_ok(self.nodes@, self.free@)
    }

    /// The live entries in ascending key order: what traversal yields.
    pub open(crate) spec fn entries(&self) -> Seq<(u64, V)> {
        Seq::new(
            self.ord@.len(),
            |i: int| (key_at(self.nodes@, self.ord@, i + 1), val_at(self.nodes@, self.ord@, i + 1)),
        )
    }

    /// Law: traversal yields keys in strictly ascending order, hence without
    /// duplicates, whatever mutations built the list.
    pub proof fn lemma_entries_sorted(&self)
        requires
            self.wf(),
        ensures
            sorted(self.entries()),
            distinct_keys(self.entries()),
    {
        crate::model::lemma_sorted_distinct(self.entries());
    }

    /// Law: the length the list reports counts every live entry exactly
    /// once — the map the list denotes has one binding per traversal yield.
    pub proof fn lemma_len_consistent(&self)
        requires
            self.wf(),
        ensures
            self@.dom().finite(),
            self@.dom().len() == self.entries().len(),
    {
        self.lemma_entries_sorted();
        crate::model::lemma_map_of_len(self.entries());
    }

    /// A list holding the given sampling policy and no entries.
    pub fn with_gen(gen: G) -> (list: SkipList<V, G>)
        ensures
            list.wf(),
            list.entries().len() == 0,
            list@ == Map::<u64, V>::empty(),
    {
        let head = Node::new(None, MAX_LEVEL);
        let mut nodes: Vec<Node<V>> = Vec::new();
        nodes.push(head);
        let list = SkipList {
            nodes,
            free: Vec::new(),
            len: 0,
            gen,
            ord: Ghost(Seq::empty()),
        };
        proof {
            assert forall|level: int| 0 <= level < tower_of(list.nodes@, list.ord@, 0) implies
                #[trigger] link_ok(list.nodes@, list.ord@, 0, level) by {
                assert(fwd_at(list.nodes@, list.ord@, 0, level) is None);
            }
            assert(list@ =~= Map::<u64, V>::empty());
        }
        list
    }

    /// The number of live entries.
    pub fn len(&self) -> (n: usize)
        requires
            self.wf(),
        ensures
            n == self.entries().len(),
    {
        self.len
    }

    /// Whether the list holds no entries.
    pub fn is_empty(&self) -> (e: bool)
        requires
            self.wf(),
        ensures
            e <==> self.entries().len() == 0,
    {
        self.len == 0
    }

    /// The key of a live arena slot.
    fn key_of_slot(&self, s: usize) -> (k: u64)
        requires
            s < self.nodes@.len(),
            self.nodes@[s as int].data is Some,
        ensures
            k == self.nodes@[s as int].data.unwrap().key,
    {
        match &self.nodes[s].data {
            Some(d) => d.key,
            None => vstd::pervasive::unreached(),
        }
    }

    /// The leveled search: starting at the head on the top level, advance
    /// while the next node's key is below `key`, then descend; record the
    /// final predecessor of every level.
    fn locate(&self, key: u64) -> (r: (Vec<usize>, Ghost<Seq<int>>))
        requires
            self.wf(),
        ensures
            located(self.nodes@, self.ord@, key, r.0@, r.1@),
    {
        let mut preds: Vec<usize> = Vec::new();
        let mut i: usize = 0;
        while i < MAX_LEVEL
            invariant
                i <= MAX_LEVEL,
                preds@.len() == i,
            decreases MAX_LEVEL - i,
        {
            preds.push(0);
            i += 1;
        }
        let ghost mut ppos: Seq<int> = Seq::new(MAX_LEVEL as nat, |l: int| 0int);

        let mut cur: usize = 0;
        let ghost mut cpos: int = 0;
        let mut lvl: usize = MAX_LEVEL;
        while lvl > 0
            invariant
                self.wf(),
                lvl <= MAX_LEVEL,
                preds@.len() == MAX_LEVEL,
                ppos.len() == MAX_LEVEL,
                0 <= cpos < pos_count(self.ord@),
                slot_of(self.ord@, cpos) == cur as int,
                tower_of(self.nodes@, self.ord@, cpos) >= lvl as int,
                cpos == 0 || key_at(self.nodes@, self.ord@, cpos) < key,
                forall|l: int|
                    lvl <= l < MAX_LEVEL as int ==> #[trigger] located_at(
                        self.nodes@,
                        self.ord@,
                        key,
                        preds@,
                        ppos,
                        l,
                    ),
            decreases lvl,
        {
            let level = lvl - 1;
            loop
                invariant
                    self.wf(),
                    level < MAX_LEVEL,
                    0 <= cpos < pos_count(self.ord@),
                    slot_of(self.ord@, cpos) == cur as int,
                    on_level(self.nodes@, self.ord@, cpos, level as int),
                    cpos == 0 || key_at(self.nodes@, self.ord@, cpos) < key,
                ensures
                    0 <= cpos < pos_count(self.ord@),
                    slot_of(self.ord@, cpos) == cur as int,
                    on_level(self.nodes@, self.ord@, cpos, level as int),
                    cpos == 0 || key_at(self.nodes@, self.ord@, cpos) < key,
                    forall|q: int|
                        cpos < q < pos_count(self.ord@) && #[trigger] on_level(
                            self.nodes@,
                            self.ord@,
                            q,
                            level as int,
                        ) ==> key_at(self.nodes@, self.ord@, q) >= key,
                decreases pos_count(self.ord@) - cpos,
            {
                proof {
                    if cpos >= 1 {
                        assert(1 <= slot_of(self.ord@, cpos) < self.nodes@.len());
                    }
                    assert(link_ok(self.nodes@, self.ord@, cpos, level as int));
                }
                let nxt_opt = self.nodes[cur].forward[level];
                match nxt_opt {
                    None => {
                        break ;
                    },
                    Some(nxt) => {
                        let ghost q = choose|q: int|
                            is_next_on_level(self.nodes@, self.ord@, cpos, q, level as int)
                                && slot_of(self.ord@, q) == nxt as int;
                        proof {
                            assert(is_next_on_level(self.nodes@, self.ord@, cpos, q, level as int)
                                && slot_of(self.ord@, q) == nxt as int);
                            assert(1 <= q < pos_count(self.ord@));
                            assert((node_at(self.nodes@, self.ord@, q)).data is Some);
                            assert(1 <= slot_of(self.ord@, q) < self.nodes@.len());
                        }
                        let nk = self.key_of_slot(nxt);
                        proof {
                            assert(nk == key_at(self.nodes@, self.ord@, q));
                        }
                        if nk < key {
                            cur = nxt;
                            proof {
                                cpos = q;
                            }
                        } else {
                            proof {
                                assert forall|q2: int|
                                    cpos < q2 < pos_count(self.ord@) && #[trigger] on_level(
                                        self.nodes@,
                                        self.ord@,
                                        q2,
                                        level as int,
                                    ) implies key_at(self.nodes@, self.ord@, q2) >= key by {
                                    if q2 < q {
                                        assert(!on_level(self.nodes@, self.ord@, q2, level as int));
                                    } else if q2 > q {
                                        assert(key_at(self.nodes@, self.ord@, q) < key_at(
                                            self.nodes@,
                                            self.ord@,
                                            q2,
                                        ));
                                    }
                                }
                            }
                            break ;
                        }
                    },
                }
            }
            let ghost old_preds = preds@;
            let ghost old_ppos = ppos;
            preds[level] = cur;
            proof {
                ppos = ppos.update(level as int, cpos);
                assert forall|l: int|
                    level as int <= l < MAX_LEVEL as int implies #[trigger] located_at(
                    self.nodes@,
                    self.ord@,
                    key,
                    preds@,
                    ppos,
                    l,
                ) by {
                    if l > level as int {
                        assert(located_at(self.nodes@, self.ord@, key, old_preds, old_ppos, l));
                        assert(preds@[l] == old_preds[l]);
                        assert(ppos[l] == old_ppos[l]);
                    } else {
                        assert(ppos[l] == cpos);
                        assert(preds@[l] == cur);
                    }
                }
            }
            lvl = level;
        }
        (preds, Ghost(ppos))
    }

    /// If a level-0 predecessor for `key` sees no successor carrying `key`,
    /// then no entry carries `key`.
    #[verifier::rlimit(30)]
    proof fn lemma_absent(&self, key: u64, p: int)
        requires
            self.wf(),
            0 <= p < pos_count(self.ord@),
            p == 0 || key_at(self.nodes@, self.ord@, p) < key,
            forall|q: int|
                p < q < pos_count(self.ord@) && #[trigger] on_level(self.nodes@, self.ord@, q, 0)
                    ==> key_at(self.nodes@, self.ord@, q) >= key,
            p + 1 == pos_count(self.ord@) || key_at(self.nodes@, self.ord@, p + 1) != key,
        ensures
            !crate::model::has_key(self.entries(), key),
            !self@.contains_key(key),
    {
        assert forall|i: int| 0 <= i < self.entries().len() implies self.entries()[i].0 != key by {
            let q = i + 1;
            assert(on_level(self.nodes@, self.ord@, q, 0));
            if q < p {
                assert(key_at(self.nodes@, self.ord@, q) < key_at(self.nodes@, self.ord@, p));
            } else if q > p + 1 {
                assert(on_level(self.nodes@, self.ord@, p + 1, 0));
                assert(key_at(self.nodes@, self.ord@, p + 1) > key) by {
                    assert(key_at(self.nodes@, self.ord@, p + 1) >= key);
                }
                assert(key_at(self.nodes@, self.ord@, q) > key_at(self.nodes@, self.ord@, p + 1));
            }
        }
        crate::model::lemma_map_of_contains(self.entries());
    }

    /// A position carrying `key` pins down the entry index and the map value.
    proof fn lemma_present(&self, key: u64, q: int)
        requires
            self.wf(),
            1 <= q < pos_count(self.ord@),
            key_at(self.nodes@, self.ord@, q) == key,
        ensures
            crate::model::has_key(self.entries(), key),
            crate::model::index_of_key(self.entries(), key) == q - 1,
            self@.contains_key(key),
            self@[key] == self.entries()[q - 1].1,
    {
        let s = self.entries();
        assert(s[q - 1].0 == key);
        assert(crate::model::has_key(s, key));
        self.lemma_entries_sorted();
        let j = crate::model::index_of_key(s, key);
        assert(0 <= j < s.len() && s[j].0 == key);
        if j != q - 1 {
            assert(false);
        }
        crate::model::lemma_map_of_at(s, q - 1);
    }

    /// Point lookup: a reference to the value stored at `key`.
    pub fn get(&self, key: u64) -> (r: Option<&V>)
        requires
            self.wf(),
        ensures
            match r {
                Some(v) => self@.contains_key(key) && *v == self@[key],
                None => !self@.contains_key(key),
            },
    {
        let (preds, ppos) = self.locate(key);
        let p0 = preds[0];
        let ghost p = ppos@[0];
        proof {
            assert(located_at(self.nodes@, self.ord@, key, preds@, ppos@, 0));
            if p >= 1 {
                assert(1 <= slot_of(self.ord@, p) < self.nodes@.len());
            }
        }
        let nxt_opt = self.nodes[p0].forward[0];
        match nxt_opt {
            None => {
                proof {
                    assert(link_ok(self.nodes@, self.ord@, p, 0));
                    if p + 1 < pos_count(self.ord@) {
                        assert(on_level(self.nodes@, self.ord@, p + 1, 0));
                        assert(false);
                    }
                    self.lemma_absent(key, p);
                }
                None
            },
            Some(m) => {
                proof {
                    assert(link_ok(self.nodes@, self.ord@, p, 0));
                }
                let ghost q = choose|q: int|
                    is_next_on_level(self.nodes@, self.ord@, p, q, 0) && slot_of(self.ord@, q)
                        == m as int;
                proof {
                    assert(is_next_on_level(self.nodes@, self.ord@, p, q, 0) && slot_of(
                        self.ord@,
                        q,
                    ) == m as int);
                    if q > p + 1 {
                        assert(on_level(self.nodes@, self.ord@, p + 1, 0));
                        assert(false);
                    }
                    assert(q == p + 1);
                    assert(1 <= slot_of(self.ord@, q) < self.nodes@.len());
                    assert((node_at(self.nodes@, self.ord@, q)).data is Some);
                }
                let mk = self.key_of_slot(m);
                if mk == key {
                    proof {
                        self.lemma_present(key, q);
                    }
                    match &self.nodes[m].data {
                        Some(d) => Some(&d.value),
                        None => vstd::pervasive::unreached(),
                    }
                } else {
                    proof {
                        self.lemma_absent(key, p);
                    }
                    None
                }
            },
        }
    }

    /// Mutable point lookup: a mutable reference to the value stored at
    /// `key`. Only the value behind the reference can change; the key set
    /// and the ordering stay as they are.
    pub fn get_mut(&mut self, key: u64) -> (r: Option<&mut V>)
        requires
            old(self).wf(),
        ensures
            final(self).wf(),
            r is Some <==> old(self)@.contains_key(key),
            old(self)@.contains_key(key) ==> {
                &&& *r.unwrap() == old(self)@[key]
                &&& final(self).entries().len() == old(self).entries().len()
                &&& forall|i: int|
                    0 <= i < old(self).entries().len() && i != crate::model::index_of_key(
                        old(self).entries(),
                        key,
                    ) ==> #[trigger] final(self).entries()[i] == old(self).entries()[i]
                &&& final(self).entries()[crate::model::index_of_key(old(self).entries(), key)]
                    == (key, *final(r.unwrap()))
            },
            !old(self)@.contains_key(key) ==> *final(self) == *old(self),
    {
        let ghost nodes0 = self.nodes@;
        let ghost ord0 = self.ord@;
        let ghost entries0 = self.entries();
        let (preds, ppos) = self.locate(key);
        let p0 = preds[0];
        let ghost pj = ppos@[0];
        proof {
            assert(located_at(nodes0, ord0, key, preds@, ppos@, 0));
            if pj >= 1 {
                assert(1 <= slot_of(ord0, pj) < nodes0.len());
            }
            lemma_slot_distinct(nodes0, ord0);
            self.lemma_entries_sorted();
        }
        let succ_opt = self.nodes[p0].forward[0];
        let ghost mut qs: int = 0;
        proof {
            assert(link_ok(nodes0, ord0, pj, 0));
            match succ_opt {
                None => {
                    if pj + 1 < pos_count(ord0) {
                        assert(on_level(nodes0, ord0, pj + 1, 0));
                        assert(false);
                    }
                },
                Some(m) => {
                    qs = choose|q: int|
                        is_next_on_level(nodes0, ord0, pj, q, 0) && slot_of(ord0, q) == m as int;
                    assert(is_next_on_level(nodes0, ord0, pj, qs, 0) && slot_of(ord0, qs)
                        == m as int);
                    if qs > pj + 1 {
                        assert(on_level(nodes0, ord0, pj + 1, 0));
                        assert(false);
                    }
                    assert(qs == pj + 1);
                    assert(1 <= slot_of(ord0, qs) < nodes0.len());
                    assert((node_at(nodes0, ord0, qs)).data is Some);
                },
            }
        }
        let is_hit: bool = match succ_opt {
            Some(m) => self.key_of_slot(m) == key,
            None => false,
        };
        if !is_hit {
            proof {
                if succ_opt is Some {
                    assert(key_at(nodes0, ord0, qs) != key);
                }
                self.lemma_absent(key, pj);
            }
            return None;
        }
        let m = succ_opt.unwrap();
        proof {
            assert(key_at(nodes0, ord0, qs) == key);
            self.lemma_present(key, qs);
        }
        let node = &mut self.nodes[m];
        match &mut node.data {
            Some(d) => {
                let vref = &mut d.value;
                proof {
                    lemma_value_update(
                        nodes0,
                        nodes0.update(
                            m as int,
                            Node {
                                data: Some(Data { key, value: *final(vref) }),
                                forward: nodes0[m as int].forward,
                            },
                        ),
                        ord0,
                        qs,
                        m,
                        key,
                        *final(vref),
                    );
                }
                Some(vref)
            },
            None => vstd::pervasive::unreached(),
        }
    }

    /// Insert `key` with `value`. If the key is already present, replace its
    /// value in place and give back the old one; otherwise splice in a fresh
    /// node of randomly sampled height and give back nothing.
    #[verifier::loop_isolation(false)]
    #[verifier::rlimit(100)]
    pub fn insert(&mut self, key: u64, value: V) -> (prev: Option<V>)
        requires
            old(self).wf(),
        ensures
            final(self).wf(),
            final(self)@ == old(self)@.insert(key, value),
            match prev {
                Some(v) => {
                    &&& old(self)@.contains_key(key)
                    &&& v == old(self)@[key]
                    &&& final(self).entries() == old(self).entries().update(
                        crate::model::index_of_key(old(self).entries(), key),
                        (key, value),
                    )
                },
                None => {
                    &&& !old(self)@.contains_key(key)
                    &&& final(self).entries() == old(self).entries().insert(
                        crate::model::insert_position(old(self).entries(), key),
                        (key, value),
                    )
                },
            },
    {
        let ghost nodes0 = self.nodes@;
        let ghost ord0 = self.ord@;
        let ghost entries0 = self.entries();
        let (preds, ppos) = self.locate(key);
        let p0 = preds[0];
        let ghost pj = ppos@[0];
        proof {
            assert(located_at(nodes0, ord0, key, preds@, ppos@, 0));
            if pj >= 1 {
                assert(1 <= slot_of(ord0, pj) < nodes0.len());
            }
            lemma_slot_distinct(nodes0, ord0);
            self.lemma_entries_sorted();
        }
        let succ_opt = self.nodes[p0].forward[0];
        let ghost mut qs: int = 0;
        proof {
            assert(link_ok(nodes0, ord0, pj, 0));
            match succ_opt {
                None => {
                    if pj + 1 < pos_count(ord0) {
                        assert(on_level(nodes0, ord0, pj + 1, 0));
                        assert(false);
                    }
                },
                Some(m) => {
                    qs = choose|q: int|
                        is_next_on_level(nodes0, ord0, pj, q, 0) && slot_of(ord0, q) == m as int;
                    assert(is_next_on_level(nodes0, ord0, pj, qs, 0) && slot_of(ord0, qs)
                        == m as int);
                    if qs > pj + 1 {
                        assert(on_level(nodes0, ord0, pj + 1, 0));
                        assert(false);
                    }
                    assert(qs == pj + 1);
                    assert(1 <= slot_of(ord0, qs) < nodes0.len());
                    assert((node_at(nodes0, ord0, qs)).data is Some);
                },
            }
        }
        let is_replace: bool = match succ_opt {
            Some(m) => self.key_of_slot(m) == key,
            None => false,
        };
        if is_replace {
            let m = succ_opt.unwrap();
            proof {
                assert(key_at(nodes0, ord0, qs) == key);
                self.lemma_present(key, qs);
            }
            let ghost idx = qs - 1;
            let node = &mut self.nodes[m];
            let taken = node.data.take();
            match taken {
                Some(d) => {
                    node.data = Some(Data { key, value });
                    proof {
                        let nodes1 = self.nodes@;
                        assert(nodes1 =~= nodes0.update(
                            m as int,
                            Node {
                                data: Some(Data { key, value }),
                                forward: nodes0[m as int].forward,
                            },
                        ));
                        assert forall|p: int| 0 <= p < pos_count(ord0) implies #[trigger] tower_of(
                            nodes1,
                            ord0,
                            p,
                        ) == tower_of(nodes0, ord0, p) by {
                            if p >= 1 {
                                assert(1 <= slot_of(ord0, p) < nodes0.len());
                            }
                            assert(node_at(nodes1, ord0, p).forward == node_at(
                                nodes0,
                                ord0,
                                p,
                            ).forward);
                        }
                        assert forall|p: int, l: int|
                            0 <= p < pos_count(ord0) && 0 <= l < tower_of(nodes0, ord0, p) implies
                            #[trigger] fwd_at(nodes1, ord0, p, l) == fwd_at(nodes0, ord0, p, l) by {
                            if p >= 1 {
                                assert(1 <= slot_of(ord0, p) < nodes0.len());
                            }
                            assert(node_at(nodes1, ord0, p).forward == node_at(
                                nodes0,
                                ord0,
                                p,
                            ).forward);
                        }
                        lemma_links_same_shape(nodes0, nodes1, ord0);
                        assert forall|p: int| 1 <= p < pos_count(ord0) implies (#[trigger] node_at(
                            nodes1,
                            ord0,
                            p,
                        )).data is Some by {
                            assert(1 <= slot_of(ord0, p) < nodes0.len());
                            if p != qs {
                                assert(slot_of(ord0, p) != slot_of(ord0, qs));
                                assert(node_at(nodes1, ord0, p) == node_at(nodes0, ord0, p));
                            } else {
                                assert(slot_of(ord0, qs) == m as int);
                                assert(nodes1[m as int].data == Some(Data { key, value }));
                            }
                        }
                        assert forall|p: int| 1 <= p < pos_count(ord0) implies #[trigger] key_at(
                            nodes1,
                            ord0,
                            p,
                        ) == key_at(nodes0, ord0, p) by {
                            assert(1 <= slot_of(ord0, p) < nodes0.len());
                            if p != qs {
                                assert(slot_of(ord0, p) != slot_of(ord0, qs));
                                assert(node_at(nodes1, ord0, p) == node_at(nodes0, ord0, p));
                            } else {
                                assert(slot_of(ord0, qs) == m as int);
                                assert(nodes1[m as int].data == Some(Data { key, value }));
                                assert(key_at(nodes0, ord0, qs) == key);
                            }
                        }
                        assert(nodes1.len() == nodes0.len());
                        assert(1 <= m as int && (m as int) < nodes0.len());
                        assert(nodes1[0] == nodes0[0]);
                        assert forall|p: int| 1 <= p < pos_count(ord0) implies 1 <= #[trigger] slot_of(
                            ord0,
                            p,
                        ) < nodes1.len() && 1 <= #[trigger] tower_of(nodes1, ord0, p)
                            <= MAX_LEVEL as int by {
                            assert(tower_of(nodes1, ord0, p) == tower_of(nodes0, ord0, p));
                        }
                        assert(slots_ok(nodes1, ord0));
                        assert(keys_ascending(nodes1, ord0));
                        assert forall|i: int| 0 <= i < self.free@.len() implies nodes1[#[trigger] self.free@[i] as int].data is None by {
                            assert(nodes0[self.free@[i] as int].data is None);
                            assert(self.free@[i] as int != m as int);
                        }
                        assert(self.wf());
                        assert(self.entries() =~= entries0.update(idx, (key, value)));
                        crate::model::lemma_map_of_update(entries0, idx, value);
                        assert(entries0[idx].0 == key);
                        assert(d.value == entries0[idx].1);
                    }
                    Some(d.value)
                },
                None => vstd::pervasive::unreached(),
            }
        } else {
            proof {
                if succ_opt is Some {
                    assert(key_at(nodes0, ord0, qs) != key);
                }
                self.lemma_absent(key, pj);
                assert forall|q: int| 1 <= q < pos_count(ord0) implies #[trigger] key_at(
                    nodes0,
                    ord0,
                    q,
                ) != key by {
                    assert(entries0[q - 1].0 == key_at(nodes0, ord0, q));
                }
            }
            let h = self.gen.random_level();
            let node = Node::with_key_value(key, value, h);
            let s: usize = match self.free.pop() {
                Some(i) => {
                    self.nodes[i] = node;
                    i
                },
                None => {
                    let i = self.nodes.len();
                    self.nodes.push(node);
                    i
                },
            };
            let ghost alloc = self.nodes@;
            let ghost free1 = self.free@;
            let ghost len0 = self.len;
            proof {
                // the fresh slot is no live position's slot
                assert forall|p: int| 1 <= p < pos_count(ord0) implies #[trigger] slot_of(ord0, p)
                    != s as int by {
                    assert((node_at(nodes0, ord0, p)).data is Some);
                    if slot_of(ord0, p) == s as int {
                        assert(nodes0[s as int].data is Some);
                    }
                }
                // allocation left every live position's node unchanged
                assert forall|p: int| 0 <= p < pos_count(ord0) implies #[trigger] node_at(
                    alloc,
                    ord0,
                    p,
                ) == node_at(nodes0, ord0, p) by {
                    if p >= 1 {
                        assert(1 <= slot_of(ord0, p) < nodes0.len());
                        assert(slot_of(ord0, p) != s as int);
                    }
                }
                assert forall|p: int| 0 <= p < pos_count(ord0) implies #[trigger] tower_of(
                    alloc,
                    ord0,
                    p,
                ) == tower_of(nodes0, ord0, p) by {
                    assert(node_at(alloc, ord0, p) == node_at(nodes0, ord0, p));
                }
                assert forall|p: int, l: int|
                    0 <= p < pos_count(ord0) && 0 <= l < tower_of(nodes0, ord0, p) implies
                    #[trigger] fwd_at(alloc, ord0, p, l) == fwd_at(nodes0, ord0, p, l) by {
                    assert(node_at(alloc, ord0, p) == node_at(nodes0, ord0, p));
                }
                lemma_links_same_shape(nodes0, alloc, ord0);
                assert forall|p: int| 1 <= p < pos_count(ord0) implies #[trigger] key_at(
                    alloc,
                    ord0,
                    p,
                ) == key_at(nodes0, ord0, p) by {
                    assert(node_at(alloc, ord0, p) == node_at(nodes0, ord0, p));
                }
                assert(slots_ok(alloc, ord0));
                assert(keys_ascending(alloc, ord0));
                assert forall|q: int| 1 <= q < pos_count(ord0) implies #[trigger] key_at(
                    alloc,
                    ord0,
                    q,
                ) != key by {
                    assert(key_at(alloc, ord0, q) == key_at(nodes0, ord0, q));
                }
                assert forall|l: int|
                    0 <= l < MAX_LEVEL as int implies #[trigger] located_at(
                    alloc,
                    ord0,
                    key,
                    preds@,
                    ppos@,
                    l,
                ) by {
                    assert(located_at(nodes0, ord0, key, preds@, ppos@, l));
                    assert forall|q: int|
                        ppos@[l] < q < pos_count(ord0) && #[trigger] on_level(alloc, ord0, q, l)
                        implies key_at(alloc, ord0, q) >= key by {
                        assert(node_at(alloc, ord0, q) == node_at(nodes0, ord0, q));
                        assert(on_level(nodes0, ord0, q, l));
                    }
                }
                assert(located(alloc, ord0, key, preds@, ppos@));
            }
            let ghost ord1 = ord0.insert(pj, s as int);
            proof {
                self.ord@ = ord1;
            }
            let mut lv: usize = 0;
            while lv < h
                invariant
                    lv <= h,
                    self.nodes@.len() == alloc.len(),
                    self.ord@ == ord1,
                    self.free@ == free1,
                    self.len == len0,
                    forall|t: int|
                        0 <= t < alloc.len() ==> (#[trigger] self.nodes@[t]).data == alloc[t].data
                            && self.nodes@[t].forward@.len() == alloc[t].forward@.len(),
                    forall|t: int, l2: int|
                        0 <= t < alloc.len() && 0 <= l2 < alloc[t].forward@.len()
                            ==> #[trigger] self.nodes@[t].forward@[l2] == (if t == s as int && l2
                            < lv as int {
                            fwd_at(alloc, ord0, ppos@[l2], l2)
                        } else if l2 < lv as int && t == preds@[l2] as int {
                            Some(s)
                        } else {
                            alloc[t].forward@[l2]
                        }),
                decreases h - lv,
            {
                let ghost before = self.nodes@;
                let pd = preds[lv];
                proof {
                    assert(located_at(alloc, ord0, key, preds@, ppos@, lv as int));
                    let pl = ppos@[lv as int];
                    assert(slot_of(ord0, pl) == pd as int);
                    if pl >= 1 {
                        assert(1 <= slot_of(ord0, pl) < alloc.len());
                    }
                    assert(on_level(alloc, ord0, pl, lv as int));
                    assert(pd as int != s as int || pl == 0);
                    assert(pd != s);
                    assert(self.nodes@[pd as int].forward@[lv as int] == alloc[pd as int].forward@[lv as int]);
                    assert(alloc[pd as int].forward@[lv as int] == fwd_at(
                        alloc,
                        ord0,
                        pl,
                        lv as int,
                    ));
                }
                let f = self.nodes[pd].forward[lv];
                self.nodes[s].forward[lv] = f;
                self.nodes[pd].forward[lv] = Some(s);
                lv += 1;
                proof {
                    assert forall|t: int, l2: int|
                        0 <= t < alloc.len() && 0 <= l2 < alloc[t].forward@.len()
                            implies #[trigger] self.nodes@[t].forward@[l2] == (if t == s as int
                            && l2 < lv as int {
                            fwd_at(alloc, ord0, ppos@[l2], l2)
                        } else if l2 < lv as int && t == preds@[l2] as int {
                            Some(s)
                        } else {
                            alloc[t].forward@[l2]
                        }) by {
                        if t == s as int && l2 == lv as int - 1 {
                            assert(self.nodes@[t].forward@[l2] == f);
                        } else if t == pd as int && l2 == lv as int - 1 {
                            assert(self.nodes@[t].forward@[l2] == Some(s));
                        } else {
                            assert(self.nodes@[t].forward@[l2] == before[t].forward@[l2]);
                        }
                    }
                }
            }
            proof {
                lemma_insert_links(alloc, self.nodes@, ord0, key, preds@, ppos@, pj, s, h as int);
                assert(state_ok(self.nodes@, ord1));
                lemma_ord_len_bound(self.nodes@, ord1);
                ord0.insert_ensures(pj, s as int);
                assert(ord1.len() == ord0.len() + 1);
                assert(self.len == ord0.len());
                assert(ord1.len() < self.nodes@.len());
                assert(self.nodes@.len() == vstd::std_specs::vec::spec_vec_len(&self.nodes));
                assert(self.nodes@.len() <= usize::MAX);
                assert(self.len < self.nodes@.len());
            }
            self.len = self.len + 1;
            proof {
                // the free list still names payload-free slots
                assert forall|i: int| 0 <= i < free1.len() implies 1 <= #[trigger] free1[i]
                    < self.nodes@.len() && self.nodes@[free1[i] as int].data is None by {
                    assert(free1[i] != s);
                    assert(self.nodes@[free1[i] as int].data == alloc[free1[i] as int].data);
                    assert(alloc[free1[i] as int].data == nodes0[free1[i] as int].data);
                }
                assert(self.wf());
                // the new entry sequence is the old one with the pair
                // spliced in at the predecessor's index
                let np = pj + 1;
                assert forall|p: int| 0 <= p < pos_count(ord1) && p != np implies #[trigger] node_at(
                    self.nodes@,
                    ord1,
                    p,
                ).data == node_at(nodes0, ord0, if p < np { p } else { p - 1 }).data by {
                    let po = if p < np { p } else { p - 1 };
                    assert(slot_of(ord1, p) == slot_of(ord0, po));
                    if po >= 1 {
                        assert(1 <= slot_of(ord0, po) < nodes0.len());
                        assert(slot_of(ord0, po) != s as int);
                    }
                }
                assert(node_at(self.nodes@, ord1, np) == self.nodes@[s as int]);
                assert(self.nodes@[s as int].data == Some(Data { key, value }));
                assert(self.entries() =~= entries0.insert(pj, (key, value)));
                entries0.insert_ensures(pj, (key, value));
                crate::model::lemma_map_of_insert(entries0, pj, key, value);
                assert forall|i: int| 0 <= i < pj implies #[trigger] entries0[i].0 < key by {
                    assert(entries0[i].0 == key_at(nodes0, ord0, i + 1));
                    if i + 1 < pj {
                        assert(key_at(nodes0, ord0, i + 1) < key_at(nodes0, ord0, pj));
                        assert(key_at(nodes0, ord0, pj) < key);
                    } else {
                        assert(key_at(nodes0, ord0, pj) < key);
                    }
                }
                assert forall|i: int| pj <= i < entries0.len() implies #[trigger] entries0[i].0
                    >= key by {
                    assert(on_level(nodes0, ord0, i + 1, 0));
                    assert(located_at(nodes0, ord0, key, preds@, ppos@, 0));
                }
                crate::model::lemma_insert_position_unique(entries0, key, pj);
            }
            None
        }
    }

    /// Remove `key`. If it is present, unlink its node at every level it
    /// reaches, recycle the slot and give back the stored value; otherwise
    /// leave the list untouched and give back nothing.
    #[verifier::loop_isolation(false)]
    #[verifier::rlimit(100)]
    pub fn remove(&mut self, key: u64) -> (removed: Option<V>)
        requires
            old(self).wf(),
        ensures
            final(self).wf(),
            final(self)@ == old(self)@.remove(key),
            match removed {
                Some(v) => {
                    &&& old(self)@.contains_key(key)
                    &&& v == old(self)@[key]
                    &&& final(self).entries() == old(self).entries().remove(
                        crate::model::index_of_key(old(self).entries(), key),
                    )
                },
                None => {
                    &&& !old(self)@.contains_key(key)
                    &&& *final(self) == *old(self)
                },
            },
    {
        let ghost nodes0 = self.nodes@;
        let ghost ord0 = self.ord@;
        let ghost entries0 = self.entries();
        let ghost free0 = self.free@;
        let ghost len0 = self.len;
        let (preds, ppos) = self.locate(key);
        let p0 = preds[0];
        let ghost pj = ppos@[0];
        proof {
            assert(located_at(nodes0, ord0, key, preds@, ppos@, 0));
            if pj >= 1 {
                assert(1 <= slot_of(ord0, pj) < nodes0.len());
            }
            lemma_slot_distinct(nodes0, ord0);
            self.lemma_entries_sorted();
        }
        let succ_opt = self.nodes[p0].forward[0];
        let ghost mut dq: int = 0;
        proof {
            assert(link_ok(nodes0, ord0, pj, 0));
            match succ_opt {
                None => {
                    if pj + 1 < pos_count(ord0) {
                        assert(on_level(nodes0, ord0, pj + 1, 0));
                        assert(false);
                    }
                },
                Some(m) => {
                    dq = choose|q: int|
                        is_next_on_level(nodes0, ord0, pj, q, 0) && slot_of(ord0, q) == m as int;
                    assert(is_next_on_level(nodes0, ord0, pj, dq, 0) && slot_of(ord0, dq)
                        == m as int);
                    if dq > pj + 1 {
                        assert(on_level(nodes0, ord0, pj + 1, 0));
                        assert(false);
                    }
                    assert(dq == pj + 1);
                    assert(1 <= slot_of(ord0, dq) < nodes0.len());
                    assert((node_at(nodes0, ord0, dq)).data is Some);
                },
            }
        }
        let is_hit: bool = match succ_opt {
            Some(m) => self.key_of_slot(m) == key,
            None => false,
        };
        if !is_hit {
            proof {
                if succ_opt is Some {
                    assert(key_at(nodes0, ord0, dq) != key);
                }
                self.lemma_absent(key, pj);
                assert(self@.remove(key) =~= self@);
            }
            return None;
        }
        let del = succ_opt.unwrap();
        proof {
            assert(key_at(nodes0, ord0, dq) == key);
            self.lemma_present(key, dq);
            assert(on_level(nodes0, ord0, dq, 0));
        }
        let hd = self.nodes[del].forward.len();
        proof {
            assert(hd as int == tower_of(nodes0, ord0, dq));
            assert(1 <= hd as int <= MAX_LEVEL as int);
        }
        let mut lv: usize = 0;
        while lv < hd
            invariant
                lv <= hd,
                self.nodes@.len() == nodes0.len(),
                self.ord@ == ord0,
                self.free@ == free0,
                self.len == len0,
                forall|t: int|
                    0 <= t < nodes0.len() ==> (#[trigger] self.nodes@[t]).data == nodes0[t].data
                        && self.nodes@[t].forward@.len() == nodes0[t].forward@.len(),
                forall|t: int, l2: int|
                    0 <= t < nodes0.len() && 0 <= l2 < nodes0[t].forward@.len()
                        ==> #[trigger] self.nodes@[t].forward@[l2] == (if l2 < lv as int && t
                        == preds@[l2] as int {
                        fwd_at(nodes0, ord0, dq, l2)
                    } else {
                        nodes0[t].forward@[l2]
                    }),
            decreases hd - lv,
        {
            let ghost before = self.nodes@;
            let pd = preds[lv];
            proof {
                assert(located_at(nodes0, ord0, key, preds@, ppos@, lv as int));
                let pl = ppos@[lv as int];
                assert(slot_of(ord0, pl) == pd as int);
                if pl >= 1 {
                    assert(1 <= slot_of(ord0, pl) < nodes0.len());
                }
                assert(on_level(nodes0, ord0, pl, lv as int));
                // the doomed node is not its own predecessor
                assert(pl < dq);
                assert(slot_of(ord0, pl) != slot_of(ord0, dq));
                assert(pd != del);
                assert(self.nodes@[del as int].forward@[lv as int] == nodes0[del as int].forward@[lv as int]);
            }
            let f = self.nodes[del].forward[lv];
            self.nodes[pd].forward[lv] = f;
            lv += 1;
            proof {
                assert(f == fwd_at(nodes0, ord0, dq, lv as int - 1));
                assert forall|t: int, l2: int|
                    0 <= t < nodes0.len() && 0 <= l2 < nodes0[t].forward@.len()
                        implies #[trigger] self.nodes@[t].forward@[l2] == (if l2 < lv as int && t
                        == preds@[l2] as int {
                        fwd_at(nodes0, ord0, dq, l2)
                    } else {
                        nodes0[t].forward@[l2]
                    }) by {
                    if t == pd as int && l2 == lv as int - 1 {
                        assert(self.nodes@[t].forward@[l2] == f);
                    } else {
                        assert(self.nodes@[t].forward@[l2] == before[t].forward@[l2]);
                    }
                }
            }
        }
        let node = &mut self.nodes[del];
        let taken = node.data.take();
        match taken {
            Some(d) => {
                self.free.push(del);
                self.len = self.len - 1;
                let ghost ord1 = ord0.remove(pj);
                proof {
                    self.ord@ = ord1;
                    assert(taken == nodes0[del as int].data);
                    lemma_remove_links(
                        nodes0,
                        self.nodes@,
                        ord0,
                        key,
                        preds@,
                        ppos@,
                        pj,
                        del,
                        hd as int,
                    );
                    assert(state_ok(self.nodes@, ord1));
                    ord0.remove_ensures(pj);
                    // the freed slot joins the free list empty and unrepeated
                    assert forall|i: int| 0 <= i < free0.len() implies #[trigger] free0[i]
                        != del by {
                        assert(nodes0[free0[i] as int].data is None);
                        assert(nodes0[del as int].data is Some);
                    }
                    assert forall|i: int| 0 <= i < self.free@.len() implies 1 <= #[trigger] self.free@[i]
                        < self.nodes@.len() && self.nodes@[self.free@[i] as int].data is None by {
                        if i < free0.len() {
                            assert(self.free@[i] == free0[i]);
                            assert(self.nodes@[free0[i] as int].data == nodes0[free0[i] as int].data);
                        } else {
                            assert(self.free@[i] == del);
                        }
                    }
                    assert(free_ok(self.nodes@, self.free@));
                    assert(self.wf());
                    // the entry sequence lost exactly the doomed entry
                    assert forall|p: int| 0 <= p < pos_count(ord1) implies #[trigger] node_at(
                        self.nodes@,
                        ord1,
                        p,
                    ).data == node_at(nodes0, ord0, if p < dq { p } else { p + 1 }).data by {
                        let po = if p < dq { p } else { p + 1 };
                        assert(slot_of(ord1, p) == slot_of(ord0, po));
                        if po >= 1 {
                            assert(1 <= slot_of(ord0, po) < nodes0.len());
                            assert(slot_of(ord0, po) != slot_of(ord0, dq));
                        }
                    }
                    assert(self.entries() =~= entries0.remove(pj));
                    entries0.remove_ensures(pj);
                    crate::model::lemma_map_of_remove(entries0, pj);
                    assert(entries0[pj].0 == key);
                    assert(d.value == entries0[pj].1);
                    assert(crate::model::index_of_key(entries0, key) == pj);
                }
                Some(d.value)
            },
            None => vstd::pervasive::unreached(),
        }
    }

    /// Detach the front (least-keyed) entry and give it back, or nothing
    /// when the list is empty.
    pub fn remove_front(&mut self) -> (front: Option<(u64, V)>)
        requires
            old(self).wf(),
        ensures
            final(self).wf(),
            match front {
                Some(kv) => {
                    &&& old(self).entries().len() > 0
                    &&& kv == old(self).entries()[0]
                    &&& final(self).entries() == old(self).entries().drop_first()
                    &&& final(self)@ == old(self)@.remove(kv.0)
                },
                None => {
                    &&& old(self).entries().len() == 0
                    &&& *final(self) == *old(self)
                },
            },
    {
        let ghost nodes0 = self.nodes@;
        let ghost ord0 = self.ord@;
        let ghost entries0 = self.entries();
        let first_opt = self.nodes[0].forward[0];
        proof {
            assert(link_ok(nodes0, ord0, 0, 0));
        }
        match first_opt {
            None => {
                proof {
                    if pos_count(ord0) > 1 {
                        assert(on_level(nodes0, ord0, 1, 0));
                        assert(false);
                    }
                }
                None
            },
            Some(m) => {
                let ghost q = choose|q: int|
                    is_next_on_level(nodes0, ord0, 0, q, 0) && slot_of(ord0, q) == m as int;
                proof {
                    assert(is_next_on_level(nodes0, ord0, 0, q, 0) && slot_of(ord0, q) == m as int);
                    if q > 1 {
                        assert(on_level(nodes0, ord0, 1, 0));
                        assert(false);
                    }
                    assert(q == 1);
                    assert(1 <= slot_of(ord0, q) < nodes0.len());
                    assert((node_at(nodes0, ord0, q)).data is Some);
                }
                let k = self.key_of_slot(m);
                proof {
                    assert(k == key_at(nodes0, ord0, 1));
                    self.lemma_present(k, 1);
                    assert(entries0[0].0 == k);
                }
                let removed = self.remove(k);
                match removed {
                    Some(v) => {
                        proof {
                            assert(self.entries() =~= entries0.drop_first());
                            assert(v == entries0[0].1);
                        }
                        Some((k, v))
                    },
                    None => vstd::pervasive::unreached(),
                }
            },
        }
    }

    /// Remove every entry by repeatedly detaching the front one.
    pub fn clear(&mut self)
        requires
            old(self).wf(),
        ensures
            final(self).wf(),
            final(self).entries().len() == 0,
            final(self)@ == Map::<u64, V>::empty(),
    {
        while self.len > 0
            invariant
                self.wf(),
            decreases self.entries().len(),
        {
            self.remove_front();
        }
        proof {
            assert(self@ =~= Map::<u64, V>::empty());
        }
    }
}

impl<V> SkipList<V, DefaultGenerator> {
    /// An empty list with the default sampling policy.
    pub fn new() -> (list: SkipList<V, DefaultGenerator>)
        ensures
            list.wf(),
            list.entries().len() == 0,
            list@ == Map::<u64, V>::empty(),
    {
        SkipList::with_gen(DefaultGenerator)
    }
}

/// A copy of the link tower.
fn clone_links(v: &Vec<Option<usize>>) -> (r: Vec<Option<usize>>)
    ensures
        r@ == v@,
{
    let mut r: Vec<Option<usize>> = Vec::new();
    let mut i: usize = 0;
    while i < v.len()
        invariant
            i <= v@.len(),
            r@ == v@.subrange(0, i as int),
        decreases v@.len() - i,
    {
        r.push(v[i]);
        i += 1;
        proof {
            assert(r@ =~= v@.subrange(0, i as int));
        }
    }
    proof {
        assert(r@ =~= v@);
    }
    r
}

/// A copy of the free list.
fn clone_free(v: &Vec<usize>) -> (r: Vec<usize>)
    ensures
        r@ == v@,
{
    let mut r: Vec<usize> = Vec::new();
    let mut i: usize = 0;
    while i < v.len()
        invariant
            i <= v@.len(),
            r@ == v@.subrange(0, i as int),
        decreases v@.len() - i,
    {
        r.push(v[i]);
        i += 1;
        proof {
            assert(r@ =~= v@.subrange(0, i as int));
        }
    }
    proof {
        assert(r@ =~= v@);
    }
    r
}

/// Whether one node duplicates another: the same tower and key, and a value
/// that `V::clone` could have produced from the original's.
pub(crate) open spec fn node_cloned<V: Clone>(a: Node<V>, b: Node<V>) -> bool {
    &&& b.forward@ == a.forward@
    &&& (b.data is Some <==> a.data is Some)
    &&& (a.data is Some ==> b.data.unwrap().key == a.data.unwrap().key && vstd::pervasive::cloned::<
        V,
    >(a.data.unwrap().value, b.data.unwrap().value))
}

/// A slot-for-slot copy of the arena, cloning each payload value.
fn clone_nodes<V: Clone>(v: &Vec<Node<V>>) -> (r: Vec<Node<V>>)
    ensures
        r@.len() == v@.len(),
        forall|t: int| 0 <= t < v@.len() ==> node_cloned(v@[t], #[trigger] r@[t]),
{
    let mut r: Vec<Node<V>> = Vec::new();
    let mut i: usize = 0;
    while i < v.len()
        invariant
            i <= v@.len(),
            r@.len() == i,
            forall|t: int| 0 <= t < i as int ==> node_cloned(v@[t], #[trigger] r@[t]),
        decreases v@.len() - i,
    {
        let nd = &v[i];
        let data2: Option<Data<u64, V>> = match &nd.data {
            Some(d) => Some(Data { key: d.key, value: d.value.clone() }),
            None => None,
        };
        let links2 = clone_links(&nd.forward);
        r.push(Node { data: data2, forward: links2 });
        i += 1;
    }
    r
}

impl<V: Clone, G: LevelGenerator + Clone> Clone for SkipList<V, G> {
    /// Duplicate the list: the copy presents the same keys in the same
    /// order, each value produced by `V::clone` from the original's, and the
    /// two share no storage.
    fn clone(&self) -> (res: Self)
        ensures
            self.wf() ==> {
                &&& res.wf()
                &&& res.entries().len() == self.entries().len()
                &&& forall|i: int|
                    0 <= i < self.entries().len() ==> (#[trigger] res.entries()[i]).0
                        == self.entries()[i].0 && vstd::pervasive::cloned::<V>(
                        self.entries()[i].1,
                        res.entries()[i].1,
                    )
            },
    {
        let nodes2 = clone_nodes(&self.nodes);
        let free2 = clone_free(&self.free);
        let res = SkipList {
            nodes: nodes2,
            free: free2,
            len: self.len,
            gen: self.gen.clone(),
            ord: Ghost(self.ord@),
        };
        proof {
            if self.wf() {
                let nds = self.nodes@;
                let nds2 = res.nodes@;
                let ord = self.ord@;
                assert forall|p: int| 0 <= p < pos_count(ord) implies #[trigger] tower_of(
                    nds2,
                    ord,
                    p,
                ) == tower_of(nds, ord, p) by {
                    if p >= 1 {
                        assert(1 <= slot_of(ord, p) < nds.len());
                    }
                    assert(node_cloned(nds[slot_of(ord, p)], nds2[slot_of(ord, p)]));
                }
                assert forall|p: int, l: int|
                    0 <= p < pos_count(ord) && 0 <= l < tower_of(nds, ord, p) implies #[trigger] fwd_at(
                    nds2,
                    ord,
                    p,
                    l,
                ) == fwd_at(nds, ord, p, l) by {
                    if p >= 1 {
                        assert(1 <= slot_of(ord, p) < nds.len());
                    }
                    assert(node_cloned(nds[slot_of(ord, p)], nds2[slot_of(ord, p)]));
                }
                lemma_links_same_shape(nds, nds2, ord);
                assert forall|p: int| 1 <= p < pos_count(ord) implies (#[trigger] node_at(
                    nds2,
                    ord,
                    p,
                )).data is Some && key_at(nds2, ord, p) == key_at(nds, ord, p)
                    && vstd::pervasive::cloned::<V>(val_at(nds, ord, p), val_at(nds2, ord, p)) by {
                    assert(1 <= slot_of(ord, p) < nds.len());
                    let a = nds[slot_of(ord, p)];
                    let b = nds2[slot_of(ord, p)];
                    assert(node_cloned(a, b));
                    assert(node_at(nds, ord, p) == a);
                    assert(node_at(nds2, ord, p) == b);
                    assert(a.data is Some);
                    assert(b.data.unwrap().key == a.data.unwrap().key);
                    assert(vstd::pervasive::cloned::<V>(a.data.unwrap().value, b.data.unwrap().value));
                }
                assert(node_cloned(nds[0], nds2[0]));
                assert(slots_ok(nds2, ord));
                assert(keys_ascending(nds2, ord));
                assert forall|i: int| 0 <= i < self.free@.len() implies nds2[#[trigger] self.free@[i] as int].data is None by {
                    assert(node_cloned(nds[self.free@[i] as int], nds2[self.free@[i] as int]));
                }
                assert(res.wf());
            }
        }
        res
    }
}

impl<V, G: LevelGenerator + Default> Default for SkipList<V, G> {
    /// An empty list whose sampling policy is the policy's default.
    fn default() -> (list: SkipList<V, G>)
        ensures
            list.wf(),
            list.entries().len() == 0,
    {
        SkipList::with_gen(G::default())
    }
}

impl<V, G: LevelGenerator> View for SkipList<V, G> {
    type V = Map<u64, V>;

    /// The map the list denotes.
    open spec fn view(&self) -> Map<u64, V> {
        map_of(self.entries())
    }
}

} // verus!
