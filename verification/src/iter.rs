//! The iteration layer: borrowing traversal along the level-0 chain, and a
//! consuming traversal that drains the list front-first in ascending key
//! order.
use vstd::prelude::*;

use crate::gen_level::LevelGenerator;
use crate::list::{SkipList, key_at, link_ok, is_next_on_level, node_at, on_level, pos_count, slot_of};

verus! {

/// A borrowing traversal of the entries in ascending key order.
pub struct Iter<'a, V, G> where G: LevelGenerator {
    /// The list under traversal.
    pub(crate) list: &'a SkipList<V, G>,
    /// The slot whose entry was yielded last (the head before the first
    /// yield).
    pub(crate) cur: usize,
    /// The extended position of that slot.
    pub(crate) pos: Ghost<int>,
}

impl<'a, V, G: LevelGenerator> Iter<'a, V, G> {
    /// The cursor names a real position of a well-formed list.
    pub closed spec fn wf(&self) -> bool {
        &&& self.list.wf()
        &&& 0 <= self.pos@ < pos_count(self.list.ord@)
        &&& slot_of(self.list.ord@, self.pos@) == self.cur as int
    }

    /// How many entries were yielded so far.
    pub closed spec fn done(&self) -> int {
        self.pos@
    }

    /// The traversed list.
    pub closed spec fn source(&self) -> &'a SkipList<V, G> {
        self.list
    }

    /// Yield the next entry in ascending key order, or nothing once every
    /// entry was yielded.
    pub fn next(&mut self) -> (item: Option<(&'a u64, &'a V)>)
        requires
            old(self).wf(),
        ensures
            final(self).wf(),
            final(self).source() == old(self).source(),
            ({
                let s = old(self).source().entries();
                let i = old(self).done();
                if i < s.len() {
                    &&& item matches Some(kv)
                    &&& *kv.0 == s[i].0
                    &&& *kv.1 == s[i].1
                    &&& final(self).done() == i + 1
                } else {
                    &&& item is None
                    &&& final(self).done() == i
                }
            }),
    {
        let list = self.list;
        let ghost nds = list.nodes@;
        let ghost ord = list.ord@;
        let ghost p = self.pos@;
        proof {
            if p >= 1 {
                assert(1 <= slot_of(ord, p) < nds.len());
            }
            assert(link_ok(nds, ord, p, 0));
            assert(on_level(nds, ord, p, 0));
            assert(nds[self.cur as int].forward@.len() > 0);
        }
        let nxt = list.nodes[self.cur].forward[0];
        match nxt {
            None => {
                proof {
                    if p + 1 < pos_count(ord) {
                        assert(on_level(nds, ord, p + 1, 0));
                        assert(false);
                    }
                }
                None
            },
            Some(m) => {
                let ghost q = choose|q: int|
                    is_next_on_level(nds, ord, p, q, 0) && slot_of(ord, q) == m as int;
                proof {
                    assert(is_next_on_level(nds, ord, p, q, 0) && slot_of(ord, q) == m as int);
                    if q > p + 1 {
                        assert(on_level(nds, ord, p + 1, 0));
                        assert(false);
                    }
                    assert(q == p + 1);
                    assert(1 <= slot_of(ord, q) < nds.len());
                    assert((node_at(nds, ord, q)).data is Some);
                }
                match &list.nodes[m].data {
                    Some(d) => {
                        self.cur = m;
                        proof {
                            self.pos@ = q;
                            assert(list.entries()[q - 1].0 == d.key);
                            assert(list.entries()[q - 1].1 == d.value);
                        }
                        Some((&d.key, &d.value))
                    },
                    None => vstd::pervasive::unreached(),
                }
            },
        }
    }
}

/// A traversal that may rewrite values in place: each step yields the next
/// entry's key and a mutable reference to its value. Keys are never handed
/// out mutably, so the ordering invariant cannot be broken.
pub struct IterMut<'a, V, G> where G: LevelGenerator {
    /// The list under traversal.
    pub(crate) list: &'a mut SkipList<V, G>,
    /// The slot whose entry was yielded last (the head before the first
    /// yield).
    pub(crate) cur: usize,
    /// The extended position of that slot.
    pub(crate) pos: Ghost<int>,
}

impl<'a, V, G: LevelGenerator> IterMut<'a, V, G> {
    /// The traversed list, as the borrow the iterator holds.
    pub closed spec fn source(&self) -> &'a mut SkipList<V, G> {
        self.list
    }

    /// The cursor names a real position of a well-formed list.
    pub closed spec fn wf(&self) -> bool {
        &&& (*self.list).wf()
        &&& 0 <= self.pos@ < pos_count(self.list.ord@)
        &&& slot_of(self.list.ord@, self.pos@) == self.cur as int
    }

    /// How many entries were yielded so far.
    pub closed spec fn done(&self) -> int {
        self.pos@
    }

    /// The traversed list's entries as they stand now.
    pub closed spec fn entries(&self) -> Seq<(u64, V)> {
        (*self.list).entries()
    }

    /// Yield the next entry's key and a mutable reference to its value, or
    /// nothing once every entry was yielded. Writing through the reference
    /// changes that entry's value and nothing else.
    pub fn next(&mut self) -> (item: Option<(&u64, &mut V)>)
        requires
            old(self).wf(),
        ensures
            final(self).wf(),
            ({
                let s = old(self).entries();
                let i = old(self).done();
                if i < s.len() {
                    &&& item is Some
                    &&& *item.unwrap().0 == s[i].0
                    &&& *item.unwrap().1 == s[i].1
                    &&& final(self).done() == i + 1
                    &&& final(self).entries() == s.update(i, (s[i].0, *final(item.unwrap().1)))
                } else {
                    &&& item is None
                    &&& final(self).done() == i
                    &&& final(self).entries() == s
                }
            }),
    {
        let ghost nds = self.list.nodes@;
        let ghost ord = self.list.ord@;
        let ghost p = self.pos@;
        proof {
            if p >= 1 {
                assert(1 <= slot_of(ord, p) < nds.len());
            }
            assert(link_ok(nds, ord, p, 0));
            assert(on_level(nds, ord, p, 0));
            assert(nds[self.cur as int].forward@.len() > 0);
        }
        let nxt = self.list.nodes[self.cur].forward[0];
        match nxt {
            None => {
                proof {
                    if p + 1 < pos_count(ord) {
                        assert(on_level(nds, ord, p + 1, 0));
                        assert(false);
                    }
                }
                None
            },
            Some(m) => {
                let ghost q = choose|q: int|
                    is_next_on_level(nds, ord, p, q, 0) && slot_of(ord, q) == m as int;
                proof {
                    assert(is_next_on_level(nds, ord, p, q, 0) && slot_of(ord, q) == m as int);
                    if q > p + 1 {
                        assert(on_level(nds, ord, p + 1, 0));
                        assert(false);
                    }
                    assert(q == p + 1);
                    assert(1 <= slot_of(ord, q) < nds.len());
                    assert((node_at(nds, ord, q)).data is Some);
                    crate::list::lemma_slot_distinct(nds, ord);
                }
                self.cur = m;
                proof {
                    self.pos@ = q;
                }
                let node = &mut self.list.nodes[m];
                match &mut node.data {
                    Some(d) => {
                        let vref = &mut d.value;
                        proof {
                            crate::list::lemma_value_update(
                                nds,
                                nds.update(
                                    m as int,
                                    crate::node::Node {
                                        data: Some(
                                            crate::data::Data {
                                                key: key_at(nds, ord, q),
                                                value: *final(vref),
                                            },
                                        ),
                                        forward: nds[m as int].forward,
                                    },
                                ),
                                ord,
                                q,
                                m,
                                key_at(nds, ord, q),
                                *final(vref),
                            );
                        }
                        Some((&d.key, vref))
                    },
                    None => vstd::pervasive::unreached(),
                }
            },
        }
    }
}

/// A consuming traversal: it owns the list and drains it front-first.
pub struct IntoIter<V, G> where G: LevelGenerator {
    pub(crate) inner: SkipList<V, G>,
}

impl<V, G: LevelGenerator> IntoIter<V, G> {
    pub closed spec fn wf(&self) -> bool {
        self.inner.wf()
    }

    /// The entries not yet yielded, in ascending key order.
    pub closed spec fn remaining(&self) -> Seq<(u64, V)> {
        self.inner.entries()
    }

    /// Detach and yield the least remaining entry, or nothing once the list
    /// is drained.
    pub fn next(&mut self) -> (item: Option<(u64, V)>)
        requires
            old(self).wf(),
        ensures
            final(self).wf(),
            ({
                let s = old(self).remaining();
                if s.len() > 0 {
                    &&& item == Some(s[0])
                    &&& final(self).remaining() == s.drop_first()
                } else {
                    &&& item is None
                    &&& final(self).remaining() == s
                }
            }),
    {
        self.inner.remove_front()
    }
}

impl<V, G: LevelGenerator> SkipList<V, G> {
    /// A mutable-borrowing iterator: it yields each entry's key with a
    /// mutable reference to its value, in ascending key order.
    pub fn iter_mut(&mut self) -> (it: IterMut<'_, V, G>)
        requires
            old(self).wf(),
        ensures
            it.wf(),
            it.done() == 0,
            it.entries() == old(self).entries(),
            *it.source() == *old(self),
            *final(self) == *final(it.source()),
    {
        IterMut { list: self, cur: 0, pos: Ghost(0) }
    }

    /// A borrowing iterator over the entries in ascending key order.
    pub fn iter(&self) -> (it: Iter<'_, V, G>)
        requires
            self.wf(),
        ensures
            it.wf(),
            it.source() == self,
            it.done() == 0,
    {
        Iter { list: self, cur: 0, pos: Ghost(0) }
    }

    /// A consuming iterator: it takes the list and yields every entry in
    /// ascending key order, leaving nothing behind.
    pub fn into_iter(self) -> (it: IntoIter<V, G>)
        requires
            self.wf(),
        ensures
            it.wf(),
            it.remaining() == self.entries(),
    {
        IntoIter { inner: self }
    }
}

} // verus!
