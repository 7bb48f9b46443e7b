//! One slot of the node arena. A node carries an optional payload (absent
//! only for the head sentinel and for recycled slots) and its tower of
//! forward links, one per level, each naming the arena slot of the next node
//! at or beyond that level.
use vstd::prelude::*;

use crate::data::Data;

verus! {

pub(crate) struct Node<V> {
    /// The key-value payload; `None` marks the head sentinel and free slots.
    pub data: Option<Data<u64, V>>,
    /// `forward[level]` is the slot of the next node whose tower reaches
    /// `level`, or `None` past the last such node. The tower's height is
    /// fixed at construction.
    pub forward: Vec<Option<usize>>,
}

impl<V> Node<V> {
    /// A node with the given payload and a tower of `level` empty links.
    pub(crate) fn new(data: Option<Data<u64, V>>, level: usize) -> (n: Node<V>)
        ensures
            n.data == data,
            n.forward@ == Seq::new(level as nat, |i: int| None::<usize>),
    {
        let mut forward: Vec<Option<usize>> = Vec::new();
        let mut i: usize = 0;
        while i < level
            invariant
                i <= level,
                forward@ == Seq::new(i as nat, |j: int| None::<usize>),
            decreases level - i,
        {
            forward.push(None);
            i += 1;
            proof {
                assert(forward@ =~= Seq::new(i as nat, |j: int| None::<usize>));
            }
        }
        Node { data, forward }
    }

    /// A live node of the given height holding `key` and `value`.
    pub(crate) fn with_key_value(key: u64, value: V, level: usize) -> (n: Node<V>)
        ensures
            n.data == Some(Data { key, value }),
            n.forward@ == Seq::new(level as nat, |i: int| None::<usize>),
    {
        Node::new(Some(Data { key, value }), level)
    }

    /// The height of the node's tower.
    pub(crate) fn level(&self) -> (l: usize)
        ensures
            l == self.forward@.len(),
    {
        self.forward.len()
    }
}

} // verus!
