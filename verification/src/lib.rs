//! A crit-bit tree: a map from fixed-width (8-bit) unsigned integer keys
//! to arbitrary values, as a binary trie that branches only at bit
//! positions where stored keys actually differ, never allocating a node
//! for a shared prefix with no branching.

pub mod bits;
pub mod laws;
mod node;

use crate::node::Node;
use vstd::prelude::*;

verus! {

/// A map from 8-bit unsigned integer keys to values of an arbitrary type,
/// stored as a crit-bit tree: an optional root node that branches only at
/// bit positions where stored keys actually differ.
pub struct CritBit<V> {
    root: Option<Node<V>>,
}

impl<V> View for CritBit<V> {
    type V = Map<u8, V>;

    /// The entries held by the container, as a mathematical map.
    closed spec fn view(&self) -> Map<u8, V> {
        match self.root {
            None => Map::empty(),
            Some(n) => n.as_map(),
        }
    }
}

impl<V> CritBit<V> {
    /// Well-formedness of the tree behind the container: established by
    /// `new` and preserved by every operation.
    pub closed spec fn wf(self) -> bool {
        match self.root {
            None => true,
            Some(n) => n.wf(),
        }
    }

    /// An empty container.
    pub fn new() -> (m: CritBit<V>)
        ensures
            m.wf(),
            m@ == Map::<u8, V>::empty(),
    {
        CritBit { root: None }
    }

    /// Discards the root, releasing the whole tree at once.
    pub fn clear(&mut self)
        ensures
            final(self).wf(),
            final(self)@ == Map::<u8, V>::empty(),
    {
        self.root = None;
    }

    /// Whether nothing is stored: no root, no entries.
    pub fn is_empty(&self) -> (b: bool)
        ensures
            b == (self@ == Map::<u8, V>::empty()),
    {
        let b = self.root.is_none();
        proof {
            if let Some(n) = &self.root {
                n.lemma_nonempty();
                let k = choose|k: u8| n.as_map().dom().contains(k);
                assert(!Map::<u8, V>::empty().dom().contains(k));
            }
        }
        b
    }

    /// The number of stored entries, counted by a full traversal.
    pub fn len(&self) -> (n: usize)
        requires
            self.wf(),
        ensures
            n == self@.dom().len(),
    {
        match &self.root {
            None => {
                proof {
                    assert(self@.dom() =~= Set::empty());
                }
                0
            },
            Some(n) => n.len(),
        }
    }

    /// An immutable reference to the value stored for the key, if any.
    pub fn get(&self, key: &u8) -> (r: Option<&V>)
        requires
            self.wf(),
        ensures
            match r {
                Some(v) => self@.dom().contains(*key) && *v == self@[*key],
                None => !self@.dom().contains(*key),
            },
    {
        match &self.root {
            Some(n) => n.get(key),
            None => None,
        }
    }

    /// An exclusive reference to the value stored for the key, if any: what
    /// the caller writes through it becomes the stored value.
    pub fn get_mut(&mut self, key: &u8) -> (r: Option<&mut V>)
        requires
            old(self).wf(),
        ensures
            final(self).wf(),
            r.is_none() ==> !old(self)@.dom().contains(*key) && final(self)@ == old(self)@,
            r.is_some() ==> old(self)@.dom().contains(*key) && *r.unwrap() == old(self)@[*key]
                && final(self)@ == old(self)@.insert(*key, *final(r.unwrap())),
    {
        match &mut self.root {
            Some(n) => n.get_mut(key),
            None => None,
        }
    }

    /// Whether the key has a stored value.
    pub fn contains_key(&self, key: &u8) -> (b: bool)
        requires
            self.wf(),
        ensures
            b == self@.dom().contains(*key),
    {
        self.get(key).is_some()
    }

    /// Stores the value for the key and returns the value it displaced: the
    /// immediately prior value for the key if the key was present, else
    /// nothing.
    pub fn insert(&mut self, key: u8, value: V) -> (prev: Option<V>)
        requires
            old(self).wf(),
        ensures
            final(self).wf(),
            final(self)@ == old(self)@.insert(key, value),
            prev == (if old(self)@.dom().contains(key) {
                Some(old(self)@[key])
            } else {
                None::<V>
            }),
    {
        match self.root.take() {
            None => {
                self.root = Some(Node::Leaf { key, value });
                proof {
                    assert(final(self)@ =~= old(self)@.insert(key, value));
                }
                None
            },
            Some(n) => {
                let (n2, prev) = n.insert(key, value);
                self.root = Some(n2);
                prev
            },
        }
    }
}

impl<V> Default for CritBit<V> {
    /// The default container is the empty one.
    fn default() -> (m: Self)
        ensures
            m.wf(),
            m@ == Map::<u8, V>::empty(),
    {
        CritBit::new()
    }
}

} // verus!
