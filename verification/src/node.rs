//! The tree's nodes and their recursive algorithms. A node is either a
//! leaf holding one entry, or an internal node holding exactly two children
//! and the critical bit position that separates their keys.

use crate::bits::bit_at;
use crate::bits::bit_set;
use crate::bits::lemma_crit_bit;
use vstd::prelude::*;
use vstd::set_lib::lemma_len_subset;

verus! {

broadcast use vstd::map_lib::group_map_union;

pub(crate) enum Node<V> {
    Leaf { key: u8, value: V },
    Internal { left: Box<Node<V>>, right: Box<Node<V>>, crit: u32 },
}

impl<V> Node<V> {
    /// The entries stored in the leaves of this subtree.
    pub(crate) open spec fn as_map(self) -> Map<u8, V>
        decreases self,
    {
        match self {
            Node::Leaf { key, value } => Map::empty().insert(key, value),
            Node::Internal { left, right, crit } => left.as_map().union_prefer_right(
                right.as_map(),
            ),
        }
    }

    /// Well-formedness: every internal node separates its children's keys at
    /// a critical bit position within the key width; keys on the left carry a
    /// zero there, keys on the right a one.
    pub(crate) open spec fn wf(self) -> bool
        decreases self,
    {
        match self {
            Node::Leaf { key, value } => true,
            Node::Internal { left, right, crit } => {
                &&& crit < 8
                &&& left.wf()
                &&& right.wf()
                &&& forall|k: u8| left.as_map().dom().contains(k) ==> !bit_set(k, crit)
                &&& forall|k: u8| right.as_map().dom().contains(k) ==> bit_set(k, crit)
            },
        }
    }

    /// A subtree always stores at least one entry.
    pub(crate) proof fn lemma_nonempty(self)
        ensures
            exists|k: u8| self.as_map().dom().contains(k),
        decreases self,
    {
        match self {
            Node::Leaf { key, value } => {
                assert(self.as_map().dom().contains(key));
            },
            Node::Internal { left, right, crit } => {
                right.lemma_nonempty();
                let k = choose|k: u8| right.as_map().dom().contains(k);
                assert(self.as_map().dom().contains(k));
            },
        }
    }

    /// In a well-formed internal node the two children hold disjoint key
    /// sets: they disagree on the critical bit.
    pub(crate) proof fn lemma_children_disjoint(left: Box<Node<V>>, right: Box<Node<V>>, crit: u32)
        requires
            (Node::Internal { left, right, crit }).wf(),
        ensures
            left.as_map().dom().disjoint(right.as_map().dom()),
    {
        assert forall|k: u8|
            left.as_map().dom().contains(k) implies !right.as_map().dom().contains(k) by {
            assert(!bit_set(k, crit));
        }
    }

    /// Looks the key up by probing its critical bits: at an internal node
    /// the key's bit at the node's critical position selects the one child
    /// that can hold it.
    pub(crate) fn get(&self, key: &u8) -> (r: Option<&V>)
        requires
            self.wf(),
        ensures
            match r {
                Some(v) => self.as_map().dom().contains(*key) && *v == self.as_map()[*key],
                None => !self.as_map().dom().contains(*key),
            },
        decreases self,
    {
        match self {
            Node::Leaf { key: k, value: v } => {
                if *k == *key {
                    Some(v)
                } else {
                    None
                }
            },
            Node::Internal { left, right, crit } => {
                if bit_at(key, crit) {
                    proof {
                        assert(!left.as_map().dom().contains(*key));
                    }
                    right.get(key)
                } else {
                    proof {
                        assert(!right.as_map().dom().contains(*key));
                    }
                    left.get(key)
                }
            },
        }
    }

    /// The same traversal as `get`, yielding an exclusive reference: the
    /// value the caller writes through it becomes the stored value for the
    /// key, and no other entry moves.
    pub(crate) fn get_mut(&mut self, key: &u8) -> (r: Option<&mut V>)
        requires
            old(self).wf(),
        ensures
            final(self).wf(),
            r.is_none() ==> !old(self).as_map().dom().contains(*key) && *final(self) == *old(
                self,
            ),
            r.is_some() ==> old(self).as_map().dom().contains(*key) && *r.unwrap() == old(
                self,
            ).as_map()[*key] && final(self).as_map() == old(self).as_map().insert(
                *key,
                *final(r.unwrap()),
            ),
        decreases *old(self),
    {
        match self {
            Node::Leaf { key: k, value: v } => {
                if *k == *key {
                    proof {
                        assert(old(self).as_map() =~= Map::empty().insert(
                            old(self)->Leaf_key,
                            old(self)->Leaf_value,
                        ));
                    }
                    Some(v)
                } else {
                    None
                }
            },
            Node::Internal { left, right, crit } => {
                proof {
                    Self::lemma_children_disjoint(old(self)->Internal_left, old(self)->Internal_right, old(self)->Internal_crit);
                }
                if bit_at(key, crit) {
                    proof {
                        assert(!old(self)->Internal_left.as_map().dom().contains(*key));
                    }
                    right.get_mut(key)
                } else {
                    proof {
                        assert(!old(self)->Internal_right.as_map().dom().contains(*key));
                    }
                    left.get_mut(key)
                }
            },
        }
    }

    /// Inserts the entry, returning the rebuilt subtree and the value the
    /// key displaced, if any. A leaf with a differing key is replaced, in
    /// its position, by an internal node splitting at the first bit where
    /// the two keys differ; the smaller key goes left.
    pub(crate) fn insert(self, key: u8, value: V) -> (res: (Node<V>, Option<V>))
        requires
            self.wf(),
        ensures
            res.0.wf(),
            res.0.as_map() == self.as_map().insert(key, value),
            res.1 == (if self.as_map().dom().contains(key) {
                Some(self.as_map()[key])
            } else {
                None::<V>
            }),
        decreases self,
    {
        let ghost m0 = self.as_map();
        match self {
            Node::Leaf { key: k, value: v } => {
                if k == key {
                    let node = Node::Leaf { key, value };
                    proof {
                        assert(node.as_map() =~= m0.insert(key, value));
                    }
                    (node, Some(v))
                } else {
                    let crit: u32 = (k ^ key).leading_zeros();
                    proof {
                        lemma_crit_bit(k, key);
                    }
                    let (left, right) = if k < key {
                        (
                            Box::new(Node::Leaf { key: k, value: v }),
                            Box::new(Node::Leaf { key, value }),
                        )
                    } else {
                        (
                            Box::new(Node::Leaf { key, value }),
                            Box::new(Node::Leaf { key: k, value: v }),
                        )
                    };
                    let node = Node::Internal { left, right, crit };
                    proof {
                        reveal_with_fuel(Node::as_map, 3);
                        reveal_with_fuel(Node::wf, 2);
                        assert(node.as_map() =~= m0.insert(key, value));
                        assert(node.wf());
                    }
                    (node, None)
                }
            },
            Node::Internal { left, right, crit } => {
                proof {
                    Self::lemma_children_disjoint(left, right, crit);
                }
                if bit_at(&key, &crit) {
                    proof {
                        assert(!left.as_map().dom().contains(key));
                    }
                    let (sub, prev) = (*right).insert(key, value);
                    let node = Node::Internal { left, right: Box::new(sub), crit };
                    proof {
                        assert(node.as_map() =~= m0.insert(key, value));
                    }
                    (node, prev)
                } else {
                    proof {
                        assert(!right.as_map().dom().contains(key));
                    }
                    let (sub, prev) = (*left).insert(key, value);
                    let node = Node::Internal { left: Box::new(sub), right, crit };
                    proof {
                        assert(node.as_map() =~= m0.insert(key, value));
                    }
                    (node, prev)
                }
            },
        }
    }

    /// The number of entries in any subtree, counted in leaves.
    pub(crate) fn len(&self) -> (n: usize)
        requires
            self.wf(),
        ensures
            n == self.as_map().dom().len(),
        decreases self,
    {
        match self {
            Node::Leaf { key, value } => {
                proof {
                    assert(self.as_map().dom() =~= Set::empty().insert(*key));
                }
                1
            },
            Node::Internal { left, right, crit } => {
                proof {
                    Self::lemma_children_disjoint(*left, *right, *crit);
                    lemma_u8_set_bound(left.as_map().dom());
                    lemma_u8_set_bound(right.as_map().dom());
                }
                let a: usize = left.len();
                let b: usize = right.len();
                a + b
            },
        }
    }
}

/// A set of 8-bit keys is finite and holds at most 256 elements.
pub proof fn lemma_u8_set_bound(s: Set<u8>)
    ensures
        s.finite(),
        s.len() <= 256,
{
    <u8 as vstd::set_lib::FiniteRange>::range_properties(0u8, 255u8);
    let below = Set::<u8>::range(0u8, 255u8);
    let all = below.insert(255u8);
    assert(!below.contains(255u8));
    assert(all.len() == 256);
    assert(s.subset_of(all));
    lemma_len_subset(s, all);
}

} // verus!
