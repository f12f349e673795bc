//! The largest shape: one child slot for each byte.

use crate::flags::{
    count_set, lemma_count_bound, lemma_count_full, lemma_count_step, lemma_count_update,
    lemma_count_zero,
};
use crate::header::NodeHeader;
use crate::node::{Node, NodeV};
use crate::node48::{occupied, Node48, ABSENT};
use vstd::prelude::*;

verus! {

/// Which slots of a child array hold a child.
pub open spec fn present<V>(slots: Seq<Node<V>>) -> Seq<bool> {
    Seq::new(slots.len(), |i: int| !(slots[i] is Null))
}

/// An inner node with a child slot for every byte; the absent handle marks a
/// byte without a child.
pub struct Node256<V> {
    pub(crate) header: NodeHeader,
    pub(crate) value: Option<Box<NodeV<V>>>,
    pub(crate) len: usize,
    pub(crate) children: Vec<Node<V>>,
}

impl<V> Default for Node256<V> {
    /// An empty node with the empty compressed path.
    fn default() -> (node: Self)
        ensures
            node.wf(),
            node.path() == Seq::<u8>::empty(),
            node.own() is None,
            node.count() == 0,
            forall|x: u8| node.child(x) is Null,
    {
        let mut children: Vec<Node<V>> = Vec::with_capacity(256);
        let mut i: usize = 0;
        while i < 256
            invariant
                i <= 256,
                children.len() == i,
                forall|j: int| 0 <= j < i ==> children[j] is Null,
            decreases 256 - i,
        {
            children.push(Node::Null);
            i += 1;
        }
        proof {
            lemma_count_zero(present(children@));
        }
        Node256 { header: NodeHeader::default(), value: None, len: 0, children }
    }
}

impl<V> Node256<V> {
    /// There are 256 slots, and the occupancy count is the number of slots
    /// that hold a child.
    pub open(crate) spec fn wf(&self) -> bool {
        &&& self.header.wf()
        &&& self.children.len() == 256
        &&& self.len == count_set(present(self.children@))
    }

    /// The compressed path.
    pub open(crate) spec fn path(&self) -> Seq<u8> {
        self.header.path()
    }

    /// The terminal value whose key ends at this node.
    pub open(crate) spec fn own(&self) -> Option<NodeV<V>> {
        match self.value {
            Some(leaf) => Some(*leaf),
            None => None,
        }
    }

    /// The number of children.
    pub open(crate) spec fn count(&self) -> nat {
        self.len as nat
    }

    /// The child of `key`: the absent handle where it has none.
    pub open(crate) spec fn child(&self, key: u8) -> Node<V> {
        if key < self.children.len() {
            self.children[key as int]
        } else {
            Node::Null
        }
    }

    /// Whether `key` has a child.
    pub open spec fn has(&self, key: u8) -> bool {
        !(self.child(key) is Null)
    }

    /// `self` is `old` with the child of `key` replaced by `node`.
    pub open(crate) spec fn same_but(&self, old: &Self, key: u8, node: Node<V>) -> bool {
        &&& self.header == old.header
        &&& self.value == old.value
        &&& self.len == old.len
        &&& self.children@ == old.children@.update(key as int, node)
    }

    /// What replacing one child keeps and what it changes.
    pub proof fn lemma_same_but(&self, old: &Self, key: u8, node: Node<V>)
        requires
            old.wf(),
            old.has(key),
            !(node is Null),
            self.same_but(old, key, node),
        ensures
            self.wf(),
            self.path() == old.path(),
            self.own() == old.own(),
            self.count() == old.count(),
            self.child(key) == node,
            forall|x: u8| x != key ==> self.child(x) == old.child(x),
    {
        assert(present(self.children@) =~= present(old.children@));
    }

    /// A child is smaller than the node that owns it.
    pub proof fn lemma_child_decreases(&self, key: u8)
        requires
            self.has(key),
        ensures
            decreases_to!(*self => self.child(key)),
    {
        assert(decreases_to!(self.children => self.children[key as int]));
    }

    /// What the occupancy count says of the children.
    pub proof fn lemma_count(&self)
        requires
            self.wf(),
        ensures
            self.count() <= 256,
            self.count() == 0 ==> forall|x: u8| self.child(x) is Null,
            self.count() == 256 ==> forall|x: u8| self.has(x),
    {
        let flags = present(self.children@);
        lemma_count_bound(flags);
        lemma_count_zero(flags);
        if self.count() == 0 {
            assert forall|x: u8| self.child(x) is Null by {
                assert(!flags[x as int]);
            }
        }
        if self.count() == 256 {
            lemma_count_full(flags);
            assert forall|x: u8| self.has(x) by {
                assert(flags[x as int]);
            }
        }
    }

    /// The header.
    pub fn header(&self) -> (header: &NodeHeader)
        requires
            self.wf(),
        ensures
            header.wf(),
            header.path() == self.path(),
    {
        &self.header
    }

    /// Replaces the header.
    pub fn set_header(&mut self, header: NodeHeader)
        requires
            old(self).wf(),
            header.wf(),
        ensures
            final(self).wf(),
            final(self).path() == header.path(),
            final(self).own() == old(self).own(),
            final(self).count() == old(self).count(),
            forall|x: u8| final(self).child(x) == old(self).child(x),
    {
        self.header = header;
    }

    /// The terminal value whose key ends at this node.
    pub fn own_value(&self) -> (leaf: Option<&NodeV<V>>)
        ensures
            match leaf {
                Some(l) => self.own() == Some(*l),
                None => self.own() is None,
            },
    {
        match &self.value {
            Some(leaf) => Some(&**leaf),
            None => None,
        }
    }

    /// Stores `leaf` as the terminal value whose key ends at this node and
    /// hands out the one that was there.
    pub fn set_own(&mut self, leaf: Option<Box<NodeV<V>>>) -> (before: Option<Box<NodeV<V>>>)
        requires
            old(self).wf(),
        ensures
            final(self).wf(),
            final(self).path() == old(self).path(),
            final(self).own() == match leaf {
                Some(l) => Some(*l),
                None => None,
            },
            old(self).own() == match before {
                Some(l) => Some(*l),
                None => None,
            },
            final(self).count() == old(self).count(),
            forall|x: u8| final(self).child(x) == old(self).child(x),
    {
        let mut slot = leaf;
        core::mem::swap(&mut self.value, &mut slot);
        slot
    }

    /// The number of children.
    pub fn len(&self) -> (n: usize)
        requires
            self.wf(),
        ensures
            n == self.count(),
            n <= 256,
    {
        proof {
            self.lemma_count();
        }
        self.len
    }

    /// Whether every byte has a child.
    pub fn is_full(&self) -> (b: bool)
        requires
            self.wf(),
        ensures
            b == (self.count() == 256),
    {
        self.len == 256
    }

    /// Whether the children fit the next smaller shape.
    pub fn is_shrinkable(&self) -> (b: bool)
        requires
            self.wf(),
        ensures
            b == (self.count() <= 48),
    {
        self.len <= 48
    }

    /// The smallest key byte that has a child.
    pub fn first_key(&self) -> (key: Option<u8>)
        requires
            self.wf(),
        ensures
            match key {
                Some(k) => self.has(k) && forall|x: u8| x < k ==> self.child(x) is Null,
                None => self.count() == 0,
            },
    {
        let mut i: usize = 0;
        while i < 256
            invariant
                self.wf(),
                i <= 256,
                forall|j: int| 0 <= j < i ==> self.children[j] is Null,
            decreases 256 - i,
        {
            if !self.children[i].is_null() {
                return Some(i as u8);
            }
            i += 1;
        }
        proof {
            lemma_count_zero(present(self.children@));
        }
        None
    }

    /// Gives `key` the child `node`. The handle comes back where `key` has a
    /// child already, where the node is at its capacity and where the handle
    /// is absent.
    pub fn insert(&mut self, key: u8, node: Node<V>) -> (r: Result<(), Node<V>>)
        requires
            old(self).wf(),
        ensures
            final(self).wf(),
            final(self).path() == old(self).path(),
            final(self).own() == old(self).own(),
            r is Err <==> node is Null || old(self).has(key) || old(self).count() == 256,
            forall|x: u8| x != key ==> final(self).child(x) == old(self).child(x),
            match r {
                Ok(_) => {
                    &&& final(self).count() == old(self).count() + 1
                    &&& final(self).child(key) == node
                },
                Err(back) => {
                    &&& back == node
                    &&& final(self).count() == old(self).count()
                    &&& final(self).child(key) == old(self).child(key)
                },
            },
    {
        proof {
            self.lemma_count();
        }
        if node.is_null() || self.len >= 256 || !self.children[key as usize].is_null() {
            return Err(node);
        }
        let mut slot = node;
        core::mem::swap(&mut self.children[key as usize], &mut slot);
        self.len += 1;
        proof {
            lemma_count_update(present(old(self).children@), key as int, true);
            assert(present(self.children@) =~= present(old(self).children@).update(
                key as int,
                true,
            ));
        }
        Ok(())
    }

    /// The child of `key`.
    pub fn lookup(&self, key: u8) -> (r: Option<&Node<V>>)
        requires
            self.wf(),
        ensures
            match r {
                Some(node) => *node == self.child(key) && !(node is Null),
                None => self.child(key) is Null,
            },
    {
        if self.children[key as usize].is_null() {
            None
        } else {
            Some(&self.children[key as usize])
        }
    }

    /// The child of `key`, to be changed in place.
    pub fn lookup_mut(&mut self, key: u8) -> (r: Option<&mut Node<V>>)
        requires
            old(self).wf(),
        ensures
            match r {
                Some(node) => {
                    &&& old(self).has(key)
                    &&& *node == old(self).child(key)
                    &&& final(self).same_but(old(self), key, *final(node))
                },
                None => !old(self).has(key) && *final(self) == *old(self),
            },
    {
        if self.children[key as usize].is_null() {
            None
        } else {
            Some(&mut self.children[key as usize])
        }
    }

    /// Replaces the child of `key` by `node` and hands out the one that was
    /// there. The handle comes back where `key` has no child and where the
    /// handle is absent.
    pub fn update(&mut self, key: u8, node: Node<V>) -> (r: Result<Node<V>, Node<V>>)
        requires
            old(self).wf(),
        ensures
            final(self).wf(),
            final(self).path() == old(self).path(),
            final(self).own() == old(self).own(),
            final(self).count() == old(self).count(),
            r is Err <==> node is Null || !old(self).has(key),
            forall|x: u8| x != key ==> final(self).child(x) == old(self).child(x),
            match r {
                Ok(before) => before == old(self).child(key) && final(self).child(key) == node,
                Err(back) => back == node && final(self).child(key) == old(self).child(key),
            },
    {
        if node.is_null() || self.children[key as usize].is_null() {
            return Err(node);
        }
        let mut slot = node;
        core::mem::swap(&mut self.children[key as usize], &mut slot);
        proof {
            assert(self.same_but(old(self), key, node));
            self.lemma_same_but(old(self), key, node);
        }
        Ok(slot)
    }

    /// Takes the child of `key` out of the node.
    pub fn remove(&mut self, key: u8) -> (r: Result<Node<V>, ()>)
        requires
            old(self).wf(),
        ensures
            final(self).wf(),
            final(self).path() == old(self).path(),
            final(self).own() == old(self).own(),
            r is Ok <==> old(self).has(key),
            forall|x: u8| x != key ==> final(self).child(x) == old(self).child(x),
            final(self).child(key) is Null,
            match r {
                Ok(node) => node == old(self).child(key) && final(self).count() + 1 == old(
                    self,
                ).count(),
                Err(_) => final(self).count() == old(self).count(),
            },
    {
        if self.children[key as usize].is_null() {
            return Err(());
        }
        proof {
            lemma_count_update(present(self.children@), key as int, false);
        }
        let mut slot = Node::Null;
        core::mem::swap(&mut self.children[key as usize], &mut slot);
        self.len -= 1;
        proof {
            assert(present(self.children@) =~= present(old(self).children@).update(
                key as int,
                false,
            ));
        }
        Ok(slot)
    }

    /// The same children in the largest shape: the position table is walked
    /// and each child placed in the slot of its byte.
    pub fn from_node48(node: Node48<V>) -> (grown: Self)
        requires
            node.wf(),
        ensures
            grown.wf(),
            grown.path() == node.path(),
            grown.own() == node.own(),
            grown.count() == node.count(),
            forall|x: u8| grown.child(x) == node.child(x),
    {
        let Node48 { header, value, keys: table, children: mut packed } = node;
        let ghost full = packed@;
        let mut slots: Vec<Node<V>> = Vec::with_capacity(256);
        let mut i: usize = 0;
        while i < 256
            invariant
                i <= 256,
                slots.len() == i,
                forall|j: int| 0 <= j < i ==> slots[j] is Null,
            decreases 256 - i,
        {
            slots.push(Node::Null);
            i += 1;
        }
        proof {
            lemma_count_zero(present(slots@));
            assert(occupied(table@).take(0) =~= Seq::<bool>::empty());
        }
        let mut len: usize = 0;
        let mut b: usize = 0;
        while b < 256
            invariant
                b <= 256,
                node.wf(),
                table == node.keys,
                full == node.children@,
                packed.len() == full.len(),
                slots.len() == 256,
                len <= b,
                len == count_set(present(slots@)),
                len == count_set(occupied(table@).take(b as int)),
                forall|x: int|
                    0 <= x < b ==> slots[x] == if table[x] != ABSENT {
                        full[table[x] as int]
                    } else {
                        Node::Null
                    },
                forall|x: int| b <= x < 256 ==> slots[x] is Null,
                forall|x: int|
                    b <= x < 256 && table[x] != ABSENT ==> packed[table[x] as int]
                        == full[table[x] as int],
            decreases 256 - b,
        {
            proof {
                lemma_count_step(occupied(table@), b as int);
            }
            let at: u8 = table[b];
            if at != ABSENT {
                let ghost before = slots@;
                let mut slot = Node::Null;
                core::mem::swap(&mut packed[at as usize], &mut slot);
                core::mem::swap(&mut slots[b], &mut slot);
                len += 1;
                proof {
                    lemma_count_update(present(before), b as int, true);
                    assert(present(slots@) =~= present(before).update(b as int, true));
                }
            }
            b += 1;
        }
        proof {
            assert(occupied(table@).take(256) =~= occupied(table@));
        }
        Node256 { header, value, len, children: slots }
    }
}

} // verus!
