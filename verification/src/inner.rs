//! The four shapes behind one type, and the steps between them.

use crate::header::NodeHeader;
use crate::node::{Node, NodeType, NodeV};
use crate::node256::Node256;
use crate::node48::{Node48, ABSENT};
use crate::sorted::{ascending, Node16, Node4};
use vstd::prelude::*;

verus! {

/// An inner node in one of the four shapes.
pub enum Inner<V> {
    /// Up to four children, by ascending key byte.
    Node4(Node4<V>),
    /// Up to sixteen children, by ascending key byte.
    Node16(Node16<V>),
    /// Up to 48 children, found through a table with an entry for each byte.
    Node48(Node48<V>),
    /// A child slot for each byte.
    Node256(Node256<V>),
}

/// The capacity of the smallest shape that holds `count` children.
pub open spec fn fitting(count: nat) -> nat {
    if count <= 4 {
        4
    } else if count <= 16 {
        16
    } else if count <= 48 {
        48
    } else {
        256
    }
}

impl<V> Inner<V> {
    /// The shape's own invariant holds.
    pub closed spec fn wf(&self) -> bool {
        match self {
            Inner::Node4(n) => n.wf(),
            Inner::Node16(n) => n.wf(),
            Inner::Node48(n) => n.wf(),
            Inner::Node256(n) => n.wf(),
        }
    }

    /// How many children the shape can hold.
    pub open spec fn capacity(&self) -> nat {
        match self {
            Inner::Node4(_) => 4,
            Inner::Node16(_) => 16,
            Inner::Node48(_) => 48,
            Inner::Node256(_) => 256,
        }
    }

    /// The capacity of the next larger shape; the largest shape has none.
    pub open spec fn larger(&self) -> nat {
        match self {
            Inner::Node4(_) => 16,
            Inner::Node16(_) => 48,
            _ => 256,
        }
    }

    /// The capacity of the next smaller shape; the smallest shape has none.
    pub open spec fn smaller(&self) -> nat {
        match self {
            Inner::Node256(_) => 48,
            Inner::Node48(_) => 16,
            _ => 4,
        }
    }

    /// The children of a node of the third shape stand in the compact array
    /// in the order of their bytes. Every other shape is in order by itself.
    pub open spec fn packed_in_order(&self) -> bool {
        match self {
            Inner::Node48(n) => forall|a: u8, b: u8|
                a < b && n.has(a) && n.has(b) ==> n.slot(a) < n.slot(b),
            _ => true,
        }
    }

    /// What the invariant and the views say of the shape behind them: each is
    /// that of the shape.
    pub proof fn lemma_shape(&self)
        ensures
            match self {
                Inner::Node4(n) => {
                    &&& self.wf() == n.wf()
                    &&& self.path() == n.path()
                    &&& self.own() == n.own()
                    &&& self.count() == n.count()
                    &&& forall|x: u8| self.child(x) == n.child(x)
                },
                Inner::Node16(n) => {
                    &&& self.wf() == n.wf()
                    &&& self.path() == n.path()
                    &&& self.own() == n.own()
                    &&& self.count() == n.count()
                    &&& forall|x: u8| self.child(x) == n.child(x)
                },
                Inner::Node48(n) => {
                    &&& self.wf() == n.wf()
                    &&& self.path() == n.path()
                    &&& self.own() == n.own()
                    &&& self.count() == n.count()
                    &&& forall|x: u8| self.child(x) == n.child(x)
                },
                Inner::Node256(n) => {
                    &&& self.wf() == n.wf()
                    &&& self.path() == n.path()
                    &&& self.own() == n.own()
                    &&& self.count() == n.count()
                    &&& forall|x: u8| self.child(x) == n.child(x)
                },
            },
    {
    }

    /// How a node in order is laid out. In the two array shapes the key
    /// bytes ascend, they are the bytes that have a child, and each child
    /// stands at the position of its byte. In the third shape a byte has a
    /// position exactly where it has a child, each position is below the
    /// number of children and holds the byte's child, and no two bytes share
    /// one.
    pub proof fn lemma_layout(&self)
        requires
            self.wf(),
        ensures
            match self {
                Inner::Node4(n) => {
                    &&& ascending(n.bytes())
                    &&& n.bytes().len() == self.count()
                    &&& forall|x: u8| self.has(x) <==> n.bytes().contains(x)
                    &&& forall|i: int|
                        0 <= i < self.count() ==> self.child(#[trigger] n.bytes()[i])
                            == n.handles()[i]
                },
                Inner::Node16(n) => {
                    &&& ascending(n.bytes())
                    &&& n.bytes().len() == self.count()
                    &&& forall|x: u8| self.has(x) <==> n.bytes().contains(x)
                    &&& forall|i: int|
                        0 <= i < self.count() ==> self.child(#[trigger] n.bytes()[i])
                            == n.handles()[i]
                },
                Inner::Node48(n) => {
                    &&& n.packed().len() == self.count()
                    &&& forall|x: u8| self.has(x) <==> n.slot(x) != ABSENT
                    &&& forall|x: u8|
                        self.has(x) ==> n.slot(x) < self.count() && self.child(x)
                            == n.packed()[n.slot(x) as int]
                    &&& forall|x: u8, y: u8|
                        x != y && self.has(x) && self.has(y) ==> n.slot(x) != n.slot(y)
                },
                Inner::Node256(_) => true,
            },
    {
        match self {
            Inner::Node4(n) => n.lemma_arrays(),
            Inner::Node16(n) => n.lemma_arrays(),
            Inner::Node48(n) => n.lemma_slots(),
            Inner::Node256(_) => {},
        }
    }

    /// The compressed path.
    pub closed spec fn path(&self) -> Seq<u8> {
        match self {
            Inner::Node4(n) => n.path(),
            Inner::Node16(n) => n.path(),
            Inner::Node48(n) => n.path(),
            Inner::Node256(n) => n.path(),
        }
    }

    /// The terminal value whose key ends at this node.
    pub closed spec fn own(&self) -> Option<NodeV<V>> {
        match self {
            Inner::Node4(n) => n.own(),
            Inner::Node16(n) => n.own(),
            Inner::Node48(n) => n.own(),
            Inner::Node256(n) => n.own(),
        }
    }

    /// The number of children.
    pub closed spec fn count(&self) -> nat {
        match self {
            Inner::Node4(n) => n.count(),
            Inner::Node16(n) => n.count(),
            Inner::Node48(n) => n.count(),
            Inner::Node256(n) => n.count(),
        }
    }

    /// The child of `key`: the absent handle where it has none.
    pub closed spec fn child(&self, key: u8) -> Node<V> {
        match self {
            Inner::Node4(n) => n.child(key),
            Inner::Node16(n) => n.child(key),
            Inner::Node48(n) => n.child(key),
            Inner::Node256(n) => n.child(key),
        }
    }

    /// Whether `key` has a child.
    pub open spec fn has(&self, key: u8) -> bool {
        !(self.child(key) is Null)
    }

    /// Whether the node is at its capacity.
    pub open spec fn full(&self) -> bool {
        self.count() == self.capacity()
    }

    /// Whether the children fit the next smaller shape.
    pub open spec fn shrinkable(&self) -> bool {
        match self {
            Inner::Node4(_) => false,
            Inner::Node16(_) => self.count() <= 4,
            Inner::Node48(_) => self.count() <= 16,
            Inner::Node256(_) => self.count() <= 48,
        }
    }

    /// The number of keys that end at the node or pass through it to a child.
    pub open spec fn entries(&self) -> nat {
        self.count() + if self.own() is Some {
            1nat
        } else {
            0nat
        }
    }

    /// `self` is `old` with the child of `key` replaced by `node`.
    pub closed spec fn same_but(&self, old: &Self, key: u8, node: Node<V>) -> bool {
        match (self, old) {
            (Inner::Node4(n), Inner::Node4(o)) => n.same_but(o, key, node),
            (Inner::Node16(n), Inner::Node16(o)) => n.same_but(o, key, node),
            (Inner::Node48(n), Inner::Node48(o)) => n.same_but(o, key, node),
            (Inner::Node256(n), Inner::Node256(o)) => n.same_but(o, key, node),
            _ => false,
        }
    }

    /// What replacing one child keeps and what it changes.
    pub proof fn lemma_same_but(&self, old: &Self, key: u8, node: Node<V>)
        requires
            old.wf(),
            old.has(key),
            !(node is Null),
            self.same_but(old, key, node),
        ensures
            self.wf(),
            self.capacity() == old.capacity(),
            self.path() == old.path(),
            self.own() == old.own(),
            self.count() == old.count(),
            self.child(key) == node,
            forall|x: u8| x != key ==> self.child(x) == old.child(x),
    {
        match (self, old) {
            (Inner::Node4(n), Inner::Node4(o)) => n.lemma_same_but(o, key, node),
            (Inner::Node16(n), Inner::Node16(o)) => n.lemma_same_but(o, key, node),
            (Inner::Node48(n), Inner::Node48(o)) => n.lemma_same_but(o, key, node),
            (Inner::Node256(n), Inner::Node256(o)) => n.lemma_same_but(o, key, node),
            _ => {},
        }
    }

    /// A child is smaller than the node that owns it.
    pub proof fn lemma_child_decreases(&self, key: u8)
        requires
            self.has(key),
        ensures
            decreases_to!(*self => self.child(key)),
    {
        match self {
            Inner::Node4(n) => n.lemma_child_decreases(key),
            Inner::Node16(n) => n.lemma_child_decreases(key),
            Inner::Node48(n) => n.lemma_child_decreases(key),
            Inner::Node256(n) => n.lemma_child_decreases(key),
        }
    }

    /// The occupancy count stays within the capacity. A node that counts no
    /// child has none, and a node at the capacity of the largest shape has a
    /// child for every byte.
    pub proof fn lemma_count(&self)
        requires
            self.wf(),
        ensures
            self.count() <= self.capacity(),
            self.count() == 0 ==> forall|x: u8| self.child(x) is Null,
            self.count() == 256 ==> forall|x: u8| self.has(x),
    {
        match self {
            Inner::Node4(n) => n.lemma_count(),
            Inner::Node16(n) => n.lemma_count(),
            Inner::Node48(n) => n.lemma_count(),
            Inner::Node256(n) => {
                n.lemma_count();
                if n.count() == 256 {
                    assert forall|x: u8| self.has(x) by {
                        assert(n.has(x));
                    }
                }
            },
        }
    }

    /// An inner node of the smallest shape without children, with the
    /// compressed path of `header`.
    pub fn smallest(header: NodeHeader) -> (inner: Self)
        requires
            header.wf(),
        ensures
            inner.wf(),
            inner is Node4,
            inner.path() == header.path(),
            inner.own() is None,
            inner.count() == 0,
            forall|x: u8| inner.child(x) is Null,
    {
        let mut node = Node4::default();
        node.set_header(header);
        Inner::Node4(node)
    }

    /// An inner node of the largest shape without children, with the empty
    /// compressed path.
    pub fn largest() -> (inner: Self)
        ensures
            inner.wf(),
            inner is Node256,
            inner.path() == Seq::<u8>::empty(),
            inner.own() is None,
            inner.count() == 0,
            forall|x: u8| inner.child(x) is Null,
    {
        Inner::Node256(Node256::default())
    }

    /// The shape.
    pub fn node_type(&self) -> (t: NodeType)
        ensures
            t == match self {
                Inner::Node4(_) => NodeType::Node4,
                Inner::Node16(_) => NodeType::Node16,
                Inner::Node48(_) => NodeType::Node48,
                Inner::Node256(_) => NodeType::Node256,
            },
    {
        match self {
            Inner::Node4(_) => NodeType::Node4,
            Inner::Node16(_) => NodeType::Node16,
            Inner::Node48(_) => NodeType::Node48,
            Inner::Node256(_) => NodeType::Node256,
        }
    }

    /// The header.
    pub fn header(&self) -> (header: &NodeHeader)
        requires
            self.wf(),
        ensures
            header.wf(),
            header.path() == self.path(),
    {
        match self {
            Inner::Node4(n) => n.header(),
            Inner::Node16(n) => n.header(),
            Inner::Node48(n) => n.header(),
            Inner::Node256(n) => n.header(),
        }
    }

    /// Replaces the header.
    pub fn set_header(&mut self, header: NodeHeader)
        requires
            old(self).wf(),
            header.wf(),
        ensures
            final(self).wf(),
            final(self).capacity() == old(self).capacity(),
            final(self).path() == header.path(),
            final(self).own() == old(self).own(),
            final(self).count() == old(self).count(),
            forall|x: u8| final(self).child(x) == old(self).child(x),
    {
        match self {
            Inner::Node4(n) => n.set_header(header),
            Inner::Node16(n) => n.set_header(header),
            Inner::Node48(n) => n.set_header(header),
            Inner::Node256(n) => n.set_header(header),
        }
    }

    /// The terminal value whose key ends at this node.
    pub fn own_value(&self) -> (leaf: Option<&NodeV<V>>)
        ensures
            match leaf {
                Some(l) => self.own() == Some(*l),
                None => self.own() is None,
            },
    {
        match self {
            Inner::Node4(n) => n.own_value(),
            Inner::Node16(n) => n.own_value(),
            Inner::Node48(n) => n.own_value(),
            Inner::Node256(n) => n.own_value(),
        }
    }

    /// Stores `leaf` as the terminal value whose key ends at this node and
    /// hands out the one that was there.
    pub fn set_own(&mut self, leaf: Option<Box<NodeV<V>>>) -> (before: Option<Box<NodeV<V>>>)
        requires
            old(self).wf(),
        ensures
            final(self).wf(),
            final(self).capacity() == old(self).capacity(),
            final(self).path() == old(self).path(),
            final(self).own() == match leaf {
                Some(l) => Some(*l),
                None => None,
            },
            old(self).own() == match before {
                Some(l) => Some(*l),
                None => None,
            },
            final(self).count() == old(self).count(),
            forall|x: u8| final(self).child(x) == old(self).child(x),
    {
        match self {
            Inner::Node4(n) => n.set_own(leaf),
            Inner::Node16(n) => n.set_own(leaf),
            Inner::Node48(n) => n.set_own(leaf),
            Inner::Node256(n) => n.set_own(leaf),
        }
    }

    /// The number of children.
    pub fn len(&self) -> (n: usize)
        requires
            self.wf(),
        ensures
            n == self.count(),
            n <= self.capacity(),
    {
        match self {
            Inner::Node4(n) => n.len(),
            Inner::Node16(n) => n.len(),
            Inner::Node48(n) => n.len(),
            Inner::Node256(n) => n.len(),
        }
    }

    /// Whether the node is at its capacity.
    pub fn is_full(&self) -> (b: bool)
        requires
            self.wf(),
        ensures
            b == self.full(),
    {
        match self {
            Inner::Node4(n) => n.is_full(),
            Inner::Node16(n) => n.is_full(),
            Inner::Node48(n) => n.is_full(),
            Inner::Node256(n) => n.is_full(),
        }
    }

    /// Whether the children fit the next smaller shape.
    pub fn is_shrinkable(&self) -> (b: bool)
        requires
            self.wf(),
        ensures
            b == self.shrinkable(),
    {
        match self {
            Inner::Node4(n) => n.is_shrinkable(),
            Inner::Node16(n) => n.is_shrinkable(),
            Inner::Node48(n) => n.is_shrinkable(),
            Inner::Node256(n) => n.is_shrinkable(),
        }
    }

    /// The smallest key byte that has a child.
    pub fn first_key(&self) -> (key: Option<u8>)
        requires
            self.wf(),
        ensures
            match key {
                Some(k) => self.has(k) && forall|x: u8| x < k ==> self.child(x) is Null,
                None => self.count() == 0,
            },
    {
        match self {
            Inner::Node4(n) => n.first_key(),
            Inner::Node16(n) => n.first_key(),
            Inner::Node48(n) => n.first_key(),
            Inner::Node256(n) => n.first_key(),
        }
    }

    /// Gives `key` the child `node` and never replaces a child. The handle
    /// comes back where `key` has a child already, where the node is at its
    /// capacity and where the handle is absent.
    pub fn insert(&mut self, key: u8, node: Node<V>) -> (r: Result<(), Node<V>>)
        requires
            old(self).wf(),
        ensures
            final(self).wf(),
            final(self).capacity() == old(self).capacity(),
            final(self).path() == old(self).path(),
            final(self).own() == old(self).own(),
            r is Err <==> node is Null || old(self).has(key) || old(self).full(),
            forall|x: u8| x != key ==> final(self).child(x) == old(self).child(x),
            match r {
                Ok(_) => {
                    &&& final(self).count() == old(self).count() + 1
                    &&& final(self).child(key) == node
                },
                Err(back) => {
                    &&& back == node
                    &&& final(self).count() == old(self).count()
                    &&& final(self).child(key) == old(self).child(key)
                },
            },
    {
        match self {
            Inner::Node4(n) => n.insert(key, node),
            Inner::Node16(n) => n.insert(key, node),
            Inner::Node48(n) => n.insert(key, node),
            Inner::Node256(n) => n.insert(key, node),
        }
    }

    /// The child of `key`.
    pub fn lookup(&self, key: u8) -> (r: Option<&Node<V>>)
        requires
            self.wf(),
        ensures
            match r {
                Some(node) => *node == self.child(key) && !(node is Null),
                None => self.child(key) is Null,
            },
    {
        match self {
            Inner::Node4(n) => n.lookup(key),
            Inner::Node16(n) => n.lookup(key),
            Inner::Node48(n) => n.lookup(key),
            Inner::Node256(n) => n.lookup(key),
        }
    }

    /// The child of `key`, to be changed in place.
    pub fn lookup_mut(&mut self, key: u8) -> (r: Option<&mut Node<V>>)
        requires
            old(self).wf(),
        ensures
            match r {
                Some(node) => {
                    &&& old(self).has(key)
                    &&& *node == old(self).child(key)
                    &&& final(self).same_but(old(self), key, *final(node))
                },
                None => !old(self).has(key) && *final(self) == *old(self),
            },
    {
        match self {
            Inner::Node4(n) => n.lookup_mut(key),
            Inner::Node16(n) => n.lookup_mut(key),
            Inner::Node48(n) => n.lookup_mut(key),
            Inner::Node256(n) => n.lookup_mut(key),
        }
    }

    /// Replaces the child of `key` by `node` and hands out the one that was
    /// there. The handle comes back where `key` has no child and where the
    /// handle is absent.
    pub fn update(&mut self, key: u8, node: Node<V>) -> (r: Result<Node<V>, Node<V>>)
        requires
            old(self).wf(),
        ensures
            final(self).wf(),
            final(self).capacity() == old(self).capacity(),
            final(self).path() == old(self).path(),
            final(self).own() == old(self).own(),
            final(self).count() == old(self).count(),
            r is Err <==> node is Null || !old(self).has(key),
            forall|x: u8| x != key ==> final(self).child(x) == old(self).child(x),
            match r {
                Ok(before) => before == old(self).child(key) && final(self).child(key) == node,
                Err(back) => back == node && final(self).child(key) == old(self).child(key),
            },
    {
        match self {
            Inner::Node4(n) => n.update(key, node),
            Inner::Node16(n) => n.update(key, node),
            Inner::Node48(n) => n.update(key, node),
            Inner::Node256(n) => n.update(key, node),
        }
    }

    /// Takes the child of `key` out of the node.
    pub fn remove(&mut self, key: u8) -> (r: Result<Node<V>, ()>)
        requires
            old(self).wf(),
        ensures
            final(self).wf(),
            final(self).capacity() == old(self).capacity(),
            final(self).path() == old(self).path(),
            final(self).own() == old(self).own(),
            r is Ok <==> old(self).has(key),
            forall|x: u8| x != key ==> final(self).child(x) == old(self).child(x),
            final(self).child(key) is Null,
            match r {
                Ok(node) => node == old(self).child(key) && final(self).count() + 1 == old(
                    self,
                ).count(),
                Err(_) => final(self).count() == old(self).count(),
            },
    {
        match self {
            Inner::Node4(n) => n.remove(key),
            Inner::Node16(n) => n.remove(key),
            Inner::Node48(n) => n.remove(key),
            Inner::Node256(n) => n.remove(key),
        }
    }

    /// The same node one shape up. In the third shape the children stand in
    /// the order of their bytes.
    pub fn grow(self) -> (grown: Self)
        requires
            self.wf(),
            !(self is Node256),
        ensures
            grown.wf(),
            grown.capacity() == self.larger(),
            grown.path() == self.path(),
            grown.own() == self.own(),
            grown.count() == self.count(),
            forall|x: u8| grown.child(x) == self.child(x),
            grown.packed_in_order(),
    {
        match self {
            Inner::Node4(n) => Inner::Node16(Node16::from_node4(n)),
            Inner::Node16(n) => Inner::Node48(Node48::from_node16(n)),
            Inner::Node48(n) => Inner::Node256(Node256::from_node48(n)),
            Inner::Node256(n) => Inner::Node256(n),
        }
    }

    /// The same node one shape down. In the third shape the children stand
    /// in the order of their bytes.
    pub fn shrink(self) -> (shrunk: Self)
        requires
            self.wf(),
            self.shrinkable(),
        ensures
            shrunk.wf(),
            shrunk.capacity() == self.smaller(),
            shrunk.path() == self.path(),
            shrunk.own() == self.own(),
            shrunk.count() == self.count(),
            forall|x: u8| shrunk.child(x) == self.child(x),
            shrunk.packed_in_order(),
    {
        match self {
            Inner::Node4(n) => Inner::Node4(n),
            Inner::Node16(n) => Inner::Node4(Node4::from_node16(n)),
            Inner::Node48(n) => Inner::Node16(Node16::from_node48(n)),
            Inner::Node256(n) => Inner::Node48(Node48::from_node256(n)),
        }
    }
}

} // verus!
