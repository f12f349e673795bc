//! The two array shapes: up to four and up to sixteen children.

use crate::flags::{count_set, lemma_count_step, lemma_count_take};
use crate::header::NodeHeader;
use crate::node::{Node, NodeV};
use crate::node48::{occupied, Node48, ABSENT};
use vstd::prelude::*;

verus! {

/// Strictly ascending bytes.
pub open spec fn ascending(s: Seq<u8>) -> bool {
    forall|i: int, j: int| 0 <= i < j < s.len() ==> s[i] < s[j]
}

/// In an ascending sequence a byte stands at one position only.
pub proof fn lemma_ascending_index(s: Seq<u8>, i: int)
    requires
        ascending(s),
        0 <= i < s.len(),
    ensures
        s.contains(s[i]),
        s.index_of(s[i]) == i,
{
    let j = s.index_of(s[i]);
    assert(s.contains(s[i]));
    assert(0 <= j < s.len() && s[j] == s[i]);
    if j < i {
        assert(s[j] < s[i]);
    } else if i < j {
        assert(s[i] < s[j]);
    }
}

/// An inner node that keeps its key bytes in ascending order in one array and
/// its children at the same positions in another. `CAP` is the capacity.
pub struct SortedNode<V, const CAP: usize> {
    pub(crate) header: NodeHeader,
    pub(crate) value: Option<Box<NodeV<V>>>,
    pub(crate) keys: Vec<u8>,
    pub(crate) children: Vec<Node<V>>,
}

/// The smallest shape.
pub type Node4<V> = SortedNode<V, 4>;

/// The second shape.
pub type Node16<V> = SortedNode<V, 16>;

impl<V, const CAP: usize> Default for SortedNode<V, CAP> {
    /// An empty node with the empty compressed path.
    fn default() -> (node: Self)
        ensures
            node.wf(),
            node.path() == Seq::<u8>::empty(),
            node.own() is None,
            node.count() == 0,
            forall|x: u8| node.child(x) is Null,
    {
        SortedNode {
            header: NodeHeader::default(),
            value: None,
            keys: Vec::new(),
            children: Vec::new(),
        }
    }
}

impl<V, const CAP: usize> SortedNode<V, CAP> {
    /// The arrays run in parallel within the capacity, the key bytes ascend,
    /// and no child is absent.
    pub open(crate) spec fn wf(&self) -> bool {
        &&& self.header.wf()
        &&& self.keys.len() == self.children.len()
        &&& self.keys.len() <= CAP
        &&& ascending(self.keys@)
        &&& forall|i: int| 0 <= i < self.children.len() ==> !(self.children[i] is Null)
    }

    /// The compressed path.
    pub open(crate) spec fn path(&self) -> Seq<u8> {
        self.header.path()
    }

    /// The terminal value whose key ends at this node.
    pub open(crate) spec fn own(&self) -> Option<NodeV<V>> {
        match self.value {
            Some(leaf) => Some(*leaf),
            None => None,
        }
    }

    /// The number of children.
    pub open(crate) spec fn count(&self) -> nat {
        self.keys@.len()
    }

    /// The child of `key`: the absent handle where it has none.
    pub open(crate) spec fn child(&self, key: u8) -> Node<V> {
        if self.keys@.contains(key) && self.keys@.index_of(key) < self.children.len() {
            self.children[self.keys@.index_of(key)]
        } else {
            Node::Null
        }
    }

    /// Whether `key` has a child.
    pub open spec fn has(&self, key: u8) -> bool {
        !(self.child(key) is Null)
    }

    /// The array of the key bytes.
    pub open(crate) spec fn bytes(&self) -> Seq<u8> {
        self.keys@
    }

    /// The array of the children.
    pub open(crate) spec fn handles(&self) -> Seq<Node<V>> {
        self.children@
    }

    /// The arrays of a node in order: the key bytes ascend without a gap in
    /// the array, they are the bytes that have a child, and each child stands
    /// at the position of its byte.
    pub proof fn lemma_arrays(&self)
        requires
            self.wf(),
        ensures
            ascending(self.bytes()),
            self.bytes().len() == self.count(),
            self.handles().len() == self.count(),
            forall|x: u8| self.has(x) <==> self.bytes().contains(x),
            forall|i: int|
                0 <= i < self.count() ==> self.child(#[trigger] self.bytes()[i])
                    == self.handles()[i],
    {
        assert forall|i: int| 0 <= i < self.count() implies self.child(#[trigger] self.bytes()[i])
            == self.handles()[i] by {
            self.lemma_position(i);
        }
        assert forall|x: u8| self.bytes().contains(x) implies self.has(x) by {
            let i = self.bytes().index_of(x);
            self.lemma_position(i);
        }
    }

    /// `self` is `old` with the child of `key` replaced by `node`.
    pub open(crate) spec fn same_but(&self, old: &Self, key: u8, node: Node<V>) -> bool {
        &&& self.header == old.header
        &&& self.value == old.value
        &&& self.keys == old.keys
        &&& self.children@ == old.children@.update(old.keys@.index_of(key), node)
    }

    /// What replacing one child keeps and what it changes.
    pub proof fn lemma_same_but(&self, old: &Self, key: u8, node: Node<V>)
        requires
            old.wf(),
            old.has(key),
            !(node is Null),
            self.same_but(old, key, node),
        ensures
            self.wf(),
            self.path() == old.path(),
            self.own() == old.own(),
            self.count() == old.count(),
            self.child(key) == node,
            forall|x: u8| x != key ==> self.child(x) == old.child(x),
    {
        let i = old.keys@.index_of(key);
        assert(old.keys@[i] == key);
        assert forall|x: u8| x != key implies self.child(x) == old.child(x) by {
            if old.keys@.contains(x) {
                let j = old.keys@.index_of(x);
                assert(old.keys@[j] == x);
            }
        }
    }

    /// A child is smaller than the node that owns it.
    pub proof fn lemma_child_decreases(&self, key: u8)
        requires
            self.has(key),
        ensures
            decreases_to!(*self => self.child(key)),
    {
        let i = self.keys@.index_of(key);
        assert(decreases_to!(self.children => self.children[i]));
    }

    /// What a node without children and one with children hold.
    pub proof fn lemma_count(&self)
        requires
            self.wf(),
        ensures
            self.count() <= CAP,
            self.count() == 0 ==> forall|x: u8| self.child(x) is Null,
    {
    }

    /// Position `i` holds the child of the key byte at `i`.
    proof fn lemma_position(&self, i: int)
        requires
            self.wf(),
            0 <= i < self.keys.len(),
        ensures
            self.has(self.keys[i]),
            self.child(self.keys[i]) == self.children[i],
    {
        lemma_ascending_index(self.keys@, i);
    }

    /// The header.
    pub fn header(&self) -> (header: &NodeHeader)
        requires
            self.wf(),
        ensures
            header.wf(),
            header.path() == self.path(),
    {
        &self.header
    }

    /// Replaces the header.
    pub fn set_header(&mut self, header: NodeHeader)
        requires
            old(self).wf(),
            header.wf(),
        ensures
            final(self).wf(),
            final(self).path() == header.path(),
            final(self).own() == old(self).own(),
            final(self).count() == old(self).count(),
            forall|x: u8| final(self).child(x) == old(self).child(x),
    {
        self.header = header;
    }

    /// The terminal value whose key ends at this node.
    pub fn own_value(&self) -> (leaf: Option<&NodeV<V>>)
        ensures
            match leaf {
                Some(l) => self.own() == Some(*l),
                None => self.own() is None,
            },
    {
        match &self.value {
            Some(leaf) => Some(&**leaf),
            None => None,
        }
    }

    /// Stores `leaf` as the terminal value whose key ends at this node and
    /// hands out the one that was there.
    pub fn set_own(&mut self, leaf: Option<Box<NodeV<V>>>) -> (before: Option<Box<NodeV<V>>>)
        requires
            old(self).wf(),
        ensures
            final(self).wf(),
            final(self).path() == old(self).path(),
            final(self).own() == match leaf {
                Some(l) => Some(*l),
                None => None,
            },
            old(self).own() == match before {
                Some(l) => Some(*l),
                None => None,
            },
            final(self).count() == old(self).count(),
            forall|x: u8| final(self).child(x) == old(self).child(x),
    {
        let mut slot = leaf;
        core::mem::swap(&mut self.value, &mut slot);
        slot
    }

    /// The key bytes, in ascending order.
    pub fn keys(&self) -> (keys: &Vec<u8>)
        ensures
            keys@ == self.bytes(),
    {
        &self.keys
    }

    /// The children, each at the position of its key byte.
    pub fn children(&self) -> (children: &Vec<Node<V>>)
        ensures
            children@ == self.handles(),
    {
        &self.children
    }

    /// The number of children.
    pub fn len(&self) -> (n: usize)
        requires
            self.wf(),
        ensures
            n == self.count(),
            n <= CAP,
    {
        self.keys.len()
    }

    /// Whether the node is at its capacity.
    pub fn is_full(&self) -> (b: bool)
        requires
            self.wf(),
        ensures
            b == (self.count() == CAP),
    {
        self.keys.len() == CAP
    }

    /// The position of `key` among the key bytes.
    fn find(&self, key: u8) -> (at: Option<usize>)
        requires
            self.wf(),
        ensures
            match at {
                Some(i) => i < self.keys.len() && self.keys[i as int] == key && self.keys@.index_of(
                    key,
                ) == i && self.has(key),
                None => !self.has(key),
            },
    {
        let mut i: usize = 0;
        while i < self.keys.len()
            invariant
                self.wf(),
                i <= self.keys.len(),
                forall|j: int| 0 <= j < i ==> self.keys[j] != key,
            decreases self.keys.len() - i,
        {
            if self.keys[i] == key {
                proof {
                    lemma_ascending_index(self.keys@, i as int);
                }
                return Some(i);
            }
            i += 1;
        }
        None
    }

    /// The smallest key byte that has a child.
    pub fn first_key(&self) -> (key: Option<u8>)
        requires
            self.wf(),
        ensures
            match key {
                Some(k) => self.has(k) && forall|x: u8| x < k ==> self.child(x) is Null,
                None => self.count() == 0,
            },
    {
        if self.keys.len() == 0 {
            None
        } else {
            proof {
                self.lemma_position(0);
                assert forall|x: u8| x < self.keys[0] implies self.child(x) is Null by {
                    if self.keys@.contains(x) {
                        let j = self.keys@.index_of(x);
                        assert(self.keys[j] == x);
                        assert(self.keys[0] <= self.keys[j]);
                    }
                }
            }
            Some(self.keys[0])
        }
    }

    /// Gives `key` the child `node`. The handle comes back where `key` has a
    /// child already, where the node is at its capacity and where the handle
    /// is absent.
    pub fn insert(&mut self, key: u8, node: Node<V>) -> (r: Result<(), Node<V>>)
        requires
            old(self).wf(),
        ensures
            final(self).wf(),
            final(self).path() == old(self).path(),
            final(self).own() == old(self).own(),
            r is Err <==> node is Null || old(self).has(key) || old(self).count() == CAP,
            forall|x: u8| x != key ==> final(self).child(x) == old(self).child(x),
            match r {
                Ok(_) => {
                    &&& final(self).count() == old(self).count() + 1
                    &&& final(self).child(key) == node
                },
                Err(back) => {
                    &&& back == node
                    &&& final(self).count() == old(self).count()
                    &&& final(self).child(key) == old(self).child(key)
                },
            },
    {
        if node.is_null() || self.keys.len() >= CAP {
            return Err(node);
        }
        let mut at: usize = 0;
        while at < self.keys.len() && self.keys[at] < key
            invariant
                self.wf(),
                *self == *old(self),
                at <= self.keys.len(),
                forall|j: int| 0 <= j < at ==> self.keys[j] < key,
            decreases self.keys.len() - at,
        {
            at += 1;
        }
        if at < self.keys.len() && self.keys[at] == key {
            proof {
                self.lemma_position(at as int);
            }
            return Err(node);
        }
        proof {
            if old(self).keys@.contains(key) {
                let j = old(self).keys@.index_of(key);
                assert(old(self).keys@[j] == key);
                if j >= at {
                    assert(old(self).keys@[at as int] <= old(self).keys@[j]);
                }
            }
        }
        self.keys.insert(at, key);
        self.children.insert(at, node);
        proof {
            let before = old(self).keys@;
            let after = self.keys@;
            assert(ascending(after)) by {
                assert forall|i: int, j: int| 0 <= i < j < after.len() implies after[i]
                    < after[j] by {
                    let i0 = if i < at { i } else { i - 1 };
                    let j0 = if j < at { j } else { j - 1 };
                    if i != at && j != at {
                        assert(before[i0] < before[j0]);
                    } else if i == at {
                        assert(before[at as int] <= before[j0]);
                    }
                }
            }
            lemma_ascending_index(after, at as int);
            assert forall|x: u8| x != key implies self.child(x) == old(self).child(x) by {
                if before.contains(x) {
                    let j = before.index_of(x);
                    assert(before[j] == x);
                    let j1 = if j < at { j } else { j + 1 };
                    assert(after[j1] == x);
                    lemma_ascending_index(after, j1);
                } else if after.contains(x) {
                    let j = after.index_of(x);
                    assert(after[j] == x);
                    let j0 = if j < at { j } else { j - 1 };
                    assert(before[j0] == x);
                }
            }
        }
        Ok(())
    }

    /// The child of `key`.
    pub fn lookup(&self, key: u8) -> (r: Option<&Node<V>>)
        requires
            self.wf(),
        ensures
            match r {
                Some(node) => *node == self.child(key) && !(node is Null),
                None => self.child(key) is Null,
            },
    {
        match self.find(key) {
            Some(i) => Some(&self.children[i]),
            None => None,
        }
    }

    /// The child of `key`, to be changed in place.
    pub fn lookup_mut(&mut self, key: u8) -> (r: Option<&mut Node<V>>)
        requires
            old(self).wf(),
        ensures
            match r {
                Some(node) => {
                    &&& old(self).has(key)
                    &&& *node == old(self).child(key)
                    &&& final(self).same_but(old(self), key, *final(node))
                },
                None => !old(self).has(key) && *final(self) == *old(self),
            },
    {
        match self.find(key) {
            Some(i) => Some(&mut self.children[i]),
            None => None,
        }
    }

    /// Replaces the child of `key` by `node` and hands out the one that was
    /// there. The handle comes back where `key` has no child and where the
    /// handle is absent.
    pub fn update(&mut self, key: u8, node: Node<V>) -> (r: Result<Node<V>, Node<V>>)
        requires
            old(self).wf(),
        ensures
            final(self).wf(),
            final(self).path() == old(self).path(),
            final(self).own() == old(self).own(),
            final(self).count() == old(self).count(),
            r is Err <==> node is Null || !old(self).has(key),
            forall|x: u8| x != key ==> final(self).child(x) == old(self).child(x),
            match r {
                Ok(before) => before == old(self).child(key) && final(self).child(key) == node,
                Err(back) => back == node && final(self).child(key) == old(self).child(key),
            },
    {
        if node.is_null() {
            return Err(node);
        }
        match self.find(key) {
            Some(i) => {
                let mut slot = node;
                core::mem::swap(&mut self.children[i], &mut slot);
                proof {
                    assert(self.same_but(old(self), key, node));
                    self.lemma_same_but(old(self), key, node);
                }
                Ok(slot)
            },
            None => Err(node),
        }
    }

    /// Takes the child of `key` out of the node.
    pub fn remove(&mut self, key: u8) -> (r: Result<Node<V>, ()>)
        requires
            old(self).wf(),
        ensures
            final(self).wf(),
            final(self).path() == old(self).path(),
            final(self).own() == old(self).own(),
            r is Ok <==> old(self).has(key),
            forall|x: u8| x != key ==> final(self).child(x) == old(self).child(x),
            final(self).child(key) is Null,
            match r {
                Ok(node) => node == old(self).child(key) && final(self).count() + 1 == old(
                    self,
                ).count(),
                Err(_) => final(self).count() == old(self).count(),
            },
    {
        match self.find(key) {
            Some(at) => {
                self.keys.remove(at);
                let node = self.children.remove(at);
                proof {
                    let before = old(self).keys@;
                    let after = self.keys@;
                    assert(ascending(after)) by {
                        assert forall|i: int, j: int| 0 <= i < j < after.len() implies after[i]
                            < after[j] by {
                            let i0 = if i < at { i } else { i + 1 };
                            let j0 = if j < at { j } else { j + 1 };
                            assert(before[i0] < before[j0]);
                        }
                    }
                    assert forall|x: u8| x != key implies self.child(x) == old(self).child(x) by {
                        if before.contains(x) {
                            let j = before.index_of(x);
                            assert(before[j] == x);
                            let j1 = if j < at { j } else { j - 1 };
                            assert(after[j1] == x);
                            lemma_ascending_index(after, j1);
                        } else if after.contains(x) {
                            let j = after.index_of(x);
                            assert(after[j] == x);
                            let j0 = if j < at { j } else { j + 1 };
                            assert(before[j0] == x);
                        }
                    }
                    if after.contains(key) {
                        let j = after.index_of(key);
                        assert(after[j] == key);
                        let j0 = if j < at { j } else { j + 1 };
                        assert(before[j0] == key);
                        lemma_ascending_index(before, j0);
                    }
                }
                Ok(node)
            },
            None => Err(()),
        }
    }

    /// The same node at another capacity.
    pub fn resize<const TO: usize>(self) -> (node: SortedNode<V, TO>)
        requires
            self.wf(),
            self.count() <= TO,
        ensures
            node.wf(),
            node.path() == self.path(),
            node.own() == self.own(),
            node.count() == self.count(),
            forall|x: u8| node.child(x) == self.child(x),
    {
        SortedNode {
            header: self.header,
            value: self.value,
            keys: self.keys,
            children: self.children,
        }
    }
}

impl<V> SortedNode<V, 4> {
    /// The smallest shape never shrinks.
    pub fn is_shrinkable(&self) -> (b: bool)
        ensures
            !b,
    {
        false
    }

    /// The same children in the smallest shape: the two arrays are taken
    /// over.
    pub fn from_node16(node: Node16<V>) -> (shrunk: Self)
        requires
            node.wf(),
            node.count() <= 4,
        ensures
            shrunk.wf(),
            shrunk.path() == node.path(),
            shrunk.own() == node.own(),
            shrunk.count() == node.count(),
            forall|x: u8| shrunk.child(x) == node.child(x),
    {
        node.resize::<4>()
    }
}

impl<V> SortedNode<V, 16> {
    /// Whether the children fit the next smaller shape.
    pub fn is_shrinkable(&self) -> (b: bool)
        requires
            self.wf(),
        ensures
            b == (self.count() <= 4),
    {
        self.keys.len() <= 4
    }

    /// The same children in the second shape: the two arrays are taken over.
    pub fn from_node4(node: Node4<V>) -> (grown: Self)
        requires
            node.wf(),
        ensures
            grown.wf(),
            grown.path() == node.path(),
            grown.own() == node.own(),
            grown.count() == node.count(),
            forall|x: u8| grown.child(x) == node.child(x),
    {
        node.resize::<16>()
    }

    /// The same children in the second shape: the position table is walked
    /// in ascending byte order, which yields the key bytes in ascending order
    /// and each child beside its byte.
    pub fn from_node48(node: Node48<V>) -> (shrunk: Self)
        requires
            node.wf(),
            node.count() <= 16,
        ensures
            shrunk.wf(),
            shrunk.path() == node.path(),
            shrunk.own() == node.own(),
            shrunk.count() == node.count(),
            forall|x: u8| shrunk.child(x) == node.child(x),
    {
        let Node48 { header, value, keys: table, children: mut packed } = node;
        let ghost full = packed@;
        let mut keys: Vec<u8> = Vec::new();
        let mut children: Vec<Node<V>> = Vec::new();
        proof {
            assert(occupied(table@).take(0) =~= Seq::<bool>::empty());
        }
        let mut b: usize = 0;
        while b < 256
            invariant
                b <= 256,
                node.wf(),
                table == node.keys,
                full == node.children@,
                packed.len() == full.len(),
                keys.len() == children.len(),
                keys.len() == count_set(occupied(table@).take(b as int)),
                ascending(keys@),
                forall|j: int|
                    0 <= j < keys.len() ==> #[trigger] keys[j] < b && table[keys[j] as int]
                        != ABSENT,
                forall|j: int|
                    0 <= j < keys.len() ==> #[trigger] children[j]
                        == full[table[keys[j] as int] as int],
                forall|x: int| 0 <= x < b && table[x] != ABSENT ==> keys@.contains(x as u8),
                forall|x: int|
                    b <= x < 256 && table[x] != ABSENT ==> packed[table[x] as int]
                        == full[table[x] as int],
            decreases 256 - b,
        {
            proof {
                lemma_count_step(occupied(table@), b as int);
                lemma_count_take(occupied(table@), b as int + 1);
            }
            let at: u8 = table[b];
            if at != ABSENT {
                let ghost before = keys@;
                let ghost moved = children@;
                let mut slot = Node::Null;
                core::mem::swap(&mut packed[at as usize], &mut slot);
                keys.push(b as u8);
                children.push(slot);
                proof {
                    assert(slot == full[at as int]);
                    assert forall|j: int| 0 <= j < keys.len() implies #[trigger] children[j]
                        == full[table[keys[j] as int] as int] by {
                        if j < before.len() {
                            assert(keys[j] == before[j]);
                            assert(children[j] == moved[j]);
                        }
                    }
                    assert forall|i: int, j: int| 0 <= i < j < keys.len() implies keys[i]
                        < keys[j] by {
                        assert(keys[i] == before[i]);
                        assert(before[i] < b);
                        if j < before.len() {
                            assert(keys[j] == before[j]);
                        }
                    }
                    assert forall|x: int|
                        0 <= x < b + 1 && table[x] != ABSENT implies keys@.contains(x as u8) by {
                        if x < b {
                            let j = before.index_of(x as u8);
                            assert(before.contains(x as u8));
                            assert(keys[j] == x as u8);
                        } else {
                            assert(keys[keys.len() - 1] == x as u8);
                        }
                    }
                }
                } else {
                }
            b += 1;
        }
        proof {
            assert(occupied(table@).take(256) =~= occupied(table@));
        }
        let shrunk = SortedNode { header, value, keys, children };
        proof {
            assert forall|x: u8| shrunk.child(x) == node.child(x) by {
                if keys@.contains(x) {
                    let j = keys@.index_of(x);
                    assert(keys[j] == x);
                }
            }
        }
        shrunk
    }
}

} // verus!
