//! The third shape: a byte-indexed table of positions in a compact child array.

use crate::flags::{
    count_set, lemma_count_step, lemma_count_take, lemma_count_update, lemma_count_zero,
};
use crate::header::NodeHeader;
use crate::node::{Node, NodeV};
use crate::node256::{present, Node256};
use crate::sorted::{lemma_ascending_index, Node16, SortedNode};
use vstd::prelude::*;

verus! {

/// The table entry of a byte without a child.
pub const ABSENT: u8 = 0xff;

/// Which entries of a position table stand for a child.
pub open spec fn occupied(table: Seq<u8>) -> Seq<bool> {
    Seq::new(table.len(), |i: int| table[i] != ABSENT)
}

/// A position after the child at `at` has left the compact array: positions
/// behind it move down by one.
pub open spec fn lowered(position: u8, at: u8) -> u8 {
    if position != ABSENT && position > at {
        (position - 1) as u8
    } else {
        position
    }
}

/// An inner node with up to 48 children. `keys` has one entry for each byte:
/// the position of the byte's child in `children`, or `ABSENT`.
pub struct Node48<V> {
    pub(crate) header: NodeHeader,
    pub(crate) value: Option<Box<NodeV<V>>>,
    pub(crate) keys: [u8; 256],
    pub(crate) children: Vec<Node<V>>,
}

impl<V> Default for Node48<V> {
    /// An empty node with the empty compressed path.
    fn default() -> (node: Self)
        ensures
            node.wf(),
            node.path() == Seq::<u8>::empty(),
            node.own() is None,
            node.count() == 0,
            forall|x: u8| node.child(x) is Null,
    {
        let keys: [u8; 256] = [ABSENT; 256];
        proof {
            lemma_count_zero(occupied(keys@));
        }
        Node48 { header: NodeHeader::default(), value: None, keys, children: Vec::new() }
    }
}

impl<V> Node48<V> {
    /// Every entry of the table is a position in the child array or `ABSENT`,
    /// no two bytes share a position, and the table has as many entries as
    /// there are children.
    pub open(crate) spec fn wf(&self) -> bool {
        &&& self.header.wf()
        &&& self.children.len() <= 48
        &&& forall|b: int|
            0 <= b < 256 && self.keys[b] != ABSENT ==> self.keys[b] < self.children.len()
        &&& forall|a: int, b: int|
            0 <= a < 256 && 0 <= b < 256 && a != b && self.keys[a] != ABSENT ==> self.keys[a]
                != self.keys[b]
        &&& count_set(occupied(self.keys@)) == self.children.len()
        &&& forall|i: int| 0 <= i < self.children.len() ==> !(self.children[i] is Null)
    }

    /// The compressed path.
    pub open(crate) spec fn path(&self) -> Seq<u8> {
        self.header.path()
    }

    /// The terminal value whose key ends at this node.
    pub open(crate) spec fn own(&self) -> Option<NodeV<V>> {
        match self.value {
            Some(leaf) => Some(*leaf),
            None => None,
        }
    }

    /// The number of children.
    pub open(crate) spec fn count(&self) -> nat {
        self.children@.len()
    }

    /// The child of `key`: the absent handle where it has none.
    pub open(crate) spec fn child(&self, key: u8) -> Node<V> {
        if self.keys[key as int] != ABSENT && self.keys[key as int] < self.children.len() {
            self.children[self.keys[key as int] as int]
        } else {
            Node::Null
        }
    }

    /// Whether `key` has a child.
    pub open spec fn has(&self, key: u8) -> bool {
        !(self.child(key) is Null)
    }

    /// The position of the child of `key` in the compact array: `ABSENT`
    /// where it has none.
    pub open(crate) spec fn slot(&self, key: u8) -> u8 {
        self.keys[key as int]
    }

    /// The compact array of the children.
    pub open(crate) spec fn packed(&self) -> Seq<Node<V>> {
        self.children@
    }

    /// The positions of a node in order: a byte has a position exactly where
    /// it has a child, every position is below the number of children, and no
    /// two bytes share one.
    pub proof fn lemma_slots(&self)
        requires
            self.wf(),
        ensures
            forall|x: u8| self.has(x) <==> self.slot(x) != ABSENT,
            forall|x: u8| self.has(x) ==> self.slot(x) < self.count(),
            forall|x: u8, y: u8|
                x != y && self.has(x) && self.has(y) ==> self.slot(x) != self.slot(y),
            forall|x: u8| self.has(x) ==> self.child(x) == self.packed()[self.slot(x) as int],
            self.packed().len() == self.count(),
    {
    }

    /// `self` is `old` with the child of `key` replaced by `node`.
    pub open(crate) spec fn same_but(&self, old: &Self, key: u8, node: Node<V>) -> bool {
        &&& self.header == old.header
        &&& self.value == old.value
        &&& self.keys == old.keys
        &&& self.children@ == old.children@.update(old.keys[key as int] as int, node)
    }

    /// What replacing one child keeps and what it changes.
    pub proof fn lemma_same_but(&self, old: &Self, key: u8, node: Node<V>)
        requires
            old.wf(),
            old.has(key),
            !(node is Null),
            self.same_but(old, key, node),
        ensures
            self.wf(),
            self.path() == old.path(),
            self.own() == old.own(),
            self.count() == old.count(),
            self.child(key) == node,
            forall|x: u8| x != key ==> self.child(x) == old.child(x),
            forall|x: u8| self.slot(x) == old.slot(x),
    {
    }

    /// A child is smaller than the node that owns it.
    pub proof fn lemma_child_decreases(&self, key: u8)
        requires
            self.has(key),
        ensures
            decreases_to!(*self => self.child(key)),
    {
        assert(decreases_to!(self.children => self.children[self.keys[key as int] as int]));
    }

    /// What the number of children says of the table.
    pub proof fn lemma_count(&self)
        requires
            self.wf(),
        ensures
            self.count() <= 48,
            self.count() == 0 ==> forall|x: u8| self.child(x) is Null,
    {
    }

    /// The header.
    pub fn header(&self) -> (header: &NodeHeader)
        requires
            self.wf(),
        ensures
            header.wf(),
            header.path() == self.path(),
    {
        &self.header
    }

    /// Replaces the header.
    pub fn set_header(&mut self, header: NodeHeader)
        requires
            old(self).wf(),
            header.wf(),
        ensures
            final(self).wf(),
            final(self).path() == header.path(),
            final(self).own() == old(self).own(),
            final(self).count() == old(self).count(),
            forall|x: u8| final(self).child(x) == old(self).child(x),
            forall|x: u8| final(self).slot(x) == old(self).slot(x),
    {
        self.header = header;
    }

    /// The terminal value whose key ends at this node.
    pub fn own_value(&self) -> (leaf: Option<&NodeV<V>>)
        ensures
            match leaf {
                Some(l) => self.own() == Some(*l),
                None => self.own() is None,
            },
    {
        match &self.value {
            Some(leaf) => Some(&**leaf),
            None => None,
        }
    }

    /// Stores `leaf` as the terminal value whose key ends at this node and
    /// hands out the one that was there.
    pub fn set_own(&mut self, leaf: Option<Box<NodeV<V>>>) -> (before: Option<Box<NodeV<V>>>)
        requires
            old(self).wf(),
        ensures
            final(self).wf(),
            final(self).path() == old(self).path(),
            final(self).own() == match leaf {
                Some(l) => Some(*l),
                None => None,
            },
            old(self).own() == match before {
                Some(l) => Some(*l),
                None => None,
            },
            final(self).count() == old(self).count(),
            forall|x: u8| final(self).child(x) == old(self).child(x),
            forall|x: u8| final(self).slot(x) == old(self).slot(x),
    {
        let mut slot = leaf;
        core::mem::swap(&mut self.value, &mut slot);
        slot
    }

    /// The children in the order of their positions.
    pub fn children(&self) -> (children: &Vec<Node<V>>)
        ensures
            children@ == self.packed(),
    {
        &self.children
    }

    /// The position of the child of `key` in the compact array.
    pub fn position(&self, key: u8) -> (at: Option<usize>)
        requires
            self.wf(),
        ensures
            match at {
                Some(i) => self.has(key) && i == self.slot(key),
                None => !self.has(key),
            },
    {
        let at: u8 = self.keys[key as usize];
        if at == ABSENT {
            None
        } else {
            Some(at as usize)
        }
    }

    /// The number of children.
    pub fn len(&self) -> (n: usize)
        requires
            self.wf(),
        ensures
            n == self.count(),
            n <= 48,
    {
        self.children.len()
    }

    /// Whether the node is at its capacity.
    pub fn is_full(&self) -> (b: bool)
        requires
            self.wf(),
        ensures
            b == (self.count() == 48),
    {
        self.children.len() == 48
    }

    /// Whether the children fit the next smaller shape.
    pub fn is_shrinkable(&self) -> (b: bool)
        requires
            self.wf(),
        ensures
            b == (self.count() <= 16),
    {
        self.children.len() <= 16
    }

    /// The smallest key byte that has a child.
    pub fn first_key(&self) -> (key: Option<u8>)
        requires
            self.wf(),
        ensures
            match key {
                Some(k) => self.has(k) && forall|x: u8| x < k ==> self.child(x) is Null,
                None => self.count() == 0,
            },
    {
        let mut i: usize = 0;
        while i < 256
            invariant
                self.wf(),
                i <= 256,
                forall|j: int| 0 <= j < i ==> self.keys[j] == ABSENT,
            decreases 256 - i,
        {
            if self.keys[i] != ABSENT {
                return Some(i as u8);
            }
            i += 1;
        }
        proof {
            lemma_count_zero(occupied(self.keys@));
        }
        None
    }

    /// Gives `key` the child `node`, which takes the position behind the
    /// last child. The handle comes back where `key` has a child already,
    /// where the node is at its capacity and where the handle is absent.
    pub fn insert(&mut self, key: u8, node: Node<V>) -> (r: Result<(), Node<V>>)
        requires
            old(self).wf(),
        ensures
            final(self).wf(),
            final(self).path() == old(self).path(),
            final(self).own() == old(self).own(),
            r is Err <==> node is Null || old(self).has(key) || old(self).count() == 48,
            forall|x: u8| x != key ==> final(self).child(x) == old(self).child(x),
            forall|x: u8| x != key ==> final(self).slot(x) == old(self).slot(x),
            match r {
                Ok(_) => {
                    &&& final(self).count() == old(self).count() + 1
                    &&& final(self).child(key) == node
                    &&& final(self).slot(key) == old(self).count()
                },
                Err(back) => {
                    &&& back == node
                    &&& final(self).count() == old(self).count()
                    &&& final(self).child(key) == old(self).child(key)
                    &&& final(self).slot(key) == old(self).slot(key)
                },
            },
    {
        if node.is_null() || self.children.len() >= 48 || self.keys[key as usize] != ABSENT {
            return Err(node);
        }
        let at: usize = self.children.len();
        self.keys[key as usize] = at as u8;
        self.children.push(node);
        proof {
            lemma_count_update(occupied(old(self).keys@), key as int, true);
            assert(occupied(self.keys@) =~= occupied(old(self).keys@).update(key as int, true));
        }
        Ok(())
    }

    /// The child of `key`.
    pub fn lookup(&self, key: u8) -> (r: Option<&Node<V>>)
        requires
            self.wf(),
        ensures
            match r {
                Some(node) => *node == self.child(key) && !(node is Null),
                None => self.child(key) is Null,
            },
    {
        let at: u8 = self.keys[key as usize];
        if at == ABSENT {
            None
        } else {
            Some(&self.children[at as usize])
        }
    }

    /// The child of `key`, to be changed in place.
    pub fn lookup_mut(&mut self, key: u8) -> (r: Option<&mut Node<V>>)
        requires
            old(self).wf(),
        ensures
            match r {
                Some(node) => {
                    &&& old(self).has(key)
                    &&& *node == old(self).child(key)
                    &&& final(self).same_but(old(self), key, *final(node))
                },
                None => !old(self).has(key) && *final(self) == *old(self),
            },
    {
        let at: u8 = self.keys[key as usize];
        if at == ABSENT {
            None
        } else {
            Some(&mut self.children[at as usize])
        }
    }

    /// Replaces the child of `key` by `node` and hands out the one that was
    /// there. The handle comes back where `key` has no child and where the
    /// handle is absent.
    pub fn update(&mut self, key: u8, node: Node<V>) -> (r: Result<Node<V>, Node<V>>)
        requires
            old(self).wf(),
        ensures
            final(self).wf(),
            final(self).path() == old(self).path(),
            final(self).own() == old(self).own(),
            final(self).count() == old(self).count(),
            r is Err <==> node is Null || !old(self).has(key),
            forall|x: u8| x != key ==> final(self).child(x) == old(self).child(x),
            forall|x: u8| final(self).slot(x) == old(self).slot(x),
            match r {
                Ok(before) => before == old(self).child(key) && final(self).child(key) == node,
                Err(back) => back == node && final(self).child(key) == old(self).child(key),
            },
    {
        let at: u8 = self.keys[key as usize];
        if node.is_null() || at == ABSENT {
            return Err(node);
        }
        let mut slot = node;
        core::mem::swap(&mut self.children[at as usize], &mut slot);
        proof {
            assert(self.same_but(old(self), key, node));
            self.lemma_same_but(old(self), key, node);
        }
        Ok(slot)
    }

    /// Takes the child of `key` out of the node. The children behind it move
    /// up by one position, and the table follows them.
    pub fn remove(&mut self, key: u8) -> (r: Result<Node<V>, ()>)
        requires
            old(self).wf(),
        ensures
            final(self).wf(),
            final(self).path() == old(self).path(),
            final(self).own() == old(self).own(),
            r is Ok <==> old(self).has(key),
            forall|x: u8| x != key ==> final(self).child(x) == old(self).child(x),
            final(self).child(key) is Null,
            final(self).slot(key) == ABSENT,
            forall|x: u8|
                x != key ==> final(self).slot(x) == if r is Ok {
                    lowered(old(self).slot(x), old(self).slot(key))
                } else {
                    old(self).slot(x)
                },
            match r {
                Ok(node) => node == old(self).child(key) && final(self).count() + 1 == old(
                    self,
                ).count(),
                Err(_) => final(self).count() == old(self).count(),
            },
    {
        let at: u8 = self.keys[key as usize];
        if at == ABSENT {
            return Err(());
        }
        let node = self.children.remove(at as usize);
        self.keys[key as usize] = ABSENT;
        let ghost cleared = self.keys@;
        let mut x: usize = 0;
        while x < 256
            invariant
                x <= 256,
                self.header == old(self).header,
                self.value == old(self).value,
                self.children@ == old(self).children@.remove(at as int),
                cleared == old(self).keys@.update(key as int, ABSENT),
                forall|j: int| 0 <= j < x ==> self.keys[j] == lowered(cleared[j], at),
                forall|j: int| x <= j < 256 ==> self.keys[j] == cleared[j],
            decreases 256 - x,
        {
            let position: u8 = self.keys[x];
            if position != ABSENT && position > at {
                self.keys[x] = position - 1;
            }
            x += 1;
        }
        proof {
            let before = old(self).keys@;
            assert forall|b: int| 0 <= b < 256 implies self.keys[b] == lowered(cleared[b], at) by {}
            assert forall|b: int| 0 <= b < 256 && b != key && before[b] != ABSENT implies before[b]
                != at by {}
            lemma_count_update(occupied(before), key as int, false);
            assert(occupied(self.keys@) =~= occupied(before).update(key as int, false));
            assert forall|x: u8| x != key implies self.child(x) == old(self).child(x) by {
                assert(self.keys[x as int] == lowered(cleared[x as int], at));
                if before[x as int] != ABSENT {
                    assert(before[x as int] != at);
                }
            }
            assert forall|a: int, b: int|
                0 <= a < 256 && 0 <= b < 256 && a != b && self.keys[a] != ABSENT implies
                self.keys[a] != self.keys[b] by {
                assert(self.keys[a] == lowered(cleared[a], at));
                assert(self.keys[b] == lowered(cleared[b], at));
                if b != key && before[b] != ABSENT {
                    assert(before[a] != before[b]);
                }
            }
        }
        Ok(node)
    }

    /// The same children in the third shape: the position table is filled
    /// from the ascending key bytes, and the child array is taken over, so
    /// that the positions ascend with the bytes.
    pub fn from_node16(node: Node16<V>) -> (grown: Self)
        requires
            node.wf(),
        ensures
            grown.wf(),
            grown.path() == node.path(),
            grown.own() == node.own(),
            grown.count() == node.count(),
            forall|x: u8| grown.child(x) == node.child(x),
            forall|a: u8, b: u8|
                a < b && grown.has(a) && grown.has(b) ==> grown.slot(a) < grown.slot(b),
    {
        let SortedNode { header, value, keys, children } = node;
        let mut table: [u8; 256] = [ABSENT; 256];
        proof {
            lemma_count_zero(occupied(table@));
        }
        let mut i: usize = 0;
        while i < keys.len()
            invariant
                i <= keys.len(),
                keys.len() <= 16,
                crate::sorted::ascending(keys@),
                forall|j: int| 0 <= j < i ==> table[keys[j] as int] == j,
                forall|b: int|
                    0 <= b < 256 && table[b] != ABSENT ==> table[b] < i && keys[table[b] as int]
                        == b,
                count_set(occupied(table@)) == i,
            decreases keys.len() - i,
        {
            let ghost before = table@;
            proof {
                if table[keys[i as int] as int] != ABSENT {
                    let j = table[keys[i as int] as int] as int;
                    assert(keys[j] < keys[i as int]);
                }
                lemma_count_update(occupied(before), keys[i as int] as int, true);
            }
            table[keys[i] as usize] = i as u8;
            proof {
                assert(occupied(table@) =~= occupied(before).update(keys[i as int] as int, true));
            }
            i += 1;
        }
        let grown = Node48 { header, value, keys: table, children };
        proof {
            assert forall|x: u8| grown.child(x) == node.child(x) by {
                if table[x as int] != ABSENT {
                    lemma_ascending_index(keys@, table[x as int] as int);
                } else if keys@.contains(x) {
                    let j = keys@.index_of(x);
                    assert(keys[j] == x);
                }
            }
            assert forall|a: u8, b: u8| a < b && grown.has(a) && grown.has(b) implies grown.slot(a)
                < grown.slot(b) by {
                let i = table[a as int] as int;
                let j = table[b as int] as int;
                assert(keys[i] == a && keys[j] == b);
                if j < i {
                    assert(keys[j] < keys[i]);
                }
            }
        }
        grown
    }

    /// The same children in the third shape: the slots are walked in
    /// ascending byte order and their children packed into the compact array,
    /// so that the positions ascend with the bytes.
    pub fn from_node256(node: Node256<V>) -> (shrunk: Self)
        requires
            node.wf(),
            node.count() <= 48,
        ensures
            shrunk.wf(),
            shrunk.path() == node.path(),
            shrunk.own() == node.own(),
            shrunk.count() == node.count(),
            forall|x: u8| shrunk.child(x) == node.child(x),
            forall|a: u8, b: u8|
                a < b && shrunk.has(a) && shrunk.has(b) ==> shrunk.slot(a) < shrunk.slot(b),
    {
        let Node256 { header, value, len: _, children: mut slots } = node;
        let ghost full = slots@;
        let mut table: [u8; 256] = [ABSENT; 256];
        let mut packed: Vec<Node<V>> = Vec::new();
        proof {
            lemma_count_zero(occupied(table@));
            assert(present(full).take(0) =~= Seq::<bool>::empty());
        }
        let mut b: usize = 0;
        while b < 256
            invariant
                b <= 256,
                full.len() == 256,
                slots.len() == 256,
                count_set(present(full)) <= 48,
                packed.len() == count_set(present(full).take(b as int)),
                count_set(occupied(table@)) == packed.len(),
                forall|x: int| b <= x < 256 ==> slots[x] == full[x] && table[x] == ABSENT,
                forall|x: int|
                    0 <= x < b ==> if full[x] is Null {
                        table[x] == ABSENT
                    } else {
                        table[x] < packed.len() && packed[table[x] as int] == full[x]
                    },
                forall|x: int, y: int|
                    0 <= x < 256 && 0 <= y < 256 && x != y && table[x] != ABSENT ==> table[x]
                        != table[y],
                forall|x: int| 0 <= x < 256 && table[x] != ABSENT ==> table[x] < packed.len(),
                forall|x: int, y: int|
                    0 <= x < y < 256 && table[x] != ABSENT && table[y] != ABSENT ==> table[x]
                        < table[y],
                forall|i: int| 0 <= i < packed.len() ==> !(packed[i] is Null),
            decreases 256 - b,
        {
            proof {
                lemma_count_step(present(full), b as int);
                lemma_count_take(present(full), b as int + 1);
            }
            if !slots[b].is_null() {
                let ghost before = table@;
                let mut slot = Node::Null;
                core::mem::swap(&mut slots[b], &mut slot);
                proof {
                    lemma_count_update(occupied(before), b as int, true);
                }
                table[b] = packed.len() as u8;
                packed.push(slot);
                proof {
                    assert(occupied(table@) =~= occupied(before).update(b as int, true));
                }
            }
            b += 1;
        }
        proof {
            assert(present(full).take(256) =~= present(full));
        }
        Node48 { header, value, keys: table, children: packed }
    }
}

} // verus!
