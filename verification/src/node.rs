//! The child handle and the terminal value node.

use crate::inner::Inner;
use either::Either;
use vstd::prelude::*;

verus! {

/// The two-case sum of the `either` crate. Verus reads the enum's definition,
/// so its two variants, `Left` and `Right`, can be built and matched in
/// verified code.
#[verifier::external_type_specification]
#[verifier::reject_recursive_types(L)]
#[verifier::reject_recursive_types(R)]
pub struct ExEither<L, R>(Either<L, R>);

/// `Either::is_right`: whether the value is the `Right` variant.
pub assume_specification<L, R>[ Either::<L, R>::is_right ](e: &Either<L, R>) -> (b: bool)
    ensures
        b == (*e is Right),
;

/// A terminal value: the stored value together with the whole key it is
/// stored under.
pub struct NodeV<V> {
    key: Vec<u8>,
    value: V,
}

impl<V> NodeV<V> {
    /// The bytes of the key.
    pub closed spec fn key_bytes(&self) -> Seq<u8> {
        self.key@
    }

    /// The stored value.
    pub closed spec fn stored(&self) -> V {
        self.value
    }

    /// A terminal value that stores `value` under `key`.
    pub fn new(key: Vec<u8>, value: V) -> (leaf: Self)
        ensures
            leaf.key_bytes() == key@,
            leaf.stored() == value,
    {
        NodeV { key, value }
    }

    /// The key.
    pub fn key(&self) -> (key: &Vec<u8>)
        ensures
            key@ == self.key_bytes(),
    {
        &self.key
    }

    /// The value.
    pub fn value(&self) -> (value: &V)
        ensures
            *value == self.stored(),
    {
        &self.value
    }

    /// Gives the value up.
    pub fn into_value(self) -> (value: V)
        ensures
            value == self.stored(),
    {
        self.value
    }

    /// Whether the key is `key`.
    pub fn has_key(&self, key: &Vec<u8>) -> (same: bool)
        ensures
            same == (self.key_bytes() == key@),
    {
        if self.key.len() != key.len() {
            return false;
        }
        let mut i: usize = 0;
        while i < key.len()
            invariant
                i <= key.len(),
                self.key.len() == key.len(),
                forall|j: int| 0 <= j < i ==> self.key[j] == key[j],
            decreases key.len() - i,
        {
            if self.key[i] != key[i] {
                return false;
            }
            i += 1;
        }
        assert(self.key@ =~= key@);
        true
    }
}

/// What a live handle addresses.
#[derive(Clone, Copy, Debug, PartialEq, Eq, Structural)]
pub enum NodeType {
    /// A terminal value.
    Value,
    /// An inner node with up to four children.
    Node4,
    /// An inner node with up to sixteen children.
    Node16,
    /// An inner node with up to 48 children.
    Node48,
    /// An inner node with up to 256 children.
    Node256,
}

/// A child handle: absent, or the owner of one terminal value or of one inner
/// node of any of the four shapes.
pub enum Node<V> {
    /// The absent handle.
    Null,
    /// The owner of a terminal value.
    Value(Box<NodeV<V>>),
    /// The owner of an inner node.
    Inner(Box<Inner<V>>),
}

impl<V> Node<V> {
    /// A live handle that owns `body`.
    pub fn new(body: Either<Inner<V>, NodeV<V>>) -> (node: Self)
        ensures
            node == match body {
                Either::Left(inner) => Node::Inner(Box::new(inner)),
                Either::Right(leaf) => Node::Value(Box::new(leaf)),
            },
    {
        match body {
            Either::Left(inner) => Node::Inner(Box::new(inner)),
            Either::Right(leaf) => Node::Value(Box::new(leaf)),
        }
    }

    /// The absent handle.
    pub fn null() -> (node: Self)
        ensures
            node is Null,
    {
        Node::Null
    }

    /// Whether the handle is absent.
    pub fn is_null(&self) -> (b: bool)
        ensures
            b == (self is Null),
    {
        match self {
            Node::Null => true,
            _ => false,
        }
    }

    /// What the handle addresses: the inner node on the left, the terminal
    /// value on the right.
    pub fn deref(&self) -> (body: Either<&Inner<V>, &NodeV<V>>)
        requires
            !(self is Null),
        ensures
            match body {
                Either::Left(inner) => *self == Node::Inner(Box::new(*inner)),
                Either::Right(leaf) => *self == Node::Value(Box::new(*leaf)),
            },
    {
        match self {
            Node::Null => vstd::pervasive::unreached(),
            Node::Value(leaf) => Either::Right(&**leaf),
            Node::Inner(inner) => Either::Left(&**inner),
        }
    }

    /// What the handle addresses, to be changed in place: the inner node on
    /// the left, the terminal value on the right.
    pub fn deref_mut(&mut self) -> (body: Either<&mut Inner<V>, &mut NodeV<V>>)
        requires
            !(*old(self) is Null),
        ensures
            match body {
                Either::Left(inner) => {
                    &&& *old(self) == Node::Inner(Box::new(*inner))
                    &&& *final(self) == Node::Inner(Box::new(*final(inner)))
                },
                Either::Right(leaf) => {
                    &&& *old(self) == Node::Value(Box::new(*leaf))
                    &&& *final(self) == Node::Value(Box::new(*final(leaf)))
                },
            },
    {
        match self {
            Node::Null => vstd::pervasive::unreached(),
            Node::Value(leaf) => Either::Right(&mut **leaf),
            Node::Inner(inner) => Either::Left(&mut **inner),
        }
    }

    /// The inner node that the handle owns.
    pub open spec fn inner(&self) -> Inner<V>
        recommends
            self is Inner,
    {
        match self {
            Node::Inner(n) => **n,
            _ => arbitrary(),
        }
    }

    /// What the handle addresses; nothing for the absent handle.
    pub open spec fn kind(&self) -> Option<NodeType> {
        match self {
            Node::Null => None,
            Node::Value(_) => Some(NodeType::Value),
            Node::Inner(n) => Some(
                match **n {
                    Inner::Node4(_) => NodeType::Node4,
                    Inner::Node16(_) => NodeType::Node16,
                    Inner::Node48(_) => NodeType::Node48,
                    Inner::Node256(_) => NodeType::Node256,
                },
            ),
        }
    }

    /// The handle at the end of the way that takes, from this handle on, the
    /// child of each byte of `way` in turn; the absent handle where the way
    /// breaks off.
    pub open spec fn descendant(&self, way: Seq<u8>) -> Node<V>
        decreases way.len(),
    {
        if way.len() == 0 {
            *self
        } else {
            match self {
                Node::Inner(n) => n.child(way[0]).descendant(way.skip(1)),
                _ => Node::Null,
            }
        }
    }

    /// What stands at the end of the way `way` from this handle: nothing
    /// where the way breaks off.
    pub open spec fn kind_at(&self, way: Seq<u8>) -> Option<NodeType> {
        self.descendant(way).kind()
    }

    /// What the handle addresses.
    pub fn node_type(&self) -> (t: NodeType)
        requires
            !(self is Null),
        ensures
            Some(t) == self.kind(),
    {
        match self.deref() {
            Either::Left(inner) => inner.node_type(),
            Either::Right(_) => NodeType::Value,
        }
    }

    /// Moves an inner node that is at its capacity one shape up, and leaves
    /// every other handle as it is. The largest shape cannot grow: a node of
    /// that shape at its capacity is excluded.
    pub fn extend(&mut self)
        requires
            *old(self) is Inner ==> old(self).inner().wf() && !(old(self).inner() is Node256
                && old(self).inner().full()),
        ensures
            !(*old(self) is Inner) ==> *final(self) == *old(self),
            *old(self) is Inner ==> {
                &&& *final(self) is Inner
                &&& final(self).inner().wf()
                &&& !final(self).inner().full()
                &&& final(self).inner().capacity() == if old(self).inner().full() {
                    old(self).inner().larger()
                } else {
                    old(self).inner().capacity()
                }
                &&& old(self).inner().full() ==> final(self).inner().packed_in_order()
                &&& final(self).inner().capacity() >= old(self).inner().capacity()
                &&& final(self).inner().path() == old(self).inner().path()
                &&& final(self).inner().own() == old(self).inner().own()
                &&& final(self).inner().count() == old(self).inner().count()
                &&& forall|x: u8| final(self).inner().child(x) == old(self).inner().child(x)
            },
    {
        if self.is_null() || self.deref().is_right() {
            return;
        }
        let full = match self.deref() {
            Either::Left(inner) => inner.is_full(),
            Either::Right(_) => vstd::pervasive::unreached(),
        };
        if !full {
            return;
        }
        let mut taken = Node::Null;
        core::mem::swap(self, &mut taken);
        match taken {
            Node::Inner(inner) => {
                let grown = (*inner).grow();
                proof {
                    grown.lemma_count();
                }
                *self = Node::new(Either::Left(grown));
            },
            _ => vstd::pervasive::unreached(),
        }
    }

    /// Moves an inner node whose children fit the next smaller shape one
    /// shape down, and leaves every other handle as it is.
    pub fn shrink(&mut self)
        requires
            *old(self) is Inner ==> old(self).inner().wf(),
        ensures
            !(*old(self) is Inner) ==> *final(self) == *old(self),
            *old(self) is Inner ==> {
                &&& *final(self) is Inner
                &&& final(self).inner().wf()
                &&& final(self).inner().capacity() == if old(self).inner().shrinkable() {
                    old(self).inner().smaller()
                } else {
                    old(self).inner().capacity()
                }
                &&& old(self).inner().shrinkable() ==> final(self).inner().packed_in_order()
                &&& final(self).inner().capacity() <= old(self).inner().capacity()
                &&& final(self).inner().path() == old(self).inner().path()
                &&& final(self).inner().own() == old(self).inner().own()
                &&& final(self).inner().count() == old(self).inner().count()
                &&& forall|x: u8| final(self).inner().child(x) == old(self).inner().child(x)
            },
    {
        if self.is_null() || self.deref().is_right() {
            return;
        }
        let fits = match self.deref() {
            Either::Left(inner) => inner.is_shrinkable(),
            Either::Right(_) => vstd::pervasive::unreached(),
        };
        if !fits {
            return;
        }
        let mut taken = Node::Null;
        core::mem::swap(self, &mut taken);
        match taken {
            Node::Inner(inner) => {
                *self = Node::new(Either::Left((*inner).shrink()));
            },
            _ => vstd::pervasive::unreached(),
        }
    }

    /// Gives `key` the child `node` in the inner node that the handle owns,
    /// after moving that node one shape up where it is at its capacity. The
    /// handle `node` comes back where `key` has a child already and where
    /// `node` is absent. The shape never moves down, and the number of
    /// children stays within the capacity.
    pub fn insert_child(&mut self, key: u8, node: Node<V>) -> (r: Result<(), Node<V>>)
        requires
            *old(self) is Inner,
            old(self).inner().wf(),
        ensures
            *final(self) is Inner,
            final(self).inner().wf(),
            final(self).inner().capacity() == if r is Ok && old(self).inner().full() {
                old(self).inner().larger()
            } else {
                old(self).inner().capacity()
            },
            final(self).inner().capacity() >= old(self).inner().capacity(),
            final(self).inner().count() <= final(self).inner().capacity(),
            final(self).inner().path() == old(self).inner().path(),
            final(self).inner().own() == old(self).inner().own(),
            r is Err <==> node is Null || old(self).inner().has(key),
            forall|x: u8| x != key ==> final(self).inner().child(x) == old(self).inner().child(x),
            match r {
                Ok(_) => {
                    &&& final(self).inner().count() == old(self).inner().count() + 1
                    &&& final(self).inner().child(key) == node
                },
                Err(back) => {
                    &&& back == node
                    &&& final(self).inner().count() == old(self).inner().count()
                    &&& final(self).inner().child(key) == old(self).inner().child(key)
                },
            },
    {
        proof {
            old(self).inner().lemma_count();
        }
        let present = match self.deref() {
            Either::Left(inner) => inner.lookup(key).is_some(),
            Either::Right(_) => vstd::pervasive::unreached(),
        };
        if present || node.is_null() {
            return Err(node);
        }
        proof {
            assert(self.inner().child(key) is Null);
            if self.inner() is Node256 && self.inner().full() {
                assert(self.inner().has(key));
            }
        }
        self.extend();
        match self.deref_mut() {
            Either::Left(inner) => {
                let r = inner.insert(key, node);
                proof {
                    inner.lemma_count();
                }
                r
            },
            Either::Right(_) => vstd::pervasive::unreached(),
        }
    }
}

} // verus!
