//! The map: keys of any type that can be encoded as bytes, stored in an
//! adaptive radix tree under their encodings.

use crate::inner::{fitting, Inner};
use crate::node::Node;
use core::marker::PhantomData;
use either::Either;
use vstd::prelude::*;

verus! {

/// A key that has a canonical encoding as bytes. Keys with the same encoding
/// are the same key to the map.
pub trait Encodable {
    /// The bytes that stand for the key.
    spec fn encoding(&self) -> Seq<u8>;

    /// Encodes the key.
    fn encode(&self) -> (bytes: Vec<u8>)
        ensures
            bytes@ == self.encoding(),
    ;
}

impl Encodable for String {
    /// The string's UTF-8 bytes.
    open spec fn encoding(&self) -> Seq<u8> {
        vstd::utf8::encode_utf8(self@)
    }

    fn encode(&self) -> (bytes: Vec<u8>) {
        self.as_str().as_bytes_vec()
    }
}

/// What putting `key` with `value` in makes of `map`: a key that is there
/// keeps its value.
pub open spec fn inserted<V>(map: Map<Seq<u8>, V>, key: Seq<u8>, value: V) -> Map<Seq<u8>, V> {
    if map.contains_key(key) {
        map
    } else {
        map.insert(key, value)
    }
}

/// What putting each of `keys` in, in turn and with the value at the same
/// position of `values`, makes of `map`.
pub open spec fn inserted_all<V>(map: Map<Seq<u8>, V>, keys: Seq<Seq<u8>>, values: Seq<V>) -> Map<
    Seq<u8>,
    V,
>
    decreases keys.len(),
{
    if keys.len() == 0 {
        map
    } else {
        inserted(
            inserted_all(map, keys.drop_last(), values.drop_last()),
            keys.last(),
            values.last(),
        )
    }
}

/// Putting distinct keys into an empty map and looking each of them up gives
/// the value that was put in with it, and no other key is found. The keys are
/// those that `insert` takes: none is longer than a header can count.
pub proof fn lemma_round_trip<V>(keys: Seq<Seq<u8>>, values: Seq<V>)
    requires
        keys.no_duplicates(),
        keys.len() == values.len(),
        forall|i: int| 0 <= i < keys.len() ==> (#[trigger] keys[i]).len() <= u32::MAX,
    ensures
        forall|i: int|
            0 <= i < keys.len() ==> {
                let map = inserted_all(Map::<Seq<u8>, V>::empty(), keys, values);
                map.contains_key(#[trigger] keys[i]) && map[keys[i]] == values[i]
            },
        forall|key: Seq<u8>|
            !keys.contains(key) ==> !(#[trigger] inserted_all(
                Map::<Seq<u8>, V>::empty(),
                keys,
                values,
            ).contains_key(key)),
    decreases keys.len(),
{
    if keys.len() > 0 {
        let front = keys.drop_last();
        let map = inserted_all(Map::<Seq<u8>, V>::empty(), front, values.drop_last());
        lemma_round_trip(front, values.drop_last());
        assert(!front.contains(keys.last())) by {
            if front.contains(keys.last()) {
                let j = front.index_of(keys.last());
                assert(keys[j] == keys[keys.len() - 1]);
            }
        }
        let whole = inserted_all(Map::<Seq<u8>, V>::empty(), keys, values);
        assert(whole == map.insert(keys.last(), values.last()));
        assert forall|i: int| 0 <= i < keys.len() implies whole.contains_key(#[trigger] keys[i])
            && whole[keys[i]] == values[i] by {
            if i < keys.len() - 1 {
                assert(front[i] == keys[i]);
                assert(values.drop_last()[i] == values[i]);
            }
        }
        assert forall|key: Seq<u8>| !keys.contains(key) implies !whole.contains_key(key) by {
            if front.contains(key) {
                let j = front.index_of(key);
                assert(keys[j] == key);
            }
            assert(key != keys.last());
        }
    }
}

/// Putting in a key that is there changes nothing: the map is the same, and
/// the key keeps the value it had.
pub proof fn lemma_insert_present<V>(map: Map<Seq<u8>, V>, key: Seq<u8>, value: V)
    requires
        map.contains_key(key),
    ensures
        inserted(map, key, value) == map,
        inserted(map, key, value)[key] == map[key],
{
}

/// Keys that share a first part longer than a header stores inline are told
/// apart all the same: each is found with its own value. The keys are those
/// that `insert` takes: none is longer than a header can count.
pub proof fn lemma_long_prefix_round_trip<V>(
    shared: Seq<u8>,
    keys: Seq<Seq<u8>>,
    values: Seq<V>,
)
    requires
        shared.len() > crate::header::PREFIX_LEN,
        forall|i: int| 0 <= i < keys.len() ==> shared.is_prefix_of(#[trigger] keys[i]),
        forall|i: int| 0 <= i < keys.len() ==> (#[trigger] keys[i]).len() <= u32::MAX,
        keys.no_duplicates(),
        keys.len() == values.len(),
    ensures
        forall|i: int|
            0 <= i < keys.len() ==> {
                let map = inserted_all(Map::<Seq<u8>, V>::empty(), keys, values);
                map.contains_key(#[trigger] keys[i]) && map[keys[i]] == values[i]
            },
{
    lemma_round_trip(keys, values);
}

/// A map from keys of type `K` to values of type `V`, kept in an adaptive
/// radix tree under the keys' encodings.
pub struct ART<K, V> {
    root: Node<V>,
    _marker: PhantomData<K>,
}

impl<K, V> View for ART<K, V> {
    type V = Map<Seq<u8>, V>;

    /// The stored values by the encodings of their keys.
    closed spec fn view(&self) -> Map<Seq<u8>, V> {
        Map::new(
            |key: Seq<u8>| self.root.get(key, 0) is Some,
            |key: Seq<u8>| self.root.get(key, 0)->0,
        )
    }
}

/// Why a key was not stored.
pub enum InsertError<V> {
    /// The key is in the map already. The value comes back.
    KeyExists(V),
    /// The key's encoding has more bytes than a header can count. The value
    /// comes back.
    KeyTooLong(V),
}

impl<K: Encodable, V> ART<K, V> {
    /// The tree is in order, from a root that is an inner node.
    pub closed spec fn wf(&self) -> bool {
        self.root.inv(Seq::empty(), 0)
    }

    /// The handle of the root.
    pub closed spec fn top(&self) -> Node<V> {
        self.root
    }

    /// Putting the new key `key` in makes the root grow: the key has a first
    /// byte, the root has no child for that byte, and it is at its capacity.
    pub open spec fn grows_for(&self, key: Seq<u8>) -> bool {
        &&& key.len() > 0
        &&& !self.top().inner().has(key[0])
        &&& self.top().inner().full()
    }

    /// Taking the key `key` out, which is there, makes the root shrink: the
    /// child of the key's first byte is the key's terminal value, and without
    /// it the children fit the next smaller shape.
    pub open spec fn shrinks_for(&self, key: Seq<u8>) -> bool {
        &&& key.len() > 0
        &&& self.top().inner().child(key[0]) is Value
        &&& self.top().inner().count() - 1 <= self.top().inner().smaller()
    }

    /// A terminal value with `key` and `value` stands somewhere in the tree.
    pub closed spec fn stores(&self, key: Seq<u8>, value: V) -> bool {
        self.root.stores(key, value)
    }

    /// The root of a map in order is an inner node, and the tree below it is
    /// in order. The map holds for each key what the descent from the root
    /// finds.
    pub proof fn lemma_top(&self)
        requires
            self.wf(),
        ensures
            self.top() is Inner,
            self.top().inv(Seq::empty(), 0),
            forall|key: Seq<u8>|
                self.top().get(key, 0) == if self@.contains_key(key) {
                    Some(self@[key])
                } else {
                    None
                },
            forall|key: Seq<u8>, value: V| self.top().stores(key, value) == self.stores(key, value),
    {
        Node::lemma_root_is_inner(&self.root);
    }

    /// The map holds what the tree stores: each terminal value in the tree
    /// is found under its key, and nothing else is.
    pub proof fn lemma_stores(&self, key: Seq<u8>, value: V)
        requires
            self.wf(),
        ensures
            self.stores(key, value) <==> self@.contains_key(key) && self@[key] == value,
    {
        self.root.lemma_stores(Seq::empty(), 0, key, value);
    }

    /// Every inner node of a map in order, at the end of any way `way` of
    /// child bytes from the root, has no more children than its capacity.
    /// Below the root it has two entries at least and the smallest shape that
    /// holds its children.
    pub proof fn lemma_everywhere(&self, way: Seq<u8>)
        requires
            self.wf(),
            self.top().descendant(way) is Inner,
        ensures
            self.top().descendant(way).inner().wf(),
            self.top().descendant(way).inner().count() <= self.top().descendant(
                way,
            ).inner().capacity(),
            way.len() > 0 ==> {
                &&& self.top().descendant(way).inner().capacity() == fitting(
                    self.top().descendant(way).inner().count(),
                )
                &&& self.top().descendant(way).inner().entries() >= 2
            },
    {
        self.root.lemma_inv_everywhere(Seq::empty(), 0, way);
    }

    /// No key in the map is longer than a header can count.
    pub proof fn lemma_key_lengths(&self)
        requires
            self.wf(),
        ensures
            forall|key: Seq<u8>| self@.contains_key(key) ==> key.len() <= u32::MAX,
    {
        assert forall|key: Seq<u8>| self@.contains_key(key) implies key.len() <= u32::MAX by {
            self.root.lemma_get_path(Seq::empty(), 0, key);
        }
    }

    /// An empty map. Its root is an inner node of the largest shape.
    pub fn new() -> (map: Self)
        ensures
            map.wf(),
            map@ == Map::<Seq<u8>, V>::empty(),
            map.top() is Inner,
            map.top().inner() is Node256,
            map.top().inner().entries() == 0,
            forall|x: u8| map.top().inner().child(x) is Null,
    {
        let root = Node::new(Either::Left(Inner::largest()));
        proof {
            Node::lemma_fresh_root(&root);
        }
        let map = ART { root, _marker: PhantomData };
        assert(map@ =~= Map::<Seq<u8>, V>::empty());
        map
    }

    /// The handle of the root, to look into the tree.
    pub fn root(&self) -> (root: &Node<V>)
        ensures
            *root == self.top(),
    {
        &self.root
    }

    /// Stores `value` under the encoded key `keys`, unless the key is there
    /// already: the map then stays as it is, no node changes its shape and
    /// the value comes back. The root moves one shape up where it is at its
    /// capacity and takes the key's terminal value as a new child.
    pub fn insert_encoded(&mut self, keys: &Vec<u8>, value: V) -> (r: Result<(), V>)
        requires
            old(self).wf(),
            keys.len() <= u32::MAX,
        ensures
            final(self).wf(),
            final(self)@ == inserted(old(self)@, keys@, value),
            final(self).top().inner().capacity() == if r is Ok && old(self).grows_for(keys@) {
                old(self).top().inner().larger()
            } else {
                old(self).top().inner().capacity()
            },
            final(self).top().root_after_insert(&old(self).top(), keys@, 0, value, r is Ok),
            r is Err ==> forall|way: Seq<u8>|
                final(self).top().kind_at(way) == old(self).top().kind_at(way),
            match r {
                Ok(_) => !old(self)@.contains_key(keys@),
                Err(back) => old(self)@.contains_key(keys@) && back == value,
            },
    {
        proof {
            assert(keys@.take(0) =~= Seq::<u8>::empty());
        }
        let r = self.root.insert_at(keys, 0, value, Ghost(0));
        proof {
            assert(self@ =~= inserted(old(self)@, keys@, value));
        }
        r
    }

    /// The value stored under the encoded key `keys`.
    pub fn lookup_encoded(&self, keys: &Vec<u8>) -> (r: Option<&V>)
        requires
            self.wf(),
        ensures
            match r {
                Some(value) => self@.contains_key(keys@) && self@[keys@] == *value,
                None => !self@.contains_key(keys@),
            },
    {
        self.root.lookup_at(keys, 0, Ghost(Seq::empty()), Ghost(0))
    }

    /// Takes the encoded key `keys` out of the map and hands out the value
    /// that was stored under it. The root moves one shape down where it
    /// loses a child and the children that are left fit the smaller shape.
    /// Where the key is not there, no node changes its shape.
    pub fn remove_encoded(&mut self, keys: &Vec<u8>) -> (r: Result<V, ()>)
        requires
            old(self).wf(),
        ensures
            final(self).wf(),
            final(self)@ == old(self)@.remove(keys@),
            final(self).top().inner().capacity() == if r is Ok && old(self).shrinks_for(keys@) {
                old(self).top().inner().smaller()
            } else {
                old(self).top().inner().capacity()
            },
            final(self).top().root_after_remove(&old(self).top(), keys@, 0, r is Ok),
            r is Err ==> forall|way: Seq<u8>|
                final(self).top().kind_at(way) == old(self).top().kind_at(way),
            match r {
                Ok(value) => old(self)@.contains_key(keys@) && old(self)@[keys@] == value,
                Err(_) => !old(self)@.contains_key(keys@),
            },
    {
        proof {
            Node::lemma_root_is_inner(&self.root);
        }
        let r = self.root.remove_at(keys, 0, true, Ghost(Seq::empty()));
        proof {
            assert(self@ =~= old(self)@.remove(keys@));
        }
        r
    }

    /// Stores `value` under `key`, unless the key is there already: the map
    /// then stays as it is and the value comes back. The key's encoding must
    /// be short enough for a header to count its bytes; `try_insert` takes
    /// any key.
    pub fn insert(&mut self, key: &K, value: V) -> (r: Result<(), V>)
        requires
            old(self).wf(),
            key.encoding().len() <= u32::MAX,
        ensures
            final(self).wf(),
            final(self)@ == inserted(old(self)@, key.encoding(), value),
            final(self).top().inner().capacity() == if r is Ok && old(self).grows_for(
                key.encoding(),
            ) {
                old(self).top().inner().larger()
            } else {
                old(self).top().inner().capacity()
            },
            final(self).top().root_after_insert(
                &old(self).top(),
                key.encoding(),
                0,
                value,
                r is Ok,
            ),
            r is Err ==> forall|way: Seq<u8>|
                final(self).top().kind_at(way) == old(self).top().kind_at(way),
            match r {
                Ok(_) => !old(self)@.contains_key(key.encoding()),
                Err(back) => old(self)@.contains_key(key.encoding()) && back == value,
            },
    {
        let keys = key.encode();
        self.insert_encoded(&keys, value)
    }

    /// Stores `value` under `key`. The map stays as it is and the value comes
    /// back where the key is there already and where its encoding is longer
    /// than a header can count.
    pub fn try_insert(&mut self, key: &K, value: V) -> (r: Result<(), InsertError<V>>)
        requires
            old(self).wf(),
        ensures
            final(self).wf(),
            final(self).top().inner().capacity() == if r is Ok && old(self).grows_for(
                key.encoding(),
            ) {
                old(self).top().inner().larger()
            } else {
                old(self).top().inner().capacity()
            },
            final(self).top().root_after_insert(
                &old(self).top(),
                key.encoding(),
                0,
                value,
                r is Ok,
            ),
            r is Err ==> forall|way: Seq<u8>|
                final(self).top().kind_at(way) == old(self).top().kind_at(way),
            match r {
                Ok(_) => {
                    &&& !old(self)@.contains_key(key.encoding())
                    &&& key.encoding().len() <= u32::MAX
                    &&& final(self)@ == old(self)@.insert(key.encoding(), value)
                },
                Err(InsertError::KeyExists(back)) => {
                    &&& old(self)@.contains_key(key.encoding())
                    &&& back == value
                    &&& final(self)@ == old(self)@
                },
                Err(InsertError::KeyTooLong(back)) => {
                    &&& key.encoding().len() > u32::MAX
                    &&& back == value
                    &&& final(self)@ == old(self)@
                },
            },
    {
        let keys = key.encode();
        if keys.len() > u32::MAX as usize {
            return Err(InsertError::KeyTooLong(value));
        }
        match self.insert_encoded(&keys, value) {
            Ok(_) => Ok(()),
            Err(back) => Err(InsertError::KeyExists(back)),
        }
    }

    /// The value stored under `key`.
    pub fn lookup(&self, key: &K) -> (r: Option<&V>)
        requires
            self.wf(),
        ensures
            match r {
                Some(value) => self@.contains_key(key.encoding()) && self@[key.encoding()]
                    == *value,
                None => !self@.contains_key(key.encoding()),
            },
    {
        let keys = key.encode();
        self.lookup_encoded(&keys)
    }

    /// Takes `key` out of the map and hands out the value that was stored
    /// under it.
    pub fn remove(&mut self, key: &K) -> (r: Result<V, ()>)
        requires
            old(self).wf(),
        ensures
            final(self).wf(),
            final(self)@ == old(self)@.remove(key.encoding()),
            final(self).top().inner().capacity() == if r is Ok && old(self).shrinks_for(
                key.encoding(),
            ) {
                old(self).top().inner().smaller()
            } else {
                old(self).top().inner().capacity()
            },
            final(self).top().root_after_remove(&old(self).top(), key.encoding(), 0, r is Ok),
            r is Err ==> forall|way: Seq<u8>|
                final(self).top().kind_at(way) == old(self).top().kind_at(way),
            match r {
                Ok(value) => old(self)@.contains_key(key.encoding()) && old(self)@[key.encoding()]
                    == value,
                Err(_) => !old(self)@.contains_key(key.encoding()),
            },
    {
        let keys = key.encode();
        self.remove_encoded(&keys)
    }
}

} // verus!
