//! What a subtree holds and where its keys stand, and the descent that looks
//! a key up.

use crate::header::PREFIX_LEN;
use crate::inner::fitting;
use crate::node::{Node, NodeV};
use either::Either;
use vstd::prelude::*;

verus! {

impl<V> Node<V> {
    /// The value that the subtree holds for `key`, for a subtree that is
    /// reached after `depth` bytes of the key.
    ///
    /// An inner node skips its compressed path and lets the next byte of the
    /// key pick the child; a key that ends behind the compressed path is the
    /// node's own. A terminal value counts where its whole key is `key`.
    pub open(crate) spec fn get(&self, key: Seq<u8>, depth: nat) -> Option<V>
        decreases self,
        via Self::get_decreases
    {
        match self {
            Node::Null => None,
            Node::Value(leaf) => if leaf.key_bytes() == key {
                Some(leaf.stored())
            } else {
                None
            },
            Node::Inner(n) => {
                let at = depth + n.path().len();
                if key.len() < at {
                    None
                } else if key.len() == at {
                    match n.own() {
                        Some(leaf) => if leaf.key_bytes() == key {
                            Some(leaf.stored())
                        } else {
                            None
                        },
                        None => None,
                    }
                } else if n.has(key[at as int]) {
                    n.child(key[at as int]).get(key, at + 1)
                } else {
                    None
                }
            },
        }
    }

    #[via_fn]
    proof fn get_decreases(&self, key: Seq<u8>, depth: nat) {
        match self {
            Node::Inner(n) => {
                let at = depth + n.path().len();
                if key.len() > at && n.has(key[at as int]) {
                    n.lemma_child_decreases(key[at as int]);
                }
            },
            _ => {},
        }
    }

    /// The subtree is in order where it stands behind the bytes `path`.
    ///
    /// Every shape's own invariant holds. The key of every terminal value
    /// starts with the bytes that lead to it: `path`, then for each inner node
    /// on the way its compressed path and the byte of the child taken. No key
    /// is longer than a header can count. An inner node has at least `least`
    /// entries, and each inner node below it at least two; with `least` zero
    /// the node is a root, whose compressed path is empty. Every other inner
    /// node has the smallest shape that holds its children.
    pub open(crate) spec fn inv(&self, path: Seq<u8>, least: nat) -> bool
        decreases self,
        via Self::inv_decreases
    {
        match self {
            Node::Null => false,
            Node::Value(leaf) => {
                &&& least > 0
                &&& leaf.key_bytes().len() <= u32::MAX
                &&& path.is_prefix_of(leaf.key_bytes())
            },
            Node::Inner(n) => {
                &&& n.wf()
                &&& n.entries() >= least
                &&& (least == 0 ==> n.path().len() == 0)
                &&& (least > 0 ==> !n.shrinkable())
                &&& (n.own() matches Some(leaf) ==> leaf.key_bytes() == path + n.path()
                    && leaf.key_bytes().len() <= u32::MAX)
                &&& forall|b: u8| #[trigger]
                    n.has(b) ==> n.child(b).inv((path + n.path()).push(b), 2)
            },
        }
    }

    #[via_fn]
    proof fn inv_decreases(&self, path: Seq<u8>, least: nat) {
        match self {
            Node::Inner(n) => {
                assert forall|b: u8| #[trigger] n.has(b) implies decreases_to!(self => n.child(b))
                by {
                    n.lemma_child_decreases(b);
                }
            },
            _ => {},
        }
    }

    /// A terminal value with `key` and `value` stands somewhere in the
    /// subtree: it is the subtree itself, the own value of an inner node, or
    /// it stands beneath one of the node's children.
    pub closed spec fn stores(&self, key: Seq<u8>, value: V) -> bool
        decreases self,
        via Self::stores_decreases
    {
        match self {
            Node::Null => false,
            Node::Value(leaf) => leaf.key_bytes() == key && leaf.stored() == value,
            Node::Inner(n) => {
                ||| (n.own() matches Some(leaf) && leaf.key_bytes() == key && leaf.stored()
                    == value)
                ||| exists|b: u8| #[trigger] n.has(b) && n.child(b).stores(key, value)
            },
        }
    }

    #[via_fn]
    proof fn stores_decreases(&self, key: Seq<u8>, value: V) {
        match self {
            Node::Inner(n) => {
                assert forall|b: u8| #[trigger] n.has(b) implies decreases_to!(self => n.child(b))
                by {
                    n.lemma_child_decreases(b);
                }
            },
            _ => {},
        }
    }

    /// In a subtree that is in order, the descent by the bytes of a key
    /// arrives at every terminal value that the subtree stores, and at
    /// nothing else.
    pub proof fn lemma_stores(&self, path: Seq<u8>, least: nat, key: Seq<u8>, value: V)
        requires
            self.inv(path, least),
        ensures
            self.stores(key, value) <==> self.get(key, path.len()) == Some(value),
        decreases self,
    {
        match self {
            Node::Inner(n) => {
                let below = path + n.path();
                let at = below.len() as int;
                let own = n.own() matches Some(leaf) && leaf.key_bytes() == key && leaf.stored()
                    == value;
                if self.stores(key, value) && !own {
                    let b = choose|b: u8| #[trigger] n.has(b) && n.child(b).stores(key, value);
                    n.lemma_child_decreases(b);
                    n.child(b).lemma_stores(below.push(b), 2, key, value);
                    n.child(b).lemma_get_path(below.push(b), 2, key);
                    assert(key[at] == below.push(b)[at]);
                }
                if self.get(key, path.len()) == Some(value) && key.len() > at {
                    let b = key[at];
                    assert(n.has(b));
                    n.lemma_child_decreases(b);
                    n.child(b).lemma_stores(below.push(b), 2, key, value);
                }
            },
            _ => {},
        }
    }

    /// What being in order says of an inner node. Its children number no
    /// more than its capacity, and it has `least` entries at least. Below the
    /// root it has the smallest shape that holds its children; the root has
    /// the empty compressed path. Its own value has the key that leads to the
    /// node, and each child is in order behind that key and the child's byte.
    pub proof fn lemma_inv_inner(&self, path: Seq<u8>, least: nat)
        requires
            self is Inner,
            self.inv(path, least),
        ensures
            self.inner().wf(),
            self.inner().count() <= self.inner().capacity(),
            self.inner().entries() >= least,
            least > 0 ==> !self.inner().shrinkable(),
            least > 0 ==> self.inner().capacity() == fitting(self.inner().count()),
            least == 0 ==> self.inner().path().len() == 0,
            self.inner().own() matches Some(leaf) ==> leaf.key_bytes() == path
                + self.inner().path(),
            forall|b: u8| #[trigger]
                self.inner().has(b) ==> self.inner().child(b).inv(
                    (path + self.inner().path()).push(b),
                    2,
                ),
    {
        self.inner().lemma_count();
    }

    /// What being in order says of every inner node of the subtree, at the end
    /// of any way `way` of child bytes: its children number no more than its
    /// capacity, and below the root it has two entries at least and the
    /// smallest shape that holds its children.
    pub proof fn lemma_inv_everywhere(&self, path: Seq<u8>, least: nat, way: Seq<u8>)
        requires
            self.inv(path, least),
            self.descendant(way) is Inner,
        ensures
            self.descendant(way).inner().wf(),
            self.descendant(way).inner().count() <= self.descendant(way).inner().capacity(),
            least > 0 || way.len() > 0 ==> {
                &&& self.descendant(way).inner().capacity() == fitting(
                    self.descendant(way).inner().count(),
                )
                &&& self.descendant(way).inner().entries() >= if way.len() > 0 {
                    2
                } else {
                    least
                }
            },
        decreases way.len(),
    {
        if way.len() == 0 {
            self.lemma_inv_inner(path, least);
        } else {
            match self {
                Node::Inner(n) => {
                    let b = way[0];
                    assert(n.has(b)) by {
                        if n.child(b) is Null {
                            assert(n.child(b).descendant(way.skip(1)) is Null);
                        }
                    }
                    n.child(b).lemma_inv_everywhere((path + n.path()).push(b), 2, way.skip(1));
                },
                _ => {},
            }
        }
    }

    /// What being in order says of a terminal value: its key starts with the
    /// bytes that lead to it, and is no longer than a header can count.
    pub proof fn lemma_inv_value(&self, path: Seq<u8>, least: nat)
        requires
            self is Value,
            self.inv(path, least),
        ensures
            path.is_prefix_of(self->Value_0.key_bytes()),
            self->Value_0.key_bytes().len() <= u32::MAX,
    {
    }

    /// A handle that owns an inner node without entries and with the empty
    /// compressed path is a root in order, and holds no key.
    pub(crate) proof fn lemma_fresh_root(root: &Self)
        requires
            root is Inner,
            root.inner().wf(),
            root.inner().path() == Seq::<u8>::empty(),
            root.inner().own() is None,
            forall|x: u8| root.inner().child(x) is Null,
        ensures
            root.inv(Seq::empty(), 0),
            forall|key: Seq<u8>| root.get(key, 0) is None,
    {
    }

    /// A root in order is an inner node.
    pub(crate) proof fn lemma_root_is_inner(root: &Self)
        requires
            root.inv(Seq::empty(), 0),
        ensures
            root is Inner,
    {
    }

    /// A key that the subtree holds starts with the bytes that lead to the
    /// subtree and, at an inner node, with the node's compressed path behind
    /// them. It is no longer than a header can count.
    pub proof fn lemma_get_path(&self, path: Seq<u8>, least: nat, key: Seq<u8>)
        requires
            self.inv(path, least),
            self.get(key, path.len()) is Some,
        ensures
            path.is_prefix_of(key),
            key.len() <= u32::MAX,
            self is Inner ==> (path + self.inner().path()).is_prefix_of(key),
        decreases self,
    {
        match self {
            Node::Inner(n) => {
                let below = path + n.path();
                let at = below.len() as int;
                if key.len() > at {
                    let b = key[at];
                    assert(n.has(b));
                    n.lemma_child_decreases(b);
                    n.child(b).lemma_get_path(below.push(b), 2, key);
                    assert(below =~= key.subrange(0, at)) by {
                        assert(below.push(b) =~= key.subrange(0, at + 1));
                        assert forall|i: int| 0 <= i < at implies below[i] == key[i] by {
                            assert(below.push(b)[i] == below[i]);
                        }
                    }
                }
                assert(path =~= key.subrange(0, path.len() as int)) by {
                    assert(below == key.subrange(0, at));
                    assert forall|i: int| 0 <= i < path.len() implies path[i] == key[i] by {
                        assert(below[i] == path[i]);
                    }
                }
            },
            _ => {},
        }
    }

    /// The terminal value that the first way down leads to: the own value of
    /// the first inner node that has one, on the way that takes the first
    /// child of each inner node. The subtree must be in order behind some
    /// bytes, and an inner node must have an entry.
    pub fn get_any_child(&self) -> (leaf: &NodeV<V>)
        requires
            exists|path: Seq<u8>, least: nat| #[trigger] self.inv(path, least),
            self is Inner ==> self.inner().entries() >= 1,
        ensures
            self.stores(leaf.key_bytes(), leaf.stored()),
    {
        let mut current: &Node<V> = self;
        let ghost (mut way, mut entries) = choose|path: Seq<u8>, least: nat| #[trigger]
            self.inv(path, least);
        loop
            invariant
                current.inv(way, entries),
                current is Inner ==> current.inner().entries() >= 1,
                forall|key: Seq<u8>, value: V|
                    current.stores(key, value) ==> self.stores(key, value),
            decreases current,
        {
            let inner = match current.deref() {
                Either::Right(leaf) => {
                    return leaf;
                },
                Either::Left(inner) => inner,
            };
            match inner.own_value() {
                Some(leaf) => {
                    return leaf;
                },
                None => {},
            }
            let b: u8 = match inner.first_key() {
                Some(b) => b,
                None => vstd::pervasive::unreached(),
            };
            let child = match inner.lookup(b) {
                Some(child) => child,
                None => vstd::pervasive::unreached(),
            };
            proof {
                inner.lemma_child_decreases(b);
                assert(inner.has(b));
                way = (way + inner.path()).push(b);
                entries = 2;
                assert(child.inv(way, entries));
            }
            current = child;
        }
    }

    /// Holds the compressed path of the inner node `node`, which is reached
    /// after `depth` bytes, against `keys`. The answer is `Ok` where the key
    /// goes on with the whole compressed path, and otherwise `Err` with the
    /// depth of the first byte that differs or at which the key has ended.
    ///
    /// The first bytes are read from the header. Those behind the inline part
    /// are read from the key of a terminal value beneath the node: a node
    /// whose compressed path is longer than the inline part must be in order
    /// behind some `depth` bytes.
    pub fn prefix_match(keys: &Vec<u8>, node: &Node<V>, depth: usize) -> (r: Result<(), usize>)
        requires
            node is Inner,
            node.inner().wf(),
            depth <= keys.len(),
            node.inner().path().len() > PREFIX_LEN ==> exists|path: Seq<u8>, least: nat|
                path.len() == depth && #[trigger] node.inv(path, least),
        ensures
            match r {
                Ok(_) => {
                    &&& depth + node.inner().path().len() <= keys.len()
                    &&& keys@.subrange(depth as int, depth + node.inner().path().len())
                        == node.inner().path()
                },
                Err(at) => {
                    &&& depth <= at <= keys.len()
                    &&& at < depth + node.inner().path().len()
                    &&& keys@.subrange(depth as int, at as int) == node.inner().path().take(
                        at - depth,
                    )
                    &&& at < keys.len() ==> keys[at as int] != node.inner().path()[at - depth]
                },
            },
    {
        match node.deref() {
            Either::Left(inner) => {
                let header = inner.header();
                let len: usize = header.len() as usize;
                let matched: usize = header.match_inline(keys, depth);
                if matched < PREFIX_LEN && matched < len {
                    return Err(depth + matched);
                }
                if len <= PREFIX_LEN {
                    assert(inner.path().take(matched as int) =~= inner.path());
                    return Ok(());
                }
                let ghost (path, least) = choose|path: Seq<u8>, least: nat|
                    path.len() == depth && #[trigger] node.inv(path, least);
                let leaf = node.get_any_child();
                let witness = leaf.key();
                proof {
                    node.lemma_stores(path, least, leaf.key_bytes(), leaf.stored());
                    node.lemma_get_path(path, least, leaf.key_bytes());
                }
                let ghost whole = inner.path();
                let mut i: usize = matched;
                while i < len
                    invariant
                        PREFIX_LEN <= i <= len,
                        node is Inner,
                        whole == node.inner().path(),
                        len == whole.len(),
                        depth == path.len(),
                        depth + i <= keys.len(),
                        (path + whole).is_prefix_of(witness@),
                        keys@.subrange(depth as int, depth + i) == whole.take(i as int),
                    decreases len - i,
                {
                    proof {
                        assert(witness@[depth + i] == (path + whole)[depth + i]);
                    }
                    if depth + i >= keys.len() || keys[depth + i] != witness[depth + i] {
                        return Err(depth + i);
                    }
                    proof {
                        assert(keys@.subrange(depth as int, depth + i + 1) =~= whole.take(i + 1));
                    }
                    i += 1;
                }
                assert(whole.take(len as int) =~= whole);
                Ok(())
            },
            Either::Right(_) => vstd::pervasive::unreached(),
        }
    }

    /// Looks `keys` up in the subtree, which is reached after `depth` bytes.
    /// The descent skips each compressed path unread and takes the child of
    /// the next byte; the terminal value it arrives at counts where its whole
    /// key is `keys`.
    pub(crate) fn lookup_at(
        &self,
        keys: &Vec<u8>,
        depth: usize,
        Ghost(path): Ghost<Seq<u8>>,
        Ghost(least): Ghost<nat>,
    ) -> (r: Option<&V>)
        requires
            self.inv(path, least),
            depth == path.len(),
            depth <= keys.len(),
        ensures
            match r {
                Some(value) => self.get(keys@, depth as nat) == Some(*value),
                None => self.get(keys@, depth as nat) is None,
            },
    {
        let mut current: &Node<V> = self;
        let mut reached: usize = depth;
        let ghost mut way = path;
        let ghost mut entries = least;
        loop
            invariant
                current.inv(way, entries),
                reached == way.len(),
                reached <= keys.len(),
                self.get(keys@, depth as nat) == current.get(keys@, reached as nat),
            decreases keys.len() - reached,
        {
            match current.deref() {
                Either::Right(leaf) => {
                    return if leaf.has_key(keys) {
                        Some(leaf.value())
                    } else {
                        None
                    };
                },
                Either::Left(inner) => {
                    let len: usize = inner.header().len() as usize;
                    if keys.len() - reached < len {
                        return None;
                    }
                    let at: usize = reached + len;
                    if keys.len() == at {
                        return match inner.own_value() {
                            Some(leaf) => if leaf.has_key(keys) {
                                Some(leaf.value())
                            } else {
                                None
                            },
                            None => None,
                        };
                    }
                    match inner.lookup(keys[at]) {
                        Some(child) => {
                            proof {
                                way = (way + inner.path()).push(keys[at as int]);
                                entries = 2;
                            }
                            current = child;
                            reached = at + 1;
                        },
                        None => {
                            return None;
                        },
                    }
                },
            }
        }
    }

    /// The same inner node with another compressed path holds the same value
    /// for every key, where both stand at depths that end their paths at the
    /// same byte.
    pub(crate) proof fn lemma_get_moved(&self, to: &Self, depth: nat, to_depth: nat, key: Seq<u8>)
        requires
            self is Inner,
            to is Inner,
            to.inner().own() == self.inner().own(),
            forall|x: u8| to.inner().child(x) == self.inner().child(x),
            depth + self.inner().path().len() == to_depth + to.inner().path().len(),
        ensures
            to.get(key, to_depth) == self.get(key, depth),
    {
    }

    /// The same inner node with another compressed path is in order where the
    /// bytes that lead to it and its path give the same bytes as before.
    pub(crate) proof fn lemma_inv_moved(
        &self,
        to: &Self,
        path: Seq<u8>,
        to_path: Seq<u8>,
        least: nat,
    )
        requires
            self is Inner,
            to is Inner,
            self.inv(path, least),
            least >= 1,
            to.inner().wf(),
            to.inner().capacity() == self.inner().capacity(),
            to.inner().own() == self.inner().own(),
            to.inner().count() == self.inner().count(),
            forall|x: u8| to.inner().child(x) == self.inner().child(x),
            path + self.inner().path() == to_path + to.inner().path(),
        ensures
            to.inv(to_path, least),
    {
        let n = self.inner();
        let m = to.inner();
        assert forall|b: u8| #[trigger] m.has(b) implies m.child(b).inv(
            (to_path + m.path()).push(b),
            2,
        ) by {
            assert(n.has(b));
        }
    }

    /// The depth of the byte that picks a child of the inner node that the
    /// handle owns, which is reached after `depth` bytes.
    pub(crate) open spec fn fork(&self, depth: nat) -> int {
        (depth + self.inner().path().len()) as int
    }

    /// The key goes on with the whole compressed path of the inner node that
    /// the handle owns, which is reached after `depth` bytes.
    pub(crate) open spec fn follows(&self, key: Seq<u8>, depth: nat) -> bool {
        &&& self is Inner
        &&& self.fork(depth) <= key.len()
        &&& key.subrange(depth as int, self.fork(depth)) == self.inner().path()
    }

    /// What putting `key` in does to a root, `before` the call and after it,
    /// where the root is reached after `depth` bytes and `done` says that
    /// the key was put in. An empty rest of the key becomes the root's own
    /// value. A first byte without a child gets the key's terminal value as
    /// its child, and a root at its capacity moves one shape up for it.
    /// Everything else about the root stays: what happens below a child
    /// leaves the root's shape, its number of children and its other children
    /// as they are.
    pub open spec fn root_after_insert(
        &self,
        before: &Self,
        key: Seq<u8>,
        depth: nat,
        value: V,
        done: bool,
    ) -> bool {
        let n = before.inner();
        let m = self.inner();
        &&& self is Inner
        &&& m.path() == n.path()
        &&& if key.len() <= depth {
            &&& m.capacity() == n.capacity()
            &&& m.count() == n.count()
            &&& forall|x: u8| m.child(x) == n.child(x)
            &&& if done {
                m.own() matches Some(leaf) && leaf.key_bytes() == key && leaf.stored() == value
            } else {
                m.own() == n.own()
            }
        } else {
            let b = key[depth as int];
            &&& m.own() == n.own()
            &&& forall|x: u8| x != b ==> m.child(x) == n.child(x)
            &&& if done && !n.has(b) {
                &&& m.capacity() == if n.full() {
                    n.larger()
                } else {
                    n.capacity()
                }
                &&& m.count() == n.count() + 1
                &&& m.child(b) matches Node::Value(leaf) && leaf.key_bytes() == key
                    && leaf.stored() == value
            } else {
                &&& m.capacity() == n.capacity()
                &&& m.count() == n.count()
                &&& m.has(b) == n.has(b)
            }
        }
    }

    /// What taking `key` out does to a root, `before` the call and after it,
    /// where the root is reached after `depth` bytes and `done` says that
    /// the key was there. An empty rest of the key was the root's own value.
    /// A first byte whose child was the key's terminal value loses its child,
    /// and the root moves one shape down where the children that are left
    /// fit the smaller shape. Everything else about the root stays.
    pub open spec fn root_after_remove(
        &self,
        before: &Self,
        key: Seq<u8>,
        depth: nat,
        done: bool,
    ) -> bool {
        let n = before.inner();
        let m = self.inner();
        &&& self is Inner
        &&& m.path() == n.path()
        &&& if key.len() <= depth {
            &&& m.capacity() == n.capacity()
            &&& m.count() == n.count()
            &&& forall|x: u8| m.child(x) == n.child(x)
            &&& if done {
                m.own() is None
            } else {
                m.own() == n.own()
            }
        } else {
            let b = key[depth as int];
            &&& m.own() == n.own()
            &&& forall|x: u8| x != b ==> m.child(x) == n.child(x)
            &&& if done && n.child(b) is Value {
                &&& m.capacity() == if n.count() - 1 <= n.smaller() {
                    n.smaller()
                } else {
                    n.capacity()
                }
                &&& m.count() == n.count() - 1
                &&& m.child(b) is Null
            } else {
                &&& m.capacity() == n.capacity()
                &&& m.count() == n.count()
                &&& m.has(b) == n.has(b)
            }
        }
    }

    /// What a change beneath one child does to a subtree. The inner node
    /// `after` is `before` with the child of `b` replaced by a subtree that
    /// is in order at the child's place. Then `after` is in order where
    /// `before` was. A key that takes the way of `b` is held as the new
    /// child holds it, and every other key as before.
    pub(crate) proof fn lemma_child_changed(
        before: &Self,
        after: &Self,
        path: Seq<u8>,
        least: nat,
        b: u8,
    )
        requires
            before is Inner,
            after is Inner,
            before.inv(path, least),
            before.inner().has(b),
            after.inner().wf(),
            after.inner().capacity() == before.inner().capacity(),
            after.inner().path() == before.inner().path(),
            after.inner().own() == before.inner().own(),
            after.inner().count() == before.inner().count(),
            forall|x: u8| x != b ==> after.inner().child(x) == before.inner().child(x),
            after.inner().child(b).inv((path + before.inner().path()).push(b), 2),
        ensures
            after.inv(path, least),
            forall|k: Seq<u8>|
                after.get(k, path.len()) == if k.len() > before.fork(path.len()) && k[before.fork(
                    path.len(),
                )] == b {
                    after.inner().child(b).get(k, (before.fork(path.len()) + 1) as nat)
                } else {
                    before.get(k, path.len())
                },
            forall|k: Seq<u8>|
                k.len() > before.fork(path.len()) && k[before.fork(path.len())] == b
                    ==> before.get(k, path.len()) == before.inner().child(b).get(
                    k,
                    (before.fork(path.len()) + 1) as nat,
                ),
            (forall|way: Seq<u8>|
                after.inner().child(b).kind_at(way) == before.inner().child(b).kind_at(way))
                ==> forall|way: Seq<u8>| after.kind_at(way) == before.kind_at(way),
    {
        let n = before.inner();
        let m = after.inner();
        let at = (path.len() + n.path().len()) as int;
        if forall|way: Seq<u8>| m.child(b).kind_at(way) == n.child(b).kind_at(way) {
            assert forall|way: Seq<u8>| after.kind_at(way) == before.kind_at(way) by {
                if way.len() == 0 {
                    assert(m.capacity() == n.capacity());
                    assert(after.kind() == before.kind());
                } else if way[0] != b {
                    assert(m.child(way[0]) == n.child(way[0]));
                } else {
                    assert(m.child(b).kind_at(way.skip(1)) == n.child(b).kind_at(way.skip(1)));
                }
            }
        }
        assert forall|x: u8| #[trigger] m.has(x) implies m.child(x).inv(
            (path + m.path()).push(x),
            2,
        ) by {
            if x != b {
                assert(n.has(x));
            }
        }
        assert forall|k: Seq<u8>|
            after.get(k, path.len()) == if k.len() > at && k[at] == b {
                m.child(b).get(k, (at + 1) as nat)
            } else {
                before.get(k, path.len())
            } by {
            if k.len() > at && k[at] != b {
                assert(m.child(k[at]) == n.child(k[at]));
            }
        }
    }
}

} // verus!
