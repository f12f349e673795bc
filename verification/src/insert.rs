//! Putting a key in: the descent to the node where the key belongs, and
//! the split of a terminal value or of a compressed path that the key leaves.

use crate::header::NodeHeader;
use crate::inner::Inner;
use crate::node::{Node, NodeV};
use either::Either;
use vstd::prelude::*;

verus! {

/// What putting a key in has to do at the node that the descent has reached.
enum Step {
    /// The key is there already.
    Found,
    /// The node is a terminal value with another key.
    SplitLeaf,
    /// The key leaves the node's compressed path at this depth.
    SplitPrefix(usize),
    /// The key ends behind the node's compressed path.
    Own,
    /// The byte at this depth has a child: the descent goes on there.
    Descend(usize),
    /// The byte at this depth has no child yet.
    Child(usize),
}

impl<V> Node<V> {
    /// Stores the terminal value `leaf` in `inner`, whose children are picked
    /// by the byte at depth `at`: as the node's own value where the key ends
    /// there, else as the child of the key's byte at `at`.
    fn attach(inner: &mut Inner<V>, leaf: Box<NodeV<V>>, at: usize)
        requires
            old(inner).wf(),
            !old(inner).full(),
            at <= leaf.key_bytes().len(),
            leaf.key_bytes().len() == at ==> old(inner).own() is None,
            leaf.key_bytes().len() > at ==> !old(inner).has(leaf.key_bytes()[at as int]),
        ensures
            final(inner).wf(),
            final(inner).capacity() == old(inner).capacity(),
            final(inner).path() == old(inner).path(),
            final(inner).entries() == old(inner).entries() + 1,
            leaf.key_bytes().len() == at ==> {
                &&& final(inner).own() == Some(*leaf)
                &&& forall|x: u8| final(inner).child(x) == old(inner).child(x)
            },
            leaf.key_bytes().len() > at ==> {
                &&& final(inner).own() == old(inner).own()
                &&& final(inner).child(leaf.key_bytes()[at as int]) == Node::Value(leaf)
                &&& forall|x: u8|
                    x != leaf.key_bytes()[at as int] ==> final(inner).child(x) == old(inner).child(
                        x,
                    )
            },
    {
        if leaf.key().len() == at {
            let _ = inner.set_own(Some(leaf));
        } else {
            let b: u8 = leaf.key()[at];
            let _ = inner.insert(b, Node::Value(leaf));
        }
    }

    /// Puts `keys` with `value` beside the terminal value that `node` owns,
    /// whose key is another one: a new inner node of the smallest shape takes
    /// the place of the terminal value. Its compressed path is what the two
    /// keys share from `depth` on, and it holds both terminal values.
    fn split_leaf(node: &mut Node<V>, keys: &Vec<u8>, depth: usize, value: V)
        requires
            *old(node) is Value,
            old(node).inv(keys@.take(depth as int), 2),
            old(node).get(keys@, depth as nat) is None,
            depth <= keys.len() <= u32::MAX,
        ensures
            final(node).inv(keys@.take(depth as int), 2),
            forall|k: Seq<u8>|
                final(node).get(k, depth as nat) == if k == keys@ {
                    Some(value)
                } else {
                    old(node).get(k, depth as nat)
                },
    {
        let ghost path = keys@.take(depth as int);
        let mut taken = Node::Null;
        core::mem::swap(node, &mut taken);
        match taken {
            Node::Value(leaf) => {
                let other = leaf.key();
                let mut shared: usize = 0;
                while depth + shared < other.len() && depth + shared < keys.len() && other[depth
                    + shared] == keys[depth + shared]
                    invariant
                        depth + shared <= other.len(),
                        depth + shared <= keys.len(),
                        keys.len() <= u32::MAX,
                        forall|i: int| depth <= i < depth + shared ==> other[i] == keys[i],
                    decreases keys.len() - depth - shared,
                {
                    shared += 1;
                }
                let at: usize = depth + shared;
                let ghost old_key = leaf.key_bytes();
                let ghost old_value = leaf.stored();
                proof {
                    assert(path.is_prefix_of(old_key));
                    assert forall|i: int| 0 <= i < at implies old_key[i] == keys[i] by {
                        if i < depth {
                            assert(path[i] == old_key[i]);
                        }
                    }
                    if old_key.len() == at && keys.len() == at {
                        assert(old_key =~= keys@);
                    }
                }
                let mut inner = Inner::smallest(NodeHeader::from_key(keys, depth, shared as u32));
                Self::attach(&mut inner, leaf, at);
                let fresh = Box::new(NodeV::new(vstd::slice::slice_to_vec(keys.as_slice()), value));
                Self::attach(&mut inner, fresh, at);
                *node = Node::new(Either::Left(inner));
                proof {
                    let below = path + inner.path();
                    let old_node = Node::Value(leaf);
                    let new_node = Node::Value(fresh);
                    assert(node.inner() == inner);
                    assert(below =~= keys@.take(at as int));
                    assert(below =~= old_key.take(at as int));
                    if old_key.len() == at {
                        assert(old_key =~= below);
                    } else {
                        assert(below.push(old_key[at as int]) =~= old_key.take(at + 1));
                        assert(old_node.inv(below.push(old_key[at as int]), 2));
                    }
                    if keys.len() == at {
                        assert(keys@ =~= below);
                    } else {
                        assert(below.push(keys[at as int]) =~= keys@.take(at + 1));
                        assert(new_node.inv(below.push(keys[at as int]), 2));
                    }
                    assert forall|b: u8| #[trigger] inner.has(b) implies inner.child(b).inv(
                        below.push(b),
                        2,
                    ) by {
                        if old_key.len() > at && b == old_key[at as int] {
                            assert(inner.child(b) == old_node);
                        } else {
                            assert(keys.len() > at && b == keys[at as int]);
                            assert(inner.child(b) == new_node);
                        }
                    }
                    assert(node.inv(path, 2));
                    assert forall|k: Seq<u8>|
                        node.get(k, depth as nat) == if k == keys@ {
                            Some(value)
                        } else {
                            old(node).get(k, depth as nat)
                        } by {
                        assert(old(node).get(k, depth as nat) == if k == old_key {
                            Some(old_value)
                        } else {
                            None
                        });
                        if k.len() > at {
                            let b = k[at as int];
                            assert(old_node.get(k, (at + 1) as nat) == if k == old_key {
                                Some(old_value)
                            } else {
                                None
                            });
                            assert(new_node.get(k, (at + 1) as nat) == if k == keys@ {
                                Some(value)
                            } else {
                                None
                            });
                            if old_key.len() > at && b == old_key[at as int] {
                                assert(inner.child(b) == old_node);
                                assert(k != keys@);
                            } else if keys.len() > at && b == keys[at as int] {
                                assert(inner.child(b) == new_node);
                                assert(k != old_key);
                            } else {
                                assert(inner.child(b) is Null);
                                assert(k != keys@);
                                assert(k != old_key);
                            }
                        }
                    }
                }
            },
            _ => vstd::pervasive::unreached(),
        }
    }

    /// Puts `keys` with `value` beside the inner node that `node` owns, whose
    /// compressed path the key leaves at depth `at`: a new inner node of the
    /// smallest shape takes the place of the old one. Its compressed path is
    /// the part that the key follows. The old node keeps what comes behind
    /// the byte at which the key leaves, and becomes the child of that byte.
    fn split_prefix(node: &mut Node<V>, keys: &Vec<u8>, depth: usize, at: usize, value: V)
        requires
            *old(node) is Inner,
            old(node).inv(keys@.take(depth as int), 2),
            depth <= at <= keys.len() <= u32::MAX,
            at < depth + old(node).inner().path().len(),
            keys@.subrange(depth as int, at as int) == old(node).inner().path().take(at - depth),
            at < keys.len() ==> keys[at as int] != old(node).inner().path()[at - depth],
        ensures
            final(node).inv(keys@.take(depth as int), 2),
            old(node).get(keys@, depth as nat) is None,
            forall|k: Seq<u8>|
                final(node).get(k, depth as nat) == if k == keys@ {
                    Some(value)
                } else {
                    old(node).get(k, depth as nat)
                },
    {
        let ghost path = keys@.take(depth as int);
        let ghost whole = old(node).inner().path();
        let leaf = node.get_any_child();
        let witness = leaf.key();
        proof {
            node.lemma_stores(path, 2, leaf.key_bytes(), leaf.stored());
            node.lemma_get_path(path, 2, leaf.key_bytes());
            assert(witness@[at as int] == (path + whole)[at as int]);
        }
        let edge: u8 = witness[at];
        let len: usize = match node.deref() {
            Either::Left(inner) => inner.header().len() as usize,
            Either::Right(_) => vstd::pervasive::unreached(),
        };
        let rest: usize = len - (at - depth) - 1;
        let header = NodeHeader::from_key(witness, at + 1, rest as u32);
        proof {
            assert(header.path() =~= whole.skip(at - depth + 1)) by {
                assert forall|j: int| at < j <= at + rest implies #[trigger] witness@[j] == whole[j
                    - depth] by {
                    assert(witness@[j] == (path + whole)[j]);
                }
            }
        }
        let mut taken = Node::Null;
        core::mem::swap(node, &mut taken);
        match taken.deref_mut() {
            Either::Left(inner) => inner.set_header(header),
            Either::Right(_) => vstd::pervasive::unreached(),
        }
        let mut parent = Inner::smallest(NodeHeader::from_key(keys, depth, (at - depth) as u32));
        let ghost moved = taken;
        let _ = parent.insert(edge, taken);
        let fresh = Box::new(NodeV::new(vstd::slice::slice_to_vec(keys.as_slice()), value));
        Self::attach(&mut parent, fresh, at);
        *node = Node::new(Either::Left(parent));
        proof {
            let below = path + parent.path();
            let new_node = Node::Value(fresh);
            assert(node.inner() == parent);
            assert(below =~= keys@.take(at as int));
            assert(parent.path() =~= whole.take(at - depth));
            assert(below.push(edge) + moved.inner().path() =~= path + whole);
            old(node).lemma_inv_moved(&moved, path, below.push(edge), 2);
            if keys.len() == at {
                assert(keys@ =~= below);
            } else {
                assert(below.push(keys[at as int]) =~= keys@.take(at + 1));
                assert(new_node.inv(below.push(keys[at as int]), 2));
            }
            assert forall|b: u8| #[trigger] parent.has(b) implies parent.child(b).inv(
                below.push(b),
                2,
            ) by {
                if b == edge {
                    assert(parent.child(b) == moved);
                } else {
                    assert(keys.len() > at && b == keys[at as int]);
                    assert(parent.child(b) == new_node);
                }
            }
            assert(node.inv(path, 2));
            if old(node).get(keys@, depth as nat) is Some {
                old(node).lemma_get_path(path, 2, keys@);
                assert(keys@[at as int] == (path + whole)[at as int]);
            }
            assert forall|k: Seq<u8>|
                node.get(k, depth as nat) == if k == keys@ {
                    Some(value)
                } else {
                    old(node).get(k, depth as nat)
                } by {
                if old(node).get(k, depth as nat) is Some {
                    old(node).lemma_get_path(path, 2, k);
                    assert(k[at as int] == (path + whole)[at as int]);
                }
                if k.len() > at {
                    let b = k[at as int];
                    old(node).lemma_get_moved(&moved, depth as nat, (at + 1) as nat, k);
                    assert(new_node.get(k, (at + 1) as nat) == if k == keys@ {
                        Some(value)
                    } else {
                        None
                    });
                    if b == edge {
                        assert(parent.child(b) == moved);
                        assert(k != keys@);
                    } else if keys.len() > at && b == keys[at as int] {
                        assert(parent.child(b) == new_node);
                    } else {
                        assert(parent.child(b) is Null);
                        assert(k != keys@);
                    }
                }
            }
        }
    }

    /// What putting `keys` in has to do at this node, which is reached after
    /// `depth` bytes of the key.
    fn plan_insert(&self, keys: &Vec<u8>, depth: usize, Ghost(least): Ghost<nat>) -> (step: Step)
        requires
            self.inv(keys@.take(depth as int), least),
            depth <= keys.len(),
        ensures
            match step {
                Step::Found => self.get(keys@, depth as nat) is Some,
                Step::SplitLeaf => self is Value && self.get(keys@, depth as nat) is None,
                Step::SplitPrefix(at) => {
                    &&& self is Inner
                    &&& depth <= at <= keys.len()
                    &&& at < depth + self.inner().path().len()
                    &&& keys@.subrange(depth as int, at as int) == self.inner().path().take(
                        at - depth,
                    )
                    &&& at < keys.len() ==> keys[at as int] != self.inner().path()[at - depth]
                },
                Step::Own => {
                    &&& self.follows(keys@, depth as nat)
                    &&& keys.len() == depth + self.inner().path().len()
                    &&& self.inner().own() is None
                },
                Step::Descend(at) => {
                    &&& self.follows(keys@, depth as nat)
                    &&& at == depth + self.inner().path().len()
                    &&& at < keys.len()
                    &&& self.inner().has(keys[at as int])
                },
                Step::Child(at) => {
                    &&& self.follows(keys@, depth as nat)
                    &&& at == depth + self.inner().path().len()
                    &&& at < keys.len()
                    &&& !self.inner().has(keys[at as int])
                },
            },
    {
        let ghost path = keys@.take(depth as int);
        match self.deref() {
            Either::Right(leaf) => if leaf.has_key(keys) {
                Step::Found
            } else {
                Step::SplitLeaf
            },
            Either::Left(inner) => match Self::prefix_match(keys, self, depth) {
                Err(at) => Step::SplitPrefix(at),
                Ok(_) => {
                    let at: usize = depth + inner.header().len() as usize;
                    if keys.len() == at {
                        if inner.own_value().is_some() {
                            proof {
                                assert(keys@ =~= path + inner.path());
                            }
                            Step::Found
                        } else {
                            Step::Own
                        }
                    } else if inner.lookup(keys[at]).is_some() {
                        Step::Descend(at)
                    } else {
                        Step::Child(at)
                    }
                },
            },
        }
    }

    /// Stores `keys` with `value` as the own value of the inner node that
    /// `node` owns, behind whose compressed path the key ends.
    fn put_own(node: &mut Node<V>, keys: &Vec<u8>, depth: usize, value: V, Ghost(least): Ghost<nat>)
        requires
            old(node).inv(keys@.take(depth as int), least),
            old(node).follows(keys@, depth as nat),
            keys.len() == depth + old(node).inner().path().len(),
            old(node).inner().own() is None,
            keys.len() <= u32::MAX,
        ensures
            final(node).inv(keys@.take(depth as int), least),
            *final(node) is Inner,
            final(node).inner().capacity() == old(node).inner().capacity(),
            final(node).inner().path() == old(node).inner().path(),
            final(node).inner().count() == old(node).inner().count(),
            forall|x: u8| final(node).inner().child(x) == old(node).inner().child(x),
            final(node).inner().own() matches Some(leaf) && leaf.key_bytes() == keys@
                && leaf.stored() == value,
            old(node).get(keys@, depth as nat) is None,
            forall|k: Seq<u8>|
                final(node).get(k, depth as nat) == if k == keys@ {
                    Some(value)
                } else {
                    old(node).get(k, depth as nat)
                },
    {
        let ghost path = keys@.take(depth as int);
        let ghost before = old(node).inner();
        let fresh = Box::new(NodeV::new(vstd::slice::slice_to_vec(keys.as_slice()), value));
        match node.deref_mut() {
            Either::Left(inner) => {
                let _ = inner.set_own(Some(fresh));
                proof {
                    assert(keys@ =~= path + before.path());
                    assert forall|b: u8| #[trigger] inner.has(b) implies inner.child(b).inv(
                        (path + inner.path()).push(b),
                        2,
                    ) by {
                        assert(before.has(b));
                    }
                }
            },
            Either::Right(_) => vstd::pervasive::unreached(),
        }
    }

    /// Stores `keys` with `value` as a new child of the inner node that
    /// `node` owns, under the key's byte at depth `at`, which has no child
    /// yet. A node at its capacity moves one shape up first.
    fn put_child(
        node: &mut Node<V>,
        keys: &Vec<u8>,
        depth: usize,
        at: usize,
        value: V,
        Ghost(least): Ghost<nat>,
    )
        requires
            old(node).inv(keys@.take(depth as int), least),
            old(node).follows(keys@, depth as nat),
            at == depth + old(node).inner().path().len(),
            at < keys.len() <= u32::MAX,
            !old(node).inner().has(keys[at as int]),
        ensures
            final(node).inv(keys@.take(depth as int), least),
            *final(node) is Inner,
            final(node).inner().capacity() == if old(node).inner().full() {
                old(node).inner().larger()
            } else {
                old(node).inner().capacity()
            },
            final(node).inner().path() == old(node).inner().path(),
            final(node).inner().own() == old(node).inner().own(),
            final(node).inner().count() == old(node).inner().count() + 1,
            forall|x: u8|
                x != keys[at as int] ==> final(node).inner().child(x) == old(node).inner().child(
                    x,
                ),
            final(node).inner().child(keys[at as int]) matches Node::Value(leaf)
                && leaf.key_bytes() == keys@ && leaf.stored() == value,
            old(node).get(keys@, depth as nat) is None,
            forall|k: Seq<u8>|
                final(node).get(k, depth as nat) == if k == keys@ {
                    Some(value)
                } else {
                    old(node).get(k, depth as nat)
                },
    {
        let ghost path = keys@.take(depth as int);
        let ghost before = old(node).inner();
        let ghost below = path + before.path();
        let ghost b = keys[at as int];
        let fresh = NodeV::new(vstd::slice::slice_to_vec(keys.as_slice()), value);
        let leaf = Node::new(Either::Right(fresh));
        let _ = node.insert_child(keys[at], leaf);
        proof {
            let after = node.inner();
            assert(below =~= keys@.take(at as int));
            assert(below.push(b) =~= keys@.take(at + 1));
            assert(leaf.inv(below.push(b), 2));
            assert forall|x: u8| #[trigger] after.has(x) implies after.child(x).inv(
                (path + after.path()).push(x),
                2,
            ) by {
                if x != b {
                    assert(before.has(x));
                }
            }
            assert forall|k: Seq<u8>|
                node.get(k, depth as nat) == if k == keys@ {
                    Some(value)
                } else {
                    old(node).get(k, depth as nat)
                } by {
                if k.len() > at {
                    let x = k[at as int];
                    assert(leaf.get(k, (at + 1) as nat) == if k == keys@ {
                        Some(value)
                    } else {
                        None
                    });
                    if x != b {
                        assert(after.child(x) == before.child(x));
                        assert(k != keys@);
                    }
                }
            }
        }
    }

    /// Puts `keys` with `value` into the subtree, which is reached after
    /// `depth` bytes of the key, unless the key is there already: the value
    /// then comes back, the subtree holds what it held and no node has
    /// changed its shape. A root moves one shape up where it is at its
    /// capacity and takes a new child, and keeps its shape otherwise.
    pub(crate) fn insert_at(
        &mut self,
        keys: &Vec<u8>,
        depth: usize,
        value: V,
        Ghost(least): Ghost<nat>,
    ) -> (r: Result<(), V>)
        requires
            old(self).inv(keys@.take(depth as int), least),
            least == 0 || least == 2,
            depth <= keys.len() <= u32::MAX,
        ensures
            final(self).inv(keys@.take(depth as int), least),
            least == 0 ==> final(self).root_after_insert(
                old(self),
                keys@,
                depth as nat,
                value,
                r is Ok,
            ),
            match r {
                Ok(_) => {
                    &&& old(self).get(keys@, depth as nat) is None
                    &&& forall|k: Seq<u8>|
                        final(self).get(k, depth as nat) == if k == keys@ {
                            Some(value)
                        } else {
                            old(self).get(k, depth as nat)
                        }
                },
                Err(back) => {
                    &&& back == value
                    &&& old(self).get(keys@, depth as nat) is Some
                    &&& forall|k: Seq<u8>|
                        final(self).get(k, depth as nat) == old(self).get(k, depth as nat)
                    &&& forall|way: Seq<u8>| final(self).kind_at(way) == old(self).kind_at(way)
                },
            },
        decreases *old(self),
    {
        let ghost path = keys@.take(depth as int);
        match self.plan_insert(keys, depth, Ghost(least)) {
            Step::Found => Err(value),
            Step::SplitLeaf => {
                Self::split_leaf(self, keys, depth, value);
                Ok(())
            },
            Step::SplitPrefix(at) => {
                Self::split_prefix(self, keys, depth, at, value);
                Ok(())
            },
            Step::Own => {
                Self::put_own(self, keys, depth, value, Ghost(least));
                Ok(())
            },
            Step::Child(at) => {
                Self::put_child(self, keys, depth, at, value, Ghost(least));
                Ok(())
            },
            Step::Descend(at) => {
                match self.deref_mut() {
                    Either::Left(inner) => {
                        let ghost before = *inner;
                        let ghost below = path + before.path();
                        let ghost b = keys[at as int];
                        match inner.lookup_mut(keys[at]) {
                            Some(child) => {
                                let ghost start = *child;
                                proof {
                                    before.lemma_child_decreases(b);
                                    assert(below =~= keys@.take(at as int));
                                    assert(below.push(b) =~= keys@.take(at + 1));
                                }
                                let r = child.insert_at(keys, at + 1, value, Ghost(2));
                                proof {
                                    inner.lemma_same_but(&before, b, *child);
                                    Self::lemma_child_changed(
                                        old(self),
                                        self,
                                        path,
                                        least,
                                        b,
                                    );
                                }
                                r
                            },
                            None => vstd::pervasive::unreached(),
                        }
                    },
                    Either::Right(_) => vstd::pervasive::unreached(),
                }
            },
        }
    }
}

} // verus!
