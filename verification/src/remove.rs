//! Taking a key out: the descent to the key's terminal value, the step down
//! of the node that loses a child, and the merge of a node with its last
//! entry.

use crate::header::NodeHeader;
use crate::inner::Inner;
use crate::node::Node;
use either::Either;
use vstd::prelude::*;

verus! {

/// What taking a key out has to do at the inner node that the descent has
/// reached.
enum Cut {
    /// The key is not there.
    Missing,
    /// The key is the node's own.
    Own,
    /// The child of the byte at this depth is the key's terminal value.
    Leaf(usize),
    /// The child of the byte at this depth is an inner node: the descent
    /// goes on there.
    Descend(usize),
}

impl<V> Node<V> {
    /// Restores the rule that an inner node below the root has two entries
    /// at least, after one entry has left the inner node that `node` owns.
    ///
    /// A node left with its own value alone gives way to that terminal
    /// value. A node left with one child gives way to the child; where the
    /// child is an inner node, its compressed path grows at the front by the
    /// path of the node that leaves and by the child's byte. The root stays
    /// as it is.
    fn merge(node: &mut Node<V>, depth: usize, root: bool, Ghost(path): Ghost<Seq<u8>>)
        requires
            *old(node) is Inner,
            old(node).inv(path, if root { 0nat } else { 1nat }),
            depth == path.len(),
        ensures
            final(node).inv(path, if root { 0nat } else { 2nat }),
            root ==> *final(node) == *old(node),
            forall|k: Seq<u8>| final(node).get(k, depth as nat) == old(node).get(k, depth as nat),
    {
        if root {
            return;
        }
        let ghost before = old(node).inner();
        let ghost below = path + before.path();
        let (count, own, len) = match node.deref() {
            Either::Left(inner) => (
                inner.len(),
                inner.own_value().is_some(),
                inner.header().len() as usize,
            ),
            Either::Right(_) => vstd::pervasive::unreached(),
        };
        if count >= 2 || (count == 1 && own) {
            return;
        }
        proof {
            before.lemma_count();
        }
        let mut taken = Node::Null;
        core::mem::swap(node, &mut taken);
        match taken {
            Node::Inner(boxed) => {
                let mut inner = *boxed;
                if own {
                    match inner.set_own(None) {
                        Some(leaf) => {
                            *node = Node::Value(leaf);
                            proof {
                                assert(leaf.key_bytes() =~= below);
                                assert forall|k: Seq<u8>|
                                    node.get(k, depth as nat) == old(node).get(k, depth as nat) by {
                                    if k.len() > below.len() {
                                        assert(before.child(k[below.len() as int]) is Null);
                                    }
                                }
                            }
                        },
                        None => vstd::pervasive::unreached(),
                    }
                } else {
                    match inner.first_key() {
                        Some(b) => {
                            match inner.remove(b) {
                                Ok(child) => {
                                    proof {
                                        inner.lemma_count();
                                        assert(before.has(b));
                                        assert(child.inv(below.push(b), 2));
                                    }
                                    Self::lift(
                                        node,
                                        child,
                                        depth,
                                        len,
                                        Ghost(before),
                                        Ghost(b),
                                        Ghost(path),
                                    );
                                },
                                Err(_) => vstd::pervasive::unreached(),
                            }
                        },
                        None => vstd::pervasive::unreached(),
                    }
                }
            },
            _ => vstd::pervasive::unreached(),
        }
    }

    /// Puts `child`, the one child of an inner node without a value of its
    /// own, in the place of that node, which stood at `depth` with a
    /// compressed path of `len` bytes.
    fn lift(
        node: &mut Node<V>,
        child: Node<V>,
        depth: usize,
        len: usize,
        Ghost(before): Ghost<Inner<V>>,
        Ghost(b): Ghost<u8>,
        Ghost(path): Ghost<Seq<u8>>,
    )
        requires
            depth == path.len(),
            len == before.path().len(),
            before.own() is None,
            before.child(b) == child,
            forall|x: u8| x != b ==> before.child(x) is Null,
            child.inv((path + before.path()).push(b), 2),
        ensures
            final(node).inv(path, 2),
            forall|k: Seq<u8>|
                final(node).get(k, depth as nat) == Node::Inner(Box::new(before)).get(
                    k,
                    depth as nat,
                ),
    {
        let ghost below = path + before.path();
        let ghost gone = Node::Inner(Box::new(before));
        let mut child = child;
        let header = match child.deref() {
            Either::Right(_) => None,
            Either::Left(inner) => {
                let leaf = child.get_any_child();
                let witness = leaf.key();
                proof {
                    child.lemma_stores(below.push(b), 2, leaf.key_bytes(), leaf.stored());
                    child.lemma_get_path(below.push(b), 2, leaf.key_bytes());
                }
                let longer: usize = len + 1 + inner.header().len() as usize;
                let header = NodeHeader::from_key(witness, depth, longer as u32);
                proof {
                    assert(header.path() =~= (before.path().push(b) + inner.path())) by {
                        let whole = below.push(b) + inner.path();
                        assert forall|j: int| depth <= j < depth + longer implies
                            #[trigger] witness@[j] == whole[j] by {}
                    }
                }
                Some(header)
            },
        };
        let ghost start = child;
        match header {
            Some(header) => {
                match child.deref_mut() {
                    Either::Left(inner) => inner.set_header(header),
                    Either::Right(_) => vstd::pervasive::unreached(),
                }
                proof {
                    assert(below.push(b) + start.inner().path() =~= path + child.inner().path());
                    start.lemma_inv_moved(&child, below.push(b), path, 2);
                    assert forall|k: Seq<u8>|
                        child.get(k, depth as nat) == gone.get(k, depth as nat) by {
                        start.lemma_get_moved(&child, (below.len() + 1) as nat, depth as nat, k);
                        if start.get(k, (below.len() + 1) as nat) is Some {
                            start.lemma_get_path(below.push(b), 2, k);
                            assert(k[below.len() as int] == below.push(b)[below.len() as int]);
                        }
                        if k.len() > below.len() && k[below.len() as int] != b {
                            assert(before.child(k[below.len() as int]) is Null);
                        }
                    }
                }
            },
            None => {
                proof {
                    assert(path.is_prefix_of(child->Value_0.key_bytes())) by {
                        let key = child->Value_0.key_bytes();
                        assert(below.push(b).is_prefix_of(key));
                        assert forall|i: int| 0 <= i < path.len() implies path[i] == key[i] by {
                            assert(below.push(b)[i] == path[i]);
                        }
                        assert(path =~= key.subrange(0, path.len() as int));
                    }
                    assert forall|k: Seq<u8>|
                        child.get(k, depth as nat) == gone.get(k, depth as nat) by {
                        let key = child->Value_0.key_bytes();
                        assert(below.push(b).is_prefix_of(key));
                        assert(key[below.len() as int] == below.push(b)[below.len() as int]);
                        assert(child.get(k, depth as nat) == child.get(
                            k,
                            (below.len() + 1) as nat,
                        ));
                        if k.len() > below.len() {
                            if k[below.len() as int] != b {
                                assert(before.child(k[below.len() as int]) is Null);
                                assert(k != key);
                            } else {
                                assert(before.has(b));
                            }
                        } else {
                            assert(k != key);
                        }
                    }
                }
            },
        }
        *node = child;
    }

    /// What taking `keys` out has to do at the inner node that the handle
    /// owns, which is reached after `depth` bytes.
    fn plan_remove(
        &self,
        keys: &Vec<u8>,
        depth: usize,
        Ghost(path): Ghost<Seq<u8>>,
        Ghost(least): Ghost<nat>,
    ) -> (cut: Cut)
        requires
            self is Inner,
            self.inv(path, least),
            depth == path.len(),
            depth <= keys.len(),
        ensures
            match cut {
                Cut::Missing => self.get(keys@, depth as nat) is None,
                Cut::Own => {
                    &&& keys.len() == depth + self.inner().path().len()
                    &&& self.inner().own() matches Some(leaf) && leaf.key_bytes() == keys@
                },
                Cut::Leaf(at) => {
                    &&& at == depth + self.inner().path().len()
                    &&& at < keys.len()
                    &&& self.inner().child(keys[at as int]) matches Node::Value(leaf)
                        && leaf.key_bytes() == keys@
                },
                Cut::Descend(at) => {
                    &&& at == depth + self.inner().path().len()
                    &&& at < keys.len()
                    &&& self.inner().child(keys[at as int]) is Inner
                },
            },
    {
        match self.deref() {
            Either::Right(_) => vstd::pervasive::unreached(),
            Either::Left(inner) => {
                let len: usize = inner.header().len() as usize;
                if keys.len() - depth < len {
                    Cut::Missing
                } else {
                    let at: usize = depth + len;
                    if keys.len() == at {
                        match inner.own_value() {
                            Some(leaf) => if leaf.has_key(keys) {
                                Cut::Own
                            } else {
                                Cut::Missing
                            },
                            None => Cut::Missing,
                        }
                    } else {
                        match inner.lookup(keys[at]) {
                            None => Cut::Missing,
                            Some(child) => match child.deref() {
                                Either::Right(leaf) => if leaf.has_key(keys) {
                                    Cut::Leaf(at)
                                } else {
                                    proof {
                                        assert(child.get(keys@, (at + 1) as nat) is None);
                                    }
                                    Cut::Missing
                                },
                                Either::Left(_) => Cut::Descend(at),
                            },
                        }
                    }
                }
            },
        }
    }

    /// Takes the own value, whose key is `keys`, out of the inner node that
    /// `node` owns.
    fn cut_own(
        node: &mut Node<V>,
        keys: &Vec<u8>,
        depth: usize,
        root: bool,
        Ghost(path): Ghost<Seq<u8>>,
    ) -> (value: V)
        requires
            *old(node) is Inner,
            old(node).inv(path, if root { 0nat } else { 2nat }),
            depth == path.len(),
            keys.len() == depth + old(node).inner().path().len(),
            old(node).inner().own() matches Some(leaf) && leaf.key_bytes() == keys@,
        ensures
            final(node).inv(path, if root { 0nat } else { 2nat }),
            root ==> final(node).root_after_remove(old(node), keys@, depth as nat, true),
            old(node).get(keys@, depth as nat) == Some(value),
            forall|k: Seq<u8>|
                final(node).get(k, depth as nat) == if k == keys@ {
                    None
                } else {
                    old(node).get(k, depth as nat)
                },
    {
        let ghost looser = if root { 0nat } else { 1nat };
        let ghost before = old(node).inner();
        let ghost below = path + before.path();
        let taken = match node.deref_mut() {
            Either::Left(inner) => inner.set_own(None),
            Either::Right(_) => vstd::pervasive::unreached(),
        };
        match taken {
            Some(leaf) => {
                proof {
                    let after = node.inner();
                    assert forall|b: u8| #[trigger] after.has(b) implies after.child(b).inv(
                        (path + after.path()).push(b),
                        2,
                    ) by {
                        assert(before.has(b));
                    }
                    assert(node.inv(path, looser));
                }
                let ghost middle = *node;
                proof {
                    assert forall|k: Seq<u8>|
                        middle.get(k, depth as nat) == if k == keys@ {
                            None
                        } else {
                            old(node).get(k, depth as nat)
                        } by {
                        if k.len() > below.len() {
                            assert(middle.inner().child(k[below.len() as int]) == before.child(
                                k[below.len() as int],
                            ));
                        }
                    }
                }
                Self::merge(node, depth, root, Ghost(path));
                (*leaf).into_value()
            },
            None => vstd::pervasive::unreached(),
        }
    }

    /// Takes the terminal value of `keys`, which is the child of the key's
    /// byte at depth `at`, out of the inner node that `node` owns.
    fn cut_leaf(
        node: &mut Node<V>,
        keys: &Vec<u8>,
        depth: usize,
        at: usize,
        root: bool,
        Ghost(path): Ghost<Seq<u8>>,
    ) -> (value: V)
        requires
            *old(node) is Inner,
            old(node).inv(path, if root { 0nat } else { 2nat }),
            depth == path.len(),
            at == depth + old(node).inner().path().len(),
            at < keys.len(),
            old(node).inner().child(keys[at as int]) matches Node::Value(leaf) && leaf.key_bytes()
                == keys@,
        ensures
            final(node).inv(path, if root { 0nat } else { 2nat }),
            root ==> final(node).root_after_remove(old(node), keys@, depth as nat, true),
            old(node).get(keys@, depth as nat) == Some(value),
            forall|k: Seq<u8>|
                final(node).get(k, depth as nat) == if k == keys@ {
                    None
                } else {
                    old(node).get(k, depth as nat)
                },
    {
        let ghost looser = if root { 0nat } else { 1nat };
        let ghost before = old(node).inner();
        let ghost below = path + before.path();
        let ghost b = keys[at as int];
        let taken = match node.deref_mut() {
            Either::Left(inner) => inner.remove(keys[at]),
            Either::Right(_) => vstd::pervasive::unreached(),
        };
        match taken {
            Ok(Node::Value(leaf)) => {
                node.shrink();
                let ghost middle = *node;
                proof {
                    let after = node.inner();
                    let gone = Node::Value(leaf);
                    assert(before.has(b));
                    assert forall|x: u8| #[trigger] after.has(x) implies after.child(x).inv(
                        (path + after.path()).push(x),
                        2,
                    ) by {
                        assert(before.has(x));
                    }
                    assert(node.inv(path, looser));
                    assert(old(node).get(keys@, depth as nat) == gone.get(keys@, (at + 1) as nat));
                    assert forall|k: Seq<u8>|
                        middle.get(k, depth as nat) == if k == keys@ {
                            None
                        } else {
                            old(node).get(k, depth as nat)
                        } by {
                        if k.len() > at {
                            let x = k[at as int];
                            if x != b {
                                assert(after.child(x) == before.child(x));
                            } else {
                                assert(gone.get(k, (at + 1) as nat) == if k == keys@ {
                                    Some(leaf.stored())
                                } else {
                                    None
                                });
                            }
                        }
                    }
                }
                Self::merge(node, depth, root, Ghost(path));
                (*leaf).into_value()
            },
            _ => vstd::pervasive::unreached(),
        }
    }

    /// Takes `keys` out of the subtree of the inner node that the handle
    /// owns, which is reached after `depth` bytes, and hands out the value
    /// that was stored under it.
    ///
    /// The descent is that of a lookup. The node that loses a child moves
    /// one shape down where its children now fit the smaller shape, and gives
    /// way to its last entry where only one is left. A root keeps its shape
    /// unless it is the node that loses a child. Where the key is not there,
    /// no node changes its shape.
    pub(crate) fn remove_at(
        &mut self,
        keys: &Vec<u8>,
        depth: usize,
        root: bool,
        Ghost(path): Ghost<Seq<u8>>,
    ) -> (r: Result<V, ()>)
        requires
            *old(self) is Inner,
            old(self).inv(path, if root { 0nat } else { 2nat }),
            depth == path.len(),
            depth <= keys.len(),
        ensures
            final(self).inv(path, if root { 0nat } else { 2nat }),
            root ==> final(self).root_after_remove(old(self), keys@, depth as nat, r is Ok),
            match r {
                Ok(value) => {
                    &&& old(self).get(keys@, depth as nat) == Some(value)
                    &&& forall|k: Seq<u8>|
                        final(self).get(k, depth as nat) == if k == keys@ {
                            None
                        } else {
                            old(self).get(k, depth as nat)
                        }
                },
                Err(_) => {
                    &&& old(self).get(keys@, depth as nat) is None
                    &&& forall|k: Seq<u8>|
                        final(self).get(k, depth as nat) == old(self).get(k, depth as nat)
                    &&& forall|way: Seq<u8>| final(self).kind_at(way) == old(self).kind_at(way)
                },
            },
        decreases *old(self),
    {
        let ghost least = if root { 0nat } else { 2nat };
        match self.plan_remove(keys, depth, Ghost(path), Ghost(least)) {
            Cut::Missing => Err(()),
            Cut::Own => Ok(Self::cut_own(self, keys, depth, root, Ghost(path))),
            Cut::Leaf(at) => Ok(Self::cut_leaf(self, keys, depth, at, root, Ghost(path))),
            Cut::Descend(at) => {
                match self.deref_mut() {
                    Either::Left(inner) => {
                        let ghost before = *inner;
                        let ghost below = path + before.path();
                        let ghost b = keys[at as int];
                        match inner.lookup_mut(keys[at]) {
                            Some(child) => {
                                proof {
                                    before.lemma_child_decreases(b);
                                }
                                let r = child.remove_at(keys, at + 1, false, Ghost(below.push(b)));
                                proof {
                                    inner.lemma_same_but(&before, b, *child);
                                    Self::lemma_child_changed(
                                        old(self),
                                        self,
                                        path,
                                        least,
                                        b,
                                    );
                                }
                                r
                            },
                            None => vstd::pervasive::unreached(),
                        }
                    },
                    Either::Right(_) => vstd::pervasive::unreached(),
                }
            },
        }
    }
}

} // verus!
