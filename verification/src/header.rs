//! The prefix header of an inner node.

use vstd::prelude::*;

verus! {

/// How many bytes of a compressed path a header stores inline.
pub const PREFIX_LEN: usize = 12;

/// The compressed path of an inner node: the bytes that every key beneath the
/// node shares between the edge that leads to the node and the byte that
/// selects one of its children.
///
/// The path may be longer than the inline buffer. The header then stores its
/// first `PREFIX_LEN` bytes and its length; the remaining bytes are read from
/// the key of a terminal value beneath the node whenever they are needed.
pub struct NodeHeader {
    len: u32,
    prefix: [u8; PREFIX_LEN],
    path: Ghost<Seq<u8>>,
}

impl NodeHeader {
    /// The whole compressed path.
    pub closed spec fn path(&self) -> Seq<u8> {
        self.path@
    }

    /// The length is that of the path, and the inline buffer holds the path's
    /// first bytes.
    pub closed spec fn wf(&self) -> bool {
        &&& self.path@.len() == self.len
        &&& forall|i: int| 0 <= i < self.len && i < PREFIX_LEN ==> self.prefix[i] == self.path@[i]
    }

    /// The length of the compressed path.
    pub fn len(&self) -> (n: u32)
        requires
            self.wf(),
        ensures
            n == self.path().len(),
    {
        self.len
    }

    /// The header of the compressed path `key[start .. start + len]`.
    pub fn from_key(key: &Vec<u8>, start: usize, len: u32) -> (header: Self)
        requires
            start + len <= key.len(),
        ensures
            header.wf(),
            header.path() == key@.subrange(start as int, start + len),
    {
        let mut prefix: [u8; PREFIX_LEN] = [0u8; PREFIX_LEN];
        let mut i: usize = 0;
        while i < PREFIX_LEN && i < len as usize
            invariant
                i <= PREFIX_LEN,
                i <= len,
                start + len <= key.len(),
                forall|j: int| 0 <= j < i ==> prefix[j] == key[start + j],
            decreases PREFIX_LEN - i,
        {
            prefix[i] = key[start + i];
            i += 1;
        }
        NodeHeader { len, prefix, path: Ghost(key@.subrange(start as int, start + len)) }
    }

    /// How many leading bytes of the inline part of the path agree with `key`
    /// from `depth` on. The count stops at the first byte that differs, at the
    /// end of the key and at the end of the inline part.
    pub fn match_inline(&self, key: &Vec<u8>, depth: usize) -> (m: usize)
        requires
            self.wf(),
            depth <= key.len(),
        ensures
            m <= PREFIX_LEN,
            m <= self.path().len(),
            depth + m <= key.len(),
            key@.subrange(depth as int, depth + m) == self.path().take(m as int),
            m < PREFIX_LEN && m < self.path().len() ==> depth + m == key.len() || key[depth + m]
                != self.path()[m as int],
    {
        let mut m: usize = 0;
        while m < PREFIX_LEN && m < self.len as usize && m < key.len() - depth && key[depth + m]
            == self.prefix[m]
            invariant
                self.wf(),
                depth <= key.len(),
                m <= PREFIX_LEN,
                m <= self.len,
                depth + m <= key.len(),
                forall|j: int| 0 <= j < m ==> key[depth + j] == self.path@[j],
            decreases PREFIX_LEN - m,
        {
            m += 1;
        }
        assert(key@.subrange(depth as int, depth + m) =~= self.path().take(m as int));
        m
    }
}

impl Default for NodeHeader {
    /// The header of the empty path.
    fn default() -> (header: Self)
        ensures
            header.wf(),
            header.path() == Seq::<u8>::empty(),
    {
        NodeHeader { len: 0, prefix: [0u8; PREFIX_LEN], path: Ghost(Seq::empty()) }
    }
}

} // verus!
