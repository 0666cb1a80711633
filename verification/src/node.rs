//! What the virtual filesystem stores at a path.

use vstd::prelude::*;

verus! {

/// A stored node: the bytes of a file, or the marker of a directory.
#[derive(Debug, PartialEq, Eq)]
pub enum FSNode {
    File(Vec<u8>),
    Dir,
}

/// The mathematical value of a node.
pub enum NodeModel {
    File(Seq<u8>),
    Dir,
}

impl View for FSNode {
    type V = NodeModel;

    open spec fn view(&self) -> NodeModel {
        match self {
            FSNode::File(bytes) => NodeModel::File(bytes@),
            FSNode::Dir => NodeModel::Dir,
        }
    }
}

/// A fresh vector with the bytes of `bytes`.
pub fn copy_bytes(bytes: &[u8]) -> (out: Vec<u8>)
    ensures
        out@ == bytes@,
{
    let mut out: Vec<u8> = Vec::new();
    let mut i: usize = 0;
    while i < bytes.len()
        invariant
            i <= bytes@.len(),
            out@ == bytes@.take(i as int),
        decreases bytes@.len() - i,
    {
        out.push(bytes[i]);
        i = i + 1;
        assert(bytes@.take(i as int) =~= bytes@.take(i - 1).push(bytes@[i - 1]));
    }
    assert(bytes@.take(bytes@.len() as int) =~= bytes@);
    out
}

impl FSNode {
    /// Whether the node is a directory marker.
    pub fn is_dir(&self) -> (b: bool)
        ensures
            b == (self@ is Dir),
    {
        match self {
            FSNode::File(_) => false,
            FSNode::Dir => true,
        }
    }

    /// The bytes of a file; a directory has none.
    pub fn contents(&self) -> (r: Option<&[u8]>)
        ensures
            match r {
                Some(bytes) => self@ == NodeModel::File(bytes@),
                None => self@ is Dir,
            },
    {
        match self {
            FSNode::File(bytes) => Some(bytes.as_slice()),
            FSNode::Dir => None,
        }
    }

    /// A node of its own with the same value.
    pub fn duplicate(&self) -> (copy: FSNode)
        ensures
            copy@ == self@,
    {
        match self {
            FSNode::File(bytes) => FSNode::File(copy_bytes(bytes.as_slice())),
            FSNode::Dir => FSNode::Dir,
        }
    }
}

} // verus!
