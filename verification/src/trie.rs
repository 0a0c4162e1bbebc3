//! The node shapes of the content-addressed Merkle trie and their child
//! pointers.

use vstd::prelude::*;

use crate::digest::Digest;

verus! {

/// Number of pointer slots in a branch node, one per possible next path
/// byte.
pub const BRANCH_WIDTH: usize = 256;

/// Whether a pointer refers to a leaf or to an interior node.
#[derive(Clone, Copy, Debug, PartialEq, Eq, Structural)]
pub enum PointerKind {
    Leaf,
    Node,
}

/// A typed reference to another trie node, by content digest.
#[derive(Clone, Copy, Debug, PartialEq)]
pub struct Pointer {
    pub kind: PointerKind,
    pub digest: Digest,
}

/// The mathematical value of a pointer.
pub struct PointerV {
    pub kind: PointerKind,
    pub digest: Seq<u8>,
}

impl View for Pointer {
    type V = PointerV;

    open spec fn view(&self) -> PointerV {
        PointerV { kind: self.kind, digest: self.digest@ }
    }
}

/// One node of the trie. Node identity is purely content-derived, so two
/// structurally identical subtrees anywhere in a store share one digest.
#[derive(Debug, PartialEq)]
pub enum TrieNode {
    /// A key together with its stored value.
    Leaf { key: Vec<u8>, value: Vec<u8> },
    /// A shared path fragment in front of a single child.
    Extension { affix: Vec<u8>, pointer: Pointer },
    /// One optional child per possible next path byte.
    Branch { slots: Vec<Option<Pointer>> },
}

/// The mathematical value of a trie node.
pub enum NodeV {
    Leaf { key: Seq<u8>, value: Seq<u8> },
    Extension { affix: Seq<u8>, pointer: PointerV },
    Branch { slots: Seq<Option<PointerV>> },
}

impl View for TrieNode {
    type V = NodeV;

    open spec fn view(&self) -> NodeV {
        match self {
            TrieNode::Leaf { key, value } => NodeV::Leaf { key: key@, value: value@ },
            TrieNode::Extension { affix, pointer } => NodeV::Extension {
                affix: affix@,
                pointer: pointer@,
            },
            TrieNode::Branch { slots } => NodeV::Branch {
                slots: slots@.map_values(
                    |p: Option<Pointer>|
                        match p {
                            Some(q) => Some(q@),
                            None => None,
                        },
                ),
            },
        }
    }
}

impl TrieNode {
    /// A branch carries exactly one slot per possible next path byte.
    pub open spec fn wf(&self) -> bool {
        match self {
            TrieNode::Branch { slots } => slots@.len() == BRANCH_WIDTH,
            _ => true,
        }
    }
}

/// The digests of the children named by a prefix of a branch's slot
/// sequence, in slot order.
pub open spec fn slots_children(slots: Seq<Option<PointerV>>, i: int) -> Seq<Seq<u8>>
    decreases i,
{
    if i <= 0 {
        Seq::empty()
    } else {
        slots_children(slots, i - 1) + match slots[i - 1] {
            Some(p) => seq![p.digest],
            None => Seq::<Seq<u8>>::empty(),
        }
    }
}

/// The digests of a node's children, in a fixed order: a leaf has none, an
/// extension has its pointer's target, a branch has the targets of its
/// occupied slots.
pub open spec fn children_of(n: NodeV) -> Seq<Seq<u8>> {
    match n {
        NodeV::Leaf { .. } => Seq::empty(),
        NodeV::Extension { pointer, .. } => seq![pointer.digest],
        NodeV::Branch { slots } => slots_children(slots, slots.len() as int),
    }
}

/// Copies a byte vector.
fn copy_bytes(src: &Vec<u8>) -> (r: Vec<u8>)
    ensures
        r@ == src@,
{
    let n = src.len();
    let mut r: Vec<u8> = Vec::new();
    let mut i: usize = 0;
    while i < n
        invariant
            i <= n,
            n == src@.len(),
            r@ == src@.subrange(0, i as int),
        decreases n - i,
    {
        r.push(src[i]);
        proof {
            assert(r@ =~= src@.subrange(0, i + 1 as int));
        }
        i += 1;
    }
    proof {
        assert(r@ =~= src@);
    }
    r
}

/// Copies a trie node.
pub fn clone_node(n: &TrieNode) -> (r: TrieNode)
    ensures
        r@ == n@,
{
    match n {
        TrieNode::Leaf { key, value } => TrieNode::Leaf {
            key: copy_bytes(key),
            value: copy_bytes(value),
        },
        TrieNode::Extension { affix, pointer } => TrieNode::Extension {
            affix: copy_bytes(affix),
            pointer: *pointer,
        },
        TrieNode::Branch { slots } => {
            let m = slots.len();
            let mut r: Vec<Option<Pointer>> = Vec::new();
            let mut i: usize = 0;
            while i < m
                invariant
                    i <= m,
                    m == slots@.len(),
                    r@.len() == i,
                    forall|j: int| 0 <= j < i ==> r@[j] == slots@[j],
                decreases m - i,
            {
                r.push(slots[i]);
                i += 1;
            }
            proof {
                assert(r@ =~= slots@);
            }
            TrieNode::Branch { slots: r }
        },
    }
}

/// The digests of a node's children, in the order fixed by
/// [`children_of`].
pub fn child_digests(n: &TrieNode) -> (r: Vec<Digest>)
    ensures
        r@.map_values(|d: Digest| d@) == children_of(n@),
{
    match n {
        TrieNode::Leaf { .. } => {
            let r: Vec<Digest> = Vec::new();
            proof {
                assert(r@.map_values(|d: Digest| d@) =~= children_of(n@));
            }
            r
        },
        TrieNode::Extension { pointer, .. } => {
            let mut r: Vec<Digest> = Vec::new();
            r.push(pointer.digest);
            proof {
                assert(r@.map_values(|d: Digest| d@) =~= children_of(n@));
            }
            r
        },
        TrieNode::Branch { slots } => {
            let m = slots.len();
            let ghost sv = n@->Branch_slots;
            let mut r: Vec<Digest> = Vec::new();
            let mut i: usize = 0;
            while i < m
                invariant
                    i <= m,
                    m == slots@.len(),
                    sv == slots@.map_values(
                        |p: Option<Pointer>|
                            match p {
                                Some(q) => Some(q@),
                                None => None,
                            },
                    ),
                    r@.map_values(|d: Digest| d@) == slots_children(sv, i as int),
                decreases m - i,
            {
                let ghost pre = r@.map_values(|d: Digest| d@);
                match &slots[i] {
                    Some(p) => {
                        r.push(p.digest);
                        proof {
                            assert(sv[i as int] == Some(p@));
                            assert(r@.map_values(|d: Digest| d@) =~= pre + seq![p.digest@]);
                            assert(r@.map_values(|d: Digest| d@) =~= slots_children(
                                sv,
                                i + 1 as int,
                            ));
                        }
                    },
                    None => {
                        proof {
                            assert(sv[i as int] is None);
                            assert(r@.map_values(|d: Digest| d@) =~= slots_children(
                                sv,
                                i + 1 as int,
                            ));
                        }
                    },
                }
                i += 1;
            }
            proof {
                assert(children_of(n@) == slots_children(sv, sv.len() as int));
                assert(sv.len() == m);
            }
            r
        },
    }
}

} // verus!
