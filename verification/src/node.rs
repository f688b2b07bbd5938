//! The decoded node model, the child references, and the content-addressed
//! view of a trie that the iterator walks.
//!
//! A trie view is a table of store entries indexed by handle. A handle
//! stands for the hash of an encoded node; an entry holds the node those
//! bytes decode to, or records that the bytes are missing from the store or
//! rejected by the codec. Child references inside a decoded node point at
//! strictly smaller handles, which is what content addressing guarantees of
//! a real store: a node's hash can only be computed after its children's.

use vstd::prelude::*;

use crate::nibble::nibbles_wf;
use crate::nibble::NibblePath;

verus! {

/// A child slot of a branch, or the root reference: either absent, or an
/// inline node embedded in its parent's encoding, or the hash of a node
/// held by the backing store.
#[derive(Clone, Copy, PartialEq, Eq, Structural)]
pub enum ChildRef {
    Absent,
    Inline(usize),
    Hashed(usize),
}

/// What the backing store and the codec make of one handle: no bytes in
/// the store, bytes the codec rejects, or a decoded node.
pub enum StoreEntry {
    Missing,
    Corrupt,
    Decoded(Node),
}

/// A decoded trie node. Partial paths are nibble paths; branch children
/// are sixteen slots, one per nibble.
pub enum Node {
    Empty,
    Leaf(NibblePath, Vec<u8>),
    Extension(NibblePath, ChildRef),
    Branch([ChildRef; 16], Option<Vec<u8>>),
    NibbledBranch(NibblePath, [ChildRef; 16], Option<Vec<u8>>),
}

/// The mathematical value of a decoded node: the same variants over plain
/// sequences.
#[allow(inconsistent_fields)]
pub enum NodeV {
    Empty,
    Leaf { partial: Seq<u8>, value: Seq<u8> },
    Extension { partial: Seq<u8>, child: ChildRef },
    Branch { children: Seq<ChildRef>, value: Option<Seq<u8>> },
    NibbledBranch { partial: Seq<u8>, children: Seq<ChildRef>, value: Option<Seq<u8>> },
}

impl View for Node {
    type V = NodeV;

    open spec fn view(&self) -> NodeV {
        match self {
            Node::Empty => NodeV::Empty,
            Node::Leaf(p, v) => NodeV::Leaf { partial: p@, value: v@ },
            Node::Extension(p, c) => NodeV::Extension { partial: p@, child: *c },
            Node::Branch(cs, v) => NodeV::Branch {
                children: cs@,
                value: match v {
                    Some(bytes) => Some(bytes@),
                    None => None,
                },
            },
            Node::NibbledBranch(p, cs, v) => NodeV::NibbledBranch {
                partial: p@,
                children: cs@,
                value: match v {
                    Some(bytes) => Some(bytes@),
                    None => None,
                },
            },
        }
    }
}

/// A failure surfaced to the caller of `new`, `next` or `seek`; the handle
/// names the node whose bytes were missing or rejected.
#[derive(Clone, Copy, PartialEq, Eq, Structural, Debug)]
pub enum TrieError {
    /// The codec rejected the bytes behind this handle.
    DecoderError(usize),
    /// The backing store has no entry for this handle.
    IncompleteDatabase(usize),
}

/// A present (inline or hashed) reference whose handle is below `bound`.
pub open spec fn childref_wf(c: ChildRef, bound: int) -> bool {
    match c {
        ChildRef::Absent => true,
        ChildRef::Inline(h) => h < bound,
        ChildRef::Hashed(h) => h < bound,
    }
}

/// Well-formedness of a decoded node whose children may only point below
/// `bound`: nibble paths hold nibbles, branches hold sixteen slots, and an
/// extension consumes at least one nibble, as every codec guarantees.
pub open spec fn nodev_wf(n: NodeV, bound: int) -> bool {
    match n {
        NodeV::Empty => true,
        NodeV::Leaf { partial, .. } => nibbles_wf(partial),
        NodeV::Extension { partial, child } => nibbles_wf(partial) && partial.len() > 0
            && !(child is Absent) && childref_wf(child, bound),
        NodeV::Branch { children, .. } => children.len() == 16 && (forall|i: int|
            0 <= i < 16 ==> childref_wf(children[i], bound)),
        NodeV::NibbledBranch { partial, children, .. } => nibbles_wf(partial)
            && children.len() == 16 && (forall|i: int|
            0 <= i < 16 ==> childref_wf(children[i], bound)),
    }
}

/// A node well-formed below one bound is well-formed below any larger one.
pub proof fn lemma_nodev_wf_widen(n: NodeV, b1: int, b2: int)
    requires
        nodev_wf(n, b1),
        b1 <= b2,
    ensures
        nodev_wf(n, b2),
{
}

/// An immutable, content-addressed view of a trie: the store entries by
/// handle, and the reference to the root node.
pub struct TrieView {
    pub entries: Vec<StoreEntry>,
    pub root: ChildRef,
}

impl TrieView {
    /// Every decoded entry only references strictly smaller handles, the
    /// root reference is present, and an inline root is in range.
    pub open spec fn wf(&self) -> bool {
        &&& forall|i: int| 0 <= i < self.entries@.len()
            ==> (#[trigger] self.entries@[i] matches StoreEntry::Decoded(n)
                ==> nodev_wf(n@, i))
        &&& !(self.root is Absent)
        &&& (self.root matches ChildRef::Inline(h) ==> h < self.entries@.len())
    }

    /// What looking a present reference up comes to: the bytes behind the
    /// handle decoded, or the error naming it.
    pub open spec fn spec_lookup(&self, c: ChildRef) -> Result<NodeV, TrieError> {
        let h = match c {
            ChildRef::Absent => 0,
            ChildRef::Inline(h) => h,
            ChildRef::Hashed(h) => h,
        };
        if h >= self.entries@.len() {
            Err(TrieError::IncompleteDatabase(h))
        } else {
            match self.entries@[h as int] {
                StoreEntry::Missing => Err(TrieError::IncompleteDatabase(h)),
                StoreEntry::Corrupt => Err(TrieError::DecoderError(h)),
                StoreEntry::Decoded(n) => Ok(n@),
            }
        }
    }

    /// Resolves a child reference: an inline child is handed through, a
    /// hashed child is looked up in the backing store; either way the
    /// encoded bytes are decoded. Fails with `IncompleteDatabase` when the
    /// store has no entry and with `DecoderError` when the codec rejects
    /// the bytes.
    pub fn lookup(&self, c: ChildRef) -> (r: Result<Node, TrieError>)
        requires
            self.wf(),
            !(c is Absent),
            c matches ChildRef::Inline(h) ==> h < self.entries@.len(),
        ensures
            match r {
                Ok(n) => self.spec_lookup(c) == Ok::<NodeV, TrieError>(n@)
                    && nodev_wf(n@, self.entries@.len() as int),
                Err(e) => self.spec_lookup(c) == Err::<NodeV, TrieError>(e),
            },
    {
        let h = match c {
            ChildRef::Absent => 0,
            ChildRef::Inline(h) => h,
            ChildRef::Hashed(h) => h,
        };
        if h >= self.entries.len() {
            return Err(TrieError::IncompleteDatabase(h));
        }
        match &self.entries[h] {
            StoreEntry::Missing => Err(TrieError::IncompleteDatabase(h)),
            StoreEntry::Corrupt => Err(TrieError::DecoderError(h)),
            StoreEntry::Decoded(n) => {
                proof {
                    lemma_nodev_wf_widen(n@, h as int, self.entries@.len() as int);
                }
                Ok(clone_node(n))
            },
        }
    }

    /// Builds a view after checking well-formedness; yields nothing when
    /// an entry references a handle that is not strictly smaller, an
    /// extension consumes no nibble, or the root reference is absent or an
    /// out-of-range inline.
    pub fn new(entries: Vec<StoreEntry>, root: ChildRef) -> (r: Option<TrieView>)
        ensures
            r matches Some(v) ==> v.wf() && v.entries@ == entries@ && v.root == root,
            r is Some <==> (TrieView { entries, root }).wf(),
    {
        match root {
            ChildRef::Absent => {
                return None;
            },
            ChildRef::Inline(h) => {
                if h >= entries.len() {
                    return None;
                }
            },
            ChildRef::Hashed(_) => {},
        }
        let mut i: usize = 0;
        while i < entries.len()
            invariant
                i <= entries@.len(),
                forall|j: int| 0 <= j < i
                    ==> (#[trigger] entries@[j] matches StoreEntry::Decoded(n)
                        ==> nodev_wf(n@, j)),
            decreases entries@.len() - i,
        {
            match &entries[i] {
                StoreEntry::Missing => {},
                StoreEntry::Corrupt => {},
                StoreEntry::Decoded(n) => {
                    if !node_wf_check(n, i) {
                        return None;
                    }
                },
            }
            i += 1;
        }
        Some(TrieView { entries, root })
    }
}

/// Whether every child slot of `children` is absent or points below
/// `bound`.
fn children_wf_check(children: &[ChildRef; 16], bound: usize) -> (r: bool)
    ensures
        r == forall|i: int| 0 <= i < 16 ==> childref_wf(children@[i], bound as int),
{
    let mut i: usize = 0;
    while i < 16
        invariant
            i <= 16,
            forall|j: int| 0 <= j < i ==> childref_wf(children@[j], bound as int),
        decreases 16 - i,
    {
        let ok = match children[i] {
            ChildRef::Absent => true,
            ChildRef::Inline(h) => h < bound,
            ChildRef::Hashed(h) => h < bound,
        };
        if !ok {
            return false;
        }
        i += 1;
    }
    true
}

/// Whether `n` is well-formed with children below `bound`.
fn node_wf_check(n: &Node, bound: usize) -> (r: bool)
    ensures
        r == nodev_wf(n@, bound as int),
{
    match n {
        Node::Empty => true,
        Node::Leaf(p, _) => {
            proof {
                assert(p.wf() == nibbles_wf(p@));
            }
            path_wf_check(p)
        },
        Node::Extension(p, c) => {
            let child_ok = match c {
                ChildRef::Absent => false,
                ChildRef::Inline(h) => *h < bound,
                ChildRef::Hashed(h) => *h < bound,
            };
            path_wf_check(p) && p.len() > 0 && child_ok
        },
        Node::Branch(cs, _) => children_wf_check(cs, bound),
        Node::NibbledBranch(p, cs, _) => path_wf_check(p) && children_wf_check(cs, bound),
    }
}

/// Whether every value of `p` is a nibble.
fn path_wf_check(p: &NibblePath) -> (r: bool)
    ensures
        r == nibbles_wf(p@),
{
    let mut i: usize = 0;
    let n = p.len();
    while i < n
        invariant
            n == p@.len(),
            i <= n,
            forall|j: int| 0 <= j < i ==> p@[j] < 16,
        decreases n - i,
    {
        if p.at(i) >= 16 {
            return false;
        }
        i += 1;
    }
    true
}

/// A copy of a byte value.
fn clone_bytes(v: &Vec<u8>) -> (r: Vec<u8>)
    ensures
        r@ == v@,
{
    let mut out: Vec<u8> = Vec::new();
    let mut i: usize = 0;
    while i < v.len()
        invariant
            i <= v@.len(),
            out@ == v@.take(i as int),
        decreases v@.len() - i,
    {
        out.push(v[i]);
        proof {
            assert(out@ =~= v@.take(i + 1));
        }
        i += 1;
    }
    proof {
        assert(v@.take(v@.len() as int) =~= v@);
    }
    out
}

/// A copy of a node with the same mathematical value.
pub fn clone_node(n: &Node) -> (r: Node)
    ensures
        r@ == n@,
{
    match n {
        Node::Empty => Node::Empty,
        Node::Leaf(p, v) => Node::Leaf(p.clone(), clone_bytes(v)),
        Node::Extension(p, c) => Node::Extension(p.clone(), *c),
        Node::Branch(cs, v) => Node::Branch(
            *cs,
            match v {
                Some(bytes) => Some(clone_bytes(bytes)),
                None => None,
            },
        ),
        Node::NibbledBranch(p, cs, v) => Node::NibbledBranch(
            p.clone(),
            *cs,
            match v {
                Some(bytes) => Some(clone_bytes(bytes)),
                None => None,
            },
        ),
    }
}

} // verus!
