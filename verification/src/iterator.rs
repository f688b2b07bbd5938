//! The pre-order traversal engine: an explicit stack of frames, a current
//! nibble path, and the `next` / `seek` primitives over a trie view.
//!
//! The central invariant is path consistency: at all times the current
//! nibble path equals the concatenation of the contributions of the frames
//! on the stack — a frame contributes its node's partial path once the
//! traversal has moved past it, and the selector nibble of the child it is
//! standing at — excluding the partial path of a top frame that has only
//! been entered. The path handed out at a yield is therefore exactly the
//! concatenation of partial paths and branch selectors from the root to
//! the yielded node.

use vstd::prelude::*;

use crate::nibble::bytes_to_nibbles;
use crate::nibble::is_prefix_of;
use crate::nibble::lemma_at_most_concat_split;
use crate::nibble::lemma_child_slot_bound;
use crate::nibble::lemma_lex_less_transitive;
use crate::nibble::lemma_strict_prefix_lex_less;
use crate::nibble::lex_less;
use crate::nibble::lex_less_than_suffix;
use crate::nibble::prefix_matches_from;
use crate::nibble::NibblePath;
use crate::node::clone_node;
use crate::node::lemma_nodev_wf_widen;
use crate::node::nodev_wf;
use crate::node::ChildRef;
use crate::node::Node;
use crate::node::NodeV;
use crate::node::TrieError;
use crate::node::TrieView;

verus! {

/// The cursor of one traversal frame.
#[derive(Clone, Copy, PartialEq, Eq, Structural)]
pub enum Status {
    Entering,
    At,
    AtChild(usize),
    Exiting,
}

/// One traversal frame: a decoded node and the cursor over it. `chosen`
/// records the selector nibble the frame last wrote into the path; it is
/// meaningful only while the cursor stands at a child.
pub struct Crumb {
    pub node: Node,
    pub chosen: Ghost<u8>,
    pub status: Status,
}

/// The mathematical value of a frame.
pub struct CrumbV {
    pub node: NodeV,
    pub chosen: u8,
    pub status: Status,
}

impl View for Crumb {
    type V = CrumbV;

    open spec fn view(&self) -> CrumbV {
        CrumbV { node: self.node@, chosen: self.chosen@, status: self.status }
    }
}

/// The cursor steps of the traversal: entering a node leads over its
/// partial path (`At`) where there is one to consume, a branch then walks
/// its sixteen children in order, and everything ends in `Exiting`.
pub open spec fn spec_increment(s: Status, n: NodeV) -> Status {
    match (s, n) {
        (Status::Entering, NodeV::Extension { .. }) => Status::At,
        (Status::Entering, NodeV::Branch { .. }) => Status::At,
        (Status::Entering, NodeV::NibbledBranch { .. }) => Status::At,
        (Status::At, NodeV::Branch { .. }) => Status::AtChild(0),
        (Status::At, NodeV::NibbledBranch { .. }) => Status::AtChild(0),
        (Status::AtChild(x), NodeV::Branch { .. }) => if x < 15 {
            Status::AtChild((x + 1) as usize)
        } else {
            Status::Exiting
        },
        (Status::AtChild(x), NodeV::NibbledBranch { .. }) => if x < 15 {
            Status::AtChild((x + 1) as usize)
        } else {
            Status::Exiting
        },
        _ => Status::Exiting,
    }
}

/// A cursor that fits its node: only nodes with a partial path or children
/// stand `At`, only branches stand at a child.
pub open spec fn status_ok(c: CrumbV) -> bool {
    match c.status {
        Status::Entering => true,
        Status::Exiting => true,
        Status::At => c.node is Extension || c.node is Branch || c.node is NibbledBranch,
        Status::AtChild(i) => (c.node is Branch || c.node is NibbledBranch) && i < 16,
    }
}

/// A frame that is not on top of the stack is mid-descent: an extension
/// past its partial path, or a branch standing at the child being walked.
pub open spec fn interior_ok(c: CrumbV) -> bool {
    match c.status {
        Status::At => c.node is Extension,
        Status::AtChild(_) => c.node is Branch || c.node is NibbledBranch,
        _ => false,
    }
}

pub open spec fn crumb_wf(c: CrumbV, bound: int) -> bool {
    &&& nodev_wf(c.node, bound)
    &&& status_ok(c)
    &&& c.chosen < 16
    &&& (c.status matches Status::AtChild(i) ==> c.chosen as int <= i as int)
}

/// What one frame contributes to the current nibble path. A top frame
/// whose cursor has not yet consumed its partial path contributes nothing
/// of it; past that point an extension contributes its partial path, and a
/// branch the partial path (if any) plus the selector nibble last written.
pub open spec fn crumb_seg(c: CrumbV, top: bool) -> Seq<u8> {
    match c.status {
        Status::Entering => Seq::<u8>::empty(),
        Status::At => match c.node {
            NodeV::Extension { partial, .. } => if top {
                Seq::<u8>::empty()
            } else {
                partial
            },
            _ => Seq::<u8>::empty(),
        },
        Status::AtChild(_) => match c.node {
            NodeV::Branch { .. } => seq![c.chosen],
            NodeV::NibbledBranch { partial, .. } => partial.push(c.chosen),
            _ => Seq::<u8>::empty(),
        },
        Status::Exiting => match c.node {
            NodeV::Extension { partial, .. } => partial,
            NodeV::Branch { .. } => seq![c.chosen],
            NodeV::NibbledBranch { partial, .. } => partial.push(c.chosen),
            _ => Seq::<u8>::empty(),
        },
    }
}

/// The concatenated contributions of a stack of frames, all taken as
/// interior.
pub open spec fn interior_path(tr: Seq<CrumbV>) -> Seq<u8>
    decreases tr.len(),
{
    if tr.len() == 0 {
        Seq::<u8>::empty()
    } else {
        interior_path(tr.drop_last()) + crumb_seg(tr.last(), false)
    }
}

/// The nibble path that a frame stack stands at: every frame's
/// contribution, the top frame taken as top.
pub open spec fn trail_path(tr: Seq<CrumbV>) -> Seq<u8> {
    if tr.len() == 0 {
        Seq::<u8>::empty()
    } else {
        interior_path(tr.drop_last()) + crumb_seg(tr.last(), true)
    }
}

/// The frame stack of an iterator freshly standing at a root node.
pub open spec fn fresh_trail(nv: NodeV) -> Seq<CrumbV> {
    seq![CrumbV { node: nv, chosen: 0, status: Status::Entering }]
}

/// The handle a present reference points at.
pub open spec fn ref_handle(c: ChildRef) -> int {
    match c {
        ChildRef::Absent => -1,
        ChildRef::Inline(h) => h as int,
        ChildRef::Hashed(h) => h as int,
    }
}

/// The weight of the subtree behind a reference: nothing for an absent or
/// unresolvable reference, and a fixed charge plus the children's weights
/// for a decoded node. Content addressing makes children point at strictly
/// smaller handles, so the recursion is grounded; references at or above
/// the guard are counted as leaves.
pub open spec fn ref_weight(v: TrieView, c: ChildRef) -> nat
    decreases ref_handle(c) + 1, 1int, 0int,
{
    if c is Absent {
        0
    } else {
        let h = ref_handle(c);
        if 0 <= h < v.entries@.len() && v.entries@[h] is Decoded {
            let nv = v.entries@[h]->Decoded_0@;
            match nv {
                NodeV::Empty => 20,
                NodeV::Leaf { .. } => 20,
                NodeV::Extension { child, .. } => if ref_handle(child) < h {
                    20 + ref_weight(v, child)
                } else {
                    20
                },
                NodeV::Branch { children, .. } => 20 + kids_weight_from(v, children, 0, h),
                NodeV::NibbledBranch { children, .. } => 20 + kids_weight_from(
                    v,
                    children,
                    0,
                    h,
                ),
            }
        } else {
            0
        }
    }
}

/// The weights of the children from slot `lo` on, each guarded to point
/// below `h`.
pub open spec fn kids_weight_from(v: TrieView, cs: Seq<ChildRef>, lo: int, h: int) -> nat
    decreases (if h < 0 { 0int } else { h + 1 }), 0int, 16 - lo,
{
    if lo < 0 || lo >= 16 || cs.len() != 16 {
        0
    } else {
        let w = if ref_handle(cs[lo]) < h {
            ref_weight(v, cs[lo])
        } else {
            0
        };
        w + kids_weight_from(v, cs, lo + 1, h)
    }
}

proof fn lemma_kids_weight_guard(v: TrieView, cs: Seq<ChildRef>, lo: int, h1: int, h2: int)
    requires
        cs.len() == 16,
        forall|j: int| 0 <= j < 16 ==> ref_handle(#[trigger] cs[j]) < h1 && ref_handle(cs[j]) < h2,
    ensures
        kids_weight_from(v, cs, lo, h1) == kids_weight_from(v, cs, lo, h2),
    decreases 16 - lo,
{
    if 0 <= lo < 16 {
        lemma_kids_weight_guard(v, cs, lo + 1, h1, h2);
    }
}

/// How many more loop steps this frame itself can start.
pub open spec fn status_rank(c: CrumbV, top: bool) -> nat {
    match c.status {
        Status::Entering => 18,
        Status::At => match c.node {
            NodeV::Extension { .. } => if top {
                2
            } else {
                1
            },
            _ => 18,
        },
        Status::AtChild(i) => if i < 16 {
            if top {
                (17 - i) as nat
            } else {
                (16 - i) as nat
            }
        } else {
            0
        },
        Status::Exiting => 0,
    }
}

/// The weight of everything below this frame that the traversal has not
/// yet descended into. A top frame standing at a child has not entered it
/// yet; an interior frame has.
pub open spec fn unvisited_weight(v: TrieView, c: CrumbV, top: bool) -> nat {
    let len = v.entries@.len() as int;
    match c.status {
        Status::Entering | Status::At => match c.node {
            NodeV::Extension { child, .. } => if c.status is At && !top {
                0
            } else if ref_handle(child) < len {
                ref_weight(v, child)
            } else {
                0
            },
            NodeV::Branch { children, .. } => kids_weight_from(v, children, 0, len),
            NodeV::NibbledBranch { children, .. } => kids_weight_from(v, children, 0, len),
            _ => 0,
        },
        Status::AtChild(i) => match c.node {
            NodeV::Branch { children, .. } => kids_weight_from(
                v,
                children,
                if top { i as int } else { i + 1 },
                len,
            ),
            NodeV::NibbledBranch { children, .. } => kids_weight_from(
                v,
                children,
                if top { i as int } else { i + 1 },
                len,
            ),
            _ => 0,
        },
        Status::Exiting => 0,
    }
}

pub open spec fn frame_pot(v: TrieView, c: CrumbV, top: bool) -> nat {
    1 + status_rank(c, top) + unvisited_weight(v, c, top)
}

pub open spec fn interior_pot(v: TrieView, tr: Seq<CrumbV>) -> nat
    decreases tr.len(),
{
    if tr.len() == 0 {
        0
    } else {
        interior_pot(v, tr.drop_last()) + frame_pot(v, tr.last(), false)
    }
}

/// The loop potential of a frame stack: every step of the traversal
/// engine that does not yield or fail strictly decreases it.
pub open spec fn trail_pot(v: TrieView, tr: Seq<CrumbV>) -> nat {
    if tr.len() == 0 {
        0
    } else {
        interior_pot(v, tr.drop_last()) + frame_pot(v, tr.last(), true)
    }
}

proof fn lemma_trail_pot_push(v: TrieView, tr: Seq<CrumbV>, c: CrumbV)
    ensures
        trail_pot(v, tr.push(c)) == interior_pot(v, tr) + frame_pot(v, c, true),
{
    assert(tr.push(c).drop_last() =~= tr);
}

proof fn lemma_interior_pot_push(v: TrieView, tr: Seq<CrumbV>, c: CrumbV)
    ensures
        interior_pot(v, tr.push(c)) == interior_pot(v, tr) + frame_pot(v, c, false),
{
    assert(tr.push(c).drop_last() =~= tr);
}

/// What one call of `next` comes to, as a function of the frame stack and
/// the path: the loop of the traversal engine, step by step. A top frame
/// just entered is yielded with the cursor moved on; an exhausted frame is
/// stripped from the path and popped; otherwise the engine consumes a
/// partial path, walks to the next present child, descends, and goes on.
/// The potential guard mirrors the engine's termination argument and
/// always passes on a well-formed state.
#[verifier::opaque]
pub open spec fn spec_run(v: TrieView, tr: Seq<CrumbV>, path: Seq<u8>) -> (
    Option<Result<(Seq<u8>, NodeV), TrieError>>,
    Seq<CrumbV>,
    Seq<u8>,
)
    decreases trail_pot(v, tr),
{
    if tr.len() == 0 {
        (None, tr, path)
    } else {
        let c = tr.last();
        match c.status {
            Status::Entering => {
                let c2 = CrumbV { status: spec_increment(c.status, c.node), ..c };
                (Some(Ok((path, c.node))), tr.update(tr.len() - 1, c2), path)
            },
            Status::Exiting => {
                let seg = crumb_seg(c, true);
                let path2 = if seg.len() <= path.len() {
                    path.take(path.len() - seg.len())
                } else {
                    Seq::<u8>::empty()
                };
                let tr2 = tr.drop_last();
                if tr2.len() == 0 {
                    (None, tr2, path2)
                } else {
                    let t = tr2.last();
                    let t2 = CrumbV { status: spec_increment(t.status, t.node), ..t };
                    let tr3 = tr2.update(tr2.len() - 1, t2);
                    if trail_pot(v, tr3) < trail_pot(v, tr) {
                        spec_run(v, tr3, path2)
                    } else {
                        (None, tr3, path2)
                    }
                }
            },
            Status::At => match c.node {
                NodeV::Extension { partial, child } => {
                    let path2 = path + partial;
                    match v.spec_lookup(child) {
                        Ok(nv) => {
                            let tr2 = tr.push(
                                CrumbV { node: nv, chosen: 0, status: Status::Entering },
                            );
                            if trail_pot(v, tr2) < trail_pot(v, tr) {
                                spec_run(v, tr2, path2)
                            } else {
                                (None, tr2, path2)
                            }
                        },
                        Err(e) => {
                            let c2 = CrumbV { status: Status::Exiting, ..c };
                            (Some(Err(e)), tr.update(tr.len() - 1, c2), path2)
                        },
                    }
                },
                NodeV::Branch { .. } => {
                    let c2 = CrumbV { chosen: 0, status: Status::AtChild(0), ..c };
                    let tr2 = tr.update(tr.len() - 1, c2);
                    let path2 = path.push(0);
                    if trail_pot(v, tr2) < trail_pot(v, tr) {
                        spec_run(v, tr2, path2)
                    } else {
                        (None, tr2, path2)
                    }
                },
                NodeV::NibbledBranch { partial, .. } => {
                    let c2 = CrumbV { chosen: 0, status: Status::AtChild(0), ..c };
                    let tr2 = tr.update(tr.len() - 1, c2);
                    let path2 = (path + partial).push(0);
                    if trail_pot(v, tr2) < trail_pot(v, tr) {
                        spec_run(v, tr2, path2)
                    } else {
                        (None, tr2, path2)
                    }
                },
                _ => (None, tr, path),
            },
            Status::AtChild(i) => {
                let kids = match c.node {
                    NodeV::Branch { children, .. } => children,
                    NodeV::NibbledBranch { children, .. } => children,
                    _ => Seq::<ChildRef>::empty(),
                };
                if (c.node is Branch || c.node is NibbledBranch) && i < 16 && kids.len()
                    == 16 {
                    let ch = kids[i as int];
                    if ch is Absent {
                        let c2 = CrumbV { status: spec_increment(c.status, c.node), ..c };
                        let tr2 = tr.update(tr.len() - 1, c2);
                        if trail_pot(v, tr2) < trail_pot(v, tr) {
                            spec_run(v, tr2, path)
                        } else {
                            (None, tr2, path)
                        }
                    } else {
                        let path2 = (if path.len() > 0 {
                            path.drop_last()
                        } else {
                            path
                        }).push(i as u8);
                        let c2 = CrumbV { chosen: i as u8, ..c };
                        match v.spec_lookup(ch) {
                            Ok(nv) => {
                                let tr2 = tr.update(tr.len() - 1, c2).push(
                                    CrumbV { node: nv, chosen: 0, status: Status::Entering },
                                );
                                if trail_pot(v, tr2) < trail_pot(v, tr) {
                                    spec_run(v, tr2, path2)
                                } else {
                                    (None, tr2, path2)
                                }
                            },
                            Err(e) => (Some(Err(e)), tr.update(tr.len() - 1, c2), path2),
                        }
                    }
                } else {
                    (None, tr, path)
                }
            },
        }
    }
}

/// What the seek walk comes to, as a function of the key and the node the
/// walk stands at: the descent of §the seek primitive, frame by frame. A
/// mismatched or exhausted key settles the top frame's cursor and stops;
/// otherwise the walk consumes the node's partial path, steps to the
/// key's next nibble, and follows the child behind it.
#[verifier::opaque]
pub open spec fn spec_seek(
    v: TrieView,
    key: Seq<u8>,
    node: NodeV,
    offset: int,
    tr: Seq<CrumbV>,
    path: Seq<u8>,
) -> (Result<(), TrieError>, Seq<CrumbV>, Seq<u8>)
    decreases key.len() - offset,
{
    if offset < 0 || offset > key.len() {
        (Ok(()), tr, path)
    } else {
        let rem = key.skip(offset);
        match node {
            NodeV::Empty => {
                let st = if offset < key.len() {
                    Status::Exiting
                } else {
                    Status::Entering
                };
                (Ok(()), tr.push(CrumbV { node, chosen: 0, status: st }), path)
            },
            NodeV::Leaf { partial, .. } => {
                let st = if lex_less(partial, rem) {
                    Status::Exiting
                } else {
                    Status::Entering
                };
                (Ok(()), tr.push(CrumbV { node, chosen: 0, status: st }), path)
            },
            NodeV::Extension { partial, child } => {
                if !is_prefix_of(partial, rem) {
                    if lex_less(partial, rem) {
                        (
                            Ok(()),
                            tr.push(CrumbV { node, chosen: 0, status: Status::Exiting }),
                            path + partial,
                        )
                    } else {
                        (
                            Ok(()),
                            tr.push(CrumbV { node, chosen: 0, status: Status::Entering }),
                            path,
                        )
                    }
                } else {
                    let path2 = path + partial;
                    match v.spec_lookup(child) {
                        Ok(nv) => {
                            let tr2 = tr.push(
                                CrumbV { node, chosen: 0, status: Status::At },
                            );
                            if partial.len() > 0 {
                                spec_seek(v, key, nv, offset + partial.len(), tr2, path2)
                            } else {
                                (Ok(()), tr2, path2)
                            }
                        },
                        Err(e) => (
                            Err(e),
                            tr.push(CrumbV { node, chosen: 0, status: Status::Exiting }),
                            path2,
                        ),
                    }
                }
            },
            NodeV::Branch { children, .. } => {
                if offset == key.len() {
                    (
                        Ok(()),
                        tr.push(CrumbV { node, chosen: 0, status: Status::Entering }),
                        path,
                    )
                } else {
                    let i = key[offset];
                    if children.len() == 16 && i < 16 {
                        let ch = children[i as int];
                        let path2 = path.push(i);
                        let c = CrumbV { node, chosen: i, status: Status::AtChild(i as usize) };
                        if ch is Absent {
                            (Ok(()), tr.push(c), path2)
                        } else {
                            match v.spec_lookup(ch) {
                                Ok(nv) => spec_seek(v, key, nv, offset + 1, tr.push(c), path2),
                                Err(e) => (Err(e), tr.push(c), path2),
                            }
                        }
                    } else {
                        (Ok(()), tr, path)
                    }
                }
            },
            NodeV::NibbledBranch { partial, children, .. } => {
                if !is_prefix_of(partial, rem) {
                    if lex_less(partial, rem) {
                        (
                            Ok(()),
                            tr.push(CrumbV { node, chosen: 15, status: Status::Exiting }),
                            (path + partial).push(15),
                        )
                    } else {
                        (
                            Ok(()),
                            tr.push(CrumbV { node, chosen: 0, status: Status::Entering }),
                            path,
                        )
                    }
                } else {
                    let consumed = offset + partial.len();
                    if consumed == key.len() {
                        (
                            Ok(()),
                            tr.push(CrumbV { node, chosen: 0, status: Status::Entering }),
                            path,
                        )
                    } else {
                        let i = key[consumed];
                        if children.len() == 16 && i < 16 {
                            let ch = children[i as int];
                            let path2 = (path + partial).push(i);
                            let c = CrumbV {
                                node,
                                chosen: i,
                                status: Status::AtChild(i as usize),
                            };
                            if ch is Absent {
                                (Ok(()), tr.push(c), path2)
                            } else {
                                match v.spec_lookup(ch) {
                                    Ok(nv) => spec_seek(
                                        v,
                                        key,
                                        nv,
                                        consumed + 1,
                                        tr.push(c),
                                        path2,
                                    ),
                                    Err(e) => (Err(e), tr.push(c), path2),
                                }
                            }
                        } else {
                            (Ok(()), tr, path)
                        }
                    }
                }
            },
        }
    }
}

/// On a complete store — every entry holds a decoded node — the seek walk
/// always succeeds: every failure it can surface comes from a reference
/// the resolver cannot serve.
pub proof fn lemma_seek_ok_on_complete_store(
    v: TrieView,
    key: Seq<u8>,
    node: NodeV,
    offset: int,
    tr: Seq<CrumbV>,
    path: Seq<u8>,
)
    requires
        v.wf(),
        forall|i: int| 0 <= i < v.entries@.len() ==> (#[trigger] v.entries@[i]) is Decoded,
        nodev_wf(node, v.entries@.len() as int),
    ensures
        spec_seek(v, key, node, offset, tr, path).0 is Ok,
    decreases key.len() - offset,
{
    reveal_with_fuel(spec_seek, 1);
    let len = v.entries@.len() as int;
    if 0 <= offset <= key.len() {
        let rem = key.skip(offset);
        match node {
            NodeV::Extension { partial, child } => {
                if is_prefix_of(partial, rem) {
                    let h = ref_handle(child);
                    assert(0 <= h < len);
                    assert(v.entries@[h] is Decoded);
                    let nv = v.entries@[h]->Decoded_0@;
                    assert(nodev_wf(nv, h));
                    lemma_nodev_wf_widen(nv, h, len);
                    if partial.len() > 0 {
                        lemma_seek_ok_on_complete_store(
                            v,
                            key,
                            nv,
                            offset + partial.len(),
                            tr.push(CrumbV { node, chosen: 0, status: Status::At }),
                            path + partial,
                        );
                    }
                }
            },
            NodeV::Branch { children, .. } => {
                if offset < key.len() {
                    let i = key[offset];
                    if children.len() == 16 && i < 16 && !(children[i as int] is Absent) {
                        let ch = children[i as int];
                        let h = ref_handle(ch);
                        assert(0 <= h < len);
                        assert(v.entries@[h] is Decoded);
                        let nv = v.entries@[h]->Decoded_0@;
                        assert(nodev_wf(nv, h));
                        lemma_nodev_wf_widen(nv, h, len);
                        lemma_seek_ok_on_complete_store(
                            v,
                            key,
                            nv,
                            offset + 1,
                            tr.push(
                                CrumbV { node, chosen: i, status: Status::AtChild(i as usize) },
                            ),
                            path.push(i),
                        );
                    }
                }
            },
            NodeV::NibbledBranch { partial, children, .. } => {
                if is_prefix_of(partial, rem) {
                    let consumed = offset + partial.len();
                    if consumed != key.len() {
                        let i = key[consumed];
                        if children.len() == 16 && i < 16 && !(children[i as int] is Absent) {
                            let ch = children[i as int];
                            let h = ref_handle(ch);
                            assert(0 <= h < len);
                            assert(v.entries@[h] is Decoded);
                            let nv = v.entries@[h]->Decoded_0@;
                            assert(nodev_wf(nv, h));
                            lemma_nodev_wf_widen(nv, h, len);
                            lemma_seek_ok_on_complete_store(
                                v,
                                key,
                                nv,
                                consumed + 1,
                                tr.push(
                                    CrumbV {
                                        node,
                                        chosen: i,
                                        status: Status::AtChild(i as usize),
                                    },
                                ),
                                (path + partial).push(i),
                            );
                        }
                    }
                }
            },
            _ => {},
        }
    }
}

proof fn lemma_trail_path_push(tr: Seq<CrumbV>, c: CrumbV)
    ensures
        trail_path(tr.push(c)) == interior_path(tr) + crumb_seg(c, true),
{
    assert(tr.push(c).drop_last() =~= tr);
}

proof fn lemma_interior_path_push(tr: Seq<CrumbV>, c: CrumbV)
    ensures
        interior_path(tr.push(c)) == interior_path(tr) + crumb_seg(c, false),
{
    assert(tr.push(c).drop_last() =~= tr);
}

proof fn lemma_ord_grow(q: Seq<u8>, pi: Seq<u8>, pi2: Seq<u8>)
    requires
        q == pi || lex_less(q, pi),
        is_prefix_of(pi, pi2),
        pi.len() < pi2.len(),
    ensures
        lex_less(q, pi2),
{
    lemma_strict_prefix_lex_less(pi, pi2);
    if q != pi {
        lemma_lex_less_transitive(q, pi, pi2);
    }
}

proof fn lemma_ord_split(q: Seq<u8>, inner: Seq<u8>, seg: Seq<u8>)
    requires
        at_or_before(q, inner + seg) || is_prefix_of(inner + seg, q),
    ensures
        at_or_before(q, inner) || is_prefix_of(inner, q),
{
    if at_or_before(q, inner + seg) {
        lemma_at_most_concat_split(q, inner, seg);
    } else {
        assert(is_prefix_of(inner, q)) by {
            assert(forall|i: int| 0 <= i < inner.len() ==> (inner + seg)[i] == inner[i]);
        }
    }
}

proof fn lemma_ord_select(q: Seq<u8>, x: Seq<u8>, c: u8, i: u8)
    requires
        at_or_before(q, x.push(c)) || is_prefix_of(x.push(c), q),
        c == i ==> lex_less(q, x.push(c)),
        c <= i,
    ensures
        lex_less(q, x.push(i)),
{
    if c == i {
    } else if at_or_before(q, x.push(c)) {
        assert(is_prefix_of(x.push(c), x.push(c)));
        lemma_child_slot_bound(x.push(c), x, c, i);
        if q != x.push(c) {
            lemma_lex_less_transitive(q, x.push(c), x.push(i));
        }
    } else {
        lemma_child_slot_bound(q, x, c, i);
    }
}

impl Crumb {
    /// Moves the cursor on to the next status in its node's sequence.
    pub fn increment(&mut self)
        ensures
            final(self)@.node == old(self)@.node,
            final(self)@.chosen == old(self)@.chosen,
            final(self)@.status == spec_increment(old(self)@.status, old(self)@.node),
    {
        self.status = match (&self.status, &self.node) {
            (Status::Entering, Node::Extension(..)) => Status::At,
            (Status::Entering, Node::Branch(..)) => Status::At,
            (Status::Entering, Node::NibbledBranch(..)) => Status::At,
            (Status::At, Node::Branch(..)) => Status::AtChild(0),
            (Status::At, Node::NibbledBranch(..)) => Status::AtChild(0),
            (Status::AtChild(x), Node::Branch(..)) => if *x < 15 {
                Status::AtChild(*x + 1)
            } else {
                Status::Exiting
            },
            (Status::AtChild(x), Node::NibbledBranch(..)) => if *x < 15 {
                Status::AtChild(*x + 1)
            } else {
                Status::Exiting
            },
            _ => Status::Exiting,
        };
    }
}

/// `q` stands at or before `p` in the lexicographic order.
pub open spec fn at_or_before(q: Seq<u8>, p: Seq<u8>) -> bool {
    q == p || lex_less(q, p)
}

/// Where the path `q` of the last yield may stand relative to the current
/// position `pi`, by the cursor of the top frame. A frame about to be
/// yielded lies strictly after the last yield; a frame whose cursor has
/// moved on was yielded at the position itself or holds the finished
/// subtree the last yield came out of; and a branch whose cursor has
/// caught up with the selector nibble in the path has not advanced past
/// the last yield's subtree yet, so the last yield still lies strictly
/// before the position. Every later yield is thereby strictly greater
/// than `q`.
pub open spec fn yield_ord(q: Seq<u8>, pi: Seq<u8>, top: CrumbV) -> bool {
    match top.status {
        Status::Entering => lex_less(q, pi),
        Status::At => at_or_before(q, pi),
        Status::AtChild(i) => {
            &&& pi.len() > 0
            &&& (at_or_before(q, pi) || is_prefix_of(pi, q))
            &&& (top.chosen as int == i as int ==> lex_less(q, pi))
        },
        Status::Exiting => at_or_before(q, pi) || is_prefix_of(pi, q),
    }
}

/// The iterator over all nodes of a trie, in pre-order: a frame stack and
/// the nibble path of the position it stands at. `last` records the path
/// of the latest yield of the running traversal, so that the ordering of
/// yields can be stated; a seek starts a fresh run.
pub struct TrieDBNodeIterator {
    pub view: TrieView,
    pub trail: Vec<Crumb>,
    pub key_nibbles: NibblePath,
    pub last: Ghost<Option<Seq<u8>>>,
}

impl TrieDBNodeIterator {
    /// The frame stack as mathematical values.
    pub open spec fn trailv(&self) -> Seq<CrumbV> {
        self.trail@.map_values(|c: Crumb| c@)
    }

    /// The last yield of the running traversal stands as `yield_ord`
    /// places it, so every later yield is strictly greater.
    pub open spec fn ord_ok(&self) -> bool {
        self.last@ matches Some(q) ==> (self.trailv().len() == 0 || yield_ord(
            q,
            self.key_nibbles@,
            self.trailv().last(),
        ))
    }

    /// The iterator's invariant: a well-formed view, well-formed frames
    /// whose interior ones are mid-descent, path consistency — the
    /// current path is the concatenation of the frames' contributions —
    /// and the last yield placed before everything still to come.
    pub open spec fn wf(&self) -> bool {
        &&& self.view.wf()
        &&& self.key_nibbles.wf()
        &&& forall|i: int| 0 <= i < self.trailv().len()
            ==> crumb_wf(#[trigger] self.trailv()[i], self.view.entries@.len() as int)
        &&& forall|i: int| 0 <= i < self.trailv().len() - 1
            ==> interior_ok(#[trigger] self.trailv()[i])
        &&& self.key_nibbles@ == trail_path(self.trailv())
        &&& self.ord_ok()
    }

    /// Pushes a frame that has just been entered.
    fn descend_into_node(&mut self, node: Node)
        ensures
            final(self).view == old(self).view,
            final(self).key_nibbles == old(self).key_nibbles,
            final(self).last == old(self).last,
            final(self).trailv() == old(self).trailv().push(
                CrumbV { node: node@, chosen: 0, status: Status::Entering },
            ),
    {
        self.trail.push(Crumb { node, chosen: Ghost(0u8), status: Status::Entering });
        proof {
            assert(final(self).trailv() =~= old(self).trailv().push(
                CrumbV { node: node@, chosen: 0, status: Status::Entering },
            ));
        }
    }

    /// Resolves a reference and descends into the node behind it.
    fn descend(&mut self, child: ChildRef) -> (r: Result<(), TrieError>)
        requires
            old(self).view.wf(),
            !(child is Absent),
            child matches ChildRef::Inline(h) ==> h < old(self).view.entries@.len(),
        ensures
            final(self).view == old(self).view,
            final(self).key_nibbles == old(self).key_nibbles,
            final(self).last == old(self).last,
            match r {
                Ok(()) => old(self).view.spec_lookup(child) matches Ok(nv)
                    && final(self).trailv() == old(self).trailv().push(
                        CrumbV { node: nv, chosen: 0, status: Status::Entering },
                    ) && nodev_wf(nv, old(self).view.entries@.len() as int),
                Err(e) => old(self).view.spec_lookup(child) == Err::<NodeV, TrieError>(e)
                    && final(self).trailv() == old(self).trailv(),
            },
    {
        let node = match self.view.lookup(child) {
            Ok(n) => n,
            Err(e) => {
                return Err(e);
            },
        };
        self.descend_into_node(node);
        Ok(())
    }

    /// Builds an iterator standing at the root of the trie: the root
    /// reference resolved and decoded, one frame pushed, the path empty.
    /// Fails exactly when the root cannot be resolved, with the error the
    /// resolver gives.
    pub fn new(view: TrieView) -> (r: Result<TrieDBNodeIterator, TrieError>)
        requires
            view.wf(),
        ensures
            match r {
                Ok(it) => {
                    &&& it.wf()
                    &&& it.view == view
                    &&& it.key_nibbles@ == Seq::<u8>::empty()
                    &&& it.last@ is None
                    &&& view.spec_lookup(view.root) matches Ok(nv)
                        && it.trailv() == fresh_trail(nv)
                },
                Err(e) => view.spec_lookup(view.root) == Err::<NodeV, TrieError>(e),
            },
    {
        let mut it = TrieDBNodeIterator {
            view,
            trail: Vec::new(),
            key_nibbles: NibblePath::new(),
            last: Ghost(None),
        };
        let root = it.view.root;
        match it.descend(root) {
            Ok(()) => {
                proof {
                    assert(it.trailv() =~= fresh_trail(
                        it.view.spec_lookup(it.view.root)->Ok_0,
                    ));
                    assert(it.key_nibbles@ == trail_path(it.trailv()));
                }
                Ok(it)
            },
            Err(e) => Err(e),
        }
    }

    /// Yields the top frame, which has just been entered: the cursor moves
    /// on, the path is unchanged, and the yield is recorded as the latest
    /// of the running traversal.
    fn yield_top(&mut self) -> (y: (NibblePath, Node))
        requires
            old(self).wf(),
            old(self).trailv().len() > 0,
            old(self).trailv().last().status is Entering,
        ensures
            final(self).wf(),
            final(self).view == old(self).view,
            y.0@ == old(self).key_nibbles@,
            y.1@ == old(self).trailv().last().node,
            final(self).key_nibbles@ == old(self).key_nibbles@,
            final(self).trailv() == old(self).trailv().update(
                old(self).trailv().len() - 1,
                CrumbV {
                    status: spec_increment(
                        old(self).trailv().last().status,
                        old(self).trailv().last().node,
                    ),
                    ..old(self).trailv().last()
                },
            ),
            final(self).trailv().len() > 0,
            y.1@ == final(self).trailv().last().node,
            y.0@ == trail_path(final(self).trailv()),
            final(self).last@ == Some(y.0@),
            old(self).last@ matches Some(q) ==> lex_less(q, y.0@),
            spec_run(old(self).view, old(self).trailv(), old(self).key_nibbles@) == (
                Some(Ok::<(Seq<u8>, NodeV), TrieError>((y.0@, y.1@))),
                final(self).trailv(),
                final(self).key_nibbles@,
            ),
    {
        let ghost tv0 = self.trailv();
        proof {
            reveal_with_fuel(spec_run, 1);
        }
        let mut crumb = match self.trail.pop() {
            Some(c) => c,
            None => {
                proof {
                    assert(false);
                }
                return (NibblePath::new(), Node::Empty);
            },
        };
        let path = self.key_nibbles.clone();
        let node = clone_node(&crumb.node);
        crumb.increment();
        let ghost c2 = crumb@;
        self.trail.push(crumb);
        self.last = Ghost(Some(self.key_nibbles@));
        proof {
            assert(self.trailv() =~= tv0.update(tv0.len() - 1, c2));
            assert(self.trailv().drop_last() =~= tv0.drop_last());
            assert(crumb_seg(tv0.last(), true) =~= Seq::<u8>::empty());
            assert(crumb_seg(c2, true) =~= Seq::<u8>::empty());
            assert(trail_path(self.trailv()) =~= trail_path(tv0));
        }
        (path, node)
    }

    /// One unwinding step: the top frame is exhausted, so its contribution
    /// leaves the path, the frame is popped, and the frame below, if any,
    /// moves its cursor on.
    fn step_exiting(&mut self)
        requires
            old(self).wf(),
            old(self).trailv().len() > 0,
            old(self).trailv().last().status is Exiting,
        ensures
            final(self).wf(),
            final(self).view == old(self).view,
            final(self).last == old(self).last,
            final(self).trailv().len() == old(self).trailv().len() - 1,
            ({
                let pre = spec_run(old(self).view, old(self).trailv(), old(self).key_nibbles@);
                if final(self).trailv().len() == 0 {
                    pre == (
                        None::<Result<(Seq<u8>, NodeV), TrieError>>,
                        final(self).trailv(),
                        final(self).key_nibbles@,
                    )
                } else {
                    &&& trail_pot(final(self).view, final(self).trailv()) < trail_pot(
                        old(self).view,
                        old(self).trailv(),
                    )
                    &&& pre == spec_run(
                        final(self).view,
                        final(self).trailv(),
                        final(self).key_nibbles@,
                    )
                }
            }),
    {
        let ghost tv0 = self.trailv();
        let ghost path0 = self.key_nibbles@;
        let ghost bound = self.view.entries@.len() as int;
        let ghost pot0 = trail_pot(self.view, tv0);
        proof {
            reveal_with_fuel(spec_run, 1);
        }
        let crumb = match self.trail.pop() {
            Some(c) => c,
            None => {
                proof {
                    assert(false);
                }
                return;
            },
        };
        proof {
            assert(self.trailv() =~= tv0.drop_last());
            assert(crumb@ == tv0.last());
            assert(crumb_wf(tv0.last(), bound));
        }
        let ghost seg = crumb_seg(tv0.last(), true);
        let ghost inner = interior_path(tv0.drop_last());
        proof {
            assert(path0 == inner + seg);
        }
        match &crumb.node {
            Node::Empty => {},
            Node::Leaf(..) => {},
            Node::Extension(p, _) => {
                let k = p.len();
                self.key_nibbles.drop_lasts(k);
            },
            Node::Branch(..) => {
                self.key_nibbles.pop();
            },
            Node::NibbledBranch(p, ..) => {
                let cur = self.key_nibbles.len();
                let k = p.len();
                proof {
                    assert(k + 1 <= cur);
                }
                self.key_nibbles.drop_lasts(k + 1);
            },
        }
        proof {
            assert(self.key_nibbles@ =~= inner);
            assert(path0.take(path0.len() - seg.len() as int) =~= inner);
        }
        match self.trail.pop() {
            None => {
                proof {
                    assert(tv0.drop_last().len() == 0);
                    assert(self.trailv() =~= Seq::<CrumbV>::empty());
                }
            },
            Some(mut top) => {
                let ghost told = tv0.drop_last().last();
                top.increment();
                let ghost t2 = top@;
                self.trail.push(top);
                proof {
                    assert(interior_ok(told));
                    assert(self.trailv() =~= tv0.drop_last().drop_last().push(t2));
                    assert(crumb_seg(t2, true) == crumb_seg(told, false));
                    lemma_trail_path_push(tv0.drop_last().drop_last(), t2);
                    assert(inner == interior_path(tv0.drop_last().drop_last())
                        + crumb_seg(told, false));
                    assert(self.key_nibbles@ == trail_path(self.trailv()));
                    lemma_trail_pot_push(self.view, tv0.drop_last().drop_last(), t2);
                    assert(interior_pot(self.view, tv0.drop_last())
                        == interior_pot(self.view, tv0.drop_last().drop_last())
                        + frame_pot(self.view, told, false));
                    assert(frame_pot(self.view, t2, true) <= frame_pot(self.view, told, false));
                    assert(trail_pot(self.view, self.trailv()) < pot0);
                    match self.last@ {
                        Option::Some(q) => {
                            lemma_ord_split(q, inner, seg);
                        },
                        Option::None => {},
                    }
                    assert(self.ord_ok());
                    assert(tv0.drop_last().update(tv0.drop_last().len() - 1, t2)
                        =~= self.trailv());
                }
            },
        }
    }

    /// One step over a partial path: an extension resolves its child and
    /// descends behind it; a branch steps to its first child slot.
    fn step_at(&mut self) -> (r: Option<TrieError>)
        requires
            old(self).wf(),
            old(self).trailv().len() > 0,
            old(self).trailv().last().status is At,
        ensures
            final(self).wf(),
            final(self).view == old(self).view,
            final(self).last == old(self).last,
            final(self).trailv().len() > 0,
            ({
                let pre = spec_run(old(self).view, old(self).trailv(), old(self).key_nibbles@);
                match r {
                    Some(e) => pre == (
                        Some(Err::<(Seq<u8>, NodeV), TrieError>(e)),
                        final(self).trailv(),
                        final(self).key_nibbles@,
                    ),
                    None => trail_pot(final(self).view, final(self).trailv()) < trail_pot(
                        old(self).view,
                        old(self).trailv(),
                    ) && pre == spec_run(
                        final(self).view,
                        final(self).trailv(),
                        final(self).key_nibbles@,
                    ),
                }
            }),
    {
        let ghost tv0 = self.trailv();
        let ghost path0 = self.key_nibbles@;
        let ghost bound = self.view.entries@.len() as int;
        let ghost pot0 = trail_pot(self.view, tv0);
        proof {
            reveal_with_fuel(spec_run, 1);
        }
        let mut crumb = match self.trail.pop() {
            Some(c) => c,
            None => {
                proof {
                    assert(false);
                }
                return None;
            },
        };
        proof {
            assert(self.trailv() =~= tv0.drop_last());
            assert(crumb@ == tv0.last());
            assert(crumb_wf(tv0.last(), bound));
        }
        match &crumb.node {
            Node::Extension(p, c) => {
                let partial = p.clone();
                let child = *c;
                self.key_nibbles.append(&partial);
                match self.view.lookup(child) {
                    Ok(node) => {
                        self.trail.push(crumb);
                        self.descend_into_node(node);
                        proof {
                            let cv = CrumbV { node: node@, chosen: 0, status: Status::Entering };
                            assert(self.trailv() =~= tv0.push(cv));
                            lemma_trail_path_push(tv0, cv);
                            assert(self.key_nibbles@ =~= trail_path(self.trailv()));
                            assert(interior_path(tv0) == interior_path(tv0.drop_last())
                                + crumb_seg(tv0.last(), false));
                            let h = ref_handle(child);
                            assert(0 <= h < bound && self.view.entries@[h] is Decoded);
                            assert(nodev_wf(node@, h));
                            match node@ {
                                NodeV::Branch { children, .. } => lemma_kids_weight_guard(
                                    self.view,
                                    children,
                                    0,
                                    h,
                                    bound,
                                ),
                                NodeV::NibbledBranch { children, .. } => lemma_kids_weight_guard(
                                    self.view,
                                    children,
                                    0,
                                    h,
                                    bound,
                                ),
                                _ => {},
                            }
                            assert(frame_pot(self.view, cv, true) < ref_weight(self.view, child));
                            lemma_trail_pot_push(self.view, tv0, cv);
                            assert(interior_pot(self.view, tv0) == interior_pot(
                                self.view,
                                tv0.drop_last(),
                            ) + frame_pot(self.view, tv0.last(), false));
                            assert(trail_pot(self.view, self.trailv()) < pot0);
                            match self.last@ {
                                Option::Some(q) => {
                                    assert(is_prefix_of(path0, self.key_nibbles@));
                                    lemma_ord_grow(q, path0, self.key_nibbles@);
                                },
                                Option::None => {},
                            }
                            assert(self.ord_ok());
                            assert(self.key_nibbles@ =~= path0 + partial@);
                        }
                        None
                    },
                    Err(e) => {
                        crumb.status = Status::Exiting;
                        let ghost c2 = crumb@;
                        self.trail.push(crumb);
                        proof {
                            assert(self.trailv() =~= tv0.update(tv0.len() - 1, c2));
                            assert(self.trailv().drop_last() =~= tv0.drop_last());
                            assert(self.key_nibbles@ == trail_path(self.trailv()));
                            match self.last@ {
                                Option::Some(q) => {
                                    assert(is_prefix_of(path0, self.key_nibbles@));
                                    lemma_ord_grow(q, path0, self.key_nibbles@);
                                },
                                Option::None => {},
                            }
                            assert(self.ord_ok());
                            assert(self.key_nibbles@ =~= path0 + partial@);
                        }
                        Some(e)
                    },
                }
            },
            Node::Branch(..) => {
                self.key_nibbles.push(0);
                crumb.status = Status::AtChild(0);
                crumb.chosen = Ghost(0u8);
                let ghost c2 = crumb@;
                self.trail.push(crumb);
                proof {
                    assert(self.trailv() =~= tv0.update(tv0.len() - 1, c2));
                    assert(self.trailv().drop_last() =~= tv0.drop_last());
                    assert(crumb_seg(c2, true) =~= seq![0u8]);
                    assert(self.key_nibbles@ =~= trail_path(self.trailv()));
                    assert(frame_pot(self.view, c2, true)
                        < frame_pot(self.view, tv0.last(), true));
                    assert(trail_pot(self.view, self.trailv()) < pot0);
                    match self.last@ {
                        Option::Some(q) => {
                            assert(is_prefix_of(path0, self.key_nibbles@));
                            lemma_ord_grow(q, path0, self.key_nibbles@);
                        },
                        Option::None => {},
                    }
                    assert(self.ord_ok());
                    assert(self.key_nibbles@ =~= path0.push(0u8));
                }
                None
            },
            Node::NibbledBranch(p, ..) => {
                let partial = p.clone();
                self.key_nibbles.append(&partial);
                self.key_nibbles.push(0);
                crumb.status = Status::AtChild(0);
                crumb.chosen = Ghost(0u8);
                let ghost c2 = crumb@;
                self.trail.push(crumb);
                proof {
                    assert(self.trailv() =~= tv0.update(tv0.len() - 1, c2));
                    assert(self.trailv().drop_last() =~= tv0.drop_last());
                    assert(crumb_seg(c2, true) =~= partial@.push(0u8));
                    assert(self.key_nibbles@ =~= trail_path(self.trailv()));
                    assert(frame_pot(self.view, c2, true)
                        < frame_pot(self.view, tv0.last(), true));
                    assert(trail_pot(self.view, self.trailv()) < pot0);
                    match self.last@ {
                        Option::Some(q) => {
                            assert(is_prefix_of(path0, self.key_nibbles@));
                            lemma_ord_grow(q, path0, self.key_nibbles@);
                        },
                        Option::None => {},
                    }
                    assert(self.ord_ok());
                    assert(self.key_nibbles@ =~= (path0 + partial@).push(0u8));
                }
                None
            },
            _ => {
                proof {
                    assert(false);
                }
                None
            },
        }
    }

    /// One step along a branch's child slots: an absent slot moves the
    /// cursor on; a present one writes its selector nibble into the path,
    /// resolves the child and descends.
    fn step_at_child(&mut self) -> (r: Option<TrieError>)
        requires
            old(self).wf(),
            old(self).trailv().len() > 0,
            old(self).trailv().last().status is AtChild,
        ensures
            final(self).wf(),
            final(self).view == old(self).view,
            final(self).last == old(self).last,
            final(self).trailv().len() > 0,
            ({
                let pre = spec_run(old(self).view, old(self).trailv(), old(self).key_nibbles@);
                match r {
                    Some(e) => pre == (
                        Some(Err::<(Seq<u8>, NodeV), TrieError>(e)),
                        final(self).trailv(),
                        final(self).key_nibbles@,
                    ),
                    None => trail_pot(final(self).view, final(self).trailv()) < trail_pot(
                        old(self).view,
                        old(self).trailv(),
                    ) && pre == spec_run(
                        final(self).view,
                        final(self).trailv(),
                        final(self).key_nibbles@,
                    ),
                }
            }),
    {
        let ghost tv0 = self.trailv();
        let ghost path0 = self.key_nibbles@;
        let ghost bound = self.view.entries@.len() as int;
        let ghost pot0 = trail_pot(self.view, tv0);
        proof {
            reveal_with_fuel(spec_run, 1);
        }
        let mut crumb = match self.trail.pop() {
            Some(c) => c,
            None => {
                proof {
                    assert(false);
                }
                return None;
            },
        };
        proof {
            assert(self.trailv() =~= tv0.drop_last());
            assert(crumb@ == tv0.last());
            assert(crumb_wf(tv0.last(), bound));
        }
        let i = match crumb.status {
            Status::AtChild(i) => i,
            _ => {
                proof {
                    assert(false);
                }
                0
            },
        };
        let child: ChildRef = match &crumb.node {
            Node::Branch(cs, _) => cs[i],
            Node::NibbledBranch(_, cs, _) => cs[i],
            _ => {
                proof {
                    assert(false);
                }
                ChildRef::Absent
            },
        };
        match child {
            ChildRef::Absent => {
                crumb.increment();
                let ghost c2 = crumb@;
                self.trail.push(crumb);
                proof {
                    assert(self.trailv() =~= tv0.update(tv0.len() - 1, c2));
                    assert(self.trailv().drop_last() =~= tv0.drop_last());
                    assert(crumb_seg(c2, true) == crumb_seg(tv0.last(), true));
                    assert(self.key_nibbles@ == trail_path(self.trailv()));
                    assert(frame_pot(self.view, c2, true)
                        < frame_pot(self.view, tv0.last(), true));
                    assert(trail_pot(self.view, self.trailv()) < pot0);
                    assert(self.ord_ok());
                }
                None
            },
            _ => {
                let ghost seg = crumb_seg(tv0.last(), true);
                let ghost inner = interior_path(tv0.drop_last());
                proof {
                    assert(path0 == inner + seg);
                    assert(seg.len() > 0);
                }
                self.key_nibbles.pop();
                self.key_nibbles.push(i as u8);
                crumb.chosen = Ghost(i as u8);
                let ghost c2 = crumb@;
                proof {
                    assert(self.key_nibbles@ =~= inner + crumb_seg(c2, true));
                    assert(self.key_nibbles@ =~= path0.drop_last().push(i as u8));
                    match self.last@ {
                        Option::Some(q) => {
                            let x = path0.drop_last();
                            let c = tv0.last().chosen;
                            assert(path0 =~= x.push(c));
                            assert(self.key_nibbles@ =~= x.push(i as u8));
                            lemma_ord_select(q, x, c, i as u8);
                        },
                        Option::None => {},
                    }
                }
                match self.view.lookup(child) {
                    Ok(node) => {
                        self.trail.push(crumb);
                        self.descend_into_node(node);
                        proof {
                            let cv = CrumbV { node: node@, chosen: 0, status: Status::Entering };
                            assert(self.trailv() =~= tv0.update(tv0.len() - 1, c2).push(cv));
                            lemma_trail_path_push(tv0.update(tv0.len() - 1, c2), cv);
                            lemma_interior_path_push(
                                tv0.update(tv0.len() - 1, c2).drop_last(),
                                c2,
                            );
                            assert(tv0.update(tv0.len() - 1, c2) =~= tv0.update(
                                tv0.len() - 1,
                                c2,
                            ).drop_last().push(c2));
                            assert(tv0.update(tv0.len() - 1, c2).drop_last()
                                =~= tv0.drop_last());
                            assert(crumb_seg(c2, false) == crumb_seg(c2, true));
                            assert(self.key_nibbles@ == trail_path(self.trailv()));
                            let h = ref_handle(child);
                            assert(0 <= h < bound && self.view.entries@[h] is Decoded);
                            assert(nodev_wf(node@, h));
                            match node@ {
                                NodeV::Branch { children, .. } => lemma_kids_weight_guard(
                                    self.view,
                                    children,
                                    0,
                                    h,
                                    bound,
                                ),
                                NodeV::NibbledBranch { children, .. } => lemma_kids_weight_guard(
                                    self.view,
                                    children,
                                    0,
                                    h,
                                    bound,
                                ),
                                _ => {},
                            }
                            assert(frame_pot(self.view, cv, true) < ref_weight(self.view, child));
                            lemma_trail_pot_push(self.view, tv0.update(tv0.len() - 1, c2), cv);
                            lemma_interior_pot_push(self.view, tv0.drop_last(), c2);
                            assert(interior_pot(self.view, tv0.update(tv0.len() - 1, c2))
                                == interior_pot(self.view, tv0.drop_last())
                                + frame_pot(self.view, c2, false));
                            assert(frame_pot(self.view, c2, false) + frame_pot(
                                self.view,
                                cv,
                                true,
                            ) < frame_pot(self.view, tv0.last(), true));
                            assert(trail_pot(self.view, self.trailv()) < pot0);
                            assert(self.ord_ok());
                        }
                        None
                    },
                    Err(e) => {
                        self.trail.push(crumb);
                        proof {
                            assert(self.trailv() =~= tv0.update(tv0.len() - 1, c2));
                            assert(self.trailv().drop_last() =~= tv0.drop_last());
                            assert(self.key_nibbles@ == trail_path(self.trailv()));
                            assert(self.ord_ok());
                        }
                        Some(e)
                    },
                }
            },
        }
    }

    /// Advances the traversal and yields the next node in pre-order,
    /// together with a copy of the nibble path it stands at, or nothing
    /// once every frame has been unwound: exactly what one pass of the
    /// engine's loop — `spec_run` — makes of the current frame stack and
    /// path. The yielded path is the concatenation of partial paths and
    /// branch selectors from the root to the yielded node, and stands
    /// lexicographically strictly after the previous yield of the running
    /// traversal — a strict prefix counts as coming before what extends
    /// it. A node whose frame has just been entered — after construction
    /// or a seek — is yielded at once, with the path unchanged. A failure
    /// to resolve or decode a child is handed out as the resolver's error.
    pub fn next(&mut self) -> (r: Option<Result<(NibblePath, Node), TrieError>>)
        requires
            old(self).wf(),
        ensures
            final(self).wf(),
            final(self).view == old(self).view,
            ({
                let stepped = spec_run(
                    old(self).view,
                    old(self).trailv(),
                    old(self).key_nibbles@,
                );
                &&& final(self).trailv() == stepped.1
                &&& final(self).key_nibbles@ == stepped.2
                &&& match (r, stepped.0) {
                    (None, None) => true,
                    (Some(y1), Some(y2)) => match (y1, y2) {
                        (Ok(a), Ok(b)) => a.0@ == b.0 && a.1@ == b.1,
                        (Err(e1), Err(e2)) => e1 == e2,
                        _ => false,
                    },
                    _ => false,
                }
            }),
            old(self).trailv().len() == 0 ==> r is None && *final(self) == *old(self),
            r is None ==> final(self).trailv().len() == 0,
            r matches Some(Ok(y)) ==> ({
                &&& y.0@ == final(self).key_nibbles@
                &&& final(self).trailv().len() > 0
                &&& y.1@ == final(self).trailv().last().node
                &&& y.0@ == trail_path(final(self).trailv())
            }),
            (old(self).trailv().len() > 0 && old(self).trailv().last().status is Entering)
                ==> ({
                let c = old(self).trailv().last();
                &&& r matches Some(Ok(y)) && y.0@ == old(self).key_nibbles@ && y.1@ == c.node
                &&& final(self).key_nibbles@ == old(self).key_nibbles@
                &&& final(self).trailv() == old(self).trailv().update(
                    old(self).trailv().len() - 1,
                    CrumbV { status: spec_increment(c.status, c.node), ..c },
                )
            }),
            (old(self).trailv().len() == 1 && old(self).trailv().last().status is Exiting)
                ==> r is None,
            old(self).last@ matches Some(q)
                ==> (r matches Some(Ok(y)) ==> lex_less(q, y.0@)),
            r matches Some(Ok(y)) ==> final(self).last@ == Some(y.0@),
            (r is None || r matches Some(Err(_))) ==> final(self).last == old(self).last,
    {
        proof {
            reveal_with_fuel(spec_run, 1);
        }
        if self.trail.len() == 0 {
            return None;
        }
        let first_status = self.trail[self.trail.len() - 1].status;
        if matches!(first_status, Status::Entering) {
            let y = self.yield_top();
            return Some(Ok(y));
        }
        loop
            invariant
                self.wf(),
                self.view == old(self).view,
                self.trailv().len() > 0,
                self.last == old(self).last,
                old(self).trailv().len() > 0,
                !(old(self).trailv().last().status is Entering),
                (old(self).trailv().len() == 1
                    && old(self).trailv().last().status is Exiting) ==> *self == *old(self),
                spec_run(self.view, self.trailv(), self.key_nibbles@) == spec_run(
                    old(self).view,
                    old(self).trailv(),
                    old(self).key_nibbles@,
                ),
            decreases trail_pot(self.view, self.trailv()),
        {
            let top_status = self.trail[self.trail.len() - 1].status;
            match top_status {
                Status::Entering => {
                    let y = self.yield_top();
                    return Some(Ok(y));
                },
                Status::Exiting => {
                    self.step_exiting();
                    if self.trail.len() == 0 {
                        return None;
                    }
                },
                Status::At => {
                    match self.step_at() {
                        Some(e) => {
                            return Some(Err(e));
                        },
                        None => {},
                    }
                },
                Status::AtChild(_) => {
                    match self.step_at_child() {
                        Some(e) => {
                            return Some(Err(e));
                        },
                        None => {},
                    }
                },
            }
        }
    }

    /// Repositions the iterator so that the next yield is the first node
    /// whose full path is greater than or equal to `key`, taken as a
    /// nibble sequence, or nothing when no such node exists: the stack and
    /// path are rebuilt to exactly what the seek walk — `spec_seek` —
    /// makes of the trie and the key, whatever the iterator did before.
    /// Seeking the empty key puts the iterator back into its freshly
    /// built state. Fails when the root or a node along the key cannot be
    /// resolved, with the resolver's error; the root failure is handed
    /// through unchanged, and on a complete store the walk always
    /// succeeds.
    pub fn seek(&mut self, key: &[u8]) -> (r: Result<(), TrieError>)
        requires
            old(self).wf(),
        ensures
            final(self).wf(),
            final(self).view == old(self).view,
            final(self).last@ is None,
            ({
                let root_res = old(self).view.spec_lookup(old(self).view.root);
                match root_res {
                    Err(e) => r == Err::<(), TrieError>(e) && final(self).trailv().len() == 0,
                    Ok(rootv) => ({
                        let walked = spec_seek(
                            old(self).view,
                            bytes_to_nibbles(key@),
                            rootv,
                            0,
                            Seq::<CrumbV>::empty(),
                            Seq::<u8>::empty(),
                        );
                        &&& r == walked.0
                        &&& final(self).trailv() == walked.1
                        &&& final(self).key_nibbles@ == walked.2
                    }),
                }
            }),
            (key@.len() == 0 && old(self).view.spec_lookup(old(self).view.root) is Ok) ==> ({
                &&& r is Ok
                &&& final(self).trailv() == fresh_trail(
                    old(self).view.spec_lookup(old(self).view.root)->Ok_0,
                )
                &&& final(self).key_nibbles@ == Seq::<u8>::empty()
            }),
    {
        self.trail.clear();
        self.key_nibbles.clear();
        self.last = Ghost(None);
        let key_n = NibblePath::from_bytes(key);
        let root = self.view.root;
        let mut node = match self.view.lookup(root) {
            Ok(n) => n,
            Err(e) => {
                proof {
                    assert(self.trailv() =~= Seq::<CrumbV>::empty());
                }
                return Err(e);
            },
        };
        let ghost rootv = node@;
        let klen = key_n.len();
        let mut offset: usize = 0;
        proof {
            assert(self.trailv() =~= Seq::<CrumbV>::empty());
        }
        loop
            invariant
                self.view == old(self).view,
                self.view.wf(),
                self.key_nibbles.wf(),
                self.last@ is None,
                key_n.wf(),
                key_n@ == bytes_to_nibbles(key@),
                klen == key_n@.len(),
                offset <= klen,
                nodev_wf(node@, self.view.entries@.len() as int),
                forall|i: int| 0 <= i < self.trailv().len()
                    ==> crumb_wf(
                    #[trigger] self.trailv()[i],
                    self.view.entries@.len() as int,
                ),
                forall|i: int| 0 <= i < self.trailv().len()
                    ==> interior_ok(#[trigger] self.trailv()[i]),
                self.key_nibbles@ == interior_path(self.trailv()),
                self.view.spec_lookup(self.view.root) == Ok::<NodeV, TrieError>(rootv),
                key@.len() == 0 ==> self.trailv().len() == 0 && offset == 0 && node@ == rootv,
                spec_seek(
                    self.view,
                    key_n@,
                    node@,
                    offset as int,
                    self.trailv(),
                    self.key_nibbles@,
                ) == spec_seek(
                    self.view,
                    key_n@,
                    rootv,
                    0,
                    Seq::<CrumbV>::empty(),
                    Seq::<u8>::empty(),
                ),
            decreases klen - offset,
        {
            let ghost tv0 = self.trailv();
            let ghost path0 = self.key_nibbles@;
            let ghost bound = self.view.entries@.len() as int;
            let ghost nv0 = node@;
            let ghost off0 = offset as int;
            proof {
                reveal_with_fuel(spec_seek, 1);
            }
            match node {
                Node::Empty => {
                    let status = if offset < klen {
                        Status::Exiting
                    } else {
                        Status::Entering
                    };
                    let crumb = Crumb { node, chosen: Ghost(0u8), status };
                    let ghost cv = crumb@;
                    self.trail.push(crumb);
                    proof {
                        assert(self.trailv() =~= tv0.push(cv));
                        lemma_trail_path_push(tv0, cv);
                        assert(self.key_nibbles@ =~= trail_path(self.trailv()));
                        assert(spec_seek(self.view, key_n@, nv0, off0, tv0, path0)
                            == (Ok::<(), TrieError>(()), self.trailv(), self.key_nibbles@));
                    }
                    return Ok(());
                },
                Node::Leaf(..) => {
                    let behind = match &node {
                        Node::Leaf(p, _) => lex_less_than_suffix(p, &key_n, offset),
                        _ => false,
                    };
                    let status = if behind {
                        Status::Exiting
                    } else {
                        Status::Entering
                    };
                    let crumb = Crumb { node, chosen: Ghost(0u8), status };
                    let ghost cv = crumb@;
                    self.trail.push(crumb);
                    proof {
                        assert(self.trailv() =~= tv0.push(cv));
                        lemma_trail_path_push(tv0, cv);
                        assert(self.key_nibbles@ =~= trail_path(self.trailv()));
                        assert(spec_seek(self.view, key_n@, nv0, off0, tv0, path0)
                            == (Ok::<(), TrieError>(()), self.trailv(), self.key_nibbles@));
                    }
                    return Ok(());
                },
                Node::Extension(..) => {
                    let (partial, child) = match &node {
                        Node::Extension(p, c) => (p.clone(), *c),
                        _ => (NibblePath::new(), ChildRef::Absent),
                    };
                    if !prefix_matches_from(&key_n, offset, &partial) {
                        let behind = lex_less_than_suffix(&partial, &key_n, offset);
                        let status = if behind {
                            self.key_nibbles.append(&partial);
                            Status::Exiting
                        } else {
                            Status::Entering
                        };
                        let crumb = Crumb { node, chosen: Ghost(0u8), status };
                        let ghost cv = crumb@;
                        self.trail.push(crumb);
                        proof {
                            assert(self.trailv() =~= tv0.push(cv));
                            lemma_trail_path_push(tv0, cv);
                            assert(self.key_nibbles@ =~= trail_path(self.trailv()));
                            assert(spec_seek(self.view, key_n@, nv0, off0, tv0, path0)
                                == (Ok::<(), TrieError>(()), self.trailv(), self.key_nibbles@));
                        }
                        return Ok(());
                    }
                    let plen = partial.len();
                    self.key_nibbles.append(&partial);
                    match self.view.lookup(child) {
                        Ok(next_node) => {
                            let crumb = Crumb { node, chosen: Ghost(0u8), status: Status::At };
                            let ghost cv = crumb@;
                            self.trail.push(crumb);
                            proof {
                                assert(self.trailv() =~= tv0.push(cv));
                                lemma_interior_path_push(tv0, cv);
                            }
                            node = next_node;
                            offset = offset + plen;
                            proof {
                                assert(spec_seek(self.view, key_n@, nv0, off0, tv0, path0)
                                    == spec_seek(
                                        self.view,
                                        key_n@,
                                        node@,
                                        offset as int,
                                        self.trailv(),
                                        self.key_nibbles@,
                                    ));
                            }
                        },
                        Err(e) => {
                            let crumb = Crumb {
                                node,
                                chosen: Ghost(0u8),
                                status: Status::Exiting,
                            };
                            let ghost cv = crumb@;
                            self.trail.push(crumb);
                            proof {
                                assert(self.trailv() =~= tv0.push(cv));
                                lemma_trail_path_push(tv0, cv);
                                assert(self.key_nibbles@ =~= trail_path(self.trailv()));
                                assert(spec_seek(self.view, key_n@, nv0, off0, tv0, path0)
                                    == (Err::<(), TrieError>(e), self.trailv(), self.key_nibbles@));
                            }
                            return Err(e);
                        },
                    }
                },
                Node::Branch(..) => {
                    if offset == klen {
                        let crumb = Crumb {
                            node,
                            chosen: Ghost(0u8),
                            status: Status::Entering,
                        };
                        let ghost cv = crumb@;
                        self.trail.push(crumb);
                        proof {
                            assert(self.trailv() =~= tv0.push(cv));
                            lemma_trail_path_push(tv0, cv);
                            assert(self.key_nibbles@ =~= trail_path(self.trailv()));
                            assert(spec_seek(self.view, key_n@, nv0, off0, tv0, path0)
                                == (Ok::<(), TrieError>(()), self.trailv(), self.key_nibbles@));
                        }
                        return Ok(());
                    }
                    let i = key_n.at(offset);
                    proof {
                        assert(key_n@[offset as int] < 16);
                    }
                    let child = match &node {
                        Node::Branch(cs, _) => cs[i as usize],
                        _ => ChildRef::Absent,
                    };
                    self.key_nibbles.push(i);
                    let crumb = Crumb {
                        node,
                        chosen: Ghost(i),
                        status: Status::AtChild(i as usize),
                    };
                    let ghost cv = crumb@;
                    match child {
                        ChildRef::Absent => {
                            self.trail.push(crumb);
                            proof {
                                assert(self.trailv() =~= tv0.push(cv));
                                lemma_trail_path_push(tv0, cv);
                                assert(self.key_nibbles@ =~= trail_path(self.trailv()));
                                assert(crumb_seg(cv, true) =~= seq![i]);
                                assert(spec_seek(self.view, key_n@, nv0, off0, tv0, path0)
                                    == (Ok::<(), TrieError>(()), self.trailv(), self.key_nibbles@));
                            }
                            return Ok(());
                        },
                        _ => {
                            match self.view.lookup(child) {
                                Ok(next_node) => {
                                    self.trail.push(crumb);
                                    proof {
                                        assert(self.trailv() =~= tv0.push(cv));
                                        lemma_interior_path_push(tv0, cv);
                                        assert(crumb_seg(cv, false) =~= seq![i]);
                                    }
                                    node = next_node;
                                    offset = offset + 1;
                                    proof {
                                        assert(spec_seek(self.view, key_n@, nv0, off0, tv0, path0)
                                            == spec_seek(
                                                self.view,
                                                key_n@,
                                                node@,
                                                offset as int,
                                                self.trailv(),
                                                self.key_nibbles@,
                                            ));
                                    }
                                },
                                Err(e) => {
                                    self.trail.push(crumb);
                                    proof {
                                        assert(self.trailv() =~= tv0.push(cv));
                                        lemma_trail_path_push(tv0, cv);
                                        assert(self.key_nibbles@ =~= trail_path(self.trailv()));
                                        assert(crumb_seg(cv, true) =~= seq![i]);
                                        assert(spec_seek(self.view, key_n@, nv0, off0, tv0, path0)
                                            == (Err::<(), TrieError>(e), self.trailv(), self.key_nibbles@));
                                    }
                                    return Err(e);
                                },
                            }
                        },
                    }
                },
                Node::NibbledBranch(..) => {
                    let partial = match &node {
                        Node::NibbledBranch(p, _, _) => p.clone(),
                        _ => NibblePath::new(),
                    };
                    if !prefix_matches_from(&key_n, offset, &partial) {
                        let behind = lex_less_than_suffix(&partial, &key_n, offset);
                        if behind {
                            self.key_nibbles.append(&partial);
                            self.key_nibbles.push(15);
                            let crumb = Crumb {
                                node,
                                chosen: Ghost(15u8),
                                status: Status::Exiting,
                            };
                            let ghost cv = crumb@;
                            self.trail.push(crumb);
                            proof {
                                assert(self.trailv() =~= tv0.push(cv));
                                lemma_trail_path_push(tv0, cv);
                                assert(self.key_nibbles@ =~= trail_path(self.trailv()));
                                assert(crumb_seg(cv, true) =~= partial@.push(15u8));
                                assert(spec_seek(self.view, key_n@, nv0, off0, tv0, path0)
                                    == (Ok::<(), TrieError>(()), self.trailv(), self.key_nibbles@));
                            }
                            return Ok(());
                        }
                        let crumb = Crumb {
                            node,
                            chosen: Ghost(0u8),
                            status: Status::Entering,
                        };
                        let ghost cv = crumb@;
                        self.trail.push(crumb);
                        proof {
                            assert(self.trailv() =~= tv0.push(cv));
                            lemma_trail_path_push(tv0, cv);
                            assert(self.key_nibbles@ =~= trail_path(self.trailv()));
                            assert(spec_seek(self.view, key_n@, nv0, off0, tv0, path0)
                                == (Ok::<(), TrieError>(()), self.trailv(), self.key_nibbles@));
                        }
                        return Ok(());
                    }
                    let plen = partial.len();
                    let consumed = offset + plen;
                    if consumed == klen {
                        let crumb = Crumb {
                            node,
                            chosen: Ghost(0u8),
                            status: Status::Entering,
                        };
                        let ghost cv = crumb@;
                        self.trail.push(crumb);
                        proof {
                            assert(self.trailv() =~= tv0.push(cv));
                            lemma_trail_path_push(tv0, cv);
                            assert(self.key_nibbles@ =~= trail_path(self.trailv()));
                            assert(spec_seek(self.view, key_n@, nv0, off0, tv0, path0)
                                == (Ok::<(), TrieError>(()), self.trailv(), self.key_nibbles@));
                        }
                        return Ok(());
                    }
                    let i = key_n.at(consumed);
                    proof {
                        assert(key_n@[consumed as int] < 16);
                    }
                    let child = match &node {
                        Node::NibbledBranch(_, cs, _) => cs[i as usize],
                        _ => ChildRef::Absent,
                    };
                    self.key_nibbles.append(&partial);
                    self.key_nibbles.push(i);
                    let crumb = Crumb {
                        node,
                        chosen: Ghost(i),
                        status: Status::AtChild(i as usize),
                    };
                    let ghost cv = crumb@;
                    match child {
                        ChildRef::Absent => {
                            self.trail.push(crumb);
                            proof {
                                assert(self.trailv() =~= tv0.push(cv));
                                lemma_trail_path_push(tv0, cv);
                                assert(self.key_nibbles@ =~= trail_path(self.trailv()));
                                assert(crumb_seg(cv, true) =~= partial@.push(i));
                                assert(spec_seek(self.view, key_n@, nv0, off0, tv0, path0)
                                    == (Ok::<(), TrieError>(()), self.trailv(), self.key_nibbles@));
                            }
                            return Ok(());
                        },
                        _ => {
                            match self.view.lookup(child) {
                                Ok(next_node) => {
                                    self.trail.push(crumb);
                                    proof {
                                        assert(self.trailv() =~= tv0.push(cv));
                                        lemma_interior_path_push(tv0, cv);
                                        assert(crumb_seg(cv, false) =~= partial@.push(i));
                                    }
                                    node = next_node;
                                    offset = consumed + 1;
                                    proof {
                                        assert(spec_seek(self.view, key_n@, nv0, off0, tv0, path0)
                                            == spec_seek(
                                                self.view,
                                                key_n@,
                                                node@,
                                                offset as int,
                                                self.trailv(),
                                                self.key_nibbles@,
                                            ));
                                    }
                                },
                                Err(e) => {
                                    self.trail.push(crumb);
                                    proof {
                                        assert(self.trailv() =~= tv0.push(cv));
                                        lemma_trail_path_push(tv0, cv);
                                        assert(self.key_nibbles@ =~= trail_path(self.trailv()));
                                        assert(crumb_seg(cv, true) =~= partial@.push(i));
                                        assert(spec_seek(self.view, key_n@, nv0, off0, tv0, path0)
                                            == (Err::<(), TrieError>(e), self.trailv(), self.key_nibbles@));
                                    }
                                    return Err(e);
                                },
                            }
                        },
                    }
                },
            }
        }
    }
}

} // verus!
