use nibble_trie::iterator::TrieDBNodeIterator;
use nibble_trie::nibble::NibblePath;
use nibble_trie::node::ChildRef;
use nibble_trie::node::Node;
use nibble_trie::node::StoreEntry;
use nibble_trie::node::TrieError;
use nibble_trie::node::TrieView;

fn nibble_path(ns: &[u8]) -> NibblePath {
    NibblePath::from_nibbles(ns.to_vec()).unwrap()
}

#[test]
fn from_bytes_splits_each_byte() {
    let p = NibblePath::from_bytes(&[0x12, 0xab]);
    assert!(p == nibble_path(&[1, 2, 10, 11]));
    assert!(NibblePath::from_bytes(&[]).is_empty());
}

#[test]
fn from_nibbles_rejects_wide_values() {
    assert!(NibblePath::from_nibbles(vec![0, 15]).is_some());
    assert!(NibblePath::from_nibbles(vec![0, 16]).is_none());
}

#[test]
fn push_pop_append() {
    let mut p = NibblePath::new();
    p.push(3);
    p.push(7);
    assert!(p.len() == 2 && p.at(0) == 3 && p.at(1) == 7);
    assert!(p.pop() == Some(7));
    p.append(&nibble_path(&[1, 2]));
    assert!(p == nibble_path(&[3, 1, 2]));
    assert!(NibblePath::new().pop().is_none());
}

#[test]
fn append_partial_keeps_alignment() {
    let mut p = nibble_path(&[9]);
    p.append_partial(Some(5), &[0x12]);
    assert!(p == nibble_path(&[9, 5, 1, 2]));
    let mut q = NibblePath::new();
    q.append_partial(None, &[0xf0]);
    assert!(q == nibble_path(&[15, 0]));
}

#[test]
fn drop_lasts_truncates_by_nibbles() {
    let mut p = nibble_path(&[1, 2, 3, 4, 5]);
    p.drop_lasts(2);
    assert!(p == nibble_path(&[1, 2, 3]));
    p.drop_lasts(9);
    assert!(p.is_empty());
}

#[test]
fn as_prefix_packs_pairs_and_flags_odd_tail() {
    let (bytes, half) = nibble_path(&[0, 1, 2]).as_prefix();
    assert!(bytes == vec![0x01]);
    assert!(half == Some(2));
    let (bytes, half) = nibble_path(&[0xa, 0xb]).as_prefix();
    assert!(bytes == vec![0xab]);
    assert!(half.is_none());
    let (bytes, half) = NibblePath::new().as_prefix();
    assert!(bytes.is_empty() && half.is_none());
}

#[test]
fn lexicographic_order_and_prefixes() {
    let short = nibble_path(&[0, 1]);
    let long = nibble_path(&[0, 1, 2]);
    let other = nibble_path(&[0, 2]);
    assert!(short.lex_lt(&long));
    assert!(!long.lex_lt(&short));
    assert!(long.lex_lt(&other));
    assert!(!short.lex_lt(&short));
    assert!(long.starts_with(&short));
    assert!(!short.starts_with(&long));
    assert!(!other.starts_with(&short));
}

#[test]
fn view_builder_rejects_ill_formed_tries() {
    // A child handle must point strictly below its node's own entry.
    let mut cs = [ChildRef::Absent; 16];
    cs[0] = ChildRef::Hashed(0);
    let self_loop = Node::Branch(cs, None);
    assert!(TrieView::new(vec![StoreEntry::Decoded(self_loop)], ChildRef::Hashed(0)).is_none());

    // An extension consumes at least one nibble.
    let ext = Node::Extension(NibblePath::new(), ChildRef::Hashed(0));
    let entries = vec![
        StoreEntry::Decoded(Node::Empty),
        StoreEntry::Decoded(ext),
    ];
    assert!(TrieView::new(entries, ChildRef::Hashed(1)).is_none());

    // The root reference must be present, and an inline root in range.
    assert!(TrieView::new(vec![StoreEntry::Decoded(Node::Empty)], ChildRef::Absent).is_none());
    assert!(TrieView::new(vec![StoreEntry::Decoded(Node::Empty)], ChildRef::Inline(1)).is_none());
}

#[test]
fn missing_root_is_incomplete_database() {
    let view = TrieView::new(Vec::new(), ChildRef::Hashed(0)).unwrap();
    match TrieDBNodeIterator::new(view) {
        Err(TrieError::IncompleteDatabase(h)) => assert!(h == 0),
        _ => panic!("unexpected item"),
    }
}

#[test]
fn undecodable_root_is_decoder_error() {
    let view = TrieView::new(vec![StoreEntry::Corrupt], ChildRef::Hashed(0)).unwrap();
    match TrieDBNodeIterator::new(view) {
        Err(TrieError::DecoderError(h)) => assert!(h == 0),
        _ => panic!("unexpected item"),
    }
}

#[test]
fn missing_child_surfaces_during_traversal() {
    // A branch whose only child hash has no bytes behind it.
    let mut cs = [ChildRef::Absent; 16];
    cs[4] = ChildRef::Hashed(0);
    let entries = vec![
        StoreEntry::Missing,
        StoreEntry::Decoded(Node::Branch(cs, None)),
    ];
    let view = TrieView::new(entries, ChildRef::Hashed(1)).unwrap();
    let mut iter = TrieDBNodeIterator::new(view).unwrap();
    match iter.next() {
        Some(Ok((prefix, Node::Branch(..)))) => assert!(prefix.is_empty()),
        _ => panic!("unexpected item"),
    }
    match iter.next() {
        Some(Err(TrieError::IncompleteDatabase(h))) => assert!(h == 0),
        _ => panic!("unexpected item"),
    }
}

#[test]
fn corrupt_child_surfaces_during_traversal() {
    let ext = Node::Extension(nibble_path(&[7]), ChildRef::Inline(0));
    let entries = vec![StoreEntry::Corrupt, StoreEntry::Decoded(ext)];
    let view = TrieView::new(entries, ChildRef::Hashed(1)).unwrap();
    let mut iter = TrieDBNodeIterator::new(view).unwrap();
    match iter.next() {
        Some(Ok((prefix, Node::Extension(..)))) => assert!(prefix.is_empty()),
        _ => panic!("unexpected item"),
    }
    match iter.next() {
        Some(Err(TrieError::DecoderError(h))) => assert!(h == 0),
        _ => panic!("unexpected item"),
    }
}
