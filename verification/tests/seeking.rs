use nibble_trie::iterator::TrieDBNodeIterator;
use nibble_trie::nibble::NibblePath;
use nibble_trie::node::ChildRef;
use nibble_trie::node::Node;
use nibble_trie::node::StoreEntry;
use nibble_trie::node::TrieView;

fn nibble_path(ns: &[u8]) -> NibblePath {
    NibblePath::from_nibbles(ns.to_vec()).unwrap()
}

fn slots(pairs: &[(usize, ChildRef)]) -> [ChildRef; 16] {
    let mut cs = [ChildRef::Absent; 16];
    for (i, c) in pairs {
        cs[*i] = *c;
    }
    cs
}

fn trie_with_extension() -> TrieView {
    let leaf_b = Node::Leaf(nibble_path(&[3]), b"bbbb".to_vec());
    let branch_01 = Node::Branch(slots(&[(2, ChildRef::Inline(0))]), Some(b"aaaa".to_vec()));
    let leaf_c = Node::Leaf(nibble_path(&[]), b"cccc".to_vec());
    let branch_0 = Node::Branch(
        slots(&[(1, ChildRef::Hashed(1)), (2, ChildRef::Inline(2))]),
        None,
    );
    let ext = Node::Extension(nibble_path(&[0]), ChildRef::Hashed(3));
    TrieView::new(
        vec![
            StoreEntry::Decoded(leaf_b),
            StoreEntry::Decoded(branch_01),
            StoreEntry::Decoded(leaf_c),
            StoreEntry::Decoded(branch_0),
            StoreEntry::Decoded(ext),
        ],
        ChildRef::Hashed(4),
    )
    .unwrap()
}

fn trie_without_extension() -> TrieView {
    let leaf_b = Node::Leaf(nibble_path(&[3]), b"bbbb".to_vec());
    let nb_01 = Node::NibbledBranch(
        nibble_path(&[]),
        slots(&[(2, ChildRef::Inline(0))]),
        Some(b"aaaa".to_vec()),
    );
    let leaf_c = Node::Leaf(nibble_path(&[]), b"cccc".to_vec());
    let nb_root = Node::NibbledBranch(
        nibble_path(&[0]),
        slots(&[(1, ChildRef::Hashed(1)), (2, ChildRef::Inline(2))]),
        None,
    );
    TrieView::new(
        vec![
            StoreEntry::Decoded(leaf_b),
            StoreEntry::Decoded(nb_01),
            StoreEntry::Decoded(leaf_c),
            StoreEntry::Decoded(nb_root),
        ],
        ChildRef::Hashed(3),
    )
    .unwrap()
}

fn empty_trie() -> TrieView {
    TrieView::new(vec![StoreEntry::Decoded(Node::Empty)], ChildRef::Hashed(0)).unwrap()
}

#[test]
fn seek_works_with_extension() {
    let trie = trie_with_extension();
    let mut iter = TrieDBNodeIterator::new(trie).unwrap();

    iter.seek(&[]).unwrap();
    match iter.next() {
        Some(Ok((prefix, _))) => assert!(prefix == nibble_path(&[])),
        _ => panic!("unexpected item"),
    }

    iter.seek(&[0x00]).unwrap();
    match iter.next() {
        Some(Ok((prefix, _))) => assert!(prefix == nibble_path(&[0, 1])),
        _ => panic!("unexpected item"),
    }

    iter.seek(&[0x01]).unwrap();
    match iter.next() {
        Some(Ok((prefix, _))) => assert!(prefix == nibble_path(&[0, 1])),
        _ => panic!("unexpected item"),
    }

    iter.seek(&[0x02]).unwrap();
    match iter.next() {
        Some(Ok((prefix, _))) => assert!(prefix == nibble_path(&[0, 2])),
        _ => panic!("unexpected item"),
    }

    iter.seek(&[0x03]).unwrap();
    assert!(iter.next().is_none());
}

#[test]
fn seek_works_without_extension() {
    let trie = trie_without_extension();
    let mut iter = TrieDBNodeIterator::new(trie).unwrap();

    iter.seek(&[]).unwrap();
    match iter.next() {
        Some(Ok((prefix, _))) => assert!(prefix == nibble_path(&[])),
        _ => panic!("unexpected item"),
    }

    iter.seek(&[0x00]).unwrap();
    match iter.next() {
        Some(Ok((prefix, _))) => assert!(prefix == nibble_path(&[0, 1])),
        _ => panic!("unexpected item"),
    }

    iter.seek(&[0x01]).unwrap();
    match iter.next() {
        Some(Ok((prefix, _))) => assert!(prefix == nibble_path(&[0, 1])),
        _ => panic!("unexpected item"),
    }

    iter.seek(&[0x02]).unwrap();
    match iter.next() {
        Some(Ok((prefix, _))) => assert!(prefix == nibble_path(&[0, 2])),
        _ => panic!("unexpected item"),
    }

    iter.seek(&[0x03]).unwrap();
    assert!(iter.next().is_none());
}

#[test]
fn seek_over_empty_works() {
    let trie = empty_trie();
    let mut iter = TrieDBNodeIterator::new(trie).unwrap();

    iter.seek(&[]).unwrap();
    match iter.next() {
        Some(Ok((prefix, node))) => {
            assert!(prefix == nibble_path(&[]));
            match node {
                Node::Empty => {}
                _ => panic!("unexpected node"),
            }
        }
        _ => panic!("unexpected item"),
    }

    iter.seek(&[0x00]).unwrap();
    assert!(iter.next().is_none());
}

/// Seeking the empty key restores the freshly built iterator: the full
/// traversals agree, yield for yield.
#[test]
fn seek_empty_restores_fresh_traversal() {
    for (fresh_trie, seeked_trie) in [
        (trie_with_extension(), trie_with_extension()),
        (trie_without_extension(), trie_without_extension()),
    ] {
        let mut fresh = TrieDBNodeIterator::new(fresh_trie).unwrap();
        let mut seeked = TrieDBNodeIterator::new(seeked_trie).unwrap();
        seeked.seek(&[0x01]).unwrap();
        seeked.next();
        seeked.seek(&[]).unwrap();
        loop {
            match (fresh.next(), seeked.next()) {
                (None, None) => break,
                (Some(Ok((p1, _))), Some(Ok((p2, _)))) => assert!(p1 == p2),
                _ => panic!("unexpected item"),
            }
        }
    }
}

/// The first yield after a seek never stands before the key.
#[test]
fn seek_lands_at_or_after_key() {
    let keys: [&[u8]; 5] = [&[], &[0x00], &[0x01], &[0x02], &[0x03]];
    for key in keys {
        let mut iter = TrieDBNodeIterator::new(trie_with_extension()).unwrap();
        iter.seek(key).unwrap();
        if let Some(item) = iter.next() {
            let (prefix, _) = item.unwrap();
            let key_path = NibblePath::from_bytes(key);
            assert!(!prefix.lex_lt(&key_path));
        }
    }
}
