use nibble_trie::iterator::TrieDBNodeIterator;
use nibble_trie::nibble::NibblePath;
use nibble_trie::node::ChildRef;
use nibble_trie::node::Node;
use nibble_trie::node::StoreEntry;
use nibble_trie::node::TrieView;

fn nibble_path(ns: &[u8]) -> NibblePath {
    NibblePath::from_nibbles(ns.to_vec()).unwrap()
}

fn slots(pairs: &[(usize, ChildRef)]) -> [ChildRef; 16] {
    let mut cs = [ChildRef::Absent; 16];
    for (i, c) in pairs {
        cs[*i] = *c;
    }
    cs
}

/// The trie of an extension-enabled layout holding
/// {01 -> "aaaa", 0123 -> "bbbb", 02 -> "cccc"}.
fn trie_with_extension() -> TrieView {
    let leaf_b = Node::Leaf(nibble_path(&[3]), b"bbbb".to_vec());
    let branch_01 = Node::Branch(slots(&[(2, ChildRef::Inline(0))]), Some(b"aaaa".to_vec()));
    let leaf_c = Node::Leaf(nibble_path(&[]), b"cccc".to_vec());
    let branch_0 = Node::Branch(
        slots(&[(1, ChildRef::Hashed(1)), (2, ChildRef::Inline(2))]),
        None,
    );
    let ext = Node::Extension(nibble_path(&[0]), ChildRef::Hashed(3));
    TrieView::new(
        vec![
            StoreEntry::Decoded(leaf_b),
            StoreEntry::Decoded(branch_01),
            StoreEntry::Decoded(leaf_c),
            StoreEntry::Decoded(branch_0),
            StoreEntry::Decoded(ext),
        ],
        ChildRef::Hashed(4),
    )
    .unwrap()
}

/// The same pairs in an extension-free layout.
fn trie_without_extension() -> TrieView {
    let leaf_b = Node::Leaf(nibble_path(&[3]), b"bbbb".to_vec());
    let nb_01 = Node::NibbledBranch(
        nibble_path(&[]),
        slots(&[(2, ChildRef::Inline(0))]),
        Some(b"aaaa".to_vec()),
    );
    let leaf_c = Node::Leaf(nibble_path(&[]), b"cccc".to_vec());
    let nb_root = Node::NibbledBranch(
        nibble_path(&[0]),
        slots(&[(1, ChildRef::Hashed(1)), (2, ChildRef::Inline(2))]),
        None,
    );
    TrieView::new(
        vec![
            StoreEntry::Decoded(leaf_b),
            StoreEntry::Decoded(nb_01),
            StoreEntry::Decoded(leaf_c),
            StoreEntry::Decoded(nb_root),
        ],
        ChildRef::Hashed(3),
    )
    .unwrap()
}

fn empty_trie() -> TrieView {
    TrieView::new(vec![StoreEntry::Decoded(Node::Empty)], ChildRef::Hashed(0)).unwrap()
}

#[test]
fn iterator_works_with_extension() {
    let trie = trie_with_extension();
    let mut iter = TrieDBNodeIterator::new(trie).unwrap();

    match iter.next() {
        Some(Ok((prefix, node))) => {
            assert!(prefix == nibble_path(&[]));
            match node {
                Node::Extension(partial, _) => assert!(partial == nibble_path(&[0])),
                _ => panic!("unexpected node"),
            }
        }
        _ => panic!("unexpected item"),
    }

    match iter.next() {
        Some(Ok((prefix, node))) => {
            assert!(prefix == nibble_path(&[0]));
            match node {
                Node::Branch(..) => {}
                _ => panic!("unexpected node"),
            }
        }
        _ => panic!("unexpected item"),
    }

    match iter.next() {
        Some(Ok((prefix, node))) => {
            assert!(prefix == nibble_path(&[0, 1]));
            match node {
                Node::Branch(..) => {}
                _ => panic!("unexpected node"),
            }
        }
        _ => panic!("unexpected item"),
    }

    match iter.next() {
        Some(Ok((prefix, node))) => {
            assert!(prefix == nibble_path(&[0, 1, 2]));
            match node {
                Node::Leaf(partial, _) => assert!(partial == nibble_path(&[3])),
                _ => panic!("unexpected node"),
            }
        }
        _ => panic!("unexpected item"),
    }

    match iter.next() {
        Some(Ok((prefix, node))) => {
            assert!(prefix == nibble_path(&[0, 2]));
            match node {
                Node::Leaf(partial, _) => assert!(partial == nibble_path(&[])),
                _ => panic!("unexpected node"),
            }
        }
        _ => panic!("unexpected item"),
    }

    assert!(iter.next().is_none());
}

#[test]
fn iterator_works_without_extension() {
    let trie = trie_without_extension();
    let mut iter = TrieDBNodeIterator::new(trie).unwrap();

    match iter.next() {
        Some(Ok((prefix, node))) => {
            assert!(prefix == nibble_path(&[]));
            match node {
                Node::NibbledBranch(partial, _, _) => assert!(partial == nibble_path(&[0])),
                _ => panic!("unexpected node"),
            }
        }
        _ => panic!("unexpected item"),
    }

    match iter.next() {
        Some(Ok((prefix, node))) => {
            assert!(prefix == nibble_path(&[0, 1]));
            match node {
                Node::NibbledBranch(partial, _, _) => assert!(partial == nibble_path(&[])),
                _ => panic!("unexpected node"),
            }
        }
        _ => panic!("unexpected item"),
    }

    match iter.next() {
        Some(Ok((prefix, node))) => {
            assert!(prefix == nibble_path(&[0, 1, 2]));
            match node {
                Node::Leaf(partial, _) => assert!(partial == nibble_path(&[3])),
                _ => panic!("unexpected node"),
            }
        }
        _ => panic!("unexpected item"),
    }

    match iter.next() {
        Some(Ok((prefix, node))) => {
            assert!(prefix == nibble_path(&[0, 2]));
            match node {
                Node::Leaf(partial, _) => assert!(partial == nibble_path(&[])),
                _ => panic!("unexpected node"),
            }
        }
        _ => panic!("unexpected item"),
    }

    assert!(iter.next().is_none());
}

#[test]
fn iterator_over_empty_works() {
    let trie = empty_trie();
    let mut iter = TrieDBNodeIterator::new(trie).unwrap();

    match iter.next() {
        Some(Ok((prefix, node))) => {
            assert!(prefix == nibble_path(&[]));
            match node {
                Node::Empty => {}
                _ => panic!("unexpected node"),
            }
        }
        _ => panic!("unexpected item"),
    }

    assert!(iter.next().is_none());
}

/// Every pair of consecutive yields is ordered: the earlier path is a
/// strict prefix of the later one, or comes before it lexicographically.
#[test]
fn traversal_yields_ascending_paths() {
    for trie in [trie_with_extension(), trie_without_extension()] {
        let mut iter = TrieDBNodeIterator::new(trie).unwrap();
        let mut paths: Vec<NibblePath> = Vec::new();
        while let Some(item) = iter.next() {
            let (prefix, _) = item.unwrap();
            paths.push(prefix);
        }
        for w in paths.windows(2) {
            let earlier = &w[0];
            let later = &w[1];
            assert!(
                (later.starts_with(earlier) && later.len() > earlier.len())
                    || earlier.lex_lt(later)
            );
        }
    }
}

/// A full traversal reaches every node exactly once: each of the five
/// (resp. four) distinct positions shows up one time.
#[test]
fn traversal_covers_every_node_once() {
    let trie = trie_with_extension();
    let mut iter = TrieDBNodeIterator::new(trie).unwrap();
    let mut paths: Vec<NibblePath> = Vec::new();
    while let Some(item) = iter.next() {
        let (prefix, _) = item.unwrap();
        paths.push(prefix);
    }
    let expected = [
        nibble_path(&[]),
        nibble_path(&[0]),
        nibble_path(&[0, 1]),
        nibble_path(&[0, 1, 2]),
        nibble_path(&[0, 2]),
    ];
    assert!(paths.len() == expected.len());
    for (got, want) in paths.iter().zip(expected.iter()) {
        assert!(got == want);
    }
}
