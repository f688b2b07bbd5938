//! A pre-order node iterator with a seek primitive over a hash-addressed
//! radix trie keyed by 4-bit nibbles.
//!
//! The trie is given to the iterator as an immutable, content-addressed view:
//! a table of already-decoded nodes reached through child references that are
//! either inline or resolved by handle. The iterator walks every node in
//! ascending path order and can be repositioned onto the first node whose
//! path is greater than or equal to an arbitrary key.

pub mod iterator;
pub mod nibble;
pub mod node;

