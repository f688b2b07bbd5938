//! Nibble path utilities: an owned, growable sequence of 4-bit nibbles
//! together with the lexicographic order and the byte/nibble conversions
//! that the trie iterator needs.

use vstd::prelude::*;

verus! {

/// Every nibble is a value below 16.
pub open spec fn nibbles_wf(s: Seq<u8>) -> bool {
    forall|i: int| 0 <= i < s.len() ==> s[i] < 16
}

/// Strict lexicographic order on nibble sequences: `a` comes before `b`
/// when `a` is a proper prefix of `b`, or when `a` holds the smaller
/// nibble at the first position where they differ.
pub open spec fn lex_less(a: Seq<u8>, b: Seq<u8>) -> bool
    decreases a.len(),
{
    if b.len() == 0 {
        false
    } else if a.len() == 0 {
        true
    } else if a[0] != b[0] {
        a[0] < b[0]
    } else {
        lex_less(a.skip(1), b.skip(1))
    }
}

/// `a` is a (not necessarily proper) prefix of `b`.
pub open spec fn is_prefix_of(a: Seq<u8>, b: Seq<u8>) -> bool {
    a.len() <= b.len() && (forall|i: int| 0 <= i < a.len() ==> a[i] == b[i])
}

/// The nibbles of a byte string, high nibble of each byte first.
pub open spec fn bytes_to_nibbles(bs: Seq<u8>) -> Seq<u8> {
    Seq::new(
        2 * bs.len(),
        |i: int| if i % 2 == 0 { bs[i / 2] / 16 } else { bs[i / 2] % 16 },
    )
}

/// The byte-aligned packing of a nibble sequence: consecutive pairs of
/// nibbles joined into bytes; a trailing nibble of an odd-length sequence
/// is not part of it.
pub open spec fn nibbles_to_bytes(s: Seq<u8>) -> Seq<u8> {
    Seq::new(s.len() / 2, |i: int| (s[2 * i] * 16 + s[2 * i + 1]) as u8)
}

/// No sequence comes before itself: the lexicographic order is strict.
pub proof fn lemma_lex_less_irreflexive(a: Seq<u8>)
    ensures
        !lex_less(a, a),
    decreases a.len(),
{
    if a.len() > 0 {
        lemma_lex_less_irreflexive(a.skip(1));
    }
}

/// Any two sequences are comparable: one comes before the other, or they
/// are equal — the lexicographic order is total.
pub proof fn lemma_lex_less_total(a: Seq<u8>, b: Seq<u8>)
    ensures
        lex_less(a, b) || lex_less(b, a) || a == b,
    decreases a.len(),
{
    if a.len() == 0 {
        if b.len() == 0 {
            assert(a =~= b);
        }
    } else if b.len() == 0 {
    } else if a[0] == b[0] {
        lemma_lex_less_total(a.skip(1), b.skip(1));
        if !lex_less(a.skip(1), b.skip(1)) && !lex_less(b.skip(1), a.skip(1)) {
            assert(a =~= b) by {
                assert(forall|i: int| 1 <= i < a.len() ==> a[i] == a.skip(1)[i - 1]);
            }
        }
    }
}

/// What comes before an earlier sequence comes before a later one: the
/// lexicographic order is transitive.
pub proof fn lemma_lex_less_transitive(a: Seq<u8>, b: Seq<u8>, c: Seq<u8>)
    requires
        lex_less(a, b),
        lex_less(b, c),
    ensures
        lex_less(a, c),
    decreases b.len(),
{
    if a.len() > 0 && a[0] == b[0] && b[0] == c[0] {
        lemma_lex_less_transitive(a.skip(1), b.skip(1), c.skip(1));
    }
}

/// A strict prefix comes lexicographically before what it prefixes; with
/// the order's totality this is why two consecutive pre-order yields are
/// ordered either way round: the earlier path is a strict prefix of the
/// later, or simply smaller.
pub proof fn lemma_strict_prefix_lex_less(a: Seq<u8>, b: Seq<u8>)
    requires
        is_prefix_of(a, b),
        a.len() < b.len(),
    ensures
        lex_less(a, b),
    decreases a.len(),
{
    if a.len() > 0 {
        lemma_strict_prefix_lex_less(a.skip(1), b.skip(1));
    }
}

/// What stands at or before a concatenation stands at or before its first
/// part, or carries that part as a prefix.
pub proof fn lemma_at_most_concat_split(q: Seq<u8>, a: Seq<u8>, b: Seq<u8>)
    requires
        q == a + b || lex_less(q, a + b),
    ensures
        q == a || lex_less(q, a) || is_prefix_of(a, q),
    decreases a.len(),
{
    if a.len() == 0 {
        assert(is_prefix_of(a, q));
    } else if q.len() == 0 {
    } else {
        assert((a + b)[0] == a[0]);
        if q[0] == a[0] {
            assert((a + b).skip(1) =~= a.skip(1) + b);
            if q == a + b {
                assert(q.skip(1) =~= a.skip(1) + b);
            }
            lemma_at_most_concat_split(q.skip(1), a.skip(1), b);
            if q.skip(1) == a.skip(1) {
                assert(q =~= a) by {
                    assert(forall|i: int| 1 <= i < q.len()
                        ==> q[i] == q.skip(1)[i - 1] && a[i] == a.skip(1)[i - 1]);
                }
            } else if is_prefix_of(a.skip(1), q.skip(1)) {
                assert(is_prefix_of(a, q)) by {
                    assert(forall|i: int| 1 <= i < a.len()
                        ==> a[i] == a.skip(1)[i - 1] && q[i] == q.skip(1)[i - 1]);
                }
            }
        }
    }
}

/// Everything in the subtree of a branch's child stands before the slot of
/// any later child: a sequence that starts with the path and a smaller
/// nibble comes lexicographically before the path with the larger one.
pub proof fn lemma_child_slot_bound(u: Seq<u8>, x: Seq<u8>, a: u8, b: u8)
    requires
        is_prefix_of(x.push(a), u),
        a < b,
    ensures
        lex_less(u, x.push(b)),
    decreases x.len(),
{
    if x.len() == 0 {
        assert(u[0] == a);
    } else {
        assert(u[0] == x[0] && x.push(b)[0] == x[0]);
        assert(x.push(a).skip(1) =~= x.skip(1).push(a));
        assert(x.push(b).skip(1) =~= x.skip(1).push(b));
        assert(is_prefix_of(x.skip(1).push(a), u.skip(1))) by {
            assert(forall|i: int| 0 <= i < x.push(a).len() - 1
                ==> x.push(a).skip(1)[i] == x.push(a)[i + 1] && u.skip(1)[i] == u[i + 1]);
        }
        lemma_child_slot_bound(u.skip(1), x.skip(1), a, b);
    }
}

proof fn lemma_skip_one_more(s: Seq<u8>, i: int)
    requires
        0 <= i < s.len(),
    ensures
        s.skip(i).skip(1) == s.skip(i + 1),
{
    assert(s.skip(i).skip(1) =~= s.skip(i + 1));
}

/// An owned sequence of nibbles; the view is the sequence of their values,
/// each below 16.
pub struct NibblePath {
    nibbles: Vec<u8>,
}

impl View for NibblePath {
    type V = Seq<u8>;

    closed spec fn view(&self) -> Seq<u8> {
        self.nibbles@
    }
}

impl NibblePath {
    pub open spec fn wf(&self) -> bool {
        nibbles_wf(self@)
    }

    /// The empty nibble path.
    pub fn new() -> (r: NibblePath)
        ensures
            r@ == Seq::<u8>::empty(),
            r.wf(),
    {
        NibblePath { nibbles: Vec::new() }
    }

    /// A nibble path holding exactly the given nibbles, or nothing if one
    /// of the values is not a nibble.
    pub fn from_nibbles(nibbles: Vec<u8>) -> (r: Option<NibblePath>)
        ensures
            match r {
                Some(p) => p@ == nibbles@ && p.wf(),
                None => !nibbles_wf(nibbles@),
            },
    {
        let mut i: usize = 0;
        while i < nibbles.len()
            invariant
                i <= nibbles@.len(),
                forall|j: int| 0 <= j < i ==> nibbles@[j] < 16,
            decreases nibbles@.len() - i,
        {
            if nibbles[i] >= 16 {
                return None;
            }
            i += 1;
        }
        Some(NibblePath { nibbles })
    }

    /// The nibble path of a whole byte key: two nibbles per byte, high
    /// nibble first.
    pub fn from_bytes(bytes: &[u8]) -> (r: NibblePath)
        ensures
            r@ == bytes_to_nibbles(bytes@),
            r.wf(),
    {
        let mut nibbles: Vec<u8> = Vec::new();
        let mut i: usize = 0;
        while i < bytes.len()
            invariant
                i <= bytes@.len(),
                nibbles@ == bytes_to_nibbles(bytes@.take(i as int)),
                nibbles_wf(nibbles@),
            decreases bytes@.len() - i,
        {
            let b = bytes[i];
            nibbles.push(b / 16);
            nibbles.push(b % 16);
            proof {
                assert(nibbles@ =~= bytes_to_nibbles(bytes@.take(i + 1)));
            }
            i += 1;
        }
        proof {
            assert(bytes@.take(bytes@.len() as int) =~= bytes@);
        }
        NibblePath { nibbles }
    }

    pub fn len(&self) -> (r: usize)
        ensures
            r == self@.len(),
    {
        self.nibbles.len()
    }

    pub fn is_empty(&self) -> (r: bool)
        ensures
            r == (self@.len() == 0),
    {
        self.nibbles.len() == 0
    }

    /// The nibble at position `i`.
    pub fn at(&self, i: usize) -> (r: u8)
        requires
            i < self@.len(),
        ensures
            r == self@[i as int],
    {
        self.nibbles[i]
    }

    /// Appends one nibble.
    pub fn push(&mut self, n: u8)
        requires
            old(self).wf(),
            n < 16,
        ensures
            final(self)@ == old(self)@.push(n),
            final(self).wf(),
    {
        self.nibbles.push(n);
    }

    /// Removes and returns the last nibble; leaves an empty path unchanged.
    pub fn pop(&mut self) -> (r: Option<u8>)
        requires
            old(self).wf(),
        ensures
            final(self).wf(),
            old(self)@.len() == 0 ==> r is None && final(self)@ == old(self)@,
            old(self)@.len() > 0 ==> r == Some(old(self)@.last())
                && final(self)@ == old(self)@.drop_last(),
    {
        self.nibbles.pop()
    }

    /// Empties the path.
    pub fn clear(&mut self)
        ensures
            final(self)@ == Seq::<u8>::empty(),
            final(self).wf(),
    {
        self.nibbles.clear();
    }

    /// Appends every nibble of `other`.
    pub fn append(&mut self, other: &NibblePath)
        requires
            old(self).wf(),
            other.wf(),
        ensures
            final(self)@ == old(self)@ + other@,
            final(self).wf(),
    {
        let mut i: usize = 0;
        while i < other.len()
            invariant
                i <= other@.len(),
                other.wf(),
                self@ == old(self)@ + other@.take(i as int),
                self.wf(),
            decreases other@.len() - i,
        {
            let n = other.at(i);
            self.nibbles.push(n);
            proof {
                assert(self@ =~= old(self)@ + other@.take(i + 1));
            }
            i += 1;
        }
        proof {
            assert(old(self)@ + other@.take(other@.len() as int) =~= old(self)@ + other@);
        }
    }

    /// Appends a partial path as a codec hands it out: an optional leading
    /// half-nibble followed by whole bytes, two nibbles each. The result is
    /// nibble-exact whatever the parity of the current length.
    pub fn append_partial(&mut self, first: Option<u8>, bytes: &[u8])
        requires
            old(self).wf(),
            first matches Some(n) ==> n < 16,
        ensures
            final(self)@ == old(self)@ + (match first {
                Some(n) => seq![n],
                None => Seq::<u8>::empty(),
            }) + bytes_to_nibbles(bytes@),
            final(self).wf(),
    {
        let ghost head: Seq<u8> = old(self)@ + (match first {
            Some(n) => seq![n],
            None => Seq::<u8>::empty(),
        });
        match first {
            Some(n) => self.push(n),
            None => (),
        }
        proof {
            assert(self@ =~= head);
        }
        let mut i: usize = 0;
        while i < bytes.len()
            invariant
                i <= bytes@.len(),
                self@ == head + bytes_to_nibbles(bytes@.take(i as int)),
                self.wf(),
            decreases bytes@.len() - i,
        {
            let b = bytes[i];
            self.nibbles.push(b / 16);
            self.nibbles.push(b % 16);
            proof {
                assert(self@ =~= head + bytes_to_nibbles(bytes@.take(i + 1)));
            }
            i += 1;
        }
        proof {
            assert(head + bytes_to_nibbles(bytes@.take(bytes@.len() as int))
                =~= head + bytes_to_nibbles(bytes@));
        }
    }

    /// Removes the last `k` nibbles; removes everything when fewer than `k`
    /// remain.
    pub fn drop_lasts(&mut self, k: usize)
        requires
            old(self).wf(),
        ensures
            final(self)@ == old(self)@.take(
                if k <= old(self)@.len() { old(self)@.len() - k } else { 0 },
            ),
            final(self).wf(),
    {
        let n = self.nibbles.len();
        let keep = if k <= n { n - k } else { 0 };
        self.nibbles.truncate(keep);
    }

    /// The byte-aligned form used to key a prefix-addressed store: the
    /// packed whole bytes, and the trailing half-nibble of an odd-length
    /// path if there is one.
    pub fn as_prefix(&self) -> (r: (Vec<u8>, Option<u8>))
        requires
            self.wf(),
        ensures
            r.0@ == nibbles_to_bytes(self@),
            r.1 == (if self@.len() % 2 == 1 { Some(self@.last()) } else { None::<u8> }),
    {
        let mut packed: Vec<u8> = Vec::new();
        let pairs = self.nibbles.len() / 2;
        let mut i: usize = 0;
        while i < pairs
            invariant
                i <= pairs,
                pairs == self@.len() / 2,
                self@.len() <= usize::MAX,
                self.wf(),
                packed@ == nibbles_to_bytes(self@).take(i as int),
            decreases pairs - i,
        {
            proof {
                assert(2 * (i as int) + 1 < self@.len());
            }
            let hi = self.nibbles[2 * i];
            let lo = self.nibbles[2 * i + 1];
            packed.push(hi * 16 + lo);
            proof {
                assert(packed@ =~= nibbles_to_bytes(self@).take(i + 1));
            }
            i += 1;
        }
        proof {
            assert(nibbles_to_bytes(self@).take(pairs as int) =~= nibbles_to_bytes(self@));
        }
        let half = if self.nibbles.len() % 2 == 1 {
            Some(self.nibbles[self.nibbles.len() - 1])
        } else {
            None
        };
        (packed, half)
    }

    /// Whether this path starts with `prefix`.
    pub fn starts_with(&self, prefix: &NibblePath) -> (r: bool)
        ensures
            r == is_prefix_of(prefix@, self@),
    {
        prefix_matches_from(self, 0, prefix)
    }

    /// Whether this path comes strictly before `other` in lexicographic
    /// order.
    pub fn lex_lt(&self, other: &NibblePath) -> (r: bool)
        ensures
            r == lex_less(self@, other@),
    {
        proof {
            assert(self@.skip(0) =~= self@);
            assert(other@.skip(0) =~= other@);
        }
        lex_less_from(self, 0, other, 0)
    }
}

impl Clone for NibblePath {
    /// A clone holds the same nibbles.
    fn clone(&self) -> (r: Self)
        ensures
            r@ == self@,
    {
        let mut nibbles: Vec<u8> = Vec::new();
        let mut i: usize = 0;
        while i < self.nibbles.len()
            invariant
                i <= self@.len(),
                nibbles@ == self@.take(i as int),
            decreases self@.len() - i,
        {
            nibbles.push(self.nibbles[i]);
            proof {
                assert(nibbles@ =~= self@.take(i + 1));
            }
            i += 1;
        }
        proof {
            assert(self@.take(self@.len() as int) =~= self@);
        }
        NibblePath { nibbles }
    }
}

impl PartialEq for NibblePath {
    /// Two paths are equal when they hold the same nibbles.
    fn eq(&self, other: &Self) -> (r: bool)
    {
        if self.nibbles.len() != other.nibbles.len() {
            return false;
        }
        let mut i: usize = 0;
        while i < self.nibbles.len()
            invariant
                self@.len() == other@.len(),
                i <= self@.len(),
                forall|j: int| 0 <= j < i ==> self@[j] == other@[j],
            decreases self@.len() - i,
        {
            if self.nibbles[i] != other.nibbles[i] {
                return false;
            }
            i += 1;
        }
        proof {
            assert(self@ =~= other@);
        }
        true
    }
}

impl Eq for NibblePath {}

impl vstd::std_specs::cmp::PartialEqSpecImpl for NibblePath {
    open spec fn obeys_eq_spec() -> bool {
        true
    }

    open spec fn eq_spec(&self, other: &Self) -> bool {
        self@ == other@
    }
}

/// Whether the suffix of `key` starting at `offset` begins with `p`.
pub fn prefix_matches_from(key: &NibblePath, offset: usize, p: &NibblePath) -> (r: bool)
    requires
        offset <= key@.len(),
    ensures
        r == is_prefix_of(p@, key@.skip(offset as int)),
{
    let ghost suffix = key@.skip(offset as int);
    if p.len() > key.len() - offset {
        return false;
    }
    let mut i: usize = 0;
    while i < p.len()
        invariant
            offset + p@.len() <= key@.len(),
            key@.len() <= usize::MAX,
            suffix == key@.skip(offset as int),
            i <= p@.len(),
            forall|j: int| 0 <= j < i ==> p@[j] == suffix[j],
        decreases p@.len() - i,
    {
        if p.at(i) != key.at(offset + i) {
            proof {
                assert(suffix[i as int] == key@[offset + i]);
            }
            return false;
        }
        proof {
            assert(suffix[i as int] == key@[offset + i]);
        }
        i += 1;
    }
    true
}

/// Whether `p` comes strictly before the suffix of `key` starting at
/// `offset`, in lexicographic order.
pub fn lex_less_than_suffix(p: &NibblePath, key: &NibblePath, offset: usize) -> (r: bool)
    requires
        offset <= key@.len(),
    ensures
        r == lex_less(p@, key@.skip(offset as int)),
{
    proof {
        assert(p@.skip(0) =~= p@);
    }
    lex_less_from(p, 0, key, offset)
}

fn lex_less_from(a: &NibblePath, ai: usize, b: &NibblePath, bi: usize) -> (r: bool)
    requires
        ai <= a@.len(),
        bi <= b@.len(),
    ensures
        r == lex_less(a@.skip(ai as int), b@.skip(bi as int)),
    decreases a@.len() - ai,
{
    let ghost sa = a@.skip(ai as int);
    let ghost sb = b@.skip(bi as int);
    if bi == b.len() {
        false
    } else if ai == a.len() {
        true
    } else {
        let an = a.at(ai);
        let bn = b.at(bi);
        proof {
            assert(sa[0] == a@[ai as int]);
            assert(sb[0] == b@[bi as int]);
        }
        if an != bn {
            an < bn
        } else {
            let r = lex_less_from(a, ai + 1, b, bi + 1);
            proof {
                lemma_skip_one_more(a@, ai as int);
                lemma_skip_one_more(b@, bi as int);
            }
            r
        }
    }
}

} // verus!
