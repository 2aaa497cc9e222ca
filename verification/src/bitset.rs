//! Fixed-size bitset over search nodes.
use vstd::prelude::*;

verus! {

/// Whether bit `i` is set in the word sequence `words` (bit `i % 64` of word
/// `i / 64`); indices outside the words are unset.
pub open spec fn word_bit(words: Seq<u64>, i: int) -> bool {
    0 <= i && i / 64 < words.len() && (words[i / 64] >> ((i % 64) as u64)) & 1u64 == 1u64
}

/// The set of indices whose bit is set in `words`.
pub open spec fn bits(words: Seq<u64>) -> Set<int> {
    Set::new(|i: int| word_bit(words, i))
}

/// The single-word bit facts `set`, `clear` and their undo rely on.
pub proof fn lemma_word_bits(w: u64, b: u64, c: u64)
    requires
        b < 64,
        c < 64,
    ensures
        ((w | (1u64 << b)) >> b) & 1u64 == 1u64,
        b != c ==> ((w | (1u64 << b)) >> c) & 1u64 == (w >> c) & 1u64,
        ((w & !(1u64 << b)) >> b) & 1u64 == 0u64,
        b != c ==> ((w & !(1u64 << b)) >> c) & 1u64 == (w >> c) & 1u64,
        (w >> b) & 1u64 != 1u64 ==> (w | (1u64 << b)) & !(1u64 << b) == w,
        (w >> b) & 1u64 != 1u64 ==> w & !(1u64 << b) == w,
        (w >> b) & 1u64 == 1u64 || (w >> b) & 1u64 == 0u64,
        (0u64 >> b) & 1u64 == 0u64,
{
    assert(((w | (1u64 << b)) >> b) & 1u64 == 1u64) by (bit_vector)
        requires b < 64;
    assert(b != c ==> ((w | (1u64 << b)) >> c) & 1u64 == (w >> c) & 1u64) by (bit_vector)
        requires b < 64, c < 64;
    assert(((w & !(1u64 << b)) >> b) & 1u64 == 0u64) by (bit_vector)
        requires b < 64;
    assert(b != c ==> ((w & !(1u64 << b)) >> c) & 1u64 == (w >> c) & 1u64) by (bit_vector)
        requires b < 64, c < 64;
    assert((w >> b) & 1u64 != 1u64 ==> (w | (1u64 << b)) & !(1u64 << b) == w) by (bit_vector)
        requires b < 64;
    assert((w >> b) & 1u64 != 1u64 ==> w & !(1u64 << b) == w) by (bit_vector)
        requires b < 64;
    assert((w >> b) & 1u64 == 1u64 || (w >> b) & 1u64 == 0u64) by (bit_vector);
    assert((0u64 >> b) & 1u64 == 0u64) by (bit_vector);
}

/// Fixed-size bitset over search nodes.
pub struct BitSet {
    /// Packed bits, 64 per word.
    pub words: Vec<u64>,
}

impl View for BitSet {
    type V = Set<int>;

    /// The set of nodes held.
    open spec fn view(&self) -> Set<int> {
        bits(self.words@)
    }
}

impl BitSet {
    /// Whether node `i` is in the set.
    pub open spec fn has(&self, i: int) -> bool {
        word_bit(self.words@, i)
    }

    /// Number of nodes the set can address.
    pub open spec fn capacity(&self) -> int {
        64 * (self.words@.len() as int)
    }

    /// An empty set able to hold nodes `0..n`.
    pub fn new(n: usize) -> (s: Self)
        ensures
            s.capacity() >= n,
            s.words@.len() == n / 64 + (if n % 64 == 0 { 0int } else { 1int }),
            forall|k: int| 0 <= k < s.words@.len() ==> s.words@[k] == 0u64,
            forall|i: int| !s.has(i),
            s@ == Set::<int>::empty(),
    {
        let len: usize = n / 64 + if n % 64 == 0 { 0 } else { 1 };
        let mut words: Vec<u64> = Vec::new();
        let mut k: usize = 0;
        while k < len
            invariant
                k <= len,
                len == n / 64 + (if n % 64 == 0 { 0int } else { 1int }),
                words@.len() == k,
                forall|j: int| 0 <= j < k ==> words@[j] == 0u64,
            decreases len - k,
        {
            words.push(0u64);
            k = k + 1;
        }
        let s = BitSet { words };
        assert forall|i: int| !s.has(i) by {
            if 0 <= i && i / 64 < s.words@.len() {
                lemma_word_bits(0u64, (i % 64) as u64, 0);
            }
        }
        assert forall|x: int| !s@.contains(x) by {
            assert(!s.has(x));
        }
        assert(s@ =~= Set::<int>::empty());
        s
    }

    /// Whether node `i` is in the set.
    pub fn get(&self, i: usize) -> (b: bool)
        requires
            i < self.capacity(),
        ensures
            b == self.has(i as int),
    {
        (self.words[i / 64] >> ((i % 64) as u64)) & 1u64 == 1u64
    }

    /// Add node `i`.
    pub fn set(&mut self, i: usize)
        requires
            i < old(self).capacity(),
        ensures
            final(self).words@ == old(self).words@.update(
                i as int / 64,
                old(self).words@[i as int / 64] | (1u64 << ((i % 64) as u64)),
            ),
            final(self).has(i as int),
            forall|j: int| j != i ==> final(self).has(j) == old(self).has(j),
            final(self)@ == old(self)@.insert(i as int),
    {
        let w = i / 64;
        let b = (i % 64) as u64;
        let old_word = self.words[w];
        self.words.set(w, old_word | (1u64 << b));
        proof {
            assert forall|j: int| j != i implies self.has(j) == old(self).has(j) by {
                if 0 <= j && j / 64 < self.words@.len() && j / 64 == w as int {
                    lemma_word_bits(old_word, b, (j % 64) as u64);
                }
            }
            lemma_word_bits(old_word, b, b);
            assert forall|x: int| self@.contains(x) == old(self)@.insert(i as int).contains(x) by {
                assert(self@.contains(x) == self.has(x));
                assert(old(self)@.contains(x) == old(self).has(x));
            }
            assert(self@ =~= old(self)@.insert(i as int));
        }
    }

    /// Remove node `i`.
    pub fn clear(&mut self, i: usize)
        requires
            i < old(self).capacity(),
        ensures
            final(self).words@ == old(self).words@.update(
                i as int / 64,
                old(self).words@[i as int / 64] & !(1u64 << ((i % 64) as u64)),
            ),
            !final(self).has(i as int),
            forall|j: int| j != i ==> final(self).has(j) == old(self).has(j),
            !old(self).has(i as int) ==> final(self).words@ == old(self).words@,
            final(self)@ == old(self)@.remove(i as int),
    {
        let w = i / 64;
        let b = (i % 64) as u64;
        let old_word = self.words[w];
        self.words.set(w, old_word & !(1u64 << b));
        proof {
            assert forall|j: int| j != i implies self.has(j) == old(self).has(j) by {
                if 0 <= j && j / 64 < self.words@.len() && j / 64 == w as int {
                    lemma_word_bits(old_word, b, (j % 64) as u64);
                }
            }
            lemma_word_bits(old_word, b, b);
            if !old(self).has(i as int) {
                assert(self.words@ =~= old(self).words@);
            }
            assert forall|x: int| self@.contains(x) == old(self)@.remove(i as int).contains(x) by {
                assert(self@.contains(x) == self.has(x));
                assert(old(self)@.contains(x) == old(self).has(x));
            }
            assert(self@ =~= old(self)@.remove(i as int));
        }
    }
}

} // verus!
