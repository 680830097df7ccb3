//! A rank-indexed bitmap over the 256 possible byte values at one trie node.
//!
//! Bit `b` is set exactly when the node has a child for byte value `b`.  The
//! `index` query returns the number of set bits strictly below a set bit,
//! which is the position of the corresponding child inside the node's
//! contiguous child block.

use vstd::prelude::*;

verus! {

/// Fixed-width bit vector of 256 bits, stored as eight 32-bit words.
#[derive(Debug, PartialEq, Eq)]
pub struct BitSet {
    words: Vec<u32>,
}

/// The bitmap over the byte alphabet used by every trie node.
pub type ByteSet = BitSet;

impl BitSet {
    #[verifier::type_invariant]
    spec fn type_inv(&self) -> bool {
        self.words@.len() == 8
    }

    /// The number of bits the set can hold.
    pub closed spec fn spec_size(&self) -> int {
        self.words@.len() * 32int
    }

    /// True exactly when bit `id` is set.
    pub closed spec fn spec_includes(&self, id: int) -> bool {
        &&& 0 <= id < self.words@.len() * 32
        &&& (self.words@[id / 32] >> ((id % 32) as u32)) & 1u32 == 1u32
    }

    /// The number of set bits strictly below position `id`: the rank used to
    /// address a node's contiguous child block.
    pub open spec fn rank_below(&self, id: int) -> int
        decreases id,
    {
        if id <= 0 {
            0
        } else {
            self.rank_below(id - 1) + if self.spec_includes(id - 1) {
                1int
            } else {
                0int
            }
        }
    }

    /// The empty bit set.
    pub fn new() -> (r: BitSet)
        ensures
            forall|i: int| !r.spec_includes(i),
    {
        let mut words: Vec<u32> = Vec::new();
        let mut k: usize = 0;
        while k < 8
            invariant
                k <= 8,
                words@.len() == k,
                forall|j: int| 0 <= j < k ==> words@[j] == 0u32,
            decreases 8 - k,
        {
            words.push(0u32);
            k = k + 1;
        }
        let r = BitSet { words };
        proof {
            assert forall|i: int| !r.spec_includes(i) by {
                if 0 <= i < 256 {
                    let sh = (i % 32) as u32;
                    assert((0u32 >> sh) & 1u32 == 0u32) by (bit_vector);
                }
            }
        }
        r
    }

    /// Builds a set holding exactly the listed bit positions.
    pub fn from_entries(entries: &Vec<usize>) -> (r: BitSet)
        requires
            forall|i: int| 0 <= i < entries@.len() ==> entries@[i] < 256,
        ensures
            forall|b: int|
                r.spec_includes(b) <==> exists|i: int| 0 <= i < entries@.len() && entries@[i] == b,
    {
        let mut set = BitSet::new();
        let mut k: usize = 0;
        while k < entries.len()
            invariant
                k <= entries@.len(),
                forall|i: int| 0 <= i < entries@.len() ==> entries@[i] < 256,
                forall|b: int|
                    set.spec_includes(b) <==> exists|i: int| 0 <= i < k && entries@[i] == b,
            decreases entries@.len() - k,
        {
            set.insert(entries[k]);
            k = k + 1;
        }
        set
    }

    /// Restores a set from raw words, padded with zero words up to the fixed
    /// width of eight.
    pub fn from_words(words: Vec<u32>) -> (r: BitSet)
        requires
            words@.len() <= 8,
        ensures
            forall|b: int|
                r.spec_includes(b) <==> (0 <= b < words@.len() * 32 && (words@[b / 32] >> ((b
                    % 32) as u32)) & 1u32 == 1u32),
    {
        let ghost orig = words@;
        let mut words = words;
        while words.len() < 8
            invariant
                orig.len() <= words@.len() <= 8,
                words@.subrange(0, orig.len() as int) == orig,
                forall|j: int| orig.len() <= j < words@.len() ==> words@[j] == 0u32,
            decreases 8 - words@.len(),
        {
            words.push(0u32);
        }
        let r = BitSet { words };
        proof {
            assert forall|b: int|
                r.spec_includes(b) <==> (0 <= b < orig.len() * 32 && (orig[b / 32] >> ((b
                    % 32) as u32)) & 1u32 == 1u32) by {
                if 0 <= b < 256 {
                    if b < orig.len() * 32 {
                        assert(r.words@[b / 32] == orig[b / 32]);
                    } else {
                        let sh = (b % 32) as u32;
                        assert((0u32 >> sh) & 1u32 == 0u32) by (bit_vector);
                    }
                }
            }
        }
        r
    }

    /// The capacity in bits.
    pub fn size(&self) -> (r: usize)
        ensures
            r == self.spec_size(),
    {
        proof {
            use_type_invariant(self);
        }
        self.words.len() * 32
    }

    /// Splits a bit position into its word index and the bit offset inside
    /// that word.
    pub fn entry_bit(&self, id: usize) -> (r: (usize, usize))
        ensures
            r.0 == id as int / 32,
            r.1 == id as int % 32,
    {
        (id / 32, id % 32)
    }

    /// Membership query: true exactly when bit `id` is set.
    pub fn includes(&self, id: usize) -> (r: bool)
        requires
            id < 256,
        ensures
            r == self.spec_includes(id as int),
    {
        proof {
            use_type_invariant(self);
        }
        let (entry, bit) = self.entry_bit(id);
        let store = self.words[entry];
        (store >> (bit as u32)) & 1u32 == 1u32
    }

    /// Sets bit `id`, leaving every other bit as it was.
    pub fn insert(&mut self, id: usize)
        requires
            id < 256,
        ensures
            final(self).spec_includes(id as int),
            forall|j: int|
                j != id ==> final(self).spec_includes(j) == old(self).spec_includes(j),
    {
        proof {
            use_type_invariant(&*self);
        }
        let (entry, bit) = self.entry_bit(id);
        let w = self.words[entry];
        let nw = w | (1u32 << (bit as u32));
        let ghost before = *self;
        let slot = vstd::std_specs::vec::vec_index_mut(&mut self.words, entry);
        *slot = nw;
        proof {
            let b = bit as u32;
            assert(((w | (1u32 << b)) >> b) & 1u32 == 1u32) by (bit_vector)
                requires
                    b < 32,
            ;
            assert forall|j: int|
                j != id implies self.spec_includes(j) == before.spec_includes(j) by {
                if 0 <= j < 256 && j != id {
                    if j / 32 == id as int / 32 {
                        let jb = (j % 32) as u32;
                        assert(jb != b);
                        assert(((w | (1u32 << b)) >> jb) & 1u32 == (w >> jb) & 1u32)
                            by (bit_vector)
                            requires
                                b < 32,
                                jb < 32,
                                jb != b,
                        ;
                    } else {
                        assert(self.words@[j / 32] == before.words@[j / 32]);
                    }
                }
            }
        }
    }

    /// Clears bit `id`; the bit must currently be set.
    pub fn remove(&mut self, id: usize)
        requires
            id < 256,
            old(self).spec_includes(id as int),
        ensures
            !final(self).spec_includes(id as int),
            forall|j: int|
                j != id ==> final(self).spec_includes(j) == old(self).spec_includes(j),
    {
        self.remove_unchecked(id);
    }

    /// Clears bit `id` whether or not it was set.
    pub fn remove_unchecked(&mut self, id: usize)
        requires
            id < 256,
        ensures
            !final(self).spec_includes(id as int),
            forall|j: int|
                j != id ==> final(self).spec_includes(j) == old(self).spec_includes(j),
    {
        proof {
            use_type_invariant(&*self);
        }
        let (entry, bit) = self.entry_bit(id);
        let w = self.words[entry];
        let nw = w & !(1u32 << (bit as u32));
        let ghost before = *self;
        let slot = vstd::std_specs::vec::vec_index_mut(&mut self.words, entry);
        *slot = nw;
        proof {
            let b = bit as u32;
            assert(((w & !(1u32 << b)) >> b) & 1u32 == 0u32) by (bit_vector)
                requires
                    b < 32,
            ;
            assert forall|j: int|
                j != id implies self.spec_includes(j) == before.spec_includes(j) by {
                if 0 <= j < 256 && j != id {
                    if j / 32 == id as int / 32 {
                        let jb = (j % 32) as u32;
                        assert(jb != b);
                        assert(((w & !(1u32 << b)) >> jb) & 1u32 == (w >> jb) & 1u32)
                            by (bit_vector)
                            requires
                                b < 32,
                                jb < 32,
                                jb != b,
                        ;
                    } else {
                        assert(self.words@[j / 32] == before.words@[j / 32]);
                    }
                }
            }
        }
    }

    /// Rank query: `Some(rank)` when bit `id` is set, where `rank` counts the
    /// set bits strictly below `id`; `None` otherwise.
    pub fn index(&self, id: usize) -> (r: Option<u32>)
        requires
            id < 256,
        ensures
            r is Some <==> self.spec_includes(id as int),
            r is Some ==> r->Some_0 as int == self.rank_below(id as int),
    {
        if !self.includes(id) {
            None
        } else {
            let mut count: u32 = 0;
            let mut j: usize = 0;
            while j < id
                invariant
                    j <= id < 256,
                    count <= j,
                    count as int == self.rank_below(j as int),
                decreases id - j,
            {
                if self.includes(j) {
                    count = count + 1;
                }
                j = j + 1;
            }
            Some(count)
        }
    }
}

/// The rank never exceeds the position it is taken at, and never drops below
/// zero.
pub proof fn lemma_rank_below_bounds(s: &BitSet, id: int)
    ensures
        0 <= s.rank_below(id),
        id >= 0 ==> s.rank_below(id) <= id,
    decreases id,
{
    if id > 0 {
        lemma_rank_below_bounds(s, id - 1);
    }
}

} // verus!
