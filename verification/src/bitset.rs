use vstd::prelude::*;

verus! {

/// Bit `b` of `x`.
pub open spec fn bit32(x: u32, b: u32) -> bool {
    (x >> b) & 1u32 == 1u32
}

/// Whether index `i` is in the set encoded by chunks `s` (bit `i % 32` of chunk `i / 32`).
pub open spec fn chunks_contain(s: Seq<u32>, i: int) -> bool {
    0 <= i && i / 32 < s.len() && bit32(s[i / 32], (i % 32) as u32)
}

pub proof fn lemma_bit_set(x: u32, b: u32)
    requires
        b < 32,
    ensures
        forall|i: u32| i < 32 ==> #[trigger] bit32(x | (1u32 << b), i) == (i == b || bit32(x, i)),
        x | (1u32 << b) != 0,
{
    assert(forall|i: u32| i < 32 ==> #[trigger] bit32(x | (1u32 << b), i) == (i == b || bit32(x, i))) by (bit_vector)
        requires b < 32u32;
    assert(x | (1u32 << b) != 0) by (bit_vector)
        requires b < 32u32;
}

pub proof fn lemma_bit_clear(x: u32, b: u32)
    requires
        b < 32,
    ensures
        forall|i: u32| i < 32 ==> #[trigger] bit32(x & !(1u32 << b), i) == (i != b && bit32(x, i)),
{
    assert(forall|i: u32| i < 32 ==> #[trigger] bit32(x & !(1u32 << b), i) == (i != b && bit32(x, i))) by (bit_vector)
        requires b < 32u32;
}

pub proof fn lemma_zero_bits()
    ensures
        forall|i: u32| i < 32 ==> !#[trigger] bit32(0u32, i),
{
    assert(forall|i: u32| i < 32 ==> !#[trigger] bit32(0u32, i)) by (bit_vector);
}

pub proof fn lemma_nonzero_has_bit(x: u32)
    requires
        x != 0,
    ensures
        exists|i: u32| i < 32 && #[trigger] bit32(x, i),
{
    assert(x != 0 ==> (bit32(x, 0u32) || bit32(x, 1u32) || bit32(x, 2u32) || bit32(x, 3u32) || bit32(x, 4u32) || bit32(x, 5u32) || bit32(x, 6u32) || bit32(x, 7u32) || bit32(x, 8u32) || bit32(x, 9u32) || bit32(x, 10u32) || bit32(x, 11u32) || bit32(x, 12u32) || bit32(x, 13u32) || bit32(x, 14u32) || bit32(x, 15u32) || bit32(x, 16u32) || bit32(x, 17u32) || bit32(x, 18u32) || bit32(x, 19u32) || bit32(x, 20u32) || bit32(x, 21u32) || bit32(x, 22u32) || bit32(x, 23u32) || bit32(x, 24u32) || bit32(x, 25u32) || bit32(x, 26u32) || bit32(x, 27u32) || bit32(x, 28u32) || bit32(x, 29u32) || bit32(x, 30u32) || bit32(x, 31u32))) by (bit_vector);
    if bit32(x, 0u32) {
        assert(bit32(x, 0u32));
    }
}

pub proof fn lemma_low_ones(end: u32)
    requires
        0 < end < 32,
    ensures
        forall|i: u32| i < 32 ==> #[trigger] bit32(!0u32 >> ((32 - end) as u32), i) == (i < end),
        !0u32 >> ((32 - end) as u32) != 0,
{
    assert(forall|i: u32| i < 32 ==> #[trigger] bit32(!0u32 >> ((32 - end) as u32), i) == (i < end)) by (bit_vector)
        requires 0 < end < 32u32;
    assert(!0u32 >> ((32 - end) as u32) != 0) by (bit_vector)
        requires 0 < end < 32u32;
}

/// A set of indices, as 32-bit chunks.
/// Invariant: the last chunk is not zero, so all indices out of bounds are absent:
/// `[0, 1]` means `{32}`, and `[0, 1]` is never written `[0, 1, 0]`.
#[derive(Debug, Default)]
pub struct BitSet(pub Vec<u32>);

impl BitSet {
    pub open spec fn wf(&self) -> bool {
        self.0@.len() > 0 ==> self.0@.last() != 0
    }

    pub open spec fn contains(&self, i: int) -> bool {
        chunks_contain(self.0@, i)
    }

    /// The chunks of this set.
    pub fn as_slice(&self) -> (r: &[u32])
        ensures
            r@ == self.0@,
    {
        self.0.as_slice()
    }

    /// A copy of the chunks of this set.
    pub fn iter(&self) -> (r: Vec<u32>)
        ensures
            r@ == self.0@,
    {
        let mut r: Vec<u32> = Vec::new();
        let mut i: usize = 0;
        while i < self.0.len()
            invariant
                i <= self.0.len(),
                r@ == self.0@.take(i as int),
            decreases self.0.len() - i,
        {
            r.push(self.0[i]);
            i += 1;
            assert(r@ =~= self.0@.take(i as int));
        }
        assert(r@ =~= self.0@);
        r
    }

    /// Whether the set is empty (relies on the invariant: no trailing zero chunks).
    pub fn is_empty(&self) -> (r: bool)
        requires
            self.wf(),
        ensures
            r == forall|i: int| !#[trigger] self.contains(i),
    {
        if self.0.len() > 0 {
            proof {
                let k = (self.0@.len() - 1) as int;
                lemma_nonzero_has_bit(self.0@[k]);
                let b = choose|b: u32| b < 32 && #[trigger] bit32(self.0@[k], b);
                assert(self.contains(k * 32 + b as int));
            }
        }
        self.0.len() == 0
    }

    /// Empties the set.
    pub fn clear(&mut self)
        ensures
            final(self).wf(),
            forall|i: int| !#[trigger] final(self).contains(i),
    {
        self.0.clear();
    }

    /// Makes this the set `{0, ..., end - 1}`.
    pub fn set_ones_until(&mut self, end: usize)
        requires
            end < 32,
        ensures
            final(self).wf(),
            forall|i: int| #[trigger] final(self).contains(i) <==> 0 <= i < end,
    {
        self.0.clear();
        if end > 0 {
            // #end ones, with a (32-end) prefix of zeroes
            self.0.push(!0u32 >> (32 - end as u32));
            proof {
                lemma_low_ones(end as u32);
                assert forall|i: int| #[trigger] self.contains(i) <==> 0 <= i < end by {
                    if 0 <= i < end {
                        assert(bit32(self.0@[0], i as u32));
                    }
                }
            }
        }
    }

    /// `[chunk_index, chunk_bit]` of an index.
    pub fn index_decomposed(index: usize) -> (r: [usize; 2])
        ensures
            r@[0] == index / 32,
            r@[1] == index % 32,
    {
        [index / 32, index % 32]
    }

    /// Whether `at` is in the set.
    pub fn test(&self, at: usize) -> (r: bool)
        ensures
            r == self.contains(at as int),
    {
        let d = Self::index_decomposed(at);
        let chunk_index = d[0];
        let chunk_bit = d[1];
        if chunk_index < self.0.len() {
            let chunk = self.0[chunk_index];
            let b = chunk_bit as u32;
            proof {
                assert((chunk & (1u32 << b)) != 0 <==> bit32(chunk, b)) by (bit_vector)
                    requires b < 32u32;
            }
            (chunk & (1u32 << b)) != 0
        } else {
            false
        }
    }

    /// Adds `at` to the set.
    pub fn set(&mut self, at: usize)
        requires
            old(self).wf(),
        ensures
            final(self).wf(),
            forall|i: int| #[trigger] final(self).contains(i) <==> old(self).contains(i) || i == at,
    {
        let d = Self::index_decomposed(at);
        let chunk_index = d[0];
        let chunk_bit = d[1];
        let ghost s0 = self.0@;
        if chunk_index >= self.0.len() {
            while self.0.len() < chunk_index + 1
                invariant
                    chunk_index == at / 32,
                    self.0@.len() <= chunk_index + 1,
                    self.0@.len() >= s0.len(),
                    forall|k: int| 0 <= k < s0.len() ==> #[trigger] self.0@[k] == s0[k],
                    forall|k: int| s0.len() <= k < self.0@.len() ==> #[trigger] self.0@[k] == 0,
                decreases chunk_index + 1 - self.0.len(),
            {
                self.0.push(0u32);
            }
        }
        let ghost s1 = self.0@;
        let chunk = self.0[chunk_index];
        let b = chunk_bit as u32;
        self.0.set(chunk_index, chunk | (1u32 << b));
        proof {
            lemma_bit_set(chunk, b);
            lemma_zero_bits();
            assert forall|i: int| #[trigger] self.contains(i) <==> old(self).contains(i) || i == at by {
                if 0 <= i && i / 32 < self.0@.len() {
                    if i / 32 == chunk_index {
                        assert(bit32(self.0@[i / 32], (i % 32) as u32) == ((i % 32) as u32 == b || bit32(chunk, (i % 32) as u32)));
                    } else {
                        assert(self.0@[i / 32] == s1[i / 32]);
                    }
                }
            }
        }
    }

    /// Removes `at` from the set.
    pub fn unset(&mut self, at: usize)
        requires
            old(self).wf(),
        ensures
            final(self).wf(),
            forall|i: int| #[trigger] final(self).contains(i) <==> old(self).contains(i) && i != at,
    {
        let d = Self::index_decomposed(at);
        let chunk_index = d[0];
        let chunk_bit = d[1];
        if chunk_index < self.0.len() {
            let chunk = self.0[chunk_index];
            let b = chunk_bit as u32;
            self.0.set(chunk_index, chunk & !(1u32 << b));
            let ghost s1 = self.0@;
            proof {
                lemma_bit_clear(chunk, b);
                assert forall|i: int| #[trigger] chunks_contain(s1, i) <==> old(self).contains(i) && i != at by {
                    if 0 <= i && i / 32 < s1.len() {
                        if i / 32 == chunk_index {
                            assert(bit32(s1[i / 32], (i % 32) as u32) == ((i % 32) as u32 != b && bit32(chunk, (i % 32) as u32)));
                        }
                    }
                }
            }
            while self.0.len() > 0 && self.0[self.0.len() - 1] == 0
                invariant
                    self.0@.len() <= s1.len(),
                    forall|k: int| 0 <= k < self.0@.len() ==> #[trigger] self.0@[k] == s1[k],
                    forall|k: int| self.0@.len() <= k < s1.len() ==> #[trigger] s1[k] == 0,
                decreases self.0.len(),
            {
                self.0.pop();
            }
            proof {
                lemma_zero_bits();
                assert forall|i: int| #[trigger] self.contains(i) <==> chunks_contain(s1, i) by {
                    if 0 <= i && i / 32 < s1.len() && i / 32 >= self.0@.len() {
                        assert(s1[i / 32] == 0);
                    }
                }
            }
        } else {
            proof {
                assert forall|i: int| #[trigger] self.contains(i) implies i != at by {
                }
            }
        }
    }
}

} // verus!
