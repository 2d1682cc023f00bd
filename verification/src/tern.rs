use vstd::prelude::*;
use crate::common::{ChannelId, ControllerId};

verus! {

pub type ChunkType = u16;

/// Selects the mask bit of every pair: 101010...
pub const MASK_BITS: ChunkType = 0xAAAAu16;

/// Whether pair `i` of `x` assigns its variable (the pair's high bit).
pub open spec fn pair_assigned(x: u16, i: u16) -> bool {
    (x >> (2u16 * i + 1u16)) & 1u16 == 1u16
}

/// The value pair `i` of `x` gives its variable (the pair's low bit).
pub open spec fn pair_value(x: u16, i: u16) -> bool {
    (x >> (2u16 * i)) & 1u16 == 1u16
}

/// No pair of `x` is 01: a value bit is only set where the mask bit is set.
pub open spec fn chunk_wf(x: u16) -> bool {
    forall|i: u16| i < 8 ==> (pair_value(x, i) ==> pair_assigned(x, i))
}

/// What pair `i` of `x` says of its variable.
pub open spec fn pair_query(x: u16, i: u16) -> Option<bool> {
    if pair_assigned(x, i) {
        Some(pair_value(x, i))
    } else {
        None
    }
}

/// `x` satisfies `y`: every variable that `y` assigns, `x` assigns the same way.
pub open spec fn chunk_satisfies(x: u16, y: u16) -> bool {
    forall|i: u16| i < 8 ==> (pair_assigned(y, i) ==> pair_assigned(x, i) && pair_value(x, i) == pair_value(y, i))
}

/// `x` and `y` agree on every variable that both assign.
pub open spec fn chunk_consistent(x: u16, y: u16) -> bool {
    forall|i: u16| i < 8 ==> (pair_assigned(x, i) && pair_assigned(y, i) ==> pair_value(x, i) == pair_value(y, i))
}


/// Pair `i` of `x` agrees with what pair `i` of `y` assigns.
pub open spec fn pair_satisfies(x: u16, y: u16, i: u16) -> bool {
    pair_assigned(y, i) ==> pair_assigned(x, i) && pair_value(x, i) == pair_value(y, i)
}

/// Pairs `i` of `x` and `y` do not assign different values.
pub open spec fn pair_consistent(x: u16, y: u16, i: u16) -> bool {
    pair_assigned(x, i) && pair_assigned(y, i) ==> pair_value(x, i) == pair_value(y, i)
}

pub open spec fn satisfies_all8(x: u16, y: u16) -> bool {
    &&& pair_satisfies(x, y, 0)
    &&& pair_satisfies(x, y, 1)
    &&& pair_satisfies(x, y, 2)
    &&& pair_satisfies(x, y, 3)
    &&& pair_satisfies(x, y, 4)
    &&& pair_satisfies(x, y, 5)
    &&& pair_satisfies(x, y, 6)
    &&& pair_satisfies(x, y, 7)
}

pub open spec fn consistent_all8(x: u16, y: u16) -> bool {
    &&& pair_consistent(x, y, 0)
    &&& pair_consistent(x, y, 1)
    &&& pair_consistent(x, y, 2)
    &&& pair_consistent(x, y, 3)
    &&& pair_consistent(x, y, 4)
    &&& pair_consistent(x, y, 5)
    &&& pair_consistent(x, y, 6)
    &&& pair_consistent(x, y, 7)
}

proof fn lemma_all8(x: u16, y: u16)
    ensures
        satisfies_all8(x, y) <==> chunk_satisfies(x, y),
        consistent_all8(x, y) <==> chunk_consistent(x, y),
{
    if satisfies_all8(x, y) {
        assert forall|i: u16| i < 8 implies (pair_assigned(y, i) ==> pair_assigned(x, i) && pair_value(x, i) == pair_value(y, i)) by {
            assert(pair_satisfies(x, y, i));
        }
    }
    if chunk_satisfies(x, y) {
        assert(pair_satisfies(x, y, 0) && pair_satisfies(x, y, 1) && pair_satisfies(x, y, 2) && pair_satisfies(x, y, 3));
        assert(pair_satisfies(x, y, 4) && pair_satisfies(x, y, 5) && pair_satisfies(x, y, 6) && pair_satisfies(x, y, 7));
    }
    if consistent_all8(x, y) {
        assert forall|i: u16| i < 8 implies (pair_assigned(x, i) && pair_assigned(y, i) ==> pair_value(x, i) == pair_value(y, i)) by {
            assert(pair_consistent(x, y, i));
        }
    }
    if chunk_consistent(x, y) {
        assert(pair_consistent(x, y, 0) && pair_consistent(x, y, 1) && pair_consistent(x, y, 2) && pair_consistent(x, y, 3));
        assert(pair_consistent(x, y, 4) && pair_consistent(x, y, 5) && pair_consistent(x, y, 6) && pair_consistent(x, y, 7));
    }
}

proof fn lemma_mask_bits()
    ensures
        !0u16 == MASK_BITS | (MASK_BITS >> 1u16),
        0u16 == MASK_BITS & (MASK_BITS >> 1u16),
{
    assert(!0u16 == 0xAAAAu16 | (0xAAAAu16 >> 1u16)) by (bit_vector);
    assert(0u16 == 0xAAAAu16 & (0xAAAAu16 >> 1u16)) by (bit_vector);
}

/// A chunk of variables, each in one of three states: unassigned (00), false (10), true (11).
/// Invariant: no pair is 01.
#[derive(Debug, Copy, Clone, PartialEq, Eq, Structural)]
pub struct TernChunk(pub ChunkType);

impl TernChunk {
    pub open spec fn wf(self) -> bool {
        chunk_wf(self.0)
    }

    /// The number of variables that a chunk holds.
    pub fn vars_per_chunk() -> (n: usize)
        ensures
            n == 1,
    {
        2 / 2
    }

    /// Assigns `value` to variable `index`, returning its previous value if it had one.
    pub fn overwrite(&mut self, index: usize, value: bool) -> (r: Option<bool>)
        requires
            old(self).wf(),
            index < 1,
        ensures
            final(self).wf(),
            r == pair_query(old(self).0, index as u16),
            pair_query(final(self).0, index as u16) == Some(value),
            forall|j: u16| j < 8 && j != index ==> pair_query(#[trigger] final(self).0, j) == pair_query(old(self).0, j),
    {
        let i = index as u16;
        let mask_bit_mask: u16 = 1u16 << (i * 2 + 1);
        let bool_bit_mask: u16 = 1u16 << (i * 2);
        let x0 = self.0;
        let ret = if self.0 & mask_bit_mask != 0 {
            let was_value = self.0 & bool_bit_mask != 0;
            if was_value != value {
                // flip the value bit
                self.0 = self.0 ^ bool_bit_mask;
            }
            Some(was_value)
        } else {
            if value {
                // set the value bit
                self.0 = self.0 | bool_bit_mask;
            }
            None
        };
        // set the mask bit
        let x1 = self.0;
        self.0 = self.0 | mask_bit_mask;
        let x2 = self.0;
        proof {
            assert(i < 1u16);
            assert(x0 & mask_bit_mask != 0 <==> pair_assigned(x0, i)) by (bit_vector)
                requires mask_bit_mask == 1u16 << (i * 2 + 1), i < 1u16;
            assert(x0 & bool_bit_mask != 0 <==> pair_value(x0, i)) by (bit_vector)
                requires bool_bit_mask == 1u16 << (i * 2), i < 1u16;
            assert(pair_assigned(x2, i) && pair_value(x2, i) == value) by (bit_vector)
                requires
                    mask_bit_mask == 1u16 << (i * 2 + 1),
                    bool_bit_mask == 1u16 << (i * 2),
                    i < 1u16,
                    x2 == x1 | mask_bit_mask,
                    (x0 & mask_bit_mask != 0 && ((x0 & bool_bit_mask != 0) != value)) ==> x1 == x0 ^ bool_bit_mask,
                    (x0 & mask_bit_mask != 0 && ((x0 & bool_bit_mask != 0) == value)) ==> x1 == x0,
                    (x0 & mask_bit_mask == 0 && value) ==> x1 == x0 | bool_bit_mask,
                    (x0 & mask_bit_mask == 0 && !value) ==> x1 == x0,
                    (x0 & mask_bit_mask == 0) ==> (x0 & bool_bit_mask == 0),
            ;
            assert(forall|j: u16| j < 8 && j != i ==> pair_assigned(x2, j) == pair_assigned(x0, j) && pair_value(x2, j) == pair_value(x0, j)) by (bit_vector)
                requires
                    mask_bit_mask == 1u16 << (i * 2 + 1),
                    bool_bit_mask == 1u16 << (i * 2),
                    i < 1u16,
                    x2 == x1 | mask_bit_mask,
                    x1 == x0 || x1 == x0 ^ bool_bit_mask || x1 == x0 | bool_bit_mask,
            ;
            assert(chunk_wf(x2)) by {
                assert forall|j: u16| j < 8 implies (pair_value(x2, j) ==> pair_assigned(x2, j)) by {
                    if j != i {
                        assert(pair_assigned(x2, j) == pair_assigned(x0, j) && pair_value(x2, j) == pair_value(x0, j));
                    }
                }
            }
        }
        ret
    }

    /// The chunk that assigns `value` to variable `index` and nothing else.
    pub fn new_singleton(index: usize, value: bool) -> (r: TernChunk)
        requires
            index < 1,
        ensures
            r.wf(),
            pair_query(r.0, index as u16) == Some(value),
            forall|j: u16| j < 8 && j != index ==> pair_query(#[trigger] r.0, j) is None,
    {
        let i = index as u16;
        let mask_bits: u16 = 1u16 << (i * 2 + 1);
        let maybe_bit: ChunkType = if value { 1u16 } else { 0u16 };
        let bool_bits: u16 = maybe_bit << (i * 2);
        let x = mask_bits | bool_bits;
        proof {
            assert(pair_assigned(x, i) && (pair_value(x, i) <==> maybe_bit == 1u16)) by (bit_vector)
                requires
                    x == mask_bits | bool_bits,
                    mask_bits == 1u16 << (i * 2 + 1),
                    bool_bits == maybe_bit << (i * 2),
                    maybe_bit <= 1u16,
                    i < 1u16,
            ;
            assert(forall|j: u16| j < 8 && j != i ==> !pair_assigned(x, j) && !pair_value(x, j)) by (bit_vector)
                requires
                    x == mask_bits | bool_bits,
                    mask_bits == 1u16 << (i * 2 + 1),
                    bool_bits == maybe_bit << (i * 2),
                    maybe_bit <= 1u16,
                    i < 1u16,
            ;
            assert(chunk_wf(x)) by {
                assert forall|j: u16| j < 8 implies (pair_value(x, j) ==> pair_assigned(x, j)) by {
                    if j != i {
                        assert(!pair_value(x, j));
                    }
                }
            }
        }
        TernChunk(x)
    }

    /// What this chunk says of variable `index`.
    pub fn query(self, index: usize) -> (r: Option<bool>)
        requires
            index < 1,
        ensures
            r == pair_query(self.0, index as u16),
    {
        let i = index as u16;
        let mask_bit_mask: u16 = 1u16 << (i * 2 + 1);
        let bool_bit_mask: u16 = 1u16 << (i * 2);
        let x = self.0;
        proof {
            assert(x & mask_bit_mask != 0 <==> pair_assigned(x, i)) by (bit_vector)
                requires mask_bit_mask == 1u16 << (i * 2 + 1), i < 1u16;
            assert(x & bool_bit_mask != 0 <==> pair_value(x, i)) by (bit_vector)
                requires bool_bit_mask == 1u16 << (i * 2), i < 1u16;
        }
        if self.0 & mask_bit_mask != 0 {
            Some(self.0 & bool_bit_mask != 0)
        } else {
            None
        }
    }

    /// `[a, b]` where `a` holds iff `othe` satisfies `self` and `b` iff `self` satisfies `othe`;
    /// both false when the chunks disagree on some variable.
    pub fn mutual_satisfaction(self, othe: Self) -> (r: [bool; 2])
        requires
            self.wf(),
            othe.wf(),
        ensures
            r@[0] == chunk_satisfies(othe.0, self.0),
            r@[1] == chunk_satisfies(self.0, othe.0),
            !chunk_consistent(self.0, othe.0) ==> !r@[0] && !r@[1],
    {
        let x = self.0;
        let y = othe.0;
        let s_mask = self.0 & MASK_BITS;
        let o_mask = othe.0 & MASK_BITS;
        let both_mask = s_mask & o_mask;
        let diff = self.0 ^ othe.0;
        let masked_diff = diff & (both_mask >> 1);
        proof {
            lemma_all8(x, y);
            lemma_all8(y, x);
            assert(masked_diff == 0 <==> consistent_all8(x, y)) by (bit_vector)
                requires
                    s_mask == x & 0xAAAAu16,
                    o_mask == y & 0xAAAAu16,
                    both_mask == s_mask & o_mask,
                    diff == x ^ y,
                    masked_diff == diff & (both_mask >> 1u16),
            ;
            assert(masked_diff == 0 ==> ((s_mask & !o_mask == 0) <==> satisfies_all8(y, x))) by (bit_vector)
                requires
                    s_mask == x & 0xAAAAu16,
                    o_mask == y & 0xAAAAu16,
                    both_mask == s_mask & o_mask,
                    diff == x ^ y,
                    masked_diff == diff & (both_mask >> 1u16),
            ;
            assert(masked_diff == 0 ==> ((o_mask & !s_mask == 0) <==> satisfies_all8(x, y))) by (bit_vector)
                requires
                    s_mask == x & 0xAAAAu16,
                    o_mask == y & 0xAAAAu16,
                    both_mask == s_mask & o_mask,
                    diff == x ^ y,
                    masked_diff == diff & (both_mask >> 1u16),
            ;
            if masked_diff != 0 {
                let i = choose|i: u16| i < 8 && !(pair_assigned(x, i) && pair_assigned(y, i) ==> pair_value(x, i) == pair_value(y, i));
                assert(!pair_satisfies(x, y, i));
                assert(!pair_satisfies(y, x, i));
            }
        }
        if masked_diff != 0 {
            [false, false]
        } else {
            let s_sat_o = s_mask & !o_mask == 0;
            let o_sat_s = o_mask & !s_mask == 0;
            [s_sat_o, o_sat_s]
        }
    }

    /// Returns whether self satisfies other. False iff either:
    /// 1. there exists a variable which `othe` assigns and `self` does not, or
    /// 2. both assign a variable, with different values.
    pub fn satisfies(self, othe: Self) -> (r: bool)
        ensures
            r == chunk_satisfies(self.0, othe.0),
    {
        let x = self.0;
        let y = othe.0;
        let s_mask = self.0 & MASK_BITS;
        let o_mask = othe.0 & MASK_BITS;
        let both_mask = s_mask & o_mask;
        let diff = self.0 ^ othe.0;
        // FALSE if othe has a 1X pair where self has a 1(!X) pair
        let masked_diff = diff & (both_mask >> 1);
        // FALSE if othe has a 1X pair where self has a 0Y pair.
        let o_not_s_mask = o_mask & !s_mask;
        proof {
            lemma_all8(x, y);
            assert((o_not_s_mask | masked_diff) == 0 <==> satisfies_all8(x, y)) by (bit_vector)
                requires
                    s_mask == x & 0xAAAAu16,
                    o_mask == y & 0xAAAAu16,
                    both_mask == s_mask & o_mask,
                    diff == x ^ y,
                    masked_diff == diff & (both_mask >> 1u16),
                    o_not_s_mask == o_mask & !s_mask,
            ;
        }
        o_not_s_mask | masked_diff == 0
    }

    /// The chunk assigning every variable that either chunk assigns, or `None` if they
    /// disagree on some variable.
    pub fn common_satisfier(self, othe: Self) -> (r: Option<Self>)
        requires
            self.wf(),
            othe.wf(),
        ensures
            r is None <==> !chunk_consistent(self.0, othe.0),
            r matches Some(n) ==> n.wf() && forall|i: u16| i < 8 ==> #[trigger] pair_query(n.0, i) == (if pair_assigned(self.0, i) {
                pair_query(self.0, i)
            } else {
                pair_query(othe.0, i)
            }),
    {
        let x = self.0;
        let y = othe.0;
        let s_mask = self.0 & MASK_BITS;
        let o_mask = othe.0 & MASK_BITS;
        let both_mask = s_mask & o_mask;
        let diff = self.0 ^ othe.0;
        let masked_diff = diff & (both_mask >> 1);
        proof {
            lemma_all8(x, y);
            lemma_all8(y, x);
            assert(masked_diff == 0 <==> consistent_all8(x, y)) by (bit_vector)
                requires
                    s_mask == x & 0xAAAAu16,
                    o_mask == y & 0xAAAAu16,
                    both_mask == s_mask & o_mask,
                    diff == x ^ y,
                    masked_diff == diff & (both_mask >> 1u16),
            ;
        }
        if masked_diff != 0 {
            // an inconsistency exists
            None
        } else {
            let s_vals = (s_mask >> 1) & self.0;
            let o_vals = (o_mask >> 1) & othe.0;
            let new = s_mask | o_mask | s_vals | o_vals;
            proof {
                assert(forall|i: u16| i < 8 ==> pair_assigned(new, i) == (pair_assigned(x, i) || pair_assigned(y, i))
                    && (pair_value(new, i) == ((pair_assigned(x, i) && pair_value(x, i)) || (pair_assigned(y, i) && pair_value(y, i))))) by (bit_vector)
                    requires
                        s_mask == x & 0xAAAAu16,
                        o_mask == y & 0xAAAAu16,
                        s_vals == (s_mask >> 1u16) & x,
                        o_vals == (o_mask >> 1u16) & y,
                        new == s_mask | o_mask | s_vals | o_vals,
                ;
            }
            Some(TernChunk(new))
        }
    }
}

/// Only the first pair of `x` is ever used (a chunk holds one variable).
pub open spec fn low_only(x: u16) -> bool {
    x < 4
}

proof fn lemma_low_only(x: u16)
    requires
        x < 4,
    ensures
        forall|i: u16| 1 <= i < 8 ==> !pair_assigned(x, i) && !pair_value(x, i),
{
    assert(forall|i: u16| 1 <= i < 8 ==> !pair_assigned(x, i) && !pair_value(x, i)) by (bit_vector)
        requires x < 4u16;
}

proof fn lemma_low_only_back(x: u16)
    requires
        chunk_wf(x),
        forall|j: u16| 1 <= j < 8 ==> #[trigger] pair_query(x, j) is None,
    ensures
        x < 4,
{
    assert(pair_query(x, 1) is None && pair_query(x, 2) is None && pair_query(x, 3) is None);
    assert(pair_query(x, 4) is None && pair_query(x, 5) is None && pair_query(x, 6) is None);
    assert(pair_query(x, 7) is None);
    assert(x < 4u16) by (bit_vector)
        requires
            !pair_assigned(x, 1) && !pair_value(x, 1),
            !pair_assigned(x, 2) && !pair_value(x, 2),
            !pair_assigned(x, 3) && !pair_value(x, 3),
            !pair_assigned(x, 4) && !pair_value(x, 4),
            !pair_assigned(x, 5) && !pair_value(x, 5),
            !pair_assigned(x, 6) && !pair_value(x, 6),
            !pair_assigned(x, 7) && !pair_value(x, 7),
    ;
}

proof fn lemma_zero_chunk()
    ensures
        chunk_wf(0),
        low_only(0),
        pair_query(0, 0) is None,
{
    assert(!pair_assigned(0u16, 0u16) && !pair_value(0u16, 0u16)) by (bit_vector);
    lemma_low_only(0);
}

proof fn lemma_nonzero_low(x: u16)
    requires
        x < 4,
        chunk_wf(x),
    ensures
        x != 0 <==> pair_assigned(x, 0),
{
    assert(x < 4u16 && (pair_value(x, 0) ==> pair_assigned(x, 0)) ==> (x != 0 <==> pair_assigned(x, 0))) by (bit_vector);
}

/// What variable `index` is assigned in a set of chunks.
pub open spec fn set_query(s: Seq<TernChunk>, index: int) -> Option<bool> {
    if 0 <= index < s.len() {
        pair_query(s[index].0, 0)
    } else {
        None
    }
}

/// Every chunk is well formed and uses only its first pair, and the last chunk is not empty.
pub open spec fn set_wf(s: Seq<TernChunk>) -> bool {
    &&& forall|i: int| 0 <= i < s.len() ==> (#[trigger] s[i]).wf() && low_only(s[i].0)
    &&& s.len() > 0 ==> s.last().0 != 0
}

/// The outcome of looking for a common satisfier of two sets of assignments.
pub enum CommonSatisfier<T> {
    FormerNotLatter,
    LatterNotFormer,
    Equivalent,
    New(T),
    Nonexistant,
}

/// A set of ternary variables, indexed densely from 0.
/// Invariant: the last chunk is not 00.
pub struct TernSet(pub Vec<TernChunk>);

impl TernSet {
    pub open spec fn wf(&self) -> bool {
        set_wf(self.0@)
    }

    pub open spec fn query_spec(&self, index: int) -> Option<bool> {
        set_query(self.0@, index)
    }

    /// The set that assigns `value` to variable `index` and nothing else.
    pub fn new_singleton(index: u32, value: bool) -> (r: TernSet)
        ensures
            r.wf(),
            forall|j: int| #[trigger] r.query_spec(j) == (if j == index { Some(value) } else { None }),
    {
        let which_chunk = index as usize / TernChunk::vars_per_chunk();
        let inner_index = index as usize % TernChunk::vars_per_chunk();
        let mut v: Vec<TernChunk> = Vec::new();
        let mut i: usize = 0;
        proof {
            lemma_zero_chunk();
        }
        while i < which_chunk
            invariant
                i <= which_chunk,
                which_chunk == index,
                v@.len() == i,
                forall|k: int| 0 <= k < i ==> #[trigger] v@[k] == TernChunk(0),
            decreases which_chunk - i,
        {
            v.push(TernChunk(0));
            i += 1;
        }
        let last = TernChunk::new_singleton(inner_index, value);
        v.push(last);
        proof {
            lemma_low_only_back(last.0);
            lemma_nonzero_low(last.0);
            assert(forall|k: int| 0 <= k < v@.len() - 1 ==> #[trigger] v@[k] == TernChunk(0));
        }
        TernSet(v)
    }

    /// Assigns `value` to variable `index`, returning its previous value if it had one.
    pub fn overwrite(&mut self, index: u32, value: bool) -> (r: Option<bool>)
        requires
            old(self).wf(),
        ensures
            final(self).wf(),
            r == old(self).query_spec(index as int),
            final(self).query_spec(index as int) == Some(value),
            forall|j: int| j != index ==> #[trigger] final(self).query_spec(j) == old(self).query_spec(j),
    {
        let which_chunk = index as usize / TernChunk::vars_per_chunk();
        let inner_index = index as usize % TernChunk::vars_per_chunk();
        proof {
            lemma_zero_chunk();
        }
        if which_chunk < self.0.len() {
            let mut chunk = self.0[which_chunk];
            proof {
                lemma_low_only(chunk.0);
            }
            let r = chunk.overwrite(inner_index, value);
            proof {
                lemma_low_only_back(chunk.0);
                lemma_nonzero_low(chunk.0);
                assert(self.0@[which_chunk as int] == old(self).0@[which_chunk as int]);
            }
            self.0.set(which_chunk, chunk);
            r
        } else {
            while self.0.len() < which_chunk
                invariant
                    which_chunk == index,
                    self.0@.len() <= which_chunk,
                    self.0@.len() >= old(self).0@.len(),
                    forall|k: int| 0 <= k < old(self).0@.len() ==> #[trigger] self.0@[k] == old(self).0@[k],
                    forall|k: int| old(self).0@.len() <= k < self.0@.len() ==> #[trigger] self.0@[k] == TernChunk(0),
                decreases which_chunk - self.0.len(),
            {
                self.0.push(TernChunk(0));
            }
            let last = TernChunk::new_singleton(inner_index, value);
            self.0.push(last);
            proof {
                lemma_low_only_back(last.0);
                lemma_nonzero_low(last.0);
            }
            None
        }
    }

    /// What this set assigns variable `index`.
    pub fn query(&self, index: u32) -> (r: Option<bool>)
        requires
            self.wf(),
        ensures
            r == self.query_spec(index as int),
    {
        let which_chunk = index as usize / TernChunk::vars_per_chunk();
        if which_chunk < self.0.len() {
            self.0[which_chunk].query(index as usize % TernChunk::vars_per_chunk())
        } else {
            None
        }
    }

    /// Whether this set is at least as long as `othe` and satisfies it chunk by chunk.
    pub fn satisfies(&self, othe: &Self) -> (r: bool)
        requires
            self.wf(),
            othe.wf(),
        ensures
            r == forall|j: int| #![trigger othe.query_spec(j)] othe.query_spec(j) is Some ==> self.query_spec(j) == othe.query_spec(j),
    {
        if self.0.len() < othe.0.len() {
            proof {
                let j = othe.0@.len() - 1;
                lemma_nonzero_low(othe.0@[j].0);
                assert(othe.query_spec(j) is Some);
            }
            return false;
        }
        let mut i: usize = 0;
        while i < othe.0.len()
            invariant
                self.wf(),
                othe.wf(),
                self.0@.len() >= othe.0@.len(),
                i <= othe.0@.len(),
                forall|j: int| 0 <= j < i ==> (#[trigger] othe.query_spec(j) is Some ==> self.query_spec(j) == othe.query_spec(j)),
            decreases othe.0.len() - i,
        {
            let sc = self.0[i];
            let oc = othe.0[i];
            let ok = sc.satisfies(oc);
            proof {
                lemma_low_only(sc.0);
                lemma_low_only(oc.0);
                assert(chunk_satisfies(sc.0, oc.0) <==> (pair_assigned(oc.0, 0) ==> pair_assigned(sc.0, 0) && pair_value(sc.0, 0) == pair_value(oc.0, 0))) by {
                    if pair_assigned(oc.0, 0) ==> pair_assigned(sc.0, 0) && pair_value(sc.0, 0) == pair_value(oc.0, 0) {
                        assert forall|k: u16| k < 8 implies (pair_assigned(oc.0, k) ==> pair_assigned(sc.0, k) && pair_value(sc.0, k) == pair_value(oc.0, k)) by {
                        }
                    }
                }
            }
            if !ok {
                proof {
                    assert(othe.query_spec(i as int) is Some);
                }
                return false;
            }
            i += 1;
        }
        true
    }

    /// Restores the invariant by dropping trailing empty chunks.
    pub fn restore_invariant(&mut self)
        requires
            forall|i: int| 0 <= i < old(self).0@.len() ==> (#[trigger] old(self).0@[i]).wf() && low_only(old(self).0@[i].0),
        ensures
            final(self).wf(),
            forall|j: int| #[trigger] final(self).query_spec(j) == old(self).query_spec(j),
    {
        proof {
            lemma_zero_chunk();
        }
        while self.0.len() > 0 && self.0[self.0.len() - 1] == TernChunk(0)
            invariant
                self.0@.len() <= old(self).0@.len(),
                forall|k: int| 0 <= k < self.0@.len() ==> #[trigger] self.0@[k] == old(self).0@[k],
                forall|k: int| self.0@.len() <= k < old(self).0@.len() ==> #[trigger] old(self).0@[k] == TernChunk(0),
                forall|i: int| 0 <= i < old(self).0@.len() ==> (#[trigger] old(self).0@[i]).wf() && low_only(old(self).0@[i].0),
            decreases self.0.len(),
        {
            self.0.pop();
        }
    }


    /// The flags computed by `common_satisfier`: `[a, b]` where `a` holds iff this set is at
    /// least as long as `othe` and every chunk of `othe` satisfies this set's chunk, and `b`
    /// iff this set is at most as long and every chunk of this set satisfies `othe`'s.
    pub open spec fn mutual_flags(&self, othe: &Self) -> (bool, bool) {
        let s = self.0@;
        let o = othe.0@;
        let n = if s.len() <= o.len() { s.len() } else { o.len() };
        (s.len() >= o.len() && forall|i: int| 0 <= i < n ==> chunk_satisfies(o[i].0, #[trigger] s[i].0),
         s.len() <= o.len() && forall|i: int| 0 <= i < n ==> chunk_satisfies(#[trigger] s[i].0, o[i].0))
    }

    /// Classifies the two sets by `mutual_flags`; when neither flag holds, the chunks that
    /// both sets have are merged pairwise.
    pub fn common_satisfier(&self, othe: &Self) -> (r: CommonSatisfier<Self>)
        requires
            self.wf(),
            othe.wf(),
            self.mutual_flags(othe).0 || self.mutual_flags(othe).1 || forall|i: int|
                0 <= i < self.0@.len() && i < othe.0@.len() ==> chunk_consistent(#[trigger] self.0@[i].0, othe.0@[i].0),
        ensures
            (r is Equivalent) <==> self.mutual_flags(othe).0 && self.mutual_flags(othe).1,
            (r is FormerNotLatter) <==> self.mutual_flags(othe).0 && !self.mutual_flags(othe).1,
            (r is LatterNotFormer) <==> !self.mutual_flags(othe).0 && self.mutual_flags(othe).1,
            (r is New) <==> !self.mutual_flags(othe).0 && !self.mutual_flags(othe).1,
            r matches CommonSatisfier::New(n) ==> n.0@.len() == (if self.0@.len() <= othe.0@.len() { self.0@.len() } else { othe.0@.len() })
                && forall|j: int| 0 <= j < n.0@.len() ==> #[trigger] n.query_spec(j) == (if self.query_spec(j) is Some {
                    self.query_spec(j)
                } else {
                    othe.query_spec(j)
                }),
    {
        let slen = self.0.len();
        let olen = othe.0.len();
        let n = if slen <= olen { slen } else { olen };
        let mut s_sat_o = slen >= olen;
        let mut o_sat_s = slen <= olen;
        let mut i: usize = 0;
        while i < n
            invariant
                self.wf(),
                othe.wf(),
                slen == self.0@.len(),
                olen == othe.0@.len(),
                n == (if slen <= olen { slen } else { olen }),
                i <= n,
                s_sat_o == (slen >= olen && forall|k: int| 0 <= k < i ==> chunk_satisfies(othe.0@[k].0, #[trigger] self.0@[k].0)),
                o_sat_s == (slen <= olen && forall|k: int| 0 <= k < i ==> chunk_satisfies(#[trigger] self.0@[k].0, othe.0@[k].0)),
            decreases n - i,
        {
            let m = self.0[i].mutual_satisfaction(othe.0[i]);
            let s2 = m[0];
            let o2 = m[1];
            s_sat_o = s_sat_o && s2;
            o_sat_s = o_sat_s && o2;
            i += 1;
        }
        if s_sat_o && o_sat_s {
            CommonSatisfier::Equivalent
        } else if s_sat_o {
            CommonSatisfier::FormerNotLatter
        } else if o_sat_s {
            CommonSatisfier::LatterNotFormer
        } else {
            let mut v: Vec<TernChunk> = Vec::new();
            let mut k: usize = 0;
            while k < n
                invariant
                    self.wf(),
                    othe.wf(),
                    slen == self.0@.len(),
                    olen == othe.0@.len(),
                    n == (if slen <= olen { slen } else { olen }),
                    k <= n,
                    v@.len() == k,
                    forall|i: int| 0 <= i < self.0@.len() && i < othe.0@.len() ==> chunk_consistent(#[trigger] self.0@[i].0, othe.0@[i].0),
                    forall|j: int| 0 <= j < k ==> #[trigger] set_query(v@, j) == (if self.query_spec(j) is Some {
                        self.query_spec(j)
                    } else {
                        othe.query_spec(j)
                    }),
                decreases n - k,
            {
                let c = self.0[k].common_satisfier(othe.0[k]).unwrap();
                let ghost prev = v@;
                v.push(c);
                proof {
                    assert(set_query(v@, k as int) == pair_query(c.0, 0));
                    assert(pair_query(c.0, 0) == (if pair_assigned(self.0@[k as int].0, 0) {
                        pair_query(self.0@[k as int].0, 0)
                    } else {
                        pair_query(othe.0@[k as int].0, 0)
                    }));
                    assert(self.query_spec(k as int) == pair_query(self.0@[k as int].0, 0));
                    assert(othe.query_spec(k as int) == pair_query(othe.0@[k as int].0, 0));
                    assert forall|j: int| 0 <= j < k + 1 implies #[trigger] set_query(v@, j) == (if self.query_spec(j) is Some {
                        self.query_spec(j)
                    } else {
                        othe.query_spec(j)
                    }) by {
                        if j < k {
                            assert(v@[j] == prev[j]);
                            assert(set_query(prev, j) == pair_query(prev[j].0, 0));
                        }
                    }
                }
                k += 1;
            }
            CommonSatisfier::New(TernSet(v))
        }
    }

    pub fn is_empty(&self) -> (r: bool)
        requires
            self.wf(),
        ensures
            r == forall|j: int| #[trigger] self.query_spec(j) is None,
    {
        if self.0.len() > 0 {
            proof {
                lemma_nonzero_low(self.0@.last().0);
                assert(self.query_spec(self.0@.len() - 1) is Some);
            }
        }
        self.0.len() == 0
    }
}

/// Controllers in strictly increasing order, each with a well-formed set.
pub open spec fn controllers_wf(s: Seq<(ControllerId, TernSet)>) -> bool {
    &&& forall|i: int, j: int| 0 <= i < j < s.len() ==> (#[trigger] s[i]).0 < (#[trigger] s[j]).0
    &&& forall|i: int| 0 <= i < s.len() ==> (#[trigger] s[i]).1.wf()
}

pub open spec fn has_controller(s: Seq<(ControllerId, TernSet)>, c: ControllerId) -> bool {
    exists|i: int| 0 <= i < s.len() && (#[trigger] s[i]).0 == c
}

/// What the predicate `s` assigns channel `id`.
pub open spec fn tern_query(s: Seq<(ControllerId, TernSet)>, id: ChannelId) -> Option<bool> {
    if has_controller(s, id.controller_id) {
        let i = choose|i: int| 0 <= i < s.len() && (#[trigger] s[i]).0 == id.controller_id;
        s[i].1.query_spec(id.channel_index as int)
    } else {
        None
    }
}

proof fn lemma_tern_query_at(s: Seq<(ControllerId, TernSet)>, i: int, id: ChannelId)
    requires
        controllers_wf(s),
        0 <= i < s.len(),
        s[i].0 == id.controller_id,
    ensures
        tern_query(s, id) == s[i].1.query_spec(id.channel_index as int),
{
    assert(has_controller(s, id.controller_id));
    let k = choose|k: int| 0 <= k < s.len() && (#[trigger] s[k]).0 == id.controller_id;
    if k < i {
        assert(s[k].0 < s[i].0);
    } else if k > i {
        assert(s[i].0 < s[k].0);
    }
}


/// `a` assigns every variable that `b` assigns, the same way.
pub open spec fn set_satisfies(a: TernSet, b: TernSet) -> bool {
    forall|j: int| #![trigger b.query_spec(j)] b.query_spec(j) is Some ==> a.query_spec(j) == b.query_spec(j)
}

/// Every controller of `o` is a controller of `s`, whose set satisfies `o`'s.
pub open spec fn controllers_satisfy(s: Seq<(ControllerId, TernSet)>, o: Seq<(ControllerId, TernSet)>) -> bool {
    forall|k: int| 0 <= k < o.len() ==> #[trigger] controller_satisfied(s, o[k].0, o[k].1)
}

/// `s` has controller `c`, and its set satisfies `set`.
pub open spec fn controller_satisfied(s: Seq<(ControllerId, TernSet)>, c: ControllerId, set: TernSet) -> bool {
    exists|i: int| 0 <= i < s.len() && (#[trigger] s[i]).0 == c && set_satisfies(s[i].1, set)
}

/// A partial assignment of booleans to channels, grouped by controller.
pub struct Predicate(pub Vec<(ControllerId, TernSet)>);

impl Predicate {
    pub open spec fn wf(&self) -> bool {
        controllers_wf(self.0@)
    }

    pub open spec fn query_spec(&self, id: ChannelId) -> Option<bool> {
        tern_query(self.0@, id)
    }

    /// The predicate that assigns nothing.
    pub fn new_trivial() -> (r: Predicate)
        ensures
            r.wf(),
            forall|id: ChannelId| #[trigger] r.query_spec(id) is None,
    {
        Predicate(Vec::new())
    }

    /// What this predicate assigns channel `channel_id`.
    pub fn query(&self, channel_id: ChannelId) -> (r: Option<bool>)
        requires
            self.wf(),
        ensures
            r == self.query_spec(channel_id),
    {
        let mut i: usize = 0;
        while i < self.0.len()
            invariant
                self.wf(),
                i <= self.0@.len(),
                forall|k: int| 0 <= k < i ==> (#[trigger] self.0@[k]).0 != channel_id.controller_id,
            decreases self.0.len() - i,
        {
            if self.0[i].0 == channel_id.controller_id {
                proof {
                    lemma_tern_query_at(self.0@, i as int, channel_id);
                }
                return self.0[i].1.query(channel_id.channel_index);
            }
            i += 1;
        }
        None
    }


    /// Whether this predicate satisfies `other`, controller by controller.
    pub fn satisfies(&self, other: &Self) -> (r: bool)
        requires
            self.wf(),
            other.wf(),
        ensures
            r == controllers_satisfy(self.0@, other.0@),
    {
        let s = &self.0;
        let o = &other.0;
        if s.len() == 0 {
            if o.len() != 0 {
                proof {
                    assert(!controller_satisfied(s@, o@[0].0, o@[0].1));
                }
            }
            assert(o@.len() == 0 ==> controllers_satisfy(s@, o@));
            assert(o@.len() != 0 ==> !controllers_satisfy(s@, o@));
            return o.len() == 0;
        }
        let mut si: usize = 0;
        let mut oj: usize = 0;
        while oj < o.len()
            invariant
                self.wf(),
                other.wf(),
                s@ == self.0@,
                o@ == other.0@,
                si < s.len(),
                oj <= o.len(),
                oj < o.len() ==> forall|k: int| 0 <= k < si ==> (#[trigger] s@[k]).0 < o@[oj as int].0,
                forall|k: int| 0 <= k < oj ==> #[trigger] controller_satisfied(s@, o@[k].0, o@[k].1),
            decreases o.len() - oj, s.len() - si,
        {
            let oid = o[oj].0;
            if s[si].0 < oid {
                if si + 1 == s.len() {
                    proof {
                        assert(!controller_satisfied(s@, o@[oj as int].0, o@[oj as int].1)) by {
                            if controller_satisfied(s@, o@[oj as int].0, o@[oj as int].1) {
                                let i = choose|i: int| 0 <= i < s@.len() && (#[trigger] s@[i]).0 == o@[oj as int].0 && set_satisfies(s@[i].1, o@[oj as int].1);
                                if i < si {
                                    assert(s@[i].0 < oid);
                                }
                            }
                        }
                    }
                    return false;
                }
                si += 1;
            } else {
                let sat = s[si].0 == oid && s[si].1.satisfies(&o[oj].1);
                if !sat {
                    proof {
                        assert(!controller_satisfied(s@, o@[oj as int].0, o@[oj as int].1)) by {
                            if controller_satisfied(s@, o@[oj as int].0, o@[oj as int].1) {
                                let i = choose|i: int| 0 <= i < s@.len() && (#[trigger] s@[i]).0 == o@[oj as int].0 && set_satisfies(s@[i].1, o@[oj as int].1);
                                if i < si {
                                    assert(s@[i].0 < oid);
                                } else if i > si {
                                    assert(s@[si as int].0 < s@[i].0);
                                }
                            }
                        }
                    }
                    return false;
                }
                proof {
                    assert(s@[si as int].0 == o@[oj as int].0 && set_satisfies(s@[si as int].1, o@[oj as int].1));
                    assert(controller_satisfied(s@, o@[oj as int].0, o@[oj as int].1));
                    if oj + 1 < o@.len() {
                        assert(o@[oj as int].0 < o@[oj + 1].0);
                    }
                }
                oj += 1;
            }
        }
        assert(controllers_satisfy(s@, o@));
        true
    }

    /// Assigns `value` to `channel_id`, returning the value it had before, if any.
    pub fn overwrite(&mut self, channel_id: ChannelId, value: bool) -> (r: Option<bool>)
        requires
            old(self).wf(),
        ensures
            final(self).wf(),
            r == old(self).query_spec(channel_id),
            final(self).query_spec(channel_id) == Some(value),
            forall|id: ChannelId| id != channel_id ==> #[trigger] final(self).query_spec(id) == old(self).query_spec(id),
    {
        let ChannelId { controller_id, channel_index } = channel_id;
        let ghost s0 = self.0@;
        let mut i: usize = 0;
        while i < self.0.len() && self.0[i].0 < controller_id
            invariant
                self.wf(),
                self.0@ == s0,
                i <= self.0@.len(),
                forall|k: int| 0 <= k < i ==> (#[trigger] s0[k]).0 < controller_id,
            decreases self.0.len() - i,
        {
            i += 1;
        }
        if i < self.0.len() && self.0[i].0 == controller_id {
            let (c, mut set) = self.0.remove(i);
            let r = set.overwrite(channel_index, value);
            self.0.insert(i, (c, set));
            proof {
                let s1 = self.0@;
                assert(s1 == s0.update(i as int, (c, set)));
                assert(controllers_wf(s1)) by {
                    assert forall|a: int, b: int| 0 <= a < b < s1.len() implies (#[trigger] s1[a]).0 < (#[trigger] s1[b]).0 by {
                        assert(s0[a].0 < s0[b].0);
                    }
                }
                lemma_tern_query_at(s0, i as int, channel_id);
                lemma_tern_query_at(s1, i as int, channel_id);
                assert forall|id: ChannelId| id != channel_id implies #[trigger] tern_query(s1, id) == tern_query(s0, id) by {
                    if id.controller_id == controller_id {
                        lemma_tern_query_at(s0, i as int, id);
                        lemma_tern_query_at(s1, i as int, id);
                    } else {
                        if has_controller(s1, id.controller_id) {
                            let k = choose|k: int| 0 <= k < s1.len() && (#[trigger] s1[k]).0 == id.controller_id;
                            lemma_tern_query_at(s1, k, id);
                            lemma_tern_query_at(s0, k, id);
                        } else if has_controller(s0, id.controller_id) {
                            let k = choose|k: int| 0 <= k < s0.len() && (#[trigger] s0[k]).0 == id.controller_id;
                            assert(s1[k].0 == id.controller_id);
                        }
                    }
                }
            }
            r
        } else {
            let set = TernSet::new_singleton(channel_index, value);
            self.0.insert(i, (controller_id, set));
            proof {
                let s1 = self.0@;
                assert(s1 == s0.insert(i as int, (controller_id, set)));
                assert(!has_controller(s0, controller_id)) by {
                    if has_controller(s0, controller_id) {
                        let k = choose|k: int| 0 <= k < s0.len() && (#[trigger] s0[k]).0 == controller_id;
                        if k > i {
                            assert(s0[i as int].0 < s0[k].0);
                        }
                    }
                }
                assert(controllers_wf(s1)) by {
                    assert forall|a: int, b: int| 0 <= a < b < s1.len() implies (#[trigger] s1[a]).0 < (#[trigger] s1[b]).0 by {
                        if b < i {
                            assert(s0[a].0 < s0[b].0);
                        } else if b == i {
                            assert(s0[a].0 < controller_id);
                        } else if a < i {
                            assert(s0[a].0 < s0[b - 1].0);
                        } else if a == i {
                            if b - 1 > i {
                                assert(s0[i as int].0 < s0[b - 1].0);
                            }
                            assert(s0[b - 1].0 != controller_id);
                        } else {
                            assert(s0[a - 1].0 < s0[b - 1].0);
                        }
                    }
                    assert forall|a: int| 0 <= a < s1.len() implies (#[trigger] s1[a]).1.wf() by {
                        if a < i {
                            assert(s1[a] == s0[a]);
                        } else if a > i {
                            assert(s1[a] == s0[a - 1]);
                        }
                    }
                }
                lemma_tern_query_at(s1, i as int, channel_id);
                assert forall|id: ChannelId| id != channel_id implies #[trigger] tern_query(s1, id) == tern_query(s0, id) by {
                    if id.controller_id == controller_id {
                        lemma_tern_query_at(s1, i as int, id);
                    } else {
                        if has_controller(s1, id.controller_id) {
                            let k = choose|k: int| 0 <= k < s1.len() && (#[trigger] s1[k]).0 == id.controller_id;
                            lemma_tern_query_at(s1, k, id);
                            if k < i {
                                lemma_tern_query_at(s0, k, id);
                            } else {
                                lemma_tern_query_at(s0, k - 1, id);
                            }
                        } else if has_controller(s0, id.controller_id) {
                            let k = choose|k: int| 0 <= k < s0.len() && (#[trigger] s0[k]).0 == id.controller_id;
                            if k < i {
                                assert(s1[k].0 == id.controller_id);
                            } else {
                                assert(s1[k + 1].0 == id.controller_id);
                            }
                        }
                    }
                }
            }
            None
        }
    }
}

} // verus!
