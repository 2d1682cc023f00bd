use vstd::prelude::*;
use crate::bitset::{bit32, chunks_contain, lemma_zero_bits};

verus! {

/// The AND of chunk `idx` of the first `k` sets, or `None` if one of them is too short.
pub open spec fn and_prefix(sets: Seq<Seq<u32>>, idx: int, k: int) -> Option<u32>
    decreases k,
{
    if k <= 0 {
        Some(!0u32)
    } else {
        match and_prefix(sets, idx, k - 1) {
            None => None,
            Some(a) => if 0 <= idx < sets[k - 1].len() {
                Some(a & sets[k - 1][idx])
            } else {
                None
            },
        }
    }
}

/// The AND of chunk `idx` of all sets, or `None` if one of them is too short.
pub open spec fn and_chunk(sets: Seq<Seq<u32>>, idx: int) -> Option<u32> {
    and_prefix(sets, idx, sets.len() as int)
}

/// Index `i` is in every one of the (at least one) sets.
pub open spec fn in_all(sets: Seq<Seq<u32>>, i: int) -> bool {
    sets.len() > 0 && forall|k: int| 0 <= k < sets.len() ==> chunks_contain(#[trigger] sets[k], i)
}

pub proof fn lemma_bit_and(a: u32, x: u32)
    ensures
        forall|b: u32| b < 32 ==> #[trigger] bit32(a & x, b) == (bit32(a, b) && bit32(x, b)),
{
    assert(forall|b: u32| b < 32 ==> #[trigger] bit32(a & x, b) == (bit32(a, b) && bit32(x, b))) by (bit_vector);
}

pub proof fn lemma_and_prefix(sets: Seq<Seq<u32>>, idx: int, k: int)
    requires
        0 <= idx,
        0 <= k <= sets.len(),
    ensures
        and_prefix(sets, idx, k) is None <==> exists|m: int| 0 <= m < k && idx >= (#[trigger] sets[m]).len(),
        and_prefix(sets, idx, k) matches Some(a) ==> forall|b: u32| b < 32 ==> (#[trigger] bit32(a, b) <==> forall|m: int|
            0 <= m < k ==> bit32((#[trigger] sets[m])[idx], b)),
    decreases k,
{
    if k == 0 {
        assert(forall|b: u32| b < 32 ==> #[trigger] bit32(!0u32, b)) by (bit_vector);
    } else {
        lemma_and_prefix(sets, idx, k - 1);
        match and_prefix(sets, idx, k - 1) {
            None => {
                let m = choose|m: int| 0 <= m < k - 1 && idx >= (#[trigger] sets[m]).len();
            },
            Some(a) => {
                if idx < sets[k - 1].len() {
                    lemma_bit_and(a, sets[k - 1][idx]);
                    assert forall|b: u32| b < 32 implies (#[trigger] bit32(a & sets[k - 1][idx], b) <==> forall|m: int|
                        0 <= m < k ==> bit32((#[trigger] sets[m])[idx], b)) by {
                        if bit32(a & sets[k - 1][idx], b) {
                            assert forall|m: int| 0 <= m < k implies bit32((#[trigger] sets[m])[idx], b) by {
                                if m < k - 1 {
                                }
                            }
                        }
                    }
                } else {
                    assert(idx >= sets[k - 1].len());
                }
            },
        }
    }
}

/// A copy of chunk lists.
fn copy_sets(sets: &Vec<Vec<u32>>) -> (r: Vec<Vec<u32>>)
    ensures
        r@.len() == sets@.len(),
        forall|k: int| 0 <= k < sets@.len() ==> #[trigger] r@[k]@ == sets@[k]@,
{
    let mut r: Vec<Vec<u32>> = Vec::new();
    let mut i: usize = 0;
    while i < sets.len()
        invariant
            i <= sets.len(),
            r@.len() == i,
            forall|k: int| 0 <= k < i ==> #[trigger] r@[k]@ == sets@[k]@,
        decreases sets.len() - i,
    {
        let s = &sets[i];
        let mut c: Vec<u32> = Vec::new();
        let mut j: usize = 0;
        while j < s.len()
            invariant
                j <= s.len(),
                c@ == s@.take(j as int),
            decreases s.len() - j,
        {
            c.push(s[j]);
            j += 1;
            assert(c@ =~= s@.take(j as int));
        }
        assert(c@ =~= s@);
        r.push(c);
        i += 1;
    }
    r
}

pub open spec fn views(sets: Seq<Vec<u32>>) -> Seq<Seq<u32>> {
    sets.map_values(|v: Vec<u32>| v@)
}

/// The AND of chunk `index` of all sets; `None` once some set has no such chunk.
pub fn nth_u32(sets: &Vec<Vec<u32>>, index: usize) -> (r: Option<u32>)
    ensures
        r == and_chunk(views(sets@), index as int),
{
    let ghost vs = views(sets@);
    let mut acc: Option<u32> = Some(!0u32);
    let mut k: usize = 0;
    while k < sets.len()
        invariant
            vs == views(sets@),
            k <= sets.len(),
            acc == and_prefix(vs, index as int, k as int),
        decreases sets.len() - k,
    {
        acc = match acc {
            None => None,
            Some(a) => {
                if index < sets[k].len() {
                    Some(a & sets[k][index])
                } else {
                    None
                }
            },
        };
        k += 1;
    }
    acc
}

/// What remains of chunk `a` once its lowest `nbi` bits have been consumed.
pub open spec fn shifted(a: u32, nbi: int) -> u32 {
    if nbi < 32 {
        a >> (nbi as u32)
    } else {
        0
    }
}

proof fn lemma_lowest_bit(c0: u32, c1: u32, c2: u32, c3: u32, c4: u32, c5: u32, s1: u32, s2: u32, s3: u32, s4: u32, s5: u32)
    requires
        c0 != 0,
        (c0 & 0xffffu32 == 0) ==> (c1 == c0 >> 16u32 && s1 == 16u32),
        (c0 & 0xffffu32 != 0) ==> (c1 == c0 && s1 == 0u32),
        (c1 & 0xffu32 == 0) ==> (c2 == c1 >> 8u32 && s2 == s1 + 8u32),
        (c1 & 0xffu32 != 0) ==> (c2 == c1 && s2 == s1),
        (c2 & 0xfu32 == 0) ==> (c3 == c2 >> 4u32 && s3 == s2 + 4u32),
        (c2 & 0xfu32 != 0) ==> (c3 == c2 && s3 == s2),
        (c3 & 0x3u32 == 0) ==> (c4 == c3 >> 2u32 && s4 == s3 + 2u32),
        (c3 & 0x3u32 != 0) ==> (c4 == c3 && s4 == s3),
        (c4 & 0x1u32 == 0) ==> (c5 == c4 >> 1u32 && s5 == s4 + 1u32),
        (c4 & 0x1u32 != 0) ==> (c5 == c4 && s5 == s4),
    ensures
        s5 < 32,
        c5 == c0 >> s5,
        bit32(c0, s5),
        forall|j: u32| j < s5 ==> !#[trigger] bit32(c0, j),
{
    assert(s5 < 32u32 && c5 == c0 >> s5 && bit32(c0, s5) && (forall|j: u32| j < s5 ==> !#[trigger] bit32(c0, j))) by (bit_vector)
        requires
            c0 != 0,
            (c0 & 0xffffu32 == 0) ==> (c1 == c0 >> 16u32 && s1 == 16u32),
            (c0 & 0xffffu32 != 0) ==> (c1 == c0 && s1 == 0u32),
            (c1 & 0xffu32 == 0) ==> (c2 == c1 >> 8u32 && s2 == s1 + 8u32),
            (c1 & 0xffu32 != 0) ==> (c2 == c1 && s2 == s1),
            (c2 & 0xfu32 == 0) ==> (c3 == c2 >> 4u32 && s3 == s2 + 4u32),
            (c2 & 0xfu32 != 0) ==> (c3 == c2 && s3 == s2),
            (c3 & 0x3u32 == 0) ==> (c4 == c3 >> 2u32 && s4 == s3 + 2u32),
            (c3 & 0x3u32 != 0) ==> (c4 == c3 && s4 == s3),
            (c4 & 0x1u32 == 0) ==> (c5 == c4 >> 1u32 && s5 == s4 + 1u32),
            (c4 & 0x1u32 != 0) ==> (c5 == c4 && s5 == s4),
    ;
}

proof fn lemma_shift_bits(a: u32, n: u32)
    requires
        n < 32,
    ensures
        forall|j: u32| j < 32 - n ==> #[trigger] bit32(a >> n, j) == bit32(a, (n + j) as u32),
        forall|j: u32| 32 - n <= j < 32 ==> !#[trigger] bit32(a >> n, j),
{
    assert(forall|j: u32| j < 32 - n ==> #[trigger] bit32(a >> n, j) == bit32(a, (n + j) as u32)) by (bit_vector)
        requires n < 32u32;
    assert(forall|j: u32| 32 - n <= j < 32 ==> !#[trigger] bit32(a >> n, j)) by (bit_vector)
        requires n < 32u32;
}

proof fn lemma_shift_more(a: u32, n: u32, t: u32)
    requires
        n < 32,
        t < 32 - n,
    ensures
        ((a >> n) >> t) >> 1u32 == shifted(a, n + t + 1),
{
    if n + t + 1 < 32 {
        assert(((a >> n) >> t) >> 1u32 == a >> ((n + t + 1) as u32)) by (bit_vector)
            requires n < 32u32, t < 32u32 - n, n + t + 1 < 32;
    } else {
        assert(((a >> n) >> t) >> 1u32 == 0u32) by (bit_vector)
            requires n < 32u32, t < 32u32 - n, n + t + 1 >= 32;
    }
}

/// Iterates, in increasing order, over the indices that are in every one of the given sets.
pub struct BitSetAndIter {
    // this value is immutable; invariant: !sets.is_empty()
    sets: Vec<Vec<u32>>,
    next_u32_index: usize,
    next_bit_index: usize,
    cached: Option<u32>,
}

impl BitSetAndIter {
    pub closed spec fn sets_view(&self) -> Seq<Seq<u32>> {
        views(self.sets@)
    }

    /// The first index not yet considered.
    pub closed spec fn pos(&self) -> int {
        self.next_u32_index * 32 + self.next_bit_index
    }

    pub closed spec fn wf(&self) -> bool {
        &&& self.sets@.len() > 0
        &&& self.sets@[0]@.len() * 32 <= usize::MAX
        &&& self.next_bit_index <= 32
        &&& self.cached == match and_chunk(self.sets_view(), self.next_u32_index as int) {
            None => None,
            Some(a) => Some(shifted(a, self.next_bit_index as int)),
        }
    }

    /// Iterates over the intersection of `sets`; over nothing when there are no sets.
    pub fn new(sets: &Vec<Vec<u32>>) -> (r: Self)
        requires
            sets@.len() > 0 ==> sets@[0]@.len() * 32 <= usize::MAX,
        ensures
            r.wf(),
            r.pos() == 0,
            sets@.len() > 0 ==> r.sets_view() == views(sets@),
            sets@.len() == 0 ==> forall|i: int| !in_all(#[trigger] r.sets_view(), i),
    {
        let sets = if sets.len() == 0 {
            let mut v: Vec<Vec<u32>> = Vec::new();
            v.push(Vec::new());
            v
        } else {
            copy_sets(sets)
        };
        let cached = nth_u32(&sets, 0);
        let r = BitSetAndIter { sets, next_u32_index: 0, next_bit_index: 0, cached };
        proof {
            if cached is Some {
                assert(shifted(cached->0, 0) == cached->0) by {
                    let a = cached->0;
                    assert(a >> 0u32 == a) by (bit_vector);
                }
            }
        }
        r
    }

    fn next_chunk(&mut self)
        requires
            old(self).wf(),
            old(self).cached is Some,
        ensures
            final(self).wf(),
            final(self).sets == old(self).sets,
            final(self).next_u32_index == old(self).next_u32_index + 1,
            final(self).next_bit_index == 0,
    {
        proof {
            lemma_and_prefix(self.sets_view(), self.next_u32_index as int, self.sets_view().len() as int);
            let m = 0int;
            assert(self.next_u32_index < self.sets_view()[m].len());
            assert(self.sets@[0].len() == self.sets@[0]@.len());
        }
        self.next_bit_index = 0;
        self.next_u32_index += 1;
        self.cached = nth_u32(&self.sets, self.next_u32_index);
        proof {
            if self.cached is Some {
                let a = self.cached->0;
                assert(a >> 0u32 == a) by (bit_vector);
            }
        }
    }

    /// The next index, in increasing order, that is in every set.
    #[verifier::rlimit(60)]
    pub fn next(&mut self) -> (r: Option<usize>)
        requires
            old(self).wf(),
        ensures
            final(self).wf(),
            final(self).sets_view() == old(self).sets_view(),
            match r {
                Some(i) => {
                    &&& in_all(old(self).sets_view(), i as int)
                    &&& old(self).pos() <= i
                    &&& forall|j: int| old(self).pos() <= j < i ==> !#[trigger] in_all(old(self).sets_view(), j)
                    &&& final(self).pos() == i + 1
                },
                None => forall|j: int| old(self).pos() <= j ==> !#[trigger] in_all(old(self).sets_view(), j),
            },
    {
        let ghost p0 = self.pos();
        let ghost vs = self.sets_view();
        loop
            invariant
                self.wf(),
                self.sets_view() == vs,
                vs == old(self).sets_view(),
                p0 == old(self).pos(),
                p0 <= self.pos(),
                forall|j: int| p0 <= j < self.pos() ==> !#[trigger] in_all(vs, j),
            decreases vs[0].len() - self.next_u32_index,
        {
            proof {
                lemma_and_prefix(vs, self.next_u32_index as int, vs.len() as int);
            }
            // get cached chunk. If none exists, iterator is done.
            let mut chunk = match self.cached {
                None => {
                    proof {
                        let m = choose|m: int| 0 <= m < vs.len() && self.next_u32_index >= (#[trigger] vs[m]).len();
                        assert forall|j: int| p0 <= j implies !#[trigger] in_all(vs, j) by {
                            if j >= self.pos() {
                                assert(!chunks_contain(vs[m], j));
                            }
                        }
                    }
                    return None;
                },
                Some(c) => c,
            };
            proof {
                let m = 0int;
                assert(self.next_u32_index < vs[m].len());
            }
            let ghost a = and_chunk(vs, self.next_u32_index as int)->0;
            if chunk == 0 {
                proof {
                    assert forall|j: int| p0 <= j < (self.next_u32_index + 1) * 32 implies !#[trigger] in_all(vs, j) by {
                        if j >= self.pos() && self.next_bit_index < 32 {
                            lemma_zero_bits();
                            let nbi = self.next_bit_index;
                            let b = (j - self.next_u32_index * 32) as u32;
                            lemma_shift_bits(a, nbi as u32);
                            assert(!bit32(chunk, (b - nbi) as u32));
                            assert(j / 32 == self.next_u32_index);
                            assert(j % 32 == b);
                        }
                    }
                }
                self.next_chunk();
                continue;
            }
            // this chunk encodes 1+ indices to yield: shift the contents of chunk
            // until the least significant bit is 1
            let ghost c0 = chunk;
            let mut nbi = self.next_bit_index;
            let ghost nbi0 = nbi;
            let mut shift: u32 = 0;
            if chunk & 0xffffu32 == 0 {
                nbi += 16;
                shift += 16;
                chunk >>= 16u32;
            }
            let ghost c1 = chunk;
            let ghost s1 = shift;
            if chunk & 0xffu32 == 0 {
                nbi += 8;
                shift += 8;
                chunk >>= 8u32;
            }
            let ghost c2 = chunk;
            let ghost s2 = shift;
            if chunk & 0xfu32 == 0 {
                nbi += 4;
                shift += 4;
                chunk >>= 4u32;
            }
            let ghost c3 = chunk;
            let ghost s3 = shift;
            if chunk & 0x3u32 == 0 {
                nbi += 2;
                shift += 2;
                chunk >>= 2u32;
            }
            let ghost c4 = chunk;
            let ghost s4 = shift;
            if chunk & 0x1u32 == 0 {
                nbi += 1;
                shift += 1;
                chunk >>= 1u32;
            }
            proof {
                lemma_lowest_bit(c0, c1, c2, c3, c4, chunk, s1, s2, s3, s4, shift);
                lemma_shift_bits(a, nbi0 as u32);
                lemma_shift_more(a, nbi0 as u32, shift);
            }
            let index = self.next_u32_index * 32 + nbi;
            self.next_bit_index = nbi + 1;
            self.cached = Some(chunk >> 1u32);
            proof {
                let b = (nbi0 + shift) as u32;
                assert(bit32(a, b));
                assert(index as int / 32 == self.next_u32_index);
                assert(index as int % 32 == b);
                assert(in_all(vs, index as int));
                assert forall|j: int| p0 <= j < index implies !#[trigger] in_all(vs, j) by {
                    if j >= self.next_u32_index * 32 + nbi0 {
                        let jj = (j - self.next_u32_index * 32 - nbi0) as u32;
                        assert(!bit32(c0, jj));
                        assert(j / 32 == self.next_u32_index);
                        assert(j % 32 == nbi0 + jj);
                    }
                }
            }
            return Some(index);
        }
    }
}


/// Chunk `i` of `s`, or `None` past its end.
pub open spec fn chunk_at(s: Seq<u32>, i: int) -> Option<u32> {
    if 0 <= i < s.len() {
        Some(s[i])
    } else {
        None
    }
}

/// Yields, chunk by chunk, the bits where ALL of the given sets have 1; ends at the first
/// chunk that some set lacks.
pub struct AndChunkIter {
    // not overwritten during iteration; invariant: !sets.is_empty()
    sets: Vec<Vec<u32>>,
    next_chunk_index: usize,
}

impl AndChunkIter {
    pub closed spec fn sets_view(&self) -> Seq<Seq<u32>> {
        views(self.sets@)
    }

    pub closed spec fn index(&self) -> int {
        self.next_chunk_index as int
    }

    pub closed spec fn wf(&self) -> bool {
        self.sets@.len() > 0
    }

    /// Iterates over the chunks of the intersection of `sets` (of nothing, when there are none).
    pub fn new(sets: &Vec<Vec<u32>>) -> (r: Self)
        ensures
            r.wf(),
            r.index() == 0,
            sets@.len() > 0 ==> r.sets_view() == views(sets@),
            sets@.len() == 0 ==> forall|i: int| #[trigger] and_chunk(r.sets_view(), i) is None,
    {
        let sets = if sets.len() == 0 {
            let mut v: Vec<Vec<u32>> = Vec::new();
            v.push(Vec::new());
            v
        } else {
            copy_sets(sets)
        };
        let r = AndChunkIter { sets, next_chunk_index: 0 };
        proof {
            if r.sets@.len() == 1 && r.sets@[0]@.len() == 0 {
                assert forall|i: int| #[trigger] and_chunk(r.sets_view(), i) is None by {
                    if i >= 0 {
                        lemma_and_prefix(r.sets_view(), i, 1);
                    }
                }
            }
        }
        r
    }

    /// The AND of the next chunk of all sets.
    pub fn next(&mut self) -> (r: Option<u32>)
        requires
            old(self).wf(),
            old(self).index() < usize::MAX,
        ensures
            final(self).wf(),
            final(self).sets_view() == old(self).sets_view(),
            final(self).index() == old(self).index() + 1,
            r == and_chunk(old(self).sets_view(), old(self).index()),
    {
        let old_chunk_index = self.next_chunk_index;
        self.next_chunk_index += 1;
        nth_u32(&self.sets, old_chunk_index)
    }
}

/// The chunk with the bits of `init` that are in none of the first `k` sets.
pub open spec fn clear_prefix(sets: Seq<Seq<u32>>, idx: int, init: u32, k: int) -> u32
    decreases k,
{
    if k <= 0 {
        init
    } else {
        let b = match chunk_at(sets[k - 1], idx) {
            Some(x) => x,
            None => 0u32,
        };
        clear_prefix(sets, idx, init, k - 1) & !b
    }
}

/// Clears from `init` the bits of chunk `idx` of every set (a set that is too short clears nothing).
fn clear_chunks(sets: &Vec<Vec<u32>>, idx: usize, init: u32) -> (r: u32)
    ensures
        r == clear_prefix(views(sets@), idx as int, init, sets@.len() as int),
{
    let ghost vs = views(sets@);
    let mut acc = init;
    let mut k: usize = 0;
    while k < sets.len()
        invariant
            vs == views(sets@),
            k <= sets.len(),
            acc == clear_prefix(vs, idx as int, init, k as int),
        decreases sets.len() - k,
    {
        let b = if idx < sets[k].len() {
            sets[k][idx]
        } else {
            0u32
        };
        acc = acc & !b;
        k += 1;
    }
    acc
}

/// Yields, chunk by chunk, the bits outside all of the `in_all` sets, starting from the
/// complement of the `except` chunk (or from 1 past its end).
pub struct InAllExceptIter {
    next_chunk_index: usize,
    in_all: Vec<Vec<u32>>,
    except: Vec<u32>,
}

impl InAllExceptIter {
    pub closed spec fn index(&self) -> int {
        self.next_chunk_index as int
    }

    pub closed spec fn in_all_view(&self) -> Seq<Seq<u32>> {
        views(self.in_all@)
    }

    pub closed spec fn except_view(&self) -> Seq<u32> {
        self.except@
    }

    pub fn new(in_all: &Vec<Vec<u32>>, except: &Vec<u32>) -> (r: Self)
        ensures
            r.index() == 0,
            r.in_all_view() == views(in_all@),
            r.except_view() == except@,
    {
        let mut e: Vec<u32> = Vec::new();
        let mut i: usize = 0;
        while i < except.len()
            invariant
                i <= except.len(),
                e@ == except@.take(i as int),
            decreases except.len() - i,
        {
            e.push(except[i]);
            i += 1;
            assert(e@ =~= except@.take(i as int));
        }
        assert(e@ =~= except@);
        InAllExceptIter { in_all: copy_sets(in_all), except: e, next_chunk_index: 0 }
    }

    pub fn next(&mut self) -> (r: Option<u32>)
        requires
            old(self).index() < usize::MAX,
        ensures
            final(self).in_all_view() == old(self).in_all_view(),
            final(self).except_view() == old(self).except_view(),
            final(self).index() == old(self).index() + 1,
            r == Some(clear_prefix(old(self).in_all_view(), old(self).index(), match chunk_at(old(self).except_view(), old(self).index()) {
                Some(x) => !x,
                None => 1u32,
            }, old(self).in_all_view().len() as int)),
    {
        let i = self.next_chunk_index;
        self.next_chunk_index += 1;
        let init = if i < self.except.len() {
            !self.except[i]
        } else {
            1u32
        };
        Some(clear_chunks(&self.in_all, i, init))
    }
}

/// Yields, chunk by chunk, the bits of `except` that are in none of the `in_none` sets;
/// ends with `except`.
pub struct InNoneExceptIter {
    next_chunk_index: usize,
    in_none: Vec<Vec<u32>>,
    except: Vec<u32>,
}

impl InNoneExceptIter {
    pub closed spec fn index(&self) -> int {
        self.next_chunk_index as int
    }

    pub closed spec fn in_none_view(&self) -> Seq<Seq<u32>> {
        views(self.in_none@)
    }

    pub closed spec fn except_view(&self) -> Seq<u32> {
        self.except@
    }

    pub fn new(in_none: &Vec<Vec<u32>>, except: &Vec<u32>) -> (r: Self)
        ensures
            r.index() == 0,
            r.in_none_view() == views(in_none@),
            r.except_view() == except@,
    {
        let mut e: Vec<u32> = Vec::new();
        let mut i: usize = 0;
        while i < except.len()
            invariant
                i <= except.len(),
                e@ == except@.take(i as int),
            decreases except.len() - i,
        {
            e.push(except[i]);
            i += 1;
            assert(e@ =~= except@.take(i as int));
        }
        assert(e@ =~= except@);
        InNoneExceptIter { in_none: copy_sets(in_none), except: e, next_chunk_index: 0 }
    }

    pub fn next(&mut self) -> (r: Option<u32>)
        requires
            old(self).index() < usize::MAX,
        ensures
            final(self).in_none_view() == old(self).in_none_view(),
            final(self).except_view() == old(self).except_view(),
            final(self).index() == old(self).index() + 1,
            r == match chunk_at(old(self).except_view(), old(self).index()) {
                Some(x) => Some(clear_prefix(old(self).in_none_view(), old(self).index(), x, old(self).in_none_view().len() as int)),
                None => None,
            },
    {
        let i = self.next_chunk_index;
        self.next_chunk_index += 1;
        if i < self.except.len() {
            Some(clear_chunks(&self.in_none, i, self.except[i]))
        } else {
            None
        }
    }
}

} // verus!
