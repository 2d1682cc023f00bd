use vstd::prelude::*;

verus! {

/// Whether bit `i` is set in the chunks (bit `i % usize::BITS` of chunk `i / usize::BITS`,
/// counting from the least significant bit).
pub open spec fn bit(chunks: Seq<usize>, i: int) -> bool {
    let w = usize::BITS as int;
    0 <= i < chunks.len() * w && bit_of(chunks[i / w], i % w)
}

/// Whether bit `m` of chunk `c` is set.
pub open spec fn bit_of(c: usize, m: int) -> bool {
    (c >> (m as usize)) & 1 == 1
}

proof fn lemma_set_bit(x: usize, j: usize, m: usize)
    requires
        j < usize::BITS,
        m < usize::BITS,
    ensures
        ((x | (1usize << j)) >> m) & 1 == if m == j { 1usize } else { (x >> m) & 1 },
        ((x & !(1usize << j)) >> m) & 1 == if m == j { 0usize } else { (x >> m) & 1 },
        (x & (1usize << j) != 0) == ((x >> j) & 1 == 1),
{
    assert(((x | (1usize << j)) >> m) & 1 == if m == j { 1usize } else { (x >> m) & 1 }) by (bit_vector)
        requires
            j < usize::BITS,
            m < usize::BITS,
    ;
    assert(((x & !(1usize << j)) >> m) & 1 == if m == j { 0usize } else { (x >> m) & 1 }) by (bit_vector)
        requires
            j < usize::BITS,
            m < usize::BITS,
    ;
    assert((x & (1usize << j) != 0) == ((x >> j) & 1 == 1)) by (bit_vector)
        requires
            j < usize::BITS,
    ;
}

proof fn lemma_zero_bits(m: usize)
    requires
        m < usize::BITS,
    ensures
        (0usize >> m) & 1 == 0,
{
    assert((0usize >> m) & 1 == 0) by (bit_vector);
}

proof fn lemma_div_mod(i: int, w: int)
    requires
        0 <= i,
        w > 0,
    ensures
        i == (i / w) * w + i % w,
        0 <= i % w < w,
{
    assert(i == (i / w) * w + i % w) by (nonlinear_arith)
        requires
            w > 0,
    ;
}


/// The indices of the bits set in chunk `c` from bit `b` on, counted from `base`.
pub open spec fn chunk_items(c: usize, base: int, b: int) -> Seq<int>
    decreases usize::BITS - b,
{
    if b < 0 || b >= usize::BITS {
        Seq::empty()
    } else {
        (if bit_of(c, b) { seq![base + b] } else { Seq::empty() }) + chunk_items(c, base, b + 1)
    }
}

/// The indices that iterating over the set bits of `chunks[k..]` yields when chunk `k` is
/// counted from `base`: the chunks are read as one contiguous array of bits, each chunk one
/// chunk width after the one before it.
pub open spec fn iter_items(chunks: Seq<usize>, k: int, base: int) -> Seq<int>
    decreases chunks.len() - k,
{
    if k < 0 || k >= chunks.len() {
        Seq::empty()
    } else {
        chunk_items(chunks[k], base, 0) + iter_items(chunks, k + 1, base + usize::BITS)
    }
}

pub open spec fn as_ints(s: Seq<usize>) -> Seq<int> {
    s.map_values(|x: usize| x as int)
}

/// A set of indices, as the bits of a sequence of chunks.
pub struct Bitvec(pub Vec<usize>);

impl Bitvec {
    pub open spec fn has(&self, i: int) -> bool {
        bit(self.0@, i)
    }

    /// The chunk and the bit within it of index `i`.
    pub fn offsets_of(i: usize) -> (r: [usize; 2])
        ensures
            r[0] == i / (usize::BITS as usize),
            r[1] == i % (usize::BITS as usize),
    {
        let w = usize::BITS as usize;
        [i / w, i % w]
    }

    /// Sets bit `i`.
    pub fn insert(&mut self, i: usize)
        requires
            i < old(self).0@.len() * usize::BITS,
        ensures
            final(self).0@.len() == old(self).0@.len(),
            forall|j: int| #[trigger] final(self).has(j) == (j == i || old(self).has(j)),
    {
        let w = usize::BITS as usize;
        let ghost wi = w as int;
        let offsets = Self::offsets_of(i);
        let o_of = offsets[0];
        let o_in = offsets[1];
        proof {
            lemma_div_mod(i as int, wi);
            assert(o_of < self.0@.len()) by (nonlinear_arith)
                requires
                    i < self.0@.len() * wi,
                    o_of as int == (i as int) / wi,
                    wi > 0,
            ;
        }
        let chunk = self.0[o_of];
        self.0.set(o_of, chunk | (1usize << o_in));
        proof {
            assert forall|j: int| #[trigger] self.has(j) == (j == i || old(self).has(j)) by {
                if 0 <= j < self.0@.len() * wi {
                    lemma_div_mod(j, wi);
                    lemma_set_bit(chunk, o_in, (j % wi) as usize);
                    if j / wi == o_of as int {
                        if j % wi == o_in as int {
                            assert(j == i);
                        } else {
                            assert(j != i);
                        }
                    } else {
                        assert(j != i);
                    }
                }
            }
        }
    }

    /// Clears bit `i`; tells whether it was set.
    pub fn remove(&mut self, i: usize) -> (r: bool)
        requires
            i < old(self).0@.len() * usize::BITS,
        ensures
            r == old(self).has(i as int),
            final(self).0@.len() == old(self).0@.len(),
            forall|j: int| #[trigger] final(self).has(j) == (j != i && old(self).has(j)),
    {
        let w = usize::BITS as usize;
        let ghost wi = w as int;
        let offsets = Self::offsets_of(i);
        let o_of = offsets[0];
        let o_in = offsets[1];
        proof {
            lemma_div_mod(i as int, wi);
            assert(o_of < self.0@.len()) by (nonlinear_arith)
                requires
                    i < self.0@.len() * wi,
                    o_of as int == (i as int) / wi,
                    wi > 0,
            ;
        }
        let chunk = self.0[o_of];
        let mask = 1usize << o_in;
        let was = (chunk & mask) != 0;
        self.0.set(o_of, chunk & !mask);
        proof {
            lemma_set_bit(chunk, o_in, o_in);
            assert forall|j: int| #[trigger] self.has(j) == (j != i && old(self).has(j)) by {
                if 0 <= j < self.0@.len() * wi {
                    lemma_div_mod(j, wi);
                    lemma_set_bit(chunk, o_in, (j % wi) as usize);
                    if j / wi == o_of as int {
                        if j % wi == o_in as int {
                            assert(j == i);
                        } else {
                            assert(j != i);
                        }
                    } else {
                        assert(j != i);
                    }
                }
            }
        }
        was
    }

    /// Whether bit `i` is set.
    pub fn contains(&self, i: usize) -> (r: bool)
        requires
            i < self.0@.len() * usize::BITS,
        ensures
            r == self.has(i as int),
    {
        let w = usize::BITS as usize;
        let ghost wi = w as int;
        let offsets = Self::offsets_of(i);
        let o_of = offsets[0];
        let o_in = offsets[1];
        proof {
            lemma_div_mod(i as int, wi);
            assert(o_of < self.0@.len()) by (nonlinear_arith)
                requires
                    i < self.0@.len() * wi,
                    o_of as int == (i as int) / wi,
                    wi > 0,
            ;
            lemma_set_bit(self.0@[o_of as int], o_in, o_in);
        }
        (self.0[o_of] & (1usize << o_in)) != 0
    }
}


impl Bitvec {
    /// The lowest index whose bit is set.
    pub fn first(&self) -> (r: Option<usize>)
        requires
            forall|j: int| #[trigger] self.has(j) ==> j <= usize::MAX,
        ensures
            r matches Some(i) ==> self.has(i as int) && forall|j: int| 0 <= j < i ==> !#[trigger] self.has(j),
            r is None ==> forall|j: int| !#[trigger] self.has(j),
    {
        let w = usize::BITS as usize;
        let ghost wi = w as int;
        let mut k: usize = 0;
        while k < self.0.len()
            invariant
                k <= self.0@.len(),
                forall|j: int| #[trigger] self.has(j) ==> j <= usize::MAX,
                w as int == wi,
                wi == usize::BITS,
                forall|j: int| 0 <= j < k * wi ==> !#[trigger] self.has(j),
            decreases self.0@.len() - k,
        {
            let chunk = self.0[k];
            let mut b: usize = 0;
            while b < w
                invariant
                    k < self.0@.len(),
                    chunk == self.0@[k as int],
                    b <= w,
                    forall|j: int| #[trigger] self.has(j) ==> j <= usize::MAX,
                    w as int == wi,
                    wi == usize::BITS,
                    forall|j: int| 0 <= j < k * wi + b ==> !#[trigger] self.has(j),
                decreases w - b,
            {
                proof {
                    lemma_set_bit(chunk, b, b);
                }
                if chunk & (1usize << b) != 0 {
                    proof {
                        let i = k * wi + b;
                        assert(i < self.0@.len() * wi) by (nonlinear_arith)
                            requires
                                k < self.0@.len(),
                                b < wi,
                                i == k * wi + b,
                        ;
                        assert(i / wi == k && i % wi == b) by (nonlinear_arith)
                            requires
                                i == k * wi + b,
                                0 <= b < wi,
                                wi > 0,
                        ;
                    }
                    assert(self.has(k * wi + b));
                    return Some(k * w + b);
                }
                proof {
                    let i = k * wi + b;
                    assert(i / wi == k && i % wi == b) by (nonlinear_arith)
                        requires
                            i == k * wi + b,
                            0 <= b < wi,
                            wi > 0,
                    ;
                }
                b += 1;
            }
            k += 1;
        }
        proof {
            assert forall|j: int| !#[trigger] self.has(j) by {
                if 0 <= j < self.0@.len() * wi {
                }
            }
        }
        None
    }
}


impl Bitvec {
    /// The indices the set bits are iterated as (see [`iter_items`]).
    pub fn iter(&self) -> (r: Vec<usize>)
        requires
            forall|i: int| 0 <= i < iter_items(self.0@, 0, 0).len() ==> #[trigger] iter_items(self.0@, 0, 0)[i] <= usize::MAX,
        ensures
            as_ints(r@) == iter_items(self.0@, 0, 0),
    {
        let ghost total = iter_items(self.0@, 0, 0);
        let w = usize::BITS as usize;
        let wl = usize::BITS as u128;
        let mut out: Vec<usize> = Vec::new();
        let mut base: u128 = 0;
        let mut k: usize = 0;
        assert(as_ints(out@) + total =~= total);
        while k < self.0.len()
            invariant
                k <= self.0@.len(),
                w as int == usize::BITS,
                wl as int == usize::BITS,
                total == iter_items(self.0@, 0, 0),
                forall|i: int| 0 <= i < total.len() ==> #[trigger] total[i] <= usize::MAX,
                base == wl * k,
                total == as_ints(out@) + iter_items(self.0@, k as int, base as int),
            decreases self.0@.len() - k,
        {
            let c = self.0[k];
            assert(wl <= 64);
            assert(base + wl <= u128::MAX) by (nonlinear_arith)
                requires
                    base == wl * k,
                    wl <= 64,
                    k <= usize::MAX,
                    usize::MAX <= u64::MAX,
            ;
            let next_base: u128 = base + wl;
            let ghost rest = iter_items(self.0@, k + 1, next_base as int);
            assert(iter_items(self.0@, k as int, base as int) == chunk_items(c, base as int, 0) + rest);
            assert(total =~= as_ints(out@) + chunk_items(c, base as int, 0) + rest);
            let mut b: usize = 0;
            while b < w
                invariant
                    k < self.0@.len(),
                    c == self.0@[k as int],
                    b <= w,
                    w as int == usize::BITS,
                    wl as int == usize::BITS,
                    base == wl * k,
                    forall|i: int| 0 <= i < total.len() ==> #[trigger] total[i] <= usize::MAX,
                    total == as_ints(out@) + chunk_items(c, base as int, b as int) + rest,
                decreases w - b,
            {
                let ghost tail = chunk_items(c, base as int, b + 1);
                if (c >> b) & 1 == 1 {
                    proof {
                        assert(chunk_items(c, base as int, b as int) == seq![base as int + b] + tail);
                        assert(total[out@.len() as int] == base as int + b) by {
                            assert(total =~= as_ints(out@) + (seq![base as int + b] + tail + rest));
                        }
                    }
                    let item = (base + b as u128) as usize;
                    let ghost before = out@;
                    out.push(item);
                    proof {
                        assert(as_ints(out@) =~= as_ints(before).push(base as int + b));
                        assert(total =~= as_ints(out@) + tail + rest);
                    }
                } else {
                    assert(chunk_items(c, base as int, b as int) =~= tail);
                }
                b += 1;
            }
            assert(chunk_items(c, base as int, w as int) =~= Seq::<int>::empty());
            assert(total =~= as_ints(out@) + rest);
            proof {
                assert(wl * k + wl == wl * (k + 1)) by (nonlinear_arith);
            }
            base = next_base;
            k += 1;
        }
        assert(iter_items(self.0@, k as int, base as int) =~= Seq::<int>::empty());
        assert(total =~= as_ints(out@));
        out
    }
}



impl Bitvec {
    /// Adds a chunk with no bit set.
    pub fn push_zero(&mut self)
        ensures
            final(self).0@.len() == old(self).0@.len() + 1,
            forall|j: int| #[trigger] final(self).has(j) == old(self).has(j),
    {
        let ghost n = self.0@.len();
        let ghost before = self.0@;
        self.0.push(0usize);
        proof {
            let wi = usize::BITS as int;
            assert forall|j: int| #[trigger] self.has(j) == old(self).has(j) by {
                if 0 <= j < self.0@.len() * wi {
                    lemma_div_mod(j, wi);
                    let q = j / wi;
                    if q == n {
                        lemma_zero_bits((j % wi) as usize);
                        assert(j >= n * wi) by (nonlinear_arith)
                            requires
                                j == q * wi + j % wi,
                                q == n,
                                j % wi >= 0,
                        ;
                    } else {
                        assert(q < n) by (nonlinear_arith)
                            requires
                                0 <= j < (n + 1) * wi,
                                q == j / wi,
                                q != n,
                                wi > 0,
                        ;
                        assert(j < n * wi) by (nonlinear_arith)
                            requires
                                j == q * wi + j % wi,
                                q < n,
                                j % wi < wi,
                        ;
                        assert(self.0@[q] == before[q]);
                    }
                }
            }
        }
    }
}

proof fn lemma_chunk_items_empty(c: usize, base: int, b: int)
    requires
        0 <= b <= usize::BITS,
    ensures
        (chunk_items(c, base, b).len() == 0) == (forall|m: int| b <= m < usize::BITS ==> !#[trigger] bit_of(c, m)),
    decreases usize::BITS - b,
{
    if b < usize::BITS {
        lemma_chunk_items_empty(c, base, b + 1);
    }
}

/// `s` rises strictly.
pub open spec fn rising(s: Seq<int>) -> bool {
    forall|i: int, j: int| 0 <= i < j < s.len() ==> s[i] < s[j]
}

proof fn lemma_concat_rising(a: Seq<int>, b: Seq<int>, lo: int, mid: int)
    requires
        rising(a),
        rising(b),
        lo <= mid,
        forall|i: int| 0 <= i < a.len() ==> lo <= #[trigger] a[i] < mid,
        forall|i: int| 0 <= i < b.len() ==> mid <= #[trigger] b[i],
    ensures
        rising(a + b),
        forall|i: int| 0 <= i < (a + b).len() ==> lo <= #[trigger] (a + b)[i],
        forall|x: int| (a + b).contains(x) <==> (a.contains(x) || b.contains(x)),
{
    assert forall|i: int, j: int| 0 <= i < j < (a + b).len() implies (a + b)[i] < (a + b)[j] by {
        if j < a.len() {
        } else if i < a.len() {
            assert(a[i] < mid && mid <= b[j - a.len()]);
        } else {
            assert(b[i - a.len()] < b[j - a.len()]);
        }
    }
    assert forall|i: int| 0 <= i < (a + b).len() implies lo <= #[trigger] (a + b)[i] by {
        if i < a.len() {
            assert(a[i] >= lo);
        } else {
            assert(b[i - a.len()] >= mid);
            if a.len() > 0 {
                assert(a[0] >= lo && a[0] < mid);
            }
        }
    }
    assert forall|x: int| (a + b).contains(x) <==> (a.contains(x) || b.contains(x)) by {
        if (a + b).contains(x) {
            let i = choose|i: int| 0 <= i < (a + b).len() && (a + b)[i] == x;
            if i < a.len() {
                assert(a[i] == x);
            } else {
                assert(b[i - a.len()] == x);
            }
        }
        if a.contains(x) {
            let i = choose|i: int| 0 <= i < a.len() && a[i] == x;
            assert((a + b)[i] == x);
        }
        if b.contains(x) {
            let i = choose|i: int| 0 <= i < b.len() && b[i] == x;
            assert((a + b)[a.len() + i] == x);
        }
    }
}

proof fn lemma_chunk_items_exact(c: usize, base: int, b: int)
    requires
        0 <= b <= usize::BITS,
    ensures
        rising(chunk_items(c, base, b)),
        forall|i: int| 0 <= i < chunk_items(c, base, b).len() ==> base + b <= #[trigger] chunk_items(c, base, b)[i] < base + usize::BITS,
        forall|x: int| chunk_items(c, base, b).contains(x) <==> (base + b <= x < base + usize::BITS && bit_of(c, x - base)),
    decreases usize::BITS - b,
{
    if b < usize::BITS {
        lemma_chunk_items_exact(c, base, b + 1);
        let head: Seq<int> = if bit_of(c, b) { seq![base + b] } else { Seq::empty() };
        let tail = chunk_items(c, base, b + 1);
        lemma_concat_rising(head, tail, base + b, base + b + 1);
        assert(chunk_items(c, base, b) == head + tail);
        assert forall|x: int| chunk_items(c, base, b).contains(x) <==> (base + b <= x < base + usize::BITS && bit_of(c, x - base)) by {
            if x == base + b && bit_of(c, b) {
                assert(head[0] == x);
                assert(head.contains(x));
            }
            if head.contains(x) {
                let i = choose|i: int| 0 <= i < head.len() && head[i] == x;
                assert(x == base + b);
            }
            if x == base + b {
                assert(!tail.contains(x)) by {
                    if tail.contains(x) {
                        let i = choose|i: int| 0 <= i < tail.len() && tail[i] == x;
                        assert(tail[i] >= base + b + 1);
                    }
                }
            }
        }
        assert forall|i: int| 0 <= i < chunk_items(c, base, b).len() implies base + b <= #[trigger] chunk_items(c, base, b)[i] < base + usize::BITS by {
            if i >= head.len() {
                assert(tail[i - head.len()] < base + usize::BITS);
            }
        }
    } else {
        assert(chunk_items(c, base, b) =~= Seq::<int>::empty());
    }
}

/// Iterating over the set bits of `chunks[k..]` (chunk `k` counted from `k` chunk widths)
/// yields exactly the indices of the set bits from `k` chunk widths on, rising.
proof fn lemma_iter_items_exact(chunks: Seq<usize>, k: int)
    requires
        0 <= k <= chunks.len(),
    ensures
        rising(iter_items(chunks, k, k * usize::BITS)),
        forall|i: int| 0 <= i < iter_items(chunks, k, k * usize::BITS).len() ==> k * usize::BITS <= #[trigger] iter_items(chunks, k, k * usize::BITS)[i],
        forall|x: int| iter_items(chunks, k, k * usize::BITS).contains(x) <==> (k * usize::BITS <= x && bit(chunks, x)),
    decreases chunks.len() - k,
{
    let w = usize::BITS as int;
    if k < chunks.len() {
        assert((k + 1) * w == k * w + w) by (nonlinear_arith);
        lemma_iter_items_exact(chunks, k + 1);
        lemma_chunk_items_exact(chunks[k], k * w, 0);
        let head = chunk_items(chunks[k], k * w, 0);
        let tail = iter_items(chunks, k + 1, (k + 1) * w);
        assert(iter_items(chunks, k, k * w) == head + tail);
        lemma_concat_rising(head, tail, k * w, (k + 1) * w);
        assert forall|x: int| iter_items(chunks, k, k * w).contains(x) <==> (k * w <= x && bit(chunks, x)) by {
            if k * w <= x < (k + 1) * w {
                vstd::arithmetic::div_mod::lemma_fundamental_div_mod_converse_div(x, w, k, x - k * w);
                vstd::arithmetic::div_mod::lemma_fundamental_div_mod_converse_mod(x, w, k, x - k * w);
                assert(x < chunks.len() * w) by (nonlinear_arith)
                    requires
                        x < (k + 1) * w,
                        k + 1 <= chunks.len(),
                        w > 0,
                ;
            }
        }
    } else {
        assert(iter_items(chunks, k, k * w) =~= Seq::<int>::empty());
        assert forall|x: int| k * w <= x implies !bit(chunks, x) by {
            assert(chunks.len() * w <= x);
        }
    }
}

proof fn lemma_iter_items_empty(chunks: Seq<usize>, k: int, base: int)
    requires
        0 <= k <= chunks.len(),
    ensures
        (iter_items(chunks, k, base).len() == 0) == (forall|j: int| k * usize::BITS <= j ==> !#[trigger] bit(chunks, j)),
    decreases chunks.len() - k,
{
    let wi = usize::BITS as int;
    if k < chunks.len() {
        lemma_iter_items_empty(chunks, k + 1, base + wi);
        lemma_chunk_items_empty(chunks[k], base, 0);
        if iter_items(chunks, k, base).len() == 0 {
            assert forall|j: int| k * wi <= j implies !#[trigger] bit(chunks, j) by {
                if bit(chunks, j) {
                    lemma_div_mod(j, wi);
                    if j < (k + 1) * wi {
                        assert(j / wi == k) by (nonlinear_arith)
                            requires
                                k * wi <= j < (k + 1) * wi,
                                wi > 0,
                        ;
                        assert(!bit_of(chunks[k], j % wi));
                    } else {
                        assert((k + 1) * wi == k * wi + wi) by (nonlinear_arith);
                    }
                }
            }
        } else {
            if chunk_items(chunks[k], base, 0).len() > 0 {
                let m = choose|m: int| 0 <= m < wi && #[trigger] bit_of(chunks[k], m);
                let j = k * wi + m;
                assert(j / wi == k && j % wi == m) by (nonlinear_arith)
                    requires
                        j == k * wi + m,
                        0 <= m < wi,
                        wi > 0,
                ;
                assert(j < chunks.len() * wi) by (nonlinear_arith)
                    requires
                        j == k * wi + m,
                        m < wi,
                        k + 1 <= chunks.len(),
                        wi > 0,
                ;
                assert(bit(chunks, j));
            } else {
                assert((k + 1) * wi == k * wi + wi) by (nonlinear_arith);
            }
        }
    } else {
        assert forall|j: int| k * wi <= j implies !#[trigger] bit(chunks, j) by {
        }
    }
}

/// The state of a slot of a [`VecStorage`].
pub enum Slot<T> {
    Vacant,
    Reserved,
    Occupied(T),
}

/// The first position at or after `i` of a vacant slot, or -1.
pub open spec fn lowest_vacant<T>(s: Seq<Slot<T>>, i: int) -> int
    decreases s.len() - i,
{
    if i < 0 || i >= s.len() {
        -1
    } else if s[i] is Vacant {
        i
    } else {
        lowest_vacant(s, i + 1)
    }
}

/// The slots without their trailing vacant ones.
pub open spec fn trim<T>(s: Seq<Slot<T>>) -> Seq<Slot<T>>
    decreases s.len(),
{
    if s.len() > 0 && s.last() is Vacant {
        trim(s.drop_last())
    } else {
        s
    }
}

/// The values in the occupied slots among the first `n`, in order.
pub open spec fn occupied<T>(s: Seq<Slot<T>>, n: int) -> Seq<T>
    decreases n,
{
    if n <= 0 || n > s.len() {
        Seq::empty()
    } else {
        occupied(s, n - 1) + match s[n - 1] {
            Slot::Occupied(t) => seq![t],
            _ => Seq::empty(),
        }
    }
}

/// The slots after a new one is taken for `slot`: the lowest vacant one, or a new one at
/// the end.
pub open spec fn taken<T>(s: Seq<Slot<T>>, slot: Slot<T>) -> Seq<Slot<T>> {
    let v = lowest_vacant(s, 0);
    if v >= 0 {
        s.update(v, slot)
    } else {
        s.push(slot)
    }
}

/// The position [`taken`] uses.
pub open spec fn taken_at<T>(s: Seq<Slot<T>>) -> int {
    let v = lowest_vacant(s, 0);
    if v >= 0 {
        v
    } else {
        s.len() as int
    }
}


proof fn lemma_lowest_vacant<T>(s: Seq<Slot<T>>, k: int, i: int)
    requires
        0 <= k <= i,
        forall|j: int| k <= j < i && j < s.len() ==> !(#[trigger] s[j] is Vacant),
        i < s.len() ==> s[i] is Vacant,
    ensures
        lowest_vacant(s, k) == if i < s.len() { i } else { -1 },
    decreases s.len() - k,
{
    if k < s.len() && k < i {
        lemma_lowest_vacant(s, k + 1, i);
    }
}


proof fn lemma_lowest_vacant_found<T>(s: Seq<Slot<T>>, k: int)
    requires
        0 <= k,
    ensures
        lowest_vacant(s, k) >= 0 ==> k <= lowest_vacant(s, k) < s.len() && s[lowest_vacant(s, k)] is Vacant,
        lowest_vacant(s, k) < 0 ==> lowest_vacant(s, k) == -1,
    decreases s.len() - k,
{
    if k < s.len() {
        lemma_lowest_vacant_found(s, k + 1);
    }
}


/// A slot taken for `slot` holds it; every other slot is as it was.
pub proof fn law_taken_slot<T>(s: Seq<Slot<T>>, slot: Slot<T>)
    ensures
        0 <= taken_at(s) <= s.len(),
        taken(s, slot).len() == if taken_at(s) < s.len() { s.len() } else { s.len() + 1 },
        taken(s, slot)[taken_at(s)] == slot,
        forall|j: int| 0 <= j < s.len() && j != taken_at(s) ==> #[trigger] taken(s, slot)[j] == s[j],
        taken_at(s) < s.len() ==> s[taken_at(s)] is Vacant,
{
    lemma_lowest_vacant_found(s, 0);
}

/// An arena of `T`s in slots, each vacant, reserved (its index handed out before its value
/// is given) or occupied. Vacant slots are reused, lowest first; trailing vacant slots are
/// dropped.
pub struct VecStorage<T> {
    data: Vec<Option<T>>,
    vacant: Bitvec,
    reserved: Bitvec,
}

impl<T> View for VecStorage<T> {
    type V = Seq<Slot<T>>;

    closed spec fn view(&self) -> Seq<Slot<T>> {
        Seq::new(self.data@.len(), |i: int|
            if self.vacant.has(i) {
                Slot::Vacant
            } else if self.reserved.has(i) {
                Slot::Reserved
            } else {
                Slot::Occupied(self.data@[i]->Some_0)
            })
    }
}

impl<T> Default for VecStorage<T> {
    fn default() -> (r: Self)
        ensures
            r.wf(),
            r@ == Seq::<Slot<T>>::empty(),
    {
        let r = VecStorage { data: Vec::new(), vacant: Bitvec(Vec::new()), reserved: Bitvec(Vec::new()) };
        assert(r@ =~= Seq::<Slot<T>>::empty());
        r
    }
}

impl<T> VecStorage<T> {
    pub closed spec fn wf(&self) -> bool {
        let n = self.data@.len();
        &&& self.vacant.0@.len() == self.reserved.0@.len()
        &&& n <= self.vacant.0@.len() * usize::BITS
        &&& forall|i: int| #[trigger] self.vacant.has(i) ==> 0 <= i < n && !self.reserved.has(i)
        &&& forall|i: int| #[trigger] self.reserved.has(i) ==> 0 <= i < n
        &&& forall|i: int| 0 <= i < n ==> ((#[trigger] self.data@[i]) is Some <==> (!self.vacant.has(i) && !self.reserved.has(i)))
        &&& n > 0 ==> !self.vacant.has(n - 1)
    }

    /// The indices [`iter_reserved`](Self::iter_reserved) yields (see [`iter_items`]).
    pub closed spec fn reserved_items(&self) -> Seq<int> {
        iter_items(self.reserved.0@, 0, 0)
    }

    /// Drops every value; the storage is empty afterwards.
    pub fn clear(&mut self)
        ensures
            final(self).wf(),
            final(self)@ == Seq::<Slot<T>>::empty(),
    {
        self.data.clear();
        self.vacant.0.clear();
        self.reserved.0.clear();
        assert(self@ =~= Seq::<Slot<T>>::empty());
    }

    /// The value in slot `i`, if it is occupied.
    pub fn get_occupied(&self, i: usize) -> (r: Option<&T>)
        requires
            self.wf(),
        ensures
            r == if i < self@.len() && self@[i as int] is Occupied {
                Some(&self@[i as int]->Occupied_0)
            } else {
                None::<&T>
            },
    {
        if i >= self.data.len() {
            None
        } else {
            match &self.data[i] {
                Some(t) => Some(t),
                None => None,
            }
        }
    }

    /// The value in slot `i`, if it is occupied, to change in place.
    pub fn get_occupied_mut(&mut self, i: usize) -> (r: Option<&mut T>)
        requires
            old(self).wf(),
        ensures
            i < old(self)@.len() && old(self)@[i as int] is Occupied ==> (r matches Some(t) && *t == old(self)@[i as int]->Occupied_0
                && final(self).wf() && final(self)@ == old(self)@.update(i as int, Slot::Occupied(*final(t)))),
            !(i < old(self)@.len() && old(self)@[i as int] is Occupied) ==> r is None && final(self)@ == old(self)@ && final(self).wf(),
    {
        if i >= self.data.len() {
            return None;
        }
        match &mut self.data[i] {
            Some(t) => Some(t),
            None => None,
        }
    }
}


impl<T> VecStorage<T> {
    /// Takes the lowest vacant slot, or a new slot at the end, leaving it with no value and
    /// neither vacant nor reserved.
    fn pop_vacant(&mut self) -> (r: usize)
        requires
            old(self).wf(),
        ensures
            r == taken_at(old(self)@),
            final(self).data@.len() == (if lowest_vacant(old(self)@, 0) >= 0 { old(self).data@.len() } else { old(self).data@.len() + 1 }),
            r < final(self).data@.len(),
            final(self).data@[r as int] is None,
            forall|j: int| 0 <= j < old(self).data@.len() && j != r ==> #[trigger] final(self).data@[j] == old(self).data@[j],
            forall|j: int| #[trigger] final(self).vacant.has(j) == (j != r && old(self).vacant.has(j)),
            forall|j: int| #[trigger] final(self).reserved.has(j) == old(self).reserved.has(j),
            final(self).vacant.0@.len() == final(self).reserved.0@.len(),
            final(self).data@.len() <= final(self).vacant.0@.len() * usize::BITS,
    {
        let n0 = self.data.len();
        proof {
            assert forall|j: int| #[trigger] self.vacant.has(j) implies j <= usize::MAX by {
                assert(j < n0);
            }
        }
        match self.vacant.first() {
            Some(i) => {
                proof {
                    lemma_lowest_vacant(self@, 0, i as int);
                }
                self.vacant.remove(i);
                i
            },
            None => {
                proof {
                    lemma_lowest_vacant(self@, 0, self@.len() as int);
                }
                let w = usize::BITS as usize;
                let n = self.data.len();
                let ghost c0 = self.vacant.0@.len() as int;
                if n % w == 0 {
                    self.vacant.push_zero();
                    self.reserved.push_zero();
                }
                proof {
                    let wi = usize::BITS as int;
                    let c = self.vacant.0@.len() as int;
                    let ni = n as int;
                    assert(ni + 1 <= c * wi) by (nonlinear_arith)
                        requires
                            ni <= c0 * wi,
                            ni % wi == 0 ==> c == c0 + 1,
                            ni % wi != 0 ==> c == c0,
                            wi > 0,
                    ;
                }
                self.data.push(None);
                n
            },
        }
    }

    /// Reserves a slot (the lowest vacant one, or a new one) and gives its index.
    pub fn new_reserved(&mut self) -> (r: usize)
        requires
            old(self).wf(),
        ensures
            final(self).wf(),
            r == taken_at(old(self)@),
            final(self)@ == taken(old(self)@, Slot::Reserved),
    {
        let i = self.pop_vacant();
        proof {
            lemma_lowest_vacant_found(old(self)@, 0);
        }
        self.reserved.insert(i);
        assert(self@ =~= taken(old(self)@, Slot::<T>::Reserved));
        i
    }

    /// Puts `t` in a slot (the lowest vacant one, or a new one) and gives its index.
    pub fn new_occupied(&mut self, t: T) -> (r: usize)
        requires
            old(self).wf(),
        ensures
            final(self).wf(),
            r == taken_at(old(self)@),
            final(self)@ == taken(old(self)@, Slot::Occupied(t)),
    {
        let i = self.pop_vacant();
        proof {
            lemma_lowest_vacant_found(old(self)@, 0);
            if lowest_vacant(old(self)@, 0) >= 0 {
                assert(old(self).vacant.has(i as int));
            }
            assert(!self.reserved.has(i as int));
        }
        self.data.set(i, Some(t));
        assert(self@ =~= taken(old(self)@, Slot::Occupied(t)));
        i
    }

    /// Puts `t` in the reserved slot `i`.
    pub fn occupy_reserved(&mut self, i: usize, t: T)
        requires
            old(self).wf(),
            i < old(self)@.len(),
            old(self)@[i as int] is Reserved,
        ensures
            final(self).wf(),
            final(self)@ == old(self)@.update(i as int, Slot::Occupied(t)),
    {
        let was = self.reserved.remove(i);
        if !was {
            vstd::pervasive::unreached::<()>();
        }
        self.data.set(i, Some(t));
        assert(self@ =~= old(self)@.update(i as int, Slot::Occupied(t)));
    }

    /// Empties slot `i`, giving back its value if it was occupied. A slot at the end is
    /// dropped, together with the vacant slots before it.
    pub fn vacate(&mut self, i: usize) -> (r: Option<T>)
        requires
            old(self).wf(),
        ensures
            final(self).wf(),
            i >= old(self)@.len() || old(self)@[i as int] is Vacant ==> r is None && final(self)@ == old(self)@,
            i < old(self)@.len() && !(old(self)@[i as int] is Vacant) ==> {
                &&& r == match old(self)@[i as int] {
                    Slot::Occupied(t) => Some(t),
                    _ => None::<T>,
                }
                &&& final(self)@ == if i + 1 == old(self)@.len() {
                    trim(old(self)@.take(i as int))
                } else {
                    old(self)@.update(i as int, Slot::Vacant)
                }
            },
    {
        if i >= self.data.len() || self.vacant.contains(i) {
            return None;
        }
        let ghost s0 = self@;
        let value = if self.reserved.remove(i) {
            None
        } else {
            let mut taken: Option<T> = None;
            std::mem::swap(&mut taken, &mut self.data[i]);
            taken
        };
        if i + 1 == self.data.len() {
            self.data.pop();
            proof {
                assert(self@ =~= s0.take(i as int));
            }
            while self.data.len() > 0
                invariant
                    self.vacant.0@.len() == self.reserved.0@.len(),
                    self.data@.len() <= i,
                    s0.len() == i + 1,
                    self.data@.len() <= self.vacant.0@.len() * usize::BITS,
                    forall|j: int| #[trigger] self.vacant.has(j) ==> 0 <= j < self.data@.len() && !self.reserved.has(j),
                    forall|j: int| #[trigger] self.reserved.has(j) ==> 0 <= j < self.data@.len(),
                    forall|j: int| 0 <= j < self.data@.len() ==> ((#[trigger] self.data@[j]) is Some <==> (!self.vacant.has(j) && !self.reserved.has(j))),
                    self@ == s0.take(self.data@.len() as int),
                    trim(s0.take(i as int)) == trim(self@),
                ensures
                    self.data@.len() > 0 ==> !self.vacant.has(self.data@.len() - 1),
                decreases self.data@.len(),
            {
                let last = self.data.len() - 1;
                let ghost before = self@;
                let ghost m = self.data@.len() as int;
                assert(before == s0.take(m));
                if !self.vacant.remove(last) {
                    assert(trim(before) == before);
                    break;
                }
                assert(before.last() is Vacant);
                assert(trim(before) == trim(before.drop_last()));
                self.data.pop();
                assert(self@ =~= before.drop_last());
                assert(s0.take(m).drop_last() =~= s0.take(m - 1));
            }
            proof {
                if self.data@.len() > 0 {
                    assert(!(self@.last() is Vacant));
                }
                assert(trim(self@) == self@);
            }
        } else {
            self.vacant.insert(i);
            assert(self@ =~= s0.update(i as int, Slot::Vacant));
        }
        value
    }
}


impl<T> VecStorage<T> {
    /// The values of the occupied slots, in order.
    pub fn iter(&self) -> (r: Vec<&T>)
        requires
            self.wf(),
        ensures
            r@.len() == occupied(self@, self@.len() as int).len(),
            forall|k: int| 0 <= k < r@.len() ==> *(#[trigger] r@[k]) == occupied(self@, self@.len() as int)[k],
    {
        let mut out: Vec<&T> = Vec::new();
        let mut i: usize = 0;
        while i < self.data.len()
            invariant
                self.wf(),
                i <= self.data@.len(),
                out@.len() == occupied(self@, i as int).len(),
                forall|k: int| 0 <= k < out@.len() ==> *(#[trigger] out@[k]) == occupied(self@, i as int)[k],
            decreases self.data@.len() - i,
        {
            let ghost before = out@;
            match &self.data[i] {
                Some(t) => {
                    out.push(t);
                    assert(self@[i as int] == Slot::Occupied(*t));
                },
                None => {
                    assert(!(self@[i as int] is Occupied));
                },
            }
            i += 1;
            assert forall|k: int| 0 <= k < out@.len() implies *(#[trigger] out@[k]) == occupied(self@, i as int)[k] by {
                if k < before.len() {
                    assert(out@[k] == before[k]);
                }
            }
        }
        out
    }

    /// The indices of the reserved slots, each once, in increasing order.
    pub fn iter_reserved(&self) -> (r: Vec<usize>)
        requires
            self.wf(),
        ensures
            as_ints(r@) == self.reserved_items(),
            rising(as_ints(r@)),
            forall|x: int| as_ints(r@).contains(x) <==> (0 <= x < self@.len() && self@[x] is Reserved),
    {
        let n = self.data.len();
        proof {
            self.lemma_reserved_items();
            assert forall|i: int| 0 <= i < iter_items(self.reserved.0@, 0, 0).len() implies #[trigger] iter_items(self.reserved.0@, 0, 0)[i] <= usize::MAX by {
                assert(self.reserved_items().contains(self.reserved_items()[i]));
                assert(self.reserved_items()[i] < n);
            }
        }
        self.reserved.iter()
    }

    /// The indices that [`iter_reserved`](Self::iter_reserved) yields are exactly the reserved
    /// slots, each once, in increasing order.
    pub proof fn law_iter_reserved(&self)
        requires
            self.wf(),
        ensures
            rising(self.reserved_items()),
            forall|x: int| self.reserved_items().contains(x) <==> (0 <= x < self@.len() && self@[x] is Reserved),
    {
        self.lemma_reserved_items();
    }

    proof fn lemma_reserved_items(&self)
        requires
            self.wf(),
        ensures
            rising(self.reserved_items()),
            forall|x: int| self.reserved_items().contains(x) <==> (0 <= x < self@.len() && self@[x] is Reserved),
            forall|x: int| self.reserved_items().contains(x) ==> 0 <= x < self.data@.len(),
    {
        let w = usize::BITS as int;
        assert(0 * w == 0);
        lemma_iter_items_exact(self.reserved.0@, 0);
        assert forall|x: int| self.reserved_items().contains(x) <==> (0 <= x < self@.len() && self@[x] is Reserved) by {
            if self.reserved.has(x) {
                assert(0 <= x < self.data@.len());
            }
        }
    }
}

} // verus!
