use vstd::prelude::*;
use crate::common::ChannelId;
use crate::predicate::{Predicate, cid_equal, cid_less, cid_lt, sorted_assignments};

verus! {

/// The assignments of a predicate, ordered by channel, for looking channels up.
pub struct Queryable(pub Vec<(ChannelId, bool)>);

impl Queryable {
    pub open spec fn wf(&self) -> bool {
        sorted_assignments(self.0@)
    }

    /// The assignments of `predicate`, in order.
    pub fn new(predicate: &Predicate) -> (r: Self)
        requires
            predicate.wf(),
        ensures
            r.wf(),
            r.0@ == predicate.entries(),
    {
        let copy = predicate.duplicate();
        let entries = copy.assignments();
        let mut v: Vec<(ChannelId, bool)> = Vec::new();
        let mut i: usize = 0;
        while i < entries.len()
            invariant
                entries@ == predicate.entries(),
                i <= entries@.len(),
                v@ == entries@.take(i as int),
            decreases entries@.len() - i,
        {
            v.push(entries[i]);
            i = i + 1;
            assert(v@ =~= entries@.take(i as int));
        }
        assert(v@ =~= entries@);
        Queryable(v)
    }

    /// Where `channel_id` is assigned: its position and its value.
    pub fn query(&self, channel_id: ChannelId) -> (r: Option<(usize, bool)>)
        requires
            self.wf(),
        ensures
            match r {
                Some((i, v)) => i < self.0@.len() && self.0@[i as int].0 == channel_id && self.0@[i as int].1 == v,
                None => forall|i: int| 0 <= i < self.0@.len() ==> (#[trigger] self.0@[i]).0 != channel_id,
            },
    {
        let mut lo: usize = 0;
        let mut hi: usize = self.0.len();
        while lo < hi
            invariant
                self.wf(),
                lo <= hi <= self.0@.len(),
                forall|i: int| 0 <= i < lo ==> cid_lt((#[trigger] self.0@[i]).0, channel_id),
                forall|i: int| hi <= i < self.0@.len() ==> cid_lt(channel_id, (#[trigger] self.0@[i]).0),
            decreases hi - lo,
        {
            let mid = lo + (hi - lo) / 2;
            let entry = self.0[mid];
            if cid_equal(&entry.0, &channel_id) {
                return Some((mid, entry.1));
            } else if cid_less(&entry.0, &channel_id) {
                proof {
                    assert forall|i: int| 0 <= i < mid + 1 implies cid_lt((#[trigger] self.0@[i]).0, channel_id) by {
                        if i < mid {
                            assert(cid_lt(self.0@[i].0, self.0@[mid as int].0));
                        }
                    }
                }
                lo = mid + 1;
            } else {
                proof {
                    assert forall|i: int| mid <= i < self.0@.len() implies cid_lt(channel_id, (#[trigger] self.0@[i]).0) by {
                        if i > mid {
                            assert(cid_lt(self.0@[mid as int].0, self.0@[i].0));
                        }
                    }
                }
                hi = mid;
            }
        }
        proof {
            assert forall|i: int| 0 <= i < self.0@.len() implies (#[trigger] self.0@[i]).0 != channel_id by {
                if i < lo {
                    assert(cid_lt(self.0@[i].0, channel_id));
                } else {
                    assert(cid_lt(channel_id, self.0@[i].0));
                }
            }
        }
        None
    }
}

/// A set of positions into a `Queryable`: the first `prefix_end` entries of `buf`; the
/// rest of `buf` holds the positions taken out, most recent first.
pub struct QueryableSubset {
    pub buf: Vec<usize>,
    pub prefix_end: usize,
}

impl QueryableSubset {
    /// All positions of `q`, in order.
    pub fn new(q: &Queryable) -> (r: Self)
        ensures
            r.prefix_end == q.0@.len(),
            r.buf@.len() == q.0@.len(),
            forall|i: int| 0 <= i < r.buf@.len() ==> r.buf@[i] == i,
    {
        let prefix_end = q.0.len();
        let mut buf: Vec<usize> = Vec::new();
        let mut i: usize = 0;
        while i < prefix_end
            invariant
                i <= prefix_end,
                buf@.len() == i,
                forall|j: int| 0 <= j < i ==> buf@[j] == j,
            decreases prefix_end - i,
        {
            buf.push(i);
            i = i + 1;
        }
        QueryableSubset { buf, prefix_end }
    }

    /// Takes the position held at `at` out of the set.
    pub fn remove(&mut self, at: usize)
        requires
            old(self).prefix_end > 0,
            old(self).prefix_end <= old(self).buf@.len(),
            at < old(self).buf@.len(),
        ensures
            final(self).prefix_end == old(self).prefix_end - 1,
            final(self).buf@ == old(self).buf@.update(final(self).prefix_end as int, old(self).buf@[at as int]).update(
                at as int,
                old(self).buf@[final(self).prefix_end as int],
            ),
    {
        self.prefix_end = self.prefix_end - 1;
        let a = self.buf[self.prefix_end];
        let b = self.buf[at];
        self.buf.set(self.prefix_end, b);
        self.buf.set(at, a);
    }

    /// Puts back the position that `remove(at)` took out last.
    pub fn undo_remove(&mut self, at: usize)
        requires
            old(self).prefix_end < old(self).buf.len(),
            at < old(self).buf@.len(),
        ensures
            final(self).prefix_end == old(self).prefix_end + 1,
            final(self).buf@ == old(self).buf@.update(old(self).prefix_end as int, old(self).buf@[at as int]).update(
                at as int,
                old(self).buf@[old(self).prefix_end as int],
            ),
    {
        let a = self.buf[self.prefix_end];
        let b = self.buf[at];
        self.buf.set(self.prefix_end, b);
        self.buf.set(at, a);
        self.prefix_end = self.prefix_end + 1;
    }

    /// The entries of `q` at the positions in the set, in the order of `buf`.
    pub fn iter_q(&self, q: &Queryable) -> (r: Vec<(ChannelId, bool)>)
        requires
            self.prefix_end <= self.buf@.len(),
            forall|i: int| 0 <= i < self.prefix_end ==> #[trigger] self.buf@[i] < q.0@.len(),
        ensures
            r@.len() == self.prefix_end,
            forall|i: int| 0 <= i < self.prefix_end ==> #[trigger] r@[i] == q.0@[self.buf@[i] as int],
    {
        let mut v: Vec<(ChannelId, bool)> = Vec::new();
        let mut i: usize = 0;
        while i < self.prefix_end
            invariant
                self.prefix_end <= self.buf@.len(),
                forall|j: int| 0 <= j < self.prefix_end ==> #[trigger] self.buf@[j] < q.0@.len(),
                i <= self.prefix_end,
                v@.len() == i,
                forall|j: int| 0 <= j < i ==> #[trigger] v@[j] == q.0@[self.buf@[j] as int],
            decreases self.prefix_end - i,
        {
            v.push(q.0[self.buf[i]]);
            i = i + 1;
        }
        v
    }
}

/// Putting back what was just taken out restores the set exactly.
pub proof fn law_undo_remove(buf: Seq<usize>, prefix_end: nat, at: int)
    requires
        0 < prefix_end <= buf.len(),
        0 <= at < buf.len(),
    ensures
        ({
            let p = (prefix_end - 1) as int;
            let removed = buf.update(p, buf[at]).update(at, buf[p]);
            removed.update(p, removed[at]).update(at, removed[p]) == buf
        }),
{
    let p = (prefix_end - 1) as int;
    let removed = buf.update(p, buf[at]).update(at, buf[p]);
    assert(removed.update(p, removed[at]).update(at, removed[p]) =~= buf);
}

} // verus!
