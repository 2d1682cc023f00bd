use vstd::prelude::*;
use crate::common::{ChannelId, ChannelIndex, ControllerId};

verus! {

/// Strict lexicographic order on channel identifiers: by controller, then by index.
pub open spec fn cid_lt(a: ChannelId, b: ChannelId) -> bool {
    ||| a.controller_id < b.controller_id
    ||| (a.controller_id == b.controller_id && a.channel_index < b.channel_index)
}

/// Assignments ordered strictly increasingly by channel, so no channel occurs twice.
pub open spec fn sorted_assignments(s: Seq<(ChannelId, bool)>) -> bool {
    forall|i: int, j: int| 0 <= i < j < s.len() ==> cid_lt(#[trigger] s[i].0, #[trigger] s[j].0)
}

/// Whether channel `c` is assigned in `s`.
pub open spec fn assigns(s: Seq<(ChannelId, bool)>, c: ChannelId) -> bool {
    exists|i: int| 0 <= i < s.len() && (#[trigger] s[i]).0 == c
}

/// The value assigned to `c` in `s` (meaningful when `assigns(s, c)`).
pub open spec fn assigned_value(s: Seq<(ChannelId, bool)>, c: ChannelId) -> bool {
    s[choose|i: int| 0 <= i < s.len() && (#[trigger] s[i]).0 == c].1
}

/// The partial assignment described by `s`, as a map.
pub open spec fn assignment_map(s: Seq<(ChannelId, bool)>) -> Map<ChannelId, bool> {
    Map::new(|c: ChannelId| assigns(s, c), |c: ChannelId| assigned_value(s, c))
}

/// `a` and `b` agree on every channel that both assign.
pub open spec fn consistent(a: Map<ChannelId, bool>, b: Map<ChannelId, bool>) -> bool {
    forall|c: ChannelId| a.contains_key(c) && b.contains_key(c) ==> a[c] == b[c]
}

/// `a` satisfies `b`: every assignment of `b` is also made by `a`.
pub open spec fn satisfies_map(a: Map<ChannelId, bool>, b: Map<ChannelId, bool>) -> bool {
    forall|c: ChannelId| #[trigger] b.contains_key(c) ==> a.contains_key(c) && a[c] == b[c]
}

/// `a` assigns some channel that `b` leaves free.
pub open spec fn assigns_beyond(a: Map<ChannelId, bool>, b: Map<ChannelId, bool>) -> bool {
    exists|c: ChannelId| a.contains_key(c) && !b.contains_key(c)
}

pub proof fn lemma_assignment_at(s: Seq<(ChannelId, bool)>, i: int)
    requires
        sorted_assignments(s),
        0 <= i < s.len(),
    ensures
        assignment_map(s).contains_key(s[i].0),
        assignment_map(s)[s[i].0] == s[i].1,
{
    assert(assigns(s, s[i].0));
    let j = choose|j: int| 0 <= j < s.len() && (#[trigger] s[j]).0 == s[i].0;
    if j < i {
        assert(cid_lt(s[j].0, s[i].0));
    } else if i < j {
        assert(cid_lt(s[i].0, s[j].0));
    }
}

pub fn cid_less(a: &ChannelId, b: &ChannelId) -> (r: bool)
    ensures
        r == cid_lt(*a, *b),
{
    a.controller_id < b.controller_id || (a.controller_id == b.controller_id && a.channel_index
        < b.channel_index)
}

pub fn cid_equal(a: &ChannelId, b: &ChannelId) -> (r: bool)
    ensures
        r == (*a == *b),
{
    a.controller_id == b.controller_id && a.channel_index == b.channel_index
}


/// Every predicate satisfies itself.
pub proof fn law_satisfies_reflexive(a: Map<ChannelId, bool>)
    ensures
        satisfies_map(a, a),
{
}

/// Satisfaction is transitive.
pub proof fn law_satisfies_transitive(a: Map<ChannelId, bool>, b: Map<ChannelId, bool>, c: Map<ChannelId, bool>)
    requires
        satisfies_map(a, b),
        satisfies_map(b, c),
    ensures
        satisfies_map(a, c),
{
    assert forall|k: ChannelId| #[trigger] c.contains_key(k) implies a.contains_key(k) && a[k] == c[k] by {
        assert(b.contains_key(k));
    }
}

/// `a` satisfies `b` exactly when their common satisfier is `Equivalent` or `FormerNotLatter`,
/// i.e. when they are consistent and `b` assigns nothing that `a` leaves free.
pub proof fn law_satisfies_is_common_satisfier_former(a: Map<ChannelId, bool>, b: Map<ChannelId, bool>)
    ensures
        satisfies_map(a, b) <==> consistent(a, b) && !assigns_beyond(b, a),
{
    if consistent(a, b) && !assigns_beyond(b, a) {
        assert forall|k: ChannelId| #[trigger] b.contains_key(k) implies a.contains_key(k) && a[k] == b[k] by {
        }
    }
}

/// When two predicates are consistent, their union satisfies both of them, and it is the most
/// general such predicate: every predicate that satisfies both also satisfies the union.
pub proof fn law_common_satisfier_most_general(a: Map<ChannelId, bool>, b: Map<ChannelId, bool>, n: Map<ChannelId, bool>)
    requires
        consistent(a, b),
    ensures
        satisfies_map(a.union_prefer_right(b), a),
        satisfies_map(a.union_prefer_right(b), b),
        satisfies_map(n, a) && satisfies_map(n, b) ==> satisfies_map(n, a.union_prefer_right(b)),
{
    let u = a.union_prefer_right(b);
    assert forall|k: ChannelId| #[trigger] a.contains_key(k) implies u.contains_key(k) && u[k] == a[k] by {
    }
    if satisfies_map(n, a) && satisfies_map(n, b) {
        assert forall|k: ChannelId| #[trigger] u.contains_key(k) implies n.contains_key(k) && n[k] == u[k] by {
            if b.contains_key(k) {
                assert(n.contains_key(k));
            } else {
                assert(a.contains_key(k));
            }
        }
    }
}

/// When two predicates disagree on some channel, no predicate satisfies both.
pub proof fn law_inconsistent_unsatisfiable(a: Map<ChannelId, bool>, b: Map<ChannelId, bool>, n: Map<ChannelId, bool>)
    requires
        !consistent(a, b),
    ensures
        !(satisfies_map(n, a) && satisfies_map(n, b)),
{
    let c = choose|c: ChannelId| !(a.contains_key(c) && b.contains_key(c) ==> a[c] == b[c]);
    if satisfies_map(n, a) && satisfies_map(n, b) {
        assert(a.contains_key(c));
        assert(b.contains_key(c));
    }
}

/// After assigning `v` to `c`, querying `c` gives back `v`, and other channels are unaffected.
pub proof fn law_query_after_assignment(m: Map<ChannelId, bool>, c: ChannelId, v: bool, d: ChannelId)
    ensures
        m.insert(c, v).contains_key(c) && m.insert(c, v)[c] == v,
        d != c ==> (m.insert(c, v).contains_key(d) == m.contains_key(d)),
        d != c && m.contains_key(d) ==> m.insert(c, v)[d] == m[d],
{
}

/// A source of fresh channel identifiers for one controller.
#[derive(Debug)]
pub struct ChannelIdStream {
    pub controller_id: ControllerId,
    pub next_channel_index: ChannelIndex,
}

impl ChannelIdStream {
    pub fn new(controller_id: ControllerId) -> (s: Self)
        ensures
            s.controller_id == controller_id,
            s.next_channel_index == 0,
    {
        ChannelIdStream { controller_id, next_channel_index: 0 }
    }

    /// The next fresh identifier: this controller's, with the next channel index.
    pub fn next(&mut self) -> (c: ChannelId)
        requires
            old(self).next_channel_index < u32::MAX,
        ensures
            c == (ChannelId { controller_id: old(self).controller_id, channel_index: old(self).next_channel_index }),
            final(self).controller_id == old(self).controller_id,
            final(self).next_channel_index == old(self).next_channel_index + 1,
    {
        self.next_channel_index += 1;
        ChannelId { controller_id: self.controller_id, channel_index: self.next_channel_index - 1 }
    }
}

/// The outcome of looking for the most general predicate that satisfies two given ones.
#[derive(Debug, PartialEq, Eq)]
pub enum CommonSatResult {
    FormerNotLatter,
    LatterNotFormer,
    Equivalent,
    New(Predicate),
    Nonexistant,
}

/// A partial assignment of booleans to channels.
#[derive(Debug, Clone, PartialEq, Eq, Hash)]
pub struct Predicate {
    assigned: Vec<(ChannelId, bool)>,
}

impl View for Predicate {
    type V = Map<ChannelId, bool>;

    open spec fn view(&self) -> Map<ChannelId, bool> {
        assignment_map(self.entries())
    }
}

impl Predicate {
    pub closed spec fn entries(&self) -> Seq<(ChannelId, bool)> {
        self.assigned@
    }

    /// A predicate holds no more assignments than a `Vec` can.
    pub proof fn lemma_entries_len(&self)
        ensures
            self.entries().len() <= usize::MAX,
    {
        assert(self.assigned.len() <= usize::MAX);
    }

    pub open spec fn wf(&self) -> bool {
        sorted_assignments(self.entries())
    }

    /// The predicate that assigns nothing.
    pub fn new_trivial() -> (p: Predicate)
        ensures
            p.wf(),
            p@ == Map::<ChannelId, bool>::empty(),
    {
        let p = Predicate { assigned: Vec::new() };
        assert(p@ =~= Map::<ChannelId, bool>::empty());
        p
    }


    /// A copy of this predicate.
    pub fn duplicate(&self) -> (r: Predicate)
        ensures
            r.entries() == self.entries(),
    {
        let mut v: Vec<(ChannelId, bool)> = Vec::new();
        let mut i: usize = 0;
        while i < self.assigned.len()
            invariant
                i <= self.assigned.len(),
                v@ == self.entries().take(i as int),
            decreases self.assigned.len() - i,
        {
            v.push(self.assigned[i]);
            i += 1;
            assert(v@ =~= self.entries().take(i as int));
        }
        assert(v@ =~= self.entries());
        Predicate { assigned: v }
    }

    /// The assignments of this predicate, ordered by channel.
    pub fn assignments(&self) -> (r: &Vec<(ChannelId, bool)>)
        ensures
            r@ == self.entries(),
    {
        &self.assigned
    }

    /// The value assigned to channel `x`, if any.
    pub fn query(&self, x: ChannelId) -> (r: Option<bool>)
        requires
            self.wf(),
        ensures
            r == (if self@.contains_key(x) { Some(self@[x]) } else { None }),
    {
        let mut i: usize = 0;
        while i < self.assigned.len()
            invariant
                self.wf(),
                i <= self.assigned.len(),
                forall|k: int| 0 <= k < i ==> (#[trigger] self.entries()[k]).0 != x,
            decreases self.assigned.len() - i,
        {
            if cid_equal(&self.assigned[i].0, &x) {
                proof {
                    lemma_assignment_at(self.entries(), i as int);
                }
                return Some(self.assigned[i].1);
            }
            i += 1;
        }
        None
    }


    /// Assigns `value` to `channel_id`, returning the value it had before, if any.
    pub fn replace_assignment(&mut self, channel_id: ChannelId, value: bool) -> (r: Option<bool>)
        requires
            old(self).wf(),
        ensures
            final(self).wf(),
            final(self)@ == old(self)@.insert(channel_id, value),
            r == (if old(self)@.contains_key(channel_id) {
                Some(old(self)@[channel_id])
            } else {
                None
            }),
    {
        let ghost s0 = self.entries();
        let mut i: usize = 0;
        while i < self.assigned.len() && cid_less(&self.assigned[i].0, &channel_id)
            invariant
                self.wf(),
                self.entries() == s0,
                i <= self.assigned.len(),
                forall|k: int| 0 <= k < i ==> cid_lt(#[trigger] s0[k].0, channel_id),
            decreases self.assigned.len() - i,
        {
            i += 1;
        }
        if i < self.assigned.len() && cid_equal(&self.assigned[i].0, &channel_id) {
            let was = self.assigned[i].1;
            proof {
                lemma_assignment_at(s0, i as int);
            }
            self.assigned.set(i, (channel_id, value));
            proof {
                let s1 = self.entries();
                assert(s1 == s0.update(i as int, (channel_id, value)));
                assert(sorted_assignments(s1)) by {
                    assert forall|a: int, b: int| 0 <= a < b < s1.len() implies cid_lt(
                        #[trigger] s1[a].0,
                        #[trigger] s1[b].0,
                    ) by {
                        assert(cid_lt(s0[a].0, s0[b].0));
                    }
                }
                assert forall|c: ChannelId| #[trigger] assignment_map(s1).contains_key(c) <==> old(self)@.insert(channel_id, value).contains_key(c) by {
                    if assigns(s1, c) {
                        let k = choose|k: int| 0 <= k < s1.len() && (#[trigger] s1[k]).0 == c;
                        if k != i {
                            assert(s0[k].0 == c);
                        }
                    }
                    if assigns(s0, c) && c != channel_id {
                        let k = choose|k: int| 0 <= k < s0.len() && (#[trigger] s0[k]).0 == c;
                        assert(s1[k].0 == c);
                    }
                    assert(s1[i as int].0 == channel_id);
                }
                assert forall|c: ChannelId| #[trigger] assignment_map(s1).contains_key(c) implies assignment_map(s1)[c] == old(self)@.insert(channel_id, value)[c] by {
                    let k = choose|k: int| 0 <= k < s1.len() && (#[trigger] s1[k]).0 == c;
                    lemma_assignment_at(s1, k);
                    if k != i {
                        lemma_assignment_at(s0, k);
                    }
                }
                assert(self@ =~= old(self)@.insert(channel_id, value));
            }
            Some(was)
        } else {
            proof {
                assert(!old(self)@.contains_key(channel_id)) by {
                    if assigns(s0, channel_id) {
                        let k = choose|k: int| 0 <= k < s0.len() && (#[trigger] s0[k]).0 == channel_id;
                        if k < i {
                            assert(cid_lt(s0[k].0, channel_id));
                        } else if k > i {
                            assert(cid_lt(s0[i as int].0, s0[k].0));
                        }
                    }
                }
            }
            self.assigned.insert(i, (channel_id, value));
            proof {
                let s1 = self.entries();
                assert(s1 == s0.insert(i as int, (channel_id, value)));
                assert(sorted_assignments(s1)) by {
                    assert forall|a: int, b: int| 0 <= a < b < s1.len() implies cid_lt(
                        #[trigger] s1[a].0,
                        #[trigger] s1[b].0,
                    ) by {
                        if b < i {
                            assert(cid_lt(s0[a].0, s0[b].0));
                        } else if b == i {
                            assert(cid_lt(s0[a].0, channel_id));
                        } else if a < i {
                            assert(cid_lt(s0[a].0, s0[b - 1].0));
                        } else if a == i {
                            assert(s0[b - 1].0 != channel_id);
                            if b - 1 > i {
                                assert(cid_lt(s0[i as int].0, s0[b - 1].0));
                            }
                        } else {
                            assert(cid_lt(s0[a - 1].0, s0[b - 1].0));
                        }
                    }
                }
                assert forall|c: ChannelId| #[trigger] assignment_map(s1).contains_key(c) <==> old(self)@.insert(channel_id, value).contains_key(c) by {
                    if assigns(s1, c) {
                        let k = choose|k: int| 0 <= k < s1.len() && (#[trigger] s1[k]).0 == c;
                        if k < i {
                            assert(s0[k].0 == c);
                        } else if k > i {
                            assert(s0[k - 1].0 == c);
                        }
                    }
                    if assigns(s0, c) {
                        let k = choose|k: int| 0 <= k < s0.len() && (#[trigger] s0[k]).0 == c;
                        if k < i {
                            assert(s1[k].0 == c);
                        } else {
                            assert(s1[k + 1].0 == c);
                        }
                    }
                    assert(s1[i as int].0 == channel_id);
                }
                assert forall|c: ChannelId| #[trigger] assignment_map(s1).contains_key(c) implies assignment_map(s1)[c] == old(self)@.insert(channel_id, value)[c] by {
                    let k = choose|k: int| 0 <= k < s1.len() && (#[trigger] s1[k]).0 == c;
                    lemma_assignment_at(s1, k);
                    if k < i {
                        lemma_assignment_at(s0, k);
                    } else if k > i {
                        lemma_assignment_at(s0, k - 1);
                    }
                }
                assert(self@ =~= old(self)@.insert(channel_id, value));
            }
            None
        }
    }


    /// Returns the most general predicate `n` such that `n` satisfies both `self` and `other`.
    /// If none exists, `Nonexistant` is returned. If that predicate is equivalent to `self`,
    /// `other`, or both, `FormerNotLatter`, `LatterNotFormer` and `Equivalent` are returned
    /// respectively; otherwise `New(n)` is returned.
    pub fn common_satisfier(&self, other: &Self) -> (r: CommonSatResult)
        requires
            self.wf(),
            other.wf(),
        ensures
            r == CommonSatResult::Nonexistant <==> !consistent(self@, other@),
            r == CommonSatResult::Equivalent <==> consistent(self@, other@) && !assigns_beyond(
                self@,
                other@,
            ) && !assigns_beyond(other@, self@),
            r == CommonSatResult::FormerNotLatter <==> consistent(self@, other@) && assigns_beyond(
                self@,
                other@,
            ) && !assigns_beyond(other@, self@),
            r == CommonSatResult::LatterNotFormer <==> consistent(self@, other@) && !assigns_beyond(
                self@,
                other@,
            ) && assigns_beyond(other@, self@),
            r is New <==> consistent(self@, other@) && assigns_beyond(self@, other@)
                && assigns_beyond(other@, self@),
            r matches CommonSatResult::New(n) ==> n.wf() && n@ == self@.union_prefer_right(other@),
    {
        let s = &self.assigned;
        let o = &other.assigned;
        let ghost sm = self@;
        let ghost om = other@;
        let mut i: usize = 0;
        let mut j: usize = 0;
        // assignments in self but not other and vice versa.
        let mut s_not_o: Vec<(ChannelId, bool)> = Vec::new();
        let mut o_not_s: Vec<(ChannelId, bool)> = Vec::new();
        while i < s.len() || j < o.len()
            invariant
                self.wf(),
                other.wf(),
                s@ == self.entries(),
                o@ == other.entries(),
                sm == self@,
                om == other@,
                i <= s.len(),
                j <= o.len(),
                forall|k: int, l: int|
                    0 <= k < i && j <= l < o@.len() ==> cid_lt(#[trigger] s@[k].0, #[trigger] o@[l].0),
                forall|k: int, l: int|
                    0 <= l < j && i <= k < s@.len() ==> cid_lt(#[trigger] o@[l].0, #[trigger] s@[k].0),
                forall|k: int| 0 <= k < i && om.contains_key(#[trigger] s@[k].0) ==> om[s@[k].0] == s@[k].1,
                s_not_o@.len() == 0 ==> forall|k: int| 0 <= k < i ==> om.contains_key(#[trigger] s@[k].0),
                s_not_o@.len() > 0 ==> assigns_beyond(sm, om),
                forall|m: int| 0 <= m < o_not_s@.len() ==> !sm.contains_key((#[trigger] o_not_s@[m]).0)
                    && om.contains_key(o_not_s@[m].0) && om[o_not_s@[m].0] == o_not_s@[m].1,
                forall|l: int| 0 <= l < j && !sm.contains_key(#[trigger] o@[l].0) ==> exists|m: int|
                    0 <= m < o_not_s@.len() && #[trigger] o_not_s@[m] == o@[l],
                forall|l: int| 0 <= l < j && sm.contains_key(#[trigger] o@[l].0) ==> sm[o@[l].0] == o@[l].1,
                o_not_s@.len() == 0 ==> forall|l: int| 0 <= l < j ==> sm.contains_key(#[trigger] o@[l].0),
            decreases s.len() - i + o.len() - j,
        {
            if j == o.len() || (i < s.len() && cid_less(&s[i].0, &o[j].0)) {
                // other is missing this assignment
                proof {
                    lemma_assignment_at(self.entries(), i as int);
                    assert(!om.contains_key(s@[i as int].0)) by {
                        if assigns(o@, s@[i as int].0) {
                            let l = choose|l: int| 0 <= l < o@.len() && (#[trigger] o@[l]).0 == s@[i as int].0;
                            if l < j {
                                assert(cid_lt(o@[l].0, s@[i as int].0));
                            } else if l > j {
                                assert(cid_lt(o@[j as int].0, o@[l].0));
                            }
                        }
                    }
                }
                s_not_o.push(s[i]);
                proof {
                    assert forall|k: int, l: int|
                        0 <= l < j && i + 1 <= k < s@.len() implies cid_lt(#[trigger] o@[l].0, #[trigger] s@[k].0) by {
                    }
                    assert forall|k: int, l: int|
                        0 <= k < i + 1 && j <= l < o@.len() implies cid_lt(#[trigger] s@[k].0, #[trigger] o@[l].0) by {
                        if k == i && l > j {
                            assert(cid_lt(o@[j as int].0, o@[l].0));
                        }
                    }
                }
                i += 1;
            } else if i == s.len() || cid_less(&o[j].0, &s[i].0) {
                // self is missing this assignment
                proof {
                    lemma_assignment_at(other.entries(), j as int);
                    assert(!sm.contains_key(o@[j as int].0)) by {
                        if assigns(s@, o@[j as int].0) {
                            let k = choose|k: int| 0 <= k < s@.len() && (#[trigger] s@[k]).0 == o@[j as int].0;
                            if k < i {
                                assert(cid_lt(s@[k].0, o@[j as int].0));
                            } else if k > i {
                                assert(cid_lt(s@[i as int].0, s@[k].0));
                            }
                        }
                    }
                }
                let ghost prev = o_not_s@;
                o_not_s.push(o[j]);
                proof {
                    let m = o_not_s@.len() - 1;
                    assert(o_not_s@[m] == o@[j as int]);
                    assert forall|l: int| 0 <= l < j + 1 && !sm.contains_key(#[trigger] o@[l].0) implies exists|m: int|
                        0 <= m < o_not_s@.len() && #[trigger] o_not_s@[m] == o@[l] by {
                        if l < j {
                            let m0 = choose|m0: int| 0 <= m0 < prev.len() && #[trigger] prev[m0] == o@[l];
                            assert(o_not_s@[m0] == o@[l]);
                        } else {
                            assert(o_not_s@[m] == o@[l]);
                        }
                    }
                    assert forall|k: int, l: int|
                        0 <= l < j + 1 && i <= k < s@.len() implies cid_lt(#[trigger] o@[l].0, #[trigger] s@[k].0) by {
                        if l == j && k > i {
                            assert(cid_lt(s@[i as int].0, s@[k].0));
                        }
                    }
                }
                j += 1;
            } else if s[i].1 != o[j].1 {
                // both predicates assign the variable but differ on the value
                proof {
                    assert(s@[i as int].0 == o@[j as int].0);
                    lemma_assignment_at(self.entries(), i as int);
                    lemma_assignment_at(other.entries(), j as int);
                }
                return CommonSatResult::Nonexistant;
            } else {
                // both predicates assign the variable to the same value
                proof {
                    assert(s@[i as int].0 == o@[j as int].0);
                    lemma_assignment_at(self.entries(), i as int);
                    lemma_assignment_at(other.entries(), j as int);
                    assert forall|k: int, l: int|
                        0 <= k < i + 1 && j + 1 <= l < o@.len() implies cid_lt(#[trigger] s@[k].0, #[trigger] o@[l].0) by {
                        assert(cid_lt(o@[j as int].0, o@[l].0));
                    }
                    assert forall|k: int, l: int|
                        0 <= l < j + 1 && i + 1 <= k < s@.len() implies cid_lt(#[trigger] o@[l].0, #[trigger] s@[k].0) by {
                        assert(cid_lt(s@[i as int].0, s@[k].0));
                    }
                }
                i += 1;
                j += 1;
            }
        }
        // Observed zero inconsistencies. A unified predicate exists...
        proof {
            assert(consistent(sm, om)) by {
                assert forall|c: ChannelId| sm.contains_key(c) && om.contains_key(c) implies sm[c] == om[c] by {
                    let k = choose|k: int| 0 <= k < s@.len() && (#[trigger] s@[k]).0 == c;
                    lemma_assignment_at(self.entries(), k);
                }
            }
            if s_not_o@.len() == 0 {
                assert(!assigns_beyond(sm, om)) by {
                    assert forall|c: ChannelId| sm.contains_key(c) implies om.contains_key(c) by {
                        let k = choose|k: int| 0 <= k < s@.len() && (#[trigger] s@[k]).0 == c;
                    }
                }
            }
            if o_not_s@.len() == 0 {
                assert(!assigns_beyond(om, sm)) by {
                    assert forall|c: ChannelId| om.contains_key(c) implies sm.contains_key(c) by {
                        let l = choose|l: int| 0 <= l < o@.len() && (#[trigger] o@[l]).0 == c;
                    }
                }
            } else {
                assert(!sm.contains_key(o_not_s@[0].0));
            }
        }
        if s_not_o.len() == 0 && o_not_s.len() == 0 {
            CommonSatResult::Equivalent
        } else if o_not_s.len() == 0 {
            CommonSatResult::FormerNotLatter
        } else if s_not_o.len() == 0 {
            CommonSatResult::LatterNotFormer
        } else {
            // ... which is the union of the predicates' assignments but
            //     is equivalent to neither self nor other.
            let mut new = self.duplicate();
            let mut m: usize = 0;
            while m < o_not_s.len()
                invariant
                    new.wf(),
                    m <= o_not_s.len(),
                    forall|mm: int| 0 <= mm < o_not_s@.len() ==> !sm.contains_key((#[trigger] o_not_s@[mm]).0)
                        && om.contains_key(o_not_s@[mm].0) && om[o_not_s@[mm].0] == o_not_s@[mm].1,
                    forall|c: ChannelId| #[trigger] new@.contains_key(c) <==> sm.contains_key(c) || exists|mm: int|
                        0 <= mm < m && (#[trigger] o_not_s@[mm]).0 == c,
                    forall|c: ChannelId| #[trigger] new@.contains_key(c) ==> new@[c] == (if sm.contains_key(c) { sm[c] } else { om[c] }),
                decreases o_not_s.len() - m,
            {
                let (id, b) = o_not_s[m];
                new.replace_assignment(id, b);
                proof {
                    assert forall|c: ChannelId| #[trigger] new@.contains_key(c) <==> sm.contains_key(c) || exists|mm: int|
                        0 <= mm < m + 1 && (#[trigger] o_not_s@[mm]).0 == c by {
                        if c == id {
                            assert(o_not_s@[m as int].0 == c);
                        }
                    }
                }
                m += 1;
            }
            proof {
                assert(new.entries() =~= new.entries());
                assert forall|c: ChannelId| #[trigger] new@.contains_key(c) <==> sm.union_prefer_right(om).contains_key(c) by {
                    if om.contains_key(c) && !sm.contains_key(c) {
                        let l = choose|l: int| 0 <= l < o@.len() && (#[trigger] o@[l]).0 == c;
                        let mm = choose|mm: int| 0 <= mm < o_not_s@.len() && #[trigger] o_not_s@[mm] == o@[l];
                        assert(o_not_s@[mm].0 == c);
                    }
                }
                assert(new@ =~= sm.union_prefer_right(om));
            }
            CommonSatResult::New(new)
        }
    }


    /// The channels that this predicate assigns `value`, in increasing order.
    pub fn iter_matching(&self, value: bool) -> (r: Vec<ChannelId>)
        requires
            self.wf(),
        ensures
            forall|i: int, j: int| 0 <= i < j < r@.len() ==> cid_lt(#[trigger] r@[i], #[trigger] r@[j]),
            forall|c: ChannelId| r@.contains(c) <==> self@.contains_key(c) && self@[c] == value,
    {
        let mut r: Vec<ChannelId> = Vec::new();
        let mut i: usize = 0;
        while i < self.assigned.len()
            invariant
                self.wf(),
                i <= self.assigned.len(),
                forall|a: int, b: int| 0 <= a < b < r@.len() ==> cid_lt(#[trigger] r@[a], #[trigger] r@[b]),
                forall|a: int, k: int| 0 <= a < r@.len() && i <= k < self.entries().len() ==> cid_lt(#[trigger] r@[a], #[trigger] self.entries()[k].0),
                forall|c: ChannelId| r@.contains(c) <==> exists|k: int| 0 <= k < i && (#[trigger] self.entries()[k]).0 == c && self.entries()[k].1 == value,
            decreases self.assigned.len() - i,
        {
            let (c, b) = self.assigned[i];
            let ghost prev = r@;
            if b == value {
                r.push(c);
                proof {
                    assert forall|cc: ChannelId| r@.contains(cc) <==> exists|k: int| 0 <= k < i + 1 && (#[trigger] self.entries()[k]).0 == cc && self.entries()[k].1 == value by {
                        if r@.contains(cc) {
                            let a = choose|a: int| 0 <= a < r@.len() && r@[a] == cc;
                            if a < prev.len() {
                                assert(prev.contains(cc));
                            }
                        }
                        if exists|k: int| 0 <= k < i + 1 && (#[trigger] self.entries()[k]).0 == cc && self.entries()[k].1 == value {
                            let k = choose|k: int| 0 <= k < i + 1 && (#[trigger] self.entries()[k]).0 == cc && self.entries()[k].1 == value;
                            if k < i {
                                assert(prev.contains(cc));
                                let a = choose|a: int| 0 <= a < prev.len() && prev[a] == cc;
                                assert(r@[a] == cc);
                            } else {
                                assert(r@[prev.len() as int] == cc);
                            }
                        }
                    }
                    assert forall|a: int, k: int| 0 <= a < r@.len() && i + 1 <= k < self.entries().len() implies cid_lt(#[trigger] r@[a], #[trigger] self.entries()[k].0) by {
                        if a < prev.len() {
                            assert(cid_lt(prev[a], self.entries()[k].0));
                        } else {
                            assert(cid_lt(self.entries()[i as int].0, self.entries()[k].0));
                        }
                    }
                }
            } else {
                proof {
                    assert forall|cc: ChannelId| r@.contains(cc) <==> exists|k: int| 0 <= k < i + 1 && (#[trigger] self.entries()[k]).0 == cc && self.entries()[k].1 == value by {
                        if exists|k: int| 0 <= k < i + 1 && (#[trigger] self.entries()[k]).0 == cc && self.entries()[k].1 == value {
                            let k = choose|k: int| 0 <= k < i + 1 && (#[trigger] self.entries()[k]).0 == cc && self.entries()[k].1 == value;
                            assert(k < i);
                        }
                    }
                }
            }
            i += 1;
        }
        proof {
            assert forall|c: ChannelId| r@.contains(c) <==> self@.contains_key(c) && self@[c] == value by {
                if r@.contains(c) {
                    let k = choose|k: int| 0 <= k < i && (#[trigger] self.entries()[k]).0 == c && self.entries()[k].1 == value;
                    lemma_assignment_at(self.entries(), k);
                }
                if self@.contains_key(c) && self@[c] == value {
                    let k = choose|k: int| 0 <= k < self.entries().len() && (#[trigger] self.entries()[k]).0 == c;
                    lemma_assignment_at(self.entries(), k);
                }
            }
        }
        r
    }

    /// Assigns `value` to each of `channel_ids` that this predicate leaves free.
    pub fn batch_assign_nones(&mut self, channel_ids: &Vec<ChannelId>, value: bool)
        requires
            old(self).wf(),
        ensures
            final(self).wf(),
            forall|c: ChannelId| #[trigger] final(self)@.contains_key(c) <==> old(self)@.contains_key(c) || channel_ids@.contains(c),
            forall|c: ChannelId| #[trigger] final(self)@.contains_key(c) ==> final(self)@[c] == (if old(self)@.contains_key(c) { old(self)@[c] } else { value }),
    {
        let ghost m0 = self@;
        let mut i: usize = 0;
        while i < channel_ids.len()
            invariant
                self.wf(),
                i <= channel_ids.len(),
                m0 == old(self)@,
                forall|c: ChannelId| #[trigger] self@.contains_key(c) <==> m0.contains_key(c) || channel_ids@.take(i as int).contains(c),
                forall|c: ChannelId| #[trigger] self@.contains_key(c) ==> self@[c] == (if m0.contains_key(c) { m0[c] } else { value }),
            decreases channel_ids.len() - i,
        {
            let c = channel_ids[i];
            if self.query(c).is_none() {
                self.replace_assignment(c, value);
            }
            proof {
                assert forall|cc: ChannelId| #[trigger] self@.contains_key(cc) <==> m0.contains_key(cc) || channel_ids@.take(i + 1).contains(cc) by {
                    assert(channel_ids@.take(i + 1)[i as int] == c);
                    if channel_ids@.take(i + 1).contains(cc) && cc != c {
                        let a = choose|a: int| 0 <= a < i + 1 && #[trigger] channel_ids@.take(i + 1)[a] == cc;
                        assert(channel_ids@.take(i as int)[a] == cc);
                    }
                    if channel_ids@.take(i as int).contains(cc) {
                        let a = choose|a: int| 0 <= a < i && #[trigger] channel_ids@.take(i as int)[a] == cc;
                        assert(channel_ids@.take(i + 1)[a] == cc);
                    }
                }
            }
            i += 1;
        }
        assert(channel_ids@.take(i as int) =~= channel_ids@);
    }

    /// The union of the assignments of both predicates, or `None` if they disagree on some channel.
    pub fn union_with(&self, other: &Self) -> (r: Option<Self>)
        requires
            self.wf(),
            other.wf(),
        ensures
            r is None <==> !consistent(self@, other@),
            r matches Some(u) ==> u.wf() && u@ == self@.union_prefer_right(other@),
    {
        let mut res = self.duplicate();
        let ghost sm = self@;
        let ghost om = other@;
        let o = &other.assigned;
        let mut j: usize = 0;
        while j < o.len()
            invariant
                res.wf(),
                other.wf(),
                o@ == other.entries(),
                sm == self@,
                om == other@,
                j <= o.len(),
                forall|c: ChannelId| #[trigger] res@.contains_key(c) <==> sm.contains_key(c) || exists|l: int| 0 <= l < j && (#[trigger] o@[l]).0 == c,
                forall|c: ChannelId| #[trigger] res@.contains_key(c) ==> res@[c] == (if sm.contains_key(c) { sm[c] } else { om[c] }),
                forall|l: int| 0 <= l < j && sm.contains_key(#[trigger] o@[l].0) ==> sm[o@[l].0] == o@[l].1,
            decreases o.len() - j,
        {
            let (id, a1) = o[j];
            proof {
                lemma_assignment_at(other.entries(), j as int);
                if !sm.contains_key(id) && res@.contains_key(id) {
                    let l = choose|l: int| 0 <= l < j && (#[trigger] o@[l]).0 == id;
                    assert(cid_lt(o@[l].0, o@[j as int].0));
                }
            }
            match res.replace_assignment(id, a1) {
                Some(a2) => {
                    if a1 != a2 {
                        return None;
                    }
                },
                None => {},
            }
            proof {
                assert forall|c: ChannelId| #[trigger] res@.contains_key(c) <==> sm.contains_key(c) || exists|l: int| 0 <= l < j + 1 && (#[trigger] o@[l]).0 == c by {
                    if c == id {
                        assert(o@[j as int].0 == c);
                    }
                }
            }
            j += 1;
        }
        proof {
            assert forall|c: ChannelId| sm.contains_key(c) && om.contains_key(c) implies sm[c] == om[c] by {
                let l = choose|l: int| 0 <= l < o@.len() && (#[trigger] o@[l]).0 == c;
                lemma_assignment_at(other.entries(), l);
            }
            assert forall|c: ChannelId| #[trigger] res@.contains_key(c) <==> sm.union_prefer_right(om).contains_key(c) by {
                if om.contains_key(c) {
                    let l = choose|l: int| 0 <= l < o@.len() && (#[trigger] o@[l]).0 == c;
                }
            }
            assert(res@ =~= sm.union_prefer_right(om));
        }
        Some(res)
    }

    /// Returns true iff every assignment made by `other` is also made by `self`
    /// (i.e. iff `common_satisfier` would return `Equivalent` or `FormerNotLatter`).
    pub fn satisfies(&self, other: &Self) -> (r: bool)
        requires
            self.wf(),
            other.wf(),
        ensures
            r == satisfies_map(self@, other@),
    {
        let s = &self.assigned;
        let o = &other.assigned;
        if s.len() == 0 {
            if o.len() != 0 {
                proof {
                    lemma_assignment_at(other.entries(), 0);
                }
            }
            return o.len() == 0;
        }
        let mut si: usize = 0;
        let mut oj: usize = 0;
        while oj < o.len()
            invariant
                self.wf(),
                other.wf(),
                s@ == self.entries(),
                o@ == other.entries(),
                si < s.len(),
                oj <= o.len(),
                oj < o.len() ==> forall|k: int| 0 <= k < si ==> cid_lt(#[trigger] s@[k].0, o@[oj as int].0),
                forall|k: int|
                    0 <= k < oj ==> self@.contains_key(#[trigger] o@[k].0) && self@[o@[k].0] == o@[k].1,
            decreases o.len() - oj, s.len() - si,
        {
            let oid = o[oj].0;
            let ob = o[oj].1;
            if cid_less(&s[si].0, &oid) {
                if si + 1 == s.len() {
                    proof {
                        lemma_assignment_at(other.entries(), oj as int);
                        assert(!self@.contains_key(oid)) by {
                            if self@.contains_key(oid) {
                                let k = choose|k: int| 0 <= k < s@.len() && (#[trigger] s@[k]).0 == oid;
                                if k < si {
                                    assert(cid_lt(s@[k].0, oid));
                                } else if k > si {
                                    assert(cid_lt(s@[si as int].0, s@[k].0));
                                }
                            }
                        }
                    }
                    return false;
                }
                si += 1;
                proof {
                    assert forall|k: int| 0 <= k < si implies cid_lt(#[trigger] s@[k].0, o@[oj as int].0) by {
                        if k < si - 1 {
                        }
                    }
                }
            } else {
                if !cid_equal(&s[si].0, &oid) || s[si].1 != ob {
                    proof {
                        lemma_assignment_at(other.entries(), oj as int);
                        if s@[si as int].0 == oid {
                            lemma_assignment_at(self.entries(), si as int);
                        } else {
                            assert(!self@.contains_key(oid)) by {
                                if self@.contains_key(oid) {
                                    let k = choose|k: int| 0 <= k < s@.len() && (#[trigger] s@[k]).0 == oid;
                                    if k < si {
                                        assert(cid_lt(s@[k].0, oid));
                                    } else if k > si {
                                        assert(cid_lt(s@[si as int].0, s@[k].0));
                                    }
                                }
                            }
                        }
                    }
                    return false;
                }
                proof {
                    lemma_assignment_at(self.entries(), si as int);
                    if oj + 1 < o.len() {
                        assert(cid_lt(o@[oj as int].0, o@[oj + 1].0));
                        assert forall|k: int| 0 <= k < si implies cid_lt(#[trigger] s@[k].0, o@[oj + 1].0) by {
                            assert(cid_lt(s@[k].0, o@[oj as int].0));
                        }
                    }
                }
                oj += 1;
            }
        }
        proof {
            assert forall|c: ChannelId| #[trigger] other@.contains_key(c) implies self@.contains_key(c)
                && self@[c] == other@[c] by {
                let k = choose|k: int| 0 <= k < o@.len() && (#[trigger] o@[k]).0 == c;
                lemma_assignment_at(other.entries(), k);
            }
        }
        true
    }
}

} // verus!
