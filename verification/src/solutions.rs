use vstd::prelude::*;
use crate::common::{ChannelId, Key};
use crate::predicate::{Predicate, consistent, satisfies_map};

verus! {

/// Identifies a part of the tree of components that proposes solutions for a round.
#[derive(Debug, Copy, Clone, Eq, PartialEq, Ord, PartialOrd, Hash, Structural)]
pub enum SubtreeId {
    PolyN,
    PolyP { index: usize },
    ChildController { port: Key },
}

/// The maps of the predicates in `v`, as a set.
pub open spec fn pred_set(v: Seq<Predicate>) -> Set<Map<ChannelId, bool>> {
    Set::new(|m: Map<ChannelId, bool>| exists|i: int| 0 <= i < v.len() && (#[trigger] v[i])@ == m)
}

/// Every predicate in `v` is well formed, and no two have the same map.
pub open spec fn pred_vec_wf(v: Seq<Predicate>) -> bool {
    &&& forall|i: int| 0 <= i < v.len() ==> (#[trigger] v[i]).wf()
    &&& forall|i: int, j: int| 0 <= i < j < v.len() ==> (#[trigger] v[i])@ != (#[trigger] v[j])@
}

/// `m` results from `partial` by joining it, in turn, with one consistent predicate of each
/// set of `sets`.
pub open spec fn is_combo(m: Map<ChannelId, bool>, partial: Map<ChannelId, bool>, sets: Seq<Set<Map<ChannelId, bool>>>) -> bool
    decreases sets.len(),
{
    if sets.len() == 0 {
        m == partial
    } else {
        exists|p: Map<ChannelId, bool>|
            #![trigger sets[0].contains(p)]
            sets[0].contains(p) && consistent(p, partial) && is_combo(m, p.union_prefer_right(partial), sets.drop_first())
    }
}

/// The sets of `sols` at positions `k` and after, leaving out position `skip`.
pub open spec fn rest_sets(sols: Seq<Set<Map<ChannelId, bool>>>, skip: int, k: int) -> Seq<Set<Map<ChannelId, bool>>>
    decreases sols.len() - k,
{
    if k < 0 || k >= sols.len() {
        Seq::empty()
    } else if k == skip {
        rest_sets(sols, skip, k + 1)
    } else {
        seq![sols[k]].add(rest_sets(sols, skip, k + 1))
    }
}

/// Whether two predicates assign the same channels the same values.
pub fn same_predicate(a: &Predicate, b: &Predicate) -> (r: bool)
    requires
        a.wf(),
        b.wf(),
    ensures
        r == (a@ == b@),
{
    let r = a.satisfies(b) && b.satisfies(a);
    proof {
        if satisfies_map(a@, b@) && satisfies_map(b@, a@) {
            assert(a@ =~= b@);
        }
    }
    r
}

/// Whether some predicate of `v` has the map of `p`.
fn holds(v: &Vec<Predicate>, p: &Predicate) -> (r: bool)
    requires
        pred_vec_wf(v@),
        p.wf(),
    ensures
        r == pred_set(v@).contains(p@),
{
    let mut i: usize = 0;
    while i < v.len()
        invariant
            i <= v@.len(),
            pred_vec_wf(v@),
            p.wf(),
            forall|j: int| 0 <= j < i ==> (#[trigger] v@[j])@ != p@,
        decreases v@.len() - i,
    {
        if same_predicate(&v[i], p) {
            assert(v@[i as int]@ == p@);
            return true;
        }
        i = i + 1;
    }
    false
}

/// Adds `p` to `v` unless a predicate with its map is there already; tells whether it
/// was added.
fn insert_predicate(v: &mut Vec<Predicate>, p: Predicate) -> (r: bool)
    requires
        pred_vec_wf(old(v)@),
        p.wf(),
    ensures
        pred_vec_wf(final(v)@),
        r == !pred_set(old(v)@).contains(p@),
        pred_set(final(v)@) == pred_set(old(v)@).insert(p@),
        !r ==> final(v)@ == old(v)@,
        r ==> final(v)@ == old(v)@.push(p),
{
    if holds(v, &p) {
        assert(pred_set(v@).insert(p@) =~= pred_set(v@));
        false
    } else {
        let ghost pm = p@;
        v.push(p);
        proof {
            assert(pred_set(v@) =~= pred_set(old(v)@).insert(pm)) by {
                assert forall|m: Map<ChannelId, bool>| pred_set(v@).contains(m) implies pred_set(old(v)@).insert(pm).contains(m) by {
                    let i = choose|i: int| 0 <= i < v@.len() && (#[trigger] v@[i])@ == m;
                    if i < old(v)@.len() {
                        assert(old(v)@[i] == v@[i]);
                    }
                }
                assert forall|m: Map<ChannelId, bool>| pred_set(old(v)@).insert(pm).contains(m) implies pred_set(v@).contains(m) by {
                    if m == pm {
                        assert(v@[old(v)@.len() as int]@ == m);
                    } else {
                        let i = choose|i: int| 0 <= i < old(v)@.len() && (#[trigger] old(v)@[i])@ == m;
                        assert(v@[i] == old(v)@[i]);
                    }
                }
            }
            assert forall|i: int, j: int| 0 <= i < j < v@.len() implies (#[trigger] v@[i])@ != (#[trigger] v@[j])@ by {
                if j == old(v)@.len() {
                    assert(old(v)@[i] == v@[i]);
                    assert(pred_set(old(v)@).contains(v@[i]@));
                } else {
                    assert(old(v)@[i] == v@[i] && old(v)@[j] == v@[j]);
                }
            }
        }
        true
    }
}

/// The maps of each of the vectors of predicates in `sols`.
pub open spec fn sol_sets(sols: Seq<Vec<Predicate>>) -> Seq<Set<Map<ChannelId, bool>>> {
    Seq::new(sols.len(), |i: int| pred_set(sols[i]@))
}

/// The local solutions that `partial` adds: its combinations with one predicate of each
/// of `sets`, leaving out those in `old`.
pub open spec fn fresh_combos(
    partial: Map<ChannelId, bool>,
    sets: Seq<Set<Map<ChannelId, bool>>>,
    old: Set<Map<ChannelId, bool>>,
) -> Set<Map<ChannelId, bool>> {
    Set::new(|m: Map<ChannelId, bool>| is_combo(m, partial, sets) && !old.contains(m))
}

/// The last position of `id` in `ids`, or -1 where it does not occur.
pub open spec fn last_position(ids: Seq<SubtreeId>, id: SubtreeId) -> int
    decreases ids.len(),
{
    if ids.len() == 0 {
        -1
    } else if ids.last() == id {
        ids.len() - 1
    } else {
        last_position(ids.drop_last(), id)
    }
}

proof fn lemma_last_position(ids: Seq<SubtreeId>, id: SubtreeId)
    ensures
        -1 <= last_position(ids, id) < ids.len(),
        last_position(ids, id) >= 0 ==> ids[last_position(ids, id)] == id,
        (exists|i: int| 0 <= i < ids.len() && ids[i] == id) ==> last_position(ids, id) >= 0,
    decreases ids.len(),
{
    if ids.len() > 0 && ids.last() != id {
        lemma_last_position(ids.drop_last(), id);
        if exists|i: int| 0 <= i < ids.len() && ids[i] == id {
            let i = choose|i: int| 0 <= i < ids.len() && ids[i] == id;
            assert(ids.drop_last()[i] == id);
        }
    }
}

proof fn lemma_rest_sets_update(sets: Seq<Set<Map<ChannelId, bool>>>, skip: int, k: int, x: Set<Map<ChannelId, bool>>)
    requires
        0 <= skip < sets.len(),
    ensures
        rest_sets(sets.update(skip, x), skip, k) == rest_sets(sets, skip, k),
    decreases sets.len() - k,
{
    if 0 <= k < sets.len() {
        lemma_rest_sets_update(sets, skip, k + 1, x);
    }
}

/// `m` satisfies some predicate of `s`.
pub open spec fn satisfies_some(m: Map<ChannelId, bool>, s: Set<Map<ChannelId, bool>>) -> bool {
    exists|p: Map<ChannelId, bool>| s.contains(p) && satisfies_map(m, p)
}

/// A local solution joins the predicate it started from with one predicate of each set,
/// so it satisfies each of them: it is a common satisfier of all of them.
pub proof fn law_combo_satisfies_all(m: Map<ChannelId, bool>, partial: Map<ChannelId, bool>, sets: Seq<Set<Map<ChannelId, bool>>>)
    requires
        is_combo(m, partial, sets),
    ensures
        satisfies_map(m, partial),
        forall|k: int| 0 <= k < sets.len() ==> #[trigger] satisfies_some(m, sets[k]),
    decreases sets.len(),
{
    if sets.len() > 0 {
        let p = choose|p: Map<ChannelId, bool>| #![trigger sets[0].contains(p)] sets[0].contains(p) && consistent(p, partial) && is_combo(m, p.union_prefer_right(partial), sets.drop_first());
        let u = p.union_prefer_right(partial);
        law_combo_satisfies_all(m, u, sets.drop_first());
        crate::predicate::law_common_satisfier_most_general(p, partial, m);
        crate::predicate::law_satisfies_transitive(m, u, partial);
        crate::predicate::law_satisfies_transitive(m, u, p);
        assert forall|k: int| 0 <= k < sets.len() implies #[trigger] satisfies_some(m, sets[k]) by {
            if k == 0 {
                assert(sets[k].contains(p));
                assert(satisfies_map(m, p));
            } else {
                assert(sets.drop_first()[k - 1] == sets[k]);
                assert(satisfies_some(m, sets.drop_first()[k - 1]));
            }
        }
    }
}

/// The last position of `id` in `ids`, which holds it.
fn find_subtree(ids: &Vec<SubtreeId>, id: SubtreeId) -> (r: usize)
    requires
        exists|i: int| 0 <= i < ids@.len() && ids@[i] == id,
    ensures
        r == last_position(ids@, id),
        r < ids@.len(),
{
    proof {
        lemma_last_position(ids@, id);
    }
    let mut index = ids.len();
    proof {
        assert(ids@.take(index as int) =~= ids@);
    }
    while index > 0 && ids[index - 1] != id
        invariant
            index <= ids@.len(),
            last_position(ids@, id) >= 0,
            last_position(ids@, id) == last_position(ids@.take(index as int), id),
        decreases index,
    {
        proof {
            assert(ids@.take(index - 1) =~= ids@.take(index as int).drop_last());
        }
        index = index - 1;
    }
    proof {
        if index == 0 {
            assert(ids@.take(0) =~= Seq::<SubtreeId>::empty());
        } else {
            assert(ids@.take(index as int).last() == id);
        }
    }
    index - 1
}

/// Adds to `new_local` every combination of `partial` with one predicate of each vector of
/// `sols` at positions `k` and after (except `skip`) that `old_local` does not hold.
fn elaborate_into_new_local_rec(
    partial: Predicate,
    sols: &Vec<Vec<Predicate>>,
    skip: usize,
    k: usize,
    old_local: &Vec<Predicate>,
    new_local: &mut Vec<Predicate>,
)
    requires
        partial.wf(),
        k <= sols@.len(),
        skip < sols@.len(),
        forall|i: int| 0 <= i < sols@.len() ==> pred_vec_wf(#[trigger] sols@[i]@),
        pred_vec_wf(old_local@),
        pred_vec_wf(old(new_local)@),
    ensures
        pred_vec_wf(final(new_local)@),
        pred_set(final(new_local)@) == pred_set(old(new_local)@).union(
            fresh_combos(partial@, rest_sets(sol_sets(sols@), skip as int, k as int), pred_set(old_local@)),
        ),
    decreases sols@.len() - k,
{
    let ghost sets = sol_sets(sols@);
    let ghost old_set = pred_set(old_local@);
    let n = sols.len();
    let mut j = k;
    if j == skip {
        j = j + 1;
    }
    proof {
        assert(rest_sets(sets, skip as int, k as int) == rest_sets(sets, skip as int, j as int));
    }
    if j < n {
        let ghost rest = rest_sets(sets, skip as int, j + 1);
        proof {
            assert(rest_sets(sets, skip as int, j as int) == seq![sets[j as int]].add(rest));
            assert(seq![sets[j as int]].add(rest).drop_first() =~= rest);
        }
        let set = &sols[j];
        let ghost new0 = pred_set(new_local@);
        let mut i: usize = 0;
        while i < set.len()
            invariant
                partial.wf(),
                k <= j,
                j < n,
                n == sols@.len(),
                skip < n,
                set@ == sols@[j as int]@,
                sets == sol_sets(sols@),
                rest == rest_sets(sets, skip as int, j + 1),
                old_set == pred_set(old_local@),
                forall|ii: int| 0 <= ii < sols@.len() ==> pred_vec_wf(#[trigger] sols@[ii]@),
                pred_vec_wf(old_local@),
                pred_vec_wf(new_local@),
                i <= set@.len(),
                pred_set(new_local@) == new0.union(Set::new(|m: Map<ChannelId, bool>|
                    exists|ii: int| 0 <= ii < i && consistent(#[trigger] set@[ii]@, partial@)
                        && is_combo(m, set@[ii]@.union_prefer_right(partial@), rest) && !old_set.contains(m))),
            decreases set@.len() - i,
        {
            let ghost before = pred_set(new_local@);
            match set[i].union_with(&partial) {
                Some(elaborated) => {
                    elaborate_into_new_local_rec(elaborated, sols, skip, j + 1, old_local, new_local);
                },
                None => {},
            }
            i = i + 1;
            proof {
                assert(pred_set(new_local@) =~= new0.union(Set::new(|m: Map<ChannelId, bool>|
                    exists|ii: int| 0 <= ii < i && consistent(#[trigger] set@[ii]@, partial@)
                        && is_combo(m, set@[ii]@.union_prefer_right(partial@), rest) && !old_set.contains(m))));
            }
        }
        proof {
            let big = rest_sets(sets, skip as int, k as int);
            let target = fresh_combos(partial@, big, old_set);
            assert(big == seq![sets[j as int]].add(rest));
            assert(big[0] == sets[j as int]);
            assert(big.drop_first() =~= rest);
            assert(sets[j as int] == pred_set(set@));
            assert(pred_set(new_local@) =~= new0.union(target)) by {
                assert forall|m: Map<ChannelId, bool>| target.contains(m) implies pred_set(new_local@).contains(m) by {
                    let p = choose|p: Map<ChannelId, bool>| #![trigger sets[j as int].contains(p)] sets[j as int].contains(p) && consistent(p, partial@)
                        && is_combo(m, p.union_prefer_right(partial@), rest);
                    let ii = choose|ii: int| 0 <= ii < set@.len() && (#[trigger] set@[ii])@ == p;
                    assert(consistent(set@[ii]@, partial@));
                }
                assert forall|m: Map<ChannelId, bool>| pred_set(new_local@).contains(m) && !new0.contains(m) implies target.contains(m) by {
                    let ii = choose|ii: int| 0 <= ii < i && consistent(#[trigger] set@[ii]@, partial@)
                        && is_combo(m, set@[ii]@.union_prefer_right(partial@), rest) && !old_set.contains(m);
                    assert(sets[j as int].contains(set@[ii]@));
                    assert(big[0].contains(set@[ii]@));
                    assert(is_combo(m, partial@, big));
                }
            }
        }
    } else {
        proof {
            assert(rest_sets(sets, skip as int, j as int) =~= Seq::<Set<Map<ChannelId, bool>>>::empty());
        }
        let ghost pm = partial@;
        if !holds(old_local, &partial) {
            insert_predicate(new_local, partial);
        }
        proof {
            let target = fresh_combos(pm, rest_sets(sets, skip as int, k as int), old_set);
            if old_set.contains(pm) {
                assert(target =~= Set::<Map<ChannelId, bool>>::empty());
                assert(pred_set(new_local@) =~= pred_set(old(new_local)@).union(target));
            } else {
                assert(target =~= set![pm]);
                assert(pred_set(new_local@) =~= pred_set(old(new_local)@).union(target));
            }
        }
    }
}

/// The solutions found so far in a round: those proposed by each subtree, and the local
/// solutions that combine one proposal of every subtree.

/// What a solution storage holds: the local solutions handed out and not yet handed out,
/// the subtrees it expects proposals from, and the proposals of each.
pub struct StorageModel {
    pub old: Set<Map<ChannelId, bool>>,
    pub new: Set<Map<ChannelId, bool>>,
    pub ids: Seq<SubtreeId>,
    pub proposals: Seq<Set<Map<ChannelId, bool>>>,
}

/// The storage after subtree `id` proposes `p` (see
/// [`SolutionStorage::submit_and_digest_subtree_solution`]).
pub open spec fn digest(m: StorageModel, id: SubtreeId, p: Map<ChannelId, bool>) -> StorageModel {
    let index = last_position(m.ids, id);
    let was_new = !m.proposals[index].contains(p);
    StorageModel {
        old: m.old,
        new: if was_new { m.new.union(fresh_combos(p, rest_sets(m.proposals, index, 0), m.old)) } else { m.new },
        ids: m.ids,
        proposals: m.proposals.update(index, m.proposals[index].insert(p)),
    }
}

pub struct SolutionStorage {
    old_local: Vec<Predicate>,
    new_local: Vec<Predicate>,
    subtree_solutions: Vec<Vec<Predicate>>,
    subtree_ids: Vec<SubtreeId>,
}

impl Default for SolutionStorage {
    fn default() -> (r: Self)
        ensures
            r.wf(),
            r.old_set() == Set::<Map<ChannelId, bool>>::empty(),
            r.new_set() == Set::<Map<ChannelId, bool>>::empty(),
            r.ids() == Seq::<SubtreeId>::empty(),
    {
        SolutionStorage::new()
    }
}

impl SolutionStorage {
    pub open spec fn model(&self) -> StorageModel {
        StorageModel { old: self.old_set(), new: self.new_set(), ids: self.ids(), proposals: self.proposals() }
    }

    /// The local solutions already handed out.
    pub closed spec fn old_set(&self) -> Set<Map<ChannelId, bool>> {
        pred_set(self.old_local@)
    }

    /// The local solutions found and not yet handed out.
    pub closed spec fn new_set(&self) -> Set<Map<ChannelId, bool>> {
        pred_set(self.new_local@)
    }

    /// The subtrees, in the order they were given; a subtree's position is its last one.
    pub closed spec fn ids(&self) -> Seq<SubtreeId> {
        self.subtree_ids@
    }

    /// The solutions proposed by the subtree at each position.
    pub closed spec fn proposals(&self) -> Seq<Set<Map<ChannelId, bool>>> {
        Seq::new(self.subtree_solutions@.len(), |i: int| pred_set(self.subtree_solutions@[i]@))
    }

    pub closed spec fn wf(&self) -> bool {
        &&& pred_vec_wf(self.old_local@)
        &&& pred_vec_wf(self.new_local@)
        &&& self.subtree_solutions@.len() == self.subtree_ids@.len()
        &&& forall|i: int| 0 <= i < self.subtree_solutions@.len() ==> pred_vec_wf(#[trigger] self.subtree_solutions@[i]@)
    }

    /// A storage with nothing in it.
    pub fn new() -> (r: Self)
        ensures
            r.wf(),
            r.old_set() == Set::<Map<ChannelId, bool>>::empty(),
            r.new_set() == Set::<Map<ChannelId, bool>>::empty(),
            r.ids() == Seq::<SubtreeId>::empty(),
            r.proposals() == Seq::<Set<Map<ChannelId, bool>>>::empty(),
    {
        let r = SolutionStorage {
            old_local: Vec::new(),
            new_local: Vec::new(),
            subtree_solutions: Vec::new(),
            subtree_ids: Vec::new(),
        };
        assert(r.old_set() =~= Set::<Map<ChannelId, bool>>::empty());
        assert(r.new_set() =~= Set::<Map<ChannelId, bool>>::empty());
        assert(r.proposals() =~= Seq::<Set<Map<ChannelId, bool>>>::empty());
        r
    }

    /// Whether nothing is stored.
    pub fn is_clear(&self) -> (r: bool)
        requires
            self.wf(),
        ensures
            r == (self.ids().len() == 0 && self.old_set().is_empty() && self.new_set().is_empty()),
    {
        let r = self.subtree_ids.len() == 0 && self.subtree_solutions.len() == 0 && self.old_local.len() == 0
            && self.new_local.len() == 0;
        proof {
            if self.old_local@.len() > 0 {
                assert(self.old_set().contains(self.old_local@[0]@));
            }
            if self.new_local@.len() > 0 {
                assert(self.new_set().contains(self.new_local@[0]@));
            }
        }
        r
    }

    /// Forgets everything.
    pub fn clear(&mut self)
        ensures
            final(self).wf(),
            final(self).old_set() == Set::<Map<ChannelId, bool>>::empty(),
            final(self).new_set() == Set::<Map<ChannelId, bool>>::empty(),
            final(self).ids() == Seq::<SubtreeId>::empty(),
            final(self).proposals() == Seq::<Set<Map<ChannelId, bool>>>::empty(),
    {
        self.subtree_ids.clear();
        self.subtree_solutions.clear();
        self.old_local.clear();
        self.new_local.clear();
        assert(self.old_set() =~= Set::<Map<ChannelId, bool>>::empty());
        assert(self.new_set() =~= Set::<Map<ChannelId, bool>>::empty());
        assert(self.proposals() =~= Seq::<Set<Map<ChannelId, bool>>>::empty());
    }

    /// Forgets everything, then expects proposals from the given subtrees.
    pub fn reset(&mut self, subtree_ids: &Vec<SubtreeId>)
        ensures
            final(self).wf(),
            final(self).old_set() == Set::<Map<ChannelId, bool>>::empty(),
            final(self).new_set() == Set::<Map<ChannelId, bool>>::empty(),
            final(self).ids() == subtree_ids@,
            forall|i: int| 0 <= i < subtree_ids@.len() ==> (#[trigger] final(self).proposals()[i]).is_empty(),
            final(self).proposals().len() == subtree_ids@.len(),
    {
        self.clear();
        let mut i: usize = 0;
        while i < subtree_ids.len()
            invariant
                self.wf(),
                i <= subtree_ids@.len(),
                self.subtree_ids@ == subtree_ids@.take(i as int),
                self.old_set() == Set::<Map<ChannelId, bool>>::empty(),
                self.new_set() == Set::<Map<ChannelId, bool>>::empty(),
                forall|j: int| 0 <= j < i ==> (#[trigger] self.subtree_solutions@[j]@).len() == 0,
            decreases subtree_ids@.len() - i,
        {
            self.subtree_ids.push(subtree_ids[i]);
            self.subtree_solutions.push(Vec::new());
            i = i + 1;
            assert(self.subtree_ids@ =~= subtree_ids@.take(i as int));
        }
        assert(self.subtree_ids@ =~= subtree_ids@);
        assert forall|j: int| 0 <= j < subtree_ids@.len() implies (#[trigger] self.proposals()[j]).is_empty() by {
            assert(self.proposals()[j] =~= Set::<Map<ChannelId, bool>>::empty());
        }
    }

    /// The local solutions found and not yet handed out.
    pub fn peek_new_locals(&self) -> (r: &Vec<Predicate>)
        ensures
            pred_set(r@) == self.new_set(),
    {
        &self.new_local
    }

    /// Hands out the new local solutions, which become old ones.
    pub fn iter_new_local_make_old(&mut self) -> (r: Vec<Predicate>)
        requires
            old(self).wf(),
        ensures
            final(self).wf(),
            pred_set(r@) == old(self).new_set(),
            pred_vec_wf(r@),
            final(self).new_set() == Set::<Map<ChannelId, bool>>::empty(),
            final(self).old_set() == old(self).old_set().union(old(self).new_set()),
            final(self).ids() == old(self).ids(),
            final(self).proposals() == old(self).proposals(),
    {
        let mut drained: Vec<Predicate> = Vec::new();
        std::mem::swap(&mut drained, &mut self.new_local);
        let ghost news = drained@;
        let mut i: usize = 0;
        while i < drained.len()
            invariant
                self.wf(),
                news == drained@,
                pred_vec_wf(news),
                self.new_local@.len() == 0,
                i <= drained@.len(),
                self.subtree_solutions == old(self).subtree_solutions,
                self.subtree_ids == old(self).subtree_ids,
                self.old_set() == old(self).old_set().union(pred_set(news.take(i as int))),
            decreases drained@.len() - i,
        {
            let p = drained[i].duplicate();
            insert_predicate(&mut self.old_local, p);
            i = i + 1;
            proof {
                assert(pred_set(news.take(i as int)) =~= pred_set(news.take(i - 1)).insert(news[i - 1]@)) by {
                    assert forall|m: Map<ChannelId, bool>| pred_set(news.take(i as int)).contains(m) implies pred_set(news.take(i - 1)).insert(news[i - 1]@).contains(m) by {
                        let j = choose|j: int| 0 <= j < news.take(i as int).len() && (#[trigger] news.take(i as int)[j])@ == m;
                        if j < i - 1 {
                            assert(news.take(i - 1)[j] == news.take(i as int)[j]);
                        }
                    }
                    assert forall|m: Map<ChannelId, bool>| pred_set(news.take(i - 1)).insert(news[i - 1]@).contains(m) implies pred_set(news.take(i as int)).contains(m) by {
                        if m == news[i - 1]@ {
                            assert(news.take(i as int)[i - 1] == news[i - 1]);
                        } else {
                            let j = choose|j: int| 0 <= j < news.take(i - 1).len() && (#[trigger] news.take(i - 1)[j])@ == m;
                            assert(news.take(i as int)[j] == news.take(i - 1)[j]);
                        }
                    }
                }
                assert(self.old_set() =~= old(self).old_set().union(pred_set(news.take(i as int))));
            }
        }
        proof {
            assert(news.take(news.len() as int) =~= news);
            assert(self.new_set() =~= Set::<Map<ChannelId, bool>>::empty());
            assert(self.proposals() =~= old(self).proposals());
        }
        drained
    }

    /// Records a solution proposed by a subtree (which must be one the storage expects);
    /// where it is new, every combination of it with one proposal of each other subtree
    /// that was not handed out before becomes a new local solution.
    pub fn submit_and_digest_subtree_solution(&mut self, subtree_id: SubtreeId, predicate: Predicate)
        requires
            old(self).wf(),
            predicate.wf(),
            exists|i: int| 0 <= i < old(self).ids().len() && old(self).ids()[i] == subtree_id,
        ensures
            final(self).wf(),
            final(self).ids() == old(self).ids(),
            final(self).old_set() == old(self).old_set(),
            ({
                let index = last_position(old(self).ids(), subtree_id);
                let was_new = !old(self).proposals()[index].contains(predicate@);
                &&& final(self).proposals() == old(self).proposals().update(index, old(self).proposals()[index].insert(predicate@))
                &&& was_new ==> final(self).new_set() == old(self).new_set().union(
                    fresh_combos(predicate@, rest_sets(old(self).proposals(), index, 0), old(self).old_set()),
                )
                &&& !was_new ==> final(self).new_set() == old(self).new_set()
            }),
            final(self).model() == digest(old(self).model(), subtree_id, predicate@),
    {
        let index = find_subtree(&self.subtree_ids, subtree_id);

        let ghost before = *self;
        let mut set = Vec::new();
        std::mem::swap(&mut set, &mut self.subtree_solutions[index]);
        let copy = predicate.duplicate();
        let was_new = insert_predicate(&mut set, copy);
        std::mem::swap(&mut set, &mut self.subtree_solutions[index]);
        proof {
            assert(self.proposals() =~= before.proposals().update(index as int, before.proposals()[index as int].insert(predicate@)));
            assert(sol_sets(self.subtree_solutions@) =~= self.proposals());
            assert(rest_sets(self.proposals(), index as int, 0) == rest_sets(before.proposals(), index as int, 0)) by {
                lemma_rest_sets_update(before.proposals(), index as int, 0, before.proposals()[index as int].insert(predicate@));
            }
        }
        if was_new {
            elaborate_into_new_local_rec(predicate, &self.subtree_solutions, index, 0, &self.old_local, &mut self.new_local);
        }
    }
}

} // verus!
