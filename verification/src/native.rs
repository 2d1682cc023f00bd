use vstd::prelude::*;
use vstd::pervasive::unreached;
use crate::common::{ChannelId, Key, Payload};
use crate::eval::copy_bytes;
use crate::predicate::{assigns_beyond, consistent, satisfies_map, CommonSatResult, Predicate};
use crate::solutions::{digest, same_predicate, SolutionStorage, StorageModel, SubtreeId};

verus! {

/// The keys of `s` other than `k`, in order.
pub open spec fn without(s: Seq<Key>, k: Key) -> Seq<Key>
    decreases s.len(),
{
    if s.len() == 0 {
        s
    } else if s.last() == k {
        without(s.drop_last(), k)
    } else {
        without(s.drop_last(), k).push(s.last())
    }
}

/// The first position at or after `i` of an entry for key `k`, or -1.
pub open spec fn entry_index(s: Seq<(Key, Seq<u8>)>, k: Key, i: int) -> int
    decreases s.len() - i,
{
    if i < 0 || i >= s.len() {
        -1
    } else if s[i].0 == k {
        i
    } else {
        entry_index(s, k, i + 1)
    }
}

/// The entries with `k` mapped to `v`: its entry replaced, or a new entry at the end.
pub open spec fn put_entry(s: Seq<(Key, Seq<u8>)>, k: Key, v: Seq<u8>) -> Seq<(Key, Seq<u8>)> {
    let i = entry_index(s, k, 0);
    if i >= 0 {
        s.update(i, (k, v))
    } else {
        s.push((k, v))
    }
}

pub open spec fn entries_view(s: Seq<(Key, Payload)>) -> Seq<(Key, Seq<u8>)> {
    s.map_values(|e: (Key, Payload)| (e.0, e.1@))
}

/// A branch of the native component during a round: the ports it still waits to receive
/// on, the messages it received, and the batch it belongs to.
pub struct BranchN {
    pub to_get: Vec<Key>,
    pub gotten: Vec<(Key, Payload)>,
    pub sync_batch_index: usize,
}

pub struct BranchView {
    pub to_get: Seq<Key>,
    pub gotten: Seq<(Key, Seq<u8>)>,
    pub sync_batch_index: usize,
}

impl View for BranchN {
    type V = BranchView;

    open spec fn view(&self) -> BranchView {
        BranchView { to_get: self.to_get@, gotten: entries_view(self.gotten@), sync_batch_index: self.sync_batch_index }
    }
}

/// The branch after the message `payload` arrives on `ekey`.
pub open spec fn received(b: BranchView, ekey: Key, payload: Seq<u8>) -> BranchView {
    BranchView { to_get: without(b.to_get, ekey), gotten: put_entry(b.gotten, ekey, payload), sync_batch_index: b.sync_batch_index }
}

/// The first position at or after `i` of a branch under predicate `p`, or -1.
pub open spec fn branch_index(s: Seq<(Map<ChannelId, bool>, BranchView)>, p: Map<ChannelId, bool>, i: int) -> int
    decreases s.len() - i,
{
    if i < 0 || i >= s.len() {
        -1
    } else if s[i].0 == p {
        i
    } else {
        branch_index(s, p, i + 1)
    }
}

/// The branches with `b` under predicate `p`: the branch there replaced, or added at the end.
pub open spec fn put_branch(s: Seq<(Map<ChannelId, bool>, BranchView)>, p: Map<ChannelId, bool>, b: BranchView) -> Seq<(Map<ChannelId, bool>, BranchView)> {
    let i = branch_index(s, p, 0);
    if i >= 0 {
        s.update(i, (p, b))
    } else {
        s.push((p, b))
    }
}

pub open spec fn branches_view(s: Seq<(Predicate, BranchN)>) -> Seq<(Map<ChannelId, bool>, BranchView)> {
    s.map_values(|e: (Predicate, BranchN)| (e.0@, e.1@))
}

/// The branches of the native component before its round is decided, each under the
/// predicate it assumes.
pub struct PolyN {
    pub ekeys: Vec<Key>,
    pub branches: Vec<(Predicate, BranchN)>,
}

/// The native component after its round is decided: the batch that was chosen and the
/// messages it received.
pub struct MonoN {
    pub ekeys: Vec<Key>,
    pub result: Option<(usize, Vec<(Key, Payload)>)>,
}

/// The state of [`PolyN::sync_recv`] as it goes through the branches: the new branches,
/// the solution storage, and whether every solution found could be submitted.
pub struct RecvState {
    pub branches: Seq<(Map<ChannelId, bool>, BranchView)>,
    pub storage: StorageModel,
    pub ok: bool,
}

/// A branch that waits for nothing more is a solution under `p`: submit it.
pub open spec fn report(st: RecvState, b: BranchView, p: Map<ChannelId, bool>) -> RecvState {
    if b.to_get.len() == 0 {
        RecvState {
            branches: st.branches,
            storage: digest(st.storage, SubtreeId::PolyN, p),
            ok: st.ok && st.storage.ids.contains(SubtreeId::PolyN),
        }
    } else {
        st
    }
}

/// Feeds the message `payload` on `ekey`, sent under `pp`, to the branch `b` under `p`.
/// Where `p` and `pp` are inconsistent the branch is kept as it is. Where `pp` assigns
/// nothing beyond `p` the branch receives the message in place. Otherwise a copy of the
/// branch receives it under the common satisfier (`pp`, or the union of both), and the
/// branch itself is kept as it is.
pub open spec fn recv_branch(st: RecvState, p: Map<ChannelId, bool>, b: BranchView, ekey: Key, payload: Seq<u8>, pp: Map<ChannelId, bool>) -> RecvState {
    if !consistent(p, pp) || !b.to_get.contains(ekey) {
        RecvState { branches: put_branch(st.branches, p, b), storage: st.storage, ok: st.ok }
    } else if !assigns_beyond(pp, p) {
        let b2 = received(b, ekey, payload);
        let st2 = report(st, b2, p);
        RecvState { branches: put_branch(st2.branches, p, b2), storage: st2.storage, ok: st2.ok }
    } else {
        let target = if !assigns_beyond(p, pp) { pp } else { p.union_prefer_right(pp) };
        let f = received(b, ekey, payload);
        let st2 = report(st, f, target);
        RecvState { branches: put_branch(put_branch(st2.branches, target, f), p, b), storage: st2.storage, ok: st2.ok }
    }
}

/// Feeds the message to the branches `bs[i..]` in order.
pub open spec fn recv_fold(bs: Seq<(Map<ChannelId, bool>, BranchView)>, i: int, st: RecvState, ekey: Key, payload: Seq<u8>, pp: Map<ChannelId, bool>) -> RecvState
    decreases bs.len() - i,
{
    if i < 0 || i >= bs.len() {
        st
    } else {
        recv_fold(bs, i + 1, recv_branch(st, bs[i].0, bs[i].1, ekey, payload, pp), ekey, payload, pp)
    }
}

proof fn lemma_fold_not_ok(bs: Seq<(Map<ChannelId, bool>, BranchView)>, i: int, st: RecvState, ekey: Key, payload: Seq<u8>, pp: Map<ChannelId, bool>)
    requires
        !st.ok,
    ensures
        !recv_fold(bs, i, st, ekey, payload, pp).ok,
    decreases bs.len() - i,
{
    if 0 <= i < bs.len() {
        lemma_fold_not_ok(bs, i + 1, recv_branch(st, bs[i].0, bs[i].1, ekey, payload, pp), ekey, payload, pp);
    }
}


/// The first position at or after `i` of a branch that waits for nothing more and whose
/// predicate the decision satisfies, or -1.
pub open spec fn first_solution(bs: Seq<(Map<ChannelId, bool>, BranchView)>, decision: Map<ChannelId, bool>, i: int) -> int
    decreases bs.len() - i,
{
    if i < 0 || i >= bs.len() {
        -1
    } else if bs[i].1.to_get.len() == 0 && satisfies_map(decision, bs[i].0) {
        i
    } else {
        first_solution(bs, decision, i + 1)
    }
}

/// None of the keys of `g` has an entry in `t`, and no two entries of `g` share a key.
pub open spec fn fresh_entries(t: Seq<(Key, Seq<u8>)>, g: Seq<(Key, Seq<u8>)>) -> bool {
    &&& forall|i: int| 0 <= i < g.len() ==> !(exists|j: int| 0 <= j < t.len() && t[j].0 == (#[trigger] g[i]).0)
    &&& forall|i: int, j: int| 0 <= i < j < g.len() ==> (#[trigger] g[i]).0 != (#[trigger] g[j]).0
}

/// Every predicate of the branches is well formed.
pub open spec fn branches_wf(s: Seq<(Predicate, BranchN)>) -> bool {
    forall|i: int| 0 <= i < s.len() ==> (#[trigger] s[i]).0.wf()
}

/// Removes key `k` from `v`; tells whether it was there.
fn remove_key(v: &mut Vec<Key>, k: Key) -> (r: bool)
    ensures
        r == old(v)@.contains(k),
        r ==> final(v)@ == without(old(v)@, k),
        !r ==> final(v)@ == old(v)@,
{
    let mut out: Vec<Key> = Vec::new();
    let mut found = false;
    let mut i: usize = 0;
    while i < v.len()
        invariant
            i <= v@.len(),
            out@ == without(v@.take(i as int), k),
            found == v@.take(i as int).contains(k),
        decreases v@.len() - i,
    {
        let x = v[i];
        assert(v@.take(i + 1).drop_last() =~= v@.take(i as int));
        assert(v@.take(i + 1).last() == x);
        if x == k {
            found = true;
            assert(v@.take(i + 1).contains(k)) by {
                assert(v@.take(i + 1)[i as int] == k);
            }
        } else {
            out.push(x);
            assert(v@.take(i + 1).contains(k) == v@.take(i as int).contains(k)) by {
                if v@.take(i + 1).contains(k) {
                    let j = choose|j: int| 0 <= j < v@.take(i + 1).len() && #[trigger] v@.take(i + 1)[j] == k;
                    assert(v@.take(i as int)[j] == k);
                }
                if v@.take(i as int).contains(k) {
                    let j = choose|j: int| 0 <= j < v@.take(i as int).len() && #[trigger] v@.take(i as int)[j] == k;
                    assert(v@.take(i + 1)[j] == k);
                }
            }
        }
        i += 1;
    }
    assert(v@.take(v@.len() as int) =~= v@);
    if found {
        *v = out;
    }
    found
}

/// Maps `k` to `payload` in the entries.
pub(crate) fn put_payload(v: &mut Vec<(Key, Payload)>, k: Key, payload: Payload)
    ensures
        entries_view(final(v)@) == put_entry(entries_view(old(v)@), k, payload@),
{
    let ghost s = entries_view(v@);
    let mut i: usize = 0;
    while i < v.len()
        invariant
            i <= v@.len(),
            s == entries_view(v@),
            s == entries_view(old(v)@),
            entry_index(s, k, 0) == entry_index(s, k, i as int),
        decreases v@.len() - i,
    {
        if v[i].0 == k {
            v.set(i, (k, payload));
            assert(entries_view(v@) =~= s.update(i as int, (k, payload@)));
            return;
        }
        i += 1;
    }
    v.push((k, payload));
    assert(entries_view(v@) =~= s.push((k, payload@)));
}

/// Puts branch `b` under predicate `p`.
fn put_branch_exec(v: &mut Vec<(Predicate, BranchN)>, p: Predicate, b: BranchN)
    requires
        branches_wf(old(v)@),
        p.wf(),
    ensures
        branches_wf(final(v)@),
        branches_view(final(v)@) == put_branch(branches_view(old(v)@), p@, b@),
{
    let ghost s = branches_view(v@);
    let mut i: usize = 0;
    while i < v.len()
        invariant
            i <= v@.len(),
            s == branches_view(v@),
            s == branches_view(old(v)@),
            branches_wf(v@),
            p.wf(),
            branch_index(s, p@, 0) == branch_index(s, p@, i as int),
        decreases v@.len() - i,
    {
        assert(v@[i as int].0.wf());
        if same_predicate(&v[i].0, &p) {
            let ghost pv = p@;
            let ghost bv = b@;
            v.set(i, (p, b));
            assert(branches_view(v@) =~= s.update(i as int, (pv, bv)));
            return;
        }
        i += 1;
    }
    let ghost pv = p@;
    let ghost bv = b@;
    v.push((p, b));
    assert(branches_view(v@) =~= s.push((pv, bv)));
}

impl BranchN {
    /// A copy of this branch.
    pub fn duplicate(&self) -> (r: BranchN)
        ensures
            r@ == self@,
    {
        let mut to_get: Vec<Key> = Vec::new();
        let mut i: usize = 0;
        while i < self.to_get.len()
            invariant
                i <= self.to_get@.len(),
                to_get@ == self.to_get@.take(i as int),
            decreases self.to_get@.len() - i,
        {
            to_get.push(self.to_get[i]);
            i += 1;
            assert(to_get@ =~= self.to_get@.take(i as int));
        }
        assert(to_get@ =~= self.to_get@);
        let mut gotten: Vec<(Key, Payload)> = Vec::new();
        let mut j: usize = 0;
        while j < self.gotten.len()
            invariant
                j <= self.gotten@.len(),
                gotten@.len() == j,
                entries_view(gotten@) == entries_view(self.gotten@).take(j as int),
            decreases self.gotten@.len() - j,
        {
            let e = &self.gotten[j];
            let c = copy_bytes(&e.1);
            let ghost before = gotten@;
            gotten.push((e.0, c));
            assert(gotten@ == before.push((e.0, c)));
            assert(entries_view(self.gotten@)[j as int] == (e.0, e.1@));
            assert forall|m: int| 0 <= m < j implies #[trigger] entries_view(gotten@)[m] == entries_view(self.gotten@)[m] by {
                assert(gotten@[m] == before[m]);
                assert(entries_view(before)[m] == entries_view(self.gotten@).take(j as int)[m]);
            }
            j += 1;
            assert(entries_view(gotten@) =~= entries_view(self.gotten@).take(j as int));
        }
        assert(entries_view(gotten@) =~= entries_view(self.gotten@));
        BranchN { to_get, gotten, sync_batch_index: self.sync_batch_index }
    }
}

impl PolyN {
    pub open spec fn wf(&self) -> bool {
        branches_wf(self.branches@)
    }

    /// Feeds the message `payload`, received on `ekey` under `payload_predicate`, to every
    /// branch (see [`recv_branch`]); each branch that thereby waits for nothing more is
    /// submitted to the solution storage as a solution of the native component.
    pub fn sync_recv(&mut self, ekey: Key, payload: Payload, payload_predicate: Predicate, solution_storage: &mut SolutionStorage)
        requires
            old(self).wf(),
            payload_predicate.wf(),
            old(solution_storage).wf(),
            recv_fold(branches_view(old(self).branches@), 0, RecvState {
                branches: Seq::empty(),
                storage: old(solution_storage).model(),
                ok: true,
            }, ekey, payload@, payload_predicate@).ok,
        ensures
            final(self).wf(),
            final(solution_storage).wf(),
            final(self).ekeys == old(self).ekeys,
            ({
                let r = recv_fold(branches_view(old(self).branches@), 0, RecvState {
                    branches: Seq::empty(),
                    storage: old(solution_storage).model(),
                    ok: true,
                }, ekey, payload@, payload_predicate@);
                &&& branches_view(final(self).branches@) == r.branches
                &&& final(solution_storage).model() == r.storage
            }),
    {
        let ghost pp = payload_predicate@;
        let ghost pl = payload@;
        let mut old_branches: Vec<(Predicate, BranchN)> = Vec::new();
        std::mem::swap(&mut old_branches, &mut self.branches);
        let ghost bs = branches_view(old_branches@);
        let ghost total = recv_fold(bs, 0, RecvState { branches: Seq::empty(), storage: solution_storage.model(), ok: true }, ekey, pl, pp);
        let mut branches2: Vec<(Predicate, BranchN)> = Vec::new();
        assert(branches_view(branches2@) =~= Seq::<(Map<ChannelId, bool>, BranchView)>::empty());
        let mut i: usize = 0;
        while i < old_branches.len()
            invariant
                i <= old_branches@.len(),
                bs == branches_view(old_branches@),
                branches_wf(old_branches@),
                branches_wf(branches2@),
                payload_predicate.wf(),
                pp == payload_predicate@,
                pl == payload@,
                solution_storage.wf(),
                total.ok,
                total == recv_fold(bs, i as int, RecvState { branches: branches_view(branches2@), storage: solution_storage.model(), ok: true }, ekey, pl, pp),
            decreases old_branches@.len() - i,
        {
            let ghost st = RecvState { branches: branches_view(branches2@), storage: solution_storage.model(), ok: true };
            let ghost next = recv_branch(st, bs[i as int].0, bs[i as int].1, ekey, pl, pp);
            assert(bs[i as int] == (old_branches@[i as int].0@, old_branches@[i as int].1@));
            assert(old_branches@[i as int].0.wf());
            proof {
                if !next.ok {
                    lemma_fold_not_ok(bs, i + 1, next, ekey, pl, pp);
                }
            }
            let old_predicate = old_branches[i].0.duplicate();
            let mut branch = old_branches[i].1.duplicate();
            match old_predicate.common_satisfier(&payload_predicate) {
                CommonSatResult::Nonexistant => {},
                CommonSatResult::FormerNotLatter | CommonSatResult::Equivalent => {
                    if remove_key(&mut branch.to_get, ekey) {
                        put_payload(&mut branch.gotten, ekey, copy_bytes(&payload));
                        if branch.to_get.len() == 0 {
                            solution_storage.submit_and_digest_subtree_solution(SubtreeId::PolyN, old_predicate.duplicate());
                        }
                    }
                },
                CommonSatResult::LatterNotFormer => {
                    let mut forked = branch.duplicate();
                    if remove_key(&mut forked.to_get, ekey) {
                        put_payload(&mut forked.gotten, ekey, copy_bytes(&payload));
                        if forked.to_get.len() == 0 {
                            solution_storage.submit_and_digest_subtree_solution(SubtreeId::PolyN, payload_predicate.duplicate());
                        }
                        put_branch_exec(&mut branches2, payload_predicate.duplicate(), forked);
                    }
                },
                CommonSatResult::New(new) => {
                    let mut forked = branch.duplicate();
                    if remove_key(&mut forked.to_get, ekey) {
                        put_payload(&mut forked.gotten, ekey, copy_bytes(&payload));
                        if forked.to_get.len() == 0 {
                            solution_storage.submit_and_digest_subtree_solution(SubtreeId::PolyN, new.duplicate());
                        }
                        put_branch_exec(&mut branches2, new, forked);
                    }
                },
            }
            put_branch_exec(&mut branches2, old_predicate, branch);
            assert(branches_view(branches2@) == next.branches);
            assert(solution_storage.model() == next.storage);
            i += 1;
        }
        self.branches = branches2;
    }

    /// The native component once the round is decided: the first branch that waits for
    /// nothing more and whose predicate the decision satisfies gives the chosen batch and
    /// the messages received, which are also added to the table row.
    pub fn become_mono(self, decision: &Predicate, table_row: &mut Vec<(Key, Payload)>) -> (r: MonoN)
        requires
            self.wf(),
            decision.wf(),
            first_solution(branches_view(self.branches@), decision@, 0) >= 0,
            fresh_entries(entries_view(old(table_row)@), branches_view(self.branches@)[first_solution(branches_view(self.branches@), decision@, 0)].1.gotten),
        ensures
            ({
                let b = branches_view(self.branches@)[first_solution(branches_view(self.branches@), decision@, 0)].1;
                &&& r.ekeys == self.ekeys
                &&& r.result matches Some(res) && res.0 == b.sync_batch_index && entries_view(res.1@) == b.gotten
                &&& entries_view(final(table_row)@) == entries_view(old(table_row)@) + b.gotten
            }),
    {
        let ghost bs = branches_view(self.branches@);
        let ghost target = first_solution(bs, decision@, 0);
        let mut branches = self.branches;
        let mut i: usize = 0;
        while i < branches.len()
            invariant
                i <= branches@.len(),
                bs == branches_view(branches@),
                branches_wf(branches@),
                decision.wf(),
                target == first_solution(bs, decision@, 0),
                target >= 0,
                first_solution(bs, decision@, 0) == first_solution(bs, decision@, i as int),
            ensures
                i <= branches@.len(),
                first_solution(bs, decision@, 0) == first_solution(bs, decision@, i as int),
                i < branches@.len() ==> bs[i as int].1.to_get.len() == 0 && satisfies_map(decision@, bs[i as int].0),
            decreases branches@.len() - i,
        {
            assert(branches@[i as int].0.wf());
            if branches[i].1.to_get.len() == 0 && decision.satisfies(&branches[i].0) {
                break;
            }
            i += 1;
        }
        if i >= branches.len() {
            unreached()
        }
        assert(i == target);
        let (_, branch) = branches.remove(i);
        let ghost g = entries_view(branch.gotten@);
        let ghost t0 = entries_view(table_row@);
        let mut k: usize = 0;
        while k < branch.gotten.len()
            invariant
                k <= branch.gotten@.len(),
                g == entries_view(branch.gotten@),
                fresh_entries(t0, g),
                entries_view(table_row@) == t0 + g.take(k as int),
            decreases branch.gotten@.len() - k,
        {
            let e = &branch.gotten[k];
            let c = copy_bytes(&e.1);
            let ghost before = table_row@;
            table_row.push((e.0, c));
            proof {
                assert(g[k as int] == (e.0, e.1@));
                assert(entries_view(table_row@) =~= entries_view(before).push((e.0, c@)));
                assert(g.take(k + 1) =~= g.take(k as int).push(g[k as int]));
            }
            k += 1;
        }
        assert(g.take(g.len() as int) =~= g);
        MonoN { ekeys: self.ekeys, result: Some((branch.sync_batch_index, branch.gotten)) }
    }
}

} // verus!
