use vstd::prelude::*;
use crate::common::{ChannelId, Key, Payload, Polarity};
use crate::endpoint::{
    CommMsg, CommMsgContents, ContentsView, Decision, DecisionView, EndpointInfo, Msg, MsgView,
};
use crate::errors::SyncErr;
use crate::predicate::Predicate;
use crate::serde::contents_wf;
use crate::solutions::{digest, pred_set, SolutionStorage, StorageModel, SubtreeId};

verus! {

/// The actor behind a port during a round: the native component or a protocol component
/// (by its index among the round's protocol components).
#[derive(Debug, Copy, Clone, PartialEq, Eq, Structural)]
pub enum Holder {
    Native,
    Poly(usize),
}

/// What a controller sets out to do during a synchronous round.
#[derive(Debug)]
pub enum RoundAction {
    /// Send the message through the port.
    Send(Key, Msg),
    /// Keep a message of a later round for then.
    Delay(Key, Msg),
    /// Hand a payload that arrived at a port, with its predicate, to the actor behind it;
    /// afterwards the caller runs the actor and then [`Round::handle_locals`].
    Deliver(Holder, Key, Predicate, Payload),
    /// The round ended with the decision (announced to the children before).
    End(Decision),
    /// The round failed.
    Fail(SyncErr),
}

/// A [`RoundAction`] as mathematics sees it.
pub enum RoundActionView {
    Send(Key, MsgView),
    Delay(Key, MsgView),
    Deliver(Holder, Key, Map<ChannelId, bool>, Seq<u8>),
    End(DecisionView),
    Fail(SyncErr),
}

impl View for RoundAction {
    type V = RoundActionView;

    open spec fn view(&self) -> RoundActionView {
        match self {
            RoundAction::Send(k, m) => RoundActionView::Send(*k, m@),
            RoundAction::Delay(k, m) => RoundActionView::Delay(*k, m@),
            RoundAction::Deliver(h, k, p, d) => RoundActionView::Deliver(*h, *k, p@, d@),
            RoundAction::End(d) => RoundActionView::End(d@),
            RoundAction::Fail(e) => RoundActionView::Fail(*e),
        }
    }
}

/// The views of a sequence of actions.
pub open spec fn round_views(s: Seq<RoundAction>) -> Seq<RoundActionView> {
    s.map_values(|a: RoundAction| a@)
}

/// What happens to a controller during a round: a message arrives at a port, or the
/// deadline passes.
#[derive(Debug)]
pub enum RoundEvent {
    Received(Key, Msg),
    Timeout,
}

/// The state of a controller's synchronous round, as mathematics sees it.
pub struct RoundView {
    pub round_index: usize,
    pub parent: Option<Key>,
    pub children: Seq<Key>,
    pub timed_out: bool,
    pub holders: Seq<(Key, Holder)>,
    pub ports: Seq<(Key, EndpointInfo)>,
    pub storage: StorageModel,
    pub ended: bool,
}

/// A controller's part of a synchronous round once its components are running: it collects
/// the solutions of its subtree, passes them to its parent (or, as the leader, decides),
/// forwards failures towards the leader and decisions away from it, and routes payloads to
/// the actors behind its ports.
pub struct Round {
    round_index: usize,
    parent: Option<Key>,
    children: Vec<Key>,
    timed_out: bool,
    holders: Vec<(Key, Holder)>,
    ports: Vec<(Key, EndpointInfo)>,
    storage: SolutionStorage,
    ended: bool,
}

impl View for Round {
    type V = RoundView;

    closed spec fn view(&self) -> RoundView {
        RoundView {
            round_index: self.round_index,
            parent: self.parent,
            children: self.children@,
            timed_out: self.timed_out,
            holders: self.holders@,
            ports: self.ports@,
            storage: self.storage.model(),
            ended: self.ended,
        }
    }
}

/// The message of round `round` with the contents `c`.
pub open spec fn comm(round: usize, c: ContentsView) -> MsgView {
    MsgView::Comm(round, c)
}

/// The announcement of `d` to every child in `cs`, in order.
pub open spec fn announce_all(cs: Seq<Key>, round: usize, d: DecisionView) -> Seq<RoundActionView>
    decreases cs.len(),
{
    if cs.len() == 0 {
        Seq::empty()
    } else {
        announce_all(cs.drop_last(), round, d).push(RoundActionView::Send(cs.last(), comm(round, ContentsView::Announce(d))))
    }
}

/// The elaboration of each solution in `ps` to the parent `p`, in order.
pub open spec fn elaborate_all(ps: Seq<Map<ChannelId, bool>>, p: Key, round: usize) -> Seq<RoundActionView>
    decreases ps.len(),
{
    if ps.len() == 0 {
        Seq::empty()
    } else {
        elaborate_all(ps.drop_last(), p, round).push(RoundActionView::Send(p, comm(round, ContentsView::Elaborate(ps.last()))))
    }
}

/// The first entry for port `k` in `s`, if any.
pub open spec fn lookup<V>(s: Seq<(Key, V)>, k: Key) -> Option<V>
    decreases s.len(),
{
    if s.len() == 0 {
        None
    } else if s[0].0 == k {
        Some(s[0].1)
    } else {
        lookup(s.drop_first(), k)
    }
}

/// The subtrees of a round with `polys` protocol components and the children `cs`: the
/// native component, then the protocol components, then the children.
pub open spec fn round_subtrees(polys: nat, cs: Seq<Key>) -> Seq<SubtreeId> {
    seq![SubtreeId::PolyN] + Seq::new(polys, |i: int| SubtreeId::PolyP { index: i as usize })
        + cs.map_values(|c: Key| SubtreeId::ChildController { port: c })
}

/// The round ended: the announcements to the children, then the decision.
pub open spec fn end_actions(r: RoundView, d: DecisionView) -> Seq<RoundActionView> {
    announce_all(r.children, r.round_index, d).push(RoundActionView::End(d))
}

/// The state after the round of `r` ended.
pub open spec fn ended(r: RoundView) -> RoundView {
    RoundView {
        round_index: (r.round_index + 1) as usize,
        storage: StorageModel { old: Set::empty(), new: Set::empty(), ids: Seq::empty(), proposals: Seq::empty() },
        ended: true,
        ..r
    }
}

/// The state after a failure.
pub open spec fn failed(r: RoundView) -> RoundView {
    RoundView { ended: true, ..r }
}

/// What [`Round::handle_locals`] does in `r`, ending in `f` with actions `a`: a controller
/// with a parent passes every new solution of its subtree to the parent (in some order) and
/// keeps them as old; the leader decides on one of them, if there is one, and ends the round.
pub open spec fn locals_outcome(r: RoundView, f: RoundView, a: Seq<RoundActionView>) -> bool {
    match r.parent {
        Some(p) => {
            &&& f == RoundView {
                storage: StorageModel { old: r.storage.old.union(r.storage.new), new: Set::empty(), ..r.storage },
                ..r
            }
            &&& exists|v: Seq<Map<ChannelId, bool>>| v.to_set() == r.storage.new && a == elaborate_all(v, p, r.round_index)
        },
        None => if r.storage.new.is_empty() {
            f == r && a == Seq::<RoundActionView>::empty()
        } else {
            exists|q: Map<ChannelId, bool>| r.storage.new.contains(q) && f == ended(r) && a == end_actions(r, DecisionView::Success(q))
        },
    }
}

/// The contents of the round messages carried by event `ev` are well formed.
pub open spec fn event_wf(ev: RoundEvent) -> bool {
    match ev {
        RoundEvent::Received(_, Msg::CommMsg(c)) => contents_wf(c.contents),
        _ => true,
    }
}

/// Whether `r` may take the event `ev`: a timeout only before the deadline passed, and a
/// payload of this round only at a known input port.
pub open spec fn round_accepts(r: RoundView, ev: RoundEvent) -> bool {
    match ev {
        RoundEvent::Timeout => !r.timed_out,
        RoundEvent::Received(k, Msg::CommMsg(c)) => c.round_index == r.round_index && c.contents is SendPayload
            ==> (lookup(r.ports, k) matches Some(info) && info.polarity == Polarity::Getter),
        _ => true,
    }
}

/// What [`Round::on_event`] does in `r` on event `ev`, ending in `f` with actions `a`.
pub open spec fn event_outcome(r: RoundView, ev: RoundEvent, f: RoundView, a: Seq<RoundActionView>) -> bool {
    match ev {
        RoundEvent::Timeout => match r.parent {
            None => f == ended(r) && a == end_actions(r, DecisionView::Failure),
            Some(p) => f == RoundView { timed_out: true, ..r } && a == seq![RoundActionView::Send(p, comm(r.round_index, ContentsView::Failure))],
        },
        RoundEvent::Received(k, m) => match m@ {
            MsgView::Setup(_) => f == failed(r) && a == seq![RoundActionView::Fail(SyncErr::UnexpectedSetupMsg)],
            MsgView::Comm(ri, c) => if ri < r.round_index {
                f == r && a == Seq::<RoundActionView>::empty()
            } else if ri > r.round_index {
                f == r && a == seq![RoundActionView::Delay(k, m@)]
            } else {
                contents_outcome(r, k, c, f, a)
            },
        },
    }
}

/// What [`Round::on_event`] does in `r` with contents `c` of a message of the current
/// round that arrived at port `k`, ending in `f` with actions `a`.
pub open spec fn contents_outcome(r: RoundView, k: Key, c: ContentsView, f: RoundView, a: Seq<RoundActionView>) -> bool {
    match c {
        ContentsView::Failure => match r.parent {
            Some(p) => f == r && a == seq![RoundActionView::Send(p, comm(r.round_index, ContentsView::Failure))],
            None => f == ended(r) && a == end_actions(r, DecisionView::Failure),
        },
        ContentsView::Announce(d) => if r.parent != Some(k) {
            f == failed(r) && a == seq![RoundActionView::Fail(SyncErr::AnnounceFromNonParent)]
        } else {
            f == ended(r) && a == end_actions(r, d)
        },
        ContentsView::Elaborate(po) => if !r.children.contains(k) {
            f == failed(r) && a == seq![RoundActionView::Fail(SyncErr::ElaborateFromNonChild)]
        } else {
            locals_outcome(
                RoundView { storage: digest(r.storage, SubtreeId::ChildController { port: k }, po), ..r },
                f,
                a,
            )
        },
        ContentsView::SendPayload(pp, payload) => {
            let cid = lookup(r.ports, k)->Some_0.channel_id;
            if !(pp.contains_key(cid) && pp[cid]) {
                f == failed(r) && a == seq![RoundActionView::Fail(SyncErr::PayloadPremiseExcludesTheChannel(cid))]
            } else {
                f == r && match lookup(r.holders, k) {
                    None => a == Seq::<RoundActionView>::empty(),
                    Some(h) => a == seq![RoundActionView::Deliver(h, k, pp, payload)],
                }
            }
        },
    }
}

/// A copy of `d`.
fn copy_decision(d: &Decision) -> (r: Decision)
    ensures
        r@ == d@,
        d matches Decision::Success(p) ==> r matches Decision::Success(q) && q.wf() == p.wf(),
{
    match d {
        Decision::Failure => Decision::Failure,
        Decision::Success(p) => Decision::Success(p.duplicate()),
    }
}

/// The first entry for port `k` in `s`, if any.
fn find_holder(s: &Vec<(Key, Holder)>, k: Key) -> (r: Option<Holder>)
    ensures
        r == lookup(s@, k),
{
    let mut i: usize = 0;
    assert(s@.skip(0) =~= s@);
    while i < s.len()
        invariant
            i <= s@.len(),
            lookup(s@, k) == lookup(s@.skip(i as int), k),
        decreases s@.len() - i,
    {
        assert(s@.skip(i as int).drop_first() =~= s@.skip(i + 1));
        if s[i].0 == k {
            return Some(s[i].1);
        }
        i = i + 1;
    }
    None
}

/// The first entry for port `k` in `s`, if any.
fn find_port(s: &Vec<(Key, EndpointInfo)>, k: Key) -> (r: Option<EndpointInfo>)
    ensures
        r == lookup(s@, k),
{
    let mut i: usize = 0;
    assert(s@.skip(0) =~= s@);
    while i < s.len()
        invariant
            i <= s@.len(),
            lookup(s@, k) == lookup(s@.skip(i as int), k),
        decreases s@.len() - i,
    {
        assert(s@.skip(i as int).drop_first() =~= s@.skip(i + 1));
        if s[i].0 == k {
            return Some(s[i].1);
        }
        i = i + 1;
    }
    None
}

/// Whether `k` is in `v`.
fn has_port(v: &Vec<Key>, k: Key) -> (r: bool)
    ensures
        r == v@.contains(k),
{
    let mut i: usize = 0;
    while i < v.len()
        invariant
            i <= v@.len(),
            forall|j: int| 0 <= j < i ==> v@[j] != k,
        decreases v@.len() - i,
    {
        if v[i] == k {
            assert(v@[i as int] == k);
            return true;
        }
        i = i + 1;
    }
    false
}

impl Round {
    /// The storage holds proposals exactly from the round's subtrees, children included.
    pub closed spec fn wf(&self) -> bool {
        &&& self.storage.wf()
        &&& !self.ended ==> forall|i: int| 0 <= i < self.children@.len() ==> self.storage.ids().contains(
            SubtreeId::ChildController { port: #[trigger] self.children@[i] },
        )
    }

    /// Starts the round `round_index` with parent port `parent` (none for the leader),
    /// child ports `children`, the actors behind the ports, the ports' endpoint information,
    /// and `polys` protocol components: the storage awaits proposals from the native
    /// component, each protocol component and each child.
    pub fn new(
        round_index: usize,
        parent: Option<Key>,
        children: Vec<Key>,
        holders: Vec<(Key, Holder)>,
        ports: Vec<(Key, EndpointInfo)>,
        polys: usize,
    ) -> (r: Round)
        requires
            1 + polys + children@.len() <= usize::MAX,
        ensures
            r.wf(),
            r@.round_index == round_index,
            r@.parent == parent,
            r@.children == children@,
            !r@.timed_out,
            r@.holders == holders@,
            r@.ports == ports@,
            r@.storage.ids == round_subtrees(polys as nat, children@),
            r@.storage.old.is_empty() && r@.storage.new.is_empty(),
            forall|i: int| 0 <= i < r@.storage.proposals.len() ==> (#[trigger] r@.storage.proposals[i]).is_empty(),
            r@.storage.proposals.len() == r@.storage.ids.len(),
            !r@.ended,
    {
        let mut ids: Vec<SubtreeId> = Vec::new();
        ids.push(SubtreeId::PolyN);
        let mut i: usize = 0;
        while i < polys
            invariant
                i <= polys,
                ids@ == seq![SubtreeId::PolyN] + Seq::new(i as nat, |j: int| SubtreeId::PolyP { index: j as usize }),
            decreases polys - i,
        {
            ids.push(SubtreeId::PolyP { index: i });
            i = i + 1;
            assert(ids@ =~= seq![SubtreeId::PolyN] + Seq::new(i as nat, |j: int| SubtreeId::PolyP { index: j as usize }));
        }
        let ghost head = ids@;
        let mut j: usize = 0;
        while j < children.len()
            invariant
                j <= children@.len(),
                ids@ == head + children@.take(j as int).map_values(|c: Key| SubtreeId::ChildController { port: c }),
            decreases children@.len() - j,
        {
            ids.push(SubtreeId::ChildController { port: children[j] });
            j = j + 1;
            assert(ids@ =~= head + children@.take(j as int).map_values(|c: Key| SubtreeId::ChildController { port: c }));
        }
        assert(children@.take(children@.len() as int) =~= children@);
        let mut storage = SolutionStorage::new();
        storage.reset(&ids);
        let r = Round { round_index, parent, children, timed_out: false, holders, ports, storage, ended: false };
        assert forall|k: int| 0 <= k < r.children@.len() implies r.storage.ids().contains(
            SubtreeId::ChildController { port: #[trigger] r.children@[k] },
        ) by {
            let n = head.len() + k;
            assert(r.storage.ids()[n] == SubtreeId::ChildController { port: r.children@[k] });
        }
        r
    }

    /// Ends the round with `d`: announces it to every child, then the decision; the round
    /// index advances and the storage is emptied.
    fn end_round(&mut self, d: Decision, acts: &mut Vec<RoundAction>)
        requires
            old(self).wf(),
            old(self)@.round_index < usize::MAX,
        ensures
            final(self).wf(),
            final(self)@ == ended(old(self)@),
            round_views(final(acts)@) == round_views(old(acts)@) + end_actions(old(self)@, d@),
    {
        let mut i: usize = 0;
        while i < self.children.len()
            invariant
                i <= self.children@.len(),
                self.children@ == old(self).children@,
                self.round_index == old(self).round_index,
                round_views(acts@) == round_views(old(acts)@) + announce_all(self.children@.take(i as int), self.round_index, d@),
            decreases self.children@.len() - i,
        {
            let ghost before = acts@;
            let announcement = CommMsgContents::Announce { decision: copy_decision(&d) }.into_msg(self.round_index);
            acts.push(RoundAction::Send(self.children[i], announcement));
            proof {
                assert(self.children@.take(i + 1).drop_last() =~= self.children@.take(i as int));
                assert(round_views(acts@) =~= round_views(before).push(acts@.last()@));
            }
            i = i + 1;
        }
        assert(self.children@.take(self.children@.len() as int) =~= self.children@);
        let ghost before = acts@;
        acts.push(RoundAction::End(d));
        assert(round_views(acts@) =~= round_views(before).push(acts@.last()@));
        self.round_index = self.round_index + 1;
        self.storage.clear();
        self.ended = true;
        proof {
            assert(self.storage.model().old =~= Set::empty());
            assert(self.storage.model().proposals =~= Seq::<Set<Map<ChannelId, bool>>>::empty());
        }
    }

    /// Hands out the new solutions of the subtree: a controller with a parent sends each to
    /// the parent; the leader decides on one of them, if there is one, and ends the round.
    pub fn handle_locals(&mut self) -> (r: Vec<RoundAction>)
        requires
            old(self).wf(),
            !old(self)@.ended,
            old(self)@.round_index < usize::MAX,
        ensures
            final(self).wf(),
            locals_outcome(old(self)@, final(self)@, round_views(r@)),
    {
        let ghost r0 = self@;
        let mut news = self.storage.iter_new_local_make_old();
        let mut acts: Vec<RoundAction> = Vec::new();
        proof {
            assert(self.storage.model().old == r0.storage.old.union(r0.storage.new));
        }
        match self.parent {
            Some(p) => {
                let ghost v = news@.map_values(|q: Predicate| q@);
                let mut i: usize = 0;
                while i < news.len()
                    invariant
                        i <= news@.len(),
                        v == news@.map_values(|q: Predicate| q@),
                        round_views(acts@) == elaborate_all(v.take(i as int), p, self.round_index),
                    decreases news@.len() - i,
                {
                    let ghost before = acts@;
                    let q = news[i].duplicate();
                    acts.push(RoundAction::Send(p, CommMsgContents::Elaborate { partial_oracle: q }.into_msg(self.round_index)));
                    proof {
                        assert(v.take(i + 1).drop_last() =~= v.take(i as int));
                        assert(round_views(acts@) =~= round_views(before).push(acts@.last()@));
                    }
                    i = i + 1;
                }
                proof {
                    assert(v.take(v.len() as int) =~= v);
                    assert forall|m: Map<ChannelId, bool>| v.to_set().contains(m) <==> r0.storage.new.contains(m) by {
                        if v.to_set().contains(m) {
                            let j = choose|j: int| 0 <= j < v.len() && v[j] == m;
                            assert(news@[j]@ == m);
                        }
                        if r0.storage.new.contains(m) {
                            assert(pred_set(news@).contains(m));
                            let j = choose|j: int| 0 <= j < news@.len() && (#[trigger] news@[j])@ == m;
                            assert(v[j] == m);
                        }
                    }
                    assert(v.to_set() =~= r0.storage.new);
                    assert(self@.storage == StorageModel { old: r0.storage.old.union(r0.storage.new), new: Set::empty(), ..r0.storage });
                }
                acts
            },
            None => {
                if news.len() == 0 {
                    proof {
                        assert(r0.storage.new =~= Set::empty()) by {
                            if exists|m: Map<ChannelId, bool>| r0.storage.new.contains(m) {
                                let m = choose|m: Map<ChannelId, bool>| r0.storage.new.contains(m);
                                assert(pred_set(news@).contains(m));
                            }
                        }
                        assert(self@.storage.old =~= r0.storage.old);
                        assert(self@.storage.new =~= r0.storage.new);
                        assert(round_views(acts@) =~= Seq::<RoundActionView>::empty());
                    }
                    acts
                } else {
                    let ghost all = news@;
                    let q = news.swap_remove(0);
                    proof {
                        assert(pred_set(all).contains(q@)) by {
                            assert(all[0] == q);
                        }
                    }
                    let ghost qv = q@;
                    let ghost s1 = self@;
                    self.end_round(Decision::Success(q), &mut acts);
                    proof {
                        assert(round_views(Seq::<RoundAction>::empty()) =~= Seq::<RoundActionView>::empty());
                        assert(round_views(acts@) =~= end_actions(r0, DecisionView::Success(qv)));
                        assert(ended(s1) == ended(r0));
                    }
                    acts
                }
            },
        }
    }

    /// The deadline passed: the leader ends the round with failure; any other controller
    /// tells its parent of the failure and waits on without a deadline.
    fn on_timeout(&mut self) -> (r: Vec<RoundAction>)
        requires
            old(self).wf(),
            !old(self)@.ended,
            old(self)@.round_index < usize::MAX,
        ensures
            final(self).wf(),
            event_outcome(old(self)@, RoundEvent::Timeout, final(self)@, round_views(r@)),
    {
        let mut acts: Vec<RoundAction> = Vec::new();
        assert(round_views(acts@) =~= Seq::<RoundActionView>::empty());
        match self.parent {
            None => {
                self.end_round(Decision::Failure, &mut acts);
            },
            Some(p) => {
                acts.push(RoundAction::Send(p, CommMsgContents::Failure.into_msg(self.round_index)));
                self.timed_out = true;
                assert(round_views(acts@) =~= seq![RoundActionView::Send(p, comm(self.round_index, ContentsView::Failure))]);
            },
        }
        acts
    }

    /// Takes the contents `c` of a message of this round that arrived at port `k`.
    fn on_contents(&mut self, k: Key, c: CommMsgContents) -> (r: Vec<RoundAction>)
        requires
            old(self).wf(),
            !old(self)@.ended,
            old(self)@.round_index < usize::MAX,
            contents_wf(c),
            c is SendPayload ==> (lookup(old(self)@.ports, k) matches Some(info) && info.polarity == Polarity::Getter),
        ensures
            final(self).wf(),
            contents_outcome(old(self)@, k, c@, final(self)@, round_views(r@)),
    {
        let mut acts: Vec<RoundAction> = Vec::new();
        assert(round_views(acts@) =~= Seq::<RoundActionView>::empty());
        match c {
            CommMsgContents::Failure => match self.parent {
                Some(p) => {
                    acts.push(RoundAction::Send(p, CommMsgContents::Failure.into_msg(self.round_index)));
                    assert(round_views(acts@) =~= seq![RoundActionView::Send(p, comm(self.round_index, ContentsView::Failure))]);
                    acts
                },
                None => {
                    self.end_round(Decision::Failure, &mut acts);
                    acts
                },
            },
            CommMsgContents::Announce { decision } => {
                let from_parent = match self.parent {
                    Some(p) => p == k,
                    None => false,
                };
                if !from_parent {
                    self.ended = true;
                    acts.push(RoundAction::Fail(SyncErr::AnnounceFromNonParent));
                    assert(round_views(acts@) =~= seq![RoundActionView::Fail(SyncErr::AnnounceFromNonParent)]);
                } else {
                    self.end_round(decision, &mut acts);
                }
                acts
            },
            CommMsgContents::Elaborate { partial_oracle } => {
                if !has_port(&self.children, k) {
                    self.ended = true;
                    acts.push(RoundAction::Fail(SyncErr::ElaborateFromNonChild));
                    assert(round_views(acts@) =~= seq![RoundActionView::Fail(SyncErr::ElaborateFromNonChild)]);
                    acts
                } else {
                    let ghost r0 = self@;
                    proof {
                        let j = choose|j: int| 0 <= j < self.children@.len() && self.children@[j] == k;
                        assert(self.storage.ids().contains(SubtreeId::ChildController { port: self.children@[j] }));
                        let i = choose|i: int| 0 <= i < self.storage.ids().len() && self.storage.ids()[i] == SubtreeId::ChildController { port: k };
                    }
                    self.storage.submit_and_digest_subtree_solution(SubtreeId::ChildController { port: k }, partial_oracle);
                    assert(self@ == RoundView { storage: digest(r0.storage, SubtreeId::ChildController { port: k }, c@->Elaborate_0), ..r0 });
                    self.handle_locals()
                }
            },
            CommMsgContents::SendPayload { payload_predicate, payload } => {
                let info = find_port(&self.ports, k);
                let cid = match info {
                    Some(i) => i.channel_id,
                    None => {
                        assert(false);
                        return acts;
                    },
                };
                if payload_predicate.query(cid) != Some(true) {
                    self.ended = true;
                    acts.push(RoundAction::Fail(SyncErr::PayloadPremiseExcludesTheChannel(cid)));
                    assert(round_views(acts@) =~= seq![RoundActionView::Fail(SyncErr::PayloadPremiseExcludesTheChannel(cid))]);
                } else {
                    match find_holder(&self.holders, k) {
                        None => {},
                        Some(h) => {
                            let ghost pv = payload_predicate@;
                            let ghost dv = payload@;
                            acts.push(RoundAction::Deliver(h, k, payload_predicate, payload));
                            assert(round_views(acts@) =~= seq![RoundActionView::Deliver(h, k, pv, dv)]);
                        },
                    }
                }
                acts
            },
        }
    }

    /// Takes the event `ev` of the round and says what to send, keep, hand over, or how the
    /// round ended.
    pub fn on_event(&mut self, ev: RoundEvent) -> (r: Vec<RoundAction>)
        requires
            old(self).wf(),
            !old(self)@.ended,
            old(self)@.round_index < usize::MAX,
            event_wf(ev),
            round_accepts(old(self)@, ev),
        ensures
            final(self).wf(),
            event_outcome(old(self)@, ev, final(self)@, round_views(r@)),
    {
        match ev {
            RoundEvent::Timeout => self.on_timeout(),
            RoundEvent::Received(k, msg) => {
                let ghost mv = msg@;
                match msg {
                    Msg::SetupMsg(_) => {
                        self.ended = true;
                        let mut acts: Vec<RoundAction> = Vec::new();
                        acts.push(RoundAction::Fail(SyncErr::UnexpectedSetupMsg));
                        assert(round_views(acts@) =~= seq![RoundActionView::Fail(SyncErr::UnexpectedSetupMsg)]);
                        acts
                    },
                    Msg::CommMsg(c) => {
                        let mut acts: Vec<RoundAction> = Vec::new();
                        if c.round_index < self.round_index {
                            assert(round_views(acts@) =~= Seq::<RoundActionView>::empty());
                            acts
                        } else if c.round_index > self.round_index {
                            acts.push(RoundAction::Delay(k, Msg::CommMsg(c)));
                            assert(round_views(acts@) =~= seq![RoundActionView::Delay(k, mv)]);
                            acts
                        } else {
                            self.on_contents(k, c.contents)
                        }
                    },
                }
            },
        }
    }

    /// Whether the round may take `ev` (see [`round_accepts`]).
    pub fn accepts(&self, ev: &RoundEvent) -> (r: bool)
        ensures
            r == round_accepts(self@, *ev),
    {
        match ev {
            RoundEvent::Timeout => !self.timed_out,
            RoundEvent::Received(k, Msg::CommMsg(c)) => {
                let payload = match c.contents {
                    CommMsgContents::SendPayload { .. } => true,
                    _ => false,
                };
                if c.round_index == self.round_index && payload {
                    match find_port(&self.ports, *k) {
                        Some(info) => info.polarity == Polarity::Getter,
                        None => false,
                    }
                } else {
                    true
                }
            },
            _ => true,
        }
    }

    /// Whether the round has ended (with a decision or a failure).
    pub fn has_ended(&self) -> (r: bool)
        ensures
            r == self@.ended,
    {
        self.ended
    }

    /// The index of the round (advanced once the round ends with a decision).
    pub fn round_index(&self) -> (r: usize)
        ensures
            r == self@.round_index,
    {
        self.round_index
    }

    /// The storage of the solutions of the round, for the actors that the caller runs after
    /// a [`RoundAction::Deliver`].
    pub fn storage_mut(&mut self) -> (r: &mut SolutionStorage)
        ensures
            r.model() == old(self)@.storage,
            old(self).wf() ==> r.wf(),
            final(self)@ == (RoundView { storage: final(r).model(), ..old(self)@ }),
            final(r).wf() && final(r).ids() == old(self)@.storage.ids && old(self).wf() ==> final(self).wf(),
    {
        &mut self.storage
    }
}

proof fn lemma_announce_all(cs: Seq<Key>, round: usize, d: DecisionView)
    ensures
        announce_all(cs, round, d).len() == cs.len(),
        forall|i: int| 0 <= i < cs.len() ==> #[trigger] announce_all(cs, round, d)[i]
            == RoundActionView::Send(cs[i], MsgView::Comm(round, ContentsView::Announce(d))),
    decreases cs.len(),
{
    if cs.len() > 0 {
        lemma_announce_all(cs.drop_last(), round, d);
        assert forall|i: int| 0 <= i < cs.len() implies #[trigger] announce_all(cs, round, d)[i]
            == RoundActionView::Send(cs[i], MsgView::Comm(round, ContentsView::Announce(d))) by {
            if i < cs.len() - 1 {
                assert(announce_all(cs.drop_last(), round, d)[i] == RoundActionView::Send(cs.drop_last()[i], MsgView::Comm(round, ContentsView::Announce(d))));
            }
        }
    }
}

/// A controller without a parent that hears of a failure in its current round ends the
/// round with the failure: it announces the failure to each of its children, in order,
/// then ends with it, and moves on to the next round; it does exactly what it does when
/// its own time runs out.
pub proof fn law_leader_ends_on_failure(r: RoundView, k: Key, m: Msg, f: RoundView, a: Seq<RoundActionView>)
    requires
        r.parent is None,
        r.round_index < usize::MAX,
        m@ == MsgView::Comm(r.round_index, ContentsView::Failure),
        event_outcome(r, RoundEvent::Received(k, m), f, a),
    ensures
        f.ended,
        f.round_index == r.round_index + 1,
        a.len() == r.children.len() + 1,
        forall|i: int| 0 <= i < r.children.len() ==> #[trigger] a[i]
            == RoundActionView::Send(r.children[i], MsgView::Comm(r.round_index, ContentsView::Announce(DecisionView::Failure))),
        a[r.children.len() as int] == RoundActionView::End(DecisionView::Failure),
        forall|f2: RoundView, a2: Seq<RoundActionView>| event_outcome(r, RoundEvent::Timeout, f2, a2) ==> f2 == f && a2 == a,
{
    lemma_announce_all(r.children, r.round_index, DecisionView::Failure);
    let an = announce_all(r.children, r.round_index, DecisionView::Failure);
    assert(a == an.push(RoundActionView::End(DecisionView::Failure)));
    assert forall|i: int| 0 <= i < r.children.len() implies #[trigger] a[i]
        == RoundActionView::Send(r.children[i], MsgView::Comm(r.round_index, ContentsView::Announce(DecisionView::Failure))) by {
        assert(a[i] == an[i]);
    }
}

} // verus!
