use vstd::prelude::*;
use crate::common::{ChannelId, Key, Payload};
use crate::endpoint::{CommMsgContents, Msg, MsgView};
use crate::native::{entries_view, entry_index, put_entry, put_payload};
use crate::predicate::{assigns_beyond, consistent, satisfies_map, CommonSatResult, Predicate};
use crate::round::lookup;
use crate::solutions::{digest, same_predicate, SolutionStorage, StorageModel, SubtreeId};
use crate::eval::copy_bytes;
use crate::endpoint::ContentsView;
use crate::ast::{Heap, StatementId};
use crate::eval::{InputValue, MessageValue, OutputValue, Value, ValueView};
use crate::prompt::{step_spec, Prompt};
use crate::store::{firing_from, inbox_from, port_key, ContinuationView, EvalContext, EvalContinuation, Outcome, PolyAnswers};
use vstd::pervasive::unreached;

verus! {

/// A speculative branch of a protocol component in a round: the payloads it put and got,
/// by port, and the state of the component.
pub struct BranchP<S> {
    pub outbox: Vec<(Key, Payload)>,
    pub inbox: Vec<(Key, Payload)>,
    pub state: S,
}

/// A [`BranchP`] as mathematics sees it.
pub struct BranchPView<S> {
    pub outbox: Seq<(Key, Seq<u8>)>,
    pub inbox: Seq<(Key, Seq<u8>)>,
    pub state: S,
}

impl<S> View for BranchP<S> {
    type V = BranchPView<S>;

    open spec fn view(&self) -> BranchPView<S> {
        BranchPView { outbox: entries_view(self.outbox@), inbox: entries_view(self.inbox@), state: self.state }
    }
}

/// Why running a branch of a protocol component stopped.
pub enum PolyBlocker {
    /// The branch contradicts itself: it is dropped.
    Inconsistent,
    /// It must get a message at the port, which has not come.
    CouldntReadMsg(Key),
    /// It asks whether the port fires, which its predicate does not say.
    CouldntCheckFiring(Key),
    /// It reached the end of the synchronous block.
    SyncBlockEnd,
    /// It puts the payload at the port.
    PutMsg(Key, Payload),
}

/// A [`PolyBlocker`] as mathematics sees it.
pub enum PolyBlockerView {
    Inconsistent,
    CouldntReadMsg(Key),
    CouldntCheckFiring(Key),
    SyncBlockEnd,
    PutMsg(Key, Seq<u8>),
}

impl View for PolyBlocker {
    type V = PolyBlockerView;

    open spec fn view(&self) -> PolyBlockerView {
        match self {
            PolyBlocker::Inconsistent => PolyBlockerView::Inconsistent,
            PolyBlocker::CouldntReadMsg(k) => PolyBlockerView::CouldntReadMsg(*k),
            PolyBlocker::CouldntCheckFiring(k) => PolyBlockerView::CouldntCheckFiring(*k),
            PolyBlocker::SyncBlockEnd => PolyBlockerView::SyncBlockEnd,
            PolyBlocker::PutMsg(k, p) => PolyBlockerView::PutMsg(*k, p@),
        }
    }
}

/// What a step inside a synchronous block that does more than step means for the branch:
/// `None` where the block cannot end that way (a value returned, the component ended, a
/// nested block, a new component, or a port operation on a value that is no port).
pub open spec fn sync_blocker(o: Outcome) -> Option<PolyBlockerView> {
    match o {
        Outcome::Stop(ContinuationView::Inconsistent) => Some(PolyBlockerView::Inconsistent),
        Outcome::Stop(ContinuationView::SyncBlockEnd) => Some(PolyBlockerView::SyncBlockEnd),
        Outcome::Stop(ContinuationView::BlockFires(p)) => match port_key(p) {
            Some(k) => Some(PolyBlockerView::CouldntCheckFiring(k)),
            None => None,
        },
        Outcome::Stop(ContinuationView::BlockGet(p)) => match port_key(p) {
            Some(k) => Some(PolyBlockerView::CouldntReadMsg(k)),
            None => None,
        },
        Outcome::Stop(ContinuationView::Put(p, m)) => match (port_key(p), m) {
            (Some(_), ValueView::Message(None)) => Some(PolyBlockerView::Inconsistent),
            (Some(k), ValueView::Message(Some(b))) => Some(PolyBlockerView::PutMsg(k, b)),
            _ => None,
        },
        _ => None,
    }
}

/// Running from statement `pos` with variables `st` for at most `fuel` steps: the outcome of
/// the first step that does more than step (`None` if the fuel runs out first), and the
/// statement and variables after it.
pub open spec fn sync_run_spec(h: Heap, ctx: EvalContext, pos: Option<StatementId>, st: Map<usize, ValueView>, fuel: nat) -> (Option<Outcome>, Option<StatementId>, Map<usize, ValueView>)
    decreases fuel,
{
    if fuel == 0 {
        (None, pos, st)
    } else {
        let (o, p2, s2) = step_spec(h, ctx, pos, st);
        if o == Outcome::Stop(ContinuationView::Stepping) {
            sync_run_spec(h, ctx, p2, s2, (fuel - 1) as nat)
        } else {
            (Some(o), p2, s2)
        }
    }
}

/// No step of the run of [`sync_run_spec`] panics, and the run stops, if it stops, in a way
/// that a synchronous block can stop.
pub open spec fn sync_run_ok(h: Heap, ctx: EvalContext, pos: Option<StatementId>, st: Map<usize, ValueView>, fuel: nat) -> bool
    decreases fuel,
{
    if fuel == 0 {
        true
    } else {
        let (o, p2, s2) = step_spec(h, ctx, pos, st);
        &&& !(o is Panic)
        &&& if o == Outcome::Stop(ContinuationView::Stepping) {
            sync_run_ok(h, ctx, p2, s2, (fuel - 1) as nat)
        } else {
            sync_blocker(o) is Some
        }
    }
}

/// Runs a branch of a component inside its synchronous block, for at most `fuel` steps,
/// until it blocks: on a port whose firing or message it does not know, on a put, at the
/// end of the block, or because it contradicts itself. `None` when the fuel runs out.
pub fn sync_run(prompt: &mut Prompt, h: &Heap, ctx: &EvalContext, fuel: usize) -> (r: Option<PolyBlocker>)
    requires
        h.wf(),
        sync_run_ok(*h, *ctx, old(prompt).position, old(prompt).store@, fuel as nat),
    ensures
        final(prompt).definition == old(prompt).definition,
        final(prompt).position == sync_run_spec(*h, *ctx, old(prompt).position, old(prompt).store@, fuel as nat).1,
        final(prompt).store@ == sync_run_spec(*h, *ctx, old(prompt).position, old(prompt).store@, fuel as nat).2,
        match sync_run_spec(*h, *ctx, old(prompt).position, old(prompt).store@, fuel as nat).0 {
            None => r is None,
            Some(o) => r matches Some(b) && sync_blocker(o) == Some(b@),
        },
{
    let mut n: usize = fuel;
    loop
        invariant
            h.wf(),
            n <= fuel,
            prompt.definition == old(prompt).definition,
            sync_run_spec(*h, *ctx, old(prompt).position, old(prompt).store@, fuel as nat)
                == sync_run_spec(*h, *ctx, prompt.position, prompt.store@, n as nat),
            sync_run_ok(*h, *ctx, prompt.position, prompt.store@, n as nat),
        decreases n,
    {
        if n == 0 {
            return None;
        }
        let ghost pos = prompt.position;
        let ghost st = prompt.store@;
        let r = prompt.step(h, ctx);
        assert(sync_run_spec(*h, *ctx, pos, st, n as nat) == (if step_spec(*h, *ctx, pos, st).0 == Outcome::Stop(ContinuationView::Stepping) {
            sync_run_spec(*h, *ctx, step_spec(*h, *ctx, pos, st).1, step_spec(*h, *ctx, pos, st).2, (n - 1) as nat)
        } else {
            (Some(step_spec(*h, *ctx, pos, st).0), step_spec(*h, *ctx, pos, st).1, step_spec(*h, *ctx, pos, st).2)
        }));
        match r {
            Ok(_) => {
                unreached()
            },
            Err(c) => {
                match c {
                    EvalContinuation::Stepping => {
                        n = n - 1;
                    },
                    EvalContinuation::Inconsistent => {
                        return Some(PolyBlocker::Inconsistent);
                    },
                    EvalContinuation::SyncBlockEnd => {
                        return Some(PolyBlocker::SyncBlockEnd);
                    },
                    EvalContinuation::BlockFires(port) => {
                        match port {
                            Value::Output(OutputValue(k)) => return Some(PolyBlocker::CouldntCheckFiring(k)),
                            Value::Input(InputValue(k)) => return Some(PolyBlocker::CouldntCheckFiring(k)),
                            _ => unreached(),
                        }
                    },
                    EvalContinuation::BlockGet(port) => {
                        match port {
                            Value::Output(OutputValue(k)) => return Some(PolyBlocker::CouldntReadMsg(k)),
                            Value::Input(InputValue(k)) => return Some(PolyBlocker::CouldntReadMsg(k)),
                            _ => unreached(),
                        }
                    },
                    EvalContinuation::Put(port, message) => {
                        let key = match port {
                            Value::Output(OutputValue(k)) => k,
                            Value::Input(InputValue(k)) => k,
                            _ => unreached(),
                        };
                        match message {
                            Value::Message(MessageValue(None)) => return Some(PolyBlocker::Inconsistent),
                            Value::Message(MessageValue(Some(buffer))) => return Some(PolyBlocker::PutMsg(key, buffer)),
                            _ => unreached(),
                        }
                    },
                    _ => unreached(),
                }
            },
        }
    }
}

/// The answer that a branch under predicate `p` gives when asked whether port `k` fires: what
/// its predicate says of the port's channel, if `k` is a port of the component whose channel
/// is known.
pub open spec fn firing_answer(p: Map<ChannelId, bool>, ek: Seq<Key>, ch: Seq<(Key, ChannelId)>, k: Key) -> Option<bool> {
    if ek.contains(k) && lookup(ch, k) is Some && p.contains_key(chan(ch, k)) {
        Some(p[chan(ch, k)])
    } else {
        None
    }
}

proof fn lemma_firing_push(s: Seq<(Key, bool)>, x: (Key, bool), k: Key, i: int)
    requires
        0 <= i <= s.len(),
    ensures
        firing_from(s.push(x), k, i) == (match firing_from(s, k, i) {
            Some(b) => Some(b),
            None => if x.0 == k { Some(x.1) } else { None },
        }),
    decreases s.len() - i,
{
    assert(s.push(x)[s.len() as int] == x);
    if i < s.len() {
        assert(s.push(x)[i] == s[i]);
        lemma_firing_push(s, x, k, i + 1);
    }
}

proof fn lemma_inbox_entries(s: Seq<(Key, Vec<u8>)>, k: Key, i: int)
    requires
        0 <= i <= s.len(),
    ensures
        inbox_from(s, k, i) == (if entry_index(entries_view(s), k, i) >= 0 {
            Some(entries_view(s)[entry_index(entries_view(s), k, i)].1)
        } else {
            None
        }),
    decreases s.len() - i,
{
    if i < s.len() {
        lemma_inbox_entries(s, k, i + 1);
    }
}

/// What a branch under `predicate`, with the messages `inbox`, answers to the evaluator
/// inside its synchronous block: for each port of the component, whether it fires, where the
/// predicate says so; and the messages it got.
pub fn poly_answers(predicate: &Predicate, inbox: &Vec<(Key, Payload)>, ekeys: &Vec<Key>, ch: &Vec<(Key, ChannelId)>) -> (r: PolyAnswers)
    requires
        predicate.wf(),
    ensures
        forall|k: Key| #[trigger] firing_from(r.firing@, k, 0) == firing_answer(predicate@, ekeys@, ch@, k),
        forall|k: Key| #[trigger] inbox_from(r.inbox@, k, 0) == (if entry_index(entries_view(inbox@), k, 0) >= 0 {
            Some(entries_view(inbox@)[entry_index(entries_view(inbox@), k, 0)].1)
        } else {
            None
        }),
{
    let mut firing: Vec<(Key, bool)> = Vec::new();
    let mut i: usize = 0;
    while i < ekeys.len()
        invariant
            predicate.wf(),
            i <= ekeys@.len(),
            forall|k: Key| #[trigger] firing_from(firing@, k, 0) == firing_answer(predicate@, ekeys@.take(i as int), ch@, k),
        decreases ekeys@.len() - i,
    {
        let e = ekeys[i];
        let ghost before = firing@;
        let ghost t0 = ekeys@.take(i as int);
        let ghost t1 = ekeys@.take(i + 1);
        assert(t1 =~= t0.push(e));
        assert forall|k: Key| #[trigger] t1.contains(k) <==> (t0.contains(k) || k == e) by {
            if t1.contains(k) {
                let j = choose|j: int| 0 <= j < t1.len() && t1[j] == k;
                if j < t0.len() {
                    assert(t0[j] == k);
                }
            }
            if t0.contains(k) {
                let j = choose|j: int| 0 <= j < t0.len() && t0[j] == k;
                assert(t1[j] == k);
            }
            if k == e {
                assert(t1[i as int] == k);
            }
        }
        match find_chan(ch, e) {
            Some(c) => {
                match predicate.query(c) {
                    Some(b) => {
                        firing.push((e, b));
                        proof {
                            assert forall|k: Key| #[trigger] firing_from(firing@, k, 0) == firing_answer(predicate@, t1, ch@, k) by {
                                lemma_firing_push(before, (e, b), k, 0);
                            }
                        }
                    },
                    None => {
                        assert forall|k: Key| #[trigger] firing_from(firing@, k, 0) == firing_answer(predicate@, t1, ch@, k) by {
                            assert(firing_from(before, k, 0) == firing_answer(predicate@, t0, ch@, k));
                        }
                    },
                }
            },
            None => {
                assert forall|k: Key| #[trigger] firing_from(firing@, k, 0) == firing_answer(predicate@, t1, ch@, k) by {
                    assert(firing_from(before, k, 0) == firing_answer(predicate@, t0, ch@, k));
                }
            },
        }
        i = i + 1;
    }
    assert(ekeys@.take(ekeys@.len() as int) =~= ekeys@);
    let mut copy: Vec<(Key, Vec<u8>)> = Vec::new();
    let mut j: usize = 0;
    while j < inbox.len()
        invariant
            j <= inbox@.len(),
            copy@.len() == j,
            forall|m: int| 0 <= m < j ==> (#[trigger] copy@[m]).0 == inbox@[m].0 && copy@[m].1@ == inbox@[m].1@,
        decreases inbox@.len() - j,
    {
        copy.push((inbox[j].0, copy_bytes(&inbox[j].1)));
        j += 1;
    }
    proof {
        assert(entries_view(copy@) =~= entries_view(inbox@));
        assert forall|k: Key| #[trigger] inbox_from(copy@, k, 0) == (if entry_index(entries_view(inbox@), k, 0) >= 0 {
            Some(entries_view(inbox@)[entry_index(entries_view(inbox@), k, 0)].1)
        } else {
            None
        }) by {
            lemma_inbox_entries(copy@, k, 0);
        }
    }
    PolyAnswers { firing, inbox: copy }
}

/// How running the branches of a protocol component ended.
#[derive(Debug, Copy, Clone, PartialEq, Eq, Structural)]
pub enum SyncRunResult {
    BlockingForRecv,
    AllBranchesComplete,
    NoBranches,
}

/// The branches of a protocol component during a round: those waiting for a message, and
/// those that reached the end of their synchronous block; each under its predicate.
pub struct PolyP<S> {
    pub incomplete: Vec<(Predicate, BranchP<S>)>,
    pub complete: Vec<(Predicate, BranchP<S>)>,
    pub ekeys: Vec<Key>,
}

/// Branches by predicate, as mathematics sees them.
pub open spec fn pview<S>(s: Seq<(Predicate, BranchP<S>)>) -> Seq<(Map<ChannelId, bool>, BranchPView<S>)> {
    s.map_values(|e: (Predicate, BranchP<S>)| (e.0@, e.1@))
}

/// Every predicate of the branches is well formed.
pub open spec fn pwf<S>(s: Seq<(Predicate, BranchP<S>)>) -> bool {
    forall|i: int| 0 <= i < s.len() ==> (#[trigger] s[i]).0.wf()
}

/// The position of the first entry under predicate `p` from `i` on, or -1.
pub open spec fn pair_index<V>(s: Seq<(Map<ChannelId, bool>, V)>, p: Map<ChannelId, bool>, i: int) -> int
    decreases s.len() - i,
{
    if i < 0 || i >= s.len() {
        -1
    } else if s[i].0 == p {
        i
    } else {
        pair_index(s, p, i + 1)
    }
}

/// `s` with `v` under predicate `p`: the entry there replaced, or added at the end.
pub open spec fn put_pair<V>(s: Seq<(Map<ChannelId, bool>, V)>, p: Map<ChannelId, bool>, v: V) -> Seq<(Map<ChannelId, bool>, V)> {
    let i = pair_index(s, p, 0);
    if i >= 0 {
        s.update(i, (p, v))
    } else {
        s.push((p, v))
    }
}

/// The branch got or put something at port `k`.
pub open spec fn fired<S>(b: BranchPView<S>, k: Key) -> bool {
    entry_index(b.inbox, k, 0) >= 0 || entry_index(b.outbox, k, 0) >= 0
}

/// The channel of port `k`.
pub open spec fn chan(ch: Seq<(Key, ChannelId)>, k: Key) -> ChannelId {
    lookup(ch, k)->Some_0
}

/// Checking, from the `i`th port of the component on, that a branch under `p` that reached
/// the end of its block fired every port its predicate says fires: `None` where it did not
/// (the branch is dropped), else its predicate with every port not yet assigned set not to
/// fire.
pub open spec fn end_scan<S>(p: Map<ChannelId, bool>, b: BranchPView<S>, ek: Seq<Key>, ch: Seq<(Key, ChannelId)>, i: int) -> Option<Map<ChannelId, bool>>
    decreases ek.len() - i,
{
    if i < 0 || i >= ek.len() {
        Some(p)
    } else {
        let c = chan(ch, ek[i]);
        if p.contains_key(c) && p[c] {
            if !fired(b, ek[i]) {
                None
            } else {
                end_scan(p, b, ek, ch, i + 1)
            }
        } else if p.contains_key(c) {
            end_scan(p, b, ek, ch, i + 1)
        } else {
            end_scan(p.insert(c, false), b, ek, ch, i + 1)
        }
    }
}

/// The check of [`end_scan`] meets only known ports, and no port that the predicate says
/// does not fire (or leaves open) but that the branch fired.
pub open spec fn end_scan_ok<S>(p: Map<ChannelId, bool>, b: BranchPView<S>, ek: Seq<Key>, ch: Seq<(Key, ChannelId)>, i: int) -> bool
    decreases ek.len() - i,
{
    if i < 0 || i >= ek.len() {
        true
    } else {
        let c = chan(ch, ek[i]);
        &&& lookup(ch, ek[i]) is Some
        &&& if p.contains_key(c) && p[c] {
            fired(b, ek[i]) ==> end_scan_ok(p, b, ek, ch, i + 1)
        } else if p.contains_key(c) {
            !fired(b, ek[i]) && end_scan_ok(p, b, ek, ch, i + 1)
        } else {
            !fired(b, ek[i]) && end_scan_ok(p.insert(c, false), b, ek, ch, i + 1)
        }
    }
}

/// The messages, with their views.
pub open spec fn sends_view(s: Seq<(Key, Msg)>) -> Seq<(Key, MsgView)> {
    s.map_values(|e: (Key, Msg)| (e.0, e.1@))
}

/// The channel of port `k`, if it is known.
pub(crate) fn find_chan(ch: &Vec<(Key, ChannelId)>, k: Key) -> (r: Option<ChannelId>)
    ensures
        r == lookup(ch@, k),
{
    let mut i: usize = 0;
    assert(ch@.skip(0) =~= ch@);
    while i < ch.len()
        invariant
            i <= ch@.len(),
            lookup(ch@, k) == lookup(ch@.skip(i as int), k),
        decreases ch@.len() - i,
    {
        assert(ch@.skip(i as int).drop_first() =~= ch@.skip(i + 1));
        if ch[i].0 == k {
            return Some(ch[i].1);
        }
        i = i + 1;
    }
    None
}

/// Whether the entries have one for port `k`.
fn has_entry(v: &Vec<(Key, Payload)>, k: Key) -> (r: bool)
    ensures
        r == (entry_index(entries_view(v@), k, 0) >= 0),
{
    let ghost s = entries_view(v@);
    let mut i: usize = 0;
    while i < v.len()
        invariant
            i <= v@.len(),
            s == entries_view(v@),
            entry_index(s, k, 0) == entry_index(s, k, i as int),
        decreases v@.len() - i,
    {
        if v[i].0 == k {
            return true;
        }
        i += 1;
    }
    false
}

/// A copy of the entries.
fn copy_entries(v: &Vec<(Key, Payload)>) -> (r: Vec<(Key, Payload)>)
    ensures
        entries_view(r@) == entries_view(v@),
{
    let mut r: Vec<(Key, Payload)> = Vec::new();
    let mut i: usize = 0;
    while i < v.len()
        invariant
            i <= v@.len(),
            r@.len() == i,
            forall|j: int| 0 <= j < i ==> (#[trigger] r@[j]).0 == v@[j].0 && r@[j].1@ == v@[j].1@,
        decreases v@.len() - i,
    {
        r.push((v[i].0, copy_bytes(&v[i].1)));
        i += 1;
    }
    assert(entries_view(r@) =~= entries_view(v@));
    r
}

/// Puts branch `b` under predicate `p`.
fn put_branch_p<S>(v: &mut Vec<(Predicate, BranchP<S>)>, p: Predicate, b: BranchP<S>)
    requires
        pwf(old(v)@),
        p.wf(),
    ensures
        pwf(final(v)@),
        pview(final(v)@) == put_pair(pview(old(v)@), p@, b@),
{
    let ghost s = pview(v@);
    let mut i: usize = 0;
    while i < v.len()
        invariant
            i <= v@.len(),
            s == pview(v@),
            s == pview(old(v)@),
            pwf(v@),
            p.wf(),
            pair_index(s, p@, 0) == pair_index(s, p@, i as int),
        decreases v@.len() - i,
    {
        assert(v@[i as int].0.wf());
        if same_predicate(&v[i].0, &p) {
            let ghost pv = p@;
            let ghost bv = b@;
            v.set(i, (p, b));
            assert(pview(v@) =~= s.update(i as int, (pv, bv)));
            return;
        }
        i += 1;
    }
    let ghost pv = p@;
    let ghost bv = b@;
    v.push((p, b));
    assert(pview(v@) =~= s.push((pv, bv)));
}

/// What a branch put and got, port by port.
pub type Exchanged = (Seq<(Key, Seq<u8>)>, Seq<(Key, Seq<u8>)>);

/// Branches by predicate, with what each put and got (their states left aside).
pub open spec fn mview<S>(s: Seq<(Predicate, BranchP<S>)>) -> Seq<(Map<ChannelId, bool>, Exchanged)> {
    s.map_values(|e: (Predicate, BranchP<S>)| (e.0@, (e.1@.outbox, e.1@.inbox)))
}

/// Feeding a payload `pay` for port `k`, sent under predicate `pp`, to the waiting branches
/// `s[i..]`: the branches to run next, in order, and those that go on waiting. A branch whose
/// predicate covers `pp` gets the payload and runs; one that `pp` or their union extends is
/// forked: the fork, under the extended predicate, gets the payload and runs, the branch
/// itself waits on; one that contradicts `pp` waits on untouched.
pub open spec fn feed_spec(s: Seq<(Map<ChannelId, bool>, Exchanged)>, k: Key, pp: Map<ChannelId, bool>, pay: Seq<u8>, i: int) -> (Seq<(Map<ChannelId, bool>, Exchanged)>, Seq<(Map<ChannelId, bool>, Exchanged)>)
    decreases s.len() - i,
{
    if i < 0 || i >= s.len() {
        (Seq::empty(), Seq::empty())
    } else {
        let (p, (out, inb)) = s[i];
        let rest = feed_spec(s, k, pp, pay, i + 1);
        let got = (out, put_entry(inb, k, pay));
        if !consistent(p, pp) {
            (rest.0, seq![s[i]] + rest.1)
        } else if !assigns_beyond(pp, p) {
            (seq![(p, got)] + rest.0, rest.1)
        } else if assigns_beyond(p, pp) {
            (seq![(p.union_prefer_right(pp), got)] + rest.0, seq![s[i]] + rest.1)
        } else {
            (seq![(pp, got)] + rest.0, seq![s[i]] + rest.1)
        }
    }
}

/// No waiting branch from `s[i..]` that agrees with `pp` got anything at port `k` yet.
pub open spec fn feed_ok(s: Seq<(Map<ChannelId, bool>, Exchanged)>, k: Key, pp: Map<ChannelId, bool>) -> bool {
    forall|j: int| 0 <= j < s.len() && consistent((#[trigger] s[j]).0, pp) ==> entry_index(s[j].1.1, k, 0) < 0
}

proof fn lemma_pair_index_views<S>(s: Seq<(Predicate, BranchP<S>)>, p: Map<ChannelId, bool>, i: int)
    requires
        0 <= i <= s.len(),
    ensures
        pair_index(pview(s), p, i) == pair_index(mview(s), p, i),
    decreases s.len() - i,
{
    if i < s.len() {
        lemma_pair_index_views(s, p, i + 1);
    }
}

/// Every branch that a payload is fed to runs under a predicate that satisfies the
/// payload's predicate, and got the payload at its port.
pub proof fn law_fed_branches_satisfy_payload(s: Seq<(Map<ChannelId, bool>, Exchanged)>, k: Key, pp: Map<ChannelId, bool>, pay: Seq<u8>, i: int)
    requires
        0 <= i <= s.len(),
    ensures
        forall|j: int| 0 <= j < feed_spec(s, k, pp, pay, i).0.len() ==> {
            let e = #[trigger] feed_spec(s, k, pp, pay, i).0[j];
            &&& satisfies_map(e.0, pp)
            &&& entry_index(e.1.1, k, 0) >= 0
            &&& e.1.1[entry_index(e.1.1, k, 0)] == (k, pay)
        },
    decreases s.len() - i,
{
    if i < s.len() {
        law_fed_branches_satisfy_payload(s, k, pp, pay, i + 1);
        let (p, (out, inb)) = s[i];
        lemma_put_entry_finds(inb, k, pay);
        let rest = feed_spec(s, k, pp, pay, i + 1);
        let got = (out, put_entry(inb, k, pay));
        if consistent(p, pp) {
            let q = if !assigns_beyond(pp, p) { p } else if assigns_beyond(p, pp) { p.union_prefer_right(pp) } else { pp };
            assert(satisfies_map(q, pp)) by {
                assert forall|c: ChannelId| #[trigger] pp.contains_key(c) implies q.contains_key(c) && q[c] == pp[c] by {
                    if !assigns_beyond(pp, p) {
                        assert(p.contains_key(c));
                    }
                }
            }
            let x = (q, got);
            assert(feed_spec(s, k, pp, pay, i).0 =~= seq![x] + rest.0);
            assert forall|j: int| 0 <= j < feed_spec(s, k, pp, pay, i).0.len() implies {
                let e = #[trigger] feed_spec(s, k, pp, pay, i).0[j];
                &&& satisfies_map(e.0, pp)
                &&& entry_index(e.1.1, k, 0) >= 0
                &&& e.1.1[entry_index(e.1.1, k, 0)] == (k, pay)
            } by {
                if j > 0 {
                    assert(feed_spec(s, k, pp, pay, i).0[j] == rest.0[j - 1]);
                }
            }
        }
    }
}

/// After putting `v` for `k`, the first entry for `k` is `(k, v)`.
proof fn lemma_put_entry_finds(s: Seq<(Key, Seq<u8>)>, k: Key, v: Seq<u8>)
    ensures
        entry_index(put_entry(s, k, v), k, 0) >= 0,
        put_entry(s, k, v)[entry_index(put_entry(s, k, v), k, 0)] == (k, v),
{
    lemma_entry_index_range(s, k, 0);
    let i = entry_index(s, k, 0);
    let t = put_entry(s, k, v);
    if i >= 0 {
        lemma_entry_index_same(t, k, 0, i);
    } else {
        lemma_entry_index_same(t, k, 0, s.len() as int);
    }
}

proof fn lemma_entry_index_range(s: Seq<(Key, Seq<u8>)>, k: Key, i: int)
    requires
        0 <= i,
    ensures
        entry_index(s, k, i) == -1 || (i <= entry_index(s, k, i) < s.len() && s[entry_index(s, k, i)].0 == k
            && forall|m: int| i <= m < entry_index(s, k, i) ==> s[m].0 != k),
        entry_index(s, k, i) == -1 ==> forall|m: int| i <= m < s.len() ==> s[m].0 != k,
    decreases s.len() - i,
{
    if i < s.len() {
        lemma_entry_index_range(s, k, i + 1);
    }
}

/// `t` has no entry for `k` from `i` to `stop` and one at `stop`: the first entry for `k`
/// in `t` from `i` on is at `stop`.
proof fn lemma_entry_index_same(t: Seq<(Key, Seq<u8>)>, k: Key, i: int, stop: int)
    requires
        0 <= i <= stop < t.len(),
        t[stop].0 == k,
        forall|m: int| i <= m < stop ==> t[m].0 != k,
    ensures
        entry_index(t, k, i) == stop,
    decreases stop - i,
{
    if i < stop {
        lemma_entry_index_same(t, k, i + 1, stop);
    }
}

/// Where the first branch under predicate `p` stands, if there is one.
fn find_branch<S>(v: &Vec<(Predicate, BranchP<S>)>, p: &Predicate) -> (r: Option<usize>)
    requires
        pwf(v@),
        p.wf(),
    ensures
        r matches Some(i) ==> i == pair_index(pview(v@), p@, 0) && i == pair_index(mview(v@), p@, 0) && i < v@.len(),
        r is None ==> pair_index(pview(v@), p@, 0) < 0 && pair_index(mview(v@), p@, 0) < 0,
{
    proof {
        lemma_pair_index_views(v@, p@, 0);
    }
    let mut i: usize = 0;
    while i < v.len()
        invariant
            i <= v@.len(),
            pwf(v@),
            p.wf(),
            pair_index(pview(v@), p@, 0) == pair_index(pview(v@), p@, i as int),
            pair_index(pview(v@), p@, 0) == pair_index(mview(v@), p@, 0),
        decreases v@.len() - i,
    {
        assert(v@[i as int].0.wf());
        if same_predicate(&v[i].0, p) {
            assert(pview(v@)[i as int].0 == v@[i as int].0@);
            assert(pair_index(pview(v@), p@, i as int) == i as int);
            return Some(i);
        }
        i += 1;
    }
    None
}

/// A protocol component between rounds: its state and its ports.
pub struct MonoP<S> {
    pub state: S,
    pub ekeys: Vec<Key>,
}

/// The position of the first branch from `i` on whose predicate the decision satisfies, or -1.
pub open spec fn first_satisfied<V>(s: Seq<(Map<ChannelId, bool>, V)>, decision: Map<ChannelId, bool>, i: int) -> int
    decreases s.len() - i,
{
    if i < 0 || i >= s.len() {
        -1
    } else if satisfies_map(decision, s[i].0) {
        i
    } else {
        first_satisfied(s, decision, i + 1)
    }
}

/// The entries `t` after putting the entries `s[i..]` in order, each replacing any entry for
/// its port.
pub open spec fn put_all(t: Seq<(Key, Seq<u8>)>, s: Seq<(Key, Seq<u8>)>, i: int) -> Seq<(Key, Seq<u8>)>
    decreases s.len() - i,
{
    if i < 0 || i >= s.len() {
        t
    } else {
        put_all(put_entry(t, s[i].0, s[i].1), s, i + 1)
    }
}

/// Puts each of the entries `s` into `t`, in order.
fn put_entries(t: &mut Vec<(Key, Payload)>, s: &Vec<(Key, Payload)>)
    ensures
        entries_view(final(t)@) == put_all(entries_view(old(t)@), entries_view(s@), 0),
{
    let ghost sv = entries_view(s@);
    let mut i: usize = 0;
    while i < s.len()
        invariant
            i <= s@.len(),
            sv == entries_view(s@),
            put_all(entries_view(old(t)@), sv, 0) == put_all(entries_view(t@), sv, i as int),
        decreases s@.len() - i,
    {
        put_payload(t, s[i].0, copy_bytes(&s[i].1));
        i += 1;
    }
}

impl<S> MonoP<S> {
    /// The component entering a round: one branch, under the trivial predicate, that has put
    /// and got nothing yet.
    pub fn into_poly(self) -> (r: PolyP<S>)
        ensures
            r.ekeys == self.ekeys,
            r.complete@.len() == 0,
            pwf(r.incomplete@),
            pview(r.incomplete@) == seq![(Map::<ChannelId, bool>::empty(), BranchPView { outbox: Seq::<(Key, Seq<u8>)>::empty(), inbox: Seq::<(Key, Seq<u8>)>::empty(), state: self.state })],
    {
        let ghost st = self.state;
        let mut incomplete: Vec<(Predicate, BranchP<S>)> = Vec::new();
        incomplete.push((Predicate::new_trivial(), BranchP { outbox: Vec::new(), inbox: Vec::new(), state: self.state }));
        let r = PolyP { incomplete, complete: Vec::new(), ekeys: self.ekeys };
        assert(r.incomplete@[0].1@.outbox =~= Seq::<(Key, Seq<u8>)>::empty());
        assert(r.incomplete@[0].1@.inbox =~= Seq::<(Key, Seq<u8>)>::empty());
        assert(pview(r.incomplete@) =~= seq![(Map::<ChannelId, bool>::empty(), BranchPView { outbox: Seq::<(Key, Seq<u8>)>::empty(), inbox: Seq::<(Key, Seq<u8>)>::empty(), state: st })]);
        r
    }
}

impl<S: Clone> PolyP<S> {
    /// Checks that a branch under `p` that reached the end of its block fired every port its
    /// predicate says fires (see [`end_scan`]).
    fn end_check(&self, p: Predicate, b: &BranchP<S>, ch: &Vec<(Key, ChannelId)>) -> (r: Option<Predicate>)
        requires
            p.wf(),
            end_scan_ok(p@, b@, self.ekeys@, ch@, 0),
        ensures
            r matches Some(q) ==> q.wf() && end_scan(p@, b@, self.ekeys@, ch@, 0) == Some(q@),
            r is None ==> end_scan(p@, b@, self.ekeys@, ch@, 0) is None,
    {
        let mut q = p;
        let ghost p0 = q@;
        let mut i: usize = 0;
        while i < self.ekeys.len()
            invariant
                i <= self.ekeys@.len(),
                q.wf(),
                p0 == p@,
                end_scan(p0, b@, self.ekeys@, ch@, 0) == end_scan(q@, b@, self.ekeys@, ch@, i as int),
                end_scan_ok(q@, b@, self.ekeys@, ch@, i as int),
            decreases self.ekeys@.len() - i,
        {
            let e = self.ekeys[i];
            let c = match find_chan(ch, e) {
                Some(c) => c,
                None => {
                    assert(false);
                    return None;
                },
            };
            let did_fire = has_entry(&b.inbox, e) || has_entry(&b.outbox, e);
            assert(c == chan(ch@, self.ekeys@[i as int]));
            assert(did_fire == fired(b@, self.ekeys@[i as int]));
            match q.query(c) {
                Some(true) => {
                    if !did_fire {
                        assert(end_scan(q@, b@, self.ekeys@, ch@, i as int) is None);
                        return None;
                    }
                },
                Some(false) => {},
                None => {
                    q.replace_assignment(c, false);
                },
            }
            i = i + 1;
        }
        Some(q)
    }

    /// Takes the blocker at which running the branch `branch` under `predicate` stopped:
    /// keeps the branch waiting for a message, splits it on a port whose firing it asks,
    /// records it as complete (and its predicate as a solution of subtree `subtree`), or puts
    /// its payload. Returns the branches to run next, in order, and the messages to send.
    pub fn after_run(
        &mut self,
        predicate: Predicate,
        branch: BranchP<S>,
        blocker: PolyBlocker,
        ch: &Vec<(Key, ChannelId)>,
        subtree: SubtreeId,
        round_index: usize,
        storage: &mut SolutionStorage,
    ) -> (r: (Vec<(Predicate, BranchP<S>)>, Vec<(Key, Msg)>))
        requires
            pwf(old(self).incomplete@),
            pwf(old(self).complete@),
            predicate.wf(),
            old(storage).wf(),
            match blocker {
                PolyBlocker::CouldntReadMsg(k) => old(self).ekeys@.contains(k) && lookup(ch@, k) is Some,
                PolyBlocker::CouldntCheckFiring(k) => old(self).ekeys@.contains(k) && lookup(ch@, k) is Some
                    && !predicate@.contains_key(chan(ch@, k)),
                PolyBlocker::PutMsg(k, _) => old(self).ekeys@.contains(k) && lookup(ch@, k) is Some,
                PolyBlocker::SyncBlockEnd => end_scan_ok(predicate@, branch@, old(self).ekeys@, ch@, 0)
                    && old(storage).ids().contains(subtree),
                PolyBlocker::Inconsistent => true,
            },
        ensures
            pwf(final(self).incomplete@),
            pwf(final(self).complete@),
            pwf(r.0@),
            final(self).ekeys == old(self).ekeys,
            final(storage).wf(),
            match blocker {
                PolyBlocker::Inconsistent => {
                    &&& pview(final(self).incomplete@) == pview(old(self).incomplete@)
                    &&& pview(final(self).complete@) == pview(old(self).complete@)
                    &&& final(storage).model() == old(storage).model()
                    &&& r.0@.len() == 0 && r.1@.len() == 0
                },
                PolyBlocker::CouldntReadMsg(k) => {
                    let c = chan(ch@, k);
                    &&& pview(final(self).complete@) == pview(old(self).complete@)
                    &&& final(storage).model() == old(storage).model()
                    &&& r.0@.len() == 0 && r.1@.len() == 0
                    &&& if predicate@.contains_key(c) && !predicate@[c] {
                        pview(final(self).incomplete@) == pview(old(self).incomplete@)
                    } else {
                        pview(final(self).incomplete@) == put_pair(pview(old(self).incomplete@), predicate@.insert(c, true), branch@)
                    }
                },
                PolyBlocker::CouldntCheckFiring(k) => {
                    let c = chan(ch@, k);
                    &&& pview(final(self).incomplete@) == pview(old(self).incomplete@)
                    &&& pview(final(self).complete@) == pview(old(self).complete@)
                    &&& final(storage).model() == old(storage).model()
                    &&& r.1@.len() == 0
                    &&& r.0@.len() == 2
                    &&& r.0@[0].0@ == predicate@.insert(c, true) && r.0@[0].1@ == branch@
                    &&& r.0@[1].0@ == predicate@.insert(c, false)
                    &&& r.0@[1].1@.inbox == branch@.inbox && r.0@[1].1@.outbox == branch@.outbox
                    &&& vstd::pervasive::cloned(branch.state, r.0@[1].1.state)
                },
                PolyBlocker::SyncBlockEnd => {
                    &&& pview(final(self).incomplete@) == pview(old(self).incomplete@)
                    &&& r.0@.len() == 0 && r.1@.len() == 0
                    &&& match end_scan(predicate@, branch@, old(self).ekeys@, ch@, 0) {
                        None => pview(final(self).complete@) == pview(old(self).complete@)
                            && final(storage).model() == old(storage).model(),
                        Some(q) => pview(final(self).complete@) == put_pair(pview(old(self).complete@), q, branch@)
                            && final(storage).model() == digest(old(storage).model(), subtree, q),
                    }
                },
                PolyBlocker::PutMsg(k, payload) => {
                    let c = chan(ch@, k);
                    &&& pview(final(self).incomplete@) == pview(old(self).incomplete@)
                    &&& pview(final(self).complete@) == pview(old(self).complete@)
                    &&& final(storage).model() == old(storage).model()
                    &&& if predicate@.contains_key(c) && !predicate@[c] {
                        r.0@.len() == 0 && r.1@.len() == 0
                    } else {
                        let p2 = predicate@.insert(c, true);
                        &&& pview(r.0@) == seq![(p2, BranchPView { outbox: put_entry(branch@.outbox, k, payload@), ..branch@ })]
                        &&& sends_view(r.1@) == seq![(k, MsgView::Comm(round_index, ContentsView::SendPayload(p2, payload@)))]
                    }
                },
            },
    {
        let mut more: Vec<(Predicate, BranchP<S>)> = Vec::new();
        let mut sends: Vec<(Key, Msg)> = Vec::new();
        match blocker {
            PolyBlocker::Inconsistent => {},
            PolyBlocker::CouldntReadMsg(k) => {
                let c = match find_chan(ch, k) {
                    Some(c) => c,
                    None => {
                        assert(false);
                        return (more, sends);
                    },
                };
                let mut p = predicate;
                if p.replace_assignment(c, true) != Some(false) {
                    put_branch_p(&mut self.incomplete, p, branch);
                }
            },
            PolyBlocker::CouldntCheckFiring(k) => {
                let c = match find_chan(ch, k) {
                    Some(c) => c,
                    None => {
                        assert(false);
                        return (more, sends);
                    },
                };
                let branch_f = BranchP { outbox: copy_entries(&branch.outbox), inbox: copy_entries(&branch.inbox), state: branch.state.clone() };
                let mut predicate_f = predicate.duplicate();
                predicate_f.replace_assignment(c, false);
                let mut p = predicate;
                p.replace_assignment(c, true);
                more.push((p, branch));
                more.push((predicate_f, branch_f));
            },
            PolyBlocker::SyncBlockEnd => {
                match self.end_check(predicate, &branch, ch) {
                    None => {},
                    Some(q) => {
                        storage.submit_and_digest_subtree_solution(subtree, q.duplicate());
                        put_branch_p(&mut self.complete, q, branch);
                    },
                }
            },
            PolyBlocker::PutMsg(k, payload) => {
                let c = match find_chan(ch, k) {
                    Some(c) => c,
                    None => {
                        assert(false);
                        return (more, sends);
                    },
                };
                let mut p = predicate;
                if p.replace_assignment(c, true) != Some(false) {
                    let mut b = branch;
                    put_payload(&mut b.outbox, k, copy_bytes(&payload));
                    let msg = CommMsgContents::SendPayload { payload_predicate: p.duplicate(), payload }.into_msg(round_index);
                    sends.push((k, msg));
                    more.push((p, b));
                    assert(sends_view(sends@) =~= seq![(k, sends@[0].1@)]);
                }
            },
        }
        (more, sends)
    }

    /// Feeds a payload that came in at port `ekey`, sent under `payload_predicate`, to the
    /// branches: nothing runs if a complete branch has that very predicate; a waiting branch
    /// with that very predicate gets it and runs; else every waiting branch is fed as
    /// [`feed_spec`] says. Returns the branches to run, in order.
    pub fn feed(&mut self, ekey: Key, payload_predicate: Predicate, payload: Payload) -> (r: Vec<(Predicate, BranchP<S>)>)
        requires
            pwf(old(self).incomplete@),
            pwf(old(self).complete@),
            payload_predicate.wf(),
            pair_index(pview(old(self).complete@), payload_predicate@, 0) < 0
                && pair_index(mview(old(self).incomplete@), payload_predicate@, 0) < 0
                ==> feed_ok(mview(old(self).incomplete@), ekey, payload_predicate@),
        ensures
            pwf(final(self).incomplete@),
            pwf(final(self).complete@),
            pwf(r@),
            final(self).ekeys == old(self).ekeys,
            pview(final(self).complete@) == pview(old(self).complete@),
            if pair_index(pview(old(self).complete@), payload_predicate@, 0) >= 0 {
                &&& r@.len() == 0
                &&& pview(final(self).incomplete@) == pview(old(self).incomplete@)
            } else if pair_index(mview(old(self).incomplete@), payload_predicate@, 0) >= 0 {
                let i = pair_index(mview(old(self).incomplete@), payload_predicate@, 0);
                let (out, inb) = mview(old(self).incomplete@)[i].1;
                &&& mview(final(self).incomplete@) == mview(old(self).incomplete@).remove(i)
                &&& mview(r@) == seq![(payload_predicate@, (out, put_entry(inb, ekey, payload@)))]
            } else {
                (mview(r@), mview(final(self).incomplete@)) == feed_spec(mview(old(self).incomplete@), ekey, payload_predicate@, payload@, 0)
            },
    {
        let mut run: Vec<(Predicate, BranchP<S>)> = Vec::new();
        if let Some(_) = find_branch(&self.complete, &payload_predicate) {
            return run;
        }
        if let Some(i) = find_branch(&self.incomplete, &payload_predicate) {
            let ghost before = self.incomplete@;
            let (_, mut b) = self.incomplete.remove(i);
            proof {
                assert(mview(self.incomplete@) =~= mview(before).remove(i as int));
                assert(pwf(self.incomplete@)) by {
                    assert forall|j: int| 0 <= j < self.incomplete@.len() implies (#[trigger] self.incomplete@[j]).0.wf() by {
                        if j < i {
                            assert(self.incomplete@[j] == before[j]);
                        } else {
                            assert(self.incomplete@[j] == before[j + 1]);
                        }
                    }
                }
            }
            put_payload(&mut b.inbox, ekey, payload);
            let ghost pv = payload_predicate@;
            let ghost bv = (b@.outbox, b@.inbox);
            run.push((payload_predicate, b));
            assert(mview(run@) =~= seq![(pv, bv)]);
            return run;
        }
        let ghost s0 = mview(self.incomplete@);
        let mut waiting: Vec<(Predicate, BranchP<S>)> = Vec::new();
        std::mem::swap(&mut waiting, &mut self.incomplete);
        let mut kept: Vec<(Predicate, BranchP<S>)> = Vec::new();
        let ghost n = s0.len();
        while waiting.len() > 0
            invariant
                pwf(waiting@),
                pwf(kept@),
                pwf(run@),
                payload_predicate.wf(),
                self.incomplete@.len() == 0,
                pwf(self.complete@),
                pview(self.complete@) == pview(old(self).complete@),
                self.ekeys == old(self).ekeys,
                waiting@.len() <= n,
                s0.len() == n,
                mview(waiting@) == s0.skip(n - waiting@.len()),
                feed_ok(s0, ekey, payload_predicate@),
                feed_spec(s0, ekey, payload_predicate@, payload@, 0) == (
                    mview(run@) + feed_spec(s0, ekey, payload_predicate@, payload@, n - waiting@.len()).0,
                    mview(kept@) + feed_spec(s0, ekey, payload_predicate@, payload@, n - waiting@.len()).1,
                ),
            decreases waiting@.len(),
        {
            let ghost j = n - waiting@.len();
            let ghost w0 = waiting@;
            let ghost r0 = mview(run@);
            let ghost k0 = mview(kept@);
            let (p, b) = waiting.remove(0);
            assert(mview(w0)[0] == s0[j]);
            assert(mview(waiting@) =~= s0.skip(j + 1)) by {
                assert(mview(w0).skip(1) =~= mview(waiting@));
            }
            assert(pwf(waiting@)) by {
                assert forall|m: int| 0 <= m < waiting@.len() implies (#[trigger] waiting@[m]).0.wf() by {
                    assert(waiting@[m] == w0[m + 1]);
                }
            }
            assert(p.wf()) by {
                assert(w0[0].0.wf());
            }
            let ghost rest = feed_spec(s0, ekey, payload_predicate@, payload@, j + 1);
            let ghost bv = (b@.outbox, b@.inbox);
            let ghost pv = p@;
            match p.common_satisfier(&payload_predicate) {
                CommonSatResult::FormerNotLatter | CommonSatResult::Equivalent => {
                    let mut b2 = b;
                    put_payload(&mut b2.inbox, ekey, copy_bytes(&payload));
                    let ghost x = (p@, (b2@.outbox, b2@.inbox));
                    run.push((p, b2));
                    assert(mview(run@) =~= r0.push(x));
                    assert(r0.push(x) + rest.0 =~= r0 + (seq![x] + rest.0));
                },
                CommonSatResult::New(np) => {
                    let mut fork = BranchP { outbox: copy_entries(&b.outbox), inbox: copy_entries(&b.inbox), state: b.state.clone() };
                    put_payload(&mut fork.inbox, ekey, copy_bytes(&payload));
                    let ghost x = (np@, (fork@.outbox, fork@.inbox));
                    run.push((np, fork));
                    kept.push((p, b));
                    assert(mview(run@) =~= r0.push(x));
                    assert(r0.push(x) + rest.0 =~= r0 + (seq![x] + rest.0));
                    assert(mview(kept@) =~= k0.push((pv, bv)));
                    assert(k0.push((pv, bv)) + rest.1 =~= k0 + (seq![(pv, bv)] + rest.1));
                },
                CommonSatResult::LatterNotFormer => {
                    let mut fork = BranchP { outbox: copy_entries(&b.outbox), inbox: copy_entries(&b.inbox), state: b.state.clone() };
                    put_payload(&mut fork.inbox, ekey, copy_bytes(&payload));
                    let ghost x = (payload_predicate@, (fork@.outbox, fork@.inbox));
                    run.push((payload_predicate.duplicate(), fork));
                    kept.push((p, b));
                    assert(mview(run@) =~= r0.push(x));
                    assert(r0.push(x) + rest.0 =~= r0 + (seq![x] + rest.0));
                    assert(mview(kept@) =~= k0.push((pv, bv)));
                    assert(k0.push((pv, bv)) + rest.1 =~= k0 + (seq![(pv, bv)] + rest.1));
                },
                CommonSatResult::Nonexistant => {
                    kept.push((p, b));
                    assert(mview(kept@) =~= k0.push((pv, bv)));
                    assert(k0.push((pv, bv)) + rest.1 =~= k0 + (seq![(pv, bv)] + rest.1));
                },
            }
        }
        proof {
            assert(mview(run@) + Seq::<(Map<ChannelId, bool>, Exchanged)>::empty() =~= mview(run@));
            assert(mview(kept@) + Seq::<(Map<ChannelId, bool>, Exchanged)>::empty() =~= mview(kept@));
        }
        self.incomplete = kept;
        run
    }

    /// Ends the round under `decision`: the first complete branch whose predicate the decision
    /// satisfies goes on as the component, and what it got and then what it put enter
    /// `table_row`, port by port.
    pub fn become_mono(self, decision: &Predicate, table_row: &mut Vec<(Key, Payload)>) -> (r: MonoP<S>)
        requires
            decision.wf(),
            pwf(self.complete@),
            first_satisfied(pview(self.complete@), decision@, 0) >= 0,
        ensures
            ({
                let b = pview(self.complete@)[first_satisfied(pview(self.complete@), decision@, 0)].1;
                &&& r.ekeys == self.ekeys
                &&& r.state == b.state
                &&& entries_view(final(table_row)@) == put_all(put_all(entries_view(old(table_row)@), b.inbox, 0), b.outbox, 0)
            }),
    {
        let ghost cs = pview(self.complete@);
        let ghost target = first_satisfied(cs, decision@, 0);
        let mut complete = self.complete;
        let mut i: usize = 0;
        while i < complete.len()
            invariant
                i <= complete@.len(),
                cs == pview(complete@),
                decision.wf(),
                target == first_satisfied(cs, decision@, 0),
                target >= 0,
                pwf(complete@),
                first_satisfied(cs, decision@, 0) == first_satisfied(cs, decision@, i as int),
            ensures
                i <= complete@.len(),
                first_satisfied(cs, decision@, 0) == first_satisfied(cs, decision@, i as int),
                i < complete@.len() ==> satisfies_map(decision@, cs[i as int].0),
            decreases complete@.len() - i,
        {
            assert(complete@[i as int].0.wf());
            if decision.satisfies(&complete[i].0) {
                break;
            }
            i += 1;
        }
        if i >= complete.len() {
            unreached()
        }
        let (_, b) = complete.swap_remove(i);
        put_entries(table_row, &b.inbox);
        put_entries(table_row, &b.outbox);
        MonoP { state: b.state, ekeys: self.ekeys }
    }

    /// How running the branches ended: some wait for a message, or all reached the end of
    /// their block, or none is left.
    pub fn result(&self) -> (r: SyncRunResult)
        ensures
            r == if self.incomplete@.len() > 0 {
                SyncRunResult::BlockingForRecv
            } else if self.complete@.len() > 0 {
                SyncRunResult::AllBranchesComplete
            } else {
                SyncRunResult::NoBranches
            },
    {
        if self.incomplete.len() == 0 {
            if self.complete.len() == 0 {
                SyncRunResult::NoBranches
            } else {
                SyncRunResult::AllBranchesComplete
            }
        } else {
            SyncRunResult::BlockingForRecv
        }
    }
}

} // verus!
