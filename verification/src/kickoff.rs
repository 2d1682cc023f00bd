use vstd::prelude::*;
use crate::common::{ChannelId, Key, Payload};
use crate::endpoint::{CommMsgContents, ContentsView, Msg, MsgView};
use crate::eval::copy_bytes;
use crate::native::{branches_view, BranchN, BranchView, PolyN};
use crate::polyp::{chan, find_chan, sends_view};
use crate::predicate::Predicate;
use crate::round::lookup;
use crate::solutions::{digest, SolutionStorage, StorageModel, SubtreeId};

verus! {

/// What the native component offers for one way its round may go: the payloads it puts,
/// port by port, and the ports it gets from.
pub struct SyncBatch {
    pub puts: Vec<(Key, Payload)>,
    pub gets: Vec<Key>,
}

/// A [`SyncBatch`] as mathematics sees it.
pub struct SyncBatchView {
    pub puts: Seq<(Key, Seq<u8>)>,
    pub gets: Seq<Key>,
}

impl View for SyncBatch {
    type V = SyncBatchView;

    open spec fn view(&self) -> SyncBatchView {
        SyncBatchView { puts: self.puts@.map_values(|e: (Key, Payload)| (e.0, e.1@)), gets: self.gets@ }
    }
}

/// The batches, as mathematics sees them.
pub open spec fn batches_view(s: Seq<SyncBatch>) -> Seq<SyncBatchView> {
    s.map_values(|b: SyncBatch| b@)
}

/// The channels of the ports `ks`, in order.
pub open spec fn chans(ch: Seq<(Key, ChannelId)>, ks: Seq<Key>) -> Seq<ChannelId> {
    ks.map_values(|k: Key| chan(ch, k))
}

/// The ports a batch puts to, then those it gets from.
pub open spec fn batch_ports(b: SyncBatchView) -> Seq<Key> {
    b.puts.map_values(|e: (Key, Seq<u8>)| e.0) + b.gets
}

/// The predicate of a batch: the channels of the ports it puts to or gets from fire, and
/// those of the other ports of the native component do not.
pub open spec fn batch_predicate(ch: Seq<(Key, ChannelId)>, ekeys: Seq<Key>, b: SyncBatchView) -> Map<ChannelId, bool> {
    Map::new(
        |c: ChannelId| chans(ch, batch_ports(b)).contains(c) || chans(ch, ekeys).contains(c),
        |c: ChannelId| chans(ch, batch_ports(b)).contains(c),
    )
}

/// The messages that carry the payloads of a batch under its predicate `p`, in order.
pub open spec fn batch_sends(p: Map<ChannelId, bool>, b: SyncBatchView, round_index: usize) -> Seq<(Key, MsgView)> {
    b.puts.map_values(|e: (Key, Seq<u8>)| (e.0, MsgView::Comm(round_index, ContentsView::SendPayload(p, e.1))))
}

/// The messages of the first `n` batches, batch by batch.
pub open spec fn kick_off_sends(ch: Seq<(Key, ChannelId)>, ekeys: Seq<Key>, bs: Seq<SyncBatchView>, round_index: usize, n: int) -> Seq<(Key, MsgView)>
    decreases n,
{
    if n <= 0 {
        Seq::empty()
    } else {
        kick_off_sends(ch, ekeys, bs, round_index, n - 1)
            + batch_sends(batch_predicate(ch, ekeys, bs[n - 1]), bs[n - 1], round_index)
    }
}

/// The solution storage after the first `n` batches: each batch that gets nothing is a
/// solution of the native component as it stands.
pub open spec fn kick_off_storage(m: StorageModel, ch: Seq<(Key, ChannelId)>, ekeys: Seq<Key>, bs: Seq<SyncBatchView>, n: int) -> StorageModel
    decreases n,
{
    if n <= 0 {
        m
    } else {
        let m1 = kick_off_storage(m, ch, ekeys, bs, n - 1);
        if bs[n - 1].gets.len() == 0 {
            digest(m1, SubtreeId::PolyN, batch_predicate(ch, ekeys, bs[n - 1]))
        } else {
            m1
        }
    }
}

/// The branch the native component starts the round with for batch `i`.
pub open spec fn kick_off_branch(ch: Seq<(Key, ChannelId)>, ekeys: Seq<Key>, bs: Seq<SyncBatchView>, i: int) -> (Map<ChannelId, bool>, BranchView) {
    (batch_predicate(ch, ekeys, bs[i]), BranchView { to_get: bs[i].gets, gotten: Seq::empty(), sync_batch_index: i as usize })
}

/// Every port of the component and of the batches has a known channel.
pub open spec fn channels_known(ch: Seq<(Key, ChannelId)>, ekeys: Seq<Key>, bs: Seq<SyncBatchView>) -> bool {
    &&& forall|k: Key| ekeys.contains(k) ==> (#[trigger] lookup(ch, k)) is Some
    &&& forall|i: int, k: Key| 0 <= i < bs.len() && #[trigger] batch_ports(bs[i]).contains(k) ==> lookup(ch, k) is Some
}

/// The channels of ports `ks`.
fn channels_of(ch: &Vec<(Key, ChannelId)>, ks: &Vec<Key>, acc: &mut Vec<ChannelId>)
    requires
        forall|k: Key| ks@.contains(k) ==> (#[trigger] lookup(ch@, k)) is Some,
    ensures
        final(acc)@ == old(acc)@ + chans(ch@, ks@),
{
    let ghost a0 = acc@;
    let mut i: usize = 0;
    while i < ks.len()
        invariant
            i <= ks@.len(),
            forall|k: Key| ks@.contains(k) ==> (#[trigger] lookup(ch@, k)) is Some,
            acc@ == a0 + chans(ch@, ks@.take(i as int)),
        decreases ks@.len() - i,
    {
        let k = ks[i];
        assert(ks@.contains(k));
        match find_chan(ch, k) {
            Some(c) => {
                acc.push(c);
                assert(chans(ch@, ks@.take(i + 1)) =~= chans(ch@, ks@.take(i as int)).push(c));
                assert(acc@ =~= a0 + chans(ch@, ks@.take(i + 1)));
            },
            None => {
                assert(false);
            },
        }
        i += 1;
    }
    assert(ks@.take(ks@.len() as int) =~= ks@);
}

/// Starts the native component's part of a round: one branch per batch, under the batch's
/// predicate (see [`batch_predicate`]), waiting for what the batch gets; the payloads the
/// batch puts, to send under that predicate; and each batch that gets nothing submitted as a
/// solution of the native component.
pub fn kick_off_native(
    ekeys: &Vec<Key>,
    ch: &Vec<(Key, ChannelId)>,
    batches: &Vec<SyncBatch>,
    round_index: usize,
    storage: &mut SolutionStorage,
) -> (r: (PolyN, Vec<(Key, Msg)>))
    requires
        old(storage).wf(),
        old(storage).ids().contains(SubtreeId::PolyN),
        channels_known(ch@, ekeys@, batches_view(batches@)),
        forall|i: int, j: int| 0 <= i < j < batches@.len() ==>
            batch_predicate(ch@, ekeys@, #[trigger] batches_view(batches@)[i]) != batch_predicate(ch@, ekeys@, #[trigger] batches_view(batches@)[j]),
    ensures
        r.0.ekeys@ == ekeys@,
        branches_view(r.0.branches@) == Seq::new(batches@.len(), |i: int| kick_off_branch(ch@, ekeys@, batches_view(batches@), i)),
        r.0.wf(),
        sends_view(r.1@) == kick_off_sends(ch@, ekeys@, batches_view(batches@), round_index, batches@.len() as int),
        final(storage).wf(),
        final(storage).model() == kick_off_storage(old(storage).model(), ch@, ekeys@, batches_view(batches@), batches@.len() as int),
{
    let ghost bs = batches_view(batches@);
    let mut all: Vec<ChannelId> = Vec::new();
    channels_of(ch, ekeys, &mut all);
    assert(all@ =~= chans(ch@, ekeys@));
    let mut branches: Vec<(Predicate, BranchN)> = Vec::new();
    let mut sends: Vec<(Key, Msg)> = Vec::new();
    let mut i: usize = 0;
    while i < batches.len()
        invariant
            i <= batches@.len(),
            bs == batches_view(batches@),
            all@ == chans(ch@, ekeys@),
            channels_known(ch@, ekeys@, bs),
            storage.wf(),
            storage.ids() == old(storage).ids(),
            old(storage).ids().contains(SubtreeId::PolyN),
            branches_view(branches@) == Seq::new(i as nat, |j: int| kick_off_branch(ch@, ekeys@, bs, j)),
            forall|j: int| 0 <= j < branches@.len() ==> (#[trigger] branches@[j]).0.wf(),
            sends_view(sends@) == kick_off_sends(ch@, ekeys@, bs, round_index, i as int),
            storage.model() == kick_off_storage(old(storage).model(), ch@, ekeys@, bs, i as int),
        decreases batches@.len() - i,
    {
        let batch = &batches[i];
        let ghost b = bs[i as int];
        assert(b == batch@);
        let mut put_keys: Vec<Key> = Vec::new();
        let mut j: usize = 0;
        while j < batch.puts.len()
            invariant
                j <= batch.puts@.len(),
                put_keys@ == batch@.puts.take(j as int).map_values(|e: (Key, Seq<u8>)| e.0),
            decreases batch.puts@.len() - j,
        {
            put_keys.push(batch.puts[j].0);
            j += 1;
            assert(put_keys@ =~= batch@.puts.take(j as int).map_values(|e: (Key, Seq<u8>)| e.0));
        }
        assert(batch@.puts.take(batch@.puts.len() as int) =~= batch@.puts);
        let mut fire: Vec<ChannelId> = Vec::new();
        assert forall|k: Key| put_keys@.contains(k) implies (#[trigger] lookup(ch@, k)) is Some by {
            let m = choose|m: int| 0 <= m < put_keys@.len() && put_keys@[m] == k;
            assert(batch_ports(bs[i as int])[m] == k);
            assert(batch_ports(bs[i as int]).contains(k));
        }
        channels_of(ch, &put_keys, &mut fire);
        assert forall|k: Key| batch.gets@.contains(k) implies (#[trigger] lookup(ch@, k)) is Some by {
            let m = choose|m: int| 0 <= m < batch.gets@.len() && batch.gets@[m] == k;
            assert(batch_ports(bs[i as int])[put_keys@.len() + m] == k);
            assert(batch_ports(bs[i as int]).contains(k));
        }
        channels_of(ch, &batch.gets, &mut fire);
        assert(fire@ =~= chans(ch@, batch_ports(b)));
        let mut predicate = Predicate::new_trivial();
        predicate.batch_assign_nones(&fire, true);
        predicate.batch_assign_nones(&all, false);
        assert(predicate@ =~= batch_predicate(ch@, ekeys@, b));
        let ghost s0 = sends_view(sends@);
        let mut j: usize = 0;
        while j < batch.puts.len()
            invariant
                j <= batch.puts@.len(),
                predicate.wf(),
                predicate@ == batch_predicate(ch@, ekeys@, b),
                b == batch@,
                sends_view(sends@) == s0 + batch_sends(predicate@, b, round_index).take(j as int),
            decreases batch.puts@.len() - j,
        {
            let msg = CommMsgContents::SendPayload { payload_predicate: predicate.duplicate(), payload: copy_bytes(&batch.puts[j].1) }.into_msg(round_index);
            let ghost before = sends_view(sends@);
            sends.push((batch.puts[j].0, msg));
            j += 1;
            assert(sends_view(sends@) =~= before.push(sends_view(sends@)[sends@.len() - 1]));
            assert(sends_view(sends@) =~= s0 + batch_sends(predicate@, b, round_index).take(j as int));
        }
        assert(batch_sends(predicate@, b, round_index).take(batch.puts@.len() as int) =~= batch_sends(predicate@, b, round_index));
        let mut to_get: Vec<Key> = Vec::new();
        let mut j: usize = 0;
        while j < batch.gets.len()
            invariant
                j <= batch.gets@.len(),
                to_get@ == batch.gets@.take(j as int),
            decreases batch.gets@.len() - j,
        {
            to_get.push(batch.gets[j]);
            j += 1;
            assert(to_get@ =~= batch.gets@.take(j as int));
        }
        assert(batch.gets@.take(batch.gets@.len() as int) =~= batch.gets@);
        if to_get.len() == 0 {
            proof {
                let m = choose|m: int| 0 <= m < old(storage).ids().len() && old(storage).ids()[m] == SubtreeId::PolyN;
                assert(storage.ids()[m] == SubtreeId::PolyN);
            }
            storage.submit_and_digest_subtree_solution(SubtreeId::PolyN, predicate.duplicate());
        }
        let ghost pv = predicate@;
        let branch = BranchN { to_get, gotten: Vec::new(), sync_batch_index: i };
        let ghost bv = branch@;
        let ghost before = branches_view(branches@);
        branches.push((predicate, branch));
        assert(bv.gotten =~= Seq::<(Key, Seq<u8>)>::empty());
        assert(branches_view(branches@) =~= before.push((pv, bv)));
        i += 1;
        assert(branches_view(branches@) =~= Seq::new(i as nat, |j: int| kick_off_branch(ch@, ekeys@, bs, j)));
    }
    let ekeys_copy = copy_keys(ekeys);
    (PolyN { ekeys: ekeys_copy, branches }, sends)
}

/// A copy of the keys.
fn copy_keys(v: &Vec<Key>) -> (r: Vec<Key>)
    ensures
        r@ == v@,
{
    let mut r: Vec<Key> = Vec::new();
    let mut i: usize = 0;
    while i < v.len()
        invariant
            i <= v@.len(),
            r@ == v@.take(i as int),
        decreases v@.len() - i,
    {
        r.push(v[i]);
        i += 1;
        assert(r@ =~= v@.take(i as int));
    }
    assert(v@.take(v@.len() as int) =~= v@);
    r
}

} // verus!
