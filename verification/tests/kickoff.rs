use reowolf::common::{ChannelId, Key};
use reowolf::endpoint::{CommMsg, CommMsgContents, Msg};
use reowolf::kickoff::{kick_off_native, SyncBatch};
use reowolf::solutions::{SolutionStorage, SubtreeId};

fn k(n: u64) -> Key {
    Key::from_raw(n)
}

fn cid(i: u32) -> ChannelId {
    ChannelId { controller_id: 1, channel_index: i }
}

#[test]
fn each_batch_becomes_a_branch_under_its_predicate() {
    let ekeys = vec![k(1), k(2), k(3)];
    let ch = vec![(k(1), cid(1)), (k(2), cid(2)), (k(3), cid(3))];
    let batches = vec![
        SyncBatch { puts: vec![(k(1), vec![5])], gets: vec![k(2)] },
        SyncBatch { puts: vec![], gets: vec![] },
    ];
    let mut storage = SolutionStorage::new();
    storage.reset(&vec![SubtreeId::PolyN]);
    let (poly, sends) = kick_off_native(&ekeys, &ch, &batches, 4, &mut storage);
    assert_eq!(poly.ekeys, ekeys);
    assert_eq!(poly.branches.len(), 2);
    let (p0, b0) = &poly.branches[0];
    assert_eq!(p0.query(cid(1)), Some(true));
    assert_eq!(p0.query(cid(2)), Some(true));
    assert_eq!(p0.query(cid(3)), Some(false));
    assert_eq!(b0.to_get, vec![k(2)]);
    assert!(b0.gotten.is_empty());
    assert_eq!(b0.sync_batch_index, 0);
    let (p1, b1) = &poly.branches[1];
    assert_eq!(p1.query(cid(1)), Some(false));
    assert_eq!(p1.query(cid(2)), Some(false));
    assert_eq!(b1.sync_batch_index, 1);
    // the payload goes out under the first batch's predicate
    assert_eq!(sends.len(), 1);
    assert_eq!(sends[0].0, k(1));
    match &sends[0].1 {
        Msg::CommMsg(CommMsg { round_index: 4, contents: CommMsgContents::SendPayload { payload_predicate, payload } }) => {
            assert_eq!(payload_predicate.query(cid(2)), Some(true));
            assert_eq!(*payload, vec![5]);
        }
        other => panic!("expected a payload, got {:?}", other),
    }
    // the batch that gets nothing is a solution already
    assert_eq!(storage.peek_new_locals().len(), 1);
    assert_eq!(storage.peek_new_locals()[0].query(cid(3)), Some(false));
}
