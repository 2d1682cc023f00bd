use reowolf::common::{ChannelId, Key, Polarity};
use reowolf::endpoint::{CommMsg, CommMsgContents, Decision, EndpointInfo, Msg, SetupMsg};
use reowolf::errors::SyncErr;
use reowolf::predicate::Predicate;
use reowolf::round::{Holder, Round, RoundAction, RoundEvent};
use reowolf::solutions::SubtreeId;

fn k(n: u64) -> Key {
    Key::from_raw(n)
}

fn cid(i: u32) -> ChannelId {
    ChannelId { controller_id: 1, channel_index: i }
}

fn pred(assignments: &[(u32, bool)]) -> Predicate {
    let mut p = Predicate::new_trivial();
    for &(c, v) in assignments {
        p.replace_assignment(cid(c), v);
    }
    p
}

fn comm(round_index: usize, contents: CommMsgContents) -> Msg {
    Msg::CommMsg(CommMsg { round_index, contents })
}

/// A round with one input port `k(0)` (channel 0) behind the native component.
fn round(parent: Option<Key>, children: Vec<Key>) -> Round {
    Round::new(
        3,
        parent,
        children,
        vec![(k(0), Holder::Native)],
        vec![(k(0), EndpointInfo { polarity: Polarity::Getter, channel_id: cid(0) })],
        0,
    )
}

#[test]
fn the_leader_decides_on_its_first_solution() {
    let mut r = round(None, vec![k(5)]);
    assert!(r.handle_locals().is_empty());
    r.storage_mut().submit_and_digest_subtree_solution(SubtreeId::PolyN, pred(&[(0, true)]));
    // the child has proposed nothing yet: no solution
    assert!(r.handle_locals().is_empty());
    let acts = r.on_event(RoundEvent::Received(k(5), comm(3, CommMsgContents::Elaborate { partial_oracle: pred(&[(1, false)]) })));
    assert_eq!(acts.len(), 2);
    match &acts[0] {
        RoundAction::Send(to, Msg::CommMsg(CommMsg { round_index: 3, contents: CommMsgContents::Announce { decision: Decision::Success(p) } })) => {
            assert_eq!(*to, k(5));
            assert_eq!(p.query(cid(0)), Some(true));
            assert_eq!(p.query(cid(1)), Some(false));
        }
        other => panic!("expected an announcement, got {:?}", other),
    }
    assert!(matches!(&acts[1], RoundAction::End(Decision::Success(_))));
    assert!(r.has_ended());
    assert_eq!(r.round_index(), 4);
}

#[test]
fn a_controller_with_a_parent_elaborates_its_solutions() {
    let mut r = round(Some(k(9)), vec![]);
    r.storage_mut().submit_and_digest_subtree_solution(SubtreeId::PolyN, pred(&[(0, true)]));
    let acts = r.handle_locals();
    assert_eq!(acts.len(), 1);
    match &acts[0] {
        RoundAction::Send(to, Msg::CommMsg(CommMsg { round_index: 3, contents: CommMsgContents::Elaborate { partial_oracle } })) => {
            assert_eq!(*to, k(9));
            assert_eq!(partial_oracle.query(cid(0)), Some(true));
        }
        other => panic!("expected an elaboration, got {:?}", other),
    }
    assert!(!r.has_ended());
    // handed out once only
    assert!(r.handle_locals().is_empty());
}

#[test]
fn timeout_of_the_leader_fails_the_round() {
    let mut r = round(None, vec![k(5)]);
    let acts = r.on_event(RoundEvent::Timeout);
    assert!(matches!(&acts[0], RoundAction::Send(_, Msg::CommMsg(CommMsg { contents: CommMsgContents::Announce { decision: Decision::Failure }, .. }))));
    assert!(matches!(&acts[1], RoundAction::End(Decision::Failure)));
    assert!(r.has_ended());
}

#[test]
fn timeout_below_the_leader_tells_the_parent_once() {
    let mut r = round(Some(k(9)), vec![]);
    let acts = r.on_event(RoundEvent::Timeout);
    assert_eq!(acts.len(), 1);
    assert!(matches!(&acts[0], RoundAction::Send(p, Msg::CommMsg(CommMsg { contents: CommMsgContents::Failure, .. })) if *p == k(9)));
    assert!(!r.has_ended());
    assert!(!r.accepts(&RoundEvent::Timeout));
}

#[test]
fn old_messages_are_dropped_and_later_ones_kept() {
    let mut r = round(Some(k(9)), vec![]);
    assert!(r.on_event(RoundEvent::Received(k(9), comm(2, CommMsgContents::Failure))).is_empty());
    let acts = r.on_event(RoundEvent::Received(k(9), comm(4, CommMsgContents::Failure)));
    assert!(matches!(&acts[0], RoundAction::Delay(p, _) if *p == k(9)));
    assert!(!r.has_ended());
}

#[test]
fn setup_message_during_a_round_is_an_error() {
    let mut r = round(None, vec![]);
    let acts = r.on_event(RoundEvent::Received(k(0), Msg::SetupMsg(SetupMsg::YouAreMyParent)));
    assert!(matches!(acts[0], RoundAction::Fail(SyncErr::UnexpectedSetupMsg)));
    assert!(r.has_ended());
}

#[test]
fn elaboration_from_a_non_child_and_announcement_from_a_non_parent_are_errors() {
    let mut r = round(Some(k(9)), vec![k(5)]);
    let acts = r.on_event(RoundEvent::Received(k(6), comm(3, CommMsgContents::Elaborate { partial_oracle: pred(&[]) })));
    assert!(matches!(acts[0], RoundAction::Fail(SyncErr::ElaborateFromNonChild)));
    let mut r = round(Some(k(9)), vec![k(5)]);
    let acts = r.on_event(RoundEvent::Received(k(5), comm(3, CommMsgContents::Announce { decision: Decision::Failure })));
    assert!(matches!(acts[0], RoundAction::Fail(SyncErr::AnnounceFromNonParent)));
}

#[test]
fn announcement_from_the_parent_ends_the_round() {
    let mut r = round(Some(k(9)), vec![k(5)]);
    let acts = r.on_event(RoundEvent::Received(k(9), comm(3, CommMsgContents::Announce { decision: Decision::Success(pred(&[(0, true)])) })));
    assert_eq!(acts.len(), 2);
    assert!(matches!(&acts[0], RoundAction::Send(c, _) if *c == k(5)));
    assert!(matches!(&acts[1], RoundAction::End(Decision::Success(_))));
    assert_eq!(r.round_index(), 4);
}

#[test]
fn payloads_go_to_the_actor_behind_the_port() {
    let mut r = round(Some(k(9)), vec![]);
    let ok = RoundEvent::Received(k(0), comm(3, CommMsgContents::SendPayload { payload_predicate: pred(&[(0, true)]), payload: vec![7] }));
    assert!(r.accepts(&ok));
    let acts = r.on_event(ok);
    match &acts[0] {
        RoundAction::Deliver(Holder::Native, port, p, payload) => {
            assert_eq!(*port, k(0));
            assert_eq!(p.query(cid(0)), Some(true));
            assert_eq!(payload, &vec![7u8]);
        }
        other => panic!("expected a delivery, got {:?}", other),
    }
    let bad = RoundEvent::Received(k(0), comm(3, CommMsgContents::SendPayload { payload_predicate: pred(&[(0, false)]), payload: vec![] }));
    let acts = r.on_event(bad);
    assert!(matches!(acts[0], RoundAction::Fail(SyncErr::PayloadPremiseExcludesTheChannel(c)) if c == cid(0)));
}

#[test]
fn payload_at_an_unknown_port_is_not_accepted() {
    let r = round(Some(k(9)), vec![]);
    let ev = RoundEvent::Received(k(4), comm(3, CommMsgContents::SendPayload { payload_predicate: pred(&[]), payload: vec![] }));
    assert!(!r.accepts(&ev));
}
