use reowolf::common::{ChannelId, Key};
use reowolf::native::{BranchN, PolyN};
use reowolf::predicate::Predicate;
use reowolf::solutions::{same_predicate, SolutionStorage, SubtreeId};

fn cid(i: u32) -> ChannelId {
    ChannelId { controller_id: 0, channel_index: i }
}

fn pred(assignments: &[(u32, bool)]) -> Predicate {
    let mut p = Predicate::new_trivial();
    for &(c, v) in assignments {
        p.replace_assignment(cid(c), v);
    }
    p
}

fn branch(to_get: &[u64]) -> BranchN {
    BranchN { to_get: to_get.iter().map(|&k| Key::from_raw(k)).collect(), gotten: vec![], sync_batch_index: 3 }
}

fn storage() -> SolutionStorage {
    let mut s = SolutionStorage::new();
    s.reset(&vec![SubtreeId::PolyN]);
    s
}

#[test]
fn message_under_a_stronger_predicate_forks_the_branch() {
    let mut n = PolyN { ekeys: vec![Key::from_raw(1)], branches: vec![(pred(&[]), branch(&[1]))] };
    let mut s = storage();
    n.sync_recv(Key::from_raw(1), vec![7, 7], pred(&[(0, true)]), &mut s);
    assert_eq!(n.branches.len(), 2);
    // the fork, under the message's predicate, got the message and waits for nothing more
    assert!(same_predicate(&n.branches[0].0, &pred(&[(0, true)])));
    assert!(n.branches[0].1.to_get.is_empty());
    assert_eq!(n.branches[0].1.gotten, vec![(Key::from_raw(1), vec![7, 7])]);
    // the original branch is kept as it was
    assert!(same_predicate(&n.branches[1].0, &pred(&[])));
    assert_eq!(n.branches[1].1.to_get, vec![Key::from_raw(1)]);
    // and the fork was submitted as a solution
    assert_eq!(s.peek_new_locals().len(), 1);
    assert!(same_predicate(&s.peek_new_locals()[0], &pred(&[(0, true)])));
}

#[test]
fn message_under_an_equivalent_predicate_is_received_in_place() {
    let mut n = PolyN { ekeys: vec![], branches: vec![(pred(&[(0, true)]), branch(&[1, 2]))] };
    let mut s = storage();
    n.sync_recv(Key::from_raw(2), vec![1], pred(&[(0, true)]), &mut s);
    assert_eq!(n.branches.len(), 1);
    assert_eq!(n.branches[0].1.to_get, vec![Key::from_raw(1)]);
    assert_eq!(n.branches[0].1.gotten, vec![(Key::from_raw(2), vec![1])]);
    // still waiting on key 1: nothing submitted
    assert!(s.peek_new_locals().is_empty());
}

#[test]
fn message_under_an_inconsistent_predicate_is_ignored() {
    let mut n = PolyN { ekeys: vec![], branches: vec![(pred(&[(0, false)]), branch(&[1]))] };
    let mut s = storage();
    n.sync_recv(Key::from_raw(1), vec![5], pred(&[(0, true)]), &mut s);
    assert_eq!(n.branches.len(), 1);
    assert_eq!(n.branches[0].1.to_get, vec![Key::from_raw(1)]);
    assert!(n.branches[0].1.gotten.is_empty());
    assert!(s.peek_new_locals().is_empty());
}

#[test]
fn message_under_a_partly_new_predicate_forks_under_the_union() {
    let mut n = PolyN { ekeys: vec![], branches: vec![(pred(&[(0, true)]), branch(&[1]))] };
    let mut s = storage();
    n.sync_recv(Key::from_raw(1), vec![5], pred(&[(1, false)]), &mut s);
    assert_eq!(n.branches.len(), 2);
    assert!(same_predicate(&n.branches[0].0, &pred(&[(0, true), (1, false)])));
    assert!(n.branches[0].1.to_get.is_empty());
    assert!(same_predicate(&n.branches[1].0, &pred(&[(0, true)])));
    assert_eq!(s.peek_new_locals().len(), 1);
}

#[test]
fn become_mono_takes_the_decided_branch() {
    let mut done = branch(&[]);
    done.gotten = vec![(Key::from_raw(4), vec![1, 2])];
    let n = PolyN {
        ekeys: vec![Key::from_raw(4)],
        branches: vec![(pred(&[(0, false)]), branch(&[4])), (pred(&[(0, true)]), done)],
    };
    let mut row = vec![(Key::from_raw(9), vec![0])];
    let m = n.become_mono(&pred(&[(0, true), (1, true)]), &mut row);
    assert_eq!(m.ekeys, vec![Key::from_raw(4)]);
    let (batch, gotten) = m.result.unwrap();
    assert_eq!(batch, 3);
    assert_eq!(gotten, vec![(Key::from_raw(4), vec![1, 2])]);
    assert_eq!(row, vec![(Key::from_raw(9), vec![0]), (Key::from_raw(4), vec![1, 2])]);
}
