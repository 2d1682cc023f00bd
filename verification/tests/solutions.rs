use reowolf::common::{ChannelId, Key};
use reowolf::predicate::Predicate;
use reowolf::solutions::{same_predicate, SolutionStorage, SubtreeId};

fn cid(i: u32) -> ChannelId {
    ChannelId { controller_id: 0, channel_index: i }
}

fn pred(assignments: &[(u32, bool)]) -> Predicate {
    let mut p = Predicate::new_trivial();
    for &(c, v) in assignments {
        p.replace_assignment(cid(c), v);
    }
    p
}

fn contains(v: &Vec<Predicate>, p: &Predicate) -> bool {
    v.iter().any(|q| same_predicate(q, p))
}

#[test]
fn storage_starts_clear() {
    let mut s = SolutionStorage::new();
    assert!(s.is_clear());
    s.reset(&vec![SubtreeId::PolyN]);
    assert!(!s.is_clear());
    s.clear();
    assert!(s.is_clear());
    let d: SolutionStorage = Default::default();
    assert!(d.is_clear());
}

#[test]
fn single_subtree_solutions_are_local_solutions() {
    let mut s = SolutionStorage::new();
    s.reset(&vec![SubtreeId::PolyN]);
    s.submit_and_digest_subtree_solution(SubtreeId::PolyN, pred(&[(0, true)]));
    assert_eq!(s.peek_new_locals().len(), 1);
    // submitting the same solution again adds nothing
    s.submit_and_digest_subtree_solution(SubtreeId::PolyN, pred(&[(0, true)]));
    assert_eq!(s.peek_new_locals().len(), 1);
    let handed = s.iter_new_local_make_old();
    assert_eq!(handed, vec![pred(&[(0, true)])]);
    assert!(s.peek_new_locals().is_empty());
}

#[test]
fn solutions_combine_across_subtrees() {
    let a = SubtreeId::PolyN;
    let b = SubtreeId::PolyP { index: 0 };
    let c = SubtreeId::ChildController { port: Key::from_raw(3) };
    let mut s = SolutionStorage::new();
    s.reset(&vec![a, b, c]);
    s.submit_and_digest_subtree_solution(a, pred(&[(0, true)]));
    assert!(s.peek_new_locals().is_empty());
    s.submit_and_digest_subtree_solution(b, pred(&[(1, false)]));
    s.submit_and_digest_subtree_solution(b, pred(&[(0, false)]));
    assert!(s.peek_new_locals().is_empty());
    s.submit_and_digest_subtree_solution(c, pred(&[(2, true)]));
    // only the consistent combination survives
    let locals = s.peek_new_locals().clone();
    assert_eq!(locals.len(), 1);
    assert!(contains(&locals, &pred(&[(0, true), (1, false), (2, true)])));
    // a solution handed out before is not found again
    s.iter_new_local_make_old();
    s.submit_and_digest_subtree_solution(c, pred(&[(2, true), (3, true)]));
    let locals = s.peek_new_locals().clone();
    assert_eq!(locals.len(), 1);
    assert!(contains(&locals, &pred(&[(0, true), (1, false), (2, true), (3, true)])));
}

#[test]
fn same_predicate_compares_maps() {
    assert!(same_predicate(&pred(&[(1, true), (0, false)]), &pred(&[(0, false), (1, true)])));
    assert!(!same_predicate(&pred(&[(1, true)]), &pred(&[(1, false)])));
}
