use reowolf::common::Key;
use reowolf::endpoint::{Msg, SetupMsg};
use reowolf::tree::{SinkTree, TreeAction, TreePhase};
use std::collections::VecDeque;

fn k(n: u64) -> Key {
    Key::from_raw(n)
}

/// Runs the election on a network whose links are `(controller, key, controller, key)`.
fn run(ids: &[u32], links: &[(usize, u64, usize, u64)]) -> Vec<SinkTree> {
    let mut queue: VecDeque<(usize, Key, Msg)> = VecDeque::new();
    let route = |from: usize, key: Key| -> (usize, Key) {
        for &(a, ka, b, kb) in links {
            if a == from && k(ka) == key {
                return (b, k(kb));
            }
            if b == from && k(kb) == key {
                return (a, k(ka));
            }
        }
        panic!("no such link");
    };
    let mut trees = Vec::new();
    for (c, &id) in ids.iter().enumerate() {
        let mut neighbors = Vec::new();
        for &(a, ka, b, kb) in links {
            if a == c {
                neighbors.push(k(ka));
            }
            if b == c {
                neighbors.push(k(kb));
            }
        }
        let (t, acts) = SinkTree::start(id, neighbors);
        for a in acts {
            if let TreeAction::Send(key, m) = a {
                let (to, key_there) = route(c, key);
                queue.push_back((to, key_there, Msg::SetupMsg(m)));
            }
        }
        trees.push(t);
    }
    let mut steps = 0;
    while let Some((c, key, msg)) = queue.pop_front() {
        steps += 1;
        assert!(steps < 1000, "the election does not end");
        if trees[c].phase() == TreePhase::Done {
            continue;
        }
        assert!(trees[c].accepts(key, &msg));
        for a in trees[c].step(key, msg) {
            match a {
                TreeAction::Send(out, m) => {
                    let (to, key_there) = route(c, out);
                    queue.push_back((to, key_there, Msg::SetupMsg(m)));
                }
                TreeAction::Delay(from, m) => queue.push_back((c, from, m)),
            }
        }
    }
    trees
}

#[test]
fn a_lone_controller_leads_at_once() {
    let (t, acts) = SinkTree::start(7, vec![]);
    assert!(acts.is_empty());
    assert_eq!(t.phase(), TreePhase::Done);
    assert_eq!(t.parent(), None);
    assert_eq!(t.leader(), 7);
}

#[test]
fn start_sends_an_echo_to_every_neighbour() {
    let (t, acts) = SinkTree::start(5, vec![k(0), k(1)]);
    assert_eq!(t.phase(), TreePhase::Echo);
    assert_eq!(acts.len(), 2);
    for (i, a) in acts.iter().enumerate() {
        match a {
            TreeAction::Send(key, SetupMsg::LeaderEcho { maybe_leader }) => {
                assert_eq!(*key, k(i as u64));
                assert_eq!(*maybe_leader, 5);
            }
            _ => panic!("expected an echo"),
        }
    }
}

#[test]
fn line_of_three_elects_the_highest_id() {
    // controller 0 (id 1) -- controller 1 (id 2) -- controller 2 (id 3)
    let trees = run(&[1, 2, 3], &[(0, 0, 1, 0), (1, 1, 2, 0)]);
    for t in &trees {
        assert_eq!(t.phase(), TreePhase::Done);
        assert_eq!(t.leader(), 3);
    }
    assert_eq!(trees[2].parent(), None);
    assert_eq!(trees[1].parent(), Some(k(1)));
    assert_eq!(trees[0].parent(), Some(k(0)));
    assert_eq!(trees[2].children(), &vec![k(0)]);
    assert_eq!(trees[1].children(), &vec![k(0)]);
    assert!(trees[0].children().is_empty());
}

#[test]
fn star_elects_a_leaf_with_the_highest_id() {
    // centre controller 0 (id 4) with leaves of ids 9, 2 and 5
    let trees = run(&[4, 9, 2, 5], &[(0, 0, 1, 0), (0, 1, 2, 0), (0, 2, 3, 0)]);
    for t in &trees {
        assert_eq!(t.phase(), TreePhase::Done);
        assert_eq!(t.leader(), 9);
    }
    assert_eq!(trees[1].parent(), None);
    assert_eq!(trees[0].parent(), Some(k(0)));
    assert_eq!(trees[0].children().len(), 2);
    assert_eq!(trees[1].children(), &vec![k(0)]);
}

#[test]
fn a_lower_echo_is_ignored() {
    let (mut t, _) = SinkTree::start(5, vec![k(0), k(1)]);
    let acts = t.step(k(0), Msg::SetupMsg(SetupMsg::LeaderEcho { maybe_leader: 3 }));
    assert!(acts.is_empty());
    assert_eq!(t.leader(), 5);
    assert_eq!(t.parent(), None);
}

#[test]
fn an_announcement_of_oneself_while_electing_is_refused() {
    let (t, _) = SinkTree::start(5, vec![k(0)]);
    assert!(!t.accepts(k(0), &Msg::SetupMsg(SetupMsg::LeaderAnnounce { leader: 5 })));
}
