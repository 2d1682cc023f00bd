use reowolf::arena::Arena;
use reowolf::bititer::BitSetAndIter;
use reowolf::bitset::BitSet;
use reowolf::common::{ChannelId, Key, Polarity};
use reowolf::errors::{ConnectErr, EndpointErr, EvalErr, MessengerRecvErr, PollDeadlineErr, SyncErr};
use reowolf::predicate::CommonSatResult::{Equivalent, FormerNotLatter, LatterNotFormer, New, Nonexistant};
use reowolf::predicate::{ChannelIdStream, Predicate};
use reowolf::queryable::{Queryable, QueryableSubset};
use reowolf::tern::MASK_BITS;

fn pred(assignments: &[(ChannelId, bool)]) -> Predicate {
    let mut p = Predicate::new_trivial();
    for &(c, v) in assignments {
        p.replace_assignment(c, v);
    }
    p
}

fn channels(n: usize) -> Vec<ChannelId> {
    let mut c = ChannelIdStream::new(0);
    (0..n).map(|_| c.next()).collect()
}

#[test]
fn mask_ok() {
    assert_eq!(!0u16, MASK_BITS | (MASK_BITS >> 1));
    assert_eq!(0, MASK_BITS & (MASK_BITS >> 1));
}

#[test]
fn polyp_test_bit_iter() {
    let sets: Vec<Vec<u32>> = vec![
        vec![0b100011000000100101101],
        vec![0b100001000000000110100],
        vec![0b100001000100010100110],
    ];
    let mut it = BitSetAndIter::new(&sets);
    let mut indices = Vec::new();
    while let Some(i) = it.next() {
        indices.push(i);
    }
    println!("indices {:?}", indices);
    assert_eq!(indices, vec![2, 5, 15, 20]);
}

#[test]
fn bit_iter_over_several_chunks() {
    let sets: Vec<Vec<u32>> = vec![vec![0x8000_0001, 0x1, 0xffff_ffff], vec![0x8000_0001, 0x3, 0x8000_0000]];
    let mut it = BitSetAndIter::new(&sets);
    let mut indices = Vec::new();
    while let Some(i) = it.next() {
        indices.push(i);
    }
    assert_eq!(indices, vec![0, 31, 32, 95]);
}

#[test]
fn pred_sat() {
    let ch = channels(5);
    let p = Predicate::new_trivial();
    let p_0t = pred(&[(ch[0], true)]);
    let p_0f = pred(&[(ch[0], false)]);
    let p_0f_3f = pred(&[(ch[0], false), (ch[3], false)]);
    let p_0f_3t = pred(&[(ch[0], false), (ch[3], true)]);

    assert!(p.satisfies(&p));
    assert!(p_0t.satisfies(&p_0t));
    assert!(p_0f.satisfies(&p_0f));
    assert!(p_0f_3f.satisfies(&p_0f_3f));
    assert!(p_0f_3t.satisfies(&p_0f_3t));

    assert!(p_0t.satisfies(&p));
    assert!(p_0f.satisfies(&p));
    assert!(p_0f_3f.satisfies(&p_0f));
    assert!(p_0f_3t.satisfies(&p_0f));

    assert!(!p.satisfies(&p_0t));
    assert!(!p.satisfies(&p_0f));
    assert!(!p_0f.satisfies(&p_0t));
    assert!(!p_0t.satisfies(&p_0f));
    assert!(!p_0f_3f.satisfies(&p_0f_3t));
    assert!(!p_0f_3t.satisfies(&p_0f_3f));
    assert!(!p_0t.satisfies(&p_0f_3f));
    assert!(!p_0f.satisfies(&p_0f_3f));
    assert!(!p_0t.satisfies(&p_0f_3t));
    assert!(!p_0f.satisfies(&p_0f_3t));
}

#[test]
fn pred_common_sat() {
    let ch = channels(5);
    let p = Predicate::new_trivial();
    let p_0t = pred(&[(ch[0], true)]);
    let p_0f = pred(&[(ch[0], false)]);
    let p_3f = pred(&[(ch[3], false)]);
    let p_0f_3f = pred(&[(ch[0], false), (ch[3], false)]);
    let p_0f_3t = pred(&[(ch[0], false), (ch[3], true)]);

    assert_eq![p.common_satisfier(&p), Equivalent];
    assert_eq![p_0t.common_satisfier(&p_0t), Equivalent];

    assert_eq![p.common_satisfier(&p_0t), LatterNotFormer];
    assert_eq![p_0t.common_satisfier(&p), FormerNotLatter];

    assert_eq![p_0t.common_satisfier(&p_0f), Nonexistant];
    assert_eq![p_0f_3t.common_satisfier(&p_0f_3f), Nonexistant];
    assert_eq![p_0f_3t.common_satisfier(&p_3f), Nonexistant];
    assert_eq![p_3f.common_satisfier(&p_0f_3t), Nonexistant];

    assert_eq![p_0f.common_satisfier(&p_3f), New(p_0f_3f)];
}

#[test]
fn predicate_query_and_replace() {
    let ch = channels(3);
    let mut p = Predicate::new_trivial();
    assert_eq!(p.replace_assignment(ch[2], true), None);
    assert_eq!(p.replace_assignment(ch[0], false), None);
    assert_eq!(p.replace_assignment(ch[2], false), Some(true));
    assert_eq!(p.query(ch[2]), Some(false));
    assert_eq!(p.query(ch[1]), None);
    assert_eq!(p.assignments().iter().map(|a| a.0).collect::<Vec<_>>(), vec![ch[0], ch[2]]);
    assert_eq!(p.iter_matching(false), vec![ch[0], ch[2]]);
    assert_eq!(p.iter_matching(true), vec![]);
}

#[test]
fn predicate_union_and_batch() {
    let ch = channels(4);
    let a = pred(&[(ch[0], true), (ch[2], false)]);
    let b = pred(&[(ch[1], true), (ch[2], false)]);
    let u = a.union_with(&b).unwrap();
    assert_eq!(u, pred(&[(ch[0], true), (ch[1], true), (ch[2], false)]));
    let c = pred(&[(ch[2], true)]);
    assert!(a.union_with(&c).is_none());
    let mut d = pred(&[(ch[1], true)]);
    d.batch_assign_nones(&vec![ch[0], ch[1], ch[3]], false);
    assert_eq!(d, pred(&[(ch[0], false), (ch[1], true), (ch[3], false)]));
}

#[test]
fn channel_id_stream_counts_up() {
    let mut s = ChannelIdStream::new(7);
    let a = s.next();
    let b = s.next();
    assert_eq!(a, ChannelId { controller_id: 7, channel_index: 0 });
    assert_eq!(b, ChannelId { controller_id: 7, channel_index: 1 });
}

#[test]
fn bitset_set_test_unset() {
    let mut b = BitSet(vec![]);
    assert!(b.is_empty());
    b.set(3);
    b.set(40);
    assert!(b.test(3) && b.test(40) && !b.test(4) && !b.test(1000));
    assert_eq!(b.iter(), vec![1 << 3, 1 << 8]);
    b.unset(3);
    assert!(!b.test(3));
    b.unset(40);
    assert!(b.is_empty());
    b.set_ones_until(5);
    assert_eq!(b.iter()[0], 0b11111);
    assert!(b.test(4) && !b.test(5));
}

#[test]
fn arena_allocate_get() {
    let mut a: Arena<&str> = Arena::new();
    let k0 = a.allocate("zero");
    let k1 = a.allocate("one");
    assert_eq!(k0.to_raw(), 0);
    assert_eq!(k1.to_raw(), 1);
    assert_eq!(a.get(k1), Some(&"one"));
    assert_eq!(a.get(Key::from_raw(2)), None);
    *a.get_mut(k0).unwrap() = "nil";
    assert_eq!(a.get(k0), Some(&"nil"));
    assert!(a.get_mut(Key::from_raw(9)).is_none());
    assert_eq!(a.len(), 2);
    assert_eq!(a.keyspace(), vec![k0, k1]);
    let items: Vec<(Key, &&str)> = a.iter();
    assert_eq!(items[1], (k1, &"one"));
    let b = a.type_convert(|(k, s): (Key, &str)| (k.to_raw(), s.len()));
    assert_eq!(b.get(k1), Some(&(1, 3)));
    assert_eq!(b.get(k0), Some(&(0, 3)));
}

#[test]
fn arena_default_is_empty() {
    let a: Arena<u8> = Default::default();
    assert_eq!(a.len(), 0);
}

#[test]
fn error_conversions() {
    assert_eq!(SyncErr::from(EvalErr::ComponentExitWhileBranching), SyncErr::EvalErr(EvalErr::ComponentExitWhileBranching));
    assert_eq!(
        SyncErr::from(MessengerRecvErr::PollingFailed),
        SyncErr::MessengerRecvErr(MessengerRecvErr::PollingFailed)
    );
    assert_eq!(ConnectErr::from(PollDeadlineErr::Timeout), ConnectErr::Timeout);
    assert_eq!(ConnectErr::from(PollDeadlineErr::PollingFailed), ConnectErr::PollingFailed);
    assert_eq!(ConnectErr::from(EndpointErr::Disconnected), ConnectErr::Disconnected);
    assert_eq!(ConnectErr::from(EndpointErr::MetaProtocolDeviation), ConnectErr::MetaProtocolDeviation);
    assert_eq!(
        ConnectErr::from(MessengerRecvErr::EndpointErr(EndpointErr::Disconnected)),
        ConnectErr::MessengerRecvErr(MessengerRecvErr::EndpointErr(EndpointErr::Disconnected))
    );
}

#[test]
fn polarity_negation() {
    assert_eq!(Polarity::Putter.negate(), Polarity::Getter);
    assert_eq!(Polarity::Getter.negate(), Polarity::Putter);
}

#[test]
fn key_roundtrip() {
    assert_eq!(Key::from_raw(42).to_raw(), 42);
}

#[test]
fn queryable_lookup_and_subsets() {
    let ch = channels(4);
    let p = pred(&[(ch[3], true), (ch[1], false)]);
    let q = Queryable::new(&p);
    assert_eq!(q.query(ch[1]), Some((0, false)));
    assert_eq!(q.query(ch[3]), Some((1, true)));
    assert_eq!(q.query(ch[2]), None);
    let mut qs = QueryableSubset::new(&q);
    assert_eq!(qs.iter_q(&q), vec![(ch[1], false), (ch[3], true)]);
    qs.remove(0);
    assert_eq!(qs.iter_q(&q), vec![(ch[3], true)]);
    qs.undo_remove(0);
    assert_eq!(qs.buf, vec![0, 1]);
    assert_eq!(qs.prefix_end, 2);
}
