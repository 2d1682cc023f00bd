use reowolf::common::{ChannelId, Polarity};
use reowolf::endpoint::{CommMsg, CommMsgContents, Decision, EndpointInfo, Msg, SetupMsg};
use reowolf::errors::EndpointErr;
use reowolf::predicate::Predicate;
use reowolf::serde::{decode_inbox, De, MonitoredReader, Ser, SerdeError, ZigZag};

fn cid(c: u32, i: u32) -> ChannelId {
    ChannelId { controller_id: c, channel_index: i }
}

fn pred(assignments: &[(ChannelId, bool)]) -> Predicate {
    let mut p = Predicate::new_trivial();
    for &(c, v) in assignments {
        p.replace_assignment(c, v);
    }
    p
}

#[test]
fn fixed_width_numbers_are_big_endian() {
    let mut v: Vec<u8> = Vec::new();
    Ser::<u16>::ser(&mut v, &0x0102).unwrap();
    Ser::<u32>::ser(&mut v, &0x03040506).unwrap();
    Ser::<u64>::ser(&mut v, &0x0708090a0b0c0d0e).unwrap();
    assert_eq!(v, vec![1, 2, 3, 4, 5, 6, 7, 8, 9, 10, 11, 12, 13, 14]);
    let mut r = MonitoredReader::new(&v[..]);
    assert_eq!(De::<u16>::de(&mut r), Ok(0x0102));
    assert_eq!(De::<u32>::de(&mut r), Ok(0x03040506));
    assert_eq!(De::<u64>::de(&mut r), Ok(0x0708090a0b0c0d0e));
    assert_eq!(r.bytes_read(), 14);
    assert_eq!(De::<u8>::de(&mut r), Err(SerdeError::UnexpectedEof));
}

#[test]
fn varint_encoding() {
    let mut v: Vec<u8> = Vec::new();
    Ser::<ZigZag>::ser(&mut v, &ZigZag(300)).unwrap();
    assert_eq!(v, vec![0xac, 0x02]);
    let mut w: Vec<u8> = Vec::new();
    Ser::<ZigZag>::ser(&mut w, &ZigZag(u64::MAX)).unwrap();
    assert_eq!(w.len(), 10);
    let mut r = MonitoredReader::new(&w[..]);
    let z: ZigZag = De::<ZigZag>::de(&mut r).unwrap();
    assert_eq!(z.0, u64::MAX);
    let none: [u8; 0] = [];
    let mut empty = MonitoredReader::new(&none[..]);
    assert!(matches!(De::<ZigZag>::de(&mut empty), Err(SerdeError::UnexpectedEof)));
}

#[test]
fn bool_and_polarity_letters() {
    let mut v: Vec<u8> = Vec::new();
    Ser::<bool>::ser(&mut v, &true).unwrap();
    Ser::<bool>::ser(&mut v, &false).unwrap();
    Ser::<Polarity>::ser(&mut v, &Polarity::Putter).unwrap();
    Ser::<Polarity>::ser(&mut v, &Polarity::Getter).unwrap();
    assert_eq!(v, b"TFPG".to_vec());
    let bad = [b'x'];
    let mut r = MonitoredReader::new(&bad[..]);
    assert_eq!(De::<bool>::de(&mut r), Err(SerdeError::InvalidData));
    let mut r = MonitoredReader::new(&bad[..]);
    assert_eq!(De::<Polarity>::de(&mut r), Err(SerdeError::InvalidData));
}

#[test]
fn channel_id_and_endpoint_info_roundtrip() {
    let info = EndpointInfo { polarity: Polarity::Getter, channel_id: cid(7, 200) };
    let mut v: Vec<u8> = Vec::new();
    Ser::<EndpointInfo>::ser(&mut v, &info).unwrap();
    assert_eq!(v, vec![0, 0, 0, 7, 0xc8, 0x01, b'G']);
    let mut r = MonitoredReader::new(&v[..]);
    assert_eq!(De::<EndpointInfo>::de(&mut r), Ok(info));
}

#[test]
fn payload_roundtrip_and_truncation() {
    let mut v: Vec<u8> = Vec::new();
    Ser::<Vec<u8>>::ser(&mut v, &vec![9, 8, 7]).unwrap();
    assert_eq!(v, vec![3, 9, 8, 7]);
    let mut r = MonitoredReader::new(&v[..]);
    assert_eq!(De::<Vec<u8>>::de(&mut r), Ok(vec![9, 8, 7]));
    let mut r = MonitoredReader::new(&v[..3]);
    assert_eq!(De::<Vec<u8>>::de(&mut r), Err(SerdeError::UnexpectedEof));
}

#[test]
fn predicate_roundtrip() {
    let p = pred(&[(cid(1, 2), true), (cid(0, 5), false)]);
    let mut v: Vec<u8> = Vec::new();
    Ser::<Predicate>::ser(&mut v, &p).unwrap();
    assert_eq!(v, vec![2, 0, 0, 0, 0, 5, b'F', 0, 0, 0, 1, 2, b'T']);
    let mut r = MonitoredReader::new(&v[..]);
    assert_eq!(De::<Predicate>::de(&mut r), Ok(p));
}

#[test]
fn predicate_later_assignment_wins() {
    let bytes = vec![2, 0, 0, 0, 0, 5, b'F', 0, 0, 0, 0, 5, b'T'];
    let mut r = MonitoredReader::new(&bytes[..]);
    let p: Predicate = De::<Predicate>::de(&mut r).unwrap();
    assert_eq!(p, pred(&[(cid(0, 5), true)]));
}

fn roundtrip(msg: &Msg) -> Msg {
    let mut v: Vec<u8> = Vec::new();
    Ser::<Msg>::ser(&mut v, msg).unwrap();
    v.push(0xff);
    let mut r = MonitoredReader::new(&v[..]);
    let back: Msg = De::<Msg>::de(&mut r).unwrap();
    assert_eq!(r.bytes_read(), v.len() - 1);
    back
}

#[test]
fn messages_roundtrip() {
    let info = EndpointInfo { polarity: Polarity::Putter, channel_id: cid(3, 9) };
    match roundtrip(&Msg::SetupMsg(SetupMsg::ChannelSetup { info })) {
        Msg::SetupMsg(SetupMsg::ChannelSetup { info: i }) => assert_eq!(i, info),
        other => panic!("{:?}", other),
    }
    match roundtrip(&Msg::SetupMsg(SetupMsg::LeaderEcho { maybe_leader: 42 })) {
        Msg::SetupMsg(SetupMsg::LeaderEcho { maybe_leader }) => assert_eq!(maybe_leader, 42),
        other => panic!("{:?}", other),
    }
    match roundtrip(&Msg::SetupMsg(SetupMsg::YouAreMyParent)) {
        Msg::SetupMsg(SetupMsg::YouAreMyParent) => {},
        other => panic!("{:?}", other),
    }
    let p = pred(&[(cid(3, 9), false)]);
    let send = CommMsgContents::SendPayload { payload_predicate: p.clone(), payload: vec![1, 2, 3] };
    match roundtrip(&send.into_msg(!0)) {
        Msg::CommMsg(CommMsg { round_index, contents: CommMsgContents::SendPayload { payload_predicate, payload } }) => {
            assert_eq!(round_index, !0);
            assert_eq!(payload_predicate, p);
            assert_eq!(payload, vec![1, 2, 3]);
        },
        other => panic!("{:?}", other),
    }
    let announce = CommMsgContents::Announce { decision: Decision::Success(p.clone()) }.into_msg(5);
    match roundtrip(&announce) {
        Msg::CommMsg(CommMsg { round_index: 5, contents: CommMsgContents::Announce { decision: Decision::Success(q) } }) => {
            assert_eq!(q, p)
        },
        other => panic!("{:?}", other),
    }
}

#[test]
fn failure_has_no_encoding() {
    let mut v: Vec<u8> = Vec::new();
    assert_eq!(Ser::<Msg>::ser(&mut v, &CommMsgContents::Failure.into_msg(1)), Err(SerdeError::Unencodable));
    assert!(v.is_empty());
}

#[test]
fn unknown_kind_is_invalid() {
    let bytes = vec![9u8, 0];
    let mut r = MonitoredReader::new(&bytes[..]);
    assert!(matches!(De::<Msg>::de(&mut r), Err(SerdeError::InvalidData)));
}

#[test]
fn inbox_keeps_partial_messages() {
    let mut v: Vec<u8> = Vec::new();
    Ser::<Msg>::ser(&mut v, &Msg::SetupMsg(SetupMsg::LeaderAnnounce { leader: 77 })).unwrap();
    let whole = v.clone();
    v.extend_from_slice(&whole[..2]);
    let mut inbox = v;
    match decode_inbox(&mut inbox) {
        Ok(Some(Msg::SetupMsg(SetupMsg::LeaderAnnounce { leader }))) => assert_eq!(leader, 77),
        other => panic!("{:?}", other),
    }
    assert_eq!(inbox, whole[..2].to_vec());
    assert!(matches!(decode_inbox(&mut inbox), Ok(None)));
    assert_eq!(inbox.len(), 2);
    let mut bad = vec![8u8, 0];
    assert!(matches!(decode_inbox(&mut bad), Err(EndpointErr::MetaProtocolDeviation)));
    assert_eq!(bad, vec![8u8, 0]);
}

#[test]
fn the_count_is_the_sum_of_the_reads() {
    let bytes = vec![1u8, 0, 2, 0, 0, 0, 3, 9];
    let mut r = MonitoredReader::new(&bytes[..]);
    assert_eq!(r.bytes_read(), 0);
    let a: Result<u8, SerdeError> = r.de();
    assert_eq!(a, Ok(1));
    assert_eq!(r.bytes_read(), 1);
    let b: Result<u16, SerdeError> = r.de();
    assert_eq!(b, Ok(2));
    assert_eq!(r.bytes_read(), 3);
    let c: Result<u32, SerdeError> = r.de();
    assert_eq!(c, Ok(3));
    assert_eq!(r.bytes_read(), 7);
    // a read that fails takes nothing
    let d: Result<u16, SerdeError> = r.de();
    assert!(d.is_err());
    assert_eq!(r.bytes_read(), 7);
}
