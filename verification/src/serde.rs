use vstd::prelude::*;
use crate::common::{ChannelId, Payload, Polarity};
use crate::errors::EndpointErr;
use crate::endpoint::{
    CommMsg, CommMsgContents, ContentsView, Decision, DecisionView, EndpointInfo, Msg, MsgView, SetupMsg,
};
use crate::predicate::{Predicate, assignment_map, lemma_assignment_at, sorted_assignments};
use byteorder::ByteOrder;

verus! {

/// Why bytes could not be written or read.
#[derive(Debug, Copy, Clone, PartialEq, Eq, Structural)]
pub enum SerdeError {
    /// The bytes ended before the value did.
    UnexpectedEof,
    /// The bytes do not encode a value.
    InvalidData,
    /// The value has no encoding.
    Unencodable,
}

// ------------------------------------------------------------------
// Encodings
// ------------------------------------------------------------------

/// Big-endian bytes of a 16-bit number.
pub open spec fn enc_u16(x: u16) -> Seq<u8> {
    seq![(x / 0x100) as u8, (x % 0x100) as u8]
}

/// Big-endian bytes of a 32-bit number.
pub open spec fn enc_u32(x: u32) -> Seq<u8> {
    seq![
        (x / 0x100_0000) as u8,
        ((x / 0x1_0000) % 0x100) as u8,
        ((x / 0x100) % 0x100) as u8,
        (x % 0x100) as u8,
    ]
}

/// Big-endian bytes of a 64-bit number.
pub open spec fn enc_u64(x: u64) -> Seq<u8> {
    enc_u32((x / 0x1_0000_0000) as u32) + enc_u32((x % 0x1_0000_0000) as u32)
}

/// The variable-length (LEB128) bytes of a number: seven bits a byte, least significant
/// first, the high bit set on every byte but the last.
pub open spec fn leb128(n: nat) -> Seq<u8>
    decreases n,
{
    if n < 0x80 {
        seq![n as u8]
    } else {
        seq![(n % 0x80 + 0x80) as u8] + leb128(n / 0x80)
    }
}

pub open spec fn enc_bool(b: bool) -> Seq<u8> {
    if b {
        seq![84u8]
    } else {
        seq![70u8]
    }
}

pub open spec fn enc_polarity(p: Polarity) -> Seq<u8> {
    match p {
        Polarity::Putter => seq![80u8],
        Polarity::Getter => seq![71u8],
    }
}

pub open spec fn enc_channel_id(c: ChannelId) -> Seq<u8> {
    enc_u32(c.controller_id) + leb128(c.channel_index as nat)
}

pub open spec fn enc_payload(p: Seq<u8>) -> Seq<u8> {
    leb128(p.len()) + p
}

pub open spec fn enc_endpoint_info(e: EndpointInfo) -> Seq<u8> {
    enc_channel_id(e.channel_id) + enc_polarity(e.polarity)
}

// ------------------------------------------------------------------
// Decodings: each gives the value and the number of bytes it took
// ------------------------------------------------------------------

/// What `VarIntReader::read_varint::<u64>` of `integer_encoding` reads from the front of
/// `bytes`: the value and how many bytes it took, or why it failed.
pub uninterp spec fn varint_read(bytes: Seq<u8>) -> Result<(u64, nat), SerdeError>;

/// A decoding that gave `v` and took `n` bytes.
pub open spec fn taken<T>(v: T, n: nat) -> Result<(T, nat), SerdeError> {
    Ok((v, n))
}

/// A decoding that failed with `e`.
pub open spec fn failed<T>(e: SerdeError) -> Result<(T, nat), SerdeError> {
    Err(e)
}

pub open spec fn parse_zigzag(s: Seq<u8>) -> Result<(ZigZag, nat), SerdeError> {
    match varint_read(s) {
        Ok((v, n)) => Ok((ZigZag(v), n)),
        Err(e) => Err(e),
    }
}

pub open spec fn parse_u8(s: Seq<u8>) -> Result<(u8, nat), SerdeError> {
    if s.len() >= 1 {
        Ok((s[0], 1))
    } else {
        Err(SerdeError::UnexpectedEof)
    }
}

pub open spec fn parse_u16(s: Seq<u8>) -> Result<(u16, nat), SerdeError> {
    if s.len() >= 2 {
        Ok(((s[0] * 0x100 + s[1]) as u16, 2))
    } else {
        Err(SerdeError::UnexpectedEof)
    }
}

pub open spec fn be_value(s: Seq<u8>) -> nat
    decreases s.len(),
{
    if s.len() == 0 {
        0
    } else {
        (be_value(s.drop_last()) * 0x100 + s.last()) as nat
    }
}

pub open spec fn parse_u32(s: Seq<u8>) -> Result<(u32, nat), SerdeError> {
    if s.len() >= 4 {
        Ok((be_value(s.take(4)) as u32, 4))
    } else {
        Err(SerdeError::UnexpectedEof)
    }
}

pub open spec fn parse_u64(s: Seq<u8>) -> Result<(u64, nat), SerdeError> {
    if s.len() >= 8 {
        Ok((be_value(s.take(8)) as u64, 8))
    } else {
        Err(SerdeError::UnexpectedEof)
    }
}

pub open spec fn parse_bool(s: Seq<u8>) -> Result<(bool, nat), SerdeError> {
    if s.len() == 0 {
        Err(SerdeError::UnexpectedEof)
    } else if s[0] == 84 {
        Ok((true, 1))
    } else if s[0] == 70 {
        Ok((false, 1))
    } else {
        Err(SerdeError::InvalidData)
    }
}

pub open spec fn parse_polarity(s: Seq<u8>) -> Result<(Polarity, nat), SerdeError> {
    if s.len() == 0 {
        Err(SerdeError::UnexpectedEof)
    } else if s[0] == 80 {
        Ok((Polarity::Putter, 1))
    } else if s[0] == 71 {
        Ok((Polarity::Getter, 1))
    } else {
        Err(SerdeError::InvalidData)
    }
}

pub open spec fn parse_channel_id(s: Seq<u8>) -> Result<(ChannelId, nat), SerdeError> {
    match parse_u32(s) {
        Err(e) => Err(e),
        Ok((cid, n)) => match varint_read(s.skip(n as int)) {
            Err(e) => Err(e),
            Ok((ix, m)) => Ok((ChannelId { controller_id: cid, channel_index: ix as u32 }, n + m)),
        },
    }
}

pub open spec fn parse_payload(s: Seq<u8>) -> Result<(Seq<u8>, nat), SerdeError> {
    match varint_read(s) {
        Err(e) => Err(e),
        Ok((len, n)) => if n + len <= s.len() {
            Ok((s.subrange(n as int, n + len), (n + len) as nat))
        } else {
            Err(SerdeError::UnexpectedEof)
        },
    }
}

pub open spec fn parse_endpoint_info(s: Seq<u8>) -> Result<(EndpointInfo, nat), SerdeError> {
    match parse_channel_id(s) {
        Err(e) => Err(e),
        Ok((c, n)) => match parse_polarity(s.skip(n as int)) {
            Err(e) => Err(e),
            Ok((p, m)) => Ok((EndpointInfo { polarity: p, channel_id: c }, n + m)),
        },
    }
}

pub proof fn lemma_be_u16(x: u16)
    ensures
        enc_u16(x)[0] * 0x100 + enc_u16(x)[1] == x,
{
    assert((x / 0x100) * 0x100 + x % 0x100 == x) by (nonlinear_arith);
}

pub proof fn lemma_be_u32(x: u32)
    ensures
        be_value(enc_u32(x)) == x,
        be_value(enc_u32(x).take(4)) == x,
{
    let s = enc_u32(x);
    assert(s.take(4) =~= s);
    assert(s.drop_last().drop_last().drop_last().drop_last() =~= Seq::<u8>::empty());
    reveal_with_fuel(be_value, 5);
    assert(be_value(s) == (((x / 0x100_0000) * 0x100 + (x / 0x1_0000) % 0x100) * 0x100 + (x / 0x100) % 0x100) * 0x100 + x % 0x100);
    assert((((x / 0x100_0000) * 0x100 + (x / 0x1_0000) % 0x100) * 0x100 + (x / 0x100) % 0x100) * 0x100 + x % 0x100 == x) by (nonlinear_arith);
}

proof fn lemma_be_value_push(a: Seq<u8>, b: Seq<u8>)
    requires
        b.len() > 0,
    ensures
        be_value(a + b) == be_value(a + b.drop_last()) * 0x100 + b.last(),
{
    assert((a + b).drop_last() =~= a + b.drop_last());
}

/// Appending four bytes shifts the value by four bytes.
proof fn lemma_be_value_append4(a: Seq<u8>, b: Seq<u8>)
    requires
        b.len() == 4,
    ensures
        be_value(a + b) == be_value(a) * 0x1_0000_0000 + be_value(b),
{
    let b3 = b.drop_last();
    let b2 = b3.drop_last();
    let b1 = b2.drop_last();
    let b0 = b1.drop_last();
    assert(b0 =~= Seq::<u8>::empty());
    assert(a + b0 =~= a);
    lemma_be_value_push(a, b);
    lemma_be_value_push(a, b3);
    lemma_be_value_push(a, b2);
    lemma_be_value_push(a, b1);
    lemma_be_value_push(Seq::<u8>::empty(), b);
    lemma_be_value_push(Seq::<u8>::empty(), b3);
    lemma_be_value_push(Seq::<u8>::empty(), b2);
    lemma_be_value_push(Seq::<u8>::empty(), b1);
    assert(Seq::<u8>::empty() + b =~= b);
    assert(Seq::<u8>::empty() + b3 =~= b3);
    assert(Seq::<u8>::empty() + b2 =~= b2);
    assert(Seq::<u8>::empty() + b1 =~= b1);
    assert(Seq::<u8>::empty() + b0 =~= b0);
    assert(be_value(b0) == 0);
    let v = be_value(a);
    assert(be_value(a + b) == (((v * 0x100 + b1.last()) * 0x100 + b2.last()) * 0x100 + b3.last()) * 0x100 + b.last());
    assert(be_value(b) == ((b1.last() * 0x100 + b2.last()) * 0x100 + b3.last()) * 0x100 + b.last());
    assert((((v * 0x100 + b1.last()) * 0x100 + b2.last()) * 0x100 + b3.last()) * 0x100 + b.last()
        == v * 0x1_0000_0000 + (((b1.last() * 0x100 + b2.last()) * 0x100 + b3.last()) * 0x100 + b.last())) by (nonlinear_arith);
}

pub proof fn lemma_be_u64(x: u64)
    ensures
        be_value(enc_u64(x).take(8)) == x,
{
    let hi = (x / 0x1_0000_0000) as u32;
    let lo = (x % 0x1_0000_0000) as u32;
    assert(enc_u64(x).take(8) =~= enc_u64(x));
    lemma_be_u32(hi);
    lemma_be_u32(lo);
    lemma_be_value_append4(enc_u32(hi), enc_u32(lo));
    assert(hi * 0x1_0000_0000 + lo == x) by (nonlinear_arith)
        requires hi == x / 0x1_0000_0000, lo == x % 0x1_0000_0000;
}

/// A 16-bit number reads back from its encoding, whatever follows it.
pub proof fn law_u16_roundtrip(x: u16, tail: Seq<u8>)
    ensures
        parse_u16(enc_u16(x) + tail) == taken(x, 2),
{
    lemma_be_u16(x);
}

/// A 32-bit number reads back from its encoding, whatever follows it.
pub proof fn law_u32_roundtrip(x: u32, tail: Seq<u8>)
    ensures
        parse_u32(enc_u32(x) + tail) == taken(x, 4),
{
    lemma_be_u32(x);
    assert((enc_u32(x) + tail).take(4) =~= enc_u32(x).take(4));
}

/// A 64-bit number reads back from its encoding, whatever follows it.
pub proof fn law_u64_roundtrip(x: u64, tail: Seq<u8>)
    ensures
        parse_u64(enc_u64(x) + tail) == taken(x, 8),
{
    lemma_be_u64(x);
    assert((enc_u64(x) + tail).take(8) =~= enc_u64(x).take(8));
}

/// A boolean reads back from its encoding, whatever follows it.
pub proof fn law_bool_roundtrip(b: bool, tail: Seq<u8>)
    ensures
        parse_bool(enc_bool(b) + tail) == taken(b, 1),
{
}

/// A polarity reads back from its encoding, whatever follows it.
pub proof fn law_polarity_roundtrip(p: Polarity, tail: Seq<u8>)
    ensures
        parse_polarity(enc_polarity(p) + tail) == taken(p, 1),
{
}

/// The bytes of the assignments `s`, one channel and its value after another.
pub open spec fn enc_pairs(s: Seq<(ChannelId, bool)>) -> Seq<u8>
    decreases s.len(),
{
    if s.len() == 0 {
        Seq::empty()
    } else {
        enc_channel_id(s[0].0) + enc_bool(s[0].1) + enc_pairs(s.drop_first())
    }
}

/// A predicate: the number of assignments, then the assignments in order.
pub open spec fn enc_predicate(s: Seq<(ChannelId, bool)>) -> Seq<u8> {
    leb128(s.len()) + enc_pairs(s)
}

/// Reading `k` assignments from `s`, each one added to `acc` (a later one for the same
/// channel replacing an earlier one).
pub open spec fn parse_pairs(s: Seq<u8>, k: nat, acc: Map<ChannelId, bool>) -> Result<(Map<ChannelId, bool>, nat), SerdeError>
    decreases k,
{
    if k == 0 {
        Ok((acc, 0))
    } else {
        match parse_channel_id(s) {
            Err(e) => Err(e),
            Ok((c, n)) => match parse_bool(s.skip(n as int)) {
                Err(e) => Err(e),
                Ok((b, m)) => match parse_pairs(s.skip((n + m) as int), (k - 1) as nat, acc.insert(c, b)) {
                    Err(e) => Err(e),
                    Ok((r, q)) => Ok((r, n + m + q)),
                },
            },
        }
    }
}

pub open spec fn parse_predicate(s: Seq<u8>) -> Result<(Map<ChannelId, bool>, nat), SerdeError> {
    match varint_read(s) {
        Err(e) => Err(e),
        Ok((len, n)) => match parse_pairs(s.skip(n as int), len as nat, Map::empty()) {
            Err(e) => Err(e),
            Ok((m, q)) => Ok((m, n + q)),
        },
    }
}

/// A count `k` more than a parse result's own.
pub open spec fn shifted(r: Result<(Map<ChannelId, bool>, nat), SerdeError>, k: nat) -> Result<(Map<ChannelId, bool>, nat), SerdeError> {
    match r {
        Err(e) => Err(e),
        Ok((m, q)) => Ok((m, q + k)),
    }
}

/// One step of reading assignments: reading a channel and a value from `cur`, leaving
/// `after`, moves the remaining reads forward.
proof fn lemma_step_parse(
    pairs: Seq<u8>,
    cur: Seq<u8>,
    mid: Seq<u8>,
    after: Seq<u8>,
    total: nat,
    k: nat,
    acc: Map<ChannelId, bool>,
    c: ChannelId,
    b: bool,
)
    requires
        k > 0,
        cur.len() <= pairs.len(),
        cur == pairs.skip(pairs.len() - cur.len()),
        parse_pairs(pairs, total, Map::empty()) == shifted(parse_pairs(cur, k, acc), (pairs.len() - cur.len()) as nat),
        parse_channel_id(cur) matches Ok((c2, n)) && c2 == c && n <= cur.len() && mid == cur.skip(n as int),
        parse_bool(mid) matches Ok((b2, m)) && b2 == b && m <= mid.len() && after == mid.skip(m as int),
    ensures
        after.len() <= pairs.len(),
        after == pairs.skip(pairs.len() - after.len()),
        parse_pairs(pairs, total, Map::empty()) == shifted(
            parse_pairs(after, (k - 1) as nat, acc.insert(c, b)),
            (pairs.len() - after.len()) as nat,
        ),
{
    let (c2, n) = parse_channel_id(cur)->Ok_0;
    let (b2, m) = parse_bool(mid)->Ok_0;
    assert(cur.skip((n + m) as int) =~= after);
    assert(after =~= pairs.skip(pairs.len() - after.len()));
}

proof fn lemma_assignment_map_push(s: Seq<(ChannelId, bool)>, x: (ChannelId, bool))
    requires
        sorted_assignments(s.push(x)),
    ensures
        assignment_map(s.push(x)) == assignment_map(s).insert(x.0, x.1),
{
    let t = s.push(x);
    assert(sorted_assignments(s)) by {
        assert forall|i: int, j: int| 0 <= i < j < s.len() implies crate::predicate::cid_lt(#[trigger] s[i].0, #[trigger] s[j].0) by {
            assert(t[i] == s[i] && t[j] == s[j]);
        }
    }
    let a = assignment_map(t);
    let b = assignment_map(s).insert(x.0, x.1);
    assert forall|c: ChannelId| a.contains_key(c) <==> b.contains_key(c) by {
        if a.contains_key(c) {
            let i = choose|i: int| 0 <= i < t.len() && (#[trigger] t[i]).0 == c;
            if i < s.len() {
                assert(t[i] == s[i]);
                lemma_assignment_at(s, i);
            }
        }
        if b.contains_key(c) && c != x.0 {
            let i = choose|i: int| 0 <= i < s.len() && (#[trigger] s[i]).0 == c;
            assert(t[i] == s[i]);
            lemma_assignment_at(t, i);
        }
        if c == x.0 {
            lemma_assignment_at(t, s.len() as int);
        }
    }
    assert forall|c: ChannelId| #[trigger] a.contains_key(c) implies a[c] == b[c] by {
        let i = choose|i: int| 0 <= i < t.len() && (#[trigger] t[i]).0 == c;
        lemma_assignment_at(t, i);
        if i < s.len() {
            assert(t[i] == s[i]);
            lemma_assignment_at(s, i);
            assert(c != x.0) by {
                assert(crate::predicate::cid_lt(t[i].0, t[s.len() as int].0));
            }
        }
    }
    assert(a =~= b);
}

proof fn lemma_enc_pairs_split(s: Seq<(ChannelId, bool)>, i: int)
    requires
        0 <= i < s.len(),
    ensures
        enc_pairs(s.skip(i)) == enc_channel_id(s[i].0) + enc_bool(s[i].1) + enc_pairs(s.skip(i + 1)),
        enc_pairs(s.skip(i)) == enc_channel_id(s[i].0) + (enc_bool(s[i].1) + enc_pairs(s.skip(i + 1))),
{
    assert(s.skip(i).drop_first() =~= s.skip(i + 1));
    assert(enc_channel_id(s[i].0) + enc_bool(s[i].1) + enc_pairs(s.skip(i + 1)) =~= enc_channel_id(s[i].0) + (enc_bool(s[i].1) + enc_pairs(s.skip(i + 1))));
}

/// Where the next assignment of `e` stands at `cur`, its channel reads back.
proof fn lemma_pair_channel(cur: Seq<u8>, e: Seq<(ChannelId, bool)>, i: int)
    requires
        0 <= i < e.len(),
        starts_with(cur, enc_pairs(e.skip(i))),
    ensures
        starts_with(cur, enc_channel_id(e[i].0)),
        enc_channel_id(e[i].0).len() <= cur.len(),
        cur.take(enc_channel_id(e[i].0).len() as int) == enc_channel_id(e[i].0),
        starts_with(cur.skip(enc_channel_id(e[i].0).len() as int), enc_bool(e[i].1) + enc_pairs(e.skip(i + 1))),
        cur.skip(enc_pairs(e.skip(i)).len() as int) == cur.skip(enc_channel_id(e[i].0).len() as int).skip(
            (enc_bool(e[i].1) + enc_pairs(e.skip(i + 1))).len() as int,
        ),
{
    lemma_enc_pairs_split(e, i);
    lemma_starts_with_split(cur, enc_channel_id(e[i].0), enc_bool(e[i].1) + enc_pairs(e.skip(i + 1)));
}

/// Where the value of the next assignment of `e` stands at `mid`, it reads back.
proof fn lemma_pair_value(mid: Seq<u8>, e: Seq<(ChannelId, bool)>, i: int)
    requires
        0 <= i < e.len(),
        starts_with(mid, enc_bool(e[i].1) + enc_pairs(e.skip(i + 1))),
    ensures
        parse_bool(mid) == taken(e[i].1, 1),
        starts_with(mid.skip(1), enc_pairs(e.skip(i + 1))),
        mid.skip((enc_bool(e[i].1) + enc_pairs(e.skip(i + 1))).len() as int) == mid.skip(1).skip(
            enc_pairs(e.skip(i + 1)).len() as int,
        ),
{
    lemma_starts_with_split(mid, enc_bool(e[i].1), enc_pairs(e.skip(i + 1)));
    law_bool_roundtrip(e[i].1, mid.skip(1));
    assert(mid =~= enc_bool(e[i].1) + mid.skip(1));
}

/// The first byte of a setup message's encoding, which tells its kind.
pub open spec fn setup_tag(s: SetupMsg) -> u8 {
    match s {
        SetupMsg::ChannelSetup { .. } => 0,
        SetupMsg::LeaderEcho { .. } => 1,
        SetupMsg::LeaderAnnounce { .. } => 2,
        SetupMsg::YouAreMyParent => 3,
    }
}

/// The bytes of a setup message after its first byte.
pub open spec fn setup_body(s: SetupMsg) -> Seq<u8> {
    match s {
        SetupMsg::ChannelSetup { info } => enc_endpoint_info(info),
        SetupMsg::LeaderEcho { maybe_leader } => enc_u32(maybe_leader),
        SetupMsg::LeaderAnnounce { leader } => enc_u32(leader),
        SetupMsg::YouAreMyParent => Seq::empty(),
    }
}

/// The first byte of the encoding of a round message with these contents.
pub open spec fn contents_tag(c: CommMsgContents) -> u8 {
    match c {
        CommMsgContents::SendPayload { .. } => 4,
        CommMsgContents::Elaborate { .. } => 5,
        _ => 6,
    }
}

/// The bytes of round message contents (after the kind and the round); none for
/// `Failure` and for announcing a failed round, which have no encoding.
pub open spec fn contents_body(c: CommMsgContents) -> Option<Seq<u8>> {
    match c {
        CommMsgContents::SendPayload { payload_predicate, payload } => Some(
            enc_predicate(payload_predicate.entries()) + enc_payload(payload@),
        ),
        CommMsgContents::Elaborate { partial_oracle } => Some(enc_predicate(partial_oracle.entries())),
        CommMsgContents::Announce { decision: Decision::Success(p) } => Some(enc_predicate(p.entries())),
        _ => None,
    }
}

/// The predicates round message contents carry are well formed.
pub open spec fn contents_wf(c: CommMsgContents) -> bool {
    match c {
        CommMsgContents::SendPayload { payload_predicate, .. } => payload_predicate.wf(),
        CommMsgContents::Elaborate { partial_oracle } => partial_oracle.wf(),
        CommMsgContents::Announce { decision: Decision::Success(p) } => p.wf(),
        _ => true,
    }
}

/// The first byte of a message's encoding, which tells its kind.
pub open spec fn msg_tag(m: Msg) -> u8 {
    match m {
        Msg::SetupMsg(s) => setup_tag(s),
        Msg::CommMsg(c) => contents_tag(c.contents),
    }
}

/// The bytes of a message after its first byte, where it has an encoding.
pub open spec fn msg_body(m: Msg) -> Option<Seq<u8>> {
    match m {
        Msg::SetupMsg(s) => Some(setup_body(s)),
        Msg::CommMsg(c) => match contents_body(c.contents) {
            Some(b) => Some(leb128(c.round_index as nat) + b),
            None => None,
        },
    }
}

/// The encoding of a message, where it has one.
pub open spec fn enc_msg(m: Msg) -> Option<Seq<u8>> {
    match msg_body(m) {
        Some(b) => Some(seq![msg_tag(m)] + b),
        None => None,
    }
}

/// The predicates a message carries are well formed.
pub open spec fn msg_wf(m: Msg) -> bool {
    match m {
        Msg::SetupMsg(_) => true,
        Msg::CommMsg(c) => contents_wf(c.contents),
    }
}

/// `s` starts with the encoding of `m`.
pub open spec fn encodes(m: Msg, s: Seq<u8>) -> bool {
    enc_msg(m) matches Some(b) && starts_with(s, b)
}

/// The length of the encoding of `m` (where it has one).
pub open spec fn msg_len(m: Msg) -> nat {
    match enc_msg(m) {
        Some(b) => b.len(),
        None => 0,
    }
}

/// Reading the fields of a setup message of kind `b` from `t`.
pub open spec fn parse_setup(b: u8, t: Seq<u8>) -> Result<(SetupMsg, nat), SerdeError> {
    if b == 0 {
        match parse_endpoint_info(t) {
            Err(e) => Err(e),
            Ok((info, n)) => Ok((SetupMsg::ChannelSetup { info }, n)),
        }
    } else if b == 1 {
        match parse_u32(t) {
            Err(e) => Err(e),
            Ok((x, n)) => Ok((SetupMsg::LeaderEcho { maybe_leader: x }, n)),
        }
    } else if b == 2 {
        match parse_u32(t) {
            Err(e) => Err(e),
            Ok((x, n)) => Ok((SetupMsg::LeaderAnnounce { leader: x }, n)),
        }
    } else {
        Ok((SetupMsg::YouAreMyParent, 0))
    }
}

/// Reading the contents of a round message of kind `b` from `u`.
pub open spec fn parse_contents(b: u8, u: Seq<u8>) -> Result<(ContentsView, nat), SerdeError> {
    if b == 4 {
        match parse_predicate(u) {
            Err(e) => Err(e),
            Ok((pm, k)) => match parse_payload(u.skip(k as int)) {
                Err(e) => Err(e),
                Ok((pl, j)) => Ok((ContentsView::SendPayload(pm, pl), k + j)),
            },
        }
    } else if b == 5 {
        match parse_predicate(u) {
            Err(e) => Err(e),
            Ok((pm, k)) => Ok((ContentsView::Elaborate(pm), k)),
        }
    } else if b == 6 {
        match parse_predicate(u) {
            Err(e) => Err(e),
            Ok((pm, k)) => Ok((ContentsView::Announce(DecisionView::Success(pm)), k)),
        }
    } else {
        Err(SerdeError::InvalidData)
    }
}

/// Reading a message from `s`: a kind byte, then the kind's fields.
pub open spec fn parse_msg(s: Seq<u8>) -> Result<(MsgView, nat), SerdeError> {
    if s.len() == 0 {
        Err(SerdeError::UnexpectedEof)
    } else if s[0] <= 3 {
        match parse_setup(s[0], s.skip(1)) {
            Err(e) => Err(e),
            Ok((m, n)) => Ok((MsgView::Setup(m), n + 1)),
        }
    } else {
        match varint_read(s.skip(1)) {
            Err(e) => Err(e),
            Ok((z, n)) => match parse_contents(s[0], s.skip(1 + n as int)) {
                Err(e) => Err(e),
                Ok((c, k)) => Ok((MsgView::Comm(z as usize, c), 1 + n + k)),
            },
        }
    }
}

proof fn lemma_encodes(m: Msg, s: Seq<u8>)
    requires
        encodes(m, s),
    ensures
        s.len() > 0,
        s[0] == msg_tag(m),
        msg_body(m) is Some,
        starts_with(s.skip(1), msg_body(m)->Some_0),
        msg_len(m) == 1 + msg_body(m)->Some_0.len(),
        s.skip(msg_len(m) as int) == s.skip(1).skip(msg_body(m)->Some_0.len() as int),
{
    let b = msg_body(m)->Some_0;
    lemma_starts_with_split(s, seq![msg_tag(m)], b);
    assert(s.take(1)[0] == s[0]);
}

proof fn lemma_setup_roundtrip(m: Msg, start: Seq<u8>, t: Seq<u8>, b: u8, setup: SetupMsg, after: Seq<u8>)
    requires
        encodes(m, start),
        t == start.skip(1),
        msg_tag(m) == b,
        b <= 3,
        forall|s: SetupMsg|
            setup_tag(s) == b && #[trigger] starts_with(t, setup_body(s)) ==> Ok::<SetupMsg, SerdeError>(setup) == Ok::<SetupMsg, SerdeError>(s)
                && after == t.skip(setup_body(s).len() as int),
    ensures
        Msg::SetupMsg(setup)@ == m@,
        after == start.skip(msg_len(m) as int),
{
    lemma_encodes(m, start);
    let s = m->SetupMsg_0;
    assert(starts_with(t, setup_body(s)));
}

/// What is left after the round number of the encoding of `m`: its contents, then what
/// follows the message.
pub open spec fn comm_rest(m: Msg, zig: u64, u: Seq<u8>, start: Seq<u8>) -> bool {
    &&& m is CommMsg
    &&& zig == m->CommMsg_0.round_index as u64
    &&& contents_body(m->CommMsg_0.contents) is Some
    &&& starts_with(u, contents_body(m->CommMsg_0.contents)->Some_0)
    &&& u.skip(contents_body(m->CommMsg_0.contents)->Some_0.len() as int) == start.skip(msg_len(m) as int)
}

proof fn lemma_parse_msg_comm(start: Seq<u8>)
    requires
        start.len() > 0,
        start[0] > 3,
    ensures
        parse_msg(start) == match varint_read(start.skip(1)) {
            Err(e) => Err(e),
            Ok((z, n)) => match parse_contents(start[0], start.skip(1 + n as int)) {
                Err(e) => Err(e),
                Ok((c, k)) => Ok((MsgView::Comm(z as usize, c), 1 + n + k)),
            },
        },
{
}

proof fn lemma_comm_prefix(m: Msg, start: Seq<u8>, t: Seq<u8>, b: u8)
    requires
        encodes(m, start),
        msg_tag(m) == b,
        b > 3,
        t == start.skip(1),
    ensures
        m is CommMsg,
        contents_tag(m->CommMsg_0.contents) == b,
        contents_body(m->CommMsg_0.contents) is Some,
        #[trigger] leb128(m->CommMsg_0.round_index as u64 as nat).len() <= t.len(),
        t.take(leb128(m->CommMsg_0.round_index as u64 as nat).len() as int) == leb128(m->CommMsg_0.round_index as u64 as nat),
        forall|u: Seq<u8>| u == t.skip(leb128(m->CommMsg_0.round_index as u64 as nat).len() as int) ==> #[trigger] comm_rest(m, m->CommMsg_0.round_index as u64, u, start),
{
    lemma_encodes(m, start);
    let c = m->CommMsg_0;
    let z = leb128(c.round_index as u64 as nat);
    let body = contents_body(c.contents)->Some_0;
    lemma_starts_with_split(t, z, body);
    assert(msg_body(m)->Some_0 == z + body);
}

/// `r` is a message whose view is `v`.
pub open spec fn msg_is(r: Result<Msg, SerdeError>, v: MsgView) -> bool {
    r is Ok && r->Ok_0@ == v
}

/// `r` holds contents whose view is `v`.
pub open spec fn contents_is(r: Result<CommMsgContents, SerdeError>, v: ContentsView) -> bool {
    r is Ok && r->Ok_0@ == v
}

/// As `decoded`, for the contents of a round message.
pub open spec fn decoded_contents(
    before: Seq<u8>,
    count_before: nat,
    r: Result<CommMsgContents, SerdeError>,
    after: Seq<u8>,
    count_after: nat,
    parsed: Result<(ContentsView, nat), SerdeError>,
) -> bool {
    match parsed {
        Ok((v, n)) => contents_is(r, v) && n <= before.len() && after == before.skip(n as int)
            && count_after == count_before + n,
        Err(e) => r == Err::<CommMsgContents, SerdeError>(e),
    }
}

/// As `decoded`, for a message.
pub open spec fn decoded_msg(
    before: Seq<u8>,
    count_before: nat,
    r: Result<Msg, SerdeError>,
    after: Seq<u8>,
    count_after: nat,
    parsed: Result<(MsgView, nat), SerdeError>,
) -> bool {
    match parsed {
        Ok((v, n)) => msg_is(r, v) && n <= before.len() && after == before.skip(n as int)
            && count_after == count_before + n,
        Err(e) => r == Err::<Msg, SerdeError>(e),
    }
}

// ------------------------------------------------------------------
// Calls into byteorder and integer_encoding
// ------------------------------------------------------------------

/// Calls `BigEndian::write_u16` of `byteorder` on a two-byte buffer.
/// Claimed: the buffer then holds `x`, most significant byte first.
#[verifier::external_body]
fn be_bytes_u16(x: u16) -> (r: [u8; 2])
    ensures
        r@ == enc_u16(x),
{
    let mut buf = [0u8; 2];
    byteorder::BigEndian::write_u16(&mut buf, x);
    buf
}

/// Calls `BigEndian::write_u32` of `byteorder` on a four-byte buffer.
/// Claimed: the buffer then holds `x`, most significant byte first.
#[verifier::external_body]
fn be_bytes_u32(x: u32) -> (r: [u8; 4])
    ensures
        r@ == enc_u32(x),
{
    let mut buf = [0u8; 4];
    byteorder::BigEndian::write_u32(&mut buf, x);
    buf
}

/// Calls `BigEndian::write_u64` of `byteorder` on an eight-byte buffer.
/// Claimed: the buffer then holds `x`, most significant byte first.
#[verifier::external_body]
fn be_bytes_u64(x: u64) -> (r: [u8; 8])
    ensures
        r@ == enc_u64(x),
{
    let mut buf = [0u8; 8];
    byteorder::BigEndian::write_u64(&mut buf, x);
    buf
}

/// Calls `BigEndian::read_u16` of `byteorder`, which panics on fewer than two bytes.
/// Claimed: the first two bytes, read most significant first.
#[verifier::external_body]
fn be_read_u16(buf: &[u8]) -> (r: u16)
    requires
        buf@.len() >= 2,
    ensures
        r == buf@[0] * 0x100 + buf@[1],
{
    byteorder::BigEndian::read_u16(buf)
}

/// Calls `BigEndian::read_u32` of `byteorder`, which panics on fewer than four bytes.
/// Claimed: the first four bytes, read most significant first.
#[verifier::external_body]
fn be_read_u32(buf: &[u8]) -> (r: u32)
    requires
        buf@.len() >= 4,
    ensures
        r == be_value(buf@.take(4)),
{
    byteorder::BigEndian::read_u32(buf)
}

/// Calls `BigEndian::read_u64` of `byteorder`, which panics on fewer than eight bytes.
/// Claimed: the first eight bytes, read most significant first.
#[verifier::external_body]
fn be_read_u64(buf: &[u8]) -> (r: u64)
    requires
        buf@.len() >= 8,
    ensures
        r == be_value(buf@.take(8)),
{
    byteorder::BigEndian::read_u64(buf)
}

/// Calls `VarInt::encode_var_vec` of `integer_encoding` on a `u64`.
/// Claimed: the result is the LEB128 encoding of `n` (protocol buffers' varint).
#[verifier::external_body]
fn varint_bytes(n: u64) -> (r: Vec<u8>)
    ensures
        r@ == leb128(n as nat),
{
    integer_encoding::VarInt::encode_var_vec(n)
}

/// A read that gave `v` and left `left` bytes after it.
pub open spec fn read_left(v: u64, left: usize) -> Result<(u64, usize), SerdeError> {
    Ok((v, left))
}

/// Calls `VarIntReader::read_varint::<u64>` of `integer_encoding` on `bytes`, and gives
/// the value with the number of bytes left after it. Claimed: the outcome is
/// `varint_read(bytes)`, at least one byte is taken, an empty input fails with
/// `UnexpectedEof`, and the LEB128 encoding of a number, whatever follows it, reads back
/// as that number and takes exactly its own bytes.
#[verifier::external_body]
fn read_varint(bytes: &[u8]) -> (r: Result<(u64, usize), SerdeError>)
    ensures
        r matches Ok((v, left)) ==> left < bytes@.len() && varint_read(bytes@) == taken(v, (bytes@.len() - left) as nat),
        r matches Err(e) ==> varint_read(bytes@) == failed::<u64>(e) && (bytes@.len() == 0
            ==> e == SerdeError::UnexpectedEof),
        forall|n: u64|
            #[trigger] leb128(n as nat).len() <= bytes@.len() && bytes@.take(leb128(n as nat).len() as int) == leb128(n as nat)
                ==> r == read_left(n, (bytes@.len() - leb128(n as nat).len()) as usize),
{
    let mut rest = bytes;
    match integer_encoding::VarIntReader::read_varint::<u64>(&mut rest) {
        Ok(v) => Ok((v, rest.len())),
        Err(e) => match e.kind() {
            std::io::ErrorKind::UnexpectedEof => Err(SerdeError::UnexpectedEof),
            _ => Err(SerdeError::InvalidData),
        },
    }
}

// ------------------------------------------------------------------
// Writers and readers
// ------------------------------------------------------------------

/// Writing values of type `T` as bytes.
pub trait Ser<T> {
    fn ser(&mut self, t: &T) -> Result<(), SerdeError>;
}

/// Reading values of type `T` from bytes.
pub trait De<T> {
    /// The reader is in a state to be read from.
    spec fn readable(&self) -> bool;

    fn de(&mut self) -> (r: Result<T, SerdeError>)
        requires
            old(self).readable(),
        ensures
            final(self).readable(),
    ;
}

/// A reader that counts the bytes read through it.
pub struct MonitoredReader<R> {
    bytes: usize,
    r: R,
}

impl<R> MonitoredReader<R> {
    /// The number of bytes read so far.
    pub closed spec fn count(&self) -> nat {
        self.bytes as nat
    }

    pub closed spec fn inner(&self) -> R {
        self.r
    }

    /// A reader around `r` that has read nothing yet.
    pub closed spec fn fresh(r: R) -> Self {
        MonitoredReader { r, bytes: 0 }
    }

    pub fn bytes_read(&self) -> (r: usize)
        ensures
            r == self.count(),
    {
        self.bytes
    }
}

impl<R> From<R> for MonitoredReader<R> {
    fn from(r: R) -> (m: Self) {
        MonitoredReader { r, bytes: 0 }
    }
}

impl<R> vstd::std_specs::convert::FromSpecImpl<R> for MonitoredReader<R> {
    open spec fn obeys_from_spec() -> bool {
        true
    }

    open spec fn from_spec(r: R) -> Self {
        MonitoredReader::fresh(r)
    }
}

impl<'a> MonitoredReader<&'a [u8]> {
    /// The bytes not yet read.
    pub closed spec fn rest(&self) -> Seq<u8> {
        self.r@
    }

    pub closed spec fn wf(&self) -> bool {
        self.bytes + self.r@.len() <= usize::MAX
    }

    /// A reader over `bytes` that has read nothing yet.
    pub fn new(bytes: &'a [u8]) -> (m: Self)
        ensures
            m.wf(),
            m.rest() == bytes@,
            m.count() == 0,
    {
        let len = bytes.len();
        assert(len == bytes@.len());
        MonitoredReader { r: bytes, bytes: 0 }
    }

    /// Takes the next `n` bytes, where there are that many; otherwise takes nothing.
    fn take(&mut self, n: usize) -> (r: Option<&'a [u8]>)
        requires
            old(self).wf(),
        ensures
            final(self).wf(),
            n <= old(self).rest().len() ==> (r matches Some(s) && s@ == old(self).rest().take(n as int)
                && final(self).rest() == old(self).rest().skip(n as int)
                && final(self).count() == old(self).count() + n),
            n > old(self).rest().len() ==> r is None && *final(self) == *old(self),
    {
        if n <= self.r.len() {
            let head = vstd::slice::slice_subrange(self.r, 0, n);
            let tail = vstd::slice::slice_subrange(self.r, n, self.r.len());
            self.r = tail;
            self.bytes = self.bytes + n;
            Some(head)
        } else {
            None
        }
    }

    /// Skips `n` bytes, which are there.
    fn skip(&mut self, n: usize)
        requires
            old(self).wf(),
            n <= old(self).rest().len(),
        ensures
            final(self).wf(),
            final(self).rest() == old(self).rest().skip(n as int),
            final(self).count() == old(self).count() + n,
    {
        let tail = vstd::slice::slice_subrange(self.r, n, self.r.len());
        self.r = tail;
        self.bytes = self.bytes + n;
    }
}

/// `r` and the reader after it are what decoding `parsed` from the bytes before describes.
pub open spec fn decoded<T>(
    before: Seq<u8>,
    count_before: nat,
    r: Result<T, SerdeError>,
    after: Seq<u8>,
    count_after: nat,
    parsed: Result<(T, nat), SerdeError>,
) -> bool {
    match parsed {
        Ok((v, n)) => r == Ok::<T, SerdeError>(v) && n <= before.len() && after == before.skip(n as int)
            && count_after == count_before + n,
        Err(e) => r == Err::<T, SerdeError>(e),
    }
}

/// Two reads in a row, the second from where the first ended, take the bytes of both: the
/// reader's count grows by the two lengths together, and the bytes after are those after
/// both.
pub proof fn law_consecutive_reads<T, U>(
    b0: Seq<u8>,
    c0: nat,
    r1: Result<T, SerdeError>,
    b1: Seq<u8>,
    c1: nat,
    v1: T,
    n1: nat,
    r2: Result<U, SerdeError>,
    b2: Seq<u8>,
    c2: nat,
    v2: U,
    n2: nat,
)
    requires
        decoded(b0, c0, r1, b1, c1, Ok((v1, n1))),
        decoded(b1, c1, r2, b2, c2, Ok((v2, n2))),
    ensures
        n1 + n2 <= b0.len(),
        b2 == b0.skip((n1 + n2) as int),
        c2 == c0 + n1 + n2,
        r1 == Ok::<T, SerdeError>(v1) && r2 == Ok::<U, SerdeError>(v2),
{
    assert(b0.skip(n1 as int).skip(n2 as int) =~= b0.skip((n1 + n2) as int));
}

/// The sum of the lengths `s`.
pub open spec fn total(s: Seq<nat>) -> nat
    decreases s.len(),
{
    if s.len() == 0 {
        0
    } else {
        total(s.drop_last()) + s.last()
    }
}

/// Reads in a row that took `lens[0]`, `lens[1]`, ... bytes, each from where the one before
/// ended (the reader standing at `rests[i]` with count `counts[i]` before read `i`): the
/// count grows by the sum of the lengths, and the reader stands after all of them. With
/// [`law_fresh_counts_nothing`], the count of a reader is the total length of the successful
/// reads since it was made.
pub proof fn law_count_sums_reads(rests: Seq<Seq<u8>>, counts: Seq<nat>, lens: Seq<nat>)
    requires
        rests.len() == lens.len() + 1,
        counts.len() == lens.len() + 1,
        forall|i: int| 0 <= i < lens.len() ==> #[trigger] lens[i] <= rests[i].len()
            && rests[i + 1] == rests[i].skip(lens[i] as int)
            && counts[i + 1] == counts[i] + lens[i],
    ensures
        counts[lens.len() as int] == counts[0] + total(lens),
        total(lens) <= rests[0].len(),
        rests[lens.len() as int] == rests[0].skip(total(lens) as int),
    decreases lens.len(),
{
    if lens.len() > 0 {
        let k = lens.len() - 1;
        let l = lens.drop_last();
        assert forall|i: int| 0 <= i < l.len() implies #[trigger] l[i] <= rests.drop_last()[i].len()
            && rests.drop_last()[i + 1] == rests.drop_last()[i].skip(l[i] as int)
            && counts.drop_last()[i + 1] == counts.drop_last()[i] + l[i] by {
            assert(lens[i] <= rests[i].len());
        }
        law_count_sums_reads(rests.drop_last(), counts.drop_last(), l);
        assert(lens[k] <= rests[k].len());
        assert(rests[k].skip(lens[k] as int) =~= rests[0].skip(total(lens) as int));
    } else {
        assert(rests[0].skip(0) =~= rests[0]);
    }
}

/// A reader made from another has counted nothing yet.
pub proof fn law_fresh_counts_nothing<R>(r: R)
    ensures
        MonitoredReader::fresh(r).count() == 0,
{
}

/// `r` is a payload that holds `p`.
pub open spec fn reads_as(r: Result<Payload, SerdeError>, p: Seq<u8>) -> bool {
    r is Ok && r->Ok_0@ == p
}

/// `r` is a well-formed predicate whose map is `m`.
pub open spec fn predicate_is(r: Result<Predicate, SerdeError>, m: Map<ChannelId, bool>) -> bool {
    r is Ok && r->Ok_0.wf() && r->Ok_0@ == m
}

/// As `decoded`, for a predicate.
pub open spec fn decoded_predicate(
    before: Seq<u8>,
    count_before: nat,
    r: Result<Predicate, SerdeError>,
    after: Seq<u8>,
    count_after: nat,
    parsed: Result<(Map<ChannelId, bool>, nat), SerdeError>,
) -> bool {
    match parsed {
        Ok((m, n)) => predicate_is(r, m) && n <= before.len() && after == before.skip(n as int)
            && count_after == count_before + n,
        Err(e) => r == Err::<Predicate, SerdeError>(e),
    }
}

/// As `decoded`, for a payload.
pub open spec fn decoded_payload(
    before: Seq<u8>,
    count_before: nat,
    r: Result<Payload, SerdeError>,
    after: Seq<u8>,
    count_after: nat,
    parsed: Result<(Seq<u8>, nat), SerdeError>,
) -> bool {
    match parsed {
        Ok((v, n)) => reads_as(r, v) && n <= before.len() && after == before.skip(n as int)
            && count_after == count_before + n,
        Err(e) => r == Err::<Payload, SerdeError>(e),
    }
}

impl Ser<u8> for Vec<u8> {
    fn ser(&mut self, t: &u8) -> (r: Result<(), SerdeError>)
        ensures
            r is Ok,
            final(self)@ == old(self)@.push(*t),
    {
        self.push(*t);
        Ok(())
    }
}

impl<'a> De<u8> for MonitoredReader<&'a [u8]> {
    open spec fn readable(&self) -> bool {
        self.wf()
    }

    fn de(&mut self) -> (r: Result<u8, SerdeError>)
        ensures
            decoded(old(self).rest(), old(self).count(), r, final(self).rest(), final(self).count(), parse_u8(old(self).rest())),
    {
        match self.take(1) {
            Some(b) => Ok(b[0]),
            None => Err(SerdeError::UnexpectedEof),
        }
    }
}

impl Ser<u16> for Vec<u8> {
    fn ser(&mut self, t: &u16) -> (r: Result<(), SerdeError>)
        ensures
            r is Ok,
            final(self)@ == old(self)@ + enc_u16(*t),
    {
        let b = be_bytes_u16(*t);
        self.push(b[0]);
        self.push(b[1]);
        assert(self@ =~= old(self)@ + enc_u16(*t));
        Ok(())
    }
}

impl<'a> De<u16> for MonitoredReader<&'a [u8]> {
    open spec fn readable(&self) -> bool {
        self.wf()
    }

    fn de(&mut self) -> (r: Result<u16, SerdeError>)
        ensures
            decoded(old(self).rest(), old(self).count(), r, final(self).rest(), final(self).count(), parse_u16(old(self).rest())),
    {
        match self.take(2) {
            Some(b) => Ok(be_read_u16(b)),
            None => Err(SerdeError::UnexpectedEof),
        }
    }
}

impl Ser<u32> for Vec<u8> {
    fn ser(&mut self, t: &u32) -> (r: Result<(), SerdeError>)
        ensures
            r is Ok,
            final(self)@ == old(self)@ + enc_u32(*t),
    {
        let b = be_bytes_u32(*t);
        self.push(b[0]);
        self.push(b[1]);
        self.push(b[2]);
        self.push(b[3]);
        assert(self@ =~= old(self)@ + enc_u32(*t));
        Ok(())
    }
}

impl<'a> De<u32> for MonitoredReader<&'a [u8]> {
    open spec fn readable(&self) -> bool {
        self.wf()
    }

    fn de(&mut self) -> (r: Result<u32, SerdeError>)
        ensures
            decoded(old(self).rest(), old(self).count(), r, final(self).rest(), final(self).count(), parse_u32(old(self).rest())),
    {
        match self.take(4) {
            Some(b) => {
                assert(b@.take(4) =~= old(self).rest().take(4));
                Ok(be_read_u32(b))
            },
            None => Err(SerdeError::UnexpectedEof),
        }
    }
}

impl Ser<u64> for Vec<u8> {
    fn ser(&mut self, t: &u64) -> (r: Result<(), SerdeError>)
        ensures
            r is Ok,
            final(self)@ == old(self)@ + enc_u64(*t),
    {
        let b = be_bytes_u64(*t);
        let mut i: usize = 0;
        while i < 8
            invariant
                i <= 8,
                b@ == enc_u64(*t),
                self@ == old(self)@ + b@.take(i as int),
            decreases 8 - i,
        {
            self.push(b[i]);
            i = i + 1;
            assert(self@ =~= old(self)@ + b@.take(i as int));
        }
        assert(b@.take(8) =~= b@);
        Ok(())
    }
}

impl<'a> De<u64> for MonitoredReader<&'a [u8]> {
    open spec fn readable(&self) -> bool {
        self.wf()
    }

    fn de(&mut self) -> (r: Result<u64, SerdeError>)
        ensures
            decoded(old(self).rest(), old(self).count(), r, final(self).rest(), final(self).count(), parse_u64(old(self).rest())),
    {
        match self.take(8) {
            Some(b) => {
                assert(b@.take(8) =~= old(self).rest().take(8));
                Ok(be_read_u64(b))
            },
            None => Err(SerdeError::UnexpectedEof),
        }
    }
}

/// A number written in the variable-length encoding.
pub struct ZigZag(pub u64);

impl Ser<ZigZag> for Vec<u8> {
    fn ser(&mut self, t: &ZigZag) -> (r: Result<(), SerdeError>)
        ensures
            r is Ok,
            final(self)@ == old(self)@ + leb128(t.0 as nat),
    {
        let b = varint_bytes(t.0);
        crate::inputsource::append_bytes(self, b.as_slice());
        Ok(())
    }
}

impl<'a> De<ZigZag> for MonitoredReader<&'a [u8]> {
    open spec fn readable(&self) -> bool {
        self.wf()
    }

    fn de(&mut self) -> (r: Result<ZigZag, SerdeError>)
        ensures
            decoded(old(self).rest(), old(self).count(), r, final(self).rest(), final(self).count(), parse_zigzag(old(self).rest())),
            forall|n: u64|
                #[trigger] leb128(n as nat).len() <= old(self).rest().len() && old(self).rest().take(leb128(n as nat).len() as int) == leb128(n as nat)
                    ==> r is Ok && r->Ok_0.0 == n && final(self).rest() == old(self).rest().skip(leb128(n as nat).len() as int),
    {
        match read_varint(self.r) {
            Ok((v, left)) => {
                let used = self.r.len() - left;
                self.skip(used);
                Ok(ZigZag(v))
            },
            Err(e) => Err(e),
        }
    }
}

impl Ser<bool> for Vec<u8> {
    fn ser(&mut self, t: &bool) -> (r: Result<(), SerdeError>)
        ensures
            r is Ok,
            final(self)@ == old(self)@ + enc_bool(*t),
    {
        let b: u8 = match t {
            true => 84u8,
            false => 70u8,
        };
        Ser::<u8>::ser(self, &b)
    }
}

impl<'a> De<bool> for MonitoredReader<&'a [u8]> {
    open spec fn readable(&self) -> bool {
        self.wf()
    }

    fn de(&mut self) -> (r: Result<bool, SerdeError>)
        ensures
            decoded(old(self).rest(), old(self).count(), r, final(self).rest(), final(self).count(), parse_bool(old(self).rest())),
    {
        let b: u8 = match De::<u8>::de(self) {
            Ok(b) => b,
            Err(e) => {
                return Err(e);
            },
        };
        match b {
            84u8 => Ok(true),
            70u8 => Ok(false),
            _ => Err(SerdeError::InvalidData),
        }
    }
}

impl Ser<Polarity> for Vec<u8> {
    fn ser(&mut self, t: &Polarity) -> (r: Result<(), SerdeError>)
        ensures
            r is Ok,
            final(self)@ == old(self)@ + enc_polarity(*t),
    {
        let b: u8 = match t {
            Polarity::Putter => 80u8,
            Polarity::Getter => 71u8,
        };
        Ser::<u8>::ser(self, &b)
    }
}

impl<'a> De<Polarity> for MonitoredReader<&'a [u8]> {
    open spec fn readable(&self) -> bool {
        self.wf()
    }

    fn de(&mut self) -> (r: Result<Polarity, SerdeError>)
        ensures
            decoded(old(self).rest(), old(self).count(), r, final(self).rest(), final(self).count(), parse_polarity(old(self).rest())),
    {
        let b: u8 = match De::<u8>::de(self) {
            Ok(b) => b,
            Err(e) => {
                return Err(e);
            },
        };
        match b {
            80u8 => Ok(Polarity::Putter),
            71u8 => Ok(Polarity::Getter),
            _ => Err(SerdeError::InvalidData),
        }
    }
}

impl Ser<ChannelId> for Vec<u8> {
    fn ser(&mut self, t: &ChannelId) -> (r: Result<(), SerdeError>)
        ensures
            r is Ok,
            final(self)@ == old(self)@ + enc_channel_id(*t),
    {
        let _ = Ser::<u32>::ser(self, &t.controller_id);
        let r = Ser::<ZigZag>::ser(self, &ZigZag(t.channel_index as u64));
        assert(self@ =~= old(self)@ + enc_channel_id(*t));
        r
    }
}

impl<'a> De<ChannelId> for MonitoredReader<&'a [u8]> {
    open spec fn readable(&self) -> bool {
        self.wf()
    }

    fn de(&mut self) -> (r: Result<ChannelId, SerdeError>)
        ensures
            decoded(old(self).rest(), old(self).count(), r, final(self).rest(), final(self).count(), parse_channel_id(old(self).rest())),
            forall|c: ChannelId|
                #[trigger] enc_channel_id(c).len() <= old(self).rest().len() && old(self).rest().take(enc_channel_id(c).len() as int) == enc_channel_id(c)
                    ==> r == Ok::<ChannelId, SerdeError>(c) && final(self).rest() == old(self).rest().skip(enc_channel_id(c).len() as int),
    {
        let ghost start = self.rest();
        let controller_id: u32 = match De::<u32>::de(self) {
            Ok(x) => x,
            Err(e) => {
                proof {
                    assert forall|c: ChannelId| #[trigger] enc_channel_id(c).len() <= start.len() && start.take(enc_channel_id(c).len() as int) == enc_channel_id(c) implies false by {
                        assert(start.len() >= 4);
                    }
                }
                return Err(e);
            },
        };
        let ghost mid = self.rest();
        let z: ZigZag = match De::<ZigZag>::de(self) {
            Ok(z) => z,
            Err(e) => {
                proof {
                    assert forall|c: ChannelId| #[trigger] enc_channel_id(c).len() <= start.len() && start.take(enc_channel_id(c).len() as int) == enc_channel_id(c) implies false by {
                        let n = c.channel_index as u64;
                        assert(start.take(4) =~= enc_u32(c.controller_id));
                        assert(mid.take(leb128(n as nat).len() as int) =~= leb128(n as nat)) by {
                            assert forall|k: int| 0 <= k < leb128(n as nat).len() implies mid[k] == leb128(n as nat)[k] by {
                                assert(start.take(enc_channel_id(c).len() as int)[4 + k] == enc_channel_id(c)[4 + k]);
                            }
                        }
                        assert(leb128(n as nat).len() <= mid.len());
                    }
                }
                return Err(e);
            },
        };
        let c = ChannelId { controller_id, channel_index: #[verifier::truncate] (z.0 as u32) };
        proof {
            match varint_read(mid) {
                Ok((v, m)) => {
                    assert(self.rest() =~= start.skip(4 + m as int));
                },
                Err(_) => {},
            }
            assert forall|d: ChannelId| #[trigger] enc_channel_id(d).len() <= start.len() && start.take(enc_channel_id(d).len() as int) == enc_channel_id(d) implies c == d && self.rest() == start.skip(enc_channel_id(d).len() as int) by {
                let n = d.channel_index as u64;
                assert(start.take(4) =~= enc_u32(d.controller_id)) by {
                    assert forall|k: int| 0 <= k < 4 implies start[k] == enc_u32(d.controller_id)[k] by {
                        assert(start.take(enc_channel_id(d).len() as int)[k] == enc_channel_id(d)[k]);
                    }
                }
                lemma_be_u32(d.controller_id);
                assert(controller_id == d.controller_id);
                assert(mid.take(leb128(n as nat).len() as int) =~= leb128(n as nat)) by {
                    assert forall|k: int| 0 <= k < leb128(n as nat).len() implies mid[k] == leb128(n as nat)[k] by {
                        assert(start.take(enc_channel_id(d).len() as int)[4 + k] == enc_channel_id(d)[4 + k]);
                    }
                }
                assert(leb128(n as nat).len() <= mid.len());
                assert(z.0 == n);
                assert(self.rest() =~= start.skip(enc_channel_id(d).len() as int));
            }
        }
        Ok(c)
    }
}

/// `s` starts with `prefix`.
pub open spec fn starts_with(s: Seq<u8>, prefix: Seq<u8>) -> bool {
    prefix.len() <= s.len() && s.take(prefix.len() as int) == prefix
}

proof fn lemma_starts_with_split(s: Seq<u8>, a: Seq<u8>, b: Seq<u8>)
    requires
        starts_with(s, a + b),
    ensures
        starts_with(s, a),
        starts_with(s.skip(a.len() as int), b),
        s.skip((a + b).len() as int) == s.skip(a.len() as int).skip(b.len() as int),
{
    assert(s.take(a.len() as int) =~= a) by {
        assert forall|k: int| 0 <= k < a.len() implies s[k] == a[k] by {
            assert(s.take((a + b).len() as int)[k] == (a + b)[k]);
        }
    }
    assert(s.skip(a.len() as int).take(b.len() as int) =~= b) by {
        assert forall|k: int| 0 <= k < b.len() implies s[a.len() + k] == b[k] by {
            assert(s.take((a + b).len() as int)[a.len() + k] == (a + b)[a.len() + k]);
        }
    }
    assert(s.skip((a + b).len() as int) =~= s.skip(a.len() as int).skip(b.len() as int));
}

impl Ser<Payload> for Vec<u8> {
    fn ser(&mut self, t: &Payload) -> (r: Result<(), SerdeError>)
        ensures
            r is Ok,
            final(self)@ == old(self)@ + enc_payload(t@),
    {
        let _ = Ser::<ZigZag>::ser(self, &ZigZag(t.len() as u64));
        let ghost mid = self@;
        let mut i: usize = 0;
        while i < t.len()
            invariant
                i <= t@.len(),
                self@ == mid + t@.take(i as int),
            decreases t@.len() - i,
        {
            let _ = Ser::<u8>::ser(self, &t[i]);
            i = i + 1;
            assert(self@ =~= mid + t@.take(i as int));
        }
        assert(t@.take(i as int) =~= t@);
        assert(self@ =~= old(self)@ + enc_payload(t@));
        Ok(())
    }
}

impl<'a> De<Payload> for MonitoredReader<&'a [u8]> {
    open spec fn readable(&self) -> bool {
        self.wf()
    }

    fn de(&mut self) -> (r: Result<Payload, SerdeError>)
        ensures
            decoded_payload(old(self).rest(), old(self).count(), r, final(self).rest(), final(self).count(), parse_payload(old(self).rest())),
            forall|p: Seq<u8>|
                #[trigger] starts_with(old(self).rest(), enc_payload(p)) ==> reads_as(r, p)
                    && final(self).rest() == old(self).rest().skip(enc_payload(p).len() as int),
    {
        let ghost start = self.rest();
        let ghost count0 = self.count();
        let len = match De::<ZigZag>::de(self) {
            Ok(z) => z.0,
            Err(e) => {
                proof {
                    assert forall|p: Seq<u8>| #[trigger] starts_with(start, enc_payload(p)) implies false by {
                        lemma_starts_with_split(start, leb128(p.len()), p);
                    }
                }
                return Err(e);
            },
        };
        let ghost mid = self.rest();
        let ghost n = (start.len() - mid.len()) as nat;
        proof {
            assert forall|p: Seq<u8>| #[trigger] starts_with(start, enc_payload(p)) implies len == p.len() && n == leb128(p.len()).len() by {
                lemma_starts_with_split(start, leb128(p.len()), p);
            }
        }
        proof {
            assert(mid =~= start.skip(n as int));
        }
        let mut x: Vec<u8> = Vec::new();
        let mut i: u64 = 0;
        while i < len
            invariant
                self.wf(),
                start == old(self).rest(),
                count0 == old(self).count(),
                varint_read(start) == taken(len, n),
                n <= start.len(),
                mid == start.skip(n as int),
                forall|p: Seq<u8>| #[trigger] starts_with(start, enc_payload(p)) ==> len == p.len() && n == leb128(p.len()).len(),
                i <= len,
                i <= mid.len(),
                x@ == mid.take(i as int),
                self.rest() == mid.skip(i as int),
                self.count() == count0 + n + i,
            decreases len - i,
        {
            match De::<u8>::de(self) {
                Ok(b) => {
                    x.push(b);
                },
                Err(e) => {
                    proof {
                        assert forall|p: Seq<u8>| #[trigger] starts_with(start, enc_payload(p)) implies false by {
                            lemma_starts_with_split(start, leb128(p.len()), p);
                        }
                    }
                    return Err(e);
                },
            }
            assert(x@ =~= mid.take(i + 1));
            assert(self.rest() =~= mid.skip(i + 1));
            i = i + 1;
        }
        proof {
            assert(start.skip(n as int) =~= mid);
            assert(mid.take(len as int) =~= start.subrange(n as int, n + len));
            assert(mid.skip(len as int) =~= start.skip(n + len));
            assert forall|p: Seq<u8>| #[trigger] starts_with(start, enc_payload(p)) implies x@ == p
                && self.rest() == start.skip(enc_payload(p).len() as int) by {
                lemma_starts_with_split(start, leb128(p.len()), p);
            }
        }
        Ok(x)
    }
}

impl Ser<EndpointInfo> for Vec<u8> {
    fn ser(&mut self, t: &EndpointInfo) -> (r: Result<(), SerdeError>)
        ensures
            r is Ok,
            final(self)@ == old(self)@ + enc_endpoint_info(*t),
    {
        let _ = Ser::<ChannelId>::ser(self, &t.channel_id);
        let r = Ser::<Polarity>::ser(self, &t.polarity);
        assert(self@ =~= old(self)@ + enc_endpoint_info(*t));
        r
    }
}

impl<'a> De<EndpointInfo> for MonitoredReader<&'a [u8]> {
    open spec fn readable(&self) -> bool {
        self.wf()
    }

    fn de(&mut self) -> (r: Result<EndpointInfo, SerdeError>)
        ensures
            decoded(old(self).rest(), old(self).count(), r, final(self).rest(), final(self).count(), parse_endpoint_info(old(self).rest())),
            forall|e: EndpointInfo|
                #[trigger] starts_with(old(self).rest(), enc_endpoint_info(e)) ==> r == Ok::<EndpointInfo, SerdeError>(e)
                    && final(self).rest() == old(self).rest().skip(enc_endpoint_info(e).len() as int),
    {
        let ghost start = self.rest();
        let channel_id: ChannelId = match De::<ChannelId>::de(self) {
            Ok(c) => c,
            Err(e) => {
                proof {
                    assert forall|i: EndpointInfo| #[trigger] starts_with(start, enc_endpoint_info(i)) implies false by {
                        lemma_starts_with_split(start, enc_channel_id(i.channel_id), enc_polarity(i.polarity));
                    }
                }
                return Err(e);
            },
        };
        let ghost mid = self.rest();
        let polarity: Polarity = match De::<Polarity>::de(self) {
            Ok(p) => p,
            Err(e) => {
                proof {
                    assert forall|i: EndpointInfo| #[trigger] starts_with(start, enc_endpoint_info(i)) implies false by {
                        lemma_starts_with_split(start, enc_channel_id(i.channel_id), enc_polarity(i.polarity));
                        law_polarity_roundtrip(i.polarity, mid.skip(1));
                        assert(mid =~= enc_polarity(i.polarity) + mid.skip(1));
                    }
                }
                return Err(e);
            },
        };
        proof {
            match parse_channel_id(start) {
                Ok((c, n)) => {
                    assert(self.rest() =~= start.skip(n + 1int));
                },
                Err(_) => {},
            }
            assert forall|i: EndpointInfo| #[trigger] starts_with(start, enc_endpoint_info(i)) implies
                channel_id == i.channel_id && polarity == i.polarity
                && self.rest() == start.skip(enc_endpoint_info(i).len() as int) by {
                lemma_starts_with_split(start, enc_channel_id(i.channel_id), enc_polarity(i.polarity));
                law_polarity_roundtrip(i.polarity, mid.skip(1));
                assert(mid =~= enc_polarity(i.polarity) + mid.skip(1));
                assert(self.rest() =~= start.skip(enc_endpoint_info(i).len() as int));
            }
        }
        Ok(EndpointInfo { polarity, channel_id })
    }
}

impl Ser<Predicate> for Vec<u8> {
    fn ser(&mut self, t: &Predicate) -> (r: Result<(), SerdeError>)
        ensures
            r is Ok,
            final(self)@ == old(self)@ + enc_predicate(t.entries()),
    {
        let entries = t.assignments();
        let _ = Ser::<ZigZag>::ser(self, &ZigZag(entries.len() as u64));
        let ghost mid = self@;
        let ghost e = t.entries();
        proof {
            assert(e.skip(0) =~= e);
        }
        let mut i: usize = 0;
        while i < entries.len()
            invariant
                entries@ == e,
                i <= e.len(),
                self@ + enc_pairs(e.skip(i as int)) == mid + enc_pairs(e),
            decreases e.len() - i,
        {
            let ghost before = self@;
            let (channel_id, boolean) = entries[i];
            let _ = Ser::<ChannelId>::ser(self, &channel_id);
            let _ = Ser::<bool>::ser(self, &boolean);
            proof {
                lemma_enc_pairs_split(e, i as int);
                assert(self@ + enc_pairs(e.skip(i + 1)) =~= before + enc_pairs(e.skip(i as int)));
            }
            i = i + 1;
        }
        proof {
            assert(e.skip(e.len() as int) =~= Seq::<(ChannelId, bool)>::empty());
            assert(enc_pairs(e.skip(e.len() as int)) =~= Seq::<u8>::empty());
            assert(self@ =~= self@ + enc_pairs(e.skip(e.len() as int)));
            assert(e.skip(0) =~= e);
        }
        Ok(())
    }
}

impl<'a> De<Predicate> for MonitoredReader<&'a [u8]> {
    open spec fn readable(&self) -> bool {
        self.wf()
    }

    #[verifier::rlimit(50)]
    fn de(&mut self) -> (r: Result<Predicate, SerdeError>)
        ensures
            decoded_predicate(old(self).rest(), old(self).count(), r, final(self).rest(), final(self).count(), parse_predicate(old(self).rest())),
            forall|q: Predicate|
                q.wf() && #[trigger] starts_with(old(self).rest(), enc_predicate(q.entries())) ==> predicate_is(r, q@)
                    && final(self).rest() == old(self).rest().skip(enc_predicate(q.entries()).len() as int),
    {
        let ghost start = self.rest();
        let ghost count0 = self.count();
        let len = match De::<ZigZag>::de(self) {
            Ok(z) => z.0,
            Err(e) => {
                proof {
                    assert forall|q: Predicate| q.wf() && #[trigger] starts_with(start, enc_predicate(q.entries())) implies false by {
                        q.lemma_entries_len();
                        let nq = q.entries().len() as u64;
                        lemma_starts_with_split(start, leb128(nq as nat), enc_pairs(q.entries()));
                        assert(leb128(nq as nat).len() <= start.len());
                    }
                }
                return Err(e);
            },
        };
        let ghost n = (start.len() - self.rest().len()) as nat;
        let ghost pairs = self.rest();
        proof {
            assert(pairs =~= start.skip(n as int));
            assert forall|q: Predicate| q.wf() && #[trigger] starts_with(start, enc_predicate(q.entries())) implies
                len == q.entries().len() && n == leb128(q.entries().len()).len()
                && starts_with(pairs, enc_pairs(q.entries()))
                && pairs.skip(enc_pairs(q.entries()).len() as int) == start.skip(enc_predicate(q.entries()).len() as int) by {
                q.lemma_entries_len();
                let nq = q.entries().len() as u64;
                lemma_starts_with_split(start, leb128(nq as nat), enc_pairs(q.entries()));
                assert(leb128(nq as nat).len() <= start.len());
            }
            assert(pairs.skip(0) =~= pairs);
            assert forall|q: Predicate| q.wf() && #[trigger] starts_with(start, enc_predicate(q.entries())) implies
                Map::<ChannelId, bool>::empty() == assignment_map(q.entries().take(0))
                && q.entries().skip(0) == q.entries() by {
                assert(q.entries().take(0) =~= Seq::<(ChannelId, bool)>::empty());
                assert(assignment_map(q.entries().take(0)) =~= Map::<ChannelId, bool>::empty());
                assert(q.entries().skip(0) =~= q.entries());
            }
        }
        let mut p = Predicate::new_trivial();
        let mut i: u64 = 0;
        while i < len
            invariant
                self.wf(),
                p.wf(),
                start == old(self).rest(),
                count0 == old(self).count(),
                varint_read(start) == taken(len, n),
                n <= start.len(),
                pairs == start.skip(n as int),
                i <= len,
                self.rest().len() <= pairs.len(),
                self.rest() == pairs.skip(pairs.len() - self.rest().len()),
                self.count() == count0 + n + (pairs.len() - self.rest().len()),
                parse_pairs(pairs, len as nat, Map::empty()) == shifted(
                    parse_pairs(self.rest(), (len - i) as nat, p@),
                    (pairs.len() - self.rest().len()) as nat,
                ),
                forall|q: Predicate| q.wf() && #[trigger] starts_with(start, enc_predicate(q.entries())) ==> {
                    &&& len == q.entries().len()
                    &&& p@ == assignment_map(q.entries().take(i as int))
                    &&& starts_with(self.rest(), enc_pairs(q.entries().skip(i as int)))
                    &&& self.rest().skip(enc_pairs(q.entries().skip(i as int)).len() as int) == start.skip(enc_predicate(q.entries()).len() as int)
                },
            decreases len - i,
        {
            let ghost cur = self.rest();
            let channel_id: ChannelId = match De::<ChannelId>::de(self) {
                Ok(c) => c,
                Err(e) => {
                    proof {
                        assert forall|q: Predicate| q.wf() && #[trigger] starts_with(start, enc_predicate(q.entries())) implies false by {
                            lemma_pair_channel(cur, q.entries(), i as int);
                        }
                    }
                    return Err(e);
                },
            };
            let ghost mid = self.rest();
            let ghost count_mid = self.count();
            let boolean: bool = match De::<bool>::de(self) {
                Ok(b) => b,
                Err(e) => {
                    proof {
                        assert forall|q: Predicate| q.wf() && #[trigger] starts_with(start, enc_predicate(q.entries())) implies false by {
                            lemma_pair_channel(cur, q.entries(), i as int);
                            lemma_pair_value(mid, q.entries(), i as int);
                        }
                    }
                    return Err(e);
                },
            };
            let ghost acc = p@;
            p.replace_assignment(channel_id, boolean);
            proof {
                lemma_step_parse(pairs, cur, mid, self.rest(), len as nat, (len - i) as nat, acc, channel_id, boolean);
                assert forall|q: Predicate| q.wf() && #[trigger] starts_with(start, enc_predicate(q.entries())) implies {
                    &&& p@ == assignment_map(q.entries().take(i + 1))
                    &&& starts_with(self.rest(), enc_pairs(q.entries().skip(i + 1)))
                    &&& self.rest().skip(enc_pairs(q.entries().skip(i + 1)).len() as int) == start.skip(enc_predicate(q.entries()).len() as int)
                } by {
                    let e = q.entries();
                    lemma_pair_channel(cur, e, i as int);
                    lemma_pair_value(mid, e, i as int);
                    assert(e.take(i + 1) =~= e.take(i as int).push(e[i as int]));
                    assert(sorted_assignments(e.take(i + 1)));
                    lemma_assignment_map_push(e.take(i as int), e[i as int]);
                }
            }
            i = i + 1;
        }
        proof {
            assert(parse_pairs(self.rest(), 0, p@) == taken(p@, 0));
            assert forall|q: Predicate| q.wf() && #[trigger] starts_with(start, enc_predicate(q.entries())) implies
                p@ == q@ && self.rest() == start.skip(enc_predicate(q.entries()).len() as int) by {
                let e = q.entries();
                assert(e.take(e.len() as int) =~= e);
                assert(e.skip(e.len() as int) =~= Seq::<(ChannelId, bool)>::empty());
                assert(enc_pairs(e.skip(e.len() as int)) =~= Seq::<u8>::empty());
                assert(self.rest().skip(0) =~= self.rest());
            }
            assert(self.rest() =~= start.skip(n + (pairs.len() - self.rest().len())));
        }
        Ok(p)
    }
}
impl Ser<Msg> for Vec<u8> {
    fn ser(&mut self, t: &Msg) -> (r: Result<(), SerdeError>)
        ensures
            enc_msg(*t) matches Some(b) ==> r is Ok && final(self)@ == old(self)@ + b,
            enc_msg(*t) is None ==> r == Err::<(), SerdeError>(SerdeError::Unencodable) && final(self)@ == old(self)@,
    {
        match t {
            Msg::SetupMsg(s) => match s {
                SetupMsg::ChannelSetup { info } => {
                    let _ = Ser::<u8>::ser(self, &0u8);
                    let _ = Ser::<EndpointInfo>::ser(self, info);
                },
                SetupMsg::LeaderEcho { maybe_leader } => {
                    let _ = Ser::<u8>::ser(self, &1u8);
                    let _ = Ser::<u32>::ser(self, maybe_leader);
                },
                SetupMsg::LeaderAnnounce { leader } => {
                    let _ = Ser::<u8>::ser(self, &2u8);
                    let _ = Ser::<u32>::ser(self, leader);
                },
                SetupMsg::YouAreMyParent => {
                    let _ = Ser::<u8>::ser(self, &3u8);
                },
            },
            Msg::CommMsg(CommMsg { round_index, contents }) => {
                let zig = ZigZag(*round_index as u64);
                match contents {
                    CommMsgContents::SendPayload { payload_predicate, payload } => {
                        let _ = Ser::<u8>::ser(self, &4u8);
                        let _ = Ser::<ZigZag>::ser(self, &zig);
                        let _ = Ser::<Predicate>::ser(self, payload_predicate);
                        let _ = Ser::<Payload>::ser(self, payload);
                    },
                    CommMsgContents::Elaborate { partial_oracle } => {
                        let _ = Ser::<u8>::ser(self, &5u8);
                        let _ = Ser::<ZigZag>::ser(self, &zig);
                        let _ = Ser::<Predicate>::ser(self, partial_oracle);
                    },
                    CommMsgContents::Announce { decision: Decision::Success(oracle) } => {
                        let _ = Ser::<u8>::ser(self, &6u8);
                        let _ = Ser::<ZigZag>::ser(self, &zig);
                        let _ = Ser::<Predicate>::ser(self, oracle);
                    },
                    _ => {
                        return Err(SerdeError::Unencodable);
                    },
                }
            },
        }
        proof {
            match enc_msg(*t) {
                Some(b) => {
                    assert(self@ =~= old(self)@ + b);
                },
                None => {},
            }
        }
        Ok(())
    }
}

impl<'a> MonitoredReader<&'a [u8]> {
    /// Reads the fields of a setup message of kind `tag`.
    fn de_setup(&mut self, tag: u8) -> (r: Result<SetupMsg, SerdeError>)
        requires
            old(self).wf(),
            tag <= 3,
        ensures
            final(self).wf(),
            decoded(old(self).rest(), old(self).count(), r, final(self).rest(), final(self).count(), parse_setup(tag, old(self).rest())),
            forall|s: SetupMsg|
                setup_tag(s) == tag && #[trigger] starts_with(old(self).rest(), setup_body(s)) ==> r == Ok::<SetupMsg, SerdeError>(s)
                    && final(self).rest() == old(self).rest().skip(setup_body(s).len() as int),
    {
        let ghost t = self.rest();
        if tag == 0u8 {
            match De::<EndpointInfo>::de(self) {
                Ok(info) => Ok(SetupMsg::ChannelSetup { info }),
                Err(e) => Err(e),
            }
        } else if tag == 1u8 || tag == 2u8 {
            let x: u32 = match De::<u32>::de(self) {
                Ok(x) => x,
                Err(e) => {
                    proof {
                        assert forall|s: SetupMsg| setup_tag(s) == tag && #[trigger] starts_with(t, setup_body(s)) implies false by {
                            let v = if tag == 1 { s->maybe_leader } else { s->leader };
                            law_u32_roundtrip(v, t.skip(4));
                            assert(t =~= enc_u32(v) + t.skip(4));
                        }
                    }
                    return Err(e);
                },
            };
            proof {
                assert forall|s: SetupMsg| setup_tag(s) == tag && #[trigger] starts_with(t, setup_body(s)) implies
                    (if tag == 1 { s->maybe_leader } else { s->leader }) == x && self.rest() == t.skip(4) by {
                    let v = if tag == 1 { s->maybe_leader } else { s->leader };
                    law_u32_roundtrip(v, t.skip(4));
                    assert(t =~= enc_u32(v) + t.skip(4));
                }
            }
            if tag == 1u8 {
                Ok(SetupMsg::LeaderEcho { maybe_leader: x })
            } else {
                Ok(SetupMsg::LeaderAnnounce { leader: x })
            }
        } else {
            proof {
                assert(t.skip(0) =~= t);
            }
            Ok(SetupMsg::YouAreMyParent)
        }
    }

    /// Reads the contents of a round message of kind `tag`.
    fn de_contents(&mut self, tag: u8) -> (r: Result<CommMsgContents, SerdeError>)
        requires
            old(self).wf(),
        ensures
            final(self).wf(),
            decoded_contents(old(self).rest(), old(self).count(), r, final(self).rest(), final(self).count(), parse_contents(tag, old(self).rest())),
            forall|c: CommMsgContents|
                contents_tag(c) == tag && contents_wf(c) && contents_body(c) is Some && #[trigger] starts_with(old(self).rest(), contents_body(c)->Some_0)
                    ==> contents_is(r, c@) && final(self).rest() == old(self).rest().skip(contents_body(c)->Some_0.len() as int),
    {
        let ghost u = self.rest();
        if tag == 4u8 {
            let payload_predicate: Predicate = match De::<Predicate>::de(self) {
                Ok(p) => p,
                Err(e) => {
                    proof {
                        assert forall|c: CommMsgContents| contents_tag(c) == tag && contents_wf(c) && contents_body(c) is Some
                            && #[trigger] starts_with(u, contents_body(c)->Some_0) implies false by {
                            lemma_starts_with_split(u, enc_predicate(c->payload_predicate.entries()), enc_payload(c->payload@));
                        }
                    }
                    return Err(e);
                },
            };
            let ghost v = self.rest();
            let payload: Payload = match De::<Payload>::de(self) {
                Ok(p) => p,
                Err(e) => {
                    proof {
                        assert forall|c: CommMsgContents| contents_tag(c) == tag && contents_wf(c) && contents_body(c) is Some
                            && #[trigger] starts_with(u, contents_body(c)->Some_0) implies false by {
                            lemma_starts_with_split(u, enc_predicate(c->payload_predicate.entries()), enc_payload(c->payload@));
                        }
                    }
                    return Err(e);
                },
            };
            proof {
                match parse_predicate(u) {
                    Ok((pm, k)) => {
                        assert(self.rest() =~= u.skip(k + (v.len() - self.rest().len())));
                    },
                    Err(_) => {},
                }
                assert forall|c: CommMsgContents| contents_tag(c) == tag && contents_wf(c) && contents_body(c) is Some
                    && #[trigger] starts_with(u, contents_body(c)->Some_0) implies payload_predicate@ == c->payload_predicate@
                    && payload@ == c->payload@ && self.rest() == u.skip(contents_body(c)->Some_0.len() as int) by {
                    lemma_starts_with_split(u, enc_predicate(c->payload_predicate.entries()), enc_payload(c->payload@));
                }
            }
            Ok(CommMsgContents::SendPayload { payload_predicate, payload })
        } else if tag == 5u8 {
            match De::<Predicate>::de(self) {
                Ok(partial_oracle) => Ok(CommMsgContents::Elaborate { partial_oracle }),
                Err(e) => Err(e),
            }
        } else if tag == 6u8 {
            match De::<Predicate>::de(self) {
                Ok(oracle) => Ok(CommMsgContents::Announce { decision: Decision::Success(oracle) }),
                Err(e) => Err(e),
            }
        } else {
            Err(SerdeError::InvalidData)
        }
    }
}

impl<'a> MonitoredReader<&'a [u8]> {
    /// Reads the rest of a setup message whose kind byte `b`, the first of `start`, was read.
    fn de_setup_msg(&mut self, b: u8, Ghost(start): Ghost<Seq<u8>>, Ghost(count0): Ghost<nat>) -> (r: Result<Msg, SerdeError>)
        requires
            old(self).wf(),
            b <= 3,
            start.len() > 0,
            start[0] == b,
            old(self).rest() == start.skip(1),
            old(self).count() == count0 + 1,
            forall|m: Msg| msg_wf(m) && #[trigger] encodes(m, start) ==> msg_tag(m) == b,
        ensures
            final(self).wf(),
            decoded_msg(start, count0, r, final(self).rest(), final(self).count(), parse_msg(start)),
            forall|m: Msg|
                msg_wf(m) && #[trigger] encodes(m, start) ==> msg_is(r, m@)
                    && final(self).rest() == start.skip(msg_len(m) as int),
    {
        let ghost t = self.rest();
        let setup = match self.de_setup(b) {
            Ok(s) => s,
            Err(e) => {
                proof {
                    assert forall|m: Msg| msg_wf(m) && #[trigger] encodes(m, start) implies false by {
                        lemma_encodes(m, start);
                    }
                }
                return Err(e);
            },
        };
        proof {
            match parse_setup(b, t) {
                Ok((sm, n)) => {
                    assert(self.rest() =~= start.skip(n + 1int));
                },
                Err(_) => {},
            }
            assert forall|m: Msg| msg_wf(m) && #[trigger] encodes(m, start) implies Msg::SetupMsg(setup)@ == m@
                && self.rest() == start.skip(msg_len(m) as int) by {
                lemma_setup_roundtrip(m, start, t, b, setup, self.rest());
            }
        }
        return Ok(Msg::SetupMsg(setup));
    }

    /// Reads the rest of a round message whose kind byte `b`, the first of `start`, was read.
    #[verifier::rlimit(40)]
    fn de_comm_msg(&mut self, b: u8, Ghost(start): Ghost<Seq<u8>>, Ghost(count0): Ghost<nat>) -> (r: Result<Msg, SerdeError>)
        requires
            old(self).wf(),
            b > 3,
            start.len() > 0,
            start[0] == b,
            old(self).rest() == start.skip(1),
            old(self).count() == count0 + 1,
            forall|m: Msg| msg_wf(m) && #[trigger] encodes(m, start) ==> msg_tag(m) == b,
        ensures
            final(self).wf(),
            decoded_msg(start, count0, r, final(self).rest(), final(self).count(), parse_msg(start)),
            forall|m: Msg|
                msg_wf(m) && #[trigger] encodes(m, start) ==> msg_is(r, m@)
                    && final(self).rest() == start.skip(msg_len(m) as int),
    {
        let ghost t = self.rest();
        proof {
            lemma_parse_msg_comm(start);
        }
        let zig: ZigZag = match De::<ZigZag>::de(self) {
            Ok(z) => z,
            Err(e) => {
                proof {
                    assert forall|m: Msg| msg_wf(m) && #[trigger] encodes(m, start) implies false by {
                        lemma_comm_prefix(m, start, t, b);
                    }
                }
                return Err(e);
            },
        };
        let ghost u = self.rest();
        proof {
            assert forall|m: Msg| msg_wf(m) && #[trigger] encodes(m, start) implies comm_rest(m, zig.0, u, start) by {
                lemma_comm_prefix(m, start, t, b);
            }
        }
        let contents = match self.de_contents(b) {
            Ok(c) => c,
            Err(e) => {
                proof {
                    let (z, n) = varint_read(t)->Ok_0;
                    assert(start.skip(1 + n as int) =~= u);
                    assert forall|m: Msg| msg_wf(m) && #[trigger] encodes(m, start) implies false by {
                        lemma_comm_prefix(m, start, t, b);
                    }
                }
                return Err(e);
            },
        };
        let r = Msg::CommMsg(CommMsg { round_index: #[verifier::truncate] (zig.0 as usize), contents });
        proof {
            let (z, n) = varint_read(t)->Ok_0;
            assert(start.skip(1 + n as int) =~= u);
            let (c, k) = parse_contents(b, u)->Ok_0;
            assert(self.rest() =~= start.skip(1 + n + k as int));
            assert forall|m: Msg| msg_wf(m) && #[trigger] encodes(m, start) implies msg_is(Ok::<Msg, SerdeError>(r), m@)
                && self.rest() == start.skip(msg_len(m) as int) by {
                lemma_comm_prefix(m, start, t, b);
            }
        }
        Ok(r)
    }
}

impl<'a> De<Msg> for MonitoredReader<&'a [u8]> {
    open spec fn readable(&self) -> bool {
        self.wf()
    }

    fn de(&mut self) -> (r: Result<Msg, SerdeError>)
        ensures
            decoded_msg(old(self).rest(), old(self).count(), r, final(self).rest(), final(self).count(), parse_msg(old(self).rest())),
            forall|m: Msg|
                msg_wf(m) && #[trigger] encodes(m, old(self).rest()) ==> msg_is(r, m@)
                    && final(self).rest() == old(self).rest().skip(msg_len(m) as int),
    {
        let ghost start = self.rest();
        let ghost count0 = self.count();
        let b: u8 = match De::<u8>::de(self) {
            Ok(b) => b,
            Err(e) => {
                proof {
                    assert forall|m: Msg| msg_wf(m) && #[trigger] encodes(m, start) implies false by {
                        lemma_encodes(m, start);
                    }
                }
                return Err(e);
            },
        };
        proof {
            assert(self.rest() =~= start.skip(1));
            assert forall|m: Msg| msg_wf(m) && #[trigger] encodes(m, start) implies msg_tag(m) == b by {
                lemma_encodes(m, start);
            }
        }
        if b <= 3u8 {
            self.de_setup_msg(b, Ghost(start), Ghost(count0))
        } else {
            self.de_comm_msg(b, Ghost(start), Ghost(count0))
        }
    }
}
/// What taking a message from the front of `inbox` gives and leaves: a whole message is
/// taken; bytes that end before a message does are left for later; bytes that encode no
/// message are a deviation from the protocol.
pub open spec fn inbox_taken(
    inbox: Seq<u8>,
    r: Result<Option<Msg>, EndpointErr>,
    left: Seq<u8>,
) -> bool {
    match parse_msg(inbox) {
        Ok((v, n)) => r is Ok && r->Ok_0 is Some && r->Ok_0->Some_0@ == v && left == inbox.skip(n as int),
        Err(SerdeError::UnexpectedEof) => r == Ok::<Option<Msg>, EndpointErr>(None) && left == inbox,
        Err(_) => r == Err::<Option<Msg>, EndpointErr>(EndpointErr::MetaProtocolDeviation) && left == inbox,
    }
}

/// Takes the first message from the bytes received so far.
pub fn decode_inbox(inbox: &mut Vec<u8>) -> (r: Result<Option<Msg>, EndpointErr>)
    ensures
        inbox_taken(old(inbox)@, r, final(inbox)@),
        forall|m: Msg| msg_wf(m) && #[trigger] encodes(m, old(inbox)@) ==> r is Ok && r->Ok_0 is Some
            && r->Ok_0->Some_0@ == m@ && final(inbox)@ == old(inbox)@.skip(msg_len(m) as int),
{
    let mut monitored = MonitoredReader::new(inbox.as_slice());
    match De::<Msg>::de(&mut monitored) {
        Ok(msg) => {
            let used = monitored.bytes_read();
            let rest = inbox.split_off(used);
            *inbox = rest;
            Ok(Some(msg))
        },
        Err(SerdeError::UnexpectedEof) => Ok(None),
        Err(_) => Err(EndpointErr::MetaProtocolDeviation),
    }
}

} // verus!
