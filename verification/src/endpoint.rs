use vstd::prelude::*;
use crate::common::{ChannelId, ControllerId, Payload, Polarity};
use crate::predicate::Predicate;

verus! {

/// What one end of a channel tells the other end about itself.
#[derive(Debug, Copy, Clone, PartialEq, Eq, Structural)]
pub struct EndpointInfo {
    pub polarity: Polarity,
    pub channel_id: ChannelId,
}

/// How a synchronous round ended.
#[derive(Debug, Clone)]
pub enum Decision {
    Failure,
    Success(Predicate),
}

/// Messages exchanged while the connectors set up their channels and tree.
#[derive(Debug, Copy, Clone)]
pub enum SetupMsg {
    /// sent by the passive endpoint to the active endpoint
    ChannelSetup { info: EndpointInfo },
    LeaderEcho { maybe_leader: ControllerId },
    LeaderAnnounce { leader: ControllerId },
    YouAreMyParent,
}

/// A message of a synchronous round.
#[derive(Debug, Clone)]
pub struct CommMsg {
    pub round_index: usize,
    pub contents: CommMsgContents,
}

#[derive(Debug, Clone)]
pub enum CommMsgContents {
    SendPayload { payload_predicate: Predicate, payload: Payload },
    /// towards the sink
    Elaborate { partial_oracle: Predicate },
    /// towards the sink
    Failure,
    /// away from the sink
    Announce { decision: Decision },
}

#[derive(Debug, Clone)]
pub enum Msg {
    SetupMsg(SetupMsg),
    CommMsg(CommMsg),
}

/// A decision, with its predicate taken as a map.
pub enum DecisionView {
    Failure,
    Success(Map<ChannelId, bool>),
}

/// The contents of a round message, with predicates taken as maps and payloads as sequences.
pub enum ContentsView {
    SendPayload(Map<ChannelId, bool>, Seq<u8>),
    Elaborate(Map<ChannelId, bool>),
    Failure,
    Announce(DecisionView),
}

/// A message, with predicates taken as maps and payloads as sequences.
pub enum MsgView {
    Setup(SetupMsg),
    Comm(usize, ContentsView),
}

impl View for Decision {
    type V = DecisionView;

    open spec fn view(&self) -> DecisionView {
        match self {
            Decision::Failure => DecisionView::Failure,
            Decision::Success(p) => DecisionView::Success(p@),
        }
    }
}

impl View for CommMsgContents {
    type V = ContentsView;

    open spec fn view(&self) -> ContentsView {
        match self {
            CommMsgContents::SendPayload { payload_predicate, payload } => ContentsView::SendPayload(
                payload_predicate@,
                payload@,
            ),
            CommMsgContents::Elaborate { partial_oracle } => ContentsView::Elaborate(partial_oracle@),
            CommMsgContents::Failure => ContentsView::Failure,
            CommMsgContents::Announce { decision } => ContentsView::Announce(decision@),
        }
    }
}

impl View for Msg {
    type V = MsgView;

    open spec fn view(&self) -> MsgView {
        match self {
            Msg::SetupMsg(s) => MsgView::Setup(*s),
            Msg::CommMsg(c) => MsgView::Comm(c.round_index, c.contents@),
        }
    }
}

impl From<SetupMsg> for Msg {
    fn from(s: SetupMsg) -> (r: Msg) {
        Msg::SetupMsg(s)
    }
}

impl vstd::std_specs::convert::FromSpecImpl<SetupMsg> for Msg {
    open spec fn obeys_from_spec() -> bool {
        true
    }

    open spec fn from_spec(s: SetupMsg) -> Msg {
        Msg::SetupMsg(s)
    }
}

impl CommMsgContents {
    /// The message of round `round_index` with these contents.
    pub fn into_msg(self, round_index: usize) -> (r: Msg)
        ensures
            r == (Msg::CommMsg(CommMsg { round_index, contents: self })),
    {
        Msg::CommMsg(CommMsg { round_index, contents: self })
    }
}

} // verus!
