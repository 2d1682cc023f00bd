use vstd::prelude::*;
use crate::common::{ChannelId, SocketAddress};

verus! {

#[derive(Debug, Copy, Clone, PartialEq, Eq, Structural)]
pub enum PortBindErr {
    AlreadyConnected,
    IndexOutOfBounds,
    NotConfigured,
    ParseErr,
    AlreadyConfigured,
}

#[derive(Debug, Copy, Clone, PartialEq, Eq, Structural)]
pub enum ReadGottenErr {
    NotConnected,
    IndexOutOfBounds,
    WrongPolarity,
    NoPreviousRound,
    DidNotGet,
}

#[derive(Debug, Copy, Clone, PartialEq, Eq, Structural)]
pub enum PortOpErr {
    IndexOutOfBounds,
    NotConnected,
    WrongPolarity,
    DuplicateOperation,
}

#[derive(Debug, Clone, PartialEq, Eq)]
pub enum ConfigErr {
    AlreadyConnected,
    ParseErr(String),
    AlreadyConfigured,
    NoSuchComponent,
    NonPortTypeParameters,
}

#[derive(Debug, Copy, Clone, PartialEq, Eq, Structural)]
pub enum ConnectErr {
    PortNotBound { native_index: usize },
    NotConfigured,
    AlreadyConnected,
    MetaProtocolDeviation,
    Disconnected,
    PollInitFailed,
    MessengerRecvErr(MessengerRecvErr),
    Timeout,
    PollingFailed,
    PolarityMatched(SocketAddress),
    AcceptFailed(SocketAddress),
    PassiveConnectFailed(SocketAddress),
    BindFailed(SocketAddress),
}

#[derive(Debug, Copy, Clone, PartialEq, Eq, Structural)]
pub enum PollDeadlineErr {
    PollingFailed,
    Timeout,
}

#[derive(Debug, Copy, Clone, PartialEq, Eq, Structural)]
pub enum EndpointErr {
    Disconnected,
    MetaProtocolDeviation,
}

#[derive(Debug, Copy, Clone, PartialEq, Eq, Structural)]
pub enum SyncErr {
    NotConnected,
    MessengerRecvErr(MessengerRecvErr),
    Inconsistent,
    Timeout,
    ElaborateFromNonChild,
    AnnounceFromNonParent,
    PayloadPremiseExcludesTheChannel(ChannelId),
    UnexpectedSetupMsg,
    EndpointErr(EndpointErr),
    EvalErr(EvalErr),
}

#[derive(Debug, Copy, Clone, PartialEq, Eq, Structural)]
pub enum EvalErr {
    ComponentExitWhileBranching,
}

#[derive(Debug, Copy, Clone, PartialEq, Eq, Structural)]
pub enum MessengerRecvErr {
    PollingFailed,
    EndpointErr(EndpointErr),
}

impl From<EvalErr> for SyncErr {
    fn from(e: EvalErr) -> (r: SyncErr) {
        SyncErr::EvalErr(e)
    }
}

impl vstd::std_specs::convert::FromSpecImpl<EvalErr> for SyncErr {
    open spec fn obeys_from_spec() -> bool {
        true
    }

    open spec fn from_spec(e: EvalErr) -> SyncErr {
        SyncErr::EvalErr(e)
    }
}

impl From<MessengerRecvErr> for SyncErr {
    fn from(e: MessengerRecvErr) -> (r: SyncErr) {
        SyncErr::MessengerRecvErr(e)
    }
}

impl vstd::std_specs::convert::FromSpecImpl<MessengerRecvErr> for SyncErr {
    open spec fn obeys_from_spec() -> bool {
        true
    }

    open spec fn from_spec(e: MessengerRecvErr) -> SyncErr {
        SyncErr::MessengerRecvErr(e)
    }
}

impl From<MessengerRecvErr> for ConnectErr {
    fn from(e: MessengerRecvErr) -> (r: ConnectErr) {
        ConnectErr::MessengerRecvErr(e)
    }
}

impl vstd::std_specs::convert::FromSpecImpl<MessengerRecvErr> for ConnectErr {
    open spec fn obeys_from_spec() -> bool {
        true
    }

    open spec fn from_spec(e: MessengerRecvErr) -> ConnectErr {
        ConnectErr::MessengerRecvErr(e)
    }
}

impl From<PollDeadlineErr> for ConnectErr {
    fn from(e: PollDeadlineErr) -> (r: ConnectErr) {
        match e {
            PollDeadlineErr::Timeout => ConnectErr::Timeout,
            PollDeadlineErr::PollingFailed => ConnectErr::PollingFailed,
        }
    }
}

impl vstd::std_specs::convert::FromSpecImpl<PollDeadlineErr> for ConnectErr {
    open spec fn obeys_from_spec() -> bool {
        true
    }

    open spec fn from_spec(e: PollDeadlineErr) -> ConnectErr {
        match e {
            PollDeadlineErr::Timeout => ConnectErr::Timeout,
            PollDeadlineErr::PollingFailed => ConnectErr::PollingFailed,
        }
    }
}

impl From<EndpointErr> for ConnectErr {
    fn from(e: EndpointErr) -> (r: ConnectErr) {
        match e {
            EndpointErr::Disconnected => ConnectErr::Disconnected,
            EndpointErr::MetaProtocolDeviation => ConnectErr::MetaProtocolDeviation,
        }
    }
}

impl vstd::std_specs::convert::FromSpecImpl<EndpointErr> for ConnectErr {
    open spec fn obeys_from_spec() -> bool {
        true
    }

    open spec fn from_spec(e: EndpointErr) -> ConnectErr {
        match e {
            EndpointErr::Disconnected => ConnectErr::Disconnected,
            EndpointErr::MetaProtocolDeviation => ConnectErr::MetaProtocolDeviation,
        }
    }
}

} // verus!
