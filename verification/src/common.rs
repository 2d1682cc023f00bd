use vstd::prelude::*;

verus! {

/// Bytes carried by a message.
pub type Payload = Vec<u8>;

pub type ControllerId = u32;

pub type ChannelIndex = u32;

/// A unique identifier for a channel (i.e., port).
#[derive(Debug, PartialEq, Eq, Clone, Copy, Hash, PartialOrd, Ord, Structural)]
pub struct ChannelId {
    pub controller_id: ControllerId,
    pub channel_index: ChannelIndex,
}

#[derive(Debug, PartialEq, Eq, Clone, Copy, Hash, PartialOrd, Ord, Structural)]
pub enum Polarity {
    /// output port (from the perspective of the component)
    Putter,
    /// input port (from the perspective of the component)
    Getter,
}

#[derive(Debug, PartialEq, Eq, Clone, Copy, Hash, PartialOrd, Ord, Structural)]
pub struct Key(u64);

impl Key {
    pub closed spec fn raw(self) -> u64 {
        self.0
    }

    /// The key whose raw value is `raw`.
    pub closed spec fn of(raw: u64) -> Key {
        Key(raw)
    }

    pub proof fn lemma_of(raw: u64)
        ensures
            Key::of(raw).raw() == raw,
    {
    }

    /// `from_raw` and `to_raw` are inverse bijections between keys and `u64`: a key made
    /// from a raw value gives that value back, and a key is the key made from its raw value
    /// (so two keys with the same raw value are equal).
    pub proof fn law_raw_inverse(raw: u64, k: Key)
        ensures
            Key::of(raw).raw() == raw,
            Key::of(k.raw()) == k,
    {
    }

    pub fn from_raw(raw: u64) -> (k: Key)
        ensures
            k.raw() == raw,
            k == Key::of(raw),
    {
        Key(raw)
    }

    pub fn to_raw(self) -> (raw: u64)
        ensures
            raw == self.raw(),
    {
        self.0
    }
}

/// An IP address, version 4 or 6, as the number its bits spell (most significant first).
#[derive(Debug, PartialEq, Eq, Clone, Copy, Hash, Structural)]
pub enum IpAddress {
    V4(u32),
    V6(u128),
}

/// A socket address: an IP address and a port number, and for version 6 the flow
/// information and scope identifier.
#[derive(Debug, PartialEq, Eq, Clone, Copy, Hash, Structural)]
pub struct SocketAddress {
    pub ip: IpAddress,
    pub port: u16,
    pub flowinfo: u32,
    pub scope_id: u32,
}

/// Whether the state machine of one component or of a whole round has blocked, and why.
#[derive(Debug, Clone)]
pub enum MonoBlocker {
    Inconsistent,
    ComponentExit,
    SyncBlockStart,
}

#[derive(Debug, Clone)]
pub enum PolyBlocker {
    Inconsistent,
    SyncBlockEnd,
    CouldntReadMsg(Key),
    CouldntCheckFiring(Key),
    PutMsg(Key, Payload),
}

/// The other polarity.
pub open spec fn opposite(p: Polarity) -> Polarity {
    match p {
        Polarity::Putter => Polarity::Getter,
        Polarity::Getter => Polarity::Putter,
    }
}

impl Polarity {
    /// The other polarity.
    pub fn negate(self) -> (r: Polarity)
        ensures
            r == opposite(self),
    {
        match self {
            Polarity::Putter => Polarity::Getter,
            Polarity::Getter => Polarity::Putter,
        }
    }
}

/// Negating a polarity twice gives it back.
pub proof fn law_polarity_involution(p: Polarity)
    ensures
        opposite(opposite(p)) == p,
        opposite(p) != p,
{
}

} // verus!
