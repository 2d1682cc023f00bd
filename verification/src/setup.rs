use vstd::prelude::*;
use crate::arena::Arena;
use crate::common::{ChannelId, ControllerId, Key, Polarity};
use crate::endpoint::EndpointInfo;
use crate::predicate::ChannelIdStream;

verus! {

/// How a port of the protocol component's interface is bound: to the native component, or
/// to a peer over the network, listening or connecting (the address stays with the caller).
#[derive(Debug, Copy, Clone, PartialEq, Eq, Structural)]
pub enum BindingKind {
    Native,
    Passive,
    Active,
}

/// What an endpoint key stands for before the controller's connections are made: one end of
/// an in-memory channel between the native and the protocol component; a port that listens
/// at the address of binding `usize`; or one that connects to the address of binding `usize`
/// and learns its channel from the peer.
#[derive(Debug, Copy, Clone, PartialEq, Eq, Structural)]
pub enum EndpointPlan {
    Memory(EndpointInfo),
    PassiveAccepting(usize, EndpointInfo),
    ActiveConnecting(usize, Polarity),
}

/// The other polarity.
pub open spec fn flip(p: Polarity) -> Polarity {
    match p {
        Polarity::Putter => Polarity::Getter,
        Polarity::Getter => Polarity::Putter,
    }
}

fn opposite(p: Polarity) -> (r: Polarity)
    ensures
        r == flip(p),
{
    match p {
        Polarity::Putter => Polarity::Getter,
        Polarity::Getter => Polarity::Putter,
    }
}

/// The endpoints of a controller's interface, planned: what stands behind each key, in the
/// order of the keys; the keys of the native component's ports, of the protocol component's
/// ports and of the ports that go over the network; the native interface with its
/// polarities; and how many channels were given out.
pub struct PlanView {
    pub todos: Seq<EndpointPlan>,
    pub native: Seq<Key>,
    pub proto: Seq<Key>,
    pub network: Seq<Key>,
    pub native_interface: Seq<(Key, Polarity)>,
    pub channels: nat,
}

/// The plan for the first `n` bindings of the interface of controller `major`. A port bound
/// to the native component makes a new channel with a putter and a getter end (in that
/// order): the protocol component gets the end with the port's polarity, the native
/// component the other. A listening port makes a new channel; a connecting port makes none.
pub open spec fn plan_spec(major: ControllerId, iface: Seq<(BindingKind, Polarity)>, n: int) -> PlanView
    decreases n,
{
    if n <= 0 {
        PlanView { todos: Seq::empty(), native: Seq::empty(), proto: Seq::empty(), network: Seq::empty(), native_interface: Seq::empty(), channels: 0 }
    } else {
        let p = plan_spec(major, iface, n - 1);
        let (b, pol) = iface[n - 1];
        let t = p.todos.len();
        let c = ChannelId { controller_id: major, channel_index: p.channels as u32 };
        match b {
            BindingKind::Native => {
                let pk = Key::of(t as u64);
                let gk = Key::of((t + 1) as u64);
                let nk = if pol is Putter { gk } else { pk };
                let prk = if pol is Putter { pk } else { gk };
                PlanView {
                    todos: p.todos.push(EndpointPlan::Memory(EndpointInfo { polarity: Polarity::Putter, channel_id: c }))
                        .push(EndpointPlan::Memory(EndpointInfo { polarity: Polarity::Getter, channel_id: c })),
                    native: p.native.push(nk),
                    proto: p.proto.push(prk),
                    network: p.network,
                    native_interface: p.native_interface.push((nk, flip(pol))),
                    channels: p.channels + 1,
                }
            },
            BindingKind::Passive => PlanView {
                todos: p.todos.push(EndpointPlan::PassiveAccepting((n - 1) as usize, EndpointInfo { polarity: pol, channel_id: c })),
                proto: p.proto.push(Key::of(t as u64)),
                network: p.network.push(Key::of(t as u64)),
                channels: p.channels + 1,
                ..p
            },
            BindingKind::Active => PlanView {
                todos: p.todos.push(EndpointPlan::ActiveConnecting((n - 1) as usize, pol)),
                proto: p.proto.push(Key::of(t as u64)),
                network: p.network.push(Key::of(t as u64)),
                ..p
            },
        }
    }
}

/// The endpoints of a controller's interface, planned (see [`PlanView`]), with the source of
/// the controller's further channel identifiers.
pub struct InterfacePlan {
    pub todos: Arena<EndpointPlan>,
    pub ekeys_native: Vec<Key>,
    pub ekeys_proto: Vec<Key>,
    pub ekeys_network: Vec<Key>,
    pub native_interface: Vec<(Key, Polarity)>,
    pub channel_id_stream: ChannelIdStream,
}

proof fn lemma_plan_sizes(major: ControllerId, iface: Seq<(BindingKind, Polarity)>, n: int)
    requires
        0 <= n,
    ensures
        plan_spec(major, iface, n).todos.len() <= 2 * n,
        plan_spec(major, iface, n).channels <= n,
    decreases n,
{
    if n > 0 {
        lemma_plan_sizes(major, iface, n - 1);
    }
}

/// Plans the endpoints of the interface `iface` of controller `major`, binding by binding
/// (see [`plan_spec`]).
pub fn plan_interface(major: ControllerId, iface: &Vec<(BindingKind, Polarity)>) -> (r: InterfacePlan)
    requires
        2 * iface@.len() < u32::MAX,
    ensures
        ({
            let p = plan_spec(major, iface@, iface@.len() as int);
            &&& r.todos@ == p.todos
            &&& r.ekeys_native@ == p.native
            &&& r.ekeys_proto@ == p.proto
            &&& r.ekeys_network@ == p.network
            &&& r.native_interface@ == p.native_interface
            &&& r.channel_id_stream.controller_id == major
            &&& r.channel_id_stream.next_channel_index == p.channels
        }),
{
    let mut todos: Arena<EndpointPlan> = Arena::new();
    let mut native: Vec<Key> = Vec::new();
    let mut proto: Vec<Key> = Vec::new();
    let mut network: Vec<Key> = Vec::new();
    let mut native_interface: Vec<(Key, Polarity)> = Vec::new();
    let mut stream = ChannelIdStream::new(major);
    let mut i: usize = 0;
    while i < iface.len()
        invariant
            i <= iface@.len(),
            2 * iface@.len() < u32::MAX,
            ({
                let p = plan_spec(major, iface@, i as int);
                &&& todos@ == p.todos
                &&& native@ == p.native
                &&& proto@ == p.proto
                &&& network@ == p.network
                &&& native_interface@ == p.native_interface
                &&& stream.controller_id == major
                &&& stream.next_channel_index == p.channels
            }),
        decreases iface@.len() - i,
    {
        proof {
            lemma_plan_sizes(major, iface@, i as int);
        }
        let ghost t = todos@.len();
        let (b, pol) = iface[i];
        match b {
            BindingKind::Native => {
                let c = stream.next();
                let pk = todos.allocate(EndpointPlan::Memory(EndpointInfo { polarity: Polarity::Putter, channel_id: c }));
                let gk = todos.allocate(EndpointPlan::Memory(EndpointInfo { polarity: Polarity::Getter, channel_id: c }));
                proof {
                    Key::law_raw_inverse(t as u64, pk);
                    Key::law_raw_inverse((t + 1) as u64, gk);
                }
                let (nk, prk) = match pol {
                    Polarity::Putter => (gk, pk),
                    Polarity::Getter => (pk, gk),
                };
                native_interface.push((nk, opposite(pol)));
                native.push(nk);
                proto.push(prk);
            },
            BindingKind::Passive => {
                let c = stream.next();
                let k = todos.allocate(EndpointPlan::PassiveAccepting(i, EndpointInfo { polarity: pol, channel_id: c }));
                proof {
                    Key::law_raw_inverse(t as u64, k);
                }
                network.push(k);
                proto.push(k);
            },
            BindingKind::Active => {
                let k = todos.allocate(EndpointPlan::ActiveConnecting(i, pol));
                proof {
                    Key::law_raw_inverse(t as u64, k);
                }
                network.push(k);
                proto.push(k);
            },
        }
        i += 1;
    }
    InterfacePlan { todos, ekeys_native: native, ekeys_proto: proto, ekeys_network: network, native_interface, channel_id_stream: stream }
}

/// The polarity of the endpoint that a plan entry stands for.
pub open spec fn plan_polarity(e: EndpointPlan) -> Polarity {
    match e {
        EndpointPlan::Memory(info) => info.polarity,
        EndpointPlan::PassiveAccepting(_, info) => info.polarity,
        EndpointPlan::ActiveConnecting(_, p) => p,
    }
}

/// Every endpoint planned for the network belongs to a binding of its kind and has that
/// binding's polarity; and the protocol component's port for each binding is an endpoint
/// with the binding's polarity (for a port bound to the native component, the native
/// component's end has the other polarity).
pub proof fn law_plan_keeps_polarities(major: ControllerId, iface: Seq<(BindingKind, Polarity)>, n: int)
    requires
        0 <= n <= iface.len(),
        2 * n < u32::MAX,
    ensures
        ({
            let p = plan_spec(major, iface, n);
            &&& forall|j: int| 0 <= j < p.todos.len() ==> match #[trigger] p.todos[j] {
                EndpointPlan::PassiveAccepting(i, info) => i < n && iface[i as int].0 == BindingKind::Passive && info.polarity == iface[i as int].1,
                EndpointPlan::ActiveConnecting(i, pol) => i < n && iface[i as int].0 == BindingKind::Active && pol == iface[i as int].1,
                EndpointPlan::Memory(_) => true,
            }
            &&& p.proto.len() == n
            &&& forall|i: int| 0 <= i < n ==> (#[trigger] p.proto[i]).raw() < p.todos.len()
                && plan_polarity(p.todos[p.proto[i].raw() as int]) == iface[i].1
            &&& forall|i: int| 0 <= i < p.native_interface.len() ==> (#[trigger] p.native_interface[i]).0.raw() < p.todos.len()
                && plan_polarity(p.todos[p.native_interface[i].0.raw() as int]) == p.native_interface[i].1
        }),
    decreases n,
{
    if n > 0 {
        law_plan_keeps_polarities(major, iface, n - 1);
        lemma_plan_sizes(major, iface, n - 1);
        let q = plan_spec(major, iface, n - 1);
        let p = plan_spec(major, iface, n);
        let t = q.todos.len();
        Key::law_raw_inverse(t as u64, Key::of(t as u64));
        Key::law_raw_inverse((t + 1) as u64, Key::of((t + 1) as u64));
        assert forall|j: int| 0 <= j < p.todos.len() implies match #[trigger] p.todos[j] {
            EndpointPlan::PassiveAccepting(i, info) => i < n && iface[i as int].0 == BindingKind::Passive && info.polarity == iface[i as int].1,
            EndpointPlan::ActiveConnecting(i, pol) => i < n && iface[i as int].0 == BindingKind::Active && pol == iface[i as int].1,
            EndpointPlan::Memory(_) => true,
        } by {
            if j < t {
                assert(p.todos[j] == q.todos[j]);
            }
        }
        assert forall|i: int| 0 <= i < n implies (#[trigger] p.proto[i]).raw() < p.todos.len()
            && plan_polarity(p.todos[p.proto[i].raw() as int]) == iface[i].1 by {
            if i < n - 1 {
                assert(p.proto[i] == q.proto[i]);
                assert(p.todos[q.proto[i].raw() as int] == q.todos[q.proto[i].raw() as int]);
            }
        }
        assert forall|i: int| 0 <= i < p.native_interface.len() implies (#[trigger] p.native_interface[i]).0.raw() < p.todos.len()
            && plan_polarity(p.todos[p.native_interface[i].0.raw() as int]) == p.native_interface[i].1 by {
            if i < q.native_interface.len() {
                assert(p.native_interface[i] == q.native_interface[i]);
                assert(p.todos[q.native_interface[i].0.raw() as int] == q.todos[q.native_interface[i].0.raw() as int]);
            }
        }
    }
}

} // verus!
