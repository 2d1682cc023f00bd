use reowolf::common::{ChannelId, Key, Polarity};
use reowolf::endpoint::EndpointInfo;
use reowolf::setup::{plan_interface, BindingKind, EndpointPlan};

fn k(n: u64) -> Key {
    Key::from_raw(n)
}

fn cid(i: u32) -> ChannelId {
    ChannelId { controller_id: 7, channel_index: i }
}

#[test]
fn the_interface_is_planned_binding_by_binding() {
    let iface = vec![
        (BindingKind::Native, Polarity::Putter),
        (BindingKind::Passive, Polarity::Getter),
        (BindingKind::Active, Polarity::Putter),
        (BindingKind::Native, Polarity::Getter),
    ];
    let plan = plan_interface(7, &iface);
    assert_eq!(plan.todos.len(), 6);
    assert_eq!(plan.todos.get(k(0)), Some(&EndpointPlan::Memory(EndpointInfo { polarity: Polarity::Putter, channel_id: cid(0) })));
    assert_eq!(plan.todos.get(k(1)), Some(&EndpointPlan::Memory(EndpointInfo { polarity: Polarity::Getter, channel_id: cid(0) })));
    assert_eq!(plan.todos.get(k(2)), Some(&EndpointPlan::PassiveAccepting(1, EndpointInfo { polarity: Polarity::Getter, channel_id: cid(1) })));
    assert_eq!(plan.todos.get(k(3)), Some(&EndpointPlan::ActiveConnecting(2, Polarity::Putter)));
    assert_eq!(plan.todos.get(k(4)), Some(&EndpointPlan::Memory(EndpointInfo { polarity: Polarity::Putter, channel_id: cid(2) })));
    // the protocol component gets the end with its port's polarity, the native one the other
    assert_eq!(plan.ekeys_proto, vec![k(0), k(2), k(3), k(5)]);
    assert_eq!(plan.ekeys_native, vec![k(1), k(4)]);
    assert_eq!(plan.ekeys_network, vec![k(2), k(3)]);
    assert_eq!(plan.native_interface, vec![(k(1), Polarity::Getter), (k(4), Polarity::Putter)]);
    assert_eq!(plan.channel_id_stream.next_channel_index, 3);
}
