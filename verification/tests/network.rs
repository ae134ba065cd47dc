use lan_mouse_clipboard::endpoint::Endpoint;
use lan_mouse_clipboard::item::ClipboardItem;
use lan_mouse_clipboard::network::{
    receive, Dial, DialState, Inbound, NetworkEvent, NetworkLimits, NetworkState, PeerEndpoints,
    HEALTH_INTERVAL, HEALTH_TIMEOUT, RETRY_INTERVAL,
};
use lan_mouse_clipboard::protocol::{
    control_frame, FrameReader, Message, KIND_PING, KIND_PONG, MAX_PAYLOAD_SIZE,
};
use lan_mouse_clipboard::registry::ConnKind;

const SECOND: u128 = 1_000_000_000;

fn limits() -> NetworkLimits {
    NetworkLimits {
        max_item_size: 64 * 1024 * 1024,
        idle_timeout: 60 * SECOND,
    }
}

fn addr(host: u8) -> Endpoint {
    Endpoint::v4(10, 0, 0, host, 4242)
}

fn peer(id: &str, hosts: &[u8]) -> PeerEndpoints {
    PeerEndpoints {
        id: id.to_string(),
        active: addr(hosts[0]),
        fallbacks: hosts[1..].iter().map(|h| addr(*h)).collect(),
    }
}

fn dial(id: &str, host: u8) -> Dial {
    Dial {
        id: id.to_string(),
        addr: addr(host),
    }
}

fn channels(state: &NetworkState) -> Vec<(Endpoint, ConnKind)> {
    state.connections().iter().map(|c| (c.addr, c.kind)).collect()
}

#[test]
fn read_loop_forwards_complete_frame() {
    let item = ClipboardItem::text("hello", [1; 8], 1);
    let frame = Message::Announce(item).encode(1024).unwrap();
    let mut frames = FrameReader::with_max_payload(MAX_PAYLOAD_SIZE);
    assert_eq!(
        receive(&mut frames, &frame),
        vec![Inbound::Forward(frame[4..].to_vec())]
    );
}

#[test]
fn read_loop_ignores_garbage_and_delivers_following_frame() {
    let item = ClipboardItem::text("still here", [2; 8], 1);
    let good = Message::Announce(item).encode(1024).unwrap();
    let mut frames = FrameReader::with_max_payload(MAX_PAYLOAD_SIZE);
    // A length prefix that claims a 4 GiB payload -> rejected -> resync.
    assert!(receive(&mut frames, &[0xff, 0xff, 0xff, 0xff]).is_empty());
    assert_eq!(
        receive(&mut frames, &good),
        vec![Inbound::Forward(good[4..].to_vec())]
    );
}

#[test]
fn pings_and_pongs_are_not_forwarded() {
    let mut bytes = control_frame(KIND_PING);
    bytes.extend_from_slice(&[0, 0, 0, 0]);
    bytes.extend_from_slice(&control_frame(KIND_PONG));
    bytes.extend_from_slice(&[0, 0, 0, 2, 9, 9, 0, 0]);
    let mut frames = FrameReader::with_max_payload(100);
    assert_eq!(
        receive(&mut frames, &bytes),
        vec![
            Inbound::Ping,
            Inbound::Forward(vec![]),
            Inbound::Pong,
            Inbound::Forward(vec![9, 9]),
        ]
    );
    // The start of the next frame stays buffered.
    assert_eq!(receive(&mut frames, &[0, 1, 5]), vec![Inbound::Forward(vec![5])]);
}

#[test]
fn garbage_takes_what_is_behind_it_along() {
    let mut bytes = vec![0, 0, 0, 1, 7, 0xff, 0, 0, 0];
    bytes.extend_from_slice(&control_frame(KIND_PING));
    let mut frames = FrameReader::with_max_payload(10);
    assert_eq!(receive(&mut frames, &bytes), vec![Inbound::Forward(vec![7])]);
    assert_eq!(receive(&mut frames, &control_frame(KIND_PONG)), vec![Inbound::Pong]);
}

#[test]
fn endpoints_of_a_peer() {
    let p = peer("p", &[1, 2, 3]);
    assert_eq!(p.all(), vec![addr(1), addr(2), addr(3)]);
    assert!(p.contains_ip(addr(3).ip));
    assert!(!p.contains_ip(addr(4).ip));
    assert_eq!(p.next_after(addr(1)), Some(addr(2)));
    assert_eq!(p.next_after(addr(3)), None);
    assert_eq!(p.next_after(addr(9)), None);
    assert_eq!(p.clone(), p);
}

#[test]
fn every_missing_peer_is_dialed_once() {
    let mut state = NetworkState::new(vec![peer("a", &[1]), peer("b", &[2, 3])], limits());
    assert_eq!(state.spawn(), vec![dial("a", 1), dial("b", 2)]);
    // Both are in flight now.
    assert!(state.spawn().is_empty());
    assert!(state.retry().is_empty());
}

#[test]
fn an_established_channel_stops_the_dialing() {
    let mut state = NetworkState::new(vec![peer("a", &[1])], limits());
    state.spawn();
    assert_eq!(
        state.established(addr(1), "a".into(), 5),
        Some(NetworkEvent::Retrain)
    );
    assert_eq!(channels(&state), vec![(addr(1), ConnKind::Outgoing)]);
    assert!(state.contains(&addr(1)));
    // A second one to the same address is closed.
    assert_eq!(state.established(addr(1), "a".into(), 6), None);
    assert!(state.retry().is_empty());
    assert!(state.spawn().is_empty());
}

#[test]
fn a_failed_dial_rotates_through_the_fallbacks() {
    let mut state = NetworkState::new(vec![peer("a", &[1, 2])], limits());
    assert_eq!(state.spawn(), vec![dial("a", 1)]);
    state.dial_failed(addr(1));
    assert_eq!(state.retry(), vec![dial("a", 2)]);
    state.dial_failed(addr(2));
    // The last fallback stays.
    assert_eq!(state.retry(), vec![dial("a", 2)]);
}

#[test]
fn a_lost_channel_is_dialed_again() {
    let mut state = NetworkState::new(vec![peer("a", &[1, 2])], limits());
    state.spawn();
    state.established(addr(1), "a".into(), 0);
    state.disconnected(addr(1));
    assert!(channels(&state).is_empty());
    assert_eq!(state.retry(), vec![dial("a", 2)]);
}

#[test]
fn one_channel_per_host_is_accepted() {
    let mut state = NetworkState::new(vec![], limits());
    let other_port = Endpoint::v4(10, 0, 0, 1, 9);
    assert_eq!(state.accepted(addr(1), 0), Some(NetworkEvent::Retrain));
    assert_eq!(state.accepted(other_port, 0), None);
    assert_eq!(state.accepted(addr(2), 0), Some(NetworkEvent::Retrain));
    assert_eq!(
        channels(&state),
        vec![(addr(1), ConnKind::Incoming), (addr(2), ConnKind::Incoming)]
    );
}

#[test]
fn the_health_check_drops_the_silent_and_the_unwritable() {
    let mut state = NetworkState::new(vec![peer("a", &[1, 2])], limits());
    state.spawn();
    state.established(addr(1), "a".into(), 0);
    state.accepted(addr(5), 0);
    state.accepted(addr(6), 0);
    state.pong(addr(5), 2 * SECOND);
    state.pong(addr(6), 2 * SECOND);

    let now = 4 * SECOND;
    assert_eq!(state.health_probes(now), vec![addr(5), addr(6)]);
    let (event, dials) = state.finish_health(now, &vec![addr(6)]);
    assert_eq!(event, Some(NetworkEvent::Retrain));
    assert_eq!(channels(&state), vec![(addr(5), ConnKind::Incoming)]);
    // The peer rotates to its fallback.
    assert_eq!(dials, vec![dial("a", 2)]);

    let (event, dials) = state.finish_health(now, &vec![]);
    assert_eq!(event, None);
    assert!(dials.is_empty());
}

#[test]
fn a_channel_is_alive_up_to_the_timeout() {
    let mut state = NetworkState::new(vec![], limits());
    state.accepted(addr(1), SECOND);
    assert_eq!(state.health_probes(SECOND + HEALTH_TIMEOUT), vec![addr(1)]);
    assert!(state.health_probes(SECOND + HEALTH_TIMEOUT + 1).is_empty());
    assert_eq!(
        (HEALTH_INTERVAL, HEALTH_TIMEOUT, RETRY_INTERVAL),
        (SECOND, 3 * SECOND, SECOND)
    );
}

#[test]
fn an_unanswerable_ping_drops_the_channel() {
    let mut state = NetworkState::new(vec![], limits());
    state.accepted(addr(1), 0);
    state.ping_answered(addr(1), true);
    assert!(state.contains(&addr(1)));
    state.ping_answered(addr(1), false);
    assert!(!state.contains(&addr(1)));
}

#[test]
fn a_broadcast_drops_failed_and_idle_channels() {
    let mut state = NetworkState::new(
        vec![peer("a", &[1]), peer("b", &[2])],
        NetworkLimits {
            max_item_size: 10,
            idle_timeout: 50,
        },
    );
    state.spawn();
    state.established(addr(1), "a".into(), 0);
    state.established(addr(2), "b".into(), 0);
    state.accepted(addr(3), 0);
    state.broadcast(&vec![Some(100), None, Some(40)], 100);
    // b failed; the idle incoming channel stays.
    assert_eq!(
        channels(&state),
        vec![(addr(1), ConnKind::Outgoing), (addr(3), ConnKind::Incoming)]
    );
    assert_eq!(state.retry(), vec![dial("b", 2)]);
    state.broadcast(&vec![Some(100), Some(100)], 151);
    assert_eq!(channels(&state), vec![(addr(3), ConnKind::Incoming)]);
}

#[test]
fn a_new_peer_set_prunes_and_dials() {
    let mut state = NetworkState::new(vec![peer("a", &[1]), peer("b", &[2])], limits());
    state.spawn();
    state.established(addr(1), "a".into(), 0);
    state.established(addr(2), "b".into(), 0);
    state.accepted(addr(9), 0);
    // b is gone, a stays, c is new.
    let dials = state.set_peers(vec![peer("a", &[1]), peer("c", &[3])]);
    assert_eq!(
        channels(&state),
        vec![(addr(1), ConnKind::Outgoing), (addr(9), ConnKind::Incoming)]
    );
    assert_eq!(dials, vec![dial("c", 3)]);
}

#[test]
fn a_retrain_keeps_a_working_fallback() {
    let mut state = NetworkState::new(vec![peer("a", &[1, 2])], limits());
    state.spawn();
    state.dial_failed(addr(1));
    state.spawn();
    state.established(addr(2), "a".into(), 0);
    // The same peer is published again, with its preferred address first.
    assert!(state.set_peers(vec![peer("a", &[1, 2])]).is_empty());
    assert_eq!(channels(&state), vec![(addr(2), ConnKind::Outgoing)]);
    // Without a live channel the preferred address is tried again.
    state.disconnected(addr(2));
    assert_eq!(state.set_peers(vec![peer("a", &[1, 2])]), vec![dial("a", 1)]);
}

#[test]
fn dial_state_alone() {
    let mut dial_state = DialState::new(vec![peer("a", &[1, 2])]);
    assert!(dial_state.any_missing());
    assert!(!dial_state.has_live(&peer("a", &[1, 2])));
    dial_state.advance(addr(1));
    assert_eq!(dial_state.spawn(), vec![dial("a", 2)]);
    dial_state.set_peers(vec![]);
    assert!(!dial_state.any_missing());
}

/// Two peers, each with its own state, deliver a broadcast from either side.
#[test]
fn peers_deliver_broadcast_both_directions() {
    let mut a = NetworkState::new(vec![peer("peer-b", &[2])], limits());
    let mut b = NetworkState::new(vec![], limits());
    // A initiates to B; B only listens/accepts.
    let dials = a.spawn();
    assert_eq!(dials, vec![dial("peer-b", 2)]);
    assert!(a.established(dials[0].addr, dials[0].id.clone(), 0).is_some());
    assert!(b.accepted(addr(1), 0).is_some());
    assert_eq!(a.connections().len(), 1);
    assert_eq!(b.connections().len(), 1);

    let item = ClipboardItem::text("hello from A", [0xAA; 8], 1);
    let frame = Message::Announce(item).encode(1024).unwrap();
    let mut at_b = FrameReader::new();
    assert_eq!(
        receive(&mut at_b, &frame),
        vec![Inbound::Forward(frame[4..].to_vec())]
    );
    a.broadcast(&vec![Some(500)], 500);

    let item_b = ClipboardItem::text("hello from B", [0xBB; 8], 1);
    let frame_b = Message::Announce(item_b).encode(1024).unwrap();
    let mut at_a = FrameReader::new();
    assert_eq!(
        receive(&mut at_a, &frame_b),
        vec![Inbound::Forward(frame_b[4..].to_vec())]
    );
    b.broadcast(&vec![Some(600)], 600);
    assert_eq!(a.connections().len(), 1);
    assert_eq!(b.connections().len(), 1);
}

#[test]
fn pruning_leaves_one_outgoing_channel_per_peer() {
    let mut state = NetworkState::new(vec![peer("a", &[1, 2])], limits());
    state.established(addr(1), "a".to_string(), 0);
    state.established(addr(2), "a".to_string(), 0);
    assert_eq!(state.connections().len(), 2);
    let dials = state.set_peers(vec![peer("a", &[1, 2])]);
    assert!(dials.is_empty());
    assert_eq!(channels(&state), vec![(addr(2), ConnKind::Outgoing)]);
}
