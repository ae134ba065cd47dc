use lan_mouse_clipboard::endpoint::{Endpoint, EndpointSet, EndpointTimes, Ip, NamedEndpoints};
use lan_mouse_clipboard::registry::{ConnKind, ConnectionRegistry};

const MS: u128 = 1_000_000;

#[test]
fn broadcast_reaches_all_peers() {
    let mut reg = ConnectionRegistry::new(60 * 1000 * MS);
    for n in 1..4u16 {
        reg.insert(Endpoint::v4(10, 0, 0, 1, 1000 + n), ConnKind::Incoming, 0);
    }
    // Every connection takes the frame "hello".
    let outcomes = reg.peers().iter().map(|_| Some(1)).collect();
    let (delivered, removed) = reg.broadcast(&outcomes);
    assert_eq!(delivered, 3);
    assert!(removed.is_empty());
    assert_eq!(reg.len(), 3);
}

#[test]
fn failed_send_evicts_peer() {
    let mut reg = ConnectionRegistry::new(60 * 1000 * MS);
    let addr = Endpoint::v4(10, 0, 0, 2, 2000);
    reg.insert(addr, ConnKind::Incoming, 0);
    let (delivered, removed) = reg.broadcast(&vec![None]);
    assert_eq!(delivered, 0);
    assert_eq!(removed, vec![addr]);
    assert!(reg.is_empty());
}

#[test]
fn idle_eviction_spares_incoming() {
    let mut reg = ConnectionRegistry::new(50 * MS);
    let addr_out = Endpoint::v4(10, 0, 0, 3, 3000);
    reg.insert(addr_out, ConnKind::Outgoing, 0);
    let addr_in = Endpoint::v4(10, 0, 0, 4, 4000);
    reg.insert(addr_in, ConnKind::Incoming, 0);

    let evicted = reg.evict_idle(120 * MS);
    assert_eq!(evicted, vec![addr_out]);
    assert!(!reg.contains(&addr_out));
    assert!(reg.contains(&addr_in));
    assert!(reg.evict_idle(120 * MS).is_empty());
}

#[test]
fn recent_activity_defers_eviction() {
    let mut reg = ConnectionRegistry::new(50 * MS);
    let addr = Endpoint::v4(10, 0, 0, 5, 5000);
    reg.insert(addr, ConnKind::Outgoing, 0);

    // Keep sending "keep-alive" so last_used stays fresh.
    let mut now = 0;
    for _ in 0..6 {
        reg.broadcast(&vec![Some(now)]);
        now += 20 * MS;
    }
    assert!(reg.evict_idle(now).is_empty());
}

#[test]
fn the_timeout_itself_is_not_idle() {
    let mut reg = ConnectionRegistry::new(50);
    let addr = Endpoint::v4(10, 0, 0, 6, 1);
    reg.insert(addr, ConnKind::Outgoing, 100);
    // A clock that went backwards evicts nothing.
    assert!(reg.evict_idle(0).is_empty());
    assert!(reg.evict_idle(150).is_empty());
    assert_eq!(reg.evict_idle(151), vec![addr]);
}

#[test]
fn inserting_again_replaces_in_place() {
    let mut reg = ConnectionRegistry::new(50);
    let a = Endpoint::v4(10, 0, 0, 1, 1);
    let b = Endpoint::v4(10, 0, 0, 2, 2);
    reg.insert(a, ConnKind::Outgoing, 1);
    reg.insert(b, ConnKind::Incoming, 2);
    reg.insert(a, ConnKind::Incoming, 3);
    assert_eq!(reg.peers(), vec![a, b]);
    let entries = reg.entries();
    assert_eq!(entries[0].kind, ConnKind::Incoming);
    assert_eq!(entries[0].last_used, 3);
    assert_eq!(reg.len(), 2);
}

#[test]
fn removing_and_clearing() {
    let mut reg = ConnectionRegistry::new(50);
    let a = Endpoint::v4(10, 0, 0, 1, 1);
    let b = Endpoint::v4(10, 0, 0, 2, 2);
    reg.insert(a, ConnKind::Outgoing, 1);
    reg.insert(b, ConnKind::Incoming, 2);
    reg.remove(&a);
    reg.remove(&a);
    assert_eq!(reg.peers(), vec![b]);
    assert!(reg.contains_host(b.ip));
    assert!(!reg.contains_host(a.ip));
    reg.clear();
    assert!(reg.is_empty());
}

#[test]
fn a_broadcast_sorts_out_who_failed() {
    let mut reg = ConnectionRegistry::new(50);
    let addrs: Vec<Endpoint> = (1..5u16).map(|p| Endpoint::v4(10, 0, 0, 1, p)).collect();
    for a in &addrs {
        reg.insert(*a, ConnKind::Outgoing, 0);
    }
    let (delivered, removed) = reg.broadcast(&vec![Some(10), None, Some(12), None]);
    assert_eq!(delivered, 2);
    assert_eq!(removed, vec![addrs[1], addrs[3]]);
    assert_eq!(reg.peers(), vec![addrs[0], addrs[2]]);
    assert_eq!(reg.entries()[1].last_used, 12);
}

#[test]
fn endpoints_from_octets() {
    let e = Endpoint::v4(127, 0, 0, 1, 80);
    assert_eq!(e.ip, Ip::V4(0x7f00_0001));
    assert_eq!((e.port, e.flowinfo, e.scope_id), (80, 0, 0));
    assert_ne!(Ip::V4(1), Ip::V6(1));
}

#[test]
fn endpoint_tables() {
    let a = Endpoint::v4(10, 0, 0, 1, 1);
    let b = Endpoint::v4(10, 0, 0, 2, 2);
    let mut set = EndpointSet::new();
    assert!(set.insert(a));
    assert!(!set.insert(a));
    assert!(set.contains(a) && !set.contains(b));
    set.remove(b);
    set.remove(a);
    assert!(!set.contains(a));

    let mut times = EndpointTimes::new();
    times.insert(a, 1);
    times.insert(b, 2);
    times.insert(a, 3);
    assert_eq!((times.get(a), times.get(b)), (Some(3), Some(2)));
    times.remove(a);
    assert_eq!((times.get(a), times.get(b)), (None, Some(2)));

    let mut names = NamedEndpoints::new();
    names.insert("x".into(), a);
    names.insert("y".into(), b);
    names.insert("x".into(), b);
    assert_eq!(names.get("x"), Some(b));
    assert_eq!(names.get("z"), None);
}
