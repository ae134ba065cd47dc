//! The clipboard network task.
//!
//! The decisions of the task that accepts authorized peers, registers each
//! accepted connection in the pool, forwards received frames to the
//! orchestrator's inbound channel, and writes orchestrator-produced broadcast
//! frames to all live connections (with idle eviction of outgoing conns).
//!
//! [`NetworkState`] is the state of that task and has one method for each event
//! that the task waits for; [`receive`] is what its read loops do with the bytes
//! of a connection. Whoever owns the sockets waits for the events and does what
//! the methods return.

use vstd::prelude::*;

use crate::endpoint::{
    position, Endpoint, EndpointSet, EndpointTimes, Ip, NamedEndpoints, Nanos,
};
use crate::bytes::{be32_value, group_be_len};
use crate::item::ItemView;
use crate::protocol::{
    announce_bytes, control_bytes, decoded, drained, encoded, frame_bytes, frames_bytes,
    law_encode_decode_roundtrip, law_frames_yield_their_payloads, law_reads_can_be_split,
    law_next_payload, law_which_items_are_encoded, lemma_header_bounds, next_payload, ErrorView, FrameReader,
    MessageView, KIND_PING, KIND_PONG,
};
use crate::registry::{
    addrs, addrs_distinct, connected, delivered, failed, host_connected, idle, idle_conns,
    law_broadcast_drops_exactly_the_failed, law_removal, lemma_filter_all, lemma_filter_distinct,
    lemma_filter_members, not_idle, registered, without, Conn, ConnKind, ConnectionRegistry,
};

verus! {

/// Events the network task raises for the owning service. Both a new
/// connection and a failed health check mean the peer's live address should
/// be re-derived, so they collapse into a single `Retrain`.
#[derive(Debug, Clone, Copy, PartialEq, Eq, Structural)]
pub enum NetworkEvent {
    /// Re-run IP "training" (re-derive peer addresses from the live UDP path).
    Retrain,
}

/// Clipboard endpoints for one peer.
///
/// Only one channel per peer is kept live. `active` is the preferred address
/// (the live UDP-path IP when known); the `fallbacks` stay registered so they
/// can be tried if the active address fails, without ever opening a second
/// simultaneous channel to the same peer.
#[derive(Debug, PartialEq, Eq)]
pub struct PeerEndpoints {
    /// Stable peer identity (certificate fingerprint).
    pub id: String,
    /// Preferred address to dial.
    pub active: Endpoint,
    /// Other registered addresses, tried in order if `active` fails.
    pub fallbacks: Vec<Endpoint>,
}

/// What is known of a peer.
#[verifier::ext_equal]
pub struct PeerView {
    pub id: Seq<char>,
    pub active: Endpoint,
    pub fallbacks: Seq<Endpoint>,
}

impl View for PeerEndpoints {
    type V = PeerView;

    open spec fn view(&self) -> PeerView {
        PeerView { id: self.id@, active: self.active, fallbacks: self.fallbacks@ }
    }
}

/// What is known of peers.
pub open spec fn peers_view(peers: Seq<PeerEndpoints>) -> Seq<PeerView> {
    peers.map_values(|p: PeerEndpoints| p@)
}

/// Every endpoint of a peer, preferred first.
pub open spec fn endpoints(peer: PeerView) -> Seq<Endpoint> {
    seq![peer.active] + peer.fallbacks
}

/// Whether some endpoint of the peer is on the host `ip`.
pub open spec fn has_ip(peer: PeerView, ip: Ip) -> bool {
    exists|i: int| 0 <= i < endpoints(peer).len() && (#[trigger] endpoints(peer)[i]).ip == ip
}

/// The endpoint of the peer behind `addr`, where `addr` is one of its endpoints
/// but not the last.
pub open spec fn endpoint_after(peer: PeerView, addr: Endpoint) -> Option<Endpoint> {
    match first_index(endpoints(peer), addr) {
        Some(i) => if i + 1 < endpoints(peer).len() {
            Some(endpoints(peer)[i + 1])
        } else {
            None
        },
        None => None,
    }
}

/// Where `addr` first stands in a list.
pub open spec fn first_index(list: Seq<Endpoint>, addr: Endpoint) -> Option<int>
    decreases list.len(),
{
    if list.len() == 0 {
        None
    } else if list[0] == addr {
        Some(0)
    } else {
        match first_index(list.drop_first(), addr) {
            Some(i) => Some(i + 1),
            None => None,
        }
    }
}

/// What `first_index` finds is the first place where the address stands.
proof fn lemma_first_index(list: Seq<Endpoint>, addr: Endpoint, i: int)
    requires
        0 <= i < list.len(),
        list[i] == addr,
        !list.take(i).contains(addr),
    ensures
        first_index(list, addr) == Some(i),
    decreases list.len(),
{
    if i > 0 {
        assert(list.take(i)[0] == list[0]);
        let tail = list.drop_first();
        let front = tail.take(i - 1);
        assert forall|j: int| 0 <= j < front.len() implies front[j] != addr by {
            assert(list.take(i)[j + 1] == front[j]);
        }
        lemma_first_index(tail, addr, i - 1);
    }
}

/// An address that does not stand in a list has no first index in it.
proof fn lemma_no_first_index(list: Seq<Endpoint>, addr: Endpoint)
    requires
        !list.contains(addr),
    ensures
        first_index(list, addr) is None,
    decreases list.len(),
{
    if list.len() > 0 {
        assert(list.contains(list[0]));
        let tail = list.drop_first();
        assert forall|j: int| 0 <= j < tail.len() implies tail[j] != addr by {
            assert(list[j + 1] == tail[j]);
        }
        lemma_no_first_index(tail, addr);
    }
}

impl Clone for PeerEndpoints {
    fn clone(&self) -> (copy: Self)
        ensures
            copy@ == self@,
    {
        PeerEndpoints {
            id: self.id.clone(),
            active: self.active,
            fallbacks: copy_endpoints(&self.fallbacks),
        }
    }
}

fn copy_endpoints(list: &Vec<Endpoint>) -> (copy: Vec<Endpoint>)
    ensures
        copy@ == list@,
{
    let mut copy: Vec<Endpoint> = Vec::new();
    let mut i: usize = 0;
    while i < list.len()
        invariant
            0 <= i <= list@.len(),
            copy@ == list@.take(i as int),
        decreases list@.len() - i,
    {
        copy.push(list[i]);
        i = i + 1;
        assert(copy@ =~= list@.take(i as int));
    }
    assert(list@.take(i as int) =~= list@);
    copy
}

impl PeerEndpoints {
    /// Every endpoint, preferred first.
    pub fn all(&self) -> (all: Vec<Endpoint>)
        ensures
            all@ == endpoints(self@),
    {
        let mut all: Vec<Endpoint> = Vec::new();
        all.push(self.active);
        let mut i: usize = 0;
        while i < self.fallbacks.len()
            invariant
                0 <= i <= self.fallbacks@.len(),
                all@ == seq![self.active] + self.fallbacks@.take(i as int),
            decreases self.fallbacks@.len() - i,
        {
            all.push(self.fallbacks[i]);
            i = i + 1;
            assert(all@ =~= seq![self.active] + self.fallbacks@.take(i as int));
        }
        assert(self.fallbacks@.take(i as int) =~= self.fallbacks@);
        all
    }

    /// Whether some endpoint is on the host `ip`.
    pub fn contains_ip(&self, ip: Ip) -> (yes: bool)
        ensures
            yes == has_ip(self@, ip),
    {
        let all = self.all();
        let mut i: usize = 0;
        while i < all.len()
            invariant
                all@ == endpoints(self@),
                0 <= i <= all@.len(),
                forall|j: int| 0 <= j < i ==> (#[trigger] endpoints(self@)[j]).ip != ip,
            decreases all@.len() - i,
        {
            if all[i].ip == ip {
                assert(endpoints(self@)[i as int].ip == ip);
                return true;
            }
            i = i + 1;
        }
        false
    }

    /// The next endpoint after `addr`, if any (used to rotate to a fallback).
    pub fn next_after(&self, addr: Endpoint) -> (next: Option<Endpoint>)
        ensures
            next == endpoint_after(self@, addr),
    {
        let all = self.all();
        match position(&all, addr) {
            Some(i) => {
                proof {
                    lemma_first_index(all@, addr, i as int);
                }
                if i < all.len() - 1 {
                    Some(all[i + 1])
                } else {
                    None
                }
            },
            None => {
                proof {
                    lemma_no_first_index(all@, addr);
                }
                None
            },
        }
    }
}

/// Runtime limits for the clipboard network task.
#[derive(Debug, Clone, Copy, PartialEq, Eq, Structural)]
pub struct NetworkLimits {
    /// Total size cap for a single item; bounds inbound frames.
    pub max_item_size: usize,
    /// Idle timeout for outgoing connections.
    pub idle_timeout: Nanos,
}

/// Health check cadence: probe every second, consider a peer dead if no pong
/// has arrived within the timeout.
pub const HEALTH_INTERVAL: Nanos = 1_000_000_000;

pub const HEALTH_TIMEOUT: Nanos = 3_000_000_000;

/// Fallback reconnect cadence. Only acts while a known peer has no live
/// channel; it is the backstop for when the health check cannot run yet
/// (initial connect) or just failed.
pub const RETRY_INTERVAL: Nanos = 1_000_000_000;

/// Outgoing-connection bookkeeping: the peer set, the endpoint each peer is
/// currently using, and which endpoints are live or being dialed.
#[verifier::ext_equal]
pub struct DialView {
    /// Peer set as last published by the service.
    pub peers: Seq<PeerView>,
    /// Endpoint currently dialed/used per peer id.
    pub current: Map<Seq<char>, Endpoint>,
    /// Endpoints with a live channel.
    pub live: Set<Endpoint>,
    /// Endpoints with a connect attempt in flight.
    pub dialing: Set<Endpoint>,
}

/// Whether some endpoint of the peer is in `set`.
pub open spec fn any_endpoint_in(set: Set<Endpoint>, peer: PeerView) -> bool {
    exists|i: int| 0 <= i < endpoints(peer).len() && set.contains(#[trigger] endpoints(peer)[i])
}

/// Whether the peer has a live endpoint.
pub open spec fn peer_live(dial: DialView, peer: PeerView) -> bool {
    any_endpoint_in(dial.live, peer)
}

/// Whether the peer has a live or in-flight endpoint.
pub open spec fn peer_busy(dial: DialView, peer: PeerView) -> bool {
    any_endpoint_in(dial.live, peer) || any_endpoint_in(dial.dialing, peer)
}

/// Whether some known peer has no live endpoint.
pub open spec fn some_peer_missing(dial: DialView) -> bool {
    exists|i: int| 0 <= i < dial.peers.len() && !peer_live(dial, #[trigger] dial.peers[i])
}

/// The endpoint that the peer is currently using: the one on record for its id,
/// else its preferred one.
pub open spec fn used_endpoint(dial: DialView, peer: PeerView) -> Endpoint {
    if dial.current.contains_key(peer.id) {
        dial.current[peer.id]
    } else {
        peer.active
    }
}

/// The first of the peers that has an endpoint on the host `ip`.
pub open spec fn peer_at(peers: Seq<PeerView>, ip: Ip) -> Option<PeerView>
    decreases peers.len(),
{
    if peers.len() == 0 {
        None
    } else if has_ip(peers[0], ip) {
        Some(peers[0])
    } else {
        peer_at(peers.drop_first(), ip)
    }
}

/// The endpoints on record after a peer set is adopted: a peer without a live
/// channel prefers its active endpoint again, a peer with one keeps what it has.
pub open spec fn adopted(
    live: Set<Endpoint>,
    current: Map<Seq<char>, Endpoint>,
    peers: Seq<PeerView>,
) -> Map<Seq<char>, Endpoint>
    decreases peers.len(),
{
    if peers.len() == 0 {
        current
    } else {
        let rest = adopted(live, current, peers.drop_last());
        if any_endpoint_in(live, peers.last()) {
            rest
        } else {
            rest.insert(peers.last().id, peers.last().active)
        }
    }
}

/// The bookkeeping after a peer set is adopted.
pub open spec fn with_peers(dial: DialView, peers: Seq<PeerView>) -> DialView {
    DialView { peers, current: adopted(dial.live, dial.current, peers), ..dial }
}

/// The bookkeeping for a peer set that nothing was dialed for yet.
pub open spec fn undialed(peers: Seq<PeerView>) -> DialView {
    DialView {
        peers,
        current: adopted(Set::empty(), Map::empty(), peers),
        live: Set::empty(),
        dialing: Set::empty(),
    }
}

/// The dials that are due for the given peers: one for every peer without a
/// live or in-flight endpoint, to the endpoint that it is currently using.
pub open spec fn due_dials(dial: DialView, peers: Seq<PeerView>) -> Seq<(Seq<char>, Endpoint)>
    decreases peers.len(),
{
    if peers.len() == 0 {
        seq![]
    } else {
        let rest = due_dials(dial, peers.drop_last());
        let peer = peers.last();
        if peer_busy(dial, peer) {
            rest
        } else {
            rest.push((peer.id, used_endpoint(dial, peer)))
        }
    }
}

/// The dials that are due for the known peers.
pub open spec fn dial_plan(dial: DialView) -> Seq<(Seq<char>, Endpoint)> {
    due_dials(dial, dial.peers)
}

/// The addresses of dials.
pub open spec fn dial_addrs(dials: Seq<(Seq<char>, Endpoint)>) -> Set<Endpoint> {
    Set::new(
        |a: Endpoint| exists|i: int| 0 <= i < dials.len() && (#[trigger] dials[i]).1 == a,
    )
}

/// The bookkeeping after the due dials were started.
pub open spec fn dialed(dial: DialView) -> DialView {
    DialView { dialing: dial.dialing.union(dial_addrs(dial_plan(dial))), ..dial }
}

/// The bookkeeping after a channel to `addr` failed: where `addr` is the
/// endpoint on record for the peer on that host, the peer's next endpoint takes
/// its place, if there is one.
pub open spec fn advanced(dial: DialView, addr: Endpoint) -> DialView {
    match peer_at(dial.peers, addr.ip) {
        Some(peer) => match endpoint_after(peer, addr) {
            Some(next) => if dial.current.contains_key(peer.id) && dial.current[peer.id] == addr {
                DialView { current: dial.current.insert(peer.id, next), ..dial }
            } else {
                dial
            },
            None => dial,
        },
        None => dial,
    }
}

/// Everything that the network task keeps track of.
#[verifier::ext_equal]
pub struct NetView {
    /// The live channels.
    pub conns: Seq<Conn>,
    /// How long an outgoing channel may stay unused.
    pub idle_timeout: Nanos,
    /// When each channel was last known to be alive.
    pub last_seen: Map<Endpoint, Nanos>,
    /// Outgoing-connection bookkeeping.
    pub dial: DialView,
}

/// What is kept track of after a channel is forgotten everywhere: registry,
/// live set, and health map.
pub open spec fn forgotten(net: NetView, addr: Endpoint) -> NetView {
    NetView {
        conns: without(net.conns, addr),
        last_seen: net.last_seen.remove(addr),
        dial: DialView { live: net.dial.live.remove(addr), ..net.dial },
        ..net
    }
}

/// What is kept track of after channels are forgotten, one after the other.
pub open spec fn forgotten_all(net: NetView, list: Seq<Endpoint>) -> NetView
    decreases list.len(),
{
    if list.len() == 0 {
        net
    } else {
        forgotten(forgotten_all(net, list.drop_last()), list.last())
    }
}

/// Whether one of the channels before it is an incoming one from the same host.
pub open spec fn incoming_from(conns: Seq<Conn>, ip: Ip) -> bool {
    exists|i: int|
        0 <= i < conns.len() && (#[trigger] conns[i]).kind == ConnKind::Incoming
            && conns[i].addr.ip == ip
}

/// Whether a channel, given those before it, is to be dropped so that only one
/// channel per peer is kept: an outgoing one that is not the current endpoint of
/// the peer on its host, or an incoming one from a host with another one.
pub open spec fn redundant(dial: DialView, before: Seq<Conn>, conn: Conn) -> bool {
    match conn.kind {
        ConnKind::Outgoing => match peer_at(dial.peers, conn.addr.ip) {
            Some(peer) => used_endpoint(dial, peer) != conn.addr,
            None => true,
        },
        ConnKind::Incoming => incoming_from(before, conn.addr.ip),
    }
}

/// The addresses of the channels to be dropped.
pub open spec fn redundant_addrs(dial: DialView, conns: Seq<Conn>) -> Seq<Endpoint>
    decreases conns.len(),
{
    if conns.len() == 0 {
        seq![]
    } else {
        let rest = redundant_addrs(dial, conns.drop_last());
        if redundant(dial, conns.drop_last(), conns.last()) {
            rest.push(conns.last().addr)
        } else {
            rest
        }
    }
}

/// What is kept track of after redundant channels are dropped.
pub open spec fn pruned(net: NetView) -> NetView {
    forgotten_all(net, redundant_addrs(net.dial, net.conns))
}

/// A connect attempt to be made: the peer's id and the address.
#[derive(Debug, PartialEq, Eq)]
pub struct Dial {
    pub id: String,
    pub addr: Endpoint,
}

/// What connect attempts say.
pub open spec fn dials_view(dials: Seq<Dial>) -> Seq<(Seq<char>, Endpoint)> {
    dials.map_values(|d: Dial| (d.id@, d.addr))
}

/// Outgoing-connection bookkeeping: the peer set, the endpoint each peer is
/// currently using, and which endpoints are live or being dialed.
#[derive(Debug)]
pub struct DialState {
    /// Peer set as last published by the service.
    peers: Vec<PeerEndpoints>,
    /// Endpoint currently dialed/used per peer id.
    current: NamedEndpoints,
    /// Endpoints with a live channel.
    live: EndpointSet,
    /// Endpoints with a connect attempt in flight.
    dialing: EndpointSet,
}

impl View for DialState {
    type V = DialView;

    closed spec fn view(&self) -> DialView {
        DialView {
            peers: peers_view(self.peers@),
            current: self.current@,
            live: self.live@,
            dialing: self.dialing@,
        }
    }
}

/// Whether some endpoint of the peer is in `set`.
fn any_in(set: &EndpointSet, peer: &PeerEndpoints) -> (yes: bool)
    ensures
        yes == any_endpoint_in(set@, peer@),
{
    let all = peer.all();
    let mut i: usize = 0;
    while i < all.len()
        invariant
            all@ == endpoints(peer@),
            0 <= i <= all@.len(),
            forall|j: int| 0 <= j < i ==> !set@.contains(#[trigger] endpoints(peer@)[j]),
        decreases all@.len() - i,
    {
        if set.contains(all[i]) {
            assert(set@.contains(endpoints(peer@)[i as int]));
            return true;
        }
        i = i + 1;
    }
    false
}

impl DialState {
    pub fn new(peers: Vec<PeerEndpoints>) -> (dial: Self)
        ensures
            dial@ == undialed(peers_view(peers@)),
    {
        let mut dial = Self {
            peers: Vec::new(),
            current: NamedEndpoints::new(),
            live: EndpointSet::new(),
            dialing: EndpointSet::new(),
        };
        dial.set_peers(peers);
        dial
    }

    /// Whether the peer has a live endpoint.
    pub fn has_live(&self, peer: &PeerEndpoints) -> (yes: bool)
        ensures
            yes == peer_live(self@, peer@),
    {
        any_in(&self.live, peer)
    }

    /// Adopt a new peer set. A peer without a live channel prefers its
    /// (possibly re-trained) active endpoint again; a peer that already has a
    /// healthy channel keeps it, so a retrain does not prune and re-dial a
    /// working fallback connection.
    pub fn set_peers(&mut self, peers: Vec<PeerEndpoints>)
        ensures
            final(self)@ == with_peers(old(self)@, peers_view(peers@)),
    {
        let ghost all = peers_view(peers@);
        let mut i: usize = 0;
        while i < peers.len()
            invariant
                0 <= i <= peers@.len(),
                all == peers_view(peers@),
                self@ == (DialView {
                    current: adopted(old(self)@.live, old(self)@.current, all.take(i as int)),
                    ..old(self)@
                }),
            decreases peers@.len() - i,
        {
            proof {
                assert(all.take(i + 1).drop_last() =~= all.take(i as int));
                assert(all.take(i + 1).last() == peers@[i as int]@);
            }
            let peer = &peers[i];
            if !self.has_live(peer) {
                self.current.insert(peer.id.clone(), peer.active);
            }
            i = i + 1;
        }
        assert(all.take(i as int) =~= all);
        self.peers = peers;
    }

    /// Whether some known peer has no live endpoint.
    pub fn any_missing(&self) -> (yes: bool)
        ensures
            yes == some_peer_missing(self@),
    {
        let mut i: usize = 0;
        while i < self.peers.len()
            invariant
                0 <= i <= self.peers@.len(),
                forall|j: int| 0 <= j < i ==> peer_live(self@, #[trigger] self@.peers[j]),
            decreases self.peers@.len() - i,
        {
            assert(self@.peers[i as int] == self.peers@[i as int]@);
            if !self.has_live(&self.peers[i]) {
                return true;
            }
            i = i + 1;
        }
        false
    }

    /// The connect attempts to start: one for every peer without a live or
    /// in-flight endpoint. Dials never block the accept loop (which would
    /// deadlock two peers dialing each other), and `dialing` guards against
    /// duplicate concurrent dials to the same address.
    pub fn spawn(&mut self) -> (dials: Vec<Dial>)
        ensures
            dials_view(dials@) == dial_plan(old(self)@),
            final(self)@ == dialed(old(self)@),
    {
        let ghost before = self@;
        let mut to_dial: Vec<Dial> = Vec::new();
        let mut i: usize = 0;
        while i < self.peers.len()
            invariant
                self@ == before,
                0 <= i <= self.peers@.len(),
                dials_view(to_dial@) == due_dials(before, before.peers.take(i as int)),
            decreases self.peers@.len() - i,
        {
            let peer = &self.peers[i];
            proof {
                assert(before.peers.take(i + 1).drop_last() =~= before.peers.take(i as int));
                assert(before.peers.take(i + 1).last() == peer@);
            }
            if !any_in(&self.live, peer) && !any_in(&self.dialing, peer) {
                let addr = self.endpoint_in_use(peer);
                let ghost sofar = dials_view(to_dial@);
                to_dial.push(Dial { id: peer.id.clone(), addr });
                assert(dials_view(to_dial@) =~= sofar.push((peer@.id, addr)));
            }
            i = i + 1;
        }
        assert(before.peers.take(i as int) =~= before.peers);
        let ghost plan = dial_plan(before);
        let mut k: usize = 0;
        assert(dial_addrs(plan.take(0)) =~= Set::<Endpoint>::empty());
        assert(before.dialing.union(Set::<Endpoint>::empty()) =~= before.dialing);
        while k < to_dial.len()
            invariant
                0 <= k <= to_dial@.len(),
                dials_view(to_dial@) == plan,
                self@ == (DialView {
                    dialing: before.dialing.union(dial_addrs(plan.take(k as int))),
                    ..before
                }),
            decreases to_dial@.len() - k,
        {
            let addr = to_dial[k].addr;
            assert(plan[k as int].1 == addr);
            self.dialing.insert(addr);
            proof {
                lemma_dial_addrs_next(plan, k as int);
                assert(before.dialing.union(dial_addrs(plan.take(k as int))).insert(addr)
                    =~= before.dialing.union(dial_addrs(plan.take(k + 1))));
            }
            k = k + 1;
        }
        assert(plan.take(k as int) =~= plan);
        to_dial
    }

    /// The endpoint that the peer is currently using.
    fn endpoint_in_use(&self, peer: &PeerEndpoints) -> (addr: Endpoint)
        ensures
            addr == used_endpoint(self@, peer@),
    {
        match self.current.get(peer.id.as_str()) {
            Some(addr) => addr,
            None => peer.active,
        }
    }

    /// Which peer comes first that has an endpoint on the host `ip`.
    fn find_peer(&self, ip: Ip) -> (at: Option<usize>)
        ensures
            match at {
                Some(i) => i < self.peers@.len() && peer_at(self@.peers, ip) == Some(
                    self.peers@[i as int]@,
                ),
                None => peer_at(self@.peers, ip) is None,
            },
    {
        let ghost peers = self@.peers;
        let mut i: usize = 0;
        assert(peers.skip(0) =~= peers);
        while i < self.peers.len()
            invariant
                0 <= i <= self.peers@.len(),
                peers == self@.peers,
                peer_at(peers.skip(i as int), ip) == peer_at(peers, ip),
            decreases self.peers@.len() - i,
        {
            assert(peers.skip(i as int)[0] == self.peers@[i as int]@);
            assert(peers.skip(i as int).drop_first() =~= peers.skip(i + 1));
            if self.peers[i].contains_ip(ip) {
                return Some(i);
            }
            i = i + 1;
        }
        None
    }

    /// After a channel to `addr` failed, advance its peer to the next
    /// fallback (if any) so the next dial tries a different address.
    pub fn advance(&mut self, addr: Endpoint)
        ensures
            final(self)@ == advanced(old(self)@, addr),
    {
        let at = match self.find_peer(addr.ip) {
            Some(i) => i,
            None => return,
        };
        let used = self.current.get(self.peers[at].id.as_str());
        if used.is_some() && used.unwrap() == addr {
            if let Some(next) = self.peers[at].next_after(addr) {
                let id = self.peers[at].id.clone();
                self.current.insert(id, next);
            }
        }
    }
}

/// What the parts of the network state keep track of, together.
pub open spec fn net_view(
    dial: DialState,
    registry: ConnectionRegistry,
    last_seen: EndpointTimes,
) -> NetView {
    NetView {
        conns: registry@,
        idle_timeout: registry.timeout(),
        last_seen: last_seen@,
        dial: dial@,
    }
}

impl DialState {
    /// Forget a channel everywhere it is tracked: registry, live set, and
    /// health map. Removals are idempotent.
    pub fn forget(
        &mut self,
        registry: &mut ConnectionRegistry,
        last_seen: &mut EndpointTimes,
        addr: &Endpoint,
    )
        requires
            old(registry).wf(),
        ensures
            final(registry).wf(),
            net_view(*final(self), *final(registry), *final(last_seen)) == forgotten(
                net_view(*old(self), *old(registry), *old(last_seen)),
                *addr,
            ),
    {
        registry.remove(addr);
        self.live.remove(*addr);
        last_seen.remove(*addr);
    }

    /// Forget channels, one after the other.
    fn forget_all(
        &mut self,
        registry: &mut ConnectionRegistry,
        last_seen: &mut EndpointTimes,
        list: &Vec<Endpoint>,
    )
        requires
            old(registry).wf(),
        ensures
            final(registry).wf(),
            net_view(*final(self), *final(registry), *final(last_seen)) == forgotten_all(
                net_view(*old(self), *old(registry), *old(last_seen)),
                list@,
            ),
    {
        let ghost before = net_view(*self, *registry, *last_seen);
        let mut i: usize = 0;
        while i < list.len()
            invariant
                registry.wf(),
                0 <= i <= list@.len(),
                net_view(*self, *registry, *last_seen) == forgotten_all(
                    before,
                    list@.take(i as int),
                ),
            decreases list@.len() - i,
        {
            assert(list@.take(i + 1).drop_last() =~= list@.take(i as int));
            self.forget(registry, last_seen, &list[i]);
            i = i + 1;
        }
        assert(list@.take(i as int) =~= list@);
    }

    /// Keep only one channel per peer: drop outgoing channels that are no
    /// longer the peer's current endpoint (or whose IP is no longer a known
    /// endpoint) and duplicate incoming channels from one IP.
    pub fn prune(&mut self, registry: &mut ConnectionRegistry, last_seen: &mut EndpointTimes)
        requires
            old(registry).wf(),
        ensures
            final(registry).wf(),
            net_view(*final(self), *final(registry), *final(last_seen)) == pruned(
                net_view(*old(self), *old(registry), *old(last_seen)),
            ),
    {
        let ghost before = net_view(*self, *registry, *last_seen);
        let entries = registry.entries();
        let mut to_drop: Vec<Endpoint> = Vec::new();
        let mut i: usize = 0;
        while i < entries.len()
            invariant
                entries@ == before.conns,
                self@ == before.dial,
                0 <= i <= entries@.len(),
                to_drop@ == redundant_addrs(before.dial, entries@.take(i as int)),
            decreases entries@.len() - i,
        {
            let conn = entries[i];
            assert(entries@.take(i + 1).drop_last() =~= entries@.take(i as int));
            let drop = match conn.kind {
                ConnKind::Outgoing => match self.find_peer(conn.addr.ip) {
                    Some(at) => self.endpoint_in_use(&self.peers[at]) != conn.addr,
                    None => true,
                },
                // At most one incoming channel per peer IP.
                ConnKind::Incoming => has_incoming(&entries, i, conn.addr.ip),
            };
            if drop {
                to_drop.push(conn.addr);
            }
            i = i + 1;
        }
        assert(entries@.take(i as int) =~= entries@);
        self.forget_all(registry, last_seen, &to_drop);
    }
}

/// Whether one of the first `n` channels is an incoming one from the host `ip`.
fn has_incoming(conns: &Vec<Conn>, n: usize, ip: Ip) -> (yes: bool)
    requires
        n <= conns@.len(),
    ensures
        yes == incoming_from(conns@.take(n as int), ip),
{
    let ghost front = conns@.take(n as int);
    let mut i: usize = 0;
    while i < n
        invariant
            n <= conns@.len(),
            front == conns@.take(n as int),
            0 <= i <= n,
            forall|j: int|
                0 <= j < i ==> !((#[trigger] front[j]).kind == ConnKind::Incoming
                    && front[j].addr.ip == ip),
        decreases n - i,
    {
        if conns[i].kind == ConnKind::Incoming && conns[i].addr.ip == ip {
            assert(front[i as int] == conns@[i as int]);
            return true;
        }
        i = i + 1;
    }
    false
}

/// The addresses of dials are those of all but the last, and that of the last.
proof fn lemma_dial_addrs_next(dials: Seq<(Seq<char>, Endpoint)>, k: int)
    requires
        0 <= k < dials.len(),
    ensures
        dial_addrs(dials.take(k + 1)) == dial_addrs(dials.take(k)).insert(dials[k].1),
{
    let short = dials.take(k);
    let long = dials.take(k + 1);
    assert forall|a: Endpoint| dial_addrs(long).contains(a) == dial_addrs(short).insert(
        dials[k].1,
    ).contains(a) by {
        if dial_addrs(short).contains(a) {
            let i = choose|i: int| 0 <= i < short.len() && (#[trigger] short[i]).1 == a;
            assert(long[i].1 == a);
        }
        if dial_addrs(long).contains(a) {
            let i = choose|i: int| 0 <= i < long.len() && (#[trigger] long[i]).1 == a;
            if i < k {
                assert(short[i].1 == a);
            }
        }
        assert(long[k] == dials[k]);
    }
    assert(dial_addrs(long) =~= dial_addrs(short).insert(dials[k].1));
}

/// Whether there is a channel of the given kind to `addr`.
pub open spec fn has_link(conns: Seq<Conn>, addr: Endpoint, kind: ConnKind) -> bool {
    exists|i: int| 0 <= i < conns.len() && (#[trigger] conns[i]).addr == addr && conns[i].kind == kind
}

/// What holds of the network state at all times:
/// - there is at most one channel to each address;
/// - the live endpoints are exactly those with an outgoing channel;
/// - every channel has a time at which it was last known to be alive;
/// - no two incoming channels come from one host.
pub open spec fn net_inv(net: NetView) -> bool {
    &&& addrs_distinct(net.conns)
    &&& forall|a: Endpoint| #[trigger]
        net.dial.live.contains(a) <==> has_link(net.conns, a, ConnKind::Outgoing)
    &&& forall|a: Endpoint, k: ConnKind| #[trigger]
        has_link(net.conns, a, k) ==> net.last_seen.contains_key(a)
    &&& forall|a: Endpoint, b: Endpoint| #[trigger]
        has_link(net.conns, a, ConnKind::Incoming) && #[trigger] has_link(
            net.conns,
            b,
            ConnKind::Incoming,
        ) && a.ip == b.ip ==> a == b
}

/// A channel to an address is one of either kind.
proof fn lemma_connected_links(conns: Seq<Conn>, addr: Endpoint)
    ensures
        connected(conns, addr) <==> has_link(conns, addr, ConnKind::Outgoing) || has_link(
            conns,
            addr,
            ConnKind::Incoming,
        ),
{
    if connected(conns, addr) {
        let i = choose|i: int| 0 <= i < conns.len() && (#[trigger] conns[i]).addr == addr;
        match conns[i].kind {
            ConnKind::Outgoing => assert(has_link(conns, addr, ConnKind::Outgoing)),
            ConnKind::Incoming => assert(has_link(conns, addr, ConnKind::Incoming)),
        }
    }
}

/// Where no address occurs twice, a channel to an address has one kind.
proof fn lemma_one_kind(conns: Seq<Conn>, addr: Endpoint)
    requires
        addrs_distinct(conns),
    ensures
        !(has_link(conns, addr, ConnKind::Outgoing) && has_link(conns, addr, ConnKind::Incoming)),
{
}

/// Leaving channels out leaves the others as they are.
proof fn lemma_filter_links(conns: Seq<Conn>, keep: spec_fn(Conn) -> bool)
    ensures
        forall|a: Endpoint, k: ConnKind| #[trigger]
            has_link(conns.filter(keep), a, k) <==> exists|c: Conn| #[trigger]
                conns.contains(c) && keep(c) && c.addr == a && c.kind == k,
{
    let kept = conns.filter(keep);
    lemma_filter_distinct(conns, keep);
    assert forall|a: Endpoint, k: ConnKind| #[trigger]
        has_link(kept, a, k) <==> exists|c: Conn| #[trigger]
            conns.contains(c) && keep(c) && c.addr == a && c.kind == k by {
        if has_link(kept, a, k) {
            let i = choose|i: int|
                0 <= i < kept.len() && (#[trigger] kept[i]).addr == a && kept[i].kind == k;
            assert(kept.contains(kept[i]));
            assert(conns.contains(kept[i]));
        }
        if exists|c: Conn| #[trigger]
            conns.contains(c) && keep(c) && c.addr == a && c.kind == k {
            let c = choose|c: Conn| #[trigger]
                conns.contains(c) && keep(c) && c.addr == a && c.kind == k;
            assert(kept.contains(c));
            let i = choose|i: int| 0 <= i < kept.len() && kept[i] == c;
            assert(kept[i].addr == a);
        }
    }
}

/// Which channels there are after one is removed.
proof fn lemma_without_links(conns: Seq<Conn>, addr: Endpoint)
    ensures
        forall|a: Endpoint, k: ConnKind| #[trigger]
            has_link(without(conns, addr), a, k) <==> has_link(conns, a, k) && a != addr,
{
    let keep = |c: Conn| c.addr != addr;
    lemma_filter_links(conns, keep);
    assert forall|a: Endpoint, k: ConnKind| #[trigger]
        has_link(without(conns, addr), a, k) <==> has_link(conns, a, k) && a != addr by {
        assert(without(conns, addr) == conns.filter(keep));
        if has_link(conns, a, k) && a != addr {
            let i = choose|i: int|
                0 <= i < conns.len() && (#[trigger] conns[i]).addr == a && conns[i].kind == k;
            assert(conns.contains(conns[i]) && keep(conns[i]));
        }
    }
}

/// Which channels there are after one to a new address is registered.
proof fn lemma_registered_links(conns: Seq<Conn>, conn: Conn)
    requires
        !connected(conns, conn.addr),
    ensures
        forall|a: Endpoint, k: ConnKind| #[trigger]
            has_link(registered(conns, conn), a, k) <==> has_link(conns, a, k) || (a == conn.addr
                && k == conn.kind),
{
    let new = registered(conns, conn);
    assert(new[conns.len() as int] == conn);
    assert forall|a: Endpoint, k: ConnKind| #[trigger]
        has_link(new, a, k) <==> has_link(conns, a, k) || (a == conn.addr && k == conn.kind) by {
        if has_link(conns, a, k) {
            let i = choose|i: int|
                0 <= i < conns.len() && (#[trigger] conns[i]).addr == a && conns[i].kind == k;
            assert(new[i].addr == a);
        }
        if has_link(new, a, k) {
            let i = choose|i: int|
                0 <= i < new.len() && (#[trigger] new[i]).addr == a && new[i].kind == k;
            if i < conns.len() {
                assert(conns[i].addr == a);
            }
        }
    }
}

/// Which channels there are after a broadcast.
proof fn lemma_delivered_links(conns: Seq<Conn>, outcomes: Seq<Option<Nanos>>)
    requires
        addrs_distinct(conns),
        outcomes.len() == conns.len(),
    ensures
        forall|a: Endpoint, k: ConnKind| #[trigger]
            has_link(delivered(conns, outcomes), a, k) <==> has_link(conns, a, k) && !failed(
                conns,
                outcomes,
            ).contains(a),
{
    let kept = delivered(conns, outcomes);
    law_broadcast_drops_exactly_the_failed(conns, outcomes);
    lemma_delivered_kinds(conns, outcomes);
    assert forall|a: Endpoint, k: ConnKind| #[trigger]
        has_link(kept, a, k) <==> has_link(conns, a, k) && !failed(conns, outcomes).contains(a) by {
        lemma_connected_links(conns, a);
        lemma_connected_links(kept, a);
        lemma_one_kind(conns, a);
        assert(connected(kept, a) <==> connected(conns, a) && !failed(conns, outcomes).contains(a));
        assert(k == ConnKind::Outgoing || k == ConnKind::Incoming);
        assert(has_link(kept, a, ConnKind::Outgoing) ==> has_link(conns, a, ConnKind::Outgoing));
        assert(has_link(kept, a, ConnKind::Incoming) ==> has_link(conns, a, ConnKind::Incoming));
    }
}

/// A broadcast changes the kind of no channel.
proof fn lemma_delivered_kinds(conns: Seq<Conn>, outcomes: Seq<Option<Nanos>>)
    requires
        outcomes.len() == conns.len(),
    ensures
        forall|a: Endpoint, k: ConnKind| #[trigger]
            has_link(delivered(conns, outcomes), a, k) ==> has_link(conns, a, k),
    decreases conns.len(),
{
    if conns.len() > 0 {
        let init = conns.drop_last();
        let before = outcomes.drop_last();
        lemma_delivered_kinds(init, before);
        let kept = delivered(conns, outcomes);
        let kept0 = delivered(init, before);
        assert forall|a: Endpoint, k: ConnKind| #[trigger] has_link(kept, a, k) implies has_link(
            conns,
            a,
            k,
        ) by {
            let i = choose|i: int|
                0 <= i < kept.len() && (#[trigger] kept[i]).addr == a && kept[i].kind == k;
            if i < kept0.len() {
                assert(kept0[i].addr == a);
                assert(has_link(kept0, a, k));
                assert(has_link(init, a, k));
                let j = choose|j: int|
                    0 <= j < init.len() && (#[trigger] init[j]).addr == a && init[j].kind == k;
                assert(conns[j].addr == a);
            } else {
                assert(conns[conns.len() - 1].addr == a);
            }
        }
    }
}

/// Which channels there are after idle ones are evicted.
proof fn lemma_not_idle_links(conns: Seq<Conn>, now: Nanos, timeout: Nanos)
    requires
        addrs_distinct(conns),
    ensures
        forall|a: Endpoint, k: ConnKind| #[trigger]
            has_link(not_idle(conns, now, timeout), a, k) <==> has_link(conns, a, k) && !addrs(
                idle_conns(conns, now, timeout),
            ).contains(a),
{
    let keep = |c: Conn| !idle(c, now, timeout);
    let drop = |c: Conn| idle(c, now, timeout);
    let gone = idle_conns(conns, now, timeout);
    lemma_filter_links(conns, keep);
    lemma_filter_distinct(conns, drop);
    assert forall|a: Endpoint, k: ConnKind| #[trigger]
        has_link(not_idle(conns, now, timeout), a, k) <==> has_link(conns, a, k) && !addrs(
            gone,
        ).contains(a) by {
        assert(not_idle(conns, now, timeout) == conns.filter(keep));
        if has_link(conns.filter(keep), a, k) {
            let c = choose|c: Conn| #[trigger]
                conns.contains(c) && keep(c) && c.addr == a && c.kind == k;
            let i = choose|i: int| 0 <= i < conns.len() && conns[i] == c;
            assert(conns[i].addr == a && conns[i].kind == k);
            if addrs(gone).contains(a) {
                let g = choose|g: int| 0 <= g < addrs(gone).len() && addrs(gone)[g] == a;
                assert(gone.contains(gone[g]));
                let j = choose|j: int| 0 <= j < conns.len() && conns[j] == gone[g];
                assert(conns[j].addr == a);
                assert(i == j);
            }
        }
        if has_link(conns, a, k) && !addrs(gone).contains(a) {
            let i = choose|i: int|
                0 <= i < conns.len() && (#[trigger] conns[i]).addr == a && conns[i].kind == k;
            assert(conns.contains(conns[i]));
            if idle(conns[i], now, timeout) {
                assert(drop(conns[i]));
                assert(gone.contains(conns[i]));
                let g = choose|g: int| 0 <= g < gone.len() && gone[g] == conns[i];
                assert(addrs(gone)[g] == a);
            }
            assert(keep(conns[i]));
        }
    }
}

/// What forgetting a list of channels does to each of them and to the others.
proof fn lemma_forgotten_all(net: NetView, list: Seq<Endpoint>)
    ensures
        addrs_distinct(net.conns) ==> addrs_distinct(forgotten_all(net, list).conns),
        forall|a: Endpoint, k: ConnKind| #[trigger]
            has_link(forgotten_all(net, list).conns, a, k) <==> has_link(net.conns, a, k)
                && !list.contains(a),
        forall|a: Endpoint| #[trigger]
            forgotten_all(net, list).dial.live.contains(a) <==> net.dial.live.contains(a)
                && !list.contains(a),
        forall|a: Endpoint| #[trigger]
            forgotten_all(net, list).last_seen.contains_key(a) <==> net.last_seen.contains_key(a)
                && !list.contains(a),
        forgotten_all(net, list).idle_timeout == net.idle_timeout,
        forgotten_all(net, list).dial.peers == net.dial.peers,
        forgotten_all(net, list).dial.current == net.dial.current,
        forgotten_all(net, list).dial.dialing == net.dial.dialing,
    decreases list.len(),
{
    if list.len() > 0 {
        let init = list.drop_last();
        let last = list.last();
        let mid = forgotten_all(net, init);
        lemma_forgotten_all(net, init);
        lemma_without_links(mid.conns, last);
        lemma_filter_distinct(mid.conns, |c: Conn| c.addr != last);
        assert forall|a: Endpoint| list.contains(a) == (init.contains(a) || a == last) by {
            if init.contains(a) {
                let i = choose|i: int| 0 <= i < init.len() && init[i] == a;
                assert(list[i] == a);
            }
            if list.contains(a) {
                let i = choose|i: int| 0 <= i < list.len() && list[i] == a;
                if i < init.len() {
                    assert(init[i] == a);
                }
            }
            assert(list[list.len() - 1] == last);
        }
    }
}

/// Forgetting channels keeps what always holds.
proof fn lemma_forgotten_all_inv(net: NetView, list: Seq<Endpoint>)
    requires
        net_inv(net),
    ensures
        net_inv(forgotten_all(net, list)),
{
    lemma_forgotten_all(net, list);
}

/// Forgetting one channel keeps what always holds.
proof fn lemma_forgotten_inv(net: NetView, addr: Endpoint)
    requires
        net_inv(net),
    ensures
        net_inv(forgotten(net, addr)),
{
    lemma_forgotten_all_inv(net, seq![addr]);
    assert(seq![addr].drop_last() =~= Seq::<Endpoint>::empty());
    reveal_with_fuel(forgotten_all, 2);
}

/// Whether a channel was known to be alive recently enough.
pub open spec fn alive(net: NetView, addr: Endpoint, now: Nanos) -> bool {
    net.last_seen.contains_key(addr) && now - net.last_seen[addr] <= HEALTH_TIMEOUT
}

/// The channels that a health check pings.
pub open spec fn probed(net: NetView, now: Nanos) -> Seq<Endpoint> {
    addrs(net.conns).filter(|a: Endpoint| alive(net, a, now))
}

/// The channels that a health check gives up, given those whose ping could not
/// be written.
pub open spec fn dead(net: NetView, now: Nanos, unwritten: Seq<Endpoint>) -> Seq<Endpoint> {
    addrs(net.conns).filter(|a: Endpoint| !alive(net, a, now) || unwritten.contains(a))
}

/// What is kept track of after a channel failed: it is forgotten, and its peer
/// rotates to its next endpoint.
pub open spec fn lost(net: NetView, addr: Endpoint) -> NetView {
    let net = forgotten(net, addr);
    NetView { dial: advanced(net.dial, addr), ..net }
}

/// What is kept track of after channels failed, one after the other.
pub open spec fn lost_all(net: NetView, list: Seq<Endpoint>) -> NetView
    decreases list.len(),
{
    if list.len() == 0 {
        net
    } else {
        lost(lost_all(net, list.drop_last()), list.last())
    }
}

/// What is kept track of after the due dials were started.
pub open spec fn net_dialed(net: NetView) -> NetView {
    NetView { dial: dialed(net.dial), ..net }
}

/// What is kept track of after a health check.
pub open spec fn health_checked(net: NetView, now: Nanos, unwritten: Seq<Endpoint>) -> NetView {
    if dead(net, now, unwritten).len() == 0 {
        net
    } else {
        net_dialed(lost_all(net, dead(net, now, unwritten)))
    }
}

/// The dials that a health check starts.
pub open spec fn health_dials(net: NetView, now: Nanos, unwritten: Seq<Endpoint>) -> Seq<
    (Seq<char>, Endpoint),
> {
    if dead(net, now, unwritten).len() == 0 {
        seq![]
    } else {
        dial_plan(lost_all(net, dead(net, now, unwritten)).dial)
    }
}

/// What is kept track of after a new peer set was published, before the due
/// dials are started: redundant channels are dropped.
pub open spec fn repeered(net: NetView, peers: Seq<PeerView>) -> NetView {
    pruned(NetView { dial: with_peers(net.dial, peers), ..net })
}

/// What is kept track of after a connect attempt ended.
pub open spec fn attempt_over(net: NetView, addr: Endpoint) -> NetView {
    NetView { dial: DialView { dialing: net.dial.dialing.remove(addr), ..net.dial }, ..net }
}

/// What is kept track of after a connect attempt to the peer `id` succeeded.
pub open spec fn established(net: NetView, addr: Endpoint, id: Seq<char>, now: Nanos) -> NetView {
    let net = attempt_over(net, addr);
    if connected(net.conns, addr) {
        net
    } else {
        NetView {
            conns: registered(
                net.conns,
                Conn { addr, kind: ConnKind::Outgoing, last_used: now },
            ),
            last_seen: net.last_seen.insert(addr, now),
            dial: DialView {
                live: net.dial.live.insert(addr),
                current: net.dial.current.insert(id, addr),
                ..net.dial
            },
            ..net
        }
    }
}

/// What is kept track of after a connect attempt failed: the peer rotates to its
/// next registered fallback.
pub open spec fn attempt_failed(net: NetView, addr: Endpoint) -> NetView {
    let net = attempt_over(net, addr);
    NetView { dial: advanced(net.dial, addr), ..net }
}

/// What is kept track of after a peer connected, unless its host already has a
/// live channel (any port).
pub open spec fn peer_accepted(net: NetView, addr: Endpoint, now: Nanos) -> NetView {
    if host_connected(net.conns, addr.ip) {
        net
    } else {
        NetView {
            conns: registered(
                net.conns,
                Conn { addr, kind: ConnKind::Incoming, last_used: now },
            ),
            last_seen: net.last_seen.insert(addr, now),
            ..net
        }
    }
}

/// The channels that a broadcast ends: those that failed it, and the idle
/// outgoing ones among the others.
pub open spec fn broadcast_ends(
    net: NetView,
    outcomes: Seq<Option<Nanos>>,
    now: Nanos,
) -> Seq<Endpoint> {
    failed(net.conns, outcomes) + addrs(
        idle_conns(delivered(net.conns, outcomes), now, net.idle_timeout),
    )
}

/// What is kept track of after a broadcast.
pub open spec fn broadcast_over(
    net: NetView,
    outcomes: Seq<Option<Nanos>>,
    now: Nanos,
) -> NetView {
    let conns = not_idle(delivered(net.conns, outcomes), now, net.idle_timeout);
    forgotten_all(NetView { conns, ..net }, broadcast_ends(net, outcomes, now))
}

/// What is kept track of after a pong arrived.
pub open spec fn ponged(net: NetView, addr: Endpoint, now: Nanos) -> NetView {
    NetView { last_seen: net.last_seen.insert(addr, now), ..net }
}

/// What is kept track of when the task starts.
pub open spec fn started(peers: Seq<PeerView>, idle_timeout: Nanos) -> NetView {
    NetView { conns: seq![], idle_timeout, last_seen: Map::empty(), dial: undialed(peers) }
}

/// The state of the network task.
#[derive(Debug)]
pub struct NetworkState {
    registry: ConnectionRegistry,
    /// Last seen pong per live channel, keyed by connection address.
    last_seen: EndpointTimes,
    dial: DialState,
}

impl View for NetworkState {
    type V = NetView;

    closed spec fn view(&self) -> NetView {
        net_view(self.dial, self.registry, self.last_seen)
    }
}

impl NetworkState {
    /// What holds of the network state at all times.
    pub open spec fn wf(&self) -> bool {
        net_inv(self@)
    }

    /// The state at startup: no channels, and no connect attempts yet.
    pub fn new(peers: Vec<PeerEndpoints>, limits: NetworkLimits) -> (state: Self)
        ensures
            state.wf(),
            state@ == started(peers_view(peers@), limits.idle_timeout),
    {
        let state = NetworkState {
            registry: ConnectionRegistry::new(limits.idle_timeout),
            last_seen: EndpointTimes::new(),
            dial: DialState::new(peers),
        };
        assert(state@ =~= started(peers_view(peers@), limits.idle_timeout));
        state
    }

    /// The live channels.
    pub fn connections(&self) -> (conns: Vec<Conn>)
        ensures
            conns@ == self@.conns,
    {
        self.registry.entries()
    }

    /// Whether there is a live channel to `addr`.
    pub fn contains(&self, addr: &Endpoint) -> (yes: bool)
        ensures
            yes == connected(self@.conns, *addr),
    {
        self.registry.contains(addr)
    }

    /// Start the connect attempts that are due.
    pub fn spawn(&mut self) -> (dials: Vec<Dial>)
        requires
            old(self).wf(),
        ensures
            final(self).wf(),
            dials_view(dials@) == dial_plan(old(self)@.dial),
            final(self)@ == net_dialed(old(self)@),
    {
        let dials = self.dial.spawn();
        proof {
            lemma_inv_frame(old(self)@, self@);
        }
        dials
    }

    /// The channels that a health check is to ping: those that were alive
    /// recently enough.
    pub fn health_probes(&self, now: Nanos) -> (probes: Vec<Endpoint>)
        ensures
            probes@ == probed(self@, now),
    {
        let peers = self.registry.peers();
        let mut probes: Vec<Endpoint> = Vec::new();
        let mut i: usize = 0;
        while i < peers.len()
            invariant
                peers@ == addrs(self@.conns),
                0 <= i <= peers@.len(),
                probes@ == peers@.take(i as int).filter(|a: Endpoint| alive(self@, a, now)),
            decreases peers@.len() - i,
        {
            proof {
                reveal(Seq::filter);
                assert(peers@.take(i + 1).drop_last() =~= peers@.take(i as int));
            }
            if self.is_alive(peers[i], now) {
                probes.push(peers[i]);
            }
            i = i + 1;
        }
        assert(peers@.take(i as int) =~= peers@);
        probes
    }

    fn is_alive(&self, addr: Endpoint, now: Nanos) -> (yes: bool)
        ensures
            yes == alive(self@, addr, now),
    {
        match self.last_seen.get(addr) {
            Some(t) => now <= t || now - t <= HEALTH_TIMEOUT,
            None => false,
        }
    }

    /// Finish a health check, given the channels whose ping could not be
    /// written: drop those and the ones that were not alive recently enough,
    /// and if there were any, ask for a retrain and burst reconnect.
    pub fn finish_health(&mut self, now: Nanos, unwritten: &Vec<Endpoint>) -> (result: (
        Option<NetworkEvent>,
        Vec<Dial>,
    ))
        requires
            old(self).wf(),
        ensures
            final(self).wf(),
            final(self)@ == health_checked(old(self)@, now, unwritten@),
            result.0 is Some <==> dead(old(self)@, now, unwritten@).len() > 0,
            dials_view(result.1@) == health_dials(old(self)@, now, unwritten@),
    {
        let ghost before = self@;
        let peers = self.registry.peers();
        let mut gone: Vec<Endpoint> = Vec::new();
        let mut i: usize = 0;
        while i < peers.len()
            invariant
                self@ == before,
                peers@ == addrs(before.conns),
                0 <= i <= peers@.len(),
                gone@ == peers@.take(i as int).filter(
                    |a: Endpoint| !alive(before, a, now) || unwritten@.contains(a),
                ),
            decreases peers@.len() - i,
        {
            proof {
                reveal(Seq::filter);
                assert(peers@.take(i + 1).drop_last() =~= peers@.take(i as int));
            }
            if !self.is_alive(peers[i], now) || contains_endpoint(unwritten, peers[i]) {
                gone.push(peers[i]);
            }
            i = i + 1;
        }
        assert(peers@.take(i as int) =~= peers@);
        if gone.len() == 0 {
            let none: Vec<Dial> = Vec::new();
            assert(dials_view(none@) =~= seq![]);
            return (None, none);
        }
        let mut k: usize = 0;
        while k < gone.len()
            invariant
                0 <= k <= gone@.len(),
                self.wf(),
                self@ == lost_all(before, gone@.take(k as int)),
            decreases gone@.len() - k,
        {
            assert(gone@.take(k + 1).drop_last() =~= gone@.take(k as int));
            self.lose(gone[k]);
            k = k + 1;
        }
        assert(gone@.take(k as int) =~= gone@);
        let dials = self.spawn();
        (Some(NetworkEvent::Retrain), dials)
    }

    /// Forget a failed channel and rotate its peer to the next endpoint.
    fn lose(&mut self, addr: Endpoint)
        requires
            old(self).wf(),
        ensures
            final(self).wf(),
            final(self)@ == lost(old(self)@, addr),
    {
        proof {
            lemma_forgotten_inv(self@, addr);
        }
        self.dial.forget(&mut self.registry, &mut self.last_seen, &addr);
        let ghost forgot = self@;
        self.dial.advance(addr);
        proof {
            lemma_inv_frame(forgot, self@);
        }
    }

    /// Fallback reconnect: act only while some known peer has no live endpoint;
    /// a healthy, fully-connected set does nothing.
    pub fn retry(&mut self) -> (dials: Vec<Dial>)
        requires
            old(self).wf(),
        ensures
            final(self).wf(),
            some_peer_missing(old(self)@.dial) ==> dials_view(dials@) == dial_plan(
                old(self)@.dial,
            ) && final(self)@ == net_dialed(old(self)@),
            !some_peer_missing(old(self)@.dial) ==> dials@.len() == 0 && final(self)@ == old(self)@,
    {
        if self.dial.any_missing() {
            self.spawn()
        } else {
            Vec::new()
        }
    }

    /// A new peer set was published: adopt it, prune any channel that is no
    /// longer its peer's live endpoint, then top up connections.
    pub fn set_peers(&mut self, peers: Vec<PeerEndpoints>) -> (dials: Vec<Dial>)
        requires
            old(self).wf(),
        ensures
            final(self).wf(),
            final(self)@ == net_dialed(repeered(old(self)@, peers_view(peers@))),
            dials_view(dials@) == dial_plan(repeered(old(self)@, peers_view(peers@)).dial),
    {
        self.dial.set_peers(peers);
        proof {
            lemma_inv_frame(old(self)@, self@);
            lemma_forgotten_all_inv(self@, redundant_addrs(self@.dial, self@.conns));
        }
        self.dial.prune(&mut self.registry, &mut self.last_seen);
        self.spawn()
    }

    /// A connect attempt to the peer `id` succeeded. Returns an event exactly if
    /// the connection became a live channel, which is then to be read from; it
    /// is to be closed otherwise, as there is a channel to `addr` already.
    pub fn established(&mut self, addr: Endpoint, id: String, now: Nanos) -> (event: Option<
        NetworkEvent,
    >)
        requires
            old(self).wf(),
        ensures
            final(self).wf(),
            final(self)@ == established(old(self)@, addr, id@, now),
            event is Some <==> !connected(old(self)@.conns, addr),
    {
        proof {
            lemma_established_inv(self@, addr, id@, now);
        }
        self.dial.dialing.remove(addr);
        if self.registry.contains(&addr) {
            return None;
        }
        self.registry.insert(addr, ConnKind::Outgoing, now);
        self.dial.live.insert(addr);
        self.last_seen.insert(addr, now);
        self.dial.current.insert(id, addr);
        // Retrain IPs on every connect so peers converge on the live address.
        Some(NetworkEvent::Retrain)
    }

    /// A connect attempt to `addr` failed: rotate its peer to the next
    /// registered fallback.
    pub fn dial_failed(&mut self, addr: Endpoint)
        requires
            old(self).wf(),
        ensures
            final(self).wf(),
            final(self)@ == attempt_failed(old(self)@, addr),
    {
        self.dial.dialing.remove(addr);
        self.dial.advance(addr);
        proof {
            lemma_inv_frame(old(self)@, self@);
        }
    }

    /// A pong arrived: the channel is alive.
    pub fn pong(&mut self, addr: Endpoint, now: Nanos)
        requires
            old(self).wf(),
        ensures
            final(self).wf(),
            final(self)@ == ponged(old(self)@, addr, now),
    {
        self.last_seen.insert(addr, now);
        proof {
            lemma_inv_frame(old(self)@, self@);
        }
    }

    /// A ping was answered with a pong, or the pong could not be written: keep
    /// the bookkeeping consistent with the channel, which is gone then.
    pub fn ping_answered(&mut self, addr: Endpoint, written: bool)
        requires
            old(self).wf(),
        ensures
            final(self).wf(),
            final(self)@ == if written {
                old(self)@
            } else {
                forgotten(old(self)@, addr)
            },
    {
        if !written {
            proof {
                lemma_forgotten_inv(self@, addr);
            }
            self.dial.forget(&mut self.registry, &mut self.last_seen, &addr);
        }
    }

    /// A peer closed its side. Drop the stale channel and rotate; the fallback
    /// reconnect re-establishes it.
    pub fn disconnected(&mut self, addr: Endpoint)
        requires
            old(self).wf(),
        ensures
            final(self).wf(),
            final(self)@ == lost(old(self)@, addr),
    {
        self.lose(addr);
    }

    /// A frame was written to every live channel. `outcomes` says for each, in
    /// the order of `connections`, when it took the frame, or that it failed
    /// to. Drops the channels that failed, and then idle outgoing ones.
    pub fn broadcast(&mut self, outcomes: &Vec<Option<Nanos>>, now: Nanos)
        requires
            old(self).wf(),
            outcomes@.len() == old(self)@.conns.len(),
        ensures
            final(self).wf(),
            final(self)@ == broadcast_over(old(self)@, outcomes@, now),
    {
        let ghost before = self@;
        let (_, mut ended) = self.registry.broadcast(outcomes);
        let mut evicted = self.registry.evict_idle(now);
        let ghost conns = self.registry@;
        ended.append(&mut evicted);
        assert(ended@ =~= broadcast_ends(before, outcomes@, now));
        self.dial.forget_all(&mut self.registry, &mut self.last_seen, &ended);
        proof {
            lemma_broadcast_inv(before, outcomes@, now);
        }
    }

    /// A peer connected. Returns an event exactly if the connection became a
    /// live channel, which is then to be read from. One channel per peer: a
    /// duplicate from a host that already has a live channel (any port) is to
    /// be closed.
    pub fn accepted(&mut self, addr: Endpoint, now: Nanos) -> (event: Option<NetworkEvent>)
        requires
            old(self).wf(),
        ensures
            final(self).wf(),
            final(self)@ == peer_accepted(old(self)@, addr, now),
            event is Some <==> !host_connected(old(self)@.conns, addr.ip),
    {
        if self.registry.contains_host(addr.ip) {
            return None;
        }
        proof {
            lemma_accepted_inv(self@, addr, now);
        }
        self.registry.insert(addr, ConnKind::Incoming, now);
        self.last_seen.insert(addr, now);
        Some(NetworkEvent::Retrain)
    }
}

/// What always holds is about the channels, the live endpoints and the times
/// alone.
proof fn lemma_inv_frame(net: NetView, after: NetView)
    requires
        net_inv(net),
        after.conns == net.conns,
        after.dial.live == net.dial.live,
        forall|a: Endpoint| #[trigger]
            net.last_seen.contains_key(a) ==> after.last_seen.contains_key(a),
    ensures
        net_inv(after),
{
    assert forall|a: Endpoint| #[trigger] after.dial.live.contains(a) <==> has_link(
        after.conns,
        a,
        ConnKind::Outgoing,
    ) by {
        assert(net.dial.live.contains(a) <==> has_link(net.conns, a, ConnKind::Outgoing));
    }
}

/// Establishing a channel keeps what always holds.
proof fn lemma_established_inv(net: NetView, addr: Endpoint, id: Seq<char>, now: Nanos)
    requires
        net_inv(net),
    ensures
        net_inv(established(net, addr, id, now)),
{
    let over = attempt_over(net, addr);
    lemma_inv_frame(net, over);
    if !connected(net.conns, addr) {
        let after = established(net, addr, id, now);
        let conn = Conn { addr, kind: ConnKind::Outgoing, last_used: now };
        lemma_registered_links(net.conns, conn);
        lemma_connected_links(net.conns, addr);
        assert forall|a: Endpoint| #[trigger] after.dial.live.contains(a) <==> has_link(
            after.conns,
            a,
            ConnKind::Outgoing,
        ) by {
            assert(net.dial.live.contains(a) <==> has_link(net.conns, a, ConnKind::Outgoing));
        }
    }
}

/// Whether `addr` stands in a list.
fn contains_endpoint(list: &Vec<Endpoint>, addr: Endpoint) -> (yes: bool)
    ensures
        yes == list@.contains(addr),
{
    match position(list, addr) {
        Some(i) => {
            assert(list@[i as int] == addr);
            true
        },
        None => false,
    }
}

/// Accepting a peer keeps what always holds.
proof fn lemma_accepted_inv(net: NetView, addr: Endpoint, now: Nanos)
    requires
        net_inv(net),
        !host_connected(net.conns, addr.ip),
    ensures
        net_inv(peer_accepted(net, addr, now)),
        !connected(net.conns, addr),
{
    let conn = Conn { addr, kind: ConnKind::Incoming, last_used: now };
    if connected(net.conns, addr) {
        let i = choose|i: int| 0 <= i < net.conns.len() && (#[trigger] net.conns[i]).addr == addr;
        assert(net.conns[i].addr.ip == addr.ip);
    }
    lemma_registered_links(net.conns, conn);
    lemma_connected_links(net.conns, addr);
    assert forall|a: Endpoint, k: ConnKind| #[trigger] has_link(net.conns, a, k) implies a.ip
        != addr.ip by {
        let i = choose|i: int|
            0 <= i < net.conns.len() && (#[trigger] net.conns[i]).addr == a && net.conns[i].kind
                == k;
        assert(net.conns[i].addr.ip == a.ip);
    }
}

/// A broadcast keeps what always holds.
proof fn lemma_broadcast_inv(net: NetView, outcomes: Seq<Option<Nanos>>, now: Nanos)
    requires
        net_inv(net),
        outcomes.len() == net.conns.len(),
    ensures
        net_inv(broadcast_over(net, outcomes, now)),
{
    let taken = delivered(net.conns, outcomes);
    let kept = not_idle(taken, now, net.idle_timeout);
    let gone = failed(net.conns, outcomes);
    let evicted = addrs(idle_conns(taken, now, net.idle_timeout));
    let ends = broadcast_ends(net, outcomes, now);
    law_broadcast_drops_exactly_the_failed(net.conns, outcomes);
    lemma_delivered_links(net.conns, outcomes);
    lemma_not_idle_links(taken, now, net.idle_timeout);
    lemma_filter_distinct(taken, |c: Conn| !idle(c, now, net.idle_timeout));
    lemma_forgotten_all(NetView { conns: kept, ..net }, ends);
    assert forall|a: Endpoint| ends.contains(a) == (gone.contains(a) || evicted.contains(a)) by {
        if gone.contains(a) {
            let i = choose|i: int| 0 <= i < gone.len() && gone[i] == a;
            assert(ends[i] == a);
        }
        if evicted.contains(a) {
            let i = choose|i: int| 0 <= i < evicted.len() && evicted[i] == a;
            assert(ends[gone.len() + i] == a);
        }
        if ends.contains(a) {
            let i = choose|i: int| 0 <= i < ends.len() && ends[i] == a;
            if i < gone.len() {
                assert(gone[i] == a);
            } else {
                assert(evicted[i - gone.len()] == a);
            }
        }
    }
}

/// What a payload that arrived on a connection asks for.
#[derive(Debug, PartialEq, Eq)]
pub enum Inbound {
    /// A ping arrived; reply with a pong.
    Ping,
    /// A pong arrived; mark the peer alive.
    Pong,
    /// Anything else is for the orchestrator.
    Forward(Vec<u8>),
}

/// What a payload that arrived on a connection asks for.
#[verifier::ext_equal]
pub enum InboundView {
    Ping,
    Pong,
    Forward(Seq<u8>),
}

impl View for Inbound {
    type V = InboundView;

    open spec fn view(&self) -> InboundView {
        match self {
            Inbound::Ping => InboundView::Ping,
            Inbound::Pong => InboundView::Pong,
            Inbound::Forward(payload) => InboundView::Forward(payload@),
        }
    }
}

/// What a payload asks for, by its kind byte.
pub open spec fn asked(payload: Seq<u8>) -> InboundView {
    if payload.len() > 0 && payload[0] == KIND_PING {
        InboundView::Ping
    } else if payload.len() > 0 && payload[0] == KIND_PONG {
        InboundView::Pong
    } else {
        InboundView::Forward(payload)
    }
}

/// What payloads ask for, one after the other.
pub open spec fn all_asked(payloads: Seq<Seq<u8>>) -> Seq<InboundView> {
    payloads.map_values(|p: Seq<u8>| asked(p))
}

/// What buffered bytes ask for, and the bytes that stay buffered: none, where a
/// frame was rejected.
pub open spec fn received(buf: Seq<u8>, max_payload: nat) -> (Seq<InboundView>, Seq<u8>) {
    let (payloads, rest) = drained(buf, max_payload);
    (
        all_asked(payloads),
        if next_payload(rest, max_payload).0 is Err {
            seq![]
        } else {
            rest
        },
    )
}

/// What inbound payloads say.
pub open spec fn inbound_view(inbound: Seq<Inbound>) -> Seq<InboundView> {
    inbound.map_values(|i: Inbound| i@)
}

/// What a payload asks for, by its kind byte.
fn ask(payload: Vec<u8>) -> (inbound: Inbound)
    ensures
        inbound@ == asked(payload@),
{
    if payload.len() > 0 && payload[0] == KIND_PING {
        Inbound::Ping
    } else if payload.len() > 0 && payload[0] == KIND_PONG {
        Inbound::Pong
    } else {
        Inbound::Forward(payload)
    }
}

/// Take in bytes that were read from one peer connection. Clipboard frames are
/// to be forwarded to the orchestrator; control frames (ping/pong) feed the
/// health check instead. On an invalid frame, drop the frame buffer and resync
/// on the next length prefix, keeping the configured payload cap.
pub fn receive(frames: &mut FrameReader, bytes: &[u8]) -> (inbound: Vec<Inbound>)
    ensures
        (inbound_view(inbound@), final(frames)@) == received(
            old(frames)@ + bytes@,
            old(frames).cap(),
        ),
        final(frames).cap() == old(frames).cap(),
{
    frames.push(bytes);
    let ghost start = frames@;
    let ghost max = frames.cap();
    let ghost mut done: Seq<Seq<u8>> = seq![];
    let mut inbound: Vec<Inbound> = Vec::new();
    assert(inbound_view(inbound@) =~= all_asked(done));
    assert(done + drained(start, max).0 =~= drained(start, max).0);
    loop
        invariant
            frames.cap() == max,
            inbound_view(inbound@) == all_asked(done),
            drained(start, max) == (done + drained(frames@, max).0, drained(frames@, max).1),
            start == old(frames)@ + bytes@,
            max == old(frames).cap(),
        decreases frames@.len(),
    {
        let ghost before = frames@;
        match frames.next_frame() {
            Ok(Some(payload)) => {
                let ghost p = payload@;
                let ghost sofar = inbound_view(inbound@);
                inbound.push(ask(payload));
                proof {
                    assert(inbound_view(inbound@) =~= sofar.push(asked(p)));
                    assert(all_asked(done.push(p)) =~= all_asked(done).push(asked(p)));
                    let tail = drained(frames@, max).0;
                    assert(done + (seq![p] + tail) =~= done.push(p) + tail);
                    done = done.push(p);
                    lemma_frame_shrinks(before, max);
                }
            },
            Ok(None) => {
                assert(done + Seq::<Seq<u8>>::empty() =~= done);
                return inbound;
            },
            Err(_) => {
                assert(done + Seq::<Seq<u8>>::empty() =~= done);
                frames.reset();
                return inbound;
            },
        }
    }
}

/// Draining a payload leaves fewer bytes buffered.
proof fn lemma_frame_shrinks(buf: Seq<u8>, max_payload: nat)
    ensures
        next_payload(buf, max_payload).0 matches Ok(Some(_)) ==> next_payload(
            buf,
            max_payload,
        ).1.len() < buf.len(),
{
    if buf.len() >= 4 {
        lemma_header_bounds(buf);
    }
}

/// Each frame that arrives whole asks for what its payload asks for, in order,
/// and leaves nothing buffered: clipboard frames are forwarded unchanged, and
/// pings and pongs are not forwarded.
pub proof fn law_frames_are_received_in_order(payloads: Seq<Seq<u8>>, max_payload: nat)
    requires
        forall|i: int|
            0 <= i < payloads.len() ==> (#[trigger] payloads[i]).len() <= max_payload
                && payloads[i].len() <= u32::MAX,
    ensures
        received(frames_bytes(payloads), max_payload) == (all_asked(payloads), Seq::<u8>::empty()),
{
    law_frames_yield_their_payloads(payloads, max_payload);
}

/// A length prefix beyond the cap is dropped with all that is buffered behind
/// it, and the frame that arrives next is received as if nothing had happened.
pub proof fn law_garbage_is_skipped(garbage: Seq<u8>, payload: Seq<u8>, max_payload: nat)
    requires
        garbage.len() >= 4,
        be32_value(garbage) > max_payload,
        payload.len() <= max_payload,
        payload.len() <= u32::MAX,
    ensures
        received(garbage, max_payload) == (Seq::<InboundView>::empty(), Seq::<u8>::empty()),
        received(Seq::<u8>::empty() + frame_bytes(payload), max_payload) == (
            seq![asked(payload)],
            Seq::<u8>::empty(),
        ),
{
    assert(drained(garbage, max_payload) == (Seq::<Seq<u8>>::empty(), garbage));
    assert(received(garbage, max_payload).0 =~= Seq::<InboundView>::empty());
    lemma_one_frame(payload, max_payload);
    assert(Seq::<u8>::empty() + frame_bytes(payload) =~= frame_bytes(payload));
}

/// One whole frame asks for what its payload asks for.
proof fn lemma_one_frame(payload: Seq<u8>, max_payload: nat)
    requires
        payload.len() <= max_payload,
        payload.len() <= u32::MAX,
    ensures
        received(frame_bytes(payload), max_payload) == (seq![asked(payload)], Seq::<u8>::empty()),
{
    let payloads = seq![payload];
    law_frames_are_received_in_order(payloads, max_payload);
    assert(payloads.drop_first() =~= Seq::<Seq<u8>>::empty());
    reveal_with_fuel(frames_bytes, 2);
    assert(frames_bytes(payloads) =~= frame_bytes(payload));
    assert(all_asked(payloads) =~= seq![asked(payload)]);
}

/// An item travels: the frame that it was encoded to is forwarded on the other
/// side, as one payload that decodes to the same item, wherever the payload cap
/// there admits its length.
pub proof fn law_announcements_arrive(
    item: ItemView,
    max_item_size: nat,
    frame: Seq<u8>,
    max_payload: nat,
)
    requires
        item.origin.len() == 8,
        encoded(item, max_item_size) == Ok::<Seq<u8>, ErrorView>(frame),
        frame.len() - 4 <= max_payload,
    ensures
        received(frame, max_payload) == (
            seq![InboundView::Forward(frame.skip(4))],
            Seq::<u8>::empty(),
        ),
        decoded(frame.skip(4)) == Ok::<MessageView, ErrorView>(MessageView::Announce(item)),
{
    law_encode_decode_roundtrip(item, max_item_size, frame);
    let payload = frame.skip(4);
    lemma_header_bounds(frame);
    law_which_items_are_encoded(item, max_item_size);
    lemma_frame_skip(announce_bytes(item));
    lemma_one_frame(payload, max_payload);
}

/// What stands behind the length prefix of a frame is its payload.
proof fn lemma_frame_skip(payload: Seq<u8>)
    ensures
        frame_bytes(payload).len() == payload.len() + 4,
        frame_bytes(payload).skip(4) == payload,
{
    broadcast use group_be_len;

    assert(frame_bytes(payload).skip(4) =~= payload);
}

/// Pings and pongs arrive as such and are not forwarded.
pub proof fn law_control_frames_arrive(max_payload: nat)
    requires
        max_payload >= 1,
    ensures
        received(control_bytes(KIND_PING), max_payload) == (
            seq![InboundView::Ping],
            Seq::<u8>::empty(),
        ),
        received(control_bytes(KIND_PONG), max_payload) == (
            seq![InboundView::Pong],
            Seq::<u8>::empty(),
        ),
{
    lemma_one_frame(seq![KIND_PING], max_payload);
    lemma_one_frame(seq![KIND_PONG], max_payload);
}

/// As long as no frame is rejected, how the bytes of a connection are cut into
/// reads makes no difference to what is received.
pub proof fn law_receiving_can_be_split(buf: Seq<u8>, more: Seq<u8>, max_payload: nat)
    requires
        next_payload(drained(buf, max_payload).1, max_payload).0 is Ok,
    ensures
        ({
            let (first, rest) = received(buf, max_payload);
            let (second, end) = received(rest + more, max_payload);
            received(buf + more, max_payload) == (first + second, end)
        }),
{
    law_reads_can_be_split(buf, more, max_payload);
    let (first, rest) = drained(buf, max_payload);
    let (second, _) = drained(rest + more, max_payload);
    assert(all_asked(first + second) =~= all_asked(first) + all_asked(second));
}

/// Which dials are due: exactly one to the endpoint in use of every peer that
/// has no live or in-flight endpoint.
pub proof fn law_due_dials(dial: DialView, peers: Seq<PeerView>, id: Seq<char>, addr: Endpoint)
    ensures
        due_dials(dial, peers).contains((id, addr)) <==> exists|i: int|
            0 <= i < peers.len() && !peer_busy(dial, #[trigger] peers[i]) && peers[i].id == id
                && used_endpoint(dial, peers[i]) == addr,
    decreases peers.len(),
{
    let dials = due_dials(dial, peers);
    if peers.len() > 0 {
        let init = peers.drop_last();
        let last = peers.last();
        let dials0 = due_dials(dial, init);
        law_due_dials(dial, init, id, addr);
        if dials.contains((id, addr)) {
            let k = choose|k: int| 0 <= k < dials.len() && dials[k] == (id, addr);
            if k < dials0.len() {
                assert(dials0[k] == (id, addr));
                let i = choose|i: int|
                    0 <= i < init.len() && !peer_busy(dial, #[trigger] init[i]) && init[i].id == id
                        && used_endpoint(dial, init[i]) == addr;
                assert(peers[i] == init[i]);
            } else {
                assert(peers[peers.len() - 1] == last);
            }
        }
        if exists|i: int|
            0 <= i < peers.len() && !peer_busy(dial, #[trigger] peers[i]) && peers[i].id == id
                && used_endpoint(dial, peers[i]) == addr {
            let i = choose|i: int|
                0 <= i < peers.len() && !peer_busy(dial, #[trigger] peers[i]) && peers[i].id == id
                    && used_endpoint(dial, peers[i]) == addr;
            if i < init.len() {
                assert(init[i] == peers[i]);
                assert(dials0.contains((id, addr)));
                let k = choose|k: int| 0 <= k < dials0.len() && dials0[k] == (id, addr);
                assert(dials[k] == (id, addr));
            } else {
                assert(dials[dials.len() - 1] == (id, addr));
            }
        }
    }
}

/// A peer set in which every peer has a live endpoint dials nothing.
pub proof fn law_connected_set_dials_nothing(dial: DialView)
    requires
        !some_peer_missing(dial),
    ensures
        dial_plan(dial) == Seq::<(Seq<char>, Endpoint)>::empty(),
{
    let plan = dial_plan(dial);
    if plan.len() > 0 {
        let (id, addr) = plan[0];
        law_due_dials(dial, dial.peers, id, addr);
        assert(plan.contains((id, addr)));
        let i = choose|i: int|
            0 <= i < dial.peers.len() && !peer_busy(dial, #[trigger] dial.peers[i])
                && dial.peers[i].id == id && used_endpoint(dial, dial.peers[i]) == addr;
        assert(!peer_live(dial, dial.peers[i]));
    }
    assert(plan =~= Seq::<(Seq<char>, Endpoint)>::empty());
}

/// Once the due dials were started, no peer is dialed again that was dialed at
/// one of its own endpoints, until its attempt is over.
pub proof fn law_no_duplicate_dials(dial: DialView, i: int)
    requires
        0 <= i < dial.peers.len(),
        endpoints(dial.peers[i]).contains(used_endpoint(dial, dial.peers[i])),
    ensures
        peer_busy(dialed(dial), dial.peers[i]),
{
    let peer = dial.peers[i];
    let addr = used_endpoint(dial, peer);
    let after = dialed(dial);
    if peer_busy(dial, peer) {
        if any_endpoint_in(dial.dialing, peer) {
            let k = choose|k: int|
                0 <= k < endpoints(peer).len() && dial.dialing.contains(
                    #[trigger] endpoints(peer)[k],
                );
            assert(after.dialing.contains(endpoints(peer)[k]));
        }
    } else {
        law_due_dials(dial, dial.peers, peer.id, addr);
        let plan = dial_plan(dial);
        let k = choose|k: int| 0 <= k < plan.len() && plan[k] == (peer.id, addr);
        assert(plan[k].1 == addr);
        assert(dial_addrs(plan).contains(addr));
        let e = choose|e: int| 0 <= e < endpoints(peer).len() && endpoints(peer)[e] == addr;
        assert(after.dialing.contains(endpoints(peer)[e]));
    }
}

/// A failed endpoint makes way for the one behind it, and only where it is the
/// one on record; the last one stays.
pub proof fn law_rotation(dial: DialView, peer: PeerView, i: int)
    requires
        peer_at(dial.peers, endpoints(peer)[i].ip) == Some(peer),
        0 <= i < endpoints(peer).len(),
        !endpoints(peer).take(i).contains(endpoints(peer)[i]),
        dial.current.contains_key(peer.id),
    ensures
        ({
            let addr = endpoints(peer)[i];
            let after = advanced(dial, addr);
            &&& dial.current[peer.id] == addr && i + 1 < endpoints(peer).len()
                ==> after.current == dial.current.insert(peer.id, endpoints(peer)[i + 1])
            &&& dial.current[peer.id] != addr || i + 1 == endpoints(peer).len() ==> after == dial
        }),
{
    lemma_first_index(endpoints(peer), endpoints(peer)[i], i);
}

/// Adopting a peer set keeps the endpoint of a peer with a live channel and
/// gives every other peer its preferred one, as long as ids tell peers apart.
pub proof fn law_adoption(dial: DialView, peers: Seq<PeerView>, i: int)
    requires
        0 <= i < peers.len(),
        forall|j: int, k: int|
            0 <= j < peers.len() && 0 <= k < peers.len() && j != k ==> (#[trigger] peers[j]).id != (
            #[trigger] peers[k]).id,
    ensures
        ({
            let after = with_peers(dial, peers);
            if peer_live(dial, peers[i]) {
                &&& after.current.contains_key(peers[i].id) == dial.current.contains_key(
                    peers[i].id,
                )
                &&& after.current.contains_key(peers[i].id) ==> after.current[peers[i].id]
                    == dial.current[peers[i].id]
            } else {
                after.current.contains_key(peers[i].id) && after.current[peers[i].id]
                    == peers[i].active
            }
        }),
{
    lemma_adopted(dial.live, dial.current, peers, i);
}

proof fn lemma_adopted(
    live: Set<Endpoint>,
    current: Map<Seq<char>, Endpoint>,
    peers: Seq<PeerView>,
    i: int,
)
    requires
        0 <= i < peers.len(),
        forall|j: int, k: int|
            0 <= j < peers.len() && 0 <= k < peers.len() && j != k ==> (#[trigger] peers[j]).id != (
            #[trigger] peers[k]).id,
    ensures
        ({
            let after = adopted(live, current, peers);
            let id = peers[i].id;
            if any_endpoint_in(live, peers[i]) {
                &&& after.contains_key(id) == current.contains_key(id)
                &&& after.contains_key(id) ==> after[id] == current[id]
            } else {
                after.contains_key(id) && after[id] == peers[i].active
            }
        }),
    decreases peers.len(),
{
    let init = peers.drop_last();
    assert forall|j: int, k: int|
        0 <= j < init.len() && 0 <= k < init.len() && j != k implies (#[trigger] init[j]).id != (
    #[trigger] init[k]).id by {
        assert(init[j] == peers[j] && init[k] == peers[k]);
    }
    if i < init.len() {
        assert(init[i] == peers[i]);
        lemma_adopted(live, current, init, i);
        assert(peers[i].id != peers[peers.len() - 1].id);
    } else {
        lemma_adopted_other(live, current, init, peers[i].id);
    }
}

proof fn lemma_adopted_other(
    live: Set<Endpoint>,
    current: Map<Seq<char>, Endpoint>,
    peers: Seq<PeerView>,
    id: Seq<char>,
)
    requires
        forall|j: int| 0 <= j < peers.len() ==> (#[trigger] peers[j]).id != id,
    ensures
        adopted(live, current, peers).contains_key(id) == current.contains_key(id),
        current.contains_key(id) ==> adopted(live, current, peers)[id] == current[id],
    decreases peers.len(),
{
    if peers.len() > 0 {
        let init = peers.drop_last();
        assert forall|j: int| 0 <= j < init.len() implies (#[trigger] init[j]).id != id by {
            assert(init[j] == peers[j]);
        }
        lemma_adopted_other(live, current, init, id);
        assert(peers[peers.len() - 1].id != id);
    }
}

/// Forgetting a channel twice is forgetting it once.
pub proof fn law_forgetting_is_idempotent(net: NetView, addr: Endpoint)
    ensures
        forgotten(forgotten(net, addr), addr) == forgotten(net, addr),
{
    law_removal(net.conns, addr, addr);
    let once = forgotten(net, addr);
    assert(forgotten(once, addr) =~= once);
}

/// One channel per peer: after pruning, every outgoing channel is the endpoint
/// in use of the peer on its host; and pruning drops no incoming channel and no
/// outgoing one that is in use.
pub proof fn law_pruning(net: NetView, addr: Endpoint)
    requires
        net_inv(net),
    ensures
        has_link(pruned(net).conns, addr, ConnKind::Outgoing) <==> has_link(
            net.conns,
            addr,
            ConnKind::Outgoing,
        ) && (peer_at(net.dial.peers, addr.ip) matches Some(peer) && used_endpoint(net.dial, peer)
            == addr),
        has_link(pruned(net).conns, addr, ConnKind::Incoming) <==> has_link(
            net.conns,
            addr,
            ConnKind::Incoming,
        ),
{
    let list = redundant_addrs(net.dial, net.conns);
    lemma_forgotten_all(net, list);
    lemma_redundant(net.dial, net.conns, addr);
    lemma_one_kind(net.conns, addr);
    if has_link(net.conns, addr, ConnKind::Incoming) && list.contains(addr) {
        let i = choose|i: int|
            0 <= i < net.conns.len() && (#[trigger] net.conns[i]).addr == addr && redundant(
                net.dial,
                net.conns.take(i),
                net.conns[i],
            );
        assert(net.conns[i].kind == ConnKind::Incoming) by {
            if net.conns[i].kind == ConnKind::Outgoing {
                assert(has_link(net.conns, addr, ConnKind::Outgoing));
            }
        }
        let before = net.conns.take(i);
        let j = choose|j: int|
            0 <= j < before.len() && (#[trigger] before[j]).kind == ConnKind::Incoming
                && before[j].addr.ip == addr.ip;
        assert(net.conns[j] == before[j]);
        assert(has_link(net.conns, net.conns[j].addr, ConnKind::Incoming));
        assert(net.conns[j].addr == addr);
        assert(net.conns[i].addr == net.conns[j].addr);
    }
    if has_link(net.conns, addr, ConnKind::Outgoing) {
        let i = choose|i: int|
            0 <= i < net.conns.len() && (#[trigger] net.conns[i]).addr == addr
                && net.conns[i].kind == ConnKind::Outgoing;
        assert(redundant(net.dial, net.conns.take(i), net.conns[i]) == !(peer_at(
            net.dial.peers,
            addr.ip,
        ) matches Some(peer) && used_endpoint(net.dial, peer) == addr));
        if list.contains(addr) {
            let k = choose|k: int|
                0 <= k < net.conns.len() && (#[trigger] net.conns[k]).addr == addr && redundant(
                    net.dial,
                    net.conns.take(k),
                    net.conns[k],
                );
            assert(net.conns[k].addr == net.conns[i].addr);
            assert(k == i);
        }
    }
}

/// Which addresses are to be dropped: those of the redundant channels.
proof fn lemma_redundant(dial: DialView, conns: Seq<Conn>, addr: Endpoint)
    ensures
        redundant_addrs(dial, conns).contains(addr) <==> exists|i: int|
            0 <= i < conns.len() && (#[trigger] conns[i]).addr == addr && redundant(
                dial,
                conns.take(i),
                conns[i],
            ),
    decreases conns.len(),
{
    let list = redundant_addrs(dial, conns);
    if conns.len() > 0 {
        let n = conns.len() - 1;
        let init = conns.drop_last();
        let list0 = redundant_addrs(dial, init);
        lemma_redundant(dial, init, addr);
        assert(conns.take(n) =~= init);
        if list.contains(addr) {
            let k = choose|k: int| 0 <= k < list.len() && list[k] == addr;
            if k < list0.len() {
                assert(list0[k] == addr);
                let i = choose|i: int|
                    0 <= i < init.len() && (#[trigger] init[i]).addr == addr && redundant(
                        dial,
                        init.take(i),
                        init[i],
                    );
                assert(conns[i] == init[i]);
                assert(init.take(i) =~= conns.take(i));
            } else {
                assert(conns[n].addr == addr);
            }
        }
        if exists|i: int|
            0 <= i < conns.len() && (#[trigger] conns[i]).addr == addr && redundant(
                dial,
                conns.take(i),
                conns[i],
            ) {
            let i = choose|i: int|
                0 <= i < conns.len() && (#[trigger] conns[i]).addr == addr && redundant(
                    dial,
                    conns.take(i),
                    conns[i],
                );
            if i < n {
                assert(init[i] == conns[i]);
                assert(init.take(i) =~= conns.take(i));
                assert(list0.contains(addr));
                let k = choose|k: int| 0 <= k < list0.len() && list0[k] == addr;
                assert(list[k] == addr);
            } else {
                assert(list[list.len() - 1] == addr);
            }
        }
    }
}

/// One channel per peer: after pruning, no two outgoing channels belong to the
/// same peer.
pub proof fn law_one_outgoing_channel_per_peer(net: NetView, a: Endpoint, b: Endpoint)
    requires
        net_inv(net),
        has_link(pruned(net).conns, a, ConnKind::Outgoing),
        has_link(pruned(net).conns, b, ConnKind::Outgoing),
        peer_at(net.dial.peers, a.ip) == peer_at(net.dial.peers, b.ip),
    ensures
        a == b,
{
    law_pruning(net, a);
    law_pruning(net, b);
}

/// A retrain neither prunes nor re-dials a working connection: an outgoing
/// channel that a peer is using stays, and the peer counts as live, also where
/// the new peer set prefers another of its endpoints.
pub proof fn law_working_channel_survives_retraining(
    net: NetView,
    peers: Seq<PeerView>,
    i: int,
    addr: Endpoint,
)
    requires
        net_inv(net),
        0 <= i < peers.len(),
        forall|j: int, k: int|
            0 <= j < peers.len() && 0 <= k < peers.len() && j != k ==> (#[trigger] peers[j]).id != (
            #[trigger] peers[k]).id,
        endpoints(peers[i]).contains(addr),
        peer_at(peers, addr.ip) == Some(peers[i]),
        has_link(net.conns, addr, ConnKind::Outgoing),
        net.dial.current.contains_key(peers[i].id),
        net.dial.current[peers[i].id] == addr,
    ensures
        has_link(repeered(net, peers).conns, addr, ConnKind::Outgoing),
        peer_live(repeered(net, peers).dial, peers[i]),
{
    let mid = NetView { dial: with_peers(net.dial, peers), ..net };
    let k = choose|k: int| 0 <= k < endpoints(peers[i]).len() && endpoints(peers[i])[k] == addr;
    assert(net.dial.live.contains(endpoints(peers[i])[k]));
    law_adoption(net.dial, peers, i);
    lemma_inv_frame(net, mid);
    law_pruning(mid, addr);
    lemma_forgotten_all_inv(mid, redundant_addrs(mid.dial, mid.conns));
    assert(repeered(net, peers).dial.live.contains(endpoints(peers[i])[k]));
}

/// A health check drops exactly the channels that were not alive recently enough
/// or could not be pinged; it changes nothing else about the channels.
pub proof fn law_health_check(net: NetView, now: Nanos, unwritten: Seq<Endpoint>, addr: Endpoint)
    requires
        net_inv(net),
    ensures
        connected(health_checked(net, now, unwritten).conns, addr) <==> connected(net.conns, addr)
            && alive(net, addr, now) && !unwritten.contains(addr),
{
    let list = dead(net, now, unwritten);
    let gone = |a: Endpoint| !alive(net, a, now) || unwritten.contains(a);
    let all = addrs(net.conns);
    lemma_filter_members(all, gone);
    assert(list == all.filter(gone));
    lemma_lost_all(net, list);
    lemma_connected_links(net.conns, addr);
    lemma_connected_links(health_checked(net, now, unwritten).conns, addr);
    assert(list.contains(addr) <==> connected(net.conns, addr) && gone(addr)) by {
        if list.contains(addr) {
            let k = choose|k: int| 0 <= k < list.len() && list[k] == addr;
            assert(all.contains(addr));
            let i = choose|i: int| 0 <= i < all.len() && all[i] == addr;
            assert(net.conns[i].addr == addr);
        }
        if connected(net.conns, addr) && gone(addr) {
            let i = choose|i: int| 0 <= i < net.conns.len() && (#[trigger] net.conns[i]).addr == addr;
            assert(all[i] == addr);
            assert(list.contains(all[i]));
        }
    }
    if list.len() == 0 {
        assert(!list.contains(addr));
    }
}

/// Losing channels leaves the others.
proof fn lemma_lost_all(net: NetView, list: Seq<Endpoint>)
    ensures
        lost_all(net, list).conns == forgotten_all(net, list).conns,
        lost_all(net, list).last_seen == forgotten_all(net, list).last_seen,
        lost_all(net, list).idle_timeout == net.idle_timeout,
        lost_all(net, list).dial.peers == net.dial.peers,
        lost_all(net, list).dial.live == forgotten_all(net, list).dial.live,
        lost_all(net, list).dial.dialing == net.dial.dialing,
        forall|a: Endpoint, k: ConnKind| #[trigger]
            has_link(lost_all(net, list).conns, a, k) <==> has_link(net.conns, a, k)
                && !list.contains(a),
    decreases list.len(),
{
    if list.len() > 0 {
        lemma_lost_all(net, list.drop_last());
    }
    lemma_forgotten_all(net, list);
}

/// After a broadcast there are exactly the channels that took it and are not
/// idle, each used when it took the frame.
pub proof fn law_broadcast(net: NetView, outcomes: Seq<Option<Nanos>>, now: Nanos)
    requires
        net_inv(net),
        outcomes.len() == net.conns.len(),
    ensures
        broadcast_over(net, outcomes, now).conns == not_idle(
            delivered(net.conns, outcomes),
            now,
            net.idle_timeout,
        ),
{
    let taken = delivered(net.conns, outcomes);
    let kept = not_idle(taken, now, net.idle_timeout);
    let gone = failed(net.conns, outcomes);
    let evicted = addrs(idle_conns(taken, now, net.idle_timeout));
    let ends = broadcast_ends(net, outcomes, now);
    law_broadcast_drops_exactly_the_failed(net.conns, outcomes);
    lemma_delivered_links(net.conns, outcomes);
    lemma_not_idle_links(taken, now, net.idle_timeout);
    assert forall|k: int| 0 <= k < ends.len() implies !connected(kept, #[trigger] ends[k]) by {
        let a = ends[k];
        lemma_connected_links(kept, a);
        if k < gone.len() {
            assert(gone.contains(gone[k]));
        } else {
            assert(evicted.contains(evicted[k - gone.len()]));
        }
    }
    lemma_forget_absent(NetView { conns: kept, ..net }, ends);
}

/// Forgetting addresses without a channel leaves the channels as they are.
proof fn lemma_forget_absent(net: NetView, list: Seq<Endpoint>)
    requires
        forall|k: int| 0 <= k < list.len() ==> !connected(net.conns, #[trigger] list[k]),
    ensures
        forgotten_all(net, list).conns == net.conns,
    decreases list.len(),
{
    if list.len() > 0 {
        let init = list.drop_last();
        assert forall|k: int| 0 <= k < init.len() implies !connected(
            net.conns,
            #[trigger] init[k],
        ) by {
            assert(init[k] == list[k]);
        }
        lemma_forget_absent(net, init);
        let last = list[list.len() - 1];
        assert(!connected(net.conns, last));
        assert forall|i: int| 0 <= i < net.conns.len() implies (#[trigger] net.conns[i]).addr
            != last by {
            if net.conns[i].addr == last {
                assert(connected(net.conns, last));
            }
        }
        lemma_filter_all(net.conns, |c: Conn| c.addr != last);
    }
}

/// A second channel from a host that has one already is refused, and nothing
/// changes.
pub proof fn law_one_channel_per_host(net: NetView, addr: Endpoint, now: Nanos)
    requires
        host_connected(net.conns, addr.ip),
    ensures
        peer_accepted(net, addr, now) == net,
{
}

/// A new channel is alive until the health timeout has passed.
pub proof fn law_new_channels_are_alive(
    net: NetView,
    addr: Endpoint,
    id: Seq<char>,
    start: Nanos,
    now: Nanos,
)
    requires
        now - start <= HEALTH_TIMEOUT,
    ensures
        !connected(net.conns, addr) ==> alive(established(net, addr, id, start), addr, now),
        !host_connected(net.conns, addr.ip) ==> alive(peer_accepted(net, addr, start), addr, now),
        alive(ponged(net, addr, start), addr, now),
{
}

/// Which channels a health check pings: exactly those, outgoing or incoming,
/// that gave a sign of life within the last three seconds.
pub proof fn law_probes(net: NetView, now: Nanos, addr: Endpoint)
    ensures
        probed(net, now).contains(addr) <==> (exists|i: int|
            0 <= i < net.conns.len() && (#[trigger] net.conns[i]).addr == addr)
            && net.last_seen.contains_key(addr) && now - net.last_seen[addr] <= 3_000_000_000,
{
    let keep = |a: Endpoint| alive(net, a, now);
    let all = addrs(net.conns);
    lemma_filter_members(all, keep);
    if probed(net, now).contains(addr) {
        assert(all.contains(addr));
        let i = choose|i: int| 0 <= i < all.len() && all[i] == addr;
        assert(net.conns[i].addr == addr);
    }
    if exists|i: int| 0 <= i < net.conns.len() && (#[trigger] net.conns[i]).addr == addr {
        let i = choose|i: int| 0 <= i < net.conns.len() && (#[trigger] net.conns[i]).addr == addr;
        assert(all[i] == addr);
    }
}

/// Every channel is pinged or given up on its own account, once, in the order of
/// the channels: it is pinged if it gave a sign of life within the last three
/// seconds, and given up if it did not or if its ping could not be written.
pub proof fn law_each_channel_is_checked(
    net: NetView,
    conn: Conn,
    now: Nanos,
    unwritten: Seq<Endpoint>,
)
    ensures
        ({
            let more = NetView { conns: net.conns.push(conn), ..net };
            let fresh = net.last_seen.contains_key(conn.addr) && now - net.last_seen[conn.addr]
                <= 3_000_000_000;
            &&& probed(more, now) == if fresh {
                probed(net, now).push(conn.addr)
            } else {
                probed(net, now)
            }
            &&& dead(more, now, unwritten) == if !fresh || unwritten.contains(conn.addr) {
                dead(net, now, unwritten).push(conn.addr)
            } else {
                dead(net, now, unwritten)
            }
        }),
        net.conns.len() == 0 ==> probed(net, now) == Seq::<Endpoint>::empty(),
        net.conns.len() == 0 ==> dead(net, now, unwritten) == Seq::<Endpoint>::empty(),
{
    let more = NetView { conns: net.conns.push(conn), ..net };
    let keep = |a: Endpoint| alive(net, a, now);
    let keep_more = |a: Endpoint| alive(more, a, now);
    let gone = |a: Endpoint| !alive(net, a, now) || unwritten.contains(a);
    let gone_more = |a: Endpoint| !alive(more, a, now) || unwritten.contains(a);
    assert(keep =~= keep_more);
    assert(gone =~= gone_more);
    assert(addrs(more.conns) =~= addrs(net.conns).push(conn.addr));
    assert(addrs(net.conns).push(conn.addr).drop_last() =~= addrs(net.conns));
    reveal(Seq::filter);
}

/// A channel of either kind is pinged for three seconds after it came up, and
/// for three seconds after every pong.
pub proof fn law_channels_are_probed_after_signs_of_life(
    net: NetView,
    addr: Endpoint,
    id: Seq<char>,
    start: Nanos,
    now: Nanos,
)
    requires
        now - start <= 3_000_000_000,
    ensures
        (forall|i: int| 0 <= i < net.conns.len() ==> (#[trigger] net.conns[i]).addr != addr)
            ==> probed(established(net, addr, id, start), now).contains(addr),
        (forall|i: int| 0 <= i < net.conns.len() ==> (#[trigger] net.conns[i]).addr.ip != addr.ip)
            ==> probed(peer_accepted(net, addr, start), now).contains(addr),
        (exists|i: int| 0 <= i < net.conns.len() && (#[trigger] net.conns[i]).addr == addr)
            ==> probed(ponged(net, addr, start), now).contains(addr),
{
    let n = net.conns.len() as int;
    if forall|i: int| 0 <= i < net.conns.len() ==> (#[trigger] net.conns[i]).addr != addr {
        let after = established(net, addr, id, start);
        law_probes(after, now, addr);
        assert(after.conns[n].addr == addr);
    }
    if forall|i: int| 0 <= i < net.conns.len() ==> (#[trigger] net.conns[i]).addr.ip != addr.ip {
        let after = peer_accepted(net, addr, start);
        law_probes(after, now, addr);
        assert(!connected(net.conns, addr));
        assert(after.conns[n].addr == addr);
    }
    law_probes(ponged(net, addr, start), now, addr);
}

/// A channel that gave no sign of life for more than three seconds is neither
/// pinged nor kept by a health check, whatever could be written.
pub proof fn law_silent_channels_are_given_up(
    net: NetView,
    now: Nanos,
    unwritten: Seq<Endpoint>,
    i: int,
)
    requires
        net_inv(net),
        0 <= i < net.conns.len(),
        now - net.last_seen[net.conns[i].addr] > 3_000_000_000 || unwritten.contains(
            net.conns[i].addr,
        ),
    ensures
        ({
            let addr = net.conns[i].addr;
            let after = health_checked(net, now, unwritten);
            &&& now - net.last_seen[addr] > 3_000_000_000 ==> !probed(net, now).contains(addr)
            &&& dead(net, now, unwritten).len() > 0
            &&& forall|k: int| 0 <= k < after.conns.len() ==> (#[trigger] after.conns[k]).addr
                != addr
            &&& !after.last_seen.contains_key(addr)
            &&& !after.dial.live.contains(addr)
        }),
{
    let addr = net.conns[i].addr;
    let list = dead(net, now, unwritten);
    let after = health_checked(net, now, unwritten);
    lemma_dead_members(net, now, unwritten);
    assert(net.conns[i].addr == addr);
    assert(has_link(net.conns, addr, net.conns[i].kind));
    law_probes(net, now, addr);
    law_health_check(net, now, unwritten, addr);
    assert(list.contains(addr));
    lemma_lost_all(net, list);
    lemma_forgotten_all(net, list);
    assert forall|k: int| 0 <= k < after.conns.len() implies (#[trigger] after.conns[k]).addr
        != addr by {
        if after.conns[k].addr == addr {
            assert(connected(after.conns, addr));
        }
    }
}

/// Which channels a health check gives up.
proof fn lemma_dead_members(net: NetView, now: Nanos, unwritten: Seq<Endpoint>)
    ensures
        forall|a: Endpoint| #[trigger]
            dead(net, now, unwritten).contains(a) <==> connected(net.conns, a) && (!(
            net.last_seen.contains_key(a) && now - net.last_seen[a] <= 3_000_000_000)
                || unwritten.contains(a)),
{
    let list = dead(net, now, unwritten);
    let gone = |a: Endpoint| !alive(net, a, now) || unwritten.contains(a);
    let all = addrs(net.conns);
    lemma_filter_members(all, gone);
    assert forall|a: Endpoint| #[trigger]
        list.contains(a) <==> connected(net.conns, a) && (!(net.last_seen.contains_key(a) && now
            - net.last_seen[a] <= 3_000_000_000) || unwritten.contains(a)) by {
        assert(list == all.filter(gone));
        assert(list.contains(a) <==> all.contains(a) && gone(a));
        if all.contains(a) {
            let i = choose|i: int| 0 <= i < all.len() && all[i] == a;
            assert(net.conns[i].addr == a);
        }
        if connected(net.conns, a) {
            let i = choose|i: int| 0 <= i < net.conns.len() && (#[trigger] net.conns[i]).addr == a;
            assert(all[i] == a);
        }
    }
}

/// A health check that finds every channel alive changes nothing and dials
/// nothing.
pub proof fn law_healthy_channels_are_left_alone(
    net: NetView,
    now: Nanos,
    unwritten: Seq<Endpoint>,
)
    requires
        forall|i: int|
            0 <= i < net.conns.len() ==> net.last_seen.contains_key(
                (#[trigger] net.conns[i]).addr,
            ) && now - net.last_seen[net.conns[i].addr] <= 3_000_000_000 && !unwritten.contains(
                net.conns[i].addr,
            ),
    ensures
        dead(net, now, unwritten) == Seq::<Endpoint>::empty(),
        health_checked(net, now, unwritten) == net,
        health_dials(net, now, unwritten) == Seq::<(Seq<char>, Endpoint)>::empty(),
{
    let list = dead(net, now, unwritten);
    lemma_dead_members(net, now, unwritten);
    if list.len() > 0 {
        assert(list.contains(list[0]));
        let i = choose|i: int|
            0 <= i < net.conns.len() && (#[trigger] net.conns[i]).addr == list[0];
        assert(!unwritten.contains(net.conns[i].addr));
    }
    assert(list =~= Seq::<Endpoint>::empty());
}

/// The endpoints of a peer are the preferred one and then the fallbacks.
pub proof fn law_endpoints_of_a_peer(peer: PeerView, ip: Ip)
    ensures
        endpoints(peer).len() == 1 + peer.fallbacks.len(),
        endpoints(peer)[0] == peer.active,
        forall|i: int|
            0 <= i < peer.fallbacks.len() ==> endpoints(peer)[i + 1] == #[trigger] peer.fallbacks[i],
        has_ip(peer, ip) <==> on_host(peer, ip),
{
    let all = endpoints(peer);
    if has_ip(peer, ip) {
        let i = choose|i: int| 0 <= i < all.len() && (#[trigger] all[i]).ip == ip;
        if i > 0 {
            assert(peer.fallbacks[i - 1] == all[i]);
        }
    }
    if on_host(peer, ip) {
        if peer.active.ip == ip {
            assert(all[0].ip == ip);
        } else {
            let i = choose|i: int|
                0 <= i < peer.fallbacks.len() && (#[trigger] peer.fallbacks[i]).ip == ip;
            assert(all[i + 1].ip == ip);
        }
    }
}

/// Whether the preferred endpoint of a peer or one of its fallbacks is on the
/// host `ip`.
pub open spec fn on_host(peer: PeerView, ip: Ip) -> bool {
    ||| peer.active.ip == ip
    ||| exists|i: int| 0 <= i < peer.fallbacks.len() && (#[trigger] peer.fallbacks[i]).ip == ip
}

/// Whether the preferred endpoint of a peer or one of its fallbacks is in `set`.
pub open spec fn reached_in(set: Set<Endpoint>, peer: PeerView) -> bool {
    ||| set.contains(peer.active)
    ||| exists|i: int|
        0 <= i < peer.fallbacks.len() && set.contains(#[trigger] peer.fallbacks[i])
}

/// A peer counts as live by any of its endpoints.
pub proof fn law_live_peers(dial: DialView, peer: PeerView)
    ensures
        peer_live(dial, peer) <==> reached_in(dial.live, peer),
        peer_busy(dial, peer) <==> reached_in(dial.live, peer) || reached_in(dial.dialing, peer),
{
    lemma_reached(dial.live, peer);
    lemma_reached(dial.dialing, peer);
}

proof fn lemma_reached(set: Set<Endpoint>, peer: PeerView)
    ensures
        any_endpoint_in(set, peer) <==> reached_in(set, peer),
{
    let all = endpoints(peer);
    if any_endpoint_in(set, peer) {
        let i = choose|i: int| 0 <= i < all.len() && set.contains(#[trigger] all[i]);
        if i > 0 {
            assert(peer.fallbacks[i - 1] == all[i]);
        }
    }
    if reached_in(set, peer) {
        if set.contains(peer.active) {
            assert(set.contains(all[0]));
        } else {
            let i = choose|i: int|
                0 <= i < peer.fallbacks.len() && set.contains(#[trigger] peer.fallbacks[i]);
            assert(set.contains(all[i + 1]));
        }
    }
}

/// The endpoint behind the first occurrence of an address follows it; there is
/// none behind the last endpoint and none behind an address of someone else.
pub proof fn law_next_endpoint(peer: PeerView, addr: Endpoint, i: int)
    requires
        peer.active != addr,
        0 <= i < peer.fallbacks.len(),
        peer.fallbacks[i] == addr,
        forall|j: int| 0 <= j < i ==> #[trigger] peer.fallbacks[j] != addr,
    ensures
        i + 1 < peer.fallbacks.len() ==> endpoint_after(peer, addr) == Some(peer.fallbacks[i + 1]),
        i + 1 == peer.fallbacks.len() ==> endpoint_after(peer, addr) is None,
{
    let all = endpoints(peer);
    let front = all.take(i + 1);
    assert forall|j: int| 0 <= j < front.len() implies front[j] != addr by {
        if j > 0 {
            assert(peer.fallbacks[j - 1] == front[j]);
        }
    }
    assert(all[i + 1] == addr);
    lemma_first_index(all, addr, i + 1);
    assert(i + 1 < peer.fallbacks.len() ==> all[i + 2] == peer.fallbacks[i + 1]);
}

/// Behind the preferred endpoint stands the first fallback, and an address that
/// is no endpoint of the peer has no successor.
pub proof fn law_first_fallback(peer: PeerView, addr: Endpoint)
    ensures
        peer.fallbacks.len() > 0 ==> endpoint_after(peer, peer.active) == Some(peer.fallbacks[0]),
        peer.fallbacks.len() == 0 ==> endpoint_after(peer, peer.active) is None,
        addr != peer.active && !peer.fallbacks.contains(addr) ==> endpoint_after(peer, addr) is None,
{
    let all = endpoints(peer);
    lemma_first_index(all, peer.active, 0);
    assert(peer.fallbacks.len() > 0 ==> all[1] == peer.fallbacks[0]);
    if addr != peer.active && !peer.fallbacks.contains(addr) {
        assert forall|j: int| 0 <= j < all.len() implies all[j] != addr by {
            if j > 0 {
                assert(peer.fallbacks[j - 1] == all[j]);
                assert(peer.fallbacks.contains(peer.fallbacks[j - 1]));
            }
        }
        lemma_no_first_index(all, addr);
    }
}

/// The peer on a host is the first in the set with an endpoint there, and there
/// is none where no peer has one.
pub proof fn law_peer_on_a_host(peers: Seq<PeerView>, ip: Ip, p: int)
    ensures
        0 <= p < peers.len() && on_host(peers[p], ip) && (forall|j: int|
            0 <= j < p ==> !on_host(#[trigger] peers[j], ip)) ==> peer_at(peers, ip) == Some(
            peers[p],
        ),
        (forall|j: int| 0 <= j < peers.len() ==> !on_host(#[trigger] peers[j], ip)) ==> peer_at(
            peers,
            ip,
        ) is None,
    decreases peers.len(),
{
    if peers.len() > 0 {
        let tail = peers.drop_first();
        law_endpoints_of_a_peer(peers[0], ip);
        law_peer_on_a_host(tail, ip, p - 1);
        if 0 < p < peers.len() && on_host(peers[p], ip) && (forall|j: int|
            0 <= j < p ==> !on_host(#[trigger] peers[j], ip)) {
            assert(!on_host(peers[0], ip));
            assert(tail[p - 1] == peers[p]);
            assert forall|j: int| 0 <= j < p - 1 implies !on_host(#[trigger] tail[j], ip) by {
                assert(tail[j] == peers[j + 1]);
            }
        }
        if forall|j: int| 0 <= j < peers.len() ==> !on_host(#[trigger] peers[j], ip) {
            assert(!on_host(peers[0], ip));
            assert forall|j: int| 0 <= j < tail.len() implies !on_host(#[trigger] tail[j], ip) by {
                assert(tail[j] == peers[j + 1]);
            }
        }
    }
}

/// A failure rotates only the peer on the host of the failed address, which is
/// the first in the set with an endpoint there, and only if it was using that
/// address and has an endpoint behind it. Apart from that nothing changes.
pub proof fn law_who_rotates(dial: DialView, addr: Endpoint, p: int)
    requires
        0 <= p < dial.peers.len(),
        on_host(dial.peers[p], addr.ip),
        forall|j: int| 0 <= j < p ==> !on_host(#[trigger] dial.peers[j], addr.ip),
    ensures
        ({
            let peer = dial.peers[p];
            let after = advanced(dial, addr);
            let used = dial.current.contains_key(peer.id) && dial.current[peer.id] == addr;
            &&& after.peers == dial.peers
            &&& after.live == dial.live
            &&& after.dialing == dial.dialing
            &&& used && endpoint_after(peer, addr) is Some ==> after.current == dial.current.insert(
                peer.id,
                endpoint_after(peer, addr)->0,
            )
            &&& !used || endpoint_after(peer, addr) is None ==> after.current == dial.current
        }),
{
    law_peer_on_a_host(dial.peers, addr.ip, p);
}

/// A failure at a host of no peer changes nothing.
pub proof fn law_strangers_rotate_nobody(dial: DialView, addr: Endpoint)
    requires
        forall|j: int| 0 <= j < dial.peers.len() ==> !on_host(#[trigger] dial.peers[j], addr.ip),
    ensures
        advanced(dial, addr) == dial,
{
    law_peer_on_a_host(dial.peers, addr.ip, 0);
}

/// Each peer is dialed on its own account, in the order of the set: it is dialed
/// unless one of its endpoints is live or being dialed, at the address on record
/// for it, else at its preferred one.
pub proof fn law_each_peer_is_dialed(dial: DialView, peer: PeerView)
    ensures
        ({
            let more = DialView { peers: dial.peers.push(peer), ..dial };
            let addr = if dial.current.contains_key(peer.id) {
                dial.current[peer.id]
            } else {
                peer.active
            };
            let idle = !reached_in(dial.live, peer) && !reached_in(dial.dialing, peer);
            &&& idle ==> dial_plan(more) == dial_plan(dial).push((peer.id, addr))
            &&& !idle ==> dial_plan(more) == dial_plan(dial)
        }),
        dial.peers.len() == 0 ==> dial_plan(dial) == Seq::<(Seq<char>, Endpoint)>::empty(),
{
    let more = DialView { peers: dial.peers.push(peer), ..dial };
    assert(more.peers.drop_last() =~= dial.peers);
    lemma_due_dials_frame(dial, more, dial.peers);
    law_live_peers(more, peer);
}

/// Which dials are due for given peers is a matter of the endpoints alone.
proof fn lemma_due_dials_frame(dial: DialView, other: DialView, peers: Seq<PeerView>)
    requires
        dial.current == other.current,
        dial.live == other.live,
        dial.dialing == other.dialing,
    ensures
        due_dials(dial, peers) == due_dials(other, peers),
    decreases peers.len(),
{
    if peers.len() > 0 {
        lemma_due_dials_frame(dial, other, peers.drop_last());
    }
}

/// Starting dials marks exactly their addresses as being dialed, and changes
/// nothing else.
pub proof fn law_started_dials_are_in_flight(net: NetView, addr: Endpoint)
    ensures
        ({
            let plan = dial_plan(net.dial);
            let after = net_dialed(net);
            &&& after.dial.dialing.contains(addr) <==> net.dial.dialing.contains(addr) || exists|
                k: int,
            |
                0 <= k < plan.len() && (#[trigger] plan[k]).1 == addr
            &&& after.dial.peers == net.dial.peers
            &&& after.dial.current == net.dial.current
            &&& after.dial.live == net.dial.live
            &&& after.conns == net.conns
            &&& after.last_seen == net.last_seen
            &&& after.idle_timeout == net.idle_timeout
        }),
{
}

/// A peer is missing exactly if none of its endpoints is live; one that is only
/// being dialed is still missing.
pub proof fn law_missing_peers(dial: DialView, peer: PeerView)
    ensures
        ({
            let more = DialView { peers: dial.peers.push(peer), ..dial };
            some_peer_missing(more) <==> some_peer_missing(dial) || !reached_in(dial.live, peer)
        }),
        dial.peers.len() == 0 ==> !some_peer_missing(dial),
{
    let more = DialView { peers: dial.peers.push(peer), ..dial };
    let n = dial.peers.len() as int;
    law_live_peers(more, peer);
    assert(more.peers[n] == peer);
    if some_peer_missing(dial) {
        let i = choose|i: int|
            0 <= i < dial.peers.len() && !peer_live(dial, #[trigger] dial.peers[i]);
        assert(more.peers[i] == dial.peers[i]);
        assert(!peer_live(more, more.peers[i]));
    }
    if some_peer_missing(more) && reached_in(dial.live, peer) {
        let i = choose|i: int|
            0 <= i < more.peers.len() && !peer_live(more, #[trigger] more.peers[i]);
        assert(more.peers[i] == dial.peers[i]);
        assert(!peer_live(dial, dial.peers[i]));
    }
}

/// Each peer of an adopted set prefers its active endpoint again unless it has a
/// live one; live endpoints and running dials stay.
pub proof fn law_each_peer_is_adopted(dial: DialView, peers: Seq<PeerView>, peer: PeerView)
    ensures
        with_peers(dial, peers.push(peer)).current == if reached_in(dial.live, peer) {
            with_peers(dial, peers).current
        } else {
            with_peers(dial, peers).current.insert(peer.id, peer.active)
        },
        with_peers(dial, Seq::<PeerView>::empty()).current == dial.current,
        with_peers(dial, peers).peers == peers,
        with_peers(dial, peers).live == dial.live,
        with_peers(dial, peers).dialing == dial.dialing,
{
    lemma_reached(dial.live, peer);
    assert(peers.push(peer).drop_last() =~= peers);
}

/// At startup there is no channel and no dial, and every peer is to be dialed at
/// its preferred endpoint: the last one, where an id occurs twice.
pub proof fn law_startup(peers: Seq<PeerView>, peer: PeerView, idle_timeout: Nanos)
    ensures
        ({
            let net = started(peers, idle_timeout);
            let more = started(peers.push(peer), idle_timeout);
            &&& net.conns.len() == 0
            &&& net.last_seen == Map::<Endpoint, Nanos>::empty()
            &&& net.idle_timeout == idle_timeout
            &&& net.dial.peers == peers
            &&& net.dial.live == Set::<Endpoint>::empty()
            &&& net.dial.dialing == Set::<Endpoint>::empty()
            &&& more.dial.current == net.dial.current.insert(peer.id, peer.active)
        }),
        started(Seq::empty(), idle_timeout).dial.current == Map::<Seq<char>, Endpoint>::empty(),
{
    lemma_reached(Set::empty(), peer);
    assert(peers.push(peer).drop_last() =~= peers);
}

/// A forgotten channel is gone from the channels, from the live endpoints and
/// from the times, and everything else stays.
pub proof fn law_what_forgetting_does(net: NetView, addr: Endpoint, conn: Conn, other: Endpoint)
    ensures
        ({
            let after = forgotten(net, addr);
            &&& after.conns.contains(conn) <==> net.conns.contains(conn) && conn.addr != addr
            &&& after.dial.live.contains(other) <==> net.dial.live.contains(other) && other != addr
            &&& after.last_seen.contains_key(other) <==> net.last_seen.contains_key(other) && other
                != addr
            &&& after.last_seen.contains_key(other) ==> after.last_seen[other]
                == net.last_seen[other]
            &&& after.idle_timeout == net.idle_timeout
            &&& after.dial.peers == net.dial.peers
            &&& after.dial.current == net.dial.current
            &&& after.dial.dialing == net.dial.dialing
        }),
{
    lemma_filter_members(net.conns, |c: Conn| c.addr != addr);
}

/// A lost channel is forgotten, and its peer rotates as after any failure at
/// that address.
pub proof fn law_what_losing_does(net: NetView, addr: Endpoint)
    ensures
        lost(net, addr).conns == forgotten(net, addr).conns,
        lost(net, addr).last_seen == forgotten(net, addr).last_seen,
        lost(net, addr).idle_timeout == net.idle_timeout,
        lost(net, addr).dial.live == forgotten(net, addr).dial.live,
        lost(net, addr).dial.dialing == net.dial.dialing,
        lost(net, addr).dial.peers == net.dial.peers,
        lost(net, addr).dial.current == advanced(net.dial, addr).current,
{
}

/// A connect attempt that fails is no longer in flight, and its peer rotates;
/// channels stay.
pub proof fn law_what_a_failed_attempt_does(net: NetView, addr: Endpoint, other: Endpoint)
    ensures
        ({
            let after = attempt_failed(net, addr);
            &&& after.dial.dialing.contains(other) <==> net.dial.dialing.contains(other) && other
                != addr
            &&& after.dial.current == advanced(net.dial, addr).current
            &&& after.dial.peers == net.dial.peers
            &&& after.dial.live == net.dial.live
            &&& after.conns == net.conns
            &&& after.last_seen == net.last_seen
            &&& after.idle_timeout == net.idle_timeout
        }),
{
}

/// A connect attempt that succeeds is no longer in flight. Unless there is a
/// channel to the address already, it adds an outgoing one, used and seen now,
/// which is live and on record for the peer.
pub proof fn law_what_a_successful_attempt_does(
    net: NetView,
    addr: Endpoint,
    id: Seq<char>,
    now: Nanos,
    other: Endpoint,
)
    ensures
        ({
            let after = established(net, addr, id, now);
            let twice = exists|i: int|
                0 <= i < net.conns.len() && (#[trigger] net.conns[i]).addr == addr;
            &&& after.dial.dialing.contains(other) <==> net.dial.dialing.contains(other) && other
                != addr
            &&& after.dial.peers == net.dial.peers
            &&& after.idle_timeout == net.idle_timeout
            &&& twice ==> after.conns == net.conns && after.last_seen == net.last_seen
                && after.dial.live == net.dial.live && after.dial.current == net.dial.current
            &&& !twice ==> after.conns == net.conns.push(
                Conn { addr, kind: ConnKind::Outgoing, last_used: now },
            ) && after.last_seen == net.last_seen.insert(addr, now) && after.dial.live
                == net.dial.live.insert(addr) && after.dial.current == net.dial.current.insert(
                id,
                addr,
            )
        }),
{
}

/// A peer that connects adds an incoming channel, used and seen now, unless some
/// channel to its host is there already, of whatever kind and port. Dialing is
/// not affected.
pub proof fn law_what_accepting_does(net: NetView, addr: Endpoint, now: Nanos)
    ensures
        ({
            let after = peer_accepted(net, addr, now);
            let known = exists|i: int|
                0 <= i < net.conns.len() && (#[trigger] net.conns[i]).addr.ip == addr.ip;
            &&& after.dial == net.dial
            &&& after.idle_timeout == net.idle_timeout
            &&& known ==> after.conns == net.conns && after.last_seen == net.last_seen
            &&& !known ==> after.conns == net.conns.push(
                Conn { addr, kind: ConnKind::Incoming, last_used: now },
            ) && after.last_seen == net.last_seen.insert(addr, now)
        }),
{
    if connected(net.conns, addr) {
        let i = choose|i: int| 0 <= i < net.conns.len() && (#[trigger] net.conns[i]).addr == addr;
        assert(net.conns[i].addr.ip == addr.ip);
    }
}

/// A pong is a sign of life of the channel that it came on, and nothing else.
pub proof fn law_what_a_pong_does(net: NetView, addr: Endpoint, now: Nanos)
    ensures
        ponged(net, addr, now).last_seen == net.last_seen.insert(addr, now),
        ponged(net, addr, now).conns == net.conns,
        ponged(net, addr, now).dial == net.dial,
        ponged(net, addr, now).idle_timeout == net.idle_timeout,
{
}

/// Forgetting a list of channels leaves exactly the channels, times and live
/// endpoints of other addresses, as they were.
proof fn lemma_forgotten_all_exact(net: NetView, list: Seq<Endpoint>)
    ensures
        forall|c: Conn| #[trigger]
            forgotten_all(net, list).conns.contains(c) <==> net.conns.contains(c) && !list.contains(
                c.addr,
            ),
        forall|a: Endpoint| #[trigger]
            forgotten_all(net, list).last_seen.contains_key(a) ==> forgotten_all(
                net,
                list,
            ).last_seen[a] == net.last_seen[a],
    decreases list.len(),
{
    lemma_forgotten_all(net, list);
    if list.len() > 0 {
        let init = list.drop_last();
        let last = list.last();
        let mid = forgotten_all(net, init);
        lemma_forgotten_all_exact(net, init);
        lemma_filter_members(mid.conns, |c: Conn| c.addr != last);
        assert forall|a: Endpoint| list.contains(a) == (init.contains(a) || a == last) by {
            if init.contains(a) {
                let i = choose|i: int| 0 <= i < init.len() && init[i] == a;
                assert(list[i] == a);
            }
            if list.contains(a) {
                let i = choose|i: int| 0 <= i < list.len() && list[i] == a;
                if i < init.len() {
                    assert(init[i] == a);
                }
            }
            assert(list[list.len() - 1] == last);
        }
    }
}

/// What a health check that finds a dead channel leaves: the live channels as
/// they were, with their times, and every peer without a live endpoint in
/// flight or dialed now.
pub proof fn law_health_check_reconnects(
    net: NetView,
    now: Nanos,
    unwritten: Seq<Endpoint>,
    conn: Conn,
    i: int,
)
    requires
        net_inv(net),
        dead(net, now, unwritten).len() > 0,
        0 <= i < net.dial.peers.len(),
    ensures
        ({
            let after = health_checked(net, now, unwritten);
            let dials = health_dials(net, now, unwritten);
            let peer = net.dial.peers[i];
            let kept = now - net.last_seen[conn.addr] <= 3_000_000_000 && !unwritten.contains(
                conn.addr,
            );
            &&& after.conns.contains(conn) <==> net.conns.contains(conn) && kept
            &&& after.conns.contains(conn) ==> after.last_seen.contains_key(conn.addr)
                && after.last_seen[conn.addr] == net.last_seen[conn.addr]
            &&& after.dial.peers == net.dial.peers
            &&& after.idle_timeout == net.idle_timeout
            &&& (exists|k: int| 0 <= k < dials.len() && (#[trigger] dials[k]).0 == peer.id)
                || reached_in(after.dial.live, peer) || reached_in(net.dial.dialing, peer)
            &&& forall|k: int|
                0 <= k < dials.len() ==> after.dial.dialing.contains((#[trigger] dials[k]).1)
        }),
{
    let list = dead(net, now, unwritten);
    let mid = lost_all(net, list);
    let after = health_checked(net, now, unwritten);
    let dials = health_dials(net, now, unwritten);
    let peer = net.dial.peers[i];
    lemma_dead_members(net, now, unwritten);
    lemma_lost_all(net, list);
    lemma_forgotten_all(net, list);
    lemma_forgotten_all_exact(net, list);
    if net.conns.contains(conn) {
        let k = choose|k: int| 0 <= k < net.conns.len() && net.conns[k] == conn;
        assert(net.conns[k].addr == conn.addr);
        assert(has_link(net.conns, conn.addr, conn.kind));
    }
    law_live_peers(mid.dial, peer);
    if !reached_in(mid.dial.live, peer) && !reached_in(mid.dial.dialing, peer) {
        let addr = used_endpoint(mid.dial, peer);
        law_due_dials(mid.dial, mid.dial.peers, peer.id, addr);
        assert(mid.dial.peers[i] == peer);
        assert(dials.contains((peer.id, addr)));
        let k = choose|k: int| 0 <= k < dials.len() && dials[k] == (peer.id, addr);
        assert(dials[k].0 == peer.id);
    }
    assert forall|k: int| 0 <= k < dials.len() implies after.dial.dialing.contains(
        (#[trigger] dials[k]).1,
    ) by {
        assert(dial_addrs(dials).contains(dials[k].1));
    }
}

/// Whether an address is the one in use of the peer on its host: the first in
/// the set with an endpoint there, which uses the endpoint on record for it,
/// else its preferred one.
pub open spec fn in_use(dial: DialView, addr: Endpoint) -> bool {
    exists|p: int|
        0 <= p < dial.peers.len() && on_host(#[trigger] dial.peers[p], addr.ip) && (forall|j: int|
            0 <= j < p ==> !on_host(#[trigger] dial.peers[j], addr.ip)) && (if dial.current.contains_key(
            dial.peers[p].id,
        ) {
            dial.current[dial.peers[p].id] == addr
        } else {
            dial.peers[p].active == addr
        })
}

/// The peer on a host is found, and it uses what is on record for it.
proof fn lemma_in_use(dial: DialView, addr: Endpoint)
    ensures
        in_use(dial, addr) <==> (peer_at(dial.peers, addr.ip) matches Some(peer) && used_endpoint(
            dial,
            peer,
        ) == addr),
{
    if in_use(dial, addr) {
        let p = choose|p: int|
            0 <= p < dial.peers.len() && on_host(#[trigger] dial.peers[p], addr.ip) && (forall|
                j: int,
            |
                0 <= j < p ==> !on_host(#[trigger] dial.peers[j], addr.ip)) && (
            if dial.current.contains_key(dial.peers[p].id) {
                dial.current[dial.peers[p].id] == addr
            } else {
                dial.peers[p].active == addr
            });
        law_peer_on_a_host(dial.peers, addr.ip, p);
    }
    if let Some(peer) = peer_at(dial.peers, addr.ip) {
        let p = lemma_peer_at_place(dial.peers, addr.ip);
        assert(dial.peers[p] == peer);
    }
}

/// Where the peer on a host stands.
proof fn lemma_peer_at_place(peers: Seq<PeerView>, ip: Ip) -> (p: int)
    requires
        peer_at(peers, ip) is Some,
    ensures
        0 <= p < peers.len(),
        peer_at(peers, ip) == Some(peers[p]),
        on_host(peers[p], ip),
        forall|j: int| 0 <= j < p ==> !on_host(#[trigger] peers[j], ip),
    decreases peers.len(),
{
    law_endpoints_of_a_peer(peers[0], ip);
    if has_ip(peers[0], ip) {
        0
    } else {
        let tail = peers.drop_first();
        let q = lemma_peer_at_place(tail, ip);
        assert(tail[q] == peers[q + 1]);
        assert forall|j: int| 0 <= j < q + 1 implies !on_host(#[trigger] peers[j], ip) by {
            if j > 0 {
                assert(tail[j - 1] == peers[j]);
            }
        }
        q + 1
    }
}

/// Which channels stay when a new peer set is published: every incoming one, and
/// the outgoing ones that are in use of their peers under the new set. Times and
/// live endpoints go with their channels.
pub proof fn law_new_peer_sets(net: NetView, peers: Seq<PeerView>, conn: Conn)
    requires
        net_inv(net),
    ensures
        ({
            let after = repeered(net, peers);
            &&& after.dial.peers == peers
            &&& after.dial.current == with_peers(net.dial, peers).current
            &&& after.dial.dialing == net.dial.dialing
            &&& after.idle_timeout == net.idle_timeout
            &&& after.conns.contains(conn) <==> net.conns.contains(conn) && (conn.kind
                == ConnKind::Incoming || in_use(after.dial, conn.addr))
            &&& after.conns.contains(conn) ==> after.last_seen.contains_key(conn.addr)
                && after.last_seen[conn.addr] == net.last_seen[conn.addr]
            &&& net.conns.contains(conn) && conn.kind == ConnKind::Outgoing ==> (
            after.dial.live.contains(conn.addr) <==> in_use(after.dial, conn.addr))
        }),
{
    let mid = NetView { dial: with_peers(net.dial, peers), ..net };
    let after = repeered(net, peers);
    let list = redundant_addrs(mid.dial, mid.conns);
    lemma_inv_frame(net, mid);
    lemma_forgotten_all(mid, list);
    lemma_forgotten_all_exact(mid, list);
    lemma_in_use(after.dial, conn.addr);
    law_pruning(mid, conn.addr);
    lemma_one_kind(mid.conns, conn.addr);
    if net.conns.contains(conn) {
        let k = choose|k: int| 0 <= k < net.conns.len() && net.conns[k] == conn;
        assert(mid.conns[k].addr == conn.addr && mid.conns[k].kind == conn.kind);
        assert(has_link(mid.conns, conn.addr, conn.kind));
        assert(has_link(after.conns, conn.addr, conn.kind) <==> !list.contains(conn.addr));
        if let Some(peer) = peer_at(peers, conn.addr.ip) {
            assert(used_endpoint(after.dial, peer) == used_endpoint(mid.dial, peer));
        }
        assert(conn.kind == ConnKind::Outgoing ==> (!list.contains(conn.addr) <==> in_use(
            after.dial,
            conn.addr,
        )));
        assert(conn.kind == ConnKind::Incoming ==> !list.contains(conn.addr));
        assert(mid.last_seen.contains_key(conn.addr));
    }
    assert(after.conns.contains(conn) <==> mid.conns.contains(conn) && !list.contains(conn.addr));
    assert(after.last_seen.contains_key(conn.addr) <==> mid.last_seen.contains_key(conn.addr)
        && !list.contains(conn.addr));
    assert(after.dial.live.contains(conn.addr) <==> mid.dial.live.contains(conn.addr)
        && !list.contains(conn.addr));
}

/// What a broadcast does to each channel: one that took the frame stays, used
/// when it did, unless it is an outgoing one that took it longer ago than the
/// timeout; one that did not is forgotten. Peers, their endpoints and running
/// dials are not affected.
pub proof fn law_what_broadcasting_does(
    net: NetView,
    outcomes: Seq<Option<Nanos>>,
    now: Nanos,
    i: int,
)
    requires
        net_inv(net),
        outcomes.len() == net.conns.len(),
        0 <= i < net.conns.len(),
    ensures
        ({
            let after = broadcast_over(net, outcomes, now);
            let conn = net.conns[i];
            let stays = match outcomes[i] {
                Some(t) => conn.kind == ConnKind::Incoming || now - t <= net.idle_timeout,
                None => false,
            };
            &&& stays ==> after.conns.contains(
                Conn { addr: conn.addr, kind: conn.kind, last_used: outcomes[i]->0 },
            ) && after.last_seen.contains_key(conn.addr) && after.last_seen[conn.addr]
                == net.last_seen[conn.addr] && (conn.kind == ConnKind::Outgoing
                ==> after.dial.live.contains(conn.addr))
            &&& !stays ==> !connected(after.conns, conn.addr) && !after.last_seen.contains_key(
                conn.addr,
            ) && !after.dial.live.contains(conn.addr)
            &&& after.dial.peers == net.dial.peers
            &&& after.dial.current == net.dial.current
            &&& after.dial.dialing == net.dial.dialing
            &&& after.idle_timeout == net.idle_timeout
        }),
{
    let after = broadcast_over(net, outcomes, now);
    let taken = delivered(net.conns, outcomes);
    let conn = net.conns[i];
    let kept = not_idle(taken, now, net.idle_timeout);
    let ends = broadcast_ends(net, outcomes, now);
    let gone = failed(net.conns, outcomes);
    let evicted = addrs(idle_conns(taken, now, net.idle_timeout));
    let mid = NetView { conns: kept, ..net };
    law_broadcast(net, outcomes, now);
    law_broadcast_drops_exactly_the_failed(net.conns, outcomes);
    lemma_forgotten_all(mid, ends);
    lemma_forgotten_all_exact(mid, ends);
    lemma_outcome(net.conns, outcomes, i);
    lemma_filter_members(taken, |c: Conn| !idle(c, now, net.idle_timeout));
    lemma_filter_members(taken, |c: Conn| idle(c, now, net.idle_timeout));
    lemma_broadcast_inv(net, outcomes, now);
    assert(has_link(net.conns, conn.addr, conn.kind));
    match outcomes[i] {
        Some(t) => {
            let used = Conn { addr: conn.addr, kind: conn.kind, last_used: t };
            if conn.kind == ConnKind::Incoming || now - t <= net.idle_timeout {
                assert(kept.contains(used));
                let k = choose|k: int| 0 <= k < kept.len() && kept[k] == used;
                assert(has_link(kept, conn.addr, conn.kind));
                assert(after.conns == kept);
                assert(!ends.contains(conn.addr));
            } else {
                let list = idle_conns(taken, now, net.idle_timeout);
                assert(list.contains(used));
                let k = choose|k: int| 0 <= k < list.len() && list[k] == used;
                assert(evicted[k] == conn.addr);
                assert(ends[gone.len() + k] == conn.addr);
                assert(ends.contains(conn.addr));
                lemma_connected_links(after.conns, conn.addr);
            }
        },
        None => {
            let k = choose|k: int| 0 <= k < gone.len() && gone[k] == conn.addr;
            assert(ends[k] == conn.addr);
            assert(ends.contains(conn.addr));
            lemma_connected_links(after.conns, conn.addr);
        },
    }
}

/// What becomes of one connection in a broadcast.
proof fn lemma_outcome(conns: Seq<Conn>, outcomes: Seq<Option<Nanos>>, i: int)
    requires
        outcomes.len() == conns.len(),
        0 <= i < conns.len(),
    ensures
        outcomes[i] matches Some(t) ==> delivered(conns, outcomes).contains(
            Conn { addr: conns[i].addr, kind: conns[i].kind, last_used: t },
        ),
        outcomes[i] is None ==> failed(conns, outcomes).contains(conns[i].addr),
    decreases conns.len(),
{
    let c0 = conns.drop_last();
    let o0 = outcomes.drop_last();
    let took = delivered(conns, outcomes);
    let gone = failed(conns, outcomes);
    if i < conns.len() - 1 {
        lemma_outcome(c0, o0, i);
        assert(c0[i] == conns[i] && o0[i] == outcomes[i]);
        match outcomes[i] {
            Some(t) => {
                let used = Conn { addr: conns[i].addr, kind: conns[i].kind, last_used: t };
                let k = choose|k: int|
                    0 <= k < delivered(c0, o0).len() && delivered(c0, o0)[k] == used;
                assert(took[k] == used);
            },
            None => {
                let k = choose|k: int|
                    0 <= k < failed(c0, o0).len() && failed(c0, o0)[k] == conns[i].addr;
                assert(gone[k] == conns[i].addr);
            },
        }
    } else {
        match outcomes[i] {
            Some(_) => assert(took.contains(took[took.len() - 1])),
            None => assert(gone.contains(gone[gone.len() - 1])),
        }
    }
}

/// What payloads ask for: the kind byte two is a ping, three is a pong, and
/// everything else is handed on as it is, empty payloads among it.
pub proof fn law_what_payloads_ask_for(payload: Seq<u8>)
    ensures
        payload.len() > 0 && payload[0] == 2 ==> asked(payload) == InboundView::Ping,
        payload.len() > 0 && payload[0] == 3 ==> asked(payload) == InboundView::Pong,
        payload.len() == 0 || (payload[0] != 2 && payload[0] != 3) ==> asked(payload)
            == InboundView::Forward(payload),
{
}

/// A frame that is not there in full yet yields nothing and stays buffered; one
/// beyond the cap yields nothing, and everything that was buffered is dropped.
pub proof fn law_unfinished_and_oversized_frames(
    payload: Seq<u8>,
    rest: Seq<u8>,
    max_payload: nat,
    cut: int,
)
    requires
        payload.len() <= u32::MAX,
        0 <= cut < 4 + payload.len(),
    ensures
        payload.len() <= max_payload ==> received(frame_bytes(payload).take(cut), max_payload) == (
            Seq::<InboundView>::empty(),
            frame_bytes(payload).take(cut),
        ),
        payload.len() > max_payload ==> received(frame_bytes(payload) + rest, max_payload) == (
            Seq::<InboundView>::empty(),
            Seq::<u8>::empty(),
        ),
{
    law_next_payload(payload, rest, max_payload, cut);
    if payload.len() <= max_payload {
        let part = frame_bytes(payload).take(cut);
        assert(drained(part, max_payload) == (Seq::<Seq<u8>>::empty(), part));
        assert(received(part, max_payload).0 =~= Seq::<InboundView>::empty());
    } else {
        let buf = frame_bytes(payload) + rest;
        assert(drained(buf, max_payload) == (Seq::<Seq<u8>>::empty(), buf));
        assert(received(buf, max_payload).0 =~= Seq::<InboundView>::empty());
    }
}

/// Each channel is pruned on its own account, in the order of the channels: an
/// outgoing one unless it is in use of its peer, and an incoming one if an
/// earlier one comes from the same host.
pub proof fn law_each_channel_is_pruned(dial: DialView, conns: Seq<Conn>, conn: Conn)
    ensures
        ({
            let drop = match conn.kind {
                ConnKind::Outgoing => !in_use(dial, conn.addr),
                ConnKind::Incoming => exists|i: int|
                    0 <= i < conns.len() && (#[trigger] conns[i]).kind == ConnKind::Incoming
                        && conns[i].addr.ip == conn.addr.ip,
            };
            &&& drop ==> redundant_addrs(dial, conns.push(conn)) == redundant_addrs(
                dial,
                conns,
            ).push(conn.addr)
            &&& !drop ==> redundant_addrs(dial, conns.push(conn)) == redundant_addrs(dial, conns)
        }),
        redundant_addrs(dial, Seq::<Conn>::empty()) == Seq::<Endpoint>::empty(),
{
    assert(conns.push(conn).drop_last() =~= conns);
    lemma_in_use(dial, conn.addr);
}

/// Pruning forgets exactly the channels to the addresses that are to be dropped.
pub proof fn law_what_pruning_forgets(net: NetView, conn: Conn, addr: Endpoint)
    ensures
        ({
            let list = redundant_addrs(net.dial, net.conns);
            let after = pruned(net);
            &&& after.conns.contains(conn) <==> net.conns.contains(conn) && !list.contains(
                conn.addr,
            )
            &&& after.dial.live.contains(addr) <==> net.dial.live.contains(addr) && !list.contains(
                addr,
            )
            &&& after.last_seen.contains_key(addr) <==> net.last_seen.contains_key(addr)
                && !list.contains(addr)
            &&& after.last_seen.contains_key(addr) ==> after.last_seen[addr]
                == net.last_seen[addr]
            &&& after.dial.peers == net.dial.peers
            &&& after.dial.current == net.dial.current
            &&& after.dial.dialing == net.dial.dialing
            &&& after.idle_timeout == net.idle_timeout
        }),
{
    let list = redundant_addrs(net.dial, net.conns);
    lemma_forgotten_all(net, list);
    lemma_forgotten_all_exact(net, list);
}

} // verus!
