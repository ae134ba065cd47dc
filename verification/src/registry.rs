//! Connection registry / pool for clipboard peers.
//!
//! Tracks live connections (both outgoing pooled conns and incoming accepted
//! conns), keeps account of broadcasts to all of them, and evicts idle
//! outgoing connections after a timeout. The incoming listener itself is not
//! part of this registry and is never idle-evicted.
//!
//! The registry holds no sockets: whoever owns them writes, and reports how
//! each write went.

use vstd::prelude::*;

use crate::endpoint::{Endpoint, Ip, Nanos};

verus! {

#[derive(Debug, Clone, Copy, PartialEq, Eq, Structural)]
pub enum ConnKind {
    /// A connection we established to a peer (subject to idle eviction).
    Outgoing,
    /// A connection a peer established to us (not idle-evicted).
    Incoming,
}

/// A live connection.
#[derive(Debug, Clone, Copy, PartialEq, Eq, Structural)]
pub struct Conn {
    pub addr: Endpoint,
    pub kind: ConnKind,
    /// When it was registered or last broadcast to.
    pub last_used: Nanos,
}

/// Whether no address occurs twice.
pub open spec fn addrs_distinct(conns: Seq<Conn>) -> bool {
    forall|i: int, j: int|
        0 <= i < conns.len() && 0 <= j < conns.len() && i != j ==> (#[trigger] conns[i]).addr != (
        #[trigger] conns[j]).addr
}

/// Whether there is a connection to `addr`.
pub open spec fn connected(conns: Seq<Conn>, addr: Endpoint) -> bool {
    exists|i: int| 0 <= i < conns.len() && (#[trigger] conns[i]).addr == addr
}

/// Whether there is a connection to some address of the host `ip`.
pub open spec fn host_connected(conns: Seq<Conn>, ip: Ip) -> bool {
    exists|i: int| 0 <= i < conns.len() && (#[trigger] conns[i]).addr.ip == ip
}

/// The addresses of connections.
pub open spec fn addrs(conns: Seq<Conn>) -> Seq<Endpoint> {
    conns.map_values(|c: Conn| c.addr)
}

/// The connections after one is registered: in the place of the one to the same
/// address, where there is one, else behind the others.
pub open spec fn registered(conns: Seq<Conn>, conn: Conn) -> Seq<Conn> {
    if connected(conns, conn.addr) {
        conns.map_values(
            |c: Conn|
                if c.addr == conn.addr {
                    conn
                } else {
                    c
                },
        )
    } else {
        conns.push(conn)
    }
}

/// The connections but for the one to `addr`.
pub open spec fn without(conns: Seq<Conn>, addr: Endpoint) -> Seq<Conn> {
    conns.filter(|c: Conn| c.addr != addr)
}

/// Whether a connection is due for eviction: an outgoing one that was used
/// longer ago than the timeout.
pub open spec fn idle(conn: Conn, now: Nanos, timeout: Nanos) -> bool {
    conn.kind == ConnKind::Outgoing && now - conn.last_used > timeout
}

/// The connections that stay when idle ones are evicted.
pub open spec fn not_idle(conns: Seq<Conn>, now: Nanos, timeout: Nanos) -> Seq<Conn> {
    conns.filter(|c: Conn| !idle(c, now, timeout))
}

/// The connections that are evicted.
pub open spec fn idle_conns(conns: Seq<Conn>, now: Nanos, timeout: Nanos) -> Seq<Conn> {
    conns.filter(|c: Conn| idle(c, now, timeout))
}

/// The connections that stay after a broadcast: those that took the frame, each
/// used at the time when it did.
pub open spec fn delivered(conns: Seq<Conn>, outcomes: Seq<Option<Nanos>>) -> Seq<Conn>
    decreases conns.len(),
{
    if conns.len() == 0 {
        seq![]
    } else {
        let rest = delivered(conns.drop_last(), outcomes.drop_last());
        match outcomes.last() {
            Some(time) => rest.push(Conn { last_used: time, ..conns.last() }),
            None => rest,
        }
    }
}

/// The addresses of the connections that failed a broadcast.
pub open spec fn failed(conns: Seq<Conn>, outcomes: Seq<Option<Nanos>>) -> Seq<Endpoint>
    decreases conns.len(),
{
    if conns.len() == 0 {
        seq![]
    } else {
        let rest = failed(conns.drop_last(), outcomes.drop_last());
        match outcomes.last() {
            Some(_) => rest,
            None => rest.push(conns.last().addr),
        }
    }
}

/// Registry of live clipboard connections.
#[derive(Debug)]
pub struct ConnectionRegistry {
    conns: Vec<Conn>,
    idle_timeout: Nanos,
}

impl View for ConnectionRegistry {
    type V = Seq<Conn>;

    /// The live connections, in the order in which they were first registered.
    closed spec fn view(&self) -> Seq<Conn> {
        self.conns@
    }
}

impl ConnectionRegistry {
    /// At most one connection to each address.
    pub open spec fn wf(&self) -> bool {
        addrs_distinct(self@)
    }

    /// How long an outgoing connection may stay unused.
    pub closed spec fn timeout(&self) -> Nanos {
        self.idle_timeout
    }

    pub fn new(idle_timeout: Nanos) -> (registry: Self)
        ensures
            registry.wf(),
            registry@ == Seq::<Conn>::empty(),
            registry.timeout() == idle_timeout,
    {
        Self { conns: Vec::new(), idle_timeout }
    }

    /// Which connection goes to `addr`.
    fn index_of(&self, addr: Endpoint) -> (at: Option<usize>)
        ensures
            match at {
                Some(i) => i < self@.len() && self@[i as int].addr == addr,
                None => !connected(self@, addr),
            },
    {
        let mut i: usize = 0;
        while i < self.conns.len()
            invariant
                0 <= i <= self@.len(),
                forall|j: int| 0 <= j < i ==> (#[trigger] self@[j]).addr != addr,
            decreases self@.len() - i,
        {
            if self.conns[i].addr == addr {
                return Some(i);
            }
            i = i + 1;
        }
        None
    }

    /// Register or update a connection.
    pub fn insert(&mut self, addr: Endpoint, kind: ConnKind, now: Nanos)
        requires
            old(self).wf(),
        ensures
            final(self).wf(),
            final(self)@ == registered(old(self)@, Conn { addr, kind, last_used: now }),
            final(self).timeout() == old(self).timeout(),
    {
        let conn = Conn { addr, kind, last_used: now };
        match self.index_of(addr) {
            Some(i) => {
                self.conns.set(i, conn);
                assert(connected(old(self)@, addr));
                assert(self@ =~= registered(old(self)@, conn));
            },
            None => {
                self.conns.push(conn);
            },
        }
    }

    /// Remove the connection to `addr`, if there is one.
    pub fn remove(&mut self, addr: &Endpoint)
        requires
            old(self).wf(),
        ensures
            final(self).wf(),
            final(self)@ == without(old(self)@, *addr),
            final(self).timeout() == old(self).timeout(),
    {
        let ghost before = self@;
        let mut kept: Vec<Conn> = Vec::new();
        let mut i: usize = 0;
        while i < self.conns.len()
            invariant
                self@ == before,
                self.timeout() == old(self).timeout(),
                0 <= i <= before.len(),
                kept@ == without(before.take(i as int), *addr),
            decreases before.len() - i,
        {
            let conn = self.conns[i];
            if conn.addr != *addr {
                kept.push(conn);
            }
            proof {
                reveal(Seq::filter);
                assert(before.take(i + 1).drop_last() =~= before.take(i as int));
            }
            i = i + 1;
        }
        proof {
            assert(before.take(i as int) =~= before);
            lemma_filter_distinct(before, |c: Conn| c.addr != *addr);
        }
        self.conns = kept;
    }

    /// Whether there is a connection to `addr`.
    pub fn contains(&self, addr: &Endpoint) -> (yes: bool)
        ensures
            yes == connected(self@, *addr),
    {
        match self.index_of(*addr) {
            Some(i) => {
                assert(self@[i as int].addr == *addr);
                true
            },
            None => false,
        }
    }

    /// Whether there is a connection to some address of the host `ip`.
    pub fn contains_host(&self, ip: Ip) -> (yes: bool)
        ensures
            yes == host_connected(self@, ip),
    {
        let mut i: usize = 0;
        while i < self.conns.len()
            invariant
                0 <= i <= self@.len(),
                forall|j: int| 0 <= j < i ==> (#[trigger] self@[j]).addr.ip != ip,
            decreases self@.len() - i,
        {
            if self.conns[i].addr.ip == ip {
                assert(self@[i as int].addr.ip == ip);
                return true;
            }
            i = i + 1;
        }
        false
    }

    pub fn len(&self) -> (n: usize)
        ensures
            n == self@.len(),
    {
        self.conns.len()
    }

    pub fn is_empty(&self) -> (empty: bool)
        ensures
            empty == (self@.len() == 0),
    {
        self.conns.len() == 0
    }

    /// The addresses of all live connections.
    pub fn peers(&self) -> (peers: Vec<Endpoint>)
        ensures
            peers@ == addrs(self@),
    {
        let mut peers: Vec<Endpoint> = Vec::new();
        let mut i: usize = 0;
        while i < self.conns.len()
            invariant
                0 <= i <= self@.len(),
                peers@ == addrs(self@.take(i as int)),
            decreases self@.len() - i,
        {
            peers.push(self.conns[i].addr);
            i = i + 1;
            assert(peers@ =~= addrs(self@.take(i as int)));
        }
        assert(self@.take(i as int) =~= self@);
        peers
    }

    /// All live connections.
    pub fn entries(&self) -> (entries: Vec<Conn>)
        ensures
            entries@ == self@,
    {
        let mut entries: Vec<Conn> = Vec::new();
        let mut i: usize = 0;
        while i < self.conns.len()
            invariant
                0 <= i <= self@.len(),
                entries@ == self@.take(i as int),
            decreases self@.len() - i,
        {
            entries.push(self.conns[i]);
            i = i + 1;
            assert(entries@ =~= self@.take(i as int));
        }
        assert(self@.take(i as int) =~= self@);
        entries
    }

    /// Take account of a frame that was written to every live connection.
    ///
    /// `outcomes` says for each connection, in the order of `peers`, when it
    /// took the frame, or that it failed to. Connections that failed to accept
    /// the write are removed. Returns the number of connections the frame was
    /// successfully queued to, and the addresses of connections removed due to
    /// a failed write.
    pub fn broadcast(&mut self, outcomes: &Vec<Option<Nanos>>) -> (result: (usize, Vec<Endpoint>))
        requires
            old(self).wf(),
            outcomes@.len() == old(self)@.len(),
        ensures
            final(self).wf(),
            final(self)@ == delivered(old(self)@, outcomes@),
            final(self).timeout() == old(self).timeout(),
            result.0 == delivered(old(self)@, outcomes@).len(),
            result.1@ == failed(old(self)@, outcomes@),
    {
        let ghost before = self@;
        let mut kept: Vec<Conn> = Vec::new();
        let mut to_remove: Vec<Endpoint> = Vec::new();
        let mut i: usize = 0;
        while i < self.conns.len()
            invariant
                self@ == before,
                self.timeout() == old(self).timeout(),
                outcomes@.len() == before.len(),
                0 <= i <= before.len(),
                kept@ == delivered(before.take(i as int), outcomes@.take(i as int)),
                to_remove@ == failed(before.take(i as int), outcomes@.take(i as int)),
            decreases before.len() - i,
        {
            let conn = self.conns[i];
            match outcomes[i] {
                Some(time) => {
                    kept.push(Conn { addr: conn.addr, kind: conn.kind, last_used: time });
                },
                None => {
                    to_remove.push(conn.addr);
                },
            }
            proof {
                assert(before.take(i + 1).drop_last() =~= before.take(i as int));
                assert(outcomes@.take(i + 1).drop_last() =~= outcomes@.take(i as int));
            }
            i = i + 1;
        }
        proof {
            assert(before.take(i as int) =~= before);
            assert(outcomes@.take(i as int) =~= outcomes@);
            law_broadcast_drops_exactly_the_failed(before, outcomes@);
        }
        self.conns = kept;
        (self.conns.len(), to_remove)
    }

    /// Evict idle outgoing connections. Incoming conns are never evicted.
    /// Returns the addresses of the evicted outgoing connections.
    pub fn evict_idle(&mut self, now: Nanos) -> (evicted: Vec<Endpoint>)
        requires
            old(self).wf(),
        ensures
            final(self).wf(),
            final(self)@ == not_idle(old(self)@, now, old(self).timeout()),
            final(self).timeout() == old(self).timeout(),
            evicted@ == addrs(idle_conns(old(self)@, now, old(self).timeout())),
    {
        let ghost before = self@;
        let ghost timeout = self.timeout();
        let mut kept: Vec<Conn> = Vec::new();
        let mut evicted: Vec<Endpoint> = Vec::new();
        let mut i: usize = 0;
        while i < self.conns.len()
            invariant
                self@ == before,
                self.timeout() == timeout,
                0 <= i <= before.len(),
                kept@ == not_idle(before.take(i as int), now, timeout),
                evicted@ == addrs(idle_conns(before.take(i as int), now, timeout)),
            decreases before.len() - i,
        {
            let conn = self.conns[i];
            let keep = conn.kind == ConnKind::Incoming || now <= conn.last_used || now
                - conn.last_used <= self.idle_timeout;
            proof {
                reveal(Seq::filter);
                assert(before.take(i + 1).drop_last() =~= before.take(i as int));
            }
            if keep {
                kept.push(conn);
            } else {
                evicted.push(conn.addr);
            }
            i = i + 1;
            assert(evicted@ =~= addrs(idle_conns(before.take(i as int), now, timeout)));
        }
        proof {
            assert(before.take(i as int) =~= before);
            lemma_filter_distinct(before, |c: Conn| !idle(c, now, timeout));
        }
        self.conns = kept;
        evicted
    }

    /// Remove all connections (used on shutdown).
    pub fn clear(&mut self)
        ensures
            final(self).wf(),
            final(self)@ == Seq::<Conn>::empty(),
            final(self).timeout() == old(self).timeout(),
    {
        self.conns = Vec::new();
    }
}

/// What is left after leaving items out of a list: those that are to be kept.
pub proof fn lemma_filter_members<A>(list: Seq<A>, keep: spec_fn(A) -> bool)
    ensures
        forall|c: A| #[trigger] list.filter(keep).contains(c) <==> list.contains(c) && keep(c),
    decreases list.len(),
{
    reveal(Seq::filter);
    let kept = list.filter(keep);
    if list.len() > 0 {
        let init = list.drop_last();
        let kept0 = init.filter(keep);
        lemma_filter_members(init, keep);
        assert forall|c: A| #[trigger] kept.contains(c) <==> list.contains(c) && keep(c) by {
            if kept.contains(c) {
                let i = choose|i: int| 0 <= i < kept.len() && kept[i] == c;
                if i < kept0.len() {
                    assert(kept0[i] == c);
                    assert(kept0.contains(c));
                    let j = choose|j: int| 0 <= j < init.len() && init[j] == c;
                    assert(list[j] == c);
                } else {
                    assert(list[list.len() - 1] == c);
                }
            }
            if list.contains(c) && keep(c) {
                let j = choose|j: int| 0 <= j < list.len() && list[j] == c;
                if j < init.len() {
                    assert(init[j] == c);
                    assert(kept0.contains(c));
                    let i = choose|i: int| 0 <= i < kept0.len() && kept0[i] == c;
                    assert(kept[i] == c);
                } else {
                    assert(kept[kept.len() - 1] == c);
                }
            }
        }
    }
}

/// Leaving connections out leaves no address twice, and leaves out no others.
pub proof fn lemma_filter_distinct(conns: Seq<Conn>, keep: spec_fn(Conn) -> bool)
    ensures
        addrs_distinct(conns) ==> addrs_distinct(conns.filter(keep)),
        forall|c: Conn| #[trigger]
            conns.filter(keep).contains(c) <==> conns.contains(c) && keep(c),
    decreases conns.len(),
{
    lemma_filter_members(conns, keep);
    if conns.len() > 0 && addrs_distinct(conns) {
        reveal(Seq::filter);
        let init = conns.drop_last();
        let last = conns.last();
        assert forall|i: int, j: int|
            0 <= i < init.len() && 0 <= j < init.len() && i != j implies (
        #[trigger] init[i]).addr != (#[trigger] init[j]).addr by {
            assert(conns[i] == init[i] && conns[j] == init[j]);
        }
        lemma_filter_distinct(init, keep);
        assert forall|i: int| 0 <= i < init.filter(keep).len() implies (
        #[trigger] init.filter(keep)[i]).addr != last.addr by {
            let c = init.filter(keep)[i];
            assert(init.filter(keep).contains(c));
            let j = choose|j: int| 0 <= j < init.len() && init[j] == c;
            assert(conns[j] == c);
            assert(conns[conns.len() - 1] == last);
        }
    }
}

/// A broadcast drops exactly the connections that failed it: what stays and
/// what failed are, together, what there was, each connection once.
pub proof fn law_broadcast_drops_exactly_the_failed(conns: Seq<Conn>, outcomes: Seq<Option<Nanos>>)
    requires
        addrs_distinct(conns),
        outcomes.len() == conns.len(),
    ensures
        addrs_distinct(delivered(conns, outcomes)),
        delivered(conns, outcomes).len() + failed(conns, outcomes).len() == conns.len(),
        forall|a: Endpoint| #[trigger]
            connected(delivered(conns, outcomes), a) <==> connected(conns, a) && !failed(
                conns,
                outcomes,
            ).contains(a),
    decreases conns.len(),
{
    if conns.len() > 0 {
        let init = conns.drop_last();
        let last = conns.last();
        let before = outcomes.drop_last();
        assert forall|i: int, j: int|
            0 <= i < init.len() && 0 <= j < init.len() && i != j implies (
        #[trigger] init[i]).addr != (#[trigger] init[j]).addr by {
            assert(conns[i] == init[i] && conns[j] == init[j]);
        }
        law_broadcast_drops_exactly_the_failed(init, before);
        let kept = delivered(conns, outcomes);
        let gone = failed(conns, outcomes);
        let kept0 = delivered(init, before);
        let gone0 = failed(init, before);
        assert(!connected(init, last.addr)) by {
            if connected(init, last.addr) {
                let i = choose|i: int| 0 <= i < init.len() && (#[trigger] init[i]).addr == last.addr;
                assert(conns[i].addr == conns[conns.len() - 1].addr);
            }
        }
        lemma_failed_connected(init, before);
        assert forall|a: Endpoint| connected(conns, a) == (connected(init, a) || a == last.addr) by {
            if connected(init, a) {
                let i = choose|i: int| 0 <= i < init.len() && (#[trigger] init[i]).addr == a;
                assert(conns[i].addr == a);
            }
            if a == last.addr {
                assert(conns[conns.len() - 1].addr == a);
            }
            if connected(conns, a) {
                let i = choose|i: int| 0 <= i < conns.len() && (#[trigger] conns[i]).addr == a;
                if i < init.len() {
                    assert(init[i].addr == a);
                }
            }
        }
        assert forall|a: Endpoint| #[trigger]
            connected(kept, a) <==> connected(conns, a) && !gone.contains(a) by {
            assert(connected(kept0, a) <==> connected(init, a) && !gone0.contains(a));
            match outcomes.last() {
                Some(time) => {
                    assert(gone == gone0);
                    if connected(kept, a) {
                        let i = choose|i: int| 0 <= i < kept.len() && (#[trigger] kept[i]).addr == a;
                        if i < kept0.len() {
                            assert(kept0[i].addr == a);
                        }
                    }
                    if connected(kept0, a) {
                        let i = choose|i: int|
                            0 <= i < kept0.len() && (#[trigger] kept0[i]).addr == a;
                        assert(kept[i].addr == a);
                    }
                    if a == last.addr {
                        assert(kept[kept0.len() as int].addr == a);
                    }
                },
                None => {
                    assert(kept == kept0);
                    if gone.contains(a) && a != last.addr {
                        let i = choose|i: int| 0 <= i < gone.len() && gone[i] == a;
                        assert(gone0[i] == a);
                    }
                    if gone0.contains(a) {
                        let i = choose|i: int| 0 <= i < gone0.len() && gone0[i] == a;
                        assert(gone[i] == a);
                    }
                    assert(gone[gone0.len() as int] == last.addr);
                },
            }
        }
        assert(addrs_distinct(kept)) by {
            assert forall|i: int, j: int|
                0 <= i < kept.len() && 0 <= j < kept.len() && i != j implies (
            #[trigger] kept[i]).addr != (#[trigger] kept[j]).addr by {
                if i < kept0.len() {
                    assert(kept[i] == kept0[i]);
                    assert(connected(kept0, kept0[i].addr));
                }
                if j < kept0.len() {
                    assert(kept[j] == kept0[j]);
                    assert(connected(kept0, kept0[j].addr));
                }
            }
        }
    }
}

/// Only connections fail a broadcast.
proof fn lemma_failed_connected(conns: Seq<Conn>, outcomes: Seq<Option<Nanos>>)
    requires
        outcomes.len() == conns.len(),
    ensures
        forall|a: Endpoint| #[trigger]
            failed(conns, outcomes).contains(a) ==> connected(conns, a),
    decreases conns.len(),
{
    if conns.len() > 0 {
        let init = conns.drop_last();
        let gone0 = failed(init, outcomes.drop_last());
        let gone = failed(conns, outcomes);
        lemma_failed_connected(init, outcomes.drop_last());
        assert forall|a: Endpoint| #[trigger] gone.contains(a) implies connected(conns, a) by {
            let i = choose|i: int| 0 <= i < gone.len() && gone[i] == a;
            if i < gone0.len() {
                assert(gone0[i] == a);
                assert(gone0.contains(a));
                let j = choose|j: int| 0 <= j < init.len() && (#[trigger] init[j]).addr == a;
                assert(conns[j].addr == a);
            } else {
                assert(conns[conns.len() - 1].addr == a);
            }
        }
    }
}

/// Leaving out nothing changes nothing.
pub proof fn lemma_filter_all(conns: Seq<Conn>, keep: spec_fn(Conn) -> bool)
    requires
        forall|i: int| 0 <= i < conns.len() ==> keep(#[trigger] conns[i]),
    ensures
        conns.filter(keep) == conns,
    decreases conns.len(),
{
    reveal(Seq::filter);
    if conns.len() > 0 {
        let init = conns.drop_last();
        assert forall|i: int| 0 <= i < init.len() implies keep(#[trigger] init[i]) by {
            assert(init[i] == conns[i]);
        }
        lemma_filter_all(init, keep);
        assert(keep(conns[conns.len() - 1]));
        assert(conns.filter(keep) =~= conns);
    }
}

/// Eviction removes exactly the idle connections.
pub proof fn law_eviction_removes_exactly_the_idle(
    conns: Seq<Conn>,
    now: Nanos,
    timeout: Nanos,
    conn: Conn,
)
    ensures
        not_idle(conns, now, timeout).contains(conn) <==> conns.contains(conn) && !idle(
            conn,
            now,
            timeout,
        ),
        idle_conns(conns, now, timeout).contains(conn) <==> conns.contains(conn) && idle(
            conn,
            now,
            timeout,
        ),
{
    lemma_filter_distinct(conns, |c: Conn| !idle(c, now, timeout));
    lemma_filter_distinct(conns, |c: Conn| idle(c, now, timeout));
}

/// An incoming connection is never evicted, however long it was unused.
pub proof fn law_eviction_spares_incoming(
    conns: Seq<Conn>,
    now: Nanos,
    timeout: Nanos,
    conn: Conn,
)
    requires
        conns.contains(conn),
        conn.kind == ConnKind::Incoming,
    ensures
        not_idle(conns, now, timeout).contains(conn),
{
    law_eviction_removes_exactly_the_idle(conns, now, timeout, conn);
}

/// Evicting twice at one time evicts nothing more.
pub proof fn law_eviction_is_idempotent(conns: Seq<Conn>, now: Nanos, timeout: Nanos)
    ensures
        not_idle(not_idle(conns, now, timeout), now, timeout) == not_idle(conns, now, timeout),
        idle_conns(not_idle(conns, now, timeout), now, timeout) == Seq::<Conn>::empty(),
{
    let kept = not_idle(conns, now, timeout);
    assert forall|i: int| 0 <= i < kept.len() implies !idle(#[trigger] kept[i], now, timeout) by {
        law_eviction_removes_exactly_the_idle(conns, now, timeout, kept[i]);
        assert(kept.contains(kept[i]));
    }
    lemma_filter_all(kept, |c: Conn| !idle(c, now, timeout));
    let evicted = idle_conns(kept, now, timeout);
    if evicted.len() > 0 {
        law_eviction_removes_exactly_the_idle(kept, now, timeout, evicted[0]);
        assert(evicted.contains(evicted[0]));
        let i = choose|i: int| 0 <= i < kept.len() && kept[i] == evicted[0];
        assert(!idle(kept[i], now, timeout));
    }
    assert(evicted =~= Seq::<Conn>::empty());
}

/// A broadcast that reached every connection less than the timeout ago keeps
/// them all from being evicted.
pub proof fn law_recent_activity_defers_eviction(
    conns: Seq<Conn>,
    outcomes: Seq<Option<Nanos>>,
    now: Nanos,
    timeout: Nanos,
)
    requires
        outcomes.len() == conns.len(),
        forall|i: int|
            0 <= i < outcomes.len() ==> (#[trigger] outcomes[i] matches Some(time) && now - time
                <= timeout),
    ensures
        delivered(conns, outcomes).len() == conns.len(),
        not_idle(delivered(conns, outcomes), now, timeout) == delivered(conns, outcomes),
{
    lemma_delivered_times(conns, outcomes, now, timeout);
    lemma_filter_all(delivered(conns, outcomes), |c: Conn| !idle(c, now, timeout));
}

proof fn lemma_delivered_times(
    conns: Seq<Conn>,
    outcomes: Seq<Option<Nanos>>,
    now: Nanos,
    timeout: Nanos,
)
    requires
        outcomes.len() == conns.len(),
        forall|i: int|
            0 <= i < outcomes.len() ==> (#[trigger] outcomes[i] matches Some(time) && now - time
                <= timeout),
    ensures
        delivered(conns, outcomes).len() == conns.len(),
        forall|i: int|
            0 <= i < conns.len() ==> !idle(#[trigger] delivered(conns, outcomes)[i], now, timeout),
    decreases conns.len(),
{
    if conns.len() > 0 {
        let before = outcomes.drop_last();
        assert forall|i: int| 0 <= i < before.len() implies (
        #[trigger] before[i] matches Some(time) && now - time <= timeout) by {
            assert(before[i] == outcomes[i]);
        }
        lemma_delivered_times(conns.drop_last(), before, now, timeout);
        assert(outcomes[outcomes.len() - 1] is Some);
    }
}

/// After removal there is no connection to the address; the others stay, and
/// removing again changes nothing.
pub proof fn law_removal(conns: Seq<Conn>, addr: Endpoint, other: Endpoint)
    ensures
        !connected(without(conns, addr), addr),
        other != addr ==> (connected(without(conns, addr), other) <==> connected(conns, other)),
        without(without(conns, addr), addr) == without(conns, addr),
{
    let kept = without(conns, addr);
    let keep = |c: Conn| c.addr != addr;
    lemma_filter_distinct(conns, keep);
    assert forall|i: int| 0 <= i < kept.len() implies keep(#[trigger] kept[i]) by {
        assert(kept.contains(kept[i]));
    }
    lemma_filter_all(kept, keep);
    if other != addr {
        if connected(kept, other) {
            let i = choose|i: int| 0 <= i < kept.len() && (#[trigger] kept[i]).addr == other;
            assert(kept.contains(kept[i]));
            let j = choose|j: int| 0 <= j < conns.len() && conns[j] == kept[i];
            assert(conns[j].addr == other);
        }
        if connected(conns, other) {
            let i = choose|i: int| 0 <= i < conns.len() && (#[trigger] conns[i]).addr == other;
            assert(conns.contains(conns[i]));
            assert(kept.contains(conns[i]));
            let j = choose|j: int| 0 <= j < kept.len() && kept[j] == conns[i];
            assert(kept[j].addr == other);
        }
    }
}

/// After registration there is a connection to the address, and to no other
/// address that there was none to before.
pub proof fn law_registration(conns: Seq<Conn>, conn: Conn, other: Endpoint)
    ensures
        registered(conns, conn).contains(conn),
        connected(registered(conns, conn), other) <==> connected(conns, other) || other
            == conn.addr,
{
    let new = registered(conns, conn);
    if connected(conns, conn.addr) {
        let i = choose|i: int| 0 <= i < conns.len() && (#[trigger] conns[i]).addr == conn.addr;
        assert(new[i] == conn);
    } else {
        assert(new[conns.len() as int] == conn);
    }
    if connected(conns, other) {
        let i = choose|i: int| 0 <= i < conns.len() && (#[trigger] conns[i]).addr == other;
        assert(new[i].addr == other);
    }
    if connected(new, other) {
        let i = choose|i: int| 0 <= i < new.len() && (#[trigger] new[i]).addr == other;
        if i < conns.len() {
            assert(conns[i].addr == other);
        }
    }
}

/// Every connection counts for its address and for its host, and nothing else
/// does.
pub proof fn law_connections_count_for_their_addresses(conns: Seq<Conn>, conn: Conn, addr: Endpoint)
    ensures
        connected(conns.push(conn), addr) <==> connected(conns, addr) || conn.addr == addr,
        host_connected(conns.push(conn), addr.ip) <==> host_connected(conns, addr.ip)
            || conn.addr.ip == addr.ip,
        !connected(Seq::<Conn>::empty(), addr),
        !host_connected(Seq::<Conn>::empty(), addr.ip),
{
    let more = conns.push(conn);
    assert(more[conns.len() as int] == conn);
    if connected(conns, addr) {
        let i = choose|i: int| 0 <= i < conns.len() && (#[trigger] conns[i]).addr == addr;
        assert(more[i].addr == addr);
    }
    if host_connected(conns, addr.ip) {
        let i = choose|i: int| 0 <= i < conns.len() && (#[trigger] conns[i]).addr.ip == addr.ip;
        assert(more[i].addr.ip == addr.ip);
    }
    if connected(more, addr) && conn.addr != addr {
        let i = choose|i: int| 0 <= i < more.len() && (#[trigger] more[i]).addr == addr;
        assert(conns[i].addr == addr);
    }
    if host_connected(more, addr.ip) && conn.addr.ip != addr.ip {
        let i = choose|i: int| 0 <= i < more.len() && (#[trigger] more[i]).addr.ip == addr.ip;
        assert(conns[i].addr.ip == addr.ip);
    }
}

/// Every connection gives its address, in the order of the connections.
pub proof fn law_one_address_per_connection(conns: Seq<Conn>)
    ensures
        addrs(conns).len() == conns.len(),
        forall|i: int| 0 <= i < conns.len() ==> #[trigger] addrs(conns)[i] == conns[i].addr,
{
}

/// A registered connection takes the place of the one to the same address, and
/// stands last where there was none; no other connection changes.
pub proof fn law_registration_changes_one_connection(conns: Seq<Conn>, conn: Conn, k: int)
    requires
        addrs_distinct(conns),
    ensures
        0 <= k < conns.len() && conns[k].addr == conn.addr ==> registered(conns, conn)
            == conns.update(k, conn),
        (forall|i: int| 0 <= i < conns.len() ==> (#[trigger] conns[i]).addr != conn.addr)
            ==> registered(conns, conn) == conns.push(conn),
{
    if 0 <= k < conns.len() && conns[k].addr == conn.addr {
        assert(connected(conns, conn.addr));
        assert forall|i: int| 0 <= i < conns.len() && i != k implies (#[trigger] conns[i]).addr
            != conn.addr by {
            assert(conns[i].addr != conns[k].addr);
        }
        assert(registered(conns, conn) =~= conns.update(k, conn));
    }
}

/// Removal goes through the connections in order: one to the address is left
/// out, every other one is kept as it is.
pub proof fn law_removal_keeps_the_others(conns: Seq<Conn>, conn: Conn, addr: Endpoint)
    ensures
        without(conns.push(conn), addr) == if conn.addr == addr {
            without(conns, addr)
        } else {
            without(conns, addr).push(conn)
        },
        without(Seq::<Conn>::empty(), addr) == Seq::<Conn>::empty(),
{
    reveal(Seq::filter);
    assert(conns.push(conn).drop_last() =~= conns);
}

/// Eviction goes through the connections in order: an outgoing one that was used
/// longer ago than the timeout is evicted, every other one is kept as it is.
pub proof fn law_who_is_evicted(conns: Seq<Conn>, conn: Conn, now: Nanos, timeout: Nanos)
    ensures
        conn.kind == ConnKind::Outgoing && now > conn.last_used + timeout ==> not_idle(
            conns.push(conn),
            now,
            timeout,
        ) == not_idle(conns, now, timeout) && idle_conns(conns.push(conn), now, timeout)
            == idle_conns(conns, now, timeout).push(conn),
        conn.kind == ConnKind::Incoming || now <= conn.last_used + timeout ==> not_idle(
            conns.push(conn),
            now,
            timeout,
        ) == not_idle(conns, now, timeout).push(conn) && idle_conns(conns.push(conn), now, timeout)
            == idle_conns(conns, now, timeout),
        not_idle(Seq::<Conn>::empty(), now, timeout) == Seq::<Conn>::empty(),
        idle_conns(Seq::<Conn>::empty(), now, timeout) == Seq::<Conn>::empty(),
{
    reveal(Seq::filter);
    assert(conns.push(conn).drop_last() =~= conns);
}

/// What becomes of a connection in a broadcast, whatever becomes of those before
/// it: one that took the frame stays and was used when it did, one that did not
/// is dropped and reported.
pub proof fn law_what_a_broadcast_does_to_each(
    conns: Seq<Conn>,
    outcomes: Seq<Option<Nanos>>,
    conn: Conn,
    time: Nanos,
)
    ensures
        delivered(conns.push(conn), outcomes.push(Some(time))) == delivered(conns, outcomes).push(
            Conn { addr: conn.addr, kind: conn.kind, last_used: time },
        ),
        failed(conns.push(conn), outcomes.push(Some(time))) == failed(conns, outcomes),
        delivered(conns.push(conn), outcomes.push(None)) == delivered(conns, outcomes),
        failed(conns.push(conn), outcomes.push(None)) == failed(conns, outcomes).push(conn.addr),
        delivered(Seq::<Conn>::empty(), outcomes) == Seq::<Conn>::empty(),
        failed(Seq::<Conn>::empty(), outcomes) == Seq::<Endpoint>::empty(),
{
    assert(conns.push(conn).drop_last() =~= conns);
    assert(outcomes.push(Some(time)).drop_last() =~= outcomes);
    assert(outcomes.push(None).drop_last() =~= outcomes);
}

} // verus!
