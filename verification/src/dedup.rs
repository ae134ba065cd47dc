//! Loop prevention: origin checks, serials, and content-hash dedup.

use vstd::prelude::*;
use vstd::utf8::encode_utf8;

use crate::bytes::bytes_eq;
use crate::hash::sha256_of;
use crate::item::{content_digest, origin_from_fingerprint, ClipboardItem};

verus! {

/// What a machine remembers in order to tell its own copies from echoes.
#[verifier::ext_equal]
pub struct LoopView {
    /// The machine's own id.
    pub origin: Seq<u8>,
    /// The serial of the last item that originated here.
    pub serial: u64,
    /// Content hash of the last item that was copied here.
    pub last_local: Option<Seq<u8>>,
    /// Content hash of the last remote item that was applied here.
    pub last_remote: Option<Seq<u8>>,
    /// Content hash of the remote item whose local echo is still to come.
    pub pending: Option<Seq<u8>>,
}

/// Whether the content was seen recently, from either side.
pub open spec fn recently_seen(s: LoopView, hash: Seq<u8>) -> bool {
    s.last_remote == Some(hash) || s.last_local == Some(hash)
}

/// Whether a remote item is applied, and what is remembered afterwards.
pub open spec fn remote_step(s: LoopView, origin: Seq<u8>, hash: Seq<u8>) -> (bool, LoopView) {
    if origin == s.origin || recently_seen(s, hash) {
        (false, s)
    } else {
        (true, LoopView { last_remote: Some(hash), pending: Some(hash), ..s })
    }
}

/// Whether a local change is broadcast, and what is remembered afterwards.
pub open spec fn local_step(s: LoopView, hash: Seq<u8>) -> (bool, LoopView) {
    if s.pending == Some(hash) {
        (false, LoopView { last_local: Some(hash), pending: None, ..s })
    } else if recently_seen(s, hash) {
        (false, LoopView { pending: None, ..s })
    } else {
        (true, LoopView { last_local: Some(hash), pending: None, ..s })
    }
}

/// What is remembered after a broadcast.
pub open spec fn broadcast_step(s: LoopView, hash: Seq<u8>) -> LoopView {
    LoopView { last_local: Some(hash), ..s }
}

/// The serial after `serial`.
pub open spec fn serial_after(serial: u64) -> u64 {
    if serial == u64::MAX {
        0
    } else {
        (serial + 1) as u64
    }
}

/// What an optional hash says.
pub open spec fn hash_view(hash: Option<[u8; 32]>) -> Option<Seq<u8>> {
    match hash {
        Some(h) => Some(h@),
        None => None,
    }
}

/// Whether `stored` is the given hash.
fn is_hash(stored: &Option<[u8; 32]>, hash: &[u8; 32]) -> (yes: bool)
    ensures
        yes == (hash_view(*stored) == Some(hash@)),
{
    match stored {
        Some(h) => bytes_eq(h, hash),
        None => false,
    }
}

/// Tracks per-machine origin identity and decides, for each clipboard
/// item, whether it should be applied (remote) or broadcast (local).
///
/// Combined strategy:
/// - items whose `origin` equals our own id are never applied or re-broadcast;
/// - items whose content hash matches a recently-seen remote or local item
///   are dropped (dedup), so two machines copying identical content do not
///   ping-pong forever;
/// - applying a remote item arms an "echo suppress": the local backend's
///   change notification for that exact content is not re-broadcast.
pub struct LoopPrevention {
    self_origin: [u8; 8],
    serial: u64,
    last_local_hash: Option<[u8; 32]>,
    last_remote_hash: Option<[u8; 32]>,
    pending_suppress: Option<[u8; 32]>,
}

impl View for LoopPrevention {
    type V = LoopView;

    closed spec fn view(&self) -> LoopView {
        LoopView {
            origin: self.self_origin@,
            serial: self.serial,
            last_local: hash_view(self.last_local_hash),
            last_remote: hash_view(self.last_remote_hash),
            pending: hash_view(self.pending_suppress),
        }
    }
}

/// What a machine remembers that has seen nothing yet.
pub open spec fn fresh(origin: Seq<u8>) -> LoopView {
    LoopView { origin, serial: 0, last_local: None, last_remote: None, pending: None }
}

impl LoopPrevention {
    pub fn new(self_origin: [u8; 8]) -> (lp: Self)
        ensures
            lp@ == fresh(self_origin@),
    {
        Self {
            self_origin,
            serial: 0,
            last_local_hash: None,
            last_remote_hash: None,
            pending_suppress: None,
        }
    }

    /// The machine's own id.
    pub fn origin(&self) -> (origin: [u8; 8])
        ensures
            origin@ == self@.origin,
    {
        self.self_origin
    }

    /// Convenience: build from a local certificate fingerprint.
    pub fn from_fingerprint(fingerprint: &str) -> (lp: Self)
        ensures
            lp@ == fresh(sha256_of(encode_utf8(fingerprint@)).take(8)),
    {
        Self::new(origin_from_fingerprint(fingerprint))
    }

    /// Allocate the next serial for a locally-originated item.
    pub fn next_serial(&mut self) -> (serial: u64)
        ensures
            serial == serial_after(old(self)@.serial),
            final(self)@ == (LoopView { serial, ..old(self)@ }),
    {
        self.serial = self.serial.wrapping_add(1);
        self.serial
    }

    /// Whether an item with this origin came from us.
    pub fn is_self(&self, origin: [u8; 8]) -> (yes: bool)
        ensures
            yes == (origin@ == self@.origin),
    {
        bytes_eq(&origin, &self.self_origin)
    }

    /// Whether the content was seen recently, from either side.
    fn seen(&self, hash: &[u8; 32]) -> (yes: bool)
        ensures
            yes == recently_seen(self@, hash@),
    {
        is_hash(&self.last_remote_hash, hash) || is_hash(&self.last_local_hash, hash)
    }

    /// Decide whether to apply a remote item of the given origin and content hash.
    pub fn should_apply_hash(&mut self, origin: [u8; 8], hash: [u8; 32]) -> (apply: bool)
        ensures
            (apply, final(self)@) == remote_step(old(self)@, origin@, hash@),
    {
        if self.is_self(origin) {
            return false;
        }
        if self.seen(&hash) {
            return false;
        }
        self.last_remote_hash = Some(hash);
        self.pending_suppress = Some(hash);
        true
    }

    /// Decide whether to apply a remotely-received item.
    ///
    /// Returns `true` if the item should be applied to the local clipboard.
    /// When `true`, arms echo suppression so the resulting local change
    /// notification is not re-broadcast.
    pub fn should_apply_remote(&mut self, item: &ClipboardItem) -> (apply: bool)
        ensures
            (apply, final(self)@) == remote_step(
                old(self)@,
                item@.origin,
                content_digest(item@.reps),
            ),
    {
        self.should_apply_hash(item.origin, item.content_hash())
    }

    /// Decide whether a local change of the given content hash should be broadcast.
    pub fn on_local_hash(&mut self, hash: [u8; 32]) -> (broadcast: bool)
        ensures
            (broadcast, final(self)@) == local_step(old(self)@, hash@),
    {
        let echo = is_hash(&self.pending_suppress, &hash);
        self.pending_suppress = None;
        // Echo of a just-applied remote item => suppress.
        if echo {
            self.last_local_hash = Some(hash);
            return false;
        }
        if self.seen(&hash) {
            return false;
        }
        self.last_local_hash = Some(hash);
        true
    }

    /// Decide whether a locally-observed change should be broadcast.
    ///
    /// Returns `true` if the item is a genuine local copy that peers
    /// should receive.
    pub fn on_local_change(&mut self, item: &ClipboardItem) -> (broadcast: bool)
        ensures
            (broadcast, final(self)@) == local_step(old(self)@, content_digest(item@.reps)),
    {
        self.on_local_hash(item.content_hash())
    }

    /// Record that we broadcast a locally-originated item (tracks its hash
    /// for dedup against future remote echoes).
    pub fn note_broadcast(&mut self, item: &ClipboardItem)
        ensures
            final(self)@ == broadcast_step(old(self)@, content_digest(item@.reps)),
    {
        self.last_local_hash = Some(item.content_hash());
    }
}

/// An item that originated here is never applied here, and is not remembered.
pub proof fn law_own_items_are_never_applied(s: LoopView, hash: Seq<u8>)
    ensures
        remote_step(s, s.origin, hash) == (false, s),
{
}

/// The local echo of a remote item that was just applied is not broadcast, and
/// neither is any repetition of it.
pub proof fn law_echo_is_suppressed(s: LoopView, origin: Seq<u8>, hash: Seq<u8>)
    requires
        remote_step(s, origin, hash).0,
    ensures
        ({
            let applied = remote_step(s, origin, hash).1;
            let (echoed, after) = local_step(applied, hash);
            !echoed && !local_step(after, hash).0
        }),
{
}

/// Content that was applied once is not applied again, whichever machine it
/// comes from.
pub proof fn law_applied_content_is_deduped(
    s: LoopView,
    origin: Seq<u8>,
    other: Seq<u8>,
    hash: Seq<u8>,
)
    requires
        remote_step(s, origin, hash).0,
    ensures
        !remote_step(remote_step(s, origin, hash).1, other, hash).0,
{
}

/// Content that was copied here and broadcast is neither applied when a peer
/// sends it back nor broadcast again.
pub proof fn law_broadcast_content_is_deduped(s: LoopView, origin: Seq<u8>, hash: Seq<u8>)
    requires
        local_step(s, hash).0,
    ensures
        ({
            let sent = local_step(s, hash).1;
            !remote_step(sent, origin, hash).0 && !local_step(sent, hash).0 && broadcast_step(
                sent,
                hash,
            ) == sent
        }),
{
}

/// Foreign content that was not seen recently is applied, and a local copy of
/// content that was not seen recently is broadcast.
pub proof fn law_new_content_passes(s: LoopView, origin: Seq<u8>, hash: Seq<u8>)
    requires
        origin != s.origin,
        !recently_seen(s, hash),
    ensures
        remote_step(s, origin, hash).0,
        s.pending != Some(hash) ==> local_step(s, hash).0,
{
}

/// Two machines never ping-pong one copy: once `a` has broadcast it, `b` does
/// not broadcast the change that receiving it makes there, whether or not `b`
/// applied it, and `a` does not apply it when it comes back.
pub proof fn law_no_ping_pong(a: LoopView, b: LoopView, hash: Seq<u8>)
    requires
        a.origin != b.origin,
        local_step(a, hash).0,
    ensures
        !local_step(remote_step(b, a.origin, hash).1, hash).0,
        !remote_step(local_step(a, hash).1, b.origin, hash).0,
{
}

/// A serial is larger than every serial before it, until the counter wraps.
pub proof fn law_serials_are_monotonic(serial: u64)
    requires
        serial < u64::MAX,
    ensures
        serial_after(serial) > serial,
{
}

/// Deciding about an item changes neither the machine's id nor its serial.
pub proof fn law_decisions_keep_identity(s: LoopView, origin: Seq<u8>, hash: Seq<u8>)
    ensures
        remote_step(s, origin, hash).1.origin == s.origin,
        remote_step(s, origin, hash).1.serial == s.serial,
        local_step(s, hash).1.origin == s.origin,
        local_step(s, hash).1.serial == s.serial,
        broadcast_step(s, hash).origin == s.origin,
        broadcast_step(s, hash).serial == s.serial,
{
}

/// When a remote item is applied: exactly if it comes from another machine and
/// its content is neither that of the last remote item nor that of the last local
/// one. Applying it makes it the last remote item and arms the suppression of its
/// echo; not applying it changes nothing.
pub proof fn law_when_remote_items_are_applied(s: LoopView, origin: Seq<u8>, hash: Seq<u8>)
    ensures
        ({
            let (apply, after) = remote_step(s, origin, hash);
            &&& apply <==> origin != s.origin && s.last_remote != Some(hash) && s.last_local != Some(
                hash,
            )
            &&& !apply ==> after == s
            &&& apply ==> after.last_remote == Some(hash) && after.pending == Some(hash)
                && after.last_local == s.last_local && after.origin == s.origin && after.serial
                == s.serial
        }),
{
}

/// When a local change is broadcast: exactly if its content is neither the echo
/// that is still to come nor that of the last remote or local item. A change that
/// is broadcast, or is that echo, becomes the last local item; in any case the
/// suppression is over, and the last remote item stays.
pub proof fn law_when_local_changes_are_broadcast(s: LoopView, hash: Seq<u8>)
    ensures
        ({
            let (broadcast, after) = local_step(s, hash);
            &&& broadcast <==> s.pending != Some(hash) && s.last_remote != Some(hash)
                && s.last_local != Some(hash)
            &&& after.pending is None
            &&& broadcast || s.pending == Some(hash) ==> after.last_local == Some(hash)
            &&& !broadcast && s.pending != Some(hash) ==> after.last_local == s.last_local
            &&& after.last_remote == s.last_remote
            &&& after.origin == s.origin
            &&& after.serial == s.serial
        }),
{
}

/// A broadcast that is noted makes its content the last local one, so that no
/// peer's item of that content is applied and no local copy of it is broadcast;
/// it changes nothing else.
pub proof fn law_noted_broadcasts(s: LoopView, origin: Seq<u8>, hash: Seq<u8>)
    ensures
        ({
            let after = broadcast_step(s, hash);
            &&& !remote_step(after, origin, hash).0
            &&& !local_step(after, hash).0
            &&& after.last_local == Some(hash)
            &&& after.last_remote == s.last_remote
            &&& after.pending == s.pending
            &&& after.origin == s.origin
            &&& after.serial == s.serial
        }),
{
}

/// A machine that has seen nothing applies any foreign item and broadcasts any
/// local change, and its first serial is one.
pub proof fn law_fresh_machines_know_nothing(own: Seq<u8>, origin: Seq<u8>, hash: Seq<u8>)
    ensures
        fresh(own).origin == own,
        remote_step(fresh(own), origin, hash).0 <==> origin != own,
        local_step(fresh(own), hash).0,
        serial_after(fresh(own).serial) == 1,
{
}

/// Serials count up by one and start again at zero behind the largest.
pub proof fn law_serials_count(serial: u64)
    ensures
        serial < u64::MAX ==> serial_after(serial) == serial + 1,
        serial_after(u64::MAX) == 0,
{
}

/// Different contents do not get in each other's way: of two copies in a row with
/// different content, the second is broadcast unless it is the last remote
/// content, and of two remote items in a row with different content, the second
/// is applied unless it is the last local content.
pub proof fn law_new_content_follows(
    s: LoopView,
    origin: Seq<u8>,
    first: Seq<u8>,
    second: Seq<u8>,
)
    requires
        first != second,
    ensures
        local_step(s, first).0 && s.last_remote != Some(second) ==> local_step(
            local_step(s, first).1,
            second,
        ).0,
        remote_step(s, origin, first).0 && s.last_local != Some(second) ==> remote_step(
            remote_step(s, origin, first).1,
            origin,
            second,
        ).0,
{
}

} // verus!
