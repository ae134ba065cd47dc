//! The clipboard driver.
//!
//! Decides what happens to changes of the local clipboard and to frames from
//! peers. Whoever runs it owns the backends and the channels: it starts and
//! stops the watcher, broadcasts the frames and applies the items that the
//! driver returns.

use vstd::prelude::*;
use vstd::utf8::encode_utf8;

use crate::dedup::{
    fresh, law_decisions_keep_identity, law_echo_is_suppressed, local_step, remote_step,
    serial_after, LoopPrevention, LoopView,
};
use crate::hash::sha256_of;
use crate::item::{
    content_digest, law_item_is_known_by_its_primary, ClipboardItem, ItemView, RepView,
};
use crate::protocol::{
    decoded, encoded, law_encode_decode_roundtrip, result_view, ErrorView, Message,
    MessageView, ProtocolError,
};

verus! {

/// Events emitted by the clipboard subsystem for frontends.
#[derive(Debug, Clone, Copy, PartialEq, Eq, Structural)]
pub enum ClipboardEvent {
    /// Clipboard sync became enabled.
    Enabled,
    /// Clipboard sync became disabled.
    Disabled,
}

/// Whether clipboard sync is on.
#[derive(Debug, Clone, Copy, PartialEq, Eq, Structural)]
pub enum ClipboardStatus {
    Disabled,
    Enabled,
}

impl Default for ClipboardStatus {
    fn default() -> (status: Self)
        ensures
            status == ClipboardStatus::Disabled,
    {
        ClipboardStatus::Disabled
    }
}

/// What the owner of the clipboard watcher is to do.
#[derive(Debug, Clone, Copy, PartialEq, Eq, Structural)]
pub enum WatchAction {
    /// Leave it as it is.
    Keep,
    /// Start watching the local clipboard via the primary backend.
    Start,
    /// Stop watching.
    Stop,
}

/// What the driver knows.
#[verifier::ext_equal]
pub struct DriverView {
    pub enabled: bool,
    /// Total size cap for a single item.
    pub max_item_size: nat,
    /// Whether there is a backend to watch.
    pub has_backend: bool,
    /// Whether the local clipboard is being watched.
    pub watching: bool,
    pub loops: LoopView,
}

/// A driver that was not started yet.
pub open spec fn new_driver(
    enabled: bool,
    origin: Seq<u8>,
    max_item_size: nat,
    has_backend: bool,
) -> DriverView {
    DriverView { enabled, max_item_size, has_backend, watching: false, loops: fresh(origin) }
}

/// Start watching via the primary backend, if there is one and nothing is
/// watched yet.
pub open spec fn watched(s: DriverView) -> (WatchAction, DriverView) {
    if !s.watching && s.has_backend {
        (WatchAction::Start, DriverView { watching: true, ..s })
    } else {
        (WatchAction::Keep, s)
    }
}

/// What starting the driver does.
pub open spec fn started(s: DriverView) -> (WatchAction, DriverView) {
    if s.enabled {
        watched(s)
    } else {
        (WatchAction::Keep, s)
    }
}

/// What a request to enable or disable clipboard sync does. A request for what
/// is already so is ignored.
pub open spec fn switched(s: DriverView, enabled: bool) -> (
    Option<ClipboardEvent>,
    WatchAction,
    DriverView,
) {
    if s.enabled == enabled {
        (None, WatchAction::Keep, s)
    } else if enabled {
        let (action, after) = watched(DriverView { enabled: true, ..s });
        (Some(ClipboardEvent::Enabled), action, after)
    } else {
        (
            Some(ClipboardEvent::Disabled),
            WatchAction::Stop,
            DriverView { enabled: false, watching: false, ..s },
        )
    }
}

/// A local item as it is announced: with this machine's id and the next serial.
pub open spec fn stamped(s: DriverView, reps: Seq<RepView>) -> ItemView {
    ItemView { origin: s.loops.origin, serial: serial_after(s.loops.serial), reps }
}

/// What a change of the local clipboard does: the frame to broadcast, or why it
/// cannot be encoded, or nothing where sync is off or peers know the content.
pub open spec fn locally_changed(s: DriverView, reps: Seq<RepView>) -> (
    Option<Result<Seq<u8>, ErrorView>>,
    DriverView,
) {
    if !s.enabled {
        (None, s)
    } else {
        let numbered = LoopView { serial: serial_after(s.loops.serial), ..s.loops };
        let (broadcast, loops) = local_step(numbered, content_digest(reps));
        let after = DriverView { loops, ..s };
        if broadcast {
            (Some(encoded(stamped(s, reps), s.max_item_size)), after)
        } else {
            (None, after)
        }
    }
}

/// What a frame from a peer does: the item to apply to the local clipboard, or
/// nothing where the payload is not an announcement, sync is off, or the item
/// is our own or known.
pub open spec fn frame_arrived(s: DriverView, payload: Seq<u8>) -> (Option<ItemView>, DriverView) {
    match decoded(payload) {
        Ok(MessageView::Announce(item)) => if !s.enabled {
            (None, s)
        } else {
            let (apply, loops) = remote_step(s.loops, item.origin, content_digest(item.reps));
            if apply {
                (Some(item), DriverView { loops, ..s })
            } else {
                (None, DriverView { loops, ..s })
            }
        },
        Err(_) => (None, s),
    }
}

/// What an optional item says.
pub open spec fn opt_item_view(item: Option<ClipboardItem>) -> Option<ItemView> {
    match item {
        Some(i) => Some(i@),
        None => None,
    }
}

/// What an optional encoding result says.
pub open spec fn opt_frame_view(frame: Option<Result<Vec<u8>, ProtocolError>>) -> Option<
    Result<Seq<u8>, ErrorView>,
> {
    match frame {
        Some(r) => Some(result_view(r)),
        None => None,
    }
}

/// Loop prevention and the state of the local clipboard watcher.
pub struct ClipboardDriver {
    enabled: bool,
    max_item_size: usize,
    has_backend: bool,
    watching: bool,
    loop_prevention: LoopPrevention,
}

impl View for ClipboardDriver {
    type V = DriverView;

    closed spec fn view(&self) -> DriverView {
        DriverView {
            enabled: self.enabled,
            max_item_size: self.max_item_size as nat,
            has_backend: self.has_backend,
            watching: self.watching,
            loops: self.loop_prevention@,
        }
    }
}

impl ClipboardDriver {
    /// A driver for a machine with the given id, with at least one backend or
    /// without any.
    pub fn new(
        enabled: bool,
        origin: [u8; 8],
        max_item_size: usize,
        has_backend: bool,
    ) -> (driver: Self)
        ensures
            driver@ == new_driver(enabled, origin@, max_item_size as nat, has_backend),
    {
        Self {
            enabled,
            max_item_size,
            has_backend,
            watching: false,
            loop_prevention: LoopPrevention::new(origin),
        }
    }

    /// Whether clipboard sync is on.
    pub fn status(&self) -> (status: ClipboardStatus)
        ensures
            status == if self@.enabled {
                ClipboardStatus::Enabled
            } else {
                ClipboardStatus::Disabled
            },
    {
        if self.enabled {
            ClipboardStatus::Enabled
        } else {
            ClipboardStatus::Disabled
        }
    }

    /// Start the driver: watch the local clipboard, if sync is on.
    pub fn start(&mut self) -> (action: WatchAction)
        ensures
            (action, final(self)@) == started(old(self)@),
    {
        if self.enabled {
            self.ensure_watcher()
        } else {
            WatchAction::Keep
        }
    }

    /// Start watching the local clipboard via the primary backend, if not already.
    fn ensure_watcher(&mut self) -> (action: WatchAction)
        ensures
            (action, final(self)@) == watched(old(self)@),
    {
        if !self.watching && self.has_backend {
            self.watching = true;
            WatchAction::Start
        } else {
            WatchAction::Keep
        }
    }

    /// Enable/disable clipboard sync.
    pub fn set_enabled(&mut self, enabled: bool) -> (result: (Option<ClipboardEvent>, WatchAction))
        ensures
            (result.0, result.1, final(self)@) == switched(old(self)@, enabled),
    {
        if self.enabled == enabled {
            return (None, WatchAction::Keep);
        }
        self.enabled = enabled;
        if enabled {
            let action = self.ensure_watcher();
            (Some(ClipboardEvent::Enabled), action)
        } else {
            self.watching = false;
            (Some(ClipboardEvent::Disabled), WatchAction::Stop)
        }
    }

    /// The local clipboard changed. Stamps the item with this machine's id and
    /// the next serial and returns the frame to broadcast, if peers should
    /// receive it.
    pub fn local_change(&mut self, item: ClipboardItem) -> (frame: Option<
        Result<Vec<u8>, ProtocolError>,
    >)
        ensures
            (opt_frame_view(frame), final(self)@) == locally_changed(old(self)@, item@.reps),
    {
        if !self.enabled {
            return None;
        }
        let serial: u64 = self.loop_prevention.next_serial();
        let item = ClipboardItem { origin: self.loop_prevention.origin(), serial, reps: item.reps };
        assert(item@ =~= stamped(old(self)@, item@.reps));
        if self.loop_prevention.on_local_change(&item) {
            let max: usize = self.max_item_size;
            Some(Message::Announce(item).encode(max))
        } else {
            None
        }
    }

    /// A frame arrived from a peer. Returns the item that is to be set on the
    /// local clipboard and the history sinks, subject to loop prevention.
    pub fn inbound(&mut self, payload: &[u8]) -> (item: Option<ClipboardItem>)
        ensures
            (opt_item_view(item), final(self)@) == frame_arrived(old(self)@, payload@),
    {
        match Message::decode(payload) {
            Ok(Message::Announce(item)) => {
                if self.apply_remote(&item) {
                    Some(item)
                } else {
                    None
                }
            },
            Err(_) => None,
        }
    }

    /// Whether a remote item is to be applied, subject to loop prevention.
    fn apply_remote(&mut self, item: &ClipboardItem) -> (apply: bool)
        ensures
            !old(self)@.enabled ==> !apply && final(self)@ == old(self)@,
            old(self)@.enabled ==> ({
                let (yes, loops) = remote_step(
                    old(self)@.loops,
                    item@.origin,
                    content_digest(item@.reps),
                );
                apply == yes && final(self)@ == (DriverView { loops, ..old(self)@ })
            }),
    {
        if !self.enabled {
            return false;
        }
        self.loop_prevention.should_apply_remote(item)
    }
}

/// While sync is off, nothing is broadcast, nothing is applied, and nothing is
/// remembered.
pub proof fn law_disabled_driver_does_nothing(
    s: DriverView,
    reps: Seq<RepView>,
    payload: Seq<u8>,
)
    requires
        !s.enabled,
    ensures
        locally_changed(s, reps) == (None::<Result<Seq<u8>, ErrorView>>, s),
        frame_arrived(s, payload) == (None::<ItemView>, s),
        started(s) == (WatchAction::Keep, s),
{
}

/// What is broadcast decodes, on a peer, to the local content with this
/// machine's id and its next serial.
pub proof fn law_broadcast_is_the_stamped_item(s: DriverView, reps: Seq<RepView>, frame: Seq<u8>)
    requires
        s.loops.origin.len() == 8,
        locally_changed(s, reps).0 == Some(Ok::<Seq<u8>, ErrorView>(frame)),
    ensures
        decoded(frame.skip(4)) == Ok::<MessageView, ErrorView>(
            MessageView::Announce(stamped(s, reps)),
        ),
        locally_changed(s, reps).1.loops.serial == stamped(s, reps).serial,
{
    law_encode_decode_roundtrip(stamped(s, reps), s.max_item_size, frame);
    let numbered = LoopView { serial: serial_after(s.loops.serial), ..s.loops };
    law_decisions_keep_identity(numbered, s.loops.origin, content_digest(reps));
}

/// An item that was applied is not broadcast when the local clipboard reports
/// it back, even if only its primary representation survived.
pub proof fn law_applied_item_is_not_echoed(
    s: DriverView,
    payload: Seq<u8>,
    item: ItemView,
    echo: Seq<RepView>,
)
    requires
        frame_arrived(s, payload).0 == Some(item),
        echo == item.reps || (item.reps.len() > 0 && echo.len() > 0 && echo[0] == item.reps[0]),
    ensures
        locally_changed(frame_arrived(s, payload).1, echo).0 is None,
{
    law_echo_is_suppressed(s.loops, item.origin, content_digest(item.reps));
}

/// An announcement of our own is never applied.
pub proof fn law_own_announcement_is_ignored(s: DriverView, payload: Seq<u8>, item: ItemView)
    requires
        decoded(payload) == Ok::<MessageView, ErrorView>(MessageView::Announce(item)),
        item.origin == s.loops.origin,
    ensures
        frame_arrived(s, payload) == (None::<ItemView>, s),
{
}

/// A copy travels from one machine to another and stops there: what `a`
/// broadcasts, `b` applies unless it is `b`'s own or known there, `b` does not
/// broadcast the change that this makes on it, and `a` does not apply it when
/// `b` sends it back.
pub proof fn law_copy_travels_once(
    a: DriverView,
    b: DriverView,
    reps: Seq<RepView>,
    frame: Seq<u8>,
    back: Seq<u8>,
)
    requires
        a.loops.origin.len() == 8,
        a.loops.origin != b.loops.origin,
        a.enabled,
        b.enabled,
        locally_changed(a, reps).0 == Some(Ok::<Seq<u8>, ErrorView>(frame)),
        decoded(back) matches Ok(MessageView::Announce(item)) && item.reps == reps,
    ensures
        ({
            let (applied, after) = frame_arrived(b, frame.skip(4));
            &&& applied is Some <==> !(b.loops.last_local == Some(content_digest(reps))
                || b.loops.last_remote == Some(content_digest(reps)))
            &&& applied matches Some(item) ==> item == stamped(a, reps)
            &&& locally_changed(after, reps).0 is None
        }),
        frame_arrived(locally_changed(a, reps).1, back).0 is None,
{
    law_broadcast_is_the_stamped_item(a, reps, frame);
}

/// Switching sync on and off again reports both, watches in between, if there is
/// a backend to watch, and leaves the driver as it was.
pub proof fn law_switching(s: DriverView)
    requires
        !s.enabled,
        !s.watching,
    ensures
        ({
            let (on, start, between) = switched(s, true);
            let (off, stop, after) = switched(between, false);
            &&& on == Some(ClipboardEvent::Enabled)
            &&& start == if s.has_backend {
                WatchAction::Start
            } else {
                WatchAction::Keep
            }
            &&& between.watching == s.has_backend
            &&& off == Some(ClipboardEvent::Disabled)
            &&& stop == WatchAction::Stop
            &&& after == s
        }),
{
}

/// The local clipboard is watched only while sync is on.
pub open spec fn driver_inv(s: DriverView) -> bool {
    s.watching ==> s.enabled
}

/// Every step keeps the watcher off while sync is off.
pub proof fn law_watching_only_while_enabled(
    s: DriverView,
    enabled: bool,
    reps: Seq<RepView>,
    payload: Seq<u8>,
)
    requires
        driver_inv(s),
    ensures
        driver_inv(started(s).1),
        driver_inv(switched(s, enabled).2),
        driver_inv(locally_changed(s, reps).1),
        driver_inv(frame_arrived(s, payload).1),
{
}

/// When a local copy is broadcast: exactly if sync is on and its primary
/// representation is not the content that peers are known to have, that is the
/// last remote item, the last local one, or the echo that is still to come. What
/// is broadcast is the item's frame, with this machine's id and the next serial;
/// the serial counts every change while sync is on.
pub proof fn law_when_copies_are_broadcast(s: DriverView, rep: RepView, more: Seq<RepView>)
    ensures
        ({
            let reps = seq![rep] + more;
            let hash = sha256_of(encode_utf8(rep.0) + seq![0u8] + rep.1 + seq![0u8]);
            let (frame, after) = locally_changed(s, reps);
            &&& frame is Some <==> s.enabled && s.loops.pending != Some(hash) && s.loops.last_remote
                != Some(hash) && s.loops.last_local != Some(hash)
            &&& frame matches Some(f) ==> f == encoded(
                ItemView {
                    origin: s.loops.origin,
                    serial: if s.loops.serial == u64::MAX {
                        0
                    } else {
                        (s.loops.serial + 1) as u64
                    },
                    reps,
                },
                s.max_item_size,
            ) && after.loops.last_local == Some(hash)
            &&& s.enabled ==> after.loops.serial == serial_after(s.loops.serial)
                && after.loops.pending is None
            &&& after.enabled == s.enabled
            &&& after.watching == s.watching
            &&& after.max_item_size == s.max_item_size
            &&& after.has_backend == s.has_backend
            &&& after.loops.last_remote == s.loops.last_remote
            &&& after.loops.origin == s.loops.origin
        }),
{
    let reps = seq![rep] + more;
    assert(reps[0] == rep);
    law_item_is_known_by_its_primary(reps);
}

/// Two copies in a row are both broadcast where their primary representations
/// have different hashes, as all different ones do unless the digest collides,
/// and the second is not the last remote item.
pub proof fn law_every_new_copy_is_broadcast(
    s: DriverView,
    first: RepView,
    second: RepView,
)
    requires
        locally_changed(s, seq![first]).0 is Some,
        sha256_of(encode_utf8(first.0) + seq![0u8] + first.1 + seq![0u8]) != sha256_of(
            encode_utf8(second.0) + seq![0u8] + second.1 + seq![0u8],
        ),
        s.loops.last_remote != Some(
            sha256_of(encode_utf8(second.0) + seq![0u8] + second.1 + seq![0u8]),
        ),
    ensures
        locally_changed(locally_changed(s, seq![first]).1, seq![second]).0 is Some,
{
    law_item_is_known_by_its_primary(seq![first]);
    law_item_is_known_by_its_primary(seq![second]);
}

/// When a frame from a peer is applied: exactly if sync is on, it is an
/// announcement of another machine, and its content is neither that of the last
/// remote item nor that of the last local one. What is applied is the announced
/// item, whole; what is not applied changes nothing.
pub proof fn law_when_frames_are_applied(s: DriverView, payload: Seq<u8>, item: ItemView)
    ensures
        ({
            let hash = content_digest(item.reps);
            let (applied, after) = frame_arrived(s, payload);
            &&& decoded(payload) == Ok::<MessageView, ErrorView>(MessageView::Announce(item)) ==> {
                &&& applied is Some <==> s.enabled && item.origin != s.loops.origin
                    && s.loops.last_remote != Some(hash) && s.loops.last_local != Some(hash)
                &&& applied matches Some(a) ==> a == item && after.loops.last_remote == Some(hash)
                    && after.loops.pending == Some(hash)
            }
            &&& decoded(payload) is Err ==> applied is None
            &&& applied is None ==> after == s
            &&& after.enabled == s.enabled
            &&& after.watching == s.watching
            &&& after.loops.serial == s.loops.serial
            &&& after.loops.origin == s.loops.origin
            &&& after.loops.last_local == s.loops.last_local
        }),
{
}

/// What switching does: an event exactly if something changes, and the right one;
/// the watcher starts where there is a backend to watch and none is watched yet,
/// and stops when sync goes off. What is remembered of items stays.
pub proof fn law_what_switching_does(s: DriverView, enabled: bool)
    ensures
        ({
            let (event, action, after) = switched(s, enabled);
            &&& event == if s.enabled == enabled {
                None
            } else if enabled {
                Some(ClipboardEvent::Enabled)
            } else {
                Some(ClipboardEvent::Disabled)
            }
            &&& action == WatchAction::Start <==> !s.enabled && enabled && !s.watching
                && s.has_backend
            &&& action == WatchAction::Stop <==> s.enabled && !enabled
            &&& after.enabled == enabled
            &&& s.enabled == enabled ==> after == s
            &&& action == WatchAction::Start ==> after.watching
            &&& action == WatchAction::Stop ==> !after.watching
            &&& action == WatchAction::Keep ==> after.watching == s.watching
            &&& after.loops == s.loops
            &&& after.max_item_size == s.max_item_size
            &&& after.has_backend == s.has_backend
        }),
{
}

/// Starting a driver watches the clipboard exactly if sync is on and there is a
/// backend to watch that is not watched yet; it changes nothing else.
pub proof fn law_what_starting_does(s: DriverView)
    ensures
        ({
            let (action, after) = started(s);
            &&& action == WatchAction::Start <==> s.enabled && !s.watching && s.has_backend
            &&& action != WatchAction::Start ==> action == WatchAction::Keep && after == s
            &&& action == WatchAction::Start ==> after == (DriverView { watching: true, ..s })
        }),
{
}

/// A new driver is on or off as asked, watches nothing, and knows nothing of what
/// it will see.
pub proof fn law_new_drivers(enabled: bool, origin: Seq<u8>, max: nat, has_backend: bool)
    ensures
        ({
            let s = new_driver(enabled, origin, max, has_backend);
            &&& s.enabled == enabled
            &&& s.max_item_size == max
            &&& s.has_backend == has_backend
            &&& !s.watching
            &&& s.loops.origin == origin
            &&& s.loops.serial == 0
            &&& s.loops.last_local is None
            &&& s.loops.last_remote is None
            &&& s.loops.pending is None
        }),
{
}

} // verus!
