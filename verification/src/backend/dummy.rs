//! In-memory backend used for testing and as a safe fallback.

use vstd::prelude::*;

use crate::backend::BackendError;
use crate::clipboard::opt_item_view;
use crate::item::{ClipboardChange, ClipboardItem, ItemView};

verus! {

/// What the in-memory backend holds.
#[verifier::ext_equal]
pub struct DummyView {
    /// The item on the clipboard.
    pub current: Option<ItemView>,
    /// Changes that no watcher has seen yet, oldest first.
    pub pending: Seq<ItemView>,
    /// Whether the changes are being watched.
    pub watched: bool,
}

/// What clipboard changes say.
pub open spec fn changes_view(changes: Seq<ClipboardChange>) -> Seq<ItemView> {
    changes.map_values(|c: ClipboardChange| c@)
}

pub struct DummyBackend {
    current: Option<ClipboardItem>,
    pending: Vec<ClipboardChange>,
    watched: bool,
}

impl View for DummyBackend {
    type V = DummyView;

    closed spec fn view(&self) -> DummyView {
        DummyView {
            current: opt_item_view(self.current),
            pending: changes_view(self.pending@),
            watched: self.watched,
        }
    }
}

/// A watch of the changes. Only the first one of a backend sees any.
#[derive(Debug)]
pub struct DummyWatch {
    live: bool,
}

impl DummyWatch {
    /// Whether the watch sees changes.
    pub closed spec fn sees_changes(&self) -> bool {
        self.live
    }
}

/// What a watch has to report.
#[derive(Debug, PartialEq, Eq)]
pub enum WatchPoll {
    /// The next change.
    Ready(ClipboardChange),
    /// Nothing yet.
    Pending,
    /// Nothing, ever.
    Ended,
}

impl Default for DummyBackend {
    fn default() -> (backend: Self)
        ensures
            backend@ == (DummyView { current: None, pending: seq![], watched: false }),
    {
        Self::new()
    }
}

impl DummyBackend {
    pub fn new() -> (backend: Self)
        ensures
            backend@ == (DummyView { current: None, pending: seq![], watched: false }),
    {
        let backend = Self { current: None, pending: Vec::new(), watched: false };
        assert(backend@ =~= (DummyView { current: None, pending: seq![], watched: false }));
        backend
    }

    /// Human-readable backend name (for logs and config display).
    pub fn name(&self) -> (name: &'static str)
        ensures
            name@ == "dummy"@,
    {
        "dummy"
    }

    /// Simulate a local clipboard change for testing.
    pub fn push(&mut self, item: ClipboardItem)
        ensures
            final(self)@ == (DummyView {
                current: Some(item@),
                pending: old(self)@.pending.push(item@),
                ..old(self)@
            }),
    {
        let ghost before = self@.pending;
        self.current = Some(item.clone());
        self.pending.push(ClipboardChange::New(item));
        assert(self@.pending =~= before.push(item@));
    }

    /// The item on the clipboard.
    pub fn current(&self) -> (item: Option<ClipboardItem>)
        ensures
            opt_item_view(item) == self@.current,
    {
        match &self.current {
            Some(item) => Some(item.clone()),
            None => None,
        }
    }

    /// Read the current live clipboard item, if any.
    pub fn read_current(&self) -> (item: Option<ClipboardItem>)
        ensures
            opt_item_view(item) == self@.current,
    {
        self.current()
    }

    /// Write an item to the clipboard. Writing is no change to be reported.
    pub fn set(&mut self, item: &ClipboardItem) -> (result: Result<(), BackendError>)
        ensures
            result is Ok,
            final(self)@ == (DummyView { current: Some(item@), ..old(self)@ }),
    {
        self.current = Some(item.clone());
        Ok(())
    }

    /// Watch the local clipboard changes. Only the first watch sees any.
    pub fn watch(&mut self) -> (watch: DummyWatch)
        ensures
            watch.sees_changes() == !old(self)@.watched,
            final(self)@ == (DummyView { watched: true, ..old(self)@ }),
    {
        let live = !self.watched;
        self.watched = true;
        DummyWatch { live }
    }

    /// What a watch has to report next. Each change is reported once.
    pub fn poll(&mut self, watch: &DummyWatch) -> (poll: WatchPoll)
        ensures
            match poll {
                WatchPoll::Ready(change) => watch.sees_changes() && old(self)@.pending.len() > 0
                    && change@ == old(self)@.pending[0] && final(self)@ == (DummyView {
                    pending: old(self)@.pending.drop_first(),
                    ..old(self)@
                }),
                WatchPoll::Pending => watch.sees_changes() && old(self)@.pending.len() == 0
                    && final(self)@ == old(self)@,
                WatchPoll::Ended => !watch.sees_changes() && final(self)@ == old(self)@,
            },
    {
        if !watch.live {
            return WatchPoll::Ended;
        }
        if self.pending.len() == 0 {
            return WatchPoll::Pending;
        }
        let ghost before = self@.pending;
        let change = self.pending.remove(0);
        assert(self@.pending =~= before.drop_first());
        WatchPoll::Ready(change)
    }
}

} // verus!
