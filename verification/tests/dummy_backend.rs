//! Unit tests for the in-memory `DummyBackend`.
//!
//! The dummy backend is itself a test double for real OS clipboard
//! backends, so these tests pin down its observable contract: writes are
//! stored, reads reflect the latest write, and the watch stream surfaces
//! pushed changes exactly once.

use lan_mouse_clipboard::backend::dummy::{DummyBackend, WatchPoll};
use lan_mouse_clipboard::backend::BackendError;
use lan_mouse_clipboard::item::{ClipboardChange, ClipboardItem};

fn text_item(s: &str) -> ClipboardItem {
    ClipboardItem::text(s, [0x11; 8], 1)
}

#[test]
fn new_backend_starts_empty() {
    let b = DummyBackend::new();
    assert!(b.current().is_none());
}

#[test]
fn read_current_returns_none_when_empty() {
    let b = DummyBackend::new();
    assert!(b.read_current().is_none());
}

#[test]
fn set_stores_item_that_read_current_returns() {
    let mut b = DummyBackend::new();
    let item = text_item("hello");
    b.set(&item).expect("set should succeed");
    let got = b.read_current().expect("should read back");
    assert_eq!(got.text_plain().as_deref(), Some("hello"));
    assert_eq!(
        b.current().as_ref().and_then(|i| i.text_plain()).as_deref(),
        Some("hello")
    );
}

#[test]
fn push_records_latest_and_keeps_order() {
    let mut b = DummyBackend::new();
    b.push(text_item("first"));
    b.push(text_item("second"));
    assert_eq!(
        b.current().and_then(|i| i.text_plain()).as_deref(),
        Some("second")
    );
    let watch = b.watch();
    assert_eq!(
        b.poll(&watch),
        WatchPoll::Ready(ClipboardChange::New(text_item("first")))
    );
    assert_eq!(
        b.poll(&watch),
        WatchPoll::Ready(ClipboardChange::New(text_item("second")))
    );
    assert_eq!(b.poll(&watch), WatchPoll::Pending);
}

#[test]
fn watch_yields_pushed_changes() {
    let mut b = DummyBackend::new();
    let watch = b.watch();
    b.push(text_item("one"));
    let first = b.poll(&watch);
    assert!(matches!(first, WatchPoll::Ready(ClipboardChange::New(_))));
}

#[test]
fn watch_is_single_shot() {
    let mut b = DummyBackend::new();
    let first = b.watch();
    b.push(text_item("once"));
    assert!(matches!(
        b.poll(&first),
        WatchPoll::Ready(ClipboardChange::New(_))
    ));
    // A second watch cannot re-consume the same receiver.
    let second = b.watch();
    b.push(text_item("twice"));
    assert_eq!(b.poll(&second), WatchPoll::Ended);
}

#[test]
fn set_accepts_empty_item_without_error() {
    let mut b = DummyBackend::new();
    let item = ClipboardItem {
        origin: [0; 8],
        serial: 0,
        reps: vec![],
    };
    let res: Result<(), BackendError> = b.set(&item);
    assert!(res.is_ok());
}

#[test]
fn setting_is_no_change_to_report() {
    let mut b = DummyBackend::default();
    let watch = b.watch();
    b.set(&text_item("set")).expect("set");
    assert_eq!(b.poll(&watch), WatchPoll::Pending);
    assert_eq!(b.name(), "dummy");
}
