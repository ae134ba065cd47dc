use lan_mouse_clipboard::clipboard::{
    ClipboardDriver, ClipboardEvent, ClipboardStatus, WatchAction,
};
use lan_mouse_clipboard::item::ClipboardItem;
use lan_mouse_clipboard::protocol::Message;
use lan_mouse_clipboard::test_util::Rng;

fn driver(enabled: bool, origin: [u8; 8]) -> ClipboardDriver {
    let mut driver = ClipboardDriver::new(enabled, origin, 1024, true);
    driver.start();
    driver
}

fn announce(item: ClipboardItem) -> Vec<u8> {
    Message::Announce(item).encode(1024).unwrap()[4..].to_vec()
}

#[test]
fn set_enabled_emits_event() {
    let mut clip = ClipboardDriver::new(false, [0xAA; 8], 64 * 1024 * 1024, true);
    let (ev, _) = clip.set_enabled(true);
    assert_eq!(ev, Some(ClipboardEvent::Enabled));
}

#[test]
fn inbound_frame_is_applied_to_backend() {
    let mut clip = ClipboardDriver::new(true, [0xAA; 8], 64 * 1024 * 1024, true);
    let item = ClipboardItem::text("remote", [0xBB; 8], 1);
    let frame = Message::Announce(item.clone()).encode(1024).unwrap();
    let payload = frame[4..].to_vec();
    assert_eq!(clip.inbound(&payload), Some(item));
}

#[test]
fn local_change_is_broadcast_with_origin_and_serial() {
    let mut drv = driver(true, [0xAA; 8]);
    let frame = drv
        .local_change(ClipboardItem::text("hi", [0; 8], 0))
        .expect("broadcast")
        .expect("encoded");
    let payload = &frame[4..];
    match Message::decode(payload).unwrap() {
        Message::Announce(item) => {
            assert_eq!(item.origin, [0xAA; 8]);
            assert!(item.serial >= 1, "serial should be allocated");
            assert_eq!(item.text_plain().as_deref(), Some("hi"));
        }
    }
}

#[test]
fn remote_change_is_applied_and_echo_is_suppressed() {
    let mut drv = driver(true, [0xAA; 8]);

    let remote = ClipboardItem::text("hi", [0xBB; 8], 1);
    let set = drv.inbound(&announce(remote));
    assert_eq!(set.and_then(|i| i.text_plain()).as_deref(), Some("hi"));

    // The local backend echoes the same content back; it must not be
    // re-broadcast (loop prevention).
    assert!(
        drv.local_change(ClipboardItem::text("hi", [0; 8], 0)).is_none(),
        "echo of a remote item must be suppressed"
    );
}

#[test]
fn random_remote_changes_are_applied_and_echoes_suppressed() {
    let mut rng = Rng::new(0x5000);
    for _ in 0..50 {
        let mut drv = driver(true, [0xAA; 8]);
        let payload = format!("random-{}", rng.next());
        let remote = ClipboardItem::text(&payload, [0xBB; 8], 1);
        let set = drv.inbound(&announce(remote));
        assert_eq!(
            set.and_then(|i| i.text_plain()).as_deref(),
            Some(payload.as_str())
        );

        // Echo of the same content must be suppressed (no broadcast).
        assert!(
            drv.local_change(ClipboardItem::text(&payload, [0; 8], 0)).is_none(),
            "random echo must be suppressed"
        );
    }
}

#[test]
fn self_origin_remote_is_ignored() {
    let mut drv = driver(true, [0xAA; 8]);
    let item = ClipboardItem::text("mine", [0xAA; 8], 1);
    assert_eq!(
        drv.inbound(&announce(item)),
        None,
        "self-origin must not be applied"
    );
}

#[test]
fn disabled_driver_ignores_remote_and_local() {
    let mut drv = driver(false, [0xAA; 8]);
    let remote = ClipboardItem::text("x", [0xBB; 8], 1);
    assert_eq!(
        drv.inbound(&announce(remote)),
        None,
        "disabled driver must not apply"
    );
    assert!(
        drv.local_change(ClipboardItem::text("y", [0; 8], 0)).is_none(),
        "disabled driver must not broadcast"
    );
    assert_eq!(drv.status(), ClipboardStatus::Disabled);
}

#[test]
fn enable_then_disable_emits_both_events() {
    let mut clip = ClipboardDriver::new(false, [0xAA; 8], 64 * 1024 * 1024, true);
    assert_eq!(
        clip.set_enabled(true),
        (Some(ClipboardEvent::Enabled), WatchAction::Start)
    );
    assert_eq!(clip.status(), ClipboardStatus::Enabled);
    assert_eq!(
        clip.set_enabled(false),
        (Some(ClipboardEvent::Disabled), WatchAction::Stop)
    );
    assert_eq!(clip.set_enabled(false), (None, WatchAction::Keep));
}

#[test]
fn watching_starts_with_an_enabled_driver_that_has_a_backend() {
    let mut on = ClipboardDriver::new(true, [1; 8], 10, true);
    assert_eq!(on.start(), WatchAction::Start);
    assert_eq!(on.start(), WatchAction::Keep);
    let mut off = ClipboardDriver::new(false, [1; 8], 10, true);
    assert_eq!(off.start(), WatchAction::Keep);
    let mut bare = ClipboardDriver::new(true, [1; 8], 10, false);
    assert_eq!(bare.start(), WatchAction::Keep);
    assert_eq!(ClipboardStatus::default(), ClipboardStatus::Disabled);
}

#[test]
fn an_item_that_does_not_fit_is_reported() {
    let mut drv = ClipboardDriver::new(true, [1; 8], 10, true);
    let err = drv
        .local_change(ClipboardItem::text("too long", [0; 8], 0))
        .expect("wanted")
        .err()
        .expect("too large");
    assert_eq!(err.message(), "item too large: 32 bytes exceeds cap of 10");
}

#[test]
fn garbage_from_peers_is_ignored() {
    let mut drv = driver(true, [1; 8]);
    assert_eq!(drv.inbound(&[]), None);
    assert_eq!(drv.inbound(&[2]), None);
    assert_eq!(drv.inbound(&[1, 2, 3]), None);
}

#[test]
fn a_copy_travels_once() {
    let mut a = driver(true, [1; 8]);
    let mut b = driver(true, [2; 8]);
    let local = ClipboardItem {
        origin: [0; 8],
        serial: 0,
        reps: vec![
            ("image/png".into(), vec![1, 2, 3]),
            ("text/plain".into(), b"alt".to_vec()),
        ],
    };
    let frame = a.local_change(local).expect("broadcast").expect("encoded");
    let item = b.inbound(&frame[4..]).expect("applied");
    assert_eq!((item.origin, item.serial), ([1; 8], 1));
    // Only the primary representation comes back from b's clipboard.
    let mut echo = item.clone();
    echo.reps.truncate(1);
    assert!(b.local_change(echo.clone()).is_none());
    echo.origin = [2; 8];
    assert_eq!(a.inbound(&announce(echo)), None);
    // A second copy of something else gets the next serial.
    let next = a
        .local_change(ClipboardItem::text("next", [0; 8], 0))
        .expect("broadcast")
        .expect("encoded");
    assert_eq!(b.inbound(&next[4..]).expect("applied").serial, 2);
}
