use lan_mouse_clipboard::backend::cliphist::ClipHistBackend;
use lan_mouse_clipboard::backend::dbus_klipper::{
    dbus_send, read_dbus_text, text_item, text_of_reply, DbusClipboardBackend, DbusWatch,
};
use lan_mouse_clipboard::item::{ClipboardChange, ClipboardItem};
use lan_mouse_clipboard::test_util::Rng;

fn text_of(change: ClipboardChange) -> Option<String> {
    match change {
        ClipboardChange::New(item) => item.text_plain(),
    }
}

/// What `dbus-send` prints for a clipboard that holds `text`.
fn reply(text: &str) -> Vec<u8> {
    format!("   string \"{text}\"\n").into_bytes()
}

fn image_primary_item() -> ClipboardItem {
    ClipboardItem {
        origin: [0; 8],
        serial: 0,
        reps: vec![
            ("image/png".into(), vec![0x89, 0x50, 0x4e, 0x47]),
            ("text/plain".into(), b"alt text".to_vec()),
        ],
    }
}

#[test]
fn dbus_reads_and_writes_plain_text() {
    let backend = DbusClipboardBackend::new("klipper");

    let read = backend
        .read_current(read_dbus_text(true, &reply("from klipper")))
        .expect("read");
    assert_eq!(read.primary_mime(), Some("text/plain;charset=utf-8"));
    assert_eq!(read.text_plain().as_deref(), Some("from klipper"));

    let arg = backend
        .set_argument(&ClipboardItem::text("to klipper", [0; 8], 0))
        .expect("set");
    assert_eq!(arg, "string:to klipper");
    assert_eq!(backend.name(), "klipper");
}

#[test]
fn dbus_set_skips_a_non_text_primary() {
    let backend = DbusClipboardBackend::new("dbus");
    assert!(
        backend.set_argument(&image_primary_item()).is_none(),
        "rich primary must not be written"
    );
}

#[test]
fn dbus_watch_emits_the_first_read_then_changes() {
    let mut watch = DbusWatch::new();
    let first = watch
        .observe(read_dbus_text(true, &reply("first")))
        .expect("a first change must be reported");
    assert_eq!(text_of(first).as_deref(), Some("first"));
    assert!(watch.observe(read_dbus_text(true, &reply("first"))).is_none());
    assert!(watch.observe(None).is_none());

    let second = watch
        .observe(read_dbus_text(true, &reply("second")))
        .expect("a changed value must be reported");
    assert_eq!(text_of(second).as_deref(), Some("second"));
}

#[test]
fn a_failed_call_reads_nothing() {
    assert_eq!(read_dbus_text(false, &reply("x")), None);
    assert_eq!(text_of_reply(true, "string \"y\""), Some("y".to_string()));
    assert_eq!(text_of_reply(true, "nothing"), None);
    let backend = DbusClipboardBackend::new("dbus");
    assert!(backend.read_current(None).is_none());
}

#[test]
fn malformed_text_is_replaced() {
    let item = ClipboardItem {
        origin: [0; 8],
        serial: 0,
        reps: vec![("TEXT/plain".into(), vec![b'a', 0xff, b'b'])],
    };
    let backend = DbusClipboardBackend::new("dbus");
    assert_eq!(
        backend.set_argument(&item),
        Some("string:a\u{fffd}b".to_string())
    );
    assert_eq!(
        read_dbus_text(true, b"string \"a\xffb\""),
        Some("a\u{fffd}b".to_string())
    );
}

#[test]
fn both_plain_text_types_are_written() {
    let backend = DbusClipboardBackend::new("dbus");
    for mime in ["text/plain", "Text/Plain;Charset=UTF-8"] {
        let item = ClipboardItem {
            origin: [0; 8],
            serial: 0,
            reps: vec![(mime.into(), b"x".to_vec())],
        };
        assert_eq!(backend.set_argument(&item), Some("string:x".to_string()));
    }
    let html = ClipboardItem {
        origin: [0; 8],
        serial: 0,
        reps: vec![("text/html".into(), b"x".to_vec())],
    };
    assert_eq!(backend.set_argument(&html), None);
    let empty = ClipboardItem {
        origin: [0; 8],
        serial: 0,
        reps: vec![],
    };
    assert_eq!(backend.set_argument(&empty), None);
}

#[test]
fn dbus_send_arguments() {
    assert_eq!(
        dbus_send("getClipboardContents"),
        vec![
            "--session".to_string(),
            "--print-reply".to_string(),
            "--dest=org.kde.klipper".to_string(),
            "/klipper".to_string(),
            "org.kde.klipper.klipper.getClipboardContents".to_string(),
        ]
    );
    assert_eq!(text_item("t"), ClipboardItem::text("t", [0; 8], 0));
    assert!(DbusClipboardBackend::set_outcome(true, "").is_ok());
    assert_eq!(
        DbusClipboardBackend::set_outcome(false, "exit status: 1")
            .err()
            .expect("must error")
            .message(),
        "operation failed: dbus-send failed: exit status: 1"
    );
}

#[test]
fn cliphist_set_writes_stdin_with_mime() {
    let backend = ClipHistBackend::new();
    let item = ClipboardItem::text("cliphist payload", [0x22; 8], 1);
    let (mime, data) = backend.store_request(&item).expect("set");
    assert_eq!(data, b"cliphist payload");
    assert_eq!(mime, "text/plain;charset=utf-8");
    // cliphist is a sink: it never reads.
    assert!(backend.read_current().is_none());
    assert_eq!(backend.name(), "cliphist");
}

#[test]
fn cliphist_set_empty_item_is_noop() {
    let backend = ClipHistBackend::default();
    let item = ClipboardItem {
        origin: [0; 8],
        serial: 0,
        reps: vec![],
    };
    assert!(backend.store_request(&item).is_none(), "noop ok");
}

#[test]
fn cliphist_random_bytes_are_stored() {
    let backend = ClipHistBackend::new();
    let mut rng = Rng::new(0xBEE2);
    for _ in 0..50 {
        let len = 1 + rng.range(256);
        let data: Vec<u8> = (0..len).map(|_| rng.next() as u8).collect();
        let item = ClipboardItem {
            origin: [0; 8],
            serial: 1,
            reps: vec![("application/octet-stream".into(), data.clone())],
        };
        let stored = backend.store_request(&item).expect("set");
        assert_eq!(stored.1, data, "stored bytes must match");
    }
}

#[test]
fn cliphist_normalizes_x11_targets_and_skips_the_rest() {
    let backend = ClipHistBackend::new();
    let with = |mime: &str| ClipboardItem {
        origin: [0; 8],
        serial: 0,
        reps: vec![(mime.into(), b"d".to_vec())],
    };
    assert_eq!(
        backend.store_request(&with("UTF8_STRING")),
        Some(("text/plain;charset=utf-8".to_string(), b"d".to_vec()))
    );
    assert_eq!(
        backend.store_request(&with("image/png")),
        Some(("image/png".to_string(), b"d".to_vec()))
    );
    assert_eq!(backend.store_request(&with("TIMESTAMP")), None);
}
