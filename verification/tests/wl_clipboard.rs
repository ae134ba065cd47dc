use lan_mouse_clipboard::backend::wl_clipboard::{
    is_transferable_type, select_types, RepCollector, WatchEvent, WatchNext, WlClipboardBackend,
    MAX_REPS,
};
use lan_mouse_clipboard::item::{ClipboardItem, DEFAULT_MAX_ITEM_SIZE};
use lan_mouse_clipboard::protocol::Message;
use lan_mouse_clipboard::test_util::Rng;

#[test]
fn transferable_types_filter_protocol_targets() {
    assert!(is_transferable_type("image/png"));
    assert!(is_transferable_type("text/plain;charset=utf-8"));
    assert!(is_transferable_type("UTF8_STRING"));
    assert!(!is_transferable_type("TARGETS"));
    assert!(!is_transferable_type("MULTIPLE"));
    assert!(!is_transferable_type("TIMESTAMP"));
    assert!(!is_transferable_type("SAVE_TARGETS"));
    assert!(!is_transferable_type("OWNER_OS"));
    assert!(!is_transferable_type("COMPOUND_TEXT"));
}

#[test]
fn transferable_types_accept_legacy_targets_case_insensitively() {
    assert!(is_transferable_type("utf8_string"));
    assert!(is_transferable_type("String"));
    assert!(is_transferable_type("text"));
    assert!(!is_transferable_type("targets"));
}

#[test]
fn select_types_keeps_offered_order_and_dedupes() {
    let raw = "text/plain;charset=utf-8\ntext/plain\nTARGETS\nMULTIPLE\n\
               text/plain;charset=utf-8\nTEXT\nSTRING\nUTF8_STRING\n";
    // MIME types present -> X11 aliases dropped; duplicates collapse.
    assert_eq!(
        select_types(raw),
        vec![
            "text/plain;charset=utf-8".to_string(),
            "text/plain".to_string()
        ]
    );
}

#[test]
fn select_types_preserves_sender_order_for_images() {
    let raw = "text/html\nimage/png\nimage/bmp\ntext/plain\n";
    assert_eq!(
        select_types(raw),
        vec![
            "text/html".to_string(),
            "image/png".to_string(),
            "image/bmp".to_string(),
            "text/plain".to_string()
        ]
    );
}

#[test]
fn select_types_falls_back_to_x11_text_aliases() {
    let raw = "TARGETS\nUTF8_STRING\nSTRING\nTEXT\n";
    assert_eq!(
        select_types(raw),
        vec![
            "UTF8_STRING".to_string(),
            "STRING".to_string(),
            "TEXT".to_string()
        ]
    );
}

#[test]
fn select_types_ignores_empty_and_protocol_only() {
    assert!(select_types("").is_empty());
    assert!(select_types("TARGETS\nMULTIPLE\nTIMESTAMP\n").is_empty());
}

#[test]
fn select_types_folds_case_and_trims() {
    assert_eq!(
        select_types("  Text/HTML \r\ntext/html\nTEXT/plain\n\n"),
        vec!["Text/HTML".to_string(), "TEXT/plain".to_string()]
    );
    assert_eq!(select_types("text\nTEXT\n"), vec!["text".to_string()]);
}

/// Runs the decisions of a read: the listed types, then what each holds.
fn read_selection(
    backend: &WlClipboardBackend,
    listing: &[u8],
    contents: &[u8],
) -> Option<ClipboardItem> {
    let types = backend.listed_types(true, listing)?;
    let max = backend.max_item_size();
    let mut collector = RepCollector::new(max);
    for mime in types {
        let data = WlClipboardBackend::read_rep(true, contents.to_vec(), max, true);
        if !collector.offer(mime, data) {
            break;
        }
    }
    collector.finish()
}

fn text_item(s: &str) -> ClipboardItem {
    ClipboardItem::text(s, [0x22; 8], 1)
}

#[test]
fn wl_clipboard_set_then_read_roundtrips() {
    // What "wl-copy" is given is what "wl-paste" gives back.
    let backend = WlClipboardBackend::default();
    assert!(read_selection(&backend, b"", b"").is_none());

    let item = text_item("from wl-copy");
    let (mime, data) = backend.copy_request(&item).expect("set");
    let got = read_selection(&backend, mime.as_bytes(), data).expect("read back");
    assert_eq!(got.text_plain().as_deref(), Some("from wl-copy"));
}

#[test]
fn wl_clipboard_random_text_roundtrips() {
    let backend = WlClipboardBackend::default();
    let mut rng = Rng::new(0xCAFE);
    for _ in 0..50 {
        let len = 1 + rng.range(256);
        let s: String = (0..len)
            .map(|_| (rng.next() % 26 + 65) as u8 as char)
            .collect();
        let item = text_item(&s);
        let (mime, data) = backend.copy_request(&item).expect("set");
        let got = read_selection(&backend, mime.as_bytes(), data).expect("read back");
        assert_eq!(got.text_plain().as_deref(), Some(s.as_str()));
    }
}

#[test]
fn an_item_without_representations_is_not_copied() {
    let backend = WlClipboardBackend::new(10);
    let item = ClipboardItem {
        origin: [0; 8],
        serial: 0,
        reps: vec![],
    };
    let err = backend.copy_request(&item).err().expect("must error");
    assert_eq!(err.message(), "operation failed: item has no representations");
    assert!(WlClipboardBackend::copy_outcome(true, "exit status: 0").is_ok());
    assert_eq!(
        WlClipboardBackend::copy_outcome(false, "exit status: 1")
            .err()
            .expect("must error")
            .message(),
        "operation failed: wl-copy failed: exit status: 1"
    );
    assert_eq!(backend.name(), "wl-clipboard");
}

#[test]
fn the_primary_representation_is_copied_whatever_it_is() {
    let backend = WlClipboardBackend::new(10);
    let item = ClipboardItem {
        origin: [0; 8],
        serial: 0,
        reps: vec![
            ("image/png".into(), vec![1, 2, 3]),
            ("text/plain".into(), b"alt".to_vec()),
        ],
    };
    assert_eq!(
        backend.copy_request(&item).expect("copied"),
        &("image/png".to_string(), vec![1u8, 2, 3])
    );
}

#[test]
fn a_failed_or_empty_listing_reads_nothing() {
    let backend = WlClipboardBackend::new(10);
    assert_eq!(backend.listed_types(false, b"text/plain\n"), None);
    assert_eq!(backend.listed_types(true, b"TARGETS\n"), None);
    assert_eq!(
        backend.types_to_read(true, "text/plain\n"),
        Some(vec!["text/plain".to_string()])
    );
    // Malformed bytes spoil their own line only.
    assert_eq!(
        backend.listed_types(true, b"\xff\ntext/plain\n"),
        Some(vec!["text/plain".to_string()])
    );
}

#[test]
fn reads_are_bounded() {
    assert_eq!(WlClipboardBackend::read_limit(0), None);
    assert_eq!(WlClipboardBackend::read_limit(100), Some(101));
    assert!(WlClipboardBackend::keep_reading(true, 100, 100));
    assert!(!WlClipboardBackend::keep_reading(true, 101, 100));
    assert!(!WlClipboardBackend::keep_reading(false, 1, 100));
    assert_eq!(
        WlClipboardBackend::read_rep(true, vec![1, 2], 2, true),
        Some(vec![1, 2])
    );
    assert_eq!(WlClipboardBackend::read_rep(true, vec![1, 2, 3], 2, true), None);
    assert_eq!(WlClipboardBackend::read_rep(true, vec![1], 2, false), None);
    assert_eq!(WlClipboardBackend::read_rep(false, vec![1], 2, true), None);
}

#[test]
fn collecting_stops_at_the_cap() {
    let mut collector = RepCollector::new(20);
    assert!(collector.offer("a/b".into(), Some(vec![0; 7])));
    assert!(collector.offer("c/d".into(), None));
    assert!(collector.offer("e/f".into(), Some(vec![])));
    // Exactly at the cap is within it.
    assert!(collector.offer("g/h".into(), Some(vec![1; 7])));
    assert!(!collector.offer("i/j".into(), Some(vec![1])));
    assert!(!collector.offer("".into(), Some(vec![1])));
    let item = collector.finish().expect("item");
    assert_eq!(
        item.reps,
        vec![("a/b".to_string(), vec![0; 7]), ("g/h".to_string(), vec![1; 7])]
    );
    assert_eq!(item.origin, [0; 8]);
    assert_eq!(item.serial, 0);
    assert!(Message::Announce(item).encode(20).is_ok());
}

#[test]
fn an_oversized_first_representation_skips_the_item() {
    let mut collector = RepCollector::new(5);
    assert!(!collector.offer("a/b".into(), Some(vec![0; 3])));
    assert!(!collector.offer("a".into(), Some(vec![0; 1])));
    assert!(collector.finish().is_none());
    assert!(RepCollector::new(5).finish().is_none());
}

#[test]
fn at_most_so_many_representations_are_read() {
    let mut collector = RepCollector::new(10_000);
    let mut taken = 0;
    while collector.offer(format!("a/{taken}"), Some(vec![1])) {
        taken += 1;
        assert!(taken <= 1000);
    }
    assert_eq!(taken, MAX_REPS);
    assert_eq!(collector.finish().expect("item").reps.len(), 64);
}

#[test]
fn the_watcher_is_kept_running() {
    assert_eq!(
        WlClipboardBackend::watch_next(WatchEvent::SpawnFailed),
        WatchNext::Respawn(2000)
    );
    assert_eq!(
        WlClipboardBackend::watch_next(WatchEvent::OutputEnded),
        WatchNext::Respawn(500)
    );
    assert_eq!(
        WlClipboardBackend::watch_next(WatchEvent::Changed),
        WatchNext::ReadCurrent
    );
    assert_eq!(WlClipboardBackend::watch_next(WatchEvent::NoOutput), WatchNext::Quit);
    assert_eq!(
        WlClipboardBackend::watch_next(WatchEvent::ReceiverGone),
        WatchNext::Quit
    );
}

#[test]
fn the_default_cap_is_that_of_items() {
    assert_eq!(WlClipboardBackend::default().max_item_size(), DEFAULT_MAX_ITEM_SIZE);
    assert_eq!(WlClipboardBackend::new(7).max_item_size(), 7);
}

#[test]
fn a_copied_image_reads_back_with_the_same_hash() {
    let backend = WlClipboardBackend::default();
    let item = ClipboardItem {
        origin: [7; 8],
        serial: 3,
        reps: vec![
            ("image/png".into(), vec![1, 2, 3]),
            ("text/plain".into(), b"alt".to_vec()),
        ],
    };
    let (mime, data) = backend.copy_request(&item).expect("set");
    for listing in ["image/png", "image/png\n"] {
        let got = read_selection(&backend, listing.as_bytes(), data).expect("read back");
        assert_eq!(got.reps, vec![(mime.clone(), data.clone())]);
        assert_eq!(got.content_hash(), item.content_hash());
    }
}
