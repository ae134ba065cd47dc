use lan_mouse_clipboard::item::{
    is_image_mime, is_text_mime, is_x11_text_target, origin_from_digest, origin_from_fingerprint,
    rep_hash, rep_size, ClipboardChange, ClipboardItem, DEFAULT_MAX_ITEM_SIZE, MAX_ITEM_SIZE_LIMIT,
    MIME_IMAGE_PNG, MIME_TEXT_PLAIN,
};
use lan_mouse_clipboard::test_util::Rng;

#[test]
fn origin_from_fingerprint_is_stable_and_unique() {
    let a = origin_from_fingerprint("aa:bb:cc");
    let b = origin_from_fingerprint("aa:bb:cc");
    let c = origin_from_fingerprint("dd:ee:ff");
    assert_eq!(a, b);
    assert_ne!(a, c);
}

#[test]
fn text_roundtrip() {
    let item = ClipboardItem::text("hello", [1; 8], 1);
    assert_eq!(item.text_plain().as_deref(), Some("hello"));
    assert_eq!(item.reps[0].0, MIME_TEXT_PLAIN);
}

#[test]
fn content_hash_ignores_secondary_reps() {
    // The receiver advertises only the primary rep, so its echo carries a
    // single rep. Hashing the primary alone keeps broadcast and echo
    // hashes equal even when the sender bundles extra representations.
    let primary = ("image/png".to_string(), vec![1u8, 2, 3, 4]);
    let a = ClipboardItem {
        origin: [1; 8],
        serial: 1,
        reps: vec![primary.clone()],
    };
    let b = ClipboardItem {
        origin: [2; 8],
        serial: 9,
        reps: vec![
            primary,
            ("text/html".into(), b"<img>".to_vec()),
            ("text/plain".into(), b"alt".to_vec()),
        ],
    };
    assert_eq!(a.content_hash(), b.content_hash());
}

#[test]
fn content_hash_follows_the_primary_rep() {
    let a = ClipboardItem {
        origin: [1; 8],
        serial: 1,
        reps: vec![
            ("text/plain".into(), b"foo".to_vec()),
            ("text/html".into(), b"<b>foo</b>".to_vec()),
        ],
    };
    let b = a.clone();
    assert_eq!(a.content_hash(), b.content_hash());
    // A different primary rep changes the identity of what gets pasted.
    let c = ClipboardItem {
        origin: [1; 8],
        serial: 2,
        reps: vec![a.reps[1].clone(), a.reps[0].clone()],
    };
    assert_ne!(a.content_hash(), c.content_hash());
}

#[test]
fn primary_helpers_report_the_first_rep() {
    let item = ClipboardItem {
        origin: [0; 8],
        serial: 0,
        reps: vec![
            ("image/png".into(), vec![9, 9]),
            ("text/plain".into(), b"alt".to_vec()),
        ],
    };
    assert_eq!(item.primary_mime(), Some("image/png"));
    assert_eq!(
        item.primary().map(|(m, d)| (m.as_str(), d.len())),
        Some(("image/png", 2))
    );
    assert!(item.primary_is_image());
    assert!(!item.primary_is_text());
    assert!(ClipboardItem::text("t", [0; 8], 0).primary_is_text());
}

#[test]
fn text_and_image_mime_detection() {
    assert!(is_text_mime(MIME_TEXT_PLAIN));
    assert!(is_text_mime("TEXT/PLAIN"));
    assert!(is_text_mime("UTF8_STRING"));
    // The legacy X11 target match is case-insensitive everywhere.
    assert!(is_text_mime("utf8_string"));
    assert!(is_text_mime("string"));
    assert!(!is_text_mime(MIME_IMAGE_PNG));
    assert!(is_image_mime("image/jpeg"));
    assert!(is_image_mime("IMAGE/PNG"));
    assert!(!is_image_mime(MIME_TEXT_PLAIN));
}

#[test]
fn rep_size_and_hash_are_consistent_with_the_item() {
    let reps = vec![
        ("image/png".to_string(), vec![1u8, 2, 3]),
        ("text/plain".to_string(), b"hi".to_vec()),
    ];
    let item = ClipboardItem {
        origin: [0; 8],
        serial: 0,
        reps: reps.clone(),
    };
    let expected: usize = reps.iter().map(|(m, d)| rep_size(m, d)).sum();
    assert_eq!(item.total_size(), expected);
    // The primary hash is exactly the primary rep's hash.
    assert_eq!(item.content_hash(), rep_hash(&reps[0].0, &reps[0].1));
    assert_ne!(
        rep_hash(&reps[0].0, &reps[0].1),
        rep_hash(&reps[1].0, &reps[1].1)
    );
}

#[test]
fn total_size_counts_reps() {
    let item = ClipboardItem::text("abc", [0; 8], 0);
    assert_eq!(item.total_size(), "text/plain;charset=utf-8".len() + 3);
}

#[test]
fn text_plain_is_none_without_text_rep() {
    let item = ClipboardItem {
        origin: [0; 8],
        serial: 0,
        reps: vec![("image/png".into(), vec![1, 2, 3])],
    };
    assert_eq!(item.text_plain(), None);
}

#[test]
fn text_plain_is_none_for_invalid_utf8() {
    let item = ClipboardItem {
        origin: [0; 8],
        serial: 0,
        reps: vec![(MIME_TEXT_PLAIN.into(), vec![0xff, 0xfe, 0xfd])],
    };
    assert_eq!(item.text_plain(), None);
}

#[test]
fn text_plain_prefers_text_reps_in_order() {
    let item = ClipboardItem {
        origin: [0; 8],
        serial: 0,
        reps: vec![
            ("image/png".into(), vec![1, 2, 3]),
            ("TEXT/PLAIN".into(), b"pick me".to_vec()),
        ],
    };
    // Matching is case-insensitive and falls through non-text reps.
    assert_eq!(item.text_plain().as_deref(), Some("pick me"));
}

fn random_item(rng: &mut Rng, with_text: bool) -> ClipboardItem {
    let mut reps = Vec::new();
    let n = 1 + rng.range(5);
    for i in 0..n {
        let data: Vec<u8> = (0..rng.range(32)).map(|_| rng.next() as u8).collect();
        if with_text && i == 0 {
            reps.push((MIME_TEXT_PLAIN.into(), b"hello".to_vec()));
        } else {
            let mime = format!("application/x-{}", rng.range(1000));
            reps.push((mime, data));
        }
    }
    ClipboardItem {
        origin: [rng.next() as u8; 8],
        serial: rng.next(),
        reps,
    }
}

#[test]
fn content_hash_is_stable_across_random_items() {
    let mut rng = Rng::new(0xABCD);
    for _ in 0..200 {
        let item = random_item(&mut rng, true);
        let a = item.clone();
        assert_eq!(item.content_hash(), a.content_hash());
    }
}

#[test]
fn content_hash_differs_for_random_distinct_primaries() {
    let mut rng = Rng::new(0x1234);
    let mut seen = std::collections::HashSet::new();
    for i in 0..200u64 {
        // A unique primary rep identifies the item; random secondary reps
        // must not affect the hash.
        let mut reps = vec![("image/png".to_string(), i.to_be_bytes().to_vec())];
        for _ in 0..rng.range(4) {
            let data: Vec<u8> = (0..1 + rng.range(32)).map(|_| rng.next() as u8).collect();
            reps.push((format!("application/x-{}", rng.range(1000)), data));
        }
        let item = ClipboardItem {
            origin: [rng.next() as u8; 8],
            serial: rng.next(),
            reps,
        };
        assert!(
            seen.insert(item.content_hash()),
            "collision for primary {i}"
        );
    }
}

#[test]
fn total_size_matches_rep_sizes_for_random_items() {
    let mut rng = Rng::new(0xDEAD);
    for _ in 0..200 {
        let item = random_item(&mut rng, false);
        let expected: usize = item.reps.iter().map(|(m, d)| m.len() + d.len()).sum();
        assert_eq!(item.total_size(), expected);
    }
}

#[test]
fn hashes_are_sha256_of_the_delimited_bytes() {
    // SHA-256 of two zero bytes, which is what an empty representation hashes.
    let expected: [u8; 32] = [
        0x96, 0xa2, 0x96, 0xd2, 0x24, 0xf2, 0x85, 0xc6, 0x7b, 0xee, 0x93, 0xc3, 0x0f, 0x8a, 0x30,
        0x91, 0x57, 0xf0, 0xda, 0xa3, 0x5d, 0xc5, 0xb8, 0x7e, 0x41, 0x0b, 0x78, 0x63, 0x0a, 0x09,
        0xcf, 0xc7,
    ];
    assert_eq!(rep_hash("", &[]), expected);
    let empty = ClipboardItem {
        origin: [7; 8],
        serial: 3,
        reps: vec![],
    };
    assert_eq!(empty.content_hash(), expected);
}

#[test]
fn the_origin_is_the_start_of_the_digest() {
    // SHA-256 of "abc" starts with ba7816bf8f01cfea.
    assert_eq!(
        origin_from_fingerprint("abc"),
        [0xba, 0x78, 0x16, 0xbf, 0x8f, 0x01, 0xcf, 0xea]
    );
    let mut digest = [0u8; 32];
    for (i, b) in digest.iter_mut().enumerate() {
        *b = i as u8;
    }
    assert_eq!(origin_from_digest(&digest), [0, 1, 2, 3, 4, 5, 6, 7]);
}

#[test]
fn a_nul_keeps_mime_and_data_apart() {
    assert_ne!(rep_hash("ab", b"c"), rep_hash("a", b"bc"));
    assert_eq!(rep_hash("ab", b"c"), rep_hash("ab", b"c"));
}

#[test]
fn text_survives_whatever_characters_it_has() {
    for text in ["", "a", "tab\tand\nnewline", "\u{e4}\u{20ac}\u{1f600}"] {
        let item = ClipboardItem::text(text, [9; 8], 4);
        assert_eq!(item.text_plain().as_deref(), Some(text));
        assert_eq!(item.origin, [9; 8]);
        assert_eq!(item.serial, 4);
        assert_eq!(item.reps, vec![(MIME_TEXT_PLAIN.to_string(), text.as_bytes().to_vec())]);
    }
}

#[test]
fn an_invalid_first_text_rep_hides_later_ones() {
    let item = ClipboardItem {
        origin: [0; 8],
        serial: 0,
        reps: vec![
            ("text/plain".into(), vec![0xff]),
            ("text/plain".into(), b"later".to_vec()),
        ],
    };
    assert_eq!(item.text_plain(), None);
}

#[test]
fn an_item_without_reps_has_no_primary() {
    let item = ClipboardItem {
        origin: [0; 8],
        serial: 0,
        reps: vec![],
    };
    assert!(item.primary().is_none());
    assert_eq!(item.primary_mime(), None);
    assert!(!item.primary_is_text());
    assert!(!item.primary_is_image());
    assert_eq!(item.text_plain(), None);
    assert_eq!(item.total_size(), 0);
}

#[test]
fn x11_targets_are_known() {
    assert!(is_x11_text_target("UTF8_STRING"));
    assert!(is_x11_text_target("sTrInG"));
    assert!(is_x11_text_target("text"));
    assert!(!is_x11_text_target("TEXT "));
    assert!(!is_x11_text_target("COMPOUND_TEXT"));
    assert!(!is_x11_text_target(""));
}

#[test]
fn size_limits() {
    assert_eq!(DEFAULT_MAX_ITEM_SIZE, 64 * 1024 * 1024);
    assert_eq!(MAX_ITEM_SIZE_LIMIT, 256 * 1024 * 1024);
}

#[test]
fn changes_clone_to_the_same() {
    let change = ClipboardChange::New(ClipboardItem::text("x", [1; 8], 2));
    assert_eq!(change.clone(), change);
}
