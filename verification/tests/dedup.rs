use lan_mouse_clipboard::dedup::LoopPrevention;
use lan_mouse_clipboard::item::{origin_from_fingerprint, ClipboardItem};
use lan_mouse_clipboard::test_util::Rng;

const A: [u8; 8] = [1; 8];
const B: [u8; 8] = [2; 8];

fn remote_item(origin: [u8; 8], text: &str, serial: u64) -> ClipboardItem {
    ClipboardItem::text(text, origin, serial)
}

#[test]
fn ignores_self_origin() {
    let mut lp = LoopPrevention::new(A);
    let item = remote_item(A, "hi", 1);
    assert!(!lp.should_apply_remote(&item));
}

#[test]
fn applies_foreign_and_suppresses_echo() {
    let mut lp = LoopPrevention::new(A);
    let item = remote_item(B, "hello", 1);
    assert!(lp.should_apply_remote(&item));

    // Backend fires a local change with the same content => echo, suppressed.
    let echo = remote_item(A, "hello", 99); // note: origin here is what *we* stamp
    assert!(!lp.on_local_change(&echo));
}

#[test]
fn genuine_local_copy_is_broadcast() {
    let mut lp = LoopPrevention::new(A);
    let item = ClipboardItem::text("fresh", A, 1);
    assert!(lp.on_local_change(&item));
}

#[test]
fn identical_content_from_two_machines_is_deduped() {
    let mut lp = LoopPrevention::new(A);
    let first = remote_item(B, "same", 1);
    assert!(lp.should_apply_remote(&first));
    // A different machine copies the exact same text.
    let second = remote_item([3; 8], "same", 1);
    assert!(!lp.should_apply_remote(&second));
}

#[test]
fn dedups_remote_against_local() {
    let mut lp = LoopPrevention::new(A);
    let local = ClipboardItem::text("mine", A, 1);
    assert!(lp.on_local_change(&local));
    lp.note_broadcast(&local);
    // peer echoes the same content back
    let echo = remote_item(B, "mine", 1);
    assert!(!lp.should_apply_remote(&echo));
}

#[test]
fn serials_are_monotonic() {
    let mut lp = LoopPrevention::new(A);
    let s1 = lp.next_serial();
    let s2 = lp.next_serial();
    assert!(s2 > s1);
}

#[test]
fn serials_are_monotonic_and_unique_across_many() {
    let mut lp = LoopPrevention::new(A);
    let mut prev = None;
    for _ in 0..100_000 {
        let s = lp.next_serial();
        if let Some(p) = prev {
            assert!(s > p);
        }
        prev = Some(s);
    }
}

#[test]
fn random_content_is_applied_then_its_echo_is_suppressed() {
    let mut rng = Rng::new(0xDED0);
    for _ in 0..200 {
        let mut lp = LoopPrevention::new(A);
        let len = 1 + (rng.next() % 64) as usize;
        let data = rng.bytes(len);
        let mut item = ClipboardItem::text(&String::from_utf8_lossy(&data), B, 1);
        item.reps = vec![("application/octet-stream".into(), data.clone())];

        assert!(lp.should_apply_remote(&item), "foreign item must apply");

        // Backend echoes the exact same bytes back -> suppressed.
        let echo = ClipboardItem {
            origin: A,
            serial: 99,
            reps: vec![("application/octet-stream".into(), data)],
        };
        assert!(!lp.on_local_change(&echo), "echo must be suppressed");
    }
}

#[test]
fn random_distinct_contents_are_all_applied() {
    let mut rng = Rng::new(0xFACE);
    let mut lp = LoopPrevention::new(A);
    let mut seen = std::collections::HashSet::new();
    for _ in 0..200 {
        let data = rng.bytes(8);
        let item = ClipboardItem {
            origin: B,
            serial: rng.next(),
            reps: vec![("application/octet-stream".into(), data)],
        };
        // Every distinct random content is applied (not deduped).
        assert!(lp.should_apply_remote(&item));
        assert!(seen.insert(item.content_hash()));
    }
}

#[test]
fn the_origin_comes_from_the_fingerprint() {
    let lp = LoopPrevention::from_fingerprint("aa:bb");
    assert_eq!(lp.origin(), origin_from_fingerprint("aa:bb"));
    assert!(lp.is_self(origin_from_fingerprint("aa:bb")));
    assert!(!lp.is_self(A));
}

#[test]
fn decisions_follow_the_hash_alone() {
    let mut lp = LoopPrevention::new(A);
    assert!(lp.should_apply_hash(B, [1; 32]));
    assert!(!lp.should_apply_hash(B, [1; 32]));
    assert!(!lp.should_apply_hash(A, [2; 32]));
    // The echo is suppressed once and for all.
    assert!(!lp.on_local_hash([1; 32]));
    assert!(!lp.on_local_hash([1; 32]));
    // Something else passes, and is then known.
    assert!(lp.on_local_hash([3; 32]));
    assert!(!lp.on_local_hash([3; 32]));
    assert!(!lp.should_apply_hash(B, [3; 32]));
}

#[test]
fn an_unrelated_local_change_disarms_the_suppression() {
    let mut lp = LoopPrevention::new(A);
    assert!(lp.should_apply_hash(B, [1; 32]));
    assert!(lp.on_local_hash([2; 32]));
    // The applied content is still the last remote one.
    assert!(!lp.on_local_hash([1; 32]));
}

#[test]
fn two_machines_do_not_ping_pong() {
    let mut a = LoopPrevention::new(A);
    let mut b = LoopPrevention::new(B);
    let hash = [9; 32];
    assert!(a.on_local_hash(hash));
    assert!(b.should_apply_hash(A, hash));
    assert!(!b.on_local_hash(hash));
    assert!(!a.should_apply_hash(B, hash));
}

#[test]
fn serials_start_at_one() {
    let mut lp = LoopPrevention::new(A);
    assert_eq!(lp.next_serial(), 1);
    assert_eq!(lp.next_serial(), 2);
    // Deciding about items uses up no serial.
    assert!(lp.on_local_hash([1; 32]));
    assert!(lp.should_apply_hash(B, [2; 32]));
    assert_eq!(lp.next_serial(), 3);
}
