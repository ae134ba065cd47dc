use lan_mouse_clipboard::bytes::{
    be16, be32, be64, bytes_eq, push_be16, push_be32, push_be64, push_len32,
};
use lan_mouse_clipboard::test_util::{identity_pem, Rng};
use lan_mouse_clipboard::text::{
    decimal_string, eq_ignore_case, has_folded_prefix, is_whitespace, trimmed,
};

#[test]
fn the_generator_is_xorshift() {
    let mut rng = Rng::new(1);
    let mut x: u64 = 0x9E37_79B9_7F4A_7C15;
    for _ in 0..100 {
        x ^= x << 13;
        x ^= x >> 7;
        x ^= x << 17;
        assert_ne!(x, 0);
        assert_eq!(rng.next(), x);
    }
}

#[test]
fn ranges_stay_below_their_bound() {
    let mut rng = Rng::new(7);
    for hi in 1..100 {
        assert!(rng.range(hi) < hi);
    }
    assert_eq!(rng.range(0), 0);
    let mut a = Rng::new(9);
    let mut b = Rng::new(9);
    let bytes = a.bytes(20);
    let expected: Vec<u8> = (0..20).map(|_| b.next() as u8).collect();
    assert_eq!(bytes, expected);
    assert_eq!(a.next(), b.next());
}

#[test]
fn a_name_that_is_no_host_name_gives_no_certificate() {
    assert!(identity_pem("host").is_some());
    assert!(identity_pem("\u{20ac}").is_none());
}

#[test]
fn big_endian_numbers() {
    let mut out = Vec::new();
    push_be16(&mut out, 0x0102);
    push_be32(&mut out, 0x0304_0506);
    push_be64(&mut out, 0x0708_090a_0b0c_0d0e);
    push_len32(&mut out, 0x0f10);
    assert_eq!(
        out,
        vec![1, 2, 3, 4, 5, 6, 7, 8, 9, 10, 11, 12, 13, 14, 0, 0, 15, 16]
    );
    assert_eq!(be16(&[1, 2]), 0x0102);
    assert_eq!(be32(&[3, 4, 5, 6]), 0x0304_0506);
    assert_eq!(be64(&[255; 8]), u64::MAX);
    assert!(bytes_eq(&[1, 2], &[1, 2]));
    assert!(!bytes_eq(&[1, 2], &[1, 2, 3]));
}

#[test]
fn text_helpers_agree_with_strings() {
    for s in ["", " a ", "\t\u{2003}x y\u{a0}", "Text/Plain", "\u{85}\u{3000}"] {
        assert_eq!(trimmed(s), s.trim());
        assert_eq!(eq_ignore_case(s, &s.to_ascii_uppercase()), true);
        assert_eq!(
            has_folded_prefix(s, "text/"),
            s.to_ascii_lowercase().starts_with("text/")
        );
    }
    for c in (0..0x11_0000u32).filter_map(char::from_u32) {
        assert_eq!(is_whitespace(c), c.is_whitespace());
    }
    for n in [0, 7, 10, 65536, usize::MAX] {
        assert_eq!(decimal_string(n), n.to_string());
    }
}
