use lan_mouse_clipboard::test_util::{
    bundle, bundle_pem, bundled, identity_pem, test_cert, MAX_NAME_LEN,
};
use lan_mouse_clipboard::transport::{
    authorize, authorize_fingerprint, colon_hex_string, fingerprint_hex, identity_from_sections,
    load_identity, KeyKind, PemSection, TransportError,
};

#[test]
fn identity_requires_key_and_cert() {
    assert!(load_identity("not a pem").is_err());
}

#[test]
fn loads_nonstandard_private_key_label() {
    // lan-mouse writes EC keys with the underscore form; load_identity
    // must normalize it to the standard PKCS8 label.
    let mut pem = identity_pem("cn").expect("generate key");
    pem = pem.replace("PRIVATE KEY", "PRIVATE_KEY");
    let identity = load_identity(&pem)
        .ok()
        .expect("load identity with PRIVATE_KEY");
    assert!(!identity.certificates().is_empty());
}

#[test]
fn fingerprint_hex_is_colon_separated_lowercase_sha256() {
    let (_, _, _, der) = test_cert("cn").expect("self-signed");
    let fp = fingerprint_hex(&der);
    let parts: Vec<&str> = fp.split(':').collect();
    assert_eq!(parts.len(), 32);
    assert!(
        parts
            .iter()
            .all(|p| p.len() == 2 && p.chars().all(|c| c.is_ascii_hexdigit()))
    );
    assert_eq!(fp, fp.to_lowercase());
}

#[test]
fn fingerprint_is_stable_for_same_cert() {
    let (_, _, _, der) = test_cert("cn").expect("self-signed");
    assert_eq!(fingerprint_hex(&der), fingerprint_hex(&der));
}

#[test]
fn load_identity_rejects_pem_missing_key() {
    // A cert-only PEM has no private key.
    let (_, cert_pem, _, _) = test_cert("cn").expect("self-signed");
    let err = load_identity(&cert_pem).err().expect("must error");
    assert!(
        err.message().contains("private key"),
        "unexpected: {}",
        err.message()
    );
}

#[test]
fn load_identity_rejects_pem_missing_cert() {
    let (_, _, key_pem, _) = test_cert("cn").expect("generate key");
    let err = load_identity(&key_pem).err().expect("must error");
    assert!(
        err.message().contains("certificate"),
        "unexpected: {}",
        err.message()
    );
}

#[test]
fn an_identity_holds_what_the_pem_holds() {
    let (pem, cert_pem, key_pem, der) = test_cert("host").expect("self-signed");
    assert_eq!(pem, format!("{cert_pem}{key_pem}"));
    let identity = load_identity(&pem).ok().expect("identity");
    assert_eq!(identity.certificates(), vec![der.clone()]);
    assert_eq!(identity.fingerprint(), fingerprint_hex(&der));
    assert_eq!(identity.key_kind(), KeyKind::Pkcs8);
    assert!(!identity.key().is_empty());
    // Two certificates are two identities.
    let (other, _, _, _) = test_cert("host").expect("self-signed");
    let other = load_identity(&other).ok().expect("identity");
    assert_ne!(identity.fingerprint(), other.fingerprint());
}

#[test]
fn a_broken_pem_is_an_io_error() {
    let err = load_identity("-----BEGIN CERTIFICATE-----\nAAAA\n")
        .err()
        .expect("must error");
    assert!(matches!(err, TransportError::Io(_)));
    assert!(err.message().starts_with("io error: section end"));
}

#[test]
fn the_last_key_counts_and_all_certificates() {
    let identity = identity_from_sections(vec![
        PemSection::Pkcs1Key(vec![1]),
        PemSection::Certificate(vec![2]),
        PemSection::Other,
        PemSection::Sec1Key(vec![3]),
        PemSection::Certificate(vec![4]),
    ])
    .ok()
    .expect("identity");
    assert_eq!(identity.certificates(), vec![vec![2], vec![4]]);
    assert_eq!(identity.key_kind(), KeyKind::Sec1);
    assert_eq!(identity.key(), vec![3]);
}

#[test]
fn missing_sections_are_named() {
    let no_key = identity_from_sections(vec![PemSection::Certificate(vec![2])]);
    assert_eq!(
        no_key.err().expect("must error").message(),
        "failed to load identity: no private key in PEM"
    );
    let no_cert = identity_from_sections(vec![PemSection::Pkcs1Key(vec![2])]);
    assert_eq!(
        no_cert.err().expect("must error").message(),
        "failed to load identity: no certificate in PEM"
    );
}

#[test]
fn every_standard_key_form_is_recognized() {
    for (label, kind) in [
        ("PRIVATE KEY", KeyKind::Pkcs8),
        ("PRIVATE_KEY", KeyKind::Pkcs8),
        ("RSA PRIVATE KEY", KeyKind::Pkcs1),
        ("RSA PRIVATE_KEY", KeyKind::Pkcs1),
        ("EC PRIVATE KEY", KeyKind::Sec1),
    ] {
        let pem = format!(
            "-----BEGIN CERTIFICATE-----\nAQI=\n-----END CERTIFICATE-----\n\
             -----BEGIN {label}-----\nAwQ=\n-----END {label}-----\n"
        );
        let identity = load_identity(&pem).ok().expect("identity");
        assert_eq!(identity.key_kind(), kind);
        assert_eq!(identity.key(), vec![3, 4]);
        assert_eq!(identity.certificates(), vec![vec![1, 2]]);
    }
}

#[test]
fn fingerprints_are_sha256() {
    assert_eq!(
        fingerprint_hex(b"abc"),
        "ba:78:16:bf:8f:01:cf:ea:41:41:40:de:5d:ae:22:23:\
         b0:03:61:a3:96:17:7a:9c:b4:10:ff:61:f2:00:15:ad"
    );
    assert_eq!(colon_hex_string(&[0, 9, 10, 15, 16, 255]), "00:09:0a:0f:10:ff");
    assert_eq!(colon_hex_string(&[]), "");
}

#[test]
fn accept_rejects_unauthorized_peer() {
    let (_, _, _, der) = test_cert("intruder").expect("self-signed");
    // No one is allowed.
    let none: Vec<String> = vec![];
    assert!(matches!(
        authorize(&none, Some(&der)),
        Err(TransportError::Unauthorized)
    ));
    // A peer without a certificate is refused in any case.
    let listed = vec![fingerprint_hex(&der)];
    assert!(matches!(
        authorize(&listed, None),
        Err(TransportError::Unauthorized)
    ));
    assert_eq!(
        authorize(&listed, Some(&der)).ok(),
        Some(fingerprint_hex(&der))
    );
}

#[test]
fn only_listed_fingerprints_pass() {
    let list = vec!["aa:bb".to_string(), "cc:dd".to_string()];
    assert_eq!(
        authorize_fingerprint(&list, Some("cc:dd".into())).ok(),
        Some("cc:dd".to_string())
    );
    assert!(authorize_fingerprint(&list, Some("CC:DD".into())).is_err());
    assert!(authorize_fingerprint(&list, None).is_err());
}

#[test]
fn transport_error_messages() {
    assert_eq!(TransportError::Tls("bad".into()).message(), "tls error: bad");
    assert_eq!(TransportError::Io("gone".into()).message(), "io error: gone");
    assert_eq!(
        TransportError::Unauthorized.message(),
        "peer certificate missing or unauthorized"
    );
    assert_eq!(
        TransportError::Handshake("eof".into()).message(),
        "tls handshake error: eof"
    );
}

#[test]
fn bundles_hold_both_parts() {
    let made = bundle("cert".into(), "key".into(), vec![1]);
    assert_eq!(
        made,
        ("certkey".to_string(), "cert".to_string(), "key".to_string(), vec![1])
    );
}

#[test]
fn both_label_spellings_load_alike() {
    let pem = identity_pem("cn").expect("generate key");
    let odd = pem.replace("PRIVATE KEY", "PRIVATE_KEY");
    assert_ne!(pem, odd);
    let a = load_identity(&pem).ok().expect("standard label");
    let b = load_identity(&odd).ok().expect("underscore label");
    assert_eq!(a.key(), b.key());
    assert_eq!(a.certificates(), b.certificates());
    assert_eq!(a.fingerprint(), b.fingerprint());
}

#[test]
fn generated_identities_load_whatever_the_name() {
    let long = "a".repeat(4 << 20);
    assert!(long.len() <= MAX_NAME_LEN);
    for name in ["cn", "", "10.0.0.1", "::1", "under_score", "two words", long.as_str()] {
        let (pem, cert_pem, key_pem, der) = test_cert(name).expect("self-signed");
        assert!(pem.is_ascii() && !pem.contains('_'));
        let identity = load_identity(&pem).ok().expect("identity");
        assert_eq!(identity.certificates(), vec![der]);
        assert_eq!(identity.key_kind(), KeyKind::Pkcs8);
        assert_eq!(
            load_identity(&cert_pem).err().expect("no key").message(),
            "failed to load identity: no private key in PEM"
        );
        assert_eq!(
            load_identity(&key_pem).err().expect("no cert").message(),
            "failed to load identity: no certificate in PEM"
        );
    }
}

#[test]
fn names_beyond_ascii_are_refused() {
    assert_eq!(test_cert("h\u{f6}st"), None);
    assert_eq!(identity_pem("h\u{f6}st"), None);
}

#[test]
fn outcomes_of_generating_are_passed_on() {
    assert_eq!(bundled(None), None);
    assert_eq!(bundle_pem(None), None);
    let made = bundled(Some(("cert".into(), "key".into(), vec![1])));
    assert_eq!(
        made,
        Some(("certkey".to_string(), "cert".to_string(), "key".to_string(), vec![1]))
    );
    assert_eq!(bundle_pem(made), Some("certkey".to_string()));
}

fn der_value(tag: u8, content: &[u8]) -> Vec<u8> {
    let n = content.len();
    let mut out = vec![tag];
    if n < 128 {
        out.push(n as u8);
    } else {
        let bytes: Vec<u8> = n.to_be_bytes().iter().copied().skip_while(|b| *b == 0).collect();
        out.push(128 + bytes.len() as u8);
        out.extend_from_slice(&bytes);
    }
    out.extend_from_slice(content);
    out
}

fn has_alt_name(der: &[u8], tag: u8, name: &[u8]) -> bool {
    let mut part = vec![0x06, 0x03, 0x55, 0x1d, 0x11];
    part.extend_from_slice(&der_value(0x04, &der_value(0x30, &der_value(tag, name))));
    der.windows(part.len()).any(|w| w == part.as_slice())
}

#[test]
fn a_certificate_is_for_its_name() {
    let long = "n".repeat(200);
    let longer = "a".repeat(1 << 20);
    for name in ["cn", "", "face.b00c", "1234", "a:b:z", "host.example", &long, &longer] {
        let (_, _, _, der) = test_cert(name).expect("self-signed");
        assert!(has_alt_name(&der, 0x82, name.as_bytes()));
        assert!(!has_alt_name(&der, 0x82, b"other"));
        let pem = identity_pem(name).expect("self-signed");
        let identity = load_identity(&pem).ok().expect("identity");
        assert!(has_alt_name(&identity.certificates()[0], 0x82, name.as_bytes()));
    }
}

#[test]
fn a_certificate_for_an_address_holds_its_octets() {
    for (name, octets) in [
        ("10.0.0.1", [10, 0, 0, 1]),
        ("255.100.9.0", [255, 100, 9, 0]),
    ] {
        let (_, _, _, der) = test_cert(name).expect("self-signed");
        assert!(has_alt_name(&der, 0x87, &octets));
        assert!(!has_alt_name(&der, 0x82, name.as_bytes()));
    }
}

#[test]
fn a_certificate_for_an_ipv6_address_holds_its_octets() {
    let one = [0, 0, 0, 0, 0, 0, 0, 0, 0, 0, 0, 0, 0, 0, 0, 1];
    let doc = [0x20, 0x01, 0x0d, 0xb8, 0, 0, 0, 0, 0, 0, 0, 0, 0, 0, 0, 0x2a];
    let mapped = [0, 0, 0, 0, 0, 0, 0, 0, 0, 0, 0xff, 0xff, 10, 0, 0, 1];
    let full = [0, 1, 0, 2, 0, 3, 0, 4, 0, 5, 0, 6, 0, 7, 0, 0];
    for (name, octets) in [
        ("::", [0; 16]),
        ("::1", one),
        ("0:0:0:0:0:0:0:1", one),
        ("2001:db8::2a", doc),
        ("2001:0DB8::002A", doc),
        ("2001:db8:0:0:0:0:0:2a", doc),
        ("::ffff:10.0.0.1", mapped),
        ("0:0:0:0:0:ffff:10.0.0.1", mapped),
        ("1:2:3:4:5:6:7::", full),
    ] {
        let (_, _, _, der) = test_cert(name).expect("self-signed");
        assert!(has_alt_name(&der, 0x87, &octets), "{}", name);
        assert!(!has_alt_name(&der, 0x82, name.as_bytes()), "{}", name);
    }
}

#[test]
fn names_that_only_look_like_addresses_are_host_names() {
    for name in [
        "1.2.3", "1.2.3.4.5", "256.1.1.1", "01.2.3.4", "1.2.3.4.", ".", "1.2.3.4:5", "1:2:3",
        ":::", "1::2::3", "12345::", "1:2:3:4:5:6:7::8", "::1.2.3.4:5", "10.0.0.1::",
    ] {
        let (_, _, _, der) = test_cert(name).expect("self-signed");
        assert!(has_alt_name(&der, 0x82, name.as_bytes()), "{}", name);
    }
}
