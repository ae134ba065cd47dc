//! TLS transport for the clipboard channel: identities and authorization.
//!
//! A dedicated TCP/TLS channel carries clipboard data between peers, on
//! the same port as the UDP input path (TCP and UDP sockets can share a
//! port number). Security mirrors the existing UDP model: the *listening*
//! side requires a client certificate and verifies its SHA-256 fingerprint
//! against the `authorized_keys` allowlist; the *connecting* side presents
//! its certificate and does not verify the server's self-signed cert (the
//! allowlist is enforced where the connection is accepted).

use rustls_pemfile::Item;
use vstd::prelude::*;
use vstd::string::StringExecFns;
use vstd::utf8::encode_utf8;

use crate::hash::{sha256, sha256_of};
use crate::item::copy_bytes;
use crate::text::{lowercase, str_eq, texts_view};

verus! {

#[derive(Debug)]
pub enum TransportError {
    /// An identity could not be loaded.
    Identity(String),
    /// Input or output failed.
    Io(String),
    /// The TLS layer failed.
    Tls(String),
    /// The peer's certificate is missing or not on the allowlist.
    Unauthorized,
    /// The TLS handshake failed.
    Handshake(String),
}

/// What a transport error says.
#[verifier::ext_equal]
pub enum TransportErrorView {
    Identity(Seq<char>),
    Io(Seq<char>),
    Tls(Seq<char>),
    Unauthorized,
    Handshake(Seq<char>),
}

impl View for TransportError {
    type V = TransportErrorView;

    open spec fn view(&self) -> TransportErrorView {
        match self {
            TransportError::Identity(reason) => TransportErrorView::Identity(reason@),
            TransportError::Io(reason) => TransportErrorView::Io(reason@),
            TransportError::Tls(reason) => TransportErrorView::Tls(reason@),
            TransportError::Unauthorized => TransportErrorView::Unauthorized,
            TransportError::Handshake(reason) => TransportErrorView::Handshake(reason@),
        }
    }
}

/// The text of a transport error.
pub open spec fn transport_error_text(error: TransportErrorView) -> Seq<char> {
    match error {
        TransportErrorView::Identity(reason) => "failed to load identity: "@ + reason,
        TransportErrorView::Io(reason) => "io error: "@ + reason,
        TransportErrorView::Tls(reason) => "tls error: "@ + reason,
        TransportErrorView::Unauthorized => "peer certificate missing or unauthorized"@,
        TransportErrorView::Handshake(reason) => "tls handshake error: "@ + reason,
    }
}

impl TransportError {
    /// A sentence that says what went wrong.
    pub fn message(&self) -> (text: String)
        ensures
            text@ == transport_error_text(self@),
    {
        match self {
            TransportError::Identity(reason) => {
                let mut text = String::from_str("failed to load identity: ");
                text.append(reason.as_str());
                text
            },
            TransportError::Io(reason) => {
                let mut text = String::from_str("io error: ");
                text.append(reason.as_str());
                text
            },
            TransportError::Tls(reason) => {
                let mut text = String::from_str("tls error: ");
                text.append(reason.as_str());
                text
            },
            TransportError::Unauthorized => String::from_str(
                "peer certificate missing or unauthorized",
            ),
            TransportError::Handshake(reason) => {
                let mut text = String::from_str("tls handshake error: ");
                text.append(reason.as_str());
                text
            },
        }
    }
}

/// A section of a PEM file, by its kind, with its DER bytes.
#[derive(Debug, PartialEq, Eq)]
pub enum PemSection {
    Certificate(Vec<u8>),
    Pkcs8Key(Vec<u8>),
    Pkcs1Key(Vec<u8>),
    Sec1Key(Vec<u8>),
    /// A section of any other known kind.
    Other,
}

/// What a section of a PEM file says.
#[verifier::ext_equal]
pub enum PemView {
    Certificate(Seq<u8>),
    Pkcs8Key(Seq<u8>),
    Pkcs1Key(Seq<u8>),
    Sec1Key(Seq<u8>),
    Other,
}

impl View for PemSection {
    type V = PemView;

    open spec fn view(&self) -> PemView {
        match self {
            PemSection::Certificate(der) => PemView::Certificate(der@),
            PemSection::Pkcs8Key(der) => PemView::Pkcs8Key(der@),
            PemSection::Pkcs1Key(der) => PemView::Pkcs1Key(der@),
            PemSection::Sec1Key(der) => PemView::Sec1Key(der@),
            PemSection::Other => PemView::Other,
        }
    }
}

/// What sections of a PEM file say.
pub open spec fn sections_view(sections: Seq<PemSection>) -> Seq<PemView> {
    sections.map_values(|s: PemSection| s@)
}

/// The sections of a PEM file, in order, or the text of the first error in it.
pub uninterp spec fn pem_sections(pem: Seq<u8>) -> Result<Seq<PemView>, Seq<char>>;

/// What the result of reading a PEM file says.
pub open spec fn pem_result_view(r: Result<Vec<PemSection>, String>) -> Result<
    Seq<PemView>,
    Seq<char>,
> {
    match r {
        Ok(sections) => Ok(sections_view(sections@)),
        Err(reason) => Err(reason@),
    }
}

/// Read the sections of a PEM file with `rustls_pemfile::read_all`, up to the
/// first error: what comes of it depends on the bytes alone. Which sections
/// given bytes hold is not stated.
#[verifier::external_body]
fn read_pem(pem: &[u8]) -> (sections: Result<Vec<PemSection>, String>)
    ensures
        pem_result_view(sections) == pem_sections(pem@),
{
    rustls_pemfile::read_all(&mut &pem[..])
        .map(|item| match item {
            Ok(Item::X509Certificate(c)) => Ok(PemSection::Certificate(c.to_vec())),
            Ok(Item::Pkcs8Key(k)) => Ok(PemSection::Pkcs8Key(k.secret_pkcs8_der().to_vec())),
            Ok(Item::Pkcs1Key(k)) => Ok(PemSection::Pkcs1Key(k.secret_pkcs1_der().to_vec())),
            Ok(Item::Sec1Key(k)) => Ok(PemSection::Sec1Key(k.secret_sec1_der().to_vec())),
            Ok(_) => Ok(PemSection::Other),
            Err(e) => Err(e.to_string()),
        })
        .collect()
}

/// The form of a private key.
#[derive(Debug, Clone, Copy, PartialEq, Eq, Structural)]
pub enum KeyKind {
    Pkcs8,
    Pkcs1,
    Sec1,
}

/// A parsed TLS identity (certificate chain + private key), as DER bytes.
pub struct Identity {
    certs: Vec<Vec<u8>>,
    key_kind: KeyKind,
    key: Vec<u8>,
}

/// What an identity says.
#[verifier::ext_equal]
pub struct IdentityView {
    pub certs: Seq<Seq<u8>>,
    pub key_kind: KeyKind,
    pub key: Seq<u8>,
}

/// What certificates say.
pub open spec fn certs_view(certs: Seq<Vec<u8>>) -> Seq<Seq<u8>> {
    certs.map_values(|c: Vec<u8>| c@)
}

impl View for Identity {
    type V = IdentityView;

    closed spec fn view(&self) -> IdentityView {
        IdentityView { certs: certs_view(self.certs@), key_kind: self.key_kind, key: self.key@ }
    }
}

/// The certificates among the sections, in order.
pub open spec fn certificates(sections: Seq<PemView>) -> Seq<Seq<u8>>
    decreases sections.len(),
{
    if sections.len() == 0 {
        seq![]
    } else {
        let rest = certificates(sections.drop_last());
        match sections.last() {
            PemView::Certificate(der) => rest.push(der),
            _ => rest,
        }
    }
}

/// The last private key among the sections.
pub open spec fn private_key(sections: Seq<PemView>) -> Option<(KeyKind, Seq<u8>)>
    decreases sections.len(),
{
    if sections.len() == 0 {
        None
    } else {
        match sections.last() {
            PemView::Pkcs8Key(der) => Some((KeyKind::Pkcs8, der)),
            PemView::Pkcs1Key(der) => Some((KeyKind::Pkcs1, der)),
            PemView::Sec1Key(der) => Some((KeyKind::Sec1, der)),
            _ => private_key(sections.drop_last()),
        }
    }
}

/// The identity that sections say: their certificates and their last private
/// key, where there are both.
pub open spec fn identity_of(sections: Seq<PemView>) -> Result<IdentityView, TransportErrorView> {
    match private_key(sections) {
        None => Err(TransportErrorView::Identity("no private key in PEM"@)),
        Some((key_kind, key)) => if certificates(sections).len() == 0 {
            Err(TransportErrorView::Identity("no certificate in PEM"@))
        } else {
            Ok(IdentityView { certs: certificates(sections), key_kind, key })
        },
    }
}

/// What the result of loading an identity says.
pub open spec fn identity_result(r: Result<Identity, TransportError>) -> Result<
    IdentityView,
    TransportErrorView,
> {
    match r {
        Ok(identity) => Ok(identity@),
        Err(e) => Err(e@),
    }
}

/// The identity that sections say.
pub fn identity_from_sections(sections: Vec<PemSection>) -> (identity: Result<
    Identity,
    TransportError,
>)
    ensures
        identity_result(identity) == identity_of(sections_view(sections@)),
{
    let ghost all = sections_view(sections@);
    let mut certs: Vec<Vec<u8>> = Vec::new();
    let mut key: Option<(KeyKind, Vec<u8>)> = None;
    let mut i: usize = 0;
    assert(certs_view(certs@) =~= certificates(all.take(0)));
    while i < sections.len()
        invariant
            all == sections_view(sections@),
            0 <= i <= sections@.len(),
            certs_view(certs@) == certificates(all.take(i as int)),
            opt_key_view(key) == private_key(all.take(i as int)),
        decreases sections@.len() - i,
    {
        proof {
            assert(all.take(i + 1).drop_last() =~= all.take(i as int));
            assert(all.take(i + 1).last() == sections@[i as int]@);
        }
        let ghost sofar = certs_view(certs@);
        match &sections[i] {
            PemSection::Certificate(der) => {
                let cert = copy_bytes(der);
                certs.push(cert);
                assert(certs_view(certs@) =~= sofar.push(der@));
            },
            PemSection::Pkcs8Key(der) => {
                key = Some((KeyKind::Pkcs8, copy_bytes(der)));
            },
            PemSection::Pkcs1Key(der) => {
                key = Some((KeyKind::Pkcs1, copy_bytes(der)));
            },
            PemSection::Sec1Key(der) => {
                key = Some((KeyKind::Sec1, copy_bytes(der)));
            },
            PemSection::Other => {},
        }
        i = i + 1;
    }
    assert(all.take(i as int) =~= all);
    match key {
        None => Err(TransportError::Identity(String::from_str("no private key in PEM"))),
        Some((key_kind, key)) => {
            assert(certs_view(certs@).len() == certs@.len());
            if certs.len() == 0 {
                return Err(TransportError::Identity(String::from_str("no certificate in PEM")));
            }
            Ok(Identity { certs, key_kind, key })
        },
    }
}

/// What an optional private key says.
pub open spec fn opt_key_view(key: Option<(KeyKind, Vec<u8>)>) -> Option<(KeyKind, Seq<u8>)> {
    match key {
        Some((kind, der)) => Some((kind, der@)),
        None => None,
    }
}

/// The bytes of the label `PRIVATE_KEY`.
pub open spec fn odd_label() -> Seq<u8> {
    seq![80u8, 82, 73, 86, 65, 84, 69, 95, 75, 69, 89]
}

/// The bytes of the label `PRIVATE KEY`.
pub open spec fn usual_label() -> Seq<u8> {
    seq![80u8, 82, 73, 86, 65, 84, 69, 32, 75, 69, 89]
}

/// The bytes of a PEM file with the label `PRIVATE_KEY` written `PRIVATE KEY`
/// wherever it stands.
pub open spec fn normalized(pem: Seq<u8>) -> Seq<u8>
    decreases pem.len(),
{
    if pem.len() == 0 {
        seq![]
    } else if odd_label().is_prefix_of(pem) {
        usual_label() + normalized(pem.skip(11))
    } else {
        seq![pem[0]] + normalized(pem.drop_first())
    }
}

/// Whether the label `PRIVATE_KEY` stands in `pem` at `at`.
fn odd_label_at(pem: &[u8], at: usize) -> (yes: bool)
    requires
        at <= pem@.len(),
    ensures
        yes == odd_label().is_prefix_of(pem@.skip(at as int)),
{
    let label: [u8; 11] = [80, 82, 73, 86, 65, 84, 69, 95, 75, 69, 89];
    assert(label@ =~= odd_label());
    if pem.len() - at < 11 {
        return false;
    }
    let ghost rest = pem@.skip(at as int);
    let mut i: usize = 0;
    while i < 11
        invariant
            at + 11 <= pem.len(),
            label@ == odd_label(),
            rest == pem@.skip(at as int),
            0 <= i <= 11,
            forall|j: int| 0 <= j < i ==> odd_label()[j] == rest[j],
        decreases 11 - i,
    {
        if pem[at + i] != label[i] {
            assert(rest.subrange(0, 11)[i as int] != odd_label()[i as int]);
            return false;
        }
        i = i + 1;
    }
    assert(rest.subrange(0, 11) =~= odd_label());
    true
}

/// The bytes of a PEM file with the non-standard key label written the usual way.
fn normalize_labels(pem: &[u8]) -> (out: Vec<u8>)
    ensures
        out@ == normalized(pem@),
{
    let usual: [u8; 11] = [80, 82, 73, 86, 65, 84, 69, 32, 75, 69, 89];
    assert(usual@ =~= usual_label());
    let mut out: Vec<u8> = Vec::new();
    let mut i: usize = 0;
    assert(pem@.skip(0) =~= pem@);
    assert(out@ + normalized(pem@) =~= normalized(pem@));
    while i < pem.len()
        invariant
            usual@ == usual_label(),
            0 <= i <= pem.len(),
            out@ + normalized(pem@.skip(i as int)) == normalized(pem@),
        decreases pem.len() - i,
    {
        let ghost rest = pem@.skip(i as int);
        let ghost before = out@;
        if odd_label_at(pem, i) {
            out.extend_from_slice(&usual);
            assert(out@ =~= before + usual_label());
            assert(rest.skip(11) =~= pem@.skip(i + 11));
            assert(out@ + normalized(pem@.skip(i + 11)) =~= before + normalized(rest));
            i = i + 11;
        } else {
            out.push(pem[i]);
            assert(rest.drop_first() =~= pem@.skip(i + 1));
            assert(out@ + normalized(pem@.skip(i + 1)) =~= before + normalized(rest));
            i = i + 1;
        }
    }
    assert(out@ + Seq::<u8>::empty() =~= out@);
    out
}

/// The identity that the result of reading a PEM file says.
pub open spec fn identity_of_pem(read: Result<Seq<PemView>, Seq<char>>) -> Result<
    IdentityView,
    TransportErrorView,
> {
    match read {
        Ok(sections) => identity_of(sections),
        Err(reason) => Err(TransportErrorView::Io(reason)),
    }
}

/// Load a PEM certificate + private key bundle (e.g. the lan-mouse cert
/// file written by webrtc-dtls) into an identity.
///
/// lan-mouse's cert writer uses the non-standard `PRIVATE_KEY` label for a
/// PKCS8 EC key; rustls-pemfile only recognizes `PRIVATE KEY` (PKCS8),
/// `RSA PRIVATE KEY` (PKCS1) and `EC PRIVATE KEY` (SEC1). Normalizing the
/// underscore form keeps all three recognized.
pub fn load_identity(pem: &str) -> (identity: Result<Identity, TransportError>)
    ensures
        identity_result(identity) == identity_of_pem(
            pem_sections(normalized(encode_utf8(pem@))),
        ),
{
    let pem = normalize_labels(pem.as_bytes());
    match read_pem(&pem) {
        Ok(sections) => identity_from_sections(sections),
        Err(reason) => Err(TransportError::Io(reason)),
    }
}

/// Normalizing labels changes no length, and doing it again changes nothing.
pub proof fn law_normalizing_is_idempotent(pem: Seq<u8>)
    ensures
        normalized(pem).len() == pem.len(),
        normalized(normalized(pem)) == normalized(pem),
{
    lemma_normalized_len(pem);
    lemma_normalized_has_none(pem);
    lemma_normalized_same(normalized(pem));
}

/// Both spellings of the private-key label load alike: a bundle and the same
/// bundle with its labels normalized give the same identity or the same error.
pub proof fn law_label_spellings_load_alike(pem: Seq<u8>)
    ensures
        identity_of_pem(pem_sections(normalized(normalized(pem)))) == identity_of_pem(
            pem_sections(normalized(pem)),
        ),
{
    law_normalizing_is_idempotent(pem);
}

proof fn lemma_normalized_len(pem: Seq<u8>)
    ensures
        normalized(pem).len() == pem.len(),
    decreases pem.len(),
{
    if pem.len() > 0 {
        if odd_label().is_prefix_of(pem) {
            lemma_normalized_len(pem.skip(11));
        } else {
            lemma_normalized_len(pem.drop_first());
        }
    }
}

/// Where the label `PRIVATE_KEY` does not stand, nothing changes.
proof fn lemma_normalized_same(pem: Seq<u8>)
    requires
        forall|i: int| 0 <= i < pem.len() ==> !odd_label().is_prefix_of(#[trigger] pem.skip(i)),
    ensures
        normalized(pem) == pem,
    decreases pem.len(),
{
    if pem.len() > 0 {
        assert(pem.skip(0) =~= pem);
        let tail = pem.drop_first();
        assert forall|i: int| 0 <= i < tail.len() implies !odd_label().is_prefix_of(
            #[trigger] tail.skip(i),
        ) by {
            assert(tail.skip(i) =~= pem.skip(i + 1));
        }
        lemma_normalized_same(tail);
        assert(normalized(pem) =~= pem);
    } else {
        assert(normalized(pem) =~= pem);
    }
}

/// Bytes without an underscore hold no label to be changed.
pub proof fn lemma_nothing_to_normalize(pem: Seq<u8>)
    requires
        !pem.contains(95u8),
    ensures
        normalized(pem) == pem,
{
    assert forall|i: int| 0 <= i < pem.len() implies !odd_label().is_prefix_of(
        #[trigger] pem.skip(i),
    ) by {
        if odd_label().is_prefix_of(pem.skip(i)) {
            assert(pem.skip(i).subrange(0, 11)[7] == 95u8);
            assert(pem[i + 7] == 95u8);
        }
    }
    lemma_normalized_same(pem);
}

/// Whether the label `PRIVATE_KEY` stands in `pem` at `at`.
spec fn spells_odd_label(pem: Seq<u8>, at: int) -> bool {
    at + 11 <= pem.len() && (forall|k: int| 0 <= k < 11 ==> #[trigger] pem[at + k] == odd_label()[k])
}

/// After normalizing, the label `PRIVATE_KEY` stands nowhere.
proof fn lemma_normalized_has_none(pem: Seq<u8>)
    ensures
        forall|i: int|
            0 <= i < normalized(pem).len() ==> !odd_label().is_prefix_of(
                #[trigger] normalized(pem).skip(i),
            ),
{
    let out = normalized(pem);
    lemma_normalized_len(pem);
    assert forall|i: int| 0 <= i < out.len() implies !odd_label().is_prefix_of(
        #[trigger] out.skip(i),
    ) by {
        lemma_normalized_bytes(pem, i);
        if odd_label().is_prefix_of(out.skip(i)) {
            assert(out.skip(i).subrange(0, 11) =~= odd_label());
            assert forall|k: int| 0 <= k < 11 implies #[trigger] out[i + k] == odd_label()[k] by {
                assert(out.skip(i).subrange(0, 11)[k] == out[i + k]);
            }
        }
    }
}

/// The output spells the odd label at no place: where it stood in the input it
/// was changed, and changing it elsewhere makes none.
proof fn lemma_normalized_bytes(pem: Seq<u8>, i: int)
    requires
        0 <= i,
    ensures
        !spells_odd_label(normalized(pem), i),
    decreases pem.len(),
{
    lemma_normalized_len(pem);
    let out = normalized(pem);
    if !spells_odd_label(out, i) {
    } else if odd_label().is_prefix_of(pem) {
        let rest = pem.skip(11);
        assert forall|k: int| 0 <= k < 11 implies #[trigger] out[k] == usual_label()[k] by {}
        lemma_normalized_len(rest);
        if i >= 11 {
            lemma_normalized_bytes(rest, i - 11);
            assert forall|k: int| 0 <= k < 11 implies #[trigger] normalized(rest)[i - 11 + k]
                == odd_label()[k] by {
                assert(out[i + k] == normalized(rest)[i + k - 11]);
            }
        } else {
            // The usual label has its first letter at no other place, and a
            // blank where the odd one has its underscore.
            assert(out[i + 0] == odd_label()[0]);
            assert(out[i + 7] == odd_label()[7]);
            assert(out[i] == usual_label()[i]);
        }
    } else {
        let rest = pem.drop_first();
        lemma_normalized_len(rest);
        if i >= 1 {
            lemma_normalized_bytes(rest, i - 1);
            assert forall|k: int| 0 <= k < 11 implies #[trigger] normalized(rest)[i - 1 + k]
                == odd_label()[k] by {
                assert(out[i + k] == normalized(rest)[i + k - 1]);
            }
        } else {
            let tail = odd_label().drop_first();
            assert(out[i + 0] == odd_label()[0]);
            assert(pem[0] == out[0]);
            assert forall|k: int| 0 <= k < tail.len() implies #[trigger] normalized(rest)[k]
                == tail[k] by {
                assert(out[i + (k + 1)] == odd_label()[k + 1]);
            }
            lemma_normalized_prefix(rest, tail);
            assert forall|k: int| 0 <= k < 11 implies pem.subrange(0, 11)[k] == odd_label()[k] by {
                if k > 0 {
                    assert(rest[k - 1] == tail[k - 1]);
                }
            }
            assert(pem.subrange(0, 11) =~= odd_label());
        }
    }
}

/// A stretch of output that is a part of the odd label without its first letter
/// was in the input already.
proof fn lemma_normalized_prefix(pem: Seq<u8>, label: Seq<u8>)
    requires
        label.len() <= normalized(pem).len(),
        forall|k: int| 0 <= k < label.len() ==> #[trigger] normalized(pem)[k] == label[k],
        forall|k: int| 0 <= k < label.len() ==> #[trigger] label[k] != 80u8,
    ensures
        label.len() <= pem.len(),
        forall|k: int| 0 <= k < label.len() ==> #[trigger] pem[k] == label[k],
    decreases pem.len(),
{
    lemma_normalized_len(pem);
    if label.len() > 0 {
        assert(normalized(pem)[0] == label[0]);
        if odd_label().is_prefix_of(pem) {
            assert(normalized(pem)[0] == 80u8);
            assert(label[0] != 80u8);
        } else {
            let rest = pem.drop_first();
            let tail = label.drop_first();
            lemma_normalized_len(rest);
            assert forall|k: int| 0 <= k < tail.len() implies #[trigger] normalized(rest)[k]
                == tail[k] by {
                assert(normalized(pem)[k + 1] == label[k + 1]);
            }
            assert forall|k: int| 0 <= k < tail.len() implies #[trigger] tail[k] != 80u8 by {
                assert(label[k + 1] != 80u8);
            }
            lemma_normalized_prefix(rest, tail);
            assert forall|k: int| 0 <= k < label.len() implies #[trigger] pem[k] == label[k] by {
                if k > 0 {
                    assert(rest[k - 1] == tail[k - 1]);
                }
            }
        }
    }
}

/// A hexadecimal digit, in lower case.
pub open spec fn hex_digit(n: int) -> char {
    if n < 10 {
        (48 + n) as u8 as char
    } else {
        (87 + n) as u8 as char
    }
}

/// A byte as two hexadecimal digits.
pub open spec fn hex_byte(b: u8) -> Seq<char> {
    seq![hex_digit(b as int / 16), hex_digit(b as int % 16)]
}

/// Bytes as pairs of hexadecimal digits with colons between them.
pub open spec fn colon_hex(bytes: Seq<u8>) -> Seq<char>
    decreases bytes.len(),
{
    if bytes.len() == 0 {
        seq![]
    } else if bytes.len() == 1 {
        hex_byte(bytes[0])
    } else {
        colon_hex(bytes.drop_last()) + ":"@ + hex_byte(bytes.last())
    }
}

/// A hexadecimal digit, in lower case.
fn hex_digit_str(n: u8) -> (s: &'static str)
    requires
        n < 16,
    ensures
        s@ == seq![hex_digit(n as int)],
{
    proof {
        reveal_strlit("0");
        reveal_strlit("1");
        reveal_strlit("2");
        reveal_strlit("3");
        reveal_strlit("4");
        reveal_strlit("5");
        reveal_strlit("6");
        reveal_strlit("7");
        reveal_strlit("8");
        reveal_strlit("9");
        reveal_strlit("a");
        reveal_strlit("b");
        reveal_strlit("c");
        reveal_strlit("d");
        reveal_strlit("e");
        reveal_strlit("f");
    }
    let s = match n {
        0 => "0",
        1 => "1",
        2 => "2",
        3 => "3",
        4 => "4",
        5 => "5",
        6 => "6",
        7 => "7",
        8 => "8",
        9 => "9",
        10 => "a",
        11 => "b",
        12 => "c",
        13 => "d",
        14 => "e",
        _ => "f",
    };
    assert(s@ =~= seq![hex_digit(n as int)]);
    s
}

/// Bytes as pairs of lower-case hexadecimal digits with colons between them.
pub fn colon_hex_string(bytes: &[u8]) -> (text: String)
    ensures
        text@ == colon_hex(bytes@),
{
    let mut text = String::from_str("");
    let mut i: usize = 0;
    proof {
        reveal_strlit("");
        assert(text@ =~= colon_hex(bytes@.take(0)));
    }
    while i < bytes.len()
        invariant
            0 <= i <= bytes@.len(),
            text@ == colon_hex(bytes@.take(i as int)),
        decreases bytes@.len() - i,
    {
        let ghost short = bytes@.take(i as int);
        let ghost long = bytes@.take(i + 1);
        assert(long.drop_last() =~= short);
        assert(long.last() == bytes@[i as int]);
        let ghost before = text@;
        if i > 0 {
            text.append(":");
        }
        let b: u8 = bytes[i];
        text.append(hex_digit_str(b / 16));
        text.append(hex_digit_str(b % 16));
        proof {
            if i == 0 {
                assert(text@ =~= hex_byte(b));
            } else {
                assert(text@ =~= before + ":"@ + hex_byte(b));
            }
            assert(text@ =~= colon_hex(long));
        }
        i = i + 1;
    }
    assert(bytes@.take(i as int) =~= bytes@);
    text
}

/// The fingerprint of a certificate: its SHA-256 digest in colon-separated hex.
pub open spec fn fingerprint_of(cert: Seq<u8>) -> Seq<char> {
    colon_hex(sha256_of(cert))
}

/// SHA-256 fingerprint in the same colon-separated hex format lan-mouse uses.
pub fn fingerprint_hex(cert: &[u8]) -> (text: String)
    ensures
        text@ == fingerprint_of(cert@),
        sha256_of(cert@).len() == 32,
        text@.len() == 95,
{
    let digest = sha256(cert);
    proof {
        law_fingerprint_format(digest@);
    }
    colon_hex_string(&digest)
}

impl Identity {
    /// An identity has at least one certificate.
    #[verifier::type_invariant]
    spec fn has_certificate(self) -> bool {
        self.certs@.len() > 0
    }

    /// The SHA-256 fingerprint (colon-hex) of this identity's certificate,
    /// as used for the `authorized_keys` allowlist.
    pub fn fingerprint(&self) -> (text: String)
        ensures
            self@.certs.len() > 0,
            text@ == fingerprint_of(self@.certs[0]),
            sha256_of(self@.certs[0]).len() == 32,
            text@.len() == 95,
    {
        proof {
            use_type_invariant(self);
        }
        fingerprint_hex(&self.certs[0])
    }

    /// The certificate chain, as DER bytes.
    pub fn certificates(&self) -> (certs: Vec<Vec<u8>>)
        ensures
            certs_view(certs@) == self@.certs,
    {
        let mut certs: Vec<Vec<u8>> = Vec::new();
        let mut i: usize = 0;
        assert(certs_view(certs@) =~= self@.certs.take(0));
        while i < self.certs.len()
            invariant
                0 <= i <= self.certs@.len(),
                certs_view(certs@) == self@.certs.take(i as int),
            decreases self.certs@.len() - i,
        {
            let ghost before = certs_view(certs@);
            let cert = copy_bytes(&self.certs[i]);
            certs.push(cert);
            assert(certs_view(certs@) =~= before.push(self@.certs[i as int]));
            i = i + 1;
            assert(certs_view(certs@) =~= self@.certs.take(i as int));
        }
        assert(self@.certs.take(i as int) =~= self@.certs);
        certs
    }

    /// The form of the private key.
    pub fn key_kind(&self) -> (kind: KeyKind)
        ensures
            kind == self@.key_kind,
    {
        self.key_kind
    }

    /// The private key, as DER bytes.
    pub fn key(&self) -> (key: Vec<u8>)
        ensures
            key@ == self@.key,
    {
        copy_bytes(&self.key)
    }
}

/// Whether a fingerprint is on the allowlist.
pub open spec fn allowed(allowlist: Seq<Seq<char>>, fingerprint: Seq<char>) -> bool {
    allowlist.contains(fingerprint)
}

/// What comes of checking the fingerprint of a peer, if it presented a
/// certificate.
pub open spec fn authorization(
    allowlist: Seq<Seq<char>>,
    fingerprint: Option<Seq<char>>,
) -> Result<Seq<char>, TransportErrorView> {
    match fingerprint {
        Some(fp) => if allowed(allowlist, fp) {
            Ok(fp)
        } else {
            Err(TransportErrorView::Unauthorized)
        },
        None => Err(TransportErrorView::Unauthorized),
    }
}

/// What the result of an authorization says.
pub open spec fn authorization_view(r: Result<String, TransportError>) -> Result<
    Seq<char>,
    TransportErrorView,
> {
    match r {
        Ok(fp) => Ok(fp@),
        Err(e) => Err(e@),
    }
}

/// Check the fingerprint of a peer, if it presented a certificate, against the
/// allowlist. Returns the verified fingerprint.
pub fn authorize_fingerprint(allowlist: &Vec<String>, fingerprint: Option<String>) -> (result:
    Result<String, TransportError>)
    ensures
        authorization_view(result) == authorization(
            texts_view(allowlist@),
            match fingerprint {
                Some(fp) => Some(fp@),
                None => None,
            },
        ),
{
    let fp = match fingerprint {
        Some(fp) => fp,
        None => return Err(TransportError::Unauthorized),
    };
    let ghost list = texts_view(allowlist@);
    let mut i: usize = 0;
    while i < allowlist.len()
        invariant
            fingerprint == Some(fp),
            list == texts_view(allowlist@),
            0 <= i <= allowlist@.len(),
            forall|j: int| 0 <= j < i ==> list[j] != fp@,
        decreases allowlist@.len() - i,
    {
        if str_eq(allowlist[i].as_str(), fp.as_str()) {
            assert(list[i as int] == fp@);
            return Ok(fp);
        }
        i = i + 1;
    }
    Err(TransportError::Unauthorized)
}

/// Check a peer's certificate, if it presented one, against the allowlist of
/// fingerprints. Returns the verified fingerprint.
pub fn authorize(allowlist: &Vec<String>, cert: Option<&[u8]>) -> (result: Result<
    String,
    TransportError,
>)
    ensures
        authorization_view(result) == authorization(
            texts_view(allowlist@),
            match cert {
                Some(der) => Some(fingerprint_of(der@)),
                None => None,
            },
        ),
{
    match cert {
        Some(der) => authorize_fingerprint(allowlist, Some(fingerprint_hex(der))),
        None => authorize_fingerprint(allowlist, None),
    }
}

/// A fingerprint of `n` bytes has two digits for each and a colon between any
/// two, and is in lower case.
pub proof fn law_fingerprint_format(bytes: Seq<u8>)
    requires
        bytes.len() > 0,
    ensures
        colon_hex(bytes).len() == 3 * bytes.len() - 1,
        lowercase(colon_hex(bytes)) == colon_hex(bytes),
        forall|i: int|
            0 <= i < bytes.len() ==> colon_hex(bytes).subrange(3 * i, 3 * i + 2) == hex_byte(
                #[trigger] bytes[i],
            ),
        forall|i: int|
            0 < i < bytes.len() ==> #[trigger] colon_hex(bytes)[3 * i - 1] == ':',
    decreases bytes.len(),
{
    reveal_strlit(":");
    let text = colon_hex(bytes);
    let n = bytes.len() as int;
    if n == 1 {
        assert(text.subrange(0, 2) =~= hex_byte(bytes[0]));
    } else {
        let init = bytes.drop_last();
        law_fingerprint_format(init);
        let head = colon_hex(init);
        let tail = hex_byte(bytes.last());
        assert(text == head + ":"@ + tail);
        assert forall|i: int| 0 <= i < n implies text.subrange(3 * i, 3 * i + 2) == hex_byte(
            #[trigger] bytes[i],
        ) by {
            if i < n - 1 {
                assert(init[i] == bytes[i]);
                assert(text.subrange(3 * i, 3 * i + 2) =~= head.subrange(3 * i, 3 * i + 2));
            } else {
                assert(text.subrange(3 * i, 3 * i + 2) =~= tail);
            }
        }
        assert forall|i: int| 0 < i < n implies #[trigger] text[3 * i - 1] == ':' by {
            if i < n - 1 {
                assert(head[3 * i - 1] == ':');
            }
        }
        assert(lowercase(head) == head);
        assert(lowercase(text) =~= lowercase(head) + lowercase(":"@) + lowercase(tail));
        assert(lowercase(":"@) =~= ":"@);
        assert(lowercase(tail) =~= tail);
    }
    assert(lowercase(text) =~= text);
}

/// An unknown peer, or one without a certificate, is refused; a listed one is
/// let in under its fingerprint.
pub proof fn law_authorization(allowlist: Seq<Seq<char>>, fp: Seq<char>)
    ensures
        authorization(allowlist, None) == Err::<Seq<char>, TransportErrorView>(
            TransportErrorView::Unauthorized,
        ),
        authorization(allowlist, Some(fp)) is Ok <==> allowlist.contains(fp),
        authorization(seq![], Some(fp)) is Err,
        authorization(allowlist.push(fp), Some(fp)) == Ok::<Seq<char>, TransportErrorView>(fp),
{
    assert(allowlist.push(fp)[allowlist.len() as int] == fp);
}

/// What each section of a PEM file adds: certificates are collected in order,
/// and the last private key counts, in its form. Other sections add nothing.
pub proof fn law_what_sections_add(sections: Seq<PemView>, der: Seq<u8>)
    ensures
        certificates(sections.push(PemView::Certificate(der))) == certificates(sections).push(der),
        certificates(sections.push(PemView::Pkcs8Key(der))) == certificates(sections),
        certificates(sections.push(PemView::Pkcs1Key(der))) == certificates(sections),
        certificates(sections.push(PemView::Sec1Key(der))) == certificates(sections),
        certificates(sections.push(PemView::Other)) == certificates(sections),
        private_key(sections.push(PemView::Pkcs8Key(der))) == Some((KeyKind::Pkcs8, der)),
        private_key(sections.push(PemView::Pkcs1Key(der))) == Some((KeyKind::Pkcs1, der)),
        private_key(sections.push(PemView::Sec1Key(der))) == Some((KeyKind::Sec1, der)),
        private_key(sections.push(PemView::Certificate(der))) == private_key(sections),
        private_key(sections.push(PemView::Other)) == private_key(sections),
        certificates(Seq::<PemView>::empty()) == Seq::<Seq<u8>>::empty(),
        private_key(Seq::<PemView>::empty()) is None,
{
    assert(sections.push(PemView::Certificate(der)).drop_last() =~= sections);
    assert(sections.push(PemView::Pkcs8Key(der)).drop_last() =~= sections);
    assert(sections.push(PemView::Pkcs1Key(der)).drop_last() =~= sections);
    assert(sections.push(PemView::Sec1Key(der)).drop_last() =~= sections);
    assert(sections.push(PemView::Other).drop_last() =~= sections);
}

/// Whether a section holds a private key.
pub open spec fn is_key(section: PemView) -> bool {
    section is Pkcs8Key || section is Pkcs1Key || section is Sec1Key
}

/// Which PEM files load: those with a certificate and a private key. Without a
/// key that is the error, with or without a certificate; with a key alone it is
/// the certificate that is missing. A file that cannot be read gives the error
/// of reading it.
pub proof fn law_which_identities_load(sections: Seq<PemView>, reason: Seq<char>)
    ensures
        ({
            let keyed = exists|i: int| 0 <= i < sections.len() && is_key(#[trigger] sections[i]);
            let certified = exists|i: int|
                0 <= i < sections.len() && #[trigger] sections[i] is Certificate;
            let loaded = identity_of_pem(Ok(sections));
            &&& keyed && certified <==> loaded is Ok
            &&& !keyed ==> loaded == Err::<IdentityView, TransportErrorView>(
                TransportErrorView::Identity("no private key in PEM"@),
            )
            &&& keyed && !certified ==> loaded == Err::<IdentityView, TransportErrorView>(
                TransportErrorView::Identity("no certificate in PEM"@),
            )
        }),
        identity_of_pem(Err(reason)) == Err::<IdentityView, TransportErrorView>(
            TransportErrorView::Io(reason),
        ),
{
    lemma_section_kinds(sections);
}

/// There are certificates and a private key exactly where there are sections
/// that hold them.
proof fn lemma_section_kinds(sections: Seq<PemView>)
    ensures
        private_key(sections) is Some <==> exists|i: int|
            0 <= i < sections.len() && is_key(#[trigger] sections[i]),
        certificates(sections).len() > 0 <==> exists|i: int|
            0 <= i < sections.len() && #[trigger] sections[i] is Certificate,
    decreases sections.len(),
{
    if sections.len() > 0 {
        let init = sections.drop_last();
        let n = init.len() as int;
        lemma_section_kinds(init);
        assert(sections[n] == sections.last());
        if exists|i: int| 0 <= i < init.len() && is_key(#[trigger] init[i]) {
            let i = choose|i: int| 0 <= i < init.len() && is_key(#[trigger] init[i]);
            assert(is_key(sections[i]));
        }
        if exists|i: int| 0 <= i < init.len() && #[trigger] init[i] is Certificate {
            let i = choose|i: int| 0 <= i < init.len() && #[trigger] init[i] is Certificate;
            assert(sections[i] is Certificate);
        }
        if exists|i: int| 0 <= i < sections.len() && is_key(#[trigger] sections[i]) {
            let i = choose|i: int| 0 <= i < sections.len() && is_key(#[trigger] sections[i]);
            if i < n {
                assert(is_key(init[i]));
            }
        }
        if exists|i: int| 0 <= i < sections.len() && #[trigger] sections[i] is Certificate {
            let i = choose|i: int| 0 <= i < sections.len() && #[trigger] sections[i] is Certificate;
            if i < n {
                assert(init[i] is Certificate);
            }
        }
    }
}

/// A loaded identity holds the certificates and the key of the file, and one
/// more section changes of it only what the section holds.
pub proof fn law_loaded_identities(sections: Seq<PemView>, der: Seq<u8>)
    requires
        identity_of_pem(Ok(sections)) is Ok,
    ensures
        ({
            let id = identity_of_pem(Ok(sections))->Ok_0;
            &&& id.certs == certificates(sections)
            &&& Some((id.key_kind, id.key)) == private_key(sections)
            &&& identity_of_pem(Ok(sections.push(PemView::Certificate(der)))) == Ok::<
                IdentityView,
                TransportErrorView,
            >(IdentityView { certs: id.certs.push(der), key_kind: id.key_kind, key: id.key })
            &&& identity_of_pem(Ok(sections.push(PemView::Pkcs8Key(der)))) == Ok::<
                IdentityView,
                TransportErrorView,
            >(IdentityView { certs: id.certs, key_kind: KeyKind::Pkcs8, key: der })
            &&& identity_of_pem(Ok(sections.push(PemView::Pkcs1Key(der)))) == Ok::<
                IdentityView,
                TransportErrorView,
            >(IdentityView { certs: id.certs, key_kind: KeyKind::Pkcs1, key: der })
            &&& identity_of_pem(Ok(sections.push(PemView::Sec1Key(der)))) == Ok::<
                IdentityView,
                TransportErrorView,
            >(IdentityView { certs: id.certs, key_kind: KeyKind::Sec1, key: der })
            &&& identity_of_pem(Ok(sections.push(PemView::Other))) == Ok::<
                IdentityView,
                TransportErrorView,
            >(id)
        }),
{
    law_what_sections_add(sections, der);
}

/// Whether `PRIVATE_KEY` stands in `pem` with its underscore at `i`.
pub open spec fn odd_underscore(pem: Seq<u8>, i: int) -> bool {
    &&& 7 <= i && i + 4 <= pem.len()
    &&& pem[i - 7] == 80 && pem[i - 6] == 82 && pem[i - 5] == 73 && pem[i - 4] == 86 && pem[i - 3]
        == 65 && pem[i - 2] == 84 && pem[i - 1] == 69
    &&& pem[i] == 95
    &&& pem[i + 1] == 75 && pem[i + 2] == 69 && pem[i + 3] == 89
}

/// Normalizing writes a blank for the underscore of every `PRIVATE_KEY`, and
/// leaves every other byte as it is.
pub proof fn law_normalizing_changes_underscores_only(pem: Seq<u8>, i: int)
    requires
        0 <= i < pem.len(),
    ensures
        normalized(pem).len() == pem.len(),
        odd_underscore(pem, i) ==> normalized(pem)[i] == 32,
        !odd_underscore(pem, i) ==> normalized(pem)[i] == pem[i],
    decreases pem.len(),
{
    lemma_normalized_len(pem);
    if odd_label().is_prefix_of(pem) {
        let rest = pem.skip(11);
        lemma_normalized_len(rest);
        assert forall|k: int| 0 <= k < 11 implies #[trigger] pem[k] == odd_label()[k] by {
            assert(pem.subrange(0, 11)[k] == pem[k]);
        }
        assert(pem[0] == 80 && pem[1] == 82 && pem[2] == 73 && pem[3] == 86 && pem[4] == 65
            && pem[5] == 84 && pem[6] == 69 && pem[7] == 95 && pem[8] == 75 && pem[9] == 69
            && pem[10] == 89);
        if i < 11 {
            assert(normalized(pem)[i] == usual_label()[i]);
        } else {
            law_normalizing_changes_underscores_only(rest, i - 11);
            assert(rest[i - 11] == pem[i]);
            assert(normalized(pem)[i] == normalized(rest)[i - 11]);
            if i >= 18 {
                assert forall|k: int| -7 <= k < 4 && i + k < pem.len() implies rest[i - 11 + k]
                    == #[trigger] pem[i + k] by {}
                assert(odd_underscore(pem, i) == odd_underscore(rest, i - 11)) by {
                    assert(i + 4 <= pem.len() ==> rest[i - 11 - 7] == pem[i + (-7)] && rest[i - 11
                        - 6] == pem[i + (-6)] && rest[i - 11 - 5] == pem[i + (-5)] && rest[i - 11
                        - 4] == pem[i + (-4)] && rest[i - 11 - 3] == pem[i + (-3)] && rest[i - 11
                        - 2] == pem[i + (-2)] && rest[i - 11 - 1] == pem[i + (-1)] && rest[i - 11
                        + 1] == pem[i + 1] && rest[i - 11 + 2] == pem[i + 2] && rest[i - 11 + 3]
                        == pem[i + 3]);
                }
            } else {
                assert(pem[i - 7] != 80);
            }
        }
    } else {
        let rest = pem.drop_first();
        lemma_normalized_len(rest);
        assert(normalized(pem) == seq![pem[0]] + normalized(rest));
        if i > 0 {
            law_normalizing_changes_underscores_only(rest, i - 1);
            assert(normalized(pem)[i] == normalized(rest)[i - 1]);
            assert(rest[i - 1] == pem[i]);
            if i == 7 {
                if odd_underscore(pem, i) {
                    assert(pem.subrange(0, 11) =~= odd_label());
                }
            } else if i > 7 {
                assert(odd_underscore(pem, i) == odd_underscore(rest, i - 1)) by {
                    assert(i + 4 <= pem.len() ==> rest[i - 1 - 7] == pem[i - 7] && rest[i - 1 - 6]
                        == pem[i - 6] && rest[i - 1 - 5] == pem[i - 5] && rest[i - 1 - 4] == pem[i
                        - 4] && rest[i - 1 - 3] == pem[i - 3] && rest[i - 1 - 2] == pem[i - 2]
                        && rest[i - 1 - 1] == pem[i - 1] && rest[i - 1 + 1] == pem[i + 1] && rest[i
                        - 1 + 2] == pem[i + 2] && rest[i - 1 + 3] == pem[i + 3]);
                }
            }
        }
    }
}

/// A byte is written as its high and its low half, each as one of the sixteen
/// digits.
pub proof fn law_hexadecimal_digits(b: u8)
    ensures
        hex_byte(b) == seq![
            "0123456789abcdef"@[b as int / 16],
            "0123456789abcdef"@[b as int % 16],
        ],
{
    reveal_strlit("0123456789abcdef");
    assert forall|n: int| 0 <= n < 16 implies hex_digit(n) == #[trigger] "0123456789abcdef"@[n] by {
        assert(n == 0 || n == 1 || n == 2 || n == 3 || n == 4 || n == 5 || n == 6 || n == 7 || n
            == 8 || n == 9 || n == 10 || n == 11 || n == 12 || n == 13 || n == 14 || n == 15);
    }
    assert(hex_byte(b) =~= seq![
        "0123456789abcdef"@[b as int / 16],
        "0123456789abcdef"@[b as int % 16],
    ]);
}

/// A fingerprint writes every byte of the digest of the whole certificate, in
/// order.
pub proof fn law_fingerprints_write_the_digest(cert: Seq<u8>, i: int)
    requires
        0 <= i < sha256_of(cert).len(),
    ensures
        fingerprint_of(cert).len() == 3 * sha256_of(cert).len() - 1,
        fingerprint_of(cert)[3 * i] == "0123456789abcdef"@[sha256_of(cert)[i] as int / 16],
        fingerprint_of(cert)[3 * i + 1] == "0123456789abcdef"@[sha256_of(cert)[i] as int % 16],
        i > 0 ==> fingerprint_of(cert)[3 * i - 1] == ':',
{
    let digest = sha256_of(cert);
    let text = fingerprint_of(cert);
    law_fingerprint_format(digest);
    law_hexadecimal_digits(digest[i]);
    let pair = text.subrange(3 * i, 3 * i + 2);
    assert(pair == hex_byte(digest[i]));
    assert(pair[0] == text[3 * i] && pair[1] == text[3 * i + 1]);
}

/// Who is let in, and who is not: a fingerprint that stands on the allowlist as
/// it is, under that fingerprint, and nobody else.
pub proof fn law_who_is_let_in(allowlist: Seq<Seq<char>>, fp: Seq<char>)
    ensures
        (exists|i: int| 0 <= i < allowlist.len() && allowlist[i] == fp) ==> authorization(
            allowlist,
            Some(fp),
        ) == Ok::<Seq<char>, TransportErrorView>(fp),
        (forall|i: int| 0 <= i < allowlist.len() ==> allowlist[i] != fp) ==> authorization(
            allowlist,
            Some(fp),
        ) == Err::<Seq<char>, TransportErrorView>(TransportErrorView::Unauthorized),
{
}

/// A transport error says what went wrong and passes its reason on.
pub proof fn law_transport_errors_say_their_reason(reason: Seq<char>)
    ensures
        transport_error_text(TransportErrorView::Identity(reason)) == "failed to load identity: "@
            + reason,
        transport_error_text(TransportErrorView::Io(reason)) == "io error: "@ + reason,
        transport_error_text(TransportErrorView::Tls(reason)) == "tls error: "@ + reason,
        transport_error_text(TransportErrorView::Unauthorized)
            == "peer certificate missing or unauthorized"@,
        transport_error_text(TransportErrorView::Handshake(reason)) == "tls handshake error: "@
            + reason,
{
}

} // verus!
