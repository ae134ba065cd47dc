//! Helpers for tests: a deterministic generator and throwaway certificates.

use vstd::prelude::*;
use vstd::string::StringExecFns;
use vstd::utf8::{encode_utf8, is_ascii_chars, is_ascii_chars_encode_utf8};

use crate::text::decimal;
use crate::transport::{
    certificates, identity_of_pem, lemma_nothing_to_normalize, normalized, pem_sections,
    private_key, IdentityView, KeyKind, PemView, TransportErrorView,
};

verus! {

/// The state that a seed gives.
pub open spec fn seeded(seed: u64) -> u64 {
    seed.wrapping_mul(0x9E37_79B9_7F4A_7C15) | 1
}

/// One xorshift step.
pub open spec fn xorshift(state: u64) -> u64 {
    let x = state ^ (state << 13);
    let y = x ^ (x >> 7);
    y ^ (y << 17)
}

/// The state after `n` steps.
pub open spec fn after_steps(state: u64, n: nat) -> u64
    decreases n,
{
    if n == 0 {
        state
    } else {
        xorshift(after_steps(state, (n - 1) as nat))
    }
}

/// The lowest byte of each of the next `n` states.
pub open spec fn random_bytes(state: u64, n: nat) -> Seq<u8> {
    Seq::new(n, |i: int| (after_steps(state, (i + 1) as nat) % 256) as u8)
}

/// A tiny deterministic PRNG (xorshift64) so randomized tests are repeatable
/// without pulling in a RNG dependency.
#[derive(Debug)]
pub struct Rng(u64);

impl View for Rng {
    type V = u64;

    /// The state.
    closed spec fn view(&self) -> u64 {
        self.0
    }
}

impl Rng {
    pub fn new(seed: u64) -> (rng: Self)
        ensures
            rng@ == seeded(seed),
    {
        Self(seed.wrapping_mul(0x9E37_79B9_7F4A_7C15) | 1)
    }

    /// The next number.
    pub fn next(&mut self) -> (n: u64)
        ensures
            n == xorshift(old(self)@),
            final(self)@ == n,
    {
        let mut x: u64 = self.0;
        x = x ^ (x << 13);
        x = x ^ (x >> 7);
        x = x ^ (x << 17);
        self.0 = x;
        x
    }

    /// The next number below `hi`, or zero where `hi` is zero.
    pub fn range(&mut self, hi: usize) -> (n: usize)
        ensures
            n == if hi == 0 {
                0
            } else {
                xorshift(old(self)@) as int % hi as int
            },
            final(self)@ == xorshift(old(self)@),
    {
        let x: u64 = self.next();
        if hi == 0 {
            0
        } else {
            (x % hi as u64) as usize
        }
    }

    /// The next `n` bytes.
    pub fn bytes(&mut self, n: usize) -> (bytes: Vec<u8>)
        ensures
            bytes@ == random_bytes(old(self)@, n as nat),
            final(self)@ == after_steps(old(self)@, n as nat),
    {
        let ghost start = self@;
        let mut bytes: Vec<u8> = Vec::new();
        let mut i: usize = 0;
        assert(bytes@ =~= random_bytes(start, 0));
        while i < n
            invariant
                0 <= i <= n,
                bytes@ == random_bytes(start, i as nat),
                self@ == after_steps(start, i as nat),
            decreases n - i,
        {
            let x: u64 = self.next();
            bytes.push((x % 256) as u8);
            i = i + 1;
            assert(bytes@ =~= random_bytes(start, i as nat));
        }
        bytes
    }
}

/// The generator never gets stuck: a seed gives a state other than zero, and so
/// does every step from one.
pub proof fn law_state_is_never_zero(seed: u64, state: u64)
    requires
        state != 0,
    ensures
        seeded(seed) != 0,
        xorshift(state) != 0,
{
    let m = seed.wrapping_mul(0x9E37_79B9_7F4A_7C15);
    assert(m | 1 != 0) by (bit_vector);
    assert(({
        let x = state ^ (state << 13);
        let y = x ^ (x >> 7);
        y ^ (y << 17)
    }) != 0) by (bit_vector)
        requires
            state != 0,
    ;
}

/// A seed is multiplied by a fixed odd number, and the lowest bit is set.
pub proof fn law_seeding(seed: u64)
    ensures
        seeded(seed) % 2 == 1,
        seeded(seed) / 2 == (seed * 0x9E37_79B9_7F4A_7C15int % 0x1_0000_0000_0000_0000) / 2,
{
    let m = seed.wrapping_mul(0x9E37_79B9_7F4A_7C15);
    assert((m | 1) % 2 == 1) by (bit_vector);
    assert((m | 1) / 2 == m / 2) by (bit_vector);
}

/// A step takes the state times 2 to the 13th into it, then that by 2 to the 7th,
/// then that times 2 to the 17th, each time within 64 bits.
pub proof fn law_xorshift_steps(state: u64, x: u64, y: u64)
    requires
        x == state ^ ((state * 0x2000 % 0x1_0000_0000_0000_0000) as u64),
        y == x ^ (x / 128),
    ensures
        xorshift(state) == y ^ ((y * 0x2_0000 % 0x1_0000_0000_0000_0000) as u64),
{
    assert(state << 13 == state * 0x2000 % 0x1_0000_0000_0000_0000) by (bit_vector);
    assert(x >> 7 == x / 128) by (bit_vector);
    assert(y << 17 == y * 0x2_0000 % 0x1_0000_0000_0000_0000) by (bit_vector);
}

/// Steps add up.
pub proof fn law_steps_add_up(state: u64, first: nat, second: nat)
    ensures
        after_steps(state, first + second) == after_steps(after_steps(state, first), second),
        after_steps(state, 0) == state,
        after_steps(state, 1) == xorshift(state),
    decreases second,
{
    reveal_with_fuel(after_steps, 2);
    if second > 0 {
        law_steps_add_up(state, first, (second - 1) as nat);
        assert(after_steps(state, first + second) == xorshift(
            after_steps(state, (first + second - 1) as nat),
        ));
    }
}

/// Bytes are drawn one step each, and drawing them in two goes gives the same
/// bytes as drawing them in one.
pub proof fn law_bytes_are_drawn_in_order(state: u64, first: nat, second: nat)
    ensures
        random_bytes(state, first + second) == random_bytes(state, first) + random_bytes(
            after_steps(state, first),
            second,
        ),
        random_bytes(state, 0) == Seq::<u8>::empty(),
        random_bytes(state, 1) == seq![(xorshift(state) % 256) as u8],
{
    let all = random_bytes(state, first + second);
    let mid = after_steps(state, first);
    let back = random_bytes(mid, second);
    assert forall|i: int| first <= i < first + second implies all[i] == #[trigger] back[i
        - first] by {
        law_steps_add_up(state, first, (i - first + 1) as nat);
    }
    assert(all =~= random_bytes(state, first) + back);
    assert(random_bytes(state, 0) =~= Seq::<u8>::empty());
    law_steps_add_up(state, 0, 1);
    assert(random_bytes(state, 1) =~= seq![(xorshift(state) % 256) as u8]);
}

/// A certificate in its two forms, with its key: certificate PEM, key PEM and
/// certificate DER.
type Generated = (String, String, Vec<u8>);

/// What a generated certificate with its key says.
pub type GeneratedView = (Seq<char>, Seq<char>, Seq<u8>);

/// The longest name, in characters, whose certificate is known to be short
/// enough to be read back from its PEM file. A certificate is less than a few
/// thousand bytes longer than its name, base64 in lines of 64 characters makes
/// that at most 11 / 8 as long, and sections of up to 256 MiB are read.
pub const MAX_NAME_LEN: usize = 0xb00_0000;

/// Whether a text is made of ASCII characters other than the underscore.
pub open spec fn plain_ascii(text: Seq<char>) -> bool {
    is_ascii_chars(text) && !text.contains('_')
}

/// Whether two PEM texts hold a certificate and a PKCS#8 private key: each on
/// its own, and one after the other in one file.
pub open spec fn holds_identity(
    cert_pem: Seq<char>,
    key_pem: Seq<char>,
    der: Seq<u8>,
    key: Seq<u8>,
) -> bool {
    &&& plain_ascii(cert_pem)
    &&& plain_ascii(key_pem)
    &&& pem_sections(encode_utf8(cert_pem)) == Ok::<Seq<PemView>, Seq<char>>(
        seq![PemView::Certificate(der)],
    )
    &&& pem_sections(encode_utf8(key_pem)) == Ok::<Seq<PemView>, Seq<char>>(
        seq![PemView::Pkcs8Key(key)],
    )
    &&& pem_sections(encode_utf8(cert_pem + key_pem)) == Ok::<Seq<PemView>, Seq<char>>(
        seq![PemView::Certificate(der), PemView::Pkcs8Key(key)],
    )
}

/// A number in base 256, most significant digit first, without leading zeros.
pub open spec fn base256(n: nat) -> Seq<u8>
    decreases n,
{
    if n < 256 {
        seq![n as u8]
    } else {
        base256(n / 256).push((n % 256) as u8)
    }
}

/// A length as DER writes it: one byte below 128, else the number of its bytes
/// and the bytes.
pub open spec fn der_length(n: nat) -> Seq<u8> {
    if n < 128 {
        seq![n as u8]
    } else {
        seq![(128 + base256(n).len()) as u8] + base256(n)
    }
}

/// A value as DER writes it: its tag, its length and its content.
pub open spec fn der_value(tag: u8, content: Seq<u8>) -> Seq<u8> {
    seq![tag] + der_length(content.len()) + content
}

/// The subject alternative name extension with one name in it, from its object
/// identifier on.
pub open spec fn alt_name_extension(name: Seq<u8>) -> Seq<u8> {
    seq![0x06u8, 0x03, 0x55, 0x1d, 0x11] + der_value(0x04, der_value(0x30, name))
}

/// Whether `part` stands in `der` at `i`.
pub open spec fn stands_at(der: Seq<u8>, part: Seq<u8>, i: int) -> bool {
    0 <= i && i + part.len() <= der.len() && der.subrange(i, i + part.len()) == part
}

/// Whether a certificate is for one host name and no other.
pub open spec fn bears_name(der: Seq<u8>, cn: Seq<char>) -> bool {
    exists|i: int| stands_at(der, alt_name_extension(der_value(0x82, encode_utf8(cn))), i)
}

/// Whether a certificate is for one IP address, of the given octets, and no other.
pub open spec fn bears_address(der: Seq<u8>, octets: Seq<u8>) -> bool {
    exists|i: int| stands_at(der, alt_name_extension(der_value(0x87, octets)), i)
}

/// An IPv4 address as text: its octets in decimals, divided by dots.
pub open spec fn dotted(a: u8, b: u8, c: u8, d: u8) -> Seq<char> {
    decimal(a as nat) + seq!['.'] + decimal(b as nat) + seq!['.'] + decimal(c as nat) + seq!['.']
        + decimal(d as nat)
}

/// The number that a hexadecimal digit says.
pub open spec fn hex_digit_value(c: char) -> Option<int> {
    if '0' <= c <= '9' {
        Some(c as int - '0' as int)
    } else if 'a' <= c <= 'f' {
        Some(c as int - 'a' as int + 10)
    } else if 'A' <= c <= 'F' {
        Some(c as int - 'A' as int + 10)
    } else {
        None
    }
}

/// The number that hexadecimal digits say.
pub open spec fn hex_value(text: Seq<char>) -> Option<int>
    decreases text.len(),
{
    if text.len() == 0 {
        Some(0)
    } else {
        match (hex_value(text.drop_last()), hex_digit_value(text.last())) {
            (Some(front), Some(last)) => Some(front * 16 + last),
            _ => None,
        }
    }
}

/// Whether a text is one group of an IPv6 address: up to four hexadecimal digits
/// for two octets.
pub open spec fn spells_group(text: Seq<char>, octets: Seq<u8>) -> bool {
    &&& octets.len() == 2
    &&& 1 <= text.len() <= 4
    &&& hex_value(text) == Some(octets[0] * 256 + octets[1])
}

/// Whether a text is groups of an IPv6 address, with colons between them. Where
/// `dots` says so, an IPv4 address may stand for the last four octets.
pub open spec fn spells_groups(text: Seq<char>, octets: Seq<u8>, dots: bool) -> bool
    decreases octets.len(),
{
    ||| spells_group(text, octets)
    ||| (dots && octets.len() == 4 && text == dotted(octets[0], octets[1], octets[2], octets[3]))
    ||| (octets.len() > 2 && exists|i: int|
        0 <= i < text.len() && #[trigger] text[i] == ':' && spells_group(
            text.take(i),
            octets.take(2),
        ) && spells_groups(text.skip(i + 1), octets.skip(2), dots))
}

/// Whether a text is what stands on one side of a double colon: groups, or
/// nothing at all.
pub open spec fn spells_side(text: Seq<char>, octets: Seq<u8>, dots: bool) -> bool {
    (text.len() == 0 && octets.len() == 0) || spells_groups(text, octets, dots)
}

/// Whether a text is an IPv6 address with a double colon at `i`, which stands
/// for the zeros between the first `h` octets and the last `t`.
pub open spec fn spells_compressed(
    text: Seq<char>,
    octets: Seq<u8>,
    i: int,
    h: int,
    t: int,
) -> bool {
    &&& 0 <= i && i + 2 <= text.len() && text[i] == ':' && text[i + 1] == ':'
    &&& 0 <= h && 0 <= t && h + t <= 14
    &&& spells_side(text.take(i), octets.take(h), false)
    &&& spells_side(text.skip(i + 2), octets.skip(16 - t), true)
    &&& forall|k: int| h <= k < 16 - t ==> #[trigger] octets[k] == 0
}

/// Whether a text is an IPv6 address with the given octets: all groups, or a
/// double colon in the place of one or more groups of zeros.
pub open spec fn spells_ipv6(text: Seq<char>, octets: Seq<u8>) -> bool {
    &&& octets.len() == 16
    &&& {
        ||| spells_groups(text, octets, true)
        ||| exists|i: int, h: int, t: int| spells_compressed(text, octets, i, h, t)
    }
}

/// Whether a character can stand in an IPv6 address.
pub open spec fn address_char(c: char) -> bool {
    hex_digit_value(c) is Some || c == '.' || c == ':'
}

/// Whether a name has a colon and only characters of an IPv6 address, so that it
/// may be one rather than a host name.
pub open spec fn might_be_ipv6(name: Seq<char>) -> bool {
    name.contains(':') && forall|i: int| 0 <= i < name.len() ==> address_char(#[trigger] name[i])
}

/// Whether a name is an IPv4 address.
pub open spec fn is_ipv4(name: Seq<char>) -> bool {
    exists|a: u8, b: u8, c: u8, d: u8| name == #[trigger] dotted(a, b, c, d)
}

/// Whether a certificate is for the given name: an IP address stands in it by its
/// octets, and a host name as it is. A name that only looks like an IPv6 address
/// stands in it in one of the two forms.
pub open spec fn named_for(cn: Seq<char>, der: Seq<u8>) -> bool {
    &&& forall|a: u8, b: u8, c: u8, d: u8|
        cn == #[trigger] dotted(a, b, c, d) ==> bears_address(der, seq![a, b, c, d])
    &&& forall|octets: Seq<u8>| #[trigger]
        spells_ipv6(cn, octets) ==> bears_address(der, octets)
    &&& !is_ipv4(cn) && !might_be_ipv6(cn) ==> bears_name(der, cn)
    &&& might_be_ipv6(cn) ==> bears_name(der, cn) || exists|octets: Seq<u8>|
        octets.len() == 16 && #[trigger] bears_address(der, octets)
}

/// What holds of every certificate that is generated for a name: the name is
/// ASCII, the certificate is for it, and as long as the name is not overly long,
/// the texts hold the certificate and some private key.
pub open spec fn generated_for(cn: Seq<char>, made: GeneratedView) -> bool {
    &&& is_ascii_chars(cn)
    &&& named_for(cn, made.2)
    &&& cn.len() <= MAX_NAME_LEN ==> exists|key: Seq<u8>|
        holds_identity(made.0, made.1, made.2, key)
}

/// Generate a key pair and a self-signed certificate for the name `cn` with
/// `rcgen::generate_simple_self_signed`, and write both as PEM.
///
/// A name that is not ASCII is refused. Otherwise the subject alternative name
/// extension of the certificate holds that name and nothing else: the octets of
/// an IP address, as `std::net::IpAddr` is read from text, and for any other name
/// a DNS name with the characters of `cn`. Four decimals with dots are an IPv4
/// address, and groups of hexadecimal digits with colons an IPv6 address, also
/// where a double colon stands for zeros or an IPv4 address for the last two
/// groups. Of a name that only looks like an IPv6 address it is left open which
/// of the two forms it takes.
///
/// `rustls_pemfile::read_all` reads from the texts what was written into them,
/// base64 between `CERTIFICATE` and `PRIVATE KEY` markers: the certificate's DER
/// bytes, which are the third part, and a PKCS#8 key. That is claimed of names up
/// to `MAX_NAME_LEN` only, because sections of hundreds of megabytes are not
/// read. The key is random, and generating one can fail, so neither which key it
/// is nor that there is a result is stated.
#[verifier::external_body]
fn generate(cn: &str) -> (made: Option<Generated>)
    ensures
        made matches Some(m) ==> generated_for(cn@, (m.0@, m.1@, m.2@)),
{
    match rcgen::generate_simple_self_signed(vec![cn.to_string()]) {
        Ok(made) => Some((
            made.cert.pem(),
            made.key_pair.serialize_pem(),
            made.cert.der().to_vec(),
        )),
        Err(_) => None,
    }
}

/// A freshly generated self-signed certificate: (cert+key PEM, cert PEM,
/// key PEM, cert DER). Nothing, where none can be generated for the name, as for
/// one that is not ASCII. The key is random and making it can fail: `bundled`
/// says what is returned for each outcome.
pub fn test_cert(cn: &str) -> (made: Option<(String, String, String, Vec<u8>)>)
    ensures
        made matches Some(m) ==> m.0@ == m.1@ + m.2@ && generated_for(cn@, (m.1@, m.2@, m.3@)),
{
    bundled(generate(cn))
}

/// What is returned of an attempt to generate a certificate: where there is
/// one, it with its key, and both of them in one PEM file.
pub fn bundled(made: Option<(String, String, Vec<u8>)>) -> (out: Option<
    (String, String, String, Vec<u8>),
>)
    ensures
        match made {
            Some(m) => out matches Some(o) && o.0@ == m.0@ + m.1@ && o.1@ == m.0@ && o.2@ == m.1@
                && o.3@ == m.2@,
            None => out is None,
        },
{
    match made {
        Some((cert_pem, key_pem, der)) => Some(bundle(cert_pem, key_pem, der)),
        None => None,
    }
}

/// A certificate and its key, with both of them in one PEM file.
pub fn bundle(cert_pem: String, key_pem: String, der: Vec<u8>) -> (made: (
    String,
    String,
    String,
    Vec<u8>,
))
    ensures
        made.0@ == cert_pem@ + key_pem@,
        made.1@ == cert_pem@,
        made.2@ == key_pem@,
        made.3@ == der@,
{
    let mut both = cert_pem.clone();
    both.append(key_pem.as_str());
    (both, cert_pem, key_pem, der)
}

/// Whether a PEM text loads as an identity of one certificate and a PKCS#8
/// private key.
pub open spec fn loads_with(pem: Seq<char>, der: Seq<u8>, key: Seq<u8>) -> bool {
    identity_of_pem(pem_sections(normalized(encode_utf8(pem)))) == Ok::<
        IdentityView,
        TransportErrorView,
    >(IdentityView { certs: seq![der], key_kind: KeyKind::Pkcs8, key })
}

/// Identity PEM bundle (cert + key) for TLS tests: the first part of what
/// `test_cert` makes. It loads as an identity of one certificate, which is for
/// the name, and its key. The key is random and making it can fail: `bundle_pem`
/// says what is returned for each outcome.
pub fn identity_pem(cn: &str) -> (pem: Option<String>)
    ensures
        pem matches Some(p) ==> is_ascii_chars(cn@) && (cn@.len() <= MAX_NAME_LEN ==> exists|
            der: Seq<u8>,
            key: Seq<u8>,
        |
            #[trigger] loads_with(p@, der, key) && named_for(cn@, der)),
{
    let made = test_cert(cn);
    proof {
        if let Some(m) = &made {
            if cn@.len() <= MAX_NAME_LEN {
                let key = choose|key: Seq<u8>| holds_identity(m.1@, m.2@, m.3@, key);
                law_generated_identities_load(m.1@, m.2@, m.3@, key);
            }
        }
    }
    bundle_pem(made)
}

/// The PEM bundle of a certificate with its key, where there is one.
pub fn bundle_pem(made: Option<(String, String, String, Vec<u8>)>) -> (pem: Option<String>)
    ensures
        match made {
            Some(m) => pem matches Some(p) && p@ == m.0@,
            None => pem is None,
        },
{
    match made {
        Some(made) => Some(made.0),
        None => None,
    }
}

/// A certificate and its key load as an identity that holds exactly them; the
/// certificate alone is refused for want of a key, and the key alone for want of
/// a certificate.
pub proof fn law_generated_identities_load(
    cert_pem: Seq<char>,
    key_pem: Seq<char>,
    der: Seq<u8>,
    key: Seq<u8>,
)
    requires
        holds_identity(cert_pem, key_pem, der, key),
    ensures
        loads_with(cert_pem + key_pem, der, key),
        identity_of_pem(pem_sections(normalized(encode_utf8(cert_pem)))) == Err::<
            IdentityView,
            TransportErrorView,
        >(TransportErrorView::Identity("no private key in PEM"@)),
        identity_of_pem(pem_sections(normalized(encode_utf8(key_pem)))) == Err::<
            IdentityView,
            TransportErrorView,
        >(TransportErrorView::Identity("no certificate in PEM"@)),
{
    let both = cert_pem + key_pem;
    assert(plain_ascii(both)) by {
        if both.contains('_') {
            let i = choose|i: int| 0 <= i < both.len() && both[i] == '_';
            if i < cert_pem.len() {
                assert(cert_pem[i] == '_');
            } else {
                assert(key_pem[i - cert_pem.len()] == '_');
            }
        }
    }
    lemma_plain_ascii(both);
    lemma_plain_ascii(cert_pem);
    lemma_plain_ascii(key_pem);
    let cert = PemView::Certificate(der);
    let pkcs8 = PemView::Pkcs8Key(key);
    reveal_with_fuel(certificates, 3);
    reveal_with_fuel(private_key, 3);
    assert(seq![cert, pkcs8].drop_last() =~= seq![cert]);
    assert(seq![cert].drop_last() =~= seq![]);
    assert(seq![pkcs8].drop_last() =~= seq![]);
    assert(certificates(seq![cert, pkcs8]) =~= seq![der]);
}

/// Text without an underscore holds no label to be changed.
proof fn lemma_plain_ascii(text: Seq<char>)
    requires
        plain_ascii(text),
    ensures
        normalized(encode_utf8(text)) == encode_utf8(text),
{
    is_ascii_chars_encode_utf8(text);
    let bytes = encode_utf8(text);
    if bytes.contains(95u8) {
        let i = choose|i: int| 0 <= i < bytes.len() && bytes[i] == 95u8;
        assert(text[i] as u8 == 95u8);
        assert('\0' <= text[i] <= '\u{7f}');
        assert(text[i] == '_');
    }
    lemma_nothing_to_normalize(bytes);
}

} // verus!
