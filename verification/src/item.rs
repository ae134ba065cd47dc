//! Core clipboard item types and helpers.

use crate::bytes::push_bytes;
use crate::hash::sha256;
use crate::hash::sha256_of;
use crate::text::{
    eq_ignore_case, has_folded_prefix, lowercase, starts_with_folded, string_from_utf8, utf8_bytes,
};
use vstd::prelude::*;
use vstd::string::StringExecFns;
use vstd::utf8::{decode_utf8, encode_utf8, encode_utf8_decode_utf8, encode_utf8_valid_utf8, valid_utf8};

verus! {

/// Default maximum total clipboard item size (all representations combined).
pub const DEFAULT_MAX_ITEM_SIZE: usize = 64 * 1024 * 1024;

/// Hard ceiling for the configured item size cap. Guards against a
/// misconfigured or hostile config value causing unbounded allocations.
pub const MAX_ITEM_SIZE_LIMIT: usize = 256 * 1024 * 1024;

/// Preferred MIME type for plain text.
pub const MIME_TEXT_PLAIN: &'static str = "text/plain;charset=utf-8";

/// Common alias for plain text without a charset parameter.
pub const MIME_TEXT_PLAIN_ALT: &'static str = "text/plain";

/// MIME type for PNG images (the common clipboard image format).
pub const MIME_IMAGE_PNG: &'static str = "image/png";

/// Legacy X11 string targets. They carry text but are not MIME types, so they
/// are only transferable as a fallback when a selection offers no MIME type.
pub const X11_TEXT_TARGETS: [&'static str; 3] = ["UTF8_STRING", "STRING", "TEXT"];

/// Whether `t` is one of the legacy X11 string targets, whatever its case.
pub open spec fn x11_text_target(t: Seq<char>) -> bool {
    exists|k: int| 0 <= k < 3 && lowercase(#[trigger] X11_TEXT_TARGETS@[k]@) == lowercase(t)
}

pub fn is_x11_text_target(t: &str) -> (yes: bool)
    ensures
        yes == x11_text_target(t@),
{
    let targets = X11_TEXT_TARGETS;
    let mut k: usize = 0;
    while k < 3
        invariant
            targets == X11_TEXT_TARGETS,
            0 <= k <= 3,
            forall|j: int| 0 <= j < k ==> lowercase(#[trigger] targets@[j]@) != lowercase(t@),
        decreases 3 - k,
    {
        if eq_ignore_case(targets[k], t) {
            return true;
        }
        k = k + 1;
    }
    false
}

/// Whether a MIME type carries text: `text/*` or a legacy X11 string target,
/// whatever its case.
pub open spec fn text_mime(mime: Seq<char>) -> bool {
    starts_with_folded(mime, "text/"@) || x11_text_target(mime)
}

/// Whether a MIME type carries UTF-8 text that may be newline-normalized.
///
/// Text MIME types (`text/*`) plus the legacy X11 string targets are treated
/// as text; everything else is passed through as raw binary. The X11 target
/// match is case-insensitive.
pub fn is_text_mime(mime: &str) -> (yes: bool)
    ensures
        yes == text_mime(mime@),
{
    has_folded_prefix(mime, "text/") || is_x11_text_target(mime)
}

/// Whether a MIME type carries an image: `image/*`, whatever its case.
pub open spec fn image_mime(mime: Seq<char>) -> bool {
    starts_with_folded(mime, "image/"@)
}

/// Whether a MIME type carries an image.
pub fn is_image_mime(mime: &str) -> (yes: bool)
    ensures
        yes == image_mime(mime@),
{
    has_folded_prefix(mime, "image/")
}

/// One representation: its MIME type and its data.
pub type RepView = (Seq<char>, Seq<u8>);

/// Size of one representation in bytes.
pub open spec fn rep_len(rep: RepView) -> nat {
    encode_utf8(rep.0).len() + rep.1.len()
}

/// Size in bytes of all representations together.
pub open spec fn reps_len(reps: Seq<RepView>) -> nat
    decreases reps.len(),
{
    if reps.len() == 0 {
        0
    } else {
        rep_len(reps[0]) + reps_len(reps.drop_first())
    }
}

/// Size of one representation in bytes (MIME type plus data).
///
/// The single accounting rule for item size, shared by `total_size` and the
/// reading backends so the read-side and encode-side caps cannot diverge.
pub fn rep_size(mime: &str, data: &[u8]) -> (size: usize)
    requires
        rep_len((mime@, data@)) <= usize::MAX,
    ensures
        size == rep_len((mime@, data@)),
{
    mime.as_bytes().len() + data.len()
}

/// The bytes that identify one representation: its MIME type and its data, each
/// followed by a zero byte.
pub open spec fn rep_preimage(rep: RepView) -> Seq<u8> {
    encode_utf8(rep.0) + seq![0u8] + rep.1 + seq![0u8]
}

/// The digest that identifies one representation.
pub open spec fn rep_digest(rep: RepView) -> Seq<u8> {
    sha256_of(rep_preimage(rep))
}

/// Stable hash of a single representation.
pub fn rep_hash(mime: &str, data: &[u8]) -> (hash: [u8; 32])
    ensures
        hash@ == rep_digest((mime@, data@)),
{
    let mut message: Vec<u8> = utf8_bytes(mime);
    message.push(0);
    push_bytes(&mut message, data);
    message.push(0);
    assert(message@ =~= rep_preimage((mime@, data@)));
    sha256(&message)
}

/// A clipboard item with one or more MIME representations.
///
/// `origin` is the 8-byte id of the machine that created the item and
/// `serial` is a per-machine monotonic counter. Together they make the
/// item globally identifiable and are used for loop prevention.
#[derive(Debug, PartialEq, Eq)]
pub struct ClipboardItem {
    /// id of the originating machine (first 8 bytes of its cert fingerprint hash)
    pub origin: [u8; 8],
    /// monotonic per-machine counter, incremented per locally-originated item
    pub serial: u64,
    /// ordered list of (mime, data) representations; sender-preferred mime first
    pub reps: Vec<(String, Vec<u8>)>,
}

/// What a clipboard item says.
#[verifier::ext_equal]
pub struct ItemView {
    pub origin: Seq<u8>,
    pub serial: u64,
    pub reps: Seq<RepView>,
}

/// What a list of representations says.
pub open spec fn reps_view(reps: Seq<(String, Vec<u8>)>) -> Seq<RepView> {
    reps.map_values(|r: (String, Vec<u8>)| (r.0@, r.1@))
}

impl View for ClipboardItem {
    type V = ItemView;

    open spec fn view(&self) -> ItemView {
        ItemView { origin: self.origin@, serial: self.serial, reps: reps_view(self.reps@) }
    }
}

/// The digest that identifies what an item puts on the clipboard: that of its
/// first representation, or of an empty one where it has none.
pub open spec fn content_digest(reps: Seq<RepView>) -> Seq<u8> {
    if reps.len() > 0 {
        rep_digest(reps[0])
    } else {
        rep_digest((seq![], seq![]))
    }
}

/// Whether a MIME type is some form of plain text.
pub open spec fn plain_mime(mime: Seq<char>) -> bool {
    starts_with_folded(mime, "text/plain"@)
}

/// The text of the first plain-text representation, where there is one and its
/// data is well-formed UTF-8.
pub open spec fn plain_text(reps: Seq<RepView>) -> Option<Seq<char>>
    decreases reps.len(),
{
    if reps.len() == 0 {
        None
    } else if plain_mime(reps[0].0) {
        if valid_utf8(reps[0].1) {
            Some(decode_utf8(reps[0].1))
        } else {
            None
        }
    } else {
        plain_text(reps.drop_first())
    }
}

/// What an optional string says.
pub open spec fn opt_string_view(s: Option<String>) -> Option<Seq<char>> {
    match s {
        Some(t) => Some(t@),
        None => None,
    }
}

/// A text item: one representation, in the preferred plain-text type.
pub open spec fn text_item_view(text: Seq<char>, origin: Seq<u8>, serial: u64) -> ItemView {
    ItemView { origin, serial, reps: seq![(MIME_TEXT_PLAIN@, encode_utf8(text))] }
}

/// A copy of a byte vector.
pub(crate) fn copy_bytes(data: &Vec<u8>) -> (copy: Vec<u8>)
    ensures
        copy@ == data@,
{
    let mut copy: Vec<u8> = Vec::new();
    push_bytes(&mut copy, data);
    assert(copy@ =~= data@);
    copy
}

impl Clone for ClipboardItem {
    fn clone(&self) -> (copy: Self)
        ensures
            copy@ == self@,
    {
        let mut reps: Vec<(String, Vec<u8>)> = Vec::new();
        let mut i: usize = 0;
        while i < self.reps.len()
            invariant
                0 <= i <= self.reps@.len(),
                reps_view(reps@) == reps_view(self.reps@).take(i as int),
            decreases self.reps@.len() - i,
        {
            let mime = self.reps[i].0.clone();
            let data = copy_bytes(&self.reps[i].1);
            assert(mime@ == self.reps@[i as int].0@);
            assert(data@ == self.reps@[i as int].1@);
            let ghost before = reps@;
            reps.push((mime, data));
            assert(reps_view(reps@) =~= reps_view(before).push((mime@, data@)));
            i = i + 1;
            assert(reps_view(reps@) =~= reps_view(self.reps@).take(i as int));
        }
        assert(reps_view(self.reps@).take(i as int) =~= reps_view(self.reps@));
        ClipboardItem { origin: self.origin, serial: self.serial, reps }
    }
}

impl ClipboardItem {
    /// Build a text-only item in the preferred plain-text representation.
    pub fn text(text: &str, origin: [u8; 8], serial: u64) -> (item: Self)
        ensures
            item@ == text_item_view(text@, origin@, serial),
    {
        let mut reps: Vec<(String, Vec<u8>)> = Vec::new();
        reps.push((String::from_str(MIME_TEXT_PLAIN), utf8_bytes(text)));
        let item = ClipboardItem { origin, serial, reps };
        assert(item@ =~= text_item_view(text@, origin@, serial));
        item
    }

    /// Total size in bytes of all representations, where a `usize` holds it.
    pub(crate) fn checked_size(&self) -> (size: Option<usize>)
        ensures
            match size {
                Some(n) => n == reps_len(self@.reps),
                None => reps_len(self@.reps) > usize::MAX,
            },
    {
        let ghost all = self@.reps;
        let mut size: usize = 0;
        let mut i: usize = 0;
        assert(all.skip(0) =~= all);
        while i < self.reps.len()
            invariant
                0 <= i <= self.reps@.len(),
                all == reps_view(self.reps@),
                size + reps_len(all.skip(i as int)) == reps_len(all),
            decreases self.reps@.len() - i,
        {
            let mime_len: usize = self.reps[i].0.as_str().as_bytes().len();
            let data_len: usize = self.reps[i].1.len();
            assert(all.skip(i as int)[0] == all[i as int]);
            assert(all.skip(i as int).drop_first() =~= all.skip(i + 1));
            if data_len > usize::MAX - mime_len || mime_len + data_len > usize::MAX - size {
                return None;
            }
            size = size + (mime_len + data_len);
            i = i + 1;
        }
        Some(size)
    }

    /// Total size in bytes of all representations (does not include overhead).
    pub fn total_size(&self) -> (size: usize)
        requires
            reps_len(self@.reps) <= usize::MAX,
        ensures
            size == reps_len(self@.reps),
    {
        match self.checked_size() {
            Some(size) => size,
            None => 0,
        }
    }

    /// The primary representation: the one receivers apply when they can only
    /// advertise a single MIME type (sender-preferred, so first).
    pub fn primary(&self) -> (rep: Option<&(String, Vec<u8>)>)
        ensures
            match rep {
                Some(r) => self@.reps.len() > 0 && (r.0@, r.1@) == self@.reps[0] && *r
                    == self.reps@[0],
                None => self@.reps.len() == 0,
            },
    {
        if self.reps.len() > 0 {
            Some(&self.reps[0])
        } else {
            None
        }
    }

    /// MIME type of the primary representation, if any.
    pub fn primary_mime(&self) -> (mime: Option<&str>)
        ensures
            match mime {
                Some(m) => self@.reps.len() > 0 && m@ == self@.reps[0].0,
                None => self@.reps.len() == 0,
            },
    {
        match self.primary() {
            Some(rep) => Some(rep.0.as_str()),
            None => None,
        }
    }

    /// Whether the primary representation is plain text.
    pub fn primary_is_text(&self) -> (yes: bool)
        ensures
            yes == (self@.reps.len() > 0 && text_mime(self@.reps[0].0)),
    {
        match self.primary_mime() {
            Some(mime) => is_text_mime(mime),
            None => false,
        }
    }

    /// Whether the primary representation is an image.
    pub fn primary_is_image(&self) -> (yes: bool)
        ensures
            yes == (self@.reps.len() > 0 && image_mime(self@.reps[0].0)),
    {
        match self.primary_mime() {
            Some(mime) => is_image_mime(mime),
            None => false,
        }
    }

    /// Best-effort UTF-8 text extraction, preferring the plain-text MIME types.
    pub fn text_plain(&self) -> (text: Option<String>)
        ensures
            opt_string_view(text) == plain_text(self@.reps),
    {
        let ghost all = self@.reps;
        let mut i: usize = 0;
        assert(all.skip(0) =~= all);
        while i < self.reps.len()
            invariant
                0 <= i <= self.reps@.len(),
                all == reps_view(self.reps@),
                plain_text(all.skip(i as int)) == plain_text(all),
            decreases self.reps@.len() - i,
        {
            assert(all.skip(i as int)[0] == all[i as int]);
            assert(all.skip(i as int).drop_first() =~= all.skip(i + 1));
            if has_folded_prefix(self.reps[i].0.as_str(), MIME_TEXT_PLAIN_ALT) {
                return string_from_utf8(copy_bytes(&self.reps[i].1));
            }
            i = i + 1;
        }
        None
    }

    /// Stable content hash over the *primary* representation only.
    ///
    /// Used for content-based dedup so two machines copying identical
    /// content do not ping-pong it forever. Hashing only the primary
    /// representation (rather than every rep) is deliberate: a receiver can
    /// advertise just one MIME type at a time, so the item it echoes back is
    /// the primary rep alone. Hashing the primary makes that echo hash
    /// identical to the broadcast item, which is what echo suppression
    /// relies on when an item carries several representations.
    pub fn content_hash(&self) -> (hash: [u8; 32])
        ensures
            hash@ == content_digest(self@.reps),
    {
        match self.primary() {
            Some(rep) => rep_hash(rep.0.as_str(), &rep.1),
            None => {
                let empty: Vec<u8> = Vec::new();
                proof {
                    reveal_strlit("");
                    assert(""@ =~= Seq::<char>::empty());
                }
                rep_hash("", &empty)
            },
        }
    }
}

/// A change observed on the local clipboard by a backend.
#[derive(Debug, PartialEq, Eq)]
pub enum ClipboardChange {
    /// A new clipboard item is available.
    New(ClipboardItem),
}

/// What a clipboard change says: the item that is now on the clipboard.
impl View for ClipboardChange {
    type V = ItemView;

    open spec fn view(&self) -> ItemView {
        match self {
            ClipboardChange::New(item) => item@,
        }
    }
}

impl Clone for ClipboardChange {
    fn clone(&self) -> (copy: Self)
        ensures
            copy@ == self@,
    {
        match self {
            ClipboardChange::New(item) => ClipboardChange::New(item.clone()),
        }
    }
}

/// The origin id that a digest gives: its first eight bytes.
pub fn origin_from_digest(digest: &[u8; 32]) -> (origin: [u8; 8])
    ensures
        origin@ == digest@.take(8),
{
    let origin = [
        digest[0],
        digest[1],
        digest[2],
        digest[3],
        digest[4],
        digest[5],
        digest[6],
        digest[7],
    ];
    assert(origin@ =~= digest@.take(8));
    origin
}

/// Derive an 8-byte origin id from a certificate fingerprint string.
///
/// The fingerprint is stable and unique per machine (it already gates
/// connection auth), so it is a good persistent identity source.
pub fn origin_from_fingerprint(fingerprint: &str) -> (origin: [u8; 8])
    ensures
        origin@ == sha256_of(encode_utf8(fingerprint@)).take(8),
{
    origin_from_digest(&sha256(fingerprint.as_bytes()))
}

/// The text that a text item was built from comes back from it unchanged.
pub proof fn law_text_roundtrip(text: Seq<char>, origin: Seq<u8>, serial: u64)
    ensures
        plain_text(text_item_view(text, origin, serial).reps) == Some(text),
{
    let item = text_item_view(text, origin, serial);
    reveal_strlit("text/plain;charset=utf-8");
    reveal_strlit("text/plain");
    encode_utf8_valid_utf8(text);
    encode_utf8_decode_utf8(text);
    assert(lowercase(MIME_TEXT_PLAIN@) =~= MIME_TEXT_PLAIN@);
    assert(MIME_TEXT_PLAIN@.subrange(0, 10) =~= "text/plain"@);
}

/// Two items with the same primary representation have the same content hash,
/// whatever else they carry and wherever they come from.
pub proof fn law_content_digest_ignores_secondary_reps(a: ItemView, b: ItemView)
    requires
        a.reps.len() > 0,
        b.reps.len() > 0,
        a.reps[0] == b.reps[0],
    ensures
        content_digest(a.reps) == content_digest(b.reps),
{
}

/// Dropping all but the primary representation, as a receiver does that can
/// advertise only one MIME type, leaves the content hash as it is.
pub proof fn law_echo_keeps_content_digest(item: ItemView)
    requires
        item.reps.len() > 0,
    ensures
        content_digest(item.reps.take(1)) == content_digest(item.reps),
{
}

/// The identifying bytes of a representation tell its MIME type and its data
/// apart: for MIME types without a NUL character, two representations with the
/// same identifying bytes are the same.
pub proof fn law_rep_preimage_injective(a: RepView, b: RepView)
    requires
        !encode_utf8(a.0).contains(0u8),
        !encode_utf8(b.0).contains(0u8),
        rep_preimage(a) == rep_preimage(b),
    ensures
        a == b,
{
    let m = encode_utf8(a.0);
    let n = encode_utf8(b.0);
    let p = rep_preimage(a);
    assert(p[m.len() as int] == 0u8);
    assert(rep_preimage(b)[n.len() as int] == 0u8);
    if m.len() < n.len() {
        assert(p[m.len() as int] == n[m.len() as int]);
        assert(n.contains(0u8));
    }
    if n.len() < m.len() {
        assert(p[n.len() as int] == m[n.len() as int]);
        assert(m.contains(0u8));
    }
    assert(m =~= p.take(m.len() as int));
    assert(n =~= p.take(m.len() as int));
    encode_utf8_decode_utf8(a.0);
    encode_utf8_decode_utf8(b.0);
    assert(a.1 =~= p.subrange(m.len() as int + 1, p.len() - 1));
    assert(b.1 =~= p.subrange(m.len() as int + 1, p.len() - 1));
}

/// The hash of a representation covers all of it: the bytes of its MIME type, a
/// zero byte, the whole data and a zero byte, whatever their lengths.
pub proof fn law_hashed_bytes(mime: Seq<char>, data: Seq<u8>, hashed: Seq<u8>)
    requires
        hashed.len() == encode_utf8(mime).len() + data.len() + 2,
        hashed.take(encode_utf8(mime).len() as int) == encode_utf8(mime),
        hashed[encode_utf8(mime).len() as int] == 0,
        hashed.skip(encode_utf8(mime).len() as int + 1).drop_last() == data,
        hashed.last() == 0,
    ensures
        rep_digest((mime, data)) == sha256_of(hashed),
{
    let m = encode_utf8(mime);
    let n = m.len() as int;
    let other = m + seq![0u8] + data + seq![0u8];
    assert forall|i: int| 0 <= i < hashed.len() implies hashed[i] == other[i] by {
        if i < n {
            assert(hashed.take(n)[i] == hashed[i]);
        } else if n < i < hashed.len() - 1 {
            assert(hashed.skip(n + 1).drop_last()[i - n - 1] == hashed[i]);
        }
    }
    assert(hashed =~= rep_preimage((mime, data)));
}

/// Two representations, with MIME types without a NUL, have one hash only if
/// they are the same or the digest of two different texts is the same.
pub proof fn law_hash_covers_everything(a: RepView, b: RepView)
    requires
        !encode_utf8(a.0).contains(0u8),
        !encode_utf8(b.0).contains(0u8),
    ensures
        rep_digest(a) == sha256_of(encode_utf8(a.0) + seq![0u8] + a.1 + seq![0u8]),
        rep_digest(a) == rep_digest(b) ==> a == b || (encode_utf8(a.0) + seq![0u8] + a.1 + seq![0u8]
            != encode_utf8(b.0) + seq![0u8] + b.1 + seq![0u8] && sha256_of(
            encode_utf8(a.0) + seq![0u8] + a.1 + seq![0u8],
        ) == sha256_of(encode_utf8(b.0) + seq![0u8] + b.1 + seq![0u8])),
{
    if rep_preimage(a) == rep_preimage(b) {
        law_rep_preimage_injective(a, b);
    }
}

/// An item is known by the hash of its first representation, and an item
/// without any by that of two zero bytes.
pub proof fn law_item_is_known_by_its_primary(reps: Seq<RepView>)
    ensures
        reps.len() > 0 ==> content_digest(reps) == sha256_of(
            encode_utf8(reps[0].0) + seq![0u8] + reps[0].1 + seq![0u8],
        ),
        reps.len() == 0 ==> content_digest(reps) == sha256_of(seq![0u8, 0u8]),
{
    assert(encode_utf8(Seq::<char>::empty()) =~= Seq::<u8>::empty());
    assert(rep_preimage((seq![], seq![])) =~= seq![0u8, 0u8]);
}

/// The size of an item is the sum over its representations of the bytes of the
/// MIME type and of the data.
pub proof fn law_sizes_add_up(reps: Seq<RepView>, more: Seq<RepView>, rep: RepView)
    ensures
        reps_len(Seq::<RepView>::empty()) == 0,
        reps_len(seq![rep]) == encode_utf8(rep.0).len() + rep.1.len(),
        reps_len(reps + more) == reps_len(reps) + reps_len(more),
        rep_len(rep) == encode_utf8(rep.0).len() + rep.1.len(),
    decreases reps.len(),
{
    assert(seq![rep].drop_first() =~= Seq::<RepView>::empty());
    reveal_with_fuel(reps_len, 2);
    if reps.len() > 0 {
        law_sizes_add_up(reps.drop_first(), more, rep);
        assert((reps + more).drop_first() =~= reps.drop_first() + more);
    } else {
        assert(reps + more =~= more);
    }
}

/// Which types carry text: those that start with `text/`, and the three legacy
/// targets, in whatever case; and which carry images: those that start with
/// `image/`.
pub proof fn law_kinds_of_mime(mime: Seq<char>)
    ensures
        text_mime(mime) <==> (lowercase(mime).len() >= 5 && lowercase(mime).take(5) == seq![
            't',
            'e',
            'x',
            't',
            '/',
        ]) || x11_text_target(mime),
        image_mime(mime) <==> lowercase(mime).len() >= 6 && lowercase(mime).take(6) == seq![
            'i',
            'm',
            'a',
            'g',
            'e',
            '/',
        ],
        x11_text_target(mime) <==> lowercase(mime) == seq![
            'u',
            't',
            'f',
            '8',
            '_',
            's',
            't',
            'r',
            'i',
            'n',
            'g',
        ] || lowercase(mime) == seq!['s', 't', 'r', 'i', 'n', 'g'] || lowercase(mime) == seq![
            't',
            'e',
            'x',
            't',
        ],
{
    let l = lowercase(mime);
    reveal_strlit("text/");
    reveal_strlit("image/");
    reveal_strlit("UTF8_STRING");
    reveal_strlit("STRING");
    reveal_strlit("TEXT");
    assert("text/"@ =~= seq!['t', 'e', 'x', 't', '/']);
    assert("image/"@ =~= seq!['i', 'm', 'a', 'g', 'e', '/']);
    if l.len() >= 5 {
        assert(l.take(5) =~= l.subrange(0, 5));
    }
    if l.len() >= 6 {
        assert(l.take(6) =~= l.subrange(0, 6));
    }
    assert(lowercase("UTF8_STRING"@) =~= seq![
        'u',
        't',
        'f',
        '8',
        '_',
        's',
        't',
        'r',
        'i',
        'n',
        'g',
    ]);
    assert(lowercase("STRING"@) =~= seq!['s', 't', 'r', 'i', 'n', 'g']);
    assert(lowercase("TEXT"@) =~= seq!['t', 'e', 'x', 't']);
    let targets = X11_TEXT_TARGETS@;
    assert(targets[0]@ == "UTF8_STRING"@ && targets[1]@ == "STRING"@ && targets[2]@ == "TEXT"@);
}

/// The text of an item is that of its first representation whose type starts
/// with `text/plain`, in whatever case, if its bytes are UTF-8; representations
/// of other types before it make no difference, and those behind it neither.
pub proof fn law_first_plain_text_counts(
    before: Seq<RepView>,
    rep: RepView,
    behind: Seq<RepView>,
)
    requires
        forall|i: int|
            0 <= i < before.len() ==> !starts_with_folded((#[trigger] before[i]).0, "text/plain"@),
        starts_with_folded(rep.0, "text/plain"@),
    ensures
        plain_text(before) is None,
        valid_utf8(rep.1) ==> plain_text(before.push(rep) + behind) == Some(decode_utf8(rep.1)),
        !valid_utf8(rep.1) ==> plain_text(before.push(rep) + behind) is None,
    decreases before.len(),
{
    let all = before.push(rep) + behind;
    if before.len() > 0 {
        let tail = before.drop_first();
        assert(!starts_with_folded(before[0].0, "text/plain"@));
        assert forall|i: int| 0 <= i < tail.len() implies !starts_with_folded(
            (#[trigger] tail[i]).0,
            "text/plain"@,
        ) by {
            assert(before[i + 1] == tail[i]);
        }
        law_first_plain_text_counts(tail, rep, behind);
        assert(all.drop_first() =~= tail.push(rep) + behind);
        assert(all[0] == before[0]);
    } else {
        assert(all[0] == rep);
    }
}

/// A text item has one representation: the text's bytes, as plain text in UTF-8;
/// and it carries the origin and serial that it was given.
pub proof fn law_text_items(text: Seq<char>, origin: Seq<u8>, serial: u64)
    ensures
        ({
            let item = text_item_view(text, origin, serial);
            &&& item.origin == origin
            &&& item.serial == serial
            &&& item.reps.len() == 1
            &&& item.reps[0].0 == "text/plain;charset=utf-8"@
            &&& item.reps[0].1 == encode_utf8(text)
            &&& text_mime(item.reps[0].0)
            &&& !image_mime(item.reps[0].0)
        }),
{
    reveal_strlit("text/plain;charset=utf-8");
    reveal_strlit("text/");
    reveal_strlit("image/");
    let l = lowercase(MIME_TEXT_PLAIN@);
    assert(l =~= MIME_TEXT_PLAIN@);
    assert(l.subrange(0, 5) =~= "text/"@);
    assert(l.subrange(0, 6)[0] == 't');
    assert("image/"@[0] == 'i');
}

} // verus!
