//! Wire protocol: length-prefixed, big-endian messages.
//!
//! The transport runs over an ordered, reliable TCP stream, so the wire
//! needs no chunking, sequence numbers, or acknowledgements. Each frame
//! is `[len: u32 BE][payload]` where `payload` is `[kind: u8][fields...]`.

use vstd::prelude::*;
use vstd::slice::{slice_subrange, slice_to_vec};
use vstd::string::StringExecFns;
use vstd::utf8::{
    decode_utf8, decode_utf8_encode_utf8, encode_utf8, encode_utf8_decode_utf8,
    encode_utf8_valid_utf8, valid_utf8,
};

use crate::bytes::{
    be16, be16_bytes, be16_value, be32, be32_bytes, be32_value, be64, be64_bytes, be64_value,
    group_be_len, law_big_endian, lemma_be16_canonical, lemma_be16_roundtrip, lemma_be32_canonical,
    lemma_be32_roundtrip, lemma_be64_canonical, lemma_be64_roundtrip, push_be16, push_be64,
    push_bytes, push_len32,
};
use crate::item::{
    rep_len, reps_len, reps_view, ClipboardItem, ItemView, RepView, DEFAULT_MAX_ITEM_SIZE,
};
use crate::text::{decimal, decimal_string, string_from_utf8};

verus! {

/// Kind byte of a message that shares a clipboard item.
pub const KIND_ANNOUNCE: u8 = 1;

/// Kind byte of a health-check probe.
pub const KIND_PING: u8 = 2;

/// Kind byte of the answer to a health-check probe.
pub const KIND_PONG: u8 = 3;

/// Upper bound for a decoded payload. Guards against a misbehaving peer
/// allocating huge buffers; the effective cap is the item size limit.
pub const MAX_PAYLOAD_SIZE: usize = DEFAULT_MAX_ITEM_SIZE + 64;

/// Upper bound for a payload that carries an item of at most `max_item_size`
/// bytes: the item size plus framing overhead.
pub fn max_payload_size(max_item_size: usize) -> (max: usize)
    ensures
        max == if max_item_size + 64 <= usize::MAX {
            max_item_size + 64
        } else {
            usize::MAX as int
        },
{
    max_item_size.saturating_add(64)
}

#[derive(Debug, PartialEq, Eq)]
pub enum Message {
    /// Share one clipboard item with a peer.
    Announce(ClipboardItem),
}

/// What a message says.
#[verifier::ext_equal]
pub enum MessageView {
    Announce(ItemView),
}

impl View for Message {
    type V = MessageView;

    open spec fn view(&self) -> MessageView {
        match self {
            Message::Announce(item) => MessageView::Announce(item@),
        }
    }
}

impl Clone for Message {
    fn clone(&self) -> (copy: Self)
        ensures
            copy@ == self@,
    {
        match self {
            Message::Announce(item) => Message::Announce(item.clone()),
        }
    }
}

#[derive(Debug)]
pub enum ProtocolError {
    /// An item of the first number of bytes exceeds the cap, the second.
    TooLarge(usize, usize),
    /// A payload of the first number of bytes exceeds the cap, the second.
    PayloadTooLarge(usize, usize),
    /// The payload's kind byte is not one that this side understands.
    UnknownKind(u8),
    /// The payload is not well-formed, or an item cannot be written as one.
    Invalid(String),
}

/// What a protocol error says.
#[verifier::ext_equal]
pub enum ErrorView {
    TooLarge(nat, nat),
    PayloadTooLarge(nat, nat),
    UnknownKind(u8),
    Invalid(Seq<char>),
}

impl View for ProtocolError {
    type V = ErrorView;

    open spec fn view(&self) -> ErrorView {
        match self {
            ProtocolError::TooLarge(size, max) => ErrorView::TooLarge(*size as nat, *max as nat),
            ProtocolError::PayloadTooLarge(size, max) => ErrorView::PayloadTooLarge(
                *size as nat,
                *max as nat,
            ),
            ProtocolError::UnknownKind(kind) => ErrorView::UnknownKind(*kind),
            ProtocolError::Invalid(reason) => ErrorView::Invalid(reason@),
        }
    }
}

/// What a result says: what its value says, or what its error says.
pub open spec fn result_view<T: View>(r: Result<T, ProtocolError>) -> Result<T::V, ErrorView> {
    match r {
        Ok(value) => Ok(value@),
        Err(error) => Err(error@),
    }
}

/// The error with the given reason.
pub open spec fn invalid(reason: Seq<char>) -> ErrorView {
    ErrorView::Invalid(reason)
}

/// The text of an error.
pub open spec fn error_text(error: ErrorView) -> Seq<char> {
    match error {
        ErrorView::TooLarge(size, max) => "item too large: "@ + decimal(size)
            + " bytes exceeds cap of "@ + decimal(max),
        ErrorView::PayloadTooLarge(size, max) => "payload too large: "@ + decimal(size)
            + " bytes exceeds cap of "@ + decimal(max),
        ErrorView::UnknownKind(kind) => "unknown message kind: "@ + decimal(kind as nat),
        ErrorView::Invalid(reason) => "invalid payload: "@ + reason,
    }
}

impl ProtocolError {
    /// A sentence that says what went wrong.
    pub fn message(&self) -> (text: String)
        ensures
            text@ == error_text(self@),
    {
        match self {
            ProtocolError::TooLarge(size, max) => {
                let mut text = String::from_str("item too large: ");
                text.append(decimal_string(*size).as_str());
                text.append(" bytes exceeds cap of ");
                text.append(decimal_string(*max).as_str());
                text
            },
            ProtocolError::PayloadTooLarge(size, max) => {
                let mut text = String::from_str("payload too large: ");
                text.append(decimal_string(*size).as_str());
                text.append(" bytes exceeds cap of ");
                text.append(decimal_string(*max).as_str());
                text
            },
            ProtocolError::UnknownKind(kind) => {
                let mut text = String::from_str("unknown message kind: ");
                text.append(decimal_string(*kind as usize).as_str());
                text
            },
            ProtocolError::Invalid(reason) => {
                let mut text = String::from_str("invalid payload: ");
                text.append(reason.as_str());
                text
            },
        }
    }
}

/// The error with the given reason.
fn invalid_payload(reason: &str) -> (error: ProtocolError)
    ensures
        error@ == invalid(reason@),
{
    ProtocolError::Invalid(String::from_str(reason))
}

/// One representation on the wire: `[mime_len: u16][mime][data_len: u32][data]`.
pub open spec fn rep_bytes(rep: RepView) -> Seq<u8> {
    be16_bytes(encode_utf8(rep.0).len() as int) + encode_utf8(rep.0) + be32_bytes(
        rep.1.len() as int,
    ) + rep.1
}

/// Representations on the wire, one after the other.
pub open spec fn reps_bytes(reps: Seq<RepView>) -> Seq<u8>
    decreases reps.len(),
{
    if reps.len() == 0 {
        seq![]
    } else {
        rep_bytes(reps[0]) + reps_bytes(reps.drop_first())
    }
}

/// The payload that shares an item:
/// `[kind: u8][origin: 8 bytes][serial: u64][n_mimes: u16][representations]`.
pub open spec fn announce_bytes(item: ItemView) -> Seq<u8> {
    seq![KIND_ANNOUNCE] + item.origin + be64_bytes(item.serial as int) + be16_bytes(
        item.reps.len() as int,
    ) + reps_bytes(item.reps)
}

/// A payload behind its length prefix.
pub open spec fn frame_bytes(payload: Seq<u8>) -> Seq<u8> {
    be32_bytes(payload.len() as int) + payload
}

/// Whether some MIME type is longer than its length field can say.
pub open spec fn has_long_mime(reps: Seq<RepView>) -> bool {
    exists|i: int| 0 <= i < reps.len() && encode_utf8((#[trigger] reps[i]).0).len() > u16::MAX
}

/// What encoding an announcement gives: the error of the first limit that the
/// item exceeds, or its frame.
pub open spec fn encoded(item: ItemView, max_item_size: nat) -> Result<Seq<u8>, ErrorView> {
    let size = reps_len(item.reps);
    let payload = announce_bytes(item);
    if size > max_item_size {
        Err(
            ErrorView::TooLarge(
                if size <= usize::MAX {
                    size
                } else {
                    usize::MAX as nat
                },
                max_item_size,
            ),
        )
    } else if item.reps.len() > u16::MAX {
        Err(invalid("too many mime reps: "@ + decimal(item.reps.len())))
    } else if has_long_mime(item.reps) {
        Err(invalid("mime too long"@))
    } else if payload.len() > MAX_PAYLOAD_SIZE {
        Err(ErrorView::PayloadTooLarge(payload.len(), MAX_PAYLOAD_SIZE as nat))
    } else {
        Ok(frame_bytes(payload))
    }
}

/// What encoding the payload of an announcement gives, before its length is checked.
spec fn encoded_payload(item: ItemView, max_item_size: nat) -> Result<Seq<u8>, ErrorView> {
    match encoded(item, max_item_size) {
        Err(ErrorView::PayloadTooLarge(_, _)) => Ok(announce_bytes(item)),
        Ok(_) => Ok(announce_bytes(item)),
        Err(e) => Err(e),
    }
}

fn encode_announce(item: &ClipboardItem, max_item_size: usize) -> (payload: Result<
    Vec<u8>,
    ProtocolError,
>)
    ensures
        result_view(payload) == encoded_payload(item@, max_item_size as nat),
{
    match item.checked_size() {
        Some(size) => {
            if size > max_item_size {
                return Err(ProtocolError::TooLarge(size, max_item_size));
            }
        },
        None => {
            return Err(ProtocolError::TooLarge(usize::MAX, max_item_size));
        },
    }
    let n_mimes: usize = item.reps.len();
    if n_mimes > u16::MAX as usize {
        let mut reason = String::from_str("too many mime reps: ");
        reason.append(decimal_string(n_mimes).as_str());
        return Err(ProtocolError::Invalid(reason));
    }
    let ghost all = item@.reps;
    let mut out: Vec<u8> = Vec::new();
    out.push(KIND_ANNOUNCE);
    push_bytes(&mut out, &item.origin);
    push_be64(&mut out, item.serial);
    push_be16(&mut out, n_mimes as u16);
    let mut i: usize = 0;
    assert(all.skip(0) =~= all);
    assert(out@ + reps_bytes(all) =~= announce_bytes(item@));
    while i < item.reps.len()
        invariant
            0 <= i <= item.reps@.len(),
            item.reps@.len() <= u16::MAX,
            all == item@.reps,
            reps_len(all) <= max_item_size,
            out@ + reps_bytes(all.skip(i as int)) == announce_bytes(item@),
            forall|j: int| 0 <= j < i ==> encode_utf8((#[trigger] all[j]).0).len() <= u16::MAX,
        decreases item.reps@.len() - i,
    {
        let mime = item.reps[i].0.as_str();
        let data = &item.reps[i].1;
        let ghost rest = all.skip(i as int);
        assert(rest[0] == all[i as int]);
        assert(all[i as int] == (mime@, data@));
        assert(rest.drop_first() =~= all.skip(i + 1));
        let mime_len: usize = mime.as_bytes().len();
        if mime_len > u16::MAX as usize {
            return Err(invalid_payload("mime too long"));
        }
        let ghost before = out@;
        push_be16(&mut out, mime_len as u16);
        push_bytes(&mut out, mime.as_bytes());
        push_len32(&mut out, data.len());
        push_bytes(&mut out, data);
        assert(out@ =~= before + rep_bytes(all[i as int]));
        assert(out@ + reps_bytes(all.skip(i + 1)) =~= before + reps_bytes(rest));
        i = i + 1;
    }
    assert(out@ + reps_bytes(all.skip(i as int)) =~= out@);
    Ok(out)
}

/// The `n` bytes of `buf` at `pos`, or why there are none.
pub open spec fn taken(buf: Seq<u8>, pos: int, n: int) -> Result<Seq<u8>, ErrorView> {
    if pos + n > usize::MAX {
        Err(invalid("overflow"@))
    } else if pos + n > buf.len() {
        Err(invalid("truncated"@))
    } else {
        Ok(buf.subrange(pos, pos + n))
    }
}

/// The representation that stands in `buf` at `pos`, and where it ends.
pub open spec fn parsed_rep(buf: Seq<u8>, pos: int) -> Result<(RepView, int), ErrorView> {
    match taken(buf, pos, 2) {
        Err(e) => Err(e),
        Ok(len) => parsed_rep_mime(buf, pos + 2, be16_value(len)),
    }
}

/// The representation whose MIME type, of `mime_len` bytes, stands in `buf` at
/// `pos`, and where it ends.
pub open spec fn parsed_rep_mime(buf: Seq<u8>, pos: int, mime_len: int) -> Result<
    (RepView, int),
    ErrorView,
> {
    match taken(buf, pos, mime_len) {
        Err(e) => Err(e),
        Ok(mime) => if !valid_utf8(mime) {
            Err(invalid("mime not utf-8"@))
        } else {
            parsed_rep_data(buf, pos + mime_len, decode_utf8(mime))
        },
    }
}

/// The representation of a MIME type whose data length stands in `buf` at
/// `pos`, and where it ends.
pub open spec fn parsed_rep_data(buf: Seq<u8>, pos: int, mime: Seq<char>) -> Result<
    (RepView, int),
    ErrorView,
> {
    match taken(buf, pos, 4) {
        Err(e) => Err(e),
        Ok(len) => match taken(buf, pos + 4, be32_value(len)) {
            Err(e) => Err(e),
            Ok(data) => Ok(((mime, data), pos + 4 + be32_value(len))),
        },
    }
}

/// The `n` representations that stand in `buf` from `pos` on, and where they end.
pub open spec fn parsed_reps(buf: Seq<u8>, pos: int, n: nat) -> Result<
    (Seq<RepView>, int),
    ErrorView,
>
    decreases n,
{
    if n == 0 {
        Ok((seq![], pos))
    } else {
        match parsed_rep(buf, pos) {
            Err(e) => Err(e),
            Ok((rep, next)) => match parsed_reps(buf, next, (n - 1) as nat) {
                Err(e) => Err(e),
                Ok((reps, end)) => Ok((seq![rep] + reps, end)),
            },
        }
    }
}

/// The item that the bytes behind the kind byte of an announcement say.
pub open spec fn parsed_announce(buf: Seq<u8>) -> Result<ItemView, ErrorView> {
    if buf.len() < 18 {
        Err(invalid("truncated"@))
    } else {
        match parsed_reps(buf, 18, be16_value(buf.subrange(16, 18)) as nat) {
            Err(e) => Err(e),
            Ok((reps, end)) => if end < buf.len() {
                Err(invalid("trailing bytes"@))
            } else {
                Ok(
                    ItemView {
                        origin: buf.take(8),
                        serial: be64_value(buf.subrange(8, 16)) as u64,
                        reps,
                    },
                )
            },
        }
    }
}

/// The message that a payload says, or why it says none.
pub open spec fn decoded(payload: Seq<u8>) -> Result<MessageView, ErrorView> {
    if payload.len() == 0 {
        Err(invalid("empty payload"@))
    } else if payload[0] != KIND_ANNOUNCE {
        Err(ErrorView::UnknownKind(payload[0]))
    } else {
        match parsed_announce(payload.drop_first()) {
            Ok(item) => Ok(MessageView::Announce(item)),
            Err(e) => Err(e),
        }
    }
}

impl Message {
    /// Encode this message into a length-prefixed frame.
    pub fn encode(&self, max_item_size: usize) -> (frame: Result<Vec<u8>, ProtocolError>)
        ensures
            match self@ {
                MessageView::Announce(item) => result_view(frame) == encoded(
                    item,
                    max_item_size as nat,
                ),
            },
    {
        let payload = match self {
            Message::Announce(item) => match encode_announce(item, max_item_size) {
                Ok(payload) => payload,
                Err(e) => return Err(e),
            },
        };
        if payload.len() > MAX_PAYLOAD_SIZE {
            return Err(ProtocolError::PayloadTooLarge(payload.len(), MAX_PAYLOAD_SIZE));
        }
        let mut frame: Vec<u8> = Vec::new();
        push_len32(&mut frame, payload.len());
        push_bytes(&mut frame, &payload);
        assert(frame@ =~= frame_bytes(payload@));
        Ok(frame)
    }

    /// Decode a message from a raw payload (without the length prefix).
    pub fn decode(payload: &[u8]) -> (message: Result<Message, ProtocolError>)
        ensures
            result_view(message) == decoded(payload@),
    {
        if payload.len() == 0 {
            return Err(invalid_payload("empty payload"));
        }
        let kind: u8 = payload[0];
        if kind != KIND_ANNOUNCE {
            return Err(ProtocolError::UnknownKind(kind));
        }
        let rest = slice_subrange(payload, 1, payload.len());
        assert(rest@ =~= payload@.drop_first());
        match decode_announce(rest) {
            Ok(item) => Ok(Message::Announce(item)),
            Err(e) => Err(e),
        }
    }
}

fn decode_announce(rest: &[u8]) -> (item: Result<ClipboardItem, ProtocolError>)
    ensures
        result_view(item) == parsed_announce(rest@),
{
    let ghost buf = rest@;
    let mut cursor = Cursor::new(rest);
    let origin = match cursor.take_arr8() {
        Ok(b) => b,
        Err(e) => return Err(e),
    };
    let serial: u64 = match cursor.take_arr8() {
        Ok(b) => be64(&b),
        Err(e) => return Err(e),
    };
    let n_mimes: usize = match cursor.take_arr2() {
        Ok(b) => be16(&b) as usize,
        Err(e) => return Err(e),
    };
    assert(origin@ =~= buf.take(8));
    let mut reps: Vec<(String, Vec<u8>)> = Vec::new();
    let mut i: usize = 0;
    let ghost all = parsed_reps(buf, 18, n_mimes as nat);
    proof {
        if let Ok((tail, end)) = all {
            assert(reps_view(reps@) + tail =~= tail);
        }
    }
    while i < n_mimes
        invariant
            0 <= i <= n_mimes,
            cursor.wf(),
            cursor.buf@ == buf,
            buf == rest@,
            match parsed_reps(buf, cursor.pos as int, (n_mimes - i) as nat) {
                Err(e) => all == Err::<(Seq<RepView>, int), ErrorView>(e),
                Ok((tail, end)) => all == Ok::<(Seq<RepView>, int), ErrorView>(
                    (reps_view(reps@) + tail, end),
                ),
            },
            18 <= buf.len(),
            n_mimes == be16_value(buf.subrange(16, 18)),
            all == parsed_reps(buf, 18, n_mimes as nat),
        decreases n_mimes - i,
    {
        let rep = match cursor.take_rep() {
            Ok(rep) => rep,
            Err(e) => return Err(e),
        };
        let ghost before = reps_view(reps@);
        let ghost view = (rep.0@, rep.1@);
        reps.push(rep);
        assert(reps_view(reps@) =~= before.push(view));
        i = i + 1;
        proof {
            if let Ok((tail, end)) = parsed_reps(buf, cursor.pos as int, (n_mimes - i) as nat) {
                assert(before + (seq![view] + tail) =~= reps_view(reps@) + tail);
            }
        }
    }
    proof {
        assert(reps_view(reps@) + Seq::<RepView>::empty() =~= reps_view(reps@));
    }
    if !cursor.is_empty() {
        return Err(invalid_payload("trailing bytes"));
    }
    Ok(ClipboardItem { origin, serial, reps })
}

/// A tiny cursor over a byte slice that advances an index on each read.
struct Cursor<'a> {
    buf: &'a [u8],
    pos: usize,
}

impl<'a> Cursor<'a> {
    spec fn wf(&self) -> bool {
        self.pos <= self.buf@.len()
    }

    /// How a read of `n` bytes, with the given result, moves the cursor.
    spec fn advanced(before: Self, after: Self, n: int, read: Result<Seq<u8>, ErrorView>) -> bool {
        &&& after.buf == before.buf
        &&& after.wf()
        &&& read == taken(before.buf@, before.pos as int, n)
        &&& after.pos == if read is Ok {
            before.pos + n
        } else {
            before.pos as int
        }
    }

    fn new(buf: &'a [u8]) -> (cursor: Self)
        ensures
            cursor.buf == buf,
            cursor.pos == 0,
            cursor.wf(),
    {
        Self { buf, pos: 0 }
    }

    fn take(&mut self, n: usize) -> (slice: Result<&'a [u8], ProtocolError>)
        requires
            old(self).wf(),
        ensures
            Self::advanced(*old(self), *final(self), n as int, result_view(slice)),
    {
        match self.pos.checked_add(n) {
            None => Err(invalid_payload("overflow")),
            Some(end) => {
                if end > self.buf.len() {
                    return Err(invalid_payload("truncated"));
                }
                let slice = slice_subrange(self.buf, self.pos, end);
                self.pos = end;
                Ok(slice)
            },
        }
    }

    fn take_arr2(&mut self) -> (bytes: Result<[u8; 2], ProtocolError>)
        requires
            old(self).wf(),
        ensures
            Self::advanced(*old(self), *final(self), 2, result_view(bytes)),
    {
        match self.take(2) {
            Ok(b) => {
                let bytes = [b[0], b[1]];
                assert(bytes@ =~= b@);
                Ok(bytes)
            },
            Err(e) => Err(e),
        }
    }

    fn take_arr4(&mut self) -> (bytes: Result<[u8; 4], ProtocolError>)
        requires
            old(self).wf(),
        ensures
            Self::advanced(*old(self), *final(self), 4, result_view(bytes)),
    {
        match self.take(4) {
            Ok(b) => {
                let bytes = [b[0], b[1], b[2], b[3]];
                assert(bytes@ =~= b@);
                Ok(bytes)
            },
            Err(e) => Err(e),
        }
    }

    fn take_arr8(&mut self) -> (bytes: Result<[u8; 8], ProtocolError>)
        requires
            old(self).wf(),
        ensures
            Self::advanced(*old(self), *final(self), 8, result_view(bytes)),
    {
        match self.take(8) {
            Ok(b) => {
                let bytes = [b[0], b[1], b[2], b[3], b[4], b[5], b[6], b[7]];
                assert(bytes@ =~= b@);
                Ok(bytes)
            },
            Err(e) => Err(e),
        }
    }

    /// Read one representation.
    fn take_rep(&mut self) -> (rep: Result<(String, Vec<u8>), ProtocolError>)
        requires
            old(self).wf(),
        ensures
            final(self).buf == old(self).buf,
            final(self).wf(),
            match rep {
                Ok(r) => parsed_rep(old(self).buf@, old(self).pos as int) == Ok::<
                    (RepView, int),
                    ErrorView,
                >(((r.0@, r.1@), final(self).pos as int)),
                Err(e) => parsed_rep(old(self).buf@, old(self).pos as int) == Err::<
                    (RepView, int),
                    ErrorView,
                >(e@),
            },
    {
        let mime_len: usize = match self.take_arr2() {
            Ok(b) => be16(&b) as usize,
            Err(e) => return Err(e),
        };
        let mime = match self.take(mime_len) {
            Ok(b) => b,
            Err(e) => return Err(e),
        };
        let mime = match string_from_utf8(slice_to_vec(mime)) {
            Some(text) => text,
            None => return Err(invalid_payload("mime not utf-8")),
        };
        let data_len: usize = match self.take_arr4() {
            Ok(b) => be32(&b) as usize,
            Err(e) => return Err(e),
        };
        match self.take(data_len) {
            Ok(b) => Ok((mime, slice_to_vec(b))),
            Err(e) => Err(e),
        }
    }

    fn is_empty(&self) -> (empty: bool)
        ensures
            empty == (self.pos >= self.buf@.len()),
    {
        self.pos >= self.buf.len()
    }
}

/// What a frame reader does with its buffered bytes: the next payload, where a
/// whole frame is buffered, and the bytes that stay buffered.
pub open spec fn next_payload(buf: Seq<u8>, max_payload: nat) -> (
    Result<Option<Seq<u8>>, ErrorView>,
    Seq<u8>,
) {
    let len = be32_value(buf);
    if buf.len() < 4 {
        (Ok(None), buf)
    } else if len > max_payload {
        (Err(ErrorView::PayloadTooLarge(len as nat, max_payload)), buf)
    } else if buf.len() < 4 + len {
        (Ok(None), buf)
    } else {
        (Ok(Some(buf.subrange(4, 4 + len))), buf.skip(4 + len))
    }
}

/// What the result of draining a payload says.
pub open spec fn payload_view(r: Result<Option<Vec<u8>>, ProtocolError>) -> Result<
    Option<Seq<u8>>,
    ErrorView,
> {
    match r {
        Ok(Some(payload)) => Ok(Some(payload@)),
        Ok(None) => Ok(None),
        Err(error) => Err(error@),
    }
}

/// Accumulates raw stream bytes and splits them into complete payloads,
/// handling frames that arrive across multiple reads and multiple frames
/// within a single read.
///
/// Feeds the length-prefixed envelope `[len: u32 BE][payload]` and yields
/// each payload as soon as its full frame is available.
#[derive(Debug)]
pub struct FrameReader {
    /// Bytes received but not yet consumed into a full frame.
    buf: Vec<u8>,
    /// Largest payload that is accepted.
    max_payload: usize,
}

impl View for FrameReader {
    type V = Seq<u8>;

    /// The bytes received but not yet consumed into a full frame.
    closed spec fn view(&self) -> Seq<u8> {
        self.buf@
    }
}

impl Default for FrameReader {
    fn default() -> (reader: Self)
        ensures
            reader@ == Seq::<u8>::empty(),
            reader.cap() == MAX_PAYLOAD_SIZE,
    {
        Self::with_max_payload(MAX_PAYLOAD_SIZE)
    }
}

impl FrameReader {
    /// Largest payload that is accepted.
    pub closed spec fn cap(&self) -> nat {
        self.max_payload as nat
    }

    /// A reader with nothing buffered that accepts payloads of the default size.
    pub fn new() -> (reader: Self)
        ensures
            reader@ == Seq::<u8>::empty(),
            reader.cap() == MAX_PAYLOAD_SIZE,
    {
        Self::with_max_payload(MAX_PAYLOAD_SIZE)
    }

    /// A reader with nothing buffered that accepts payloads of up to `max_payload` bytes.
    pub fn with_max_payload(max_payload: usize) -> (reader: Self)
        ensures
            reader@ == Seq::<u8>::empty(),
            reader.cap() == max_payload,
    {
        FrameReader { buf: Vec::new(), max_payload }
    }

    /// Push freshly-read bytes onto the accumulator.
    pub fn push(&mut self, bytes: &[u8])
        ensures
            final(self)@ == old(self)@ + bytes@,
            final(self).cap() == old(self).cap(),
    {
        push_bytes(&mut self.buf, bytes);
    }

    /// Drop what is buffered, keeping the payload cap.
    pub fn reset(&mut self)
        ensures
            final(self)@ == Seq::<u8>::empty(),
            final(self).cap() == old(self).cap(),
    {
        self.buf = Vec::new();
    }

    /// Drain the next complete payload, if one is buffered.
    pub fn next_frame(&mut self) -> (payload: Result<Option<Vec<u8>>, ProtocolError>)
        ensures
            payload_view(payload) == next_payload(old(self)@, old(self).cap()).0,
            final(self)@ == next_payload(old(self)@, old(self).cap()).1,
            final(self).cap() == old(self).cap(),
    {
        if self.buf.len() < 4 {
            return Ok(None);
        }
        let header = [self.buf[0], self.buf[1], self.buf[2], self.buf[3]];
        let len: usize = be32(&header) as usize;
        proof {
            assert(header@.take(2) =~= self.buf@.take(2));
            assert(header@.subrange(2, 4) =~= self.buf@.subrange(2, 4));
        }
        if len > self.max_payload {
            return Err(ProtocolError::PayloadTooLarge(len, self.max_payload));
        }
        if self.buf.len() - 4 < len {
            return Ok(None);
        }
        let payload = slice_to_vec(slice_subrange(&self.buf, 4, 4 + len));
        // Drop the consumed frame, retaining any bytes that start the next one.
        let rest = self.buf.split_off(4 + len);
        self.buf = rest;
        assert(self.buf@ =~= old(self)@.skip(4 + len));
        Ok(Some(payload))
    }
}

/// The frame of a health-check message.
pub open spec fn control_bytes(kind: u8) -> Seq<u8> {
    frame_bytes(seq![kind])
}

/// The frame of a health-check message: a payload of its kind byte alone.
pub fn control_frame(kind: u8) -> (frame: Vec<u8>)
    ensures
        frame@ == control_bytes(kind),
{
    let mut frame: Vec<u8> = Vec::new();
    push_len32(&mut frame, 1);
    frame.push(kind);
    assert(frame@ =~= control_bytes(kind));
    frame
}

/// Whether an item fits the fields of the wire format.
pub open spec fn wire_item(item: ItemView) -> bool {
    &&& item.origin.len() == 8
    &&& item.reps.len() <= u16::MAX
    &&& forall|i: int| 0 <= i < item.reps.len() ==> wire_rep(#[trigger] item.reps[i])
}

/// Whether a representation fits the fields of the wire format.
pub open spec fn wire_rep(rep: RepView) -> bool {
    encode_utf8(rep.0).len() <= u16::MAX && rep.1.len() <= u32::MAX
}

/// Parsing the bytes of a representation gives the representation back.
proof fn lemma_parse_rep(buf: Seq<u8>, pos: int, rep: RepView)
    requires
        0 <= pos,
        pos + rep_bytes(rep).len() <= buf.len() <= usize::MAX,
        buf.subrange(pos, pos + rep_bytes(rep).len()) == rep_bytes(rep),
        wire_rep(rep),
    ensures
        parsed_rep(buf, pos) == Ok::<(RepView, int), ErrorView>(
            (rep, pos + rep_bytes(rep).len()),
        ),
{
    broadcast use group_be_len;

    let mime = encode_utf8(rep.0);
    let bytes = rep_bytes(rep);
    let m = mime.len() as int;
    let d = rep.1.len() as int;
    let here = buf.subrange(pos, pos + bytes.len());
    lemma_be16_roundtrip(m);
    lemma_be32_roundtrip(d);
    encode_utf8_valid_utf8(rep.0);
    encode_utf8_decode_utf8(rep.0);
    assert(buf.subrange(pos, pos + 2) =~= here.subrange(0, 2));
    assert(here.subrange(0, 2) =~= be16_bytes(m));
    assert(buf.subrange(pos + 2, pos + 2 + m) =~= here.subrange(2, 2 + m));
    assert(here.subrange(2, 2 + m) =~= mime);
    assert(buf.subrange(pos + 2 + m, pos + 2 + m + 4) =~= here.subrange(2 + m, 6 + m));
    assert(here.subrange(2 + m, 6 + m) =~= be32_bytes(d));
    assert(buf.subrange(pos + 2 + m + 4, pos + 2 + m + 4 + d) =~= here.subrange(
        6 + m,
        6 + m + d,
    ));
    assert(here.subrange(6 + m, 6 + m + d) =~= rep.1);
}

/// Parsing the bytes of representations gives the representations back.
proof fn lemma_parse_reps(buf: Seq<u8>, pos: int, reps: Seq<RepView>)
    requires
        0 <= pos,
        pos + reps_bytes(reps).len() <= buf.len() <= usize::MAX,
        buf.subrange(pos, pos + reps_bytes(reps).len()) == reps_bytes(reps),
        forall|i: int| 0 <= i < reps.len() ==> wire_rep(#[trigger] reps[i]),
    ensures
        parsed_reps(buf, pos, reps.len()) == Ok::<(Seq<RepView>, int), ErrorView>(
            (reps, pos + reps_bytes(reps).len()),
        ),
    decreases reps.len(),
{
    if reps.len() == 0 {
        assert(reps =~= Seq::<RepView>::empty());
    } else {
        let first = rep_bytes(reps[0]);
        let tail = reps.drop_first();
        let all = buf.subrange(pos, pos + reps_bytes(reps).len());
        let next = pos + first.len();
        assert(buf.subrange(pos, next) =~= all.take(first.len() as int));
        assert(all.take(first.len() as int) =~= first);
        lemma_parse_rep(buf, pos, reps[0]);
        assert(buf.subrange(next, next + reps_bytes(tail).len()) =~= all.skip(first.len() as int));
        assert(all.skip(first.len() as int) =~= reps_bytes(tail));
        lemma_parse_reps(buf, next, tail);
        assert(seq![reps[0]] + tail =~= reps);
    }
}

/// The bytes of an announcement say the item that they were made from.
pub proof fn law_announce_bytes_decode(item: ItemView)
    requires
        wire_item(item),
        announce_bytes(item).len() <= usize::MAX,
    ensures
        decoded(announce_bytes(item)) == Ok::<MessageView, ErrorView>(
            MessageView::Announce(item),
        ),
{
    broadcast use group_be_len;

    let payload = announce_bytes(item);
    let buf = payload.drop_first();
    lemma_be64_roundtrip(item.serial as int);
    lemma_be16_roundtrip(item.reps.len() as int);
    assert(buf =~= item.origin + be64_bytes(item.serial as int) + be16_bytes(
        item.reps.len() as int,
    ) + reps_bytes(item.reps));
    assert(buf.take(8) =~= item.origin);
    assert(buf.subrange(8, 16) =~= be64_bytes(item.serial as int));
    assert(buf.subrange(16, 18) =~= be16_bytes(item.reps.len() as int));
    assert(buf.subrange(18, 18 + reps_bytes(item.reps).len() as int) =~= reps_bytes(item.reps));
    lemma_parse_reps(buf, 18, item.reps);
}

/// No representation is longer than all of them together.
proof fn lemma_rep_len_bounded(reps: Seq<RepView>, i: int)
    requires
        0 <= i < reps.len(),
    ensures
        rep_len(reps[i]) <= reps_len(reps),
        reps_len(reps) <= reps_bytes(reps).len(),
    decreases reps.len(),
{
    lemma_reps_bytes_len(reps);
    if i > 0 {
        lemma_rep_len_bounded(reps.drop_first(), i - 1);
        assert(reps.drop_first()[i - 1] == reps[i]);
    }
}

/// Each representation takes six bytes on the wire beside its own.
proof fn lemma_reps_bytes_len(reps: Seq<RepView>)
    ensures
        reps_bytes(reps).len() == reps_len(reps) + 6 * reps.len(),
    decreases reps.len(),
{
    broadcast use group_be_len;

    if reps.len() > 0 {
        lemma_reps_bytes_len(reps.drop_first());
    }
}

/// Decoding what was encoded gives the item back: the frame starts with the
/// length of its payload, and the payload decodes to the same item.
pub proof fn law_encode_decode_roundtrip(item: ItemView, max_item_size: nat, frame: Seq<u8>)
    requires
        item.origin.len() == 8,
        encoded(item, max_item_size) == Ok::<Seq<u8>, ErrorView>(frame),
    ensures
        frame.len() >= 4,
        be32_value(frame) == frame.len() - 4,
        decoded(frame.skip(4)) == Ok::<MessageView, ErrorView>(MessageView::Announce(item)),
{
    broadcast use group_be_len;

    let payload = announce_bytes(item);
    lemma_be32_roundtrip(payload.len() as int);
    assert(frame.take(2) =~= be32_bytes(payload.len() as int).take(2));
    assert(frame.subrange(2, 4) =~= be32_bytes(payload.len() as int).subrange(2, 4));
    assert(frame.skip(4) =~= payload);
    assert forall|i: int| 0 <= i < item.reps.len() implies wire_rep(#[trigger] item.reps[i]) by {
        lemma_rep_len_bounded(item.reps, i);
    }
    law_announce_bytes_decode(item);
}

/// The bytes of a parsed representation are those that it was parsed from.
proof fn lemma_parsed_rep_canonical(buf: Seq<u8>, pos: int)
    requires
        0 <= pos <= buf.len(),
    ensures
        parsed_rep(buf, pos) matches Ok((rep, next)) ==> {
            &&& pos < next <= buf.len()
            &&& wire_rep(rep)
            &&& buf.subrange(pos, next) == rep_bytes(rep)
        },
{
    if let Ok((rep, next)) = parsed_rep(buf, pos) {
        let head = buf.subrange(pos, pos + 2);
        lemma_be16_canonical(head);
        let m = be16_value(head);
        let mime = buf.subrange(pos + 2, pos + 2 + m);
        decode_utf8_encode_utf8(mime);
        let len = buf.subrange(pos + 2 + m, pos + 2 + m + 4);
        lemma_be32_canonical(len);
        assert(buf.subrange(pos, next) =~= rep_bytes(rep));
    }
}

/// The bytes of parsed representations are those that they were parsed from.
proof fn lemma_parsed_reps_canonical(buf: Seq<u8>, pos: int, n: nat)
    requires
        0 <= pos <= buf.len(),
    ensures
        parsed_reps(buf, pos, n) matches Ok((reps, end)) ==> {
            &&& pos <= end <= buf.len()
            &&& reps.len() == n
            &&& forall|i: int| 0 <= i < n ==> wire_rep(#[trigger] reps[i])
            &&& buf.subrange(pos, end) == reps_bytes(reps)
        },
    decreases n,
{
    if n == 0 {
        assert(buf.subrange(pos, pos) =~= reps_bytes(seq![]));
    } else if let Ok((reps, end)) = parsed_reps(buf, pos, n) {
        lemma_parsed_rep_canonical(buf, pos);
        let (rep, next) = parsed_rep(buf, pos)->Ok_0;
        lemma_parsed_reps_canonical(buf, next, (n - 1) as nat);
        let (tail, _) = parsed_reps(buf, next, (n - 1) as nat)->Ok_0;
        assert(reps =~= seq![rep] + tail);
        assert(reps.drop_first() =~= tail);
        assert forall|i: int| 0 <= i < n implies wire_rep(#[trigger] reps[i]) by {
            if i > 0 {
                assert(reps[i] == tail[i - 1]);
            }
        }
        assert(buf.subrange(pos, end) =~= buf.subrange(pos, next) + buf.subrange(next, end));
    }
}

/// A payload decodes to an item exactly if it is the announcement of that item:
/// no two payloads say the same, and nothing but an announcement is accepted.
pub proof fn law_decode_is_canonical(payload: Seq<u8>, item: ItemView)
    requires
        payload.len() <= usize::MAX,
    ensures
        decoded(payload) == Ok::<MessageView, ErrorView>(MessageView::Announce(item))
            <==> wire_item(item) && payload == announce_bytes(item),
{
    if decoded(payload) == Ok::<MessageView, ErrorView>(MessageView::Announce(item)) {
        let buf = payload.drop_first();
        lemma_parsed_reps_canonical(buf, 18, be16_value(buf.subrange(16, 18)) as nat);
        lemma_be16_canonical(buf.subrange(16, 18));
        lemma_be64_canonical(buf.subrange(8, 16));
        assert(payload =~= announce_bytes(item));
    }
    if wire_item(item) && payload == announce_bytes(item) {
        law_announce_bytes_decode(item);
    }
}

/// Bytes behind a representation do not change how it is parsed.
proof fn lemma_parsed_rep_extends(buf: Seq<u8>, more: Seq<u8>, pos: int)
    requires
        0 <= pos <= buf.len(),
    ensures
        parsed_rep(buf, pos) is Ok ==> parsed_rep(buf + more, pos) == parsed_rep(buf, pos),
{
    if parsed_rep(buf, pos) is Ok {
        let long = buf + more;
        let head = buf.subrange(pos, pos + 2);
        lemma_be16_canonical(head);
        let m = be16_value(head);
        let len = buf.subrange(pos + 2 + m, pos + 2 + m + 4);
        lemma_be32_canonical(len);
        let d = be32_value(len);
        assert(long.subrange(pos, pos + 2) =~= head);
        assert(long.subrange(pos + 2, pos + 2 + m) =~= buf.subrange(pos + 2, pos + 2 + m));
        assert(long.subrange(pos + 2 + m, pos + 2 + m + 4) =~= len);
        assert(long.subrange(pos + 2 + m + 4, pos + 2 + m + 4 + d) =~= buf.subrange(
            pos + 2 + m + 4,
            pos + 2 + m + 4 + d,
        ));
    }
}

/// Bytes behind representations do not change how they are parsed.
proof fn lemma_parsed_reps_extends(buf: Seq<u8>, more: Seq<u8>, pos: int, n: nat)
    requires
        0 <= pos <= buf.len(),
    ensures
        parsed_reps(buf, pos, n) is Ok ==> parsed_reps(buf + more, pos, n) == parsed_reps(
            buf,
            pos,
            n,
        ),
    decreases n,
{
    if n > 0 && parsed_reps(buf, pos, n) is Ok {
        lemma_parsed_rep_extends(buf, more, pos);
        lemma_parsed_rep_canonical(buf, pos);
        let (_, next) = parsed_rep(buf, pos)->Ok_0;
        lemma_parsed_reps_extends(buf, more, next, (n - 1) as nat);
    }
}

/// Bytes behind a well-formed message are rejected.
pub proof fn law_trailing_bytes_are_rejected(payload: Seq<u8>, more: Seq<u8>)
    requires
        decoded(payload) is Ok,
        more.len() > 0,
    ensures
        decoded(payload + more) == Err::<MessageView, ErrorView>(invalid("trailing bytes"@)),
{
    let buf = payload.drop_first();
    let long = (payload + more).drop_first();
    assert(long =~= buf + more);
    assert(long.subrange(16, 18) =~= buf.subrange(16, 18));
    lemma_be16_canonical(buf.subrange(16, 18));
    let n = be16_value(buf.subrange(16, 18)) as nat;
    lemma_parsed_reps_extends(buf, more, 18, n);
    lemma_parsed_reps_canonical(buf, 18, n);
}

/// A message that is cut off anywhere is rejected as invalid.
pub proof fn law_truncated_is_rejected(payload: Seq<u8>, len: int)
    requires
        decoded(payload) is Ok,
        0 <= len < payload.len(),
    ensures
        decoded(payload.take(len)) matches Err(ErrorView::Invalid(_)),
{
    let cut = payload.take(len);
    if len > 0 {
        if decoded(cut) is Ok {
            assert(payload =~= cut + payload.skip(len));
            law_trailing_bytes_are_rejected(cut, payload.skip(len));
        }
        lemma_announce_errors(cut.drop_first());
    }
}

/// Whatever is wrong behind the kind byte of an announcement, the error is that
/// the payload is invalid.
proof fn lemma_announce_errors(buf: Seq<u8>)
    ensures
        parsed_announce(buf) matches Err(e) ==> e is Invalid,
{
    if buf.len() >= 18 {
        lemma_reps_errors(buf, 18, be16_value(buf.subrange(16, 18)) as nat);
    }
}

proof fn lemma_reps_errors(buf: Seq<u8>, pos: int, n: nat)
    ensures
        parsed_reps(buf, pos, n) matches Err(e) ==> e is Invalid,
    decreases n,
{
    if n > 0 {
        if let Ok((_, next)) = parsed_rep(buf, pos) {
            lemma_reps_errors(buf, next, (n - 1) as nat);
        }
    }
}

/// An item is encoded exactly if it is within the size cap, its fields can say
/// how many representations it has and how long their MIME types are, and its
/// payload (19 bytes, and six for each representation beside its own) is within
/// the payload cap. So only an item of more than seven representations can be
/// within the default size cap and still not be encoded for its size.
pub proof fn law_which_items_are_encoded(item: ItemView, max_item_size: nat)
    requires
        item.origin.len() == 8,
    ensures
        encoded(item, max_item_size) is Ok <==> {
            &&& reps_len(item.reps) <= max_item_size
            &&& item.reps.len() <= u16::MAX
            &&& !has_long_mime(item.reps)
            &&& 19 + reps_len(item.reps) + 6 * item.reps.len() <= MAX_PAYLOAD_SIZE
        },
        encoded(item, max_item_size) matches Ok(frame) ==> frame == frame_bytes(
            announce_bytes(item),
        ),
        reps_len(item.reps) <= DEFAULT_MAX_ITEM_SIZE && item.reps.len() <= 7 && !has_long_mime(
            item.reps,
        ) ==> encoded(item, DEFAULT_MAX_ITEM_SIZE as nat) is Ok,
{
    broadcast use group_be_len;

    lemma_reps_bytes_len(item.reps);
}

/// The payloads that a frame reader yields, one after the other, until no whole
/// frame is buffered or one is rejected, and the bytes that stay buffered.
pub open spec fn drained(buf: Seq<u8>, max_payload: nat) -> (Seq<Seq<u8>>, Seq<u8>)
    decreases buf.len(),
    via drained_decreases
{
    match next_payload(buf, max_payload) {
        (Ok(Some(payload)), rest) => {
            let (payloads, end) = drained(rest, max_payload);
            (seq![payload] + payloads, end)
        },
        (_, rest) => (seq![], rest),
    }
}

#[via_fn]
proof fn drained_decreases(buf: Seq<u8>, max_payload: nat) {
    if buf.len() >= 4 {
        lemma_header_bounds(buf);
    }
}

/// A length prefix says a number of four bytes.
pub proof fn lemma_header_bounds(buf: Seq<u8>)
    requires
        buf.len() >= 4,
    ensures
        0 <= be32_value(buf) < 0x1_0000_0000,
{
    let head = buf.take(4);
    lemma_be32_canonical(head);
    assert(head.take(2) =~= buf.take(2));
    assert(head.subrange(2, 4) =~= buf.subrange(2, 4));
}

/// How a byte stream is cut into reads makes no difference: draining after each
/// of two pushes yields what draining once after both does.
pub proof fn law_reads_can_be_split(buf: Seq<u8>, more: Seq<u8>, max_payload: nat)
    ensures
        ({
            let (first, rest) = drained(buf, max_payload);
            let (second, end) = drained(rest + more, max_payload);
            drained(buf + more, max_payload) == (first + second, end)
        }),
    decreases buf.len(),
{
    let both = buf + more;
    if buf.len() >= 4 {
        lemma_header_bounds(buf);
        assert(both.take(2) =~= buf.take(2));
        assert(both.subrange(2, 4) =~= buf.subrange(2, 4));
    }
    match next_payload(buf, max_payload) {
        (Ok(Some(payload)), rest) => {
            let len = be32_value(buf);
            assert(both.subrange(4, 4 + len) =~= buf.subrange(4, 4 + len));
            assert(both.skip(4 + len) =~= rest + more);
            law_reads_can_be_split(rest, more, max_payload);
            let (first, end) = drained(rest, max_payload);
            let (second, _) = drained(end + more, max_payload);
            assert(seq![payload] + (first + second) =~= (seq![payload] + first) + second);
        },
        _ => {
            let (second, _) = drained(both, max_payload);
            assert(Seq::<Seq<u8>>::empty() + second =~= second);
        },
    }
}

/// Frames, one after the other.
pub open spec fn frames_bytes(payloads: Seq<Seq<u8>>) -> Seq<u8>
    decreases payloads.len(),
{
    if payloads.len() == 0 {
        seq![]
    } else {
        frame_bytes(payloads[0]) + frames_bytes(payloads.drop_first())
    }
}

/// A stream of frames yields exactly their payloads, in order, and leaves
/// nothing buffered.
pub proof fn law_frames_yield_their_payloads(payloads: Seq<Seq<u8>>, max_payload: nat)
    requires
        forall|i: int|
            0 <= i < payloads.len() ==> (#[trigger] payloads[i]).len() <= max_payload
                && payloads[i].len() <= u32::MAX,
    ensures
        drained(frames_bytes(payloads), max_payload) == (payloads, Seq::<u8>::empty()),
    decreases payloads.len(),
{
    broadcast use group_be_len;

    if payloads.len() == 0 {
        assert(payloads =~= Seq::<Seq<u8>>::empty());
    } else {
        let buf = frames_bytes(payloads);
        let first = payloads[0];
        let head = be32_bytes(first.len() as int);
        lemma_be32_roundtrip(first.len() as int);
        assert(buf.take(2) =~= head.take(2));
        assert(buf.subrange(2, 4) =~= head.subrange(2, 4));
        assert(buf.subrange(4, 4 + first.len() as int) =~= first);
        assert(buf.skip(4 + first.len() as int) =~= frames_bytes(payloads.drop_first()));
        law_frames_yield_their_payloads(payloads.drop_first(), max_payload);
        assert(seq![first] + payloads.drop_first() =~= payloads);
    }
}

/// How a frame is laid out: four bytes with the length of the payload, the most
/// significant first, and the payload.
pub proof fn law_frame_layout(payload: Seq<u8>)
    requires
        payload.len() <= u32::MAX,
    ensures
        ({
            let f = frame_bytes(payload);
            &&& f.len() == 4 + payload.len()
            &&& f[0] * 0x100_0000 + f[1] * 0x1_0000 + f[2] * 0x100 + f[3] == payload.len()
            &&& f.skip(4) == payload
        }),
{
    broadcast use group_be_len;

    let f = frame_bytes(payload);
    let head = be32_bytes(payload.len() as int);
    lemma_be32_roundtrip(payload.len() as int);
    law_big_endian(head);
    assert(f.skip(4) =~= payload);
    assert(f[0] == head[0] && f[1] == head[1] && f[2] == head[2] && f[3] == head[3]);
}

/// How an announcement is laid out: the kind byte one, the eight bytes of the
/// origin, the serial in eight bytes and the number of representations in two,
/// both with the most significant byte first, and the representations.
pub proof fn law_announcement_layout(item: ItemView)
    requires
        item.origin.len() == 8,
        item.reps.len() <= u16::MAX,
    ensures
        ({
            let p = announce_bytes(item);
            &&& p.len() >= 19
            &&& p[0] == 1
            &&& p.subrange(1, 9) == item.origin
            &&& p[9] * 0x100_0000_0000_0000 + p[10] * 0x1_0000_0000_0000 + p[11] * 0x100_0000_0000
                + p[12] * 0x1_0000_0000 + p[13] * 0x100_0000 + p[14] * 0x1_0000 + p[15] * 0x100
                + p[16] == item.serial
            &&& p[17] * 0x100 + p[18] == item.reps.len()
            &&& p.skip(19) == reps_bytes(item.reps)
        }),
{
    broadcast use group_be_len;

    let p = announce_bytes(item);
    let serial = be64_bytes(item.serial as int);
    let count = be16_bytes(item.reps.len() as int);
    lemma_be64_roundtrip(item.serial as int);
    lemma_be16_roundtrip(item.reps.len() as int);
    law_big_endian(serial);
    law_big_endian(count);
    assert(p.subrange(1, 9) =~= item.origin);
    assert(p.subrange(9, 17) =~= serial);
    assert(p.subrange(17, 19) =~= count);
    assert forall|k: int| 0 <= k < 8 implies p[9 + k] == serial[k] by {
        assert(p.subrange(9, 17)[k] == p[9 + k]);
    }
    assert(serial[0] == p[9 + 0int] && serial[1] == p[9 + 1int] && serial[2] == p[9 + 2int]
        && serial[3] == p[9 + 3int] && serial[4] == p[9 + 4int] && serial[5] == p[9 + 5int]
        && serial[6] == p[9 + 6int] && serial[7] == p[9 + 7int]);
    assert(p.subrange(17, 19)[0] == p[17] && p.subrange(17, 19)[1] == p[18]);
    assert(p.skip(19) =~= reps_bytes(item.reps));
}

/// How representations are laid out, one behind the other: the length of the
/// MIME type in two bytes, the MIME type, the length of the data in four bytes,
/// the data, and the next ones. Nothing stands for no representation.
pub proof fn law_representation_layout(rep: RepView, more: Seq<RepView>)
    requires
        encode_utf8(rep.0).len() <= u16::MAX,
        rep.1.len() <= u32::MAX,
    ensures
        ({
            let b = reps_bytes(seq![rep] + more);
            let m = encode_utf8(rep.0).len() as int;
            let d = rep.1.len() as int;
            &&& b.len() >= 6 + m + d
            &&& b[0] * 0x100 + b[1] == m
            &&& b.subrange(2, 2 + m) == encode_utf8(rep.0)
            &&& b[2 + m] * 0x100_0000 + b[3 + m] * 0x1_0000 + b[4 + m] * 0x100 + b[5 + m] == d
            &&& b.subrange(6 + m, 6 + m + d) == rep.1
            &&& b.skip(6 + m + d) == reps_bytes(more)
        }),
        reps_bytes(Seq::<RepView>::empty()) == Seq::<u8>::empty(),
{
    broadcast use group_be_len;

    let all = seq![rep] + more;
    let b = reps_bytes(all);
    let m = encode_utf8(rep.0).len() as int;
    let d = rep.1.len() as int;
    assert(all[0] == rep);
    assert(all.drop_first() =~= more);
    let ml = be16_bytes(m);
    let dl = be32_bytes(d);
    lemma_be16_roundtrip(m);
    lemma_be32_roundtrip(d);
    law_big_endian(ml);
    law_big_endian(dl);
    assert(b[0] == ml[0] && b[1] == ml[1]);
    assert(b.subrange(2, 2 + m) =~= encode_utf8(rep.0));
    assert(b[2 + m] == dl[0] && b[3 + m] == dl[1] && b[4 + m] == dl[2] && b[5 + m] == dl[3]);
    assert(b.subrange(6 + m, 6 + m + d) =~= rep.1);
    assert(b.skip(6 + m + d) =~= reps_bytes(more));
}

/// Which error an item gives that is not encoded: first its size is held against
/// the cap, then the number of its representations, then the lengths of their
/// MIME types, then the length of the payload. Any other item is encoded.
pub proof fn law_why_items_are_refused(item: ItemView, max_item_size: nat)
    requires
        item.origin.len() == 8,
    ensures
        ({
            let size = reps_len(item.reps);
            let n = item.reps.len();
            let long = exists|i: int|
                0 <= i < n && encode_utf8((#[trigger] item.reps[i]).0).len() > 65535;
            let len = 19 + size + 6 * n;
            let result = encoded(item, max_item_size);
            &&& max_item_size < size <= usize::MAX ==> result == Err::<Seq<u8>, ErrorView>(
                ErrorView::TooLarge(size, max_item_size),
            )
            &&& size <= max_item_size && n > 65535 ==> result == Err::<Seq<u8>, ErrorView>(
                ErrorView::Invalid("too many mime reps: "@ + decimal(n)),
            )
            &&& size <= max_item_size && n <= 65535 && long ==> result == Err::<
                Seq<u8>,
                ErrorView,
            >(ErrorView::Invalid("mime too long"@))
            &&& size <= max_item_size && n <= 65535 && !long && len > 67108928 ==> result == Err::<
                Seq<u8>,
                ErrorView,
            >(ErrorView::PayloadTooLarge(len, 67108928))
            &&& size <= max_item_size && n <= 65535 && !long && len <= 67108928 ==> result == Ok::<
                Seq<u8>,
                ErrorView,
            >(frame_bytes(announce_bytes(item)))
            &&& size > max_item_size && size > usize::MAX ==> result == Err::<Seq<u8>, ErrorView>(
                ErrorView::TooLarge(usize::MAX as nat, max_item_size),
            )
        }),
{
    broadcast use group_be_len;

    lemma_reps_bytes_len(item.reps);
}

/// Which error a payload gives that is no announcement at all: an empty one is
/// invalid, and one with another kind byte is of an unknown kind, which the error
/// names; an announcement that is shorter than its fixed fields is truncated.
pub proof fn law_why_payloads_are_refused(payload: Seq<u8>)
    ensures
        payload.len() == 0 ==> decoded(payload) == Err::<MessageView, ErrorView>(
            ErrorView::Invalid("empty payload"@),
        ),
        payload.len() > 0 && payload[0] != 1 ==> decoded(payload) == Err::<MessageView, ErrorView>(
            ErrorView::UnknownKind(payload[0]),
        ),
        0 < payload.len() < 19 && payload[0] == 1 ==> decoded(payload) == Err::<
            MessageView,
            ErrorView,
        >(ErrorView::Invalid("truncated"@)),
{
}

/// A message that is cut off anywhere behind its kind byte is truncated, and the
/// error says so.
pub proof fn law_cut_messages_are_truncated(payload: Seq<u8>, len: int)
    requires
        decoded(payload) is Ok,
        payload.len() <= usize::MAX,
        0 < len < payload.len(),
    ensures
        decoded(payload.take(len)) == Err::<MessageView, ErrorView>(
            ErrorView::Invalid("truncated"@),
        ),
{
    let buf = payload.drop_first();
    let cut = payload.take(len);
    let short = cut.drop_first();
    assert(short =~= buf.take(len - 1));
    if len - 1 >= 18 {
        assert(short.subrange(16, 18) =~= buf.subrange(16, 18));
        let n = be16_value(buf.subrange(16, 18)) as nat;
        lemma_cut_reps(buf, len - 1, 18, n);
        lemma_parsed_reps_canonical(buf, 18, n);
        if let Ok((reps, end)) = parsed_reps(short, 18, n) {
            lemma_parsed_reps_canonical(short, 18, n);
        }
    }
}

/// Cutting the buffer off leaves a representation as it is or truncates it.
proof fn lemma_cut_rep(buf: Seq<u8>, len: int, pos: int)
    requires
        0 <= pos <= len <= buf.len() <= usize::MAX,
        parsed_rep(buf, pos) is Ok,
    ensures
        parsed_rep(buf.take(len), pos) == parsed_rep(buf, pos) || parsed_rep(buf.take(len), pos)
            == Err::<(RepView, int), ErrorView>(ErrorView::Invalid("truncated"@)),
{
    let short = buf.take(len);
    let head = buf.subrange(pos, pos + 2);
    lemma_be16_canonical(head);
    let m = be16_value(head);
    let size = buf.subrange(pos + 2 + m, pos + 2 + m + 4);
    lemma_be32_canonical(size);
    let d = be32_value(size);
    if pos + 2 <= len {
        assert(short.subrange(pos, pos + 2) =~= head);
        if pos + 2 + m <= len {
            assert(short.subrange(pos + 2, pos + 2 + m) =~= buf.subrange(pos + 2, pos + 2 + m));
            if pos + 2 + m + 4 <= len {
                assert(short.subrange(pos + 2 + m, pos + 2 + m + 4) =~= size);
                if pos + 2 + m + 4 + d <= len {
                    assert(short.subrange(pos + 2 + m + 4, pos + 2 + m + 4 + d) =~= buf.subrange(
                        pos + 2 + m + 4,
                        pos + 2 + m + 4 + d,
                    ));
                }
            }
        }
    }
}

/// Cutting the buffer off leaves representations as they are or truncates them.
proof fn lemma_cut_reps(buf: Seq<u8>, len: int, pos: int, n: nat)
    requires
        0 <= pos <= len <= buf.len() <= usize::MAX,
        parsed_reps(buf, pos, n) is Ok,
    ensures
        parsed_reps(buf.take(len), pos, n) == parsed_reps(buf, pos, n) || parsed_reps(
            buf.take(len),
            pos,
            n,
        ) == Err::<(Seq<RepView>, int), ErrorView>(ErrorView::Invalid("truncated"@)),
    decreases n,
{
    if n > 0 {
        lemma_cut_rep(buf, len, pos);
        if parsed_rep(buf.take(len), pos) == parsed_rep(buf, pos) {
            let (_, next) = parsed_rep(buf, pos)->Ok_0;
            lemma_parsed_rep_canonical(buf.take(len), pos);
            lemma_parsed_rep_canonical(buf, pos);
            lemma_cut_reps(buf, len, next, (n - 1) as nat);
        }
    }
}

/// A MIME type that is not UTF-8 makes the message invalid, and the error says
/// so, whatever stands behind it.
pub proof fn law_mime_types_are_utf8(origin: Seq<u8>, serial: u64, mime: Seq<u8>, rest: Seq<u8>, n: int)
    requires
        origin.len() == 8,
        1 <= n <= u16::MAX,
        mime.len() <= u16::MAX,
        !valid_utf8(mime),
        21 + mime.len() + rest.len() <= usize::MAX,
    ensures
        decoded(
            seq![1u8] + origin + be64_bytes(serial as int) + be16_bytes(n) + be16_bytes(
                mime.len() as int,
            ) + mime + rest,
        ) == Err::<MessageView, ErrorView>(ErrorView::Invalid("mime not utf-8"@)),
{
    broadcast use group_be_len;

    let payload = seq![1u8] + origin + be64_bytes(serial as int) + be16_bytes(n) + be16_bytes(
        mime.len() as int,
    ) + mime + rest;
    let buf = payload.drop_first();
    lemma_be16_roundtrip(n);
    lemma_be16_roundtrip(mime.len() as int);
    assert(buf.subrange(16, 18) =~= be16_bytes(n));
    assert(buf.subrange(18, 20) =~= be16_bytes(mime.len() as int));
    assert(buf.subrange(20, 20 + mime.len() as int) =~= mime);
}

/// What a frame reader does with what is buffered: a whole frame at the front
/// yields its payload and leaves what stands behind it; anything less yields
/// nothing and stays; a length beyond the cap is refused and stays.
pub proof fn law_next_payload(payload: Seq<u8>, rest: Seq<u8>, max_payload: nat, cut: int)
    requires
        payload.len() <= u32::MAX,
        0 <= cut < 4 + payload.len(),
    ensures
        payload.len() <= max_payload ==> next_payload(frame_bytes(payload) + rest, max_payload) == (
            Ok::<Option<Seq<u8>>, ErrorView>(Some(payload)),
            rest,
        ),
        payload.len() <= max_payload || cut < 4 ==> next_payload(
            frame_bytes(payload).take(cut),
            max_payload,
        ) == (Ok::<Option<Seq<u8>>, ErrorView>(None), frame_bytes(payload).take(cut)),
        payload.len() > max_payload ==> next_payload(frame_bytes(payload) + rest, max_payload) == (
            Err::<Option<Seq<u8>>, ErrorView>(
                ErrorView::PayloadTooLarge(payload.len(), max_payload),
            ),
            frame_bytes(payload) + rest,
        ),
        payload.len() > max_payload && cut >= 4 ==> next_payload(
            frame_bytes(payload).take(cut),
            max_payload,
        ).0 is Err,
{
    broadcast use group_be_len;

    let frame = frame_bytes(payload);
    let buf = frame + rest;
    let head = be32_bytes(payload.len() as int);
    lemma_be32_roundtrip(payload.len() as int);
    assert(buf.take(2) =~= head.take(2));
    assert(buf.subrange(2, 4) =~= head.subrange(2, 4));
    assert(buf.subrange(4, 4 + payload.len() as int) =~= payload);
    assert(buf.skip(4 + payload.len() as int) =~= rest);
    let part = frame.take(cut);
    if cut >= 4 {
        assert(part.take(2) =~= head.take(2));
        assert(part.subrange(2, 4) =~= head.subrange(2, 4));
    }
}

/// A control frame is the length one and the kind byte.
pub proof fn law_control_frame_layout(kind: u8)
    ensures
        control_bytes(kind) == seq![0u8, 0, 0, 1, kind],
{
    law_frame_layout(seq![kind]);
    let f = control_bytes(kind);
    assert(f.skip(4)[0] == f[4]);
    assert(f =~= seq![0u8, 0, 0, 1, kind]);
}

/// A protocol error says what went wrong, with its numbers or its reason.
pub proof fn law_protocol_errors_say_their_reason(size: nat, max: nat, kind: u8, reason: Seq<char>)
    ensures
        error_text(ErrorView::TooLarge(size, max)) == "item too large: "@ + decimal(size)
            + " bytes exceeds cap of "@ + decimal(max),
        error_text(ErrorView::PayloadTooLarge(size, max)) == "payload too large: "@ + decimal(size)
            + " bytes exceeds cap of "@ + decimal(max),
        error_text(ErrorView::UnknownKind(kind)) == "unknown message kind: "@ + decimal(
            kind as nat,
        ),
        error_text(ErrorView::Invalid(reason)) == "invalid payload: "@ + reason,
{
}

} // verus!
