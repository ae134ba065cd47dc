//! DBus clipboard backend (source + sink) via `dbus-send`.
//!
//! Backs both the `klipper` (KDE) and `dbus` backend kinds, which expose the
//! same `org.kde.klipper` interface and differ only in their display name.
//! Best-effort: `dbus-send` output parsing is minimal and the backend
//! degrades gracefully (returns None / errors) when the service or tool is
//! unavailable.

use vstd::prelude::*;
use vstd::string::StringExecFns;
use vstd::utf8::{decode_utf8, encode_utf8, valid_utf8};

use crate::backend::{
    first_quoted, joined, law_first_quoting_line_counts, law_quoted_text_is_found,
    law_unquoted_line, opt_text_view, parse_dbus_string, BackendError, BackendErrorView, Tools,
};
use crate::clipboard::opt_item_view;
use crate::item::{
    text_item_view, ClipboardChange, ClipboardItem, ItemView, RepView, MIME_TEXT_PLAIN,
    MIME_TEXT_PLAIN_ALT,
};
use crate::text::{
    eq_ignore_case, law_lines, lines, lossy_utf8, lowercase, str_eq, string_from_utf8_lossy, texts_view, trim,
};

verus! {

pub const SERVICE: &'static str = "org.kde.klipper";

pub const PATH: &'static str = "/klipper";

pub const IFACE: &'static str = "org.kde.klipper.klipper";

/// How often the clipboard is polled for changes, in milliseconds.
pub const POLL_INTERVAL_MS: u64 = 1000;

/// The origin of an item that no machine has stamped yet.
pub open spec fn no_origin() -> Seq<u8> {
    seq![0u8, 0, 0, 0, 0, 0, 0, 0]
}

/// The arguments of a `dbus-send` call to one klipper method.
pub open spec fn method_args(method: Seq<char>) -> Seq<Seq<char>> {
    seq![
        "--session"@,
        "--print-reply"@,
        "--dest="@ + SERVICE@,
        PATH@,
        IFACE@ + "."@ + method,
    ]
}

/// The arguments of a `dbus-send --session --print-reply` call to one klipper
/// method.
pub fn dbus_send(method: &str) -> (args: Vec<String>)
    ensures
        texts_view(args@) == method_args(method@),
{
    let mut args: Vec<String> = Vec::new();
    args.push(String::from_str("--session"));
    args.push(String::from_str("--print-reply"));
    args.push(joined("--dest=", SERVICE));
    args.push(String::from_str(PATH));
    args.push(joined(joined(IFACE, ".").as_str(), method));
    assert(texts_view(args@) =~= method_args(method@));
    args
}

/// The clipboard text that a reply says, where the call succeeded.
pub open spec fn reply_text(success: bool, reply: Seq<char>) -> Option<Seq<char>> {
    if success {
        first_quoted(lines(reply))
    } else {
        None
    }
}

/// The clipboard text that a reply says, given whether the call succeeded and
/// its output as text.
pub fn text_of_reply(success: bool, reply: &str) -> (text: Option<String>)
    ensures
        opt_text_view(text) == reply_text(success, reply@),
{
    if success {
        parse_dbus_string(reply)
    } else {
        None
    }
}

/// The current clipboard text over DBus, if the service answers, given whether
/// the call succeeded and its output.
pub fn read_dbus_text(success: bool, stdout: &[u8]) -> (text: Option<String>)
    ensures
        opt_text_view(text) == reply_text(success, lossy_utf8(stdout@)),
        valid_utf8(stdout@) ==> opt_text_view(text) == reply_text(success, decode_utf8(stdout@)),
{
    let reply = string_from_utf8_lossy(stdout);
    text_of_reply(success, reply.as_str())
}

/// Wrap plain text as the item this backend produces.
pub fn text_item(text: &str) -> (item: ClipboardItem)
    ensures
        item@ == text_item_view(text@, no_origin(), 0),
{
    let origin: [u8; 8] = [0, 0, 0, 0, 0, 0, 0, 0];
    assert(origin@ =~= no_origin());
    ClipboardItem::text(text, origin, 0)
}

/// Whether a MIME type is one of the two plain-text types, whatever its case.
pub open spec fn plain_only(mime: Seq<char>) -> bool {
    lowercase(mime) == lowercase(MIME_TEXT_PLAIN@) || lowercase(mime) == lowercase(
        MIME_TEXT_PLAIN_ALT@,
    )
}

/// The bytes that are written of an item: those of its primary representation,
/// where that is plain text.
pub open spec fn written_bytes(reps: Seq<RepView>) -> Option<Seq<u8>> {
    if reps.len() > 0 && plain_only(reps[0].0) {
        Some(reps[0].1)
    } else {
        None
    }
}

/// The item that a read of the clipboard reports, given the text that it was
/// reported to hold before: the first read, and later ones that differ.
pub open spec fn reported_item(before: Option<Seq<char>>, read: Option<Seq<char>>) -> Option<
    ItemView,
> {
    match read {
        Some(text) => if before == Some(text) {
            None
        } else {
            Some(text_item_view(text, no_origin(), 0))
        },
        None => None,
    }
}

/// The text that the clipboard was last reported to hold, after a read.
pub open spec fn reported_text(before: Option<Seq<char>>, read: Option<Seq<char>>) -> Option<
    Seq<char>,
> {
    match read {
        Some(text) => Some(text),
        None => before,
    }
}

/// What an optional change says.
pub open spec fn opt_change_view(change: Option<ClipboardChange>) -> Option<ItemView> {
    match change {
        Some(c) => Some(c@),
        None => None,
    }
}

/// A DBus-backed clipboard, parameterized by its display name.
#[derive(Debug)]
pub struct DbusClipboardBackend {
    name: &'static str,
}

impl View for DbusClipboardBackend {
    type V = Seq<char>;

    /// The display name.
    closed spec fn view(&self) -> Seq<char> {
        self.name@
    }
}

impl DbusClipboardBackend {
    pub fn new(name: &'static str) -> (backend: Self)
        ensures
            backend@ == name@,
    {
        Self { name }
    }

    /// Whether the tool exists.
    pub fn available(tools: &Tools) -> (yes: bool)
        ensures
            yes == tools.dbus_send,
    {
        tools.dbus_send
    }

    /// Human-readable backend name (for logs and config display).
    pub fn name(&self) -> (name: &'static str)
        ensures
            name@ == self@,
    {
        self.name
    }

    /// The current clipboard item, given the text that was read.
    pub fn read_current(&self, text: Option<String>) -> (item: Option<ClipboardItem>)
        ensures
            opt_item_view(item) == match text {
                Some(t) => Some(text_item_view(t@, no_origin(), 0)),
                None => None,
            },
    {
        match text {
            Some(t) => Some(text_item(t.as_str())),
            None => None,
        }
    }

    /// The text that is to be written of an item, given the text of its bytes,
    /// as the argument of a `dbus-send` call.
    pub fn string_argument(text: &str) -> (arg: String)
        ensures
            arg@ == "string:"@ + text@,
    {
        joined("string:", text)
    }

    /// The argument of the `dbus-send` call that writes an item, or none where
    /// the item is to be skipped.
    ///
    /// klipper carries plain text only and always reports it back as
    /// `text/plain`. Applying any other primary rep would echo under a
    /// different MIME and defeat echo suppression, so it is skipped rather than
    /// falling back to a secondary text rep.
    pub fn set_argument(&self, item: &ClipboardItem) -> (arg: Option<String>)
        ensures
            opt_text_view(arg) == match written_bytes(item@.reps) {
                Some(data) => Some("string:"@ + lossy_utf8(data)),
                None => None,
            },
            match written_bytes(item@.reps) {
                Some(data) => valid_utf8(data) ==> opt_text_view(arg) == Some(
                    "string:"@ + decode_utf8(data),
                ),
                None => true,
            },
    {
        let rep = match item.primary() {
            Some(rep) => rep,
            None => return None,
        };
        let mime = rep.0.as_str();
        if !eq_ignore_case(mime, MIME_TEXT_PLAIN) && !eq_ignore_case(mime, MIME_TEXT_PLAIN_ALT) {
            return None;
        }
        let text = string_from_utf8_lossy(&rep.1);
        Some(Self::string_argument(text.as_str()))
    }

    /// What comes of running `dbus-send`, given how it ended.
    pub fn set_outcome(success: bool, status: &str) -> (result: Result<(), BackendError>)
        ensures
            match result {
                Ok(_) => success,
                Err(e) => !success && e@ == BackendErrorView::Other(
                    "dbus-send failed: "@ + status@,
                ),
            },
    {
        if success {
            Ok(())
        } else {
            Err(BackendError::Other(joined("dbus-send failed: ", status)))
        }
    }
}

/// Polls the clipboard for changes (DBus has no change signal we rely on).
#[derive(Debug)]
pub struct DbusWatch {
    /// Last text reported to the driver; the first successful read establishes
    /// the baseline and is emitted, later reads only when the value changes.
    reported: Option<String>,
}

impl View for DbusWatch {
    type V = Option<Seq<char>>;

    /// Last text reported to the driver.
    closed spec fn view(&self) -> Option<Seq<char>> {
        opt_text_view(self.reported)
    }
}

impl DbusWatch {
    pub fn new() -> (watch: Self)
        ensures
            watch@ is None,
    {
        DbusWatch { reported: None }
    }

    /// Take in the text that was read, if any; the change to report.
    pub fn observe(&mut self, read: Option<String>) -> (change: Option<ClipboardChange>)
        ensures
            opt_change_view(change) == reported_item(old(self)@, opt_text_view(read)),
            final(self)@ == reported_text(old(self)@, opt_text_view(read)),
    {
        let text = match read {
            Some(text) => text,
            None => return None,
        };
        if let Some(last) = &self.reported {
            if str_eq(last.as_str(), text.as_str()) {
                return None;
            }
        }
        let item = text_item(text.as_str());
        self.reported = Some(text);
        Some(ClipboardChange::New(item))
    }
}

/// A text item is written in full, whatever its text is.
pub proof fn law_text_items_are_written(text: Seq<char>, origin: Seq<u8>, serial: u64)
    ensures
        written_bytes(text_item_view(text, origin, serial).reps) == Some(encode_utf8(text)),
{
}

/// Whatever is not plain text in its primary representation is not written.
pub proof fn law_rich_primary_is_skipped(reps: Seq<RepView>)
    requires
        reps.len() > 0,
        !plain_only(reps[0].0),
    ensures
        written_bytes(reps) is None,
{
}

/// Reading the same text again reports nothing; reading another one reports it.
pub proof fn law_only_changes_are_reported(
    before: Option<Seq<char>>,
    first: Seq<char>,
    second: Seq<char>,
)
    ensures
        reported_item(reported_text(before, Some(first)), Some(second)) is Some <==> first != second,
        before is None ==> reported_item(before, Some(first)) == Some(
            text_item_view(first, no_origin(), 0),
        ),
{
}

/// A call goes to one method of klipper on the session bus, and asks for a
/// reply.
pub proof fn law_method_calls(method: Seq<char>)
    ensures
        method_args(method).len() == 5,
        method_args(method)[0] == "--session"@,
        method_args(method)[1] == "--print-reply"@,
        method_args(method)[2] == "--dest=org.kde.klipper"@,
        method_args(method)[3] == "/klipper"@,
        method_args(method)[4] == "org.kde.klipper.klipper."@ + method,
{
    reveal_strlit("--dest=");
    reveal_strlit("org.kde.klipper");
    reveal_strlit("--dest=org.kde.klipper");
    reveal_strlit("org.kde.klipper.klipper");
    reveal_strlit(".");
    reveal_strlit("org.kde.klipper.klipper.");
    assert("--dest="@ + SERVICE@ =~= "--dest=org.kde.klipper"@);
    assert(IFACE@ + "."@ =~= "org.kde.klipper.klipper."@);
}

/// The text of a reply is what stands in quotes behind `string ` in the first
/// line that quotes something so, whatever whitespace is around that line; a
/// call that failed says nothing.
pub proof fn law_what_replies_say(
    line: Seq<char>,
    before: Seq<char>,
    text: Seq<char>,
    behind: Seq<char>,
    rest: Seq<char>,
)
    requires
        !line.contains('\n'),
        trim(line) == before + "string \""@ + text + seq!['"'] + behind,
        !text.contains('"'),
        forall|j: int|
            0 <= j < before.len() ==> !"string \""@.is_prefix_of(
                #[trigger] (before + "string \""@ + text + seq!['"'] + behind).skip(j),
            ),
    ensures
        reply_text(true, line) == Some(text),
        reply_text(true, line + seq!['\n'] + rest) == Some(text),
        reply_text(false, rest) is None,
{
    let none = Seq::<Seq<char>>::empty();
    law_lines(line, rest);
    law_quoted_text_is_found(before, text, behind);
    law_first_quoting_line_counts(none, line, lines(rest));
    law_first_quoting_line_counts(none, line, none);
    assert(none.push(line) + lines(rest) =~= seq![line] + lines(rest));
    assert(none.push(line) + none =~= seq![line]);
}

/// A line without `string "` in it is passed over.
pub proof fn law_lines_that_quote_nothing_are_passed_over(line: Seq<char>, rest: Seq<char>)
    requires
        !line.contains('\n'),
        forall|j: int|
            0 <= j <= trim(line).len() ==> !"string \""@.is_prefix_of(
                #[trigger] trim(line).skip(j),
            ),
    ensures
        reply_text(true, line) is None,
        reply_text(true, line + seq!['\n'] + rest) == reply_text(true, rest),
{
    law_lines(line, rest);
    law_unquoted_line(trim(line));
    law_first_quoting_line_counts(seq![line], line, seq![]);
    let all = seq![line] + lines(rest);
    assert(all[0] == line);
    assert(all.drop_first() =~= lines(rest));
}

/// Which representations are written: a primary one whose MIME type is one of
/// the two names of plain text, in whatever case, and no other.
pub proof fn law_what_is_written(rep: RepView, more: Seq<RepView>)
    ensures
        lowercase(rep.0) == "text/plain"@ || lowercase(rep.0) == "text/plain;charset=utf-8"@
            ==> written_bytes(seq![rep] + more) == Some(rep.1),
        lowercase(rep.0) != "text/plain"@ && lowercase(rep.0) != "text/plain;charset=utf-8"@
            ==> written_bytes(seq![rep] + more) is None,
        written_bytes(Seq::<RepView>::empty()) is None,
{
    reveal_strlit("text/plain");
    reveal_strlit("text/plain;charset=utf-8");
    assert(lowercase("text/plain"@) =~= "text/plain"@);
    assert(lowercase("text/plain;charset=utf-8"@) =~= "text/plain;charset=utf-8"@);
    assert((seq![rep] + more)[0] == rep);
}

/// A read that fails reports nothing and leaves what was reported last, so a
/// text that is there again after it is not reported twice; a new text is
/// reported as one representation of plain text that no machine has stamped.
pub proof fn law_failed_reads_are_passed_over(before: Option<Seq<char>>, text: Seq<char>)
    ensures
        reported_item(before, None) is None,
        reported_text(before, None) == before,
        reported_text(before, Some(text)) == Some(text),
        reported_item(reported_text(Some(text), None), Some(text)) is None,
        before != Some(text) ==> (reported_item(before, Some(text)) matches Some(item)
            && item.origin == seq![0u8, 0, 0, 0, 0, 0, 0, 0] && item.serial == 0 && item.reps
            == seq![("text/plain;charset=utf-8"@, encode_utf8(text))]),
{
}

} // verus!
