//! Clipboard backend abstraction and selection.
//!
//! A backend is either a *source* (reads and watches the live clipboard)
//! or a *sink* (only writes, e.g. recording into a history store). The
//! orchestrator treats the first backend as the source and sets an item
//! on every backend (source + history sinks).
//!
//! What tools and processes there are is looked up by whoever asks for a
//! selection; what follows from it is decided here.

use vstd::prelude::*;
use vstd::string::{StrSliceExecFns, StringExecFns};
use vstd::utf8::{
    decode_utf8, encode_utf8, encode_utf8_decode_utf8, encode_utf8_valid_utf8, valid_utf8,
};

use crate::text::{
    chars_eq, chars_of, find, find_in, lemma_find_absent, lemma_find_at, lemma_find_bounds,
    lemma_find_first, lemma_find_is_first, line_ranges, lines, string_from_utf8, trim, trim_range,
    trimmed,
};

pub mod cliphist;
pub mod dbus_klipper;
pub mod dummy;
pub mod wl_clipboard;

verus! {

#[derive(Debug)]
pub enum BackendError {
    /// The named backend is not available on this system, for the given reason.
    Unavailable(String, String),
    /// Input or output failed.
    Io(String),
    /// Bytes that should be text are not UTF-8.
    Utf8(String),
    /// Some other operation failed.
    Other(String),
}

/// What a backend error says.
#[verifier::ext_equal]
pub enum BackendErrorView {
    Unavailable(Seq<char>, Seq<char>),
    Io(Seq<char>),
    Utf8(Seq<char>),
    Other(Seq<char>),
}

impl View for BackendError {
    type V = BackendErrorView;

    open spec fn view(&self) -> BackendErrorView {
        match self {
            BackendError::Unavailable(name, reason) => BackendErrorView::Unavailable(
                name@,
                reason@,
            ),
            BackendError::Io(reason) => BackendErrorView::Io(reason@),
            BackendError::Utf8(reason) => BackendErrorView::Utf8(reason@),
            BackendError::Other(reason) => BackendErrorView::Other(reason@),
        }
    }
}

/// The text of a backend error.
pub open spec fn backend_error_text(error: BackendErrorView) -> Seq<char> {
    match error {
        BackendErrorView::Unavailable(name, reason) => "backend `"@ + name
            + "` is not available on this system: "@ + reason,
        BackendErrorView::Io(reason) => "io error: "@ + reason,
        BackendErrorView::Utf8(reason) => "invalid UTF-8: "@ + reason,
        BackendErrorView::Other(reason) => "operation failed: "@ + reason,
    }
}

/// Two texts, one after the other.
pub(crate) fn joined(a: &str, b: &str) -> (text: String)
    ensures
        text@ == a@ + b@,
{
    let mut text = String::from_str(a);
    text.append(b);
    text
}

impl BackendError {
    /// A sentence that says what went wrong.
    pub fn message(&self) -> (text: String)
        ensures
            text@ == backend_error_text(self@),
    {
        match self {
            BackendError::Unavailable(name, reason) => {
                let mut text = joined("backend `", name.as_str());
                text.append("` is not available on this system: ");
                text.append(reason.as_str());
                text
            },
            BackendError::Io(reason) => joined("io error: ", reason.as_str()),
            BackendError::Utf8(reason) => joined("invalid UTF-8: ", reason.as_str()),
            BackendError::Other(reason) => joined("operation failed: ", reason.as_str()),
        }
    }
}

/// Which of the tools that the backends run exist on `$PATH`.
#[derive(Debug, Clone, Copy, PartialEq, Eq, Structural)]
pub struct Tools {
    pub wl_paste: bool,
    pub wl_copy: bool,
    pub cliphist: bool,
    pub dbus_send: bool,
}

/// Which backend to use for the primary source.
#[derive(Debug, Clone, Copy, PartialEq, Eq, Structural)]
pub enum BackendKind {
    /// Detect the best available backend automatically.
    Auto,
    WlClipboard,
    ClipHist,
    Klipper,
    Dbus,
    /// In-memory backend, used for testing and as a safe fallback.
    Dummy,
}

/// A backend that was chosen to run.
#[derive(Debug, Clone, Copy, PartialEq, Eq, Structural)]
pub enum Backend {
    Dummy,
    WlClipboard,
    ClipHist,
    Klipper,
    Dbus,
}

impl Backend {
    /// The name of the backend.
    pub open spec fn spec_name(self) -> Seq<char> {
        match self {
            Backend::Dummy => "dummy"@,
            Backend::WlClipboard => "wl-clipboard"@,
            Backend::ClipHist => "cliphist"@,
            Backend::Klipper => "klipper"@,
            Backend::Dbus => "dbus"@,
        }
    }

    /// Human-readable backend name (for logs and config display).
    pub fn name(&self) -> (name: &'static str)
        ensures
            name@ == self.spec_name(),
    {
        match self {
            Backend::Dummy => "dummy",
            Backend::WlClipboard => "wl-clipboard",
            Backend::ClipHist => "cliphist",
            Backend::Klipper => "klipper",
            Backend::Dbus => "dbus",
        }
    }
}

/// Whether a backend kind is a DBus-based integration.
pub open spec fn dbus_kind(kind: BackendKind) -> bool {
    kind == BackendKind::Klipper || kind == BackendKind::Dbus
}

/// The name of a backend kind.
pub open spec fn kind_name(kind: BackendKind) -> Seq<char> {
    match kind {
        BackendKind::Auto => "auto"@,
        BackendKind::WlClipboard => "wl-clipboard"@,
        BackendKind::ClipHist => "cliphist"@,
        BackendKind::Klipper => "klipper"@,
        BackendKind::Dbus => "dbus"@,
        BackendKind::Dummy => "dummy"@,
    }
}

/// Candidate primary sources in priority order.
pub open spec fn candidate_kinds() -> Seq<BackendKind> {
    seq![
        BackendKind::WlClipboard,
        BackendKind::Klipper,
        BackendKind::Dbus,
        BackendKind::Dummy,
    ]
}

/// Whether the tools of a backend exist. The in-memory backend needs none, and
/// `Auto` is no backend of its own.
pub open spec fn tools_present(kind: BackendKind, tools: Tools) -> bool {
    match kind {
        BackendKind::Auto => false,
        BackendKind::WlClipboard => tools.wl_paste && tools.wl_copy,
        BackendKind::ClipHist => tools.cliphist,
        BackendKind::Klipper => tools.dbus_send,
        BackendKind::Dbus => tools.dbus_send,
        BackendKind::Dummy => true,
    }
}

/// Whether a backend kind is available: its tools exist, or for `Auto` those of
/// some candidate.
pub open spec fn kind_available(kind: BackendKind, tools: Tools) -> bool {
    if kind == BackendKind::Auto {
        exists|i: int|
            0 <= i < candidate_kinds().len() && tools_present(
                #[trigger] candidate_kinds()[i],
                tools,
            )
    } else {
        tools_present(kind, tools)
    }
}

/// Whether a candidate can be the primary source: its tools exist, and it is no
/// DBus integration next to a running Wayland clipboard.
pub open spec fn usable(kind: BackendKind, tools: Tools, wayland_active: bool) -> bool {
    kind_available(kind, tools) && !(wayland_active && dbus_kind(kind))
}

/// The first of the kinds that can be the primary source.
pub open spec fn first_usable(
    kinds: Seq<BackendKind>,
    tools: Tools,
    wayland_active: bool,
) -> BackendKind
    decreases kinds.len(),
{
    if kinds.len() == 0 {
        BackendKind::Dummy
    } else if usable(kinds[0], tools, wayland_active) {
        kinds[0]
    } else {
        first_usable(kinds.drop_first(), tools, wayland_active)
    }
}

/// The primary kind that a configured kind stands for.
pub open spec fn primary_kind(
    kind: BackendKind,
    tools: Tools,
    wayland_active: bool,
) -> BackendKind {
    if kind == BackendKind::Auto {
        first_usable(candidate_kinds(), tools, wayland_active)
    } else {
        kind
    }
}

/// What takes the place of a DBus integration while a Wayland clipboard runs.
pub open spec fn wayland_or_dummy(tools: Tools) -> Backend {
    if kind_available(BackendKind::WlClipboard, tools) {
        Backend::WlClipboard
    } else {
        Backend::Dummy
    }
}

/// The backends of a primary kind: a history store has no source of its own, and
/// a DBus integration gives way to a running Wayland clipboard.
pub open spec fn primary_backends(
    primary: BackendKind,
    tools: Tools,
    wayland_active: bool,
) -> Seq<Backend> {
    match primary {
        BackendKind::Auto => seq![],
        BackendKind::Dummy => seq![Backend::Dummy],
        BackendKind::WlClipboard => seq![Backend::WlClipboard],
        BackendKind::ClipHist => seq![Backend::Dummy, Backend::ClipHist],
        BackendKind::Klipper => seq![
            if wayland_active {
                wayland_or_dummy(tools)
            } else {
                Backend::Klipper
            },
        ],
        BackendKind::Dbus => seq![
            if wayland_active {
                wayland_or_dummy(tools)
            } else {
                Backend::Dbus
            },
        ],
    }
}

/// The backends that a configured kind stands for: the primary first, followed
/// by a history sink where its tool exists.
pub open spec fn selected_backends(
    kind: BackendKind,
    tools: Tools,
    wayland_active: bool,
) -> Seq<Backend> {
    let primary = primary_kind(kind, tools, wayland_active);
    let out = primary_backends(primary, tools, wayland_active);
    if primary != BackendKind::ClipHist && tools.cliphist {
        out.push(Backend::ClipHist)
    } else {
        out
    }
}

impl BackendKind {
    /// True when this backend is a DBus-based integration (klipper / generic
    /// DBus). Used to keep a single clipboard manager running at a time: when
    /// a Wayland or Noctalia clipboard is detected, these are disabled.
    pub fn is_dbus(&self) -> (yes: bool)
        ensures
            yes == dbus_kind(*self),
    {
        *self == BackendKind::Klipper || *self == BackendKind::Dbus
    }

    /// A short name usable in logs/config (snake/kebab case).
    pub fn as_str(&self) -> (name: &'static str)
        ensures
            name@ == kind_name(*self),
    {
        match self {
            BackendKind::Auto => "auto",
            BackendKind::WlClipboard => "wl-clipboard",
            BackendKind::ClipHist => "cliphist",
            BackendKind::Klipper => "klipper",
            BackendKind::Dbus => "dbus",
            BackendKind::Dummy => "dummy",
        }
    }

    /// Check whether the tool/binary for this backend exists on `$PATH`.
    pub fn available(&self, tools: &Tools) -> (yes: bool)
        ensures
            yes == kind_available(*self, *tools),
    {
        if *self != BackendKind::Auto {
            return self.tools_exist(tools);
        }
        let kinds = Self::candidates();
        let mut i: usize = 0;
        while i < kinds.len()
            invariant
                *self == BackendKind::Auto,
                kinds@ == candidate_kinds(),
                0 <= i <= kinds@.len(),
                forall|j: int|
                    0 <= j < i ==> !tools_present(#[trigger] candidate_kinds()[j], *tools),
            decreases kinds@.len() - i,
        {
            if kinds[i].tools_exist(tools) {
                assert(tools_present(candidate_kinds()[i as int], *tools));
                return true;
            }
            i = i + 1;
        }
        false
    }

    /// Whether the tools of a backend exist.
    fn tools_exist(&self, tools: &Tools) -> (yes: bool)
        ensures
            yes == tools_present(*self, *tools),
    {
        match self {
            BackendKind::Auto => false,
            BackendKind::WlClipboard => wl_clipboard::WlClipboardBackend::available(tools),
            BackendKind::ClipHist => cliphist::ClipHistBackend::available(tools),
            BackendKind::Klipper => dbus_klipper::DbusClipboardBackend::available(tools),
            BackendKind::Dbus => dbus_klipper::DbusClipboardBackend::available(tools),
            BackendKind::Dummy => true,
        }
    }

    /// Candidate primary sources in priority order.
    pub fn candidates() -> (kinds: Vec<BackendKind>)
        ensures
            kinds@ == candidate_kinds(),
    {
        let mut out: Vec<BackendKind> = Vec::new();
        out.push(BackendKind::WlClipboard);
        out.push(BackendKind::Klipper);
        out.push(BackendKind::Dbus);
        out.push(BackendKind::Dummy);
        assert(out@ =~= candidate_kinds());
        out
    }
}

/// Resolve a configured `BackendKind` into an ordered list of backends:
/// the primary (source + sink) first, followed by any attached history sinks.
///
/// Only a single clipboard integration may run at a time. If a Wayland or
/// Noctalia clipboard manager is already running, the DBus (klipper)
/// integration must not also run or the two would fight over the clipboard.
pub fn build_backends(kind: BackendKind, tools: &Tools, wayland_active: bool) -> (out: Vec<Backend>)
    ensures
        out@ == selected_backends(kind, *tools, wayland_active),
{
    let primary = match kind {
        BackendKind::Auto => choose_primary(tools, wayland_active),
        other => other,
    };
    proof {
        lemma_first_usable(candidate_kinds(), *tools, wayland_active);
    }
    let mut out: Vec<Backend> = Vec::new();
    push_primary(&mut out, primary, tools, wayland_active);
    assert(out@ =~= primary_backends(primary, *tools, wayland_active));
    // Attach a cliphist history sink if available and not already present.
    let has_cliphist = contains_cliphist(&out);
    assert(has_cliphist == (primary == BackendKind::ClipHist)) by {
        if primary == BackendKind::ClipHist {
            assert(out@[1] == Backend::ClipHist);
        }
    }
    if !has_cliphist && cliphist::ClipHistBackend::available(tools) {
        out.push(Backend::ClipHist);
    }
    out
}

/// The best available primary source.
fn choose_primary(tools: &Tools, wayland_active: bool) -> (kind: BackendKind)
    ensures
        kind == first_usable(candidate_kinds(), *tools, wayland_active),
{
    let kinds = BackendKind::candidates();
    let mut i: usize = 0;
    assert(kinds@.skip(0) =~= kinds@);
    while i < kinds.len()
        invariant
            kinds@ == candidate_kinds(),
            0 <= i <= kinds@.len(),
            first_usable(kinds@.skip(i as int), *tools, wayland_active) == first_usable(
                kinds@,
                *tools,
                wayland_active,
            ),
        decreases kinds@.len() - i,
    {
        assert(kinds@.skip(i as int)[0] == kinds@[i as int]);
        assert(kinds@.skip(i as int).drop_first() =~= kinds@.skip(i + 1));
        if kinds[i].available(tools) && !(wayland_active && kinds[i].is_dbus()) {
            return kinds[i];
        }
        i = i + 1;
    }
    BackendKind::Dummy
}

/// What is chosen automatically is one of the kinds or the in-memory backend.
proof fn lemma_first_usable(kinds: Seq<BackendKind>, tools: Tools, wayland_active: bool)
    ensures
        ({
            let kind = first_usable(kinds, tools, wayland_active);
            (kinds.contains(kind) && usable(kind, tools, wayland_active)) || kind
                == BackendKind::Dummy
        }),
    decreases kinds.len(),
{
    if kinds.len() > 0 {
        lemma_first_usable(kinds.drop_first(), tools, wayland_active);
        let kind = first_usable(kinds.drop_first(), tools, wayland_active);
        if kinds.drop_first().contains(kind) {
            let i = choose|i: int|
                0 <= i < kinds.drop_first().len() && kinds.drop_first()[i] == kind;
            assert(kinds[i + 1] == kind);
        }
        assert(kinds.contains(kinds[0]));
    }
}

fn contains_cliphist(out: &Vec<Backend>) -> (yes: bool)
    ensures
        yes == out@.contains(Backend::ClipHist),
{
    let mut i: usize = 0;
    while i < out.len()
        invariant
            0 <= i <= out@.len(),
            forall|j: int| 0 <= j < i ==> out@[j] != Backend::ClipHist,
        decreases out@.len() - i,
    {
        if out[i] == Backend::ClipHist {
            assert(out@[i as int] == Backend::ClipHist);
            return true;
        }
        i = i + 1;
    }
    false
}

/// Push the primary backend for the resolved `primary` kind into `out`.
pub fn push_primary(
    out: &mut Vec<Backend>,
    primary: BackendKind,
    tools: &Tools,
    wayland_active: bool,
)
    requires
        primary != BackendKind::Auto,
    ensures
        final(out)@ == old(out)@ + primary_backends(primary, *tools, wayland_active),
{
    match primary {
        BackendKind::Auto => {},
        BackendKind::Dummy => out.push(Backend::Dummy),
        BackendKind::WlClipboard => out.push(Backend::WlClipboard),
        BackendKind::ClipHist => {
            // cliphist is a sink; if chosen as primary there is no source,
            // so fall back to dummy for the source and still record history.
            out.push(Backend::Dummy);
            out.push(Backend::ClipHist);
        },
        BackendKind::Klipper => {
            if wayland_active {
                push_wayland_or_dummy(out, tools);
            } else {
                out.push(Backend::Klipper);
            }
        },
        BackendKind::Dbus => {
            if wayland_active {
                push_wayland_or_dummy(out, tools);
            } else {
                out.push(Backend::Dbus);
            }
        },
    }
    assert(out@ =~= old(out)@ + primary_backends(primary, *tools, wayland_active));
}

/// Fallback used when a DBus integration is requested but a Wayland/Noctalia
/// clipboard is running: use the wl-clipboard backend when available, else a
/// dummy, so exactly one integration owns the clipboard.
fn push_wayland_or_dummy(out: &mut Vec<Backend>, tools: &Tools)
    ensures
        final(out)@ == old(out)@.push(wayland_or_dummy(*tools)),
{
    if wl_clipboard::WlClipboardBackend::available(tools) {
        out.push(Backend::WlClipboard);
    } else {
        out.push(Backend::Dummy);
    }
}

/// There is always a backend, the first is never a mere history sink, and a
/// history sink occurs at most once, last.
pub proof fn law_selection_has_a_source(kind: BackendKind, tools: Tools, wayland_active: bool)
    ensures
        ({
            let out = selected_backends(kind, tools, wayland_active);
            &&& 1 <= out.len() <= 2
            &&& out[0] != Backend::ClipHist
            &&& out.len() == 2 ==> out[1] == Backend::ClipHist
        }),
{
    lemma_first_usable(candidate_kinds(), tools, wayland_active);
}

/// The in-memory backend, and with it automatic selection, is always available.
pub proof fn law_dummy_is_always_available(tools: Tools)
    ensures
        kind_available(BackendKind::Dummy, tools),
        kind_available(BackendKind::Auto, tools),
{
    assert(tools_present(candidate_kinds()[3], tools));
}

/// While a Wayland clipboard runs, no DBus integration is selected, whatever is
/// configured.
pub proof fn law_no_dbus_next_to_wayland(kind: BackendKind, tools: Tools, i: int)
    requires
        0 <= i < selected_backends(kind, tools, true).len(),
    ensures
        selected_backends(kind, tools, true)[i] != Backend::Klipper,
        selected_backends(kind, tools, true)[i] != Backend::Dbus,
{
    lemma_first_usable(candidate_kinds(), tools, true);
}

/// Without any tools, automatic selection falls back to the in-memory backend.
pub proof fn law_auto_without_tools_is_dummy(tools: Tools, wayland_active: bool)
    requires
        !tools.wl_paste || !tools.wl_copy,
        !tools.cliphist,
        !tools.dbus_send,
    ensures
        selected_backends(BackendKind::Auto, tools, wayland_active) == seq![Backend::Dummy],
{
    lemma_first_usable(candidate_kinds(), tools, wayland_active);
    assert(selected_backends(BackendKind::Auto, tools, wayland_active) =~= seq![Backend::Dummy]);
}

/// Process names that indicate an active Wayland or Noctalia clipboard
/// manager. When one of these is running it owns the clipboard, so our own
/// DBus (klipper) integration must not also run.
pub const WAYLAND_CLIPBOARD_PROCS: [&'static str; 10] = [
    "wl-paste",
    "wl-copy",
    "wl-clipboard-manager",
    "clipboard-manager",
    "clipman",
    "cliphist",
    "cliphist-watch",
    "copyq",
    "noctalia",
    "noctalia-clipboard",
];

/// Whether a process name is that of a clipboard manager.
pub open spec fn manager_name(name: Seq<char>) -> bool {
    exists|i: int|
        0 <= i < WAYLAND_CLIPBOARD_PROCS@.len() && (#[trigger] WAYLAND_CLIPBOARD_PROCS@[i])@ == name
}

fn is_manager_name(name: &Vec<char>) -> (yes: bool)
    ensures
        yes == manager_name(name@),
{
    let procs = WAYLAND_CLIPBOARD_PROCS;
    let mut i: usize = 0;
    while i < 10
        invariant
            procs == WAYLAND_CLIPBOARD_PROCS,
            0 <= i <= 10,
            forall|j: int| 0 <= j < i ==> (#[trigger] WAYLAND_CLIPBOARD_PROCS@[j])@ != name@,
        decreases 10 - i,
    {
        if chars_eq(&chars_of(procs[i]), name) {
            assert(WAYLAND_CLIPBOARD_PROCS@[i as int]@ == name@);
            return true;
        }
        i = i + 1;
    }
    false
}

/// An entry of `/proc`: its name, and what could be read of its `comm` and
/// `cmdline` files.
#[derive(Debug)]
pub struct ProcEntry {
    pub name: String,
    pub comm: Option<String>,
    pub cmdline: Option<Vec<u8>>,
}

/// Whether every character is a decimal digit.
pub open spec fn all_digits(name: Seq<char>) -> bool {
    forall|i: int| 0 <= i < name.len() ==> '0' <= #[trigger] name[i] <= '9'
}

/// The bytes before the first zero byte.
pub open spec fn before_nul(raw: Seq<u8>) -> Seq<u8>
    decreases raw.len(),
{
    if raw.len() == 0 || raw[0] == 0 {
        seq![]
    } else {
        seq![raw[0]] + before_nul(raw.drop_first())
    }
}

/// The place of the last slash.
pub open spec fn last_slash(path: Seq<char>) -> Option<int>
    decreases path.len(),
{
    if path.len() == 0 {
        None
    } else if path.last() == '/' {
        Some(path.len() - 1)
    } else {
        last_slash(path.drop_last())
    }
}

/// What `last_slash` finds is a place in the path.
proof fn lemma_last_slash(path: Seq<char>)
    ensures
        last_slash(path) matches Some(k) ==> 0 <= k < path.len(),
    decreases path.len(),
{
    if path.len() > 0 && path.last() != '/' {
        lemma_last_slash(path.drop_last());
    }
}

/// The last component of a path, where it is a name: trailing slashes and `.`
/// components do not count, and `..` is no name.
pub open spec fn file_name(path: Seq<char>) -> Option<Seq<char>>
    decreases path.len(),
    via file_name_decreases
{
    let piece = match last_slash(path) {
        Some(k) => path.skip(k + 1),
        None => path,
    };
    if piece == Seq::<char>::empty() || piece == seq!['.'] {
        match last_slash(path) {
            Some(k) => file_name(path.take(k)),
            None => None,
        }
    } else if piece == seq!['.', '.'] {
        None
    } else {
        Some(piece)
    }
}

#[via_fn]
proof fn file_name_decreases(path: Seq<char>) {
    lemma_last_slash(path);
}

/// Whether a process is a clipboard manager, by its `comm` name or by the file
/// name of its first command-line argument.
pub open spec fn manages_clipboard(entry: ProcEntry) -> bool {
    ||| (entry.comm matches Some(comm) && manager_name(trim(comm@)))
    ||| (entry.cmdline matches Some(raw) && valid_utf8(before_nul(raw@)) && (file_name(
        decode_utf8(before_nul(raw@)),
    ) matches Some(base) && manager_name(base)))
}

/// Detect a running Wayland or Noctalia clipboard manager among the entries of
/// `/proc`.
///
/// The process name is compared against `WAYLAND_CLIPBOARD_PROCS` using both
/// the truncated `comm` (15 char) name and the first command-line argument.
pub fn wayland_clipboard_running(entries: &Vec<ProcEntry>) -> (running: bool)
    ensures
        running == exists|i: int|
            0 <= i < entries@.len() && all_digits((#[trigger] entries@[i]).name@)
                && manages_clipboard(entries@[i]),
{
    let mut i: usize = 0;
    while i < entries.len()
        invariant
            0 <= i <= entries@.len(),
            forall|j: int|
                0 <= j < i ==> !(all_digits((#[trigger] entries@[j]).name@) && manages_clipboard(
                    entries@[j],
                )),
        decreases entries@.len() - i,
    {
        let entry = &entries[i];
        if is_pid(entry.name.as_str()) && comm_matches(entry) {
            assert(all_digits(entries@[i as int].name@));
            return true;
        }
        i = i + 1;
    }
    false
}

/// Whether a name is made of decimal digits.
fn is_pid(name: &str) -> (yes: bool)
    ensures
        yes == all_digits(name@),
{
    let cs = chars_of(name);
    let mut i: usize = 0;
    while i < cs.len()
        invariant
            cs@ == name@,
            0 <= i <= cs@.len(),
            forall|j: int| 0 <= j < i ==> '0' <= #[trigger] name@[j] <= '9',
        decreases cs@.len() - i,
    {
        if cs[i] < '0' || cs[i] > '9' {
            assert(!('0' <= name@[i as int] <= '9'));
            return false;
        }
        i = i + 1;
    }
    true
}

/// Whether a process is a clipboard manager.
fn comm_matches(entry: &ProcEntry) -> (yes: bool)
    ensures
        yes == manages_clipboard(*entry),
{
    if let Some(comm) = &entry.comm {
        if is_manager_name(&chars_of(trimmed(comm.as_str()))) {
            return true;
        }
    }
    // Some managers have a distinct argv[0] even when `comm` is truncated.
    if let Some(raw) = &entry.cmdline {
        if let Some(arg) = string_from_utf8(first_arg(raw)) {
            let path = chars_of(arg.as_str());
            if let Some(base) = base_name(&path) {
                return is_manager_name(&base);
            }
        }
    }
    false
}

/// The bytes before the first zero byte.
fn first_arg(raw: &Vec<u8>) -> (arg: Vec<u8>)
    ensures
        arg@ == before_nul(raw@),
{
    let mut arg: Vec<u8> = Vec::new();
    let mut i: usize = 0;
    assert(raw@.skip(0) =~= raw@);
    assert(arg@ + before_nul(raw@) =~= before_nul(raw@));
    while i < raw.len()
        invariant
            0 <= i <= raw@.len(),
            arg@ + before_nul(raw@.skip(i as int)) == before_nul(raw@),
        decreases raw@.len() - i,
    {
        let ghost rest = raw@.skip(i as int);
        assert(rest[0] == raw@[i as int]);
        assert(rest.drop_first() =~= raw@.skip(i + 1));
        if raw[i] == 0 {
            assert(arg@ + Seq::<u8>::empty() =~= arg@);
            return arg;
        }
        let ghost before = arg@;
        arg.push(raw[i]);
        assert(arg@ + before_nul(raw@.skip(i + 1)) =~= before + before_nul(rest));
        i = i + 1;
    }
    assert(arg@ + Seq::<u8>::empty() =~= arg@);
    arg
}

/// What optional characters say.
pub open spec fn opt_chars_view(cs: Option<Vec<char>>) -> Option<Seq<char>> {
    match cs {
        Some(v) => Some(v@),
        None => None,
    }
}

/// The last component of a path, where it is a name.
fn base_name(path: &Vec<char>) -> (base: Option<Vec<char>>)
    ensures
        opt_chars_view(base) == file_name(path@),
{
    let mut end: usize = path.len();
    assert(path@.take(end as int) =~= path@);
    loop
        invariant
            end <= path@.len(),
            file_name(path@.take(end as int)) == file_name(path@),
        decreases end,
    {
        let ghost whole = path@.take(end as int);
        let mut start: usize = end;
        assert(whole.take(start as int) =~= whole);
        while start > 0 && path[start - 1] != '/'
            invariant
                start <= end <= path@.len(),
                whole == path@.take(end as int),
                last_slash(whole.take(start as int)) == last_slash(whole),
            decreases start,
        {
            assert(whole.take(start as int).last() == path@[start - 1]);
            assert(whole.take(start as int).drop_last() =~= whole.take(start - 1));
            start = start - 1;
        }
        proof {
            if start > 0 {
                assert(whole.take(start as int).last() == '/');
                assert(last_slash(whole) == Some(start - 1));
            } else {
                assert(last_slash(whole) is None);
            }
        }
        let piece = copy_chars(path, start, end);
        proof {
            if start > 0 {
                assert(whole.skip(start as int) =~= piece@);
            } else {
                assert(whole =~= piece@);
            }
        }
        let n: usize = piece.len();
        let skip = n == 0 || (n == 1 && piece[0] == '.');
        assert(skip == (piece@ == Seq::<char>::empty() || piece@ == seq!['.'])) by {
            if n == 0 {
                assert(piece@ =~= Seq::<char>::empty());
            }
            if n == 1 && piece@[0] == '.' {
                assert(piece@ =~= seq!['.']);
            }
        }
        if skip {
            if start == 0 {
                return None;
            }
            assert(whole.take(start - 1) =~= path@.take(start - 1));
            end = start - 1;
        } else if n == 2 && piece[0] == '.' && piece[1] == '.' {
            assert(piece@ =~= seq!['.', '.']);
            return None;
        } else {
            assert(piece@ != seq!['.', '.']);
            return Some(piece);
        }
    }
}

/// A stretch of characters.
fn copy_chars(cs: &Vec<char>, from: usize, to: usize) -> (copy: Vec<char>)
    requires
        from <= to <= cs@.len(),
    ensures
        copy@ == cs@.subrange(from as int, to as int),
{
    let mut copy: Vec<char> = Vec::new();
    let mut i: usize = from;
    while i < to
        invariant
            from <= i <= to <= cs@.len(),
            copy@ == cs@.subrange(from as int, i as int),
        decreases to - i,
    {
        copy.push(cs[i]);
        i = i + 1;
        assert(copy@ =~= cs@.subrange(from as int, i as int));
    }
    copy
}

/// What stands in quotes behind `string ` in a line, if anything does.
pub open spec fn quoted_string(line: Seq<char>) -> Option<Seq<char>> {
    match find(line, "string \""@) {
        Some(at) => {
            let rest = line.skip(at + "string \""@.len());
            match find(rest, seq!['"']) {
                Some(end) => Some(rest.take(end)),
                None => None,
            }
        },
        None => None,
    }
}

/// The first quoted string of some lines.
pub open spec fn first_quoted(all: Seq<Seq<char>>) -> Option<Seq<char>>
    decreases all.len(),
{
    if all.len() == 0 {
        None
    } else {
        match quoted_string(trim(all[0])) {
            Some(text) => Some(text),
            None => first_quoted(all.drop_first()),
        }
    }
}

/// What an optional text says.
pub open spec fn opt_text_view(text: Option<String>) -> Option<Seq<char>> {
    match text {
        Some(t) => Some(t@),
        None => None,
    }
}

/// Where the quoted string of the line `cs[from..to]` stands, if it has one.
fn find_quoted(cs: &Vec<char>, from: usize, to: usize) -> (range: Option<(usize, usize)>)
    requires
        from <= to <= cs@.len(),
    ensures
        match range {
            Some((a, b)) => a <= b <= cs@.len() && quoted_string(
                cs@.subrange(from as int, to as int),
            ) == Some(cs@.subrange(a as int, b as int)),
            None => quoted_string(cs@.subrange(from as int, to as int)) is None,
        },
{
    let pat = chars_of("string \"");
    let quote: Vec<char> = vec!['"'];
    assert(quote@ =~= seq!['"']);
    let ghost line = cs@.subrange(from as int, to as int);
    let at = match find_in(cs, from, to, &pat) {
        Some(at) => at,
        None => return None,
    };
    let start: usize = at + pat.len();
    let ghost rest = line.skip(at - from + pat@.len());
    assert(cs@.subrange(start as int, to as int) =~= rest);
    match find_in(cs, start, to, &quote) {
        Some(end) => {
            assert(cs@.subrange(start as int, end as int) =~= rest.take(end - start));
            Some((start, end))
        },
        None => None,
    }
}

/// Loosely extract `string "..."` from `dbus-send --print-reply` output.
pub fn parse_dbus_string(output: &str) -> (text: Option<String>)
    ensures
        opt_text_view(text) == first_quoted(lines(output@)),
{
    let cs = chars_of(output);
    let ranges = line_ranges(&cs);
    let ghost all = lines(output@);
    let mut i: usize = 0;
    assert(all.skip(0) =~= all);
    while i < ranges.len()
        invariant
            cs@ == output@,
            all == lines(cs@),
            ranges@.len() == all.len(),
            forall|k: int|
                #![trigger ranges@[k]]
                0 <= k < ranges@.len() ==> ranges@[k].0 <= ranges@[k].1 <= cs@.len()
                    && cs@.subrange(ranges@[k].0 as int, ranges@[k].1 as int) == all[k],
            0 <= i <= ranges@.len(),
            first_quoted(all.skip(i as int)) == first_quoted(all),
        decreases ranges@.len() - i,
    {
        assert(all.skip(i as int)[0] == all[i as int]);
        assert(all.skip(i as int).drop_first() =~= all.skip(i + 1));
        let (from, to) = ranges[i];
        let (a, b) = trim_range(&cs, from, to);
        if let Some((start, end)) = find_quoted(&cs, a, b) {
            return Some(String::from_str(output.substring_char(start, end)));
        }
        i = i + 1;
    }
    None
}

/// A reply of one line that quotes a text without quotes and line feeds gives
/// that text back.
pub proof fn law_quoted_reply(text: Seq<char>)
    requires
        !text.contains('"'),
        !text.contains('\n'),
    ensures
        first_quoted(lines("string \""@ + text + seq!['"'])) == Some(text),
{
    let pat = "string \""@;
    let line = pat + text + seq!['"'];
    reveal_strlit("string \"");
    assert(!line.contains('\n')) by {
        if line.contains('\n') {
            let i = choose|i: int| 0 <= i < line.len() && line[i] == '\n';
            if pat.len() <= i < pat.len() + text.len() {
                assert(text[i - pat.len()] == '\n');
            }
        }
    }
    lemma_find_absent(line, '\n');
    assert(lines(line) =~= seq![line]);
    assert(trim(line) == line) by {
        assert(line[0] == 's');
        assert(line.last() == '"');
    }
    assert(line.subrange(0, pat.len() as int) =~= pat);
    assert(pat.is_prefix_of(line));
    let rest = line.skip(pat.len() as int);
    assert(rest =~= text + seq!['"']);
    lemma_find_first(text, '"');
    assert(rest.take(text.len() as int) =~= text);
}

/// Which backend comes first. A kind that is configured explicitly is its own
/// source, whether or not a Wayland clipboard runs, but for a DBus integration
/// next to a running Wayland clipboard, which gives way to wl-clipboard where its
/// tools exist and to the in-memory backend otherwise, and for the history sink,
/// which has the in-memory backend as its source. Automatic selection takes
/// wl-clipboard where both of its tools exist, else klipper where it can be
/// reached and no Wayland clipboard runs, else the in-memory backend.
pub proof fn law_first_backend(kind: BackendKind, tools: Tools, wayland_active: bool)
    ensures
        ({
            let out = selected_backends(kind, tools, wayland_active);
            let wl = tools.wl_paste && tools.wl_copy;
            &&& out.len() > 0
            &&& kind == BackendKind::WlClipboard ==> out[0] == Backend::WlClipboard
            &&& kind == BackendKind::Dummy ==> out[0] == Backend::Dummy
            &&& kind == BackendKind::ClipHist ==> out[0] == Backend::Dummy
            &&& kind == BackendKind::Klipper && !wayland_active ==> out[0] == Backend::Klipper
            &&& kind == BackendKind::Dbus && !wayland_active ==> out[0] == Backend::Dbus
            &&& (kind == BackendKind::Klipper || kind == BackendKind::Dbus) && wayland_active && wl
                ==> out[0] == Backend::WlClipboard
            &&& (kind == BackendKind::Klipper || kind == BackendKind::Dbus) && wayland_active && !wl
                ==> out[0] == Backend::Dummy
            &&& kind == BackendKind::Auto && wl ==> out[0] == Backend::WlClipboard
            &&& kind == BackendKind::Auto && !wl && tools.dbus_send && !wayland_active ==> out[0]
                == Backend::Klipper
            &&& kind == BackendKind::Auto && !wl && (!tools.dbus_send || wayland_active) ==> out[0]
                == Backend::Dummy
        }),
{
    let kinds = candidate_kinds();
    let rest = kinds.drop_first();
    let last = rest.drop_first().drop_first();
    assert(kinds[0] == BackendKind::WlClipboard);
    assert(rest[0] == BackendKind::Klipper);
    assert(rest.drop_first()[0] == BackendKind::Dbus);
    assert(last[0] == BackendKind::Dummy);
    reveal_with_fuel(first_usable, 5);
}

/// A history sink is attached behind the first backend exactly if its tool exists
/// or it was asked for, and nothing else ever is.
pub proof fn law_history_sink(kind: BackendKind, tools: Tools, wayland_active: bool)
    ensures
        ({
            let out = selected_backends(kind, tools, wayland_active);
            &&& out.len() == 2 <==> tools.cliphist || kind == BackendKind::ClipHist
            &&& out.len() == 1 <==> !tools.cliphist && kind != BackendKind::ClipHist
            &&& out.len() == 2 ==> out[1] == Backend::ClipHist
        }),
{
    lemma_first_usable(candidate_kinds(), tools, wayland_active);
}

/// Which tools each kind needs. Automatic selection needs none, as the in-memory
/// backend does.
pub proof fn law_needed_tools(tools: Tools)
    ensures
        kind_available(BackendKind::WlClipboard, tools) <==> tools.wl_paste && tools.wl_copy,
        kind_available(BackendKind::ClipHist, tools) <==> tools.cliphist,
        kind_available(BackendKind::Klipper, tools) <==> tools.dbus_send,
        kind_available(BackendKind::Dbus, tools) <==> tools.dbus_send,
        kind_available(BackendKind::Dummy, tools),
        kind_available(BackendKind::Auto, tools),
{
    law_dummy_is_always_available(tools);
}

/// Backends and kinds are known by one name each, and a backend by that of its
/// kind.
pub proof fn law_names()
    ensures
        Backend::Dummy.spec_name() == "dummy"@,
        Backend::WlClipboard.spec_name() == "wl-clipboard"@,
        Backend::ClipHist.spec_name() == "cliphist"@,
        Backend::Klipper.spec_name() == "klipper"@,
        Backend::Dbus.spec_name() == "dbus"@,
        kind_name(BackendKind::Auto) == "auto"@,
        kind_name(BackendKind::Dummy) == Backend::Dummy.spec_name(),
        kind_name(BackendKind::WlClipboard) == Backend::WlClipboard.spec_name(),
        kind_name(BackendKind::ClipHist) == Backend::ClipHist.spec_name(),
        kind_name(BackendKind::Klipper) == Backend::Klipper.spec_name(),
        kind_name(BackendKind::Dbus) == Backend::Dbus.spec_name(),
        forall|kind: BackendKind|
            dbus_kind(kind) <==> kind_name(kind) == "klipper"@ || kind_name(kind) == "dbus"@,
{
    reveal_strlit("dummy");
    reveal_strlit("wl-clipboard");
    reveal_strlit("cliphist");
    reveal_strlit("klipper");
    reveal_strlit("dbus");
    reveal_strlit("auto");
    assert forall|kind: BackendKind|
        dbus_kind(kind) <==> kind_name(kind) == "klipper"@ || kind_name(kind) == "dbus"@ by {
        assert("dbus"@[0] == 'd' && "dbus"@[1] == 'b' && "klipper"@[0] == 'k');
        assert("dummy"@[1] == 'u' && "wl-clipboard"@[0] == 'w' && "cliphist"@[0] == 'c' && "auto"@[0]
            == 'a');
    }
}

/// Which process names are those of a clipboard manager.
pub proof fn law_manager_names(name: Seq<char>)
    ensures
        manager_name(name) <==> name == "wl-paste"@ || name == "wl-copy"@ || name
            == "wl-clipboard-manager"@ || name == "clipboard-manager"@ || name == "clipman"@ || name
            == "cliphist"@ || name == "cliphist-watch"@ || name == "copyq"@ || name == "noctalia"@
            || name == "noctalia-clipboard"@,
{
    let procs = WAYLAND_CLIPBOARD_PROCS@;
    assert(procs[0]@ == "wl-paste"@ && procs[1]@ == "wl-copy"@ && procs[2]@
        == "wl-clipboard-manager"@ && procs[3]@ == "clipboard-manager"@ && procs[4]@ == "clipman"@
        && procs[5]@ == "cliphist"@ && procs[6]@ == "cliphist-watch"@ && procs[7]@ == "copyq"@
        && procs[8]@ == "noctalia"@ && procs[9]@ == "noctalia-clipboard"@);
}

/// The first argument of a command line is what stands before its first zero
/// byte, or all of it where there is none.
pub proof fn law_first_argument(arg: Seq<u8>, rest: Seq<u8>)
    requires
        !arg.contains(0u8),
    ensures
        before_nul(arg) == arg,
        before_nul(arg + seq![0u8] + rest) == arg,
    decreases arg.len(),
{
    let raw = arg + seq![0u8] + rest;
    if arg.len() > 0 {
        let tail = arg.drop_first();
        assert(arg.contains(arg[0]));
        assert forall|i: int| 0 <= i < tail.len() implies tail[i] != 0u8 by {
            assert(arg[i + 1] == tail[i]);
        }
        law_first_argument(tail, rest);
        assert(raw.drop_first() =~= tail + seq![0u8] + rest);
        assert(seq![arg[0]] + tail =~= arg);
    } else {
        assert(raw[0] == 0u8);
        assert(before_nul(raw) =~= arg);
    }
}

/// The file name of a path is the name behind its last slash, whatever stands
/// before; a slash or a dot behind it makes no difference, and two dots are no
/// name.
pub proof fn law_file_name(dir: Seq<char>, name: Seq<char>)
    requires
        !name.contains('/'),
        name.len() > 0,
        name != seq!['.'],
    ensures
        name != seq!['.', '.'] ==> file_name(name) == Some(name) && file_name(
            dir + seq!['/'] + name,
        ) == Some(name),
        name == seq!['.', '.'] ==> file_name(name) is None && file_name(
            dir + seq!['/'] + name,
        ) is None,
        file_name(dir + seq!['/']) == file_name(dir),
        file_name(dir + seq!['/', '.']) == file_name(dir),
        file_name(Seq::<char>::empty()) is None,
{
    let full = dir + seq!['/'] + name;
    lemma_slash_before(dir, name);
    lemma_slash_before(dir, Seq::<char>::empty());
    lemma_slash_before(dir, seq!['.']);
    lemma_no_slash(name);
    assert(full.skip(dir.len() as int + 1) =~= name);
    let ended = dir + seq!['/'];
    assert(dir + seq!['/'] + Seq::<char>::empty() =~= ended);
    assert(ended.skip(dir.len() as int + 1) =~= Seq::<char>::empty());
    assert(ended.take(dir.len() as int) =~= dir);
    let dotted = dir + seq!['/', '.'];
    assert(dir + seq!['/'] + seq!['.'] =~= dotted);
    assert(dotted.skip(dir.len() as int + 1) =~= seq!['.']);
    assert(dotted.take(dir.len() as int) =~= dir);
}

/// A name without a slash has no last one.
proof fn lemma_no_slash(name: Seq<char>)
    requires
        !name.contains('/'),
    ensures
        last_slash(name) is None,
    decreases name.len(),
{
    if name.len() > 0 {
        let init = name.drop_last();
        assert(name.contains(name[name.len() - 1]));
        assert forall|i: int| 0 <= i < init.len() implies init[i] != '/' by {
            assert(name[i] == init[i]);
        }
        lemma_no_slash(init);
    }
}

/// The last slash of a path is the one before a name without any.
proof fn lemma_slash_before(dir: Seq<char>, name: Seq<char>)
    requires
        !name.contains('/'),
    ensures
        last_slash(dir + seq!['/'] + name) == Some(dir.len() as int),
    decreases name.len(),
{
    let full = dir + seq!['/'] + name;
    if name.len() > 0 {
        let init = name.drop_last();
        assert(name.contains(name[name.len() - 1]));
        assert(full.last() == name.last());
        assert forall|i: int| 0 <= i < init.len() implies init[i] != '/' by {
            assert(name[i] == init[i]);
        }
        assert(full.drop_last() =~= dir + seq!['/'] + init);
        lemma_slash_before(dir, init);
    } else {
        assert(full.last() == '/');
    }
}

/// A process is known as a clipboard manager by its name, whatever whitespace
/// stands around it, or by the file name of the program that it runs, wherever
/// that lies and whatever its arguments are; any other process is none.
pub proof fn law_managers_are_recognized(
    entry: ProcEntry,
    comm: Seq<char>,
    path: Seq<char>,
    args: Seq<u8>,
)
    requires
        entry.comm matches Some(c) && trim(c@) == comm,
        entry.cmdline matches Some(raw) && raw@ == encode_utf8(path) + seq![0u8] + args,
        !encode_utf8(path).contains(0u8),
    ensures
        manages_clipboard(entry) <==> manager_name(comm) || (file_name(path) matches Some(base)
            && manager_name(base)),
{
    law_first_argument(encode_utf8(path), args);
    encode_utf8_valid_utf8(path);
    encode_utf8_decode_utf8(path);
}

/// Where the quoted text of a line stands: behind the first `string "`, up to
/// the next quote, whatever stands before and behind.
pub proof fn law_quoted_text_is_found(before: Seq<char>, text: Seq<char>, behind: Seq<char>)
    requires
        !text.contains('"'),
        forall|j: int|
            0 <= j < before.len() ==> !"string \""@.is_prefix_of(
                #[trigger] (before + "string \""@ + text + seq!['"'] + behind).skip(j),
            ),
    ensures
        quoted_string(before + "string \""@ + text + seq!['"'] + behind) == Some(text),
{
    let pat = "string \""@;
    let line = before + pat + text + seq!['"'] + behind;
    let n = before.len() as int;
    assert(line.skip(n).subrange(0, pat.len() as int) =~= pat);
    lemma_find_at(line, pat, n);
    let rest = line.skip(n + pat.len());
    assert(rest =~= text + seq!['"'] + behind);
    assert(rest.skip(text.len() as int).subrange(0, 1) =~= seq!['"']);
    assert forall|j: int| 0 <= j < text.len() implies !seq!['"'].is_prefix_of(
        #[trigger] rest.skip(j),
    ) by {
        assert(rest.skip(j).subrange(0, 1)[0] == text[j]);
    }
    lemma_find_at(rest, seq!['"'], text.len() as int);
    assert(rest.take(text.len() as int) =~= text);
}

/// A line without `string "`, or without a quote behind it, quotes nothing.
pub proof fn law_unquoted_line(line: Seq<char>)
    ensures
        quoted_string(line) is Some ==> exists|j: int|
            0 <= j <= line.len() && "string \""@.is_prefix_of(#[trigger] line.skip(j)),
        quoted_string(line) matches Some(text) ==> !text.contains('"'),
{
    let pat = "string \""@;
    if let Some(at) = find(line, pat) {
        lemma_find_bounds(line, pat);
        assert(line.skip(at).subrange(0, pat.len() as int) =~= line.subrange(at, at + pat.len()));
        assert(pat.is_prefix_of(line.skip(at)));
        let rest = line.skip(at + pat.len());
        lemma_find_is_first(rest, '"');
    }
}

/// The first line that quotes something counts, and the whitespace around a line
/// does not.
pub proof fn law_first_quoting_line_counts(head: Seq<Seq<char>>, line: Seq<char>, tail: Seq<Seq<char>>)
    requires
        forall|i: int| 0 <= i < head.len() ==> quoted_string(trim(#[trigger] head[i])) is None,
    ensures
        quoted_string(trim(line)) is Some ==> first_quoted(head.push(line) + tail) == quoted_string(
            trim(line),
        ),
        first_quoted(head) is None,
    decreases head.len(),
{
    let all = head.push(line) + tail;
    if head.len() > 0 {
        let rest = head.drop_first();
        assert forall|i: int| 0 <= i < rest.len() implies quoted_string(
            trim(#[trigger] rest[i]),
        ) is None by {
            assert(head[i + 1] == rest[i]);
        }
        law_first_quoting_line_counts(rest, line, tail);
        assert(all.drop_first() =~= rest.push(line) + tail);
        assert(all[0] == head[0]);
    } else {
        assert(all[0] == line);
    }
}

/// A backend error says what went wrong and passes its reason on.
pub proof fn law_backend_errors_say_their_reason(name: Seq<char>, reason: Seq<char>)
    ensures
        backend_error_text(BackendErrorView::Unavailable(name, reason)) == "backend `"@ + name
            + "` is not available on this system: "@ + reason,
        backend_error_text(BackendErrorView::Io(reason)) == "io error: "@ + reason,
        backend_error_text(BackendErrorView::Utf8(reason)) == "invalid UTF-8: "@ + reason,
        backend_error_text(BackendErrorView::Other(reason)) == "operation failed: "@ + reason,
{
}

/// What each primary kind opens: automatic selection is no backend of its own, a
/// history sink comes behind the in-memory backend, a DBus integration gives way
/// to a running Wayland clipboard, and every other kind is itself.
pub proof fn law_primary_backends(tools: Tools, wayland_active: bool)
    ensures
        primary_backends(BackendKind::Auto, tools, wayland_active) == Seq::<Backend>::empty(),
        primary_backends(BackendKind::Dummy, tools, wayland_active) == seq![Backend::Dummy],
        primary_backends(BackendKind::WlClipboard, tools, wayland_active) == seq![
            Backend::WlClipboard,
        ],
        primary_backends(BackendKind::ClipHist, tools, wayland_active) == seq![
            Backend::Dummy,
            Backend::ClipHist,
        ],
        !wayland_active ==> primary_backends(BackendKind::Klipper, tools, wayland_active) == seq![
            Backend::Klipper,
        ],
        !wayland_active ==> primary_backends(BackendKind::Dbus, tools, wayland_active) == seq![
            Backend::Dbus,
        ],
        wayland_active ==> primary_backends(BackendKind::Klipper, tools, wayland_active)
            == primary_backends(BackendKind::Dbus, tools, wayland_active),
        wayland_active && tools.wl_paste && tools.wl_copy ==> primary_backends(
            BackendKind::Dbus,
            tools,
            wayland_active,
        ) == seq![Backend::WlClipboard],
        wayland_active && !(tools.wl_paste && tools.wl_copy) ==> primary_backends(
            BackendKind::Dbus,
            tools,
            wayland_active,
        ) == seq![Backend::Dummy],
{
}

/// The candidates of automatic selection are every kind that can be a source,
/// once each: wl-clipboard before the DBus integrations, and the in-memory
/// backend last.
pub proof fn law_candidates(kind: BackendKind)
    ensures
        candidate_kinds().len() == 4,
        candidate_kinds()[0] == BackendKind::WlClipboard,
        candidate_kinds()[1] == BackendKind::Klipper,
        candidate_kinds()[2] == BackendKind::Dbus,
        candidate_kinds()[3] == BackendKind::Dummy,
        candidate_kinds().contains(kind) <==> kind != BackendKind::Auto && kind
            != BackendKind::ClipHist,
{
    let kinds = candidate_kinds();
    assert(kinds.contains(kinds[0]) && kinds.contains(kinds[1]) && kinds.contains(kinds[2])
        && kinds.contains(kinds[3]));
}

/// What is known of a process in part is enough: one without a readable name is
/// known by its program, one without a readable command line by its name, and
/// one with neither is no clipboard manager. A program whose path is not UTF-8
/// is not known by it.
pub proof fn law_managers_are_recognized_in_part(
    entry: ProcEntry,
    path: Seq<char>,
    args: Seq<u8>,
    comm: Seq<char>,
)
    ensures
        entry.comm is None && (entry.cmdline matches Some(raw) && raw@ == encode_utf8(path)
            + seq![0u8] + args) && !encode_utf8(path).contains(0u8) ==> (manages_clipboard(entry)
            <==> (file_name(path) matches Some(base) && manager_name(base))),
        (entry.comm matches Some(c) && trim(c@) == comm) && entry.cmdline is None ==> (
        manages_clipboard(entry) <==> manager_name(comm)),
        entry.comm is None && entry.cmdline is None ==> !manages_clipboard(entry),
        entry.comm is None && (entry.cmdline matches Some(raw) && !raw@.contains(0u8)
            && !valid_utf8(raw@)) ==> !manages_clipboard(entry),
{
    if !encode_utf8(path).contains(0u8) {
        law_first_argument(encode_utf8(path), args);
        encode_utf8_valid_utf8(path);
        encode_utf8_decode_utf8(path);
    }
    if let Some(raw) = entry.cmdline {
        if !raw@.contains(0u8) {
            law_first_argument(raw@, args);
        }
    }
}

/// Which entries are processes: those whose name is made of decimal digits.
pub proof fn law_process_names(name: Seq<char>, c: char)
    ensures
        all_digits(name.push(c)) <==> all_digits(name) && 48 <= c as int <= 57,
        all_digits(Seq::<char>::empty()),
{
    let more = name.push(c);
    if all_digits(more) {
        assert forall|i: int| 0 <= i < name.len() implies '0' <= #[trigger] name[i] <= '9' by {
            assert(more[i] == name[i]);
        }
        assert(more[name.len() as int] == c);
    }
}

} // verus!
