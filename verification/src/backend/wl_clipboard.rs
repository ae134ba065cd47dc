//! wl-clipboard backend (source + sink).
//!
//! Decides about the standard `wl-paste` / `wl-copy` utilities. This also
//! covers desktop environments that delegate their clipboard to
//! wl-clipboard (e.g. Noctalia v5).
//!
//! A selection can offer many MIME types at once (a browser image offers
//! `image/png` alongside `text/html` and `text/plain`, for example). The
//! backend reads every transferable type the selection advertises, in the
//! order `wl-paste --list-types` reports them, and stores them as ordered
//! representations. On write it advertises the *primary* (first)
//! representation, because `wl-copy` can only set one MIME type per
//! selection.

use vstd::prelude::*;
use vstd::string::{StrSliceExecFns, StringExecFns};
use vstd::utf8::{decode_utf8, encode_utf8, valid_utf8};

use crate::backend::{joined, BackendError, BackendErrorView, Tools};
use crate::clipboard::opt_item_view;
use crate::item::{
    content_digest, is_x11_text_target, law_kinds_of_mime, rep_len, reps_len, reps_view, x11_text_target,
    ClipboardItem, ItemView, RepView, DEFAULT_MAX_ITEM_SIZE, X11_TEXT_TARGETS,
};
use crate::protocol::{encoded, ErrorView};
use crate::registry::lemma_filter_members;
use crate::text::{
    chars_eq, chars_of, contains_char, law_lines, law_lines_of_both_parts, lemma_find_absent, lemma_find_first, line_ranges, lines,
    lossy_utf8, lower, lower_chars, lowercase, string_from_utf8_lossy, texts_view, trim,
    trim_range,
};

verus! {

/// Per-tool timeout in milliseconds. A misbehaving selection target must not
/// hang the clipboard driver.
pub const READ_TIMEOUT_MS: u64 = 3000;

/// Upper bound on representations read from a single selection. Guards
/// against pathological selections that advertise hundreds of targets.
pub const MAX_REPS: usize = 64;

/// How many `wl-paste --type` reads run concurrently. Keeps the per-change
/// process fan-out from serializing (a browser image can advertise dozens of
/// targets) while bounding how many large buffers are in flight.
pub const READ_CONCURRENCY: usize = 4;

/// Whether a selection target is a transferable data type: a MIME type or a
/// legacy X11 text target.
pub open spec fn transferable(t: Seq<char>) -> bool {
    t.contains('/') || x11_text_target(t)
}

/// Whether a selection target is a transferable data type.
///
/// MIME types (they contain `/`) and the legacy X11 text targets are data.
/// Everything else (`TARGETS`, `MULTIPLE`, `TIMESTAMP`, `SAVE_TARGETS`,
/// `OWNER_OS`, ...) is a clipboard protocol target: reading it would yield a
/// control payload, and some of them block instead of returning data.
pub fn is_transferable_type(t: &str) -> (yes: bool)
    ensures
        yes == transferable(t@),
{
    contains_char(t, '/') || is_x11_text_target(t)
}

/// Whether some of the targets is the same transferable type as `t`, whatever
/// its case.
pub open spec fn offered_before(targets: Seq<Seq<char>>, t: Seq<char>) -> bool {
    exists|j: int|
        0 <= j < targets.len() && transferable(#[trigger] targets[j]) && lowercase(targets[j])
            == lowercase(t)
}

/// The transferable types among the targets, each where it first occurs.
pub open spec fn distinct_types(targets: Seq<Seq<char>>) -> Seq<Seq<char>>
    decreases targets.len(),
{
    if targets.len() == 0 {
        seq![]
    } else {
        let init = targets.drop_last();
        let last = targets.last();
        if transferable(last) && !offered_before(init, last) {
            distinct_types(init).push(last)
        } else {
            distinct_types(init)
        }
    }
}

/// The targets that a listing names, one per line.
pub open spec fn listed_targets(raw: Seq<char>) -> Seq<Seq<char>> {
    lines(raw).map_values(|line: Seq<char>| trim(line))
}

/// The types to read: the MIME types, in the order in which they are offered,
/// or where there is none the legacy X11 text targets.
pub open spec fn preferred(types: Seq<Seq<char>>) -> Seq<Seq<char>> {
    let mimes = types.filter(|t: Seq<char>| t.contains('/'));
    if mimes.len() == 0 {
        types.filter(|t: Seq<char>| !t.contains('/'))
    } else {
        mimes
    }
}

/// The types to read of a selection with the given listing.
pub open spec fn selected_types(raw: Seq<char>) -> Seq<Seq<char>> {
    preferred(distinct_types(listed_targets(raw)))
}

/// Whether some text of a list has the given characters.
spec fn some_is(list: Seq<Vec<char>>, cs: Seq<char>) -> bool {
    exists|k: int| 0 <= k < list.len() && (#[trigger] list[k])@ == cs
}

fn contains_chars(list: &Vec<Vec<char>>, cs: &Vec<char>) -> (yes: bool)
    ensures
        yes == some_is(list@, cs@),
{
    let mut k: usize = 0;
    while k < list.len()
        invariant
            0 <= k <= list@.len(),
            forall|j: int| 0 <= j < k ==> (#[trigger] list@[j])@ != cs@,
        decreases list@.len() - k,
    {
        if chars_eq(&list[k], cs) {
            assert(list@[k as int]@ == cs@);
            return true;
        }
        k = k + 1;
    }
    false
}

/// Parse `wl-paste --list-types` output into an ordered, de-duplicated list of
/// transferable types.
///
/// MIME types win over the legacy X11 text aliases: the aliases are dropped
/// when at least one MIME type is offered (they duplicate the same content),
/// and used only as a fallback for selections that expose no MIME type.
pub fn select_types(raw: &str) -> (types: Vec<String>)
    ensures
        texts_view(types@) == selected_types(raw@),
{
    let cs = chars_of(raw);
    let ranges = line_ranges(&cs);
    let ghost targets = listed_targets(raw@);
    let mut mimes: Vec<String> = Vec::new();
    let mut x11: Vec<String> = Vec::new();
    let mut seen: Vec<Vec<char>> = Vec::new();
    let mut i: usize = 0;
    let ghost is_mime = |t: Seq<char>| t.contains('/');
    let ghost is_x11 = |t: Seq<char>| !t.contains('/');
    proof {
        reveal(Seq::filter);
        assert(texts_view(mimes@) =~= distinct_types(targets.take(0)).filter(is_mime));
        assert(texts_view(x11@) =~= distinct_types(targets.take(0)).filter(is_x11));
    }
    while i < ranges.len()
        invariant
            cs@ == raw@,
            targets == listed_targets(raw@),
            ranges@.len() == targets.len(),
            forall|k: int|
                #![trigger ranges@[k]]
                0 <= k < ranges@.len() ==> ranges@[k].0 <= ranges@[k].1 <= cs@.len()
                    && cs@.subrange(ranges@[k].0 as int, ranges@[k].1 as int) == lines(raw@)[k],
            0 <= i <= ranges@.len(),
            is_mime == (|t: Seq<char>| t.contains('/')),
            is_x11 == (|t: Seq<char>| !t.contains('/')),
            texts_view(mimes@) == distinct_types(targets.take(i as int)).filter(is_mime),
            texts_view(x11@) == distinct_types(targets.take(i as int)).filter(is_x11),
            forall|l: Seq<char>| #[trigger]
                some_is(seen@, l) <==> exists|j: int|
                    0 <= j < i && transferable(#[trigger] targets[j]) && lowercase(targets[j]) == l,
        decreases ranges@.len() - i,
    {
        let (from, to) = ranges[i];
        let (a, b) = trim_range(&cs, from, to);
        let t = raw.substring_char(a, b);
        let ghost init = targets.take(i as int);
        assert(t@ == targets[i as int]);
        assert(targets.take(i + 1).drop_last() =~= init);
        assert(targets.take(i + 1).last() == t@);
        let folded = lower_chars(&chars_of(t));
        assert(some_is(seen@, folded@) == offered_before(init, t@)) by {
            if offered_before(init, t@) {
                let j = choose|j: int|
                    0 <= j < init.len() && transferable(#[trigger] init[j]) && lowercase(init[j])
                        == lowercase(t@);
                assert(init[j] == targets[j]);
            }
            if some_is(seen@, folded@) {
                let j = choose|j: int|
                    0 <= j < i && transferable(#[trigger] targets[j]) && lowercase(targets[j])
                        == folded@;
                assert(init[j] == targets[j]);
            }
        }
        if is_transferable_type(t) {
            let new = !contains_chars(&seen, &folded);
            let ghost before = seen@;
            seen.push(folded);
            proof {
                lemma_seen(before, folded, targets, i as int);
            }
            if new {
                proof {
                    reveal(Seq::filter);
                    assert(distinct_types(targets.take(i + 1)).drop_last() =~= distinct_types(
                        init,
                    ));
                }
                if contains_char(t, '/') {
                    let ghost sofar = texts_view(mimes@);
                    mimes.push(String::from_str(t));
                    assert(texts_view(mimes@) =~= sofar.push(t@));
                } else {
                    let ghost sofar = texts_view(x11@);
                    x11.push(String::from_str(t));
                    assert(texts_view(x11@) =~= sofar.push(t@));
                }
            }
        } else {
            proof {
                lemma_not_seen(seen@, targets, i as int);
            }
        }
        i = i + 1;
    }
    assert(targets.take(i as int) =~= targets);
    if mimes.len() == 0 {
        assert(texts_view(mimes@).len() == 0);
        x11
    } else {
        mimes
    }
}

/// The folded types that were seen, with one more.
proof fn lemma_seen(before: Seq<Vec<char>>, folded: Vec<char>, targets: Seq<Seq<char>>, i: int)
    requires
        0 <= i < targets.len(),
        transferable(targets[i]),
        folded@ == lowercase(targets[i]),
        forall|l: Seq<char>| #[trigger]
            some_is(before, l) <==> exists|j: int|
                0 <= j < i && transferable(#[trigger] targets[j]) && lowercase(targets[j]) == l,
    ensures
        forall|l: Seq<char>| #[trigger]
            some_is(before.push(folded), l) <==> exists|j: int|
                0 <= j < i + 1 && transferable(#[trigger] targets[j]) && lowercase(targets[j]) == l,
{
    let after = before.push(folded);
    assert forall|l: Seq<char>| #[trigger]
        some_is(after, l) <==> exists|j: int|
            0 <= j < i + 1 && transferable(#[trigger] targets[j]) && lowercase(targets[j]) == l by {
        if some_is(after, l) {
            let k = choose|k: int| 0 <= k < after.len() && (#[trigger] after[k])@ == l;
            if k < before.len() {
                assert(before[k]@ == l);
                assert(some_is(before, l));
            } else {
                assert(transferable(targets[i]));
            }
        }
        if exists|j: int|
            0 <= j < i + 1 && transferable(#[trigger] targets[j]) && lowercase(targets[j]) == l {
            let j = choose|j: int|
                0 <= j < i + 1 && transferable(#[trigger] targets[j]) && lowercase(targets[j])
                    == l;
            if j < i {
                assert(some_is(before, l));
                let k = choose|k: int| 0 <= k < before.len() && (#[trigger] before[k])@ == l;
                assert(after[k]@ == l);
            } else {
                assert(after[before.len() as int]@ == l);
            }
        }
    }
}

/// A target that is not transferable adds nothing to what was seen.
proof fn lemma_not_seen(seen: Seq<Vec<char>>, targets: Seq<Seq<char>>, i: int)
    requires
        0 <= i < targets.len(),
        !transferable(targets[i]),
        forall|l: Seq<char>| #[trigger]
            some_is(seen, l) <==> exists|j: int|
                0 <= j < i && transferable(#[trigger] targets[j]) && lowercase(targets[j]) == l,
    ensures
        forall|l: Seq<char>| #[trigger]
            some_is(seen, l) <==> exists|j: int|
                0 <= j < i + 1 && transferable(#[trigger] targets[j]) && lowercase(targets[j]) == l,
{
    assert forall|l: Seq<char>| #[trigger]
        some_is(seen, l) <==> exists|j: int|
            0 <= j < i + 1 && transferable(#[trigger] targets[j]) && lowercase(targets[j]) == l by {
        if exists|j: int|
            0 <= j < i + 1 && transferable(#[trigger] targets[j]) && lowercase(targets[j]) == l {
            let j = choose|j: int|
                0 <= j < i + 1 && transferable(#[trigger] targets[j]) && lowercase(targets[j])
                    == l;
            assert(j < i);
        }
    }
}

pub struct WlClipboardBackend {
    /// Maximum total item size read from the selection.
    max_item_size: usize,
}

impl View for WlClipboardBackend {
    type V = usize;

    /// Maximum total item size read from the selection.
    closed spec fn view(&self) -> usize {
        self.max_item_size
    }
}

impl Default for WlClipboardBackend {
    fn default() -> (backend: Self)
        ensures
            backend@ == DEFAULT_MAX_ITEM_SIZE,
    {
        Self::new(DEFAULT_MAX_ITEM_SIZE)
    }
}

impl WlClipboardBackend {
    pub fn new(max_item_size: usize) -> (backend: Self)
        ensures
            backend@ == max_item_size,
    {
        Self { max_item_size }
    }

    /// Whether both tools exist.
    pub fn available(tools: &Tools) -> (yes: bool)
        ensures
            yes == (tools.wl_paste && tools.wl_copy),
    {
        tools.wl_paste && tools.wl_copy
    }

    /// Human-readable backend name (for logs and config display).
    pub fn name(&self) -> (name: &'static str)
        ensures
            name@ == "wl-clipboard"@,
    {
        "wl-clipboard"
    }

    /// Maximum total item size read from the selection.
    pub fn max_item_size(&self) -> (max: usize)
        ensures
            max == self@,
    {
        self.max_item_size
    }
}

/// What optional texts say.
pub open spec fn opt_texts_view(texts: Option<Vec<String>>) -> Option<Seq<Seq<char>>> {
    match texts {
        Some(t) => Some(texts_view(t@)),
        None => None,
    }
}

/// What optional bytes say.
pub open spec fn opt_bytes_view(data: Option<Vec<u8>>) -> Option<Seq<u8>> {
    match data {
        Some(d) => Some(d@),
        None => None,
    }
}

/// The types to read of a selection, where listing them succeeded and there are
/// any.
pub open spec fn types_to_read(success: bool, listing: Seq<char>) -> Option<Seq<Seq<char>>> {
    if success && selected_types(listing).len() > 0 {
        Some(selected_types(listing))
    } else {
        None
    }
}

/// What is kept of one target's bytes: all of them, where they could be read,
/// are within the budget, and the tool that wrote them succeeded.
pub open spec fn kept_bytes(
    read: bool,
    data: Seq<u8>,
    max_bytes: nat,
    exited: bool,
) -> Option<Seq<u8>> {
    if read && data.len() <= max_bytes && exited {
        Some(data)
    } else {
        None
    }
}

/// How far reading a selection has come.
#[verifier::ext_equal]
pub struct CollectView {
    /// The representations read so far.
    pub reps: Seq<RepView>,
    /// Whether more are wanted.
    pub open: bool,
}

/// Reading starts with nothing.
pub open spec fn nothing_collected() -> CollectView {
    CollectView { reps: seq![], open: true }
}

/// What the next read adds: nothing where it failed or read no bytes; reading
/// ends at the largest number of representations, and at the first one that
/// would exceed the size cap.
pub open spec fn collected_one(
    s: CollectView,
    max: nat,
    mime: Seq<char>,
    data: Option<Seq<u8>>,
) -> CollectView {
    if !s.open {
        s
    } else if s.reps.len() >= MAX_REPS {
        CollectView { open: false, ..s }
    } else {
        match data {
            Some(d) => if d.len() == 0 {
                s
            } else if reps_len(s.reps) + rep_len((mime, d)) > max {
                CollectView { open: false, ..s }
            } else {
                CollectView { reps: s.reps.push((mime, d)), ..s }
            },
            None => s,
        }
    }
}

/// What reads add, one after the other.
pub open spec fn collected_all(
    s: CollectView,
    max: nat,
    reads: Seq<(Seq<char>, Option<Seq<u8>>)>,
) -> CollectView
    decreases reads.len(),
{
    if reads.len() == 0 {
        s
    } else {
        let before = collected_all(s, max, reads.drop_last());
        collected_one(before, max, reads.last().0, reads.last().1)
    }
}

/// The item that was read, if any representation was.
pub open spec fn collected_item(s: CollectView) -> Option<ItemView> {
    if s.reps.len() == 0 {
        None
    } else {
        Some(ItemView { origin: seq![0u8, 0, 0, 0, 0, 0, 0, 0], serial: 0, reps: s.reps })
    }
}

/// Gathers the representations of a selection as they are read.
pub struct RepCollector {
    max: usize,
    reps: Vec<(String, Vec<u8>)>,
    total: usize,
    open: bool,
}

impl View for RepCollector {
    type V = CollectView;

    closed spec fn view(&self) -> CollectView {
        CollectView { reps: reps_view(self.reps@), open: self.open }
    }
}

/// One more representation adds its size.
pub proof fn lemma_reps_len_push(reps: Seq<RepView>, rep: RepView)
    ensures
        reps_len(reps.push(rep)) == reps_len(reps) + rep_len(rep),
    decreases reps.len(),
{
    let all = reps.push(rep);
    if reps.len() == 0 {
        assert(all.drop_first() =~= Seq::<RepView>::empty());
        reveal_with_fuel(reps_len, 2);
    } else {
        lemma_reps_len_push(reps.drop_first(), rep);
        assert(all.drop_first() =~= reps.drop_first().push(rep));
        assert(all[0] == reps[0]);
    }
}

impl RepCollector {
    /// The total size is that of what was read, and within the cap.
    pub closed spec fn wf(&self) -> bool {
        self.total == reps_len(self@.reps) && self.total <= self.max
    }

    /// The size cap.
    pub closed spec fn cap(&self) -> nat {
        self.max as nat
    }

    pub fn new(max: usize) -> (collector: Self)
        ensures
            collector.wf(),
            collector@ == nothing_collected(),
            collector.cap() == max,
    {
        let collector = RepCollector { max, reps: Vec::new(), total: 0, open: true };
        assert(collector@ =~= nothing_collected());
        collector
    }

    /// Take in the outcome of the next read. Returns whether more are wanted;
    /// if not, the remaining reads are to be cancelled.
    pub fn offer(&mut self, mime: String, data: Option<Vec<u8>>) -> (more: bool)
        requires
            old(self).wf(),
        ensures
            final(self).wf(),
            final(self).cap() == old(self).cap(),
            final(self)@ == collected_one(
                old(self)@,
                old(self).cap(),
                mime@,
                opt_bytes_view(data),
            ),
            more == final(self)@.open,
    {
        if !self.open {
            return false;
        }
        if self.reps.len() >= MAX_REPS {
            self.open = false;
            return false;
        }
        if let Some(data) = data {
            let mime_len: usize = mime.as_str().as_bytes().len();
            let data_len: usize = data.len();
            if data_len == 0 {
                return true;
            }
            let room: usize = self.max - self.total;
            if mime_len > room || data_len > room - mime_len {
                self.open = false;
                return false;
            }
            let ghost before = reps_view(self.reps@);
            let ghost rep = (mime@, data@);
            self.total = self.total + (mime_len + data_len);
            self.reps.push((mime, data));
            proof {
                assert(reps_view(self.reps@) =~= before.push(rep));
                lemma_reps_len_push(before, rep);
            }
        }
        true
    }

    /// The item that was read, if any representation was.
    pub fn finish(self) -> (item: Option<ClipboardItem>)
        ensures
            opt_item_view(item) == collected_item(self@),
    {
        if self.reps.len() == 0 {
            return None;
        }
        let item = ClipboardItem { origin: [0, 0, 0, 0, 0, 0, 0, 0], serial: 0, reps: self.reps };
        assert(item@.origin =~= seq![0u8, 0, 0, 0, 0, 0, 0, 0]);
        Some(item)
    }
}

/// What follows an event of the process that watches the selection.
#[derive(Debug, Clone, Copy, PartialEq, Eq, Structural)]
pub enum WatchEvent {
    /// The watcher process could not be started.
    SpawnFailed,
    /// The watcher process has no output to read.
    NoOutput,
    /// The watcher process reported a change.
    Changed,
    /// The output of the watcher process ended or could not be read.
    OutputEnded,
    /// Nobody takes the changes any more.
    ReceiverGone,
}

/// What to do next about the process that watches the selection.
#[derive(Debug, Clone, Copy, PartialEq, Eq, Structural)]
pub enum WatchNext {
    /// Start the watcher process after a delay in milliseconds.
    Respawn(u64),
    /// Read the current content, report it if there is any, and wait on.
    ReadCurrent,
    /// Stop watching.
    Quit,
}

impl WlClipboardBackend {
    /// The types to read, given whether listing them succeeded and its output
    /// as text.
    pub fn types_to_read(&self, success: bool, listing: &str) -> (types: Option<Vec<String>>)
        ensures
            opt_texts_view(types) == types_to_read(success, listing@),
    {
        if !success {
            return None;
        }
        let types = select_types(listing);
        assert(texts_view(types@).len() == types@.len());
        if types.len() == 0 {
            return None;
        }
        Some(types)
    }

    /// The types to read, given whether listing them succeeded and its output.
    pub fn listed_types(&self, success: bool, stdout: &[u8]) -> (types: Option<Vec<String>>)
        ensures
            opt_texts_view(types) == types_to_read(success, lossy_utf8(stdout@)),
            valid_utf8(stdout@) ==> opt_texts_view(types) == types_to_read(
                success,
                decode_utf8(stdout@),
            ),
    {
        let listing = string_from_utf8_lossy(stdout);
        self.types_to_read(success, listing.as_str())
    }

    /// How many bytes of one target to read at most: one past the budget, so an
    /// over-size representation is detected without buffering the whole
    /// payload; or none where there is no budget.
    pub fn read_limit(max_bytes: usize) -> (limit: Option<u64>)
        requires
            max_bytes < u64::MAX,
        ensures
            limit == if max_bytes == 0 {
                None
            } else {
                Some((max_bytes + 1) as u64)
            },
    {
        if max_bytes == 0 {
            None
        } else {
            Some(max_bytes as u64 + 1)
        }
    }

    /// Whether the tool is to be waited for after its output was read; it is to
    /// be killed otherwise.
    pub fn keep_reading(read: bool, len: usize, max_bytes: usize) -> (keep: bool)
        ensures
            keep == (read && len <= max_bytes),
    {
        read && len <= max_bytes
    }

    /// What is kept of one target's bytes, without any newline normalization.
    pub fn read_rep(read: bool, data: Vec<u8>, max_bytes: usize, exited: bool) -> (kept: Option<
        Vec<u8>,
    >)
        ensures
            opt_bytes_view(kept) == kept_bytes(read, data@, max_bytes as nat, exited),
    {
        if Self::keep_reading(read, data.len(), max_bytes) && exited {
            Some(data)
        } else {
            None
        }
    }

    /// What to pipe into `wl-copy --type`: the primary representation.
    pub fn copy_request<'a>(&self, item: &'a ClipboardItem) -> (request: Result<
        &'a (String, Vec<u8>),
        BackendError,
    >)
        ensures
            match request {
                Ok(rep) => item@.reps.len() > 0 && (rep.0@, rep.1@) == item@.reps[0],
                Err(e) => item@.reps.len() == 0 && e@ == BackendErrorView::Other(
                    "item has no representations"@,
                ),
            },
    {
        match item.primary() {
            Some(rep) => Ok(rep),
            None => Err(BackendError::Other(String::from_str("item has no representations"))),
        }
    }

    /// What comes of running `wl-copy`, given how it ended.
    pub fn copy_outcome(success: bool, status: &str) -> (result: Result<(), BackendError>)
        ensures
            match result {
                Ok(_) => success,
                Err(e) => !success && e@ == BackendErrorView::Other("wl-copy failed: "@ + status@),
            },
    {
        if success {
            Ok(())
        } else {
            Err(BackendError::Other(joined("wl-copy failed: ", status)))
        }
    }

    /// What to do next about the process that watches the selection: read the
    /// clipboard on every change, and keep a watcher running, after a short
    /// delay where it exited and a longer one where it could not be started.
    pub fn watch_next(event: WatchEvent) -> (next: WatchNext)
        ensures
            next == match event {
                WatchEvent::SpawnFailed => WatchNext::Respawn(2000),
                WatchEvent::NoOutput => WatchNext::Quit,
                WatchEvent::Changed => WatchNext::ReadCurrent,
                WatchEvent::OutputEnded => WatchNext::Respawn(500),
                WatchEvent::ReceiverGone => WatchNext::Quit,
            },
    {
        match event {
            WatchEvent::SpawnFailed => WatchNext::Respawn(2000),
            WatchEvent::NoOutput => WatchNext::Quit,
            WatchEvent::Changed => WatchNext::ReadCurrent,
            WatchEvent::OutputEnded => WatchNext::Respawn(500),
            WatchEvent::ReceiverGone => WatchNext::Quit,
        }
    }
}

/// What is selected is transferable, and either all of it are MIME types or none
/// of it is.
pub proof fn law_selected_types_are_transferable(raw: Seq<char>)
    ensures
        forall|i: int|
            0 <= i < selected_types(raw).len() ==> transferable(#[trigger] selected_types(raw)[i]),
        (forall|i: int|
            0 <= i < selected_types(raw).len() ==> (#[trigger] selected_types(raw)[i]).contains(
                '/',
            )) || (forall|i: int|
            0 <= i < selected_types(raw).len() ==> !(#[trigger] selected_types(raw)[i]).contains(
                '/',
            )),
{
    let targets = listed_targets(raw);
    let types = distinct_types(targets);
    let is_mime = |t: Seq<char>| t.contains('/');
    let is_x11 = |t: Seq<char>| !t.contains('/');
    lemma_distinct_types(targets);
    lemma_filter_members(types, is_mime);
    lemma_filter_members(types, is_x11);
    let out = selected_types(raw);
    let mimes = types.filter(is_mime);
    let kept = if mimes.len() == 0 {
        is_x11
    } else {
        is_mime
    };
    assert(out == types.filter(kept));
    assert forall|i: int| 0 <= i < out.len() implies kept(#[trigger] out[i]) && transferable(
        out[i],
    ) by {
        assert(out.contains(out[i]));
        assert(types.contains(out[i]));
        let k = choose|k: int| 0 <= k < types.len() && types[k] == out[i];
        assert(transferable(types[k]));
    }
    if mimes.len() == 0 {
        assert forall|i: int| 0 <= i < out.len() implies !(#[trigger] out[i]).contains('/') by {
            assert(is_x11(out[i]));
        }
    } else {
        assert forall|i: int| 0 <= i < out.len() implies (#[trigger] out[i]).contains('/') by {
            assert(is_mime(out[i]));
        }
    }
}

/// No type is selected twice, whatever its case.
pub proof fn law_selected_types_are_distinct(raw: Seq<char>)
    ensures
        forall|i: int, j: int|
            0 <= i < j < selected_types(raw).len() ==> lowercase(#[trigger] selected_types(raw)[i])
                != lowercase(#[trigger] selected_types(raw)[j]),
{
    let types = distinct_types(listed_targets(raw));
    lemma_distinct_types(listed_targets(raw));
    lemma_filter_folded(types, |t: Seq<char>| t.contains('/'));
    lemma_filter_folded(types, |t: Seq<char>| !t.contains('/'));
}

/// A selection that offers a transferable type has something selected.
pub proof fn law_offered_types_are_selected(raw: Seq<char>, i: int)
    requires
        0 <= i < listed_targets(raw).len(),
        transferable(listed_targets(raw)[i]),
    ensures
        selected_types(raw).len() > 0,
        listed_targets(raw)[i].contains('/') ==> exists|k: int|
            0 <= k < selected_types(raw).len() && lowercase(#[trigger] selected_types(raw)[k])
                == lowercase(listed_targets(raw)[i]) && selected_types(raw)[k].contains('/'),
{
    let targets = listed_targets(raw);
    let types = distinct_types(targets);
    let is_mime = |t: Seq<char>| t.contains('/');
    let is_x11 = |t: Seq<char>| !t.contains('/');
    lemma_distinct_covers(targets, i);
    let k = choose|k: int|
        0 <= k < types.len() && lowercase(#[trigger] types[k]) == lowercase(targets[i]);
    assert(types.contains(types[k]));
    lemma_filter_members(types, is_mime);
    lemma_filter_members(types, is_x11);
    let mimes = types.filter(is_mime);
    let rest = types.filter(is_x11);
    lemma_slash_folded(types[k], targets[i]);
    if is_mime(types[k]) {
        assert(mimes.contains(types[k]));
        let m = choose|m: int| 0 <= m < mimes.len() && mimes[m] == types[k];
        assert(selected_types(raw)[m] == types[k]);
    } else {
        assert(is_x11(types[k]));
        assert(rest.contains(types[k]));
    }
}

/// Folding the case changes no slash.
proof fn lemma_slash_folded(a: Seq<char>, b: Seq<char>)
    requires
        lowercase(a) == lowercase(b),
    ensures
        a.contains('/') == b.contains('/'),
{
    assert(lowercase(a).len() == a.len() && lowercase(b).len() == b.len());
    assert forall|i: int| 0 <= i < a.len() implies (a[i] == '/') == (b[i] == '/') by {
        assert(lowercase(a)[i] == lower(a[i]) && lowercase(b)[i] == lower(b[i]));
        lemma_lower_slash(a[i]);
        lemma_lower_slash(b[i]);
    }
    if a.contains('/') {
        let i = choose|i: int| 0 <= i < a.len() && a[i] == '/';
        assert(b[i] == '/');
    }
    if b.contains('/') {
        let i = choose|i: int| 0 <= i < b.len() && b[i] == '/';
        assert(a[i] == '/');
    }
}

/// Folding the case of a character makes no slash and loses none.
proof fn lemma_lower_slash(c: char)
    ensures
        (lower(c) == '/') == (c == '/'),
{
}

proof fn lemma_distinct_covers(targets: Seq<Seq<char>>, i: int)
    requires
        0 <= i < targets.len(),
        transferable(targets[i]),
    ensures
        exists|k: int|
            0 <= k < distinct_types(targets).len() && lowercase(
                #[trigger] distinct_types(targets)[k],
            ) == lowercase(targets[i]),
    decreases targets.len(),
{
    let init = targets.drop_last();
    let types0 = distinct_types(init);
    let types = distinct_types(targets);
    if i < init.len() {
        assert(init[i] == targets[i]);
        lemma_distinct_covers(init, i);
        let k = choose|k: int|
            0 <= k < types0.len() && lowercase(#[trigger] types0[k]) == lowercase(targets[i]);
        assert(types[k] == types0[k]);
    } else if offered_before(init, targets.last()) {
        let j = choose|j: int|
            0 <= j < init.len() && transferable(#[trigger] init[j]) && lowercase(init[j])
                == lowercase(targets.last());
        lemma_distinct_covers(init, j);
        let k = choose|k: int|
            0 <= k < types0.len() && lowercase(#[trigger] types0[k]) == lowercase(init[j]);
        assert(types[k] == types0[k]);
    } else {
        assert(types[types.len() - 1] == targets[i]);
    }
}

proof fn lemma_distinct_types(targets: Seq<Seq<char>>)
    ensures
        forall|k: int|
            0 <= k < distinct_types(targets).len() ==> transferable(
                #[trigger] distinct_types(targets)[k],
            ) && targets.contains(distinct_types(targets)[k]),
        folded_distinct(distinct_types(targets)),
    decreases targets.len(),
{
    if targets.len() > 0 {
        let init = targets.drop_last();
        let last = targets.last();
        let types0 = distinct_types(init);
        let types = distinct_types(targets);
        lemma_distinct_types(init);
        assert forall|k: int| 0 <= k < types.len() implies transferable(#[trigger] types[k])
            && targets.contains(types[k]) by {
            if k < types0.len() {
                assert(types[k] == types0[k]);
                assert(init.contains(types0[k]));
                let j = choose|j: int| 0 <= j < init.len() && init[j] == types0[k];
                assert(targets[j] == types[k]);
            } else {
                assert(targets[targets.len() - 1] == last);
            }
        }
        assert forall|i: int, j: int| 0 <= i < j < types.len() implies lowercase(
            #[trigger] types[i],
        ) != lowercase(#[trigger] types[j]) by {
            assert(types[i] == types0[i]);
            if j < types0.len() {
                assert(types[j] == types0[j]);
            } else {
                assert(init.contains(types0[i]));
                let n = choose|n: int| 0 <= n < init.len() && init[n] == types0[i];
                assert(transferable(init[n]));
            }
        }
    }
}

/// Whether no two texts of a list are the same up to case.
pub open spec fn folded_distinct(list: Seq<Seq<char>>) -> bool {
    forall|i: int, j: int|
        0 <= i < j < list.len() ==> lowercase(#[trigger] list[i]) != lowercase(#[trigger] list[j])
}

proof fn lemma_filter_folded(list: Seq<Seq<char>>, keep: spec_fn(Seq<char>) -> bool)
    requires
        folded_distinct(list),
    ensures
        folded_distinct(list.filter(keep)),
    decreases list.len(),
{
    reveal(Seq::filter);
    if list.len() > 0 {
        let init = list.drop_last();
        let last = list.last();
        let kept0 = init.filter(keep);
        let kept = list.filter(keep);
        assert forall|i: int, j: int| 0 <= i < j < init.len() implies lowercase(
            #[trigger] init[i],
        ) != lowercase(#[trigger] init[j]) by {
            assert(init[i] == list[i] && init[j] == list[j]);
        }
        lemma_filter_folded(init, keep);
        lemma_filter_members(init, keep);
        assert forall|i: int, j: int| 0 <= i < j < kept.len() implies lowercase(
            #[trigger] kept[i],
        ) != lowercase(#[trigger] kept[j]) by {
            assert(kept[i] == kept0[i]);
            if j < kept0.len() {
                assert(kept[j] == kept0[j]);
            } else {
                assert(kept0.contains(kept0[i]));
                let n = choose|n: int| 0 <= n < init.len() && init[n] == kept0[i];
                assert(list[n] == kept0[i]);
                assert(list[list.len() - 1] == last);
            }
        }
    }
}

/// Whatever is read, the item stays within the size cap and the number of
/// representations, so it is never too large to be encoded under the same cap.
pub proof fn law_collected_item_fits(
    max: nat,
    reads: Seq<(Seq<char>, Option<Seq<u8>>)>,
    item: ItemView,
)
    requires
        collected_item(collected_all(nothing_collected(), max, reads)) == Some(item),
    ensures
        1 <= item.reps.len() <= MAX_REPS,
        reps_len(item.reps) <= max,
        !(encoded(item, max) matches Err(ErrorView::TooLarge(_, _))),
        forall|i: int| 0 <= i < item.reps.len() ==> (#[trigger] item.reps[i]).1.len() > 0,
{
    lemma_collected(max, reads);
}

proof fn lemma_collected(max: nat, reads: Seq<(Seq<char>, Option<Seq<u8>>)>)
    ensures
        ({
            let s = collected_all(nothing_collected(), max, reads);
            &&& s.reps.len() <= MAX_REPS
            &&& reps_len(s.reps) <= max
            &&& forall|i: int| 0 <= i < s.reps.len() ==> (#[trigger] s.reps[i]).1.len() > 0
        }),
    decreases reads.len(),
{
    if reads.len() > 0 {
        lemma_collected(max, reads.drop_last());
        let before = collected_all(nothing_collected(), max, reads.drop_last());
        if let Some(d) = reads.last().1 {
            lemma_reps_len_push(before.reps, (reads.last().0, d));
        }
    }
}

/// A type that is listed alone, on a line of its own, is the one to read.
proof fn lemma_listed_alone(mime: Seq<char>)
    requires
        transferable(mime),
        trim(mime) == mime,
        !mime.contains('\n'),
    ensures
        selected_types(mime) == seq![mime],
        selected_types(mime.push('\n')) == seq![mime],
{
    let none = Seq::<char>::empty();
    lemma_find_absent(mime, '\n');
    lemma_find_first(mime, '\n');
    lemma_find_absent(none, '\n');
    let ended = mime.push('\n');
    assert(ended =~= mime + seq!['\n']);
    assert(ended.take(mime.len() as int) =~= mime);
    assert(ended.skip(mime.len() as int + 1) =~= none);
    assert(lines(mime) == seq![mime]);
    assert(lines(none) == seq![none]);
    assert(lines(ended) =~= seq![mime, none]);
    assert(listed_targets(mime) =~= seq![mime]);
    assert(listed_targets(ended) =~= seq![mime, none]);
    assert(!transferable(none)) by {
        reveal_strlit("UTF8_STRING");
        reveal_strlit("STRING");
        reveal_strlit("TEXT");
        assert forall|k: int| 0 <= k < 3 implies lowercase(#[trigger] X11_TEXT_TARGETS@[k]@)
            != lowercase(none) by {
            assert(lowercase(X11_TEXT_TARGETS@[k]@).len() > 0);
        }
    }
    reveal_with_fuel(distinct_types, 3);
    assert(seq![mime, none].drop_last() =~= seq![mime]);
    assert(seq![mime].drop_last() =~= Seq::<Seq<char>>::empty());
    assert(distinct_types(seq![mime]) =~= seq![mime]);
    assert(distinct_types(seq![mime, none]) =~= seq![mime]);
    assert(preferred(seq![mime]) == seq![mime]) by {
        reveal(Seq::filter);
        let init = seq![mime].drop_last();
        assert(init.filter(|t: Seq<char>| t.contains('/')) =~= init);
        assert(init.filter(|t: Seq<char>| !t.contains('/')) =~= init);
        assert(seq![mime].filter(|t: Seq<char>| t.contains('/')) =~= if mime.contains('/') {
            seq![mime]
        } else {
            init
        });
        assert(seq![mime].filter(|t: Seq<char>| !t.contains('/')) =~= if mime.contains('/') {
            init
        } else {
            seq![mime]
        });
    }
}

/// What is copied can be read back: where the selection offers the type of an
/// item's primary representation, and reading it gives the bytes that were
/// copied, the item that is read is that representation, with the same content
/// hash. The type is one that can be listed on a line and is transferable, and
/// the data is neither empty nor beyond the size cap.
pub proof fn law_copied_content_reads_back(item: ItemView, max: nat)
    requires
        item.reps.len() > 0,
        transferable(item.reps[0].0),
        trim(item.reps[0].0) == item.reps[0].0,
        !item.reps[0].0.contains('\n'),
        item.reps[0].1.len() > 0,
        rep_len(item.reps[0]) <= max,
    ensures
        types_to_read(true, item.reps[0].0) == Some(seq![item.reps[0].0]),
        types_to_read(true, item.reps[0].0.push('\n')) == Some(seq![item.reps[0].0]),
        kept_bytes(true, item.reps[0].1, max, true) == Some(item.reps[0].1),
        collected_item(
            collected_all(
                nothing_collected(),
                max,
                seq![(item.reps[0].0, Some(item.reps[0].1))],
            ),
        ) matches Some(read) && read.reps == seq![item.reps[0]] && content_digest(read.reps)
            == content_digest(item.reps),
{
    let rep = item.reps[0];
    lemma_listed_alone(rep.0);
    let reads = seq![(rep.0, Some(rep.1))];
    assert(reads.drop_last() =~= Seq::<(Seq<char>, Option<Seq<u8>>)>::empty());
    reveal_with_fuel(collected_all, 2);
    assert(nothing_collected().reps.push(rep) =~= seq![rep]);
}

/// Once reading has ended, nothing more is read.
pub proof fn law_closed_collection_stays(
    s: CollectView,
    max: nat,
    mime: Seq<char>,
    data: Option<Seq<u8>>,
)
    requires
        !s.open,
    ensures
        collected_one(s, max, mime, data) == s,
{
}

/// A target is transferable if there is a slash in it or if it is one of the
/// three legacy text targets, in whatever case; no other target is.
pub proof fn law_which_targets_are_transferable(t: Seq<char>)
    ensures
        transferable(t) <==> (exists|i: int| 0 <= i < t.len() && t[i] == '/') || lowercase(t)
            == seq!['u', 't', 'f', '8', '_', 's', 't', 'r', 'i', 'n', 'g'] || lowercase(t) == seq![
            's',
            't',
            'r',
            'i',
            'n',
            'g',
        ] || lowercase(t) == seq!['t', 'e', 'x', 't'],
{
    law_kinds_of_mime(t);
}

/// Every line of a listing names one target, without the whitespace around it.
pub proof fn law_listed_targets(raw: Seq<char>, line: Seq<char>)
    requires
        !line.contains('\n'),
    ensures
        listed_targets(line) == seq![trim(line)],
        listed_targets(raw + seq!['\n'] + line) == listed_targets(raw).push(trim(line)),
{
    law_lines(line, line);
    law_lines_of_both_parts(raw, line);
    assert(listed_targets(line) =~= seq![trim(line)]);
    assert(listed_targets(raw + seq!['\n'] + line) =~= listed_targets(raw).push(trim(line)));
}

/// What one more line of a listing changes about what is read. A target that is
/// not transferable, or that was listed before in whatever case, changes
/// nothing. A new MIME type is read behind the others, and in place of legacy
/// text targets where there was no MIME type before; a new legacy text target
/// is read behind the others unless there is a MIME type.
pub proof fn law_what_one_more_line_selects(raw: Seq<char>, line: Seq<char>)
    requires
        !line.contains('\n'),
    ensures
        ({
            let targets = listed_targets(raw);
            let t = trim(line);
            let before = selected_types(raw);
            let after = selected_types(raw + seq!['\n'] + line);
            let new = transferable(t) && forall|j: int|
                0 <= j < targets.len() ==> lowercase(#[trigger] targets[j]) != lowercase(t);
            let mimes = exists|j: int|
                0 <= j < targets.len() && (#[trigger] targets[j]).contains('/');
            &&& !new ==> after == before
            &&& new && t.contains('/') && mimes ==> after == before.push(t)
            &&& new && t.contains('/') && !mimes ==> after == seq![t]
            &&& new && !t.contains('/') && mimes ==> after == before
            &&& new && !t.contains('/') && !mimes ==> after == before.push(t)
        }),
        selected_types(line) == if transferable(trim(line)) {
            seq![trim(line)]
        } else {
            seq![]
        },
{
    let targets = listed_targets(raw);
    let t = trim(line);
    law_listed_targets(raw, line);
    lemma_one_more_target(targets, t);
    let none = Seq::<Seq<char>>::empty();
    lemma_one_more_target(none, t);
    assert(none.push(t) =~= seq![t]);
    assert(distinct_types(none) =~= none);
    assert(preferred(none) =~= none) by {
        reveal(Seq::filter);
    }
}

/// What one more target changes about what is read.
proof fn lemma_one_more_target(targets: Seq<Seq<char>>, t: Seq<char>)
    ensures
        ({
            let before = preferred(distinct_types(targets));
            let after = preferred(distinct_types(targets.push(t)));
            let new = transferable(t) && forall|j: int|
                0 <= j < targets.len() ==> lowercase(#[trigger] targets[j]) != lowercase(t);
            let mimes = exists|j: int|
                0 <= j < targets.len() && (#[trigger] targets[j]).contains('/');
            &&& !new ==> after == before
            &&& new && t.contains('/') && mimes ==> after == before.push(t)
            &&& new && t.contains('/') && !mimes ==> after == seq![t]
            &&& new && !t.contains('/') && mimes ==> after == before
            &&& new && !t.contains('/') && !mimes ==> after == before.push(t)
        }),
{
    let more = targets.push(t);
    let types = distinct_types(targets);
    let is_mime = |t: Seq<char>| t.contains('/');
    let is_x11 = |t: Seq<char>| !t.contains('/');
    assert(more.drop_last() =~= targets);
    assert(more.last() == t);
    if transferable(t) {
        assert(offered_before(targets, t) <==> exists|j: int|
            0 <= j < targets.len() && lowercase(#[trigger] targets[j]) == lowercase(t)) by {
            if exists|j: int|
                0 <= j < targets.len() && lowercase(#[trigger] targets[j]) == lowercase(t) {
                let j = choose|j: int|
                    0 <= j < targets.len() && lowercase(#[trigger] targets[j]) == lowercase(t);
                lemma_slash_folded(targets[j], t);
                assert(transferable(targets[j]));
            }
        }
        if !offered_before(targets, t) {
            assert(distinct_types(more) == types.push(t));
            assert(types.push(t).drop_last() =~= types);
            reveal(Seq::filter);
            lemma_filter_members(types, is_mime);
            lemma_distinct_types(targets);
            let mimes = types.filter(is_mime);
            if mimes.len() > 0 {
                assert(mimes.contains(mimes[0]));
                assert(types.contains(mimes[0]));
                let k = choose|k: int| 0 <= k < types.len() && types[k] == mimes[0];
                assert(targets.contains(types[k]));
                let j = choose|j: int| 0 <= j < targets.len() && targets[j] == types[k];
                assert(targets[j].contains('/'));
            }
            if exists|j: int| 0 <= j < targets.len() && (#[trigger] targets[j]).contains('/') {
                let j = choose|j: int|
                    0 <= j < targets.len() && (#[trigger] targets[j]).contains('/');
                lemma_distinct_covers(targets, j);
                let k = choose|k: int|
                    0 <= k < types.len() && lowercase(#[trigger] types[k]) == lowercase(targets[j]);
                lemma_slash_folded(types[k], targets[j]);
                assert(types.contains(types[k]));
                assert(mimes.contains(types[k]));
            }
            assert(mimes.len() == 0 ==> mimes =~= Seq::<Seq<char>>::empty());
            if is_mime(t) {
                assert(types.push(t).filter(is_mime) == mimes.push(t));
                assert(mimes.len() == 0 ==> mimes.push(t) =~= seq![t]);
            } else {
                assert(types.push(t).filter(is_mime) == mimes);
                assert(types.push(t).filter(is_x11) == types.filter(is_x11).push(t));
            }
        }
    }
}

/// There is something to read exactly if the listing succeeded and selects a
/// type, and then it is what the listing selects.
pub proof fn law_what_is_to_be_read(success: bool, listing: Seq<char>)
    ensures
        types_to_read(success, listing) is Some <==> success && selected_types(listing).len() > 0,
        types_to_read(success, listing) matches Some(types) ==> types == selected_types(listing),
{
}

/// Bytes are kept whole or not at all: they are kept exactly if they could be
/// read, are no more than the budget and their tool succeeded.
pub proof fn law_bytes_are_kept_whole(read: bool, data: Seq<u8>, max_bytes: nat, exited: bool)
    ensures
        read && exited && data.len() <= max_bytes ==> kept_bytes(read, data, max_bytes, exited)
            == Some(data),
        !read || !exited || data.len() > max_bytes ==> kept_bytes(read, data, max_bytes, exited)
            is None,
{
}

/// What a read adds to a collection that is open: a failed or empty read adds
/// nothing; data that fits is added behind the others; data that would exceed
/// the cap, and any read after sixty-four representations, ends it.
pub proof fn law_what_a_read_adds(s: CollectView, max: nat, mime: Seq<char>, data: Seq<u8>)
    requires
        s.open,
    ensures
        ({
            let size = reps_len(s.reps) + encode_utf8(mime).len() + data.len();
            let full = s.reps.len() >= 64;
            let after = collected_one(s, max, mime, Some(data));
            &&& !full ==> collected_one(s, max, mime, None) == s
            &&& !full && data.len() == 0 ==> after == s
            &&& !full && data.len() > 0 && size <= max ==> after.open && after.reps == s.reps.push(
                (mime, data),
            )
            &&& !full && data.len() > 0 && size > max ==> !after.open && after.reps == s.reps
            &&& full ==> !after.open && after.reps == s.reps
            &&& full ==> !collected_one(s, max, mime, None).open && collected_one(
                s,
                max,
                mime,
                None,
            ).reps == s.reps
        }),
        nothing_collected().open,
        nothing_collected().reps.len() == 0,
{
}

/// Reads are taken in one after the other, in their order.
pub proof fn law_reads_are_taken_in_order(
    s: CollectView,
    max: nat,
    reads: Seq<(Seq<char>, Option<Seq<u8>>)>,
    mime: Seq<char>,
    data: Option<Seq<u8>>,
)
    ensures
        collected_all(s, max, reads.push((mime, data))) == collected_one(
            collected_all(s, max, reads),
            max,
            mime,
            data,
        ),
        collected_all(s, max, Seq::empty()) == s,
{
    assert(reads.push((mime, data)).drop_last() =~= reads);
}

/// Whatever fits is read in full and in order: up to sixty-four representations
/// that hold something and are together within the cap make up the item, which
/// no machine has stamped yet. Where there is none, there is no item.
pub proof fn law_everything_that_fits_is_read(max: nat, reps: Seq<RepView>)
    requires
        reps.len() <= 64,
        reps_len(reps) <= max,
        forall|i: int| 0 <= i < reps.len() ==> (#[trigger] reps[i]).1.len() > 0,
    ensures
        ({
            let reads = reps.map_values(|r: RepView| (r.0, Some(r.1)));
            let s = collected_all(nothing_collected(), max, reads);
            &&& s.reps == reps
            &&& s.open
            &&& reps.len() == 0 ==> collected_item(s) is None
            &&& reps.len() > 0 ==> (collected_item(s) matches Some(item) && item.reps == reps
                && item.serial == 0 && item.origin == seq![0u8, 0, 0, 0, 0, 0, 0, 0])
        }),
    decreases reps.len(),
{
    let reads = reps.map_values(|r: RepView| (r.0, Some(r.1)));
    if reps.len() > 0 {
        let init = reps.drop_last();
        let last = reps.last();
        assert(init.push(last) =~= reps);
        lemma_reps_len_push(init, last);
        assert forall|i: int| 0 <= i < init.len() implies (#[trigger] init[i]).1.len() > 0 by {
            assert(init[i] == reps[i]);
        }
        law_everything_that_fits_is_read(max, init);
        assert(reads.drop_last() =~= init.map_values(|r: RepView| (r.0, Some(r.1))));
        assert(reps[reps.len() - 1] == last);
    } else {
        assert(nothing_collected().reps =~= reps);
    }
}

} // verus!
