//! cliphist backend (history sink only).
//!
//! cliphist is a clipboard history manager, not the live clipboard. It is
//! fed by piping raw bytes into `cliphist store`. Received items are
//! recorded into history; cliphist is never used as a change source.

use vstd::prelude::*;
use vstd::string::StringExecFns;

use crate::backend::Tools;
use crate::item::{
    copy_bytes, is_text_mime, law_kinds_of_mime, text_mime, x11_text_target, ClipboardItem,
    RepView, MIME_TEXT_PLAIN,
};
use crate::text::{contains_char, law_folding, lowercase};

verus! {

/// What is recorded of an item: its primary representation. cliphist stores by
/// MIME type; the legacy X11 text aliases are not MIME types, so they are
/// normalized to plain text, and anything else that is not a MIME type is
/// skipped.
pub open spec fn recorded(reps: Seq<RepView>) -> Option<RepView> {
    if reps.len() == 0 {
        None
    } else if reps[0].0.contains('/') {
        Some(reps[0])
    } else if text_mime(reps[0].0) {
        Some((MIME_TEXT_PLAIN@, reps[0].1))
    } else {
        None
    }
}

/// What an optional representation says.
pub open spec fn opt_rep_view(rep: Option<(String, Vec<u8>)>) -> Option<RepView> {
    match rep {
        Some(r) => Some((r.0@, r.1@)),
        None => None,
    }
}

#[derive(Debug)]
pub struct ClipHistBackend;

impl Default for ClipHistBackend {
    fn default() -> (backend: Self)
        ensures
            backend == ClipHistBackend,
    {
        Self::new()
    }
}

impl ClipHistBackend {
    pub fn new() -> (backend: Self)
        ensures
            backend == ClipHistBackend,
    {
        ClipHistBackend
    }

    /// Whether the tool exists.
    pub fn available(tools: &Tools) -> (yes: bool)
        ensures
            yes == tools.cliphist,
    {
        tools.cliphist
    }

    /// Human-readable backend name (for logs and config display).
    pub fn name(&self) -> (name: &'static str)
        ensures
            name@ == "cliphist"@,
    {
        "cliphist"
    }

    /// A history store is never read.
    pub fn read_current(&self) -> (item: Option<ClipboardItem>)
        ensures
            item is None,
    {
        None
    }

    /// What to pipe into `cliphist store --mime`: the MIME type and the bytes,
    /// or nothing where there is nothing to record.
    pub fn store_request(&self, item: &ClipboardItem) -> (request: Option<(String, Vec<u8>)>)
        ensures
            opt_rep_view(request) == recorded(item@.reps),
    {
        match item.primary() {
            None => None,
            Some(rep) => {
                let mime = rep.0.as_str();
                if contains_char(mime, '/') {
                    Some((String::from_str(mime), copy_bytes(&rep.1)))
                } else if is_text_mime(mime) {
                    Some((String::from_str(MIME_TEXT_PLAIN), copy_bytes(&rep.1)))
                } else {
                    None
                }
            },
        }
    }
}

/// What is recorded has a MIME type, and the bytes are those of the primary
/// representation, unchanged.
pub proof fn law_recorded_is_the_primary(reps: Seq<RepView>)
    ensures
        recorded(reps) matches Some(rep) ==> reps.len() > 0 && rep.1 == reps[0].1
            && rep.0.contains('/'),
{
    reveal_strlit("text/plain;charset=utf-8");
    assert(MIME_TEXT_PLAIN@[4] == '/');
}

/// What is recorded depends on the primary representation alone: with a slash in
/// its MIME type it is recorded as it is; a legacy text target is recorded as
/// plain text; anything else is not recorded.
pub proof fn law_what_is_recorded(rep: RepView, more: Seq<RepView>)
    ensures
        (exists|i: int| 0 <= i < rep.0.len() && rep.0[i] == '/') ==> recorded(seq![rep] + more)
            == Some(rep),
        !rep.0.contains('/') && (lowercase(rep.0) == seq![
            'u',
            't',
            'f',
            '8',
            '_',
            's',
            't',
            'r',
            'i',
            'n',
            'g',
        ] || lowercase(rep.0) == seq!['s', 't', 'r', 'i', 'n', 'g'] || lowercase(rep.0) == seq![
            't',
            'e',
            'x',
            't',
        ]) ==> recorded(seq![rep] + more) == Some(("text/plain;charset=utf-8"@, rep.1)),
        !rep.0.contains('/') && !x11_text_target(rep.0) ==> recorded(seq![rep] + more) is None,
        recorded(Seq::<RepView>::empty()) is None,
{
    let reps = seq![rep] + more;
    assert(reps[0] == rep);
    law_kinds_of_mime(rep.0);
    if !rep.0.contains('/') && !x11_text_target(rep.0) && text_mime(rep.0) {
        law_folding(rep.0, 4);
        assert(lowercase(rep.0).take(5)[4] == '/');
        assert(rep.0[4] == '/');
    }
}

} // verus!
