use lan_mouse_clipboard::backend::cliphist::ClipHistBackend;
use lan_mouse_clipboard::backend::dbus_klipper::DbusClipboardBackend;
use lan_mouse_clipboard::backend::wl_clipboard::WlClipboardBackend;
use lan_mouse_clipboard::backend::{
    build_backends, parse_dbus_string, push_primary, wayland_clipboard_running, Backend,
    BackendError, BackendKind, ProcEntry, Tools,
};

const NO_TOOLS: Tools = Tools {
    wl_paste: false,
    wl_copy: false,
    cliphist: false,
    dbus_send: false,
};

const WL_TOOLS: Tools = Tools {
    wl_paste: true,
    wl_copy: true,
    cliphist: false,
    dbus_send: false,
};

const ALL_TOOLS: Tools = Tools {
    wl_paste: true,
    wl_copy: true,
    cliphist: true,
    dbus_send: true,
};

#[test]
fn parse_dbus_string_extracts_quoted_string() {
    assert_eq!(
        parse_dbus_string("   string \"hello\"\n"),
        Some("hello".into())
    );
    assert_eq!(
        parse_dbus_string("method return time=1\n   string \"two words\"\n"),
        Some("two words".into())
    );
    assert_eq!(parse_dbus_string("   string \"\"\n"), Some(String::new()));
    assert_eq!(parse_dbus_string("   int32 42\n"), None);
    assert_eq!(parse_dbus_string("no quotes here\n"), None);
}

#[test]
fn as_str_maps_default_kinds() {
    assert_eq!(BackendKind::Auto.as_str(), "auto");
    assert_eq!(BackendKind::Dummy.as_str(), "dummy");
    assert_eq!(BackendKind::WlClipboard.as_str(), "wl-clipboard");
    assert_eq!(BackendKind::ClipHist.as_str(), "cliphist");
}

#[test]
fn candidates_contain_dummy_but_not_auto() {
    let c = BackendKind::candidates();
    assert!(c.contains(&BackendKind::Dummy));
    assert!(!c.contains(&BackendKind::Auto));
    assert!(!c.is_empty());
}

#[test]
fn which_and_available_follow_stub_path() {
    // "wl-paste" and "wl-copy" exist.
    assert!(BackendKind::WlClipboard.available(&WL_TOOLS));
    assert!(!BackendKind::WlClipboard.available(&NO_TOOLS));
    // Dummy is always available regardless of PATH.
    assert!(BackendKind::Dummy.available(&NO_TOOLS));
}

#[test]
fn build_backends_dummy_yields_dummy_primary() {
    let b = build_backends(BackendKind::Dummy, &ALL_TOOLS, false);
    assert!(!b.is_empty());
    assert_eq!(b[0].name(), "dummy");
}

#[test]
fn build_backends_auto_falls_back_to_dummy_without_tools() {
    let b = build_backends(BackendKind::Auto, &NO_TOOLS, false);
    assert!(!b.is_empty());
    assert_eq!(b[0].name(), "dummy");
}

#[test]
fn is_dbus_marks_dbus_kinds_only() {
    // "klipper"
    assert!(BackendKind::Klipper.is_dbus());
    // "dbus"
    assert!(BackendKind::Dbus.is_dbus());
    // "wl-clipboard"
    assert!(!BackendKind::WlClipboard.is_dbus());
    assert!(!BackendKind::Dummy.is_dbus());
}

#[test]
fn push_primary_uses_wayland_when_dbus_disabled_and_tools_present() {
    // "wl-paste" and "wl-copy" exist.
    let mut out: Vec<Backend> = Vec::new();
    push_primary(&mut out, BackendKind::Klipper, &WL_TOOLS, true);
    assert_eq!(out.len(), 1);
    // DBus disabled: single integration becomes wl-clipboard.
    assert_eq!(out[0].name(), "wl-clipboard");
}

#[test]
fn push_primary_dbus_disabled_falls_back_to_dummy_without_tools() {
    let mut out: Vec<Backend> = Vec::new();
    push_primary(&mut out, BackendKind::Klipper, &NO_TOOLS, true);
    assert_eq!(out.len(), 1);
    assert_eq!(out[0].name(), "dummy");
}

#[test]
fn push_primary_keeps_dbus_when_wayland_not_running() {
    let mut out: Vec<Backend> = Vec::new();
    push_primary(&mut out, BackendKind::Klipper, &NO_TOOLS, false);
    assert_eq!(out.len(), 1);
    assert_eq!(out[0].name(), "klipper");
}

#[test]
fn wayland_clipboard_running_returns_a_bool() {
    let none: bool = wayland_clipboard_running(&vec![]);
    assert!(!none);
}

#[test]
fn wl_clipboard_available_detects_both_tools() {
    // "wl-paste" and "wl-copy" exist.
    assert!(WlClipboardBackend::available(&WL_TOOLS));
    assert!(BackendKind::WlClipboard.available(&WL_TOOLS));
    let half = Tools {
        wl_paste: true,
        ..NO_TOOLS
    };
    assert!(!WlClipboardBackend::available(&half));
}

#[test]
fn auto_backend_falls_back_to_dummy_when_no_tools() {
    let backends = build_backends(BackendKind::Auto, &NO_TOOLS, false);
    assert!(!backends.is_empty());
    assert_eq!(backends[0].name(), Backend::Dummy.name());
}

#[test]
fn backend_kind_as_str_maps_names() {
    assert_eq!(BackendKind::Auto.as_str(), "auto");
    assert_eq!(BackendKind::Dummy.as_str(), "dummy");
}

#[test]
fn dummy_is_always_available() {
    assert!(BackendKind::Dummy.available(&NO_TOOLS));
    assert!(BackendKind::Auto.available(&NO_TOOLS));
}

#[test]
fn other_tools_make_other_backends_available() {
    assert_eq!(BackendKind::Klipper.as_str(), "klipper");
    assert_eq!(BackendKind::Dbus.as_str(), "dbus");
    assert!(ClipHistBackend::available(&ALL_TOOLS));
    assert!(!BackendKind::ClipHist.available(&WL_TOOLS));
    assert!(DbusClipboardBackend::available(&ALL_TOOLS));
    assert!(BackendKind::Dbus.available(&ALL_TOOLS));
    assert!(!BackendKind::Klipper.available(&WL_TOOLS));
}

#[test]
fn auto_prefers_wl_clipboard_then_klipper() {
    let no_wl = Tools {
        wl_paste: false,
        ..ALL_TOOLS
    };
    assert_eq!(
        build_backends(BackendKind::Auto, &ALL_TOOLS, false),
        vec![Backend::WlClipboard, Backend::ClipHist]
    );
    assert_eq!(
        build_backends(BackendKind::Auto, &no_wl, false),
        vec![Backend::Klipper, Backend::ClipHist]
    );
    // Next to a running Wayland clipboard no DBus integration is chosen.
    assert_eq!(
        build_backends(BackendKind::Auto, &no_wl, true),
        vec![Backend::Dummy, Backend::ClipHist]
    );
}

#[test]
fn a_history_sink_gets_a_source() {
    assert_eq!(
        build_backends(BackendKind::ClipHist, &NO_TOOLS, false),
        vec![Backend::Dummy, Backend::ClipHist]
    );
    assert_eq!(
        build_backends(BackendKind::ClipHist, &ALL_TOOLS, false),
        vec![Backend::Dummy, Backend::ClipHist]
    );
}

#[test]
fn dbus_gives_way_to_wayland() {
    assert_eq!(
        build_backends(BackendKind::Dbus, &WL_TOOLS, true),
        vec![Backend::WlClipboard]
    );
    assert_eq!(
        build_backends(BackendKind::Dbus, &NO_TOOLS, true),
        vec![Backend::Dummy]
    );
    assert_eq!(
        build_backends(BackendKind::Dbus, &NO_TOOLS, false),
        vec![Backend::Dbus]
    );
}

fn process(name: &str, comm: Option<&str>, cmdline: Option<&[u8]>) -> ProcEntry {
    ProcEntry {
        name: name.to_string(),
        comm: comm.map(|c| c.to_string()),
        cmdline: cmdline.map(|c| c.to_vec()),
    }
}

#[test]
fn managers_are_found_by_comm() {
    assert!(wayland_clipboard_running(&vec![
        process("1", Some("init\n"), Some(b"/sbin/init\0")),
        process("22", Some("copyq\n"), None),
    ]));
    // Names that are not process ids are skipped.
    assert!(!wayland_clipboard_running(&vec![process(
        "self",
        Some("copyq\n"),
        None
    )]));
    assert!(!wayland_clipboard_running(&vec![process(
        "3",
        Some("copyq2\n"),
        None
    )]));
}

#[test]
fn managers_are_found_by_their_first_argument() {
    fn runs(cmdline: &[u8]) -> bool {
        wayland_clipboard_running(&vec![process("7", Some("truncated-name"), Some(cmdline))])
    }
    assert!(runs(b"wl-clipboard-manager\0--flag\0"));
    assert!(runs(b"/usr/bin/cliphist\0store\0"));
    assert!(runs(b"/usr/bin/clipman/\0"));
    assert!(runs(b"./noctalia/.\0"));
    assert!(!runs(b"/usr/bin/cliphist/..\0"));
    assert!(!runs(b"sh\0wl-paste\0"));
    assert!(!runs(b"/\0"));
    assert!(!runs(b".\0"));
    assert!(!runs(b""));
    // Not UTF-8.
    assert!(!runs(b"\xff/wl-copy\0"));
}

#[test]
fn only_the_first_quoted_string_counts() {
    assert_eq!(
        parse_dbus_string("string \"a\" string \"b\"\nstring \"c\""),
        Some("a".into())
    );
    // A line without a closing quote is passed over.
    assert_eq!(
        parse_dbus_string("string \"open\n  string \"closed\"\r\n"),
        Some("closed".into())
    );
    assert_eq!(parse_dbus_string(""), None);
    assert_eq!(parse_dbus_string("string \"\u{20ac} \u{e4}\""), Some("\u{20ac} \u{e4}".into()));
}

#[test]
fn backend_error_messages() {
    assert_eq!(
        BackendError::Unavailable("wl-clipboard".into(), "no tools".into()).message(),
        "backend `wl-clipboard` is not available on this system: no tools"
    );
    assert_eq!(BackendError::Io("broken pipe".into()).message(), "io error: broken pipe");
    assert_eq!(BackendError::Utf8("bad byte".into()).message(), "invalid UTF-8: bad byte");
    assert_eq!(BackendError::Other("odd".into()).message(), "operation failed: odd");
}
