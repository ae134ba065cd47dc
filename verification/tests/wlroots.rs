use lan_mouse_clipboard::wlroots::{
    seam_is_representable, seam_target, warp_is_representable, warp_to_edge, Axis, Consumed, Event,
    Flush, FlushState, KeyboardEvent, OutputGeom, OutputTable, PointerEvent, PointerSide, Request,
    VirtualInput, Warp, XMods, LOCK_MASK, MOD1_MASK, MOD2_MASK, MOD4_MASK, SHIFT_MASK,
};

fn geom(x: i32, y: i32, w: i32, h: i32) -> OutputGeom {
    OutputGeom {
        name: String::new(),
        position: (x, y),
        size: (w, h),
    }
}

#[test]
fn no_outputs_have_no_seam() {
    assert_eq!(seam_target(&vec![], PointerSide::Left, 12), None);
    assert!(warp_is_representable(&vec![], PointerSide::Left));
    assert_eq!(warp_to_edge(&vec![], PointerSide::Left), None);
}

#[test]
fn seams_of_a_layout() {
    let geoms = vec![
        geom(0, 100, 1920, 1080),
        geom(1920, 0, 2560, 1440),
        geom(0, 1180, 800, 601),
    ];
    let bounds = ((0, 0), (4480, 1781));
    for (side, target) in [
        // The first of two outputs at the left edge.
        (PointerSide::Left, (12, 640)),
        (PointerSide::Right, (4468, 720)),
        (PointerSide::Top, (3200, 12)),
        (PointerSide::Bottom, (400, 1769)),
    ] {
        assert_eq!(
            seam_target(&geoms, side, 12),
            Some((target, bounds.0, bounds.1))
        );
    }
}

#[test]
fn the_last_of_equal_right_edges_wins() {
    let geoms = vec![geom(0, 0, 100, 100), geom(0, 100, 100, 300)];
    let seam = seam_target(&geoms, PointerSide::Right, 10).expect("seam");
    assert_eq!(seam.0, (90, 250));
    let seam = seam_target(&geoms, PointerSide::Left, 10).expect("seam");
    assert_eq!(seam.0, (10, 50));
}

#[test]
fn warps_are_relative_to_the_layout() {
    let geoms = vec![geom(-1920, -100, 1920, 1080), geom(0, 0, 1920, 1080)];
    assert!(warp_is_representable(&geoms, PointerSide::Left));
    assert_eq!(
        warp_to_edge(&geoms, PointerSide::Left),
        Some(Warp {
            x: 12,
            y: 540,
            width: 3840,
            height: 1180
        })
    );
    assert_eq!(
        warp_to_edge(&geoms, PointerSide::Bottom),
        Some(Warp {
            x: 2880,
            y: 1168,
            width: 3840,
            height: 1180
        })
    );
}

#[test]
fn small_layouts_clamp_and_empty_ones_are_skipped() {
    assert_eq!(
        warp_to_edge(&vec![geom(0, 0, 5, 5)], PointerSide::Right),
        Some(Warp {
            x: 0,
            y: 2,
            width: 5,
            height: 5
        })
    );
    assert_eq!(
        warp_to_edge(&vec![geom(0, 0, 5, 5)], PointerSide::Left),
        Some(Warp {
            x: 5,
            y: 2,
            width: 5,
            height: 5
        })
    );
    assert_eq!(warp_to_edge(&vec![geom(0, 0, 0, 5)], PointerSide::Left), None);
}

#[test]
fn coordinates_that_do_not_fit_are_noticed() {
    assert!(!seam_is_representable(
        &vec![geom(i32::MAX, 0, 1, 1)],
        PointerSide::Left,
        0
    ));
    assert!(!seam_is_representable(
        &vec![geom(i32::MAX - 5, 0, 1, 1)],
        PointerSide::Left,
        12
    ));
    assert!(seam_is_representable(
        &vec![geom(i32::MAX - 5, 0, 1, 1)],
        PointerSide::Right,
        12
    ));
    let wide = vec![geom(i32::MIN, 0, 1, 1), geom(i32::MAX - 1, 0, 1, 1)];
    assert!(seam_is_representable(&wide, PointerSide::Left, 0));
    assert!(!warp_is_representable(&wide, PointerSide::Left));
}

#[test]
fn outputs_come_and_go() {
    let mut table = OutputTable::new();
    assert!(!table.register_global("wl_seat", 1));
    assert!(table.register_global("wl_output", 2));
    assert!(table.register_global("wl_output", 3));
    table.set_position(2, 10, 20);
    table.set_size(2, 30, 40);
    table.set_name(2, "DP-1".into());
    // Nothing is known before everything has arrived.
    assert!(table.geoms().is_empty());
    table.update_output_info(2);
    let geoms = table.geoms();
    assert_eq!(geoms.len(), 1);
    assert_eq!(geoms[0].name, "DP-1");
    assert_eq!((geoms[0].position, geoms[0].size), ((10, 20), (30, 40)));
    // An unknown output changes nothing.
    table.set_size(9, 1, 1);
    table.update_output_info(9);
    // A change is used when it is complete.
    table.set_size(2, 50, 60);
    assert_eq!(table.geoms()[0].size, (30, 40));
    table.update_output_info(2);
    assert_eq!(table.geoms()[0].size, (50, 60));
    table.update_output_info(3);
    assert_eq!(table.geoms().len(), 2);
    table.deregister_global(2);
    table.deregister_global(2);
    assert_eq!(table.geoms().len(), 1);
}

fn key(key: u32, state: u8) -> Event {
    Event::Keyboard(KeyboardEvent::Key {
        time: 5,
        key,
        state,
    })
}

#[test]
fn modifier_keys_report_modifiers() {
    let mut input = VirtualInput::new();
    assert_eq!(
        input.consume_event(key(30, 1)),
        Some(vec![Request::Key {
            time: 5,
            key: 30,
            state: 1
        }])
    );
    let mods = |depressed: u32, locked: u32| Request::Modifiers {
        depressed,
        latched: 0,
        locked,
        group: 0,
    };
    assert_eq!(input.consume_event(key(42, 1)).expect("sent")[1], mods(SHIFT_MASK, 0));
    assert_eq!(
        input.consume_event(key(100, 1)).expect("sent")[1],
        mods(SHIFT_MASK | MOD1_MASK, 0)
    );
    // Caps lock toggles on release.
    assert_eq!(
        input.consume_event(key(58, 1)).expect("sent")[1],
        mods(SHIFT_MASK | MOD1_MASK, 0)
    );
    assert_eq!(
        input.consume_event(key(58, 0)).expect("sent")[1],
        mods(SHIFT_MASK | MOD1_MASK, LOCK_MASK)
    );
    assert_eq!(
        input.consume_event(key(42, 0)).expect("sent")[1],
        mods(MOD1_MASK, LOCK_MASK)
    );
    assert_eq!(input.consume_event(key(58, 0)).expect("sent")[1], mods(MOD1_MASK, 0));
}

#[test]
fn the_sender_decides_about_modifiers() {
    let mut input = VirtualInput::new();
    let event = Event::Keyboard(KeyboardEvent::Modifiers {
        depressed: MOD4_MASK | 0x100,
        latched: 7,
        locked: MOD2_MASK,
        group: 3,
    });
    assert_eq!(
        input.consume_event(event),
        Some(vec![Request::Modifiers {
            depressed: MOD4_MASK | 0x100,
            latched: 7,
            locked: MOD2_MASK,
            group: 3
        }])
    );
    // Only known modifiers are remembered.
    assert_eq!(
        input.consume_event(key(70, 1)).expect("sent")[1],
        Request::Modifiers {
            depressed: MOD4_MASK,
            latched: 0,
            locked: MOD2_MASK,
            group: 0
        }
    );
}

#[test]
fn modifier_masks() {
    let mut mods = XMods::from_bits_truncate(0x1ff);
    assert_eq!(mods.bits(), 0xff);
    assert_eq!(mods.mask_locks().bits(), 0x32);
    assert_eq!(mods.mask_pressed().bits(), 0x4d);
    assert!(!mods.update_by_key_event(1, 1));
    for (code, bit) in [(42, 0), (54, 0), (29, 2), (97, 2), (56, 3), (100, 3), (125, 6), (126, 6)] {
        mods = XMods::empty();
        assert!(mods.update_by_key_event(code, 1));
        assert_eq!(mods.bits(), 1u32 << bit);
        assert!(mods.update_by_key_event(code, 0));
        assert_eq!(mods.bits(), 0);
    }
    for (code, bit) in [(58, 1), (69, 4), (70, 5)] {
        mods = XMods::empty();
        assert!(mods.update_by_key_event(code, 1));
        assert_eq!(mods.bits(), 0);
        assert!(mods.update_by_key_event(code, 0));
        assert_eq!(mods.bits(), 1u32 << bit);
    }
}

#[test]
fn pointer_events_become_requests() {
    let mut input = VirtualInput::new();
    let dx = 1.5f64.to_bits();
    let dy = (-2.0f64).to_bits();
    assert_eq!(
        input.consume_event(Event::Pointer(PointerEvent::Motion { time: 1, dx, dy })),
        Some(vec![Request::Motion { time: 1, dx, dy }, Request::Frame])
    );
    assert_eq!(
        input.consume_event(Event::Pointer(PointerEvent::Button {
            time: 1,
            button: 272,
            state: 1
        })),
        Some(vec![
            Request::Button {
                time: 1,
                button: 272,
                pressed: true
            },
            Request::Frame
        ])
    );
    assert_eq!(
        input.consume_event(Event::Pointer(PointerEvent::Axis {
            time: 1,
            axis: 1,
            value: dx
        })),
        Some(vec![
            Request::Axis {
                time: 1,
                axis: Axis::HorizontalScroll,
                value: dx
            },
            Request::Frame,
            Request::Frame
        ])
    );
    assert_eq!(
        input.consume_event(Event::Pointer(PointerEvent::AxisDiscrete120 {
            axis: 0,
            value: -250
        })),
        Some(vec![
            Request::AxisDiscrete {
                axis: Axis::VerticalScroll,
                value: -250,
                steps: -2
            },
            Request::AxisSourceWheel,
            Request::Frame,
            Request::Frame
        ])
    );
}

#[test]
fn events_that_do_not_exist_are_refused() {
    let mut input = VirtualInput::new();
    assert_eq!(
        input.consume_event(Event::Pointer(PointerEvent::Button {
            time: 1,
            button: 1,
            state: 2
        })),
        None
    );
    assert_eq!(
        input.consume_event(Event::Pointer(PointerEvent::Axis {
            time: 1,
            axis: 2,
            value: 0
        })),
        None
    );
    assert_eq!(
        input.consume_event(Event::Pointer(PointerEvent::AxisDiscrete120 { axis: 2, value: 120 })),
        None
    );
}

#[test]
fn a_full_buffer_discards_events_until_it_drains() {
    let mut state = FlushState::new();
    assert!(!state.flush_first());
    assert_eq!(state.flushed(Flush::WouldBlock), Consumed::Sent);
    assert!(state.flush_first());
    assert!(!state.proceed(Flush::WouldBlock));
    assert!(state.proceed(Flush::Done));
    assert!(state.proceed(Flush::Failed));
    assert_eq!(state.flushed(Flush::Done), Consumed::Sent);
    assert!(!state.flush_first());
    assert_eq!(state.flushed(Flush::Protocol), Consumed::Violation);
    assert_eq!(state.flushed(Flush::Failed), Consumed::Error);
    assert!(!state.flush_first());
}
