use cosmic_workspaces::geometry::{Point, Rect, Size};
use cosmic_workspaces::manager::SpecialWorkspaceManager;
use cosmic_workspaces::model::{
    Effect, FloatingRestoreData, FocusTarget, KeyboardFocusTarget, MappedElement, OutputId,
    RestoreToken, Seat, SeatId, SeatStack, StickyElement, SurfaceId, TilingRestoreData, WindowId,
    WindowState, Workspace, WorkspaceHandle, WorkspaceRestoreData, WorkspaceSet,
};
use cosmic_workspaces::shell::Shell;
use cosmic_workspaces::transitions::{DetachStep, SendStage, SendStep};
use cosmic_workspaces::workspaces::Workspaces;

const LEFT: OutputId = OutputId(1);
const RIGHT: OutputId = OutputId(2);
const SEAT: SeatId = SeatId(1);
const TILED: WindowId = WindowId(1);
const FLOATING: WindowId = WindowId(2);
const STICKY: WindowId = WindowId(3);
const STUBBORN: WindowId = WindowId(4);
const FIRST: WorkspaceHandle = WorkspaceHandle(10);
const SECOND: WorkspaceHandle = WorkspaceHandle(11);
const OTHER: WorkspaceHandle = WorkspaceHandle(20);

fn surface_of(window: WindowId) -> SurfaceId {
    SurfaceId(window.0 + 100)
}

fn window(id: WindowId) -> WindowState {
    WindowState {
        id,
        active_surface: surface_of(id),
        maximized: false,
        alive: true,
    }
}

fn tiling_restore(was_maximized: bool) -> WorkspaceRestoreData {
    WorkspaceRestoreData::Tiling(TilingRestoreData {
        state: Some(RestoreToken(5)),
        was_maximized,
    })
}

fn rect() -> Rect {
    Rect {
        loc: Point { x: 40, y: 30 },
        size: Size { w: 400, h: 300 },
    }
}

fn floating_restore(was_maximized: bool) -> WorkspaceRestoreData {
    WorkspaceRestoreData::Floating(FloatingRestoreData {
        geometry: rect(),
        output_size: Size { w: 1920, h: 1080 },
        was_maximized,
        was_snapped: None,
    })
}

fn workspace(handle: WorkspaceHandle) -> Workspace {
    Workspace {
        handle,
        floating: vec![],
        tiling: vec![],
        fullscreen: vec![],
        focus_stack: vec![],
    }
}

/// Two outputs: the left one with two workspaces, the first of them active
/// and holding a tiled and a floating window and one that it would not let go,
/// and a sticky window; the right one with one empty workspace.
fn shell() -> Shell {
    let mut first = workspace(FIRST);
    first.tiling.push(MappedElement {
        window: TILED,
        restore: Some(tiling_restore(true)),
    });
    first.tiling.push(MappedElement {
        window: STUBBORN,
        restore: None,
    });
    first.floating.push(MappedElement {
        window: FLOATING,
        restore: Some(floating_restore(false)),
    });
    first.focus_stack.push(SeatStack {
        seat: SEAT,
        targets: vec![
            FocusTarget::Fullscreen(SurfaceId(77)),
            FocusTarget::Window(TILED),
            FocusTarget::Window(STICKY),
            FocusTarget::Window(FLOATING),
        ],
    });
    Shell {
        special: SpecialWorkspaceManager::default(),
        workspaces: Workspaces {
            sets: vec![
                WorkspaceSet {
                    output: LEFT,
                    output_size: Size { w: 1920, h: 1080 },
                    active: 0,
                    sticky_layer: vec![StickyElement {
                        window: STICKY,
                        geometry: rect(),
                    }],
                    workspaces: vec![first, workspace(SECOND)],
                },
                WorkspaceSet {
                    output: RIGHT,
                    output_size: Size { w: 800, h: 600 },
                    active: 0,
                    sticky_layer: vec![],
                    workspaces: vec![workspace(OTHER)],
                },
            ],
        },
        windows: vec![
            window(TILED),
            window(FLOATING),
            window(STICKY),
            window(STUBBORN),
        ],
        effects: vec![],
    }
}

fn seat_on(output: OutputId, focus: Option<KeyboardFocusTarget>) -> Seat {
    Seat {
        id: SEAT,
        active_output: output,
        focus,
    }
}

fn focused(id: WindowId) -> Seat {
    seat_on(LEFT, Some(KeyboardFocusTarget::Element(id)))
}

fn element(id: WindowId) -> Option<KeyboardFocusTarget> {
    Some(KeyboardFocusTarget::Element(id))
}

/// Whether any layout or focus stack knows the window.
fn is_somewhere(shell: &Shell, id: WindowId) -> bool {
    shell.workspaces.sets.iter().any(|set| {
        set.sticky_layer.iter().any(|e| e.window == id)
            || set.workspaces.iter().any(|ws| {
                ws.maps(id)
                    || ws
                        .focus_stack
                        .iter()
                        .any(|s| s.targets.contains(&FocusTarget::Window(id)))
            })
    })
}

fn attachment(shell: &Shell, id: WindowId) -> Option<WorkspaceHandle> {
    let idx = shell.special.index_of(id).unwrap();
    let slot = shell.special.slot(idx).unwrap();
    let entry = slot.entries().iter().find(|e| e.mapped == id).unwrap();
    entry.attached_to
}

#[test]
fn sending_to_a_hidden_special_parks_the_window() {
    let mut shell = shell();
    let step = shell.special_send_current(&focused(TILED), 2);
    // The window had the keyboard; the next regular window in the stack gets
    // it. The fullscreen surface is passed over.
    assert_eq!(step, SendStep::Done(element(STICKY)));
    assert!(!is_somewhere(&shell, TILED));
    assert_eq!(shell.special.holder(TILED), Some((2, false)));
    assert_eq!(attachment(&shell, TILED), None);
    assert_eq!(shell.special.summary(), vec![(false, 0), (false, 0), (false, 1)]);
    assert_eq!(
        shell.effects,
        vec![
            Effect::UnmapElement { handle: FIRST, window: TILED },
            Effect::LeaveWorkspace { handle: FIRST, window: TILED },
        ]
    );
    let entry = shell.special.slot(2).unwrap().entries()[0];
    assert_eq!(entry.restore, Some(tiling_restore(true)));
}

#[test]
fn showing_floats_the_windows_and_maximizes_once() {
    let mut shell = shell();
    shell.special_send_current(&focused(TILED), 0);
    shell.special_send_current(&focused(FLOATING), 0);
    shell.effects.clear();

    let seat = seat_on(LEFT, None);
    assert_eq!(shell.special_toggle(&seat, 0), element(TILED));
    assert_eq!(shell.special.summary(), vec![(true, 2)]);
    assert!(shell.workspaces.sets[0].workspaces[0].floats(TILED));
    assert!(shell.workspaces.sets[0].workspaces[0].floats(FLOATING));
    assert_eq!(attachment(&shell, TILED), Some(FIRST));
    assert!(shell.special.is_attached(FLOATING));
    assert_eq!(
        shell.effects,
        vec![
            Effect::MapFloating { handle: FIRST, window: TILED },
            Effect::EnterWorkspace { handle: FIRST, window: TILED },
            Effect::MapFloating { handle: FIRST, window: FLOATING },
            Effect::EnterWorkspace { handle: FIRST, window: FLOATING },
            Effect::Maximize { window: TILED },
        ]
    );

    shell.effects.clear();
    assert_eq!(shell.special_toggle(&focused(TILED), 0), element(STICKY));
    assert!(!is_somewhere(&shell, TILED));
    assert!(!is_somewhere(&shell, FLOATING));
    assert_eq!(attachment(&shell, FLOATING), None);
    assert_eq!(
        shell.effects,
        vec![
            Effect::UnmapFloating { handle: FIRST, window: TILED },
            Effect::LeaveWorkspace { handle: FIRST, window: TILED },
            Effect::UnmapFloating { handle: FIRST, window: FLOATING },
            Effect::LeaveWorkspace { handle: FIRST, window: FLOATING },
        ]
    );

    // Shown again, focus goes to the window that had it, and nothing is
    // maximized a second time.
    shell.effects.clear();
    assert_eq!(shell.special_toggle(&seat, 0), element(TILED));
    assert!(!shell.effects.contains(&Effect::Maximize { window: TILED }));
}

#[test]
fn toggling_one_special_leaves_the_others() {
    let mut shell = shell();
    shell.special_send_current(&focused(TILED), 0);
    shell.special_send_current(&focused(FLOATING), 3);
    let seat = seat_on(LEFT, None);
    shell.special_toggle(&seat, 0);
    shell.special_toggle(&seat, 3);
    assert_eq!(
        shell.special.summary(),
        vec![(true, 1), (false, 0), (false, 0), (true, 1)]
    );
    shell.special_toggle(&seat, 0);
    assert_eq!(
        shell.special.summary(),
        vec![(false, 1), (false, 0), (false, 0), (true, 1)]
    );
    assert_eq!(attachment(&shell, FLOATING), Some(FIRST));
    shell.special_toggle(&seat, 0);
    assert_eq!(
        shell.special.summary(),
        vec![(true, 1), (false, 0), (false, 0), (true, 1)]
    );
}

#[test]
fn showing_an_empty_special_gives_no_focus() {
    let mut shell = shell();
    assert_eq!(shell.special_toggle(&seat_on(LEFT, None), 6), None);
    assert_eq!(shell.special.len(), 7);
    assert!(shell.special.slot(6).unwrap().shown());
    assert!(!shell.special.slot(5).unwrap().shown());
    assert!(shell.special.slot(7).is_none());
    assert!(shell.effects.is_empty());
}

#[test]
fn sending_to_a_shown_special_is_visible_at_once() {
    let mut shell = shell();
    shell.special_toggle(&seat_on(LEFT, None), 1);
    let step = shell.special_send_current(&focused(TILED), 1);
    assert_eq!(step, SendStep::Done(element(TILED)));
    assert_eq!(attachment(&shell, TILED), Some(FIRST));
    assert_eq!(
        shell.effects,
        vec![
            Effect::UnmapElement { handle: FIRST, window: TILED },
            Effect::LeaveWorkspace { handle: FIRST, window: TILED },
            Effect::MapFloating { handle: FIRST, window: TILED },
            Effect::EnterWorkspace { handle: FIRST, window: TILED },
            Effect::Maximize { window: TILED },
        ]
    );
}

#[test]
fn sending_a_parked_window_moves_it_between_specials() {
    let mut shell = shell();
    shell.special_send_current(&focused(TILED), 0);
    shell.special_toggle(&seat_on(LEFT, None), 0);
    shell.effects.clear();
    let step = shell.special_send_current(&focused(TILED), 4);
    assert_eq!(step, SendStep::Done(element(STICKY)));
    assert_eq!(shell.special.holder(TILED), Some((4, false)));
    assert_eq!(attachment(&shell, TILED), None);
    assert!(!is_somewhere(&shell, TILED));
    assert_eq!(
        shell.effects,
        vec![
            Effect::UnmapFloating { handle: FIRST, window: TILED },
            Effect::LeaveWorkspace { handle: FIRST, window: TILED },
        ]
    );
    assert!(shell.special.slot(0).unwrap().is_empty());
}

#[test]
fn a_layout_that_refuses_keeps_its_window() {
    let mut shell = shell();
    let step = shell.special_send_current(&focused(STUBBORN), 0);
    assert_eq!(step, SendStep::Done(None));
    assert_eq!(shell.special.len(), 0);
    assert!(shell.effects.is_empty());
    assert!(shell.workspaces.sets[0].workspaces[0].maps(STUBBORN));
    assert_eq!(shell.special_detach_window(STUBBORN), DetachStep::Done(None));
    assert_eq!(shell.special_detach_window(WindowId(99)), DetachStep::Done(None));
}

#[test]
fn nothing_is_sent_without_a_focused_window() {
    let mut shell = shell();
    let step = shell.special_send_current(&seat_on(LEFT, None), 0);
    assert_eq!(step, SendStep::Done(None));
    let elsewhere = seat_on(LEFT, Some(KeyboardFocusTarget::Other));
    assert_eq!(shell.special_send_current(&elsewhere, 0), SendStep::Done(None));
    assert_eq!(shell.special.len(), 0);
}

#[test]
fn a_focused_fullscreen_surface_is_unfullscreened_first() {
    let mut shell = shell();
    let surface = surface_of(TILED);
    let seat = seat_on(LEFT, Some(KeyboardFocusTarget::Fullscreen(surface)));
    let step = shell.special_send_current(&seat, 0);
    assert_eq!(
        step,
        SendStep::Unfullscreen { surface, stage: SendStage::Focused }
    );
    // No window came back: the send is refused.
    assert_eq!(
        shell.special_send_unfullscreened(&seat, 0, SendStage::Focused, None),
        SendStep::Done(None)
    );
    assert_eq!(
        shell.special_send_unfullscreened(
            &seat,
            0,
            SendStage::Focused,
            Some(KeyboardFocusTarget::Other)
        ),
        SendStep::Done(None)
    );
    assert_eq!(shell.special.len(), 0);
    // A window came back: it is sent.
    let step = shell.special_send_unfullscreened(&seat, 0, SendStage::Focused, element(TILED));
    assert_eq!(step, SendStep::Done(element(STICKY)));
    assert_eq!(shell.special.holder(TILED), Some((0, false)));
}

#[test]
fn a_focused_window_that_is_fullscreen_is_unfullscreened_first() {
    let mut shell = shell();
    shell.workspaces.sets[0].workspaces[1]
        .fullscreen
        .push(surface_of(TILED));
    assert_eq!(shell.fullscreen_surface_of(TILED), Some(surface_of(TILED)));
    assert_eq!(shell.fullscreen_surface_of(FLOATING), None);
    let seat = focused(TILED);
    let step = shell.special_send_current(&seat, 0);
    let stage = SendStage::Mapped(TILED);
    assert_eq!(
        step,
        SendStep::Unfullscreen { surface: surface_of(TILED), stage }
    );
    assert!(shell.effects.is_empty());
    // The compositor remapped it as another window: that one is sent.
    shell.workspaces.sets[0].workspaces[1].fullscreen.clear();
    let step = shell.special_send_unfullscreened(&seat, 0, stage, element(FLOATING));
    assert!(matches!(step, SendStep::Done(Some(_))));
    assert_eq!(shell.special.index_of(FLOATING), Some(0));
    assert_eq!(shell.special.index_of(TILED), None);
    // Without an answer the window itself is sent.
    let step = shell.special_send_unfullscreened(&seat, 1, stage, None);
    assert!(matches!(step, SendStep::Done(Some(_))));
    assert_eq!(shell.special.index_of(TILED), Some(1));
}

#[test]
fn a_sticky_window_keeps_its_geometry() {
    let mut shell = shell();
    let step = shell.special_send_current(&focused(STICKY), 0);
    assert_eq!(step, SendStep::Done(element(TILED)));
    assert!(!is_somewhere(&shell, STICKY));
    assert_eq!(
        shell.effects,
        vec![Effect::UnmapSticky { output: LEFT, window: STICKY }]
    );
    let entry = shell.special.slot(0).unwrap().entries()[0];
    assert_eq!(entry.restore, Some(floating_restore(false)));
}

#[test]
fn a_maximized_sticky_window_is_unmaximized_first() {
    let mut shell = shell();
    shell.windows[2].maximized = true;
    let seat = focused(STICKY);
    let step = shell.special_send_current(&seat, 0);
    assert_eq!(step, SendStep::Unmaximize { window: STICKY });
    assert_eq!(shell.special_detach_window(STICKY), DetachStep::Unmaximize);
    assert!(shell.effects.is_empty());
    shell.windows[2].maximized = false;
    let step = shell.special_send_unmaximized(&seat, 0, STICKY);
    assert_eq!(step, SendStep::Done(element(TILED)));
    assert_eq!(shell.special.holder(STICKY), Some((0, false)));
    // A window that is no longer sticky is not sent.
    assert_eq!(
        shell.special_send_unmaximized(&seat, 0, FLOATING),
        SendStep::Done(None)
    );
}

#[test]
fn visible_windows_follow_to_the_active_workspace() {
    let mut shell = shell();
    shell.special_send_current(&focused(TILED), 0);
    shell.special_send_current(&focused(FLOATING), 1);
    shell.special_toggle(&seat_on(LEFT, None), 0);
    shell.effects.clear();
    shell.workspaces.sets[0].active = 1;
    shell.special_follow(LEFT);
    assert_eq!(attachment(&shell, TILED), Some(SECOND));
    assert!(shell.workspaces.sets[0].workspaces[1].floats(TILED));
    assert!(!shell.workspaces.sets[0].workspaces[0].maps(TILED));
    // The hidden special stays hidden.
    assert_eq!(attachment(&shell, FLOATING), None);
    assert_eq!(
        shell.effects,
        vec![
            Effect::UnmapFloating { handle: FIRST, window: TILED },
            Effect::LeaveWorkspace { handle: FIRST, window: TILED },
            Effect::MapFloating { handle: SECOND, window: TILED },
            Effect::EnterWorkspace { handle: SECOND, window: TILED },
        ]
    );
    // A switch on another output does not touch the window, nor does a second
    // call on this one.
    shell.effects.clear();
    shell.special_follow(RIGHT);
    shell.special_follow(LEFT);
    assert!(shell.effects.is_empty());
}

#[test]
fn nothing_follows_while_nothing_is_shown() {
    let mut shell = shell();
    shell.special_send_current(&focused(TILED), 0);
    shell.effects.clear();
    shell.workspaces.sets[0].active = 1;
    shell.special_follow(LEFT);
    assert!(shell.effects.is_empty());
    assert_eq!(attachment(&shell, TILED), None);
}

#[test]
fn a_removed_output_leaves_windows_parked() {
    let mut shell = shell();
    shell.special_send_current(&focused(TILED), 0);
    shell.special_toggle(&seat_on(LEFT, None), 0);
    shell.effects.clear();
    shell.workspaces.sets.remove(0);
    shell.special_follow(LEFT);
    assert_eq!(attachment(&shell, TILED), None);
    assert_eq!(shell.special.holder(TILED), Some((0, true)));
    assert!(shell.effects.is_empty());
    // Hidden and shown again it appears on the output that is left.
    let seat = seat_on(RIGHT, None);
    shell.special_toggle(&seat, 0);
    assert_eq!(shell.special_toggle(&seat, 0), element(TILED));
    assert_eq!(attachment(&shell, TILED), Some(OTHER));
}

#[test]
fn revalidation_keeps_attachments_that_exist() {
    let mut shell = shell();
    shell.special_send_current(&focused(TILED), 0);
    shell.special_toggle(&seat_on(LEFT, None), 0);
    shell.special_revalidate_attachments();
    assert_eq!(attachment(&shell, TILED), Some(FIRST));
    shell.workspaces.sets[0].workspaces.remove(0);
    shell.special_revalidate_attachments();
    assert_eq!(attachment(&shell, TILED), None);
    shell.special_revalidate_attachments();
    assert_eq!(attachment(&shell, TILED), None);
}

#[test]
fn hiding_reaches_every_output() {
    let mut shell = shell();
    shell.special_send_current(&focused(TILED), 0);
    shell.special_toggle(&seat_on(LEFT, None), 0);
    shell.effects.clear();
    // The seat has moved to the other output; the window is hidden all the
    // same.
    assert_eq!(shell.special_toggle(&seat_on(RIGHT, None), 0), None);
    assert_eq!(shell.special.holder(TILED), Some((0, false)));
    assert_eq!(attachment(&shell, TILED), None);
    assert!(!is_somewhere(&shell, TILED));
    assert_eq!(
        shell.effects,
        vec![
            Effect::UnmapFloating { handle: FIRST, window: TILED },
            Effect::LeaveWorkspace { handle: FIRST, window: TILED },
        ]
    );
    // Shown again it appears where the seat is.
    assert_eq!(
        shell.special_toggle(&seat_on(RIGHT, None), 0),
        element(TILED)
    );
    assert_eq!(attachment(&shell, TILED), Some(OTHER));
}

#[test]
fn hiding_takes_windows_off_whatever_layout_they_are_on() {
    let mut shell = shell();
    shell.special_send_current(&focused(TILED), 0);
    shell.special_send_current(&focused(FLOATING), 0);
    let seat = seat_on(LEFT, None);
    shell.special_toggle(&seat, 0);
    shell.effects.clear();
    // Meanwhile the user tiled one of the windows and made the other sticky.
    let set = &mut shell.workspaces.sets[0];
    set.workspaces[0].floating.clear();
    set.workspaces[0].tiling.push(MappedElement {
        window: TILED,
        restore: Some(tiling_restore(false)),
    });
    set.sticky_layer.push(StickyElement {
        window: FLOATING,
        geometry: rect(),
    });
    set.workspaces[1].focus_stack.push(SeatStack {
        seat: SEAT,
        targets: vec![FocusTarget::Window(FLOATING), FocusTarget::Window(TILED)],
    });
    shell.special_toggle(&seat, 0);
    assert!(!is_somewhere(&shell, TILED));
    assert!(!is_somewhere(&shell, FLOATING));
    assert_eq!(attachment(&shell, TILED), None);
    assert_eq!(attachment(&shell, FLOATING), None);
    assert_eq!(
        shell.effects,
        vec![
            Effect::UnmapElement { handle: FIRST, window: TILED },
            Effect::LeaveWorkspace { handle: FIRST, window: TILED },
            Effect::Unfocus { handle: SECOND, window: TILED },
            Effect::UnmapSticky { output: LEFT, window: FLOATING },
        ]
    );
    // Other windows stay where they are.
    assert!(shell.workspaces.sets[0].workspaces[0].maps(STUBBORN));
    assert!(is_somewhere(&shell, STICKY));
}

#[test]
fn a_window_whose_workspace_is_gone_can_be_shown_again() {
    let mut shell = shell();
    shell.special_send_current(&focused(TILED), 0);
    let seat = seat_on(LEFT, None);
    shell.special_toggle(&seat, 0);
    shell.workspaces.sets[0].workspaces.remove(0);
    shell.effects.clear();
    shell.special_toggle(&seat, 0);
    assert_eq!(attachment(&shell, TILED), None);
    assert!(shell.effects.is_empty());
    assert_eq!(shell.special_toggle(&seat, 0), element(TILED));
    assert_eq!(attachment(&shell, TILED), Some(SECOND));
    assert!(shell.workspaces.sets[0].workspaces[0].floats(TILED));
}

#[test]
fn a_closed_member_does_not_follow_and_is_dropped() {
    let mut shell = shell();
    shell.special_send_current(&focused(TILED), 0);
    shell.special_send_current(&focused(FLOATING), 0);
    let seat = seat_on(LEFT, None);
    shell.special_toggle(&seat, 0);
    // The window closes and leaves its layout.
    shell.windows[0].alive = false;
    let set = &mut shell.workspaces.sets[0];
    set.workspaces[0].floating.retain(|e| e.window != TILED);
    set.active = 1;
    shell.effects.clear();
    shell.special_follow(LEFT);
    assert_eq!(attachment(&shell, TILED), Some(FIRST));
    assert_eq!(attachment(&shell, FLOATING), Some(SECOND));
    assert!(!is_somewhere(&shell, TILED));
    shell.special_toggle(&seat, 0);
    assert_eq!(shell.special.summary(), vec![(false, 1)]);
    assert!(!is_somewhere(&shell, FLOATING));
}

#[test]
fn a_dead_window_is_still_asked_for_its_state() {
    let mut shell = shell();
    shell.windows[0].alive = false;
    shell.workspaces.sets[0].workspaces[1]
        .fullscreen
        .push(surface_of(TILED));
    assert_eq!(shell.fullscreen_surface_of(TILED), Some(surface_of(TILED)));
    shell.windows[2].alive = false;
    shell.windows[2].maximized = true;
    assert_eq!(shell.special_detach_window(STICKY), DetachStep::Unmaximize);
}

#[test]
fn moving_between_specials_reaches_every_output() {
    let mut shell = shell();
    shell.special_send_current(&focused(TILED), 0);
    shell.special_toggle(&seat_on(LEFT, None), 0);
    shell.effects.clear();
    let seat = seat_on(RIGHT, element(TILED));
    assert_eq!(shell.special_send_current(&seat, 3), SendStep::Done(None));
    assert_eq!(shell.special.holder(TILED), Some((3, false)));
    assert_eq!(attachment(&shell, TILED), None);
    assert!(!is_somewhere(&shell, TILED));
    assert_eq!(
        shell.effects,
        vec![
            Effect::UnmapFloating { handle: FIRST, window: TILED },
            Effect::LeaveWorkspace { handle: FIRST, window: TILED },
        ]
    );
}

#[test]
fn focus_returns_to_the_window_that_had_it_when_hidden() {
    let mut shell = shell();
    shell.special_send_current(&focused(TILED), 0);
    shell.special_send_current(&focused(FLOATING), 0);
    let seat = seat_on(LEFT, None);
    shell.special_toggle(&seat, 0);
    for window in [TILED, FLOATING, TILED] {
        shell.special_toggle(&focused(window), 0);
        assert_eq!(shell.special_toggle(&seat, 0), element(window));
    }
    // A window of another special that has the keyboard is not remembered
    // here, and one that left the special is not focused.
    shell.special_send_current(&focused(STICKY), 1);
    shell.special_toggle(&focused(TILED), 0);
    shell.special_send_current(&focused(TILED), 1);
    assert_eq!(shell.special_toggle(&focused(STICKY), 0), element(FLOATING));
    assert_eq!(shell.special.index_of(STICKY), Some(1));
}

#[test]
fn dead_windows_are_dropped() {
    let mut shell = shell();
    shell.special_send_current(&focused(TILED), 0);
    shell.special_send_current(&focused(FLOATING), 0);
    shell.windows.retain(|w| w.id != TILED);
    assert_eq!(shell.special_toggle(&seat_on(LEFT, None), 0), element(FLOATING));
    assert_eq!(shell.special.summary(), vec![(true, 1)]);
    assert_eq!(shell.special.holder(TILED), None);
}

#[test]
fn without_an_active_workspace_nothing_is_attached() {
    let mut shell = shell();
    shell.special_send_current(&focused(TILED), 0);
    shell.effects.clear();
    let nowhere = seat_on(OutputId(9), None);
    assert_eq!(shell.special_toggle(&nowhere, 0), None);
    assert_eq!(shell.special.holder(TILED), Some((0, true)));
    assert_eq!(attachment(&shell, TILED), None);
    // The maximized state is asked for all the same.
    assert_eq!(shell.effects, vec![Effect::Maximize { window: TILED }]);
}

#[test]
fn keyboard_falls_back_to_the_base_of_the_stack() {
    let mut shell = shell();
    assert_eq!(shell.special_focus_candidate(SEAT, LEFT), element(TILED));
    // An unknown seat has no stack: the base of the window stack gets it.
    assert_eq!(
        shell.special_focus_candidate(SeatId(8), LEFT),
        element(FLOATING)
    );
    assert_eq!(shell.special_focus_candidate(SEAT, RIGHT), None);
    assert_eq!(shell.special_focus_candidate(SEAT, OutputId(9)), None);
    shell.workspaces.sets[0].workspaces[0].floating.clear();
    assert_eq!(
        shell.special_focus_candidate(SeatId(8), LEFT),
        element(TILED)
    );
}

#[test]
fn attaching_an_unparked_window_gives_no_focus() {
    let mut shell = shell();
    assert_eq!(shell.special_attach_to_active(FLOATING, RIGHT), None);
    assert!(shell.workspaces.sets[1].workspaces[0].floats(FLOATING));
    assert_eq!(shell.special_detach_shown(FLOATING, RIGHT), None);
    assert!(!shell.workspaces.sets[1].workspaces[0].floats(FLOATING));
    assert_eq!(shell.special_detach_shown(TILED, LEFT), None);
}

#[test]
fn maximized_state_is_consumed_once() {
    let mut shell = shell();
    shell.special_send_current(&focused(TILED), 0);
    assert!(shell.special.take_was_maximized(TILED));
    assert!(!shell.special.take_was_maximized(TILED));
    assert!(!shell.special.take_was_maximized(FLOATING));
    let entry = shell.special.slot(0).unwrap().entries()[0];
    assert_eq!(entry.restore, Some(tiling_restore(false)));
}

#[test]
fn floating_maximized_state_is_consumed_once() {
    let mut shell = shell();
    shell.workspaces.sets[0].workspaces[0].floating[0].restore = Some(floating_restore(true));
    shell.special_send_current(&focused(FLOATING), 0);
    assert!(shell.special.take_was_maximized(FLOATING));
    assert!(!shell.special.take_was_maximized(FLOATING));
    shell.workspaces.sets[0].workspaces[0].tiling[0].restore =
        Some(WorkspaceRestoreData::Fullscreen(RestoreToken(1)));
    shell.special_send_current(&focused(TILED), 0);
    assert!(!shell.special.take_was_maximized(TILED));
    assert!(shell.special.shown_any() == false);
}
