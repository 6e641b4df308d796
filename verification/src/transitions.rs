//! What showing, hiding, sending and following do to the shell.
//!
//! Each operation is described as a function from what the shell holds to
//! what it holds afterwards.

use vstd::prelude::*;

use crate::manager;
use crate::manager::{SpecialWindow, Specials};
use crate::model;
use crate::model::{
    Effect, FloatingRestoreData, FocusTarget, KeyboardFocusTarget, OutputId, Seat, SeatId, SetView,
    SurfaceId, WindowId, WindowState, WorkspaceHandle, WorkspaceRestoreData,
};
use crate::seqs;
use crate::store::StoreView;
use crate::workspaces;

verus! {

/// What a shell holds.
#[verifier::ext_equal]
pub ghost struct ShellView {
    pub special: Specials,
    pub sets: Seq<SetView>,
    pub windows: Seq<WindowState>,
    pub effects: Seq<Effect>,
}

/// Which of its windows a special is asked for.
#[derive(Debug, Clone, Copy)]
pub enum Attachment {
    /// All of them.
    Any,
    /// Those attached to none.
    Detached,
    /// Those attached to a workspace other than this.
    Elsewhere(WorkspaceHandle),
}

impl Attachment {
    /// Whether an entry is one of those asked for.
    pub open spec fn fits(self, entry: SpecialWindow) -> bool {
        match self {
            Attachment::Any => true,
            Attachment::Detached => entry.attached_to is None,
            Attachment::Elsewhere(handle) => entry.attached_to is Some && entry.attached_to->0
                != handle,
        }
    }

    /// The entries asked for.
    pub open spec fn entries(self) -> spec_fn(SpecialWindow) -> bool {
        |e: SpecialWindow| self.fits(e)
    }

    /// The windows asked for, oldest member first.
    pub open spec fn windows(self, special: StoreView<SpecialWindow>) -> Seq<WindowId> {
        let fitting = special.entries.filter(self.entries());
        Seq::new(fitting.len(), |i: int| fitting[i].mapped)
    }
}

/// Where a send that waits for the compositor goes on.
#[derive(Debug, Clone, Copy, PartialEq, Eq, Structural)]
pub enum SendStage {
    /// The keyboard pointed at the fullscreen surface itself.
    Focused,
    /// The keyboard pointed at this window, which is mapped fullscreen.
    Mapped(WindowId),
}

/// What a send asks for next.
#[derive(Debug, Clone, Copy, PartialEq, Eq, Structural)]
pub enum SendStep {
    /// The send is over; the keyboard goes to the target, if there is one.
    Done(Option<KeyboardFocusTarget>),
    /// Unfullscreen `surface` and hand back the focus target that gives.
    Unfullscreen { surface: SurfaceId, stage: SendStage },
    /// Unmaximize `window`, then go on.
    Unmaximize { window: WindowId },
}

/// What detaching a window from its layout gives.
#[derive(Debug, Clone, Copy, PartialEq, Eq, Structural)]
pub enum DetachStep {
    /// The window is sticky and maximized, so it is mapped twice; it has to
    /// be unmaximized first.
    Unmaximize,
    /// The window left its layout with this state; `None` where no layout
    /// let it go.
    Done(Option<WorkspaceRestoreData>),
}

/// Whether a focus target is not to be handed the keyboard: it is parked in a
/// special, or it is a fullscreen surface and would cover the special.
pub open spec fn is_excluded(specials: Specials, target: FocusTarget) -> bool {
    match target {
        FocusTarget::Window(window) => manager::home(specials, window) is Some,
        FocusTarget::Fullscreen(_) => true,
    }
}

/// The focus targets that may be handed the keyboard.
pub open spec fn eligible(specials: Specials) -> spec_fn(FocusTarget) -> bool {
    |t: FocusTarget| !is_excluded(specials, t)
}

/// The keyboard target of a focus target.
pub open spec fn keyboard_target(target: FocusTarget) -> KeyboardFocusTarget {
    match target {
        FocusTarget::Window(window) => KeyboardFocusTarget::Element(window),
        FocusTarget::Fullscreen(surface) => KeyboardFocusTarget::Fullscreen(surface),
    }
}

/// The states of `window`.
pub open spec fn state_of(window: WindowId) -> spec_fn(WindowState) -> bool {
    |s: WindowState| s.id == window
}

/// Whether `window` is maximized.
pub open spec fn is_maximized(windows: Seq<WindowState>, window: WindowId) -> bool {
    match seqs::first(windows, state_of(window)) {
        Some(i) => windows[i].maximized,
        None => false,
    }
}

/// The specials in which `window`'s entry is what focus returns to.
pub open spec fn focus_remembered(specials: Specials, window: WindowId) -> Specials {
    let k = manager::home(specials, window)->0;
    specials.update(
        k,
        StoreView { last_focused: Some(manager::entry_of(specials, window)), ..specials[k] },
    )
}

/// An entry whose workspace is gone is attached to nothing.
pub open spec fn revalidated_entry(sets: Seq<SetView>, entry: SpecialWindow) -> SpecialWindow {
    if entry.attached_to is Some && !workspaces::has_handle(sets, entry.attached_to->0) {
        SpecialWindow { attached_to: None, ..entry }
    } else {
        entry
    }
}

/// The specials without attachments to workspaces that are gone.
pub open spec fn revalidated(specials: Specials, sets: Seq<SetView>) -> Specials {
    Seq::new(
        specials.len(),
        |i: int|
            StoreView {
                entries: Seq::new(
                    specials[i].entries.len(),
                    |a: int| revalidated_entry(sets, specials[i].entries[a]),
                ),
                ..specials[i]
            },
    )
}

/// The specials with `window`, where one holds it, attached to nothing.
pub open spec fn loosened(specials: Specials, window: WindowId) -> Specials {
    if manager::home(specials, window) is Some {
        manager::with_attachment(specials, window, None)
    } else {
        specials
    }
}

impl ShellView {
    /// After `window` was detached from the workspace of `output` that it
    /// floats on. A window that floats on none of them stays where it is.
    pub open spec fn detached(self, window: WindowId, output: OutputId) -> Self {
        match workspaces::floating_place(self.sets, output, window) {
            Some(place) => {
                let workspace = workspaces::at(self.sets, place);
                ShellView {
                    special: loosened(self.special, window),
                    sets: workspaces::with_workspace(
                        self.sets,
                        place,
                        workspace.unfloated(window),
                    ),
                    effects: self.effects.push(
                        Effect::UnmapFloating { handle: workspace.handle, window },
                    ).push(Effect::LeaveWorkspace { handle: workspace.handle, window }),
                    ..self
                }
            },
            None => self,
        }
    }

    /// After `window` was taken off every layout and out of every focus stack
    /// of every output.
    pub open spec fn withdrawn(self, window: WindowId) -> Self {
        ShellView {
            special: loosened(self.special, window),
            sets: workspaces::all_cleared(self.sets, window),
            effects: self.effects + workspaces::withdrawal(self.sets, window),
            ..self
        }
    }

    /// Whether detaching `window` finds it on a workspace of `output` and in a
    /// special.
    pub open spec fn detaches(self, window: WindowId, output: OutputId) -> bool {
        workspaces::floating_place(self.sets, output, window) is Some && manager::home(
            self.special,
            window,
        ) is Some
    }

    /// After `window` was attached to the active workspace of `output`.
    pub open spec fn attached(self, window: WindowId, output: OutputId) -> Self {
        match workspaces::active_place(self.sets, output) {
            Some(place) => {
                let workspace = workspaces::at(self.sets, place);
                ShellView {
                    special: if manager::home(self.special, window) is Some {
                        focus_remembered(
                            manager::with_attachment(
                                self.special,
                                window,
                                Some(workspace.handle),
                            ),
                            window,
                        )
                    } else {
                        self.special
                    },
                    sets: workspaces::with_workspace(self.sets, place, workspace.floated(window)),
                    effects: self.effects.push(
                        Effect::MapFloating { handle: workspace.handle, window },
                    ).push(Effect::EnterWorkspace { handle: workspace.handle, window }),
                    ..self
                }
            },
            None => self,
        }
    }

    /// The focus candidate that attaching `window` gives.
    pub open spec fn attach_focus(self, window: WindowId, output: OutputId) -> Option<
        KeyboardFocusTarget,
    > {
        if workspaces::active_place(self.sets, output) is Some && manager::home(
            self.special,
            window,
        ) is Some {
            Some(KeyboardFocusTarget::Element(window))
        } else {
            None
        }
    }

    /// After the maximized state of `window`, if it had one when it was sent,
    /// was asked back from the compositor.
    pub open spec fn remaximized(self, window: WindowId) -> Self {
        if manager::was_maximized(self.special, window) {
            ShellView {
                special: manager::maximized_taken(self.special, window),
                effects: self.effects.push(Effect::Maximize { window }),
                ..self
            }
        } else {
            self
        }
    }

    /// After each of `windows` was withdrawn, in order.
    pub open spec fn withdrawn_each(self, windows: Seq<WindowId>) -> Self
        decreases windows.len(),
    {
        if windows.len() == 0 {
            self
        } else {
            self.withdrawn_each(windows.drop_last()).withdrawn(windows.last())
        }
    }

    /// After each of `windows` was attached, in order.
    pub open spec fn attached_each(self, windows: Seq<WindowId>, output: OutputId) -> Self
        decreases windows.len(),
    {
        if windows.len() == 0 {
            self
        } else {
            self.attached_each(windows.drop_last(), output).attached(windows.last(), output)
        }
    }

    /// The focus candidate that the last of these attachments gives.
    pub open spec fn attached_each_focus(self, windows: Seq<WindowId>, output: OutputId) -> Option<
        KeyboardFocusTarget,
    > {
        if windows.len() == 0 {
            None
        } else {
            self.attached_each(windows.drop_last(), output).attach_focus(windows.last(), output)
        }
    }

    /// After each of `windows` got its maximized state back, in order.
    pub open spec fn remaximized_each(self, windows: Seq<WindowId>) -> Self
        decreases windows.len(),
    {
        if windows.len() == 0 {
            self
        } else {
            self.remaximized_each(windows.drop_last()).remaximized(windows.last())
        }
    }

    /// After each of `windows` that could be detached was attached to the
    /// active workspace, in order.
    pub open spec fn moved_each(self, windows: Seq<WindowId>, output: OutputId) -> Self
        decreases windows.len(),
    {
        if windows.len() == 0 {
            self
        } else {
            let before = self.moved_each(windows.drop_last(), output);
            let window = windows.last();
            if before.detaches(window, output) {
                before.detached(window, output).attached(window, output)
            } else {
                before.detached(window, output)
            }
        }
    }

    /// With special `idx` made visible or hidden.
    pub open spec fn with_shown(self, idx: int, shown: bool) -> Self {
        ShellView {
            special: self.special.update(idx, StoreView { shown, ..self.special[idx] }),
            ..self
        }
    }

    /// Without dead windows.
    pub open spec fn buried(self) -> Self {
        ShellView { special: manager::without_dead(self.special, self.windows), ..self }
    }

    /// With special `idx` in existence.
    pub open spec fn grown(self, idx: int) -> Self {
        ShellView { special: manager::grown(self.special, idx), ..self }
    }

    /// The regular window that the keyboard goes back to: the most recently
    /// focused one of the active workspace that is not parked in a special,
    /// else the base of the workspace's window stack.
    pub open spec fn focus_candidate(self, seat: SeatId, output: OutputId) -> Option<
        KeyboardFocusTarget,
    > {
        match workspaces::active_place(self.sets, output) {
            Some(place) => {
                let workspace = workspaces::at(self.sets, place);
                let stack = workspace.targets_of(seat);
                match seqs::first(stack, eligible(self.special)) {
                    Some(i) => Some(keyboard_target(stack[i])),
                    None => match workspace.base() {
                        Some(window) => Some(KeyboardFocusTarget::Element(window)),
                        None => None,
                    },
                }
            },
            None => None,
        }
    }

    /// With the window that has the keyboard, where it is a member of special
    /// `idx`, as the one that focus returns to.
    pub open spec fn with_focus_noted(self, idx: int, focus: Option<KeyboardFocusTarget>) -> Self {
        match focus {
            Some(KeyboardFocusTarget::Element(window)) => if manager::home(self.special, window)
                == Some(idx) {
                ShellView { special: focus_remembered(self.special, window), ..self }
            } else {
                self
            },
            _ => self,
        }
    }

    /// After the visible special `idx` was hidden.
    pub open spec fn hidden(self, idx: int, seat: Seat) -> Self {
        let hidden = self.with_shown(idx, false).with_focus_noted(idx, seat.focus);
        hidden.withdrawn_each(Attachment::Any.windows(hidden.special[idx]))
    }

    /// After the hidden special `idx` was shown, before windows that were
    /// maximized are maximized again.
    pub open spec fn placed(self, idx: int, output: OutputId) -> Self {
        let shown = self.with_shown(idx, true);
        shown.attached_each(Attachment::Detached.windows(shown.special[idx]), output)
    }

    /// After the hidden special `idx` was shown.
    pub open spec fn shown(self, idx: int, output: OutputId) -> Self {
        self.placed(idx, output).remaximized_each(
            Attachment::Detached.windows(self.special[idx]),
        )
    }

    /// The focus target of showing special `idx`: the window that focus
    /// returns to where it is attached, else the one that was attached last.
    pub open spec fn shown_focus(self, idx: int, output: OutputId) -> Option<KeyboardFocusTarget> {
        let last = self.with_shown(idx, true).attached_each_focus(
            Attachment::Detached.windows(self.special[idx]),
            output,
        );
        match self.special[idx].restored_focus() {
            Some(entry) => if manager::attached(self.shown(idx, output).special, entry.mapped) {
                Some(KeyboardFocusTarget::Element(entry.mapped))
            } else {
                last
            },
            None => last,
        }
    }

    /// After special `idx` was toggled.
    pub open spec fn toggled(self, idx: int, seat: Seat) -> Self {
        let ready = self.buried().grown(idx);
        if ready.special[idx].shown {
            ready.hidden(idx, seat)
        } else {
            ready.shown(idx, seat.active_output)
        }
    }

    /// The focus target of toggling special `idx`.
    pub open spec fn toggle_focus(self, idx: int, seat: Seat) -> Option<KeyboardFocusTarget> {
        let ready = self.buried().grown(idx);
        if ready.special[idx].shown {
            ready.hidden(idx, seat).focus_candidate(seat.id, seat.active_output)
        } else {
            ready.shown_focus(idx, seat.active_output)
        }
    }

    /// The surface that `window` is mapped fullscreen on.
    pub open spec fn fullscreen_surface(self, window: WindowId) -> Option<SurfaceId> {
        match seqs::first(self.windows, state_of(window)) {
            Some(i) => if workspaces::has_fullscreen(self.sets, self.windows[i].active_surface) {
                Some(self.windows[i].active_surface)
            } else {
                None
            },
            None => None,
        }
    }

    /// Whether `window` is on a sticky layer.
    pub open spec fn is_sticky(self, window: WindowId) -> bool {
        seqs::first(self.sets, workspaces::sticks(window)) is Some
    }

    /// After `window` left the sticky layer it is on.
    pub open spec fn unstuck(self, window: WindowId) -> Self {
        match seqs::first(self.sets, workspaces::sticks(window)) {
            Some(i) => ShellView {
                sets: self.sets.update(i, workspaces::unstuck(self.sets[i], window)),
                effects: self.effects.push(
                    Effect::UnmapSticky { output: self.sets[i].output, window },
                ),
                ..self
            },
            None => self,
        }
    }

    /// The state captured of `window` as it leaves the sticky layer.
    pub open spec fn sticky_restore(self, window: WindowId) -> Option<WorkspaceRestoreData> {
        match seqs::first(self.sets, workspaces::sticks(window)) {
            Some(i) => {
                let layer = self.sets[i].sticky_layer;
                Some(
                    WorkspaceRestoreData::Floating(
                        FloatingRestoreData {
                            geometry: layer[seqs::first(
                                layer,
                                model::sticky_of(window),
                            )->0].geometry,
                            output_size: self.sets[i].output_size,
                            was_maximized: false,
                            was_snapped: None,
                        },
                    ),
                )
            },
            None => None,
        }
    }

    /// After `window` left the workspace that maps it, unless the workspace
    /// refuses.
    pub open spec fn unmapped(self, window: WindowId) -> Self {
        match workspaces::mapped_place(self.sets, window) {
            Some(place) => {
                let workspace = workspaces::at(self.sets, place);
                if workspace.restore_of(window) is Some {
                    ShellView {
                        sets: workspaces::with_workspace(
                            self.sets,
                            place,
                            workspace.unmapped(window),
                        ),
                        effects: self.effects.push(
                            Effect::UnmapElement { handle: workspace.handle, window },
                        ).push(Effect::LeaveWorkspace { handle: workspace.handle, window }),
                        ..self
                    }
                } else {
                    self
                }
            },
            None => self,
        }
    }

    /// The state captured of `window` as it leaves its workspace.
    pub open spec fn mapped_restore(self, window: WindowId) -> Option<WorkspaceRestoreData> {
        match workspaces::mapped_place(self.sets, window) {
            Some(place) => workspaces::at(self.sets, place).restore_of(window),
            None => None,
        }
    }

    /// The shell and the step of detaching `window` from its layout.
    pub open spec fn detach_window(self, window: WindowId) -> (Self, DetachStep) {
        if self.is_sticky(window) {
            if is_maximized(self.windows, window) {
                (self, DetachStep::Unmaximize)
            } else {
                (self.unstuck(window), DetachStep::Done(self.sticky_restore(window)))
            }
        } else {
            (self.unmapped(window), DetachStep::Done(self.mapped_restore(window)))
        }
    }

    /// After a parked `window` was taken out of its special.
    pub open spec fn taken(self, window: WindowId) -> Self {
        let k = manager::home(self.special, window)->0;
        let a = seqs::first(self.special[k].entries, manager::is_window(window))->0;
        ShellView {
            special: self.special.update(k, self.special[k].without(a, window)),
            ..self
        }
    }

    /// After `entry` was put into special `idx`, hidden or visible as the
    /// special is.
    pub open spec fn delivered(self, idx: int, entry: SpecialWindow, output: OutputId) -> Self {
        let stored = self.stored(idx, entry);
        if stored.special[idx].shown {
            stored.attached(entry.mapped, output).remaximized(entry.mapped)
        } else {
            stored
        }
    }

    /// With `entry` in special `idx`.
    pub open spec fn stored(self, idx: int, entry: SpecialWindow) -> Self {
        let ready = self.grown(idx);
        ShellView {
            special: ready.special.update(idx, ready.special[idx].sent(entry)),
            ..ready
        }
    }

    /// The focus target of putting `entry` into special `idx`.
    pub open spec fn delivered_focus(self, idx: int, entry: SpecialWindow, seat: Seat) -> Option<
        KeyboardFocusTarget,
    > {
        let stored = self.stored(idx, entry);
        if stored.special[idx].shown {
            stored.attach_focus(entry.mapped, seat.active_output)
        } else {
            stored.focus_candidate(seat.id, seat.active_output)
        }
    }

    /// The entry that a window gets when it leaves its layout with `restore`.
    pub open spec fn new_entry(window: WindowId, restore: WorkspaceRestoreData) -> SpecialWindow {
        SpecialWindow { mapped: window, restore: Some(restore), attached_to: None }
    }

    /// The shell and the step once `window` is known not to be fullscreen.
    pub open spec fn send_settled(self, idx: int, seat: Seat, window: WindowId) -> (Self, SendStep) {
        if manager::home(self.special, window) is Some {
            let withdrawn = self.withdrawn(window);
            let entry = manager::entry_of(withdrawn.special, window);
            (
                withdrawn.taken(window).delivered(idx, entry, seat.active_output),
                SendStep::Done(withdrawn.taken(window).delivered_focus(idx, entry, seat)),
            )
        } else {
            let (detached, step) = self.detach_window(window);
            match step {
                DetachStep::Unmaximize => (self, SendStep::Unmaximize { window }),
                DetachStep::Done(restore) => detached.send_detached(idx, seat, window, restore),
            }
        }
    }

    /// The shell and the step once `window` left its layout, or did not.
    pub open spec fn send_detached(
        self,
        idx: int,
        seat: Seat,
        window: WindowId,
        restore: Option<WorkspaceRestoreData>,
    ) -> (Self, SendStep) {
        match restore {
            Some(restore) => {
                let entry = Self::new_entry(window, restore);
                (
                    self.delivered(idx, entry, seat.active_output),
                    SendStep::Done(self.delivered_focus(idx, entry, seat)),
                )
            },
            None => (self, SendStep::Done(None)),
        }
    }

    /// The shell and the step once the sticky `window` is not maximized any
    /// more.
    pub open spec fn send_unmaximized(self, idx: int, seat: Seat, window: WindowId) -> (
        Self,
        SendStep,
    ) {
        self.unstuck(window).send_detached(idx, seat, window, self.sticky_restore(window))
    }

    /// The shell and the step once the window to send is known.
    pub open spec fn send_window(self, idx: int, seat: Seat, window: WindowId) -> (Self, SendStep) {
        match self.fullscreen_surface(window) {
            Some(surface) => (
                self,
                SendStep::Unfullscreen { surface, stage: SendStage::Mapped(window) },
            ),
            None => self.send_settled(idx, seat, window),
        }
    }

    /// The shell and the first step of sending the focused window.
    pub open spec fn send_current(self, idx: int, seat: Seat) -> (Self, SendStep) {
        match seat.focus {
            Some(KeyboardFocusTarget::Element(window)) => self.buried().send_window(
                idx,
                seat,
                window,
            ),
            Some(KeyboardFocusTarget::Fullscreen(surface)) => (
                self.buried(),
                SendStep::Unfullscreen { surface, stage: SendStage::Focused },
            ),
            _ => (self.buried(), SendStep::Done(None)),
        }
    }

    /// The shell and the step once the compositor answered a request to
    /// unfullscreen.
    pub open spec fn send_unfullscreened(
        self,
        idx: int,
        seat: Seat,
        stage: SendStage,
        reply: Option<KeyboardFocusTarget>,
    ) -> (Self, SendStep) {
        match (stage, reply) {
            (SendStage::Focused, Some(KeyboardFocusTarget::Element(window))) => self.send_window(
                idx,
                seat,
                window,
            ),
            (SendStage::Focused, _) => (self, SendStep::Done(None)),
            (
                SendStage::Mapped(_),
                Some(KeyboardFocusTarget::Element(remapped)),
            ) => self.send_settled(idx, seat, remapped),
            (SendStage::Mapped(window), _) => self.send_settled(idx, seat, window),
        }
    }

    /// After special `k` followed to the active workspace, `current`.
    pub open spec fn followed_special(
        self,
        k: int,
        output: OutputId,
        current: WorkspaceHandle,
    ) -> Self {
        if self.special[k].shown {
            self.moved_each(Attachment::Elsewhere(current).windows(self.special[k]), output)
        } else {
            self
        }
    }

    /// After the first `n` specials followed to the active workspace.
    pub open spec fn followed_first(
        self,
        n: int,
        output: OutputId,
        current: WorkspaceHandle,
    ) -> Self
        decreases n,
    {
        if n <= 0 {
            self
        } else {
            self.followed_first(n - 1, output, current).followed_special(n - 1, output, current)
        }
    }

    /// After the visible specials followed to the newly active workspace of
    /// `output`.
    pub open spec fn followed(self, output: OutputId) -> Self {
        if manager::any_shown(self.special) {
            let valid = ShellView { special: revalidated(self.special, self.sets), ..self };
            match workspaces::active_place(self.sets, output) {
                Some(place) => valid.followed_first(
                    valid.special.len() as int,
                    output,
                    workspaces::at(self.sets, place).handle,
                ),
                None => valid,
            }
        } else {
            self
        }
    }
}

/// Specials made on demand are empty, so every window keeps its one home.
pub proof fn lemma_grown_one_home(specials: Specials, idx: int)
    requires
        0 <= idx,
    ensures
        manager::one_home(specials) ==> manager::one_home(manager::grown(specials, idx)),
{
    let after = manager::grown(specials, idx);
    if manager::one_home(specials) {
        assert forall|i: int, a: int|
            0 <= i < after.len() && 0 <= a < after[i].entries.len() implies i < specials.len()
            && #[trigger] after[i].entries[a] == specials[i].entries[a] by {}
    }
}

/// Showing a special without windows changes its visibility alone and gives
/// no focus target.
pub proof fn lemma_show_empty(shell: ShellView, idx: int, output: OutputId)
    requires
        0 <= idx < shell.special.len(),
        shell.special[idx].entries.len() == 0,
    ensures
        shell.shown(idx, output) == shell.with_shown(idx, true),
        shell.shown_focus(idx, output) is None,
{
    reveal(Seq::filter);
    assert(Attachment::Detached.windows(shell.special[idx]) =~= Seq::empty());
    assert(Attachment::Detached.windows(shell.with_shown(idx, true).special[idx]) =~= Seq::empty());
}

/// A window without a home gets exactly one.
pub proof fn lemma_stored_one_home(shell: ShellView, idx: int, entry: SpecialWindow)
    requires
        0 <= idx,
    ensures
        manager::one_home(shell.special) && manager::home(shell.special, entry.mapped) is None
            ==> manager::one_home(shell.stored(idx, entry).special),
{
    if manager::one_home(shell.special) && manager::home(shell.special, entry.mapped) is None {
        lemma_grown_one_home(shell.special, idx);
        manager::lemma_home(shell.special, entry.mapped);
        let ready = manager::grown(shell.special, idx);
        let after = shell.stored(idx, entry).special;
        assert forall|i: int, a: int|
            0 <= i < ready.len() && 0 <= a < ready[i].entries.len() implies (
        #[trigger] ready[i].entries[a]).mapped != entry.mapped by {
            assert(i < shell.special.len());
            assert(!manager::holds(shell.special[i], entry.mapped));
            assert(ready[i].entries[a] == shell.special[i].entries[a]);
        }
        assert forall|i: int, a: int|
            0 <= i < after.len() && 0 <= a < after[i].entries.len() implies (if i == idx && a
            == ready[idx].entries.len() {
            #[trigger] after[i].entries[a] == entry
        } else {
            a < ready[i].entries.len() && after[i].entries[a] == ready[i].entries[a]
        }) by {}
    }
}

/// Taking a window out leaves the others in their one home, and the window
/// without a home.
pub proof fn lemma_taken_one_home(shell: ShellView, window: WindowId)
    requires
        manager::home(shell.special, window) is Some,
    ensures
        manager::one_home(shell.special) ==> {
            &&& manager::one_home(shell.taken(window).special)
            &&& manager::home(shell.taken(window).special, window) is None
        },
{
    if manager::one_home(shell.special) {
        manager::lemma_home(shell.special, window);
        let k = manager::home(shell.special, window)->0;
        let a = seqs::first(shell.special[k].entries, manager::is_window(window))->0;
        let before = shell.special;
        let after = shell.taken(window).special;
        assert forall|i: int, b: int|
            0 <= i < after.len() && 0 <= b < after[i].entries.len() implies (if i == k && b >= a {
            #[trigger] after[i].entries[b] == before[i].entries[b + 1]
        } else {
            after[i].entries[b] == before[i].entries[b]
        }) by {}
        assert forall|i: int, b: int|
            0 <= i < after.len() && 0 <= b < after[i].entries.len() implies (
        #[trigger] after[i].entries[b]).mapped != window by {
            if i == k && b >= a {
                assert(before[i].entries[b + 1].mapped != before[k].entries[a].mapped);
            } else {
                assert(before[i].entries[b].mapped != before[k].entries[a].mapped);
            }
        }
        manager::lemma_home(after, window);
    }
}

/// Withdrawing a parked window leaves it where it is parked.
pub proof fn lemma_withdrawn_home(shell: ShellView, window: WindowId)
    requires
        manager::home(shell.special, window) is Some,
    ensures
        manager::home(shell.withdrawn(window).special, window) == manager::home(
            shell.special,
            window,
        ),
{
    lemma_attachment_home(shell.special, window, None);
}

/// Detaching and attaching a window neither makes nor removes a special.
pub proof fn lemma_special_count(shell: ShellView, window: WindowId, output: OutputId)
    ensures
        shell.detached(window, output).special.len() == shell.special.len(),
        shell.attached(window, output).special.len() == shell.special.len(),
{
    manager::lemma_home(shell.special, window);
    if manager::home(shell.special, window) is Some
        && workspaces::active_place(shell.sets, output) is Some {
        let place = workspaces::active_place(shell.sets, output)->0;
        lemma_attachment_home(
            shell.special,
            window,
            Some(workspaces::at(shell.sets, place).handle),
        );
    }
}

/// Changing what a parked window is attached to leaves it where it is parked.
pub proof fn lemma_attachment_home(
    specials: Specials,
    window: WindowId,
    handle: Option<WorkspaceHandle>,
)
    requires
        manager::home(specials, window) is Some,
    ensures
        manager::home(manager::with_attachment(specials, window, handle), window) == manager::home(
            specials,
            window,
        ),
        manager::entry_of(manager::with_attachment(specials, window, handle), window) == (
        SpecialWindow { attached_to: handle, ..manager::entry_of(specials, window) }),
{
    let after = manager::with_attachment(specials, window, handle);
    manager::lemma_home(specials, window);
    seqs::lemma_first(specials, manager::holding(window));
    let k = manager::home(specials, window)->0;
    let p = manager::is_window(window);
    seqs::lemma_first(specials[k].entries, p);
    let a = seqs::first(specials[k].entries, p)->0;
    assert(after[k].entries[a].mapped == window);
    seqs::lemma_first_at(after, manager::holding(window), k);
    seqs::lemma_first_at(after[k].entries, p, a);
}

} // verus!
