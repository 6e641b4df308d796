//! Special workspaces: a second visibility domain on top of the regular
//! workspaces (the Hyprland `special` workspace / scratchpad concept).
//!
//! Windows in a special workspace stay mapped and alive at all times. While
//! the special workspace is hidden they are detached from every layout, so
//! nothing renders or focuses them. While shown they are attached to the
//! floating layer of the active workspace, which stacks them above tiled
//! windows.
//!
//! Specials are numbered and independent: showing one does not hide the
//! others.
//!
//! A [`Shell`] works on a picture of the compositor. Each call brings the
//! picture and the bookkeeping up to date and appends what has to be done to
//! the compositor to `effects`. Where a send needs an answer of the
//! compositor it stops with a [`SendStep`] and goes on once the answer, and a
//! new picture, are there.

use vstd::prelude::*;

use crate::focus::mru_focus_excluding;
use crate::manager;
use crate::manager::{SpecialWindow, SpecialWorkspaceManager};
use crate::model;
use crate::model::{
    Effect, FloatingRestoreData, FocusTarget, KeyboardFocusTarget, OutputId, Seat, SeatId,
    SurfaceId, WindowId, WindowState, WorkspaceRestoreData,
};
use crate::seqs;
use crate::store;
use crate::store::{SpecialStore, StoreView};
use crate::transitions;
use crate::transitions::{Attachment, DetachStep, SendStage, SendStep, ShellView};
use crate::workspaces;
use crate::workspaces::{Place, Workspaces};

verus! {

/// The special workspaces, and the picture of the compositor they work on.
#[derive(Debug)]
pub struct Shell {
    pub special: SpecialWorkspaceManager,
    pub workspaces: Workspaces,
    /// The windows that the compositor knows.
    pub windows: Vec<WindowState>,
    /// What has to be done to the compositor, in order.
    pub effects: Vec<Effect>,
}

impl View for Shell {
    type V = ShellView;

    open spec fn view(&self) -> ShellView {
        ShellView {
            special: self.special@,
            sets: self.workspaces@,
            windows: self.windows@,
            effects: self.effects@,
        }
    }
}

impl Attachment {
    /// Whether an entry is one of those asked for.
    fn is_fit(&self, entry: &SpecialWindow) -> (r: bool)
        ensures
            r == self.fits(*entry),
    {
        match *self {
            Attachment::Any => true,
            Attachment::Detached => entry.attached_to.is_none(),
            Attachment::Elsewhere(handle) => match entry.attached_to {
                Some(h) => h != handle,
                None => false,
            },
        }
    }

    /// The windows asked for, oldest member first.
    fn collect(&self, special: &SpecialStore<SpecialWindow>) -> (r: Vec<WindowId>)
        ensures
            r@ == self.windows(special@),
    {
        let entries = special.entries();
        let mut r: Vec<WindowId> = Vec::new();
        let mut i: usize = 0;
        proof {
            reveal(Seq::filter);
            assert(entries@.take(0).filter(self.entries()) =~= Seq::empty());
        }
        while i < entries.len()
            invariant
                i <= entries@.len(),
                r@.len() == entries@.take(i as int).filter(self.entries()).len(),
                forall|a: int|
                    0 <= a < r@.len() ==> #[trigger] r@[a] == entries@.take(i as int).filter(
                        self.entries(),
                    )[a].mapped,
            decreases entries@.len() - i,
        {
            proof {
                seqs::lemma_filter_step(entries@, self.entries(), i as int);
            }
            if self.is_fit(&entries[i]) {
                r.push(entries[i].mapped);
            }
            i = i + 1;
        }
        assert(entries@.take(entries@.len() as int) =~= entries@);
        assert(r@ =~= self.windows(special@));
        r
    }
}

impl Shell {
    /// Detach a shown window from the workspace of `output` it is floating
    /// on. Windows stay in their special; only the visible attachment is
    /// removed.
    pub fn special_detach_shown(&mut self, window: WindowId, output: OutputId) -> (r: Option<()>)
        ensures
            final(self)@ == old(self)@.detached(window, output),
            r is Some <==> old(self)@.detaches(window, output),
            manager::one_home(old(self)@.special) ==> manager::one_home(final(self)@.special),
    {
        let (i, j) = match self.workspaces.floating_place(output, window) {
            Some(place) => place,
            None => {
                return None;
            },
        };
        let ghost place = Place { set: i as int, workspace: j as int };
        // Dropping the window from every seat's focus stack keeps focus
        // fixups from handing the keyboard back to a hidden window.
        self.workspaces.sets[i].workspaces[j].unmap_floating(window);
        let handle = self.workspaces.sets[i].workspaces[j].handle;
        assert(self.workspaces@ =~~= workspaces::with_workspace(
            old(self)@.sets,
            place,
            workspaces::at(old(self)@.sets, place).unfloated(window),
        ));
        self.effects.push(Effect::UnmapFloating { handle, window });
        self.effects.push(Effect::LeaveWorkspace { handle, window });
        match self.special.set_attached(window, None) {
            Some(_) => Some(()),
            None => None,
        }
    }

    /// Take a window off every layout and out of every focus stack of every
    /// output, wherever the compositor has put it. It stays in its special,
    /// attached to nothing.
    fn special_withdraw(&mut self, window: WindowId)
        ensures
            final(self)@ == old(self)@.withdrawn(window),
            manager::one_home(old(self)@.special) ==> manager::one_home(final(self)@.special),
    {
        self.workspaces.withdraw(window, &mut self.effects);
        self.special.set_attached(window, None);
    }

    /// Attach a stored window as a floating window on the active workspace of
    /// `output`.
    pub fn special_attach_to_active(&mut self, window: WindowId, output: OutputId) -> (r: Option<
        KeyboardFocusTarget,
    >)
        ensures
            final(self)@ == old(self)@.attached(window, output),
            r == old(self)@.attach_focus(window, output),
            manager::one_home(old(self)@.special) ==> manager::one_home(final(self)@.special),
    {
        let (i, j) = match self.workspaces.active_place(output) {
            Some(place) => place,
            None => {
                return None;
            },
        };
        let ghost place = Place { set: i as int, workspace: j as int };
        self.workspaces.sets[i].workspaces[j].map_floating(window);
        let handle = self.workspaces.sets[i].workspaces[j].handle;
        assert(self.workspaces@ =~~= workspaces::with_workspace(
            old(self)@.sets,
            place,
            workspaces::at(old(self)@.sets, place).floated(window),
        ));
        self.effects.push(Effect::MapFloating { handle, window });
        self.effects.push(Effect::EnterWorkspace { handle, window });
        let k = match self.special.index_of(window) {
            Some(k) => k,
            None => {
                return None;
            },
        };
        let ghost before = self.special@;
        proof {
            manager::lemma_home(before, window);
        }
        match self.special.set_attached(window, Some(handle)) {
            Some(entry) => {
                let ghost mid = self.special@;
                proof {
                    transitions::lemma_attachment_home(before, window, Some(handle));
                    self.special.lemma_len();
                }
                self.special.slot_mut(k).set_last_focused(&entry);
                assert(self.special@ =~= transitions::focus_remembered(mid, window));
            },
            None => {},
        }
        Some(KeyboardFocusTarget::Element(window))
    }

    /// Hand the keyboard back to a regular window when special windows go
    /// away: the most recently focused window of the active workspace that is
    /// not parked in a special workspace, falling back to the base of the
    /// workspace's window stack.
    pub fn special_focus_candidate(&self, seat: SeatId, output: OutputId) -> (r: Option<
        KeyboardFocusTarget,
    >)
        ensures
            r == self@.focus_candidate(seat, output),
    {
        let (i, j) = match self.workspaces.active_place(output) {
            Some(place) => place,
            None => {
                return None;
            },
        };
        let workspace = &self.workspaces.sets[i].workspaces[j];
        assert(workspace@ == workspaces::at(
            self@.sets,
            Place { set: i as int, workspace: j as int },
        ));
        let stack = workspace.targets_of(seat);
        let excluded = |target: &FocusTarget| -> (r: bool)
            ensures
                r == transitions::is_excluded(self@.special, *target),
            {
                match *target {
                    FocusTarget::Window(mapped) => self.special.index_of(mapped).is_some(),
                    // A fullscreen surface would cover the special being shown.
                    FocusTarget::Fullscreen(_) => true,
                }
            };
        let candidate = mru_focus_excluding(stack.as_slice(), excluded);
        proof {
            let p = transitions::eligible(self@.special);
            match candidate {
                Some(_) => {
                    let at = choose|at: int|
                        {
                            &&& 0 <= at < stack@.len()
                            &&& *candidate->0 == #[trigger] stack@[at]
                            &&& call_ensures(excluded, (&stack@[at],), false)
                            &&& forall|j: int|
                                0 <= j < at ==> call_ensures(
                                    excluded,
                                    (&#[trigger] stack@[j],),
                                    true,
                                )
                        };
                    seqs::lemma_first_at(stack@, p, at);
                },
                None => {
                    seqs::lemma_first_none(stack@, p);
                },
            }
        }
        match candidate {
            Some(target) => match *target {
                FocusTarget::Window(mapped) => Some(KeyboardFocusTarget::Element(mapped)),
                FocusTarget::Fullscreen(surface) => Some(KeyboardFocusTarget::Fullscreen(surface)),
            },
            None => match workspace.base() {
                Some(mapped) => Some(KeyboardFocusTarget::Element(mapped)),
                None => None,
            },
        }
    }

    /// Ask for the maximized state of `window` back, if it had one when it was
    /// sent.
    fn remaximize(&mut self, window: WindowId)
        ensures
            final(self)@ == old(self)@.remaximized(window),
            manager::one_home(old(self)@.special) ==> manager::one_home(final(self)@.special),
    {
        if self.special.take_was_maximized(window) {
            self.effects.push(Effect::Maximize { window });
        }
    }

    /// Remember the window that has the keyboard, where it is a member of
    /// special `idx`, as the one that focus returns to.
    fn special_note_focus(&mut self, idx: usize, focus: Option<KeyboardFocusTarget>)
        requires
            idx < old(self)@.special.len(),
        ensures
            final(self)@ == old(self)@.with_focus_noted(idx as int, focus),
            manager::one_home(old(self)@.special) ==> manager::one_home(final(self)@.special),
    {
        let window = match focus {
            Some(KeyboardFocusTarget::Element(window)) => window,
            _ => {
                return;
            },
        };
        proof {
            self.special.lemma_len();
            manager::lemma_home(self@.special, window);
        }
        match self.special.entry(window) {
            Some((k, entry)) => {
                if k == idx {
                    self.special.slot_mut(idx).set_last_focused(&entry);
                    assert(self.special@ =~= transitions::focus_remembered(
                        old(self)@.special,
                        window,
                    ));
                }
            },
            None => {},
        }
    }

    /// Show special workspace `idx` if it is hidden, hide it if it is shown.
    ///
    /// Hiding takes its windows off every layout of every output, and
    /// remembers the member that has the keyboard, if one has, so that focus
    /// returns to it when the special is shown again.
    ///
    /// Returns a focus candidate for the remaining windows, so the caller can
    /// keep the keyboard on the workspace instead of the detached windows.
    pub fn special_toggle(&mut self, seat: &Seat, idx: usize) -> (r: Option<KeyboardFocusTarget>)
        requires
            idx < usize::MAX,
        ensures
            final(self)@ == old(self)@.toggled(idx as int, *seat),
            r == old(self)@.toggle_focus(idx as int, *seat),
            manager::one_home(old(self)@.special) ==> manager::one_home(final(self)@.special),
    {
        let output = seat.active_output;
        self.special.drop_dead(&self.windows);
        assert(self@ =~= old(self)@.buried());
        let was_shown = self.special.slot_mut(idx).shown();
        let ghost ready = old(self)@.buried().grown(idx as int);
        assert(self@ =~~= ready);
        proof {
            transitions::lemma_grown_one_home(old(self)@.buried().special, idx as int);
        }
        if was_shown {
            self.special.slot_mut(idx).set_shown(false);
            assert(self@ =~~= ready.with_shown(idx as int, false));
            self.special_note_focus(idx, seat.focus);
            let ghost hidden = ready.with_shown(idx as int, false).with_focus_noted(
                idx as int,
                seat.focus,
            );
            assert(self@ =~~= hidden);
            let members = Attachment::Any.collect(self.special.slot_mut(idx));
            assert(self@ =~~= hidden);
            let mut i: usize = 0;
            assert(members@.take(0) =~= Seq::empty());
            while i < members.len()
                invariant
                    i <= members@.len(),
                    self@ == hidden.withdrawn_each(members@.take(i as int)),
                    manager::one_home(old(self)@.special) ==> manager::one_home(self@.special),
                decreases members@.len() - i,
            {
                self.special_withdraw(members[i]);
                assert(members@.take(i + 1).drop_last() =~= members@.take(i as int));
                i = i + 1;
            }
            assert(members@.take(members@.len() as int) =~= members@);
            self.special_focus_candidate(seat.id, output)
        } else {
            self.special.slot_mut(idx).set_shown(true);
            let ghost shown = ready.with_shown(idx as int, true);
            assert(self@ =~~= shown);
            if self.special.slot_mut(idx).is_empty() {
                assert(self@ =~~= shown);
                proof {
                    transitions::lemma_show_empty(ready, idx as int, output);
                }
                return None;
            }
            // Focus returns to the window that had it when the special was
            // last hidden, not to an arbitrary member.
            let restore_focus = match self.special.slot_mut(idx).focus_to_restore() {
                Some(entry) => Some(entry.mapped),
                None => None,
            };
            assert(self@ =~~= shown);
            assert(shown.special[idx as int].restored_focus()
                == ready.special[idx as int].restored_focus()) by {
                store::law_visibility_keeps_members(ready.special[idx as int], true);
            }
            let detached = Attachment::Detached.collect(self.special.slot_mut(idx));
            assert(self@ =~~= shown);
            let mut focus: Option<KeyboardFocusTarget> = None;
            let mut i: usize = 0;
            assert(detached@.take(0) =~= Seq::empty());
            while i < detached.len()
                invariant
                    i <= detached@.len(),
                    self@ == shown.attached_each(detached@.take(i as int), output),
                    focus == shown.attached_each_focus(detached@.take(i as int), output),
                    manager::one_home(old(self)@.special) ==> manager::one_home(self@.special),
                decreases detached@.len() - i,
            {
                focus = self.special_attach_to_active(detached[i], output);
                assert(detached@.take(i + 1).drop_last() =~= detached@.take(i as int));
                i = i + 1;
            }
            assert(detached@.take(detached@.len() as int) =~= detached@);
            let ghost placed = self@;
            i = 0;
            while i < detached.len()
                invariant
                    i <= detached@.len(),
                    self@ == placed.remaximized_each(detached@.take(i as int)),
                    manager::one_home(old(self)@.special) ==> manager::one_home(self@.special),
                decreases detached@.len() - i,
            {
                self.remaximize(detached[i]);
                assert(detached@.take(i + 1).drop_last() =~= detached@.take(i as int));
                i = i + 1;
            }
            match restore_focus {
                Some(window) => if self.special.is_attached(window) {
                    Some(KeyboardFocusTarget::Element(window))
                } else {
                    focus
                },
                None => focus,
            }
        }
    }

    /// The state of a window.
    fn window_state(&self, window: WindowId) -> (r: Option<WindowState>)
        ensures
            match r {
                Some(state) => {
                    let at = seqs::first(self@.windows, transitions::state_of(window));
                    at is Some && state == self@.windows[at->0]
                },
                None => seqs::first(self@.windows, transitions::state_of(window)) is None,
            },
    {
        let mut i: usize = 0;
        while i < self.windows.len()
            invariant
                i <= self.windows@.len(),
                forall|j: int| 0 <= j < i ==> (#[trigger] self.windows@[j]).id != window,
            decreases self.windows@.len() - i,
        {
            if self.windows[i].id == window {
                proof {
                    seqs::lemma_first_at(
                        self.windows@,
                        transitions::state_of(window),
                        i as int,
                    );
                }
                return Some(self.windows[i]);
            }
            i = i + 1;
        }
        proof {
            seqs::lemma_first_none(self.windows@, transitions::state_of(window));
        }
        None
    }

    /// The surface `mapped` is currently mapped fullscreen on, if any.
    pub fn fullscreen_surface_of(&self, mapped: WindowId) -> (r: Option<SurfaceId>)
        ensures
            r == self@.fullscreen_surface(mapped),
    {
        match self.window_state(mapped) {
            Some(state) => if self.workspaces.has_fullscreen(state.active_surface) {
                Some(state.active_surface)
            } else {
                None
            },
            None => None,
        }
    }

    /// Detach a window from the sticky layer it is on. Returns the captured
    /// restore state.
    fn special_detach_sticky(&mut self, window: WindowId) -> (r: Option<WorkspaceRestoreData>)
        ensures
            final(self)@ == old(self)@.unstuck(window),
            r == old(self)@.sticky_restore(window),
    {
        let i = match self.workspaces.sticky_index(window) {
            Some(i) => i,
            None => {
                return None;
            },
        };
        proof {
            seqs::lemma_first(self@.sets, workspaces::sticks(window));
        }
        let set = &self.workspaces.sets[i];
        assert(self@.sets[i as int] == set@);
        let output = set.output;
        let output_size = set.output_size;
        let geometry = match model::find_sticky(&set.sticky_layer, window) {
            Some(at) => set.sticky_layer[at].geometry,
            None => {
                return None;
            },
        };
        self.workspaces.sets[i].unmap_sticky(window);
        assert(self.workspaces@ =~~= old(self)@.sets.update(
            i as int,
            workspaces::unstuck(old(self)@.sets[i as int], window),
        ));
        self.effects.push(Effect::UnmapSticky { output, window });
        Some(
            WorkspaceRestoreData::Floating(
                FloatingRestoreData { geometry, output_size, was_maximized: false, was_snapped: None },
            ),
        )
    }

    /// Detach a window from its workspace layout. Returns the captured
    /// restore state.
    ///
    /// Sticky windows live on an output's sticky layer, outside every
    /// workspace layout; their geometry is captured and they are detached
    /// from there. A maximized sticky window is additionally mapped
    /// (maximized) on a workspace's floating layer; it has to be unmaximized
    /// first so it lives in exactly one layer before detaching.
    pub fn special_detach_window(&mut self, window: WindowId) -> (r: DetachStep)
        ensures
            (final(self)@, r) == old(self)@.detach_window(window),
    {
        if self.workspaces.sticky_index(window).is_some() {
            let maximized = match self.window_state(window) {
                Some(state) => state.maximized,
                None => false,
            };
            if maximized {
                return DetachStep::Unmaximize;
            }
            return DetachStep::Done(self.special_detach_sticky(window));
        }
        let (i, j) = match self.workspaces.mapped_place(window) {
            Some(place) => place,
            None => {
                return DetachStep::Done(None);
            },
        };
        let ghost place = Place { set: i as int, workspace: j as int };
        let handle = self.workspaces.sets[i].workspaces[j].handle;
        assert(workspaces::at(self@.sets, place)
            == self.workspaces.sets@[i as int].workspaces@[j as int]@);
        match self.workspaces.sets[i].workspaces[j].unmap_element(window) {
            Some(restore) => {
                assert(self.workspaces@ =~~= workspaces::with_workspace(
                    old(self)@.sets,
                    place,
                    workspaces::at(old(self)@.sets, place).unmapped(window),
                ));
                self.effects.push(Effect::UnmapElement { handle, window });
                self.effects.push(Effect::LeaveWorkspace { handle, window });
                DetachStep::Done(Some(restore))
            },
            None => {
                assert(self.workspaces@ =~~= old(self)@.sets);
                DetachStep::Done(None)
            },
        }
    }

    /// Put `entry` into special `idx`: visible at once while the special is
    /// shown, parked and invisible while it is hidden.
    fn special_deliver(&mut self, seat: &Seat, idx: usize, entry: SpecialWindow) -> (r: Option<
        KeyboardFocusTarget,
    >)
        requires
            idx < usize::MAX,
        ensures
            final(self)@ == old(self)@.delivered(idx as int, entry, seat.active_output),
            r == old(self)@.delivered_focus(idx as int, entry, *seat),
            manager::one_home(old(self)@.special) && manager::home(
                old(self)@.special,
                entry.mapped,
            ) is None ==> manager::one_home(final(self)@.special),
    {
        let window = entry.mapped;
        let output = seat.active_output;
        self.special.slot_mut(idx).send(entry);
        let ghost stored = old(self)@.stored(idx as int, entry);
        assert(self@ =~~= stored);
        proof {
            transitions::lemma_stored_one_home(old(self)@, idx as int, entry);
        }
        let shown = self.special.slot_mut(idx).shown();
        assert(self@ =~~= stored);
        if shown {
            let focus = self.special_attach_to_active(window, output);
            self.remaximize(window);
            return focus;
        }
        self.special_focus_candidate(seat.id, output)
    }

    /// Go on with a send whose window is not fullscreen.
    fn special_send_settled(&mut self, seat: &Seat, idx: usize, window: WindowId) -> (r: SendStep)
        requires
            idx < usize::MAX,
        ensures
            (final(self)@, r) == old(self)@.send_settled(idx as int, *seat, window),
            manager::one_home(old(self)@.special) ==> manager::one_home(final(self)@.special),
    {
        match self.special.holder(window) {
            Some((from, _)) => {
                self.special_withdraw(window);
                let ghost withdrawn = old(self)@.withdrawn(window);
                proof {
                    transitions::lemma_withdrawn_home(old(self)@, window);
                    manager::lemma_home(withdrawn.special, window);
                    self.special.lemma_len();
                    assert(store::eq_to::<SpecialWindow, WindowId>(window) =~= manager::is_window(
                        window,
                    ));
                    assert(withdrawn.special[from as int].has(window));
                }
                let taken = self.special.slot_mut(from).take(&window);
                proof {
                    let entries = withdrawn.special[from as int].entries;
                    let a = choose|a: int|
                        #![trigger entries[a]]
                        seqs::is_first(entries, manager::is_window(window), a) && taken == Some(
                            entries[a],
                        );
                    seqs::lemma_first_at(entries, manager::is_window(window), a);
                    assert(self@ =~~= withdrawn.taken(window));
                    transitions::lemma_taken_one_home(withdrawn, window);
                }
                match taken {
                    Some(entry) => SendStep::Done(self.special_deliver(seat, idx, entry)),
                    None => SendStep::Done(None),
                }
            },
            None => match self.special_detach_window(window) {
                DetachStep::Unmaximize => SendStep::Unmaximize { window },
                DetachStep::Done(restore) => self.special_send_detached(seat, idx, window, restore),
            },
        }
    }

    /// Go on with a send whose window left its layout, or did not.
    fn special_send_detached(
        &mut self,
        seat: &Seat,
        idx: usize,
        window: WindowId,
        restore: Option<WorkspaceRestoreData>,
    ) -> (r: SendStep)
        requires
            idx < usize::MAX,
        ensures
            (final(self)@, r) == old(self)@.send_detached(idx as int, *seat, window, restore),
            manager::one_home(old(self)@.special) && manager::home(old(self)@.special, window) is None
                ==> manager::one_home(final(self)@.special),
    {
        match restore {
            Some(restore) => {
                let entry = SpecialWindow {
                    mapped: window,
                    restore: Some(restore),
                    attached_to: None,
                };
                SendStep::Done(self.special_deliver(seat, idx, entry))
            },
            None => SendStep::Done(None),
        }
    }

    /// Go on with a send whose window is known.
    fn special_send_window(&mut self, seat: &Seat, idx: usize, window: WindowId) -> (r: SendStep)
        requires
            idx < usize::MAX,
        ensures
            (final(self)@, r) == old(self)@.send_window(idx as int, *seat, window),
            manager::one_home(old(self)@.special) ==> manager::one_home(final(self)@.special),
    {
        // Keyboard focus may still point at the window while it is mapped
        // fullscreen, so the window itself has to be checked too.
        match self.fullscreen_surface_of(window) {
            Some(surface) => SendStep::Unfullscreen { surface, stage: SendStage::Mapped(window) },
            None => self.special_send_settled(seat, idx, window),
        }
    }

    /// Send the currently focused window to special workspace `idx`.
    ///
    /// While that special is shown the window becomes visible immediately;
    /// while hidden it is parked detached and invisible. Sending a window that
    /// already belongs to another special moves it between specials.
    ///
    /// Fullscreen windows are unfullscreened first: they are held by the
    /// workspace's fullscreen layer, which the detach path cannot reach.
    pub fn special_send_current(&mut self, seat: &Seat, idx: usize) -> (r: SendStep)
        requires
            idx < usize::MAX,
        ensures
            (final(self)@, r) == old(self)@.send_current(idx as int, *seat),
            manager::one_home(old(self)@.special) ==> manager::one_home(final(self)@.special),
    {
        self.special.drop_dead(&self.windows);
        assert(self@ =~= old(self)@.buried());
        match seat.focus {
            Some(KeyboardFocusTarget::Element(window)) => self.special_send_window(
                seat,
                idx,
                window,
            ),
            Some(KeyboardFocusTarget::Fullscreen(surface)) => SendStep::Unfullscreen {
                surface,
                stage: SendStage::Focused,
            },
            _ => SendStep::Done(None),
        }
    }

    /// Go on with a send after the compositor answered
    /// [`SendStep::Unfullscreen`] with `reply`.
    pub fn special_send_unfullscreened(
        &mut self,
        seat: &Seat,
        idx: usize,
        stage: SendStage,
        reply: Option<KeyboardFocusTarget>,
    ) -> (r: SendStep)
        requires
            idx < usize::MAX,
        ensures
            (final(self)@, r) == old(self)@.send_unfullscreened(idx as int, *seat, stage, reply),
            manager::one_home(old(self)@.special) ==> manager::one_home(final(self)@.special),
    {
        match (stage, reply) {
            (SendStage::Focused, Some(KeyboardFocusTarget::Element(window))) => {
                self.special_send_window(seat, idx, window)
            },
            (SendStage::Focused, _) => SendStep::Done(None),
            (SendStage::Mapped(_), Some(KeyboardFocusTarget::Element(remapped))) => {
                self.special_send_settled(seat, idx, remapped)
            },
            (SendStage::Mapped(window), _) => self.special_send_settled(seat, idx, window),
        }
    }

    /// Go on with a send after the compositor unmaximized the sticky
    /// `window` for [`SendStep::Unmaximize`].
    pub fn special_send_unmaximized(&mut self, seat: &Seat, idx: usize, window: WindowId) -> (r:
        SendStep)
        requires
            idx < usize::MAX,
            manager::home(old(self)@.special, window) is None,
        ensures
            (final(self)@, r) == old(self)@.send_unmaximized(idx as int, *seat, window),
            manager::one_home(old(self)@.special) ==> manager::one_home(final(self)@.special),
    {
        let restore = self.special_detach_sticky(window);
        self.special_send_detached(seat, idx, window, restore)
    }

    /// Forget visible attachments whose workspace no longer exists (an output
    /// was removed while a special was shown): the windows stay parked in
    /// their special and can be re-shown later.
    pub fn special_revalidate_attachments(&mut self)
        requires
            manager::one_home(old(self)@.special),
        ensures
            final(self)@ == (ShellView {
                special: transitions::revalidated(old(self)@.special, old(self)@.sets),
                ..old(self)@
            }),
            manager::one_home(final(self)@.special),
    {
        let ghost before = self@.special;
        let ghost after = transitions::revalidated(before, self@.sets);
        let mut k: usize = 0;
        while k < self.special.len()
            invariant
                before == old(self)@.special,
                after == transitions::revalidated(before, old(self)@.sets),
                k <= self@.special.len() == before.len(),
                self@ == (ShellView { special: self@.special, ..old(self)@ }),
                manager::one_home(self@.special),
                forall|i: int| 0 <= i < k ==> #[trigger] self@.special[i] == after[i],
                forall|i: int| k <= i < before.len() ==> #[trigger] self@.special[i] == before[i],
            decreases before.len() - k,
        {
            let mut a: usize = 0;
            while a < self.special.slot_at(k).len()
                invariant
                    before == old(self)@.special,
                    after == transitions::revalidated(before, old(self)@.sets),
                    k < self@.special.len() == before.len(),
                    self@ == (ShellView { special: self@.special, ..old(self)@ }),
                    manager::one_home(self@.special),
                    a <= before[k as int].entries.len(),
                    self@.special[k as int].entries.len() == before[k as int].entries.len(),
                    self@.special[k as int] == (StoreView {
                        entries: self@.special[k as int].entries,
                        ..before[k as int]
                    }),
                    forall|b: int|
                        0 <= b < a ==> #[trigger] self@.special[k as int].entries[b]
                            == after[k as int].entries[b],
                    forall|b: int|
                        a <= b < before[k as int].entries.len()
                            ==> #[trigger] self@.special[k as int].entries[b]
                            == before[k as int].entries[b],
                    forall|i: int| 0 <= i < k ==> #[trigger] self@.special[i] == after[i],
                    forall|i: int|
                        k < i < before.len() ==> #[trigger] self@.special[i] == before[i],
                decreases before[k as int].entries.len() - a,
            {
                let entry = self.special.slot_at(k).entries()[a];
                let stranded = match entry.attached_to {
                    Some(handle) => !self.workspaces.has_handle(handle),
                    None => false,
                };
                proof {
                    manager::lemma_home_is(self@.special, entry.mapped, k as int, a as int);
                }
                if stranded {
                    self.special.set_attached(entry.mapped, None);
                }
                a = a + 1;
            }
            assert(self@.special[k as int] =~= after[k as int]);
            k = k + 1;
        }
        assert(self@.special =~= after);
    }

    /// Re-attach shown special windows to the newly activated workspace: a
    /// workspace switch would otherwise leave them floating on the old one.
    pub fn special_follow(&mut self, output: OutputId)
        requires
            manager::one_home(old(self)@.special),
        ensures
            final(self)@ == old(self)@.followed(output),
            manager::one_home(final(self)@.special),
    {
        if !self.special.shown_any() {
            return;
        }
        self.special_revalidate_attachments();
        let ghost valid = self@;
        let (i, j) = match self.workspaces.active_place(output) {
            Some(place) => place,
            None => {
                return;
            },
        };
        let current = self.workspaces.sets[i].workspaces[j].handle;
        let mut k: usize = 0;
        while k < self.special.len()
            invariant
                k <= self@.special.len() == valid.special.len(),
                self@ == valid.followed_first(k as int, output, current),
                manager::one_home(self@.special),
            decreases valid.special.len() - k,
        {
            let ghost here = self@;
            if self.special.slot_at(k).shown() {
                let drifting = Attachment::Elsewhere(current).collect(self.special.slot_at(k));
                let mut a: usize = 0;
                assert(drifting@.take(0) =~= Seq::empty());
                while a < drifting.len()
                    invariant
                        a <= drifting@.len(),
                        self@ == here.moved_each(drifting@.take(a as int), output),
                        self@.special.len() == here.special.len(),
                        manager::one_home(self@.special),
                    decreases drifting@.len() - a,
                {
                    proof {
                        transitions::lemma_special_count(self@, drifting[a as int], output);
                        transitions::lemma_special_count(
                            self@.detached(drifting[a as int], output),
                            drifting[a as int],
                            output,
                        );
                    }
                    if self.special_detach_shown(drifting[a], output).is_some() {
                        self.special_attach_to_active(drifting[a], output);
                    }
                    assert(drifting@.take(a + 1).drop_last() =~= drifting@.take(a as int));
                    a = a + 1;
                }
                assert(drifting@.take(drifting@.len() as int) =~= drifting@);
            }
            assert(self@ == here.followed_special(k as int, output, current));
            k = k + 1;
        }
    }
}

} // verus!
