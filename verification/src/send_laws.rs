//! What sending a window, and attaching or detaching one, leaves behind.

use vstd::prelude::*;
use vstd::std_specs::cmp::PartialEqSpec;

use crate::effect_laws;
use crate::follow_laws;
use crate::laws;
use crate::layout_laws;
use crate::manager;
use crate::manager::{SpecialWindow, Specials};
use crate::member_laws;
use crate::model;
use crate::model::{
    Effect, FloatingRestoreData, FocusTarget, KeyboardFocusTarget, MappedElement, OutputId, Seat,
    SetView, StickyElement, WindowId, WorkspaceHandle, WorkspaceRestoreData,
    WorkspaceView,
};
use crate::outcome_laws;
use crate::seqs;
use crate::store::StoreView;
use crate::transitions;
use crate::transitions::{DetachStep, SendStage, SendStep, ShellView};
use crate::withdrawal_laws;
use crate::workspaces;
use crate::workspaces::Place;

verus! {

/// The layouts with one workspace replaced.
pub open spec fn replaced(sets: Seq<SetView>, i: int, j: int, workspace: WorkspaceView) -> Seq<
    SetView,
> {
    sets.update(
        i,
        SetView { workspaces: sets[i].workspaces.update(j, workspace), ..sets[i] },
    )
}

/// The workspace without `window` on its floating layer and in its focus
/// stacks.
pub open spec fn off_the_floating_layer(workspace: WorkspaceView, window: WindowId) -> WorkspaceView {
    WorkspaceView {
        floating: workspace.floating.filter(|e: MappedElement| e.window != window),
        focus_stack: effect_laws::stacks_without(workspace.focus_stack, window),
        ..workspace
    }
}

/// The workspace without `window` on either layer and in its focus stacks.
pub open spec fn off_the_workspace(workspace: WorkspaceView, window: WindowId) -> WorkspaceView {
    WorkspaceView {
        floating: workspace.floating.filter(|e: MappedElement| e.window != window),
        tiling: workspace.tiling.filter(|e: MappedElement| e.window != window),
        focus_stack: effect_laws::stacks_without(workspace.focus_stack, window),
        ..workspace
    }
}

/// The set without `window` on its sticky layer and in the focus stacks of its
/// workspaces.
pub open spec fn off_the_sticky_layer(set: SetView, window: WindowId) -> SetView {
    SetView {
        sticky_layer: set.sticky_layer.filter(|e: StickyElement| e.window != window),
        workspaces: Seq::new(
            set.workspaces.len(),
            |j: int|
                WorkspaceView {
                    focus_stack: effect_laws::stacks_without(set.workspaces[j].focus_stack, window),
                    ..set.workspaces[j]
                },
        ),
        ..set
    }
}

/// The words of this module for leaving layers mean what those of the layouts
/// mean.
proof fn lemma_same_words(workspace: WorkspaceView, window: WindowId)
    ensures
        workspace.unfloated(window) == off_the_floating_layer(workspace, window),
        workspace.unmapped(window) == off_the_workspace(workspace, window),
        workspace.unfocused(window) == (WorkspaceView {
            focus_stack: effect_laws::stacks_without(workspace.focus_stack, window),
            ..workspace
        }),
{
    layout_laws::law_unfocusing(workspace, window);
    layout_laws::law_leaving_a_workspace(workspace, window);
    assert(workspace.unfocused(window).focus_stack =~= effect_laws::stacks_without(
        workspace.focus_stack,
        window,
    ));
    assert(workspace.unfloated(window).focus_stack =~= effect_laws::stacks_without(
        workspace.focus_stack,
        window,
    ));
    assert(workspace.unmapped(window).focus_stack =~= effect_laws::stacks_without(
        workspace.focus_stack,
        window,
    ));
}

/// No special has an entry of `window`.
pub open spec fn unparked(specials: Specials, window: WindowId) -> bool {
    forall|k: int, a: int|
        0 <= k < specials.len() && 0 <= a < specials[k].entries.len() ==> (
        #[trigger] specials[k].entries[a]).mapped != window
}

/// The books with one entry replaced.
pub open spec fn entry_replaced(specials: Specials, k: int, a: int, entry: SpecialWindow) -> Specials {
    specials.update(
        k,
        StoreView { entries: specials[k].entries.update(a, entry), ..specials[k] },
    )
}

/// Attaching a parked window floats it on top of the active workspace of the
/// output; its entry says so, and is what focus returns to.
pub proof fn law_attaching_a_parked_window(
    shell: ShellView,
    output: OutputId,
    i: int,
    k: int,
    a: int,
)
    requires
        member_laws::parked_once(shell.special),
        0 <= k < shell.special.len(),
        0 <= a < shell.special[k].entries.len(),
        outcome_laws::set_belongs(shell.sets, output, i),
        shell.sets[i].active < shell.sets[i].workspaces.len(),
    ensures
        ({
            let window = shell.special[k].entries[a].mapped;
            let after = shell.attached(window, output);
            let j = shell.sets[i].active as int;
            let handle = shell.sets[i].workspaces[j].handle;
            let entry = SpecialWindow {
                mapped: window,
                restore: shell.special[k].entries[a].restore,
                attached_to: Some(handle),
            };
            &&& after.windows == shell.windows
            &&& after.sets == outcome_laws::sets_floating(shell.sets, i, j, seq![window])
            &&& after.effects == shell.effects + seq![
                Effect::MapFloating { handle, window },
                Effect::EnterWorkspace { handle, window },
            ]
            &&& after.special == shell.special.update(
                k,
                StoreView {
                    entries: shell.special[k].entries.update(a, entry),
                    shown: shell.special[k].shown,
                    last_focused: Some(entry),
                },
            )
            &&& shell.attach_focus(window, output) == Some(KeyboardFocusTarget::Element(window))
        }),
{
    let window = shell.special[k].entries[a].mapped;
    let after = shell.attached(window, output);
    let j = shell.sets[i].active as int;
    let handle = shell.sets[i].workspaces[j].handle;
    layout_laws::law_active_workspace_is_the_sets_own(shell.sets, output, i);
    member_laws::law_the_entry_is_found(shell.special, k, a);
    member_laws::law_attaching_changes_one_entry(shell.special, k, a, Some(handle));
    transitions::lemma_attachment_home(shell.special, window, Some(handle));
    lemma_floated_alone(shell.sets, i, j, window);
    assert(after.effects =~= shell.effects + seq![
        Effect::MapFloating { handle, window },
        Effect::EnterWorkspace { handle, window },
    ]);
    let entry = SpecialWindow {
        mapped: window,
        restore: shell.special[k].entries[a].restore,
        attached_to: Some(handle),
    };
    assert(after.special =~= shell.special.update(
        k,
        StoreView {
            entries: shell.special[k].entries.update(a, entry),
            shown: shell.special[k].shown,
            last_focused: Some(entry),
        },
    ));
}

/// One window on top of the floating layer.
proof fn lemma_floated_alone(sets: Seq<SetView>, i: int, j: int, window: WindowId)
    requires
        0 <= i < sets.len(),
        0 <= j < sets[i].workspaces.len(),
    ensures
        workspaces::with_workspace(
            sets,
            Place { set: i, workspace: j },
            sets[i].workspaces[j].floated(window),
        ) == outcome_laws::sets_floating(sets, i, j, seq![window]),
{
    let workspace = sets[i].workspaces[j];
    let only = seq![window];
    layout_laws::law_floating_a_window(workspace, window);
    assert(only.contains(window)) by {
        assert(only[0] == window);
    }
    assert forall|w: WindowId| #[trigger] only.contains(w) implies w == window by {}
    let p = |e: MappedElement| e.window != window;
    let q = |e: MappedElement| !only.contains(e.window);
    seqs::lemma_filter_alike(workspace.floating, p, q);
    let element = |w: WindowId| MappedElement { window: w, restore: None };
    assert(workspace.floating.filter(p).push(element(window)) =~= workspace.floating.filter(q)
        + only.map_values(element));
    assert(workspaces::with_workspace(
        sets,
        Place { set: i, workspace: j },
        workspace.floated(window),
    ) =~= outcome_laws::sets_floating(sets, i, j, only));
}

/// Attaching a window that is parked nowhere floats it all the same, touches
/// no books and gives no focus candidate; where the output has no active
/// workspace nothing happens.
pub proof fn law_attaching_otherwise(shell: ShellView, window: WindowId, output: OutputId, i: int)
    ensures
        outcome_laws::nothing_active(shell.sets, output) ==> shell.attached(window, output) == shell
            && shell.attach_focus(window, output) is None,
        unparked(shell.special, window) && outcome_laws::set_belongs(shell.sets, output, i)
            && shell.sets[i].active < shell.sets[i].workspaces.len() ==> {
            let after = shell.attached(window, output);
            let j = shell.sets[i].active as int;
            let handle = shell.sets[i].workspaces[j].handle;
            &&& after.windows == shell.windows
            &&& after.special == shell.special
            &&& after.sets == outcome_laws::sets_floating(shell.sets, i, j, seq![window])
            &&& after.effects == shell.effects + seq![
                Effect::MapFloating { handle, window },
                Effect::EnterWorkspace { handle, window },
            ]
            &&& shell.attach_focus(window, output) is None
        },
{
    if outcome_laws::nothing_active(shell.sets, output) {
        outcome_laws::lemma_nothing_active(shell.sets, output);
    }
    if unparked(shell.special, window) && outcome_laws::set_belongs(shell.sets, output, i)
        && shell.sets[i].active < shell.sets[i].workspaces.len() {
        let j = shell.sets[i].active as int;
        let handle = shell.sets[i].workspaces[j].handle;
        layout_laws::law_active_workspace_is_the_sets_own(shell.sets, output, i);
        member_laws::law_parked_window_is_found(shell.special, window, 0, 0);
        lemma_floated_alone(shell.sets, i, j, window);
        assert(shell.attached(window, output).effects =~= shell.effects + seq![
            Effect::MapFloating { handle, window },
            Effect::EnterWorkspace { handle, window },
        ]);
    }
}

/// Detaching a window takes it off the first workspace of the output that
/// floats it, and loosens its entry, where it has one.
pub proof fn law_detaching_a_window(
    shell: ShellView,
    window: WindowId,
    output: OutputId,
    i: int,
    j: int,
)
    requires
        outcome_laws::set_belongs(shell.sets, output, i),
        follow_laws::floats_first(shell.sets, i, j, window),
    ensures
        ({
            let after = shell.detached(window, output);
            let handle = shell.sets[i].workspaces[j].handle;
            &&& after.windows == shell.windows
            &&& after.sets == replaced(
                shell.sets,
                i,
                j,
                off_the_floating_layer(shell.sets[i].workspaces[j], window),
            )
            &&& after.effects == shell.effects + seq![
                Effect::UnmapFloating { handle, window },
                Effect::LeaveWorkspace { handle, window },
            ]
            &&& unparked(shell.special, window) ==> after.special == shell.special
                && !shell.detaches(window, output)
            &&& forall|k: int, a: int|
                member_laws::parked_once(shell.special) && 0 <= k < shell.special.len() && 0 <= a
                    < shell.special[k].entries.len() && (
                #[trigger] shell.special[k].entries[a]).mapped == window ==> after.special
                    == entry_replaced(
                    shell.special,
                    k,
                    a,
                    SpecialWindow {
                        mapped: window,
                        restore: shell.special[k].entries[a].restore,
                        attached_to: None,
                    },
                ) && shell.detaches(window, output)
        }),
{
    let handle = shell.sets[i].workspaces[j].handle;
    let after = shell.detached(window, output);
    layout_laws::law_floating_window_is_found(shell.sets, output, window, i, j);
    lemma_same_words(shell.sets[i].workspaces[j], window);
    assert(after.effects =~= shell.effects + seq![
        Effect::UnmapFloating { handle, window },
        Effect::LeaveWorkspace { handle, window },
    ]);
    if unparked(shell.special, window) {
        member_laws::law_parked_window_is_found(shell.special, window, 0, 0);
    }
    assert forall|k: int, a: int|
        member_laws::parked_once(shell.special) && 0 <= k < shell.special.len() && 0 <= a
            < shell.special[k].entries.len() && (
        #[trigger] shell.special[k].entries[a]).mapped == window implies after.special
        == entry_replaced(
        shell.special,
        k,
        a,
        SpecialWindow {
            mapped: window,
            restore: shell.special[k].entries[a].restore,
            attached_to: None,
        },
    ) && shell.detaches(window, output) by {
        member_laws::law_the_entry_is_found(shell.special, k, a);
        member_laws::law_attaching_changes_one_entry(shell.special, k, a, None);
    }
}

/// A window that floats on no workspace of the output is not detached.
pub proof fn law_detaching_elsewhere(shell: ShellView, window: WindowId, output: OutputId, i: int)
    requires
        outcome_laws::set_belongs(shell.sets, output, i) && !follow_laws::afloat_in(
            shell.sets,
            i,
            window,
        ) || forall|k: int| 0 <= k < shell.sets.len() ==> (#[trigger] shell.sets[k]).output != output,
    ensures
        shell.detached(window, output) == shell,
        !shell.detaches(window, output),
{
    if outcome_laws::set_belongs(shell.sets, output, i) && !follow_laws::afloat_in(
        shell.sets,
        i,
        window,
    ) {
        layout_laws::law_floating_window_is_found(shell.sets, output, window, i, 0);
    } else {
        let s = workspaces::set_of(output);
        seqs::lemma_first_none(shell.sets, s);
    }
}

/// An entry that is delivered comes last in its special. While the special is
/// hidden nothing else changes.
pub proof fn law_delivering_to_a_hidden_special(
    shell: ShellView,
    idx: int,
    entry: SpecialWindow,
    output: OutputId,
)
    requires
        unparked(shell.special, entry.mapped),
        0 <= idx,
        !outcome_laws::special_at(shell.special, idx).shown,
    ensures
        ({
            let after = shell.delivered(idx, entry, output);
            let before = outcome_laws::special_at(shell.special, idx);
            &&& after.windows == shell.windows
            &&& after.sets == shell.sets
            &&& after.effects == shell.effects
            &&& others_stay(shell.special, after.special, idx)
            &&& after.special[idx] == (StoreView {
                entries: before.entries.push(entry),
                shown: false,
                last_focused: before.last_focused,
            })
        }),
{
    lemma_stored_exactly(shell, idx, entry);
}

/// The other specials are as they were, and those made on demand hold
/// nothing.
pub open spec fn others_stay(before: Specials, after: Specials, idx: int) -> bool {
    &&& after.len() == (if idx < before.len() {
        before.len() as int
    } else {
        idx + 1
    })
    &&& forall|k: int|
        0 <= k < after.len() && k != idx ==> #[trigger] after[k] == outcome_laws::special_at(
            before,
            k,
        )
}

/// An entry that is stored comes last.
proof fn lemma_stored_exactly(shell: ShellView, idx: int, entry: SpecialWindow)
    requires
        unparked(shell.special, entry.mapped),
        0 <= idx,
    ensures
        ({
            let stored = shell.stored(idx, entry);
            let before = outcome_laws::special_at(shell.special, idx);
            &&& stored == (ShellView { special: stored.special, ..shell })
            &&& others_stay(shell.special, stored.special, idx)
            &&& stored.special[idx] == (StoreView {
                entries: before.entries.push(entry),
                ..before
            })
            &&& member_laws::parked_once(shell.special) ==> member_laws::parked_once(
                stored.special,
            )
        }),
{
    let ready = shell.grown(idx);
    let stored = shell.stored(idx, entry);
    let before = outcome_laws::special_at(shell.special, idx);
    member_laws::law_specials_are_made_on_demand(shell.special, idx);
    assert forall|k: int| 0 <= k < ready.special.len() implies #[trigger] ready.special[k]
        == outcome_laws::special_at(shell.special, k) by {
        if k >= shell.special.len() {
            assert(ready.special[k].entries =~= Seq::empty());
        }
    }
    assert(ready.special[idx] == before);
    assert forall|a: int| 0 <= a < before.entries.len() implies !(
    #[trigger] before.entries[a]).eq_spec(&entry) by {
        assert(shell.special[idx].entries[a].mapped != entry.mapped);
    }
    member_laws::law_sent_member_comes_last(ready.special[idx], entry);
    assert(stored.special[idx].entries =~= before.entries.push(entry));
    if member_laws::parked_once(shell.special) {
        assert forall|k: int, a: int|
            0 <= k < stored.special.len() && 0 <= a < stored.special[k].entries.len() implies (if k
            == idx && a == before.entries.len() {
            #[trigger] stored.special[k].entries[a] == entry
        } else {
            k < shell.special.len() && a < shell.special[k].entries.len()
                && stored.special[k].entries[a] == shell.special[k].entries[a]
                && shell.special[k].entries[a].mapped != entry.mapped
        }) by {
            if k != idx {
                assert(stored.special[k] == outcome_laws::special_at(shell.special, k));
            }
        }
    }
}

/// An entry that is delivered to a visible special comes last, its window
/// floats on top of the active workspace and is maximized again where it was
/// when it was sent. The keyboard goes to it.
pub proof fn law_delivering_to_a_visible_special(
    shell: ShellView,
    idx: int,
    entry: SpecialWindow,
    seat: Seat,
    i: int,
)
    requires
        member_laws::parked_once(shell.special),
        unparked(shell.special, entry.mapped),
        0 <= idx,
        outcome_laws::special_at(shell.special, idx).shown,
        outcome_laws::set_belongs(shell.sets, seat.active_output, i),
        shell.sets[i].active < shell.sets[i].workspaces.len(),
    ensures
        ({
            let after = shell.delivered(idx, entry, seat.active_output);
            let before = outcome_laws::special_at(shell.special, idx);
            let j = shell.sets[i].active as int;
            let handle = shell.sets[i].workspaces[j].handle;
            let window = entry.mapped;
            &&& after.windows == shell.windows
            &&& after.sets == outcome_laws::sets_floating(shell.sets, i, j, seq![window])
            &&& after.effects == shell.effects + seq![
                Effect::MapFloating { handle, window },
                Effect::EnterWorkspace { handle, window },
            ] + (if member_laws::says_maximized(entry) {
                seq![Effect::Maximize { window }]
            } else {
                Seq::empty()
            })
            &&& others_stay(shell.special, after.special, idx)
            &&& after.special[idx] == (StoreView {
                entries: before.entries.push(
                    SpecialWindow {
                        mapped: window,
                        restore: member_laws::not_maximized(entry.restore),
                        attached_to: Some(handle),
                    },
                ),
                shown: true,
                last_focused: Some(
                    SpecialWindow {
                        mapped: window,
                        restore: entry.restore,
                        attached_to: Some(handle),
                    },
                ),
            })
            &&& shell.delivered_focus(idx, entry, seat) == Some(
                KeyboardFocusTarget::Element(window),
            )
        }),
{
    let output = seat.active_output;
    let before = outcome_laws::special_at(shell.special, idx);
    let n = before.entries.len() as int;
    let stored = shell.stored(idx, entry);
    lemma_stored_exactly(shell, idx, entry);
    assert(stored.special[idx].entries[n] == entry);
    law_attaching_a_parked_window(stored, output, i, idx, n);
    let placed = stored.attached(entry.mapped, output);
    assert(laws::same_members(stored.special, placed.special));
    member_laws::law_one_home_is_one_entry(stored.special);
    laws::lemma_same_members_one_home(stored.special, placed.special);
    member_laws::law_one_home_is_one_entry(placed.special);
    member_laws::law_maximized_state_is_the_entrys_own(placed.special, idx, n);
    let after = placed.remaximized(entry.mapped);
    if !member_laws::says_maximized(entry) {
        assert(member_laws::not_maximized(entry.restore) == entry.restore);
        assert(after.effects =~= placed.effects + Seq::<Effect>::empty());
    } else {
        assert(after.effects =~= placed.effects + seq![Effect::Maximize { window: entry.mapped }]);
    }
    let j = shell.sets[i].active as int;
    let handle = shell.sets[i].workspaces[j].handle;
    assert(after.special[idx].entries =~= before.entries.push(
        SpecialWindow {
            mapped: entry.mapped,
            restore: member_laws::not_maximized(entry.restore),
            attached_to: Some(handle),
        },
    ));
}

/// An entry that is delivered to a visible special while the output has no
/// active workspace comes last and stays attached to nothing.
pub proof fn law_delivering_without_a_workspace(
    shell: ShellView,
    idx: int,
    entry: SpecialWindow,
    seat: Seat,
)
    requires
        member_laws::parked_once(shell.special),
        unparked(shell.special, entry.mapped),
        0 <= idx,
        outcome_laws::special_at(shell.special, idx).shown,
        outcome_laws::nothing_active(shell.sets, seat.active_output),
    ensures
        ({
            let after = shell.delivered(idx, entry, seat.active_output);
            let before = outcome_laws::special_at(shell.special, idx);
            &&& after.windows == shell.windows
            &&& after.sets == shell.sets
            &&& after.effects == shell.effects + (if member_laws::says_maximized(entry) {
                seq![Effect::Maximize { window: entry.mapped }]
            } else {
                Seq::empty()
            })
            &&& others_stay(shell.special, after.special, idx)
            &&& after.special[idx] == (StoreView {
                entries: before.entries.push(
                    SpecialWindow {
                        restore: member_laws::not_maximized(entry.restore),
                        ..entry
                    },
                ),
                shown: true,
                last_focused: before.last_focused,
            })
            &&& shell.delivered_focus(idx, entry, seat) is None
        }),
{
    let before = outcome_laws::special_at(shell.special, idx);
    let n = before.entries.len() as int;
    let stored = shell.stored(idx, entry);
    lemma_stored_exactly(shell, idx, entry);
    assert(stored.special[idx].entries[n] == entry);
    law_attaching_otherwise(stored, entry.mapped, seat.active_output, 0);
    member_laws::law_maximized_state_is_the_entrys_own(stored.special, idx, n);
    let after = stored.remaximized(entry.mapped);
    if !member_laws::says_maximized(entry) {
        assert(member_laws::not_maximized(entry.restore) == entry.restore);
        assert(after.effects =~= shell.effects + Seq::<Effect>::empty());
    } else {
        assert(after.effects =~= shell.effects + seq![Effect::Maximize { window: entry.mapped }]);
    }
    assert(after.special[idx].entries =~= before.entries.push(
        SpecialWindow { restore: member_laws::not_maximized(entry.restore), ..entry },
    ));
}

/// Once a window was delivered to a hidden special the keyboard goes back to a
/// regular window of the active workspace.
pub proof fn law_keyboard_after_delivering(
    shell: ShellView,
    idx: int,
    entry: SpecialWindow,
    seat: Seat,
    i: int,
    targets: Seq<FocusTarget>,
)
    requires
        unparked(shell.special, entry.mapped),
        0 <= idx,
        !outcome_laws::special_at(shell.special, idx).shown,
        outcome_laws::set_belongs(shell.sets, seat.active_output, i),
        shell.sets[i].active < shell.sets[i].workspaces.len() ==> outcome_laws::stack_belongs(
            shell.sets[i].workspaces[shell.sets[i].active as int],
            seat.id,
            targets,
        ),
    ensures
        shell.sets[i].active < shell.sets[i].workspaces.len() ==> outcome_laws::goes_back_to(
            shell.delivered(idx, entry, seat.active_output).special,
            shell.sets[i].workspaces[shell.sets[i].active as int],
            targets,
            shell.delivered_focus(idx, entry, seat),
        ),
        shell.sets[i].active >= shell.sets[i].workspaces.len() ==> shell.delivered_focus(
            idx,
            entry,
            seat,
        ) is None,
{
    lemma_stored_exactly(shell, idx, entry);
    let stored = shell.stored(idx, entry);
    outcome_laws::law_focus_candidate(stored, seat.id, seat.active_output, i, targets);
}

/// Without an active workspace there is no window to go back to.
pub proof fn law_no_keyboard_after_delivering(
    shell: ShellView,
    idx: int,
    entry: SpecialWindow,
    seat: Seat,
)
    requires
        unparked(shell.special, entry.mapped),
        0 <= idx,
        !outcome_laws::special_at(shell.special, idx).shown,
        outcome_laws::nothing_active(shell.sets, seat.active_output),
    ensures
        shell.delivered_focus(idx, entry, seat) is None,
{
    lemma_stored_exactly(shell, idx, entry);
    outcome_laws::lemma_nothing_active(shell.sets, seat.active_output);
}

/// Workspace `q` of set `p` is the first of all that has `window` on a layer.
pub open spec fn maps_first(sets: Seq<SetView>, p: int, q: int, window: WindowId) -> bool {
    &&& 0 <= p < sets.len()
    &&& 0 <= q < sets[p].workspaces.len()
    &&& (exists|a: int|
        0 <= a < sets[p].workspaces[q].floating.len() && (
        #[trigger] sets[p].workspaces[q].floating[a]).window == window) || (exists|a: int|
        0 <= a < sets[p].workspaces[q].tiling.len() && (
        #[trigger] sets[p].workspaces[q].tiling[a]).window == window)
    &&& forall|i: int, j: int, a: int|
        0 <= i < sets.len() && 0 <= j < sets[i].workspaces.len() && (i < p || (i == p && j < q))
            && 0 <= a < sets[i].workspaces[j].floating.len() ==> (
        #[trigger] sets[i].workspaces[j].floating[a]).window != window
    &&& forall|i: int, j: int, a: int|
        0 <= i < sets.len() && 0 <= j < sets[i].workspaces.len() && (i < p || (i == p && j < q))
            && 0 <= a < sets[i].workspaces[j].tiling.len() ==> (
        #[trigger] sets[i].workspaces[j].tiling[a]).window != window
}

/// No layer of any workspace has `window`.
pub open spec fn mapped_nowhere(sets: Seq<SetView>, window: WindowId) -> bool {
    &&& forall|i: int, j: int, a: int|
        0 <= i < sets.len() && 0 <= j < sets[i].workspaces.len() && 0 <= a
            < sets[i].workspaces[j].floating.len() ==> (
        #[trigger] sets[i].workspaces[j].floating[a]).window != window
    &&& forall|i: int, j: int, a: int|
        0 <= i < sets.len() && 0 <= j < sets[i].workspaces.len() && 0 <= a
            < sets[i].workspaces[j].tiling.len() ==> (
        #[trigger] sets[i].workspaces[j].tiling[a]).window != window
}

/// No sticky layer has `window`.
pub open spec fn sticky_nowhere(sets: Seq<SetView>, window: WindowId) -> bool {
    forall|i: int, a: int|
        0 <= i < sets.len() && 0 <= a < sets[i].sticky_layer.len() ==> (
        #[trigger] sets[i].sticky_layer[a]).window != window
}

/// `restore` is what the workspace hands out for `window`: what its first
/// element on the floating layer says, or else its first on the tiling layer.
pub open spec fn hands_out(
    workspace: WorkspaceView,
    window: WindowId,
    restore: Option<WorkspaceRestoreData>,
) -> bool {
    ||| exists|a: int|
        {
            &&& 0 <= a < workspace.floating.len()
            &&& (#[trigger] workspace.floating[a]).window == window
            &&& workspace.floating[a].restore == restore
            &&& forall|b: int| 0 <= b < a ==> (#[trigger] workspace.floating[b]).window != window
        }
    ||| {
        &&& forall|b: int|
            0 <= b < workspace.floating.len() ==> (#[trigger] workspace.floating[b]).window
                != window
        &&& exists|a: int|
            {
                &&& 0 <= a < workspace.tiling.len()
                &&& (#[trigger] workspace.tiling[a]).window == window
                &&& workspace.tiling[a].restore == restore
                &&& forall|b: int|
                    0 <= b < a ==> (#[trigger] workspace.tiling[b]).window != window
            }
    }
}

/// The first workspace of all that has the window is found, on whichever
/// output it is.
proof fn lemma_maps_first(sets: Seq<SetView>, p: int, q: int, window: WindowId)
    requires
        maps_first(sets, p, q, window),
    ensures
        workspaces::mapped_place(sets, window) == Some(Place { set: p, workspace: q }),
{
    layout_laws::law_mapped_window_is_found(sets, window);
    let place = workspaces::mapped_place(sets, window);
    if exists|a: int|
        0 <= a < sets[p].workspaces[q].floating.len() && (
        #[trigger] sets[p].workspaces[q].floating[a]).window == window {
        let a = choose|a: int|
            0 <= a < sets[p].workspaces[q].floating.len() && (
            #[trigger] sets[p].workspaces[q].floating[a]).window == window;
        assert(sets[p].workspaces[q].floating[a].window == window);
    } else {
        let a = choose|a: int|
            0 <= a < sets[p].workspaces[q].tiling.len() && (
            #[trigger] sets[p].workspaces[q].tiling[a]).window == window;
        assert(sets[p].workspaces[q].tiling[a].window == window);
    }
    assert(place is Some);
    let (i, j) = (place->0.set, place->0.workspace);
    let found = sets[i].workspaces[j];
    if exists|a: int|
        0 <= a < found.floating.len() && (#[trigger] found.floating[a]).window == window {
        let a = choose|a: int|
            0 <= a < found.floating.len() && (#[trigger] found.floating[a]).window == window;
        assert(sets[i].workspaces[j].floating[a].window == window);
    } else {
        let a = choose|a: int|
            0 <= a < found.tiling.len() && (#[trigger] found.tiling[a]).window == window;
        assert(sets[i].workspaces[j].tiling[a].window == window);
    }
}

/// What a workspace hands out.
proof fn lemma_hands_out(
    workspace: WorkspaceView,
    window: WindowId,
    restore: Option<WorkspaceRestoreData>,
)
    requires
        hands_out(workspace, window, restore),
    ensures
        workspace.restore_of(window) == restore,
{
    if exists|a: int|
        {
            &&& 0 <= a < workspace.floating.len()
            &&& (#[trigger] workspace.floating[a]).window == window
            &&& workspace.floating[a].restore == restore
            &&& forall|b: int| 0 <= b < a ==> (#[trigger] workspace.floating[b]).window != window
        } {
        let a = choose|a: int|
            {
                &&& 0 <= a < workspace.floating.len()
                &&& (#[trigger] workspace.floating[a]).window == window
                &&& workspace.floating[a].restore == restore
                &&& forall|b: int|
                    0 <= b < a ==> (#[trigger] workspace.floating[b]).window != window
            };
        layout_laws::law_restore_data_is_the_elements_own(workspace, window, a);
    } else {
        let a = choose|a: int|
            {
                &&& 0 <= a < workspace.tiling.len()
                &&& (#[trigger] workspace.tiling[a]).window == window
                &&& workspace.tiling[a].restore == restore
                &&& forall|b: int|
                    0 <= b < a ==> (#[trigger] workspace.tiling[b]).window != window
            };
        layout_laws::law_restore_data_is_the_elements_own(workspace, window, a);
    }
}

/// Sending a window of a workspace, on whichever output it is: it leaves the
/// workspace, clients are told, and it is delivered with what the workspace
/// handed out. Where the workspace refuses, nothing happens.
pub proof fn law_sending_a_mapped_window(
    shell: ShellView,
    idx: int,
    seat: Seat,
    window: WindowId,
    p: int,
    q: int,
    restore: Option<WorkspaceRestoreData>,
)
    requires
        sticky_nowhere(shell.sets, window),
        maps_first(shell.sets, p, q, window),
        hands_out(shell.sets[p].workspaces[q], window, restore),
    ensures
        ({
            let workspace = shell.sets[p].workspaces[q];
            let left = ShellView {
                special: shell.special,
                sets: replaced(shell.sets, p, q, off_the_workspace(workspace, window)),
                windows: shell.windows,
                effects: shell.effects + seq![
                    Effect::UnmapElement { handle: workspace.handle, window },
                    Effect::LeaveWorkspace { handle: workspace.handle, window },
                ],
            };
            let entry = SpecialWindow { mapped: window, restore, attached_to: None };
            &&& restore is Some ==> shell.detach_window(window) == (left, DetachStep::Done(restore))
            &&& restore is Some && unparked(shell.special, window) ==> shell.send_settled(
                idx,
                seat,
                window,
            ) == (
                left.delivered(idx, entry, seat.active_output),
                SendStep::Done(left.delivered_focus(idx, entry, seat)),
            )
            &&& restore is None ==> shell.detach_window(window) == (shell, DetachStep::Done(None))
            &&& restore is None && unparked(shell.special, window) ==> shell.send_settled(
                idx,
                seat,
                window,
            ) == (shell, SendStep::Done(None))
        }),
{
    let workspace = shell.sets[p].workspaces[q];
    if unparked(shell.special, window) {
        member_laws::law_parked_window_is_found(shell.special, window, 0, 0);
    }
    lemma_not_sticky(shell, window);
    lemma_maps_first(shell.sets, p, q, window);
    lemma_hands_out(workspace, window, restore);
    lemma_same_words(workspace, window);
    assert(shell.effects.push(Effect::UnmapElement { handle: workspace.handle, window }).push(
        Effect::LeaveWorkspace { handle: workspace.handle, window },
    ) =~= shell.effects + seq![
        Effect::UnmapElement { handle: workspace.handle, window },
        Effect::LeaveWorkspace { handle: workspace.handle, window },
    ]);
}

/// A window on no sticky layer is not sticky.
proof fn lemma_not_sticky(shell: ShellView, window: WindowId)
    requires
        sticky_nowhere(shell.sets, window),
    ensures
        !shell.is_sticky(window),
{
    layout_laws::law_sticky_window_is_found(shell.sets, window);
    if shell.is_sticky(window) {
        let i = seqs::first(shell.sets, workspaces::sticks(window))->0;
        let a = choose|a: int|
            0 <= a < shell.sets[i].sticky_layer.len() && (
            #[trigger] shell.sets[i].sticky_layer[a]).window == window;
        assert(shell.sets[i].sticky_layer[a].window == window);
    }
}

/// A window that is on no layout is not sent.
pub proof fn law_sending_an_unmapped_window(
    shell: ShellView,
    idx: int,
    seat: Seat,
    window: WindowId,
)
    requires
        sticky_nowhere(shell.sets, window),
        mapped_nowhere(shell.sets, window),
    ensures
        shell.detach_window(window) == (shell, DetachStep::Done(None)),
        unparked(shell.special, window) ==> shell.send_settled(idx, seat, window) == (
            shell,
            SendStep::Done(None),
        ),
{
    if unparked(shell.special, window) {
        member_laws::law_parked_window_is_found(shell.special, window, 0, 0);
    }
    lemma_not_sticky(shell, window);
    layout_laws::law_mapped_window_is_found(shell.sets, window);
    match workspaces::mapped_place(shell.sets, window) {
        Some(place) => {
            let (i, j) = (place.set, place.workspace);
            let found = shell.sets[i].workspaces[j];
            if exists|a: int|
                0 <= a < found.floating.len() && (#[trigger] found.floating[a]).window == window {
                let a = choose|a: int|
                    0 <= a < found.floating.len() && (#[trigger] found.floating[a]).window
                        == window;
                assert(shell.sets[i].workspaces[j].floating[a].window == window);
            } else {
                let a = choose|a: int|
                    0 <= a < found.tiling.len() && (#[trigger] found.tiling[a]).window == window;
                assert(shell.sets[i].workspaces[j].tiling[a].window == window);
            }
        },
        None => {},
    }
}

/// A window that was unmaximized but is on no sticky layer any more is not
/// sent.
pub proof fn law_unmaximized_but_not_sticky(
    shell: ShellView,
    idx: int,
    seat: Seat,
    window: WindowId,
)
    requires
        sticky_nowhere(shell.sets, window),
    ensures
        shell.send_unmaximized(idx, seat, window) == (shell, SendStep::Done(None)),
{
    lemma_not_sticky(shell, window);
}

/// Element `a` of set `i` is the first of all sticky layers that is `window`.
pub open spec fn sticks_first(sets: Seq<SetView>, i: int, a: int, window: WindowId) -> bool {
    &&& 0 <= i < sets.len()
    &&& 0 <= a < sets[i].sticky_layer.len()
    &&& sets[i].sticky_layer[a].window == window
    &&& forall|b: int| 0 <= b < a ==> (#[trigger] sets[i].sticky_layer[b]).window != window
    &&& forall|k: int, b: int|
        0 <= k < i && 0 <= b < sets[k].sticky_layer.len() ==> (
        #[trigger] sets[k].sticky_layer[b]).window != window
}

/// Sending a sticky window: while it is maximized it has to be unmaximized
/// first. Then it leaves the sticky layer and is delivered with its place on
/// the output.
pub proof fn law_sending_a_sticky_window(
    shell: ShellView,
    idx: int,
    seat: Seat,
    window: WindowId,
    i: int,
    a: int,
)
    requires
        sticks_first(shell.sets, i, a, window),
    ensures
        ({
            let left = ShellView {
                special: shell.special,
                sets: shell.sets.update(i, off_the_sticky_layer(shell.sets[i], window)),
                windows: shell.windows,
                effects: shell.effects.push(
                    Effect::UnmapSticky { output: shell.sets[i].output, window },
                ),
            };
            let restore = Some(
                WorkspaceRestoreData::Floating(
                    FloatingRestoreData {
                        geometry: shell.sets[i].sticky_layer[a].geometry,
                        output_size: shell.sets[i].output_size,
                        was_maximized: false,
                        was_snapped: None,
                    },
                ),
            );
            let entry = SpecialWindow { mapped: window, restore, attached_to: None };
            let sent = (
                left.delivered(idx, entry, seat.active_output),
                SendStep::Done(left.delivered_focus(idx, entry, seat)),
            );
            &&& shell.send_unmaximized(idx, seat, window) == sent
            &&& shell.unstuck(window) == left
            &&& shell.sticky_restore(window) == restore
            &&& transitions::is_maximized(shell.windows, window) ==> shell.detach_window(window)
                == (shell, DetachStep::Unmaximize)
            &&& !transitions::is_maximized(shell.windows, window) ==> shell.detach_window(window)
                == (left, DetachStep::Done(restore))
            &&& unparked(shell.special, window) ==> shell.send_settled(idx, seat, window) == (
            if transitions::is_maximized(shell.windows, window) {
                (shell, SendStep::Unmaximize { window })
            } else {
                sent
            })
        }),
{
    if unparked(shell.special, window) {
        member_laws::law_parked_window_is_found(shell.special, window, 0, 0);
    }
    let s = workspaces::sticks(window);
    assert(s(shell.sets[i]));
    assert forall|k: int| 0 <= k < i implies !s(#[trigger] shell.sets[k]) by {
        if model::sticky_has(shell.sets[k].sticky_layer, window) {
            let b = choose|b: int|
                0 <= b < shell.sets[k].sticky_layer.len() && (
                #[trigger] shell.sets[k].sticky_layer[b]).window == window;
            assert(shell.sets[k].sticky_layer[b].window == window);
        }
    }
    assert(seqs::is_first(shell.sets, s, i));
    seqs::lemma_first_at(shell.sets, s, i);
    let layer = shell.sets[i].sticky_layer;
    assert(seqs::is_first(layer, model::sticky_of(window), a));
    seqs::lemma_first_at(layer, model::sticky_of(window), a);
    layout_laws::law_leaving_the_sticky_layer(shell.sets[i], window);
    let after = workspaces::unstuck(shell.sets[i], window);
    let expected = off_the_sticky_layer(shell.sets[i], window);
    assert forall|j: int| 0 <= j < expected.workspaces.len() implies #[trigger] after.workspaces[j]
        == expected.workspaces[j] by {
        lemma_same_words(shell.sets[i].workspaces[j], window);
    }
    assert(after.workspaces =~= expected.workspaces);
}

/// Sending a window that is parked: it leaves every layer of every output, its
/// entry leaves the special that it was in, and it is delivered with the state
/// that was captured when it was first sent.
pub proof fn law_sending_a_parked_window(
    shell: ShellView,
    idx: int,
    seat: Seat,
    k: int,
    a: int,
)
    requires
        member_laws::parked_once(shell.special),
        0 <= k < shell.special.len(),
        0 <= a < shell.special[k].entries.len(),
    ensures
        ({
            let entry = SpecialWindow {
                mapped: shell.special[k].entries[a].mapped,
                restore: shell.special[k].entries[a].restore,
                attached_to: None,
            };
            let window = entry.mapped;
            let left = ShellView {
                special: shell.special.update(
                    k,
                    StoreView {
                        entries: shell.special[k].entries.remove(a),
                        shown: shell.special[k].shown,
                        last_focused: if shell.special[k].last_focused is Some
                            && shell.special[k].last_focused->0.mapped == window {
                            None
                        } else {
                            shell.special[k].last_focused
                        },
                    },
                ),
                sets: outcome_laws::sets_without(shell.sets, seq![window]),
                windows: shell.windows,
                effects: shell.effects + withdrawal_laws::lines(shell.sets, window),
            };
            &&& unparked(left.special, window)
            &&& member_laws::parked_once(left.special)
            &&& shell.send_settled(idx, seat, window) == (
                left.delivered(idx, entry, seat.active_output),
                SendStep::Done(left.delivered_focus(idx, entry, seat)),
            )
        }),
{
    let entry = SpecialWindow { attached_to: None, ..shell.special[k].entries[a] };
    let window = entry.mapped;
    member_laws::law_one_home_is_one_entry(shell.special);
    member_laws::law_the_entry_is_found(shell.special, k, a);
    member_laws::law_attaching_changes_one_entry(shell.special, k, a, None);
    let off = shell.withdrawn(window);
    assert(laws::same_members(shell.special, off.special));
    laws::lemma_same_members_one_home(shell.special, off.special);
    member_laws::law_one_home_is_one_entry(off.special);
    assert(off.special[k].entries[a] == entry);
    member_laws::law_the_entry_is_found(off.special, k, a);
    manager::lemma_home_is(off.special, window, k, a);
    let taken = off.taken(window);
    transitions::lemma_taken_one_home(off, window);
    member_laws::law_one_home_is_one_entry(taken.special);
    member_laws::law_taken_member_is_gone(off.special[k], a, window);
    assert(off.special[k].entries.remove(a) =~= shell.special[k].entries.remove(a));
    outcome_laws::lemma_cleared_alone(shell.sets, window);
    withdrawal_laws::law_withdrawal_goes_in_order(shell.sets, window);
    let left = ShellView {
        special: shell.special.update(
            k,
            StoreView {
                entries: shell.special[k].entries.remove(a),
                shown: shell.special[k].shown,
                last_focused: if shell.special[k].last_focused is Some
                    && shell.special[k].last_focused->0.mapped == window {
                    None
                } else {
                    shell.special[k].last_focused
                },
            },
        ),
        sets: outcome_laws::sets_without(shell.sets, seq![window]),
        windows: shell.windows,
        effects: shell.effects + withdrawal_laws::lines(shell.sets, window),
    };
    assert(taken.special =~= left.special);
    assert(taken == left);
    manager::lemma_home(taken.special, window);
    assert forall|m: int, b: int|
        0 <= m < left.special.len() && 0 <= b < left.special[m].entries.len() implies (
    #[trigger] left.special[m].entries[b]).mapped != window by {
        assert(!manager::holds(taken.special[m], window));
    }
}

/// The surface that a window is mapped fullscreen on is its active one, where
/// the fullscreen layer of any workspace holds that.
pub proof fn law_fullscreen_surface(shell: ShellView, window: WindowId, n: int)
    ensures
        0 <= n < shell.windows.len() && shell.windows[n].id == window && (forall|m: int|
            0 <= m < n ==> (#[trigger] shell.windows[m]).id != window)
            ==> shell.fullscreen_surface(window) == (if exists|i: int, j: int, a: int|
            0 <= i < shell.sets.len() && 0 <= j < shell.sets[i].workspaces.len() && 0 <= a
                < shell.sets[i].workspaces[j].fullscreen.len()
                && #[trigger] shell.sets[i].workspaces[j].fullscreen[a]
                == shell.windows[n].active_surface {
            Some(shell.windows[n].active_surface)
        } else {
            None
        }),
        (forall|m: int| 0 <= m < shell.windows.len() ==> (#[trigger] shell.windows[m]).id != window)
            ==> shell.fullscreen_surface(window) is None,
{
    let p = transitions::state_of(window);
    seqs::lemma_first(shell.windows, p);
    if seqs::first(shell.windows, p) is Some {
        assert(p(shell.windows[seqs::first(shell.windows, p)->0]));
    }
    if 0 <= n < shell.windows.len() && shell.windows[n].id == window && (forall|m: int|
        0 <= m < n ==> (#[trigger] shell.windows[m]).id != window) {
        assert(p(shell.windows[n]));
        assert(seqs::first(shell.windows, p)->0 == n);
        layout_laws::law_workspaces_of_all_outputs_count(
            shell.sets,
            WorkspaceHandle(0),
            shell.windows[n].active_surface,
        );
    }
}

/// Where a send begins: dead windows are dropped. A focused fullscreen surface,
/// and a focused window that is mapped fullscreen, are unfullscreened first;
/// another window is sent at once; anything else is not sent.
pub proof fn law_where_a_send_begins(shell: ShellView, idx: int, seat: Seat)
    ensures
        ({
            let ready = ShellView {
                special: Seq::new(
                    shell.special.len(),
                    |k: int|
                        StoreView {
                            entries: member_laws::live(shell.special[k].entries, shell.windows),
                            ..shell.special[k]
                        },
                ),
                ..shell
            };
            shell.send_current(idx, seat) == (match seat.focus {
                Some(KeyboardFocusTarget::Element(window)) => match ready.fullscreen_surface(
                    window,
                ) {
                    Some(surface) => (
                        ready,
                        SendStep::Unfullscreen { surface, stage: SendStage::Mapped(window) },
                    ),
                    None => ready.send_settled(idx, seat, window),
                },
                Some(KeyboardFocusTarget::Fullscreen(surface)) => (
                    ready,
                    SendStep::Unfullscreen { surface, stage: SendStage::Focused },
                ),
                _ => (ready, SendStep::Done(None)),
            })
        }),
{
    member_laws::law_windows_that_live_stay(shell.special, shell.windows);
    assert(shell.buried().special =~= Seq::new(
        shell.special.len(),
        |k: int|
            StoreView {
                entries: member_laws::live(shell.special[k].entries, shell.windows),
                ..shell.special[k]
            },
    ));
}

/// Where a send goes on once the compositor left fullscreen: with the window
/// that it handed back, which is tested for fullscreen again only where the
/// send began at a surface; where it handed none back, with the window that
/// the send began at, if it began at one.
pub proof fn law_where_a_send_goes_on(
    shell: ShellView,
    idx: int,
    seat: Seat,
    stage: SendStage,
    reply: Option<KeyboardFocusTarget>,
)
    ensures
        shell.send_unfullscreened(idx, seat, stage, reply) == (match reply {
            Some(KeyboardFocusTarget::Element(window)) => if stage is Focused
                && shell.fullscreen_surface(window) is Some {
                (
                    shell,
                    SendStep::Unfullscreen {
                        surface: shell.fullscreen_surface(window)->0,
                        stage: SendStage::Mapped(window),
                    },
                )
            } else {
                shell.send_settled(idx, seat, window)
            },
            _ => match stage {
                SendStage::Mapped(window) => shell.send_settled(idx, seat, window),
                SendStage::Focused => (shell, SendStep::Done(None)),
            },
        }),
{
}

/// A window that some workspace of some output maps, and lets go, is sent: it
/// ends up last in the special, with the state that an element of it holds.
pub proof fn law_a_mapped_window_goes_through(
    shell: ShellView,
    idx: int,
    seat: Seat,
    window: WindowId,
    i: int,
    j: int,
)
    requires
        member_laws::parked_once(shell.special),
        0 <= idx,
        unparked(shell.special, window),
        sticky_nowhere(shell.sets, window),
        0 <= i < shell.sets.len(),
        0 <= j < shell.sets[i].workspaces.len(),
        (exists|a: int|
            0 <= a < shell.sets[i].workspaces[j].floating.len() && (
            #[trigger] shell.sets[i].workspaces[j].floating[a]).window == window) || (exists|a: int|
            0 <= a < shell.sets[i].workspaces[j].tiling.len() && (
            #[trigger] shell.sets[i].workspaces[j].tiling[a]).window == window),
        forall|p: int, q: int, a: int|
            0 <= p < shell.sets.len() && 0 <= q < shell.sets[p].workspaces.len() && 0 <= a
                < shell.sets[p].workspaces[q].floating.len() && (
            #[trigger] shell.sets[p].workspaces[q].floating[a]).window == window
                ==> shell.sets[p].workspaces[q].floating[a].restore is Some,
        forall|p: int, q: int, a: int|
            0 <= p < shell.sets.len() && 0 <= q < shell.sets[p].workspaces.len() && 0 <= a
                < shell.sets[p].workspaces[q].tiling.len() && (
            #[trigger] shell.sets[p].workspaces[q].tiling[a]).window == window
                ==> shell.sets[p].workspaces[q].tiling[a].restore is Some,
    ensures
        ({
            let (after, step) = shell.send_settled(idx, seat, window);
            let members = after.special[idx].entries;
            &&& step is Done
            &&& idx < after.special.len()
            &&& members.len() == outcome_laws::special_at(shell.special, idx).entries.len() + 1
            &&& members.last().mapped == window
            &&& members.last().restore is Some
        }),
{
    layout_laws::law_mapped_window_is_found(shell.sets, window);
    if exists|a: int|
        0 <= a < shell.sets[i].workspaces[j].floating.len() && (
        #[trigger] shell.sets[i].workspaces[j].floating[a]).window == window {
        let a = choose|a: int|
            0 <= a < shell.sets[i].workspaces[j].floating.len() && (
            #[trigger] shell.sets[i].workspaces[j].floating[a]).window == window;
        assert(shell.sets[i].workspaces[j].floating[a].window == window);
    } else {
        let a = choose|a: int|
            0 <= a < shell.sets[i].workspaces[j].tiling.len() && (
            #[trigger] shell.sets[i].workspaces[j].tiling[a]).window == window;
        assert(shell.sets[i].workspaces[j].tiling[a].window == window);
    }
    let place = workspaces::mapped_place(shell.sets, window)->0;
    let (p, q) = (place.set, place.workspace);
    let workspace = shell.sets[p].workspaces[q];
    assert(maps_first(shell.sets, p, q, window));
    let floating = model::element_of(window);
    seqs::lemma_first(workspace.floating, floating);
    seqs::lemma_first(workspace.tiling, floating);
    let restore = if seqs::first(workspace.floating, floating) is Some {
        let a = seqs::first(workspace.floating, floating)->0;
        assert(floating(workspace.floating[a]));
        assert(shell.sets[p].workspaces[q].floating[a].restore is Some);
        assert forall|b: int| 0 <= b < a implies (#[trigger] workspace.floating[b]).window
            != window by {
            assert(!floating(workspace.floating[b]));
        }
        workspace.floating[a].restore
    } else {
        assert forall|b: int| 0 <= b < workspace.floating.len() implies (
        #[trigger] workspace.floating[b]).window != window by {
            assert(!floating(workspace.floating[b]));
        }
        let c = choose|c: int|
            0 <= c < workspace.tiling.len() && (#[trigger] workspace.tiling[c]).window == window;
        assert(floating(workspace.tiling[c]));
        let a = seqs::first(workspace.tiling, floating)->0;
        assert(floating(workspace.tiling[a]));
        assert(shell.sets[p].workspaces[q].tiling[a].restore is Some);
        assert forall|b: int| 0 <= b < a implies (#[trigger] workspace.tiling[b]).window
            != window by {
            assert(!floating(workspace.tiling[b]));
        }
        workspace.tiling[a].restore
    };
    assert(hands_out(workspace, window, restore));
    law_sending_a_mapped_window(shell, idx, seat, window, p, q, restore);
    let left = ShellView {
        special: shell.special,
        sets: replaced(shell.sets, p, q, off_the_workspace(workspace, window)),
        windows: shell.windows,
        effects: shell.effects + seq![
            Effect::UnmapElement { handle: workspace.handle, window },
            Effect::LeaveWorkspace { handle: workspace.handle, window },
        ],
    };
    let entry = SpecialWindow { mapped: window, restore, attached_to: None };
    if !outcome_laws::special_at(shell.special, idx).shown {
        law_delivering_to_a_hidden_special(left, idx, entry, seat.active_output);
    } else {
        let s = workspaces::set_of(seat.active_output);
        seqs::lemma_first(left.sets, s);
        match seqs::first(left.sets, s) {
            Some(k) => {
                assert(s(left.sets[k]));
                assert forall|m: int| 0 <= m < k implies (#[trigger] left.sets[m]).output
                    != seat.active_output by {
                    assert(!s(left.sets[m]));
                }
                assert(outcome_laws::set_belongs(left.sets, seat.active_output, k));
                if left.sets[k].active < left.sets[k].workspaces.len() {
                    law_delivering_to_a_visible_special(left, idx, entry, seat, k);
                } else {
                    law_delivering_without_a_workspace(left, idx, entry, seat);
                }
            },
            None => {
                assert forall|m: int| 0 <= m < left.sets.len() implies (
                #[trigger] left.sets[m]).output != seat.active_output by {
                    assert(!s(left.sets[m]));
                }
                law_delivering_without_a_workspace(left, idx, entry, seat);
            },
        }
    }
}

/// The focused window, where some workspace of some output maps it and lets it
/// go, and it is not mapped fullscreen, is sent in one step.
pub proof fn law_the_focused_window_goes_through(
    shell: ShellView,
    idx: int,
    seat: Seat,
    window: WindowId,
    i: int,
    j: int,
)
    requires
        member_laws::parked_once(shell.special),
        0 <= idx,
        seat.focus == Some(KeyboardFocusTarget::Element(window)),
        forall|n: int, p: int, q: int, a: int|
            0 <= n < shell.windows.len() && (#[trigger] shell.windows[n]).id == window && 0 <= p
                < shell.sets.len() && 0 <= q < shell.sets[p].workspaces.len() && 0 <= a
                < shell.sets[p].workspaces[q].fullscreen.len()
                ==> #[trigger] shell.sets[p].workspaces[q].fullscreen[a]
                != shell.windows[n].active_surface,
        unparked(shell.special, window),
        sticky_nowhere(shell.sets, window),
        0 <= i < shell.sets.len(),
        0 <= j < shell.sets[i].workspaces.len(),
        (exists|a: int|
            0 <= a < shell.sets[i].workspaces[j].floating.len() && (
            #[trigger] shell.sets[i].workspaces[j].floating[a]).window == window) || (exists|a: int|
            0 <= a < shell.sets[i].workspaces[j].tiling.len() && (
            #[trigger] shell.sets[i].workspaces[j].tiling[a]).window == window),
        forall|p: int, q: int, a: int|
            0 <= p < shell.sets.len() && 0 <= q < shell.sets[p].workspaces.len() && 0 <= a
                < shell.sets[p].workspaces[q].floating.len() && (
            #[trigger] shell.sets[p].workspaces[q].floating[a]).window == window
                ==> shell.sets[p].workspaces[q].floating[a].restore is Some,
        forall|p: int, q: int, a: int|
            0 <= p < shell.sets.len() && 0 <= q < shell.sets[p].workspaces.len() && 0 <= a
                < shell.sets[p].workspaces[q].tiling.len() && (
            #[trigger] shell.sets[p].workspaces[q].tiling[a]).window == window
                ==> shell.sets[p].workspaces[q].tiling[a].restore is Some,
    ensures
        ({
            let (after, step) = shell.send_current(idx, seat);
            let members = after.special[idx].entries;
            &&& step is Done
            &&& idx < after.special.len()
            &&& members.len() > 0
            &&& members.last().mapped == window
            &&& members.last().restore is Some
        }),
{
    law_where_a_send_begins(shell, idx, seat);
    let ready = shell.buried();
    member_laws::law_windows_that_live_stay(shell.special, shell.windows);
    assert(ready.special =~= Seq::new(
        shell.special.len(),
        |k: int|
            StoreView {
                entries: member_laws::live(shell.special[k].entries, shell.windows),
                ..shell.special[k]
            },
    ));
    let p = |e: SpecialWindow| member_laws::lives(shell.windows, e.mapped);
    member_laws::law_one_home_is_one_entry(shell.special);
    manager::lemma_without_dead_one_home(shell.special, shell.windows);
    member_laws::law_one_home_is_one_entry(ready.special);
    assert forall|k: int, a: int|
        0 <= k < ready.special.len() && 0 <= a < ready.special[k].entries.len() implies (
    #[trigger] ready.special[k].entries[a]).mapped != window by {
        let entries = shell.special[k].entries;
        assert(ready.special[k].entries == entries.filter(p));
        seqs::lemma_filter_from(entries, p, a);
        let b = choose|b: int| 0 <= b < entries.len() && #[trigger] entries[b] == entries.filter(p)[a];
        assert(shell.special[k].entries[b].mapped != window);
    }
    let first = seqs::first(shell.windows, transitions::state_of(window));
    seqs::lemma_first(shell.windows, transitions::state_of(window));
    if first is Some {
        assert(transitions::state_of(window)(shell.windows[first->0]));
        assert forall|m: int| 0 <= m < first->0 implies (#[trigger] shell.windows[m]).id
            != window by {
            assert(!transitions::state_of(window)(shell.windows[m]));
        }
        law_fullscreen_surface(ready, window, first->0);
    }
    assert(ready.fullscreen_surface(window) is None);
    law_a_mapped_window_goes_through(ready, idx, seat, window, i, j);
}

} // verus!
