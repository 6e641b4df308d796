//! What toggling a special leaves behind: the books, the layouts, what the
//! compositor is asked for and where the keyboard goes.

use vstd::prelude::*;
use vstd::std_specs::cmp::PartialEqSpec;

use crate::laws;
use crate::layout_laws;
use crate::manager;
use crate::manager::{SpecialWindow, Specials};
use crate::member_laws;
use crate::model::{
    Effect, FocusTarget, KeyboardFocusTarget, MappedElement, OutputId, Seat, SeatId, SeatStackView,
    SetView, StickyElement, WindowId, WorkspaceHandle, WorkspaceView,
};
use crate::presence;
use crate::seqs;
use crate::shell::Shell;
use crate::store::StoreView;
use crate::transitions;
use crate::transitions::{Attachment, ShellView};
use crate::visibility;
use crate::workspaces;
use crate::workspaces::Place;

verus! {

/// The target is one of `windows`.
pub open spec fn targets_one(target: FocusTarget, windows: Seq<WindowId>) -> bool {
    match target {
        FocusTarget::Window(window) => windows.contains(window),
        FocusTarget::Fullscreen(_) => false,
    }
}

/// A workspace without any of `windows` on its layers or in its focus stacks.
pub open spec fn workspace_without(workspace: WorkspaceView, windows: Seq<WindowId>) -> WorkspaceView {
    WorkspaceView {
        handle: workspace.handle,
        floating: workspace.floating.filter(|e: MappedElement| !windows.contains(e.window)),
        tiling: workspace.tiling.filter(|e: MappedElement| !windows.contains(e.window)),
        fullscreen: workspace.fullscreen,
        focus_stack: Seq::new(
            workspace.focus_stack.len(),
            |s: int|
                SeatStackView {
                    seat: workspace.focus_stack[s].seat,
                    targets: workspace.focus_stack[s].targets.filter(
                        |t: FocusTarget| !targets_one(t, windows),
                    ),
                },
        ),
    }
}

/// The layouts without any of `windows`, on any layer of any output or in any
/// focus stack.
pub open spec fn sets_without(sets: Seq<SetView>, windows: Seq<WindowId>) -> Seq<SetView> {
    Seq::new(
        sets.len(),
        |i: int|
            SetView {
                output: sets[i].output,
                output_size: sets[i].output_size,
                active: sets[i].active,
                sticky_layer: sets[i].sticky_layer.filter(
                    |e: StickyElement| !windows.contains(e.window),
                ),
                workspaces: Seq::new(
                    sets[i].workspaces.len(),
                    |j: int| workspace_without(sets[i].workspaces[j], windows),
                ),
            },
    )
}

/// Set `i` is the one of `output`.
pub open spec fn set_belongs(sets: Seq<SetView>, output: OutputId, i: int) -> bool {
    &&& 0 <= i < sets.len()
    &&& sets[i].output == output
    &&& forall|k: int| 0 <= k < i ==> (#[trigger] sets[k]).output != output
}

/// The windows of entries.
pub open spec fn windows_of(entries: Seq<SpecialWindow>) -> Seq<WindowId> {
    entries.map_values(|e: SpecialWindow| e.mapped)
}

/// The entries that are attached to nothing.
pub open spec fn loose_of(entries: Seq<SpecialWindow>) -> Seq<SpecialWindow> {
    entries.filter(|e: SpecialWindow| e.attached_to is None)
}

/// Leaving the layouts one window after the other is leaving them together.
proof fn lemma_cleared_once_more(sets: Seq<SetView>, windows: Seq<WindowId>)
    requires
        windows.len() > 0,
    ensures
        workspaces::all_cleared(sets_without(sets, windows.drop_last()), windows.last())
            == sets_without(sets, windows),
{
    let rest = windows.drop_last();
    let window = windows.last();
    let mid = sets_without(sets, rest);
    let after = workspaces::all_cleared(mid, window);
    let expected = sets_without(sets, windows);
    layout_laws::law_clearing_reaches_every_layer(mid, window);
    visibility::lemma_rest_contains(windows);
    let p = |e: MappedElement| !rest.contains(e.window);
    let q = |e: MappedElement| e.window != window;
    let both = |e: MappedElement| !windows.contains(e.window);
    let ps = |e: StickyElement| !rest.contains(e.window);
    let qs = |e: StickyElement| e.window != window;
    let boths = |e: StickyElement| !windows.contains(e.window);
    let pt = |t: FocusTarget| !targets_one(t, rest);
    let qt = |t: FocusTarget| t != FocusTarget::Window(window);
    let botht = |t: FocusTarget| !targets_one(t, windows);
    assert forall|i: int| 0 <= i < sets.len() implies #[trigger] after[i] == expected[i] by {
        seqs::lemma_filter_twice(sets[i].sticky_layer, ps, qs, boths);
        assert(after[i].output == mid[i].output);
        assert forall|j: int| 0 <= j < sets[i].workspaces.len() implies #[trigger] after[i].workspaces[j]
            == expected[i].workspaces[j] by {
            let workspace = sets[i].workspaces[j];
            seqs::lemma_filter_twice(workspace.floating, p, q, both);
            seqs::lemma_filter_twice(workspace.tiling, p, q, both);
            assert forall|s: int| 0 <= s < workspace.focus_stack.len() implies #[trigger] after[i].workspaces[j].focus_stack[s]
                == expected[i].workspaces[j].focus_stack[s] by {
                seqs::lemma_filter_twice(workspace.focus_stack[s].targets, pt, qt, botht);
            }
            assert(after[i].workspaces[j].focus_stack =~= expected[i].workspaces[j].focus_stack);
        }
        assert(after[i].workspaces =~= expected[i].workspaces);
    }
    assert(after =~= expected);
}

/// Without windows to leave, the layouts stay.
proof fn lemma_without_none(sets: Seq<SetView>, windows: Seq<WindowId>)
    requires
        windows.len() == 0,
    ensures
        sets_without(sets, windows) == sets,
{
    let after = sets_without(sets, windows);
    let all = |e: MappedElement| !windows.contains(e.window);
    let alls = |e: StickyElement| !windows.contains(e.window);
    let allt = |t: FocusTarget| !targets_one(t, windows);
    assert forall|i: int| 0 <= i < sets.len() implies #[trigger] after[i] == sets[i] by {
        seqs::lemma_filter_all(sets[i].sticky_layer, alls);
        assert forall|j: int| 0 <= j < sets[i].workspaces.len() implies #[trigger] after[i].workspaces[j]
            == sets[i].workspaces[j] by {
            let workspace = sets[i].workspaces[j];
            seqs::lemma_filter_all(workspace.floating, all);
            seqs::lemma_filter_all(workspace.tiling, all);
            assert forall|s: int| 0 <= s < workspace.focus_stack.len() implies #[trigger] after[i].workspaces[j].focus_stack[s]
                == workspace.focus_stack[s] by {
                seqs::lemma_filter_all(workspace.focus_stack[s].targets, allt);
            }
            assert(after[i].workspaces[j].focus_stack =~= workspace.focus_stack);
        }
        assert(after[i].workspaces =~= sets[i].workspaces);
    }
    assert(after =~= sets);
}

/// Clearing one window away.
pub proof fn lemma_cleared_alone(sets: Seq<SetView>, window: WindowId)
    ensures
        workspaces::all_cleared(sets, window) == sets_without(sets, seq![window]),
{
    let only = seq![window];
    lemma_without_none(sets, only.drop_last());
    lemma_cleared_once_more(sets, only);
}

/// Withdrawing parked windows takes them off the layouts, loosens their
/// entries and does nothing else to the books.
pub proof fn lemma_withdrawn_each_exactly(shell: ShellView, windows: Seq<WindowId>)
    requires
        manager::one_home(shell.special),
        visibility::all_parked(shell.special, windows),
    ensures
        ({
            let after = shell.withdrawn_each(windows);
            &&& after.sets == sets_without(shell.sets, windows)
            &&& after.windows == shell.windows
            &&& visibility::all_reattached(shell.special, after.special, windows, None)
            &&& forall|i: int|
                0 <= i < shell.special.len() ==> (#[trigger] after.special[i]).last_focused
                    == shell.special[i].last_focused
        }),
    decreases windows.len(),
{
    laws::lemma_withdrawn_each_focus(shell, windows);
    if windows.len() == 0 {
        lemma_without_none(shell.sets, windows);
    } else {
        let rest = windows.drop_last();
        let window = windows.last();
        visibility::lemma_rest_parked(shell.special, windows);
        lemma_withdrawn_each_exactly(shell, rest);
        let mid = shell.withdrawn_each(rest);
        visibility::lemma_reattached_homes(shell.special, mid.special);
        manager::lemma_home(mid.special, window);
        let k = manager::home(mid.special, window)->0;
        let x = seqs::first(mid.special[k].entries, manager::is_window(window))->0;
        visibility::lemma_withdrawn_entry(mid, window, k, x);
        visibility::lemma_reattached_one_more(
            shell.special,
            mid.special,
            mid.withdrawn(window).special,
            windows,
            k,
            x,
            None,
        );
        lemma_cleared_once_more(shell.sets, windows);
    }
}

/// Hiding a special: its living members leave every layer of every output and
/// every focus stack, and nothing else does. Their entries stay, in order and
/// attached to nothing; the member that had the keyboard is the one that
/// focus returns to; the other specials lose their dead windows alone.
pub proof fn law_hiding_a_special(shell: ShellView, idx: int, seat: Seat)
    requires
        member_laws::parked_once(shell.special),
        0 <= idx < shell.special.len(),
        shell.special[idx].shown,
    ensures
        ({
            let after = shell.toggled(idx, seat);
            let members = member_laws::live(shell.special[idx].entries, shell.windows);
            &&& after.windows == shell.windows
            &&& after.sets == sets_without(shell.sets, windows_of(members))
            &&& after.special.len() == shell.special.len()
            &&& forall|i: int|
                0 <= i < shell.special.len() && i != idx ==> (#[trigger] after.special[i]) == (
                StoreView {
                    entries: member_laws::live(shell.special[i].entries, shell.windows),
                    shown: shell.special[i].shown,
                    last_focused: shell.special[i].last_focused,
                })
            &&& !after.special[idx].shown
            &&& after.special[idx].entries == members.map_values(
                |e: SpecialWindow|
                    SpecialWindow { mapped: e.mapped, restore: e.restore, attached_to: None },
            )
            &&& forall|a: int|
                0 <= a < members.len() && seat.focus == Some(
                    KeyboardFocusTarget::Element((#[trigger] members[a]).mapped),
                ) ==> after.special[idx].last_focused == Some(members[a])
            &&& (forall|a: int|
                0 <= a < members.len() ==> seat.focus != Some(
                    KeyboardFocusTarget::Element((#[trigger] members[a]).mapped),
                )) ==> after.special[idx].last_focused == shell.special[idx].last_focused
        }),
{
    member_laws::law_one_home_is_one_entry(shell.special);
    let ready = shell.buried().grown(idx);
    let members = member_laws::live(shell.special[idx].entries, shell.windows);
    laws::lemma_ready_one_home(shell, idx);
    member_laws::law_windows_that_live_stay(shell.special, shell.windows);
    member_laws::law_specials_are_made_on_demand(shell.buried().special, idx);
    assert(ready.special == shell.buried().special);
    let off = ready.with_shown(idx, false);
    assert(laws::same_members(ready.special, off.special));
    laws::lemma_same_members_one_home(ready.special, off.special);
    let noted = off.with_focus_noted(idx, seat.focus);
    laws::lemma_focus_noted(off, idx, seat.focus);
    assert(laws::same_members(off.special, noted.special));
    laws::lemma_same_members_one_home(off.special, noted.special);
    let windows = Attachment::Any.windows(noted.special[idx]);
    member_laws::law_windows_asked_for(noted.special[idx], WorkspaceHandle(0));
    assert(noted.special[idx].entries == members);
    assert(windows == windows_of(members));
    laws::lemma_windows_home(noted.special, Attachment::Any, idx);
    assert forall|w: int| 0 <= w < windows.len() implies manager::home(
        noted.special,
        #[trigger] windows[w],
    ) is Some by {
        assert(windows[w] == Attachment::Any.windows(noted.special[idx])[w]);
    }
    lemma_withdrawn_each_exactly(noted, windows);
    let after = noted.withdrawn_each(windows);
    assert forall|i: int| 0 <= i < shell.special.len() && i != idx implies #[trigger] after.special[i]
        == ready.special[i] by {
        assert forall|y: int| 0 <= y < ready.special[i].entries.len() implies #[trigger] after.special[i].entries[y]
            == ready.special[i].entries[y] by {
            let window = noted.special[i].entries[y].mapped;
            if windows.contains(window) {
                let w = windows.index_of(window);
                assert(noted.special[idx].entries[w].mapped == window);
            }
        }
        assert(after.special[i].entries =~= ready.special[i].entries);
    }
    assert forall|y: int| 0 <= y < members.len() implies #[trigger] after.special[idx].entries[y]
        == (SpecialWindow { attached_to: None, ..members[y] }) by {
        assert(windows[y] == noted.special[idx].entries[y].mapped);
        assert(windows.contains(noted.special[idx].entries[y].mapped));
    }
    assert(after.special[idx].entries =~= members.map_values(
        |e: SpecialWindow| SpecialWindow { mapped: e.mapped, restore: e.restore, attached_to: None },
    ));
    assert forall|a: int|
        0 <= a < members.len() && seat.focus == Some(
            KeyboardFocusTarget::Element((#[trigger] members[a]).mapped),
        ) implies noted.special[idx].last_focused == Some(members[a]) by {
        assert(off.special[idx].entries[a] == members[a]);
        manager::lemma_home_is(off.special, members[a].mapped, idx, a);
    }
    if forall|a: int|
        0 <= a < members.len() ==> seat.focus != Some(
            KeyboardFocusTarget::Element((#[trigger] members[a]).mapped),
        ) {
        if seat.focus is Some && seat.focus->0 is Element {
            let window = seat.focus->0->Element_0;
            manager::lemma_home(off.special, window);
            if manager::home(off.special, window) == Some(idx) {
                let a = seqs::first(off.special[idx].entries, manager::is_window(window))->0;
                assert(members[a].mapped == window);
            }
        }
    }
}

/// `window` has an entry in a special.
pub open spec fn is_parked(specials: Specials, window: WindowId) -> bool {
    exists|k: int, a: int|
        0 <= k < specials.len() && 0 <= a < specials[k].entries.len() && (
        #[trigger] specials[k].entries[a]).mapped == window
}

/// The target is not a window that is parked nowhere.
pub open spec fn passed_over(specials: Specials, target: FocusTarget) -> bool {
    match target {
        FocusTarget::Window(window) => is_parked(specials, window),
        FocusTarget::Fullscreen(_) => true,
    }
}

/// `targets` is the focus stack of `seat` on a workspace.
pub open spec fn stack_belongs(
    workspace: WorkspaceView,
    seat: SeatId,
    targets: Seq<FocusTarget>,
) -> bool {
    ||| exists|s: int|
        {
            &&& 0 <= s < workspace.focus_stack.len()
            &&& (#[trigger] workspace.focus_stack[s]).seat == seat
            &&& workspace.focus_stack[s].targets == targets
            &&& forall|r: int| 0 <= r < s ==> (#[trigger] workspace.focus_stack[r]).seat != seat
        }
    ||| {
        &&& targets.len() == 0
        &&& forall|r: int|
            0 <= r < workspace.focus_stack.len() ==> (#[trigger] workspace.focus_stack[r]).seat
                != seat
    }
}

/// `focus` is the most recently focused window of the workspace that is parked
/// nowhere, and where there is none the lowest floating window, or else the
/// first tiled one.
pub open spec fn goes_back_to(
    specials: Specials,
    workspace: WorkspaceView,
    targets: Seq<FocusTarget>,
    focus: Option<KeyboardFocusTarget>,
) -> bool {
    &&& forall|a: int|
        0 <= a < targets.len() && !passed_over(specials, #[trigger] targets[a]) && (forall|b: int|
            0 <= b < a ==> passed_over(specials, #[trigger] targets[b])) ==> focus == Some(
            KeyboardFocusTarget::Element(targets[a]->Window_0),
        )
    &&& (forall|b: int| 0 <= b < targets.len() ==> passed_over(specials, #[trigger] targets[b]))
        ==> focus == (if workspace.floating.len() > 0 {
        Some(KeyboardFocusTarget::Element(workspace.floating[0].window))
    } else if workspace.tiling.len() > 0 {
        Some(KeyboardFocusTarget::Element(workspace.tiling[0].window))
    } else {
        None
    })
}

/// The keyboard goes back to a regular window of the active workspace of the
/// output.
pub proof fn law_focus_candidate(
    shell: ShellView,
    seat: SeatId,
    output: OutputId,
    i: int,
    targets: Seq<FocusTarget>,
)
    requires
        set_belongs(shell.sets, output, i),
        shell.sets[i].active < shell.sets[i].workspaces.len() ==> stack_belongs(
            shell.sets[i].workspaces[shell.sets[i].active as int],
            seat,
            targets,
        ),
    ensures
        shell.sets[i].active < shell.sets[i].workspaces.len() ==> goes_back_to(
            shell.special,
            shell.sets[i].workspaces[shell.sets[i].active as int],
            targets,
            shell.focus_candidate(seat, output),
        ),
        shell.sets[i].active >= shell.sets[i].workspaces.len() ==> shell.focus_candidate(
            seat,
            output,
        ) is None,
{
    layout_laws::law_active_workspace_is_the_sets_own(shell.sets, output, i);
    if shell.sets[i].active < shell.sets[i].workspaces.len() {
        let workspace = shell.sets[i].workspaces[shell.sets[i].active as int];
        if exists|s: int|
            {
                &&& 0 <= s < workspace.focus_stack.len()
                &&& (#[trigger] workspace.focus_stack[s]).seat == seat
                &&& workspace.focus_stack[s].targets == targets
                &&& forall|r: int| 0 <= r < s ==> (#[trigger] workspace.focus_stack[r]).seat != seat
            } {
            let s = choose|s: int|
                {
                    &&& 0 <= s < workspace.focus_stack.len()
                    &&& (#[trigger] workspace.focus_stack[s]).seat == seat
                    &&& workspace.focus_stack[s].targets == targets
                    &&& forall|r: int|
                        0 <= r < s ==> (#[trigger] workspace.focus_stack[r]).seat != seat
                };
            layout_laws::law_focus_stack_is_the_seats_own(workspace, seat, s);
        } else {
            layout_laws::law_focus_stack_is_the_seats_own(workspace, seat, 0);
            assert(workspace.targets_of(seat) =~= targets);
        }
        assert(workspace.targets_of(seat) == targets);
        layout_laws::law_base_is_the_lowest_window(workspace);
        let p = transitions::eligible(shell.special);
        assert forall|t: FocusTarget| #[trigger] p(t) <==> !passed_over(shell.special, t) by {
            member_laws::law_who_may_get_the_keyboard(shell.special, t);
        }
        seqs::lemma_first(targets, p);
        assert forall|a: int|
            0 <= a < targets.len() && !passed_over(shell.special, #[trigger] targets[a]) && (forall|
                b: int,
            |
                0 <= b < a ==> passed_over(shell.special, #[trigger] targets[b])) implies shell.focus_candidate(
            seat,
            output,
        ) == Some(KeyboardFocusTarget::Element(targets[a]->Window_0)) by {
            assert(p(targets[a]));
            assert(seqs::is_first(targets, p, a));
            seqs::lemma_first_at(targets, p, a);
        }
        if forall|b: int|
            0 <= b < targets.len() ==> passed_over(shell.special, #[trigger] targets[b]) {
            seqs::lemma_first_none(targets, p);
        }
    }
}

/// Without an active workspace there is no window to go back to, also after a
/// special is hidden.
pub proof fn law_no_focus_candidate(shell: ShellView, idx: int, seat: Seat)
    requires
        nothing_active(shell.sets, seat.active_output),
    ensures
        shell.focus_candidate(seat.id, seat.active_output) is None,
        member_laws::parked_once(shell.special) && 0 <= idx < shell.special.len()
            && shell.special[idx].shown ==> shell.toggle_focus(idx, seat) is None,
{
    lemma_nothing_active(shell.sets, seat.active_output);
    if member_laws::parked_once(shell.special) && 0 <= idx < shell.special.len()
        && shell.special[idx].shown {
        law_hiding_a_special(shell, idx, seat);
        let after = shell.toggled(idx, seat);
        assert(presence::same_shape(shell.sets, after.sets));
        presence::lemma_same_active(shell.sets, after.sets, seat.active_output);
    }
}

/// Once a special is hidden the keyboard goes back to a regular window of the
/// active workspace, as it is then.
pub proof fn law_keyboard_after_hiding(
    shell: ShellView,
    idx: int,
    seat: Seat,
    i: int,
    targets: Seq<FocusTarget>,
)
    requires
        0 <= idx < shell.special.len(),
        shell.special[idx].shown,
        set_belongs(shell.toggled(idx, seat).sets, seat.active_output, i),
        shell.toggled(idx, seat).sets[i].active < shell.toggled(idx, seat).sets[i].workspaces.len(),
        stack_belongs(
            shell.toggled(idx, seat).sets[i].workspaces[shell.toggled(
                idx,
                seat,
            ).sets[i].active as int],
            seat.id,
            targets,
        ),
    ensures
        goes_back_to(
            shell.toggled(idx, seat).special,
            shell.toggled(idx, seat).sets[i].workspaces[shell.toggled(
                idx,
                seat,
            ).sets[i].active as int],
            targets,
            shell.toggle_focus(idx, seat),
        ),
{
    law_focus_candidate(shell.toggled(idx, seat), seat.id, seat.active_output, i, targets);
}

/// A pair of effects for each of `windows`: it is floated on the workspace,
/// and clients are told.
pub open spec fn floating_effects(windows: Seq<WindowId>, handle: WorkspaceHandle) -> Seq<Effect> {
    Seq::new(
        2 * windows.len(),
        |n: int|
            if n % 2 == 0 {
                Effect::MapFloating { handle, window: windows[n / 2] }
            } else {
                Effect::EnterWorkspace { handle, window: windows[n / 2] }
            },
    )
}

/// The layouts with `windows` on top of the floating layer of one workspace,
/// in order.
pub open spec fn sets_floating(
    sets: Seq<SetView>,
    i: int,
    j: int,
    windows: Seq<WindowId>,
) -> Seq<SetView> {
    let workspace = sets[i].workspaces[j];
    sets.update(
        i,
        SetView {
            workspaces: sets[i].workspaces.update(
                j,
                WorkspaceView {
                    floating: workspace.floating.filter(
                        |e: MappedElement| !windows.contains(e.window),
                    ) + windows.map_values(|w: WindowId| MappedElement { window: w, restore: None }),
                    ..workspace
                },
            ),
            ..sets[i]
        },
    )
}

/// Floating one more window.
proof fn lemma_floating_one_more(sets: Seq<SetView>, i: int, j: int, windows: Seq<WindowId>)
    requires
        0 <= i < sets.len(),
        0 <= j < sets[i].workspaces.len(),
        windows.len() > 0,
        windows.no_duplicates(),
    ensures
        ({
            let mid = sets_floating(sets, i, j, windows.drop_last());
            workspaces::with_workspace(
                mid,
                Place { set: i, workspace: j },
                mid[i].workspaces[j].floated(windows.last()),
            ) == sets_floating(sets, i, j, windows)
        }),
{
    let rest = windows.drop_last();
    let window = windows.last();
    let workspace = sets[i].workspaces[j];
    let mid = sets_floating(sets, i, j, rest);
    let after = workspaces::with_workspace(
        mid,
        Place { set: i, workspace: j },
        mid[i].workspaces[j].floated(window),
    );
    let expected = sets_floating(sets, i, j, windows);
    let element = |w: WindowId| MappedElement { window: w, restore: None };
    let p = |e: MappedElement| !rest.contains(e.window);
    let q = |e: MappedElement| e.window != window;
    let both = |e: MappedElement| !windows.contains(e.window);
    visibility::lemma_rest_contains(windows);
    layout_laws::law_floating_a_window(mid[i].workspaces[j], window);
    seqs::lemma_filter_twice(workspace.floating, p, q, both);
    Seq::filter_distributes_over_add(
        workspace.floating.filter(p),
        rest.map_values(element),
        q,
    );
    assert forall|n: int| 0 <= n < rest.map_values(element).len() implies q(
        #[trigger] rest.map_values(element)[n],
    ) by {
        assert(rest[n] == windows[n]);
    }
    seqs::lemma_filter_all(rest.map_values(element), q);
    assert(windows.map_values(element) =~= rest.map_values(element).push(element(window)));
    assert(after[i].workspaces[j].floating =~= expected[i].workspaces[j].floating);
    assert(after[i].workspaces =~= expected[i].workspaces);
    assert(after =~= expected);
}

/// Attaching parked windows floats them on the active workspace in order,
/// attaches their entries and makes the last the one that focus returns to.
proof fn lemma_attached_each_exactly(
    shell: ShellView,
    windows: Seq<WindowId>,
    output: OutputId,
    idx: int,
    i: int,
)
    requires
        manager::one_home(shell.special),
        windows.no_duplicates(),
        0 <= idx < shell.special.len(),
        forall|w: int|
            0 <= w < windows.len() ==> manager::home(shell.special, #[trigger] windows[w]) == Some(
                idx,
            ),
        set_belongs(shell.sets, output, i),
        shell.sets[i].active < shell.sets[i].workspaces.len(),
    ensures
        ({
            let after = shell.attached_each(windows, output);
            let j = shell.sets[i].active as int;
            let handle = shell.sets[i].workspaces[j].handle;
            &&& after.sets == sets_floating(shell.sets, i, j, windows)
            &&& after.windows == shell.windows
            &&& after.effects == shell.effects + floating_effects(windows, handle)
            &&& visibility::all_reattached(shell.special, after.special, windows, Some(handle))
            &&& forall|k: int|
                0 <= k < shell.special.len() && k != idx ==> (
                #[trigger] after.special[k]).last_focused == shell.special[k].last_focused
            &&& windows.len() == 0 ==> after.special[idx].last_focused
                == shell.special[idx].last_focused
            &&& windows.len() > 0 ==> after.special[idx].last_focused == Some(
                SpecialWindow {
                    attached_to: Some(handle),
                    ..manager::entry_of(shell.special, windows.last())
                },
            )
        }),
    decreases windows.len(),
{
    let j = shell.sets[i].active as int;
    let handle = shell.sets[i].workspaces[j].handle;
    if windows.len() == 0 {
        let workspace = shell.sets[i].workspaces[j];
        let all = |e: MappedElement| !windows.contains(e.window);
        seqs::lemma_filter_all(workspace.floating, all);
        assert(workspace.floating.filter(all) + windows.map_values(
            |w: WindowId| MappedElement { window: w, restore: None },
        ) =~= workspace.floating);
        assert(shell.sets[i].workspaces.update(j, workspace) =~= shell.sets[i].workspaces);
        assert(sets_floating(shell.sets, i, j, windows) =~= shell.sets);
        assert(shell.effects + floating_effects(windows, handle) =~= shell.effects);
    } else {
        let rest = windows.drop_last();
        let window = windows.last();
        assert(rest.no_duplicates());
        lemma_attached_each_exactly(shell, rest, output, idx, i);
        let mid = shell.attached_each(rest, output);
        let after = mid.attached(window, output);
        assert forall|k: int| 0 <= k < i implies (#[trigger] mid.sets[k]).output != output by {
            assert(mid.sets[k] == shell.sets[k]);
        }
        layout_laws::law_active_workspace_is_the_sets_own(mid.sets, output, i);
        lemma_floating_one_more(shell.sets, i, j, windows);
        assert(floating_effects(windows, handle) =~= floating_effects(rest, handle).push(
            Effect::MapFloating { handle, window },
        ).push(Effect::EnterWorkspace { handle, window }));
        assert(after.effects =~= shell.effects + floating_effects(windows, handle));
        visibility::lemma_reattached_homes(shell.special, mid.special);
        manager::lemma_home(shell.special, window);
        manager::lemma_home(mid.special, window);
        let x = seqs::first(shell.special[idx].entries, manager::is_window(window))->0;
        manager::lemma_home_is(shell.special, window, idx, x);
        manager::lemma_home_is(mid.special, window, idx, x);
        visibility::lemma_attached_entry(mid, window, output, idx, x);
        visibility::lemma_reattached_one_more(
            shell.special,
            mid.special,
            after.special,
            windows,
            idx,
            x,
            Some(handle),
        );
        if rest.contains(window) {
            let n = rest.index_of(window);
            assert(windows[n] == windows[windows.len() - 1]);
        }
        assert(mid.special[idx].entries[x] == shell.special[idx].entries[x]);
        transitions::lemma_attachment_home(mid.special, window, Some(handle));
    }
}

/// Asking for the maximized state of parked windows back clears the flags of
/// their entries, and lists those whose flag was set, in order.
proof fn lemma_remaximized_each_exactly(
    shell: ShellView,
    entries: Seq<SpecialWindow>,
    positions: Seq<int>,
    idx: int,
)
    requires
        manager::one_home(shell.special),
        0 <= idx < shell.special.len(),
        positions.len() == entries.len(),
        positions.no_duplicates(),
        forall|n: int|
            0 <= n < entries.len() ==> 0 <= #[trigger] positions[n]
                < shell.special[idx].entries.len() && shell.special[idx].entries[positions[n]]
                == entries[n],
    ensures
        ({
            let after = shell.remaximized_each(windows_of(entries));
            &&& after == (ShellView { special: after.special, effects: after.effects, ..shell })
            &&& after.effects == shell.effects + entries.filter(
                |e: SpecialWindow| member_laws::says_maximized(e),
            ).map_values(|e: SpecialWindow| Effect::Maximize { window: e.mapped })
            &&& after.special.len() == shell.special.len()
            &&& forall|k: int|
                0 <= k < shell.special.len() && k != idx ==> #[trigger] after.special[k]
                    == shell.special[k]
            &&& after.special[idx].shown == shell.special[idx].shown
            &&& after.special[idx].last_focused == shell.special[idx].last_focused
            &&& after.special[idx].entries.len() == shell.special[idx].entries.len()
            &&& forall|y: int|
                0 <= y < shell.special[idx].entries.len() ==> #[trigger] after.special[idx].entries[y]
                    == (if positions.contains(y) {
                    SpecialWindow {
                        restore: member_laws::not_maximized(shell.special[idx].entries[y].restore),
                        ..shell.special[idx].entries[y]
                    }
                } else {
                    shell.special[idx].entries[y]
                })
        }),
    decreases entries.len(),
{
    let flagged = |e: SpecialWindow| member_laws::says_maximized(e);
    let maximize = |e: SpecialWindow| Effect::Maximize { window: e.mapped };
    reveal(Seq::filter);
    if entries.len() == 0 {
        assert(windows_of(entries) =~= Seq::empty());
        assert(entries.filter(flagged).map_values(maximize) =~= Seq::empty());
        assert(shell.effects + entries.filter(flagged).map_values(maximize) =~= shell.effects);
    } else {
        let rest = entries.drop_last();
        let places = positions.drop_last();
        let entry = entries.last();
        let x = positions.last();
        lemma_remaximized_each_exactly(shell, rest, places, idx);
        assert(windows_of(entries).drop_last() =~= windows_of(rest));
        assert(windows_of(entries).last() == entry.mapped);
        let mid = shell.remaximized_each(windows_of(rest));
        let after = mid.remaximized(entry.mapped);
        assert(laws::same_members(shell.special, mid.special));
        laws::lemma_same_members_one_home(shell.special, mid.special);
        member_laws::law_one_home_is_one_entry(mid.special);
        if places.contains(x) {
            let n = places.index_of(x);
            assert(positions[n] == positions[positions.len() - 1]);
        }
        assert(shell.special[idx].entries[positions[positions.len() - 1]] == entry);
        assert(mid.special[idx].entries[x] == entry);
        member_laws::law_maximized_state_is_the_entrys_own(mid.special, idx, x);
        assert forall|y: int| #[trigger] positions.contains(y) <==> places.contains(y) || y == x by {
            if positions.contains(y) && y != x {
                let n = positions.index_of(y);
                assert(places[n] == y);
            }
            if places.contains(y) {
                let n = places.index_of(y);
                assert(positions[n] == y);
            }
            assert(positions[positions.len() - 1] == x);
        }
        if flagged(entry) {
            assert(entries.filter(flagged).map_values(maximize) =~= rest.filter(
                flagged,
            ).map_values(maximize).push(maximize(entry)));
            assert(after.effects =~= shell.effects + entries.filter(flagged).map_values(maximize));
        } else {
            assert(entries.filter(flagged).map_values(maximize) =~= rest.filter(
                flagged,
            ).map_values(maximize));
            assert(member_laws::not_maximized(entry.restore) == entry.restore);
        }
        assert forall|k: int| 0 <= k < shell.special.len() && k != idx implies #[trigger] after.special[k]
            == shell.special[k] by {
            assert(mid.special[k] == shell.special[k]);
        }
    }
}

/// Special `idx`, which holds nothing where it was never used.
pub open spec fn special_at(specials: Specials, idx: int) -> StoreView<SpecialWindow> {
    if idx < specials.len() {
        specials[idx]
    } else {
        StoreView { entries: Seq::empty(), shown: false, last_focused: None }
    }
}

/// `output` has no active workspace.
pub open spec fn nothing_active(sets: Seq<SetView>, output: OutputId) -> bool {
    ||| forall|k: int| 0 <= k < sets.len() ==> (#[trigger] sets[k]).output != output
    ||| exists|i: int| #[trigger]
        set_belongs(sets, output, i) && sets[i].active >= sets[i].workspaces.len()
}

/// The other specials lose the windows that are gone, and those made on demand
/// hold nothing.
pub open spec fn others_lose_the_dead(shell: ShellView, after: Specials, idx: int) -> bool {
    &&& after.len() == (if idx < shell.special.len() {
        shell.special.len() as int
    } else {
        idx + 1
    })
    &&& forall|k: int|
        0 <= k < after.len() && k != idx ==> #[trigger] after[k] == (StoreView {
            entries: member_laws::live(special_at(shell.special, k).entries, shell.windows),
            ..special_at(shell.special, k)
        })
}

/// What toggling starts from.
proof fn lemma_ready_exactly(shell: ShellView, idx: int)
    requires
        member_laws::parked_once(shell.special),
        0 <= idx,
    ensures
        ({
            let ready = shell.buried().grown(idx);
            &&& manager::one_home(ready.special)
            &&& idx < ready.special.len()
            &&& ready == (ShellView { special: ready.special, ..shell })
            &&& others_lose_the_dead(shell, ready.special, idx)
            &&& ready.special[idx] == (StoreView {
                entries: member_laws::live(special_at(shell.special, idx).entries, shell.windows),
                ..special_at(shell.special, idx)
            })
        }),
{
    member_laws::law_one_home_is_one_entry(shell.special);
    let ready = shell.buried().grown(idx);
    laws::lemma_ready_one_home(shell, idx);
    member_laws::law_windows_that_live_stay(shell.special, shell.windows);
    member_laws::law_specials_are_made_on_demand(shell.buried().special, idx);
    reveal(Seq::filter);
    assert forall|k: int| 0 <= k < ready.special.len() implies #[trigger] ready.special[k] == (
    StoreView {
        entries: member_laws::live(special_at(shell.special, k).entries, shell.windows),
        ..special_at(shell.special, k)
    }) by {
        if k < shell.special.len() {
            assert(ready.special[k] == shell.buried().special[k]);
        } else {
            assert(member_laws::live(Seq::empty(), shell.windows) =~= Seq::empty());
            assert(ready.special[k].entries =~= Seq::empty());
        }
    }
}

/// The loose windows of a special, found by their entries.
proof fn lemma_loose(specials: Specials, idx: int) -> (positions: Seq<int>)
    requires
        manager::one_home(specials),
        0 <= idx < specials.len(),
    ensures
        ({
            let entries = specials[idx].entries;
            let loose = loose_of(entries);
            let windows = windows_of(loose);
            &&& windows == Attachment::Detached.windows(specials[idx])
            &&& windows.no_duplicates()
            &&& positions.len() == loose.len()
            &&& positions.no_duplicates()
            &&& forall|n: int|
                0 <= n < positions.len() ==> 0 <= #[trigger] positions[n] < entries.len()
                    && entries[positions[n]] == loose[n]
            &&& forall|w: int|
                0 <= w < windows.len() ==> manager::home(specials, #[trigger] windows[w]) == Some(
                    idx,
                ) && manager::entry_of(specials, windows[w]) == loose[w]
            &&& forall|y: int|
                0 <= y < entries.len() ==> (#[trigger] positions.contains(y) <==> entries[y].attached_to is None)
            &&& forall|y: int|
                0 <= y < entries.len() ==> (windows.contains((#[trigger] entries[y]).mapped)
                    <==> entries[y].attached_to is None)
            &&& forall|k: int, y: int|
                0 <= k < specials.len() && k != idx && 0 <= y < specials[k].entries.len()
                    ==> !windows.contains((#[trigger] specials[k].entries[y]).mapped)
        }),
{
    let entries = specials[idx].entries;
    let p = |e: SpecialWindow| e.attached_to is None;
    let positions = seqs::lemma_filter_positions(entries, p);
    let loose = loose_of(entries);
    let windows = windows_of(loose);
    member_laws::law_windows_asked_for(specials[idx], WorkspaceHandle(0));
    assert forall|n: int, m: int| 0 <= n < windows.len() && 0 <= m < windows.len() && n != m implies windows[n]
        != windows[m] by {
        assert(positions[n] != positions[m]);
        assert(specials[idx].entries[positions[n]].mapped
            != specials[idx].entries[positions[m]].mapped);
    }
    assert forall|w: int| 0 <= w < windows.len() implies manager::home(
        specials,
        #[trigger] windows[w],
    ) == Some(idx) && manager::entry_of(specials, windows[w]) == loose[w] by {
        manager::lemma_home_is(specials, windows[w], idx, positions[w]);
    }
    assert forall|y: int| 0 <= y < entries.len() implies (windows.contains(
        (#[trigger] entries[y]).mapped,
    ) <==> entries[y].attached_to is None) by {
        if entries[y].attached_to is None {
            assert(positions.contains(y));
            let n = positions.index_of(y);
            assert(windows[n] == entries[y].mapped);
        }
        if windows.contains(entries[y].mapped) {
            let n = windows.index_of(entries[y].mapped);
            assert(specials[idx].entries[positions[n]].mapped == specials[idx].entries[y].mapped);
            assert(positions[n] == y);
            assert(positions.contains(y));
        }
    }
    assert forall|k: int, y: int|
        0 <= k < specials.len() && k != idx && 0 <= y < specials[k].entries.len() implies !windows.contains(
        (#[trigger] specials[k].entries[y]).mapped,
    ) by {
        if windows.contains(specials[k].entries[y].mapped) {
            let n = windows.index_of(specials[k].entries[y].mapped);
            assert(specials[idx].entries[positions[n]].mapped == specials[k].entries[y].mapped);
        }
    }
    positions
}

/// Showing a special: its living members that are attached to nothing come to
/// the top of the floating layer of the active workspace, in order, and are
/// attached to it; no other layer changes. Those that were maximized when they
/// were sent are maximized again, once. The last one is what focus returns to.
pub proof fn law_showing_a_special(shell: ShellView, idx: int, seat: Seat, i: int)
    requires
        member_laws::parked_once(shell.special),
        0 <= idx,
        !special_at(shell.special, idx).shown,
        set_belongs(shell.sets, seat.active_output, i),
        shell.sets[i].active < shell.sets[i].workspaces.len(),
    ensures
        ({
            let after = shell.toggled(idx, seat);
            let j = shell.sets[i].active as int;
            let handle = shell.sets[i].workspaces[j].handle;
            let before = special_at(shell.special, idx);
            let members = member_laws::live(before.entries, shell.windows);
            let loose = loose_of(members);
            &&& after.windows == shell.windows
            &&& after.sets == sets_floating(shell.sets, i, j, windows_of(loose))
            &&& after.effects == shell.effects + floating_effects(windows_of(loose), handle)
                + loose.filter(|e: SpecialWindow| member_laws::says_maximized(e)).map_values(
                |e: SpecialWindow| Effect::Maximize { window: e.mapped },
            )
            &&& others_lose_the_dead(shell, after.special, idx)
            &&& after.special[idx].shown
            &&& after.special[idx].entries == members.map_values(
                |e: SpecialWindow|
                    if e.attached_to is None {
                        SpecialWindow {
                            mapped: e.mapped,
                            restore: member_laws::not_maximized(e.restore),
                            attached_to: Some(handle),
                        }
                    } else {
                        e
                    },
            )
            &&& after.special[idx].last_focused == (if loose.len() > 0 {
                Some(SpecialWindow { attached_to: Some(handle), ..loose.last() })
            } else {
                before.last_focused
            })
        }),
{
    let ready = shell.buried().grown(idx);
    let members = ready.special[idx].entries;
    let loose = loose_of(members);
    let windows = windows_of(loose);
    let output = seat.active_output;
    let j = shell.sets[i].active as int;
    let handle = shell.sets[i].workspaces[j].handle;
    lemma_ready_exactly(shell, idx);
    let shown = ready.with_shown(idx, true);
    assert(laws::same_members(ready.special, shown.special));
    laws::lemma_same_members_one_home(ready.special, shown.special);
    let positions = lemma_loose(shown.special, idx);
    lemma_attached_each_exactly(shown, windows, output, idx, i);
    let placed = shown.attached_each(windows, output);
    assert(laws::same_members(shown.special, placed.special));
    laws::lemma_same_members_one_home(shown.special, placed.special);
    let attached = Seq::new(
        loose.len(),
        |n: int| SpecialWindow { attached_to: Some(handle), ..loose[n] },
    );
    assert(windows_of(attached) =~= windows);
    assert forall|n: int| 0 <= n < attached.len() implies 0 <= #[trigger] positions[n]
        < placed.special[idx].entries.len() && placed.special[idx].entries[positions[n]]
        == attached[n] by {
        assert(shown.special[idx].entries[positions[n]] == loose[n]);
        assert(windows[n] == loose[n].mapped);
        assert(windows.contains(shown.special[idx].entries[positions[n]].mapped));
    }
    lemma_remaximized_each_exactly(placed, attached, positions, idx);
    let after = placed.remaximized_each(windows);
    assert(after == shell.toggled(idx, seat));
    let flagged = |e: SpecialWindow| member_laws::says_maximized(e);
    let maximize = |e: SpecialWindow| Effect::Maximize { window: e.mapped };
    lemma_attached_flags(loose, handle);
    assert(after.effects =~= shell.effects + floating_effects(windows, handle) + loose.filter(
        flagged,
    ).map_values(maximize));
    assert forall|k: int| 0 <= k < after.special.len() && k != idx implies #[trigger] after.special[k]
        == ready.special[k] by {
        assert(after.special[k] == placed.special[k]);
        assert(placed.special[k].entries =~= ready.special[k].entries) by {
            assert forall|y: int| 0 <= y < ready.special[k].entries.len() implies #[trigger] placed.special[k].entries[y]
                == ready.special[k].entries[y] by {
                assert(!windows.contains(shown.special[k].entries[y].mapped));
            }
        }
    }
    let expected = members.map_values(
        |e: SpecialWindow|
            if e.attached_to is None {
                SpecialWindow {
                    mapped: e.mapped,
                    restore: member_laws::not_maximized(e.restore),
                    attached_to: Some(handle),
                }
            } else {
                e
            },
    );
    assert forall|y: int| 0 <= y < members.len() implies #[trigger] after.special[idx].entries[y]
        == expected[y] by {
        assert(shown.special[idx].entries[y] == members[y]);
        assert(positions.contains(y) <==> members[y].attached_to is None);
        assert(placed.special[idx].entries[y] == (if members[y].attached_to is None {
            SpecialWindow { attached_to: Some(handle), ..members[y] }
        } else {
            members[y]
        }));
    }
    assert(after.special[idx].entries =~= expected);
    if loose.len() > 0 {
        assert(windows.last() == windows[windows.len() - 1]);
    }
}

/// Attaching entries changes nothing about their flags.
proof fn lemma_attached_flags(loose: Seq<SpecialWindow>, handle: WorkspaceHandle)
    ensures
        ({
            let attached = Seq::new(
                loose.len(),
                |n: int| SpecialWindow { attached_to: Some(handle), ..loose[n] },
            );
            let flagged = |e: SpecialWindow| member_laws::says_maximized(e);
            let maximize = |e: SpecialWindow| Effect::Maximize { window: e.mapped };
            attached.filter(flagged).map_values(maximize) == loose.filter(flagged).map_values(
                maximize,
            )
        }),
    decreases loose.len(),
{
    reveal(Seq::filter);
    let attached = Seq::new(
        loose.len(),
        |n: int| SpecialWindow { attached_to: Some(handle), ..loose[n] },
    );
    let flagged = |e: SpecialWindow| member_laws::says_maximized(e);
    let maximize = |e: SpecialWindow| Effect::Maximize { window: e.mapped };
    if loose.len() > 0 {
        let rest = loose.drop_last();
        lemma_attached_flags(rest, handle);
        assert(attached.drop_last() =~= Seq::new(
            rest.len(),
            |n: int| SpecialWindow { attached_to: Some(handle), ..rest[n] },
        ));
        if flagged(loose.last()) {
            assert(attached.filter(flagged).map_values(maximize) =~= attached.drop_last().filter(
                flagged,
            ).map_values(maximize).push(maximize(loose.last())));
            assert(loose.filter(flagged).map_values(maximize) =~= rest.filter(flagged).map_values(
                maximize,
            ).push(maximize(loose.last())));
        }
    } else {
        assert(attached =~= loose);
    }
}

/// Showing a special where the output has no active workspace: nothing is
/// mapped. The special counts as visible, and the maximized state of its loose
/// members is asked for.
pub proof fn law_showing_without_a_workspace(shell: ShellView, idx: int, seat: Seat)
    requires
        member_laws::parked_once(shell.special),
        0 <= idx,
        !special_at(shell.special, idx).shown,
        nothing_active(shell.sets, seat.active_output),
    ensures
        ({
            let after = shell.toggled(idx, seat);
            let before = special_at(shell.special, idx);
            let members = member_laws::live(before.entries, shell.windows);
            let loose = loose_of(members);
            &&& after.windows == shell.windows
            &&& after.sets == shell.sets
            &&& after.effects == shell.effects + loose.filter(
                |e: SpecialWindow| member_laws::says_maximized(e),
            ).map_values(|e: SpecialWindow| Effect::Maximize { window: e.mapped })
            &&& others_lose_the_dead(shell, after.special, idx)
            &&& after.special[idx].shown
            &&& after.special[idx].entries == members.map_values(
                |e: SpecialWindow|
                    if e.attached_to is None {
                        SpecialWindow { restore: member_laws::not_maximized(e.restore), ..e }
                    } else {
                        e
                    },
            )
            &&& after.special[idx].last_focused == before.last_focused
        }),
{
    let ready = shell.buried().grown(idx);
    let members = ready.special[idx].entries;
    let loose = loose_of(members);
    let windows = windows_of(loose);
    let output = seat.active_output;
    lemma_ready_exactly(shell, idx);
    lemma_nothing_active(shell.sets, output);
    let shown = ready.with_shown(idx, true);
    assert(laws::same_members(ready.special, shown.special));
    laws::lemma_same_members_one_home(ready.special, shown.special);
    let positions = lemma_loose(shown.special, idx);
    visibility::lemma_attached_each_without_active(shown, windows, output);
    lemma_remaximized_each_exactly(shown, loose, positions, idx);
    let after = shown.remaximized_each(windows);
    assert(after == shell.toggled(idx, seat));
    let expected = members.map_values(
        |e: SpecialWindow|
            if e.attached_to is None {
                SpecialWindow { restore: member_laws::not_maximized(e.restore), ..e }
            } else {
                e
            },
    );
    assert forall|y: int| 0 <= y < members.len() implies #[trigger] after.special[idx].entries[y]
        == expected[y] by {
        assert(shown.special[idx].entries[y] == members[y]);
        assert(positions.contains(y) <==> members[y].attached_to is None);
    }
    assert(after.special[idx].entries =~= expected);
}

/// Where nothing is active, no workspace is found.
pub proof fn lemma_nothing_active(sets: Seq<SetView>, output: OutputId)
    requires
        nothing_active(sets, output),
    ensures
        workspaces::active_place(sets, output) is None,
{
    if exists|i: int| #[trigger]
        set_belongs(sets, output, i) && sets[i].active >= sets[i].workspaces.len() {
        let i = choose|i: int| #[trigger]
            set_belongs(sets, output, i) && sets[i].active >= sets[i].workspaces.len();
        layout_laws::law_active_workspace_is_the_sets_own(sets, output, i);
    } else {
        layout_laws::law_active_workspace_is_the_sets_own(sets, output, 0);
    }
}

/// Entry `a` of `members` is what focus returns to: the entry of the window
/// that was focused last while it is a member, and the oldest otherwise.
pub open spec fn returned_to(
    members: Seq<SpecialWindow>,
    last_focused: Option<SpecialWindow>,
    a: int,
) -> bool {
    &&& 0 <= a < members.len()
    &&& (last_focused is Some && last_focused->0.mapped == members[a].mapped) || (a == 0 && (
    last_focused is None || forall|b: int|
        0 <= b < members.len() ==> (#[trigger] members[b]).mapped != last_focused->0.mapped))
}

/// Once a special is shown the keyboard goes to the member that focus returns
/// to; there is none where the special is empty.
pub proof fn law_keyboard_after_showing(shell: ShellView, idx: int, seat: Seat, i: int)
    requires
        member_laws::parked_once(shell.special),
        0 <= idx,
        !special_at(shell.special, idx).shown,
        set_belongs(shell.sets, seat.active_output, i),
        shell.sets[i].active < shell.sets[i].workspaces.len(),
    ensures
        ({
            let before = special_at(shell.special, idx);
            let members = member_laws::live(before.entries, shell.windows);
            &&& members.len() == 0 ==> shell.toggle_focus(idx, seat) is None
            &&& forall|a: int| #[trigger]
                returned_to(members, before.last_focused, a) ==> shell.toggle_focus(idx, seat)
                    == Some(KeyboardFocusTarget::Element(members[a].mapped))
        }),
{
    let ready = shell.buried().grown(idx);
    let before = special_at(shell.special, idx);
    let members = member_laws::live(before.entries, shell.windows);
    lemma_ready_exactly(shell, idx);
    law_showing_a_special(shell, idx, seat, i);
    let after = shell.toggled(idx, seat);
    let special = ready.special[idx];
    if members.len() == 0 {
        transitions::lemma_show_empty(ready, idx, seat.active_output);
    }
    assert forall|a: int| #[trigger] returned_to(members, before.last_focused, a) implies shell.toggle_focus(
        idx,
        seat,
    ) == Some(KeyboardFocusTarget::Element(members[a].mapped)) by {
        member_laws::law_focus_to_restore(special);
        let entry = special.restored_focus()->0;
        if before.last_focused is Some && before.last_focused->0.mapped == members[a].mapped {
            assert(special.entries[a].eq_spec(&special.last_focused->0));
        }
        assert(special.restored_focus() is Some && entry.mapped == members[a].mapped);
        assert(after.special[idx].entries[a].mapped == entry.mapped);
        assert(after.special[idx].entries[a].attached_to is Some);
        member_laws::law_what_is_attached_and_visible(after.special, entry.mapped);
    }
}

/// Without an active workspace the keyboard goes to the member that focus
/// returns to only where it is attached already.
pub proof fn law_keyboard_after_showing_without_a_workspace(shell: ShellView, idx: int, seat: Seat)
    requires
        member_laws::parked_once(shell.special),
        0 <= idx,
        !special_at(shell.special, idx).shown,
        nothing_active(shell.sets, seat.active_output),
    ensures
        ({
            let before = special_at(shell.special, idx);
            let members = member_laws::live(before.entries, shell.windows);
            &&& members.len() == 0 ==> shell.toggle_focus(idx, seat) is None
            &&& forall|a: int| #[trigger]
                returned_to(members, before.last_focused, a) ==> shell.toggle_focus(idx, seat) == (
                if members[a].attached_to is Some {
                    Some(KeyboardFocusTarget::Element(members[a].mapped))
                } else {
                    None
                })
        }),
{
    let ready = shell.buried().grown(idx);
    let before = special_at(shell.special, idx);
    let members = member_laws::live(before.entries, shell.windows);
    lemma_ready_exactly(shell, idx);
    lemma_nothing_active(shell.sets, seat.active_output);
    law_showing_without_a_workspace(shell, idx, seat);
    let after = shell.toggled(idx, seat);
    let special = ready.special[idx];
    let shown = ready.with_shown(idx, true);
    let windows = Attachment::Detached.windows(special);
    if members.len() == 0 {
        transitions::lemma_show_empty(ready, idx, seat.active_output);
    }
    if windows.len() > 0 {
        visibility::lemma_attached_each_without_active(
            shown,
            windows.drop_last(),
            seat.active_output,
        );
    }
    assert(shown.attached_each_focus(windows, seat.active_output) is None);
    assert(laws::same_members(ready.special, after.special)) by {
        assert forall|k: int| 0 <= k < after.special.len() && k != idx implies #[trigger] after.special[k]
            == ready.special[k] by {}
    }
    laws::lemma_same_members_one_home(ready.special, after.special);
    assert forall|a: int| #[trigger] returned_to(members, before.last_focused, a) implies shell.toggle_focus(
        idx,
        seat,
    ) == (if members[a].attached_to is Some {
        Some(KeyboardFocusTarget::Element(members[a].mapped))
    } else {
        None
    }) by {
        member_laws::law_focus_to_restore(special);
        let entry = special.restored_focus()->0;
        if before.last_focused is Some && before.last_focused->0.mapped == members[a].mapped {
            assert(special.entries[a].eq_spec(&special.last_focused->0));
        }
        assert(special.restored_focus() is Some && entry.mapped == members[a].mapped);
        assert(after.special[idx].entries[a].mapped == entry.mapped);
        assert(after.special[idx].entries[a].attached_to == members[a].attached_to);
        member_laws::law_what_is_attached_and_visible(after.special, entry.mapped);
    }
}

/// A shell shows all that it holds.
pub proof fn law_shell_shows_what_it_holds(shell: Shell)
    ensures
        shell@.special == shell.special@,
        shell@.sets == shell.workspaces@,
        shell@.windows == shell.windows@,
        shell@.effects == shell.effects@,
{
}

} // verus!
