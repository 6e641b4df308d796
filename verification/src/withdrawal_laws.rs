//! What the compositor is asked for when windows leave the layouts.

use vstd::prelude::*;

use crate::laws;
use crate::layout_laws;
use crate::manager;
use crate::member_laws;
use crate::model;
use crate::model::{
    Effect, FocusTarget, MappedElement, Seat, SetView, StickyElement, WindowId, WorkspaceHandle,
    WorkspaceView,
};
use crate::outcome_laws;
use crate::seqs;
use crate::transitions::{Attachment, ShellView};
use crate::visibility;
use crate::workspaces;

verus! {

/// The floating layer of a workspace holds `window`.
pub open spec fn floated(workspace: WorkspaceView, window: WindowId) -> bool {
    exists|a: int|
        0 <= a < workspace.floating.len() && (#[trigger] workspace.floating[a]).window == window
}

/// The tiling layer of a workspace holds `window`.
pub open spec fn tiled(workspace: WorkspaceView, window: WindowId) -> bool {
    exists|a: int|
        0 <= a < workspace.tiling.len() && (#[trigger] workspace.tiling[a]).window == window
}

/// A focus stack of a workspace holds `window`.
pub open spec fn focused(workspace: WorkspaceView, window: WindowId) -> bool {
    exists|s: int, t: int|
        0 <= s < workspace.focus_stack.len() && 0 <= t < workspace.focus_stack[s].targets.len() && (
        #[trigger] workspace.focus_stack[s].targets[t]) == FocusTarget::Window(window)
}

/// The sticky layer of a set holds `window`.
pub open spec fn stuck(set: SetView, window: WindowId) -> bool {
    exists|a: int|
        0 <= a < set.sticky_layer.len() && (#[trigger] set.sticky_layer[a]).window == window
}

/// The words of this module mean what those of the layouts mean.
proof fn lemma_same_words(workspace: WorkspaceView, set: SetView, window: WindowId)
    ensures
        workspace.floats(window) == floated(workspace, window),
        model::layer_has(workspace.tiling, window) == tiled(workspace, window),
        workspace.focuses(window) == focused(workspace, window),
        model::sticky_has(set.sticky_layer, window) == stuck(set, window),
{
    layout_laws::law_where_a_window_is(workspace, window);
}

/// What a workspace lists for a window to leave it: leaving the layouts where
/// the window is tiled, leaving the floating layer where it only floats, each
/// with the clients told, and leaving the focus stacks where it is only
/// focused.
pub proof fn law_leaving_one_workspace(workspace: WorkspaceView, window: WindowId)
    ensures
        tiled(workspace, window) ==> workspace.withdrawal(window) == seq![
            Effect::UnmapElement { handle: workspace.handle, window },
            Effect::LeaveWorkspace { handle: workspace.handle, window },
        ],
        !tiled(workspace, window) && floated(workspace, window) ==> workspace.withdrawal(window)
            == seq![
            Effect::UnmapFloating { handle: workspace.handle, window },
            Effect::LeaveWorkspace { handle: workspace.handle, window },
        ],
        !tiled(workspace, window) && !floated(workspace, window) && focused(workspace, window)
            ==> workspace.withdrawal(window) == seq![
            Effect::Unfocus { handle: workspace.handle, window },
        ],
        !tiled(workspace, window) && !floated(workspace, window) && !focused(workspace, window)
            ==> workspace.withdrawal(window).len() == 0,
{
    layout_laws::law_where_a_window_is(workspace, window);
}

/// What workspace `j` lists is listed.
proof fn lemma_listed_by_workspaces(here: Seq<WorkspaceView>, window: WindowId, j: int) -> (n: int)
    requires
        0 <= j < here.len(),
    ensures
        ({
            let all = workspaces::workspaces_withdrawal(here, window);
            let part = here[j].withdrawal(window);
            &&& 0 <= n
            &&& n + part.len() <= all.len()
            &&& forall|x: int| 0 <= x < part.len() ==> #[trigger] part[x] == all[n + x]
        }),
    decreases here.len(),
{
    let init = workspaces::workspaces_withdrawal(here.drop_last(), window);
    let part = here[j].withdrawal(window);
    let all = workspaces::workspaces_withdrawal(here, window);
    if j == here.len() - 1 {
        let n = init.len() as int;
        assert forall|x: int| 0 <= x < part.len() implies #[trigger] part[x] == all[n + x] by {}
        n
    } else {
        let n = lemma_listed_by_workspaces(here.drop_last(), window, j);
        assert forall|x: int| 0 <= x < part.len() implies #[trigger] part[x] == all[n + x] by {
            assert(part[x] == init[n + x]);
        }
        n
    }
}

/// What set `i` lists is listed.
proof fn lemma_listed_by_sets(sets: Seq<SetView>, window: WindowId, i: int) -> (n: int)
    requires
        0 <= i < sets.len(),
    ensures
        ({
            let all = workspaces::withdrawal(sets, window);
            let part = workspaces::set_withdrawal(sets[i], window);
            &&& 0 <= n
            &&& n + part.len() <= all.len()
            &&& forall|x: int| 0 <= x < part.len() ==> #[trigger] part[x] == all[n + x]
        }),
    decreases sets.len(),
{
    let init = workspaces::withdrawal(sets.drop_last(), window);
    let part = workspaces::set_withdrawal(sets[i], window);
    let all = workspaces::withdrawal(sets, window);
    if i == sets.len() - 1 {
        let n = init.len() as int;
        assert forall|x: int| 0 <= x < part.len() implies #[trigger] part[x] == all[n + x] by {}
        n
    } else {
        let n = lemma_listed_by_sets(sets.drop_last(), window, i);
        assert forall|x: int| 0 <= x < part.len() implies #[trigger] part[x] == all[n + x] by {
            assert(part[x] == init[n + x]);
        }
        n
    }
}

/// A window that leaves the layouts is asked to leave every workspace of every
/// output that has it on a layer, and clients are told at once.
pub proof fn law_withdrawal_reaches_every_workspace(
    sets: Seq<SetView>,
    window: WindowId,
    i: int,
    j: int,
) -> (n: int)
    requires
        0 <= i < sets.len(),
        0 <= j < sets[i].workspaces.len(),
        tiled(sets[i].workspaces[j], window) || floated(sets[i].workspaces[j], window),
    ensures
        ({
            let all = workspaces::withdrawal(sets, window);
            let handle = sets[i].workspaces[j].handle;
            &&& 0 <= n
            &&& n + 1 < all.len()
            &&& all[n] == (if tiled(sets[i].workspaces[j], window) {
                Effect::UnmapElement { handle, window }
            } else {
                Effect::UnmapFloating { handle, window }
            })
            &&& all[n + 1] == (Effect::LeaveWorkspace { handle, window })
        }),
{
    let set = sets[i];
    lemma_same_words(set.workspaces[j], set, window);
    let m = lemma_listed_by_sets(sets, window, i);
    let part = workspaces::set_withdrawal(set, window);
    let all = workspaces::withdrawal(sets, window);
    if model::sticky_has(set.sticky_layer, window) {
        let here = workspaces::unstuck(set, window).workspaces;
        layout_laws::law_leaving_the_sticky_layer(set, window);
        layout_laws::law_unfocusing(set.workspaces[j], window);
        law_leaving_one_workspace(here[j], window);
        assert(tiled(here[j], window) == tiled(set.workspaces[j], window)) by {
            assert(here[j].tiling == set.workspaces[j].tiling);
        }
        assert(floated(here[j], window) == floated(set.workspaces[j], window)) by {
            assert(here[j].floating == set.workspaces[j].floating);
        }
        let k = lemma_listed_by_workspaces(here, window, j);
        let lines = here[j].withdrawal(window);
        assert(lines[0] == part[1 + k]);
        assert(lines[1] == part[1 + k + 1]);
        m + 1 + k
    } else {
        law_leaving_one_workspace(set.workspaces[j], window);
        let k = lemma_listed_by_workspaces(set.workspaces, window, j);
        let lines = set.workspaces[j].withdrawal(window);
        assert(lines[0] == part[k]);
        assert(lines[1] == part[k + 1]);
        m + k
    }
}

/// A window that leaves the layouts is asked to leave every sticky layer that
/// has it.
pub proof fn law_withdrawal_reaches_every_sticky_layer(
    sets: Seq<SetView>,
    window: WindowId,
    i: int,
) -> (n: int)
    requires
        0 <= i < sets.len(),
        stuck(sets[i], window),
    ensures
        0 <= n < workspaces::withdrawal(sets, window).len(),
        workspaces::withdrawal(sets, window)[n] == (Effect::UnmapSticky {
            output: sets[i].output,
            window,
        }),
{
    let m = lemma_listed_by_sets(sets, window, i);
    let part = workspaces::set_withdrawal(sets[i], window);
    assert(part[0] == (Effect::UnmapSticky { output: sets[i].output, window }));
    m
}

/// A window that leaves the layouts is asked to leave the focus stacks of
/// every workspace that only focuses it.
pub proof fn law_withdrawal_reaches_every_focus_stack(
    sets: Seq<SetView>,
    window: WindowId,
    i: int,
    j: int,
) -> (n: int)
    requires
        0 <= i < sets.len(),
        0 <= j < sets[i].workspaces.len(),
        !stuck(sets[i], window),
        !tiled(sets[i].workspaces[j], window),
        !floated(sets[i].workspaces[j], window),
        focused(sets[i].workspaces[j], window),
    ensures
        0 <= n < workspaces::withdrawal(sets, window).len(),
        workspaces::withdrawal(sets, window)[n] == (Effect::Unfocus {
            handle: sets[i].workspaces[j].handle,
            window,
        }),
{
    let set = sets[i];
    let m = lemma_listed_by_sets(sets, window, i);
    let part = workspaces::set_withdrawal(set, window);
    law_leaving_one_workspace(set.workspaces[j], window);
    let k = lemma_listed_by_workspaces(set.workspaces, window, j);
    let lines = set.workspaces[j].withdrawal(window);
    assert(lines[0] == part[k]);
    m + k
}

/// What is listed for window `x` of those withdrawn is listed for its
/// withdrawal from what the windows before it left behind.
proof fn lemma_each_listed(shell: ShellView, windows: Seq<WindowId>, x: int) -> (m: int)
    requires
        0 <= x < windows.len(),
    ensures
        ({
            let after = shell.withdrawn_each(windows).effects;
            let part = workspaces::withdrawal(
                shell.withdrawn_each(windows.take(x)).sets,
                windows[x],
            );
            &&& shell.effects.len() <= m
            &&& m + part.len() <= after.len()
            &&& forall|y: int| 0 <= y < part.len() ==> #[trigger] part[y] == after[m + y]
        }),
    decreases windows.len(),
{
    let rest = windows.drop_last();
    let mid = shell.withdrawn_each(rest);
    let after = shell.withdrawn_each(windows).effects;
    let part = workspaces::withdrawal(shell.withdrawn_each(windows.take(x)).sets, windows[x]);
    lemma_effects_grow(shell, rest);
    if x == windows.len() - 1 {
        assert(windows.take(x) =~= rest);
        let m = mid.effects.len() as int;
        assert forall|y: int| 0 <= y < part.len() implies #[trigger] part[y] == after[m + y] by {}
        m
    } else {
        assert(rest.take(x) =~= windows.take(x));
        let m = lemma_each_listed(shell, rest, x);
        assert forall|y: int| 0 <= y < part.len() implies #[trigger] part[y] == after[m + y] by {
            assert(part[y] == mid.effects[m + y]);
        }
        m
    }
}

/// Effects are only ever added.
proof fn lemma_effects_grow(shell: ShellView, windows: Seq<WindowId>)
    ensures
        shell.effects.len() <= shell.withdrawn_each(windows).effects.len(),
    decreases windows.len(),
{
    if windows.len() > 0 {
        lemma_effects_grow(shell, windows.drop_last());
    }
}

/// What hiding a special does, window by window.
proof fn lemma_hiding(shell: ShellView, idx: int, seat: Seat) -> (noted: ShellView)
    requires
        member_laws::parked_once(shell.special),
        0 <= idx < shell.special.len(),
        shell.special[idx].shown,
    ensures
        ({
            let members = member_laws::live(shell.special[idx].entries, shell.windows);
            let windows = outcome_laws::windows_of(members);
            &&& shell.toggled(idx, seat) == noted.withdrawn_each(windows)
            &&& noted.sets == shell.sets
            &&& noted.effects == shell.effects
            &&& manager::one_home(noted.special)
            &&& windows.no_duplicates()
            &&& visibility::all_parked(noted.special, windows)
        }),
{
    member_laws::law_one_home_is_one_entry(shell.special);
    let ready = shell.buried().grown(idx);
    let members = member_laws::live(shell.special[idx].entries, shell.windows);
    laws::lemma_ready_one_home(shell, idx);
    member_laws::law_windows_that_live_stay(shell.special, shell.windows);
    member_laws::law_specials_are_made_on_demand(shell.buried().special, idx);
    let off = ready.with_shown(idx, false);
    assert(laws::same_members(ready.special, off.special));
    laws::lemma_same_members_one_home(ready.special, off.special);
    let noted = off.with_focus_noted(idx, seat.focus);
    laws::lemma_focus_noted(off, idx, seat.focus);
    assert(laws::same_members(off.special, noted.special));
    laws::lemma_same_members_one_home(off.special, noted.special);
    let windows = Attachment::Any.windows(noted.special[idx]);
    member_laws::law_windows_asked_for(noted.special[idx], WorkspaceHandle(0));
    assert(noted.special[idx].entries == members);
    assert(windows == outcome_laws::windows_of(members));
    laws::lemma_windows_home(noted.special, Attachment::Any, idx);
    assert forall|w: int| 0 <= w < windows.len() implies manager::home(
        noted.special,
        #[trigger] windows[w],
    ) is Some by {
        assert(windows[w] == Attachment::Any.windows(noted.special[idx])[w]);
    }
    assert forall|n: int, m: int| 0 <= n < windows.len() && 0 <= m < windows.len() && n != m implies windows[n]
        != windows[m] by {
        assert(noted.special[idx].entries[n].mapped != noted.special[idx].entries[m].mapped);
    }
    noted
}

/// A window that is not among those that left is still there.
proof fn lemma_still_there(
    sets: Seq<SetView>,
    gone: Seq<WindowId>,
    window: WindowId,
    i: int,
)
    requires
        0 <= i < sets.len(),
        !gone.contains(window),
    ensures
        ({
            let after = outcome_laws::sets_without(sets, gone);
            &&& after.len() == sets.len()
            &&& after[i].output == sets[i].output
            &&& after[i].workspaces.len() == sets[i].workspaces.len()
            &&& stuck(after[i], window) == stuck(sets[i], window)
            &&& forall|j: int|
                0 <= j < sets[i].workspaces.len() ==> {
                    let workspace = #[trigger] sets[i].workspaces[j];
                    &&& after[i].workspaces[j].handle == workspace.handle
                    &&& floated(after[i].workspaces[j], window) == floated(workspace, window)
                    &&& tiled(after[i].workspaces[j], window) == tiled(workspace, window)
                    &&& focused(after[i].workspaces[j], window) == focused(workspace, window)
                }
        }),
{
    let after = outcome_laws::sets_without(sets, gone);
    let ps = |e: StickyElement| !gone.contains(e.window);
    let p = |e: MappedElement| !gone.contains(e.window);
    let pt = |t: FocusTarget| !outcome_laws::targets_one(t, gone);
    let layer = sets[i].sticky_layer;
    if stuck(sets[i], window) {
        let a = choose|a: int| 0 <= a < layer.len() && (#[trigger] layer[a]).window == window;
        seqs::lemma_filter_keeps(layer, ps, a);
        let b = choose|b: int|
            0 <= b < layer.filter(ps).len() && #[trigger] layer.filter(ps)[b] == layer[a];
        assert(after[i].sticky_layer[b].window == window);
    }
    if stuck(after[i], window) {
        let b = choose|b: int|
            0 <= b < after[i].sticky_layer.len() && (#[trigger] after[i].sticky_layer[b]).window
                == window;
        seqs::lemma_filter_from(layer, ps, b);
    }
    assert forall|j: int| 0 <= j < sets[i].workspaces.len() implies {
        let workspace = #[trigger] sets[i].workspaces[j];
        &&& after[i].workspaces[j].handle == workspace.handle
        &&& floated(after[i].workspaces[j], window) == floated(workspace, window)
        &&& tiled(after[i].workspaces[j], window) == tiled(workspace, window)
        &&& focused(after[i].workspaces[j], window) == focused(workspace, window)
    } by {
        let workspace = sets[i].workspaces[j];
        let left = after[i].workspaces[j];
        if floated(workspace, window) {
            let a = choose|a: int|
                0 <= a < workspace.floating.len() && (#[trigger] workspace.floating[a]).window
                    == window;
            seqs::lemma_filter_keeps(workspace.floating, p, a);
            let b = choose|b: int|
                0 <= b < workspace.floating.filter(p).len() && #[trigger] workspace.floating.filter(
                    p,
                )[b] == workspace.floating[a];
            assert(left.floating[b].window == window);
        }
        if floated(left, window) {
            let b = choose|b: int|
                0 <= b < left.floating.len() && (#[trigger] left.floating[b]).window == window;
            seqs::lemma_filter_from(workspace.floating, p, b);
        }
        if tiled(workspace, window) {
            let a = choose|a: int|
                0 <= a < workspace.tiling.len() && (#[trigger] workspace.tiling[a]).window
                    == window;
            seqs::lemma_filter_keeps(workspace.tiling, p, a);
            let b = choose|b: int|
                0 <= b < workspace.tiling.filter(p).len() && #[trigger] workspace.tiling.filter(
                    p,
                )[b] == workspace.tiling[a];
            assert(left.tiling[b].window == window);
        }
        if tiled(left, window) {
            let b = choose|b: int|
                0 <= b < left.tiling.len() && (#[trigger] left.tiling[b]).window == window;
            seqs::lemma_filter_from(workspace.tiling, p, b);
        }
        if focused(workspace, window) {
            let (s, t) = choose|s: int, t: int|
                0 <= s < workspace.focus_stack.len() && 0 <= t
                    < workspace.focus_stack[s].targets.len() && (
                #[trigger] workspace.focus_stack[s].targets[t]) == FocusTarget::Window(window);
            let targets = workspace.focus_stack[s].targets;
            seqs::lemma_filter_keeps(targets, pt, t);
            let b = choose|b: int|
                0 <= b < targets.filter(pt).len() && #[trigger] targets.filter(pt)[b] == targets[t];
            assert(left.focus_stack[s].targets[b] == FocusTarget::Window(window));
        }
        if focused(left, window) {
            let (s, b) = choose|s: int, b: int|
                0 <= s < left.focus_stack.len() && 0 <= b < left.focus_stack[s].targets.len() && (
                #[trigger] left.focus_stack[s].targets[b]) == FocusTarget::Window(window);
            let targets = workspace.focus_stack[s].targets;
            seqs::lemma_filter_from(targets, pt, b);
            let t = choose|t: int|
                0 <= t < targets.len() && #[trigger] targets[t] == targets.filter(pt)[b];
            assert(workspace.focus_stack[s].targets[t] == FocusTarget::Window(window));
        }
    }
}

/// Member `a` of those that are hidden is there when its turn comes.
proof fn lemma_turn(
    shell: ShellView,
    windows: Seq<WindowId>,
    a: int,
    i: int,
)
    requires
        manager::one_home(shell.special),
        windows.no_duplicates(),
        visibility::all_parked(shell.special, windows),
        0 <= a < windows.len(),
        0 <= i < shell.sets.len(),
    ensures
        shell.withdrawn_each(windows.take(a)).sets == outcome_laws::sets_without(
            shell.sets,
            windows.take(a),
        ),
        !windows.take(a).contains(windows[a]),
{
    let gone = windows.take(a);
    assert forall|w: int| 0 <= w < gone.len() implies manager::home(
        shell.special,
        #[trigger] gone[w],
    ) is Some by {
        assert(gone[w] == windows[w]);
    }
    outcome_laws::lemma_withdrawn_each_exactly(shell, gone);
    if gone.contains(windows[a]) {
        let n = gone.index_of(windows[a]);
        assert(windows[n] == windows[a]);
    }
}

/// Hiding a special asks the compositor to take each living member off each
/// workspace, of whichever output, that has it on a layer, and to tell clients
/// at once.
pub proof fn law_hiding_takes_members_off_workspaces(
    shell: ShellView,
    idx: int,
    seat: Seat,
    a: int,
    i: int,
    j: int,
) -> (n: int)
    requires
        member_laws::parked_once(shell.special),
        0 <= idx < shell.special.len(),
        shell.special[idx].shown,
        0 <= a < member_laws::live(shell.special[idx].entries, shell.windows).len(),
        0 <= i < shell.sets.len(),
        0 <= j < shell.sets[i].workspaces.len(),
        ({
            let window = member_laws::live(shell.special[idx].entries, shell.windows)[a].mapped;
            tiled(shell.sets[i].workspaces[j], window) || floated(
                shell.sets[i].workspaces[j],
                window,
            )
        }),
    ensures
        ({
            let after = shell.toggled(idx, seat).effects;
            let window = member_laws::live(shell.special[idx].entries, shell.windows)[a].mapped;
            let handle = shell.sets[i].workspaces[j].handle;
            &&& shell.effects.len() <= n
            &&& n + 1 < after.len()
            &&& after[n] == (if tiled(shell.sets[i].workspaces[j], window) {
                Effect::UnmapElement { handle, window }
            } else {
                Effect::UnmapFloating { handle, window }
            })
            &&& after[n + 1] == (Effect::LeaveWorkspace { handle, window })
        }),
{
    let members = member_laws::live(shell.special[idx].entries, shell.windows);
    let windows = outcome_laws::windows_of(members);
    let window = windows[a];
    let noted = lemma_hiding(shell, idx, seat);
    lemma_turn(noted, windows, a, i);
    let sets = noted.withdrawn_each(windows.take(a)).sets;
    lemma_still_there(shell.sets, windows.take(a), window, i);
    assert(sets[i].workspaces[j].handle == shell.sets[i].workspaces[j].handle);
    let m = lemma_each_listed(noted, windows, a);
    let k = law_withdrawal_reaches_every_workspace(sets, window, i, j);
    let part = workspaces::withdrawal(sets, window);
    assert(part[k] == noted.withdrawn_each(windows).effects[m + k]);
    assert(part[k + 1] == noted.withdrawn_each(windows).effects[m + (k + 1)]);
    m + k
}

/// Hiding a special asks the compositor to take each living member off each
/// sticky layer that has it.
pub proof fn law_hiding_takes_members_off_sticky_layers(
    shell: ShellView,
    idx: int,
    seat: Seat,
    a: int,
    i: int,
) -> (n: int)
    requires
        member_laws::parked_once(shell.special),
        0 <= idx < shell.special.len(),
        shell.special[idx].shown,
        0 <= a < member_laws::live(shell.special[idx].entries, shell.windows).len(),
        0 <= i < shell.sets.len(),
        stuck(
            shell.sets[i],
            member_laws::live(shell.special[idx].entries, shell.windows)[a].mapped,
        ),
    ensures
        shell.effects.len() <= n < shell.toggled(idx, seat).effects.len(),
        shell.toggled(idx, seat).effects[n] == (Effect::UnmapSticky {
            output: shell.sets[i].output,
            window: member_laws::live(shell.special[idx].entries, shell.windows)[a].mapped,
        }),
{
    let members = member_laws::live(shell.special[idx].entries, shell.windows);
    let windows = outcome_laws::windows_of(members);
    let window = windows[a];
    let noted = lemma_hiding(shell, idx, seat);
    lemma_turn(noted, windows, a, i);
    let sets = noted.withdrawn_each(windows.take(a)).sets;
    lemma_still_there(shell.sets, windows.take(a), window, i);
    let m = lemma_each_listed(noted, windows, a);
    let k = law_withdrawal_reaches_every_sticky_layer(sets, window, i);
    let part = workspaces::withdrawal(sets, window);
    assert(part[k] == noted.withdrawn_each(windows).effects[m + k]);
    m + k
}

/// Hiding a special asks the compositor to take each living member out of the
/// focus stacks of each workspace that only focuses it.
pub proof fn law_hiding_takes_members_out_of_focus_stacks(
    shell: ShellView,
    idx: int,
    seat: Seat,
    a: int,
    i: int,
    j: int,
) -> (n: int)
    requires
        member_laws::parked_once(shell.special),
        0 <= idx < shell.special.len(),
        shell.special[idx].shown,
        0 <= a < member_laws::live(shell.special[idx].entries, shell.windows).len(),
        0 <= i < shell.sets.len(),
        0 <= j < shell.sets[i].workspaces.len(),
        ({
            let window = member_laws::live(shell.special[idx].entries, shell.windows)[a].mapped;
            &&& !stuck(shell.sets[i], window)
            &&& !tiled(shell.sets[i].workspaces[j], window)
            &&& !floated(shell.sets[i].workspaces[j], window)
            &&& focused(shell.sets[i].workspaces[j], window)
        }),
    ensures
        shell.effects.len() <= n < shell.toggled(idx, seat).effects.len(),
        shell.toggled(idx, seat).effects[n] == (Effect::Unfocus {
            handle: shell.sets[i].workspaces[j].handle,
            window: member_laws::live(shell.special[idx].entries, shell.windows)[a].mapped,
        }),
{
    let members = member_laws::live(shell.special[idx].entries, shell.windows);
    let windows = outcome_laws::windows_of(members);
    let window = windows[a];
    let noted = lemma_hiding(shell, idx, seat);
    lemma_turn(noted, windows, a, i);
    let sets = noted.withdrawn_each(windows.take(a)).sets;
    lemma_still_there(shell.sets, windows.take(a), window, i);
    assert(sets[i].workspaces[j].handle == shell.sets[i].workspaces[j].handle);
    let m = lemma_each_listed(noted, windows, a);
    let k = law_withdrawal_reaches_every_focus_stack(sets, window, i, j);
    let part = workspaces::withdrawal(sets, window);
    assert(part[k] == noted.withdrawn_each(windows).effects[m + k]);
    m + k
}

/// What a workspace is asked for `window` to leave it; a window that left the
/// sticky layer of the output has left its focus stacks already.
pub open spec fn workspace_lines(
    workspace: WorkspaceView,
    window: WindowId,
    left_sticky: bool,
) -> Seq<Effect> {
    if tiled(workspace, window) {
        seq![
            Effect::UnmapElement { handle: workspace.handle, window },
            Effect::LeaveWorkspace { handle: workspace.handle, window },
        ]
    } else if floated(workspace, window) {
        seq![
            Effect::UnmapFloating { handle: workspace.handle, window },
            Effect::LeaveWorkspace { handle: workspace.handle, window },
        ]
    } else if focused(workspace, window) && !left_sticky {
        seq![Effect::Unfocus { handle: workspace.handle, window }]
    } else {
        Seq::empty()
    }
}

/// What an output is asked for `window` to leave it: its sticky layer first,
/// then its workspaces in order.
pub open spec fn set_lines(set: SetView, window: WindowId) -> Seq<Effect> {
    (if stuck(set, window) {
        seq![Effect::UnmapSticky { output: set.output, window }]
    } else {
        Seq::empty()
    }) + Seq::new(
        set.workspaces.len(),
        |j: int| workspace_lines(set.workspaces[j], window, stuck(set, window)),
    ).flatten()
}

/// What all outputs are asked for `window` to leave them, in order.
pub open spec fn lines(sets: Seq<SetView>, window: WindowId) -> Seq<Effect> {
    Seq::new(sets.len(), |i: int| set_lines(sets[i], window)).flatten()
}

/// The workspaces of a set, in order.
proof fn lemma_workspace_lines(
    here: Seq<WorkspaceView>,
    shown: Seq<WorkspaceView>,
    window: WindowId,
    left_sticky: bool,
)
    requires
        here.len() == shown.len(),
        forall|j: int|
            0 <= j < here.len() ==> (#[trigger] here[j]).withdrawal(window) == workspace_lines(
                shown[j],
                window,
                left_sticky,
            ),
    ensures
        workspaces::workspaces_withdrawal(here, window) == Seq::new(
            shown.len(),
            |j: int| workspace_lines(shown[j], window, left_sticky),
        ).flatten(),
    decreases here.len(),
{
    let parts = Seq::new(shown.len(), |j: int| workspace_lines(shown[j], window, left_sticky));
    if here.len() == 0 {
        assert(parts.flatten() =~= Seq::empty());
    } else {
        let init = here.drop_last();
        let rest = shown.drop_last();
        assert forall|j: int| 0 <= j < init.len() implies (#[trigger] init[j]).withdrawal(window)
            == workspace_lines(rest[j], window, left_sticky) by {
            assert(here[j] == init[j] && shown[j] == rest[j]);
        }
        lemma_workspace_lines(init, rest, window, left_sticky);
        let before = Seq::new(rest.len(), |j: int| workspace_lines(rest[j], window, left_sticky));
        assert(parts =~= before.push(parts.last()));
        before.lemma_flatten_push(parts.last());
        assert(here[here.len() - 1].withdrawal(window) == parts.last());
    }
}

/// One set, in order.
proof fn lemma_set_lines(set: SetView, window: WindowId)
    ensures
        workspaces::set_withdrawal(set, window) == set_lines(set, window),
{
    let here = if stuck(set, window) {
        workspaces::unstuck(set, window).workspaces
    } else {
        set.workspaces
    };
    layout_laws::law_leaving_the_sticky_layer(set, window);
    assert forall|j: int| 0 <= j < here.len() implies (#[trigger] here[j]).withdrawal(window)
        == workspace_lines(set.workspaces[j], window, stuck(set, window)) by {
        let workspace = set.workspaces[j];
        law_leaving_one_workspace(here[j], window);
        layout_laws::law_unfocusing(workspace, window);
        assert(here[j].tiling == workspace.tiling);
        assert(here[j].floating == workspace.floating);
        assert(tiled(here[j], window) == tiled(workspace, window));
        assert(floated(here[j], window) == floated(workspace, window));
        if stuck(set, window) {
            let p = |t: FocusTarget| t != FocusTarget::Window(window);
            if focused(here[j], window) {
                let (s, b) = choose|s: int, b: int|
                    0 <= s < here[j].focus_stack.len() && 0 <= b
                        < here[j].focus_stack[s].targets.len() && (
                    #[trigger] here[j].focus_stack[s].targets[b]) == FocusTarget::Window(window);
                assert(here[j] == workspace.unfocused(window));
                assert(here[j].focus_stack[s].targets == workspace.focus_stack[s].targets.filter(
                    |t: FocusTarget| t != FocusTarget::Window(window),
                ));
                seqs::lemma_filter_from(workspace.focus_stack[s].targets, p, b);
            }
        }
        assert(here[j].withdrawal(window) =~= workspace_lines(
            workspace,
            window,
            stuck(set, window),
        ));
    }
    lemma_workspace_lines(here, set.workspaces, window, stuck(set, window));
    assert(workspaces::set_withdrawal(set, window) =~= set_lines(set, window));
}

/// A window that leaves the layouts is asked to leave them output by output,
/// sticky layer first and then workspace by workspace, and nothing else is
/// asked.
pub proof fn law_withdrawal_goes_in_order(sets: Seq<SetView>, window: WindowId)
    ensures
        workspaces::withdrawal(sets, window) == lines(sets, window),
    decreases sets.len(),
{
    let parts = Seq::new(sets.len(), |i: int| set_lines(sets[i], window));
    if sets.len() == 0 {
        assert(parts.flatten() =~= Seq::empty());
    } else {
        let init = sets.drop_last();
        law_withdrawal_goes_in_order(init, window);
        lemma_set_lines(sets.last(), window);
        let before = Seq::new(init.len(), |i: int| set_lines(init[i], window));
        assert(parts =~= before.push(parts.last()));
        before.lemma_flatten_push(parts.last());
    }
}

/// What a window is asked for does not depend on the windows that left before
/// it.
proof fn lemma_same_lines(sets: Seq<SetView>, gone: Seq<WindowId>, window: WindowId)
    requires
        !gone.contains(window),
    ensures
        lines(outcome_laws::sets_without(sets, gone), window) == lines(sets, window),
{
    let after = outcome_laws::sets_without(sets, gone);
    assert forall|i: int| 0 <= i < sets.len() implies set_lines(#[trigger] after[i], window)
        == set_lines(sets[i], window) by {
        lemma_still_there(sets, gone, window, i);
        let left = stuck(sets[i], window);
        assert forall|j: int| 0 <= j < sets[i].workspaces.len() implies workspace_lines(
            #[trigger] after[i].workspaces[j],
            window,
            left,
        ) == workspace_lines(sets[i].workspaces[j], window, left) by {
            assert(after[i].workspaces[j].handle == sets[i].workspaces[j].handle);
        }
        assert(Seq::new(
            after[i].workspaces.len(),
            |j: int| workspace_lines(after[i].workspaces[j], window, stuck(after[i], window)),
        ) =~= Seq::new(
            sets[i].workspaces.len(),
            |j: int| workspace_lines(sets[i].workspaces[j], window, stuck(sets[i], window)),
        ));
    }
    assert(Seq::new(after.len(), |i: int| set_lines(after[i], window)) =~= Seq::new(
        sets.len(),
        |i: int| set_lines(sets[i], window),
    ));
}

/// What each of the windows that are withdrawn is asked for, in order.
proof fn lemma_withdrawn_lines(shell: ShellView, windows: Seq<WindowId>)
    requires
        manager::one_home(shell.special),
        windows.no_duplicates(),
        visibility::all_parked(shell.special, windows),
    ensures
        shell.withdrawn_each(windows).effects == shell.effects + Seq::new(
            windows.len(),
            |a: int| lines(shell.sets, windows[a]),
        ).flatten(),
    decreases windows.len(),
{
    let parts = Seq::new(windows.len(), |a: int| lines(shell.sets, windows[a]));
    if windows.len() == 0 {
        assert(shell.effects + parts.flatten() =~= shell.effects);
    } else {
        let rest = windows.drop_last();
        let window = windows.last();
        assert(rest.no_duplicates());
        visibility::lemma_rest_parked(shell.special, windows);
        lemma_withdrawn_lines(shell, rest);
        outcome_laws::lemma_withdrawn_each_exactly(shell, rest);
        if rest.contains(window) {
            let n = rest.index_of(window);
            assert(windows[n] == windows[windows.len() - 1]);
        }
        let mid = shell.withdrawn_each(rest);
        law_withdrawal_goes_in_order(mid.sets, window);
        lemma_same_lines(shell.sets, rest, window);
        let before = Seq::new(rest.len(), |a: int| lines(shell.sets, rest[a]));
        assert(parts =~= before.push(parts.last()));
        before.lemma_flatten_push(parts.last());
        assert(shell.withdrawn_each(windows).effects =~= shell.effects + parts.flatten());
    }
}

/// Hiding a special asks for its living members to leave the layouts, the
/// oldest first, and for nothing else.
pub proof fn law_hiding_goes_in_order(shell: ShellView, idx: int, seat: Seat)
    requires
        member_laws::parked_once(shell.special),
        0 <= idx < shell.special.len(),
        shell.special[idx].shown,
    ensures
        ({
            let members = member_laws::live(shell.special[idx].entries, shell.windows);
            shell.toggled(idx, seat).effects == shell.effects + Seq::new(
                members.len(),
                |a: int| lines(shell.sets, members[a].mapped),
            ).flatten()
        }),
{
    let members = member_laws::live(shell.special[idx].entries, shell.windows);
    let windows = outcome_laws::windows_of(members);
    let noted = lemma_hiding(shell, idx, seat);
    lemma_withdrawn_lines(noted, windows);
    assert(Seq::new(windows.len(), |a: int| lines(shell.sets, windows[a])) =~= Seq::new(
        members.len(),
        |a: int| lines(shell.sets, members[a].mapped),
    ));
}

} // verus!
