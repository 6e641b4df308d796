//! What reading and changing the layouts means, in terms of what the layouts
//! hold.

use vstd::prelude::*;

use crate::model;
use crate::model::{
    FocusTarget, MappedElement, OutputId, SeatId, SetView, StickyElement, SurfaceId, WindowId,
    Workspace, WorkspaceHandle, WorkspaceSet, WorkspaceView,
};
use crate::seqs;
use crate::workspaces;
use crate::workspaces::{Place, Workspaces};

verus! {

/// A workspace shows all that it holds.
pub proof fn law_workspace_shows_what_it_holds(workspace: Workspace)
    ensures
        workspace@.handle == workspace.handle,
        workspace@.floating == workspace.floating@,
        workspace@.tiling == workspace.tiling@,
        workspace@.fullscreen == workspace.fullscreen@,
        workspace@.focus_stack.len() == workspace.focus_stack@.len(),
        forall|s: int|
            0 <= s < workspace.focus_stack@.len() ==> (#[trigger] workspace@.focus_stack[s]).seat
                == workspace.focus_stack@[s].seat && workspace@.focus_stack[s].targets
                == workspace.focus_stack@[s].targets@,
{
}

/// A set shows all that it holds.
pub proof fn law_set_shows_what_it_holds(set: WorkspaceSet)
    ensures
        set@.output == set.output,
        set@.output_size == set.output_size,
        set@.active == set.active,
        set@.sticky_layer == set.sticky_layer@,
        set@.workspaces.len() == set.workspaces@.len(),
        forall|j: int|
            0 <= j < set.workspaces@.len() ==> #[trigger] set@.workspaces[j] == set.workspaces@[j]@,
{
}

/// The workspaces show all sets.
pub proof fn law_workspaces_show_what_they_hold(workspaces: Workspaces)
    ensures
        workspaces@.len() == workspaces.sets@.len(),
        forall|i: int|
            0 <= i < workspaces.sets@.len() ==> #[trigger] workspaces@[i]
                == workspaces.sets@[i]@,
{
}

/// A window floats where an element of the floating layer is that window, and
/// is mapped where an element of either layer is. It is focused where a target
/// of a focus stack is it.
pub proof fn law_where_a_window_is(workspace: WorkspaceView, window: WindowId)
    ensures
        workspace.floats(window) <==> exists|a: int|
            0 <= a < workspace.floating.len() && (#[trigger] workspace.floating[a]).window
                == window,
        workspace.maps(window) <==> (exists|a: int|
            0 <= a < workspace.floating.len() && (#[trigger] workspace.floating[a]).window
                == window) || (exists|a: int|
            0 <= a < workspace.tiling.len() && (#[trigger] workspace.tiling[a]).window == window),
        workspace.focuses(window) <==> exists|s: int, t: int|
            0 <= s < workspace.focus_stack.len() && 0 <= t < workspace.focus_stack[s].targets.len()
                && (#[trigger] workspace.focus_stack[s].targets[t]) == FocusTarget::Window(window),
{
    if workspace.focuses(window) {
        let s = choose|s: int|
            0 <= s < workspace.focus_stack.len() && (
            #[trigger] workspace.focus_stack[s]).targets.contains(FocusTarget::Window(window));
        let t = workspace.focus_stack[s].targets.index_of(FocusTarget::Window(window));
        assert(workspace.focus_stack[s].targets[t] == FocusTarget::Window(window));
    }
    if exists|s: int, t: int|
        0 <= s < workspace.focus_stack.len() && 0 <= t < workspace.focus_stack[s].targets.len() && (
        #[trigger] workspace.focus_stack[s].targets[t]) == FocusTarget::Window(window) {
        let (s, t) = choose|s: int, t: int|
            0 <= s < workspace.focus_stack.len() && 0 <= t < workspace.focus_stack[s].targets.len()
                && (#[trigger] workspace.focus_stack[s].targets[t]) == FocusTarget::Window(window);
        assert(workspace.focus_stack[s].targets.contains(FocusTarget::Window(window)));
    }
}

/// Leaving the focus stacks drops the window from each seat's stack, keeps the
/// order of the rest, and touches no layer.
pub proof fn law_unfocusing(workspace: WorkspaceView, window: WindowId)
    ensures
        ({
            let after = workspace.unfocused(window);
            &&& after.handle == workspace.handle
            &&& after.floating == workspace.floating
            &&& after.tiling == workspace.tiling
            &&& after.fullscreen == workspace.fullscreen
            &&& after.focus_stack.len() == workspace.focus_stack.len()
            &&& forall|s: int|
                0 <= s < workspace.focus_stack.len() ==> (#[trigger] after.focus_stack[s]).seat
                    == workspace.focus_stack[s].seat && after.focus_stack[s].targets
                    == workspace.focus_stack[s].targets.filter(
                    |t: FocusTarget| t != FocusTarget::Window(window),
                )
        }),
{
    assert(model::other_target(window) =~= (|t: FocusTarget| t != FocusTarget::Window(window)));
}

/// Leaving the floating layer drops the window from it and from the focus
/// stacks alone; leaving the workspace drops it from both layers.
pub proof fn law_leaving_a_workspace(workspace: WorkspaceView, window: WindowId)
    ensures
        ({
            let off = workspace.unfloated(window);
            let gone = workspace.unmapped(window);
            let others = |e: MappedElement| e.window != window;
            &&& off.handle == workspace.handle && gone.handle == workspace.handle
            &&& off.fullscreen == workspace.fullscreen && gone.fullscreen == workspace.fullscreen
            &&& off.floating == workspace.floating.filter(others)
            &&& gone.floating == workspace.floating.filter(others)
            &&& off.tiling == workspace.tiling
            &&& gone.tiling == workspace.tiling.filter(others)
            &&& off.focus_stack.len() == workspace.focus_stack.len()
            &&& gone.focus_stack.len() == workspace.focus_stack.len()
            &&& forall|s: int|
                0 <= s < workspace.focus_stack.len() ==> (#[trigger] off.focus_stack[s]).seat
                    == workspace.focus_stack[s].seat && off.focus_stack[s].targets
                    == workspace.focus_stack[s].targets.filter(
                    |t: FocusTarget| t != FocusTarget::Window(window),
                )
            &&& forall|s: int|
                0 <= s < workspace.focus_stack.len() ==> (#[trigger] gone.focus_stack[s]).seat
                    == workspace.focus_stack[s].seat && gone.focus_stack[s].targets
                    == workspace.focus_stack[s].targets.filter(
                    |t: FocusTarget| t != FocusTarget::Window(window),
                )
        }),
{
    law_unfocusing(workspace, window);
    assert(model::other_element(window) =~= (|e: MappedElement| e.window != window));
}

/// A window that is floated is on top of the floating layer, once; nothing
/// else of the workspace changes.
pub proof fn law_floating_a_window(workspace: WorkspaceView, window: WindowId)
    ensures
        workspace.floated(window) == (WorkspaceView {
            floating: workspace.floating.filter(|e: MappedElement| e.window != window).push(
                MappedElement { window, restore: None },
            ),
            ..workspace
        }),
{
    assert(model::other_element(window) =~= (|e: MappedElement| e.window != window));
}

/// What a workspace hands out for a window is what its first element of the
/// floating layer says, or else its first of the tiling layer.
pub proof fn law_restore_data_is_the_elements_own(
    workspace: WorkspaceView,
    window: WindowId,
    a: int,
)
    ensures
        0 <= a < workspace.floating.len() && workspace.floating[a].window == window && (forall|
            b: int,
        |
            0 <= b < a ==> (#[trigger] workspace.floating[b]).window != window)
            ==> workspace.restore_of(window) == workspace.floating[a].restore,
        0 <= a < workspace.tiling.len() && workspace.tiling[a].window == window && (forall|b: int|
            0 <= b < a ==> (#[trigger] workspace.tiling[b]).window != window) && (forall|b: int|
            0 <= b < workspace.floating.len() ==> (#[trigger] workspace.floating[b]).window
                != window) ==> workspace.restore_of(window) == workspace.tiling[a].restore,
        (forall|b: int|
            0 <= b < workspace.floating.len() ==> (#[trigger] workspace.floating[b]).window
                != window) && (forall|b: int|
            0 <= b < workspace.tiling.len() ==> (#[trigger] workspace.tiling[b]).window != window)
            ==> workspace.restore_of(window) is None,
{
    let p = model::element_of(window);
    seqs::lemma_first(workspace.floating, p);
    seqs::lemma_first(workspace.tiling, p);
    if 0 <= a < workspace.floating.len() && workspace.floating[a].window == window && (forall|
        b: int,
    |
        0 <= b < a ==> (#[trigger] workspace.floating[b]).window != window) {
        assert(p(workspace.floating[a]));
        let f = seqs::first(workspace.floating, p)->0;
        assert(p(workspace.floating[f]));
        assert(f == a);
    }
    if forall|b: int|
        0 <= b < workspace.floating.len() ==> (#[trigger] workspace.floating[b]).window != window {
        if seqs::first(workspace.floating, p) is Some {
            assert(p(workspace.floating[seqs::first(workspace.floating, p)->0]));
        }
        if 0 <= a < workspace.tiling.len() && workspace.tiling[a].window == window && (forall|
            b: int,
        |
            0 <= b < a ==> (#[trigger] workspace.tiling[b]).window != window) {
            assert(p(workspace.tiling[a]));
            let f = seqs::first(workspace.tiling, p)->0;
            assert(p(workspace.tiling[f]));
            assert(f == a);
        }
        if forall|b: int|
            0 <= b < workspace.tiling.len() ==> (#[trigger] workspace.tiling[b]).window != window {
            if seqs::first(workspace.tiling, p) is Some {
                assert(p(workspace.tiling[seqs::first(workspace.tiling, p)->0]));
            }
        }
    }
}

/// The focus stack of a seat is the first one that belongs to it, and empty
/// where none does.
pub proof fn law_focus_stack_is_the_seats_own(workspace: WorkspaceView, seat: SeatId, s: int)
    ensures
        0 <= s < workspace.focus_stack.len() && workspace.focus_stack[s].seat == seat && (forall|
            r: int,
        |
            0 <= r < s ==> (#[trigger] workspace.focus_stack[r]).seat != seat)
            ==> workspace.targets_of(seat) == workspace.focus_stack[s].targets,
        (forall|r: int|
            0 <= r < workspace.focus_stack.len() ==> (#[trigger] workspace.focus_stack[r]).seat
                != seat) ==> workspace.targets_of(seat).len() == 0,
{
    let p = model::stack_of(seat);
    seqs::lemma_first(workspace.focus_stack, p);
    if seqs::first(workspace.focus_stack, p) is Some {
        assert(p(workspace.focus_stack[seqs::first(workspace.focus_stack, p)->0]));
    }
    if 0 <= s < workspace.focus_stack.len() && workspace.focus_stack[s].seat == seat && (forall|
        r: int,
    |
        0 <= r < s ==> (#[trigger] workspace.focus_stack[r]).seat != seat) {
        assert(p(workspace.focus_stack[s]));
        assert(seqs::first(workspace.focus_stack, p)->0 == s);
    }
}

/// The base of the window stack is the lowest floating window, or else the
/// first tiled one.
pub proof fn law_base_is_the_lowest_window(workspace: WorkspaceView)
    ensures
        workspace.floating.len() > 0 ==> workspace.base() == Some(workspace.floating[0].window),
        workspace.floating.len() == 0 && workspace.tiling.len() > 0 ==> workspace.base() == Some(
            workspace.tiling[0].window,
        ),
        workspace.floating.len() == 0 && workspace.tiling.len() == 0 ==> workspace.base() is None,
{
}

/// The active workspace of an output is the one that its set says is active.
pub proof fn law_active_workspace_is_the_sets_own(sets: Seq<SetView>, output: OutputId, i: int)
    ensures
        0 <= i < sets.len() && sets[i].output == output && (forall|k: int|
            0 <= k < i ==> (#[trigger] sets[k]).output != output) ==> workspaces::active_place(
            sets,
            output,
        ) == (if sets[i].active < sets[i].workspaces.len() {
            Some(Place { set: i, workspace: sets[i].active as int })
        } else {
            None
        }),
        (forall|k: int| 0 <= k < sets.len() ==> (#[trigger] sets[k]).output != output)
            ==> workspaces::active_place(sets, output) is None,
{
    lemma_set_found(sets, output, i);
}

/// The first set of an output is found.
proof fn lemma_set_found(sets: Seq<SetView>, output: OutputId, i: int)
    ensures
        0 <= i < sets.len() && sets[i].output == output && (forall|k: int|
            0 <= k < i ==> (#[trigger] sets[k]).output != output) ==> seqs::first(
            sets,
            workspaces::set_of(output),
        ) == Some(i),
        (forall|k: int| 0 <= k < sets.len() ==> (#[trigger] sets[k]).output != output)
            ==> seqs::first(sets, workspaces::set_of(output)) is None,
{
    let p = workspaces::set_of(output);
    seqs::lemma_first(sets, p);
    if seqs::first(sets, p) is Some {
        assert(p(sets[seqs::first(sets, p)->0]));
    }
    if 0 <= i < sets.len() && sets[i].output == output && (forall|k: int|
        0 <= k < i ==> (#[trigger] sets[k]).output != output) {
        assert(p(sets[i]));
        assert(seqs::first(sets, p)->0 == i);
    }
}

/// The workspace of an output that a window floats on is the first of its set
/// with the window on the floating layer.
pub proof fn law_floating_window_is_found(
    sets: Seq<SetView>,
    output: OutputId,
    window: WindowId,
    i: int,
    j: int,
)
    requires
        0 <= i < sets.len(),
        sets[i].output == output,
        forall|k: int| 0 <= k < i ==> (#[trigger] sets[k]).output != output,
    ensures
        0 <= j < sets[i].workspaces.len() && (exists|a: int|
            0 <= a < sets[i].workspaces[j].floating.len() && (
            #[trigger] sets[i].workspaces[j].floating[a]).window == window) && (forall|l: int, a: int|
            0 <= l < j && 0 <= a < sets[i].workspaces[l].floating.len() ==> (
            #[trigger] sets[i].workspaces[l].floating[a]).window != window)
            ==> workspaces::floating_place(sets, output, window) == Some(
            Place { set: i, workspace: j },
        ),
        (forall|l: int, a: int|
            0 <= l < sets[i].workspaces.len() && 0 <= a < sets[i].workspaces[l].floating.len() ==> (
            #[trigger] sets[i].workspaces[l].floating[a]).window != window)
            ==> workspaces::floating_place(sets, output, window) is None,
{
    lemma_set_found(sets, output, i);
    let here = sets[i].workspaces;
    let p = workspaces::floats(window);
    seqs::lemma_first(here, p);
    if seqs::first(here, p) is Some {
        let f = seqs::first(here, p)->0;
        assert(p(here[f]));
        let a = choose|a: int|
            0 <= a < here[f].floating.len() && (#[trigger] here[f].floating[a]).window == window;
        assert(sets[i].workspaces[f].floating[a].window == window);
    }
    if 0 <= j < here.len() && (exists|a: int|
        0 <= a < sets[i].workspaces[j].floating.len() && (
        #[trigger] sets[i].workspaces[j].floating[a]).window == window) && (forall|l: int, a: int|
        0 <= l < j && 0 <= a < sets[i].workspaces[l].floating.len() ==> (
        #[trigger] sets[i].workspaces[l].floating[a]).window != window) {
        assert(p(here[j]));
        let f = seqs::first(here, p)->0;
        assert(f <= j);
    }
}

/// A window is sought on the workspaces of all outputs: the workspace that
/// maps it is the first with the window on a layer, and none is found only
/// where no layer of any workspace holds it.
pub proof fn law_mapped_window_is_found(sets: Seq<SetView>, window: WindowId)
    ensures
        match workspaces::mapped_place(sets, window) {
            Some(place) => {
                let workspace = sets[place.set].workspaces[place.workspace];
                &&& 0 <= place.set < sets.len()
                &&& 0 <= place.workspace < sets[place.set].workspaces.len()
                &&& (exists|a: int|
                    0 <= a < workspace.floating.len() && (#[trigger] workspace.floating[a]).window
                        == window) || (exists|a: int|
                    0 <= a < workspace.tiling.len() && (#[trigger] workspace.tiling[a]).window
                        == window)
                &&& forall|i: int, j: int, a: int|
                    0 <= i < sets.len() && 0 <= j < sets[i].workspaces.len() && (i < place.set || (i
                        == place.set && j < place.workspace)) && 0 <= a
                        < sets[i].workspaces[j].floating.len() ==> (
                    #[trigger] sets[i].workspaces[j].floating[a]).window != window
                &&& forall|i: int, j: int, a: int|
                    0 <= i < sets.len() && 0 <= j < sets[i].workspaces.len() && (i < place.set || (i
                        == place.set && j < place.workspace)) && 0 <= a
                        < sets[i].workspaces[j].tiling.len() ==> (
                    #[trigger] sets[i].workspaces[j].tiling[a]).window != window
            },
            None => {
                &&& forall|i: int, j: int, a: int|
                    0 <= i < sets.len() && 0 <= j < sets[i].workspaces.len() && 0 <= a
                        < sets[i].workspaces[j].floating.len() ==> (
                    #[trigger] sets[i].workspaces[j].floating[a]).window != window
                &&& forall|i: int, j: int, a: int|
                    0 <= i < sets.len() && 0 <= j < sets[i].workspaces.len() && 0 <= a
                        < sets[i].workspaces[j].tiling.len() ==> (
                    #[trigger] sets[i].workspaces[j].tiling[a]).window != window
            },
        },
{
    let p = workspaces::set_maps(window);
    let q = workspaces::maps(window);
    seqs::lemma_first(sets, p);
    match seqs::first(sets, p) {
        Some(i) => {
            assert(p(sets[i]));
            let here = sets[i].workspaces;
            seqs::lemma_first(here, q);
            let m = choose|j: int|
                0 <= j < here.len() && (#[trigger] here[j]).maps(window);
            assert(q(here[m]));
            let j = seqs::first(here, q)->0;
            assert(q(here[j]));
            assert forall|k: int, l: int|
                0 <= k < sets.len() && 0 <= l < sets[k].workspaces.len() && (k < i || (k == i && l
                    < j)) implies !(#[trigger] sets[k].workspaces[l]).maps(window) by {
                if k < i {
                    assert(!p(sets[k]));
                } else {
                    assert(!q(here[l]));
                }
            }
        },
        None => {
            assert forall|k: int, l: int|
                0 <= k < sets.len() && 0 <= l < sets[k].workspaces.len() implies !(
            #[trigger] sets[k].workspaces[l]).maps(window) by {
                assert(!p(sets[k]));
            }
        },
    }
}

/// A sticky window is found on the first sticky layer that holds it.
pub proof fn law_sticky_window_is_found(sets: Seq<SetView>, window: WindowId)
    ensures
        match seqs::first(sets, workspaces::sticks(window)) {
            Some(i) => {
                &&& 0 <= i < sets.len()
                &&& exists|a: int|
                    0 <= a < sets[i].sticky_layer.len() && (
                    #[trigger] sets[i].sticky_layer[a]).window == window
                &&& forall|k: int, a: int|
                    0 <= k < i && 0 <= a < sets[k].sticky_layer.len() ==> (
                    #[trigger] sets[k].sticky_layer[a]).window != window
            },
            None => forall|k: int, a: int|
                0 <= k < sets.len() && 0 <= a < sets[k].sticky_layer.len() ==> (
                #[trigger] sets[k].sticky_layer[a]).window != window,
        },
{
    let p = workspaces::sticks(window);
    seqs::lemma_first(sets, p);
    match seqs::first(sets, p) {
        Some(i) => {
            assert(p(sets[i]));
            assert forall|k: int, a: int|
                0 <= k < i && 0 <= a < sets[k].sticky_layer.len() implies (
            #[trigger] sets[k].sticky_layer[a]).window != window by {
                assert(!p(sets[k]));
            }
        },
        None => {
            assert forall|k: int, a: int|
                0 <= k < sets.len() && 0 <= a < sets[k].sticky_layer.len() implies (
            #[trigger] sets[k].sticky_layer[a]).window != window by {
                assert(!p(sets[k]));
            }
        },
    }
}

/// A workspace exists, or a surface is fullscreen, where a workspace of any
/// output says so.
pub proof fn law_workspaces_of_all_outputs_count(
    sets: Seq<SetView>,
    handle: WorkspaceHandle,
    surface: SurfaceId,
)
    ensures
        workspaces::has_handle(sets, handle) <==> exists|i: int, j: int|
            0 <= i < sets.len() && 0 <= j < sets[i].workspaces.len() && (
            #[trigger] sets[i].workspaces[j]).handle == handle,
        workspaces::has_fullscreen(sets, surface) <==> exists|i: int, j: int, a: int|
            0 <= i < sets.len() && 0 <= j < sets[i].workspaces.len() && 0 <= a
                < sets[i].workspaces[j].fullscreen.len()
                && #[trigger] sets[i].workspaces[j].fullscreen[a] == surface,
{
    if workspaces::has_fullscreen(sets, surface) {
        let (i, j) = choose|i: int, j: int|
            0 <= i < sets.len() && 0 <= j < sets[i].workspaces.len() && (
            #[trigger] sets[i].workspaces[j]).fullscreen.contains(surface);
        let a = sets[i].workspaces[j].fullscreen.index_of(surface);
        assert(sets[i].workspaces[j].fullscreen[a] == surface);
    }
    if exists|i: int, j: int, a: int|
        0 <= i < sets.len() && 0 <= j < sets[i].workspaces.len() && 0 <= a
            < sets[i].workspaces[j].fullscreen.len()
            && #[trigger] sets[i].workspaces[j].fullscreen[a] == surface {
        let (i, j, a) = choose|i: int, j: int, a: int|
            0 <= i < sets.len() && 0 <= j < sets[i].workspaces.len() && 0 <= a
                < sets[i].workspaces[j].fullscreen.len()
                && #[trigger] sets[i].workspaces[j].fullscreen[a] == surface;
        assert(sets[i].workspaces[j].fullscreen.contains(surface));
    }
}

/// Replacing a workspace changes nothing else.
pub proof fn law_replacing_a_workspace(
    sets: Seq<SetView>,
    place: Place,
    workspace: WorkspaceView,
)
    requires
        0 <= place.set < sets.len(),
        0 <= place.workspace < sets[place.set].workspaces.len(),
    ensures
        workspaces::at(sets, place) == sets[place.set].workspaces[place.workspace],
        ({
            let after = workspaces::with_workspace(sets, place, workspace);
            &&& after.len() == sets.len()
            &&& forall|i: int| 0 <= i < sets.len() && i != place.set ==> #[trigger] after[i] == sets[i]
            &&& after[place.set] == (SetView {
                workspaces: after[place.set].workspaces,
                ..sets[place.set]
            })
            &&& after[place.set].workspaces.len() == sets[place.set].workspaces.len()
            &&& after[place.set].workspaces[place.workspace] == workspace
            &&& forall|j: int|
                0 <= j < sets[place.set].workspaces.len() && j != place.workspace
                    ==> #[trigger] after[place.set].workspaces[j] == sets[place.set].workspaces[j]
        }),
{
}

/// Leaving the sticky layer drops the window from it, and from the focus
/// stacks of the set's workspaces.
pub proof fn law_leaving_the_sticky_layer(set: SetView, window: WindowId)
    ensures
        ({
            let after = workspaces::unstuck(set, window);
            &&& after == (SetView {
                sticky_layer: after.sticky_layer,
                workspaces: after.workspaces,
                ..set
            })
            &&& after.sticky_layer == set.sticky_layer.filter(
                |e: StickyElement| e.window != window,
            )
            &&& after.workspaces.len() == set.workspaces.len()
            &&& forall|j: int|
                0 <= j < set.workspaces.len() ==> #[trigger] after.workspaces[j]
                    == set.workspaces[j].unfocused(window)
        }),
{
    assert(model::other_sticky(window) =~= (|e: StickyElement| e.window != window));
}

/// Clearing a window away drops it from every layer and focus stack of every
/// workspace of every output, and touches nothing else.
pub proof fn law_clearing_reaches_every_layer(sets: Seq<SetView>, window: WindowId)
    ensures
        ({
            let after = workspaces::all_cleared(sets, window);
            let others = |e: MappedElement| e.window != window;
            &&& after.len() == sets.len()
            &&& forall|i: int|
                0 <= i < sets.len() ==> (#[trigger] after[i]).output == sets[i].output
                    && after[i].output_size == sets[i].output_size && after[i].active
                    == sets[i].active && after[i].sticky_layer == sets[i].sticky_layer.filter(
                    |e: StickyElement| e.window != window,
                ) && after[i].workspaces.len() == sets[i].workspaces.len()
            &&& forall|i: int, j: int|
                0 <= i < sets.len() && 0 <= j < sets[i].workspaces.len() ==> (
                #[trigger] after[i].workspaces[j]).handle == sets[i].workspaces[j].handle
                    && after[i].workspaces[j].fullscreen == sets[i].workspaces[j].fullscreen
                    && after[i].workspaces[j].floating == sets[i].workspaces[j].floating.filter(
                    others,
                ) && after[i].workspaces[j].tiling == sets[i].workspaces[j].tiling.filter(others)
                    && after[i].workspaces[j].focus_stack.len()
                    == sets[i].workspaces[j].focus_stack.len()
            &&& forall|i: int, j: int, s: int|
                0 <= i < sets.len() && 0 <= j < sets[i].workspaces.len() && 0 <= s
                    < sets[i].workspaces[j].focus_stack.len() ==> (
                #[trigger] after[i].workspaces[j].focus_stack[s]).seat
                    == sets[i].workspaces[j].focus_stack[s].seat
                    && after[i].workspaces[j].focus_stack[s].targets
                    == sets[i].workspaces[j].focus_stack[s].targets.filter(
                    |t: FocusTarget| t != FocusTarget::Window(window),
                )
        }),
{
    let after = workspaces::all_cleared(sets, window);
    assert(model::other_sticky(window) =~= (|e: StickyElement| e.window != window));
    assert forall|i: int, j: int|
        0 <= i < sets.len() && 0 <= j < sets[i].workspaces.len() implies #[trigger] after[i].workspaces[j]
        == sets[i].workspaces[j].unmapped(window) by {
        law_leaving_a_workspace(sets[i].workspaces[j], window);
    }
    assert forall|i: int, j: int|
        0 <= i < sets.len() && 0 <= j < sets[i].workspaces.len() implies (
    #[trigger] after[i].workspaces[j]).floating == sets[i].workspaces[j].floating.filter(
        |e: MappedElement| e.window != window,
    ) && after[i].workspaces[j].tiling == sets[i].workspaces[j].tiling.filter(
        |e: MappedElement| e.window != window,
    ) by {
        law_leaving_a_workspace(sets[i].workspaces[j], window);
    }
    assert forall|i: int, j: int, s: int|
        0 <= i < sets.len() && 0 <= j < sets[i].workspaces.len() && 0 <= s
            < sets[i].workspaces[j].focus_stack.len() implies (
    #[trigger] after[i].workspaces[j].focus_stack[s]).seat
        == sets[i].workspaces[j].focus_stack[s].seat && after[i].workspaces[j].focus_stack[s].targets
        == sets[i].workspaces[j].focus_stack[s].targets.filter(
        |t: FocusTarget| t != FocusTarget::Window(window),
    ) by {
        law_leaving_a_workspace(sets[i].workspaces[j], window);
    }
}

} // verus!
