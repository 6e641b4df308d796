//! Where the layouts and focus stacks of all workspaces know a window.

use vstd::prelude::*;

use crate::model;
use crate::model::{
    FocusTarget, MappedElement, OutputId, SetView, StickyElement, WindowId, WorkspaceHandle,
    WorkspaceView,
};
use crate::seqs;
use crate::workspaces;
use crate::workspaces::Place;

verus! {

/// Whether the workspace knows `window` at all.
pub open spec fn knows(workspace: WorkspaceView, window: WindowId) -> bool {
    workspace.maps(window) || workspace.focuses(window)
}

/// No sticky layer holds `window`.
pub open spec fn never_sticky(sets: Seq<SetView>, window: WindowId) -> bool {
    forall|i: int|
        0 <= i < sets.len() ==> !model::sticky_has((#[trigger] sets[i]).sticky_layer, window)
}

/// `window` is on no layout and in no focus stack: nothing renders or focuses
/// it.
pub open spec fn nowhere(sets: Seq<SetView>, window: WindowId) -> bool {
    &&& never_sticky(sets, window)
    &&& forall|i: int, j: int|
        0 <= i < sets.len() && 0 <= j < sets[i].workspaces.len() ==> !knows(
            #[trigger] sets[i].workspaces[j],
            window,
        )
}

/// `window` floats on the workspace at `place`, and is known nowhere else.
pub open spec fn afloat_at(sets: Seq<SetView>, place: Place, window: WindowId) -> bool {
    &&& workspaces::in_range(sets, place)
    &&& never_sticky(sets, window)
    &&& workspaces::at(sets, place).floats(window)
    &&& !model::layer_has(workspaces::at(sets, place).tiling, window)
    &&& forall|i: int, j: int|
        0 <= i < sets.len() && 0 <= j < sets[i].workspaces.len() && knows(
            #[trigger] sets[i].workspaces[j],
            window,
        ) ==> i == place.set && j == place.workspace
}

/// `window` is on at most one layout: on one sticky layer and focused on
/// workspaces of that output alone, or on one workspace.
pub open spec fn on_one_layout(sets: Seq<SetView>, window: WindowId) -> bool {
    ||| exists|k: int| #[trigger] sticky_on(sets, k, window)
    ||| {
        &&& never_sticky(sets, window)
        &&& forall|i: int, j: int, k: int, l: int|
            0 <= i < sets.len() && 0 <= j < sets[i].workspaces.len() && 0 <= k < sets.len() && 0
                <= l < sets[k].workspaces.len() && knows(#[trigger] sets[i].workspaces[j], window)
                && knows(#[trigger] sets[k].workspaces[l], window) ==> i == k && j == l
    }
}

/// `window` is on the sticky layer of set `k`, on no workspace, and focused on
/// workspaces of the set alone.
pub open spec fn sticky_on(sets: Seq<SetView>, k: int, window: WindowId) -> bool {
    &&& 0 <= k < sets.len()
    &&& model::sticky_has(sets[k].sticky_layer, window)
    &&& forall|i: int|
        0 <= i < sets.len() && i != k ==> !model::sticky_has(
            (#[trigger] sets[i]).sticky_layer,
            window,
        )
    &&& forall|i: int, j: int|
        0 <= i < sets.len() && 0 <= j < sets[i].workspaces.len() ==> !(
        #[trigger] sets[i].workspaces[j]).maps(window) && (i != k
            ==> !sets[i].workspaces[j].focuses(window))
}

/// The same outputs with the same workspaces, the same ones active.
pub open spec fn same_shape(a: Seq<SetView>, b: Seq<SetView>) -> bool {
    &&& a.len() == b.len()
    &&& forall|i: int|
        0 <= i < a.len() ==> (#[trigger] a[i]).output == b[i].output && a[i].active == b[i].active
            && a[i].workspaces.len() == b[i].workspaces.len()
    &&& forall|i: int, j: int|
        0 <= i < a.len() && 0 <= j < a[i].workspaces.len() ==> (
        #[trigger] a[i].workspaces[j]).handle == b[i].workspaces[j].handle
}

/// Two workspaces know `window` in the same way.
pub open spec fn know_alike(a: WorkspaceView, b: WorkspaceView, window: WindowId) -> bool {
    &&& a.floats(window) == b.floats(window)
    &&& model::layer_has(a.tiling, window) == model::layer_has(b.tiling, window)
    &&& a.focuses(window) == b.focuses(window)
}

/// `a` and `b` know `window` in the same places.
pub open spec fn agree(a: Seq<SetView>, b: Seq<SetView>, window: WindowId) -> bool {
    &&& same_shape(a, b)
    &&& forall|i: int|
        0 <= i < a.len() ==> model::sticky_has((#[trigger] a[i]).sticky_layer, window)
            == model::sticky_has(b[i].sticky_layer, window)
    &&& forall|i: int, j: int|
        0 <= i < a.len() && 0 <= j < a[i].workspaces.len() ==> know_alike(
            #[trigger] a[i].workspaces[j],
            b[i].workspaces[j],
            window,
        )
}

/// Taking a window out of a layer leaves the others.
pub proof fn lemma_without_window(layer: Seq<MappedElement>, window: WindowId, other: WindowId)
    ensures
        model::layer_has(model::without_window(layer, window), other) == (other != window
            && model::layer_has(layer, other)),
{
    let p = model::other_element(window);
    let rest = layer.filter(p);
    if model::layer_has(rest, other) {
        let a = choose|a: int| 0 <= a < rest.len() && (#[trigger] rest[a]).window == other;
        seqs::lemma_filter_from(layer, p, a);
    }
    if other != window && model::layer_has(layer, other) {
        let k = choose|k: int| 0 <= k < layer.len() && (#[trigger] layer[k]).window == other;
        seqs::lemma_filter_keeps(layer, p, k);
    }
}

/// Taking a window out of a sticky layer leaves the others.
pub proof fn lemma_without_sticky(layer: Seq<StickyElement>, window: WindowId, other: WindowId)
    ensures
        model::sticky_has(model::without_sticky(layer, window), other) == (other != window
            && model::sticky_has(layer, other)),
{
    let p = model::other_sticky(window);
    let rest = layer.filter(p);
    if model::sticky_has(rest, other) {
        let a = choose|a: int| 0 <= a < rest.len() && (#[trigger] rest[a]).window == other;
        seqs::lemma_filter_from(layer, p, a);
    }
    if other != window && model::sticky_has(layer, other) {
        let k = choose|k: int| 0 <= k < layer.len() && (#[trigger] layer[k]).window == other;
        seqs::lemma_filter_keeps(layer, p, k);
    }
}

/// Taking a window out of the focus stacks leaves the others.
pub proof fn lemma_unfocused(workspace: WorkspaceView, window: WindowId, other: WindowId)
    ensures
        workspace.unfocused(window).focuses(other) == (other != window && workspace.focuses(other)),
{
    let p = model::other_target(window);
    let after = workspace.unfocused(window);
    let target = FocusTarget::Window(other);
    if after.focuses(other) {
        let s = choose|s: int|
            0 <= s < after.focus_stack.len() && (#[trigger] after.focus_stack[s]).targets.contains(
                target,
            );
        let before = workspace.focus_stack[s].targets;
        let a = after.focus_stack[s].targets.index_of(target);
        seqs::lemma_filter_from(before, p, a);
        assert(before.contains(target));
    }
    if other != window && workspace.focuses(other) {
        let s = choose|s: int|
            0 <= s < workspace.focus_stack.len() && (
            #[trigger] workspace.focus_stack[s]).targets.contains(target);
        let before = workspace.focus_stack[s].targets;
        seqs::lemma_filter_keeps(before, p, before.index_of(target));
        assert(after.focus_stack[s].targets.contains(target));
    }
}

/// Floating a window puts it on the floating layer and changes nothing else.
pub proof fn lemma_floated(workspace: WorkspaceView, window: WindowId, other: WindowId)
    ensures
        workspace.floated(window).floats(other) == (other == window || workspace.floats(other)),
        workspace.floated(window).focuses(other) == workspace.focuses(other),
{
    let after = workspace.floated(window);
    let rest = model::without_window(workspace.floating, window);
    lemma_without_window(workspace.floating, window, other);
    assert(after.floating.last().window == window);
    assert(after.floating[after.floating.len() - 1].window == window);
    if model::layer_has(rest, other) {
        let a = choose|a: int| 0 <= a < rest.len() && (#[trigger] rest[a]).window == other;
        assert(after.floating[a].window == other);
    }
    if after.floats(other) && other != window {
        let a = choose|a: int|
            0 <= a < after.floating.len() && (#[trigger] after.floating[a]).window == other;
        assert(rest[a].window == other);
    }
    if workspace.focuses(other) {
        let s = choose|s: int|
            0 <= s < workspace.focus_stack.len() && (
            #[trigger] workspace.focus_stack[s]).targets.contains(FocusTarget::Window(other));
        assert(after.focus_stack[s].targets.contains(FocusTarget::Window(other)));
    }
}

/// Replacing a workspace by one with its handle that knows `window` alike
/// changes nothing for `window`.
pub proof fn lemma_replaced_agree(
    sets: Seq<SetView>,
    place: Place,
    workspace: WorkspaceView,
    window: WindowId,
)
    requires
        workspaces::in_range(sets, place),
        workspace.handle == workspaces::at(sets, place).handle,
        know_alike(workspaces::at(sets, place), workspace, window),
    ensures
        agree(sets, workspaces::with_workspace(sets, place, workspace), window),
{
}

/// The active workspace is where it was.
pub proof fn lemma_same_active(a: Seq<SetView>, b: Seq<SetView>, output: OutputId)
    requires
        same_shape(a, b),
    ensures
        seqs::first(a, workspaces::set_of(output)) == seqs::first(b, workspaces::set_of(output)),
        workspaces::active_place(a, output) == workspaces::active_place(b, output),
        workspaces::active_place(a, output) is Some ==> {
            let place = workspaces::active_place(a, output)->0;
            &&& workspaces::in_range(a, place)
            &&& workspaces::at(a, place).handle == workspaces::at(b, place).handle
        },
{
    let p = workspaces::set_of(output);
    seqs::lemma_first(a, p);
    seqs::lemma_first(b, p);
    match seqs::first(a, p) {
        Some(i) => {
            assert forall|j: int| 0 <= j < i implies !p(#[trigger] b[j]) by {
                assert(!p(a[j]));
            }
            assert(p(a[i]));
            assert(p(b[i]));
            seqs::lemma_first_at(b, p, i);
        },
        None => {
            assert forall|j: int| 0 <= j < b.len() implies !p(#[trigger] b[j]) by {
                assert(!p(a[j]));
            }
            seqs::lemma_first_none(b, p);
        },
    }
}

/// A window floats on the same workspace of `output` as before.
pub proof fn lemma_agree_floating(
    a: Seq<SetView>,
    b: Seq<SetView>,
    output: OutputId,
    window: WindowId,
)
    requires
        agree(a, b, window),
    ensures
        workspaces::floating_place(a, output, window) == workspaces::floating_place(
            b,
            output,
            window,
        ),
{
    lemma_same_active(a, b, output);
    let s = workspaces::set_of(output);
    seqs::lemma_first(a, s);
    if seqs::first(a, s) is Some {
        let i = seqs::first(a, s)->0;
        let p = workspaces::floats(window);
        let before = a[i].workspaces;
        let after = b[i].workspaces;
        assert forall|j: int| 0 <= j < before.len() implies p(#[trigger] before[j]) == p(
            after[j],
        ) by {
            assert(know_alike(a[i].workspaces[j], b[i].workspaces[j], window));
        }
        seqs::lemma_first(before, p);
        seqs::lemma_first(after, p);
        match seqs::first(before, p) {
            Some(j) => {
                assert forall|k: int| 0 <= k < j implies !p(#[trigger] after[k]) by {
                    assert(!p(before[k]));
                }
                seqs::lemma_first_at(after, p, j);
            },
            None => {
                assert forall|k: int| 0 <= k < after.len() implies !p(#[trigger] after[k]) by {
                    assert(!p(before[k]));
                }
                seqs::lemma_first_none(after, p);
            },
        }
    }
}

/// What is known of a window's whereabouts stays known.
pub proof fn lemma_agree_whereabouts(
    a: Seq<SetView>,
    b: Seq<SetView>,
    place: Place,
    window: WindowId,
)
    requires
        agree(a, b, window),
    ensures
        nowhere(a, window) ==> nowhere(b, window),
        afloat_at(a, place, window) ==> afloat_at(b, place, window),
{
    assert forall|i: int, j: int| 0 <= i < b.len() && 0 <= j < b[i].workspaces.len() implies knows(
        #[trigger] b[i].workspaces[j],
        window,
    ) == knows(a[i].workspaces[j], window) by {
        assert(know_alike(a[i].workspaces[j], b[i].workspaces[j], window));
    }
    assert forall|i: int| 0 <= i < b.len() implies model::sticky_has(
        (#[trigger] b[i]).sticky_layer,
        window,
    ) == model::sticky_has(a[i].sticky_layer, window) by {
        assert(a[i].output == b[i].output);
    }
    if workspaces::in_range(a, place) {
        assert(know_alike(
            a[place.set].workspaces[place.workspace],
            b[place.set].workspaces[place.workspace],
            window,
        ));
    }
}

/// A window is found on a workspace of `output` that it floats on, wherever it
/// floats on one.
pub proof fn lemma_floating_place(sets: Seq<SetView>, output: OutputId, window: WindowId)
    ensures
        match workspaces::floating_place(sets, output, window) {
            Some(place) => workspaces::in_range(sets, place) && workspaces::at(sets, place).floats(
                window,
            ),
            None => match seqs::first(sets, workspaces::set_of(output)) {
                Some(i) => forall|j: int|
                    0 <= j < sets[i].workspaces.len() ==> !(
                    #[trigger] sets[i].workspaces[j]).floats(window),
                None => true,
            },
        },
{
    let s = workspaces::set_of(output);
    let p = workspaces::floats(window);
    seqs::lemma_first(sets, s);
    if seqs::first(sets, s) is Some {
        let here = sets[seqs::first(sets, s)->0].workspaces;
        seqs::lemma_first(here, p);
        if seqs::first(here, p) is None {
            assert forall|j: int| 0 <= j < here.len() implies !(#[trigger] here[j]).floats(
                window,
            ) by {
                assert(!p(here[j]));
            }
        }
    }
}

/// Nothing changes where nothing is done.
pub proof fn lemma_agree_reflexive(sets: Seq<SetView>)
    ensures
        same_shape(sets, sets),
        forall|window: WindowId| #[trigger] agree(sets, sets, window),
{
}

/// The same outputs and workspaces twice are the same once.
pub proof fn lemma_same_shape_transitive(a: Seq<SetView>, b: Seq<SetView>, c: Seq<SetView>)
    requires
        same_shape(a, b),
        same_shape(b, c),
    ensures
        same_shape(a, c),
{
    assert forall|i: int| 0 <= i < a.len() implies (#[trigger] a[i]).output == c[i].output
        && a[i].active == c[i].active && a[i].workspaces.len() == c[i].workspaces.len() by {
        assert(b[i].output == c[i].output);
    }
    assert forall|i: int, j: int| 0 <= i < a.len() && 0 <= j < a[i].workspaces.len() implies (
    #[trigger] a[i].workspaces[j]).handle == c[i].workspaces[j].handle by {
        assert(b[i].output == c[i].output);
        assert(b[i].workspaces[j].handle == c[i].workspaces[j].handle);
    }
}

/// What is known of a window twice in the same way is known once so.
pub proof fn lemma_agree_transitive(
    a: Seq<SetView>,
    b: Seq<SetView>,
    c: Seq<SetView>,
    window: WindowId,
)
    requires
        agree(a, b, window),
        agree(b, c, window),
    ensures
        agree(a, c, window),
{
    assert forall|i: int| 0 <= i < a.len() implies (#[trigger] a[i]).output == c[i].output
        && a[i].active == c[i].active && a[i].workspaces.len() == c[i].workspaces.len()
        && model::sticky_has(a[i].sticky_layer, window) == model::sticky_has(
        c[i].sticky_layer,
        window,
    ) by {
        assert(b[i].output == c[i].output);
    }
    assert forall|i: int, j: int| 0 <= i < a.len() && 0 <= j < a[i].workspaces.len() implies (
    #[trigger] a[i].workspaces[j]).handle == c[i].workspaces[j].handle && know_alike(
        a[i].workspaces[j],
        c[i].workspaces[j],
        window,
    ) by {
        assert(b[i].output == c[i].output);
        assert(know_alike(b[i].workspaces[j], c[i].workspaces[j], window));
    }
}

/// The same workspaces are there.
pub proof fn lemma_same_handles(a: Seq<SetView>, b: Seq<SetView>, handle: WorkspaceHandle)
    requires
        same_shape(a, b),
    ensures
        workspaces::has_handle(a, handle) == workspaces::has_handle(b, handle),
{
    if workspaces::has_handle(a, handle) {
        let (i, j) = choose|i: int, j: int|
            0 <= i < a.len() && 0 <= j < a[i].workspaces.len() && (
            #[trigger] a[i].workspaces[j]).handle == handle;
        assert(b[i].workspaces[j].handle == handle);
    }
    if workspaces::has_handle(b, handle) {
        let (i, j) = choose|i: int, j: int|
            0 <= i < b.len() && 0 <= j < b[i].workspaces.len() && (
            #[trigger] b[i].workspaces[j]).handle == handle;
        assert(a[i].output == b[i].output);
        assert(a[i].workspaces[j].handle == handle);
    }
}

/// Clearing a window away leaves it nowhere, and every other window where it
/// was.
pub proof fn lemma_cleared(sets: Seq<SetView>, window: WindowId)
    ensures
        ({
            let after = workspaces::all_cleared(sets, window);
            &&& nowhere(after, window)
            &&& same_shape(sets, after)
            &&& forall|other: WindowId| other != window ==> #[trigger] agree(sets, after, other)
        }),
{
    let after = workspaces::all_cleared(sets, window);
    assert forall|i: int, other: WindowId| 0 <= i < sets.len() implies #[trigger] model::sticky_has(
        after[i].sticky_layer,
        other,
    ) == (other != window && model::sticky_has(sets[i].sticky_layer, other)) by {
        lemma_without_sticky(sets[i].sticky_layer, window, other);
    }
    assert forall|i: int, j: int|
        0 <= i < after.len() && 0 <= j < after[i].workspaces.len() implies !knows(
        #[trigger] after[i].workspaces[j],
        window,
    ) by {
        lemma_unmapped(sets[i].workspaces[j], window, window);
    }
    assert forall|other: WindowId| other != window implies #[trigger] agree(sets, after, other) by {
        assert forall|i: int, j: int|
            0 <= i < sets.len() && 0 <= j < sets[i].workspaces.len() implies know_alike(
            #[trigger] sets[i].workspaces[j],
            after[i].workspaces[j],
            other,
        ) by {
            lemma_unmapped(sets[i].workspaces[j], window, other);
        }
    }
}

/// Leaving a workspace, a window is not known there any more; every other is
/// known as before.
proof fn lemma_unmapped(workspace: WorkspaceView, window: WindowId, other: WindowId)
    ensures
        other == window ==> !knows(workspace.unmapped(window), other),
        other != window ==> know_alike(workspace, workspace.unmapped(window), other),
{
    lemma_without_window(workspace.floating, window, other);
    lemma_without_window(workspace.tiling, window, other);
    lemma_unfocused(workspace, window, other);
    lemma_same_focus(workspace.unfocused(window), workspace.unmapped(window), other);
}

/// Taking a window off the floating layer of a workspace leaves every other
/// window where it was; where it was afloat there, it is nowhere then.
pub proof fn lemma_unfloated_at(sets: Seq<SetView>, place: Place, window: WindowId)
    requires
        workspaces::in_range(sets, place),
    ensures
        ({
            let after = workspaces::with_workspace(
                sets,
                place,
                workspaces::at(sets, place).unfloated(window),
            );
            &&& afloat_at(sets, place, window) ==> nowhere(after, window)
            &&& same_shape(sets, after)
            &&& forall|other: WindowId| other != window ==> #[trigger] agree(sets, after, other)
        }),
{
    let before = workspaces::at(sets, place);
    let workspace = before.unfloated(window);
    let after = workspaces::with_workspace(sets, place, workspace);
    lemma_without_window(before.floating, window, window);
    lemma_unfocused(before, window, window);
    lemma_same_focus(before.unfocused(window), workspace, window);
    if afloat_at(sets, place, window) {
        assert(!knows(workspace, window));
        assert forall|i: int, j: int|
            0 <= i < after.len() && 0 <= j < after[i].workspaces.len() implies !knows(
            #[trigger] after[i].workspaces[j],
            window,
        ) by {
            if i == place.set && j == place.workspace {
                assert(after[i].workspaces[j] == workspace);
            } else {
                assert(after[i].workspaces[j] == sets[i].workspaces[j]);
            }
        }
    }
    assert forall|other: WindowId| other != window implies #[trigger] agree(sets, after, other) by {
        lemma_without_window(before.floating, window, other);
        lemma_unfocused(before, window, other);
        lemma_same_focus(before.unfocused(window), workspace, other);
        lemma_replaced_agree(sets, place, workspace, other);
    }
}

/// Workspaces with the same focus stacks focus the same windows.
proof fn lemma_same_focus(a: WorkspaceView, b: WorkspaceView, window: WindowId)
    requires
        a.focus_stack == b.focus_stack,
    ensures
        a.focuses(window) == b.focuses(window),
{
}

/// Putting a window on the floating layer of a workspace leaves every other
/// window where it was; where it was nowhere, or afloat there already, it is
/// afloat there then.
pub proof fn lemma_floated_at(sets: Seq<SetView>, place: Place, window: WindowId)
    requires
        workspaces::in_range(sets, place),
    ensures
        ({
            let after = workspaces::with_workspace(
                sets,
                place,
                workspaces::at(sets, place).floated(window),
            );
            &&& workspaces::at(after, place).floats(window)
            &&& nowhere(sets, window) || afloat_at(sets, place, window) ==> afloat_at(
                after,
                place,
                window,
            )
            &&& same_shape(sets, after)
            &&& forall|other: WindowId| other != window ==> #[trigger] agree(sets, after, other)
        }),
{
    let before = workspaces::at(sets, place);
    let workspace = before.floated(window);
    let after = workspaces::with_workspace(sets, place, workspace);
    lemma_floated(before, window, window);
    assert(before == sets[place.set].workspaces[place.workspace]);
    if nowhere(sets, window) || afloat_at(sets, place, window) {
        assert forall|i: int, j: int|
            0 <= i < after.len() && 0 <= j < after[i].workspaces.len() && knows(
                #[trigger] after[i].workspaces[j],
                window,
            ) implies i == place.set && j == place.workspace by {
            if i != place.set || j != place.workspace {
                assert(after[i].workspaces[j] == sets[i].workspaces[j]);
            }
        }
    }
    assert forall|other: WindowId| other != window implies #[trigger] agree(sets, after, other) by {
        lemma_floated(before, window, other);
        lemma_replaced_agree(sets, place, workspace, other);
    }
}

/// A window that leaves the only workspace that knows it is nowhere, and
/// every other window where it was.
pub proof fn lemma_unmapped_nowhere(sets: Seq<SetView>, place: Place, window: WindowId)
    requires
        workspaces::in_range(sets, place),
        never_sticky(sets, window),
        forall|i: int, j: int|
            0 <= i < sets.len() && 0 <= j < sets[i].workspaces.len() && knows(
                #[trigger] sets[i].workspaces[j],
                window,
            ) ==> i == place.set && j == place.workspace,
    ensures
        ({
            let after = workspaces::with_workspace(
                sets,
                place,
                workspaces::at(sets, place).unmapped(window),
            );
            &&& nowhere(after, window)
            &&& same_shape(sets, after)
            &&& forall|other: WindowId| other != window ==> #[trigger] agree(sets, after, other)
        }),
{
    let before = workspaces::at(sets, place);
    let workspace = before.unmapped(window);
    let after = workspaces::with_workspace(sets, place, workspace);
    lemma_without_window(before.floating, window, window);
    lemma_without_window(before.tiling, window, window);
    lemma_unfocused(before, window, window);
    lemma_same_focus(before.unfocused(window), workspace, window);
    assert(!knows(workspace, window));
    assert forall|i: int, j: int|
        0 <= i < after.len() && 0 <= j < after[i].workspaces.len() implies !knows(
        #[trigger] after[i].workspaces[j],
        window,
    ) by {
        if i == place.set && j == place.workspace {
            assert(after[i].workspaces[j] == workspace);
        } else {
            assert(after[i].workspaces[j] == sets[i].workspaces[j]);
        }
    }
    assert forall|other: WindowId| other != window implies #[trigger] agree(sets, after, other) by {
        lemma_without_window(before.floating, window, other);
        lemma_without_window(before.tiling, window, other);
        lemma_unfocused(before, window, other);
        lemma_same_focus(before.unfocused(window), workspace, other);
        lemma_replaced_agree(sets, place, workspace, other);
    }
}

/// A window that leaves the only sticky layer it is on is nowhere, and every
/// other window where it was.
pub proof fn lemma_unstuck_nowhere(sets: Seq<SetView>, k: int, window: WindowId)
    requires
        sticky_on(sets, k, window),
    ensures
        ({
            let after = sets.update(k, workspaces::unstuck(sets[k], window));
            &&& nowhere(after, window)
            &&& same_shape(sets, after)
            &&& forall|other: WindowId| other != window ==> #[trigger] agree(sets, after, other)
        }),
{
    let after = sets.update(k, workspaces::unstuck(sets[k], window));
    lemma_without_sticky(sets[k].sticky_layer, window, window);
    assert forall|i: int| 0 <= i < after.len() implies !model::sticky_has(
        (#[trigger] after[i]).sticky_layer,
        window,
    ) by {
        if i != k {
            assert(after[i] == sets[i]);
        }
    }
    assert forall|i: int, j: int|
        0 <= i < after.len() && 0 <= j < after[i].workspaces.len() implies !knows(
        #[trigger] after[i].workspaces[j],
        window,
    ) by {
        let before = sets[i].workspaces[j];
        assert(!before.maps(window));
        if i == k {
            lemma_unfocused(before, window, window);
            assert(after[i].workspaces[j] == before.unfocused(window));
        } else {
            assert(after[i].workspaces[j] == before);
        }
    }
    assert forall|other: WindowId| other != window implies #[trigger] agree(sets, after, other) by {
        lemma_without_sticky(sets[k].sticky_layer, window, other);
        assert forall|i: int, j: int|
            0 <= i < sets.len() && 0 <= j < sets[i].workspaces.len() implies know_alike(
            #[trigger] sets[i].workspaces[j],
            after[i].workspaces[j],
            other,
        ) by {
            if i == k {
                lemma_unfocused(sets[i].workspaces[j], window, other);
            }
        }
    }
}

} // verus!
