//! What the effects of an operation do to the compositor: carried out in
//! order on the picture before the operation, they give the picture after it.

use vstd::prelude::*;

use crate::layout_laws;
use crate::manager;
use crate::manager::SpecialWindow;
use crate::model;
use crate::model::{
    Effect, FocusTarget, KeyboardFocusTarget, MappedElement, OutputId, Seat, SeatStackView, SetView,
    StickyElement, WindowId, WorkspaceHandle, WorkspaceView,
};
use crate::presence;
use crate::seqs;
use crate::transitions;
use crate::transitions::{Attachment, SendStage, ShellView};
use crate::workspaces;
use crate::workspaces::Place;

verus! {

/// No two workspaces have one handle, and no two sets one output.
pub open spec fn named_apart(sets: Seq<SetView>) -> bool {
    &&& forall|i: int, j: int, k: int, l: int|
        0 <= i < sets.len() && 0 <= j < sets[i].workspaces.len() && 0 <= k < sets.len() && 0 <= l
            < sets[k].workspaces.len() && (#[trigger] sets[i].workspaces[j]).handle == (
        #[trigger] sets[k].workspaces[l]).handle ==> i == k && j == l
    &&& forall|i: int, k: int|
        0 <= i < sets.len() && 0 <= k < sets.len() && (#[trigger] sets[i]).output == (
        #[trigger] sets[k]).output ==> i == k
}

/// Focus stacks without `window`.
pub open spec fn stacks_without(stacks: Seq<SeatStackView>, window: WindowId) -> Seq<SeatStackView> {
    Seq::new(
        stacks.len(),
        |s: int|
            SeatStackView {
                seat: stacks[s].seat,
                targets: stacks[s].targets.filter(
                    |t: FocusTarget| t != FocusTarget::Window(window),
                ),
            },
    )
}

/// A layer without `window`.
pub open spec fn layer_without(layer: Seq<MappedElement>, window: WindowId) -> Seq<MappedElement> {
    layer.filter(|e: MappedElement| e.window != window)
}

/// What carrying out `effect` makes of a workspace.
pub open spec fn workspace_once(workspace: WorkspaceView, effect: Effect) -> WorkspaceView {
    match effect {
        Effect::UnmapFloating { handle, window } => if workspace.handle == handle {
            WorkspaceView {
                floating: layer_without(workspace.floating, window),
                focus_stack: stacks_without(workspace.focus_stack, window),
                ..workspace
            }
        } else {
            workspace
        },
        Effect::UnmapElement { handle, window } => if workspace.handle == handle {
            WorkspaceView {
                floating: layer_without(workspace.floating, window),
                tiling: layer_without(workspace.tiling, window),
                focus_stack: stacks_without(workspace.focus_stack, window),
                ..workspace
            }
        } else {
            workspace
        },
        Effect::Unfocus { handle, window } => if workspace.handle == handle {
            WorkspaceView {
                focus_stack: stacks_without(workspace.focus_stack, window),
                ..workspace
            }
        } else {
            workspace
        },
        Effect::MapFloating { handle, window } => if workspace.handle == handle {
            WorkspaceView {
                floating: layer_without(workspace.floating, window).push(
                    MappedElement { window, restore: None },
                ),
                ..workspace
            }
        } else {
            workspace
        },
        _ => workspace,
    }
}

/// What carrying out `effect` makes of a set.
pub open spec fn set_once(set: SetView, effect: Effect) -> SetView {
    match effect {
        Effect::UnmapSticky { output, window } => if set.output == output {
            SetView {
                sticky_layer: set.sticky_layer.filter(|e: StickyElement| e.window != window),
                workspaces: Seq::new(
                    set.workspaces.len(),
                    |j: int|
                        WorkspaceView {
                            focus_stack: stacks_without(set.workspaces[j].focus_stack, window),
                            ..set.workspaces[j]
                        },
                ),
                ..set
            }
        } else {
            set
        },
        _ => SetView {
            workspaces: Seq::new(
                set.workspaces.len(),
                |j: int| workspace_once(set.workspaces[j], effect),
            ),
            ..set
        },
    }
}

/// The picture once `effect` was carried out.
pub open spec fn once(sets: Seq<SetView>, effect: Effect) -> Seq<SetView> {
    Seq::new(sets.len(), |i: int| set_once(sets[i], effect))
}

/// The picture once `effects` were carried out, in order.
pub open spec fn carried_out(sets: Seq<SetView>, effects: Seq<Effect>) -> Seq<SetView>
    decreases effects.len(),
{
    if effects.len() == 0 {
        sets
    } else {
        once(carried_out(sets, effects.drop_last()), effects.last())
    }
}

/// A workspace named `handle` is there.
pub open spec fn there(sets: Seq<SetView>, handle: WorkspaceHandle) -> bool {
    exists|i: int, j: int|
        0 <= i < sets.len() && 0 <= j < sets[i].workspaces.len() && (
        #[trigger] sets[i].workspaces[j]).handle == handle
}

/// There is something to do for `effect`: what it takes away is there, and the
/// workspace that it speaks of exists.
pub open spec fn called_for(sets: Seq<SetView>, effect: Effect) -> bool {
    match effect {
        Effect::UnmapFloating { handle, window } => exists|i: int, j: int, a: int|
            0 <= i < sets.len() && 0 <= j < sets[i].workspaces.len()
                && sets[i].workspaces[j].handle == handle && 0 <= a
                < sets[i].workspaces[j].floating.len() && (
            #[trigger] sets[i].workspaces[j].floating[a]).window == window,
        Effect::UnmapElement { handle, window } => (exists|i: int, j: int, a: int|
            0 <= i < sets.len() && 0 <= j < sets[i].workspaces.len()
                && sets[i].workspaces[j].handle == handle && 0 <= a
                < sets[i].workspaces[j].floating.len() && (
            #[trigger] sets[i].workspaces[j].floating[a]).window == window) || (exists|
            i: int,
            j: int,
            a: int,
        |
            0 <= i < sets.len() && 0 <= j < sets[i].workspaces.len()
                && sets[i].workspaces[j].handle == handle && 0 <= a
                < sets[i].workspaces[j].tiling.len() && (
            #[trigger] sets[i].workspaces[j].tiling[a]).window == window),
        Effect::UnmapSticky { output, window } => exists|i: int, a: int|
            0 <= i < sets.len() && sets[i].output == output && 0 <= a < sets[i].sticky_layer.len()
                && (#[trigger] sets[i].sticky_layer[a]).window == window,
        Effect::Unfocus { handle, window } => exists|i: int, j: int, s: int, t: int|
            0 <= i < sets.len() && 0 <= j < sets[i].workspaces.len()
                && sets[i].workspaces[j].handle == handle && 0 <= s
                < sets[i].workspaces[j].focus_stack.len() && 0 <= t
                < sets[i].workspaces[j].focus_stack[s].targets.len() && (
            #[trigger] sets[i].workspaces[j].focus_stack[s].targets[t]) == FocusTarget::Window(
                window,
            ),
        Effect::MapFloating { handle, .. } => there(sets, handle),
        Effect::LeaveWorkspace { handle, .. } => there(sets, handle),
        Effect::EnterWorkspace { handle, .. } => there(sets, handle),
        Effect::Maximize { .. } => true,
    }
}

/// Each of `effects` is called for when its turn comes.
pub open spec fn all_called_for(sets: Seq<SetView>, effects: Seq<Effect>) -> bool {
    forall|n: int|
        0 <= n < effects.len() ==> called_for(
            carried_out(sets, effects.take(n)),
            #[trigger] effects[n],
        )
}

/// Clients are told of each window that leaves or enters a workspace, at once,
/// and of nothing else.
pub open spec fn clients_told(effects: Seq<Effect>) -> bool {
    &&& forall|n: int|
        0 <= n < effects.len() ==> match #[trigger] effects[n] {
            Effect::UnmapFloating { handle, window } => n + 1 < effects.len() && effects[n + 1]
                == (Effect::LeaveWorkspace { handle, window }),
            Effect::UnmapElement { handle, window } => n + 1 < effects.len() && effects[n + 1]
                == (Effect::LeaveWorkspace { handle, window }),
            Effect::MapFloating { handle, window } => n + 1 < effects.len() && effects[n + 1]
                == (Effect::EnterWorkspace { handle, window }),
            Effect::LeaveWorkspace { handle, window } => n > 0 && (effects[n - 1]
                == (Effect::UnmapFloating { handle, window }) || effects[n - 1]
                == (Effect::UnmapElement { handle, window })),
            Effect::EnterWorkspace { handle, window } => n > 0 && effects[n - 1]
                == (Effect::MapFloating { handle, window }),
            _ => true,
        }
}

/// The effects that an operation added account for what it did to the
/// picture: each is called for when its turn comes, clients are told of
/// windows that leave and enter workspaces, and carrying the effects out makes
/// the picture after the operation of the picture before it.
pub open spec fn accounts_for(before: ShellView, after: ShellView) -> bool {
    let n = before.effects.len() as int;
    let added = after.effects.skip(n);
    &&& n <= after.effects.len()
    &&& after.effects.take(n) == before.effects
    &&& carried_out(before.sets, added) == after.sets
    &&& all_called_for(before.sets, added)
    &&& clients_told(added)
}

/// Carrying out some effects and then others is carrying out all.
proof fn lemma_carried_out_more(sets: Seq<SetView>, a: Seq<Effect>, b: Seq<Effect>)
    ensures
        carried_out(sets, a + b) == carried_out(carried_out(sets, a), b),
    decreases b.len(),
{
    if b.len() == 0 {
        assert(a + b =~= a);
    } else {
        lemma_carried_out_more(sets, a, b.drop_last());
        assert((a + b).drop_last() =~= a + b.drop_last());
        assert((a + b).last() == b.last());
    }
}

/// Effects are called for one after the other.
proof fn lemma_called_for_more(sets: Seq<SetView>, a: Seq<Effect>, b: Seq<Effect>)
    requires
        all_called_for(sets, a),
        all_called_for(carried_out(sets, a), b),
    ensures
        all_called_for(sets, a + b),
{
    let all = a + b;
    assert forall|n: int| 0 <= n < all.len() implies called_for(
        carried_out(sets, all.take(n)),
        #[trigger] all[n],
    ) by {
        if n < a.len() {
            assert(all.take(n) =~= a.take(n));
            assert(all[n] == a[n]);
        } else {
            assert(all.take(n) =~= a + b.take(n - a.len()));
            lemma_carried_out_more(sets, a, b.take(n - a.len()));
            assert(all[n] == b[n - a.len()]);
        }
    }
}

/// Clients told of some windows and then of others are told of all.
proof fn lemma_told_more(a: Seq<Effect>, b: Seq<Effect>)
    requires
        clients_told(a),
        clients_told(b),
    ensures
        clients_told(a + b),
{
    let all = a + b;
    assert forall|n: int| 0 <= n < all.len() implies match #[trigger] all[n] {
        Effect::UnmapFloating { handle, window } => n + 1 < all.len() && all[n + 1]
            == (Effect::LeaveWorkspace { handle, window }),
        Effect::UnmapElement { handle, window } => n + 1 < all.len() && all[n + 1]
            == (Effect::LeaveWorkspace { handle, window }),
        Effect::MapFloating { handle, window } => n + 1 < all.len() && all[n + 1]
            == (Effect::EnterWorkspace { handle, window }),
        Effect::LeaveWorkspace { handle, window } => n > 0 && (all[n - 1]
            == (Effect::UnmapFloating { handle, window }) || all[n - 1]
            == (Effect::UnmapElement { handle, window })),
        Effect::EnterWorkspace { handle, window } => n > 0 && all[n - 1]
            == (Effect::MapFloating { handle, window }),
        _ => true,
    } by {
        if n < a.len() {
            assert(all[n] == a[n]);
            if n + 1 < a.len() {
                assert(all[n + 1] == a[n + 1]);
            }
            if n > 0 {
                assert(all[n - 1] == a[n - 1]);
            }
        } else {
            let m = n - a.len();
            assert(all[n] == b[m]);
            if m + 1 < b.len() {
                assert(all[n + 1] == b[m + 1]);
            }
            if m > 0 {
                assert(all[n - 1] == b[m - 1]);
            }
        }
    }
}

/// Doing nothing is accounted for by nothing.
proof fn lemma_accounts_for_nothing(shell: ShellView)
    ensures
        accounts_for(shell, shell),
{
    let n = shell.effects.len() as int;
    assert(shell.effects.skip(n) =~= Seq::empty());
    assert(shell.effects.take(n) =~= shell.effects);
}

/// What is added once.
proof fn lemma_accounts_for_added(before: ShellView, after: ShellView, added: Seq<Effect>)
    requires
        after.effects == before.effects + added,
        carried_out(before.sets, added) == after.sets,
        all_called_for(before.sets, added),
        clients_told(added),
    ensures
        accounts_for(before, after),
{
    let n = before.effects.len() as int;
    assert(after.effects.skip(n) =~= added);
    assert(after.effects.take(n) =~= before.effects);
}

/// What comes after a prefix, when the whole is itself a prefix.
proof fn lemma_suffixes(a: Seq<Effect>, b: Seq<Effect>, c: Seq<Effect>)
    requires
        a.len() <= b.len() <= c.len(),
        b.take(a.len() as int) == a,
        c.take(b.len() as int) == b,
    ensures
        c.take(a.len() as int) == a,
        c.skip(a.len() as int) == b.skip(a.len() as int) + c.skip(b.len() as int),
{
    let n = a.len() as int;
    let m = b.len() as int;
    assert forall|x: int| 0 <= x < m implies #[trigger] c[x] == b[x] by {
        assert(c.take(m)[x] == b[x]);
    }
    assert forall|x: int| 0 <= x < n implies #[trigger] c.take(n)[x] == a[x] by {
        assert(b.take(n)[x] == a[x]);
        assert(c[x] == b[x]);
    }
    assert(c.take(n) =~= a);
    assert(c.skip(n) =~= b.skip(n) + c.skip(m));
}

/// What one operation and then another did is accounted for by both.
proof fn lemma_accounts_for_more(a: ShellView, b: ShellView, c: ShellView)
    requires
        accounts_for(a, b),
        accounts_for(b, c),
    ensures
        accounts_for(a, c),
{
    let first = b.effects.skip(a.effects.len() as int);
    let second = c.effects.skip(b.effects.len() as int);
    lemma_suffixes(a.effects, b.effects, c.effects);
    lemma_carried_out_more(a.sets, first, second);
    lemma_called_for_more(a.sets, first, second);
    lemma_told_more(first, second);
}

/// One effect, carried out.
proof fn lemma_one(sets: Seq<SetView>, effect: Effect)
    ensures
        carried_out(sets, seq![effect]) == once(sets, effect),
        called_for(sets, effect) ==> all_called_for(sets, seq![effect]),
{
    let only = seq![effect];
    reveal_with_fuel(carried_out, 2);
    assert(only.drop_last() =~= Seq::empty());
    assert(only.take(0) =~= Seq::empty());
}

/// Two effects, carried out.
proof fn lemma_two(sets: Seq<SetView>, first: Effect, second: Effect)
    ensures
        carried_out(sets, seq![first, second]) == once(once(sets, first), second),
        called_for(sets, first) && called_for(once(sets, first), second) ==> all_called_for(
            sets,
            seq![first, second],
        ),
{
    let both = seq![first, second];
    lemma_one(sets, first);
    lemma_one(once(sets, first), second);
    assert(both =~= seq![first] + seq![second]);
    lemma_carried_out_more(sets, seq![first], seq![second]);
    if called_for(sets, first) && called_for(once(sets, first), second) {
        lemma_called_for_more(sets, seq![first], seq![second]);
    }
}

/// Telling clients does nothing to the picture.
proof fn lemma_telling(sets: Seq<SetView>, effect: Effect)
    requires
        effect is LeaveWorkspace || effect is EnterWorkspace || effect is Maximize,
    ensures
        once(sets, effect) == sets,
{
    assert forall|i: int| 0 <= i < sets.len() implies #[trigger] once(sets, effect)[i]
        == sets[i] by {
        assert(set_once(sets[i], effect).workspaces =~= sets[i].workspaces);
    }
    assert(once(sets, effect) =~= sets);
}

/// An effect on a workspace does something to the one that it names alone.
proof fn lemma_on_workspace(sets: Seq<SetView>, place: Place, effect: Effect, handle: WorkspaceHandle)
    requires
        named_apart(sets),
        workspaces::in_range(sets, place),
        sets[place.set].workspaces[place.workspace].handle == handle,
        match effect {
            Effect::UnmapFloating { handle: h, .. } => h == handle,
            Effect::UnmapElement { handle: h, .. } => h == handle,
            Effect::Unfocus { handle: h, .. } => h == handle,
            Effect::MapFloating { handle: h, .. } => h == handle,
            _ => false,
        },
    ensures
        once(sets, effect) == workspaces::with_workspace(
            sets,
            place,
            workspace_once(sets[place.set].workspaces[place.workspace], effect),
        ),
{
    let after = once(sets, effect);
    let expected = workspaces::with_workspace(
        sets,
        place,
        workspace_once(sets[place.set].workspaces[place.workspace], effect),
    );
    assert forall|i: int| 0 <= i < sets.len() implies #[trigger] after[i] == expected[i] by {
        assert forall|j: int| 0 <= j < sets[i].workspaces.len() implies #[trigger] after[i].workspaces[j]
            == expected[i].workspaces[j] by {
            if i != place.set || j != place.workspace {
                assert(sets[i].workspaces[j].handle
                    != sets[place.set].workspaces[place.workspace].handle);
            }
        }
        assert(after[i].workspaces =~= expected[i].workspaces);
    }
    assert(after =~= expected);
}

/// Replacing a workspace by one of the same name keeps the names apart.
proof fn lemma_still_apart(a: Seq<SetView>, b: Seq<SetView>)
    requires
        named_apart(a),
        presence::same_shape(a, b),
    ensures
        named_apart(b),
{
    assert forall|i: int, j: int, k: int, l: int|
        0 <= i < b.len() && 0 <= j < b[i].workspaces.len() && 0 <= k < b.len() && 0 <= l
            < b[k].workspaces.len() && (#[trigger] b[i].workspaces[j]).handle == (
        #[trigger] b[k].workspaces[l]).handle implies i == k && j == l by {
        assert(a[i].output == b[i].output && a[k].output == b[k].output);
        assert(a[i].workspaces[j].handle == a[k].workspaces[l].handle);
    }
    assert forall|i: int, k: int|
        0 <= i < b.len() && 0 <= k < b.len() && (#[trigger] b[i]).output == (
        #[trigger] b[k]).output implies i == k by {
        assert(a[i].output == b[i].output && a[k].output == b[k].output);
    }
}

/// The words of this module for leaving layers and stacks mean what those of
/// the layouts mean.
proof fn lemma_same_words(workspace: WorkspaceView, window: WindowId)
    ensures
        layer_without(workspace.floating, window) == model::without_window(
            workspace.floating,
            window,
        ),
        layer_without(workspace.tiling, window) == model::without_window(workspace.tiling, window),
        stacks_without(workspace.focus_stack, window) == workspace.unfocused(window).focus_stack,
{
    assert((|e: MappedElement| e.window != window) =~= model::other_element(window));
    assert((|t: FocusTarget| t != FocusTarget::Window(window)) =~= model::other_target(window));
    assert(stacks_without(workspace.focus_stack, window) =~= workspace.unfocused(
        window,
    ).focus_stack);
}

/// What a workspace does not hold cannot be taken from it.
proof fn lemma_nothing_to_take(workspace: WorkspaceView, window: WindowId)
    ensures
        !model::layer_has(workspace.floating, window) ==> model::without_window(
            workspace.floating,
            window,
        ) == workspace.floating,
        !model::layer_has(workspace.tiling, window) ==> model::without_window(
            workspace.tiling,
            window,
        ) == workspace.tiling,
        !workspace.focuses(window) ==> workspace.unfocused(window).focus_stack
            == workspace.focus_stack,
{
    let p = model::other_element(window);
    if !model::layer_has(workspace.floating, window) {
        seqs::lemma_filter_all(workspace.floating, p);
    }
    if !model::layer_has(workspace.tiling, window) {
        seqs::lemma_filter_all(workspace.tiling, p);
    }
    if !workspace.focuses(window) {
        let q = model::other_target(window);
        let after = workspace.unfocused(window).focus_stack;
        assert forall|s: int| 0 <= s < after.len() implies #[trigger] after[s]
            == workspace.focus_stack[s] by {
            let targets = workspace.focus_stack[s].targets;
            assert(!targets.contains(FocusTarget::Window(window)));
            assert forall|t: int| 0 <= t < targets.len() implies q(#[trigger] targets[t]) by {
                assert(targets.contains(targets[t]));
            }
            seqs::lemma_filter_all(targets, q);
        }
        assert(after =~= workspace.focus_stack);
    }
}

/// What a workspace lists for a window to leave it makes the window leave it.
proof fn lemma_workspace_withdrawal(sets: Seq<SetView>, i: int, j: int, window: WindowId)
    requires
        named_apart(sets),
        0 <= i < sets.len(),
        0 <= j < sets[i].workspaces.len(),
    ensures
        ({
            let workspace = sets[i].workspaces[j];
            let added = workspace.withdrawal(window);
            let place = Place { set: i, workspace: j };
            &&& carried_out(sets, added) == workspaces::with_workspace(
                sets,
                place,
                workspace.unmapped(window),
            )
            &&& all_called_for(sets, added)
            &&& clients_told(added)
        }),
{
    let workspace = sets[i].workspaces[j];
    let handle = workspace.handle;
    let added = workspace.withdrawal(window);
    let place = Place { set: i, workspace: j };
    lemma_same_words(workspace, window);
    lemma_nothing_to_take(workspace, window);
    if model::layer_has(workspace.tiling, window) || model::layer_has(workspace.floating, window) {
        let first = added[0];
        let leave = Effect::LeaveWorkspace { handle, window };
        assert(added =~= seq![first, leave]);
        lemma_on_workspace(sets, place, first, handle);
        let after = once(sets, first);
        assert(workspace_once(workspace, first) == workspace.unmapped(window));
        assert(after[i].workspaces[j].handle == handle);
        lemma_telling(after, leave);
        if model::layer_has(workspace.tiling, window) {
            let a = choose|a: int|
                0 <= a < workspace.tiling.len() && (#[trigger] workspace.tiling[a]).window
                    == window;
            assert(sets[i].workspaces[j].tiling[a].window == window);
        } else {
            let a = choose|a: int|
                0 <= a < workspace.floating.len() && (#[trigger] workspace.floating[a]).window
                    == window;
            assert(sets[i].workspaces[j].floating[a].window == window);
        }
        assert(called_for(sets, first));
        lemma_two(sets, first, leave);
    } else if workspace.focuses(window) {
        let only = added[0];
        assert(added =~= seq![only]);
        lemma_on_workspace(sets, place, only, handle);
        assert(workspace_once(workspace, only) == workspace.unmapped(window));
        let s = choose|s: int|
            0 <= s < workspace.focus_stack.len() && (
            #[trigger] workspace.focus_stack[s]).targets.contains(FocusTarget::Window(window));
        let t = workspace.focus_stack[s].targets.index_of(FocusTarget::Window(window));
        assert(sets[i].workspaces[j].focus_stack[s].targets[t] == FocusTarget::Window(window));
        lemma_one(sets, only);
    } else {
        assert(added =~= Seq::empty());
        assert(workspace.unmapped(window) == workspace);
        assert(workspaces::with_workspace(sets, place, workspace) =~~= sets);
    }
}

/// A set with the first `n` of its workspaces left by `window`.
spec fn partly_left(set: SetView, n: int, window: WindowId) -> SetView {
    SetView {
        workspaces: Seq::new(
            set.workspaces.len(),
            |j: int|
                if j < n {
                    set.workspaces[j].unmapped(window)
                } else {
                    set.workspaces[j]
                },
        ),
        ..set
    }
}

/// What the first `n` workspaces of a set list makes the window leave them.
proof fn lemma_workspaces_withdrawal(sets: Seq<SetView>, i: int, n: int, window: WindowId)
    requires
        named_apart(sets),
        0 <= i < sets.len(),
        0 <= n <= sets[i].workspaces.len(),
    ensures
        ({
            let added = workspaces::workspaces_withdrawal(sets[i].workspaces.take(n), window);
            &&& carried_out(sets, added) == sets.update(i, partly_left(sets[i], n, window))
            &&& all_called_for(sets, added)
            &&& clients_told(added)
        }),
    decreases n,
{
    let here = sets[i].workspaces;
    if n == 0 {
        assert(here.take(0) =~= Seq::empty());
        assert(partly_left(sets[i], 0, window).workspaces =~= here);
        assert(sets.update(i, partly_left(sets[i], 0, window)) =~= sets);
    } else {
        lemma_workspaces_withdrawal(sets, i, n - 1, window);
        let before = workspaces::workspaces_withdrawal(here.take(n - 1), window);
        let mid = sets.update(i, partly_left(sets[i], n - 1, window));
        assert(presence::same_shape(sets, mid));
        lemma_still_apart(sets, mid);
        assert(mid[i].workspaces[n - 1] == here[n - 1]);
        lemma_workspace_withdrawal(mid, i, n - 1, window);
        let last = here[n - 1].withdrawal(window);
        assert(here.take(n).drop_last() =~= here.take(n - 1));
        assert(here.take(n).last() == here[n - 1]);
        lemma_carried_out_more(sets, before, last);
        lemma_called_for_more(sets, before, last);
        lemma_told_more(before, last);
        let end = workspaces::with_workspace(
            mid,
            Place { set: i, workspace: n - 1 },
            here[n - 1].unmapped(window),
        );
        let expected = sets.update(i, partly_left(sets[i], n, window));
        assert(end[i].workspaces =~= expected[i].workspaces);
        assert(end =~= expected);
    }
}

/// What a set lists for a window to leave it clears the window away from it.
proof fn lemma_set_withdrawal(sets: Seq<SetView>, i: int, window: WindowId)
    requires
        named_apart(sets),
        0 <= i < sets.len(),
    ensures
        ({
            let added = workspaces::set_withdrawal(sets[i], window);
            &&& carried_out(sets, added) == sets.update(i, workspaces::cleared(sets[i], window))
            &&& all_called_for(sets, added)
            &&& clients_told(added)
        }),
{
    let set = sets[i];
    let n = set.workspaces.len() as int;
    let expected = sets.update(i, workspaces::cleared(set, window));
    if model::sticky_has(set.sticky_layer, window) {
        let first = Effect::UnmapSticky { output: set.output, window };
        let unstuck = workspaces::unstuck(set, window);
        lemma_unmap_sticky(sets, i, window);
        let mid = once(sets, first);
        assert(presence::same_shape(sets, mid));
        lemma_still_apart(sets, mid);
        lemma_one(sets, first);
        lemma_workspaces_withdrawal(mid, i, n, window);
        let rest = workspaces::workspaces_withdrawal(unstuck.workspaces, window);
        assert(unstuck.workspaces.take(n) =~= unstuck.workspaces);
        lemma_carried_out_more(sets, seq![first], rest);
        lemma_called_for_more(sets, seq![first], rest);
        assert(clients_told(seq![first]));
        lemma_told_more(seq![first], rest);
        workspaces::lemma_unstuck_unmapped(set, window);
        let end = mid.update(i, partly_left(unstuck, n, window));
        assert forall|j: int| 0 <= j < n implies #[trigger] end[i].workspaces[j]
            == expected[i].workspaces[j] by {
            assert(set.workspaces[j].unfocused(window).unmapped(window)
                == set.workspaces[j].unmapped(window));
        }
        assert(end[i].workspaces =~= expected[i].workspaces);
        assert(end =~= expected);
    } else {
        workspaces::lemma_not_sticky(set, window);
        lemma_workspaces_withdrawal(sets, i, n, window);
        assert(set.workspaces.take(n) =~= set.workspaces);
        let end = sets.update(i, partly_left(set, n, window));
        assert(end[i].workspaces =~= expected[i].workspaces);
        assert(end =~= expected);
    }
}

/// Leaving the sticky layer of an output does something to that output alone.
proof fn lemma_unmap_sticky(sets: Seq<SetView>, i: int, window: WindowId)
    requires
        named_apart(sets),
        0 <= i < sets.len(),
        model::sticky_has(sets[i].sticky_layer, window),
    ensures
        ({
            let effect = Effect::UnmapSticky { output: sets[i].output, window };
            &&& once(sets, effect) == sets.update(i, workspaces::unstuck(sets[i], window))
            &&& called_for(sets, effect)
        }),
{
    let effect = Effect::UnmapSticky { output: sets[i].output, window };
    let after = once(sets, effect);
    let expected = sets.update(i, workspaces::unstuck(sets[i], window));
    assert((|e: StickyElement| e.window != window) =~= model::other_sticky(window));
    assert forall|k: int| 0 <= k < sets.len() implies #[trigger] after[k] == expected[k] by {
        if k == i {
            assert forall|j: int| 0 <= j < sets[i].workspaces.len() implies #[trigger] after[i].workspaces[j]
                == expected[i].workspaces[j] by {
                lemma_same_words(sets[i].workspaces[j], window);
            }
            assert(after[i].workspaces =~= expected[i].workspaces);
        } else {
            assert(sets[k].output != sets[i].output);
        }
    }
    assert(after =~= expected);
    let a = choose|a: int|
        0 <= a < sets[i].sticky_layer.len() && (#[trigger] sets[i].sticky_layer[a]).window
            == window;
    assert(sets[i].sticky_layer[a].window == window);
}

/// The first `n` sets cleared of `window`.
spec fn partly_cleared(sets: Seq<SetView>, n: int, window: WindowId) -> Seq<SetView> {
    Seq::new(
        sets.len(),
        |i: int|
            if i < n {
                workspaces::cleared(sets[i], window)
            } else {
                sets[i]
            },
    )
}

/// What all outputs list for a window to leave them clears the window away.
proof fn lemma_withdrawal(sets: Seq<SetView>, n: int, window: WindowId)
    requires
        named_apart(sets),
        0 <= n <= sets.len(),
    ensures
        ({
            let added = workspaces::withdrawal(sets.take(n), window);
            &&& carried_out(sets, added) == partly_cleared(sets, n, window)
            &&& all_called_for(sets, added)
            &&& clients_told(added)
        }),
    decreases n,
{
    if n == 0 {
        assert(sets.take(0) =~= Seq::empty());
        assert(partly_cleared(sets, 0, window) =~= sets);
    } else {
        lemma_withdrawal(sets, n - 1, window);
        let before = workspaces::withdrawal(sets.take(n - 1), window);
        let mid = partly_cleared(sets, n - 1, window);
        assert(presence::same_shape(sets, mid));
        lemma_still_apart(sets, mid);
        assert(mid[n - 1] == sets[n - 1]);
        lemma_set_withdrawal(mid, n - 1, window);
        let last = workspaces::set_withdrawal(sets[n - 1], window);
        assert(sets.take(n).drop_last() =~= sets.take(n - 1));
        assert(sets.take(n).last() == sets[n - 1]);
        lemma_carried_out_more(sets, before, last);
        lemma_called_for_more(sets, before, last);
        lemma_told_more(before, last);
        assert(mid.update(n - 1, workspaces::cleared(sets[n - 1], window)) =~= partly_cleared(
            sets,
            n,
            window,
        ));
    }
}

/// Withdrawing a window is accounted for.
proof fn lemma_withdrawn_accounts(shell: ShellView, window: WindowId)
    requires
        named_apart(shell.sets),
    ensures
        accounts_for(shell, shell.withdrawn(window)),
        presence::same_shape(shell.sets, shell.withdrawn(window).sets),
{
    let n = shell.sets.len() as int;
    lemma_withdrawal(shell.sets, n, window);
    assert(shell.sets.take(n) =~= shell.sets);
    assert(partly_cleared(shell.sets, n, window) =~= workspaces::all_cleared(shell.sets, window));
    lemma_accounts_for_added(
        shell,
        shell.withdrawn(window),
        workspaces::withdrawal(shell.sets, window),
    );
}

/// Detaching a window is accounted for.
proof fn lemma_detached_accounts(shell: ShellView, window: WindowId, output: OutputId)
    requires
        named_apart(shell.sets),
    ensures
        accounts_for(shell, shell.detached(window, output)),
        presence::same_shape(shell.sets, shell.detached(window, output).sets),
{
    presence::lemma_floating_place(shell.sets, output, window);
    match workspaces::floating_place(shell.sets, output, window) {
        Some(place) => {
            let workspace = workspaces::at(shell.sets, place);
            let handle = workspace.handle;
            let first = Effect::UnmapFloating { handle, window };
            let second = Effect::LeaveWorkspace { handle, window };
            let after = shell.detached(window, output);
            lemma_same_words(workspace, window);
            lemma_on_workspace(shell.sets, place, first, handle);
            assert(workspace_once(workspace, first) == workspace.unfloated(window));
            lemma_telling(once(shell.sets, first), second);
            assert(after.sets[place.set].workspaces[place.workspace].handle == handle);
            let a = choose|a: int|
                0 <= a < workspace.floating.len() && (#[trigger] workspace.floating[a]).window
                    == window;
            assert(shell.sets[place.set].workspaces[place.workspace].floating[a].window == window);
            lemma_two(shell.sets, first, second);
            assert(after.effects =~= shell.effects + seq![first, second]);
            lemma_accounts_for_added(shell, after, seq![first, second]);
        },
        None => {
            lemma_accounts_for_nothing(shell);
            presence::lemma_agree_reflexive(shell.sets);
        },
    }
}

/// Attaching a window is accounted for.
proof fn lemma_attached_accounts(shell: ShellView, window: WindowId, output: OutputId)
    requires
        named_apart(shell.sets),
    ensures
        accounts_for(shell, shell.attached(window, output)),
        presence::same_shape(shell.sets, shell.attached(window, output).sets),
{
    presence::lemma_same_active(shell.sets, shell.sets, output);
    match workspaces::active_place(shell.sets, output) {
        Some(place) => {
            let workspace = workspaces::at(shell.sets, place);
            let handle = workspace.handle;
            let first = Effect::MapFloating { handle, window };
            let second = Effect::EnterWorkspace { handle, window };
            let after = shell.attached(window, output);
            lemma_same_words(workspace, window);
            lemma_on_workspace(shell.sets, place, first, handle);
            assert(workspace_once(workspace, first) == workspace.floated(window));
            lemma_telling(once(shell.sets, first), second);
            assert(shell.sets[place.set].workspaces[place.workspace].handle == handle);
            assert(after.sets[place.set].workspaces[place.workspace].handle == handle);
            lemma_two(shell.sets, first, second);
            assert(after.effects =~= shell.effects + seq![first, second]);
            lemma_accounts_for_added(shell, after, seq![first, second]);
        },
        None => {
            lemma_accounts_for_nothing(shell);
            presence::lemma_agree_reflexive(shell.sets);
        },
    }
}

/// Maximizing a window again is accounted for.
proof fn lemma_remaximized_accounts(shell: ShellView, window: WindowId)
    ensures
        accounts_for(shell, shell.remaximized(window)),
        shell.remaximized(window).sets == shell.sets,
{
    if manager::was_maximized(shell.special, window) {
        let effect = Effect::Maximize { window };
        lemma_telling(shell.sets, effect);
        lemma_one(shell.sets, effect);
        assert(shell.remaximized(window).effects =~= shell.effects + seq![effect]);
        lemma_accounts_for_added(shell, shell.remaximized(window), seq![effect]);
    } else {
        lemma_accounts_for_nothing(shell);
    }
}

/// Doing something to each of `windows` is accounted for.
proof fn lemma_each_accounts(shell: ShellView, windows: Seq<WindowId>, output: OutputId)
    requires
        named_apart(shell.sets),
    ensures
        accounts_for(shell, shell.withdrawn_each(windows)),
        accounts_for(shell, shell.attached_each(windows, output)),
        accounts_for(shell, shell.remaximized_each(windows)),
        accounts_for(shell, shell.moved_each(windows, output)),
        presence::same_shape(shell.sets, shell.withdrawn_each(windows).sets),
        presence::same_shape(shell.sets, shell.attached_each(windows, output).sets),
        presence::same_shape(shell.sets, shell.moved_each(windows, output).sets),
        shell.remaximized_each(windows).sets == shell.sets,
    decreases windows.len(),
{
    if windows.len() == 0 {
        lemma_accounts_for_nothing(shell);
        presence::lemma_agree_reflexive(shell.sets);
    } else {
        let rest = windows.drop_last();
        let window = windows.last();
        lemma_each_accounts(shell, rest, output);
        let w = shell.withdrawn_each(rest);
        lemma_still_apart(shell.sets, w.sets);
        lemma_withdrawn_accounts(w, window);
        lemma_accounts_for_more(shell, w, w.withdrawn(window));
        presence::lemma_same_shape_transitive(shell.sets, w.sets, w.withdrawn(window).sets);
        let a = shell.attached_each(rest, output);
        lemma_still_apart(shell.sets, a.sets);
        lemma_attached_accounts(a, window, output);
        lemma_accounts_for_more(shell, a, a.attached(window, output));
        presence::lemma_same_shape_transitive(
            shell.sets,
            a.sets,
            a.attached(window, output).sets,
        );
        let r = shell.remaximized_each(rest);
        lemma_remaximized_accounts(r, window);
        lemma_accounts_for_more(shell, r, r.remaximized(window));
        let m = shell.moved_each(rest, output);
        let d = m.detached(window, output);
        lemma_still_apart(shell.sets, m.sets);
        lemma_detached_accounts(m, window, output);
        lemma_accounts_for_more(shell, m, d);
        presence::lemma_same_shape_transitive(shell.sets, m.sets, d.sets);
        lemma_still_apart(shell.sets, d.sets);
        lemma_attached_accounts(d, window, output);
        lemma_accounts_for_more(shell, d, d.attached(window, output));
        presence::lemma_same_shape_transitive(
            shell.sets,
            d.sets,
            d.attached(window, output).sets,
        );
    }
}

/// Only the books differ, so nothing has to be done.
proof fn lemma_books_only(a: ShellView, b: ShellView, c: ShellView)
    requires
        a.sets == b.sets,
        a.effects == b.effects,
        accounts_for(b, c),
    ensures
        accounts_for(a, c),
{
}

/// Toggling a special asks of the compositor exactly what it does to the
/// picture: every layer of every output that a window leaves or comes to.
pub proof fn law_toggle_effects_account_for_the_picture(shell: ShellView, idx: int, seat: Seat)
    requires
        named_apart(shell.sets),
    ensures
        accounts_for(shell, shell.toggled(idx, seat)),
{
    let ready = shell.buried().grown(idx);
    let output = seat.active_output;
    if ready.special[idx].shown {
        let hidden = ready.with_shown(idx, false).with_focus_noted(idx, seat.focus);
        let windows = Attachment::Any.windows(hidden.special[idx]);
        lemma_each_accounts(hidden, windows, output);
        lemma_books_only(shell, hidden, hidden.withdrawn_each(windows));
    } else {
        let shown = ready.with_shown(idx, true);
        let windows = Attachment::Detached.windows(shown.special[idx]);
        let placed = shown.attached_each(windows, output);
        let again = Attachment::Detached.windows(ready.special[idx]);
        lemma_each_accounts(shown, windows, output);
        lemma_still_apart(shown.sets, placed.sets);
        lemma_each_accounts(placed, again, output);
        lemma_accounts_for_more(shown, placed, placed.remaximized_each(again));
        lemma_books_only(shell, shown, placed.remaximized_each(again));
    }
}

/// Following a workspace switch asks of the compositor exactly what it does to
/// the picture.
pub proof fn law_follow_effects_account_for_the_picture(shell: ShellView, output: OutputId)
    requires
        named_apart(shell.sets),
    ensures
        accounts_for(shell, shell.followed(output)),
{
    let valid = ShellView {
        special: transitions::revalidated(shell.special, shell.sets),
        ..shell
    };
    lemma_accounts_for_nothing(shell);
    lemma_accounts_for_nothing(valid);
    if workspaces::active_place(shell.sets, output) is Some {
        let place = workspaces::active_place(shell.sets, output)->0;
        let current = workspaces::at(shell.sets, place).handle;
        lemma_followed_first_accounts(valid, valid.special.len() as int, output, current);
    }
}

/// The first `n` specials following is accounted for.
proof fn lemma_followed_first_accounts(
    shell: ShellView,
    n: int,
    output: OutputId,
    current: WorkspaceHandle,
)
    requires
        named_apart(shell.sets),
    ensures
        accounts_for(shell, shell.followed_first(n, output, current)),
        presence::same_shape(shell.sets, shell.followed_first(n, output, current).sets),
    decreases n,
{
    if n <= 0 {
        lemma_accounts_for_nothing(shell);
        presence::lemma_agree_reflexive(shell.sets);
    } else {
        lemma_followed_first_accounts(shell, n - 1, output, current);
        let mid = shell.followed_first(n - 1, output, current);
        lemma_still_apart(shell.sets, mid.sets);
        let windows = Attachment::Elsewhere(current).windows(mid.special[n - 1]);
        lemma_each_accounts(mid, windows, output);
        if mid.special[n - 1].shown {
            lemma_accounts_for_more(shell, mid, mid.moved_each(windows, output));
            presence::lemma_same_shape_transitive(
                shell.sets,
                mid.sets,
                mid.moved_each(windows, output).sets,
            );
        }
    }
}

/// Delivering a window is accounted for.
proof fn lemma_delivered_accounts(
    shell: ShellView,
    idx: int,
    entry: SpecialWindow,
    output: OutputId,
)
    requires
        named_apart(shell.sets),
    ensures
        accounts_for(shell, shell.delivered(idx, entry, output)),
{
    let stored = shell.stored(idx, entry);
    let placed = stored.attached(entry.mapped, output);
    lemma_accounts_for_nothing(stored);
    lemma_attached_accounts(stored, entry.mapped, output);
    lemma_remaximized_accounts(placed, entry.mapped);
    lemma_accounts_for_more(stored, placed, placed.remaximized(entry.mapped));
    if stored.special[idx].shown {
        lemma_books_only(shell, stored, placed.remaximized(entry.mapped));
    } else {
        lemma_books_only(shell, stored, stored);
    }
}

/// A window leaving its workspace, or the sticky layer, is accounted for.
proof fn lemma_leaving_accounts(shell: ShellView, window: WindowId)
    requires
        named_apart(shell.sets),
    ensures
        accounts_for(shell, shell.unmapped(window)),
        accounts_for(shell, shell.unstuck(window)),
        presence::same_shape(shell.sets, shell.unmapped(window).sets),
        presence::same_shape(shell.sets, shell.unstuck(window).sets),
{
    lemma_accounts_for_nothing(shell);
    presence::lemma_agree_reflexive(shell.sets);
    layout_laws::law_mapped_window_is_found(shell.sets, window);
    match workspaces::mapped_place(shell.sets, window) {
        Some(place) => {
            let workspace = workspaces::at(shell.sets, place);
            if workspace.restore_of(window) is Some {
                let handle = workspace.handle;
                let first = Effect::UnmapElement { handle, window };
                let second = Effect::LeaveWorkspace { handle, window };
                let after = shell.unmapped(window);
                lemma_same_words(workspace, window);
                lemma_on_workspace(shell.sets, place, first, handle);
                assert(workspace_once(workspace, first) == workspace.unmapped(window));
                lemma_telling(once(shell.sets, first), second);
                assert(after.sets[place.set].workspaces[place.workspace].handle == handle);
                if exists|a: int|
                    0 <= a < workspace.floating.len() && (#[trigger] workspace.floating[a]).window
                        == window {
                    let a = choose|a: int|
                        0 <= a < workspace.floating.len() && (
                        #[trigger] workspace.floating[a]).window == window;
                    assert(shell.sets[place.set].workspaces[place.workspace].floating[a].window
                        == window);
                } else {
                    let a = choose|a: int|
                        0 <= a < workspace.tiling.len() && (#[trigger] workspace.tiling[a]).window
                            == window;
                    assert(shell.sets[place.set].workspaces[place.workspace].tiling[a].window
                        == window);
                }
                lemma_two(shell.sets, first, second);
                assert(after.effects =~= shell.effects + seq![first, second]);
                lemma_accounts_for_added(shell, after, seq![first, second]);
            }
        },
        None => {},
    }
    layout_laws::law_sticky_window_is_found(shell.sets, window);
    match seqs::first(shell.sets, workspaces::sticks(window)) {
        Some(i) => {
            let effect = Effect::UnmapSticky { output: shell.sets[i].output, window };
            lemma_unmap_sticky(shell.sets, i, window);
            lemma_one(shell.sets, effect);
            assert(shell.unstuck(window).effects =~= shell.effects + seq![effect]);
            assert(clients_told(seq![effect]));
            lemma_accounts_for_added(shell, shell.unstuck(window), seq![effect]);
        },
        None => {},
    }
}

/// Each step of sending a window asks of the compositor exactly what it does
/// to the picture.
pub proof fn law_send_effects_account_for_the_picture(
    shell: ShellView,
    idx: int,
    seat: Seat,
    window: WindowId,
    stage: SendStage,
    reply: Option<KeyboardFocusTarget>,
)
    requires
        named_apart(shell.sets),
    ensures
        accounts_for(shell, shell.send_settled(idx, seat, window).0),
        accounts_for(shell, shell.send_current(idx, seat).0),
        accounts_for(shell, shell.send_unfullscreened(idx, seat, stage, reply).0),
        accounts_for(shell, shell.send_unmaximized(idx, seat, window).0),
{
    lemma_send_settled_accounts(shell, idx, seat, window);
    lemma_accounts_for_nothing(shell);
    let buried = shell.buried();
    lemma_accounts_for_nothing(buried);
    if seat.focus is Some && seat.focus->0 is Element {
        let focused = seat.focus->0->Element_0;
        lemma_send_settled_accounts(buried, idx, seat, focused);
        lemma_books_only(shell, buried, buried.send_settled(idx, seat, focused).0);
    }
    if reply is Some && reply->0 is Element {
        lemma_send_settled_accounts(shell, idx, seat, reply->0->Element_0);
    }
    if stage is Mapped {
        lemma_send_settled_accounts(shell, idx, seat, stage->Mapped_0);
    }
    lemma_leaving_accounts(shell, window);
    let off = shell.unstuck(window);
    lemma_still_apart(shell.sets, off.sets);
    if shell.sticky_restore(window) is Some {
        let entry = ShellView::new_entry(window, shell.sticky_restore(window)->0);
        lemma_delivered_accounts(off, idx, entry, seat.active_output);
        lemma_accounts_for_more(shell, off, off.delivered(idx, entry, seat.active_output));
    }
}

/// Sending a window that is not fullscreen is accounted for.
proof fn lemma_send_settled_accounts(shell: ShellView, idx: int, seat: Seat, window: WindowId)
    requires
        named_apart(shell.sets),
    ensures
        accounts_for(shell, shell.send_settled(idx, seat, window).0),
{
    let output = seat.active_output;
    lemma_accounts_for_nothing(shell);
    lemma_leaving_accounts(shell, window);
    if manager::home(shell.special, window) is Some {
        let withdrawn = shell.withdrawn(window);
        let entry = manager::entry_of(withdrawn.special, window);
        let taken = withdrawn.taken(window);
        lemma_withdrawn_accounts(shell, window);
        lemma_still_apart(shell.sets, withdrawn.sets);
        lemma_delivered_accounts(taken, idx, entry, output);
        lemma_books_only(withdrawn, taken, taken.delivered(idx, entry, output));
        lemma_accounts_for_more(shell, withdrawn, taken.delivered(idx, entry, output));
    } else {
        let off = shell.detach_window(window).0;
        if shell.is_sticky(window) {
            if !transitions::is_maximized(shell.windows, window) {
                lemma_still_apart(shell.sets, off.sets);
                if shell.sticky_restore(window) is Some {
                    let entry = ShellView::new_entry(window, shell.sticky_restore(window)->0);
                    lemma_delivered_accounts(off, idx, entry, output);
                    lemma_accounts_for_more(shell, off, off.delivered(idx, entry, output));
                }
            }
        } else {
            lemma_still_apart(shell.sets, off.sets);
            if shell.mapped_restore(window) is Some {
                let entry = ShellView::new_entry(window, shell.mapped_restore(window)->0);
                lemma_delivered_accounts(off, idx, entry, output);
                lemma_accounts_for_more(shell, off, off.delivered(idx, entry, output));
            }
        }
    }
}

} // verus!
