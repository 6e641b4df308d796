//! Where parked windows are: on no layout while their special is hidden, and
//! floating on a workspace while it is shown.
//!
//! The compositor goes on between two calls: windows close, outputs go away,
//! and the user may tile a visible window or make it sticky. What holds of
//! hiding, showing, sending and following holds whatever it did.

use vstd::prelude::*;
use vstd::std_specs::cmp::PartialEqSpec;

use crate::laws;
use crate::manager;
use crate::manager::{SpecialWindow, Specials};
use crate::model;
use crate::model::{
    KeyboardFocusTarget, OutputId, Seat, SeatId, SetView, WindowId, WorkspaceHandle,
};
use crate::presence;
use crate::seqs;
use crate::store::StoreView;
use crate::transitions;
use crate::transitions::{Attachment, DetachStep, ShellView};
use crate::workspaces;
use crate::workspaces::Place;

verus! {

/// No window of a special is attached to a workspace.
pub open spec fn loose(special: StoreView<SpecialWindow>) -> bool {
    forall|a: int|
        0 <= a < special.entries.len() ==> (#[trigger] special.entries[a]).attached_to is None
}

/// The books are in order: every window has one home, and no window of a
/// hidden special is attached to a workspace.
pub open spec fn in_order(specials: Specials) -> bool {
    &&& manager::one_home(specials)
    &&& forall|i: int|
        0 <= i < specials.len() && !(#[trigger] specials[i]).shown ==> loose(specials[i])
}

/// The window of an entry is where the entry says: on no layout, or afloat on
/// the workspace that it is attached to.
pub open spec fn settled(sets: Seq<SetView>, entry: SpecialWindow) -> bool {
    match entry.attached_to {
        None => presence::nowhere(sets, entry.mapped),
        Some(handle) => exists|place: Place| #[trigger]
            presence::afloat_at(sets, place, entry.mapped) && workspaces::at(sets, place).handle
                == handle,
    }
}

/// The window of an entry is where the entry says, where an attachment to a
/// workspace that is gone says nothing.
pub open spec fn accounted_for(sets: Seq<SetView>, entry: SpecialWindow) -> bool {
    settled(sets, transitions::revalidated_entry(sets, entry))
}

/// The books are in order, and every parked window that lives is accounted
/// for.
pub open spec fn tidy(shell: ShellView) -> bool {
    &&& in_order(shell.special)
    &&& forall|i: int, a: int|
        0 <= i < shell.special.len() && 0 <= a < shell.special[i].entries.len()
            && manager::is_alive(
            shell.windows,
            (#[trigger] shell.special[i].entries[a]).mapped,
        ) ==> accounted_for(shell.sets, shell.special[i].entries[a])
}

/// The specials have the same windows and visibility, and the windows the
/// same attachments.
spec fn same_attachments(a: Specials, b: Specials) -> bool {
    &&& laws::same_members(a, b)
    &&& forall|i: int| 0 <= i < a.len() ==> (#[trigger] a[i]).shown == b[i].shown
    &&& forall|i: int, k: int|
        0 <= i < a.len() && 0 <= k < a[i].entries.len() ==> (
        #[trigger] a[i].entries[k]).attached_to == b[i].entries[k].attached_to
}

/// Entry `x` of special `k` is attached to `handle`, and no other entry
/// differs.
pub open spec fn reattached(
    a: Specials,
    b: Specials,
    k: int,
    x: int,
    handle: Option<WorkspaceHandle>,
) -> bool {
    &&& a.len() == b.len()
    &&& 0 <= k < a.len()
    &&& 0 <= x < a[k].entries.len()
    &&& forall|i: int|
        0 <= i < a.len() ==> (#[trigger] b[i]).shown == a[i].shown && b[i].entries.len()
            == a[i].entries.len()
    &&& forall|i: int, y: int|
        0 <= i < a.len() && 0 <= y < a[i].entries.len() ==> #[trigger] b[i].entries[y] == (if i == k
            && y == x {
            SpecialWindow { attached_to: handle, ..a[i].entries[y] }
        } else {
            a[i].entries[y]
        })
}

/// Each entry of one of `windows` is attached to `handle`, and no other entry
/// differs.
pub open spec fn all_reattached(
    a: Specials,
    b: Specials,
    windows: Seq<WindowId>,
    handle: Option<WorkspaceHandle>,
) -> bool {
    &&& a.len() == b.len()
    &&& forall|i: int|
        0 <= i < a.len() ==> (#[trigger] b[i]).shown == a[i].shown && b[i].entries.len()
            == a[i].entries.len()
    &&& forall|i: int, y: int|
        0 <= i < a.len() && 0 <= y < a[i].entries.len() ==> #[trigger] b[i].entries[y] == (
        if windows.contains(a[i].entries[y].mapped) {
            SpecialWindow { attached_to: handle, ..a[i].entries[y] }
        } else {
            a[i].entries[y]
        })
}

/// Each of `windows` is parked.
pub open spec fn all_parked(specials: Specials, windows: Seq<WindowId>) -> bool {
    forall|w: int|
        0 <= w < windows.len() ==> manager::home(specials, #[trigger] windows[w]) is Some
}

/// All windows but those of `windows` are where they were.
pub open spec fn others_agree(a: Seq<SetView>, b: Seq<SetView>, windows: Seq<WindowId>) -> bool {
    &&& presence::same_shape(a, b)
    &&& forall|other: WindowId|
        !windows.contains(other) ==> #[trigger] presence::agree(a, b, other)
}

/// A part of parked windows is parked.
pub proof fn lemma_rest_parked(specials: Specials, windows: Seq<WindowId>)
    requires
        all_parked(specials, windows),
        windows.len() > 0,
    ensures
        all_parked(specials, windows.drop_last()),
        manager::home(specials, windows.last()) is Some,
{
    let rest = windows.drop_last();
    assert forall|w: int| 0 <= w < rest.len() implies manager::home(
        specials,
        #[trigger] rest[w],
    ) is Some by {
        assert(rest[w] == windows[w]);
    }
    assert(windows[windows.len() - 1] == windows.last());
}

/// Which windows are among the first ones and the last.
pub proof fn lemma_rest_contains(windows: Seq<WindowId>)
    requires
        windows.len() > 0,
    ensures
        forall|w: WindowId| #[trigger]
            windows.contains(w) <==> windows.drop_last().contains(w) || w == windows.last(),
{
    let rest = windows.drop_last();
    assert forall|w: WindowId| #[trigger] windows.contains(w) <==> rest.contains(w) || w
        == windows.last() by {
        if rest.contains(w) {
            assert(windows[rest.index_of(w)] == w);
        }
        if w == windows.last() {
            assert(windows[windows.len() - 1] == w);
        }
        if windows.contains(w) && w != windows.last() {
            assert(rest[windows.index_of(w)] == w);
        }
    }
}

/// One more window moved after the others.
proof fn lemma_others_one_more(
    start: Seq<SetView>,
    mid: Seq<SetView>,
    end: Seq<SetView>,
    windows: Seq<WindowId>,
)
    requires
        windows.len() > 0,
        others_agree(start, mid, windows.drop_last()),
        presence::same_shape(mid, end),
        forall|other: WindowId|
            other != windows.last() ==> #[trigger] presence::agree(mid, end, other),
    ensures
        others_agree(start, end, windows),
{
    lemma_rest_contains(windows);
    presence::lemma_same_shape_transitive(start, mid, end);
    assert forall|other: WindowId| !windows.contains(other) implies #[trigger] presence::agree(
        start,
        end,
        other,
    ) by {
        assert(presence::agree(start, mid, other));
        assert(presence::agree(mid, end, other));
        presence::lemma_agree_transitive(start, mid, end, other);
    }
}

/// One more window attached to `handle`.
pub proof fn lemma_reattached_one_more(
    start: Specials,
    mid: Specials,
    end: Specials,
    windows: Seq<WindowId>,
    k: int,
    x: int,
    handle: Option<WorkspaceHandle>,
)
    requires
        windows.len() > 0,
        manager::one_home(start),
        all_reattached(start, mid, windows.drop_last(), handle),
        reattached(mid, end, k, x, handle),
        mid[k].entries[x].mapped == windows.last(),
    ensures
        all_reattached(start, end, windows, handle),
{
    lemma_rest_contains(windows);
    assert forall|i: int, y: int|
        0 <= i < start.len() && 0 <= y
            < start[i].entries.len() implies #[trigger] end[i].entries[y] == (if windows.contains(
        start[i].entries[y].mapped,
    ) {
        SpecialWindow { attached_to: handle, ..start[i].entries[y] }
    } else {
        start[i].entries[y]
    }) by {
        let window = start[i].entries[y].mapped;
        assert(mid[k].entries[x].mapped == start[k].entries[x].mapped);
        if window == windows.last() {
            assert(start[i].entries[y].mapped == start[k].entries[x].mapped);
        }
        assert(mid[i].entries[y].mapped == window);
    }
}

/// Changing attachments keeps the homes.
pub proof fn lemma_reattached_homes(a: Specials, b: Specials)
    requires
        manager::one_home(a),
        laws::same_members(a, b),
    ensures
        manager::one_home(b),
        forall|w: WindowId| #[trigger] manager::home(b, w) == manager::home(a, w),
{
    laws::lemma_same_members_one_home(a, b);
    assert forall|w: WindowId| #[trigger] manager::home(b, w) == manager::home(a, w) by {
        laws::lemma_same_members_home(a, b, w);
    }
}

/// Withdrawing a window attaches its entry to nothing.
pub proof fn lemma_withdrawn_entry(shell: ShellView, window: WindowId, k: int, x: int)
    requires
        manager::one_home(shell.special),
        0 <= k < shell.special.len(),
        0 <= x < shell.special[k].entries.len(),
        shell.special[k].entries[x].mapped == window,
    ensures
        reattached(shell.special, shell.withdrawn(window).special, k, x, None),
{
    manager::lemma_home_is(shell.special, window, k, x);
}

/// Attaching a window attaches its entry to the active workspace.
pub proof fn lemma_attached_entry(
    shell: ShellView,
    window: WindowId,
    output: OutputId,
    k: int,
    x: int,
)
    requires
        manager::one_home(shell.special),
        0 <= k < shell.special.len(),
        0 <= x < shell.special[k].entries.len(),
        shell.special[k].entries[x].mapped == window,
        workspaces::active_place(shell.sets, output) is Some,
    ensures
        reattached(
            shell.special,
            shell.attached(window, output).special,
            k,
            x,
            Some(
                workspaces::at(
                    shell.sets,
                    workspaces::active_place(shell.sets, output)->0,
                ).handle,
            ),
        ),
{
    manager::lemma_home_is(shell.special, window, k, x);
    let place = workspaces::active_place(shell.sets, output)->0;
    transitions::lemma_attachment_home(
        shell.special,
        window,
        Some(workspaces::at(shell.sets, place).handle),
    );
}

/// Withdrawing windows leaves each of them on no layout, attached to nothing,
/// and every other window where it was.
proof fn lemma_withdrawn_each(shell: ShellView, windows: Seq<WindowId>)
    requires
        manager::one_home(shell.special),
        all_parked(shell.special, windows),
    ensures
        ({
            let after = shell.withdrawn_each(windows);
            &&& all_reattached(shell.special, after.special, windows, None)
            &&& others_agree(shell.sets, after.sets, windows)
            &&& forall|w: WindowId|
                windows.contains(w) ==> #[trigger] presence::nowhere(after.sets, w)
        }),
    decreases windows.len(),
{
    if windows.len() > 0 {
        let rest = windows.drop_last();
        let window = windows.last();
        lemma_rest_parked(shell.special, windows);
        lemma_rest_contains(windows);
        lemma_withdrawn_each(shell, rest);
        let mid = shell.withdrawn_each(rest);
        assert(laws::same_members(shell.special, mid.special));
        lemma_reattached_homes(shell.special, mid.special);
        assert(manager::home(mid.special, window) == manager::home(shell.special, window));
        manager::lemma_home(mid.special, window);
        let k = manager::home(mid.special, window)->0;
        let x = seqs::first(mid.special[k].entries, manager::is_window(window))->0;
        lemma_withdrawn_entry(mid, window, k, x);
        let end = mid.withdrawn(window);
        lemma_reattached_one_more(shell.special, mid.special, end.special, windows, k, x, None);
        presence::lemma_cleared(mid.sets, window);
        lemma_others_one_more(shell.sets, mid.sets, end.sets, windows);
        assert forall|w: WindowId| windows.contains(w) implies #[trigger] presence::nowhere(
            end.sets,
            w,
        ) by {
            if w != window {
                assert(presence::nowhere(mid.sets, w));
                assert(presence::agree(mid.sets, end.sets, w));
                presence::lemma_agree_whereabouts(
                    mid.sets,
                    end.sets,
                    Place { set: 0, workspace: 0 },
                    w,
                );
            }
        }
    } else {
        presence::lemma_agree_reflexive(shell.sets);
    }
}

/// Attaching windows leaves each of them on the floating layer of the active
/// workspace, and nowhere else where it was nowhere; every other window is
/// where it was.
proof fn lemma_attached_each(shell: ShellView, windows: Seq<WindowId>, output: OutputId)
    requires
        manager::one_home(shell.special),
        all_parked(shell.special, windows),
        workspaces::active_place(shell.sets, output) is Some,
    ensures
        ({
            let after = shell.attached_each(windows, output);
            let place = workspaces::active_place(shell.sets, output)->0;
            &&& all_reattached(
                shell.special,
                after.special,
                windows,
                Some(workspaces::at(shell.sets, place).handle),
            )
            &&& others_agree(shell.sets, after.sets, windows)
            &&& forall|w: WindowId| #[trigger]
                windows.contains(w) ==> workspaces::at(after.sets, place).floats(w) && (
                presence::nowhere(shell.sets, w) ==> presence::afloat_at(after.sets, place, w))
        }),
    decreases windows.len(),
{
    let place = workspaces::active_place(shell.sets, output)->0;
    if windows.len() > 0 {
        let rest = windows.drop_last();
        let window = windows.last();
        let handle = Some(workspaces::at(shell.sets, place).handle);
        lemma_rest_parked(shell.special, windows);
        lemma_rest_contains(windows);
        lemma_attached_each(shell, rest, output);
        let mid = shell.attached_each(rest, output);
        presence::lemma_same_active(shell.sets, mid.sets, output);
        presence::lemma_same_active(mid.sets, mid.sets, output);
        assert(laws::same_members(shell.special, mid.special));
        lemma_reattached_homes(shell.special, mid.special);
        assert(manager::home(mid.special, window) == manager::home(shell.special, window));
        manager::lemma_home(mid.special, window);
        let k = manager::home(mid.special, window)->0;
        let x = seqs::first(mid.special[k].entries, manager::is_window(window))->0;
        lemma_attached_entry(mid, window, output, k, x);
        let end = mid.attached(window, output);
        lemma_reattached_one_more(shell.special, mid.special, end.special, windows, k, x, handle);
        presence::lemma_floated_at(mid.sets, place, window);
        lemma_others_one_more(shell.sets, mid.sets, end.sets, windows);
        assert forall|w: WindowId| #[trigger] windows.contains(w) implies workspaces::at(
            end.sets,
            place,
        ).floats(w) && (presence::nowhere(shell.sets, w) ==> presence::afloat_at(
            end.sets,
            place,
            w,
        )) by {
            if w != window {
                assert(rest.contains(w));
                assert(presence::agree(mid.sets, end.sets, w));
                presence::lemma_agree_whereabouts(mid.sets, end.sets, place, w);
                assert(presence::know_alike(
                    mid.sets[place.set].workspaces[place.workspace],
                    end.sets[place.set].workspaces[place.workspace],
                    w,
                ));
            } else if !rest.contains(w) {
                assert(presence::agree(shell.sets, mid.sets, w));
                presence::lemma_agree_whereabouts(shell.sets, mid.sets, place, w);
            }
        }
    } else {
        presence::lemma_agree_reflexive(shell.sets);
    }
}

/// Without an active workspace nothing is attached.
pub proof fn lemma_attached_each_without_active(
    shell: ShellView,
    windows: Seq<WindowId>,
    output: OutputId,
)
    requires
        workspaces::active_place(shell.sets, output) is None,
    ensures
        shell.attached_each(windows, output) == shell,
    decreases windows.len(),
{
    if windows.len() > 0 {
        lemma_attached_each_without_active(shell, windows.drop_last(), output);
    }
}

/// Maximizing again moves no window.
proof fn lemma_remaximized_each(shell: ShellView, windows: Seq<WindowId>)
    ensures
        same_attachments(shell.special, shell.remaximized_each(windows).special),
        shell.remaximized_each(windows).sets == shell.sets,
        shell.remaximized_each(windows).windows == shell.windows,
    decreases windows.len(),
{
    if windows.len() > 0 {
        lemma_remaximized_each(shell, windows.drop_last());
        let mid = shell.remaximized_each(windows.drop_last());
        manager::lemma_home(mid.special, windows.last());
        assert(same_attachments(mid.special, mid.remaximized(windows.last()).special));
    }
}

/// An entry stays accounted for where nothing changes for its window.
proof fn lemma_agree_accounted(a: Seq<SetView>, b: Seq<SetView>, entry: SpecialWindow)
    requires
        presence::agree(a, b, entry.mapped),
        accounted_for(a, entry),
    ensures
        accounted_for(b, entry),
{
    if entry.attached_to is Some {
        presence::lemma_same_handles(a, b, entry.attached_to->0);
    }
    let valid = transitions::revalidated_entry(a, entry);
    if valid.attached_to is Some {
        let place = choose|place: Place| #[trigger]
            presence::afloat_at(a, place, entry.mapped) && workspaces::at(a, place).handle
                == valid.attached_to->0;
        presence::lemma_agree_whereabouts(a, b, place, entry.mapped);
        assert(a[place.set].workspaces[place.workspace].handle
            == b[place.set].workspaces[place.workspace].handle);
    } else {
        presence::lemma_agree_whereabouts(a, b, Place { set: 0, workspace: 0 }, entry.mapped);
    }
}

/// An entry that says where its window is accounts for it.
proof fn lemma_settled_accounted(sets: Seq<SetView>, entry: SpecialWindow)
    requires
        settled(sets, entry),
    ensures
        accounted_for(sets, entry),
{
    if entry.attached_to is Some {
        let place = choose|place: Place| #[trigger]
            presence::afloat_at(sets, place, entry.mapped) && workspaces::at(sets, place).handle
                == entry.attached_to->0;
        assert(sets[place.set].workspaces[place.workspace].handle == entry.attached_to->0);
    }
}

/// Dropping dead windows and making a special keeps the books in order, and
/// leaves live windows alone.
proof fn lemma_ready(shell: ShellView, idx: int)
    requires
        manager::one_home(shell.special),
        0 <= idx,
    ensures
        ({
            let ready = shell.buried().grown(idx);
            &&& manager::one_home(shell.buried().special)
            &&& manager::one_home(ready.special)
            &&& idx < ready.special.len()
            &&& in_order(shell.special) ==> in_order(shell.buried().special) && in_order(
                ready.special,
            )
            &&& tidy(shell) ==> tidy(shell.buried()) && tidy(ready)
            &&& forall|i: int, a: int|
                0 <= i < ready.special.len() && 0 <= a < ready.special[i].entries.len()
                    ==> manager::is_alive(
                    shell.windows,
                    (#[trigger] ready.special[i].entries[a]).mapped,
                )
        }),
{
    laws::lemma_ready_one_home(shell, idx);
    manager::lemma_without_dead_one_home(shell.special, shell.windows);
    let buried = shell.buried();
    let ready = buried.grown(idx);
    let p = manager::alive_in(shell.windows);
    assert forall|i: int, a: int|
        0 <= i < buried.special.len() && 0 <= a < buried.special[i].entries.len() implies (exists|
        b: int,
    |
        0 <= b < shell.special[i].entries.len() && shell.special[i].entries[b]
            == #[trigger] buried.special[i].entries[a]) && manager::is_alive(
        shell.windows,
        buried.special[i].entries[a].mapped,
    ) by {
        seqs::lemma_filter_from(shell.special[i].entries, p, a);
        let b = choose|b: int|
            0 <= b < shell.special[i].entries.len() && #[trigger] shell.special[i].entries[b]
                == shell.special[i].entries.filter(p)[a];
        assert(shell.special[i].entries[b] == buried.special[i].entries[a]);
    }
    assert forall|i: int, a: int|
        0 <= i < ready.special.len() && 0 <= a < ready.special[i].entries.len() implies i
        < buried.special.len() && #[trigger] ready.special[i].entries[a]
        == buried.special[i].entries[a] && manager::is_alive(
        shell.windows,
        ready.special[i].entries[a].mapped,
    ) by {
        assert(i < buried.special.len());
        assert(buried.special[i].entries[a] == ready.special[i].entries[a]);
    }
    if in_order(shell.special) {
        assert forall|i: int| 0 <= i < buried.special.len() && !(
        #[trigger] buried.special[i]).shown implies loose(buried.special[i]) by {
            assert(loose(shell.special[i]));
            assert forall|a: int| 0 <= a < buried.special[i].entries.len() implies (
            #[trigger] buried.special[i].entries[a]).attached_to is None by {
                let b = choose|b: int|
                    0 <= b < shell.special[i].entries.len() && shell.special[i].entries[b]
                        == buried.special[i].entries[a];
                assert(shell.special[i].entries[b].attached_to is None);
            }
        }
        assert forall|i: int| 0 <= i < ready.special.len() && !(
        #[trigger] ready.special[i]).shown implies loose(ready.special[i]) by {
            if i < buried.special.len() {
                assert(loose(buried.special[i]));
            }
        }
    }
    if tidy(shell) {
        assert forall|i: int, a: int|
            0 <= i < buried.special.len() && 0 <= a
                < buried.special[i].entries.len() implies accounted_for(
            shell.sets,
            #[trigger] buried.special[i].entries[a],
        ) by {
            let b = choose|b: int|
                0 <= b < shell.special[i].entries.len() && shell.special[i].entries[b]
                    == buried.special[i].entries[a];
            assert(manager::is_alive(shell.windows, shell.special[i].entries[b].mapped));
        }
        assert forall|i: int, a: int|
            0 <= i < ready.special.len() && 0 <= a
                < ready.special[i].entries.len() implies accounted_for(
            shell.sets,
            #[trigger] ready.special[i].entries[a],
        ) by {
            assert(buried.special[i].entries[a] == ready.special[i].entries[a]);
        }
    }
}

/// Hiding a special takes each of its windows off every layout and out of
/// every focus stack, wherever the compositor has put it meanwhile, and
/// attaches it to nothing. Every other window stays where it is.
pub proof fn law_hidden_windows_are_nowhere(shell: ShellView, idx: int, seat: Seat)
    requires
        manager::one_home(shell.special),
        0 <= idx,
        shell.buried().grown(idx).special[idx].shown,
    ensures
        ({
            let before = shell.buried().grown(idx);
            let after = shell.toggled(idx, seat);
            &&& !after.special[idx].shown
            &&& loose(after.special[idx])
            &&& forall|a: int|
                0 <= a < after.special[idx].entries.len() ==> presence::nowhere(
                    after.sets,
                    (#[trigger] after.special[idx].entries[a]).mapped,
                )
            &&& presence::same_shape(shell.sets, after.sets)
            &&& forall|other: WindowId|
                !manager::holds(before.special[idx], other) ==> #[trigger] presence::agree(
                    shell.sets,
                    after.sets,
                    other,
                )
        }),
{
    lemma_ready(shell, idx);
    let ready = shell.buried().grown(idx);
    let start = ready.with_shown(idx, false).with_focus_noted(idx, seat.focus);
    laws::lemma_focus_noted(ready.with_shown(idx, false), idx, seat.focus);
    assert(laws::same_members(ready.special, start.special));
    laws::lemma_same_members_one_home(ready.special, start.special);
    let windows = Attachment::Any.windows(start.special[idx]);
    laws::lemma_windows_home(start.special, Attachment::Any, idx);
    lemma_withdrawn_each(start, windows);
    let after = start.withdrawn_each(windows);
    assert forall|a: int| 0 <= a < after.special[idx].entries.len() implies presence::nowhere(
        after.sets,
        (#[trigger] after.special[idx].entries[a]).mapped,
    ) && after.special[idx].entries[a].attached_to is None by {
        laws::lemma_fitting_asked(Attachment::Any, start.special[idx], a);
    }
    assert forall|other: WindowId|
        !manager::holds(ready.special[idx], other) implies #[trigger] presence::agree(
        shell.sets,
        after.sets,
        other,
    ) by {
        if windows.contains(other) {
            let a = laws::lemma_window_asked(
                Attachment::Any,
                start.special[idx],
                windows.index_of(other),
            );
            assert(ready.special[idx].entries[a].mapped == other);
        }
    }
}

/// Showing a special puts each of its windows on the floating layer of the
/// active workspace, and nowhere else where it was on no layout. Every other
/// window stays where it is.
pub proof fn law_shown_windows_are_afloat(shell: ShellView, idx: int, seat: Seat)
    requires
        manager::one_home(shell.special),
        0 <= idx,
        !shell.buried().grown(idx).special[idx].shown,
        loose(shell.buried().grown(idx).special[idx]),
        workspaces::active_place(shell.sets, seat.active_output) is Some,
    ensures
        ({
            let before = shell.buried().grown(idx);
            let after = shell.toggled(idx, seat);
            let place = workspaces::active_place(shell.sets, seat.active_output)->0;
            &&& after.special[idx].shown
            &&& forall|a: int|
                0 <= a < after.special[idx].entries.len() ==> ({
                    let entry = #[trigger] after.special[idx].entries[a];
                    &&& entry.attached_to == Some(workspaces::at(shell.sets, place).handle)
                    &&& workspaces::at(after.sets, place).floats(entry.mapped)
                    &&& presence::nowhere(shell.sets, entry.mapped) ==> presence::afloat_at(
                        after.sets,
                        place,
                        entry.mapped,
                    )
                })
            &&& presence::same_shape(shell.sets, after.sets)
            &&& forall|other: WindowId|
                !manager::holds(before.special[idx], other) ==> #[trigger] presence::agree(
                    shell.sets,
                    after.sets,
                    other,
                )
        }),
{
    lemma_ready(shell, idx);
    let ready = shell.buried().grown(idx);
    let start = ready.with_shown(idx, true);
    let output = seat.active_output;
    let place = workspaces::active_place(shell.sets, output)->0;
    assert(laws::same_members(ready.special, start.special));
    laws::lemma_same_members_one_home(ready.special, start.special);
    let windows = Attachment::Detached.windows(start.special[idx]);
    assert(windows =~= Attachment::Detached.windows(ready.special[idx]));
    laws::lemma_windows_home(start.special, Attachment::Detached, idx);
    lemma_attached_each(start, windows, output);
    let placed = start.attached_each(windows, output);
    lemma_remaximized_each(placed, windows);
    let after = placed.remaximized_each(windows);
    assert forall|a: int| 0 <= a < after.special[idx].entries.len() implies ({
        let entry = #[trigger] after.special[idx].entries[a];
        &&& entry.attached_to == Some(workspaces::at(shell.sets, place).handle)
        &&& workspaces::at(after.sets, place).floats(entry.mapped)
        &&& presence::nowhere(shell.sets, entry.mapped) ==> presence::afloat_at(
            after.sets,
            place,
            entry.mapped,
        )
    }) by {
        assert(ready.special[idx].entries[a].attached_to is None);
        laws::lemma_fitting_asked(Attachment::Detached, start.special[idx], a);
        assert(windows.contains(start.special[idx].entries[a].mapped));
        assert(placed.special[idx].entries[a].attached_to == Some(
            workspaces::at(shell.sets, place).handle,
        ));
    }
    assert forall|other: WindowId|
        !manager::holds(ready.special[idx], other) implies #[trigger] presence::agree(
        shell.sets,
        after.sets,
        other,
    ) by {
        if windows.contains(other) {
            let a = laws::lemma_window_asked(
                Attachment::Detached,
                start.special[idx],
                windows.index_of(other),
            );
            assert(ready.special[idx].entries[a].mapped == other);
        }
        assert(presence::agree(start.sets, placed.sets, other));
    }
}

/// Showing a special hands the keyboard to the window that it remembers as the
/// last focused one while that is still a member, else to the oldest member.
pub proof fn law_focus_returns_to_the_last_focused(shell: ShellView, idx: int, seat: Seat)
    requires
        manager::one_home(shell.special),
        0 <= idx,
        !shell.buried().grown(idx).special[idx].shown,
        loose(shell.buried().grown(idx).special[idx]),
        shell.buried().grown(idx).special[idx].entries.len() > 0,
        workspaces::active_place(shell.sets, seat.active_output) is Some,
    ensures
        ({
            let special = shell.buried().grown(idx).special[idx];
            &&& special.restored_focus() is Some
            &&& manager::holds(special, special.restored_focus()->0.mapped)
            &&& shell.toggle_focus(idx, seat) == Some(
                KeyboardFocusTarget::Element(special.restored_focus()->0.mapped),
            )
        }),
{
    law_shown_windows_are_afloat(shell, idx, seat);
    laws::law_toggle_flips_one_special(shell, idx, seat);
    laws::lemma_ready_one_home(shell, idx);
    let special = shell.buried().grown(idx).special[idx];
    let window = special.restored_focus()->0.mapped;
    let a = if special.last_focused is Some && special.has(special.last_focused->0) {
        choose|a: int|
            0 <= a < special.entries.len() && (#[trigger] special.entries[a]).eq_spec(
                &special.last_focused->0,
            )
    } else {
        0
    };
    assert(special.entries[a].mapped == window);
    let after = shell.toggled(idx, seat).special;
    assert(shell.buried().grown(idx).special[idx].entries[a].mapped == after[idx].entries[a].mapped);
    assert(after[idx].entries[a].attached_to is Some);
}

/// The keyboard never goes to a parked window that is on no layout.
proof fn lemma_candidate_is_somewhere(
    shell: ShellView,
    seat: SeatId,
    output: OutputId,
    window: WindowId,
)
    requires
        shell.focus_candidate(seat, output) == Some(KeyboardFocusTarget::Element(window)),
        manager::home(shell.special, window) is Some,
    ensures
        !presence::nowhere(shell.sets, window),
{
    presence::lemma_same_active(shell.sets, shell.sets, output);
    let place = workspaces::active_place(shell.sets, output)->0;
    let workspace = workspaces::at(shell.sets, place);
    let stack = workspace.targets_of(seat);
    let p = transitions::eligible(shell.special);
    seqs::lemma_first(stack, p);
    if seqs::first(stack, p) is Some {
        assert(p(stack[seqs::first(stack, p)->0]));
    } else if workspace.floating.len() > 0 {
        assert(workspace.floating[0].window == window);
    } else {
        assert(workspace.tiling[0].window == window);
    }
    assert(presence::knows(shell.sets[place.set].workspaces[place.workspace], window));
}

/// Hiding a special never hands the keyboard to one of its windows.
pub proof fn law_hidden_windows_get_no_focus(
    shell: ShellView,
    idx: int,
    seat: Seat,
    window: WindowId,
)
    requires
        manager::one_home(shell.special),
        0 <= idx,
        shell.buried().grown(idx).special[idx].shown,
        manager::holds(shell.buried().grown(idx).special[idx], window),
    ensures
        shell.toggle_focus(idx, seat) != Some(KeyboardFocusTarget::Element(window)),
{
    law_hidden_windows_are_nowhere(shell, idx, seat);
    laws::law_toggle_flips_one_special(shell, idx, seat);
    lemma_ready(shell, idx);
    let ready = shell.buried().grown(idx);
    let after = shell.toggled(idx, seat);
    laws::lemma_same_members_one_home(ready.special, after.special);
    let a = choose|a: int|
        0 <= a < ready.special[idx].entries.len() && (
        #[trigger] ready.special[idx].entries[a]).mapped == window;
    assert(after.special[idx].entries[a].mapped == window);
    manager::lemma_home_is(after.special, window, idx, a);
    if shell.toggle_focus(idx, seat) == Some(KeyboardFocusTarget::Element(window)) {
        lemma_candidate_is_somewhere(after, seat.id, seat.active_output, window);
    }
}

/// Focus returns to the window that had it: where a member has the keyboard
/// while its special is hidden, showing the special again hands the keyboard
/// back to that member.
pub proof fn law_focus_returns_to_the_window_that_had_it(
    shell: ShellView,
    idx: int,
    hiding: Seat,
    showing: Seat,
    window: WindowId,
)
    requires
        manager::one_home(shell.special),
        0 <= idx,
        shell.buried().grown(idx).special[idx].shown,
        manager::holds(shell.buried().grown(idx).special[idx], window),
        hiding.focus == Some(KeyboardFocusTarget::Element(window)),
        workspaces::active_place(shell.sets, showing.active_output) is Some,
    ensures
        shell.toggled(idx, hiding).toggle_focus(idx, showing) == Some(
            KeyboardFocusTarget::Element(window),
        ),
{
    let ready = shell.buried().grown(idx);
    let after = shell.toggled(idx, hiding);
    law_hidden_windows_are_nowhere(shell, idx, hiding);
    laws::law_toggle_flips_one_special(shell, idx, hiding);
    lemma_ready(shell, idx);
    laws::lemma_same_members_one_home(ready.special, after.special);
    laws::lemma_toggled_windows(shell, idx, hiding);
    presence::lemma_same_active(shell.sets, after.sets, showing.active_output);
    // The member's entry is what focus returns to.
    let a = choose|a: int|
        0 <= a < ready.special[idx].entries.len() && (
        #[trigger] ready.special[idx].entries[a]).mapped == window;
    let dark = ready.with_shown(idx, false);
    assert(laws::same_members(ready.special, dark.special));
    laws::lemma_same_members_one_home(ready.special, dark.special);
    assert(dark.special[idx].entries[a].mapped == window);
    manager::lemma_home_is(dark.special, window, idx, a);
    let noted = dark.with_focus_noted(idx, hiding.focus);
    assert(noted.special[idx].last_focused == Some(dark.special[idx].entries[a]));
    laws::lemma_withdrawn_each_focus(noted, Attachment::Any.windows(noted.special[idx]));
    assert(after.special[idx].last_focused == Some(dark.special[idx].entries[a]));
    // None of the members died, so it still is one.
    let p = manager::alive_in(after.windows);
    let entries = after.special[idx].entries;
    assert forall|b: int| 0 <= b < entries.len() implies p(#[trigger] entries[b]) by {
        assert(ready.special[idx].entries[b].mapped == after.special[idx].entries[b].mapped);
    }
    seqs::lemma_filter_all(entries, p);
    let again = after.buried().grown(idx);
    assert(again.special[idx] == after.buried().special[idx]);
    assert(again.special[idx].entries == entries);
    assert(ready.special[idx].entries[a].mapped == after.special[idx].entries[a].mapped);
    assert(again.special[idx].entries[a].eq_spec(&again.special[idx].last_focused->0));
    law_focus_returns_to_the_last_focused(after, idx, showing);
}

/// Toggling keeps the books in order.
pub proof fn law_toggle_keeps_order(shell: ShellView, idx: int, seat: Seat)
    requires
        in_order(shell.special),
        0 <= idx,
    ensures
        in_order(shell.toggled(idx, seat).special),
{
    lemma_ready(shell, idx);
    laws::law_toggle_flips_one_special(shell, idx, seat);
    let ready = shell.buried().grown(idx);
    let after = shell.toggled(idx, seat);
    laws::lemma_same_members_one_home(ready.special, after.special);
    if ready.special[idx].shown {
        law_hidden_windows_are_nowhere(shell, idx, seat);
    }
    assert forall|i: int| 0 <= i < after.special.len() && !(
    #[trigger] after.special[i]).shown implies loose(after.special[i]) by {
        if i != idx {
            assert(after.special[i] == ready.special[i]);
        }
    }
}

/// Toggling keeps the shell tidy.
pub proof fn law_toggle_keeps_tidy(shell: ShellView, idx: int, seat: Seat)
    requires
        tidy(shell),
        0 <= idx,
    ensures
        tidy(shell.toggled(idx, seat)),
{
    law_toggle_keeps_order(shell, idx, seat);
    lemma_ready(shell, idx);
    laws::law_toggle_flips_one_special(shell, idx, seat);
    laws::lemma_toggled_windows(shell, idx, seat);
    let ready = shell.buried().grown(idx);
    let after = shell.toggled(idx, seat);
    let active = workspaces::active_place(shell.sets, seat.active_output);
    if ready.special[idx].shown {
        law_hidden_windows_are_nowhere(shell, idx, seat);
    } else if active is Some {
        assert(loose(ready.special[idx]));
        law_shown_windows_are_afloat(shell, idx, seat);
        presence::lemma_same_active(shell.sets, after.sets, seat.active_output);
    } else {
        let start = ready.with_shown(idx, true);
        let windows = Attachment::Detached.windows(start.special[idx]);
        assert(windows =~= Attachment::Detached.windows(ready.special[idx]));
        lemma_attached_each_without_active(start, windows, seat.active_output);
        lemma_remaximized_each(start, windows);
        presence::lemma_agree_reflexive(shell.sets);
        assert(loose(ready.special[idx]));
    }
    assert forall|i: int, a: int|
        0 <= i < after.special.len() && 0 <= a
            < after.special[i].entries.len() implies accounted_for(
        after.sets,
        #[trigger] after.special[i].entries[a],
    ) by {
        let before = ready.special[i].entries[a];
        assert(before.mapped == after.special[i].entries[a].mapped);
        assert(accounted_for(shell.sets, before));
        if i != idx {
            assert(after.special[i] == ready.special[i]);
            if manager::holds(ready.special[idx], before.mapped) {
                let b = choose|b: int|
                    0 <= b < ready.special[idx].entries.len() && (
                    #[trigger] ready.special[idx].entries[b]).mapped == before.mapped;
                assert(ready.special[i].entries[a].mapped == ready.special[idx].entries[b].mapped);
            }
            assert(presence::agree(shell.sets, after.sets, before.mapped));
            lemma_agree_accounted(shell.sets, after.sets, before);
        } else if !ready.special[idx].shown && active is Some {
            assert(before.attached_to is None);
            assert(presence::afloat_at(after.sets, active->0, before.mapped));
            lemma_settled_accounted(after.sets, after.special[i].entries[a]);
        } else if !ready.special[idx].shown {
            assert(before.attached_to is None);
            let start = ready.with_shown(idx, true);
            assert(start.special[i].entries[a].attached_to is None);
        }
    }
}

/// What moving does to `window`: where it moved it floats on the workspace at
/// `place`, and nowhere else where it was afloat before; else it is where it
/// was.
pub open spec fn brought_along(
    a: Seq<SetView>,
    b: Seq<SetView>,
    place: Place,
    window: WindowId,
    moved: bool,
) -> bool {
    if moved {
        &&& workspaces::at(b, place).floats(window)
        &&& forall|p: Place| #[trigger]
            presence::afloat_at(a, p, window) ==> presence::afloat_at(b, place, window)
    } else {
        presence::agree(a, b, window)
    }
}

/// `window` is one of `windows`, and floats on a workspace of `output`.
pub open spec fn moves(
    windows: Seq<WindowId>,
    sets: Seq<SetView>,
    output: OutputId,
    window: WindowId,
) -> bool {
    windows.contains(window) && workspaces::floating_place(sets, output, window) is Some
}

/// Each entry of one of `windows` that floats on a workspace of `output` is
/// attached to `current`, and no other entry differs.
pub open spec fn all_moved(
    a: Specials,
    b: Specials,
    sets: Seq<SetView>,
    windows: Seq<WindowId>,
    output: OutputId,
    current: WorkspaceHandle,
) -> bool {
    &&& a.len() == b.len()
    &&& forall|i: int|
        0 <= i < a.len() ==> (#[trigger] b[i]).shown == a[i].shown && b[i].entries.len()
            == a[i].entries.len()
    &&& forall|i: int, y: int|
        0 <= i < a.len() && 0 <= y < a[i].entries.len() ==> #[trigger] b[i].entries[y] == (
        if windows.contains(a[i].entries[y].mapped) && workspaces::floating_place(
            sets,
            output,
            a[i].entries[y].mapped,
        ) is Some {
            SpecialWindow { attached_to: Some(current), ..a[i].entries[y] }
        } else {
            a[i].entries[y]
        })
}

/// A window that was brought along, or is where it was, floats on a workspace
/// of `output` if and only if it did before.
proof fn lemma_brought_along_floats(
    a: Seq<SetView>,
    b: Seq<SetView>,
    output: OutputId,
    window: WindowId,
    moved: bool,
)
    requires
        presence::same_shape(a, b),
        workspaces::active_place(a, output) is Some,
        brought_along(a, b, workspaces::active_place(a, output)->0, window, moved),
        moved ==> workspaces::floating_place(a, output, window) is Some,
    ensures
        workspaces::floating_place(b, output, window) is Some == workspaces::floating_place(
            a,
            output,
            window,
        ) is Some,
{
    if moved {
        presence::lemma_same_active(a, b, output);
        presence::lemma_floating_place(b, output, window);
        let place = workspaces::active_place(a, output)->0;
        assert(b[place.set].workspaces[place.workspace].floats(window));
    } else {
        presence::lemma_agree_floating(a, b, output, window);
    }
}

/// Moving windows brings along those that float on a workspace of `output`,
/// and leaves every other window where it was.
pub proof fn lemma_moved_each(
    shell: ShellView,
    windows: Seq<WindowId>,
    output: OutputId,
    current: WorkspaceHandle,
)
    requires
        manager::one_home(shell.special),
        all_parked(shell.special, windows),
        workspaces::active_place(shell.sets, output) is Some,
        workspaces::at(shell.sets, workspaces::active_place(shell.sets, output)->0).handle
            == current,
    ensures
        ({
            let after = shell.moved_each(windows, output);
            let place = workspaces::active_place(shell.sets, output)->0;
            &&& all_moved(shell.special, after.special, shell.sets, windows, output, current)
            &&& presence::same_shape(shell.sets, after.sets)
            &&& forall|w: WindowId| #[trigger]
                brought_along(
                    shell.sets,
                    after.sets,
                    place,
                    w,
                    moves(windows, shell.sets, output, w),
                )
        }),
    decreases windows.len(),
{
    let place = workspaces::active_place(shell.sets, output)->0;
    if windows.len() > 0 {
        let rest = windows.drop_last();
        let window = windows.last();
        lemma_rest_parked(shell.special, windows);
        lemma_rest_contains(windows);
        lemma_moved_each(shell, rest, output, current);
        let mid = shell.moved_each(rest, output);
        let end = shell.moved_each(windows, output);
        presence::lemma_same_active(shell.sets, mid.sets, output);
        presence::lemma_same_active(mid.sets, mid.sets, output);
        assert(laws::same_members(shell.special, mid.special));
        lemma_reattached_homes(shell.special, mid.special);
        assert(manager::home(mid.special, window) == manager::home(shell.special, window));
        manager::lemma_home(mid.special, window);
        let k = manager::home(mid.special, window)->0;
        let x = seqs::first(mid.special[k].entries, manager::is_window(window))->0;
        assert(mid.special[k].entries[x].mapped == shell.special[k].entries[x].mapped);
        let first = workspaces::floating_place(shell.sets, output, window) is Some;
        let was_moved = moves(rest, shell.sets, output, window);
        assert(brought_along(
            shell.sets,
            mid.sets,
            place,
            window,
            moves(rest, shell.sets, output, window),
        ));
        lemma_brought_along_floats(shell.sets, mid.sets, output, window, was_moved);
        let found = workspaces::floating_place(mid.sets, output, window);
        assert(found is Some == first);
        if first {
            presence::lemma_floating_place(mid.sets, output, window);
            lemma_moved_step(mid, window, output, k, x);
            assert(end == mid.detached(window, output).attached(window, output));
        } else {
            assert(end == mid);
            presence::lemma_agree_reflexive(mid.sets);
        }
        presence::lemma_same_shape_transitive(shell.sets, mid.sets, end.sets);
        assert forall|w: WindowId| #[trigger]
            brought_along(
                shell.sets,
                end.sets,
                place,
                w,
                moves(windows, shell.sets, output, w),
            ) by {
            let floats = workspaces::floating_place(shell.sets, output, w) is Some;
            assert(brought_along(shell.sets, mid.sets, place, w, moves(rest, shell.sets, output, w)));
            if w != window || !first {
                assert(presence::agree(mid.sets, end.sets, w));
                if rest.contains(w) && floats {
                    assert(presence::know_alike(
                        mid.sets[place.set].workspaces[place.workspace],
                        end.sets[place.set].workspaces[place.workspace],
                        w,
                    ));
                    presence::lemma_agree_whereabouts(mid.sets, end.sets, place, w);
                } else {
                    presence::lemma_agree_transitive(shell.sets, mid.sets, end.sets, w);
                }
            } else {
                assert forall|p: Place| #[trigger]
                    presence::afloat_at(shell.sets, p, w) implies presence::afloat_at(
                    end.sets,
                    place,
                    w,
                ) by {
                    let q = if rest.contains(w) {
                        place
                    } else {
                        presence::lemma_agree_whereabouts(shell.sets, mid.sets, p, w);
                        p
                    };
                    assert(presence::afloat_at(mid.sets, q, w));
                    let f = found->0;
                    assert(presence::knows(mid.sets[f.set].workspaces[f.workspace], w));
                    assert(f == q);
                }
            }
        }
        assert forall|i: int, y: int|
            0 <= i < shell.special.len() && 0 <= y
                < shell.special[i].entries.len() implies #[trigger] end.special[i].entries[y] == (
        if windows.contains(shell.special[i].entries[y].mapped) && workspaces::floating_place(
            shell.sets,
            output,
            shell.special[i].entries[y].mapped,
        ) is Some {
            SpecialWindow { attached_to: Some(current), ..shell.special[i].entries[y] }
        } else {
            shell.special[i].entries[y]
        }) by {
            let here = shell.special[i].entries[y].mapped;
            if here == window {
                assert(shell.special[i].entries[y].mapped == shell.special[k].entries[x].mapped);
            } else {
                assert(i != k || y != x);
            }
            assert(mid.special[i].entries[y].mapped == here);
        }
    } else {
        presence::lemma_agree_reflexive(shell.sets);
    }
}

/// Detaching a window that floats on a workspace of `output` and attaching it
/// to the active one.
pub proof fn lemma_moved_step(shell: ShellView, window: WindowId, output: OutputId, k: int, x: int)
    requires
        manager::one_home(shell.special),
        0 <= k < shell.special.len(),
        0 <= x < shell.special[k].entries.len(),
        shell.special[k].entries[x].mapped == window,
        workspaces::active_place(shell.sets, output) is Some,
        workspaces::floating_place(shell.sets, output, window) is Some,
    ensures
        ({
            let after = shell.detached(window, output).attached(window, output);
            let place = workspaces::active_place(shell.sets, output)->0;
            let found = workspaces::floating_place(shell.sets, output, window)->0;
            &&& shell.detaches(window, output)
            &&& reattached(
                shell.special,
                after.special,
                k,
                x,
                Some(workspaces::at(shell.sets, place).handle),
            )
            &&& presence::same_shape(shell.sets, after.sets)
            &&& workspaces::at(after.sets, place).floats(window)
            &&& presence::afloat_at(shell.sets, found, window) ==> presence::afloat_at(
                after.sets,
                place,
                window,
            )
            &&& forall|other: WindowId|
                other != window ==> #[trigger] presence::agree(shell.sets, after.sets, other)
        }),
{
    manager::lemma_home_is(shell.special, window, k, x);
    presence::lemma_floating_place(shell.sets, output, window);
    let place = workspaces::active_place(shell.sets, output)->0;
    let found = workspaces::floating_place(shell.sets, output, window)->0;
    let mid = shell.detached(window, output);
    assert(reattached(shell.special, mid.special, k, x, None));
    assert(laws::same_members(shell.special, mid.special));
    laws::lemma_same_members_one_home(shell.special, mid.special);
    presence::lemma_unfloated_at(shell.sets, found, window);
    presence::lemma_same_active(shell.sets, mid.sets, output);
    presence::lemma_same_active(mid.sets, mid.sets, output);
    assert(mid.special[k].entries[x].mapped == window);
    lemma_attached_entry(mid, window, output, k, x);
    let after = mid.attached(window, output);
    presence::lemma_floated_at(mid.sets, place, window);
    presence::lemma_same_shape_transitive(shell.sets, mid.sets, after.sets);
    assert forall|other: WindowId| other != window implies #[trigger] presence::agree(
        shell.sets,
        after.sets,
        other,
    ) by {
        assert(presence::agree(shell.sets, mid.sets, other));
        assert(presence::agree(mid.sets, after.sets, other));
        presence::lemma_agree_transitive(shell.sets, mid.sets, after.sets, other);
    }
}

/// A visible window of one of the first `n` specials that is attached to a
/// workspace other than `current`.
pub open spec fn drifts(
    specials: Specials,
    n: int,
    current: WorkspaceHandle,
    window: WindowId,
) -> bool {
    exists|i: int, a: int|
        0 <= i < n && i < specials.len() && specials[i].shown && 0 <= a < specials[i].entries.len()
            && (#[trigger] specials[i].entries[a]).mapped == window && Attachment::Elsewhere(
            current,
        ).fits(specials[i].entries[a])
}

/// A visible window of one of the first `n` specials that is attached to a
/// workspace other than `current`, and floats on a workspace of `output`.
pub open spec fn follows(
    specials: Specials,
    n: int,
    sets: Seq<SetView>,
    output: OutputId,
    current: WorkspaceHandle,
    window: WindowId,
) -> bool {
    drifts(specials, n, current, window) && workspaces::floating_place(
        sets,
        output,
        window,
    ) is Some
}

/// The attached windows of the first `n` specials, where shown, that float on
/// a workspace of `output` are attached to `current`, and no other entry
/// differs.
pub open spec fn first_followed(
    a: Specials,
    b: Specials,
    sets: Seq<SetView>,
    n: int,
    output: OutputId,
    current: WorkspaceHandle,
) -> bool {
    &&& a.len() == b.len()
    &&& forall|i: int|
        0 <= i < a.len() ==> (#[trigger] b[i]).shown == a[i].shown && b[i].entries.len()
            == a[i].entries.len()
    &&& forall|i: int, y: int|
        0 <= i < a.len() && 0 <= y < a[i].entries.len() ==> #[trigger] b[i].entries[y] == (if i < n
            && a[i].shown && a[i].entries[y].attached_to is Some && workspaces::floating_place(
            sets,
            output,
            a[i].entries[y].mapped,
        ) is Some {
            SpecialWindow { attached_to: Some(current), ..a[i].entries[y] }
        } else {
            a[i].entries[y]
        })
}

/// The first `n` specials follow to the active workspace.
pub proof fn lemma_followed_first(shell: ShellView, n: int, output: OutputId, current: WorkspaceHandle)
    requires
        manager::one_home(shell.special),
        0 <= n <= shell.special.len(),
        workspaces::active_place(shell.sets, output) is Some,
        workspaces::at(shell.sets, workspaces::active_place(shell.sets, output)->0).handle
            == current,
    ensures
        ({
            let after = shell.followed_first(n, output, current);
            let place = workspaces::active_place(shell.sets, output)->0;
            &&& after.windows == shell.windows
            &&& first_followed(shell.special, after.special, shell.sets, n, output, current)
            &&& presence::same_shape(shell.sets, after.sets)
            &&& forall|w: WindowId| #[trigger]
                brought_along(
                    shell.sets,
                    after.sets,
                    place,
                    w,
                    follows(shell.special, n, shell.sets, output, current, w),
                )
        }),
    decreases n,
{
    let place = workspaces::active_place(shell.sets, output)->0;
    if n > 0 {
        let k = n - 1;
        lemma_followed_first(shell, k, output, current);
        let mid = shell.followed_first(k, output, current);
        let after = shell.followed_first(n, output, current);
        presence::lemma_same_active(shell.sets, mid.sets, output);
        assert(laws::same_members(shell.special, mid.special));
        lemma_reattached_homes(shell.special, mid.special);
        let which = Attachment::Elsewhere(current);
        let windows = which.windows(mid.special[k]);
        assert(mid.special[k].entries =~= shell.special[k].entries);
        if mid.special[k].shown {
            laws::lemma_windows_home(mid.special, which, k);
            lemma_moved_each(mid, windows, output, current);
            lemma_moved_each_windows(mid, windows, output);
        } else {
            presence::lemma_agree_reflexive(mid.sets);
        }
        presence::lemma_same_shape_transitive(shell.sets, mid.sets, after.sets);
        // Whether a window floats on a workspace of the output is as it was.
        assert forall|w: WindowId|
            workspaces::floating_place(mid.sets, output, w) is Some
            == #[trigger] workspaces::floating_place(shell.sets, output, w) is Some by {
            let moved = follows(shell.special, k, shell.sets, output, current, w);
            assert(brought_along(
                shell.sets,
                mid.sets,
                place,
                w,
                follows(shell.special, k, shell.sets, output, current, w),
            ));
            lemma_brought_along_floats(shell.sets, mid.sets, output, w, moved);
        }
        // The windows of special `k` that move are those that drift there.
        assert forall|w: WindowId| mid.special[k].shown && #[trigger] windows.contains(
            w,
        ) implies drifts(shell.special, n, current, w) && !drifts(shell.special, k, current, w) by {
            let b = laws::lemma_window_asked(which, mid.special[k], windows.index_of(w));
            assert(shell.special[k].entries[b].mapped == w);
            if drifts(shell.special, k, current, w) {
                let (i, a) = choose|i: int, a: int|
                    0 <= i < k && i < shell.special.len() && shell.special[i].shown && 0 <= a
                        < shell.special[i].entries.len() && (
                    #[trigger] shell.special[i].entries[a]).mapped == w && which.fits(
                        shell.special[i].entries[a],
                    );
                assert(shell.special[i].entries[a].mapped == shell.special[k].entries[b].mapped);
            }
        }
        assert forall|w: WindowId| drifts(shell.special, n, current, w) implies #[trigger] drifts(
            shell.special,
            k,
            current,
            w,
        ) || (mid.special[k].shown && windows.contains(w)) by {
            let (i, a) = choose|i: int, a: int|
                0 <= i < n && i < shell.special.len() && shell.special[i].shown && 0 <= a
                    < shell.special[i].entries.len() && (
                #[trigger] shell.special[i].entries[a]).mapped == w && which.fits(
                    shell.special[i].entries[a],
                );
            if i == k {
                laws::lemma_fitting_asked(which, mid.special[k], a);
            } else {
                assert(shell.special[i].entries[a].mapped == w);
            }
        }
        assert forall|w: WindowId| #[trigger]
            brought_along(
                shell.sets,
                after.sets,
                place,
                w,
                follows(shell.special, n, shell.sets, output, current, w),
            ) by {
            assert(brought_along(
                shell.sets,
                mid.sets,
                place,
                w,
                follows(shell.special, k, shell.sets, output, current, w),
            ));
            assert(workspaces::floating_place(mid.sets, output, w) is Some
                == workspaces::floating_place(shell.sets, output, w) is Some);
            if mid.special[k].shown {
                assert(brought_along(
                    mid.sets,
                    after.sets,
                    place,
                    w,
                    moves(windows, mid.sets, output, w),
                ));
            } else {
                assert(presence::agree(mid.sets, after.sets, w));
            }
            lemma_brought_along_twice(shell, mid, after, n, output, current, windows, w);
        }
        assert forall|i: int, y: int|
            0 <= i < shell.special.len() && 0 <= y
                < shell.special[i].entries.len() implies #[trigger] after.special[i].entries[y]
            == (if i < n && shell.special[i].shown && shell.special[i].entries[y].attached_to is Some
            && workspaces::floating_place(
            shell.sets,
            output,
            shell.special[i].entries[y].mapped,
        ) is Some {
            SpecialWindow { attached_to: Some(current), ..shell.special[i].entries[y] }
        } else {
            shell.special[i].entries[y]
        }) by {
            let entry = mid.special[i].entries[y];
            let w = entry.mapped;
            assert(w == shell.special[i].entries[y].mapped);
            assert(workspaces::floating_place(mid.sets, output, w) is Some
                == workspaces::floating_place(shell.sets, output, w) is Some);
            if mid.special[k].shown {
                if windows.contains(w) {
                    let b = laws::lemma_window_asked(which, mid.special[k], windows.index_of(w));
                    assert(shell.special[i].entries[y].mapped
                        == shell.special[k].entries[b].mapped);
                } else if i == k && which.fits(entry) {
                    laws::lemma_fitting_asked(which, mid.special[k], y);
                }
            }
        }
    } else {
        presence::lemma_agree_reflexive(shell.sets);
        assert forall|w: WindowId| !#[trigger] drifts(shell.special, 0, current, w) by {}
    }
}

/// What two rounds of moving do to a window that moves in one of them at most.
proof fn lemma_brought_along_twice(
    shell: ShellView,
    mid: ShellView,
    after: ShellView,
    n: int,
    output: OutputId,
    current: WorkspaceHandle,
    windows: Seq<WindowId>,
    w: WindowId,
)
    requires
        0 < n <= shell.special.len(),
        workspaces::active_place(shell.sets, output) is Some,
        workspaces::active_place(mid.sets, output) == workspaces::active_place(shell.sets, output),
        workspaces::in_range(mid.sets, workspaces::active_place(shell.sets, output)->0),
        workspaces::floating_place(mid.sets, output, w) is Some == workspaces::floating_place(
            shell.sets,
            output,
            w,
        ) is Some,
        brought_along(
            shell.sets,
            mid.sets,
            workspaces::active_place(shell.sets, output)->0,
            w,
            follows(shell.special, n - 1, shell.sets, output, current, w),
        ),
        brought_along(
            mid.sets,
            after.sets,
            workspaces::active_place(shell.sets, output)->0,
            w,
            mid.special[n - 1].shown && moves(windows, mid.sets, output, w),
        ),
        mid.special[n - 1].shown && windows.contains(w) ==> drifts(shell.special, n, current, w)
            && !drifts(shell.special, n - 1, current, w),
        drifts(shell.special, n, current, w) ==> drifts(shell.special, n - 1, current, w) || (
        mid.special[n - 1].shown && windows.contains(w)),
        drifts(shell.special, n - 1, current, w) ==> drifts(shell.special, n, current, w),
    ensures
        brought_along(
            shell.sets,
            after.sets,
            workspaces::active_place(shell.sets, output)->0,
            w,
            follows(shell.special, n, shell.sets, output, current, w),
        ),
{
    let place = workspaces::active_place(shell.sets, output)->0;
    let floats = workspaces::floating_place(shell.sets, output, w) is Some;
    if floats && drifts(shell.special, n - 1, current, w) {
        presence::lemma_agree_whereabouts(mid.sets, after.sets, place, w);
        assert(presence::know_alike(
            mid.sets[place.set].workspaces[place.workspace],
            after.sets[place.set].workspaces[place.workspace],
            w,
        ));
    } else if floats && mid.special[n - 1].shown && windows.contains(w) {
        assert forall|p: Place| #[trigger]
            presence::afloat_at(shell.sets, p, w) implies presence::afloat_at(
            after.sets,
            place,
            w,
        ) by {
            presence::lemma_agree_whereabouts(shell.sets, mid.sets, p, w);
            assert(presence::afloat_at(mid.sets, p, w));
        }
    } else {
        presence::lemma_agree_transitive(shell.sets, mid.sets, after.sets, w);
    }
}

/// Moving leaves the compositor's windows as they are.
proof fn lemma_moved_each_windows(shell: ShellView, windows: Seq<WindowId>, output: OutputId)
    ensures
        shell.moved_each(windows, output).windows == shell.windows,
    decreases windows.len(),
{
    if windows.len() > 0 {
        lemma_moved_each_windows(shell, windows.drop_last(), output);
    }
}

/// After a workspace switch the visible windows of shown specials that float
/// on a workspace of the output are attached to the newly active one, and
/// float there. Attachments to workspaces that are gone are forgotten; all
/// other entries stay, and so do windows of hidden specials and windows on
/// other outputs. No special is shown or hidden. Where no special is shown
/// nothing happens.
pub proof fn law_visible_windows_follow(shell: ShellView, output: OutputId)
    requires
        manager::one_home(shell.special),
        workspaces::active_place(shell.sets, output) is Some,
    ensures
        ({
            let after = shell.followed(output);
            let place = workspaces::active_place(shell.sets, output)->0;
            let current = workspaces::at(shell.sets, place).handle;
            let valid = transitions::revalidated(shell.special, shell.sets);
            &&& after.windows == shell.windows
            &&& laws::same_members(shell.special, after.special)
            &&& presence::same_shape(shell.sets, after.sets)
            &&& forall|i: int|
                0 <= i < shell.special.len() ==> (#[trigger] after.special[i]).shown
                    == shell.special[i].shown
            &&& !manager::any_shown(shell.special) ==> after == shell
            &&& manager::any_shown(shell.special) ==> forall|i: int, a: int|
                0 <= i < shell.special.len() && 0 <= a < shell.special[i].entries.len() ==> (
                #[trigger] after.special[i].entries[a]) == (if shell.special[i].shown
                    && valid[i].entries[a].attached_to is Some && workspaces::floating_place(
                    shell.sets,
                    output,
                    shell.special[i].entries[a].mapped,
                ) is Some {
                    SpecialWindow { attached_to: Some(current), ..valid[i].entries[a] }
                } else {
                    valid[i].entries[a]
                })
            &&& forall|w: WindowId| #[trigger]
                brought_along(
                    shell.sets,
                    after.sets,
                    place,
                    w,
                    follows(valid, valid.len() as int, shell.sets, output, current, w),
                )
        }),
{
    let place = workspaces::active_place(shell.sets, output)->0;
    let current = workspaces::at(shell.sets, place).handle;
    let valid = ShellView {
        special: transitions::revalidated(shell.special, shell.sets),
        ..shell
    };
    laws::law_revalidated_attachments_exist(shell.special, shell.sets);
    if manager::any_shown(shell.special) {
        laws::lemma_same_members_one_home(shell.special, valid.special);
        lemma_followed_first(valid, valid.special.len() as int, output, current);
    } else {
        presence::lemma_agree_reflexive(shell.sets);
        assert forall|w: WindowId| !#[trigger] drifts(
            valid.special,
            valid.special.len() as int,
            current,
            w,
        ) by {
            if drifts(valid.special, valid.special.len() as int, current, w) {
                let (i, a) = choose|i: int, a: int|
                    0 <= i < valid.special.len() && i < valid.special.len()
                        && valid.special[i].shown && 0 <= a < valid.special[i].entries.len() && (
                    #[trigger] valid.special[i].entries[a]).mapped == w && Attachment::Elsewhere(
                        current,
                    ).fits(valid.special[i].entries[a]);
                assert(shell.special[i].shown);
            }
        }
    }
}

/// Revalidating keeps the books in order.
pub proof fn law_revalidating_keeps_order(specials: Specials, sets: Seq<SetView>)
    requires
        in_order(specials),
    ensures
        in_order(transitions::revalidated(specials, sets)),
{
    let after = transitions::revalidated(specials, sets);
    laws::law_revalidated_attachments_exist(specials, sets);
    laws::lemma_same_members_one_home(specials, after);
    assert forall|i: int| 0 <= i < after.len() && !(#[trigger] after[i]).shown implies loose(
        after[i],
    ) by {
        assert(!specials[i].shown);
        assert forall|a: int| 0 <= a < after[i].entries.len() implies (
        #[trigger] after[i].entries[a]).attached_to is None by {
            assert(specials[i].entries[a].attached_to is None);
        }
    }
}

/// Where every live window is where its entry says, but for those whose
/// workspace is gone, and those are on no layout, revalidating makes the shell
/// tidy, and every entry of a live window says where the window is.
pub proof fn law_revalidating_makes_tidy(shell: ShellView)
    requires
        in_order(shell.special),
        forall|i: int, a: int|
            0 <= i < shell.special.len() && 0 <= a < shell.special[i].entries.len()
                && manager::is_alive(
                shell.windows,
                (#[trigger] shell.special[i].entries[a]).mapped,
            ) ==> ({
                let entry = shell.special[i].entries[a];
                if entry.attached_to is Some && !workspaces::has_handle(
                    shell.sets,
                    entry.attached_to->0,
                ) {
                    presence::nowhere(shell.sets, entry.mapped)
                } else {
                    settled(shell.sets, entry)
                }
            }),
    ensures
        ({
            let after = ShellView {
                special: transitions::revalidated(shell.special, shell.sets),
                ..shell
            };
            &&& tidy(shell)
            &&& tidy(after)
            &&& forall|i: int, a: int|
                0 <= i < after.special.len() && 0 <= a < after.special[i].entries.len()
                    && manager::is_alive(
                    shell.windows,
                    (#[trigger] after.special[i].entries[a]).mapped,
                ) ==> settled(shell.sets, after.special[i].entries[a])
        }),
{
    let after = ShellView {
        special: transitions::revalidated(shell.special, shell.sets),
        ..shell
    };
    law_revalidating_keeps_order(shell.special, shell.sets);
    assert forall|i: int, a: int|
        0 <= i < after.special.len() && 0 <= a < after.special[i].entries.len()
            && manager::is_alive(
            shell.windows,
            (#[trigger] after.special[i].entries[a]).mapped,
        ) implies settled(shell.sets, after.special[i].entries[a]) && accounted_for(
        shell.sets,
        after.special[i].entries[a],
    ) by {
        assert(manager::is_alive(shell.windows, shell.special[i].entries[a].mapped));
        lemma_settled_accounted(shell.sets, after.special[i].entries[a]);
    }
    assert forall|i: int, a: int|
        0 <= i < shell.special.len() && 0 <= a < shell.special[i].entries.len()
            && manager::is_alive(
            shell.windows,
            (#[trigger] shell.special[i].entries[a]).mapped,
        ) implies accounted_for(shell.sets, shell.special[i].entries[a]) by {
        assert(settled(shell.sets, after.special[i].entries[a]));
    }
}

/// Following keeps the books in order.
pub proof fn law_follow_keeps_order(shell: ShellView, output: OutputId)
    requires
        in_order(shell.special),
    ensures
        in_order(shell.followed(output).special),
{
    law_revalidating_keeps_order(shell.special, shell.sets);
    if workspaces::active_place(shell.sets, output) is Some {
        law_visible_windows_follow(shell, output);
        let after = shell.followed(output);
        laws::lemma_same_members_one_home(shell.special, after.special);
        assert forall|i: int| 0 <= i < after.special.len() && !(
        #[trigger] after.special[i]).shown implies loose(after.special[i]) by {
            assert(loose(shell.special[i]));
            assert forall|a: int| 0 <= a < after.special[i].entries.len() implies (
            #[trigger] after.special[i].entries[a]).attached_to is None by {
                assert(shell.special[i].entries[a].attached_to is None);
            }
        }
    }
}

/// Following keeps the shell tidy.
pub proof fn law_follow_keeps_tidy(shell: ShellView, output: OutputId)
    requires
        tidy(shell),
    ensures
        tidy(shell.followed(output)),
{
    law_follow_keeps_order(shell, output);
    let after = shell.followed(output);
    let valid = transitions::revalidated(shell.special, shell.sets);
    laws::law_revalidated_attachments_exist(shell.special, shell.sets);
    let active = workspaces::active_place(shell.sets, output);
    if active is Some {
        law_visible_windows_follow(shell, output);
        presence::lemma_same_active(shell.sets, after.sets, output);
    }
    if manager::any_shown(shell.special) {
        assert forall|i: int, a: int|
            0 <= i < after.special.len() && 0 <= a < after.special[i].entries.len()
                && manager::is_alive(
                after.windows,
                (#[trigger] after.special[i].entries[a]).mapped,
            ) implies accounted_for(after.sets, after.special[i].entries[a]) by {
            let entry = shell.special[i].entries[a];
            let kept = valid[i].entries[a];
            let w = entry.mapped;
            assert(kept == transitions::revalidated_entry(shell.sets, entry));
            if active is Some {
                assert(shell.special[i].entries[a].mapped
                    == after.special[i].entries[a].mapped);
            }
            assert(manager::is_alive(shell.windows, entry.mapped));
            assert(accounted_for(shell.sets, entry));
            assert(settled(shell.sets, kept));
            lemma_settled_accounted(shell.sets, kept);
            if active is Some {
                let place = active->0;
                let current = workspaces::at(shell.sets, place).handle;
                let floats = workspaces::floating_place(shell.sets, output, w) is Some;
                let moved = follows(valid, valid.len() as int, shell.sets, output, current, w);
                assert(brought_along(
                    shell.sets,
                    after.sets,
                    place,
                    w,
                    follows(valid, valid.len() as int, shell.sets, output, current, w),
                ));
                if moved {
                    lemma_drifting_entry(valid, current, w, i, a);
                    let p = choose|p: Place| #[trigger]
                        presence::afloat_at(shell.sets, p, w) && workspaces::at(
                            shell.sets,
                            p,
                        ).handle == kept.attached_to->0;
                    assert(presence::afloat_at(shell.sets, p, w));
                    assert(presence::afloat_at(after.sets, place, w));
                    lemma_settled_accounted(after.sets, after.special[i].entries[a]);
                } else {
                    if shell.special[i].shown && kept.attached_to is Some && floats {
                        assert(valid[i].entries[a].mapped == w);
                        assert(kept.attached_to == Some(current));
                    }
                    assert(after.special[i].entries[a] == kept);
                    lemma_agree_accounted(shell.sets, after.sets, kept);
                }
            }
        }
    }
}

/// The entry of a window that drifts is attached, in a special that is shown.
proof fn lemma_drifting_entry(
    specials: Specials,
    current: WorkspaceHandle,
    window: WindowId,
    i: int,
    a: int,
)
    requires
        manager::one_home(specials),
        0 <= i < specials.len(),
        0 <= a < specials[i].entries.len(),
        specials[i].entries[a].mapped == window,
        drifts(specials, specials.len() as int, current, window),
    ensures
        specials[i].shown,
        specials[i].entries[a].attached_to is Some,
{
    let (j, b) = choose|j: int, b: int|
        0 <= j < specials.len() && j < specials.len() && specials[j].shown && 0 <= b
            < specials[j].entries.len() && (#[trigger] specials[j].entries[b]).mapped == window
            && Attachment::Elsewhere(current).fits(specials[j].entries[b]);
    assert(specials[i].entries[a].mapped == specials[j].entries[b].mapped);
}

/// `window` is parked in special `idx`: on no layout while the special is
/// hidden, and afloat on the active workspace, where there is one, while it is
/// shown.
pub open spec fn parked(shell: ShellView, idx: int, window: WindowId, output: OutputId) -> bool {
    &&& manager::home(shell.special, window) == Some(idx)
    &&& !shell.special[idx].shown ==> presence::nowhere(shell.sets, window)
    &&& shell.special[idx].shown && workspaces::active_place(shell.sets, output) is Some
        ==> presence::afloat_at(
        shell.sets,
        workspaces::active_place(shell.sets, output)->0,
        window,
    )
}

/// Every window but `window` is parked where it was, if it was, and is on the
/// layouts that it was on.
pub open spec fn others_stay(before: ShellView, after: ShellView, window: WindowId) -> bool {
    forall|other: WindowId|
        other != window ==> manager::home(after.special, other) == #[trigger] manager::home(
            before.special,
            other,
        ) && presence::agree(before.sets, after.sets, other)
}

/// Taking a window out of its special leaves the others as they are.
proof fn lemma_taken(shell: ShellView, window: WindowId)
    requires
        manager::one_home(shell.special),
        manager::home(shell.special, window) is Some,
    ensures
        ({
            let after = shell.taken(window).special;
            &&& manager::one_home(after)
            &&& manager::home(after, window) is None
            &&& after.len() == shell.special.len()
            &&& forall|other: WindowId|
                other != window ==> #[trigger] manager::home(after, other) == manager::home(
                    shell.special,
                    other,
                )
            &&& forall|i: int|
                0 <= i < after.len() ==> (#[trigger] after[i]).shown == shell.special[i].shown
        }),
{
    transitions::lemma_taken_one_home(shell, window);
    manager::lemma_home(shell.special, window);
    let k = manager::home(shell.special, window)->0;
    let x = seqs::first(shell.special[k].entries, manager::is_window(window))->0;
    let after = shell.taken(window).special;
    assert forall|other: WindowId| other != window implies #[trigger] manager::home(after, other)
        == manager::home(shell.special, other) by {
        manager::lemma_home(shell.special, other);
        manager::lemma_home(after, other);
        if manager::home(shell.special, other) is Some {
            let i = manager::home(shell.special, other)->0;
            let b = seqs::first(shell.special[i].entries, manager::is_window(other))->0;
            let a = if i == k && b > x {
                b - 1
            } else {
                b
            };
            assert(shell.special[k].entries[x].mapped == window);
            assert(after[i].entries[a] == shell.special[i].entries[b]);
            manager::lemma_home_is(after, other, i, a);
        } else if manager::home(after, other) is Some {
            let i = manager::home(after, other)->0;
            let a = seqs::first(after[i].entries, manager::is_window(other))->0;
            let b = if i == k && a >= x {
                a + 1
            } else {
                a
            };
            assert(after[i].entries[a] == shell.special[i].entries[b]);
            assert(manager::holds(shell.special[i], other));
        }
    }
}

/// An entry that is left once a window was taken out was there before.
proof fn lemma_taken_entry(shell: ShellView, window: WindowId, i: int, a: int) -> (b: int)
    requires
        manager::home(shell.special, window) is Some,
        0 <= i < shell.taken(window).special.len(),
        0 <= a < shell.taken(window).special[i].entries.len(),
    ensures
        0 <= b < shell.special[i].entries.len(),
        shell.taken(window).special[i].entries[a] == shell.special[i].entries[b],
{
    manager::lemma_home(shell.special, window);
    let k = manager::home(shell.special, window)->0;
    let x = seqs::first(shell.special[k].entries, manager::is_window(window))->0;
    if i == k && a >= x {
        a + 1
    } else {
        a
    }
}

/// Putting a window into a special leaves the others as they are.
proof fn lemma_stored(shell: ShellView, idx: int, entry: SpecialWindow)
    requires
        manager::one_home(shell.special),
        0 <= idx,
        manager::home(shell.special, entry.mapped) is None,
    ensures
        ({
            let ready = shell.grown(idx).special;
            let after = shell.stored(idx, entry).special;
            let n = ready[idx].entries.len();
            &&& manager::one_home(after)
            &&& after.len() == ready.len()
            &&& 0 <= idx < after.len()
            &&& after[idx].entries.len() == n + 1
            &&& after[idx].entries[n as int] == entry
            &&& manager::home(after, entry.mapped) == Some(idx)
            &&& forall|other: WindowId|
                other != entry.mapped ==> #[trigger] manager::home(after, other) == manager::home(
                    shell.special,
                    other,
                )
            &&& forall|i: int| 0 <= i < after.len() ==> (#[trigger] after[i]).shown == ready[i].shown
            &&& forall|i: int, a: int|
                0 <= i < after.len() && 0 <= a < after[i].entries.len() && !(i == idx && a == n)
                    ==> i < shell.special.len() && a < shell.special[i].entries.len()
                    && #[trigger] after[i].entries[a] == shell.special[i].entries[a]
        }),
{
    transitions::lemma_stored_one_home(shell, idx, entry);
    manager::lemma_home(shell.special, entry.mapped);
    let ready = shell.grown(idx).special;
    let after = shell.stored(idx, entry).special;
    assert forall|i: int, a: int|
        0 <= i < ready.len() && 0 <= a < ready[i].entries.len() implies i < shell.special.len() && (
    #[trigger] ready[i].entries[a]).mapped != entry.mapped && ready[i].entries[a]
        == shell.special[i].entries[a] by {
        assert(i < shell.special.len());
        assert(!manager::holds(shell.special[i], entry.mapped));
        assert(ready[i].entries[a] == shell.special[i].entries[a]);
    }
    assert(!ready[idx].has(entry));
    let n = ready[idx].entries.len();
    assert forall|i: int, a: int|
        0 <= i < after.len() && 0 <= a < after[i].entries.len() && !(i == idx && a == n) implies i
        < shell.special.len() && a < shell.special[i].entries.len()
        && #[trigger] after[i].entries[a] == shell.special[i].entries[a] by {
        assert(after[i].entries[a] == ready[i].entries[a]);
    }
    assert(after[idx].entries[n as int] == entry);
    manager::lemma_home_is(after, entry.mapped, idx, n as int);
    assert forall|other: WindowId| other != entry.mapped implies #[trigger] manager::home(
        after,
        other,
    ) == manager::home(shell.special, other) by {
        manager::lemma_home(shell.special, other);
        manager::lemma_home(after, other);
        if manager::home(shell.special, other) is Some {
            let i = manager::home(shell.special, other)->0;
            let b = seqs::first(shell.special[i].entries, manager::is_window(other))->0;
            assert(ready[i].entries[b] == shell.special[i].entries[b]);
            assert(after[i].entries[b] == ready[i].entries[b]);
            manager::lemma_home_is(after, other, i, b);
        } else if manager::home(after, other) is Some {
            let i = manager::home(after, other)->0;
            let a = seqs::first(after[i].entries, manager::is_window(other))->0;
            assert(after[i].entries[a] == shell.special[i].entries[a]);
            assert(manager::holds(shell.special[i], other));
        }
    }
}

/// Delivering a window that is on no layout parks it.
proof fn lemma_delivered(shell: ShellView, idx: int, entry: SpecialWindow, output: OutputId)
    requires
        manager::one_home(shell.special),
        0 <= idx,
        manager::home(shell.special, entry.mapped) is None,
        entry.attached_to is None,
        presence::nowhere(shell.sets, entry.mapped),
    ensures
        ({
            let after = shell.delivered(idx, entry, output);
            &&& manager::one_home(after.special)
            &&& parked(after, idx, entry.mapped, output)
            &&& others_stay(shell, after, entry.mapped)
            &&& in_order(shell.special) ==> in_order(after.special)
            &&& tidy(shell) ==> tidy(after)
        }),
{
    lemma_stored(shell, idx, entry);
    let stored = shell.stored(idx, entry);
    let window = entry.mapped;
    let x = stored.special[idx].entries.len() - 1;
    let active = workspaces::active_place(shell.sets, output);
    let placed = if stored.special[idx].shown {
        stored.attached(window, output)
    } else {
        stored
    };
    let after = shell.delivered(idx, entry, output);
    let attached = stored.special[idx].shown && active is Some;
    presence::lemma_agree_reflexive(shell.sets);
    if attached {
        lemma_attached_entry(stored, window, output, idx, x);
        presence::lemma_same_active(shell.sets, shell.sets, output);
        presence::lemma_floated_at(shell.sets, active->0, window);
        presence::lemma_same_active(shell.sets, placed.sets, output);
    }
    if stored.special[idx].shown {
        assert(seq![window].drop_last() =~= Seq::<WindowId>::empty());
        reveal_with_fuel(ShellView::remaximized_each, 2);
        assert(placed.remaximized_each(seq![window]) == after);
        lemma_remaximized_each(placed, seq![window]);
    }
    assert(same_attachments(placed.special, after.special));
    assert(laws::same_members(stored.special, after.special));
    lemma_reattached_homes(stored.special, after.special);
    assert(manager::home(after.special, window) == manager::home(stored.special, window));
    assert forall|other: WindowId| other != window implies manager::home(after.special, other)
        == #[trigger] manager::home(shell.special, other) && presence::agree(
        shell.sets,
        after.sets,
        other,
    ) by {
        assert(manager::home(after.special, other) == manager::home(stored.special, other));
        assert(manager::home(stored.special, other) == manager::home(shell.special, other));
        assert(presence::agree(shell.sets, after.sets, other));
    }
    if in_order(shell.special) {
        assert forall|i: int| 0 <= i < after.special.len() && !(
        #[trigger] after.special[i]).shown implies loose(after.special[i]) by {
            assert(!placed.special[i].shown);
            assert(!stored.special[i].shown);
            assert forall|a: int| 0 <= a < after.special[i].entries.len() implies (
            #[trigger] after.special[i].entries[a]).attached_to is None by {
                assert(placed.special[i].entries[a] == stored.special[i].entries[a]);
                if i != idx || a != x {
                    assert(stored.special[i].entries[a] == shell.special[i].entries[a]);
                    assert(!shell.special[i].shown);
                    assert(loose(shell.special[i]));
                }
            }
        }
    }
    if tidy(shell) {
        assert forall|i: int, a: int|
            0 <= i < after.special.len() && 0 <= a < after.special[i].entries.len()
                && manager::is_alive(
                after.windows,
                (#[trigger] after.special[i].entries[a]).mapped,
            ) implies accounted_for(after.sets, after.special[i].entries[a]) by {
            assert(after.special[i].entries[a].mapped == stored.special[i].entries[a].mapped);
            assert(after.special[i].entries[a].attached_to
                == placed.special[i].entries[a].attached_to);
            if i == idx && a == x {
                if attached {
                    assert(presence::afloat_at(after.sets, active->0, window));
                    lemma_settled_accounted(after.sets, after.special[i].entries[a]);
                }
            } else {
                let before = shell.special[i].entries[a];
                assert(stored.special[i].entries[a] == before);
                assert(placed.special[i].entries[a] == before);
                assert(manager::is_alive(shell.windows, before.mapped));
                assert(stored.special[i].entries[a].mapped != stored.special[idx].entries[x].mapped);
                assert(presence::agree(shell.sets, after.sets, before.mapped));
                lemma_agree_accounted(shell.sets, after.sets, before);
                assert(transitions::revalidated_entry(
                    after.sets,
                    after.special[i].entries[a],
                ).attached_to == transitions::revalidated_entry(after.sets, before).attached_to);
            }
        }
    }
}

/// Changing the layouts for a window that is parked nowhere keeps the shell
/// tidy.
proof fn lemma_unparked_tidy(before: ShellView, after: ShellView, window: WindowId)
    requires
        tidy(before),
        manager::home(before.special, window) is None,
        after.special == before.special,
        after.windows == before.windows,
        forall|other: WindowId|
            other != window ==> #[trigger] presence::agree(before.sets, after.sets, other),
    ensures
        tidy(after),
{
    manager::lemma_home(before.special, window);
    assert forall|i: int, a: int|
        0 <= i < after.special.len() && 0 <= a < after.special[i].entries.len()
            && manager::is_alive(
            after.windows,
            (#[trigger] after.special[i].entries[a]).mapped,
        ) implies accounted_for(after.sets, after.special[i].entries[a]) by {
        let entry = before.special[i].entries[a];
        assert(!manager::holds(before.special[i], window));
        assert(entry.mapped != window);
        assert(presence::agree(before.sets, after.sets, entry.mapped));
        lemma_agree_accounted(before.sets, after.sets, entry);
    }
}

/// `window` is on no layout any more, and nothing else differs but what has to
/// be done to the compositor.
spec fn left_its_layout(before: ShellView, after: ShellView, window: WindowId) -> bool {
    &&& presence::nowhere(after.sets, window)
    &&& after.special == before.special
    &&& after.windows == before.windows
    &&& forall|other: WindowId|
        other != window ==> #[trigger] presence::agree(before.sets, after.sets, other)
}

/// A window that leaves the one layout it is on is on none.
proof fn lemma_detach_window_nowhere(shell: ShellView, window: WindowId)
    requires
        presence::on_one_layout(shell.sets, window),
        shell.mapped_restore(window) is Some || shell.is_sticky(window),
    ensures
        shell.is_sticky(window) ==> left_its_layout(shell, shell.unstuck(window), window),
        !shell.is_sticky(window) ==> left_its_layout(shell, shell.unmapped(window), window),
{
    seqs::lemma_first(shell.sets, workspaces::sticks(window));
    if shell.is_sticky(window) {
        let i = seqs::first(shell.sets, workspaces::sticks(window))->0;
        assert(workspaces::sticks(window)(shell.sets[i]));
        let k = choose|k: int| #[trigger] presence::sticky_on(shell.sets, k, window);
        assert(presence::sticky_on(shell.sets, k, window));
        assert(i == k);
        presence::lemma_unstuck_nowhere(shell.sets, k, window);
    } else {
        assert forall|k: int| !#[trigger] presence::sticky_on(shell.sets, k, window) by {
            if presence::sticky_on(shell.sets, k, window) {
                assert(workspaces::sticks(window)(shell.sets[k]));
            }
        }
        lemma_mapped_place_knows(shell.sets, window);
        let place = workspaces::mapped_place(shell.sets, window)->0;
        assert forall|i: int, j: int|
            0 <= i < shell.sets.len() && 0 <= j < shell.sets[i].workspaces.len() && presence::knows(
                #[trigger] shell.sets[i].workspaces[j],
                window,
            ) implies i == place.set && j == place.workspace by {
            assert(presence::knows(shell.sets[place.set].workspaces[place.workspace], window));
        }
        presence::lemma_unmapped_nowhere(shell.sets, place, window);
    }
}

/// The first workspace that maps a window is there and maps it.
proof fn lemma_mapped_place_knows(sets: Seq<SetView>, window: WindowId)
    ensures
        match workspaces::mapped_place(sets, window) {
            Some(place) => workspaces::in_range(sets, place) && workspaces::at(sets, place).maps(
                window,
            ),
            None => true,
        },
{
    let p = workspaces::set_maps(window);
    seqs::lemma_first(sets, p);
    if seqs::first(sets, p) is Some {
        let i = seqs::first(sets, p)->0;
        seqs::lemma_first(sets[i].workspaces, workspaces::maps(window));
    }
}

/// Whether sending `window` goes through: it is parked already, or a layout
/// lets it go.
pub open spec fn lets_go(shell: ShellView, window: WindowId) -> bool {
    manager::home(shell.special, window) is Some || match shell.detach_window(window).1 {
        DetachStep::Done(Some(_)) => true,
        _ => false,
    }
}

/// A window that is sent ends up in the special it is sent to and in no
/// other: on no layout while that special is hidden, visible at once while it
/// is shown. All other windows stay parked where they were, and on the
/// layouts they were on. A window that no layout lets go stays where it is,
/// and nothing changes. The books stay in order, and the shell tidy.
///
/// A window that is not parked yet has to be on one layout at most, as the
/// compositor keeps it. A parked one may be on any.
pub proof fn law_sent_window_is_parked(shell: ShellView, idx: int, seat: Seat, window: WindowId)
    requires
        manager::one_home(shell.special),
        0 <= idx,
        manager::home(shell.special, window) is None ==> presence::on_one_layout(
            shell.sets,
            window,
        ),
    ensures
        ({
            let after = shell.send_settled(idx, seat, window).0;
            &&& others_stay(shell, after, window)
            &&& lets_go(shell, window) ==> parked(after, idx, window, seat.active_output)
            &&& !lets_go(shell, window) ==> after == shell
            &&& in_order(shell.special) ==> in_order(after.special)
            &&& tidy(shell) ==> tidy(after)
        }),
{
    let output = seat.active_output;
    presence::lemma_agree_reflexive(shell.sets);
    if manager::home(shell.special, window) is Some {
        lemma_moved_between_specials(shell, idx, seat, window);
    } else if shell.is_sticky(window) {
        if !transitions::is_maximized(shell.windows, window) {
            law_sent_sticky_window_is_parked(shell, idx, seat, window);
        }
    } else if shell.mapped_restore(window) is Some {
        let loosed = shell.unmapped(window);
        lemma_detach_window_nowhere(shell, window);
        lemma_sent_loosed(
            shell,
            loosed,
            idx,
            ShellView::new_entry(window, shell.mapped_restore(window)->0),
            output,
        );
    }
}

/// Delivering a window that has just left its layout.
proof fn lemma_sent_loosed(
    shell: ShellView,
    loosed: ShellView,
    idx: int,
    entry: SpecialWindow,
    output: OutputId,
)
    requires
        manager::one_home(shell.special),
        0 <= idx,
        manager::home(shell.special, entry.mapped) is None,
        entry.attached_to is None,
        left_its_layout(shell, loosed, entry.mapped),
    ensures
        ({
            let after = loosed.delivered(idx, entry, output);
            &&& parked(after, idx, entry.mapped, output)
            &&& others_stay(shell, after, entry.mapped)
            &&& in_order(shell.special) ==> in_order(after.special)
            &&& tidy(shell) ==> tidy(after)
        }),
{
    if tidy(shell) {
        lemma_unparked_tidy(shell, loosed, entry.mapped);
    }
    lemma_delivered(loosed, idx, entry, output);
    let after = loosed.delivered(idx, entry, output);
    assert forall|other: WindowId| other != entry.mapped implies manager::home(after.special, other)
        == #[trigger] manager::home(shell.special, other) && presence::agree(
        shell.sets,
        after.sets,
        other,
    ) by {
        assert(manager::home(after.special, other) == manager::home(loosed.special, other));
        assert(presence::agree(shell.sets, loosed.sets, other));
        presence::lemma_agree_transitive(shell.sets, loosed.sets, after.sets, other);
    }
}

/// Moving a parked window to a special.
proof fn lemma_moved_between_specials(shell: ShellView, idx: int, seat: Seat, window: WindowId)
    requires
        manager::one_home(shell.special),
        0 <= idx,
        manager::home(shell.special, window) is Some,
    ensures
        ({
            let after = shell.send_settled(idx, seat, window).0;
            &&& parked(after, idx, window, seat.active_output)
            &&& others_stay(shell, after, window)
            &&& in_order(shell.special) ==> in_order(after.special)
            &&& tidy(shell) ==> tidy(after)
        }),
{
    manager::lemma_home(shell.special, window);
    let k = manager::home(shell.special, window)->0;
    let x = seqs::first(shell.special[k].entries, manager::is_window(window))->0;
    let withdrawn = shell.withdrawn(window);
    lemma_withdrawn_entry(shell, window, k, x);
    presence::lemma_cleared(shell.sets, window);
    assert(laws::same_members(shell.special, withdrawn.special));
    lemma_reattached_homes(shell.special, withdrawn.special);
    assert(manager::home(withdrawn.special, window) == manager::home(shell.special, window));
    assert(withdrawn.special[k].entries[x].mapped == window);
    manager::lemma_home_is(withdrawn.special, window, k, x);
    let entry = manager::entry_of(withdrawn.special, window);
    assert(entry == withdrawn.special[k].entries[x]);
    lemma_taken(withdrawn, window);
    let taken = withdrawn.taken(window);
    if in_order(shell.special) {
        assert forall|i: int| 0 <= i < taken.special.len() && !(
        #[trigger] taken.special[i]).shown implies loose(taken.special[i]) by {
            assert(!withdrawn.special[i].shown && !shell.special[i].shown);
            assert(loose(shell.special[i]));
            assert forall|a: int| 0 <= a < taken.special[i].entries.len() implies (
            #[trigger] taken.special[i].entries[a]).attached_to is None by {
                let b = lemma_taken_entry(withdrawn, window, i, a);
                assert(shell.special[i].entries[b].attached_to is None);
                assert(withdrawn.special[i].entries[b].attached_to is None);
            }
        }
    }
    if tidy(shell) {
        manager::lemma_home(taken.special, window);
        assert forall|i: int, a: int|
            0 <= i < taken.special.len() && 0 <= a < taken.special[i].entries.len()
                && manager::is_alive(
                taken.windows,
                (#[trigger] taken.special[i].entries[a]).mapped,
            ) implies accounted_for(taken.sets, taken.special[i].entries[a]) by {
            let here = taken.special[i].entries[a];
            let b = lemma_taken_entry(withdrawn, window, i, a);
            assert(!manager::holds(taken.special[i], window));
            assert(here.mapped != window);
            assert(withdrawn.special[i].entries[b] == shell.special[i].entries[b]);
            assert(manager::is_alive(shell.windows, shell.special[i].entries[b].mapped));
            assert(presence::agree(shell.sets, taken.sets, here.mapped));
            lemma_agree_accounted(shell.sets, taken.sets, here);
        }
    }
    lemma_delivered(taken, idx, entry, seat.active_output);
    let after = taken.delivered(idx, entry, seat.active_output);
    assert forall|other: WindowId| other != window implies manager::home(after.special, other)
        == #[trigger] manager::home(shell.special, other) && presence::agree(
        shell.sets,
        after.sets,
        other,
    ) by {
        assert(manager::home(after.special, other) == manager::home(taken.special, other));
        assert(manager::home(taken.special, other) == manager::home(withdrawn.special, other));
        assert(manager::home(withdrawn.special, other) == manager::home(shell.special, other));
        assert(presence::agree(shell.sets, withdrawn.sets, other));
        presence::lemma_agree_transitive(shell.sets, withdrawn.sets, after.sets, other);
    }
}

/// A sticky window that had to be unmaximized first is parked like any other.
pub proof fn law_sent_sticky_window_is_parked(
    shell: ShellView,
    idx: int,
    seat: Seat,
    window: WindowId,
)
    requires
        manager::one_home(shell.special),
        0 <= idx,
        manager::home(shell.special, window) is None,
        presence::on_one_layout(shell.sets, window),
    ensures
        ({
            let after = shell.send_unmaximized(idx, seat, window).0;
            &&& others_stay(shell, after, window)
            &&& shell.is_sticky(window) ==> parked(after, idx, window, seat.active_output)
            &&& !shell.is_sticky(window) ==> after == shell
            &&& in_order(shell.special) ==> in_order(after.special)
            &&& tidy(shell) ==> tidy(after)
        }),
{
    presence::lemma_agree_reflexive(shell.sets);
    if shell.is_sticky(window) {
        lemma_detach_window_nowhere(shell, window);
        lemma_sent_loosed(
            shell,
            shell.unstuck(window),
            idx,
            ShellView::new_entry(window, shell.sticky_restore(window)->0),
            seat.active_output,
        );
    }
}

/// Sending the focused window keeps the books in order, and the shell tidy.
pub proof fn law_send_keeps_tidy(shell: ShellView, idx: int, seat: Seat)
    requires
        in_order(shell.special),
        0 <= idx,
        seat.focus matches Some(KeyboardFocusTarget::Element(window)) ==> manager::home(
            shell.buried().special,
            window,
        ) is None ==> presence::on_one_layout(shell.sets, window),
    ensures
        in_order(shell.send_current(idx, seat).0.special),
        tidy(shell) ==> tidy(shell.send_current(idx, seat).0),
{
    let buried = shell.buried();
    lemma_ready(shell, idx);
    if seat.focus is Some && seat.focus->0 is Element {
        let window = seat.focus->0->Element_0;
        law_sent_window_is_parked(buried, idx, seat, window);
    }
}

/// A shell without parked windows is tidy.
pub proof fn law_empty_specials_are_tidy(shell: ShellView)
    requires
        forall|i: int|
            0 <= i < shell.special.len() ==> (#[trigger] shell.special[i]).entries.len() == 0,
    ensures
        tidy(shell),
{
}

/// A window that closes keeps the shell tidy, whether it is parked or not:
/// its entry goes with the next call.
pub proof fn law_closing_a_window_keeps_tidy(before: ShellView, after: ShellView, window: WindowId)
    requires
        tidy(before),
        after.special == before.special,
        !manager::is_alive(after.windows, window),
        forall|other: WindowId|
            other != window ==> #[trigger] presence::agree(before.sets, after.sets, other),
        forall|other: WindowId| #[trigger]
            manager::is_alive(after.windows, other) ==> manager::is_alive(before.windows, other),
    ensures
        tidy(after),
{
    assert forall|i: int, a: int|
        0 <= i < after.special.len() && 0 <= a < after.special[i].entries.len()
            && manager::is_alive(
            after.windows,
            (#[trigger] after.special[i].entries[a]).mapped,
        ) implies accounted_for(after.sets, after.special[i].entries[a]) by {
        let entry = before.special[i].entries[a];
        assert(manager::is_alive(before.windows, entry.mapped));
        assert(presence::agree(before.sets, after.sets, entry.mapped));
        lemma_agree_accounted(before.sets, after.sets, entry);
    }
}

/// An output that goes away with its workspaces keeps the shell tidy: windows
/// that were visible there are on no layout then.
pub proof fn law_removing_an_output_keeps_tidy(shell: ShellView, k: int)
    requires
        tidy(shell),
        0 <= k < shell.sets.len(),
        forall|i: int, j: int, l: int|
            0 <= i < shell.sets.len() && i != k && 0 <= j < shell.sets[i].workspaces.len() && 0
                <= l < shell.sets[k].workspaces.len() ==> (
            #[trigger] shell.sets[i].workspaces[j]).handle != (
            #[trigger] shell.sets[k].workspaces[l]).handle,
    ensures
        tidy(ShellView { sets: shell.sets.remove(k), ..shell }),
{
    let after = ShellView { sets: shell.sets.remove(k), ..shell };
    assert forall|i: int, a: int|
        0 <= i < after.special.len() && 0 <= a < after.special[i].entries.len()
            && manager::is_alive(
            after.windows,
            (#[trigger] after.special[i].entries[a]).mapped,
        ) implies accounted_for(after.sets, after.special[i].entries[a]) by {
        let entry = shell.special[i].entries[a];
        assert(accounted_for(shell.sets, entry));
        lemma_removed_accounted(shell.sets, k, entry);
    }
}

/// An entry stays accounted for where an output goes away.
proof fn lemma_removed_accounted(sets: Seq<SetView>, k: int, entry: SpecialWindow)
    requires
        accounted_for(sets, entry),
        0 <= k < sets.len(),
        forall|i: int, j: int, l: int|
            0 <= i < sets.len() && i != k && 0 <= j < sets[i].workspaces.len() && 0 <= l
                < sets[k].workspaces.len() ==> (#[trigger] sets[i].workspaces[j]).handle != (
            #[trigger] sets[k].workspaces[l]).handle,
    ensures
        accounted_for(sets.remove(k), entry),
{
    let after = sets.remove(k);
    let w = entry.mapped;
    assert forall|i: int| 0 <= i < after.len() implies #[trigger] after[i] == (if i < k {
        sets[i]
    } else {
        sets[i + 1]
    }) by {}
    if entry.attached_to is Some {
        let handle = entry.attached_to->0;
        if workspaces::has_handle(sets, handle) {
            let place = choose|place: Place| #[trigger]
                presence::afloat_at(sets, place, w) && workspaces::at(sets, place).handle == handle;
            if place.set == k {
                assert(!workspaces::has_handle(after, handle)) by {
                    if workspaces::has_handle(after, handle) {
                        let (i, j) = choose|i: int, j: int|
                            0 <= i < after.len() && 0 <= j < after[i].workspaces.len() && (
                            #[trigger] after[i].workspaces[j]).handle == handle;
                        let o = if i < k {
                            i
                        } else {
                            i + 1
                        };
                        assert(sets[o].workspaces[j].handle
                            != sets[k].workspaces[place.workspace].handle);
                    }
                }
                assert(presence::nowhere(after, w)) by {
                    lemma_removed_elsewhere(sets, k, w, place);
                }
            } else {
                let moved = Place {
                    set: if place.set < k {
                        place.set
                    } else {
                        place.set - 1
                    },
                    workspace: place.workspace,
                };
                lemma_removed_elsewhere(sets, k, w, place);
                assert(after[moved.set] == sets[place.set]);
                assert(after[moved.set].workspaces[moved.workspace].handle == handle);
                assert(presence::afloat_at(after, moved, w));
                assert(workspaces::at(after, moved).handle == handle);
            }
        } else {
            if workspaces::has_handle(after, handle) {
                let (i, j) = choose|i: int, j: int|
                    0 <= i < after.len() && 0 <= j < after[i].workspaces.len() && (
                    #[trigger] after[i].workspaces[j]).handle == handle;
                let o = if i < k {
                    i
                } else {
                    i + 1
                };
                assert(sets[o].workspaces[j].handle == handle);
            }
            lemma_removed_elsewhere(sets, k, w, Place { set: k, workspace: 0 });
        }
    } else {
        lemma_removed_elsewhere(sets, k, w, Place { set: k, workspace: 0 });
    }
}

/// Where an output goes away, a window is known on the others as before.
proof fn lemma_removed_elsewhere(sets: Seq<SetView>, k: int, window: WindowId, place: Place)
    requires
        0 <= k < sets.len(),
        presence::never_sticky(sets, window),
        forall|i: int, j: int|
            0 <= i < sets.len() && 0 <= j < sets[i].workspaces.len() && presence::knows(
                #[trigger] sets[i].workspaces[j],
                window,
            ) ==> i == place.set && j == place.workspace,
    ensures
        presence::never_sticky(sets.remove(k), window),
        forall|i: int, j: int|
            0 <= i < sets.remove(k).len() && 0 <= j < sets.remove(k)[i].workspaces.len()
                && presence::knows(#[trigger] sets.remove(k)[i].workspaces[j], window) ==> i == (
            if place.set < k {
                place.set
            } else {
                place.set - 1
            }) && j == place.workspace && place.set != k,
{
    let after = sets.remove(k);
    assert forall|i: int| 0 <= i < after.len() implies !model::sticky_has(
        (#[trigger] after[i]).sticky_layer,
        window,
    ) by {
        assert(after[i] == (if i < k {
            sets[i]
        } else {
            sets[i + 1]
        }));
    }
    assert forall|i: int, j: int|
        0 <= i < after.len() && 0 <= j < after[i].workspaces.len() && presence::knows(
            #[trigger] after[i].workspaces[j],
            window,
        ) implies i == (if place.set < k {
        place.set
    } else {
        place.set - 1
    }) && j == place.workspace && place.set != k by {
        let o = if i < k {
            i
        } else {
            i + 1
        };
        assert(after[i] == sets[o]);
        assert(presence::knows(sets[o].workspaces[j], window));
    }
}

} // verus!
