//! What holds of the special workspaces whatever is done to them.

use vstd::prelude::*;

use crate::manager;
use crate::manager::{SpecialWindow, Specials};
use crate::model::{
    FocusTarget, KeyboardFocusTarget, OutputId, Seat, SeatId, SetView, WindowId,
};
use crate::seqs;
use crate::store::StoreView;
use crate::transitions;
use crate::transitions::{Attachment, SendStage, SendStep, ShellView};
use crate::workspaces;
use crate::workspaces::Place;

verus! {

/// Whether the specials have the same windows, in the same order.
pub open spec fn same_members(a: Specials, b: Specials) -> bool {
    &&& a.len() == b.len()
    &&& forall|i: int|
        0 <= i < a.len() ==> (#[trigger] a[i]).entries.len() == b[i].entries.len()
    &&& forall|i: int, k: int|
        0 <= i < a.len() && 0 <= k < a[i].entries.len() ==> (#[trigger] a[i].entries[k]).mapped
            == b[i].entries[k].mapped
}

/// Whether the specials have the same windows and visibility, and only
/// special `k` differs at all.
pub open spec fn only_differs(a: Specials, b: Specials, k: int) -> bool {
    &&& same_members(a, b)
    &&& forall|i: int| 0 <= i < a.len() ==> (#[trigger] a[i]).shown == b[i].shown
    &&& forall|i: int| 0 <= i < a.len() && i != k ==> #[trigger] a[i] == b[i]
}

/// A window is parked where it was.
pub proof fn lemma_same_members_home(a: Specials, b: Specials, window: WindowId)
    requires
        same_members(a, b),
    ensures
        manager::home(a, window) == manager::home(b, window),
{
    assert forall|i: int| 0 <= i < a.len() implies #[trigger] manager::holds(a[i], window)
        == manager::holds(b[i], window) by {
        if manager::holds(a[i], window) {
            let k = choose|k: int|
                0 <= k < a[i].entries.len() && (#[trigger] a[i].entries[k]).mapped == window;
            assert(b[i].entries[k].mapped == window);
        }
        if manager::holds(b[i], window) {
            let k = choose|k: int|
                0 <= k < b[i].entries.len() && (#[trigger] b[i].entries[k]).mapped == window;
            assert(a[i].entries[k].mapped == window);
        }
    }
    let p = manager::holding(window);
    seqs::lemma_first(a, p);
    seqs::lemma_first(b, p);
    if manager::home(a, window) is Some {
        let k = manager::home(a, window)->0;
        assert(manager::holds(a[k], window));
        assert forall|j: int| 0 <= j < k implies !p(#[trigger] b[j]) by {
            assert(!p(a[j]));
        }
        seqs::lemma_first_at(b, p, k);
    } else {
        assert forall|j: int| 0 <= j < b.len() implies !p(#[trigger] b[j]) by {
            assert(!p(a[j]));
        }
        seqs::lemma_first_none(b, p);
    }
}

/// Each window keeps its one home.
pub proof fn lemma_same_members_one_home(a: Specials, b: Specials)
    requires
        same_members(a, b),
        manager::one_home(a),
    ensures
        manager::one_home(b),
{
    assert forall|i: int, x: int, j: int, y: int|
        0 <= i < b.len() && 0 <= x < b[i].entries.len() && 0 <= j < b.len() && 0 <= y
            < b[j].entries.len() && (#[trigger] b[i].entries[x]).mapped == (
        #[trigger] b[j].entries[y]).mapped implies i == j && x == y by {
        assert(a[i].entries[x].mapped == a[j].entries[y].mapped);
    }
}

/// Replacing the entry of a window by another entry of it touches the special
/// that holds it alone.
proof fn lemma_with_entry_differs(specials: Specials, window: WindowId, entry: SpecialWindow)
    requires
        manager::home(specials, window) is Some,
        entry.mapped == window,
    ensures
        only_differs(
            specials,
            manager::with_entry(specials, window, entry),
            manager::home(specials, window)->0,
        ),
{
    manager::lemma_home(specials, window);
}

/// Withdrawing a window touches the special that holds it alone.
proof fn lemma_withdrawn_differs(shell: ShellView, window: WindowId, k: int)
    requires
        manager::home(shell.special, window) == Some(k),
    ensures
        only_differs(shell.special, shell.withdrawn(window).special, k),
{
    manager::lemma_home(shell.special, window);
    lemma_with_entry_differs(
        shell.special,
        window,
        SpecialWindow { attached_to: None, ..manager::entry_of(shell.special, window) },
    );
}

/// Attaching a window touches the special that holds it alone.
proof fn lemma_attached_differs(shell: ShellView, window: WindowId, output: OutputId, k: int)
    requires
        manager::home(shell.special, window) == Some(k),
    ensures
        only_differs(shell.special, shell.attached(window, output).special, k),
{
    manager::lemma_home(shell.special, window);
    if workspaces::active_place(shell.sets, output) is Some {
        let handle = workspaces::at(
            shell.sets,
            workspaces::active_place(shell.sets, output)->0,
        ).handle;
        lemma_with_entry_differs(
            shell.special,
            window,
            SpecialWindow { attached_to: Some(handle), ..manager::entry_of(shell.special, window) },
        );
        transitions::lemma_attachment_home(shell.special, window, Some(handle));
    }
}

/// Giving a window its maximized state back touches the special that holds it
/// alone.
proof fn lemma_remaximized_differs(shell: ShellView, window: WindowId, k: int)
    requires
        manager::home(shell.special, window) == Some(k),
    ensures
        only_differs(shell.special, shell.remaximized(window).special, k),
{
    manager::lemma_home(shell.special, window);
    let entry = manager::entry_of(shell.special, window);
    if manager::was_maximized(shell.special, window) {
        lemma_with_entry_differs(
            shell.special,
            window,
            SpecialWindow { restore: Some(entry.restore->0.unmaximized()), ..entry },
        );
    }
}

/// Withdrawing windows of special `k` touches special `k` alone.
proof fn lemma_withdrawn_each_differs(shell: ShellView, windows: Seq<WindowId>, k: int)
    requires
        forall|a: int|
            0 <= a < windows.len() ==> manager::home(shell.special, #[trigger] windows[a]) == Some(
                k,
            ),
    ensures
        only_differs(shell.special, shell.withdrawn_each(windows).special, k),
    decreases windows.len(),
{
    if windows.len() > 0 {
        let rest = windows.drop_last();
        assert forall|a: int| 0 <= a < rest.len() implies manager::home(
            shell.special,
            #[trigger] rest[a],
        ) == Some(k) by {
            assert(rest[a] == windows[a]);
        }
        lemma_withdrawn_each_differs(shell, rest, k);
        let mid = shell.withdrawn_each(rest);
        lemma_same_members_home(shell.special, mid.special, windows.last());
        lemma_withdrawn_differs(mid, windows.last(), k);
    }
}

/// Attaching windows of special `k` touches special `k` alone.
proof fn lemma_attached_each_differs(
    shell: ShellView,
    windows: Seq<WindowId>,
    output: OutputId,
    k: int,
)
    requires
        forall|a: int|
            0 <= a < windows.len() ==> manager::home(shell.special, #[trigger] windows[a]) == Some(
                k,
            ),
    ensures
        only_differs(shell.special, shell.attached_each(windows, output).special, k),
    decreases windows.len(),
{
    if windows.len() > 0 {
        let rest = windows.drop_last();
        assert forall|a: int| 0 <= a < rest.len() implies manager::home(
            shell.special,
            #[trigger] rest[a],
        ) == Some(k) by {
            assert(rest[a] == windows[a]);
        }
        lemma_attached_each_differs(shell, rest, output, k);
        let mid = shell.attached_each(rest, output);
        lemma_same_members_home(shell.special, mid.special, windows.last());
        lemma_attached_differs(mid, windows.last(), output, k);
    }
}

/// Giving windows of special `k` their maximized state back touches special
/// `k` alone.
proof fn lemma_remaximized_each_differs(shell: ShellView, windows: Seq<WindowId>, k: int)
    requires
        forall|a: int|
            0 <= a < windows.len() ==> manager::home(shell.special, #[trigger] windows[a]) == Some(
                k,
            ),
    ensures
        only_differs(shell.special, shell.remaximized_each(windows).special, k),
    decreases windows.len(),
{
    if windows.len() > 0 {
        let rest = windows.drop_last();
        assert forall|a: int| 0 <= a < rest.len() implies manager::home(
            shell.special,
            #[trigger] rest[a],
        ) == Some(k) by {
            assert(rest[a] == windows[a]);
        }
        lemma_remaximized_each_differs(shell, rest, k);
        let mid = shell.remaximized_each(rest);
        lemma_same_members_home(shell.special, mid.special, windows.last());
        lemma_remaximized_differs(mid, windows.last(), k);
    }
}

/// Noting which window has the keyboard changes what focus returns to in
/// special `idx` alone.
pub proof fn lemma_focus_noted(shell: ShellView, idx: int, focus: Option<KeyboardFocusTarget>)
    requires
        0 <= idx < shell.special.len(),
    ensures
        ({
            let after = shell.with_focus_noted(idx, focus);
            &&& after == (ShellView { special: after.special, ..shell })
            &&& after.special.len() == shell.special.len()
            &&& forall|i: int|
                0 <= i < shell.special.len() && i != idx ==> #[trigger] after.special[i]
                    == shell.special[i]
            &&& after.special[idx].entries == shell.special[idx].entries
            &&& after.special[idx].shown == shell.special[idx].shown
        }),
{
}

/// Withdrawing windows keeps what focus returns to.
pub proof fn lemma_withdrawn_each_focus(shell: ShellView, windows: Seq<WindowId>)
    ensures
        ({
            let after = shell.withdrawn_each(windows).special;
            &&& after.len() == shell.special.len()
            &&& forall|i: int|
                0 <= i < after.len() ==> (#[trigger] after[i]).last_focused
                    == shell.special[i].last_focused
        }),
    decreases windows.len(),
{
    if windows.len() > 0 {
        lemma_withdrawn_each_focus(shell, windows.drop_last());
        let mid = shell.withdrawn_each(windows.drop_last());
        manager::lemma_home(mid.special, windows.last());
    }
}

/// A window asked of a special is a member of it that fits.
pub proof fn lemma_window_asked(which: Attachment, special: StoreView<SpecialWindow>, w: int) -> (a: int)
    requires
        0 <= w < which.windows(special).len(),
    ensures
        0 <= a < special.entries.len(),
        special.entries[a].mapped == which.windows(special)[w],
        which.fits(special.entries[a]),
{
    let p = which.entries();
    let fitting = special.entries.filter(p);
    seqs::lemma_filter_from(special.entries, p, w);
    choose|a: int| 0 <= a < special.entries.len() && #[trigger] special.entries[a] == fitting[w]
}

/// Every member of a special that fits is asked for.
pub proof fn lemma_fitting_asked(which: Attachment, special: StoreView<SpecialWindow>, a: int)
    requires
        0 <= a < special.entries.len(),
        which.fits(special.entries[a]),
    ensures
        which.windows(special).contains(special.entries[a].mapped),
{
    let p = which.entries();
    let fitting = special.entries.filter(p);
    seqs::lemma_filter_keeps(special.entries, p, a);
    let w = choose|w: int| 0 <= w < fitting.len() && #[trigger] fitting[w] == special.entries[a];
    assert(which.windows(special)[w] == special.entries[a].mapped);
}

/// The windows asked of special `k` have their home there.
pub proof fn lemma_windows_home(specials: Specials, which: Attachment, k: int)
    requires
        manager::one_home(specials),
        0 <= k < specials.len(),
    ensures
        forall|w: int|
            0 <= w < which.windows(specials[k]).len() ==> manager::home(
                specials,
                #[trigger] which.windows(specials[k])[w],
            ) == Some(k),
{
    let windows = which.windows(specials[k]);
    assert forall|w: int| 0 <= w < windows.len() implies manager::home(
        specials,
        #[trigger] windows[w],
    ) == Some(k) by {
        let a = lemma_window_asked(which, specials[k], w);
        manager::lemma_home_is(specials, windows[w], k, a);
    }
}

/// The shell that toggling special `idx` starts from keeps one home for every
/// window.
pub proof fn lemma_ready_one_home(shell: ShellView, idx: int)
    requires
        manager::one_home(shell.special),
        0 <= idx,
    ensures
        manager::one_home(shell.buried().grown(idx).special),
        idx < shell.buried().grown(idx).special.len(),
{
    manager::lemma_without_dead_one_home(shell.special, shell.windows);
    transitions::lemma_grown_one_home(shell.buried().special, idx);
}

/// Toggling special `idx` flips its visibility, keeps the windows of every
/// special in their order, and changes nothing else of the other specials.
pub proof fn law_toggle_flips_one_special(shell: ShellView, idx: int, seat: Seat)
    requires
        manager::one_home(shell.special),
        0 <= idx,
    ensures
        ({
            let before = shell.buried().grown(idx).special;
            let after = shell.toggled(idx, seat).special;
            &&& after[idx].shown == !before[idx].shown
            &&& same_members(before, after)
            &&& forall|i: int| 0 <= i < before.len() && i != idx ==> #[trigger] after[i] == before[i]
        }),
{
    let ready = shell.buried().grown(idx);
    let output = seat.active_output;
    lemma_ready_one_home(shell, idx);
    if ready.special[idx].shown {
        let start = ready.with_shown(idx, false).with_focus_noted(idx, seat.focus);
        lemma_focus_noted(ready.with_shown(idx, false), idx, seat.focus);
        assert(same_members(ready.special, start.special));
        lemma_same_members_one_home(ready.special, start.special);
        let windows = Attachment::Any.windows(start.special[idx]);
        lemma_windows_home(start.special, Attachment::Any, idx);
        lemma_withdrawn_each_differs(start, windows, idx);
    } else {
        let start = ready.with_shown(idx, true);
        assert(same_members(ready.special, start.special));
        lemma_same_members_one_home(ready.special, start.special);
        let windows = Attachment::Detached.windows(start.special[idx]);
        assert(windows =~= Attachment::Detached.windows(ready.special[idx]));
        lemma_windows_home(start.special, Attachment::Detached, idx);
        lemma_attached_each_differs(start, windows, output, idx);
        let placed = start.attached_each(windows, output);
        assert forall|w: int| 0 <= w < windows.len() implies manager::home(
            placed.special,
            #[trigger] windows[w],
        ) == Some(idx) by {
            lemma_same_members_home(start.special, placed.special, windows[w]);
        }
        lemma_remaximized_each_differs(placed, windows, idx);
    }
}

/// Toggling twice brings the visibility back, with the same windows, as long
/// as none of them dies.
pub proof fn law_toggle_twice_restores_visibility(
    shell: ShellView,
    idx: int,
    first: Seat,
    second: Seat,
)
    requires
        manager::one_home(shell.special),
        0 <= idx < shell.special.len(),
        forall|i: int, a: int|
            0 <= i < shell.special.len() && 0 <= a < shell.special[i].entries.len()
                ==> manager::is_alive(
                shell.windows,
                (#[trigger] shell.special[i].entries[a]).mapped,
            ),
    ensures
        ({
            let twice = shell.toggled(idx, first).toggled(idx, second).special;
            &&& twice[idx].shown == shell.special[idx].shown
            &&& same_members(shell.special, twice)
        }),
{
    law_toggle_flips_one_special(shell, idx, first);
    let once = shell.toggled(idx, first);
    lemma_all_alive(shell, idx);
    lemma_toggled_windows(shell, idx, first);
    lemma_ready_one_home(shell, idx);
    lemma_same_members_one_home(shell.buried().grown(idx).special, once.special);
    assert forall|i: int, a: int|
        0 <= i < once.special.len() && 0 <= a
            < once.special[i].entries.len() implies manager::is_alive(
        once.windows,
        (#[trigger] once.special[i].entries[a]).mapped,
    ) by {
        assert(shell.special[i].entries[a].mapped == once.special[i].entries[a].mapped);
    }
    lemma_all_alive(once, idx);
    law_toggle_flips_one_special(once, idx, second);
}

/// Where every parked window lives and the special exists, there is nothing
/// to make ready.
proof fn lemma_all_alive(shell: ShellView, idx: int)
    requires
        0 <= idx < shell.special.len(),
        forall|i: int, a: int|
            0 <= i < shell.special.len() && 0 <= a < shell.special[i].entries.len()
                ==> manager::is_alive(
                shell.windows,
                (#[trigger] shell.special[i].entries[a]).mapped,
            ),
    ensures
        shell.buried().grown(idx) == shell,
{
    assert forall|i: int| 0 <= i < shell.special.len() implies (
    #[trigger] shell.special[i]).entries.filter(manager::alive_in(shell.windows))
        == shell.special[i].entries by {
        seqs::lemma_filter_all(shell.special[i].entries, manager::alive_in(shell.windows));
    }
    assert(shell.buried().special =~~= shell.special);
}

/// Toggling leaves the compositor's windows as they are.
pub proof fn lemma_toggled_windows(shell: ShellView, idx: int, seat: Seat)
    ensures
        shell.toggled(idx, seat).windows == shell.windows,
{
    let ready = shell.buried().grown(idx);
    let output = seat.active_output;
    let hidden = ready.with_shown(idx, false).with_focus_noted(idx, seat.focus);
    lemma_each_windows(hidden, Attachment::Any.windows(hidden.special[idx]), output);
    let windows = Attachment::Detached.windows(ready.with_shown(idx, true).special[idx]);
    lemma_each_windows(ready.with_shown(idx, true), windows, output);
    lemma_each_windows(
        ready.placed(idx, output),
        Attachment::Detached.windows(ready.special[idx]),
        output,
    );
}

/// Withdrawing, attaching and maximizing leave the compositor's windows as
/// they are.
proof fn lemma_each_windows(shell: ShellView, windows: Seq<WindowId>, output: OutputId)
    ensures
        shell.withdrawn_each(windows).windows == shell.windows,
        shell.attached_each(windows, output).windows == shell.windows,
        shell.remaximized_each(windows).windows == shell.windows,
    decreases windows.len(),
{
    if windows.len() > 0 {
        lemma_each_windows(shell, windows.drop_last(), output);
    }
}

/// Showing a special without windows changes its visibility alone and gives
/// no focus target.
pub proof fn law_showing_an_empty_special_is_a_no_op(
    shell: ShellView,
    idx: int,
    seat: Seat,
)
    requires
        0 <= idx,
        !shell.buried().grown(idx).special[idx].shown,
        shell.buried().grown(idx).special[idx].entries.len() == 0,
    ensures
        shell.toggled(idx, seat) == shell.buried().grown(idx).with_shown(idx, true),
        shell.toggle_focus(idx, seat) is None,
{
    transitions::lemma_show_empty(shell.buried().grown(idx), idx, seat.active_output);
}

/// The maximized state captured when a window was sent is given back once: a
/// second time there is nothing to give.
pub proof fn law_maximized_state_is_restored_once(shell: ShellView, window: WindowId)
    ensures
        !manager::was_maximized(shell.remaximized(window).special, window),
        shell.remaximized(window).remaximized(window) == shell.remaximized(window),
{
    let specials = shell.special;
    if manager::was_maximized(specials, window) {
        manager::lemma_home(specials, window);
        let after = manager::maximized_taken(specials, window);
        let k = manager::home(specials, window)->0;
        let p = manager::is_window(window);
        let a = seqs::first(specials[k].entries, p)->0;
        let entry = manager::entry_of(specials, window);
        lemma_with_entry_differs(
            specials,
            window,
            SpecialWindow { restore: Some(entry.restore->0.unmaximized()), ..entry },
        );
        lemma_same_members_home(specials, after, window);
        seqs::lemma_first(specials[k].entries, p);
        assert forall|b: int| 0 <= b < a implies !p(#[trigger] after[k].entries[b]) by {
            assert(!p(specials[k].entries[b]));
        }
        assert(after[k].entries[a].mapped == window);
        seqs::lemma_first_at(after[k].entries, p, a);
        assert(manager::entry_of(after, window) == after[k].entries[a]);
    }
}

/// Once attachments were revalidated each of them is to a workspace that
/// exists. The windows stay parked where they were, valid attachments are
/// kept, and there is nothing left to revalidate.
pub proof fn law_revalidated_attachments_exist(specials: Specials, sets: Seq<SetView>)
    ensures
        ({
            let after = transitions::revalidated(specials, sets);
            &&& same_members(specials, after)
            &&& transitions::revalidated(after, sets) == after
            &&& forall|i: int, a: int|
                0 <= i < after.len() && 0 <= a < after[i].entries.len() ==> (
                #[trigger] after[i].entries[a]).attached_to == (match specials[i].entries[a].attached_to {
                    Some(handle) => if workspaces::has_handle(sets, handle) {
                        Some(handle)
                    } else {
                        None
                    },
                    None => None,
                })
        }),
{
    let after = transitions::revalidated(specials, sets);
    assert(transitions::revalidated(after, sets) =~~= after);
}

/// Where the focus stack of the active workspace holds a regular window, the
/// keyboard goes to the most recently focused one: neither a window parked in
/// a special nor a fullscreen surface.
pub proof fn law_focus_candidate_is_regular(
    shell: ShellView,
    seat: SeatId,
    output: OutputId,
    place: Place,
    i: int,
)
    requires
        workspaces::active_place(shell.sets, output) == Some(place),
        0 <= i < workspaces::at(shell.sets, place).targets_of(seat).len(),
        !transitions::is_excluded(
            shell.special,
            workspaces::at(shell.sets, place).targets_of(seat)[i],
        ),
    ensures
        match shell.focus_candidate(seat, output) {
            Some(KeyboardFocusTarget::Element(window)) => {
                let stack = workspaces::at(shell.sets, place).targets_of(seat);
                &&& manager::home(shell.special, window) is None
                &&& exists|j: int|
                    0 <= j <= i && #[trigger] stack[j] == FocusTarget::Window(window)
            },
            _ => false,
        },
{
    let stack = workspaces::at(shell.sets, place).targets_of(seat);
    let p = transitions::eligible(shell.special);
    seqs::lemma_first(stack, p);
    assert(p(stack[i]));
    let j = seqs::first(stack, p)->0;
    assert(p(stack[j]));
}

/// A window that is mapped fullscreen is left as it is until the compositor
/// unfullscreened it. Where the keyboard pointed at the fullscreen surface
/// itself and no window comes back, the send is refused.
pub proof fn law_fullscreen_is_left_before_sending(
    shell: ShellView,
    idx: int,
    seat: Seat,
    window: WindowId,
    reply: Option<KeyboardFocusTarget>,
)
    ensures
        shell.fullscreen_surface(window) is Some ==> shell.send_window(idx, seat, window) == (
            shell,
            SendStep::Unfullscreen {
                surface: shell.fullscreen_surface(window)->0,
                stage: SendStage::Mapped(window),
            },
        ),
        !(reply is Some && reply->0 is Element) ==> shell.send_unfullscreened(
            idx,
            seat,
            SendStage::Focused,
            reply,
        ) == (shell, SendStep::Done(None)),
{
}

} // verus!
