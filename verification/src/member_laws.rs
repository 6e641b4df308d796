//! What the books say of the parked windows, in terms of the entries
//! themselves.

use vstd::prelude::*;
use vstd::std_specs::cmp::PartialEqSpec;

use crate::manager;
use crate::manager::{SpecialWindow, Specials};
use crate::model::{
    FloatingRestoreData, FocusTarget, KeyboardFocusTarget, TilingRestoreData, WindowId, WindowState,
    WorkspaceHandle, WorkspaceRestoreData,
};
use crate::seqs;
use crate::store;
use crate::store::StoreView;
use crate::transitions;
use crate::transitions::Attachment;

verus! {

/// No two entries are of one window.
pub open spec fn parked_once(specials: Specials) -> bool {
    forall|i: int, a: int, j: int, b: int|
        0 <= i < specials.len() && 0 <= a < specials[i].entries.len() && 0 <= j < specials.len()
            && 0 <= b < specials[j].entries.len() && !(i == j && a == b) ==> (
        #[trigger] specials[i].entries[a]).mapped != (#[trigger] specials[j].entries[b]).mapped
}

/// The client of `window` is there.
pub open spec fn lives(windows: Seq<WindowState>, window: WindowId) -> bool {
    exists|n: int| 0 <= n < windows.len() && (#[trigger] windows[n]).id == window && windows[n].alive
}

/// The entries of windows that live, in order.
pub open spec fn live(entries: Seq<SpecialWindow>, windows: Seq<WindowState>) -> Seq<SpecialWindow> {
    entries.filter(|e: SpecialWindow| lives(windows, e.mapped))
}

/// The state to restore says that the window was maximized.
pub open spec fn says_maximized(entry: SpecialWindow) -> bool {
    match entry.restore {
        Some(WorkspaceRestoreData::Floating(f)) => f.was_maximized,
        Some(WorkspaceRestoreData::Tiling(t)) => t.was_maximized,
        _ => false,
    }
}

/// The state to restore, with the window not maximized.
pub open spec fn not_maximized(restore: Option<WorkspaceRestoreData>) -> Option<
    WorkspaceRestoreData,
> {
    match restore {
        Some(WorkspaceRestoreData::Floating(f)) => Some(
            WorkspaceRestoreData::Floating(
                FloatingRestoreData {
                    geometry: f.geometry,
                    output_size: f.output_size,
                    was_maximized: false,
                    was_snapped: f.was_snapped,
                },
            ),
        ),
        Some(WorkspaceRestoreData::Tiling(t)) => Some(
            WorkspaceRestoreData::Tiling(TilingRestoreData { state: t.state, was_maximized: false }),
        ),
        other => other,
    }
}

/// Every window has one home exactly where no two entries are of one window.
pub proof fn law_one_home_is_one_entry(specials: Specials)
    ensures
        manager::one_home(specials) <==> parked_once(specials),
{
}

/// A window is found at its first entry, in the first special that has one;
/// it is found nowhere only where no special has an entry of it.
pub proof fn law_parked_window_is_found(specials: Specials, window: WindowId, i: int, a: int)
    ensures
        0 <= i < specials.len() && 0 <= a < specials[i].entries.len()
            && specials[i].entries[a].mapped == window && (forall|b: int|
            0 <= b < a ==> (#[trigger] specials[i].entries[b]).mapped != window) && (forall|
            k: int,
            b: int,
        |
            0 <= k < i && 0 <= b < specials[k].entries.len() ==> (
            #[trigger] specials[k].entries[b]).mapped != window) ==> manager::home(specials, window)
            == Some(i) && manager::entry_of(specials, window) == specials[i].entries[a]
            && seqs::first(specials[i].entries, manager::is_window(window)) == Some(a),
        (forall|k: int, b: int|
            0 <= k < specials.len() && 0 <= b < specials[k].entries.len() ==> (
            #[trigger] specials[k].entries[b]).mapped != window) ==> manager::home(specials, window)
            is None,
{
    manager::lemma_home(specials, window);
    if 0 <= i < specials.len() && 0 <= a < specials[i].entries.len()
        && specials[i].entries[a].mapped == window && (forall|b: int|
        0 <= b < a ==> (#[trigger] specials[i].entries[b]).mapped != window) && (forall|
        k: int,
        b: int,
    |
        0 <= k < i && 0 <= b < specials[k].entries.len() ==> (
        #[trigger] specials[k].entries[b]).mapped != window) {
        let p = manager::is_window(window);
        assert(seqs::is_first(specials[i].entries, p, a));
        seqs::lemma_first_at(specials[i].entries, p, a);
        assert(manager::holds(specials[i], window));
        assert(seqs::is_first(specials, manager::holding(window), i));
        seqs::lemma_first_at(specials, manager::holding(window), i);
    }
}

/// With one entry for every window, an entry of a window is the one found.
pub proof fn law_the_entry_is_found(specials: Specials, i: int, a: int)
    requires
        parked_once(specials),
        0 <= i < specials.len(),
        0 <= a < specials[i].entries.len(),
    ensures
        manager::home(specials, specials[i].entries[a].mapped) == Some(i),
        manager::entry_of(specials, specials[i].entries[a].mapped) == specials[i].entries[a],
{
    law_one_home_is_one_entry(specials);
    manager::lemma_home_is(specials, specials[i].entries[a].mapped, i, a);
}

/// A special that is asked for exists: those that were there are as they
/// were, and those made for it hold nothing and are hidden.
pub proof fn law_specials_are_made_on_demand(specials: Specials, idx: int)
    requires
        0 <= idx,
    ensures
        ({
            let after = manager::grown(specials, idx);
            &&& idx < specials.len() ==> after == specials
            &&& idx >= specials.len() ==> after.len() == idx + 1
            &&& forall|i: int| 0 <= i < specials.len() ==> #[trigger] after[i] == specials[i]
            &&& forall|i: int|
                specials.len() <= i < after.len() ==> (#[trigger] after[i]).entries.len() == 0
                    && !after[i].shown && after[i].last_focused is None
        }),
{
}

/// Windows that are gone are dropped from every special, in order, and
/// nothing else.
pub proof fn law_windows_that_live_stay(specials: Specials, windows: Seq<WindowState>)
    ensures
        ({
            let after = manager::without_dead(specials, windows);
            &&& after.len() == specials.len()
            &&& forall|i: int|
                0 <= i < specials.len() ==> (#[trigger] after[i]).entries == live(
                    specials[i].entries,
                    windows,
                ) && after[i].shown == specials[i].shown && after[i].last_focused
                    == specials[i].last_focused
        }),
{
    assert(manager::alive_in(windows) =~= (|e: SpecialWindow| lives(windows, e.mapped)));
}

/// Attaching a parked window changes the attachment of its entry alone.
pub proof fn law_attaching_changes_one_entry(
    specials: Specials,
    i: int,
    a: int,
    handle: Option<WorkspaceHandle>,
)
    requires
        parked_once(specials),
        0 <= i < specials.len(),
        0 <= a < specials[i].entries.len(),
    ensures
        manager::with_attachment(specials, specials[i].entries[a].mapped, handle)
            == specials.update(
            i,
            StoreView {
                entries: specials[i].entries.update(
                    a,
                    SpecialWindow {
                        mapped: specials[i].entries[a].mapped,
                        restore: specials[i].entries[a].restore,
                        attached_to: handle,
                    },
                ),
                shown: specials[i].shown,
                last_focused: specials[i].last_focused,
            },
        ),
{
    law_one_home_is_one_entry(specials);
    manager::lemma_home_is(specials, specials[i].entries[a].mapped, i, a);
}

/// The maximized state of a parked window is what its entry says, and using
/// it up changes nothing but the flag.
pub proof fn law_maximized_state_is_the_entrys_own(specials: Specials, i: int, a: int)
    requires
        parked_once(specials),
        0 <= i < specials.len(),
        0 <= a < specials[i].entries.len(),
    ensures
        manager::was_maximized(specials, specials[i].entries[a].mapped) <==> says_maximized(
            specials[i].entries[a],
        ),
        manager::maximized_taken(specials, specials[i].entries[a].mapped) == specials.update(
            i,
            StoreView {
                entries: specials[i].entries.update(
                    a,
                    SpecialWindow {
                        restore: not_maximized(specials[i].entries[a].restore),
                        ..specials[i].entries[a]
                    },
                ),
                ..specials[i]
            },
        ),
{
    law_one_home_is_one_entry(specials);
    let entry = specials[i].entries[a];
    manager::lemma_home_is(specials, entry.mapped, i, a);
    if !says_maximized(entry) {
        assert(not_maximized(entry.restore) == entry.restore);
        assert(specials[i].entries.update(a, entry) =~= specials[i].entries);
        assert(specials.update(
            i,
            StoreView { entries: specials[i].entries.update(a, entry), ..specials[i] },
        ) =~= specials);
    }
}

/// A window without an entry was not maximized, and there is nothing to use
/// up.
pub proof fn law_unparked_window_has_no_maximized_state(specials: Specials, window: WindowId)
    requires
        forall|i: int, a: int|
            0 <= i < specials.len() && 0 <= a < specials[i].entries.len() ==> (
            #[trigger] specials[i].entries[a]).mapped != window,
    ensures
        !manager::was_maximized(specials, window),
        manager::maximized_taken(specials, window) == specials,
{
    manager::lemma_home(specials, window);
}

/// A window is attached where an entry of it is; a special is visible where
/// one of them is.
pub proof fn law_what_is_attached_and_visible(specials: Specials, window: WindowId)
    ensures
        manager::attached(specials, window) <==> exists|i: int, a: int|
            0 <= i < specials.len() && 0 <= a < specials[i].entries.len() && (
            #[trigger] specials[i].entries[a]).mapped == window
                && specials[i].entries[a].attached_to is Some,
        manager::any_shown(specials) <==> exists|i: int|
            0 <= i < specials.len() && (#[trigger] specials[i]).shown,
{
}

/// The windows of a special that are asked for, oldest first: all of them,
/// those attached to nothing, or those attached to another workspace.
pub proof fn law_windows_asked_for(special: StoreView<SpecialWindow>, handle: WorkspaceHandle)
    ensures
        Attachment::Any.windows(special) == special.entries.map_values(
            |e: SpecialWindow| e.mapped,
        ),
        Attachment::Detached.windows(special) == special.entries.filter(
            |e: SpecialWindow| e.attached_to is None,
        ).map_values(|e: SpecialWindow| e.mapped),
        Attachment::Elsewhere(handle).windows(special) == special.entries.filter(
            |e: SpecialWindow| e.attached_to is Some && e.attached_to->0 != handle,
        ).map_values(|e: SpecialWindow| e.mapped),
{
    let p = Attachment::Any.entries();
    seqs::lemma_filter_all(special.entries, p);
    assert(Attachment::Any.windows(special) =~= special.entries.map_values(
        |e: SpecialWindow| e.mapped,
    ));
    assert(Attachment::Detached.entries() =~= (|e: SpecialWindow| e.attached_to is None));
    assert(Attachment::Detached.windows(special) =~= special.entries.filter(
        |e: SpecialWindow| e.attached_to is None,
    ).map_values(|e: SpecialWindow| e.mapped));
    assert(Attachment::Elsewhere(handle).entries() =~= (|e: SpecialWindow|
        e.attached_to is Some && e.attached_to->0 != handle));
    assert(Attachment::Elsewhere(handle).windows(special) =~= special.entries.filter(
        |e: SpecialWindow| e.attached_to is Some && e.attached_to->0 != handle,
    ).map_values(|e: SpecialWindow| e.mapped));
}

/// A window is maximized where its first state says so.
pub proof fn law_maximized_windows(windows: Seq<WindowState>, window: WindowId, n: int)
    ensures
        0 <= n < windows.len() && windows[n].id == window && (forall|m: int|
            0 <= m < n ==> (#[trigger] windows[m]).id != window) ==> transitions::is_maximized(
            windows,
            window,
        ) == windows[n].maximized,
        (forall|m: int| 0 <= m < windows.len() ==> (#[trigger] windows[m]).id != window)
            ==> !transitions::is_maximized(windows, window),
{
    let p = transitions::state_of(window);
    seqs::lemma_first(windows, p);
    if seqs::first(windows, p) is Some {
        assert(p(windows[seqs::first(windows, p)->0]));
    }
    if 0 <= n < windows.len() && windows[n].id == window && (forall|m: int|
        0 <= m < n ==> (#[trigger] windows[m]).id != window) {
        assert(p(windows[n]));
        assert(seqs::first(windows, p)->0 == n);
    }
}

/// The first match of a sequence is the one with no match before it.
pub proof fn law_first_match<T>(s: Seq<T>, p: spec_fn(T) -> bool, i: int)
    ensures
        seqs::is_first(s, p, i) <==> 0 <= i < s.len() && p(s[i]) && (forall|j: int|
            0 <= j < i ==> !p(#[trigger] s[j])),
        seqs::is_first(s, p, i) ==> seqs::first(s, p) == Some(i),
        (forall|j: int| 0 <= j < s.len() ==> !p(#[trigger] s[j])) <==> seqs::first(s, p) is None,
{
    if seqs::is_first(s, p, i) {
        seqs::lemma_first_at(s, p, i);
    }
    seqs::lemma_first(s, p);
}

/// A member is there where one compares equal.
pub proof fn law_who_is_a_member<T: PartialEq<U>, U>(store: StoreView<T>, key: U, entry: T)
    ensures
        store.has(key) <==> exists|i: int|
            0 <= i < store.entries.len() && (#[trigger] store.entries[i]).eq_spec(&key),
        store::eq_to::<T, U>(key)(entry) <==> entry.eq_spec(&key),
{
}

/// No member compares equal to one after it.
pub proof fn law_members_are_distinct<T: PartialEq>(store: StoreView<T>)
    ensures
        store.distinct() <==> forall|i: int, j: int|
            0 <= i < store.entries.len() && i < j < store.entries.len() ==> !(
            #[trigger] store.entries[i]).eq_spec(#[trigger] &store.entries[j]),
{
}

/// A special that was never used has no members, is hidden and has no window
/// that focus returns to.
pub proof fn law_unused_store<T>()
    ensures
        StoreView::<T>::empty().entries.len() == 0,
        !StoreView::<T>::empty().shown,
        StoreView::<T>::empty().last_focused is None,
{
}

/// A member is sent once: it comes last, unless an equal one is there.
pub proof fn law_sent_member_comes_last<T: PartialEq>(store: StoreView<T>, entry: T)
    ensures
        (exists|i: int| 0 <= i < store.entries.len() && (#[trigger] store.entries[i]).eq_spec(&entry))
            ==> store.sent(entry) == store,
        (forall|i: int|
            0 <= i < store.entries.len() ==> !(#[trigger] store.entries[i]).eq_spec(&entry))
            ==> store.sent(entry) == (StoreView {
            entries: store.entries.push(entry),
            shown: store.shown,
            last_focused: store.last_focused,
        }),
{
}

/// Taking a member out keeps the order of the others, and forgets it as the
/// one that focus returns to.
pub proof fn law_taken_member_is_gone<T: PartialEq<U>, U>(store: StoreView<T>, i: int, key: U)
    requires
        0 <= i < store.entries.len(),
    ensures
        ({
            let after = store.without(i, key);
            &&& after.entries.len() == store.entries.len() - 1
            &&& forall|a: int| 0 <= a < i ==> #[trigger] after.entries[a] == store.entries[a]
            &&& forall|a: int|
                i <= a < after.entries.len() ==> #[trigger] after.entries[a] == store.entries[a + 1]
            &&& after.shown == store.shown
            &&& store.last_focused is Some && store.last_focused->0.eq_spec(&key)
                ==> after.last_focused is None
            &&& !(store.last_focused is Some && store.last_focused->0.eq_spec(&key))
                ==> after.last_focused == store.last_focused
        }),
{
}

/// Focus returns to the last focused member while one equal to it is there,
/// and to the oldest member otherwise.
pub proof fn law_focus_to_restore<T: PartialEq>(store: StoreView<T>)
    ensures
        store.last_focused is Some && (exists|i: int|
            0 <= i < store.entries.len() && (#[trigger] store.entries[i]).eq_spec(
                &store.last_focused->0,
            )) ==> store.restored_focus() == store.last_focused,
        (store.last_focused is None || (forall|i: int|
            0 <= i < store.entries.len() ==> !(#[trigger] store.entries[i]).eq_spec(
                &store.last_focused->0,
            ))) && store.entries.len() > 0 ==> store.restored_focus() == Some(store.entries[0]),
        store.entries.len() == 0 ==> store.restored_focus() is None,
{
}

/// Two entries are equal where they are of one window, and an entry equals
/// its window.
pub proof fn law_entries_are_compared_by_window(a: SpecialWindow, b: SpecialWindow, window: WindowId)
    ensures
        a.eq_spec(&b) <==> a.mapped == b.mapped,
        a.eq_spec(&window) <==> a.mapped == window,
        <SpecialWindow as PartialEqSpec<SpecialWindow>>::obeys_eq_spec(),
        <SpecialWindow as PartialEqSpec<WindowId>>::obeys_eq_spec(),
{
}

/// The keyboard goes to windows that are parked nowhere: a parked window and
/// a fullscreen surface are passed over.
pub proof fn law_who_may_get_the_keyboard(specials: Specials, target: FocusTarget)
    ensures
        transitions::is_excluded(specials, target) <==> match target {
            FocusTarget::Window(window) => exists|i: int, a: int|
                0 <= i < specials.len() && 0 <= a < specials[i].entries.len() && (
                #[trigger] specials[i].entries[a]).mapped == window,
            FocusTarget::Fullscreen(_) => true,
        },
        transitions::keyboard_target(target) == (match target {
            FocusTarget::Window(window) => KeyboardFocusTarget::Element(window),
            FocusTarget::Fullscreen(surface) => KeyboardFocusTarget::Fullscreen(
                surface,
            ),
        }),
{
    if target is Window {
        let window = target->Window_0;
        manager::lemma_home(specials, window);
        if manager::home(specials, window) is Some {
            let k = manager::home(specials, window)->0;
            let a = seqs::first(specials[k].entries, manager::is_window(window))->0;
            assert(specials[k].entries[a].mapped == window);
        } else {
            assert forall|i: int, a: int|
                0 <= i < specials.len() && 0 <= a < specials[i].entries.len() implies (
            #[trigger] specials[i].entries[a]).mapped != window by {
                assert(!manager::holds(specials[i], window));
            }
        }
    }
}

} // verus!
