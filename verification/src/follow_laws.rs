//! What following a workspace switch leaves behind.

use vstd::prelude::*;

use crate::laws;
use crate::layout_laws;
use crate::manager;
use crate::manager::{SpecialWindow, Specials};
use crate::member_laws;
use crate::model::{Effect, OutputId, SetView, WindowId, WorkspaceHandle};
use crate::outcome_laws;
use crate::presence;
use crate::seqs;
use crate::store::StoreView;
use crate::transitions;
use crate::transitions::{Attachment, ShellView};
use crate::visibility;
use crate::workspaces;

verus! {

/// A workspace of set `i` floats `window`.
pub open spec fn afloat_in(sets: Seq<SetView>, i: int, window: WindowId) -> bool {
    exists|j: int, a: int|
        0 <= j < sets[i].workspaces.len() && 0 <= a < sets[i].workspaces[j].floating.len() && (
        #[trigger] sets[i].workspaces[j].floating[a]).window == window
}

/// Workspace `j` is the first of set `i` that floats `window`.
pub open spec fn floats_first(sets: Seq<SetView>, i: int, j: int, window: WindowId) -> bool {
    &&& 0 <= j < sets[i].workspaces.len()
    &&& exists|a: int|
        0 <= a < sets[i].workspaces[j].floating.len() && (
        #[trigger] sets[i].workspaces[j].floating[a]).window == window
    &&& forall|l: int, b: int|
        0 <= l < j && 0 <= b < sets[i].workspaces[l].floating.len() ==> (
        #[trigger] sets[i].workspaces[l].floating[b]).window != window
}

/// The handle of the first workspace of set `i` that floats `window`.
pub open spec fn origin(sets: Seq<SetView>, i: int, window: WindowId) -> WorkspaceHandle {
    sets[i].workspaces[choose|j: int| floats_first(sets, i, j, window)].handle
}

/// Four effects for each of `windows`, in order: it leaves the workspace that
/// it floats on and comes to workspace `current`, and clients are told of
/// both.
pub open spec fn moving_effects(
    windows: Seq<WindowId>,
    sets: Seq<SetView>,
    i: int,
    current: WorkspaceHandle,
) -> Seq<Effect> {
    Seq::new(
        4 * windows.len(),
        |n: int|
            {
                let window = windows[n / 4];
                if n % 4 == 0 {
                    Effect::UnmapFloating { handle: origin(sets, i, window), window }
                } else if n % 4 == 1 {
                    Effect::LeaveWorkspace { handle: origin(sets, i, window), window }
                } else if n % 4 == 2 {
                    Effect::MapFloating { handle: current, window }
                } else {
                    Effect::EnterWorkspace { handle: current, window }
                }
            },
    )
}

/// The entry, attached to nothing where its workspace is gone.
pub open spec fn checked(sets: Seq<SetView>, entry: SpecialWindow) -> SpecialWindow {
    if entry.attached_to is Some && !(exists|i: int, j: int|
        0 <= i < sets.len() && 0 <= j < sets[i].workspaces.len() && (
        #[trigger] sets[i].workspaces[j]).handle == entry.attached_to->0) {
        SpecialWindow { mapped: entry.mapped, restore: entry.restore, attached_to: None }
    } else {
        entry
    }
}

/// The entries, those whose workspace is gone attached to nothing.
pub open spec fn all_checked(sets: Seq<SetView>, entries: Seq<SpecialWindow>) -> Seq<SpecialWindow> {
    entries.map_values(|e: SpecialWindow| checked(sets, e))
}

/// The entries that are attached to a workspace other than `current` and float
/// on a workspace of set `i`.
pub open spec fn comes_along(sets: Seq<SetView>, i: int, current: WorkspaceHandle) -> spec_fn(
    SpecialWindow,
) -> bool {
    |e: SpecialWindow|
        e.attached_to is Some && e.attached_to->0 != current && afloat_in(sets, i, e.mapped)
}

/// The entries of a special that follow to workspace `current` of set `i`: of
/// a visible special, those attached to another workspace that float on a
/// workspace of the set.
pub open spec fn followers(
    special: StoreView<SpecialWindow>,
    sets: Seq<SetView>,
    i: int,
    current: WorkspaceHandle,
) -> Seq<SpecialWindow> {
    if special.shown {
        all_checked(sets, special.entries).filter(comes_along(sets, i, current))
    } else {
        Seq::empty()
    }
}

/// A special once its followers came along: their entries are attached to
/// `current`, and the last of them is what focus returns to.
pub open spec fn special_followed(
    special: StoreView<SpecialWindow>,
    sets: Seq<SetView>,
    i: int,
    current: WorkspaceHandle,
) -> StoreView<SpecialWindow> {
    let coming = followers(special, sets, i, current);
    StoreView {
        entries: all_checked(sets, special.entries).map_values(
            |e: SpecialWindow|
                if special.shown && e.attached_to is Some && afloat_in(sets, i, e.mapped) {
                    SpecialWindow {
                        mapped: e.mapped,
                        restore: e.restore,
                        attached_to: Some(current),
                    }
                } else {
                    e
                },
        ),
        shown: special.shown,
        last_focused: if coming.len() > 0 {
            Some(
                SpecialWindow {
                    mapped: coming.last().mapped,
                    restore: coming.last().restore,
                    attached_to: Some(current),
                },
            )
        } else {
            special.last_focused
        },
    }
}

/// Checking attachments loosens the entries whose workspace is gone, and
/// changes nothing else.
pub proof fn law_checking_attachments(specials: Specials, sets: Seq<SetView>)
    ensures
        ({
            let after = transitions::revalidated(specials, sets);
            &&& after.len() == specials.len()
            &&& forall|k: int|
                0 <= k < specials.len() ==> #[trigger] after[k] == (StoreView {
                    entries: all_checked(sets, specials[k].entries),
                    shown: specials[k].shown,
                    last_focused: specials[k].last_focused,
                })
        }),
{
    let after = transitions::revalidated(specials, sets);
    assert forall|k: int| 0 <= k < specials.len() implies #[trigger] after[k] == (StoreView {
        entries: all_checked(sets, specials[k].entries),
        shown: specials[k].shown,
        last_focused: specials[k].last_focused,
    }) by {
        assert(after[k].entries =~= all_checked(sets, specials[k].entries));
    }
}

/// Where a window floats on an output.
proof fn lemma_origin(sets: Seq<SetView>, output: OutputId, i: int, window: WindowId)
    requires
        outcome_laws::set_belongs(sets, output, i),
    ensures
        match workspaces::floating_place(sets, output, window) {
            Some(place) => {
                &&& afloat_in(sets, i, window)
                &&& place.set == i
                &&& 0 <= place.workspace < sets[i].workspaces.len()
                &&& sets[i].workspaces[place.workspace].handle == origin(sets, i, window)
            },
            None => !afloat_in(sets, i, window),
        },
{
    let s = workspaces::set_of(output);
    assert(seqs::is_first(sets, s, i));
    seqs::lemma_first_at(sets, s, i);
    let here = sets[i].workspaces;
    let p = workspaces::floats(window);
    seqs::lemma_first(here, p);
    match seqs::first(here, p) {
        Some(j) => {
            assert(p(here[j]));
            let a = choose|a: int|
                0 <= a < here[j].floating.len() && (#[trigger] here[j].floating[a]).window
                    == window;
            assert(sets[i].workspaces[j].floating[a].window == window);
            assert forall|l: int, b: int|
                0 <= l < j && 0 <= b < sets[i].workspaces[l].floating.len() implies (
            #[trigger] sets[i].workspaces[l].floating[b]).window != window by {
                assert(!p(here[l]));
            }
            assert(floats_first(sets, i, j, window));
            let c = choose|c: int| floats_first(sets, i, c, window);
            assert(floats_first(sets, i, c, window));
            assert(c == j);
        },
        None => {
            assert forall|l: int, b: int|
                0 <= l < sets[i].workspaces.len() && 0 <= b
                    < sets[i].workspaces[l].floating.len() implies (
            #[trigger] sets[i].workspaces[l].floating[b]).window != window by {
                assert(!p(here[l]));
            }
        },
    }
}

/// Windows that are where they were float on the same workspaces.
proof fn lemma_same_origin(
    a: Seq<SetView>,
    b: Seq<SetView>,
    output: OutputId,
    i: int,
    window: WindowId,
)
    requires
        outcome_laws::set_belongs(a, output, i),
        presence::agree(a, b, window),
    ensures
        outcome_laws::set_belongs(b, output, i),
        workspaces::floating_place(a, output, window) == workspaces::floating_place(
            b,
            output,
            window,
        ),
        afloat_in(b, i, window) == afloat_in(a, i, window),
        afloat_in(a, i, window) ==> origin(b, i, window) == origin(a, i, window),
{
    lemma_same_set(a, b, output, i);
    presence::lemma_agree_floating(a, b, output, window);
    lemma_origin(a, output, i, window);
    lemma_origin(b, output, i, window);
    if afloat_in(a, i, window) {
        let place = workspaces::floating_place(a, output, window)->0;
        assert(a[i].workspaces[place.workspace].handle == b[i].workspaces[place.workspace].handle);
    }
}

/// A set of the same shape belongs to the same output.
proof fn lemma_same_set(a: Seq<SetView>, b: Seq<SetView>, output: OutputId, i: int)
    requires
        outcome_laws::set_belongs(a, output, i),
        presence::same_shape(a, b),
    ensures
        outcome_laws::set_belongs(b, output, i),
        b[i].active == a[i].active,
        b[i].workspaces.len() == a[i].workspaces.len(),
{
    assert(a[i].output == b[i].output);
    assert forall|k: int| 0 <= k < i implies (#[trigger] b[k]).output != output by {
        assert(a[k].output == b[k].output);
    }
}

/// Moving windows of one special lists four effects for each that floats on
/// the output, and makes the last of them the one that focus returns to.
proof fn lemma_moved_each_exactly(
    shell: ShellView,
    windows: Seq<WindowId>,
    output: OutputId,
    i: int,
    idx: int,
)
    requires
        manager::one_home(shell.special),
        windows.no_duplicates(),
        0 <= idx < shell.special.len(),
        forall|w: int|
            0 <= w < windows.len() ==> manager::home(shell.special, #[trigger] windows[w]) == Some(
                idx,
            ),
        outcome_laws::set_belongs(shell.sets, output, i),
        shell.sets[i].active < shell.sets[i].workspaces.len(),
    ensures
        ({
            let after = shell.moved_each(windows, output);
            let current = shell.sets[i].workspaces[shell.sets[i].active as int].handle;
            let coming = windows.filter(|w: WindowId| afloat_in(shell.sets, i, w));
            &&& after.effects == shell.effects + moving_effects(coming, shell.sets, i, current)
            &&& after.special.len() == shell.special.len()
            &&& forall|k: int|
                0 <= k < shell.special.len() && k != idx ==> (
                #[trigger] after.special[k]).last_focused == shell.special[k].last_focused
            &&& coming.len() == 0 ==> after.special[idx].last_focused
                == shell.special[idx].last_focused
            &&& coming.len() > 0 ==> after.special[idx].last_focused == Some(
                SpecialWindow {
                    attached_to: Some(current),
                    ..manager::entry_of(shell.special, coming.last())
                },
            )
        }),
    decreases windows.len(),
{
    reveal(Seq::filter);
    let j = shell.sets[i].active as int;
    let current = shell.sets[i].workspaces[j].handle;
    let floats = |w: WindowId| afloat_in(shell.sets, i, w);
    let coming = windows.filter(floats);
    layout_laws::law_active_workspace_is_the_sets_own(shell.sets, output, i);
    if windows.len() == 0 {
        assert(shell.effects + moving_effects(coming, shell.sets, i, current) =~= shell.effects);
    } else {
        let rest = windows.drop_last();
        let window = windows.last();
        assert(rest.no_duplicates());
        lemma_moved_each_exactly(shell, rest, output, i, idx);
        let before = rest.filter(floats);
        let mid = shell.moved_each(rest, output);
        let after = shell.moved_each(windows, output);
        assert forall|w: int| 0 <= w < windows.len() implies manager::home(
            shell.special,
            #[trigger] windows[w],
        ) is Some by {}
        visibility::lemma_rest_parked(shell.special, windows);
        visibility::lemma_moved_each(shell, rest, output, current);
        let place = workspaces::active_place(shell.sets, output)->0;
        assert(visibility::brought_along(
            shell.sets,
            mid.sets,
            place,
            window,
            visibility::moves(rest, shell.sets, output, window),
        ));
        if rest.contains(window) {
            let n = rest.index_of(window);
            assert(windows[n] == windows[windows.len() - 1]);
        }
        lemma_same_origin(shell.sets, mid.sets, output, i, window);
        lemma_same_set(shell.sets, mid.sets, output, i);
        lemma_origin(mid.sets, output, i, window);
        lemma_origin(shell.sets, output, i, window);
        assert(laws::same_members(shell.special, mid.special));
        visibility::lemma_reattached_homes(shell.special, mid.special);
        assert(manager::home(mid.special, window) == manager::home(shell.special, window));
        assert(windows[windows.len() - 1] == window);
        manager::lemma_home(shell.special, window);
        let x = seqs::first(shell.special[idx].entries, manager::is_window(window))->0;
        manager::lemma_home_is(shell.special, window, idx, x);
        assert(mid.special[idx].entries[x] == shell.special[idx].entries[x]);
        manager::lemma_home_is(mid.special, window, idx, x);
        if afloat_in(shell.sets, i, window) {
            let off = mid.detached(window, output);
            let found = workspaces::floating_place(mid.sets, output, window)->0;
            let h = origin(shell.sets, i, window);
            assert(workspaces::at(mid.sets, found).handle == h);
            visibility::lemma_moved_step(mid, window, output, idx, x);
            presence::lemma_unfloated_at(mid.sets, found, window);
            lemma_same_set(mid.sets, off.sets, output, i);
            layout_laws::law_active_workspace_is_the_sets_own(off.sets, output, i);
            assert(mid.sets[i].workspaces[j].handle == current);
            assert(off.sets[i].workspaces[j].handle == current);
            assert(after == off.attached(window, output));
            assert(coming =~= before.push(window));
            assert(moving_effects(coming, shell.sets, i, current) =~= moving_effects(
                before,
                shell.sets,
                i,
                current,
            ).push(Effect::UnmapFloating { handle: h, window }).push(
                Effect::LeaveWorkspace { handle: h, window },
            ).push(Effect::MapFloating { handle: current, window }).push(
                Effect::EnterWorkspace { handle: current, window },
            ));
            assert(after.effects =~= shell.effects + moving_effects(
                coming,
                shell.sets,
                i,
                current,
            ));
            transitions::lemma_attachment_home(mid.special, window, None);
            transitions::lemma_attachment_home(off.special, window, Some(current));
        } else {
            assert(after == mid);
            assert(coming == before);
        }
    }
}

/// The followers of a special, by their windows.
proof fn lemma_followers(
    special: StoreView<SpecialWindow>,
    sets: Seq<SetView>,
    i: int,
    current: WorkspaceHandle,
)
    ensures
        special.shown ==> Attachment::Elsewhere(current).windows(
            StoreView { entries: all_checked(sets, special.entries), ..special },
        ).filter(|w: WindowId| afloat_in(sets, i, w)) == outcome_laws::windows_of(
            followers(special, sets, i, current),
        ),
{
    let entries = all_checked(sets, special.entries);
    let p = |e: SpecialWindow| e.attached_to is Some && e.attached_to->0 != current;
    let f = |e: SpecialWindow| e.mapped;
    let q = |w: WindowId| afloat_in(sets, i, w);
    let qf = |e: SpecialWindow| afloat_in(sets, i, e.mapped);
    let both = comes_along(sets, i, current);
    member_laws::law_windows_asked_for(StoreView { entries, ..special }, current);
    seqs::lemma_filter_mapped(entries.filter(p), f, q, qf);
    seqs::lemma_filter_twice(entries, p, qf, both);
}

/// The blocks of effects of the first `n` specials.
spec fn blocks(
    specials: Specials,
    n: int,
    sets: Seq<SetView>,
    i: int,
    current: WorkspaceHandle,
) -> Seq<Seq<Effect>> {
    Seq::new(
        n as nat,
        |k: int|
            moving_effects(
                outcome_laws::windows_of(followers(specials[k], sets, i, current)),
                sets,
                i,
                current,
            ),
    )
}

/// What the first `n` specials that follow list, and what focus returns to in
/// them.
proof fn lemma_followed_first_exactly(
    shell: ShellView,
    valid: ShellView,
    n: int,
    output: OutputId,
    i: int,
)
    requires
        manager::one_home(shell.special),
        valid == (ShellView {
            special: transitions::revalidated(shell.special, shell.sets),
            ..shell
        }),
        0 <= n <= shell.special.len(),
        outcome_laws::set_belongs(shell.sets, output, i),
        shell.sets[i].active < shell.sets[i].workspaces.len(),
    ensures
        ({
            let current = shell.sets[i].workspaces[shell.sets[i].active as int].handle;
            let after = valid.followed_first(n, output, current);
            &&& after.effects == shell.effects + blocks(
                shell.special,
                n,
                shell.sets,
                i,
                current,
            ).flatten()
            &&& after.special.len() == shell.special.len()
            &&& forall|k: int|
                0 <= k < shell.special.len() ==> (#[trigger] after.special[k]).last_focused == (
                if k < n {
                    special_followed(shell.special[k], shell.sets, i, current).last_focused
                } else {
                    shell.special[k].last_focused
                })
        }),
    decreases n,
{
    let j = shell.sets[i].active as int;
    let current = shell.sets[i].workspaces[j].handle;
    layout_laws::law_active_workspace_is_the_sets_own(shell.sets, output, i);
    law_checking_attachments(shell.special, shell.sets);
    laws::law_revalidated_attachments_exist(shell.special, shell.sets);
    laws::lemma_same_members_one_home(shell.special, valid.special);
    if n == 0 {
        assert(blocks(shell.special, 0, shell.sets, i, current) =~= Seq::empty());
        assert(shell.effects + Seq::<Effect>::empty() =~= shell.effects);
    } else {
        let k = n - 1;
        lemma_followed_first_exactly(shell, valid, k, output, i);
        let mid = valid.followed_first(k, output, current);
        let after = valid.followed_first(n, output, current);
        visibility::lemma_followed_first(valid, k, output, current);
        assert(laws::same_members(valid.special, mid.special));
        laws::lemma_same_members_one_home(valid.special, mid.special);
        lemma_same_set(shell.sets, mid.sets, output, i);
        assert(mid.sets[i].workspaces[j].handle == current);
        assert(mid.special[k].entries =~= valid.special[k].entries);
        let coming = followers(shell.special[k], shell.sets, i, current);
        let block = moving_effects(outcome_laws::windows_of(coming), shell.sets, i, current);
        let which = Attachment::Elsewhere(current);
        let windows = which.windows(mid.special[k]);
        assert(windows =~= which.windows(
            StoreView {
                entries: all_checked(shell.sets, shell.special[k].entries),
                ..shell.special[k]
            },
        ));
        assert(blocks(shell.special, n, shell.sets, i, current) =~= blocks(
            shell.special,
            k,
            shell.sets,
            i,
            current,
        ).push(block));
        blocks(shell.special, k, shell.sets, i, current).lemma_flatten_push(block);
        if mid.special[k].shown {
            laws::lemma_windows_home(mid.special, which, k);
            lemma_windows_apart(mid.special, which, k);
            lemma_moved_each_exactly(mid, windows, output, i, k);
            assert forall|w: int| 0 <= w < windows.len() implies afloat_in(
                mid.sets,
                i,
                #[trigger] windows[w],
            ) == afloat_in(shell.sets, i, windows[w]) && (afloat_in(shell.sets, i, windows[w])
                ==> origin(mid.sets, i, windows[w]) == origin(shell.sets, i, windows[w])) by {
                lemma_still_where_it_was(shell, valid, k, output, i, windows[w], w);
            }
            let here = |w: WindowId| afloat_in(mid.sets, i, w);
            let there = |w: WindowId| afloat_in(shell.sets, i, w);
            seqs::lemma_filter_alike(windows, here, there);
            lemma_followers(shell.special[k], shell.sets, i, current);
            let moving = windows.filter(here);
            assert(moving == outcome_laws::windows_of(coming));
            assert(moving_effects(moving, mid.sets, i, current) =~= block) by {
                assert forall|m: int| 0 <= m < moving.len() implies origin(
                    mid.sets,
                    i,
                    #[trigger] moving[m],
                ) == origin(shell.sets, i, moving[m]) by {
                    seqs::lemma_filter_from(windows, here, m);
                    let w = choose|w: int|
                        0 <= w < windows.len() && #[trigger] windows[w] == moving[m];
                    assert(afloat_in(mid.sets, i, windows[w]) == afloat_in(
                        shell.sets,
                        i,
                        windows[w],
                    ));
                }
            }
            assert(after.effects =~= shell.effects + blocks(
                shell.special,
                n,
                shell.sets,
                i,
                current,
            ).flatten());
            if coming.len() > 0 {
                lemma_follower_entry(shell.special[k], shell.sets, i, current);
                let entries = all_checked(shell.sets, shell.special[k].entries);
                let x = choose|x: int|
                    0 <= x < entries.len() && #[trigger] entries[x] == coming.last();
                assert(mid.special[k].entries[x] == coming.last());
                manager::lemma_home_is(mid.special, coming.last().mapped, k, x);
                assert(moving.last() == coming.last().mapped);
            }
            assert forall|m: int| 0 <= m < shell.special.len() implies (
            #[trigger] after.special[m]).last_focused == (if m < n {
                special_followed(shell.special[m], shell.sets, i, current).last_focused
            } else {
                shell.special[m].last_focused
            }) by {
                assert(mid.special[m].last_focused == mid.special[m].last_focused);
            }
        } else {
            assert(!shell.special[k].shown);
            assert(block =~= Seq::empty());
            assert(after == mid);
            assert(after.effects =~= shell.effects + blocks(
                shell.special,
                n,
                shell.sets,
                i,
                current,
            ).flatten());
        }
    }
}

/// A follower is one of the entries.
proof fn lemma_follower_entry(
    special: StoreView<SpecialWindow>,
    sets: Seq<SetView>,
    i: int,
    current: WorkspaceHandle,
)
    requires
        followers(special, sets, i, current).len() > 0,
    ensures
        special.shown,
        exists|x: int|
            0 <= x < all_checked(sets, special.entries).len() && #[trigger] all_checked(
                sets,
                special.entries,
            )[x] == followers(special, sets, i, current).last(),
{
    let both = comes_along(sets, i, current);
    let entries = all_checked(sets, special.entries);
    seqs::lemma_filter_from(entries, both, entries.filter(both).len() - 1);
}

/// No window of a special is asked for twice.
proof fn lemma_windows_apart(specials: Specials, which: Attachment, k: int)
    requires
        manager::one_home(specials),
        0 <= k < specials.len(),
    ensures
        which.windows(specials[k]).no_duplicates(),
{
    let entries = specials[k].entries;
    let windows = which.windows(specials[k]);
    let positions = seqs::lemma_filter_positions(entries, which.entries());
    assert forall|n: int, m: int| 0 <= n < windows.len() && 0 <= m < windows.len() && n != m implies windows[n]
        != windows[m] by {
        assert(positions[n] != positions[m]);
        assert(specials[k].entries[positions[n]].mapped
            != specials[k].entries[positions[m]].mapped);
    }
}

/// A window of a special that has not followed yet is where it was.
proof fn lemma_still_where_it_was(
    shell: ShellView,
    valid: ShellView,
    k: int,
    output: OutputId,
    i: int,
    window: WindowId,
    w: int,
)
    requires
        manager::one_home(shell.special),
        valid == (ShellView {
            special: transitions::revalidated(shell.special, shell.sets),
            ..shell
        }),
        0 <= k < shell.special.len(),
        outcome_laws::set_belongs(shell.sets, output, i),
        shell.sets[i].active < shell.sets[i].workspaces.len(),
        ({
            let current = shell.sets[i].workspaces[shell.sets[i].active as int].handle;
            let windows = Attachment::Elsewhere(current).windows(valid.special[k]);
            0 <= w < windows.len() && windows[w] == window
        }),
    ensures
        ({
            let current = shell.sets[i].workspaces[shell.sets[i].active as int].handle;
            let mid = valid.followed_first(k, output, current);
            &&& afloat_in(mid.sets, i, window) == afloat_in(shell.sets, i, window)
            &&& afloat_in(shell.sets, i, window) ==> origin(mid.sets, i, window) == origin(
                shell.sets,
                i,
                window,
            )
        }),
{
    let current = shell.sets[i].workspaces[shell.sets[i].active as int].handle;
    let which = Attachment::Elsewhere(current);
    let mid = valid.followed_first(k, output, current);
    layout_laws::law_active_workspace_is_the_sets_own(shell.sets, output, i);
    laws::law_revalidated_attachments_exist(shell.special, shell.sets);
    laws::lemma_same_members_one_home(shell.special, valid.special);
    visibility::lemma_followed_first(valid, k, output, current);
    let b = laws::lemma_window_asked(which, valid.special[k], w);
    assert(valid.special[k].entries[b].mapped == window);
    if visibility::drifts(valid.special, k, current, window) {
        let (m, a) = choose|m: int, a: int|
            0 <= m < k && m < valid.special.len() && valid.special[m].shown && 0 <= a
                < valid.special[m].entries.len() && (
            #[trigger] valid.special[m].entries[a]).mapped == window && which.fits(
                valid.special[m].entries[a],
            );
        assert(valid.special[m].entries[a].mapped == valid.special[k].entries[b].mapped);
    }
    let place = workspaces::active_place(shell.sets, output)->0;
    assert(visibility::brought_along(
        valid.sets,
        mid.sets,
        place,
        window,
        visibility::follows(valid.special, k, valid.sets, output, current, window),
    ));
    lemma_same_origin(shell.sets, mid.sets, output, i, window);
}

/// Following a workspace switch: where a special is visible, attachments to
/// workspaces that are gone are dropped. Then each window of a visible special
/// that is attached to another workspace and floats on the output is attached
/// to the newly active workspace. For each of them, special by special and
/// oldest first, the compositor is asked to take it off the workspace that it
/// floats on and to float it on the newly active one, and to tell clients of
/// both.
pub proof fn law_following_a_switch(shell: ShellView, output: OutputId, i: int)
    requires
        member_laws::parked_once(shell.special),
        exists|k: int| 0 <= k < shell.special.len() && (#[trigger] shell.special[k]).shown,
        outcome_laws::set_belongs(shell.sets, output, i),
        shell.sets[i].active < shell.sets[i].workspaces.len(),
    ensures
        ({
            let after = shell.followed(output);
            let current = shell.sets[i].workspaces[shell.sets[i].active as int].handle;
            &&& after.windows == shell.windows
            &&& after.special.len() == shell.special.len()
            &&& forall|k: int|
                0 <= k < shell.special.len() ==> #[trigger] after.special[k] == special_followed(
                    shell.special[k],
                    shell.sets,
                    i,
                    current,
                )
            &&& after.effects == shell.effects + Seq::new(
                shell.special.len(),
                |k: int|
                    moving_effects(
                        outcome_laws::windows_of(
                            followers(shell.special[k], shell.sets, i, current),
                        ),
                        shell.sets,
                        i,
                        current,
                    ),
            ).flatten()
        }),
{
    member_laws::law_one_home_is_one_entry(shell.special);
    let after = shell.followed(output);
    let j = shell.sets[i].active as int;
    let current = shell.sets[i].workspaces[j].handle;
    let n = shell.special.len() as int;
    layout_laws::law_active_workspace_is_the_sets_own(shell.sets, output, i);
    let valid = ShellView {
        special: transitions::revalidated(shell.special, shell.sets),
        ..shell
    };
    law_checking_attachments(shell.special, shell.sets);
    visibility::law_visible_windows_follow(shell, output);
    lemma_followed_first_exactly(shell, valid, n, output, i);
    assert(blocks(shell.special, n, shell.sets, i, current) =~= Seq::new(
        shell.special.len(),
        |k: int|
            moving_effects(
                outcome_laws::windows_of(followers(shell.special[k], shell.sets, i, current)),
                shell.sets,
                i,
                current,
            ),
    ));
    assert forall|k: int| 0 <= k < shell.special.len() implies #[trigger] after.special[k]
        == special_followed(shell.special[k], shell.sets, i, current) by {
        let expected = special_followed(shell.special[k], shell.sets, i, current);
        assert(after.special[k].shown == shell.special[k].shown);
        assert forall|a: int| 0 <= a < expected.entries.len() implies #[trigger] after.special[k].entries[a]
            == expected.entries[a] by {
            lemma_origin(shell.sets, output, i, shell.special[k].entries[a].mapped);
        }
        assert(after.special[k].entries.len() == shell.special[k].entries.len());
        assert(after.special[k].entries =~= expected.entries);
    }
}

/// Where no special is visible a workspace switch changes nothing; where the
/// output has no active workspace only attachments to workspaces that are gone
/// are dropped.
pub proof fn law_nothing_to_follow(shell: ShellView, output: OutputId)
    ensures
        (forall|k: int| 0 <= k < shell.special.len() ==> !(#[trigger] shell.special[k]).shown)
            ==> shell.followed(output) == shell,
        (exists|k: int| 0 <= k < shell.special.len() && (#[trigger] shell.special[k]).shown)
            && outcome_laws::nothing_active(shell.sets, output) ==> {
            let after = shell.followed(output);
            &&& after.windows == shell.windows
            &&& after.sets == shell.sets
            &&& after.effects == shell.effects
            &&& after.special.len() == shell.special.len()
            &&& forall|k: int|
                0 <= k < shell.special.len() ==> #[trigger] after.special[k] == (StoreView {
                    entries: all_checked(shell.sets, shell.special[k].entries),
                    ..shell.special[k]
                })
        },
{
    law_checking_attachments(shell.special, shell.sets);
    if outcome_laws::nothing_active(shell.sets, output) {
        outcome_laws::lemma_nothing_active(shell.sets, output);
    }
}

/// Each window that follows is asked, in one go, to leave the workspace that
/// it floats on and to come to the newly active one.
pub proof fn law_each_follower_is_moved(
    shell: ShellView,
    output: OutputId,
    i: int,
    k: int,
    a: int,
) -> (n: int)
    requires
        member_laws::parked_once(shell.special),
        outcome_laws::set_belongs(shell.sets, output, i),
        shell.sets[i].active < shell.sets[i].workspaces.len(),
        0 <= k < shell.special.len(),
        shell.special[k].shown,
        0 <= a < shell.special[k].entries.len(),
        checked(shell.sets, shell.special[k].entries[a]).attached_to is Some,
        shell.special[k].entries[a].attached_to->0
            != shell.sets[i].workspaces[shell.sets[i].active as int].handle,
        afloat_in(shell.sets, i, shell.special[k].entries[a].mapped),
    ensures
        ({
            let after = shell.followed(output).effects;
            let window = shell.special[k].entries[a].mapped;
            let here = origin(shell.sets, i, window);
            let current = shell.sets[i].workspaces[shell.sets[i].active as int].handle;
            &&& shell.effects.len() <= n
            &&& n + 4 <= after.len()
            &&& after[n] == (Effect::UnmapFloating { handle: here, window })
            &&& after[n + 1] == (Effect::LeaveWorkspace { handle: here, window })
            &&& after[n + 2] == (Effect::MapFloating { handle: current, window })
            &&& after[n + 3] == (Effect::EnterWorkspace { handle: current, window })
        }),
{
    let current = shell.sets[i].workspaces[shell.sets[i].active as int].handle;
    law_following_a_switch(shell, output, i);
    let all = blocks(shell.special, shell.special.len() as int, shell.sets, i, current);
    assert(all =~= Seq::new(
        shell.special.len(),
        |k: int|
            moving_effects(
                outcome_laws::windows_of(followers(shell.special[k], shell.sets, i, current)),
                shell.sets,
                i,
                current,
            ),
    ));
    let entries = all_checked(shell.sets, shell.special[k].entries);
    let both = comes_along(shell.sets, i, current);
    assert(both(entries[a]));
    seqs::lemma_filter_keeps(entries, both, a);
    let m = choose|m: int|
        0 <= m < entries.filter(both).len() && #[trigger] entries.filter(both)[m] == entries[a];
    let coming = followers(shell.special[k], shell.sets, i, current);
    assert(coming[m].mapped == shell.special[k].entries[a].mapped);
    let start = lemma_block_start(all, k);
    let block = all[k];
    assert(outcome_laws::windows_of(coming)[m] == shell.special[k].entries[a].mapped);
    let n = shell.effects.len() + start + 4 * m;
    assert(block[4 * m] == all.flatten()[start + 4 * m]);
    assert(block[4 * m + 1] == all.flatten()[start + 4 * m + 1]);
    assert(block[4 * m + 2] == all.flatten()[start + 4 * m + 2]);
    assert(block[4 * m + 3] == all.flatten()[start + 4 * m + 3]);
    n
}

/// Where a block starts among all.
proof fn lemma_block_start(all: Seq<Seq<Effect>>, k: int) -> (start: int)
    requires
        0 <= k < all.len(),
    ensures
        0 <= start,
        start + all[k].len() <= all.flatten().len(),
        forall|x: int| 0 <= x < all[k].len() ==> #[trigger] all[k][x] == all.flatten()[start + x],
    decreases all.len(),
{
    let init = all.drop_last();
    init.lemma_flatten_push(all.last());
    assert(init.push(all.last()) =~= all);
    if k == all.len() - 1 {
        let start = init.flatten().len() as int;
        assert forall|x: int| 0 <= x < all[k].len() implies #[trigger] all[k][x]
            == all.flatten()[start + x] by {}
        start
    } else {
        let start = lemma_block_start(init, k);
        assert forall|x: int| 0 <= x < all[k].len() implies #[trigger] all[k][x]
            == all.flatten()[start + x] by {
            assert(init[k][x] == init.flatten()[start + x]);
        }
        start
    }
}

} // verus!
