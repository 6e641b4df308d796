//! The numbered special workspaces and the windows parked in them.

use vstd::prelude::*;

use crate::model::{
    FloatingRestoreData, TilingRestoreData, WindowId, WindowState, WorkspaceHandle,
    WorkspaceRestoreData,
};
use crate::seqs;
use crate::store;
use crate::store::{SpecialStore, StoreView};

verus! {

/// A window parked in a special workspace.
#[derive(Debug, Clone, Copy)]
pub struct SpecialWindow {
    pub mapped: WindowId,
    /// State captured when the window was detached from its workspace.
    pub restore: Option<WorkspaceRestoreData>,
    /// Workspace the window is currently floating on while shown.
    pub attached_to: Option<WorkspaceHandle>,
}

impl PartialEq for SpecialWindow {
    fn eq(&self, other: &Self) -> (r: bool) {
        self.mapped == other.mapped
    }
}

impl vstd::std_specs::cmp::PartialEqSpecImpl for SpecialWindow {
    open spec fn obeys_eq_spec() -> bool {
        true
    }

    open spec fn eq_spec(&self, other: &Self) -> bool {
        self.mapped == other.mapped
    }
}

impl PartialEq<WindowId> for SpecialWindow {
    fn eq(&self, other: &WindowId) -> (r: bool) {
        self.mapped == *other
    }
}

impl vstd::std_specs::cmp::PartialEqSpecImpl<WindowId> for SpecialWindow {
    open spec fn obeys_eq_spec() -> bool {
        true
    }

    open spec fn eq_spec(&self, other: &WindowId) -> bool {
        self.mapped == *other
    }
}

/// What the special workspaces hold, the first special first.
pub type Specials = Seq<StoreView<SpecialWindow>>;

/// The entries of `window`.
pub open spec fn is_window(window: WindowId) -> spec_fn(SpecialWindow) -> bool {
    |e: SpecialWindow| e.mapped == window
}

/// Whether a special holds `window`.
pub open spec fn holds(special: StoreView<SpecialWindow>, window: WindowId) -> bool {
    exists|a: int| 0 <= a < special.entries.len() && (#[trigger] special.entries[a]).mapped == window
}

/// The specials that hold `window`.
pub open spec fn holding(window: WindowId) -> spec_fn(StoreView<SpecialWindow>) -> bool {
    |s: StoreView<SpecialWindow>| holds(s, window)
}

/// Which special holds `window`.
pub open spec fn home(specials: Specials, window: WindowId) -> Option<int> {
    seqs::first(specials, holding(window))
}

/// Every window is parked at most once, in one special.
pub open spec fn one_home(specials: Specials) -> bool {
    forall|i: int, a: int, j: int, b: int|
        0 <= i < specials.len() && 0 <= a < specials[i].entries.len() && 0 <= j < specials.len()
            && 0 <= b < specials[j].entries.len() && (
        #[trigger] specials[i].entries[a]).mapped == (#[trigger] specials[j].entries[b]).mapped
            ==> i == j && a == b
}

/// The specials once `idx` exists: missing ones are empty and hidden.
pub open spec fn grown(specials: Specials, idx: int) -> Specials {
    if idx < specials.len() {
        specials
    } else {
        Seq::new(
            (idx + 1) as nat,
            |i: int|
                if i < specials.len() {
                    specials[i]
                } else {
                    StoreView::empty()
                },
        )
    }
}

/// Whether `window` is among the windows and alive.
pub open spec fn is_alive(windows: Seq<WindowState>, window: WindowId) -> bool {
    exists|i: int|
        0 <= i < windows.len() && (#[trigger] windows[i]).id == window && windows[i].alive
}

/// The entries of live windows.
pub open spec fn alive_in(windows: Seq<WindowState>) -> spec_fn(SpecialWindow) -> bool {
    |e: SpecialWindow| is_alive(windows, e.mapped)
}

/// The specials without the windows that are gone.
pub open spec fn without_dead(specials: Specials, windows: Seq<WindowState>) -> Specials {
    Seq::new(
        specials.len(),
        |i: int|
            StoreView { entries: specials[i].entries.filter(alive_in(windows)), ..specials[i] },
    )
}

/// The specials with the entry of `window` replaced by `entry`.
pub open spec fn with_entry(specials: Specials, window: WindowId, entry: SpecialWindow) -> Specials {
    let k = home(specials, window)->0;
    let a = seqs::first(specials[k].entries, is_window(window))->0;
    specials.update(
        k,
        StoreView { entries: specials[k].entries.update(a, entry), ..specials[k] },
    )
}

/// The entry of `window`, where a special holds it.
pub open spec fn entry_of(specials: Specials, window: WindowId) -> SpecialWindow {
    let k = home(specials, window)->0;
    specials[k].entries[seqs::first(specials[k].entries, is_window(window))->0]
}

/// The specials with `window` attached to `handle`, or to nothing.
pub open spec fn with_attachment(
    specials: Specials,
    window: WindowId,
    handle: Option<WorkspaceHandle>,
) -> Specials {
    with_entry(
        specials,
        window,
        SpecialWindow { attached_to: handle, ..entry_of(specials, window) },
    )
}

/// Whether `window` is parked and attached to a workspace.
pub open spec fn attached(specials: Specials, window: WindowId) -> bool {
    exists|i: int, a: int|
        0 <= i < specials.len() && 0 <= a < specials[i].entries.len() && (
        #[trigger] specials[i].entries[a]).mapped == window
            && specials[i].entries[a].attached_to is Some
}

/// Whether a special is visible.
pub open spec fn any_shown(specials: Specials) -> bool {
    exists|i: int| 0 <= i < specials.len() && (#[trigger] specials[i]).shown
}

/// Whether the entry of a parked `window` says that it was maximized.
pub open spec fn was_maximized(specials: Specials, window: WindowId) -> bool {
    home(specials, window) is Some && match entry_of(specials, window).restore {
        Some(r) => r.maximized(),
        None => false,
    }
}

/// The specials once the maximized state of `window` was used up.
pub open spec fn maximized_taken(specials: Specials, window: WindowId) -> Specials {
    if was_maximized(specials, window) {
        let entry = entry_of(specials, window);
        with_entry(
            specials,
            window,
            SpecialWindow { restore: Some(entry.restore->0.unmaximized()), ..entry },
        )
    } else {
        specials
    }
}

/// Where a window is parked, both positions are what the description says.
pub proof fn lemma_home(specials: Specials, window: WindowId)
    ensures
        match home(specials, window) {
            Some(k) => {
                let a = seqs::first(specials[k].entries, is_window(window));
                &&& 0 <= k < specials.len()
                &&& holds(specials[k], window)
                &&& a is Some
                &&& 0 <= a->0 < specials[k].entries.len()
                &&& specials[k].entries[a->0].mapped == window
                &&& entry_of(specials, window).mapped == window
            },
            None => forall|i: int| 0 <= i < specials.len() ==> !holds(#[trigger] specials[i], window),
        },
{
    seqs::lemma_first(specials, holding(window));
    if home(specials, window) is Some {
        let k = home(specials, window)->0;
        seqs::lemma_first(specials[k].entries, is_window(window));
    }
}

/// With one home for every window, an entry of `window` is the entry.
pub proof fn lemma_home_is(specials: Specials, window: WindowId, i: int, a: int)
    requires
        one_home(specials),
        0 <= i < specials.len(),
        0 <= a < specials[i].entries.len(),
        specials[i].entries[a].mapped == window,
    ensures
        home(specials, window) == Some(i),
        seqs::first(specials[i].entries, is_window(window)) == Some(a),
        entry_of(specials, window) == specials[i].entries[a],
{
    lemma_home(specials, window);
    assert(holds(specials[i], window));
}

/// Replacing the entry of a window by another entry of the window keeps one
/// home for every window.
pub proof fn lemma_with_entry_one_home(specials: Specials, window: WindowId, entry: SpecialWindow)
    requires
        one_home(specials),
        home(specials, window) is Some,
        entry.mapped == window,
    ensures
        one_home(with_entry(specials, window, entry)),
{
    lemma_home(specials, window);
    let after = with_entry(specials, window, entry);
    assert forall|i: int, a: int| 0 <= i < after.len() && 0 <= a < after[i].entries.len() implies (
    #[trigger] after[i].entries[a]).mapped == specials[i].entries[a].mapped by {}
}

/// Dropping dead windows keeps one home for every window.
pub proof fn lemma_without_dead_one_home(specials: Specials, windows: Seq<WindowState>)
    requires
        one_home(specials),
    ensures
        one_home(without_dead(specials, windows)),
{
    let p = alive_in(windows);
    let after = without_dead(specials, windows);
    assert forall|i: int, a: int, j: int, b: int|
        0 <= i < after.len() && 0 <= a < after[i].entries.len() && 0 <= j < after.len() && 0 <= b
            < after[j].entries.len() && (#[trigger] after[i].entries[a]).mapped == (
        #[trigger] after[j].entries[b]).mapped implies i == j && a == b by {
        let si = specials[i].entries;
        let sj = specials[j].entries;
        assert(after[i].entries == si.filter(p) && after[j].entries == sj.filter(p));
        seqs::lemma_filter_from(si, p, a);
        seqs::lemma_filter_from(sj, p, b);
        let k = choose|k: int| 0 <= k < si.len() && #[trigger] si[k] == si.filter(p)[a];
        let l = choose|l: int| 0 <= l < sj.len() && #[trigger] sj[l] == sj.filter(p)[b];
        assert(specials[i].entries[k].mapped == specials[j].entries[l].mapped);
        assert(i == j);
        if a < b {
            seqs::lemma_filter_order(si, p, a, b);
            let (k, l) = choose|k: int, l: int|
                0 <= k < l < si.len() && #[trigger] si[k] == si.filter(p)[a] && #[trigger] si[l]
                    == si.filter(p)[b];
            assert(specials[i].entries[k].mapped == specials[i].entries[l].mapped);
        } else if b < a {
            seqs::lemma_filter_order(si, p, b, a);
            let (k, l) = choose|k: int, l: int|
                0 <= k < l < si.len() && #[trigger] si[k] == si.filter(p)[b] && #[trigger] si[l]
                    == si.filter(p)[a];
            assert(specials[i].entries[k].mapped == specials[i].entries[l].mapped);
        }
    }
}

/// The numbered special workspaces.
#[derive(Debug)]
pub struct SpecialWorkspaceManager {
    /// Numbered special workspaces, grown on demand so `special 7` can exist
    /// without materializing 1..6 first.
    specials: Vec<SpecialStore<SpecialWindow>>,
}

impl View for SpecialWorkspaceManager {
    type V = Specials;

    closed spec fn view(&self) -> Specials {
        Seq::new(self.specials@.len(), |i: int| self.specials@[i]@)
    }
}

impl Default for SpecialWorkspaceManager {
    fn default() -> (r: Self)
        ensures
            r@ == Specials::empty(),
            one_home(r@),
    {
        let r = SpecialWorkspaceManager { specials: Vec::new() };
        assert(r@ =~= Specials::empty());
        r
    }
}

impl SpecialWorkspaceManager {
    /// There are no more specials than memory can number.
    pub(crate) proof fn lemma_len(&self)
        ensures
            self@.len() <= usize::MAX,
    {
        assert(self.specials.len() == self.specials@.len());
    }

    /// Special `idx`, made on demand.
    pub(crate) fn slot_mut(&mut self, idx: usize) -> (r: &mut SpecialStore<SpecialWindow>)
        requires
            idx < usize::MAX,
        ensures
            r@ == grown(old(self)@, idx as int)[idx as int],
            final(self)@ == grown(old(self)@, idx as int).update(idx as int, final(r)@),
    {
        let ghost before = self@;
        while self.specials.len() <= idx
            invariant
                idx < usize::MAX,
                before == old(self)@,
                before.len() <= self@.len(),
                self@.len() <= before.len() || self@.len() <= idx + 1,
                forall|i: int| 0 <= i < before.len() ==> #[trigger] self@[i] == before[i],
                forall|i: int|
                    before.len() <= i < self@.len() ==> #[trigger] self@[i] == StoreView::<
                        SpecialWindow,
                    >::empty(),
            decreases idx + 1 - self@.len(),
        {
            let ghost prev = self@;
            self.specials.push(SpecialStore::default());
            assert(self@ =~= prev.push(StoreView::empty()));
        }
        assert(self@ =~= grown(before, idx as int));
        &mut self.specials[idx]
    }

    /// Special `idx`, where it exists.
    pub fn slot(&self, idx: usize) -> (r: Option<&SpecialStore<SpecialWindow>>)
        ensures
            idx < self@.len() ==> r is Some && r->0@ == self@[idx as int],
            idx >= self@.len() ==> r is None,
    {
        if idx < self.specials.len() {
            Some(&self.specials[idx])
        } else {
            None
        }
    }

    /// Special `k`.
    pub(crate) fn slot_at(&self, k: usize) -> (r: &SpecialStore<SpecialWindow>)
        requires
            k < self@.len(),
        ensures
            r@ == self@[k as int],
    {
        &self.specials[k]
    }

    /// How many specials exist.
    pub fn len(&self) -> (r: usize)
        ensures
            r == self@.len(),
    {
        self.specials.len()
    }

    /// Visibility and number of members of each special.
    pub fn summary(&self) -> (r: Vec<(bool, usize)>)
        ensures
            r@.len() == self@.len(),
            forall|i: int|
                0 <= i < r@.len() ==> (#[trigger] r@[i]).0 == self@[i].shown && r@[i].1
                    == self@[i].entries.len(),
    {
        let mut r: Vec<(bool, usize)> = Vec::new();
        let mut i: usize = 0;
        while i < self.specials.len()
            invariant
                i <= self.specials@.len(),
                r@.len() == i,
                forall|j: int|
                    0 <= j < i ==> (#[trigger] r@[j]).0 == self@[j].shown && r@[j].1
                        == self@[j].entries.len(),
            decreases self.specials@.len() - i,
        {
            r.push((self.specials[i].shown(), self.specials[i].len()));
            i = i + 1;
        }
        r
    }

    /// Which special holds `mapped`, and whether it is currently shown.
    pub fn holder(&self, mapped: WindowId) -> (r: Option<(usize, bool)>)
        ensures
            match r {
                Some((k, shown)) => {
                    &&& k < self@.len()
                    &&& home(self@, mapped) == Some(k as int)
                    &&& shown == self@[k as int].shown
                },
                None => home(self@, mapped) is None,
            },
    {
        match self.index_of(mapped) {
            Some(k) => Some((k, self.specials[k].shown())),
            None => None,
        }
    }

    /// Drop the windows that are no longer alive.
    pub fn drop_dead(&mut self, windows: &Vec<WindowState>)
        ensures
            final(self)@ == without_dead(old(self)@, windows@),
            one_home(old(self)@) ==> one_home(final(self)@),
    {
        let ghost before = self@;
        let mut i: usize = 0;
        while i < self.specials.len()
            invariant
                i <= self.specials@.len(),
                self@.len() == before.len(),
                before == old(self)@,
                forall|j: int|
                    0 <= j < i ==> #[trigger] self@[j] == without_dead(before, windows@)[j],
                forall|j: int| i <= j < self@.len() ==> #[trigger] self@[j] == before[j],
            decreases self.specials@.len() - i,
        {
            let ghost prev = self@;
            let alive = |e: &SpecialWindow| -> (r: bool)
                ensures
                    r == is_alive(windows@, e.mapped),
                { window_is_alive(windows, e.mapped) };
            assert(self@[i as int] == self.specials@[i as int]@);
            self.specials[i].retain(alive);
            proof {
                let kept = choose|kept: Seq<bool>|
                    {
                        &&& kept.len() == prev[i as int].entries.len()
                        &&& forall|j: int|
                            0 <= j < kept.len() ==> call_ensures(
                                alive,
                                (&#[trigger] prev[i as int].entries[j],),
                                kept[j],
                            )
                        &&& self.specials@[i as int]@ == (StoreView {
                            entries: #[trigger] seqs::selected(prev[i as int].entries, kept),
                            ..prev[i as int]
                        })
                    };
                seqs::lemma_selected_is_filter(
                    prev[i as int].entries,
                    kept,
                    alive_in(windows@),
                );
                assert(self@[i as int] == without_dead(before, windows@)[i as int]);
                assert forall|j: int| 0 <= j < self@.len() && j != i implies #[trigger] self@[j]
                    == prev[j] by {}
            }
            i = i + 1;
        }
        assert(self@ =~= without_dead(before, windows@));
        proof {
            if one_home(before) {
                lemma_without_dead_one_home(before, windows@);
            }
        }
    }

    /// Whether a special is shown.
    pub fn shown_any(&self) -> (r: bool)
        ensures
            r == any_shown(self@),
    {
        let mut i: usize = 0;
        while i < self.specials.len()
            invariant
                i <= self.specials@.len(),
                forall|j: int| 0 <= j < i ==> !(#[trigger] self@[j]).shown,
            decreases self.specials@.len() - i,
        {
            assert(self@[i as int] == self.specials@[i as int]@);
            if self.specials[i].shown() {
                return true;
            }
            i = i + 1;
        }
        false
    }

    /// Which special holds `mapped`.
    pub fn index_of(&self, mapped: WindowId) -> (r: Option<usize>)
        ensures
            match r {
                Some(k) => k < self@.len() && home(self@, mapped) == Some(k as int),
                None => home(self@, mapped) is None,
            },
    {
        let mut i: usize = 0;
        while i < self.specials.len()
            invariant
                i <= self.specials@.len(),
                forall|j: int| 0 <= j < i ==> !holds(#[trigger] self@[j], mapped),
            decreases self.specials@.len() - i,
        {
            assert(self@[i as int] == self.specials@[i as int]@);
            assert(self@[i as int].has(mapped) == holds(self@[i as int], mapped));
            if self.specials[i].contains(&mapped) {
                proof {
                    seqs::lemma_first_at(self@, holding(mapped), i as int);
                }
                return Some(i);
            }
            i = i + 1;
        }
        proof {
            seqs::lemma_first_none(self@, holding(mapped));
        }
        None
    }

    /// The special that holds `mapped`, and its entry there.
    pub(crate) fn entry(&self, mapped: WindowId) -> (r: Option<(usize, SpecialWindow)>)
        ensures
            match r {
                Some((k, entry)) => {
                    &&& k < self@.len()
                    &&& home(self@, mapped) == Some(k as int)
                    &&& entry == entry_of(self@, mapped)
                },
                None => home(self@, mapped) is None,
            },
    {
        let k = match self.index_of(mapped) {
            Some(k) => k,
            None => {
                return None;
            },
        };
        proof {
            lemma_home(self@, mapped);
        }
        let entries = self.specials[k].entries();
        let mut a: usize = 0;
        while entries[a].mapped != mapped
            invariant
                entries@ == self@[k as int].entries,
                a < entries@.len(),
                home(self@, mapped) == Some(k as int),
                holds(self@[k as int], mapped),
                forall|b: int| 0 <= b < a ==> (#[trigger] entries@[b]).mapped != mapped,
            decreases entries@.len() - a,
        {
            a = a + 1;
        }
        proof {
            seqs::lemma_first_at(entries@, is_window(mapped), a as int);
        }
        Some((k, entries[a]))
    }

    /// Whether `mapped` is currently attached (visible) to a workspace.
    pub fn is_attached(&self, mapped: WindowId) -> (r: bool)
        ensures
            r == attached(self@, mapped),
    {
        let mut i: usize = 0;
        while i < self.specials.len()
            invariant
                i <= self.specials@.len(),
                forall|j: int, b: int|
                    0 <= j < i && 0 <= b < self@[j].entries.len() ==> (
                    #[trigger] self@[j].entries[b]).mapped != mapped
                        || self@[j].entries[b].attached_to is None,
            decreases self.specials@.len() - i,
        {
            assert(self@[i as int] == self.specials@[i as int]@);
            let entries = self.specials[i].entries();
            let mut a: usize = 0;
            while a < entries.len()
                invariant
                    i < self@.len(),
                    a <= entries@.len(),
                    entries@ == self@[i as int].entries,
                    forall|b: int|
                        0 <= b < a ==> (#[trigger] self@[i as int].entries[b]).mapped != mapped
                            || self@[i as int].entries[b].attached_to is None,
                decreases entries@.len() - a,
            {
                if entries[a] == mapped && entries[a].attached_to.is_some() {
                    assert(self@[i as int].entries[a as int].mapped == mapped);
                    return true;
                }
                a = a + 1;
            }
            i = i + 1;
        }
        false
    }

    /// Attach the parked window `mapped` to `handle`, or to nothing, and
    /// return its new entry; `None` where no special holds the window.
    pub(crate) fn set_attached(&mut self, mapped: WindowId, handle: Option<WorkspaceHandle>) -> (r:
        Option<SpecialWindow>)
        ensures
            home(old(self)@, mapped) is None ==> r is None && final(self)@ == old(self)@,
            home(old(self)@, mapped) is Some ==> final(self)@ == with_attachment(
                old(self)@,
                mapped,
                handle,
            ) && r == Some(SpecialWindow { attached_to: handle, ..entry_of(old(self)@, mapped) }),
            one_home(old(self)@) ==> one_home(final(self)@),
    {
        let ghost before = self@;
        proof {
            lemma_home(before, mapped);
            if one_home(before) && home(before, mapped) is Some {
                lemma_with_entry_one_home(
                    before,
                    mapped,
                    SpecialWindow { attached_to: handle, ..entry_of(before, mapped) },
                );
            }
        }
        let k = match self.index_of(mapped) {
            Some(k) => k,
            None => {
                return None;
            },
        };
        assert(self@[k as int] == self.specials@[k as int]@);
        assert(store::eq_to::<SpecialWindow, WindowId>(mapped) =~= is_window(mapped));
        assert(self@[k as int].has(mapped));
        let r = match self.specials[k].entry_mut(&mapped) {
            Some(entry) => {
                entry.attached_to = handle;
                Some(*entry)
            },
            None => None,
        };
        proof {
            let entries = before[k as int].entries;
            let a = choose|a: int|
                #![trigger entries[a]]
                seqs::is_first(entries, is_window(mapped), a);
            seqs::lemma_first_at(entries, is_window(mapped), a);
            assert(self@ =~= with_attachment(before, mapped, handle));
        }
        r
    }

    /// Consume the `was_maximized` flag captured at send time, so the state
    /// is restored exactly once on show.
    pub fn take_was_maximized(&mut self, mapped: WindowId) -> (r: bool)
        ensures
            r == was_maximized(old(self)@, mapped),
            final(self)@ == maximized_taken(old(self)@, mapped),
            one_home(old(self)@) ==> one_home(final(self)@),
    {
        let ghost before = self@;
        proof {
            lemma_home(before, mapped);
        }
        let k = match self.index_of(mapped) {
            Some(k) => k,
            None => {
                return false;
            },
        };
        assert(self@[k as int] == self.specials@[k as int]@);
        assert(store::eq_to::<SpecialWindow, WindowId>(mapped) =~= is_window(mapped));
        assert(self@[k as int].has(mapped));
        let was = match self.specials[k].entry_mut(&mapped) {
            Some(entry) => match entry.restore {
                Some(WorkspaceRestoreData::Floating(f)) => {
                    if f.was_maximized {
                        entry.restore = Some(
                            WorkspaceRestoreData::Floating(
                                FloatingRestoreData { was_maximized: false, ..f },
                            ),
                        );
                    }
                    f.was_maximized
                },
                Some(WorkspaceRestoreData::Tiling(t)) => {
                    if t.was_maximized {
                        entry.restore = Some(
                            WorkspaceRestoreData::Tiling(
                                TilingRestoreData { was_maximized: false, ..t },
                            ),
                        );
                    }
                    t.was_maximized
                },
                _ => false,
            },
            None => false,
        };
        proof {
            let entries = before[k as int].entries;
            let a = choose|a: int|
                #![trigger entries[a]]
                seqs::is_first(entries, is_window(mapped), a);
            seqs::lemma_first_at(entries, is_window(mapped), a);
            assert(entries.update(a, entries[a]) =~= entries);
            assert(self@ =~~= maximized_taken(before, mapped));
            if one_home(before) && was {
                let entry = entry_of(before, mapped);
                lemma_with_entry_one_home(
                    before,
                    mapped,
                    SpecialWindow { restore: Some(entry.restore->0.unmaximized()), ..entry },
                );
            }
        }
        was
    }
}

/// Whether `window` is among the windows and alive.
pub fn window_is_alive(windows: &Vec<WindowState>, window: WindowId) -> (r: bool)
    ensures
        r == is_alive(windows@, window),
{
    let mut i: usize = 0;
    while i < windows.len()
        invariant
            i <= windows@.len(),
            forall|j: int|
                0 <= j < i ==> (#[trigger] windows@[j]).id != window || !windows@[j].alive,
        decreases windows@.len() - i,
    {
        if windows[i].id == window && windows[i].alive {
            return true;
        }
        i = i + 1;
    }
    false
}

} // verus!
