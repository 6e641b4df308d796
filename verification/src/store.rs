//! Bookkeeping of one special workspace.
//!
//! The store is generic over the window type and compares windows with `==`
//! alone. Its contracts say what `==` means through `eq_spec`, so each of
//! them holds of every type whose `==` follows that description
//! ([`eq_described`]).

use vstd::prelude::*;
use vstd::std_specs::cmp::PartialEqSpec;

use crate::seqs;

verus! {

/// Whether `==` between `T` and `U` is the relation `eq_spec`.
pub open spec fn eq_described<T: PartialEq<U>, U>() -> bool {
    <T as PartialEqSpec<U>>::obeys_eq_spec()
}

/// The elements that compare equal to `key`.
pub open spec fn eq_to<T: PartialEq<U>, U>(key: U) -> spec_fn(T) -> bool {
    |e: T| e.eq_spec(&key)
}

/// What a [`SpecialStore`] holds.
#[verifier::ext_equal]
pub ghost struct StoreView<T> {
    /// Members, oldest first.
    pub entries: Seq<T>,
    /// Whether the special workspace is visible.
    pub shown: bool,
    /// The member that focus returns to, if it still is one.
    pub last_focused: Option<T>,
}

impl<T> StoreView<T> {
    /// The store of a special workspace that was never used.
    pub open spec fn empty() -> Self {
        StoreView { entries: Seq::empty(), shown: false, last_focused: None }
    }

    /// Whether a member compares equal to `key`.
    pub open spec fn has<U>(self, key: U) -> bool where T: PartialEq<U> {
        exists|i: int| 0 <= i < self.entries.len() && (#[trigger] self.entries[i]).eq_spec(&key)
    }

    /// No member compares equal to one that came after it.
    pub open spec fn distinct(self) -> bool where T: PartialEq {
        forall|i: int, j: int|
            0 <= i < j < self.entries.len() ==> !(#[trigger] self.entries[i]).eq_spec(
                #[trigger] &self.entries[j],
            )
    }

    /// The store once `entry` was sent to it.
    pub open spec fn sent(self, entry: T) -> Self where T: PartialEq {
        if self.has(entry) {
            self
        } else {
            StoreView { entries: self.entries.push(entry), ..self }
        }
    }

    /// The store once its `i`-th member was taken out under `key`.
    pub open spec fn without<U>(self, i: int, key: U) -> Self where T: PartialEq<U> {
        StoreView {
            entries: self.entries.remove(i),
            last_focused: if self.last_focused is Some && self.last_focused->0.eq_spec(&key) {
                None
            } else {
                self.last_focused
            },
            ..self
        }
    }

    /// The member that keyboard focus lands on when the special is shown: the
    /// last focused one while it is a member, else the oldest.
    pub open spec fn restored_focus(self) -> Option<T> where T: PartialEq {
        if self.last_focused is Some && self.has(self.last_focused->0) {
            self.last_focused
        } else if self.entries.len() > 0 {
            Some(self.entries[0])
        } else {
            None
        }
    }
}

/// Pure bookkeeping of one special workspace, generic over the window type so
/// that the policy stands on its own.
#[derive(Debug)]
pub struct SpecialStore<T> {
    entries: Vec<T>,
    shown: bool,
    /// Window keyboard focus should return to when the special is shown
    /// again; stale values fall back to the oldest entry.
    last_focused: Option<T>,
}

impl<T> View for SpecialStore<T> {
    type V = StoreView<T>;

    closed spec fn view(&self) -> StoreView<T> {
        StoreView { entries: self.entries@, shown: self.shown, last_focused: self.last_focused }
    }
}

impl<T> Default for SpecialStore<T> {
    fn default() -> (r: Self)
        ensures
            r@ == StoreView::<T>::empty(),
    {
        SpecialStore { entries: Vec::new(), shown: false, last_focused: None }
    }
}

impl<T> SpecialStore<T> {
    /// Position of the first entry that compares equal to `key`.
    fn position<U>(&self, key: &U) -> (r: Option<usize>) where T: PartialEq<U>
        ensures
            r is Some ==> r->0 < self@.entries.len(),
            eq_described::<T, U>() ==> (r is Some <==> self@.has(*key)),
            eq_described::<T, U>() ==> match r {
                Some(i) => seqs::is_first(self@.entries, eq_to(*key), i as int),
                None => seqs::first(self@.entries, eq_to(*key)) is None,
            },
    {
        let mut i: usize = 0;
        while i < self.entries.len()
            invariant
                i <= self.entries@.len(),
                eq_described::<T, U>() ==> forall|j: int|
                    0 <= j < i ==> !(#[trigger] self.entries@[j]).eq_spec(key),
            decreases self.entries@.len() - i,
        {
            if self.entries[i] == *key {
                return Some(i);
            }
            i = i + 1;
        }
        None
    }

    /// Add `entry` as the newest member, unless one compares equal to it.
    pub fn send(&mut self, entry: T) where T: PartialEq
        ensures
            final(self)@ == old(self)@ || final(self)@ == (StoreView {
                entries: old(self)@.entries.push(entry),
                ..old(self)@
            }),
            eq_described::<T, T>() ==> final(self)@ == old(self)@.sent(entry),
            eq_described::<T, T>() && old(self)@.distinct() ==> final(self)@.distinct(),
    {
        if !self.contains(&entry) {
            self.entries.push(entry);
        }
    }

    /// Whether a member compares equal to `key`.
    pub fn contains<U>(&self, key: &U) -> (r: bool) where T: PartialEq<U>
        ensures
            self@.entries.len() == 0 ==> !r,
            eq_described::<T, U>() ==> r == self@.has(*key),
    {
        self.position(key).is_some()
    }

    /// The members, oldest first.
    pub fn entries(&self) -> (r: &[T])
        ensures
            r@ == self@.entries,
    {
        self.entries.as_slice()
    }

    /// The first member that compares equal to `key`, for changing it in
    /// place.
    pub fn entry_mut<U>(&mut self, key: &U) -> (r: Option<&mut T>) where T: PartialEq<U>
        ensures
            match r {
                Some(e) => exists|i: int|
                    #![trigger old(self)@.entries[i]]
                    {
                        &&& 0 <= i < old(self)@.entries.len()
                        &&& *e == old(self)@.entries[i]
                        &&& final(self)@ == (StoreView {
                            entries: old(self)@.entries.update(i, *final(e)),
                            ..old(self)@
                        })
                        &&& eq_described::<T, U>() ==> seqs::is_first(
                            old(self)@.entries,
                            eq_to(*key),
                            i,
                        )
                    },
                None => final(self)@ == old(self)@,
            },
            eq_described::<T, U>() ==> (r is Some <==> old(self)@.has(*key)),
    {
        match self.position(key) {
            Some(idx) => Some(&mut self.entries[idx]),
            None => None,
        }
    }

    /// Take out the first member that compares equal to `key`; a matching
    /// last focused window is forgotten with it.
    pub fn take<U>(&mut self, key: &U) -> (r: Option<T>) where T: PartialEq<U>
        ensures
            match r {
                Some(e) => exists|i: int|
                    #![trigger old(self)@.entries[i]]
                    {
                        &&& 0 <= i < old(self)@.entries.len()
                        &&& e == old(self)@.entries[i]
                        &&& final(self)@.entries == old(self)@.entries.remove(i)
                        &&& final(self)@.shown == old(self)@.shown
                        &&& eq_described::<T, U>() ==> {
                            &&& seqs::is_first(old(self)@.entries, eq_to(*key), i)
                            &&& final(self)@ == old(self)@.without(i, *key)
                        }
                    },
                None => final(self)@ == old(self)@,
            },
            eq_described::<T, U>() ==> (r is Some <==> old(self)@.has(*key)),
    {
        match self.position(key) {
            Some(idx) => {
                let matching = match &self.last_focused {
                    Some(l) => *l == *key,
                    None => false,
                };
                if matching {
                    self.last_focused = None;
                }
                Some(self.entries.remove(idx))
            },
            None => None,
        }
    }

    /// Remember `entry` as the window focus returns to when the special is
    /// shown again.
    pub fn set_last_focused(&mut self, entry: &T) where T: Clone
        ensures
            final(self)@.entries == old(self)@.entries,
            final(self)@.shown == old(self)@.shown,
            final(self)@.last_focused is Some,
            cloned(*entry, final(self)@.last_focused->0),
    {
        self.last_focused = Some(entry.clone());
    }

    /// The window keyboard focus should land on when the special is shown:
    /// the last focused window while it is still a member, else the oldest
    /// member.
    pub fn focus_to_restore(&self) -> (r: Option<&T>) where T: PartialEq
        ensures
            self@.entries.len() == 0 <==> r is None,
            eq_described::<T, T>() ==> r == match self@.restored_focus() {
                Some(e) => Some(&e),
                None => None,
            },
    {
        match &self.last_focused {
            Some(l) => if self.contains(l) {
                return Some(l);
            },
            None => {},
        }
        if self.entries.len() == 0 {
            None
        } else {
            Some(&self.entries[0])
        }
    }

    /// Keep the members that `keep` accepts, in their order.
    pub fn retain(&mut self, keep: impl Fn(&T) -> bool)
        requires
            forall|i: int|
                0 <= i < old(self)@.entries.len() ==> call_requires(
                    keep,
                    (&#[trigger] old(self)@.entries[i],),
                ),
        ensures
            exists|kept: Seq<bool>|
                {
                    &&& kept.len() == old(self)@.entries.len()
                    &&& forall|i: int|
                        0 <= i < kept.len() ==> call_ensures(
                            keep,
                            (&#[trigger] old(self)@.entries[i],),
                            kept[i],
                        )
                    &&& final(self)@ == (StoreView {
                        entries: #[trigger] seqs::selected(old(self)@.entries, kept),
                        ..old(self)@
                    })
                },
    {
        let ghost entries = old(self)@.entries;
        let ghost mut kept: Seq<bool> = Seq::empty();
        let mut i: usize = 0;
        proof {
            assert(entries.take(0) =~= Seq::empty());
            assert(entries.skip(0) =~= entries);
        }
        while i < self.entries.len()
            invariant
                kept.len() <= entries.len(),
                i == seqs::selected(entries.take(kept.len() as int), kept).len(),
                self.entries@ == seqs::selected(entries.take(kept.len() as int), kept)
                    + entries.skip(kept.len() as int),
                self.shown == old(self)@.shown,
                self.last_focused == old(self)@.last_focused,
                entries == old(self)@.entries,
                forall|j: int|
                    0 <= j < entries.len() ==> call_requires(keep, (&#[trigger] entries[j],)),
                forall|j: int|
                    0 <= j < kept.len() ==> call_ensures(
                        keep,
                        (&#[trigger] entries[j],),
                        kept[j],
                    ),
            decreases entries.len() - kept.len(),
        {
            let ghost k = kept.len() as int;
            let keeps = keep(&self.entries[i]);
            if keeps {
                i = i + 1;
            } else {
                self.entries.remove(i);
            }
            proof {
                assert(entries[k] == old(self)@.entries[k]);
                let before = kept;
                kept = kept.push(keeps);
                assert(entries.take(k + 1).drop_last() =~= entries.take(k));
                seqs::lemma_selected_prefix(entries.take(k), before, kept);
                assert(entries.skip(k) =~= seq![entries[k]] + entries.skip(k + 1));
            }
        }
        proof {
            assert(entries.take(entries.len() as int) =~= entries);
            assert(kept.len() == entries.len());
        }
    }

    /// Whether the special workspace is visible.
    pub fn shown(&self) -> (r: bool)
        ensures
            r == self@.shown,
    {
        self.shown
    }

    /// Make the special workspace visible or hide it; its members stay.
    pub fn set_shown(&mut self, shown: bool)
        ensures
            final(self)@ == (StoreView { shown, ..old(self)@ }),
    {
        self.shown = shown;
    }

    /// Whether there is no member.
    pub fn is_empty(&self) -> (r: bool)
        ensures
            r == (self@.entries.len() == 0),
    {
        self.entries.is_empty()
    }

    /// How many members there are.
    pub fn len(&self) -> (r: usize)
        ensures
            r == self@.entries.len(),
    {
        self.entries.len()
    }
}

/// Taking a member out leaves the members distinct.
pub proof fn law_take_keeps_distinct<T: PartialEq<U> + PartialEq, U>(
    store: StoreView<T>,
    i: int,
    key: U,
)
    requires
        store.distinct(),
        0 <= i < store.entries.len(),
    ensures
        store.without(i, key).distinct(),
{
}

/// Keeping some of the members leaves them distinct.
pub proof fn law_retain_keeps_distinct<T: PartialEq>(store: StoreView<T>, kept: Seq<bool>)
    requires
        store.distinct(),
        kept.len() == store.entries.len(),
    ensures
        (StoreView { entries: seqs::selected(store.entries, kept), ..store }).distinct(),
    decreases store.entries.len(),
{
    if store.entries.len() > 0 {
        let shorter = StoreView { entries: store.entries.drop_last(), ..store };
        seqs::lemma_selected_prefix(shorter.entries, kept, kept.drop_last());
        law_retain_keeps_distinct(shorter, kept.drop_last());
        let rest = seqs::selected(shorter.entries, kept);
        let kept_shorter = StoreView { entries: rest, ..shorter };
        assert(kept_shorter.distinct());
        let all = seqs::selected(store.entries, kept);
        assert forall|i: int, j: int| 0 <= i < j < all.len() implies !(
        #[trigger] all[i]).eq_spec(#[trigger] &all[j]) by {
            if j < rest.len() {
                assert(kept_shorter.entries[i] == all[i] && kept_shorter.entries[j] == all[j]);
            } else {
                seqs::lemma_selected_from(shorter.entries, kept, i);
                let k = choose|k: int| 0 <= k < shorter.entries.len() && shorter.entries[k] == rest[i];
                assert(store.entries[k] == all[i]);
                assert(all[j] == store.entries[store.entries.len() - 1]);
                assert(!store.entries[k].eq_spec(&store.entries[store.entries.len() - 1]));
            }
        }
    }
}

/// A window sent twice is a member once: the second sending changes nothing.
pub proof fn law_send_is_idempotent<T: PartialEq>(store: StoreView<T>, entry: T)
    requires
        entry.eq_spec(&entry),
    ensures
        store.sent(entry).has(entry),
        store.sent(entry).sent(entry) == store.sent(entry),
{
    let sent = store.sent(entry);
    if !store.has(entry) {
        assert(sent.entries[store.entries.len() as int] == entry);
    }
}

/// A window that was sent to a store without it is what taking it out gives
/// back, and the store is then as it was, but for a last focused window that
/// compares equal to it.
pub proof fn law_take_undoes_send<T: PartialEq>(store: StoreView<T>, entry: T)
    requires
        entry.eq_spec(&entry),
        !store.has(entry),
    ensures
        seqs::is_first(store.sent(entry).entries, eq_to(entry), store.entries.len() as int),
        store.sent(entry).without(store.entries.len() as int, entry).entries == store.entries,
        store.sent(entry).without(store.entries.len() as int, entry).shown == store.shown,
        !(store.last_focused is Some && store.last_focused->0.eq_spec(&entry)) ==> store.sent(
            entry,
        ).without(store.entries.len() as int, entry) == store,
{
    let n = store.entries.len() as int;
    assert(store.sent(entry).entries.remove(n) =~= store.entries);
    assert forall|j: int| 0 <= j < n implies !eq_to::<T, T>(entry)(
        #[trigger] store.sent(entry).entries[j],
    ) by {
        assert(store.sent(entry).entries[j] == store.entries[j]);
    }
}

/// Focus is restored to a member, whatever was focused last, and to none only
/// where there is no member.
pub proof fn law_restored_focus_is_a_member<T: PartialEq>(store: StoreView<T>)
    requires
        forall|e: T| #[trigger] e.eq_spec(&e),
    ensures
        store.restored_focus() is None <==> store.entries.len() == 0,
        store.restored_focus() is Some ==> store.has(store.restored_focus()->0),
{
    if store.entries.len() > 0 {
        assert(store.entries[0].eq_spec(&store.entries[0]));
    }
}

/// Showing or hiding a special workspace keeps its members and what focus
/// returns to.
pub proof fn law_visibility_keeps_members<T: PartialEq>(store: StoreView<T>, shown: bool)
    ensures
        (StoreView { shown, ..store }).entries == store.entries,
        (StoreView { shown, ..store }).restored_focus() == store.restored_focus(),
{
    let other = StoreView { shown, ..store };
    if store.last_focused is Some {
        assert(other.has(other.last_focused->0) == store.has(store.last_focused->0));
    }
}

} // verus!
