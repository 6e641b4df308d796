//! The workspaces of all outputs, and where a window is found on them.

use vstd::prelude::*;

use crate::model;
use crate::model::{
    Effect, OutputId, SetView, SurfaceId, WindowId, WorkspaceHandle, WorkspaceSet, WorkspaceView,
};
use crate::seqs;

verus! {

/// The workspace sets of all outputs, in the order the outputs came.
#[derive(Debug)]
pub struct Workspaces {
    pub sets: Vec<WorkspaceSet>,
}

impl View for Workspaces {
    type V = Seq<SetView>;

    open spec fn view(&self) -> Seq<SetView> {
        Seq::new(self.sets@.len(), |i: int| self.sets@[i]@)
    }
}

/// A workspace, by the position of its set and its position in the set.
pub ghost struct Place {
    pub set: int,
    pub workspace: int,
}

/// The sets of `output`.
pub open spec fn set_of(output: OutputId) -> spec_fn(SetView) -> bool {
    |s: SetView| s.output == output
}

/// The sets whose sticky layer holds `window`.
pub open spec fn sticks(window: WindowId) -> spec_fn(SetView) -> bool {
    |s: SetView| model::sticky_has(s.sticky_layer, window)
}

/// The sets with a workspace that maps `window`.
pub open spec fn set_maps(window: WindowId) -> spec_fn(SetView) -> bool {
    |s: SetView|
        exists|j: int| 0 <= j < s.workspaces.len() && (#[trigger] s.workspaces[j]).maps(window)
}

/// The workspaces whose floating layer holds `window`.
pub open spec fn floats(window: WindowId) -> spec_fn(WorkspaceView) -> bool {
    |w: WorkspaceView| w.floats(window)
}

/// The workspaces that map `window`.
pub open spec fn maps(window: WindowId) -> spec_fn(WorkspaceView) -> bool {
    |w: WorkspaceView| w.maps(window)
}

/// The workspace of `output` that `window` floats on.
pub open spec fn floating_place(sets: Seq<SetView>, output: OutputId, window: WindowId) -> Option<
    Place,
> {
    match seqs::first(sets, set_of(output)) {
        Some(i) => match seqs::first(sets[i].workspaces, floats(window)) {
            Some(j) => Some(Place { set: i, workspace: j }),
            None => None,
        },
        None => None,
    }
}

/// The active workspace of `output`.
pub open spec fn active_place(sets: Seq<SetView>, output: OutputId) -> Option<Place> {
    match seqs::first(sets, set_of(output)) {
        Some(i) => if sets[i].active < sets[i].workspaces.len() {
            Some(Place { set: i, workspace: sets[i].active as int })
        } else {
            None
        },
        None => None,
    }
}

/// The first workspace that maps `window`.
pub open spec fn mapped_place(sets: Seq<SetView>, window: WindowId) -> Option<Place> {
    match seqs::first(sets, set_maps(window)) {
        Some(i) => match seqs::first(sets[i].workspaces, maps(window)) {
            Some(j) => Some(Place { set: i, workspace: j }),
            None => None,
        },
        None => None,
    }
}

/// The workspace at `place`.
pub open spec fn at(sets: Seq<SetView>, place: Place) -> WorkspaceView {
    sets[place.set].workspaces[place.workspace]
}

/// Whether `place` is one of `sets`.
pub open spec fn in_range(sets: Seq<SetView>, place: Place) -> bool {
    0 <= place.set < sets.len() && 0 <= place.workspace < sets[place.set].workspaces.len()
}

/// The sets with the workspace at `place` replaced.
pub open spec fn with_workspace(sets: Seq<SetView>, place: Place, workspace: WorkspaceView) -> Seq<
    SetView,
> {
    sets.update(
        place.set,
        SetView {
            workspaces: sets[place.set].workspaces.update(place.workspace, workspace),
            ..sets[place.set]
        },
    )
}

/// The set without `window` in its sticky layer and in the focus stacks of
/// its workspaces.
pub open spec fn unstuck(set: SetView, window: WindowId) -> SetView {
    SetView {
        sticky_layer: model::without_sticky(set.sticky_layer, window),
        workspaces: Seq::new(
            set.workspaces.len(),
            |i: int| set.workspaces[i].unfocused(window),
        ),
        ..set
    }
}

/// The set without `window` in any layer or focus stack.
pub open spec fn cleared(set: SetView, window: WindowId) -> SetView {
    SetView {
        sticky_layer: model::without_sticky(set.sticky_layer, window),
        workspaces: Seq::new(
            set.workspaces.len(),
            |j: int| set.workspaces[j].unmapped(window),
        ),
        ..set
    }
}

/// All sets without `window` in any layer or focus stack.
pub open spec fn all_cleared(sets: Seq<SetView>, window: WindowId) -> Seq<SetView> {
    Seq::new(sets.len(), |i: int| cleared(sets[i], window))
}

/// What has to be done to the compositor so that none of `workspaces` knows
/// `window` any more, one workspace after the other.
pub open spec fn workspaces_withdrawal(workspaces: Seq<WorkspaceView>, window: WindowId) -> Seq<
    Effect,
>
    decreases workspaces.len(),
{
    if workspaces.len() == 0 {
        Seq::empty()
    } else {
        workspaces_withdrawal(workspaces.drop_last(), window) + workspaces.last().withdrawal(window)
    }
}

/// What has to be done to the compositor so that a set does not know `window`
/// any more: it leaves the sticky layer first, where it is on that.
pub open spec fn set_withdrawal(set: SetView, window: WindowId) -> Seq<Effect> {
    if model::sticky_has(set.sticky_layer, window) {
        seq![Effect::UnmapSticky { output: set.output, window }] + workspaces_withdrawal(
            unstuck(set, window).workspaces,
            window,
        )
    } else {
        workspaces_withdrawal(set.workspaces, window)
    }
}

/// What has to be done to the compositor so that nothing knows `window` any
/// more, one output after the other.
pub open spec fn withdrawal(sets: Seq<SetView>, window: WindowId) -> Seq<Effect>
    decreases sets.len(),
{
    if sets.len() == 0 {
        Seq::empty()
    } else {
        withdrawal(sets.drop_last(), window) + set_withdrawal(sets.last(), window)
    }
}

/// Whether a workspace has `handle`.
pub open spec fn has_handle(sets: Seq<SetView>, handle: WorkspaceHandle) -> bool {
    exists|i: int, j: int|
        0 <= i < sets.len() && 0 <= j < sets[i].workspaces.len() && (
        #[trigger] sets[i].workspaces[j]).handle == handle
}

/// Whether the fullscreen layer of a workspace holds `surface`.
pub open spec fn has_fullscreen(sets: Seq<SetView>, surface: SurfaceId) -> bool {
    exists|i: int, j: int|
        0 <= i < sets.len() && 0 <= j < sets[i].workspaces.len() && (
        #[trigger] sets[i].workspaces[j]).fullscreen.contains(surface)
}

/// A window that is not on the sticky layer does not leave it.
pub proof fn lemma_not_sticky(set: SetView, window: WindowId)
    requires
        !model::sticky_has(set.sticky_layer, window),
    ensures
        model::without_sticky(set.sticky_layer, window) == set.sticky_layer,
{
    seqs::lemma_filter_all(set.sticky_layer, model::other_sticky(window));
}

/// Leaving the focus stacks first makes no difference to leaving a workspace.
pub proof fn lemma_unstuck_unmapped(set: SetView, window: WindowId)
    ensures
        forall|j: int|
            0 <= j < set.workspaces.len() ==> #[trigger] set.workspaces[j].unfocused(
                window,
            ).unmapped(window) == set.workspaces[j].unmapped(window),
{
    let p = model::other_target(window);
    assert forall|j: int| 0 <= j < set.workspaces.len() implies #[trigger] set.workspaces[j].unfocused(
        window,
    ).unmapped(window) == set.workspaces[j].unmapped(window) by {
        let workspace = set.workspaces[j];
        let twice = workspace.unfocused(window).unmapped(window);
        let once = workspace.unmapped(window);
        assert forall|s: int| 0 <= s < workspace.focus_stack.len() implies #[trigger] twice.focus_stack[s]
            == once.focus_stack[s] by {
            let targets = workspace.focus_stack[s].targets;
            assert forall|a: int| 0 <= a < targets.filter(p).len() implies p(
                #[trigger] targets.filter(p)[a],
            ) by {
                seqs::lemma_filter_from(targets, p, a);
            }
            seqs::lemma_filter_all(targets.filter(p), p);
        }
        assert(twice.focus_stack =~= once.focus_stack);
    }
}

impl WorkspaceSet {
    /// Position of the workspace that `window` floats on.
    fn floating_index(&self, window: WindowId) -> (r: Option<usize>)
        ensures
            match r {
                Some(j) => j < self.workspaces@.len() && seqs::first(
                    self@.workspaces,
                    floats(window),
                ) == Some(j as int),
                None => seqs::first(self@.workspaces, floats(window)) is None,
            },
    {
        let mut j: usize = 0;
        while j < self.workspaces.len()
            invariant
                j <= self.workspaces@.len(),
                forall|k: int| 0 <= k < j ==> !(#[trigger] self@.workspaces[k]).floats(window),
            decreases self.workspaces@.len() - j,
        {
            let here = self.workspaces[j].floats(window);
            assert(self@.workspaces[j as int] == self.workspaces@[j as int]@);
            if here {
                proof {
                    seqs::lemma_first_at(self@.workspaces, floats(window), j as int);
                }
                return Some(j);
            }
            j = j + 1;
        }
        proof {
            seqs::lemma_first_none(self@.workspaces, floats(window));
        }
        None
    }

    /// Position of the first workspace that maps `window`.
    fn mapped_index(&self, window: WindowId) -> (r: Option<usize>)
        ensures
            match r {
                Some(j) => j < self.workspaces@.len() && seqs::first(
                    self@.workspaces,
                    maps(window),
                ) == Some(j as int),
                None => seqs::first(self@.workspaces, maps(window)) is None,
            },
            r is Some <==> set_maps(window)(self@),
    {
        let mut j: usize = 0;
        while j < self.workspaces.len()
            invariant
                j <= self.workspaces@.len(),
                forall|k: int| 0 <= k < j ==> !(#[trigger] self@.workspaces[k]).maps(window),
            decreases self.workspaces@.len() - j,
        {
            let here = self.workspaces[j].maps(window);
            assert(self@.workspaces[j as int] == self.workspaces@[j as int]@);
            if here {
                proof {
                    seqs::lemma_first_at(self@.workspaces, maps(window), j as int);
                }
                return Some(j);
            }
            j = j + 1;
        }
        proof {
            seqs::lemma_first_none(self@.workspaces, maps(window));
        }
        None
    }

    /// Whether the sticky layer holds `window`.
    pub fn sticks(&self, window: WindowId) -> (r: bool)
        ensures
            r == model::sticky_has(self@.sticky_layer, window),
    {
        model::find_sticky(&self.sticky_layer, window).is_some()
    }

    /// Take `window` out of the sticky layer and out of the focus stacks of
    /// the workspaces.
    pub fn unmap_sticky(&mut self, window: WindowId)
        ensures
            final(self)@ == unstuck(old(self)@, window),
    {
        model::drop_sticky(&mut self.sticky_layer, window);
        let mut i: usize = 0;
        while i < self.workspaces.len()
            invariant
                i <= self.workspaces@.len(),
                self.output == old(self).output,
                self.output_size == old(self).output_size,
                self.active == old(self).active,
                self.sticky_layer@ == model::without_sticky(old(self).sticky_layer@, window),
                self.workspaces@.len() == old(self).workspaces@.len(),
                forall|j: int|
                    0 <= j < i ==> (#[trigger] self.workspaces@[j])@ == old(
                        self,
                    ).workspaces@[j]@.unfocused(window),
                forall|j: int|
                    i <= j < self.workspaces@.len() ==> #[trigger] self.workspaces@[j] == old(
                        self,
                    ).workspaces@[j],
            decreases self.workspaces@.len() - i,
        {
            self.workspaces[i].remove_focus(window);
            i = i + 1;
        }
    }

    /// Take `window` out of every layer and focus stack, and note what has to
    /// be done to the compositor for that.
    pub fn withdraw(&mut self, window: WindowId, effects: &mut Vec<Effect>)
        ensures
            final(self)@ == cleared(old(self)@, window),
            final(effects)@ == old(effects)@ + set_withdrawal(old(self)@, window),
    {
        if self.sticks(window) {
            effects.push(Effect::UnmapSticky { output: self.output, window });
            self.unmap_sticky(window);
        } else {
            proof {
                lemma_not_sticky(self@, window);
            }
        }
        let ghost start = self@;
        let ghost noted = effects@;
        let mut j: usize = 0;
        assert(start.workspaces.take(0) =~= Seq::empty());
        while j < self.workspaces.len()
            invariant
                j <= self.workspaces@.len(),
                self@ == (SetView { workspaces: self@.workspaces, ..start }),
                self.workspaces@.len() == start.workspaces.len(),
                forall|k: int|
                    0 <= k < j ==> #[trigger] self@.workspaces[k] == start.workspaces[k].unmapped(
                        window,
                    ),
                forall|k: int|
                    j <= k < self.workspaces@.len() ==> #[trigger] self@.workspaces[k]
                        == start.workspaces[k],
                effects@ == noted + workspaces_withdrawal(
                    start.workspaces.take(j as int),
                    window,
                ),
            decreases self.workspaces@.len() - j,
        {
            let ghost here = self@;
            assert(self@.workspaces[j as int] == self.workspaces@[j as int]@);
            self.workspaces[j].withdraw(window, effects);
            proof {
                assert forall|k: int|
                    0 <= k < self.workspaces@.len() && k != j implies #[trigger] self@.workspaces[k]
                    == here.workspaces[k] by {}
                assert(start.workspaces.take(j + 1).drop_last() =~= start.workspaces.take(
                    j as int,
                ));
                assert(effects@ =~= noted + workspaces_withdrawal(
                    start.workspaces.take(j + 1),
                    window,
                ));
            }
            j = j + 1;
        }
        proof {
            assert(start.workspaces.take(start.workspaces.len() as int) =~= start.workspaces);
            lemma_unstuck_unmapped(old(self)@, window);
            assert(self@ =~~= cleared(old(self)@, window));
            assert(effects@ =~= old(effects)@ + set_withdrawal(old(self)@, window));
        }
    }
}

impl Workspaces {
    /// Position of the set of `output`.
    fn set_index(&self, output: OutputId) -> (r: Option<usize>)
        ensures
            match r {
                Some(i) => i < self.sets@.len() && seqs::first(self@, set_of(output)) == Some(
                    i as int,
                ),
                None => seqs::first(self@, set_of(output)) is None,
            },
    {
        let mut i: usize = 0;
        while i < self.sets.len()
            invariant
                i <= self.sets@.len(),
                forall|k: int| 0 <= k < i ==> (#[trigger] self@[k]).output != output,
            decreases self.sets@.len() - i,
        {
            assert(self@[i as int] == self.sets@[i as int]@);
            if self.sets[i].output == output {
                proof {
                    seqs::lemma_first_at(self@, set_of(output), i as int);
                }
                return Some(i);
            }
            i = i + 1;
        }
        proof {
            seqs::lemma_first_none(self@, set_of(output));
        }
        None
    }

    /// The workspace of `output` that `window` floats on.
    pub fn floating_place(&self, output: OutputId, window: WindowId) -> (r: Option<(usize, usize)>)
        ensures
            match r {
                Some((i, j)) => {
                    let place = Place { set: i as int, workspace: j as int };
                    in_range(self@, place) && floating_place(self@, output, window) == Some(place)
                },
                None => floating_place(self@, output, window) is None,
            },
    {
        match self.set_index(output) {
            Some(i) => {
                assert(self@[i as int] == self.sets@[i as int]@);
                match self.sets[i].floating_index(window) {
                    Some(j) => Some((i, j)),
                    None => None,
                }
            },
            None => None,
        }
    }

    /// The active workspace of `output`.
    pub fn active_place(&self, output: OutputId) -> (r: Option<(usize, usize)>)
        ensures
            match r {
                Some((i, j)) => {
                    let place = Place { set: i as int, workspace: j as int };
                    in_range(self@, place) && active_place(self@, output) == Some(place)
                },
                None => active_place(self@, output) is None,
            },
    {
        match self.set_index(output) {
            Some(i) => {
                assert(self@[i as int] == self.sets@[i as int]@);
                if self.sets[i].active < self.sets[i].workspaces.len() {
                    Some((i, self.sets[i].active))
                } else {
                    None
                }
            },
            None => None,
        }
    }

    /// The first workspace that maps `window`.
    pub fn mapped_place(&self, window: WindowId) -> (r: Option<(usize, usize)>)
        ensures
            match r {
                Some((i, j)) => {
                    let place = Place { set: i as int, workspace: j as int };
                    in_range(self@, place) && mapped_place(self@, window) == Some(place)
                },
                None => mapped_place(self@, window) is None,
            },
    {
        let mut i: usize = 0;
        while i < self.sets.len()
            invariant
                i <= self.sets@.len(),
                forall|k: int| 0 <= k < i ==> !set_maps(window)(#[trigger] self@[k]),
            decreases self.sets@.len() - i,
        {
            assert(self@[i as int] == self.sets@[i as int]@);
            match self.sets[i].mapped_index(window) {
                Some(j) => {
                    proof {
                        seqs::lemma_first_at(self@, set_maps(window), i as int);
                    }
                    return Some((i, j));
                },
                None => {},
            }
            i = i + 1;
        }
        proof {
            seqs::lemma_first_none(self@, set_maps(window));
        }
        None
    }

    /// Position of the first set whose sticky layer holds `window`.
    pub fn sticky_index(&self, window: WindowId) -> (r: Option<usize>)
        ensures
            match r {
                Some(i) => i < self@.len() && seqs::first(self@, sticks(window)) == Some(i as int),
                None => seqs::first(self@, sticks(window)) is None,
            },
    {
        let mut i: usize = 0;
        while i < self.sets.len()
            invariant
                i <= self.sets@.len(),
                forall|k: int| 0 <= k < i ==> !sticks(window)(#[trigger] self@[k]),
            decreases self.sets@.len() - i,
        {
            assert(self@[i as int] == self.sets@[i as int]@);
            if self.sets[i].sticks(window) {
                proof {
                    seqs::lemma_first_at(self@, sticks(window), i as int);
                }
                return Some(i);
            }
            i = i + 1;
        }
        proof {
            seqs::lemma_first_none(self@, sticks(window));
        }
        None
    }

    /// Take `window` out of every layer and focus stack of every output, and
    /// note what has to be done to the compositor for that.
    pub fn withdraw(&mut self, window: WindowId, effects: &mut Vec<Effect>)
        ensures
            final(self)@ == all_cleared(old(self)@, window),
            final(effects)@ == old(effects)@ + withdrawal(old(self)@, window),
    {
        let ghost start = self@;
        let ghost noted = effects@;
        let mut i: usize = 0;
        assert(start.take(0) =~= Seq::empty());
        while i < self.sets.len()
            invariant
                i <= self.sets@.len(),
                self.sets@.len() == start.len(),
                forall|k: int| 0 <= k < i ==> #[trigger] self@[k] == cleared(start[k], window),
                forall|k: int| i <= k < self.sets@.len() ==> #[trigger] self@[k] == start[k],
                effects@ == noted + withdrawal(start.take(i as int), window),
            decreases self.sets@.len() - i,
        {
            let ghost here = self@;
            assert(self@[i as int] == self.sets@[i as int]@);
            self.sets[i].withdraw(window, effects);
            proof {
                assert forall|k: int|
                    0 <= k < self.sets@.len() && k != i implies #[trigger] self@[k] == here[k] by {}
                assert(start.take(i + 1).drop_last() =~= start.take(i as int));
                assert(effects@ =~= noted + withdrawal(start.take(i + 1), window));
            }
            i = i + 1;
        }
        proof {
            assert(start.take(start.len() as int) =~= start);
            assert(self@ =~= all_cleared(start, window));
        }
    }

    /// Whether a workspace has `handle`.
    pub fn has_handle(&self, handle: WorkspaceHandle) -> (r: bool)
        ensures
            r == has_handle(self@, handle),
    {
        let mut i: usize = 0;
        while i < self.sets.len()
            invariant
                i <= self.sets@.len(),
                forall|a: int, b: int|
                    0 <= a < i && 0 <= b < self@[a].workspaces.len() ==> (
                    #[trigger] self@[a].workspaces[b]).handle != handle,
            decreases self.sets@.len() - i,
        {
            assert(self@[i as int] == self.sets@[i as int]@);
            let mut j: usize = 0;
            while j < self.sets[i].workspaces.len()
                invariant
                    i < self.sets@.len(),
                    j <= self.sets@[i as int].workspaces@.len(),
                    forall|b: int|
                        0 <= b < j ==> (#[trigger] self@[i as int].workspaces[b]).handle != handle,
                decreases self.sets@[i as int].workspaces@.len() - j,
            {
                assert(self@[i as int].workspaces[j as int]
                    == self.sets@[i as int].workspaces@[j as int]@);
                if self.sets[i].workspaces[j].handle == handle {
                    return true;
                }
                j = j + 1;
            }
            i = i + 1;
        }
        false
    }

    /// Whether the fullscreen layer of a workspace holds `surface`.
    pub fn has_fullscreen(&self, surface: SurfaceId) -> (r: bool)
        ensures
            r == has_fullscreen(self@, surface),
    {
        let mut i: usize = 0;
        while i < self.sets.len()
            invariant
                i <= self.sets@.len(),
                forall|a: int, b: int|
                    0 <= a < i && 0 <= b < self@[a].workspaces.len() ==> !(
                    #[trigger] self@[a].workspaces[b]).fullscreen.contains(surface),
            decreases self.sets@.len() - i,
        {
            assert(self@[i as int] == self.sets@[i as int]@);
            let mut j: usize = 0;
            while j < self.sets[i].workspaces.len()
                invariant
                    i < self.sets@.len(),
                    j <= self.sets@[i as int].workspaces@.len(),
                    forall|b: int|
                        0 <= b < j ==> !(
                        #[trigger] self@[i as int].workspaces[b]).fullscreen.contains(surface),
                decreases self.sets@[i as int].workspaces@.len() - j,
            {
                assert(self@[i as int].workspaces[j as int]
                    == self.sets@[i as int].workspaces@[j as int]@);
                if self.sets[i].workspaces[j].has_fullscreen(surface) {
                    return true;
                }
                j = j + 1;
            }
            i = i + 1;
        }
        false
    }
}

} // verus!
