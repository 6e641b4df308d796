//! What the special workspaces read of the compositor: windows, seats and the
//! layers of each workspace, as plain values.
//!
//! Every identifier names one object of the compositor. A [`WorkspaceSet`] is
//! a picture of the compositor at the time of a call: which windows each
//! layer holds, and what a layer would give back if a window left it.

use vstd::prelude::*;

use crate::geometry::{Rect, Size};
use crate::seqs;

verus! {

/// A mapped window (a single toplevel or a stack of them).
#[derive(Debug, Clone, Copy, PartialEq, Eq, Structural)]
pub struct WindowId(pub u64);

/// One toplevel surface.
#[derive(Debug, Clone, Copy, PartialEq, Eq, Structural)]
pub struct SurfaceId(pub u64);

/// An output.
#[derive(Debug, Clone, Copy, PartialEq, Eq, Structural)]
pub struct OutputId(pub u64);

/// A seat.
#[derive(Debug, Clone, Copy, PartialEq, Eq, Structural)]
pub struct SeatId(pub u64);

/// A workspace, as the workspace protocol names it.
#[derive(Debug, Clone, Copy, PartialEq, Eq, Structural)]
pub struct WorkspaceHandle(pub u64);

/// Layout state that the layout itself keeps for a window it let go.
#[derive(Debug, Clone, Copy, PartialEq, Eq, Structural)]
pub struct RestoreToken(pub u64);

/// Where the keyboard can point.
#[derive(Debug, Clone, Copy, PartialEq, Eq, Structural)]
pub enum KeyboardFocusTarget {
    /// A mapped window.
    Element(WindowId),
    /// A surface of a workspace's fullscreen layer.
    Fullscreen(SurfaceId),
    /// Anything else: a group, a layer surface, a popup, a lock surface.
    Other,
}

/// One entry of a focus stack.
#[derive(Debug, Clone, Copy, PartialEq, Eq, Structural)]
pub enum FocusTarget {
    Window(WindowId),
    Fullscreen(SurfaceId),
}

/// The edge or corner a floating window is snapped to.
#[derive(Debug, Clone, Copy, PartialEq, Eq, Structural)]
pub enum TiledCorners {
    Top,
    TopRight,
    Right,
    BottomRight,
    Bottom,
    BottomLeft,
    Left,
    TopLeft,
}

/// What a floating layer remembers of a window that left it.
#[derive(Debug, Clone, Copy, PartialEq, Eq, Structural)]
pub struct FloatingRestoreData {
    pub geometry: Rect,
    pub output_size: Size,
    pub was_maximized: bool,
    pub was_snapped: Option<TiledCorners>,
}

/// What a tiling layer remembers of a window that left it.
#[derive(Debug, Clone, Copy, PartialEq, Eq, Structural)]
pub struct TilingRestoreData {
    pub state: Option<RestoreToken>,
    pub was_maximized: bool,
}

/// What a workspace remembers of a window that left it.
#[derive(Debug, Clone, Copy, PartialEq, Eq, Structural)]
pub enum WorkspaceRestoreData {
    Fullscreen(RestoreToken),
    Tiling(TilingRestoreData),
    Floating(FloatingRestoreData),
}

impl WorkspaceRestoreData {
    /// Whether the window was maximized when it left.
    pub open spec fn maximized(self) -> bool {
        match self {
            WorkspaceRestoreData::Floating(f) => f.was_maximized,
            WorkspaceRestoreData::Tiling(t) => t.was_maximized,
            WorkspaceRestoreData::Fullscreen(_) => false,
        }
    }

    /// The same state of a window that was not maximized.
    pub open spec fn unmaximized(self) -> Self {
        match self {
            WorkspaceRestoreData::Floating(f) => WorkspaceRestoreData::Floating(
                FloatingRestoreData { was_maximized: false, ..f },
            ),
            WorkspaceRestoreData::Tiling(t) => WorkspaceRestoreData::Tiling(
                TilingRestoreData { was_maximized: false, ..t },
            ),
            WorkspaceRestoreData::Fullscreen(r) => WorkspaceRestoreData::Fullscreen(r),
        }
    }
}

/// A window that the compositor knows.
#[derive(Debug, Clone, Copy, PartialEq, Eq, Structural)]
pub struct WindowState {
    pub id: WindowId,
    /// The toplevel that is on top of the window's stack.
    pub active_surface: SurfaceId,
    pub maximized: bool,
    /// Whether its client still is there.
    pub alive: bool,
}

/// A seat, with the output it is on and where its keyboard points.
#[derive(Debug, Clone, Copy, PartialEq, Eq, Structural)]
pub struct Seat {
    pub id: SeatId,
    pub active_output: OutputId,
    /// `None` also for a seat without a keyboard.
    pub focus: Option<KeyboardFocusTarget>,
}

/// A window in a layer of a workspace.
#[derive(Debug, Clone, Copy, PartialEq, Eq, Structural)]
pub struct MappedElement {
    pub window: WindowId,
    /// What the workspace hands out when the window is unmapped; `None` where
    /// it would refuse.
    pub restore: Option<WorkspaceRestoreData>,
}

/// A window in the sticky layer of an output.
#[derive(Debug, Clone, Copy, PartialEq, Eq, Structural)]
pub struct StickyElement {
    pub window: WindowId,
    pub geometry: Rect,
}

/// What has to be done to the compositor, in order, after a call.
#[derive(Debug, Clone, Copy, PartialEq, Eq, Structural)]
pub enum Effect {
    /// Take the window out of the workspace's floating layer and out of every
    /// focus stack of the workspace.
    UnmapFloating { handle: WorkspaceHandle, window: WindowId },
    /// Take the window out of the workspace's layouts and focus stacks.
    UnmapElement { handle: WorkspaceHandle, window: WindowId },
    /// Take the window out of the output's sticky layer and out of the focus
    /// stacks of the output's workspaces.
    UnmapSticky { output: OutputId, window: WindowId },
    /// Take the window out of every focus stack of the workspace.
    Unfocus { handle: WorkspaceHandle, window: WindowId },
    /// Put the window on the workspace's floating layer, placed automatically.
    MapFloating { handle: WorkspaceHandle, window: WindowId },
    /// Tell clients that the window's toplevels left the workspace.
    LeaveWorkspace { handle: WorkspaceHandle, window: WindowId },
    /// Tell clients that the window's toplevels entered the workspace.
    EnterWorkspace { handle: WorkspaceHandle, window: WindowId },
    /// Maximize the window again.
    Maximize { window: WindowId },
}

/// The focus stack of one seat on one workspace.
#[derive(Debug)]
pub struct SeatStack {
    pub seat: SeatId,
    /// Most recently focused first.
    pub targets: Vec<FocusTarget>,
}

/// One workspace.
#[derive(Debug)]
pub struct Workspace {
    pub handle: WorkspaceHandle,
    /// Windows of the floating layer, the base of the stack first.
    pub floating: Vec<MappedElement>,
    /// Windows of the tiling layer.
    pub tiling: Vec<MappedElement>,
    /// Surfaces of the fullscreen layer.
    pub fullscreen: Vec<SurfaceId>,
    pub focus_stack: Vec<SeatStack>,
}

/// The workspaces of one output.
#[derive(Debug)]
pub struct WorkspaceSet {
    pub output: OutputId,
    /// Logical size of the output.
    pub output_size: Size,
    /// Position of the active workspace.
    pub active: usize,
    /// Windows that are visible on every workspace of the output.
    pub sticky_layer: Vec<StickyElement>,
    pub workspaces: Vec<Workspace>,
}

/// What a [`SeatStack`] holds.
#[verifier::ext_equal]
pub ghost struct SeatStackView {
    pub seat: SeatId,
    pub targets: Seq<FocusTarget>,
}

/// What a [`Workspace`] holds.
#[verifier::ext_equal]
pub ghost struct WorkspaceView {
    pub handle: WorkspaceHandle,
    pub floating: Seq<MappedElement>,
    pub tiling: Seq<MappedElement>,
    pub fullscreen: Seq<SurfaceId>,
    pub focus_stack: Seq<SeatStackView>,
}

/// What a [`WorkspaceSet`] holds.
#[verifier::ext_equal]
pub ghost struct SetView {
    pub output: OutputId,
    pub output_size: Size,
    pub active: usize,
    pub sticky_layer: Seq<StickyElement>,
    pub workspaces: Seq<WorkspaceView>,
}

impl View for SeatStack {
    type V = SeatStackView;

    open spec fn view(&self) -> SeatStackView {
        SeatStackView { seat: self.seat, targets: self.targets@ }
    }
}

impl View for Workspace {
    type V = WorkspaceView;

    open spec fn view(&self) -> WorkspaceView {
        WorkspaceView {
            handle: self.handle,
            floating: self.floating@,
            tiling: self.tiling@,
            fullscreen: self.fullscreen@,
            focus_stack: Seq::new(self.focus_stack@.len(), |i: int| self.focus_stack@[i]@),
        }
    }
}

impl View for WorkspaceSet {
    type V = SetView;

    open spec fn view(&self) -> SetView {
        SetView {
            output: self.output,
            output_size: self.output_size,
            active: self.active,
            sticky_layer: self.sticky_layer@,
            workspaces: Seq::new(self.workspaces@.len(), |i: int| self.workspaces@[i]@),
        }
    }
}

/// The elements of a layer other than `window`.
pub open spec fn without_window(layer: Seq<MappedElement>, window: WindowId) -> Seq<MappedElement> {
    layer.filter(other_element(window))
}

/// The elements of a sticky layer other than `window`.
pub open spec fn without_sticky(layer: Seq<StickyElement>, window: WindowId) -> Seq<StickyElement> {
    layer.filter(other_sticky(window))
}

/// Whether a layer holds `window`.
pub open spec fn layer_has(layer: Seq<MappedElement>, window: WindowId) -> bool {
    exists|i: int| 0 <= i < layer.len() && (#[trigger] layer[i]).window == window
}

/// Whether a sticky layer holds `window`.
pub open spec fn sticky_has(layer: Seq<StickyElement>, window: WindowId) -> bool {
    exists|i: int| 0 <= i < layer.len() && (#[trigger] layer[i]).window == window
}

/// The elements that are `window`.
pub open spec fn element_of(window: WindowId) -> spec_fn(MappedElement) -> bool {
    |e: MappedElement| e.window == window
}

/// The sticky elements that are `window`.
pub open spec fn sticky_of(window: WindowId) -> spec_fn(StickyElement) -> bool {
    |e: StickyElement| e.window == window
}

/// The elements that are not `window`.
pub open spec fn other_element(window: WindowId) -> spec_fn(MappedElement) -> bool {
    |e: MappedElement| e.window != window
}

/// The sticky elements that are not `window`.
pub open spec fn other_sticky(window: WindowId) -> spec_fn(StickyElement) -> bool {
    |e: StickyElement| e.window != window
}

/// The focus stacks that belong to `seat`.
pub open spec fn stack_of(seat: SeatId) -> spec_fn(SeatStackView) -> bool {
    |s: SeatStackView| s.seat == seat
}

/// Whether `target` is anything but `window`.
pub open spec fn other_target(window: WindowId) -> spec_fn(FocusTarget) -> bool {
    |t: FocusTarget| t != FocusTarget::Window(window)
}

impl WorkspaceView {
    /// Whether the floating layer holds `window`.
    pub open spec fn floats(self, window: WindowId) -> bool {
        layer_has(self.floating, window)
    }

    /// Whether a layout of the workspace holds `window`.
    pub open spec fn maps(self, window: WindowId) -> bool {
        layer_has(self.floating, window) || layer_has(self.tiling, window)
    }

    /// Whether a focus stack of the workspace holds `window`.
    pub open spec fn focuses(self, window: WindowId) -> bool {
        exists|s: int|
            0 <= s < self.focus_stack.len() && (#[trigger] self.focus_stack[s]).targets.contains(
                FocusTarget::Window(window),
            )
    }

    /// What has to be done to the compositor so that the workspace does not
    /// know `window` any more.
    pub open spec fn withdrawal(self, window: WindowId) -> Seq<Effect> {
        if layer_has(self.tiling, window) {
            seq![
                Effect::UnmapElement { handle: self.handle, window },
                Effect::LeaveWorkspace { handle: self.handle, window },
            ]
        } else if layer_has(self.floating, window) {
            seq![
                Effect::UnmapFloating { handle: self.handle, window },
                Effect::LeaveWorkspace { handle: self.handle, window },
            ]
        } else if self.focuses(window) {
            seq![Effect::Unfocus { handle: self.handle, window }]
        } else {
            Seq::empty()
        }
    }

    /// The workspace without `window` in its focus stacks.
    pub open spec fn unfocused(self, window: WindowId) -> Self {
        WorkspaceView {
            focus_stack: Seq::new(
                self.focus_stack.len(),
                |i: int|
                    SeatStackView {
                        seat: self.focus_stack[i].seat,
                        targets: self.focus_stack[i].targets.filter(other_target(window)),
                    },
            ),
            ..self
        }
    }

    /// The workspace without `window` in its floating layer and focus stacks.
    pub open spec fn unfloated(self, window: WindowId) -> Self {
        WorkspaceView { floating: without_window(self.floating, window), ..self.unfocused(window) }
    }

    /// The workspace without `window` in its layouts and focus stacks.
    pub open spec fn unmapped(self, window: WindowId) -> Self {
        WorkspaceView {
            floating: without_window(self.floating, window),
            tiling: without_window(self.tiling, window),
            ..self.unfocused(window)
        }
    }

    /// The workspace with `window` on top of its floating layer. What the
    /// layer will hand out for it is for the next picture to say.
    pub open spec fn floated(self, window: WindowId) -> Self {
        WorkspaceView {
            floating: without_window(self.floating, window).push(
                MappedElement { window, restore: None },
            ),
            ..self
        }
    }

    /// What the workspace hands out for `window` when it is unmapped.
    pub open spec fn restore_of(self, window: WindowId) -> Option<WorkspaceRestoreData> {
        match seqs::first(self.floating, element_of(window)) {
            Some(i) => self.floating[i].restore,
            None => match seqs::first(self.tiling, element_of(window)) {
                Some(i) => self.tiling[i].restore,
                None => None,
            },
        }
    }

    /// The focus stack of `seat`, most recently focused first.
    pub open spec fn targets_of(self, seat: SeatId) -> Seq<FocusTarget> {
        match seqs::first(self.focus_stack, stack_of(seat)) {
            Some(i) => self.focus_stack[i].targets,
            None => Seq::empty(),
        }
    }

    /// The window at the base of the workspace's window stack.
    pub open spec fn base(self) -> Option<WindowId> {
        if self.floating.len() > 0 {
            Some(self.floating[0].window)
        } else if self.tiling.len() > 0 {
            Some(self.tiling[0].window)
        } else {
            None
        }
    }
}

/// Keep the elements of a list that `keep` accepts, in their order.
fn keep_where<T: Copy>(list: &mut Vec<T>, keep: impl Fn(&T) -> bool, Ghost(p): Ghost<
    spec_fn(T) -> bool,
>)
    requires
        forall|e: T| #[trigger] call_requires(keep, (&e,)),
        forall|e: T, r: bool| #[trigger] call_ensures(keep, (&e,), r) ==> r == p(e),
    ensures
        final(list)@ == old(list)@.filter(p),
{
    let mut kept: Vec<T> = Vec::new();
    let mut i: usize = 0;
    proof {
        reveal(Seq::filter);
        assert(list@.take(0).filter(p) =~= Seq::empty());
    }
    while i < list.len()
        invariant
            i <= list@.len(),
            list@ == old(list)@,
            kept@ == list@.take(i as int).filter(p),
            forall|e: T| #[trigger] call_requires(keep, (&e,)),
            forall|e: T, r: bool| #[trigger] call_ensures(keep, (&e,), r) ==> r == p(e),
        decreases list@.len() - i,
    {
        proof {
            seqs::lemma_filter_step(list@, p, i as int);
        }
        if keep(&list[i]) {
            kept.push(list[i]);
        }
        i = i + 1;
    }
    proof {
        assert(list@.take(list@.len() as int) =~= list@);
    }
    *list = kept;
}

/// Take `window` out of a layer.
fn drop_element(layer: &mut Vec<MappedElement>, window: WindowId)
    ensures
        final(layer)@ == without_window(old(layer)@, window),
{
    let keep = |e: &MappedElement| -> (r: bool)
        ensures
            r == (e.window != window),
        { e.window != window };
    keep_where(layer, keep, Ghost(other_element(window)));
}

/// Take `window` out of a sticky layer.
pub(crate) fn drop_sticky(layer: &mut Vec<StickyElement>, window: WindowId)
    ensures
        final(layer)@ == without_sticky(old(layer)@, window),
{
    let keep = |e: &StickyElement| -> (r: bool)
        ensures
            r == (e.window != window),
        { e.window != window };
    keep_where(layer, keep, Ghost(other_sticky(window)));
}

/// Take `window` out of a focus stack.
fn drop_target(targets: &mut Vec<FocusTarget>, window: WindowId)
    ensures
        final(targets)@ == old(targets)@.filter(other_target(window)),
{
    let keep = |t: &FocusTarget| -> (r: bool)
        ensures
            r == (*t != FocusTarget::Window(window)),
        { *t != FocusTarget::Window(window) };
    keep_where(targets, keep, Ghost(other_target(window)));
}

/// Position of `window` in a layer.
fn find_element(layer: &Vec<MappedElement>, window: WindowId) -> (r: Option<usize>)
    ensures
        match r {
            Some(i) => {
                &&& seqs::is_first(layer@, element_of(window), i as int)
                &&& seqs::first(layer@, element_of(window)) == Some(i as int)
            },
            None => seqs::first(layer@, element_of(window)) is None,
        },
        r is Some <==> layer_has(layer@, window),
{
    let mut i: usize = 0;
    while i < layer.len()
        invariant
            i <= layer@.len(),
            forall|j: int| 0 <= j < i ==> (#[trigger] layer@[j]).window != window,
        decreases layer@.len() - i,
    {
        if layer[i].window == window {
            proof {
                seqs::lemma_first_at(layer@, element_of(window), i as int);
            }
            return Some(i);
        }
        i = i + 1;
    }
    None
}

/// Position of `window` in a sticky layer.
pub(crate) fn find_sticky(layer: &Vec<StickyElement>, window: WindowId) -> (r: Option<usize>)
    ensures
        match r {
            Some(i) => {
                &&& seqs::is_first(layer@, sticky_of(window), i as int)
                &&& seqs::first(layer@, sticky_of(window)) == Some(i as int)
            },
            None => seqs::first(layer@, sticky_of(window)) is None,
        },
        r is Some <==> sticky_has(layer@, window),
{
    let mut i: usize = 0;
    while i < layer.len()
        invariant
            i <= layer@.len(),
            forall|j: int| 0 <= j < i ==> (#[trigger] layer@[j]).window != window,
        decreases layer@.len() - i,
    {
        if layer[i].window == window {
            proof {
                seqs::lemma_first_at(layer@, sticky_of(window), i as int);
            }
            return Some(i);
        }
        i = i + 1;
    }
    None
}

impl Workspace {
    /// Whether the floating layer holds `window`.
    pub fn floats(&self, window: WindowId) -> (r: bool)
        ensures
            r == self@.floats(window),
    {
        find_element(&self.floating, window).is_some()
    }

    /// Whether a layout of the workspace holds `window`.
    pub fn maps(&self, window: WindowId) -> (r: bool)
        ensures
            r == self@.maps(window),
    {
        find_element(&self.floating, window).is_some() || find_element(
            &self.tiling,
            window,
        ).is_some()
    }

    /// Whether the fullscreen layer holds `surface`.
    pub fn has_fullscreen(&self, surface: SurfaceId) -> (r: bool)
        ensures
            r == self@.fullscreen.contains(surface),
    {
        let mut i: usize = 0;
        while i < self.fullscreen.len()
            invariant
                i <= self.fullscreen@.len(),
                forall|j: int| 0 <= j < i ==> #[trigger] self.fullscreen@[j] != surface,
            decreases self.fullscreen@.len() - i,
        {
            if self.fullscreen[i] == surface {
                return true;
            }
            i = i + 1;
        }
        false
    }

    /// Take `window` out of every seat's focus stack.
    pub fn remove_focus(&mut self, window: WindowId)
        ensures
            final(self)@ == old(self)@.unfocused(window),
    {
        let mut i: usize = 0;
        while i < self.focus_stack.len()
            invariant
                i <= self.focus_stack@.len(),
                self.handle == old(self).handle,
                self.floating == old(self).floating,
                self.tiling == old(self).tiling,
                self.fullscreen == old(self).fullscreen,
                self.focus_stack@.len() == old(self).focus_stack@.len(),
                forall|j: int|
                    0 <= j < i ==> (#[trigger] self.focus_stack@[j])@ == old(self)@.unfocused(
                        window,
                    ).focus_stack[j],
                forall|j: int|
                    i <= j < self.focus_stack@.len() ==> #[trigger] self.focus_stack@[j] == old(
                        self,
                    ).focus_stack@[j],
            decreases self.focus_stack@.len() - i,
        {
            drop_target(&mut self.focus_stack[i].targets, window);
            i = i + 1;
        }
    }

    /// Take `window` out of the floating layer and the focus stacks.
    pub fn unmap_floating(&mut self, window: WindowId)
        ensures
            final(self)@ == old(self)@.unfloated(window),
    {
        drop_element(&mut self.floating, window);
        self.remove_focus(window);
    }

    /// Take `window` out of the layouts and the focus stacks, and hand out
    /// what the workspace remembers of it. Where the workspace refuses,
    /// nothing changes.
    pub fn unmap_element(&mut self, window: WindowId) -> (r: Option<WorkspaceRestoreData>)
        ensures
            r == old(self)@.restore_of(window),
            r is None ==> final(self)@ == old(self)@,
            r is Some ==> final(self)@ == old(self)@.unmapped(window),
    {
        let restore = match find_element(&self.floating, window) {
            Some(i) => self.floating[i].restore,
            None => match find_element(&self.tiling, window) {
                Some(i) => self.tiling[i].restore,
                None => None,
            },
        };
        if restore.is_some() {
            drop_element(&mut self.floating, window);
            drop_element(&mut self.tiling, window);
            self.remove_focus(window);
        }
        restore
    }

    /// Whether a focus stack holds `window`.
    pub fn focuses(&self, window: WindowId) -> (r: bool)
        ensures
            r == self@.focuses(window),
    {
        let mut i: usize = 0;
        while i < self.focus_stack.len()
            invariant
                i <= self.focus_stack@.len(),
                forall|s: int|
                    0 <= s < i ==> !(#[trigger] self@.focus_stack[s]).targets.contains(
                        FocusTarget::Window(window),
                    ),
            decreases self.focus_stack@.len() - i,
        {
            assert(self@.focus_stack[i as int] == self.focus_stack@[i as int]@);
            let targets = &self.focus_stack[i].targets;
            let mut a: usize = 0;
            while a < targets.len()
                invariant
                    i < self.focus_stack@.len(),
                    a <= targets@.len(),
                    targets@ == self@.focus_stack[i as int].targets,
                    forall|b: int|
                        0 <= b < a ==> #[trigger] targets@[b] != FocusTarget::Window(window),
                decreases targets@.len() - a,
            {
                if targets[a] == FocusTarget::Window(window) {
                    assert(targets@.contains(FocusTarget::Window(window)));
                    return true;
                }
                a = a + 1;
            }
            i = i + 1;
        }
        false
    }

    /// Take `window` out of the layouts and the focus stacks, and note what
    /// has to be done to the compositor for that.
    pub fn withdraw(&mut self, window: WindowId, effects: &mut Vec<Effect>)
        ensures
            final(self)@ == old(self)@.unmapped(window),
            final(effects)@ == old(effects)@ + old(self)@.withdrawal(window),
    {
        let handle = self.handle;
        if find_element(&self.tiling, window).is_some() {
            effects.push(Effect::UnmapElement { handle, window });
            effects.push(Effect::LeaveWorkspace { handle, window });
        } else if find_element(&self.floating, window).is_some() {
            effects.push(Effect::UnmapFloating { handle, window });
            effects.push(Effect::LeaveWorkspace { handle, window });
        } else if self.focuses(window) {
            effects.push(Effect::Unfocus { handle, window });
        }
        assert(effects@ =~= old(effects)@ + old(self)@.withdrawal(window));
        drop_element(&mut self.floating, window);
        drop_element(&mut self.tiling, window);
        self.remove_focus(window);
    }

    /// Put `window` on top of the floating layer.
    pub fn map_floating(&mut self, window: WindowId)
        ensures
            final(self)@ == old(self)@.floated(window),
    {
        drop_element(&mut self.floating, window);
        self.floating.push(MappedElement { window, restore: None });
    }

    /// The focus stack of `seat`, most recently focused first.
    pub fn targets_of(&self, seat: SeatId) -> (r: Vec<FocusTarget>)
        ensures
            r@ == self@.targets_of(seat),
    {
        let mut i: usize = 0;
        while i < self.focus_stack.len()
            invariant
                i <= self.focus_stack@.len(),
                forall|j: int| 0 <= j < i ==> (#[trigger] self@.focus_stack[j]).seat != seat,
            decreases self.focus_stack@.len() - i,
        {
            if self.focus_stack[i].seat == seat {
                proof {
                    assert(self@.focus_stack[i as int].seat == seat);
                    seqs::lemma_first_at(self@.focus_stack, stack_of(seat), i as int);
                }
                return self.focus_stack[i].targets.clone();
            }
            assert(self@.focus_stack[i as int].seat != seat);
            i = i + 1;
        }
        proof {
            seqs::lemma_first_none(self@.focus_stack, stack_of(seat));
        }
        Vec::new()
    }

    /// The window at the base of the workspace's window stack.
    pub fn base(&self) -> (r: Option<WindowId>)
        ensures
            r == self@.base(),
    {
        if self.floating.len() > 0 {
            Some(self.floating[0].window)
        } else if self.tiling.len() > 0 {
            Some(self.tiling[0].window)
        } else {
            None
        }
    }
}

} // verus!
