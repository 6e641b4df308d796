//! Configuration of the regular workspaces.

use vstd::prelude::*;

verus! {

/// How workspaces are shared between outputs.
#[derive(Debug, Clone, Copy, PartialEq, Eq, Structural)]
pub enum WorkspaceMode {
    OutputBound,
    Global,
}

impl Default for WorkspaceMode {
    fn default() -> (r: Self)
        ensures
            r == WorkspaceMode::OutputBound,
    {
        WorkspaceMode::OutputBound
    }
}

/// How the workspaces of an output are arranged.
#[derive(Debug, Clone, Copy, PartialEq, Eq, Structural)]
pub enum WorkspaceLayout {
    Vertical,
    Horizontal,
    /// Workspaces are arranged as an horizontal strip of columns; switching
    /// workspaces pans the viewport to the column at index * output width.
    Scrolling,
}

impl Default for WorkspaceLayout {
    fn default() -> (r: Self)
        ensures
            r == WorkspaceLayout::Vertical,
    {
        WorkspaceLayout::Vertical
    }
}

/// What typing on an empty workspace does.
#[derive(Debug, Clone, Copy, PartialEq, Eq, Structural)]
pub enum Action {
    /// Typing goes nowhere.
    NoAction,
    OpenLauncher,
    OpenApplications,
}

impl Default for Action {
    fn default() -> (r: Self)
        ensures
            r == Action::NoAction,
    {
        Action::NoAction
    }
}

/// Configuration of the workspaces.
#[derive(Debug, Clone, Copy, PartialEq, Eq, Structural)]
pub struct WorkspaceConfig {
    pub workspace_mode: WorkspaceMode,
    pub workspace_layout: WorkspaceLayout,
    pub action_on_typing: Action,
    pub workspace_wraparound: bool,
}

/// Whether navigation past the last workspace leads to the first, unless
/// configured.
pub fn default_wraparound() -> (r: bool)
    ensures
        r,
{
    true
}

impl Default for WorkspaceConfig {
    fn default() -> (r: Self)
        ensures
            r == (WorkspaceConfig {
                workspace_mode: WorkspaceMode::OutputBound,
                workspace_layout: WorkspaceLayout::Vertical,
                action_on_typing: Action::NoAction,
                workspace_wraparound: true,
            }),
    {
        WorkspaceConfig {
            workspace_mode: WorkspaceMode::default(),
            workspace_layout: WorkspaceLayout::default(),
            action_on_typing: Action::default(),
            workspace_wraparound: default_wraparound(),
        }
    }
}

/// What a display says about itself.
#[derive(Debug, Clone, Copy, PartialEq, Eq)]
pub struct EdidProduct {
    pub manufacturer: [char; 3],
    pub product: u16,
    pub serial: Option<u32>,
    pub manufacture_week: i32,
    pub manufacture_year: i32,
    pub model_year: Option<i32>,
}

/// Which output a pinned workspace belongs to.
#[derive(Debug, Clone, PartialEq, Eq)]
pub struct OutputMatch {
    pub name: String,
    pub edid: Option<EdidProduct>,
}

/// A workspace that stays when it is empty.
#[derive(Debug, Clone, PartialEq, Eq)]
pub struct PinnedWorkspace {
    pub output: OutputMatch,
    pub tiling_enabled: bool,
    pub id: Option<String>,
    pub name: Option<String>,
}

} // verus!
