//! Special workspaces and the scrolling workspace strip of a Wayland
//! compositor, as verified logic.

pub mod config_laws;
pub mod effect_laws;
pub mod focus;
pub mod follow_laws;
pub mod geometry;
pub mod laws;
pub mod layout_laws;
pub mod manager;
pub mod member_laws;
pub mod model;
pub mod names;
pub mod outcome_laws;
pub mod presence;
pub mod send_laws;
pub mod seqs;
pub mod shell;
pub mod special_config;
pub mod store;
pub mod transitions;
pub mod visibility;
pub mod withdrawal_laws;
pub mod workspace_config;
pub mod workspace_strip;
pub mod workspaces;
