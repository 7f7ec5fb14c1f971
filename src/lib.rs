//! Core of a tiling window manager: a tree of windows and nested split
//! containers, the layouts that turn it into screen rectangles, and the
//! workspaces and commands that drive it.

pub mod layout;
pub mod container;
pub mod workspaces;
pub mod commands;
