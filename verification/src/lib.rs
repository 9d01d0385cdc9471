//! Display, brightness, night light, wallpaper, cursor and idle control for a Hyprland desktop:
//! the decisions, verified; the processes, files and sockets are driven from outside.
use vstd::prelude::*;

pub mod app;
pub mod cli;
pub mod compositor;
pub mod engine;
pub mod error;
pub mod host;
pub mod idle;
pub mod layout;
pub mod nightlight;
pub mod notify;
pub mod observe;
pub mod percent;
pub mod place;
pub mod resolution;
pub mod rules;
pub mod sort;
pub mod store;
pub mod text;
pub mod theme;

verus! {
}
