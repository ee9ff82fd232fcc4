//! The verified core of a panel applet that lists the Docker and Podman
//! containers of the machine and starts, stops, restarts or removes them.
//!
//! - `text`: character-level text operations (trimming, ASCII case folding,
//!   lexicographic order, decimal rendering).
//! - `domain`: engines, container states, the actions each state allows, and
//!   the per-row records of running actions and their errors.
//! - `parser`: the tab-separated container listing of `ps --format`.
//! - `runtime`: the engines' command lines, their outcomes, the steps of an
//!   action, the merge of all engines' discoveries, and commands under a
//!   deadline.
//! - `applet`: the panel's state and how it reacts to each event.
pub mod text;
pub mod domain;
pub mod parser;
pub mod runtime;
pub mod applet;
