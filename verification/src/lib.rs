//! Arranges poker table windows and ordinary application windows on a display.
pub mod model;
pub mod calls;
pub mod cells;
pub mod text;
pub mod config;
pub mod layout;
pub mod slots;
pub mod ordering;
pub mod controller;
pub mod placement;
pub mod tracking;
pub mod arrangement;
pub mod reconcile;
pub mod commands;
pub mod snapshot;
pub mod recognition;
pub mod panel;
pub mod hotkeys;
pub mod identity;
pub mod tray;
pub mod icon;
pub mod overlay;
pub mod sync;
pub mod parking;
pub mod schedule;
