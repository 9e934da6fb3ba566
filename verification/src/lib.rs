//! Verified core of a terminal manager for running GUI applications.
pub mod app;
pub mod cli;
pub mod display;
pub mod layout;
pub mod listing;
pub mod process;
pub mod text;
