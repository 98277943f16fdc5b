//! The verified core of a lister and picker for the sessions that coding agents
//! leave on a machine.
//!
//! - [`session`] holds agents and sessions, and sorts sessions by last touch.
//! - [`listing`] gathers sessions, limits them, and says how the program ends.
//! - [`pick`] is the picker: which rows it shows and what each key does;
//!   [`screen`] is what it puts on the screen, and [`run`] states how it gets
//!   from the first key to the last.
//! - [`cache`] remembers what was read out of session files, in a [`table`].
//! - [`fuzzy`], [`path`], [`rank`], [`text`] and [`time`] are what these rest on.

pub mod cache;
pub mod fuzzy;
pub mod listing;
pub mod path;
pub mod pick;
pub mod rank;
pub mod run;
pub mod screen;
pub mod session;
pub mod table;
pub mod text;
pub mod time;
