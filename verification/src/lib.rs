//! An ordered list of text tasks kept in a slot map, with the rules that
//! keep its rows contiguous, the text format it is saved in, the debounce of
//! saves, and the coordinator's reaction to each event.

pub mod app;
pub mod coordinator;
pub mod events;
pub mod model;
pub mod slots;
pub mod text;
pub mod widgets;
