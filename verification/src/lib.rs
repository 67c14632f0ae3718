//! A tiny fixed-width character display: a layout engine that wraps a text
//! buffer into positioned cells, and an editor state machine that moves a
//! cursor through that layout while keeping a scrolling viewport in sync.

pub mod editor;
pub mod layout;
