//! A verified text-editing engine: a movable-gap UTF-8 buffer with
//! codepoint-safe cursor movement, an undo/redo log with coalescing,
//! an incremental substring search, and a message dispatcher that
//! tracks editor mode and viewport position.
use vstd::prelude::*;

verus! {

pub mod codec;
pub mod buffer;
pub mod undo;
pub mod search;
pub mod representer;
pub mod editor;
pub mod laws;

} // verus!
