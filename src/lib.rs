//! A scene graph with a verified render pass, and the shared input and window
//! state that the event loop and the render loop exchange.
use vstd::prelude::*;

pub mod coordinator;
pub mod input;
pub mod scene_graph;

verus! {

} // verus!
