//! The state that the map widget keeps between input events.

use vstd::prelude::*;

verus! {

/// The internal state for mouse processing; the widget keeps none so far.
#[derive(Debug, Clone, Copy, Default)]
pub struct InteractionState {}

} // verus!
