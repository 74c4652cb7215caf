//! Core of a real-time audio signal-processing graph engine.
//!
//! A control-side facade (the configurator) assembles and reconfigures a
//! network of DSP units while an audio-side executor runs a compiled
//! schedule (the program) over every audio block.  All cross-context
//! communication goes through bounded first-in/first-out channels; displaced
//! units and programs are handed to a background reclaimer instead of being
//! destroyed on the audio path.

use vstd::prelude::*;

pub mod context;
pub mod dsp;
pub mod events;
pub mod laws;
pub mod nodes;
pub mod prog;
pub mod queue;

verus! {

/// Hard cap on live unit slots: a slot index must fit in one byte.
pub const MAX_ALLOCATED_NODES: usize = 256;

/// Upper bound on the number of steps a program may schedule.
pub const MAX_NODE_PROG_OPS: usize = 256 * 3;

/// Largest number of frames one program pass may cover; longer host
/// blocks are split into consecutive sub-blocks of at most this length.
pub const MAX_BLOCK_SIZE: usize = 64;

/// Number of slots the unit table starts with; it doubles on demand up
/// to [`MAX_ALLOCATED_NODES`].
pub const INITIAL_NODE_SLOTS: usize = 16;

} // verus!
