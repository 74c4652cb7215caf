//! The block context: the capability a program pass reads host input
//! through and writes host output through.
//!
//! A context covers one sub-block of the host buffer: the frames
//! `offs .. offs + nframes` of its input and output channels.  Splitting a
//! long host block into sub-blocks only moves `offs` forward; the buffers
//! themselves stay in place.

use vstd::prelude::*;

use crate::MAX_BLOCK_SIZE;
use crate::dsp::Sample;

verus! {

/// One sub-block's view of the host buffers.
pub struct BlockContext {
    /// First frame of the current sub-block.
    pub offs: usize,
    /// Number of frames in the current sub-block.
    pub nframes: usize,
    /// Host input channel for the whole block.
    pub input: Vec<Sample>,
    /// Host output channel for the whole block.
    pub output: Vec<Sample>,
}

impl BlockContext {
    /// The sub-block lies inside both buffers and never exceeds the
    /// fixed scratch capacity.
    pub open spec fn wf(&self) -> bool {
        &&& self.offs + self.nframes <= self.input@.len()
        &&& self.offs + self.nframes <= self.output@.len()
        &&& self.nframes <= MAX_BLOCK_SIZE
    }

    /// A context for one whole host block of `input`'s length, with the
    /// output channel cleared to silence.
    pub fn for_block(input: Vec<Sample>) -> (ctx: Self)
        ensures
            ctx.offs == 0,
            ctx.nframes == input@.len(),
            ctx.input@ == input@,
            ctx.output@ == Seq::new(input@.len(), |i: int| 0i64),
    {
        let len = input.len();
        let mut output: Vec<Sample> = Vec::new();
        let mut i: usize = 0;
        while i < len
            invariant
                i <= len,
                output@ =~= Seq::new(i as nat, |k: int| 0i64),
            decreases len - i,
        {
            output.push(0);
            i = i + 1;
        }
        proof {
            assert(output@ =~= Seq::new(len as nat, |k: int| 0i64));
        }
        BlockContext { offs: 0, nframes: len, input, output }
    }

    /// Reads host input frame `s` of the current sub-block.
    pub fn input(&self, s: usize) -> (v: Sample)
        requires
            self.offs + s < self.input@.len(),
        ensures
            v == self.input@[self.offs + s],
    {
        let _bound = self.input.len();
        self.input[self.offs + s]
    }

    /// Writes host output frame `s` of the current sub-block.
    pub fn output(&mut self, s: usize, v: Sample)
        requires
            old(self).offs + s < old(self).output@.len(),
        ensures
            final(self).output@ == old(self).output@.update(old(self).offs + s, v),
            final(self).input@ == old(self).input@,
            final(self).offs == old(self).offs,
            final(self).nframes == old(self).nframes,
    {
        let _bound = self.output.len();
        let idx = self.offs + s;
        self.output[idx] = v;
    }
}

} // verus!
