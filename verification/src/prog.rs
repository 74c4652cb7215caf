//! The compiled program: an ordered schedule of unit invocations plus the
//! flat output arena they write into.
//!
//! A program is immutable once built.  Its builder refuses any step whose
//! output range leaves the arena or overlaps another step's range, and any
//! input wiring that does not read the output range of an earlier step, so
//! every accepted program is a valid topological order of the signal flow.

use vstd::prelude::*;

use crate::{MAX_BLOCK_SIZE, MAX_NODE_PROG_OPS};
use crate::context::BlockContext;
use crate::dsp::{node_apply, node_apply_sample, Node, Sample};

verus! {

/// Wiring record of one output port feeding one input parameter of
/// another unit, for control-side bookkeeping.
#[derive(Debug, Clone, Copy, PartialEq, Eq, Structural)]
pub struct OutOp {
    pub out_port_idx: u8,
    pub node_idx: u8,
    pub dst_param_idx: u8,
}

/// One scheduled step of a program: which unit slot to invoke, the
/// `(offset, length)` range of the arena it writes, and the input wiring
/// pairs `(arena offset to read, own input port to feed)`.
#[derive(Debug)]
pub struct NodeOp {
    /// Index of the unit slot this step invokes.
    pub idx: u8,
    /// Output offset and length of the step's arena range.
    pub out_idxlen: (usize, usize),
    /// Input wiring pairs: `(arena offset to read from, own input port)`.
    pub inputs: Vec<(usize, usize)>,
}

impl NodeOp {
    /// A blank step: slot zero, empty range, nothing wired.
    pub fn empty() -> (op: Self)
        ensures
            op.idx == 0,
            op.out_idxlen == (0usize, 0usize),
            op.inputs@ == Seq::<(usize, usize)>::empty(),
    {
        NodeOp { idx: 0, out_idxlen: (0, 0), inputs: Vec::new() }
    }
}

/// The arena offset a step reads its unit's first input port from: the
/// offset of the first wiring pair that feeds port zero, if any.
pub open spec fn wired_src(inputs: Seq<(usize, usize)>) -> Option<usize>
    decreases inputs.len(),
{
    if inputs.len() == 0 {
        None
    } else if inputs[0].1 == 0 {
        Some(inputs[0].0)
    } else {
        wired_src(inputs.drop_first())
    }
}

/// A wiring pair that feeds port zero names an offset that really occurs
/// among the pairs.
pub proof fn lemma_wired_src_exists(s: Seq<(usize, usize)>)
    ensures
        wired_src(s) matches Some(a) ==> exists|j: int|
            0 <= j < s.len() && (#[trigger] s[j]).0 == a,
    decreases s.len(),
{
    if s.len() > 0 && s[0].1 != 0 {
        lemma_wired_src_exists(s.drop_first());
        if wired_src(s) is Some {
            let a = wired_src(s)->0;
            let j = choose|j: int| 0 <= j < s.drop_first().len() && (#[trigger] s.drop_first()[j]).0 == a;
            assert(s[j + 1] == s.drop_first()[j]);
        }
    }
}

/// The sample a step feeds its unit at frame `s`: the host input for an
/// input unit, the wired arena sample otherwise, or silence when nothing
/// is wired.
pub open spec fn step_in_val(
    node: Node,
    src: Option<usize>,
    arena: Seq<Sample>,
    hin: Seq<Sample>,
    hoffs: int,
    s: int,
) -> int {
    if node is Inp {
        hin[hoffs + s] as int
    } else {
        match src {
            Some(a) => arena[a + s] as int,
            None => 0,
        }
    }
}

/// The sample a step writes at frame `s`: its unit's transform applied to
/// the step's input sample.
pub open spec fn step_out_val(
    node: Node,
    src: Option<usize>,
    arena: Seq<Sample>,
    hin: Seq<Sample>,
    hoffs: int,
    s: int,
) -> int {
    node_apply(node, step_in_val(node, src, arena, hin, hoffs, s))
}

/// The arena after one step: the step's output range holds the unit's
/// output, everything else is untouched.  An inert unit writes nothing.
pub open spec fn step_arena(
    node: Node,
    out_off: int,
    src: Option<usize>,
    arena: Seq<Sample>,
    hin: Seq<Sample>,
    hoffs: int,
    nframes: int,
) -> Seq<Sample> {
    if node is Nop {
        arena
    } else {
        Seq::new(
            arena.len(),
            |i: int|
                if out_off <= i < out_off + nframes {
                    step_out_val(node, src, arena, hin, hoffs, i - out_off) as i64
                } else {
                    arena[i]
                },
        )
    }
}

/// The host output channel after one step: only an output unit writes it,
/// copying its input samples into the current sub-block's frames.
pub open spec fn step_hout(
    node: Node,
    src: Option<usize>,
    arena: Seq<Sample>,
    hin: Seq<Sample>,
    hout: Seq<Sample>,
    hoffs: int,
    nframes: int,
) -> Seq<Sample> {
    if node is Out {
        Seq::new(
            hout.len(),
            |i: int|
                if hoffs <= i < hoffs + nframes {
                    step_out_val(node, src, arena, hin, hoffs, i - hoffs) as i64
                } else {
                    hout[i]
                },
        )
    } else {
        hout
    }
}

/// The arena after every step of `ops` has run in order.
pub open spec fn arena_after(
    nodes: Seq<Node>,
    ops: Seq<NodeOp>,
    arena0: Seq<Sample>,
    hin: Seq<Sample>,
    hoffs: int,
    nframes: int,
) -> Seq<Sample>
    decreases ops.len(),
{
    if ops.len() == 0 {
        arena0
    } else {
        let op = ops.last();
        step_arena(
            nodes[op.idx as int],
            op.out_idxlen.0 as int,
            wired_src(op.inputs@),
            arena_after(nodes, ops.drop_last(), arena0, hin, hoffs, nframes),
            hin,
            hoffs,
            nframes,
        )
    }
}

/// The host output channel after every step of `ops` has run in order.
pub open spec fn hout_after(
    nodes: Seq<Node>,
    ops: Seq<NodeOp>,
    arena0: Seq<Sample>,
    hin: Seq<Sample>,
    hout0: Seq<Sample>,
    hoffs: int,
    nframes: int,
) -> Seq<Sample>
    decreases ops.len(),
{
    if ops.len() == 0 {
        hout0
    } else {
        let op = ops.last();
        step_hout(
            nodes[op.idx as int],
            wired_src(op.inputs@),
            arena_after(nodes, ops.drop_last(), arena0, hin, hoffs, nframes),
            hin,
            hout_after(nodes, ops.drop_last(), arena0, hin, hout0, hoffs, nframes),
            hoffs,
            nframes,
        )
    }
}

/// A program pass never changes the arena's length.
pub proof fn lemma_arena_after_len(
    nodes: Seq<Node>,
    ops: Seq<NodeOp>,
    arena0: Seq<Sample>,
    hin: Seq<Sample>,
    hoffs: int,
    nframes: int,
)
    ensures
        arena_after(nodes, ops, arena0, hin, hoffs, nframes).len() == arena0.len(),
    decreases ops.len(),
{
    if ops.len() > 0 {
        lemma_arena_after_len(nodes, ops.drop_last(), arena0, hin, hoffs, nframes);
    }
}

/// A program pass never changes the host output channel's length.
pub proof fn lemma_hout_after_len(
    nodes: Seq<Node>,
    ops: Seq<NodeOp>,
    arena0: Seq<Sample>,
    hin: Seq<Sample>,
    hout0: Seq<Sample>,
    hoffs: int,
    nframes: int,
)
    ensures
        hout_after(nodes, ops, arena0, hin, hout0, hoffs, nframes).len() == hout0.len(),
    decreases ops.len(),
{
    if ops.len() > 0 {
        lemma_hout_after_len(nodes, ops.drop_last(), arena0, hin, hout0, hoffs, nframes);
    }
}

/// Length of the next sub-block: a full sub-block, or whatever remains of
/// the host block.
pub open spec fn min_block(remaining: int) -> int {
    if remaining >= MAX_BLOCK_SIZE {
        MAX_BLOCK_SIZE as int
    } else {
        remaining
    }
}

/// The arena after the program has run over every sub-block from frame
/// `done` up to frame `total`: exactly what invoking the single-sub-block
/// pass once per consecutive sub-block yields.
pub open spec fn split_arena(
    nodes: Seq<Node>,
    ops: Seq<NodeOp>,
    arena0: Seq<Sample>,
    hin: Seq<Sample>,
    done: int,
    total: int,
) -> Seq<Sample>
    decreases total - done,
{
    if done >= total {
        arena0
    } else {
        let n = min_block(total - done);
        split_arena(nodes, ops, arena_after(nodes, ops, arena0, hin, done, n), hin, done + n, total)
    }
}

/// The host output channel after the program has run over every sub-block
/// from frame `done` up to frame `total`, sub-block by sub-block.
pub open spec fn split_hout(
    nodes: Seq<Node>,
    ops: Seq<NodeOp>,
    arena0: Seq<Sample>,
    hin: Seq<Sample>,
    hout0: Seq<Sample>,
    done: int,
    total: int,
) -> Seq<Sample>
    decreases total - done,
{
    if done >= total {
        hout0
    } else {
        let n = min_block(total - done);
        split_hout(
            nodes,
            ops,
            arena_after(nodes, ops, arena0, hin, done, n),
            hin,
            hout_after(nodes, ops, arena0, hin, hout0, done, n),
            done + n,
            total,
        )
    }
}

/// Two `(offset, length)` arena ranges do not overlap.
pub open spec fn range_disjoint(a: (usize, usize), b: (usize, usize)) -> bool {
    a.0 + a.1 <= b.0 || b.0 + b.1 <= a.0
}

/// A step's output range is one full sub-block of samples and lies inside
/// the arena.
pub open spec fn op_fits(op: NodeOp, arena_len: int) -> bool {
    &&& op.out_idxlen.1 == MAX_BLOCK_SIZE
    &&& op.out_idxlen.0 + op.out_idxlen.1 <= arena_len
}

/// Some step of `ops` writes the arena range starting at `src_off`.
pub open spec fn input_has_source(ops: Seq<NodeOp>, src_off: usize) -> bool {
    exists|k: int| 0 <= k < ops.len() && (#[trigger] ops[k]).out_idxlen.0 == src_off
}

/// Topological validity of a program: every step's range fits the arena,
/// no two ranges overlap, and every input wiring reads a range that an
/// earlier step writes.
pub open spec fn prog_wf(ops: Seq<NodeOp>, arena_len: int) -> bool {
    &&& ops.len() <= MAX_NODE_PROG_OPS
    &&& forall|i: int| 0 <= i < ops.len() ==> op_fits(#[trigger] ops[i], arena_len)
    &&& forall|i: int, j: int|
        0 <= j < i < ops.len() ==> range_disjoint(
            (#[trigger] ops[i]).out_idxlen,
            (#[trigger] ops[j]).out_idxlen,
        )
    &&& forall|i: int, j: int|
        0 <= i < ops.len() && 0 <= j < ops[i].inputs@.len() ==> input_has_source(
            ops.take(i),
            (#[trigger] ops[i].inputs@[j]).0,
        )
}

/// The wiring pairs of one appended step: the step's own pairs followed by
/// the up-to-three extra pairs handed to the builder.
pub open spec fn merged_inputs(
    base: Seq<(usize, usize)>,
    inp1: Option<(usize, usize)>,
    inp2: Option<(usize, usize)>,
    inp3: Option<(usize, usize)>,
) -> Seq<(usize, usize)> {
    base + opt_input_seq(inp1) + opt_input_seq(inp2) + opt_input_seq(inp3)
}

/// An optional wiring pair, as a sequence of zero or one pairs.
pub open spec fn opt_input_seq(o: Option<(usize, usize)>) -> Seq<(usize, usize)> {
    match o {
        Some(p) => seq![p],
        None => Seq::empty(),
    }
}

/// When the builder accepts a step: the program has room, the step's range
/// is one full sub-block inside the arena and overlaps no existing range,
/// and every wiring pair reads a range some existing step writes.
pub open spec fn can_append(
    ops: Seq<NodeOp>,
    arena_len: int,
    out_idxlen: (usize, usize),
    ins: Seq<(usize, usize)>,
) -> bool {
    &&& ops.len() < MAX_NODE_PROG_OPS
    &&& out_idxlen.1 == MAX_BLOCK_SIZE
    &&& out_idxlen.0 + out_idxlen.1 <= arena_len
    &&& forall|k: int|
        0 <= k < ops.len() ==> range_disjoint((#[trigger] ops[k]).out_idxlen, out_idxlen)
    &&& forall|j: int| 0 <= j < ins.len() ==> input_has_source(ops, (#[trigger] ins[j]).0)
}

/// A compiled schedule: the flat output arena and the ordered steps.
#[derive(Debug)]
pub struct NodeProg {
    /// The output arena, one sub-block of samples per scheduled step.
    pub out: Vec<Sample>,
    /// The scheduled steps, in execution order.
    pub prog: Vec<NodeOp>,
}

impl NodeProg {
    /// Topological validity of the whole program (see [`prog_wf`]).
    pub open spec fn wf(&self) -> bool {
        prog_wf(self.prog@, self.out@.len() as int)
    }

    /// The program with no arena and no steps.
    pub fn empty() -> (p: Self)
        ensures
            p.out@ == Seq::<Sample>::empty(),
            p.prog@ == Seq::<NodeOp>::empty(),
            p.wf(),
    {
        NodeProg { out: Vec::new(), prog: Vec::new() }
    }

    /// A program with a silent arena of `out_len` samples and no steps yet.
    pub fn new(out_len: usize) -> (p: Self)
        ensures
            p.out@ == Seq::new(out_len as nat, |i: int| 0i64),
            p.prog@ == Seq::<NodeOp>::empty(),
            p.wf(),
    {
        let mut out: Vec<Sample> = Vec::new();
        let mut i: usize = 0;
        while i < out_len
            invariant
                i <= out_len,
                out@ =~= Seq::new(i as nat, |k: int| 0i64),
            decreases out_len - i,
        {
            out.push(0);
            i = i + 1;
        }
        proof {
            assert(out@ =~= Seq::new(out_len as nat, |k: int| 0i64));
        }
        NodeProg { out, prog: Vec::new() }
    }

    /// Appends one step, with up to three extra wiring pairs folded into
    /// its input list.  The step is refused — and the program left
    /// untouched — unless its output range is a whole sub-block inside the
    /// arena, disjoint from every scheduled range, with every input wired
    /// to a range an earlier step writes: an accepted program can never
    /// read an arena region before the step that fills it has run.
    pub fn append_with_inputs(
        &mut self,
        node_op: NodeOp,
        inp1: Option<(usize, usize)>,
        inp2: Option<(usize, usize)>,
        inp3: Option<(usize, usize)>,
    ) -> (ok: bool)
        ensures
            ok == can_append(
                old(self).prog@,
                old(self).out@.len() as int,
                node_op.out_idxlen,
                merged_inputs(node_op.inputs@, inp1, inp2, inp3),
            ),
            !ok ==> final(self).out@ == old(self).out@ && final(self).prog@ == old(self).prog@,
            ok ==> {
                &&& final(self).out@ == old(self).out@
                &&& final(self).prog@.len() == old(self).prog@.len() + 1
                &&& final(self).prog@.drop_last() == old(self).prog@
                &&& final(self).prog@.last().idx == node_op.idx
                &&& final(self).prog@.last().out_idxlen == node_op.out_idxlen
                &&& final(self).prog@.last().inputs@ == merged_inputs(
                    node_op.inputs@,
                    inp1,
                    inp2,
                    inp3,
                )
            },
            old(self).wf() ==> final(self).wf(),
    {
        let mut op = node_op;
        if let Some(p) = inp1 {
            op.inputs.push(p);
        }
        if let Some(p) = inp2 {
            op.inputs.push(p);
        }
        if let Some(p) = inp3 {
            op.inputs.push(p);
        }
        let ghost gins = op.inputs@;
        proof {
            assert(gins =~= merged_inputs(node_op.inputs@, inp1, inp2, inp3));
        }

        if self.prog.len() >= MAX_NODE_PROG_OPS {
            return false;
        }
        if op.out_idxlen.1 != MAX_BLOCK_SIZE {
            return false;
        }
        let arena_len = self.out.len();
        if op.out_idxlen.0 > arena_len || arena_len - op.out_idxlen.0 < op.out_idxlen.1 {
            return false;
        }

        let mut k: usize = 0;
        while k < self.prog.len()
            invariant
                k <= self.prog@.len(),
                forall|t: int|
                    0 <= t < k ==> range_disjoint((#[trigger] self.prog@[t]).out_idxlen, op.out_idxlen),
                op.out_idxlen == node_op.out_idxlen,
            decreases self.prog@.len() - k,
        {
            let ex = self.prog[k].out_idxlen;
            let disj = (ex.0 as u128) + (ex.1 as u128) <= (op.out_idxlen.0 as u128) || (
            op.out_idxlen.0 as u128) + (op.out_idxlen.1 as u128) <= (ex.0 as u128);
            if !disj {
                proof {
                    assert(ex == self.prog@[k as int].out_idxlen);
                    assert(!range_disjoint(self.prog@[k as int].out_idxlen, op.out_idxlen));
                }
                return false;
            }
            k = k + 1;
        }

        let mut j: usize = 0;
        while j < op.inputs.len()
            invariant
                j <= op.inputs@.len(),
                op.inputs@ == gins,
                gins == merged_inputs(node_op.inputs@, inp1, inp2, inp3),
                forall|t: int|
                    0 <= t < j ==> input_has_source(self.prog@, (#[trigger] op.inputs@[t]).0),
            decreases op.inputs@.len() - j,
        {
            let off = op.inputs[j].0;
            if !has_source(&self.prog, off) {
                proof {
                    let ins = merged_inputs(node_op.inputs@, inp1, inp2, inp3);
                    assert(off == (ins[j as int]).0);
                    assert(!input_has_source(self.prog@, (ins[j as int]).0));
                }
                return false;
            }
            j = j + 1;
        }

        let ghost ops1 = self.prog@;
        let ghost galen = self.out@.len() as int;
        self.prog.push(op);
        proof {
            let ops2 = self.prog@;
            assert(ops2.drop_last() =~= ops1);
            assert(ops2.last().inputs@ == gins);
            if prog_wf(ops1, galen) {
                assert forall|i: int| 0 <= i < ops2.len() implies op_fits(#[trigger] ops2[i], galen) by {
                    if i < ops1.len() {
                        assert(ops2[i] == ops1[i]);
                        assert(op_fits(ops1[i], galen));
                    }
                }
                assert forall|i: int, j2: int| 0 <= j2 < i < ops2.len() implies range_disjoint(
                    (#[trigger] ops2[i]).out_idxlen,
                    (#[trigger] ops2[j2]).out_idxlen,
                ) by {
                    if i < ops1.len() {
                        assert(ops2[i] == ops1[i] && ops2[j2] == ops1[j2]);
                        assert(range_disjoint(ops1[i].out_idxlen, ops1[j2].out_idxlen));
                    } else {
                        assert(ops2[j2] == ops1[j2]);
                        assert(range_disjoint(ops1[j2].out_idxlen, op.out_idxlen));
                    }
                }
                assert forall|i: int, j2: int|
                    0 <= i < ops2.len() && 0 <= j2 < ops2[i].inputs@.len() implies input_has_source(
                    ops2.take(i),
                    (#[trigger] ops2[i].inputs@[j2]).0,
                ) by {
                    if i < ops1.len() {
                        assert(ops2[i] == ops1[i]);
                        assert(input_has_source(ops1.take(i), ops1[i].inputs@[j2].0));
                        assert(ops2.take(i) =~= ops1.take(i));
                    } else {
                        assert(ops2[i] == op);
                        assert(input_has_source(ops1, (op.inputs@[j2]).0));
                        assert(ops2.take(i) =~= ops1);
                    }
                }
            }
        }
        true
    }
}

/// One entry of a wiring description: which unit slot to schedule next,
/// and which earlier entry's output (by its position in the description)
/// feeds the unit's first input port.
#[derive(Debug, Clone, Copy)]
pub struct WireSpec {
    /// The unit slot this entry schedules.
    pub node_idx: u8,
    /// Position of the earlier entry whose output this unit reads, if any.
    pub input_from: Option<usize>,
}

/// A wiring description compiles iff it fits the step budget and every
/// entry reads only from an entry scheduled before it.
pub open spec fn wiring_ok(w: Seq<WireSpec>) -> bool {
    &&& w.len() <= MAX_NODE_PROG_OPS
    &&& forall|i: int|
        0 <= i < w.len() ==> ((#[trigger] w[i]).input_from matches Some(j) ==> j < i)
}

/// What compiling a wiring description yields: one step per entry, in
/// order, each owning the `i`-th sub-block of the arena and reading the
/// sub-block of the entry it is wired to.
pub open spec fn compiled_prog_shape(p: NodeProg, w: Seq<WireSpec>) -> bool {
    &&& p.wf()
    &&& p.out@ == Seq::new((w.len() * MAX_BLOCK_SIZE) as nat, |i: int| 0i64)
    &&& p.prog@.len() == w.len()
    &&& forall|i: int|
        0 <= i < w.len() ==> {
            let op = #[trigger] p.prog@[i];
            &&& op.idx == w[i].node_idx
            &&& op.out_idxlen.0 == i * MAX_BLOCK_SIZE
            &&& op.out_idxlen.1 == MAX_BLOCK_SIZE
            &&& match w[i].input_from {
                Some(j) => op.inputs@.len() == 1 && (op.inputs@[0]).0 == j * MAX_BLOCK_SIZE && (
                op.inputs@[0]).1 == 0,
                None => op.inputs@.len() == 0,
            }
        }
}

/// Compiles a wiring description into a program: entry `i` becomes step
/// `i`, owning the `i`-th sub-block of a fresh silent arena and wired to
/// the sub-block of the entry it reads.  Deterministic, and refused —
/// with nothing built — iff the description oversteps the step budget or
/// some entry reads from itself or a later entry, so a wiring that would
/// misorder the signal flow can never become a program.
pub fn compile_program(wiring: &Vec<WireSpec>) -> (r: Option<NodeProg>)
    ensures
        r is Some <==> wiring_ok(wiring@),
        r matches Some(p) ==> compiled_prog_shape(p, wiring@),
{
    let count = wiring.len();
    if count > MAX_NODE_PROG_OPS {
        return None;
    }
    let mut i: usize = 0;
    while i < count
        invariant
            i <= count,
            count == wiring@.len(),
            forall|t: int|
                0 <= t < i ==> ((#[trigger] wiring@[t]).input_from matches Some(j) ==> j < t),
        decreases count - i,
    {
        if let Some(j) = wiring[i].input_from {
            if j >= i {
                return None;
            }
        }
        i = i + 1;
    }

    let mut prog = NodeProg::new(count * MAX_BLOCK_SIZE);
    let mut i: usize = 0;
    while i < count
        invariant
            i <= count,
            count == wiring@.len(),
            count <= MAX_NODE_PROG_OPS,
            wiring_ok(wiring@),
            prog.out@ == Seq::new((count * MAX_BLOCK_SIZE) as nat, |k: int| 0i64),
            prog.wf(),
            prog.prog@.len() == i,
            forall|t: int|
                0 <= t < i ==> {
                    let op = #[trigger] prog.prog@[t];
                    &&& op.idx == wiring@[t].node_idx
                    &&& op.out_idxlen.0 == t * MAX_BLOCK_SIZE
                    &&& op.out_idxlen.1 == MAX_BLOCK_SIZE
                    &&& match wiring@[t].input_from {
                        Some(j) => op.inputs@.len() == 1 && (op.inputs@[0]).0 == j
                            * MAX_BLOCK_SIZE && (op.inputs@[0]).1 == 0,
                        None => op.inputs@.len() == 0,
                    }
                },
        decreases count - i,
    {
        let ws = wiring[i];
        let op = NodeOp {
            idx: ws.node_idx,
            out_idxlen: (i * MAX_BLOCK_SIZE, MAX_BLOCK_SIZE),
            inputs: Vec::new(),
        };
        let inp: Option<(usize, usize)> = match ws.input_from {
            Some(j) => Some((j * MAX_BLOCK_SIZE, 0)),
            None => None,
        };
        let ghost prog_pre = prog.prog@;
        let ok = prog.append_with_inputs(op, inp, None, None);
        proof {
            assert(wiring@[i as int].input_from matches Some(j) ==> j < i);
            if !ok {
                let ins = merged_inputs(op.inputs@, inp, None, None);
                assert(op.inputs@ =~= Seq::<(usize, usize)>::empty());
                match wiring@[i as int].input_from {
                    Some(j) => {
                        assert(ins =~= seq![(((j * MAX_BLOCK_SIZE) as usize), 0usize)]);
                        assert(prog_pre[j as int].out_idxlen.0 == j * MAX_BLOCK_SIZE);
                        assert(input_has_source(prog_pre, (ins[0]).0));
                        assert forall|t: int|
                            0 <= t < prog_pre.len() implies range_disjoint(
                            (#[trigger] prog_pre[t]).out_idxlen,
                            op.out_idxlen,
                        ) by {
                            assert(prog_pre[t].out_idxlen.0 == t * MAX_BLOCK_SIZE);
                        }
                        assert(can_append(
                            prog_pre,
                            (count * MAX_BLOCK_SIZE) as int,
                            op.out_idxlen,
                            ins,
                        ));
                    },
                    None => {
                        assert(ins =~= Seq::<(usize, usize)>::empty());
                        assert forall|t: int|
                            0 <= t < prog_pre.len() implies range_disjoint(
                            (#[trigger] prog_pre[t]).out_idxlen,
                            op.out_idxlen,
                        ) by {
                            assert(prog_pre[t].out_idxlen.0 == t * MAX_BLOCK_SIZE);
                        }
                        assert(can_append(
                            prog_pre,
                            (count * MAX_BLOCK_SIZE) as int,
                            op.out_idxlen,
                            ins,
                        ));
                    },
                }
                assert(false);
            }
            let ins = merged_inputs(op.inputs@, inp, None, None);
            assert(op.inputs@ =~= Seq::<(usize, usize)>::empty());
            match wiring@[i as int].input_from {
                Some(j) => {
                    assert(ins =~= seq![(((j * MAX_BLOCK_SIZE) as usize), 0usize)]);
                },
                None => {
                    assert(ins =~= Seq::<(usize, usize)>::empty());
                },
            }
            assert forall|t: int| 0 <= t < i + 1 implies {
                let op2 = #[trigger] prog.prog@[t];
                &&& op2.idx == wiring@[t].node_idx
                &&& op2.out_idxlen.0 == t * MAX_BLOCK_SIZE
                &&& op2.out_idxlen.1 == MAX_BLOCK_SIZE
                &&& match wiring@[t].input_from {
                    Some(j) => op2.inputs@.len() == 1 && (op2.inputs@[0]).0 == j
                        * MAX_BLOCK_SIZE && (op2.inputs@[0]).1 == 0,
                    None => op2.inputs@.len() == 0,
                }
            } by {
                if t < i {
                    assert(prog.prog@.drop_last()[t] == prog.prog@[t]);
                    assert(prog_pre[t] == prog.prog@[t]);
                } else {
                    assert(prog.prog@[t] == prog.prog@.last());
                    assert(prog.prog@.last().inputs@ == ins);
                }
            }
        }
        i = i + 1;
    }
    Some(prog)
}

impl Node {
    /// Runs this unit for one scheduled step of the current sub-block:
    /// reads its input (the host input channel for an input unit, the
    /// wired arena range otherwise), writes its output range of the
    /// arena and, for an output unit, the host output channel.
    pub fn process(
        &self,
        ctx: &mut BlockContext,
        inputs: &Vec<(usize, usize)>,
        out_idxlen: (usize, usize),
        out: &mut Vec<Sample>,
    )
        requires
            old(ctx).wf(),
            old(ctx).nframes <= out_idxlen.1,
            out_idxlen.0 + out_idxlen.1 <= old(out)@.len(),
            wired_src(inputs@) matches Some(a) ==> a + out_idxlen.1 <= old(out)@.len()
                && range_disjoint((a, out_idxlen.1), out_idxlen),
        ensures
            final(out)@ == step_arena(
                *self,
                out_idxlen.0 as int,
                wired_src(inputs@),
                old(out)@,
                old(ctx).input@,
                old(ctx).offs as int,
                old(ctx).nframes as int,
            ),
            final(ctx).output@ == step_hout(
                *self,
                wired_src(inputs@),
                old(out)@,
                old(ctx).input@,
                old(ctx).output@,
                old(ctx).offs as int,
                old(ctx).nframes as int,
            ),
            final(ctx).input@ == old(ctx).input@,
            final(ctx).offs == old(ctx).offs,
            final(ctx).nframes == old(ctx).nframes,
    {
        let node = *self;
        if matches!(node, Node::Nop) {
            return;
        }
        let src = find_wired(inputs);
        let n = ctx.nframes;
        let o = out_idxlen.0;
        let is_inp = matches!(node, Node::Inp);
        let is_out = matches!(node, Node::Out);
        let ghost garena0 = out@;
        let ghost ghout0 = ctx.output@;
        let ghost ghin = ctx.input@;
        let ghost goffs = ctx.offs as int;
        let mut s: usize = 0;
        while s < n
            invariant
                s <= n,
                node == *self,
                node !is Nop,
                is_inp == (node is Inp),
                is_out == (node is Out),
                src == wired_src(inputs@),
                ctx.input@ == ghin,
                ctx.offs as int == goffs,
                ctx.nframes == n,
                goffs + n <= ghin.len(),
                goffs + n <= ghout0.len(),
                ctx.output@.len() == ghout0.len(),
                out@.len() == garena0.len(),
                o == out_idxlen.0,
                o + out_idxlen.1 <= garena0.len(),
                n <= out_idxlen.1,
                src matches Some(a) ==> a + out_idxlen.1 <= garena0.len()
                    && range_disjoint((a, out_idxlen.1), out_idxlen),
                forall|i: int|
                    0 <= i < out@.len() ==> out@[i] == (if o <= i < o + s {
                        step_out_val(node, src, garena0, ghin, goffs, i - o) as i64
                    } else {
                        garena0[i]
                    }),
                forall|i: int|
                    0 <= i < ctx.output@.len() ==> ctx.output@[i] == (if is_out && goffs <= i
                        < goffs + s {
                        step_out_val(node, src, garena0, ghin, goffs, i - goffs) as i64
                    } else {
                        ghout0[i]
                    }),
            decreases n - s,
        {
            let _bound = out.len();
            let x: Sample = if is_inp {
                ctx.input(s)
            } else {
                match src {
                    Some(a) => {
                        proof {
                            assert(out@[a + s as int] == garena0[a + s as int]);
                        }
                        out[a + s]
                    },
                    None => 0,
                }
            };
            proof {
                assert(x as int == step_in_val(node, src, garena0, ghin, goffs, s as int));
            }
            let v = node_apply_sample(node, x);
            out[o + s] = v;
            if is_out {
                ctx.output(s, v);
            }
            s = s + 1;
        }
        proof {
            assert(out@ =~= step_arena(node, o as int, src, garena0, ghin, goffs, n as int));
            assert(ctx.output@ =~= step_hout(node, src, garena0, ghin, ghout0, goffs, n as int));
        }
    }
}

/// True when some scheduled step's output range starts at `off`.
fn has_source(prog: &Vec<NodeOp>, off: usize) -> (b: bool)
    ensures
        b == input_has_source(prog@, off),
{
    let mut k: usize = 0;
    while k < prog.len()
        invariant
            k <= prog@.len(),
            forall|t: int| 0 <= t < k ==> (#[trigger] prog@[t]).out_idxlen.0 != off,
        decreases prog@.len() - k,
    {
        if prog[k].out_idxlen.0 == off {
            return true;
        }
        k = k + 1;
    }
    false
}

/// Scans the wiring pairs for the first one that feeds port zero.
pub(crate) fn find_wired(inputs: &Vec<(usize, usize)>) -> (r: Option<usize>)
    ensures
        r == wired_src(inputs@),
{
    let mut i: usize = 0;
    proof {
        assert(inputs@.skip(0) =~= inputs@);
    }
    while i < inputs.len()
        invariant
            i <= inputs@.len(),
            wired_src(inputs@) == wired_src(inputs@.skip(i as int)),
        decreases inputs@.len() - i,
    {
        let p = inputs[i];
        proof {
            assert(inputs@.skip(i as int)[0] == inputs@[i as int]);
        }
        if p.1 == 0 {
            return Some(p.0);
        }
        proof {
            assert(inputs@.skip(i as int).drop_first() =~= inputs@.skip(i as int + 1));
        }
        i = i + 1;
    }
    None
}

} // verus!
