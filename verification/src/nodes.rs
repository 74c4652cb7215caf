//! The engine proper: the control-side configurator, the audio-side
//! executor, the messages between them, and the reclaiming drain.
//!
//! The configurator is the sole writer of the logical topology: it owns the
//! growable slot table of unit descriptors, allocates and frees slots, and
//! enqueues structural updates.  The executor owns the live unit instances
//! and the active program; once per audio callback it applies every queued
//! update and then runs the program, handing each displaced unit or program
//! to the retire channel instead of destroying it on the audio path.

use vstd::prelude::*;

use crate::{INITIAL_NODE_SLOTS, MAX_ALLOCATED_NODES, MAX_BLOCK_SIZE};
use crate::context::BlockContext;
use crate::dsp::{factory_info, factory_node, node_factory, Node, NodeId, NodeInfo, Sample};
use crate::events::{
    block_dispatch, count_before, ev_stream, lemma_count_before, sorted_events, Event,
    EventSource, EventWindowing,
};
use crate::prog::{
    arena_after, compile_program, compiled_prog_shape, hout_after, input_has_source,
    lemma_arena_after_len, lemma_hout_after_len, lemma_wired_src_exists, op_fits, prog_wf,
    range_disjoint, split_arena, split_hout, wired_src, wiring_ok, NodeOp, NodeProg, WireSpec,
};
use crate::queue::Queue;

verus! {

/// Structural update shoveled from the configurator to the executor:
/// install a fresh unit at a slot, or install a whole program.
#[derive(Debug)]
pub enum GraphMessage {
    NewNode { index: u8, node: Node },
    NewProg { prog: NodeProg },
}

/// Small update between the configurator and the executor: a parameter
/// poke going control-to-audio, or a feedback value (a meter, an LED)
/// going audio-to-control.  Delivery is best-effort.
#[derive(Debug, Clone, Copy, PartialEq, Eq, Structural)]
pub enum QuickMessage {
    ParamUpdate { node_id: u8, param_id: u8, value: Sample },
    Feedback { node_id: u8, feedback_id: u8, value: Sample },
}

/// A displaced resource on its way to the reclaimer: the unit instance or
/// program that a structural update just evicted.
#[derive(Debug)]
pub enum DropMsg {
    Node { node: Node },
    Prog { prog: NodeProg },
}

/// Every program travelling on the structural channel is topologically
/// valid; the executor relies on this to keep its own well-formedness.
pub open spec fn chan_wf(msgs: Seq<GraphMessage>) -> bool {
    forall|i: int|
        0 <= i < msgs.len() ==> ((#[trigger] msgs[i]) matches GraphMessage::NewProg { prog }
            ==> prog.wf())
}

/// Pushing a structural update that carries no program — or one whose
/// program is topologically valid — preserves the channel invariant.
pub proof fn lemma_chan_wf_push(q0: Seq<GraphMessage>, m: GraphMessage)
    requires
        chan_wf(q0),
        m matches GraphMessage::NewProg { prog } ==> prog.wf(),
    ensures
        chan_wf(q0.push(m)),
{
    let q1 = q0.push(m);
    assert forall|i: int| 0 <= i < q1.len() implies ((#[trigger] q1[i])
        matches GraphMessage::NewProg { prog } ==> prog.wf()) by {
        if i < q0.len() {
            assert(q1[i] == q0[i]);
        } else {
            assert(q1[i] == m);
        }
    }
}

/// What a bounded queue holds after a non-blocking push attempt: the value
/// is appended when there is room and dropped when there is none.
pub open spec fn push_attempt<T>(q0: Seq<T>, cap: int, v: T) -> Seq<T> {
    if q0.len() < cap {
        q0.push(v)
    } else {
        q0
    }
}

/// Index `i` is the first empty slot of the table.
pub open spec fn is_first_free(slots: Seq<NodeInfo>, i: int) -> bool {
    &&& 0 <= i < slots.len()
    &&& slots[i] is Nop
    &&& forall|j: int| 0 <= j < i ==> !((#[trigger] slots[j]) is Nop)
}

/// The table has an empty slot.
pub open spec fn has_free(slots: Seq<NodeInfo>) -> bool {
    exists|i: int| 0 <= i < slots.len() && (#[trigger] slots[i]) is Nop
}

/// The table length after one doubling growth, capped at the one-byte
/// index space.
pub open spec fn grown_len(len: int) -> int {
    if (len + 1) * 2 <= MAX_ALLOCATED_NODES {
        (len + 1) * 2
    } else {
        MAX_ALLOCATED_NODES as int
    }
}

/// Scans the table front to back for the first empty slot.
fn first_free_slot(nodes: &Vec<NodeInfo>) -> (r: Option<usize>)
    ensures
        match r {
            Some(i) => is_first_free(nodes@, i as int),
            None => !has_free(nodes@),
        },
{
    let mut i: usize = 0;
    while i < nodes.len()
        invariant
            i <= nodes@.len(),
            forall|j: int| 0 <= j < i ==> !((#[trigger] nodes@[j]) is Nop),
        decreases nodes@.len() - i,
    {
        if nodes[i] == NodeInfo::Nop {
            return Some(i);
        }
        i = i + 1;
    }
    None
}

/// The control-side facade: owns the logical slot table, allocates and
/// frees unit slots, and pushes structural updates toward the executor.
pub struct NodeConfigurator {
    nodes: Vec<NodeInfo>,
    sample_rate: u32,
}

impl NodeConfigurator {
    /// The logical slot table: descriptor per slot, `Nop` when empty.
    pub closed spec fn slots(&self) -> Seq<NodeInfo> {
        self.nodes@
    }

    /// The fixed sample rate every created unit is given.
    pub closed spec fn rate(&self) -> u32 {
        self.sample_rate
    }

    /// The table never outgrows the one-byte slot index space.
    pub open spec fn wf(&self) -> bool {
        self.slots().len() <= MAX_ALLOCATED_NODES
    }

    /// A configurator with `initial_slots` empty slots (capped at the
    /// index space) at the given sample rate.
    pub fn new(sample_rate: u32, initial_slots: usize) -> (c: Self)
        ensures
            c.wf(),
            c.rate() == sample_rate,
            c.slots() == Seq::new(
                (if initial_slots <= MAX_ALLOCATED_NODES {
                    initial_slots
                } else {
                    MAX_ALLOCATED_NODES
                }) as nat,
                |i: int| NodeInfo::Nop,
            ),
    {
        let n = if initial_slots <= MAX_ALLOCATED_NODES {
            initial_slots
        } else {
            MAX_ALLOCATED_NODES
        };
        let mut nodes: Vec<NodeInfo> = Vec::new();
        let mut i: usize = 0;
        while i < n
            invariant
                i <= n,
                nodes@ =~= Seq::new(i as nat, |k: int| NodeInfo::Nop),
            decreases n - i,
        {
            nodes.push(NodeInfo::Nop);
            i = i + 1;
        }
        proof {
            assert(nodes@ =~= Seq::new(n as nat, |k: int| NodeInfo::Nop));
        }
        NodeConfigurator { nodes, sample_rate }
    }

    /// Allocates a slot for a new unit of identity `ni`: looks up the
    /// factory, stores the descriptor in the first empty slot — growing
    /// the table by doubling when none is free — and enqueues an
    /// install-unit update carrying the fresh instance.  Fails for an
    /// unknown identity, when the one-byte index space is exhausted, or
    /// when the structural channel has no room for the update; there is no
    /// partial success: a failed call changes nothing at all.
    pub fn create_node(&mut self, ni: NodeId, chan: &mut Queue<GraphMessage>) -> (r: Option<u8>)
        requires
            old(self).wf(),
        ensures
            final(self).wf(),
            final(self).rate() == old(self).rate(),
            final(chan).cap() == old(chan).cap(),
            chan_wf(old(chan)@) ==> chan_wf(final(chan)@),
            r is None ==> final(self).slots() == old(self).slots() && final(chan)@ == old(
                chan,
            )@,
            ni is Nop ==> r is None,
            ni !is Nop && old(chan)@.len() >= old(chan).cap() ==> r is None,
            ni !is Nop && old(chan)@.len() < old(chan).cap() && has_free(old(self).slots())
                ==> (match r {
                Some(idx) => {
                    &&& is_first_free(old(self).slots(), idx as int)
                    &&& final(self).slots() == old(self).slots().update(
                        idx as int,
                        factory_info(ni),
                    )
                    &&& final(chan)@ == old(chan)@.push(
                        GraphMessage::NewNode { index: idx, node: factory_node(ni) },
                    )
                },
                None => false,
            }),
            ni !is Nop && old(chan)@.len() < old(chan).cap() && !has_free(old(self).slots())
                && old(self).slots().len() < MAX_ALLOCATED_NODES ==> (match r {
                Some(idx) => {
                    &&& idx as int == old(self).slots().len()
                    &&& final(self).slots().len() == grown_len(old(self).slots().len() as int)
                    &&& forall|j: int|
                        0 <= j < old(self).slots().len()
                            ==> final(self).slots()[j] == old(self).slots()[j]
                    &&& final(self).slots()[idx as int] == factory_info(ni)
                    &&& forall|j: int|
                        old(self).slots().len() < j < final(self).slots().len() ==> (
                        #[trigger] final(self).slots()[j]) is Nop
                    &&& final(chan)@ == old(chan)@.push(
                        GraphMessage::NewNode { index: idx, node: factory_node(ni) },
                    )
                },
                None => false,
            }),
            ni !is Nop && !has_free(old(self).slots()) && old(self).slots().len()
                >= MAX_ALLOCATED_NODES ==> r is None,
    {
        match node_factory(ni, self.sample_rate) {
            Some((node, info)) => {
                if chan.len() >= chan.capacity() {
                    // the whole update could not be enqueued: do nothing
                    return None;
                }
                match first_free_slot(&self.nodes) {
                    Some(idx) => {
                        self.nodes[idx] = info;
                        let msg = GraphMessage::NewNode { index: idx as u8, node };
                        proof {
                            if chan_wf(chan@) {
                                lemma_chan_wf_push(chan@, msg);
                            }
                        }
                        let _ = chan.try_push(msg);
                        Some(idx as u8)
                    },
                    None => {
                        let len = self.nodes.len();
                        if len >= MAX_ALLOCATED_NODES {
                            return None;
                        }
                        let new_len = if (len + 1) * 2 <= MAX_ALLOCATED_NODES {
                            (len + 1) * 2
                        } else {
                            MAX_ALLOCATED_NODES
                        };
                        while self.nodes.len() < new_len
                            invariant
                                len <= self.nodes@.len() <= new_len,
                                new_len <= MAX_ALLOCATED_NODES,
                                forall|j: int|
                                    0 <= j < len ==> self.nodes@[j] == old(self).nodes@[j],
                                forall|j: int|
                                    len <= j < self.nodes@.len() ==> (
                                    #[trigger] self.nodes@[j]) is Nop,
                                self.sample_rate == old(self).sample_rate,
                            decreases new_len - self.nodes@.len(),
                        {
                            self.nodes.push(NodeInfo::Nop);
                        }
                        self.nodes[len] = info;
                        let msg = GraphMessage::NewNode { index: len as u8, node };
                        proof {
                            if chan_wf(chan@) {
                                lemma_chan_wf_push(chan@, msg);
                            }
                        }
                        let _ = chan.try_push(msg);
                        Some(len as u8)
                    },
                }
            },
            None => None,
        }
    }

    /// Frees a slot: clears its descriptor back to empty and enqueues an
    /// install-unit update carrying an inert instance, so the executor's
    /// slot is overwritten and the old instance retired through the normal
    /// replacement path.  A no-op for an out-of-range or already empty
    /// slot, and — since there is no partial success — a whole no-op when
    /// the structural channel has no room for the update.
    pub fn drop_node(&mut self, idx: usize, chan: &mut Queue<GraphMessage>)
        requires
            old(self).wf(),
        ensures
            final(self).wf(),
            final(self).rate() == old(self).rate(),
            final(chan).cap() == old(chan).cap(),
            chan_wf(old(chan)@) ==> chan_wf(final(chan)@),
            idx >= old(self).slots().len() || old(self).slots()[idx as int] is Nop
                || old(chan)@.len() >= old(chan).cap()
                ==> final(self).slots() == old(self).slots() && final(chan)@ == old(chan)@,
            idx < old(self).slots().len() && !(old(self).slots()[idx as int] is Nop)
                && old(chan)@.len() < old(chan).cap()
                ==> final(self).slots() == old(self).slots().update(idx as int, NodeInfo::Nop)
                && final(chan)@ == old(chan)@.push(
                    GraphMessage::NewNode { index: idx as u8, node: Node::Nop },
                ),
    {
        if idx >= self.nodes.len() {
            return;
        }
        if self.nodes[idx] == NodeInfo::Nop {
            return;
        }
        if chan.len() >= chan.capacity() {
            // the whole update could not be enqueued: do nothing
            return;
        }
        self.nodes[idx] = NodeInfo::Nop;
        let msg = GraphMessage::NewNode { index: idx as u8, node: Node::Nop };
        proof {
            if chan_wf(chan@) {
                lemma_chan_wf_push(chan@, msg);
            }
        }
        let _ = chan.try_push(msg);
    }

    /// Enumerates the allocated units in slot order for the UI, stopping
    /// at the first terminal (empty) slot: each entry is the descriptor,
    /// its identity at instance zero, and the slot index.
    pub fn for_each(&self) -> (r: Vec<(NodeInfo, NodeId, usize)>)
        ensures
            r@.len() <= self.slots().len(),
            forall|j: int| 0 <= j < r@.len() ==> !((#[trigger] self.slots()[j]) is Nop),
            forall|j: int|
                0 <= j < r@.len() ==> #[trigger] r@[j] == (
                    self.slots()[j],
                    self.slots()[j].spec_to_id(0),
                    j as usize,
                ),
            r@.len() < self.slots().len() ==> self.slots()[r@.len() as int] is Nop,
    {
        let mut r: Vec<(NodeInfo, NodeId, usize)> = Vec::new();
        let mut i: usize = 0;
        loop
            invariant
                i <= self.slots().len(),
                r@.len() == i,
                forall|j: int| 0 <= j < i ==> !((#[trigger] self.slots()[j]) is Nop),
                forall|j: int|
                    0 <= j < i ==> #[trigger] r@[j] == (
                        self.slots()[j],
                        self.slots()[j].spec_to_id(0),
                        j as usize,
                    ),
            ensures
                i == r@.len(),
                i <= self.slots().len(),
                forall|j: int| 0 <= j < i ==> !((#[trigger] self.slots()[j]) is Nop),
                forall|j: int|
                    0 <= j < i ==> #[trigger] r@[j] == (
                        self.slots()[j],
                        self.slots()[j].spec_to_id(0),
                        j as usize,
                    ),
                i < self.slots().len() ==> self.slots()[i as int] is Nop,
            decreases self.slots().len() - i,
        {
            if i >= self.nodes.len() {
                break;
            }
            let info = self.nodes[i];
            if info == NodeInfo::Nop {
                break;
            }
            let nid = info.to_id(0);
            r.push((info, nid, i));
            i = i + 1;
        }
        r
    }

    /// Enqueues an install-program update carrying the compiled program;
    /// the program is dropped silently when the channel is full.
    pub fn upload_prog(&mut self, prog: NodeProg, chan: &mut Queue<GraphMessage>)
        requires
            prog.wf(),
        ensures
            final(self).slots() == old(self).slots(),
            final(self).rate() == old(self).rate(),
            final(self).wf() == old(self).wf(),
            final(chan).cap() == old(chan).cap(),
            final(chan)@ == push_attempt(
                old(chan)@,
                old(chan).cap() as int,
                GraphMessage::NewProg { prog },
            ),
            chan_wf(old(chan)@) ==> chan_wf(final(chan)@),
    {
        let ghost msg = GraphMessage::NewProg { prog };
        proof {
            if chan_wf(chan@) && chan@.len() < chan.cap() {
                lemma_chan_wf_push(chan@, msg);
            }
        }
        let _ = chan.try_push(GraphMessage::NewProg { prog });
    }

    /// Compiles the given wiring description into a program and enqueues
    /// an install-program update carrying it.  Compilation is
    /// deterministic and control-side only; a wiring that oversteps the
    /// step budget or reads from a not-yet-scheduled entry is refused
    /// whole, with nothing enqueued and nothing changed.
    pub fn build_and_install_program(
        &mut self,
        wiring: &Vec<WireSpec>,
        chan: &mut Queue<GraphMessage>,
    ) -> (ok: bool)
        ensures
            final(self).slots() == old(self).slots(),
            final(self).rate() == old(self).rate(),
            final(self).wf() == old(self).wf(),
            final(chan).cap() == old(chan).cap(),
            chan_wf(old(chan)@) ==> chan_wf(final(chan)@),
            ok == wiring_ok(wiring@),
            !ok ==> final(chan)@ == old(chan)@,
            ok && old(chan)@.len() >= old(chan).cap() ==> final(chan)@ == old(chan)@,
            ok && old(chan)@.len() < old(chan).cap() ==> final(chan)@.len() == old(chan)@.len()
                + 1 && final(chan)@.drop_last() == old(chan)@ && (final(chan)@.last()
                matches GraphMessage::NewProg { prog } && compiled_prog_shape(prog, wiring@)),
    {
        match compile_program(wiring) {
            Some(prog) => {
                let ghost gprog = prog;
                self.upload_prog(prog, chan);
                proof {
                    if old(chan)@.len() < old(chan).cap() {
                        assert(chan@ == old(chan)@.push(GraphMessage::NewProg { prog: gprog }));
                        assert(chan@.drop_last() =~= old(chan)@);
                    }
                }
                true
            },
            None => false,
        }
    }

    /// Pushes a parameter poke toward the executor; dropped silently when
    /// the channel is full.
    pub fn param_update(
        &mut self,
        node_id: u8,
        param_id: u8,
        value: Sample,
        chan: &mut Queue<QuickMessage>,
    )
        ensures
            final(self).slots() == old(self).slots(),
            final(self).rate() == old(self).rate(),
            final(chan).cap() == old(chan).cap(),
            final(chan)@ == push_attempt(
                old(chan)@,
                old(chan).cap() as int,
                QuickMessage::ParamUpdate { node_id, param_id, value },
            ),
    {
        let _ = chan.try_push(QuickMessage::ParamUpdate { node_id, param_id, value });
    }

    /// Pops the next feedback value the executor reported, if any.
    pub fn next_feedback(&mut self, chan: &mut Queue<QuickMessage>) -> (r: Option<QuickMessage>)
        ensures
            final(self).slots() == old(self).slots(),
            final(self).rate() == old(self).rate(),
            final(chan).cap() == old(chan).cap(),
            old(chan)@.len() == 0 ==> r is None && final(chan)@ == old(chan)@,
            old(chan)@.len() > 0 ==> r == Some(old(chan)@[0])
                && final(chan)@ == old(chan)@.drop_first(),
    {
        chan.pop()
    }
}

/// The unit table after one structural update is applied.
pub open spec fn apply_msg_units(units: Seq<Node>, m: GraphMessage) -> Seq<Node> {
    match m {
        GraphMessage::NewNode { index, node } => units.update(index as int, node),
        GraphMessage::NewProg { .. } => units,
    }
}

/// The unit table after a queue of structural updates is applied in order.
pub open spec fn apply_msgs_units(units: Seq<Node>, msgs: Seq<GraphMessage>) -> Seq<Node>
    decreases msgs.len(),
{
    if msgs.len() == 0 {
        units
    } else {
        apply_msgs_units(apply_msg_units(units, msgs[0]), msgs.drop_first())
    }
}

/// The active program after one structural update is applied.
pub open spec fn apply_msg_prog(prog: NodeProg, m: GraphMessage) -> NodeProg {
    match m {
        GraphMessage::NewProg { prog: p } => p,
        GraphMessage::NewNode { .. } => prog,
    }
}

/// The active program after a queue of structural updates is applied in
/// order.
pub open spec fn apply_msgs_prog(prog: NodeProg, msgs: Seq<GraphMessage>) -> NodeProg
    decreases msgs.len(),
{
    if msgs.len() == 0 {
        prog
    } else {
        apply_msgs_prog(apply_msg_prog(prog, msgs[0]), msgs.drop_first())
    }
}

/// The resource one structural update displaces: the unit instance it
/// overwrites, or the program it supersedes.
pub open spec fn displaced_one(units: Seq<Node>, prog: NodeProg, m: GraphMessage) -> DropMsg {
    match m {
        GraphMessage::NewNode { index, .. } => DropMsg::Node { node: units[index as int] },
        GraphMessage::NewProg { .. } => DropMsg::Prog { prog },
    }
}

/// Every resource a queue of structural updates displaces, in update
/// order: exactly one per update.
pub open spec fn displaced_seq(
    units: Seq<Node>,
    prog: NodeProg,
    msgs: Seq<GraphMessage>,
) -> Seq<DropMsg>
    decreases msgs.len(),
{
    if msgs.len() == 0 {
        Seq::empty()
    } else {
        seq![displaced_one(units, prog, msgs[0])] + displaced_seq(
            apply_msg_units(units, msgs[0]),
            apply_msg_prog(prog, msgs[0]),
            msgs.drop_first(),
        )
    }
}

/// One displaced resource per update.
pub proof fn lemma_displaced_len(units: Seq<Node>, prog: NodeProg, msgs: Seq<GraphMessage>)
    ensures
        displaced_seq(units, prog, msgs).len() == msgs.len(),
    decreases msgs.len(),
{
    if msgs.len() > 0 {
        lemma_displaced_len(
            apply_msg_units(units, msgs[0]),
            apply_msg_prog(prog, msgs[0]),
            msgs.drop_first(),
        );
    }
}

/// The audio-side owner of the live unit instances and the active
/// program, invoked once per audio callback.
pub struct NodeExecutor {
    nodes: Vec<Node>,
    prog: NodeProg,
    wnd: EventWindowing,
    sample_rate: u32,
}

impl NodeExecutor {
    /// The live unit instances, slot by slot.
    pub closed spec fn units(&self) -> Seq<Node> {
        self.nodes@
    }

    /// The active program.
    pub closed spec fn program(&self) -> NodeProg {
        self.prog
    }

    /// The event the windowing holds for a later sub-block, if any.
    pub closed spec fn held(&self) -> Option<Event> {
        self.wnd.held()
    }

    /// The fixed sample rate.
    pub closed spec fn rate(&self) -> u32 {
        self.sample_rate
    }

    /// The slot table is full-sized (every one-byte index is live) and the
    /// active program is topologically valid.
    pub open spec fn wf(&self) -> bool {
        &&& self.units().len() == MAX_ALLOCATED_NODES
        &&& prog_wf(self.program().prog@, self.program().out@.len() as int)
    }

    /// An executor with an inert instance in every slot, an empty program,
    /// and no held event.
    pub fn new(sample_rate: u32) -> (e: Self)
        ensures
            e.wf(),
            e.rate() == sample_rate,
            e.units() == Seq::new(MAX_ALLOCATED_NODES as nat, |i: int| Node::Nop),
            e.program().prog@ == Seq::<NodeOp>::empty(),
            e.program().out@ == Seq::<Sample>::empty(),
            e.held() is None,
    {
        let mut nodes: Vec<Node> = Vec::new();
        let mut i: usize = 0;
        while i < MAX_ALLOCATED_NODES
            invariant
                i <= MAX_ALLOCATED_NODES,
                nodes@ =~= Seq::new(i as nat, |k: int| Node::Nop),
            decreases MAX_ALLOCATED_NODES - i,
        {
            nodes.push(Node::Nop);
            i = i + 1;
        }
        proof {
            assert(nodes@ =~= Seq::new(MAX_ALLOCATED_NODES as nat, |k: int| Node::Nop));
        }
        NodeExecutor { nodes, prog: NodeProg::empty(), wnd: EventWindowing::new(), sample_rate }
    }

    /// The live unit instances.
    pub fn get_nodes(&self) -> (r: &Vec<Node>)
        ensures
            r@ == self.units(),
    {
        &self.nodes
    }

    /// The active program.
    pub fn get_prog(&self) -> (r: &NodeProg)
        ensures
            *r == self.program(),
    {
        &self.prog
    }

    /// Drains the structural-update queue to exhaustion and applies every
    /// update in enqueue order: an install-unit update swaps the named
    /// slot's instance, an install-program update swaps the active
    /// program, and each displaced resource is moved onto the retire
    /// channel, never destroyed on this path.  The caller leaves the
    /// retire channel one free slot per queued update, so every displaced
    /// resource fits.  Runs in time proportional to the number of queued
    /// updates.
    pub fn process_graph_updates(
        &mut self,
        chan: &mut Queue<GraphMessage>,
        retire: &mut Queue<DropMsg>,
    )
        requires
            old(self).wf(),
            chan_wf(old(chan)@),
            old(retire)@.len() + old(chan)@.len() <= old(retire).cap(),
        ensures
            final(self).wf(),
            final(self).rate() == old(self).rate(),
            final(self).held() == old(self).held(),
            final(chan)@.len() == 0,
            final(chan).cap() == old(chan).cap(),
            final(retire).cap() == old(retire).cap(),
            final(self).units() == apply_msgs_units(old(self).units(), old(chan)@),
            final(self).program() == apply_msgs_prog(old(self).program(), old(chan)@),
            final(retire)@ == old(retire)@ + displaced_seq(
                old(self).units(),
                old(self).program(),
                old(chan)@,
            ),
    {
        let ghost mut pushed: Seq<DropMsg> = Seq::empty();
        loop
            invariant
                self.wf(),
                chan_wf(chan@),
                self.rate() == old(self).rate(),
                self.held() == old(self).held(),
                chan.cap() == old(chan).cap(),
                retire.cap() == old(retire).cap(),
                pushed.len() + chan@.len() == old(chan)@.len(),
                retire@.len() + chan@.len() <= retire.cap(),
                apply_msgs_units(old(self).units(), old(chan)@) == apply_msgs_units(
                    self.units(),
                    chan@,
                ),
                apply_msgs_prog(old(self).program(), old(chan)@) == apply_msgs_prog(
                    self.program(),
                    chan@,
                ),
                displaced_seq(old(self).units(), old(self).program(), old(chan)@) == pushed
                    + displaced_seq(self.units(), self.program(), chan@),
                retire@ == old(retire)@ + pushed,
            ensures
                chan@.len() == 0,
                self.wf(),
                self.rate() == old(self).rate(),
                self.held() == old(self).held(),
                chan.cap() == old(chan).cap(),
                retire.cap() == old(retire).cap(),
                apply_msgs_units(old(self).units(), old(chan)@) == apply_msgs_units(
                    self.units(),
                    chan@,
                ),
                apply_msgs_prog(old(self).program(), old(chan)@) == apply_msgs_prog(
                    self.program(),
                    chan@,
                ),
                displaced_seq(old(self).units(), old(self).program(), old(chan)@) == pushed
                    + displaced_seq(self.units(), self.program(), chan@),
                retire@ == old(retire)@ + pushed,
            decreases chan@.len(),
        {
            let ghost chan_pre = chan@;
            let ghost units_pre = self.units();
            let ghost prog_pre = self.program();
            let ghost retire_pre = retire@;
            match chan.pop() {
                None => {
                    break;
                },
                Some(m) => {
                    let ghost gm = chan_pre[0];
                    let ghost d = displaced_one(units_pre, prog_pre, gm);
                    proof {
                        assert(chan_wf(chan@)) by {
                            assert forall|i: int| 0 <= i < chan@.len() implies ((
                            #[trigger] chan@[i]) matches GraphMessage::NewProg { prog }
                                ==> prog.wf()) by {
                                assert(chan@[i] == chan_pre[i + 1]);
                            }
                        }
                        // the room the caller guarantees covers this push
                        assert(retire_pre.len() < retire.cap());
                    }
                    match m {
                        GraphMessage::NewNode { index, node } => {
                            let prev = self.nodes[index as usize];
                            self.nodes[index as usize] = node;
                            let rejected = retire.try_push(DropMsg::Node { node: prev });
                            proof {
                                assert(rejected is None);
                            }
                        },
                        GraphMessage::NewProg { prog } => {
                            proof {
                                assert(chan_pre[0] matches GraphMessage::NewProg {
                                    prog: p } ==> p.wf());
                            }
                            let mut p = prog;
                            core::mem::swap(&mut self.prog, &mut p);
                            let rejected = retire.try_push(DropMsg::Prog { prog: p });
                            proof {
                                assert(rejected is None);
                            }
                        },
                    }
                    proof {
                        pushed = pushed.push(d);
                        // the drained message relates the old and new states
                        assert(apply_msgs_units(units_pre, chan_pre) == apply_msgs_units(
                            self.units(),
                            chan@,
                        ));
                        assert(apply_msgs_prog(prog_pre, chan_pre) == apply_msgs_prog(
                            self.program(),
                            chan@,
                        ));
                        assert(displaced_seq(units_pre, prog_pre, chan_pre) == seq![d]
                            + displaced_seq(self.units(), self.program(), chan@));
                        assert((pushed.drop_last() + seq![d]) + displaced_seq(
                            self.units(),
                            self.program(),
                            chan@,
                        ) =~= pushed + displaced_seq(self.units(), self.program(), chan@));
                        assert(retire@ =~= old(retire)@ + pushed);
                    }
                },
            }
        }
        proof {
            assert(displaced_seq(self.units(), self.program(), chan@) =~= Seq::<DropMsg>::empty());
            assert(pushed + Seq::<DropMsg>::empty() =~= pushed);
        }
    }

    /// Runs every step of the active program, in order, against the
    /// current sub-block of `ctx`: each step's unit reads its wired input
    /// from the arena (or the host input), computes, and writes its output
    /// range; output units copy their input to the host output channel.
    pub fn process(&mut self, ctx: &mut BlockContext)
        requires
            old(self).wf(),
            old(ctx).wf(),
        ensures
            final(self).wf(),
            final(self).units() == old(self).units(),
            final(self).program().prog@ == old(self).program().prog@,
            final(self).held() == old(self).held(),
            final(self).rate() == old(self).rate(),
            final(self).program().out@ == arena_after(
                old(self).units(),
                old(self).program().prog@,
                old(self).program().out@,
                old(ctx).input@,
                old(ctx).offs as int,
                old(ctx).nframes as int,
            ),
            final(ctx).output@ == hout_after(
                old(self).units(),
                old(self).program().prog@,
                old(self).program().out@,
                old(ctx).input@,
                old(ctx).output@,
                old(ctx).offs as int,
                old(ctx).nframes as int,
            ),
            final(ctx).input@ == old(ctx).input@,
            final(ctx).offs == old(ctx).offs,
            final(ctx).nframes == old(ctx).nframes,
    {
        let len = self.prog.prog.len();
        let ghost units0 = self.units();
        let ghost ops = self.prog.prog@;
        let ghost arena0 = self.prog.out@;
        let ghost hin = ctx.input@;
        let ghost hout0 = ctx.output@;
        let ghost goffs = ctx.offs as int;
        let ghost gn = ctx.nframes as int;
        let mut i: usize = 0;
        while i < len
            invariant
                i <= len,
                len == ops.len(),
                self.wf(),
                self.units() == units0,
                self.prog.prog@ == ops,
                self.held() == old(self).held(),
                self.rate() == old(self).rate(),
                ctx.input@ == hin,
                ctx.offs as int == goffs,
                ctx.nframes as int == gn,
                goffs + gn <= hin.len(),
                gn <= MAX_BLOCK_SIZE,
                ctx.output@.len() == hout0.len(),
                goffs + gn <= hout0.len(),
                self.prog.out@.len() == arena0.len(),
                self.prog.out@ == arena_after(units0, ops.take(i as int), arena0, hin, goffs, gn),
                ctx.output@ == hout_after(
                    units0,
                    ops.take(i as int),
                    arena0,
                    hin,
                    hout0,
                    goffs,
                    gn,
                ),
            decreases len - i,
        {
            let idx = self.prog.prog[i].idx;
            let node = self.nodes[idx as usize];
            let out_idxlen = self.prog.prog[i].out_idxlen;
            proof {
                assert(ops[i as int] == self.prog.prog@[i as int]);
                assert(op_fits(ops[i as int], self.prog.out@.len() as int));
                if wired_src(ops[i as int].inputs@) is Some {
                    let a = wired_src(ops[i as int].inputs@)->0;
                    lemma_wired_src_exists(ops[i as int].inputs@);
                    let jj = choose|j: int|
                        0 <= j < ops[i as int].inputs@.len() && (#[trigger] ops[
                            i as int
                        ].inputs@[j]).0 == a;
                    assert(input_has_source(ops.take(i as int), (ops[i as int].inputs@[jj]).0));
                    let kk = choose|k: int|
                        0 <= k < ops.take(i as int).len() && (#[trigger] ops.take(
                            i as int,
                        )[k]).out_idxlen.0 == a;
                    assert(ops.take(i as int)[kk] == ops[kk]);
                    assert(op_fits(ops[kk], self.prog.out@.len() as int));
                    assert(range_disjoint(ops[i as int].out_idxlen, ops[kk].out_idxlen));
                    assert(ops[kk].out_idxlen == (a, out_idxlen.1));
                }
            }
            node.process(ctx, &self.prog.prog[i].inputs, out_idxlen, &mut self.prog.out);
            proof {
                assert(ops.take(i as int + 1).drop_last() =~= ops.take(i as int));
                assert(ops.take(i as int + 1).last() == ops[i as int]);
            }
            i = i + 1;
        }
        proof {
            assert(ops.take(len as int) =~= ops);
        }
    }

    /// Runs the active program over one whole host block, splitting it
    /// into consecutive sub-blocks of at most the fixed capacity (the last
    /// may be shorter), and dispatches every pending timed event during
    /// the sub-block that covers its offset, appending `(sub-block start,
    /// event)` pairs to `dispatched`.  The output is exactly what invoking
    /// the single-sub-block pass once per sub-block yields.  The event
    /// source must offer events oldest-offset first, none earlier than
    /// events already dispatched.
    pub fn process_buffer(
        &mut self,
        ctx: &mut BlockContext,
        src: &mut EventSource,
        dispatched: &mut Vec<(usize, Event)>,
    )
        requires
            old(self).wf(),
            old(ctx).offs == 0,
            old(ctx).nframes == old(ctx).input@.len(),
            old(ctx).input@.len() == old(ctx).output@.len(),
            sorted_events(ev_stream(old(self).held(), old(src)@)),
        ensures
            final(self).wf(),
            final(self).units() == old(self).units(),
            final(self).program().prog@ == old(self).program().prog@,
            final(self).rate() == old(self).rate(),
            final(self).program().out@ == split_arena(
                old(self).units(),
                old(self).program().prog@,
                old(self).program().out@,
                old(ctx).input@,
                0,
                old(ctx).input@.len() as int,
            ),
            final(ctx).output@ == split_hout(
                old(self).units(),
                old(self).program().prog@,
                old(self).program().out@,
                old(ctx).input@,
                old(ctx).output@,
                0,
                old(ctx).input@.len() as int,
            ),
            final(ctx).input@ == old(ctx).input@,
            final(dispatched)@ == old(dispatched)@ + block_dispatch(
                ev_stream(old(self).held(), old(src)@),
                0,
                old(ctx).input@.len() as int,
            ),
    {
        let total = ctx.nframes;
        let ghost units0 = self.units();
        let ghost ops = self.prog.prog@;
        let ghost arena0 = self.prog.out@;
        let ghost hin = ctx.input@;
        let ghost hout0 = ctx.output@;
        let ghost st0 = ev_stream(old(self).held(), old(src)@);
        let ghost disp0 = dispatched@;
        let mut done: usize = 0;
        while done < total
            invariant
                done <= total,
                total == hin.len(),
                self.wf(),
                self.units() == units0,
                self.prog.prog@ == ops,
                self.rate() == old(self).rate(),
                ctx.input@ == hin,
                ctx.output@.len() == hout0.len(),
                hout0.len() == total,
                self.prog.out@.len() == arena0.len(),
                split_arena(units0, ops, arena0, hin, 0, total as int) == split_arena(
                    units0,
                    ops,
                    self.prog.out@,
                    hin,
                    done as int,
                    total as int,
                ),
                split_hout(units0, ops, arena0, hin, hout0, 0, total as int) == split_hout(
                    units0,
                    ops,
                    self.prog.out@,
                    hin,
                    ctx.output@,
                    done as int,
                    total as int,
                ),
                disp0 + block_dispatch(st0, 0, total as int) == dispatched@ + block_dispatch(
                    ev_stream(self.held(), src@),
                    done as int,
                    total as int,
                ),
                sorted_events(ev_stream(self.held(), src@)),
                forall|i: int|
                    0 <= i < ev_stream(self.held(), src@).len() ==> (#[trigger] ev_stream(
                        self.held(),
                        src@,
                    )[i]).offs >= done,
            decreases total - done,
        {
            let n = if total - done >= MAX_BLOCK_SIZE {
                MAX_BLOCK_SIZE
            } else {
                total - done
            };
            ctx.offs = done;
            ctx.nframes = n;
            let ghost arena_pre = self.prog.out@;
            let ghost hout_pre = ctx.output@;
            self.process(ctx);
            proof {
                lemma_arena_after_len(units0, ops, arena_pre, hin, done as int, n as int);
                lemma_hout_after_len(units0, ops, arena_pre, hin, hout_pre, done as int, n as int);
            }
            let ghost st_pre = ev_stream(self.held(), src@);
            let ghost disp_pre = dispatched@;
            let end = done + n;
            self.wnd.collect_events(src, done, end, dispatched);
            proof {
                lemma_count_before(st_pre, end as int);
                let cnt = count_before(st_pre, end as int);
                let st_next = ev_stream(self.held(), src@);
                assert(st_next == st_pre.skip(cnt));
                let fresh = Seq::new(cnt as nat, |i: int| ((done as usize), st_pre[i]));
                // one unfolding of each sub-block recursion
                assert(block_dispatch(st_pre, done as int, total as int) == fresh
                    + block_dispatch(st_next, end as int, total as int));
                assert((disp_pre + fresh) + block_dispatch(st_next, end as int, total as int)
                    =~= disp_pre + (fresh + block_dispatch(st_next, end as int, total as int)));
                // sortedness and lower bound carry to the remaining stream
                assert forall|i: int, j: int| 0 <= i <= j < st_next.len() implies (
                #[trigger] st_next[i]).offs <= (#[trigger] st_next[j]).offs by {
                    assert(st_next[i] == st_pre[cnt + i]);
                    assert(st_next[j] == st_pre[cnt + j]);
                }
                assert forall|i: int| 0 <= i < st_next.len() implies (#[trigger] st_next[i]).offs
                    >= end by {
                    assert(st_next[i] == st_pre[cnt + i]);
                    if cnt + i >= st_pre.len() {
                    } else {
                        if cnt < st_pre.len() {
                            assert(st_pre[cnt].offs >= end);
                            assert(st_pre[cnt].offs <= st_pre[cnt + i].offs);
                        }
                    }
                }
            }
            done = done + n;
        }
        proof {
            assert(block_dispatch(ev_stream(self.held(), src@), done as int, total as int)
                =~= Seq::<(usize, Event)>::empty());
            assert(dispatched@ + Seq::<(usize, Event)>::empty() =~= dispatched@);
        }
    }

    /// Reports a feedback value (a meter, an LED) toward the control side;
    /// dropped silently when the channel is full.
    pub fn send_feedback(
        &mut self,
        node_id: u8,
        feedback_id: u8,
        value: Sample,
        chan: &mut Queue<QuickMessage>,
    )
        ensures
            *final(self) == *old(self),
            final(chan).cap() == old(chan).cap(),
            final(chan)@ == push_attempt(
                old(chan)@,
                old(chan).cap() as int,
                QuickMessage::Feedback { node_id, feedback_id, value },
            ),
    {
        let _ = chan.try_push(QuickMessage::Feedback { node_id, feedback_id, value });
    }

    /// Pops the next queued parameter poke for an external ramping policy
    /// to apply, if any.
    pub fn next_param_update(&mut self, chan: &mut Queue<QuickMessage>) -> (r: Option<
        QuickMessage,
    >)
        ensures
            *final(self) == *old(self),
            final(chan).cap() == old(chan).cap(),
            old(chan)@.len() == 0 ==> r is None && final(chan)@ == old(chan)@,
            old(chan)@.len() > 0 ==> r == Some(old(chan)@[0])
                && final(chan)@ == old(chan)@.drop_first(),
    {
        chan.pop()
    }
}

/// The four bounded channels that connect the configurator, the executor,
/// and the reclaimer.
pub struct EngineChannels {
    /// Structural updates, configurator to executor.
    pub graph: Queue<GraphMessage>,
    /// Parameter pokes, control to audio.
    pub quick: Queue<QuickMessage>,
    /// Feedback values, audio to control.
    pub feedback: Queue<QuickMessage>,
    /// Displaced resources, executor to reclaimer.
    pub retire: Queue<DropMsg>,
}

/// Wires a fresh engine: a configurator, an executor, and the four
/// bounded channels between them, each sized as a multiple of the maximum
/// slot count.  The sample rate is fixed here and handed to every unit
/// the configurator ever creates.
pub fn new_node_engine(sample_rate: u32) -> (r: (NodeConfigurator, NodeExecutor, EngineChannels))
    ensures
        r.0.wf(),
        r.0.rate() == sample_rate,
        r.0.slots() == Seq::new(INITIAL_NODE_SLOTS as nat, |i: int| NodeInfo::Nop),
        r.1.wf(),
        r.1.rate() == sample_rate,
        r.1.units() == Seq::new(MAX_ALLOCATED_NODES as nat, |i: int| Node::Nop),
        r.1.program().prog@ == Seq::<NodeOp>::empty(),
        r.1.program().out@ == Seq::<Sample>::empty(),
        r.1.held() is None,
        r.2.graph@ == Seq::<GraphMessage>::empty(),
        r.2.graph.cap() == 2 * MAX_ALLOCATED_NODES,
        r.2.quick@ == Seq::<QuickMessage>::empty(),
        r.2.quick.cap() == 8 * MAX_ALLOCATED_NODES,
        r.2.feedback@ == Seq::<QuickMessage>::empty(),
        r.2.feedback.cap() == MAX_ALLOCATED_NODES,
        r.2.retire@ == Seq::<DropMsg>::empty(),
        r.2.retire.cap() == 2 * MAX_ALLOCATED_NODES,
{
    let conf = NodeConfigurator::new(sample_rate, INITIAL_NODE_SLOTS);
    let exec = NodeExecutor::new(sample_rate);
    let channels = EngineChannels {
        graph: Queue::new(2 * MAX_ALLOCATED_NODES),
        quick: Queue::new(8 * MAX_ALLOCATED_NODES),
        feedback: Queue::new(MAX_ALLOCATED_NODES),
        retire: Queue::new(2 * MAX_ALLOCATED_NODES),
    };
    (conf, exec, channels)
}

/// Drains the retire channel to exhaustion, dropping every displaced
/// resource, and reports how many were destroyed.  Nothing queued before
/// the drain survives it, and each resource is consumed exactly once: this
/// is the reclaiming pass that runs off the audio path.
pub fn reclaim_all(retire: &mut Queue<DropMsg>) -> (n: usize)
    ensures
        final(retire)@.len() == 0,
        final(retire).cap() == old(retire).cap(),
        n == old(retire)@.len(),
{
    let total = retire.len();
    let mut n: usize = 0;
    loop
        invariant
            total == old(retire)@.len(),
            n <= total,
            n == old(retire)@.len() - retire@.len(),
            retire@ == old(retire)@.skip(n as int),
            retire.cap() == old(retire).cap(),
        ensures
            retire@.len() == 0,
            retire.cap() == old(retire).cap(),
            n == old(retire)@.len(),
        decreases retire@.len(),
    {
        match retire.pop() {
            Some(m) => {
                proof {
                    assert(old(retire)@.skip(n as int).drop_first() =~= old(retire)@.skip(
                        n as int + 1,
                    ));
                }
                let _ = m;
                n = n + 1;
            },
            None => {
                break;
            },
        }
    }
    n
}

} // verus!
