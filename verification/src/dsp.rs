//! The closed set of DSP unit kinds and their per-sample transforms.
//!
//! The engine treats each unit's algorithm as an opaque capability: given an
//! input sample it produces an output sample.  Samples are fixed-point
//! integers; every transform saturates instead of overflowing, so a unit can
//! never panic on the audio path.

use vstd::prelude::*;

verus! {

/// One audio sample, as a fixed-point integer.
pub type Sample = i64;

/// Clamps a mathematical integer into the representable sample range.
pub open spec fn clamp_sample(v: int) -> int {
    if v > i64::MAX {
        i64::MAX as int
    } else if v < i64::MIN {
        i64::MIN as int
    } else {
        v
    }
}

/// Saturating addition on samples, as a mathematical function.
pub open spec fn sat_add(a: int, b: int) -> int {
    clamp_sample(a + b)
}

/// Saturating multiplication on samples, as a mathematical function.
pub open spec fn sat_mul(a: int, b: int) -> int {
    clamp_sample(a * b)
}

/// Saturating sample addition.
pub fn sample_add(a: Sample, b: Sample) -> (r: Sample)
    ensures
        r as int == sat_add(a as int, b as int),
{
    match a.checked_add(b) {
        Some(v) => v,
        None => {
            if a > 0 {
                i64::MAX
            } else {
                i64::MIN
            }
        },
    }
}

/// Saturating sample multiplication.
pub fn sample_mul(a: Sample, b: Sample) -> (r: Sample)
    ensures
        r as int == sat_mul(a as int, b as int),
{
    match a.checked_mul(b) {
        Some(v) => v,
        None => {
            if (a > 0 && b > 0) || (a < 0 && b < 0) {
                proof {
                    assert(a as int * b as int > 0) by (nonlinear_arith)
                        requires
                            (a > 0 && b > 0) || (a < 0 && b < 0),
                    ;
                }
                i64::MAX
            } else {
                proof {
                    assert(a as int * b as int <= 0) by (nonlinear_arith)
                        requires
                            !((a > 0 && b > 0) || (a < 0 && b < 0)),
                    ;
                }
                i64::MIN
            }
        },
    }
}

/// Identity of a unit: which kind it is, plus an instance number for
/// the caller's bookkeeping.
#[derive(Debug, Clone, Copy, PartialEq, Eq, Structural)]
pub enum NodeId {
    /// The terminal marker: no unit, never allocatable.
    Nop,
    /// Reads the host input channel.
    Inp(u8),
    /// Adds a constant offset to its input.
    Ofs(u8),
    /// Multiplies its input by a constant gain.
    Amp(u8),
    /// Copies its input to the host output channel.
    Out(u8),
}

/// The kind name of an identity, for enumeration and scripting surfaces.
pub open spec fn spec_name(n: NodeId) -> Seq<char> {
    match n {
        NodeId::Nop => "nop"@,
        NodeId::Inp(_) => "inp"@,
        NodeId::Ofs(_) => "ofs"@,
        NodeId::Amp(_) => "amp"@,
        NodeId::Out(_) => "out"@,
    }
}

impl NodeId {
    /// The identity's kind name.
    pub fn name(&self) -> (r: &'static str)
        ensures
            r@ == spec_name(*self),
    {
        match self {
            NodeId::Nop => "nop",
            NodeId::Inp(_) => "inp",
            NodeId::Ofs(_) => "ofs",
            NodeId::Amp(_) => "amp",
            NodeId::Out(_) => "out",
        }
    }

    /// The identity's instance number; the terminal marker has none.
    pub fn instance(&self) -> (r: u8)
        ensures
            r == self.spec_instance(),
    {
        match self {
            NodeId::Nop => 0,
            NodeId::Inp(i) => *i,
            NodeId::Ofs(i) => *i,
            NodeId::Amp(i) => *i,
            NodeId::Out(i) => *i,
        }
    }

    /// Mathematical counterpart of [`NodeId::instance`].
    pub open spec fn spec_instance(&self) -> u8 {
        match self {
            NodeId::Nop => 0,
            NodeId::Inp(i) => *i,
            NodeId::Ofs(i) => *i,
            NodeId::Amp(i) => *i,
            NodeId::Out(i) => *i,
        }
    }

    /// The same kind of unit, at another instance number.
    pub fn to_instance(&self, instance: u8) -> (r: NodeId)
        ensures
            r == self.spec_to_instance(instance),
    {
        match self {
            NodeId::Nop => NodeId::Nop,
            NodeId::Inp(_) => NodeId::Inp(instance),
            NodeId::Ofs(_) => NodeId::Ofs(instance),
            NodeId::Amp(_) => NodeId::Amp(instance),
            NodeId::Out(_) => NodeId::Out(instance),
        }
    }

    /// Mathematical counterpart of [`NodeId::to_instance`].
    pub open spec fn spec_to_instance(&self, instance: u8) -> NodeId {
        match self {
            NodeId::Nop => NodeId::Nop,
            NodeId::Inp(_) => NodeId::Inp(instance),
            NodeId::Ofs(_) => NodeId::Ofs(instance),
            NodeId::Amp(_) => NodeId::Amp(instance),
            NodeId::Out(_) => NodeId::Out(instance),
        }
    }
}

/// Control-side descriptor of an allocated unit: its identity and
/// parameter layout.  A slot holding `Nop` is empty.
#[derive(Debug, Clone, Copy, PartialEq, Eq, Structural)]
pub enum NodeInfo {
    Nop,
    Inp,
    Ofs,
    Amp,
    Out,
}

impl NodeInfo {
    /// The identity this descriptor stands for, at instance `instance`.
    pub fn to_id(&self, instance: u8) -> (id: NodeId)
        ensures
            id == self.spec_to_id(instance),
    {
        match self {
            NodeInfo::Nop => NodeId::Nop,
            NodeInfo::Inp => NodeId::Inp(instance),
            NodeInfo::Ofs => NodeId::Ofs(instance),
            NodeInfo::Amp => NodeId::Amp(instance),
            NodeInfo::Out => NodeId::Out(instance),
        }
    }

    /// Mathematical counterpart of [`NodeInfo::to_id`].
    pub open spec fn spec_to_id(&self, instance: u8) -> NodeId {
        match self {
            NodeInfo::Nop => NodeId::Nop,
            NodeInfo::Inp => NodeId::Inp(instance),
            NodeInfo::Ofs => NodeId::Ofs(instance),
            NodeInfo::Amp => NodeId::Amp(instance),
            NodeInfo::Out => NodeId::Out(instance),
        }
    }
}

/// A live unit instance: the audio-side object a scheduled step invokes.
/// `Nop` is the inert placeholder that every slot starts with and that a
/// freed slot is overwritten with.
#[derive(Debug, Clone, Copy, PartialEq, Eq, Structural)]
pub enum Node {
    Nop,
    Inp,
    Ofs { offset: Sample },
    Amp { gain: Sample },
    Out,
}

/// Per-sample transform of a unit: what one scheduled step writes for the
/// input sample `x`.
pub open spec fn node_apply(n: Node, x: int) -> int {
    match n {
        Node::Nop => 0,
        Node::Inp => x,
        Node::Ofs { offset } => sat_add(x, offset as int),
        Node::Amp { gain } => sat_mul(x, gain as int),
        Node::Out => x,
    }
}

/// Applies the unit's per-sample transform.
pub fn node_apply_sample(n: Node, x: Sample) -> (r: Sample)
    ensures
        r as int == node_apply(n, x as int),
{
    match n {
        Node::Nop => 0,
        Node::Inp => x,
        Node::Ofs { offset } => sample_add(x, offset),
        Node::Amp { gain } => sample_mul(x, gain),
        Node::Out => x,
    }
}

/// The fresh instance the factory makes for a known identity.
pub open spec fn factory_node(ni: NodeId) -> Node {
    match ni {
        NodeId::Nop => Node::Nop,
        NodeId::Inp(_) => Node::Inp,
        NodeId::Ofs(_) => Node::Ofs { offset: 0 },
        NodeId::Amp(_) => Node::Amp { gain: 1 },
        NodeId::Out(_) => Node::Out,
    }
}

/// The descriptor the factory makes for a known identity.
pub open spec fn factory_info(ni: NodeId) -> NodeInfo {
    match ni {
        NodeId::Nop => NodeInfo::Nop,
        NodeId::Inp(_) => NodeInfo::Inp,
        NodeId::Ofs(_) => NodeInfo::Ofs,
        NodeId::Amp(_) => NodeInfo::Amp,
        NodeId::Out(_) => NodeInfo::Out,
    }
}

/// Unit factory: produces a fresh instance plus its control-side
/// descriptor, or `None` for an unknown identity.  The fixed sample rate
/// is handed to every instance at creation; none of the closed unit kinds
/// keeps it, but the signature is the factory contract every kind obeys.
pub fn node_factory(ni: NodeId, sample_rate: u32) -> (r: Option<(Node, NodeInfo)>)
    ensures
        r is None <==> ni is Nop,
        ni !is Nop ==> r == Some((factory_node(ni), factory_info(ni))),
{
    let _ = sample_rate;
    match ni {
        NodeId::Nop => None,
        NodeId::Inp(_) => Some((Node::Inp, NodeInfo::Inp)),
        NodeId::Ofs(_) => Some((Node::Ofs { offset: 0 }, NodeInfo::Ofs)),
        NodeId::Amp(_) => Some((Node::Amp { gain: 1 }, NodeInfo::Amp)),
        NodeId::Out(_) => Some((Node::Out, NodeInfo::Out)),
    }
}

} // verus!
