//! The engine's cross-function guarantees, stated and proved once: slot
//! reuse, growth, replacement atomicity, sample-accurate event placement,
//! and the base case of block splitting.

use vstd::prelude::*;

use vstd::arithmetic::div_mod::{lemma_fundamental_div_mod, lemma_fundamental_div_mod_converse};

use crate::MAX_ALLOCATED_NODES;
use crate::MAX_BLOCK_SIZE;
use crate::dsp::{Node, NodeInfo, Sample};
use crate::events::{
    block_dispatch, count_before, lemma_count_before, sorted_events, Event,
};
use crate::nodes::{
    displaced_seq, grown_len, is_first_free, lemma_displaced_len, GraphMessage,
};
use crate::dsp::{sat_add, sat_mul};
use crate::prog::{
    arena_after, compiled_prog_shape, hout_after, min_block, split_arena, split_hout,
    step_arena, step_hout, step_in_val, step_out_val, wired_src, NodeOp, NodeProg, WireSpec,
};

verus! {

/// Slot reuse: freeing the slot a unit was just allocated into restores
/// the table exactly, so the next allocation first-fits the same index
/// again before any growth.
pub proof fn lemma_slot_reuse(slots: Seq<NodeInfo>, v: NodeInfo, i: int)
    requires
        is_first_free(slots, i),
    ensures
        slots.update(i, v).update(i, NodeInfo::Nop) == slots,
        is_first_free(slots.update(i, v).update(i, NodeInfo::Nop), i),
{
    assert(slots.update(i, v).update(i, NodeInfo::Nop) =~= slots);
}

/// Growth monotonicity: while the one-byte index space is not exhausted,
/// one growth strictly enlarges the table and at least doubles it (up to
/// the cap), so an allocation that found no free slot succeeds at the old
/// length.
pub proof fn lemma_growth_monotonic(len: int)
    requires
        0 <= len < MAX_ALLOCATED_NODES,
    ensures
        grown_len(len) > len,
        grown_len(len) <= MAX_ALLOCATED_NODES,
        2 * len <= MAX_ALLOCATED_NODES ==> grown_len(len) >= 2 * len,
        2 * len > MAX_ALLOCATED_NODES ==> grown_len(len) == MAX_ALLOCATED_NODES,
{
}

/// Replacement atomicity: a queue of N structural updates displaces
/// exactly N resources — one per update, counting the inert placeholders
/// that install-unit updates overwrite.  The executor's drain then puts
/// all N on the retire channel, whose room its precondition reserves.
pub proof fn lemma_replacement_atomicity(
    units: Seq<Node>,
    prog: NodeProg,
    msgs: Seq<GraphMessage>,
)
    ensures
        displaced_seq(units, prog, msgs).len() == msgs.len(),
{
    lemma_displaced_len(units, prog, msgs);
}

/// Counting the events before `end2` splits at any earlier bound `end1`:
/// the events before `end1` come first, the rest are counted in what
/// remains.
pub proof fn lemma_count_before_split(evts: Seq<Event>, end1: int, end2: int)
    requires
        end1 <= end2,
    ensures
        count_before(evts, end2) == count_before(evts, end1) + count_before(
            evts.skip(count_before(evts, end1)),
            end2,
        ),
    decreases evts.len(),
{
    let c1 = count_before(evts, end1);
    lemma_count_before(evts, end1);
    if evts.len() == 0 {
        assert(evts.skip(0) =~= evts);
    } else if evts[0].offs < end1 {
        lemma_count_before_split(evts.drop_first(), end1, end2);
        assert(evts.drop_first().skip(c1 - 1) =~= evts.skip(c1));
    } else {
        assert(c1 == 0);
        assert(evts.skip(0) =~= evts);
    }
}

/// Event placement: a sorted pending stream, none of whose events lies
/// before the current sub-block boundary, is dispatched in order — every
/// event with an offset inside the block exactly once, during the
/// sub-block whose range covers its offset, and at no other sub-block.
pub proof fn lemma_event_placement(evts: Seq<Event>, done: int, total: int)
    requires
        sorted_events(evts),
        0 <= done,
        total <= usize::MAX,
        done % (MAX_BLOCK_SIZE as int) == 0 || done >= total,
        forall|i: int| 0 <= i < evts.len() ==> (#[trigger] evts[i]).offs >= done,
    ensures
        block_dispatch(evts, done, total).len() == count_before(evts, total),
        forall|k: int|
            0 <= k < count_before(evts, total) ==> (#[trigger] block_dispatch(
                evts,
                done,
                total,
            )[k]).1 == evts[k],
        forall|k: int|
            0 <= k < count_before(evts, total) ==> (#[trigger] block_dispatch(
                evts,
                done,
                total,
            )[k]).0 as int == (evts[k].offs as int / (MAX_BLOCK_SIZE as int)) * (
            MAX_BLOCK_SIZE as int),
    decreases (if total - done > 0 {
        total - done
    } else {
        0
    }),
{
    let m = MAX_BLOCK_SIZE as int;
    if done >= total {
        if evts.len() > 0 {
            assert(evts[0].offs >= done);
            assert(count_before(evts, total) == 0);
        }
    } else {
        let n = min_block(total - done);
        let cnt = count_before(evts, done + n);
        lemma_count_before(evts, done + n);
        lemma_count_before_split(evts, done + n, total);
        let rest = evts.skip(cnt);
        assert forall|i: int, j: int| 0 <= i <= j < rest.len() implies (
        #[trigger] rest[i]).offs <= (#[trigger] rest[j]).offs by {
            assert(rest[i] == evts[cnt + i]);
            assert(rest[j] == evts[cnt + j]);
        }
        assert forall|i: int| 0 <= i < rest.len() implies (#[trigger] rest[i]).offs >= done
            + n by {
            assert(rest[i] == evts[cnt + i]);
            assert(evts[cnt].offs >= done + n);
            assert(evts[cnt].offs <= evts[cnt + i].offs);
        }
        if done + n < total {
            assert(n == m);
            lemma_fundamental_div_mod(done, m);
            assert(done == m * (done / m));
            lemma_fundamental_div_mod_converse(done + m, m, done / m + 1, 0);
            assert((done + n) % m == 0);
        }
        lemma_event_placement(rest, done + n, total);
        let d = block_dispatch(evts, done, total);
        let fresh = Seq::new(cnt as nat, |i: int| ((done as usize), evts[i]));
        let drest = block_dispatch(rest, done + n, total);
        assert(d == fresh + drest);
        assert(count_before(rest, total) == drest.len());
        assert(d.len() == count_before(evts, total));
        assert forall|k: int| 0 <= k < count_before(evts, total) implies (#[trigger] d[k]).1
            == evts[k] && (d[k]).0 as int == (evts[k].offs as int / m) * m by {
            if k < cnt {
                assert(d[k] == fresh[k]);
                assert(evts[k].offs < done + n);
                assert(evts[k].offs >= done);
                lemma_fundamental_div_mod(done, m);
                assert(done == m * (done / m));
                lemma_fundamental_div_mod_converse(
                    evts[k].offs as int,
                    m,
                    done / m,
                    evts[k].offs - done,
                );
                assert(evts[k].offs as int / m == done / m);
            } else {
                lemma_count_before(rest, total);
                assert(0 <= k - cnt < count_before(rest, total));
                assert(d[k] == drest[k - cnt]);
                assert(drest[k - cnt].1 == rest[k - cnt]);
                assert(rest[k - cnt] == evts[k]);
            }
        }
    }
}

/// Program correctness: a linear wiring — host input into an offset unit
/// into a gain unit into an output unit — writes, for every frame of the
/// sub-block, the composition of the per-step transforms applied to the
/// host input sample onto the host output channel, and leaves every other
/// output frame untouched.
pub proof fn lemma_linear_chain(
    nodes: Seq<Node>,
    ops: Seq<NodeOp>,
    arena0: Seq<Sample>,
    hin: Seq<Sample>,
    hout0: Seq<Sample>,
    hoffs: int,
    n: int,
    offset: i64,
    gain: i64,
)
    requires
        nodes.len() > 3,
        nodes[0] == Node::Inp,
        nodes[1] == (Node::Ofs { offset }),
        nodes[2] == (Node::Amp { gain }),
        nodes[3] == Node::Out,
        ops.len() == 4,
        forall|i: int| 0 <= i < 4 ==> (#[trigger] ops[i]).idx == i,
        forall|i: int| 0 <= i < 4 ==> (#[trigger] ops[i]).out_idxlen.0 == i * MAX_BLOCK_SIZE,
        wired_src(ops[0].inputs@) is None,
        wired_src(ops[1].inputs@) == Some(0usize),
        wired_src(ops[2].inputs@) == Some(MAX_BLOCK_SIZE),
        wired_src(ops[3].inputs@) == Some((2 * MAX_BLOCK_SIZE) as usize),
        arena0.len() >= 4 * MAX_BLOCK_SIZE,
        0 <= hoffs,
        0 <= n <= MAX_BLOCK_SIZE,
        hoffs + n <= hin.len(),
        hoffs + n <= hout0.len(),
    ensures
        hout_after(nodes, ops, arena0, hin, hout0, hoffs, n).len() == hout0.len(),
        forall|s: int|
            0 <= s < n ==> (#[trigger] hout_after(nodes, ops, arena0, hin, hout0, hoffs, n)[
                hoffs + s
            ]) as int == sat_mul(sat_add(hin[hoffs + s] as int, offset as int), gain as int),
        forall|i: int|
            0 <= i < hout0.len() && !(hoffs <= i < hoffs + n) ==> hout_after(
                nodes,
                ops,
                arena0,
                hin,
                hout0,
                hoffs,
                n,
            )[i] == hout0[i],
{
    let m = MAX_BLOCK_SIZE as int;
    let s3 = ops.drop_last();
    let s2 = s3.drop_last();
    let s1 = s2.drop_last();
    let s0 = s1.drop_last();
    assert(s0.len() == 0);
    assert(s1.last() == ops[0] && s1.drop_last() =~= s0);
    assert(s2.last() == ops[1] && s2.drop_last() =~= s1);
    assert(s3.last() == ops[2] && s3.drop_last() =~= s2);
    assert(ops.last() == ops[3]);

    let a0 = arena_after(nodes, s0, arena0, hin, hoffs, n);
    let a1 = arena_after(nodes, s1, arena0, hin, hoffs, n);
    let a2 = arena_after(nodes, s2, arena0, hin, hoffs, n);
    let a3 = arena_after(nodes, s3, arena0, hin, hoffs, n);
    assert(a0 == arena0);
    assert(a1 == step_arena(
        nodes[s1.last().idx as int],
        s1.last().out_idxlen.0 as int,
        wired_src(s1.last().inputs@),
        arena_after(nodes, s1.drop_last(), arena0, hin, hoffs, n),
        hin,
        hoffs,
        n,
    ));
    assert(arena_after(nodes, s1.drop_last(), arena0, hin, hoffs, n) == a0);
    assert(arena_after(nodes, s2.drop_last(), arena0, hin, hoffs, n) == a1);
    assert(arena_after(nodes, s3.drop_last(), arena0, hin, hoffs, n) == a2);
    assert(arena_after(nodes, ops.drop_last(), arena0, hin, hoffs, n) == a3);
    assert(a1 == step_arena(Node::Inp, 0, wired_src(ops[0].inputs@), arena0, hin, hoffs, n));
    assert(a2 == step_arena(
        Node::Ofs { offset },
        m,
        Some(0usize),
        a1,
        hin,
        hoffs,
        n,
    ));
    assert(a3 == step_arena(
        Node::Amp { gain },
        2 * m,
        Some(MAX_BLOCK_SIZE),
        a2,
        hin,
        hoffs,
        n,
    ));
    assert(a1.len() == arena0.len() && a2.len() == arena0.len() && a3.len() == arena0.len());

    assert forall|s: int| 0 <= s < n implies a1[s] as int == hin[hoffs + s] as int by {
        assert(a1[s] as int == step_out_val(
            Node::Inp,
            wired_src(ops[0].inputs@),
            arena0,
            hin,
            hoffs,
            s,
        ));
    }
    assert forall|s: int| 0 <= s < n implies (#[trigger] a2[m + s]) as int == sat_add(
        hin[hoffs + s] as int,
        offset as int,
    ) by {
        assert(a2[m + s] as int == step_out_val(
            Node::Ofs { offset },
            Some(0usize),
            a1,
            hin,
            hoffs,
            s,
        ));
        assert(step_in_val(Node::Ofs { offset }, Some(0usize), a1, hin, hoffs, s) == a1[
            s
        ] as int);
    }
    assert forall|s: int| 0 <= s < n implies (#[trigger] a3[2 * m + s]) as int == sat_mul(
        sat_add(hin[hoffs + s] as int, offset as int),
        gain as int,
    ) by {
        assert(a3[2 * m + s] as int == step_out_val(
            Node::Amp { gain },
            Some(MAX_BLOCK_SIZE),
            a2,
            hin,
            hoffs,
            s,
        ));
        assert(step_in_val(Node::Amp { gain }, Some(MAX_BLOCK_SIZE), a2, hin, hoffs, s) == a2[
            m + s
        ] as int);
    }

    let h0 = hout_after(nodes, s0, arena0, hin, hout0, hoffs, n);
    let h1 = hout_after(nodes, s1, arena0, hin, hout0, hoffs, n);
    let h2 = hout_after(nodes, s2, arena0, hin, hout0, hoffs, n);
    let h3 = hout_after(nodes, s3, arena0, hin, hout0, hoffs, n);
    let h4 = hout_after(nodes, ops, arena0, hin, hout0, hoffs, n);
    assert(h0 == hout0);
    assert(hout_after(nodes, s1.drop_last(), arena0, hin, hout0, hoffs, n) == h0);
    assert(hout_after(nodes, s2.drop_last(), arena0, hin, hout0, hoffs, n) == h1);
    assert(hout_after(nodes, s3.drop_last(), arena0, hin, hout0, hoffs, n) == h2);
    assert(hout_after(nodes, ops.drop_last(), arena0, hin, hout0, hoffs, n) == h3);
    assert(h1 == step_hout(
        nodes[s1.last().idx as int],
        wired_src(s1.last().inputs@),
        arena_after(nodes, s1.drop_last(), arena0, hin, hoffs, n),
        hin,
        h0,
        hoffs,
        n,
    ));
    assert(h1 == hout0 && h2 == hout0 && h3 == hout0);
    assert(h4 == step_hout(
        Node::Out,
        wired_src(ops[3].inputs@),
        a3,
        hin,
        hout0,
        hoffs,
        n,
    ));
    assert forall|s: int| 0 <= s < n implies (#[trigger] h4[hoffs + s]) as int == sat_mul(
        sat_add(hin[hoffs + s] as int, offset as int),
        gain as int,
    ) by {
        assert(h4[hoffs + s] as int == step_out_val(
            Node::Out,
            wired_src(ops[3].inputs@),
            a3,
            hin,
            hoffs,
            s,
        ));
        assert(step_in_val(Node::Out, Some((2 * MAX_BLOCK_SIZE) as usize), a3, hin, hoffs, s)
            == a3[2 * m + s] as int);
    }
}

/// Program correctness, end to end: the program the compiler builds from
/// the linear wiring — host input into an offset unit into a gain unit
/// into an output unit — writes, on any sub-block it is run over, the
/// composed transforms of the host input onto the host output channel.
pub proof fn lemma_compiled_chain_correct(
    p: NodeProg,
    w: Seq<WireSpec>,
    nodes: Seq<Node>,
    hin: Seq<Sample>,
    hout0: Seq<Sample>,
    hoffs: int,
    n: int,
    offset: i64,
    gain: i64,
)
    requires
        compiled_prog_shape(p, w),
        w.len() == 4,
        forall|i: int| 0 <= i < 4 ==> (#[trigger] w[i]).node_idx == i,
        w[0].input_from is None,
        w[1].input_from == Some(0usize),
        w[2].input_from == Some(1usize),
        w[3].input_from == Some(2usize),
        nodes.len() > 3,
        nodes[0] == Node::Inp,
        nodes[1] == (Node::Ofs { offset }),
        nodes[2] == (Node::Amp { gain }),
        nodes[3] == Node::Out,
        0 <= hoffs,
        0 <= n <= MAX_BLOCK_SIZE,
        hoffs + n <= hin.len(),
        hoffs + n <= hout0.len(),
    ensures
        forall|s: int|
            0 <= s < n ==> (#[trigger] hout_after(nodes, p.prog@, p.out@, hin, hout0, hoffs, n)[
                hoffs + s
            ]) as int == sat_mul(sat_add(hin[hoffs + s] as int, offset as int), gain as int),
{
    let ops = p.prog@;
    assert(ops.len() == 4);
    assert forall|i: int| 0 <= i < 4 implies (#[trigger] ops[i]).idx == i by {
        assert(ops[i].idx == w[i].node_idx);
    }
    assert(wired_src(ops[0].inputs@) is None);
    assert(wired_src(ops[1].inputs@) == Some(0usize)) by {
        assert(ops[1].inputs@.len() == 1 && (ops[1].inputs@[0]).1 == 0);
        assert((ops[1].inputs@[0]).0 == 0 * MAX_BLOCK_SIZE);
    }
    assert(wired_src(ops[2].inputs@) == Some(MAX_BLOCK_SIZE)) by {
        assert(ops[2].inputs@.len() == 1 && (ops[2].inputs@[0]).1 == 0);
        assert((ops[2].inputs@[0]).0 == 1 * MAX_BLOCK_SIZE);
    }
    assert(wired_src(ops[3].inputs@) == Some((2 * MAX_BLOCK_SIZE) as usize)) by {
        assert(ops[3].inputs@.len() == 1 && (ops[3].inputs@[0]).1 == 0);
        assert((ops[3].inputs@[0]).0 == 2 * MAX_BLOCK_SIZE);
    }
    assert(p.out@.len() == 4 * MAX_BLOCK_SIZE);
    lemma_linear_chain(nodes, ops, p.out@, hin, hout0, hoffs, n, offset, gain);
}

/// Block-splitting base case: a block no longer than the sub-block
/// capacity runs in exactly one pass, so the split run and the single
/// pass agree.
pub proof fn lemma_split_single(
    nodes: Seq<Node>,
    ops: Seq<NodeOp>,
    arena0: Seq<Sample>,
    hin: Seq<Sample>,
    hout0: Seq<Sample>,
    total: int,
)
    requires
        0 < total <= MAX_BLOCK_SIZE,
    ensures
        split_arena(nodes, ops, arena0, hin, 0, total) == arena_after(
            nodes,
            ops,
            arena0,
            hin,
            0,
            total,
        ),
        split_hout(nodes, ops, arena0, hin, hout0, 0, total) == hout_after(
            nodes,
            ops,
            arena0,
            hin,
            hout0,
            0,
            total,
        ),
{
    let n = min_block(total);
    assert(n == total);
    assert(split_arena(nodes, ops, arena0, hin, 0, total) == split_arena(
        nodes,
        ops,
        arena_after(nodes, ops, arena0, hin, 0, n),
        hin,
        n,
        total,
    ));
    assert(split_hout(nodes, ops, arena0, hin, hout0, 0, total) == split_hout(
        nodes,
        ops,
        arena_after(nodes, ops, arena0, hin, 0, n),
        hin,
        hout_after(nodes, ops, arena0, hin, hout0, 0, n),
        n,
        total,
    ));
}

} // verus!
