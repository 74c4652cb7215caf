use node_engine::context::BlockContext;
use node_engine::dsp::{sample_add, sample_mul, Node, NodeId};
use node_engine::events::EventSource;
use node_engine::nodes::{new_node_engine, GraphMessage};
use node_engine::prog::{compile_program, NodeOp, NodeProg, OutOp, WireSpec};
use node_engine::MAX_BLOCK_SIZE;

fn linear_chain_wiring() -> Vec<WireSpec> {
    vec![
        WireSpec { node_idx: 0, input_from: None },
        WireSpec { node_idx: 1, input_from: Some(0) },
        WireSpec { node_idx: 2, input_from: Some(1) },
        WireSpec { node_idx: 3, input_from: Some(2) },
    ]
}

/// Installs input -> offset(+5) -> gain(*3) -> output into the executor.
fn install_chain(
    exec: &mut node_engine::nodes::NodeExecutor,
    ch: &mut node_engine::nodes::EngineChannels,
) {
    let units = [
        Node::Inp,
        Node::Ofs { offset: 5 },
        Node::Amp { gain: 3 },
        Node::Out,
    ];
    for (i, node) in units.iter().enumerate() {
        let pushed = ch.graph.try_push(GraphMessage::NewNode { index: i as u8, node: *node });
        assert!(pushed.is_none());
    }
    let prog = compile_program(&linear_chain_wiring()).expect("a linear wiring compiles");
    let pushed = ch.graph.try_push(GraphMessage::NewProg { prog });
    assert!(pushed.is_none());
    exec.process_graph_updates(&mut ch.graph, &mut ch.retire);
}

#[test]
fn linear_chain_composes_transforms() {
    let (_conf, mut exec, mut ch) = new_node_engine(44100);
    install_chain(&mut exec, &mut ch);
    let input: Vec<i64> = (0..MAX_BLOCK_SIZE as i64).collect();
    let mut ctx = BlockContext::for_block(input.clone());
    exec.process(&mut ctx);
    for s in 0..input.len() {
        assert_eq!(ctx.output[s], (input[s] + 5) * 3);
    }
}

#[test]
fn misordered_wiring_is_rejected_at_compile_time() {
    // an entry may only read from an entry scheduled before it
    let wiring = vec![
        WireSpec { node_idx: 0, input_from: Some(1) },
        WireSpec { node_idx: 1, input_from: None },
    ];
    assert!(compile_program(&wiring).is_none());
    // self-reference is just as invalid
    let selfref = vec![WireSpec { node_idx: 0, input_from: Some(0) }];
    assert!(compile_program(&selfref).is_none());
}

#[test]
fn rejected_wiring_installs_nothing() {
    let (mut conf, _exec, mut ch) = new_node_engine(44100);
    let wiring = vec![WireSpec { node_idx: 0, input_from: Some(0) }];
    let ok = conf.build_and_install_program(&wiring, &mut ch.graph);
    assert!(!ok);
    assert_eq!(ch.graph.len(), 0);
}

#[test]
fn compiled_program_owns_one_sub_block_per_step() {
    let prog = compile_program(&linear_chain_wiring()).unwrap();
    assert_eq!(prog.prog.len(), 4);
    assert_eq!(prog.out.len(), 4 * MAX_BLOCK_SIZE);
    for (i, op) in prog.prog.iter().enumerate() {
        assert_eq!(op.idx, i as u8);
        assert_eq!(op.out_idxlen, (i * MAX_BLOCK_SIZE, MAX_BLOCK_SIZE));
    }
    assert_eq!(prog.prog[0].inputs.len(), 0);
    assert_eq!(prog.prog[2].inputs, vec![(MAX_BLOCK_SIZE, 0)]);
}

#[test]
fn split_run_matches_manual_sub_block_runs() {
    let total: usize = 2 * MAX_BLOCK_SIZE + 22;
    let input: Vec<i64> = (0..total as i64).map(|v| v * 7 - 100).collect();

    let (_conf, mut exec_split, mut ch_split) = new_node_engine(44100);
    install_chain(&mut exec_split, &mut ch_split);
    let mut ctx_split = BlockContext::for_block(input.clone());
    let mut src = EventSource::from_events(Vec::new());
    let mut dispatched: Vec<(usize, node_engine::events::Event)> = Vec::new();
    exec_split.process_buffer(&mut ctx_split, &mut src, &mut dispatched);

    let (_conf2, mut exec_manual, mut ch_manual) = new_node_engine(44100);
    install_chain(&mut exec_manual, &mut ch_manual);
    let mut ctx_manual = BlockContext::for_block(input);
    let mut done: usize = 0;
    while done < total {
        let n = (total - done).min(MAX_BLOCK_SIZE);
        ctx_manual.offs = done;
        ctx_manual.nframes = n;
        exec_manual.process(&mut ctx_manual);
        done += n;
    }

    assert_eq!(ctx_split.output, ctx_manual.output);
    assert!(dispatched.is_empty());
}

#[test]
fn unwired_offset_unit_emits_its_offset() {
    let (_conf, mut exec, mut ch) = new_node_engine(44100);
    let pushed = ch.graph.try_push(GraphMessage::NewNode {
        index: 0,
        node: Node::Ofs { offset: 9 },
    });
    assert!(pushed.is_none());
    let pushed = ch.graph.try_push(GraphMessage::NewNode { index: 1, node: Node::Out });
    assert!(pushed.is_none());
    let wiring = vec![
        WireSpec { node_idx: 0, input_from: None },
        WireSpec { node_idx: 1, input_from: Some(0) },
    ];
    let prog = compile_program(&wiring).unwrap();
    let pushed = ch.graph.try_push(GraphMessage::NewProg { prog });
    assert!(pushed.is_none());
    exec.process_graph_updates(&mut ch.graph, &mut ch.retire);
    let mut ctx = BlockContext::for_block(vec![1, 2, 3]);
    exec.process(&mut ctx);
    assert_eq!(ctx.output, vec![9, 9, 9]);
}

#[test]
fn saturating_transforms_clamp_at_the_rails() {
    assert_eq!(sample_add(i64::MAX, 1), i64::MAX);
    assert_eq!(sample_add(i64::MIN, -1), i64::MIN);
    assert_eq!(sample_add(40, 2), 42);
    assert_eq!(sample_mul(i64::MAX, 2), i64::MAX);
    assert_eq!(sample_mul(i64::MAX, -2), i64::MIN);
    assert_eq!(sample_mul(i64::MIN, -1), i64::MAX);
    assert_eq!(sample_mul(-6, 7), -42);
}

#[test]
fn factory_produces_matching_descriptor_and_instance() {
    let made = node_engine::dsp::node_factory(NodeId::Amp(3), 48000);
    let (node, info) = made.unwrap();
    assert!(matches!(node, Node::Amp { gain: 1 }));
    assert_eq!(info.to_id(3), NodeId::Amp(3));
    assert!(node_engine::dsp::node_factory(NodeId::Nop, 48000).is_none());
}

#[test]
fn empty_step_and_wiring_records() {
    let op = NodeOp::empty();
    assert_eq!(op.idx, 0);
    assert_eq!(op.out_idxlen, (0, 0));
    assert!(op.inputs.is_empty());
    let wire = OutOp { out_port_idx: 1, node_idx: 2, dst_param_idx: 3 };
    assert_eq!(wire.node_idx, 2);
    let p = NodeProg::empty();
    assert!(p.out.is_empty() && p.prog.is_empty());
}

#[test]
fn program_builder_refuses_overlapping_ranges() {
    let mut p = NodeProg::new(2 * MAX_BLOCK_SIZE);
    let op0 = NodeOp { idx: 0, out_idxlen: (0, MAX_BLOCK_SIZE), inputs: Vec::new() };
    assert!(p.append_with_inputs(op0, None, None, None));
    // same range again: overlap, refused
    let op1 = NodeOp { idx: 1, out_idxlen: (0, MAX_BLOCK_SIZE), inputs: Vec::new() };
    assert!(!p.append_with_inputs(op1, None, None, None));
    // an input offset nothing has written yet: refused
    let op2 = NodeOp { idx: 1, out_idxlen: (MAX_BLOCK_SIZE, MAX_BLOCK_SIZE), inputs: Vec::new() };
    assert!(!p.append_with_inputs(op2, Some((7, 0)), None, None));
    // wired to the first step's range: accepted
    let op3 = NodeOp { idx: 1, out_idxlen: (MAX_BLOCK_SIZE, MAX_BLOCK_SIZE), inputs: Vec::new() };
    assert!(p.append_with_inputs(op3, Some((0, 0)), None, None));
    assert_eq!(p.prog.len(), 2);
}
