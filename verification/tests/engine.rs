use node_engine::dsp::{Node, NodeId, NodeInfo};
use node_engine::nodes::{new_node_engine, reclaim_all, GraphMessage};
use node_engine::prog::WireSpec;
use node_engine::INITIAL_NODE_SLOTS;

#[test]
fn create_node_returns_first_slot() {
    let (mut conf, _exec, mut ch) = new_node_engine(44100);
    let idx = conf.create_node(NodeId::Amp(0), &mut ch.graph);
    assert_eq!(idx, Some(0));
    let idx2 = conf.create_node(NodeId::Ofs(0), &mut ch.graph);
    assert_eq!(idx2, Some(1));
    assert_eq!(ch.graph.len(), 2);
}

#[test]
fn create_node_unknown_identity_fails() {
    let (mut conf, _exec, mut ch) = new_node_engine(44100);
    let idx = conf.create_node(NodeId::Nop, &mut ch.graph);
    assert_eq!(idx, None);
    assert_eq!(ch.graph.len(), 0);
}

#[test]
fn slot_reuse_after_free() {
    let (mut conf, _exec, mut ch) = new_node_engine(44100);
    let first = conf.create_node(NodeId::Amp(0), &mut ch.graph);
    assert_eq!(first, Some(0));
    let second = conf.create_node(NodeId::Ofs(0), &mut ch.graph);
    assert_eq!(second, Some(1));
    conf.drop_node(0, &mut ch.graph);
    let again = conf.create_node(NodeId::Out(0), &mut ch.graph);
    assert_eq!(again, first);
}

#[test]
fn drop_node_out_of_range_is_noop() {
    let (mut conf, _exec, mut ch) = new_node_engine(44100);
    conf.drop_node(1000, &mut ch.graph);
    assert_eq!(ch.graph.len(), 0);
}

#[test]
fn drop_node_empty_slot_is_noop() {
    let (mut conf, _exec, mut ch) = new_node_engine(44100);
    conf.drop_node(3, &mut ch.graph);
    assert_eq!(ch.graph.len(), 0);
}

#[test]
fn growth_doubles_and_allocation_succeeds() {
    let (mut conf, _exec, mut ch) = new_node_engine(44100);
    for i in 0..INITIAL_NODE_SLOTS {
        let idx = conf.create_node(NodeId::Amp(0), &mut ch.graph);
        assert_eq!(idx, Some(i as u8));
    }
    // table full: the next allocation grows it and lands at the old length
    let grown = conf.create_node(NodeId::Ofs(0), &mut ch.graph);
    assert_eq!(grown, Some(INITIAL_NODE_SLOTS as u8));
    // and the grown table keeps accepting allocations
    let next = conf.create_node(NodeId::Ofs(1), &mut ch.graph);
    assert_eq!(next, Some(INITIAL_NODE_SLOTS as u8 + 1));
}

#[test]
fn for_each_stops_at_first_empty_slot() {
    let (mut conf, _exec, mut ch) = new_node_engine(44100);
    conf.create_node(NodeId::Amp(0), &mut ch.graph);
    conf.create_node(NodeId::Ofs(0), &mut ch.graph);
    conf.create_node(NodeId::Out(0), &mut ch.graph);
    conf.drop_node(1, &mut ch.graph);
    let visible = conf.for_each();
    assert_eq!(visible.len(), 1);
    assert_eq!(visible[0].0, NodeInfo::Amp);
    assert_eq!(visible[0].2, 0);
}

#[test]
fn replacement_atomicity_one_retire_per_update() {
    let (mut conf, mut exec, mut ch) = new_node_engine(44100);
    conf.create_node(NodeId::Amp(0), &mut ch.graph);
    conf.create_node(NodeId::Ofs(0), &mut ch.graph);
    let wiring: Vec<WireSpec> = vec![WireSpec { node_idx: 0, input_from: None }];
    let ok = conf.build_and_install_program(&wiring, &mut ch.graph);
    assert!(ok);
    assert_eq!(ch.graph.len(), 3);
    exec.process_graph_updates(&mut ch.graph, &mut ch.retire);
    assert_eq!(ch.graph.len(), 0);
    assert_eq!(ch.retire.len(), 3);
    let nodes = exec.get_nodes();
    assert!(matches!(nodes[0], Node::Amp { gain: 1 }));
    assert!(matches!(nodes[1], Node::Ofs { offset: 0 }));
    assert_eq!(exec.get_prog().prog.len(), 1);
}

#[test]
fn reclaimer_consumes_every_retired_resource_once() {
    let (mut conf, mut exec, mut ch) = new_node_engine(44100);
    conf.create_node(NodeId::Amp(0), &mut ch.graph);
    conf.create_node(NodeId::Ofs(0), &mut ch.graph);
    conf.drop_node(0, &mut ch.graph);
    exec.process_graph_updates(&mut ch.graph, &mut ch.retire);
    let retired = ch.retire.len();
    assert_eq!(retired, 3);
    let destroyed = reclaim_all(&mut ch.retire);
    assert_eq!(destroyed, retired);
    assert_eq!(ch.retire.len(), 0);
    // a second drain finds nothing: nothing is destroyed twice
    assert_eq!(reclaim_all(&mut ch.retire), 0);
}

#[test]
fn freed_unit_is_replaced_by_inert_instance() {
    let (mut conf, mut exec, mut ch) = new_node_engine(44100);
    conf.create_node(NodeId::Amp(0), &mut ch.graph);
    exec.process_graph_updates(&mut ch.graph, &mut ch.retire);
    assert!(matches!(exec.get_nodes()[0], Node::Amp { .. }));
    conf.drop_node(0, &mut ch.graph);
    exec.process_graph_updates(&mut ch.graph, &mut ch.retire);
    assert!(matches!(exec.get_nodes()[0], Node::Nop));
}

#[test]
fn quick_updates_travel_both_ways() {
    let (mut conf, mut exec, mut ch) = new_node_engine(44100);
    conf.param_update(2, 1, 42, &mut ch.quick);
    let got = exec.next_param_update(&mut ch.quick);
    assert!(matches!(
        got,
        Some(node_engine::nodes::QuickMessage::ParamUpdate { node_id: 2, param_id: 1, value: 42 })
    ));
    assert!(exec.next_param_update(&mut ch.quick).is_none());
    exec.send_feedback(5, 0, -7, &mut ch.feedback);
    let fb = conf.next_feedback(&mut ch.feedback);
    assert!(matches!(
        fb,
        Some(node_engine::nodes::QuickMessage::Feedback { node_id: 5, feedback_id: 0, value: -7 })
    ));
}

#[test]
fn create_node_on_full_channel_is_a_whole_no_op() {
    let (mut conf, _exec, _ch) = new_node_engine(44100);
    let mut chan: node_engine::queue::Queue<GraphMessage> = node_engine::queue::Queue::new(1);
    let first = conf.create_node(NodeId::Amp(0), &mut chan);
    assert_eq!(first, Some(0));
    assert_eq!(chan.len(), 1);
    // the channel is full: no slot is taken, no index returned
    let refused = conf.create_node(NodeId::Ofs(0), &mut chan);
    assert_eq!(refused, None);
    assert_eq!(chan.len(), 1);
    // with room again, the allocation lands in the slot the refused call
    // did not consume
    assert!(chan.pop().is_some());
    let retried = conf.create_node(NodeId::Ofs(0), &mut chan);
    assert_eq!(retried, Some(1));
}

#[test]
fn drop_node_on_full_channel_is_a_whole_no_op() {
    let (mut conf, _exec, _ch) = new_node_engine(44100);
    let mut chan: node_engine::queue::Queue<GraphMessage> = node_engine::queue::Queue::new(1);
    let idx = conf.create_node(NodeId::Amp(0), &mut chan);
    assert_eq!(idx, Some(0));
    // the channel is full: the slot keeps its descriptor
    conf.drop_node(0, &mut chan);
    assert_eq!(chan.len(), 1);
    assert_eq!(conf.for_each().len(), 1);
    // with room again the free goes through whole
    assert!(chan.pop().is_some());
    conf.drop_node(0, &mut chan);
    assert_eq!(chan.len(), 1);
    assert_eq!(conf.for_each().len(), 0);
}

#[test]
fn identities_expose_name_and_instance() {
    assert_eq!(NodeId::Amp(3).name(), "amp");
    assert_eq!(NodeId::Amp(3).instance(), 3);
    assert_eq!(NodeId::Nop.name(), "nop");
    assert_eq!(NodeId::Inp(0).to_instance(2), NodeId::Inp(2));
    assert_eq!(NodeId::Out(9).to_instance(0).instance(), 0);
}

#[test]
fn structural_updates_can_carry_custom_instances() {
    let (_conf, mut exec, mut ch) = new_node_engine(48000);
    let pushed = ch.graph.try_push(GraphMessage::NewNode {
        index: 7,
        node: Node::Ofs { offset: 11 },
    });
    assert!(pushed.is_none());
    exec.process_graph_updates(&mut ch.graph, &mut ch.retire);
    assert!(matches!(exec.get_nodes()[7], Node::Ofs { offset: 11 }));
}
